//! The file formats, and which one a path names.

use vstd::prelude::*;
use crate::text::chars_of;

verus! {

/// The formats in which boards are stored.
#[derive(Debug, Clone, Copy, PartialEq, Eq, Structural)]
pub enum FileFormat {
    /// An array of records, each with a matrix under `board`.
    Json,
    /// Nine lines of nine values with commas between them.
    Csv,
}

/// The text ends with `suffix`.
pub open spec fn has_suffix(s: Seq<char>, suffix: Seq<char>) -> bool {
    s.len() >= suffix.len() && s.skip(s.len() - suffix.len()) == suffix
}

/// The format that the end of a path stands for.
pub open spec fn format_of_path(path: Seq<char>) -> Option<FileFormat> {
    if has_suffix(path, ".json"@) {
        Some(FileFormat::Json)
    } else if has_suffix(path, ".csv"@) {
        Some(FileFormat::Csv)
    } else {
        None
    }
}

/// Whether the text ends with `suffix`.
pub fn ends_with(s: &Vec<char>, suffix: &Vec<char>) -> (yes: bool)
    ensures
        yes == has_suffix(s@, suffix@),
{
    if s.len() < suffix.len() {
        return false;
    }
    let offset = s.len() - suffix.len();
    let ghost tail = s@.skip(offset as int);
    for i in 0..suffix.len()
        invariant
            offset + suffix.len() == s.len(),
            tail == s@.skip(offset as int),
            forall|k: int| 0 <= k < i ==> #[trigger] tail[k] == suffix@[k],
    {
        if s[offset + i] != suffix[i] {
            assert(tail[i as int] != suffix@[i as int]);
            return false;
        }
    }
    assert(tail =~= suffix@);
    true
}

/// The format of the file at `path`, by the end of its name: `.json` or
/// `.csv`; `None` for any other.
pub fn detect_format_from_path(path: &str) -> (format: Option<FileFormat>)
    ensures
        format == format_of_path(path@),
{
    let name = chars_of(path);
    if ends_with(&name, &chars_of(".json")) {
        Some(FileFormat::Json)
    } else if ends_with(&name, &chars_of(".csv")) {
        Some(FileFormat::Csv)
    } else {
        None
    }
}

} // verus!
