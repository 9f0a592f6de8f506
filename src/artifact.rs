//! Attributes that come from the host: an input's file name and the time
//! of an ingestion.

use vstd::prelude::*;

verus! {

/// The final component of a path, as the platform's path rules give it;
/// none for a path that ends in `..` or is a root.
pub uninterp spec fn file_name_of(path: Seq<char>) -> Option<Seq<char>>;

/// Relies on `Path::file_name`: the last component of the path, taken
/// back to text; the result depends on the path's text alone.
#[verifier::external_body]
fn path_file_name(path: &str) -> (r: Option<String>)
    ensures
        match r {
            Some(n) => file_name_of(path@) == Some(n@),
            None => file_name_of(path@) is None,
        },
{
    std::path::Path::new(path).file_name().map(|n| n.to_string_lossy().into_owned())
}

/// Relies on `SystemTime::now` measured from `UNIX_EPOCH`: microseconds
/// since the epoch, none when the clock reads earlier than it.
#[verifier::external_body]
fn epoch_micros() -> (r: Option<u128>) {
    std::time::SystemTime::now().duration_since(std::time::UNIX_EPOCH).ok().map(|d| d.as_micros())
}

/// The file name of a path, as used for an artifact's input name; none
/// when the path names no file (a root, or a path ending in `..`), on which
/// the command-line front end stops with "Cannot get a filename".
pub fn make_filename(filename: &String) -> (r: Option<String>)
    ensures
        match r {
            Some(n) => file_name_of(filename@) == Some(n@),
            None => file_name_of(filename@) is None,
        },
{
    path_file_name(filename.as_str())
}

/// The time of an ingestion in microseconds since the epoch, as the clock
/// reads it; none when the clock reads earlier than the epoch, on which the
/// command-line front end stops with "Time went backwards".
pub fn make_timestamp() -> (r: Option<u128>) {
    epoch_micros()
}

} // verus!
