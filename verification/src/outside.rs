//! What the library takes from std on trust: the types that it carries
//! through without looking inside, and the texts that std's formatting gives.
//! Nothing here is proved; each item says what it claims of std.

use std::path::PathBuf;
use vstd::prelude::*;

verus! {

/// `std::path::PathBuf`, declared so that a path can be carried through
/// verified code. Nothing is claimed of what a path holds.
#[verifier::external_type_specification]
#[verifier::external_body]
pub struct ExPathBuf(std::path::PathBuf);

/// `std::time::SystemTime`, declared so that a timestamp can be carried
/// through verified code. Nothing is claimed of what a timestamp holds.
#[verifier::external_type_specification]
#[verifier::external_body]
pub struct ExSystemTime(std::time::SystemTime);

/// `Clone::clone` of `std::path::PathBuf`: the copy is the same path as the
/// one it was made of.
pub assume_specification[ <std::path::PathBuf as Clone>::clone ](
    path: &std::path::PathBuf,
) -> (copy: std::path::PathBuf)
    ensures
        copy == *path,
;

/// The text that formatting with `{:?}` gives for a path. It depends on the
/// path alone; nothing else is claimed of it.
pub uninterp spec fn path_debug(path: PathBuf) -> Seq<char>;

/// The text that formatting with `{:?}` gives for a list of positions. It
/// depends on the positions alone; nothing else is claimed of it.
pub uninterp spec fn indexes_debug(indexes: Seq<usize>) -> Seq<char>;

/// `format!` with `{:?}` on a `std::path::PathBuf`: the result is the text
/// that `path_debug` names.
#[verifier::external_body]
pub(crate) fn debug_of_path(path: &PathBuf) -> (text: String)
    ensures
        text@ == path_debug(*path),
{
    format!("{:?}", path)
}

/// `format!` with `{:?}` on a `Vec<usize>`: the result is the text that
/// `indexes_debug` names.
#[verifier::external_body]
pub(crate) fn debug_of_indexes(indexes: &Vec<usize>) -> (text: String)
    ensures
        text@ == indexes_debug(indexes@),
{
    format!("{:?}", indexes)
}

} // verus!
