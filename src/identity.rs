//! The actor's identity as kept in its `actor_id` file.
use vstd::prelude::*;
use crate::types::ActorId;

verus! {

/// The UUID that a text spells, as its 128-bit big-endian value, if it
/// spells one.
pub uninterp spec fn uuid_of_text(s: Seq<char>) -> Option<u128>;

/// Relies on uuid's `Uuid::parse_str` (and `Uuid::as_u128`): the UUID a
/// text spells, in any of the simple, hyphenated, braced or URN forms; the
/// empty text spells none.
#[verifier::external_body]
fn parse_uuid(s: &str) -> (r: Option<u128>)
    ensures
        r == uuid_of_text(s@),
        s@.len() == 0 ==> r is None,
{
    match uuid::Uuid::parse_str(s) {
        Ok(u) => Some(u.as_u128()),
        Err(_) => None,
    }
}

/// What an `actor_id` file holds.
#[derive(Clone, Copy, Debug, PartialEq, Eq, Structural)]
pub enum ActorIdFile {
    /// Nothing yet: a new identity is to be made and written there.
    Empty,
    /// The identity of this node.
    Valid(ActorId),
    /// Text that is not a UUID.
    Invalid,
}

/// What a non-empty file holds, once its text was read as a UUID.
pub fn actor_id_from_parsed(parsed: Option<u128>) -> (r: ActorIdFile)
    ensures
        r == match parsed {
            Some(u) => ActorIdFile::Valid(ActorId(u)),
            None => ActorIdFile::Invalid,
        },
{
    match parsed {
        Some(u) => ActorIdFile::Valid(ActorId(u)),
        None => ActorIdFile::Invalid,
    }
}

/// Reads the contents of an `actor_id` file.
pub fn read_actor_id(contents: &str) -> (r: ActorIdFile)
    ensures
        contents@.len() == 0 ==> r == ActorIdFile::Empty,
        contents@.len() > 0 ==> r == match uuid_of_text(contents@) {
            Some(u) => ActorIdFile::Valid(ActorId(u)),
            None => ActorIdFile::Invalid,
        },
{
    if contents.is_empty() {
        ActorIdFile::Empty
    } else {
        actor_id_from_parsed(parse_uuid(contents))
    }
}

} // verus!
