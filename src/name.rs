//! Validation of entry keys and of file names inside an entry.
use vstd::prelude::*;

use crate::error::{EntryError, InsertError};

verus! {

/// Whether `char::is_alphanumeric` holds of `c` (Unicode `Alphabetic` or
/// `Numeric`).
pub uninterp spec fn alphanumeric(c: char) -> bool;

/// Relies on `char::is_alphanumeric`: the answer depends on the character alone.
#[verifier::external_body]
fn is_alphanumeric(c: char) -> (r: bool)
    ensures
        r == alphanumeric(c),
{
    c.is_alphanumeric()
}

/// A key or name is acceptable when it is not empty, does not start with
/// `.`, starts with an alphanumeric character, and holds only alphanumeric
/// characters and `.`; `alnum[i]` tells whether character `i` is alphanumeric.
pub open spec fn valid_with(s: Seq<char>, alnum: Seq<bool>) -> bool {
    &&& s.len() > 0
    &&& s[0] != '.'
    &&& alnum[0]
    &&& forall|i: int| 1 <= i < s.len() ==> s[i] == '.' || #[trigger] alnum[i]
}

/// The classification of each character of `s` by `char::is_alphanumeric`.
pub open spec fn classify(s: Seq<char>) -> Seq<bool> {
    Seq::new(s.len(), |i: int| alphanumeric(s[i]))
}

/// Whether `s` is an acceptable entry key or file name.
pub open spec fn valid_name(s: Seq<char>) -> bool {
    valid_with(s, classify(s))
}

/// Decides whether `s` is acceptable, given for each of its characters
/// whether it is alphanumeric.
pub fn check_path_with(s: &str, alnum: &[bool]) -> (r: bool)
    requires
        alnum@.len() == s@.len(),
    ensures
        r == valid_with(s@, alnum@),
{
    let n = s.unicode_len();
    if n == 0 {
        return false;
    }
    if s.get_char(0) == '.' || !alnum[0] {
        return false;
    }
    let mut i: usize = 1;
    while i < n
        invariant
            1 <= i <= n,
            n == s@.len(),
            alnum@.len() == n,
            forall|j: int| 1 <= j < i ==> s@[j] == '.' || #[trigger] alnum@[j],
        decreases n - i,
    {
        if s.get_char(i) != '.' && !alnum[i] {
            return false;
        }
        i = i + 1;
    }
    true
}

/// Decides whether `s` is an acceptable entry key or file name: not empty,
/// not starting with `.`, and made of alphanumeric characters and `.` only.
pub fn check_path(s: &str) -> (r: bool)
    ensures
        r == valid_name(s@),
{
    let n = s.unicode_len();
    let mut alnum: Vec<bool> = Vec::new();
    let mut i: usize = 0;
    while i < n
        invariant
            i <= n,
            n == s@.len(),
            alnum@ == classify(s@).take(i as int),
        decreases n - i,
    {
        let c = s.get_char(i);
        alnum.push(is_alphanumeric(c));
        i = i + 1;
        assert(alnum@ =~= classify(s@).take(i as int));
    }
    assert(alnum@ =~= classify(s@));
    check_path_with(s, alnum.as_slice())
}

/// Accepts a valid entry key, else fails with `InvalidKey`.
pub fn check_key(key: &str) -> (r: Result<(), EntryError>)
    ensures
        r is Ok <==> valid_name(key@),
        r is Err ==> r->Err_0 is InvalidKey,
{
    if check_path(key) {
        Ok(())
    } else {
        Err(EntryError::InvalidKey)
    }
}

/// Accepts a valid file name, else fails with `InvalidName`.
pub fn check_name(name: &str) -> (r: Result<(), InsertError>)
    ensures
        r is Ok <==> valid_name(name@),
        r is Err ==> r->Err_0 is InvalidName,
{
    if check_path(name) {
        Ok(())
    } else {
        Err(InsertError::InvalidName)
    }
}

} // verus!
