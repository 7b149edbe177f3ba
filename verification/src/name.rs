//! The rule for application names.

use vstd::prelude::*;
use vstd::string::StrSliceExecFns;

verus! {

/// The longest application name, in characters.
pub const APP_NAME_MAX: usize = 12;

/// Whether `c` is alphanumeric in the sense of `char::is_alphanumeric`:
/// a letter or a number of any script.
pub uninterp spec fn alphanumeric(c: char) -> bool;

/// `char::is_alphanumeric`. The result is the named property of `c`.
#[verifier::external_body]
fn is_alphanumeric(c: char) -> (yes: bool)
    ensures
        yes == alphanumeric(c),
{
    c.is_alphanumeric()
}

/// A character that may stand in an application name.
pub open spec fn name_char(c: char) -> bool {
    alphanumeric(c) || c == '-'
}

/// An application name is valid when it has at most [`APP_NAME_MAX`]
/// characters and each of them is alphanumeric or a hyphen.
pub open spec fn valid_app_name(name: Seq<char>) -> bool {
    &&& name.len() <= APP_NAME_MAX
    &&& forall|i: int| 0 <= i < name.len() ==> name_char(#[trigger] name[i])
}

/// Tests an application name against [`valid_app_name`].
pub fn is_valid_app_name(name: &str) -> (ok: bool)
    ensures
        ok == valid_app_name(name@),
{
    let len: usize = name.unicode_len();
    if len > APP_NAME_MAX {
        return false;
    }
    let mut i: usize = 0;
    while i < len
        invariant
            i <= len,
            len == name@.len(),
            forall|j: int| 0 <= j < i ==> name_char(#[trigger] name@[j]),
        decreases len - i,
    {
        let c = name.get_char(i);
        if !(is_alphanumeric(c) || c == '-') {
            assert(!name_char(name@[i as int]));
            return false;
        }
        i += 1;
    }
    true
}

} // verus!
