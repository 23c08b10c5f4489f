//! The decisions and messages of reading, writing and deleting one entry, and of
//! the confirmation that a reset asks for.

use vstd::prelude::*;
use crate::paths::{relative_config_path, relative_path};
use crate::text::{chars_of, concat_chars, decimal, decimal_chars, string_of, trim, trim_chars};

verus! {

broadcast use vstd::string::group_string_axioms;

/// What `unescaper::unescape` gives for `s`: the text with its escape sequences
/// resolved, or the `Display` text of the error it reports.
pub uninterp spec fn unescape_result(s: Seq<char>) -> Result<Seq<char>, Seq<char>>;

/// `unescaper::unescape`, its error given as its `Display` text. Claimed: the
/// result is `unescape_result(s@)`; which escapes resolve to what, and the error
/// texts, are named, not stated.
#[verifier::external_body]
fn unescape(s: &str) -> (r: Result<String, String>)
    ensures
        match r {
            Ok(u) => unescape_result(s@) == Ok::<Seq<char>, Seq<char>>(u@),
            Err(t) => unescape_result(s@) == Err::<Seq<char>, Seq<char>>(t@),
        },
{
    match unescaper::unescape(s) {
        Ok(u) => Ok(u),
        Err(e) => Err(e.to_string()),
    }
}

/// The characters of `a` followed by those of `b`, as a string.
pub fn join_strs(a: &str, b: &str) -> (r: String)
    ensures
        r@ == a@ + b@,
{
    let x = chars_of(a);
    let y = chars_of(b);
    let z = concat_chars(&x, &y);
    string_of(&z)
}

/// The message of a value whose escape sequences do not resolve, given the
/// unescaper's own description of the problem.
pub fn unescape_failure_message(detail: &str) -> (m: String)
    ensures
        m@ == "Failed to unescape value: "@ + detail@,
{
    join_strs("Failed to unescape value: ", detail)
}

/// The value that writing `value` stores: `value` with its escape sequences
/// resolved. Where they do not resolve, the error is
/// `unescape_failure_message` of the unescaper's own text.
pub fn unescape_configuration_value(value: &str) -> (r: Result<String, String>)
    ensures
        match r {
            Ok(u) => unescape_result(value@) == Ok::<Seq<char>, Seq<char>>(u@),
            Err(m) => unescape_result(value@) is Err && m@ == "Failed to unescape value: "@
                + unescape_result(value@)->Err_0,
        },
{
    match unescape(value) {
        Ok(u) => Ok(u),
        Err(text) => Err(unescape_failure_message(text.as_str())),
    }
}

/// Whether writing `new_value` changes anything: not when the entry exists and
/// already holds exactly that value.
pub fn needs_write(current: &Option<String>, new_value: &String) -> (b: bool)
    ensures
        b == !(match current {
            Some(c) => c@ == new_value@,
            None => false,
        }),
{
    match current {
        Some(c) => !(*c == *new_value),
        None => true,
    }
}

/// The message of a read of an entry that does not exist.
pub fn entry_not_found_message(component: &str, version: &u64, entry: &str) -> (m: String)
    ensures
        m@ == "Configuration entry not found: "@ + relative_path(component@, *version, entry@),
{
    let rel = relative_config_path(component, version, entry);
    join_strs("Configuration entry not found: ", rel.as_str())
}

/// The message of a delete of an entry that does not exist.
pub fn entry_does_not_exist_message() -> (m: String)
    ensures
        m@ == "Configuration entry does not exist"@,
{
    let c = chars_of("Configuration entry does not exist");
    string_of(&c)
}

/// Whether the answer to the reset prompt confirms it: `y` or `Y`, with any
/// surrounding whitespace.
pub fn confirms_reset(response: &str) -> (b: bool)
    ensures
        b == (trim(response@) == seq!['y'] || trim(response@) == seq!['Y']),
{
    let r = chars_of(response);
    let t = trim_chars(&r);
    let b = t.len() == 1 && (t[0] == 'y' || t[0] == 'Y');
    proof {
        if b {
            if t@[0] == 'y' {
                assert(t@ =~= seq!['y']);
            } else {
                assert(t@ =~= seq!['Y']);
            }
        } else {
            if t@ == seq!['y'] {
                assert(t@[0] == seq!['y'][0]);
            }
            if t@ == seq!['Y'] {
                assert(t@[0] == seq!['Y'][0]);
            }
        }
    }
    b
}

/// The closing line of a reset that deleted `deleted` entries and met `errors`
/// errors (the errors themselves follow it, one per line, when there are any).
pub fn reset_summary(deleted: u64, errors: usize) -> (m: String)
    ensures
        errors == 0 ==> m@ == "Successfully deleted "@ + decimal(deleted as nat)
            + " configuration entries."@,
        errors > 0 ==> m@ == "Deleted "@ + decimal(deleted as nat) + " configuration entries with "@
            + decimal(errors as nat) + " errors:"@,
{
    if errors == 0 {
        let mut m = chars_of("Successfully deleted ");
        m = concat_chars(&m, &decimal_chars(deleted));
        m = concat_chars(&m, &chars_of(" configuration entries."));
        string_of(&m)
    } else {
        let mut m = chars_of("Deleted ");
        m = concat_chars(&m, &decimal_chars(deleted));
        m = concat_chars(&m, &chars_of(" configuration entries with "));
        m = concat_chars(&m, &decimal_chars(errors as u64));
        m = concat_chars(&m, &chars_of(" errors:"));
        string_of(&m)
    }
}

} // verus!
