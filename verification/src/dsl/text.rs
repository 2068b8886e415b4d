//! Building the language's diagnostic messages.
use vstd::prelude::*;
use vstd::string::StringExecFns;

verus! {

/// The characters of a byte string read as Latin-1 (identity on ASCII).
pub open spec fn bytes_as_chars(s: Seq<u8>) -> Seq<char> {
    s.map_values(|c: u8| c as char)
}

/// Appends one character. Calls `String::push`, which appends the character
/// to the end of the string.
#[verifier::external_body]
pub(crate) fn push_char(s: &mut String, c: char)
    ensures
        final(s)@ == old(s)@.push(c),
{
    s.push(c)
}

/// The bytes of `text` read as characters, one character per byte.
pub fn latin1_text(text: &[u8]) -> (r: String)
    ensures
        r@ == bytes_as_chars(text@),
{
    let mut r = String::new();
    let mut k: usize = 0;
    while k < text.len()
        invariant
            0 <= k <= text@.len(),
            r@ == bytes_as_chars(text@.take(k as int)),
        decreases text@.len() - k,
    {
        push_char(&mut r, text[k] as char);
        proof {
            assert(bytes_as_chars(text@.take(k + 1)) =~= bytes_as_chars(text@.take(k as int)).push(
                text@[k as int] as char,
            ));
        }
        k = k + 1;
    }
    proof {
        assert(text@.take(k as int) =~= text@);
    }
    r
}

/// `prefix`, then `text`, then `suffix`.
pub fn enclosed(prefix: &str, text: &str, suffix: &str) -> (r: String)
    ensures
        r@ == prefix@ + text@ + suffix@,
{
    let mut r = String::from_str(prefix);
    r.append(text);
    r.append(suffix);
    r
}

/// `prefix` followed by the bytes of `text` read as characters, then `suffix`.
pub fn quoted(prefix: &str, text: &[u8], suffix: &str) -> (r: String)
    ensures
        r@ == prefix@ + bytes_as_chars(text@) + suffix@,
{
    let t = latin1_text(text);
    enclosed(prefix, t.as_str(), suffix)
}

} // verus!
