//! Taking text apart and building it one character at a time.

use vstd::prelude::*;
use vstd::string::*;

verus! {

/// `text` without the white space at its two ends, as `str::trim` of the
/// standard library returns it.
pub uninterp spec fn trimmed(text: Seq<char>) -> Seq<char>;

/// `str::trim`: the slice without leading and trailing white space, which
/// depends on the text alone.
#[verifier::external_body]
pub(crate) fn trim(s: &str) -> (r: &str)
    ensures
        r@ == trimmed(s@),
{
    s.trim()
}

/// `String::push` appends one character to the end of the string.
pub assume_specification[ String::push ](s: &mut String, c: char)
    ensures
        final(s)@ == old(s)@.push(c),
;

/// The input without the prefix, if it starts with the prefix.
pub fn strip_prefix<'a>(s: &'a str, prefix: &str) -> (r: Option<&'a str>)
    ensures
        match r {
            Some(rest) => prefix@.is_prefix_of(s@) && rest@ == s@.skip(prefix@.len() as int),
            None => !prefix@.is_prefix_of(s@),
        },
{
    let len = s.unicode_len();
    let prefix_len = prefix.unicode_len();
    if len < prefix_len {
        return None;
    }
    let mut i: usize = 0;
    while i < prefix_len
        invariant
            i <= prefix_len <= len,
            len == s@.len(),
            prefix_len == prefix@.len(),
            forall|j: int| 0 <= j < i ==> s@[j] == prefix@[j],
        decreases prefix_len - i,
    {
        if s.get_char(i) != prefix.get_char(i) {
            assert(s@.subrange(0, prefix@.len() as int)[i as int] != prefix@[i as int]);
            return None;
        }
        i = i + 1;
    }
    assert(prefix@ =~= s@.subrange(0, prefix@.len() as int));
    Some(s.substring_char(prefix_len, len))
}

/// `n` spaces.
pub open spec fn spaces(n: nat) -> Seq<char> {
    Seq::new(n, |i: int| ' ')
}

/// Appends `count` spaces to `text`.
pub fn push_spaces(text: &mut String, count: usize)
    ensures
        final(text)@ == old(text)@ + spaces(count as nat),
{
    let mut i: usize = 0;
    while i < count
        invariant
            i <= count,
            text@ == old(text)@ + spaces(i as nat),
        decreases count - i,
    {
        text.push(' ');
        i = i + 1;
        assert(text@ =~= old(text)@ + spaces(i as nat));
    }
}

/// The text made of `prefix` followed by `chars` in reverse order.
pub fn prefixed_reverse(prefix: &str, chars: &Vec<char>) -> (text: String)
    ensures
        text@ == prefix@ + chars@.reverse(),
{
    let mut text: String = prefix.to_owned();
    let mut i: usize = chars.len();
    while i > 0
        invariant
            i <= chars.len(),
            text@ == prefix@ + chars@.reverse().take(chars.len() - i),
        decreases i,
    {
        i = i - 1;
        text.push(chars[i]);
        assert(chars@.reverse().take(chars.len() - i) == chars@.reverse().take(
            chars.len() - i - 1,
        ).push(chars@[i as int]));
    }
    assert(chars@.reverse().take(chars.len() as int) == chars@.reverse());
    text
}

} // verus!
