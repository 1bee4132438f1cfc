//! Small string operations with stated behaviour.

use vstd::prelude::*;
use vstd::string::{StrSliceExecFns, StringExecFns};

verus! {

/// The parts of `s` before and after the first occurrence of `c`, if `c` occurs.
pub open spec fn split_at_first(s: Seq<char>, c: char) -> Option<(Seq<char>, Seq<char>)>
    decreases s.len(),
{
    if s.len() == 0 {
        None
    } else if s[0] == c {
        Some((Seq::empty(), s.drop_first()))
    } else {
        match split_at_first(s.drop_first(), c) {
            Some(p) => Some((seq![s[0]] + p.0, p.1)),
            None => None,
        }
    }
}

/// Splitting `d + [c] + r` where `d` does not hold `c` gives back `d` and `r`.
pub proof fn lemma_split_at_first_concat(d: Seq<char>, c: char, r: Seq<char>)
    requires
        !d.contains(c),
    ensures
        split_at_first(d + seq![c] + r, c) == Some((d, r)),
    decreases d.len(),
{
    let s = d + seq![c] + r;
    if d.len() == 0 {
        assert(s =~= seq![c] + r);
        assert(s.drop_first() =~= r);
    } else {
        assert(d[0] != c) by {
            assert(d.contains(d[0]));
        }
        let t = d.drop_first();
        assert(!t.contains(c)) by {
            if t.contains(c) {
                let i = choose|i: int| 0 <= i < t.len() && t[i] == c;
                assert(d[i + 1] == c);
            }
        }
        lemma_split_at_first_concat(t, c, r);
        assert(s.drop_first() =~= t + seq![c] + r);
        assert(seq![d[0]] + t =~= d);
    }
}

/// A sequence without `c` is not split.
pub proof fn lemma_split_at_first_none(s: Seq<char>, c: char)
    ensures
        split_at_first(s, c) is None <==> !s.contains(c),
    decreases s.len(),
{
    if s.len() > 0 {
        lemma_split_at_first_none(s.drop_first(), c);
        if s.drop_first().contains(c) {
            let i = choose|i: int| 0 <= i < s.drop_first().len() && s.drop_first()[i] == c;
            assert(s[i + 1] == c);
        }
        if s.contains(c) && s[0] != c {
            let i = choose|i: int| 0 <= i < s.len() && s[i] == c;
            assert(s.drop_first()[i - 1] == c);
        }
    }
}

/// Relies on `str::split_once`: splits at the first occurrence of the character.
#[verifier::external_body]
pub fn split_once<'a>(s: &'a str, c: char) -> (r: Option<(&'a str, &'a str)>)
    ensures
        match r {
            Some(p) => split_at_first(s@, c) == Some((p.0@, p.1@)),
            None => split_at_first(s@, c) is None,
        },
{
    s.split_once(c)
}

/// Appends the characters of `t`.
pub fn push_str(s: &mut String, t: &str)
    ensures
        final(s)@ == old(s)@ + t@,
{
    s.append(t);
}

/// What `str::to_uppercase` returns on the given characters.
pub uninterp spec fn upper_of(s: Seq<char>) -> Seq<char>;

/// Relies on `str::to_uppercase`: the result depends on the characters alone.
#[verifier::external_body]
pub fn to_uppercase(s: &str) -> (r: String)
    ensures
        r@ == upper_of(s@),
{
    s.to_uppercase()
}

} // verus!

verus! {

/// Whether the first character is `c`.
pub fn starts_with_char(s: &str, c: char) -> (r: bool)
    ensures
        r == (s@.len() > 0 && s@[0] == c),
{
    s.unicode_len() > 0 && s.get_char(0) == c
}

/// Whether the last character is `c`.
pub fn ends_with_char(s: &str, c: char) -> (r: bool)
    ensures
        r == (s@.len() > 0 && s@.last() == c),
{
    let n = s.unicode_len();
    n > 0 && s.get_char(n - 1) == c
}

} // verus!

verus! {

/// Relies on `str::strip_prefix` with a `&str` pattern: the rest of `s`
/// after `prefix`, if `s` starts with it.
#[verifier::external_body]
pub fn strip_prefix<'a>(s: &'a str, prefix: &str) -> (r: Option<&'a str>)
    ensures
        match r {
            Some(t) => s@ == prefix@ + t@,
            None => !prefix@.is_prefix_of(s@),
        },
{
    s.strip_prefix(prefix)
}

} // verus!
