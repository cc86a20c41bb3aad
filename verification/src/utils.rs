use vstd::prelude::*;

use crate::text::chars_to_string;
use crate::text::str_to_chars;

verus! {

/// The whitespace characters the scanner skips: space, carriage return and
/// line feed.  Tab is deliberately not among them.
pub open spec fn space_chars() -> Seq<char> {
    seq![' ', '\r', '\n']
}

/// The first position at or after `i` whose character is not in `set`
/// (or the end of the input).
pub open spec fn spec_skip_while(s: Seq<char>, i: int, set: Seq<char>) -> int
    decreases s.len() - i,
{
    if 0 <= i < s.len() && set.contains(s[i]) {
        spec_skip_while(s, i + 1, set)
    } else {
        i
    }
}

/// The first position at or after `i` whose character is in `set`
/// (or the end of the input).
pub open spec fn spec_skip_until(s: Seq<char>, i: int, set: Seq<char>) -> int
    decreases s.len() - i,
{
    if 0 <= i < s.len() && !set.contains(s[i]) {
        spec_skip_until(s, i + 1, set)
    } else {
        i
    }
}

/// The length of the contiguous run of backslashes that ends just before
/// position `i`.
pub open spec fn backslash_run(s: Seq<char>, i: int) -> int
    decreases i,
{
    if i <= 0 {
        0
    } else if s[i - 1] == '\\' {
        backslash_run(s, i - 1) + 1
    } else {
        0
    }
}

/// The quote at position `i` ends a string: it is a quote, it is not the
/// first character, and the run of backslashes before it has even length
/// (an odd run escapes the quote).
pub open spec fn spec_valid_ending_quote(s: Seq<char>, i: int) -> bool {
    s[i] == '"' && i > 0 && backslash_run(s, i) % 2 == 0
}

/// The literal appears in `s` starting at position `i`.
pub open spec fn spec_match_literal(s: Seq<char>, i: int, lit: Seq<char>) -> bool {
    0 <= i && i + lit.len() <= s.len() && s.subrange(i, i + lit.len() as int) == lit
}

/// The diagnostic context around a failure position: up to 50 characters
/// before it plus the failing character itself (clipped to the input).
pub open spec fn spec_context(s: Seq<char>, f: int) -> Seq<char> {
    let hi = if f + 1 <= s.len() {
        f + 1
    } else {
        s.len() as int
    };
    let lo0 = f - 50;
    let lo = if lo0 < 0 {
        0
    } else if lo0 > hi {
        hi
    } else {
        lo0
    };
    s.subrange(lo, hi)
}

/// Membership in a one-character set is equality with that character.
pub proof fn lemma_singleton_contains(c: char, x: char)
    ensures
        seq![c].contains(x) <==> x == c,
{
    if x == c {
        assert(seq![c][0] == x);
    }
}

/// A skip lands where its region of members ends: everything in `[i, e)` is
/// in the set and `e` holds a non-member or the end.
pub proof fn lemma_skip_while_exact(s: Seq<char>, i: int, e: int, set: Seq<char>)
    requires
        0 <= i <= e <= s.len(),
        forall|j: int| i <= j < e ==> set.contains(#[trigger] s[j]),
        e == s.len() || !set.contains(s[e]),
    ensures
        spec_skip_while(s, i, set) == e,
    decreases e - i,
{
    if i < e {
        lemma_skip_while_exact(s, i + 1, e, set);
    }
}

/// The counterpart of `lemma_skip_while_exact` for skipping to a member.
pub proof fn lemma_skip_until_exact(s: Seq<char>, i: int, e: int, set: Seq<char>)
    requires
        0 <= i <= e <= s.len(),
        forall|j: int| i <= j < e ==> !set.contains(#[trigger] s[j]),
        e == s.len() || set.contains(s[e]),
    ensures
        spec_skip_until(s, i, set) == e,
    decreases e - i,
{
    if i < e {
        lemma_skip_until_exact(s, i + 1, e, set);
    }
}

/// A backslash run observed step by step: `n` backslashes immediately before
/// position `i`, preceded by the start of the input or another character.
pub proof fn lemma_backslash_run_count(s: Seq<char>, i: int, n: int)
    requires
        0 <= n <= i,
        forall|k: int| 0 <= k < n ==> #[trigger] s[i - 1 - k] == '\\',
        n == i || s[i - 1 - n] != '\\',
    ensures
        backslash_run(s, i) == n,
    decreases n,
{
    if n == 0 {
        if i > 0 {
            assert(s[i - 1] != '\\');
        }
    } else {
        assert(s[i - 1 - 0] == '\\');
        assert(s[i - 1] == '\\');
        assert(forall|k: int| 0 <= k < n - 1 ==> #[trigger] s[(i - 1) - 1 - k] == s[i - 1 - (k + 1)]);
        lemma_backslash_run_count(s, i - 1, n - 1);
    }
}

/// Whether `c` occurs in the slice.
fn contains_char(set: &[char], c: char) -> (r: bool)
    ensures
        r == set@.contains(c),
{
    let mut j: usize = 0;
    while j < set.len()
        invariant
            j <= set@.len(),
            forall|k: int| 0 <= k < j ==> set@[k] != c,
        decreases set@.len() - j,
    {
        if set[j] == c {
            return true;
        }
        j += 1;
    }
    false
}

/// Copies `chars[a..b]` into a fresh vector.
pub(crate) fn collect_range(chars: &Vec<char>, a: usize, b: usize) -> (r: Vec<char>)
    requires
        a <= b <= chars@.len(),
    ensures
        r@ == chars@.subrange(a as int, b as int),
{
    let mut r: Vec<char> = Vec::new();
    let mut i: usize = a;
    while i < b
        invariant
            a <= i <= b <= chars@.len(),
            r@ == chars@.subrange(a as int, i as int),
        decreases b - i,
    {
        r.push(chars[i]);
        proof {
            assert(r@ =~= chars@.subrange(a as int, i + 1));
        }
        i += 1;
    }
    r
}

/// Appends the characters of `v`.
pub(crate) fn append_chars(out: &mut Vec<char>, v: &Vec<char>)
    ensures
        final(out)@ == old(out)@ + v@,
{
    let mut i: usize = 0;
    while i < v.len()
        invariant
            i <= v@.len(),
            out@ == old(out)@ + v@.subrange(0, i as int),
        decreases v@.len() - i,
    {
        out.push(v[i]);
        proof {
            assert(out@ =~= old(out)@ + v@.subrange(0, i + 1));
        }
        i += 1;
    }
    proof {
        assert(v@.subrange(0, v@.len() as int) =~= v@);
    }
}

/// Advances the cursor past every leading character that is in `to_skip`.
pub fn skip_chars(chars: &Vec<char>, idx: &mut usize, to_skip: &[char])
    ensures
        *final(idx) == spec_skip_while(chars@, *old(idx) as int, to_skip@),
        *old(idx) <= *final(idx),
        *old(idx) <= chars@.len() ==> *final(idx) <= chars@.len(),
{
    while *idx < chars.len() && contains_char(to_skip, chars[*idx])
        invariant
            *old(idx) <= *idx,
            *old(idx) <= chars@.len() ==> *idx <= chars@.len(),
            spec_skip_while(chars@, *old(idx) as int, to_skip@) == spec_skip_while(
                chars@,
                *idx as int,
                to_skip@,
            ),
        decreases chars@.len() - *idx,
    {
        *idx += 1;
    }
}

/// Advances the cursor past space, carriage-return and line-feed characters.
pub fn skip_spaces(chars: &Vec<char>, idx: &mut usize)
    ensures
        *final(idx) == spec_skip_while(chars@, *old(idx) as int, space_chars()),
        *old(idx) <= *final(idx),
        *old(idx) <= chars@.len() ==> *final(idx) <= chars@.len(),
{
    let set = [' ', '\r', '\n'];
    proof {
        assert(set@ =~= space_chars());
    }
    skip_chars(chars, idx, &set);
}

/// Advances the cursor until a character in `util_chars` is found (or the
/// end of the input).
pub fn skip_util_char(chars: &Vec<char>, idx: &mut usize, util_chars: &[char])
    ensures
        *final(idx) == spec_skip_until(chars@, *old(idx) as int, util_chars@),
        *old(idx) <= *final(idx),
        *old(idx) <= chars@.len() ==> *final(idx) <= chars@.len(),
{
    while *idx < chars.len() && !contains_char(util_chars, chars[*idx])
        invariant
            *old(idx) <= *idx,
            *old(idx) <= chars@.len() ==> *idx <= chars@.len(),
            spec_skip_until(chars@, *old(idx) as int, util_chars@) == spec_skip_until(
                chars@,
                *idx as int,
                util_chars@,
            ),
        decreases chars@.len() - *idx,
    {
        *idx += 1;
    }
}

/// Decides whether the quote at `idx` ends a string, by the parity of the
/// backslash run immediately before it.
pub fn is_valid_ending_quote(chars: &Vec<char>, idx: usize) -> (r: bool)
    requires
        idx < chars@.len(),
    ensures
        r == spec_valid_ending_quote(chars@, idx as int),
{
    if chars[idx] != '"' {
        return false;
    }
    if idx == 0 {
        return false;
    }
    let mut n: usize = 0;
    while n < idx && chars[idx - 1 - n] == '\\'
        invariant
            n <= idx,
            idx < chars@.len(),
            forall|k: int| 0 <= k < n ==> #[trigger] chars@[idx - 1 - k] == '\\',
        decreases idx - n,
    {
        n += 1;
    }
    proof {
        lemma_backslash_run_count(chars@, idx as int, n as int);
    }
    n % 2 == 0
}

/// Decides whether `literal` appears in `chars` starting at `idx`.
pub fn match_literal(chars: &Vec<char>, idx: usize, literal: &str) -> (r: bool)
    ensures
        r == spec_match_literal(chars@, idx as int, literal@),
{
    let lit = str_to_chars(literal);
    let clen = chars.len();
    if idx > clen || lit.len() > clen - idx {
        return false;
    }
    let mut j: usize = 0;
    while j < lit.len()
        invariant
            j <= lit@.len(),
            lit@ == literal@,
            idx + lit@.len() <= chars@.len(),
            chars@.len() <= usize::MAX,
            forall|k: int| 0 <= k < j ==> chars@[idx + k] == lit@[k],
        decreases lit@.len() - j,
    {
        if chars[idx + j] != lit[j] {
            proof {
                assert(chars@.subrange(idx as int, idx + lit@.len() as int)[j as int] != lit@[
                    j as int
                ]);
            }
            return false;
        }
        j += 1;
    }
    proof {
        assert(chars@.subrange(idx as int, idx + lit@.len() as int) =~= lit@);
    }
    true
}

/// The diagnostic context before a failing position: up to the 50 preceding
/// characters plus the character at `idx` itself.
pub fn nearby_content(chars: &Vec<char>, idx: usize) -> (r: String)
    requires
        idx < chars@.len(),
    ensures
        r@ == spec_context(chars@, idx as int),
{
    let clen = chars.len();
    let lo = if idx < 50 {
        0
    } else {
        idx - 50
    };
    let hi = if idx < clen {
        idx + 1
    } else {
        clen
    };
    let v = collect_range(chars, lo, hi);
    chars_to_string(&v)
}

/// The diagnostic for a parse failure at `idx`: the nearby content, also
/// when the failure lies at the end of the input.
pub fn parse_error(chars: &Vec<char>, idx: usize) -> (r: String)
    ensures
        r@ == spec_context(chars@, idx as int),
{
    let hi = if idx >= chars.len() {
        chars.len()
    } else {
        idx + 1
    };
    let lo = if idx < 50 {
        0
    } else if idx - 50 > hi {
        hi
    } else {
        idx - 50
    };
    let v = collect_range(chars, lo, hi);
    chars_to_string(&v)
}

} // verus!
