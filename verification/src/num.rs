use vstd::prelude::*;

use crate::utils::spec_skip_until;

verus! {

/// A decimal digit.
pub open spec fn is_digit(c: char) -> bool {
    ('0' as u32) <= (c as u32) && (c as u32) <= ('9' as u32)
}

/// A character a number literal may consist of: a digit or a dot.
pub open spec fn is_num_char(c: char) -> bool {
    is_digit(c) || c == '.'
}

/// A scanned digit-and-dot run that denotes a number: nonempty, at least
/// one digit, at most one dot.
pub open spec fn num_text_valid(s: Seq<char>) -> bool {
    &&& s.len() > 0
    &&& (forall|i: int| 0 <= i < s.len() ==> is_num_char(#[trigger] s[i]))
    &&& (exists|i: int| 0 <= i < s.len() && is_digit(#[trigger] s[i]))
    &&& (forall|i: int, j: int| 0 <= i < j < s.len() ==> !(s[i] == '.' && s[j] == '.'))
}

/// The integer part without leading zeros (one zero stays for the value 0).
pub open spec fn strip_leading_zeros(s: Seq<char>) -> Seq<char>
    decreases s.len(),
{
    if s.len() > 1 && s[0] == '0' {
        strip_leading_zeros(s.subrange(1, s.len() as int))
    } else {
        s
    }
}

/// The fractional part without trailing zeros.
pub open spec fn strip_trailing_zeros(s: Seq<char>) -> Seq<char>
    decreases s.len(),
{
    if s.len() > 0 && s[s.len() - 1] == '0' {
        strip_trailing_zeros(s.subrange(0, s.len() - 1))
    } else {
        s
    }
}

/// The canonical form of a number literal: leading zeros dropped from the
/// integer part, trailing zeros and a then-empty fraction dropped from the
/// fractional part.  `1`, `1.0` and `01.00` all canonicalize to `1`, so
/// equal numbers have equal canonical texts.
pub open spec fn spec_canon_num(s: Seq<char>) -> Seq<char> {
    let d = spec_skip_until(s, 0, seq!['.']);
    let ip = strip_leading_zeros(s.subrange(0, d));
    let fp = if d < s.len() {
        strip_trailing_zeros(s.subrange(d + 1, s.len() as int))
    } else {
        Seq::empty()
    };
    if fp.len() == 0 {
        ip
    } else {
        ip + seq!['.'] + fp
    }
}

/// Text that is its own canonical form and scans as one number token.
pub open spec fn num_canon(s: Seq<char>) -> bool {
    &&& num_text_valid(s)
    &&& is_digit(s[0])
    &&& spec_canon_num(s) == s
}

/// A leading-zero scan that stopped at `z` pins down `strip_leading_zeros`.
proof fn lemma_strip_leading_at(s: Seq<char>, z: int)
    requires
        0 <= z < s.len(),
        forall|j: int| 0 <= j < z ==> s[j] == '0',
        z + 1 == s.len() || s[z] != '0',
    ensures
        strip_leading_zeros(s) == s.subrange(z, s.len() as int),
    decreases z,
{
    if z == 0 {
        assert(strip_leading_zeros(s) == s);
        assert(s.subrange(0, s.len() as int) =~= s);
    } else {
        let s1 = s.subrange(1, s.len() as int);
        assert(s[0] == '0');
        assert(forall|j: int| 0 <= j < z - 1 ==> #[trigger] s1[j] == s[j + 1]);
        lemma_strip_leading_at(s1, z - 1);
        assert(s1.subrange(z - 1, s1.len() as int) =~= s.subrange(z, s.len() as int));
    }
}

/// A trailing-zero scan that stopped at `e` pins down `strip_trailing_zeros`.
proof fn lemma_strip_trailing_at(s: Seq<char>, e: int)
    requires
        0 <= e <= s.len(),
        forall|j: int| e <= j < s.len() ==> s[j] == '0',
        e == 0 || s[e - 1] != '0',
    ensures
        strip_trailing_zeros(s) == s.subrange(0, e),
    decreases s.len(),
{
    if e == s.len() {
        assert(strip_trailing_zeros(s) == s);
        assert(s.subrange(0, s.len() as int) =~= s);
    } else {
        assert(s[s.len() - 1] == '0');
        let s1 = s.subrange(0, s.len() - 1);
        assert(forall|j: int| e <= j < s1.len() ==> #[trigger] s1[j] == s[j]);
        lemma_strip_trailing_at(s1, e);
        assert(s1.subrange(0, e) =~= s.subrange(0, e));
    }
}

/// Canonicalizes a scanned number run: `None` when the run holds more than
/// one dot (no number), otherwise the canonical text, which is stable under
/// canonicalization.
pub(crate) fn canon_num_text(v: &Vec<char>) -> (r: Option<Vec<char>>)
    requires
        v@.len() > 0,
        is_digit(v@[0]),
        forall|i: int| 0 <= i < v@.len() ==> is_num_char(#[trigger] v@[i]),
    ensures
        match r {
            Some(c) => num_text_valid(v@) && c@ == spec_canon_num(v@) && num_canon(c@),
            None => !num_text_valid(v@),
        },
{
    let n = v.len();
    // Find the first dot and refuse a second one.
    let mut d: usize = n;
    let mut i: usize = 0;
    while i < n
        invariant
            n == v@.len(),
            i <= n,
            d == n || (d < i && v@[d as int] == '.'),
            forall|j: int| 0 <= j < i && j != d ==> v@[j] != '.',
        decreases n - i,
    {
        if v[i] == '.' {
            if d < n {
                proof {
                    assert(v@[d as int] == '.' && v@[i as int] == '.');
                    assert(!num_text_valid(v@));
                }
                return None;
            }
            d = i;
        }
        i += 1;
    }
    proof {
        assert(forall|j: int| 0 <= j < v@.len() && j != d ==> v@[j] != '.');
        assert forall|x: char| seq!['.'].contains(x) implies x == '.' by {
            crate::utils::lemma_singleton_contains('.', x);
        }
        if d < v@.len() {
            crate::utils::lemma_singleton_contains('.', v@[d as int]);
            crate::utils::lemma_skip_until_exact(v@, 0, d as int, seq!['.']);
        } else {
            crate::utils::lemma_skip_until_exact(v@, 0, v@.len() as int, seq!['.']);
        }
        assert(spec_skip_until(v@, 0, seq!['.']) == d as int);
        assert forall|a: int, b: int| 0 <= a < b < v@.len() implies !(v@[a] == '.' && v@[b]
            == '.') by {}
        assert(num_text_valid(v@));
    }
    // Strip leading zeros off the integer part.
    let mut z: usize = 0;
    while z + 1 < d && v[z] == '0'
        invariant
            n == v@.len(),
            d <= n,
            d >= 1,
            z < d,
            forall|j: int| 0 <= j < z ==> v@[j] == '0',
        decreases d - z,
    {
        z += 1;
    }
    let ghost ip = v@.subrange(0, d as int);
    proof {
        assert(forall|j: int| 0 <= j < ip.len() ==> ip[j] == v@[j]);
        lemma_strip_leading_at(ip, z as int);
        assert(strip_leading_zeros(ip) =~= v@.subrange(z as int, d as int));
    }
    let mut c = crate::utils::collect_range(v, z, d);
    let ghost ipc = c@;
    proof {
        assert(ipc.len() >= 1);
        assert(is_digit(ipc[0]) || ipc[0] == '.');
        assert(ipc[0] != '.');
        assert(forall|j: int| 0 <= j < ipc.len() ==> is_num_char(#[trigger] ipc[j]));
        assert(forall|j: int| 0 <= j < ipc.len() ==> #[trigger] ipc[j] != '.');
    }
    // Strip trailing zeros off the fractional part, if a dot was seen.
    if d < n {
        let mut e: usize = n;
        while e > d + 1 && v[e - 1] == '0'
            invariant
                n == v@.len(),
                d < n,
                d + 1 <= e <= n,
                forall|j: int| e <= j < n ==> v@[j] == '0',
            decreases e,
        {
            e -= 1;
        }
        let ghost fp = v@.subrange(d + 1, n as int);
        proof {
            assert(forall|j: int| 0 <= j < fp.len() ==> fp[j] == v@[d + 1 + j]);
            lemma_strip_trailing_at(fp, e - (d + 1));
            assert(strip_trailing_zeros(fp) =~= v@.subrange(d + 1, e as int));
        }
        if e > d + 1 {
            c.push('.');
            let mut k: usize = d + 1;
            while k < e
                invariant
                    n == v@.len(),
                    d + 1 <= k <= e <= n,
                    c@ == ipc + seq!['.'] + v@.subrange(d + 1, k as int),
                decreases e - k,
            {
                c.push(v[k]);
                proof {
                    assert(c@ =~= ipc + seq!['.'] + v@.subrange(d + 1, k + 1));
                }
                k += 1;
            }
            proof {
                let fpc = v@.subrange(d + 1, e as int);
                assert(c@ == ipc + seq!['.'] + fpc);
                assert(c@ == spec_canon_num(v@));
                lemma_canon_form(ipc, fpc);
            }
            return Some(c);
        }
    }
    proof {
        assert(c@ == ipc);
        assert(c@ == spec_canon_num(v@));
        lemma_canon_form_plain(ipc);
    }
    Some(c)
}

/// An integer part in canonical shape is its own canonical number.
proof fn lemma_canon_form_plain(ip: Seq<char>)
    requires
        ip.len() >= 1,
        forall|j: int| 0 <= j < ip.len() ==> is_num_char(#[trigger] ip[j]),
        forall|j: int| 0 <= j < ip.len() ==> #[trigger] ip[j] != '.',
        ip.len() > 1 ==> ip[0] != '0',
    ensures
        num_canon(ip),
{
    crate::utils::lemma_skip_until_exact(ip, 0, ip.len() as int, seq!['.']);
    assert(ip.subrange(0, ip.len() as int) =~= ip);
    assert(strip_leading_zeros(ip) == ip);
    assert(is_digit(ip[0]));
    assert(num_text_valid(ip));
    assert(spec_canon_num(ip) == ip);
}

/// A canonical integer part, a dot and a canonical nonempty fraction form
/// their own canonical number.
proof fn lemma_canon_form(ip: Seq<char>, fp: Seq<char>)
    requires
        ip.len() >= 1,
        forall|j: int| 0 <= j < ip.len() ==> is_num_char(#[trigger] ip[j]),
        forall|j: int| 0 <= j < ip.len() ==> #[trigger] ip[j] != '.',
        ip.len() > 1 ==> ip[0] != '0',
        fp.len() >= 1,
        forall|j: int| 0 <= j < fp.len() ==> is_num_char(#[trigger] fp[j]),
        forall|j: int| 0 <= j < fp.len() ==> #[trigger] fp[j] != '.',
        fp[fp.len() - 1] != '0',
    ensures
        num_canon(ip + seq!['.'] + fp),
{
    let s = ip + seq!['.'] + fp;
    let d = ip.len() as int;
    assert(forall|j: int| 0 <= j < d ==> #[trigger] s[j] == ip[j]);
    assert(s[d] == '.');
    assert(forall|j: int| d + 1 <= j < s.len() ==> #[trigger] s[j] == fp[j - d - 1]);
    crate::utils::lemma_skip_until_exact(s, 0, d, seq!['.']);
    assert(s.subrange(0, d) =~= ip);
    assert(s.subrange(d + 1, s.len() as int) =~= fp);
    assert(strip_leading_zeros(ip) == ip);
    assert(strip_trailing_zeros(fp) == fp);
    assert(spec_canon_num(s) == ip + seq!['.'] + fp);
    assert(is_digit(s[0]));
    assert forall|a: int, b: int| 0 <= a < b < s.len() implies !(s[a] == '.' && s[b] == '.') by {
        if s[a] == '.' {
            assert(a == d);
        }
        if s[b] == '.' {
            assert(b == d);
        }
    }
    assert(num_text_valid(s));
}

} // verus!
