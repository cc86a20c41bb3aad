use vstd::prelude::*;

use crate::num::is_digit;
use crate::text::chars_to_string;
use crate::text::str_to_chars;
use crate::utils::append_chars;
use crate::utils::collect_range;
use crate::utils::lemma_singleton_contains;
use crate::utils::skip_util_char;
use crate::utils::spec_skip_until;
use crate::value::JVal;
use crate::value::JsonType;
use crate::value::jarr_of;
use crate::value::lemma_jarr_of;
use crate::value::obj_lookup;

verus! {

/// Every character of `s` is a decimal digit.
pub open spec fn all_digits(s: Seq<char>) -> bool {
    forall|i: int| 0 <= i < s.len() ==> is_digit(#[trigger] s[i])
}

/// The number the digit string denotes, most significant digit first.
pub open spec fn digits_value(s: Seq<char>) -> int
    decreases s.len(),
{
    if s.len() == 0 {
        0
    } else {
        digits_value(s.subrange(0, s.len() - 1)) * 10 + (s[s.len() - 1] as u32 - '0' as u32)
    }
}

/// The array index a path segment denotes: an optional plus sign, then at
/// least one digit, with a value that fits the machine's index type.
pub open spec fn spec_parse_index(seg: Seq<char>) -> Option<int> {
    let ds = if seg.len() > 0 && seg[0] == '+' {
        seg.subrange(1, seg.len() as int)
    } else {
        seg
    };
    if ds.len() > 0 && all_digits(ds) && digits_value(ds) <= usize::MAX {
        Some(digits_value(ds))
    } else {
        None
    }
}

/// The outcome of walking a dotted path: the value it leads to, a lookup
/// miss, or an array index out of range.  A miss and a range failure carry
/// the end position of the failing segment within the path text.
pub enum PathRes {
    Found(JVal),
    Miss(int),
    Oor(int),
}

/// Walks the dotted path `s` from position `i` through the value `v`: the
/// segment up to the next dot selects an object key or an array index, and
/// the remainder of the path continues in the selected child.
pub open spec fn sget(v: JVal, s: Seq<char>, i: int) -> PathRes
    decreases s.len() - i,
{
    let e0 = spec_skip_until(s, i, seq!['.']);
    let e = if e0 < i {
        i
    } else {
        e0
    };
    let key = s.subrange(i, e);
    match v {
        JVal::Obj(es) => match obj_lookup(es, key) {
            Some(child) => if e >= s.len() {
                PathRes::Found(child)
            } else {
                sget(child, s, e + 1)
            },
            None => PathRes::Miss(e),
        },
        JVal::Arr(items) => match spec_parse_index(key) {
            Some(ix) => if 0 <= ix < items.len() {
                if e >= s.len() {
                    PathRes::Found(items[ix])
                } else {
                    sget(items[ix], s, e + 1)
                }
            } else {
                PathRes::Oor(e)
            },
            None => PathRes::Miss(e),
        },
        _ => PathRes::Miss(e),
    }
}

/// The value of a digit string grows (weakly) with every digit appended.
proof fn lemma_digits_value_mono(s: Seq<char>, a: int, b: int)
    requires
        0 <= a <= b <= s.len(),
        all_digits(s),
    ensures
        digits_value(s.subrange(0, a)) <= digits_value(s.subrange(0, b)),
    decreases b - a,
{
    if a < b {
        lemma_digits_value_mono(s, a, b - 1);
        let p = s.subrange(0, b);
        assert(p.subrange(0, b - 1) =~= s.subrange(0, b - 1));
        assert(digits_value(s.subrange(0, b - 1)) >= 0) by {
            lemma_digits_value_nonneg(s.subrange(0, b - 1));
        }
        assert(is_digit(p[b - 1]));
    }
}

/// A digit string's value is never negative.
proof fn lemma_digits_value_nonneg(s: Seq<char>)
    requires
        all_digits(s),
    ensures
        digits_value(s) >= 0,
    decreases s.len(),
{
    if s.len() > 0 {
        let p = s.subrange(0, s.len() - 1);
        assert(forall|j: int| 0 <= j < p.len() ==> p[j] == s[j]);
        lemma_digits_value_nonneg(p);
        assert(is_digit(s[s.len() - 1]));
    }
}

/// Reads a non-negative array index from a path segment.
fn parse_index(seg: &Vec<char>) -> (r: Option<usize>)
    ensures
        match r {
            Some(ix) => spec_parse_index(seg@) == Some(ix as int),
            None => spec_parse_index(seg@) is None,
        },
{
    let n = seg.len();
    let start: usize = if n > 0 && seg[0] == '+' {
        1
    } else {
        0
    };
    let ghost ds = if seg@.len() > 0 && seg@[0] == '+' {
        seg@.subrange(1, seg@.len() as int)
    } else {
        seg@
    };
    proof {
        assert(ds.len() == n - start);
        assert(forall|j: int| 0 <= j < ds.len() ==> ds[j] == seg@[start + j]);
    }
    if start == n {
        return None;
    }
    let mut val: usize = 0;
    let mut j: usize = start;
    while j < n
        invariant
            start <= j <= n,
            n == seg@.len(),
            (ds == if seg@.len() > 0 && seg@[0] == '+' {
                seg@.subrange(1, seg@.len() as int)
            } else {
                seg@
            }),
            ds.len() == n - start,
            forall|k: int| 0 <= k < ds.len() ==> ds[k] == seg@[start + k],
            all_digits(ds.subrange(0, j - start)),
            val == digits_value(ds.subrange(0, j - start)),
        decreases n - j,
    {
        let c = seg[j];
        let cu = c as u32;
        if cu < 48 || cu > 57 {
            proof {
                assert(ds[j - start] == c);
                assert(!is_digit(ds[j - start]));
                assert(!all_digits(ds));
            }
            return None;
        }
        let d = (cu - 48) as usize;
        let ghost pre = ds.subrange(0, j - start);
        let ghost cur = ds.subrange(0, j - start + 1);
        proof {
            assert(cur.subrange(0, cur.len() - 1) =~= pre);
            assert(cur[cur.len() - 1] == c);
            assert(digits_value(cur) == val * 10 + d);
            assert(all_digits(cur));
        }
        if val > (usize::MAX - d) / 10 {
            proof {
                assert(val * 10 + d > usize::MAX) by (nonlinear_arith)
                    requires
                        val > (usize::MAX - d) / 10,
                        d <= 9,
                        usize::MAX >= 10,
                ;
                if all_digits(ds) {
                    lemma_digits_value_mono(ds, j - start + 1, ds.len() as int);
                    assert(ds.subrange(0, ds.len() as int) =~= ds);
                    assert(digits_value(ds) > usize::MAX);
                }
            }
            return None;
        }
        val = val * 10 + d;
        j += 1;
    }
    proof {
        assert(ds.subrange(0, ds.len() as int) =~= ds);
    }
    Some(val)
}

/// Builds a path diagnostic: the fixed prefix plus the path up to and
/// including the failing segment.
fn path_msg(prefix: &str, pc: &Vec<char>, e: usize) -> (r: String)
    requires
        e <= pc@.len(),
    ensures
        r@ == prefix@ + pc@.subrange(0, e as int),
{
    let mut mv = str_to_chars(prefix);
    let tail = collect_range(pc, 0, e);
    append_chars(&mut mv, &tail);
    chars_to_string(&mv)
}

impl JsonType {
    /// Resolves a dotted path against the value: each segment selects an
    /// object key, or an index into an array.  A failing segment yields an
    /// error naming the path walked up to and including that segment; an
    /// in-range failure reports a missing item, an out-of-range array index
    /// its own message.
    pub fn get<'a>(&'a self, path: &str) -> (r: Result<&'a JsonType, String>)
        ensures
            sget(self@, path@, 0) matches PathRes::Found(jv) ==> (r matches Ok(node) && node@
                == jv),
            sget(self@, path@, 0) matches PathRes::Miss(e) ==> (r matches Err(m) && m@
                == "can not found item "@ + path@.subrange(0, e)),
            sget(self@, path@, 0) matches PathRes::Oor(e) ==> (r matches Err(m) && m@
                == "index out of range "@ + path@.subrange(0, e)),
    {
        let pc = str_to_chars(path);
        let n = pc.len();
        let mut node: &JsonType = self;
        let mut i: usize = 0;
        loop
            invariant
                pc@ == path@,
                n == pc@.len(),
                i <= n,
                sget(self@, path@, 0) == sget(node@, path@, i as int),
            decreases n - i,
        {
            let mut e: usize = i;
            let dotset = ['.'];
            skip_util_char(&pc, &mut e, &dotset);
            proof {
                assert(dotset@ =~= seq!['.']);
                assert(e == spec_skip_until(path@, i as int, seq!['.']));
            }
            let key = collect_range(&pc, i, e);
            let child: &JsonType = match node {
                JsonType::Object(o) => {
                    let ks = chars_to_string(&key);
                    match o.get(ks.as_str()) {
                        Some(c) => c,
                        None => {
                            return Err(path_msg("can not found item ", &pc, e));
                        },
                    }
                },
                JsonType::Array(arr) => {
                    proof {
                        lemma_jarr_of(arr@);
                    }
                    match parse_index(&key) {
                        Some(ix) => {
                            if ix < arr.len() {
                                &arr[ix]
                            } else {
                                return Err(path_msg("index out of range ", &pc, e));
                            }
                        },
                        None => {
                            return Err(path_msg("can not found item ", &pc, e));
                        },
                    }
                },
                _ => {
                    return Err(path_msg("can not found item ", &pc, e));
                },
            };
            if e == n {
                return Ok(child);
            }
            node = child;
            i = e + 1;
        }
    }
}

} // verus!
