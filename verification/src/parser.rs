use vstd::prelude::*;

use crate::num::canon_num_text;
use crate::num::is_digit;
use crate::num::is_num_char;
use crate::num::num_text_valid;
use crate::num::spec_canon_num;
use crate::text::chars_to_string;
use crate::text::str_to_chars;
use crate::utils::collect_range;
use crate::utils::is_valid_ending_quote;
use crate::utils::match_literal;
use crate::utils::parse_error;
use crate::utils::skip_chars;
use crate::utils::skip_spaces;
use crate::utils::skip_util_char;
use crate::utils::space_chars;
use crate::utils::spec_context;
use crate::utils::spec_match_literal;
use crate::utils::spec_skip_until;
use crate::utils::spec_skip_while;
use crate::utils::spec_valid_ending_quote;
use crate::value::JVal;
use crate::value::JsonObject;
use crate::value::JsonType;
use crate::value::jarr_of;
use crate::value::lemma_jarr_of;
use crate::value::obj_insert;
use crate::value::obj_lookup;
use crate::value::unique_keys;
use crate::value::wf;
use crate::value::wf_arr;
use crate::value::wf_obj;

verus! {

/// What the parser skips between an object member and the next key:
/// whitespace, the comma, and the next key's opening quote.
pub open spec fn obj_debris() -> Seq<char> {
    seq![' ', '\r', '\n', ',', '"']
}

/// What the parser skips between two array elements.
pub open spec fn arr_debris() -> Seq<char> {
    seq![',', ' ', '\r', '\n']
}

/// The end of the maximal digit-and-dot run starting at `i`.
pub open spec fn num_end(s: Seq<char>, i: int) -> int
    decreases s.len() - i,
{
    if 0 <= i < s.len() && is_num_char(s[i]) {
        num_end(s, i + 1)
    } else {
        i
    }
}

/// The position of the first unescaped quote at or after `i` (the input
/// length when there is none).
pub open spec fn string_close(s: Seq<char>, i: int) -> int
    decreases s.len() - i,
{
    if 0 <= i < s.len() {
        if spec_valid_ending_quote(s, i) {
            i
        } else {
            string_close(s, i + 1)
        }
    } else {
        i
    }
}

/// The outcome of a parse: the value and the position after it, or the
/// position of the failure.
pub enum PRes {
    POk(JVal, int),
    PFail(int),
}

/// Parses one JSON value at position `i`: skips whitespace, then dispatches
/// on the first character — an object, an array, a number, a string, or one
/// of the literals `null`, `true`, `false`.  Anything else fails.
pub open spec fn sp_value(s: Seq<char>, i: int) -> PRes
    decreases s.len() - i, 0int,
{
    let d0 = spec_skip_while(s, i, space_chars());
    let d = if d0 < i {
        i
    } else {
        d0
    };
    if d >= s.len() {
        PRes::PFail(s.len() as int)
    } else {
        let c = s[d];
        if c == '{' {
            sp_obj_items(s, d + 1, Seq::empty())
        } else if c == '[' {
            sp_arr_items(s, d + 1, Seq::empty())
        } else if is_digit(c) {
            let e = num_end(s, d);
            let t = s.subrange(d, e);
            if num_text_valid(t) {
                PRes::POk(JVal::Num(spec_canon_num(t)), e)
            } else {
                PRes::PFail(d)
            }
        } else if c == '"' {
            let q = string_close(s, d + 1);
            if q >= s.len() {
                PRes::PFail(s.len() as int)
            } else {
                PRes::POk(JVal::Str(s.subrange(d + 1, q)), q + 1)
            }
        } else if c == 'n' {
            if spec_match_literal(s, d, seq!['n', 'u', 'l', 'l']) {
                PRes::POk(JVal::Null, spec_skip_while(s, d + 4, space_chars()))
            } else {
                PRes::PFail(d)
            }
        } else if c == 't' {
            if spec_match_literal(s, d, seq!['t', 'r', 'u', 'e']) {
                PRes::POk(JVal::Bool(true), spec_skip_while(s, d + 4, space_chars()))
            } else {
                PRes::PFail(d)
            }
        } else if c == 'f' {
            if spec_match_literal(s, d, seq!['f', 'a', 'l', 's', 'e']) {
                PRes::POk(JVal::Bool(false), spec_skip_while(s, d + 5, space_chars()))
            } else {
                PRes::PFail(d)
            }
        } else {
            PRes::PFail(d)
        }
    }
}

/// Parses the members of an object after its `{`, accumulating into `acc`:
/// until the closing brace, each round skips to the key, reads it up to its
/// unescaped closing quote, skips to the colon, parses the value, inserts
/// (overwriting an equal key), and skips the trailing debris.
pub open spec fn sp_obj_items(s: Seq<char>, i: int, acc: Seq<(Seq<char>, JVal)>) -> PRes
    decreases s.len() - i, 1int,
{
    if i < 0 || i >= s.len() {
        PRes::PFail(s.len() as int)
    } else if s[i] == '}' {
        PRes::POk(JVal::Obj(acc), i + 1)
    } else {
        let a0 = spec_skip_while(s, i, space_chars());
        let a = if a0 < i {
            i
        } else {
            a0
        };
        if a >= s.len() {
            PRes::PFail(s.len() as int)
        } else if s[a] == '}' {
            PRes::POk(JVal::Obj(acc), a + 1)
        } else {
            let k00 = spec_skip_while(s, a, seq!['"']);
            let k0 = if k00 < a {
                a
            } else {
                k00
            };
            let ke0 = string_close(s, k0);
            let ke = if ke0 < k0 {
                k0
            } else {
                ke0
            };
            if ke >= s.len() {
                PRes::PFail(s.len() as int)
            } else {
                let key = s.subrange(k0, ke);
                let c00 = spec_skip_until(s, ke + 1, seq![':']);
                let c0 = if c00 < ke + 1 {
                    ke + 1
                } else {
                    c00
                };
                if c0 >= s.len() {
                    PRes::PFail(s.len() as int)
                } else {
                    match sp_value(s, c0 + 1) {
                        PRes::PFail(f) => PRes::PFail(f),
                        PRes::POk(child, j) => {
                            let j20 = spec_skip_while(s, j, obj_debris());
                            let j2 = if j20 < j {
                                j
                            } else {
                                j20
                            };
                            if i < j2 <= s.len() {
                                sp_obj_items(s, j2, obj_insert(acc, key, child))
                            } else {
                                PRes::PFail(s.len() as int)
                            }
                        },
                    }
                }
            }
        }
    }
}

/// Parses the elements of an array after its `[`, accumulating into `acc`:
/// until the closing bracket, each round parses one element and skips the
/// separating debris.
pub open spec fn sp_arr_items(s: Seq<char>, i: int, acc: Seq<JVal>) -> PRes
    decreases s.len() - i, 1int,
{
    if i < 0 || i >= s.len() {
        PRes::PFail(s.len() as int)
    } else if s[i] == ']' {
        PRes::POk(JVal::Arr(acc), i + 1)
    } else {
        let a0 = spec_skip_while(s, i, space_chars());
        let a = if a0 < i {
            i
        } else {
            a0
        };
        if a >= s.len() {
            PRes::PFail(s.len() as int)
        } else if s[a] == ']' {
            PRes::POk(JVal::Arr(acc), a + 1)
        } else {
            match sp_value(s, a) {
                PRes::PFail(f) => PRes::PFail(f),
                PRes::POk(child, j) => {
                    let j20 = spec_skip_while(s, j, arr_debris());
                    let j2 = if j20 < j {
                        j
                    } else {
                        j20
                    };
                    if i < j2 <= s.len() {
                        sp_arr_items(s, j2, acc.push(child))
                    } else {
                        PRes::PFail(s.len() as int)
                    }
                },
            }
        }
    }
}

/// Parses a whole input: the result of `sp_value` at its start.
pub open spec fn spec_parse(s: Seq<char>) -> PRes {
    sp_value(s, 0)
}

/// Parses one value starting at `i`, returning it with the position after
/// it, or the failure position.
fn parse_value(chars: &Vec<char>, i: usize) -> (r: Result<(JsonType, usize), usize>)
    requires
        i <= chars@.len(),
    ensures
        match r {
            Ok(p) => sp_value(chars@, i as int) == PRes::POk(p.0@, p.1 as int) && i < p.1
                <= chars@.len() && wf(p.0@),
            Err(f) => sp_value(chars@, i as int) == PRes::PFail(f as int) && f <= chars@.len(),
        },
    decreases chars@.len() - i, 0int,
{
    let mut d = i;
    skip_spaces(chars, &mut d);
    if d >= chars.len() {
        return Err(chars.len());
    }
    let c = chars[d];
    if c == '{' {
        let o = JsonObject::new();
        match parse_obj_items(chars, d + 1, o) {
            Ok(p) => Ok((JsonType::Object(p.0), p.1)),
            Err(f) => Err(f),
        }
    } else if c == '[' {
        let a: Vec<JsonType> = Vec::new();
        match parse_arr_items(chars, d + 1, a) {
            Ok(p) => Ok((JsonType::Array(p.0), p.1)),
            Err(f) => Err(f),
        }
    } else if (c as u32) >= 48 && (c as u32) <= 57 {
        let mut e = d + 1;
        while e < chars.len() && ((chars[e] as u32) >= 48 && (chars[e] as u32) <= 57 || chars[e]
            == '.')
            invariant
                d < e <= chars@.len(),
                num_end(chars@, d as int) == num_end(chars@, e as int),
            decreases chars@.len() - e,
        {
            e += 1;
        }
        proof {
            assert(num_end(chars@, e as int) == e as int);
        }
        let run = collect_range(chars, d, e);
        proof {
            assert(is_digit(run@[0]));
            assert(forall|k: int|
                0 <= k < run@.len() ==> is_num_char(#[trigger] run@[k]) == is_num_char(
                    chars@[d + k],
                ));
            assert forall|k: int| 0 <= k < run@.len() implies is_num_char(#[trigger] run@[k]) by {
                lemma_num_run(chars@, d as int, e as int, d + k);
            }
        }
        match canon_num_text(&run) {
            Some(cv) => {
                let t = chars_to_string(&cv);
                Ok((JsonType::Number(t), e))
            },
            None => Err(d),
        }
    } else if c == '"' {
        let mut q = d + 1;
        while q < chars.len() && !is_valid_ending_quote(chars, q)
            invariant
                d < q <= chars@.len(),
                string_close(chars@, (d + 1) as int) == string_close(chars@, q as int),
            decreases chars@.len() - q,
        {
            q += 1;
        }
        if q >= chars.len() {
            return Err(chars.len());
        }
        let sv = collect_range(chars, d + 1, q);
        let t = chars_to_string(&sv);
        Ok((JsonType::String(t), q + 1))
    } else if c == 'n' {
        proof {
            reveal_strlit("null");
            assert("null"@ =~= seq!['n', 'u', 'l', 'l']);
        }
        if match_literal(chars, d, "null") {
            let mut e = d + 4;
            skip_spaces(chars, &mut e);
            Ok((JsonType::Null, e))
        } else {
            Err(d)
        }
    } else if c == 't' {
        proof {
            reveal_strlit("true");
            assert("true"@ =~= seq!['t', 'r', 'u', 'e']);
        }
        if match_literal(chars, d, "true") {
            let mut e = d + 4;
            skip_spaces(chars, &mut e);
            Ok((JsonType::Bool(true), e))
        } else {
            Err(d)
        }
    } else if c == 'f' {
        proof {
            reveal_strlit("false");
            assert("false"@ =~= seq!['f', 'a', 'l', 's', 'e']);
        }
        if match_literal(chars, d, "false") {
            let mut e = d + 5;
            skip_spaces(chars, &mut e);
            Ok((JsonType::Bool(false), e))
        } else {
            Err(d)
        }
    } else {
        Err(d)
    }
}

/// Every position of a maximal number run holds a digit or a dot.
proof fn lemma_num_run(s: Seq<char>, d: int, e: int, k: int)
    requires
        0 <= d <= k < e <= s.len(),
        num_end(s, d) == e,
    ensures
        is_num_char(s[k]),
    decreases k - d,
{
    lemma_num_end_bounds(s, d);
    if d < k {
        assert(is_num_char(s[d]));
        lemma_num_run(s, d + 1, e, k);
    }
}

/// A number run never moves backwards, and the character at its start is in
/// the run when the run is nonempty.
proof fn lemma_num_end_bounds(s: Seq<char>, i: int)
    ensures
        num_end(s, i) >= i,
        num_end(s, i) > i ==> (0 <= i < s.len() && is_num_char(s[i]) && num_end(s, i + 1)
            == num_end(s, i)),
    decreases s.len() - i,
{
    if 0 <= i < s.len() && is_num_char(s[i]) {
        lemma_num_end_bounds(s, i + 1);
    }
}

/// Parses object members after `{` into `obj`, which holds the members read
/// so far.
fn parse_obj_items(chars: &Vec<char>, i: usize, obj: JsonObject) -> (r: Result<
    (JsonObject, usize),
    usize,
>)
    requires
        i <= chars@.len(),
        wf(JVal::Obj(obj@)),
    ensures
        match r {
            Ok(p) => sp_obj_items(chars@, i as int, obj@) == PRes::POk(JVal::Obj(p.0@), p.1 as int)
                && i < p.1 <= chars@.len() && wf(JVal::Obj(p.0@)),
            Err(f) => sp_obj_items(chars@, i as int, obj@) == PRes::PFail(f as int) && f
                <= chars@.len(),
        },
    decreases chars@.len() - i, 1int,
{
    if i >= chars.len() {
        return Err(chars.len());
    }
    if chars[i] == '}' {
        return Ok((obj, i + 1));
    }
    let mut a = i;
    skip_spaces(chars, &mut a);
    if a >= chars.len() {
        return Err(chars.len());
    }
    if chars[a] == '}' {
        return Ok((obj, a + 1));
    }
    let qset = ['"'];
    proof {
        assert(qset@ =~= seq!['"']);
    }
    let mut k0 = a;
    skip_chars(chars, &mut k0, &qset);
    let mut ke = k0;
    while ke < chars.len() && !is_valid_ending_quote(chars, ke)
        invariant
            k0 <= ke <= chars@.len(),
            string_close(chars@, k0 as int) == string_close(chars@, ke as int),
        decreases chars@.len() - ke,
    {
        ke += 1;
    }
    if ke >= chars.len() {
        return Err(chars.len());
    }
    let key = collect_range(chars, k0, ke);
    let cset = [':'];
    proof {
        assert(cset@ =~= seq![':']);
    }
    let mut c0 = ke + 1;
    skip_util_char(chars, &mut c0, &cset);
    if c0 >= chars.len() {
        return Err(chars.len());
    }
    match parse_value(chars, c0 + 1) {
        Err(f) => Err(f),
        Ok(p) => {
            let child = p.0;
            let j = p.1;
            let dset = [' ', '\r', '\n', ',', '"'];
            proof {
                assert(dset@ =~= obj_debris());
            }
            let mut j2 = j;
            skip_chars(chars, &mut j2, &dset);
            let ks = chars_to_string(&key);
            let mut obj2 = obj;
            let ghost before = obj2@;
            obj2.insert(ks.as_str(), child);
            proof {
                assert(obj2@ == obj_insert(before, key@, p.0@));
            }
            parse_obj_items(chars, j2, obj2)
        },
    }
}

/// Parses array elements after `[` into `arr`, which holds the elements
/// read so far.
fn parse_arr_items(chars: &Vec<char>, i: usize, arr: Vec<JsonType>) -> (r: Result<
    (Vec<JsonType>, usize),
    usize,
>)
    requires
        i <= chars@.len(),
        wf(JVal::Arr(jarr_of(arr@))),
    ensures
        match r {
            Ok(p) => sp_arr_items(chars@, i as int, jarr_of(arr@)) == PRes::POk(
                JVal::Arr(jarr_of(p.0@)),
                p.1 as int,
            ) && i < p.1 <= chars@.len() && wf(JVal::Arr(jarr_of(p.0@))),
            Err(f) => sp_arr_items(chars@, i as int, jarr_of(arr@)) == PRes::PFail(f as int) && f
                <= chars@.len(),
        },
    decreases chars@.len() - i, 1int,
{
    if i >= chars.len() {
        return Err(chars.len());
    }
    if chars[i] == ']' {
        return Ok((arr, i + 1));
    }
    let mut a = i;
    skip_spaces(chars, &mut a);
    if a >= chars.len() {
        return Err(chars.len());
    }
    if chars[a] == ']' {
        return Ok((arr, a + 1));
    }
    match parse_value(chars, a) {
        Err(f) => Err(f),
        Ok(p) => {
            let dset = [',', ' ', '\r', '\n'];
            proof {
                assert(dset@ =~= arr_debris());
            }
            let mut j2 = p.1;
            skip_chars(chars, &mut j2, &dset);
            let mut arr2 = arr;
            let ghost before = arr2@;
            proof {
                lemma_jarr_of(before);
                crate::value::lemma_wf_arr_index(jarr_of(before));
            }
            arr2.push(p.0);
            proof {
                assert(arr2@.subrange(0, arr2@.len() - 1) =~= before);
                lemma_jarr_of(arr2@);
                assert(jarr_of(arr2@) =~= jarr_of(before).push(p.0@));
                crate::value::lemma_wf_arr_index(jarr_of(arr2@));
            }
            parse_arr_items(chars, j2, arr2)
        },
    }
}

/// Parses a JSON text into a value tree.  Malformed input yields an error
/// holding up to 50 characters of context before the failure point.
pub fn parse(s: &str) -> (r: Result<JsonType, String>)
    ensures
        spec_parse(s@) matches PRes::POk(jv, j) ==> (r matches Ok(v) && v@ == jv && wf(jv)),
        spec_parse(s@) matches PRes::PFail(f) ==> (r matches Err(m) && m@ == spec_context(s@, f)),
{
    let chars = str_to_chars(s);
    match parse_value(&chars, 0) {
        Ok(p) => Ok(p.0),
        Err(f) => Err(parse_error(&chars, f)),
    }
}

} // verus!
