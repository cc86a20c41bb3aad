use vstd::prelude::*;

use crate::num::is_digit;
use crate::num::is_num_char;
use crate::num::num_canon;
use crate::num::spec_canon_num;
use crate::parser::PRes;
use crate::parser::arr_debris;
use crate::parser::num_end;
use crate::parser::obj_debris;
use crate::parser::sp_arr_items;
use crate::parser::sp_obj_items;
use crate::parser::sp_value;
use crate::parser::string_close;
use crate::ser::ser_gap;
use crate::ser::ser_sep;
use crate::ser::ser_wrap;
use crate::ser::ser_wrap_end;
use crate::ser::ser_wrap_start;
use crate::ser::sser;
use crate::ser::sser_arr;
use crate::ser::sser_arr_item;
use crate::ser::sser_obj;
use crate::ser::sser_obj_item;
use crate::utils::backslash_run;
use crate::utils::lemma_skip_while_exact;
use crate::utils::space_chars;
use crate::utils::spec_match_literal;
use crate::utils::spec_skip_until;
use crate::utils::spec_skip_while;
use crate::utils::spec_valid_ending_quote;
use crate::value::JVal;
use crate::value::obj_insert;
use crate::value::unique_keys;
use crate::value::wf;
use crate::value::wf_arr;
use crate::value::wf_obj;

verus! {

/// Text that survives being wrapped in quotes and scanned back: no interior
/// position reads as an unescaped quote, and the text does not end in an
/// odd run of backslashes (which would escape the closing quote).
pub open spec fn str_embeddable(t: Seq<char>) -> bool {
    &&& (forall|j: int|
        0 <= j < t.len() ==> !(#[trigger] t[j] == '"' && backslash_run(t, j) % 2 == 0))
    &&& backslash_run(t, t.len() as int) % 2 == 0
}

/// An object key that parses back exactly: embeddable as a string, nonempty,
/// and not starting with a character the member scanner would consume or
/// mistake for the closing brace.
pub open spec fn key_safe(k: Seq<char>) -> bool {
    &&& str_embeddable(k)
    &&& k.len() > 0
    &&& !obj_debris().contains(k[0])
    &&& k[0] != '}'
}

/// The values whose compact serialization parses back to the very value:
/// canonical numbers and embeddable strings throughout, safe object keys.
pub open spec fn round_trip_safe(v: JVal) -> bool
    decreases v, 0int,
{
    match v {
        JVal::Num(t) => num_canon(t),
        JVal::Str(t) => str_embeddable(t),
        JVal::Arr(items) => rt_arr(items),
        JVal::Obj(es) => rt_obj(es),
        _ => true,
    }
}

pub open spec fn rt_arr(items: Seq<JVal>) -> bool
    decreases items, 1int,
{
    if items.len() == 0 {
        true
    } else {
        round_trip_safe(items[0]) && rt_arr(items.subrange(1, items.len() as int))
    }
}

pub open spec fn rt_obj(es: Seq<(Seq<char>, JVal)>) -> bool
    decreases es, 1int,
{
    if es.len() == 0 {
        true
    } else {
        key_safe(es[0].0) && round_trip_safe(es[0].1) && rt_obj(
            es.subrange(1, es.len() as int),
        )
    }
}

/// What the three-character whitespace set holds.
pub proof fn lemma_space_chars_elems(c: char)
    ensures
        space_chars().contains(c) <==> (c == ' ' || c == '\r' || c == '\n'),
{
    if c == ' ' {
        assert(space_chars()[0] == c);
    }
    if c == '\r' {
        assert(space_chars()[1] == c);
    }
    if c == '\n' {
        assert(space_chars()[2] == c);
    }
}

/// What the object debris set holds.
pub proof fn lemma_obj_debris_elems(c: char)
    ensures
        obj_debris().contains(c) <==> (c == ' ' || c == '\r' || c == '\n' || c == ',' || c == '"'),
{
    if c == ' ' {
        assert(obj_debris()[0] == c);
    }
    if c == '\r' {
        assert(obj_debris()[1] == c);
    }
    if c == '\n' {
        assert(obj_debris()[2] == c);
    }
    if c == ',' {
        assert(obj_debris()[3] == c);
    }
    if c == '"' {
        assert(obj_debris()[4] == c);
    }
}

/// What the array debris set holds.
pub proof fn lemma_arr_debris_elems(c: char)
    ensures
        arr_debris().contains(c) <==> (c == ',' || c == ' ' || c == '\r' || c == '\n'),
{
    if c == ',' {
        assert(arr_debris()[0] == c);
    }
    if c == ' ' {
        assert(arr_debris()[1] == c);
    }
    if c == '\r' {
        assert(arr_debris()[2] == c);
    }
    if c == '\n' {
        assert(arr_debris()[3] == c);
    }
}

/// A backslash run read inside an embedded copy of `t` equals the run read
/// in `t` itself, as long as the character just before the copy is not a
/// backslash.
pub proof fn lemma_backslash_run_embed(s: Seq<char>, t: Seq<char>, base: int, j: int)
    requires
        0 < base,
        base + t.len() <= s.len(),
        s.subrange(base, base + t.len() as int) == t,
        s[base - 1] != '\\',
        0 <= j <= t.len(),
    ensures
        backslash_run(s, base + j) == backslash_run(t, j),
    decreases j,
{
    assert(forall|l: int| 0 <= l < t.len() ==> s[base + l] == #[trigger] t[l]);
    if j == 0 {
        assert(backslash_run(s, base) == 0);
    } else {
        assert(s[base + j - 1] == t[j - 1]);
        if t[j - 1] == '\\' {
            lemma_backslash_run_embed(s, t, base, j - 1);
        }
    }
}

/// A scan for an unescaped quote stops exactly at `q` when no earlier
/// position qualifies and `q` does.
pub proof fn lemma_string_close_exact(s: Seq<char>, i: int, q: int)
    requires
        0 <= i <= q < s.len(),
        forall|j: int| i <= j < q ==> !spec_valid_ending_quote(s, j),
        spec_valid_ending_quote(s, q),
    ensures
        string_close(s, i) == q,
    decreases q - i,
{
    if i < q {
        lemma_string_close_exact(s, i + 1, q);
    }
}

/// A number scan stops exactly at `e` when everything before it in the run
/// is a digit or dot and `e` holds neither (or is the end).
pub proof fn lemma_num_end_exact(s: Seq<char>, i: int, e: int)
    requires
        0 <= i <= e <= s.len(),
        forall|j: int| i <= j < e ==> is_num_char(#[trigger] s[j]),
        e == s.len() || !is_num_char(s[e]),
    ensures
        num_end(s, i) == e,
    decreases e - i,
{
    if i < e {
        lemma_num_end_exact(s, i + 1, e);
    }
}


/// The serialized text of a round-trip-safe value is nonempty, starts with
/// the character its kind dispatches on, and that character is none of the
/// separators, closers or whitespace.
pub proof fn lemma_sser_first(v: JVal, ind: int, acc: int)
    requires
        round_trip_safe(v),
    ensures
        sser(v, ind, acc).len() >= 1,
        ({
            let c = sser(v, ind, acc)[0];
            &&& (c == 'n' || c == 't' || c == 'f' || c == '"' || c == '[' || c == '{' || is_digit(
                c,
            ))
            &&& c != ',' && c != ']' && c != '}'
            &&& c != ' ' && c != '\r' && c != '\n'
        }),
{
    match v {
        JVal::Null => {
            assert(sser(v, ind, acc)[0] == 'n');
        },
        JVal::Bool(b) => {
            if b {
                assert(sser(v, ind, acc)[0] == 't');
            } else {
                assert(sser(v, ind, acc)[0] == 'f');
            }
        },
        JVal::Num(t) => {
            assert(sser(v, ind, acc) == t);
            assert(is_digit(t[0]));
        },
        JVal::Str(t) => {
            assert(sser(v, ind, acc)[0] == '"');
        },
        JVal::Arr(items) => {
            assert(sser(v, ind, acc)[0] == '[');
        },
        JVal::Obj(es) => {
            assert(sser(v, ind, acc)[0] == '{');
        },
    }
}

/// The member join peeled from the front: the first item, then the
/// separator and the join of the rest.
pub proof fn lemma_sser_arr_cons(items: Seq<JVal>, ind: int, acc: int)
    requires
        items.len() > 0,
    ensures
        items.len() == 1 ==> sser_arr(items, ind, acc) == sser_arr_item(items[0], ind, acc),
        items.len() > 1 ==> sser_arr(items, ind, acc) == sser_arr_item(items[0], ind, acc)
            + ser_sep(ind) + sser_arr(items.subrange(1, items.len() as int), ind, acc),
    decreases items.len(),
{
    if items.len() > 1 {
        let pre = items.subrange(0, items.len() - 1);
        let rest = items.subrange(1, items.len() as int);
        lemma_sser_arr_cons(pre, ind, acc);
        assert(pre[0] == items[0]);
        assert(rest[rest.len() - 1] == items[items.len() - 1]);
        assert(rest.subrange(0, rest.len() - 1) =~= pre.subrange(1, pre.len() as int));
        if items.len() == 2 {
            assert(rest.len() == 1);
            assert(rest[0] == items[1]);
            assert(sser_arr(items, ind, acc) =~= sser_arr_item(items[0], ind, acc) + ser_sep(ind)
                + sser_arr(rest, ind, acc));
        } else {
            let prerest = pre.subrange(1, pre.len() as int);
            assert(sser_arr(rest, ind, acc) == sser_arr(prerest, ind, acc) + ser_sep(ind)
                + sser_arr_item(rest[rest.len() - 1], ind, acc));
            assert(sser_arr(items, ind, acc) =~= sser_arr_item(items[0], ind, acc) + ser_sep(ind)
                + sser_arr(rest, ind, acc));
        }
    }
}

/// The object join peeled from the front.
pub proof fn lemma_sser_obj_cons(es: Seq<(Seq<char>, JVal)>, ind: int, acc: int)
    requires
        es.len() > 0,
    ensures
        es.len() == 1 ==> sser_obj(es, ind, acc) == sser_obj_item(es[0].0, es[0].1, ind, acc),
        es.len() > 1 ==> sser_obj(es, ind, acc) == sser_obj_item(es[0].0, es[0].1, ind, acc)
            + ser_sep(ind) + sser_obj(es.subrange(1, es.len() as int), ind, acc),
    decreases es.len(),
{
    if es.len() > 1 {
        let pre = es.subrange(0, es.len() - 1);
        let rest = es.subrange(1, es.len() as int);
        lemma_sser_obj_cons(pre, ind, acc);
        assert(pre[0] == es[0]);
        assert(rest[rest.len() - 1] == es[es.len() - 1]);
        assert(rest.subrange(0, rest.len() - 1) =~= pre.subrange(1, pre.len() as int));
        if es.len() == 2 {
            assert(rest.len() == 1);
            assert(rest[0] == es[1]);
            assert(sser_obj(es, ind, acc) =~= sser_obj_item(es[0].0, es[0].1, ind, acc) + ser_sep(
                ind,
            ) + sser_obj(rest, ind, acc));
        } else {
            let prerest = pre.subrange(1, pre.len() as int);
            assert(sser_obj(rest, ind, acc) == sser_obj(prerest, ind, acc) + ser_sep(ind)
                + sser_obj_item(rest[rest.len() - 1].0, rest[rest.len() - 1].1, ind, acc));
            assert(sser_obj(es, ind, acc) =~= sser_obj_item(es[0].0, es[0].1, ind, acc) + ser_sep(
                ind,
            ) + sser_obj(rest, ind, acc));
        }
    }
}

/// An array body after its first item's indentation has been consumed: the
/// items' texts joined by the separator and each further item's
/// indentation.
pub open spec fn arr_tail_text(rest: Seq<JVal>, ind: int, acc: int) -> Seq<char>
    decreases rest.len(),
{
    if rest.len() == 0 {
        Seq::empty()
    } else if rest.len() == 1 {
        sser(rest[0], ind, acc + ind)
    } else {
        sser(rest[0], ind, acc + ind) + ser_sep(ind) + ser_wrap(ind, acc) + arr_tail_text(
            rest.subrange(1, rest.len() as int),
            ind,
            acc,
        )
    }
}

/// An object body from the first member's opening quote on.
pub open spec fn obj_tail_text(rest: Seq<(Seq<char>, JVal)>, ind: int, acc: int) -> Seq<char>
    decreases rest.len(),
{
    if rest.len() == 0 {
        Seq::empty()
    } else {
        let m = seq!['"'] + rest[0].0 + seq!['"', ':'] + ser_gap(ind) + sser(
            rest[0].1,
            ind,
            acc + ind,
        );
        if rest.len() == 1 {
            m
        } else {
            m + ser_sep(ind) + ser_wrap(ind, acc) + obj_tail_text(
                rest.subrange(1, rest.len() as int),
                ind,
                acc,
            )
        }
    }
}

/// The member join is the first item's indentation followed by the tail
/// text.
pub proof fn lemma_arr_tail(rest: Seq<JVal>, ind: int, acc: int)
    requires
        rest.len() > 0,
    ensures
        sser_arr(rest, ind, acc) == ser_wrap(ind, acc) + arr_tail_text(rest, ind, acc),
    decreases rest.len(),
{
    lemma_sser_arr_cons(rest, ind, acc);
    if rest.len() == 1 {
        assert(sser_arr(rest, ind, acc) =~= ser_wrap(ind, acc) + arr_tail_text(rest, ind, acc));
    } else {
        let rest1 = rest.subrange(1, rest.len() as int);
        lemma_arr_tail(rest1, ind, acc);
        assert(sser_arr(rest, ind, acc) =~= ser_wrap(ind, acc) + arr_tail_text(rest, ind, acc));
    }
}

/// The object join is the first member's indentation followed by the tail
/// text.
pub proof fn lemma_obj_tail(rest: Seq<(Seq<char>, JVal)>, ind: int, acc: int)
    requires
        rest.len() > 0,
    ensures
        sser_obj(rest, ind, acc) == ser_wrap(ind, acc) + obj_tail_text(rest, ind, acc),
    decreases rest.len(),
{
    lemma_sser_obj_cons(rest, ind, acc);
    if rest.len() == 1 {
        assert(sser_obj(rest, ind, acc) =~= ser_wrap(ind, acc) + obj_tail_text(rest, ind, acc));
    } else {
        let rest1 = rest.subrange(1, rest.len() as int);
        lemma_obj_tail(rest1, ind, acc);
        assert(sser_obj(rest, ind, acc) =~= ser_wrap(ind, acc) + obj_tail_text(rest, ind, acc));
    }
}

/// The layout of an array tail: the first item's text, then the separator
/// region (a comma and whitespace), then the next tail.
#[verifier::rlimit(100)]
pub proof fn lemma_arr_tail_layout(rest: Seq<JVal>, ind: int, acc: int)
    requires
        rest.len() > 0,
        ind >= 0,
        acc >= 0,
    ensures
        ({
            let at = arr_tail_text(rest, ind, acc);
            let t0 = sser(rest[0], ind, acc + ind);
            let l0 = t0.len() as int;
            &&& (forall|m: int| 0 <= m < l0 ==> at[m] == #[trigger] t0[m])
            &&& (rest.len() == 1 ==> at.len() == l0)
            &&& (rest.len() > 1 ==> {
                let at1 = arr_tail_text(rest.subrange(1, rest.len() as int), ind, acc);
                let o1 = l0 + ser_sep(ind).len() + ser_wrap(ind, acc).len();
                &&& at.len() == o1 + at1.len()
                &&& at[l0] == ','
                &&& (forall|x: int| l0 < x < o1 ==> space_chars().contains(#[trigger] at[x]))
                &&& (forall|m: int| 0 <= m < at1.len() ==> at[o1 + m] == #[trigger] at1[m])
            })
        }),
{
    let at = arr_tail_text(rest, ind, acc);
    let t0 = sser(rest[0], ind, acc + ind);
    let l0 = t0.len() as int;
    if rest.len() > 1 {
        let at1 = arr_tail_text(rest.subrange(1, rest.len() as int), ind, acc);
        let o1 = l0 + ser_sep(ind).len() + ser_wrap(ind, acc).len();
        let w = t0 + ser_sep(ind) + ser_wrap(ind, acc) + at1;
        assert(at == w);
        assert(forall|m: int| 0 <= m < l0 ==> w[m] == #[trigger] t0[m]);
        assert(ser_sep(ind)[0] == ',');
        assert(w[l0] == ',');
        assert forall|x: int| l0 < x < o1 implies space_chars().contains(#[trigger] w[x]) by {
            assert(space_chars()[0] == ' ');
            assert(space_chars()[2] == '\n');
            if x < l0 + ser_sep(ind).len() {
                assert(ind > 0);
                assert(w[x] == ser_sep(ind)[x - l0]);
                assert(ser_sep(ind)[1] == '\n');
            } else {
                assert(w[x] == ser_wrap(ind, acc)[x - l0 - ser_sep(ind).len()]);
                assert(ind > 0);
                assert(ser_wrap(ind, acc)[x - l0 - ser_sep(ind).len()] == ' ');
            }
        }
        assert(forall|m: int| 0 <= m < at1.len() ==> w[o1 + m] == #[trigger] at1[m]);
    }
}

/// The layout of an object tail: the quoted key, the colon and its gap, the
/// value text, then the separator region and the next tail.
#[verifier::rlimit(100)]
pub proof fn lemma_obj_tail_layout(rest: Seq<(Seq<char>, JVal)>, ind: int, acc: int)
    requires
        rest.len() > 0,
        ind >= 0,
        acc >= 0,
    ensures
        ({
            let qt = obj_tail_text(rest, ind, acc);
            let k = rest[0].0;
            let kl = k.len() as int;
            let g = ser_gap(ind).len() as int;
            let t0 = sser(rest[0].1, ind, acc + ind);
            let l0 = t0.len() as int;
            &&& qt[0] == '"'
            &&& (forall|m: int| 0 <= m < kl ==> qt[1 + m] == #[trigger] k[m])
            &&& qt[1 + kl] == '"'
            &&& qt[2 + kl] == ':'
            &&& (forall|m: int| 0 <= m < g ==> #[trigger] qt[3 + kl + m] == ' ')
            &&& (forall|m: int| 0 <= m < l0 ==> qt[3 + kl + g + m] == #[trigger] t0[m])
            &&& (rest.len() == 1 ==> qt.len() == 3 + kl + g + l0)
            &&& (rest.len() > 1 ==> {
                let qt1 = obj_tail_text(rest.subrange(1, rest.len() as int), ind, acc);
                let o1 = 3 + kl + g + l0 + ser_sep(ind).len() + ser_wrap(ind, acc).len();
                &&& qt.len() == o1 + qt1.len()
                &&& qt[3 + kl + g + l0] == ','
                &&& (forall|x: int|
                    3 + kl + g + l0 < x < o1 ==> space_chars().contains(#[trigger] qt[x]))
                &&& (forall|m: int| 0 <= m < qt1.len() ==> qt[o1 + m] == #[trigger] qt1[m])
            })
        }),
{
    let qt = obj_tail_text(rest, ind, acc);
    let k = rest[0].0;
    let kl = k.len() as int;
    let g = ser_gap(ind).len() as int;
    let t0 = sser(rest[0].1, ind, acc + ind);
    let l0 = t0.len() as int;
    let m0 = seq!['"'] + k + seq!['"', ':'] + ser_gap(ind) + t0;
    assert(m0[0] == '"');
    assert(forall|m: int| 0 <= m < kl ==> m0[1 + m] == #[trigger] k[m]);
    assert(m0[1 + kl] == '"');
    assert(m0[2 + kl] == ':');
    assert forall|m: int| 0 <= m < g implies #[trigger] m0[3 + kl + m] == ' ' by {
        assert(ind > 0);
        assert(m0[3 + kl + m] == ser_gap(ind)[m]);
    }
    assert(forall|m: int| 0 <= m < l0 ==> m0[3 + kl + g + m] == #[trigger] t0[m]);
    if rest.len() == 1 {
        assert(qt == m0);
    } else {
        let qt1 = obj_tail_text(rest.subrange(1, rest.len() as int), ind, acc);
        let o1 = 3 + kl + g + l0 + ser_sep(ind).len() + ser_wrap(ind, acc).len();
        let w = m0 + ser_sep(ind) + ser_wrap(ind, acc) + qt1;
        assert(qt == w);
        assert(forall|m: int| 0 <= m < m0.len() ==> w[m] == #[trigger] m0[m]);
        assert(ser_sep(ind)[0] == ',');
        assert(w[3 + kl + g + l0] == ',');
        assert forall|x: int|
            3 + kl + g + l0 < x < o1 implies space_chars().contains(#[trigger] w[x]) by {
            assert(space_chars()[0] == ' ');
            assert(space_chars()[2] == '\n');
            if x < 3 + kl + g + l0 + ser_sep(ind).len() {
                assert(ind > 0);
                assert(w[x] == ser_sep(ind)[x - (3 + kl + g + l0)]);
                assert(ser_sep(ind)[1] == '\n');
            } else {
                assert(w[x] == ser_wrap(ind, acc)[x - (3 + kl + g + l0) - ser_sep(ind).len()]);
                assert(ind > 0);
                assert(ser_wrap(ind, acc)[x - (3 + kl + g + l0) - ser_sep(ind).len()] == ' ');
            }
        }
        assert(forall|m: int| 0 <= m < qt1.len() ==> w[o1 + m] == #[trigger] qt1[m]);
    }
}

/// Where the parse of a value stops, measured from the end of its text: the
/// literal keywords also swallow the whitespace after them.
pub open spec fn tail_end(v: JVal, s: Seq<char>, e: int) -> int {
    match v {
        JVal::Null => spec_skip_while(s, e, space_chars()),
        JVal::Bool(b) => spec_skip_while(s, e, space_chars()),
        _ => e,
    }
}

/// Parsing replays a serialization (with any indentation width) embedded in
/// a larger text: the scan may stand on leading whitespace before the
/// value's text at `p`; it yields exactly the serialized value, stopping at
/// `tail_end`.
#[verifier::rlimit(100)]
#[verifier::spinoff_prover]
pub proof fn lemma_parse_sser(v: JVal, s: Seq<char>, i: int, p: int, ind: int, acc: int)
    requires
        wf(v),
        round_trip_safe(v),
        ind >= 0,
        acc >= 0,
        0 <= i <= p,
        forall|j: int| i <= j < p ==> space_chars().contains(#[trigger] s[j]),
        p + sser(v, ind, acc).len() <= s.len(),
        s.subrange(p, p + sser(v, ind, acc).len() as int) == sser(v, ind, acc),
        p + sser(v, ind, acc).len() == s.len() || !is_num_char(s[p + sser(v, ind, acc).len()]),
    ensures
        sp_value(s, i) == PRes::POk(v, tail_end(v, s, p + sser(v, ind, acc).len())),
    decreases v, 0int,
{
    let t = sser(v, ind, acc);
    let l = t.len() as int;
    assert forall|j: int| p <= j < p + l implies #[trigger] s[j] == t[j - p] by {
        assert(s.subrange(p, p + l)[j - p] == t[j - p]);
    }
    lemma_sser_first(v, ind, acc);
    assert(s[p] == t[0]);
    lemma_space_chars_elems(s[p]);
    lemma_skip_while_exact(s, i, p, space_chars());
    match v {
        JVal::Null => {
            assert(s.subrange(p, p + 4) == seq!['n', 'u', 'l', 'l']);
            assert(spec_match_literal(s, p, seq!['n', 'u', 'l', 'l']));
        },
        JVal::Bool(b) => {
            if b {
                assert(s.subrange(p, p + 4) == seq!['t', 'r', 'u', 'e']);
                assert(spec_match_literal(s, p, seq!['t', 'r', 'u', 'e']));
            } else {
                assert(s.subrange(p, p + 5) == seq!['f', 'a', 'l', 's', 'e']);
                assert(spec_match_literal(s, p, seq!['f', 'a', 'l', 's', 'e']));
            }
        },
        JVal::Num(t0) => {
            assert(t == t0);
            assert forall|j: int| p <= j < p + l implies is_num_char(#[trigger] s[j]) by {
                assert(s[j] == t0[j - p]);
                assert(is_num_char(t0[j - p]));
            }
            lemma_num_end_exact(s, p, p + l);
            assert(s.subrange(p, p + l) =~= t0);
            assert(spec_canon_num(t0) == t0);
        },
        JVal::Str(t0) => {
            assert(t =~= seq!['"'] + t0 + seq!['"']);
            let base = p + 1;
            let tl = t0.len() as int;
            let q = base + tl;
            assert forall|m: int|
                0 <= m < tl implies s.subrange(base, base + tl)[m] == #[trigger] t0[m] by {
                assert(s[base + m] == t[m + 1]);
                assert(t[m + 1] == t0[m]);
            }
            assert(s.subrange(base, base + tl) =~= t0);
            assert(s[p] == '"');
            assert(s[q] == t[l - 1]);
            assert(s[q] == '"');
            assert forall|j: int| base <= j < q implies !spec_valid_ending_quote(s, j) by {
                let jj = j - base;
                lemma_backslash_run_embed(s, t0, base, jj);
                assert(s[j] == t[jj + 1]);
                assert(t[jj + 1] == t0[jj]);
            }
            lemma_backslash_run_embed(s, t0, base, tl);
            assert(spec_valid_ending_quote(s, q));
            lemma_string_close_exact(s, base, q);
            assert(s.subrange(base, q) =~= t0);
        },
        JVal::Arr(items) => {
            let body = sser_arr(items, ind, acc);
            let r = body.len() as int;
            let ws = ser_wrap_start(ind);
            let we = ser_wrap_end(ind, acc);
            assert(t =~= seq!['['] + ws + body + we + seq![']']);
            let close = p + l - 1;
            assert(s[close] == t[l - 1]);
            assert(s[close] == ']');
            assert(s[p] == '[');
            if items.len() == 0 {
                assert(r == 0);
                assert forall|j: int|
                    p + 1 <= j < close implies space_chars().contains(#[trigger] s[j]) by {
                    assert(s[j] == t[j - p]);
                    assert(space_chars()[0] == ' ');
                    assert(space_chars()[2] == '\n');
                    if j - p - 1 < ws.len() {
                        assert(t[j - p] == ws[j - p - 1]);
                    } else {
                        assert(t[j - p] == we[j - p - 1 - ws.len()]);
                        if j - p - 1 - ws.len() >= 1 {
                            assert(we[j - p - 1 - ws.len()] == ' ');
                        }
                    }
                }
                if p + 1 == close {
                    assert(sp_arr_items(s, p + 1, Seq::<JVal>::empty()) == PRes::POk(
                        JVal::Arr(Seq::<JVal>::empty()),
                        close + 1,
                    ));
                } else {
                    assert(s[p + 1] == t[1]);
                    lemma_space_chars_elems(s[p + 1]);
                    assert(s[p + 1] != ']');
                    lemma_skip_while_exact(s, p + 1, close, space_chars());
                    assert(sp_arr_items(s, p + 1, Seq::<JVal>::empty()) == PRes::POk(
                        JVal::Arr(Seq::<JVal>::empty()),
                        close + 1,
                    ));
                }
                assert(Seq::<JVal>::empty() =~= items);
            } else {
                lemma_arr_tail(items, ind, acc);
                let wr = ser_wrap(ind, acc);
                let at = arr_tail_text(items, ind, acc);
                let p0 = p + 1 + ws.len() + wr.len();
                assert(body =~= wr + at);
                assert forall|j: int|
                    p + 1 <= j < p0 implies space_chars().contains(#[trigger] s[j]) by {
                    assert(s[j] == t[j - p]);
                    assert(space_chars()[0] == ' ');
                    assert(space_chars()[2] == '\n');
                    if j - p - 1 < ws.len() {
                        assert(t[j - p] == ws[j - p - 1]);
                    } else {
                        assert(t[j - p] == body[j - p - 1 - ws.len()]);
                        assert(body[j - p - 1 - ws.len()] == wr[j - p - 1 - ws.len()]);
                        assert(wr[j - p - 1 - ws.len()] == ' ');
                    }
                }
                assert forall|m: int|
                    0 <= m < at.len() implies s.subrange(p0, p0 + at.len() as int)[m]
                    == #[trigger] at[m] by {
                    assert(s[p0 + m] == t[p0 + m - p]);
                    assert(t[p0 + m - p] == body[wr.len() + m]);
                    assert(body[wr.len() + m] == at[m]);
                }
                assert(s.subrange(p0, p0 + at.len() as int) =~= at);
                assert forall|j: int|
                    p0 + at.len() <= j < close implies space_chars().contains(#[trigger] s[j]) by {
                    assert(s[j] == t[j - p]);
                    assert(t[j - p] == we[j - p - 1 - ws.len() - r]);
                    assert(space_chars()[0] == ' ');
                    assert(space_chars()[2] == '\n');
                    if j - p - 1 - ws.len() - r >= 1 {
                        assert(we[j - p - 1 - ws.len() - r] == ' ');
                    }
                }
                lemma_parse_arr_items(items, Seq::<JVal>::empty(), s, p + 1, p0, close, ind, acc);
                assert(Seq::<JVal>::empty() + items =~= items);
            }
        },
        JVal::Obj(es) => {
            let body = sser_obj(es, ind, acc);
            let r = body.len() as int;
            let ws = ser_wrap_start(ind);
            let we = ser_wrap_end(ind, acc);
            assert(t =~= seq!['{'] + ws + body + we + seq!['}']);
            let close = p + l - 1;
            assert(s[close] == t[l - 1]);
            assert(s[close] == '}');
            assert(s[p] == '{');
            if es.len() == 0 {
                assert(r == 0);
                assert forall|j: int|
                    p + 1 <= j < close implies space_chars().contains(#[trigger] s[j]) by {
                    assert(s[j] == t[j - p]);
                    assert(space_chars()[0] == ' ');
                    assert(space_chars()[2] == '\n');
                    if j - p - 1 < ws.len() {
                        assert(t[j - p] == ws[j - p - 1]);
                    } else {
                        assert(t[j - p] == we[j - p - 1 - ws.len()]);
                        if j - p - 1 - ws.len() >= 1 {
                            assert(we[j - p - 1 - ws.len()] == ' ');
                        }
                    }
                }
                if p + 1 == close {
                    assert(sp_obj_items(s, p + 1, Seq::<(Seq<char>, JVal)>::empty()) == PRes::POk(
                        JVal::Obj(Seq::<(Seq<char>, JVal)>::empty()),
                        close + 1,
                    ));
                } else {
                    assert(s[p + 1] == t[1]);
                    lemma_space_chars_elems(s[p + 1]);
                    assert(s[p + 1] != '}');
                    lemma_skip_while_exact(s, p + 1, close, space_chars());
                    assert(sp_obj_items(s, p + 1, Seq::<(Seq<char>, JVal)>::empty()) == PRes::POk(
                        JVal::Obj(Seq::<(Seq<char>, JVal)>::empty()),
                        close + 1,
                    ));
                }
                assert(Seq::<(Seq<char>, JVal)>::empty() =~= es);
            } else {
                lemma_obj_tail(es, ind, acc);
                let wr = ser_wrap(ind, acc);
                let qt = obj_tail_text(es, ind, acc);
                let qoff = p + 1 + ws.len() + wr.len();
                assert(body =~= wr + qt);
                assert forall|j: int|
                    p + 1 <= j < qoff implies space_chars().contains(#[trigger] s[j]) by {
                    assert(s[j] == t[j - p]);
                    assert(space_chars()[0] == ' ');
                    assert(space_chars()[2] == '\n');
                    if j - p - 1 < ws.len() {
                        assert(t[j - p] == ws[j - p - 1]);
                    } else {
                        assert(t[j - p] == body[j - p - 1 - ws.len()]);
                        assert(body[j - p - 1 - ws.len()] == wr[j - p - 1 - ws.len()]);
                        assert(wr[j - p - 1 - ws.len()] == ' ');
                    }
                }
                assert forall|m: int|
                    0 <= m < qt.len() implies s.subrange(qoff, qoff + qt.len() as int)[m]
                    == #[trigger] qt[m] by {
                    assert(s[qoff + m] == t[qoff + m - p]);
                    assert(t[qoff + m - p] == body[wr.len() + m]);
                    assert(body[wr.len() + m] == qt[m]);
                }
                assert(s.subrange(qoff, qoff + qt.len() as int) =~= qt);
                lemma_obj_tail_layout(es, ind, acc);
                assert(s[qoff] == qt[0]);
                assert(s[qoff] == '"');
                assert forall|j: int|
                    qoff + qt.len() <= j < close implies space_chars().contains(#[trigger] s[j])
                    by {
                    assert(s[j] == t[j - p]);
                    assert(t[j - p] == we[j - p - 1 - ws.len() - r]);
                    assert(space_chars()[0] == ' ');
                    assert(space_chars()[2] == '\n');
                    if j - p - 1 - ws.len() - r >= 1 {
                        assert(we[j - p - 1 - ws.len() - r] == ' ');
                    }
                }
                assert(Seq::<(Seq<char>, JVal)>::empty() + es =~= es);
                lemma_parse_obj_items(
                    es,
                    Seq::<(Seq<char>, JVal)>::empty(),
                    s,
                    p + 1,
                    qoff,
                    close,
                    ind,
                    acc,
                );
            }
        },
    }
}

/// Parsing replays the rest of an array body: each remaining element's
/// text, the separators and indentation between them, then whitespace up to
/// the closing bracket at `close`.
#[verifier::rlimit(100)]
#[verifier::spinoff_prover]
pub proof fn lemma_parse_arr_items(
    rest: Seq<JVal>,
    acce: Seq<JVal>,
    s: Seq<char>,
    i: int,
    p: int,
    close: int,
    ind: int,
    acc: int,
)
    requires
        wf_arr(rest),
        rt_arr(rest),
        ind >= 0,
        acc >= 0,
        0 <= i,
        close < s.len(),
        rest.len() == 0 ==> i <= close && (forall|j: int|
            i <= j < close ==> space_chars().contains(#[trigger] s[j])) && s[close] == ']',
        rest.len() > 0 ==> {
            let at = arr_tail_text(rest, ind, acc);
            &&& i <= p
            &&& (forall|j: int| i <= j < p ==> space_chars().contains(#[trigger] s[j]))
            &&& p + at.len() <= close
            &&& s.subrange(p, p + at.len() as int) == at
            &&& (forall|j: int|
                p + at.len() <= j < close ==> space_chars().contains(#[trigger] s[j]))
            &&& s[close] == ']'
        },
    ensures
        sp_arr_items(s, i, acce) == PRes::POk(JVal::Arr(acce + rest), close + 1),
    decreases rest, 1int,
{
    if rest.len() == 0 {
        if i == close {
            assert(s[i] == ']');
        } else {
            lemma_space_chars_elems(s[i]);
            assert(s[i] != ']');
            lemma_skip_while_exact(s, i, close, space_chars());
        }
        assert(acce + rest =~= acce);
    } else {
        let at = arr_tail_text(rest, ind, acc);
        let r = at.len() as int;
        assert forall|j: int| p <= j < p + r implies #[trigger] s[j] == at[j - p] by {
            assert(s.subrange(p, p + r)[j - p] == at[j - p]);
        }
        lemma_arr_tail_layout(rest, ind, acc);
        let v0 = rest[0];
        let t0 = sser(v0, ind, acc + ind);
        let l0 = t0.len() as int;
        lemma_sser_first(v0, ind, acc + ind);
        assert(s[p] == at[0]);
        assert(s[p] == t0[0]);
        if i < p {
            lemma_space_chars_elems(s[i]);
        }
        assert(s[i] != ']');
        lemma_skip_while_exact(s, i, p, space_chars());
        assert forall|m: int| 0 <= m < l0 implies s.subrange(p, p + l0)[m] == #[trigger] t0[m] by {
            assert(s[p + m] == at[m]);
        }
        assert(s.subrange(p, p + l0) =~= t0);
        let e = p + l0;
        let rest1 = rest.subrange(1, rest.len() as int);
        if rest.len() == 1 {
            assert(r == l0);
            // everything up to the bracket is whitespace
            if e < close {
                lemma_space_chars_elems(s[e]);
            }
            assert(e == s.len() || !is_num_char(s[e])) by {
                if e < s.len() {
                    if e == close {
                        assert(s[e] == ']');
                    } else {
                        lemma_space_chars_elems(s[e]);
                    }
                }
            }
            lemma_parse_sser(v0, s, p, p, ind, acc + ind);
            lemma_skip_while_exact(s, e, close, space_chars());
            assert forall|j: int| e <= j < close implies arr_debris().contains(#[trigger] s[j]) by {
                lemma_space_chars_elems(s[j]);
                lemma_arr_debris_elems(s[j]);
            }
            lemma_arr_debris_elems(s[close]);
            lemma_skip_while_exact(s, e, close, arr_debris());
            lemma_skip_while_exact(s, close, close, arr_debris());
            let j = tail_end(v0, s, e);
            assert(j == e || j == close);
            assert(spec_skip_while(s, j, arr_debris()) == close);
            lemma_parse_arr_items(rest1, acce.push(v0), s, close, close, close, ind, acc);
            assert(acce.push(v0) + rest1 =~= acce + rest);
        } else {
            let at1 = arr_tail_text(rest1, ind, acc);
            let r1 = at1.len() as int;
            let o1 = l0 + ser_sep(ind).len() + ser_wrap(ind, acc).len();
            let p1 = p + o1;
            assert(s[e] == at[l0]);
            assert(s[e] == ',');
            assert(!is_num_char(s[e]));
            lemma_parse_sser(v0, s, p, p, ind, acc + ind);
            let j = tail_end(v0, s, e);
            assert(spec_skip_while(s, e, space_chars()) == e) by {
                lemma_space_chars_elems(s[e]);
                lemma_skip_while_exact(s, e, e, space_chars());
            }
            assert(j == e);
            // the separator region is debris; the next element's first
            // character is not
            lemma_arr_tail_layout(rest1, ind, acc);
            assert(rt_arr(rest1) && wf_arr(rest1));
            lemma_sser_first(rest1[0], ind, acc + ind);
            assert(s[p1] == at[o1]);
            assert(at[o1] == at1[0]);
            assert(at1[0] == sser(rest1[0], ind, acc + ind)[0]);
            lemma_arr_debris_elems(s[p1]);
            assert(!arr_debris().contains(s[p1]));
            assert forall|x: int| e <= x < p1 implies arr_debris().contains(#[trigger] s[x]) by {
                assert(s[x] == at[x - p]);
                lemma_arr_debris_elems(s[x]);
                if x > e {
                    lemma_space_chars_elems(at[x - p]);
                }
            }
            lemma_skip_while_exact(s, e, p1, arr_debris());
            assert forall|m: int|
                0 <= m < r1 implies s.subrange(p1, p1 + r1)[m] == #[trigger] at1[m] by {
                assert(s[p1 + m] == at[o1 + m]);
                assert(at[o1 + m] == at1[m]);
            }
            assert(s.subrange(p1, p1 + r1) =~= at1);
            lemma_parse_arr_items(rest1, acce.push(v0), s, p1, p1, close, ind, acc);
            assert(acce.push(v0) + rest1 =~= acce + rest);
        }
    }
}

/// One object member's header and value text, as the scanner reads them:
/// the whitespace skip and the quote skip land on the key, the key runs to
/// its unescaped closing quote, the colon follows at once, and the value's
/// text sits after the gap.
#[verifier::rlimit(100)]
#[verifier::spinoff_prover]
pub proof fn lemma_obj_member_header(
    rest: Seq<(Seq<char>, JVal)>,
    s: Seq<char>,
    i: int,
    qoff: int,
    ind: int,
    acc: int,
)
    requires
        rest.len() > 0,
        rt_obj(rest),
        ind >= 0,
        acc >= 0,
        0 <= i,
        0 <= qoff,
        i == qoff + 1 || (i <= qoff && (forall|j: int|
            i <= j < qoff ==> space_chars().contains(#[trigger] s[j]))),
        qoff + obj_tail_text(rest, ind, acc).len() <= s.len(),
        s.subrange(qoff, qoff + obj_tail_text(rest, ind, acc).len() as int) == obj_tail_text(
            rest,
            ind,
            acc,
        ),
    ensures
        ({
            let k = rest[0].0;
            let kl = k.len() as int;
            let g = ser_gap(ind).len() as int;
            let t0 = sser(rest[0].1, ind, acc + ind);
            let a = if i == qoff + 1 {
                i
            } else {
                qoff
            };
            &&& i < s.len()
            &&& s[i] != '}'
            &&& spec_skip_while(s, i, space_chars()) == a
            &&& s[a] != '}'
            &&& spec_skip_while(s, a, seq!['"']) == qoff + 1
            &&& string_close(s, qoff + 1) == qoff + 1 + kl
            &&& s.subrange(qoff + 1, qoff + 1 + kl) == k
            &&& spec_skip_until(s, qoff + 2 + kl, seq![':']) == qoff + 2 + kl
            &&& qoff + 2 + kl < s.len()
            &&& (forall|j: int|
                qoff + 3 + kl <= j < qoff + 3 + kl + g ==> space_chars().contains(
                    #[trigger] s[j],
                ))
            &&& s.subrange(qoff + 3 + kl + g, qoff + 3 + kl + g + t0.len() as int) == t0
        }),
{
    let qt = obj_tail_text(rest, ind, acc);
    let r = qt.len() as int;
    assert forall|j: int| qoff <= j < qoff + r implies #[trigger] s[j] == qt[j - qoff] by {
        assert(s.subrange(qoff, qoff + r)[j - qoff] == qt[j - qoff]);
    }
    lemma_obj_tail_layout(rest, ind, acc);
    let k = rest[0].0;
    let kl = k.len() as int;
    let g = ser_gap(ind).len() as int;
    let t0 = sser(rest[0].1, ind, acc + ind);
    let l0 = t0.len() as int;
    assert(key_safe(k));
    assert(s[qoff] == qt[0]);
    assert(s[qoff] == '"');
    assert(s[qoff + 1] == qt[1]);
    assert(s[qoff + 1] == k[0]);
    lemma_obj_debris_elems(k[0]);
    if k[0] == '"' {
        assert(backslash_run(k, 0) == 0);
    }
    assert(k[0] != '"' && k[0] != '}' && k[0] != ' ' && k[0] != '\r' && k[0] != '\n');
    if i == qoff + 1 {
        assert(s[i] == k[0]);
    } else if i < qoff {
        lemma_space_chars_elems(s[i]);
    }
    assert(s[i] != '}');
    lemma_space_chars_elems(s[i]);
    crate::utils::lemma_singleton_contains('"', s[qoff + 1]);
    if i == qoff + 1 {
        lemma_skip_while_exact(s, i, i, space_chars());
        lemma_skip_while_exact(s, qoff + 1, qoff + 1, seq!['"']);
    } else {
        lemma_skip_while_exact(s, i, qoff, space_chars());
        crate::utils::lemma_singleton_contains('"', s[qoff]);
        lemma_skip_while_exact(s, qoff, qoff + 1, seq!['"']);
    }
    let k0 = qoff + 1;
    let ke = k0 + kl;
    assert forall|m: int| 0 <= m < kl implies s.subrange(k0, k0 + kl)[m] == #[trigger] k[m] by {
        assert(s[k0 + m] == qt[1 + m]);
    }
    assert(s.subrange(k0, k0 + kl) =~= k);
    assert forall|j: int| k0 <= j < ke implies !spec_valid_ending_quote(s, j) by {
        let jj = j - k0;
        lemma_backslash_run_embed(s, k, k0, jj);
        assert(s[j] == qt[1 + jj]);
        assert(qt[1 + jj] == k[jj]);
    }
    lemma_backslash_run_embed(s, k, k0, kl);
    assert(s[ke] == qt[1 + kl]);
    assert(spec_valid_ending_quote(s, ke));
    lemma_string_close_exact(s, k0, ke);
    assert(s[ke + 1] == qt[2 + kl]);
    crate::utils::lemma_singleton_contains(':', s[ke + 1]);
    crate::utils::lemma_skip_until_exact(s, ke + 1, ke + 1, seq![':']);
    assert forall|j: int|
        qoff + 3 + kl <= j < qoff + 3 + kl + g implies space_chars().contains(#[trigger] s[j]) by {
        assert(s[j] == qt[3 + kl + (j - qoff - 3 - kl)]);
        assert(qt[3 + kl + (j - qoff - 3 - kl)] == ' ');
        assert(space_chars()[0] == ' ');
    }
    let pv = qoff + 3 + kl + g;
    assert forall|m: int| 0 <= m < l0 implies s.subrange(pv, pv + l0)[m] == #[trigger] t0[m] by {
        assert(s[pv + m] == qt[3 + kl + g + m]);
    }
    assert(s.subrange(pv, pv + l0) =~= t0);
}

/// Parsing replays the rest of an object body.  `qoff` is the position of
/// the opening quote of the next member's key; the member scan stands on or
/// before that quote (with only whitespace between), or just past it, after
/// the separator skip consumed it.
#[verifier::rlimit(100)]
#[verifier::spinoff_prover]
pub proof fn lemma_parse_obj_items(
    rest: Seq<(Seq<char>, JVal)>,
    acce: Seq<(Seq<char>, JVal)>,
    s: Seq<char>,
    i: int,
    qoff: int,
    close: int,
    ind: int,
    acc: int,
)
    requires
        wf_obj(rest),
        rt_obj(rest),
        unique_keys(acce + rest),
        ind >= 0,
        acc >= 0,
        0 <= i,
        close < s.len(),
        rest.len() == 0 ==> i <= close && (forall|j: int|
            i <= j < close ==> space_chars().contains(#[trigger] s[j])) && s[close] == '}',
        rest.len() > 0 ==> {
            let qt = obj_tail_text(rest, ind, acc);
            &&& 0 <= qoff
            &&& (i == qoff + 1 || (i <= qoff && (forall|j: int|
                i <= j < qoff ==> space_chars().contains(#[trigger] s[j]))))
            &&& qoff + qt.len() <= close
            &&& s.subrange(qoff, qoff + qt.len() as int) == qt
            &&& (forall|j: int|
                qoff + qt.len() <= j < close ==> space_chars().contains(#[trigger] s[j]))
            &&& s[close] == '}'
        },
    ensures
        sp_obj_items(s, i, acce) == PRes::POk(JVal::Obj(acce + rest), close + 1),
    decreases rest, 2int,
{
    if rest.len() == 0 {
        if i == close {
            assert(s[i] == '}');
        } else {
            lemma_space_chars_elems(s[i]);
            assert(s[i] != '}');
            lemma_skip_while_exact(s, i, close, space_chars());
        }
        assert(acce + rest =~= acce);
    } else if rest.len() == 1 {
        lemma_parse_obj_last(rest, acce, s, i, qoff, close, ind, acc);
    } else {
        lemma_parse_obj_step(rest, acce, s, i, qoff, close, ind, acc);
    }
}

/// The member at the end of an object body: after it only whitespace and
/// the closing brace remain.
#[verifier::rlimit(100)]
#[verifier::spinoff_prover]
proof fn lemma_parse_obj_last(
    rest: Seq<(Seq<char>, JVal)>,
    acce: Seq<(Seq<char>, JVal)>,
    s: Seq<char>,
    i: int,
    qoff: int,
    close: int,
    ind: int,
    acc: int,
)
    requires
        rest.len() == 1,
        wf_obj(rest),
        rt_obj(rest),
        unique_keys(acce + rest),
        ind >= 0,
        acc >= 0,
        0 <= i,
        close < s.len(),
        ({
            let qt = obj_tail_text(rest, ind, acc);
            &&& 0 <= qoff
            &&& (i == qoff + 1 || (i <= qoff && (forall|j: int|
                i <= j < qoff ==> space_chars().contains(#[trigger] s[j]))))
            &&& qoff + qt.len() <= close
            &&& s.subrange(qoff, qoff + qt.len() as int) == qt
            &&& (forall|j: int|
                qoff + qt.len() <= j < close ==> space_chars().contains(#[trigger] s[j]))
            &&& s[close] == '}'
        }),
    ensures
        sp_obj_items(s, i, acce) == PRes::POk(JVal::Obj(acce + rest), close + 1),
    decreases rest, 1int,
{
    let qt = obj_tail_text(rest, ind, acc);
    let r = qt.len() as int;
    lemma_obj_tail_layout(rest, ind, acc);
    lemma_obj_member_header(rest, s, i, qoff, ind, acc);
    let k = rest[0].0;
    let kl = k.len() as int;
    let g = ser_gap(ind).len() as int;
    let v0 = rest[0].1;
    let t0 = sser(v0, ind, acc + ind);
    let l0 = t0.len() as int;
    let pv = qoff + 3 + kl + g;
    let e = pv + l0;
    assert(r == 3 + kl + g + l0);
    assert(e == qoff + r);
    let acc2 = obj_insert(acce, k, v0);
    lemma_obj_insert_fresh(rest, acce, k, v0);
    let rest1 = rest.subrange(1, rest.len() as int);
    assert(acc2 + rest1 =~= acce + rest);
    assert(e == s.len() || !is_num_char(s[e])) by {
        if e < s.len() {
            if e == close {
                assert(s[e] == '}');
            } else {
                lemma_space_chars_elems(s[e]);
            }
        }
    }
    lemma_parse_sser(v0, s, pv - g, pv, ind, acc + ind);
    lemma_skip_while_exact(s, e, close, space_chars());
    assert forall|j: int| e <= j < close implies obj_debris().contains(#[trigger] s[j]) by {
        lemma_space_chars_elems(s[j]);
        lemma_obj_debris_elems(s[j]);
    }
    lemma_obj_debris_elems(s[close]);
    lemma_skip_while_exact(s, e, close, obj_debris());
    lemma_skip_while_exact(s, close, close, obj_debris());
    let j = tail_end(v0, s, e);
    assert(j == e || j == close);
    assert(spec_skip_while(s, j, obj_debris()) == close);
    assert(rest1.len() == 0);
    lemma_parse_obj_items(rest1, acc2, s, close, close, close, ind, acc);
}

/// After a member that is not the last: the comma, the line break, the
/// indentation and the next opening quote are all separator debris, and the
/// skip over them stops on the next member's key.
#[verifier::rlimit(100)]
#[verifier::spinoff_prover]
proof fn lemma_obj_step_sep(
    rest: Seq<(Seq<char>, JVal)>,
    s: Seq<char>,
    qoff: int,
    ind: int,
    acc: int,
)
    requires
        rest.len() > 1,
        rt_obj(rest),
        ind >= 0,
        acc >= 0,
        0 <= qoff,
        qoff + obj_tail_text(rest, ind, acc).len() <= s.len(),
        s.subrange(qoff, qoff + obj_tail_text(rest, ind, acc).len() as int) == obj_tail_text(
            rest,
            ind,
            acc,
        ),
    ensures
        ({
            let kl = rest[0].0.len() as int;
            let g = ser_gap(ind).len() as int;
            let l0 = sser(rest[0].1, ind, acc + ind).len() as int;
            let e = qoff + 3 + kl + g + l0;
            let qoff1 = e + ser_sep(ind).len() + ser_wrap(ind, acc).len();
            let qt1 = obj_tail_text(rest.subrange(1, rest.len() as int), ind, acc);
            &&& s[e] == ','
            &&& spec_skip_while(s, e, obj_debris()) == qoff1 + 1
            &&& s.subrange(qoff1, qoff1 + qt1.len() as int) == qt1
            &&& qoff1 + qt1.len() == qoff + obj_tail_text(rest, ind, acc).len()
        }),
{
    let qt = obj_tail_text(rest, ind, acc);
    let r = qt.len() as int;
    assert forall|j: int| qoff <= j < qoff + r implies #[trigger] s[j] == qt[j - qoff] by {
        assert(s.subrange(qoff, qoff + r)[j - qoff] == qt[j - qoff]);
    }
    lemma_obj_tail_layout(rest, ind, acc);
    let kl = rest[0].0.len() as int;
    let g = ser_gap(ind).len() as int;
    let l0 = sser(rest[0].1, ind, acc + ind).len() as int;
    let e = qoff + 3 + kl + g + l0;
    let o1 = 3 + kl + g + l0 + ser_sep(ind).len() + ser_wrap(ind, acc).len();
    let qoff1 = qoff + o1;
    let rest1 = rest.subrange(1, rest.len() as int);
    let qt1 = obj_tail_text(rest1, ind, acc);
    let r1 = qt1.len() as int;
    assert(s[e] == qt[3 + kl + g + l0]);
    assert(s[e] == ',');
    lemma_obj_tail_layout(rest1, ind, acc);
    assert(rt_obj(rest1));
    assert(key_safe(rest1[0].0));
    assert(s[qoff1] == qt[o1]);
    assert(qt[o1] == qt1[0]);
    assert(qt1[0] == '"');
    assert(s[qoff1 + 1] == qt[o1 + 1]);
    assert(qt[o1 + 1] == qt1[1]);
    assert(qt1[1] == rest1[0].0[0]);
    lemma_obj_debris_elems(s[qoff1 + 1]);
    lemma_obj_debris_elems(rest1[0].0[0]);
    assert(!obj_debris().contains(s[qoff1 + 1]));
    assert forall|x: int| e <= x <= qoff1 implies obj_debris().contains(#[trigger] s[x]) by {
        assert(s[x] == qt[x - qoff]);
        lemma_obj_debris_elems(s[x]);
        if x > e && x < qoff1 {
            lemma_space_chars_elems(qt[x - qoff]);
        }
    }
    lemma_skip_while_exact(s, e, qoff1 + 1, obj_debris());
    assert forall|m: int| 0 <= m < r1 implies s.subrange(qoff1, qoff1 + r1)[m] == #[trigger] qt1[m]
        by {
        assert(s[qoff1 + m] == qt[o1 + m]);
        assert(qt[o1 + m] == qt1[m]);
    }
    assert(s.subrange(qoff1, qoff1 + r1) =~= qt1);
}

/// A member with further members after it: its value parses, the separator
/// skip lands on the next key, and the remaining members follow.
#[verifier::rlimit(100)]
#[verifier::spinoff_prover]
proof fn lemma_parse_obj_step(
    rest: Seq<(Seq<char>, JVal)>,
    acce: Seq<(Seq<char>, JVal)>,
    s: Seq<char>,
    i: int,
    qoff: int,
    close: int,
    ind: int,
    acc: int,
)
    requires
        rest.len() > 1,
        wf_obj(rest),
        rt_obj(rest),
        unique_keys(acce + rest),
        ind >= 0,
        acc >= 0,
        0 <= i,
        close < s.len(),
        ({
            let qt = obj_tail_text(rest, ind, acc);
            &&& 0 <= qoff
            &&& (i == qoff + 1 || (i <= qoff && (forall|j: int|
                i <= j < qoff ==> space_chars().contains(#[trigger] s[j]))))
            &&& qoff + qt.len() <= close
            &&& s.subrange(qoff, qoff + qt.len() as int) == qt
            &&& (forall|j: int|
                qoff + qt.len() <= j < close ==> space_chars().contains(#[trigger] s[j]))
            &&& s[close] == '}'
        }),
    ensures
        sp_obj_items(s, i, acce) == PRes::POk(JVal::Obj(acce + rest), close + 1),
    decreases rest, 1int,
{
    lemma_obj_member_header(rest, s, i, qoff, ind, acc);
    lemma_obj_step_sep(rest, s, qoff, ind, acc);
    let k = rest[0].0;
    let kl = k.len() as int;
    let g = ser_gap(ind).len() as int;
    let v0 = rest[0].1;
    let t0 = sser(v0, ind, acc + ind);
    let l0 = t0.len() as int;
    let pv = qoff + 3 + kl + g;
    let e = pv + l0;
    let qoff1 = e + ser_sep(ind).len() + ser_wrap(ind, acc).len();
    let acc2 = obj_insert(acce, k, v0);
    lemma_obj_insert_fresh(rest, acce, k, v0);
    let rest1 = rest.subrange(1, rest.len() as int);
    assert(acc2 + rest1 =~= acce + rest);
    assert(!is_num_char(s[e]));
    lemma_parse_sser(v0, s, pv - g, pv, ind, acc + ind);
    let j = tail_end(v0, s, e);
    assert(spec_skip_while(s, e, space_chars()) == e) by {
        lemma_space_chars_elems(s[e]);
        lemma_skip_while_exact(s, e, e, space_chars());
    }
    assert(j == e);
    lemma_parse_obj_items(rest1, acc2, s, qoff1 + 1, qoff1, close, ind, acc);
}

/// Appending a member whose key is fresh for the accumulator: the insert is
/// a push, and uniqueness of the combined keys is kept.
proof fn lemma_obj_insert_fresh(
    rest: Seq<(Seq<char>, JVal)>,
    acce: Seq<(Seq<char>, JVal)>,
    k: Seq<char>,
    v0: JVal,
)
    requires
        rest.len() > 0,
        (k, v0) == rest[0],
        unique_keys(acce + rest),
    ensures
        obj_insert(acce, k, v0) == acce.push(rest[0]),
        obj_insert(acce, k, v0) + rest.subrange(1, rest.len() as int) == acce + rest,
        unique_keys(obj_insert(acce, k, v0) + rest.subrange(1, rest.len() as int)),
{
    assert(forall|m: int| 0 <= m < acce.len() ==> (acce + rest)[m] == #[trigger] acce[m]);
    assert((acce + rest)[acce.len() as int] == rest[0]);
    assert forall|m: int| 0 <= m < acce.len() implies #[trigger] acce[m].0 != k by {
        assert((acce + rest)[m].0 != (acce + rest)[acce.len() as int].0);
    }
    crate::value::lemma_obj_insert_absent(acce, k, v0);
    let acc2 = obj_insert(acce, k, v0);
    let rest1 = rest.subrange(1, rest.len() as int);
    assert(acc2 + rest1 =~= acce + rest);
    assert forall|m: int, n: int|
        0 <= m < n < (acc2 + rest1).len() implies (acc2 + rest1)[m].0 != (acc2 + rest1)[n].0 by {
        assert((acc2 + rest1)[m] == (acce + rest)[m]);
        assert((acc2 + rest1)[n] == (acce + rest)[n]);
    }
}

/// The compact round trip: parsing the compact serialization of a
/// well-formed, round-trip-safe value yields that very value, consuming the
/// whole text.
pub proof fn lemma_compact_round_trip(v: JVal)
    requires
        wf(v),
        round_trip_safe(v),
    ensures
        crate::parser::spec_parse(sser(v, 0, 0)) == PRes::POk(v, sser(v, 0, 0).len() as int),
{
    let s = sser(v, 0, 0);
    assert(s.subrange(0, s.len() as int) =~= s);
    lemma_parse_sser(v, s, 0, 0, 0, 0);
    assert(tail_end(v, s, s.len() as int) == s.len());
}

/// The pretty round trip: parsing a serialization with any indentation
/// width yields the serialized value, consuming the whole text.
pub proof fn lemma_pretty_round_trip(v: JVal, ind: int)
    requires
        wf(v),
        round_trip_safe(v),
        ind >= 0,
    ensures
        crate::parser::spec_parse(sser(v, ind, ind)) == PRes::POk(v, sser(v, ind, ind).len() as int),
{
    let s = sser(v, ind, ind);
    assert(s.subrange(0, s.len() as int) =~= s);
    lemma_parse_sser(v, s, 0, 0, ind, ind);
    assert(tail_end(v, s, s.len() as int) == s.len());
}

} // verus!
