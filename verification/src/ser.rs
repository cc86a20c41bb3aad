use vstd::prelude::*;

use crate::text::chars_to_string;
use crate::utils::append_chars;
use crate::text::str_to_chars;
use crate::value::JVal;
use crate::value::JsonType;
use crate::value::jarr_of;
use crate::value::jval_of;
use crate::value::lemma_jarr_of;

verus! {

/// `n` spaces (none for a non-positive count).
pub open spec fn spaces(n: int) -> Seq<char> {
    if n < 0 {
        Seq::empty()
    } else {
        Seq::new(n as nat, |i: int| ' ')
    }
}

/// The indentation put before an entry: `acc` spaces in pretty mode, nothing
/// in compact mode.
pub open spec fn ser_wrap(ind: int, acc: int) -> Seq<char> {
    if ind > 0 {
        spaces(acc)
    } else {
        Seq::empty()
    }
}

/// The line break after an opening brace in pretty mode.
pub open spec fn ser_wrap_start(ind: int) -> Seq<char> {
    if ind > 0 {
        seq!['\n']
    } else {
        Seq::empty()
    }
}

/// The line break plus dedent before a closing brace in pretty mode.
pub open spec fn ser_wrap_end(ind: int, acc: int) -> Seq<char> {
    if ind > 0 {
        seq!['\n'] + spaces(acc - ind)
    } else {
        Seq::empty()
    }
}

/// The space between a key's colon and its value in pretty mode.
pub open spec fn ser_gap(ind: int) -> Seq<char> {
    if ind > 0 {
        seq![' ']
    } else {
        Seq::empty()
    }
}

/// The separator between entries: a comma, plus a line break in pretty mode.
pub open spec fn ser_sep(ind: int) -> Seq<char> {
    seq![','] + ser_wrap_start(ind)
}

/// The serialized text of a value, with indentation width `ind` and
/// accumulated indentation `acc` (compact when `ind == 0`).
pub open spec fn sser(v: JVal, ind: int, acc: int) -> Seq<char>
    decreases v, 0int,
{
    match v {
        JVal::Null => seq!['n', 'u', 'l', 'l'],
        JVal::Bool(b) => if b {
            seq!['t', 'r', 'u', 'e']
        } else {
            seq!['f', 'a', 'l', 's', 'e']
        },
        JVal::Num(t) => t,
        JVal::Str(t) => seq!['"'] + t + seq!['"'],
        JVal::Arr(items) => seq!['['] + ser_wrap_start(ind) + sser_arr(items, ind, acc)
            + ser_wrap_end(ind, acc) + seq![']'],
        JVal::Obj(es) => seq!['{'] + ser_wrap_start(ind) + sser_obj(es, ind, acc) + ser_wrap_end(
            ind,
            acc,
        ) + seq!['}'],
    }
}

/// One array element: its indentation and its serialized text one level in.
pub open spec fn sser_arr_item(v: JVal, ind: int, acc: int) -> Seq<char>
    decreases v, 1int,
{
    ser_wrap(ind, acc) + sser(v, ind, acc + ind)
}

/// The elements of an array joined by the separator.
pub open spec fn sser_arr(items: Seq<JVal>, ind: int, acc: int) -> Seq<char>
    decreases items, 2int,
{
    if items.len() == 0 {
        Seq::empty()
    } else if items.len() == 1 {
        sser_arr_item(items[0], ind, acc)
    } else {
        sser_arr(items.subrange(0, items.len() - 1), ind, acc) + ser_sep(ind) + sser_arr_item(
            items[items.len() - 1],
            ind,
            acc,
        )
    }
}

/// One object member: indentation, the quoted key, the colon and the value.
pub open spec fn sser_obj_item(k: Seq<char>, v: JVal, ind: int, acc: int) -> Seq<char>
    decreases v, 1int,
{
    ser_wrap(ind, acc) + seq!['"'] + k + seq!['"', ':'] + ser_gap(ind) + sser(v, ind, acc + ind)
}

/// The members of an object joined by the separator, in entry order.
pub open spec fn sser_obj(es: Seq<(Seq<char>, JVal)>, ind: int, acc: int) -> Seq<char>
    decreases es, 2int,
{
    if es.len() == 0 {
        Seq::empty()
    } else if es.len() == 1 {
        sser_obj_item(es[0].0, es[0].1, ind, acc)
    } else {
        sser_obj(es.subrange(0, es.len() - 1), ind, acc) + ser_sep(ind) + sser_obj_item(
            es[es.len() - 1].0,
            es[es.len() - 1].1,
            ind,
            acc,
        )
    }
}

/// The accumulated indentation stays within `u32` down the whole tree.
pub open spec fn ser_fits(v: JVal, ind: int, acc: int) -> bool
    decreases v, 0int,
{
    match v {
        JVal::Arr(items) => acc + ind <= u32::MAX && fits_arr(items, ind, acc + ind),
        JVal::Obj(es) => acc + ind <= u32::MAX && fits_obj(es, ind, acc + ind),
        _ => true,
    }
}

pub open spec fn fits_arr(items: Seq<JVal>, ind: int, acc: int) -> bool
    decreases items, 1int,
{
    if items.len() == 0 {
        true
    } else {
        ser_fits(items[0], ind, acc) && fits_arr(items.subrange(1, items.len() as int), ind, acc)
    }
}

pub open spec fn fits_obj(es: Seq<(Seq<char>, JVal)>, ind: int, acc: int) -> bool
    decreases es, 1int,
{
    if es.len() == 0 {
        true
    } else {
        ser_fits(es[0].1, ind, acc) && fits_obj(es.subrange(1, es.len() as int), ind, acc)
    }
}

/// `fits_arr` element by element.
pub proof fn lemma_fits_arr_index(items: Seq<JVal>, ind: int, acc: int)
    ensures
        fits_arr(items, ind, acc) <==> (forall|i: int|
            0 <= i < items.len() ==> ser_fits(#[trigger] items[i], ind, acc)),
    decreases items.len(),
{
    if items.len() > 0 {
        let e1 = items.subrange(1, items.len() as int);
        assert(forall|j: int| 0 <= j < e1.len() ==> e1[j] == items[j + 1]);
        lemma_fits_arr_index(e1, ind, acc);
        if fits_arr(items, ind, acc) {
            assert forall|i: int|
                0 <= i < items.len() implies ser_fits(#[trigger] items[i], ind, acc) by {
                if i > 0 {
                    assert(ser_fits(e1[i - 1], ind, acc));
                }
            }
        }
        if forall|i: int| 0 <= i < items.len() ==> ser_fits(#[trigger] items[i], ind, acc) {
            assert(forall|j: int| 0 <= j < e1.len() ==> ser_fits(#[trigger] e1[j], ind, acc));
        }
    }
}

/// `fits_obj` entry by entry.
pub proof fn lemma_fits_obj_index(es: Seq<(Seq<char>, JVal)>, ind: int, acc: int)
    ensures
        fits_obj(es, ind, acc) <==> (forall|i: int|
            0 <= i < es.len() ==> ser_fits(#[trigger] es[i].1, ind, acc)),
    decreases es.len(),
{
    if es.len() > 0 {
        let e1 = es.subrange(1, es.len() as int);
        assert(forall|j: int| 0 <= j < e1.len() ==> e1[j] == es[j + 1]);
        lemma_fits_obj_index(e1, ind, acc);
        if fits_obj(es, ind, acc) {
            assert forall|i: int| 0 <= i < es.len() implies ser_fits(#[trigger] es[i].1, ind, acc) by {
                if i > 0 {
                    assert(ser_fits(e1[i - 1].1, ind, acc));
                }
            }
        }
        if forall|i: int| 0 <= i < es.len() ==> ser_fits(#[trigger] es[i].1, ind, acc) {
            assert(forall|j: int| 0 <= j < e1.len() ==> ser_fits(#[trigger] e1[j].1, ind, acc));
        }
    }
}

/// Appends `n` spaces.
fn push_spaces(out: &mut Vec<char>, n: u32)
    ensures
        final(out)@ == old(out)@ + spaces(n as int),
{
    let mut i: u32 = 0;
    while i < n
        invariant
            i <= n,
            out@ == old(out)@ + spaces(i as int),
        decreases n - i,
    {
        out.push(' ');
        proof {
            assert(out@ =~= old(out)@ + spaces(i + 1));
        }
        i += 1;
    }
}

/// Serializes one value into `out`.
#[verifier::rlimit(100)]
#[verifier::spinoff_prover]
fn ser_val(v: &JsonType, ind: u32, acc: u32, out: &mut Vec<char>)
    requires
        ind > 0 ==> acc >= ind,
        ser_fits(v@, ind as int, acc as int),
    ensures
        final(out)@ == old(out)@ + sser(v@, ind as int, acc as int),
    decreases v,
{
    match v {
        JsonType::Null => {
            out.push('n');
            out.push('u');
            out.push('l');
            out.push('l');
            proof {
                assert(out@ =~= old(out)@ + sser(v@, ind as int, acc as int));
            }
        },
        JsonType::Bool(b) => {
            if *b {
                out.push('t');
                out.push('r');
                out.push('u');
                out.push('e');
            } else {
                out.push('f');
                out.push('a');
                out.push('l');
                out.push('s');
                out.push('e');
            }
            proof {
                assert(out@ =~= old(out)@ + sser(v@, ind as int, acc as int));
            }
        },
        JsonType::Number(t) => {
            let tc = str_to_chars(t.as_str());
            append_chars(out, &tc);
        },
        JsonType::String(s) => {
            out.push('"');
            let sc = str_to_chars(s.as_str());
            append_chars(out, &sc);
            out.push('"');
            proof {
                assert(out@ =~= old(out)@ + sser(v@, ind as int, acc as int));
            }
        },
        JsonType::Array(x) => {
            proof {
                lemma_jarr_of(x@);
                lemma_fits_arr_index(jarr_of(x@), ind as int, acc as int + ind as int);
            }
            let acc2 = if ind == 0 {
                acc
            } else {
                acc + ind
            };
            out.push('[');
            if ind > 0 {
                out.push('\n');
            }
            let ghost base = old(out)@;
            let ghost model = jarr_of(x@);
            proof {
                assert(out@ =~= base + seq!['['] + ser_wrap_start(ind as int) + sser_arr(
                    model.subrange(0, 0),
                    ind as int,
                    acc as int,
                ));
            }
            let mut k: usize = 0;
            while k < x.len()
                invariant
                    (*v == JsonType::Array(*x)),
                    ind > 0 ==> acc >= ind,
                    acc2 == acc + ind || (ind == 0 && acc2 == acc),
                    acc2 <= u32::MAX,
                    model == jarr_of(x@),
                    model.len() == x@.len(),
                    forall|j: int| 0 <= j < x@.len() ==> model[j] == jval_of(x@[j]),
                    forall|j: int|
                        0 <= j < model.len() ==> ser_fits(#[trigger] model[j], ind as int, acc as int + ind as int),
                    k <= x@.len(),
                    out@ == base + seq!['['] + ser_wrap_start(ind as int) + sser_arr(
                        model.subrange(0, k as int),
                        ind as int,
                        acc as int,
                    ),
                decreases x@.len() - k,
            {
                if k > 0 {
                    out.push(',');
                    if ind > 0 {
                        out.push('\n');
                    }
                }
                if ind > 0 {
                    push_spaces(out, acc);
                }
                proof {
                    assert(v->Array_0 == *x);
                    assert(decreases_to!(*v => v->Array_0));
                    assert(decreases_to!(*x => x@));
                    assert(decreases_to!(x@ => x@[k as int]));
                    assert(model[k as int] == jval_of(x@[k as int]));
                    assert(ser_fits(model[k as int], ind as int, acc as int + ind as int));
                }
                ser_val(&x[k], ind, acc2, out);
                proof {
                    let pre = model.subrange(0, k as int);
                    let cur = model.subrange(0, k + 1);
                    let item = sser_arr_item(model[k as int], ind as int, acc as int);
                    assert(cur.subrange(0, cur.len() - 1) =~= pre);
                    assert(cur[cur.len() - 1] == model[k as int]);
                    assert(item == ser_wrap(ind as int, acc as int) + sser(
                        model[k as int],
                        ind as int,
                        acc as int + ind as int,
                    ));
                    if k == 0 {
                        assert(sser_arr(cur, ind as int, acc as int) == item);
                    } else {
                        assert(sser_arr(cur, ind as int, acc as int) == sser_arr(
                            pre,
                            ind as int,
                            acc as int,
                        ) + ser_sep(ind as int) + item);
                    }
                    assert(out@ =~= base + seq!['['] + ser_wrap_start(ind as int) + sser_arr(
                        cur,
                        ind as int,
                        acc as int,
                    ));
                }
                k += 1;
            }
            if ind > 0 {
                out.push('\n');
                push_spaces(out, acc - ind);
            }
            out.push(']');
            proof {
                assert(model.subrange(0, model.len() as int) =~= model);
                assert(out@ =~= old(out)@ + sser(v@, ind as int, acc as int));
            }
        },
        JsonType::Object(o) => {
            proof {
                lemma_fits_obj_index(o@, ind as int, acc as int + ind as int);
            }
            let acc2 = if ind == 0 {
                acc
            } else {
                acc + ind
            };
            out.push('{');
            if ind > 0 {
                out.push('\n');
            }
            let ghost base = old(out)@;
            let ghost model = o@;
            proof {
                assert(out@ =~= base + seq!['{'] + ser_wrap_start(ind as int) + sser_obj(
                    model.subrange(0, 0),
                    ind as int,
                    acc as int,
                ));
            }
            let n = o.len();
            let mut k: usize = 0;
            while k < n
                invariant
                    (*v == JsonType::Object(*o)),
                    ind > 0 ==> acc >= ind,
                    acc2 == acc + ind || (ind == 0 && acc2 == acc),
                    acc2 <= u32::MAX,
                    model == o@,
                    n == model.len(),
                    forall|j: int|
                        0 <= j < model.len() ==> ser_fits(#[trigger] model[j].1, ind as int, acc as int + ind as int),
                    k <= n,
                    out@ == base + seq!['{'] + ser_wrap_start(ind as int) + sser_obj(
                        model.subrange(0, k as int),
                        ind as int,
                        acc as int,
                    ),
                decreases n - k,
            {
                if k > 0 {
                    out.push(',');
                    if ind > 0 {
                        out.push('\n');
                    }
                }
                if ind > 0 {
                    push_spaces(out, acc);
                }
                let ghost mid = out@;
                let entry = o.entry_at(k);
                out.push('"');
                let kc = str_to_chars(entry.0.as_str());
                append_chars(out, &kc);
                out.push('"');
                out.push(':');
                if ind > 0 {
                    out.push(' ');
                }
                proof {
                    assert(out@ =~= mid + seq!['"'] + model[k as int].0 + seq!['"', ':'] + ser_gap(
                        ind as int,
                    ));
                    assert(v->Object_0 == *o);
                    assert(decreases_to!(*v => v->Object_0));
                    assert(decreases_to!(*entry => entry.1));
                    assert(entry.1@ == model[k as int].1);
                    assert(ser_fits(model[k as int].1, ind as int, acc as int + ind as int));
                }
                ser_val(&entry.1, ind, acc2, out);
                proof {
                    let pre = model.subrange(0, k as int);
                    let cur = model.subrange(0, k + 1);
                    let item = sser_obj_item(
                        model[k as int].0,
                        model[k as int].1,
                        ind as int,
                        acc as int,
                    );
                    assert(cur.subrange(0, cur.len() - 1) =~= pre);
                    assert(cur[cur.len() - 1] == model[k as int]);
                    assert(item == ser_wrap(ind as int, acc as int) + seq!['"'] + model[
                        k as int
                    ].0 + seq!['"', ':'] + ser_gap(ind as int) + sser(
                        model[k as int].1,
                        ind as int,
                        acc as int + ind as int,
                    ));
                    if k == 0 {
                        assert(sser_obj(cur, ind as int, acc as int) == item);
                    } else {
                        assert(sser_obj(cur, ind as int, acc as int) == sser_obj(
                            pre,
                            ind as int,
                            acc as int,
                        ) + ser_sep(ind as int) + item);
                    }
                    assert(out@ =~= base + seq!['{'] + ser_wrap_start(ind as int) + sser_obj(
                        cur,
                        ind as int,
                        acc as int,
                    ));
                }
                k += 1;
            }
            if ind > 0 {
                out.push('\n');
                push_spaces(out, acc - ind);
            }
            out.push('}');
            proof {
                assert(model.subrange(0, model.len() as int) =~= model);
                assert(out@ =~= old(out)@ + sser(v@, ind as int, acc as int));
            }
        },
    }
}

/// Serializes a value to text: compact when `indent == 0`, pretty with the
/// given indentation width otherwise, starting at accumulated indentation
/// `acc_indent`.
pub fn serialize(json: &JsonType, indent: u32, acc_indent: u32) -> (r: String)
    requires
        indent > 0 ==> acc_indent >= indent && ser_fits(
            json@,
            indent as int,
            acc_indent as int,
        ),
    ensures
        r@ == sser(json@, indent as int, acc_indent as int),
{
    let mut out: Vec<char> = Vec::new();
    proof {
        if indent == 0 {
            lemma_ser_fits_compact(json@, indent as int, acc_indent as int);
        }
    }
    ser_val(json, indent, acc_indent, &mut out);
    chars_to_string(&out)
}

/// With no indentation nothing accumulates, so every tree fits.
pub proof fn lemma_ser_fits_compact(v: JVal, ind: int, acc: int)
    requires
        ind == 0,
        0 <= acc <= u32::MAX,
    ensures
        ser_fits(v, ind, acc),
    decreases v, 0int,
{
    match v {
        JVal::Arr(items) => {
            lemma_fits_arr_compact(items, ind, acc);
        },
        JVal::Obj(es) => {
            lemma_fits_obj_compact(es, ind, acc);
        },
        _ => {},
    }
}

pub proof fn lemma_fits_arr_compact(items: Seq<JVal>, ind: int, acc: int)
    requires
        ind == 0,
        0 <= acc <= u32::MAX,
    ensures
        fits_arr(items, ind, acc),
    decreases items, 1int,
{
    if items.len() > 0 {
        lemma_ser_fits_compact(items[0], ind, acc);
        lemma_fits_arr_compact(items.subrange(1, items.len() as int), ind, acc);
    }
}

pub proof fn lemma_fits_obj_compact(es: Seq<(Seq<char>, JVal)>, ind: int, acc: int)
    requires
        ind == 0,
        0 <= acc <= u32::MAX,
    ensures
        fits_obj(es, ind, acc),
    decreases es, 1int,
{
    if es.len() > 0 {
        lemma_ser_fits_compact(es[0].1, ind, acc);
        lemma_fits_obj_compact(es.subrange(1, es.len() as int), ind, acc);
    }
}

impl JsonType {
    /// Serializes the value compactly: no spaces, no line breaks.
    pub fn serialize(&self) -> (r: String)
        ensures
            r@ == sser(self@, 0, 0),
    {
        serialize(self, 0, 0)
    }

    /// Serializes the value with line breaks, each nesting level indented by
    /// `indent` further spaces.
    pub fn pretty_serialize(&self, indent: u32) -> (r: String)
        requires
            indent > 0 ==> ser_fits(self@, indent as int, indent as int),
        ensures
            r@ == sser(self@, indent as int, indent as int),
    {
        serialize(self, indent, indent)
    }
}

} // verus!
