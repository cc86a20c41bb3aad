use vstd::prelude::*;

use crate::text::str_to_chars;

verus! {

broadcast use vstd::std_specs::vec::group_vec_axioms;

/// The mathematical model of a JSON document: a tree of values.  A number is
/// carried as its decimal numeral in canonical form (see `num_canon`); an
/// object is carried as the sequence of its entries in insertion order, so
/// that serialization order can be spoken about, while equality of values
/// ignores the order (see `val_eq`).
pub enum JVal {
    Null,
    Bool(bool),
    Num(Seq<char>),
    Str(Seq<char>),
    Arr(Seq<JVal>),
    Obj(Seq<(Seq<char>, JVal)>),
}

/// The value bound to key `k`, at its first occurrence in the entry list.
pub open spec fn obj_lookup(e: Seq<(Seq<char>, JVal)>, k: Seq<char>) -> Option<JVal>
    decreases e.len(),
{
    if e.len() == 0 {
        None
    } else if e[0].0 == k {
        Some(e[0].1)
    } else {
        obj_lookup(e.subrange(1, e.len() as int), k)
    }
}

/// Insertion with overwrite: a present key keeps its position and gets the new
/// value; an absent key is appended at the end.
pub open spec fn obj_insert(e: Seq<(Seq<char>, JVal)>, k: Seq<char>, v: JVal) -> Seq<
    (Seq<char>, JVal),
>
    decreases e.len(),
{
    if e.len() == 0 {
        seq![(k, v)]
    } else if e[0].0 == k {
        seq![(k, v)] + e.subrange(1, e.len() as int)
    } else {
        seq![e[0]] + obj_insert(e.subrange(1, e.len() as int), k, v)
    }
}

/// Removal of the first entry bound to `k`; without such an entry the list is
/// unchanged.
pub open spec fn obj_remove(e: Seq<(Seq<char>, JVal)>, k: Seq<char>) -> Seq<(Seq<char>, JVal)>
    decreases e.len(),
{
    if e.len() == 0 {
        e
    } else if e[0].0 == k {
        e.subrange(1, e.len() as int)
    } else {
        seq![e[0]] + obj_remove(e.subrange(1, e.len() as int), k)
    }
}

/// No two entries share a key.
pub open spec fn unique_keys(e: Seq<(Seq<char>, JVal)>) -> bool {
    forall|i: int, j: int| 0 <= i < j < e.len() ==> e[i].0 != e[j].0
}

/// Well-formedness of a value tree: every object in it has unique keys.
pub open spec fn wf(v: JVal) -> bool
    decreases v,
{
    match v {
        JVal::Arr(items) => wf_arr(items),
        JVal::Obj(es) => unique_keys(es) && wf_obj(es),
        _ => true,
    }
}

pub open spec fn wf_arr(items: Seq<JVal>) -> bool
    decreases items,
{
    if items.len() == 0 {
        true
    } else {
        wf(items[0]) && wf_arr(items.subrange(1, items.len() as int))
    }
}

pub open spec fn wf_obj(es: Seq<(Seq<char>, JVal)>) -> bool
    decreases es,
{
    if es.len() == 0 {
        true
    } else {
        wf(es[0].1) && wf_obj(es.subrange(1, es.len() as int))
    }
}

/// Structural equality of two value trees.  Arrays compare element by element
/// in order; objects compare by key, ignoring the order of their entries.
pub open spec fn val_eq(a: JVal, b: JVal) -> bool
    decreases a,
{
    match (a, b) {
        (JVal::Null, JVal::Null) => true,
        (JVal::Bool(x), JVal::Bool(y)) => x == y,
        (JVal::Num(x), JVal::Num(y)) => x == y,
        (JVal::Str(x), JVal::Str(y)) => x == y,
        (JVal::Arr(x), JVal::Arr(y)) => x.len() == y.len() && arr_eq(x, y),
        (JVal::Obj(x), JVal::Obj(y)) => x.len() == y.len() && obj_sub(x, y),
        _ => false,
    }
}

/// Pointwise `val_eq` of two equally long element sequences.
pub open spec fn arr_eq(x: Seq<JVal>, y: Seq<JVal>) -> bool
    decreases x,
{
    if x.len() == 0 || y.len() == 0 {
        true
    } else {
        val_eq(x[0], y[0]) && arr_eq(x.subrange(1, x.len() as int), y.subrange(1, y.len() as int))
    }
}

/// Every entry of `x` has a `val_eq`-equal value under its key in `y`.
pub open spec fn obj_sub(x: Seq<(Seq<char>, JVal)>, y: Seq<(Seq<char>, JVal)>) -> bool
    decreases x,
{
    if x.len() == 0 {
        true
    } else {
        (match obj_lookup(y, x[0].0) {
            Some(w) => val_eq(x[0].1, w),
            None => false,
        }) && obj_sub(x.subrange(1, x.len() as int), y)
    }
}

/// A JSON value: the tagged union of the six JSON kinds.  The number payload
/// is the decimal numeral as text; the parser stores it in canonical form,
/// under which `1` and `1.0` denote the same value and serialize as `1`.
#[derive(Debug)]
pub enum JsonType {
    Object(JsonObject),
    Array(Vec<JsonType>),
    Null,
    Bool(bool),
    Number(String),
    String(String),
}

/// The object container: entries in insertion order, keys unique.
#[derive(Debug)]
pub struct JsonObject {
    entries: Vec<(String, JsonType)>,
}

/// The model of a JSON value.
pub open spec fn jval_of(v: JsonType) -> JVal
    decreases v,
{
    match v {
        JsonType::Null => JVal::Null,
        JsonType::Bool(b) => JVal::Bool(b),
        JsonType::Number(t) => JVal::Num(t@),
        JsonType::String(s) => JVal::Str(s@),
        JsonType::Array(a) => JVal::Arr(jarr_of(a@)),
        JsonType::Object(o) => JVal::Obj(o@),
    }
}

pub open spec fn jarr_of(s: Seq<JsonType>) -> Seq<JVal>
    decreases s,
{
    if s.len() == 0 {
        Seq::empty()
    } else {
        jarr_of(s.subrange(0, s.len() - 1)).push(jval_of(s[s.len() - 1]))
    }
}

pub open spec fn jobj_of(s: Seq<(String, JsonType)>) -> Seq<(Seq<char>, JVal)>
    decreases s,
{
    if s.len() == 0 {
        Seq::empty()
    } else {
        jobj_of(s.subrange(0, s.len() - 1)).push(
            (s[s.len() - 1].0@, jval_of(s[s.len() - 1].1)),
        )
    }
}

impl View for JsonType {
    type V = JVal;

    open spec fn view(&self) -> JVal {
        jval_of(*self)
    }
}

impl View for JsonObject {
    type V = Seq<(Seq<char>, JVal)>;

    closed spec fn view(&self) -> Seq<(Seq<char>, JVal)>
        decreases self,
    {
        jobj_of(self.entries@)
    }
}

/// `jarr_of` element by element.
pub proof fn lemma_jarr_of(s: Seq<JsonType>)
    ensures
        jarr_of(s).len() == s.len(),
        forall|i: int| 0 <= i < s.len() ==> jarr_of(s)[i] == jval_of(s[i]),
    decreases s.len(),
{
    if s.len() > 0 {
        lemma_jarr_of(s.subrange(0, s.len() - 1));
        assert(forall|i: int|
            0 <= i < s.len() - 1 ==> s.subrange(0, s.len() - 1)[i] == s[i]);
    }
}

/// Whether the string and the character vector hold the same characters.
pub(crate) fn str_eq_chars(a: &str, b: &Vec<char>) -> (r: bool)
    ensures
        r == (a@ == b@),
{
    let ac = str_to_chars(a);
    if ac.len() != b.len() {
        return false;
    }
    let mut i: usize = 0;
    while i < ac.len()
        invariant
            i <= ac.len(),
            ac.len() == b.len(),
            ac@ == a@,
            forall|j: int| 0 <= j < i ==> ac@[j] == b@[j],
        decreases ac.len() - i,
    {
        if ac[i] != b[i] {
            return false;
        }
        i += 1;
    }
    proof {
        assert(a@ =~= b@);
    }
    true
}

/// First index bound to `k`, scanning from the front.
pub proof fn lemma_obj_lookup_at(e: Seq<(Seq<char>, JVal)>, k: Seq<char>, ix: int)
    requires
        0 <= ix < e.len(),
        e[ix].0 == k,
        forall|j: int| 0 <= j < ix ==> e[j].0 != k,
    ensures
        obj_lookup(e, k) == Some(e[ix].1),
    decreases ix,
{
    if ix > 0 {
        let e1 = e.subrange(1, e.len() as int);
        assert(forall|j: int| 0 <= j < ix - 1 ==> e1[j] == e[j + 1]);
        lemma_obj_lookup_at(e1, k, ix - 1);
    }
}

/// A key absent from every entry has no binding.
pub proof fn lemma_obj_lookup_none(e: Seq<(Seq<char>, JVal)>, k: Seq<char>)
    requires
        forall|j: int| 0 <= j < e.len() ==> e[j].0 != k,
    ensures
        obj_lookup(e, k) == None::<JVal>,
    decreases e.len(),
{
    if e.len() > 0 {
        let e1 = e.subrange(1, e.len() as int);
        assert(forall|j: int| 0 <= j < e1.len() ==> e1[j] == e[j + 1]);
        lemma_obj_lookup_none(e1, k);
    }
}

/// `jobj_of` entry by entry.
pub proof fn lemma_jobj_of(s: Seq<(String, JsonType)>)
    ensures
        jobj_of(s).len() == s.len(),
        forall|i: int|
            0 <= i < s.len() ==> jobj_of(s)[i] == (s[i].0@, jval_of(s[i].1)),
    decreases s.len(),
{
    if s.len() > 0 {
        lemma_jobj_of(s.subrange(0, s.len() - 1));
        assert(forall|i: int|
            0 <= i < s.len() - 1 ==> s.subrange(0, s.len() - 1)[i] == s[i]);
    }
}

/// `wf_obj` entry by entry.
pub proof fn lemma_wf_obj_index(es: Seq<(Seq<char>, JVal)>)
    ensures
        wf_obj(es) <==> (forall|i: int| 0 <= i < es.len() ==> wf(#[trigger] es[i].1)),
    decreases es.len(),
{
    if es.len() > 0 {
        let e1 = es.subrange(1, es.len() as int);
        assert(forall|j: int| 0 <= j < e1.len() ==> e1[j] == es[j + 1]);
        lemma_wf_obj_index(e1);
        if wf_obj(es) {
            assert forall|i: int| 0 <= i < es.len() implies wf(#[trigger] es[i].1) by {
                if i > 0 {
                    assert(wf(e1[i - 1].1));
                }
            }
        }
        if forall|i: int| 0 <= i < es.len() ==> wf(#[trigger] es[i].1) {
            assert(forall|j: int| 0 <= j < e1.len() ==> wf(#[trigger] e1[j].1));
        }
    }
}

/// `wf_arr` element by element.
pub proof fn lemma_wf_arr_index(items: Seq<JVal>)
    ensures
        wf_arr(items) <==> (forall|i: int| 0 <= i < items.len() ==> wf(#[trigger] items[i])),
    decreases items.len(),
{
    if items.len() > 0 {
        let e1 = items.subrange(1, items.len() as int);
        assert(forall|j: int| 0 <= j < e1.len() ==> e1[j] == items[j + 1]);
        lemma_wf_arr_index(e1);
        if wf_arr(items) {
            assert forall|i: int| 0 <= i < items.len() implies wf(#[trigger] items[i]) by {
                if i > 0 {
                    assert(wf(e1[i - 1]));
                }
            }
        }
        if forall|i: int| 0 <= i < items.len() ==> wf(#[trigger] items[i]) {
            assert(forall|j: int| 0 <= j < e1.len() ==> wf(#[trigger] e1[j]));
        }
    }
}

/// With `ix` the first index bound to `k`, insertion is an update in place.
pub proof fn lemma_obj_insert_at(e: Seq<(Seq<char>, JVal)>, k: Seq<char>, v: JVal, ix: int)
    requires
        0 <= ix < e.len(),
        e[ix].0 == k,
        forall|j: int| 0 <= j < ix ==> e[j].0 != k,
    ensures
        obj_insert(e, k, v) == e.update(ix, (k, v)),
    decreases ix,
{
    let e1 = e.subrange(1, e.len() as int);
    if ix == 0 {
        assert(obj_insert(e, k, v) =~= e.update(0, (k, v)));
    } else {
        assert(forall|j: int| 0 <= j < ix - 1 ==> e1[j] == e[j + 1]);
        lemma_obj_insert_at(e1, k, v, ix - 1);
        assert(obj_insert(e, k, v) =~= e.update(ix, (k, v)));
    }
}

/// Inserting an absent key appends the entry.
pub proof fn lemma_obj_insert_absent(e: Seq<(Seq<char>, JVal)>, k: Seq<char>, v: JVal)
    requires
        forall|j: int| 0 <= j < e.len() ==> e[j].0 != k,
    ensures
        obj_insert(e, k, v) == e.push((k, v)),
    decreases e.len(),
{
    if e.len() == 0 {
        assert(obj_insert(e, k, v) =~= e.push((k, v)));
    } else {
        let e1 = e.subrange(1, e.len() as int);
        assert(forall|j: int| 0 <= j < e1.len() ==> e1[j] == e[j + 1]);
        lemma_obj_insert_absent(e1, k, v);
        assert(obj_insert(e, k, v) =~= e.push((k, v)));
    }
}

/// With `ix` the first index bound to `k`, removal deletes that entry.
pub proof fn lemma_obj_remove_at(e: Seq<(Seq<char>, JVal)>, k: Seq<char>, ix: int)
    requires
        0 <= ix < e.len(),
        e[ix].0 == k,
        forall|j: int| 0 <= j < ix ==> e[j].0 != k,
    ensures
        obj_remove(e, k) == e.remove(ix),
    decreases ix,
{
    let e1 = e.subrange(1, e.len() as int);
    if ix == 0 {
        assert(obj_remove(e, k) =~= e.remove(0));
    } else {
        assert(forall|j: int| 0 <= j < ix - 1 ==> e1[j] == e[j + 1]);
        lemma_obj_remove_at(e1, k, ix - 1);
        assert(obj_remove(e, k) =~= e.remove(ix));
    }
}

/// Removing an absent key changes nothing.
pub proof fn lemma_obj_remove_absent(e: Seq<(Seq<char>, JVal)>, k: Seq<char>)
    requires
        forall|j: int| 0 <= j < e.len() ==> e[j].0 != k,
    ensures
        obj_remove(e, k) == e,
    decreases e.len(),
{
    if e.len() > 0 {
        let e1 = e.subrange(1, e.len() as int);
        assert(forall|j: int| 0 <= j < e1.len() ==> e1[j] == e[j + 1]);
        lemma_obj_remove_absent(e1, k);
        assert(obj_remove(e, k) =~= e);
    }
}

/// `arr_eq` element by element, for equally long sequences.
pub proof fn lemma_arr_eq_index(x: Seq<JVal>, y: Seq<JVal>)
    requires
        x.len() == y.len(),
    ensures
        arr_eq(x, y) <==> (forall|i: int| 0 <= i < x.len() ==> val_eq(x[i], #[trigger] y[i])),
    decreases x.len(),
{
    if x.len() > 0 {
        let x1 = x.subrange(1, x.len() as int);
        let y1 = y.subrange(1, y.len() as int);
        assert(forall|j: int| 0 <= j < x1.len() ==> x1[j] == x[j + 1]);
        assert(forall|j: int| 0 <= j < y1.len() ==> y1[j] == y[j + 1]);
        lemma_arr_eq_index(x1, y1);
        if arr_eq(x, y) {
            assert forall|i: int| 0 <= i < x.len() implies val_eq(x[i], #[trigger] y[i]) by {
                if i > 0 {
                    assert(val_eq(x1[i - 1], y1[i - 1]));
                }
            }
        }
        if forall|i: int| 0 <= i < x.len() ==> val_eq(x[i], #[trigger] y[i]) {
            assert(forall|j: int| 0 <= j < x1.len() ==> val_eq(x1[j], #[trigger] y1[j]));
        }
    }
}

/// `obj_sub` entry by entry.
pub proof fn lemma_obj_sub_index(x: Seq<(Seq<char>, JVal)>, y: Seq<(Seq<char>, JVal)>)
    ensures
        obj_sub(x, y) <==> (forall|i: int|
            0 <= i < x.len() ==> match obj_lookup(y, #[trigger] x[i].0) {
                Some(w) => val_eq(x[i].1, w),
                None => false,
            }),
    decreases x.len(),
{
    if x.len() > 0 {
        let x1 = x.subrange(1, x.len() as int);
        assert(forall|j: int| 0 <= j < x1.len() ==> x1[j] == x[j + 1]);
        lemma_obj_sub_index(x1, y);
        if obj_sub(x, y) {
            assert forall|i: int|
                0 <= i < x.len() implies match obj_lookup(y, #[trigger] x[i].0) {
                Some(w) => val_eq(x[i].1, w),
                None => false,
            } by {
                if i > 0 {
                    assert(match obj_lookup(y, x1[i - 1].0) {
                        Some(w) => val_eq(x1[i - 1].1, w),
                        None => false,
                    });
                }
            }
        }
        if forall|i: int|
            0 <= i < x.len() ==> match obj_lookup(y, #[trigger] x[i].0) {
            Some(w) => val_eq(x[i].1, w),
            None => false,
        } {
            assert(forall|j: int|
                0 <= j < x1.len() ==> match obj_lookup(y, #[trigger] x1[j].0) {
                    Some(w) => val_eq(x1[j].1, w),
                    None => false,
                });
        }
    }
}

/// Structural equality over the value trees, executable form.
fn val_eq_exec(a: &JsonType, b: &JsonType) -> (r: bool)
    ensures
        r == val_eq(a@, b@),
    decreases a,
{
    match a {
        JsonType::Null => match b {
            JsonType::Null => true,
            _ => false,
        },
        JsonType::Bool(x) => match b {
            JsonType::Bool(y) => *x == *y,
            _ => false,
        },
        JsonType::Number(x) => match b {
            JsonType::Number(y) => *x == *y,
            _ => false,
        },
        JsonType::String(x) => match b {
            JsonType::String(y) => *x == *y,
            _ => false,
        },
        JsonType::Array(x) => match b {
            JsonType::Array(y) => {
            proof {
                lemma_jarr_of(x@);
                lemma_jarr_of(y@);
            }
            if x.len() != y.len() {
                return false;
            }
            proof {
                lemma_arr_eq_index(jarr_of(x@), jarr_of(y@));
            }
            let mut i: usize = 0;
            while i < x.len()
                invariant
                    (*a == JsonType::Array(*x)),
                    (*b == JsonType::Array(*y)),
                    i <= x.len(),
                    x@.len() == y@.len(),
                    jarr_of(x@).len() == x@.len(),
                    jarr_of(y@).len() == y@.len(),
                    forall|j: int| 0 <= j < x@.len() ==> jarr_of(x@)[j] == jval_of(x@[j]),
                    forall|j: int| 0 <= j < y@.len() ==> jarr_of(y@)[j] == jval_of(y@[j]),
                    forall|j: int|
                        0 <= j < i ==> val_eq(jarr_of(x@)[j], #[trigger] jarr_of(y@)[j]),
                decreases x.len() - i,
            {
                proof {
                    assert(a->Array_0 == *x);
                    assert(decreases_to!(*a => a->Array_0));
                    assert(decreases_to!(*x => x@));
                    assert(decreases_to!(x@ => x@[i as int]));
                }
                if !val_eq_exec(&x[i], &y[i]) {
                    proof {
                        assert(!val_eq(jarr_of(x@)[i as int], jarr_of(y@)[i as int]));
                        lemma_arr_eq_index(jarr_of(x@), jarr_of(y@));
                    }
                    return false;
                }
                proof {
                    assert(val_eq(jarr_of(x@)[i as int], jarr_of(y@)[i as int]));
                }
                i += 1;
            }
                proof {
                    lemma_arr_eq_index(jarr_of(x@), jarr_of(y@));
                }
                true
            },
            _ => false,
        },
        JsonType::Object(x) => match b {
            JsonType::Object(y) => obj_eq_exec(x, y),
            _ => false,
        },
    }
}

/// Key-based equality of two objects, executable form.
fn obj_eq_exec(a: &JsonObject, b: &JsonObject) -> (r: bool)
    ensures
        r == val_eq(JVal::Obj(a@), JVal::Obj(b@)),
    decreases a,
{
    proof {
        lemma_jobj_of(a.entries@);
        lemma_jobj_of(b.entries@);
    }
    if a.entries.len() != b.entries.len() {
        return false;
    }
    proof {
        lemma_obj_sub_index(a@, b@);
    }
    let mut i: usize = 0;
    while i < a.entries.len()
        invariant
            i <= a.entries.len(),
            a@.len() == a.entries.len(),
            b@.len() == b.entries.len(),
            a@.len() == b@.len(),
            forall|j: int|
                0 <= j < a@.len() ==> a@[j] == (a.entries@[j].0@, jval_of(a.entries@[j].1)),
            forall|j: int|
                0 <= j < b@.len() ==> b@[j] == (b.entries@[j].0@, jval_of(b.entries@[j].1)),
            forall|j: int|
                0 <= j < i ==> match obj_lookup(b@, #[trigger] a@[j].0) {
                    Some(w) => val_eq(a@[j].1, w),
                    None => false,
                },
        decreases a.entries.len() - i,
    {
        let kc = str_to_chars(a.entries[i].0.as_str());
        proof {
            assert(kc@ == a@[i as int].0);
        }
        match b.find_key(&kc) {
            Some(ix) => {
                proof {
                    lemma_obj_lookup_at(b@, kc@, ix as int);
                    assert(decreases_to!(a => a.entries));
                    assert(decreases_to!(a.entries => a.entries@));
                    assert(decreases_to!(a.entries@ => a.entries@[i as int]));
                    assert(decreases_to!(a.entries@[i as int] => a.entries@[i as int].1));
                }
                if !val_eq_exec(&a.entries[i].1, &b.entries[ix].1) {
                    proof {
                        assert(obj_lookup(b@, a@[i as int].0) == Some(b@[ix as int].1));
                        assert(!val_eq(a@[i as int].1, b@[ix as int].1));
                        lemma_obj_sub_index(a@, b@);
                    }
                    return false;
                }
                proof {
                    assert(val_eq(a@[i as int].1, b@[ix as int].1));
                }
            },
            None => {
                proof {
                    lemma_obj_lookup_none(b@, kc@);
                    assert(obj_lookup(b@, a@[i as int].0) is None);
                    lemma_obj_sub_index(a@, b@);
                }
                return false;
            },
        }
        i += 1;
    }
    proof {
        lemma_obj_sub_index(a@, b@);
    }
    true
}

impl PartialEq for JsonType {
    fn eq(&self, other: &JsonType) -> (r: bool) {
        val_eq_exec(self, other)
    }
}

impl vstd::std_specs::cmp::PartialEqSpecImpl for JsonType {
    open spec fn obeys_eq_spec() -> bool {
        true
    }

    open spec fn eq_spec(&self, other: &JsonType) -> bool {
        val_eq(self@, other@)
    }
}

impl PartialEq for JsonObject {
    fn eq(&self, other: &JsonObject) -> (r: bool) {
        obj_eq_exec(self, other)
    }
}

impl vstd::std_specs::cmp::PartialEqSpecImpl for JsonObject {
    open spec fn obeys_eq_spec() -> bool {
        true
    }

    open spec fn eq_spec(&self, other: &JsonObject) -> bool {
        val_eq(JVal::Obj(self@), JVal::Obj(other@))
    }
}

impl JsonObject {
    /// An empty object.
    pub fn new() -> (r: JsonObject)
        ensures
            r@ == Seq::<(Seq<char>, JVal)>::empty(),
    {
        let r = JsonObject { entries: Vec::new() };
        proof {
            assert(r@ =~= Seq::<(Seq<char>, JVal)>::empty());
        }
        r
    }

    /// The number of entries.
    pub fn len(&self) -> (r: usize)
        ensures
            r == self@.len(),
    {
        proof {
            lemma_jobj_of(self.entries@);
        }
        self.entries.len()
    }

    /// The entry at position `i`, in insertion order.  This is the reading
    /// interface over which an object's entries are walked.
    pub fn entry_at<'a>(&'a self, i: usize) -> (r: &'a (String, JsonType))
        requires
            i < self@.len(),
        ensures
            r.0@ == self@[i as int].0,
            r.1@ == self@[i as int].1,
            (decreases_to!(*self => *r)),
    {
        proof {
            lemma_jobj_of(self.entries@);
            assert(decreases_to!(*self => self.entries));
            assert(decreases_to!(self.entries => self.entries@));
            assert(decreases_to!(self.entries@ => self.entries@[i as int]));
        }
        &self.entries[i]
    }

    /// The index of the first entry whose key is `k`, if any.
    fn find_key(&self, k: &Vec<char>) -> (r: Option<usize>)
        ensures
            match r {
                Some(ix) => ix < self@.len() && self@[ix as int].0 == k@ && (forall|j: int|
                    0 <= j < ix ==> self@[j].0 != k@),
                None => forall|j: int| 0 <= j < self@.len() ==> self@[j].0 != k@,
            },
    {
        proof {
            lemma_jobj_of(self.entries@);
        }
        let mut i: usize = 0;
        while i < self.entries.len()
            invariant
                i <= self.entries.len(),
                self@.len() == self.entries.len(),
                forall|j: int|
                    0 <= j < self@.len() ==> self@[j] == (self.entries@[j].0@, jval_of(
                        self.entries@[j].1,
                    )),
                forall|j: int| 0 <= j < i ==> self@[j].0 != k@,
            decreases self.entries.len() - i,
        {
            if str_eq_chars(self.entries[i].0.as_str(), k) {
                return Some(i);
            }
            i += 1;
        }
        None
    }

    /// The value stored under `k`, if any.
    pub fn get<'a>(&'a self, k: &str) -> (r: Option<&'a JsonType>)
        ensures
            match r {
                Some(x) => obj_lookup(self@, k@) == Some(x@),
                None => obj_lookup(self@, k@) is None,
            },
    {
        let kc = str_to_chars(k);
        match self.find_key(&kc) {
            Some(ix) => {
                proof {
                    lemma_obj_lookup_at(self@, k@, ix as int);
                    lemma_jobj_of(self.entries@);
                }
                Some(&self.entries[ix].1)
            },
            None => {
                proof {
                    lemma_obj_lookup_none(self@, k@);
                }
                None
            },
        }
    }

    /// Whether `k` is bound in the object.
    pub fn contains(&self, k: &str) -> (r: bool)
        ensures
            r == (obj_lookup(self@, k@) is Some),
    {
        let kc = str_to_chars(k);
        match self.find_key(&kc) {
            Some(ix) => {
                proof {
                    lemma_obj_lookup_at(self@, k@, ix as int);
                }
                true
            },
            None => {
                proof {
                    lemma_obj_lookup_none(self@, k@);
                }
                false
            },
        }
    }

    /// Removes the entry bound to `k`, handing back its value.
    pub fn remove(&mut self, k: &str) -> (r: Option<JsonType>)
        ensures
            final(self)@ == obj_remove(old(self)@, k@),
            obj_lookup(old(self)@, k@) matches Some(w) ==> (r matches Some(x) && x@ == w),
            obj_lookup(old(self)@, k@) is None ==> r is None,
    {
        let kc = str_to_chars(k);
        match self.find_key(&kc) {
            Some(ix) => {
                proof {
                    lemma_obj_lookup_at(self@, k@, ix as int);
                    lemma_obj_remove_at(self@, k@, ix as int);
                    lemma_jobj_of(self.entries@);
                }
                let p = self.entries.remove(ix);
                proof {
                    lemma_jobj_of(self.entries@);
                    assert(self@ =~= old(self)@.remove(ix as int));
                }
                Some(p.1)
            },
            None => {
                proof {
                    lemma_obj_lookup_none(self@, k@);
                    lemma_obj_remove_absent(self@, k@);
                }
                None
            },
        }
    }

    /// Inserts `v` under `k`, overwriting in place; hands back the value the
    /// key held before, if any.
    pub fn insert(&mut self, k: &str, v: JsonType) -> (r: Option<JsonType>)
        ensures
            final(self)@ == obj_insert(old(self)@, k@, v@),
            obj_lookup(old(self)@, k@) matches Some(w) ==> (r matches Some(x) && x@ == w),
            obj_lookup(old(self)@, k@) is None ==> r is None,
            unique_keys(old(self)@) ==> unique_keys(final(self)@),
            (wf(JVal::Obj(old(self)@)) && wf(v@)) ==> wf(JVal::Obj(final(self)@)),
    {
        proof {
            lemma_wf_obj_index(self@);
        }
        let kc = str_to_chars(k);
        let ks = k.to_owned();
        match self.find_key(&kc) {
            Some(ix) => {
                proof {
                    lemma_obj_lookup_at(self@, k@, ix as int);
                    lemma_obj_insert_at(self@, k@, v@, ix as int);
                    lemma_jobj_of(self.entries@);
                }
                let p = self.entries.remove(ix);
                self.entries.insert(ix, (ks, v));
                proof {
                    lemma_jobj_of(self.entries@);
                    assert(self@ =~= old(self)@.update(ix as int, (k@, v@)));
                    lemma_wf_obj_index(self@);
                    assert forall|a: int, b: int| 0 <= a < b < self@.len() && unique_keys(
                        old(self)@,
                    ) implies self@[a].0 != self@[b].0 by {
                        assert(old(self)@[ix as int].0 == k@);
                    }
                }
                Some(p.1)
            },
            None => {
                proof {
                    lemma_obj_lookup_none(self@, k@);
                    lemma_obj_insert_absent(self@, k@, v@);
                    lemma_jobj_of(self.entries@);
                }
                self.entries.push((ks, v));
                proof {
                    lemma_jobj_of(self.entries@);
                    assert(self.entries@.subrange(0, self.entries@.len() - 1) =~= old(
                        self,
                    ).entries@);
                    assert(self@ =~= old(self)@.push((k@, v@)));
                    lemma_wf_obj_index(self@);
                }
                None
            },
        }
    }
}

} // verus!
