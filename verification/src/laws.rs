use vstd::prelude::*;

use crate::value::JVal;
use crate::value::arr_eq;
use crate::value::lemma_arr_eq_index;
use crate::value::lemma_obj_lookup_at;
use crate::value::lemma_obj_sub_index;
use crate::value::lemma_wf_arr_index;
use crate::value::lemma_wf_obj_index;
use crate::value::obj_insert;
use crate::value::obj_lookup;
use crate::value::obj_sub;
use crate::value::unique_keys;
use crate::value::val_eq;
use crate::value::wf;
use crate::value::wf_arr;
use crate::value::wf_obj;

verus! {

broadcast use vstd::seq_lib::group_to_multiset_ensures;

/// Structural equality is reflexive on well-formed values.
pub proof fn lemma_val_eq_refl(v: JVal)
    requires
        wf(v),
    ensures
        val_eq(v, v),
    decreases v,
{
    match v {
        JVal::Arr(x) => {
            lemma_wf_arr_index(x);
            lemma_arr_eq_index(x, x);
            assert forall|i: int| 0 <= i < x.len() implies val_eq(x[i], #[trigger] x[i]) by {
                lemma_val_eq_refl(x[i]);
            }
        },
        JVal::Obj(x) => {
            lemma_wf_obj_index(x);
            lemma_obj_sub_index(x, x);
            assert forall|i: int|
                0 <= i < x.len() implies match obj_lookup(x, #[trigger] x[i].0) {
                Some(w) => val_eq(x[i].1, w),
                None => false,
            } by {
                lemma_obj_lookup_at(x, x[i].0, i);
                lemma_val_eq_refl(x[i].1);
            }
        },
        _ => {},
    }
}

/// Object equality ignores entry order: two well-formed objects holding the
/// same entries, in whatever order, are equal as values.
pub proof fn lemma_object_eq_order_independent(e1: Seq<(Seq<char>, JVal)>, e2: Seq<
    (Seq<char>, JVal),
>)
    requires
        unique_keys(e1),
        unique_keys(e2),
        wf_obj(e1),
        e1.to_multiset() == e2.to_multiset(),
    ensures
        val_eq(JVal::Obj(e1), JVal::Obj(e2)),
{
    e1.to_multiset_ensures();
    e2.to_multiset_ensures();
    assert(e1.len() == e2.len());
    lemma_wf_obj_index(e1);
    lemma_obj_sub_index(e1, e2);
    assert forall|i: int|
        0 <= i < e1.len() implies match obj_lookup(e2, #[trigger] e1[i].0) {
        Some(w) => val_eq(e1[i].1, w),
        None => false,
    } by {
        let p = e1[i];
        assert(e1.contains(p));
        assert(e2.to_multiset().contains(p));
        assert(e2.contains(p));
        let j = choose|j: int| 0 <= j < e2.len() && e2[j] == p;
        assert(forall|l: int| 0 <= l < j ==> e2[l].0 != p.0);
        lemma_obj_lookup_at(e2, p.0, j);
        lemma_val_eq_refl(p.1);
    }
}

/// Inserting under one key twice keeps only the last value: the second
/// insertion collapses the first one away, and looking the key up afterwards
/// yields that last value.  (That the first value is handed back by the
/// second insertion call is part of the contract of `JsonObject::insert`.)
pub proof fn lemma_insert_overwrite(e: Seq<(Seq<char>, JVal)>, k: Seq<char>, v1: JVal, v2: JVal)
    ensures
        obj_insert(obj_insert(e, k, v1), k, v2) == obj_insert(e, k, v2),
        obj_lookup(obj_insert(e, k, v2), k) == Some(v2),
    decreases e.len(),
{
    if e.len() == 0 {
        assert(obj_insert(obj_insert(e, k, v1), k, v2) =~= obj_insert(e, k, v2));
    } else if e[0].0 == k {
        let tail = e.subrange(1, e.len() as int);
        assert(obj_insert(e, k, v1) == seq![(k, v1)] + tail);
        assert((seq![(k, v1)] + tail)[0] == (k, v1));
        assert((seq![(k, v1)] + tail).subrange(1, (seq![(k, v1)] + tail).len() as int) =~= tail);
        assert(obj_insert(obj_insert(e, k, v1), k, v2) =~= obj_insert(e, k, v2));
        assert((seq![(k, v2)] + tail)[0] == (k, v2));
    } else {
        let tail = e.subrange(1, e.len() as int);
        lemma_insert_overwrite(tail, k, v1, v2);
        let t1 = obj_insert(tail, k, v1);
        assert(obj_insert(e, k, v1) == seq![e[0]] + t1);
        assert((seq![e[0]] + t1)[0] == e[0]);
        assert((seq![e[0]] + t1).subrange(1, (seq![e[0]] + t1).len() as int) =~= t1);
        assert(obj_insert(obj_insert(e, k, v1), k, v2) =~= obj_insert(e, k, v2));
        let t2 = obj_insert(tail, k, v2);
        assert(obj_insert(e, k, v2) == seq![e[0]] + t2);
        assert((seq![e[0]] + t2)[0] == e[0]);
        assert((seq![e[0]] + t2).subrange(1, (seq![e[0]] + t2).len() as int) =~= t2);
    }
}

} // verus!
