//! The merge engine: folds one document into another with field-level
//! override and deletion-by-null semantics.

use vstd::prelude::*;
use crate::value::{
    Tree, Value, arr_view, deep_clone, entries_view, has_key, key_idx, lemma_entries_view_push,
    lemma_entries_view_remove, lemma_entries_view_update, lemma_key_idx, lemma_obj_remove,
    lemma_obj_remove_wf_vals, lemma_obj_set, lemma_obj_set_wf_vals, lemma_seq_remove_insert,
    lemma_wf_obj_elim, lemma_wf_obj_intro, obj_find, obj_get, obj_remove, obj_set, uniq_keys, wf,
};

verus! {

/// Fold the patch entries into the accumulator entries, left to right: a
/// null value deletes its key, any other value is merged under its key,
/// created at the end when absent.
pub open spec fn merge_entries(
    ae: Seq<(Seq<char>, Tree)>,
    pe: Seq<(Seq<char>, Tree)>,
) -> Seq<(Seq<char>, Tree)>
    decreases pe, 0int,
{
    if pe.len() == 0 {
        ae
    } else {
        let k = pe[0].0;
        let v = pe[0].1;
        if v is Null {
            merge_entries(obj_remove(ae, k), pe.drop_first())
        } else {
            let base = if has_key(ae, k) {
                obj_get(ae, k)
            } else {
                Tree::Null
            };
            merge_entries(obj_set(ae, k, merge_spec(base, v)), pe.drop_first())
        }
    }
}

/// Structural merge: a non-object patch replaces the target wholesale; an
/// object patch is folded into the target key by key, over an empty object
/// when the target is not an object.
pub open spec fn merge_spec(a: Tree, p: Tree) -> Tree
    decreases p, 1int,
{
    match p {
        Tree::Obj(pe) => {
            let base = match a {
                Tree::Obj(ae) => ae,
                _ => Seq::<(Seq<char>, Tree)>::empty(),
            };
            Tree::Obj(merge_entries(base, pe))
        },
        _ => p,
    }
}

/// Dropping the first entry of a distinct-key object keeps the other keys
/// and their values.
pub proof fn lemma_drop_first_keys(pe: Seq<(Seq<char>, Tree)>)
    requires
        uniq_keys(pe),
        pe.len() > 0,
    ensures
        uniq_keys(pe.drop_first()),
        !has_key(pe.drop_first(), pe[0].0),
        forall|k: Seq<char>| k != pe[0].0 ==> #[trigger] has_key(pe.drop_first(), k) == has_key(
            pe,
            k,
        ),
        forall|k: Seq<char>| k != pe[0].0 && has_key(pe, k) ==> #[trigger] obj_get(
            pe.drop_first(),
            k,
        ) == obj_get(pe, k),
{
    let rest = pe.drop_first();
    assert(forall|i: int| 0 <= i < rest.len() ==> (#[trigger] rest[i]) == pe[i + 1]);
    assert(!has_key(rest, pe[0].0)) by {
        if has_key(rest, pe[0].0) {
            let i = key_idx(rest, pe[0].0);
            assert(0 <= i < rest.len() && rest[i].0 == pe[0].0);
            assert(pe[i + 1].0 == pe[0].0);
        }
    }
    assert forall|k: Seq<char>| k != pe[0].0 implies #[trigger] has_key(rest, k) == has_key(
        pe,
        k,
    ) by {
        if has_key(rest, k) {
            let i = key_idx(rest, k);
            assert(0 <= i < rest.len() && rest[i].0 == k);
            assert(pe[i + 1].0 == k);
            assert(has_key(pe, k));
        }
        if has_key(pe, k) {
            let i = key_idx(pe, k);
            assert(0 <= i < pe.len() && pe[i].0 == k);
            assert(i != 0);
            assert(rest[i - 1].0 == k);
            assert(has_key(rest, k));
        }
    }
    assert forall|k: Seq<char>| k != pe[0].0 && has_key(pe, k) implies #[trigger] obj_get(
        rest,
        k,
    ) == obj_get(pe, k) by {
        let i = key_idx(pe, k);
        assert(0 <= i < pe.len() && pe[i].0 == k);
        assert(i != 0);
        assert(rest[i - 1] == pe[i]);
        lemma_key_idx(rest, k, i - 1);
        lemma_key_idx(pe, k, i);
    }
}

/// What the fold does to each key: a null patch value deletes it, any other
/// patch value leaves the merge of the two sides, and keys the patch does
/// not mention come through untouched.
pub proof fn lemma_merge_entries_props(ae: Seq<(Seq<char>, Tree)>, pe: Seq<(Seq<char>, Tree)>)
    requires
        uniq_keys(ae),
        uniq_keys(pe),
    ensures
        uniq_keys(merge_entries(ae, pe)),
        forall|k: Seq<char>|
            has_key(pe, k) && obj_get(pe, k) is Null ==> !(#[trigger] has_key(
                merge_entries(ae, pe),
                k,
            )),
        forall|k: Seq<char>|
            has_key(pe, k) && !(obj_get(pe, k) is Null) ==> has_key(merge_entries(ae, pe), k)
                && #[trigger] obj_get(merge_entries(ae, pe), k) == merge_spec(
                if has_key(ae, k) {
                    obj_get(ae, k)
                } else {
                    Tree::Null
                },
                obj_get(pe, k),
            ),
        forall|k: Seq<char>|
            !has_key(pe, k) ==> #[trigger] has_key(merge_entries(ae, pe), k) == has_key(ae, k),
        forall|k: Seq<char>|
            !has_key(pe, k) && has_key(ae, k) ==> #[trigger] obj_get(merge_entries(ae, pe), k)
                == obj_get(ae, k),
    decreases pe.len(),
{
    let me = merge_entries(ae, pe);
    if pe.len() == 0 {
    } else {
        let k0 = pe[0].0;
        let v0 = pe[0].1;
        let rest = pe.drop_first();
        lemma_drop_first_keys(pe);
        lemma_key_idx(pe, k0, 0);
        let ae2: Seq<(Seq<char>, Tree)> = if v0 is Null {
            obj_remove(ae, k0)
        } else {
            obj_set(
                ae,
                k0,
                merge_spec(
                    if has_key(ae, k0) {
                        obj_get(ae, k0)
                    } else {
                        Tree::Null
                    },
                    v0,
                ),
            )
        };
        if v0 is Null {
            if has_key(ae, k0) {
                lemma_obj_remove(ae, k0);
            }
            assert(!has_key(ae2, k0));
        } else {
            lemma_obj_set(
                ae,
                k0,
                merge_spec(
                    if has_key(ae, k0) {
                        obj_get(ae, k0)
                    } else {
                        Tree::Null
                    },
                    v0,
                ),
            );
        }
        lemma_merge_entries_props(ae2, rest);
        assert(me == merge_entries(ae2, rest));
        assert forall|k: Seq<char>| has_key(pe, k) && obj_get(pe, k) is Null implies !(
        #[trigger] has_key(me, k)) by {
            if k == k0 {
                assert(!has_key(rest, k0));
                assert(has_key(merge_entries(ae2, rest), k0) == has_key(ae2, k0));
            } else {
                assert(has_key(rest, k) == has_key(pe, k));
                assert(obj_get(rest, k) == obj_get(pe, k));
                assert(!has_key(merge_entries(ae2, rest), k));
            }
        }
        assert forall|k: Seq<char>| has_key(pe, k) && !(obj_get(pe, k) is Null) implies has_key(
            me,
            k,
        ) && #[trigger] obj_get(me, k) == merge_spec(
            if has_key(ae, k) {
                obj_get(ae, k)
            } else {
                Tree::Null
            },
            obj_get(pe, k),
        ) by {
            if k == k0 {
                assert(!has_key(rest, k0));
                assert(has_key(merge_entries(ae2, rest), k0) == has_key(ae2, k0));
                assert(obj_get(merge_entries(ae2, rest), k0) == obj_get(ae2, k0));
            } else {
                assert(has_key(rest, k) == has_key(pe, k));
                assert(obj_get(rest, k) == obj_get(pe, k));
                assert(has_key(ae2, k) == has_key(ae, k));
                if has_key(ae, k) {
                    assert(obj_get(ae2, k) == obj_get(ae, k));
                }
                assert(obj_get(merge_entries(ae2, rest), k) == merge_spec(
                    if has_key(ae2, k) {
                        obj_get(ae2, k)
                    } else {
                        Tree::Null
                    },
                    obj_get(rest, k),
                ));
            }
        }
        assert forall|k: Seq<char>| !has_key(pe, k) implies #[trigger] has_key(me, k) == has_key(
            ae,
            k,
        ) by {
            assert(k != k0);
            assert(!has_key(rest, k));
            assert(has_key(ae2, k) == has_key(ae, k));
            assert(has_key(merge_entries(ae2, rest), k) == has_key(ae2, k));
        }
        assert forall|k: Seq<char>| !has_key(pe, k) && has_key(ae, k) implies #[trigger] obj_get(
            me,
            k,
        ) == obj_get(ae, k) by {
            assert(k != k0);
            assert(!has_key(rest, k));
            assert(has_key(ae2, k) == has_key(ae, k));
            assert(obj_get(ae2, k) == obj_get(ae, k));
            assert(obj_get(merge_entries(ae2, rest), k) == obj_get(ae2, k));
        }
    }
}

/// Merge a patch into an owned tree, by structure.
#[verifier::loop_isolation(false)]
pub fn merge_value(a: Value, patch: &Value) -> (r: Value)
    requires
        wf(a@),
        wf(patch@),
    ensures
        r@ == merge_spec(a@, patch@),
        wf(r@),
    decreases *patch,
{
    match patch {
        Value::Obj(pes) => {
            let ghost pview = entries_view(pes@);
            proof {
                lemma_wf_obj_elim(pview);
            }
            let mut es: Vec<(String, Value)> = match a {
                Value::Obj(v) => v,
                _ => Vec::new(),
            };
            let ghost base0 = entries_view(es@);
            proof {
                if !(a@ is Obj) {
                    assert(entries_view(es@) =~= Seq::<(Seq<char>, Tree)>::empty());
                }
                lemma_wf_obj_elim(base0);
                assert(pview.skip(0) =~= pview);
            }
            let mut j: usize = 0;
            while j < pes.len()
                invariant
                    j <= pes@.len(),
                    uniq_keys(entries_view(es@)),
                    forall|x: int|
                        0 <= x < es@.len() ==> wf(#[trigger] entries_view(es@)[x].1),
                    merge_entries(base0, pview) == merge_entries(
                        entries_view(es@),
                        pview.skip(j as int),
                    ),
                decreases pes@.len() - j,
            {
                let ghost ev = entries_view(es@);
                let ghost pk = pview[j as int].0;
                let ghost pv = pview[j as int].1;
                proof {
                    assert(pview.skip(j as int)[0] == pview[j as int]);
                    assert(pview.skip(j as int).drop_first() =~= pview.skip(j as int + 1));
                    assert(wf(pv));
                }
                let patch_child = &pes[j].1;
                let is_null = match patch_child {
                    Value::Null => true,
                    _ => false,
                };
                proof {
                    assert(is_null == (pv is Null));
                }
                if is_null {
                    match obj_find(&es, &pes[j].0) {
                        Some(idx) => {
                            proof {
                                lemma_key_idx(ev, pk, idx as int);
                                lemma_obj_remove(ev, pk);
                                lemma_obj_remove_wf_vals(ev, pk);
                            }
                            let ghost vs0 = es@;
                            let _old = es.remove(idx);
                            proof {
                                assert(es@ == vs0.remove(idx as int));
                                lemma_entries_view_remove(vs0, idx as int);
                                assert(entries_view(es@) == obj_remove(ev, pk));
                            }
                        },
                        None => {
                            proof {
                                assert(obj_remove(ev, pk) == ev);
                            }
                        },
                    }
                } else {
                    match obj_find(&es, &pes[j].0) {
                        Some(idx) => {
                            proof {
                                lemma_key_idx(ev, pk, idx as int);
                            }
                            let ghost vs0 = es@;
                            let (kk, child) = es.remove(idx);
                            let ghost kk0 = kk;
                            proof {
                                assert(kk0@ == ev[idx as int].0 && child@ == ev[idx as int].1);
                                assert(child@ == obj_get(ev, pk));
                                assert(wf(child@));
                            }
                            let merged = merge_value(child, patch_child);
                            let ghost m0 = merged;
                            es.insert(idx, (kk, merged));
                            proof {
                                assert(es@ == vs0.remove(idx as int).insert(
                                    idx as int,
                                    (kk0, m0),
                                ));
                                lemma_seq_remove_insert(vs0, idx as int, (kk0, m0));
                                lemma_entries_view_update(vs0, idx as int, kk0, m0);
                                assert(entries_view(es@) == ev.update(idx as int, (pk, m0@)));
                                assert(obj_set(ev, pk, m0@) == ev.update(idx as int, (pk, m0@)));
                                lemma_obj_set(ev, pk, m0@);
                                lemma_obj_set_wf_vals(ev, pk, m0@);
                            }
                        },
                        None => {
                            let merged = merge_value(Value::Null, patch_child);
                            let ghost m0 = merged;
                            let k = pes[j].0.clone();
                            let ghost k0 = k;
                            let ghost vs0 = es@;
                            es.push((k, merged));
                            proof {
                                assert(es@ == vs0.push((k0, m0)));
                                lemma_entries_view_push(vs0, k0, m0);
                                assert(entries_view(es@) == ev.push((pk, m0@)));
                                assert(obj_set(ev, pk, m0@) == ev.push((pk, m0@)));
                                lemma_obj_set(ev, pk, m0@);
                                lemma_obj_set_wf_vals(ev, pk, m0@);
                            }
                        },
                    }
                }
                j += 1;
            }
            proof {
                assert(pview.skip(pes@.len() as int) =~= Seq::<(Seq<char>, Tree)>::empty());
                assert(merge_entries(base0, pview) == entries_view(es@));
                lemma_wf_obj_intro(entries_view(es@));
            }
            Value::Obj(es)
        },
        _ => {
            let r = deep_clone(patch);
            proof {
                assert(!(patch@ is Obj));
            }
            r
        },
    }
}

/// Merge a patch document into the accumulator, in place. Merge is total:
/// there is no error path.
pub fn merge(acc: &mut Value, patch: &Value)
    requires
        wf(old(acc)@),
        wf(patch@),
    ensures
        final(acc)@ == merge_spec(old(acc)@, patch@),
        wf(final(acc)@),
{
    let mut cur = Value::Null;
    core::mem::swap(acc, &mut cur);
    let mut merged = merge_value(cur, patch);
    core::mem::swap(acc, &mut merged);
}

} // verus!
