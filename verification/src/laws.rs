//! General properties of the two engines, stated and proved once for all
//! inputs.

use vstd::prelude::*;
use crate::merge::{lemma_merge_entries_props, merge_entries, merge_spec};
use crate::patch::{
    OpView, PatchError, PointerError, add_at, apply_op_spec, remove_at, replace_at, resolve,
};
use crate::pointer::{is_dash, is_prefix_of, tok_index};
use crate::value::{
    Tree, has_key, key_idx, lemma_key_idx, lemma_obj_remove, lemma_obj_set, lemma_wf_arr_elim,
    lemma_wf_obj_elim, obj_get, obj_remove, obj_set, uniq_keys, wf,
};

verus! {

/// Replacing at a path and then replacing again with the same value changes
/// nothing the second time: `Replace` is idempotent.
pub proof fn lemma_replace_twice(t: Tree, p: Seq<Seq<char>>, v: Tree)
    requires
        wf(t),
        wf(v),
    ensures
        match replace_at(t, p, v) {
            Ok(t2) => replace_at(t2, p, v) == Ok::<Tree, PointerError>(t2),
            Err(_) => true,
        },
    decreases p.len(),
{
    if p.len() > 0 {
        match t {
            Tree::Obj(es) => {
                lemma_wf_obj_elim(es);
                if has_key(es, p[0]) {
                    let idx = key_idx(es, p[0]);
                    assert(0 <= idx < es.len() && es[idx].0 == p[0]);
                    if p.len() == 1 {
                        let s2 = obj_set(es, p[0], v);
                        lemma_obj_set(es, p[0], v);
                        lemma_key_idx(s2, p[0], idx);
                        assert(obj_set(s2, p[0], v) =~= s2);
                    } else {
                        let child = obj_get(es, p[0]);
                        assert(wf(child));
                        lemma_replace_twice(child, p.drop_first(), v);
                        match replace_at(child, p.drop_first(), v) {
                            Ok(c2) => {
                                let s2 = obj_set(es, p[0], c2);
                                lemma_obj_set(es, p[0], c2);
                                lemma_key_idx(s2, p[0], idx);
                                assert(obj_set(s2, p[0], c2) =~= s2);
                            },
                            Err(_) => {},
                        }
                    }
                }
            },
            Tree::Arr(a) => {
                lemma_wf_arr_elim(a);
                match tok_index(p[0]) {
                    Some(n) => if 0 <= n < a.len() {
                        if p.len() == 1 {
                            assert(a.update(n, v).update(n, v) =~= a.update(n, v));
                        } else {
                            lemma_replace_twice(a[n], p.drop_first(), v);
                            match replace_at(a[n], p.drop_first(), v) {
                                Ok(c2) => {
                                    assert(a.update(n, c2).update(n, c2) =~= a.update(n, c2));
                                },
                                Err(_) => {},
                            }
                        }
                    },
                    None => {},
                }
            },
            _ => {},
        }
    }
}

/// The location `p` addresses does not yet exist but can be created: its
/// parent resolves to an object lacking the final key, or to an array whose
/// final token is a numeric index of at most its length.
pub open spec fn creates_fresh_slot(t: Tree, p: Seq<Seq<char>>) -> bool {
    p.len() >= 1 && match resolve(t, p.drop_last()) {
        Ok(par) => match par {
            Tree::Obj(pes) => !has_key(pes, p.last()),
            Tree::Arr(a) => match tok_index(p.last()) {
                Some(n) => 0 <= n <= a.len(),
                None => false,
            },
            _ => false,
        },
        Err(_) => false,
    }
}

/// Adding a value at a fresh location and then removing it at the same path
/// restores the original tree exactly, for object keys and numeric array
/// indexes alike.
pub proof fn lemma_add_remove(t: Tree, p: Seq<Seq<char>>, v: Tree)
    requires
        wf(t),
        wf(v),
        creates_fresh_slot(t, p),
    ensures
        match add_at(t, p, v) {
            Ok(t2) => remove_at(t2, p) == Ok::<(Tree, Tree), PointerError>((t, v)),
            Err(_) => false,
        },
    decreases p.len(),
{
    let dl = p.drop_last();
    if p.len() == 1 {
        assert(dl =~= Seq::<Seq<char>>::empty());
        assert(resolve(t, dl) == Ok::<Tree, PointerError>(t));
        match t {
            Tree::Obj(es) => {
                lemma_wf_obj_elim(es);
                let k = p[0];
                assert(p.last() == k);
                assert(!has_key(es, k));
                let s2 = es.push((k, v));
                assert(obj_set(es, k, v) == s2);
                lemma_obj_set(es, k, v);
                lemma_key_idx(s2, k, es.len() as int);
                assert(obj_remove(s2, k) == s2.remove(es.len() as int));
                assert(s2.remove(es.len() as int) =~= es);
                assert(obj_get(s2, k) == v);
            },
            Tree::Arr(a) => {
                let tok = p[0];
                let n = tok_index(tok)->Some_0;
                assert(tok_index(tok) == Some(n) && 0 <= n <= a.len());
                assert(!is_dash(tok)) by {
                    if is_dash(tok) {
                        assert(tok[0] == '-');
                        assert(!crate::pointer::is_digit(tok[0]));
                    }
                }
                let s2 = a.insert(n, v);
                assert(s2[n] == v);
                assert(s2.remove(n) =~= a);
            },
            _ => {},
        }
    } else {
        assert(dl.len() >= 1);
        assert(dl[0] == p[0]);
        assert(dl.drop_first() =~= p.drop_first().drop_last());
        match t {
            Tree::Obj(es) => {
                lemma_wf_obj_elim(es);
                assert(has_key(es, p[0]));
                let idx = key_idx(es, p[0]);
                assert(0 <= idx < es.len() && es[idx].0 == p[0]);
                let child = obj_get(es, p[0]);
                assert(wf(child));
                assert(resolve(child, dl.drop_first()) == resolve(t, dl));
                assert(creates_fresh_slot(child, p.drop_first()));
                lemma_add_remove(child, p.drop_first(), v);
                match add_at(child, p.drop_first(), v) {
                    Ok(c2) => {
                        let s2 = obj_set(es, p[0], c2);
                        lemma_obj_set(es, p[0], c2);
                        lemma_key_idx(s2, p[0], idx);
                        assert(add_at(t, p, v) == Ok::<Tree, PointerError>(Tree::Obj(s2)));
                        assert(remove_at(c2, p.drop_first()) == Ok::<
                            (Tree, Tree),
                            PointerError,
                        >((child, v)));
                        assert(obj_set(s2, p[0], child) =~= es);
                    },
                    Err(_) => {},
                }
            },
            Tree::Arr(a) => {
                lemma_wf_arr_elim(a);
                match tok_index(p[0]) {
                    Some(n) => {
                        assert(0 <= n < a.len());
                        let child = a[n];
                        assert(wf(child));
                        assert(resolve(child, dl.drop_first()) == resolve(t, dl));
                        assert(creates_fresh_slot(child, p.drop_first()));
                        lemma_add_remove(child, p.drop_first(), v);
                        match add_at(child, p.drop_first(), v) {
                            Ok(c2) => {
                                let s2 = a.update(n, c2);
                                assert(add_at(t, p, v) == Ok::<Tree, PointerError>(
                                    Tree::Arr(s2),
                                ));
                                assert(s2.update(n, child) =~= a);
                            },
                            Err(_) => {},
                        }
                    },
                    None => {},
                }
            },
            _ => {},
        }
    }
}

/// Setting the same key twice keeps only the second value.
pub proof fn lemma_obj_set_twice(es: Seq<(Seq<char>, Tree)>, k: Seq<char>, a: Tree, b: Tree)
    requires
        uniq_keys(es),
    ensures
        obj_set(obj_set(es, k, a), k, b) == obj_set(es, k, b),
{
    lemma_obj_set(es, k, a);
    let s1 = obj_set(es, k, a);
    if has_key(es, k) {
        let i = key_idx(es, k);
        assert(0 <= i < es.len() && es[i].0 == k);
        lemma_key_idx(s1, k, i);
        assert(obj_set(s1, k, b) =~= obj_set(es, k, b));
    } else {
        lemma_key_idx(s1, k, es.len() as int);
        assert(obj_set(s1, k, b) =~= obj_set(es, k, b));
    }
}

/// Writes under two different keys land in the same object whichever goes
/// first, when the first key is already present.
pub proof fn lemma_obj_set_commute(
    es: Seq<(Seq<char>, Tree)>,
    kf: Seq<char>,
    c: Tree,
    kp: Seq<char>,
    x: Tree,
)
    requires
        uniq_keys(es),
        kf != kp,
        has_key(es, kf),
    ensures
        obj_set(obj_set(es, kf, c), kp, x) == obj_set(obj_set(es, kp, x), kf, c),
{
    let i_f = key_idx(es, kf);
    assert(0 <= i_f < es.len() && es[i_f].0 == kf);
    lemma_obj_set(es, kf, c);
    let s_f = obj_set(es, kf, c);
    lemma_obj_set(es, kp, x);
    let s_p = obj_set(es, kp, x);
    if has_key(es, kp) {
        let i_p = key_idx(es, kp);
        assert(0 <= i_p < es.len() && es[i_p].0 == kp);
        assert(i_f != i_p);
        lemma_key_idx(s_f, kp, i_p);
        lemma_key_idx(s_p, kf, i_f);
        assert(obj_set(s_f, kp, x) =~= obj_set(s_p, kf, c));
    } else {
        lemma_key_idx(s_p, kf, i_f);
        assert(!has_key(s_f, kp));
        assert(obj_set(s_f, kp, x) =~= obj_set(s_p, kf, c));
    }
}

/// Removing one key and writing under another land in the same object
/// whichever goes first.
pub proof fn lemma_obj_remove_set_commute(
    es: Seq<(Seq<char>, Tree)>,
    kf: Seq<char>,
    kp: Seq<char>,
    x: Tree,
)
    requires
        uniq_keys(es),
        kf != kp,
        has_key(es, kf),
    ensures
        obj_set(obj_remove(es, kf), kp, x) == obj_remove(obj_set(es, kp, x), kf),
{
    let i_f = key_idx(es, kf);
    assert(0 <= i_f < es.len() && es[i_f].0 == kf);
    lemma_obj_remove(es, kf);
    let s_r = obj_remove(es, kf);
    lemma_obj_set(es, kp, x);
    let s_p = obj_set(es, kp, x);
    if has_key(es, kp) {
        let i_p = key_idx(es, kp);
        assert(0 <= i_p < es.len() && es[i_p].0 == kp);
        assert(i_f != i_p);
        lemma_key_idx(s_p, kf, i_f);
        let i_p2: int = if i_p < i_f {
            i_p
        } else {
            i_p - 1
        };
        assert(s_r[i_p2].0 == kp);
        lemma_key_idx(s_r, kp, i_p2);
        assert(obj_set(s_r, kp, x) =~= obj_remove(s_p, kf));
    } else {
        lemma_key_idx(s_p, kf, i_f);
        assert(!has_key(s_r, kp));
        assert(obj_set(s_r, kp, x) =~= obj_remove(s_p, kf));
    }
}

/// Removal hands out exactly the node that resolution finds, and fails
/// exactly where resolution fails.
pub proof fn lemma_remove_resolve(t: Tree, p: Seq<Seq<char>>)
    requires
        wf(t),
        p.len() > 0,
    ensures
        match (remove_at(t, p), resolve(t, p)) {
            (Ok(c), Ok(v)) => c.1 == v,
            (Err(e1), Err(e2)) => e1 == e2,
            _ => false,
        },
    decreases p.len(),
{
    match t {
        Tree::Obj(es) => {
            lemma_wf_obj_elim(es);
            if has_key(es, p[0]) {
                let idx = key_idx(es, p[0]);
                assert(0 <= idx < es.len() && es[idx].0 == p[0]);
                if p.len() > 1 {
                    lemma_remove_resolve(obj_get(es, p[0]), p.drop_first());
                }
            }
        },
        Tree::Arr(a) => {
            lemma_wf_arr_elim(a);
            match tok_index(p[0]) {
                Some(n) => if 0 <= n < a.len() {
                    if p.len() > 1 {
                        lemma_remove_resolve(a[n], p.drop_first());
                    }
                },
                None => {},
            }
        },
        _ => {},
    }
}

/// The tree left by a successful removal.
pub open spec fn rem_rest(t: Tree, p: Seq<Seq<char>>) -> Tree {
    match remove_at(t, p) {
        Ok(c) => c.0,
        Err(_) => t,
    }
}

/// The node taken out by a successful removal.
pub open spec fn rem_taken(t: Tree, p: Seq<Seq<char>>) -> Tree {
    match remove_at(t, p) {
        Ok(c) => c.1,
        Err(_) => Tree::Null,
    }
}

/// The tree left by a successful insertion.
pub open spec fn add_ok(t: Tree, p: Seq<Seq<char>>, v: Tree) -> Tree {
    match add_at(t, p, v) {
        Ok(r) => r,
        Err(_) => t,
    }
}

/// Removing at `from` and inserting at `path` act on disjoint subtrees when
/// the two pointers part ways at an object member, so the two steps
/// commute.
pub proof fn lemma_remove_add_commute(
    t: Tree,
    from: Seq<Seq<char>>,
    path: Seq<Seq<char>>,
    d: int,
    v: Tree,
)
    requires
        wf(t),
        0 <= d < from.len(),
        d < path.len(),
        from.subrange(0, d) == path.subrange(0, d),
        from[d] != path[d],
        (match resolve(t, from.subrange(0, d)) {
            Ok(nd) => nd is Obj,
            _ => false,
        }),
        remove_at(t, from) is Ok,
        add_at(rem_rest(t, from), path, v) is Ok,
    ensures
        add_at(t, path, v) is Ok,
        remove_at(add_ok(t, path, v), from) == Ok::<(Tree, Tree), PointerError>(
            (add_ok(rem_rest(t, from), path, v), rem_taken(t, from)),
        ),
    decreases d,
{
    if d == 0 {
        assert(from.subrange(0, 0) =~= Seq::<Seq<char>>::empty());
        let es = t->Obj_0;
        lemma_wf_obj_elim(es);
        let kf = from[0];
        let kp = path[0];
        assert(has_key(es, kf));
        let i_f = key_idx(es, kf);
        assert(0 <= i_f < es.len() && es[i_f].0 == kf);
        // the entries after the removal step, and what it took out
        let es1: Seq<(Seq<char>, Tree)> = if from.len() == 1 {
            obj_remove(es, kf)
        } else {
            obj_set(es, kf, rem_rest(obj_get(es, kf), from.drop_first()))
        };
        if from.len() == 1 {
            lemma_obj_remove(es, kf);
        } else {
            lemma_obj_set(es, kf, rem_rest(obj_get(es, kf), from.drop_first()));
        }
        assert(rem_rest(t, from) == Tree::Obj(es1));
        assert(has_key(es1, kp) == has_key(es, kp));
        if has_key(es, kp) {
            assert(obj_get(es1, kp) == obj_get(es, kp));
        }
        // the value the insertion writes under kp, the same on both sides
        if path.len() == 1 {
            assert(add_at(Tree::Obj(es1), path, v) == Ok::<Tree, PointerError>(
                Tree::Obj(obj_set(es1, kp, v)),
            ));
            assert(add_at(t, path, v) == Ok::<Tree, PointerError>(Tree::Obj(obj_set(es, kp, v))));
            let sa = obj_set(es, kp, v);
            lemma_obj_set(es, kp, v);
            lemma_key_idx(sa, kf, i_f);
            assert(has_key(sa, kf) && obj_get(sa, kf) == obj_get(es, kf));
            if from.len() == 1 {
                lemma_obj_remove_set_commute(es, kf, kp, v);
                assert(remove_at(Tree::Obj(sa), from) == Ok::<(Tree, Tree), PointerError>(
                    (Tree::Obj(obj_remove(sa, kf)), obj_get(sa, kf)),
                ));
            } else {
                let cf = rem_rest(obj_get(es, kf), from.drop_first());
                lemma_obj_set_commute(es, kf, cf, kp, v);
                assert(remove_at(obj_get(sa, kf), from.drop_first()) == remove_at(
                    obj_get(es, kf),
                    from.drop_first(),
                ));
            }
        } else {
            assert(has_key(es1, kp));
            let cp = obj_get(es, kp);
            assert(add_at(cp, path.drop_first(), v) is Ok);
            let cp2 = add_ok(cp, path.drop_first(), v);
            assert(add_at(Tree::Obj(es1), path, v) == Ok::<Tree, PointerError>(
                Tree::Obj(obj_set(es1, kp, cp2)),
            ));
            assert(add_at(t, path, v) == Ok::<Tree, PointerError>(
                Tree::Obj(obj_set(es, kp, cp2)),
            ));
            let sa = obj_set(es, kp, cp2);
            lemma_obj_set(es, kp, cp2);
            lemma_key_idx(sa, kf, i_f);
            assert(has_key(sa, kf) && obj_get(sa, kf) == obj_get(es, kf));
            if from.len() == 1 {
                lemma_obj_remove_set_commute(es, kf, kp, cp2);
            } else {
                let cf = rem_rest(obj_get(es, kf), from.drop_first());
                lemma_obj_set_commute(es, kf, cf, kp, cp2);
            }
        }
    } else {
        let k0 = from[0];
        assert(from.subrange(0, d)[0] == from[0] && path.subrange(0, d)[0] == path[0]);
        assert(path[0] == k0);
        let from2 = from.drop_first();
        let path2 = path.drop_first();
        assert(from2.subrange(0, d - 1) =~= from.subrange(0, d).drop_first());
        assert(path2.subrange(0, d - 1) =~= path.subrange(0, d).drop_first());
        assert(from2.subrange(0, d - 1) == path2.subrange(0, d - 1));
        assert(from2[d - 1] == from[d] && path2[d - 1] == path[d]);
        match t {
            Tree::Obj(es) => {
                lemma_wf_obj_elim(es);
                assert(has_key(es, k0));
                let i0 = key_idx(es, k0);
                assert(0 <= i0 < es.len() && es[i0].0 == k0);
                let child = obj_get(es, k0);
                assert(wf(child));
                assert(resolve(child, from2.subrange(0, d - 1)) == resolve(
                    t,
                    from.subrange(0, d),
                ));
                assert(remove_at(child, from2) is Ok);
                let c1 = rem_rest(child, from2);
                let rv = rem_taken(child, from2);
                let es1 = obj_set(es, k0, c1);
                assert(rem_rest(t, from) == Tree::Obj(es1));
                assert(rem_taken(t, from) == rv);
                lemma_obj_set(es, k0, c1);
                lemma_key_idx(es1, k0, i0);
                assert(has_key(es1, k0) && obj_get(es1, k0) == c1);
                assert(add_at(Tree::Obj(es1), path, v) is Ok);
                assert(add_at(c1, path2, v) is Ok);
                let m1 = add_ok(c1, path2, v);
                assert(add_at(Tree::Obj(es1), path, v) == Ok::<Tree, PointerError>(
                    Tree::Obj(obj_set(es1, k0, m1)),
                ));
                lemma_remove_add_commute(child, from2, path2, d - 1, v);
                let ca = add_ok(child, path2, v);
                assert(add_at(t, path, v) == Ok::<Tree, PointerError>(
                    Tree::Obj(obj_set(es, k0, ca)),
                ));
                let sa = obj_set(es, k0, ca);
                lemma_obj_set(es, k0, ca);
                lemma_key_idx(sa, k0, i0);
                assert(has_key(sa, k0) && obj_get(sa, k0) == ca);
                assert(remove_at(ca, from2) == Ok::<(Tree, Tree), PointerError>((m1, rv)));
                assert(remove_at(Tree::Obj(sa), from) == Ok::<(Tree, Tree), PointerError>(
                    (Tree::Obj(obj_set(sa, k0, m1)), rv),
                ));
                lemma_obj_set_twice(es, k0, ca, m1);
                lemma_obj_set_twice(es, k0, c1, m1);
            },
            Tree::Arr(a) => {
                lemma_wf_arr_elim(a);
                let n = tok_index(k0)->Some_0;
                assert(tok_index(k0) == Some(n) && 0 <= n < a.len());
                let child = a[n];
                assert(wf(child));
                assert(resolve(child, from2.subrange(0, d - 1)) == resolve(
                    t,
                    from.subrange(0, d),
                ));
                assert(remove_at(child, from2) is Ok);
                let c1 = rem_rest(child, from2);
                let rv = rem_taken(child, from2);
                assert(rem_rest(t, from) == Tree::Arr(a.update(n, c1)));
                assert(rem_taken(t, from) == rv);
                assert(a.update(n, c1)[n] == c1);
                assert(add_at(c1, path2, v) is Ok);
                let m1 = add_ok(c1, path2, v);
                assert(add_at(Tree::Arr(a.update(n, c1)), path, v) == Ok::<Tree, PointerError>(
                    Tree::Arr(a.update(n, c1).update(n, m1)),
                ));
                lemma_remove_add_commute(child, from2, path2, d - 1, v);
                let ca = add_ok(child, path2, v);
                assert(add_at(t, path, v) == Ok::<Tree, PointerError>(
                    Tree::Arr(a.update(n, ca)),
                ));
                assert(a.update(n, ca)[n] == ca);
                assert(remove_at(ca, from2) == Ok::<(Tree, Tree), PointerError>((m1, rv)));
                assert(remove_at(Tree::Arr(a.update(n, ca)), from) == Ok::<
                    (Tree, Tree),
                    PointerError,
                >((Tree::Arr(a.update(n, ca).update(n, m1)), rv)));
                assert(a.update(n, ca).update(n, m1) =~= a.update(n, c1).update(n, m1));
            },
            _ => {},
        }
    }
}

/// The result of copying `from` to `path` and then removing `from`.
pub open spec fn copy_remove_result(
    t: Tree,
    from: Seq<Seq<char>>,
    path: Seq<Seq<char>>,
) -> Result<Tree, PatchError> {
    match apply_op_spec(t, OpView::Copy { from, path }) {
        Ok(t2) => apply_op_spec(t2, OpView::Remove { path: from }),
        Err(e) => Err(e),
    }
}

/// When the destination parts ways from the source at an object member, a
/// successful move produces exactly what a copy followed by removing the
/// source produces.
pub proof fn lemma_move_is_copy_plus_remove(
    t: Tree,
    from: Seq<Seq<char>>,
    path: Seq<Seq<char>>,
    d: int,
)
    requires
        wf(t),
        0 <= d < from.len(),
        d < path.len(),
        from.subrange(0, d) == path.subrange(0, d),
        from[d] != path[d],
        (match resolve(t, from.subrange(0, d)) {
            Ok(nd) => nd is Obj,
            _ => false,
        }),
    ensures
        match apply_op_spec(t, OpView::Move { from, path }) {
            Ok(m) => copy_remove_result(t, from, path) == Ok::<Tree, PatchError>(m),
            Err(_) => true,
        },
{
    assert(!is_prefix_of(from, path)) by {
        if is_prefix_of(from, path) {
            assert(from[d] == path[d]);
        }
    }
    match apply_op_spec(t, OpView::Move { from, path }) {
        Ok(m) => {
            assert(remove_at(t, from) is Ok);
            let rv = rem_taken(t, from);
            assert(add_at(rem_rest(t, from), path, rv) == Ok::<Tree, PointerError>(m));
            lemma_remove_add_commute(t, from, path, d, rv);
            lemma_remove_resolve(t, from);
            assert(resolve(t, from) == Ok::<Tree, PointerError>(rv));
            assert(apply_op_spec(t, OpView::Copy { from, path }) == Ok::<Tree, PatchError>(
                add_ok(t, path, rv),
            ));
            assert(remove_at(add_ok(t, path, rv), from) == Ok::<(Tree, Tree), PointerError>(
                (m, rv),
            ));
        },
        Err(_) => {},
    }
}

/// A move whose destination is the source itself or a descendant of it is
/// rejected with `InvalidMove`, before any mutation.
pub proof fn lemma_move_cycle_rejected(t: Tree, from: Seq<Seq<char>>, path: Seq<Seq<char>>)
    requires
        is_prefix_of(from, path),
    ensures
        apply_op_spec(t, OpView::Move { from, path }) == Err::<Tree, PatchError>(
            PatchError::InvalidMove,
        ),
{
}

/// A test operation never changes the tree, whether it passes or fails.
pub proof fn lemma_test_never_mutates(t: Tree, path: Seq<Seq<char>>, value: Tree)
    ensures
        match apply_op_spec(t, OpView::Test { path, value }) {
            Ok(u) => u == t,
            Err(_) => true,
        },
{
}

/// What an object tree holds under a key.
pub open spec fn obj_lookup(t: Tree, k: Seq<char>) -> Option<Tree> {
    match t {
        Tree::Obj(es) => if has_key(es, k) {
            Some(obj_get(es, k))
        } else {
            None
        },
        _ => None,
    }
}

/// Merging is right-biased per key: folding two object patches into an
/// object accumulator, a key's outcome is decided by the rightmost document
/// that mentions it — null deletes the key, a non-null non-object value
/// replaces it outright, and unmentioned keys come through from the left.
pub proof fn lemma_merge_right_biased(a: Tree, b: Tree, c: Tree, k: Seq<char>)
    requires
        wf(a),
        wf(b),
        wf(c),
        a is Obj,
        b is Obj,
        c is Obj,
    ensures
        obj_lookup(c, k) == Some(Tree::Null) ==> obj_lookup(merge_spec(merge_spec(a, b), c), k)
            is None,
        obj_lookup(c, k) is Some && !(obj_lookup(c, k)->Some_0 is Null) && !(obj_lookup(
            c,
            k,
        )->Some_0 is Obj) ==> obj_lookup(merge_spec(merge_spec(a, b), c), k) == obj_lookup(c, k),
        obj_lookup(c, k) is None && obj_lookup(b, k) == Some(Tree::Null) ==> obj_lookup(
            merge_spec(merge_spec(a, b), c),
            k,
        ) is None,
        obj_lookup(c, k) is None && obj_lookup(b, k) is Some && !(obj_lookup(b, k)->Some_0
            is Null) && !(obj_lookup(b, k)->Some_0 is Obj) ==> obj_lookup(
            merge_spec(merge_spec(a, b), c),
            k,
        ) == obj_lookup(b, k),
        obj_lookup(c, k) is None && obj_lookup(b, k) is None ==> obj_lookup(
            merge_spec(merge_spec(a, b), c),
            k,
        ) == obj_lookup(a, k),
{
    let ae = a->Obj_0;
    let be = b->Obj_0;
    let ce = c->Obj_0;
    lemma_wf_obj_elim(ae);
    lemma_wf_obj_elim(be);
    lemma_wf_obj_elim(ce);
    let m1 = merge_entries(ae, be);
    lemma_merge_entries_props(ae, be);
    assert(merge_spec(a, b) == Tree::Obj(m1));
    let m2 = merge_entries(m1, ce);
    lemma_merge_entries_props(m1, ce);
    assert(merge_spec(Tree::Obj(m1), c) == Tree::Obj(m2));
}

/// Merging a non-object patch replaces the whole target node, whatever the
/// target was.
pub proof fn lemma_merge_non_object(a: Tree, p: Tree)
    requires
        !(p is Obj),
    ensures
        merge_spec(a, p) == p,
{
}

} // verus!
