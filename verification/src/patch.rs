//! The patch engine: applies an ordered list of operations to a tree,
//! operation by operation, stopping at the first failure.

use vstd::prelude::*;
use crate::pointer::{
    Pointer, is_dash, is_prefix_of, is_dash_token, pointer_is_prefix, tok_index, tok_to_index,
};
use crate::value::{
    Tree, Value, arr_view, deep_clone, deep_eq, entries_view, has_key, key_idx,
    lemma_arr_view_insert, lemma_arr_view_push, lemma_arr_view_remove, lemma_arr_view_update,
    lemma_entries_view_push, lemma_entries_view_remove, lemma_entries_view_update, lemma_key_idx,
    lemma_obj_remove, lemma_obj_remove_wf_vals, lemma_obj_set, lemma_obj_set_wf_vals,
    lemma_seq_remove_insert, lemma_wf_arr_elim, lemma_wf_arr_intro, lemma_wf_obj_elim,
    lemma_wf_obj_intro, obj_find, obj_get, obj_remove, obj_set, teq, uniq_keys, wf,
};

verus! {

broadcast use
    crate::value::lemma_arr_view_push,
    crate::value::lemma_arr_view_update,
    crate::value::lemma_arr_view_insert,
    crate::value::lemma_arr_view_remove,
    crate::value::lemma_entries_view_push,
    crate::value::lemma_entries_view_update,
    crate::value::lemma_entries_view_insert,
    crate::value::lemma_entries_view_remove;

/// Why a pointer failed to resolve.
#[derive(Clone, Copy, Debug, PartialEq, Eq, Structural)]
pub enum PointerError {
    InvalidIndex,
    NotAContainer,
    KeyNotFound,
}

/// Why an operation failed.
#[derive(Clone, Copy, Debug, PartialEq, Eq, Structural)]
pub enum PatchError {
    TestFailed,
    InvalidMove,
    Pointer(PointerError),
}

/// One step of a patch sequence.
pub enum Operation {
    Add { path: Pointer, value: Value },
    Remove { path: Pointer },
    Replace { path: Pointer, value: Value },
    Move { from: Pointer, path: Pointer },
    Copy { from: Pointer, path: Pointer },
    Test { path: Pointer, value: Value },
}

/// The ghost form of one operation.
pub enum OpView {
    Add { path: Seq<Seq<char>>, value: Tree },
    Remove { path: Seq<Seq<char>> },
    Replace { path: Seq<Seq<char>>, value: Tree },
    Move { from: Seq<Seq<char>>, path: Seq<Seq<char>> },
    Copy { from: Seq<Seq<char>>, path: Seq<Seq<char>> },
    Test { path: Seq<Seq<char>>, value: Tree },
}

impl View for Operation {
    type V = OpView;

    open spec fn view(&self) -> OpView {
        match self {
            Operation::Add { path, value } => OpView::Add { path: path@, value: value@ },
            Operation::Remove { path } => OpView::Remove { path: path@ },
            Operation::Replace { path, value } => OpView::Replace { path: path@, value: value@ },
            Operation::Move { from, path } => OpView::Move { from: from@, path: path@ },
            Operation::Copy { from, path } => OpView::Copy { from: from@, path: path@ },
            Operation::Test { path, value } => OpView::Test { path: path@, value: value@ },
        }
    }
}

/// The carried value of an operation is well formed.
pub open spec fn op_wf(op: OpView) -> bool {
    match op {
        OpView::Add { path, value } => wf(value),
        OpView::Replace { path, value } => wf(value),
        OpView::Test { path, value } => wf(value),
        _ => true,
    }
}

/// Resolve a pointer to the existing node it addresses.
pub open spec fn resolve(t: Tree, p: Seq<Seq<char>>) -> Result<Tree, PointerError>
    decreases p.len(),
{
    if p.len() == 0 {
        Ok(t)
    } else {
        match t {
            Tree::Obj(es) => if has_key(es, p[0]) {
                resolve(obj_get(es, p[0]), p.drop_first())
            } else {
                Err(PointerError::KeyNotFound)
            },
            Tree::Arr(a) => match tok_index(p[0]) {
                Some(n) => if 0 <= n < a.len() {
                    resolve(a[n], p.drop_first())
                } else {
                    Err(PointerError::InvalidIndex)
                },
                None => Err(PointerError::InvalidIndex),
            },
            _ => Err(PointerError::NotAContainer),
        }
    }
}

/// Insert `v` at the location `p` addresses: replace the whole tree at the
/// root, set or overwrite an object key, insert into an array shifting later
/// elements right, or append for `-`.
pub open spec fn add_at(t: Tree, p: Seq<Seq<char>>, v: Tree) -> Result<Tree, PointerError>
    decreases p.len(),
{
    if p.len() == 0 {
        Ok(v)
    } else {
        match t {
            Tree::Obj(es) => if p.len() == 1 {
                Ok(Tree::Obj(obj_set(es, p[0], v)))
            } else if has_key(es, p[0]) {
                match add_at(obj_get(es, p[0]), p.drop_first(), v) {
                    Ok(c) => Ok(Tree::Obj(obj_set(es, p[0], c))),
                    Err(e) => Err(e),
                }
            } else {
                Err(PointerError::KeyNotFound)
            },
            Tree::Arr(a) => if p.len() == 1 {
                if is_dash(p[0]) {
                    Ok(Tree::Arr(a.push(v)))
                } else {
                    match tok_index(p[0]) {
                        Some(n) => if 0 <= n <= a.len() {
                            Ok(Tree::Arr(a.insert(n, v)))
                        } else {
                            Err(PointerError::InvalidIndex)
                        },
                        None => Err(PointerError::InvalidIndex),
                    }
                }
            } else {
                match tok_index(p[0]) {
                    Some(n) => if 0 <= n < a.len() {
                        match add_at(a[n], p.drop_first(), v) {
                            Ok(c) => Ok(Tree::Arr(a.update(n, c))),
                            Err(e) => Err(e),
                        }
                    } else {
                        Err(PointerError::InvalidIndex)
                    },
                    None => Err(PointerError::InvalidIndex),
                }
            },
            _ => Err(PointerError::NotAContainer),
        }
    }
}

/// Delete the existing node `p` addresses, yielding the remaining tree and
/// the removed node. The root itself has no parent and cannot be removed.
pub open spec fn remove_at(t: Tree, p: Seq<Seq<char>>) -> Result<(Tree, Tree), PointerError>
    decreases p.len(),
{
    if p.len() == 0 {
        Err(PointerError::NotAContainer)
    } else {
        match t {
            Tree::Obj(es) => if has_key(es, p[0]) {
                if p.len() == 1 {
                    Ok((Tree::Obj(obj_remove(es, p[0])), obj_get(es, p[0])))
                } else {
                    match remove_at(obj_get(es, p[0]), p.drop_first()) {
                        Ok(c) => Ok((Tree::Obj(obj_set(es, p[0], c.0)), c.1)),
                        Err(e) => Err(e),
                    }
                }
            } else {
                Err(PointerError::KeyNotFound)
            },
            Tree::Arr(a) => match tok_index(p[0]) {
                Some(n) => if 0 <= n < a.len() {
                    if p.len() == 1 {
                        Ok((Tree::Arr(a.remove(n)), a[n]))
                    } else {
                        match remove_at(a[n], p.drop_first()) {
                            Ok(c) => Ok((Tree::Arr(a.update(n, c.0)), c.1)),
                            Err(e) => Err(e),
                        }
                    }
                } else {
                    Err(PointerError::InvalidIndex)
                },
                None => Err(PointerError::InvalidIndex),
            },
            _ => Err(PointerError::NotAContainer),
        }
    }
}

/// Overwrite the existing node `p` addresses with `v`; unlike `add_at` it
/// never creates a location.
pub open spec fn replace_at(t: Tree, p: Seq<Seq<char>>, v: Tree) -> Result<Tree, PointerError>
    decreases p.len(),
{
    if p.len() == 0 {
        Ok(v)
    } else {
        match t {
            Tree::Obj(es) => if has_key(es, p[0]) {
                if p.len() == 1 {
                    Ok(Tree::Obj(obj_set(es, p[0], v)))
                } else {
                    match replace_at(obj_get(es, p[0]), p.drop_first(), v) {
                        Ok(c) => Ok(Tree::Obj(obj_set(es, p[0], c))),
                        Err(e) => Err(e),
                    }
                }
            } else {
                Err(PointerError::KeyNotFound)
            },
            Tree::Arr(a) => match tok_index(p[0]) {
                Some(n) => if 0 <= n < a.len() {
                    if p.len() == 1 {
                        Ok(Tree::Arr(a.update(n, v)))
                    } else {
                        match replace_at(a[n], p.drop_first(), v) {
                            Ok(c) => Ok(Tree::Arr(a.update(n, c))),
                            Err(e) => Err(e),
                        }
                    }
                } else {
                    Err(PointerError::InvalidIndex)
                },
                None => Err(PointerError::InvalidIndex),
            },
            _ => Err(PointerError::NotAContainer),
        }
    }
}

/// A resolved subtree of a well-formed tree is well formed.
pub proof fn lemma_resolve_wf(t: Tree, p: Seq<Seq<char>>)
    requires
        wf(t),
    ensures
        match resolve(t, p) {
            Ok(v) => wf(v),
            Err(_) => true,
        },
    decreases p.len(),
{
    if p.len() > 0 {
        match t {
            Tree::Obj(es) => {
                if has_key(es, p[0]) {
                    lemma_wf_obj_elim(es);
                    let idx = key_idx(es, p[0]);
                    assert(0 <= idx < es.len() && es[idx].0 == p[0]);
                    lemma_resolve_wf(obj_get(es, p[0]), p.drop_first());
                }
            },
            Tree::Arr(a) => {
                match tok_index(p[0]) {
                    Some(n) => if 0 <= n < a.len() {
                        lemma_wf_arr_elim(a);
                        lemma_resolve_wf(a[n], p.drop_first());
                    },
                    None => {},
                }
            },
            _ => {},
        }
    }
}

/// Inserting a well-formed value into a well-formed tree keeps it well
/// formed.
pub proof fn lemma_add_at_wf(t: Tree, p: Seq<Seq<char>>, v: Tree)
    requires
        wf(t),
        wf(v),
    ensures
        match add_at(t, p, v) {
            Ok(r) => wf(r),
            Err(_) => true,
        },
    decreases p.len(),
{
    if p.len() > 0 {
        match t {
            Tree::Obj(es) => {
                lemma_wf_obj_elim(es);
                if p.len() == 1 {
                    lemma_obj_set(es, p[0], v);
                    lemma_obj_set_wf_vals(es, p[0], v);
                    lemma_wf_obj_intro(obj_set(es, p[0], v));
                } else if has_key(es, p[0]) {
                    let idx = key_idx(es, p[0]);
                    assert(0 <= idx < es.len() && es[idx].0 == p[0]);
                    lemma_add_at_wf(obj_get(es, p[0]), p.drop_first(), v);
                    match add_at(obj_get(es, p[0]), p.drop_first(), v) {
                        Ok(c) => {
                            lemma_obj_set(es, p[0], c);
                            lemma_obj_set_wf_vals(es, p[0], c);
                            lemma_wf_obj_intro(obj_set(es, p[0], c));
                        },
                        Err(_) => {},
                    }
                }
            },
            Tree::Arr(a) => {
                lemma_wf_arr_elim(a);
                if p.len() == 1 {
                    if is_dash(p[0]) {
                        let s2 = a.push(v);
                        assert forall|i: int| 0 <= i < s2.len() implies wf(#[trigger] s2[i]) by {
                            if i < a.len() {
                                assert(s2[i] == a[i]);
                            } else {
                                assert(s2[i] == v);
                            }
                        }
                        lemma_wf_arr_intro(s2);
                    } else {
                        match tok_index(p[0]) {
                            Some(n) => if 0 <= n <= a.len() {
                                let s2 = a.insert(n, v);
                                assert forall|i: int| 0 <= i < s2.len() implies wf(
                                    #[trigger] s2[i],
                                ) by {
                                    if i < n {
                                        assert(s2[i] == a[i]);
                                    } else if i == n {
                                        assert(s2[i] == v);
                                    } else {
                                        assert(s2[i] == a[i - 1]);
                                    }
                                }
                                lemma_wf_arr_intro(s2);
                            },
                            None => {},
                        }
                    }
                } else {
                    match tok_index(p[0]) {
                        Some(n) => if 0 <= n < a.len() {
                            lemma_add_at_wf(a[n], p.drop_first(), v);
                            match add_at(a[n], p.drop_first(), v) {
                                Ok(c) => {
                                    let s2 = a.update(n, c);
                                    assert forall|i: int| 0 <= i < s2.len() implies wf(
                                        #[trigger] s2[i],
                                    ) by {
                                        if i != n {
                                            assert(s2[i] == a[i]);
                                        }
                                    }
                                    lemma_wf_arr_intro(s2);
                                },
                                Err(_) => {},
                            }
                        },
                        None => {},
                    }
                }
            },
            _ => {},
        }
    }
}

/// Removing from a well-formed tree leaves both the remaining tree and the
/// removed node well formed.
pub proof fn lemma_remove_at_wf(t: Tree, p: Seq<Seq<char>>)
    requires
        wf(t),
    ensures
        match remove_at(t, p) {
            Ok(c) => wf(c.0) && wf(c.1),
            Err(_) => true,
        },
    decreases p.len(),
{
    if p.len() > 0 {
        match t {
            Tree::Obj(es) => {
                lemma_wf_obj_elim(es);
                if has_key(es, p[0]) {
                    let idx = key_idx(es, p[0]);
                    assert(0 <= idx < es.len() && es[idx].0 == p[0]);
                    if p.len() == 1 {
                        lemma_obj_remove(es, p[0]);
                        lemma_obj_remove_wf_vals(es, p[0]);
                        lemma_wf_obj_intro(obj_remove(es, p[0]));
                    } else {
                        lemma_remove_at_wf(obj_get(es, p[0]), p.drop_first());
                        match remove_at(obj_get(es, p[0]), p.drop_first()) {
                            Ok(c) => {
                                lemma_obj_set(es, p[0], c.0);
                                lemma_obj_set_wf_vals(es, p[0], c.0);
                                lemma_wf_obj_intro(obj_set(es, p[0], c.0));
                            },
                            Err(_) => {},
                        }
                    }
                }
            },
            Tree::Arr(a) => {
                lemma_wf_arr_elim(a);
                match tok_index(p[0]) {
                    Some(n) => if 0 <= n < a.len() {
                        if p.len() == 1 {
                            let s2 = a.remove(n);
                            assert forall|i: int| 0 <= i < s2.len() implies wf(
                                #[trigger] s2[i],
                            ) by {
                                if i < n {
                                    assert(s2[i] == a[i]);
                                } else {
                                    assert(s2[i] == a[i + 1]);
                                }
                            }
                            lemma_wf_arr_intro(s2);
                        } else {
                            lemma_remove_at_wf(a[n], p.drop_first());
                            match remove_at(a[n], p.drop_first()) {
                                Ok(c) => {
                                    let s2 = a.update(n, c.0);
                                    assert forall|i: int| 0 <= i < s2.len() implies wf(
                                        #[trigger] s2[i],
                                    ) by {
                                        if i != n {
                                            assert(s2[i] == a[i]);
                                        }
                                    }
                                    lemma_wf_arr_intro(s2);
                                },
                                Err(_) => {},
                            }
                        }
                    },
                    None => {},
                }
            },
            _ => {},
        }
    }
}

/// Replacing inside a well-formed tree with a well-formed value keeps it
/// well formed.
pub proof fn lemma_replace_at_wf(t: Tree, p: Seq<Seq<char>>, v: Tree)
    requires
        wf(t),
        wf(v),
    ensures
        match replace_at(t, p, v) {
            Ok(r) => wf(r),
            Err(_) => true,
        },
    decreases p.len(),
{
    if p.len() > 0 {
        match t {
            Tree::Obj(es) => {
                lemma_wf_obj_elim(es);
                if has_key(es, p[0]) {
                    let idx = key_idx(es, p[0]);
                    assert(0 <= idx < es.len() && es[idx].0 == p[0]);
                    let c = if p.len() == 1 {
                        Ok(v)
                    } else {
                        replace_at(obj_get(es, p[0]), p.drop_first(), v)
                    };
                    if p.len() > 1 {
                        lemma_replace_at_wf(obj_get(es, p[0]), p.drop_first(), v);
                    }
                    match c {
                        Ok(cv) => {
                            lemma_obj_set(es, p[0], cv);
                            lemma_obj_set_wf_vals(es, p[0], cv);
                            lemma_wf_obj_intro(obj_set(es, p[0], cv));
                        },
                        Err(_) => {},
                    }
                }
            },
            Tree::Arr(a) => {
                lemma_wf_arr_elim(a);
                match tok_index(p[0]) {
                    Some(n) => if 0 <= n < a.len() {
                        let c = if p.len() == 1 {
                            Ok(v)
                        } else {
                            replace_at(a[n], p.drop_first(), v)
                        };
                        if p.len() > 1 {
                            lemma_replace_at_wf(a[n], p.drop_first(), v);
                        }
                        match c {
                            Ok(cv) => {
                                let s2 = a.update(n, cv);
                                assert forall|i: int| 0 <= i < s2.len() implies wf(
                                    #[trigger] s2[i],
                                ) by {
                                    if i != n {
                                        assert(s2[i] == a[i]);
                                    }
                                }
                                lemma_wf_arr_intro(s2);
                            },
                            Err(_) => {},
                        }
                    },
                    None => {},
                }
            },
            _ => {},
        }
    }
}

/// A successful operation on a well-formed tree yields a well-formed tree.
pub proof fn lemma_apply_op_wf(t: Tree, op: OpView)
    requires
        wf(t),
        op_wf(op),
    ensures
        match apply_op_spec(t, op) {
            Ok(r) => wf(r),
            Err(_) => true,
        },
{
    match op {
        OpView::Add { path, value } => {
            lemma_add_at_wf(t, path, value);
        },
        OpView::Remove { path } => {
            lemma_remove_at_wf(t, path);
        },
        OpView::Replace { path, value } => {
            lemma_replace_at_wf(t, path, value);
        },
        OpView::Move { from, path } => {
            lemma_remove_at_wf(t, from);
            match remove_at(t, from) {
                Ok(c) => {
                    lemma_add_at_wf(c.0, path, c.1);
                },
                Err(_) => {},
            }
        },
        OpView::Copy { from, path } => {
            lemma_resolve_wf(t, from);
            match resolve(t, from) {
                Ok(v) => {
                    lemma_add_at_wf(t, path, v);
                },
                Err(_) => {},
            }
        },
        OpView::Test { path, value } => {},
    }
}

/// The outcome of one operation: the new tree, or an error with the tree
/// untouched.
pub open spec fn apply_op_spec(t: Tree, op: OpView) -> Result<Tree, PatchError> {
    match op {
        OpView::Add { path, value } => match add_at(t, path, value) {
            Ok(r) => Ok(r),
            Err(e) => Err(PatchError::Pointer(e)),
        },
        OpView::Remove { path } => match remove_at(t, path) {
            Ok(c) => Ok(c.0),
            Err(e) => Err(PatchError::Pointer(e)),
        },
        OpView::Replace { path, value } => match replace_at(t, path, value) {
            Ok(r) => Ok(r),
            Err(e) => Err(PatchError::Pointer(e)),
        },
        OpView::Move { from, path } => if is_prefix_of(from, path) {
            Err(PatchError::InvalidMove)
        } else {
            match remove_at(t, from) {
                Ok(c) => match add_at(c.0, path, c.1) {
                    Ok(r) => Ok(r),
                    Err(e) => Err(PatchError::Pointer(e)),
                },
                Err(e) => Err(PatchError::Pointer(e)),
            }
        },
        OpView::Copy { from, path } => match resolve(t, from) {
            Ok(v) => match add_at(t, path, v) {
                Ok(r) => Ok(r),
                Err(e) => Err(PatchError::Pointer(e)),
            },
            Err(e) => Err(PatchError::Pointer(e)),
        },
        OpView::Test { path, value } => match resolve(t, path) {
            Ok(v) => if teq(v, value) {
                Ok(t)
            } else {
                Err(PatchError::TestFailed)
            },
            Err(e) => Err(PatchError::Pointer(e)),
        },
    }
}

/// The outcome of a whole operation list: the final tree, or the index and
/// error of the first failing operation together with the tree as the
/// successful prefix left it.
pub enum RunOut {
    Done(Tree),
    Fail(Tree, int, PatchError),
}

pub open spec fn run_ops(t: Tree, ops: Seq<OpView>) -> RunOut
    decreases ops.len(),
{
    if ops.len() == 0 {
        RunOut::Done(t)
    } else {
        match apply_op_spec(t, ops[0]) {
            Ok(t2) => match run_ops(t2, ops.drop_first()) {
                RunOut::Done(r) => RunOut::Done(r),
                RunOut::Fail(u, i, e) => RunOut::Fail(u, i + 1, e),
            },
            Err(e) => RunOut::Fail(t, 0, e),
        }
    }
}

/// Resolve a pointer suffix against a subtree, read-only.
fn ex_resolve<'a>(t: &'a Value, ptr: &Pointer, i: usize) -> (r: Result<&'a Value, PointerError>)
    requires
        wf(t@),
        i <= ptr@.len(),
    ensures
        match r {
            Ok(v) => resolve(t@, ptr@.skip(i as int)) == Ok::<Tree, PointerError>(v@),
            Err(e) => resolve(t@, ptr@.skip(i as int)) == Err::<Tree, PointerError>(e),
        },
    decreases ptr@.len() - i,
{
    let ghost p = ptr@.skip(i as int);
    if i == ptr.tokens.len() {
        proof {
            assert(p =~= Seq::<Seq<char>>::empty());
        }
        return Ok(t);
    }
    proof {
        assert(p[0] == ptr.tokens@[i as int]@);
        assert(p.drop_first() =~= ptr@.skip(i as int + 1));
    }
    match t {
        Value::Obj(es) => {
            let ghost ev = entries_view(es@);
            proof {
                lemma_wf_obj_elim(ev);
            }
            match obj_find(es, &ptr.tokens[i]) {
                Some(j) => {
                    proof {
                        lemma_key_idx(ev, p[0], j as int);
                    }
                    ex_resolve(&es[j].1, ptr, i + 1)
                },
                None => Err(PointerError::KeyNotFound),
            }
        },
        Value::Arr(a) => {
            let ghost av = arr_view(a@);
            proof {
                lemma_wf_arr_elim(av);
            }
            match tok_to_index(&ptr.tokens[i], a.len()) {
                Some(n) => {
                    if n == a.len() {
                        Err(PointerError::InvalidIndex)
                    } else {
                        ex_resolve(&a[n], ptr, i + 1)
                    }
                },
                None => Err(PointerError::InvalidIndex),
            }
        },
        Value::Null => Err(PointerError::NotAContainer),
        Value::Bool(_) => Err(PointerError::NotAContainer),
        Value::Int(_) => Err(PointerError::NotAContainer),
        Value::Str(_) => Err(PointerError::NotAContainer),
    }
}

/// Insert `v` at the pointer suffix; on failure the tree comes back
/// untouched.
fn ex_add(t: Value, ptr: &Pointer, i: usize, v: Value) -> (r: Result<Value, (PointerError, Value)>)
    requires
        wf(t@),
        i <= ptr@.len(),
    ensures
        match r {
            Ok(out) => add_at(t@, ptr@.skip(i as int), v@) == Ok::<Tree, PointerError>(out@),
            Err(e) => add_at(t@, ptr@.skip(i as int), v@) == Err::<Tree, PointerError>(e.0) && e.1@
                == t@,
        },
    decreases ptr@.len() - i,
{
    let ghost p = ptr@.skip(i as int);
    if i == ptr.tokens.len() {
        proof {
            assert(p =~= Seq::<Seq<char>>::empty());
        }
        return Ok(v);
    }
    proof {
        assert(p[0] == ptr.tokens@[i as int]@);
        assert(p.drop_first() =~= ptr@.skip(i as int + 1));
    }
    let last = i + 1 == ptr.tokens.len();
    proof {
        assert(last == (p.len() == 1));
    }
    match t {
        Value::Obj(mut es) => {
            let ghost ev = entries_view(es@);
            proof {
                lemma_wf_obj_elim(ev);
            }
            match obj_find(&es, &ptr.tokens[i]) {
                Some(j) => {
                    proof {
                        lemma_key_idx(ev, p[0], j as int);
                    }
                    if last {
                        let k = ptr.tokens[i].clone();
                        let ghost vs0 = es@;
                        let ghost k0 = k;
                        let ghost v0 = v;
                        let _old = es.remove(j);
                        es.insert(j, (k, v));
                        proof {
                            assert(es@ == vs0.remove(j as int).insert(j as int, (k0, v0)));
                            lemma_seq_remove_insert(vs0, j as int, (k0, v0));
                            lemma_entries_view_update(vs0, j as int, k0, v0);
                            assert(k0@ == p[0]);
                            assert(entries_view(es@) == ev.update(j as int, (p[0], v0@)));
                            assert(obj_set(ev, p[0], v0@) == ev.update(j as int, (p[0], v0@)));
                        }
                        Ok(Value::Obj(es))
                    } else {
                        let ghost vs0 = es@;
                        let (kk, child) = es.remove(j);
                        let ghost kk0 = kk;
                        let ghost c0 = child@;
                        proof {
                            assert(kk0@ == ev[j as int].0 && c0 == ev[j as int].1);
                            assert(c0 == obj_get(ev, p[0]));
                            assert(wf(c0));
                        }
                        match ex_add(child, ptr, i + 1, v) {
                            Ok(c2) => {
                                let ghost c20 = c2;
                                es.insert(j, (kk, c2));
                                proof {
                                    assert(es@ == vs0.remove(j as int).insert(
                                        j as int,
                                        (kk0, c20),
                                    ));
                                    lemma_seq_remove_insert(vs0, j as int, (kk0, c20));
                                    lemma_entries_view_update(vs0, j as int, kk0, c20);
                                    assert(entries_view(es@) == ev.update(
                                        j as int,
                                        (p[0], c20@),
                                    ));
                                    assert(obj_set(ev, p[0], c20@) == ev.update(
                                        j as int,
                                        (p[0], c20@),
                                    ));
                                }
                                Ok(Value::Obj(es))
                            },
                            Err((e, cb)) => {
                                let ghost cb0 = cb;
                                es.insert(j, (kk, cb));
                                proof {
                                    assert(cb0@ == ev[j as int].1);
                                    assert(es@ == vs0.remove(j as int).insert(
                                        j as int,
                                        (kk0, cb0),
                                    ));
                                    lemma_seq_remove_insert(vs0, j as int, (kk0, cb0));
                                    lemma_entries_view_update(vs0, j as int, kk0, cb0);
                                    assert(entries_view(es@) == ev.update(
                                        j as int,
                                        (ev[j as int].0, ev[j as int].1),
                                    ));
                                    assert(ev.update(j as int, (ev[j as int].0, ev[j as int].1))
                                        =~= ev);
                                }
                                Err((e, Value::Obj(es)))
                            },
                        }
                    }
                },
                None => {
                    if last {
                        let k = ptr.tokens[i].clone();
                        let ghost vs0 = es@;
                        let ghost k0 = k;
                        let ghost v0 = v;
                        es.push((k, v));
                        proof {
                            assert(es@ == vs0.push((k0, v0)));
                            lemma_entries_view_push(vs0, k0, v0);
                            assert(entries_view(es@) == ev.push((p[0], v0@)));
                            assert(obj_set(ev, p[0], v0@) == ev.push((p[0], v0@)));
                        }
                        Ok(Value::Obj(es))
                    } else {
                        Err((PointerError::KeyNotFound, Value::Obj(es)))
                    }
                },
            }
        },
        Value::Arr(mut a) => {
            let ghost av = arr_view(a@);
            proof {
                lemma_wf_arr_elim(av);
            }
            if last {
                if is_dash_token(&ptr.tokens[i]) {
                    let ghost a0 = a@;
                    let ghost v0 = v;
                    a.push(v);
                    proof {
                        assert(a@ == a0.push(v0));
                        lemma_arr_view_push(a0, v0);
                        assert(arr_view(a@) == av.push(v0@));
                    }
                    Ok(Value::Arr(a))
                } else {
                    match tok_to_index(&ptr.tokens[i], a.len()) {
                        Some(n) => {
                            let ghost a0 = a@;
                            let ghost v0 = v;
                            a.insert(n, v);
                            proof {
                                assert(a@ == a0.insert(n as int, v0));
                                lemma_arr_view_insert(a0, n as int, v0);
                                assert(arr_view(a@) == av.insert(n as int, v0@));
                            }
                            Ok(Value::Arr(a))
                        },
                        None => Err((PointerError::InvalidIndex, Value::Arr(a))),
                    }
                }
            } else {
                match tok_to_index(&ptr.tokens[i], a.len()) {
                    Some(n) => {
                        if n == a.len() {
                            return Err((PointerError::InvalidIndex, Value::Arr(a)));
                        }
                        let ghost a0 = a@;
                        let child = a.remove(n);
                        let ghost c0 = child@;
                        proof {
                            assert(c0 == av[n as int]);
                            assert(wf(c0));
                        }
                        match ex_add(child, ptr, i + 1, v) {
                            Ok(c2) => {
                                let ghost c20 = c2;
                                a.insert(n, c2);
                                proof {
                                    assert(a@ == a0.remove(n as int).insert(n as int, c20));
                                    lemma_seq_remove_insert(a0, n as int, c20);
                                    lemma_arr_view_update(a0, n as int, c20);
                                    assert(arr_view(a@) == av.update(n as int, c20@));
                                }
                                Ok(Value::Arr(a))
                            },
                            Err((e, cb)) => {
                                let ghost cb0 = cb;
                                a.insert(n, cb);
                                proof {
                                    assert(cb0@ == av[n as int]);
                                    assert(a@ == a0.remove(n as int).insert(n as int, cb0));
                                    lemma_seq_remove_insert(a0, n as int, cb0);
                                    lemma_arr_view_update(a0, n as int, cb0);
                                    assert(arr_view(a@) == av.update(n as int, av[n as int]));
                                    assert(av.update(n as int, av[n as int]) =~= av);
                                }
                                Err((e, Value::Arr(a)))
                            },
                        }
                    },
                    None => Err((PointerError::InvalidIndex, Value::Arr(a))),
                }
            }
        },
        Value::Null => Err((PointerError::NotAContainer, Value::Null)),
        Value::Bool(b) => Err((PointerError::NotAContainer, Value::Bool(b))),
        Value::Int(x) => Err((PointerError::NotAContainer, Value::Int(x))),
        Value::Str(s) => Err((PointerError::NotAContainer, Value::Str(s))),
    }
}

/// Delete the node at the pointer suffix, handing back the remaining tree
/// and the removed node; on failure the tree comes back untouched.
fn ex_remove(t: Value, ptr: &Pointer, i: usize) -> (r: Result<
    (Value, Value),
    (PointerError, Value),
>)
    requires
        wf(t@),
        i <= ptr@.len(),
    ensures
        match r {
            Ok(c) => remove_at(t@, ptr@.skip(i as int)) == Ok::<(Tree, Tree), PointerError>(
                (c.0@, c.1@),
            ),
            Err(e) => remove_at(t@, ptr@.skip(i as int)) == Err::<(Tree, Tree), PointerError>(e.0)
                && e.1@ == t@,
        },
    decreases ptr@.len() - i,
{
    let ghost p = ptr@.skip(i as int);
    if i == ptr.tokens.len() {
        proof {
            assert(p =~= Seq::<Seq<char>>::empty());
        }
        return Err((PointerError::NotAContainer, t));
    }
    proof {
        assert(p[0] == ptr.tokens@[i as int]@);
        assert(p.drop_first() =~= ptr@.skip(i as int + 1));
    }
    let last = i + 1 == ptr.tokens.len();
    proof {
        assert(last == (p.len() == 1));
    }
    match t {
        Value::Obj(mut es) => {
            let ghost ev = entries_view(es@);
            proof {
                lemma_wf_obj_elim(ev);
            }
            match obj_find(&es, &ptr.tokens[i]) {
                Some(j) => {
                    proof {
                        lemma_key_idx(ev, p[0], j as int);
                    }
                    if last {
                        let ghost vs0 = es@;
                        let (_kk, rv) = es.remove(j);
                        proof {
                            assert(es@ == vs0.remove(j as int));
                            lemma_entries_view_remove(vs0, j as int);
                            assert(entries_view(es@) == ev.remove(j as int));
                            assert(obj_remove(ev, p[0]) == ev.remove(j as int));
                            assert(rv@ == ev[j as int].1);
                        }
                        Ok((Value::Obj(es), rv))
                    } else {
                        let ghost vs0 = es@;
                        let (kk, child) = es.remove(j);
                        let ghost kk0 = kk;
                        let ghost c0 = child@;
                        proof {
                            assert(kk0@ == ev[j as int].0 && c0 == ev[j as int].1);
                            assert(c0 == obj_get(ev, p[0]));
                            assert(wf(c0));
                        }
                        match ex_remove(child, ptr, i + 1) {
                            Ok((cnew, rem)) => {
                                let ghost cn0 = cnew;
                                es.insert(j, (kk, cnew));
                                proof {
                                    assert(es@ == vs0.remove(j as int).insert(
                                        j as int,
                                        (kk0, cn0),
                                    ));
                                    lemma_seq_remove_insert(vs0, j as int, (kk0, cn0));
                                    lemma_entries_view_update(vs0, j as int, kk0, cn0);
                                    assert(entries_view(es@) == ev.update(
                                        j as int,
                                        (p[0], cn0@),
                                    ));
                                    assert(obj_set(ev, p[0], cn0@) == ev.update(
                                        j as int,
                                        (p[0], cn0@),
                                    ));
                                }
                                Ok((Value::Obj(es), rem))
                            },
                            Err((e, cb)) => {
                                let ghost cb0 = cb;
                                es.insert(j, (kk, cb));
                                proof {
                                    assert(cb0@ == ev[j as int].1);
                                    assert(es@ == vs0.remove(j as int).insert(
                                        j as int,
                                        (kk0, cb0),
                                    ));
                                    lemma_seq_remove_insert(vs0, j as int, (kk0, cb0));
                                    lemma_entries_view_update(vs0, j as int, kk0, cb0);
                                    assert(entries_view(es@) == ev.update(
                                        j as int,
                                        (ev[j as int].0, ev[j as int].1),
                                    ));
                                    assert(ev.update(j as int, (ev[j as int].0, ev[j as int].1))
                                        =~= ev);
                                }
                                Err((e, Value::Obj(es)))
                            },
                        }
                    }
                },
                None => Err((PointerError::KeyNotFound, Value::Obj(es))),
            }
        },
        Value::Arr(mut a) => {
            let ghost av = arr_view(a@);
            proof {
                lemma_wf_arr_elim(av);
            }
            match tok_to_index(&ptr.tokens[i], a.len()) {
                Some(n) => {
                    if n == a.len() {
                        return Err((PointerError::InvalidIndex, Value::Arr(a)));
                    }
                    if last {
                        let ghost a0 = a@;
                        let rv = a.remove(n);
                        proof {
                            assert(a@ == a0.remove(n as int));
                            lemma_arr_view_remove(a0, n as int);
                            assert(arr_view(a@) == av.remove(n as int));
                            assert(rv@ == av[n as int]);
                        }
                        Ok((Value::Arr(a), rv))
                    } else {
                        let ghost a0 = a@;
                        let child = a.remove(n);
                        let ghost c0 = child@;
                        proof {
                            assert(c0 == av[n as int]);
                            assert(wf(c0));
                        }
                        match ex_remove(child, ptr, i + 1) {
                            Ok((cnew, rem)) => {
                                let ghost cn0 = cnew;
                                a.insert(n, cnew);
                                proof {
                                    assert(a@ == a0.remove(n as int).insert(n as int, cn0));
                                    lemma_seq_remove_insert(a0, n as int, cn0);
                                    lemma_arr_view_update(a0, n as int, cn0);
                                    assert(arr_view(a@) == av.update(n as int, cn0@));
                                }
                                Ok((Value::Arr(a), rem))
                            },
                            Err((e, cb)) => {
                                let ghost cb0 = cb;
                                a.insert(n, cb);
                                proof {
                                    assert(cb0@ == av[n as int]);
                                    assert(a@ == a0.remove(n as int).insert(n as int, cb0));
                                    lemma_seq_remove_insert(a0, n as int, cb0);
                                    lemma_arr_view_update(a0, n as int, cb0);
                                    assert(arr_view(a@) == av.update(n as int, av[n as int]));
                                    assert(av.update(n as int, av[n as int]) =~= av);
                                }
                                Err((e, Value::Arr(a)))
                            },
                        }
                    }
                },
                None => Err((PointerError::InvalidIndex, Value::Arr(a))),
            }
        },
        Value::Null => Err((PointerError::NotAContainer, Value::Null)),
        Value::Bool(b) => Err((PointerError::NotAContainer, Value::Bool(b))),
        Value::Int(x) => Err((PointerError::NotAContainer, Value::Int(x))),
        Value::Str(s) => Err((PointerError::NotAContainer, Value::Str(s))),
    }
}

/// Overwrite the node at the pointer suffix with `v`; on failure the tree
/// comes back untouched.
fn ex_replace(t: Value, ptr: &Pointer, i: usize, v: Value) -> (r: Result<
    Value,
    (PointerError, Value),
>)
    requires
        wf(t@),
        i <= ptr@.len(),
    ensures
        match r {
            Ok(out) => replace_at(t@, ptr@.skip(i as int), v@) == Ok::<Tree, PointerError>(out@),
            Err(e) => replace_at(t@, ptr@.skip(i as int), v@) == Err::<Tree, PointerError>(e.0)
                && e.1@ == t@,
        },
    decreases ptr@.len() - i,
{
    let ghost p = ptr@.skip(i as int);
    if i == ptr.tokens.len() {
        proof {
            assert(p =~= Seq::<Seq<char>>::empty());
        }
        return Ok(v);
    }
    proof {
        assert(p[0] == ptr.tokens@[i as int]@);
        assert(p.drop_first() =~= ptr@.skip(i as int + 1));
    }
    let last = i + 1 == ptr.tokens.len();
    proof {
        assert(last == (p.len() == 1));
    }
    match t {
        Value::Obj(mut es) => {
            let ghost ev = entries_view(es@);
            proof {
                lemma_wf_obj_elim(ev);
            }
            match obj_find(&es, &ptr.tokens[i]) {
                Some(j) => {
                    proof {
                        lemma_key_idx(ev, p[0], j as int);
                    }
                    if last {
                        let k = ptr.tokens[i].clone();
                        let ghost vs0 = es@;
                        let ghost k0 = k;
                        let ghost v0 = v;
                        let _old = es.remove(j);
                        es.insert(j, (k, v));
                        proof {
                            assert(es@ == vs0.remove(j as int).insert(j as int, (k0, v0)));
                            lemma_seq_remove_insert(vs0, j as int, (k0, v0));
                            lemma_entries_view_update(vs0, j as int, k0, v0);
                            assert(k0@ == p[0]);
                            assert(entries_view(es@) == ev.update(j as int, (p[0], v0@)));
                            assert(obj_set(ev, p[0], v0@) == ev.update(j as int, (p[0], v0@)));
                        }
                        Ok(Value::Obj(es))
                    } else {
                        let ghost vs0 = es@;
                        let (kk, child) = es.remove(j);
                        let ghost kk0 = kk;
                        let ghost c0 = child@;
                        proof {
                            assert(kk0@ == ev[j as int].0 && c0 == ev[j as int].1);
                            assert(c0 == obj_get(ev, p[0]));
                            assert(wf(c0));
                        }
                        match ex_replace(child, ptr, i + 1, v) {
                            Ok(c2) => {
                                let ghost c20 = c2;
                                es.insert(j, (kk, c2));
                                proof {
                                    assert(es@ == vs0.remove(j as int).insert(
                                        j as int,
                                        (kk0, c20),
                                    ));
                                    lemma_seq_remove_insert(vs0, j as int, (kk0, c20));
                                    lemma_entries_view_update(vs0, j as int, kk0, c20);
                                    assert(entries_view(es@) == ev.update(
                                        j as int,
                                        (p[0], c20@),
                                    ));
                                    assert(obj_set(ev, p[0], c20@) == ev.update(
                                        j as int,
                                        (p[0], c20@),
                                    ));
                                }
                                Ok(Value::Obj(es))
                            },
                            Err((e, cb)) => {
                                let ghost cb0 = cb;
                                es.insert(j, (kk, cb));
                                proof {
                                    assert(cb0@ == ev[j as int].1);
                                    assert(es@ == vs0.remove(j as int).insert(
                                        j as int,
                                        (kk0, cb0),
                                    ));
                                    lemma_seq_remove_insert(vs0, j as int, (kk0, cb0));
                                    lemma_entries_view_update(vs0, j as int, kk0, cb0);
                                    assert(entries_view(es@) == ev.update(
                                        j as int,
                                        (ev[j as int].0, ev[j as int].1),
                                    ));
                                    assert(ev.update(j as int, (ev[j as int].0, ev[j as int].1))
                                        =~= ev);
                                }
                                Err((e, Value::Obj(es)))
                            },
                        }
                    }
                },
                None => Err((PointerError::KeyNotFound, Value::Obj(es))),
            }
        },
        Value::Arr(mut a) => {
            let ghost av = arr_view(a@);
            proof {
                lemma_wf_arr_elim(av);
            }
            match tok_to_index(&ptr.tokens[i], a.len()) {
                Some(n) => {
                    if n == a.len() {
                        return Err((PointerError::InvalidIndex, Value::Arr(a)));
                    }
                    if last {
                        let ghost a0 = a@;
                        let ghost v0 = v;
                        let _old = a.remove(n);
                        a.insert(n, v);
                        proof {
                            assert(a@ == a0.remove(n as int).insert(n as int, v0));
                            lemma_seq_remove_insert(a0, n as int, v0);
                            lemma_arr_view_update(a0, n as int, v0);
                            assert(arr_view(a@) == av.update(n as int, v0@));
                        }
                        Ok(Value::Arr(a))
                    } else {
                        let ghost a0 = a@;
                        let child = a.remove(n);
                        let ghost c0 = child@;
                        proof {
                            assert(c0 == av[n as int]);
                            assert(wf(c0));
                        }
                        match ex_replace(child, ptr, i + 1, v) {
                            Ok(c2) => {
                                let ghost c20 = c2;
                                a.insert(n, c2);
                                proof {
                                    assert(a@ == a0.remove(n as int).insert(n as int, c20));
                                    lemma_seq_remove_insert(a0, n as int, c20);
                                    lemma_arr_view_update(a0, n as int, c20);
                                    assert(arr_view(a@) == av.update(n as int, c20@));
                                }
                                Ok(Value::Arr(a))
                            },
                            Err((e, cb)) => {
                                let ghost cb0 = cb;
                                a.insert(n, cb);
                                proof {
                                    assert(cb0@ == av[n as int]);
                                    assert(a@ == a0.remove(n as int).insert(n as int, cb0));
                                    lemma_seq_remove_insert(a0, n as int, cb0);
                                    lemma_arr_view_update(a0, n as int, cb0);
                                    assert(arr_view(a@) == av.update(n as int, av[n as int]));
                                    assert(av.update(n as int, av[n as int]) =~= av);
                                }
                                Err((e, Value::Arr(a)))
                            },
                        }
                    }
                },
                None => Err((PointerError::InvalidIndex, Value::Arr(a))),
            }
        },
        Value::Null => Err((PointerError::NotAContainer, Value::Null)),
        Value::Bool(b) => Err((PointerError::NotAContainer, Value::Bool(b))),
        Value::Int(x) => Err((PointerError::NotAContainer, Value::Int(x))),
        Value::Str(s) => Err((PointerError::NotAContainer, Value::Str(s))),
    }
}

/// Apply one operation to a tree: the new tree on success, or the error and
/// the tree untouched.
pub fn apply_op(t: Value, op: &Operation) -> (r: (Value, Option<PatchError>))
    requires
        wf(t@),
        op_wf(op@),
    ensures
        match r.1 {
            None => apply_op_spec(t@, op@) == Ok::<Tree, PatchError>(r.0@),
            Some(e) => apply_op_spec(t@, op@) == Err::<Tree, PatchError>(e) && r.0@ == t@,
        },
{
    match op {
        Operation::Add { path, value } => {
            let vv = deep_clone(value);
            proof {
                assert(path@.skip(0) =~= path@);
            }
            match ex_add(t, path, 0, vv) {
                Ok(out) => (out, None),
                Err((e, back)) => (back, Some(PatchError::Pointer(e))),
            }
        },
        Operation::Remove { path } => {
            proof {
                assert(path@.skip(0) =~= path@);
            }
            match ex_remove(t, path, 0) {
                Ok((out, _removed)) => (out, None),
                Err((e, back)) => (back, Some(PatchError::Pointer(e))),
            }
        },
        Operation::Replace { path, value } => {
            let vv = deep_clone(value);
            proof {
                assert(path@.skip(0) =~= path@);
            }
            match ex_replace(t, path, 0, vv) {
                Ok(out) => (out, None),
                Err((e, back)) => (back, Some(PatchError::Pointer(e))),
            }
        },
        Operation::Move { from, path } => {
            proof {
                assert(from@.skip(0) =~= from@);
                assert(path@.skip(0) =~= path@);
            }
            if pointer_is_prefix(from, path) {
                return (t, Some(PatchError::InvalidMove));
            }
            let backup = deep_clone(&t);
            match ex_remove(t, from, 0) {
                Ok((rest, moved)) => {
                    proof {
                        lemma_remove_at_wf(t@, from@);
                    }
                    match ex_add(rest, path, 0, moved) {
                        Ok(out) => (out, None),
                        Err((e, _back)) => (backup, Some(PatchError::Pointer(e))),
                    }
                },
                Err((e, back)) => (back, Some(PatchError::Pointer(e))),
            }
        },
        Operation::Copy { from, path } => {
            proof {
                assert(from@.skip(0) =~= from@);
                assert(path@.skip(0) =~= path@);
            }
            let cloned = match ex_resolve(&t, from, 0) {
                Ok(v) => Ok(deep_clone(v)),
                Err(e) => Err(e),
            };
            match cloned {
                Ok(src) => match ex_add(t, path, 0, src) {
                    Ok(out) => (out, None),
                    Err((e, back)) => (back, Some(PatchError::Pointer(e))),
                },
                Err(e) => (t, Some(PatchError::Pointer(e))),
            }
        },
        Operation::Test { path, value } => {
            proof {
                assert(path@.skip(0) =~= path@);
            }
            match ex_resolve(&t, path, 0) {
                Ok(v) => {
                    proof {
                        lemma_resolve_wf(t@, path@);
                    }
                    if deep_eq(v, value) {
                        (t, None)
                    } else {
                        (t, Some(PatchError::TestFailed))
                    }
                },
                Err(e) => (t, Some(PatchError::Pointer(e))),
            }
        },
    }
}

/// The ghost forms of a sequence of operations.
pub open spec fn ops_view(s: Seq<Operation>) -> Seq<OpView> {
    Seq::new(s.len(), |i: int| s[i]@)
}

/// The remaining run from `cur` after `i` successful operations agrees with
/// the whole run from `orig`.
spec fn run_continues(orig: Tree, ov: Seq<OpView>, cur: Tree, i: int) -> bool {
    match run_ops(cur, ov.skip(i)) {
        RunOut::Done(f) => run_ops(orig, ov) == RunOut::Done(f),
        RunOut::Fail(u, j, e) => run_ops(orig, ov) == RunOut::Fail(u, i + j, e),
    }
}

/// Apply an ordered list of operations to the tree, in place, stopping at
/// the first failure; the tree is then left as the successful prefix made
/// it.
#[verifier::loop_isolation(false)]
pub fn apply(root: &mut Value, ops: &Vec<Operation>) -> (r: Result<(), PatchError>)
    requires
        wf(old(root)@),
        forall|i: int| 0 <= i < ops@.len() ==> op_wf(#[trigger] ops@[i]@),
    ensures
        match run_ops(old(root)@, ops_view(ops@)) {
            RunOut::Done(f) => r == Ok::<(), PatchError>(()) && final(root)@ == f && wf(
                final(root)@,
            ),
            RunOut::Fail(u, idx, e) => r == Err::<(), PatchError>(e) && final(root)@ == u,
        },
{
    let ghost orig = root@;
    let ghost ov = ops_view(ops@);
    let mut cur = Value::Null;
    core::mem::swap(root, &mut cur);
    proof {
        assert(ov.skip(0) =~= ov);
    }
    let mut i: usize = 0;
    while i < ops.len()
        invariant
            i <= ops@.len(),
            wf(cur@),
            run_continues(orig, ov, cur@, i as int),
        decreases ops@.len() - i,
    {
        let ghost prev = cur@;
        let (next, e) = apply_op(cur, &ops[i]);
        proof {
            assert(ov[i as int] == ops@[i as int]@);
            assert(ov.skip(i as int)[0] == ov[i as int]);
            assert(ov.skip(i as int).drop_first() =~= ov.skip(i as int + 1));
            lemma_apply_op_wf(prev, ov[i as int]);
        }
        match e {
            None => {
                proof {
                    assert(apply_op_spec(prev, ov[i as int]) == Ok::<Tree, PatchError>(next@));
                    assert(run_ops(prev, ov.skip(i as int)) == match run_ops(
                        next@,
                        ov.skip(i as int + 1),
                    ) {
                        RunOut::Done(f) => RunOut::Done(f),
                        RunOut::Fail(u, j2, e2) => RunOut::Fail(u, j2 + 1, e2),
                    });
                }
                cur = next;
                i += 1;
            },
            Some(pe) => {
                proof {
                    assert(apply_op_spec(prev, ov[i as int]) == Err::<Tree, PatchError>(pe));
                    assert(run_ops(prev, ov.skip(i as int)) == RunOut::Fail(prev, 0, pe));
                    assert(run_ops(orig, ov) == RunOut::Fail(prev, i as int, pe));
                }
                let mut out = next;
                core::mem::swap(root, &mut out);
                return Err(pe);
            },
        }
    }
    proof {
        assert(ov.skip(ops@.len() as int) =~= Seq::<OpView>::empty());
        assert(run_ops(cur@, ov.skip(i as int)) == RunOut::Done(cur@));
        assert(run_ops(orig, ov) == RunOut::Done(cur@));
    }
    let mut out = cur;
    core::mem::swap(root, &mut out);
    Ok(())
}


} // verus!
