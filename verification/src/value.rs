//! The generic tree representation of a structured document, its ghost model,
//! and deep equality.

use vstd::prelude::*;

verus! {

/// Ghost model of a document tree: the mathematical value that a `Value`
/// denotes. Numbers are modelled as exact integers, strings as character
/// sequences, and objects as key/value entry sequences in insertion order.
pub enum Tree {
    Null,
    Bool(bool),
    Int(int),
    Str(Seq<char>),
    Arr(Seq<Tree>),
    Obj(Seq<(Seq<char>, Tree)>),
}

/// All keys of an object's entry sequence are distinct.
pub open spec fn uniq_keys(es: Seq<(Seq<char>, Tree)>) -> bool {
    forall|i: int, j: int| 0 <= i < j < es.len() ==> es[i].0 != es[j].0
}

/// Some entry carries the key `k`.
pub open spec fn has_key(es: Seq<(Seq<char>, Tree)>, k: Seq<char>) -> bool {
    exists|i: int| 0 <= i < es.len() && es[i].0 == k
}

/// The index of the entry carrying key `k` (meaningful when `has_key` holds
/// and, uniquely, when the keys are distinct).
pub open spec fn key_idx(es: Seq<(Seq<char>, Tree)>, k: Seq<char>) -> int {
    choose|i: int| 0 <= i < es.len() && es[i].0 == k
}

/// The value stored under key `k` (meaningful when `has_key` holds).
pub open spec fn obj_get(es: Seq<(Seq<char>, Tree)>, k: Seq<char>) -> Tree {
    es[key_idx(es, k)].1
}

/// Set key `k` to `v`: overwrite in place when present, append when absent.
pub open spec fn obj_set(es: Seq<(Seq<char>, Tree)>, k: Seq<char>, v: Tree) -> Seq<
    (Seq<char>, Tree),
> {
    if has_key(es, k) {
        es.update(key_idx(es, k), (k, v))
    } else {
        es.push((k, v))
    }
}

/// Remove key `k` when present; identity when absent.
pub open spec fn obj_remove(es: Seq<(Seq<char>, Tree)>, k: Seq<char>) -> Seq<(Seq<char>, Tree)> {
    if has_key(es, k) {
        es.remove(key_idx(es, k))
    } else {
        es
    }
}

/// Well-formedness: every object in the tree has distinct keys.
pub open spec fn wf(t: Tree) -> bool
    decreases t,
{
    match t {
        Tree::Arr(a) => a.len() >= 0 && forall|i: int|
            0 <= i < a.len() ==> wf(#[trigger] a[i]),
        Tree::Obj(es) => uniq_keys(es) && forall|i: int|
            0 <= i < es.len() ==> wf(#[trigger] es[i].1),
        _ => true,
    }
}

/// Deep structural equality: scalars by value, arrays element-wise in order,
/// objects as sets of key/value pairs regardless of entry order.
pub open spec fn teq(a: Tree, b: Tree) -> bool
    decreases a,
{
    match (a, b) {
        (Tree::Null, Tree::Null) => true,
        (Tree::Bool(x), Tree::Bool(y)) => x == y,
        (Tree::Int(x), Tree::Int(y)) => x == y,
        (Tree::Str(x), Tree::Str(y)) => x == y,
        (Tree::Arr(x), Tree::Arr(y)) => x.len() == y.len() && forall|i: int|
            0 <= i < x.len() ==> teq(#[trigger] x[i], y[i]),
        (Tree::Obj(x), Tree::Obj(y)) => x.len() == y.len() && forall|i: int|
            0 <= i < x.len() ==> has_key(y, #[trigger] x[i].0) && teq(x[i].1, obj_get(y, x[i].0)),
        _ => false,
    }
}

/// A document tree. Numbers are exact 64-bit integers; objects keep their
/// entries in insertion order.
pub enum Value {
    Null,
    Bool(bool),
    Int(i64),
    Str(String),
    Arr(Vec<Value>),
    Obj(Vec<(String, Value)>),
}

/// The ghost trees denoted by a sequence of array elements.
pub open spec fn arr_view(a: Seq<Value>) -> Seq<Tree>
    decreases a,
{
    Seq::new(
        a.len(),
        |i: int|
            if 0 <= i < a.len() {
                a[i].tree()
            } else {
                Tree::Null
            },
    )
}

/// The ghost entries denoted by a sequence of object entries.
pub open spec fn entries_view(es: Seq<(String, Value)>) -> Seq<(Seq<char>, Tree)>
    decreases es,
{
    Seq::new(
        es.len(),
        |i: int|
            if 0 <= i < es.len() {
                (es[i].0@, es[i].1.tree())
            } else {
                (Seq::<char>::empty(), Tree::Null)
            },
    )
}

impl Value {
    /// The ghost tree this value denotes.
    pub open spec fn tree(self) -> Tree
        decreases self,
    {
        match self {
            Value::Null => Tree::Null,
            Value::Bool(b) => Tree::Bool(b),
            Value::Int(i) => Tree::Int(i as int),
            Value::Str(s) => Tree::Str(s@),
            Value::Arr(a) => Tree::Arr(arr_view(a@)),
            Value::Obj(es) => Tree::Obj(entries_view(es@)),
        }
    }
}

impl View for Value {
    type V = Tree;

    open spec fn view(&self) -> Tree {
        self.tree()
    }
}

pub broadcast proof fn lemma_arr_view_push(s: Seq<Value>, x: Value)
    ensures
        #[trigger] arr_view(s.push(x)) == arr_view(s).push(x@),
{
    assert(arr_view(s.push(x)) =~= arr_view(s).push(x@));
}

pub broadcast proof fn lemma_arr_view_update(s: Seq<Value>, i: int, x: Value)
    requires
        0 <= i < s.len(),
    ensures
        #[trigger] arr_view(s.update(i, x)) == arr_view(s).update(i, x@),
{
    assert(arr_view(s.update(i, x)) =~= arr_view(s).update(i, x@));
}

pub broadcast proof fn lemma_arr_view_insert(s: Seq<Value>, i: int, x: Value)
    requires
        0 <= i <= s.len(),
    ensures
        #[trigger] arr_view(s.insert(i, x)) == arr_view(s).insert(i, x@),
{
    assert(arr_view(s.insert(i, x)) =~= arr_view(s).insert(i, x@));
}

pub broadcast proof fn lemma_arr_view_remove(s: Seq<Value>, i: int)
    requires
        0 <= i < s.len(),
    ensures
        #[trigger] arr_view(s.remove(i)) == arr_view(s).remove(i),
{
    assert(arr_view(s.remove(i)) =~= arr_view(s).remove(i));
}

pub broadcast proof fn lemma_entries_view_push(s: Seq<(String, Value)>, k: String, x: Value)
    ensures
        #[trigger] entries_view(s.push((k, x))) == entries_view(s).push((k@, x@)),
{
    assert(entries_view(s.push((k, x))) =~= entries_view(s).push((k@, x@)));
}

pub broadcast proof fn lemma_entries_view_update(s: Seq<(String, Value)>, i: int, k: String, x: Value)
    requires
        0 <= i < s.len(),
    ensures
        #[trigger] entries_view(s.update(i, (k, x))) == entries_view(s).update(i, (k@, x@)),
{
    assert(entries_view(s.update(i, (k, x))) =~= entries_view(s).update(i, (k@, x@)));
}

pub broadcast proof fn lemma_entries_view_insert(s: Seq<(String, Value)>, i: int, k: String, x: Value)
    requires
        0 <= i <= s.len(),
    ensures
        #[trigger] entries_view(s.insert(i, (k, x))) == entries_view(s).insert(i, (k@, x@)),
{
    assert(entries_view(s.insert(i, (k, x))) =~= entries_view(s).insert(i, (k@, x@)));
}

pub broadcast proof fn lemma_entries_view_remove(s: Seq<(String, Value)>, i: int)
    requires
        0 <= i < s.len(),
    ensures
        #[trigger] entries_view(s.remove(i)) == entries_view(s).remove(i),
{
    assert(entries_view(s.remove(i)) =~= entries_view(s).remove(i));
}

pub proof fn lemma_wf_arr_intro(s: Seq<Tree>)
    requires
        forall|i: int| 0 <= i < s.len() ==> wf(#[trigger] s[i]),
    ensures
        wf(Tree::Arr(s)),
{
}

pub proof fn lemma_wf_obj_intro(es: Seq<(Seq<char>, Tree)>)
    requires
        uniq_keys(es),
        forall|i: int| 0 <= i < es.len() ==> wf(#[trigger] es[i].1),
    ensures
        wf(Tree::Obj(es)),
{
}

pub proof fn lemma_wf_arr_elim(s: Seq<Tree>)
    requires
        wf(Tree::Arr(s)),
    ensures
        forall|i: int| 0 <= i < s.len() ==> wf(#[trigger] s[i]),
{
}

pub proof fn lemma_wf_obj_elim(es: Seq<(Seq<char>, Tree)>)
    requires
        wf(Tree::Obj(es)),
    ensures
        uniq_keys(es),
        forall|i: int| 0 <= i < es.len() ==> wf(#[trigger] es[i].1),
{
}

/// Setting a key keeps every entry's value well formed.
pub proof fn lemma_obj_set_wf_vals(es: Seq<(Seq<char>, Tree)>, k: Seq<char>, v: Tree)
    requires
        uniq_keys(es),
        forall|i: int| 0 <= i < es.len() ==> wf(#[trigger] es[i].1),
        wf(v),
    ensures
        forall|i: int| 0 <= i < obj_set(es, k, v).len() ==> wf(#[trigger] obj_set(es, k, v)[i].1),
{
    let s2 = obj_set(es, k, v);
    if has_key(es, k) {
        let idx = key_idx(es, k);
        assert(0 <= idx < es.len() && es[idx].0 == k);
        assert forall|i: int| 0 <= i < s2.len() implies wf(#[trigger] s2[i].1) by {
            if i == idx {
                assert(s2[i].1 == v);
            } else {
                assert(s2[i].1 == es[i].1);
            }
        }
    } else {
        assert forall|i: int| 0 <= i < s2.len() implies wf(#[trigger] s2[i].1) by {
            if i == es.len() {
                assert(s2[i].1 == v);
            } else {
                assert(s2[i].1 == es[i].1);
            }
        }
    }
}

/// Removing a key keeps every remaining entry's value well formed.
pub proof fn lemma_obj_remove_wf_vals(es: Seq<(Seq<char>, Tree)>, k: Seq<char>)
    requires
        uniq_keys(es),
        has_key(es, k),
        forall|i: int| 0 <= i < es.len() ==> wf(#[trigger] es[i].1),
    ensures
        forall|i: int| 0 <= i < obj_remove(es, k).len() ==> wf(#[trigger] obj_remove(es, k)[i].1),
{
    let idx = key_idx(es, k);
    assert(0 <= idx < es.len() && es[idx].0 == k);
    let s2 = obj_remove(es, k);
    assert forall|i: int| 0 <= i < s2.len() implies wf(#[trigger] s2[i].1) by {
        if i < idx {
            assert(s2[i].1 == es[i].1);
        } else {
            assert(s2[i].1 == es[i + 1].1);
        }
    }
}

/// How `obj_set` changes an object: the written key now maps to `v`, every
/// other key is untouched, and keys stay distinct.
pub proof fn lemma_obj_set(es: Seq<(Seq<char>, Tree)>, k: Seq<char>, v: Tree)
    requires
        uniq_keys(es),
    ensures
        uniq_keys(obj_set(es, k, v)),
        has_key(obj_set(es, k, v), k),
        obj_get(obj_set(es, k, v), k) == v,
        forall|k2: Seq<char>| k2 != k ==> #[trigger] has_key(obj_set(es, k, v), k2) == has_key(
            es,
            k2,
        ),
        forall|k2: Seq<char>| k2 != k && has_key(es, k2) ==> #[trigger] obj_get(
            obj_set(es, k, v),
            k2,
        ) == obj_get(es, k2),
        obj_set(es, k, v).len() == if has_key(es, k) {
            es.len()
        } else {
            es.len() + 1
        },
{
    let s2 = obj_set(es, k, v);
    if has_key(es, k) {
        let idx = key_idx(es, k);
        assert(0 <= idx < es.len() && es[idx].0 == k);
        assert(forall|i: int| 0 <= i < es.len() ==> (#[trigger] s2[i].0) == es[i].0);
        lemma_key_idx(s2, k, idx);
        assert forall|k2: Seq<char>| k2 != k implies #[trigger] has_key(s2, k2) == has_key(
            es,
            k2,
        ) by {
            if has_key(s2, k2) {
                let i = key_idx(s2, k2);
                assert(0 <= i < s2.len() && s2[i].0 == k2);
                assert(es[i].0 == k2);
                assert(has_key(es, k2));
            }
            if has_key(es, k2) {
                let i = key_idx(es, k2);
                assert(0 <= i < es.len() && es[i].0 == k2);
                assert(s2[i].0 == k2);
                assert(has_key(s2, k2));
            }
        }
        assert forall|k2: Seq<char>| k2 != k && has_key(es, k2) implies #[trigger] obj_get(
            s2,
            k2,
        ) == obj_get(es, k2) by {
            let i = key_idx(es, k2);
            assert(0 <= i < es.len() && es[i].0 == k2);
            assert(i != idx);
            assert(s2[i] == es[i]);
            lemma_key_idx(s2, k2, i);
            lemma_key_idx(es, k2, i);
        }
    } else {
        assert(s2 == es.push((k, v)));
        assert forall|i: int, j: int| 0 <= i < j < s2.len() implies s2[i].0 != s2[j].0 by {
            if j < es.len() {
                assert(s2[i].0 == es[i].0 && s2[j].0 == es[j].0);
            } else {
                assert(s2[j].0 == k);
                assert(s2[i].0 == es[i].0);
                assert(es[i].0 != k) by {
                    if es[i].0 == k {
                        assert(has_key(es, k));
                    }
                }
            }
        }
        lemma_key_idx(s2, k, es.len() as int);
        assert forall|k2: Seq<char>| k2 != k implies #[trigger] has_key(s2, k2) == has_key(
            es,
            k2,
        ) by {
            if has_key(s2, k2) {
                let i = key_idx(s2, k2);
                assert(0 <= i < s2.len() && s2[i].0 == k2);
                assert(i != es.len());
                assert(es[i].0 == k2);
                assert(has_key(es, k2));
            }
            if has_key(es, k2) {
                let i = key_idx(es, k2);
                assert(0 <= i < es.len() && es[i].0 == k2);
                assert(s2[i].0 == k2);
                assert(has_key(s2, k2));
            }
        }
        assert forall|k2: Seq<char>| k2 != k && has_key(es, k2) implies #[trigger] obj_get(
            s2,
            k2,
        ) == obj_get(es, k2) by {
            let i = key_idx(es, k2);
            assert(0 <= i < es.len() && es[i].0 == k2);
            assert(s2[i] == es[i]);
            lemma_key_idx(s2, k2, i);
            lemma_key_idx(es, k2, i);
        }
    }
}

/// How `obj_remove` changes an object: the removed key is gone, every other
/// key is untouched, and keys stay distinct.
pub proof fn lemma_obj_remove(es: Seq<(Seq<char>, Tree)>, k: Seq<char>)
    requires
        uniq_keys(es),
        has_key(es, k),
    ensures
        uniq_keys(obj_remove(es, k)),
        !has_key(obj_remove(es, k), k),
        forall|k2: Seq<char>| k2 != k ==> #[trigger] has_key(obj_remove(es, k), k2) == has_key(
            es,
            k2,
        ),
        forall|k2: Seq<char>| k2 != k && has_key(es, k2) ==> #[trigger] obj_get(
            obj_remove(es, k),
            k2,
        ) == obj_get(es, k2),
        obj_remove(es, k).len() == es.len() - 1,
{
    let idx = key_idx(es, k);
    assert(0 <= idx < es.len() && es[idx].0 == k);
    let s2 = obj_remove(es, k);
    assert(s2 == es.remove(idx));
    assert(forall|i: int| 0 <= i < idx ==> (#[trigger] s2[i]) == es[i]);
    assert(forall|i: int| idx <= i < s2.len() ==> (#[trigger] s2[i]) == es[i + 1]);
    assert forall|i: int, j: int| 0 <= i < j < s2.len() implies s2[i].0 != s2[j].0 by {
        let i0: int = if i < idx {
            i
        } else {
            i + 1
        };
        let j0: int = if j < idx {
            j
        } else {
            j + 1
        };
        assert(s2[i].0 == es[i0].0 && s2[j].0 == es[j0].0);
    }
    assert(!has_key(s2, k)) by {
        if has_key(s2, k) {
            let i = key_idx(s2, k);
            assert(0 <= i < s2.len() && s2[i].0 == k);
            let i0: int = if i < idx {
                i
            } else {
                i + 1
            };
            assert(es[i0].0 == k && i0 != idx);
            assert(es[i0].0 != es[idx].0 || es[idx].0 != es[i0].0);
        }
    }
    assert forall|k2: Seq<char>| k2 != k implies #[trigger] has_key(s2, k2) == has_key(es, k2) by {
        if has_key(s2, k2) {
            let i = key_idx(s2, k2);
            assert(0 <= i < s2.len() && s2[i].0 == k2);
            let i0: int = if i < idx {
                i
            } else {
                i + 1
            };
            assert(es[i0].0 == k2);
            assert(has_key(es, k2));
        }
        if has_key(es, k2) {
            let i = key_idx(es, k2);
            assert(0 <= i < es.len() && es[i].0 == k2);
            assert(i != idx);
            let i2: int = if i < idx {
                i
            } else {
                i - 1
            };
            assert(s2[i2].0 == k2);
            assert(has_key(s2, k2));
        }
    }
    assert forall|k2: Seq<char>| k2 != k && has_key(es, k2) implies #[trigger] obj_get(s2, k2)
        == obj_get(es, k2) by {
        let i = key_idx(es, k2);
        assert(0 <= i < es.len() && es[i].0 == k2);
        assert(i != idx);
        let i2: int = if i < idx {
            i
        } else {
            i - 1
        };
        assert(s2[i2] == es[i]);
        lemma_key_idx(s2, k2, i2);
        lemma_key_idx(es, k2, i);
    }
}

/// Taking an element out and putting another back in its place is an
/// in-place update.
pub proof fn lemma_seq_remove_insert<A>(s: Seq<A>, j: int, x: A)
    requires
        0 <= j < s.len(),
    ensures
        s.remove(j).insert(j, x) == s.update(j, x),
{
    assert(s.remove(j).insert(j, x) =~= s.update(j, x));
}

/// Under distinct keys, any entry carrying `k` is the unique witness of
/// `has_key`, so lookup lands exactly on it.
pub proof fn lemma_key_idx(es: Seq<(Seq<char>, Tree)>, k: Seq<char>, j: int)
    requires
        uniq_keys(es),
        0 <= j < es.len(),
        es[j].0 == k,
    ensures
        has_key(es, k),
        key_idx(es, k) == j,
        obj_get(es, k) == es[j].1,
{
    assert(has_key(es, k));
    let i = key_idx(es, k);
    assert(0 <= i < es.len() && es[i].0 == k);
    if i < j {
        assert(es[i].0 != es[j].0);
    } else if j < i {
        assert(es[j].0 != es[i].0);
    }
}

pub proof fn lemma_wf_arr(s: Seq<Tree>, i: int)
    requires
        wf(Tree::Arr(s)),
        0 <= i < s.len(),
    ensures
        wf(s[i]),
{
}

pub proof fn lemma_teq_arr(x: Seq<Tree>, y: Seq<Tree>)
    requires
        x.len() == y.len(),
        forall|i: int| 0 <= i < x.len() ==> teq(#[trigger] x[i], y[i]),
    ensures
        teq(Tree::Arr(x), Tree::Arr(y)),
{
}

/// The constructor an exec value denotes mirrors the value's own.
pub open spec fn kind(t: Tree) -> int {
    match t {
        Tree::Null => 0,
        Tree::Bool(_) => 1,
        Tree::Int(_) => 2,
        Tree::Str(_) => 3,
        Tree::Arr(_) => 4,
        Tree::Obj(_) => 5,
    }
}

/// Deeply equal trees are built from the same constructor.
pub proof fn lemma_teq_kind(a: Tree, b: Tree)
    requires
        teq(a, b),
    ensures
        kind(a) == kind(b),
{
    match a {
        Tree::Null => {},
        Tree::Bool(_) => {},
        Tree::Int(_) => {},
        Tree::Str(_) => {},
        Tree::Arr(_) => {},
        Tree::Obj(_) => {},
    }
}

/// The constructor tag of a value's ghost tree.
fn vkind(v: &Value) -> (k: u8)
    ensures
        k as int == kind(v@),
{
    match v {
        Value::Null => 0,
        Value::Bool(_) => 1,
        Value::Int(_) => 2,
        Value::Str(_) => 3,
        Value::Arr(_) => 4,
        Value::Obj(_) => 5,
    }
}

/// Structural copy of a tree: the result denotes the same ghost tree.
#[verifier::loop_isolation(false)]
pub fn deep_clone(v: &Value) -> (r: Value)
    ensures
        r@ == v@,
    decreases *v,
{
    match v {
        Value::Null => Value::Null,
        Value::Bool(b) => Value::Bool(*b),
        Value::Int(i) => Value::Int(*i),
        Value::Str(s) => Value::Str(s.clone()),
        Value::Arr(a) => {
            let mut out: Vec<Value> = Vec::new();
            let mut i: usize = 0;
            while i < a.len()
                invariant
                    i <= a@.len(),
                    out@.len() == i as nat,
                    forall|j: int| 0 <= j < i ==> #[trigger] out@[j].tree() == a@[j].tree(),
                decreases a@.len() - i,
            {
                let c = deep_clone(&a[i]);
                out.push(c);
                i += 1;
            }
            proof {
                assert forall|j: int| 0 <= j < arr_view(out@).len() implies arr_view(out@)[j]
                    == arr_view(a@)[j] by {
                    assert(out@[j].tree() == a@[j].tree());
                }
                assert(arr_view(out@) =~= arr_view(a@));
            }
            Value::Arr(out)
        },
        Value::Obj(es) => {
            let mut out: Vec<(String, Value)> = Vec::new();
            let mut i: usize = 0;
            while i < es.len()
                invariant
                    i <= es@.len(),
                    out@.len() == i as nat,
                    forall|j: int|
                        0 <= j < i ==> #[trigger] out@[j].0@ == es@[j].0@ && out@[j].1.tree()
                            == es@[j].1.tree(),
                decreases es@.len() - i,
            {
                let k = es[i].0.clone();
                let c = deep_clone(&es[i].1);
                out.push((k, c));
                i += 1;
            }
            proof {
                assert(entries_view(out@) =~= entries_view(es@));
            }
            Value::Obj(out)
        },
    }
}

/// Linear search for a key among an object's entries.
#[verifier::loop_isolation(false)]
pub fn obj_find(es: &Vec<(String, Value)>, k: &String) -> (r: Option<usize>)
    ensures
        match r {
            Some(j) => j < es@.len() && es@[j as int].0@ == k@,
            None => !has_key(entries_view(es@), k@),
        },
{
    let mut i: usize = 0;
    while i < es.len()
        invariant
            i <= es@.len(),
            forall|j: int| 0 <= j < i ==> es@[j].0@ != k@,
        decreases es@.len() - i,
    {
        if es[i].0 == *k {
            return Some(i);
        }
        i += 1;
    }
    proof {
        assert forall|j: int| 0 <= j < entries_view(es@).len() implies entries_view(es@)[j].0
            != k@ by {
            assert(entries_view(es@)[j].0 == es@[j].0@);
        }
    }
    None
}

/// Decide well-formedness: every object in the tree must have distinct
/// keys.
#[verifier::loop_isolation(false)]
pub fn check_wf(v: &Value) -> (r: bool)
    ensures
        r == wf(v@),
    decreases *v,
{
    match v {
        Value::Null => true,
        Value::Bool(_) => true,
        Value::Int(_) => true,
        Value::Str(_) => true,
        Value::Arr(a) => {
            let ghost av = arr_view(a@);
            let mut i: usize = 0;
            while i < a.len()
                invariant
                    i <= a@.len(),
                    forall|x: int| 0 <= x < i ==> wf(#[trigger] av[x]),
                decreases a@.len() - i,
            {
                if !check_wf(&a[i]) {
                    proof {
                        assert(!wf(av[i as int]));
                        assert(!wf(v@));
                    }
                    return false;
                }
                i += 1;
            }
            proof {
                lemma_wf_arr_intro(av);
            }
            true
        },
        Value::Obj(es) => {
            let ghost ev = entries_view(es@);
            let mut i: usize = 0;
            while i < es.len()
                invariant
                    i <= es@.len(),
                    forall|x: int, y: int| 0 <= x < y < i ==> ev[x].0 != ev[y].0,
                    forall|x: int| 0 <= x < i ==> wf(#[trigger] ev[x].1),
                decreases es@.len() - i,
            {
                let mut j: usize = 0;
                while j < i
                    invariant
                        j <= i,
                        forall|y: int| 0 <= y < j ==> ev[y].0 != ev[i as int].0,
                    decreases i - j,
                {
                    if es[j].0 == es[i].0 {
                        proof {
                            assert(ev[j as int].0 == ev[i as int].0);
                            assert(!uniq_keys(ev));
                        }
                        return false;
                    }
                    j += 1;
                }
                if !check_wf(&es[i].1) {
                    proof {
                        assert(!wf(ev[i as int].1));
                        assert(!wf(v@));
                    }
                    return false;
                }
                i += 1;
            }
            proof {
                assert(uniq_keys(ev));
                lemma_wf_obj_intro(ev);
            }
            true
        },
    }
}

/// Deep structural equality of two well-formed trees: scalars by value,
/// arrays element-wise, objects as sets of key/value pairs.
#[verifier::loop_isolation(false)]
pub fn deep_eq(a: &Value, b: &Value) -> (r: bool)
    requires
        wf(a@),
        wf(b@),
    ensures
        r == teq(a@, b@),
    decreases *a,
{
    if vkind(a) != vkind(b) {
        proof {
            if teq(a@, b@) {
                lemma_teq_kind(a@, b@);
            }
        }
        return false;
    }
    match (a, b) {
        (Value::Null, Value::Null) => true,
        (Value::Bool(x), Value::Bool(y)) => *x == *y,
        (Value::Int(x), Value::Int(y)) => *x == *y,
        (Value::Str(x), Value::Str(y)) => *x == *y,
        (Value::Arr(x), Value::Arr(y)) => {
            if x.len() != y.len() {
                return false;
            }
            let ghost xs = arr_view(x@);
            let ghost ys = arr_view(y@);
            let mut i: usize = 0;
            while i < x.len()
                invariant
                    i <= x@.len(),
                    x@.len() == y@.len(),
                    forall|j: int| 0 <= j < i ==> teq(#[trigger] xs[j], ys[j]),
                decreases x@.len() - i,
            {
                proof {
                    lemma_wf_arr(xs, i as int);
                    lemma_wf_arr(ys, i as int);
                    assert(xs[i as int] == x@[i as int].tree());
                    assert(ys[i as int] == y@[i as int].tree());
                }
                if !deep_eq(&x[i], &y[i]) {
                    proof {
                        assert(!teq(xs[i as int], ys[i as int]));
                        assert(!teq(a@, b@));
                    }
                    return false;
                }
                i += 1;
            }
            proof {
                lemma_teq_arr(xs, ys);
            }
            true
        },
        (Value::Obj(x), Value::Obj(y)) => {
            if x.len() != y.len() {
                return false;
            }
            let ghost xv = entries_view(x@);
            let ghost yv = entries_view(y@);
            let mut i: usize = 0;
            while i < x.len()
                invariant
                    i <= x@.len(),
                    x@.len() == y@.len(),
                    forall|j: int|
                        0 <= j < i ==> has_key(yv, #[trigger] xv[j].0) && teq(
                            xv[j].1,
                            obj_get(yv, xv[j].0),
                        ),
                decreases x@.len() - i,
            {
                match obj_find(y, &x[i].0) {
                    None => {
                        proof {
                            assert(xv[i as int].0 == x@[i as int].0@);
                            assert(!has_key(yv, xv[i as int].0));
                        }
                        return false;
                    },
                    Some(j) => {
                        proof {
                            assert(yv[j as int].0 == x@[i as int].0@);
                            lemma_key_idx(yv, xv[i as int].0, j as int);
                            assert(wf(xv[i as int].1));
                            assert(wf(yv[j as int].1));
                        }
                        if !deep_eq(&x[i].1, &y[j].1) {
                            proof {
                                assert(!teq(xv[i as int].1, obj_get(yv, xv[i as int].0)));
                            }
                            return false;
                        }
                    },
                }
                i += 1;
            }
            proof {
                assert(teq(a@, b@));
            }
            true
        },
        _ => {
            proof {
                assert(false);
            }
            false
        },
    }
}

} // verus!
