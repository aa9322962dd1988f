//! The JSON tree the engine works on, and its mathematical model.

use vstd::prelude::*;

verus! {

/// An in-memory JSON document. A number is carried as its decimal text: the
/// engine never interprets numbers, it only moves them around, so the text is
/// the most faithful representation that needs no numeric type. An object is
/// a sequence of key/value entries in insertion order.
#[derive(Debug, PartialEq)]
pub enum Json {
    Null,
    Bool(bool),
    Num(String),
    Str(String),
    Arr(Vec<Json>),
    Obj(Vec<(String, Json)>),
}

/// The mathematical shape of a `Json` tree: every container is a `Seq`,
/// every string a `Seq<char>`.
pub enum Jv {
    Null,
    Bool(bool),
    Num(Seq<char>),
    Str(Seq<char>),
    Arr(Seq<Jv>),
    Obj(Seq<(Seq<char>, Jv)>),
}

pub open spec fn jv(j: Json) -> Jv
    decreases j, 1int,
{
    match j {
        Json::Null => Jv::Null,
        Json::Bool(b) => Jv::Bool(b),
        Json::Num(s) => Jv::Num(s@),
        Json::Str(s) => Jv::Str(s@),
        Json::Arr(a) => Jv::Arr(jv_arr(a@)),
        Json::Obj(m) => Jv::Obj(jv_obj(m@)),
    }
}

pub open spec fn jv_arr(s: Seq<Json>) -> Seq<Jv>
    decreases s, 0int,
{
    if s.len() == 0 {
        Seq::empty()
    } else {
        seq![jv(s[0])] + jv_arr(s.drop_first())
    }
}

pub open spec fn jv_obj(s: Seq<(String, Json)>) -> Seq<(Seq<char>, Jv)>
    decreases s, 0int,
{
    if s.len() == 0 {
        Seq::empty()
    } else {
        seq![(s[0].0@, jv(s[0].1))] + jv_obj(s.drop_first())
    }
}

impl View for Json {
    type V = Jv;

    open spec fn view(&self) -> Jv {
        jv(*self)
    }
}

pub broadcast proof fn lemma_jv_arr_len(s: Seq<Json>)
    ensures
        #[trigger] jv_arr(s).len() == s.len(),
    decreases s.len(),
{
    if s.len() > 0 {
        lemma_jv_arr_len(s.drop_first());
    }
}

pub broadcast proof fn lemma_jv_arr_index(s: Seq<Json>, i: int)
    requires
        0 <= i < s.len(),
    ensures
        #[trigger] jv_arr(s)[i] == jv(s[i]),
    decreases s.len(),
{
    lemma_jv_arr_len(s);
    if i > 0 {
        lemma_jv_arr_index(s.drop_first(), i - 1);
    }
}

pub broadcast proof fn lemma_jv_obj_len(s: Seq<(String, Json)>)
    ensures
        #[trigger] jv_obj(s).len() == s.len(),
    decreases s.len(),
{
    if s.len() > 0 {
        lemma_jv_obj_len(s.drop_first());
    }
}

pub broadcast proof fn lemma_jv_obj_index(s: Seq<(String, Json)>, i: int)
    requires
        0 <= i < s.len(),
    ensures
        #[trigger] jv_obj(s)[i] == (s[i].0@, jv(s[i].1)),
    decreases s.len(),
{
    lemma_jv_obj_len(s);
    if i > 0 {
        lemma_jv_obj_index(s.drop_first(), i - 1);
    }
}

/// A sequence of entries whose keys and value models agree pointwise with
/// `t` has `t` as its object view.
pub proof fn lemma_jv_obj_pointwise(s: Seq<(String, Json)>, t: Seq<(Seq<char>, Jv)>)
    requires
        s.len() == t.len(),
        forall|j: int| 0 <= j < s.len() ==> (#[trigger] t[j]).0 == s[j].0@ && t[j].1 == jv(s[j].1),
    ensures
        jv_obj(s) == t,
{
    lemma_jv_obj_len(s);
    assert forall|j: int| 0 <= j < t.len() implies jv_obj(s)[j] == t[j] by {
        lemma_jv_obj_index(s, j);
        assert(t[j] == (t[j].0, t[j].1));
    }
    assert(jv_obj(s) =~= t);
}

/// A sequence of elements whose models agree pointwise with `t` has `t` as
/// its array view.
pub proof fn lemma_jv_arr_pointwise(s: Seq<Json>, t: Seq<Jv>)
    requires
        s.len() == t.len(),
        forall|j: int| 0 <= j < s.len() ==> #[trigger] t[j] == jv(s[j]),
    ensures
        jv_arr(s) == t,
{
    lemma_jv_arr_len(s);
    assert forall|j: int| 0 <= j < t.len() implies jv_arr(s)[j] == t[j] by {
        lemma_jv_arr_index(s, j);
    }
    assert(jv_arr(s) =~= t);
}

pub broadcast group group_json_view {
    lemma_jv_arr_len,
    lemma_jv_arr_index,
    lemma_jv_obj_len,
    lemma_jv_obj_index,
}

/// Index of the first entry with key `k`, or `-1` when no entry has it.
pub open spec fn obj_idx(m: Seq<(Seq<char>, Jv)>, k: Seq<char>) -> int
    decreases m.len(),
{
    if m.len() == 0 {
        -1
    } else if m[0].0 == k {
        0
    } else if obj_idx(m.drop_first(), k) == -1 {
        -1
    } else {
        obj_idx(m.drop_first(), k) + 1
    }
}

pub open spec fn obj_has(m: Seq<(Seq<char>, Jv)>, k: Seq<char>) -> bool {
    obj_idx(m, k) >= 0
}

/// The value under key `k`: the value of the first entry with that key.
pub open spec fn obj_get(m: Seq<(Seq<char>, Jv)>, k: Seq<char>) -> Option<Jv> {
    if obj_has(m, k) {
        Some(m[obj_idx(m, k)].1)
    } else {
        None
    }
}

/// Insert or overwrite: an existing key keeps its position, a new key is
/// appended at the end.
pub open spec fn obj_set(m: Seq<(Seq<char>, Jv)>, k: Seq<char>, v: Jv) -> Seq<(Seq<char>, Jv)> {
    if obj_has(m, k) {
        m.update(obj_idx(m, k), (k, v))
    } else {
        m.push((k, v))
    }
}

/// Remove the entry with key `k`, keeping the order of the others.
pub open spec fn obj_remove(m: Seq<(Seq<char>, Jv)>, k: Seq<char>) -> Seq<(Seq<char>, Jv)> {
    if obj_has(m, k) {
        m.remove(obj_idx(m, k))
    } else {
        m
    }
}

/// Total node count of a tree; drives termination of traversals.
pub open spec fn jsize(v: Jv) -> nat
    decreases v, 1int,
{
    match v {
        Jv::Arr(a) => 1 + jsize_arr(a),
        Jv::Obj(m) => 1 + jsize_obj(m),
        _ => 1,
    }
}

pub open spec fn jsize_arr(s: Seq<Jv>) -> nat
    decreases s, 0int,
{
    if s.len() == 0 {
        0
    } else {
        jsize(s[0]) + jsize_arr(s.drop_first())
    }
}

pub open spec fn jsize_obj(m: Seq<(Seq<char>, Jv)>) -> nat
    decreases m, 0int,
{
    if m.len() == 0 {
        0
    } else {
        jsize(m[0].1) + jsize_obj(m.drop_first())
    }
}

/// No two entries of an object share a key.
pub open spec fn distinct_keys(m: Seq<(Seq<char>, Jv)>) -> bool {
    forall|i: int, j: int| 0 <= i < j < m.len() ==> (#[trigger] m[i]).0 != (#[trigger] m[j]).0
}

/// A well-formed document: every object in the tree has pairwise distinct
/// keys. This is the shape every JSON document has; it is what makes a
/// concrete path name one node.
pub open spec fn wf(v: Jv) -> bool
    decreases v, 1int,
{
    match v {
        Jv::Arr(a) => wf_arr(a),
        Jv::Obj(m) => distinct_keys(m) && wf_obj(m),
        _ => true,
    }
}

pub open spec fn wf_arr(s: Seq<Jv>) -> bool
    decreases s, 0int,
{
    if s.len() == 0 {
        true
    } else {
        wf(s[0]) && wf_arr(s.drop_first())
    }
}

pub open spec fn wf_obj(m: Seq<(Seq<char>, Jv)>) -> bool
    decreases m, 0int,
{
    if m.len() == 0 {
        true
    } else {
        wf(m[0].1) && wf_obj(m.drop_first())
    }
}

pub proof fn lemma_wf_arr_index(s: Seq<Jv>, i: int)
    requires
        wf_arr(s),
        0 <= i < s.len(),
    ensures
        wf(s[i]),
    decreases s.len(),
{
    if i > 0 {
        lemma_wf_arr_index(s.drop_first(), i - 1);
    }
}

pub proof fn lemma_wf_obj_index(m: Seq<(Seq<char>, Jv)>, i: int)
    requires
        wf_obj(m),
        0 <= i < m.len(),
    ensures
        wf(m[i].1),
    decreases m.len(),
{
    if i > 0 {
        lemma_wf_obj_index(m.drop_first(), i - 1);
    }
}

/// `obj_idx` finds exactly the first entry with the key.
pub proof fn lemma_obj_idx(m: Seq<(Seq<char>, Jv)>, k: Seq<char>)
    ensures
        -1 <= obj_idx(m, k) < m.len(),
        obj_idx(m, k) == -1 ==> forall|j: int| 0 <= j < m.len() ==> (#[trigger] m[j]).0 != k,
        obj_idx(m, k) >= 0 ==> obj_idx(m, k) < m.len() && m[obj_idx(m, k)].0 == k
            && forall|j: int| 0 <= j < obj_idx(m, k) ==> (#[trigger] m[j]).0 != k,
    decreases m.len(),
{
    if m.len() > 0 && m[0].0 != k {
        let d = m.drop_first();
        lemma_obj_idx(d, k);
        if obj_idx(m, k) == -1 {
            assert(obj_idx(d, k) == -1);
            assert forall|j: int| 0 <= j < m.len() implies (#[trigger] m[j]).0 != k by {
                if j > 0 {
                    assert(d[j - 1] == m[j]);
                    assert(d[j - 1].0 != k);
                }
            }
        } else {
            let x = obj_idx(m, k);
            assert(obj_idx(d, k) == x - 1);
            assert(d[x - 1] == m[x]);
            assert forall|j: int| 0 <= j < x implies (#[trigger] m[j]).0 != k by {
                if j > 0 {
                    assert(d[j - 1] == m[j]);
                    assert(d[j - 1].0 != k);
                }
            }
        }
    }
}

/// Under distinct keys, looking an entry's own key up yields that entry.
pub proof fn lemma_obj_get_at(m: Seq<(Seq<char>, Jv)>, i: int)
    requires
        distinct_keys(m),
        0 <= i < m.len(),
    ensures
        obj_idx(m, m[i].0) == i,
        obj_get(m, m[i].0) == Some(m[i].1),
{
    lemma_obj_idx(m, m[i].0);
}

/// An entry whose key no earlier entry shares is exactly the one the
/// lookup finds.
pub proof fn lemma_obj_idx_is(m: Seq<(Seq<char>, Jv)>, k: Seq<char>, i: int)
    requires
        0 <= i < m.len(),
        m[i].0 == k,
        forall|j: int| 0 <= j < i ==> (#[trigger] m[j]).0 != k,
    ensures
        obj_idx(m, k) == i,
{
    lemma_obj_idx(m, k);
}

/// Find the first entry of `m` whose key equals `k`.
pub fn obj_find(m: &Vec<(String, Json)>, k: &String) -> (r: Option<usize>)
    ensures
        match r {
            Some(i) => i < m@.len() && obj_idx(jv_obj(m@), k@) == i,
            None => obj_idx(jv_obj(m@), k@) == -1,
        },
{
    let mut i: usize = 0;
    while i < m.len()
        invariant
            i <= m@.len(),
            forall|j: int| 0 <= j < i ==> (#[trigger] m@[j]).0@ != k@,
        decreases m@.len() - i,
    {
        if m[i].0.eq(k) {
            proof {
                lemma_jv_obj_len(m@);
                lemma_obj_idx(jv_obj(m@), k@);
                let x = obj_idx(jv_obj(m@), k@);
                lemma_jv_obj_index(m@, i as int);
                if 0 <= x < i {
                    lemma_jv_obj_index(m@, x);
                }
            }
            return Some(i);
        }
        i += 1;
    }
    proof {
        lemma_jv_obj_len(m@);
        lemma_obj_idx(jv_obj(m@), k@);
        let x = obj_idx(jv_obj(m@), k@);
        if x >= 0 {
            lemma_jv_obj_index(m@, x);
        }
    }
    None
}

impl Json {
    /// An owned copy with the same model.
    #[verifier::loop_isolation(false)]
    pub fn duplicate(&self) -> (r: Json)
        ensures
            r@ == self@,
        decreases *self,
    {
        broadcast use group_json_view;

        match self {
            Json::Null => Json::Null,
            Json::Bool(b) => Json::Bool(*b),
            Json::Num(s) => Json::Num(s.clone()),
            Json::Str(s) => Json::Str(s.clone()),
            Json::Arr(a) => {
                let mut out: Vec<Json> = Vec::new();
                let mut i: usize = 0;
                while i < a.len()
                    invariant
                        i <= a.len(),
                        out@.len() == i,
                        forall|j: int| 0 <= j < i ==> jv(#[trigger] out@[j]) == jv(a@[j]),
                    decreases a.len() - i,
                {
                    proof {
                        assert(decreases_to!(*self => *a));
                        assert(decreases_to!(*a => a@));
                        assert(decreases_to!(a@ => a@[i as int]));
                        assert(decreases_to!(*self => a@[i as int]));
                    }
                    let c = a[i].duplicate();
                    out.push(c);
                    i += 1;
                }
                proof {
                    assert(jv_arr(out@) =~= jv_arr(a@));
                }
                Json::Arr(out)
            },
            Json::Obj(m) => {
                let mut out: Vec<(String, Json)> = Vec::new();
                let mut i: usize = 0;
                while i < m.len()
                    invariant
                        i <= m.len(),
                        out@.len() == i,
                        forall|j: int| 0 <= j < i ==> (#[trigger] out@[j]).0@ == m@[j].0@
                            && jv(out@[j].1) == jv(m@[j].1),
                    decreases m.len() - i,
                {
                    proof {
                        assert(decreases_to!(*self => *m));
                        assert(decreases_to!(*m => m@));
                        assert(decreases_to!(m@ => m@[i as int]));
                        assert(decreases_to!(m@[i as int] => m@[i as int].1));
                        assert(decreases_to!(*self => m@[i as int].1));
                    }
                    let entry = &m[i];
                    let k = entry.0.clone();
                    let c = entry.1.duplicate();
                    out.push((k, c));
                    i += 1;
                }
                proof {
                    assert(jv_obj(out@) =~= jv_obj(m@));
                }
                Json::Obj(out)
            },
        }
    }
}

} // verus!
