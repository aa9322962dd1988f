//! The path applicators: read, replace or delete the nodes a query
//! matches.

use vstd::prelude::*;

use crate::json::{
    jv, jv_arr, jv_obj, lemma_jv_arr_index, lemma_jv_arr_len, lemma_jv_obj_index, lemma_jv_obj_len,
    lemma_obj_idx, obj_find, obj_get, obj_idx, obj_remove, obj_set, wf, Json, Jv,
};
use crate::matcher::{
    got, paths_view, resolve, segs_view, spec_matches, step, PathSegment, SegV,
};
use crate::parser::{is_root_only, parse, sels_view, spec_parse, SelV, Selector};

verus! {

pub open spec fn jsons_view(s: Seq<Json>) -> Seq<Jv> {
    s.map_values(|x: Json| jv(x))
}

fn is_root_only_exec(sels: &Vec<Selector>) -> (b: bool)
    ensures
        b == is_root_only(sels_view(sels@)),
{
    if sels.len() != 1 {
        return false;
    }
    match &sels[0] {
        Selector::Root => true,
        _ => false,
    }
}

/// Append copies of the entries `m[from..to]` to `out`.
#[verifier::loop_isolation(false)]
fn push_dup_entries(out: &mut Vec<(String, Json)>, m: &Vec<(String, Json)>, from: usize, to: usize)
    requires
        from <= to <= m@.len(),
    ensures
        final(out)@.len() == old(out)@.len() + (to - from),
        forall|j: int|
            0 <= j < old(out)@.len() ==> #[trigger] final(out)@[j] == old(out)@[j],
        forall|j: int|
            old(out)@.len() <= j < final(out)@.len() ==> (#[trigger] final(out)@[j]).0@ == m@[from
                + (j - old(out)@.len())].0@ && jv(final(out)@[j].1) == jv(
                m@[from + (j - old(out)@.len())].1,
            ),
{
    let ghost base = out@;
    let mut i = from;
    while i < to
        invariant
            from <= i <= to,
            out@.len() == base.len() + (i - from),
            forall|j: int| 0 <= j < base.len() ==> #[trigger] out@[j] == base[j],
            forall|j: int|
                base.len() <= j < out@.len() ==> (#[trigger] out@[j]).0@ == m@[from + (j
                    - base.len())].0@ && jv(out@[j].1) == jv(m@[from + (j - base.len())].1),
        decreases to - i,
    {
        let entry = &m[i];
        let k = entry.0.clone();
        let c = entry.1.duplicate();
        out.push((k, c));
        i += 1;
    }
}

/// Append copies of the elements `a[from..to]` to `out`.
#[verifier::loop_isolation(false)]
fn push_dup_elems(out: &mut Vec<Json>, a: &Vec<Json>, from: usize, to: usize)
    requires
        from <= to <= a@.len(),
    ensures
        final(out)@.len() == old(out)@.len() + (to - from),
        forall|j: int|
            0 <= j < old(out)@.len() ==> #[trigger] final(out)@[j] == old(out)@[j],
        forall|j: int|
            old(out)@.len() <= j < final(out)@.len() ==> jv(#[trigger] final(out)@[j]) == jv(
                a@[from + (j - old(out)@.len())],
            ),
{
    let ghost base = out@;
    let mut i = from;
    while i < to
        invariant
            from <= i <= to,
            out@.len() == base.len() + (i - from),
            forall|j: int| 0 <= j < base.len() ==> #[trigger] out@[j] == base[j],
            forall|j: int|
                base.len() <= j < out@.len() ==> jv(#[trigger] out@[j]) == jv(
                    a@[from + (j - base.len())],
                ),
        decreases to - i,
    {
        let c = a[i].duplicate();
        out.push(c);
        i += 1;
    }
}

/// The object `m` with key `k` bound to `nv`: replaced in place when
/// present, appended when absent.
fn obj_with(m: &Vec<(String, Json)>, k: &String, nv: Json) -> (r: Vec<(String, Json)>)
    ensures
        jv_obj(r@) == obj_set(jv_obj(m@), k@, jv(nv)),
{
    let n = m.len();
    let ghost nvv = jv(nv);
    let ghost target = obj_set(jv_obj(m@), k@, jv(nv));
    let mut out: Vec<(String, Json)> = Vec::new();
    match obj_find(m, k) {
        Some(idx) => {
            proof {
                lemma_jv_obj_len(m@);
                lemma_obj_idx(jv_obj(m@), k@);
            }
            push_dup_entries(&mut out, m, 0, idx);
            out.push((k.clone(), nv));
            push_dup_entries(&mut out, m, idx + 1, n);
            proof {
                assert forall|j: int| 0 <= j < out@.len() implies (#[trigger] target[j]).0
                    == out@[j].0@ && target[j].1 == jv(out@[j].1) by {
                    if j != idx {
                        lemma_jv_obj_index(m@, j);
                    }
                }
                crate::json::lemma_jv_obj_pointwise(out@, target);
            }
            out
        },
        None => {
            proof {
                lemma_jv_obj_len(m@);
            }
            push_dup_entries(&mut out, m, 0, n);
            out.push((k.clone(), nv));
            proof {
                assert forall|j: int| 0 <= j < out@.len() implies (#[trigger] target[j]).0
                    == out@[j].0@ && target[j].1 == jv(out@[j].1) by {
                    if j < n {
                        lemma_jv_obj_index(m@, j);
                    }
                }
                crate::json::lemma_jv_obj_pointwise(out@, target);
            }
            out
        },
    }
}

/// The object `m` without its `k` entry, other entries in order.
fn obj_without(m: &Vec<(String, Json)>, k: &String) -> (r: Vec<(String, Json)>)
    ensures
        jv_obj(r@) == obj_remove(jv_obj(m@), k@),
{
    let n = m.len();
    let ghost target = obj_remove(jv_obj(m@), k@);
    let mut out: Vec<(String, Json)> = Vec::new();
    match obj_find(m, k) {
        Some(idx) => {
            proof {
                lemma_jv_obj_len(m@);
                lemma_obj_idx(jv_obj(m@), k@);
            }
            push_dup_entries(&mut out, m, 0, idx);
            push_dup_entries(&mut out, m, idx + 1, n);
            proof {
                assert forall|j: int| 0 <= j < out@.len() implies (#[trigger] target[j]).0
                    == out@[j].0@ && target[j].1 == jv(out@[j].1) by {
                    if j < idx {
                        lemma_jv_obj_index(m@, j);
                    } else {
                        lemma_jv_obj_index(m@, j + 1);
                    }
                }
                crate::json::lemma_jv_obj_pointwise(out@, target);
            }
            out
        },
        None => {
            proof {
                lemma_jv_obj_len(m@);
            }
            push_dup_entries(&mut out, m, 0, n);
            proof {
                assert forall|j: int| 0 <= j < out@.len() implies (#[trigger] target[j]).0
                    == out@[j].0@ && target[j].1 == jv(out@[j].1) by {
                    lemma_jv_obj_index(m@, j);
                }
                crate::json::lemma_jv_obj_pointwise(out@, target);
            }
            out
        },
    }
}

/// The array `a` with the element at `idx` replaced by `nv`.
fn arr_with(a: &Vec<Json>, idx: usize, nv: Json) -> (r: Vec<Json>)
    requires
        idx < a@.len(),
    ensures
        jv_arr(r@) == jv_arr(a@).update(idx as int, jv(nv)),
{
    let n = a.len();
    let ghost target = jv_arr(a@).update(idx as int, jv(nv));
    let mut out: Vec<Json> = Vec::new();
    proof {
        lemma_jv_arr_len(a@);
    }
    push_dup_elems(&mut out, a, 0, idx);
    out.push(nv);
    push_dup_elems(&mut out, a, idx + 1, n);
    proof {
        assert forall|j: int| 0 <= j < out@.len() implies #[trigger] target[j] == jv(out@[j]) by {
            if j != idx {
                lemma_jv_arr_index(a@, j);
            }
        }
        crate::json::lemma_jv_arr_pointwise(out@, target);
    }
    out
}

/// The array `a` with `nv` inserted before position `idx`, shifting the
/// rest to the right.
fn arr_insert(a: &Vec<Json>, idx: usize, nv: Json) -> (r: Vec<Json>)
    requires
        idx <= a@.len(),
    ensures
        jv_arr(r@) == jv_arr(a@).insert(idx as int, jv(nv)),
{
    let n = a.len();
    let ghost target = jv_arr(a@).insert(idx as int, jv(nv));
    let mut out: Vec<Json> = Vec::new();
    proof {
        lemma_jv_arr_len(a@);
    }
    push_dup_elems(&mut out, a, 0, idx);
    out.push(nv);
    push_dup_elems(&mut out, a, idx, n);
    proof {
        assert forall|j: int| 0 <= j < out@.len() implies #[trigger] target[j] == jv(out@[j]) by {
            if j < idx {
                lemma_jv_arr_index(a@, j);
            } else if j > idx {
                lemma_jv_arr_index(a@, j - 1);
            }
        }
        crate::json::lemma_jv_arr_pointwise(out@, target);
    }
    out
}

/// The array `a` without the element at `idx`.
fn arr_without(a: &Vec<Json>, idx: usize) -> (r: Vec<Json>)
    requires
        idx < a@.len(),
    ensures
        jv_arr(r@) == jv_arr(a@).remove(idx as int),
{
    let n = a.len();
    let ghost target = jv_arr(a@).remove(idx as int);
    let mut out: Vec<Json> = Vec::new();
    proof {
        lemma_jv_arr_len(a@);
    }
    push_dup_elems(&mut out, a, 0, idx);
    push_dup_elems(&mut out, a, idx + 1, n);
    proof {
        assert forall|j: int| 0 <= j < out@.len() implies #[trigger] target[j] == jv(out@[j]) by {
            if j < idx {
                lemma_jv_arr_index(a@, j);
            } else {
                lemma_jv_arr_index(a@, j + 1);
            }
        }
        crate::json::lemma_jv_arr_pointwise(out@, target);
    }
    out
}

/// Walk a matcher-produced path to its node and return a copy of it.
#[verifier::loop_isolation(false)]
fn walk_get(root: &Json, path: &Vec<PathSegment>) -> (r: Json)
    requires
        resolve(jv(*root), segs_view(path@)) is Some,
    ensures
        jv(r) == got(resolve(jv(*root), segs_view(path@))),
{
    broadcast use crate::json::group_json_view;

    let ghost whole = segs_view(path@);
    let mut cur: &Json = root;
    let mut i: usize = 0;
    proof {
        assert(whole.skip(0) =~= whole);
    }
    while i < path.len()
        invariant
            i <= path@.len(),
            resolve(jv(*cur), whole.skip(i as int)) == resolve(jv(*root), whole),
        decreases path@.len() - i,
    {
        let ghost rem = whole.skip(i as int);
        let ghost curv = jv(*cur);
        proof {
            assert(rem[0] == path@[i as int]@);
            assert(rem.drop_first() =~= whole.skip(i + 1));
        }
        let seg = &path[i];
        match seg {
            PathSegment::MemberName(k) => {
                match cur {
                    Json::Obj(m) => {
                        match obj_find(m, k) {
                            Some(idx) => {
                                proof {
                                    lemma_jv_obj_len(m@);
                                    lemma_jv_obj_index(m@, idx as int);
                                    assert(step(curv, rem[0]) == Some(jv(m@[idx as int].1)));
                                }
                                cur = &m[idx].1;
                            },
                            None => {
                                proof {
                                    assert(step(curv, rem[0]) is None);
                                    assert(false);
                                }
                            },
                        }
                    },
                    _ => {
                        proof {
                            assert(step(curv, rem[0]) is None);
                            assert(false);
                        }
                    },
                }
            },
            PathSegment::ArrayIndex(u) => {
                match cur {
                    Json::Arr(a) => {
                        proof {
                            lemma_jv_arr_len(a@);
                        }
                        if *u < a.len() {
                            proof {
                                lemma_jv_arr_index(a@, *u as int);
                                assert(step(curv, rem[0]) == Some(jv(a@[*u as int])));
                            }
                            cur = &a[*u];
                        } else {
                            proof {
                                assert(step(curv, rem[0]) is None);
                                assert(false);
                            }
                        }
                    },
                    _ => {
                        proof {
                            assert(step(curv, rem[0]) is None);
                            assert(false);
                        }
                    },
                }
            },
        }
        i += 1;
    }
    proof {
        assert(whole.skip(whole.len() as int) =~= Seq::<SegV>::empty());
    }
    cur.duplicate()
}

/// The nodes a query matches in a document: a copy of each matched node,
/// in evaluation order. A query of just `$` (or nothing) yields the whole
/// document. `Err` exactly when the query does not parse or the matcher
/// trips its explosion guard.
pub fn get(path: &str, val: &Json) -> (r: Result<Vec<Json>, String>)
    requires
        wf(val@),
    ensures
        match r {
            Ok(vs) => spec_get(path@, val@) == Some(jsons_view(vs@)),
            Err(_) => spec_get(path@, val@) is None,
        },
{
    let sels = match parse(path) {
        Ok(v) => v,
        Err(e) => {
            return Err(e);
        },
    };
    if is_root_only_exec(&sels) {
        let mut out: Vec<Json> = Vec::new();
        let c = val.duplicate();
        out.push(c);
        proof {
            assert(jsons_view(out@) =~= seq![jv(*val)]);
        }
        return Ok(out);
    }
    let paths = match crate::matcher::matches(sels, val) {
        Ok(v) => v,
        Err(e) => {
            return Err(e);
        },
    };
    let ghost ps = paths_view(paths@);
    let ghost target = ps.map_values(|p: Seq<SegV>| got(resolve(jv(*val), p)));
    let mut out: Vec<Json> = Vec::new();
    proof {
        assert(jsons_view(out@) =~= target.take(0));
    }
    let mut i: usize = 0;
    while i < paths.len()
        invariant
            i <= paths@.len(),
            ps == paths_view(paths@),
            forall|j: int| 0 <= j < ps.len() ==> resolve(jv(*val), #[trigger] ps[j]) is Some,
            jsons_view(out@) == target.take(i as int),
            target == ps.map_values(|p: Seq<SegV>| got(resolve(jv(*val), p))),
        decreases paths@.len() - i,
    {
        proof {
            assert(ps[i as int] == segs_view(paths@[i as int]@));
        }
        let v = walk_get(val, &paths[i]);
        let ghost vv = jv(v);
        out.push(v);
        proof {
            assert(vv == target[i as int]);
            assert(jsons_view(out@) =~= target.take(i as int).push(target[i as int]));
            assert(target.take(i + 1) =~= target.take(i as int).push(target[i as int]));
        }
        i += 1;
    }
    proof {
        assert(target.take(paths@.len() as int) =~= target);
    }
    Ok(out)
}

/// What `get` returns: the whole document for the identity query, else a
/// copy of the node at every matched path; nothing when the query does not
/// parse or evaluation fails.
pub open spec fn spec_get(q: Seq<char>, doc: Jv) -> Option<Seq<Jv>> {
    match spec_parse(q) {
        None => None,
        Some(sels) => if is_root_only(sels) {
            Some(seq![doc])
        } else {
            match spec_matches(sels, doc) {
                Ok(ps) => Some(ps.map_values(|p: Seq<SegV>| got(resolve(doc, p)))),
                Err(_) => None,
            }
        },
    }
}

/// The query's trailing member-name selector, when it has one.
pub open spec fn trailing_member(sels: Seq<SelV>) -> Option<Seq<char>> {
    if sels.len() > 0 {
        match sels.last() {
            SelV::DotMemberName(k) => Some(k),
            _ => None,
        }
    } else {
        None
    }
}

/// Insert or overwrite key `k` directly on `doc` when it is an object;
/// any other document is left unchanged.
pub open spec fn insert_member(doc: Jv, k: Seq<char>, to: Jv) -> Jv {
    match doc {
        Jv::Obj(m) => Jv::Obj(obj_set(m, k, to)),
        _ => doc,
    }
}

/// Write `to` along one concrete path: the last segment performs the
/// write (an object key is bound, an array position gains an inserted
/// element); with a remembered trailing member name `lastk`, the write
/// instead binds that name inside the object found at the path's end.
/// A step that no longer fits the tree leaves it unchanged.
pub open spec fn set_one(v: Jv, path: Seq<SegV>, lastk: Option<Seq<char>>, to: Jv) -> Jv
    decreases path.len(),
{
    if path.len() == 0 {
        v
    } else {
        match path[0] {
            SegV::Member(k) => match v {
                Jv::Obj(m) => if path.len() == 1 {
                    match lastk {
                        Some(nk) => match obj_get(m, k) {
                            Some(c) => match c {
                                Jv::Obj(cm) => Jv::Obj(
                                    obj_set(m, k, Jv::Obj(obj_set(cm, nk, to))),
                                ),
                                _ => v,
                            },
                            None => v,
                        },
                        None => Jv::Obj(obj_set(m, k, to)),
                    }
                } else {
                    match obj_get(m, k) {
                        Some(c) => Jv::Obj(obj_set(m, k, set_one(c, path.drop_first(), lastk, to))),
                        None => v,
                    }
                },
                _ => v,
            },
            SegV::Index(i) => match v {
                Jv::Arr(a) => if path.len() == 1 {
                    match lastk {
                        Some(nk) => if 0 <= i < a.len() {
                            match a[i] {
                                Jv::Obj(cm) => Jv::Arr(a.update(i, Jv::Obj(obj_set(cm, nk, to)))),
                                _ => v,
                            }
                        } else {
                            v
                        },
                        None => if 0 <= i <= a.len() {
                            Jv::Arr(a.insert(i, to))
                        } else {
                            v
                        },
                    }
                } else {
                    if 0 <= i < a.len() {
                        Jv::Arr(a.update(i, set_one(a[i], path.drop_first(), lastk, to)))
                    } else {
                        v
                    }
                },
                _ => v,
            },
        }
    }
}

/// The path continues one of the already-applied paths: applying it would
/// address structure inside a node that was already rewritten.
pub open spec fn continues_applied(applied: Seq<Seq<SegV>>, p: Seq<SegV>) -> bool {
    exists|j: int|
        #![trigger applied[j]]
        0 <= j < applied.len() && applied[j].len() > 0 && applied[j].is_prefix_of(p)
}

/// Apply `set_one` along every matched path in order, skipping any path
/// that continues an already-applied one: a descendant of a replaced node
/// would address stale structure.
pub open spec fn set_fold(
    doc: Jv,
    ps: Seq<Seq<SegV>>,
    i: int,
    applied: Seq<Seq<SegV>>,
    lastk: Option<Seq<char>>,
    to: Jv,
) -> Jv
    decreases ps.len() - i,
{
    if i < 0 || i >= ps.len() {
        doc
    } else if continues_applied(applied, ps[i]) {
        set_fold(doc, ps, i + 1, applied, lastk, to)
    } else {
        set_fold(set_one(doc, ps[i], lastk, to), ps, i + 1, applied.push(ps[i]), lastk, to)
    }
}

/// What `set` returns: the new document computed from the old one. The
/// whole document is replaced for the identity query; a query of the form
/// `$.k` binds `k` on the root; otherwise every matched, non-shadowed path
/// receives the value. Nothing when the query does not parse or
/// evaluation fails.
pub open spec fn spec_set(q: Seq<char>, doc: Jv, to: Jv) -> Option<Jv> {
    match spec_parse(q) {
        None => None,
        Some(sels0) => {
            if is_root_only(sels0) {
                Some(to)
            } else {
                let lk = trailing_member(sels0);
                let sels = if lk is Some {
                    sels0.drop_last()
                } else {
                    sels0
                };
                if is_root_only(sels) {
                    match lk {
                        Some(k) => Some(insert_member(doc, k, to)),
                        None => Some(doc),
                    }
                } else {
                    match spec_matches(sels, doc) {
                        Err(_) => None,
                        Ok(ps) => Some(set_fold(doc, ps, 0, Seq::empty(), lk, to)),
                    }
                }
            }
        },
    }
}

pub open spec fn lk_view(o: Option<&String>) -> Option<Seq<char>> {
    match o {
        Some(k) => Some(k@),
        None => None,
    }
}

fn seg_eq(a: &PathSegment, b: &PathSegment) -> (r: bool)
    ensures
        r == (a@ == b@),
{
    match (a, b) {
        (PathSegment::MemberName(x), PathSegment::MemberName(y)) => x.eq(y),
        (PathSegment::ArrayIndex(x), PathSegment::ArrayIndex(y)) => *x == *y,
        _ => false,
    }
}

#[verifier::loop_isolation(false)]
fn is_path_prefix(pre: &Vec<PathSegment>, p: &Vec<PathSegment>) -> (b: bool)
    ensures
        b == segs_view(pre@).is_prefix_of(segs_view(p@)),
{
    if pre.len() > p.len() {
        return false;
    }
    let mut j: usize = 0;
    while j < pre.len()
        invariant
            j <= pre@.len() <= p@.len(),
            forall|t: int| 0 <= t < j ==> segs_view(pre@)[t] == segs_view(p@)[t],
        decreases pre@.len() - j,
    {
        if !seg_eq(&pre[j], &p[j]) {
            proof {
                assert(segs_view(pre@)[j as int] != segs_view(p@)[j as int]);
                assert(!segs_view(pre@).is_prefix_of(segs_view(p@)));
            }
            return false;
        }
        j += 1;
    }
    proof {
        assert(segs_view(pre@) =~= segs_view(p@).subrange(0, pre@.len() as int));
    }
    true
}

/// Does `p` continue one of the already-applied paths?
#[verifier::loop_isolation(false)]
fn continues_any(applied: &Vec<Vec<PathSegment>>, p: &Vec<PathSegment>) -> (b: bool)
    ensures
        b == continues_applied(paths_view(applied@), segs_view(p@)),
{
    let mut j: usize = 0;
    while j < applied.len()
        invariant
            j <= applied@.len(),
            forall|t: int|
                #![trigger paths_view(applied@)[t]]
                0 <= t < j ==> !(paths_view(applied@)[t].len() > 0 && paths_view(
                    applied@,
                )[t].is_prefix_of(segs_view(p@))),
        decreases applied@.len() - j,
    {
        let cand = &applied[j];
        proof {
            assert(paths_view(applied@)[j as int] == segs_view(applied@[j as int]@));
        }
        if cand.len() > 0 && is_path_prefix(cand, p) {
            return true;
        }
        j += 1;
    }
    false
}

fn insert_member_exec(v: &Json, k: &String, to: &Json) -> (r: Json)
    ensures
        jv(r) == insert_member(jv(*v), k@, jv(*to)),
{
    match v {
        Json::Obj(m) => Json::Obj(obj_with(m, k, to.duplicate())),
        _ => v.duplicate(),
    }
}

/// Write `to` at the path suffix starting at `pos`, rebuilding the tree.
fn set_one_exec(
    v: &Json,
    path: &Vec<PathSegment>,
    pos: usize,
    lastk: Option<&String>,
    to: &Json,
) -> (r: Json)
    requires
        pos <= path@.len(),
    ensures
        jv(r) == set_one(jv(*v), segs_view(path@).skip(pos as int), lk_view(lastk), jv(*to)),
    decreases path@.len() - pos,
{
    let n = path.len();
    let ghost rest = segs_view(path@).skip(pos as int);
    if pos == n {
        return v.duplicate();
    }
    proof {
        assert(rest[0] == path@[pos as int]@);
        assert(rest.drop_first() =~= segs_view(path@).skip(pos + 1));
    }
    let seg = &path[pos];
    match seg {
        PathSegment::MemberName(k) => {
            match v {
                Json::Obj(m) => {
                    if pos + 1 == n {
                        match lastk {
                            Some(nk) => {
                                match obj_find(m, k) {
                                    Some(idx) => {
                                        proof {
                                            lemma_jv_obj_len(m@);
                                            lemma_jv_obj_index(m@, idx as int);
                                        }
                                        match &m[idx].1 {
                                            Json::Obj(cm) => {
                                                let inner = Json::Obj(
                                                    obj_with(cm, nk, to.duplicate()),
                                                );
                                                Json::Obj(obj_with(m, k, inner))
                                            },
                                            _ => v.duplicate(),
                                        }
                                    },
                                    None => v.duplicate(),
                                }
                            },
                            None => Json::Obj(obj_with(m, k, to.duplicate())),
                        }
                    } else {
                        match obj_find(m, k) {
                            Some(idx) => {
                                proof {
                                    lemma_jv_obj_len(m@);
                                    lemma_jv_obj_index(m@, idx as int);
                                }
                                let child = set_one_exec(&m[idx].1, path, pos + 1, lastk, to);
                                Json::Obj(obj_with(m, k, child))
                            },
                            None => v.duplicate(),
                        }
                    }
                },
                _ => v.duplicate(),
            }
        },
        PathSegment::ArrayIndex(u) => {
            match v {
                Json::Arr(a) => {
                    proof {
                        lemma_jv_arr_len(a@);
                    }
                    if pos + 1 == n {
                        match lastk {
                            Some(nk) => {
                                if *u < a.len() {
                                    proof {
                                        lemma_jv_arr_index(a@, *u as int);
                                    }
                                    match &a[*u] {
                                        Json::Obj(cm) => {
                                            let inner = Json::Obj(obj_with(cm, nk, to.duplicate()));
                                            Json::Arr(arr_with(a, *u, inner))
                                        },
                                        _ => v.duplicate(),
                                    }
                                } else {
                                    v.duplicate()
                                }
                            },
                            None => {
                                if *u <= a.len() {
                                    Json::Arr(arr_insert(a, *u, to.duplicate()))
                                } else {
                                    v.duplicate()
                                }
                            },
                        }
                    } else {
                        if *u < a.len() {
                            proof {
                                lemma_jv_arr_index(a@, *u as int);
                            }
                            let child = set_one_exec(&a[*u], path, pos + 1, lastk, to);
                            Json::Arr(arr_with(a, *u, child))
                        } else {
                            v.duplicate()
                        }
                    }
                },
                _ => v.duplicate(),
            }
        },
    }
}

/// The document with `to` written at every node the query matches,
/// computed as a new tree; the input document is not touched. A trailing
/// member-name step may create the key it names. `Err` exactly when the
/// query does not parse or the matcher trips its explosion guard.
#[verifier::loop_isolation(false)]
pub fn set(path: &str, val: &Json, to: &Json) -> (r: Result<Json, String>)
    requires
        wf(val@),
    ensures
        match r {
            Ok(res) => spec_set(path@, val@, to@) == Some(res@),
            Err(_) => spec_set(path@, val@, to@) is None,
        },
{
    let mut sels = match parse(path) {
        Ok(v) => v,
        Err(e) => {
            return Err(e);
        },
    };
    let ghost sels0 = sels_view(sels@);
    if is_root_only_exec(&sels) {
        return Ok(to.duplicate());
    }
    let mut lastk: Option<String> = None;
    let n = sels.len();
    proof {
        assert(sels0.len() >= 1);
    }
    let is_last_member = match &sels[n - 1] {
        Selector::DotMemberName(_) => true,
        _ => false,
    };
    if is_last_member {
        let last = sels.pop().unwrap();
        proof {
            assert(sels_view(sels@) =~= sels0.drop_last());
        }
        match last {
            Selector::DotMemberName(k) => {
                lastk = Some(k);
            },
            _ => {
                proof {
                    assert(false);
                }
            },
        }
    }
    let lastk_ref: Option<&String> = match &lastk {
        Some(k) => Some(k),
        None => None,
    };
    let ghost lk = trailing_member(sels0);
    let ghost sv = sels_view(sels@);
    proof {
        assert(sels0.last() == sels0[sels0.len() - 1]);
        assert(lk == lk_view(lastk_ref));
        assert(sv == if lk is Some {
            sels0.drop_last()
        } else {
            sels0
        });
    }
    if is_root_only_exec(&sels) {
        match &lastk {
            Some(k) => {
                return Ok(insert_member_exec(val, k, to));
            },
            None => {
                proof {
                    assert(false);
                }
                return Ok(val.duplicate());
            },
        }
    }
    let paths = match crate::matcher::matches(sels, val) {
        Ok(v) => v,
        Err(e) => {
            return Err(e);
        },
    };
    let ghost ps = paths_view(paths@);
    let ghost tov = jv(*to);
    let mut res = val.duplicate();
    let mut applied: Vec<Vec<PathSegment>> = Vec::new();
    proof {
        assert(paths_view(applied@) =~= Seq::<Seq<SegV>>::empty());
    }
    let mut i: usize = 0;
    while i < paths.len()
        invariant
            i <= paths@.len(),
            ps == paths_view(paths@),
            lk == lk_view(lastk_ref),
            set_fold(jv(*val), ps, 0, Seq::empty(), lk, tov) == set_fold(
                jv(res),
                ps,
                i as int,
                paths_view(applied@),
                lk,
                tov,
            ),
        decreases paths@.len() - i,
    {
        let path_i = &paths[i];
        proof {
            assert(ps[i as int] == segs_view(path_i@));
        }
        let skip_it = continues_any(&applied, path_i);
        if !skip_it {
            let ghost pre_applied = paths_view(applied@);
            let dup = crate::matcher::path_dup(path_i);
            applied.push(dup);
            let nres = set_one_exec(&res, path_i, 0, lastk_ref, to);
            proof {
                assert(segs_view(path_i@).skip(0) =~= segs_view(path_i@));
                assert(paths_view(applied@) =~= pre_applied.push(ps[i as int]));
            }
            res = nres;
        }
        i += 1;
    }
    Ok(res)
}

/// What a caller-supplied transformation does with one matched node.
pub enum MapAction<T> {
    ReplaceWith(T),
    Delete,
}

/// The model of a `MapAction` over documents.
pub enum ActV {
    Replace(Jv),
    Delete,
}

pub open spec fn act_view(a: MapAction<Json>) -> ActV {
    match a {
        MapAction::ReplaceWith(v) => ActV::Replace(jv(v)),
        MapAction::Delete => ActV::Delete,
    }
}

pub open spec fn acts_view(s: Seq<MapAction<Json>>) -> Seq<ActV> {
    s.map_values(|a: MapAction<Json>| act_view(a))
}

/// Apply one action at the end of one concrete path: the terminal object
/// key is rebound or removed, the terminal array position gains an
/// inserted element or loses its element. A path that no longer fits the
/// tree leaves it unchanged.
pub open spec fn map_one(v: Jv, path: Seq<SegV>, act: ActV) -> Jv
    decreases path.len(),
{
    if path.len() == 0 {
        v
    } else {
        match path[0] {
            SegV::Member(k) => match v {
                Jv::Obj(m) => if path.len() == 1 {
                    match obj_get(m, k) {
                        Some(_) => match act {
                            ActV::Replace(nv) => Jv::Obj(obj_set(m, k, nv)),
                            ActV::Delete => Jv::Obj(obj_remove(m, k)),
                        },
                        None => v,
                    }
                } else {
                    match obj_get(m, k) {
                        Some(c) => Jv::Obj(obj_set(m, k, map_one(c, path.drop_first(), act))),
                        None => v,
                    }
                },
                _ => v,
            },
            SegV::Index(i) => match v {
                Jv::Arr(a) => if path.len() == 1 {
                    if 0 <= i < a.len() {
                        match act {
                            ActV::Replace(nv) => Jv::Arr(a.insert(i, nv)),
                            ActV::Delete => Jv::Arr(a.remove(i)),
                        }
                    } else {
                        v
                    }
                } else {
                    if 0 <= i < a.len() {
                        Jv::Arr(a.update(i, map_one(a[i], path.drop_first(), act)))
                    } else {
                        v
                    }
                },
                _ => v,
            },
        }
    }
}

/// Apply the actions along the matched paths in order, with the same
/// skip rule as `set_fold`; an action is consumed exactly when the path
/// still names a node.
pub open spec fn map_fold(doc: Jv, ps: Seq<Seq<SegV>>, i: int, applied: Seq<Seq<SegV>>, acts: Seq<ActV>) -> Jv
    decreases ps.len() - i,
{
    if i < 0 || i >= ps.len() {
        doc
    } else if continues_applied(applied, ps[i]) {
        map_fold(doc, ps, i + 1, applied, acts)
    } else if ps[i].len() > 0 && resolve(doc, ps[i]) is Some {
        let act = if acts.len() > 0 {
            acts[0]
        } else {
            ActV::Delete
        };
        let rest = if acts.len() > 0 {
            acts.drop_first()
        } else {
            acts
        };
        map_fold(map_one(doc, ps[i], act), ps, i + 1, applied.push(ps[i]), rest)
    } else {
        map_fold(doc, ps, i + 1, applied.push(ps[i]), acts)
    }
}

/// The nodes the transformation is invoked on, in invocation order.
pub open spec fn map_args(doc: Jv, ps: Seq<Seq<SegV>>, i: int, applied: Seq<Seq<SegV>>, acts: Seq<ActV>) -> Seq<Jv>
    decreases ps.len() - i,
{
    if i < 0 || i >= ps.len() {
        Seq::empty()
    } else if continues_applied(applied, ps[i]) {
        map_args(doc, ps, i + 1, applied, acts)
    } else if ps[i].len() > 0 && resolve(doc, ps[i]) is Some {
        let act = if acts.len() > 0 {
            acts[0]
        } else {
            ActV::Delete
        };
        let rest = if acts.len() > 0 {
            acts.drop_first()
        } else {
            acts
        };
        seq![got(resolve(doc, ps[i]))] + map_args(
            map_one(doc, ps[i], act),
            ps,
            i + 1,
            applied.push(ps[i]),
            rest,
        )
    } else {
        map_args(doc, ps, i + 1, applied.push(ps[i]), acts)
    }
}

/// The concrete paths `map_each` walks: what the matcher returns for the
/// compiled query, with no identity special case.
pub open spec fn spec_map_paths(q: Seq<char>, doc: Jv) -> Option<Seq<Seq<SegV>>> {
    match spec_parse(q) {
        None => None,
        Some(sels) => match spec_matches(sels, doc) {
            Ok(ps) => Some(ps),
            Err(_) => None,
        },
    }
}

/// The actions of a transformation history, in order.
pub open spec fn hist_acts(h: Seq<(Json, MapAction<Json>)>) -> Seq<ActV> {
    h.map_values(|p: (Json, MapAction<Json>)| act_view(p.1))
}

/// The argument models of a transformation history, in order.
pub open spec fn hist_args(h: Seq<(Json, MapAction<Json>)>) -> Seq<Jv> {
    h.map_values(|p: (Json, MapAction<Json>)| jv(p.0))
}

/// Walk one path suffix in `v`; at its end invoke the transformation and
/// apply what it returns. The ghost result reports the node handed to the
/// transformation and the action taken, or `None` when the path was empty
/// or no longer names a node.
fn map_apply<F: Fn(&Json) -> MapAction<Json>>(
    v: &Json,
    path: &Vec<PathSegment>,
    pos: usize,
    fun: &F,
) -> (r: (Json, Ghost<Option<(Json, MapAction<Json>)>>))
    requires
        pos <= path@.len(),
        forall|x: &Json| #[trigger] call_requires(*fun, (x,)),
    ensures
        ({
            let rest = segs_view(path@).skip(pos as int);
            match r.1@ {
                Some(pair) => rest.len() > 0 && resolve(jv(*v), rest) is Some && jv(r.0)
                    == map_one(jv(*v), rest, act_view(pair.1)) && jv(pair.0) == got(
                    resolve(jv(*v), rest),
                ) && call_ensures(*fun, (&pair.0,), pair.1),
                None => (rest.len() == 0 || resolve(jv(*v), rest) is None) && jv(r.0) == jv(*v),
            }
        }),
    decreases path@.len() - pos,
{
    let n = path.len();
    let ghost rest = segs_view(path@).skip(pos as int);
    if pos == n {
        return (v.duplicate(), Ghost(None));
    }
    proof {
        assert(rest[0] == path@[pos as int]@);
        assert(rest.drop_first() =~= segs_view(path@).skip(pos + 1));
    }
    let seg = &path[pos];
    match seg {
        PathSegment::MemberName(k) => {
            match v {
                Json::Obj(m) => {
                    match obj_find(m, k) {
                        Some(idx) => {
                            proof {
                                lemma_jv_obj_len(m@);
                                lemma_jv_obj_index(m@, idx as int);
                                lemma_obj_idx(jv_obj(m@), k@);
                            }
                            if pos + 1 == n {
                                let x = &m[idx].1;
                                let act = fun(x);
                                let ghost snap = (*x, act);
                                proof {
                                    assert(resolve(jv(m@[idx as int].1), rest.drop_first())
                                        == Some(jv(m@[idx as int].1)));
                                    assert(resolve(jv(*v), rest) == Some(jv(m@[idx as int].1)));
                                    assert(call_ensures(*fun, (&snap.0,), snap.1));
                                }
                                let out = match act {
                                    MapAction::Delete => Json::Obj(obj_without(m, k)),
                                    MapAction::ReplaceWith(nv) => Json::Obj(obj_with(m, k, nv)),
                                };
                                (out, Ghost(Some(snap)))
                            } else {
                                let rr = map_apply(&m[idx].1, path, pos + 1, fun);
                                let child = rr.0;
                                let g = rr.1;
                                let ghost childv = jv(child);
                                let out = Json::Obj(obj_with(m, k, child));
                                proof {
                                    if g@ is None {
                                        assert(obj_set(jv_obj(m@), k@, childv) =~= jv_obj(m@));
                                    }
                                }
                                (out, g)
                            }
                        },
                        None => (v.duplicate(), Ghost(None)),
                    }
                },
                _ => (v.duplicate(), Ghost(None)),
            }
        },
        PathSegment::ArrayIndex(u) => {
            match v {
                Json::Arr(a) => {
                    proof {
                        lemma_jv_arr_len(a@);
                    }
                    if *u < a.len() {
                        proof {
                            lemma_jv_arr_index(a@, *u as int);
                        }
                        if pos + 1 == n {
                            let x = &a[*u];
                            let act = fun(x);
                            let ghost snap = (*x, act);
                            proof {
                                assert(resolve(jv(a@[*u as int]), rest.drop_first()) == Some(
                                    jv(a@[*u as int]),
                                ));
                                assert(resolve(jv(*v), rest) == Some(jv(a@[*u as int])));
                                assert(call_ensures(*fun, (&snap.0,), snap.1));
                            }
                            let out = match act {
                                MapAction::Delete => Json::Arr(arr_without(a, *u)),
                                MapAction::ReplaceWith(nv) => Json::Arr(arr_insert(a, *u, nv)),
                            };
                            (out, Ghost(Some(snap)))
                        } else {
                            let rr = map_apply(&a[*u], path, pos + 1, fun);
                            let child = rr.0;
                            let g = rr.1;
                            let ghost childv = jv(child);
                            let out = Json::Arr(arr_with(a, *u, child));
                            proof {
                                if g@ is None {
                                    assert(jv_arr(a@).update(*u as int, childv) =~= jv_arr(a@));
                                }
                            }
                            (out, g)
                        }
                    } else {
                        (v.duplicate(), Ghost(None))
                    }
                },
                _ => (v.duplicate(), Ghost(None)),
            }
        },
    }
}

/// The document with a caller-supplied transformation applied at every
/// node the query matches: per non-shadowed matched path, the node is
/// handed to `fun`, and the returned action replaces or deletes it. The
/// history `hist` in the contract records each invocation: the node handed
/// over and the action `fun` chose for it. The result is a new tree; the
/// input document is not touched. `Err` exactly when the query does not
/// parse or the matcher trips its explosion guard.
#[verifier::loop_isolation(false)]
pub fn map_each<F: Fn(&Json) -> MapAction<Json>>(path: &str, val: &Json, fun: &F) -> (r: Result<
    Json,
    String,
>)
    requires
        wf(val@),
        forall|x: &Json| #[trigger] call_requires(*fun, (x,)),
    ensures
        match r {
            Ok(res) => spec_map_paths(path@, val@) matches Some(ps) && exists|
                hist: Seq<(Json, MapAction<Json>)>,
            |
                #![trigger hist_acts(hist)]
                {
                    &&& res@ == map_fold(val@, ps, 0, Seq::empty(), hist_acts(hist))
                    &&& hist_args(hist) == map_args(val@, ps, 0, Seq::empty(), hist_acts(hist))
                    &&& forall|j: int|
                        #![trigger hist[j]]
                        0 <= j < hist.len() ==> call_ensures(*fun, (&hist[j].0,), hist[j].1)
                },
            Err(_) => spec_map_paths(path@, val@) is None,
        },
{
    let sels = match parse(path) {
        Ok(v) => v,
        Err(e) => {
            return Err(e);
        },
    };
    let paths = match crate::matcher::matches(sels, val) {
        Ok(v) => v,
        Err(e) => {
            return Err(e);
        },
    };
    let ghost ps = paths_view(paths@);
    let mut res = val.duplicate();
    let mut applied: Vec<Vec<PathSegment>> = Vec::new();
    let ghost mut g_hist: Seq<(Json, MapAction<Json>)> = Seq::empty();
    proof {
        assert(paths_view(applied@) =~= Seq::<Seq<SegV>>::empty());
        assert forall|future: Seq<ActV>|
            #[trigger] map_fold(jv(*val), ps, 0, Seq::empty(), hist_acts(g_hist) + future)
                == map_fold(jv(res), ps, 0, paths_view(applied@), future) by {
            assert(hist_acts(g_hist) + future =~= future);
        }
        assert forall|future: Seq<ActV>|
            #[trigger] map_args(jv(*val), ps, 0, Seq::empty(), hist_acts(g_hist) + future)
                == hist_args(g_hist) + map_args(jv(res), ps, 0, paths_view(applied@), future) by {
            assert(hist_acts(g_hist) + future =~= future);
            assert(hist_args(g_hist) + map_args(jv(res), ps, 0, paths_view(applied@), future)
                =~= map_args(jv(res), ps, 0, paths_view(applied@), future));
        }
    }
    let mut i: usize = 0;
    while i < paths.len()
        invariant
            i <= paths@.len(),
            ps == paths_view(paths@),
            forall|future: Seq<ActV>|
                #[trigger] map_fold(jv(*val), ps, 0, Seq::empty(), hist_acts(g_hist) + future)
                    == map_fold(jv(res), ps, i as int, paths_view(applied@), future),
            forall|future: Seq<ActV>|
                #[trigger] map_args(jv(*val), ps, 0, Seq::empty(), hist_acts(g_hist) + future)
                    == hist_args(g_hist) + map_args(jv(res), ps, i as int, paths_view(applied@), future),
            forall|j: int|
                #![trigger g_hist[j]]
                0 <= j < g_hist.len() ==> call_ensures(*fun, (&g_hist[j].0,), g_hist[j].1),
        decreases paths@.len() - i,
    {
        let path_i = &paths[i];
        proof {
            assert(ps[i as int] == segs_view(path_i@));
        }
        let skip_it = continues_any(&applied, path_i);
        if !skip_it {
            let ghost old_applied = paths_view(applied@);
            let ghost old_res = jv(res);
            let ghost old_hist = g_hist;
            let dup = crate::matcher::path_dup(path_i);
            applied.push(dup);
            let rr = map_apply(&res, path_i, 0, fun);
            proof {
                assert(segs_view(path_i@).skip(0) =~= segs_view(path_i@));
                assert(paths_view(applied@) =~= old_applied.push(ps[i as int]));
            }
            let nres = rr.0;
            let g = rr.1;
            res = nres;
            proof {
                match g@ {
                    Some(pair) => {
                        g_hist = old_hist.push(pair);
                        let av = act_view(pair.1);
                        assert forall|future: Seq<ActV>|
                            #[trigger] map_fold(
                                jv(*val),
                                ps,
                                0,
                                Seq::empty(),
                                hist_acts(g_hist) + future,
                            ) == map_fold(jv(res), ps, i + 1, paths_view(applied@), future) by {
                            let fplus = seq![av] + future;
                            assert(hist_acts(g_hist) + future =~= hist_acts(old_hist) + fplus);
                            assert(map_fold(jv(*val), ps, 0, Seq::empty(), hist_acts(old_hist)
                                + fplus) == map_fold(old_res, ps, i as int, old_applied, fplus));
                            assert(fplus[0] == av);
                            assert(fplus.drop_first() =~= future);
                        }
                        assert forall|future: Seq<ActV>|
                            #[trigger] map_args(
                                jv(*val),
                                ps,
                                0,
                                Seq::empty(),
                                hist_acts(g_hist) + future,
                            ) == hist_args(g_hist) + map_args(
                                jv(res),
                                ps,
                                i + 1,
                                paths_view(applied@),
                                future,
                            ) by {
                            let fplus = seq![av] + future;
                            assert(hist_acts(g_hist) + future =~= hist_acts(old_hist) + fplus);
                            assert(map_args(jv(*val), ps, 0, Seq::empty(), hist_acts(old_hist)
                                + fplus) == hist_args(old_hist) + map_args(
                                old_res,
                                ps,
                                i as int,
                                old_applied,
                                fplus,
                            ));
                            assert(fplus[0] == av);
                            assert(fplus.drop_first() =~= future);
                            assert(hist_args(old_hist) + (seq![got(resolve(old_res, ps[i as int]))]
                                + map_args(jv(res), ps, i + 1, paths_view(applied@), future))
                                =~= hist_args(g_hist) + map_args(
                                jv(res),
                                ps,
                                i + 1,
                                paths_view(applied@),
                                future,
                            ));
                        }
                        assert forall|j: int|
                            #![trigger g_hist[j]]
                            0 <= j < g_hist.len() implies call_ensures(
                            *fun,
                            (&g_hist[j].0,),
                            g_hist[j].1,
                        ) by {
                            if j < old_hist.len() {
                                assert(g_hist[j] == old_hist[j]);
                            } else {
                                assert(g_hist[j] == pair);
                            }
                        }
                    },
                    None => {
                        assert forall|future: Seq<ActV>|
                            #[trigger] map_fold(
                                jv(*val),
                                ps,
                                0,
                                Seq::empty(),
                                hist_acts(g_hist) + future,
                            ) == map_fold(jv(res), ps, i + 1, paths_view(applied@), future) by {
                            assert(map_fold(jv(*val), ps, 0, Seq::empty(), hist_acts(g_hist)
                                + future) == map_fold(old_res, ps, i as int, old_applied, future));
                        }
                        assert forall|future: Seq<ActV>|
                            #[trigger] map_args(
                                jv(*val),
                                ps,
                                0,
                                Seq::empty(),
                                hist_acts(g_hist) + future,
                            ) == hist_args(g_hist) + map_args(
                                jv(res),
                                ps,
                                i + 1,
                                paths_view(applied@),
                                future,
                            ) by {
                            assert(map_args(jv(*val), ps, 0, Seq::empty(), hist_acts(g_hist)
                                + future) == hist_args(g_hist) + map_args(
                                old_res,
                                ps,
                                i as int,
                                old_applied,
                                future,
                            ));
                        }
                    },
                }
            }
        } else {
            proof {
                assert forall|future: Seq<ActV>|
                    #[trigger] map_fold(jv(*val), ps, 0, Seq::empty(), hist_acts(g_hist) + future)
                        == map_fold(jv(res), ps, i + 1, paths_view(applied@), future) by {
                    assert(map_fold(jv(*val), ps, 0, Seq::empty(), hist_acts(g_hist) + future)
                        == map_fold(jv(res), ps, i as int, paths_view(applied@), future));
                }
                assert forall|future: Seq<ActV>|
                    #[trigger] map_args(jv(*val), ps, 0, Seq::empty(), hist_acts(g_hist) + future)
                        == hist_args(g_hist) + map_args(
                        jv(res),
                        ps,
                        i + 1,
                        paths_view(applied@),
                        future,
                    ) by {
                    assert(map_args(jv(*val), ps, 0, Seq::empty(), hist_acts(g_hist) + future)
                        == hist_args(g_hist) + map_args(
                        jv(res),
                        ps,
                        i as int,
                        paths_view(applied@),
                        future,
                    ));
                }
            }
        }
        i += 1;
    }
    proof {
        assert(map_fold(jv(*val), ps, 0, Seq::empty(), hist_acts(g_hist) + Seq::<ActV>::empty())
            == map_fold(jv(res), ps, paths@.len() as int, paths_view(applied@), Seq::empty()));
        assert(hist_acts(g_hist) + Seq::<ActV>::empty() =~= hist_acts(g_hist));
        assert(map_args(jv(*val), ps, 0, Seq::empty(), hist_acts(g_hist) + Seq::<ActV>::empty())
            == hist_args(g_hist) + map_args(
            jv(res),
            ps,
            paths@.len() as int,
            paths_view(applied@),
            Seq::empty(),
        ));
        assert(hist_args(g_hist) + map_args(
            jv(res),
            ps,
            paths@.len() as int,
            paths_view(applied@),
            Seq::<ActV>::empty(),
        ) =~= hist_args(g_hist));
        assert(spec_map_paths(path@, val@) == Some(ps));
        assert(res@ == map_fold(val@, ps, 0, Seq::empty(), hist_acts(g_hist)));
        assert(hist_args(g_hist) == map_args(val@, ps, 0, Seq::empty(), hist_acts(g_hist)));
    }
    Ok(res)
}

} // verus!
