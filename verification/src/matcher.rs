//! Concrete path segments and the arithmetic that resolves array indices
//! and slices.

use vstd::prelude::*;

use crate::json::{
    distinct_keys, jsize, jsize_arr, jsize_obj, jv, jv_arr, jv_obj, lemma_jv_arr_index, lemma_jv_arr_len,
    lemma_jv_obj_index, lemma_jv_obj_len, lemma_obj_get_at, lemma_obj_idx, lemma_wf_arr_index,
    lemma_wf_obj_index, obj_find, obj_get, obj_idx, wf, Json, Jv,
};
use crate::parser::{opt_int, sels_view, SelV, Selector, UmV, UnionMember};

verus! {

/// One step of a concrete, fully resolved path: an object key or an
/// in-bounds array offset.
#[derive(Clone, Debug, PartialEq)]
pub enum PathSegment {
    MemberName(String),
    ArrayIndex(usize),
}

/// The model of a `PathSegment`.
pub enum SegV {
    Member(Seq<char>),
    Index(int),
}

impl View for PathSegment {
    type V = SegV;

    open spec fn view(&self) -> SegV {
        match self {
            PathSegment::MemberName(k) => SegV::Member(k@),
            PathSegment::ArrayIndex(i) => SegV::Index(*i as int),
        }
    }
}

pub open spec fn segs_view(p: Seq<PathSegment>) -> Seq<SegV> {
    p.map_values(|s: PathSegment| s@)
}

pub open spec fn paths_view(ps: Seq<Vec<PathSegment>>) -> Seq<Seq<SegV>> {
    ps.map_values(|p: Vec<PathSegment>| segs_view(p@))
}

/// One resolution step: the child of `v` under segment `s`, if it exists.
pub open spec fn step(v: Jv, s: SegV) -> Option<Jv> {
    match s {
        SegV::Member(k) => match v {
            Jv::Obj(m) => obj_get(m, k),
            _ => None,
        },
        SegV::Index(i) => match v {
            Jv::Arr(a) => if 0 <= i < a.len() {
                Some(a[i])
            } else {
                None
            },
            _ => None,
        },
    }
}

/// Walk a concrete path down from `v`, segment by segment.
pub open spec fn resolve(v: Jv, p: Seq<SegV>) -> Option<Jv>
    decreases p.len(),
{
    if p.len() == 0 {
        Some(v)
    } else {
        match step(v, p[0]) {
            Some(c) => resolve(c, p.drop_first()),
            None => None,
        }
    }
}

/// Resolving one more segment at the end walks to the child of the old
/// terminal node.
pub proof fn lemma_resolve_snoc(v: Jv, p: Seq<SegV>, s: SegV)
    ensures
        resolve(v, p.push(s)) == match resolve(v, p) {
            Some(c) => step(c, s),
            None => None,
        },
    decreases p.len(),
{
    if p.len() == 0 {
        assert(p.push(s)[0] == s);
        assert(p.push(s).drop_first() =~= Seq::<SegV>::empty());
        match step(v, s) {
            Some(c) => {
                assert(resolve(c, Seq::<SegV>::empty()) == Some(c));
            },
            None => {},
        }
    } else {
        assert(p.push(s)[0] == p[0]);
        assert(p.push(s).drop_first() =~= p.drop_first().push(s));
        match step(v, p[0]) {
            Some(c) => {
                lemma_resolve_snoc(c, p.drop_first(), s);
                assert(resolve(v, p.push(s)) == resolve(c, p.drop_first().push(s)));
                assert(resolve(v, p) == resolve(c, p.drop_first()));
            },
            None => {},
        }
    }
}

/// The wrapped-index rule: a non-negative index must be in bounds; a
/// negative one counts back from the end and must not reach before the
/// first element.
pub open spec fn wrap_index(i: int, len: int) -> Option<int> {
    if i >= 0 {
        if i < len {
            Some(i)
        } else {
            None
        }
    } else if -i <= len {
        Some(len + i)
    } else {
        None
    }
}

/// A negative slice bound counts back from the end of the array.
pub open spec fn norm_bound(i: int, len: int) -> int {
    if i >= 0 {
        i
    } else {
        len + i
    }
}

pub open spec fn clamped(i: int, lo: int, hi: int) -> int {
    if i < lo {
        lo
    } else if i > hi {
        hi
    } else {
        i
    }
}

/// The traversal window of a slice: for a forward step, both bounds are
/// clamped to `[0, len]`; for a backward step they are clamped to
/// `[-1, len - 1]`, where `-1` stands for "one before the first element".
pub open spec fn slice_bounds(start: int, end: int, step: int, len: int) -> (int, int) {
    let ns = norm_bound(start, len);
    let ne = norm_bound(end, len);
    if step >= 0 {
        (clamped(ns, 0, len), clamped(ne, 0, len))
    } else {
        (clamped(ne, -1, len - 1), clamped(ns, -1, len - 1))
    }
}

/// The indices visited walking up from `i` by `step` while below `upper`.
pub open spec fn walk_up(i: int, upper: int, step: int) -> Seq<int>
    decreases upper + step - i,
    when step >= 1
{
    if i < upper {
        seq![i] + walk_up(i + step, upper, step)
    } else {
        Seq::empty()
    }
}

/// The indices visited walking down from `i` by `step` (negative) while
/// above `lower`.
pub open spec fn walk_down(i: int, lower: int, step: int) -> Seq<int>
    decreases i - step - lower,
    when step <= -1
{
    if lower < i {
        seq![i] + walk_down(i + step, lower, step)
    } else {
        Seq::empty()
    }
}

pub proof fn lemma_walk_up_bounds(i: int, upper: int, step: int)
    requires
        step >= 1,
    ensures
        forall|j: int| 0 <= j < walk_up(i, upper, step).len() ==> i <= #[trigger] walk_up(
            i,
            upper,
            step,
        )[j] < upper,
    decreases upper + step - i,
{
    if i < upper {
        lemma_walk_up_bounds(i + step, upper, step);
        assert forall|j: int| 0 <= j < walk_up(i, upper, step).len() implies i <= #[trigger] walk_up(
            i,
            upper,
            step,
        )[j] < upper by {
            if j > 0 {
                assert(walk_up(i, upper, step)[j] == walk_up(i + step, upper, step)[j - 1]);
            }
        }
    }
}

pub proof fn lemma_walk_down_bounds(i: int, lower: int, step: int)
    requires
        step <= -1,
    ensures
        forall|j: int| 0 <= j < walk_down(i, lower, step).len() ==> lower < #[trigger] walk_down(
            i,
            lower,
            step,
        )[j] <= i,
    decreases i - step - lower,
{
    if lower < i {
        lemma_walk_down_bounds(i + step, lower, step);
        assert forall|j: int| 0 <= j < walk_down(i, lower, step).len() implies lower
            < #[trigger] walk_down(i, lower, step)[j] <= i by {
            if j > 0 {
                assert(walk_down(i, lower, step)[j] == walk_down(i + step, lower, step)[j - 1]);
            }
        }
    }
}

/// The index sequence a slice selector visits on an array of `len`
/// elements, in traversal order. A missing step means `1`; a step of `0`
/// visits nothing.
pub open spec fn slice_indices(start: Option<int>, end: Option<int>, step_o: Option<int>, len: int) -> Seq<int> {
    let step = match step_o {
        Some(v) => v,
        None => 1,
    };
    let s0 = match start {
        Some(v) => v,
        None => if step >= 0 {
            0
        } else {
            len - 1
        },
    };
    let e0 = match end {
        Some(v) => v,
        None => if step >= 0 {
            len
        } else {
            -len - 1
        },
    };
    let b = slice_bounds(s0, e0, step, len);
    if step > 0 {
        walk_up(b.0, b.1, step)
    } else if step < 0 {
        walk_down(b.1, b.0, step)
    } else {
        Seq::empty()
    }
}

/// Every index a slice visits is in bounds.
pub proof fn lemma_slice_indices_bounds(
    start: Option<int>,
    end: Option<int>,
    step_o: Option<int>,
    len: int,
)
    requires
        len >= 0,
    ensures
        forall|j: int| 0 <= j < slice_indices(start, end, step_o, len).len() ==> 0
            <= #[trigger] slice_indices(start, end, step_o, len)[j] < len,
{
    let step = match step_o {
        Some(v) => v,
        None => 1,
    };
    let s0 = match start {
        Some(v) => v,
        None => if step >= 0 {
            0
        } else {
            len - 1
        },
    };
    let e0 = match end {
        Some(v) => v,
        None => if step >= 0 {
            len
        } else {
            -len - 1
        },
    };
    let b = slice_bounds(s0, e0, step, len);
    if step > 0 {
        lemma_walk_up_bounds(b.0, b.1, step);
    } else if step < 0 {
        lemma_walk_down_bounds(b.1, b.0, step);
    }
}

/// Resolve a possibly negative array index against an array of `len`
/// elements.
pub fn wrapped_index(idx: isize, len: usize) -> (r: Option<usize>)
    ensures
        match r {
            Some(j) => wrap_index(idx as int, len as int) == Some(j as int),
            None => wrap_index(idx as int, len as int) is None,
        },
{
    let ii = idx as i128;
    let ll = len as i128;
    if ii >= 0 {
        if ii < ll {
            Some(idx as usize)
        } else {
            None
        }
    } else {
        if -ii <= ll {
            Some((ll + ii) as usize)
        } else {
            None
        }
    }
}

/// Bring one slice bound into array coordinates.
pub fn normalize_slice_bound(i: i128, len: i128) -> (r: i128)
    requires
        -0x1_0000_0000_0000_0000 <= i <= 0x1_0000_0000_0000_0000,
        0 <= len <= 0x1_0000_0000_0000_0000,
    ensures
        r == norm_bound(i as int, len as int),
{
    if i >= 0 {
        i
    } else {
        len + i
    }
}

fn clamp128(i: i128, lo: i128, hi: i128) -> (r: i128)
    requires
        lo <= hi,
    ensures
        r == clamped(i as int, lo as int, hi as int),
{
    if i < lo {
        lo
    } else if i > hi {
        hi
    } else {
        i
    }
}

/// The clamped traversal window of a slice.
pub fn array_bounds(start: i128, end: i128, step: i128, len: i128) -> (r: (i128, i128))
    requires
        -0x1_0000_0000_0000_0000 <= start <= 0x1_0000_0000_0000_0000,
        -0x1_0000_0000_0000_0000 <= end <= 0x1_0000_0000_0000_0000,
        0 <= len <= 0x1_0000_0000_0000_0000,
    ensures
        (r.0 as int, r.1 as int) == slice_bounds(start as int, end as int, step as int, len as int),
{
    let ns = normalize_slice_bound(start, len);
    let ne = normalize_slice_bound(end, len);
    if step >= 0 {
        (clamp128(ns, 0, len), clamp128(ne, 0, len))
    } else {
        (clamp128(ne, -1, len - 1), clamp128(ns, -1, len - 1))
    }
}

pub open spec fn usizes_view(s: Seq<usize>) -> Seq<int> {
    s.map_values(|u: usize| u as int)
}

/// The in-bounds array offsets a slice selector visits, in traversal
/// order.
pub fn slice_positions(
    start: Option<isize>,
    end: Option<isize>,
    step: Option<isize>,
    len: usize,
) -> (r: Vec<usize>)
    ensures
        usizes_view(r@) == slice_indices(
            crate::parser::opt_int(start),
            crate::parser::opt_int(end),
            crate::parser::opt_int(step),
            len as int,
        ),
        forall|j: int| 0 <= j < r@.len() ==> #[trigger] r@[j] < len,
{
    let ll = len as i128;
    let stp: i128 = match step {
        Some(v) => v as i128,
        None => 1,
    };
    let s0: i128 = match start {
        Some(v) => v as i128,
        None => if stp >= 0 {
            0
        } else {
            ll - 1
        },
    };
    let e0: i128 = match end {
        Some(v) => v as i128,
        None => if stp >= 0 {
            ll
        } else {
            -ll - 1
        },
    };
    let bounds = array_bounds(s0, e0, stp, ll);
    let lower = bounds.0;
    let upper = bounds.1;
    let ghost target = slice_indices(
        crate::parser::opt_int(start),
        crate::parser::opt_int(end),
        crate::parser::opt_int(step),
        len as int,
    );
    let mut out: Vec<usize> = Vec::new();
    if stp > 0 {
        proof {
            assert(usizes_view(out@) + walk_up(lower as int, upper as int, stp as int) =~= target);
        }
        let mut i = lower;
        while i < upper
            invariant
                1 <= stp <= 0x8000_0000_0000_0000,
                0 <= lower <= i,
                upper <= ll,
                ll == len,
                usizes_view(out@) + walk_up(i as int, upper as int, stp as int) =~= target,
                forall|j: int| 0 <= j < out@.len() ==> #[trigger] out@[j] < len,
            decreases upper + stp - i,
        {
            let ghost prev = out@;
            out.push(i as usize);
            proof {
                assert(usizes_view(out@) =~= usizes_view(prev).push(i as int));
                assert(usizes_view(prev).push(i as int) + walk_up(
                    i as int + stp as int,
                    upper as int,
                    stp as int,
                ) =~= usizes_view(prev) + walk_up(i as int, upper as int, stp as int));
            }
            i = i + stp;
        }
        proof {
            assert(usizes_view(out@) =~= target);
        }
    } else if stp < 0 {
        proof {
            assert(usizes_view(out@) + walk_down(upper as int, lower as int, stp as int)
                =~= target);
        }
        let mut i = upper;
        while lower < i
            invariant
                -0x8000_0000_0000_0000 <= stp <= -1,
                -1 <= lower,
                i <= upper <= ll - 1,
                ll == len,
                usizes_view(out@) + walk_down(i as int, lower as int, stp as int) =~= target,
                forall|j: int| 0 <= j < out@.len() ==> #[trigger] out@[j] < len,
            decreases i - stp - lower,
        {
            let ghost prev = out@;
            out.push(i as usize);
            proof {
                assert(usizes_view(out@) =~= usizes_view(prev).push(i as int));
                assert(usizes_view(prev).push(i as int) + walk_down(
                    i as int + stp as int,
                    lower as int,
                    stp as int,
                ) =~= usizes_view(prev) + walk_down(i as int, lower as int, stp as int));
            }
            i = i + stp;
        }
        proof {
            assert(usizes_view(out@) =~= target);
        }
    } else {
        proof {
            assert(usizes_view(out@) =~= target);
        }
    }
    out
}

/// The bound on in-flight candidates between selector stages; exceeding it
/// is an evaluation failure.
pub const MAX_ACCUMULATOR_SIZE: usize = 1000;

/// The immediate children of a node, each with the segment that reaches it,
/// in document order: object entries first-to-last, array elements
/// front-to-back.
pub open spec fn child_cands(p: Seq<SegV>, v: Jv) -> Seq<(Seq<SegV>, Jv)> {
    match v {
        Jv::Obj(m) => Seq::new(m.len(), |i: int| (p.push(SegV::Member(m[i].0)), m[i].1)),
        Jv::Arr(a) => Seq::new(a.len(), |i: int| (p.push(SegV::Index(i)), a[i])),
        _ => Seq::empty(),
    }
}

/// What a descendant selector looks for at each visited node.
pub enum DescKind {
    Member(Seq<char>),
    Index(int),
    Wild,
}

/// What one node contributes to the match set: for a member kind, its `k`
/// entry if it is an object that has one; for an index kind, the resolved
/// element if it is an array; for the wildcard, all its children.
pub open spec fn desc_emits(p: Seq<SegV>, v: Jv, kind: DescKind) -> Seq<(Seq<SegV>, Jv)> {
    match kind {
        DescKind::Member(k) => match v {
            Jv::Obj(m) => match obj_get(m, k) {
                Some(c) => seq![(p.push(SegV::Member(k)), c)],
                None => Seq::empty(),
            },
            _ => Seq::empty(),
        },
        DescKind::Index(i) => match v {
            Jv::Arr(a) => match wrap_index(i, a.len() as int) {
                Some(j) => seq![(p.push(SegV::Index(j)), a[j])],
                None => Seq::empty(),
            },
            _ => Seq::empty(),
        },
        DescKind::Wild => child_cands(p, v),
    }
}

/// Total size of the nodes still on a traversal stack.
pub open spec fn stack_size(s: Seq<(Seq<SegV>, Jv)>) -> nat
    decreases s.len(),
{
    if s.len() == 0 {
        0
    } else {
        jsize(s[0].1) + stack_size(s.drop_first())
    }
}

pub proof fn lemma_jsize_pos(v: Jv)
    ensures
        jsize(v) >= 1,
{
}

pub proof fn lemma_stack_size_concat(s1: Seq<(Seq<SegV>, Jv)>, s2: Seq<(Seq<SegV>, Jv)>)
    ensures
        stack_size(s1 + s2) == stack_size(s1) + stack_size(s2),
    decreases s1.len(),
{
    if s1.len() == 0 {
        assert(s1 + s2 =~= s2);
    } else {
        assert((s1 + s2).drop_first() =~= s1.drop_first() + s2);
        lemma_stack_size_concat(s1.drop_first(), s2);
    }
}

pub proof fn lemma_stack_size_last(s: Seq<(Seq<SegV>, Jv)>)
    requires
        s.len() > 0,
    ensures
        stack_size(s) == stack_size(s.drop_last()) + jsize(s.last().1),
{
    assert(s =~= s.drop_last() + seq![s.last()]);
    lemma_stack_size_concat(s.drop_last(), seq![s.last()]);
    assert(stack_size(seq![s.last()]) == jsize(s.last().1) + stack_size(
        seq![s.last()].drop_first(),
    ));
    assert(seq![s.last()].drop_first() =~= Seq::<(Seq<SegV>, Jv)>::empty());
}

proof fn lemma_stack_size_elems(s: Seq<(Seq<SegV>, Jv)>, a: Seq<Jv>)
    requires
        s.len() == a.len(),
        forall|i: int| 0 <= i < s.len() ==> (#[trigger] s[i]).1 == a[i],
    ensures
        stack_size(s) == jsize_arr(a),
    decreases a.len(),
{
    if a.len() > 0 {
        assert forall|i: int| 0 <= i < s.drop_first().len() implies (#[trigger] s.drop_first()[
            i
        ]).1 == a.drop_first()[i] by {
            assert(s.drop_first()[i] == s[i + 1]);
        }
        lemma_stack_size_elems(s.drop_first(), a.drop_first());
    }
}

proof fn lemma_stack_size_entries(s: Seq<(Seq<SegV>, Jv)>, m: Seq<(Seq<char>, Jv)>)
    requires
        s.len() == m.len(),
        forall|i: int| 0 <= i < s.len() ==> (#[trigger] s[i]).1 == m[i].1,
    ensures
        stack_size(s) == jsize_obj(m),
    decreases m.len(),
{
    if m.len() > 0 {
        assert forall|i: int| 0 <= i < s.drop_first().len() implies (#[trigger] s.drop_first()[
            i
        ]).1 == m.drop_first()[i].1 by {
            assert(s.drop_first()[i] == s[i + 1]);
        }
        lemma_stack_size_entries(s.drop_first(), m.drop_first());
    }
}

/// A node's children hold one node fewer than the node itself.
pub proof fn lemma_child_cands_size(p: Seq<SegV>, v: Jv)
    ensures
        stack_size(child_cands(p, v)) + 1 == jsize(v),
{
    match v {
        Jv::Arr(a) => {
            lemma_stack_size_elems(child_cands(p, v), a);
        },
        Jv::Obj(m) => {
            lemma_stack_size_entries(child_cands(p, v), m);
        },
        _ => {},
    }
}

/// The match set of a depth-first descent over a worklist stack: the top
/// node's own contribution, then the rest of the stack with the top node's
/// children pushed. Children are pushed in document order and popped from
/// the end, so subtrees are visited last-child-first.
pub open spec fn descend(stack: Seq<(Seq<SegV>, Jv)>, kind: DescKind) -> Seq<(Seq<SegV>, Jv)>
    decreases stack_size(stack),
    via descend_decreases
{
    if stack.len() == 0 {
        Seq::empty()
    } else {
        let p = stack.last().0;
        let v = stack.last().1;
        desc_emits(p, v, kind) + descend(stack.drop_last() + child_cands(p, v), kind)
    }
}

#[via_fn]
proof fn descend_decreases(stack: Seq<(Seq<SegV>, Jv)>, kind: DescKind) {
    if stack.len() > 0 {
        let p = stack.last().0;
        let v = stack.last().1;
        lemma_stack_size_last(stack);
        lemma_stack_size_concat(stack.drop_last(), child_cands(p, v));
        lemma_child_cands_size(p, v);
    }
}

/// What one union member contributes for a node.
pub open spec fn member_apply(p: Seq<SegV>, v: Jv, m: UmV) -> Seq<(Seq<SegV>, Jv)> {
    match m {
        UmV::MemberName(k) => desc_emits(p, v, DescKind::Member(k)),
        UmV::ArrayIndex(i) => desc_emits(p, v, DescKind::Index(i)),
    }
}

/// A union evaluates each member against the same node and concatenates
/// the results in member order.
pub open spec fn union_apply(p: Seq<SegV>, v: Jv, ms: Seq<UmV>) -> Seq<(Seq<SegV>, Jv)>
    decreases ms.len(),
{
    if ms.len() == 0 {
        Seq::empty()
    } else {
        member_apply(p, v, ms[0]) + union_apply(p, v, ms.drop_first())
    }
}

/// The candidates one selector produces from one candidate.
pub open spec fn apply_one(p: Seq<SegV>, v: Jv, sel: SelV) -> Seq<(Seq<SegV>, Jv)> {
    match sel {
        SelV::Root => Seq::empty(),
        SelV::DotMemberName(k) => desc_emits(p, v, DescKind::Member(k)),
        SelV::Wildcard => desc_emits(p, v, DescKind::Wild),
        SelV::ArrayIndex(i) => desc_emits(p, v, DescKind::Index(i)),
        SelV::ArraySlice(s, e, st) => match v {
            Jv::Arr(a) => slice_indices(s, e, st, a.len() as int).map_values(
                |i: int| (p.push(SegV::Index(i)), a[i]),
            ),
            _ => Seq::empty(),
        },
        SelV::DecendantDotMemberName(k) => descend(seq![(p, v)], DescKind::Member(k)),
        SelV::DecendantWildcard => descend(seq![(p, v)], DescKind::Wild),
        SelV::DecendantArrayIndex(i) => descend(seq![(p, v)], DescKind::Index(i)),
        SelV::Union(ms) => union_apply(p, v, ms),
    }
}

/// One selector stage maps every held candidate independently and
/// concatenates the results in order.
pub open spec fn apply_all(acc: Seq<(Seq<SegV>, Jv)>, sel: SelV) -> Seq<(Seq<SegV>, Jv)>
    decreases acc.len(),
{
    if acc.len() == 0 {
        Seq::empty()
    } else {
        apply_one(acc[0].0, acc[0].1, sel) + apply_all(acc.drop_first(), sel)
    }
}

pub proof fn lemma_apply_all_snoc(acc: Seq<(Seq<SegV>, Jv)>, c: (Seq<SegV>, Jv), sel: SelV)
    ensures
        apply_all(acc.push(c), sel) == apply_all(acc, sel) + apply_one(c.0, c.1, sel),
    decreases acc.len(),
{
    if acc.len() == 0 {
        assert(acc.push(c)[0] == c);
        assert(acc.push(c).drop_first() =~= acc);
        assert(apply_all(acc.push(c), sel) == apply_one(c.0, c.1, sel) + apply_all(acc, sel));
        assert(apply_one(c.0, c.1, sel) + apply_all(acc, sel) =~= apply_all(acc, sel) + apply_one(
            c.0,
            c.1,
            sel,
        ));
    } else {
        assert(acc.push(c)[0] == acc[0]);
        assert(acc.push(c).drop_first() =~= acc.drop_first().push(c));
        lemma_apply_all_snoc(acc.drop_first(), c, sel);
        assert(apply_one(acc[0].0, acc[0].1, sel) + (apply_all(acc.drop_first(), sel) + apply_one(
            c.0,
            c.1,
            sel,
        )) =~= (apply_one(acc[0].0, acc[0].1, sel) + apply_all(acc.drop_first(), sel)) + apply_one(
            c.0,
            c.1,
            sel,
        ));
    }
}

/// A `Root` selector resets the accumulator to the document root; every
/// other selector maps the accumulator through `apply_one`.
pub open spec fn stage(acc: Seq<(Seq<SegV>, Jv)>, sel: SelV, root: Jv) -> Seq<(Seq<SegV>, Jv)> {
    match sel {
        SelV::Root => seq![(Seq::<SegV>::empty(), root)],
        _ => apply_all(acc, sel),
    }
}

/// The selector fold from stage `i` on: after each stage, the last one
/// included, the accumulator must not exceed `MAX_ACCUMULATOR_SIZE`, else
/// evaluation fails with the offending size.
pub open spec fn run(sels: Seq<SelV>, i: int, acc: Seq<(Seq<SegV>, Jv)>, root: Jv) -> Result<
    Seq<(Seq<SegV>, Jv)>,
    int,
>
    decreases sels.len() - i,
{
    if i < 0 || i >= sels.len() {
        Ok(acc)
    } else {
        let next = stage(acc, sels[i], root);
        if next.len() > MAX_ACCUMULATOR_SIZE {
            Err(next.len() as int)
        } else {
            run(sels, i + 1, next, root)
        }
    }
}

/// The paths a compiled query matches in `root`, or the accumulator size
/// that tripped the explosion guard.
pub open spec fn spec_matches(sels: Seq<SelV>, root: Jv) -> Result<Seq<Seq<SegV>>, int> {
    match run(sels, 0, Seq::empty(), root) {
        Ok(cs) => Ok(cs.map_values(|c: (Seq<SegV>, Jv)| c.0)),
        Err(n) => Err(n),
    }
}

/// Pick the payload out of an optional node.
pub open spec fn got(o: Option<Jv>) -> Jv {
    match o {
        Some(c) => c,
        None => Jv::Null,
    }
}

/// Every candidate names an existing node: its path resolves to its node.
pub open spec fn cands_ok(root: Jv, cs: Seq<(Seq<SegV>, Jv)>) -> bool {
    forall|i: int| 0 <= i < cs.len() ==> resolve(root, (#[trigger] cs[i]).0) == Some(cs[i].1)
}

/// One resolution step out of a well-formed node lands on a well-formed
/// node.
pub proof fn lemma_step_wf(v: Jv, s: SegV)
    requires
        wf(v),
        step(v, s) is Some,
    ensures
        wf(got(step(v, s))),
{
    match s {
        SegV::Member(k) => match v {
            Jv::Obj(m) => {
                lemma_obj_idx(m, k);
                lemma_wf_obj_index(m, obj_idx(m, k));
            },
            _ => {},
        },
        SegV::Index(i) => match v {
            Jv::Arr(a) => {
                lemma_wf_arr_index(a, i);
            },
            _ => {},
        },
    }
}

/// Every node reachable in a well-formed document is well-formed.
pub proof fn lemma_resolve_wf(v: Jv, p: Seq<SegV>)
    requires
        wf(v),
        resolve(v, p) is Some,
    ensures
        wf(got(resolve(v, p))),
    decreases p.len(),
{
    if p.len() > 0 {
        lemma_step_wf(v, p[0]);
        lemma_resolve_wf(got(step(v, p[0])), p.drop_first());
    }
}

proof fn lemma_cands_ok_concat(root: Jv, s1: Seq<(Seq<SegV>, Jv)>, s2: Seq<(Seq<SegV>, Jv)>)
    requires
        cands_ok(root, s1),
        cands_ok(root, s2),
    ensures
        cands_ok(root, s1 + s2),
{
    assert forall|i: int| 0 <= i < (s1 + s2).len() implies resolve(root, (#[trigger] (s1 + s2)[i]).0)
        == Some((s1 + s2)[i].1) by {
        if i < s1.len() {
            assert((s1 + s2)[i] == s1[i]);
        } else {
            assert((s1 + s2)[i] == s2[i - s1.len()]);
        }
    }
}

/// The children of a reachable well-formed node are all reachable by one
/// more segment.
proof fn lemma_child_cands_sound(root: Jv, p: Seq<SegV>, v: Jv)
    requires
        wf(v),
        resolve(root, p) == Some(v),
    ensures
        cands_ok(root, child_cands(p, v)),
{
    let cs = child_cands(p, v);
    match v {
        Jv::Obj(m) => {
            assert forall|i: int| 0 <= i < cs.len() implies resolve(root, (#[trigger] cs[i]).0)
                == Some(cs[i].1) by {
                lemma_obj_get_at(m, i);
                lemma_resolve_snoc(root, p, SegV::Member(m[i].0));
            }
        },
        Jv::Arr(a) => {
            assert forall|i: int| 0 <= i < cs.len() implies resolve(root, (#[trigger] cs[i]).0)
                == Some(cs[i].1) by {
                lemma_resolve_snoc(root, p, SegV::Index(i));
            }
        },
        _ => {},
    }
}

proof fn lemma_desc_emits_sound(root: Jv, p: Seq<SegV>, v: Jv, kind: DescKind)
    requires
        wf(v),
        resolve(root, p) == Some(v),
    ensures
        cands_ok(root, desc_emits(p, v, kind)),
{
    match kind {
        DescKind::Member(k) => {
            match v {
                Jv::Obj(m) => {
                    if obj_get(m, k) is Some {
                        lemma_resolve_snoc(root, p, SegV::Member(k));
                    }
                },
                _ => {},
            }
        },
        DescKind::Index(i) => {
            match v {
                Jv::Arr(a) => {
                    match wrap_index(i, a.len() as int) {
                        Some(j) => {
                            lemma_resolve_snoc(root, p, SegV::Index(j));
                        },
                        None => {},
                    }
                },
                _ => {},
            }
        },
        DescKind::Wild => {
            lemma_child_cands_sound(root, p, v);
        },
    }
}

proof fn lemma_descend_sound(root: Jv, stack: Seq<(Seq<SegV>, Jv)>, kind: DescKind)
    requires
        wf(root),
        cands_ok(root, stack),
    ensures
        cands_ok(root, descend(stack, kind)),
    decreases stack_size(stack),
{
    if stack.len() > 0 {
        let p = stack.last().0;
        let v = stack.last().1;
        assert(stack.last() == stack[stack.len() - 1]);
        lemma_resolve_wf(root, p);
        lemma_desc_emits_sound(root, p, v, kind);
        lemma_child_cands_sound(root, p, v);
        assert(cands_ok(root, stack.drop_last())) by {
            assert forall|i: int| 0 <= i < stack.drop_last().len() implies resolve(
                root,
                (#[trigger] stack.drop_last()[i]).0,
            ) == Some(stack.drop_last()[i].1) by {
                assert(stack.drop_last()[i] == stack[i]);
            }
        }
        lemma_cands_ok_concat(root, stack.drop_last(), child_cands(p, v));
        lemma_stack_size_last(stack);
        lemma_stack_size_concat(stack.drop_last(), child_cands(p, v));
        lemma_child_cands_size(p, v);
        lemma_descend_sound(root, stack.drop_last() + child_cands(p, v), kind);
        lemma_cands_ok_concat(
            root,
            desc_emits(p, v, kind),
            descend(stack.drop_last() + child_cands(p, v), kind),
        );
    }
}

proof fn lemma_union_sound(root: Jv, p: Seq<SegV>, v: Jv, ms: Seq<UmV>)
    requires
        wf(v),
        resolve(root, p) == Some(v),
    ensures
        cands_ok(root, union_apply(p, v, ms)),
    decreases ms.len(),
{
    if ms.len() > 0 {
        match ms[0] {
            UmV::MemberName(k) => lemma_desc_emits_sound(root, p, v, DescKind::Member(k)),
            UmV::ArrayIndex(i) => lemma_desc_emits_sound(root, p, v, DescKind::Index(i)),
        }
        lemma_union_sound(root, p, v, ms.drop_first());
        lemma_cands_ok_concat(root, member_apply(p, v, ms[0]), union_apply(p, v, ms.drop_first()));
    }
}

/// Everything one selector yields from a reachable candidate is reachable.
proof fn lemma_apply_one_sound(root: Jv, p: Seq<SegV>, v: Jv, sel: SelV)
    requires
        wf(root),
        resolve(root, p) == Some(v),
    ensures
        cands_ok(root, apply_one(p, v, sel)),
{
    lemma_resolve_wf(root, p);
    match sel {
        SelV::Root => {},
        SelV::DotMemberName(k) => lemma_desc_emits_sound(root, p, v, DescKind::Member(k)),
        SelV::Wildcard => lemma_desc_emits_sound(root, p, v, DescKind::Wild),
        SelV::ArrayIndex(i) => lemma_desc_emits_sound(root, p, v, DescKind::Index(i)),
        SelV::ArraySlice(s, e, st) => {
            match v {
                Jv::Arr(a) => {
                    let ix = slice_indices(s, e, st, a.len() as int);
                    let cs = apply_one(p, v, sel);
                    lemma_slice_indices_bounds(s, e, st, a.len() as int);
                    assert forall|i: int| 0 <= i < cs.len() implies resolve(
                        root,
                        (#[trigger] cs[i]).0,
                    ) == Some(cs[i].1) by {
                        lemma_resolve_snoc(root, p, SegV::Index(ix[i]));
                    }
                },
                _ => {},
            }
        },
        SelV::DecendantDotMemberName(k) => {
            lemma_descend_sound(root, seq![(p, v)], DescKind::Member(k));
        },
        SelV::DecendantWildcard => {
            lemma_descend_sound(root, seq![(p, v)], DescKind::Wild);
        },
        SelV::DecendantArrayIndex(i) => {
            lemma_descend_sound(root, seq![(p, v)], DescKind::Index(i));
        },
        SelV::Union(ms) => {
            lemma_union_sound(root, p, v, ms);
        },
    }
}

proof fn lemma_apply_all_sound(root: Jv, acc: Seq<(Seq<SegV>, Jv)>, sel: SelV)
    requires
        wf(root),
        cands_ok(root, acc),
    ensures
        cands_ok(root, apply_all(acc, sel)),
    decreases acc.len(),
{
    if acc.len() > 0 {
        lemma_apply_one_sound(root, acc[0].0, acc[0].1, sel);
        assert(cands_ok(root, acc.drop_first())) by {
            assert forall|i: int| 0 <= i < acc.drop_first().len() implies resolve(
                root,
                (#[trigger] acc.drop_first()[i]).0,
            ) == Some(acc.drop_first()[i].1) by {
                assert(acc.drop_first()[i] == acc[i + 1]);
            }
        }
        lemma_apply_all_sound(root, acc.drop_first(), sel);
        lemma_cands_ok_concat(
            root,
            apply_one(acc[0].0, acc[0].1, sel),
            apply_all(acc.drop_first(), sel),
        );
    }
}

proof fn lemma_stage_sound(root: Jv, acc: Seq<(Seq<SegV>, Jv)>, sel: SelV)
    requires
        wf(root),
        cands_ok(root, acc),
    ensures
        cands_ok(root, stage(acc, sel, root)),
{
    match sel {
        SelV::Root => {
            assert(resolve(root, Seq::<SegV>::empty()) == Some(root));
        },
        _ => {
            lemma_apply_all_sound(root, acc, sel);
        },
    }
}

/// Soundness of the matcher: every path a successful run returns resolves
/// in the document, to the node the run paired with it.
pub proof fn lemma_run_sound(sels: Seq<SelV>, i: int, acc: Seq<(Seq<SegV>, Jv)>, root: Jv)
    requires
        wf(root),
        cands_ok(root, acc),
    ensures
        run(sels, i, acc, root) matches Ok(cs) ==> cands_ok(root, cs),
    decreases sels.len() - i,
{
    if 0 <= i < sels.len() {
        lemma_stage_sound(root, acc, sels[i]);
        if stage(acc, sels[i], root).len() <= MAX_ACCUMULATOR_SIZE {
            lemma_run_sound(sels, i + 1, stage(acc, sels[i], root), root);
        }
    }
}

/// The explosion guard bounds every successful evaluation: no more than
/// `MAX_ACCUMULATOR_SIZE` candidates survive any stage, the last included.
pub proof fn lemma_run_bounded(sels: Seq<SelV>, i: int, acc: Seq<(Seq<SegV>, Jv)>, root: Jv)
    requires
        acc.len() <= MAX_ACCUMULATOR_SIZE,
    ensures
        run(sels, i, acc, root) matches Ok(cs) ==> cs.len() <= MAX_ACCUMULATOR_SIZE,
    decreases sels.len() - i,
{
    if 0 <= i < sels.len() {
        let next = stage(acc, sels[i], root);
        if next.len() <= MAX_ACCUMULATOR_SIZE {
            lemma_run_bounded(sels, i + 1, next, root);
        }
    }
}

/// Every path a successful match returns resolves in the document.
pub proof fn lemma_matches_sound(sels: Seq<SelV>, root: Jv)
    requires
        wf(root),
    ensures
        spec_matches(sels, root) matches Ok(ps) ==> forall|i: int|
            0 <= i < ps.len() ==> resolve(root, #[trigger] ps[i]) is Some,
{
    assert(cands_ok(root, Seq::<(Seq<SegV>, Jv)>::empty()));
    lemma_run_sound(sels, 0, Seq::empty(), root);
    match run(sels, 0, Seq::empty(), root) {
        Ok(cs) => {
            let ps = cs.map_values(|c: (Seq<SegV>, Jv)| c.0);
            assert forall|i: int| 0 <= i < ps.len() implies resolve(root, #[trigger] ps[i])
                is Some by {
                assert(ps[i] == cs[i].0);
                assert(resolve(root, cs[i].0) == Some(cs[i].1));
            }
        },
        Err(_) => {},
    }
}

// --- executable evaluation ---

pub open spec fn cand_view<'a>(c: (Vec<PathSegment>, &'a Json)) -> (Seq<SegV>, Jv) {
    (segs_view(c.0@), jv(*c.1))
}

pub open spec fn cands_view<'a>(s: Seq<(Vec<PathSegment>, &'a Json)>) -> Seq<(Seq<SegV>, Jv)> {
    s.map_values(|c: (Vec<PathSegment>, &'a Json)| cand_view(c))
}

pub(crate) fn seg_dup(s: &PathSegment) -> (r: PathSegment)
    ensures
        r == *s,
{
    match s {
        PathSegment::MemberName(k) => PathSegment::MemberName(k.clone()),
        PathSegment::ArrayIndex(i) => PathSegment::ArrayIndex(*i),
    }
}

pub(crate) fn path_dup(p: &Vec<PathSegment>) -> (r: Vec<PathSegment>)
    ensures
        r@ == p@,
{
    let mut out: Vec<PathSegment> = Vec::new();
    let mut i: usize = 0;
    while i < p.len()
        invariant
            i <= p@.len(),
            out@.len() == i,
            forall|j: int| 0 <= j < i ==> out@[j] == p@[j],
        decreases p@.len() - i,
    {
        let sg = seg_dup(&p[i]);
        out.push(sg);
        i += 1;
    }
    proof {
        assert(out@ =~= p@);
    }
    out
}

fn path_push(p: &Vec<PathSegment>, s: PathSegment) -> (r: Vec<PathSegment>)
    ensures
        r@ == p@.push(s),
{
    let mut out = path_dup(p);
    out.push(s);
    out
}

proof fn lemma_segs_view_push(q: Seq<PathSegment>, x: PathSegment)
    ensures
        segs_view(q.push(x)) == segs_view(q).push(x@),
{
    assert(segs_view(q.push(x)) =~= segs_view(q).push(x@));
}

proof fn lemma_union_apply_snoc(p: Seq<SegV>, v: Jv, ms: Seq<UmV>, m: UmV)
    ensures
        union_apply(p, v, ms.push(m)) == union_apply(p, v, ms) + member_apply(p, v, m),
    decreases ms.len(),
{
    if ms.len() == 0 {
        assert(ms.push(m)[0] == m);
        assert(ms.push(m).drop_first() =~= ms);
        assert(member_apply(p, v, m) + union_apply(p, v, ms) =~= union_apply(p, v, ms)
            + member_apply(p, v, m));
    } else {
        assert(ms.push(m)[0] == ms[0]);
        assert(ms.push(m).drop_first() =~= ms.drop_first().push(m));
        lemma_union_apply_snoc(p, v, ms.drop_first(), m);
        assert(member_apply(p, v, ms[0]) + (union_apply(p, v, ms.drop_first()) + member_apply(
            p,
            v,
            m,
        )) =~= (member_apply(p, v, ms[0]) + union_apply(p, v, ms.drop_first())) + member_apply(
            p,
            v,
            m,
        ));
    }
}

/// The descent goal encoded by the optional key / index arguments: a key
/// looks for that member, an index for that element, neither for every
/// child.
pub open spec fn kind_of(key: Option<&String>, idx: Option<isize>) -> DescKind {
    match key {
        Some(k) => DescKind::Member(k@),
        None => match idx {
            Some(i) => DescKind::Index(i as int),
            None => DescKind::Wild,
        },
    }
}

/// Append to `out` what `node` itself contributes for the given kind.
#[verifier::loop_isolation(false)]
fn emit_node<'a>(
    pp: &Vec<PathSegment>,
    node: &'a Json,
    key: Option<&String>,
    idx: Option<isize>,
    out: &mut Vec<(Vec<PathSegment>, &'a Json)>,
)
    ensures
        cands_view(final(out)@) == cands_view(old(out)@) + desc_emits(
            segs_view(pp@),
            jv(*node),
            kind_of(key, idx),
        ),
{
    let ghost base = cands_view(out@);
    let ghost pv = segs_view(pp@);
    let ghost nv = jv(*node);
    let ghost kind = kind_of(key, idx);
    let ghost goal = desc_emits(pv, nv, kind);
    let ghost none: Seq<(Seq<SegV>, Jv)> = Seq::empty();
    match key {
        Some(k) => {
            match node {
                Json::Obj(m) => {
                    match obj_find(m, k) {
                        Some(i) => {
                            let np = path_push(pp, PathSegment::MemberName(k.clone()));
                            let c = (np, &m[i].1);
                            let ghost cc = c;
                            out.push(c);
                            proof {
                                lemma_jv_obj_len(m@);
                                lemma_jv_obj_index(m@, i as int);
                                lemma_segs_view_push(pp@, PathSegment::MemberName(*k));
                                assert(goal =~= seq![
                                    (pv.push(SegV::Member(k@)), jv_obj(m@)[i as int].1),
                                ]);
                                assert(cands_view(out@) =~= base.push(cand_view(cc)));
                                assert(base.push(cand_view(cc)) =~= base + goal);
                            }
                        },
                        None => {
                            proof {
                                assert(goal =~= none);
                                assert(cands_view(out@) =~= base + goal);
                            }
                        },
                    }
                },
                _ => {
                    proof {
                        assert(goal =~= none);
                        assert(cands_view(out@) =~= base + goal);
                    }
                },
            }
        },
        None => match idx {
            Some(ix) => {
                match node {
                    Json::Arr(a) => {
                        proof {
                            lemma_jv_arr_len(a@);
                        }
                        match wrapped_index(ix, a.len()) {
                            Some(j) => {
                                let np = path_push(pp, PathSegment::ArrayIndex(j));
                                let c = (np, &a[j]);
                                let ghost cc = c;
                                out.push(c);
                                proof {
                                    lemma_jv_arr_index(a@, j as int);
                                    lemma_segs_view_push(pp@, PathSegment::ArrayIndex(j));
                                    assert(goal =~= seq![
                                        (pv.push(SegV::Index(j as int)), jv_arr(a@)[j as int]),
                                    ]);
                                    assert(cands_view(out@) =~= base.push(cand_view(cc)));
                                    assert(base.push(cand_view(cc)) =~= base + goal);
                                }
                            },
                            None => {
                                proof {
                                    assert(goal =~= none);
                                    assert(cands_view(out@) =~= base + goal);
                                }
                            },
                        }
                    },
                    _ => {
                        proof {
                            assert(goal =~= none);
                            assert(cands_view(out@) =~= base + goal);
                        }
                    },
                }
            },
            None => {
                match node {
                    Json::Obj(m) => {
                        proof {
                            lemma_jv_obj_len(m@);
                            assert(child_cands(pv, nv).take(0) =~= none);
                            assert(cands_view(out@) =~= base + child_cands(pv, nv).take(0));
                        }
                        let mut i: usize = 0;
                        while i < m.len()
                            invariant
                                i <= m@.len(),
                                cands_view(out@) == base + child_cands(pv, nv).take(i as int),
                            decreases m@.len() - i,
                        {
                            let np = path_push(pp, PathSegment::MemberName(m[i].0.clone()));
                            let c = (np, &m[i].1);
                            let ghost cc = c;
                            out.push(c);
                            proof {
                                lemma_jv_obj_index(m@, i as int);
                                lemma_segs_view_push(pp@, PathSegment::MemberName(m@[i as int].0));
                                assert(cand_view(cc) == child_cands(pv, nv)[i as int]);
                                assert(cands_view(out@) =~= (base + child_cands(pv, nv).take(
                                    i as int,
                                )).push(cand_view(cc)));
                                assert(child_cands(pv, nv).take(i + 1) =~= child_cands(
                                    pv,
                                    nv,
                                ).take(i as int).push(child_cands(pv, nv)[i as int]));
                                assert((base + child_cands(pv, nv).take(i as int)).push(
                                    cand_view(cc),
                                ) =~= base + child_cands(pv, nv).take(i + 1));
                            }
                            i += 1;
                        }
                        proof {
                            assert(child_cands(pv, nv).take(m@.len() as int) =~= child_cands(
                                pv,
                                nv,
                            ));
                        }
                    },
                    Json::Arr(a) => {
                        proof {
                            lemma_jv_arr_len(a@);
                            assert(child_cands(pv, nv).take(0) =~= none);
                            assert(cands_view(out@) =~= base + child_cands(pv, nv).take(0));
                        }
                        let mut i: usize = 0;
                        while i < a.len()
                            invariant
                                i <= a@.len(),
                                cands_view(out@) == base + child_cands(pv, nv).take(i as int),
                            decreases a@.len() - i,
                        {
                            let np = path_push(pp, PathSegment::ArrayIndex(i));
                            let c = (np, &a[i]);
                            let ghost cc = c;
                            out.push(c);
                            proof {
                                lemma_jv_arr_index(a@, i as int);
                                lemma_segs_view_push(pp@, PathSegment::ArrayIndex(i));
                                assert(cand_view(cc) == child_cands(pv, nv)[i as int]);
                                assert(cands_view(out@) =~= (base + child_cands(pv, nv).take(
                                    i as int,
                                )).push(cand_view(cc)));
                                assert(child_cands(pv, nv).take(i + 1) =~= child_cands(
                                    pv,
                                    nv,
                                ).take(i as int).push(child_cands(pv, nv)[i as int]));
                                assert((base + child_cands(pv, nv).take(i as int)).push(
                                    cand_view(cc),
                                ) =~= base + child_cands(pv, nv).take(i + 1));
                            }
                            i += 1;
                        }
                        proof {
                            assert(child_cands(pv, nv).take(a@.len() as int) =~= child_cands(
                                pv,
                                nv,
                            ));
                        }
                    },
                    _ => {
                        proof {
                            assert(goal =~= none);
                            assert(cands_view(out@) =~= base + goal);
                        }
                    },
                }
            },
        },
    }
}

/// Append to `out` every match of a depth-first descent from `(p, v)`.
#[verifier::loop_isolation(false)]
fn descend_all<'a>(
    p: &Vec<PathSegment>,
    v: &'a Json,
    key: Option<&String>,
    idx: Option<isize>,
    out: &mut Vec<(Vec<PathSegment>, &'a Json)>,
)
    ensures
        cands_view(final(out)@) == cands_view(old(out)@) + descend(
            seq![(segs_view(p@), jv(*v))],
            kind_of(key, idx),
        ),
{
    let ghost base = cands_view(out@);
    let ghost kind = kind_of(key, idx);
    let ghost total = descend(seq![(segs_view(p@), jv(*v))], kind);
    let mut stack: Vec<(Vec<PathSegment>, &'a Json)> = Vec::new();
    let start = (path_dup(p), v);
    stack.push(start);
    proof {
        assert(cands_view(stack@) =~= seq![(segs_view(p@), jv(*v))]);
        assert(cands_view(out@) + descend(cands_view(stack@), kind) =~= base + total);
    }
    while stack.len() > 0
        invariant
            cands_view(out@) + descend(cands_view(stack@), kind) == base + total,
        decreases stack_size(cands_view(stack@)),
    {
        let ghost pre_stack_v = cands_view(stack@);
        let ghost pre_out_v = cands_view(out@);
        let top = stack.pop().unwrap();
        let (pp, node) = top;
        let ghost spp = segs_view(pp@);
        let ghost snode = jv(*node);
        proof {
            assert(pre_stack_v.last() == (spp, snode));
            assert(cands_view(stack@) =~= pre_stack_v.drop_last());
        }
        match node {
            Json::Obj(m) => {
                proof {
                    lemma_jv_obj_len(m@);
                    assert(child_cands(spp, snode).take(0) =~= Seq::<(Seq<SegV>, Jv)>::empty());
                    assert(cands_view(stack@) =~= pre_stack_v.drop_last() + child_cands(
                        spp,
                        snode,
                    ).take(0));
                }
                let mut i: usize = 0;
                while i < m.len()
                    invariant
                        i <= m@.len(),
                        cands_view(stack@) == pre_stack_v.drop_last() + child_cands(
                            spp,
                            snode,
                        ).take(i as int),
                    decreases m@.len() - i,
                {
                    let np = path_push(&pp, PathSegment::MemberName(m[i].0.clone()));
                    let c = (np, &m[i].1);
                    let ghost cc = c;
                    stack.push(c);
                    proof {
                        lemma_jv_obj_index(m@, i as int);
                        lemma_segs_view_push(pp@, PathSegment::MemberName(m@[i as int].0));
                        assert(cand_view(cc) == child_cands(spp, snode)[i as int]);
                        assert(cands_view(stack@) =~= (pre_stack_v.drop_last() + child_cands(
                            spp,
                            snode,
                        ).take(i as int)).push(cand_view(cc)));
                        assert(child_cands(spp, snode).take(i + 1) =~= child_cands(
                            spp,
                            snode,
                        ).take(i as int).push(child_cands(spp, snode)[i as int]));
                        assert((pre_stack_v.drop_last() + child_cands(spp, snode).take(
                            i as int,
                        )).push(cand_view(cc)) =~= pre_stack_v.drop_last() + child_cands(
                            spp,
                            snode,
                        ).take(i + 1));
                    }
                    i += 1;
                }
                proof {
                    assert(child_cands(spp, snode).take(m@.len() as int) =~= child_cands(
                        spp,
                        snode,
                    ));
                }
            },
            Json::Arr(a) => {
                proof {
                    lemma_jv_arr_len(a@);
                    assert(child_cands(spp, snode).take(0) =~= Seq::<(Seq<SegV>, Jv)>::empty());
                    assert(cands_view(stack@) =~= pre_stack_v.drop_last() + child_cands(
                        spp,
                        snode,
                    ).take(0));
                }
                let mut i: usize = 0;
                while i < a.len()
                    invariant
                        i <= a@.len(),
                        cands_view(stack@) == pre_stack_v.drop_last() + child_cands(
                            spp,
                            snode,
                        ).take(i as int),
                    decreases a@.len() - i,
                {
                    let np = path_push(&pp, PathSegment::ArrayIndex(i));
                    let c = (np, &a[i]);
                    let ghost cc = c;
                    stack.push(c);
                    proof {
                        lemma_jv_arr_index(a@, i as int);
                        lemma_segs_view_push(pp@, PathSegment::ArrayIndex(i));
                        assert(cand_view(cc) == child_cands(spp, snode)[i as int]);
                        assert(cands_view(stack@) =~= (pre_stack_v.drop_last() + child_cands(
                            spp,
                            snode,
                        ).take(i as int)).push(cand_view(cc)));
                        assert(child_cands(spp, snode).take(i + 1) =~= child_cands(
                            spp,
                            snode,
                        ).take(i as int).push(child_cands(spp, snode)[i as int]));
                        assert((pre_stack_v.drop_last() + child_cands(spp, snode).take(
                            i as int,
                        )).push(cand_view(cc)) =~= pre_stack_v.drop_last() + child_cands(
                            spp,
                            snode,
                        ).take(i + 1));
                    }
                    i += 1;
                }
                proof {
                    assert(child_cands(spp, snode).take(a@.len() as int) =~= child_cands(
                        spp,
                        snode,
                    ));
                }
            },
            _ => {
                proof {
                    assert(child_cands(spp, snode) =~= Seq::<(Seq<SegV>, Jv)>::empty());
                    assert(cands_view(stack@) =~= pre_stack_v.drop_last() + child_cands(
                        spp,
                        snode,
                    ));
                }
            },
        }
        emit_node(&pp, node, key, idx, out);
        proof {
            assert(descend(pre_stack_v, kind) == desc_emits(spp, snode, kind) + descend(
                pre_stack_v.drop_last() + child_cands(spp, snode),
                kind,
            ));
            assert(pre_out_v + (desc_emits(spp, snode, kind) + descend(
                cands_view(stack@),
                kind,
            )) =~= (pre_out_v + desc_emits(spp, snode, kind)) + descend(cands_view(stack@), kind));
            lemma_stack_size_last(pre_stack_v);
            lemma_stack_size_concat(pre_stack_v.drop_last(), child_cands(spp, snode));
            lemma_child_cands_size(spp, snode);
            lemma_jsize_pos(snode);
        }
    }
    proof {
        assert(cands_view(stack@) =~= Seq::<(Seq<SegV>, Jv)>::empty());
        assert(cands_view(out@) + descend(cands_view(stack@), kind) =~= cands_view(out@));
    }
}

/// Append to `out` everything `sel` yields from the candidate `(p, v)`.
#[verifier::loop_isolation(false)]
fn apply_sel<'a>(
    p: &Vec<PathSegment>,
    v: &'a Json,
    sel: &Selector,
    out: &mut Vec<(Vec<PathSegment>, &'a Json)>,
)
    ensures
        cands_view(final(out)@) == cands_view(old(out)@) + apply_one(segs_view(p@), jv(*v), sel@),
{
    let ghost base = cands_view(out@);
    let ghost pv = segs_view(p@);
    let ghost vv = jv(*v);
    match sel {
        Selector::Root => {
            proof {
                assert(base + apply_one(pv, vv, sel@) =~= base);
            }
        },
        Selector::DotMemberName(k) => {
            emit_node(p, v, Some(k), None, out);
        },
        Selector::Wildcard => {
            emit_node(p, v, None, None, out);
        },
        Selector::ArrayIndex(i) => {
            emit_node(p, v, None, Some(*i), out);
        },
        Selector::ArraySlice(sb, eb, st) => {
            match v {
                Json::Arr(a) => {
                    proof {
                        lemma_jv_arr_len(a@);
                    }
                    let pos = slice_positions(*sb, *eb, *st, a.len());
                    let ghost ix = slice_indices(
                        opt_int(*sb),
                        opt_int(*eb),
                        opt_int(*st),
                        a@.len() as int,
                    );
                    let ghost goal = apply_one(pv, vv, sel@);
                    proof {
                        assert(goal == ix.map_values(
                            |i: int| (pv.push(SegV::Index(i)), jv_arr(a@)[i]),
                        ));
                        assert(goal.take(0) =~= Seq::<(Seq<SegV>, Jv)>::empty());
                        assert(cands_view(out@) =~= base + goal.take(0));
                    }
                    let mut j: usize = 0;
                    while j < pos.len()
                        invariant
                            j <= pos@.len(),
                            cands_view(out@) == base + goal.take(j as int),
                        decreases pos@.len() - j,
                    {
                        let u = pos[j];
                        let np = path_push(p, PathSegment::ArrayIndex(u));
                        let c = (np, &a[u]);
                        let ghost cc = c;
                        out.push(c);
                        proof {
                            lemma_jv_arr_index(a@, u as int);
                            lemma_segs_view_push(p@, PathSegment::ArrayIndex(u));
                            assert(usizes_view(pos@)[j as int] == ix[j as int]);
                            assert(cand_view(cc) == goal[j as int]);
                            assert(cands_view(out@) =~= (base + goal.take(j as int)).push(
                                cand_view(cc),
                            ));
                            assert(goal.take(j + 1) =~= goal.take(j as int).push(goal[j as int]));
                            assert((base + goal.take(j as int)).push(cand_view(cc)) =~= base
                                + goal.take(j + 1));
                        }
                        j += 1;
                    }
                    proof {
                        assert(goal.take(pos@.len() as int) =~= goal);
                    }
                },
                _ => {
                    proof {
                        assert(apply_one(pv, vv, sel@) =~= Seq::<(Seq<SegV>, Jv)>::empty());
                        assert(cands_view(out@) =~= base + apply_one(pv, vv, sel@));
                    }
                },
            }
        },
        Selector::DecendantDotMemberName(k) => {
            descend_all(p, v, Some(k), None, out);
        },
        Selector::DecendantWildcard => {
            descend_all(p, v, None, None, out);
        },
        Selector::DecendantArrayIndex(i) => {
            descend_all(p, v, None, Some(*i), out);
        },
        Selector::Union(ms) => {
            let ghost msv = ms@.map_values(|m: UnionMember| m@);
            proof {
                assert(msv.take(0) =~= Seq::<UmV>::empty());
                assert(cands_view(out@) =~= base + union_apply(pv, vv, msv.take(0)));
            }
            let mut i: usize = 0;
            while i < ms.len()
                invariant
                    i <= ms@.len(),
                    cands_view(out@) == base + union_apply(pv, vv, msv.take(i as int)),
                decreases ms@.len() - i,
            {
                let um = &ms[i];
                match um {
                    UnionMember::MemberName(k) => {
                        emit_node(p, v, Some(k), None, out);
                    },
                    UnionMember::ArrayIndex(ii) => {
                        emit_node(p, v, None, Some(*ii), out);
                    },
                }
                proof {
                    assert(msv[i as int] == ms@[i as int]@);
                    lemma_union_apply_snoc(pv, vv, msv.take(i as int), msv[i as int]);
                    assert(msv.take(i + 1) =~= msv.take(i as int).push(msv[i as int]));
                    assert((base + union_apply(pv, vv, msv.take(i as int))) + member_apply(
                        pv,
                        vv,
                        msv[i as int],
                    ) =~= base + (union_apply(pv, vv, msv.take(i as int)) + member_apply(
                        pv,
                        vv,
                        msv[i as int],
                    )));
                }
                i += 1;
            }
            proof {
                assert(msv.take(ms@.len() as int) =~= msv);
            }
        },
    }
}

/// Run one selector stage over the whole accumulator.
#[verifier::loop_isolation(false)]
fn apply_stage<'a>(
    acc: Vec<(Vec<PathSegment>, &'a Json)>,
    sel: &Selector,
    root: &'a Json,
) -> (r: Vec<(Vec<PathSegment>, &'a Json)>)
    ensures
        cands_view(r@) == stage(cands_view(acc@), sel@, jv(*root)),
{
    match sel {
        Selector::Root => {
            let mut r: Vec<(Vec<PathSegment>, &'a Json)> = Vec::new();
            let empty_path: Vec<PathSegment> = Vec::new();
            r.push((empty_path, root));
            proof {
                assert(segs_view(Seq::<PathSegment>::empty()) =~= Seq::<SegV>::empty());
                assert(cands_view(r@) =~= seq![(Seq::<SegV>::empty(), jv(*root))]);
            }
            r
        },
        _ => {
            let mut outv: Vec<(Vec<PathSegment>, &'a Json)> = Vec::new();
            let ghost av = cands_view(acc@);
            proof {
                assert(av.take(0) =~= Seq::<(Seq<SegV>, Jv)>::empty());
                assert(cands_view(outv@) =~= apply_all(av.take(0), sel@));
            }
            let mut i: usize = 0;
            while i < acc.len()
                invariant
                    i <= acc@.len(),
                    cands_view(outv@) == apply_all(av.take(i as int), sel@),
                decreases acc@.len() - i,
            {
                let entry = &acc[i];
                apply_sel(&entry.0, entry.1, sel, &mut outv);
                proof {
                    assert(av[i as int] == cand_view(acc@[i as int]));
                    lemma_apply_all_snoc(av.take(i as int), av[i as int], sel@);
                    assert(av.take(i + 1) =~= av.take(i as int).push(av[i as int]));
                }
                i += 1;
            }
            proof {
                assert(av.take(acc@.len() as int) =~= av);
            }
            outv
        },
    }
}

/// Evaluate a compiled selector sequence against a document: the concrete
/// path of every matched node, in evaluation order, or the explosion-guard
/// failure when the candidate set after any selector stage, the last one
/// included, outgrows `MAX_ACCUMULATOR_SIZE`. The failure message carries
/// the offending size. Every returned path resolves in the document.
#[verifier::loop_isolation(false)]
pub fn matches<'a>(selectors: Vec<Selector>, val: &'a Json) -> (r: Result<
    Vec<Vec<PathSegment>>,
    String,
>)
    requires
        wf(val@),
    ensures
        match r {
            Ok(ps) => spec_matches(sels_view(selectors@), val@) == Ok::<Seq<Seq<SegV>>, int>(
                paths_view(ps@),
            ) && ps@.len() <= MAX_ACCUMULATOR_SIZE && forall|i: int|
                0 <= i < ps@.len() ==> resolve(val@, #[trigger] paths_view(ps@)[i]) is Some,
            Err(m) => spec_matches(sels_view(selectors@), val@) matches Err(n)
                && crate::util::has_substring(m@, crate::util::dec_digits(n)),
        },
{
    let ghost sv = sels_view(selectors@);
    let ghost rootv = jv(*val);
    let mut acc: Vec<(Vec<PathSegment>, &'a Json)> = Vec::new();
    proof {
        assert(cands_view(acc@) =~= Seq::<(Seq<SegV>, Jv)>::empty());
    }
    let mut si: usize = 0;
    while si < selectors.len()
        invariant
            si <= selectors@.len(),
            cands_view(acc@).len() <= MAX_ACCUMULATOR_SIZE,
            run(sv, 0, Seq::empty(), rootv) == run(sv, si as int, cands_view(acc@), rootv),
        decreases selectors@.len() - si,
    {
        let ghost pre_acc = cands_view(acc@);
        let sel = &selectors[si];
        let next = apply_stage(acc, sel, val);
        proof {
            assert(sv[si as int] == selectors@[si as int]@);
            assert(cands_view(next@).len() == next@.len());
        }
        if next.len() > MAX_ACCUMULATOR_SIZE {
            let mut msg = String::from_str("too many passthrough matches (");
            let num = crate::util::dec_string(next.len());
            msg.append(num.as_str());
            msg.append(")");
            proof {
                let ghost count = next@.len() as int;
                assert(run(sv, si as int, pre_acc, rootv) == Err::<Seq<(Seq<SegV>, Jv)>, int>(
                    count,
                ));
                let lead = "too many passthrough matches ("@;
                let digits = crate::util::dec_digits(count);
                assert(msg@ == lead + digits + ")"@);
                assert(msg@.subrange(
                    lead.len() as int,
                    lead.len() as int + digits.len() as int,
                ) =~= digits);
                assert(crate::util::has_substring(msg@, digits));
            }
            return Err(msg);
        }
        acc = next;
        si += 1;
    }
    let ghost accv = cands_view(acc@);
    proof {
        assert(run(sv, si as int, accv, rootv) == Ok::<Seq<(Seq<SegV>, Jv)>, int>(accv));
        assert(cands_ok(rootv, Seq::<(Seq<SegV>, Jv)>::empty()));
        lemma_run_sound(sv, 0, Seq::empty(), rootv);
        lemma_run_bounded(sv, 0, Seq::empty(), rootv);
    }
    let ghost ptarget = accv.map_values(|c: (Seq<SegV>, Jv)| c.0);
    let mut out: Vec<Vec<PathSegment>> = Vec::new();
    proof {
        assert(paths_view(out@) =~= ptarget.take(0));
    }
    let mut i: usize = 0;
    while i < acc.len()
        invariant
            i <= acc@.len(),
            accv == cands_view(acc@),
            paths_view(out@) == ptarget.take(i as int),
        decreases acc@.len() - i,
    {
        let entry = &acc[i];
        let q = path_dup(&entry.0);
        let ghost qq = q@;
        out.push(q);
        proof {
            assert(accv[i as int] == cand_view(acc@[i as int]));
            assert(segs_view(qq) == ptarget[i as int]);
            assert(paths_view(out@) =~= ptarget.take(i as int).push(ptarget[i as int]));
            assert(ptarget.take(i + 1) =~= ptarget.take(i as int).push(ptarget[i as int]));
        }
        i += 1;
    }
    proof {
        assert(ptarget.take(acc@.len() as int) =~= ptarget);
        assert(spec_matches(sv, rootv) == Ok::<Seq<Seq<SegV>>, int>(paths_view(out@)));
        assert forall|k: int| 0 <= k < out@.len() implies resolve(
            rootv,
            #[trigger] paths_view(out@)[k],
        ) is Some by {
            assert(paths_view(out@)[k] == accv[k].0);
            assert(resolve(rootv, accv[k].0) == Some(accv[k].1));
        }
    }
    Ok(out)
}

} // verus!
