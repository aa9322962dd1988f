//! Laws of the engine, stated and proved over its models.

use vstd::prelude::*;

use crate::apply::{insert_member, spec_get, spec_set, trailing_member};
use crate::json::{lemma_obj_idx, lemma_obj_idx_is, obj_has, obj_idx, obj_set, Jv};
use crate::matcher::{
    lemma_run_bounded, member_apply, spec_matches, union_apply, wrap_index, SegV,
    MAX_ACCUMULATOR_SIZE,
};
use crate::parser::{is_root_only, spec_parse, spec_step, spec_steps, spec_union, SelV, UmV};

verus! {

/// The identity query matches exactly one node, the whole document.
pub proof fn lemma_get_root(d: Jv)
    ensures
        spec_get("$"@, d) == Some(seq![d]),
{
    reveal_strlit("$");
    let s = "$"@;
    assert(s.len() == 1 && s[0] == '$');
    assert(spec_steps(s, 1) == Some(Seq::<SelV>::empty()));
    assert(seq![SelV::Root] + Seq::<SelV>::empty() =~= seq![SelV::Root]);
    assert(spec_parse(s) == Some(seq![SelV::Root]));
    assert(is_root_only(seq![SelV::Root]));
}

/// A negative array index names the same element as its mirrored
/// non-negative one, and an index one past the front matches nothing.
pub proof fn lemma_wrap_index_symmetry(len: int)
    requires
        len >= 1,
    ensures
        forall|i: int| 1 <= i <= len ==> #[trigger] wrap_index(-i, len) == wrap_index(len - i, len),
        wrap_index(-1, len) == wrap_index(len - 1, len),
        wrap_index(-(len + 1), len) is None,
{
}

/// Binding a key to a value it already has changes nothing.
pub proof fn lemma_obj_set_idempotent(m: Seq<(Seq<char>, Jv)>, k: Seq<char>, v: Jv)
    ensures
        obj_set(obj_set(m, k, v), k, v) == obj_set(m, k, v),
{
    lemma_obj_idx(m, k);
    let m1 = obj_set(m, k, v);
    if obj_idx(m, k) >= 0 {
        let i = obj_idx(m, k);
        assert forall|j: int| 0 <= j < i implies (#[trigger] m1[j]).0 != k by {
            assert(m1[j] == m[j]);
        }
        lemma_obj_idx_is(m1, k, i);
        assert(obj_set(m1, k, v) =~= m1);
    } else {
        let i = m.len() as int;
        assert forall|j: int| 0 <= j < i implies (#[trigger] m1[j]).0 != k by {
            assert(m1[j] == m[j]);
        }
        lemma_obj_idx_is(m1, k, i);
        assert(obj_set(m1, k, v) =~= m1);
    }
}

/// Idempotence of `set` for a query of the shape `$.k`: writing the same
/// value a second time yields the same document as writing it once.
pub proof fn lemma_set_member_idempotent(q: Seq<char>, doc: Jv, k: Seq<char>, to: Jv)
    requires
        spec_parse(q) == Some(seq![SelV::Root, SelV::DotMemberName(k)]),
    ensures
        spec_set(q, doc, to) matches Some(d1) && spec_set(q, d1, to) == Some(d1),
{
    let sels = seq![SelV::Root, SelV::DotMemberName(k)];
    assert(!is_root_only(sels));
    assert(sels.last() == SelV::DotMemberName(k));
    assert(trailing_member(sels) == Some(k));
    assert(sels.drop_last() =~= seq![SelV::Root]);
    assert(is_root_only(sels.drop_last()));
    let d1 = insert_member(doc, k, to);
    assert(spec_set(q, doc, to) == Some(d1));
    match doc {
        Jv::Obj(m) => {
            lemma_obj_set_idempotent(m, k, to);
            assert(insert_member(d1, k, to) == d1);
        },
        _ => {
            assert(d1 == doc);
        },
    }
    assert(spec_set(q, d1, to) == Some(d1));
}

/// A union evaluates its members in the order they were written: the
/// matches of a split member list are the matches of its parts, in order.
pub proof fn lemma_union_member_order(p: Seq<SegV>, v: Jv, ms1: Seq<UmV>, ms2: Seq<UmV>)
    ensures
        union_apply(p, v, ms1 + ms2) == union_apply(p, v, ms1) + union_apply(p, v, ms2),
    decreases ms1.len(),
{
    if ms1.len() == 0 {
        assert(ms1 + ms2 =~= ms2);
        assert(union_apply(p, v, ms1) + union_apply(p, v, ms2) =~= union_apply(p, v, ms2));
    } else {
        assert((ms1 + ms2)[0] == ms1[0]);
        assert((ms1 + ms2).drop_first() =~= ms1.drop_first() + ms2);
        lemma_union_member_order(p, v, ms1.drop_first(), ms2);
        assert(member_apply(p, v, ms1[0]) + (union_apply(p, v, ms1.drop_first()) + union_apply(
            p,
            v,
            ms2,
        )) =~= (member_apply(p, v, ms1[0]) + union_apply(p, v, ms1.drop_first())) + union_apply(
            p,
            v,
            ms2,
        ));
    }
}

/// A union member naming an absent key contributes nothing.
pub proof fn lemma_union_skips_absent(p: Seq<SegV>, m: Seq<(Seq<char>, Jv)>, k: Seq<char>)
    requires
        !obj_has(m, k),
    ensures
        member_apply(p, Jv::Obj(m), UmV::MemberName(k)) == Seq::<(Seq<SegV>, Jv)>::empty(),
{
}

proof fn lemma_union_never_root(s: Seq<char>, i: int, acc: Seq<UmV>)
    requires
        0 <= i,
    ensures
        spec_union(s, i, acc) matches Some(r) ==> !(r.0 is Root),
    decreases s.len() - i,
{
    if i < s.len() && (s[i] == '\'' || s[i] == '"') {
        match crate::parser::spec_quoted(s, i) {
            Some((t, j)) => {
                if i < j && j < s.len() && s[j] == ',' {
                    lemma_union_never_root(s, j + 1, acc.push(UmV::MemberName(t)));
                }
            },
            None => {},
        }
    } else if i < s.len() && crate::parser::int_start(s[i]) {
        match crate::parser::spec_int(s, i) {
            Some((n, j)) => {
                if i < j && j < s.len() && s[j] == ',' {
                    lemma_union_never_root(s, j + 1, acc.push(UmV::ArrayIndex(n)));
                }
            },
            None => {},
        }
    }
}

proof fn lemma_step_never_root(s: Seq<char>, i: int)
    ensures
        spec_step(s, i) matches Some(r) ==> !(r.0 is Root),
{
    if 0 <= i < s.len() && s[i] == '[' {
        let b = i + 1;
        if 0 <= b < s.len() && !(s[b] == '*') && (s[b] == '\'' || s[b] == '"') {
            match crate::parser::spec_quoted(s, b) {
                Some((t, j)) => {
                    if !(j < s.len() && s[j] == ']') && b < j && j < s.len() && s[j] == ',' {
                        lemma_union_never_root(s, j + 1, seq![UmV::MemberName(t)]);
                    }
                },
                None => {},
            }
        } else if 0 <= b < s.len() && !(s[b] == '*') && crate::parser::int_start(s[b]) {
            match crate::parser::spec_int(s, b) {
                Some((n, j)) => {
                    if !(j < s.len() && s[j] == ']') && b < j && j < s.len() && s[j] == ',' {
                        lemma_union_never_root(s, j + 1, seq![UmV::ArrayIndex(n)]);
                    }
                },
                None => {},
            }
        }
    }
}

proof fn lemma_steps_never_root(s: Seq<char>, i: int)
    requires
        0 <= i,
    ensures
        spec_steps(s, i) matches Some(ss) ==> forall|j: int|
            0 <= j < ss.len() ==> !((#[trigger] ss[j]) is Root),
    decreases s.len() - i,
{
    if i < s.len() {
        match spec_step(s, i) {
            Some((sel, j)) => {
                lemma_step_never_root(s, i);
                if i < j && j <= s.len() {
                    lemma_steps_never_root(s, j);
                    match spec_steps(s, j) {
                        Some(rest) => {
                            assert forall|t: int|
                                0 <= t < (seq![sel] + rest).len() implies !((#[trigger] (seq![sel]
                                + rest)[t]) is Root) by {
                                if t > 0 {
                                    assert((seq![sel] + rest)[t] == rest[t - 1]);
                                }
                            }
                        },
                        None => {},
                    }
                }
            },
            None => {},
        }
    }
}

/// A compiled query is never empty; it begins with `Root`, and `Root`
/// occurs nowhere else.
pub proof fn lemma_parse_shape(q: Seq<char>)
    ensures
        spec_parse(q) matches Some(sels) ==> sels.len() >= 1 && sels[0] == SelV::Root && forall|
            i: int,
        | 1 <= i < sels.len() ==> !((#[trigger] sels[i]) is Root),
{
    let i0: int = if q.len() > 0 && q[0] == '$' {
        1
    } else {
        0
    };
    lemma_steps_never_root(q, i0);
    match spec_steps(q, i0) {
        Some(ss) => {
            let sels = seq![SelV::Root] + ss;
            assert forall|i: int| 1 <= i < sels.len() implies !((#[trigger] sels[i]) is Root) by {
                assert(sels[i] == ss[i - 1]);
            }
        },
        None => {},
    }
}

/// Idempotence of `set` for the identity query: the document is replaced
/// wholesale, so a second identical write changes nothing further.
pub proof fn lemma_set_root_idempotent(q: Seq<char>, doc: Jv, to: Jv)
    requires
        spec_parse(q) == Some(seq![SelV::Root]),
    ensures
        spec_set(q, doc, to) == Some(to),
        spec_set(q, to, to) == Some(to),
{
    assert(is_root_only(seq![SelV::Root]));
}

/// The explosion guard bounds every successful evaluation: a match set
/// survives only if no selector stage, the last one included, left more
/// than `MAX_ACCUMULATOR_SIZE` candidates in flight.
pub proof fn lemma_matches_bounded(sels: Seq<SelV>, root: Jv)
    ensures
        spec_matches(sels, root) matches Ok(ps) ==> ps.len() <= MAX_ACCUMULATOR_SIZE,
{
    lemma_run_bounded(sels, 0, Seq::empty(), root);
}

} // verus!
