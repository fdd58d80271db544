//! A constraint-satisfaction problem: named integer variables, each with a
//! domain of candidate values, and constraints over them. Arc consistency
//! (AC-3), forward checking and its undoing work on the domains.
use vstd::prelude::*;

use std::collections::VecDeque;

use crate::constraint::{
    lemma_holds_submap, names_of, str_names_of, to_strings, Constraint, ConstraintView, Relation,
};
use crate::names::{Assignment, DomainMap};

verus! {

broadcast use vstd::seq_lib::group_seq_properties, vstd::seq_lib::group_filter_ensures;

/// The candidate values of one variable.
pub type Domain = Vec<i64>;

/// The integers from `lo` to `hi`, both included, in increasing order.
pub open spec fn range_seq(lo: int, hi: int) -> Seq<i64> {
    Seq::new(if lo <= hi { (hi - lo + 1) as nat } else { 0 }, |i: int| (lo + i) as i64)
}

/// The domain of the integers from `lo` to `hi`, both included.
pub fn range_domain(lo: i64, hi: i64) -> (r: Domain)
    ensures
        r@ == range_seq(lo as int, hi as int),
{
    let mut r: Vec<i64> = Vec::new();
    let mut k: i128 = lo as i128;
    while k <= hi as i128
        invariant
            lo <= k <= hi as int + 1 || (k == lo && lo > hi),
            r@ == range_seq(lo as int, k - 1),
        decreases hi - k + 1,
    {
        r.push(k as i64);
        k += 1;
        assert(r@ =~= range_seq(lo as int, k - 1));
    }
    assert(r@ =~= range_seq(lo as int, hi as int));
    r
}

/// A problem: variables in order, their domains, and the constraints.
pub struct CSPProblem {
    pub variables: Vec<String>,
    pub domains: DomainMap,
    pub constraints: Vec<Constraint>,
}

/// The sum of the domain sizes over the listed keys.
pub open spec fn size_sum(keys: Seq<Seq<char>>, m: Map<Seq<char>, Seq<i64>>) -> nat
    decreases keys.len(),
{
    if keys.len() == 0 {
        0
    } else {
        size_sum(keys.drop_last(), m) + m[keys.last()].len()
    }
}

proof fn lemma_size_sum_other(keys: Seq<Seq<char>>, m: Map<Seq<char>, Seq<i64>>, k: Seq<char>, v: Seq<i64>)
    requires
        !keys.contains(k),
    ensures
        size_sum(keys, m.insert(k, v)) == size_sum(keys, m),
    decreases keys.len(),
{
    if keys.len() > 0 {
        assert(keys.drop_last().contains(k) ==> keys.contains(k)) by {
            if keys.drop_last().contains(k) {
                let i = choose|i: int| 0 <= i < keys.drop_last().len() && keys.drop_last()[i] == k;
                assert(keys[i] == k);
            }
        }
        lemma_size_sum_other(keys.drop_last(), m, k, v);
        assert(keys.last() != k);
    }
}

proof fn lemma_size_sum_update(keys: Seq<Seq<char>>, m: Map<Seq<char>, Seq<i64>>, k: Seq<char>, v: Seq<i64>)
    requires
        keys.no_duplicates(),
        keys.contains(k),
    ensures
        size_sum(keys, m.insert(k, v)) + m[k].len() == size_sum(keys, m) + v.len(),
    decreases keys.len(),
{
    let p = keys.drop_last();
    assert(p.no_duplicates()) by {
        assert forall|i: int, j: int| 0 <= i < p.len() && 0 <= j < p.len() && i != j implies p[i]
            != p[j] by {
            assert(p[i] == keys[i] && p[j] == keys[j]);
        }
    }
    if keys.last() == k {
        assert(!p.contains(k)) by {
            if p.contains(k) {
                let i = choose|i: int| 0 <= i < p.len() && p[i] == k;
                assert(keys[i] == keys[keys.len() - 1]);
            }
        }
        lemma_size_sum_other(p, m, k, v);
    } else {
        let i = choose|i: int| 0 <= i < keys.len() && keys[i] == k;
        assert(i < keys.len() - 1);
        assert(p[i] == k);
        lemma_size_sum_update(p, m, k, v);
    }
}

/// The map with exactly two entries (the second wins when the names agree).
pub open spec fn pair_map(xi: Seq<char>, vi: i64, xj: Seq<char>, vj: i64) -> Map<Seq<char>, i64> {
    Map::empty().insert(xi, vi).insert(xj, vj)
}

/// Some value of `dj` for `xj` satisfies the relation together with `vi` for `xi`.
pub open spec fn supported(rel: Relation, xi: Seq<char>, vi: i64, xj: Seq<char>, dj: Seq<i64>) -> bool {
    exists|k: int| 0 <= k < dj.len() && #[trigger] rel.holds(pair_map(xi, vi, xj, dj[k]))
}

/// Support in a list of values carries over to any list that holds them all.
proof fn lemma_supported_mono(rel: Relation, xi: Seq<char>, vi: i64, xj: Seq<char>, dj: Seq<i64>, dk: Seq<i64>)
    requires
        supported(rel, xi, vi, xj, dj),
        forall|w: i64| #[trigger] dj.contains(w) ==> dk.contains(w),
    ensures
        supported(rel, xi, vi, xj, dk),
{
    let k = choose|k: int| 0 <= k < dj.len() && #[trigger] rel.holds(pair_map(xi, vi, xj, dj[k]));
    assert(dj.contains(dj[k]));
    let m = choose|m: int| 0 <= m < dk.len() && dk[m] == dj[k];
    assert(rel.holds(pair_map(xi, vi, xj, dk[m])));
}

/// Each domain of `d` is the same key's domain in `d0` with some values
/// dropped: the values kept stay at all their places, in their order.
pub open spec fn kept_in_order(d0: Map<Seq<char>, Seq<i64>>, d: Map<Seq<char>, Seq<i64>>) -> bool {
    forall|k: Seq<char>|
        #![trigger d[k]]
        d.contains_key(k) ==> d[k] == d0[k].filter(|v: i64| d[k].contains(v))
}

proof fn lemma_kept_start(d: Map<Seq<char>, Seq<i64>>)
    ensures
        kept_in_order(d, d),
{
    assert forall|k: Seq<char>| #![trigger d[k]] d.contains_key(k) implies d[k] == d[k].filter(
        |v: i64| d[k].contains(v),
    ) by {
        let p = |v: i64| d[k].contains(v);
        assert forall|i: int| 0 <= i < d[k].len() implies p(#[trigger] d[k][i]) by {
            assert(d[k].contains(d[k][i]));
        }
        lemma_filter_all(d[k], p);
    }
}

proof fn lemma_kept_revise(
    d0: Map<Seq<char>, Seq<i64>>,
    d: Map<Seq<char>, Seq<i64>>,
    xi: Seq<char>,
    q: spec_fn(i64) -> bool,
)
    requires
        kept_in_order(d0, d),
        d.contains_key(xi),
    ensures
        kept_in_order(d0, d.insert(xi, d[xi].filter(q))),
{
    let d2 = d.insert(xi, d[xi].filter(q));
    assert forall|k: Seq<char>| #![trigger d2[k]] d2.contains_key(k) implies d2[k] == d0[k].filter(
        |v: i64| d2[k].contains(v),
    ) by {
        if k == xi {
            let cur = d[xi];
            let new = cur.filter(q);
            let cc = |v: i64| cur.contains(v);
            let nc = |v: i64| new.contains(v);
            assert(cur == d0[xi].filter(cc));
            assert forall|x: i64| #[trigger] nc(x) == (cc(x) && q(x)) by {
                if new.contains(x) {
                    cur.lemma_filter_contains_rev(q, x);
                }
                if cur.contains(x) && q(x) {
                    let i = choose|i: int| 0 <= i < cur.len() && cur[i] == x;
                    cur.lemma_filter_contains(q, i);
                }
            }
            lemma_filter_filter(d0[xi], cc, q, nc);
            assert(d2[k] == new);
        } else {
            assert(d2[k] == d[k]);
        }
    }
}

/// The queue holds the arc from `xi` to `xj` under constraint `ci`.
pub open spec fn arc_pending(q: Seq<(String, String, usize)>, ci: int, xi: Seq<char>, xj: Seq<char>) -> bool {
    exists|t: int| 0 <= t < q.len() && (#[trigger] q[t]).0@ == xi && q[t].1@ == xj && q[t].2 == ci
}

/// Every value that `d` leaves for `xi` has, under constraint `ci`, a
/// supporting value among those `d0` gave `xj`.
pub open spec fn arc_ok(
    p: CSPProblem,
    d0: Map<Seq<char>, Seq<i64>>,
    d: Map<Seq<char>, Seq<i64>>,
    ci: int,
    xi: Seq<char>,
    xj: Seq<char>,
) -> bool {
    forall|v: i64|
        d.contains_key(xi) && #[trigger] d[xi].contains(v) ==> supported(
            p.constraints@[ci].relation,
            xi,
            v,
            xj,
            d0[xj],
        )
}

/// Positions `i != j` of constraint `ci`'s scope name an arc of the problem.
pub open spec fn is_arc(p: CSPProblem, ci: int, i: int, j: int) -> bool {
    &&& 0 <= ci < p.constraints@.len()
    &&& 0 <= i < p.constraints@[ci].scope().len()
    &&& 0 <= j < p.constraints@[ci].scope().len()
    &&& i != j
}

/// Every arc before position `(ci, i, j)`, in the order constraint, first
/// position, second position, is in the queue.
pub open spec fn arcs_queued_upto(p: CSPProblem, q: Seq<(String, String, usize)>, ci: int, i: int, j: int) -> bool {
    forall|c2: int, i2: int, j2: int|
        #[trigger] is_arc(p, c2, i2, j2) && (c2 < ci || (c2 == ci && (i2 < i || (i2 == i && j2 < j))))
            ==> arc_pending(q, c2, p.constraints@[c2].scope()[i2], p.constraints@[c2].scope()[j2])
}

/// Every arc is either still queued or supported, from `d`, in `d0`.
pub open spec fn arcs_settled(
    p: CSPProblem,
    q: Seq<(String, String, usize)>,
    d0: Map<Seq<char>, Seq<i64>>,
    d: Map<Seq<char>, Seq<i64>>,
) -> bool {
    forall|c2: int, i2: int, j2: int|
        #[trigger] is_arc(p, c2, i2, j2) ==> arc_pending(
            q,
            c2,
            p.constraints@[c2].scope()[i2],
            p.constraints@[c2].scope()[j2],
        ) || arc_ok(p, d0, d, c2, p.constraints@[c2].scope()[i2], p.constraints@[c2].scope()[j2])
}

/// Every value that `d` leaves for a name of a constraint's scope has, under
/// that constraint, a supporting value in what `d0` gave each other name of
/// the scope.
pub open spec fn arcs_supported(p: CSPProblem, d0: Map<Seq<char>, Seq<i64>>, d: Map<Seq<char>, Seq<i64>>) -> bool {
    forall|c2: int, i2: int, j2: int|
        #[trigger] is_arc(p, c2, i2, j2) ==> arc_ok(
            p,
            d0,
            d,
            c2,
            p.constraints@[c2].scope()[i2],
            p.constraints@[c2].scope()[j2],
        )
}

/// No scope names a variable twice, and two different constraints never
/// both name the same two variables.
pub open spec fn simple_scopes(p: CSPProblem) -> bool {
    &&& forall|ci: int, i: int, j: int|
        #![trigger p.constraints@[ci].scope()[i], p.constraints@[ci].scope()[j]]
        0 <= ci < p.constraints@.len() && 0 <= i < p.constraints@[ci].scope().len() && 0 <= j
            < p.constraints@[ci].scope().len() && i != j ==> p.constraints@[ci].scope()[i]
            != p.constraints@[ci].scope()[j]
    &&& forall|c1: int, c2: int, x: Seq<char>, y: Seq<char>|
        #![trigger p.constraints@[c1].scope().contains(x), p.constraints@[c2].scope().contains(y)]
        0 <= c1 < p.constraints@.len() && 0 <= c2 < p.constraints@.len() && c1 != c2 && x != y
            && p.constraints@[c1].scope().contains(x) && p.constraints@[c1].scope().contains(y)
            && p.constraints@[c2].scope().contains(x) ==> !p.constraints@[c2].scope().contains(y)
}

/// When every arc of the problem is supported in the domains `d`, revising
/// the first queued arc (whose names differ) changes nothing.
proof fn lemma_revise_stable(
    p: CSPProblem,
    q: Seq<(String, String, usize)>,
    d: Map<Seq<char>, Seq<i64>>,
    d2: Map<Seq<char>, Seq<i64>>,
)
    requires
        q.len() > 0,
        q[0].0@ != q[0].1@,
        q[0].2 < p.constraints@.len(),
        p.constraints@[q[0].2 as int].scope().contains(q[0].0@),
        p.constraints@[q[0].2 as int].scope().contains(q[0].1@),
        d.contains_key(q[0].0@),
        arcs_supported(p, d, d),
        d2 == d.insert(
            q[0].0@,
            d[q[0].0@].filter(
                |v: i64| supported(p.constraints@[q[0].2 as int].relation, q[0].0@, v, q[0].1@, d[q[0].1@]),
            ),
        ),
    ensures
        d2 == d,
{
    let xi = q[0].0@;
    let xj = q[0].1@;
    let ci = q[0].2 as int;
    let sc = p.constraints@[ci].scope();
    let i2 = choose|i2: int| 0 <= i2 < sc.len() && sc[i2] == xi;
    let j2 = choose|j2: int| 0 <= j2 < sc.len() && sc[j2] == xj;
    assert(is_arc(p, ci, i2, j2));
    let pred = |v: i64| supported(p.constraints@[ci].relation, xi, v, xj, d[xj]);
    assert forall|k: int| 0 <= k < d[xi].len() implies pred(#[trigger] d[xi][k]) by {
        assert(d[xi].contains(d[xi][k]));
    }
    lemma_filter_all(d[xi], pred);
    assert(d2 =~= d);
}

/// A second run of arc consistency changes nothing: what a successful run
/// leaves (the same constraints, domains in which every arc is supported)
/// again has simple scopes and every arc supported in its own domains, so
/// `ac3` on it returns true and keeps its domains.
pub proof fn lemma_ac3_second_run(before: CSPProblem, after: CSPProblem)
    requires
        after.constraints@ == before.constraints@,
        simple_scopes(before),
        arcs_supported(before, after.domains@, after.domains@),
    ensures
        simple_scopes(after),
        arcs_supported(after, after.domains@, after.domains@),
{
    assert forall|c2: int, i2: int, j2: int| #[trigger] is_arc(after, c2, i2, j2) implies arc_ok(
        after,
        after.domains@,
        after.domains@,
        c2,
        after.constraints@[c2].scope()[i2],
        after.constraints@[c2].scope()[j2],
    ) by {
        assert(is_arc(before, c2, i2, j2));
    }
}

/// Every queued arc joins two different names.
pub open spec fn names_differ(q: Seq<(String, String, usize)>) -> bool {
    forall|t: int| 0 <= t < q.len() ==> (#[trigger] q[t]).0@ != q[t].1@
}

/// Positions `i != j` of constraint `ci`'s scope name two different
/// variables that no other constraint names together.
pub open spec fn tracked_arc(p: CSPProblem, ci: int, i: int, j: int) -> bool {
    &&& is_arc(p, ci, i, j)
    &&& p.constraints@[ci].scope()[i] != p.constraints@[ci].scope()[j]
    &&& forall|c2: int|
        0 <= c2 < p.constraints@.len() && c2 != ci ==> !(#[trigger] p.constraints@[c2].scope().contains(
            p.constraints@[ci].scope()[i],
        ) && p.constraints@[c2].scope().contains(p.constraints@[ci].scope()[j]))
}

/// Every such arc is supported in `d`: each value `d` leaves for the first
/// name has, under that constraint, a value `d` leaves for the second name.
pub open spec fn tracked_supported(p: CSPProblem, d: Map<Seq<char>, Seq<i64>>) -> bool {
    forall|c2: int, i2: int, j2: int|
        #[trigger] tracked_arc(p, c2, i2, j2) ==> arc_ok(
            p,
            d,
            d,
            c2,
            p.constraints@[c2].scope()[i2],
            p.constraints@[c2].scope()[j2],
        )
}

/// Every such arc is still queued or supported in `d`.
pub open spec fn tracked_settled(p: CSPProblem, q: Seq<(String, String, usize)>, d: Map<Seq<char>, Seq<i64>>) -> bool {
    forall|c2: int, i2: int, j2: int|
        #[trigger] tracked_arc(p, c2, i2, j2) ==> arc_pending(
            q,
            c2,
            p.constraints@[c2].scope()[i2],
            p.constraints@[c2].scope()[j2],
        ) || arc_ok(p, d, d, c2, p.constraints@[c2].scope()[i2], p.constraints@[c2].scope()[j2])
}

/// With simple scopes every arc is tracked.
proof fn lemma_simple_tracked(p: CSPProblem, d: Map<Seq<char>, Seq<i64>>)
    requires
        simple_scopes(p),
        tracked_supported(p, d),
    ensures
        arcs_supported(p, d, d),
{
    assert forall|c2: int, i2: int, j2: int| #[trigger] is_arc(p, c2, i2, j2) implies arc_ok(
        p,
        d,
        d,
        c2,
        p.constraints@[c2].scope()[i2],
        p.constraints@[c2].scope()[j2],
    ) by {
        let a = p.constraints@[c2].scope()[i2];
        let b = p.constraints@[c2].scope()[j2];
        assert(a != b);
        assert forall|c3: int|
            0 <= c3 < p.constraints@.len() && c3 != c2 implies !(#[trigger] p.constraints@[c3].scope().contains(a)
            && p.constraints@[c3].scope().contains(b)) by {
            if p.constraints@[c3].scope().contains(a) && p.constraints@[c3].scope().contains(b) {
                assert(p.constraints@[c2].scope().contains(a));
                assert(p.constraints@[c2].scope().contains(b));
            }
        }
        assert(tracked_arc(p, c2, i2, j2));
    }
}

/// The entry names two different positions of its constraint's scope.
pub open spec fn entry_arc(p: CSPProblem, x: (String, String, usize)) -> bool {
    exists|i: int, j: int|
        #[trigger] is_arc(p, x.2 as int, i, j) && p.constraints@[x.2 as int].scope()[i] == x.0@
            && p.constraints@[x.2 as int].scope()[j] == x.1@
}

/// Each queued entry names two different positions of its constraint's
/// scope.
pub open spec fn queue_arcs(p: CSPProblem, q: Seq<(String, String, usize)>) -> bool {
    forall|t: int| 0 <= t < q.len() ==> entry_arc(p, #[trigger] q[t])
}

/// A choice of domains within the problem's, non-empty wherever the
/// problem's are, in which every arc of every constraint is supported.
pub open spec fn ac_family(p: CSPProblem, e: Map<Seq<char>, Seq<i64>>) -> bool {
    &&& forall|k: Seq<char>|
        #[trigger] p.domains@.contains_key(k) ==> e.contains_key(k) && (p.domains@[k].len() > 0 ==> e[k].len()
            > 0) && forall|w: i64| #[trigger] e[k].contains(w) ==> p.domains@[k].contains(w)
    &&& arcs_supported(p, e, e)
}

/// Every value that `e` gives a name that `d` has is left in `d`.
pub open spec fn within_domains(e: Map<Seq<char>, Seq<i64>>, d: Map<Seq<char>, Seq<i64>>) -> bool {
    forall|k: Seq<char>, w: i64| d.contains_key(k) && #[trigger] e[k].contains(w) ==> d[k].contains(w)
}

proof fn lemma_queue_arcs_push(p: CSPProblem, q: Seq<(String, String, usize)>, x: (String, String, usize), i: int, j: int)
    requires
        queue_arcs(p, q),
        is_arc(p, x.2 as int, i, j),
        p.constraints@[x.2 as int].scope()[i] == x.0@,
        p.constraints@[x.2 as int].scope()[j] == x.1@,
    ensures
        queue_arcs(p, q.push(x)),
{
    let q2 = q.push(x);
    assert(entry_arc(p, x));
    assert forall|t: int| 0 <= t < q2.len() implies entry_arc(p, #[trigger] q2[t]) by {
        if t < q.len() {
            assert(q2[t] == q[t]);
        }
    }
}

proof fn lemma_queue_arcs_pop(p: CSPProblem, q: Seq<(String, String, usize)>)
    requires
        queue_arcs(p, q),
        q.len() > 0,
    ensures
        queue_arcs(p, q.subrange(1, q.len() as int)),
        entry_arc(p, q[0]),
{
    let q1 = q.subrange(1, q.len() as int);
    assert forall|t: int| 0 <= t < q1.len() implies entry_arc(p, #[trigger] q1[t]) by {
        assert(q1[t] == q[t + 1]);
    }
}

/// Revising the arc at the head of the queue removes no value that an
/// arc-consistent choice of domains within the current ones keeps.
proof fn lemma_family_revise(
    p: CSPProblem,
    q0: Seq<(String, String, usize)>,
    d: Map<Seq<char>, Seq<i64>>,
    d2: Map<Seq<char>, Seq<i64>>,
)
    requires
        q0.len() > 0,
        queue_arcs(p, q0),
        d.contains_key(q0[0].0@),
        d.contains_key(q0[0].1@),
        forall|e: Map<Seq<char>, Seq<i64>>| #[trigger] ac_family(p, e) ==> within_domains(e, d),
        forall|k: Seq<char>| #[trigger] d.contains_key(k) ==> p.domains@.contains_key(k),
        d2 == d.insert(
            q0[0].0@,
            d[q0[0].0@].filter(
                |v: i64| supported(p.constraints@[q0[0].2 as int].relation, q0[0].0@, v, q0[0].1@, d[q0[0].1@]),
            ),
        ),
    ensures
        forall|e: Map<Seq<char>, Seq<i64>>| #[trigger] ac_family(p, e) ==> within_domains(e, d2),
{
    let xi = q0[0].0@;
    let xj = q0[0].1@;
    let ci = q0[0].2 as int;
    let rel = p.constraints@[ci].relation;
    let pred = |v: i64| supported(rel, xi, v, xj, d[xj]);
    lemma_queue_arcs_pop(p, q0);
    let (i, j) = choose|i: int, j: int|
        #[trigger] is_arc(p, ci, i, j) && p.constraints@[ci].scope()[i] == xi && p.constraints@[ci].scope()[j] == xj;
    assert forall|e: Map<Seq<char>, Seq<i64>>| #[trigger] ac_family(p, e) implies within_domains(e, d2) by {
        assert(within_domains(e, d));
        assert forall|k: Seq<char>, w: i64| d2.contains_key(k) && #[trigger] e[k].contains(w) implies d2[k].contains(w) by {
            assert(d[k].contains(w));
            if k == xi {
                assert(p.domains@.contains_key(xi));
                assert(e.contains_key(xi));
                assert(arc_ok(p, e, e, ci, xi, xj));
                assert(supported(rel, xi, w, xj, e[xj]));
                assert forall|u: i64| #[trigger] e[xj].contains(u) implies d[xj].contains(u) by {}
                lemma_supported_mono(rel, xi, w, xj, e[xj], d[xj]);
                let m = choose|m: int| 0 <= m < d[xi].len() && d[xi][m] == w;
                d[xi].lemma_filter_contains(pred, m);
            }
        }
    }
}

/// When revising empties the domain of a name whose domain in the problem
/// was not empty, no arc-consistent choice of non-empty domains exists.
proof fn lemma_family_empty(p: CSPProblem, d: Map<Seq<char>, Seq<i64>>, x: Seq<char>)
    requires
        forall|e: Map<Seq<char>, Seq<i64>>| #[trigger] ac_family(p, e) ==> within_domains(e, d),
        d.contains_key(x),
        d[x].len() == 0,
        p.domains@.contains_key(x),
        p.domains@[x].len() > 0,
    ensures
        forall|e: Map<Seq<char>, Seq<i64>>| !(#[trigger] ac_family(p, e)),
{
    assert forall|e: Map<Seq<char>, Seq<i64>>| !(#[trigger] ac_family(p, e)) by {
        if ac_family(p, e) {
            assert(e[x].len() > 0);
            assert(e[x].contains(e[x][0]));
            assert(within_domains(e, d));
            assert(d[x].contains(e[x][0]));
        }
    }
}

/// The problem's own domains hold every arc-consistent choice within them.
proof fn lemma_family_start(p: CSPProblem)
    ensures
        forall|e: Map<Seq<char>, Seq<i64>>| #[trigger] ac_family(p, e) ==> within_domains(e, p.domains@),
{
}

/// While the arcs into `xi` are being queued again after `xi` was revised
/// against `xj`: every arc is queued, or supported in `d` itself, or leads
/// from a name other than `xj` into `xi` and lies at or after position
/// `(ck, t)` of the scopes.
pub open spec fn settled_from(
    p: CSPProblem,
    q: Seq<(String, String, usize)>,
    d: Map<Seq<char>, Seq<i64>>,
    xi: Seq<char>,
    xj: Seq<char>,
    ck: int,
    t: int,
) -> bool {
    forall|c2: int, i2: int, j2: int|
        #[trigger] tracked_arc(p, c2, i2, j2) ==> arc_pending(
            q,
            c2,
            p.constraints@[c2].scope()[i2],
            p.constraints@[c2].scope()[j2],
        ) || arc_ok(p, d, d, c2, p.constraints@[c2].scope()[i2], p.constraints@[c2].scope()[j2]) || (
        p.constraints@[c2].scope()[j2] == xi && p.constraints@[c2].scope()[i2] != xj && (c2 > ck || (c2
            == ck && i2 >= t)))
}

/// Revising the first queued arc `(xi, xj)` leaves every tracked arc queued,
/// supported, or leading into `xi` from a name other than `xj`; when `xi`
/// lost no value, every tracked arc is queued or supported.
proof fn lemma_revise_cur(
    p: CSPProblem,
    q0: Seq<(String, String, usize)>,
    d: Map<Seq<char>, Seq<i64>>,
    d2: Map<Seq<char>, Seq<i64>>,
)
    requires
        q0.len() > 0,
        q0[0].2 < p.constraints@.len(),
        p.constraints@[q0[0].2 as int].scope().contains(q0[0].0@),
        p.constraints@[q0[0].2 as int].scope().contains(q0[0].1@),
        tracked_settled(p, q0, d),
        d.contains_key(q0[0].0@),
        d.contains_key(q0[0].1@),
        d2 == d.insert(
            q0[0].0@,
            d[q0[0].0@].filter(
                |v: i64| supported(p.constraints@[q0[0].2 as int].relation, q0[0].0@, v, q0[0].1@, d[q0[0].1@]),
            ),
        ),
    ensures
        settled_from(p, q0.subrange(1, q0.len() as int), d2, q0[0].0@, q0[0].1@, 0, 0),
        d2 == d ==> tracked_settled(p, q0.subrange(1, q0.len() as int), d2),
{
    let q1 = q0.subrange(1, q0.len() as int);
    let xi = q0[0].0@;
    let xj = q0[0].1@;
    let ci = q0[0].2 as int;
    let rel = p.constraints@[ci].relation;
    let pred = |v: i64| supported(rel, xi, v, xj, d[xj]);
    assert forall|c2: int, i2: int, j2: int| #[trigger] tracked_arc(p, c2, i2, j2) implies arc_pending(
        q1,
        c2,
        p.constraints@[c2].scope()[i2],
        p.constraints@[c2].scope()[j2],
    ) || arc_ok(p, d2, d2, c2, p.constraints@[c2].scope()[i2], p.constraints@[c2].scope()[j2]) || (
    p.constraints@[c2].scope()[j2] == xi && p.constraints@[c2].scope()[i2] != xj && (c2 > 0 || (c2 == 0
        && i2 >= 0))) by {
        let a = p.constraints@[c2].scope()[i2];
        let b = p.constraints@[c2].scope()[j2];
        assert(a != b);
        if arc_pending(q0, c2, a, b) {
            let t = choose|t: int| 0 <= t < q0.len() && (#[trigger] q0[t]).0@ == a && q0[t].1@ == b && q0[t].2 == c2;
            if t >= 1 {
                assert(q1[t - 1] == q0[t]);
            } else {
                assert forall|v: i64| d2.contains_key(a) && #[trigger] d2[a].contains(v) implies supported(
                    p.constraints@[c2].relation,
                    a,
                    v,
                    b,
                    d2[b],
                ) by {
                    d[xi].lemma_filter_contains_rev(pred, v);
                }
            }
        } else {
            assert(arc_ok(p, d, d, c2, a, b));
            if b != xi {
                assert forall|v: i64| d2.contains_key(a) && #[trigger] d2[a].contains(v) implies supported(
                    p.constraints@[c2].relation,
                    a,
                    v,
                    b,
                    d2[b],
                ) by {
                    if a == xi {
                        d[xi].lemma_filter_contains_rev(pred, v);
                    }
                    assert(d[a].contains(v));
                }
            } else if a == xj {
                assert(c2 == ci) by {
                    if c2 != ci {
                        assert(p.constraints@[ci].scope().contains(a) && p.constraints@[ci].scope().contains(b));
                    }
                }
                assert forall|v: i64| d2.contains_key(a) && #[trigger] d2[a].contains(v) implies supported(
                    p.constraints@[c2].relation,
                    a,
                    v,
                    b,
                    d2[b],
                ) by {
                    assert(d[xj].contains(v));
                    assert(supported(rel, xj, v, xi, d[xi]));
                    let m = choose|m: int| 0 <= m < d[xi].len() && #[trigger] rel.holds(pair_map(xj, v, xi, d[xi][m]));
                    let vi = d[xi][m];
                    assert(pair_map(xj, v, xi, vi) =~= pair_map(xi, vi, xj, v));
                    let k = choose|k: int| 0 <= k < d[xj].len() && d[xj][k] == v;
                    assert(rel.holds(pair_map(xi, vi, xj, d[xj][k])));
                    assert(pred(vi));
                    d[xi].lemma_filter_contains(pred, m);
                    assert(d2[xi].contains(vi));
                    let m2 = choose|m2: int| 0 <= m2 < d2[xi].len() && d2[xi][m2] == vi;
                    assert(rel.holds(pair_map(xj, v, xi, d2[xi][m2])));
                }
            }
        }
    }
    if d2 == d {
        assert forall|c2: int, i2: int, j2: int| #[trigger] tracked_arc(p, c2, i2, j2) implies arc_pending(
            q1,
            c2,
            p.constraints@[c2].scope()[i2],
            p.constraints@[c2].scope()[j2],
        ) || arc_ok(p, d2, d2, c2, p.constraints@[c2].scope()[i2], p.constraints@[c2].scope()[j2]) by {
            let a = p.constraints@[c2].scope()[i2];
            let b = p.constraints@[c2].scope()[j2];
            if arc_pending(q0, c2, a, b) {
                let t = choose|t: int| 0 <= t < q0.len() && (#[trigger] q0[t]).0@ == a && q0[t].1@ == b && q0[t].2 == c2;
                if t >= 1 {
                    assert(q1[t - 1] == q0[t]);
                } else {
                    assert forall|v: i64| d2.contains_key(a) && #[trigger] d2[a].contains(v) implies supported(
                        p.constraints@[c2].relation,
                        a,
                        v,
                        b,
                        d2[b],
                    ) by {
                        d[xi].lemma_filter_contains_rev(pred, v);
                    }
                }
            }
        }
    }
}

proof fn lemma_requeue_push(
    p: CSPProblem,
    q: Seq<(String, String, usize)>,
    x: (String, String, usize),
    d: Map<Seq<char>, Seq<i64>>,
    xi: Seq<char>,
    xj: Seq<char>,
    ck: int,
    t: int,
)
    requires
        settled_from(p, q, d, xi, xj, ck, t),
        0 <= ck < p.constraints@.len(),
        0 <= t < p.constraints@[ck].scope().len(),
        x.0@ == p.constraints@[ck].scope()[t],
        x.1@ == xi,
        x.2 == ck,
    ensures
        settled_from(p, q.push(x), d, xi, xj, ck, t + 1),
{
    let q2 = q.push(x);
    assert forall|c2: int, i2: int, j2: int| #[trigger] tracked_arc(p, c2, i2, j2) implies arc_pending(
        q2,
        c2,
        p.constraints@[c2].scope()[i2],
        p.constraints@[c2].scope()[j2],
    ) || arc_ok(p, d, d, c2, p.constraints@[c2].scope()[i2], p.constraints@[c2].scope()[j2]) || (
    p.constraints@[c2].scope()[j2] == xi && p.constraints@[c2].scope()[i2] != xj && (c2 > ck || (c2 == ck
        && i2 >= t + 1))) by {
        let a = p.constraints@[c2].scope()[i2];
        let b = p.constraints@[c2].scope()[j2];
        if arc_pending(q, c2, a, b) {
            lemma_pending_push(q, x, c2, a, b);
        }
        if c2 == ck && i2 == t && b == xi {
            assert(q2[q.len() as int] == x);
        }
    }
}

proof fn lemma_requeue_skip(
    p: CSPProblem,
    q: Seq<(String, String, usize)>,
    d: Map<Seq<char>, Seq<i64>>,
    xi: Seq<char>,
    xj: Seq<char>,
    ck: int,
    t: int,
)
    requires
        settled_from(p, q, d, xi, xj, ck, t),
        0 <= ck < p.constraints@.len(),
        0 <= t < p.constraints@[ck].scope().len(),
        p.constraints@[ck].scope()[t] == xi || p.constraints@[ck].scope()[t] == xj,
    ensures
        settled_from(p, q, d, xi, xj, ck, t + 1),
{
    assert forall|c2: int, i2: int, j2: int| #[trigger] tracked_arc(p, c2, i2, j2) implies arc_pending(
        q,
        c2,
        p.constraints@[c2].scope()[i2],
        p.constraints@[c2].scope()[j2],
    ) || arc_ok(p, d, d, c2, p.constraints@[c2].scope()[i2], p.constraints@[c2].scope()[j2]) || (
    p.constraints@[c2].scope()[j2] == xi && p.constraints@[c2].scope()[i2] != xj && (c2 > ck || (c2 == ck
        && i2 >= t + 1))) by {
        if c2 == ck && i2 == t {
            assert(p.constraints@[c2].scope()[i2] != p.constraints@[c2].scope()[j2]);
        }
    }
}

proof fn lemma_requeue_next(
    p: CSPProblem,
    q: Seq<(String, String, usize)>,
    d: Map<Seq<char>, Seq<i64>>,
    xi: Seq<char>,
    xj: Seq<char>,
    ck: int,
    t: int,
)
    requires
        settled_from(p, q, d, xi, xj, ck, t),
        0 <= ck < p.constraints@.len(),
        t == p.constraints@[ck].scope().len() || !p.constraints@[ck].scope().contains(xi),
    ensures
        settled_from(p, q, d, xi, xj, ck + 1, 0),
{
    assert forall|c2: int, i2: int, j2: int| #[trigger] tracked_arc(p, c2, i2, j2) implies arc_pending(
        q,
        c2,
        p.constraints@[c2].scope()[i2],
        p.constraints@[c2].scope()[j2],
    ) || arc_ok(p, d, d, c2, p.constraints@[c2].scope()[i2], p.constraints@[c2].scope()[j2]) || (
    p.constraints@[c2].scope()[j2] == xi && p.constraints@[c2].scope()[i2] != xj && (c2 > ck + 1 || (c2
        == ck + 1 && i2 >= 0))) by {
        if c2 == ck && p.constraints@[c2].scope()[j2] == xi {
            assert(p.constraints@[ck].scope().contains(xi));
        }
    }
}

proof fn lemma_requeue_done(
    p: CSPProblem,
    q: Seq<(String, String, usize)>,
    d: Map<Seq<char>, Seq<i64>>,
    xi: Seq<char>,
    xj: Seq<char>,
)
    requires
        settled_from(p, q, d, xi, xj, p.constraints@.len() as int, 0),
    ensures
        tracked_settled(p, q, d),
{
    assert forall|c2: int, i2: int, j2: int| #[trigger] tracked_arc(p, c2, i2, j2) implies arc_pending(
        q,
        c2,
        p.constraints@[c2].scope()[i2],
        p.constraints@[c2].scope()[j2],
    ) || arc_ok(p, d, d, c2, p.constraints@[c2].scope()[i2], p.constraints@[c2].scope()[j2]) by {
        assert(is_arc(p, c2, i2, j2));
    }
}

proof fn lemma_pending_push(q: Seq<(String, String, usize)>, x: (String, String, usize), ci: int, xi: Seq<char>, xj: Seq<char>)
    requires
        arc_pending(q, ci, xi, xj),
    ensures
        arc_pending(q.push(x), ci, xi, xj),
{
    let t = choose|t: int| 0 <= t < q.len() && (#[trigger] q[t]).0@ == xi && q[t].1@ == xj && q[t].2 == ci;
    assert(q.push(x)[t] == q[t]);
}

proof fn lemma_settled_push(
    p: CSPProblem,
    q: Seq<(String, String, usize)>,
    x: (String, String, usize),
    d0: Map<Seq<char>, Seq<i64>>,
    d: Map<Seq<char>, Seq<i64>>,
)
    requires
        arcs_settled(p, q, d0, d),
    ensures
        arcs_settled(p, q.push(x), d0, d),
{
    assert forall|c2: int, i2: int, j2: int| #[trigger] is_arc(p, c2, i2, j2) implies arc_pending(
        q.push(x),
        c2,
        p.constraints@[c2].scope()[i2],
        p.constraints@[c2].scope()[j2],
    ) || arc_ok(p, d0, d, c2, p.constraints@[c2].scope()[i2], p.constraints@[c2].scope()[j2]) by {
        if arc_pending(q, c2, p.constraints@[c2].scope()[i2], p.constraints@[c2].scope()[j2]) {
            lemma_pending_push(q, x, c2, p.constraints@[c2].scope()[i2], p.constraints@[c2].scope()[j2]);
        }
    }
}

/// Popping the arc `(xi, xj, ci)` and revising `xi` against `xj` keeps every
/// arc queued or supported.
proof fn lemma_settled_revise(
    p: CSPProblem,
    q0: Seq<(String, String, usize)>,
    d0: Map<Seq<char>, Seq<i64>>,
    d: Map<Seq<char>, Seq<i64>>,
    d2: Map<Seq<char>, Seq<i64>>,
)
    requires
        q0.len() > 0,
        arcs_settled(p, q0, d0, d),
        d.contains_key(q0[0].0@),
        d.contains_key(q0[0].1@),
        forall|k: Seq<char>, w: i64| d.contains_key(k) && #[trigger] d[k].contains(w) ==> d0[k].contains(w),
        d2 == d.insert(
            q0[0].0@,
            d[q0[0].0@].filter(
                |v: i64| supported(p.constraints@[q0[0].2 as int].relation, q0[0].0@, v, q0[0].1@, d[q0[0].1@]),
            ),
        ),
    ensures
        arcs_settled(p, q0.subrange(1, q0.len() as int), d0, d2),
{
    let q1 = q0.subrange(1, q0.len() as int);
    let xi = q0[0].0@;
    let xj = q0[0].1@;
    let ci = q0[0].2 as int;
    let pred = |v: i64| supported(p.constraints@[ci].relation, xi, v, xj, d[xj]);
    assert forall|c2: int, i2: int, j2: int| #[trigger] is_arc(p, c2, i2, j2) implies arc_pending(
        q1,
        c2,
        p.constraints@[c2].scope()[i2],
        p.constraints@[c2].scope()[j2],
    ) || arc_ok(p, d0, d2, c2, p.constraints@[c2].scope()[i2], p.constraints@[c2].scope()[j2]) by {
        let a = p.constraints@[c2].scope()[i2];
        let b = p.constraints@[c2].scope()[j2];
        if arc_pending(q0, c2, a, b) {
            let t = choose|t: int| 0 <= t < q0.len() && (#[trigger] q0[t]).0@ == a && q0[t].1@ == b && q0[t].2 == c2;
            if t >= 1 {
                assert(q1[t - 1] == q0[t]);
            } else {
                assert forall|v: i64| d2.contains_key(a) && #[trigger] d2[a].contains(v) implies supported(
                    p.constraints@[c2].relation,
                    a,
                    v,
                    b,
                    d0[b],
                ) by {
                    d[xi].lemma_filter_contains_rev(pred, v);
                    assert forall|w: i64| #[trigger] d[xj].contains(w) implies d0[xj].contains(w) by {}
                    lemma_supported_mono(p.constraints@[ci].relation, xi, v, xj, d[xj], d0[xj]);
                }
            }
        } else {
            assert forall|v: i64| d2.contains_key(a) && #[trigger] d2[a].contains(v) implies supported(
                p.constraints@[c2].relation,
                a,
                v,
                b,
                d0[b],
            ) by {
                if a == xi {
                    d[xi].lemma_filter_contains_rev(pred, v);
                }
                assert(d[a].contains(v));
            }
        }
    }
}

impl CSPProblem {
    /// The variable names in order.
    pub open spec fn var_names(&self) -> Seq<Seq<char>> {
        names_of(self.variables@)
    }

    /// The constraints, names taken by their characters.
    pub open spec fn constraint_views(&self) -> Seq<ConstraintView> {
        self.constraints@.map_values(|c: Constraint| c@)
    }

    /// Every variable has a value.
    pub open spec fn complete(&self, a: Map<Seq<char>, i64>) -> bool {
        forall|i: int| 0 <= i < self.var_names().len() ==> #[trigger] a.contains_key(self.var_names()[i])
    }

    /// Every constraint whose scope is fully assigned holds.
    pub open spec fn consistent(&self, a: Map<Seq<char>, i64>) -> bool {
        forall|ci: int|
            0 <= ci < self.constraints@.len() && (#[trigger] self.constraints@[ci]).applies(a)
                ==> self.constraints@[ci].relation.holds(a)
    }

    /// Every variable has a domain.
    pub open spec fn has_domains(&self) -> bool {
        forall|i: int| 0 <= i < self.var_names().len() ==> self.domains@.contains_key(#[trigger] self.var_names()[i])
    }

    /// Every variable without a domain comes after a variable whose domain is
    /// empty, so that a search in variable order never reaches it.
    pub open spec fn gaps_after_empty(&self) -> bool {
        forall|i: int|
            0 <= i < self.var_names().len() && !self.domains@.contains_key(#[trigger] self.var_names()[i])
                ==> exists|j: int|
                0 <= j < i && self.domains@.contains_key(self.var_names()[j]) && self.domains@[self.var_names()[j]].len()
                    == 0
    }

    /// Every name in a constraint's scope is a variable.
    pub open spec fn scopes_declared(&self) -> bool {
        forall|ci: int, j: int|
            0 <= ci < self.constraints@.len() && 0 <= j < self.constraints@[ci].scope().len()
                ==> self.var_names().contains(#[trigger] self.constraints@[ci].scope()[j])
    }

    /// Every name in a constraint's scope has a domain.
    pub open spec fn scopes_have_domains(&self) -> bool {
        forall|ci: int, j: int|
            0 <= ci < self.constraints@.len() && 0 <= j < self.constraints@[ci].scope().len()
                ==> self.domains@.contains_key(#[trigger] self.constraints@[ci].scope()[j])
    }

    /// Variables have domains and constraints speak only of variables.
    pub open spec fn well_formed(&self) -> bool {
        self.has_domains() && self.scopes_declared()
    }

    /// Only variables are assigned, each to a value of its domain in `doms`.
    pub open spec fn within(&self, a: Map<Seq<char>, i64>, doms: Map<Seq<char>, Seq<i64>>) -> bool {
        forall|k: Seq<char>|
            #[trigger] a.contains_key(k) ==> self.var_names().contains(k) && doms.contains_key(k)
                && doms[k].contains(a[k])
    }

    /// A solution when the domains are `doms`: every variable assigned, from its
    /// domain, and every constraint holds.
    pub open spec fn is_solution_in(&self, a: Map<Seq<char>, i64>, doms: Map<Seq<char>, Seq<i64>>) -> bool {
        self.complete(a) && self.consistent(a) && self.within(a, doms)
    }

    /// A solution of the problem as it stands.
    pub open spec fn is_solution(&self, a: Map<Seq<char>, i64>) -> bool {
        self.is_solution_in(a, self.domains@)
    }

    /// The empty problem.
    pub fn new() -> (r: Self)
        ensures
            r.variables@ == Seq::<String>::empty(),
            r.domains@ == Map::<Seq<char>, Seq<i64>>::empty(),
            r.constraints@ == Seq::<Constraint>::empty(),
    {
        CSPProblem { variables: Vec::new(), domains: DomainMap::new(), constraints: Vec::new() }
    }

    /// Adds a variable at the end and sets its domain.
    pub fn add_variable(&mut self, name: &str, domain: Domain)
        ensures
            final(self).var_names() == old(self).var_names().push(name@),
            final(self).domains@ == old(self).domains@.insert(name@, domain@),
            final(self).constraints@ == old(self).constraints@,
    {
        self.variables.push(name.to_owned());
        assert(self.var_names() =~= old(self).var_names().push(name@));
        self.domains.insert(name, domain);
    }

    /// Adds a constraint at the end.
    pub fn add_constraint(&mut self, vars: Vec<&str>, name: &str, relation: Relation)
        ensures
            final(self).variables@ == old(self).variables@,
            final(self).domains@ == old(self).domains@,
            final(self).constraints@.len() == old(self).constraints@.len() + 1,
            final(self).constraints@.drop_last() == old(self).constraints@,
            final(self).constraints@.last().scope() == str_names_of(vars@),
            final(self).constraints@.last().name@ == name@,
            final(self).constraints@.last().relation == relation,
    {
        let scope = to_strings(vars.as_slice());
        self.constraints.push(Constraint { vars: scope, name: name.to_owned(), relation });
        assert(self.constraints@.drop_last() =~= old(self).constraints@);
    }

    /// The constraints whose scope holds `var`, in order.
    pub fn constraints_for(&self, var: &str) -> (r: Vec<&Constraint>)
        ensures
            r@.map_values(|c: &Constraint| *c) == self.constraints@.filter(
                |c: Constraint| c.scope().contains(var@),
            ),
    {
        let ghost pred = |c: Constraint| c.scope().contains(var@);
        let v = var.to_owned();
        let mut r: Vec<&Constraint> = Vec::new();
        let mut i: usize = 0;
        while i < self.constraints.len()
            invariant
                i <= self.constraints@.len(),
                v@ == var@,
                pred == (|c: Constraint| c.scope().contains(var@)),
                r@.map_values(|c: &Constraint| *c) == self.constraints@.take(i as int).filter(pred),
            decreases self.constraints@.len() - i,
        {
            let c = &self.constraints[i];
            assert(self.constraints@.take(i + 1) =~= self.constraints@.take(i as int).push(*c));
            proof {
                self.constraints@.take(i as int).lemma_filter_push(*c, pred);
            }
            if c.mentions(&v) {
                r.push(c);
            }
            assert(r@.map_values(|c: &Constraint| *c) =~= self.constraints@.take(i + 1).filter(pred));
            i += 1;
        }
        assert(self.constraints@.take(self.constraints@.len() as int) =~= self.constraints@);
        r
    }

    /// Whether every constraint whose scope is fully assigned holds.
    pub fn is_consistent(&self, assignment: &Assignment) -> (r: bool)
        ensures
            r == self.consistent(assignment@),
    {
        let mut i: usize = 0;
        while i < self.constraints.len()
            invariant
                i <= self.constraints@.len(),
                forall|ci: int|
                    0 <= ci < i && (#[trigger] self.constraints@[ci]).applies(assignment@)
                        ==> self.constraints@[ci].relation.holds(assignment@),
            decreases self.constraints@.len() - i,
        {
            let c = &self.constraints[i];
            if c.all_assigned(assignment) && !c.check(assignment) {
                return false;
            }
            i += 1;
        }
        true
    }

    /// Whether every variable has a value.
    pub fn is_complete(&self, assignment: &Assignment) -> (r: bool)
        ensures
            r == self.complete(assignment@),
    {
        let mut i: usize = 0;
        while i < self.variables.len()
            invariant
                i <= self.variables@.len(),
                forall|j: int| 0 <= j < i ==> #[trigger] assignment@.contains_key(self.var_names()[j]),
            decreases self.variables@.len() - i,
        {
            if !assignment.has_name(&self.variables[i]) {
                assert(self.var_names()[i as int] == self.variables@[i as int]@);
                return false;
            }
            i += 1;
        }
        true
    }
}


impl CSPProblem {
    /// Keeps in the domain of `xi` the values that some value of `xj`'s domain
    /// supports under constraint `ci`; tells whether any value went.
    fn revise(&mut self, xi: &String, xj: &String, ci: usize) -> (revised: bool)
        requires
            ci < old(self).constraints@.len(),
            old(self).domains@.contains_key(xi@),
            old(self).domains@.contains_key(xj@),
        ensures
            final(self).variables@ == old(self).variables@,
            final(self).constraints@ == old(self).constraints@,
            final(self).domains.key_seq() == old(self).domains.key_seq(),
            final(self).domains@ == old(self).domains@.insert(
                xi@,
                old(self).domains@[xi@].filter(
                    |v: i64|
                        supported(
                            old(self).constraints@[ci as int].relation,
                            xi@,
                            v,
                            xj@,
                            old(self).domains@[xj@],
                        ),
                ),
            ),
            revised == (final(self).domains@[xi@].len() < old(self).domains@[xi@].len()),
            !revised ==> final(self).domains@ == old(self).domains@,
    {
        let xi_domain = crate::names::copy_values(self.domains.get_name(xi).unwrap());
        let xj_domain = crate::names::copy_values(self.domains.get_name(xj).unwrap());
        let ghost rel = self.constraints@[ci as int].relation;
        let ghost pred = |v: i64| supported(rel, xi@, v, xj@, xj_domain@);
        let mut new_domain: Vec<i64> = Vec::new();
        let mut revised = false;
        let ghost mut removed: nat = 0;
        let mut k: usize = 0;
        while k < xi_domain.len()
            invariant
                k <= xi_domain@.len(),
                ci < self.constraints@.len(),
                rel == self.constraints@[ci as int].relation,
                pred == (|v: i64| supported(rel, xi@, v, xj@, xj_domain@)),
                new_domain@ == xi_domain@.take(k as int).filter(pred),
                new_domain@.len() + removed == k,
                revised == (removed > 0),
                !revised ==> new_domain@ == xi_domain@.take(k as int),
            decreases xi_domain@.len() - k,
        {
            let vali = xi_domain[k];
            let mut satisfiable = false;
            let mut l: usize = 0;
            while l < xj_domain.len() && !satisfiable
                invariant
                    l <= xj_domain@.len(),
                    ci < self.constraints@.len(),
                    rel == self.constraints@[ci as int].relation,
                    satisfiable == exists|m: int|
                        0 <= m < l && #[trigger] rel.holds(pair_map(xi@, vali, xj@, xj_domain@[m])),
                decreases xj_domain@.len() - l,
            {
                let valj = xj_domain[l];
                let mut a = Assignment::new();
                a.insert_name(xi.clone(), vali);
                a.insert_name(xj.clone(), valj);
                assert(a@ == pair_map(xi@, vali, xj@, valj));
                if self.constraints[ci].check(&a) {
                    satisfiable = true;
                }
                l += 1;
            }
            assert(satisfiable == pred(vali));
            proof {
                assert(xi_domain@.take(k + 1) =~= xi_domain@.take(k as int).push(vali));
                xi_domain@.take(k as int).lemma_filter_push(vali, pred);
            }
            if satisfiable {
                new_domain.push(vali);
            } else {
                revised = true;
                proof {
                    removed = removed + 1;
                }
            }
            k += 1;
        }
        assert(xi_domain@.take(xi_domain@.len() as int) =~= xi_domain@);
        let ghost before = self.domains@;
        self.domains.insert_name(xi.clone(), new_domain);
        proof {
            if !revised {
                assert(self.domains@ =~= before);
            }
        }
        revised
    }

    /// Arc consistency (AC-3): for each pair of distinct positions in each
    /// constraint's scope, drops from the first variable's domain the values
    /// with no supporting value in the second's, and revisits the arcs into a
    /// variable whose domain shrank. Returns false as soon as a domain becomes
    /// empty.
    pub fn ac3(&mut self) -> (r: bool)
        requires
            old(self).scopes_have_domains(),
        ensures
            final(self).variables@ == old(self).variables@,
            final(self).constraints@ == old(self).constraints@,
            final(self).domains.key_seq() == old(self).domains.key_seq(),
            forall|k: Seq<char>| #[trigger]
                final(self).domains@.contains_key(k) == old(self).domains@.contains_key(k),
            forall|k: Seq<char>, v: i64|
                final(self).domains@.contains_key(k) && #[trigger] final(self).domains@[k].contains(v)
                    ==> old(self).domains@[k].contains(v),
            old(self).well_formed() ==> forall|s: Map<Seq<char>, i64>| #[trigger]
                old(self).is_solution(s) ==> final(self).is_solution(s),
            !r && old(self).well_formed() ==> forall|s: Map<Seq<char>, i64>|
                !(#[trigger] old(self).is_solution(s)),
            r ==> forall|k: Seq<char>|
                #![trigger final(self).domains@[k]]
                final(self).domains@.contains_key(k) && final(self).domains@[k].len() == 0
                    ==> old(self).domains@[k].len() == 0,
            r ==> arcs_supported(*old(self), old(self).domains@, final(self).domains@),
            kept_in_order(old(self).domains@, final(self).domains@),
            r && simple_scopes(*old(self)) ==> arcs_supported(
                *old(self),
                final(self).domains@,
                final(self).domains@,
            ),
            !r ==> exists|k: Seq<char>|
                final(self).domains@.contains_key(k) && #[trigger] final(self).domains@[k].len() == 0,
            simple_scopes(*old(self)) && arcs_supported(*old(self), old(self).domains@, old(self).domains@)
                ==> r && final(self).domains@ == old(self).domains@,
            r ==> tracked_supported(*old(self), final(self).domains@),
            !r ==> forall|e: Map<Seq<char>, Seq<i64>>| !(#[trigger] ac_family(*old(self), e)),
            simple_scopes(*old(self)) ==> (r <==> exists|e: Map<Seq<char>, Seq<i64>>| #[trigger]
                ac_family(*old(self), e)),
    {
        let ghost orig = *self;
        let ghost keys = self.domains.key_seq();
        let _ = self.domains.len();
        let mut queue: VecDeque<(String, String, usize)> = VecDeque::new();
        let mut ci: usize = 0;
        while ci < self.constraints.len()
            invariant
                ci <= self.constraints@.len(),
                *self == orig,
                queue_arcs(orig, queue@),
                arcs_queued_upto(orig, queue@, ci as int, 0, 0),
                simple_scopes(orig) ==> names_differ(queue@),
                forall|e: (String, String, usize)| #[trigger]
                    queue@.contains(e) ==> e.2 < self.constraints@.len()
                        && self.constraints@[e.2 as int].scope().contains(e.0@)
                        && self.constraints@[e.2 as int].scope().contains(e.1@),
            decreases self.constraints@.len() - ci,
        {
            let nv = self.constraints[ci].vars.len();
            let mut i: usize = 0;
            while i < nv
                invariant
                    i <= nv,
                    ci < self.constraints@.len(),
                    nv == self.constraints@[ci as int].vars@.len(),
                    *self == orig,
                queue_arcs(orig, queue@),
                    arcs_queued_upto(orig, queue@, ci as int, i as int, 0),
                    simple_scopes(orig) ==> names_differ(queue@),
                    forall|e: (String, String, usize)| #[trigger]
                        queue@.contains(e) ==> e.2 < self.constraints@.len()
                            && self.constraints@[e.2 as int].scope().contains(e.0@)
                            && self.constraints@[e.2 as int].scope().contains(e.1@),
                decreases nv - i,
            {
                let mut j: usize = 0;
                while j < nv
                    invariant
                        i < nv,
                        j <= nv,
                        ci < self.constraints@.len(),
                        nv == self.constraints@[ci as int].vars@.len(),
                        *self == orig,
                queue_arcs(orig, queue@),
                        arcs_queued_upto(orig, queue@, ci as int, i as int, j as int),
                        simple_scopes(orig) ==> names_differ(queue@),
                        forall|e: (String, String, usize)| #[trigger]
                            queue@.contains(e) ==> e.2 < self.constraints@.len()
                                && self.constraints@[e.2 as int].scope().contains(e.0@)
                                && self.constraints@[e.2 as int].scope().contains(e.1@),
                    decreases nv - j,
                {
                    if i != j {
                        let a = self.constraints[ci].vars[i].clone();
                        let b = self.constraints[ci].vars[j].clone();
                        let ghost sc = self.constraints@[ci as int].scope();
                        assert(sc[i as int] == a@ && sc[j as int] == b@);
                        let ghost q = queue@;
                        let ghost x = (a, b, ci);
                        queue.push_back((a, b, ci));
                        proof {
                            assert(sc.len() == nv);
                            assert(is_arc(orig, ci as int, i as int, j as int));
                            lemma_queue_arcs_push(orig, q, x, i as int, j as int);
                        }
                        assert forall|e: (String, String, usize)| #[trigger]
                            queue@.contains(e) implies e.2 < self.constraints@.len()
                            && self.constraints@[e.2 as int].scope().contains(e.0@)
                            && self.constraints@[e.2 as int].scope().contains(e.1@) by {
                            if e != queue@.last() {
                                let t = choose|t: int| 0 <= t < queue@.len() && queue@[t] == e;
                                assert(q[t] == e);
                            }
                        }
                        assert(simple_scopes(orig) ==> names_differ(queue@)) by {
                            if simple_scopes(orig) {
                                assert forall|u: int| 0 <= u < queue@.len() implies (#[trigger] queue@[u]).0@
                                    != queue@[u].1@ by {
                                    if u < q.len() {
                                        assert(queue@[u] == q[u]);
                                    } else {
                                        assert(queue@[u] == x);
                                        assert(sc[i as int] != sc[j as int]);
                                    }
                                }
                            }
                        }
                        assert forall|c2: int, i2: int, j2: int|
                            #[trigger] is_arc(orig, c2, i2, j2) && (c2 < ci || (c2 == ci && (i2 < i
                                || (i2 == i && j2 < j + 1)))) implies arc_pending(
                            queue@,
                            c2,
                            orig.constraints@[c2].scope()[i2],
                            orig.constraints@[c2].scope()[j2],
                        ) by {
                            if c2 == ci && i2 == i && j2 == j {
                                assert(queue@[q.len() as int] == x);
                            } else {
                                lemma_pending_push(
                                    q,
                                    x,
                                    c2,
                                    orig.constraints@[c2].scope()[i2],
                                    orig.constraints@[c2].scope()[j2],
                                );
                            }
                        }
                    }
                    j += 1;
                }
                assert(self.constraints@[ci as int].scope().len() == nv);
                i += 1;
            }
            ci += 1;
        }
        proof {
            lemma_kept_start(self.domains@);
            lemma_family_start(orig);
            {
                assert forall|c2: int, i2: int, j2: int| #[trigger] tracked_arc(orig, c2, i2, j2) implies arc_pending(
                    queue@,
                    c2,
                    orig.constraints@[c2].scope()[i2],
                    orig.constraints@[c2].scope()[j2],
                ) || arc_ok(
                    orig,
                    self.domains@,
                    self.domains@,
                    c2,
                    orig.constraints@[c2].scope()[i2],
                    orig.constraints@[c2].scope()[j2],
                ) by {
                    assert(is_arc(orig, c2, i2, j2) && (c2 < self.constraints@.len() as int));
                }
            }
        }
        loop
            invariant
                orig == *old(self),
                keys == orig.domains.key_seq(),
                queue_arcs(orig, queue@),
                forall|e: Map<Seq<char>, Seq<i64>>| #[trigger] ac_family(orig, e) ==> within_domains(
                    e,
                    self.domains@,
                ),
                self.variables@ == orig.variables@,
                self.constraints@ == orig.constraints@,
                orig.scopes_have_domains(),
                self.domains.key_seq() == keys,
                keys.no_duplicates(),
                forall|k: Seq<char>| #[trigger] orig.domains@.contains_key(k) <==> keys.contains(k),
                forall|k: Seq<char>| #[trigger]
                    self.domains@.contains_key(k) == orig.domains@.contains_key(k),
                forall|k: Seq<char>, v: i64|
                    self.domains@.contains_key(k) && #[trigger] self.domains@[k].contains(v)
                        ==> orig.domains@[k].contains(v),
                orig.well_formed() ==> forall|s: Map<Seq<char>, i64>| #[trigger]
                    orig.is_solution(s) ==> self.is_solution(s),
                forall|k: Seq<char>|
                    #![trigger self.domains@[k]]
                    self.domains@.contains_key(k) && self.domains@[k].len() == 0
                        ==> orig.domains@[k].len() == 0,
                arcs_settled(orig, queue@, orig.domains@, self.domains@),
                kept_in_order(orig.domains@, self.domains@),
                simple_scopes(orig) ==> names_differ(queue@),
                tracked_settled(orig, queue@, self.domains@),
                simple_scopes(orig) && arcs_supported(orig, orig.domains@, orig.domains@) ==> self.domains@
                    == orig.domains@,
                forall|e: (String, String, usize)| #[trigger]
                    queue@.contains(e) ==> e.2 < self.constraints@.len()
                        && self.constraints@[e.2 as int].scope().contains(e.0@)
                        && self.constraints@[e.2 as int].scope().contains(e.1@),
            ensures
                self.variables@ == orig.variables@,
                self.constraints@ == orig.constraints@,
                self.domains.key_seq() == keys,
                forall|k: Seq<char>| #[trigger]
                    self.domains@.contains_key(k) == orig.domains@.contains_key(k),
                forall|k: Seq<char>, v: i64|
                    self.domains@.contains_key(k) && #[trigger] self.domains@[k].contains(v)
                        ==> orig.domains@[k].contains(v),
                orig.well_formed() ==> forall|s: Map<Seq<char>, i64>| #[trigger]
                    orig.is_solution(s) ==> self.is_solution(s),
                forall|k: Seq<char>|
                    #![trigger self.domains@[k]]
                    self.domains@.contains_key(k) && self.domains@[k].len() == 0
                        ==> orig.domains@[k].len() == 0,
                arcs_supported(orig, orig.domains@, self.domains@),
                kept_in_order(orig.domains@, self.domains@),
                tracked_supported(orig, self.domains@),
                simple_scopes(orig) && arcs_supported(orig, orig.domains@, orig.domains@) ==> self.domains@
                    == orig.domains@,
            decreases size_sum(keys, self.domains@), queue@.len(),
        {
            let ghost q0 = queue@;
            match queue.pop_front() {
                None => {
                    proof {
                        assert forall|c2: int, i2: int, j2: int| #[trigger] is_arc(orig, c2, i2, j2) implies arc_ok(
                            orig,
                            orig.domains@,
                            self.domains@,
                            c2,
                            orig.constraints@[c2].scope()[i2],
                            orig.constraints@[c2].scope()[j2],
                        ) by {
                            assert(!arc_pending(
                                queue@,
                                c2,
                                orig.constraints@[c2].scope()[i2],
                                orig.constraints@[c2].scope()[j2],
                            ));
                        }
                        assert forall|c2: int, i2: int, j2: int| #[trigger] tracked_arc(orig, c2, i2, j2) implies arc_ok(
                            orig,
                            self.domains@,
                            self.domains@,
                            c2,
                            orig.constraints@[c2].scope()[i2],
                            orig.constraints@[c2].scope()[j2],
                        ) by {
                            assert(!arc_pending(
                                queue@,
                                c2,
                                orig.constraints@[c2].scope()[i2],
                                orig.constraints@[c2].scope()[j2],
                            ));
                        }
                    }
                    break;
                },
                Some(entry) => {
                    let (xi, xj, ci) = entry;
                    assert(q0[0] == (xi, xj, ci));
                    assert(q0.contains((xi, xj, ci)));
                    proof {
                        self.lemma_scope_has_domain(orig, ci as int, xi@);
                        self.lemma_scope_has_domain(orig, ci as int, xj@);
                    }
                    let ghost before = *self;
                    let ghost dom_before = self.domains@;
                    let revised = self.revise(&xi, &xj, ci);
                    proof {
                        lemma_settled_revise(orig, q0, orig.domains@, dom_before, self.domains@);
                        lemma_revise_cur(orig, q0, dom_before, self.domains@);
                        lemma_queue_arcs_pop(orig, q0);
                        assert(queue@ =~= q0.subrange(1, q0.len() as int)) by {
                            assert forall|u: int| 0 <= u < queue@.len() implies queue@[u] == q0.subrange(
                                1,
                                q0.len() as int,
                            )[u] by {
                                assert(queue@[u] == q0[u + 1]);
                            }
                        }
                        lemma_family_revise(orig, q0, dom_before, self.domains@);
                        if simple_scopes(orig) {
                            assert(names_differ(queue@)) by {
                                assert forall|u: int| 0 <= u < queue@.len() implies (#[trigger] queue@[u]).0@
                                    != queue@[u].1@ by {
                                    assert(queue@[u] == q0[u + 1]);
                                }
                            }
                        }
                        lemma_kept_revise(
                            orig.domains@,
                            dom_before,
                            xi@,
                            |v: i64| supported(before.constraints@[ci as int].relation, xi@, v, xj@, dom_before[xj@]),
                        );
                        self.lemma_revise_effects(orig, before, ci as int, xi@, xj@);
                        if revised {
                            lemma_size_sum_update(keys, dom_before, xi@, self.domains@[xi@]);
                        }
                        if simple_scopes(orig) && arcs_supported(orig, orig.domains@, orig.domains@) {
                            lemma_revise_stable(orig, q0, dom_before, self.domains@);
                        }
                    }
                    assert forall|e: (String, String, usize)| #[trigger]
                        queue@.contains(e) implies e.2 < self.constraints@.len()
                        && self.constraints@[e.2 as int].scope().contains(e.0@)
                        && self.constraints@[e.2 as int].scope().contains(e.1@) by {
                        let t = choose|t: int| 0 <= t < queue@.len() && queue@[t] == e;
                        assert(q0[t + 1] == e);
                        assert(q0.contains(e));
                    }
                    if revised {
                        if self.domains.get_name(&xi).unwrap().len() == 0 {
                            proof {
                                if orig.well_formed() {
                                    self.lemma_empty_domain_no_solution(orig, ci as int, xi@);
                                }
                                assert(dom_before[xi@].contains(dom_before[xi@][0]));
                                assert(orig.domains@[xi@].contains(dom_before[xi@][0]));
                                lemma_family_empty(orig, self.domains@, xi@);
                            }
                            return false;
                        }
                        let ghost size_now = size_sum(keys, self.domains@);
                        let mut ck: usize = 0;
                        while ck < self.constraints.len()
                            invariant
                                ck <= self.constraints@.len(),
                                self.constraints@ == orig.constraints@,
                                size_now == size_sum(keys, self.domains@),
                                queue_arcs(orig, queue@),
                                forall|e: Map<Seq<char>, Seq<i64>>| #[trigger] ac_family(orig, e) ==> within_domains(
                                    e,
                                    self.domains@,
                                ),
                                !(simple_scopes(orig) && arcs_supported(orig, orig.domains@, orig.domains@)),
                                arcs_settled(orig, queue@, orig.domains@, self.domains@),
                                kept_in_order(orig.domains@, self.domains@),
                                simple_scopes(orig) ==> names_differ(queue@),
                                settled_from(
                                    orig,
                                    queue@,
                                    self.domains@,
                                    xi@,
                                    xj@,
                                    ck as int,
                                    0,
                                ),
                                forall|e: (String, String, usize)| #[trigger]
                                    queue@.contains(e) ==> e.2 < self.constraints@.len()
                                        && self.constraints@[e.2 as int].scope().contains(e.0@)
                                        && self.constraints@[e.2 as int].scope().contains(e.1@),
                            decreases self.constraints@.len() - ck,
                        {
                            if self.constraints[ck].mentions(&xi) {
                                let nv = self.constraints[ck].vars.len();
                                let mut t: usize = 0;
                                while t < nv
                                    invariant
                                        t <= nv,
                                        ck < self.constraints@.len(),
                                        nv == self.constraints@[ck as int].vars@.len(),
                                        self.constraints@[ck as int].scope().contains(xi@),
                                        self.constraints@ == orig.constraints@,
                                        size_now == size_sum(keys, self.domains@),
                                queue_arcs(orig, queue@),
                                forall|e: Map<Seq<char>, Seq<i64>>| #[trigger] ac_family(orig, e) ==> within_domains(
                                    e,
                                    self.domains@,
                                ),
                                        !(simple_scopes(orig) && arcs_supported(
                                            orig,
                                            orig.domains@,
                                            orig.domains@,
                                        )),
                                        arcs_settled(orig, queue@, orig.domains@, self.domains@),
                                        kept_in_order(orig.domains@, self.domains@),
                                        simple_scopes(orig) ==> names_differ(queue@),
                                settled_from(
                                            orig,
                                            queue@,
                                            self.domains@,
                                            xi@,
                                            xj@,
                                            ck as int,
                                            t as int,
                                        ),
                                        forall|e: (String, String, usize)| #[trigger]
                                            queue@.contains(e) ==> e.2 < self.constraints@.len()
                                                && self.constraints@[e.2 as int].scope().contains(e.0@)
                                                && self.constraints@[e.2 as int].scope().contains(
                                                e.1@,
                                            ),
                                    decreases nv - t,
                                {
                                    let xk = &self.constraints[ck].vars[t];
                                    if *xk != xi && *xk != xj {
                                        assert(self.constraints@[ck as int].scope()[t as int]
                                            == xk@);
                                        let ghost q = queue@;
                                        let ghost dcur = self.domains@;
                                        let xk2 = xk.clone();
                                        let xi2 = xi.clone();
                                        proof {
                                            lemma_settled_push(orig, q, (xk2, xi2, ck), orig.domains@, dcur);
                                            lemma_requeue_push(
                                                orig,
                                                q,
                                                (xk2, xi2, ck),
                                                dcur,
                                                xi@,
                                                xj@,
                                                ck as int,
                                                t as int,
                                            );
                                            if simple_scopes(orig) {
                                                assert(names_differ(q.push((xk2, xi2, ck)))) by {
                                                    assert forall|u: int| 0 <= u < q.len() + 1 implies (#[trigger] q.push(
                                                        (xk2, xi2, ck),
                                                    )[u]).0@ != q.push((xk2, xi2, ck))[u].1@ by {
                                                        if u < q.len() {
                                                            assert(q.push((xk2, xi2, ck))[u] == q[u]);
                                                        }
                                                    }
                                                }
                                            }
                                        }
                                        queue.push_back((xk2, xi2, ck));
                                        proof {
                                            let sck = orig.constraints@[ck as int].scope();
                                            assert(sck.contains(xi@));
                                            let u = choose|u: int| 0 <= u < sck.len() && sck[u] == xi@;
                                            assert(sck[t as int] == xk@);
                                            assert(sck.len() == nv);
                                            assert(is_arc(orig, ck as int, t as int, u));
                                            lemma_queue_arcs_push(orig, q, (xk2, xi2, ck), t as int, u);
                                        }
                                        assert forall|e: (String, String, usize)| #[trigger]
                                            queue@.contains(e) implies e.2
                                            < self.constraints@.len()
                                            && self.constraints@[e.2 as int].scope().contains(e.0@)
                                            && self.constraints@[e.2 as int].scope().contains(
                                            e.1@,
                                        ) by {
                                            if e != queue@.last() {
                                                let u = choose|u: int|
                                                    0 <= u < queue@.len() && queue@[u] == e;
                                                assert(q[u] == e);
                                            }
                                        }
                                    } else {
                                        proof {
                                            {
                                                assert(self.constraints@[ck as int].scope()[t as int] == xk@);
                                                lemma_requeue_skip(
                                                    orig,
                                                    queue@,
                                                    self.domains@,
                                                    xi@,
                                                    xj@,
                                                    ck as int,
                                                    t as int,
                                                );
                                            }
                                        }
                                    }
                                    t += 1;
                                }
                                proof {
                                    {
                                        lemma_requeue_next(
                                            orig,
                                            queue@,
                                            self.domains@,
                                            xi@,
                                            xj@,
                                            ck as int,
                                            t as int,
                                        );
                                    }
                                }
                            } else {
                                proof {
                                    lemma_requeue_next(orig, queue@, self.domains@, xi@, xj@, ck as int, 0);
                                }
                            }
                            ck += 1;
                        }
                        proof {
                            lemma_requeue_done(orig, queue@, self.domains@, xi@, xj@);
                        }
                    }
                },
            }
        }
        proof {
            if simple_scopes(orig) {
                lemma_simple_tracked(orig, self.domains@);
                let d = self.domains@;
                assert forall|k: Seq<char>| #[trigger] orig.domains@.contains_key(k) implies d.contains_key(k) && (
                orig.domains@[k].len() > 0 ==> d[k].len() > 0) && forall|w: i64| #[trigger] d[k].contains(w)
                    ==> orig.domains@[k].contains(w) by {
                    assert(d.contains_key(k));
                    if d[k].len() == 0 {
                        assert(orig.domains@[k].len() == 0);
                    }
                }
                assert(ac_family(orig, d));
            }
        }
        true
    }

    proof fn lemma_scope_has_domain(&self, orig: CSPProblem, ci: int, x: Seq<char>)
        requires
            orig.scopes_have_domains(),
            self.variables@ == orig.variables@,
            self.constraints@ == orig.constraints@,
            forall|k: Seq<char>| #[trigger]
                self.domains@.contains_key(k) == orig.domains@.contains_key(k),
            0 <= ci < self.constraints@.len(),
            self.constraints@[ci].scope().contains(x),
        ensures
            self.domains@.contains_key(x),
    {
        let j = choose|j: int|
            0 <= j < self.constraints@[ci].scope().len() && self.constraints@[ci].scope()[j] == x;
        assert(orig.constraints@[ci].scope()[j] == x);
        assert(orig.domains@.contains_key(orig.constraints@[ci].scope()[j]));
    }

    proof fn lemma_revise_effects(
        &self,
        orig: CSPProblem,
        before: CSPProblem,
        ci: int,
        xi: Seq<char>,
        xj: Seq<char>,
    )
        requires
            before.variables@ == orig.variables@,
            before.constraints@ == orig.constraints@,
            self.variables@ == orig.variables@,
            self.constraints@ == orig.constraints@,
            0 <= ci < orig.constraints@.len(),
            orig.constraints@[ci].scope().contains(xi),
            orig.constraints@[ci].scope().contains(xj),
            forall|k: Seq<char>| #[trigger]
                before.domains@.contains_key(k) == orig.domains@.contains_key(k),
            before.domains@.contains_key(xi),
            before.domains@.contains_key(xj),
            forall|k: Seq<char>, v: i64|
                before.domains@.contains_key(k) && #[trigger] before.domains@[k].contains(v)
                    ==> orig.domains@[k].contains(v),
            orig.well_formed() ==> forall|s: Map<Seq<char>, i64>| #[trigger]
                orig.is_solution(s) ==> before.is_solution(s),
            self.domains@ == before.domains@.insert(
                xi,
                before.domains@[xi].filter(
                    |v: i64|
                        supported(
                            before.constraints@[ci].relation,
                            xi,
                            v,
                            xj,
                            before.domains@[xj],
                        ),
                ),
            ),
        ensures
            forall|k: Seq<char>| #[trigger]
                self.domains@.contains_key(k) == orig.domains@.contains_key(k),
            forall|k: Seq<char>, v: i64|
                self.domains@.contains_key(k) && #[trigger] self.domains@[k].contains(v)
                    ==> orig.domains@[k].contains(v),
            orig.well_formed() ==> forall|s: Map<Seq<char>, i64>| #[trigger]
                orig.is_solution(s) ==> self.is_solution(s),
    {
        let rel = before.constraints@[ci].relation;
        let dj = before.domains@[xj];
        let pred = |v: i64| supported(rel, xi, v, xj, dj);
        let old_i = before.domains@[xi];
        assert forall|k: Seq<char>, v: i64|
            self.domains@.contains_key(k) && #[trigger] self.domains@[k].contains(v) implies orig.domains@[k].contains(
            v,
        ) by {
            if k == xi {
                old_i.lemma_filter_contains_rev(pred, v);
            }
        }
        assert(self.var_names() =~= orig.var_names());
        assert(before.var_names() =~= orig.var_names());
        if orig.well_formed() {
            assert forall|s: Map<Seq<char>, i64>| #[trigger] orig.is_solution(s) implies self.is_solution(
                s,
            ) by {
                assert(before.is_solution(s));
                orig.lemma_scope_assigned(ci, xi, s);
                orig.lemma_scope_assigned(ci, xj, s);
                assert(orig.constraints@[ci].applies(s)) by {
                    assert forall|t: int| 0 <= t < orig.constraints@[ci].scope().len() implies #[trigger] s.contains_key(
                        orig.constraints@[ci].scope()[t],
                    ) by {
                        orig.lemma_scope_assigned(ci, orig.constraints@[ci].scope()[t], s);
                    }
                }
                assert(rel.holds(s));
                let pm = pair_map(xi, s[xi], xj, s[xj]);
                assert(pm.submap_of(s));
                lemma_holds_submap(&rel, pm, s);
                assert(before.within(s, before.domains@));
                assert(s.contains_key(xj));
                assert(dj.contains(s[xj]));
                let m = choose|m: int| 0 <= m < dj.len() && dj[m] == s[xj];
                assert(rel.holds(pair_map(xi, s[xi], xj, dj[m])));
                assert(pred(s[xi]));
                assert(old_i.contains(s[xi]));
                let w = choose|w: int| 0 <= w < old_i.len() && old_i[w] == s[xi];
                old_i.lemma_filter_contains(pred, w);
                assert forall|k: Seq<char>| #[trigger] s.contains_key(k) implies self.var_names().contains(k)
                    && self.domains@.contains_key(k) && self.domains@[k].contains(s[k]) by {
                    assert(before.within(s, before.domains@));
                }
            }
        }
    }

    proof fn lemma_scope_assigned(&self, ci: int, x: Seq<char>, s: Map<Seq<char>, i64>)
        requires
            self.scopes_declared(),
            self.complete(s),
            0 <= ci < self.constraints@.len(),
            self.constraints@[ci].scope().contains(x),
        ensures
            s.contains_key(x),
    {
        let j = choose|j: int|
            0 <= j < self.constraints@[ci].scope().len() && self.constraints@[ci].scope()[j] == x;
        assert(self.var_names().contains(self.constraints@[ci].scope()[j]));
        let i = choose|i: int| 0 <= i < self.var_names().len() && self.var_names()[i] == x;
        assert(s.contains_key(self.var_names()[i]));
    }

    proof fn lemma_empty_domain_no_solution(&self, orig: CSPProblem, ci: int, x: Seq<char>)
        requires
            orig.well_formed(),
            self.variables@ == orig.variables@,
            self.constraints@ == orig.constraints@,
            0 <= ci < orig.constraints@.len(),
            orig.constraints@[ci].scope().contains(x),
            self.domains@.contains_key(x),
            self.domains@[x].len() == 0,
            forall|s: Map<Seq<char>, i64>| #[trigger] orig.is_solution(s) ==> self.is_solution(s),
        ensures
            forall|s: Map<Seq<char>, i64>| !(#[trigger] orig.is_solution(s)),
    {
        assert forall|s: Map<Seq<char>, i64>| !(#[trigger] orig.is_solution(s)) by {
            if orig.is_solution(s) {
                assert(self.is_solution(s));
                orig.lemma_scope_assigned(ci, x, s);
                assert(self.within(s, self.domains@));
                assert(self.domains@[x].contains(s[x]));
            }
        }
    }
}


/// `s.filter(p).filter(q)` keeps what `r` keeps, when `r` is `p` and `q`.
pub proof fn lemma_filter_filter(s: Seq<i64>, p: spec_fn(i64) -> bool, q: spec_fn(i64) -> bool, r: spec_fn(i64) -> bool)
    requires
        forall|x: i64| #[trigger] r(x) == (p(x) && q(x)),
    ensures
        s.filter(p).filter(q) == s.filter(r),
    decreases s.len(),
{
    reveal(Seq::filter);
    if s.len() > 0 {
        lemma_filter_filter(s.drop_last(), p, q, r);
        let x = s.last();
        if p(x) {
            s.drop_last().filter(p).lemma_filter_push(x, q);
        }
    }
}

/// Filters by predicates that agree on every value are equal.
pub proof fn lemma_filter_same(s: Seq<i64>, p: spec_fn(i64) -> bool, q: spec_fn(i64) -> bool)
    requires
        forall|x: i64| #[trigger] p(x) == q(x),
    ensures
        s.filter(p) == s.filter(q),
{
    assert(p =~= q);
}

/// Filtering by a predicate that holds exactly where one of two exclusive
/// predicates holds keeps, counted with repeats, what the two keep together.
pub proof fn lemma_filter_split_multiset(
    s: Seq<i64>,
    p: spec_fn(i64) -> bool,
    q: spec_fn(i64) -> bool,
    r: spec_fn(i64) -> bool,
)
    requires
        forall|x: i64| #[trigger] r(x) == (p(x) || q(x)),
        forall|x: i64| !(#[trigger] p(x) && q(x)),
    ensures
        s.filter(r).to_multiset() == s.filter(p).to_multiset().add(s.filter(q).to_multiset()),
    decreases s.len(),
{
    reveal(Seq::filter);
    broadcast use {vstd::seq_lib::group_to_multiset_ensures, vstd::multiset::group_multiset_axioms};

    if s.len() == 0 {
        assert(s.filter(r) =~= Seq::<i64>::empty());
        assert(s.filter(p) =~= Seq::<i64>::empty());
        assert(s.filter(q) =~= Seq::<i64>::empty());
        let m = Seq::<i64>::empty().to_multiset();
        assert forall|x: i64| m.count(x) == 0 by {
            assert(!Seq::<i64>::empty().contains(x));
        }
        assert(m.add(m) =~= m);
    } else {
        let t = s.drop_last();
        let x = s.last();
        lemma_filter_split_multiset(t, p, q, r);
        assert(s.filter(r) == if r(x) { t.filter(r).push(x) } else { t.filter(r) });
        assert(s.filter(p) == if p(x) { t.filter(p).push(x) } else { t.filter(p) });
        assert(s.filter(q) == if q(x) { t.filter(q).push(x) } else { t.filter(q) });
        if p(x) {
            assert(s.filter(r).to_multiset() =~= s.filter(p).to_multiset().add(s.filter(q).to_multiset()));
        } else if q(x) {
            assert(s.filter(r).to_multiset() =~= s.filter(p).to_multiset().add(s.filter(q).to_multiset()));
        } else {
            assert(s.filter(r).to_multiset() =~= s.filter(p).to_multiset().add(s.filter(q).to_multiset()));
        }
    }
}

/// A filter that keeps no element gives the empty sequence.
pub proof fn lemma_filter_none(s: Seq<i64>, p: spec_fn(i64) -> bool)
    requires
        forall|i: int| 0 <= i < s.len() ==> !p(#[trigger] s[i]),
    ensures
        s.filter(p) == Seq::<i64>::empty(),
    decreases s.len(),
{
    reveal(Seq::filter);
    if s.len() > 0 {
        assert forall|i: int| 0 <= i < s.drop_last().len() implies !p(#[trigger] s.drop_last()[i]) by {
            assert(s.drop_last()[i] == s[i]);
        }
        lemma_filter_none(s.drop_last(), p);
        assert(!p(s[s.len() - 1]));
    }
}

/// A filter that keeps every element is the identity.
pub proof fn lemma_filter_all(s: Seq<i64>, p: spec_fn(i64) -> bool)
    requires
        forall|i: int| 0 <= i < s.len() ==> p(#[trigger] s[i]),
    ensures
        s.filter(p) == s,
    decreases s.len(),
{
    reveal(Seq::filter);
    if s.len() > 0 {
        assert forall|i: int| 0 <= i < s.drop_last().len() implies p(#[trigger] s.drop_last()[i]) by {
            assert(s.drop_last()[i] == s[i]);
        }
        lemma_filter_all(s.drop_last(), p);
        assert(p(s[s.len() - 1]));
        assert(s.drop_last().push(s.last()) =~= s);
    }
}

/// The value `w` for the unassigned neighbour `n` survives constraint `c`:
/// either the constraint's scope is still not fully assigned, or it holds.
pub open spec fn fc_keeps(c: Constraint, a: Map<Seq<char>, i64>, n: Seq<char>, w: i64) -> bool {
    !c.applies(a.insert(n, w)) || c.relation.holds(a.insert(n, w))
}

/// Position `j` of constraint `ci`'s scope names `n`, a neighbour of `var`
/// that forward checking examines: the constraint mentions `var`, and `n` is
/// neither `var` nor assigned.
pub open spec fn fc_arc(
    p: CSPProblem,
    var: Seq<char>,
    a: Map<Seq<char>, i64>,
    ci: int,
    j: int,
    n: Seq<char>,
) -> bool {
    &&& 0 <= ci < p.constraints@.len()
    &&& p.constraints@[ci].scope().contains(var)
    &&& 0 <= j < p.constraints@[ci].scope().len()
    &&& p.constraints@[ci].scope()[j] == n
    &&& n != var
    &&& !a.contains_key(n)
}

/// `w` survives, for neighbour `n`, every constraint of `var` that names it.
pub open spec fn fc_survives(p: CSPProblem, var: Seq<char>, a: Map<Seq<char>, i64>, n: Seq<char>, w: i64) -> bool {
    forall|ci: int, j: int| #[trigger] fc_arc(p, var, a, ci, j, n) ==> fc_keeps(p.constraints@[ci], a, n, w)
}

/// `w` survives the arcs that come before position `j` of constraint `ci`.
pub open spec fn fc_survives_upto(
    p: CSPProblem,
    var: Seq<char>,
    a: Map<Seq<char>, i64>,
    n: Seq<char>,
    ci: int,
    j: int,
    w: i64,
) -> bool {
    forall|ci2: int, j2: int|
        (ci2 < ci || (ci2 == ci && j2 < j)) && #[trigger] fc_arc(p, var, a, ci2, j2, n)
            ==> fc_keeps(p.constraints@[ci2], a, n, w)
}

/// The values of `k` recorded as pruned (none when it has no entry).
pub open spec fn pruned_of(pruned: Map<Seq<char>, Seq<i64>>, k: Seq<char>) -> Seq<i64> {
    if pruned.contains_key(k) {
        pruned[k]
    } else {
        Seq::empty()
    }
}

/// Domains are sorted strictly increasing and hold exactly `vals`.
pub open spec fn sorted_set_of(d: Seq<i64>, vals: Set<i64>) -> bool {
    &&& forall|i: int, j: int| 0 <= i < j < d.len() ==> d[i] < d[j]
    &&& d.to_set() == vals
}

impl CSPProblem {
    /// Forward checking after `var` was assigned: for every constraint that
    /// mentions `var`, drops from the domain of each unassigned neighbour the
    /// values that, added to the assignment, complete the constraint's scope
    /// and violate it. Returns `None`, with the domains as they were, when a
    /// neighbour's domain would become empty, else the values dropped per
    /// variable.
    pub fn forward_check(
        &self,
        var: &str,
        _val: i64,
        assignment: &Assignment,
        domains: &mut DomainMap,
    ) -> (r: Option<DomainMap>)
        ensures
            final(domains).key_seq() == old(domains).key_seq(),
            forall|k: Seq<char>| #[trigger]
                final(domains)@.contains_key(k) == old(domains)@.contains_key(k),
            forall|k: Seq<char>, w: i64|
                final(domains)@.contains_key(k) && #[trigger] final(domains)@[k].contains(w)
                    ==> old(domains)@[k].contains(w),
            r is None <==> exists|ci: int, j: int, n: Seq<char>|
                #[trigger] fc_arc(*self, var@, assignment@, ci, j, n) && (!old(domains)@.contains_key(n)
                    || old(domains)@[n].filter(
                    |w: i64| fc_survives(*self, var@, assignment@, n, w),
                ).len() == 0),
            r matches Some(pruned) ==> forward_checked(
                *self,
                var@,
                assignment@,
                old(domains)@,
                final(domains)@,
                pruned@,
            ),
            r is None ==> final(domains)@ == old(domains)@,
    {
        let ghost p = *self;
        let ghost v = var@;
        let ghost a = assignment@;
        let ghost d0 = domains@;
        let var_s = var.to_owned();
        let _ = domains.len();
        let saved = domains.duplicate();
        let mut pruned = DomainMap::new();
        proof {
            lemma_fc_start(p, v, a, d0, pruned@);
        }
        let mut ci: usize = 0;
        while ci < self.constraints.len()
            invariant
                ci <= self.constraints@.len(),
                p == *self,
                v == var@ && var_s@ == v,
                a == assignment@,
                d0 == old(domains)@,
                saved@ == d0,
                saved.key_seq() == old(domains).key_seq(),
                domains.key_seq() == old(domains).key_seq(),
                fc_state(p, v, a, ci as int, 0, d0, domains@, pruned@),
            decreases self.constraints@.len() - ci,
        {
            let c = &self.constraints[ci];
            let mentions = c.mentions(&var_s);
            let nv = c.vars.len();
            let mut j: usize = 0;
            while j < nv
                invariant
                    j <= nv,
                    ci < self.constraints@.len(),
                    c == &self.constraints@[ci as int],
                    nv == c.vars@.len(),
                    mentions == c.scope().contains(v),
                    p == *self,
                    v == var@ && var_s@ == v,
                    a == assignment@,
                    d0 == old(domains)@,
                    saved@ == d0,
                    saved.key_seq() == old(domains).key_seq(),
                    domains.key_seq() == old(domains).key_seq(),
                    fc_state(p, v, a, ci as int, j as int, d0, domains@, pruned@),
                decreases nv - j,
            {
                let neighbor = &c.vars[j];
                let ghost nb = neighbor@;
                assert(c.scope()[j as int] == nb);
                let is_arc = mentions && *neighbor != var_s && !assignment.has_name(neighbor);
                assert(is_arc == fc_arc(p, v, a, ci as int, j as int, nb));
                if !is_arc {
                    proof {
                        lemma_fc_skip(p, v, a, ci as int, j as int, d0, domains@, pruned@);
                    }
                } else {
                    let dom: Vec<i64> = match domains.get_name(neighbor) {
                        Some(d) => crate::names::copy_values(d),
                        None => Vec::new(),
                    };
                    assert(dom@ == (if domains@.contains_key(nb) {
                        domains@[nb]
                    } else {
                        Seq::<i64>::empty()
                    }));
                    let ghost keep = |w: i64| fc_keeps(*c, a, nb, w);
                    let ghost drop = |w: i64| !fc_keeps(*c, a, nb, w);
                    let mut new_dom: Vec<i64> = Vec::new();
                    let mut removed: Vec<i64> = Vec::new();
                    let mut t: usize = 0;
                    while t < dom.len()
                        invariant
                            t <= dom@.len(),
                            ci < self.constraints@.len(),
                            neighbor@ == nb,
                            c == &self.constraints@[ci as int],
                            a == assignment@,
                            keep == (|w: i64| fc_keeps(*c, a, nb, w)),
                            drop == (|w: i64| !fc_keeps(*c, a, nb, w)),
                            new_dom@ == dom@.take(t as int).filter(keep),
                            removed@ == dom@.take(t as int).filter(drop),
                            new_dom@.len() + removed@.len() == t,
                            removed@.len() == 0 ==> new_dom@ == dom@.take(t as int),
                        decreases dom@.len() - t,
                    {
                        let w = dom[t];
                        let mut test = assignment.duplicate();
                        test.insert_name(neighbor.clone(), w);
                        assert(test@ == a.insert(nb, w));
                        let ok = !c.all_assigned(&test) || c.check(&test);
                        assert(ok == fc_keeps(*c, a, nb, w));
                        assert(ok == keep(w));
                        proof {
                            assert(dom@.take(t + 1) =~= dom@.take(t as int).push(w));
                            dom@.take(t as int).lemma_filter_push(w, keep);
                            dom@.take(t as int).lemma_filter_push(w, drop);
                        }
                        if ok {
                            new_dom.push(w);
                        } else {
                            removed.push(w);
                        }
                        t += 1;
                    }
                    assert(dom@.take(dom@.len() as int) =~= dom@);
                    if new_dom.len() == 0 {
                        proof {
                            lemma_fc_empty(p, v, a, ci as int, j as int, nb, d0, domains@, pruned@, dom@, keep);
                        }
                        *domains = saved;
                        return None;
                    }
                    let ghost dom_before = domains@;
                    let ghost pruned_before = pruned@;
                    if removed.len() > 0 {
                        pruned.append_values(neighbor.clone(), &removed);
                        domains.insert_name(neighbor.clone(), new_dom);
                    }
                    proof {
                        lemma_fc_step(
                            p,
                            v,
                            a,
                            ci as int,
                            j as int,
                            nb,
                            d0,
                            dom_before,
                            pruned_before,
                            domains@,
                            pruned@,
                            dom@,
                            removed@,
                            keep,
                            drop,
                        );
                    }
                }
                j += 1;
            }
            proof {
                lemma_fc_next_constraint(p, v, a, ci as int, d0, domains@, pruned@);
            }
            ci += 1;
        }
        proof {
            lemma_fc_done(p, v, a, d0, domains@, pruned@);
        }
        Some(pruned)
    }
}


/// `d1` and `pruned` are what forward checking leaves of the domains `d0`
/// after `var` was assigned in `a`: each domain keeps the values that survive
/// every constraint of `var`, and `pruned` lists the others, each as often as
/// the domain held it.
pub open spec fn forward_checked(
    p: CSPProblem,
    var: Seq<char>,
    a: Map<Seq<char>, i64>,
    d0: Map<Seq<char>, Seq<i64>>,
    d1: Map<Seq<char>, Seq<i64>>,
    pruned: Map<Seq<char>, Seq<i64>>,
) -> bool {
    &&& forall|k: Seq<char>|
        #![trigger d1[k]]
        d0.contains_key(k) ==> d1[k] == d0[k].filter(|w: i64| fc_survives(p, var, a, k, w))
    &&& forall|k: Seq<char>| #[trigger]
        pruned.contains_key(k) ==> d0.contains_key(k) && pruned[k].len() > 0
    &&& forall|k: Seq<char>, w: i64|
        d0.contains_key(k) ==> (#[trigger] pruned_of(pruned, k).contains(w) <==> d0[k].contains(w)
            && !fc_survives(p, var, a, k, w))
    &&& forall|k: Seq<char>| #[trigger]
        d0.contains_key(k) ==> pruned_of(pruned, k).len() + d1[k].len() == d0[k].len()
    &&& forall|k: Seq<char>| #[trigger]
        d0.contains_key(k) ==> pruned_of(pruned, k).to_multiset() == d0[k].filter(
            |w: i64| !fc_survives(p, var, a, k, w),
        ).to_multiset()
}

/// `d2` is `d1` with the pruned values put back: each domain that has pruned
/// values becomes their union with it, sorted and without repeats.
pub open spec fn pruning_undone(
    pruned: Map<Seq<char>, Seq<i64>>,
    d1: Map<Seq<char>, Seq<i64>>,
    d2: Map<Seq<char>, Seq<i64>>,
) -> bool {
    &&& forall|k: Seq<char>| #[trigger] d2.contains_key(k) == d1.contains_key(k)
    &&& forall|k: Seq<char>|
        #![trigger d2[k]]
        d1.contains_key(k) ==> if pruned.contains_key(k) {
            sorted_set_of(d2[k], d1[k].to_set() + pruned[k].to_set())
        } else {
            d2[k] == d1[k]
        }
}

/// A value that a consistent extension of the assignment gives a variable
/// survives every constraint of the assigned variable.
pub proof fn lemma_solution_survives(
    p: CSPProblem,
    var: Seq<char>,
    a: Map<Seq<char>, i64>,
    s: Map<Seq<char>, i64>,
    k: Seq<char>,
)
    requires
        p.consistent(s),
        a.submap_of(s),
        s.contains_key(k),
    ensures
        fc_survives(p, var, a, k, s[k]),
{
    let w = s[k];
    let b = a.insert(k, w);
    assert(b.submap_of(s)) by {
        assert forall|x: Seq<char>| #[trigger] b.dom().contains(x) implies s.dom().contains(x) && b[x]
            == s[x] by {
            if x != k {
                assert(a.dom().contains(x));
            }
        }
    }
    assert forall|ci: int, j: int| #[trigger] fc_arc(p, var, a, ci, j, k) implies fc_keeps(
        p.constraints@[ci],
        a,
        k,
        w,
    ) by {
        let c = p.constraints@[ci];
        if c.applies(b) {
            assert forall|i: int| 0 <= i < c.scope().len() implies #[trigger] s.contains_key(
                c.scope()[i],
            ) by {
                assert(b.contains_key(c.scope()[i]));
            }
            assert(c.applies(s));
            assert(c.relation.holds(s));
            crate::constraint::lemma_holds_submap(&c.relation, b, s);
        }
    }
}

/// Forward checking removes no value that a consistent extension of the
/// assignment gives a variable: such a value survives every constraint of
/// the assigned variable.
pub proof fn lemma_forward_check_keeps_solutions(
    p: CSPProblem,
    var: Seq<char>,
    a: Map<Seq<char>, i64>,
    d0: Map<Seq<char>, Seq<i64>>,
    d1: Map<Seq<char>, Seq<i64>>,
    pruned: Map<Seq<char>, Seq<i64>>,
    s: Map<Seq<char>, i64>,
    k: Seq<char>,
)
    requires
        forward_checked(p, var, a, d0, d1, pruned),
        p.consistent(s),
        a.submap_of(s),
        s.contains_key(k),
        d0.contains_key(k),
        d0[k].contains(s[k]),
    ensures
        d1[k].contains(s[k]),
{
    let w = s[k];
    lemma_solution_survives(p, var, a, s, k);
    let pred = |x: i64| fc_survives(p, var, a, k, x);
    assert(pred(w));
    assert(d1[k] == d0[k].filter(pred));
    let i = choose|i: int| 0 <= i < d0[k].len() && d0[k][i] == w;
    d0[k].lemma_filter_contains(pred, i);
}

/// When forward checking fails, no solution within the domains it was given
/// extends the assignment, provided constraints speak only of variables.
pub proof fn lemma_fc_failure_no_solution(
    p: CSPProblem,
    var: Seq<char>,
    a: Map<Seq<char>, i64>,
    d0: Map<Seq<char>, Seq<i64>>,
    s: Map<Seq<char>, i64>,
)
    requires
        exists|ci: int, j: int, n: Seq<char>|
            #[trigger] fc_arc(p, var, a, ci, j, n) && (!d0.contains_key(n) || d0[n].filter(
                |w: i64| fc_survives(p, var, a, n, w),
            ).len() == 0),
        p.scopes_declared(),
    ensures
        !(p.is_solution_in(s, d0) && a.submap_of(s)),
{
    if p.is_solution_in(s, d0) && a.submap_of(s) {
        let (ci, j, n) = choose|ci: int, j: int, n: Seq<char>|
            #[trigger] fc_arc(p, var, a, ci, j, n) && (!d0.contains_key(n) || d0[n].filter(
                |w: i64| fc_survives(p, var, a, n, w),
            ).len() == 0);
        assert(p.constraints@[ci].scope()[j] == n);
        assert(p.var_names().contains(p.constraints@[ci].scope()[j]));
        let t = choose|t: int| 0 <= t < p.var_names().len() && p.var_names()[t] == n;
        assert(s.contains_key(p.var_names()[t]));
        assert(d0.contains_key(n) && d0[n].contains(s[n]));
        lemma_solution_survives(p, var, a, s, n);
        let keep = |w: i64| fc_survives(p, var, a, n, w);
        assert(keep(s[n]));
        let i = choose|i: int| 0 <= i < d0[n].len() && d0[n][i] == s[n];
        d0[n].lemma_filter_contains(keep, i);
    }
}

/// A solution within the domains after forward checking was undone, that
/// extends the assignment forward checking was made for, lies within the
/// domains before the undoing.
pub proof fn lemma_undone_solution(
    p: CSPProblem,
    var: Seq<char>,
    a: Map<Seq<char>, i64>,
    d0: Map<Seq<char>, Seq<i64>>,
    d1: Map<Seq<char>, Seq<i64>>,
    pruned: Map<Seq<char>, Seq<i64>>,
    d2: Map<Seq<char>, Seq<i64>>,
    d3: Map<Seq<char>, Seq<i64>>,
    s: Map<Seq<char>, i64>,
)
    requires
        forward_checked(p, var, a, d0, d1, pruned),
        pruning_undone(pruned, d2, d3),
        p.is_solution_in(s, d3),
        a.submap_of(s),
    ensures
        p.is_solution_in(s, d2),
{
    assert forall|x: Seq<char>| #[trigger] s.contains_key(x) implies p.var_names().contains(x)
        && d2.contains_key(x) && d2[x].contains(s[x]) by {
        assert(d3.contains_key(x) && d3[x].contains(s[x]));
        if pruned.contains_key(x) {
            assert(d3[x].to_set().contains(s[x]));
            if !d2[x].contains(s[x]) {
                assert(d2[x].to_set().contains(s[x]) == d2[x].contains(s[x]));
                assert(pruned[x].to_set().contains(s[x]));
                assert(pruned_of(pruned, x) == pruned[x]);
                lemma_solution_survives(p, var, a, s, x);
            }
        }
    }
}

/// Undoing forward checking gives every domain back the values it had
/// before, as a set.
pub proof fn lemma_undo_restores(
    p: CSPProblem,
    var: Seq<char>,
    a: Map<Seq<char>, i64>,
    d0: Map<Seq<char>, Seq<i64>>,
    d1: Map<Seq<char>, Seq<i64>>,
    pruned: Map<Seq<char>, Seq<i64>>,
    d2: Map<Seq<char>, Seq<i64>>,
)
    requires
        forall|k: Seq<char>| #[trigger] d1.contains_key(k) == d0.contains_key(k),
        forward_checked(p, var, a, d0, d1, pruned),
        pruning_undone(pruned, d1, d2),
    ensures
        forall|k: Seq<char>| #[trigger] d2.contains_key(k) == d0.contains_key(k),
        forall|k: Seq<char>| #![trigger d2[k]] d0.contains_key(k) ==> d2[k].to_set() == d0[k].to_set(),
{
    assert forall|k: Seq<char>| #![trigger d2[k]] d0.contains_key(k) implies d2[k].to_set()
        == d0[k].to_set() by {
        let pred = |w: i64| fc_survives(p, var, a, k, w);
        assert(d1[k] == d0[k].filter(pred));
        if pruned.contains_key(k) {
            assert forall|w: i64| #[trigger] d2[k].to_set().contains(w) <==> d0[k].to_set().contains(w) by {
                assert(pruned_of(pruned, k) == pruned[k]);
                assert(pruned_of(pruned, k).contains(w) <==> d0[k].contains(w) && !pred(w));
                if d1[k].contains(w) {
                    d0[k].lemma_filter_contains_rev(pred, w);
                }
                if d0[k].contains(w) && pred(w) {
                    let i = choose|i: int| 0 <= i < d0[k].len() && d0[k][i] == w;
                    d0[k].lemma_filter_contains(pred, i);
                }
            }
            assert(d2[k].to_set() =~= d0[k].to_set());
        } else {
            assert forall|i: int| 0 <= i < d0[k].len() implies pred(#[trigger] d0[k][i]) by {
                assert(d0[k].contains(d0[k][i]));
                assert(!pruned_of(pruned, k).contains(d0[k][i]));
            }
            lemma_filter_all(d0[k], pred);
        }
    }
}

/// Inserts `x` into a strictly increasing list unless it is already there.
fn insert_sorted(d: &mut Vec<i64>, x: i64)
    requires
        forall|i: int, j: int| 0 <= i < j < old(d)@.len() ==> old(d)@[i] < old(d)@[j],
    ensures
        forall|i: int, j: int| 0 <= i < j < final(d)@.len() ==> final(d)@[i] < final(d)@[j],
        final(d)@.to_set() == old(d)@.to_set().insert(x),
{
    let mut pos: usize = 0;
    while pos < d.len() && d[pos] < x
        invariant
            pos <= d@.len(),
            d@ == old(d)@,
            forall|i: int| 0 <= i < pos ==> d@[i] < x,
        decreases d@.len() - pos,
    {
        pos += 1;
    }
    if pos < d.len() && d[pos] == x {
        assert(d@.to_set() =~= old(d)@.to_set().insert(x)) by {
            assert(d@.contains(x)) by {
                assert(d@[pos as int] == x);
            }
        }
        return;
    }
    let ghost before = d@;
    d.insert(pos, x);
    proof {
        before.insert_ensures(pos as int, x);
        assert forall|i: int, j: int| 0 <= i < j < d@.len() implies d@[i] < d@[j] by {
            if j < pos {
            } else if j == pos {
            } else if i < pos {
                assert(d@[j] == before[j - 1]);
                assert(before[pos as int] > x);
                if j - 1 > pos {
                    assert(before[pos as int] < before[j - 1]);
                }
            } else if i == pos {
                assert(before[pos as int] > x);
                if j - 1 > pos {
                    assert(before[pos as int] < before[j - 1]);
                }
            } else {
                assert(d@[i] == before[i - 1]);
                assert(d@[j] == before[j - 1]);
            }
        }
        assert forall|y: i64| #[trigger] d@.to_set().contains(y) <==> old(d)@.to_set().insert(x).contains(y) by {
            if d@.contains(y) {
                let t = choose|t: int| 0 <= t < d@.len() && d@[t] == y;
                if t < pos {
                    assert(before[t] == y);
                } else if t > pos {
                    assert(before[t - 1] == y);
                }
            }
            if before.contains(y) {
                let t = choose|t: int| 0 <= t < before.len() && before[t] == y;
                if t < pos {
                    assert(d@[t] == y);
                } else {
                    assert(d@[t + 1] == y);
                }
            }
            if y == x {
                assert(d@[pos as int] == x);
            }
        }
        assert(d@.to_set() =~= old(d)@.to_set().insert(x));
    }
}

/// The values of both lists, sorted strictly increasing.
pub fn sorted_union(a: &Vec<i64>, b: &Vec<i64>) -> (r: Vec<i64>)
    ensures
        sorted_set_of(r@, a@.to_set() + b@.to_set()),
{
    let mut r: Vec<i64> = Vec::new();
    let mut i: usize = 0;
    while i < a.len()
        invariant
            i <= a@.len(),
            forall|x: int, y: int| 0 <= x < y < r@.len() ==> r@[x] < r@[y],
            r@.to_set() == a@.take(i as int).to_set(),
        decreases a@.len() - i,
    {
        insert_sorted(&mut r, a[i]);
        assert(a@.take(i + 1) =~= a@.take(i as int).push(a@[i as int]));
        assert(a@.take(i + 1).to_set() =~= a@.take(i as int).to_set().insert(a@[i as int]));
        i += 1;
    }
    assert(a@.take(a@.len() as int) =~= a@);
    let mut j: usize = 0;
    while j < b.len()
        invariant
            j <= b@.len(),
            forall|x: int, y: int| 0 <= x < y < r@.len() ==> r@[x] < r@[y],
            r@.to_set() == a@.to_set() + b@.take(j as int).to_set(),
        decreases b@.len() - j,
    {
        insert_sorted(&mut r, b[j]);
        assert(b@.take(j + 1) =~= b@.take(j as int).push(b@[j as int]));
        assert(b@.take(j + 1).to_set() =~= b@.take(j as int).to_set().insert(b@[j as int]));
        assert(r@.to_set() =~= a@.to_set() + b@.take(j + 1).to_set());
        j += 1;
    }
    assert(b@.take(b@.len() as int) =~= b@);
    r
}

impl CSPProblem {
    /// Puts pruned values back into their domains: each such domain becomes
    /// the union of its values and the pruned ones, sorted and without
    /// repeats. Variables without a domain entry are left out.
    pub fn undo_pruning(&self, pruned: &DomainMap, domains: &mut DomainMap)
        ensures
            final(domains).key_seq() == old(domains).key_seq(),
            pruning_undone(pruned@, old(domains)@, final(domains)@),
    {
        let n = pruned.len();
        let _ = domains.len();
        let ghost pk = pruned.key_seq();
        let ghost d1 = domains@;
        let mut i: usize = 0;
        while i < n
            invariant
                i <= n,
                n == pk.len(),
                pk == pruned.key_seq(),
                pk.no_duplicates(),
                forall|k: Seq<char>| #[trigger] pruned@.contains_key(k) <==> pk.contains(k),
                d1 == old(domains)@,
                domains.key_seq() == old(domains).key_seq(),
                forall|k: Seq<char>| #[trigger] domains@.contains_key(k) == d1.contains_key(k),
                forall|k: Seq<char>|
                    #![trigger domains@[k]]
                    d1.contains_key(k) ==> if pk.take(i as int).contains(k) {
                        sorted_set_of(domains@[k], d1[k].to_set() + pruned@[k].to_set())
                    } else {
                        domains@[k] == d1[k]
                    },
            decreases n - i,
        {
            let (var, values) = pruned.entry(i);
            let ghost kv = var@;
            assert(pk.take(i + 1) =~= pk.take(i as int).push(kv));
            assert(!pk.take(i as int).contains(kv)) by {
                if pk.take(i as int).contains(kv) {
                    let t = choose|t: int| 0 <= t < i && pk.take(i as int)[t] == kv;
                    assert(pk[t] == pk[i as int]);
                }
            }
            if domains.has_name(var) {
                let merged = sorted_union(domains.get_name(var).unwrap(), values);
                domains.insert_name(var.clone(), merged);
            }
            i += 1;
        }
        assert(pk.take(n as int) =~= pk);
        assert forall|k: Seq<char>| #![trigger final(domains)@[k]] old(domains)@.contains_key(k) implies (if pruned@.contains_key(k) {
            sorted_set_of(domains@[k], d1[k].to_set() + pruned@[k].to_set())
        } else {
            domains@[k] == d1[k]
        }) by {
            assert(domains@.contains_key(k));
        }
    }
}

/// What forward checking has done once it reached position `j` of
/// constraint `ci`, from the domains `d0` it started with.
pub open spec fn fc_state(
    p: CSPProblem,
    v: Seq<char>,
    a: Map<Seq<char>, i64>,
    ci: int,
    j: int,
    d0: Map<Seq<char>, Seq<i64>>,
    doms: Map<Seq<char>, Seq<i64>>,
    pr: Map<Seq<char>, Seq<i64>>,
) -> bool {
    &&& forall|k: Seq<char>| #[trigger] doms.contains_key(k) == d0.contains_key(k)
    &&& forall|k: Seq<char>|
        #![trigger doms[k]]
        d0.contains_key(k) ==> doms[k] == d0[k].filter(|w: i64| fc_survives_upto(p, v, a, k, ci, j, w))
    &&& forall|k: Seq<char>| #[trigger] pr.contains_key(k) ==> d0.contains_key(k) && pr[k].len() > 0
    &&& forall|k: Seq<char>, w: i64|
        d0.contains_key(k) ==> (#[trigger] pruned_of(pr, k).contains(w) <==> d0[k].contains(w)
            && !fc_survives_upto(p, v, a, k, ci, j, w))
    &&& forall|k: Seq<char>| #[trigger]
        d0.contains_key(k) ==> pruned_of(pr, k).len() + doms[k].len() == d0[k].len()
    &&& forall|k: Seq<char>| #[trigger]
        d0.contains_key(k) ==> pruned_of(pr, k).to_multiset() == d0[k].filter(
            |w: i64| !fc_survives_upto(p, v, a, k, ci, j, w),
        ).to_multiset()
    &&& forall|ci2: int, j2: int, n: Seq<char>|
        (ci2 < ci || (ci2 == ci && j2 < j)) && #[trigger] fc_arc(p, v, a, ci2, j2, n) ==> d0.contains_key(n)
            && d0[n].filter(|w: i64| fc_survives_upto(p, v, a, n, ci, j, w)).len() > 0
}

proof fn lemma_fc_subset(
    p: CSPProblem,
    v: Seq<char>,
    a: Map<Seq<char>, i64>,
    ci: int,
    j: int,
    d0: Map<Seq<char>, Seq<i64>>,
    doms: Map<Seq<char>, Seq<i64>>,
    pr: Map<Seq<char>, Seq<i64>>,
)
    requires
        fc_state(p, v, a, ci, j, d0, doms, pr),
    ensures
        forall|k: Seq<char>, w: i64|
            doms.contains_key(k) && #[trigger] doms[k].contains(w) ==> d0[k].contains(w),
{
    assert forall|k: Seq<char>, w: i64|
        doms.contains_key(k) && #[trigger] doms[k].contains(w) implies d0[k].contains(w) by {
        d0[k].lemma_filter_contains_rev(|x: i64| fc_survives_upto(p, v, a, k, ci, j, x), w);
    }
}

proof fn lemma_fc_start(
    p: CSPProblem,
    v: Seq<char>,
    a: Map<Seq<char>, i64>,
    d0: Map<Seq<char>, Seq<i64>>,
    pr: Map<Seq<char>, Seq<i64>>,
)
    requires
        pr == Map::<Seq<char>, Seq<i64>>::empty(),
    ensures
        fc_state(p, v, a, 0, 0, d0, d0, pr),
{
    assert forall|k: Seq<char>| #![trigger d0[k]] d0.contains_key(k) implies d0[k] == d0[k].filter(
        |w: i64| fc_survives_upto(p, v, a, k, 0, 0, w),
    ) by {
        lemma_filter_all(d0[k], |w: i64| fc_survives_upto(p, v, a, k, 0, 0, w));
    }
    assert forall|k: Seq<char>| #[trigger] d0.contains_key(k) implies pruned_of(pr, k).to_multiset()
        == d0[k].filter(|w: i64| !fc_survives_upto(p, v, a, k, 0, 0, w)).to_multiset() by {
        lemma_filter_none(d0[k], |w: i64| !fc_survives_upto(p, v, a, k, 0, 0, w));
        assert(pruned_of(pr, k) =~= Seq::<i64>::empty());
    }
}

proof fn lemma_fc_skip(
    p: CSPProblem,
    v: Seq<char>,
    a: Map<Seq<char>, i64>,
    ci: int,
    j: int,
    d0: Map<Seq<char>, Seq<i64>>,
    doms: Map<Seq<char>, Seq<i64>>,
    pr: Map<Seq<char>, Seq<i64>>,
)
    requires
        fc_state(p, v, a, ci, j, d0, doms, pr),
        0 <= ci < p.constraints@.len(),
        0 <= j < p.constraints@[ci].scope().len(),
        !fc_arc(p, v, a, ci, j, p.constraints@[ci].scope()[j]),
    ensures
        fc_state(p, v, a, ci, j + 1, d0, doms, pr),
{
    assert forall|k: Seq<char>, w: i64|
        fc_survives_upto(p, v, a, k, ci, j + 1, w) == fc_survives_upto(p, v, a, k, ci, j, w) by {
        if fc_survives_upto(p, v, a, k, ci, j, w) {
            assert forall|ci2: int, j2: int|
                (ci2 < ci || (ci2 == ci && j2 < j + 1)) && #[trigger] fc_arc(p, v, a, ci2, j2, k)
                    implies fc_keeps(p.constraints@[ci2], a, k, w) by {
                if ci2 == ci && j2 == j {
                    assert(p.constraints@[ci].scope()[j] == k);
                }
            }
        }
    }
    assert forall|k: Seq<char>|
        d0[k].filter(|w: i64| fc_survives_upto(p, v, a, k, ci, j + 1, w)) == d0[k].filter(
            |w: i64| fc_survives_upto(p, v, a, k, ci, j, w),
        ) by {
        lemma_filter_same(
            d0[k],
            |w: i64| fc_survives_upto(p, v, a, k, ci, j + 1, w),
            |w: i64| fc_survives_upto(p, v, a, k, ci, j, w),
        );
    }
    assert forall|k: Seq<char>|
        d0[k].filter(|w: i64| !fc_survives_upto(p, v, a, k, ci, j + 1, w)) == d0[k].filter(|w: i64| !fc_survives_upto(p, v, a, k, ci, j, w)) by {
        lemma_filter_same(d0[k], |w: i64| !fc_survives_upto(p, v, a, k, ci, j + 1, w), |w: i64| !fc_survives_upto(p, v, a, k, ci, j, w));
    }
    assert forall|ci2: int, j2: int, n: Seq<char>|
        (ci2 < ci || (ci2 == ci && j2 < j + 1)) && #[trigger] fc_arc(p, v, a, ci2, j2, n) implies d0.contains_key(n)
        && d0[n].filter(|w: i64| fc_survives_upto(p, v, a, n, ci, j + 1, w)).len() > 0 by {
        if ci2 == ci && j2 == j {
            assert(p.constraints@[ci].scope()[j] == n);
        }
    }
}

proof fn lemma_fc_next_constraint(
    p: CSPProblem,
    v: Seq<char>,
    a: Map<Seq<char>, i64>,
    ci: int,
    d0: Map<Seq<char>, Seq<i64>>,
    doms: Map<Seq<char>, Seq<i64>>,
    pr: Map<Seq<char>, Seq<i64>>,
)
    requires
        0 <= ci < p.constraints@.len(),
        fc_state(p, v, a, ci, p.constraints@[ci].vars@.len() as int, d0, doms, pr),
    ensures
        fc_state(p, v, a, ci + 1, 0, d0, doms, pr),
{
    let nv = p.constraints@[ci].vars@.len() as int;
    assert(p.constraints@[ci].scope().len() == nv);
    assert forall|k: Seq<char>, w: i64|
        fc_survives_upto(p, v, a, k, ci + 1, 0, w) == fc_survives_upto(p, v, a, k, ci, nv, w) by {
        if fc_survives_upto(p, v, a, k, ci, nv, w) {
            assert forall|ci2: int, j2: int|
                (ci2 < ci + 1 || (ci2 == ci + 1 && j2 < 0)) && #[trigger] fc_arc(p, v, a, ci2, j2, k)
                    implies fc_keeps(p.constraints@[ci2], a, k, w) by {
                if ci2 == ci {
                    assert(j2 < nv);
                }
            }
        }
    }
    assert forall|k: Seq<char>|
        d0[k].filter(|w: i64| fc_survives_upto(p, v, a, k, ci + 1, 0, w)) == d0[k].filter(
            |w: i64| fc_survives_upto(p, v, a, k, ci, nv, w),
        ) by {
        lemma_filter_same(
            d0[k],
            |w: i64| fc_survives_upto(p, v, a, k, ci + 1, 0, w),
            |w: i64| fc_survives_upto(p, v, a, k, ci, nv, w),
        );
    }
    assert forall|k: Seq<char>|
        d0[k].filter(|w: i64| !fc_survives_upto(p, v, a, k, ci + 1, 0, w)) == d0[k].filter(|w: i64| !fc_survives_upto(p, v, a, k, ci, nv, w)) by {
        lemma_filter_same(d0[k], |w: i64| !fc_survives_upto(p, v, a, k, ci + 1, 0, w), |w: i64| !fc_survives_upto(p, v, a, k, ci, nv, w));
    }
    assert forall|ci2: int, j2: int, n: Seq<char>|
        (ci2 < ci + 1 || (ci2 == ci + 1 && j2 < 0)) && #[trigger] fc_arc(p, v, a, ci2, j2, n) implies d0.contains_key(n)
        && d0[n].filter(|w: i64| fc_survives_upto(p, v, a, n, ci + 1, 0, w)).len() > 0 by {
        if ci2 == ci {
            assert(j2 < nv);
        }
    }
}

proof fn lemma_fc_done(
    p: CSPProblem,
    v: Seq<char>,
    a: Map<Seq<char>, i64>,
    d0: Map<Seq<char>, Seq<i64>>,
    doms: Map<Seq<char>, Seq<i64>>,
    pr: Map<Seq<char>, Seq<i64>>,
)
    requires
        fc_state(p, v, a, p.constraints@.len() as int, 0, d0, doms, pr),
    ensures
        forall|k: Seq<char>, w: i64|
            doms.contains_key(k) && #[trigger] doms[k].contains(w) ==> d0[k].contains(w),
        !exists|ci: int, j: int, n: Seq<char>|
            #[trigger] fc_arc(p, v, a, ci, j, n) && (!d0.contains_key(n) || d0[n].filter(
                |w: i64| fc_survives(p, v, a, n, w),
            ).len() == 0),
        forall|k: Seq<char>|
            #![trigger doms[k]]
            d0.contains_key(k) ==> doms[k] == d0[k].filter(|w: i64| fc_survives(p, v, a, k, w)),
        forall|k: Seq<char>, w: i64|
            d0.contains_key(k) ==> (#[trigger] pruned_of(pr, k).contains(w) <==> d0[k].contains(w)
                && !fc_survives(p, v, a, k, w)),
        forall|k: Seq<char>| #[trigger]
            d0.contains_key(k) ==> pruned_of(pr, k).to_multiset() == d0[k].filter(
                |w: i64| !fc_survives(p, v, a, k, w),
            ).to_multiset(),
{
    let len = p.constraints@.len() as int;
    lemma_fc_subset(p, v, a, len, 0, d0, doms, pr);
    assert forall|k: Seq<char>, w: i64|
        fc_survives_upto(p, v, a, k, len, 0, w) == fc_survives(p, v, a, k, w) by {
        if fc_survives_upto(p, v, a, k, len, 0, w) {
            assert forall|ci2: int, j2: int| #[trigger] fc_arc(p, v, a, ci2, j2, k) implies fc_keeps(
                p.constraints@[ci2],
                a,
                k,
                w,
            ) by {
                assert(ci2 < len);
            }
        }
    }
    assert forall|k: Seq<char>|
        d0[k].filter(|w: i64| fc_survives_upto(p, v, a, k, len, 0, w)) == d0[k].filter(
            |w: i64| fc_survives(p, v, a, k, w),
        ) by {
        lemma_filter_same(
            d0[k],
            |w: i64| fc_survives_upto(p, v, a, k, len, 0, w),
            |w: i64| fc_survives(p, v, a, k, w),
        );
    }
    assert forall|k: Seq<char>|
        d0[k].filter(|w: i64| !fc_survives_upto(p, v, a, k, len, 0, w)) == d0[k].filter(|w: i64| !fc_survives(p, v, a, k, w)) by {
        lemma_filter_same(d0[k], |w: i64| !fc_survives_upto(p, v, a, k, len, 0, w), |w: i64| !fc_survives(p, v, a, k, w));
    }
    assert forall|ci: int, j: int, n: Seq<char>| #[trigger] fc_arc(p, v, a, ci, j, n) implies d0.contains_key(n)
        && d0[n].filter(|w: i64| fc_survives(p, v, a, n, w)).len() > 0 by {
        assert(ci < len);
    }
}

proof fn lemma_fc_empty(
    p: CSPProblem,
    v: Seq<char>,
    a: Map<Seq<char>, i64>,
    ci: int,
    j: int,
    nb: Seq<char>,
    d0: Map<Seq<char>, Seq<i64>>,
    doms: Map<Seq<char>, Seq<i64>>,
    pr: Map<Seq<char>, Seq<i64>>,
    dom: Seq<i64>,
    keep: spec_fn(i64) -> bool,
)
    requires
        fc_state(p, v, a, ci, j, d0, doms, pr),
        fc_arc(p, v, a, ci, j, nb),
        dom == (if doms.contains_key(nb) {
            doms[nb]
        } else {
            Seq::<i64>::empty()
        }),
        keep == (|w: i64| fc_keeps(p.constraints@[ci], a, nb, w)),
        dom.filter(keep).len() == 0,
    ensures
        forall|k: Seq<char>, w: i64|
            doms.contains_key(k) && #[trigger] doms[k].contains(w) ==> d0[k].contains(w),
        exists|ci: int, j: int, n: Seq<char>|
            #[trigger] fc_arc(p, v, a, ci, j, n) && (!d0.contains_key(n) || d0[n].filter(
                |w: i64| fc_survives(p, v, a, n, w),
            ).len() == 0),
{
    lemma_fc_subset(p, v, a, ci, j, d0, doms, pr);
    if d0.contains_key(nb) {
        let full = |w: i64| fc_survives(p, v, a, nb, w);
        let upto = |w: i64| fc_survives_upto(p, v, a, nb, ci, j, w);
        if d0[nb].filter(full).len() > 0 {
            let x = d0[nb].filter(full)[0];
            assert(d0[nb].filter(full).contains(x));
            d0[nb].lemma_filter_contains_rev(full, x);
            assert(full(x));
            assert(upto(x));
            assert(keep(x)) by {
                assert(fc_arc(p, v, a, ci, j, nb));
            }
            let i = choose|i: int| 0 <= i < d0[nb].len() && d0[nb][i] == x;
            d0[nb].lemma_filter_contains(upto, i);
            assert(doms[nb] == d0[nb].filter(upto));
            let t = choose|t: int| 0 <= t < dom.len() && dom[t] == x;
            dom.lemma_filter_contains(keep, t);
            assert(false);
        }
    }
    assert(fc_arc(p, v, a, ci, j, nb));
}

proof fn lemma_fc_step(
    p: CSPProblem,
    v: Seq<char>,
    a: Map<Seq<char>, i64>,
    ci: int,
    j: int,
    nb: Seq<char>,
    d0: Map<Seq<char>, Seq<i64>>,
    doms: Map<Seq<char>, Seq<i64>>,
    pr: Map<Seq<char>, Seq<i64>>,
    doms2: Map<Seq<char>, Seq<i64>>,
    pr2: Map<Seq<char>, Seq<i64>>,
    dom: Seq<i64>,
    removed: Seq<i64>,
    keep: spec_fn(i64) -> bool,
    drop: spec_fn(i64) -> bool,
)
    requires
        fc_state(p, v, a, ci, j, d0, doms, pr),
        fc_arc(p, v, a, ci, j, nb),
        dom == (if doms.contains_key(nb) {
            doms[nb]
        } else {
            Seq::<i64>::empty()
        }),
        keep == (|w: i64| fc_keeps(p.constraints@[ci], a, nb, w)),
        drop == (|w: i64| !fc_keeps(p.constraints@[ci], a, nb, w)),
        dom.filter(keep).len() > 0,
        removed == dom.filter(drop),
        removed.len() == 0 ==> dom.filter(keep) == dom,
        dom.filter(keep).len() + removed.len() == dom.len(),
        removed.len() > 0 ==> doms2 == doms.insert(nb, dom.filter(keep)),
        removed.len() > 0 ==> pr2 == pr.insert(nb, pruned_of(pr, nb) + removed),
        removed.len() == 0 ==> doms2 == doms && pr2 == pr,
    ensures
        fc_state(p, v, a, ci, j + 1, d0, doms2, pr2),
{
    let c = p.constraints@[ci];
    assert(doms.contains_key(nb)) by {
        if !doms.contains_key(nb) {
            assert(dom.len() == 0);
        }
    }
    assert(d0.contains_key(nb));
    let up0 = |w: i64| fc_survives_upto(p, v, a, nb, ci, j, w);
    let up1 = |w: i64| fc_survives_upto(p, v, a, nb, ci, j + 1, w);
    assert forall|k: Seq<char>, w: i64| k != nb implies fc_survives_upto(p, v, a, k, ci, j + 1, w)
        == fc_survives_upto(p, v, a, k, ci, j, w) by {
        if fc_survives_upto(p, v, a, k, ci, j, w) {
            assert forall|ci2: int, j2: int|
                (ci2 < ci || (ci2 == ci && j2 < j + 1)) && #[trigger] fc_arc(p, v, a, ci2, j2, k)
                    implies fc_keeps(p.constraints@[ci2], a, k, w) by {
                if ci2 == ci && j2 == j {
                    assert(p.constraints@[ci].scope()[j] == k);
                    assert(p.constraints@[ci].scope()[j] == nb);
                }
            }
        }
    }
    assert forall|w: i64| #[trigger] up1(w) == (up0(w) && keep(w)) by {
        if up0(w) && keep(w) {
            assert forall|ci2: int, j2: int|
                (ci2 < ci || (ci2 == ci && j2 < j + 1)) && #[trigger] fc_arc(p, v, a, ci2, j2, nb)
                    implies fc_keeps(p.constraints@[ci2], a, nb, w) by {
                if ci2 == ci && j2 == j {
                } else {
                    assert(up0(w));
                }
            }
        }
        if up1(w) {
            assert(fc_arc(p, v, a, ci, j, nb));
            assert forall|ci2: int, j2: int|
                (ci2 < ci || (ci2 == ci && j2 < j)) && #[trigger] fc_arc(p, v, a, ci2, j2, nb)
                    implies fc_keeps(p.constraints@[ci2], a, nb, w) by {
                assert(up1(w));
            }
        }
    }
    assert(dom == d0[nb].filter(up0));
    lemma_filter_filter(d0[nb], up0, keep, up1);
    let newd = dom.filter(keep);
    assert(newd == d0[nb].filter(up1));
    assert forall|k: Seq<char>| k != nb implies d0[k].filter(
        |w: i64| fc_survives_upto(p, v, a, k, ci, j + 1, w),
    ) == d0[k].filter(|w: i64| fc_survives_upto(p, v, a, k, ci, j, w)) by {
        lemma_filter_same(
            d0[k],
            |w: i64| fc_survives_upto(p, v, a, k, ci, j + 1, w),
            |w: i64| fc_survives_upto(p, v, a, k, ci, j, w),
        );
    }
    assert(d0[nb].filter(|w: i64| fc_survives_upto(p, v, a, nb, ci, j + 1, w)) == newd) by {
        assert((|w: i64| fc_survives_upto(p, v, a, nb, ci, j + 1, w)) =~= up1);
    }
    // domains
    assert forall|k: Seq<char>| #![trigger doms2[k]] d0.contains_key(k) implies doms2[k] == d0[k].filter(
        |w: i64| fc_survives_upto(p, v, a, k, ci, j + 1, w),
    ) by {
        if k == nb {
            if removed.len() == 0 {
                assert(doms2[k] == dom);
            }
        }
    }
    // pruned values
    assert forall|w: i64| #[trigger] removed.contains(w) <==> dom.contains(w) && !keep(w) by {
        if removed.contains(w) {
            dom.lemma_filter_contains_rev(drop, w);
            let t = choose|t: int| 0 <= t < removed.len() && removed[t] == w;
            dom.lemma_filter_pred(drop, t);
        }
        if dom.contains(w) && !keep(w) {
            let t = choose|t: int| 0 <= t < dom.len() && dom[t] == w;
            dom.lemma_filter_contains(drop, t);
        }
    }
    assert forall|w: i64| #[trigger] dom.contains(w) <==> d0[nb].contains(w) && up0(w) by {
        if dom.contains(w) {
            d0[nb].lemma_filter_contains_rev(up0, w);
            let t = choose|t: int| 0 <= t < dom.len() && dom[t] == w;
            d0[nb].lemma_filter_pred(up0, t);
        }
        if d0[nb].contains(w) && up0(w) {
            let t = choose|t: int| 0 <= t < d0[nb].len() && d0[nb][t] == w;
            d0[nb].lemma_filter_contains(up0, t);
        }
    }
    assert forall|k: Seq<char>, w: i64|
        d0.contains_key(k) implies (#[trigger] pruned_of(pr2, k).contains(w) <==> d0[k].contains(w)
        && !fc_survives_upto(p, v, a, k, ci, j + 1, w)) by {
        if k == nb {
            assert(up1(w) == (up0(w) && keep(w)));
            assert(pruned_of(pr, k).contains(w) <==> d0[k].contains(w) && !up0(w));
            if removed.len() > 0 {
                assert(pruned_of(pr2, k) == pruned_of(pr, k) + removed);
                if pruned_of(pr2, k).contains(w) {
                    let t = choose|t: int| 0 <= t < pruned_of(pr2, k).len() && pruned_of(pr2, k)[t] == w;
                    if t < pruned_of(pr, k).len() {
                        assert(pruned_of(pr, k)[t] == w);
                    } else {
                        assert(removed[t - pruned_of(pr, k).len()] == w);
                    }
                }
                if d0[k].contains(w) && !up1(w) {
                    if !up0(w) {
                        let t = choose|t: int| 0 <= t < pruned_of(pr, k).len() && pruned_of(pr, k)[t] == w;
                        assert(pruned_of(pr2, k)[t] == w);
                    } else {
                        assert(removed.contains(w));
                        let t = choose|t: int| 0 <= t < removed.len() && removed[t] == w;
                        assert(pruned_of(pr2, k)[pruned_of(pr, k).len() + t] == w);
                    }
                }
            } else {
                if d0[k].contains(w) && up0(w) && !keep(w) {
                    assert(dom.contains(w));
                    assert(removed.contains(w));
                }
            }
        }
    }
    assert forall|k: Seq<char>| #[trigger] d0.contains_key(k) implies pruned_of(pr2, k).len()
        + doms2[k].len() == d0[k].len() by {
        if k == nb && removed.len() > 0 {
            assert(pruned_of(pr2, k) == pruned_of(pr, k) + removed);
            assert(pruned_of(pr, k).len() + doms[k].len() == d0[k].len());
        }
    }
    assert forall|k: Seq<char>| #[trigger] pr2.contains_key(k) implies d0.contains_key(k) && pr2[k].len() > 0 by {
        if k == nb && removed.len() > 0 {
            assert(pr2[k] == pruned_of(pr, k) + removed);
        }
    }
    // pruned values, counted with repeats
    let nup0 = |w: i64| !up0(w);
    let nup1 = |w: i64| !up1(w);
    let both = |w: i64| up0(w) && drop(w);
    lemma_filter_filter(d0[nb], up0, drop, both);
    assert(removed == d0[nb].filter(both));
    assert forall|x: i64| #[trigger] nup1(x) == (nup0(x) || both(x)) by {
        assert(up1(x) == (up0(x) && keep(x)));
    }
    assert forall|x: i64| !(#[trigger] nup0(x) && both(x)) by {}
    lemma_filter_split_multiset(d0[nb], nup0, both, nup1);
    assert forall|k: Seq<char>| k != nb implies d0[k].filter(
        |w: i64| !fc_survives_upto(p, v, a, k, ci, j + 1, w),
    ) == d0[k].filter(|w: i64| !fc_survives_upto(p, v, a, k, ci, j, w)) by {
        lemma_filter_same(
            d0[k],
            |w: i64| !fc_survives_upto(p, v, a, k, ci, j + 1, w),
            |w: i64| !fc_survives_upto(p, v, a, k, ci, j, w),
        );
    }
    assert forall|k: Seq<char>| #[trigger] d0.contains_key(k) implies pruned_of(pr2, k).to_multiset()
        == d0[k].filter(|w: i64| !fc_survives_upto(p, v, a, k, ci, j + 1, w)).to_multiset() by {
        if k == nb {
            assert(d0[nb].filter(|w: i64| !fc_survives_upto(p, v, a, nb, ci, j + 1, w)) == d0[nb].filter(
                nup1,
            )) by {
                assert((|w: i64| !fc_survives_upto(p, v, a, nb, ci, j + 1, w)) =~= nup1);
            }
            assert(d0[nb].filter(|w: i64| !fc_survives_upto(p, v, a, nb, ci, j, w)) == d0[nb].filter(
                nup0,
            )) by {
                assert((|w: i64| !fc_survives_upto(p, v, a, nb, ci, j, w)) =~= nup0);
            }
            if removed.len() > 0 {
                assert(pruned_of(pr2, k) == pruned_of(pr, k) + removed);
                vstd::seq_lib::lemma_multiset_commutative(pruned_of(pr, k), removed);
            } else {
                broadcast use {vstd::seq_lib::group_to_multiset_ensures, vstd::multiset::group_multiset_axioms};

                let m = removed.to_multiset();
                assert forall|x: i64| m.count(x) == 0 by {
                    assert(!removed.contains(x));
                }
                let base = pruned_of(pr, k).to_multiset();
                assert(base.add(m) =~= base);
            }
        }
    }
    assert forall|ci2: int, j2: int, n: Seq<char>|
        (ci2 < ci || (ci2 == ci && j2 < j + 1)) && #[trigger] fc_arc(p, v, a, ci2, j2, n) implies d0.contains_key(n)
        && d0[n].filter(|w: i64| fc_survives_upto(p, v, a, n, ci, j + 1, w)).len() > 0 by {
        if n == nb {
        } else if ci2 == ci && j2 == j {
            assert(p.constraints@[ci].scope()[j] == n);
        }
    }
}

} // verus!
