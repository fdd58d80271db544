//! Backtracking search: plain chronological backtracking, and backtracking
//! with the minimum-remaining-values heuristic and forward checking.
use vstd::prelude::*;

use crate::csp::{forward_checked, lemma_fc_failure_no_solution, pruning_undone, CSPProblem};
use crate::names::{copy_values, Assignment, DomainMap};
use crate::text::{decimal_nat, decimal_u64, pad_left, padded, push_all, str_chars, string_from_chars};

use rayon::iter::{IndexedParallelIterator, IntoParallelRefIterator, ParallelIterator};

verus! {

/// Counters of a search.
#[derive(Debug, Clone, Copy)]
pub struct SolveStats {
    pub nodes_explored: u64,
    pub solutions_found: u64,
    pub backtracks: u64,
    pub pruned_values: u64,
}

/// The counters on one line: `nodes=`, `solutions=`, `backtracks=` and
/// `pruned=`, each followed by its number right-aligned in a field of 8, 4,
/// 8 and 6 characters, separated by single spaces.
pub open spec fn stats_text(s: SolveStats) -> Seq<char> {
    "nodes="@ + padded(decimal_nat(s.nodes_explored as nat), 8) + " solutions="@ + padded(
        decimal_nat(s.solutions_found as nat),
        4,
    ) + " backtracks="@ + padded(decimal_nat(s.backtracks as nat), 8) + " pruned="@ + padded(
        decimal_nat(s.pruned_values as nat),
        6,
    )
}

impl SolveStats {
    /// The counters as text (see `stats_text`).
    pub fn text(&self) -> (r: String)
        ensures
            r@ == stats_text(*self),
    {
        let mut v: Vec<char> = str_chars("nodes=");
        push_all(&mut v, &pad_left(&decimal_u64(self.nodes_explored), 8));
        push_all(&mut v, &str_chars(" solutions="));
        push_all(&mut v, &pad_left(&decimal_u64(self.solutions_found), 4));
        push_all(&mut v, &str_chars(" backtracks="));
        push_all(&mut v, &pad_left(&decimal_u64(self.backtracks), 8));
        push_all(&mut v, &str_chars(" pruned="));
        push_all(&mut v, &pad_left(&decimal_u64(self.pruned_values), 6));
        string_from_chars(&v)
    }

    /// All counters at zero.
    pub fn new() -> (r: Self)
        ensures
            r.nodes_explored == 0,
            r.solutions_found == 0,
            r.backtracks == 0,
            r.pruned_values == 0,
    {
        SolveStats { nodes_explored: 0, solutions_found: 0, backtracks: 0, pruned_values: 0 }
    }
}

/// How many positions of the variable list name unassigned variables.
pub open spec fn count_unassigned(vars: Seq<Seq<char>>, assigned: Set<Seq<char>>) -> nat
    decreases vars.len(),
{
    if vars.len() == 0 {
        0
    } else {
        count_unassigned(vars.drop_last(), assigned) + if assigned.contains(vars.last()) {
            0nat
        } else {
            1nat
        }
    }
}

/// Assigning one more name never raises the count of unassigned positions,
/// and lowers it when the name is an unassigned variable.
pub proof fn lemma_count_unassigned_insert(vars: Seq<Seq<char>>, assigned: Set<Seq<char>>, x: Seq<char>)
    ensures
        count_unassigned(vars, assigned.insert(x)) <= count_unassigned(vars, assigned),
        vars.contains(x) && !assigned.contains(x) ==> count_unassigned(vars, assigned.insert(x))
            < count_unassigned(vars, assigned),
    decreases vars.len(),
{
    if vars.len() > 0 {
        lemma_count_unassigned_insert(vars.drop_last(), assigned, x);
        if vars.contains(x) && !assigned.contains(x) && vars.last() != x {
            let i = choose|i: int| 0 <= i < vars.len() && vars[i] == x;
            assert(vars.drop_last()[i] == x);
        }
    }
}

impl CSPProblem {
    /// A part of a consistent assignment is consistent.
    pub proof fn lemma_consistent_submap(&self, a: Map<Seq<char>, i64>, s: Map<Seq<char>, i64>)
        requires
            a.submap_of(s),
            self.consistent(s),
        ensures
            self.consistent(a),
    {
        assert forall|ci: int|
            0 <= ci < self.constraints@.len() && (#[trigger] self.constraints@[ci]).applies(a) implies self.constraints@[ci].relation.holds(
            a,
        ) by {
            let c = self.constraints@[ci];
            assert forall|t: int| 0 <= t < c.scope().len() implies #[trigger] s.contains_key(
                c.scope()[t],
            ) by {
                assert(a.contains_key(c.scope()[t]));
            }
            crate::constraint::lemma_holds_submap(&c.relation, a, s);
        }
    }

    /// A complete assignment has no proper extension that assigns only variables.
    pub proof fn lemma_complete_extension(
        &self,
        a: Map<Seq<char>, i64>,
        s: Map<Seq<char>, i64>,
        doms: Map<Seq<char>, Seq<i64>>,
    )
        requires
            self.complete(a),
            a.submap_of(s),
            self.within(s, doms),
        ensures
            s == a,
    {
        assert forall|k: Seq<char>| #[trigger] s.contains_key(k) implies a.contains_key(k) by {
            assert(self.var_names().contains(k));
            let i = choose|i: int| 0 <= i < self.var_names().len() && self.var_names()[i] == k;
            assert(a.contains_key(self.var_names()[i]));
        }
        assert(s =~= a);
    }

    /// The empty assignment is consistent.
    pub proof fn lemma_empty_consistent(&self)
        ensures
            self.consistent(Map::empty()),
    {
        assert forall|ci: int|
            0 <= ci < self.constraints@.len() && (#[trigger] self.constraints@[ci]).applies(
                Map::empty(),
            ) implies self.constraints@[ci].relation.holds(Map::empty()) by {
            crate::constraint::lemma_holds_empty(&self.constraints@[ci].relation);
        }
    }

    /// A complete assignment gives every variable a value.
    pub proof fn lemma_complete_has(&self, s: Map<Seq<char>, i64>, x: Seq<char>)
        requires
            self.complete(s),
            self.var_names().contains(x),
        ensures
            s.contains_key(x),
    {
        let i = choose|i: int| 0 <= i < self.var_names().len() && self.var_names()[i] == x;
        assert(s.contains_key(self.var_names()[i]));
    }

    /// The position of the first variable without a value.
    fn first_unassigned(&self, a: &Assignment) -> (r: usize)
        requires
            !self.complete(a@),
        ensures
            r < self.var_names().len(),
            !a@.contains_key(self.var_names()[r as int]),
            forall|j: int| 0 <= j < r ==> #[trigger] a@.contains_key(self.var_names()[j]),
    {
        let mut i: usize = 0;
        while i < self.variables.len()
            invariant
                i <= self.variables@.len(),
                !self.complete(a@),
                forall|j: int| 0 <= j < i ==> #[trigger] a@.contains_key(self.var_names()[j]),
            decreases self.variables@.len() - i,
        {
            if !a.has_name(&self.variables[i]) {
                return i;
            }
            i += 1;
        }
        i
    }
}

/// After the first `k` values of the first unassigned variable were tried
/// from `a`: the search has not stopped, `seen` are the solutions recorded so
/// far, and the counters (which began at `n0` and `b0`, the node of `a`
/// counted) are what the tries so far added.
#[verifier::opaque]
spec fn naive_progress(
    p: CSPProblem,
    a: Map<Seq<char>, i64>,
    k: nat,
    find_all: bool,
    n0: u64,
    b0: u64,
    nodes: u64,
    bt: u64,
    seen: Seq<Map<Seq<char>, i64>>,
) -> bool {
    let t0 = naive_tail(p, a, 0, find_all);
    let tk = naive_tail(p, a, k, find_all);
    &&& t0.2 == tk.2
    &&& seen + tk.3 == t0.3
    &&& tk.0 <= t0.0
    &&& tk.1 <= t0.1
    &&& n0 + 1 + t0.0 <= u64::MAX ==> nodes == n0 + 1 + (t0.0 - tk.0)
    &&& b0 + t0.1 <= u64::MAX ==> bt == b0 + (t0.1 - tk.1)
}

/// Before any value is tried, only the node itself is counted.
proof fn lemma_naive_progress_start(
    p: CSPProblem,
    a: Map<Seq<char>, i64>,
    find_all: bool,
    n0: u64,
    b0: u64,
    nodes: u64,
    bt: u64,
)
    requires
        n0 + 1 <= u64::MAX ==> nodes == n0 + 1,
        bt == b0,
    ensures
        naive_progress(p, a, 0, find_all, n0, b0, nodes, bt, Seq::empty()),
{
    reveal(naive_progress);
    assert(Seq::<Map<Seq<char>, i64>>::empty() + naive_tail(p, a, 0, find_all).3 =~= naive_tail(
        p,
        a,
        0,
        find_all,
    ).3);
}

/// Trying the value at position `k` (and backtracking from it) moves the
/// progress on by one position.
#[verifier::rlimit(100)]
#[verifier::spinoff_prover]
proof fn lemma_naive_progress_next(
    p: CSPProblem,
    a: Map<Seq<char>, i64>,
    k: nat,
    find_all: bool,
    f: int,
    n0: u64,
    b0: u64,
    nodes: u64,
    bt: u64,
    seen: Seq<Map<Seq<char>, i64>>,
    cons: bool,
    nodes_mid: u64,
    bt_mid: u64,
    seen_mid: Seq<Map<Seq<char>, i64>>,
    bt_end: u64,
)
    requires
        naive_progress(p, a, k, find_all, n0, b0, nodes, bt, seen),
        first_free(p, a) == f,
        0 <= f < p.var_names().len(),
        !a.contains_key(p.var_names()[f]),
        k < dom_size(p.domains@, p.var_names()[f]),
        cons == p.consistent(a.insert(p.var_names()[f], p.domains@[p.var_names()[f]][k as int])),
        cons ==> ({
            let r = naive_run(p, a.insert(p.var_names()[f], p.domains@[p.var_names()[f]][k as int]), find_all);
            &&& !r.2
            &&& seen_mid == seen + r.3
            &&& nodes + r.0 <= u64::MAX ==> nodes_mid == nodes + r.0
            &&& bt + r.1 <= u64::MAX ==> bt_mid == bt + r.1
        }),
        !cons ==> nodes_mid == nodes && bt_mid == bt && seen_mid == seen,
        bt_mid + 1 <= u64::MAX ==> bt_end == bt_mid + 1,
    ensures
        naive_progress(p, a, k + 1, find_all, n0, b0, nodes_mid, bt_end, seen_mid),
{
    let a1 = a.insert(p.var_names()[f], p.domains@[p.var_names()[f]][k as int]);
    let r = naive_run(p, a1, find_all);
    let t0 = naive_tail(p, a, 0, find_all);
    let tk = naive_tail(p, a, k, find_all);
    let rest = naive_tail(p, a, k + 1, find_all);
    assert(tk.2 == rest.2 && rest.0 <= tk.0 && rest.1 < tk.1 && (cons ==> tk.0 == r.0 + rest.0 && tk.1 == r.1 + 1
        + rest.1 && tk.3 == r.3 + rest.3) && (!cons ==> tk.0 == rest.0 && tk.1 == 1 + rest.1 && tk.3 == rest.3))
        by {
        lemma_naive_tail_unfold(p, a, k, find_all, f);
    }
    assert(t0.2 == tk.2 && seen + tk.3 == t0.3 && tk.0 <= t0.0 && tk.1 <= t0.1 && (n0 + 1 + t0.0 <= u64::MAX
        ==> nodes == n0 + 1 + (t0.0 - tk.0)) && (b0 + t0.1 <= u64::MAX ==> bt == b0 + (t0.1 - tk.1))) by {
        reveal(naive_progress);
    }
    assert(seen_mid + rest.3 == t0.3) by {
        if cons {
            assert(seen + (r.3 + rest.3) =~= (seen + r.3) + rest.3);
        }
    }
    reveal(naive_progress);
}

/// When the value at position `k` leads to a solution that stops the search,
/// the tries so far are the whole of them.
proof fn lemma_naive_progress_found(
    p: CSPProblem,
    a: Map<Seq<char>, i64>,
    k: nat,
    find_all: bool,
    f: int,
    n0: u64,
    b0: u64,
    nodes: u64,
    bt: u64,
    seen: Seq<Map<Seq<char>, i64>>,
    nodes_mid: u64,
    bt_mid: u64,
    seen_mid: Seq<Map<Seq<char>, i64>>,
)
    requires
        naive_progress(p, a, k, find_all, n0, b0, nodes, bt, seen),
        first_free(p, a) == f,
        0 <= f < p.var_names().len(),
        !a.contains_key(p.var_names()[f]),
        k < dom_size(p.domains@, p.var_names()[f]),
        p.consistent(a.insert(p.var_names()[f], p.domains@[p.var_names()[f]][k as int])),
        ({
            let r = naive_run(p, a.insert(p.var_names()[f], p.domains@[p.var_names()[f]][k as int]), find_all);
            &&& r.2
            &&& seen_mid == seen + r.3
            &&& nodes + r.0 <= u64::MAX ==> nodes_mid == nodes + r.0
            &&& bt + r.1 <= u64::MAX ==> bt_mid == bt + r.1
        }),
    ensures
        naive_tail(p, a, 0, find_all).2,
        seen_mid == naive_tail(p, a, 0, find_all).3,
        n0 + 1 + naive_tail(p, a, 0, find_all).0 <= u64::MAX ==> nodes_mid == n0 + 1 + naive_tail(
            p,
            a,
            0,
            find_all,
        ).0,
        b0 + naive_tail(p, a, 0, find_all).1 <= u64::MAX ==> bt_mid == b0 + naive_tail(p, a, 0, find_all).1,
{
    reveal(naive_progress);
    lemma_naive_tail_unfold(p, a, k, find_all, f);
}

/// After the last value, the tries so far are the whole of them.
proof fn lemma_naive_progress_end(
    p: CSPProblem,
    a: Map<Seq<char>, i64>,
    k: nat,
    find_all: bool,
    f: int,
    n0: u64,
    b0: u64,
    nodes: u64,
    bt: u64,
    seen: Seq<Map<Seq<char>, i64>>,
)
    requires
        naive_progress(p, a, k, find_all, n0, b0, nodes, bt, seen),
        first_free(p, a) == f,
        0 <= f < p.var_names().len(),
        !a.contains_key(p.var_names()[f]),
        k >= dom_size(p.domains@, p.var_names()[f]),
    ensures
        !naive_tail(p, a, 0, find_all).2,
        seen == naive_tail(p, a, 0, find_all).3,
        n0 + 1 + naive_tail(p, a, 0, find_all).0 <= u64::MAX ==> nodes == n0 + 1 + naive_tail(
            p,
            a,
            0,
            find_all,
        ).0,
        b0 + naive_tail(p, a, 0, find_all).1 <= u64::MAX ==> bt == b0 + naive_tail(p, a, 0, find_all).1,
{
    reveal(naive_progress);
    lemma_naive_tail_unfold(p, a, k, find_all, f);
    assert(seen + Seq::<Map<Seq<char>, i64>>::empty() =~= seen);
}

/// The first unassigned position is the one before which every variable is
/// assigned.
proof fn lemma_first_free(p: CSPProblem, a: Map<Seq<char>, i64>, idx: int)
    requires
        0 <= idx < p.var_names().len(),
        !a.contains_key(p.var_names()[idx]),
        forall|j: int| 0 <= j < idx ==> #[trigger] a.contains_key(p.var_names()[j]),
    ensures
        first_free(p, a) == idx,
{
    let r = first_free(p, a);
    assert(0 <= r < p.var_names().len() && !a.contains_key(p.var_names()[r]) && forall|j: int|
        0 <= j < r ==> #[trigger] a.contains_key(p.var_names()[j]));
    if r < idx {
        assert(a.contains_key(p.var_names()[r]));
    }
    if idx < r {
        assert(a.contains_key(p.var_names()[idx]));
    }
}

proof fn lemma_submap_trans(a: Map<Seq<char>, i64>, b: Map<Seq<char>, i64>, c: Map<Seq<char>, i64>)
    requires
        a.submap_of(b),
        b.submap_of(c),
    ensures
        a.submap_of(c),
{
    assert forall|k: Seq<char>| #[trigger] a.dom().contains(k) implies c.dom().contains(k) && a[k] == c[k] by {
        assert(b.dom().contains(k));
        assert(a[k] == b[k]);
        assert(c.dom().contains(k));
        assert(b[k] == c[k]);
    }
}

proof fn lemma_insert_submap(a: Map<Seq<char>, i64>, x: Seq<char>, v: i64, s: Map<Seq<char>, i64>)
    requires
        a.submap_of(s),
        s.contains_key(x),
        s[x] == v,
    ensures
        a.insert(x, v).submap_of(s),
{
    assert forall|k: Seq<char>| #[trigger] a.insert(x, v).dom().contains(k) implies s.dom().contains(k)
        && a.insert(x, v)[k] == s[k] by {
        if k != x {
            assert(a.dom().contains(k));
            assert(s.dom().contains(k));
            assert(a[k] == s[k]);
        }
    }
}

/// The position of the first variable that `a` leaves unassigned.
pub open spec fn first_free(p: CSPProblem, a: Map<Seq<char>, i64>) -> int {
    choose|r: int|
        0 <= r < p.var_names().len() && !a.contains_key(p.var_names()[r]) && forall|j: int|
            0 <= j < r ==> #[trigger] a.contains_key(p.var_names()[j])
}

/// The views of a list of assignments.
pub open spec fn views(s: Seq<Assignment>) -> Seq<Map<Seq<char>, i64>> {
    s.map_values(|x: Assignment| x@)
}

/// What chronological backtracking does from the assignment `a`: the nodes it
/// visits, the backtracks it counts, whether it stops at a solution (only
/// without `find_all`), and the solutions it records, in order.
pub open spec fn naive_run(p: CSPProblem, a: Map<Seq<char>, i64>, find_all: bool) -> (
    nat,
    nat,
    bool,
    Seq<Map<Seq<char>, i64>>,
)
    decreases count_unassigned(p.var_names(), a.dom()), dom_size(
        p.domains@,
        p.var_names()[first_free(p, a)],
    ) + 1,
{
    if p.complete(a) {
        if p.consistent(a) {
            (1, 0, !find_all, seq![a])
        } else {
            (1, 0, false, Seq::empty())
        }
    } else {
        let t = naive_tail(p, a, 0, find_all);
        (1 + t.0, t.1, t.2, t.3)
    }
}

/// What chronological backtracking does from `a` while it tries the values
/// of the first unassigned variable from position `k` of its domain on.
#[verifier::opaque]
pub open spec fn naive_tail(p: CSPProblem, a: Map<Seq<char>, i64>, k: nat, find_all: bool) -> (
    nat,
    nat,
    bool,
    Seq<Map<Seq<char>, i64>>,
)
    decreases count_unassigned(p.var_names(), a.dom()), dom_size(
        p.domains@,
        p.var_names()[first_free(p, a)],
    ) - k,
{
    let f = first_free(p, a);
    let x = p.var_names()[f];
    if 0 <= f < p.var_names().len() && !a.contains_key(x) && k < dom_size(p.domains@, x) {
        let a1 = a.insert(x, p.domains@[x][k as int]);
        proof {
            lemma_count_unassigned_insert(p.var_names(), a.dom(), x);
            assert(a1.dom() == a.dom().insert(x));
        }
        if p.consistent(a1) {
            let sub = naive_run(p, a1, find_all);
            if sub.2 {
                (sub.0, sub.1, true, sub.3)
            } else {
                let rest = naive_tail(p, a, k + 1, find_all);
                (sub.0 + rest.0, sub.1 + 1 + rest.1, rest.2, sub.3 + rest.3)
            }
        } else {
            let rest = naive_tail(p, a, k + 1, find_all);
            (rest.0, 1 + rest.1, rest.2, rest.3)
        }
    } else {
        (0, 0, false, Seq::empty())
    }
}

/// One step of `naive_run`: a complete assignment is one node; otherwise the
/// node and the tries of the first unassigned variable's values.
proof fn lemma_naive_run_unfold(p: CSPProblem, a: Map<Seq<char>, i64>, find_all: bool)
    ensures
        naive_run(p, a, find_all) == if p.complete(a) {
            if p.consistent(a) {
                (1nat, 0nat, !find_all, seq![a])
            } else {
                (1nat, 0nat, false, Seq::empty())
            }
        } else {
            (
                1 + naive_tail(p, a, 0, find_all).0,
                naive_tail(p, a, 0, find_all).1,
                naive_tail(p, a, 0, find_all).2,
                naive_tail(p, a, 0, find_all).3,
            )
        },
{
    reveal_with_fuel(naive_run, 2);
    reveal_with_fuel(naive_tail, 2);
}

/// One step of `naive_tail`: past the end of the domain nothing more happens;
/// otherwise the value at position `k` is tried.
proof fn lemma_naive_tail_unfold(p: CSPProblem, a: Map<Seq<char>, i64>, k: nat, find_all: bool, f: int)
    requires
        first_free(p, a) == f,
        0 <= f < p.var_names().len(),
        !a.contains_key(p.var_names()[f]),
    ensures
        k >= dom_size(p.domains@, p.var_names()[f]) ==> naive_tail(p, a, k, find_all) == (
            0nat,
            0nat,
            false,
            Seq::<Map<Seq<char>, i64>>::empty(),
        ),
        k < dom_size(p.domains@, p.var_names()[f]) ==> naive_tail(p, a, k, find_all) == ({
            let a1 = a.insert(p.var_names()[f], p.domains@[p.var_names()[f]][k as int]);
            let sub = naive_run(p, a1, find_all);
            let rest = naive_tail(p, a, k + 1, find_all);
            if p.consistent(a1) {
                if sub.2 {
                    (sub.0, sub.1, true, sub.3)
                } else {
                    (sub.0 + rest.0, sub.1 + 1 + rest.1, rest.2, sub.3 + rest.3)
                }
            } else {
                (rest.0, 1 + rest.1, rest.2, rest.3)
            }
        }),
{
    reveal_with_fuel(naive_run, 2);
    reveal_with_fuel(naive_tail, 2);
}

/// Every solution that extends `a` (with domains `doms`) is among `sols`.
pub open spec fn covers(
    p: CSPProblem,
    doms: Map<Seq<char>, Seq<i64>>,
    a: Map<Seq<char>, i64>,
    sols: Seq<Assignment>,
) -> bool {
    forall|s: Map<Seq<char>, i64>|
        #[trigger] p.is_solution_in(s, doms) && a.submap_of(s) ==> exists|i: int|
            0 <= i < sols.len() && sols[i]@ == s
}

/// Every assignment of the list is a solution (with domains `doms`) that extends `a`.
pub open spec fn all_extend(
    p: CSPProblem,
    doms: Map<Seq<char>, Seq<i64>>,
    a: Map<Seq<char>, i64>,
    sols: Seq<Assignment>,
) -> bool {
    forall|i: int| 0 <= i < sols.len() ==> p.is_solution_in(#[trigger] sols[i]@, doms) && a.submap_of(sols[i]@)
}

/// Every assignment of the list grew from `a`: it is complete, extends `a`,
/// gives each variable that `a` leaves open a value of that variable's domain
/// in `doms`, and is consistent unless `a` is already complete.
pub open spec fn grown_from(
    p: CSPProblem,
    doms: Map<Seq<char>, Seq<i64>>,
    a: Map<Seq<char>, i64>,
    sols: Seq<Assignment>,
) -> bool {
    forall|i: int|
        0 <= i < sols.len() ==> {
            let s = (#[trigger] sols[i])@;
            &&& p.complete(s)
            &&& a.submap_of(s)
            &&& forall|k: Seq<char>|
                s.contains_key(k) && !a.contains_key(k) ==> p.var_names().contains(k) && doms.contains_key(k)
                    && doms[k].contains(s[k])
            &&& (!p.complete(a) || p.consistent(a)) ==> p.consistent(s)
        }
}

/// Assignments that grew from a consistent assignment within the domains
/// `orig`, over working domains within `orig`, are solutions within `orig`.
proof fn lemma_grown_solutions(
    p: CSPProblem,
    doms: Map<Seq<char>, Seq<i64>>,
    orig: Map<Seq<char>, Seq<i64>>,
    a: Map<Seq<char>, i64>,
    sols: Seq<Assignment>,
)
    requires
        grown_from(p, doms, a, sols),
        p.consistent(a),
        p.within(a, orig),
        dom_subset(doms, orig),
    ensures
        all_extend(p, orig, a, sols),
{
    assert forall|i: int| 0 <= i < sols.len() implies p.is_solution_in(#[trigger] sols[i]@, orig) && a.submap_of(
        sols[i]@,
    ) by {
        let s = sols[i]@;
        assert forall|k: Seq<char>| #[trigger] s.contains_key(k) implies p.var_names().contains(k)
            && orig.contains_key(k) && orig[k].contains(s[k]) by {
            if a.contains_key(k) {
                assert(s[k] == a[k]);
            } else {
                assert(doms[k].contains(s[k]));
            }
        }
    }
}

/// The assignments recorded before a branch grew from `a0`, and those of the
/// branch grew from `a0` with one more consistent step, over working domains
/// within those of `a0`: together they grew from `a0`.
proof fn lemma_grown_extend(
    p: CSPProblem,
    d_init: Map<Seq<char>, Seq<i64>>,
    d1: Map<Seq<char>, Seq<i64>>,
    a0: Map<Seq<char>, i64>,
    a1: Map<Seq<char>, i64>,
    x: Seq<char>,
    val: i64,
    sols0: Seq<Assignment>,
    sols_before: Seq<Assignment>,
    sols_after: Seq<Assignment>,
)
    requires
        a1 == a0.insert(x, val),
        !a0.contains_key(x),
        p.var_names().contains(x),
        d_init.contains_key(x),
        d_init[x].contains(val),
        p.consistent(a1),
        forall|k: Seq<char>, w: i64|
            d1.contains_key(k) && #[trigger] d1[k].contains(w) ==> d_init.contains_key(k) && d_init[k].contains(w),
        sols_before.len() >= sols0.len(),
        sols_before.take(sols0.len() as int) == sols0,
        grown_from(p, d_init, a0, sols_before.skip(sols0.len() as int)),
        sols_after.len() >= sols_before.len(),
        sols_after.take(sols_before.len() as int) == sols_before,
        grown_from(p, d1, a1, sols_after.skip(sols_before.len() as int)),
    ensures
        sols_after.len() >= sols0.len(),
        sols_after.take(sols0.len() as int) == sols0,
        grown_from(p, d_init, a0, sols_after.skip(sols0.len() as int)),
{
    assert(sols_after.take(sols0.len() as int) =~= sols0) by {
        assert forall|i: int| 0 <= i < sols0.len() implies sols_after[i] == sols0[i] by {
            assert(sols_after.take(sols_before.len() as int)[i] == sols_before[i]);
            assert(sols_before.take(sols0.len() as int)[i] == sols0[i]);
        }
    }
    let new_all = sols_after.skip(sols0.len() as int);
    let new_before = sols_before.skip(sols0.len() as int);
    let new_rec = sols_after.skip(sols_before.len() as int);
    assert(a0.submap_of(a1));
    assert forall|i: int| 0 <= i < new_all.len() implies {
        let s = (#[trigger] new_all[i])@;
        &&& p.complete(s)
        &&& a0.submap_of(s)
        &&& forall|k: Seq<char>|
            s.contains_key(k) && !a0.contains_key(k) ==> p.var_names().contains(k) && d_init.contains_key(k)
                && d_init[k].contains(s[k])
        &&& (!p.complete(a0) || p.consistent(a0)) ==> p.consistent(s)
    } by {
        if i < new_before.len() {
            assert(sols_after.take(sols_before.len() as int)[sols0.len() + i] == sols_before[sols0.len() + i]);
            assert(new_all[i] == new_before[i]);
        } else {
            let y = new_rec[i - new_before.len()];
            assert(new_all[i] == y);
            let s = y@;
            lemma_submap_trans(a0, a1, s);
            assert forall|k: Seq<char>| s.contains_key(k) && !a0.contains_key(k) implies p.var_names().contains(k)
                && d_init.contains_key(k) && d_init[k].contains(s[k]) by {
                if k == x {
                    assert(a1.contains_key(x) && a1[x] == val);
                    assert(s[k] == val);
                } else {
                    assert(!a1.contains_key(k));
                    assert(d1[k].contains(s[k]));
                }
            }
        }
    }
}

/// No solution (with domains `doms`) extends `a`.
pub open spec fn none_extend(p: CSPProblem, doms: Map<Seq<char>, Seq<i64>>, a: Map<Seq<char>, i64>) -> bool {
    forall|s: Map<Seq<char>, i64>| #[trigger] p.is_solution_in(s, doms) ==> !a.submap_of(s)
}

/// Every domain lists each of its values once.
pub open spec fn distinct_domains(doms: Map<Seq<char>, Seq<i64>>) -> bool {
    forall|k: Seq<char>| #[trigger] doms.contains_key(k) ==> doms[k].no_duplicates()
}

/// `s1` comes before `s2` in the order in which chronological backtracking
/// meets assignments: they agree on the variables before some variable, and
/// there the value of `s1` stands earlier in its domain than that of `s2`.
pub open spec fn search_before(p: CSPProblem, s1: Map<Seq<char>, i64>, s2: Map<Seq<char>, i64>) -> bool {
    exists|q: int, j1: int, j2: int|
        #![trigger p.domains@[p.var_names()[q]][j1], p.domains@[p.var_names()[q]][j2]]
        0 <= q < p.var_names().len() && (forall|t: int|
            0 <= t < q ==> s1[#[trigger] p.var_names()[t]] == s2[p.var_names()[t]]) && 0 <= j1 < j2
            < p.domains@[p.var_names()[q]].len() && p.domains@[p.var_names()[q]][j1]
            == s1[p.var_names()[q]] && p.domains@[p.var_names()[q]][j2] == s2[p.var_names()[q]]
}

/// The assignments of the list come in strictly increasing search order.
pub open spec fn in_search_order(p: CSPProblem, sols: Seq<Assignment>) -> bool {
    forall|i: int, j: int|
        0 <= i < j < sols.len() ==> search_before(p, #[trigger] sols[i]@, #[trigger] sols[j]@)
}

/// `s` comes first, in search order, among the solutions that extend `a`.
pub open spec fn first_solution(
    p: CSPProblem,
    doms: Map<Seq<char>, Seq<i64>>,
    a: Map<Seq<char>, i64>,
    s: Map<Seq<char>, i64>,
) -> bool {
    forall|t: Map<Seq<char>, i64>|
        #[trigger] p.is_solution_in(t, doms) && a.submap_of(t) ==> t == s || search_before(p, s, t)
}

/// Two assignments that agree on the variables before position `q` and take
/// the values at positions `j1 < j2` of that variable's domain are in search
/// order.
proof fn lemma_search_before_at(
    p: CSPProblem,
    a: Map<Seq<char>, i64>,
    s1: Map<Seq<char>, i64>,
    s2: Map<Seq<char>, i64>,
    q: int,
    j1: int,
    j2: int,
)
    requires
        0 <= q < p.var_names().len(),
        forall|t: int| 0 <= t < q ==> #[trigger] a.contains_key(p.var_names()[t]),
        a.submap_of(s1),
        a.submap_of(s2),
        0 <= j1 < j2 < p.domains@[p.var_names()[q]].len(),
        p.domains@[p.var_names()[q]][j1] == s1[p.var_names()[q]],
        p.domains@[p.var_names()[q]][j2] == s2[p.var_names()[q]],
    ensures
        search_before(p, s1, s2),
{
    assert forall|t: int| 0 <= t < q implies s1[#[trigger] p.var_names()[t]] == s2[p.var_names()[t]] by {
        let k = p.var_names()[t];
        assert(a.contains_key(k));
        assert(s1.dom().contains(k) && s2.dom().contains(k));
    }
}

#[verifier::rlimit(100)]
#[verifier::spinoff_prover]
fn naive_backtrack(
    problem: &CSPProblem,
    assignment: &mut Assignment,
    solutions: &mut Vec<Assignment>,
    stats: &mut SolveStats,
    find_all: bool,
) -> (found: bool)
    requires
        problem.gaps_after_empty(),
        problem.within(old(assignment)@, problem.domains@),
    ensures
        !found ==> final(assignment)@ == old(assignment)@,
        final(solutions)@.len() >= old(solutions)@.len(),
        final(solutions)@.take(old(solutions)@.len() as int) == old(solutions)@,
        all_extend(
            *problem,
            problem.domains@,
            old(assignment)@,
            final(solutions)@.skip(old(solutions)@.len() as int),
        ),
        find_all ==> !found && covers(
            *problem,
            problem.domains@,
            old(assignment)@,
            final(solutions)@.skip(old(solutions)@.len() as int),
        ),
        !find_all && found ==> final(solutions)@.len() == old(solutions)@.len() + 1,
        !find_all && !found ==> final(solutions)@.len() == old(solutions)@.len() && none_extend(
            *problem,
            problem.domains@,
            old(assignment)@,
        ),
        distinct_domains(problem.domains@) ==> in_search_order(
            *problem,
            final(solutions)@.skip(old(solutions)@.len() as int),
        ),
        distinct_domains(problem.domains@) && !find_all && found ==> first_solution(
            *problem,
            problem.domains@,
            old(assignment)@,
            final(solutions)@[old(solutions)@.len() as int]@,
        ),
        found == naive_run(*problem, old(assignment)@, find_all).2,
        views(final(solutions)@.skip(old(solutions)@.len() as int)) == naive_run(
            *problem,
            old(assignment)@,
            find_all,
        ).3,
        old(stats).nodes_explored + naive_run(*problem, old(assignment)@, find_all).0 <= u64::MAX
            ==> final(stats).nodes_explored == old(stats).nodes_explored + naive_run(
            *problem,
            old(assignment)@,
            find_all,
        ).0,
        old(stats).backtracks + naive_run(*problem, old(assignment)@, find_all).1 <= u64::MAX
            ==> final(stats).backtracks == old(stats).backtracks + naive_run(
            *problem,
            old(assignment)@,
            find_all,
        ).1,
        old(stats).solutions_found + (final(solutions)@.len() - old(solutions)@.len()) <= u64::MAX
            ==> final(stats).solutions_found == old(stats).solutions_found + (final(solutions)@.len()
            - old(solutions)@.len()),
        final(stats).pruned_values == old(stats).pruned_values,
    decreases count_unassigned(problem.var_names(), old(assignment)@.dom()),
{
    let ghost p = *problem;
    let ghost doms = problem.domains@;
    let ghost a0 = assignment@;
    let ghost sols0 = solutions@;
    let ghost n0 = stats.nodes_explored;
    let ghost b0 = stats.backtracks;
    let ghost sf0 = stats.solutions_found;
    let ghost pv0 = stats.pruned_values;
    proof {
        lemma_naive_run_unfold(p, a0, find_all);
    }
    stats.nodes_explored = stats.nodes_explored.wrapping_add(1);
    if problem.is_complete(assignment) {
        if problem.is_consistent(assignment) {
            let snapshot = assignment.duplicate();
            stats.solutions_found = stats.solutions_found.wrapping_add(1);
            solutions.push(snapshot);
            proof {
                assert(solutions@.take(sols0.len() as int) =~= sols0);
                assert(solutions@.skip(sols0.len() as int) =~= seq![snapshot]);
                assert(a0.submap_of(a0));
                assert forall|s: Map<Seq<char>, i64>| #[trigger]
                    p.is_solution_in(s, doms) && a0.submap_of(s) implies exists|i: int|
                    0 <= i < solutions@.skip(sols0.len() as int).len() && solutions@.skip(
                        sols0.len() as int,
                    )[i]@ == s by {
                    p.lemma_complete_extension(a0, s, doms);
                    assert(solutions@.skip(sols0.len() as int)[0]@ == s);
                }
                assert forall|t: Map<Seq<char>, i64>|
                    #[trigger] p.is_solution_in(t, doms) && a0.submap_of(t) implies t
                    == solutions@[sols0.len() as int]@ || search_before(
                    p,
                    solutions@[sols0.len() as int]@,
                    t,
                ) by {
                    p.lemma_complete_extension(a0, t, doms);
                }
            }
            return !find_all;
        }
        proof {
            assert(solutions@.take(sols0.len() as int) =~= sols0);
            assert(solutions@.skip(sols0.len() as int) =~= Seq::<Assignment>::empty());
            assert forall|s: Map<Seq<char>, i64>| #[trigger] p.is_solution_in(s, doms) implies !a0.submap_of(
                s,
            ) by {
                if a0.submap_of(s) {
                    p.lemma_complete_extension(a0, s, doms);
                }
            }
        }
        return false;
    }
    let idx = problem.first_unassigned(assignment);
    let var = problem.variables[idx].clone();
    let ghost vn = var@;
    assert(p.var_names()[idx as int] == vn);
    assert(p.var_names().contains(vn));
    proof {
        if !doms.contains_key(vn) {
            let j = choose|j: int|
                0 <= j < idx && doms.contains_key(p.var_names()[j]) && doms[p.var_names()[j]].len() == 0;
            assert(a0.contains_key(p.var_names()[j]));
            assert(doms[p.var_names()[j]].contains(a0[p.var_names()[j]]));
        }
    }
    let domain = copy_values(problem.domains.get_name(&var).unwrap());
    let ghost dom = domain@;
    proof {
        lemma_first_free(p, a0, idx as int);
        assert(dom_size(doms, vn) == dom.len());
        assert(solutions@.skip(sols0.len() as int) =~= Seq::<Assignment>::empty());
        assert(views(solutions@.skip(sols0.len() as int)) =~= Seq::<Map<Seq<char>, i64>>::empty());
        lemma_naive_progress_start(p, a0, find_all, n0, b0, stats.nodes_explored, stats.backtracks);
    }
    let mut k: usize = 0;
    while k < domain.len()
        invariant
            k <= domain@.len(),
            first_free(p, a0) == idx as int,
            !p.complete(a0),
            dom_size(doms, vn) == dom.len(),
            naive_progress(
                p,
                a0,
                k as nat,
                find_all,
                n0,
                b0,
                stats.nodes_explored,
                stats.backtracks,
                views(solutions@.skip(sols0.len() as int)),
            ),
            n0 == old(stats).nodes_explored,
            b0 == old(stats).backtracks,
            sf0 == old(stats).solutions_found,
            pv0 == old(stats).pruned_values,
            sf0 + (solutions@.len() - sols0.len()) <= u64::MAX ==> stats.solutions_found == sf0 + (
            solutions@.len() - sols0.len()),
            stats.pruned_values == pv0,
            p == *problem,
            a0 == old(assignment)@,
            sols0 == old(solutions)@,
            doms == problem.domains@,
            p.gaps_after_empty(),
            p.within(a0, doms),
            var@ == vn,
            p.var_names().contains(vn),
            !a0.contains_key(vn),
            doms.contains_key(vn),
            dom == doms[vn],
            domain@ == dom,
            assignment@ == a0,
            idx < p.var_names().len(),
            p.var_names()[idx as int] == vn,
            forall|t: int| 0 <= t < idx ==> #[trigger] a0.contains_key(p.var_names()[t]),
            forall|i: int|
                0 <= i < solutions@.skip(sols0.len() as int).len() ==> dom.take(k as int).contains(
                    (#[trigger] solutions@.skip(sols0.len() as int)[i])@[vn],
                ),
            distinct_domains(doms) ==> in_search_order(p, solutions@.skip(sols0.len() as int)),
            solutions@.len() >= sols0.len(),
            solutions@.take(sols0.len() as int) == sols0,
            all_extend(p, doms, a0, solutions@.skip(sols0.len() as int)),
            find_all ==> forall|s: Map<Seq<char>, i64>|
                #[trigger] p.is_solution_in(s, doms) && a0.submap_of(s) && dom.take(k as int).contains(s[vn])
                    ==> exists|i: int|
                    0 <= i < solutions@.skip(sols0.len() as int).len() && solutions@.skip(
                        sols0.len() as int,
                    )[i]@ == s,
            !find_all ==> solutions@.len() == sols0.len() && forall|s: Map<Seq<char>, i64>|
                #[trigger] p.is_solution_in(s, doms) && a0.submap_of(s) ==> !dom.take(k as int).contains(
                    s[vn],
                ),
        decreases domain@.len() - k,
    {
        let val = domain[k];
        let ghost a1 = a0.insert(vn, val);
        let ghost sols_before = solutions@;
        assignment.insert_name(var.clone(), val);
        proof {
            assert(dom.contains(val)) by {
                assert(dom[k as int] == val);
            }
            assert(p.within(a1, doms));
            lemma_count_unassigned_insert(p.var_names(), a0.dom(), vn);
            assert(a1.dom() == a0.dom().insert(vn));
            assert(dom.take(k + 1) =~= dom.take(k as int).push(val));
        }
        let ghost nodes_k = stats.nodes_explored;
        let ghost bt_k = stats.backtracks;
        let ghost seen_k = views(solutions@.skip(sols0.len() as int));
        let ghost mut nodes_mid = nodes_k;
        let ghost mut bt_mid = bt_k;
        let ghost mut seen_mid = seen_k;
        let consistent = problem.is_consistent(assignment);
        if consistent {
            let found = naive_backtrack(problem, assignment, solutions, stats, find_all);
            proof {
                nodes_mid = stats.nodes_explored;
                bt_mid = stats.backtracks;
                seen_mid = views(solutions@.skip(sols0.len() as int));
            }
            proof {
                assert(solutions@.take(sols0.len() as int) =~= sols0) by {
                    assert(solutions@.take(sols_before.len() as int) == sols_before);
                    assert forall|i: int| 0 <= i < sols0.len() implies solutions@[i] == sols0[i] by {
                        assert(solutions@.take(sols_before.len() as int)[i] == sols_before[i]);
                        assert(sols_before.take(sols0.len() as int)[i] == sols0[i]);
                    }
                }
                let new_all = solutions@.skip(sols0.len() as int);
                let new_before = sols_before.skip(sols0.len() as int);
                let new_rec = solutions@.skip(sols_before.len() as int);
                assert(new_all =~= new_before + new_rec) by {
                    assert forall|i: int| 0 <= i < new_all.len() implies new_all[i] == (new_before
                        + new_rec)[i] by {
                        if i < new_before.len() {
                            assert(solutions@.take(sols_before.len() as int)[sols0.len() + i]
                                == sols_before[sols0.len() + i]);
                        }
                    }
                }
                assert forall|i: int| 0 <= i < new_all.len() implies p.is_solution_in(
                    #[trigger] new_all[i]@,
                    doms,
                ) && a0.submap_of(new_all[i]@) by {
                    if i < new_before.len() {
                        assert(new_all[i] == new_before[i]);
                    } else {
                        assert(new_all[i] == new_rec[i - new_before.len()]);
                        lemma_submap_trans(a0, a1, new_all[i]@);
                    }
                }
                if find_all {
                    assert forall|s: Map<Seq<char>, i64>|
                        #[trigger] p.is_solution_in(s, doms) && a0.submap_of(s) && dom.take(k + 1).contains(
                            s[vn],
                        ) implies exists|i: int| 0 <= i < new_all.len() && new_all[i]@ == s by {
                        if dom.take(k as int).contains(s[vn]) {
                            let i = choose|i: int|
                                0 <= i < new_before.len() && new_before[i]@ == s;
                            assert(new_all[i] == new_before[i]);
                        } else {
                            assert(s[vn] == val);
                            p.lemma_complete_has(s, vn);
                            lemma_insert_submap(a0, vn, val, s);
                            assert(p.is_solution_in(s, doms) && a1.submap_of(s));
                            let i = choose|i: int| 0 <= i < new_rec.len() && new_rec[i]@ == s;
                            assert(new_all[new_before.len() + i] == new_rec[i]);
                        }
                    }
                }
            }
            proof {
                let new_all = solutions@.skip(sols0.len() as int);
                let new_before = sols_before.skip(sols0.len() as int);
                let new_rec = solutions@.skip(sols_before.len() as int);
                assert(new_all =~= new_before + new_rec) by {
                    assert forall|i: int| 0 <= i < new_all.len() implies new_all[i] == (new_before
                        + new_rec)[i] by {
                        if i < new_before.len() {
                            assert(solutions@.take(sols_before.len() as int)[sols0.len() + i]
                                == sols_before[sols0.len() + i]);
                        }
                    }
                }
                assert forall|i: int| 0 <= i < new_all.len() implies dom.take(k + 1).contains(
                    (#[trigger] new_all[i])@[vn],
                ) by {
                    if i < new_before.len() {
                        assert(new_all[i] == new_before[i]);
                        assert(dom.take(k as int).contains(new_before[i]@[vn]));
                    } else {
                        let y = new_rec[i - new_before.len()];
                        assert(new_all[i] == y);
                        assert(a1.submap_of(y@));
                        assert(a1.dom().contains(vn) && y@.dom().contains(vn));
                        assert(dom.take(k + 1)[k as int] == val);
                    }
                }
                if distinct_domains(doms) {
                    assert forall|i: int, j: int|
                        0 <= i < j < new_all.len() implies search_before(
                        p,
                        #[trigger] new_all[i]@,
                        #[trigger] new_all[j]@,
                    ) by {
                        if j < new_before.len() {
                            assert(new_all[i] == new_before[i] && new_all[j] == new_before[j]);
                        } else if i >= new_before.len() {
                            assert(new_all[i] == new_rec[i - new_before.len()]);
                            assert(new_all[j] == new_rec[j - new_before.len()]);
                        } else {
                            let x = new_before[i];
                            let y = new_rec[j - new_before.len()];
                            assert(new_all[i] == x && new_all[j] == y);
                            assert(dom.take(k as int).contains(x@[vn]));
                            let j1 = choose|j1: int| 0 <= j1 < k && dom.take(k as int)[j1] == x@[vn];
                            assert(a1.submap_of(y@));
                            assert(a1.dom().contains(vn) && y@.dom().contains(vn));
                            lemma_submap_trans(a0, a1, y@);
                            assert(a0.submap_of(x@));
                            lemma_search_before_at(p, a0, x@, y@, idx as int, j1, k as int);
                        }
                    }
                }
                if distinct_domains(doms) && !find_all && found {
                    let y = solutions@[sols0.len() as int];
                    assert(new_before.len() == 0);
                    assert(new_rec[0] == y);
                    assert forall|t: Map<Seq<char>, i64>|
                        #[trigger] p.is_solution_in(t, doms) && a0.submap_of(t) implies t == y@
                        || search_before(p, y@, t) by {
                        p.lemma_complete_has(t, vn);
                        assert(a1.submap_of(y@));
                        assert(a1.dom().contains(vn) && y@.dom().contains(vn));
                        if t[vn] == val {
                            lemma_insert_submap(a0, vn, val, t);
                        } else {
                            assert(dom.contains(t[vn]));
                            let j = choose|j: int| 0 <= j < dom.len() && dom[j] == t[vn];
                            if j < k {
                                assert(dom.take(k as int)[j] == t[vn]);
                            }
                            assert(j != k);
                            lemma_submap_trans(a0, a1, y@);
                            lemma_search_before_at(p, a0, y@, t, idx as int, k as int, j);
                        }
                    }
                }
            }
            proof {
                let nb = sols_before.skip(sols0.len() as int);
                let nr = solutions@.skip(sols_before.len() as int);
                assert(views(nb + nr) =~= views(nb) + views(nr));
            }
            if found {
                proof {
                    lemma_naive_progress_found(
                        p,
                        a0,
                        k as nat,
                        find_all,
                        idx as int,
                        n0,
                        b0,
                        nodes_k,
                        bt_k,
                        seen_k,
                        nodes_mid,
                        bt_mid,
                        seen_mid,
                    );
                }
                return true;
            }
            proof {
                if !find_all {
                    assert forall|s: Map<Seq<char>, i64>|
                        #[trigger] p.is_solution_in(s, doms) && a0.submap_of(s) implies !dom.take(
                        k + 1,
                    ).contains(s[vn]) by {
                        if dom.take(k + 1).contains(s[vn]) && !dom.take(k as int).contains(s[vn]) {
                            assert(s[vn] == val);
                            p.lemma_complete_has(s, vn);
                            lemma_insert_submap(a0, vn, val, s);
                        }
                    }
                }
            }
        } else {
            proof {
                assert(solutions@.take(sols0.len() as int) == sols0);
                assert forall|s: Map<Seq<char>, i64>|
                    #[trigger] p.is_solution_in(s, doms) && a0.submap_of(s) implies s[vn] != val by {
                    if s[vn] == val {
                        p.lemma_complete_has(s, vn);
                        lemma_insert_submap(a0, vn, val, s);
                        p.lemma_consistent_submap(a1, s);
                    }
                }
                if find_all {
                    assert forall|s: Map<Seq<char>, i64>|
                        #[trigger] p.is_solution_in(s, doms) && a0.submap_of(s) && dom.take(k + 1).contains(
                            s[vn],
                        ) implies exists|i: int|
                        0 <= i < solutions@.skip(sols0.len() as int).len() && solutions@.skip(
                            sols0.len() as int,
                        )[i]@ == s by {
                        assert(s[vn] != val);
                        assert(dom.take(k as int).contains(s[vn]));
                    }
                } else {
                    assert forall|s: Map<Seq<char>, i64>|
                        #[trigger] p.is_solution_in(s, doms) && a0.submap_of(s) implies !dom.take(
                        k + 1,
                    ).contains(s[vn]) by {
                        assert(s[vn] != val);
                    }
                }
            }
        }
        assignment.remove_name(&var);
        assert(assignment@ =~= a0);
        stats.backtracks = stats.backtracks.wrapping_add(1);
        proof {
            lemma_naive_progress_next(
                p,
                a0,
                k as nat,
                find_all,
                idx as int,
                n0,
                b0,
                nodes_k,
                bt_k,
                seen_k,
                consistent,
                nodes_mid,
                bt_mid,
                seen_mid,
                stats.backtracks,
            );
        }
        k += 1;
    }
    proof {
        lemma_naive_progress_end(
            p,
            a0,
            k as nat,
            find_all,
            idx as int,
            n0,
            b0,
            stats.nodes_explored,
            stats.backtracks,
            views(solutions@.skip(sols0.len() as int)),
        );
    }
    proof {
        assert(dom.take(dom.len() as int) =~= dom);
        assert forall|s: Map<Seq<char>, i64>| #[trigger] p.is_solution_in(s, doms) && a0.submap_of(s) implies dom.contains(
            s[vn],
        ) by {
            assert(s.contains_key(p.var_names()[idx as int]));
        }
        if !find_all {
            assert forall|s: Map<Seq<char>, i64>| #[trigger] p.is_solution_in(s, doms) implies !a0.submap_of(
                s,
            ) by {
                if a0.submap_of(s) {
                    assert(dom.contains(s[vn]));
                }
            }
        }
    }
    false
}

/// Chronological backtracking: assigns the variables in order, trying the
/// values of each domain in order, and checks consistency after each step.
/// With `find_all` it collects every solution; otherwise it stops at the
/// first. The solutions, in order, and the counters are those of
/// `naive_run` from the empty assignment (the counters wrap past `u64::MAX`).
#[verifier::rlimit(50)]
#[verifier::spinoff_prover]
pub fn solve_naive(problem: &CSPProblem, find_all: bool) -> (r: (Vec<Assignment>, SolveStats))
    requires
        problem.gaps_after_empty(),
    ensures
        forall|i: int| 0 <= i < r.0@.len() ==> problem.is_solution(#[trigger] r.0@[i]@),
        find_all ==> forall|s: Map<Seq<char>, i64>| #[trigger]
            problem.is_solution(s) ==> exists|i: int| 0 <= i < r.0@.len() && r.0@[i]@ == s,
        !find_all ==> r.0@.len() <= 1,
        !find_all ==> (r.0@.len() == 0 <==> forall|s: Map<Seq<char>, i64>| !#[trigger] problem.is_solution(s)),
        distinct_domains(problem.domains@) ==> in_search_order(*problem, r.0@),
        distinct_domains(problem.domains@) && !find_all && r.0@.len() == 1 ==> forall|
            s: Map<Seq<char>, i64>,
        | #[trigger] problem.is_solution(s) ==> s == r.0@[0]@ || search_before(*problem, r.0@[0]@, s),
        r.1.solutions_found == r.0@.len(),
        naive_run(*problem, Map::empty(), find_all).0 <= u64::MAX ==> r.1.nodes_explored == naive_run(
            *problem,
            Map::empty(),
            find_all,
        ).0,
        naive_run(*problem, Map::empty(), find_all).1 <= u64::MAX ==> r.1.backtracks == naive_run(
            *problem,
            Map::empty(),
            find_all,
        ).1,
        r.1.pruned_values == 0,
        views(r.0@) == naive_run(*problem, Map::empty(), find_all).3,
        distinct_domains(problem.domains@) ==> views(r.0@).no_duplicates(),
{
    let mut stats = SolveStats::new();
    let mut solutions: Vec<Assignment> = Vec::new();
    let mut assignment = Assignment::new();
    let ghost e = assignment@;
    let found = naive_backtrack(problem, &mut assignment, &mut solutions, &mut stats, find_all);
    proof {
        assert(solutions@.skip(0) =~= solutions@);
        if distinct_domains(problem.domains@) && !find_all && solutions@.len() == 1 {
            assert(found);
            assert forall|s: Map<Seq<char>, i64>| #[trigger] problem.is_solution(s) implies s
                == solutions@[0]@ || search_before(*problem, solutions@[0]@, s) by {
                assert(e.submap_of(s));
            }
        }
    }
    proof {
        assert(solutions@.skip(0) =~= solutions@);
        assert(e == Map::<Seq<char>, i64>::empty());
        if find_all {
            assert forall|s: Map<Seq<char>, i64>| #[trigger] problem.is_solution(s) implies exists|i: int|
                0 <= i < solutions@.len() && solutions@[i]@ == s by {
                assert(e.submap_of(s));
                assert(problem.is_solution_in(s, problem.domains@) && e.submap_of(s));
                let i = choose|i: int|
                    0 <= i < solutions@.skip(0).len() && solutions@.skip(0)[i]@ == s;
                assert(solutions@[i] == solutions@.skip(0)[i]);
            }
        }
        if !find_all && solutions@.len() > 0 {
            assert(problem.is_solution(solutions@[0]@));
        }
    }
    assert(solutions@.len() == solutions.len());
    proof {
        if distinct_domains(problem.domains@) {
            lemma_search_order_distinct(*problem, solutions@);
        }
    }
    let ghost sols = solutions@;
    let r = (solutions, stats);
    assert(r.0@ == sols);
    assert(find_all ==> forall|s: Map<Seq<char>, i64>| #[trigger]
            problem.is_solution(s) ==> exists|i: int| 0 <= i < r.0@.len() && r.0@[i]@ == s) by {
        if find_all {
            assert forall|s: Map<Seq<char>, i64>| #[trigger] problem.is_solution(s) implies exists|i: int|
                0 <= i < r.0@.len() && r.0@[i]@ == s by {
                let i = choose|i: int| 0 <= i < solutions@.len() && solutions@[i]@ == s;
                assert(r.0@[i] == solutions@[i]);
            }
        }
    }
    r
}


/// The size of a variable's domain, zero when it has none.
pub open spec fn dom_size(doms: Map<Seq<char>, Seq<i64>>, k: Seq<char>) -> nat {
    if doms.contains_key(k) {
        doms[k].len()
    } else {
        0
    }
}

/// The domains `d` have the keys of `orig`, and no value outside it.
pub open spec fn dom_subset(d: Map<Seq<char>, Seq<i64>>, orig: Map<Seq<char>, Seq<i64>>) -> bool {
    &&& forall|k: Seq<char>| #[trigger] d.contains_key(k) == orig.contains_key(k)
    &&& forall|k: Seq<char>, w: i64|
        d.contains_key(k) && #[trigger] d[k].contains(w) ==> orig[k].contains(w)
}

/// The minimum-remaining-values choice: the first unassigned variable, in
/// order, whose domain is the smallest among the unassigned ones; `None`
/// when every variable is assigned.
pub fn select_mrv_variable(problem: &CSPProblem, assignment: &Assignment, domains: &DomainMap) -> (r:
    Option<String>)
    ensures
        r is None <==> problem.complete(assignment@),
        r matches Some(v) ==> exists|idx: int|
            0 <= idx < problem.var_names().len() && problem.var_names()[idx] == v@
                && !assignment@.contains_key(v@) && (forall|j: int|
                0 <= j < problem.var_names().len() && !assignment@.contains_key(
                    #[trigger] problem.var_names()[j],
                ) ==> dom_size(domains@, v@) <= dom_size(domains@, problem.var_names()[j])) && (forall|j: int|
                0 <= j < idx && !assignment@.contains_key(#[trigger] problem.var_names()[j])
                    ==> dom_size(domains@, v@) < dom_size(domains@, problem.var_names()[j])),
{
    let ghost vn = problem.var_names();
    let ghost d = domains@;
    let mut best: Option<(usize, usize)> = None;
    let mut i: usize = 0;
    while i < problem.variables.len()
        invariant
            i <= problem.variables@.len(),
            vn == problem.var_names(),
            d == domains@,
            best is None ==> forall|j: int| 0 <= j < i ==> #[trigger] assignment@.contains_key(vn[j]),
            best matches Some(b) ==> {
                &&& b.0 < i
                &&& !assignment@.contains_key(vn[b.0 as int])
                &&& b.1 == dom_size(d, vn[b.0 as int])
                &&& forall|j: int|
                    0 <= j < i && !assignment@.contains_key(#[trigger] vn[j]) ==> b.1 <= dom_size(d, vn[j])
                &&& forall|j: int|
                    0 <= j < b.0 && !assignment@.contains_key(#[trigger] vn[j]) ==> b.1 < dom_size(d, vn[j])
            },
        decreases problem.variables@.len() - i,
    {
        let var = &problem.variables[i];
        assert(vn[i as int] == var@);
        if !assignment.has_name(var) {
            let size: usize = match domains.get_name(var) {
                Some(dv) => dv.len(),
                None => 0,
            };
            match best {
                None => {
                    best = Some((i, size));
                },
                Some(b) => {
                    if size < b.1 {
                        best = Some((i, size));
                    }
                },
            }
        }
        i += 1;
    }
    match best {
        None => None,
        Some(b) => {
            let v = problem.variables[b.0].clone();
            assert(vn[b.0 as int] == v@);
            Some(v)
        },
    }
}

/// How many values the table lists under the given keys, summed in wrapping
/// 64-bit arithmetic.
pub open spec fn values_count(d: Map<Seq<char>, Seq<i64>>, keys: Seq<Seq<char>>) -> u64
    decreases keys.len(),
{
    if keys.len() == 0 {
        0
    } else {
        values_count(d, keys.drop_last()).wrapping_add(d[keys.last()].len() as u64)
    }
}

/// The number of pruned values, summed in wrapping 64-bit arithmetic.
fn pruned_count(pruned: &DomainMap) -> (r: u64)
    ensures
        r == values_count(pruned@, pruned.key_seq()),
{
    let n = pruned.len();
    let mut total: u64 = 0;
    let mut i: usize = 0;
    while i < n
        invariant
            i <= n,
            n == pruned.key_seq().len(),
            total == values_count(pruned@, pruned.key_seq().take(i as int)),
        decreases n - i,
    {
        let (_, values) = pruned.entry(i);
        proof {
            let ks = pruned.key_seq();
            assert(ks.take(i + 1).drop_last() =~= ks.take(i as int));
            assert(ks.take(i + 1).last() == ks[i as int]);
        }
        total = total.wrapping_add(values.len() as u64);
        i += 1;
    }
    assert(pruned.key_seq().take(n as int) =~= pruned.key_seq());
    total
}

/// Whether some unassigned variable has an empty (or no) domain.
fn has_empty_unassigned(problem: &CSPProblem, assignment: &Assignment, domains: &DomainMap) -> (r: bool)
    ensures
        r == exists|j: int|
            0 <= j < problem.var_names().len() && !assignment@.contains_key(#[trigger] problem.var_names()[j])
                && dom_size(domains@, problem.var_names()[j]) == 0,
{
    let mut i: usize = 0;
    while i < problem.variables.len()
        invariant
            i <= problem.variables@.len(),
            forall|j: int|
                0 <= j < i && !assignment@.contains_key(#[trigger] problem.var_names()[j]) ==> dom_size(
                    domains@,
                    problem.var_names()[j],
                ) > 0,
        decreases problem.variables@.len() - i,
    {
        let var = &problem.variables[i];
        assert(problem.var_names()[i as int] == var@);
        if !assignment.has_name(var) {
            let size: usize = match domains.get_name(var) {
                Some(dv) => dv.len(),
                None => 0,
            };
            if size == 0 {
                return true;
            }
        }
        i += 1;
    }
    false
}

/// Two domain tables have the same keys and, for each key, the same values
/// (in any order and with any repeats).
pub open spec fn same_values(d: Map<Seq<char>, Seq<i64>>, e: Map<Seq<char>, Seq<i64>>) -> bool {
    &&& forall|k: Seq<char>| #[trigger] d.contains_key(k) == e.contains_key(k)
    &&& forall|k: Seq<char>, w: i64|
        #![trigger d[k].contains(w)]
        #![trigger e[k].contains(w)]
        d.contains_key(k) ==> (d[k].contains(w) <==> e[k].contains(w))
}

proof fn lemma_same_values_solution(
    p: CSPProblem,
    s: Map<Seq<char>, i64>,
    d: Map<Seq<char>, Seq<i64>>,
    e: Map<Seq<char>, Seq<i64>>,
)
    requires
        same_values(d, e),
        p.is_solution_in(s, d),
    ensures
        p.is_solution_in(s, e),
{
    assert forall|k: Seq<char>| #[trigger] s.contains_key(k) implies p.var_names().contains(k) && e.contains_key(k)
        && e[k].contains(s[k]) by {
        assert(d.contains_key(k) && d[k].contains(s[k]));
    }
}

/// Some unassigned variable has no value left in `doms`.
pub open spec fn empty_unassigned(p: CSPProblem, a: Map<Seq<char>, i64>, doms: Map<Seq<char>, Seq<i64>>) -> bool {
    exists|j: int|
        0 <= j < p.var_names().len() && !a.contains_key(#[trigger] p.var_names()[j]) && dom_size(
            doms,
            p.var_names()[j],
        ) == 0
}

/// Backtracking with forward checking on a working copy `domains` of the
/// domains: picks the next variable by minimum remaining values (when
/// `stop_on_empty`, gives up at once if some unassigned variable has no value
/// left), and after each consistent step prunes the neighbours' domains, then
/// puts the pruned values back.
///
/// The domains end with the values they began with; when constraints speak
/// only of variables, the search misses no solution within them that extends
/// the assignment.
fn backtrack_mrv(
    problem: &CSPProblem,
    assignment: &mut Assignment,
    domains: &mut DomainMap,
    solutions: &mut Vec<Assignment>,
    stats: &mut SolveStats,
    find_all: bool,
    stop_on_empty: bool,
) -> (found: bool)
    requires
        !stop_on_empty ==> problem.gaps_after_empty() && problem.within(old(assignment)@, problem.domains@)
            && dom_subset(old(domains)@, problem.domains@),
    ensures
        !found ==> final(assignment)@ == old(assignment)@,
        !find_all && found ==> final(solutions)@[old(solutions)@.len() as int]@ == final(assignment)@,
        dom_subset(old(domains)@, problem.domains@) ==> dom_subset(final(domains)@, problem.domains@),
        same_values(final(domains)@, old(domains)@),
        final(solutions)@.len() >= old(solutions)@.len(),
        final(solutions)@.take(old(solutions)@.len() as int) == old(solutions)@,
        grown_from(*problem, old(domains)@, old(assignment)@, final(solutions)@.skip(old(solutions)@.len() as int)),
        problem.consistent(old(assignment)@) && problem.within(old(assignment)@, problem.domains@) && dom_subset(
            old(domains)@,
            problem.domains@,
        ) ==> all_extend(
            *problem,
            problem.domains@,
            old(assignment)@,
            final(solutions)@.skip(old(solutions)@.len() as int),
        ),
        find_all ==> !found,
        !find_all && found ==> final(solutions)@.len() == old(solutions)@.len() + 1,
        !find_all && !found ==> final(solutions)@.len() == old(solutions)@.len(),
        find_all && problem.scopes_declared() ==> covers(
            *problem,
            old(domains)@,
            old(assignment)@,
            final(solutions)@.skip(old(solutions)@.len() as int),
        ),
        !find_all && !found && problem.scopes_declared() ==> none_extend(
            *problem,
            old(domains)@,
            old(assignment)@,
        ),
        stop_on_empty && !problem.complete(old(assignment)@) && empty_unassigned(
            *problem,
            old(assignment)@,
            old(domains)@,
        ) ==> !found && final(solutions)@ == old(solutions)@ && final(domains)@ == old(domains)@
            && final(stats).nodes_explored == old(stats).nodes_explored.wrapping_add(1)
            && final(stats).backtracks == old(stats).backtracks && final(stats).solutions_found
            == old(stats).solutions_found && final(stats).pruned_values == old(stats).pruned_values,
        old(stats).solutions_found + (final(solutions)@.len() - old(solutions)@.len()) <= u64::MAX
            ==> final(stats).solutions_found == old(stats).solutions_found + (final(solutions)@.len()
            - old(solutions)@.len()),
        distinct_domains(old(domains)@) ==> distinct_domains(final(domains)@) && views(
            final(solutions)@.skip(old(solutions)@.len() as int),
        ).no_duplicates(),
    decreases count_unassigned(problem.var_names(), old(assignment)@.dom()),
{
    let ghost p = *problem;
    let ghost orig = problem.domains@;
    let ghost a0 = assignment@;
    let ghost sols0 = solutions@;
    let ghost d_init = domains@;
    let ghost sf0 = stats.solutions_found;
    let ghost sub = p.within(a0, orig) && dom_subset(d_init, orig);
    let ghost good = p.consistent(a0) && sub;
    stats.nodes_explored = stats.nodes_explored.wrapping_add(1);
    if problem.is_complete(assignment) {
        let snapshot = assignment.duplicate();
        stats.solutions_found = stats.solutions_found.wrapping_add(1);
        solutions.push(snapshot);
        proof {
            assert(solutions@.take(sols0.len() as int) =~= sols0);
            assert(solutions@.skip(sols0.len() as int) =~= seq![snapshot]);
            assert(a0.submap_of(a0));
            assert(grown_from(p, d_init, a0, solutions@.skip(sols0.len() as int)));
            if good {
                lemma_grown_solutions(p, d_init, orig, a0, solutions@.skip(sols0.len() as int));
            }
            assert forall|s: Map<Seq<char>, i64>|
                #[trigger] p.is_solution_in(s, d_init) && a0.submap_of(s) implies exists|i: int|
                0 <= i < solutions@.skip(sols0.len() as int).len() && solutions@.skip(
                    sols0.len() as int,
                )[i]@ == s by {
                p.lemma_complete_extension(a0, s, d_init);
                assert(solutions@.skip(sols0.len() as int)[0]@ == s);
            }
        }
        return !find_all;
    }
    if stop_on_empty && has_empty_unassigned(problem, assignment, domains) {
        proof {
            assert(solutions@.take(sols0.len() as int) =~= sols0);
            assert(solutions@.skip(sols0.len() as int) =~= Seq::<Assignment>::empty());
            assert forall|s: Map<Seq<char>, i64>| #[trigger] p.is_solution_in(s, d_init) implies !a0.submap_of(
                s,
            ) by {
                let j = choose|j: int|
                    0 <= j < p.var_names().len() && !a0.contains_key(#[trigger] p.var_names()[j])
                        && dom_size(d_init, p.var_names()[j]) == 0;
                assert(s.contains_key(p.var_names()[j]));
            }
        }
        return false;
    }
    let var = match select_mrv_variable(problem, assignment, domains) {
        Some(v) => v,
        None => {
            proof {
                assert(solutions@.take(sols0.len() as int) =~= sols0);
                assert(solutions@.skip(sols0.len() as int) =~= Seq::<Assignment>::empty());
            }
            return false;
        },
    };
    let ghost vn = var@;
    proof {
        let idx = choose|idx: int|
            0 <= idx < p.var_names().len() && p.var_names()[idx] == vn && !a0.contains_key(vn) && (forall|j: int|
                0 <= j < p.var_names().len() && !a0.contains_key(#[trigger] p.var_names()[j]) ==> dom_size(
                    d_init,
                    vn,
                ) <= dom_size(d_init, p.var_names()[j])) && (forall|j: int|
                0 <= j < idx && !a0.contains_key(#[trigger] p.var_names()[j]) ==> dom_size(d_init, vn)
                    < dom_size(d_init, p.var_names()[j]));
        assert(p.var_names().contains(vn));
        if stop_on_empty {
            assert(!empty_unassigned(p, a0, d_init));
            assert(dom_size(d_init, p.var_names()[idx]) != 0);
        } else if !orig.contains_key(vn) {
            assert(!orig.contains_key(p.var_names()[idx]));
            let j = choose|j: int|
                0 <= j < idx && orig.contains_key(p.var_names()[j]) && orig[p.var_names()[j]].len() == 0;
            let x = p.var_names()[j];
            if a0.contains_key(x) {
                assert(orig[x].contains(a0[x]));
            } else {
                assert(dom_size(d_init, vn) == 0);
                assert(dom_size(d_init, vn) < dom_size(d_init, x));
                assert(d_init[x].contains(d_init[x][0]));
                assert(orig[x].contains(d_init[x][0]));
            }
        }
    }
    let domain = copy_values(domains.get_name(&var).unwrap());
    proof {
        assert(solutions@.skip(sols0.len() as int) =~= Seq::<Assignment>::empty());
        assert(views(solutions@.skip(sols0.len() as int)) =~= Seq::<Map<Seq<char>, i64>>::empty());
        lemma_distinct_at_empty(vn, domain@.take(0));
    }
    let mut k: usize = 0;
    while k < domain.len()
        invariant
            k <= domain@.len(),
            distinct_domains(d_init) ==> distinct_domains(domains@) && distinct_at(
                views(solutions@.skip(sols0.len() as int)),
                vn,
                domain@.take(k as int),
            ),
            d_init == old(domains)@,
            d_init.contains_key(vn),
            domain@ == d_init[vn],
            same_values(domains@, d_init),
            stop_on_empty ==> !empty_unassigned(p, a0, d_init),
            find_all && p.scopes_declared() ==> forall|s: Map<Seq<char>, i64>|
                #[trigger] p.is_solution_in(s, d_init) && a0.submap_of(s) && domain@.take(
                    k as int,
                ).contains(s[vn]) ==> exists|i: int|
                    0 <= i < solutions@.skip(sols0.len() as int).len() && solutions@.skip(
                        sols0.len() as int,
                    )[i]@ == s,
            !find_all && p.scopes_declared() ==> forall|s: Map<Seq<char>, i64>|
                #[trigger] p.is_solution_in(s, d_init) && a0.submap_of(s) ==> !domain@.take(
                    k as int,
                ).contains(s[vn]),
            p == *problem,
            orig == problem.domains@,
            a0 == old(assignment)@,
            sols0 == old(solutions)@,
            sub == (p.within(a0, orig) && dom_subset(d_init, orig)),
            good == (p.consistent(a0) && sub),
            !stop_on_empty ==> p.gaps_after_empty() && sub,
            var@ == vn,
            p.var_names().contains(vn),
            !a0.contains_key(vn),
            sub ==> orig.contains_key(vn),
            sub ==> forall|w: i64| #[trigger] domain@.contains(w) ==> orig[vn].contains(w),
            assignment@ == a0,
            sub ==> dom_subset(domains@, orig),
            solutions@.len() >= sols0.len(),
            solutions@.take(sols0.len() as int) == sols0,
            grown_from(p, d_init, a0, solutions@.skip(sols0.len() as int)),
            !find_all ==> solutions@.len() == sols0.len(),
            sf0 == old(stats).solutions_found,
            sf0 + (solutions@.len() - sols0.len()) <= u64::MAX ==> stats.solutions_found == sf0 + (
            solutions@.len() - sols0.len()),
        decreases domain@.len() - k,
    {
        let val = domain[k];
        let ghost a1 = a0.insert(vn, val);
        let ghost sols_before = solutions@;
        assignment.insert_name(var.clone(), val);
        proof {
            assert(domain@.contains(val)) by {
                assert(domain@[k as int] == val);
            }
            if sub {
                assert(p.within(a1, orig));
            }
            lemma_count_unassigned_insert(p.var_names(), a0.dom(), vn);
            assert(a1.dom() == a0.dom().insert(vn));
            assert(a0.submap_of(a1));
        }
        let ghost dk = domains@;
        if problem.is_consistent(assignment) {
            let ghost d0 = domains@;
            match problem.forward_check(&var, val, assignment, domains) {
                Some(pruned) => {
                    stats.pruned_values = stats.pruned_values.wrapping_add(pruned_count(&pruned));
                    let ghost d1 = domains@;
                    proof {
                        if sub {
                            assert(dom_subset(d1, orig));
                        }
                    }
                    let found = backtrack_mrv(
                        problem,
                        assignment,
                        domains,
                        solutions,
                        stats,
                        find_all,
                        stop_on_empty,
                    );
                    let ghost d2 = domains@;
                    problem.undo_pruning(&pruned, domains);
                    proof {
                        if sub {
                            lemma_undo_keeps_subset(d0, d1, d2, domains@, pruned@, orig, p, vn, a1);
                        }
                        assert forall|kk: Seq<char>, w: i64|
                            d1.contains_key(kk) && #[trigger] d1[kk].contains(w) implies d_init.contains_key(kk)
                            && d_init[kk].contains(w) by {
                            assert(d0[kk].contains(w));
                        }
                        assert(d_init[vn].contains(val));
                        lemma_grown_extend(p, d_init, d1, a0, a1, vn, val, sols0, sols_before, solutions@);
                        lemma_undo_same_values(p, vn, a1, d0, d1, pruned@, d2, domains@);
                        lemma_same_values_trans(domains@, d0, d_init);
                        if distinct_domains(d_init) {
                            lemma_fc_keeps_distinct(p, vn, a1, d0, d1, pruned@);
                            lemma_undo_keeps_distinct(d2, domains@, pruned@);
                            assert(domain@.no_duplicates());
                            lemma_mrv_branch_distinct(
                                p,
                                d1,
                                a1,
                                vn,
                                sols0,
                                sols_before,
                                solutions@,
                                domain@,
                                k as int,
                            );
                            lemma_distinct_at_done(
                                views(solutions@.skip(sols0.len() as int)),
                                vn,
                                domain@.take(k + 1),
                            );
                        }
                        let new_all = solutions@.skip(sols0.len() as int);
                        let new_before = sols_before.skip(sols0.len() as int);
                        let new_rec = solutions@.skip(sols_before.len() as int);
                        assert(new_all =~= new_before + new_rec) by {
                            assert forall|i: int| 0 <= i < new_all.len() implies new_all[i] == (new_before
                                + new_rec)[i] by {
                                if i < new_before.len() {
                                    assert(solutions@.take(sols_before.len() as int)[sols0.len() + i]
                                        == sols_before[sols0.len() + i]);
                                }
                            }
                        }
                        if p.scopes_declared() {
                            assert forall|t: Map<Seq<char>, i64>|
                                #[trigger] p.is_solution_in(t, d_init) && a0.submap_of(t) && t[vn] == val
                                    implies (find_all && exists|i: int| 0 <= i < new_all.len() && new_all[i]@ == t)
                                    || (!find_all && found) by {
                                p.lemma_complete_has(t, vn);
                                lemma_insert_submap(a0, vn, val, t);
                                lemma_same_values_sym(d0, d_init);
                                lemma_same_values_solution(p, t, d_init, d0);
                                lemma_fc_solution_within(p, vn, a1, d0, d1, pruned@, t);
                                if find_all {
                                    let i = choose|i: int| 0 <= i < new_rec.len() && new_rec[i]@ == t;
                                    assert(new_all[new_before.len() + i] == new_rec[i]);
                                }
                            }
                            assert forall|t: Map<Seq<char>, i64>|
                                #[trigger] p.is_solution_in(t, d_init) && a0.submap_of(t) && domain@.take(
                                    k as int,
                                ).contains(t[vn]) && find_all implies exists|i: int|
                                0 <= i < new_all.len() && new_all[i]@ == t by {
                                let i = choose|i: int| 0 <= i < new_before.len() && new_before[i]@ == t;
                                assert(new_all[i] == new_before[i]);
                            }
                        }
                        if !find_all && found {
                            assert(new_before.len() == 0);
                            assert(solutions@[sols0.len() as int] == solutions@[sols_before.len() as int]);
                        }
                    }
                    if found {
                        proof {
                            if good {
                                lemma_grown_solutions(p, d_init, orig, a0, solutions@.skip(sols0.len() as int));
                            }
                        }
                        return true;
                    }
                },
                None => {
                    assert(solutions@ == sols_before);
                    proof {
                        if distinct_domains(d_init) {
                            lemma_distinct_at_widen(
                                views(solutions@.skip(sols0.len() as int)),
                                vn,
                                domain@,
                                k as int,
                            );
                        }
                        if p.scopes_declared() {
                            assert forall|t: Map<Seq<char>, i64>|
                                #[trigger] p.is_solution_in(t, d_init) && a0.submap_of(t) implies t[vn] != val by {
                                if t[vn] == val {
                                    p.lemma_complete_has(t, vn);
                                    lemma_insert_submap(a0, vn, val, t);
                                    lemma_same_values_sym(d0, d_init);
                                    lemma_same_values_solution(p, t, d_init, d0);
                                    lemma_fc_failure_no_solution(p, vn, a1, d0, t);
                                }
                            }
                        }
                    }
                },
            }
        } else {
            proof {
                if distinct_domains(d_init) {
                    lemma_distinct_at_widen(views(solutions@.skip(sols0.len() as int)), vn, domain@, k as int);
                }
                assert forall|t: Map<Seq<char>, i64>|
                    #[trigger] p.is_solution_in(t, d_init) && a0.submap_of(t) implies t[vn] != val by {
                    if t[vn] == val {
                        p.lemma_complete_has(t, vn);
                        lemma_insert_submap(a0, vn, val, t);
                        p.lemma_consistent_submap(a1, t);
                    }
                }
            }
        }
        assignment.remove_name(&var);
        assert(assignment@ =~= a0);
        stats.backtracks = stats.backtracks.wrapping_add(1);
        proof {
            assert(domain@.take(k + 1) =~= domain@.take(k as int).push(val));
        }
        k += 1;
    }
    proof {
        if good {
            lemma_grown_solutions(p, d_init, orig, a0, solutions@.skip(sols0.len() as int));
        }
        if distinct_domains(d_init) {
            lemma_distinct_at_done(views(solutions@.skip(sols0.len() as int)), vn, domain@.take(k as int));
        }
        assert(domain@.take(domain@.len() as int) =~= domain@);
        assert forall|t: Map<Seq<char>, i64>| #[trigger] p.is_solution_in(t, d_init) && a0.submap_of(t) implies domain@.take(
            k as int,
        ).contains(t[vn]) by {
            p.lemma_complete_has(t, vn);
            assert(d_init[vn].contains(t[vn]));
        }
        if !find_all && p.scopes_declared() {
            assert forall|t: Map<Seq<char>, i64>| #[trigger] p.is_solution_in(t, d_init) implies !a0.submap_of(
                t,
            ) by {
                if a0.submap_of(t) {
                    assert(domain@.take(k as int).contains(t[vn]));
                }
            }
        }
    }
    false
}

proof fn lemma_same_values_sym(d: Map<Seq<char>, Seq<i64>>, e: Map<Seq<char>, Seq<i64>>)
    requires
        same_values(d, e),
    ensures
        same_values(e, d),
{
}

proof fn lemma_same_values_trans(
    a: Map<Seq<char>, Seq<i64>>,
    b: Map<Seq<char>, Seq<i64>>,
    c: Map<Seq<char>, Seq<i64>>,
)
    requires
        same_values(a, b),
        same_values(b, c),
    ensures
        same_values(a, c),
{
    assert forall|k: Seq<char>, w: i64| a.contains_key(k) implies (a[k].contains(w) <==> c[k].contains(w)) by {
        assert(a[k].contains(w) <==> b[k].contains(w));
        assert(b[k].contains(w) <==> c[k].contains(w));
    }
}

/// A solution within the domains before forward checking that extends the
/// checked assignment lies within the domains after it.
proof fn lemma_fc_solution_within(
    p: CSPProblem,
    var: Seq<char>,
    a: Map<Seq<char>, i64>,
    d0: Map<Seq<char>, Seq<i64>>,
    d1: Map<Seq<char>, Seq<i64>>,
    pruned: Map<Seq<char>, Seq<i64>>,
    s: Map<Seq<char>, i64>,
)
    requires
        forward_checked(p, var, a, d0, d1, pruned),
        forall|k: Seq<char>| #[trigger] d1.contains_key(k) == d0.contains_key(k),
        p.is_solution_in(s, d0),
        a.submap_of(s),
    ensures
        p.is_solution_in(s, d1),
{
    assert forall|k: Seq<char>| #[trigger] s.contains_key(k) implies p.var_names().contains(k) && d1.contains_key(k)
        && d1[k].contains(s[k]) by {
        crate::csp::lemma_forward_check_keeps_solutions(p, var, a, d0, d1, pruned, s, k);
    }
}

/// Undoing forward checking after a search that kept the values of the
/// domains gives each domain back the values it had before the check.
proof fn lemma_undo_same_values(
    p: CSPProblem,
    var: Seq<char>,
    a: Map<Seq<char>, i64>,
    d0: Map<Seq<char>, Seq<i64>>,
    d1: Map<Seq<char>, Seq<i64>>,
    pruned: Map<Seq<char>, Seq<i64>>,
    d2: Map<Seq<char>, Seq<i64>>,
    d3: Map<Seq<char>, Seq<i64>>,
)
    requires
        forall|k: Seq<char>| #[trigger] d1.contains_key(k) == d0.contains_key(k),
        forward_checked(p, var, a, d0, d1, pruned),
        same_values(d2, d1),
        pruning_undone(pruned, d2, d3),
    ensures
        same_values(d3, d0),
{
    assert forall|k: Seq<char>, w: i64| d3.contains_key(k) implies (d3[k].contains(w) <==> d0[k].contains(w)) by {
        let pred = |x: i64| crate::csp::fc_survives(p, var, a, k, x);
        assert(d1[k] == d0[k].filter(pred));
        let in_d1 = d1[k].contains(w);
        if in_d1 {
            d0[k].lemma_filter_contains_rev(pred, w);
        }
        if d0[k].contains(w) && pred(w) {
            let i = choose|i: int| 0 <= i < d0[k].len() && d0[k][i] == w;
            d0[k].lemma_filter_contains(pred, i);
        }
        assert(crate::csp::pruned_of(pruned, k).contains(w) <==> d0[k].contains(w) && !pred(w));
        if pruned.contains_key(k) {
            assert(crate::csp::pruned_of(pruned, k) == pruned[k]);
            assert(d3[k].to_set().contains(w) == d3[k].contains(w));
            assert(d2[k].to_set().contains(w) == d2[k].contains(w));
            assert(pruned[k].to_set().contains(w) == pruned[k].contains(w));
        } else {
            assert(crate::csp::pruned_of(pruned, k) =~= Seq::<i64>::empty());
        }
    }
}

proof fn lemma_dom_subset_refl(d: Map<Seq<char>, Seq<i64>>)
    ensures
        dom_subset(d, d),
{
}

proof fn lemma_dom_subset_trans(a: Map<Seq<char>, Seq<i64>>, b: Map<Seq<char>, Seq<i64>>, c: Map<Seq<char>, Seq<i64>>)
    requires
        dom_subset(a, b),
        dom_subset(b, c),
    ensures
        dom_subset(a, c),
{
    assert forall|k: Seq<char>, w: i64| a.contains_key(k) && #[trigger] a[k].contains(w) implies c[k].contains(w) by {
        assert(b[k].contains(w));
    }
}

proof fn lemma_solution_in_larger(p: CSPProblem, s: Map<Seq<char>, i64>, d: Map<Seq<char>, Seq<i64>>, d0: Map<Seq<char>, Seq<i64>>)
    requires
        dom_subset(d, d0),
        p.is_solution_in(s, d),
    ensures
        p.is_solution_in(s, d0),
{
    assert forall|k: Seq<char>| #[trigger] s.contains_key(k) implies p.var_names().contains(k) && d0.contains_key(k)
        && d0[k].contains(s[k]) by {
        assert(d[k].contains(s[k]));
    }
}

/// A filter of a list without repeats has no repeats.
pub proof fn lemma_filter_no_duplicates(s: Seq<i64>, q: spec_fn(i64) -> bool)
    requires
        s.no_duplicates(),
    ensures
        s.filter(q).no_duplicates(),
    decreases s.len(),
{
    reveal(Seq::filter);
    if s.len() > 0 {
        let t = s.drop_last();
        let x = s.last();
        assert(t.no_duplicates()) by {
            assert forall|i: int, j: int| 0 <= i < t.len() && 0 <= j < t.len() && i != j implies t[i] != t[j] by {
                assert(t[i] == s[i] && t[j] == s[j]);
            }
        }
        lemma_filter_no_duplicates(t, q);
        if q(x) {
            if t.filter(q).contains(x) {
                t.lemma_filter_contains_rev(q, x);
                let i = choose|i: int| 0 <= i < t.len() && t[i] == x;
                assert(s[i] == s[s.len() - 1]);
            }
            let f = t.filter(q);
            assert forall|i: int, j: int| 0 <= i < f.push(x).len() && 0 <= j < f.push(x).len() && i != j implies f.push(
                x,
            )[i] != f.push(x)[j] by {
                if i == f.len() {
                    assert(f.contains(f[j]));
                } else if j == f.len() {
                    assert(f.contains(f[i]));
                }
            }
        }
    }
}

/// Putting pruned values back keeps every domain free of repeats.
proof fn lemma_undo_keeps_distinct(
    d2: Map<Seq<char>, Seq<i64>>,
    d3: Map<Seq<char>, Seq<i64>>,
    pruned: Map<Seq<char>, Seq<i64>>,
)
    requires
        distinct_domains(d2),
        pruning_undone(pruned, d2, d3),
    ensures
        distinct_domains(d3),
{
    assert forall|k: Seq<char>| #[trigger] d3.contains_key(k) implies d3[k].no_duplicates() by {
        if pruned.contains_key(k) {
            assert forall|i: int, j: int| 0 <= i < d3[k].len() && 0 <= j < d3[k].len() && i != j implies d3[k][i]
                != d3[k][j] by {
                if i < j {
                    assert(d3[k][i] < d3[k][j]);
                } else {
                    assert(d3[k][j] < d3[k][i]);
                }
            }
        } else {
            assert(d3[k] == d2[k]);
        }
    }
}

/// Forward checking keeps every domain free of repeats.
proof fn lemma_fc_keeps_distinct(
    p: CSPProblem,
    var: Seq<char>,
    a: Map<Seq<char>, i64>,
    d0: Map<Seq<char>, Seq<i64>>,
    d1: Map<Seq<char>, Seq<i64>>,
    pruned: Map<Seq<char>, Seq<i64>>,
)
    requires
        distinct_domains(d0),
        forall|k: Seq<char>| #[trigger] d1.contains_key(k) == d0.contains_key(k),
        forward_checked(p, var, a, d0, d1, pruned),
    ensures
        distinct_domains(d1),
{
    assert forall|k: Seq<char>| #[trigger] d1.contains_key(k) implies d1[k].no_duplicates() by {
        assert(d0.contains_key(k));
        lemma_filter_no_duplicates(d0[k], |w: i64| crate::csp::fc_survives(p, var, a, k, w));
    }
}

proof fn lemma_undo_keeps_subset(
    d0: Map<Seq<char>, Seq<i64>>,
    d1: Map<Seq<char>, Seq<i64>>,
    d2: Map<Seq<char>, Seq<i64>>,
    d3: Map<Seq<char>, Seq<i64>>,
    pruned: Map<Seq<char>, Seq<i64>>,
    orig: Map<Seq<char>, Seq<i64>>,
    p: CSPProblem,
    var: Seq<char>,
    a: Map<Seq<char>, i64>,
)
    requires
        dom_subset(d0, orig),
        forward_checked(p, var, a, d0, d1, pruned),
        dom_subset(d2, orig),
        pruning_undone(pruned, d2, d3),
    ensures
        dom_subset(d3, orig),
{
    assert forall|k: Seq<char>, w: i64| d3.contains_key(k) && #[trigger] d3[k].contains(w) implies orig[k].contains(
        w,
    ) by {
        if pruned.contains_key(k) {
            assert(d3[k].to_set().contains(w));
            if pruned[k].to_set().contains(w) {
                assert(crate::csp::pruned_of(pruned, k) == pruned[k]);
                assert(pruned[k].contains(w));
                assert(d0.contains_key(k));
                assert(d0[k].contains(w));
            } else {
                assert(d2[k].contains(w));
            }
        } else {
            assert(d2[k].contains(w));
        }
    }
}

/// The recorded solutions have no repeats, and each gives `x` one of `vals`.
#[verifier::opaque]
spec fn distinct_at(sols: Seq<Map<Seq<char>, i64>>, x: Seq<char>, vals: Seq<i64>) -> bool {
    &&& sols.no_duplicates()
    &&& forall|i: int| 0 <= i < sols.len() ==> (#[trigger] sols[i]).contains_key(x) && vals.contains(sols[i][x])
}

/// No solutions yet: nothing repeats.
proof fn lemma_distinct_at_empty(x: Seq<char>, vals: Seq<i64>)
    ensures
        distinct_at(Seq::empty(), x, vals),
{
    reveal(distinct_at);
}

/// A branch that recorded nothing moves the progress on by one position.
proof fn lemma_distinct_at_widen(sols: Seq<Map<Seq<char>, i64>>, x: Seq<char>, dom: Seq<i64>, k: int)
    requires
        distinct_at(sols, x, dom.take(k)),
        0 <= k < dom.len(),
    ensures
        distinct_at(sols, x, dom.take(k + 1)),
        sols.no_duplicates(),
{
    reveal(distinct_at);
    assert forall|i: int| 0 <= i < sols.len() implies dom.take(k + 1).contains((#[trigger] sols[i])[x]) by {
        let m = choose|m: int| 0 <= m < k && dom.take(k)[m] == sols[i][x];
        assert(dom.take(k + 1)[m] == sols[i][x]);
    }
}

/// What the progress says of repeats.
proof fn lemma_distinct_at_done(sols: Seq<Map<Seq<char>, i64>>, x: Seq<char>, vals: Seq<i64>)
    requires
        distinct_at(sols, x, vals),
    ensures
        sols.no_duplicates(),
{
    reveal(distinct_at);
}

/// Adding the solutions of the branch for the value at position `k` of the
/// domain (all of which give `x` that value) to those of the earlier branches
/// keeps the solutions free of repeats.
proof fn lemma_mrv_branch_distinct(
    p: CSPProblem,
    orig: Map<Seq<char>, Seq<i64>>,
    a1: Map<Seq<char>, i64>,
    x: Seq<char>,
    sols0: Seq<Assignment>,
    sols_before: Seq<Assignment>,
    sols_after: Seq<Assignment>,
    dom: Seq<i64>,
    k: int,
)
    requires
        sols_before.len() >= sols0.len(),
        sols_after.len() >= sols_before.len(),
        sols_after.take(sols_before.len() as int) == sols_before,
        a1.contains_key(x),
        dom.no_duplicates(),
        0 <= k < dom.len(),
        a1[x] == dom[k],
        distinct_at(views(sols_before.skip(sols0.len() as int)), x, dom.take(k)),
        views(sols_after.skip(sols_before.len() as int)).no_duplicates(),
        grown_from(p, orig, a1, sols_after.skip(sols_before.len() as int)),
    ensures
        distinct_at(views(sols_after.skip(sols0.len() as int)), x, dom.take(k + 1)),
{
    let new_all = sols_after.skip(sols0.len() as int);
    let new_before = sols_before.skip(sols0.len() as int);
    let new_rec = sols_after.skip(sols_before.len() as int);
    assert(new_all =~= new_before + new_rec) by {
        assert forall|i: int| 0 <= i < new_all.len() implies new_all[i] == (new_before + new_rec)[i] by {
            if i < new_before.len() {
                assert(sols_after.take(sols_before.len() as int)[sols0.len() + i] == sols_before[sols0.len() + i]);
            }
        }
    }
    let vr = views(new_rec);
    assert(views(new_all) =~= views(new_before) + vr);
    assert forall|j: int| 0 <= j < vr.len() implies (#[trigger] vr[j]).contains_key(x) && vr[j][x] == dom[k] by {
        assert(vr[j] == new_rec[j]@);
        assert(a1.submap_of(new_rec[j]@));
    }
    lemma_distinct_at_append(views(new_before), vr, x, dom, k);
}

/// Appending solutions that all give `x` the value at position `k` of the
/// domain to solutions that give it earlier values keeps them free of
/// repeats.
proof fn lemma_distinct_at_append(
    vb: Seq<Map<Seq<char>, i64>>,
    vr: Seq<Map<Seq<char>, i64>>,
    x: Seq<char>,
    dom: Seq<i64>,
    k: int,
)
    requires
        distinct_at(vb, x, dom.take(k)),
        vr.no_duplicates(),
        forall|j: int| 0 <= j < vr.len() ==> (#[trigger] vr[j]).contains_key(x) && vr[j][x] == dom[k],
        dom.no_duplicates(),
        0 <= k < dom.len(),
    ensures
        distinct_at(vb + vr, x, dom.take(k + 1)),
{
    reveal(distinct_at);
    let va = vb + vr;
    assert(!dom.take(k).contains(dom[k])) by {
        if dom.take(k).contains(dom[k]) {
            let m = choose|m: int| 0 <= m < k && dom.take(k)[m] == dom[k];
            assert(dom[m] == dom[k]);
        }
    }
    assert forall|i: int, j: int| 0 <= i < va.len() && 0 <= j < va.len() && i != j implies va[i] != va[j] by {
        if i < vb.len() && j >= vb.len() {
            assert(va[i] == vb[i] && va[j] == vr[j - vb.len()]);
            assert(vb[i][x] != vr[j - vb.len()][x]);
        } else if j < vb.len() && i >= vb.len() {
            assert(va[j] == vb[j] && va[i] == vr[i - vb.len()]);
            assert(vb[j][x] != vr[i - vb.len()][x]);
        } else if i < vb.len() {
            assert(va[i] == vb[i] && va[j] == vb[j]);
        } else {
            assert(va[i] == vr[i - vb.len()] && va[j] == vr[j - vb.len()]);
        }
    }
    assert forall|i: int| 0 <= i < va.len() implies (#[trigger] va[i]).contains_key(x) && dom.take(k + 1).contains(
        va[i][x],
    ) by {
        if i < vb.len() {
            assert(va[i] == vb[i]);
            let m = choose|m: int| 0 <= m < k && dom.take(k)[m] == vb[i][x];
            assert(dom.take(k + 1)[m] == vb[i][x]);
        } else {
            assert(va[i] == vr[i - vb.len()]);
            assert(dom.take(k + 1)[k] == dom[k]);
        }
    }
}

/// Assignments in strictly increasing search order, over domains without
/// repeats, are all different.
proof fn lemma_search_order_distinct(p: CSPProblem, sols: Seq<Assignment>)
    requires
        distinct_domains(p.domains@),
        in_search_order(p, sols),
        forall|i: int| 0 <= i < sols.len() ==> p.is_solution(#[trigger] sols[i]@),
    ensures
        views(sols).no_duplicates(),
{
    let v = views(sols);
    assert forall|i: int, j: int| 0 <= i < v.len() && 0 <= j < v.len() && i != j implies v[i] != v[j] by {
        let (a, b) = if i < j { (i, j) } else { (j, i) };
        assert(search_before(p, sols[a]@, sols[b]@));
        let (q, j1, j2) = choose|q: int, j1: int, j2: int|
            #![trigger p.domains@[p.var_names()[q]][j1], p.domains@[p.var_names()[q]][j2]]
            0 <= q < p.var_names().len() && (forall|t: int|
                0 <= t < q ==> sols[a]@[#[trigger] p.var_names()[t]] == sols[b]@[p.var_names()[t]]) && 0 <= j1 < j2
                < p.domains@[p.var_names()[q]].len() && p.domains@[p.var_names()[q]][j1] == sols[a]@[p.var_names()[q]]
                && p.domains@[p.var_names()[q]][j2] == sols[b]@[p.var_names()[q]];
        assert(p.is_solution(sols[a]@));
        p.lemma_complete_has(sols[a]@, p.var_names()[q]);
        assert(p.domains@.contains_key(p.var_names()[q]));
        assert(p.domains@[p.var_names()[q]][j1] != p.domains@[p.var_names()[q]][j2]);
        assert(v[a] == sols[a]@ && v[b] == sols[b]@);
    }
}

/// Backtracking with the minimum-remaining-values heuristic and forward
/// checking, on a copy of the problem's domains. Every returned assignment is
/// a solution; with `find_all` every solution is returned, and without it the
/// search stops at the first, finding one whenever one exists (when
/// constraints speak only of variables).
pub fn solve_mrv(problem: &CSPProblem, find_all: bool) -> (r: (Vec<Assignment>, SolveStats))
    requires
        problem.gaps_after_empty(),
    ensures
        forall|i: int| 0 <= i < r.0@.len() ==> problem.is_solution(#[trigger] r.0@[i]@),
        !find_all ==> r.0@.len() <= 1,
        r.1.solutions_found == r.0@.len(),
        find_all && problem.scopes_declared() ==> forall|s: Map<Seq<char>, i64>| #[trigger]
            problem.is_solution(s) ==> exists|i: int| 0 <= i < r.0@.len() && r.0@[i]@ == s,
        !find_all && problem.scopes_declared() ==> (r.0@.len() == 0 <==> forall|s: Map<Seq<char>, i64>|
            !#[trigger] problem.is_solution(s)),
        distinct_domains(problem.domains@) ==> views(r.0@).no_duplicates(),
{
    let mut stats = SolveStats::new();
    let mut solutions: Vec<Assignment> = Vec::new();
    let mut assignment = Assignment::new();
    let mut domains = problem.domains.duplicate();
    let ghost e = assignment@;
    proof {
        problem.lemma_empty_consistent();
        assert(solutions@.skip(0) =~= solutions@);
    }
    let found = backtrack_mrv(problem, &mut assignment, &mut domains, &mut solutions, &mut stats, find_all, false);
    proof {
        assert(solutions@.skip(0) =~= solutions@);
        if problem.scopes_declared() {
            assert forall|s: Map<Seq<char>, i64>| #[trigger] problem.is_solution(s) implies e.submap_of(s) by {}
            if find_all {
                assert forall|s: Map<Seq<char>, i64>| #[trigger] problem.is_solution(s) implies exists|i: int|
                    0 <= i < solutions@.len() && solutions@[i]@ == s by {
                    assert(problem.is_solution_in(s, problem.domains@) && e.submap_of(s));
                    let i = choose|i: int|
                        0 <= i < solutions@.skip(0).len() && solutions@.skip(0)[i]@ == s;
                    assert(solutions@[i] == solutions@.skip(0)[i]);
                }
            }
            if !find_all && solutions@.len() > 0 {
                assert(problem.is_solution(solutions@.skip(0)[0]@));
            }
        }
    }
    assert(solutions@.len() == solutions.len());
    let r = (solutions, stats);
    assert forall|i: int| 0 <= i < r.0@.len() implies problem.is_solution(#[trigger] r.0@[i]@) by {
        assert(r.0@[i] == solutions@.skip(0)[i]);
    }
    r
}


/// The search of one branch of the parallel solver: minimum remaining
/// values with forward checking, giving up as soon as an unassigned variable
/// has no value left. It accepts any state: whatever the assignment and the
/// working domains, what it records grew from the assignment; they are
/// solutions when the assignment was consistent and within the problem's
/// domains, and the working domains within them.
fn parallel_backtrack(
    problem: &CSPProblem,
    assignment: &mut Assignment,
    domains: &mut DomainMap,
    solutions: &mut Vec<Assignment>,
    stats: &mut SolveStats,
    find_all: bool,
    _depth: usize,
) -> (found: bool)
    ensures
        final(solutions)@.len() >= old(solutions)@.len(),
        final(solutions)@.take(old(solutions)@.len() as int) == old(solutions)@,
        grown_from(*problem, old(domains)@, old(assignment)@, final(solutions)@.skip(old(solutions)@.len() as int)),
        problem.consistent(old(assignment)@) && problem.within(old(assignment)@, problem.domains@) && dom_subset(
            old(domains)@,
            problem.domains@,
        ) ==> all_extend(
            *problem,
            problem.domains@,
            old(assignment)@,
            final(solutions)@.skip(old(solutions)@.len() as int),
        ),
        !find_all ==> final(solutions)@.len() <= old(solutions)@.len() + 1,
        find_all ==> !found,
        !find_all && found ==> final(solutions)@.len() == old(solutions)@.len() + 1,
        !found ==> final(assignment)@ == old(assignment)@,
        !find_all && found ==> final(solutions)@[old(solutions)@.len() as int]@ == final(assignment)@,
        same_values(final(domains)@, old(domains)@),
        find_all && problem.scopes_declared() ==> covers(
            *problem,
            old(domains)@,
            old(assignment)@,
            final(solutions)@.skip(old(solutions)@.len() as int),
        ),
        !find_all && !found ==> final(solutions)@ == old(solutions)@,
        !find_all && !found && problem.scopes_declared() ==> none_extend(
            *problem,
            old(domains)@,
            old(assignment)@,
        ),
        old(stats).solutions_found + (final(solutions)@.len() - old(solutions)@.len()) <= u64::MAX
            ==> final(stats).solutions_found == old(stats).solutions_found + (final(solutions)@.len()
            - old(solutions)@.len()),
        distinct_domains(old(domains)@) ==> views(final(solutions)@.skip(old(solutions)@.len() as int))
            .no_duplicates(),
        !problem.complete(old(assignment)@) && empty_unassigned(*problem, old(assignment)@, old(domains)@)
            ==> !found && final(solutions)@ == old(solutions)@ && final(domains)@ == old(domains)@
            && final(assignment)@ == old(assignment)@
            && final(stats).nodes_explored == old(stats).nodes_explored.wrapping_add(1)
            && final(stats).backtracks == old(stats).backtracks && final(stats).solutions_found
            == old(stats).solutions_found && final(stats).pruned_values == old(stats).pruned_values,
{
    let found = backtrack_mrv(problem, assignment, domains, solutions, stats, find_all, true);
    proof {
        if !find_all && !found {
            assert(solutions@ =~= solutions@.take(old(solutions)@.len() as int));
        }
    }
    found
}

/// What a branch of the parallel solver gives back: solutions in which the
/// first variable holds `val`, at most one without `find_all`, and the count of
/// solutions among the counters; with `find_all` every such solution, and
/// without it none only when there is none (when constraints speak only of
/// variables).
pub open spec fn branch_ok(
    p: CSPProblem,
    first: Seq<char>,
    val: i64,
    find_all: bool,
    sols: Seq<Assignment>,
    stats: SolveStats,
) -> bool {
    &&& forall|i: int| 0 <= i < sols.len() ==> p.is_solution(#[trigger] sols[i]@)
    &&& forall|i: int| 0 <= i < sols.len() ==> (#[trigger] sols[i]@).contains_key(first) && sols[i]@[first]
        == val
    &&& !find_all ==> sols.len() <= 1
    &&& stats.solutions_found == sols.len()
    &&& find_all && p.scopes_declared() ==> forall|s: Map<Seq<char>, i64>|
        #[trigger] p.is_solution(s) && s[first] == val ==> exists|i: int| 0 <= i < sols.len() && sols[i]@ == s
    &&& !find_all && sols.len() == 0 && p.scopes_declared() ==> forall|s: Map<Seq<char>, i64>|
        #[trigger] p.is_solution(s) ==> s[first] != val
    &&& distinct_domains(p.domains@) ==> views(sols).no_duplicates()
}

/// One branch of the parallel solver: the first variable takes `val`; when
/// that alone is inconsistent the branch counts one backtrack, otherwise it
/// searches with that variable's domain reduced to `val`.
pub fn solve_branch(problem: &CSPProblem, first_var: &String, val: i64, find_all: bool) -> (r: (
    Vec<Assignment>,
    SolveStats,
))
    requires
        problem.has_domains(),
        problem.var_names().contains(first_var@),
        problem.domains@[first_var@].contains(val),
    ensures
        branch_ok(*problem, first_var@, val, find_all, r.0@, r.1),
        !problem.consistent(Map::<Seq<char>, i64>::empty().insert(first_var@, val)) ==> r.0@.len() == 0
            && r.1.nodes_explored == 0 && r.1.solutions_found == 0 && r.1.backtracks == 1
            && r.1.pruned_values == 0,
{
    let mut assignment = Assignment::new();
    assignment.insert_name(first_var.clone(), val);
    let mut stats = SolveStats::new();
    if !problem.is_consistent(&assignment) {
        stats.backtracks = 1;
        proof {
            assert forall|s: Map<Seq<char>, i64>| #[trigger] problem.is_solution(s) implies s[first_var@] != val by {
                if s[first_var@] == val {
                    problem.lemma_complete_has(s, first_var@);
                    let a1 = assignment@;
                    assert(a1.submap_of(s));
                    problem.lemma_consistent_submap(a1, s);
                }
            }
        }
        return (Vec::new(), stats);
    }
    let ghost a1 = assignment@;
    let ghost vn = first_var@;
    let mut domains = problem.domains.duplicate();
    let mut one: Vec<i64> = Vec::new();
    one.push(val);
    domains.insert_name(first_var.clone(), one);
    let mut local: Vec<Assignment> = Vec::new();
    proof {
        let i = choose|i: int| 0 <= i < problem.var_names().len() && problem.var_names()[i] == vn;
        assert(problem.domains@.contains_key(problem.var_names()[i]));
        assert(problem.within(a1, problem.domains@)) by {
            assert forall|k: Seq<char>| #[trigger] a1.contains_key(k) implies problem.var_names().contains(k)
                && problem.domains@.contains_key(k) && problem.domains@[k].contains(a1[k]) by {
                assert(k == vn);
            }
        }
        assert forall|k: Seq<char>, w: i64|
            domains@.contains_key(k) && #[trigger] domains@[k].contains(w) implies problem.domains@[k].contains(
            w,
        ) by {
            if k == vn {
                assert(domains@[k] == one@);
                assert(w == val);
            }
        }
        assert(dom_subset(domains@, problem.domains@));
        assert(local@.skip(0) =~= local@);
    }
    let ghost d1 = domains@;
    let found = parallel_backtrack(problem, &mut assignment, &mut domains, &mut local, &mut stats, find_all, 1);
    proof {
        assert(local@.skip(0) =~= local@);
        if problem.scopes_declared() {
            assert forall|s: Map<Seq<char>, i64>| #[trigger] problem.is_solution(s) && s[vn] == val implies problem.is_solution_in(
                s,
                d1,
            ) && a1.submap_of(s) by {
                problem.lemma_complete_has(s, vn);
                assert forall|k: Seq<char>| #[trigger] s.contains_key(k) implies problem.var_names().contains(k)
                    && d1.contains_key(k) && d1[k].contains(s[k]) by {
                    if k == vn {
                        assert(d1[k] == one@);
                        assert(one@[0] == val);
                    }
                }
                assert forall|k: Seq<char>| #[trigger] a1.dom().contains(k) implies s.dom().contains(k) && a1[k]
                    == s[k] by {
                    assert(k == vn);
                }
            }
            if find_all {
                assert forall|s: Map<Seq<char>, i64>| #[trigger] problem.is_solution(s) && s[vn] == val implies exists|i: int|
                    0 <= i < local@.len() && local@[i]@ == s by {
                    assert(problem.is_solution_in(s, d1) && a1.submap_of(s));
                    let i = choose|i: int| 0 <= i < local@.skip(0).len() && local@.skip(0)[i]@ == s;
                    assert(local@[i] == local@.skip(0)[i]);
                }
            }
            if !find_all && local@.len() == 0 {
                assert forall|s: Map<Seq<char>, i64>| #[trigger] problem.is_solution(s) implies s[vn] != val by {
                    if s[vn] == val {
                        assert(problem.is_solution_in(s, d1) && a1.submap_of(s));
                    }
                }
            }
        }
        assert forall|i: int| 0 <= i < local@.len() implies (#[trigger] local@[i]@).contains_key(vn)
            && local@[i]@[vn] == val by {
            let x = local@[i]@;
            assert(local@.skip(0)[i] == local@[i]);
            assert(a1.submap_of(x));
            assert(a1.dom().contains(vn) && a1[vn] == val);
            assert(x.dom().contains(vn));
            assert(a1[vn] == x[vn]);
        }
        assert forall|i: int| 0 <= i < local@.len() implies problem.is_solution(#[trigger] local@[i]@) by {
            assert(local@.skip(0)[i] == local@[i]);
        }
    }
    assert(local@.len() == local.len());
    (local, stats)
}

/// Some assignment of the list has the view `m`.
pub open spec fn holds_view(sols: Seq<Assignment>, m: Map<Seq<char>, i64>) -> bool {
    exists|w: int| 0 <= w < sols.len() && sols[w]@ == m
}

/// Runs the branches of the parallel solver, one per value, on rayon's
/// thread pool.
///
/// Calls rayon's `par_iter`, `map` and `collect_into_vec` on `values`, with a
/// closure that calls the verified `solve_branch`. The claim is what rayon
/// documents of an indexed parallel iterator collected into a vector: the
/// result holds one item per value, in the order of the values, each being
/// what `solve_branch` gave for that value.
#[verifier::external_body]
fn solve_branches(problem: &CSPProblem, first_var: &String, values: &Vec<i64>, find_all: bool) -> (r: Vec<
    (Vec<Assignment>, SolveStats),
>)
    requires
        problem.has_domains(),
        problem.var_names().contains(first_var@),
        forall|i: int| 0 <= i < values@.len() ==> problem.domains@[first_var@].contains(#[trigger] values@[i]),
    ensures
        r@.len() == values@.len(),
        forall|i: int|
            0 <= i < values@.len() ==> branch_ok(
                *problem,
                first_var@,
                #[trigger] values@[i],
                find_all,
                r@[i].0@,
                r@[i].1,
            ),
{
    let mut out = Vec::new();
    values.par_iter().map(|v| solve_branch(problem, first_var, *v, find_all)).collect_into_vec(&mut out);
    out
}

/// The parallel solver: one branch per value of the first variable's
/// domain, run on rayon's thread pool; the solutions of the branches are
/// gathered in the order of the values and the counters summed (in wrapping
/// 64-bit arithmetic).
pub fn solve_parallel(problem: &CSPProblem, find_all: bool) -> (r: (Vec<Assignment>, SolveStats))
    requires
        problem.has_domains(),
        problem.variables@.len() > 0,
    ensures
        forall|i: int| 0 <= i < r.0@.len() ==> problem.is_solution(#[trigger] r.0@[i]@),
        !find_all ==> r.0@.len() <= problem.domains@[problem.var_names()[0]].len(),
        r.1.solutions_found == r.0@.len(),
        find_all && problem.scopes_declared() ==> forall|s: Map<Seq<char>, i64>| #[trigger]
            problem.is_solution(s) ==> exists|i: int| 0 <= i < r.0@.len() && r.0@[i]@ == s,
        !find_all && problem.scopes_declared() ==> (r.0@.len() == 0 <==> forall|s: Map<Seq<char>, i64>|
            !#[trigger] problem.is_solution(s)),
        !find_all && problem.domains@[problem.var_names()[0]].no_duplicates() ==> forall|i: int, j: int|
            0 <= i < j < r.0@.len() ==> (#[trigger] r.0@[i]@)[problem.var_names()[0]] != (
            #[trigger] r.0@[j]@)[problem.var_names()[0]],
        distinct_domains(problem.domains@) ==> views(r.0@).no_duplicates(),
{
    let first_var = problem.variables[0].clone();
    proof {
        assert(problem.var_names()[0] == first_var@);
        assert(problem.var_names().contains(first_var@));
        assert(problem.domains@.contains_key(problem.var_names()[0]));
    }
    let first_domain = copy_values(problem.domains.get_name(&first_var).unwrap());
    let results = solve_branches(problem, &first_var, &first_domain, find_all);
    let mut solutions: Vec<Assignment> = Vec::new();
    let mut stats = SolveStats::new();
    proof {
        assert(views(solutions@) =~= Seq::<Map<Seq<char>, i64>>::empty());
        lemma_distinct_at_empty(first_var@, first_domain@.take(0));
    }
    let mut i: usize = 0;
    while i < results.len()
        invariant
            i <= results@.len(),
            results@.len() == first_domain@.len(),
            forall|j: int|
                0 <= j < first_domain@.len() ==> branch_ok(
                    *problem,
                    first_var@,
                    #[trigger] first_domain@[j],
                    find_all,
                    results@[j].0@,
                    results@[j].1,
                ),
            forall|t: int| 0 <= t < solutions@.len() ==> problem.is_solution(#[trigger] solutions@[t]@),
            !find_all ==> solutions@.len() <= i,
            forall|j: int, u: int|
                0 <= j < i && 0 <= u < results@[j].0@.len() ==> holds_view(
                    solutions@,
                    (#[trigger] results@[j].0@[u])@,
                ),
            solutions@.len() == 0 ==> forall|j: int| 0 <= j < i ==> (#[trigger] results@[j].0@).len() == 0,
            first_domain@ == problem.domains@[first_var@],
            problem.domains@.contains_key(first_var@),
            distinct_domains(problem.domains@) ==> distinct_at(views(solutions@), first_var@, first_domain@.take(i as int)),
            !find_all ==> forall|t: int| 0 <= t < solutions@.len() ==> first_domain@.take(i as int).contains(
                (#[trigger] solutions@[t]@)[first_var@],
            ),
            !find_all && first_domain@.no_duplicates() ==> forall|t1: int, t2: int|
                0 <= t1 < t2 < solutions@.len() ==> (#[trigger] solutions@[t1]@)[first_var@] != (
                #[trigger] solutions@[t2]@)[first_var@],
        decreases results@.len() - i,
    {
        let (branch_sols, branch_stats) = &results[i];
        assert(branch_ok(*problem, first_var@, first_domain@[i as int], find_all, branch_sols@, *branch_stats));
        stats.nodes_explored = stats.nodes_explored.wrapping_add(branch_stats.nodes_explored);
        stats.backtracks = stats.backtracks.wrapping_add(branch_stats.backtracks);
        stats.pruned_values = stats.pruned_values.wrapping_add(branch_stats.pruned_values);
        let mut t: usize = 0;
        let ghost before = solutions@;
        while t < branch_sols.len()
            invariant
                t <= branch_sols@.len(),
                forall|u: int| 0 <= u < branch_sols@.len() ==> problem.is_solution(#[trigger] branch_sols@[u]@),
                forall|u: int| 0 <= u < solutions@.len() ==> problem.is_solution(#[trigger] solutions@[u]@),
                solutions@.len() == before.len() + t,
                solutions@.take(before.len() as int) == before,
                forall|u: int| 0 <= u < t ==> solutions@[before.len() + u]@ == (#[trigger] branch_sols@[u])@,
            decreases branch_sols@.len() - t,
        {
            let ghost prev = solutions@;
            solutions.push(branch_sols[t].duplicate());
            proof {
                assert(solutions@.take(before.len() as int) =~= before) by {
                    assert forall|x: int| 0 <= x < before.len() implies solutions@[x] == before[x] by {
                        assert(prev.take(before.len() as int)[x] == before[x]);
                    }
                }
            }
            t += 1;
        }
        proof {
            assert(results@[i as int].0@ == branch_sols@);
            if distinct_domains(problem.domains@) {
                assert(views(solutions@) =~= views(before) + views(branch_sols@)) by {
                    assert forall|x: int| 0 <= x < solutions@.len() implies views(solutions@)[x] == (views(before)
                        + views(branch_sols@))[x] by {
                        if x < before.len() {
                            assert(solutions@.take(before.len() as int)[x] == before[x]);
                        } else {
                            assert(solutions@[before.len() + (x - before.len())]@ == branch_sols@[x - before.len()]@);
                        }
                    }
                }
                assert forall|j: int| 0 <= j < views(branch_sols@).len() implies (#[trigger] views(branch_sols@)[j]).contains_key(
                    first_var@,
                ) && views(branch_sols@)[j][first_var@] == first_domain@[i as int] by {
                    assert(views(branch_sols@)[j] == branch_sols@[j]@);
                }
                assert(first_domain@.no_duplicates());
                lemma_distinct_at_append(views(before), views(branch_sols@), first_var@, first_domain@, i as int);
            }
            if !find_all {
                let fv = first_var@;
                let val = first_domain@[i as int];
                assert(first_domain@.take(i + 1) =~= first_domain@.take(i as int).push(val));
                assert forall|t: int| 0 <= t < solutions@.len() implies first_domain@.take(i + 1).contains(
                    (#[trigger] solutions@[t]@)[fv],
                ) by {
                    if t < before.len() {
                        assert(solutions@.take(before.len() as int)[t] == before[t]);
                        assert(first_domain@.take(i as int).contains(before[t]@[fv]));
                        let m = choose|m: int| 0 <= m < i && first_domain@.take(i as int)[m] == before[t]@[fv];
                        assert(first_domain@.take(i + 1)[m] == before[t]@[fv]);
                    } else {
                        assert(solutions@[before.len() as int]@ == branch_sols@[0]@);
                        assert(branch_sols@[0]@[fv] == val);
                        assert(first_domain@.take(i + 1)[i as int] == val);
                    }
                }
                if first_domain@.no_duplicates() {
                    assert forall|t1: int, t2: int|
                        0 <= t1 < t2 < solutions@.len() implies (#[trigger] solutions@[t1]@)[fv] != (
                        #[trigger] solutions@[t2]@)[fv] by {
                        assert(solutions@.take(before.len() as int)[t1] == before[t1]);
                        if t2 < before.len() {
                            assert(solutions@.take(before.len() as int)[t2] == before[t2]);
                        } else {
                            assert(solutions@[before.len() as int]@ == branch_sols@[0]@);
                            assert(branch_sols@[0]@[fv] == val);
                            assert(first_domain@.take(i as int).contains(before[t1]@[fv]));
                            let m = choose|m: int| 0 <= m < i && first_domain@.take(i as int)[m] == before[t1]@[fv];
                            assert(first_domain@[m] == first_domain@.take(i as int)[m]);
                        }
                    }
                }
            }
            assert forall|j: int, u: int|
                0 <= j < i + 1 && 0 <= u < results@[j].0@.len() implies holds_view(
                solutions@,
                (#[trigger] results@[j].0@[u])@,
            ) by {
                if j < i {
                    assert(holds_view(before, results@[j].0@[u]@));
                    let w = choose|w: int| 0 <= w < before.len() && before[w]@ == results@[j].0@[u]@;
                    assert(solutions@.take(before.len() as int)[w] == before[w]);
                    assert(0 <= w < solutions@.len() && solutions@[w]@ == results@[j].0@[u]@);
                } else {
                    assert(solutions@[before.len() + u]@ == branch_sols@[u]@);
                    assert(0 <= before.len() + u < solutions@.len());
                }
            }
        }
        i += 1;
    }
    proof {
        if problem.scopes_declared() {
            let fv = first_var@;
            assert(first_domain@ == problem.domains@[fv]);
            if find_all {
                assert forall|s: Map<Seq<char>, i64>| #[trigger] problem.is_solution(s) implies exists|w: int|
                    0 <= w < solutions@.len() && solutions@[w]@ == s by {
                    problem.lemma_complete_has(s, fv);
                    let j = choose|j: int| 0 <= j < first_domain@.len() && first_domain@[j] == s[fv];
                    assert(branch_ok(*problem, fv, first_domain@[j], find_all, results@[j].0@, results@[j].1));
                    assert(problem.is_solution(s) && s[fv] == first_domain@[j]);
                    let u = choose|u: int| 0 <= u < results@[j].0@.len() && results@[j].0@[u]@ == s;
                    assert(holds_view(solutions@, results@[j].0@[u]@));
                }
            } else {
                if solutions@.len() == 0 {
                    assert forall|s: Map<Seq<char>, i64>| !#[trigger] problem.is_solution(s) by {
                        if problem.is_solution(s) {
                            problem.lemma_complete_has(s, fv);
                            let j = choose|j: int| 0 <= j < first_domain@.len() && first_domain@[j] == s[fv];
                            assert(branch_ok(*problem, fv, first_domain@[j], find_all, results@[j].0@, results@[j].1));
                            assert(results@[j].0@.len() == 0);
                        }
                    }
                } else {
                    assert(problem.is_solution(solutions@[0]@));
                }
            }
        }
    }
    proof {
        if distinct_domains(problem.domains@) {
            lemma_distinct_at_done(views(solutions@), first_var@, first_domain@.take(i as int));
        }
    }
    stats.solutions_found = solutions.len() as u64;
    let ghost sols = solutions@;
    let r = (solutions, stats);
    assert(r.0@ == sols);
    assert(problem.var_names()[0] == first_var@);
    r
}

/// Runs the solver named `solver`: `naive`, `mrv` or `parallel`; any other
/// name means `mrv`.
pub fn solve_with(problem: &CSPProblem, solver: &str, find_all: bool) -> (r: (Vec<Assignment>, SolveStats))
    requires
        solver@ != "parallel"@ ==> problem.gaps_after_empty(),
        solver@ == "parallel"@ ==> problem.has_domains(),
        solver@ == "parallel"@ ==> problem.variables@.len() > 0,
    ensures
        forall|i: int| 0 <= i < r.0@.len() ==> problem.is_solution(#[trigger] r.0@[i]@),
        r.1.solutions_found == r.0@.len(),
        solver@ == "naive"@ && find_all ==> forall|s: Map<Seq<char>, i64>| #[trigger]
            problem.is_solution(s) ==> exists|i: int| 0 <= i < r.0@.len() && r.0@[i]@ == s,
        solver@ == "naive"@ && !find_all ==> (r.0@.len() == 0 <==> forall|s: Map<Seq<char>, i64>|
            !#[trigger] problem.is_solution(s)),
        solver@ == "naive"@ ==> views(r.0@) == naive_run(*problem, Map::empty(), find_all).3,
        distinct_domains(problem.domains@) ==> views(r.0@).no_duplicates(),
        !find_all && solver@ != "parallel"@ ==> r.0@.len() <= 1,
        !find_all && solver@ == "parallel"@ ==> r.0@.len() <= problem.domains@[problem.var_names()[0]].len(),
        find_all && problem.scopes_declared() ==> forall|s: Map<Seq<char>, i64>| #[trigger]
            problem.is_solution(s) ==> exists|i: int| 0 <= i < r.0@.len() && r.0@[i]@ == s,
        !find_all && problem.scopes_declared() ==> (r.0@.len() == 0 <==> forall|s: Map<Seq<char>, i64>|
            !#[trigger] problem.is_solution(s)),
{
    proof {
        reveal_strlit("naive");
        reveal_strlit("parallel");
    }
    let name = solver.to_owned();
    if name == "naive".to_owned() {
        assert("naive"@ != "parallel"@) by {
            assert("naive"@.len() != "parallel"@.len());
        }
        solve_naive(problem, find_all)
    } else if name == "parallel".to_owned() {
        solve_parallel(problem, find_all)
    } else {
        solve_mrv(problem, find_all)
    }
}

} // verus!
