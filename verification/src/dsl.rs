//! A small builder language for problems, and the classic models built with
//! it: a cryptarithm, the n-queens, sudoku and map colouring.
use vstd::prelude::*;

use std::ops::RangeInclusive;

use crate::constraint::{
    all_different, letter, names_of, str_names_of, to_strings, Constraint, ConstraintView, Relation,
    RelationView,
};
use crate::csp::{ac_family, arcs_supported, kept_in_order, range_domain, range_seq, simple_scopes, CSPProblem, Domain};
use crate::names::{copy_values, Assignment};
use crate::solve::{distinct_domains, lemma_filter_no_duplicates, solve_mrv, views, SolveStats};
use crate::text::{decimal, decimal_chars, push_all, str_chars, string_from_chars};
use crate::cryptarithm::{shown_value, shown_value_of};

verus! {

broadcast use vstd::seq_lib::group_seq_properties;

/// Gives the bounds of an inclusive range.
///
/// `RangeInclusive::into_inner` hands back the lower and the upper bound that
/// the range was made with; for a range that iteration has not exhausted these
/// are its model's `start` and `end`.
pub assume_specification<Idx>[ RangeInclusive::<Idx>::into_inner ](r: RangeInclusive<Idx>) -> (res: (
    Idx,
    Idx,
))
    requires
        !r@.exhausted,
    ensures
        res.0 == r@.start,
        res.1 == r@.end,
;

/// Tells whether an inclusive range of integers yields nothing.
///
/// Calls `RangeInclusive::is_empty`, which std documents as true when the
/// range contains no items, in particular once iteration has exhausted it;
/// a range not exhausted contains items exactly when its start is at most its
/// end.
#[verifier::external_body]
fn range_is_empty(r: &RangeInclusive<i64>) -> (b: bool)
    ensures
        b == (r@.exhausted || r@.start > r@.end),
{
    r.is_empty()
}

/// The integers an inclusive range yields, in order: none once iteration
/// has exhausted it.
pub open spec fn range_items(v: vstd::std_specs::range::RangeInclusiveView<i64>) -> Seq<i64> {
    if v.exhausted {
        Seq::empty()
    } else {
        range_seq(v.start as int, v.end as int)
    }
}

/// The integers of an inclusive range, in order.
pub fn range_values(range: RangeInclusive<i64>) -> (r: Domain)
    ensures
        r@ == range_items(range@),
{
    if range_is_empty(&range) {
        assert(range_items(range@) =~= Seq::<i64>::empty());
        Vec::new()
    } else {
        let (lo, hi) = range.into_inner();
        range_domain(lo, hi)
    }
}

/// The constraint that two variables differ, labelled `a ≠ b`.
pub open spec fn neq_view(a: Seq<char>, b: Seq<char>) -> ConstraintView {
    ConstraintView {
        scope: seq![a, b],
        name: a + seq![' ', '\u{2260}', ' '] + b,
        relation: RelationView::NotEqual(a, b),
    }
}

/// The pairs `(names[i], names[j])` for `j > i`, in order of `j`.
pub open spec fn neq_row(names: Seq<Seq<char>>, i: int) -> Seq<ConstraintView> {
    Seq::new((names.len() - i - 1) as nat, |t: int| neq_view(names[i], names[i + 1 + t]))
}

/// The pair constraints of the first `i` rows.
pub open spec fn neq_rows(names: Seq<Seq<char>>, i: int) -> Seq<ConstraintView>
    decreases i,
{
    if i <= 0 {
        Seq::empty()
    } else {
        neq_rows(names, i - 1) + neq_row(names, i - 1)
    }
}

/// The constraints `names[i] ≠ names[j]` for every `i < j`, in order.
pub open spec fn neq_pairs(names: Seq<Seq<char>>) -> Seq<ConstraintView> {
    neq_rows(names, names.len() as int)
}

/// The pair constraints of each group in turn.
pub open spec fn neq_groups(groups: Seq<Seq<Seq<char>>>) -> Seq<ConstraintView>
    decreases groups.len(),
{
    if groups.len() == 0 {
        Seq::empty()
    } else {
        neq_groups(groups.drop_last()) + neq_pairs(groups.last())
    }
}

/// A model: a named problem put together step by step.
pub struct CSPModel {
    pub name: String,
    pub problem: CSPProblem,
}

impl CSPModel {
    /// An empty model.
    pub fn new(name: &str) -> (r: Self)
        ensures
            r.name@ == name@,
            r.problem.var_names() == Seq::<Seq<char>>::empty(),
            r.problem.domains@ == Map::<Seq<char>, Seq<i64>>::empty(),
            r.problem.constraint_views() == Seq::<ConstraintView>::empty(),
            r.problem.constraints@ == Seq::<Constraint>::empty(),
    {
        let r = CSPModel { name: name.to_owned(), problem: CSPProblem::new() };
        assert(r.problem.var_names() =~= Seq::<Seq<char>>::empty());
        assert(r.problem.constraint_views() =~= Seq::<ConstraintView>::empty());
        r
    }

    /// Adds a variable whose domain is the integers of `range`.
    pub fn int_var(self, name: &str, range: RangeInclusive<i64>) -> (r: Self)
        ensures
            r.name == self.name,
            r.problem.var_names() == self.problem.var_names().push(name@),
            r.problem.domains@ == self.problem.domains@.insert(name@, range_items(range@)),
            r.problem.constraints@ == self.problem.constraints@,
    {
        let domain = range_values(range);
        let mut m = self;
        m.problem.add_variable(name, domain);
        m
    }

    /// Adds a variable with the given domain.
    pub fn int_var_domain(self, name: &str, domain: Domain) -> (r: Self)
        ensures
            r.name == self.name,
            r.problem.var_names() == self.problem.var_names().push(name@),
            r.problem.domains@ == self.problem.domains@.insert(name@, domain@),
            r.problem.constraints@ == self.problem.constraints@,
    {
        let mut m = self;
        m.problem.add_variable(name, domain);
        m
    }

    /// Adds a variable per name, each with the integers of `range`.
    pub fn int_vars(self, names: &[&str], range: RangeInclusive<i64>) -> (r: Self)
        ensures
            r.name == self.name,
            r.problem.var_names() == self.problem.var_names() + str_names_of(names@),
            forall|k: Seq<char>| #[trigger]
                r.problem.domains@.contains_key(k) <==> (self.problem.domains@.contains_key(k)
                    || str_names_of(names@).contains(k)),
            forall|k: Seq<char>|
                #![trigger r.problem.domains@[k]]
                r.problem.domains@.contains_key(k) ==> r.problem.domains@[k] == if str_names_of(
                    names@,
                ).contains(k) {
                    range_items(range@)
                } else {
                    self.problem.domains@[k]
                },
            r.problem.constraints@ == self.problem.constraints@,
    {
        let ghost dom = range_items(range@);
        let values = range_values(range);
        let ghost start = self.problem;
        let ghost ns = str_names_of(names@);
        let mut m = self;
        let mut i: usize = 0;
        while i < names.len()
            invariant
                i <= names@.len(),
                ns == str_names_of(names@),
                values@ == dom,
                m.name == self.name,
                m.problem.var_names() == start.var_names() + ns.take(i as int),
                forall|k: Seq<char>| #[trigger]
                    m.problem.domains@.contains_key(k) <==> (start.domains@.contains_key(k)
                        || ns.take(i as int).contains(k)),
                forall|k: Seq<char>|
                    #![trigger m.problem.domains@[k]]
                    m.problem.domains@.contains_key(k) ==> m.problem.domains@[k] == if ns.take(
                        i as int,
                    ).contains(k) {
                        dom
                    } else {
                        start.domains@[k]
                    },
                m.problem.constraints@ == start.constraints@,
            decreases names@.len() - i,
        {
            let domain = copy_values(&values);
            let ghost prev = m.problem.domains@;
            m.problem.add_variable(names[i], domain);
            proof {
                let x = names@[i as int]@;
                assert(ns.take(i + 1) =~= ns.take(i as int).push(x));
                assert(m.problem.var_names() =~= start.var_names() + ns.take(i + 1));
                assert forall|k: Seq<char>|
                    #![trigger m.problem.domains@[k]]
                    m.problem.domains@.contains_key(k) implies m.problem.domains@[k] == if ns.take(
                        i + 1,
                    ).contains(k) {
                        dom
                    } else {
                        start.domains@[k]
                    } by {
                    if k != x {
                        assert(ns.take(i + 1).contains(k) == ns.take(i as int).contains(k));
                        assert(prev.contains_key(k));
                        assert(m.problem.domains@[k] == prev[k]);
                        assert(prev[k] == if ns.take(i as int).contains(k) {
                            dom
                        } else {
                            start.domains@[k]
                        });
                    } else {
                        assert(ns.take(i + 1)[i as int] == x);
                        assert(ns.take(i + 1).contains(k));
                        assert(m.problem.domains@[k] == domain@);
                    }
                }
            }
            i += 1;
        }
        assert(ns.take(names@.len() as int) =~= ns);
        m
    }

    /// Adds a constraint over `vars`.
    pub fn constraint(self, name: &str, vars: &[&str], relation: Relation) -> (r: Self)
        ensures
            r.name == self.name,
            r.problem.variables@ == self.problem.variables@,
            r.problem.domains@ == self.problem.domains@,
            r.problem.constraints@.drop_last() == self.problem.constraints@,
            r.problem.constraints@.len() == self.problem.constraints@.len() + 1,
            r.problem.constraints@.last().scope() == str_names_of(vars@),
            r.problem.constraints@.last().name@ == name@,
            r.problem.constraints@.last().relation == relation,
    {
        let mut m = self;
        let mut v: Vec<&str> = Vec::new();
        let mut i: usize = 0;
        while i < vars.len()
            invariant
                i <= vars@.len(),
                v@ == vars@.take(i as int),
            decreases vars@.len() - i,
        {
            v.push(vars[i]);
            i += 1;
            assert(v@ =~= vars@.take(i as int));
        }
        assert(v@ =~= vars@);
        m.problem.add_constraint(v, name, relation);
        m
    }

    /// Adds the constraint that the variables take different values.
    pub fn all_different(self, vars: &[&str]) -> (r: Self)
        ensures
            r.name == self.name,
            r.problem.variables@ == self.problem.variables@,
            r.problem.domains@ == self.problem.domains@,
            r.problem.constraint_views() == self.problem.constraint_views().push(
                ConstraintView {
                    scope: str_names_of(vars@),
                    name: "AllDifferent"@,
                    relation: RelationView::AllDifferent(str_names_of(vars@)),
                },
            ),
    {
        let mut m = self;
        let c = all_different(vars);
        m.problem.constraints.push(c);
        assert(m.problem.constraint_views() =~= self.problem.constraint_views().push(c@));
        m
    }

    /// Adds, for every two of the variables, the constraint that they differ.
    pub fn pairwise_neq(self, vars: &[&str]) -> (r: Self)
        ensures
            r.name == self.name,
            r.problem.variables@ == self.problem.variables@,
            r.problem.domains@ == self.problem.domains@,
            r.problem.constraint_views() == self.problem.constraint_views() + neq_pairs(
                str_names_of(vars@),
            ),
    {
        let names = to_strings(vars);
        self.pairwise_neq_names(&names)
    }

    /// Adds, for every two of the named variables, the constraint that they
    /// differ.
    pub fn pairwise_neq_names(self, names: &Vec<String>) -> (r: Self)
        ensures
            r.name == self.name,
            r.problem.variables@ == self.problem.variables@,
            r.problem.domains@ == self.problem.domains@,
            r.problem.constraint_views() == self.problem.constraint_views() + neq_pairs(
                names_of(names@),
            ),
    {
        let ghost ns = names_of(names@);
        let ghost start = self.problem.constraint_views();
        let mut m = self;
        let n = names.len();
        let mut i: usize = 0;
        while i < n
            invariant
                i <= n,
                n == names@.len(),
                ns == names_of(names@),
                m.name == self.name,
                m.problem.variables@ == self.problem.variables@,
                m.problem.domains@ == self.problem.domains@,
                m.problem.constraint_views() == start + neq_rows(ns, i as int),
            decreases n - i,
        {
            let mut j: usize = i + 1;
            while j < n
                invariant
                    i < j <= n,
                    n == names@.len(),
                    ns == names_of(names@),
                    m.name == self.name,
                    m.problem.variables@ == self.problem.variables@,
                    m.problem.domains@ == self.problem.domains@,
                    m.problem.constraint_views() == start + neq_rows(ns, i as int) + neq_row(
                        ns,
                        i as int,
                    ).take(j - i - 1),
                decreases n - j,
            {
                let c = neq_constraint(&names[i], &names[j]);
                let ghost before = m.problem.constraint_views();
                m.problem.constraints.push(c);
                proof {
                    assert(ns[i as int] == names@[i as int]@ && ns[j as int] == names@[j as int]@);
                    assert(m.problem.constraint_views() =~= before.push(c@));
                    assert(neq_row(ns, i as int).take(j - i) =~= neq_row(ns, i as int).take(
                        j - i - 1,
                    ).push(neq_view(ns[i as int], ns[j as int])));
                    assert(m.problem.constraint_views() =~= start + neq_rows(ns, i as int)
                        + neq_row(ns, i as int).take(j - i));
                }
                j += 1;
            }
            assert(neq_row(ns, i as int).take(n - i - 1) =~= neq_row(ns, i as int));
            assert(neq_rows(ns, i + 1) == neq_rows(ns, i as int) + neq_row(ns, i as int));
            assert(m.problem.constraint_views() =~= start + neq_rows(ns, i + 1));
            i += 1;
        }
        m
    }
}

/// The constraint `a ≠ b`.
pub fn neq_constraint(a: &String, b: &String) -> (c: Constraint)
    ensures
        c@ == neq_view(a@, b@),
{
    let mut label = str_chars(a.as_str());
    label.push(' ');
    label.push('\u{2260}');
    label.push(' ');
    let bc = str_chars(b.as_str());
    push_all(&mut label, &bc);
    let mut vars: Vec<String> = Vec::new();
    vars.push(a.clone());
    vars.push(b.clone());
    let c = Constraint {
        vars,
        name: string_from_chars(&label),
        relation: Relation::NotEqual(a.clone(), b.clone()),
    };
    assert(c.scope() =~= seq![a@, b@]);
    assert(label@ =~= a@ + seq![' ', '\u{2260}', ' '] + b@);
    c
}


/// How many of the variables have exactly one value left.
pub open spec fn count_singletons(vars: Seq<Seq<char>>, d: Map<Seq<char>, Seq<i64>>) -> nat
    decreases vars.len(),
{
    if vars.len() == 0 {
        0
    } else {
        count_singletons(vars.drop_last(), d) + if d[vars.last()].len() == 1 {
            1nat
        } else {
            0nat
        }
    }
}

/// The smallest domain size among the variables (`usize::MAX` when none).
pub open spec fn min_size(vars: Seq<Seq<char>>, d: Map<Seq<char>, Seq<i64>>) -> int
    decreases vars.len(),
{
    if vars.len() == 0 {
        usize::MAX as int
    } else {
        let m = min_size(vars.drop_last(), d);
        if d[vars.last()].len() < m {
            d[vars.last()].len() as int
        } else {
            m
        }
    }
}

/// The largest domain size among the variables (zero when none).
pub open spec fn max_size(vars: Seq<Seq<char>>, d: Map<Seq<char>, Seq<i64>>) -> int
    decreases vars.len(),
{
    if vars.len() == 0 {
        0
    } else {
        let m = max_size(vars.drop_last(), d);
        if d[vars.last()].len() > m {
            d[vars.last()].len() as int
        } else {
            m
        }
    }
}

/// What the search for one solution found: whether arc consistency kept
/// every domain non-empty, a summary of the domains it left, the counters of
/// the search and the solution, if any.
pub struct FirstSearch {
    pub ac3_ok: bool,
    pub singleton_domains: usize,
    pub min_domain: usize,
    pub max_domain: usize,
    pub stats: Option<SolveStats>,
    pub solution: Option<Assignment>,
}

/// What the search for every solution found: its counters and the solutions.
pub struct AllSearch {
    pub stats: SolveStats,
    pub solutions: Vec<Assignment>,
}

impl CSPModel {
    /// Arc consistency, then a search for one solution with minimum remaining
    /// values and forward checking. When arc consistency empties a domain
    /// nothing is searched.
    pub fn search_first(self) -> (r: FirstSearch)
        requires
            self.problem.has_domains(),
            self.problem.scopes_have_domains(),
        ensures
            !r.ac3_ok ==> r.solution is None && r.stats is None,
            !r.ac3_ok ==> forall|e: Map<Seq<char>, Seq<i64>>| !(#[trigger] ac_family(self.problem, e)),
            simple_scopes(self.problem) ==> (r.ac3_ok <==> exists|e: Map<Seq<char>, Seq<i64>>| #[trigger]
                ac_family(self.problem, e)),
            !r.ac3_ok && self.problem.well_formed() ==> forall|s: Map<Seq<char>, i64>|
                !(#[trigger] self.problem.is_solution(s)),
            r.ac3_ok ==> r.stats is Some,
            r.solution matches Some(a) ==> self.problem.is_solution(a@),
            self.problem.well_formed() && (exists|s: Map<Seq<char>, i64>| #[trigger]
                self.problem.is_solution(s)) ==> r.ac3_ok && r.solution is Some,
            r.ac3_ok ==> exists|d: Map<Seq<char>, Seq<i64>>|
                {
                    &&& forall|k: Seq<char>| #[trigger]
                        d.contains_key(k) == self.problem.domains@.contains_key(k)
                    &&& forall|k: Seq<char>, v: i64|
                        d.contains_key(k) && #[trigger] d[k].contains(v)
                            ==> self.problem.domains@[k].contains(v)
                    &&& r.singleton_domains == count_singletons(self.problem.var_names(), d)
                    &&& r.min_domain == min_size(self.problem.var_names(), d)
                    &&& r.max_domain == max_size(self.problem.var_names(), d)
                    &&& kept_in_order(self.problem.domains@, d)
                    &&& forall|k: Seq<char>|
                        #![trigger d[k]]
                        d.contains_key(k) && d[k].len() == 0 ==> self.problem.domains@[k].len() == 0
                    &&& simple_scopes(self.problem) ==> arcs_supported(self.problem, d, d)
                },
    {
        let ghost orig = self.problem;
        let mut m = self;
        let ac3_ok = m.problem.ac3();
        if !ac3_ok {
            return FirstSearch {
                ac3_ok: false,
                singleton_domains: 0,
                min_domain: 0,
                max_domain: 0,
                stats: None,
                solution: None,
            };
        }
        proof {
            assert(m.problem.var_names() =~= orig.var_names());
            assert forall|i: int| 0 <= i < m.problem.var_names().len() implies m.problem.domains@.contains_key(
                #[trigger] m.problem.var_names()[i],
            ) by {
                assert(orig.domains@.contains_key(orig.var_names()[i]));
            }
        }
        let ghost vn = m.problem.var_names();
        let ghost d = m.problem.domains@;
        let mut singletons: usize = 0;
        let mut min_domain: usize = usize::MAX;
        let mut max_domain: usize = 0;
        let mut i: usize = 0;
        while i < m.problem.variables.len()
            invariant
                i <= m.problem.variables@.len(),
                vn == m.problem.var_names(),
                d == m.problem.domains@,
                m.problem.has_domains(),
                singletons == count_singletons(vn.take(i as int), d),
                singletons <= i,
                min_domain == min_size(vn.take(i as int), d),
                max_domain == max_size(vn.take(i as int), d),
            decreases m.problem.variables@.len() - i,
        {
            proof {
                assert(vn.take(i + 1).drop_last() =~= vn.take(i as int));
                assert(vn[i as int] == m.problem.variables@[i as int]@);
                assert(m.problem.domains@.contains_key(vn[i as int]));
            }
            let size = m.problem.domains.get_name(&m.problem.variables[i]).unwrap().len();
            if size == 1 {
                singletons += 1;
            }
            if size < min_domain {
                min_domain = size;
            }
            if size > max_domain {
                max_domain = size;
            }
            i += 1;
        }
        assert(vn.take(vn.len() as int) =~= vn);
        proof {
            assert(m.problem.var_names() =~= orig.var_names());
            if orig.well_formed() {
                assert(m.problem.scopes_declared());
            }
        }
        let (solutions, stats) = solve_mrv(&m.problem, false);
        proof {
            if orig.well_formed() && (exists|s: Map<Seq<char>, i64>| #[trigger] orig.is_solution(s)) {
                let s = choose|s: Map<Seq<char>, i64>| #[trigger] orig.is_solution(s);
                assert(m.problem.is_solution(s));
            }
        }
        let mut solutions = solutions;
        let solution = if solutions.len() > 0 {
            let s = solutions.swap_remove(0);
            proof {
                assert(m.problem.is_solution(s@));
                assert(m.problem.var_names() =~= orig.var_names());
            }
            Some(s)
        } else {
            None
        };
        FirstSearch {
            ac3_ok: true,
            singleton_domains: singletons,
            min_domain,
            max_domain,
            stats: Some(stats),
            solution,
        }
    }

    /// Arc consistency (whatever its outcome), then a search for every
    /// solution with minimum remaining values and forward checking.
    pub fn search_all(self) -> (r: AllSearch)
        requires
            self.problem.has_domains(),
            self.problem.scopes_have_domains(),
        ensures
            forall|i: int| 0 <= i < r.solutions@.len() ==> self.problem.is_solution(#[trigger] r.solutions@[i]@),
            r.stats.solutions_found == r.solutions@.len(),
            self.problem.well_formed() ==> forall|s: Map<Seq<char>, i64>| #[trigger]
                self.problem.is_solution(s) ==> exists|i: int|
                    0 <= i < r.solutions@.len() && r.solutions@[i]@ == s,
            distinct_domains(self.problem.domains@) ==> views(r.solutions@).no_duplicates(),
    {
        let ghost orig = self.problem;
        let mut m = self;
        let _ = m.problem.ac3();
        proof {
            if distinct_domains(orig.domains@) {
                assert forall|k: Seq<char>| #[trigger] m.problem.domains@.contains_key(k) implies m.problem.domains@[
                    k
                ].no_duplicates() by {
                    let d = m.problem.domains@;
                    assert(orig.domains@.contains_key(k));
                    assert(d[k] == orig.domains@[k].filter(|v: i64| d[k].contains(v)));
                    lemma_filter_no_duplicates(orig.domains@[k], |v: i64| d[k].contains(v));
                }
            }
        }
        proof {
            assert(m.problem.var_names() =~= orig.var_names());
            assert forall|i: int| 0 <= i < m.problem.var_names().len() implies m.problem.domains@.contains_key(
                #[trigger] m.problem.var_names()[i],
            ) by {
                assert(orig.domains@.contains_key(orig.var_names()[i]));
            }
        }
        proof {
            if orig.well_formed() {
                assert(m.problem.scopes_declared());
            }
        }
        let (solutions, stats) = solve_mrv(&m.problem, true);
        proof {
            if orig.well_formed() {
                assert forall|s: Map<Seq<char>, i64>| #[trigger] orig.is_solution(s) implies exists|i: int|
                    0 <= i < solutions@.len() && solutions@[i]@ == s by {
                    assert(m.problem.is_solution(s));
                }
            }
        }
        AllSearch { stats, solutions }
    }
}


/// String slices that borrow the given names.
fn name_refs(names: &Vec<String>) -> (r: Vec<&str>)
    ensures
        str_names_of(r@) == names_of(names@),
{
    let mut r: Vec<&str> = Vec::new();
    let mut i: usize = 0;
    while i < names.len()
        invariant
            i <= names@.len(),
            str_names_of(r@) == names_of(names@).take(i as int),
        decreases names@.len() - i,
    {
        let ghost prev = r@;
        r.push(names[i].as_str());
        assert(str_names_of(r@) =~= str_names_of(prev).push(names@[i as int]@));
        assert(names_of(names@).take(i + 1) =~= names_of(names@).take(i as int).push(
            names@[i as int]@,
        ));
        i += 1;
    }
    assert(names_of(names@).take(names@.len() as int) =~= names_of(names@));
    r
}

/// The letters of `ISA + ROA = TELO`, in the order of the model.
pub open spec fn isa_letters() -> Seq<char> {
    seq!['I', 'S', 'A', 'R', 'O', 'T', 'E', 'L']
}

/// The variable names of `ISA + ROA = TELO`, one per letter.
pub open spec fn isa_names() -> Seq<Seq<char>> {
    isa_letters().map_values(|c: char| letter(c))
}

/// The letters that begin a word of `ISA + ROA = TELO`.
pub open spec fn isa_leading(c: char) -> bool {
    c == 'I' || c == 'R' || c == 'T'
}

/// The cryptarithm `ISA + ROA = TELO`: a variable per letter (digits 1 to 9
/// for `I`, `R`, `T`, 0 to 9 for the others), all different, with the sum.
pub fn isa_roa_telo() -> (r: CSPModel)
    ensures
        r.name@ == "ISA + ROA = TELO"@,
        is_isa_problem(r.problem),
{
    let letters: Vec<char> = vec!['I', 'S', 'A', 'R', 'O', 'T', 'E', 'L'];
    assert(letters@ =~= isa_letters());
    let ghost names = isa_names();
    let mut m = CSPModel::new("ISA + ROA = TELO");
    let mut owned: Vec<String> = Vec::new();
    let mut i: usize = 0;
    while i < letters.len()
        invariant
            i <= letters@.len(),
            letters@ == isa_letters(),
            names == isa_names(),
            m.name@ == "ISA + ROA = TELO"@,
            names_of(owned@) == names.take(i as int),
            m.problem.var_names() == names.take(i as int),
            forall|k: Seq<char>| #[trigger]
                m.problem.domains@.contains_key(k) <==> m.problem.var_names().contains(k),
            forall|t: int|
                0 <= t < i ==> m.problem.domains@[letter(#[trigger] isa_letters()[t])] == if isa_leading(
                    isa_letters()[t],
                ) {
                    range_seq(1, 9)
                } else {
                    range_seq(0, 9)
                },
            m.problem.constraints@ == Seq::<Constraint>::empty(),
        decreases letters@.len() - i,
    {
        let c = letters[i];
        let domain = if c == 'I' || c == 'R' || c == 'T' {
            range_domain(1, 9)
        } else {
            range_domain(0, 9)
        };
        let name = crate::constraint::letter_name(c);
        let ghost prev = m.problem.domains@;
        let ghost prev_owned = owned@;
        m = m.int_var_domain(name.as_str(), domain);
        owned.push(name);
        proof {
            assert(names.take(i + 1) =~= names.take(i as int).push(letter(c)));
            assert(names_of(owned@) =~= names_of(prev_owned).push(letter(c)));
            assert forall|t: int|
                0 <= t < i + 1 implies m.problem.domains@[letter(#[trigger] isa_letters()[t])] == if isa_leading(
                isa_letters()[t],
            ) {
                range_seq(1, 9)
            } else {
                range_seq(0, 9)
            } by {
                if t < i {
                    assert(isa_letters()[t] != c);
                    assert(letter(isa_letters()[t])[0] != letter(c)[0]);
                }
            }
            assert forall|k: Seq<char>| #[trigger]
                m.problem.domains@.contains_key(k) <==> m.problem.var_names().contains(k) by {
                if k == letter(c) {
                    assert(m.problem.var_names()[i as int] == k);
                } else {
                    if m.problem.var_names().contains(k) {
                        let t = choose|t: int|
                            0 <= t < m.problem.var_names().len() && m.problem.var_names()[t] == k;
                        assert(names.take(i as int)[t] == k);
                    }
                    if names.take(i as int).contains(k) {
                        let t = choose|t: int| 0 <= t < i && names.take(i as int)[t] == k;
                        assert(m.problem.var_names()[t] == k);
                    }
                }
            }
        }
        i += 1;
    }
    assert(names.take(8) =~= names);
    let refs = name_refs(&owned);
    m = m.all_different(refs.as_slice());
    let left: Vec<Vec<char>> = vec![vec!['I', 'S', 'A'], vec!['R', 'O', 'A']];
    let right: Vec<char> = vec!['T', 'E', 'L', 'O'];
    let ghost cv_before = m.problem.constraint_views();
    m = m.constraint("ISA + ROA = TELO", refs.as_slice(), Relation::WordSum(left, right));
    proof {
        assert(m.problem.constraint_views() =~= cv_before.push(m.problem.constraints@.last()@)) by {
            assert(m.problem.constraints@ == m.problem.constraints@.drop_last().push(
                m.problem.constraints@.last(),
            ));
        }
        assert(left@.map_values(|w: Vec<char>| w@) =~= seq![seq!['I', 'S', 'A'], seq!['R', 'O', 'A']]);
        assert(right@ =~= seq!['T', 'E', 'L', 'O']);
    }
    m
}


/// The `ISA + ROA = TELO` benchmark as a bare problem: a variable per
/// letter (digits 1 to 9 for `I`, `R`, `T`, 0 to 9 for the others), all
/// different, with the sum.
pub fn build_isa_problem() -> (r: CSPProblem)
    ensures
        is_isa_problem(r),
{
    isa_roa_telo().problem
}

/// What the `ISA + ROA = TELO` problem is: a variable per letter in the order
/// `I S A R O T E L`, digits 1 to 9 for the leading letters and 0 to 9 for
/// the others, and the two constraints, all different and the sum.
pub open spec fn is_isa_problem(r: CSPProblem) -> bool {
    &&& r.var_names() == isa_names()
    &&& forall|i: int|
        0 <= i < 8 ==> r.domains@[letter(#[trigger] isa_letters()[i])] == if isa_leading(isa_letters()[i]) {
            range_seq(1, 9)
        } else {
            range_seq(0, 9)
        }
    &&& forall|k: Seq<char>| #[trigger] r.domains@.contains_key(k) <==> r.var_names().contains(k)
    &&& r.constraint_views() =~~= seq![
        ConstraintView {
            scope: isa_names(),
            name: "AllDifferent"@,
            relation: RelationView::AllDifferent(isa_names()),
        },
        ConstraintView {
            scope: isa_names(),
            name: "ISA + ROA = TELO"@,
            relation: RelationView::WordSum(
                seq![seq!['I', 'S', 'A'], seq!['R', 'O', 'A']],
                seq!['T', 'E', 'L', 'O'],
            ),
        },
    ]
}

/// The benchmark built directly and the one built as a model are the same
/// problem: the same variables in the same order, the same domains and the
/// same constraints.
pub proof fn lemma_isa_builds_agree(q: CSPProblem, p: CSPProblem)
    requires
        is_isa_problem(q),
        is_isa_problem(p),
    ensures
        q.var_names() == p.var_names(),
        q.domains@ == p.domains@,
        q.constraint_views() == p.constraint_views(),
{
    assert forall|k: Seq<char>| #[trigger] q.domains@.contains_key(k) implies q.domains@[k] == p.domains@[k] by {
        let vn = isa_names();
        assert(vn.contains(k));
        let i = choose|i: int| 0 <= i < vn.len() && vn[i] == k;
        assert(k == letter(isa_letters()[i]));
    }
    assert(q.domains@ =~= p.domains@);
}


/// A solution of the benchmark as an addition, `solution: ISA + ROA = TELO`
/// with each word replaced by the number it shows.
pub fn isa_solution_text(sol: &Assignment) -> (r: String)
    requires
        forall|i: int| 0 <= i < 8 ==> sol@.contains_key(letter(#[trigger] isa_letters()[i])),
    ensures
        r@ == "solution: "@ + decimal(shown_value(seq!['I', 'S', 'A'], sol@) as int) + " + "@ + decimal(
            shown_value(seq!['R', 'O', 'A'], sol@) as int,
        ) + " = "@ + decimal(shown_value(seq!['T', 'E', 'L', 'O'], sol@) as int),
{
    let isa: Vec<char> = vec!['I', 'S', 'A'];
    let roa: Vec<char> = vec!['R', 'O', 'A'];
    let telo: Vec<char> = vec!['T', 'E', 'L', 'O'];
    assert(isa@ =~= seq!['I', 'S', 'A']);
    assert(roa@ =~= seq!['R', 'O', 'A']);
    assert(telo@ =~= seq!['T', 'E', 'L', 'O']);
    let mut v: Vec<char> = str_chars("solution: ");
    push_all(&mut v, &decimal_chars(shown_value_of(&isa, sol)));
    push_all(&mut v, &str_chars(" + "));
    push_all(&mut v, &decimal_chars(shown_value_of(&roa, sol)));
    push_all(&mut v, &str_chars(" = "));
    push_all(&mut v, &decimal_chars(shown_value_of(&telo, sol)));
    string_from_chars(&v)
}

/// The name of the queen of column `i`.
pub open spec fn queen_name(i: int) -> Seq<char> {
    seq!['q'] + decimal(i)
}

/// The queens' names, column by column.
pub open spec fn queen_names(n: int) -> Seq<Seq<char>> {
    Seq::new(if n > 0 { n as nat } else { 0 }, |i: int| queen_name(i))
}

/// The constraint that the queens of columns `i` and `j` share no diagonal.
pub open spec fn diag_view(i: int, j: int) -> ConstraintView {
    ConstraintView {
        scope: seq![queen_name(i), queen_name(j)],
        name: seq!['n', 'o', '_', 'd', 'i', 'a', 'g', '('] + decimal(i) + seq![','] + decimal(j) + seq![
            ')',
        ],
        relation: RelationView::NoDiagonal(queen_name(i), queen_name(j), (j - i) as i64),
    }
}

/// The diagonal constraints of column `i` with the columns after it.
pub open spec fn diag_row(n: int, i: int) -> Seq<ConstraintView> {
    Seq::new((n - i - 1) as nat, |t: int| diag_view(i, i + 1 + t))
}

/// The diagonal constraints of the first `i` columns.
pub open spec fn diag_rows(n: int, i: int) -> Seq<ConstraintView>
    decreases i,
{
    if i <= 0 {
        Seq::empty()
    } else {
        diag_rows(n, i - 1) + diag_row(n, i - 1)
    }
}

fn queen_name_string(i: i64) -> (r: String)
    ensures
        r@ == queen_name(i as int),
{
    let mut cs: Vec<char> = Vec::new();
    cs.push('q');
    let d = decimal_chars(i);
    push_all(&mut cs, &d);
    assert(cs@ =~= queen_name(i as int));
    string_from_chars(&cs)
}

fn diag_label(i: i64, j: i64) -> (r: String)
    ensures
        r@ == diag_view(i as int, j as int).name,
{
    let mut cs: Vec<char> = vec!['n', 'o', '_', 'd', 'i', 'a', 'g', '('];
    let di = decimal_chars(i);
    push_all(&mut cs, &di);
    cs.push(',');
    let dj = decimal_chars(j);
    push_all(&mut cs, &dj);
    cs.push(')');
    assert(cs@ =~= diag_view(i as int, j as int).name);
    string_from_chars(&cs)
}

/// The n-queens puzzle: a variable per column (`q0`, `q1`, ...) giving its
/// queen's row, 1 to `n`; the rows all different; and no two queens on a
/// diagonal.
pub fn n_queens(n: i64) -> (r: CSPModel)
    ensures
        r.name@ == decimal(n as int) + seq!['-', 'Q', 'u', 'e', 'e', 'n', 's'],
        r.problem.var_names() == queen_names(n as int),
        forall|k: Seq<char>| #[trigger] r.problem.domains@.contains_key(k) <==> queen_names(n as int).contains(k),
        forall|k: Seq<char>|
            #![trigger r.problem.domains@[k]]
            r.problem.domains@.contains_key(k) ==> r.problem.domains@[k] == range_seq(1, n as int),
        r.problem.constraint_views() == seq![
            ConstraintView {
                scope: queen_names(n as int),
                name: "AllDifferent"@,
                relation: RelationView::AllDifferent(queen_names(n as int)),
            },
        ] + diag_rows(n as int, if n > 0 { n as int } else { 0 }),
{
    let ghost qn = queen_names(n as int);
    let mut owned: Vec<String> = Vec::new();
    let mut i: i64 = 0;
    while i < n
        invariant
            0 <= i,
            n > 0 ==> i <= n,
            n <= 0 ==> i == 0,
            names_of(owned@) == Seq::new(i as nat, |t: int| queen_name(t)),
        decreases n - i,
    {
        let ghost prev = owned@;
        owned.push(queen_name_string(i));
        assert(names_of(owned@) =~= Seq::new((i + 1) as nat, |t: int| queen_name(t))) by {
            assert(names_of(owned@) =~= names_of(prev).push(queen_name(i as int)));
        }
        i += 1;
    }
    assert(names_of(owned@) =~= qn);
    let dn = decimal_chars(n);
    let mut label = dn;
    let suffix: Vec<char> = vec!['-', 'Q', 'u', 'e', 'e', 'n', 's'];
    push_all(&mut label, &suffix);
    let model_name = string_from_chars(&label);
    let mut m = CSPModel::new(model_name.as_str());
    let refs = name_refs(&owned);
    m = m.int_vars(refs.as_slice(), 1..=n);
    m = m.all_different(refs.as_slice());
    assert(m.problem.constraint_views() =~= seq![
        ConstraintView {
            scope: qn,
            name: "AllDifferent"@,
            relation: RelationView::AllDifferent(qn),
        },
    ]);
    let ghost head = m.problem.constraint_views();
    let count = owned.len();
    let mut i: i64 = 0;
    while i < n
        invariant
            0 <= i,
            n > 0 ==> i <= n,
            n <= 0 ==> i == 0,
            count == owned@.len(),
            n > 0 ==> count == n,
            names_of(owned@) == qn,
            qn == queen_names(n as int),
            m.name@ == decimal(n as int) + seq!['-', 'Q', 'u', 'e', 'e', 'n', 's'],
            m.problem.var_names() == qn,
            forall|k: Seq<char>| #[trigger] m.problem.domains@.contains_key(k) <==> qn.contains(k),
            forall|k: Seq<char>|
                #![trigger m.problem.domains@[k]]
                m.problem.domains@.contains_key(k) ==> m.problem.domains@[k] == range_seq(1, n as int),
            m.problem.constraint_views() == head + diag_rows(n as int, i as int),
        decreases n - i,
    {
        let mut j: i64 = i + 1;
        while j < n
            invariant
                0 <= i < j <= n,
                count == owned@.len(),
                count == n,
                names_of(owned@) == qn,
                qn == queen_names(n as int),
                m.name@ == decimal(n as int) + seq!['-', 'Q', 'u', 'e', 'e', 'n', 's'],
                m.problem.var_names() == qn,
                forall|k: Seq<char>| #[trigger] m.problem.domains@.contains_key(k) <==> qn.contains(k),
                forall|k: Seq<char>|
                    #![trigger m.problem.domains@[k]]
                    m.problem.domains@.contains_key(k) ==> m.problem.domains@[k] == range_seq(1, n as int),
                m.problem.constraint_views() == head + diag_rows(n as int, i as int) + diag_row(
                    n as int,
                    i as int,
                ).take(j - i - 1),
            decreases n - j,
        {
            let vi = owned[i as usize].clone();
            let vj = owned[j as usize].clone();
            let mut vars: Vec<String> = Vec::new();
            vars.push(owned[i as usize].clone());
            vars.push(owned[j as usize].clone());
            let c = Constraint {
                vars,
                name: diag_label(i, j),
                relation: Relation::NoDiagonal(vi, vj, j - i),
            };
            let ghost before = m.problem.constraint_views();
            m.problem.constraints.push(c);
            proof {
                assert(names_of(owned@)[i as int] == owned@[i as int]@);
                assert(names_of(owned@)[j as int] == owned@[j as int]@);
                assert(c.scope() =~= seq![queen_name(i as int), queen_name(j as int)]);
                assert(c@ == diag_view(i as int, j as int));
                assert(m.problem.constraint_views() =~= before.push(c@));
                assert(diag_row(n as int, i as int).take(j - i) =~= diag_row(n as int, i as int).take(
                    j - i - 1,
                ).push(diag_view(i as int, j as int)));
                assert(m.problem.constraint_views() =~= head + diag_rows(n as int, i as int) + diag_row(
                    n as int,
                    i as int,
                ).take(j - i));
            }
            j += 1;
        }
        assert(diag_row(n as int, i as int).take(n - i - 1) =~= diag_row(n as int, i as int));
        assert(m.problem.constraint_views() =~= head + diag_rows(n as int, i + 1));
        i += 1;
    }
    m
}

/// The map colouring problem: a variable per region with colours 1 to
/// `n_colors`, and for each edge the constraint that its two regions differ.
pub fn graph_coloring(regions: &[&str], edges: &[(&str, &str)], n_colors: i64) -> (r: CSPModel)
    ensures
        r.name@ == "Graph Coloring"@,
        r.problem.var_names() == str_names_of(regions@),
        forall|k: Seq<char>| #[trigger] r.problem.domains@.contains_key(k) <==> str_names_of(regions@).contains(k),
        forall|k: Seq<char>|
            #![trigger r.problem.domains@[k]]
            r.problem.domains@.contains_key(k) ==> r.problem.domains@[k] == range_seq(1, n_colors as int),
        r.problem.constraint_views() == edges@.map_values(
            |e: (&str, &str)| neq_view(e.0@, e.1@),
        ),
{
    let mut m = CSPModel::new("Graph Coloring");
    m = m.int_vars(regions, 1..=n_colors);
    let mut i: usize = 0;
    while i < edges.len()
        invariant
            i <= edges@.len(),
            m.name@ == "Graph Coloring"@,
            m.problem.var_names() == str_names_of(regions@),
            forall|k: Seq<char>| #[trigger] m.problem.domains@.contains_key(k) <==> str_names_of(regions@).contains(k),
            forall|k: Seq<char>|
                #![trigger m.problem.domains@[k]]
                m.problem.domains@.contains_key(k) ==> m.problem.domains@[k] == range_seq(1, n_colors as int),
            m.problem.constraint_views() == edges@.take(i as int).map_values(
                |e: (&str, &str)| neq_view(e.0@, e.1@),
            ),
        decreases edges@.len() - i,
    {
        let (a, b) = edges[i];
        let c = neq_constraint(&a.to_owned(), &b.to_owned());
        let ghost before = m.problem.constraint_views();
        m.problem.constraints.push(c);
        assert(m.problem.constraint_views() =~= before.push(c@));
        assert(edges@.take(i + 1) =~= edges@.take(i as int).push(edges@[i as int]));
        assert(m.problem.constraint_views() =~= edges@.take(i + 1).map_values(
            |e: (&str, &str)| neq_view(e.0@, e.1@),
        ));
        i += 1;
    }
    assert(edges@.take(edges@.len() as int) =~= edges@);
    m
}


/// The name of the sudoku cell in row `r` and column `c`.
pub open spec fn cell_name(r: int, c: int) -> Seq<char> {
    seq!['c'] + decimal(r) + seq!['_'] + decimal(c)
}

/// The cells' names, row by row.
pub open spec fn sudoku_names() -> Seq<Seq<char>> {
    Seq::new(81, |k: int| cell_name(k / 9, k % 9))
}

/// The cells of row `r`.
pub open spec fn row_group(r: int) -> Seq<Seq<char>> {
    Seq::new(9, |c: int| cell_name(r, c))
}

/// The cells of column `c`.
pub open spec fn col_group(c: int) -> Seq<Seq<char>> {
    Seq::new(9, |r: int| cell_name(r, c))
}

/// The cells of box `b` (boxes row by row, cells row by row within a box).
pub open spec fn box_group(b: int) -> Seq<Seq<char>> {
    Seq::new(9, |k: int| cell_name((b / 3) * 3 + k / 3, (b % 3) * 3 + k % 3))
}

/// The domain of a cell: the given digit, or 1 to 9 when the cell is blank (0).
pub open spec fn cell_domain(v: i64) -> Seq<i64> {
    if v != 0 {
        seq![v]
    } else {
        range_seq(1, 9)
    }
}

proof fn lemma_cell_name_injective(r: int, c: int, r2: int, c2: int)
    requires
        0 <= r < 9,
        0 <= c < 9,
        0 <= r2 < 9,
        0 <= c2 < 9,
        cell_name(r, c) == cell_name(r2, c2),
    ensures
        r == r2,
        c == c2,
{
    reveal_with_fuel(crate::text::decimal_nat, 2);
    assert(cell_name(r, c)[1] == crate::text::digit_char(r as nat));
    assert(cell_name(r2, c2)[1] == crate::text::digit_char(r2 as nat));
    assert(cell_name(r, c)[3] == crate::text::digit_char(c as nat));
    assert(cell_name(r2, c2)[3] == crate::text::digit_char(c2 as nat));
    assert(((48 + r) as char) as int == 48 + r);
    assert(((48 + r2) as char) as int == 48 + r2);
    assert(((48 + c) as char) as int == 48 + c);
    assert(((48 + c2) as char) as int == 48 + c2);
}

fn cell_name_string(r: i64, c: i64) -> (s: String)
    ensures
        s@ == cell_name(r as int, c as int),
{
    let mut cs: Vec<char> = Vec::new();
    cs.push('c');
    let dr = decimal_chars(r);
    push_all(&mut cs, &dr);
    cs.push('_');
    let dc = decimal_chars(c);
    push_all(&mut cs, &dc);
    assert(cs@ =~= cell_name(r as int, c as int));
    string_from_chars(&cs)
}

/// The names of a group of nine cells, the `k`-th at `cell(k)`.
fn group_names(kind: u8, g: i64) -> (r: Vec<String>)
    requires
        kind < 3,
        0 <= g < 9,
    ensures
        names_of(r@) == if kind == 0 {
            row_group(g as int)
        } else if kind == 1 {
            col_group(g as int)
        } else {
            box_group(g as int)
        },
{
    let ghost target = if kind == 0 {
        row_group(g as int)
    } else if kind == 1 {
        col_group(g as int)
    } else {
        box_group(g as int)
    };
    let mut r: Vec<String> = Vec::new();
    let mut k: i64 = 0;
    while k < 9
        invariant
            0 <= k <= 9,
            kind < 3,
            0 <= g < 9,
            target == (if kind == 0 {
                row_group(g as int)
            } else if kind == 1 {
                col_group(g as int)
            } else {
                box_group(g as int)
            }),
            names_of(r@) == target.take(k as int),
        decreases 9 - k,
    {
        let name = if kind == 0 {
            cell_name_string(g, k)
        } else if kind == 1 {
            cell_name_string(k, g)
        } else {
            cell_name_string((g / 3) * 3 + k / 3, (g % 3) * 3 + k % 3)
        };
        let ghost prev = r@;
        r.push(name);
        assert(names_of(r@) =~= names_of(prev).push(name@));
        assert(target.take(k + 1) =~= target.take(k as int).push(target[k as int]));
        k += 1;
    }
    assert(target.take(9) =~= target);
    r
}

/// A sudoku: a variable per cell (`c<row>_<column>`), fixed to the given
/// digit or ranging over 1 to 9 when blank (0); and for each row, column and
/// box, the constraint that every two of its cells differ.
pub fn sudoku(grid: [[i64; 9]; 9]) -> (r: CSPModel)
    ensures
        r.name@ == "Sudoku"@,
        r.problem.var_names() == sudoku_names(),
        forall|k: Seq<char>| #[trigger] r.problem.domains@.contains_key(k) <==> sudoku_names().contains(k),
        forall|row: int, col: int|
            0 <= row < 9 && 0 <= col < 9 ==> r.problem.domains@[#[trigger] cell_name(row, col)]
                == cell_domain(grid@[row]@[col]),
        r.problem.constraint_views() == neq_groups(Seq::new(9, |g: int| row_group(g))) + neq_groups(
            Seq::new(9, |g: int| col_group(g)),
        ) + neq_groups(Seq::new(9, |g: int| box_group(g))),
{
    let ghost names = sudoku_names();
    let mut m = CSPModel::new("Sudoku");
    let mut k: i64 = 0;
    while k < 81
        invariant
            0 <= k <= 81,
            names == sudoku_names(),
            m.name@ == "Sudoku"@,
            m.problem.var_names() == names.take(k as int),
            forall|key: Seq<char>| #[trigger] m.problem.domains@.contains_key(key) <==> names.take(k as int).contains(key),
            forall|t: int|
                0 <= t < k ==> m.problem.domains@[#[trigger] cell_name(t / 9, t % 9)] == cell_domain(
                    grid@[t / 9]@[t % 9],
                ),
            m.problem.constraints@ == Seq::<Constraint>::empty(),
        decreases 81 - k,
    {
        let row = k / 9;
        let col = k % 9;
        let name = cell_name_string(row, col);
        let cell = grid[row as usize][col as usize];
        let ghost prev = m.problem.domains@;
        if cell != 0 {
            let mut d: Vec<i64> = Vec::new();
            d.push(cell);
            m = m.int_var_domain(name.as_str(), d);
        } else {
            m = m.int_var(name.as_str(), 1..=9);
        }
        proof {
            assert(names[k as int] == name@);
            assert(names.take(k + 1) =~= names.take(k as int).push(name@));
            assert(m.problem.domains@[name@] == cell_domain(grid@[row as int]@[col as int]));
            assert forall|t: int| 0 <= t < k + 1 implies m.problem.domains@[#[trigger] cell_name(t / 9, t % 9)]
                == cell_domain(grid@[t / 9]@[t % 9]) by {
                if t < k {
                    if cell_name(t / 9, t % 9) == name@ {
                        lemma_cell_name_injective(t / 9, t % 9, row as int, col as int);
                    }
                    assert(prev[cell_name(t / 9, t % 9)] == cell_domain(grid@[t / 9]@[t % 9]));
                }
            }
        }
        k += 1;
    }
    assert(names.take(81) =~= names);
    proof {
        assert forall|row: int, col: int|
            0 <= row < 9 && 0 <= col < 9 implies m.problem.domains@[#[trigger] cell_name(row, col)]
            == cell_domain(grid@[row]@[col]) by {
            let t = row * 9 + col;
            assert(t / 9 == row && t % 9 == col);
        }
    }
    let ghost rows = Seq::new(9, |g: int| row_group(g));
    let ghost cols = Seq::new(9, |g: int| col_group(g));
    let ghost boxes = Seq::new(9, |g: int| box_group(g));
    let mut kind: u8 = 0;
    while kind < 3
        invariant
            0 <= kind <= 3,
            m.name@ == "Sudoku"@,
            m.problem.var_names() == sudoku_names(),
            forall|key: Seq<char>| #[trigger] m.problem.domains@.contains_key(key) <==> sudoku_names().contains(key),
            forall|row: int, col: int|
                0 <= row < 9 && 0 <= col < 9 ==> m.problem.domains@[#[trigger] cell_name(row, col)]
                    == cell_domain(grid@[row]@[col]),
            rows == Seq::new(9, |g: int| row_group(g)),
            cols == Seq::new(9, |g: int| col_group(g)),
            boxes == Seq::new(9, |g: int| box_group(g)),
            m.problem.constraint_views() == (if kind == 0 {
                Seq::<ConstraintView>::empty()
            } else if kind == 1 {
                neq_groups(rows)
            } else if kind == 2 {
                neq_groups(rows) + neq_groups(cols)
            } else {
                neq_groups(rows) + neq_groups(cols) + neq_groups(boxes)
            }),
        decreases 3 - kind,
    {
        let ghost groups = if kind == 0 {
            rows
        } else if kind == 1 {
            cols
        } else {
            boxes
        };
        let ghost base = m.problem.constraint_views();
        let mut g: i64 = 0;
        while g < 9
            invariant
                0 <= g <= 9,
                kind < 3,
                groups == (if kind == 0 {
                    rows
                } else if kind == 1 {
                    cols
                } else {
                    boxes
                }),
                rows == Seq::new(9, |g: int| row_group(g)),
                cols == Seq::new(9, |g: int| col_group(g)),
                boxes == Seq::new(9, |g: int| box_group(g)),
                m.name@ == "Sudoku"@,
                m.problem.var_names() == sudoku_names(),
                forall|key: Seq<char>| #[trigger] m.problem.domains@.contains_key(key) <==> sudoku_names().contains(key),
                forall|row: int, col: int|
                    0 <= row < 9 && 0 <= col < 9 ==> m.problem.domains@[#[trigger] cell_name(row, col)]
                        == cell_domain(grid@[row]@[col]),
                m.problem.constraint_views() == base + neq_groups(groups.take(g as int)),
            decreases 9 - g,
        {
            let names = group_names(kind, g);
            let ghost vars_before = m.problem.var_names();
            m = m.pairwise_neq_names(&names);
            proof {
                assert(names_of(names@) == groups[g as int]);
                assert(groups.take(g + 1).drop_last() =~= groups.take(g as int));
                assert(m.problem.var_names() =~= vars_before);
                assert(m.problem.constraint_views() =~= base + neq_groups(groups.take(g + 1)));
            }
            g += 1;
        }
        assert(groups.take(9) =~= groups);
        kind += 1;
    }
    m
}

} // verus!
