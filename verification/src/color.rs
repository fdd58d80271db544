//! Map colouring by plain backtracking: each variable (a region) gets one of
//! the colours so that no region shares its colour with a neighbour that was
//! coloured before it.
use vstd::prelude::*;

use crate::constraint::str_names_of;
use crate::names::{
    assoc_has, assoc_map, keys_unique, lemma_assoc_index, lemma_assoc_len, lemma_assoc_push,
    lemma_assoc_remove, lemma_assoc_update,
};

verus! {

/// Entries of a colouring, names and colours taken by their characters.
pub open spec fn color_pairs(s: Seq<(String, String)>) -> Seq<(Seq<char>, Seq<char>)> {
    s.map_values(|e: (String, String)| (e.0@, e.1@))
}

/// A colour name for each region name.
#[derive(Debug)]
pub struct Coloring {
    entries: Vec<(String, String)>,
}

impl Coloring {
    /// The entries, taken by their characters.
    pub closed spec fn pairs(&self) -> Seq<(Seq<char>, Seq<char>)> {
        color_pairs(self.entries@)
    }

    #[verifier::type_invariant]
    closed spec fn wf(&self) -> bool {
        keys_unique(self.pairs())
    }
}

impl View for Coloring {
    type V = Map<Seq<char>, Seq<char>>;

    closed spec fn view(&self) -> Map<Seq<char>, Seq<char>> {
        assoc_map(self.pairs())
    }
}

impl Coloring {
    /// The colouring that colours nothing.
    pub fn new() -> (r: Self)
        ensures
            r@ == Map::<Seq<char>, Seq<char>>::empty(),
    {
        let r = Coloring { entries: Vec::new() };
        assert(r@ =~= Map::<Seq<char>, Seq<char>>::empty());
        r
    }

    /// How many regions are coloured.
    pub fn len(&self) -> (r: usize)
        ensures
            self@.dom().finite(),
            r == self@.dom().len(),
    {
        proof {
            use_type_invariant(self);
            lemma_assoc_len(self.pairs());
        }
        self.entries.len()
    }

    fn find(&self, key: &String) -> (r: Option<usize>)
        ensures
            match r {
                Some(i) => i < self.entries@.len() && self.pairs()[i as int].0 == key@
                    && self@.contains_key(key@) && self@[key@] == self.entries@[i as int].1@,
                None => !self@.contains_key(key@),
            },
    {
        proof {
            use_type_invariant(self);
        }
        let mut i: usize = 0;
        while i < self.entries.len()
            invariant
                i <= self.entries@.len(),
                keys_unique(self.pairs()),
                forall|j: int| 0 <= j < i ==> self.pairs()[j].0 != key@,
            decreases self.entries@.len() - i,
        {
            if self.entries[i].0 == *key {
                proof {
                    lemma_assoc_index(self.pairs(), i as int);
                }
                return Some(i);
            }
            i += 1;
        }
        proof {
            if self@.contains_key(key@) {
                let j = choose|j: int|
                    0 <= j < self.pairs().len() && #[trigger] self.pairs()[j].0 == key@;
            }
        }
        None
    }

    /// Whether the region `key` is coloured.
    pub fn contains_key(&self, key: &str) -> (r: bool)
        ensures
            r == self@.contains_key(key@),
    {
        let k = key.to_owned();
        self.find(&k).is_some()
    }

    /// The colour of the region `key`, if it has one.
    pub fn get(&self, key: &str) -> (r: Option<&String>)
        ensures
            match r {
                Some(c) => self@.contains_key(key@) && c@ == self@[key@],
                None => !self@.contains_key(key@),
            },
    {
        let k = key.to_owned();
        match self.find(&k) {
            Some(i) => Some(&self.entries[i].1),
            None => None,
        }
    }

    /// Colours the region `key` with `color`, replacing any colour it had.
    pub fn insert(&mut self, key: &str, color: &str)
        ensures
            final(self)@ == old(self)@.insert(key@, color@),
    {
        proof {
            use_type_invariant(&*self);
        }
        let key = key.to_owned();
        let color = color.to_owned();
        match self.find(&key) {
            Some(i) => {
                let ghost p = self.pairs();
                proof {
                    lemma_assoc_update(p, i as int, color@);
                }
                let mut e: Vec<(String, String)> = Vec::new();
                std::mem::swap(&mut e, &mut self.entries);
                e.set(i, (key, color));
                assert(color_pairs(e@) =~= p.update(i as int, (p[i as int].0, color@)));
                self.entries = e;
                assert(self.pairs() =~= p.update(i as int, (p[i as int].0, color@)));
            },
            None => {
                let ghost p = self.pairs();
                let ghost k = key@;
                proof {
                    assert(!assoc_has(p, k));
                    lemma_assoc_push(p, k, color@);
                }
                let ghost c = color@;
                let mut e: Vec<(String, String)> = Vec::new();
                std::mem::swap(&mut e, &mut self.entries);
                e.push((key, color));
                assert(color_pairs(e@) =~= p.push((k, c)));
                self.entries = e;
                assert(self.pairs() =~= p.push((k, c)));
            },
        }
    }

    /// Takes the colour of the region `key` away, if it has one.
    pub fn remove(&mut self, key: &str)
        ensures
            final(self)@ == old(self)@.remove(key@),
    {
        proof {
            use_type_invariant(&*self);
        }
        let key = key.to_owned();
        match self.find(&key) {
            Some(i) => {
                let ghost p = self.pairs();
                proof {
                    lemma_assoc_remove(p, i as int);
                }
                let mut e: Vec<(String, String)> = Vec::new();
                std::mem::swap(&mut e, &mut self.entries);
                let _ = e.remove(i);
                assert(color_pairs(e@) =~= p.remove(i as int));
                self.entries = e;
                assert(self.pairs() =~= p.remove(i as int));
            },
            None => {
                assert(old(self)@.remove(key@) =~= old(self)@);
            },
        }
    }
}

/// The neighbours listed for region `v`: those of the last entry named `v`
/// (a later entry for a region replaces an earlier one), or none.
pub open spec fn neighbors_of(ns: Seq<(&str, Vec<&str>)>, v: Seq<char>) -> Seq<Seq<char>>
    decreases ns.len(),
{
    if ns.len() == 0 {
        Seq::empty()
    } else if ns.last().0@ == v {
        str_names_of(ns.last().1@)
    } else {
        neighbors_of(ns.drop_last(), v)
    }
}

proof fn lemma_neighbors_at(ns: Seq<(&str, Vec<&str>)>, v: Seq<char>, i: int)
    requires
        0 <= i < ns.len(),
        ns[i].0@ == v,
        forall|j: int| i < j < ns.len() ==> (#[trigger] ns[j]).0@ != v,
    ensures
        neighbors_of(ns, v) == str_names_of(ns[i].1@),
    decreases ns.len(),
{
    if i < ns.len() - 1 {
        assert(ns.last() == ns[ns.len() - 1]);
        lemma_neighbors_at(ns.drop_last(), v, i);
        assert(ns.drop_last()[i] == ns[i]);
    }
}

proof fn lemma_neighbors_none(ns: Seq<(&str, Vec<&str>)>, v: Seq<char>)
    requires
        forall|j: int| 0 <= j < ns.len() ==> (#[trigger] ns[j]).0@ != v,
    ensures
        neighbors_of(ns, v) == Seq::<Seq<char>>::empty(),
    decreases ns.len(),
{
    if ns.len() > 0 {
        assert(ns.last() == ns[ns.len() - 1]);
        assert forall|j: int| 0 <= j < ns.len() - 1 implies (#[trigger] ns.drop_last()[j]).0@ != v by {
            assert(ns.drop_last()[j] == ns[j]);
        }
        lemma_neighbors_none(ns.drop_last(), v);
    }
}

/// The index of the entry that lists the neighbours of `var`, if any.
fn neighbor_entry(neighbors: &[(&str, Vec<&str>)], var: &str) -> (r: Option<usize>)
    ensures
        match r {
            Some(i) => i < neighbors@.len() && neighbors_of(neighbors@, var@) == str_names_of(
                neighbors@[i as int].1@,
            ),
            None => neighbors_of(neighbors@, var@) == Seq::<Seq<char>>::empty(),
        },
{
    let key = var.to_owned();
    let mut i: usize = neighbors.len();
    while i > 0
        invariant
            i <= neighbors@.len(),
            key@ == var@,
            forall|j: int| i <= j < neighbors@.len() ==> (#[trigger] neighbors@[j]).0@ != var@,
        decreases i,
    {
        i -= 1;
        let name = neighbors[i].0.to_owned();
        if name == key {
            proof {
                lemma_neighbors_at(neighbors@, var@, i as int);
            }
            return Some(i);
        }
    }
    proof {
        lemma_neighbors_none(neighbors@, var@);
    }
    None
}

/// Giving region `v` the colour `c` clashes with no coloured neighbour of `v`.
pub open spec fn color_allowed(
    m: Map<Seq<char>, Seq<char>>,
    v: Seq<char>,
    c: Seq<char>,
    ns: Seq<(&str, Vec<&str>)>,
) -> bool {
    forall|t: int|
        0 <= t < neighbors_of(ns, v).len() ==> !(m.contains_key(#[trigger] neighbors_of(ns, v)[t])
            && m[neighbors_of(ns, v)[t]] == c)
}

/// Whether `var` may take the colour `value`: no neighbour of `var` that is
/// already coloured has that colour.
pub fn is_valid(assignment: &Coloring, var: &str, value: &str, neighbors: &[(&str, Vec<&str>)]) -> (r:
    bool)
    ensures
        r == color_allowed(assignment@, var@, value@, neighbors@),
{
    match neighbor_entry(neighbors, var) {
        None => true,
        Some(e) => {
            let list = &neighbors[e].1;
            let ghost nbs = neighbors_of(neighbors@, var@);
            let wanted = value.to_owned();
            let mut k: usize = 0;
            while k < list.len()
                invariant
                    k <= list@.len(),
                    nbs == str_names_of(list@),
                    nbs == neighbors_of(neighbors@, var@),
                    wanted@ == value@,
                    forall|t: int|
                        0 <= t < k ==> !(assignment@.contains_key(#[trigger] nbs[t])
                            && assignment@[nbs[t]] == value@),
                decreases list@.len() - k,
            {
                match assignment.get(list[k]) {
                    Some(c) => {
                        if *c == wanted {
                            assert(!color_allowed(assignment@, var@, value@, neighbors@)) by {
                                assert(neighbors_of(neighbors@, var@)[k as int] == nbs[k as int]);
                            }
                            return false;
                        }
                    },
                    None => {},
                }
                k += 1;
            }
            true
        },
    }
}

/// Region `n` is coloured before the region at position `i` of `vars`: it is
/// coloured in `base`, or stands earlier in `vars`.
pub open spec fn colored_before(
    base: Map<Seq<char>, Seq<char>>,
    vars: Seq<Seq<char>>,
    i: int,
    n: Seq<char>,
) -> bool {
    base.contains_key(n) || vars.take(i).contains(n)
}

/// In `m`, the region at position `i` of `vars` has one of `colors`, and no
/// neighbour coloured before it shares that colour.
pub open spec fn region_ok(
    m: Map<Seq<char>, Seq<char>>,
    base: Map<Seq<char>, Seq<char>>,
    vars: Seq<Seq<char>>,
    colors: Seq<Seq<char>>,
    ns: Seq<(&str, Vec<&str>)>,
    i: int,
) -> bool {
    &&& colors.contains(m[vars[i]])
    &&& forall|t: int|
        0 <= t < neighbors_of(ns, vars[i]).len() && colored_before(
            base,
            vars,
            i,
            #[trigger] neighbors_of(ns, vars[i])[t],
        ) ==> m[neighbors_of(ns, vars[i])[t]] != m[vars[i]]
}

/// `m` is a colouring that backtracking from `base` may reach: it colours
/// exactly the regions of `vars`, keeps every colour of `base`, and each
/// region that `base` leaves uncoloured is coloured as `region_ok` says.
pub open spec fn completes(
    m: Map<Seq<char>, Seq<char>>,
    base: Map<Seq<char>, Seq<char>>,
    vars: Seq<Seq<char>>,
    colors: Seq<Seq<char>>,
    ns: Seq<(&str, Vec<&str>)>,
) -> bool {
    &&& m.dom() == vars.to_set()
    &&& forall|k: Seq<char>| #[trigger] base.contains_key(k) ==> m[k] == base[k]
    &&& forall|i: int|
        0 <= i < vars.len() && !base.contains_key(#[trigger] vars[i]) ==> region_ok(
            m,
            base,
            vars,
            colors,
            ns,
            i,
        )
}

/// `m1` comes before `m2` in the search order: at the first region of `vars`
/// where they differ, the colour of `m1` occurs in `colors` before any
/// occurrence of the colour of `m2`.
pub open spec fn tried_before(
    m1: Map<Seq<char>, Seq<char>>,
    m2: Map<Seq<char>, Seq<char>>,
    vars: Seq<Seq<char>>,
    colors: Seq<Seq<char>>,
) -> bool {
    exists|p: int, j: int|
        0 <= p < vars.len() && 0 <= j < colors.len() && (forall|q: int|
            0 <= q < p ==> m1[#[trigger] vars[q]] == m2[vars[q]]) && colors[j] == m1[vars[p]]
            && !colors.take(j + 1).contains(m2[vars[p]])
}

/// `m` is the completion of `base` that the search meets first: every other
/// completion comes after it in the search order.
pub open spec fn first_completion(
    m: Map<Seq<char>, Seq<char>>,
    base: Map<Seq<char>, Seq<char>>,
    vars: Seq<Seq<char>>,
    colors: Seq<Seq<char>>,
    ns: Seq<(&str, Vec<&str>)>,
) -> bool {
    &&& completes(m, base, vars, colors, ns)
    &&& forall|m2: Map<Seq<char>, Seq<char>>|
        #[trigger] completes(m2, base, vars, colors, ns) ==> m2 == m || tried_before(m, m2, vars, colors)
}

/// Region `i` is the first of `vars` that `base` leaves uncoloured.
pub open spec fn first_uncolored(base: Map<Seq<char>, Seq<char>>, vars: Seq<Seq<char>>, i: int) -> bool {
    &&& 0 <= i < vars.len()
    &&& !base.contains_key(vars[i])
    &&& forall|j: int| 0 <= j < i ==> base.contains_key(#[trigger] vars[j])
}

proof fn lemma_take_colored(base: Map<Seq<char>, Seq<char>>, vars: Seq<Seq<char>>, i: int, n: Seq<char>)
    requires
        first_uncolored(base, vars, i),
        vars.take(i).contains(n),
    ensures
        base.contains_key(n),
{
    let j = choose|j: int| 0 <= j < vars.take(i).len() && vars.take(i)[j] == n;
    assert(vars[j] == n);
}

/// A completion of `base` with the first uncoloured region coloured `c` is a
/// completion of `base`, when `c` is one of the colours and clashes with no
/// coloured neighbour.
proof fn lemma_lift(
    m: Map<Seq<char>, Seq<char>>,
    base: Map<Seq<char>, Seq<char>>,
    vars: Seq<Seq<char>>,
    colors: Seq<Seq<char>>,
    ns: Seq<(&str, Vec<&str>)>,
    i: int,
    c: Seq<char>,
)
    requires
        vars.no_duplicates(),
        first_uncolored(base, vars, i),
        colors.contains(c),
        color_allowed(base, vars[i], c, ns),
        completes(m, base.insert(vars[i], c), vars, colors, ns),
    ensures
        completes(m, base, vars, colors, ns),
{
    let v = vars[i];
    let b2 = base.insert(v, c);
    assert forall|k: Seq<char>| #[trigger] base.contains_key(k) implies m[k] == base[k] by {
        assert(b2.contains_key(k));
    }
    assert forall|j: int|
        0 <= j < vars.len() && !base.contains_key(#[trigger] vars[j]) implies region_ok(
        m,
        base,
        vars,
        colors,
        ns,
        j,
    ) by {
        if j == i {
            assert(b2.contains_key(v));
            assert(m[v] == c);
            assert forall|t: int|
                0 <= t < neighbors_of(ns, vars[j]).len() && colored_before(
                    base,
                    vars,
                    j,
                    #[trigger] neighbors_of(ns, vars[j])[t],
                ) implies m[neighbors_of(ns, vars[j])[t]] != m[vars[j]] by {
                let n = neighbors_of(ns, v)[t];
                if vars.take(i).contains(n) {
                    lemma_take_colored(base, vars, i, n);
                }
                assert(base.contains_key(n));
                assert(m[n] == base[n]);
            }
        } else {
            assert(vars[j] != v);
            assert(!b2.contains_key(vars[j]));
            assert(region_ok(m, b2, vars, colors, ns, j));
            assert forall|t: int|
                0 <= t < neighbors_of(ns, vars[j]).len() && colored_before(
                    base,
                    vars,
                    j,
                    #[trigger] neighbors_of(ns, vars[j])[t],
                ) implies m[neighbors_of(ns, vars[j])[t]] != m[vars[j]] by {
                assert(colored_before(b2, vars, j, neighbors_of(ns, vars[j])[t]));
            }
        }
    }
}

/// A completion of `base` is a completion of `base` with the first
/// uncoloured region given the colour it has there, and that colour clashes
/// with no neighbour coloured in `base`.
proof fn lemma_restrict(
    m: Map<Seq<char>, Seq<char>>,
    base: Map<Seq<char>, Seq<char>>,
    vars: Seq<Seq<char>>,
    colors: Seq<Seq<char>>,
    ns: Seq<(&str, Vec<&str>)>,
    i: int,
)
    requires
        vars.no_duplicates(),
        first_uncolored(base, vars, i),
        completes(m, base, vars, colors, ns),
    ensures
        color_allowed(base, vars[i], m[vars[i]], ns),
        completes(m, base.insert(vars[i], m[vars[i]]), vars, colors, ns),
{
    let v = vars[i];
    let b2 = base.insert(v, m[v]);
    assert(region_ok(m, base, vars, colors, ns, i));
    assert forall|t: int| 0 <= t < neighbors_of(ns, v).len() implies !(base.contains_key(
        #[trigger] neighbors_of(ns, v)[t],
    ) && base[neighbors_of(ns, v)[t]] == m[v]) by {
        let n = neighbors_of(ns, v)[t];
        if base.contains_key(n) {
            assert(colored_before(base, vars, i, n));
            assert(m[n] == base[n]);
        }
    }
    assert forall|k: Seq<char>| #[trigger] b2.contains_key(k) implies m[k] == b2[k] by {
        if k != v {
            assert(base.contains_key(k));
        }
    }
    assert forall|j: int|
        0 <= j < vars.len() && !b2.contains_key(#[trigger] vars[j]) implies region_ok(
        m,
        b2,
        vars,
        colors,
        ns,
        j,
    ) by {
        assert(!base.contains_key(vars[j]));
        assert(vars[j] != v);
        assert(j > i);
        assert(region_ok(m, base, vars, colors, ns, j));
        assert forall|t: int|
            0 <= t < neighbors_of(ns, vars[j]).len() && colored_before(
                b2,
                vars,
                j,
                #[trigger] neighbors_of(ns, vars[j])[t],
            ) implies m[neighbors_of(ns, vars[j])[t]] != m[vars[j]] by {
            let n = neighbors_of(ns, vars[j])[t];
            if n == v {
                assert(vars.take(j)[i] == v);
            }
            assert(colored_before(base, vars, j, n));
        }
    }
}

/// The regions coloured in `base` are among `vars`, so there are no more of
/// them than regions; as many only when all are coloured.
proof fn lemma_dom_bound(base: Map<Seq<char>, Seq<char>>, vars: Seq<Seq<char>>)
    requires
        vars.no_duplicates(),
        base.dom().finite(),
        forall|k: Seq<char>| #[trigger] base.contains_key(k) ==> vars.contains(k),
    ensures
        base.dom().len() <= vars.len(),
        base.dom().len() == vars.len() ==> base.dom() == vars.to_set(),
        base.dom().len() < vars.len() ==> exists|j: int|
            0 <= j < vars.len() && !base.contains_key(#[trigger] vars[j]),
{
    vars.unique_seq_to_set();
    assert(base.dom().subset_of(vars.to_set()));
    vstd::set_lib::lemma_len_subset(base.dom(), vars.to_set());
    if base.dom().len() == vars.len() {
        vstd::set_lib::lemma_subset_equality(base.dom(), vars.to_set());
    }
    if base.dom().len() < vars.len() {
        if forall|j: int| 0 <= j < vars.len() ==> base.contains_key(#[trigger] vars[j]) {
            assert(vars.to_set().subset_of(base.dom()));
            vstd::set_lib::lemma_len_subset(vars.to_set(), base.dom());
        }
    }
}

/// Colours the regions of `variables` that `assignment` leaves uncoloured,
/// one at a time in the order of `variables`, trying the colours in their
/// order and undoing a choice that leads nowhere.
///
/// Returns whether it succeeded. On success `assignment` is the first
/// completion, in the search order, of what it held; on failure it is as it
/// was, and no completion exists.
pub fn backtrack(
    assignment: &mut Coloring,
    variables: &[&str],
    colors: &[&str],
    neighbors: &[(&str, Vec<&str>)],
) -> (r: bool)
    requires
        str_names_of(variables@).no_duplicates(),
        forall|k: Seq<char>| #[trigger]
            old(assignment)@.contains_key(k) ==> str_names_of(variables@).contains(k),
    ensures
        r == exists|m: Map<Seq<char>, Seq<char>>|
            completes(m, old(assignment)@, str_names_of(variables@), str_names_of(colors@), neighbors@),
        r ==> first_completion(
            final(assignment)@,
            old(assignment)@,
            str_names_of(variables@),
            str_names_of(colors@),
            neighbors@,
        ),
        !r ==> final(assignment)@ == old(assignment)@,
    decreases variables@.len() - old(assignment)@.dom().len(),
{
    let ghost vs = str_names_of(variables@);
    let ghost cs = str_names_of(colors@);
    let ghost base = assignment@;
    let n = assignment.len();
    proof {
        lemma_dom_bound(base, vs);
    }
    if n == variables.len() {
        assert(completes(base, base, vs, cs, neighbors@));
        assert forall|m2: Map<Seq<char>, Seq<char>>|
            #[trigger] completes(m2, base, vs, cs, neighbors@) implies m2 == base || tried_before(
            base,
            m2,
            vs,
            cs,
        ) by {
            assert(m2 =~= base);
        }
        return true;
    }
    let mut i: usize = 0;
    while assignment.contains_key(variables[i])
        invariant
            i < variables@.len(),
            assignment@ == base,
            vs == str_names_of(variables@),
            exists|j: int| i <= j < vs.len() && !base.contains_key(#[trigger] vs[j]),
            forall|j: int| 0 <= j < i ==> base.contains_key(#[trigger] vs[j]),
        decreases variables@.len() - i,
    {
        assert(base.contains_key(vs[i as int]));
        i += 1;
    }
    let v = variables[i];
    assert(first_uncolored(base, vs, i as int));
    let mut ci: usize = 0;
    while ci < colors.len()
        invariant
            ci <= colors@.len(),
            assignment@ == base,
            base == old(assignment)@,
            vs == str_names_of(variables@),
            cs == str_names_of(colors@),
            vs.no_duplicates(),
            base.dom().finite(),
            base.dom().len() < vs.len(),
            forall|k: Seq<char>| #[trigger] base.contains_key(k) ==> vs.contains(k),
            first_uncolored(base, vs, i as int),
            v@ == vs[i as int],
            forall|m: Map<Seq<char>, Seq<char>>|
                #[trigger] completes(m, base, vs, cs, neighbors@) ==> !cs.take(ci as int).contains(
                    m[vs[i as int]],
                ),
        decreases colors@.len() - ci,
    {
        let c = colors[ci];
        assert(cs[ci as int] == c@);
        if is_valid(assignment, v, c, neighbors) {
            assignment.insert(v, c);
            let ghost b2 = assignment@;
            proof {
                assert forall|k: Seq<char>| #[trigger] b2.contains_key(k) implies vs.contains(k) by {
                    if k != v@ {
                        assert(base.contains_key(k));
                    }
                }
                assert(b2.dom() =~= base.dom().insert(v@));
                assert(b2.dom().len() == base.dom().len() + 1);
            }
            if backtrack(assignment, variables, colors, neighbors) {
                proof {
                    lemma_lift(assignment@, base, vs, cs, neighbors@, i as int, c@);
                    let fin = assignment@;
                    assert(fin.contains_key(v@) && fin[v@] == c@) by {
                        assert(b2.contains_key(v@));
                    }
                    assert forall|m2: Map<Seq<char>, Seq<char>>|
                        #[trigger] completes(m2, base, vs, cs, neighbors@) implies m2 == fin || tried_before(
                        fin,
                        m2,
                        vs,
                        cs,
                    ) by {
                        lemma_restrict(m2, base, vs, cs, neighbors@, i as int);
                        if m2[vs[i as int]] == c@ {
                            assert(completes(m2, b2, vs, cs, neighbors@));
                        } else {
                            assert(!cs.take(ci as int).contains(m2[vs[i as int]]));
                            assert(cs.take(ci + 1) =~= cs.take(ci as int).push(c@));
                            assert forall|q: int| 0 <= q < i implies fin[#[trigger] vs[q]] == m2[vs[q]] by {
                                assert(base.contains_key(vs[q]));
                                assert(b2.contains_key(vs[q]));
                            }
                            assert(tried_before(fin, m2, vs, cs)) by {
                                assert(0 <= i < vs.len() && 0 <= ci < cs.len() && (forall|q: int|
                                    0 <= q < i ==> fin[#[trigger] vs[q]] == m2[vs[q]]) && cs[ci as int]
                                    == fin[vs[i as int]] && !cs.take(ci + 1).contains(m2[vs[i as int]]));
                            }
                        }
                    }
                    assert(completes(
                        assignment@,
                        base,
                        str_names_of(variables@),
                        str_names_of(colors@),
                        neighbors@,
                    ));
                }
                return true;
            }
            assignment.remove(v);
            proof {
                assert(assignment@ =~= base);
                assert forall|m: Map<Seq<char>, Seq<char>>|
                    #[trigger] completes(m, base, vs, cs, neighbors@) implies !cs.take(
                    ci + 1,
                ).contains(m[vs[i as int]]) by {
                    lemma_restrict(m, base, vs, cs, neighbors@, i as int);
                    if m[vs[i as int]] == c@ {
                        assert(completes(m, b2, vs, cs, neighbors@));
                    }
                    assert(cs.take(ci + 1) =~= cs.take(ci as int).push(c@));
                }
            }
        } else {
            proof {
                assert forall|m: Map<Seq<char>, Seq<char>>|
                    #[trigger] completes(m, base, vs, cs, neighbors@) implies !cs.take(
                    ci + 1,
                ).contains(m[vs[i as int]]) by {
                    lemma_restrict(m, base, vs, cs, neighbors@, i as int);
                    assert(cs.take(ci + 1) =~= cs.take(ci as int).push(c@));
                }
            }
        }
        ci += 1;
    }
    proof {
        assert forall|m: Map<Seq<char>, Seq<char>>| !completes(m, base, vs, cs, neighbors@) by {
            if completes(m, base, vs, cs, neighbors@) {
                assert(region_ok(m, base, vs, cs, neighbors@, i as int));
                assert(cs.take(cs.len() as int) =~= cs);
            }
        }
    }
    false
}

/// Colours all of `variables` with `colors` by backtracking, if it can.
///
/// `Some` holds a colouring in which every region has one of the colours and
/// differs from each neighbour that stands before it in `variables`, the
/// first such colouring in the order of the regions and of the colours;
/// `None` comes exactly when there is no such colouring.
pub fn find_color(variables: &[&str], colors: &[&str], neighbors: &[(&str, Vec<&str>)]) -> (r:
    Option<Coloring>)
    requires
        str_names_of(variables@).no_duplicates(),
    ensures
        match r {
            Some(m) => first_completion(
                m@,
                Map::empty(),
                str_names_of(variables@),
                str_names_of(colors@),
                neighbors@,
            ),
            None => !exists|m: Map<Seq<char>, Seq<char>>|
                completes(
                    m,
                    Map::empty(),
                    str_names_of(variables@),
                    str_names_of(colors@),
                    neighbors@,
                ),
        },
{
    let mut assignment = Coloring::new();
    if backtrack(&mut assignment, variables, colors, neighbors) {
        Some(assignment)
    } else {
        None
    }
}

/// Whenever `b` is listed as a neighbour of `a` (both regions of `vars`), `a`
/// is listed as a neighbour of `b`.
pub open spec fn symmetric_neighbors(ns: Seq<(&str, Vec<&str>)>, vars: Seq<Seq<char>>) -> bool {
    forall|a: Seq<char>, b: Seq<char>|
        vars.contains(a) && vars.contains(b) && #[trigger] neighbors_of(ns, a).contains(b)
            ==> neighbors_of(ns, b).contains(a)
}

/// `m` colours exactly the regions of `vars`, each with one of `colors`, and
/// no two different neighbouring regions share a colour.
pub open spec fn proper_coloring(
    m: Map<Seq<char>, Seq<char>>,
    vars: Seq<Seq<char>>,
    colors: Seq<Seq<char>>,
    ns: Seq<(&str, Vec<&str>)>,
) -> bool {
    &&& m.dom() == vars.to_set()
    &&& forall|a: Seq<char>| #[trigger] vars.contains(a) ==> colors.contains(m[a])
    &&& forall|a: Seq<char>, b: Seq<char>|
        vars.contains(a) && vars.contains(b) && a != b && #[trigger] neighbors_of(ns, a).contains(b)
            ==> m[a] != m[b]
}

/// When the neighbour lists are symmetric, the colourings that the search
/// accepts from nothing are exactly the proper colourings: what
/// `find_color` returns is proper, and it returns `None` only when no proper
/// colouring exists.
pub proof fn lemma_completes_iff_proper(
    m: Map<Seq<char>, Seq<char>>,
    vars: Seq<Seq<char>>,
    colors: Seq<Seq<char>>,
    ns: Seq<(&str, Vec<&str>)>,
)
    requires
        vars.no_duplicates(),
        symmetric_neighbors(ns, vars),
    ensures
        completes(m, Map::empty(), vars, colors, ns) <==> proper_coloring(m, vars, colors, ns),
{
    let e = Map::<Seq<char>, Seq<char>>::empty();
    if completes(m, e, vars, colors, ns) {
        assert forall|a: Seq<char>| #[trigger] vars.contains(a) implies colors.contains(m[a]) by {
            let i = choose|i: int| 0 <= i < vars.len() && vars[i] == a;
            assert(region_ok(m, e, vars, colors, ns, i));
        }
        assert forall|a: Seq<char>, b: Seq<char>|
            vars.contains(a) && vars.contains(b) && a != b && #[trigger] neighbors_of(
                ns,
                a,
            ).contains(b) implies m[a] != m[b] by {
            let i = choose|i: int| 0 <= i < vars.len() && vars[i] == a;
            let j = choose|j: int| 0 <= j < vars.len() && vars[j] == b;
            if j < i {
                let t = choose|t: int| 0 <= t < neighbors_of(ns, a).len() && neighbors_of(ns, a)[t] == b;
                assert(vars.take(i)[j] == b);
                assert(colored_before(e, vars, i, neighbors_of(ns, vars[i])[t]));
                assert(region_ok(m, e, vars, colors, ns, i));
            } else {
                assert(i != j);
                assert(neighbors_of(ns, b).contains(a));
                let t = choose|t: int| 0 <= t < neighbors_of(ns, b).len() && neighbors_of(ns, b)[t] == a;
                assert(vars.take(j)[i] == a);
                assert(colored_before(e, vars, j, neighbors_of(ns, vars[j])[t]));
                assert(region_ok(m, e, vars, colors, ns, j));
            }
        }
    }
    if proper_coloring(m, vars, colors, ns) {
        assert forall|i: int|
            0 <= i < vars.len() && !e.contains_key(#[trigger] vars[i]) implies region_ok(
            m,
            e,
            vars,
            colors,
            ns,
            i,
        ) by {
            assert(vars.contains(vars[i]));
            assert forall|t: int|
                0 <= t < neighbors_of(ns, vars[i]).len() && colored_before(
                    e,
                    vars,
                    i,
                    #[trigger] neighbors_of(ns, vars[i])[t],
                ) implies m[neighbors_of(ns, vars[i])[t]] != m[vars[i]] by {
                let n = neighbors_of(ns, vars[i])[t];
                let j = choose|j: int| 0 <= j < vars.take(i).len() && vars.take(i)[j] == n;
                assert(vars[j] == n);
                assert(vars.contains(n));
                assert(neighbors_of(ns, vars[i]).contains(n));
            }
        }
    }
}

} // verus!
