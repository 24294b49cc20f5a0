//! A population with its parameters, and the advance from one generation to
//! the next: expansion by mutation, ranking by distance, survivor selection
//! and early-generation lineage preservation.

use vstd::prelude::*;

use crate::distance::{count_diff, distance, distance_of, lemma_count_diff_bounded};
use crate::entropy::push_char;
use crate::individual::{
    apply_edits, is_mutation, lemma_apply_edits_len, opt_view, valid_edits, Individual,
    IndividualView,
};

verus! {

/// A population of candidates, the target they evolve toward, and the
/// parameters of the search.
#[derive(Clone, Debug)]
pub struct Simulation {
    pub target: String,
    pub individuals: Vec<Individual>,
    pub num_clones: u32,
    pub survivors: u32,
    pub mut_count: u16,
    pub gen_count: u32,
}

/// What a run reports of one generation: the best candidate's content and
/// its distance to the target.
#[derive(Clone, Debug)]
pub struct GenerationRecord {
    pub best: String,
    pub proximity: u16,
}

/// The content of a seed candidate: `n` filler characters.
pub open spec fn filler(n: nat) -> Seq<char> {
    Seq::new(n, |_i: int| 'x')
}

/// Generations before this one keep one descendant of every lineage.
pub const DIVERSITY_GENERATIONS: u32 = 5;

/// The views of a sequence of candidates.
pub open spec fn views(v: Seq<Individual>) -> Seq<IndividualView> {
    v.map_values(|c: Individual| c@)
}

/// Every candidate's content has length `n`.
pub open spec fn all_len(cs: Seq<IndividualView>, n: nat) -> bool {
    forall|i: int| 0 <= i < cs.len() ==> (#[trigger] cs[i]).content.len() == n
}

/// The fitness of a candidate: its mismatches against the target (lower is
/// better).
pub open spec fn score(c: IndividualView, t: Seq<char>) -> nat {
    count_diff(c.content, t, t.len() as int)
}

/// The candidates of `cs` whose score is `d`, in their order in `cs`.
pub open spec fn at_distance(cs: Seq<IndividualView>, t: Seq<char>, d: nat) -> Seq<IndividualView>
    decreases cs.len(),
{
    if cs.len() == 0 {
        Seq::empty()
    } else {
        let rest = at_distance(cs.drop_last(), t, d);
        if score(cs.last(), t) == d {
            rest.push(cs.last())
        } else {
            rest
        }
    }
}

/// The candidates of `cs` whose score is below `d`, by ascending score, and
/// in their order in `cs` among equal scores.
pub open spec fn ranked_below(cs: Seq<IndividualView>, t: Seq<char>, d: nat) -> Seq<IndividualView>
    decreases d,
{
    if d == 0 {
        Seq::empty()
    } else {
        ranked_below(cs, t, (d - 1) as nat) + at_distance(cs, t, (d - 1) as nat)
    }
}

/// `cs` stably sorted by ascending score.
pub open spec fn ranked(cs: Seq<IndividualView>, t: Seq<char>) -> Seq<IndividualView> {
    ranked_below(cs, t, t.len() + 1)
}

/// The `i`-th ranked candidate is the first of its lineage in the ranking,
/// and no candidate among the first `k` shares its lineage.
pub open spec fn is_extra(r: Seq<IndividualView>, k: nat, i: int) -> bool {
    forall|j: int| 0 <= j < r.len() && (j < i || j < k) ==> r[j].parent != r[i].parent
}

/// The candidates among the first `n` of `r` that `is_extra`, in order.
pub open spec fn extras(r: Seq<IndividualView>, k: nat, n: int) -> Seq<IndividualView>
    decreases n,
{
    if n <= 0 {
        Seq::empty()
    } else if is_extra(r, k, n - 1) {
        extras(r, k, n - 1).push(r[n - 1])
    } else {
        extras(r, k, n - 1)
    }
}

/// The first `k` ranked candidates (all of them where there are fewer).
pub open spec fn core_of(r: Seq<IndividualView>, k: nat) -> Seq<IndividualView> {
    if k <= r.len() {
        r.take(k as int)
    } else {
        r
    }
}

/// The next population from ranked candidates `r`: the core survivors, then,
/// in an early generation, the best candidate of each lineage left out of
/// the core.
pub open spec fn next_population(r: Seq<IndividualView>, k: nat, early: bool) -> Seq<
    IndividualView,
> {
    if early {
        core_of(r, k) + extras(r, k, r.len() as int)
    } else {
        core_of(r, k)
    }
}

/// The population that selection keeps from `children` in generation `gen`.
pub open spec fn selected(
    children: Seq<IndividualView>,
    t: Seq<char>,
    survivors: nat,
    gen: nat,
) -> Seq<IndividualView> {
    next_population(ranked(children, t), survivors, gen < DIVERSITY_GENERATIONS)
}

/// `children` is a brood of `parents`: `clones` consecutive mutations of each
/// parent in turn, each by `count` edits.
pub open spec fn is_brood(
    parents: Seq<IndividualView>,
    clones: nat,
    count: nat,
    children: Seq<IndividualView>,
) -> bool {
    &&& children.len() == parents.len() * clones
    &&& forall|i: int|
        0 <= i < children.len() ==> is_mutation(
            parents[i / clones as int],
            #[trigger] children[i],
            count,
        )
}

/// The children that the given draws make of `parents`: child `i` is a
/// mutation of parent `i / clones` by the edits `edits[i]`, with identity
/// `ids[i]`.
pub open spec fn brood_of(
    parents: Seq<IndividualView>,
    clones: nat,
    edits: Seq<Seq<(usize, char)>>,
    ids: Seq<Seq<char>>,
) -> Seq<IndividualView> {
    Seq::new(
        edits.len(),
        |i: int|
            IndividualView {
                id: ids[i],
                content: apply_edits(parents[i / clones as int].content, edits[i]),
                parent: Some(parents[i / clones as int].id),
            },
    )
}

/// `next` is a population that one advance can make from `prev` in
/// generation `gen`: the selection from some brood of `prev`.
pub open spec fn generation_step(
    prev: Seq<IndividualView>,
    next: Seq<IndividualView>,
    t: Seq<char>,
    clones: nat,
    count: nat,
    survivors: nat,
    gen: nat,
) -> bool {
    exists|children: Seq<IndividualView>|
        #![trigger is_brood(prev, clones, count, children)]
        {
            &&& is_brood(prev, clones, count, children)
            &&& next == selected(children, t, survivors, gen)
        }
}

/// Some candidate's content is exactly the target.
pub open spec fn holds_target(p: Seq<IndividualView>, t: Seq<char>) -> bool {
    exists|i: int| 0 <= i < p.len() && (#[trigger] p[i]).content == t
}

/// Record `i` reports the population `gens[i + 1]`, which one advance made
/// from `gens[i]`: its best is that population's first candidate, with its
/// distance to the target; with at least one survivor, no candidate of the
/// population is closer.
pub open spec fn recorded_step(
    start: Simulation,
    gens: Seq<Seq<IndividualView>>,
    records: Seq<GenerationRecord>,
    i: int,
) -> bool {
    let t = start.target@;
    &&& generation_step(
        gens[i],
        gens[i + 1],
        t,
        start.num_clones as nat,
        start.mut_count as nat,
        start.survivors as nat,
        (start.gen_count + i) as nat,
    )
    &&& gens[i + 1].len() > 0
    &&& records[i].best@ == gens[i + 1][0].content
    &&& distance_of(t, records[i].best@) == Some(records[i].proximity as nat)
    &&& records[i].proximity as nat == score(gens[i + 1][0], t)
    &&& start.survivors >= 1 ==> forall|j: int|
        0 <= j < gens[i + 1].len() ==> records[i].proximity <= score(#[trigger] gens[i + 1][j], t)
}

/// What a run from `start` that produced `records` and ended in `last`
/// went through, with `gens` the populations one after the other.
pub open spec fn run_history(
    start: Simulation,
    records: Seq<GenerationRecord>,
    last: Simulation,
    gens: Seq<Seq<IndividualView>>,
    max_generations: u32,
) -> bool {
    let t = start.target@;
    let n = records.len();
    &&& gens.len() == n + 1
    &&& gens[0] == views(start.individuals@)
    &&& forall|i: int| 0 <= i < n ==> #[trigger] recorded_step(start, gens, records, i)
    // no generation before the last one reported held the target
    &&& forall|i: int| 0 <= i < n - 1 ==> !holds_target(#[trigger] gens[i + 1], t)
    &&& forall|i: int| 0 <= i < n - 1 ==> (#[trigger] records[i]).proximity > 0
    // the run ends on the last reported population, or on an empty one made from it
    &&& (views(last.individuals@) == gens.last() && last.gen_count == start.gen_count + n) || (
    last.individuals@.len() == 0 && last.gen_count == start.gen_count + n + 1 && generation_step(
        gens.last(),
        views(last.individuals@),
        t,
        start.num_clones as nat,
        start.mut_count as nat,
        start.survivors as nat,
        (start.gen_count + n) as nat,
    ))
    // it stops early only on the target, an empty population or an overflow
    &&& n < max_generations ==> holds_target(views(last.individuals@), t) || last.individuals@.len()
        == 0 || !last.can_advance()
    // where the last reported population holds the target, its record is the target at distance 0
    &&& n > 0 && start.survivors >= 1 && holds_target(gens.last(), t) ==> records[n - 1].best@ == t
        && records[n - 1].proximity == 0
}

fn same_lineage(a: &Option<String>, b: &Option<String>) -> (r: bool)
    ensures
        r == (opt_view(*a) == opt_view(*b)),
{
    match (a, b) {
        (Some(x), Some(y)) => *x == *y,
        (None, None) => true,
        _ => false,
    }
}

impl Simulation {
    /// Every candidate's content has the target's length, and that length
    /// fits a distance.
    pub open spec fn wf(&self) -> bool {
        &&& self.target@.len() <= u16::MAX
        &&& all_len(views(self.individuals@), self.target@.len())
    }

    /// The next generation made from the given children: ranked by ascending
    /// distance to the target, the first `survivors` of them kept, and,
    /// before generation `DIVERSITY_GENERATIONS`, the best child of every
    /// lineage missing from those appended after them.
    pub fn select(&self, children: Vec<Individual>) -> (r: Simulation)
        requires
            self.target@.len() <= u16::MAX,
            all_len(views(children@), self.target@.len()),
            self.gen_count < u32::MAX,
        ensures
            r.target@ == self.target@,
            r.num_clones == self.num_clones,
            r.survivors == self.survivors,
            r.mut_count == self.mut_count,
            r.gen_count == self.gen_count + 1,
            views(r.individuals@) == selected(
                views(children@),
                self.target@,
                self.survivors as nat,
                self.gen_count as nat,
            ),
    {
        let ghost cs = views(children@);
        let ghost t = self.target@;
        let n = children.len();
        let tl = self.target.as_str().unicode_len();
        let mut scores: Vec<u16> = Vec::new();
        let mut i: usize = 0;
        while i < n
            invariant
                n == children@.len(),
                cs == views(children@),
                t == self.target@,
                t.len() <= u16::MAX,
                all_len(cs, t.len()),
                i <= n,
                scores@.len() == i,
                forall|j: int| 0 <= j < i ==> scores@[j] as nat == score(cs[j], t),
            decreases n - i,
        {
            assert(cs[i as int] == children@[i as int]@);
            let s = match distance(&children[i].content, &self.target) {
                Some(d) => d,
                None => 0,
            };
            proof {
                lemma_count_diff_symmetric_at(cs[i as int].content, t);
            }
            scores.push(s);
            i = i + 1;
        }
        let mut order: Vec<Individual> = Vec::new();
        let mut d: usize = 0;
        while d <= tl
            invariant
                n == children@.len(),
                cs == views(children@),
                tl == t.len(),
                tl <= u16::MAX,
                d <= tl + 1,
                scores@.len() == n,
                forall|j: int| 0 <= j < n ==> scores@[j] as nat == score(cs[j], t),
                views(order@) == ranked_below(cs, t, d as nat),
            decreases tl + 1 - d,
        {
            let ghost base = views(order@);
            let mut j: usize = 0;
            while j < n
                invariant
                    n == children@.len(),
                    cs == views(children@),
                    d <= tl,
                    j <= n,
                    scores@.len() == n,
                    forall|j: int| 0 <= j < n ==> scores@[j] as nat == score(cs[j], t),
                    base == ranked_below(cs, t, d as nat),
                    views(order@) == base + at_distance(cs.take(j as int), t, d as nat),
                decreases n - j,
            {
                assert(cs.take(j as int + 1).drop_last() =~= cs.take(j as int));
                let ghost before = order@;
                assert(cs[j as int] == children@[j as int]@);
                if scores[j] as usize == d {
                    let c = children[j].duplicate();
                    order.push(c);
                    assert(views(order@) =~= views(before).push(c@));
                }
                j = j + 1;
                assert(views(order@) =~= base + at_distance(cs.take(j as int), t, d as nat));
            }
            assert(cs.take(n as int) =~= cs);
            d = d + 1;
        }
        let ghost r = views(order@);
        let m = order.len();
        let k: usize = if (self.survivors as usize) < m {
            self.survivors as usize
        } else {
            m
        };
        let mut next: Vec<Individual> = Vec::new();
        let mut i: usize = 0;
        while i < k
            invariant
                r == views(order@),
                m == order@.len(),
                k <= m,
                i <= k,
                views(next@) == r.take(i as int),
            decreases k - i,
        {
            let ghost before = next@;
            let c = order[i].duplicate();
            next.push(c);
            assert(views(next@) =~= views(before).push(c@));
            i = i + 1;
            assert(views(next@) =~= r.take(i as int));
        }
        assert(views(next@) =~= core_of(r, self.survivors as nat));
        if self.gen_count < DIVERSITY_GENERATIONS {
            let ghost base = views(next@);
            let mut i: usize = 0;
            while i < m
                invariant
                    r == views(order@),
                    m == order@.len(),
                    k as nat == if (self.survivors as nat) < m { self.survivors as nat } else {
                        m as nat
                    },
                    i <= m,
                    views(next@) == base + extras(r, self.survivors as nat, i as int),
                decreases m - i,
            {
                let b: usize = if i > k {
                    i
                } else {
                    k
                };
                let mut keep = true;
                let mut j: usize = 0;
                while j < b
                    invariant
                        r == views(order@),
                        m == order@.len(),
                        i < m,
                        b <= m,
                        b as int == if (i as int) > (k as int) { i as int } else { k as int },
                        j <= b,
                        keep == forall|q: int| 0 <= q < j ==> r[q].parent != r[i as int].parent,
                    decreases b - j,
                {
                    assert(r[j as int] == order@[j as int]@);
                    assert(r[i as int] == order@[i as int]@);
                    if same_lineage(&order[j].parent, &order[i].parent) {
                        keep = false;
                    }
                    j = j + 1;
                }
                assert(keep == is_extra(r, self.survivors as nat, i as int));
                let ghost before = next@;
                if keep {
                    let c = order[i].duplicate();
                    next.push(c);
                    assert(views(next@) =~= views(before).push(c@));
                    assert(r[i as int] == order@[i as int]@);
                }
                i = i + 1;
                assert(views(next@) =~= base + extras(r, self.survivors as nat, i as int));
            }
        }
        Simulation {
            target: self.target.clone(),
            individuals: next,
            num_clones: self.num_clones,
            survivors: self.survivors,
            mut_count: self.mut_count,
            gen_count: self.gen_count + 1,
        }
    }

    /// The next generation: every candidate cloned `num_clones` times, each
    /// clone mutated by `mut_count` random edits, then `select` on the
    /// clones.
    pub fn advance_gen(&self) -> (r: Simulation)
        requires
            self.wf(),
            self.target@.len() > 0 || self.mut_count == 0,
            self.individuals@.len() * self.num_clones <= usize::MAX,
            self.gen_count < u32::MAX,
        ensures
            r.wf(),
            r.target@ == self.target@,
            r.num_clones == self.num_clones,
            r.survivors == self.survivors,
            r.mut_count == self.mut_count,
            r.gen_count == self.gen_count + 1,
            generation_step(
                views(self.individuals@),
                views(r.individuals@),
                self.target@,
                self.num_clones as nat,
                self.mut_count as nat,
                self.survivors as nat,
                self.gen_count as nat,
            ),
    {
        let ghost ps = views(self.individuals@);
        let ghost t = self.target@;
        let clones = self.num_clones as usize;
        let total = self.individuals.len() * clones;
        let mut children: Vec<Individual> = Vec::new();
        let mut idx: usize = 0;
        while idx < total
            invariant
                ps == views(self.individuals@),
                t == self.target@,
                self.wf(),
                t.len() > 0 || self.mut_count == 0,
                    clones == self.num_clones,
                total == ps.len() * clones,
                idx <= total,
                children@.len() == idx,
                all_len(views(children@), t.len()),
                forall|i: int|
                    0 <= i < idx ==> is_mutation(
                        ps[i / clones as int],
                        #[trigger] views(children@)[i],
                        self.mut_count as nat,
                    ),
            decreases total - idx,
        {
            assert(clones > 0) by (nonlinear_arith)
                requires
                    idx < total,
                    total == ps.len() * clones,
            ;
            let p = idx / clones;
            assert(p < ps.len()) by (nonlinear_arith)
                requires
                    idx < total,
                    total == ps.len() * clones,
                    p == idx / clones,
                    clones > 0,
            ;
            assert(self.individuals@[p as int]@ == ps[p as int]);
            let c = self.individuals[p].mutate_by(self.mut_count);
            proof {
                crate::individual::law_mutation(ps[p as int], c@, self.mut_count as nat);
            }
            let ghost before = children@;
            children.push(c);
            assert(views(children@) =~= views(before).push(c@));
            idx = idx + 1;
        }
        let ghost cs = views(children@);
        let r = self.select(children);
        proof {
            lemma_selected_all_len(cs, t, self.survivors as nat, self.gen_count as nat);
            assert(is_brood(ps, self.num_clones as nat, self.mut_count as nat, cs));
        }
        r
    }

    /// The next generation made with the given random draws: child `i` is
    /// candidate `i / num_clones` with the edits `edits[i]` applied and the
    /// identity `ids[i]`; then `select` on the children. The result depends
    /// on the population, the parameters and the draws alone.
    pub fn advance_with(&self, edits: &Vec<Vec<(usize, char)>>, ids: &Vec<String>) -> (r: Simulation)
        requires
            self.wf(),
            edits@.len() == self.individuals@.len() * self.num_clones,
            ids@.len() == edits@.len(),
            self.gen_count < u32::MAX,
        ensures
            r.wf(),
            r.target@ == self.target@,
            r.num_clones == self.num_clones,
            r.survivors == self.survivors,
            r.mut_count == self.mut_count,
            r.gen_count == self.gen_count + 1,
            views(r.individuals@) == selected(
                brood_of(
                    views(self.individuals@),
                    self.num_clones as nat,
                    edits@.map_values(|e: Vec<(usize, char)>| e@),
                    ids@.map_values(|s: String| s@),
                ),
                self.target@,
                self.survivors as nat,
                self.gen_count as nat,
            ),
    {
        let ghost ps = views(self.individuals@);
        let ghost t = self.target@;
        let ghost es = edits@.map_values(|e: Vec<(usize, char)>| e@);
        let ghost is = ids@.map_values(|s: String| s@);
        let ghost want = brood_of(ps, self.num_clones as nat, es, is);
        let clones = self.num_clones as usize;
        let total = edits.len();
        let mut children: Vec<Individual> = Vec::new();
        let mut idx: usize = 0;
        while idx < total
            invariant
                ps == views(self.individuals@),
                t == self.target@,
                self.wf(),
                es == edits@.map_values(|e: Vec<(usize, char)>| e@),
                is == ids@.map_values(|s: String| s@),
                want == brood_of(ps, self.num_clones as nat, es, is),
                clones == self.num_clones,
                total == ps.len() * clones,
                total == edits@.len(),
                total == ids@.len(),
                idx <= total,
                views(children@) == want.take(idx as int),
            decreases total - idx,
        {
            assert(clones > 0) by (nonlinear_arith)
                requires
                    idx < total,
                    total == ps.len() * clones,
            ;
            let p = idx / clones;
            assert(p < ps.len()) by (nonlinear_arith)
                requires
                    idx < total,
                    total == ps.len() * clones,
                    p == idx / clones,
                    clones > 0,
            ;
            assert(self.individuals@[p as int]@ == ps[p as int]);
            let c = self.individuals[p].mutate_with(&edits[idx], ids[idx].clone());
            let ghost before = children@;
            children.push(c);
            assert(views(children@) =~= views(before).push(c@));
            idx = idx + 1;
            assert(views(children@) =~= want.take(idx as int));
        }
        assert(want.take(total as int) =~= want);
        let ghost cs = views(children@);
        assert(all_len(cs, t.len())) by {
            assert forall|i: int| 0 <= i < cs.len() implies (#[trigger] cs[i]).content.len()
                == t.len() by {
                let p = i / clones as int;
                assert(0 <= p < ps.len()) by (nonlinear_arith)
                    requires
                        0 <= i < ps.len() * clones,
                        p == i / clones as int,
                ;
                lemma_apply_edits_len(ps[p].content, es[i]);
            }
        }
        let r = self.select(children);
        proof {
            lemma_selected_all_len(cs, t, self.survivors as nat, self.gen_count as nat);
        }
        r
    }

    /// The starting point of a run: `ind_count` seed candidates whose content
    /// is the filler of the target's length, with no parent, in generation 0.
    pub fn seed(target: String, ind_count: u32, num_clones: u32, survivors: u32, mut_count: u16) -> (r: Simulation)
        ensures
            r.target@ == target@,
            r.num_clones == num_clones,
            r.survivors == survivors,
            r.mut_count == mut_count,
            r.gen_count == 0,
            r.individuals@.len() == ind_count,
            forall|i: int|
                0 <= i < ind_count ==> (#[trigger] r.individuals@[i])@.content == filler(
                    target@.len(),
                ) && r.individuals@[i]@.parent is None && r.individuals@[i]@.id.len() == 5,
            target@.len() <= u16::MAX ==> r.wf(),
    {
        let n = target.as_str().unicode_len();
        let mut start = String::new();
        let mut i: usize = 0;
        while i < n
            invariant
                n == target@.len(),
                i <= n,
                start@ == filler(i as nat),
            decreases n - i,
        {
            push_char(&mut start, 'x');
            i = i + 1;
            assert(start@ =~= filler(i as nat));
        }
        let mut individuals: Vec<Individual> = Vec::new();
        let mut k: u32 = 0;
        while k < ind_count
            invariant
                start@ == filler(target@.len()),
                k <= ind_count,
                individuals@.len() == k,
                forall|i: int|
                    0 <= i < k ==> (#[trigger] individuals@[i])@.content == filler(target@.len())
                        && individuals@[i]@.parent is None && individuals@[i]@.id.len() == 5,
            decreases ind_count - k,
        {
            individuals.push(Individual::new(start.clone(), None));
            k = k + 1;
        }
        let r = Simulation { target, individuals, num_clones, survivors, mut_count, gen_count: 0 };
        assert(r.target@.len() <= u16::MAX ==> all_len(views(r.individuals@), r.target@.len()));
        r
    }

    /// A generation can be advanced without overflow: the children fit in
    /// memory indices and the generation counter can grow.
    pub open spec fn can_advance(&self) -> bool {
        &&& self.individuals@.len() * self.num_clones <= usize::MAX
        &&& self.gen_count < u32::MAX
    }

    /// Whether some candidate's content is exactly the target.
    pub fn has_target(&self) -> (r: bool)
        ensures
            r == holds_target(views(self.individuals@), self.target@),
    {
        let ghost p = views(self.individuals@);
        let mut i: usize = 0;
        while i < self.individuals.len()
            invariant
                p == views(self.individuals@),
                i <= self.individuals@.len(),
                forall|j: int| 0 <= j < i ==> (#[trigger] p[j]).content != self.target@,
            decreases self.individuals.len() - i,
        {
            assert(p[i as int] == self.individuals@[i as int]@);
            if self.individuals[i].is_target(&self.target) {
                return true;
            }
            i = i + 1;
        }
        false
    }

    /// Advances generation after generation, at most `max_generations`
    /// times, recording the first candidate of each generation made, and
    /// stops after the first generation that holds the target. It also stops
    /// where a generation cannot be advanced or comes out empty.
    ///
    /// The ensures speak of `gens`, the populations one after the other:
    /// `gens[0]` is the starting one and `gens[i + 1]` the one advanced from
    /// `gens[i]` and reported by record `i`.
    pub fn run(self, max_generations: u32) -> (r: (Vec<GenerationRecord>, Simulation))
        requires
            self.wf(),
            self.target@.len() > 0 || self.mut_count == 0,
        ensures
            r.1.wf(),
            r.1.target@ == self.target@,
            r.1.num_clones == self.num_clones,
            r.1.survivors == self.survivors,
            r.1.mut_count == self.mut_count,
            r.0@.len() <= max_generations,
            exists|gens: Seq<Seq<IndividualView>>|
                #![trigger gens.len()]
                run_history(self, r.0@, r.1, gens, max_generations),
    {
        let ghost t = self.target@;
        let ghost start = self;
        let mut sim = self;
        let mut records: Vec<GenerationRecord> = Vec::new();
        let ghost mut gens: Seq<Seq<IndividualView>> = seq![views(self.individuals@)];
        let mut g: u32 = 0;
        let mut done = false;
        let mut emptied = false;
        let mut found = false;
        while !done && g < max_generations
            invariant
                sim.wf(),
                sim.target@ == t,
                t == start.target@,
                t.len() > 0 || start.mut_count == 0,
                sim.num_clones == start.num_clones,
                sim.survivors == start.survivors,
                sim.mut_count == start.mut_count,
                g <= max_generations,
                records@.len() == g,
                gens.len() == g + 1,
                gens[0] == views(start.individuals@),
                forall|i: int| 0 <= i < g ==> #[trigger] recorded_step(start, gens, records@, i),
                forall|i: int| 0 <= i < g - 1 ==> !holds_target(#[trigger] gens[i + 1], t),
                !emptied ==> views(sim.individuals@) == gens.last() && sim.gen_count
                    == start.gen_count + g,
                emptied ==> done && sim.individuals@.len() == 0 && sim.gen_count == start.gen_count
                    + g + 1 && generation_step(
                    gens.last(),
                    views(sim.individuals@),
                    t,
                    start.num_clones as nat,
                    start.mut_count as nat,
                    start.survivors as nat,
                    (start.gen_count + g) as nat,
                ),
                found ==> done && !emptied && holds_target(gens.last(), t),
                found && start.survivors >= 1 ==> records@.last().best@ == t
                    && records@.last().proximity == 0,
                all_len(gens.last(), t.len()),
                forall|i: int| 0 <= i < g - 1 ==> (#[trigger] records@[i]).proximity > 0,
                !found && g > 0 ==> !holds_target(gens.last(), t),
                done ==> found || emptied || !sim.can_advance(),
            decreases max_generations - g + if done { 0int } else { 1int },
        {
            let fits = match sim.individuals.len().checked_mul(sim.num_clones as usize) {
                Some(_) => true,
                None => false,
            };
            if !fits || sim.gen_count == u32::MAX {
                done = true;
            } else {
                let ghost prev = views(sim.individuals@);
                let ghost gen = sim.gen_count;
                sim = sim.advance_gen();
                if sim.individuals.len() == 0 {
                    done = true;
                    emptied = true;
                } else {
                    let ghost now = views(sim.individuals@);
                    assert(now[0] == sim.individuals@[0]@);
                    let best = &sim.individuals[0];
                    let proximity = match best.compare(&sim.target) {
                        Some(d) => d,
                        None => 0,
                    };
                    let ghost old_records = records@;
                    let ghost old_gens = gens;
                    records.push(GenerationRecord { best: best.content.clone(), proximity });
                    proof {
                        assert(now[0].content.len() == t.len());
                        lemma_count_diff_symmetric_at(now[0].content, t);
                        let children = choose|children: Seq<IndividualView>|
                            #![trigger is_brood(prev, start.num_clones as nat, start.mut_count as nat, children)]
                            is_brood(prev, start.num_clones as nat, start.mut_count as nat, children)
                                && now == selected(children, t, start.survivors as nat, gen as nat);
                        if start.survivors >= 1 {
                            law_first_is_best(children, t, start.survivors as nat, gen as nat);
                        }
                        gens = gens.push(now);
                        assert(gens[g as int] == old_gens.last());
                        assert(recorded_step(start, gens, records@, g as int));
                        assert forall|i: int| 0 <= i < g + 1 implies #[trigger] recorded_step(
                            start,
                            gens,
                            records@,
                            i,
                        ) by {
                            if i < g {
                                assert(recorded_step(start, old_gens, old_records, i));
                                assert(records@[i] == old_records[i]);
                                assert(gens[i] == old_gens[i] && gens[i + 1] == old_gens[i + 1]);
                            }
                        }
                        assert forall|i: int| 0 <= i < g implies !holds_target(
                            #[trigger] gens[i + 1],
                            t,
                        ) by {
                            assert(gens[i + 1] == old_gens[i + 1]);
                        }
                        if g > 0 {
                            assert(recorded_step(start, old_gens, old_records, g - 1));
                            lemma_absent_is_positive(
                                old_gens.last(),
                                t,
                                old_records[g - 1].proximity as nat,
                            );
                        }
                        assert forall|i: int| 0 <= i < g implies (#[trigger] records@[i]).proximity
                            > 0 by {
                            assert(records@[i] == old_records[i]);
                        }
                    }
                    g = g + 1;
                    if sim.has_target() {
                        done = true;
                        found = true;
                        proof {
                            if start.survivors >= 1 {
                                assert(recorded_step(start, gens, records@, g - 1));
                                lemma_first_is_target(gens.last(), t, proximity as nat);
                            }
                        }
                    }
                    assert(views(sim.individuals@) == gens.last());
                }
            }
        }
        proof {
            assert(run_history(start, records@, sim, gens, max_generations));
        }
        (records, sim)
    }
}

proof fn lemma_at_distance_all_len(cs: Seq<IndividualView>, t: Seq<char>, d: nat, n: nat)
    requires
        all_len(cs, n),
    ensures
        all_len(at_distance(cs, t, d), n),
    decreases cs.len(),
{
    if cs.len() > 0 {
        lemma_at_distance_all_len(cs.drop_last(), t, d, n);
    }
}

proof fn lemma_ranked_below_all_len(cs: Seq<IndividualView>, t: Seq<char>, d: nat, n: nat)
    requires
        all_len(cs, n),
    ensures
        all_len(ranked_below(cs, t, d), n),
    decreases d,
{
    if d > 0 {
        lemma_ranked_below_all_len(cs, t, (d - 1) as nat, n);
        lemma_at_distance_all_len(cs, t, (d - 1) as nat, n);
        let a = ranked_below(cs, t, (d - 1) as nat);
        let b = at_distance(cs, t, (d - 1) as nat);
        assert forall|i: int| 0 <= i < (a + b).len() implies (#[trigger] (a + b)[i]).content.len()
            == n by {
            if i >= a.len() {
                assert((a + b)[i] == b[i - a.len()]);
            }
        }
    }
}

proof fn lemma_extras_all_len(r: Seq<IndividualView>, k: nat, m: int, n: nat)
    requires
        all_len(r, n),
        m <= r.len(),
    ensures
        all_len(extras(r, k, m), n),
    decreases m,
{
    if m > 0 {
        lemma_extras_all_len(r, k, m - 1, n);
    }
}

/// Selection keeps only children, so every selected content keeps its length.
pub proof fn lemma_selected_all_len(cs: Seq<IndividualView>, t: Seq<char>, k: nat, gen: nat)
    requires
        all_len(cs, t.len()),
    ensures
        all_len(selected(cs, t, k, gen), t.len()),
{
    let r = ranked(cs, t);
    lemma_ranked_below_all_len(cs, t, t.len() + 1, t.len());
    lemma_extras_all_len(r, k, r.len() as int, t.len());
    let c = core_of(r, k);
    let e = extras(r, k, r.len() as int);
    assert(all_len(c, t.len()));
    assert forall|i: int| 0 <= i < (c + e).len() implies (#[trigger] (c + e)[i]).content.len()
        == t.len() by {
        if i >= c.len() {
            assert((c + e)[i] == e[i - c.len()]);
        }
    }
}

/// Number of candidates of `cs` whose score is below `d`.
pub open spec fn count_below(cs: Seq<IndividualView>, t: Seq<char>, d: nat) -> nat
    decreases cs.len(),
{
    if cs.len() == 0 {
        0
    } else {
        count_below(cs.drop_last(), t, d) + if score(cs.last(), t) < d { 1nat } else { 0nat }
    }
}

proof fn lemma_at_distance_count(cs: Seq<IndividualView>, t: Seq<char>, d: nat)
    ensures
        at_distance(cs, t, d).len() + count_below(cs, t, d) == count_below(cs, t, d + 1),
    decreases cs.len(),
{
    if cs.len() > 0 {
        lemma_at_distance_count(cs.drop_last(), t, d);
    }
}

proof fn lemma_ranked_below_len(cs: Seq<IndividualView>, t: Seq<char>, d: nat)
    ensures
        ranked_below(cs, t, d).len() == count_below(cs, t, d),
    decreases d,
{
    if d == 0 {
        lemma_count_below_zero(cs, t);
    } else {
        lemma_ranked_below_len(cs, t, (d - 1) as nat);
        lemma_at_distance_count(cs, t, (d - 1) as nat);
    }
}

proof fn lemma_count_below_zero(cs: Seq<IndividualView>, t: Seq<char>)
    ensures
        count_below(cs, t, 0) == 0,
    decreases cs.len(),
{
    if cs.len() > 0 {
        lemma_count_below_zero(cs.drop_last(), t);
    }
}

proof fn lemma_count_below_all(cs: Seq<IndividualView>, t: Seq<char>)
    ensures
        count_below(cs, t, t.len() + 1) == cs.len(),
    decreases cs.len(),
{
    if cs.len() > 0 {
        lemma_count_below_all(cs.drop_last(), t);
        lemma_count_diff_bounded(cs.last().content, t, t.len() as int);
    }
}

/// Ranking keeps every child: it has as many entries as there are children.
pub proof fn lemma_ranked_len(cs: Seq<IndividualView>, t: Seq<char>)
    ensures
        ranked(cs, t).len() == cs.len(),
{
    lemma_ranked_below_len(cs, t, t.len() + 1);
    lemma_count_below_all(cs, t);
}

proof fn lemma_extras_from(r: Seq<IndividualView>, k: nat, n: int)
    requires
        n <= r.len(),
    ensures
        forall|i: int|
            0 <= i < extras(r, k, n).len() ==> exists|q: int|
                0 <= q < n && #[trigger] extras(r, k, n)[i] == r[q] && is_extra(r, k, q),
    decreases n,
{
    if n > 0 {
        lemma_extras_from(r, k, n - 1);
        let prev = extras(r, k, n - 1);
        let e = extras(r, k, n);
        assert forall|i: int| 0 <= i < e.len() implies exists|q: int|
            0 <= q < n && #[trigger] e[i] == r[q] && is_extra(r, k, q) by {
            if i < prev.len() {
                assert(e[i] == prev[i]);
                let q = choose|q: int| 0 <= q < n - 1 && prev[i] == r[q] && is_extra(r, k, q);
                assert(e[i] == r[q]);
            } else {
                assert(e[i] == r[n - 1]);
            }
        }
    }
}

proof fn lemma_extras_distinct(r: Seq<IndividualView>, k: nat, n: int)
    requires
        n <= r.len(),
    ensures
        forall|i: int, j: int|
            0 <= i < j < extras(r, k, n).len() ==> (#[trigger] extras(r, k, n)[i]).parent
                != (#[trigger] extras(r, k, n)[j]).parent,
    decreases n,
{
    if n > 0 {
        lemma_extras_distinct(r, k, n - 1);
        lemma_extras_from(r, k, n - 1);
        let prev = extras(r, k, n - 1);
        let e = extras(r, k, n);
        assert forall|i: int, j: int| 0 <= i < j < e.len() implies (#[trigger] e[i]).parent
            != (#[trigger] e[j]).parent by {
            assert(e[i] == prev[i]);
            if j < prev.len() {
                assert(e[j] == prev[j]);
            } else {
                let q = choose|q: int| 0 <= q < n - 1 && #[trigger] prev[i] == r[q] && is_extra(r, k, q);
                assert(e[j] == r[n - 1]);
                assert(r[q].parent != r[n - 1].parent);
            }
        }
    }
}

proof fn lemma_extras_has(r: Seq<IndividualView>, k: nat, n: int, q: int)
    requires
        n <= r.len(),
        0 <= q < n,
        is_extra(r, k, q),
    ensures
        exists|i: int| 0 <= i < extras(r, k, n).len() && #[trigger] extras(r, k, n)[i] == r[q],
    decreases n,
{
    let e = extras(r, k, n);
    if q == n - 1 {
        assert(e[e.len() - 1] == r[q]);
    } else {
        lemma_extras_has(r, k, n - 1, q);
        let prev = extras(r, k, n - 1);
        let i = choose|i: int| 0 <= i < prev.len() && #[trigger] prev[i] == r[q];
        assert(e[i] == prev[i]);
    }
}

proof fn first_of_lineage(r: Seq<IndividualView>, p: Option<Seq<char>>, n: int) -> (q: int)
    requires
        n <= r.len(),
        exists|i: int| 0 <= i < n && #[trigger] r[i].parent == p,
    ensures
        0 <= q < n,
        r[q].parent == p,
        forall|j: int| 0 <= j < q ==> r[j].parent != p,
    decreases n,
{
    if exists|i: int| 0 <= i < n - 1 && #[trigger] r[i].parent == p {
        first_of_lineage(r, p, n - 1)
    } else {
        n - 1
    }
}

/// Size and lineage law of a generation advance. With `r` the ranked
/// children and `e` the lineage representatives appended after the core:
/// the new population holds at least `min(survivors, children)` candidates,
/// exactly that many from generation `DIVERSITY_GENERATIONS` on, and before
/// it exactly that many plus `e.len()`, where `e` holds one candidate of each
/// lineage of the children that the core leaves out, and nothing else.
pub proof fn law_population_size(cs: Seq<IndividualView>, t: Seq<char>, survivors: nat, gen: nat)
    ensures
        ({
            let r = ranked(cs, t);
            let kept = if survivors <= cs.len() { survivors } else { cs.len() };
            let e = extras(r, survivors, r.len() as int);
            let p = selected(cs, t, survivors, gen);
            &&& r.len() == cs.len()
            &&& p.len() >= kept
            &&& gen >= DIVERSITY_GENERATIONS ==> p.len() == kept
            &&& gen < DIVERSITY_GENERATIONS ==> p.len() == kept + e.len()
            &&& forall|i: int, j: int|
                0 <= i < j < e.len() ==> (#[trigger] e[i]).parent != (#[trigger] e[j]).parent
            &&& forall|i: int, j: int|
                0 <= i < e.len() && 0 <= j < kept ==> (#[trigger] e[i]).parent != (#[trigger] r[j]).parent
            &&& forall|q: int|
                0 <= q < r.len() && (forall|j: int| 0 <= j < kept ==> r[j].parent != (#[trigger] r[q]).parent)
                    ==> exists|i: int| 0 <= i < e.len() && (#[trigger] e[i]).parent == r[q].parent
        }),
{
    let r = ranked(cs, t);
    let kept = if survivors <= cs.len() { survivors } else { cs.len() };
    let n = r.len() as int;
    let e = extras(r, survivors, n);
    lemma_ranked_len(cs, t);
    lemma_extras_distinct(r, survivors, n);
    lemma_extras_from(r, survivors, n);
    assert forall|i: int, j: int| 0 <= i < e.len() && 0 <= j < kept implies (#[trigger] e[i]).parent
        != (#[trigger] r[j]).parent by {
        let q = choose|q: int| 0 <= q < n && #[trigger] e[i] == r[q] && is_extra(r, survivors, q);
    }
    assert forall|q: int|
        0 <= q < r.len() && (forall|j: int| 0 <= j < kept ==> r[j].parent != (#[trigger] r[q]).parent)
            implies exists|i: int| 0 <= i < e.len() && (#[trigger] e[i]).parent == r[q].parent by {
        let q0 = first_of_lineage(r, r[q].parent, q + 1);
        assert(is_extra(r, survivors, q0));
        lemma_extras_has(r, survivors, n, q0);
        let i = choose|i: int| 0 <= i < e.len() && #[trigger] e[i] == r[q0];
        assert(e[i].parent == r[q].parent);
    }
}

proof fn lemma_at_distance_scores(cs: Seq<IndividualView>, t: Seq<char>, d: nat)
    ensures
        forall|i: int|
            0 <= i < at_distance(cs, t, d).len() ==> score(#[trigger] at_distance(cs, t, d)[i], t)
                == d,
    decreases cs.len(),
{
    if cs.len() > 0 {
        lemma_at_distance_scores(cs.drop_last(), t, d);
        let rest = at_distance(cs.drop_last(), t, d);
        let a = at_distance(cs, t, d);
        assert forall|i: int| 0 <= i < a.len() implies score(#[trigger] a[i], t) == d by {
            if i < rest.len() {
                assert(a[i] == rest[i]);
            }
        }
    }
}

proof fn lemma_ranked_below_sorted(cs: Seq<IndividualView>, t: Seq<char>, d: nat)
    ensures
        forall|i: int|
            0 <= i < ranked_below(cs, t, d).len() ==> score(#[trigger] ranked_below(cs, t, d)[i], t)
                < d,
        forall|i: int, j: int|
            0 <= i < j < ranked_below(cs, t, d).len() ==> score(
                #[trigger] ranked_below(cs, t, d)[i],
                t,
            ) <= score(#[trigger] ranked_below(cs, t, d)[j], t),
    decreases d,
{
    if d > 0 {
        let e = (d - 1) as nat;
        lemma_ranked_below_sorted(cs, t, e);
        lemma_at_distance_scores(cs, t, e);
        let a = ranked_below(cs, t, e);
        let b = at_distance(cs, t, e);
        let r = ranked_below(cs, t, d);
        assert(r == a + b);
        assert forall|i: int| 0 <= i < r.len() implies score(#[trigger] r[i], t) < d by {
            if i < a.len() {
                assert(r[i] == a[i]);
            } else {
                assert(r[i] == b[i - a.len()]);
            }
        }
        assert forall|i: int, j: int| 0 <= i < j < r.len() implies score(#[trigger] r[i], t)
            <= score(#[trigger] r[j], t) by {
            if j < a.len() {
                assert(r[i] == a[i] && r[j] == a[j]);
            } else if i < a.len() {
                assert(r[i] == a[i] && r[j] == b[j - a.len()]);
            } else {
                assert(r[i] == b[i - a.len()] && r[j] == b[j - a.len()]);
            }
        }
    }
}

/// The ranking orders children by ascending distance to the target: the
/// best come first.
pub proof fn law_ranked_ascending(cs: Seq<IndividualView>, t: Seq<char>)
    ensures
        forall|i: int, j: int|
            0 <= i < j < ranked(cs, t).len() ==> score(#[trigger] ranked(cs, t)[i], t) <= score(
                #[trigger] ranked(cs, t)[j],
                t,
            ),
{
    lemma_ranked_below_sorted(cs, t, t.len() + 1);
}

/// Draws of `count` in-range edits from the mutation alphabet and
/// five-character identities, one per child, make a brood: what
/// `advance_with` builds from such draws is what `advance_gen` promises.
pub proof fn law_draws_make_brood(
    parents: Seq<IndividualView>,
    clones: nat,
    count: nat,
    edits: Seq<Seq<(usize, char)>>,
    ids: Seq<Seq<char>>,
)
    requires
        edits.len() == parents.len() * clones,
        ids.len() == edits.len(),
        forall|i: int| 0 <= i < ids.len() ==> (#[trigger] ids[i]).len() == 5,
        forall|i: int|
            0 <= i < edits.len() ==> (#[trigger] edits[i]).len() == count && valid_edits(
                edits[i],
                parents[i / clones as int].content.len(),
            ),
    ensures
        is_brood(parents, clones, count, brood_of(parents, clones, edits, ids)),
{
    let b = brood_of(parents, clones, edits, ids);
    assert forall|i: int| 0 <= i < b.len() implies is_mutation(
        parents[i / clones as int],
        #[trigger] b[i],
        count,
    ) by {
        assert(edits[i].len() == count);
        assert(ids[i].len() == 5);
        let e = edits[i];
        assert(e.len() == count && valid_edits(e, parents[i / clones as int].content.len())
            && b[i].content == apply_edits(parents[i / clones as int].content, e));
    }
}

/// With at least one survivor, the first candidate of a selected population
/// is a best one: no candidate of that population is closer to the target.
pub proof fn law_first_is_best(cs: Seq<IndividualView>, t: Seq<char>, survivors: nat, gen: nat)
    requires
        survivors >= 1,
    ensures
        forall|i: int|
            0 <= i < selected(cs, t, survivors, gen).len() ==> score(
                selected(cs, t, survivors, gen)[0],
                t,
            ) <= score(#[trigger] selected(cs, t, survivors, gen)[i], t),
{
    let r = ranked(cs, t);
    let p = selected(cs, t, survivors, gen);
    let c = core_of(r, survivors);
    let e = extras(r, survivors, r.len() as int);
    law_ranked_ascending(cs, t);
    lemma_extras_from(r, survivors, r.len() as int);
    if p.len() > 0 {
        assert(r.len() > 0);
        assert(p[0] == r[0]);
        assert forall|i: int| 0 <= i < p.len() implies score(p[0], t) <= score(#[trigger] p[i], t) by {
            if i < c.len() {
                assert(p[i] == r[i]);
            } else {
                assert(p[i] == e[i - c.len()]);
                let q = choose|q: int|
                    0 <= q < r.len() && #[trigger] e[i - c.len()] == r[q] && is_extra(r, survivors, q);
                assert(p[i] == r[q]);
            }
        }
    }
}

proof fn lemma_first_is_target(p: Seq<IndividualView>, t: Seq<char>, prox: nat)
    requires
        p.len() > 0,
        all_len(p, t.len()),
        prox == score(p[0], t),
        forall|j: int| 0 <= j < p.len() ==> prox <= score(#[trigger] p[j], t),
        holds_target(p, t),
    ensures
        p[0].content == t,
        prox == 0,
{
    let i = choose|i: int| 0 <= i < p.len() && (#[trigger] p[i]).content == t;
    crate::distance::lemma_count_diff_zero(p[i].content, t, t.len() as int);
    assert(score(p[i], t) == 0);
    crate::distance::lemma_count_diff_zero(p[0].content, t, t.len() as int);
    assert(p[0].content =~= t);
}

proof fn lemma_absent_is_positive(p: Seq<IndividualView>, t: Seq<char>, prox: nat)
    requires
        p.len() > 0,
        all_len(p, t.len()),
        prox == score(p[0], t),
        !holds_target(p, t),
    ensures
        prox > 0,
{
    crate::distance::lemma_count_diff_zero(p[0].content, t, t.len() as int);
    if prox == 0 {
        assert(p[0].content =~= t);
    }
}

proof fn lemma_at_distance_members(cs: Seq<IndividualView>, t: Seq<char>, d: nat)
    ensures
        forall|i: int|
            0 <= i < at_distance(cs, t, d).len() ==> exists|q: int|
                0 <= q < cs.len() && #[trigger] at_distance(cs, t, d)[i] == cs[q],
    decreases cs.len(),
{
    if cs.len() > 0 {
        let rest_cs = cs.drop_last();
        lemma_at_distance_members(rest_cs, t, d);
        let rest = at_distance(rest_cs, t, d);
        let a = at_distance(cs, t, d);
        assert forall|i: int| 0 <= i < a.len() implies exists|q: int|
            0 <= q < cs.len() && #[trigger] a[i] == cs[q] by {
            if i < rest.len() {
                let q = choose|q: int| 0 <= q < rest_cs.len() && #[trigger] rest[i] == rest_cs[q];
                assert(a[i] == cs[q]);
            } else {
                assert(a[i] == cs[cs.len() - 1]);
            }
        }
    }
}

proof fn lemma_ranked_below_members(cs: Seq<IndividualView>, t: Seq<char>, d: nat)
    ensures
        forall|i: int|
            0 <= i < ranked_below(cs, t, d).len() ==> exists|q: int|
                0 <= q < cs.len() && #[trigger] ranked_below(cs, t, d)[i] == cs[q],
    decreases d,
{
    if d > 0 {
        let e = (d - 1) as nat;
        lemma_ranked_below_members(cs, t, e);
        lemma_at_distance_members(cs, t, e);
        let a = ranked_below(cs, t, e);
        let b = at_distance(cs, t, e);
        let r = ranked_below(cs, t, d);
        assert forall|i: int| 0 <= i < r.len() implies exists|q: int|
            0 <= q < cs.len() && #[trigger] r[i] == cs[q] by {
            if i < a.len() {
                assert(r[i] == a[i]);
            } else {
                assert(r[i] == b[i - a.len()]);
            }
        }
    }
}

/// Selection only keeps children: every candidate it returns is one of them.
pub proof fn law_selected_from_children(
    cs: Seq<IndividualView>,
    t: Seq<char>,
    survivors: nat,
    gen: nat,
)
    ensures
        forall|i: int|
            0 <= i < selected(cs, t, survivors, gen).len() ==> exists|q: int|
                0 <= q < cs.len() && #[trigger] selected(cs, t, survivors, gen)[i] == cs[q],
{
    let r = ranked(cs, t);
    let p = selected(cs, t, survivors, gen);
    let c = core_of(r, survivors);
    let e = extras(r, survivors, r.len() as int);
    lemma_ranked_below_members(cs, t, t.len() + 1);
    lemma_extras_from(r, survivors, r.len() as int);
    assert forall|i: int| 0 <= i < p.len() implies exists|q: int|
        0 <= q < cs.len() && #[trigger] p[i] == cs[q] by {
        if i < c.len() {
            assert(p[i] == r[i]);
        } else {
            assert(p[i] == e[i - c.len()]);
            let q = choose|q: int|
                0 <= q < r.len() && #[trigger] e[i - c.len()] == r[q] && is_extra(r, survivors, q);
            assert(p[i] == r[q]);
        }
    }
}

/// `c` is a mutation by `count` edits of some candidate of `prev`.
pub open spec fn descends_from(prev: Seq<IndividualView>, c: IndividualView, count: nat) -> bool {
    exists|q: int| 0 <= q < prev.len() && is_mutation(prev[q], c, count)
}

/// Every candidate of a generation is a mutation, by the run's count of
/// edits, of a candidate of the generation before.
pub proof fn law_step_members_are_mutations(
    prev: Seq<IndividualView>,
    next: Seq<IndividualView>,
    t: Seq<char>,
    clones: nat,
    count: nat,
    survivors: nat,
    gen: nat,
)
    requires
        generation_step(prev, next, t, clones, count, survivors, gen),
    ensures
        forall|i: int| 0 <= i < next.len() ==> descends_from(prev, #[trigger] next[i], count),
{
    let children = choose|children: Seq<IndividualView>|
        #![trigger is_brood(prev, clones, count, children)]
        is_brood(prev, clones, count, children) && next == selected(children, t, survivors, gen);
    law_selected_from_children(children, t, survivors, gen);
    assert forall|i: int| 0 <= i < next.len() implies descends_from(prev, #[trigger] next[i], count) by {
        assert(next[i] == selected(children, t, survivors, gen)[i]);
        let c = choose|c: int|
            0 <= c < children.len() && #[trigger] selected(children, t, survivors, gen)[i]
                == children[c];
        let q = c / clones as int;
        assert(0 <= q < prev.len()) by (nonlinear_arith)
            requires
                0 <= c < prev.len() * clones,
                q == c / clones as int,
        ;
        assert(is_mutation(prev[q], children[c], count));
        assert(is_mutation(prev[q], next[i], count));
    }
}

proof fn lemma_at_distance_has(cs: Seq<IndividualView>, t: Seq<char>, d: nat, q: int)
    requires
        0 <= q < cs.len(),
        score(cs[q], t) == d,
    ensures
        at_distance(cs, t, d).contains(cs[q]),
    decreases cs.len(),
{
    let a = at_distance(cs, t, d);
    if q == cs.len() - 1 {
        assert(a[a.len() - 1] == cs[q]);
    } else {
        let rest_cs = cs.drop_last();
        assert(rest_cs[q] == cs[q]);
        lemma_at_distance_has(rest_cs, t, d, q);
        let rest = at_distance(rest_cs, t, d);
        let i = choose|i: int| 0 <= i < rest.len() && rest[i] == cs[q];
        assert(a[i] == rest[i]);
    }
}

proof fn lemma_ranked_below_has(cs: Seq<IndividualView>, t: Seq<char>, d: nat, q: int)
    requires
        0 <= q < cs.len(),
        score(cs[q], t) < d,
    ensures
        ranked_below(cs, t, d).contains(cs[q]),
    decreases d,
{
    let e = (d - 1) as nat;
    let a = ranked_below(cs, t, e);
    let b = at_distance(cs, t, e);
    let r = ranked_below(cs, t, d);
    if score(cs[q], t) == e {
        lemma_at_distance_has(cs, t, e, q);
        let i = choose|i: int| 0 <= i < b.len() && b[i] == cs[q];
        assert(r[a.len() + i] == b[i]);
    } else {
        lemma_ranked_below_has(cs, t, e, q);
        let i = choose|i: int| 0 <= i < a.len() && a[i] == cs[q];
        assert(r[i] == a[i]);
    }
}

/// The lineages of `prev` that have no member among the first `kept`
/// candidates of `next`.
pub open spec fn missing_lineages(
    prev: Seq<IndividualView>,
    next: Seq<IndividualView>,
    kept: nat,
) -> Set<Option<Seq<char>>> {
    Set::new(
        |p: Option<Seq<char>>|
            exists|q: int|
                0 <= q < prev.len() && p == Some(#[trigger] prev[q].id) && forall|j: int|
                    0 <= j < kept ==> next[j].parent != p,
    )
}

proof fn lemma_extra_is_missing(
    prev: Seq<IndividualView>,
    children: Seq<IndividualView>,
    t: Seq<char>,
    clones: nat,
    count: nat,
    survivors: nat,
    gen: nat,
    i: int,
)
    requires
        is_brood(prev, clones, count, children),
        gen < DIVERSITY_GENERATIONS,
        0 <= i < extras(ranked(children, t), survivors, children.len() as int).len(),
    ensures
        ({
            let n = prev.len() * clones;
            let kept = if survivors <= n { survivors } else { n };
            let e = extras(ranked(children, t), survivors, children.len() as int);
            missing_lineages(prev, selected(children, t, survivors, gen), kept).contains(e[i].parent)
        }),
{
    let next = selected(children, t, survivors, gen);
    let n = prev.len() * clones;
    let kept = if survivors <= n { survivors } else { n };
    let r = ranked(children, t);
    lemma_ranked_len(children, t);
    let e = extras(r, survivors, r.len() as int);
    let c = core_of(r, survivors);
    law_population_size(children, t, survivors, gen);
    law_selected_from_children(children, t, survivors, gen);
    assert(next == c + e);
    assert(next[kept + i] == e[i]);
    let ci = choose|ci: int|
        0 <= ci < children.len() && #[trigger] selected(children, t, survivors, gen)[kept + i]
            == children[ci];
    let pq = ci / clones as int;
    assert(0 <= pq < prev.len()) by (nonlinear_arith)
        requires
            0 <= ci < prev.len() * clones,
            pq == ci / clones as int,
    ;
    assert(is_mutation(prev[pq], children[ci], count));
    assert forall|j: int| 0 <= j < kept implies next[j].parent != e[i].parent by {
        assert(next[j] == r[j]);
    }
}

proof fn lemma_missing_has_extra(
    prev: Seq<IndividualView>,
    children: Seq<IndividualView>,
    t: Seq<char>,
    clones: nat,
    count: nat,
    survivors: nat,
    gen: nat,
    p: Option<Seq<char>>,
)
    requires
        is_brood(prev, clones, count, children),
        clones >= 1,
        gen < DIVERSITY_GENERATIONS,
        missing_lineages(
            prev,
            selected(children, t, survivors, gen),
            if survivors <= prev.len() * clones { survivors } else { prev.len() * clones },
        ).contains(p),
    ensures
        exists|i: int|
            0 <= i < extras(ranked(children, t), survivors, children.len() as int).len() && (
            #[trigger] extras(ranked(children, t), survivors, children.len() as int)[i]).parent
                == p,
{
    let next = selected(children, t, survivors, gen);
    let n = prev.len() * clones;
    let kept = if survivors <= n { survivors } else { n };
    let r = ranked(children, t);
    lemma_ranked_len(children, t);
    law_population_size(children, t, survivors, gen);
    let q = choose|q: int|
        0 <= q < prev.len() && p == Some(#[trigger] prev[q].id) && forall|j: int|
            0 <= j < kept ==> next[j].parent != p;
    let ci = q * clones;
    assert(0 <= ci < children.len() && ci / clones as int == q) by (nonlinear_arith)
        requires
            0 <= q < prev.len(),
            clones >= 1,
            ci == q * clones,
            children.len() == prev.len() * clones,
    ;
    assert(is_mutation(prev[q], children[ci], count));
    lemma_count_diff_bounded(children[ci].content, t, t.len() as int);
    lemma_ranked_below_has(children, t, t.len() + 1, ci);
    let rq = choose|rq: int| 0 <= rq < r.len() && r[rq] == children[ci];
    assert forall|j: int| 0 <= j < kept implies r[j].parent != (#[trigger] r[rq]).parent by {
        assert(next[j] == r[j]);
    }
}

/// In a generation before `DIVERSITY_GENERATIONS`, with at least one clone
/// per candidate, the new population holds exactly the `kept` core survivors
/// plus one candidate for each lineage of the previous population that has
/// no member in the core.
pub proof fn law_lineages_counted(
    prev: Seq<IndividualView>,
    next: Seq<IndividualView>,
    t: Seq<char>,
    clones: nat,
    count: nat,
    survivors: nat,
    gen: nat,
)
    requires
        generation_step(prev, next, t, clones, count, survivors, gen),
        clones >= 1,
        gen < DIVERSITY_GENERATIONS,
    ensures
        ({
            let n = prev.len() * clones;
            let kept = if survivors <= n { survivors } else { n };
            next.len() == kept + missing_lineages(prev, next, kept).len()
        }),
{
    let children = choose|children: Seq<IndividualView>|
        #![trigger is_brood(prev, clones, count, children)]
        is_brood(prev, clones, count, children) && next == selected(children, t, survivors, gen);
    let n = prev.len() * clones;
    let kept = if survivors <= n { survivors } else { n };
    let r = ranked(children, t);
    lemma_ranked_len(children, t);
    let e = extras(r, survivors, r.len() as int);
    law_population_size(children, t, survivors, gen);
    let ps = e.map_values(|x: IndividualView| x.parent);
    let u = missing_lineages(prev, next, kept);
    assert(ps.no_duplicates()) by {
        assert forall|i: int, j: int| 0 <= i < ps.len() && 0 <= j < ps.len() && i != j implies ps[i]
            != ps[j] by {
            if i < j {
                assert(e[i].parent != e[j].parent);
            } else {
                assert(e[j].parent != e[i].parent);
            }
        }
    }
    ps.unique_seq_to_set();
    assert forall|p: Option<Seq<char>>| ps.to_set().contains(p) <==> u.contains(p) by {
        if ps.to_set().contains(p) {
            let i = choose|i: int| 0 <= i < ps.len() && ps[i] == p;
            lemma_extra_is_missing(prev, children, t, clones, count, survivors, gen, i);
        }
        if u.contains(p) {
            lemma_missing_has_extra(prev, children, t, clones, count, survivors, gen, p);
            let i = choose|i: int| 0 <= i < e.len() && (#[trigger] e[i]).parent == p;
            assert(ps[i] == p);
        }
    }
    assert(ps.to_set() =~= u);
}

proof fn lemma_count_diff_symmetric_at(a: Seq<char>, t: Seq<char>)
    ensures
        count_diff(t, a, t.len() as int) == count_diff(a, t, t.len() as int),
{
    crate::distance::lemma_count_diff_symmetric(t, a, t.len() as int);
}

} // verus!
