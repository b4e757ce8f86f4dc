use vstd::prelude::*;

use crate::agent::{crossover, Agent, Genotype};
use crate::fitness::{jittered_slot, GeneralScoreProvider, ScoreError};
use crate::population::{
    lemma_population_after_set_push, lookup, population_after_set, slot_occupied,
    slots_strictly_sorted, Population,
};
use crate::rng::random_below;
use std::marker::PhantomData;
use vstd::arithmetic::div_mod::lemma_div_is_ordered;
use vstd::arithmetic::mul::lemma_mul_inequality;

verus! {

#[derive(Clone, Copy)]
pub enum OperationType {
    Mutate,
    Crossover,
    Cull,
}

#[derive(Clone, Copy)]
pub enum SelectionType {
    RandomAny,
    HighestScore,
    LowestScore,
}

/// How many agents a proportion of a population designates. A population
/// below the preferred minimum is taken whole; otherwise the proportion of
/// it (in thousandths, rounded down), but never fewer than the preferred
/// minimum.
pub open spec fn spec_rate_to_number(population: int, rate: int, preferred_minimum: int) -> int {
    if population < preferred_minimum {
        population
    } else if population * rate / 1000 < preferred_minimum {
        preferred_minimum
    } else {
        population * rate / 1000
    }
}

proof fn lemma_rate_mul_le(population: int, rate: int)
    requires
        population >= 0,
        0 <= rate <= 1000,
    ensures
        0 <= population * rate / 1000 <= population,
{
    assert(population * rate <= population * 1000) by (nonlinear_arith)
        requires
            population >= 0,
            rate <= 1000,
    ;
    assert(population * rate >= 0) by (nonlinear_arith)
        requires
            population >= 0,
            rate >= 0,
    ;
    lemma_div_is_ordered(population * rate, population * 1000, 1000);
    assert(population * 1000 / 1000 == population) by (nonlinear_arith);
    lemma_div_is_ordered(0, population * rate, 1000);
}

/// `rate_to_number` stays within the population, honours the preferred
/// minimum whenever the population reaches it, and equals the rounded-down
/// proportion whenever that proportion reaches the minimum.
pub proof fn lemma_rate_to_number_bounds(population: int, rate: int, preferred_minimum: int)
    requires
        population >= 0,
        0 <= rate <= 1000,
    ensures
        0 <= spec_rate_to_number(population, rate, preferred_minimum) <= population,
        population >= preferred_minimum ==> spec_rate_to_number(population, rate, preferred_minimum)
            >= preferred_minimum,
        population >= preferred_minimum && population * rate / 1000 >= preferred_minimum
            ==> spec_rate_to_number(population, rate, preferred_minimum) == population * rate
            / 1000,
        population < preferred_minimum ==> spec_rate_to_number(population, rate, preferred_minimum)
            == population,
{
    lemma_rate_mul_le(population, rate);
}

/// For a fixed population and preferred minimum, `rate_to_number` never
/// decreases as the proportion grows.
pub proof fn lemma_rate_to_number_monotonic(
    population: int,
    rate1: int,
    rate2: int,
    preferred_minimum: int,
)
    requires
        population >= 0,
        0 <= rate1 <= rate2 <= 1000,
    ensures
        spec_rate_to_number(population, rate1, preferred_minimum) <= spec_rate_to_number(
            population,
            rate2,
            preferred_minimum,
        ),
{
    lemma_rate_mul_le(population, rate1);
    lemma_rate_mul_le(population, rate2);
    lemma_mul_inequality(rate1, rate2, population);
    assert(rate1 * population == population * rate1) by (nonlinear_arith);
    assert(rate2 * population == population * rate2) by (nonlinear_arith);
    lemma_div_is_ordered(population * rate1, population * rate2, 1000);
}

/// A strict proportion (below the whole) of a nonempty population, with no
/// minimum, never designates the whole population.
pub proof fn lemma_rate_to_number_partial(population: int, rate: int)
    requires
        population >= 1,
        0 <= rate <= 999,
    ensures
        spec_rate_to_number(population, rate, 0) < population,
{
    assert(population * rate <= population * 999) by (nonlinear_arith)
        requires
            population >= 0,
            rate <= 999,
    ;
    assert(population * 999 <= 1000 * (population - 1) + 999) by (nonlinear_arith)
        requires
            population >= 1,
    ;
    lemma_div_is_ordered(population * rate, 1000 * (population - 1) + 999, 1000);
    vstd::arithmetic::div_mod::lemma_div_multiples_vanish_fancy(population - 1, 999, 1000);
    lemma_rate_mul_le(population, rate);
}

/// Turns a proportion of a population into a count of agents; see
/// `spec_rate_to_number`.
pub fn rate_to_number(population: usize, rate: u64, preferred_minimum: usize) -> (r: usize)
    requires
        rate <= 1000,
    ensures
        r == spec_rate_to_number(population as int, rate as int, preferred_minimum as int),
        r <= population,
{
    if population < preferred_minimum {
        return population;
    }
    proof {
        lemma_rate_mul_le(population as int, rate as int);
    }
    let number = ((population as u128) * (rate as u128) / 1000) as usize;
    if number < preferred_minimum {
        return preferred_minimum;
    }
    number
}

/// Parameters for selecting some agents from a population: a kind, a
/// proportion of the population in thousandths, and a preferred minimum
/// count.
#[derive(Clone, Copy)]
pub struct Selection {
    selection_type: SelectionType,
    proportion: u64,
    preferred_minimum: usize,
}

impl Selection {
    pub closed spec fn sel_type(self) -> SelectionType {
        self.selection_type
    }

    pub closed spec fn proportion_spec(self) -> u64 {
        self.proportion
    }

    pub closed spec fn preferred_minimum_spec(self) -> usize {
        self.preferred_minimum
    }

    pub open spec fn wf(self) -> bool {
        self.proportion_spec() <= 1000
    }

    pub fn with_values(selection_type: SelectionType, proportion: u64, preferred_minimum: usize) -> (r: Self)
        requires
            proportion <= 1000,
        ensures
            r.sel_type() == selection_type,
            r.proportion_spec() == proportion,
            r.preferred_minimum_spec() == preferred_minimum,
            r.wf(),
    {
        Self { selection_type, proportion, preferred_minimum }
    }

    pub fn new(selection_type: SelectionType, proportion: u64) -> (r: Self)
        requires
            proportion <= 1000,
        ensures
            r.sel_type() == selection_type,
            r.proportion_spec() == proportion,
            r.preferred_minimum_spec() == 1,
            r.wf(),
    {
        Self { selection_type, proportion, preferred_minimum: 1 }
    }

    pub fn selection_type(&self) -> (r: SelectionType)
        ensures
            r == self.sel_type(),
    {
        self.selection_type
    }

    pub fn proportion(&self) -> (r: u64)
        ensures
            r == self.proportion_spec(),
    {
        self.proportion
    }

    pub fn preferred_minimum(&self) -> (r: usize)
        ensures
            r == self.preferred_minimum_spec(),
    {
        self.preferred_minimum
    }

    /// How many agents this selection designates from the population.
    pub fn count<Gene: Genotype>(&self, population: &Population<Gene>) -> (r: usize)
        requires
            self.wf(),
        ensures
            r == spec_rate_to_number(
                population.entries().len() as int,
                self.proportion_spec() as int,
                self.preferred_minimum_spec() as int,
            ),
            r <= population.entries().len(),
    {
        rate_to_number(population.len(), self.proportion, self.preferred_minimum)
    }

    /// The designated agents, as (slot, agent) pairs in ascending slot
    /// order: the count's worth of highest slots, of lowest slots, or a
    /// uniformly random draw (with replacement, so possibly fewer after
    /// deduplication).
    pub fn agents<'a, Gene: Genotype>(&self, population: &'a Population<Gene>) -> (r: Vec<
        (isize, &'a Agent<Gene>),
    >)
        requires
            self.wf(),
            population.wf(),
        ensures
            ({
                let es = population.entries();
                let number = spec_rate_to_number(
                    es.len() as int,
                    self.proportion_spec() as int,
                    self.preferred_minimum_spec() as int,
                );
                &&& (self.sel_type() == SelectionType::HighestScore ==> r@.len() == number
                    && forall|i: int|
                    0 <= i < r@.len() ==> ((#[trigger] r@[i]).0, *r@[i].1) == es[es.len() - number
                        + i])
                &&& (self.sel_type() == SelectionType::LowestScore ==> r@.len() == number
                    && forall|i: int| 0 <= i < r@.len() ==> ((#[trigger] r@[i]).0, *r@[i].1) == es[i])
                &&& (self.sel_type() == SelectionType::RandomAny ==> r@.len() <= number && (number
                    > 0 && es.len() > 0 ==> r@.len() >= 1))
                &&& forall|i: int|
                    0 <= i < r@.len() ==> es.contains(((#[trigger] r@[i]).0, *r@[i].1))
                &&& forall|i: int, j: int| 0 <= i < j < r@.len() ==> r@[i].0 < r@[j].0
            }),
    {
        match self.selection_type {
            SelectionType::RandomAny => get_random_subset(
                population.get_agents(),
                self.proportion,
                self.preferred_minimum,
            ),
            SelectionType::HighestScore => get_highest_scored_agents(
                population.get_agents(),
                self.proportion,
                self.preferred_minimum,
            ),
            SelectionType::LowestScore => get_lowest_scored_agents(
                population.get_agents(),
                self.proportion,
                self.preferred_minimum,
            ),
        }
    }
}

fn get_highest_scored_agents<'a, Gene: Genotype>(
    agents: &'a Vec<(isize, Agent<Gene>)>,
    rate: u64,
    preferred_minimum: usize,
) -> (r: Vec<(isize, &'a Agent<Gene>)>)
    requires
        rate <= 1000,
        slots_strictly_sorted(agents@),
    ensures
        r@.len() == spec_rate_to_number(
            agents@.len() as int,
            rate as int,
            preferred_minimum as int,
        ),
        forall|i: int|
            0 <= i < r@.len() ==> ((#[trigger] r@[i]).0, *r@[i].1) == agents@[agents@.len()
                - r@.len() + i],
        forall|i: int| 0 <= i < r@.len() ==> agents@.contains(((#[trigger] r@[i]).0, *r@[i].1)),
        forall|i: int, j: int| 0 <= i < j < r@.len() ==> r@[i].0 < r@[j].0,
{
    let number = rate_to_number(agents.len(), rate, preferred_minimum);
    let start = agents.len() - number;
    let mut r: Vec<(isize, &'a Agent<Gene>)> = Vec::new();
    let mut j: usize = start;
    while j < agents.len()
        invariant
            start <= j <= agents@.len(),
            r@.len() == j - start,
            forall|i: int| 0 <= i < r@.len() ==> ((#[trigger] r@[i]).0, *r@[i].1) == agents@[start + i],
        decreases agents@.len() - j,
    {
        r.push((agents[j].0, &agents[j].1));
        j += 1;
    }
    proof {
        assert forall|i: int, j2: int| 0 <= i < j2 < r@.len() implies r@[i].0 < r@[j2].0 by {
            assert(agents@[start + i].0 < agents@[start + j2].0);
        }
        assert forall|i: int| 0 <= i < r@.len() implies agents@.contains(
            ((#[trigger] r@[i]).0, *r@[i].1),
        ) by {
            agents@.lemma_index_contains(start + i);
            assert((r@[i].0, *r@[i].1) == agents@[start + i]);
        }
    }
    r
}

fn get_lowest_scored_agents<'a, Gene: Genotype>(
    agents: &'a Vec<(isize, Agent<Gene>)>,
    rate: u64,
    preferred_minimum: usize,
) -> (r: Vec<(isize, &'a Agent<Gene>)>)
    requires
        rate <= 1000,
        slots_strictly_sorted(agents@),
    ensures
        r@.len() == spec_rate_to_number(
            agents@.len() as int,
            rate as int,
            preferred_minimum as int,
        ),
        forall|i: int| 0 <= i < r@.len() ==> ((#[trigger] r@[i]).0, *r@[i].1) == agents@[i],
        forall|i: int| 0 <= i < r@.len() ==> agents@.contains(((#[trigger] r@[i]).0, *r@[i].1)),
        forall|i: int, j: int| 0 <= i < j < r@.len() ==> r@[i].0 < r@[j].0,
{
    let number = rate_to_number(agents.len(), rate, preferred_minimum);
    let mut r: Vec<(isize, &'a Agent<Gene>)> = Vec::new();
    let mut j: usize = 0;
    while j < number
        invariant
            number <= agents@.len(),
            j <= number,
            r@.len() == j,
            forall|i: int| 0 <= i < r@.len() ==> ((#[trigger] r@[i]).0, *r@[i].1) == agents@[i],
            slots_strictly_sorted(agents@),
        decreases number - j,
    {
        r.push((agents[j].0, &agents[j].1));
        j += 1;
    }
    proof {
        assert forall|i: int| 0 <= i < r@.len() implies agents@.contains(
            ((#[trigger] r@[i]).0, *r@[i].1),
        ) by {
            agents@.lemma_index_contains(i);
            assert((r@[i].0, *r@[i].1) == agents@[i]);
        }
    }
    r
}

fn get_random_subset<'a, Gene: Genotype>(
    agents: &'a Vec<(isize, Agent<Gene>)>,
    rate: u64,
    preferred_minimum: usize,
) -> (r: Vec<(isize, &'a Agent<Gene>)>)
    requires
        rate <= 1000,
        slots_strictly_sorted(agents@),
    ensures
        r@.len() <= spec_rate_to_number(agents@.len() as int, rate as int, preferred_minimum as int),
        spec_rate_to_number(agents@.len() as int, rate as int, preferred_minimum as int) > 0
            && agents@.len() > 0 ==> r@.len() >= 1,
        forall|i: int| 0 <= i < r@.len() ==> agents@.contains(((#[trigger] r@[i]).0, *r@[i].1)),
        forall|i: int, j: int| 0 <= i < j < r@.len() ==> r@[i].0 < r@[j].0,
{
    let number = rate_to_number(agents.len(), rate, preferred_minimum);
    let mut r: Vec<(isize, &'a Agent<Gene>)> = Vec::new();
    if agents.len() == 0 {
        return r;
    }
    let mut c: usize = 0;
    while c < number
        invariant
            agents@.len() > 0,
            c <= number,
            r@.len() <= c,
            c > 0 ==> r@.len() >= 1,
            forall|i: int|
                0 <= i < r@.len() ==> agents@.contains(((#[trigger] r@[i]).0, *r@[i].1)),
            forall|i: int, j: int| 0 <= i < j < r@.len() ==> r@[i].0 < r@[j].0,
        decreases number - c,
    {
        let k = random_below(agents.len());
        let slot = agents[k].0;
        let pos = subset_position(&r, slot);
        let mut present = false;
        if pos < r.len() {
            if r[pos].0 == slot {
                present = true;
            }
        }
        if !present {
            let ghost old_r = r@;
            r.insert(pos, (slot, &agents[k].1));
            proof {
                old_r.insert_ensures(pos as int, (slot, &agents@[k as int].1));
                assert forall|p: int, q: int| 0 <= p < q < r@.len() implies r@[p].0 < r@[q].0 by {
                    if q < pos {
                        assert(r@[p] == old_r[p] && r@[q] == old_r[q]);
                    } else if p > pos {
                        assert(r@[p] == old_r[p - 1] && r@[q] == old_r[q - 1]);
                    } else if p == pos as int {
                        assert(r@[q] == old_r[q - 1]);
                    } else if q == pos as int {
                        assert(r@[p] == old_r[p]);
                    } else {
                        assert(r@[p] == old_r[p] && r@[q] == old_r[q - 1]);
                    }
                }
                assert forall|i: int| 0 <= i < r@.len() implies agents@.contains(
                    ((#[trigger] r@[i]).0, *r@[i].1),
                ) by {
                    if i < pos {
                        assert(r@[i] == old_r[i]);
                    } else if i > pos {
                        assert(r@[i] == old_r[i - 1]);
                    } else {
                        agents@.lemma_index_contains(k as int);
                        assert((r@[i].0, *r@[i].1) == agents@[k as int]);
                    }
                }
            }
        }
        c += 1;
    }
    r
}

fn subset_position<'a, Gene: Genotype>(r: &Vec<(isize, &'a Agent<Gene>)>, slot: isize) -> (pos:
    usize)
    requires
        forall|i: int, j: int| 0 <= i < j < r@.len() ==> r@[i].0 < r@[j].0,
    ensures
        pos <= r@.len(),
        forall|i: int| 0 <= i < pos ==> (#[trigger] r@[i]).0 < slot,
        pos < r@.len() ==> r@[pos as int].0 >= slot,
{
    let mut pos: usize = 0;
    while pos < r.len()
        invariant
            pos <= r@.len(),
            forall|i: int| 0 <= i < pos ==> (#[trigger] r@[i]).0 < slot,
        decreases r@.len() - pos,
    {
        if r[pos].0 >= slot {
            return pos;
        }
        pos += 1;
    }
    pos
}

/// The population slot a drawn score maps to, capped at the largest slot.
pub open spec fn slot_from_score(s: int) -> int {
    if s > isize::MAX as int {
        isize::MAX as int
    } else {
        s
    }
}

fn score_to_slot(s: u64) -> (r: isize)
    ensures
        r as int == slot_from_score(s as int),
{
    if s > isize::MAX as u64 {
        isize::MAX
    } else {
        s as isize
    }
}

fn get_mutated_agents<Gene: Genotype>(agents: Vec<(isize, &Agent<Gene>)>) -> (r: Vec<Agent<Gene>>)
    ensures
        r@.len() == agents@.len(),
        forall|i: int|
            0 <= i < r@.len() ==> (#[trigger] r@[i]).genes_view().len() == agents@[i].1.genes_view().len(),
{
    let mut r: Vec<Agent<Gene>> = Vec::new();
    let mut i: usize = 0;
    while i < agents.len()
        invariant
            i <= agents@.len(),
            r@.len() == i,
            forall|j: int|
                0 <= j < r@.len() ==> (#[trigger] r@[j]).genes_view().len()
                    == agents@[j].1.genes_view().len(),
        decreases agents@.len() - i,
    {
        let mut clone = agents[i].1.duplicate();
        clone.mutate();
        r.push(clone);
        i += 1;
    }
    r
}

/// The gene sequence and content hash of each listed agent, in order.
spec fn agent_views<Gene: Genotype>(agents: Seq<(isize, &Agent<Gene>)>) -> Seq<(Seq<Gene>, u64)> {
    agents.map_values(|p: (isize, &Agent<Gene>)| (p.1.genes_view(), p.1.hash_value()))
}

fn create_random_pairs<Gene: Genotype>(agents: Vec<(isize, &Agent<Gene>)>) -> (r: Vec<
    (Agent<Gene>, Agent<Gene>),
>)
    ensures
        r@.len() <= agents@.len(),
        forall|i: int|
            0 <= i < r@.len() ==> (#[trigger] r@[i]).0.genes_view() != r@[i].1.genes_view(),
        forall|i: int|
            0 <= i < r@.len() ==> agent_views(agents@).contains(
                ((#[trigger] r@[i]).0.genes_view(), r@[i].0.hash_value()),
            ) && agent_views(agents@).contains((r@[i].1.genes_view(), r@[i].1.hash_value())),
{
    let count = agents.len();
    let mut r: Vec<(Agent<Gene>, Agent<Gene>)> = Vec::new();
    if count == 0 {
        return r;
    }
    let mut c: usize = 0;
    while c < count
        invariant
            agents@.len() == count,
            count > 0,
            c <= count,
            r@.len() <= c,
            forall|i: int|
                0 <= i < r@.len() ==> (#[trigger] r@[i]).0.genes_view() != r@[i].1.genes_view(),
            forall|i: int|
                0 <= i < r@.len() ==> agent_views(agents@).contains(
                    ((#[trigger] r@[i]).0.genes_view(), r@[i].0.hash_value()),
                ) && agent_views(agents@).contains((r@[i].1.genes_view(), r@[i].1.hash_value())),
        decreases count - c,
    {
        let one = random_below(count);
        let two = random_below(count);
        let one_agent = agents[one].1;
        let two_agent = agents[two].1;
        if !one_agent.has_same_genes(two_agent) {
            r.push((one_agent.duplicate(), two_agent.duplicate()));
            proof {
                agent_views(agents@).lemma_index_contains(one as int);
                agent_views(agents@).lemma_index_contains(two as int);
                assert(agent_views(agents@)[one as int] == (
                    one_agent.genes_view(),
                    one_agent.hash_value(),
                ));
                assert(agent_views(agents@)[two as int] == (
                    two_agent.genes_view(),
                    two_agent.hash_value(),
                ));
            }
        }
        c += 1;
    }
    r
}

/// The slot of this (slot, child) pair was drawn from the child's cached
/// true fitness under some jitter within the provider's spread.
pub open spec fn slot_drawn_for<Gene: Genotype>(
    entry: (isize, Agent<Gene>),
    cache: Map<u64, u64>,
    offset: u64,
) -> bool {
    &&& cache.contains_key(entry.1.hash_value())
    &&& (exists|j: int|
        0 <= j < 2 * offset && entry.0 as int == slot_from_score(
            #[trigger] jittered_slot(cache[entry.1.hash_value()] as int, j, offset as int),
        ))
}

proof fn lemma_slot_drawn_preserved<Gene: Genotype>(
    entry: (isize, Agent<Gene>),
    cache1: Map<u64, u64>,
    cache2: Map<u64, u64>,
    offset: u64,
)
    requires
        slot_drawn_for(entry, cache1, offset),
        cache2.contains_key(entry.1.hash_value()),
        cache2[entry.1.hash_value()] == cache1[entry.1.hash_value()],
    ensures
        slot_drawn_for(entry, cache2, offset),
{
    let j0 = choose|j: int|
        0 <= j < 2 * offset && entry.0 as int == slot_from_score(
            #[trigger] jittered_slot(cache1[entry.1.hash_value()] as int, j, offset as int),
        );
    assert(0 <= j0 < 2 * offset && entry.0 as int == slot_from_score(
        jittered_slot(cache2[entry.1.hash_value()] as int, j0, offset as int),
    ));
}

#[verifier::rlimit(80)]
fn create_children_from_crossover<
    Gene: Genotype,
    Data,
    F: Fn(&Agent<Gene>, &Data) -> Result<u64, ScoreError>,
>(
    pairs: Vec<(Agent<Gene>, Agent<Gene>)>,
    data: &Data,
    score_provider: &mut GeneralScoreProvider<Gene, Data, F>,
) -> (r: Vec<(isize, Agent<Gene>)>)
    requires
        forall|a: &Agent<Gene>| #[trigger] call_requires(old(score_provider).func(), (a, data)),
        old(score_provider).offset_spec() >= 1,
        old(score_provider).offset_spec() <= u64::MAX / 2,
    ensures
        final(score_provider).func() == old(score_provider).func(),
        final(score_provider).offset_spec() == old(score_provider).offset_spec(),
        old(score_provider).cache().submap_of(final(score_provider).cache()),
        r@.len() <= pairs@.len(),
        forall|i: int|
            0 <= i < r@.len() ==> slot_drawn_for(
                #[trigger] r@[i],
                final(score_provider).cache(),
                old(score_provider).offset_spec(),
            ),
        (forall|a: &Agent<Gene>, ret: Result<u64, ScoreError>|
            call_ensures(old(score_provider).func(), (a, data), ret) ==> ret is Ok) ==> r@.len()
            == pairs@.len(),
{
    let ghost n_pairs = pairs@.len();
    let mut children: Vec<Agent<Gene>> = Vec::new();
    let mut rest = pairs;
    while rest.len() > 0
        invariant
            children@.len() + rest@.len() == n_pairs,
        decreases rest@.len(),
    {
        let (parent_one, parent_two) = rest.remove(0);
        let child = crossover(&parent_one, &parent_two);
        children.push(child);
    }
    let children = score_provider.evaluate_scores(children, data);
    let mut agents: Vec<(isize, Agent<Gene>)> = Vec::new();
    let mut rest = children;
    while rest.len() > 0
        invariant
            agents@.len() + rest@.len() <= n_pairs,
            (forall|a: &Agent<Gene>, ret: Result<u64, ScoreError>|
                call_ensures(old(score_provider).func(), (a, data), ret) ==> ret is Ok)
                ==> agents@.len() + rest@.len() == n_pairs,
            score_provider.func() == old(score_provider).func(),
            score_provider.offset_spec() == old(score_provider).offset_spec(),
            score_provider.offset_spec() >= 1,
            score_provider.offset_spec() <= u64::MAX / 2,
            old(score_provider).cache().submap_of(score_provider.cache()),
            forall|i: int|
                0 <= i < agents@.len() ==> slot_drawn_for(
                    #[trigger] agents@[i],
                    score_provider.cache(),
                    old(score_provider).offset_spec(),
                ),
            forall|a: &Agent<Gene>| #[trigger] call_requires(
                old(score_provider).func(),
                (a, data),
            ),
        decreases rest@.len(),
    {
        let ghost pre = score_provider.cache();
        let ghost pre_agents = agents@;
        let ghost offset = old(score_provider).offset_spec();
        let agent = rest.remove(0);
        let ghost ag = agent;
        let score_index = score_provider.get_score(&agent, data);
        match score_index {
            Ok(s) => {
                proof {
                    let h = ag.hash_value();
                    if pre.contains_key(h) {
                        assert(score_provider.cache() == pre);
                    } else {
                        let ft = choose|ft: u64|
                            {
                                &&& #[trigger] call_ensures(
                                    old(score_provider).func(),
                                    (&agent, data),
                                    Result::<u64, ScoreError>::Ok(ft),
                                )
                                &&& score_provider.cache() == pre.insert(h, ft)
                                &&& (exists|j: int|
                                    0 <= j < 2 * offset && s as int == jittered_slot(
                                        ft as int,
                                        j,
                                        offset as int,
                                    ))
                            };
                        assert(score_provider.cache()[h] == ft);
                    }
                    assert(score_provider.cache().contains_key(h));
                    assert(exists|j: int|
                        0 <= j < 2 * offset && s as int == #[trigger] jittered_slot(
                            score_provider.cache()[h] as int,
                            j,
                            offset as int,
                        ));
                }
                let slot = score_to_slot(s);
                agents.push((slot, agent));
                proof {
                    assert(slot_drawn_for((slot, ag), score_provider.cache(), offset)) by {
                        let j0 = choose|j: int|
                            0 <= j < 2 * offset && s as int == #[trigger] jittered_slot(
                                score_provider.cache()[ag.hash_value()] as int,
                                j,
                                offset as int,
                            );
                        assert(0 <= j0 < 2 * offset && slot as int == slot_from_score(
                            jittered_slot(
                                score_provider.cache()[ag.hash_value()] as int,
                                j0,
                                offset as int,
                            ),
                        ));
                    }
                    assert forall|i: int| 0 <= i < agents@.len() implies slot_drawn_for(
                        #[trigger] agents@[i],
                        score_provider.cache(),
                        offset,
                    ) by {
                        if i < pre_agents.len() {
                            assert(agents@[i] == pre_agents[i]);
                            assert(slot_drawn_for(pre_agents[i], pre, offset));
                            let hh = pre_agents[i].1.hash_value();
                            assert(score_provider.cache().contains_key(hh)
                                && score_provider.cache()[hh] == pre[hh]);
                            lemma_slot_drawn_preserved(
                                pre_agents[i],
                                pre,
                                score_provider.cache(),
                                offset,
                            );
                        } else {
                            assert(agents@[i] == (slot, ag));
                        }
                    }
                }
            },
            Err(_) => {},
        }
        proof {
            assert forall|k: u64| #[trigger]
                old(score_provider).cache().contains_key(k) implies score_provider.cache().contains_key(
                k,
            ) && score_provider.cache()[k] == old(score_provider).cache()[k] by {
                assert(pre.contains_key(k) && pre[k] == old(score_provider).cache()[k]);
            }
        }
    }
    agents
}

fn mutate_agents<Gene: Genotype, Data, F: Fn(&Agent<Gene>, &Data) -> Result<u64, ScoreError>>(
    population: Population<Gene>,
    selection: Selection,
    data: &Data,
    score_provider: &mut GeneralScoreProvider<Gene, Data, F>,
) -> (r: Population<Gene>)
    requires
        population.wf(),
        selection.wf(),
        forall|a: &Agent<Gene>| #[trigger] call_requires(old(score_provider).func(), (a, data)),
        old(score_provider).offset_spec() >= 1,
        old(score_provider).offset_spec() <= u64::MAX / 2,
    ensures
        r.wf(),
        r.unique() == population.unique(),
        r.entries().len() >= population.entries().len(),
        forall|t: isize|
            slot_occupied(population.entries(), t) ==> slot_occupied(r.entries(), t),
        population.entries().len() == 0 ==> r.entries().len() == 0,
        final(score_provider).func() == old(score_provider).func(),
        final(score_provider).offset_spec() == old(score_provider).offset_spec(),
        old(score_provider).cache().submap_of(final(score_provider).cache()),
        exists|cs: Seq<(isize, Agent<Gene>)>|
            {
                &&& #[trigger] population_after_set(
                    population.entries(),
                    population.reg(),
                    population.unique(),
                    cs,
                ) == (r.entries(), r.reg())
                &&& (forall|i: int|
                    0 <= i < cs.len() ==> slot_drawn_for(
                        #[trigger] cs[i],
                        final(score_provider).cache(),
                        old(score_provider).offset_spec(),
                    ))
            },
{
    let ghost orig = population;
    let ghost offset = old(score_provider).offset_spec();
    let mut population = population;
    let children = get_mutated_agents(selection.agents(&population));
    let children = score_provider.evaluate_scores(children, data);
    let ghost mut cs: Seq<(isize, Agent<Gene>)> = Seq::empty();
    let mut rest = children;
    while rest.len() > 0
        invariant
            population.wf(),
            population.unique() == orig.unique(),
            population.entries().len() >= orig.entries().len(),
            forall|t: isize|
                slot_occupied(orig.entries(), t) ==> slot_occupied(population.entries(), t),
            orig.entries().len() == 0 ==> rest@.len() == 0 && population.entries().len() == 0,
            score_provider.func() == old(score_provider).func(),
            score_provider.offset_spec() == old(score_provider).offset_spec(),
            offset == old(score_provider).offset_spec(),
            score_provider.offset_spec() >= 1,
            score_provider.offset_spec() <= u64::MAX / 2,
            old(score_provider).cache().submap_of(score_provider.cache()),
            population_after_set(orig.entries(), orig.reg(), orig.unique(), cs) == (
                population.entries(),
                population.reg(),
            ),
            forall|i: int|
                0 <= i < cs.len() ==> slot_drawn_for(
                    #[trigger] cs[i],
                    score_provider.cache(),
                    offset,
                ),
            forall|a: &Agent<Gene>| #[trigger] call_requires(
                old(score_provider).func(),
                (a, data),
            ),
        decreases rest@.len(),
    {
        let ghost pre = score_provider.cache();
        let ghost pre_cs = cs;
        let agent = rest.remove(0);
        let ghost ag = agent;
        let score_index = score_provider.get_score(&agent, data);
        proof {
            assert forall|i: int| 0 <= i < cs.len() implies slot_drawn_for(
                #[trigger] cs[i],
                score_provider.cache(),
                offset,
            ) by {
                assert(slot_drawn_for(cs[i], pre, offset));
                let hh = cs[i].1.hash_value();
                assert(score_provider.cache().contains_key(hh) && score_provider.cache()[hh]
                    == pre[hh]);
                lemma_slot_drawn_preserved(cs[i], pre, score_provider.cache(), offset);
            }
        }
        match score_index {
            Ok(s) => {
                proof {
                    let h = ag.hash_value();
                    if pre.contains_key(h) {
                        assert(score_provider.cache() == pre);
                    } else {
                        let ft = choose|ft: u64|
                            {
                                &&& #[trigger] call_ensures(
                                    old(score_provider).func(),
                                    (&agent, data),
                                    Result::<u64, ScoreError>::Ok(ft),
                                )
                                &&& score_provider.cache() == pre.insert(h, ft)
                                &&& (exists|j: int|
                                    0 <= j < 2 * offset && s as int == jittered_slot(
                                        ft as int,
                                        j,
                                        offset as int,
                                    ))
                            };
                        assert(score_provider.cache()[h] == ft);
                    }
                    assert(score_provider.cache().contains_key(h));
                    assert(exists|j: int|
                        0 <= j < 2 * offset && s as int == #[trigger] jittered_slot(
                            score_provider.cache()[h] as int,
                            j,
                            offset as int,
                        ));
                }
                let ghost pre_pop = population;
                let slot = score_to_slot(s);
                proof {
                    assert(slot_drawn_for((slot, ag), score_provider.cache(), offset)) by {
                        let j0 = choose|j: int|
                            0 <= j < 2 * offset && s as int == #[trigger] jittered_slot(
                                score_provider.cache()[ag.hash_value()] as int,
                                j,
                                offset as int,
                            );
                        assert(0 <= j0 < 2 * offset && slot as int == slot_from_score(
                            jittered_slot(
                                score_provider.cache()[ag.hash_value()] as int,
                                j0,
                                offset as int,
                            ),
                        ));
                    }
                }
                population.insert(slot, agent);
                proof {
                    assert forall|t: isize|
                        slot_occupied(orig.entries(), t) implies slot_occupied(
                        population.entries(),
                        t,
                    ) by {
                        assert(slot_occupied(pre_pop.entries(), t));
                        if pre_pop.unique() && pre_pop.reg().contains(ag.hash_value()) {
                        } else if t == slot {
                            assert(lookup(population.entries(), t) == Some(ag));
                        } else {
                            assert(lookup(population.entries(), t) == lookup(
                                pre_pop.entries(),
                                t,
                            ));
                        }
                    }
                    lemma_population_after_set_push(
                        orig.entries(),
                        orig.reg(),
                        orig.unique(),
                        cs,
                        slot,
                        ag,
                    );
                    cs = cs.push((slot, ag));
                    assert forall|i: int| 0 <= i < cs.len() implies slot_drawn_for(
                        #[trigger] cs[i],
                        score_provider.cache(),
                        offset,
                    ) by {
                        if i < cs.len() - 1 {
                            assert(cs[i] == pre_cs[i]);
                        } else {
                            assert(cs[i] == (slot, ag));
                        }
                    }
                }
            },
            Err(_) => {},
        }
        proof {
            assert forall|k: u64| #[trigger]
                old(score_provider).cache().contains_key(k) implies score_provider.cache().contains_key(
                k,
            ) && score_provider.cache()[k] == old(score_provider).cache()[k] by {
                assert(pre.contains_key(k) && pre[k] == old(score_provider).cache()[k]);
            }
        }
    }
    population
}

fn crossover_agents<Gene: Genotype, Data, F: Fn(&Agent<Gene>, &Data) -> Result<u64, ScoreError>>(
    population: Population<Gene>,
    selection: Selection,
    data: &Data,
    score_provider: &mut GeneralScoreProvider<Gene, Data, F>,
) -> (r: Population<Gene>)
    requires
        population.wf(),
        selection.wf(),
        forall|a: &Agent<Gene>| #[trigger] call_requires(old(score_provider).func(), (a, data)),
        old(score_provider).offset_spec() >= 1,
        old(score_provider).offset_spec() <= u64::MAX / 2,
    ensures
        r.wf(),
        r.unique() == population.unique(),
        r.entries().len() >= population.entries().len(),
        forall|t: isize|
            slot_occupied(population.entries(), t) ==> slot_occupied(r.entries(), t),
        population.entries().len() == 0 ==> r.entries().len() == 0,
        final(score_provider).func() == old(score_provider).func(),
        final(score_provider).offset_spec() == old(score_provider).offset_spec(),
        old(score_provider).cache().submap_of(final(score_provider).cache()),
        exists|cs: Seq<(isize, Agent<Gene>)>|
            {
                &&& #[trigger] population_after_set(
                    population.entries(),
                    population.reg(),
                    population.unique(),
                    cs,
                ) == (r.entries(), r.reg())
                &&& (forall|i: int|
                    0 <= i < cs.len() ==> slot_drawn_for(
                        #[trigger] cs[i],
                        final(score_provider).cache(),
                        old(score_provider).offset_spec(),
                    ))
            },
{
    let ghost orig = population;
    let ghost offset = old(score_provider).offset_spec();
    let mut population = population;
    let pairs = create_random_pairs(selection.agents(&population));
    let children = create_children_from_crossover(pairs, data, score_provider);
    let ghost scored = children@;
    let ghost mut n: int = 0;
    let ghost mut cs: Seq<(isize, Agent<Gene>)> = Seq::empty();
    let mut rest = children;
    while rest.len() > 0
        invariant
            population.wf(),
            population.unique() == orig.unique(),
            population.entries().len() >= orig.entries().len(),
            forall|t: isize|
                slot_occupied(orig.entries(), t) ==> slot_occupied(population.entries(), t),
            orig.entries().len() == 0 ==> rest@.len() == 0 && population.entries().len() == 0,
            0 <= n <= scored.len(),
            rest@ == scored.skip(n),
            cs == scored.take(n),
            forall|i: int|
                0 <= i < scored.len() ==> slot_drawn_for(
                    #[trigger] scored[i],
                    score_provider.cache(),
                    offset,
                ),
            population_after_set(orig.entries(), orig.reg(), orig.unique(), cs) == (
                population.entries(),
                population.reg(),
            ),
        decreases rest@.len(),
    {
        let (score_index, agent) = rest.remove(0);
        let ghost pre_cs = cs;
        let ghost pre_pop = population;
        let ghost ag = agent;
        let slot = score_index;
        proof {
            assert((slot, ag) == scored[n]);
            assert(rest@ =~= scored.skip(n + 1));
        }
        population.insert(slot, agent);
        proof {
            assert forall|t: isize|
                slot_occupied(orig.entries(), t) implies slot_occupied(
                population.entries(),
                t,
            ) by {
                assert(slot_occupied(pre_pop.entries(), t));
                if pre_pop.unique() && pre_pop.reg().contains(ag.hash_value()) {
                } else if t == slot {
                    assert(lookup(population.entries(), t) == Some(ag));
                } else {
                    assert(lookup(population.entries(), t) == lookup(pre_pop.entries(), t));
                }
            }
            lemma_population_after_set_push(
                orig.entries(),
                orig.reg(),
                orig.unique(),
                pre_cs,
                slot,
                ag,
            );
            cs = cs.push((slot, ag));
            n = n + 1;
            assert(cs =~= scored.take(n));
        }
    }
    proof {
        assert forall|i: int| 0 <= i < cs.len() implies slot_drawn_for(
            #[trigger] cs[i],
            score_provider.cache(),
            offset,
        ) by {
            assert(cs[i] == scored[i]);
        }
    }
    population
}

fn cull_agents<Gene: Genotype>(population: Population<Gene>, selection: Selection) -> (r:
    Population<Gene>)
    requires
        population.wf(),
        selection.wf(),
        !(selection.sel_type() is RandomAny),
    ensures
        r.wf(),
        r.unique() == population.unique(),
        ({
            let es = population.entries();
            let count = spec_rate_to_number(
                es.len() as int,
                selection.proportion_spec() as int,
                selection.preferred_minimum_spec() as int,
            );
            &&& count >= es.len() ==> r.entries() == es && r.reg() == population.reg()
            &&& (count < es.len() && selection.sel_type() is LowestScore) ==> r.entries()
                == es.skip(count)
            &&& (count < es.len() && selection.sel_type() is HighestScore) ==> r.entries()
                == es.take(count + 1)
        }),
{
    let mut population = population;
    let ghost es = population.entries();
    let cull_number = selection.count(&population);
    if cull_number >= population.len() {
        return population;
    }
    let scores = population.get_scores();
    let threshold = scores[cull_number];
    proof {
        assert(threshold == es[cull_number as int].0);
    }
    match selection.selection_type() {
        SelectionType::LowestScore => {
            population.cull_all_below(threshold);
            proof {
                assert forall|j: int| 0 <= j < cull_number implies (#[trigger] es[j]).0
                    < threshold by {
                    assert(es[j].0 < es[cull_number as int].0);
                }
                assert forall|j: int| cull_number <= j < es.len() implies (#[trigger] es[j]).0
                    >= threshold by {
                    if j > cull_number {
                        assert(es[cull_number as int].0 < es[j].0);
                    }
                }
            }
        },
        SelectionType::HighestScore => {
            population.cull_all_above(threshold);
            proof {
                assert forall|j: int| 0 <= j < cull_number + 1 implies (#[trigger] es[j]).0
                    <= threshold by {
                    if j < cull_number {
                        assert(es[j].0 < es[cull_number as int].0);
                    }
                }
                assert forall|j: int| cull_number + 1 <= j < es.len() implies (#[trigger] es[j]).0
                    > threshold by {
                    assert(es[cull_number as int].0 < es[j].0);
                }
            }
        },
        SelectionType::RandomAny => {},
    }
    population
}

/// Pairs an operation kind with the selection it applies to.
pub struct Operation<Gene, Data> {
    selection: Selection,
    operation_type: OperationType,
    gene: PhantomData<Gene>,
    data: PhantomData<Data>,
}

impl<Gene, Data> Clone for Operation<Gene, Data> {
    fn clone(&self) -> (r: Self)
        ensures
            r.selection_spec() == self.selection_spec(),
            r.op_type() == self.op_type(),
    {
        Operation {
            selection: self.selection,
            operation_type: self.operation_type,
            gene: PhantomData,
            data: PhantomData,
        }
    }
}

impl<Gene, Data> Operation<Gene, Data> {
    pub closed spec fn selection_spec(self) -> Selection {
        self.selection
    }

    pub closed spec fn op_type(self) -> OperationType {
        self.operation_type
    }

    pub fn with_values(selection: Selection, operation_type: OperationType) -> (r: Self)
        requires
            selection.wf(),
        ensures
            r.selection_spec() == selection,
            r.op_type() == operation_type,
            r.selection_spec().wf(),
    {
        Self { selection, operation_type, gene: PhantomData, data: PhantomData }
    }

    pub fn new(operation_type: OperationType, selection: Selection) -> (r: Self)
        requires
            selection.wf(),
        ensures
            r.selection_spec() == selection,
            r.op_type() == operation_type,
            r.selection_spec().wf(),
    {
        Self { selection, operation_type, gene: PhantomData, data: PhantomData }
    }
}

impl<Gene: Genotype, Data> Operation<Gene, Data> {
    /// Applies the operation to the population. Culling with a random
    /// selection is an unsupported configuration and is excluded outright.
    pub fn run<F: Fn(&Agent<Gene>, &Data) -> Result<u64, ScoreError>>(
        &self,
        population: Population<Gene>,
        data: &Data,
        score_provider: &mut GeneralScoreProvider<Gene, Data, F>,
    ) -> (r: Population<Gene>)
        requires
            population.wf(),
            self.selection_spec().wf(),
            !(self.op_type() is Cull && self.selection_spec().sel_type() is RandomAny),
            forall|a: &Agent<Gene>| #[trigger] call_requires(
                old(score_provider).func(),
                (a, data),
            ),
            old(score_provider).offset_spec() >= 1,
            old(score_provider).offset_spec() <= u64::MAX / 2,
        ensures
            r.wf(),
            r.unique() == population.unique(),
            final(score_provider).func() == old(score_provider).func(),
            final(score_provider).offset_spec() == old(score_provider).offset_spec(),
            old(score_provider).cache().submap_of(final(score_provider).cache()),
            !(self.op_type() is Cull) ==> (r.entries().len() >= population.entries().len()
                && (forall|t: isize|
                slot_occupied(population.entries(), t) ==> slot_occupied(r.entries(), t)) && (
            population.entries().len() == 0 ==> r.entries().len() == 0)),
            !(self.op_type() is Cull) ==> exists|cs: Seq<(isize, Agent<Gene>)>|
                {
                    &&& #[trigger] population_after_set(
                        population.entries(),
                        population.reg(),
                        population.unique(),
                        cs,
                    ) == (r.entries(), r.reg())
                    &&& (forall|i: int|
                        0 <= i < cs.len() ==> slot_drawn_for(
                            #[trigger] cs[i],
                            final(score_provider).cache(),
                            old(score_provider).offset_spec(),
                        ))
                },
            self.op_type() is Cull ==> ({
                let es = population.entries();
                let count = spec_rate_to_number(
                    es.len() as int,
                    self.selection_spec().proportion_spec() as int,
                    self.selection_spec().preferred_minimum_spec() as int,
                );
                &&& count >= es.len() ==> r.entries() == es && r.reg() == population.reg()
                &&& (count < es.len() && self.selection_spec().sel_type() is LowestScore)
                    ==> r.entries() == es.skip(count)
                &&& (count < es.len() && self.selection_spec().sel_type() is HighestScore)
                    ==> r.entries() == es.take(count + 1)
            }),
    {
        match self.operation_type {
            OperationType::Mutate => mutate_agents(population, self.selection, data, score_provider),
            OperationType::Crossover => crossover_agents(
                population,
                self.selection,
                data,
                score_provider,
            ),
            OperationType::Cull => cull_agents(population, self.selection),
        }
    }
}

/// Culls the lowest-slotted proportion of the population (in thousandths,
/// floored at the preferred minimum); a cull count reaching the whole
/// population is a no-op.
pub fn cull_lowest_agents<Gene: Genotype>(
    population: Population<Gene>,
    rate: u64,
    preferred_minimum: usize,
) -> (r: Population<Gene>)
    requires
        population.wf(),
        rate <= 1000,
    ensures
        r.wf(),
        r.unique() == population.unique(),
        ({
            let es = population.entries();
            let count = spec_rate_to_number(
                es.len() as int,
                rate as int,
                preferred_minimum as int,
            );
            &&& count >= es.len() ==> r.entries() == es && r.reg() == population.reg()
            &&& count < es.len() ==> r.entries() == es.skip(count)
        }),
{
    let mut population = population;
    let ghost es = population.entries();
    let cull_number = rate_to_number(population.len(), rate, preferred_minimum);
    if cull_number >= population.len() {
        return population;
    }
    let scores = population.get_scores();
    let threshold = scores[cull_number];
    proof {
        assert(threshold == es[cull_number as int].0);
    }
    population.cull_all_below(threshold);
    proof {
        assert forall|j: int| 0 <= j < cull_number implies (#[trigger] es[j]).0 < threshold by {
            assert(es[j].0 < es[cull_number as int].0);
        }
        assert forall|j: int| cull_number <= j < es.len() implies (#[trigger] es[j]).0
            >= threshold by {
            if j > cull_number {
                assert(es[cull_number as int].0 < es[j].0);
            }
        }
    }
    population
}

/// Selects a random proportion of the population, mutates a clone of each
/// selected agent, and inserts the clones at the slots the index function
/// assigns.
pub fn mutate_some_agents<Gene: Genotype, Data, F: Fn(&Agent<Gene>, &Data) -> isize>(
    population: Population<Gene>,
    rate: u64,
    data: &Data,
    get_score_index: &F,
    preferred_minimum: usize,
) -> (r: Population<Gene>)
    requires
        population.wf(),
        rate <= 1000,
        forall|a: &Agent<Gene>| #[trigger] call_requires(*get_score_index, (a, data)),
    ensures
        r.wf(),
        r.unique() == population.unique(),
        r.entries().len() >= population.entries().len(),
        forall|t: isize|
            slot_occupied(population.entries(), t) ==> slot_occupied(r.entries(), t),
        population.entries().len() == 0 ==> r.entries().len() == 0,
        exists|cs: Seq<(isize, Agent<Gene>)>|
            {
                &&& #[trigger] population_after_set(
                    population.entries(),
                    population.reg(),
                    population.unique(),
                    cs,
                ) == (r.entries(), r.reg())
                &&& (forall|i: int|
                    0 <= i < cs.len() ==> call_ensures(
                        *get_score_index,
                        (&(#[trigger] cs[i]).1, data),
                        cs[i].0,
                    ))
                &&& (population.entries().len() > 0 && spec_rate_to_number(
                    population.entries().len() as int,
                    rate as int,
                    preferred_minimum as int,
                ) >= 1 ==> cs.len() >= 1)
            },
{
    let ghost orig = population;
    let mut population = population;
    let selection = Selection::with_values(SelectionType::RandomAny, rate, preferred_minimum);
    let children = get_mutated_agents(selection.agents(&population));
    let ghost n_children = children@.len();
    let ghost mut cs: Seq<(isize, Agent<Gene>)> = Seq::empty();
    let mut rest = children;
    while rest.len() > 0
        invariant
            population.wf(),
            population.unique() == orig.unique(),
            population.entries().len() >= orig.entries().len(),
            forall|t: isize|
                slot_occupied(orig.entries(), t) ==> slot_occupied(population.entries(), t),
            orig.entries().len() == 0 ==> rest@.len() == 0 && population.entries().len() == 0,
            cs.len() + rest@.len() == n_children,
            population_after_set(orig.entries(), orig.reg(), orig.unique(), cs) == (
                population.entries(),
                population.reg(),
            ),
            forall|i: int|
                0 <= i < cs.len() ==> call_ensures(
                    *get_score_index,
                    (&(#[trigger] cs[i]).1, data),
                    cs[i].0,
                ),
            forall|a: &Agent<Gene>| #[trigger] call_requires(*get_score_index, (a, data)),
        decreases rest@.len(),
    {
        let agent = rest.remove(0);
        let score = get_score_index(&agent, data);
        let ghost pre_pop = population;
        let ghost ag = agent;
        let ghost pre_cs = cs;
        let slot = score;
        population.insert(slot, agent);
        proof {
            assert forall|t: isize|
                slot_occupied(orig.entries(), t) implies slot_occupied(
                population.entries(),
                t,
            ) by {
                assert(slot_occupied(pre_pop.entries(), t));
                if pre_pop.unique() && pre_pop.reg().contains(ag.hash_value()) {
                } else if t == slot {
                    assert(lookup(population.entries(), t) == Some(ag));
                } else {
                    assert(lookup(population.entries(), t) == lookup(pre_pop.entries(), t));
                }
            }
            lemma_population_after_set_push(
                orig.entries(),
                orig.reg(),
                orig.unique(),
                pre_cs,
                slot,
                ag,
            );
            cs = cs.push((slot, ag));
            assert(call_ensures(*get_score_index, (&ag, data), slot));
            assert forall|i: int| 0 <= i < cs.len() implies call_ensures(
                *get_score_index,
                (&(#[trigger] cs[i]).1, data),
                cs[i].0,
            ) by {
                if i < pre_cs.len() {
                    assert(cs[i] == pre_cs[i]);
                } else {
                    assert(cs[i] == (slot, ag));
                }
            }
        }
    }
    proof {
        if orig.entries().len() > 0 && spec_rate_to_number(
            orig.entries().len() as int,
            rate as int,
            preferred_minimum as int,
        ) >= 1 {
            assert(cs.len() >= 1);
        }
    }
    population
}

/// Selects the top-ranked proportion of the population, pairs the selected
/// agents at random, crosses each pair, and inserts the children at the
/// slots the index function assigns.
pub fn mate_alpha_agents<Gene: Genotype, Data, F: Fn(&Agent<Gene>, &Data) -> isize>(
    population: Population<Gene>,
    rate: u64,
    data: &Data,
    get_score_index: &F,
    preferred_minimum: usize,
) -> (r: Population<Gene>)
    requires
        population.wf(),
        rate <= 1000,
        forall|a: &Agent<Gene>| #[trigger] call_requires(*get_score_index, (a, data)),
    ensures
        r.wf(),
        r.unique() == population.unique(),
        r.entries().len() >= population.entries().len(),
        forall|t: isize|
            slot_occupied(population.entries(), t) ==> slot_occupied(r.entries(), t),
        population.entries().len() == 0 ==> r.entries().len() == 0,
        exists|cs: Seq<(isize, Agent<Gene>)>|
            {
                &&& #[trigger] population_after_set(
                    population.entries(),
                    population.reg(),
                    population.unique(),
                    cs,
                ) == (r.entries(), r.reg())
                &&& (forall|i: int|
                    0 <= i < cs.len() ==> call_ensures(
                        *get_score_index,
                        (&(#[trigger] cs[i]).1, data),
                        cs[i].0,
                    ))
            },
{
    let selection = Selection::with_values(SelectionType::HighestScore, rate, preferred_minimum);
    mate_selected_agents(population, selection, data, get_score_index)
}

/// Selects a random proportion of the population, pairs the selected agents
/// at random, crosses each pair, and inserts the children at the slots the
/// index function assigns.
pub fn mate_some_agents<Gene: Genotype, Data, F: Fn(&Agent<Gene>, &Data) -> isize>(
    population: Population<Gene>,
    rate: u64,
    data: &Data,
    get_score_index: &F,
    preferred_minimum: usize,
) -> (r: Population<Gene>)
    requires
        population.wf(),
        rate <= 1000,
        forall|a: &Agent<Gene>| #[trigger] call_requires(*get_score_index, (a, data)),
    ensures
        r.wf(),
        r.unique() == population.unique(),
        r.entries().len() >= population.entries().len(),
        forall|t: isize|
            slot_occupied(population.entries(), t) ==> slot_occupied(r.entries(), t),
        population.entries().len() == 0 ==> r.entries().len() == 0,
        exists|cs: Seq<(isize, Agent<Gene>)>|
            {
                &&& #[trigger] population_after_set(
                    population.entries(),
                    population.reg(),
                    population.unique(),
                    cs,
                ) == (r.entries(), r.reg())
                &&& (forall|i: int|
                    0 <= i < cs.len() ==> call_ensures(
                        *get_score_index,
                        (&(#[trigger] cs[i]).1, data),
                        cs[i].0,
                    ))
            },
{
    let selection = Selection::with_values(SelectionType::RandomAny, rate, preferred_minimum);
    mate_selected_agents(population, selection, data, get_score_index)
}

fn mate_selected_agents<Gene: Genotype, Data, F: Fn(&Agent<Gene>, &Data) -> isize>(
    population: Population<Gene>,
    selection: Selection,
    data: &Data,
    get_score_index: &F,
) -> (r: Population<Gene>)
    requires
        population.wf(),
        selection.wf(),
        forall|a: &Agent<Gene>| #[trigger] call_requires(*get_score_index, (a, data)),
    ensures
        r.wf(),
        r.unique() == population.unique(),
        r.entries().len() >= population.entries().len(),
        forall|t: isize|
            slot_occupied(population.entries(), t) ==> slot_occupied(r.entries(), t),
        population.entries().len() == 0 ==> r.entries().len() == 0,
        exists|cs: Seq<(isize, Agent<Gene>)>|
            {
                &&& #[trigger] population_after_set(
                    population.entries(),
                    population.reg(),
                    population.unique(),
                    cs,
                ) == (r.entries(), r.reg())
                &&& (forall|i: int|
                    0 <= i < cs.len() ==> call_ensures(
                        *get_score_index,
                        (&(#[trigger] cs[i]).1, data),
                        cs[i].0,
                    ))
            },
{
    let ghost orig = population;
    let mut population = population;
    let pairs = create_random_pairs(selection.agents(&population));
    let ghost mut cs: Seq<(isize, Agent<Gene>)> = Seq::empty();
    let mut rest = pairs;
    while rest.len() > 0
        invariant
            population.wf(),
            population.unique() == orig.unique(),
            population.entries().len() >= orig.entries().len(),
            forall|t: isize|
                slot_occupied(orig.entries(), t) ==> slot_occupied(population.entries(), t),
            orig.entries().len() == 0 ==> rest@.len() == 0 && population.entries().len() == 0,
            population_after_set(orig.entries(), orig.reg(), orig.unique(), cs) == (
                population.entries(),
                population.reg(),
            ),
            forall|i: int|
                0 <= i < cs.len() ==> call_ensures(
                    *get_score_index,
                    (&(#[trigger] cs[i]).1, data),
                    cs[i].0,
                ),
            forall|a: &Agent<Gene>| #[trigger] call_requires(*get_score_index, (a, data)),
        decreases rest@.len(),
    {
        let (parent_one, parent_two) = rest.remove(0);
        let child = crossover(&parent_one, &parent_two);
        let score = get_score_index(&child, data);
        let ghost pre_pop = population;
        let ghost ag = child;
        let ghost pre_cs = cs;
        let slot = score;
        population.insert(slot, child);
        proof {
            assert forall|t: isize|
                slot_occupied(orig.entries(), t) implies slot_occupied(
                population.entries(),
                t,
            ) by {
                assert(slot_occupied(pre_pop.entries(), t));
                if pre_pop.unique() && pre_pop.reg().contains(ag.hash_value()) {
                } else if t == slot {
                    assert(lookup(population.entries(), t) == Some(ag));
                } else {
                    assert(lookup(population.entries(), t) == lookup(pre_pop.entries(), t));
                }
            }
            lemma_population_after_set_push(
                orig.entries(),
                orig.reg(),
                orig.unique(),
                pre_cs,
                slot,
                ag,
            );
            cs = cs.push((slot, ag));
            assert(call_ensures(*get_score_index, (&ag, data), slot));
            assert forall|i: int| 0 <= i < cs.len() implies call_ensures(
                *get_score_index,
                (&(#[trigger] cs[i]).1, data),
                cs[i].0,
            ) by {
                if i < pre_cs.len() {
                    assert(cs[i] == pre_cs[i]);
                } else {
                    assert(cs[i] == (slot, ag));
                }
            }
        }
    }
    population
}

} // verus!
