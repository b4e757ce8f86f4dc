use vstd::prelude::*;

use crate::agent::{Agent, Genotype};
use crate::operations::{
    cull_lowest_agents, lemma_rate_to_number_partial, mate_alpha_agents, mate_some_agents,
    mutate_some_agents, spec_rate_to_number,
};
use crate::population::{population_after_set, seeded_entry_ok, slot_occupied, Population};
use vstd::arithmetic::power::{lemma_pow0, lemma_pow1, lemma_pow_adds, lemma_pow_increases, pow};

verus! {

fn pow_usize(base: usize, exp: u32) -> (r: usize)
    requires
        base >= 1,
        pow(base as int, exp as nat) <= usize::MAX,
    ensures
        r as int == pow(base as int, exp as nat),
{
    let mut r: usize = 1;
    let mut i: u32 = 0;
    proof {
        lemma_pow0(base as int);
    }
    while i < exp
        invariant
            base >= 1,
            i <= exp,
            pow(base as int, exp as nat) <= usize::MAX,
            r as int == pow(base as int, i as nat),
        decreases exp - i,
    {
        proof {
            lemma_pow1(base as int);
            lemma_pow_adds(base as int, i as nat, 1);
            lemma_pow_increases(base as nat, (i + 1) as nat, exp as nat);
        }
        r = r * base;
        i += 1;
    }
    r
}

/// What seeding leaves behind: a well-formed non-uniqueness population of at
/// most `start_size` agents (at least one when any were asked for), each
/// carrying `number_of_genes` genes, each slotted by the downward collision
/// fallback from a score the index function returned for it.
pub open spec fn seeded_population_shape<
    Gene: Genotype,
    Data,
    F: Fn(&Agent<Gene>, &Data) -> isize,
>(
    f: F,
    data: &Data,
    start_size: usize,
    number_of_genes: usize,
    s: Population<Gene>,
) -> bool {
    &&& s.wf()
    &&& !s.unique()
    &&& s.entries().len() <= start_size
    &&& (start_size >= 1 ==> s.entries().len() >= 1)
    &&& (forall|k: int|
        0 <= k < s.entries().len() ==> (#[trigger] s.entries()[k]).1.genes_view().len()
            == number_of_genes)
    &&& (forall|k: int|
        0 <= k < s.entries().len() ==> seeded_entry_ok(f, data, #[trigger] s.entries()[k]))
}

/// Seeds one fresh non-unique population of random agents, slotted by the
/// index function with the downward collision fallback.
fn create_population<Gene: Genotype, Data, F: Fn(&Agent<Gene>, &Data) -> isize>(
    start_size: usize,
    data: &Data,
    number_of_genes: usize,
    get_score_index: &F,
) -> (r: Population<Gene>)
    requires
        forall|a: &Agent<Gene>| #[trigger] call_requires(*get_score_index, (a, data)),
    ensures
        seeded_population_shape(
            *get_score_index,
            data,
            start_size,
            number_of_genes,
            r,
        ),
{
    Population::new(start_size, number_of_genes, false, data, get_score_index)
}

/// One operator cycle's effect on a population: the mutate and mate
/// operators grow it into some population `g` — never emptying an occupied
/// slot — and the cycle's result is `g` with its lowest fiftieth culled
/// (which is a no-op when the cull count reaches the whole of `g`).
pub open spec fn iteration_cycle_shape<Gene: Genotype>(
    p: Population<Gene>,
    q: Population<Gene>,
) -> bool {
    exists|g: Population<Gene>|
        {
            &&& #[trigger] g.wf()
            &&& g.unique() == p.unique()
            &&& g.entries().len() >= p.entries().len()
            &&& (forall|t: isize|
                slot_occupied(p.entries(), t) ==> slot_occupied(g.entries(), t))
            &&& q.unique() == g.unique()
            &&& ({
                let count = spec_rate_to_number(g.entries().len() as int, 20, 0);
                if count >= g.entries().len() {
                    q.entries() == g.entries() && q.reg() == g.reg()
                } else {
                    q.entries() == g.entries().skip(count)
                }
            })
        }
}

/// The population advanced through `n` operator cycles, each of the shape
/// `iteration_cycle_shape`.
pub open spec fn advanced_through<Gene: Genotype>(
    p: Population<Gene>,
    n: nat,
    q: Population<Gene>,
) -> bool
    decreases n,
{
    if n == 0 {
        q == p
    } else {
        exists|mid: Population<Gene>|
            advanced_through(p, (n - 1) as nat, mid) && #[trigger] iteration_cycle_shape(mid, q)
    }
}

/// The population model after union-merging each listed population's
/// entries in order into a non-uniqueness population, later entries
/// overwriting equal slots.
pub open spec fn merge_fold<Gene: Genotype>(
    es: Seq<(isize, Agent<Gene>)>,
    reg: Set<u64>,
    bucket: Seq<Population<Gene>>,
) -> (Seq<(isize, Agent<Gene>)>, Set<u64>)
    decreases bucket.len(),
{
    if bucket.len() == 0 {
        (es, reg)
    } else {
        let next = population_after_set(es, reg, false, bucket[0].entries());
        merge_fold(next.0, next.1, bucket.drop_first())
    }
}

proof fn lemma_merge_fold_push<Gene: Genotype>(
    es: Seq<(isize, Agent<Gene>)>,
    reg: Set<u64>,
    bucket: Seq<Population<Gene>>,
    p: Population<Gene>,
)
    ensures
        merge_fold(es, reg, bucket.push(p)) == ({
            let m = merge_fold(es, reg, bucket);
            population_after_set(m.0, m.1, false, p.entries())
        }),
    decreases bucket.len(),
{
    if bucket.len() == 0 {
        assert(bucket.push(p)[0] == p);
        assert(bucket.push(p).drop_first() =~= Seq::<Population<Gene>>::empty());
        let next = population_after_set(es, reg, false, p.entries());
        assert(merge_fold(next.0, next.1, Seq::<Population<Gene>>::empty()) == next);
    } else {
        assert(bucket.push(p)[0] == bucket[0]);
        assert(bucket.push(p).drop_first() =~= bucket.drop_first().push(p));
        let next = population_after_set(es, reg, false, bucket[0].entries());
        lemma_merge_fold_push(next.0, next.1, bucket.drop_first(), p);
    }
}

/// The output of one merge-round bucket: a bucket's worth of well-formed
/// populations is union-merged, in order and with later agents overwriting
/// equal slots, into a fresh non-uniqueness population, which is advanced
/// through the iteration cycles and then culled of its lowest three
/// quarters.
pub open spec fn merged_round_output<Gene: Genotype>(
    sub: nat,
    iters: nat,
    q: Population<Gene>,
) -> bool {
    exists|bucket: Seq<Population<Gene>>, m: Population<Gene>, g: Population<Gene>|
        #![trigger merge_fold(Seq::<(isize, Agent<Gene>)>::empty(), Set::<u64>::empty(), bucket), advanced_through(m, iters, g)]
        {
            &&& bucket.len() == sub
            &&& (forall|i: int| 0 <= i < bucket.len() ==> (#[trigger] bucket[i]).wf())
            &&& m.wf()
            &&& !m.unique()
            &&& (m.entries(), m.reg()) == merge_fold(
                Seq::<(isize, Agent<Gene>)>::empty(),
                Set::<u64>::empty(),
                bucket,
            )
            &&& advanced_through(m, iters, g)
            &&& q.unique() == g.unique()
            &&& ({
                let count = spec_rate_to_number(g.entries().len() as int, 750, 0);
                if count >= g.entries().len() {
                    q.entries() == g.entries() && q.reg() == g.reg()
                } else {
                    q.entries() == g.entries().skip(count)
                }
            })
        }
}

proof fn lemma_advanced_through_step<Gene: Genotype>(
    p: Population<Gene>,
    n: nat,
    mid: Population<Gene>,
    q: Population<Gene>,
)
    requires
        advanced_through(p, n, mid),
        iteration_cycle_shape(mid, q),
    ensures
        advanced_through(p, n + 1, q),
{
    assert(((n + 1) - 1) as nat == n);
    assert(advanced_through(p, ((n + 1) - 1) as nat, mid));
}

/// Advances a population through `iterations` cycles of the fixed operator
/// sequence: mutate a tenth (preferred minimum one), elite-mate a fifth of
/// the top ranks with a high preferred minimum, general-mate half at random
/// with a lower preferred minimum, then cull the bottom fiftieth.
pub fn run_iterations<Gene: Genotype, Data, F: Fn(&Agent<Gene>, &Data) -> isize>(
    population: Population<Gene>,
    iterations: usize,
    data: &Data,
    get_score_index: &F,
) -> (r: Population<Gene>)
    requires
        population.wf(),
        forall|a: &Agent<Gene>| #[trigger] call_requires(*get_score_index, (a, data)),
    ensures
        r.wf(),
        r.unique() == population.unique(),
        iterations == 0 ==> r == population,
        advanced_through(population, iterations as nat, r),
        population.entries().len() == 0 ==> r.entries().len() == 0,
        population.entries().len() > 0 ==> r.entries().len() > 0,
{
    let ghost orig = population;
    let mut population = population;
    let mut x: usize = 0;
    while x < iterations
        invariant
            population.wf(),
            population.unique() == orig.unique(),
            x <= iterations,
            x == 0 ==> population == orig,
            advanced_through(orig, x as nat, population),
            orig.entries().len() == 0 ==> population.entries().len() == 0,
            orig.entries().len() > 0 ==> population.entries().len() > 0,
            forall|a: &Agent<Gene>| #[trigger] call_requires(*get_score_index, (a, data)),
        decreases iterations - x,
    {
        let ghost cycle_start = population;
        population = mutate_some_agents(population, 100, data, get_score_index, 1);
        population = mate_alpha_agents(population, 200, data, get_score_index, 2500);
        population = mate_some_agents(population, 500, data, get_score_index, 1000);
        let ghost before_cull = population;
        proof {
            if before_cull.entries().len() > 0 {
                lemma_rate_to_number_partial(before_cull.entries().len() as int, 20);
            }
        }
        population = cull_lowest_agents(population, 20, 0);
        proof {
            if orig.entries().len() > 0 {
                let count = spec_rate_to_number(before_cull.entries().len() as int, 20, 0);
                assert(count < before_cull.entries().len());
                assert(population.entries().len() == before_cull.entries().len() - count);
            }
            assert(iteration_cycle_shape(cycle_start, population)) by {
                assert(before_cull.wf() && before_cull.unique() == cycle_start.unique()
                    && before_cull.entries().len() >= cycle_start.entries().len() && (forall|
                    t: isize,
                |
                    slot_occupied(cycle_start.entries(), t) ==> slot_occupied(
                        before_cull.entries(),
                        t,
                    )) && population.unique() == before_cull.unique());
            }
            lemma_advanced_through_step(orig, x as nat, cycle_start, population);
            assert(advanced_through(orig, (x as nat + 1) as nat, population));
        }
        x += 1;
    }
    population
}

/// Reduces a full level's worth of populations to one: for `levels` rounds,
/// buckets of `sub_populations_per_level` populations are merged into a
/// fresh non-unique population, advanced through one more iteration cycle,
/// and culled of their lowest three quarters.
pub fn populations_from_existing_multillevel<
    Gene: Genotype,
    Data,
    F: Fn(&Agent<Gene>, &Data) -> isize,
>(
    populations: Vec<Population<Gene>>,
    levels: u32,
    sub_populations_per_level: usize,
    data: &Data,
    iterations_on_each_population: usize,
    get_score_index: &F,
) -> (r: Population<Gene>)
    requires
        sub_populations_per_level >= 1,
        populations@.len() == pow(sub_populations_per_level as int, levels as nat),
        forall|i: int| 0 <= i < populations@.len() ==> (#[trigger] populations@[i]).wf(),
        forall|a: &Agent<Gene>| #[trigger] call_requires(*get_score_index, (a, data)),
    ensures
        r.wf(),
        levels == 0 ==> r == populations@[0],
        levels >= 1 ==> !r.unique(),
        levels >= 1 ==> merged_round_output(sub_populations_per_level as nat, iterations_on_each_population as nat, r),
        (forall|i: int|
            0 <= i < populations@.len() ==> (#[trigger] populations@[i]).entries().len() > 0)
            ==> r.entries().len() > 0,
{
    let sub = sub_populations_per_level;
    let ghost given = populations@;
    let ghost all_ne = (forall|i: int|
        0 <= i < given.len() ==> (#[trigger] given[i]).entries().len() > 0);
    let mut populations = populations;
    let mut level = levels;
    while level > 0
        invariant
            sub >= 1,
            level <= levels,
            populations@.len() == pow(sub as int, level as nat),
            forall|i: int| 0 <= i < populations@.len() ==> (#[trigger] populations@[i]).wf(),
            level == levels ==> populations@ == given,
            level < levels ==> forall|i: int|
                0 <= i < populations@.len() ==> !(#[trigger] populations@[i]).unique(),
            level < levels ==> forall|i: int|
                0 <= i < populations@.len() ==> merged_round_output(
                    sub as nat,
                    iterations_on_each_population as nat,
                    #[trigger] populations@[i],
                ),
            all_ne ==> forall|i: int|
                0 <= i < populations@.len() ==> (#[trigger] populations@[i]).entries().len() > 0,
            forall|a: &Agent<Gene>| #[trigger] call_requires(*get_score_index, (a, data)),
        decreases level,
    {
        level = level - 1;
        let _current_len = populations.len();
        proof {
            assert(populations@.len() <= usize::MAX);
            lemma_pow1(sub as int);
            lemma_pow_adds(sub as int, level as nat, 1);
            assert(populations@.len() == pow(sub as int, level as nat) * sub as int);
            lemma_pow_increases(sub as nat, level as nat, (level + 1) as nat);
        }
        let number_of_new_populations = pow_usize(sub, level);
        let ghost count = number_of_new_populations as int;
        let mut new_populations: Vec<Population<Gene>> = Vec::new();
        let mut b: usize = 0;
        while b < number_of_new_populations
            invariant
                sub >= 1,
                b <= number_of_new_populations,
                populations@.len() == (count - b) * sub,
                count == number_of_new_populations as int,
                forall|i: int| 0 <= i < populations@.len() ==> (#[trigger] populations@[i]).wf(),
                new_populations@.len() == b,
                forall|i: int|
                    0 <= i < new_populations@.len() ==> (#[trigger] new_populations@[i]).wf(),
                forall|i: int|
                    0 <= i < new_populations@.len() ==> !(#[trigger] new_populations@[i]).unique(),
                forall|i: int|
                    0 <= i < new_populations@.len() ==> merged_round_output(
                        sub as nat,
                        iterations_on_each_population as nat,
                        #[trigger] new_populations@[i],
                    ),
                all_ne ==> forall|i: int|
                    0 <= i < populations@.len() ==> (#[trigger] populations@[i]).entries().len()
                        > 0,
                all_ne ==> forall|i: int|
                    0 <= i < new_populations@.len() ==> (
                    #[trigger] new_populations@[i]).entries().len() > 0,
                forall|a: &Agent<Gene>| #[trigger] call_requires(*get_score_index, (a, data)),
            decreases number_of_new_populations - b,
        {
            let mut merged: Population<Gene> = Population::new_empty(false);
            let ghost mut bucket: Seq<Population<Gene>> = Seq::empty();
            let mut s: usize = 0;
            proof {
                assert((count - b) * sub - sub as int == (count - b - 1) * sub) by (nonlinear_arith);
                assert(count - b >= 1);
                assert((count - b) * sub >= sub as int) by (nonlinear_arith)
                    requires
                        count - b >= 1,
                        sub >= 1,
                ;
            }
            while s < sub
                invariant
                    sub >= 1,
                    s <= sub,
                    merged.wf(),
                    !merged.unique(),
                    populations@.len() == (count - b) * sub - s,
                    count - b >= 1,
                    forall|i: int|
                        0 <= i < populations@.len() ==> (#[trigger] populations@[i]).wf(),
                    all_ne ==> forall|i: int|
                        0 <= i < populations@.len() ==> (#[trigger] populations@[i]).entries().len()
                            > 0,
                    all_ne && s >= 1 ==> merged.entries().len() > 0,
                    bucket.len() == s,
                    forall|i: int| 0 <= i < bucket.len() ==> (#[trigger] bucket[i]).wf(),
                    (merged.entries(), merged.reg()) == merge_fold(
                        Seq::<(isize, Agent<Gene>)>::empty(),
                        Set::<u64>::empty(),
                        bucket,
                    ),
                decreases sub - s,
            {
                proof {
                    assert((count - b) * sub >= sub as int) by (nonlinear_arith)
                        requires
                            count - b >= 1,
                            sub >= 1,
                    ;
                }
                let sub_population = populations.pop().unwrap();
                let ghost sub_snapshot = sub_population;
                let ghost pre_merged = merged;
                let ghost pre_bucket = bucket;
                merged.set_agents(sub_population.into_agents());
                proof {
                    lemma_merge_fold_push(
                        Seq::<(isize, Agent<Gene>)>::empty(),
                        Set::<u64>::empty(),
                        pre_bucket,
                        sub_snapshot,
                    );
                    bucket = bucket.push(sub_snapshot);
                    assert forall|i: int| 0 <= i < bucket.len() implies (
                    #[trigger] bucket[i]).wf() by {
                        if i < pre_bucket.len() {
                            assert(bucket[i] == pre_bucket[i]);
                        } else {
                            assert(bucket[i] == sub_snapshot);
                        }
                    }
                }
                s += 1;
            }
            let ghost merged_input = merged;
            let merged = run_iterations(
                merged,
                iterations_on_each_population,
                data,
                get_score_index,
            );
            let ghost before_cull = merged;
            proof {
                if before_cull.entries().len() > 0 {
                    lemma_rate_to_number_partial(before_cull.entries().len() as int, 750);
                }
            }
            let merged = cull_lowest_agents(merged, 750, 0);
            proof {
                if all_ne {
                    let c = spec_rate_to_number(before_cull.entries().len() as int, 750, 0);
                    assert(c < before_cull.entries().len());
                    assert(merged.entries().len() == before_cull.entries().len() - c);
                }
            }
            let ghost pre_new = new_populations@;
            new_populations.push(merged);
            proof {
                assert(merged_round_output(
                    sub as nat,
                    iterations_on_each_population as nat,
                    merged,
                )) by {
                    assert(bucket.len() == sub as nat && merged_input.wf()
                        && !merged_input.unique() && (merged_input.entries(), merged_input.reg())
                        == merge_fold(
                        Seq::<(isize, Agent<Gene>)>::empty(),
                        Set::<u64>::empty(),
                        bucket,
                    ) && advanced_through(
                        merged_input,
                        iterations_on_each_population as nat,
                        before_cull,
                    ));
                }
                assert forall|i: int| 0 <= i < new_populations@.len() implies merged_round_output(
                    sub as nat,
                    iterations_on_each_population as nat,
                    #[trigger] new_populations@[i],
                ) by {
                    if i < pre_new.len() {
                        assert(new_populations@[i] == pre_new[i]);
                        assert(merged_round_output(
                            sub as nat,
                            iterations_on_each_population as nat,
                            pre_new[i],
                        ));
                    } else {
                        assert(new_populations@[i] == merged);
                    }
                }
                assert((count - b) * sub - sub as int == (count - (b + 1)) * sub)
                    by (nonlinear_arith);
            }
            b += 1;
        }
        populations = new_populations;
    }
    let mut populations = populations;
    proof {
        lemma_pow0(sub as int);
    }
    let result = populations.pop().unwrap();
    proof {
        if all_ne {
            assert(result.entries().len() > 0);
        }
        if levels >= 1 {
            assert(result == populations@.push(result).last());
            assert(merged_round_output(
                sub as nat,
                iterations_on_each_population as nat,
                result,
            ));
        }
    }
    result
}

/// Builds `sub_populations_per_level ^ levels` independently seeded and
/// iterated leaf populations, then reduces them level by level into one
/// final population.
pub fn population_from_multilevel_sub_populations<
    Gene: Genotype,
    Data,
    F: Fn(&Agent<Gene>, &Data) -> isize,
>(
    levels: u32,
    sub_populations_per_level: usize,
    data: Data,
    number_of_genes: usize,
    initial_population_size: usize,
    iterations_on_each_population: usize,
    get_score_index: &F,
) -> (r: Population<Gene>)
    requires
        sub_populations_per_level >= 1,
        pow(sub_populations_per_level as int, levels as nat) <= usize::MAX,
        forall|a: &Agent<Gene>| #[trigger] call_requires(*get_score_index, (a, &data)),
    ensures
        r.wf(),
        !r.unique(),
        initial_population_size >= 1 ==> r.entries().len() >= 1,
        levels == 0 ==> exists|s: Population<Gene>|
            #[trigger] seeded_population_shape(
                *get_score_index,
                &data,
                initial_population_size,
                number_of_genes,
                s,
            ) && advanced_through(s, iterations_on_each_population as nat, r),
        levels >= 1 ==> merged_round_output(sub_populations_per_level as nat, iterations_on_each_population as nat, r),
{
    let number_of_initial_populations = pow_usize(sub_populations_per_level, levels);
    let mut populations: Vec<Population<Gene>> = Vec::new();
    let mut i: usize = 0;
    while i < number_of_initial_populations
        invariant
            i <= number_of_initial_populations,
            populations@.len() == i,
            forall|j: int| 0 <= j < populations@.len() ==> (#[trigger] populations@[j]).wf(),
            forall|j: int| 0 <= j < populations@.len() ==> !(#[trigger] populations@[j]).unique(),
            initial_population_size >= 1 ==> forall|j: int|
                0 <= j < populations@.len() ==> (#[trigger] populations@[j]).entries().len() > 0,
            forall|j: int|
                0 <= j < populations@.len() ==> exists|s: Population<Gene>|
                    #[trigger] seeded_population_shape(
                        *get_score_index,
                        &data,
                        initial_population_size,
                        number_of_genes,
                        s,
                    ) && advanced_through(
                        s,
                        iterations_on_each_population as nat,
                        #[trigger] populations@[j],
                    ),
            forall|a: &Agent<Gene>| #[trigger] call_requires(*get_score_index, (a, &data)),
        decreases number_of_initial_populations - i,
    {
        let seeded = create_population(
            initial_population_size,
            &data,
            number_of_genes,
            get_score_index,
        );
        let ghost seeded_snapshot = seeded;
        let advanced = run_iterations(
            seeded,
            iterations_on_each_population,
            &data,
            get_score_index,
        );
        let ghost pre_pops = populations@;
        populations.push(advanced);
        proof {
            assert forall|j: int| 0 <= j < populations@.len() implies exists|s: Population<Gene>|
                #[trigger] seeded_population_shape(
                    *get_score_index,
                    &data,
                    initial_population_size,
                    number_of_genes,
                    s,
                ) && advanced_through(
                    s,
                    iterations_on_each_population as nat,
                    #[trigger] populations@[j],
                ) by {
                if j < pre_pops.len() {
                    assert(populations@[j] == pre_pops[j]);
                    let sw = choose|s: Population<Gene>|
                        #[trigger] seeded_population_shape(
                            *get_score_index,
                            &data,
                            initial_population_size,
                            number_of_genes,
                            s,
                        ) && advanced_through(
                            s,
                            iterations_on_each_population as nat,
                            pre_pops[j],
                        );
                    assert(seeded_population_shape(
                        *get_score_index,
                        &data,
                        initial_population_size,
                        number_of_genes,
                        sw,
                    ) && advanced_through(
                        sw,
                        iterations_on_each_population as nat,
                        populations@[j],
                    ));
                } else {
                    assert(populations@[j] == advanced);
                    assert(seeded_population_shape(
                        *get_score_index,
                        &data,
                        initial_population_size,
                        number_of_genes,
                        seeded_snapshot,
                    ) && advanced_through(
                        seeded_snapshot,
                        iterations_on_each_population as nat,
                        advanced,
                    ));
                }
            }
        }
        i += 1;
    }
    let ghost seeded = populations@;
    let result = populations_from_existing_multillevel(
        populations,
        levels,
        sub_populations_per_level,
        &data,
        iterations_on_each_population,
        get_score_index,
    );
    proof {
        if levels == 0 {
            vstd::arithmetic::power::lemma_pow_positive(
                sub_populations_per_level as int,
                levels as nat,
            );
            assert(!seeded[0].unique());
            assert(result == seeded[0]);
            let sw = choose|s: Population<Gene>|
                #[trigger] seeded_population_shape(
                    *get_score_index,
                    &data,
                    initial_population_size,
                    number_of_genes,
                    s,
                ) && advanced_through(s, iterations_on_each_population as nat, seeded[0]);
            assert(seeded_population_shape(
                *get_score_index,
                &data,
                initial_population_size,
                number_of_genes,
                sw,
            ) && advanced_through(sw, iterations_on_each_population as nat, result));
        }
    }
    result
}

} // verus!
