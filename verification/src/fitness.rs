use vstd::prelude::*;

use crate::agent::{Agent, Genotype};
use crate::rng::random_below_u64;
use std::collections::HashMap;
use std::marker::PhantomData;

verus! {

broadcast use vstd::std_specs::hash::group_hash_axioms;

/// A domain-specific failure reported by a problem scoring function.
#[derive(Debug)]
pub struct ScoreError {
    details: String,
}

impl ScoreError {
    pub closed spec fn text(self) -> Seq<char> {
        self.details@
    }

    pub fn new(details: String) -> (r: Self)
        ensures
            r.text() == details@,
    {
        ScoreError { details }
    }

    pub fn description(&self) -> (r: &String)
        ensures
            r@ == self.text(),
    {
        &self.details
    }
}

/// The insertion slot for a true fitness `f` under a jitter `j` drawn from
/// `[0, 2*offset)`: the jittered score is centred back around `f`, floored
/// at slot zero, and capped at the largest representable slot.
pub open spec fn jittered_slot(f: int, j: int, offset: int) -> int {
    if f + j <= offset {
        0
    } else if f + j - offset > u64::MAX {
        u64::MAX as int
    } else {
        f + j - offset
    }
}

/// Any slot drawn for a true fitness `f` stays within `offset` of `f`: it is
/// never below `f - offset`, never reaches `f + offset`, and never goes
/// below the floor slot zero.
pub proof fn lemma_jittered_slot_bounds(f: int, j: int, offset: int)
    requires
        0 <= f <= u64::MAX,
        offset >= 1,
        0 <= j < 2 * offset,
    ensures
        0 <= jittered_slot(f, j, offset),
        f - offset <= jittered_slot(f, j, offset),
        jittered_slot(f, j, offset) <= f + offset - 1,
{
}

fn compute_slot(f: u64, jitter: u64, offset: u64) -> (r: u64)
    ensures
        r as int == jittered_slot(f as int, jitter as int, offset as int),
{
    let sum = f as u128 + jitter as u128;
    if sum <= offset as u128 {
        0
    } else {
        let d = sum - offset as u128;
        if d > u64::MAX as u128 {
            u64::MAX
        } else {
            d as u64
        }
    }
}

/// One batch-evaluation outcome: the kept agents are, in input order,
/// exactly those whose content hash was already cached when reached or whose
/// scoring call returned a witnessed success (caching that fitness); an
/// agent is dropped only on a witnessed failure of its scoring call.
pub open spec fn evaluates_to<
    Gene: Genotype,
    Data,
    F: Fn(&Agent<Gene>, &Data) -> Result<u64, ScoreError>,
>(
    f: F,
    data: &Data,
    agents: Seq<Agent<Gene>>,
    cache: Map<u64, u64>,
    r: Seq<Agent<Gene>>,
    cache2: Map<u64, u64>,
) -> bool
    decreases agents.len(),
{
    if agents.len() == 0 {
        r.len() == 0 && cache2 == cache
    } else {
        let a = agents[0];
        if cache.contains_key(a.hash_value()) {
            r.len() > 0 && r[0] == a && evaluates_to(
                f,
                data,
                agents.drop_first(),
                cache,
                r.drop_first(),
                cache2,
            )
        } else {
            (exists|ft: u64|
                #[trigger] call_ensures(f, (&a, data), Result::<u64, ScoreError>::Ok(ft))
                    && r.len() > 0 && r[0] == a && evaluates_to(
                    f,
                    data,
                    agents.drop_first(),
                    cache.insert(a.hash_value(), ft),
                    r.drop_first(),
                    cache2,
                )) || (exists|e: ScoreError|
                #[trigger] call_ensures(f, (&a, data), Result::<u64, ScoreError>::Err(e))
                    && evaluates_to(f, data, agents.drop_first(), cache, r, cache2))
        }
    }
}

/// Re-evaluating a batch whose agents are all cached hands the batch back
/// unchanged, in order, and leaves the cache alone; with the clause that
/// every returned agent of `evaluate_scores` is cached, a second evaluation
/// of a returned batch changes nothing.
pub proof fn lemma_evaluate_cached_identity<
    Gene: Genotype,
    Data,
    F: Fn(&Agent<Gene>, &Data) -> Result<u64, ScoreError>,
>(
    f: F,
    data: &Data,
    agents: Seq<Agent<Gene>>,
    cache: Map<u64, u64>,
    r: Seq<Agent<Gene>>,
    cache2: Map<u64, u64>,
)
    requires
        evaluates_to(f, data, agents, cache, r, cache2),
        forall|i: int|
            0 <= i < agents.len() ==> cache.contains_key((#[trigger] agents[i]).hash_value()),
    ensures
        r == agents,
        cache2 == cache,
    decreases agents.len(),
{
    if agents.len() == 0 {
        assert(r =~= agents);
    } else {
        assert(cache.contains_key(agents[0].hash_value()));
        assert forall|i: int|
            0 <= i < agents.drop_first().len() implies cache.contains_key(
            (#[trigger] agents.drop_first()[i]).hash_value(),
        ) by {
            assert(agents.drop_first()[i] == agents[i + 1]);
        }
        lemma_evaluate_cached_identity(f, data, agents.drop_first(), cache, r.drop_first(), cache2);
        assert(r.len() == agents.len());
        assert forall|i: int| 0 <= i < r.len() implies r[i] == agents[i] by {
            if i >= 1 {
                assert(r.drop_first()[i - 1] == agents.drop_first()[i - 1]);
            }
        }
        assert(r =~= agents);
    }
}

/// Wraps a problem scoring function with a cache of true fitness per content
/// hash, and a randomized-offset re-scoring path used for insertion ordering.
pub struct GeneralScoreProvider<Gene, Data, F> where F: Fn(
    &Agent<Gene>,
    &Data,
) -> Result<u64, ScoreError> {
    scoring_function: F,
    offset: u64,
    score_cache: HashMap<u64, u64>,
    gene: PhantomData<Gene>,
    data: PhantomData<Data>,
}

impl<
    Gene: Genotype,
    Data,
    F: Fn(&Agent<Gene>, &Data) -> Result<u64, ScoreError>,
> GeneralScoreProvider<Gene, Data, F> {
    /// The problem scoring function this provider wraps.
    pub closed spec fn func(self) -> F {
        self.scoring_function
    }

    /// The jitter half-width used by `get_score`.
    pub closed spec fn offset_spec(self) -> u64 {
        self.offset
    }

    /// The cached true fitness per content hash.
    pub closed spec fn cache(self) -> Map<u64, u64> {
        self.score_cache@
    }

    pub fn new(scoring_function: F, offset: u64) -> (r: Self)
        ensures
            r.func() == scoring_function,
            r.offset_spec() == offset,
            r.cache() == Map::<u64, u64>::empty(),
    {
        GeneralScoreProvider {
            scoring_function,
            offset,
            score_cache: HashMap::new(),
            gene: PhantomData,
            data: PhantomData,
        }
    }

    /// The cached true fitness for the agent, if any.
    pub fn cached_fitness(&self, agent: &Agent<Gene>) -> (r: Option<u64>)
        ensures
            r matches Some(f) ==> self.cache().contains_key(agent.hash_value()) && self.cache()[
                agent.hash_value()] == f,
            r is None ==> !self.cache().contains_key(agent.hash_value()),
    {
        let h = agent.get_hash();
        match self.score_cache.get(&h) {
            Some(f) => Some(*f),
            None => None,
        }
    }

    /// For each agent in order: one whose content hash is already cached is
    /// kept as-is; otherwise the scoring function runs, and the agent is kept
    /// (with its fitness cached) on success or silently dropped on failure.
    /// Cached fitness values never change.
    pub fn evaluate_scores(&mut self, agents: Vec<Agent<Gene>>, data: &Data) -> (r: Vec<
        Agent<Gene>,
    >)
        requires
            forall|a: &Agent<Gene>| #[trigger] call_requires(old(self).func(), (a, data)),
        ensures
            final(self).func() == old(self).func(),
            final(self).offset_spec() == old(self).offset_spec(),
            old(self).cache().submap_of(final(self).cache()),
            r@.len() <= agents@.len(),
            forall|i: int|
                0 <= i < r@.len() ==> final(self).cache().contains_key(
                    (#[trigger] r@[i]).hash_value(),
                ),
            forall|i: int| 0 <= i < r@.len() ==> agents@.contains(#[trigger] r@[i]),
            forall|j: int|
                0 <= j < agents@.len() && old(self).cache().contains_key(
                    (#[trigger] agents@[j]).hash_value(),
                ) ==> r@.contains(agents@[j]),
            (forall|a: &Agent<Gene>, ret: Result<u64, ScoreError>|
                call_ensures(old(self).func(), (a, data), ret) ==> ret is Ok) ==> r@.len()
                == agents@.len(),
            evaluates_to(old(self).func(), data, agents@, old(self).cache(), r@, final(self).cache()),
    {
        let ghost all = agents@;
        let ghost mut n: int = 0;
        let mut cached: Vec<Agent<Gene>> = Vec::new();
        let mut rest = agents;
        proof {
            assert forall|r2: Seq<Agent<Gene>>, c3: Map<u64, u64>| #[trigger] evaluates_to(
                old(self).func(),
                data,
                rest@,
                self.cache(),
                r2,
                c3,
            ) implies evaluates_to(old(self).func(), data, all, old(self).cache(), cached@ + r2, c3) by {
                assert(cached@ + r2 =~= r2);
            }
        }
        while rest.len() > 0
            invariant
                self.func() == old(self).func(),
                self.offset_spec() == old(self).offset_spec(),
                old(self).cache().submap_of(self.cache()),
                0 <= n <= all.len(),
                rest@ == all.skip(n),
                cached@.len() <= n,
                (forall|a: &Agent<Gene>, ret: Result<u64, ScoreError>|
                    call_ensures(old(self).func(), (a, data), ret) ==> ret is Ok) ==> cached@.len()
                    == n,
                forall|i: int|
                    0 <= i < cached@.len() ==> self.cache().contains_key(
                        (#[trigger] cached@[i]).hash_value(),
                    ),
                forall|i: int| 0 <= i < cached@.len() ==> all.contains(#[trigger] cached@[i]),
                forall|j: int|
                    0 <= j < n && old(self).cache().contains_key(
                        (#[trigger] all[j]).hash_value(),
                    ) ==> cached@.contains(all[j]),
                forall|r2: Seq<Agent<Gene>>, c3: Map<u64, u64>|
                    #[trigger] evaluates_to(old(self).func(), data, rest@, self.cache(), r2, c3)
                        ==> evaluates_to(
                        old(self).func(),
                        data,
                        all,
                        old(self).cache(),
                        cached@ + r2,
                        c3,
                    ),
                forall|a: &Agent<Gene>| #[trigger] call_requires(old(self).func(), (a, data)),
            decreases rest@.len(),
        {
            let ghost pre_cache = self.cache();
            let ghost pre_cached = cached@;
            let ghost rest_pre = rest@;
            let agent = rest.remove(0);
            proof {
                assert(agent == all[n]);
                assert(rest@ =~= all.skip(n + 1));
                assert(all.contains(all[n]));
                assert(rest_pre[0] == agent);
                assert(rest_pre.drop_first() =~= rest@);
            }
            let h = agent.get_hash();
            if self.score_cache.contains_key(&h) {
                cached.push(agent);
                proof {
                    assert forall|r2: Seq<Agent<Gene>>, c3: Map<u64, u64>| #[trigger] evaluates_to(
                        old(self).func(),
                        data,
                        rest@,
                        self.cache(),
                        r2,
                        c3,
                    ) implies evaluates_to(
                        old(self).func(),
                        data,
                        all,
                        old(self).cache(),
                        cached@ + r2,
                        c3,
                    ) by {
                        let mid = seq![agent] + r2;
                        assert(mid[0] == agent);
                        assert(mid.drop_first() =~= r2);
                        assert(evaluates_to(
                            old(self).func(),
                            data,
                            rest_pre,
                            pre_cache,
                            mid,
                            c3,
                        ));
                        assert(evaluates_to(
                            old(self).func(),
                            data,
                            all,
                            old(self).cache(),
                            pre_cached + mid,
                            c3,
                        ));
                        assert(pre_cached + mid =~= cached@ + r2);
                    }
                }
            } else {
                let result = (self.scoring_function)(&agent, data);
                proof {
                    assert(call_ensures(old(self).func(), (&agent, data), result));
                }
                match result {
                    Ok(score) => {
                        self.score_cache.insert(h, score);
                        proof {
                            assert forall|k: u64| #[trigger]
                                pre_cache.contains_key(k) implies self.cache().contains_key(k)
                                && self.cache()[k] == pre_cache[k] by {}
                            assert(pre_cache.submap_of(self.cache()));
                        }
                        cached.push(agent);
                        proof {
                            assert(call_ensures(
                                old(self).func(),
                                (&agent, data),
                                Result::<u64, ScoreError>::Ok(score),
                            ));
                            assert(self.cache() == pre_cache.insert(agent.hash_value(), score));
                            assert forall|r2: Seq<Agent<Gene>>, c3: Map<u64, u64>| #[trigger] evaluates_to(
                                old(self).func(),
                                data,
                                rest@,
                                self.cache(),
                                r2,
                                c3,
                            ) implies evaluates_to(
                                old(self).func(),
                                data,
                                all,
                                old(self).cache(),
                                cached@ + r2,
                                c3,
                            ) by {
                                let mid = seq![agent] + r2;
                                assert(mid[0] == agent);
                                assert(mid.drop_first() =~= r2);
                                assert(evaluates_to(
                                    old(self).func(),
                                    data,
                                    rest_pre,
                                    pre_cache,
                                    mid,
                                    c3,
                                )) by {
                                    assert(!pre_cache.contains_key(rest_pre[0].hash_value()));
                                    assert(call_ensures(
                                        old(self).func(),
                                        (&rest_pre[0], data),
                                        Result::<u64, ScoreError>::Ok(score),
                                    ));
                                    assert(evaluates_to(
                                        old(self).func(),
                                        data,
                                        rest_pre.drop_first(),
                                        pre_cache.insert(rest_pre[0].hash_value(), score),
                                        mid.drop_first(),
                                        c3,
                                    ));
                                }
                                assert(evaluates_to(
                                    old(self).func(),
                                    data,
                                    all,
                                    old(self).cache(),
                                    pre_cached + mid,
                                    c3,
                                ));
                                assert(pre_cached + mid =~= cached@ + r2);
                            }
                        }
                    },
                    Err(e) => {
                        proof {
                            assert(call_ensures(
                                old(self).func(),
                                (&agent, data),
                                Result::<u64, ScoreError>::Err(e),
                            ));
                            assert forall|r2: Seq<Agent<Gene>>, c3: Map<u64, u64>| #[trigger] evaluates_to(
                                old(self).func(),
                                data,
                                rest@,
                                self.cache(),
                                r2,
                                c3,
                            ) implies evaluates_to(
                                old(self).func(),
                                data,
                                all,
                                old(self).cache(),
                                cached@ + r2,
                                c3,
                            ) by {
                                assert(evaluates_to(
                                    old(self).func(),
                                    data,
                                    rest_pre,
                                    pre_cache,
                                    r2,
                                    c3,
                                )) by {
                                    assert(!pre_cache.contains_key(rest_pre[0].hash_value()));
                                    assert(call_ensures(
                                        old(self).func(),
                                        (&rest_pre[0], data),
                                        Result::<u64, ScoreError>::Err(e),
                                    ));
                                }
                                assert(evaluates_to(
                                    old(self).func(),
                                    data,
                                    all,
                                    old(self).cache(),
                                    pre_cached + r2,
                                    c3,
                                ));
                            }
                        }
                    },
                }
            }
            proof {
                assert forall|j: int|
                    0 <= j < n + 1 && old(self).cache().contains_key(
                        (#[trigger] all[j]).hash_value(),
                    ) implies cached@.contains(all[j]) by {
                    if j < n {
                        assert(pre_cached.contains(all[j]));
                        let w = choose|w: int| 0 <= w < pre_cached.len() && pre_cached[w] == all[j];
                        assert(cached@[w] == all[j]);
                    } else {
                        assert(cached@[cached@.len() - 1] == all[n]);
                    }
                }
                n = n + 1;
            }
        }
        proof {
            assert(rest@.len() == 0);
            assert(evaluates_to(
                old(self).func(),
                data,
                rest@,
                self.cache(),
                Seq::<Agent<Gene>>::empty(),
                self.cache(),
            ));
            assert(cached@ + Seq::<Agent<Gene>>::empty() =~= cached@);
        }
        cached
    }

    /// Draws a jittered insertion slot for the agent from its cached true
    /// fitness, computing and caching the fitness first when missing. The
    /// cached fitness of an already-cached agent is returned unchanged under
    /// fresh jitter; a scoring failure is handed back and caches nothing.
    pub fn get_score(&mut self, agent: &Agent<Gene>, data: &Data) -> (r: Result<u64, ScoreError>)
        requires
            forall|a: &Agent<Gene>| #[trigger] call_requires(old(self).func(), (a, data)),
            old(self).offset_spec() >= 1,
            old(self).offset_spec() <= u64::MAX / 2,
        ensures
            final(self).func() == old(self).func(),
            final(self).offset_spec() == old(self).offset_spec(),
            old(self).cache().submap_of(final(self).cache()),
            (forall|a: &Agent<Gene>, ret: Result<u64, ScoreError>|
                call_ensures(old(self).func(), (a, data), ret) ==> ret is Ok) ==> r is Ok,
            old(self).cache().contains_key(agent.hash_value()) ==> ({
                &&& final(self).cache() == old(self).cache()
                &&& r matches Ok(s) && (exists|j: int|
                    0 <= j < 2 * old(self).offset_spec() && s as int == jittered_slot(
                        old(self).cache()[agent.hash_value()] as int,
                        j,
                        old(self).offset_spec() as int,
                    ))
            }),
            !old(self).cache().contains_key(agent.hash_value()) ==> ({
                &&& (r matches Ok(s) ==> (exists|ft: u64|
                    {
                        &&& #[trigger] call_ensures(
                            old(self).func(),
                            (agent, data),
                            Result::<u64, ScoreError>::Ok(ft),
                        )
                        &&& final(self).cache() == old(self).cache().insert(
                            agent.hash_value(),
                            ft,
                        )
                        &&& (exists|j: int|
                            0 <= j < 2 * old(self).offset_spec() && s as int == jittered_slot(
                                ft as int,
                                j,
                                old(self).offset_spec() as int,
                            ))
                    }))
                &&& (r is Err ==> final(self).cache() == old(self).cache() && call_ensures(
                    old(self).func(),
                    (agent, data),
                    r,
                ))
            }),
    {
        let h = agent.get_hash();
        let jitter = random_below_u64(2 * self.offset);
        let cached = self.score_cache.get(&h);
        match cached {
            Some(f_ref) => {
                let f = *f_ref;
                Ok(compute_slot(f, jitter, self.offset))
            },
            None => {
                proof {
                    assert(call_requires(old(self).func(), (agent, data)));
                }
                let result = (self.scoring_function)(agent, data);
                match result {
                    Ok(f) => {
                        self.score_cache.insert(h, f);
                        proof {
                            assert forall|k: u64| #[trigger]
                                old(self).cache().contains_key(k) implies self.cache().contains_key(
                                k,
                            ) && self.cache()[k] == old(self).cache()[k] by {}
                        }
                        Ok(compute_slot(f, jitter, self.offset))
                    },
                    Err(e) => Err(e),
                }
            },
        }
    }
}

} // verus!
