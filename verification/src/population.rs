use vstd::prelude::*;

use crate::agent::{Agent, Genotype};
use crate::rng::random_below;
use std::collections::HashSet;

verus! {

broadcast use vstd::std_specs::hash::group_hash_axioms;

/// The slots of the entries, in storage order.
pub open spec fn slots_of<Gene: Genotype>(es: Seq<(isize, Agent<Gene>)>) -> Seq<isize> {
    Seq::new(es.len(), |i: int| es[i].0)
}

/// The stored content hashes of the entries, in storage order.
pub open spec fn entry_hashes<Gene: Genotype>(es: Seq<(isize, Agent<Gene>)>) -> Seq<u64> {
    Seq::new(es.len(), |i: int| es[i].1.hash_value())
}

/// Slots strictly increase with storage position, so each slot holds at most
/// one agent.
pub open spec fn slots_strictly_sorted<Gene: Genotype>(es: Seq<(isize, Agent<Gene>)>) -> bool {
    forall|i: int, j: int| 0 <= i < j < es.len() ==> (#[trigger] es[i]).0 < (#[trigger] es[j]).0
}

/// Some entry occupies the given slot.
pub open spec fn slot_occupied<Gene: Genotype>(es: Seq<(isize, Agent<Gene>)>, slot: isize) -> bool {
    exists|i: int| 0 <= i < es.len() && (#[trigger] es[i]).0 == slot
}

/// The storage position of the entry at the given slot.
pub open spec fn slot_index_in<Gene: Genotype>(es: Seq<(isize, Agent<Gene>)>, slot: isize) -> int {
    choose|i: int| 0 <= i < es.len() && (#[trigger] es[i]).0 == slot
}

/// The agent stored at the given slot, if any.
pub open spec fn lookup<Gene: Genotype>(es: Seq<(isize, Agent<Gene>)>, slot: isize) -> Option<
    Agent<Gene>,
> {
    if slot_occupied(es, slot) {
        Some(es[slot_index_in(es, slot)].1)
    } else {
        None
    }
}

/// The storage position at which an entry with a fresh slot is spliced in:
/// the number of entries with a smaller slot.
pub open spec fn insert_position<Gene: Genotype>(
    es: Seq<(isize, Agent<Gene>)>,
    slot: isize,
) -> int
    decreases es.len(),
{
    if es.len() == 0 {
        0
    } else if es[0].0 < slot {
        1 + insert_position(es.drop_first(), slot)
    } else {
        0
    }
}

/// The entries after placing `agent` at `slot`: the occupant of that slot is
/// replaced, or the pair is spliced in at its sorted position.
pub open spec fn entries_after_insert<Gene: Genotype>(
    es: Seq<(isize, Agent<Gene>)>,
    slot: isize,
    agent: Agent<Gene>,
) -> Seq<(isize, Agent<Gene>)> {
    if slot_occupied(es, slot) {
        es.update(slot_index_in(es, slot), (slot, agent))
    } else {
        es.insert(insert_position(es, slot), (slot, agent))
    }
}

/// The register after placing `agent` at `slot` in a uniqueness population:
/// the displaced occupant's hash leaves, the new agent's hash enters.
pub open spec fn reg_after_insert<Gene: Genotype>(
    reg: Set<u64>,
    es: Seq<(isize, Agent<Gene>)>,
    slot: isize,
    agent: Agent<Gene>,
) -> Set<u64> {
    if slot_occupied(es, slot) {
        reg.remove(es[slot_index_in(es, slot)].1.hash_value()).insert(agent.hash_value())
    } else {
        reg.insert(agent.hash_value())
    }
}

/// The full effect of one `insert` on the population model, the uniqueness
/// drop of an already-registered hash included.
pub open spec fn population_after_insert<Gene: Genotype>(
    es: Seq<(isize, Agent<Gene>)>,
    reg: Set<u64>,
    unique: bool,
    slot: isize,
    agent: Agent<Gene>,
) -> (Seq<(isize, Agent<Gene>)>, Set<u64>) {
    if unique && reg.contains(agent.hash_value()) {
        (es, reg)
    } else {
        (
            entries_after_insert(es, slot, agent),
            if unique {
                reg_after_insert(reg, es, slot, agent)
            } else {
                reg
            },
        )
    }
}

/// The population model after inserting every pair of `items` in order,
/// each through `population_after_insert`.
pub open spec fn population_after_set<Gene: Genotype>(
    es: Seq<(isize, Agent<Gene>)>,
    reg: Set<u64>,
    unique: bool,
    items: Seq<(isize, Agent<Gene>)>,
) -> (Seq<(isize, Agent<Gene>)>, Set<u64>)
    decreases items.len(),
{
    if items.len() == 0 {
        (es, reg)
    } else {
        let next = population_after_insert(es, reg, unique, items[0].0, items[0].1);
        population_after_set(next.0, next.1, unique, items.drop_first())
    }
}

/// Appending one pair to an insert fold applies one more insert to the
/// fold's result.
pub proof fn lemma_population_after_set_push<Gene: Genotype>(
    es: Seq<(isize, Agent<Gene>)>,
    reg: Set<u64>,
    unique: bool,
    items: Seq<(isize, Agent<Gene>)>,
    slot: isize,
    agent: Agent<Gene>,
)
    ensures
        population_after_set(es, reg, unique, items.push((slot, agent))) == ({
            let m = population_after_set(es, reg, unique, items);
            population_after_insert(m.0, m.1, unique, slot, agent)
        }),
    decreases items.len(),
{
    let e = (slot, agent);
    if items.len() == 0 {
        assert(items.push(e)[0] == e);
        assert(items.push(e).drop_first() =~= Seq::<(isize, Agent<Gene>)>::empty());
        let next = population_after_insert(es, reg, unique, slot, agent);
        assert(population_after_set(next.0, next.1, unique, Seq::<(isize, Agent<Gene>)>::empty())
            == next);
    } else {
        assert(items.push(e)[0] == items[0]);
        assert(items.push(e).drop_first() =~= items.drop_first().push(e));
        let next = population_after_insert(es, reg, unique, items[0].0, items[0].1);
        lemma_population_after_set_push(next.0, next.1, unique, items.drop_first(), slot, agent);
    }
}

/// Any position with all smaller slots before it and all larger slots from
/// it on is the `insert_position`.
proof fn lemma_insert_position_is<Gene: Genotype>(
    es: Seq<(isize, Agent<Gene>)>,
    slot: isize,
    i: int,
)
    requires
        0 <= i <= es.len(),
        forall|j: int| 0 <= j < i ==> (#[trigger] es[j]).0 < slot,
        forall|j: int| i <= j < es.len() ==> (#[trigger] es[j]).0 > slot,
    ensures
        insert_position(es, slot) == i,
    decreases es.len(),
{
    if es.len() == 0 {
    } else if es[0].0 < slot {
        assert(i >= 1) by {
            if i == 0 {
                assert(es[0].0 > slot);
            }
        }
        let rest = es.drop_first();
        assert forall|j: int| 0 <= j < i - 1 implies (#[trigger] rest[j]).0 < slot by {
            assert(rest[j] == es[j + 1]);
        }
        assert forall|j: int| i - 1 <= j < rest.len() implies (#[trigger] rest[j]).0 > slot by {
            assert(rest[j] == es[j + 1]);
        }
        lemma_insert_position_is(rest, slot, i - 1);
    } else {
        assert(i == 0) by {
            if i >= 1 {
                assert(es[0].0 < slot);
            }
        }
    }
}

/// The agent of the last entry carrying the given slot, for a raw entry list
/// that may repeat slots.
pub open spec fn last_entry_for<Gene: Genotype>(
    s: Seq<(isize, Agent<Gene>)>,
    slot: isize,
) -> Agent<Gene>
    decreases s.len(),
{
    if s.len() == 0 {
        arbitrary()
    } else if s.last().0 == slot {
        s.last().1
    } else {
        last_entry_for(s.drop_last(), slot)
    }
}

/// A seeded entry's slot fell, by the downward collision fallback, from a
/// score the index function returned for that entry's agent: it lies at or
/// below that score, and is non-negative whenever the score was.
pub open spec fn seeded_entry_ok<Gene: Genotype, Data, F: Fn(&Agent<Gene>, &Data) -> isize>(
    f: F,
    data: &Data,
    entry: (isize, Agent<Gene>),
) -> bool {
    exists|start: isize|
        #[trigger] call_ensures(f, (&entry.1, data), start) && entry.0 <= start && (start >= 0
            ==> entry.0 >= 0)
}

/// An ordered container mapping an integer score slot to exactly one agent.
/// When uniqueness is enabled, a register of the content hashes of all present
/// agents is kept exactly in sync with the slot map.
pub struct Population<Gene> {
    agents: Vec<(isize, Agent<Gene>)>,
    register: HashSet<u64>,
    unique_agents: bool,
}

impl<Gene: Genotype> Population<Gene> {
    /// The (slot, agent) entries in ascending slot order.
    pub closed spec fn entries(self) -> Seq<(isize, Agent<Gene>)> {
        self.agents@
    }

    /// The set of registered content hashes.
    pub closed spec fn reg(self) -> Set<u64> {
        self.register@
    }

    /// Whether global uniqueness of agent content is enabled.
    pub closed spec fn unique(self) -> bool {
        self.unique_agents
    }

    /// Well-formedness: slots are strictly ordered, and under uniqueness the
    /// register holds exactly the content hashes of the present agents, with
    /// no two agents sharing a hash. Constructors establish it and every
    /// mutating method preserves it, so it holds after any sequence of
    /// inserts, removes and culls.
    pub open spec fn wf(self) -> bool {
        &&& slots_strictly_sorted(self.entries())
        &&& (self.unique() ==> self.reg() == entry_hashes(self.entries()).to_set())
        &&& (self.unique() ==> entry_hashes(self.entries()).no_duplicates())
        &&& (!self.unique() ==> self.reg() == Set::<u64>::empty())
    }

    /// Constructs a population with no agents.
    pub fn new_empty(unique: bool) -> (r: Self)
        ensures
            r.wf(),
            r.unique() == unique,
            r.entries() == Seq::<(isize, Agent<Gene>)>::empty(),
            r.reg() == Set::<u64>::empty(),
    {
        let r = Population {
            agents: Vec::new(),
            register: HashSet::new(),
            unique_agents: unique,
        };
        proof {
            assert(entry_hashes(r.entries()) =~= Seq::<u64>::empty());
            assert(r.reg() =~= entry_hashes(r.entries()).to_set());
        }
        r
    }

    pub fn len(&self) -> (r: usize)
        ensures
            r == self.entries().len(),
    {
        self.agents.len()
    }

    /// The ordered view of the entries.
    pub fn get_agents(&self) -> (r: &Vec<(isize, Agent<Gene>)>)
        ensures
            r@ == self.entries(),
    {
        &self.agents
    }

    /// Consumes the population, handing out its entries in ascending slot
    /// order.
    pub fn into_agents(self) -> (r: Vec<(isize, Agent<Gene>)>)
        ensures
            r@ == self.entries(),
    {
        self.agents
    }

    pub fn contains_score(&self, score: isize) -> (r: bool)
        ensures
            r == slot_occupied(self.entries(), score),
    {
        let mut i: usize = 0;
        while i < self.agents.len()
            invariant
                i <= self.agents@.len(),
                forall|j: int| 0 <= j < i ==> (#[trigger] self.agents@[j]).0 != score,
            decreases self.agents@.len() - i,
        {
            if self.agents[i].0 == score {
                return true;
            }
            i += 1;
        }
        false
    }

    /// True unless uniqueness is enabled and the agent's content hash is
    /// already registered.
    pub fn will_accept(&self, agent: &Agent<Gene>) -> (r: bool)
        ensures
            r == (!self.unique() || !self.reg().contains(agent.hash_value())),
    {
        if self.unique_agents {
            let h = agent.get_hash();
            return !self.register.contains(&h);
        }
        true
    }

    pub fn get(&self, score: isize) -> (r: Option<&Agent<Gene>>)
        requires
            self.wf(),
        ensures
            r is Some <==> slot_occupied(self.entries(), score),
            r matches Some(a) ==> lookup(self.entries(), score) == Some(*a),
    {
        let mut i: usize = 0;
        while i < self.agents.len()
            invariant
                self.wf(),
                i <= self.agents@.len(),
                forall|j: int| 0 <= j < i ==> (#[trigger] self.agents@[j]).0 != score,
            decreases self.agents@.len() - i,
        {
            if self.agents[i].0 == score {
                proof {
                    lemma_slot_index(self.entries(), score);
                }
                return Some(&self.agents[i].1);
            }
            i += 1;
        }
        None
    }

    /// The ascending list of occupied slots.
    pub fn get_scores(&self) -> (r: Vec<isize>)
        ensures
            r@ == slots_of(self.entries()),
    {
        let mut r: Vec<isize> = Vec::new();
        let mut i: usize = 0;
        while i < self.agents.len()
            invariant
                i <= self.agents@.len(),
                r@.len() == i,
                forall|j: int| 0 <= j < i ==> r@[j] == (#[trigger] self.agents@[j]).0,
            decreases self.agents@.len() - i,
        {
            r.push(self.agents[i].0);
            i += 1;
        }
        proof {
            assert(r@ =~= slots_of(self.entries()));
        }
        r
    }

    /// A uniformly random occupied slot.
    pub fn get_random_score(&self) -> (r: isize)
        requires
            self.entries().len() > 0,
        ensures
            slot_occupied(self.entries(), r),
    {
        let i = random_below(self.agents.len());
        self.agents[i].0
    }
}

/// The position of the entry at `slot` is unique when slots are strictly
/// sorted, and `slot_index_in` designates it.
pub proof fn lemma_slot_index<Gene: Genotype>(es: Seq<(isize, Agent<Gene>)>, slot: isize)
    requires
        slots_strictly_sorted(es),
        slot_occupied(es, slot),
    ensures
        0 <= slot_index_in(es, slot) < es.len(),
        es[slot_index_in(es, slot)].0 == slot,
        forall|k: int| 0 <= k < es.len() && (#[trigger] es[k]).0 == slot ==> k == slot_index_in(
            es,
            slot,
        ),
{
    let i = slot_index_in(es, slot);
    assert(0 <= i < es.len() && es[i].0 == slot) by {
        assert(exists|j: int| 0 <= j < es.len() && (#[trigger] es[j]).0 == slot);
    }
    assert forall|k: int| 0 <= k < es.len() && (#[trigger] es[k]).0 == slot implies k == i by {
        if k < i {
            assert(es[k].0 < es[i].0);
        }
        if k > i {
            assert(es[i].0 < es[k].0);
        }
    }
}

/// Inserting into a hash sequence inserts into its set of values.
proof fn lemma_hash_seq_insert(s: Seq<u64>, i: int, x: u64)
    requires
        0 <= i <= s.len(),
    ensures
        s.insert(i, x).to_set() == s.to_set().insert(x),
        s.no_duplicates() && !s.contains(x) ==> s.insert(i, x).no_duplicates(),
{
    s.insert_ensures(i, x);
    let t = s.insert(i, x);
    assert forall|y: u64| t.to_set().contains(y) implies s.to_set().insert(x).contains(y) by {
        let k = choose|k: int| 0 <= k < t.len() && t[k] == y;
        if k < i {
            assert(s[k] == y);
        } else if k == i {
        } else {
            assert(s[k - 1] == y);
        }
    }
    assert forall|y: u64| s.to_set().insert(x).contains(y) implies t.to_set().contains(y) by {
        if y == x {
            assert(t[i] == y);
        } else {
            let k = choose|k: int| 0 <= k < s.len() && s[k] == y;
            if k < i {
                assert(t[k] == y);
            } else {
                assert(t[k + 1] == y);
            }
        }
    }
    assert(t.to_set() =~= s.to_set().insert(x));
    if s.no_duplicates() && !s.contains(x) {
        assert forall|p: int, q: int| 0 <= p < q < t.len() implies t[p] != t[q] by {
            if q < i {
                assert(t[p] == s[p] && t[q] == s[q]);
            } else if p > i {
                assert(t[p] == s[p - 1] && t[q] == s[q - 1]);
            } else if p == i {
                assert(t[q] == s[q - 1]);
                assert(s.contains(s[q - 1]));
            } else if q == i {
                assert(t[p] == s[p]);
                assert(s.contains(s[p]));
            } else {
                assert(t[p] == s[p] && t[q] == s[q - 1]);
            }
        }
    }
}

/// Updating one value of a duplicate-free hash sequence swaps it in the set
/// of values.
proof fn lemma_hash_seq_update(s: Seq<u64>, i: int, x: u64)
    requires
        0 <= i < s.len(),
        s.no_duplicates(),
    ensures
        s.update(i, x).to_set() == s.to_set().remove(s[i]).insert(x),
        !s.contains(x) ==> s.update(i, x).no_duplicates(),
{
    let t = s.update(i, x);
    assert forall|y: u64| t.to_set().contains(y) implies s.to_set().remove(s[i]).insert(x).contains(
        y,
    ) by {
        let k = choose|k: int| 0 <= k < t.len() && t[k] == y;
        if k != i {
            assert(s[k] == y);
            assert(s[k] != s[i]);
        }
    }
    assert forall|y: u64| s.to_set().remove(s[i]).insert(x).contains(y) implies t.to_set().contains(
        y,
    ) by {
        if y == x {
            assert(t[i] == y);
        } else {
            let k = choose|k: int| 0 <= k < s.len() && s[k] == y;
            assert(k != i);
            assert(t[k] == y);
        }
    }
    assert(t.to_set() =~= s.to_set().remove(s[i]).insert(x));
    if !s.contains(x) {
        assert forall|p: int, q: int| 0 <= p < q < t.len() implies t[p] != t[q] by {
            if p != i && q != i {
                assert(t[p] == s[p] && t[q] == s[q]);
            } else if p == i {
                assert(t[q] == s[q]);
                assert(s.contains(s[q]));
            } else {
                assert(t[p] == s[p]);
                assert(s.contains(s[p]));
            }
        }
    }
}

/// Removing one value of a duplicate-free hash sequence removes it from the
/// set of values.
proof fn lemma_hash_seq_remove(s: Seq<u64>, i: int)
    requires
        0 <= i < s.len(),
        s.no_duplicates(),
    ensures
        s.remove(i).to_set() == s.to_set().remove(s[i]),
        s.remove(i).no_duplicates(),
{
    s.remove_ensures(i);
    let t = s.remove(i);
    assert forall|y: u64| t.to_set().contains(y) implies s.to_set().remove(s[i]).contains(y) by {
        let k = choose|k: int| 0 <= k < t.len() && t[k] == y;
        if k < i {
            assert(s[k] == y);
            assert(s[k] != s[i]);
        } else {
            assert(s[k + 1] == y);
            assert(s[k + 1] != s[i]);
        }
    }
    assert forall|y: u64| s.to_set().remove(s[i]).contains(y) implies t.to_set().contains(y) by {
        let k = choose|k: int| 0 <= k < s.len() && s[k] == y;
        assert(k != i);
        if k < i {
            assert(t[k] == y);
        } else {
            assert(t[k - 1] == y);
        }
    }
    assert(t.to_set() =~= s.to_set().remove(s[i]));
    assert forall|p: int, q: int| 0 <= p < q < t.len() implies t[p] != t[q] by {
        if q < i {
            assert(t[p] == s[p] && t[q] == s[q]);
        } else if p >= i {
            assert(t[p] == s[p + 1] && t[q] == s[q + 1]);
        } else {
            assert(t[p] == s[p] && t[q] == s[q + 1]);
        }
    }
}

/// Inserting an entry at its sorted position keeps the entry list sorted and
/// changes the lookup at exactly one slot.
proof fn lemma_entry_insert<Gene: Genotype>(
    es: Seq<(isize, Agent<Gene>)>,
    i: int,
    e: (isize, Agent<Gene>),
)
    requires
        slots_strictly_sorted(es),
        0 <= i <= es.len(),
        forall|j: int| 0 <= j < i ==> (#[trigger] es[j]).0 < e.0,
        forall|j: int| i <= j < es.len() ==> (#[trigger] es[j]).0 > e.0,
    ensures
        slots_strictly_sorted(es.insert(i, e)),
        lookup(es.insert(i, e), e.0) == Some(e.1),
        forall|t: isize| t != e.0 ==> lookup(es.insert(i, e), t) == lookup(es, t),
        forall|k: int|
            0 <= k < es.insert(i, e).len() ==> (#[trigger] es.insert(i, e)[k] == e || es.contains(
                es.insert(i, e)[k],
            )),
        entry_hashes(es.insert(i, e)) == entry_hashes(es).insert(i, e.1.hash_value()),
        !slot_occupied(es, e.0),
{
    es.insert_ensures(i, e);
    let t = es.insert(i, e);
    assert forall|p: int, q: int| 0 <= p < q < t.len() implies (#[trigger] t[p]).0 < (
    #[trigger] t[q]).0 by {
        if q < i {
            assert(t[p] == es[p] && t[q] == es[q]);
        } else if p > i {
            assert(t[p] == es[p - 1] && t[q] == es[q - 1]);
        } else if p == i {
            assert(t[q] == es[q - 1]);
        } else if q == i {
            assert(t[p] == es[p]);
        } else {
            assert(t[p] == es[p] && t[q] == es[q - 1]);
        }
    }
    assert(!slot_occupied(es, e.0)) by {
        if slot_occupied(es, e.0) {
            let k = choose|k: int| 0 <= k < es.len() && (#[trigger] es[k]).0 == e.0;
            assert(k < i || k >= i);
        }
    }
    assert(t[i] == e);
    lemma_slot_index(t, e.0);
    assert(lookup(t, e.0) == Some(e.1));
    assert forall|s: isize| s != e.0 implies lookup(t, s) == lookup(es, s) by {
        if slot_occupied(es, s) {
            lemma_slot_index(es, s);
            let k = slot_index_in(es, s);
            if k < i {
                assert(t[k] == es[k]);
            } else {
                assert(t[k + 1] == es[k]);
            }
            lemma_slot_index(t, s);
        } else {
            if slot_occupied(t, s) {
                let k = choose|k: int| 0 <= k < t.len() && (#[trigger] t[k]).0 == s;
                if k < i {
                    assert(es[k].0 == s);
                } else if k > i {
                    assert(es[k - 1].0 == s);
                }
            }
        }
    }
    assert forall|k: int| 0 <= k < t.len() implies (#[trigger] t[k] == e || es.contains(t[k])) by {
        if k < i {
            assert(t[k] == es[k]);
        } else if k > i {
            assert(t[k] == es[k - 1]);
        }
    }
    assert(entry_hashes(t) =~= entry_hashes(es).insert(i, e.1.hash_value())) by {
        entry_hashes(es).insert_ensures(i, e.1.hash_value());
    }
}

/// Overwriting the entry at a slot keeps the entry list sorted and changes
/// the lookup at exactly that slot.
proof fn lemma_entry_update<Gene: Genotype>(
    es: Seq<(isize, Agent<Gene>)>,
    i: int,
    e: (isize, Agent<Gene>),
)
    requires
        slots_strictly_sorted(es),
        0 <= i < es.len(),
        es[i].0 == e.0,
    ensures
        slots_strictly_sorted(es.update(i, e)),
        lookup(es.update(i, e), e.0) == Some(e.1),
        forall|t: isize| t != e.0 ==> lookup(es.update(i, e), t) == lookup(es, t),
        forall|k: int|
            0 <= k < es.update(i, e).len() ==> (#[trigger] es.update(i, e)[k] == e || es.contains(
                es.update(i, e)[k],
            )),
        entry_hashes(es.update(i, e)) == entry_hashes(es).update(i, e.1.hash_value()),
        lookup(es, e.0) == Some(es[i].1),
        slot_index_in(es, e.0) == i,
{
    let t = es.update(i, e);
    assert forall|p: int, q: int| 0 <= p < q < t.len() implies (#[trigger] t[p]).0 < (
    #[trigger] t[q]).0 by {
        assert(es[p].0 < es[q].0);
    }
    assert(slot_occupied(es, e.0)) by {
        assert(es[i].0 == e.0);
    }
    lemma_slot_index(es, e.0);
    assert(slot_occupied(t, e.0)) by {
        assert(t[i].0 == e.0);
    }
    lemma_slot_index(t, e.0);
    assert forall|s: isize| s != e.0 implies lookup(t, s) == lookup(es, s) by {
        if slot_occupied(es, s) {
            lemma_slot_index(es, s);
            let k = slot_index_in(es, s);
            assert(k != i);
            assert(t[k] == es[k]);
            assert(slot_occupied(t, s)) by {
                assert(t[k].0 == s);
            }
            lemma_slot_index(t, s);
        } else {
            if slot_occupied(t, s) {
                let k = choose|k: int| 0 <= k < t.len() && (#[trigger] t[k]).0 == s;
                assert(k != i);
                assert(es[k].0 == s);
            }
        }
    }
    assert(entry_hashes(t) =~= entry_hashes(es).update(i, e.1.hash_value()));
}

/// Removing an entry keeps the entry list sorted and empties the lookup at
/// exactly its slot.
proof fn lemma_entry_remove<Gene: Genotype>(es: Seq<(isize, Agent<Gene>)>, i: int)
    requires
        slots_strictly_sorted(es),
        0 <= i < es.len(),
    ensures
        slots_strictly_sorted(es.remove(i)),
        !slot_occupied(es.remove(i), es[i].0),
        forall|t: isize| t != es[i].0 ==> lookup(es.remove(i), t) == lookup(es, t),
        forall|k: int|
            0 <= k < es.remove(i).len() ==> es.contains(#[trigger] es.remove(i)[k]),
        entry_hashes(es.remove(i)) == entry_hashes(es).remove(i),
        lookup(es, es[i].0) == Some(es[i].1),
        slot_index_in(es, es[i].0) == i,
{
    es.remove_ensures(i);
    entry_hashes(es).remove_ensures(i);
    let t = es.remove(i);
    assert forall|p: int, q: int| 0 <= p < q < t.len() implies (#[trigger] t[p]).0 < (
    #[trigger] t[q]).0 by {
        if q < i {
            assert(t[p] == es[p] && t[q] == es[q]);
        } else if p >= i {
            assert(t[p] == es[p + 1] && t[q] == es[q + 1]);
        } else {
            assert(t[p] == es[p] && t[q] == es[q + 1]);
        }
    }
    lemma_slot_index(es, es[i].0);
    assert(!slot_occupied(t, es[i].0)) by {
        if slot_occupied(t, es[i].0) {
            let k = choose|k: int| 0 <= k < t.len() && (#[trigger] t[k]).0 == es[i].0;
            if k < i {
                assert(es[k].0 == es[i].0);
            } else {
                assert(es[k + 1].0 == es[i].0);
            }
        }
    }
    assert forall|s: isize| s != es[i].0 implies lookup(t, s) == lookup(es, s) by {
        if slot_occupied(es, s) {
            lemma_slot_index(es, s);
            let k = slot_index_in(es, s);
            assert(k != i);
            if k < i {
                assert(t[k] == es[k]);
            } else {
                assert(t[k - 1] == es[k]);
            }
            lemma_slot_index(t, s);
        } else {
            if slot_occupied(t, s) {
                let k = choose|k: int| 0 <= k < t.len() && (#[trigger] t[k]).0 == s;
                if k < i {
                    assert(es[k].0 == s);
                } else {
                    assert(es[k + 1].0 == s);
                }
            }
        }
    }
    assert forall|k: int| 0 <= k < t.len() implies es.contains(#[trigger] t[k]) by {
        if k < i {
            assert(t[k] == es[k]);
        } else {
            assert(t[k] == es[k + 1]);
        }
    }
    assert(entry_hashes(t) =~= entry_hashes(es).remove(i));
}

impl<Gene: Genotype> Population<Gene> {
    /// The first storage position whose slot is at least `score`.
    fn position_for(&self, score: isize) -> (i: usize)
        requires
            slots_strictly_sorted(self.entries()),
        ensures
            i <= self.entries().len(),
            forall|j: int| 0 <= j < i ==> (#[trigger] self.entries()[j]).0 < score,
            i < self.entries().len() ==> self.entries()[i as int].0 >= score,
    {
        let mut i: usize = 0;
        while i < self.agents.len()
            invariant
                i <= self.agents@.len(),
                forall|j: int| 0 <= j < i ==> (#[trigger] self.agents@[j]).0 < score,
            decreases self.agents@.len() - i,
        {
            if self.agents[i].0 >= score {
                return i;
            }
            i += 1;
        }
        i
    }

    /// Places `agent` at `score`, overwriting any previous occupant of that
    /// slot. When uniqueness is enabled and the agent's content hash is
    /// already registered, the insert is dropped entirely; otherwise the
    /// register swaps the displaced occupant's hash for the new one.
    pub fn insert(&mut self, score: isize, agent: Agent<Gene>)
        requires
            old(self).wf(),
        ensures
            final(self).wf(),
            final(self).unique() == old(self).unique(),
            (old(self).unique() && old(self).reg().contains(agent.hash_value())) ==> (final(self).entries()
                == old(self).entries() && final(self).reg() == old(self).reg()),
            !(old(self).unique() && old(self).reg().contains(agent.hash_value())) ==> ({
                &&& lookup(final(self).entries(), score) == Some(agent)
                &&& forall|t: isize|
                    t != score ==> lookup(final(self).entries(), t) == lookup(
                        old(self).entries(),
                        t,
                    )
                &&& final(self).entries().len() == old(self).entries().len() + (if slot_occupied(
                    old(self).entries(),
                    score,
                ) {
                    0int
                } else {
                    1int
                })
                &&& forall|k: int|
                    0 <= k < final(self).entries().len() ==> (#[trigger] final(self).entries()[k]
                        == (score, agent) || old(self).entries().contains(
                        final(self).entries()[k],
                    ))
                &&& (old(self).unique() ==> final(self).reg() == (if slot_occupied(
                    old(self).entries(),
                    score,
                ) {
                    old(self).reg().remove(
                        lookup(old(self).entries(), score)->Some_0.hash_value(),
                    )
                } else {
                    old(self).reg()
                }).insert(agent.hash_value()))
                &&& (!old(self).unique() ==> final(self).reg() == old(self).reg())
            }),
            (final(self).entries(), final(self).reg()) == population_after_insert(
                old(self).entries(),
                old(self).reg(),
                old(self).unique(),
                score,
                agent,
            ),
    {
        let h = agent.get_hash();
        if self.unique_agents {
            if self.register.contains(&h) {
                return;
            }
        }
        proof {
            if self.unique() {
                assert(!entry_hashes(self.entries()).contains(h)) by {
                    if entry_hashes(self.entries()).contains(h) {
                        assert(entry_hashes(self.entries()).to_set().contains(h));
                    }
                }
            }
        }
        let i = self.position_for(score);
        let ghost old_es = self.entries();
        let mut occupied_same = false;
        if i < self.agents.len() {
            if self.agents[i].0 == score {
                occupied_same = true;
            }
        }
        if occupied_same {
            proof {
                lemma_entry_update(old_es, i as int, (score, agent));
                if self.unique() {
                    lemma_hash_seq_update(entry_hashes(old_es), i as int, agent.hash_value());
                }
            }
            let displaced = self.agents.remove(i);
            self.agents.insert(i, (score, agent));
            proof {
                assert(self.agents@ =~= old_es.update(i as int, (score, agent)));
            }
            if self.unique_agents {
                let dh = displaced.1.get_hash();
                self.register.remove(&dh);
                self.register.insert(h);
            }
            proof {
                assert(slot_occupied(old_es, score)) by {
                    assert(old_es[i as int].0 == score);
                }
                assert(self.entries() == entries_after_insert(old_es, score, agent));
                if self.unique() {
                    assert(self.reg() == reg_after_insert(old(self).reg(), old_es, score, agent));
                }
            }
        } else {
            proof {
                lemma_entry_insert(old_es, i as int, (score, agent));
                lemma_hash_seq_insert(entry_hashes(old_es), i as int, agent.hash_value());
            }
            self.agents.insert(i, (score, agent));
            if self.unique_agents {
                self.register.insert(h);
            }
            proof {
                lemma_insert_position_is(old_es, score, i as int);
                assert(self.entries() == entries_after_insert(old_es, score, agent));
                if self.unique() {
                    assert(self.reg() == reg_after_insert(old(self).reg(), old_es, score, agent));
                }
            }
        }
    }

    /// Removes and returns the occupant of `score`, unregistering its content
    /// hash when uniqueness is enabled.
    pub fn remove(&mut self, score: isize) -> (r: Option<Agent<Gene>>)
        requires
            old(self).wf(),
        ensures
            final(self).wf(),
            final(self).unique() == old(self).unique(),
            !slot_occupied(old(self).entries(), score) ==> (r is None && final(self).entries()
                == old(self).entries() && final(self).reg() == old(self).reg()),
            slot_occupied(old(self).entries(), score) ==> ({
                &&& r == lookup(old(self).entries(), score)
                &&& final(self).entries().len() == old(self).entries().len() - 1
                &&& !slot_occupied(final(self).entries(), score)
                &&& forall|t: isize|
                    t != score ==> lookup(final(self).entries(), t) == lookup(
                        old(self).entries(),
                        t,
                    )
                &&& forall|k: int|
                    0 <= k < final(self).entries().len() ==> old(self).entries().contains(
                        #[trigger] final(self).entries()[k],
                    )
                &&& (old(self).unique() ==> final(self).reg() == old(self).reg().remove(
                    r->Some_0.hash_value(),
                ))
                &&& (!old(self).unique() ==> final(self).reg() == old(self).reg())
            }),
    {
        let i = self.position_for(score);
        let ghost old_es = self.entries();
        if i >= self.agents.len() {
            return None;
        }
        if self.agents[i].0 != score {
            proof {
                if slot_occupied(old_es, score) {
                    lemma_slot_index(old_es, score);
                }
            }
            return None;
        }
        proof {
            lemma_entry_remove(old_es, i as int);
            if self.unique() {
                lemma_hash_seq_remove(entry_hashes(old_es), i as int);
            }
        }
        let removed = self.agents.remove(i);
        if self.unique_agents {
            let dh = removed.1.get_hash();
            self.register.remove(&dh);
        }
        Some(removed.1)
    }
}

/// A filter that accepts every element returns the sequence unchanged.
proof fn lemma_filter_all_true<A>(s: Seq<A>, pred: spec_fn(A) -> bool)
    requires
        forall|i: int| 0 <= i < s.len() ==> pred(#[trigger] s[i]),
    ensures
        s.filter(pred) == s,
    decreases s.len(),
{
    reveal(Seq::filter);
    if s.len() == 0 {
        assert(s.filter(pred) =~= s);
    } else {
        lemma_filter_all_true(s.drop_last(), pred);
        assert(pred(s.last()));
        assert(s.filter(pred) =~= s);
    }
}

/// A filter that rejects every element returns the empty sequence.
proof fn lemma_filter_all_false<A>(s: Seq<A>, pred: spec_fn(A) -> bool)
    requires
        forall|i: int| 0 <= i < s.len() ==> !pred(#[trigger] s[i]),
    ensures
        s.filter(pred) == Seq::<A>::empty(),
    decreases s.len(),
{
    reveal(Seq::filter);
    if s.len() == 0 {
        assert(s.filter(pred) =~= Seq::<A>::empty());
    } else {
        lemma_filter_all_false(s.drop_last(), pred);
        assert(!pred(s.last()));
        assert(s.filter(pred) =~= Seq::<A>::empty());
    }
}

/// Appending one entry extends the slot map of a raw entry list at exactly
/// that entry's slot.
proof fn lemma_last_entry_push<Gene: Genotype>(
    q: Seq<(isize, Agent<Gene>)>,
    e: (isize, Agent<Gene>),
    t: isize,
)
    ensures
        slot_occupied(q.push(e), t) == (slot_occupied(q, t) || t == e.0),
        t == e.0 ==> last_entry_for(q.push(e), t) == e.1,
        (t != e.0 && slot_occupied(q, t)) ==> last_entry_for(q.push(e), t) == last_entry_for(q, t),
{
    let w = q.push(e);
    assert(w.drop_last() =~= q);
    assert(w.last() == e);
    assert(w[q.len() as int] == e);
    if slot_occupied(q, t) {
        let k = choose|k: int| 0 <= k < q.len() && (#[trigger] q[k]).0 == t;
        assert(w[k].0 == t);
    }
    if slot_occupied(w, t) && t != e.0 {
        let k = choose|k: int| 0 <= k < w.len() && (#[trigger] w[k]).0 == t;
        assert(k < q.len());
        assert(q[k].0 == t);
    }
}

/// The "fall back" rule for a colliding insertion slot: starting from
/// `start`, the slot is decremented while occupied; it stops at the first
/// free slot, or at slot zero at the latest when starting from a
/// non-negative slot.
pub open spec fn falls_to<Gene: Genotype>(
    es: Seq<(isize, Agent<Gene>)>,
    start: isize,
    r: isize,
) -> bool {
    &&& r <= start
    &&& (start >= 0 ==> r >= 0)
    &&& (forall|t: isize| r < t <= start ==> slot_occupied(es, t))
    &&& (r == 0 || !slot_occupied(es, r) || r == isize::MIN)
}

/// A bound below every slot that the fall-back search can visit.
pub open spec fn low_bound<Gene: Genotype>(es: Seq<(isize, Agent<Gene>)>) -> int {
    if es.len() == 0 {
        -1
    } else if es[0].0 >= 0 {
        -1
    } else {
        es[0].0 - 1
    }
}

impl<Gene: Genotype> Population<Gene> {
    /// Walks the insertion slot downwards from `start` until it is free,
    /// stopping at slot zero for non-negative starts.
    pub fn find_free_slot(&self, start: isize) -> (r: isize)
        requires
            self.wf(),
        ensures
            falls_to(self.entries(), start, r),
    {
        let mut score = start;
        loop
            invariant
                self.wf(),
                score <= start,
                start >= 0 ==> score >= 0,
                forall|t: isize| score < t <= start ==> slot_occupied(self.entries(), t),
            decreases score as int - low_bound(self.entries()),
        {
            if score == 0 {
                return 0;
            }
            if self.contains_score(score) {
                if score == isize::MIN {
                    return score;
                }
                proof {
                    let k = choose|k: int|
                        0 <= k < self.entries().len() && (#[trigger] self.entries()[k]).0 == score;
                    if k > 0 {
                        assert(self.entries()[0].0 < self.entries()[k].0);
                    }
                }
                score = score - 1;
            } else {
                return score;
            }
        }
    }

    /// Rebuilds the hash register from the agents now present.
    fn rebuild_register(&mut self)
        ensures
            final(self).entries() == old(self).entries(),
            final(self).unique() == old(self).unique(),
            final(self).reg() == entry_hashes(old(self).entries()).to_set(),
    {
        self.register = HashSet::new();
        proof {
            assert(self.register@ =~= entry_hashes(self.agents@).take(0).to_set());
        }
        let mut i: usize = 0;
        while i < self.agents.len()
            invariant
                self.agents@ == old(self).agents@,
                self.unique_agents == old(self).unique_agents,
                i <= self.agents@.len(),
                self.register@ == entry_hashes(self.agents@).take(i as int).to_set(),
            decreases self.agents@.len() - i,
        {
            let hh = self.agents[i].1.get_hash();
            self.register.insert(hh);
            proof {
                let hs = entry_hashes(self.agents@);
                lemma_hash_seq_insert(hs.take(i as int), i as int, hh);
                assert(hs.take(i as int).insert(i as int, hh) =~= hs.take(i + 1));
            }
            i += 1;
        }
        proof {
            assert(entry_hashes(self.agents@).take(self.agents@.len() as int) =~= entry_hashes(
                self.agents@,
            ));
        }
    }

    /// Discards every agent at a slot strictly below `score` and rebuilds the
    /// uniqueness register from the survivors.
    #[verifier::rlimit(50)]
    pub fn cull_all_below(&mut self, score: isize)
        requires
            old(self).wf(),
        ensures
            final(self).wf(),
            final(self).unique() == old(self).unique(),
            final(self).entries() == old(self).entries().filter(
                |p: (isize, Agent<Gene>)| p.0 >= score,
            ),
            forall|k: int|
                (0 <= k <= old(self).entries().len() && (forall|j: int|
                    0 <= j < k ==> (#[trigger] old(self).entries()[j]).0 < score) && (forall|
                    j: int,
                |
                    k <= j < old(self).entries().len() ==> (#[trigger] old(self).entries()[j]).0
                        >= score)) ==> final(self).entries() == #[trigger] old(
                    self,
                ).entries().skip(k),
    {
        let k = self.position_for(score);
        let ghost old_es = self.entries();
        let kept = self.agents.split_off(k);
        self.agents = kept;
        proof {
            assert(self.agents@ =~= old_es.skip(k as int));
        }
        if self.unique_agents {
            self.rebuild_register();
        }
        proof {
            let pred = |p: (isize, Agent<Gene>)| p.0 >= score;
            let kept_es = old_es.skip(k as int);
            assert(old_es =~= old_es.take(k as int) + kept_es);
            Seq::<(isize, Agent<Gene>)>::filter_distributes_over_add(
                old_es.take(k as int),
                kept_es,
                pred,
            );
            lemma_filter_all_false(old_es.take(k as int), pred);
            lemma_filter_all_true(kept_es, pred);
            assert(old_es.filter(pred) =~= kept_es);
            assert(slots_strictly_sorted(kept_es)) by {
                assert forall|p: int, q: int| 0 <= p < q < kept_es.len() implies (
                #[trigger] kept_es[p]).0 < (#[trigger] kept_es[q]).0 by {
                    assert(kept_es[p] == old_es[p + k] && kept_es[q] == old_es[q + k]);
                }
            }
            if self.unique() {
                assert(entry_hashes(kept_es).no_duplicates()) by {
                    assert forall|p: int, q: int|
                        0 <= p < q < entry_hashes(kept_es).len() implies entry_hashes(kept_es)[p]
                        != entry_hashes(kept_es)[q] by {
                        assert(kept_es[p] == old_es[p + k] && kept_es[q] == old_es[q + k]);
                        assert(entry_hashes(old_es)[p + k] != entry_hashes(old_es)[q + k]);
                    }
                }
            }
            assert forall|k2: int|
                (0 <= k2 <= old_es.len() && (forall|j: int|
                    0 <= j < k2 ==> (#[trigger] old_es[j]).0 < score) && (forall|j: int|
                    k2 <= j < old_es.len() ==> (#[trigger] old_es[j]).0 >= score)) implies self.entries()
                == #[trigger] old_es.skip(k2) by {
                if k2 < k as int {
                    assert(old_es[k2].0 < score);
                } else if k2 > k as int {
                    assert(old_es[k as int].0 >= score);
                    assert(old_es[k as int].0 < score);
                }
            }
        }
    }

    /// The first storage position whose slot is strictly above `score`.
    fn position_above(&self, score: isize) -> (i: usize)
        requires
            slots_strictly_sorted(self.entries()),
        ensures
            i <= self.entries().len(),
            forall|j: int| 0 <= j < i ==> (#[trigger] self.entries()[j]).0 <= score,
            i < self.entries().len() ==> self.entries()[i as int].0 > score,
    {
        let mut i: usize = 0;
        while i < self.agents.len()
            invariant
                i <= self.agents@.len(),
                forall|j: int| 0 <= j < i ==> (#[trigger] self.agents@[j]).0 <= score,
            decreases self.agents@.len() - i,
        {
            if self.agents[i].0 > score {
                return i;
            }
            i += 1;
        }
        i
    }

    /// Discards every agent at a slot strictly above `score` and rebuilds the
    /// uniqueness register from the survivors.
    #[verifier::rlimit(50)]
    pub fn cull_all_above(&mut self, score: isize)
        requires
            old(self).wf(),
        ensures
            final(self).wf(),
            final(self).unique() == old(self).unique(),
            final(self).entries() == old(self).entries().filter(
                |p: (isize, Agent<Gene>)| p.0 <= score,
            ),
            forall|k: int|
                (0 <= k <= old(self).entries().len() && (forall|j: int|
                    0 <= j < k ==> (#[trigger] old(self).entries()[j]).0 <= score) && (forall|
                    j: int,
                |
                    k <= j < old(self).entries().len() ==> (#[trigger] old(self).entries()[j]).0
                        > score)) ==> final(self).entries() == #[trigger] old(
                    self,
                ).entries().take(k),
    {
        let ghost old_es = self.entries();
        let k = self.position_above(score);
        let _discarded = self.agents.split_off(k);
        proof {
            assert(self.agents@ =~= old_es.take(k as int));
            assert(forall|j: int|
                k as int <= j < old_es.len() ==> (#[trigger] old_es[j]).0 > score) by {
                if k < old_es.len() {
                    assert forall|j: int| k as int <= j < old_es.len() implies (
                    #[trigger] old_es[j]).0 > score by {
                        if j > k as int {
                            assert(old_es[k as int].0 < old_es[j].0);
                        }
                    }
                }
            }
        }
        if self.unique_agents {
            self.rebuild_register();
        }
        proof {
            let pred = |p: (isize, Agent<Gene>)| p.0 <= score;
            let kept_es = old_es.take(k as int);
            assert(old_es =~= kept_es + old_es.skip(k as int));
            Seq::<(isize, Agent<Gene>)>::filter_distributes_over_add(
                kept_es,
                old_es.skip(k as int),
                pred,
            );
            lemma_filter_all_true(kept_es, pred);
            assert forall|j: int| 0 <= j < old_es.skip(k as int).len() implies !pred(
                #[trigger] old_es.skip(k as int)[j],
            ) by {
                assert(old_es.skip(k as int)[j] == old_es[j + k]);
            }
            lemma_filter_all_false(old_es.skip(k as int), pred);
            assert(old_es.filter(pred) =~= kept_es);
            assert(slots_strictly_sorted(kept_es)) by {
                assert forall|p: int, q: int| 0 <= p < q < kept_es.len() implies (
                #[trigger] kept_es[p]).0 < (#[trigger] kept_es[q]).0 by {
                    assert(kept_es[p] == old_es[p] && kept_es[q] == old_es[q]);
                }
            }
            if self.unique() {
                assert(entry_hashes(kept_es).no_duplicates()) by {
                    assert forall|p: int, q: int|
                        0 <= p < q < entry_hashes(kept_es).len() implies entry_hashes(kept_es)[p]
                        != entry_hashes(kept_es)[q] by {
                        assert(entry_hashes(old_es)[p] != entry_hashes(old_es)[q]);
                    }
                }
            }
            assert forall|k2: int|
                (0 <= k2 <= old_es.len() && (forall|j: int|
                    0 <= j < k2 ==> (#[trigger] old_es[j]).0 <= score) && (forall|j: int|
                    k2 <= j < old_es.len() ==> (#[trigger] old_es[j]).0 > score)) implies self.entries()
                == #[trigger] old_es.take(k2) by {
                if k2 < k as int {
                    assert(old_es[k2].0 <= score);
                    assert(old_es[k2].0 > score);
                } else if k2 > k as int {
                    assert(old_es[k as int].0 > score);
                    assert(old_es[k as int].0 <= score);
                }
            }
        }
    }

    /// Inserts every given (slot, agent) pair in order, each through the
    /// ordinary `insert` rules; for a non-uniqueness population the last pair
    /// carrying a slot wins.
    pub fn set_agents(&mut self, agents: Vec<(isize, Agent<Gene>)>)
        requires
            old(self).wf(),
        ensures
            final(self).wf(),
            final(self).unique() == old(self).unique(),
            !old(self).unique() ==> forall|t: isize|
                #[trigger] lookup(final(self).entries(), t) == (if slot_occupied(agents@, t) {
                    Some(last_entry_for(agents@, t))
                } else {
                    lookup(old(self).entries(), t)
                }),
            forall|k: int|
                0 <= k < final(self).entries().len() ==> (old(self).entries().contains(
                    #[trigger] final(self).entries()[k],
                ) || agents@.contains(final(self).entries()[k])),
            (!old(self).unique() && agents@.len() > 0) ==> final(self).entries().len() > 0,
            ({
                let m = population_after_set(
                    old(self).entries(),
                    old(self).reg(),
                    old(self).unique(),
                    agents@,
                );
                final(self).entries() == m.0 && final(self).reg() == m.1
            }),
    {
        let ghost orig = *old(self);
        let ghost all = agents@;
        let ghost mut n: int = 0;
        let mut rest = agents;
        while rest.len() > 0
            invariant
                self.wf(),
                self.unique() == orig.unique(),
                0 <= n <= all.len(),
                rest@ == all.skip(n),
                !orig.unique() ==> forall|t: isize|
                    #[trigger] lookup(self.entries(), t) == (if slot_occupied(all.take(n), t) {
                        Some(last_entry_for(all.take(n), t))
                    } else {
                        lookup(orig.entries(), t)
                    }),
                forall|k: int|
                    0 <= k < self.entries().len() ==> (orig.entries().contains(
                        #[trigger] self.entries()[k],
                    ) || all.contains(self.entries()[k])),
                population_after_set(self.entries(), self.reg(), orig.unique(), rest@)
                    == population_after_set(orig.entries(), orig.reg(), orig.unique(), all),
            decreases rest@.len(),
        {
            let ghost pre = *self;
            let ghost rest_pre = rest@;
            let p = rest.remove(0);
            proof {
                assert(p == all[n]);
                assert(rest@ =~= all.skip(n + 1));
            }
            let ghost e = p;
            self.insert(p.0, p.1);
            proof {
                let q = all.take(n);
                let q2 = all.take(n + 1);
                assert(q2 =~= q.push(e));
                if !orig.unique() {
                    assert forall|t: isize|
                        #[trigger] lookup(self.entries(), t) == (if slot_occupied(q2, t) {
                            Some(last_entry_for(q2, t))
                        } else {
                            lookup(orig.entries(), t)
                        }) by {
                        lemma_last_entry_push(q, e, t);
                        if t == e.0 {
                            assert(lookup(self.entries(), t) == Some(e.1));
                        } else {
                            assert(lookup(self.entries(), t) == lookup(pre.entries(), t));
                        }
                    }
                }
                assert forall|k: int|
                    0 <= k < self.entries().len() implies (orig.entries().contains(
                        #[trigger] self.entries()[k],
                    ) || all.contains(self.entries()[k])) by {
                    if self.entries()[k] == e {
                        assert(all[n] == e);
                        assert(all.contains(e));
                    } else if pre.entries().contains(self.entries()[k]) {
                    }
                }
                assert(rest_pre.drop_first() =~= rest@);
                assert((self.entries(), self.reg()) == population_after_insert(
                    pre.entries(),
                    pre.reg(),
                    orig.unique(),
                    e.0,
                    e.1,
                ));
                assert(rest_pre[0] == e);
                assert(population_after_set(pre.entries(), pre.reg(), orig.unique(), rest_pre)
                    == population_after_set(self.entries(), self.reg(), orig.unique(), rest@));
                n = n + 1;
            }
        }
        proof {
            assert(all.take(n) =~= all);
            assert(rest@.len() == 0);
            assert(population_after_set(self.entries(), self.reg(), orig.unique(), rest@) == (
                self.entries(),
                self.reg(),
            ));
            if !orig.unique() && all.len() > 0 {
                let t = all[0].0;
                assert(slot_occupied(all, t)) by {
                    assert(all[0].0 == t);
                }
                assert(lookup(self.entries(), t) is Some);
                assert(slot_occupied(self.entries(), t));
            }
        }
    }

    /// Seeds a population with `start_size` freshly random agents. Each
    /// candidate is checked for acceptance first; its desired slot comes from
    /// the index function and falls back downwards on collision: every stored
    /// slot lies at or below a score the index function returned for its
    /// agent, is non-negative whenever that score was, and in a
    /// non-uniqueness population an agent is lost only to a fallback
    /// collision at the terminal slot.
    pub fn new<Data, F: Fn(&Agent<Gene>, &Data) -> isize>(
        start_size: usize,
        number_of_genes: usize,
        unique: bool,
        data: &Data,
        get_score_index: &F,
    ) -> (r: Population<Gene>)
        requires
            forall|a: &Agent<Gene>| #[trigger] call_requires(*get_score_index, (a, data)),
        ensures
            r.wf(),
            r.unique() == unique,
            r.entries().len() <= start_size,
            start_size >= 1 ==> r.entries().len() >= 1,
            forall|k: int|
                0 <= k < r.entries().len() ==> (#[trigger] r.entries()[k]).1.genes_view().len()
                    == number_of_genes,
            forall|k: int|
                0 <= k < r.entries().len() ==> seeded_entry_ok(
                    *get_score_index,
                    data,
                    #[trigger] r.entries()[k],
                ),
            (forall|a: &Agent<Gene>, s: isize|
                call_ensures(*get_score_index, (a, data), s) ==> s >= 0) ==> (forall|k: int|
                0 <= k < r.entries().len() ==> (#[trigger] r.entries()[k]).0 >= 0),
            !unique ==> (r.entries().len() == start_size || slot_occupied(r.entries(), 0)
                || slot_occupied(r.entries(), isize::MIN)),
    {
        let mut population = Population::new_empty(unique);
        let mut n: usize = 0;
        while n < start_size
            invariant
                population.wf(),
                population.unique() == unique,
                n <= start_size,
                population.entries().len() <= n,
                n == 0 ==> population.entries().len() == 0 && population.reg() == Set::<
                    u64,
                >::empty(),
                n >= 1 ==> population.entries().len() >= 1,
                forall|k: int|
                    0 <= k < population.entries().len() ==> (#[trigger] population.entries()[k]).1.genes_view().len()
                        == number_of_genes,
                forall|k: int|
                    0 <= k < population.entries().len() ==> seeded_entry_ok(
                        *get_score_index,
                        data,
                        #[trigger] population.entries()[k],
                    ),
                !unique ==> (population.entries().len() == n || slot_occupied(
                    population.entries(),
                    0,
                ) || slot_occupied(population.entries(), isize::MIN)),
                forall|a: &Agent<Gene>| #[trigger] call_requires(*get_score_index, (a, data)),
            decreases start_size - n,
        {
            let agent = Agent::new(number_of_genes);
            if population.will_accept(&agent) {
                let ghost pre = population;
                let ghost ag = agent;
                let desired = get_score_index(&agent, data);
                let score = population.find_free_slot(desired);
                proof {
                    assert(call_ensures(*get_score_index, (&agent, data), desired));
                    assert(seeded_entry_ok(*get_score_index, data, (score, ag)));
                }
                population.insert(score, agent);
                proof {
                    assert forall|k: int|
                        0 <= k < population.entries().len() implies (
                    #[trigger] population.entries()[k]).1.genes_view().len()
                        == number_of_genes by {
                        if population.entries()[k] == (score, ag) {
                        } else {
                            assert(pre.entries().contains(population.entries()[k]));
                            let j = choose|j: int|
                                0 <= j < pre.entries().len() && pre.entries()[j]
                                    == population.entries()[k];
                        }
                    }
                    assert forall|k: int|
                        0 <= k < population.entries().len() implies seeded_entry_ok(
                        *get_score_index,
                        data,
                        #[trigger] population.entries()[k],
                    ) by {
                        if population.entries()[k] == (score, ag) {
                        } else {
                            assert(pre.entries().contains(population.entries()[k]));
                            let j = choose|j: int|
                                0 <= j < pre.entries().len() && pre.entries()[j]
                                    == population.entries()[k];
                            assert(seeded_entry_ok(*get_score_index, data, pre.entries()[j]));
                        }
                    }
                    if !unique {
                        assert(!(pre.unique() && pre.reg().contains(ag.hash_value())));
                        if slot_occupied(pre.entries(), score) {
                            assert(score == 0 || score == isize::MIN);
                            assert(lookup(population.entries(), score) == Some(ag));
                            assert(slot_occupied(population.entries(), score));
                        } else {
                            assert(population.entries().len() == pre.entries().len() + 1);
                            if slot_occupied(pre.entries(), 0) {
                                if 0 != score {
                                    assert(lookup(population.entries(), 0) == lookup(
                                        pre.entries(),
                                        0,
                                    ));
                                }
                                assert(slot_occupied(population.entries(), 0));
                            }
                            if slot_occupied(pre.entries(), isize::MIN) {
                                if isize::MIN != score {
                                    assert(lookup(population.entries(), isize::MIN) == lookup(
                                        pre.entries(),
                                        isize::MIN,
                                    ));
                                }
                                assert(slot_occupied(population.entries(), isize::MIN));
                            }
                        }
                    }
                }
            }
            n += 1;
        }
        proof {
            if forall|a: &Agent<Gene>, s: isize|
                call_ensures(*get_score_index, (a, data), s) ==> s >= 0 {
                assert forall|k: int|
                    0 <= k < population.entries().len() implies (
                #[trigger] population.entries()[k]).0 >= 0 by {
                    assert(seeded_entry_ok(*get_score_index, data, population.entries()[k]));
                    let start = choose|start: isize|
                        #[trigger] call_ensures(
                            *get_score_index,
                            (&population.entries()[k].1, data),
                            start,
                        ) && population.entries()[k].0 <= start && (start >= 0
                            ==> population.entries()[k].0 >= 0);
                    assert(start >= 0);
                }
            }
        }
        population
    }
}

/// In a well-formed uniqueness population no two present agents share a
/// content hash, and the register holds exactly one hash per agent.
pub proof fn lemma_unique_register_size<Gene: Genotype>(p: Population<Gene>)
    requires
        p.wf(),
        p.unique(),
    ensures
        p.reg().len() == p.entries().len(),
        forall|i: int, j: int|
            0 <= i < j < p.entries().len() ==> (#[trigger] p.entries()[i]).1.hash_value() != (
            #[trigger] p.entries()[j]).1.hash_value(),
{
    entry_hashes(p.entries()).unique_seq_to_set();
    assert forall|i: int, j: int| 0 <= i < j < p.entries().len() implies (
    #[trigger] p.entries()[i]).1.hash_value() != (#[trigger] p.entries()[j]).1.hash_value() by {
        assert(entry_hashes(p.entries())[i] != entry_hashes(p.entries())[j]);
    }
}

/// The fall-back search from a non-negative starting slot lands between
/// slot zero and the start, so decrementing takes at most `start` steps
/// before it stops.
pub proof fn lemma_fall_back_bounded<Gene: Genotype>(
    es: Seq<(isize, Agent<Gene>)>,
    start: isize,
    r: isize,
)
    requires
        falls_to(es, start, r),
        start >= 0,
    ensures
        0 <= r <= start,
        start - r <= start,
{
}

} // verus!
