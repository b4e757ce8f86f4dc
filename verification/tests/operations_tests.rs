use genetic::agent::{Agent, Genotype};
use genetic::population::Population;
use std::sync::atomic::{AtomicU64, Ordering};

static NEXT_GENE: AtomicU64 = AtomicU64::new(0);

#[derive(Clone, Copy, PartialEq, Debug)]
struct TestGene(u8);

impl Genotype for TestGene {
    fn random_genes(count: usize) -> Vec<TestGene> {
        let mut v = Vec::new();
        for _ in 0..count {
            let n = NEXT_GENE.fetch_add(1, Ordering::Relaxed);
            v.push(TestGene((n % 251) as u8));
        }
        v
    }

    fn mutate_genes(genes: &mut Vec<TestGene>) {
        for g in genes.iter_mut() {
            g.0 = ((g.0 as u64 + 1) % 251) as u8;
        }
    }

    fn crossover_genes(one: &Vec<TestGene>, two: &Vec<TestGene>) -> Vec<TestGene> {
        let mut child = Vec::new();
        let half = one.len() / 2;
        for g in one.iter().take(half) {
            child.push(*g);
        }
        for g in two.iter().skip(half) {
            child.push(*g);
        }
        child
    }

    fn hash_genes(genes: &Vec<TestGene>) -> u64 {
        let mut h: u64 = 1469598103934665603;
        for g in genes.iter() {
            h ^= g.0 as u64;
            h = h.wrapping_mul(1099511628211);
        }
        h
    }

    fn clone_gene(gene: &TestGene) -> TestGene {
        *gene
    }

    fn genes_equal(one: &Vec<TestGene>, two: &Vec<TestGene>) -> bool {
        one == two
    }
}

fn get_score_index(agent: &Agent<TestGene>, _data: &u8) -> isize {
    agent.get_genes()[0].0 as isize
}

use genetic::fitness::{GeneralScoreProvider, ScoreError};
use genetic::operations::{
    cull_lowest_agents, rate_to_number, Operation, OperationType, Selection, SelectionType,
};

fn get_score(agent: &Agent<TestGene>, _data: &u8) -> Result<u64, ScoreError> {
    Ok(agent.get_genes()[0].0 as u64)
}

#[test]
fn selection_random_any_returns_correct_proportion() {
    let selection = Selection::with_values(SelectionType::RandomAny, 250, 0);

    let population = Population::new(8, 1, false, &0, &get_score_index);
    assert_eq!(8, population.len());

    let agent_map = selection.agents(&population);
    // The draw is with replacement, so after deduplication the subset may be
    // smaller than the designated count of two.
    assert!(agent_map.len() >= 1 && agent_map.len() <= 2);
    for entry in agent_map.iter() {
        assert!(population.contains_score(entry.0));
    }
}

#[test]
fn selection_highest_score_returns_highest() {
    let selection = Selection::with_values(SelectionType::HighestScore, 250, 0);

    let population = Population::new(8, 1, false, &0, &get_score_index);
    assert_eq!(8, population.len());

    let agent_map = selection.agents(&population);
    assert_eq!(2, agent_map.len());

    let entries = population.get_agents();
    let top = entries[entries.len() - 1].0;
    let second = entries[entries.len() - 2].0;
    assert!(agent_map.iter().any(|p| p.0 == top));
    assert!(agent_map.iter().any(|p| p.0 == second));
}

#[test]
fn selection_lowest_score_returns_lowest() {
    let selection = Selection::with_values(SelectionType::LowestScore, 250, 0);

    let population = Population::new(8, 1, false, &0, &get_score_index);
    assert_eq!(8, population.len());

    let agent_map = selection.agents(&population);
    assert_eq!(2, agent_map.len());

    let entries = population.get_agents();
    let bottom = entries[0].0;
    let second = entries[1].0;
    assert!(agent_map.iter().any(|p| p.0 == bottom));
    assert!(agent_map.iter().any(|p| p.0 == second));
}

#[test]
fn rate_to_number_standard_proportion() {
    assert_eq!(16, rate_to_number(20, 800, 0));
}

#[test]
fn rate_to_number_population_is_zero() {
    assert_eq!(0, rate_to_number(0, 0, 0));
    assert_eq!(0, rate_to_number(0, 800, 0));
}

#[test]
fn rate_to_number_full_proportion() {
    assert_eq!(20, rate_to_number(20, 1000, 0));
}

#[test]
fn rate_to_number_rounds_down() {
    assert_eq!(7, rate_to_number(10, 750, 0));
    assert_eq!(7, rate_to_number(10, 710, 0));
    assert_eq!(7, rate_to_number(10, 790, 0));
}

#[test]
fn rate_to_number_minimum_preference_less_than_proportion() {
    assert_eq!(7, rate_to_number(10, 700, 5));
}

#[test]
fn rate_to_number_minimum_preference_greater_than_proportion() {
    assert_eq!(8, rate_to_number(10, 700, 8));
}

#[test]
fn rate_to_number_minimum_preference_greater_than_population() {
    assert_eq!(4, rate_to_number(4, 500, 5));
}

#[test]
fn rate_to_number_monotonic_in_rate() {
    assert_eq!(3, rate_to_number(10, 300, 0));
    assert_eq!(6, rate_to_number(10, 600, 0));
    let mut previous = 0;
    for rate in [0, 100, 250, 500, 750, 1000] {
        let current = rate_to_number(40, rate, 2);
        assert!(current >= previous);
        previous = current;
    }
}

#[test]
fn cull_operation_removes_lowest_half() {
    let mut population: Population<TestGene> = Population::new_empty(false);
    population.insert(1, Agent::from_genes(vec![TestGene(1)]));
    population.insert(2, Agent::from_genes(vec![TestGene(2)]));
    population.insert(3, Agent::from_genes(vec![TestGene(3)]));
    population.insert(4, Agent::from_genes(vec![TestGene(4)]));

    let selection = Selection::with_values(SelectionType::LowestScore, 500, 0);
    let operation: Operation<TestGene, u8> = Operation::new(OperationType::Cull, selection);
    let mut provider = GeneralScoreProvider::new(get_score, 25);
    let population = operation.run(population, &0, &mut provider);

    assert_eq!(2, population.len());
    assert!(population.contains_score(3));
    assert!(population.contains_score(4));
}

#[test]
fn cull_whole_population_is_no_op() {
    let mut population: Population<TestGene> = Population::new_empty(false);
    population.insert(1, Agent::from_genes(vec![TestGene(1)]));
    population.insert(2, Agent::from_genes(vec![TestGene(2)]));
    let culled = cull_lowest_agents(population, 500, 5);
    assert_eq!(2, culled.len());
}

#[test]
fn cull_lowest_agents_keeps_upper_quarter() {
    let mut population: Population<TestGene> = Population::new_empty(false);
    for slot in 0..8 {
        population.insert(slot, Agent::from_genes(vec![TestGene(slot as u8)]));
    }
    let culled = cull_lowest_agents(population, 750, 0);
    assert_eq!(2, culled.len());
    assert!(culled.contains_score(6));
    assert!(culled.contains_score(7));
}

#[test]
fn mutate_operation_keeps_population_valid() {
    let population = Population::new(6, 3, false, &0, &get_score_index);
    let n = population.len();
    let selection = Selection::with_values(SelectionType::RandomAny, 500, 1);
    let operation: Operation<TestGene, u8> = Operation::new(OperationType::Mutate, selection);
    let mut provider = GeneralScoreProvider::new(get_score, 25);
    let population = operation.run(population, &0, &mut provider);
    assert!(population.len() >= 1);
    assert!(population.len() <= n + n);
    for entry in population.get_agents().iter() {
        assert_eq!(3, entry.1.get_genes().len());
    }
}

#[test]
fn crossover_operation_keeps_population_valid() {
    let population = Population::new(6, 4, false, &0, &get_score_index);
    let n = population.len();
    let selection = Selection::with_values(SelectionType::HighestScore, 500, 2);
    let operation: Operation<TestGene, u8> = Operation::new(OperationType::Crossover, selection);
    let mut provider = GeneralScoreProvider::new(get_score, 25);
    let population = operation.run(population, &0, &mut provider);
    assert!(population.len() >= 1);
    assert!(population.len() <= n + n);
}

#[test]
fn empty_population_is_inert_for_selections_and_culls() {
    let population: Population<TestGene> = Population::new_empty(false);
    for kind in [
        SelectionType::RandomAny,
        SelectionType::HighestScore,
        SelectionType::LowestScore,
    ] {
        let selection = Selection::with_values(kind, 500, 0);
        assert_eq!(0, selection.count(&population));
        assert_eq!(0, selection.agents(&population).len());
    }
    let culled = cull_lowest_agents(population, 750, 0);
    assert_eq!(0, culled.len());
}
