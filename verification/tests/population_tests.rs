use genetic::agent::{Agent, Genotype};
use genetic::population::Population;
use std::sync::atomic::{AtomicU64, Ordering};

static NEXT_GENE: AtomicU64 = AtomicU64::new(0);

#[derive(Clone, Copy, PartialEq, Debug)]
struct TestGene(u8);

impl Genotype for TestGene {
    fn random_genes(count: usize) -> Vec<TestGene> {
        let mut v = Vec::new();
        for _ in 0..count {
            let n = NEXT_GENE.fetch_add(1, Ordering::Relaxed);
            v.push(TestGene((n % 251) as u8));
        }
        v
    }

    fn mutate_genes(genes: &mut Vec<TestGene>) {
        for g in genes.iter_mut() {
            g.0 = ((g.0 as u64 + 1) % 251) as u8;
        }
    }

    fn crossover_genes(one: &Vec<TestGene>, two: &Vec<TestGene>) -> Vec<TestGene> {
        let mut child = Vec::new();
        let half = one.len() / 2;
        for g in one.iter().take(half) {
            child.push(*g);
        }
        for g in two.iter().skip(half) {
            child.push(*g);
        }
        child
    }

    fn hash_genes(genes: &Vec<TestGene>) -> u64 {
        let mut h: u64 = 1469598103934665603;
        for g in genes.iter() {
            h ^= g.0 as u64;
            h = h.wrapping_mul(1099511628211);
        }
        h
    }

    fn clone_gene(gene: &TestGene) -> TestGene {
        *gene
    }

    fn genes_equal(one: &Vec<TestGene>, two: &Vec<TestGene>) -> bool {
        one == two
    }
}

fn get_score_index(agent: &Agent<TestGene>, _data: &u8) -> isize {
    agent.get_genes()[0].0 as isize
}

#[test]
fn new_empty() {
    let population: Population<TestGene> = Population::new_empty(false);
    assert_eq!(0, population.len());
    assert_eq!(0, population.get_agents().len());
    assert_eq!(0, population.get_scores().len());
}

#[test]
fn new_with_false_unique() {
    let mut population = Population::new(5, 6, false, &0, &get_score_index);
    assert_eq!(5, population.len());
    assert_eq!(5, population.get_agents().len());
    assert_eq!(5, population.get_scores().len());
    for entry in population.get_agents().iter() {
        assert_eq!(6, entry.1.get_genes().len());
    }

    let random_score = population.get_random_score();
    let agent = population.get(random_score).unwrap().clone();
    assert!(population.will_accept(&agent));
    let mut new_score = 0;
    while population.contains_score(new_score) {
        new_score += 1;
    }

    population.insert(new_score, agent);
    assert_eq!(6, population.len());
    assert_eq!(6, population.get_agents().len());
    assert_eq!(6, population.get_scores().len());
}

#[test]
fn new_with_true_unique() {
    let mut population = Population::new(5, 6, true, &0, &get_score_index);
    assert_eq!(5, population.len());
    assert_eq!(5, population.get_agents().len());
    assert_eq!(5, population.get_scores().len());
    for entry in population.get_agents().iter() {
        assert_eq!(6, entry.1.get_genes().len());
    }

    let random_score = population.get_random_score();
    let agent = population.get(random_score).unwrap().clone();
    assert!(!population.will_accept(&agent));
    let mut new_score = 0;
    while population.contains_score(new_score) {
        new_score += 1;
    }

    population.insert(new_score, agent.clone());
    assert_eq!(5, population.len());
    assert_eq!(5, population.get_agents().len());
    assert_eq!(5, population.get_scores().len());

    population.remove(random_score);
    assert_eq!(4, population.len());
    assert_eq!(4, population.get_agents().len());
    assert_eq!(4, population.get_scores().len());

    population.insert(new_score, agent);
    assert_eq!(5, population.len());
    assert_eq!(5, population.get_agents().len());
    assert_eq!(5, population.get_scores().len());
}

#[test]
fn cull_all_below() {
    let mut population = Population::new(5, 6, true, &0, &get_score_index);
    assert_eq!(5, population.len());
    assert_eq!(5, population.get_agents().len());
    assert_eq!(5, population.get_scores().len());

    let lowest = population.get_scores()[0];
    let second_lowest = population.get_scores()[1];
    let middle = population.get_scores()[2];
    let second_highest = population.get_scores()[3];
    let highest = population.get_scores()[4];

    // Ensure ordering is as expected.
    assert!(highest > lowest);

    // Will be used for checking register of hashes was updated.
    let lowest_clone = population.get(lowest).unwrap().clone();
    let highest_clone = population.get(highest).unwrap().clone();

    population.cull_all_below(middle);
    assert_eq!(3, population.len());
    assert_eq!(3, population.get_agents().len());
    assert_eq!(3, population.get_scores().len());

    assert!(!population.contains_score(lowest));
    assert!(!population.contains_score(second_lowest));
    assert!(population.contains_score(middle));
    assert!(population.contains_score(second_highest));
    assert!(population.contains_score(highest));

    let mut new_score = 0;
    while population.contains_score(new_score) {
        new_score += 1;
    }

    // The highest is still in there and so its clone should not be accepted.
    assert!(!population.will_accept(&highest_clone));
    population.insert(new_score, highest_clone);
    assert_eq!(3, population.len());
    assert_eq!(3, population.get_agents().len());
    assert_eq!(3, population.get_scores().len());

    // The lowest is no longer there and so its clone can be accepted.
    assert!(population.will_accept(&lowest_clone));
    population.insert(new_score, lowest_clone);
    assert_eq!(4, population.len());
    assert_eq!(4, population.get_agents().len());
    assert_eq!(4, population.get_scores().len());
}

#[test]
fn insert_overwrite_keeps_register_in_sync() {
    let mut population: Population<TestGene> = Population::new_empty(true);
    let first = Agent::from_genes(vec![TestGene(1), TestGene(2)]);
    let second = Agent::from_genes(vec![TestGene(3), TestGene(4)]);
    let first_copy = first.clone();

    population.insert(5, first);
    assert_eq!(1, population.len());
    assert!(!population.will_accept(&first_copy));

    // Overwriting slot 5 displaces the first agent and unregisters its hash.
    population.insert(5, second);
    assert_eq!(1, population.len());
    assert!(population.will_accept(&first_copy));

    // A duplicate of the present agent is silently dropped.
    let second_copy = population.get(5).unwrap().clone();
    population.insert(9, second_copy);
    assert_eq!(1, population.len());
    assert!(!population.contains_score(9));
}

#[test]
fn cull_all_above_keeps_low_slots() {
    let mut population: Population<TestGene> = Population::new_empty(false);
    population.insert(1, Agent::from_genes(vec![TestGene(1)]));
    population.insert(4, Agent::from_genes(vec![TestGene(2)]));
    population.insert(9, Agent::from_genes(vec![TestGene(3)]));
    population.cull_all_above(4);
    assert_eq!(2, population.len());
    assert!(population.contains_score(1));
    assert!(population.contains_score(4));
    assert!(!population.contains_score(9));
}

#[test]
fn get_random_score_on_single_slot() {
    let mut population: Population<TestGene> = Population::new_empty(false);
    population.insert(7, Agent::from_genes(vec![TestGene(1)]));
    assert_eq!(7, population.get_random_score());
}

#[test]
fn get_random_score_is_occupied() {
    let mut population: Population<TestGene> = Population::new_empty(false);
    population.insert(1, Agent::from_genes(vec![TestGene(1)]));
    population.insert(5, Agent::from_genes(vec![TestGene(2)]));
    population.insert(9, Agent::from_genes(vec![TestGene(3)]));
    for _ in 0..20 {
        let score = population.get_random_score();
        assert!(population.contains_score(score));
    }
}

#[test]
fn find_free_slot_falls_back_downwards() {
    let mut population: Population<TestGene> = Population::new_empty(false);
    population.insert(3, Agent::from_genes(vec![TestGene(1)]));
    population.insert(4, Agent::from_genes(vec![TestGene(2)]));
    population.insert(5, Agent::from_genes(vec![TestGene(3)]));
    // 5 and 4 and 3 are taken, so the search lands on 2.
    assert_eq!(2, population.find_free_slot(5));
    // A free starting slot is kept.
    assert_eq!(8, population.find_free_slot(8));
    // Decrementing from a non-negative slot stops at zero at the latest.
    population.insert(0, Agent::from_genes(vec![TestGene(4)]));
    population.insert(1, Agent::from_genes(vec![TestGene(5)]));
    population.insert(2, Agent::from_genes(vec![TestGene(6)]));
    assert_eq!(0, population.find_free_slot(5));
}
