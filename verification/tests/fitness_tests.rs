use genetic::agent::{Agent, Genotype};
use genetic::population::Population;
use std::sync::atomic::{AtomicU64, Ordering};

static NEXT_GENE: AtomicU64 = AtomicU64::new(0);

#[derive(Clone, Copy, PartialEq, Debug)]
struct TestGene(u8);

impl Genotype for TestGene {
    fn random_genes(count: usize) -> Vec<TestGene> {
        let mut v = Vec::new();
        for _ in 0..count {
            let n = NEXT_GENE.fetch_add(1, Ordering::Relaxed);
            v.push(TestGene((n % 251) as u8));
        }
        v
    }

    fn mutate_genes(genes: &mut Vec<TestGene>) {
        for g in genes.iter_mut() {
            g.0 = ((g.0 as u64 + 1) % 251) as u8;
        }
    }

    fn crossover_genes(one: &Vec<TestGene>, two: &Vec<TestGene>) -> Vec<TestGene> {
        let mut child = Vec::new();
        let half = one.len() / 2;
        for g in one.iter().take(half) {
            child.push(*g);
        }
        for g in two.iter().skip(half) {
            child.push(*g);
        }
        child
    }

    fn hash_genes(genes: &Vec<TestGene>) -> u64 {
        let mut h: u64 = 1469598103934665603;
        for g in genes.iter() {
            h ^= g.0 as u64;
            h = h.wrapping_mul(1099511628211);
        }
        h
    }

    fn clone_gene(gene: &TestGene) -> TestGene {
        *gene
    }

    fn genes_equal(one: &Vec<TestGene>, two: &Vec<TestGene>) -> bool {
        one == two
    }
}

fn get_score_index(agent: &Agent<TestGene>, _data: &u8) -> isize {
    agent.get_genes()[0].0 as isize
}

use genetic::fitness::{GeneralScoreProvider, ScoreError};

fn doubled_score(agent: &Agent<TestGene>, _data: &u8) -> Result<u64, ScoreError> {
    Ok(agent.get_genes()[0].0 as u64 * 2 + 30)
}

fn failing_score(_agent: &Agent<TestGene>, _data: &u8) -> Result<u64, ScoreError> {
    Err(ScoreError::new(String::from("no score for this agent")))
}

#[test]
fn evaluate_scores_caches_and_keeps_agents() {
    let mut provider = GeneralScoreProvider::new(doubled_score, 25);
    let one = Agent::from_genes(vec![TestGene(4)]);
    let two = Agent::from_genes(vec![TestGene(9)]);
    assert_eq!(None, provider.cached_fitness(&one));

    let kept = provider.evaluate_scores(vec![one.clone(), two.clone()], &0);
    assert_eq!(2, kept.len());
    assert_eq!(Some(38), provider.cached_fitness(&one));
    assert_eq!(Some(48), provider.cached_fitness(&two));
}

#[test]
fn evaluate_scores_drops_failing_agents() {
    let mut provider = GeneralScoreProvider::new(failing_score, 25);
    let one = Agent::from_genes(vec![TestGene(4)]);
    let kept = provider.evaluate_scores(vec![one.clone()], &0);
    assert_eq!(0, kept.len());
    assert_eq!(None, provider.cached_fitness(&one));
}

#[test]
fn get_score_uses_stable_cached_fitness_with_jitter() {
    let mut provider = GeneralScoreProvider::new(doubled_score, 25);
    let agent = Agent::from_genes(vec![TestGene(10)]);
    let fitness: u64 = 50;

    let first = provider.get_score(&agent, &0).unwrap();
    // The first call computed and cached the true fitness.
    assert_eq!(Some(fitness), provider.cached_fitness(&agent));
    let second = provider.get_score(&agent, &0).unwrap();
    // The cached true fitness never changes between calls.
    assert_eq!(Some(fitness), provider.cached_fitness(&agent));

    // Each draw is the true fitness plus a jitter in [0, 50), re-centred by
    // subtracting the offset of 25 and floored at slot zero.
    for slot in [first, second] {
        assert!(slot >= fitness - 25);
        assert!(slot <= fitness + 24);
    }
}

#[test]
fn get_score_floors_low_fitness_at_zero() {
    fn tiny_score(_agent: &Agent<TestGene>, _data: &u8) -> Result<u64, ScoreError> {
        Ok(1)
    }
    let mut provider = GeneralScoreProvider::new(tiny_score, 1000);
    let agent = Agent::from_genes(vec![TestGene(3)]);
    for _ in 0..30 {
        let slot = provider.get_score(&agent, &0).unwrap();
        // Fitness 1 with jitter below 2000 either collapses to the floor or
        // stays below fitness plus offset.
        assert!(slot == 0 || slot <= 1 + 999);
    }
}

#[test]
fn get_score_reports_scoring_failure() {
    let mut provider = GeneralScoreProvider::new(failing_score, 25);
    let agent = Agent::from_genes(vec![TestGene(4)]);
    let result = provider.get_score(&agent, &0);
    assert!(result.is_err());
    assert_eq!("no score for this agent", result.unwrap_err().description());
}

#[test]
fn score_error_reports_its_details() {
    let error = ScoreError::new(String::from("broken"));
    assert_eq!("broken", error.description());
}

#[test]
fn evaluate_scores_preserves_order_and_is_idempotent() {
    let mut provider = GeneralScoreProvider::new(doubled_score, 25);
    let one = Agent::from_genes(vec![TestGene(1)]);
    let two = Agent::from_genes(vec![TestGene(2)]);
    let three = Agent::from_genes(vec![TestGene(3)]);

    let first = provider.evaluate_scores(vec![one, two, three], &0);
    assert_eq!(3, first.len());
    assert_eq!(1, first[0].get_genes()[0].0);
    assert_eq!(2, first[1].get_genes()[0].0);
    assert_eq!(3, first[2].get_genes()[0].0);

    // Every returned agent is cached, so a second evaluation keeps the batch
    // unchanged, in order.
    let copies: Vec<Agent<TestGene>> = first.iter().map(|a| a.clone()).collect();
    let second = provider.evaluate_scores(copies, &0);
    assert_eq!(3, second.len());
    for (a, b) in first.iter().zip(second.iter()) {
        assert_eq!(a.get_hash(), b.get_hash());
    }
}
