use genetic::agent::{Agent, Genotype};
use genetic::population::Population;
use std::sync::atomic::{AtomicU64, Ordering};

static NEXT_GENE: AtomicU64 = AtomicU64::new(0);

#[derive(Clone, Copy, PartialEq, Debug)]
struct TestGene(u8);

impl Genotype for TestGene {
    fn random_genes(count: usize) -> Vec<TestGene> {
        let mut v = Vec::new();
        for _ in 0..count {
            let n = NEXT_GENE.fetch_add(1, Ordering::Relaxed);
            v.push(TestGene((n % 251) as u8));
        }
        v
    }

    fn mutate_genes(genes: &mut Vec<TestGene>) {
        for g in genes.iter_mut() {
            g.0 = ((g.0 as u64 + 1) % 251) as u8;
        }
    }

    fn crossover_genes(one: &Vec<TestGene>, two: &Vec<TestGene>) -> Vec<TestGene> {
        let mut child = Vec::new();
        let half = one.len() / 2;
        for g in one.iter().take(half) {
            child.push(*g);
        }
        for g in two.iter().skip(half) {
            child.push(*g);
        }
        child
    }

    fn hash_genes(genes: &Vec<TestGene>) -> u64 {
        let mut h: u64 = 1469598103934665603;
        for g in genes.iter() {
            h ^= g.0 as u64;
            h = h.wrapping_mul(1099511628211);
        }
        h
    }

    fn clone_gene(gene: &TestGene) -> TestGene {
        *gene
    }

    fn genes_equal(one: &Vec<TestGene>, two: &Vec<TestGene>) -> bool {
        one == two
    }
}

fn get_score_index(agent: &Agent<TestGene>, _data: &u8) -> isize {
    agent.get_genes()[0].0 as isize
}

use genetic::evolution::{
    population_from_multilevel_sub_populations, populations_from_existing_multillevel,
    run_iterations,
};
use genetic::operations::cull_lowest_agents;

#[test]
fn merge_two_populations_then_cull_keeps_quarter() {
    let one = Population::new(10, 2, false, &0, &get_score_index);
    let two = Population::new(10, 2, false, &0, &get_score_index);

    let mut merged: Population<TestGene> = Population::new_empty(false);
    merged.set_agents(one.into_agents());
    merged.set_agents(two.into_agents());

    let merged = run_iterations(merged, 2, &0, &get_score_index);
    let before_cull = merged.len();

    let culled = cull_lowest_agents(merged, 750, 0);
    let cull_count = before_cull * 750 / 1000;
    let expected = if cull_count >= before_cull {
        before_cull
    } else {
        before_cull - cull_count
    };
    assert_eq!(expected, culled.len());
}

#[test]
fn multilevel_reduction_returns_single_population() {
    let result: Population<TestGene> =
        population_from_multilevel_sub_populations(1, 2, 0, 2, 8, 2, &get_score_index);
    assert!(result.len() >= 1);
}

#[test]
fn zero_levels_returns_the_seeded_population() {
    let result: Population<TestGene> =
        population_from_multilevel_sub_populations(0, 2, 0, 2, 8, 1, &get_score_index);
    assert!(result.len() >= 1);
    assert!(result.len() <= 8 + 8);
}

#[test]
fn existing_populations_reduce_to_one() {
    let one = Population::new(6, 1, false, &0, &get_score_index);
    let two = Population::new(6, 1, false, &0, &get_score_index);
    let result =
        populations_from_existing_multillevel(vec![one, two], 1, 2, &0, 1, &get_score_index);
    assert!(result.len() >= 1);
}

#[test]
fn run_iterations_keeps_population_usable() {
    let population = Population::new(8, 2, false, &0, &get_score_index);
    let population = run_iterations(population, 3, &0, &get_score_index);
    assert!(population.len() >= 1);
    for entry in population.get_agents().iter() {
        assert_eq!(2, entry.1.get_genes().len());
    }
}

#[test]
fn run_iterations_on_empty_population_stays_empty() {
    let population: Population<TestGene> = Population::new_empty(false);
    let population = run_iterations(population, 2, &0, &get_score_index);
    assert_eq!(0, population.len());
}
