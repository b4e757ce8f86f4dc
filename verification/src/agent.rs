use vstd::prelude::*;

verus! {

/// The gene capability the engine consumes. Callers supply the concrete gene
/// representation together with its random generation, stochastic mutation,
/// two-parent crossover, content hashing and gene-sequence equality; the
/// engine never looks inside a gene.
pub trait Genotype: Sized {
    /// Builds a fresh, randomly generated gene sequence of the given length.
    fn random_genes(count: usize) -> (r: Vec<Self>)
        ensures
            r@.len() == count,
    ;

    /// Perturbs a gene sequence in place without changing its length.
    fn mutate_genes(genes: &mut Vec<Self>)
        ensures
            final(genes)@.len() == old(genes)@.len(),
    ;

    /// Combines two parent gene sequences into one child sequence.
    fn crossover_genes(one: &Vec<Self>, two: &Vec<Self>) -> Vec<Self>;

    /// Computes the content hash under which a gene sequence is registered.
    fn hash_genes(genes: &Vec<Self>) -> u64;

    /// Produces a copy of one gene equal to the original.
    fn clone_gene(gene: &Self) -> (r: Self)
        ensures
            r == *gene,
    ;

    /// Decides gene-sequence equality.
    fn genes_equal(one: &Vec<Self>, two: &Vec<Self>) -> (r: bool)
        ensures
            r <==> one@ =~= two@,
    ;
}

/// A candidate solution: an ordered sequence of genes of fixed length,
/// together with the content hash of that sequence.
pub struct Agent<Gene> {
    genes: Vec<Gene>,
    hash: u64,
}

impl<Gene: Genotype> Agent<Gene> {
    /// The gene sequence this agent carries.
    pub closed spec fn genes_view(self) -> Seq<Gene> {
        self.genes@
    }

    /// The content hash stored for this agent.
    pub closed spec fn hash_value(self) -> u64 {
        self.hash
    }

    /// Builds an agent with a freshly generated random gene sequence.
    pub fn new(number_of_genes: usize) -> (r: Self)
        ensures
            r.genes_view().len() == number_of_genes,
    {
        let genes = Gene::random_genes(number_of_genes);
        let hash = Gene::hash_genes(&genes);
        Agent { genes, hash }
    }

    /// Wraps an existing gene sequence, computing its content hash.
    pub fn from_genes(genes: Vec<Gene>) -> (r: Self)
        ensures
            r.genes_view() == genes@,
    {
        let hash = Gene::hash_genes(&genes);
        Agent { genes, hash }
    }

    pub fn get_genes(&self) -> (r: &Vec<Gene>)
        ensures
            r@ == self.genes_view(),
    {
        &self.genes
    }

    pub fn get_hash(&self) -> (r: u64)
        ensures
            r == self.hash_value(),
    {
        self.hash
    }

    /// Perturbs the gene sequence in place and refreshes the stored hash.
    pub fn mutate(&mut self)
        ensures
            final(self).genes_view().len() == old(self).genes_view().len(),
    {
        Gene::mutate_genes(&mut self.genes);
        self.hash = Gene::hash_genes(&self.genes);
    }

    /// True when the two agents carry equal gene sequences.
    pub fn has_same_genes(&self, other: &Agent<Gene>) -> (r: bool)
        ensures
            r <==> self.genes_view() =~= other.genes_view(),
    {
        Gene::genes_equal(&self.genes, &other.genes)
    }

    /// An exact copy: same gene sequence, same stored hash.
    pub fn duplicate(&self) -> (r: Self)
        ensures
            r.genes_view() == self.genes_view(),
            r.hash_value() == self.hash_value(),
    {
        let mut genes: Vec<Gene> = Vec::new();
        let mut i: usize = 0;
        while i < self.genes.len()
            invariant
                i <= self.genes@.len(),
                genes@ =~= self.genes@.take(i as int),
            decreases self.genes@.len() - i,
        {
            genes.push(Gene::clone_gene(&self.genes[i]));
            i += 1;
        }
        proof {
            assert(genes@ =~= self.genes@);
        }
        Agent { genes, hash: self.hash }
    }
}

impl<Gene: Genotype> Clone for Agent<Gene> {
    fn clone(&self) -> (r: Self)
        ensures
            r.genes_view() == self.genes_view(),
            r.hash_value() == self.hash_value(),
    {
        self.duplicate()
    }
}

/// Produces one child agent from two parents through the gene capability.
pub fn crossover<Gene: Genotype>(one: &Agent<Gene>, two: &Agent<Gene>) -> Agent<Gene> {
    Agent::from_genes(Gene::crossover_genes(one.get_genes(), two.get_genes()))
}

} // verus!
