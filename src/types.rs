//! Plain records shared by the indexer and the query side.
use vstd::prelude::*;

verus! {

/// The query algorithms a search can run.
#[derive(Debug, Clone, Copy, PartialEq, Eq, Structural)]
pub enum QueryAlgorithm {
    Wand,
    BlockMaxWand,
    BlockMaxMaxScore,
    MaxScore,
    Boolean,
}

/// The display name of each query algorithm.
pub open spec fn query_algorithm_name(a: QueryAlgorithm) -> Seq<char> {
    match a {
        QueryAlgorithm::BlockMaxMaxScore => "Block Max Max Score (BMMS)"@,
        QueryAlgorithm::BlockMaxWand => "Block Max Wand (BMW)"@,
        QueryAlgorithm::Wand => "WAND"@,
        QueryAlgorithm::Boolean => "Boolean"@,
        QueryAlgorithm::MaxScore => "Max Score (MS)"@,
    }
}

impl QueryAlgorithm {
    pub fn to_string(&self) -> (r: String)
        ensures
            r@ == query_algorithm_name(*self),
    {
        match self {
            QueryAlgorithm::BlockMaxMaxScore => "Block Max Max Score (BMMS)".to_owned(),
            QueryAlgorithm::BlockMaxWand => "Block Max Wand (BMW)".to_owned(),
            QueryAlgorithm::Wand => "WAND".to_owned(),
            QueryAlgorithm::Boolean => "Boolean".to_owned(),
            QueryAlgorithm::MaxScore => "Max Score (MS)".to_owned(),
        }
    }
}

/// The dynamic-pruning ranking algorithms.
#[allow(non_camel_case_types)]
#[derive(Debug, Clone, Copy, PartialEq, Eq, Structural)]
pub enum RankingAlgorithm {
    Wand,
    Block_Max_Wand,
    Block_Max_Max_Score,
    Max_Score,
}

/// What the index keeps of each document.
#[derive(Clone, Debug)]
pub struct DocumentMetadata {
    pub doc_name: String,
    pub doc_url: String,
    pub doc_length: u32,
}

/// One article of the input corpus, with its text split into paragraphs of sentences.
#[derive(Debug)]
pub struct WikiArticle {
    pub url: String,
    pub text: Vec<Vec<String>>,
    pub id: String,
    pub title: String,
}

/// One article of the input corpus, with its text in one string.
#[derive(Debug)]
pub struct WikiArticle1 {
    pub url: String,
    pub text: String,
    pub title: String,
}

/// Where a term's chunks went: the blocks that hold them, and its posting count.
#[derive(Debug, Clone)]
pub struct TermMetadata {
    pub block_ids: Vec<u32>,
    pub term_frequency: u32,
}

impl TermMetadata {
    pub fn add_block_id(&mut self, block_id: u32)
        ensures
            final(self).block_ids@ == old(self).block_ids@.push(block_id),
            final(self).term_frequency == old(self).term_frequency,
    {
        self.block_ids.push(block_id);
    }

    pub fn set_term_frequency(&mut self, term_frequency: u32)
        ensures
            final(self).term_frequency == term_frequency,
            final(self).block_ids == old(self).block_ids,
    {
        self.term_frequency = term_frequency;
    }
}

} // verus!
