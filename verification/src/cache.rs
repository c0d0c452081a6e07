//! The blocks of a volume that have been supplied so far.

use std::collections::HashMap;
use vstd::prelude::*;

verus! {

/// What was read from the device for one block: its bytes, or the system's complaint.
pub type Answer = std::result::Result<Vec<u8>, String>;

pub type AnswerView = std::result::Result<Seq<u8>, Seq<char>>;

pub open spec fn answer_view(a: Answer) -> AnswerView {
    match a {
        Ok(bytes) => Ok(bytes@),
        Err(message) => Err(message@),
    }
}

/// Answers by physical block number.
pub struct BlockCache {
    answers: HashMap<u64, Answer>,
}

impl View for BlockCache {
    type V = Map<u64, AnswerView>;

    closed spec fn view(&self) -> Map<u64, AnswerView> {
        Map::new(
            |p: u64| self.answers@.contains_key(p),
            |p: u64| answer_view(self.answers@[p]),
        )
    }
}

impl BlockCache {
    pub fn new() -> (cache: BlockCache)
        ensures
            cache@ == Map::<u64, AnswerView>::empty(),
    {
        broadcast use vstd::std_specs::hash::group_hash_axioms;

        let cache = BlockCache { answers: HashMap::new() };
        assert(cache@ =~= Map::empty());
        cache
    }

    /// Keeps the answer for block `p`, in place of an earlier one.
    pub fn insert(&mut self, p: u64, answer: Answer)
        ensures
            final(self)@ == old(self)@.insert(p, answer_view(answer)),
    {
        broadcast use vstd::std_specs::hash::group_hash_axioms;

        self.answers.insert(p, answer);
        assert(self@ =~= old(self)@.insert(p, answer_view(answer)));
    }

    /// Forgets all answers.
    pub fn clear(&mut self)
        ensures
            final(self)@ == Map::<u64, AnswerView>::empty(),
    {
        broadcast use vstd::std_specs::hash::group_hash_axioms;

        self.answers.clear();
        assert(self@ =~= Map::empty());
    }

    /// The answer for block `p`, if there has been one.
    pub fn get(&self, p: u64) -> (found: Option<&Answer>)
        ensures
            match found {
                Some(answer) => self@.contains_key(p) && self@[p] == answer_view(*answer),
                None => !self@.contains_key(p),
            },
    {
        broadcast use vstd::std_specs::hash::group_hash_axioms;

        self.answers.get(&p)
    }
}

} // verus!
