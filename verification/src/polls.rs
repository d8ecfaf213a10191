//! Straw polls: a question with a growing list of answers and a tally of
//! answerers.

use vstd::prelude::*;

verus! {

/// A straw poll: its question, its answers, and the answer index each
/// answerer picked.
pub struct StrawPoll {
    pub question: String,
    pub answers: Vec<String>,
    pub answerers: Vec<usize>,
}

impl StrawPoll {
    /// Replaces the poll's question; answers and answerers are untouched.
    pub fn set_question(&mut self, question: String)
        ensures
            final(self).question@ == question@,
            final(self).answers == old(self).answers,
            final(self).answerers == old(self).answerers,
    {
        self.question = question;
    }

    /// Appends an answer; everything else is untouched.
    pub fn add_answer(&mut self, answer: String)
        ensures
            final(self).answers@ == old(self).answers@.push(answer),
            final(self).question == old(self).question,
            final(self).answerers == old(self).answerers,
    {
        self.answers.push(answer);
    }

    /// Removes the answer at `answer`, keeping the order of the rest;
    /// fails, changing nothing, exactly when the index is out of range.
    pub fn remove_answer(&mut self, answer: usize) -> (r: Option<()>)
        ensures
            final(self).question == old(self).question,
            final(self).answerers == old(self).answerers,
            match r {
                Some(()) => answer < old(self).answers@.len() && final(self).answers@ == old(
                    self,
                ).answers@.remove(answer as int),
                None => answer >= old(self).answers@.len() && final(self).answers == old(
                    self,
                ).answers,
            },
    {
        if self.answers.len() <= answer {
            return None;
        }
        self.answers.remove(answer);
        Some(())
    }
}

} // verus!
