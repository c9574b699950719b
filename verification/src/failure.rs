//! Why something could not be done, and what was being done at the time.

use vstd::prelude::*;
use crate::text;

verus! {

/// An error, with what it happened in the middle of.
///
/// The view is the chain of messages: the outermost first, the first cause
/// last.
#[derive(Debug)]
pub struct Failure {
    pub chain: Vec<String>,
}

impl View for Failure {
    type V = Seq<Seq<char>>;

    open spec fn view(&self) -> Seq<Seq<char>> {
        text::texts(self.chain@)
    }
}

impl Failure {
    /// A failure with no cause but itself.
    pub fn new(message: &str) -> (r: Failure)
        ensures
            r@ == seq![message@],
    {
        let mut chain: Vec<String> = Vec::new();
        chain.push(text::owned(message));
        let r = Failure { chain };
        assert(r@ =~= seq![message@]);
        r
    }

    /// The same failure, inside something that was being done.
    pub fn context(self, message: &str) -> (r: Failure)
        ensures
            r@ == seq![message@] + self@,
    {
        let ghost before = self@;
        let mut chain = self.chain;
        chain.insert(0, text::owned(message));
        let r = Failure { chain };
        assert(r@ =~= seq![message@] + before);
        r
    }

    /// What it says first: the outermost message.
    pub fn message(&self) -> (r: String)
        ensures
            r@ == (if self@.len() > 0 {
                self@[0]
            } else {
                Seq::empty()
            }),
    {
        if self.chain.len() > 0 {
            self.chain[0].clone()
        } else {
            String::new()
        }
    }

    /// Everything it says, outermost first.
    pub fn full(&self) -> (r: String)
        ensures
            r@ == text::join(self@, ": "@),
    {
        text::joined(&self.chain, ": ")
    }
}

} // verus!
