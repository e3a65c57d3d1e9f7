//! Usage count of a symbol within one context.
use vstd::prelude::*;

verus! {

/// How often a symbol was seen in a context, and the total usage of that
/// context (so that `usage / total` is the symbol's probability there).
#[derive(Clone, Copy, Debug)]
pub struct Token {
    pub usage: usize,
    pub total: usize,
}

impl Token {
    /// A token with the given usage and no total yet.
    pub fn new(usage: usize) -> (t: Token)
        ensures
            t == (Token { usage, total: 0 }),
    {
        Token { usage, total: 0 }
    }

    pub fn get_usage(&self) -> (u: usize)
        ensures
            u == self.usage,
    {
        self.usage
    }

    /// The symbol's probability in its context, as the fraction
    /// `usage / total` (numerator first).
    pub fn get_probability(&self) -> (p: (usize, usize))
        ensures
            p == (self.usage, self.total),
    {
        (self.usage, self.total)
    }

    pub fn set_usage(&mut self, usage: usize)
        ensures
            *final(self) == (Token { usage, total: old(self).total }),
    {
        self.usage = usage;
    }

    pub fn set_total(&mut self, total: usize)
        ensures
            *final(self) == (Token { usage: old(self).usage, total }),
    {
        self.total = total;
    }

    pub fn increment_usage(&mut self)
        requires
            old(self).usage < usize::MAX,
        ensures
            *final(self) == (Token { usage: (old(self).usage + 1) as usize, total: old(self).total }),
    {
        self.usage = self.usage + 1;
    }
}

} // verus!
