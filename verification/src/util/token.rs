//! A symbol with its usage count and weight, as handed to the code builders.
use vstd::prelude::*;

verus! {

/// A symbol of a frequency table.
///
/// `probability` is the symbol's weight: its probability times a scale shared
/// by every token of one table (the table's total usage, the input length, or
/// ten thousand for the built-in weights), so weights compare and add like the
/// probabilities they stand for.
#[derive(Clone, Debug)]
pub struct Token {
    pub code: Vec<u8>,
    pub symbol: char,
    pub usage: usize,
    pub probability: usize,
}

impl Token {
    /// A token seen once, with an empty code and weight zero.
    pub fn new(symbol: char) -> (t: Token)
        ensures
            t.code@ == Seq::<u8>::empty(),
            t.symbol == symbol,
            t.usage == 1,
            t.probability == 0,
    {
        Token { code: Vec::new(), symbol, usage: 1, probability: 0 }
    }

    /// A copy of `token` carrying `code`.
    pub fn new_code(token: &Token, code: &Vec<u8>) -> (t: Token)
        ensures
            t.code@ == code@,
            t.symbol == token.symbol,
            t.usage == token.usage,
            t.probability == token.probability,
    {
        Token { code: code.clone(), symbol: token.symbol, usage: token.usage, probability: token.probability }
    }

    /// A token with every field but the code given.
    pub fn new_all(symbol: char, usage: usize, probability: usize) -> (t: Token)
        ensures
            t.code@ == Seq::<u8>::empty(),
            t.symbol == symbol,
            t.usage == usage,
            t.probability == probability,
    {
        Token { code: Vec::new(), symbol, usage, probability }
    }

    pub fn get_symbol(&self) -> (c: char)
        ensures
            c == self.symbol,
    {
        self.symbol
    }

    pub fn get_code(&self) -> (code: &Vec<u8>)
        ensures
            code@ == self.code@,
    {
        &self.code
    }

    pub fn get_usage(&self) -> (u: usize)
        ensures
            u == self.usage,
    {
        self.usage
    }

    pub fn get_probability(&self) -> (p: usize)
        ensures
            p == self.probability,
    {
        self.probability
    }

    pub fn set_probability(&mut self, probability: usize)
        ensures
            final(self).probability == probability,
            final(self).symbol == old(self).symbol,
            final(self).usage == old(self).usage,
            final(self).code@ == old(self).code@,
    {
        self.probability = probability;
    }

    pub fn increment_usage(&mut self)
        requires
            old(self).usage < usize::MAX,
        ensures
            final(self).usage == old(self).usage + 1,
            final(self).symbol == old(self).symbol,
            final(self).probability == old(self).probability,
            final(self).code@ == old(self).code@,
    {
        self.usage = self.usage + 1;
    }

    /// Puts the decimal digits of `bit` in front of the code.
    pub fn add_to_code(&mut self, bit: u8)
        ensures
            final(self).code@ == decimal_bytes(bit as nat) + old(self).code@,
            final(self).symbol == old(self).symbol,
            final(self).usage == old(self).usage,
            final(self).probability == old(self).probability,
    {
        let mut code: Vec<u8> = Vec::new();
        push_decimal(bit, &mut code);
        let mut i: usize = 0;
        let ghost front = code@;
        while i < self.code.len()
            invariant
                i <= self.code.len(),
                code@ =~= front + self.code@.take(i as int),
            decreases self.code.len() - i,
        {
            code.push(self.code[i]);
            proof {
                assert(self.code@.take(i + 1) =~= self.code@.take(i as int).push(self.code@[i as int]));
            }
            i = i + 1;
        }
        proof {
            assert(self.code@.take(i as int) =~= self.code@);
        }
        self.code = code;
    }
}

/// Tokens compare by weight alone.
impl PartialEq for Token {
    fn eq(&self, other: &Self) -> (r: bool) {
        self.probability == other.probability
    }
}

impl vstd::std_specs::cmp::PartialEqSpecImpl for Token {
    open spec fn obeys_eq_spec() -> bool {
        true
    }

    open spec fn eq_spec(&self, other: &Token) -> bool {
        self.probability == other.probability
    }
}

/// Tokens are ordered by weight alone.
impl PartialOrd for Token {
    fn partial_cmp(&self, other: &Self) -> (r: Option<core::cmp::Ordering>) {
        if self.probability < other.probability {
            Some(core::cmp::Ordering::Less)
        } else if self.probability == other.probability {
            Some(core::cmp::Ordering::Equal)
        } else {
            Some(core::cmp::Ordering::Greater)
        }
    }
}

impl vstd::std_specs::cmp::PartialOrdSpecImpl for Token {
    open spec fn obeys_partial_cmp_spec() -> bool {
        true
    }

    open spec fn partial_cmp_spec(&self, other: &Token) -> Option<core::cmp::Ordering> {
        if self.probability < other.probability {
            Some(core::cmp::Ordering::Less)
        } else if self.probability == other.probability {
            Some(core::cmp::Ordering::Equal)
        } else {
            Some(core::cmp::Ordering::Greater)
        }
    }
}

/// The decimal digits of `x`, most significant first, as digit values.
pub open spec fn decimal_bytes(x: nat) -> Seq<u8>
    decreases x,
{
    if x < 10 {
        seq![x as u8]
    } else {
        decimal_bytes(x / 10).push((x % 10) as u8)
    }
}

fn push_decimal(x: u8, dst: &mut Vec<u8>)
    ensures
        final(dst)@ =~= old(dst)@ + decimal_bytes(x as nat),
    decreases x,
{
    if x >= 10 {
        push_decimal(x / 10, dst);
    }
    dst.push(x % 10);
}

} // verus!
