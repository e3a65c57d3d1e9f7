//! Huffman coding driven by a table of contexts (PPM) or by a static table.
pub mod decoder;
pub mod encoder;
pub mod huffman_token;
pub mod laws;
pub mod model;
pub mod utils;
pub mod writer;

use vstd::prelude::*;
use crate::huffman::decoder::{ppm_decode_defined, ppm_decoded};
use crate::huffman::encoder::{chars_of, pack_bits, ppm_code, ppm_defined, ppm_impl, lemma_pack_written};
use crate::huffman::writer::Writer;
use crate::util::binary_tree::{
    BinaryTree, Node, build, has_symbol, leaf, leaves_of, list_has_symbol, search_code, weight_sum,
    lemma_build_symbols, lemma_search_finds,
};
use crate::util::bits::{binary_digits, lemma_bytes_bits};
use crate::util::buffer::{
    construct, pair_sum, sort_by_weight, tally, token_entries, lemma_sort_by_weight, lemma_tally,
};
use crate::util::token::Token;

verus! {

/// The escape symbol: coded when the next letter is not in the context.
pub const RO: char = '~';

/// The longest context used.
pub const K: usize = 5;

/// The letters `a` to `z`, in order.
pub open spec fn alphabet() -> Seq<char> {
    Seq::new(26, |i: int| (97 + i) as char)
}

/// Whether `c` is one of the letters `a` to `z`.
pub open spec fn is_letter(c: char) -> bool {
    'a' <= c && c <= 'z'
}

/// The letters `a` to `z`, in order.
pub fn alphabet_vec() -> (v: Vec<char>)
    ensures
        v@ == alphabet(),
{
    let mut v: Vec<char> = Vec::new();
    let mut i: u8 = 0;
    while i < 26
        invariant
            i <= 26,
            v@ =~= alphabet().take(i as int),
        decreases 26 - i,
    {
        let c = (97 + i) as char;
        proof {
            assert(alphabet().take(i + 1) =~= alphabet().take(i as int).push(c));
        }
        v.push(c);
        i = i + 1;
    }
    proof {
        assert(alphabet().take(26) =~= alphabet());
    }
    v
}

/// How the model is built: from the whole text first, or as the text goes.
pub enum Mode {
    SemiAdaptative,
    Adapdative,
}

/// Why a request to the coders is refused.
#[derive(Debug, PartialEq, Eq, Structural)]
pub enum CodecError {
    /// The mode has no implementation for this direction.
    Unsupported,
}

/// Entry points of the coders.
pub struct Huffman {}

/// The leaves of the static code tree of a text: its symbols by frequency.
pub open spec fn static_leaves(input: Seq<char>) -> Seq<Node> {
    sort_by_weight(tally(input)).map_values(|e: (char, nat)| leaf(e.0, e.1 as usize))
}

/// The static code tree of a text.
pub open spec fn static_tree(input: Seq<char>) -> Node {
    build(static_leaves(input))
}

/// The codes of the symbols of `s` in `tree`, one after another.
pub open spec fn static_bits(s: Seq<char>, tree: Node) -> Seq<u8>
    decreases s.len(),
{
    if s.len() == 0 {
        seq![]
    } else {
        static_bits(s.drop_last(), tree) + binary_digits(search_code(tree, s.last(), 0)->0 as nat)
    }
}

/// The bytes of the static coder for a text.
pub open spec fn static_code(input: Seq<char>) -> Seq<u8> {
    pack_bits(static_bits(input, static_tree(input)))
}

pub proof fn lemma_weight_sum_entries(table: Seq<Token>)
    ensures
        weight_sum(table) == pair_sum(token_entries(table)),
    decreases table.len(),
{
    if table.len() > 0 {
        lemma_weight_sum_entries(table.drop_last());
        assert(token_entries(table).drop_last() =~= token_entries(table.drop_last()));
    }
}

/// Every symbol of a non-empty text is reachable in its static tree.
pub proof fn lemma_static_tree_symbols(input: Seq<char>, k: int)
    requires
        0 <= k < input.len(),
    ensures
        has_symbol(static_tree(input), input[k]),
        search_code(static_tree(input), input[k], 0) is Some,
{
    lemma_tally(input);
    let t = tally(input);
    let i = choose|i: int| 0 <= i < t.len() && #[trigger] t[i].0 == input[k];
    lemma_sort_by_weight(t);
    let j = choose|j: int| 0 <= j < t.len() && #[trigger] sort_by_weight(t)[j] == t[i];
    let leaves = static_leaves(input);
    assert(has_symbol(leaves[j], input[k]));
    assert(list_has_symbol(leaves, input[k]));
    lemma_build_symbols(leaves, input[k]);
    lemma_search_finds(static_tree(input), input[k], 0);
}

impl Huffman {
    /// Codes `input`: with the PPM coder (contexts of up to `K` letters) or
    /// with one static code tree for the whole text.
    pub fn encode(mode: Mode, input: &String) -> (bytes: Vec<u8>)
        requires
            mode is Adapdative ==> ppm_defined(input@, K as nat),
            mode is SemiAdaptative ==> input@.len() > 0,
        ensures
            mode is Adapdative ==> bytes@ == ppm_code(input@, K as nat),
            mode is SemiAdaptative ==> bytes@ == static_code(input@),
    {
        match mode {
            Mode::SemiAdaptative => Huffman::semi_encode_impl(input),
            Mode::Adapdative => ppm_impl(input, K),
        }
    }

    /// Decodes a PPM stream (contexts of up to `K` letters) into the letters it
    /// carries; the static mode has no decoder.
    pub fn decode(mode: Mode, input: &mut Vec<u8>) -> (r: Result<Vec<char>, CodecError>)
        requires
            mode is Adapdative ==> ppm_decode_defined(old(input)@, K as nat),
        ensures
            final(input)@ == old(input)@,
            mode is SemiAdaptative ==> r == Err::<Vec<char>, CodecError>(CodecError::Unsupported),
            mode is Adapdative ==> (r matches Ok(d) && d@ == ppm_decoded(old(input)@, K as nat)),
    {
        match mode {
            Mode::SemiAdaptative => Err(CodecError::Unsupported),
            Mode::Adapdative => Ok(crate::huffman::decoder::ppm_impl(input, K)),
        }
    }

    /// Codes a non-empty text with the code tree of its own symbol counts.
    fn semi_encode_impl(input: &String) -> (bytes: Vec<u8>)
        requires
            input@.len() > 0,
        ensures
            bytes@ == static_code(input@),
    {
        let chars = chars_of(input);
        let table = construct(input);
        proof {
            lemma_tally(input@);
            lemma_sort_by_weight(tally(input@));
            lemma_weight_sum_entries(table@);
            assert(leaves_of(table@) =~= static_leaves(input@));
            assert(chars@.len() == chars.len());
        }
        let tree = BinaryTree::new(table);
        let mut writer = Writer::new();
        let mut i: usize = 0;
        proof {
            assert(chars@.take(0) =~= Seq::<char>::empty());
            lemma_bytes_bits(writer.emitted());
            assert(writer.written() =~= Seq::<u8>::empty());
        }
        while i < chars.len()
            invariant
                i <= chars.len(),
                chars@ == input@,
                tree.root == static_tree(input@),
                writer.wf(),
                writer.written() == static_bits(chars@.take(i as int), tree.root),
            decreases chars.len() - i,
        {
            let c = chars[i];
            proof {
                lemma_static_tree_symbols(input@, i as int);
                assert(chars@.take(i + 1).drop_last() =~= chars@.take(i as int));
            }
            let code = BinaryTree::search(tree.get_root(), c).unwrap();
            writer.write(code, false);
            i = i + 1;
        }
        proof {
            assert(chars@.take(i as int) =~= input@);
        }
        let ghost before = writer;
        writer.flush();
        proof {
            lemma_pack_written(before.emitted(), before.pending());
        }
        crate::huffman::encoder::copy_bytes(writer.output())
    }
}

} // verus!
