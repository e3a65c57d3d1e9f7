//! The decoder's bit-buffer helpers (eight bits read as a character) and the
//! decoding of a symbol after an escape.
use vstd::prelude::*;
use crate::huffman::RO;
use crate::huffman::encoder::copy_bytes;
use crate::huffman::utils::{
    ContextTable, TableView, create_tree, ctx_index, drop_first_char, exclude, exclude_defined,
    exclusion_table, item_tree, usage_sum, utf8_len, utf8_length, lemma_ctx_index,
    lemma_utf8_len_facts,
};
use crate::util::binary_tree::{BinaryTree, tree_decode};
use crate::util::bits::{
    byte_digits, readable_as_byte, spelled_byte, lemma_bits_readable, lemma_byte_digits_value,
};

pub use crate::util::bits::input_to_char;

verus! {

/// Reads the first eight bits of `input` as a byte and returns that character.
pub fn decode_raw(input: &Vec<u8>) -> (c: char)
    requires
        input.len() >= 8,
        readable_as_byte(input@.take(8)),
    ensures
        c as nat == spelled_byte(input@.take(8)),
{
    let mut temp: Vec<u8> = Vec::new();
    let mut i: usize = 0;
    while i < 8
        invariant
            i <= 8,
            input.len() >= 8,
            temp@ =~= input@.take(i as int),
        decreases 8 - i,
    {
        temp.push(input[i]);
        i = i + 1;
    }
    input_to_char(&temp)
}

/// Pops the last eight bits of `input` and returns the character they spell
/// read in the order they were popped, the last bit first.
pub fn decode_inside(input: &mut Vec<u8>) -> (c: char)
    requires
        old(input).len() >= 8,
        readable_as_byte(old(input)@.skip(old(input).len() - 8).reverse()),
    ensures
        final(input)@ =~= old(input)@.take(old(input).len() - 8),
        c as nat == spelled_byte(old(input)@.skip(old(input).len() - 8).reverse()),
{
    let temp = pop_eight(input);
    input_to_char(&temp)
}

/// Pops the last eight bits of `input` and returns the byte they spell, in
/// their order in `input`.
pub fn teste(input: &mut Vec<u8>) -> (b: u8)
    requires
        old(input).len() >= 8,
        readable_as_byte(old(input)@.skip(old(input).len() - 8)),
    ensures
        final(input)@ =~= old(input)@.take(old(input).len() - 8),
        b as nat == spelled_byte(old(input)@.skip(old(input).len() - 8)),
{
    let popped = pop_eight(input);
    let mut temp: Vec<u8> = Vec::new();
    let mut i: usize = 8;
    while i > 0
        invariant
            i <= 8,
            popped@.len() == 8,
            temp@ =~= popped@.reverse().take(8 - i),
        decreases i,
    {
        i = i - 1;
        temp.push(popped[i]);
        proof {
            assert(popped@.reverse().take(8 - i) =~= popped@.reverse().take(8 - i - 1).push(popped@[i as int]));
        }
    }
    proof {
        let ghost tail = old(input)@.skip(old(input).len() - 8);
        assert(popped@.reverse() =~= tail);
        assert(popped@.reverse().take(8) =~= popped@.reverse());
    }
    let c = input_to_char(&temp);
    c as u8
}

/// The character with the code that `bits` spell (see `spelled_byte`).
pub open spec fn byte_char(bits: Seq<u8>) -> char {
    spelled_byte(bits) as char
}

/// The last eight bits of `buf`, the last one first: what `decode_inside`
/// reads.
pub open spec fn inside_bits(buf: Seq<u8>) -> Seq<u8> {
    buf.skip(buf.len() - 8).reverse()
}

/// The symbol `decode_exclusion` finds, with the bit buffer it leaves. Every
/// call first moves the last bit of `buf` to the end of `input`. Lengths of
/// phrases are counted in bytes of their UTF-8 encoding. A phrase longer than
/// `k` loses its first symbol, a `k` above the phrase's length
/// goes down by one; at the level of the phrase, a known context decodes
/// `input` with its code tree, and an escape goes on one level down with the
/// context's symbols excluded and an empty code; an unknown context goes one
/// level down. At level zero a code that names nothing yet takes one more bit,
/// and the escape is followed by the character of the last eight bits.
pub open spec fn exclusion_decode(
    frase: Seq<char>,
    k: nat,
    input: Seq<u8>,
    t: TableView,
    buf: Seq<u8>,
) -> (Option<char>, Seq<u8>)
    decreases buf.len(),
{
    if buf.len() == 0 {
        (None, buf)
    } else {
        let bits = input.push(buf.last());
        let rest = buf.drop_last();
        if utf8_len(frase) < k {
            exclusion_decode(frase, (k - 1) as nat, bits, t, rest)
        } else if utf8_len(frase) > k {
            exclusion_decode(frase.drop_first(), k, bits, t, rest)
        } else if k != 0 {
            let i = ctx_index(t[k as int], frase);
            if i >= 0 {
                let item = t[k as int][i].1;
                let d = tree_decode(item_tree(item), bits);
                if d != Some(RO) {
                    (d, rest)
                } else {
                    exclusion_decode(
                        frase.drop_first(),
                        (k - 1) as nat,
                        seq![],
                        exclude(t, frase, item, k),
                        rest,
                    )
                }
            } else {
                exclusion_decode(frase.drop_first(), (k - 1) as nat, bits, t, rest)
            }
        } else {
            let t0 = t[0][ctx_index(t[0], Seq::empty())].1;
            match tree_decode(item_tree(t0), bits) {
                Some(c) => if c != RO {
                    (Some(c), rest)
                } else if rest.len() >= 8 {
                    (Some(byte_char(inside_bits(rest))), rest.take(rest.len() - 8))
                } else {
                    (None, rest)
                },
                None => exclusion_decode(frase, k, bits, t, rest),
            }
        }
    }
}

/// `exclusion_decode` runs without a failed lookup: a bit is there for every
/// call, every level and context used exists and is not empty, its counts fit,
/// a context above level zero names a symbol, the escape at level zero is
/// followed by eight readable bits, and a phrase that loses its first symbol
/// has one of a single byte.
pub open spec fn exclusion_defined(
    frase: Seq<char>,
    k: nat,
    input: Seq<u8>,
    t: TableView,
    buf: Seq<u8>,
) -> bool
    decreases buf.len(),
{
    &&& buf.len() > 0
    &&& {
        let bits = input.push(buf.last());
        let rest = buf.drop_last();
        if utf8_len(frase) < k {
            exclusion_defined(frase, (k - 1) as nat, bits, t, rest)
        } else if utf8_len(frase) > k {
            &&& (frase[0] as u32) < 128
            &&& exclusion_defined(frase.drop_first(), k, bits, t, rest)
        } else if k != 0 {
            let i = ctx_index(t[k as int], frase);
            &&& k < t.len()
            &&& if i >= 0 {
                let item = t[k as int][i].1;
                let d = tree_decode(item_tree(item), bits);
                &&& item.len() > 0
                &&& usage_sum(item) <= usize::MAX
                &&& d is Some
                &&& d == Some(RO) ==> {
                    &&& (frase[0] as u32) < 128
                    &&& exclude_defined(t, frase, item, k)
                    &&& exclusion_defined(
                        frase.drop_first(),
                        (k - 1) as nat,
                        seq![],
                        exclude(t, frase, item, k),
                        rest,
                    )
                }
            } else {
                &&& (frase[0] as u32) < 128
                &&& exclusion_defined(frase.drop_first(), (k - 1) as nat, bits, t, rest)
            }
        } else {
            let i = ctx_index(t[0], Seq::empty());
            let t0 = t[0][i].1;
            &&& t.len() > 0
            &&& i >= 0
            &&& t0.len() > 0
            &&& usage_sum(t0) <= usize::MAX
            &&& match tree_decode(item_tree(t0), bits) {
                Some(c) => c == RO ==> rest.len() >= 8 && readable_as_byte(inside_bits(rest)),
                None => exclusion_defined(frase, k, bits, t, rest),
            }
        }
    }
}

/// Decodes a symbol after an escape, bit by bit from the end of `bit_buffer`,
/// with the symbols of the escaped context excluded (see `exclusion_decode`).
pub fn decode_exclusion(
    frase: &Vec<char>,
    k: usize,
    input: &Vec<u8>,
    tables: &ContextTable,
    bit_buffer: &mut Vec<u8>,
) -> (r: Option<char>)
    requires
        exclusion_defined(frase@, k as nat, input@, tables@, old(bit_buffer)@),
    ensures
        (r, final(bit_buffer)@) == exclusion_decode(frase@, k as nat, input@, tables@, old(bit_buffer)@),
    decreases old(bit_buffer)@.len(),
{
    let mut bits = copy_bytes(input);
    let b = bit_buffer.pop().unwrap();
    bits.push(b);
    let n = utf8_length(frase);
    proof {
        lemma_utf8_len_facts(frase@);
    }
    if n < k as u128 {
        decode_exclusion(frase, k - 1, &bits, tables, bit_buffer)
    } else if n > k as u128 {
        let rest = drop_first_char(frase);
        decode_exclusion(&rest, k, &bits, tables, bit_buffer)
    } else if k != 0 {
        let rest = drop_first_char(frase);
        match tables.find(k, frase) {
            Some(i) => {
                proof {
                    lemma_ctx_index(tables@[k as int], frase@);
                }
                let item = tables.item(k, i);
                let tree = create_tree(item);
                let decoded = BinaryTree::decode(tree, &bits).unwrap();
                if decoded != RO {
                    Some(decoded)
                } else {
                    let excluded = exclusion_table(tables, (frase, item), k).unwrap();
                    let empty: Vec<u8> = Vec::new();
                    proof {
                        assert(empty@ =~= Seq::<u8>::empty());
                    }
                    decode_exclusion(&rest, k - 1, &empty, &excluded, bit_buffer)
                }
            },
            None => decode_exclusion(&rest, k - 1, &bits, tables, bit_buffer),
        }
    } else {
        let empty: Vec<char> = Vec::new();
        proof {
            assert(empty@ =~= Seq::<char>::empty());
        }
        let i = tables.find(0, &empty).unwrap();
        proof {
            lemma_ctx_index(tables@[0], empty@);
        }
        let t0 = tables.item(0, i);
        let tree = create_tree(t0);
        match BinaryTree::decode(tree, &bits) {
            Some(t) => {
                if t == RO {
                    let c = decode_inside(bit_buffer);
                    proof {
                        lemma_byte_char(c, inside_bits(old(bit_buffer)@.drop_last()));
                    }
                    Some(c)
                } else {
                    Some(t)
                }
            },
            None => decode_exclusion(frase, k, &bits, tables, bit_buffer),
        }
    }
}

/// The eight bits the writer puts out for a raw byte are read back as that
/// byte.
pub proof fn lemma_raw_byte_read_back(b: u8)
    ensures
        readable_as_byte(byte_digits(b)),
        byte_char(byte_digits(b)) == b as char,
{
    lemma_byte_digits_value(b);
    lemma_bits_readable(byte_digits(b));
}

/// A character is the one its code spells.
pub proof fn lemma_byte_char(c: char, bits: Seq<u8>)
    requires
        c as nat == spelled_byte(bits),
    ensures
        c == byte_char(bits),
{
}

/// Pops eight elements; the first popped comes first in the result.
fn pop_eight(input: &mut Vec<u8>) -> (popped: Vec<u8>)
    requires
        old(input).len() >= 8,
    ensures
        final(input)@ =~= old(input)@.take(old(input).len() - 8),
        popped@ =~= old(input)@.skip(old(input).len() - 8).reverse(),
{
    let ghost start = input@;
    let ghost n = input.len();
    let mut temp: Vec<u8> = Vec::new();
    let mut i: usize = 0;
    while i < 8
        invariant
            i <= 8,
            n == start.len(),
            n >= 8,
            input@ =~= start.take(n - i),
            temp@ =~= start.skip(n - i).reverse(),
        decreases 8 - i,
    {
        let x = input.pop().unwrap();
        proof {
            assert(start.skip(n - i - 1).reverse() =~= start.skip(n - i).reverse().push(x));
        }
        temp.push(x);
        i = i + 1;
    }
    temp
}

} // verus!
