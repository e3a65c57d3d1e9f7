//! Reading a PPM-coded bit stream back into characters.
pub mod check;
pub mod util;

use vstd::prelude::*;
use crate::huffman::{RO, alphabet, alphabet_vec};
use crate::huffman::encoder::{
    drop_escape, initial_table, initial_tables, next_context, pack_bits, ppm_code, ppm_run,
};
use crate::huffman::is_letter;
use crate::huffman::huffman_token::Token;
use crate::huffman::utils::{
    ItemView, has_key, insert_key, insert_pos, introduce, item_leaves, push_context, set_item,
    lemma_ascii_utf8_len,
};
use crate::huffman::encoder::{encode_bits, lemma_escape_then_byte};
use crate::huffman::model::{unseen_ok, lemma_unseen_remove};
use crate::huffman::laws::lemma_introduce_facts;
use crate::util::binary_tree::{Node, branch, build, first_heavier, join_front, leaf, search_code, walk};
use crate::util::bits::binary_digits;
use crate::huffman::utils::{
    char_index, sorted_chars, suffix, utf8_len, utf8_length, lemma_char_index, lemma_utf8_len_facts,
};
use crate::util::bits::bits_value;
use crate::huffman::utils::{
    ContextTable, TableView, create_tree, ctx_index, drop_first_char, exclude, exclude_defined,
    exclusion_table, item_tree, learn, learn_defined, start_level, update_context, update_tables,
    usage_sum, lemma_ctx_index,
};
use crate::util::binary_tree::{BinaryTree, tree_decode};
use crate::util::bits::{
    bytes_bits, byte_digits, is_bit_seq, push_byte_digits, readable_as_byte, lemma_bits_readable,
    lemma_byte_digits_value, lemma_bytes_bits,
};
use crate::huffman::decoder::util::{
    byte_char, decode_exclusion, decode_inside, decode_raw, exclusion_decode, exclusion_defined,
    inside_bits, teste, lemma_byte_char, lemma_raw_byte_read_back,
};

verus! {

/// The symbol `decode` finds for the code `input` after the context `frase`,
/// with the bit buffer it leaves. A `k` above the phrase's length goes down by
/// one and a longer phrase loses its first symbol; at the level of the phrase a
/// known context decodes `input` with its code tree: a symbol is returned,
/// nothing (the code is not complete yet), or on an escape the next symbol is
/// read from the buffer one level down, with the context's symbols excluded.
/// An unknown context goes one level down. At level zero, an empty context
/// reads eight bits as a character, and its escape is followed by the
/// character of the last eight bits of the buffer.
pub open spec fn decode_symbol(
    frase: Seq<char>,
    k: nat,
    input: Seq<u8>,
    t: TableView,
    buf: Seq<u8>,
) -> (Option<char>, Seq<u8>)
    decreases frase.len() + k,
{
    proof {
        lemma_utf8_len_facts(frase);
    }
    if utf8_len(frase) < k {
        decode_symbol(frase, (k - 1) as nat, input, t, buf)
    } else if utf8_len(frase) == k && k != 0 {
        let i = ctx_index(t[k as int], frase);
        if i >= 0 {
            let item = t[k as int][i].1;
            match tree_decode(item_tree(item), input) {
                Some(d) => if d != RO {
                    (Some(d), buf)
                } else {
                    exclusion_decode(
                        frase.drop_first(),
                        (k - 1) as nat,
                        seq![],
                        exclude(t, frase, item, k),
                        buf,
                    )
                },
                None => (None, buf),
            }
        } else {
            decode_symbol(frase.drop_first(), (k - 1) as nat, input, t, buf)
        }
    } else if utf8_len(frase) > k {
        decode_symbol(frase.drop_first(), k, input, t, buf)
    } else {
        let t0 = t[0][ctx_index(t[0], Seq::empty())].1;
        if t0.len() == 0 {
            if input.len() == 8 {
                (Some(byte_char(input)), buf)
            } else {
                (None, buf)
            }
        } else {
            match tree_decode(item_tree(t0), input) {
                Some(c) => if c != RO {
                    (Some(c), buf)
                } else if buf.len() >= 8 {
                    (Some(byte_char(inside_bits(buf))), buf.take(buf.len() - 8))
                } else {
                    (None, buf)
                },
                None => (None, buf),
            }
        }
    }
}

/// `decode_symbol` runs without a failed lookup: every level and context used
/// exists and is not empty, its counts fit, what an escape reads is there, and
/// a phrase that loses its first symbol has one of a single byte.
pub open spec fn decode_defined(
    frase: Seq<char>,
    k: nat,
    input: Seq<u8>,
    t: TableView,
    buf: Seq<u8>,
) -> bool
    decreases frase.len() + k,
{
    proof {
        lemma_utf8_len_facts(frase);
    }
    if utf8_len(frase) < k {
        decode_defined(frase, (k - 1) as nat, input, t, buf)
    } else if utf8_len(frase) == k && k != 0 {
        let i = ctx_index(t[k as int], frase);
        &&& k < t.len()
        &&& if i >= 0 {
            let item = t[k as int][i].1;
            &&& item.len() > 0
            &&& usage_sum(item) <= usize::MAX
            &&& tree_decode(item_tree(item), input) == Some(RO) ==> {
                &&& (frase[0] as u32) < 128
                &&& exclude_defined(t, frase, item, k)
                &&& exclusion_defined(
                    frase.drop_first(),
                    (k - 1) as nat,
                    seq![],
                    exclude(t, frase, item, k),
                    buf,
                )
            }
        } else {
            &&& (frase[0] as u32) < 128
            &&& decode_defined(frase.drop_first(), (k - 1) as nat, input, t, buf)
        }
    } else if utf8_len(frase) > k {
        &&& (frase[0] as u32) < 128
        &&& decode_defined(frase.drop_first(), k, input, t, buf)
    } else {
        let i = ctx_index(t[0], Seq::empty());
        let t0 = t[0][i].1;
        &&& t.len() > 0
        &&& i >= 0
        &&& if t0.len() == 0 {
            input.len() == 8 ==> readable_as_byte(input)
        } else {
            &&& usage_sum(t0) <= usize::MAX
            &&& tree_decode(item_tree(t0), input) == Some(RO) ==> buf.len() >= 8 && readable_as_byte(
                inside_bits(buf),
            )
        }
    }
}

/// Decodes the code `input` after the context `frase`, starting at level `k`
/// (see `decode_symbol`); an escape reads on from the end of `bit_buffer`.
pub fn decode(
    frase: &Vec<char>,
    k: usize,
    input: &Vec<u8>,
    tables: &ContextTable,
    bit_buffer: &mut Vec<u8>,
) -> (r: Option<char>)
    requires
        decode_defined(frase@, k as nat, input@, tables@, old(bit_buffer)@),
    ensures
        (r, final(bit_buffer)@) == decode_symbol(frase@, k as nat, input@, tables@, old(bit_buffer)@),
    decreases frase@.len() + k,
{
    let n = utf8_length(frase);
    proof {
        lemma_utf8_len_facts(frase@);
    }
    if n < k as u128 {
        decode(frase, k - 1, input, tables, bit_buffer)
    } else if n == k as u128 && k != 0 {
        let rest = drop_first_char(frase);
        match tables.find(k, frase) {
            Some(i) => {
                proof {
                    lemma_ctx_index(tables@[k as int], frase@);
                }
                let item = tables.item(k, i);
                let tree = create_tree(item);
                match BinaryTree::decode(tree, input) {
                    Some(decoded) => {
                        if decoded != RO {
                            Some(decoded)
                        } else {
                            let excluded = exclusion_table(tables, (frase, item), k).unwrap();
                            let empty: Vec<u8> = Vec::new();
                            proof {
                                assert(empty@ =~= Seq::<u8>::empty());
                            }
                            decode_exclusion(&rest, k - 1, &empty, &excluded, bit_buffer)
                        }
                    },
                    None => None,
                }
            },
            None => decode(&rest, k - 1, input, tables, bit_buffer),
        }
    } else if n > k as u128 {
        let rest = drop_first_char(frase);
        decode(&rest, k, input, tables, bit_buffer)
    } else {
        let empty: Vec<char> = Vec::new();
        proof {
            assert(empty@ =~= Seq::<char>::empty());
        }
        let i = tables.find(0, &empty).unwrap();
        proof {
            lemma_ctx_index(tables@[0], empty@);
        }
        let t0 = tables.item(0, i);
        if t0.len() == 0 {
            if input.len() == 8 {
                proof {
                    assert(input@.take(8) =~= input@);
                }
                let c = decode_raw(input);
                proof {
                    lemma_byte_char(c, input@);
                }
                return Some(c);
            } else {
                return None;
            }
        }
        let tree = create_tree(t0);
        match BinaryTree::decode(tree, input) {
            Some(t) => {
                if t == RO {
                    let c = decode_inside(bit_buffer);
                    proof {
                        lemma_byte_char(c, inside_bits(old(bit_buffer)@));
                    }
                    Some(c)
                } else {
                    Some(t)
                }
            },
            None => None,
        }
    }
}

/// What `exclusion_decode` leaves of the buffer is no longer than it.
pub proof fn lemma_exclusion_shrinks(frase: Seq<char>, k: nat, input: Seq<u8>, t: TableView, buf: Seq<u8>)
    ensures
        exclusion_decode(frase, k, input, t, buf).1.len() <= buf.len(),
        exclusion_decode(frase, k, input, t, buf).1 =~= buf.take(
            exclusion_decode(frase, k, input, t, buf).1.len() as int,
        ),
    decreases buf.len(),
{
    if buf.len() == 0 {
        assert(buf.take(0) =~= buf);
    } else {
        let bits = input.push(buf.last());
        let rest = buf.drop_last();
        let r = exclusion_decode(frase, k, input, t, buf);
        assert(rest =~= buf.take(rest.len() as int));
        assert(r.1.len() <= rest.len() ==> rest.take(r.1.len() as int) =~= buf.take(r.1.len() as int));
        if utf8_len(frase) < k {
            lemma_exclusion_shrinks(frase, (k - 1) as nat, bits, t, rest);
        } else if utf8_len(frase) > k {
            lemma_exclusion_shrinks(frase.drop_first(), k, bits, t, rest);
        } else if k != 0 {
            let i = ctx_index(t[k as int], frase);
            if i >= 0 {
                let item = t[k as int][i].1;
                lemma_exclusion_shrinks(frase.drop_first(), (k - 1) as nat, seq![], exclude(t, frase, item, k), rest);
            } else {
                lemma_exclusion_shrinks(frase.drop_first(), (k - 1) as nat, bits, t, rest);
            }
        } else {
            lemma_exclusion_shrinks(frase, k, bits, t, rest);
        }
    }
}

/// What `decode_symbol` leaves of the buffer is no longer than it.
pub proof fn lemma_decode_shrinks(frase: Seq<char>, k: nat, input: Seq<u8>, t: TableView, buf: Seq<u8>)
    ensures
        decode_symbol(frase, k, input, t, buf).1.len() <= buf.len(),
        decode_symbol(frase, k, input, t, buf).1 =~= buf.take(
            decode_symbol(frase, k, input, t, buf).1.len() as int,
        ),
    decreases frase.len() + k,
{
    assert(buf.take(buf.len() as int) =~= buf);
    if utf8_len(frase) < k {
        lemma_decode_shrinks(frase, (k - 1) as nat, input, t, buf);
    } else if utf8_len(frase) == k && k != 0 {
        let i = ctx_index(t[k as int], frase);
        if i >= 0 {
            let item = t[k as int][i].1;
            lemma_exclusion_shrinks(frase.drop_first(), (k - 1) as nat, seq![], exclude(t, frase, item, k), buf);
        } else {
            lemma_decode_shrinks(frase.drop_first(), (k - 1) as nat, input, t, buf);
        }
    } else if utf8_len(frase) > k {
        lemma_decode_shrinks(frase.drop_first(), k, input, t, buf);
    }
}

/// The characters decoded from the bits still to read (`bits`, read from its
/// end) with the model `t`, the unseen letters `u`, the context `ctx` and the
/// code read so far `code`. Each step moves one bit to the code and tries to
/// decode it; once a symbol comes out the code starts again, and a letter
/// (not the escape) is output, taught to the model and appended to the
/// context.
pub open spec fn decode_from(
    t: TableView,
    u: Seq<char>,
    ctx: Seq<char>,
    bits: Seq<u8>,
    code: Seq<u8>,
    kk: nat,
) -> Seq<char>
    decreases bits.len(),
{
    if bits.len() == 0 {
        seq![]
    } else {
        let code2 = code.push(bits.last());
        let rest = bits.drop_last();
        let r = decode_symbol(ctx, kk, code2, t, rest);
        proof {
            lemma_decode_shrinks(ctx, kk, code2, t, rest);
        }
        match r.0 {
            None => decode_from(t, u, ctx, r.1, code2, kk),
            Some(c) => if c == RO {
                decode_from(t, u, ctx, r.1, seq![], kk)
            } else {
                let l = learn(ctx, start_level(ctx.len(), kk), c, t, u);
                seq![c] + decode_from(l.0, l.1, next_context(ctx, c, kk), r.1, seq![], kk)
            },
        }
    }
}

/// `decode_from` runs without a failed lookup or an overflow: every decoding
/// step is defined, and every letter decoded is ASCII and can be learnt.
pub open spec fn decode_run_defined(
    t: TableView,
    u: Seq<char>,
    ctx: Seq<char>,
    bits: Seq<u8>,
    code: Seq<u8>,
    kk: nat,
) -> bool
    decreases bits.len(),
{
    if bits.len() == 0 {
        true
    } else {
        let code2 = code.push(bits.last());
        let rest = bits.drop_last();
        let r = decode_symbol(ctx, kk, code2, t, rest);
        proof {
            lemma_decode_shrinks(ctx, kk, code2, t, rest);
        }
        &&& decode_defined(ctx, kk, code2, t, rest)
        &&& match r.0 {
            None => decode_run_defined(t, u, ctx, r.1, code2, kk),
            Some(c) => if c == RO {
                decode_run_defined(t, u, ctx, r.1, seq![], kk)
            } else {
                let l = learn(ctx, start_level(ctx.len(), kk), c, t, u);
                &&& (c as u32) < 128
                &&& learn_defined(ctx, start_level(ctx.len(), kk), c, t, u)
                &&& (ctx.len() < kk || ctx.len() >= 1)
                &&& decode_run_defined(l.0, l.1, next_context(ctx, c, kk), r.1, seq![], kk)
            },
        }
    }
}

/// The bits a coded stream carries: its last byte counts the padding bits
/// that end the bits of the other bytes; the rest is read from its last bit
/// back, so it is held reversed.
pub open spec fn stream_bits(input: Seq<u8>) -> Seq<u8> {
    let body = bytes_bits(input.drop_last());
    let pad = input.last() as int;
    if pad <= body.len() {
        body.take(body.len() - pad).reverse()
    } else {
        seq![]
    }
}

/// The characters decoded from a stream with contexts of up to `kk` letters.
pub open spec fn ppm_decoded(input: Seq<u8>, kk: nat) -> Seq<char> {
    decode_from(initial_table(kk), alphabet(), seq![], stream_bits(input), seq![], kk)
}

/// The decoder runs through the stream without a failed lookup.
pub open spec fn ppm_decode_defined(input: Seq<u8>, kk: nat) -> bool {
    &&& input.len() > 0
    &&& decode_run_defined(initial_table(kk), alphabet(), seq![], stream_bits(input), seq![], kk)
}

/// The bits of a stream, last bit first (see `stream_bits`).
pub(crate) fn stream_bits_vec(input: &Vec<u8>) -> (stream: Vec<u8>)
    requires
        input.len() > 0,
    ensures
        stream@ == stream_bits(input@),
        is_bit_seq(stream@),
{
    let mut bit_array: Vec<u8> = Vec::new();
    let mut i: usize = 0;
    while i < input.len()
        invariant
            i <= input.len(),
            bit_array@ == bytes_bits(input@.take(i as int)),
        decreases input.len() - i,
    {
        proof {
            assert(input@.take(i + 1).drop_last() =~= input@.take(i as int));
        }
        push_byte_digits(input[i], &mut bit_array);
        i = i + 1;
    }
    let ghost body = bytes_bits(input@.drop_last());
    let ghost last = input@.last();
    proof {
        assert(input@.take(i as int) =~= input@);
        lemma_bytes_bits(input@.drop_last());
        lemma_byte_digits_value(last);
        lemma_bits_readable(byte_digits(last));
        assert(bit_array@.skip(bit_array@.len() - 8) =~= byte_digits(last));
        assert(bit_array@.take(bit_array@.len() - 8) =~= body);
    }
    let a = teste(&mut bit_array);
    let mut j: u8 = 0;
    while j < a
        invariant
            j <= a,
            a == last,
            bit_array@ == if j <= body.len() {
                body.take(body.len() - j)
            } else {
                Seq::<u8>::empty()
            },
        decreases a - j,
    {
        bit_array.pop();
        proof {
            if j + 1 <= body.len() {
                assert(body.take(body.len() - j).subrange(0, body.len() - j - 1) =~= body.take(body.len() - j - 1));
            }
        }
        j = j + 1;
    }
    let mut reversed: Vec<u8> = Vec::new();
    let mut n: usize = bit_array.len();
    while n > 0
        invariant
            n <= bit_array.len(),
            reversed@ =~= bit_array@.skip(n as int).reverse(),
        decreases n,
    {
        n = n - 1;
        reversed.push(bit_array[n]);
        proof {
            assert(bit_array@.skip(n as int).reverse() =~= bit_array@.skip(n + 1).reverse().push(bit_array@[n as int]));
        }
    }
    proof {
        assert(reversed@ =~= stream_bits(input@));
        assert forall|q: int| 0 <= q < reversed@.len() implies #[trigger] reversed@[q] <= 1 by {
            assert(reversed@[q] == bit_array@[bit_array@.len() - 1 - q]);
            if j <= body.len() {
                assert(bit_array@[bit_array@.len() - 1 - q] == body[bit_array@.len() - 1 - q]);
            }
        }
    }
    reversed
}

/// With no context, decoding starts at level zero whatever `k` is.
proof fn lemma_decode_empty_context(k: nat, input: Seq<u8>, t: TableView, buf: Seq<u8>)
    ensures
        decode_symbol(seq![], k, input, t, buf) == decode_symbol(seq![], 0, input, t, buf),
        decode_defined(seq![], k, input, t, buf) == decode_defined(seq![], 0, input, t, buf),
    decreases k,
{
    if k > 0 {
        lemma_decode_empty_context((k - 1) as nat, input, t, buf);
    }
}

/// After the escape of the empty context, the symbol decoded is the byte that
/// the next eight bits of the stream spell, in stream order (the buffer holds
/// the stream's remaining bits last first, so they are its last eight,
/// reversed), and those eight bits leave the buffer.
pub proof fn lemma_escape_reads_next_byte(k: nat, input: Seq<u8>, t: TableView, rest: Seq<u8>, next: Seq<u8>)
    requires
        next.len() == 8,
        is_bit_seq(next),
        t[0][ctx_index(t[0], Seq::empty())].1.len() > 0,
        tree_decode(item_tree(t[0][ctx_index(t[0], Seq::empty())].1), input) == Some(RO),
    ensures
        decode_symbol(seq![], k, input, t, rest + next.reverse()) == (Some(bits_value(next) as char), rest),
{
    lemma_decode_empty_context(k, input, t, rest + next.reverse());
    lemma_utf8_len_facts(Seq::<char>::empty());
    let buf = rest + next.reverse();
    assert(inside_bits(buf) =~= next);
    assert(buf.take(buf.len() - 8) =~= rest);
    lemma_bits_readable(next);
}

/// After an escape has sent the reading down to the empty context, the
/// escape there is followed by the byte that the next eight bits of the
/// stream spell, in stream order, and those bits leave the buffer.
pub proof fn lemma_exclusion_escape_reads_next_byte(
    input: Seq<u8>,
    t: TableView,
    rest: Seq<u8>,
    next: Seq<u8>,
    bit: u8,
)
    requires
        next.len() == 8,
        is_bit_seq(next),
        tree_decode(item_tree(t[0][ctx_index(t[0], Seq::empty())].1), input.push(bit)) == Some(RO),
    ensures
        exclusion_decode(seq![], 0, input, t, rest + next.reverse() + seq![bit]) == (
            Some(bits_value(next) as char),
            rest,
        ),
{
    lemma_utf8_len_facts(Seq::<char>::empty());
    let buf = rest + next.reverse() + seq![bit];
    assert(buf.last() == bit);
    let r = buf.drop_last();
    assert(r =~= rest + next.reverse());
    assert(inside_bits(r) =~= next);
    assert(r.take(r.len() - 8) =~= rest);
    lemma_bits_readable(next);
}

/// Before any letter has been learnt, eight bits are read as the byte they
/// spell in stream order.
pub proof fn lemma_raw_byte_in_order(k: nat, input: Seq<u8>, t: TableView, buf: Seq<u8>)
    requires
        input.len() == 8,
        is_bit_seq(input),
        t[0][ctx_index(t[0], Seq::empty())].1.len() == 0,
    ensures
        decode_symbol(seq![], k, input, t, buf) == (Some(bits_value(input) as char), buf),
{
    lemma_decode_empty_context(k, input, t, buf);
    lemma_utf8_len_facts(Seq::<char>::empty());
    lemma_bits_readable(input);
}

/// Before the first letter, the eight bits of a byte are read one by one
/// into the code; the eighth completes the raw byte, the letter it spells.
proof fn lemma_first_byte(d: Seq<u8>, j: nat, c: char, kk: nat, later: Seq<u8>)
    requires
        d.len() == 8,
        j < 8,
        readable_as_byte(d),
        byte_char(d) == c,
        is_letter(c),
        kk >= 1,
    ensures
        ({
            let l = learn(seq![], 0, c, initial_table(kk), alphabet());
            &&& decode_run_defined(initial_table(kk), alphabet(), seq![], later + d.skip(j as int).reverse(), d.take(j as int), kk)
                == decode_run_defined(l.0, l.1, seq![c], later, seq![], kk)
            &&& decode_from(initial_table(kk), alphabet(), seq![], later + d.skip(j as int).reverse(), d.take(j as int), kk)
                == seq![c] + decode_from(l.0, l.1, seq![c], later, seq![], kk)
        }),
    decreases 8 - j,
{
    let t = initial_table(kk);
    let u = alphabet();
    let bits = later + d.skip(j as int).reverse();
    let code2 = d.take(j as int).push(bits.last());
    let rest = bits.drop_last();
    assert(bits.last() == d[j as int]);
    assert(code2 =~= d.take(j as int + 1));
    assert(rest =~= later + d.skip(j as int + 1).reverse());
    assert(ctx_index(t[0], Seq::empty()) == 0);
    lemma_decode_empty_context(kk, code2, t, rest);
    if j < 7 {
        lemma_first_byte(d, j + 1, c, kk, later);
    } else {
        assert(code2 =~= d);
        assert(rest =~= later);
        let empty = Seq::<(char, crate::huffman::huffman_token::Token)>::empty();
        assert(t[0][0].1 == empty);
        assert(usage_sum(empty) == 0);
        let k = (c as u32 - 97) as int;
        assert(alphabet()[k] == c);
        lemma_char_index(u, c);
        assert(sorted_chars(u)) by {
            assert forall|a: int, b: int| 0 <= a < b < u.len() implies (u[a] as u32) < (u[b] as u32) by {}
        }
        assert(suffix(seq![], 0) =~= Seq::<char>::empty());
        assert(start_level(0, kk) == 0);
        assert(char_index(u, c) >= 0);
        assert(learn_defined(seq![], 0, c, t, u));
        assert(c != RO);
        assert(decode_symbol(seq![], 0, code2, t, rest) == (Some(byte_char(d)), rest));
        assert(next_context(seq![], c, kk) =~= seq![c]);
    }
}

/// A letter coded on its own is written as its byte; that byte followed by
/// one that counts no padding bits decodes back to the letter.
pub proof fn lemma_single_letter_round_trip(c: char, kk: nat)
    requires
        is_letter(c),
        kk >= 1,
    ensures
        ppm_code(seq![c], kk) == seq![c as u8],
        ppm_decode_defined(seq![c as u8, 0u8], kk),
        ppm_decoded(seq![c as u8, 0u8], kk) == seq![c],
{
    let b = c as u8;
    let d = byte_digits(b);
    lemma_raw_byte_read_back(b);
    lemma_byte_digits_value(b);
    assert(b as char == c) by {
        assert((c as u32) < 256);
    }
    let input = seq![b, 0u8];
    assert(input.drop_last() =~= seq![b]);
    assert(seq![b].drop_last() =~= Seq::<u8>::empty());
    assert(bytes_bits(Seq::<u8>::empty()) == Seq::<u8>::empty());
    assert(bytes_bits(seq![b]) =~= d);
    assert(d.take(8) =~= d);
    assert(stream_bits(input) =~= d.skip(0).reverse());
    assert(d.take(0) =~= Seq::<u8>::empty());
    lemma_first_byte(d, 0, c, kk, Seq::<u8>::empty());
    assert(Seq::<u8>::empty() + d.skip(0).reverse() =~= d.skip(0).reverse());
    assert(seq![c] + Seq::<char>::empty() =~= seq![c]);
    // The coder's side: the empty context at level zero has no entries yet,
    // so the letter is written raw.
    let t = initial_table(kk);
    assert(ctx_index(t[0], Seq::empty()) == 0);
    assert(seq![c].drop_last() =~= Seq::<char>::empty());
    assert(drop_escape(t, alphabet()) == t);
    let prev = ppm_run(Seq::<char>::empty(), kk);
    assert(prev == (t, alphabet(), Seq::<char>::empty(), Seq::<u8>::empty()));
    assert(start_level(0, kk) == 0);
    assert(crate::huffman::encoder::encode_bits(Seq::<char>::empty(), 0, c, t) == d);
    let bits = ppm_run(seq![c], kk).3;
    assert(bits =~= d);
    assert(pack_bits(d) == seq![bits_value(d) as u8]);
}

/// The entries of the empty context after its first letter `a`: `a` and the
/// escape, each used once, coded by the tree that holds `a` on the left and
/// the escape on the right.
proof fn lemma_first_entries(a: char)
    requires
        is_letter(a),
    ensures
        introduce(Seq::empty(), a) == seq![(a, Token { usage: 1, total: 2 }), (RO, Token { usage: 1, total: 2 })],
        item_tree(introduce(Seq::empty(), a)) == branch(leaf(a, 1), leaf(RO, 1)),
{
    let e = Seq::<(char, Token)>::empty();
    let fresh = Token { usage: 1, total: 0 };
    let s1 = insert_key(e, a);
    assert(s1 =~= seq![(a, fresh)]);
    assert(!has_key(s1, RO)) by {
        if has_key(s1, RO) {
            let i = choose|i: int| 0 <= i < s1.len() && #[trigger] s1[i].0 == RO;
            assert(s1[i].0 == a);
        }
    }
    assert(s1.drop_first() =~= e);
    assert(insert_pos(e, RO) == 0);
    assert(RO == '~');
    assert((s1[0].0 as u32) < (RO as u32));
    assert(insert_pos(s1, RO) == 1);
    let s2 = insert_key(s1, RO);
    assert(s2 =~= seq![(a, fresh), (RO, fresh)]);
    assert(s2.drop_last() =~= seq![(a, fresh)]);
    assert(s2.drop_last().drop_last() =~= e);
    assert(usage_sum(s2.drop_last().drop_last()) == 0);
    assert(usage_sum(s2.drop_last()) == 1);
    assert(usage_sum(s2) == 2);
    let s3 = introduce(e, a);
    assert(s3 =~= seq![(a, Token { usage: 1, total: 2 }), (RO, Token { usage: 1, total: 2 })]);
    let leaves = item_leaves(s3);
    assert(leaves =~= seq![leaf(a, 1), leaf(RO, 1)]);
    let b = branch(leaves[0], leaves[1]);
    let rest = leaves.subrange(2, 2);
    assert(rest =~= Seq::<Node>::empty());
    assert(first_heavier(rest, b.count as int) == 0);
    assert(join_front(leaves) =~= seq![b]);
    assert(leaves[0] == leaf(a, 1));
    assert(leaves[1] == leaf(RO, 1));
    assert(build(seq![b]) == b);
    assert(build(leaves) == build(join_front(leaves)));
}

/// In the tree of a letter and the escape, the single bit `1` names the
/// escape and the escape's code is `1`.
proof fn lemma_escape_code_one(a: char)
    requires
        is_letter(a),
    ensures
        tree_decode(branch(leaf(a, 1), leaf(RO, 1)), seq![1u8]) == Some(RO),
        search_code(branch(leaf(a, 1), leaf(RO, 1)), RO, 0) == Some(1u8),
        binary_digits(1) == seq![1u8],
{
    let bits = seq![1u8];
    let tree = branch(leaf(a, 1), leaf(RO, 1));
    assert(bits.drop_first() =~= Seq::<u8>::empty());
    assert(walk(leaf(RO, 1), bits.drop_first()) == Some(RO));
    assert(walk(tree, bits) == Some(RO));
    assert(search_code(leaf(a, 1), RO, 0) is None);
    assert(search_code(leaf(RO, 1), RO, 1) == Some(1u8));
    assert(((2 * 0u8) % 256) as u8 == 0u8);
    assert(((2 * 0u8) % 256 + 1) as u8 == 1u8);
    assert(search_code(tree, RO, 0) == Some(1u8));
    assert(binary_digits(1) == seq![1u8]);
}

/// After a single ASCII letter, decoding starts at level one whatever `k`
/// (at least one) is.
proof fn lemma_decode_one_letter_context(a: char, k: nat, input: Seq<u8>, t: TableView, buf: Seq<u8>)
    requires
        (a as u32) < 128,
        k >= 1,
    ensures
        decode_symbol(seq![a], k, input, t, buf) == decode_symbol(seq![a], 1, input, t, buf),
        decode_defined(seq![a], k, input, t, buf) == decode_defined(seq![a], 1, input, t, buf),
    decreases k,
{
    lemma_ascii_utf8_len(seq![a]);
    if k > 1 {
        lemma_decode_one_letter_context(a, (k - 1) as nat, input, t, buf);
    }
}

/// Two different letters: the second, new to the model, is written as the
/// escape of the empty context (the single bit `1`) followed by its byte;
/// and a stream that carries the first letter's byte, that escape and the
/// second letter's byte decodes back to both letters, in order.
pub proof fn lemma_two_letter_round_trip(a: char, b: char, kk: nat, input: Seq<u8>)
    requires
        is_letter(a),
        is_letter(b),
        a != b,
        kk >= 1,
        input.len() > 0,
        stream_bits(input) == (byte_digits(a as u8) + seq![1u8] + byte_digits(b as u8)).reverse(),
    ensures
        ppm_run(seq![a, b], kk).3 == byte_digits(a as u8) + seq![1u8] + byte_digits(b as u8),
        ppm_decode_defined(input, kk),
        ppm_decoded(input, kk) == seq![a, b],
{
    let da = byte_digits(a as u8);
    let db = byte_digits(b as u8);
    lemma_raw_byte_read_back(a as u8);
    lemma_byte_digits_value(a as u8);
    lemma_raw_byte_read_back(b as u8);
    lemma_byte_digits_value(b as u8);
    assert((a as u8) as char == a) by {
        assert((a as u32) < 256);
    }
    assert((b as u8) as char == b) by {
        assert((b as u32) < 256);
    }
    let t = initial_table(kk);
    let u = alphabet();
    let e = Seq::<(char, Token)>::empty();
    assert(ctx_index(t[0], Seq::empty()) == 0);
    assert(suffix(seq![], 0) =~= Seq::<char>::empty());
    assert(!has_key(e, a));
    let l = learn(seq![], 0, a, t, u);
    lemma_first_entries(a);
    lemma_escape_code_one(a);
    let t0 = introduce(e, a);
    assert(l.0 == set_item(t, 0, 0, t0));
    assert(l.1 == u.remove(char_index(u, a)));
    let t1 = l.0;
    assert(t1.len() == kk + 1);
    assert(t1[1] == Seq::<(Seq<char>, ItemView)>::empty());
    assert(ctx_index(t1[1], seq![a]) == -1);
    assert(t1[0] == seq![(Seq::<char>::empty(), t0)]);
    assert(ctx_index(t1[0], Seq::empty()) == 0);
    assert(usage_sum(e) == 0);
    lemma_introduce_facts(e, a);
    assert(!has_key(t0, b)) by {
        assert(!has_key(e, b));
    }
    assert(unseen_ok(e, u)) by {
        assert(sorted_chars(u)) by {
            assert forall|x: int, y: int| 0 <= x < y < u.len() implies (u[x] as u32) < (u[y] as u32) by {}
        }
        assert forall|x: char| is_letter(x) implies (u.contains(x) <==> !has_key(e, x)) by {
            let k = (x as u32 - 97) as int;
            assert(u[k] == x);
        }
    }
    lemma_unseen_remove(e, t0, u, a);
    assert(l.1.contains(b));
    lemma_char_index(l.1, b);
    // The coder's side.
    assert(seq![a].drop_last() =~= Seq::<char>::empty());
    assert(drop_escape(t, u) == t);
    assert(start_level(0, kk) == 0);
    assert(next_context(Seq::<char>::empty(), a, kk) =~= seq![a]);
    let first = ppm_run(seq![a], kk);
    assert(ppm_run(Seq::<char>::empty(), kk) == (t, u, Seq::<char>::empty(), Seq::<u8>::empty()));
    assert(encode_bits(Seq::<char>::empty(), 0, a, t) == da);
    assert(first.0 == t1);
    assert(first.1 == l.1);
    assert(first.2 == seq![a]);
    assert(first.3 == Seq::<u8>::empty() + da);
    assert(Seq::<u8>::empty() + da =~= da);
    assert(seq![a, b].drop_last() =~= seq![a]);
    lemma_char_index(u, a);
    assert(0 <= char_index(u, a) < 26);
    assert(l.1.len() == 25);
    assert(drop_escape(t1, l.1) == t1);
    assert(start_level(1, kk) == 1);
    assert(suffix(seq![a], 1) =~= seq![a]);
    lemma_escape_then_byte(seq![a], b, t1);
    assert(encode_bits(seq![a], 1, b, t1) == seq![1u8] + db);
    assert(da + (seq![1u8] + db) =~= da + seq![1u8] + db);
    // The decoder's side: the first byte, then the escape and the second byte.
    let later = db.reverse() + seq![1u8];
    assert(stream_bits(input) =~= later + da.skip(0).reverse());
    assert(da.take(0) =~= Seq::<u8>::empty());
    lemma_first_byte(da, 0, a, kk, later);
    let code2 = Seq::<u8>::empty().push(later.last());
    let rest = later.drop_last();
    assert(code2 =~= seq![1u8]);
    assert(rest =~= db.reverse());
    lemma_decode_one_letter_context(a, kk, code2, t1, rest);
    lemma_ascii_utf8_len(seq![a]);
    lemma_utf8_len_facts(Seq::<char>::empty());
    assert(seq![a].drop_first() =~= Seq::<char>::empty());
    lemma_escape_reads_next_byte(0, code2, t1, Seq::empty(), db);
    assert(Seq::<u8>::empty() + db.reverse() =~= rest);
    assert(decode_symbol(seq![a], 1, code2, t1, rest) == (Some(b), Seq::<u8>::empty()));
    assert(inside_bits(rest) =~= db);
    lemma_bits_readable(db);
    assert(rest.len() == 8);
    assert(readable_as_byte(inside_bits(rest)));
    assert(tree_decode(item_tree(t0), code2) == Some(RO));
    assert(usage_sum(t0) == 2);
    assert(decode_defined(Seq::<char>::empty(), 0, code2, t1, rest));
    assert(decode_defined(seq![a], 1, code2, t1, rest));
    assert(suffix(seq![a], 0) =~= Seq::<char>::empty());
    let t2 = push_context(t1, 1, seq![a], introduce(e, b));
    assert(t2[0] == t1[0]);
    assert(learn_defined(seq![a], 0, b, t2, l.1));
    assert(learn_defined(seq![a], 1, b, t1, l.1));
    let l2 = learn(seq![a], 1, b, t1, l.1);
    let ctx2 = next_context(seq![a], b, kk);
    assert(decode_from(l2.0, l2.1, ctx2, Seq::empty(), seq![], kk) == Seq::<char>::empty());
    assert(decode_from(t1, l.1, seq![a], later, seq![], kk) == seq![b] + Seq::<char>::empty());
    assert(decode_run_defined(l2.0, l2.1, ctx2, Seq::empty(), seq![], kk));
    assert(decode_defined(seq![a], kk, code2, t1, rest));
    assert(decode_symbol(seq![a], kk, code2, t1, rest) == (Some(b), Seq::<u8>::empty()));
    assert(later.len() > 0);
    assert(decode_run_defined(t1, l.1, seq![a], later, seq![], kk));
    assert(seq![a] + (seq![b] + Seq::<char>::empty()) =~= seq![a, b]);
}

/// Decodes a stream with contexts of up to `contexts_number` letters and
/// returns the letters decoded, in order (see `ppm_decoded`).
pub fn ppm_impl(input: &Vec<u8>, contexts_number: usize) -> (decoded: Vec<char>)
    requires
        contexts_number < usize::MAX,
        ppm_decode_defined(input@, contexts_number as nat),
    ensures
        decoded@ == ppm_decoded(input@, contexts_number as nat),
{
    let kk = contexts_number;
    let mut context_tables = initial_tables(kk);
    let mut context: Vec<char> = Vec::new();
    let mut unseen = alphabet_vec();

    let mut bit_array = stream_bits_vec(input);

    let mut buffer: Vec<u8> = Vec::new();
    let mut out: Vec<char> = Vec::new();
    let ghost goal = ppm_decoded(input@, kk as nat);
    proof {
        assert(out@ + goal =~= goal);
    }
    while bit_array.len() > 0
        invariant
            out@ + decode_from(context_tables@, unseen@, context@, bit_array@, buffer@, kk as nat) == goal,
            decode_run_defined(context_tables@, unseen@, context@, bit_array@, buffer@, kk as nat),
            forall|q: int| 0 <= q < context@.len() ==> (context@[q] as u32) < 128,
        decreases bit_array.len(),
    {
        let ghost bits = bit_array@;
        let ghost t = context_tables@;
        let ghost u = unseen@;
        let ghost ctx = context@;
        let b = bit_array.pop().unwrap();
        buffer.push(b);
        let ghost rest = bit_array@;
        proof {
            assert(rest =~= bits.drop_last());
            lemma_decode_shrinks(ctx, kk as nat, buffer@, t, rest);
        }
        let result = decode(&context, kk, &buffer, &context_tables, &mut bit_array);
        match result {
            Some(c) => {
                buffer = Vec::new();
                proof {
                    assert(buffer@ =~= Seq::<u8>::empty());
                }
                if c != RO {
                    proof {
                        crate::huffman::utils::lemma_walk_ascii(context@, kk as nat, c, context_tables@, unseen@);
                    }
                    update_tables(&context, kk, c, &mut context_tables, &mut unseen);
                    proof {
                        crate::huffman::utils::lemma_ascii_utf8_len(context@);
                    }
                    update_context(&mut context, c, kk);
                    proof {
                        assert forall|q: int| 0 <= q < context@.len() implies (context@[q] as u32) < 128 by {
                            if q < context@.len() - 1 {
                                if ctx.len() < kk {
                                    assert(context@[q] == ctx[q]);
                                } else {
                                    assert(context@[q] == ctx[q + 1]);
                                }
                            }
                        }
                    }
                    let ghost before = out@;
                    out.push(c);
                    proof {
                        assert(out@ =~= before + seq![c]);
                        assert(before + (seq![c] + decode_from(context_tables@, unseen@, context@, bit_array@, buffer@, kk as nat))
                            =~= out@ + decode_from(context_tables@, unseen@, context@, bit_array@, buffer@, kk as nat));
                    }
                }
            },
            None => {},
        }
    }
    proof {
        assert(out@ + Seq::<char>::empty() =~= out@);
    }
    out
}

} // verus!
