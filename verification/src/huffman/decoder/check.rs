//! Testing a coded stream before decoding it: the decoder is only defined on
//! streams along which every lookup succeeds (see `ppm_decode_defined`); these
//! functions walk the same path and say whether it does.
use vstd::prelude::*;
use crate::huffman::RO;
use crate::huffman::huffman_token::Token;
use crate::huffman::encoder::copy_bytes;
use crate::huffman::decoder::util::{exclusion_defined, inside_bits};
use crate::huffman::decoder::{
    decode, decode_defined, decode_run_defined, ppm_decode_defined, stream_bits_vec,
    lemma_decode_shrinks,
};
use crate::huffman::encoder::initial_tables;
use crate::huffman::alphabet_vec;
use crate::huffman::utils::{update_context, utf8_length, lemma_utf8_len_facts};
use crate::huffman::utils::{create_tree, exclude, exclude_defined, exclusion_table, remove_symbols};
use crate::util::binary_tree::BinaryTree;
use crate::util::bits::{is_bit_seq, lemma_bits_readable};
use crate::huffman::utils::{
    ContextItem, ContextTable, bump_symbol, copy_chars, drop_first_char, find_char,
    introduce_symbol, learn, learn_defined, sorted_chars, start_level, suffix, usage_sum,
    lemma_char_index, lemma_ctx_index, lemma_learn_suffix, lemma_usage_sum_concat,
    lemma_usage_sum_nonneg,
};

verus! {

/// Whether the usages of a context add up to at most `usize::MAX`.
pub fn usage_fits(item: &ContextItem) -> (b: bool)
    ensures
        b == (usage_sum(item@) <= usize::MAX),
{
    let ghost s = item@;
    let mut sum: usize = 0;
    let mut i: usize = 0;
    proof {
        assert(s.take(0) =~= Seq::<(char, Token)>::empty());
    }
    while i < item.entries.len()
        invariant
            i <= item.entries.len(),
            s == item@,
            sum == usage_sum(s.take(i as int)),
        decreases item.entries.len() - i,
    {
        proof {
            assert(s.take(i + 1).drop_last() =~= s.take(i as int));
        }
        match sum.checked_add(item.entries[i].1.usage) {
            Some(next) => {
                sum = next;
            },
            None => {
                proof {
                    assert(s =~= s.take(i + 1) + s.skip(i + 1));
                    lemma_usage_sum_concat(s.take(i + 1), s.skip(i + 1));
                    lemma_usage_sum_nonneg(s.skip(i + 1));
                }
                return false;
            },
        }
        i = i + 1;
    }
    proof {
        assert(s.take(i as int) =~= s);
    }
    true
}

/// Whether the usages of a context add up to less than `usize::MAX - n`.
fn usage_below(item: &ContextItem, n: usize) -> (b: bool)
    ensures
        b == (usage_sum(item@) + n <= usize::MAX),
{
    let ghost s = item@;
    let mut sum: usize = 0;
    let mut i: usize = 0;
    proof {
        assert(s.take(0) =~= Seq::<(char, Token)>::empty());
    }
    while i < item.entries.len()
        invariant
            i <= item.entries.len(),
            s == item@,
            sum == usage_sum(s.take(i as int)),
        decreases item.entries.len() - i,
    {
        proof {
            assert(s.take(i + 1).drop_last() =~= s.take(i as int));
        }
        match sum.checked_add(item.entries[i].1.usage) {
            Some(next) => {
                sum = next;
            },
            None => {
                proof {
                    assert(s =~= s.take(i + 1) + s.skip(i + 1));
                    lemma_usage_sum_concat(s.take(i + 1), s.skip(i + 1));
                    lemma_usage_sum_nonneg(s.skip(i + 1));
                }
                return false;
            },
        }
        i = i + 1;
    }
    proof {
        assert(s.take(i as int) =~= s);
    }
    sum <= usize::MAX - n
}

/// Whether the characters of `u` strictly increase.
pub fn chars_sorted(u: &Vec<char>) -> (b: bool)
    ensures
        b == sorted_chars(u@),
{
    let mut i: usize = 1;
    while i < u.len()
        invariant
            1 <= i,
            forall|a: int, b: int| 0 <= a < b < i && b < u@.len() ==> (u@[a] as u32) < (u@[b] as u32),
        decreases u.len() - i,
    {
        if (u[i - 1] as u32) >= (u[i] as u32) {
            return false;
        }
        i = i + 1;
    }
    true
}

/// Teaches the model like `update_tables` where that is defined, and says
/// whether it is: on `false` the model may be left half taught.
pub fn try_update_tables(
    frase: &Vec<char>,
    k: usize,
    input: char,
    tables: &mut ContextTable,
    unseen: &mut Vec<char>,
) -> (ok: bool)
    ensures
        ok == learn_defined(frase@, start_level(frase@.len(), k as nat), input, old(tables)@, old(unseen)@),
        ok ==> (final(tables)@, final(unseen)@) == learn(
            frase@,
            start_level(frase@.len(), k as nat),
            input,
            old(tables)@,
            old(unseen)@,
        ),
    decreases frase@.len() + k,
{
    let ghost t = tables@;
    let ghost u = unseen@;
    if frase.len() == 0 && k == 0 {
        proof {
            assert(suffix(frase@, 0) =~= frase@);
        }
        if tables.levels.len() == 0 {
            return false;
        }
        let i = match tables.find(0, frase) {
            Some(i) => i,
            None => {
                return false;
            },
        };
        proof {
            lemma_ctx_index(tables@[0], frase@);
        }
        let mut item = tables.item(0, i).copy();
        if item.contains_key(input) {
            if !usage_below(&item, 1) {
                return false;
            }
            bump_symbol(&mut item, input);
            tables.set_item(0, i, item);
        } else {
            if !usage_below(&item, 2) {
                return false;
            }
            if !chars_sorted(unseen) {
                return false;
            }
            proof {
                lemma_char_index(unseen@, input);
            }
            let index = match find_char(unseen, input) {
                Some(index) => index,
                None => {
                    return false;
                },
            };
            introduce_symbol(&mut item, input);
            tables.set_item(0, i, item);
            unseen.remove(index);
        }
        true
    } else if frase.len() < k {
        try_update_tables(frase, k - 1, input, tables, unseen)
    } else if frase.len() == k {
        proof {
            assert(suffix(frase@, k as nat) =~= frase@);
        }
        if k >= tables.levels.len() {
            return false;
        }
        let rest = drop_first_char(frase);
        proof {
            assert(suffix(frase@, (k - 1) as nat) =~= suffix(rest@, (k - 1) as nat));
        }
        match tables.find(k, frase) {
            Some(i) => {
                proof {
                    lemma_ctx_index(tables@[k as int], frase@);
                }
                let mut item = tables.item(k, i).copy();
                if item.contains_key(input) {
                    if !usage_below(&item, 1) {
                        return false;
                    }
                    bump_symbol(&mut item, input);
                    tables.set_item(k, i, item);
                    true
                } else {
                    if !usage_below(&item, 2) {
                        return false;
                    }
                    introduce_symbol(&mut item, input);
                    tables.set_item(k, i, item);
                    proof {
                        lemma_learn_suffix(frase@, rest@, (k - 1) as nat, input, tables@, u);
                    }
                    try_update_tables(&rest, k - 1, input, tables, unseen)
                }
            },
            None => {
                let mut item = ContextItem::new();
                proof {
                    assert(usage_sum(item@) == 0);
                }
                introduce_symbol(&mut item, input);
                tables.push_context(k, copy_chars(frase), item);
                proof {
                    lemma_learn_suffix(frase@, rest@, (k - 1) as nat, input, tables@, u);
                }
                try_update_tables(&rest, k - 1, input, tables, unseen)
            },
        }
    } else {
        let rest = drop_first_char(frase);
        proof {
            assert(suffix(frase@, k as nat) =~= suffix(rest@, k as nat));
            lemma_learn_suffix(frase@, rest@, k as nat, input, t, u);
        }
        try_update_tables(&rest, k, input, tables, unseen)
    }
}

/// Whether `exclude` finds what it needs (see `exclude_defined`).
fn exclude_ok(tables: &ContextTable, phrase: &Vec<char>, item: &ContextItem, k: usize) -> (b: bool)
    ensures
        b == exclude_defined(tables@, phrase@, item@, k as nat),
{
    if k == 0 || k > tables.levels.len() || phrase.len() == 0 {
        return false;
    }
    let next = drop_first_char(phrase);
    match tables.find(k - 1, &next) {
        Some(i) => {
            proof {
                lemma_ctx_index(tables@[k - 1], next@);
            }
            let rest = remove_symbols(tables.item(k - 1, i), item);
            usage_fits(&rest)
        },
        None => false,
    }
}

/// Bits after an escape, read one at a time: whether `decode_exclusion`
/// would find what it needs (see `exclusion_defined`). The buffer is left as
/// it was.
pub fn check_exclusion(
    frase: &Vec<char>,
    k: usize,
    input: &Vec<u8>,
    tables: &ContextTable,
    bit_buffer: &Vec<u8>,
) -> (b: bool)
    requires
        is_bit_seq(input@),
        is_bit_seq(bit_buffer@),
    ensures
        b == exclusion_defined(frase@, k as nat, input@, tables@, bit_buffer@),
    decreases bit_buffer@.len(),
{
    if bit_buffer.len() == 0 {
        return false;
    }
    let mut rest = copy_bytes(bit_buffer);
    let bit = rest.pop().unwrap();
    let mut bits = copy_bytes(input);
    bits.push(bit);
    proof {
        assert(rest@ =~= bit_buffer@.drop_last());
        assert(bits@ =~= input@.push(bit_buffer@.last()));
        assert(is_bit_seq(bits@)) by {
            assert forall|q: int| 0 <= q < bits@.len() implies #[trigger] bits@[q] <= 1 by {
                if q < input@.len() {
                    assert(bits@[q] == input@[q]);
                } else {
                    assert(bits@[q] == bit_buffer@[bit_buffer@.len() - 1]);
                }
            }
        }
        assert(is_bit_seq(rest@)) by {
            assert forall|q: int| 0 <= q < rest@.len() implies #[trigger] rest@[q] <= 1 by {
                assert(rest@[q] == bit_buffer@[q]);
            }
        }
    }
    let n = utf8_length(frase);
    proof {
        lemma_utf8_len_facts(frase@);
    }
    if n < k as u128 {
        check_exclusion(frase, k - 1, &bits, tables, &rest)
    } else if n > k as u128 {
        if (frase[0] as u32) >= 128 {
            return false;
        }
        let shorter = drop_first_char(frase);
        check_exclusion(&shorter, k, &bits, tables, &rest)
    } else if k != 0 {
        if k >= tables.levels.len() {
            return false;
        }
        let shorter = drop_first_char(frase);
        match tables.find(k, frase) {
            Some(i) => {
                proof {
                    lemma_ctx_index(tables@[k as int], frase@);
                }
                let item = tables.item(k, i);
                if item.len() == 0 || !usage_fits(item) {
                    return false;
                }
                let tree = create_tree(item);
                match BinaryTree::decode(tree, &bits) {
                    Some(d) => {
                        if d != RO {
                            true
                        } else if (frase[0] as u32) >= 128 || !exclude_ok(tables, frase, item, k) {
                            false
                        } else {
                            let excluded = exclusion_table(tables, (frase, item), k).unwrap();
                            let empty: Vec<u8> = Vec::new();
                            proof {
                                assert(empty@ =~= Seq::<u8>::empty());
                            }
                            check_exclusion(&shorter, k - 1, &empty, &excluded, &rest)
                        }
                    },
                    None => false,
                }
            },
            None => {
                if (frase[0] as u32) >= 128 {
                    return false;
                }
                check_exclusion(&shorter, k - 1, &bits, tables, &rest)
            },
        }
    } else {
        let empty: Vec<char> = Vec::new();
        proof {
            assert(empty@ =~= Seq::<char>::empty());
        }
        if tables.levels.len() == 0 {
            return false;
        }
        let i = match tables.find(0, &empty) {
            Some(i) => i,
            None => {
                return false;
            },
        };
        proof {
            lemma_ctx_index(tables@[0], empty@);
        }
        let t0 = tables.item(0, i);
        if t0.len() == 0 || !usage_fits(t0) {
            return false;
        }
        let tree = create_tree(t0);
        match BinaryTree::decode(tree, &bits) {
            Some(c) => {
                if c == RO {
                    if rest.len() < 8 {
                        false
                    } else {
                        proof {
                            let ib = inside_bits(rest@);
                            assert forall|q: int| 0 <= q < ib.len() implies #[trigger] ib[q] <= 1 by {
                                assert(ib[q] == rest@[rest@.len() - 1 - q]);
                            }
                            lemma_bits_readable(ib);
                        }
                        true
                    }
                } else {
                    true
                }
            },
            None => check_exclusion(frase, k, &bits, tables, &rest),
        }
    }
}

/// Whether `decode` would find what it needs (see `decode_defined`).
pub fn check_decode(
    frase: &Vec<char>,
    k: usize,
    input: &Vec<u8>,
    tables: &ContextTable,
    bit_buffer: &Vec<u8>,
) -> (b: bool)
    requires
        is_bit_seq(input@),
        is_bit_seq(bit_buffer@),
    ensures
        b == decode_defined(frase@, k as nat, input@, tables@, bit_buffer@),
    decreases frase@.len() + k,
{
    let n = utf8_length(frase);
    proof {
        lemma_utf8_len_facts(frase@);
    }
    if n < k as u128 {
        check_decode(frase, k - 1, input, tables, bit_buffer)
    } else if n == k as u128 && k != 0 {
        if k >= tables.levels.len() {
            return false;
        }
        let shorter = drop_first_char(frase);
        match tables.find(k, frase) {
            Some(i) => {
                proof {
                    lemma_ctx_index(tables@[k as int], frase@);
                }
                let item = tables.item(k, i);
                if item.len() == 0 || !usage_fits(item) {
                    return false;
                }
                let tree = create_tree(item);
                match BinaryTree::decode(tree, input) {
                    Some(d) => {
                        if d != RO {
                            true
                        } else if (frase[0] as u32) >= 128 || !exclude_ok(tables, frase, item, k) {
                            false
                        } else {
                            let excluded = exclusion_table(tables, (frase, item), k).unwrap();
                            let empty: Vec<u8> = Vec::new();
                            proof {
                                assert(empty@ =~= Seq::<u8>::empty());
                            }
                            check_exclusion(&shorter, k - 1, &empty, &excluded, bit_buffer)
                        }
                    },
                    None => true,
                }
            },
            None => {
                if (frase[0] as u32) >= 128 {
                    return false;
                }
                check_decode(&shorter, k - 1, input, tables, bit_buffer)
            },
        }
    } else if n > k as u128 {
        if (frase[0] as u32) >= 128 {
            return false;
        }
        let shorter = drop_first_char(frase);
        check_decode(&shorter, k, input, tables, bit_buffer)
    } else {
        let empty: Vec<char> = Vec::new();
        proof {
            assert(empty@ =~= Seq::<char>::empty());
        }
        if tables.levels.len() == 0 {
            return false;
        }
        let i = match tables.find(0, &empty) {
            Some(i) => i,
            None => {
                return false;
            },
        };
        proof {
            lemma_ctx_index(tables@[0], empty@);
        }
        let t0 = tables.item(0, i);
        if t0.len() == 0 {
            proof {
                if input@.len() == 8 {
                    lemma_bits_readable(input@);
                }
            }
            return true;
        }
        if !usage_fits(t0) {
            return false;
        }
        let tree = create_tree(t0);
        match BinaryTree::decode(tree, input) {
            Some(c) => {
                if c == RO {
                    if bit_buffer.len() < 8 {
                        false
                    } else {
                        proof {
                            let ib = inside_bits(bit_buffer@);
                            assert forall|q: int| 0 <= q < ib.len() implies #[trigger] ib[q] <= 1 by {
                                assert(ib[q] == bit_buffer@[bit_buffer@.len() - 1 - q]);
                            }
                            lemma_bits_readable(ib);
                        }
                        true
                    }
                } else {
                    true
                }
            },
            None => true,
        }
    }
}

/// Whether the decoder is defined on a stream with contexts of up to
/// `contexts_number` letters (see `ppm_decode_defined`): the stream is not
/// empty, and along the way every lookup succeeds, an escape finds the bits
/// it reads, and every letter decoded is one the model can learn (a letter
/// from `a` to `z`, as the model has never seen any other).
pub fn ppm_decodable(input: &Vec<u8>, contexts_number: usize) -> (b: bool)
    requires
        contexts_number < usize::MAX,
    ensures
        b == ppm_decode_defined(input@, contexts_number as nat),
{
    if input.len() == 0 {
        return false;
    }
    let kk = contexts_number;
    let mut tables = initial_tables(kk);
    let mut context: Vec<char> = Vec::new();
    let mut unseen = alphabet_vec();
    let mut bit_array = stream_bits_vec(input);
    let mut buffer: Vec<u8> = Vec::new();
    let ghost whole = ppm_decode_defined(input@, kk as nat);
    proof {
        assert(context@ =~= Seq::<char>::empty());
        assert(buffer@ =~= Seq::<u8>::empty());
    }
    while bit_array.len() > 0
        invariant
            kk == contexts_number,
            whole == ppm_decode_defined(input@, contexts_number as nat),
            whole == decode_run_defined(tables@, unseen@, context@, bit_array@, buffer@, kk as nat),
            is_bit_seq(bit_array@),
            is_bit_seq(buffer@),
            forall|q: int| 0 <= q < context@.len() ==> (#[trigger] context@[q] as u32) < 128,
        decreases bit_array.len(),
    {
        let ghost bits = bit_array@;
        let ghost code = buffer@;
        let ghost ctx = context@;
        let b = bit_array.pop().unwrap();
        buffer.push(b);
        let ghost rest = bit_array@;
        proof {
            assert(rest =~= bits.drop_last());
            assert(buffer@ =~= code.push(bits.last()));
            assert(is_bit_seq(buffer@)) by {
                assert forall|q: int| 0 <= q < buffer@.len() implies #[trigger] buffer@[q] <= 1 by {
                    if q < code.len() {
                        assert(buffer@[q] == code[q]);
                    } else {
                        assert(buffer@[q] == bits[bits.len() - 1]);
                    }
                }
            }
            assert(is_bit_seq(rest)) by {
                assert forall|q: int| 0 <= q < rest.len() implies #[trigger] rest[q] <= 1 by {
                    assert(rest[q] == bits[q]);
                }
            }
            lemma_decode_shrinks(ctx, kk as nat, buffer@, tables@, rest);
        }
        if !check_decode(&context, kk, &buffer, &tables, &bit_array) {
            return false;
        }
        let result = decode(&context, kk, &buffer, &tables, &mut bit_array);
        proof {
            let kept = bit_array@;
            assert(kept =~= rest.take(kept.len() as int));
            assert forall|q: int| 0 <= q < kept.len() implies #[trigger] kept[q] <= 1 by {
                assert(kept[q] == rest[q]);
            }
        }
        match result {
            Some(c) => {
                buffer = Vec::new();
                proof {
                    assert(buffer@ =~= Seq::<u8>::empty());
                }
                if c != RO {
                    if (c as u32) >= 128 {
                        return false;
                    }
                    if !(context.len() < kk || context.len() >= 1) {
                        return false;
                    }
                    if !try_update_tables(&context, kk, c, &mut tables, &mut unseen) {
                        return false;
                    }
                    proof {
                        crate::huffman::utils::lemma_ascii_utf8_len(context@);
                    }
                    update_context(&mut context, c, kk);
                    proof {
                        assert forall|q: int| 0 <= q < context@.len() implies (context@[q] as u32) < 128 by {
                            if q < context@.len() - 1 {
                                if ctx.len() < kk {
                                    assert(context@[q] == ctx[q]);
                                } else {
                                    assert(context@[q] == ctx[q + 1]);
                                }
                            }
                        }
                    }
                }
            },
            None => {},
        }
    }
    true
}

} // verus!
