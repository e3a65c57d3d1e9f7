//! The PPM encoder: each letter is coded with the code tree of the longest
//! context that knows it, escaping down through shorter contexts otherwise.
use vstd::prelude::*;
use crate::huffman::{RO, alphabet, alphabet_vec};
use crate::huffman::utils::{
    ContextItem, ContextTable, ItemView, TableView, ctx_index, exclude, exclude_defined,
    exclusion_table, create_tree, drop_first_char, has_key, item_leaves, item_tree, start_level,
    suffix, usage_sum, lemma_ctx_index, lemma_key_index,
};
use crate::huffman::writer::Writer;
use crate::huffman::utils::{utf8_len, utf8_length, lemma_utf8_len_facts};
use crate::huffman::utils::{
    ContextNode, update_tables, update_context, learn, learn_defined, key_index, update_totals,
};
use crate::util::bits::{
    bits_value, bytes_bits, is_bit_seq, lemma_bytes_bits, lemma_byte_digits_value,
};
use crate::util::binary_tree::{
    BinaryTree, has_symbol, search_code, lemma_build_symbols, lemma_search_finds, list_has_symbol,
};
use crate::util::bits::{binary_digits, byte_digits};
use crate::huffman::model::{
    suffix_closed, t0_item, model_ok, learn_ready, level_ok, item_ok, is_symbol, pending,
    lemma_learn_keeps_model,
};
use crate::huffman::is_letter;
use crate::huffman::utils::{sorted_keys, lemma_usage_sum_insert, lemma_usage_sum_nonneg};
use crate::huffman::utils::{set_item, without, retotal, lemma_without, lemma_retotal};
use crate::huffman::model::lemma_ctx_index_same_phrases;

verus! {

/// The code of `c` in the code tree of a context.
pub open spec fn item_code(s: ItemView, c: char) -> u8 {
    search_code(item_tree(s), c, 0)->0
}

/// The bits written for `c` after the context `p`, starting at level `j`
/// (the last `j` symbols of `p`). A context that knows `c` writes its code; one
/// that does not writes the escape's code and the walk goes one level down
/// with the symbols of that context taken out of the next one; a context not
/// seen yet is skipped. At level zero an empty table writes the byte of `c`,
/// and an unknown `c` is written as the escape followed by its byte.
pub open spec fn encode_bits(p: Seq<char>, j: nat, c: char, t: TableView) -> Seq<u8>
    decreases j,
{
    if j == 0 {
        let t0 = t[0][ctx_index(t[0], Seq::empty())].1;
        if t0.len() == 0 {
            byte_digits(c as u8)
        } else if has_key(t0, c) {
            binary_digits(item_code(t0, c) as nat)
        } else {
            binary_digits(item_code(t0, RO) as nat) + byte_digits(c as u8)
        }
    } else {
        let s = suffix(p, j);
        let i = ctx_index(t[j as int], s);
        if i >= 0 {
            let item = t[j as int][i].1;
            if has_key(item, c) {
                binary_digits(item_code(item, c) as nat)
            } else {
                binary_digits(item_code(item, RO) as nat) + encode_bits(
                    p,
                    (j - 1) as nat,
                    c,
                    exclude(t, s, item, j),
                )
            }
        } else {
            encode_bits(p, (j - 1) as nat, c, t)
        }
    }
}

/// `encode_bits` runs without a failed lookup or search: every level visited
/// exists, level zero holds the empty context, every context used can code `c`
/// or the escape, and the counts fit.
pub open spec fn encoder_defined(p: Seq<char>, j: nat, c: char, t: TableView) -> bool
    decreases j,
{
    &&& j < t.len()
    &&& j <= p.len()
    &&& if j == 0 {
        let i = ctx_index(t[0], Seq::empty());
        let t0 = t[0][i].1;
        &&& i >= 0
        &&& usage_sum(t0) <= usize::MAX
        &&& (t0.len() == 0 || has_key(t0, c) || has_key(t0, RO))
    } else {
        let s = suffix(p, j);
        let i = ctx_index(t[j as int], s);
        if i >= 0 {
            let item = t[j as int][i].1;
            &&& usage_sum(item) <= usize::MAX
            &&& if has_key(item, c) {
                true
            } else {
                &&& has_key(item, RO)
                &&& exclude_defined(t, s, item, j)
                &&& encoder_defined(p, (j - 1) as nat, c, exclude(t, s, item, j))
            }
        } else {
            encoder_defined(p, (j - 1) as nat, c, t)
        }
    }
}

/// A symbol with an entry is found in the context's code tree.
pub proof fn lemma_item_code_found(s: ItemView, c: char)
    requires
        has_key(s, c),
    ensures
        s.len() > 0,
        search_code(item_tree(s), c, 0) is Some,
{
    let k = choose|k: int| 0 <= k < s.len() && #[trigger] s[k].0 == c;
    let leaves = item_leaves(s);
    assert(has_symbol(leaves[k], c));
    assert(list_has_symbol(leaves, c));
    lemma_build_symbols(leaves, c);
    lemma_search_finds(item_tree(s), c, 0);
}

/// Writes the code of `c` in the tree of `item`.
fn write_code(item: &ContextItem, c: char, writer: &mut Writer)
    requires
        has_key(item@, c),
        usage_sum(item@) <= usize::MAX,
        old(writer).wf(),
    ensures
        final(writer).wf(),
        final(writer).written() == old(writer).written() + binary_digits(item_code(item@, c) as nat),
{
    proof {
        lemma_item_code_found(item@, c);
    }
    let tree = create_tree(item);
    let code = BinaryTree::search(tree.get_root(), c).unwrap();
    writer.write(code, false);
}

/// The bits written for `c` after the phrase `frase`, walked as the encoder
/// walks it, with phrase lengths counted in bytes of their UTF-8 encoding:
/// while the phrase is shorter than `k`, `k` goes down; while it is longer, it
/// loses its first symbol; at the level of its length a known context writes
/// the code of `c`, or the escape's code followed by what the walk one level
/// down writes, with the phrase less its first symbol and the context's
/// symbols excluded; an unknown context writes nothing and the walk goes one
/// level down. At level zero it writes as `encode_bits` does.
pub open spec fn encode_walk(frase: Seq<char>, k: nat, c: char, t: TableView) -> Seq<u8>
    decreases frase.len() + k,
{
    proof {
        lemma_utf8_len_facts(frase);
    }
    let n = utf8_len(frase);
    if n < k {
        encode_walk(frase, (k - 1) as nat, c, t)
    } else if n == k && k != 0 {
        let i = ctx_index(t[k as int], frase);
        if i >= 0 {
            let item = t[k as int][i].1;
            if has_key(item, c) {
                binary_digits(item_code(item, c) as nat)
            } else {
                binary_digits(item_code(item, RO) as nat) + encode_walk(
                    frase.drop_first(),
                    (k - 1) as nat,
                    c,
                    exclude(t, frase, item, k),
                )
            }
        } else {
            encode_walk(frase.drop_first(), (k - 1) as nat, c, t)
        }
    } else if n > k {
        encode_walk(frase.drop_first(), k, c, t)
    } else {
        encode_bits(frase, 0, c, t)
    }
}

/// `encode_walk` runs without a failed lookup or search, and a phrase that
/// loses its first symbol has one of a single byte.
pub open spec fn encode_walk_defined(frase: Seq<char>, k: nat, c: char, t: TableView) -> bool
    decreases frase.len() + k,
{
    proof {
        lemma_utf8_len_facts(frase);
    }
    let n = utf8_len(frase);
    if n < k {
        encode_walk_defined(frase, (k - 1) as nat, c, t)
    } else if n == k && k != 0 {
        let i = ctx_index(t[k as int], frase);
        &&& k < t.len()
        &&& if i >= 0 {
            let item = t[k as int][i].1;
            &&& usage_sum(item) <= usize::MAX
            &&& if has_key(item, c) {
                true
            } else {
                &&& has_key(item, RO)
                &&& (frase[0] as u32) < 128
                &&& exclude_defined(t, frase, item, k)
                &&& encode_walk_defined(frase.drop_first(), (k - 1) as nat, c, exclude(t, frase, item, k))
            }
        } else {
            &&& (frase[0] as u32) < 128
            &&& encode_walk_defined(frase.drop_first(), (k - 1) as nat, c, t)
        }
    } else if n > k {
        &&& (frase[0] as u32) < 128
        &&& encode_walk_defined(frase.drop_first(), k, c, t)
    } else {
        encoder_defined(frase, 0, c, t)
    }
}

/// For an ASCII phrase the encoder's walk writes what `encode_bits` says from
/// the level of the phrase's length (at most `k`), and is defined exactly when
/// `encoder_defined` says.
pub proof fn lemma_encode_walk_ascii(frase: Seq<char>, k: nat, c: char, t: TableView)
    requires
        forall|i: int| 0 <= i < frase.len() ==> (#[trigger] frase[i] as u32) < 128,
    ensures
        encode_walk(frase, k, c, t) == encode_bits(frase, start_level(frase.len(), k), c, t),
        encode_walk_defined(frase, k, c, t) == encoder_defined(frase, start_level(frase.len(), k), c, t),
    decreases frase.len() + k,
{
    crate::huffman::utils::lemma_ascii_utf8_len(frase);
    lemma_utf8_len_facts(frase);
    let n = frase.len();
    if n < k {
        lemma_encode_walk_ascii(frase, (k - 1) as nat, c, t);
    } else if n == 0 && k == 0 {
    } else {
        let rest = frase.drop_first();
        assert forall|i: int| 0 <= i < rest.len() implies (#[trigger] rest[i] as u32) < 128 by {
            assert(rest[i] == frase[i + 1]);
        }
        assert((frase[0] as u32) < 128);
        if n == k {
            assert(suffix(frase, k) =~= frase);
            assert(suffix(frase, (k - 1) as nat) =~= suffix(rest, (k - 1) as nat));
            let i = ctx_index(t[k as int], frase);
            if i >= 0 {
                let t1 = exclude(t, frase, t[k as int][i].1, k);
                lemma_encode_walk_ascii(rest, (k - 1) as nat, c, t1);
                lemma_encode_suffix(frase, rest, (k - 1) as nat, c, t1);
            }
            lemma_encode_walk_ascii(rest, (k - 1) as nat, c, t);
            lemma_encode_suffix(frase, rest, (k - 1) as nat, c, t);
        } else {
            assert(suffix(frase, k) =~= suffix(rest, k));
            lemma_encode_walk_ascii(rest, k, c, t);
            lemma_encode_suffix(frase, rest, k, c, t);
        }
    }
}

/// The digits of the path to the escape in the code tree of a context.
pub open spec fn escape_digits(item: ItemView) -> Seq<u8> {
    binary_digits(search_code(item_tree(item), RO, 0)->0 as nat)
}

/// Whether `a` is a prefix of `b`.
pub open spec fn bits_prefix(a: Seq<u8>, b: Seq<u8>) -> bool {
    a.len() <= b.len() && b.subrange(0, a.len() as int) == a
}

/// A letter coded at a known context (above level zero) that lacks it is
/// preceded by the escape: the bits begin with the path to the escape in
/// that context's code tree.
pub proof fn lemma_escape_first(p: Seq<char>, j: nat, c: char, t: TableView)
    requires
        j >= 1,
        ctx_index(t[j as int], suffix(p, j)) >= 0,
        !has_key(t[j as int][ctx_index(t[j as int], suffix(p, j))].1, c),
    ensures
        bits_prefix(escape_digits(t[j as int][ctx_index(t[j as int], suffix(p, j))].1), encode_bits(p, j, c, t)),
{
    let item = t[j as int][ctx_index(t[j as int], suffix(p, j))].1;
    let e = escape_digits(item);
    let rest = encode_bits(p, (j - 1) as nat, c, exclude(t, suffix(p, j), item, j));
    assert(encode_bits(p, j, c, t) == e + rest);
    assert((e + rest).subrange(0, e.len() as int) =~= e);
}

/// A letter new to a non-empty empty context is written as the path to the
/// escape in its code tree followed by the eight digits of the letter's
/// byte.
pub proof fn lemma_escape_then_byte(p: Seq<char>, c: char, t: TableView)
    requires
        t[0][ctx_index(t[0], Seq::empty())].1.len() > 0,
        !has_key(t[0][ctx_index(t[0], Seq::empty())].1, c),
    ensures
        encode_bits(p, 0, c, t) == escape_digits(t[0][ctx_index(t[0], Seq::<char>::empty())].1) + byte_digits(c as u8),
{
}

/// The encoder's walk, at a phrase as long as its level (counted in bytes)
/// whose known context lacks the letter, begins with the path to the escape
/// in that context's code tree.
pub proof fn lemma_walk_escape_first(frase: Seq<char>, k: nat, c: char, t: TableView)
    requires
        k >= 1,
        utf8_len(frase) == k,
        ctx_index(t[k as int], frase) >= 0,
        !has_key(t[k as int][ctx_index(t[k as int], frase)].1, c),
    ensures
        bits_prefix(escape_digits(t[k as int][ctx_index(t[k as int], frase)].1), encode_walk(frase, k, c, t)),
{
    let item = t[k as int][ctx_index(t[k as int], frase)].1;
    let e = escape_digits(item);
    let rest = encode_walk(frase.drop_first(), (k - 1) as nat, c, exclude(t, frase, item, k));
    assert(encode_walk(frase, k, c, t) == e + rest);
    assert((e + rest).subrange(0, e.len() as int) =~= e);
}

/// Writes the bits of `input` after the phrase `frase`, starting from level
/// `k` (see `encode_walk`).
fn encoder(frase: &Vec<char>, k: usize, input: char, tables: &ContextTable, writer: &mut Writer)
    requires
        encode_walk_defined(frase@, k as nat, input, tables@),
        (input as u32) < 128,
        old(writer).wf(),
    ensures
        final(writer).wf(),
        final(writer).written() == old(writer).written() + encode_walk(frase@, k as nat, input, tables@),
    decreases frase@.len() + k,
{
    let ghost w0 = writer.written();
    let n = utf8_length(frase);
    proof {
        lemma_utf8_len_facts(frase@);
    }
    if n < k as u128 {
        encoder(frase, k - 1, input, tables, writer);
    } else if n == k as u128 && k != 0 {
        match tables.find(k, frase) {
            Some(i) => {
                proof {
                    lemma_ctx_index(tables@[k as int], frase@);
                }
                let item = tables.item(k, i);
                if item.contains_key(input) {
                    write_code(item, input, writer);
                } else {
                    write_code(item, RO, writer);
                    let excluded = exclusion_table(tables, (frase, item), k).unwrap();
                    let rest = drop_first_char(frase);
                    encoder(&rest, k - 1, input, &excluded, writer);
                    proof {
                        assert(writer.written() =~= w0 + encode_walk(frase@, k as nat, input, tables@));
                    }
                }
            },
            None => {
                let rest = drop_first_char(frase);
                encoder(&rest, k - 1, input, tables, writer);
            },
        }
    } else if n > k as u128 {
        let rest = drop_first_char(frase);
        encoder(&rest, k, input, tables, writer);
    } else {
        let empty: Vec<char> = Vec::new();
        proof {
            assert(empty@ =~= Seq::<char>::empty());
        }
        let i = tables.find(0, &empty).unwrap();
        proof {
            lemma_ctx_index(tables@[0], empty@);
        }
        let t0 = tables.item(0, i);
        if t0.len() == 0 {
            writer.write(input as u8, true);
        } else if t0.contains_key(input) {
            write_code(t0, input, writer);
        } else {
            write_code(t0, RO, writer);
            writer.write(input as u8, true);
            proof {
                assert(writer.written() =~= w0 + encode_bits(frase@, 0, input, tables@));
            }
        }
    }
}

/// The encoder reads the context only through its last `j` symbols.
pub proof fn lemma_encode_suffix(p: Seq<char>, q: Seq<char>, j: nat, c: char, t: TableView)
    requires
        j <= p.len(),
        j <= q.len(),
        suffix(p, j) == suffix(q, j),
    ensures
        encode_bits(p, j, c, t) == encode_bits(q, j, c, t),
        encoder_defined(p, j, c, t) == encoder_defined(q, j, c, t),
    decreases j,
{
    if j > 0 {
        assert(suffix(p, (j - 1) as nat) =~= suffix(p, j).drop_first());
        assert(suffix(q, (j - 1) as nat) =~= suffix(q, j).drop_first());
        let s = suffix(p, j);
        let i = ctx_index(t[j as int], s);
        if i >= 0 {
            let item = t[j as int][i].1;
            lemma_encode_suffix(p, q, (j - 1) as nat, c, exclude(t, s, item, j));
        } else {
            lemma_encode_suffix(p, q, (j - 1) as nat, c, t);
        }
    }
}

/// What the encoder needs from the model from level `j` down: the levels
/// exist, level zero holds the empty context, usage sums fit, contexts are
/// closed under suffixes, and level zero can code `c` (or escape it, or is
/// empty).
pub open spec fn encodable(t: TableView, j: nat, c: char) -> bool {
    &&& j < t.len()
    &&& ctx_index(t[0], Seq::empty()) >= 0
    &&& forall|l: int, i: int| 0 <= l <= j && 0 <= i < t[l].len() ==> usage_sum(#[trigger] t[l][i].1) <= usize::MAX
    &&& forall|l: int, i: int| 1 <= l <= j && 0 <= i < t[l].len() ==> #[trigger] suffix_closed(t, l, i)
    &&& (t0_item(t).len() == 0 || has_key(t0_item(t), c) || has_key(t0_item(t), RO))
}

/// Excluding the symbols of a context that lacks `c` from the context below
/// keeps the model encodable from that level on.
proof fn lemma_exclude_encodable(t: TableView, j: nat, c: char, s: Seq<char>, i: int)
    requires
        encodable(t, j, c),
        j >= 1,
        0 <= i < t[j as int].len(),
        t[j as int][i].0 == s,
        s.len() == j,
        !has_key(t[j as int][i].1, c),
    ensures
        exclude_defined(t, s, t[j as int][i].1, j),
        encodable(exclude(t, s, t[j as int][i].1, j), (j - 1) as nat, c),
{
    let item = t[j as int][i].1;
    assert(suffix_closed(t, j as int, i));
    let pi = ctx_index(t[j - 1], s.drop_first());
    lemma_ctx_index(t[j - 1], s.drop_first());
    let low = t[j - 1][pi].1;
    lemma_without(low, item);
    assert(usage_sum(low) <= usize::MAX);
    let low2 = retotal(without(low, item));
    lemma_retotal(without(low, item));
    let t2 = exclude(t, s, item, j);
    assert(t2 == set_item(t, j - 1, pi, low2));
    assert forall|x: Seq<char>| #[trigger] ctx_index(t2[j - 1], x) == ctx_index(t[j - 1], x) by {
        lemma_ctx_index_same_phrases(t[j - 1], t2[j - 1], x);
    }
    assert(ctx_index(t2[0], Seq::empty()) == ctx_index(t[0], Seq::empty()));
    assert forall|x: char| #[trigger] has_key(low2, x) <==> (has_key(low, x) && !(has_key(item, x) && x != RO)) by {
        assert(has_key(low2, x) == has_key(without(low, item), x));
    }
    assert forall|l: int, i2: int| 0 <= l <= j - 1 && 0 <= i2 < t2[l].len() implies usage_sum(#[trigger] t2[l][i2].1) <= usize::MAX by {
        if l == j - 1 && i2 == pi {
        } else {
            assert(t2[l][i2] == t[l][i2]);
        }
    }
    assert forall|l: int, i2: int| 1 <= l <= j - 1 && 0 <= i2 < t2[l].len() implies #[trigger] suffix_closed(t2, l, i2) by {
        assert(suffix_closed(t, l, i2));
        assert(t2[l - 1] == t[l - 1]);
        if l == j - 1 && i2 == pi {
            let qi = ctx_index(t[l - 1], t[l][i2].0.drop_first());
            assert(t2[l][i2].0 == t[l][i2].0);
            assert forall|x: char| #[trigger] has_key(t2[l][i2].1, x) && x != RO implies has_key(t2[l - 1][qi].1, x) by {
                assert(has_key(low, x));
            }
            assert(has_key(low, RO));
            assert(has_key(low2, RO));
        } else {
            assert(t2[l][i2] == t[l][i2]);
        }
    }
    if j - 1 == 0 {
        assert(s.drop_first() =~= Seq::<char>::empty());
        assert(t0_item(t) == low);
        assert(t0_item(t2) == low2);
        if low.len() == 0 {
            assert(without(low, item).len() == 0);
        }
    } else {
        assert(t2[0] == t[0]);
    }
}

/// An encodable model can code `c` after any context of at least `j` symbols.
pub proof fn lemma_encodable_defined(p: Seq<char>, j: nat, c: char, t: TableView)
    requires
        encodable(t, j, c),
        j <= p.len(),
    ensures
        encoder_defined(p, j, c, t),
    decreases j,
{
    if j > 0 {
        let s = suffix(p, j);
        let i = ctx_index(t[j as int], s);
        lemma_ctx_index(t[j as int], s);
        if i >= 0 {
            let item = t[j as int][i].1;
            assert(usage_sum(t[j as int][i].1) <= usize::MAX);
            if !has_key(item, c) {
                assert(suffix_closed(t, j as int, i));
                assert(s.len() == j);
                lemma_exclude_encodable(t, j, c, s, i);
                lemma_encodable_defined(p, (j - 1) as nat, c, exclude(t, s, item, j));
            }
        } else {
            lemma_encodable_defined(p, (j - 1) as nat, c, t);
        }
    } else {
        let i = ctx_index(t[0], Seq::empty());
        lemma_ctx_index(t[0], Seq::empty());
        assert(usage_sum(t[0][i].1) <= usize::MAX);
    }
}

/// The entries without the one for `x`.
pub open spec fn remove_key(s: ItemView, x: char) -> ItemView {
    s.remove(key_index(s, x))
}

/// Once every letter has been seen, the escape leaves the empty context.
pub open spec fn drop_escape(t: TableView, u: Seq<char>) -> TableView {
    let i = ctx_index(t[0], Seq::empty());
    let t0 = t[0][i].1;
    if u.len() == 0 && has_key(t0, RO) {
        set_item(t, 0, i, retotal(remove_key(t0, RO)))
    } else {
        t
    }
}

/// `drop_escape` finds what it needs.
pub open spec fn drop_escape_defined(t: TableView, u: Seq<char>) -> bool {
    let i = ctx_index(t[0], Seq::empty());
    u.len() == 0 ==> {
        &&& t.len() > 0
        &&& i >= 0
        &&& has_key(t[0][i].1, RO) ==> usage_sum(remove_key(t[0][i].1, RO)) <= usize::MAX
    }
}

/// The model before the first letter: `kk + 1` levels, level zero holding the
/// empty context with no entries.
pub open spec fn initial_table(kk: nat) -> TableView {
    Seq::new(
        kk + 1,
        |j: int|
            if j == 0 {
                seq![(Seq::<char>::empty(), Seq::<(char, crate::huffman::huffman_token::Token)>::empty())]
            } else {
                Seq::<(Seq<char>, ItemView)>::empty()
            },
    )
}

/// The context after `c`: `c` appended, the first symbol dropped once `max`
/// are held.
pub open spec fn next_context(ctx: Seq<char>, c: char, max: nat) -> Seq<char> {
    if ctx.len() < max {
        ctx.push(c)
    } else {
        ctx.drop_first().push(c)
    }
}

/// The state of the encoder after the given letters: model, unseen letters,
/// context and the bits written so far.
pub open spec fn ppm_run(input: Seq<char>, kk: nat) -> (TableView, Seq<char>, Seq<char>, Seq<u8>)
    decreases input.len(),
{
    if input.len() == 0 {
        (initial_table(kk), alphabet(), Seq::empty(), Seq::empty())
    } else {
        let prev = ppm_run(input.drop_last(), kk);
        let c = input.last();
        let t1 = drop_escape(prev.0, prev.1);
        let m = start_level(prev.2.len(), kk);
        let learnt = learn(prev.2, m, c, t1, prev.1);
        (learnt.0, learnt.1, next_context(prev.2, c, kk), prev.3 + encode_bits(prev.2, m, c, t1))
    }
}

/// The encoder runs through the whole input without a failed lookup or an
/// overflow (the letters must be ASCII, and a context is kept only when
/// `kk` is at least one).
pub open spec fn ppm_defined(input: Seq<char>, kk: nat) -> bool
    decreases input.len(),
{
    if input.len() == 0 {
        true
    } else {
        let prev = ppm_run(input.drop_last(), kk);
        let c = input.last();
        let t1 = drop_escape(prev.0, prev.1);
        let m = start_level(prev.2.len(), kk);
        &&& ppm_defined(input.drop_last(), kk)
        &&& (c as u32) < 128
        &&& drop_escape_defined(prev.0, prev.1)
        &&& encoder_defined(prev.2, m, c, t1)
        &&& learn_defined(prev.2, m, c, t1, prev.1)
        &&& (prev.2.len() < kk || prev.2.len() >= 1)
    }
}

/// Groups bits into bytes, most significant first; a last group of fewer than
/// eight bits becomes a byte holding their value.
pub open spec fn pack_bits(bits: Seq<u8>) -> Seq<u8>
    decreases bits.len(),
{
    if bits.len() == 0 {
        seq![]
    } else if bits.len() <= 8 {
        seq![bits_value(bits) as u8]
    } else {
        seq![bits_value(bits.take(8)) as u8] + pack_bits(bits.skip(8))
    }
}

/// The bytes the PPM encoder produces for `input` with contexts of up to
/// `kk` letters.
pub open spec fn ppm_code(input: Seq<char>, kk: nat) -> Seq<u8> {
    pack_bits(ppm_run(input, kk).3)
}

pub proof fn lemma_ppm_defined_prefix(input: Seq<char>, kk: nat, n: int)
    requires
        ppm_defined(input, kk),
        0 <= n <= input.len(),
    ensures
        ppm_defined(input.take(n), kk),
    decreases input.len() - n,
{
    if n < input.len() {
        assert(input.take(n + 1).drop_last() =~= input.take(n));
        lemma_ppm_defined_prefix(input, kk, n + 1);
    } else {
        assert(input.take(n) =~= input);
    }
}

/// The bytes emitted so far, plus the pending bits as one last byte, are the
/// packing of every bit written.
pub proof fn lemma_pack_written(emitted: Seq<u8>, pending: Seq<u8>)
    requires
        pending.len() < 8,
        is_bit_seq(pending),
    ensures
        emitted + (if pending.len() == 0 {
            Seq::<u8>::empty()
        } else {
            seq![bits_value(pending) as u8]
        }) =~= pack_bits(bytes_bits(emitted) + pending),
    decreases emitted.len(),
{
    lemma_bytes_bits(emitted);
    if emitted.len() == 0 {
        assert(bytes_bits(emitted) + pending =~= pending);
    } else {
        let e = emitted[0];
        let rest = emitted.drop_first();
        lemma_pack_written(rest, pending);
        lemma_bytes_bits_first(emitted);
        lemma_byte_digits_value(e);
        lemma_bytes_bits(rest);
        let all = bytes_bits(emitted) + pending;
        assert(all =~= byte_digits(e) + (bytes_bits(rest) + pending));
        assert(all.take(8) =~= byte_digits(e));
        assert(all.skip(8) =~= bytes_bits(rest) + pending);
        if all.len() <= 8 {
            assert(bytes_bits(rest) + pending =~= Seq::<u8>::empty());
            assert(rest.len() == 0);
            assert(all =~= byte_digits(e));
        }
    }
}

pub proof fn lemma_bytes_bits_first(bytes: Seq<u8>)
    requires
        bytes.len() > 0,
    ensures
        bytes_bits(bytes) =~= byte_digits(bytes[0]) + bytes_bits(bytes.drop_first()),
    decreases bytes.len(),
{
    if bytes.len() > 1 {
        lemma_bytes_bits_first(bytes.drop_last());
        assert(bytes.drop_last().drop_first() =~= bytes.drop_first().drop_last());
    } else {
        assert(bytes.drop_first() =~= Seq::<u8>::empty());
        assert(bytes.drop_last() =~= Seq::<u8>::empty());
    }
}

/// Takes the escape out of the empty context once every letter was seen.
fn drop_escape_exec(tables: &mut ContextTable, unseen: &Vec<char>)
    requires
        drop_escape_defined(old(tables)@, unseen@),
    ensures
        final(tables)@ == drop_escape(old(tables)@, unseen@),
{
    if unseen.len() == 0 {
        let empty: Vec<char> = Vec::new();
        proof {
            assert(empty@ =~= Seq::<char>::empty());
        }
        let i = tables.find(0, &empty).unwrap();
        proof {
            lemma_ctx_index(tables@[0], empty@);
        }
        if tables.item(0, i).contains_key(RO) {
            let mut t0 = tables.item(0, i).copy();
            proof {
                lemma_key_index(t0@, RO);
            }
            let k = t0.find(RO).unwrap();
            t0.entries.remove(k);
            update_totals(&mut t0);
            tables.set_item(0, i, t0);
        }
    }
}

/// The model before the first letter.
pub(crate) fn initial_tables(kk: usize) -> (tables: ContextTable)
    requires
        kk < usize::MAX,
    ensures
        tables@ == initial_table(kk as nat),
{
    let mut levels: Vec<ContextNode> = Vec::new();
    let mut i: usize = 0;
    while i < kk + 1
        invariant
            i <= kk + 1,
            kk < usize::MAX,
            levels@.len() == i,
            forall|j: int| 0 <= j < i ==> #[trigger] levels@[j]@ == initial_table(kk as nat)[j],
        decreases kk + 1 - i,
    {
        let mut node = ContextNode::new();
        if i == 0 {
            node.contexts.push((Vec::new(), ContextItem::new()));
            proof {
                assert(node@ =~= initial_table(kk as nat)[0]);
            }
        } else {
            proof {
                assert(node@ =~= initial_table(kk as nat)[i as int]);
            }
        }
        levels.push(node);
        i = i + 1;
    }
    let tables = ContextTable { levels };
    proof {
        assert(tables@ =~= initial_table(kk as nat));
    }
    tables
}

/// Codes `input` letter by letter with contexts of up to `contexts_number`
/// letters and returns the bytes written (see `ppm_code`). Every letter
/// seen for the first time is written as its byte after the escape.
pub fn ppm_impl(input: &String, contexts_number: usize) -> (bytes: Vec<u8>)
    requires
        ppm_defined(input@, contexts_number as nat),
        contexts_number < usize::MAX,
    ensures
        bytes@ == ppm_code(input@, contexts_number as nat),
{
    let chars = chars_of(input);
    let kk = contexts_number;
    let mut context_tables = initial_tables(kk);
    let mut context: Vec<char> = Vec::new();
    let mut writer = Writer::new();
    let mut unseen = alphabet_vec();
    let mut idx: usize = 0;
    proof {
        assert(chars@.take(0) =~= Seq::<char>::empty());
        assert(writer.written() =~= Seq::<u8>::empty()) by {
            lemma_bytes_bits(writer.emitted());
        }
    }
    while idx < chars.len()
        invariant
            idx <= chars.len(),
            chars@ == input@,
            ppm_defined(input@, kk as nat),
            writer.wf(),
            ({
                let st = ppm_run(chars@.take(idx as int), kk as nat);
                &&& context_tables@ == st.0
                &&& unseen@ == st.1
                &&& context@ == st.2
                &&& writer.written() == st.3
            }),
            forall|i: int| 0 <= i < context@.len() ==> (context@[i] as u32) < 128,
            context@.len() <= idx,
        decreases chars.len() - idx,
    {
        let c = chars[idx];
        let ghost prefix = chars@.take(idx + 1);
        proof {
            assert(prefix.drop_last() =~= chars@.take(idx as int));
            lemma_ppm_defined_prefix(input@, kk as nat, idx + 1);
        }
        drop_escape_exec(&mut context_tables, &unseen);
        proof {
            lemma_encode_walk_ascii(context@, kk as nat, c, context_tables@);
        }
        encoder(&context, kk, c, &context_tables, &mut writer);
        proof {
            crate::huffman::utils::lemma_walk_ascii(context@, kk as nat, c, context_tables@, unseen@);
        }
        update_tables(&context, kk, c, &mut context_tables, &mut unseen);
        let ghost old_context = context@;
        proof {
            crate::huffman::utils::lemma_ascii_utf8_len(context@);
        }
        update_context(&mut context, c, kk);
        proof {
            assert forall|i: int| 0 <= i < context@.len() implies (context@[i] as u32) < 128 by {
                if i < context@.len() - 1 {
                    if old_context.len() < kk {
                        assert(context@[i] == old_context[i]);
                    } else {
                        assert(context@[i] == old_context[i + 1]);
                    }
                }
            }
        }
        idx = idx + 1;
    }
    proof {
        assert(chars@.take(idx as int) =~= input@);
    }
    let ghost before = writer;
    writer.flush();
    proof {
        lemma_pack_written(before.emitted(), before.pending());
    }
    let bytes = writer.output();
    copy_bytes(bytes)
}

/// Whether every character of `input` is a letter from `a` to `z` (and the
/// text is short enough for the counts to fit); the coder is then defined on
/// it with any context length from one up.
pub fn ppm_encodable(input: &String, contexts_number: usize) -> (b: bool)
    ensures
        b == (1 <= contexts_number < usize::MAX && (forall|i: int| 0 <= i < input@.len() ==> is_letter(
            #[trigger] input@[i],
        )) && 2 * input@.len() + 2 <= usize::MAX),
        b ==> ppm_defined(input@, contexts_number as nat),
{
    if contexts_number == 0 || contexts_number == usize::MAX {
        return false;
    }
    let chars = chars_of(input);
    if chars.len() > (usize::MAX - 2) / 2 {
        return false;
    }
    let mut i: usize = 0;
    while i < chars.len()
        invariant
            i <= chars.len(),
            chars@ == input@,
            forall|q: int| 0 <= q < i ==> is_letter(#[trigger] input@[q]),
        decreases chars.len() - i,
    {
        let c = chars[i];
        if !('a' <= c && c <= 'z') {
            return false;
        }
        i = i + 1;
    }
    proof {
        lemma_letters_encodable(input@, contexts_number as nat);
    }
    true
}

pub fn copy_bytes(b: &Vec<u8>) -> (r: Vec<u8>)
    ensures
        r@ == b@,
{
    let mut r: Vec<u8> = Vec::new();
    let mut i: usize = 0;
    while i < b.len()
        invariant
            i <= b.len(),
            r@ =~= b@.take(i as int),
        decreases b.len() - i,
    {
        r.push(b[i]);
        proof {
            assert(b@.take(i + 1) =~= b@.take(i as int).push(b@[i as int]));
        }
        i = i + 1;
    }
    proof {
        assert(b@.take(i as int) =~= b@);
    }
    r
}

/// Removing an entry keeps the order and does not raise the sum.
proof fn lemma_remove_entry(s: ItemView, k: int)
    requires
        0 <= k < s.len(),
    ensures
        usage_sum(s.remove(k)) <= usage_sum(s),
        sorted_keys(s) ==> sorted_keys(s.remove(k)),
        forall|x: char| #[trigger] has_key(s.remove(k), x) ==> has_key(s, x),
        forall|x: char| has_key(s, x) && x != s[k].0 ==> #[trigger] has_key(s.remove(k), x),
{
    let r = s.remove(k);
    assert(r.insert(k, s[k]) =~= s);
    lemma_usage_sum_insert(r, k, s[k]);
    lemma_usage_sum_nonneg(r);
    assert forall|x: char| #[trigger] has_key(r, x) implies has_key(s, x) by {
        let i = choose|i: int| 0 <= i < r.len() && #[trigger] r[i].0 == x;
        if i < k {
            assert(s[i].0 == x);
        } else {
            assert(s[i + 1].0 == x);
        }
    }
    assert forall|x: char| has_key(s, x) && x != s[k].0 implies #[trigger] has_key(r, x) by {
        let i = choose|i: int| 0 <= i < s.len() && #[trigger] s[i].0 == x;
        if i < k {
            assert(r[i].0 == x);
        } else {
            assert(r[i - 1].0 == x);
        }
    }
    if sorted_keys(s) {
        assert forall|a: int, b: int| 0 <= a < b < r.len() implies (r[a].0 as u32) < (r[b].0 as u32) by {
            if b < k {
            } else if a < k {
                assert(r[b] == s[b + 1]);
            } else {
                assert(r[a] == s[a + 1]);
                assert(r[b] == s[b + 1]);
            }
        }
    }
}

/// Dropping the escape keeps the model's invariant.
proof fn lemma_drop_escape_model(t: TableView, u: Seq<char>, kk: nat, bound: nat)
    requires
        model_ok(t, u, kk, bound),
        bound <= usize::MAX,
    ensures
        drop_escape_defined(t, u),
        model_ok(drop_escape(t, u), u, kk, bound),
        u.len() > 0 ==> drop_escape(t, u) == t,
{
    let i = ctx_index(t[0], Seq::empty());
    lemma_ctx_index(t[0], Seq::empty());
    let t0 = t[0][i].1;
    assert(level_ok(t, 0, bound));
    assert(0 <= i < t[0].len());
    assert(t[0][i].0.len() == 0);
    assert(item_ok(t0, bound));
    if u.len() == 0 && has_key(t0, RO) {
        lemma_key_index(t0, RO);
        let k = key_index(t0, RO);
        lemma_remove_entry(t0, k);
        let r = remove_key(t0, RO);
        let t02 = retotal(r);
        lemma_retotal(r);
        let t2 = set_item(t, 0, i, t02);
        assert forall|x: Seq<char>| #[trigger] ctx_index(t2[0], x) == ctx_index(t[0], x) by {
            lemma_ctx_index_same_phrases(t[0], t2[0], x);
        }
        assert(t0_item(t2) == t02);
        assert forall|a: int| 0 <= a < t02.len() implies is_symbol(#[trigger] t02[a].0) by {
            assert(has_key(t02, t02[a].0));
            assert(has_key(t0, t02[a].0));
            let b = choose|b: int| 0 <= b < t0.len() && #[trigger] t0[b].0 == t02[a].0;
            assert(is_symbol(t0[b].0));
        }
        assert(item_ok(t02, bound));
        assert forall|l: int| 0 <= l <= kk implies #[trigger] level_ok(t2, l, bound) by {
            assert(level_ok(t, l, bound));
            if l == 0 {
                assert forall|i2: int| 0 <= i2 < t2[l].len() implies #[trigger] t2[l][i2].0.len() == l && item_ok(
                    t2[l][i2].1,
                    bound,
                ) by {
                    if i2 != i {
                        assert(t2[l][i2] == t[l][i2]);
                    } else {
                        assert(t2[l][i2].0 == t[l][i2].0);
                    }
                }
            }
        }
        assert forall|l: int, i2: int| 1 <= l <= kk && 0 <= i2 < t2[l].len() implies #[trigger] suffix_closed(t2, l, i2) by {
            assert(suffix_closed(t, l, i2));
            assert(t2[l] == t[l]);
            let pi = ctx_index(t[l - 1], t[l][i2].0.drop_first());
            lemma_ctx_index(t[l - 1], t[l][i2].0.drop_first());
            assert forall|x: char| #[trigger] has_key(t2[l][i2].1, x) && x != RO implies has_key(t2[l - 1][pi].1, x) by {
                assert(has_key(t[l - 1][pi].1, x));
                if l == 1 && pi == i {
                    assert(has_key(r, x));
                }
            }
        }
        assert forall|x: char| is_letter(x) implies (u.contains(x) <==> !has_key(t02, x)) by {
            assert(x != RO);
            if has_key(t0, x) {
                assert(has_key(r, x));
            }
        }
    }
}

/// Level zero of a well-kept model can code a letter, escape it, or is empty.
proof fn lemma_model_encodable(t: TableView, u: Seq<char>, kk: nat, bound: nat, j: nat, c: char)
    requires
        model_ok(t, u, kk, bound),
        bound <= usize::MAX,
        j <= kk,
        is_letter(c),
    ensures
        encodable(drop_escape(t, u), j, c),
{
    lemma_drop_escape_model(t, u, kk, bound);
    let t1 = drop_escape(t, u);
    assert forall|l: int, i: int| 0 <= l <= j && 0 <= i < t1[l].len() implies usage_sum(#[trigger] t1[l][i].1) <= usize::MAX by {
        assert(level_ok(t1, l, bound));
        assert(t1[l][i].0.len() == l && item_ok(t1[l][i].1, bound));
    }
    if !has_key(t0_item(t1), c) && t0_item(t1).len() > 0 {
        if u.len() == 0 {
            assert(!u.contains(c));
        }
        assert(t1 == t);
    }
}

/// The encoder never fails on lower-case letters: for an input of letters `a`
/// to `z` (with contexts of at least one letter, and counts that fit in a
/// `usize`) every step finds what it looks up, and the model stays well kept:
/// its contexts are in symbol order, closed under suffixes, and the unseen
/// letters are exactly those level zero lacks.
pub proof fn lemma_letters_encodable(input: Seq<char>, kk: nat)
    requires
        forall|i: int| 0 <= i < input.len() ==> is_letter(#[trigger] input[i]),
        kk >= 1 || input.len() == 0,
        2 * input.len() + 2 <= usize::MAX,
    ensures
        ppm_defined(input, kk),
        model_ok(ppm_run(input, kk).0, ppm_run(input, kk).1, kk, 2 * input.len()),
        ppm_run(input, kk).2.len() <= kk,
    decreases input.len(),
{
    if input.len() == 0 {
        let t = initial_table(kk);
        assert(ctx_index(t[0], Seq::empty()) == 0);
        let empty = Seq::<(char, crate::huffman::huffman_token::Token)>::empty();
        assert(t0_item(t) == empty);
        assert(usage_sum(empty) == 0);
        assert forall|j: int| 0 <= j <= kk implies #[trigger] level_ok(t, j, 0) by {}
        assert forall|x: char| is_letter(x) implies (alphabet().contains(x) <==> !has_key(empty, x)) by {
            if is_letter(x) {
                let k = (x as u32 - 97) as int;
                assert(alphabet()[k] == x);
            }
        }
        assert forall|a: int, b: int| 0 <= a < b < alphabet().len() implies (alphabet()[a] as u32) < (alphabet()[b] as u32) by {}
    } else {
        let prev_in = input.drop_last();
        lemma_letters_encodable(prev_in, kk);
        let prev = ppm_run(prev_in, kk);
        let c = input.last();
        let b = 2 * prev_in.len();
        lemma_drop_escape_model(prev.0, prev.1, kk, b as nat);
        let t1 = drop_escape(prev.0, prev.1);
        let m = start_level(prev.2.len(), kk);
        lemma_model_encodable(prev.0, prev.1, kk, b as nat, m, c);
        lemma_encodable_defined(prev.2, m, c, t1);
        assert(is_letter(input[input.len() - 1]));
        assert forall|l: int| m < l <= kk implies #[trigger] level_ok(t1, l, (b + 2) as nat) by {
            assert(level_ok(t1, l, b as nat));
            crate::huffman::model::lemma_level_ok_weaken(t1, l, b as nat, (b + 2) as nat);
        }
        assert forall|l: int| 0 <= l <= m implies #[trigger] level_ok(t1, l, b as nat) by {
            assert(level_ok(t1, l, b as nat));
        }
        assert forall|l: int, i: int| 1 <= l <= kk && 0 <= i < t1[l].len() implies #[trigger] suffix_closed(t1, l, i)
            || pending(t1, l, i, prev.2, m, c) by {
            assert(suffix_closed(t1, l, i));
        }
        assert(learn_ready(prev.2, m, c, t1, prev.1, kk, b as nat));
        lemma_learn_keeps_model(prev.2, m, c, t1, prev.1, kk, b as nat);
        assert((c as u32) < 128);
    }
}

/// The characters of a string.
pub fn chars_of(s: &String) -> (v: Vec<char>)
    ensures
        v@ == s@,
{
    let mut v: Vec<char> = Vec::new();
    for c in it: s.as_str().chars()
        invariant
            v@ == it.seq().take(it.index()),
    {
        v.push(c);
    }
    v
}

} // verus!
