//! What each learning step keeps of the model, assuming no more of the model
//! than the step itself needs to run (`learn_defined`): totals equal to usage
//! sums, escape counts, closure under suffixes, and the unseen letters.
use vstd::prelude::*;
use crate::huffman::{RO, is_letter};
use crate::huffman::model::{
    extends, t0_item, unseen_ok, lemma_extends_ctx_index, lemma_extends_trans, lemma_push_extends,
    lemma_set_item_extends, lemma_unseen_remove,
};
use crate::huffman::huffman_token::Token;
use crate::huffman::utils::{
    ItemView, TableView, bump, ctx_index, fresh_token, has_key, insert_key, insert_pos, introduce,
    key_index, learn, learn_defined, push_context, raise, retotal, set_item, suffix, usage_sum,
    learn_walk, walk_defined, utf8_len, lemma_utf8_len_facts, lemma_walk_ascii,
    lemma_ctx_index, lemma_insert_pos, lemma_key_index, lemma_retotal, lemma_usage_sum_insert,
    lemma_usage_sum_nonneg, lemma_usage_sum_update, lemma_bump,
};

verus! {

/// Every entry of a context carries the context's usage sum as its total.
pub open spec fn totals_ok(s: ItemView) -> bool {
    forall|i: int| 0 <= i < s.len() ==> #[trigger] s[i].1.total == usage_sum(s)
}

/// Every context of the model has its totals right.
pub open spec fn all_totals_ok(t: TableView) -> bool {
    forall|l: int, i: int| 0 <= l < t.len() && 0 <= i < t[l].len() ==> totals_ok(#[trigger] t[l][i].1)
}

/// Sum of the usages of the entries for `x`.
pub open spec fn key_usage(s: ItemView, x: char) -> int
    decreases s.len(),
{
    if s.len() == 0 {
        0
    } else {
        key_usage(s.drop_last(), x) + if s.last().0 == x {
            s.last().1.usage as int
        } else {
            0
        }
    }
}

/// Number of entries for symbols other than the escape.
pub open spec fn symbol_count(s: ItemView) -> int
    decreases s.len(),
{
    if s.len() == 0 {
        0
    } else {
        symbol_count(s.drop_last()) + if s.last().0 != RO {
            1int
        } else {
            0
        }
    }
}

/// A context holds the escape, the escape has been used once per other
/// symbol, and every other symbol has been used.
pub open spec fn escape_ok(s: ItemView) -> bool {
    &&& has_key(s, RO)
    &&& key_usage(s, RO) == symbol_count(s)
    &&& forall|i: int| 0 <= i < s.len() && s[i].0 != RO ==> #[trigger] s[i].1.usage >= 1
}

/// Every context above level zero has its escape count right.
pub open spec fn all_escapes_ok(t: TableView) -> bool {
    forall|l: int, i: int| 1 <= l < t.len() && 0 <= i < t[l].len() ==> escape_ok(#[trigger] t[l][i].1)
}

proof fn lemma_counts_concat(a: ItemView, b: ItemView, x: char)
    ensures
        key_usage(a + b, x) == key_usage(a, x) + key_usage(b, x),
        symbol_count(a + b) == symbol_count(a) + symbol_count(b),
    decreases b.len(),
{
    if b.len() == 0 {
        assert(a + b =~= a);
    } else {
        lemma_counts_concat(a, b.drop_last(), x);
        assert((a + b).drop_last() =~= a + b.drop_last());
    }
}

proof fn lemma_counts_single(e: (char, Token), x: char)
    ensures
        key_usage(seq![e], x) == if e.0 == x {
            e.1.usage as int
        } else {
            0
        },
        symbol_count(seq![e]) == if e.0 != RO {
            1int
        } else {
            0
        },
{
    assert(seq![e].drop_last() =~= Seq::<(char, Token)>::empty());
    assert(key_usage(Seq::<(char, Token)>::empty(), x) == 0);
    assert(symbol_count(Seq::<(char, Token)>::empty()) == 0);
}

/// Inserting an entry adds what it counts.
proof fn lemma_counts_insert(s: ItemView, i: int, e: (char, Token), x: char)
    requires
        0 <= i <= s.len(),
    ensures
        key_usage(s.insert(i, e), x) == key_usage(s, x) + key_usage(seq![e], x),
        symbol_count(s.insert(i, e)) == symbol_count(s) + symbol_count(seq![e]),
{
    let a = s.subrange(0, i);
    let b = s.subrange(i, s.len() as int);
    assert(s =~= a + b);
    assert(s.insert(i, e) =~= a + seq![e] + b);
    lemma_counts_concat(a + seq![e], b, x);
    lemma_counts_concat(a, seq![e], x);
    lemma_counts_concat(a, b, x);
}

/// Replacing an entry swaps what it counts.
proof fn lemma_counts_update(s: ItemView, i: int, e: (char, Token), x: char)
    requires
        0 <= i < s.len(),
    ensures
        key_usage(s.update(i, e), x) == key_usage(s, x) - key_usage(seq![s[i]], x) + key_usage(seq![e], x),
        symbol_count(s.update(i, e)) == symbol_count(s) - symbol_count(seq![s[i]]) + symbol_count(seq![e]),
{
    let a = s.subrange(0, i);
    let b = s.subrange(i + 1, s.len() as int);
    assert(s =~= a + seq![s[i]] + b);
    assert(s.update(i, e) =~= a + seq![e] + b);
    lemma_counts_concat(a + seq![s[i]], b, x);
    lemma_counts_concat(a, seq![s[i]], x);
    lemma_counts_concat(a + seq![e], b, x);
    lemma_counts_concat(a, seq![e], x);
}

/// Entries with the same symbols and usages count the same.
proof fn lemma_counts_same(s: ItemView, t: ItemView, x: char)
    requires
        s.len() == t.len(),
        forall|i: int| 0 <= i < s.len() ==> s[i].0 == t[i].0 && s[i].1.usage == t[i].1.usage,
    ensures
        key_usage(s, x) == key_usage(t, x),
        symbol_count(s) == symbol_count(t),
    decreases s.len(),
{
    if s.len() > 0 {
        lemma_counts_same(s.drop_last(), t.drop_last(), x);
    }
}

/// Recomputing the totals leaves the symbols, usages and counts.
proof fn lemma_retotal_counts(s: ItemView, x: char)
    ensures
        key_usage(retotal(s), x) == key_usage(s, x),
        symbol_count(retotal(s)) == symbol_count(s),
{
    lemma_retotal(s);
    lemma_counts_same(s, retotal(s), x);
}

/// With a usage sum that fits, recomputed totals are right.
proof fn lemma_retotal_ok(s: ItemView)
    requires
        usage_sum(s) <= usize::MAX,
    ensures
        totals_ok(retotal(s)),
{
    lemma_retotal(s);
    lemma_usage_sum_nonneg(s);
}

/// Raising one entry adds one to the usage sum.
proof fn lemma_raise_sum(s: ItemView, i: int)
    requires
        0 <= i < s.len(),
        s[i].1.usage < usize::MAX,
    ensures
        raise(s, i).len() == s.len(),
        usage_sum(raise(s, i)) == usage_sum(s) + 1,
{
    lemma_usage_sum_update(s, i, raise(s, i)[i]);
}

/// A fresh entry adds one to the usage sum.
proof fn lemma_insert_key_sum(s: ItemView, c: char)
    ensures
        usage_sum(insert_key(s, c)) == usage_sum(s) + 1,
        insert_pos(s, c) <= s.len(),
        forall|x: char| #[trigger] has_key(insert_key(s, c), x) <==> (has_key(s, x) || x == c),
{
    lemma_insert_pos(s, c);
    let p = insert_pos(s, c) as int;
    lemma_usage_sum_insert(s, p, (c, fresh_token()));
    let r = insert_key(s, c);
    assert forall|x: char| #[trigger] has_key(r, x) <==> (has_key(s, x) || x == c) by {
        if has_key(s, x) {
            let k = choose|k: int| 0 <= k < s.len() && #[trigger] s[k].0 == x;
            if k < p {
                assert(r[k] == s[k]);
            } else {
                assert(r[k + 1] == s[k]);
            }
        }
        if x == c {
            assert(r[p].0 == c);
        }
        if has_key(r, x) {
            let k = choose|k: int| 0 <= k < r.len() && #[trigger] r[k].0 == x;
            if k < p {
                assert(s[k] == r[k]);
            } else if k > p {
                assert(s[k - 1] == r[k]);
            }
        }
    }
}

/// A new symbol adds two to the usage sum and brings in the symbol and the
/// escape; its totals are right when the sum fits.
pub proof fn lemma_introduce_facts(s: ItemView, c: char)
    requires
        usage_sum(s) + 2 <= usize::MAX,
    ensures
        usage_sum(introduce(s, c)) == usage_sum(s) + 2,
        totals_ok(introduce(s, c)),
        forall|x: char| #[trigger] has_key(introduce(s, c), x) <==> (has_key(s, x) || x == c || x == RO),
{
    let s1 = insert_key(s, c);
    lemma_insert_key_sum(s, c);
    lemma_usage_sum_nonneg(s1);
    if has_key(s1, RO) {
        lemma_key_index(s1, RO);
        let k = key_index(s1, RO);
        let s2 = raise(s1, k);
        lemma_raise_sum(s1, k);
        assert forall|x: char| #[trigger] has_key(s2, x) <==> has_key(s1, x) by {
            if has_key(s1, x) {
                let q = choose|q: int| 0 <= q < s1.len() && #[trigger] s1[q].0 == x;
                assert(s2[q].0 == x);
            }
            if has_key(s2, x) {
                let q = choose|q: int| 0 <= q < s2.len() && #[trigger] s2[q].0 == x;
                assert(s1[q].0 == x);
            }
        }
        lemma_retotal(s2);
        lemma_retotal_ok(s2);
    } else {
        let s2 = insert_key(s1, RO);
        lemma_insert_key_sum(s1, RO);
        lemma_retotal(s2);
        lemma_retotal_ok(s2);
    }
}

/// A seen symbol: its totals are right when the sum fits, its symbols stay.
proof fn lemma_bump_totals(s: ItemView, c: char)
    requires
        has_key(s, c),
        usage_sum(s) < usize::MAX,
    ensures
        totals_ok(bump(s, c)),
{
    lemma_key_index(s, c);
    lemma_usage_sum_nonneg(s);
    let k = key_index(s, c);
    lemma_raise_sum(s, k);
    lemma_retotal_ok(raise(s, k));
}

/// Replacing one context by one with right totals keeps all totals right.
proof fn lemma_set_item_totals(t: TableView, j: int, i: int, item: ItemView)
    requires
        all_totals_ok(t),
        totals_ok(item),
        0 <= j < t.len(),
        0 <= i < t[j].len(),
    ensures
        all_totals_ok(set_item(t, j, i, item)),
{
    let t2 = set_item(t, j, i, item);
    assert forall|l: int, q: int| 0 <= l < t2.len() && 0 <= q < t2[l].len() implies totals_ok(#[trigger] t2[l][q].1) by {
        if l == j && q == i {
            assert(t2[l][q].1 == item);
        } else {
            assert(t2[l][q] == t[l][q]);
        }
    }
}

/// Adding a context with right totals keeps all totals right.
proof fn lemma_push_totals(t: TableView, j: int, s: Seq<char>, item: ItemView)
    requires
        all_totals_ok(t),
        totals_ok(item),
        0 <= j < t.len(),
    ensures
        all_totals_ok(push_context(t, j, s, item)),
{
    let t2 = push_context(t, j, s, item);
    assert forall|l: int, q: int| 0 <= l < t2.len() && 0 <= q < t2[l].len() implies totals_ok(#[trigger] t2[l][q].1) by {
        if l == j && q == t[j].len() {
            assert(t2[l][q].1 == item);
        } else {
            assert(t2[l][q] == t[l][q]);
        }
    }
}

/// Learning keeps every context's totals equal to its usage sum: each
/// context it touches has its totals recomputed.
pub proof fn lemma_learn_keeps_totals(p: Seq<char>, j: nat, c: char, t: TableView, u: Seq<char>)
    requires
        learn_defined(p, j, c, t, u),
        all_totals_ok(t),
    ensures
        all_totals_ok(learn(p, j, c, t, u).0),
    decreases j,
{
    let s = suffix(p, j);
    let i = ctx_index(t[j as int], s);
    lemma_ctx_index(t[j as int], s);
    if i >= 0 {
        let item = t[j as int][i].1;
        let item2 = if has_key(item, c) {
            bump(item, c)
        } else {
            introduce(item, c)
        };
        if has_key(item, c) {
            lemma_bump_totals(item, c);
        } else {
            lemma_introduce_facts(item, c);
        }
        lemma_set_item_totals(t, j as int, i, item2);
        if j > 0 && !has_key(item, c) {
            lemma_learn_keeps_totals(p, (j - 1) as nat, c, set_item(t, j as int, i, item2), u);
        }
    } else if j > 0 {
        let empty = Seq::<(char, Token)>::empty();
        assert(usage_sum(empty) == 0);
        lemma_introduce_facts(empty, c);
        lemma_push_totals(t, j as int, s, introduce(empty, c));
        lemma_learn_keeps_totals(p, (j - 1) as nat, c, push_context(t, j as int, s, introduce(empty, c)), u);
    }
}

/// A seen symbol other than the escape: the escape count stays right.
proof fn lemma_bump_escape(s: ItemView, c: char)
    requires
        escape_ok(s),
        has_key(s, c),
        c != RO,
        usage_sum(s) < usize::MAX,
    ensures
        escape_ok(bump(s, c)),
{
    lemma_key_index(s, c);
    lemma_usage_sum_nonneg(s);
    let k = key_index(s, c);
    let r = raise(s, k);
    lemma_counts_update(s, k, r[k], RO);
    lemma_counts_single(s[k], RO);
    lemma_counts_single(r[k], RO);
    lemma_retotal(r);
    lemma_retotal_counts(r, RO);
    let rk = key_index(s, RO);
    lemma_key_index(s, RO);
    assert(r[rk].0 == RO);
    assert(retotal(r)[rk].0 == RO);
    assert forall|q: int| 0 <= q < retotal(r).len() && retotal(r)[q].0 != RO implies #[trigger] retotal(r)[q].1.usage >= 1 by {
        assert(retotal(r)[q].1.usage == r[q].1.usage);
        if q != k {
            assert(r[q] == s[q]);
        }
    }
}

/// A new symbol other than the escape: the escape count stays right.
proof fn lemma_introduce_escape(s: ItemView, c: char)
    requires
        escape_ok(s) || s.len() == 0,
        !has_key(s, c),
        c != RO,
        usage_sum(s) + 2 <= usize::MAX,
    ensures
        escape_ok(introduce(s, c)),
{
    lemma_introduce_facts(s, c);
    lemma_insert_key_sum(s, c);
    let p = insert_pos(s, c) as int;
    let s1 = insert_key(s, c);
    lemma_counts_insert(s, p, (c, fresh_token()), RO);
    lemma_counts_single((c, fresh_token()), RO);
    lemma_usage_sum_nonneg(s1);
    assert forall|q: int| 0 <= q < s1.len() && s1[q].0 != RO implies #[trigger] s1[q].1.usage >= 1 by {
        if q < p {
            assert(s1[q] == s[q]);
            assert(s[q].1.usage >= 1);
        } else if q > p {
            assert(s1[q] == s[q - 1]);
            assert(s[q - 1].1.usage >= 1);
        } else {
            assert(s1[q] == (c, fresh_token()));
        }
    }
    if has_key(s1, RO) {
        lemma_key_index(s1, RO);
        let k = key_index(s1, RO);
        let s2 = raise(s1, k);
        if s.len() == 0 {
            assert(s1.len() == 1);
            assert(s1[0].0 == c);
        }
        lemma_counts_update(s1, k, s2[k], RO);
        lemma_counts_single(s1[k], RO);
        lemma_counts_single(s2[k], RO);
        lemma_retotal_counts(s2, RO);
        lemma_retotal(s2);
        assert forall|q: int| 0 <= q < retotal(s2).len() && retotal(s2)[q].0 != RO implies #[trigger] retotal(s2)[q].1.usage >= 1 by {
            assert(retotal(s2)[q].1.usage == s2[q].1.usage);
            if q != k {
                assert(s2[q] == s1[q]);
            }
        }
    } else {
        assert(s.len() == 0) by {
            if s.len() > 0 {
                assert(has_key(s, RO));
            }
        }
        assert(s1 =~= seq![(c, fresh_token())]);
        let s2 = insert_key(s1, RO);
        lemma_insert_key_sum(s1, RO);
        let p2 = insert_pos(s1, RO) as int;
        lemma_counts_insert(s1, p2, (RO, fresh_token()), RO);
        lemma_counts_single((RO, fresh_token()), RO);
        lemma_counts_single((c, fresh_token()), RO);
        assert(key_usage(Seq::<(char, Token)>::empty(), RO) == 0);
        assert(symbol_count(Seq::<(char, Token)>::empty()) == 0);
        lemma_retotal_counts(s2, RO);
        lemma_retotal(s2);
        assert forall|q: int| 0 <= q < retotal(s2).len() && retotal(s2)[q].0 != RO implies #[trigger] retotal(s2)[q].1.usage >= 1 by {
            assert(retotal(s2)[q].1.usage == s2[q].1.usage);
            if q < p2 {
                assert(s2[q] == s1[q]);
            } else if q > p2 {
                assert(s2[q] == s1[q - 1]);
            }
        }
    }
}

/// Learning a symbol other than the escape keeps, in every context above
/// level zero, the escape's usage equal to the number of other symbols (a new
/// context starts with the symbol and the escape used once each; a new symbol
/// adds one use of the escape; a known one leaves it).
pub proof fn lemma_learn_keeps_escapes(p: Seq<char>, j: nat, c: char, t: TableView, u: Seq<char>)
    requires
        learn_defined(p, j, c, t, u),
        c != RO,
        all_escapes_ok(t),
    ensures
        all_escapes_ok(learn(p, j, c, t, u).0),
    decreases j,
{
    let s = suffix(p, j);
    let i = ctx_index(t[j as int], s);
    lemma_ctx_index(t[j as int], s);
    if j == 0 {
        let item = t[0][i].1;
        let item2 = if has_key(item, c) {
            bump(item, c)
        } else {
            introduce(item, c)
        };
        let t2 = set_item(t, 0, i, item2);
        assert forall|l: int, q: int| 1 <= l < t2.len() && 0 <= q < t2[l].len() implies escape_ok(#[trigger] t2[l][q].1) by {
            assert(t2[l] == t[l]);
        }
    } else if i >= 0 {
        let item = t[j as int][i].1;
        assert(escape_ok(item));
        let item2 = if has_key(item, c) {
            bump(item, c)
        } else {
            introduce(item, c)
        };
        if has_key(item, c) {
            lemma_bump_escape(item, c);
        } else {
            lemma_introduce_escape(item, c);
        }
        let t2 = set_item(t, j as int, i, item2);
        assert forall|l: int, q: int| 1 <= l < t2.len() && 0 <= q < t2[l].len() implies escape_ok(#[trigger] t2[l][q].1) by {
            if l == j && q == i {
                assert(t2[l][q].1 == item2);
            } else {
                assert(t2[l][q] == t[l][q]);
            }
        }
        if !has_key(item, c) {
            lemma_learn_keeps_escapes(p, (j - 1) as nat, c, t2, u);
        }
    } else {
        let empty = Seq::<(char, Token)>::empty();
        assert(usage_sum(empty) == 0);
        assert(!has_key(empty, c));
        lemma_introduce_escape(empty, c);
        let item2 = introduce(empty, c);
        let t2 = push_context(t, j as int, s, item2);
        assert forall|l: int, q: int| 1 <= l < t2.len() && 0 <= q < t2[l].len() implies escape_ok(#[trigger] t2[l][q].1) by {
            if l == j && q == t[j as int].len() {
                assert(t2[l][q].1 == item2);
            } else {
                assert(t2[l][q] == t[l][q]);
            }
        }
        lemma_learn_keeps_escapes(p, (j - 1) as nat, c, t2, u);
    }
}

/// The item a learning step puts in place of `item`: a known symbol gains a
/// use, a new one enters with the escape.
pub open spec fn learnt_item(item: ItemView, c: char) -> ItemView {
    if has_key(item, c) {
        bump(item, c)
    } else {
        introduce(item, c)
    }
}

/// The item a learning step writes keeps every symbol and holds `c`.
proof fn lemma_learnt_item_keys(item: ItemView, c: char)
    requires
        has_key(item, c) ==> usage_sum(item) < usize::MAX,
        !has_key(item, c) ==> usage_sum(item) + 2 <= usize::MAX,
    ensures
        forall|x: char| has_key(item, x) ==> #[trigger] has_key(learnt_item(item, c), x),
        has_key(learnt_item(item, c), c),
        !has_key(item, c) ==> forall|x: char| #[trigger] has_key(learnt_item(item, c), x) <==> (
        has_key(item, x) || x == c || x == RO),
        has_key(item, c) ==> forall|x: char| #[trigger] has_key(learnt_item(item, c), x) == has_key(item, x),
{
    if has_key(item, c) {
        lemma_bump(item, c);
    } else {
        lemma_introduce_facts(item, c);
    }
}

/// Learning a letter keeps the unseen letters sorted and in step with level
/// zero: a letter leaves them exactly when it first enters the empty context.
pub proof fn lemma_learn_keeps_unseen(p: Seq<char>, j: nat, c: char, t: TableView, u: Seq<char>)
    requires
        learn_defined(p, j, c, t, u),
        is_letter(c),
        unseen_ok(t0_item(t), u),
    ensures
        unseen_ok(t0_item(learn(p, j, c, t, u).0), learn(p, j, c, t, u).1),
    decreases j,
{
    let s = suffix(p, j);
    let i = ctx_index(t[j as int], s);
    lemma_ctx_index(t[j as int], s);
    if j == 0 {
        assert(s =~= Seq::<char>::empty());
        let item = t[0][i].1;
        lemma_learnt_item_keys(item, c);
        let item2 = learnt_item(item, c);
        let t2 = set_item(t, 0, i, item2);
        lemma_set_item_extends(t, 0, i, item2);
        assert(t0_item(t2) == item2);
        if !has_key(item, c) {
            lemma_unseen_remove(item, item2, u, c);
        }
    } else if i >= 0 {
        let item = t[j as int][i].1;
        let t1 = set_item(t, j as int, i, learnt_item(item, c));
        assert(t1[0] == t[0]);
        if !has_key(item, c) {
            lemma_learn_keeps_unseen(p, (j - 1) as nat, c, t1, u);
        }
    } else {
        let t1 = push_context(t, j as int, s, introduce(Seq::empty(), c));
        assert(t1[0] == t[0]);
        lemma_learn_keeps_unseen(p, (j - 1) as nat, c, t1, u);
    }
}

/// The context `i` of level `l` has `l` symbols, its suffix (without the
/// first symbol) is a context one level down, and that suffix knows every
/// symbol of it but the escape.
pub open spec fn suffix_kept(t: TableView, l: int, i: int) -> bool {
    let s = t[l][i].0;
    let pi = ctx_index(t[l - 1], s.drop_first());
    &&& s.len() == l
    &&& pi >= 0
    &&& forall|x: char| #[trigger] has_key(t[l][i].1, x) && x != RO ==> has_key(t[l - 1][pi].1, x)
}

/// Every context above level zero keeps its suffix.
pub open spec fn all_suffixes_kept(t: TableView) -> bool {
    forall|l: int, i: int| 1 <= l < t.len() && 0 <= i < t[l].len() ==> #[trigger] suffix_kept(t, l, i)
}

/// The context `i` of level `l` is the one just above a walk at level `j`
/// that is learning `c`: all it lacks below is `c` (and, if its suffix does
/// not exist yet, it holds nothing but `c` and the escape).
pub open spec fn waiting(t: TableView, l: int, i: int, p: Seq<char>, j: nat, c: char) -> bool {
    let item = t[l][i].1;
    let pi = ctx_index(t[l - 1], t[l][i].0.drop_first());
    &&& l == j + 1
    &&& j + 1 <= p.len()
    &&& t[l][i].0 == suffix(p, j + 1)
    &&& pi >= 0 ==> forall|x: char| #[trigger] has_key(item, x) && x != RO && x != c ==> has_key(t[l - 1][pi].1, x)
    &&& pi < 0 ==> forall|x: char| #[trigger] has_key(item, x) ==> x == c || x == RO
}

/// A context that kept its suffix still does in an extension where it gained
/// no symbol.
proof fn lemma_kept_transfer(t: TableView, t2: TableView, l: int, i: int)
    requires
        extends(t, t2),
        1 <= l < t.len(),
        0 <= i < t[l].len(),
        suffix_kept(t, l, i),
        forall|x: char| #[trigger] has_key(t2[l][i].1, x) ==> has_key(t[l][i].1, x),
    ensures
        suffix_kept(t2, l, i),
{
    let s = t[l][i].0;
    lemma_extends_ctx_index(t, t2, l - 1, s.drop_first());
    let pi = ctx_index(t[l - 1], s.drop_first());
    lemma_ctx_index(t[l - 1], s.drop_first());
    assert forall|x: char| #[trigger] has_key(t2[l][i].1, x) && x != RO implies has_key(t2[l - 1][pi].1, x) by {
        assert(has_key(t[l][i].1, x));
        assert(has_key(t[l - 1][pi].1, x));
    }
}

/// A waiting context keeps its suffix once the level below has learnt `c`.
proof fn lemma_waiting_resolved(t: TableView, t2: TableView, l: int, i: int, p: Seq<char>, j: nat, c: char)
    requires
        extends(t, t2),
        1 <= l < t.len(),
        0 <= i < t[l].len(),
        waiting(t, l, i, p, j, c),
        t2[l][i] == t[l][i],
        ctx_index(t2[j as int], suffix(p, j)) >= 0,
        has_key(t2[j as int][ctx_index(t2[j as int], suffix(p, j))].1, c),
    ensures
        suffix_kept(t2, l, i),
{
    let item = t[l][i].1;
    assert(t[l][i].0.drop_first() =~= suffix(p, j));
    let pi = ctx_index(t[j as int], suffix(p, j));
    let pi2 = ctx_index(t2[j as int], suffix(p, j));
    lemma_ctx_index(t[j as int], suffix(p, j));
    if pi >= 0 {
        lemma_extends_ctx_index(t, t2, j as int, suffix(p, j));
    }
    assert forall|x: char| #[trigger] has_key(item, x) && x != RO implies has_key(t2[j as int][pi2].1, x) by {
        if x != c && pi >= 0 {
            assert(has_key(t[j as int][pi].1, x));
        }
    }
}

/// One learning walk from level `j`, with every context keeping its suffix
/// but the one waiting just above: afterwards every context keeps its
/// suffix, the model only grew, the levels above the walk are untouched, and
/// the walk's own context at level `j` knows `c`.
proof fn lemma_walk_keeps_suffixes(p: Seq<char>, j: nat, c: char, t: TableView, u: Seq<char>)
    requires
        learn_defined(p, j, c, t, u),
        forall|l: int, i: int|
            1 <= l < t.len() && 0 <= i < t[l].len() ==> #[trigger] suffix_kept(t, l, i) || waiting(t, l, i, p, j, c),
    ensures
        all_suffixes_kept(learn(p, j, c, t, u).0),
        extends(t, learn(p, j, c, t, u).0),
        forall|l: int| j < l < t.len() ==> learn(p, j, c, t, u).0[l] == t[l],
        ctx_index(learn(p, j, c, t, u).0[j as int], suffix(p, j)) >= 0,
        has_key(learn(p, j, c, t, u).0[j as int][ctx_index(learn(p, j, c, t, u).0[j as int], suffix(p, j))].1, c),
    decreases j,
{
    let s = suffix(p, j);
    let i = ctx_index(t[j as int], s);
    lemma_ctx_index(t[j as int], s);
    if i >= 0 {
        let item = t[j as int][i].1;
        lemma_learnt_item_keys(item, c);
        let item2 = learnt_item(item, c);
        let t1 = set_item(t, j as int, i, item2);
        lemma_set_item_extends(t, j as int, i, item2);
        assert(ctx_index(t1[j as int], s) == i);
        assert(t1[j as int][i].1 == item2);
        if j == 0 || has_key(item, c) {
            assert(learn(p, j, c, t, u).0 == t1);
            assert forall|l: int, q: int| 1 <= l < t1.len() && 0 <= q < t1[l].len() implies #[trigger] suffix_kept(t1, l, q) by {
                if suffix_kept(t, l, q) {
                    if l == j && q == i {
                        assert(forall|x: char| #[trigger] has_key(t1[l][q].1, x) ==> has_key(t[l][q].1, x));
                    } else {
                        assert(t1[l][q] == t[l][q]);
                    }
                    lemma_kept_transfer(t, t1, l, q);
                } else {
                    assert(waiting(t, l, q, p, j, c));
                    assert(t1[l][q] == t[l][q]);
                    lemma_waiting_resolved(t, t1, l, q, p, j, c);
                }
            }
        } else {
            assert(suffix(p, (j - 1) as nat) =~= s.drop_first());
            assert forall|l: int, q: int| 1 <= l < t1.len() && 0 <= q < t1[l].len() implies #[trigger] suffix_kept(t1, l, q)
                || waiting(t1, l, q, p, (j - 1) as nat, c) by {
                if l == j && q == i {
                    assert(!waiting(t, l, q, p, j, c));
                    assert(suffix_kept(t, l, q));
                    let pi = ctx_index(t[l - 1], s.drop_first());
                    assert(t1[l - 1] == t[l - 1]);
                    assert forall|x: char| #[trigger] has_key(t1[l][q].1, x) && x != RO && x != c implies has_key(
                        t1[l - 1][pi].1,
                        x,
                    ) by {
                        assert(has_key(item, x));
                    }
                    assert(waiting(t1, l, q, p, (j - 1) as nat, c));
                } else if suffix_kept(t, l, q) {
                    assert(t1[l][q] == t[l][q]);
                    lemma_kept_transfer(t, t1, l, q);
                } else {
                    assert(waiting(t, l, q, p, j, c));
                    assert(t1[l][q] == t[l][q]);
                    lemma_waiting_resolved(t, t1, l, q, p, j, c);
                }
            }
            lemma_walk_keeps_suffixes(p, (j - 1) as nat, c, t1, u);
            let t2 = learn(p, (j - 1) as nat, c, t1, u).0;
            assert(learn(p, j, c, t, u) == learn(p, (j - 1) as nat, c, t1, u));
            lemma_extends_trans(t, t1, t2);
            assert(t2[j as int] == t1[j as int]);
        }
    } else {
        let empty = Seq::<(char, Token)>::empty();
        assert(usage_sum(empty) == 0);
        lemma_introduce_facts(empty, c);
        let item2 = introduce(empty, c);
        assert forall|x: char| #[trigger] has_key(item2, x) implies x == c || x == RO by {
            assert(!has_key(empty, x));
        }
        let n = t[j as int].len() as int;
        let t1 = push_context(t, j as int, s, item2);
        lemma_push_extends(t, j as int, s, item2);
        assert(t1[j as int][n] == (s, item2));
        assert(suffix(p, (j - 1) as nat) =~= s.drop_first());
        assert forall|l: int, q: int| 1 <= l < t1.len() && 0 <= q < t1[l].len() implies #[trigger] suffix_kept(t1, l, q)
            || waiting(t1, l, q, p, (j - 1) as nat, c) by {
            if l == j && q == n {
                assert(waiting(t1, l, q, p, (j - 1) as nat, c));
            } else if suffix_kept(t, l, q) {
                assert(t1[l][q] == t[l][q]);
                lemma_kept_transfer(t, t1, l, q);
            } else {
                assert(waiting(t, l, q, p, j, c));
                assert(t1[l][q] == t[l][q]);
                lemma_waiting_resolved(t, t1, l, q, p, j, c);
            }
        }
        lemma_walk_keeps_suffixes(p, (j - 1) as nat, c, t1, u);
        let t2 = learn(p, (j - 1) as nat, c, t1, u).0;
        assert(learn(p, j, c, t, u) == learn(p, (j - 1) as nat, c, t1, u));
        lemma_extends_trans(t, t1, t2);
        assert(t2[j as int] == t1[j as int]);
    }
}

/// Learning keeps every context closed under suffixes: a symbol added to a
/// context is afterwards in each shorter suffix context (down to one that
/// held it already), and every new context has its suffix contexts.
pub proof fn lemma_learn_keeps_suffixes(p: Seq<char>, j: nat, c: char, t: TableView, u: Seq<char>)
    requires
        learn_defined(p, j, c, t, u),
        all_suffixes_kept(t),
    ensures
        all_suffixes_kept(learn(p, j, c, t, u).0),
{
    lemma_walk_keeps_suffixes(p, j, c, t, u);
}

/// The model update, on any phrase, keeps every context's totals equal to
/// its usage sum.
pub proof fn lemma_update_keeps_totals(frase: Seq<char>, k: nat, c: char, t: TableView, u: Seq<char>)
    requires
        walk_defined(frase, k, c, t, u),
        all_totals_ok(t),
    ensures
        all_totals_ok(learn_walk(frase, k, c, t, u).0),
    decreases frase.len() + k,
{
    lemma_utf8_len_facts(frase);
    let n = utf8_len(frase);
    if n < k {
        lemma_update_keeps_totals(frase, (k - 1) as nat, c, t, u);
    } else if n > k {
        lemma_update_keeps_totals(frase.drop_first(), k, c, t, u);
    } else {
        let i = ctx_index(t[k as int], frase);
        lemma_ctx_index(t[k as int], frase);
        if i >= 0 {
            let item = t[k as int][i].1;
            if has_key(item, c) {
                lemma_bump_totals(item, c);
            } else {
                lemma_introduce_facts(item, c);
            }
            lemma_set_item_totals(t, k as int, i, learnt_item(item, c));
            if k > 0 && !has_key(item, c) {
                lemma_update_keeps_totals(frase.drop_first(), (k - 1) as nat, c, set_item(t, k as int, i, learnt_item(item, c)), u);
            }
        } else if k > 0 {
            let empty = Seq::<(char, Token)>::empty();
            assert(usage_sum(empty) == 0);
            lemma_introduce_facts(empty, c);
            lemma_push_totals(t, k as int, frase, introduce(empty, c));
            lemma_update_keeps_totals(frase.drop_first(), (k - 1) as nat, c, push_context(t, k as int, frase, introduce(empty, c)), u);
        }
    }
}

/// The model update, on any phrase, of a symbol other than the escape keeps
/// in every context above level zero the escape's usage equal to the number
/// of other symbols.
pub proof fn lemma_update_keeps_escapes(frase: Seq<char>, k: nat, c: char, t: TableView, u: Seq<char>)
    requires
        walk_defined(frase, k, c, t, u),
        c != RO,
        all_escapes_ok(t),
    ensures
        all_escapes_ok(learn_walk(frase, k, c, t, u).0),
    decreases frase.len() + k,
{
    lemma_utf8_len_facts(frase);
    let n = utf8_len(frase);
    if n < k {
        lemma_update_keeps_escapes(frase, (k - 1) as nat, c, t, u);
    } else if n > k {
        lemma_update_keeps_escapes(frase.drop_first(), k, c, t, u);
    } else {
        let i = ctx_index(t[k as int], frase);
        lemma_ctx_index(t[k as int], frase);
        if k == 0 {
            let t2 = set_item(t, 0, i, learnt_item(t[0][i].1, c));
            assert forall|l: int, q: int| 1 <= l < t2.len() && 0 <= q < t2[l].len() implies escape_ok(#[trigger] t2[l][q].1) by {
                assert(t2[l] == t[l]);
            }
        } else if i >= 0 {
            let item = t[k as int][i].1;
            assert(escape_ok(item));
            if has_key(item, c) {
                lemma_bump_escape(item, c);
            } else {
                lemma_introduce_escape(item, c);
            }
            let t2 = set_item(t, k as int, i, learnt_item(item, c));
            assert forall|l: int, q: int| 1 <= l < t2.len() && 0 <= q < t2[l].len() implies escape_ok(#[trigger] t2[l][q].1) by {
                if l == k && q == i {
                    assert(t2[l][q].1 == learnt_item(item, c));
                } else {
                    assert(t2[l][q] == t[l][q]);
                }
            }
            if !has_key(item, c) {
                lemma_update_keeps_escapes(frase.drop_first(), (k - 1) as nat, c, t2, u);
            }
        } else {
            let empty = Seq::<(char, Token)>::empty();
            assert(usage_sum(empty) == 0);
            assert(!has_key(empty, c));
            lemma_introduce_escape(empty, c);
            let item2 = introduce(empty, c);
            let t2 = push_context(t, k as int, frase, item2);
            assert forall|l: int, q: int| 1 <= l < t2.len() && 0 <= q < t2[l].len() implies escape_ok(#[trigger] t2[l][q].1) by {
                if l == k && q == t[k as int].len() {
                    assert(t2[l][q].1 == item2);
                } else {
                    assert(t2[l][q] == t[l][q]);
                }
            }
            lemma_update_keeps_escapes(frase.drop_first(), (k - 1) as nat, c, t2, u);
        }
    }
}

/// The model update, on any phrase, of a letter keeps the unseen letters
/// sorted and in step with level zero.
pub proof fn lemma_update_keeps_unseen(frase: Seq<char>, k: nat, c: char, t: TableView, u: Seq<char>)
    requires
        walk_defined(frase, k, c, t, u),
        is_letter(c),
        unseen_ok(t0_item(t), u),
    ensures
        unseen_ok(t0_item(learn_walk(frase, k, c, t, u).0), learn_walk(frase, k, c, t, u).1),
    decreases frase.len() + k,
{
    lemma_utf8_len_facts(frase);
    let n = utf8_len(frase);
    if n < k {
        lemma_update_keeps_unseen(frase, (k - 1) as nat, c, t, u);
    } else if n > k {
        lemma_update_keeps_unseen(frase.drop_first(), k, c, t, u);
    } else {
        let i = ctx_index(t[k as int], frase);
        lemma_ctx_index(t[k as int], frase);
        if k == 0 {
            assert(frase =~= Seq::<char>::empty());
            let item = t[0][i].1;
            lemma_learnt_item_keys(item, c);
            let item2 = learnt_item(item, c);
            let t2 = set_item(t, 0, i, item2);
            lemma_set_item_extends(t, 0, i, item2);
            assert(t0_item(t2) == item2);
            if !has_key(item, c) {
                lemma_unseen_remove(item, item2, u, c);
            }
        } else if i >= 0 {
            let item = t[k as int][i].1;
            let t1 = set_item(t, k as int, i, learnt_item(item, c));
            assert(t1[0] == t[0]);
            if !has_key(item, c) {
                lemma_update_keeps_unseen(frase.drop_first(), (k - 1) as nat, c, t1, u);
            }
        } else {
            let t1 = push_context(t, k as int, frase, introduce(Seq::empty(), c));
            assert(t1[0] == t[0]);
            lemma_update_keeps_unseen(frase.drop_first(), (k - 1) as nat, c, t1, u);
        }
    }
}

/// The model update on an ASCII phrase keeps every context closed under
/// suffixes (on such a phrase it is the learning from the level of the
/// phrase's length).
pub proof fn lemma_update_keeps_suffixes(frase: Seq<char>, k: nat, c: char, t: TableView, u: Seq<char>)
    requires
        walk_defined(frase, k, c, t, u),
        forall|i: int| 0 <= i < frase.len() ==> (#[trigger] frase[i] as u32) < 128,
        all_suffixes_kept(t),
    ensures
        all_suffixes_kept(learn_walk(frase, k, c, t, u).0),
{
    lemma_walk_ascii(frase, k, c, t, u);
    lemma_learn_keeps_suffixes(frase, crate::huffman::utils::start_level(frase.len(), k), c, t, u);
}

} // verus!
