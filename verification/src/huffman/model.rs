//! What the PPM model keeps true from one letter to the next, and why every
//! lookup the coders make then succeeds.
use vstd::prelude::*;
use crate::huffman::{RO, is_letter};
use crate::huffman::utils::{
    ItemView, NodeView, TableView, bump, char_index, ctx_index, has_key, introduce, learn,
    learn_defined, push_context, set_item, sorted_chars, sorted_keys, suffix, usage_sum,
    lemma_bump, lemma_char_index, lemma_ctx_index, lemma_introduce,
};

verus! {

/// The symbols of the model: the letters and the escape.
pub open spec fn is_symbol(c: char) -> bool {
    is_letter(c) || c == RO
}

/// A context's entries are in symbol order, hold only symbols, and their
/// usages add up to at most `bound`.
pub open spec fn item_ok(s: ItemView, bound: nat) -> bool {
    &&& sorted_keys(s)
    &&& forall|i: int| 0 <= i < s.len() ==> is_symbol(#[trigger] s[i].0)
    &&& usage_sum(s) <= bound
}

/// Every context of level `j` has `j` symbols and well-kept entries.
pub open spec fn level_ok(t: TableView, j: int, bound: nat) -> bool {
    forall|i: int| 0 <= i < t[j].len() ==> #[trigger] t[j][i].0.len() == j && item_ok(t[j][i].1, bound)
}

/// The context `i` of level `j` knows the escape, and the context one level
/// down (its suffix) exists and knows each of its letters.
pub open spec fn suffix_closed(t: TableView, j: int, i: int) -> bool {
    let s = t[j][i].0;
    let item = t[j][i].1;
    let pi = ctx_index(t[j - 1], s.drop_first());
    &&& has_key(item, RO)
    &&& pi >= 0
    &&& forall|x: char| #[trigger] has_key(item, x) && x != RO ==> has_key(t[j - 1][pi].1, x)
}

/// The entries of the empty context.
pub open spec fn t0_item(t: TableView) -> ItemView {
    t[0][ctx_index(t[0], Seq::empty())].1
}

/// The unseen letters are, in order, exactly the letters level zero lacks.
pub open spec fn unseen_ok(t0: ItemView, u: Seq<char>) -> bool {
    &&& sorted_chars(u)
    &&& forall|i: int| 0 <= i < u.len() ==> is_letter(#[trigger] u[i])
    &&& forall|x: char| is_letter(x) ==> (u.contains(x) <==> !has_key(t0, x))
}

/// The model's invariant with `kk` as the longest context and `bound` on the
/// usage sums: well-kept levels, the empty context at level zero, every
/// context closed under suffixes, the unseen letters in step with level zero,
/// and the escape at level zero while letters remain unseen.
pub open spec fn model_ok(t: TableView, u: Seq<char>, kk: nat, bound: nat) -> bool {
    &&& t.len() == kk + 1
    &&& forall|j: int| 0 <= j <= kk ==> #[trigger] level_ok(t, j, bound)
    &&& ctx_index(t[0], Seq::empty()) >= 0
    &&& forall|j: int, i: int| 1 <= j <= kk && 0 <= i < t[j].len() ==> #[trigger] suffix_closed(t, j, i)
    &&& unseen_ok(t0_item(t), u)
    &&& (t0_item(t).len() > 0 && u.len() > 0 ==> has_key(t0_item(t), RO))
}

/// `t2` extends `t`: the same levels, every context kept in place with at
/// least its symbols, new contexts only added at the end.
pub open spec fn extends(t: TableView, t2: TableView) -> bool {
    &&& t2.len() == t.len()
    &&& forall|l: int| 0 <= l < t.len() ==> t[l].len() <= #[trigger] t2[l].len()
    &&& forall|l: int, i: int|
        0 <= l < t.len() && 0 <= i < t[l].len() ==> #[trigger] t2[l][i].0 == t[l][i].0
    &&& forall|l: int, i: int, x: char|
        0 <= l < t.len() && 0 <= i < t[l].len() && #[trigger] has_key(t[l][i].1, x) ==> has_key(
            t2[l][i].1,
            x,
        )
}

/// The context `i` of level `l` is the one whose suffix has not learnt `c`
/// yet: it knows the escape, and its other symbols are already known below
/// (if the context below exists at all; if not, it only holds `c` and the
/// escape).
pub open spec fn pending(t: TableView, l: int, i: int, p: Seq<char>, j: nat, c: char) -> bool {
    let item = t[l][i].1;
    let pi = ctx_index(t[l - 1], t[l][i].0.drop_first());
    &&& l == j + 1
    &&& j + 1 <= p.len()
    &&& t[l][i].0 == suffix(p, j + 1)
    &&& has_key(item, RO)
    &&& pi >= 0 ==> forall|x: char| #[trigger] has_key(item, x) && x != RO && x != c ==> has_key(t[l - 1][pi].1, x)
    &&& pi < 0 ==> forall|x: char| #[trigger] has_key(item, x) ==> x == c || x == RO
}

pub proof fn lemma_extends_trans(t1: TableView, t2: TableView, t3: TableView)
    requires
        extends(t1, t2),
        extends(t2, t3),
    ensures
        extends(t1, t3),
{
    assert forall|l: int, i: int, x: char|
        0 <= l < t1.len() && 0 <= i < t1[l].len() && #[trigger] has_key(t1[l][i].1, x) implies has_key(
        t3[l][i].1,
        x,
    ) by {
        assert(has_key(t2[l][i].1, x));
    }
}

/// Lookups of contexts that existed find them at the same place.
pub proof fn lemma_extends_ctx_index(t: TableView, t2: TableView, l: int, x: Seq<char>)
    requires
        extends(t, t2),
        0 <= l < t.len(),
        ctx_index(t[l], x) >= 0,
    ensures
        ctx_index(t2[l], x) == ctx_index(t[l], x),
{
    lemma_ctx_index(t[l], x);
    lemma_ctx_index(t2[l], x);
    let a = ctx_index(t[l], x);
    let b = ctx_index(t2[l], x);
    assert(t2[l][a].0 == t[l][a].0);
    if b < a {
        assert(t2[l][b].0 == t[l][b].0);
    }
}

/// A closed context stays closed in an extension where it gained no symbol.
pub proof fn lemma_closed_transfer(t: TableView, t2: TableView, l: int, i: int)
    requires
        extends(t, t2),
        1 <= l < t.len(),
        0 <= i < t[l].len(),
        suffix_closed(t, l, i),
        forall|x: char| #[trigger] has_key(t2[l][i].1, x) ==> has_key(t[l][i].1, x),
    ensures
        suffix_closed(t2, l, i),
{
    let s = t[l][i].0;
    lemma_ctx_index(t[l - 1], s.drop_first());
    lemma_extends_ctx_index(t, t2, l - 1, s.drop_first());
    let pi = ctx_index(t[l - 1], s.drop_first());
    assert(has_key(t[l][i].1, RO));
    assert forall|x: char| #[trigger] has_key(t2[l][i].1, x) && x != RO implies has_key(t2[l - 1][pi].1, x) by {
        assert(has_key(t[l][i].1, x));
        assert(has_key(t[l - 1][pi].1, x));
    }
}

/// Replacing the entries of one context by entries with at least its symbols
/// extends the model.
pub proof fn lemma_set_item_extends(t: TableView, j: int, i: int, item: ItemView)
    requires
        0 <= j < t.len(),
        0 <= i < t[j].len(),
        forall|x: char| has_key(t[j][i].1, x) ==> has_key(item, x),
    ensures
        extends(t, set_item(t, j, i, item)),
        forall|x: Seq<char>| ctx_index(set_item(t, j, i, item)[j], x) == ctx_index(t[j], x),
{
    let t2 = set_item(t, j, i, item);
    assert forall|x: Seq<char>| ctx_index(t2[j], x) == ctx_index(t[j], x) by {
        lemma_ctx_index_same_phrases(t[j], t2[j], x);
    }
}

pub proof fn lemma_ctx_index_same_phrases(n: NodeView, m: NodeView, x: Seq<char>)
    requires
        n.len() == m.len(),
        forall|i: int| 0 <= i < n.len() ==> n[i].0 == m[i].0,
    ensures
        ctx_index(n, x) == ctx_index(m, x),
    decreases n.len(),
{
    if n.len() > 0 {
        lemma_ctx_index_same_phrases(n.drop_first(), m.drop_first(), x);
    }
}

/// Adding a context extends the model; the new context is found where it was
/// added when it was absent.
pub proof fn lemma_push_extends(t: TableView, j: int, s: Seq<char>, item: ItemView)
    requires
        0 <= j < t.len(),
        ctx_index(t[j], s) < 0,
    ensures
        extends(t, push_context(t, j, s, item)),
        ctx_index(push_context(t, j, s, item)[j], s) == t[j].len(),
{
    let t2 = push_context(t, j, s, item);
    lemma_ctx_index(t[j], s);
    lemma_ctx_index(t2[j], s);
    let b = ctx_index(t2[j], s);
    assert(t2[j][t[j].len() as int].0 == s);
    if 0 <= b < t[j].len() {
        assert(t2[j][b].0 == t[j][b].0);
    }
}

/// What one learning walk from level `j` needs: the levels at and below `j`
/// are untouched (usage sums within `bound`), those above may have gained two
/// uses, and every context is closed under suffixes but the one just above
/// the walk, which waits for `c` to be learnt at level `j`.
pub open spec fn learn_ready(
    p: Seq<char>,
    j: nat,
    c: char,
    t: TableView,
    u: Seq<char>,
    kk: nat,
    bound: nat,
) -> bool {
    &&& t.len() == kk + 1
    &&& j <= kk
    &&& j <= p.len()
    &&& is_letter(c)
    &&& bound + 2 <= usize::MAX
    &&& forall|l: int| 0 <= l <= j ==> #[trigger] level_ok(t, l, bound)
    &&& forall|l: int| j < l <= kk ==> #[trigger] level_ok(t, l, bound + 2)
    &&& ctx_index(t[0], Seq::empty()) >= 0
    &&& forall|l: int, i: int|
        1 <= l <= kk && 0 <= i < t[l].len() ==> #[trigger] suffix_closed(t, l, i) || pending(t, l, i, p, j, c)
    &&& unseen_ok(t0_item(t), u)
    &&& (t0_item(t).len() > 0 && u.len() > 0 ==> has_key(t0_item(t), RO))
}

pub proof fn lemma_level_ok_weaken(t: TableView, l: int, b1: nat, b2: nat)
    requires
        level_ok(t, l, b1),
        b1 <= b2,
    ensures
        level_ok(t, l, b2),
{
}

/// Entries whose symbols all appear, with keys only from symbols, are
/// symbols themselves.
pub proof fn lemma_keys_symbols(s: ItemView, t: ItemView, c: char)
    requires
        forall|i: int| 0 <= i < s.len() ==> is_symbol(#[trigger] s[i].0),
        forall|x: char| has_key(t, x) ==> (has_key(s, x) || x == c || x == RO),
        is_letter(c),
    ensures
        forall|i: int| 0 <= i < t.len() ==> is_symbol(#[trigger] t[i].0),
{
    assert forall|i: int| 0 <= i < t.len() implies is_symbol(#[trigger] t[i].0) by {
        let x = t[i].0;
        assert(has_key(t, x));
        if has_key(s, x) {
            let k = choose|k: int| 0 <= k < s.len() && #[trigger] s[k].0 == x;
            assert(is_symbol(s[k].0));
        }
    }
}

/// A pending context is closed once its suffix has learnt `c`.
pub proof fn lemma_resolve_pending(t: TableView, t2: TableView, l: int, i: int, p: Seq<char>, j: nat, c: char)
    requires
        extends(t, t2),
        1 <= l < t.len(),
        0 <= i < t[l].len(),
        pending(t, l, i, p, j, c),
        t2[l][i] == t[l][i],
        ctx_index(t2[j as int], suffix(p, j)) >= 0,
        has_key(t2[j as int][ctx_index(t2[j as int], suffix(p, j))].1, c),
    ensures
        suffix_closed(t2, l, i),
{
    let item = t[l][i].1;
    assert(t[l][i].0.drop_first() =~= suffix(p, j));
    let pi = ctx_index(t[j as int], suffix(p, j));
    let pi2 = ctx_index(t2[j as int], suffix(p, j));
    lemma_ctx_index(t[j as int], suffix(p, j));
    if pi >= 0 {
        lemma_extends_ctx_index(t, t2, j as int, suffix(p, j));
    }
    assert forall|x: char| #[trigger] has_key(item, x) && x != RO implies has_key(t2[j as int][pi2].1, x) by {
        if x != c {
            if pi >= 0 {
                assert(has_key(t[j as int][pi].1, x));
            }
        }
    }
}

/// After learning at level zero the invariant holds again.
proof fn lemma_learn_level_zero(p: Seq<char>, c: char, t: TableView, u: Seq<char>, kk: nat, bound: nat)
    requires
        learn_ready(p, 0, c, t, u, kk, bound),
    ensures
        learn_defined(p, 0, c, t, u),
        model_ok(learn(p, 0, c, t, u).0, learn(p, 0, c, t, u).1, kk, bound + 2),
        extends(t, learn(p, 0, c, t, u).0),
        forall|l: int| 0 < l <= kk ==> learn(p, 0, c, t, u).0[l] == t[l],
        ctx_index(learn(p, 0, c, t, u).0[0], suffix(p, 0)) >= 0,
        has_key(learn(p, 0, c, t, u).0[0][ctx_index(learn(p, 0, c, t, u).0[0], suffix(p, 0))].1, c),
{
    let s = suffix(p, 0);
    assert(s =~= Seq::<char>::empty());
    let i = ctx_index(t[0], s);
    lemma_ctx_index(t[0], s);
    assert forall|l: int| 0 <= l <= kk implies #[trigger] level_ok(t, l, bound + 2) by {
        if l == 0 {
            lemma_level_ok_weaken(t, l, bound, bound + 2);
        }
    }
    let item = t[0][i].1;
    assert(level_ok(t, 0, bound));
    assert(t[0][i].0.len() == 0 && item_ok(item, bound));
    let item2 = if has_key(item, c) {
        bump(item, c)
    } else {
        introduce(item, c)
    };
    if has_key(item, c) {
        lemma_bump(item, c);
    } else {
        lemma_introduce(item, c);
    }
    lemma_keys_symbols(item, item2, c);
    assert(item_ok(item2, bound + 2));
    assert(has_key(item2, c));
    let t2 = set_item(t, 0, i, item2);
    lemma_set_item_extends(t, 0, i, item2);
    let u2 = if has_key(item, c) {
        u
    } else {
        u.remove(char_index(u, c))
    };
    assert(learn(p, 0, c, t, u) == (t2, u2));
    assert(t0_item(t2) == item2);
    assert forall|l: int| 0 <= l <= kk implies #[trigger] level_ok(t2, l, bound + 2) by {
        assert(level_ok(t, l, bound + 2));
        if l == 0 {
            assert(t2[l].len() == t[l].len());
            assert forall|i2: int| 0 <= i2 < t2[l].len() implies #[trigger] t2[l][i2].0.len() == l && item_ok(
                t2[l][i2].1,
                bound + 2,
            ) by {
                if i2 != i {
                    assert(t2[l][i2] == t[l][i2]);
                    assert(t[l][i2].0.len() == l && item_ok(t[l][i2].1, bound + 2));
                } else {
                    assert(t2[l][i2].0 == t[l][i2].0);
                    assert(t2[l][i2].1 == item2);
                }
            }
        }
    }
    assert forall|l: int, i2: int| 1 <= l <= kk && 0 <= i2 < t2[l].len() implies #[trigger] suffix_closed(t2, l, i2) by {
        assert(t2[l] == t[l]);
        if suffix_closed(t, l, i2) {
            lemma_closed_transfer(t, t2, l, i2);
        } else {
            assert(pending(t, l, i2, p, 0, c));
            lemma_resolve_pending(t, t2, l, i2, p, 0, c);
        }
    }
    if !has_key(item, c) {
        lemma_unseen_remove(item, item2, u, c);
    }
}

/// Taking a newly seen letter out of the unseen letters keeps them in step
/// with level zero.
pub proof fn lemma_unseen_remove(item: ItemView, item2: ItemView, u: Seq<char>, c: char)
    requires
        unseen_ok(item, u),
        is_letter(c),
        !has_key(item, c),
        forall|x: char| has_key(item2, x) <==> (has_key(item, x) || x == c || x == RO),
    ensures
        char_index(u, c) >= 0,
        sorted_chars(u),
        unseen_ok(item2, u.remove(char_index(u, c))),
{
    assert(u.contains(c));
    lemma_char_index(u, c);
    let ci = char_index(u, c);
    let u2 = u.remove(ci);
    assert forall|x: char| is_letter(x) implies (u2.contains(x) <==> !has_key(item2, x)) by {
        if u2.contains(x) {
            let k = choose|k: int| 0 <= k < u2.len() && u2[k] == x;
            if k < ci {
                assert(u[k] == x);
            } else {
                assert(u[k + 1] == x);
                assert((u[ci] as u32) < (u[k + 1] as u32));
            }
        }
        if !has_key(item2, x) {
            assert(u.contains(x));
            let k = choose|k: int| 0 <= k < u.len() && u[k] == x;
            if k < ci {
                assert(u2[k] == x);
            } else if k > ci {
                assert(u2[k - 1] == x);
            }
        }
    }
    assert forall|a: int, b: int| 0 <= a < b < u2.len() implies (u2[a] as u32) < (u2[b] as u32) by {
        if b < ci {
        } else if a < ci {
            assert(u2[b] == u[b + 1]);
        } else {
            assert(u2[a] == u[a + 1]);
            assert(u2[b] == u[b + 1]);
        }
    }
    assert forall|a: int| 0 <= a < u2.len() implies is_letter(#[trigger] u2[a]) by {
        if a < ci {
            assert(u2[a] == u[a]);
        } else {
            assert(u2[a] == u[a + 1]);
        }
    }
}

/// Learning at a level where the context knows `c`: only a use is added.
proof fn lemma_learn_hit(p: Seq<char>, j: nat, c: char, t: TableView, u: Seq<char>, kk: nat, bound: nat)
    requires
        learn_ready(p, j, c, t, u, kk, bound),
        j > 0,
        ctx_index(t[j as int], suffix(p, j)) >= 0,
        has_key(t[j as int][ctx_index(t[j as int], suffix(p, j))].1, c),
    ensures
        learn_defined(p, j, c, t, u),
        model_ok(learn(p, j, c, t, u).0, learn(p, j, c, t, u).1, kk, bound + 2),
        extends(t, learn(p, j, c, t, u).0),
        forall|l: int| j < l <= kk ==> learn(p, j, c, t, u).0[l] == t[l],
        ctx_index(learn(p, j, c, t, u).0[j as int], suffix(p, j)) >= 0,
        has_key(learn(p, j, c, t, u).0[j as int][ctx_index(learn(p, j, c, t, u).0[j as int], suffix(p, j))].1, c),
{
    let s = suffix(p, j);
    let i = ctx_index(t[j as int], s);
    lemma_ctx_index(t[j as int], s);
    assert forall|l: int| 0 <= l <= kk implies #[trigger] level_ok(t, l, bound + 2) by {
        if l <= j {
            lemma_level_ok_weaken(t, l, bound, bound + 2);
        }
    }
    let item = t[j as int][i].1;
    assert(level_ok(t, j as int, bound));
    assert(t[j as int][i].0.len() == j && item_ok(item, bound));
    let item2 = bump(item, c);
    lemma_bump(item, c);
    lemma_keys_symbols(item, item2, c);
    assert(item_ok(item2, bound + 2));
    let t2 = set_item(t, j as int, i, item2);
    lemma_set_item_extends(t, j as int, i, item2);
    assert(learn(p, j, c, t, u) == (t2, u));
    assert(t2[0] == t[0]);
    assert forall|l: int| 0 <= l <= kk implies #[trigger] level_ok(t2, l, bound + 2) by {
        assert(level_ok(t, l, bound + 2));
        if l == j {
            assert forall|i2: int| 0 <= i2 < t2[l].len() implies #[trigger] t2[l][i2].0.len() == l && item_ok(
                t2[l][i2].1,
                bound + 2,
            ) by {
                if i2 != i {
                    assert(t2[l][i2] == t[l][i2]);
                } else {
                    assert(t2[l][i2].0 == t[l][i2].0);
                    assert(t2[l][i2].1 == item2);
                }
            }
        }
    }
    assert forall|l: int, i2: int| 1 <= l <= kk && 0 <= i2 < t2[l].len() implies #[trigger] suffix_closed(t2, l, i2) by {
        if suffix_closed(t, l, i2) {
            lemma_closed_transfer(t, t2, l, i2);
        } else {
            assert(pending(t, l, i2, p, j, c));
            assert(t2[l] == t[l]);
            lemma_resolve_pending(t, t2, l, i2, p, j, c);
        }
    }
    assert(has_key(item2, c));
}

/// Learning at a level where the context lacks `c`: `c` and the escape enter
/// and the walk is ready to go one level down.
proof fn lemma_learn_miss(p: Seq<char>, j: nat, c: char, t: TableView, u: Seq<char>, kk: nat, bound: nat)
    requires
        learn_ready(p, j, c, t, u, kk, bound),
        j > 0,
        ctx_index(t[j as int], suffix(p, j)) >= 0,
        !has_key(t[j as int][ctx_index(t[j as int], suffix(p, j))].1, c),
    ensures
        ({
            let i = ctx_index(t[j as int], suffix(p, j));
            let t1 = set_item(t, j as int, i, introduce(t[j as int][i].1, c));
            &&& learn_ready(p, (j - 1) as nat, c, t1, u, kk, bound)
            &&& usage_sum(t[j as int][i].1) + 2 <= usize::MAX
            &&& extends(t, t1)
            &&& forall|l: int| j < l <= kk ==> t1[l] == t[l]
            &&& ctx_index(t1[j as int], suffix(p, j)) == i
            &&& has_key(t1[j as int][i].1, c)
        }),
{
    let s = suffix(p, j);
    let i = ctx_index(t[j as int], s);
    lemma_ctx_index(t[j as int], s);
    let item = t[j as int][i].1;
    assert(0 <= i < t[j as int].len());
    assert(level_ok(t, j as int, bound));
    assert(t[j as int][i].0.len() == j && item_ok(item, bound));
    assert(t[j as int][i].0 == s);
    let item2 = introduce(item, c);
    lemma_introduce(item, c);
    lemma_keys_symbols(item, item2, c);
    assert(item_ok(item2, bound + 2));
    let t1 = set_item(t, j as int, i, item2);
    lemma_set_item_extends(t, j as int, i, item2);
    assert(t1[0] == t[0]);
    assert(suffix(p, (j - 1) as nat) =~= s.drop_first());
    assert forall|l: int| 0 <= l <= j - 1 implies #[trigger] level_ok(t1, l, bound) by {
        assert(level_ok(t, l, bound));
        assert(t1[l] == t[l]);
    }
    assert forall|l: int| j - 1 < l <= kk implies #[trigger] level_ok(t1, l, bound + 2) by {
        if l == j {
            assert forall|i2: int| 0 <= i2 < t1[l].len() implies #[trigger] t1[l][i2].0.len() == l && item_ok(
                t1[l][i2].1,
                bound + 2,
            ) by {
                if i2 != i {
                    assert(t1[l][i2] == t[l][i2]);
                    lemma_level_ok_weaken(t, l, bound, bound + 2);
                } else {
                    assert(t1[l][i2].0 == t[l][i2].0);
                    assert(t1[l][i2].1 == item2);
                }
            }
        } else {
            assert(level_ok(t, l, bound + 2));
            assert(t1[l] == t[l]);
        }
    }
    assert(has_key(item2, c));
    assert forall|l: int, i2: int| 1 <= l <= kk && 0 <= i2 < t1[l].len() implies #[trigger] suffix_closed(t1, l, i2)
        || pending(t1, l, i2, p, (j - 1) as nat, c) by {
        if l == j && i2 == i {
            assert(suffix_closed(t, l, i2) || pending(t, l, i2, p, j, c));
            assert(suffix_closed(t, l, i2));
            let pi = ctx_index(t[l - 1], s.drop_first());
            lemma_ctx_index(t[l - 1], s.drop_first());
            assert(t1[l - 1] == t[l - 1]);
            assert forall|x: char| #[trigger] has_key(item2, x) && x != RO && x != c implies has_key(
                t1[l - 1][pi].1,
                x,
            ) by {
                assert(has_key(item, x));
            }
            assert(t1[l][i2].1 == item2);
            assert(pending(t1, l, i2, p, (j - 1) as nat, c));
        } else if suffix_closed(t, l, i2) {
            lemma_closed_transfer(t, t1, l, i2);
        } else {
            assert(pending(t, l, i2, p, j, c));
            assert(t1[l] == t[l]);
            lemma_resolve_pending(t, t1, l, i2, p, j, c);
        }
    }
}

/// Learning at a level where the context is new: it is created holding `c`
/// and the escape, and the walk is ready to go one level down.
proof fn lemma_learn_new(p: Seq<char>, j: nat, c: char, t: TableView, u: Seq<char>, kk: nat, bound: nat)
    requires
        learn_ready(p, j, c, t, u, kk, bound),
        j > 0,
        ctx_index(t[j as int], suffix(p, j)) < 0,
    ensures
        ({
            let s = suffix(p, j);
            let t1 = push_context(t, j as int, s, introduce(Seq::empty(), c));
            &&& learn_ready(p, (j - 1) as nat, c, t1, u, kk, bound)
            &&& extends(t, t1)
            &&& forall|l: int| j < l <= kk ==> t1[l] == t[l]
            &&& ctx_index(t1[j as int], s) >= 0
            &&& has_key(t1[j as int][ctx_index(t1[j as int], s)].1, c)
        }),
{
    let s = suffix(p, j);
    let empty = Seq::<(char, crate::huffman::huffman_token::Token)>::empty();
    let item2 = introduce(empty, c);
    assert(usage_sum(empty) == 0);
    assert(!has_key(empty, c));
    assert(sorted_keys(empty));
    lemma_introduce(empty, c);
    assert(has_key(item2, RO));
    assert(has_key(item2, c));
    let n = t[j as int].len() as int;
    let t1 = push_context(t, j as int, s, item2);
    lemma_push_extends(t, j as int, s, item2);
    assert(t1[0] == t[0]);
    assert(ctx_index(t1[j as int], s) == n);
    assert(t1[j as int][n].1 == item2);
    assert(suffix(p, (j - 1) as nat) =~= s.drop_first());
    assert forall|x: char| #[trigger] has_key(item2, x) implies x == c || x == RO by {
        assert(!has_key(empty, x));
    }
    assert forall|l: int| 0 <= l <= j - 1 implies #[trigger] level_ok(t1, l, bound) by {
        assert(level_ok(t, l, bound));
        assert(t1[l] == t[l]);
    }
    assert forall|l: int| j - 1 < l <= kk implies #[trigger] level_ok(t1, l, bound + 2) by {
        if l == j {
            assert forall|i2: int| 0 <= i2 < t1[l].len() implies #[trigger] t1[l][i2].0.len() == l && item_ok(
                t1[l][i2].1,
                bound + 2,
            ) by {
                if i2 != n {
                    assert(t1[l][i2] == t[l][i2]);
                    assert(level_ok(t, l, bound));
                } else {
                    lemma_keys_symbols(empty, item2, c);
                    assert(item_ok(item2, bound + 2));
                }
            }
        } else {
            assert(level_ok(t, l, bound + 2));
            assert(t1[l] == t[l]);
        }
    }
    assert forall|l: int, i2: int| 1 <= l <= kk && 0 <= i2 < t1[l].len() implies #[trigger] suffix_closed(t1, l, i2)
        || pending(t1, l, i2, p, (j - 1) as nat, c) by {
        if l == j && i2 == n {
            assert(t1[l][i2] == (s, item2));
            assert(pending(t1, l, i2, p, (j - 1) as nat, c));
        } else if suffix_closed(t, l, i2) {
            lemma_closed_transfer(t, t1, l, i2);
        } else {
            assert(pending(t, l, i2, p, j, c));
            assert(t1[l] == t[l]);
            lemma_resolve_pending(t, t1, l, i2, p, j, c);
        }
    }
}

/// One learning walk keeps the model's invariant (with two more uses allowed
/// per context), runs without failure, only extends the model, leaves the
/// levels above the walk alone, and leaves `c` known at its starting level.
pub proof fn lemma_learn_keeps_model(
    p: Seq<char>,
    j: nat,
    c: char,
    t: TableView,
    u: Seq<char>,
    kk: nat,
    bound: nat,
)
    requires
        learn_ready(p, j, c, t, u, kk, bound),
    ensures
        learn_defined(p, j, c, t, u),
        model_ok(learn(p, j, c, t, u).0, learn(p, j, c, t, u).1, kk, bound + 2),
        extends(t, learn(p, j, c, t, u).0),
        forall|l: int| j < l <= kk ==> learn(p, j, c, t, u).0[l] == t[l],
        ctx_index(learn(p, j, c, t, u).0[j as int], suffix(p, j)) >= 0,
        has_key(
            learn(p, j, c, t, u).0[j as int][ctx_index(learn(p, j, c, t, u).0[j as int], suffix(p, j))].1,
            c,
        ),
    decreases j,
{
    let s = suffix(p, j);
    let i = ctx_index(t[j as int], s);
    if j == 0 {
        lemma_learn_level_zero(p, c, t, u, kk, bound);
    } else if i >= 0 {
        if has_key(t[j as int][i].1, c) {
            lemma_learn_hit(p, j, c, t, u, kk, bound);
        } else {
            lemma_learn_miss(p, j, c, t, u, kk, bound);
            let t1 = set_item(t, j as int, i, introduce(t[j as int][i].1, c));
            lemma_learn_keeps_model(p, (j - 1) as nat, c, t1, u, kk, bound);
            let t2 = learn(p, (j - 1) as nat, c, t1, u).0;
            assert(learn(p, j, c, t, u) == learn(p, (j - 1) as nat, c, t1, u));
            lemma_extends_trans(t, t1, t2);
            assert(t2[j as int] == t1[j as int]);
        }
    } else {
        lemma_learn_new(p, j, c, t, u, kk, bound);
        let t1 = push_context(t, j as int, s, introduce(Seq::empty(), c));
        lemma_learn_keeps_model(p, (j - 1) as nat, c, t1, u, kk, bound);
        let t2 = learn(p, (j - 1) as nat, c, t1, u).0;
        assert(learn(p, j, c, t, u) == learn(p, (j - 1) as nat, c, t1, u));
        lemma_extends_trans(t, t1, t2);
        assert(t2[j as int] == t1[j as int]);
    }
}

} // verus!
