//! The PPM model: for every context length, the contexts seen so far and, in
//! each, how often every symbol followed it.
use vstd::prelude::*;
use crate::huffman::huffman_token::Token;
use crate::huffman::RO;
use crate::util::binary_tree::{BinaryTree, Node, build, leaf, leaves_of, weight_sum};
use crate::util::token::Token as SymbolToken;

verus! {

/// The entries of one context: symbols with their tokens.
pub type ItemView = Seq<(char, Token)>;

/// The symbols that followed one context, with their usage, in symbol order.
pub struct ContextItem {
    pub entries: Vec<(char, Token)>,
}

impl View for ContextItem {
    type V = Seq<(char, Token)>;

    open spec fn view(&self) -> Seq<(char, Token)> {
        self.entries@
    }
}

/// Position of the first entry for `c`, or -1.
pub open spec fn key_index(s: ItemView, c: char) -> int
    decreases s.len(),
{
    if s.len() == 0 {
        -1
    } else if s[0].0 == c {
        0
    } else {
        let r = key_index(s.drop_first(), c);
        if r < 0 {
            -1
        } else {
            r + 1
        }
    }
}

/// Whether `c` has an entry.
pub open spec fn has_key(s: ItemView, c: char) -> bool {
    exists|i: int| 0 <= i < s.len() && #[trigger] s[i].0 == c
}

/// The entries are in strictly increasing symbol order.
pub open spec fn sorted_keys(s: ItemView) -> bool {
    forall|i: int, j: int| 0 <= i < j < s.len() ==> (s[i].0 as u32) < (s[j].0 as u32)
}

/// Number of leading entries whose symbol comes before `c`.
pub open spec fn insert_pos(s: ItemView, c: char) -> nat
    decreases s.len(),
{
    if s.len() == 0 {
        0
    } else if (s[0].0 as u32) < (c as u32) {
        1 + insert_pos(s.drop_first(), c)
    } else {
        0
    }
}

/// Sum of the usages of the entries.
pub open spec fn usage_sum(s: ItemView) -> int
    decreases s.len(),
{
    if s.len() == 0 {
        0
    } else {
        usage_sum(s.drop_last()) + s.last().1.usage
    }
}

/// The entries with every total set to their usage sum.
pub open spec fn retotal(s: ItemView) -> ItemView {
    Seq::new(s.len(), |i: int| (s[i].0, Token { usage: s[i].1.usage, total: usage_sum(s) as usize }))
}

/// A token of usage one and no total.
pub open spec fn fresh_token() -> Token {
    Token { usage: 1, total: 0 }
}

/// The entry at `i` with its usage raised by one.
pub open spec fn raise(s: ItemView, i: int) -> ItemView {
    s.update(i, (s[i].0, Token { usage: (s[i].1.usage + 1) as usize, total: s[i].1.total }))
}

/// `s` with a fresh entry for `c` put in symbol order.
pub open spec fn insert_key(s: ItemView, c: char) -> ItemView {
    s.insert(insert_pos(s, c) as int, (c, fresh_token()))
}

/// A seen symbol: its usage goes up by one and the totals are recomputed.
pub open spec fn bump(s: ItemView, c: char) -> ItemView {
    retotal(raise(s, key_index(s, c)))
}

/// A new symbol: it enters with usage one, the escape's usage goes up by one
/// (or it enters with usage one), and the totals are recomputed.
pub open spec fn introduce(s: ItemView, c: char) -> ItemView {
    let s1 = insert_key(s, c);
    let s2 = if has_key(s1, RO) {
        raise(s1, key_index(s1, RO))
    } else {
        insert_key(s1, RO)
    };
    retotal(s2)
}

pub proof fn lemma_key_index(s: ItemView, c: char)
    ensures
        -1 <= key_index(s, c) < s.len(),
        key_index(s, c) >= 0 <==> has_key(s, c),
        key_index(s, c) >= 0 ==> s[key_index(s, c)].0 == c,
        forall|j: int| 0 <= j < key_index(s, c) ==> s[j].0 != c,
        key_index(s, c) < 0 ==> forall|j: int| 0 <= j < s.len() ==> s[j].0 != c,
    decreases s.len(),
{
    if s.len() > 0 {
        lemma_key_index(s.drop_first(), c);
        if s[0].0 != c {
            assert forall|j: int| 0 <= j < key_index(s, c) implies s[j].0 != c by {
                if j > 0 {
                    assert(s[j] == s.drop_first()[j - 1]);
                }
            }
            if has_key(s, c) {
                let j = choose|j: int| 0 <= j < s.len() && #[trigger] s[j].0 == c;
                assert(s.drop_first()[j - 1].0 == c);
            }
            if key_index(s, c) < 0 {
                assert forall|j: int| 0 <= j < s.len() implies s[j].0 != c by {
                    if j > 0 {
                        assert(s[j] == s.drop_first()[j - 1]);
                    }
                }
            }
        }
    }
}

pub proof fn lemma_insert_pos(s: ItemView, c: char)
    ensures
        insert_pos(s, c) <= s.len(),
        forall|j: int| 0 <= j < insert_pos(s, c) ==> (s[j].0 as u32) < (c as u32),
        insert_pos(s, c) < s.len() ==> !((s[insert_pos(s, c) as int].0 as u32) < (c as u32)),
    decreases s.len(),
{
    if s.len() > 0 && (s[0].0 as u32) < (c as u32) {
        lemma_insert_pos(s.drop_first(), c);
        assert forall|j: int| 0 <= j < insert_pos(s, c) implies (s[j].0 as u32) < (c as u32) by {
            if j > 0 {
                assert(s[j] == s.drop_first()[j - 1]);
            }
        }
    }
}

/// Putting a new symbol at its place keeps the entries in order.
pub proof fn lemma_insert_key_sorted(s: ItemView, c: char)
    requires
        sorted_keys(s),
        !has_key(s, c),
    ensures
        sorted_keys(insert_key(s, c)),
        insert_key(s, c).len() == s.len() + 1,
        insert_key(s, c)[insert_pos(s, c) as int].0 == c,
        forall|x: char| has_key(insert_key(s, c), x) <==> (has_key(s, x) || x == c),
{
    lemma_insert_pos(s, c);
    let p = insert_pos(s, c) as int;
    let t = insert_key(s, c);
    assert forall|i: int, j: int| 0 <= i < j < t.len() implies (t[i].0 as u32) < (t[j].0 as u32) by {
        if p < s.len() {
            assert(s[p].0 != c);
            lemma_char_code_injective(s[p].0, c);
            assert((c as u32) < (s[p].0 as u32));
        }
        if j < p {
            assert(t[i] == s[i] && t[j] == s[j]);
        } else if j == p {
            assert(t[i] == s[i] && t[j].0 == c);
        } else if i < p {
            assert(t[i] == s[i] && t[j] == s[j - 1]);
        } else if i == p {
            assert(t[i].0 == c && t[j] == s[j - 1]);
            if j - 1 > p {
                assert((s[p].0 as u32) < (s[j - 1].0 as u32));
            }
        } else {
            assert(t[i] == s[i - 1] && t[j] == s[j - 1]);
        }
    }
    assert forall|x: char| has_key(t, x) <==> (has_key(s, x) || x == c) by {
        if has_key(t, x) {
            let k = choose|k: int| 0 <= k < t.len() && #[trigger] t[k].0 == x;
            if k < p {
                assert(s[k].0 == x);
            } else if k > p {
                assert(s[k - 1].0 == x);
            }
        }
        if has_key(s, x) {
            let k = choose|k: int| 0 <= k < s.len() && #[trigger] s[k].0 == x;
            if k < p {
                assert(t[k].0 == x);
            } else {
                assert(t[k + 1].0 == x);
            }
        }
        if x == c {
            assert(t[p].0 == x);
        }
    }
}

pub proof fn lemma_usage_sum_concat(a: ItemView, b: ItemView)
    ensures
        usage_sum(a + b) == usage_sum(a) + usage_sum(b),
    decreases b.len(),
{
    if b.len() > 0 {
        lemma_usage_sum_concat(a, b.drop_last());
        assert((a + b).drop_last() =~= a + b.drop_last());
    } else {
        assert(a + b =~= a);
    }
}

pub proof fn lemma_usage_sum_single(e: (char, Token))
    ensures
        usage_sum(seq![e]) == e.1.usage,
{
    assert(seq![e].drop_last() =~= Seq::<(char, Token)>::empty());
    assert(usage_sum(Seq::<(char, Token)>::empty()) == 0);
}

pub proof fn lemma_usage_sum_nonneg(s: ItemView)
    ensures
        usage_sum(s) >= 0,
        forall|i: int| 0 <= i < s.len() ==> s[i].1.usage <= usage_sum(s),
    decreases s.len(),
{
    if s.len() > 0 {
        lemma_usage_sum_nonneg(s.drop_last());
        assert forall|i: int| 0 <= i < s.len() implies s[i].1.usage <= usage_sum(s) by {
            if i < s.len() - 1 {
                assert(s[i] == s.drop_last()[i]);
            }
        }
    }
}

pub proof fn lemma_usage_sum_update(s: ItemView, i: int, e: (char, Token))
    requires
        0 <= i < s.len(),
    ensures
        usage_sum(s.update(i, e)) == usage_sum(s) - s[i].1.usage + e.1.usage,
{
    let a = s.subrange(0, i);
    let b = s.subrange(i + 1, s.len() as int);
    assert(s =~= a + seq![s[i]] + b);
    assert(s.update(i, e) =~= a + seq![e] + b);
    lemma_usage_sum_concat(a + seq![s[i]], b);
    lemma_usage_sum_concat(a, seq![s[i]]);
    lemma_usage_sum_concat(a + seq![e], b);
    lemma_usage_sum_concat(a, seq![e]);
    lemma_usage_sum_single(s[i]);
    lemma_usage_sum_single(e);
}

pub proof fn lemma_usage_sum_insert(s: ItemView, i: int, e: (char, Token))
    requires
        0 <= i <= s.len(),
    ensures
        usage_sum(s.insert(i, e)) == usage_sum(s) + e.1.usage,
{
    let a = s.subrange(0, i);
    let b = s.subrange(i, s.len() as int);
    assert(s =~= a + b);
    assert(s.insert(i, e) =~= a + seq![e] + b);
    lemma_usage_sum_concat(a + seq![e], b);
    lemma_usage_sum_concat(a, seq![e]);
    lemma_usage_sum_concat(a, b);
    lemma_usage_sum_single(e);
}

/// Sums depend on the usages only.
pub proof fn lemma_usage_sum_same_usages(s: ItemView, t: ItemView)
    requires
        s.len() == t.len(),
        forall|i: int| 0 <= i < s.len() ==> s[i].1.usage == t[i].1.usage,
    ensures
        usage_sum(s) == usage_sum(t),
    decreases s.len(),
{
    if s.len() > 0 {
        lemma_usage_sum_same_usages(s.drop_last(), t.drop_last());
    }
}

/// Recomputing totals keeps symbols and usages.
pub proof fn lemma_retotal(s: ItemView)
    ensures
        retotal(s).len() == s.len(),
        forall|i: int| 0 <= i < s.len() ==> #[trigger] retotal(s)[i].0 == s[i].0 && retotal(s)[i].1.usage == s[i].1.usage,
        usage_sum(retotal(s)) == usage_sum(s),
        forall|x: char| #[trigger] has_key(retotal(s), x) == has_key(s, x),
        sorted_keys(s) ==> sorted_keys(retotal(s)),
        key_index(retotal(s), RO) == key_index(s, RO),
{
    lemma_usage_sum_same_usages(s, retotal(s));
    assert forall|x: char| has_key(retotal(s), x) == has_key(s, x) by {
        if has_key(s, x) {
            let k = choose|k: int| 0 <= k < s.len() && #[trigger] s[k].0 == x;
            assert(retotal(s)[k].0 == x);
        }
        if has_key(retotal(s), x) {
            let k = choose|k: int| 0 <= k < s.len() && #[trigger] retotal(s)[k].0 == x;
            assert(s[k].0 == x);
        }
    }
    lemma_key_index_same_keys(s, retotal(s), RO);
}

pub proof fn lemma_key_index_same_keys(s: ItemView, t: ItemView, c: char)
    requires
        s.len() == t.len(),
        forall|i: int| 0 <= i < s.len() ==> s[i].0 == t[i].0,
    ensures
        key_index(s, c) == key_index(t, c),
    decreases s.len(),
{
    if s.len() > 0 {
        lemma_key_index_same_keys(s.drop_first(), t.drop_first(), c);
    }
}

/// A seen symbol's usage goes up: the symbols and their order stay, the sum
/// grows by one.
pub proof fn lemma_bump(s: ItemView, c: char)
    requires
        has_key(s, c),
        usage_sum(s) < usize::MAX,
    ensures
        bump(s, c).len() == s.len(),
        forall|x: char| #[trigger] has_key(bump(s, c), x) == has_key(s, x),
        forall|i: int| 0 <= i < s.len() ==> #[trigger] bump(s, c)[i].0 == s[i].0,
        sorted_keys(s) ==> sorted_keys(bump(s, c)),
        usage_sum(bump(s, c)) == usage_sum(s) + 1,
{
    lemma_key_index(s, c);
    lemma_usage_sum_nonneg(s);
    let i = key_index(s, c);
    let r = raise(s, i);
    lemma_usage_sum_update(s, i, r[i]);
    lemma_retotal(r);
    assert forall|x: char| has_key(r, x) == has_key(s, x) by {
        if has_key(s, x) {
            let k = choose|k: int| 0 <= k < s.len() && #[trigger] s[k].0 == x;
            assert(r[k].0 == x);
        }
        if has_key(r, x) {
            let k = choose|k: int| 0 <= k < r.len() && #[trigger] r[k].0 == x;
            assert(s[k].0 == x);
        }
    }
    assert forall|i: int| 0 <= i < s.len() implies #[trigger] bump(s, c)[i].0 == s[i].0 by {
        assert(r[i].0 == s[i].0);
    }
}

/// A new symbol enters with the escape: the symbols stay in order, the sum
/// grows by two.
pub proof fn lemma_introduce(s: ItemView, c: char)
    requires
        sorted_keys(s),
        !has_key(s, c),
        c != RO,
        usage_sum(s) + 2 <= usize::MAX,
    ensures
        sorted_keys(introduce(s, c)),
        forall|x: char| #[trigger] has_key(introduce(s, c), x) <==> (has_key(s, x) || x == c || x == RO),
        usage_sum(introduce(s, c)) == usage_sum(s) + 2,
{
    let s1 = insert_key(s, c);
    lemma_insert_key_sorted(s, c);
    lemma_insert_pos(s, c);
    lemma_usage_sum_insert(s, insert_pos(s, c) as int, (c, fresh_token()));
    if has_key(s1, RO) {
        lemma_bump(s1, RO);
        assert(retotal(raise(s1, key_index(s1, RO))) == bump(s1, RO));
    } else {
        lemma_insert_key_sorted(s1, RO);
        lemma_insert_pos(s1, RO);
        lemma_usage_sum_insert(s1, insert_pos(s1, RO) as int, (RO, fresh_token()));
        lemma_retotal(insert_key(s1, RO));
    }
}

pub proof fn lemma_char_code_injective(a: char, b: char)
    ensures
        (a as u32) == (b as u32) ==> a == b,
{
}

impl ContextItem {
    /// An empty context.
    pub fn new() -> (item: ContextItem)
        ensures
            item@ == Seq::<(char, Token)>::empty(),
    {
        ContextItem { entries: Vec::new() }
    }

    /// Position of the entry for `c`.
    pub fn find(&self, c: char) -> (r: Option<usize>)
        ensures
            r matches Some(i) ==> i == key_index(self@, c),
            r is None ==> key_index(self@, c) == -1,
    {
        proof {
            lemma_key_index(self@, c);
        }
        let mut i: usize = 0;
        while i < self.entries.len()
            invariant
                i <= self.entries.len(),
                forall|j: int| 0 <= j < i ==> self@[j].0 != c,
                -1 <= key_index(self@, c) < self@.len(),
                key_index(self@, c) >= 0 ==> self@[key_index(self@, c)].0 == c,
                forall|j: int| 0 <= j < key_index(self@, c) ==> self@[j].0 != c,
                key_index(self@, c) < 0 ==> forall|j: int| 0 <= j < self@.len() ==> self@[j].0 != c,
            decreases self.entries.len() - i,
        {
            if self.entries[i].0 == c {
                return Some(i);
            }
            i = i + 1;
        }
        proof {
            if key_index(self@, c) >= 0 {
                assert(self@[key_index(self@, c)].0 == c);
            }
        }
        None
    }

    /// Whether `c` has an entry.
    pub fn contains_key(&self, c: char) -> (b: bool)
        ensures
            b == has_key(self@, c),
    {
        proof {
            lemma_key_index(self@, c);
        }
        self.find(c).is_some()
    }

    /// Number of entries.
    pub fn len(&self) -> (n: usize)
        ensures
            n == self@.len(),
    {
        self.entries.len()
    }

    /// Number of leading entries whose symbol comes before `c`.
    fn position_for(&self, c: char) -> (p: usize)
        ensures
            p == insert_pos(self@, c),
    {
        proof {
            lemma_insert_pos(self@, c);
        }
        let mut i: usize = 0;
        proof {
            assert(self@.subrange(0, self@.len() as int) =~= self@);
        }
        while i < self.entries.len() && (self.entries[i].0 as u32) < (c as u32)
            invariant
                i <= self.entries.len(),
                insert_pos(self@, c) == i + insert_pos(self@.subrange(i as int, self@.len() as int), c),
            decreases self.entries.len() - i,
        {
            proof {
                let tail = self@.subrange(i as int, self@.len() as int);
                assert(tail.drop_first() =~= self@.subrange(i + 1, self@.len() as int));
            }
            i = i + 1;
        }
        proof {
            if i < self.entries.len() {
                let tail = self@.subrange(i as int, self@.len() as int);
                assert(tail[0] == self@[i as int]);
            }
        }
        i
    }

    /// Raises the usage of the entry at `i` by one (totals untouched).
    fn raise_at(&mut self, i: usize)
        requires
            i < old(self)@.len(),
            old(self)@[i as int].1.usage < usize::MAX,
        ensures
            final(self)@ == raise(old(self)@, i as int),
    {
        let (c, t) = self.entries[i];
        let mut t2 = t;
        t2.increment_usage();
        self.entries.set(i, (c, t2));
    }

    /// Puts a fresh entry for `c` at its place in symbol order.
    fn insert_fresh(&mut self, c: char)
        ensures
            final(self)@ == insert_key(old(self)@, c),
    {
        let p = self.position_for(c);
        proof {
            lemma_insert_pos(self@, c);
        }
        self.entries.insert(p, (c, Token::new(1)));
    }
}

/// Sets the total of every entry to the sum of the usages.
pub fn update_totals(table: &mut ContextItem)
    requires
        usage_sum(old(table)@) <= usize::MAX,
    ensures
        final(table)@ == retotal(old(table)@),
{
    let ghost s = table@;
    let mut counter: usize = 0;
    let mut i: usize = 0;
    proof {
        assert(s.take(0) =~= Seq::<(char, Token)>::empty());
    }
    while i < table.entries.len()
        invariant
            i <= table.entries.len(),
            table@ == s,
            usage_sum(s) <= usize::MAX,
            counter == usage_sum(s.take(i as int)),
        decreases table.entries.len() - i,
    {
        proof {
            assert(s.take(i + 1).drop_last() =~= s.take(i as int));
            assert(s =~= s.take(i + 1) + s.skip(i + 1));
            lemma_usage_sum_concat(s.take(i + 1), s.skip(i + 1));
            lemma_usage_sum_nonneg(s.skip(i + 1));
        }
        counter = counter + table.entries[i].1.usage;
        i = i + 1;
    }
    proof {
        assert(s.take(i as int) =~= s);
    }
    let mut j: usize = 0;
    while j < table.entries.len()
        invariant
            j <= table.entries.len(),
            table@.len() == s.len(),
            counter == usage_sum(s),
            forall|k: int| 0 <= k < j ==> #[trigger] table@[k] == retotal(s)[k],
            forall|k: int| j <= k < s.len() ==> #[trigger] table@[k] == s[k],
        decreases table.entries.len() - j,
    {
        let (c, t) = table.entries[j];
        table.entries.set(j, (c, Token { usage: t.usage, total: counter }));
        j = j + 1;
    }
    proof {
        assert(table@ =~= retotal(s));
    }
}

/// A seen symbol: its usage goes up by one and the totals are recomputed.
pub(crate) fn bump_symbol(item: &mut ContextItem, c: char)
    requires
        has_key(old(item)@, c),
        usage_sum(old(item)@) < usize::MAX,
    ensures
        final(item)@ == bump(old(item)@, c),
{
    proof {
        lemma_key_index(item@, c);
        lemma_usage_sum_nonneg(item@);
    }
    let i = item.find(c).unwrap();
    item.raise_at(i);
    proof {
        lemma_usage_sum_update(old(item)@, i as int, item@[i as int]);
    }
    update_totals(item);
}

/// A new symbol: it enters with usage one, the escape's usage goes up by one
/// (or the escape enters with usage one), and the totals are recomputed.
pub(crate) fn introduce_symbol(item: &mut ContextItem, c: char)
    requires
        usage_sum(old(item)@) + 2 <= usize::MAX,
    ensures
        final(item)@ == introduce(old(item)@, c),
{
    let ghost s = item@;
    proof {
        lemma_insert_pos(s, c);
        lemma_usage_sum_insert(s, insert_pos(s, c) as int, (c, fresh_token()));
    }
    item.insert_fresh(c);
    let ghost s1 = item@;
    proof {
        lemma_key_index(s1, RO);
        lemma_usage_sum_nonneg(s1);
    }
    match item.find(RO) {
        Some(i) => {
            item.raise_at(i);
            proof {
                lemma_usage_sum_update(s1, i as int, item@[i as int]);
            }
        },
        None => {
            proof {
                lemma_insert_pos(s1, RO);
                lemma_usage_sum_insert(s1, insert_pos(s1, RO) as int, (RO, fresh_token()));
            }
            item.insert_fresh(RO);
        },
    }
    update_totals(item);
}

/// The contexts of one length with their entries.
pub type NodeView = Seq<(Seq<char>, ItemView)>;

/// The model: one node per context length.
pub type TableView = Seq<NodeView>;

/// The contexts of one length, each with the symbols that followed it.
pub struct ContextNode {
    pub contexts: Vec<(Vec<char>, ContextItem)>,
}

impl View for ContextNode {
    type V = NodeView;

    open spec fn view(&self) -> NodeView {
        self.contexts@.map_values(|e: (Vec<char>, ContextItem)| (e.0@, e.1@))
    }
}

/// The model, indexed by context length.
pub struct ContextTable {
    pub levels: Vec<ContextNode>,
}

impl View for ContextTable {
    type V = TableView;

    open spec fn view(&self) -> TableView {
        self.levels@.map_values(|n: ContextNode| n@)
    }
}

/// Position of the first context `s`, or -1.
pub open spec fn ctx_index(n: NodeView, s: Seq<char>) -> int
    decreases n.len(),
{
    if n.len() == 0 {
        -1
    } else if n[0].0 == s {
        0
    } else {
        let r = ctx_index(n.drop_first(), s);
        if r < 0 {
            -1
        } else {
            r + 1
        }
    }
}

pub proof fn lemma_ctx_index(n: NodeView, s: Seq<char>)
    ensures
        -1 <= ctx_index(n, s) < n.len(),
        ctx_index(n, s) >= 0 ==> n[ctx_index(n, s)].0 == s,
        forall|j: int| 0 <= j < ctx_index(n, s) ==> n[j].0 != s,
        ctx_index(n, s) < 0 ==> forall|j: int| 0 <= j < n.len() ==> n[j].0 != s,
    decreases n.len(),
{
    if n.len() > 0 {
        lemma_ctx_index(n.drop_first(), s);
        if n[0].0 != s {
            assert forall|j: int| 0 <= j < ctx_index(n, s) implies n[j].0 != s by {
                if j > 0 {
                    assert(n[j] == n.drop_first()[j - 1]);
                }
            }
            if ctx_index(n, s) < 0 {
                assert forall|j: int| 0 <= j < n.len() implies n[j].0 != s by {
                    if j > 0 {
                        assert(n[j] == n.drop_first()[j - 1]);
                    }
                }
            }
        }
    }
}

/// The last `j` symbols of `p`.
pub open spec fn suffix(p: Seq<char>, j: nat) -> Seq<char> {
    p.subrange(p.len() - j, p.len() as int)
}

/// Position of the first `c` in `u`, or -1.
pub open spec fn char_index(u: Seq<char>, c: char) -> int
    decreases u.len(),
{
    if u.len() == 0 {
        -1
    } else if u[0] == c {
        0
    } else {
        let r = char_index(u.drop_first(), c);
        if r < 0 {
            -1
        } else {
            r + 1
        }
    }
}

pub proof fn lemma_char_index(u: Seq<char>, c: char)
    ensures
        -1 <= char_index(u, c) < u.len(),
        char_index(u, c) >= 0 ==> u[char_index(u, c)] == c,
        char_index(u, c) < 0 <==> !u.contains(c),
        forall|j: int| 0 <= j < char_index(u, c) ==> u[j] != c,
    decreases u.len(),
{
    if u.len() > 0 {
        lemma_char_index(u.drop_first(), c);
        if u[0] != c {
            assert forall|j: int| 0 <= j < char_index(u, c) implies u[j] != c by {
                if j > 0 {
                    assert(u[j] == u.drop_first()[j - 1]);
                }
            }
            if u.contains(c) {
                let k = choose|k: int| 0 <= k < u.len() && u[k] == c;
                assert(u.drop_first()[k - 1] == c);
            }
            if u.drop_first().contains(c) {
                let k = choose|k: int| 0 <= k < u.drop_first().len() && u.drop_first()[k] == c;
                assert(u[k + 1] == c);
            }
        } else {
            assert(u[0] == c);
        }
    }
}

/// The entries of context `i` at level `j` replaced.
pub open spec fn set_item(t: TableView, j: int, i: int, item: ItemView) -> TableView {
    t.update(j, t[j].update(i, (t[j][i].0, item)))
}

/// A new context `s` at level `j`.
pub open spec fn push_context(t: TableView, j: int, s: Seq<char>, item: ItemView) -> TableView {
    t.update(j, t[j].push((s, item)))
}

/// The model after `c` followed the context `p`, starting at level `j`: from
/// there down, the context of each length (the last symbols of `p`) learns
/// `c`. Where `c` was seen it only gains a use and the walk stops; where not,
/// `c` and the escape enter (a context not seen yet is created) and the walk
/// goes one level down. At level zero a letter seen for the first time leaves
/// the list of unseen letters.
pub open spec fn learn(p: Seq<char>, j: nat, c: char, t: TableView, u: Seq<char>) -> (TableView, Seq<char>)
    decreases j,
{
    let s = suffix(p, j);
    let i = ctx_index(t[j as int], s);
    if j == 0 {
        let item = t[0][i].1;
        if has_key(item, c) {
            (set_item(t, 0, i, bump(item, c)), u)
        } else {
            (set_item(t, 0, i, introduce(item, c)), u.remove(char_index(u, c)))
        }
    } else if i >= 0 {
        let item = t[j as int][i].1;
        if has_key(item, c) {
            (set_item(t, j as int, i, bump(item, c)), u)
        } else {
            learn(p, (j - 1) as nat, c, set_item(t, j as int, i, introduce(item, c)), u)
        }
    } else {
        learn(p, (j - 1) as nat, c, push_context(t, j as int, s, introduce(Seq::empty(), c)), u)
    }
}

/// `learn` runs without a failed lookup or an overflow: every level visited
/// exists, level zero holds the empty context, the counts fit, and a letter
/// new at level zero is in the (sorted) list of unseen letters.
pub open spec fn learn_defined(p: Seq<char>, j: nat, c: char, t: TableView, u: Seq<char>) -> bool
    decreases j,
{
    let s = suffix(p, j);
    let i = ctx_index(t[j as int], s);
    &&& j < t.len()
    &&& j <= p.len()
    &&& if j == 0 {
        let item = t[0][i].1;
        &&& i >= 0
        &&& if has_key(item, c) {
            usage_sum(item) < usize::MAX
        } else {
            &&& usage_sum(item) + 2 <= usize::MAX
            &&& char_index(u, c) >= 0
            &&& sorted_chars(u)
        }
    } else if i >= 0 {
        let item = t[j as int][i].1;
        if has_key(item, c) {
            usage_sum(item) < usize::MAX
        } else {
            &&& usage_sum(item) + 2 <= usize::MAX
            &&& learn_defined(p, (j - 1) as nat, c, set_item(t, j as int, i, introduce(item, c)), u)
        }
    } else {
        learn_defined(p, (j - 1) as nat, c, push_context(t, j as int, s, introduce(Seq::empty(), c)), u)
    }
}

/// Strictly increasing characters.
pub open spec fn sorted_chars(u: Seq<char>) -> bool {
    forall|i: int, j: int| 0 <= i < j < u.len() ==> (u[i] as u32) < (u[j] as u32)
}

/// `learn` reads `p` only through its last `j` symbols.
pub proof fn lemma_learn_suffix(p: Seq<char>, q: Seq<char>, j: nat, c: char, t: TableView, u: Seq<char>)
    requires
        j <= p.len(),
        j <= q.len(),
        suffix(p, j) == suffix(q, j),
    ensures
        learn(p, j, c, t, u) == learn(q, j, c, t, u),
        learn_defined(p, j, c, t, u) == learn_defined(q, j, c, t, u),
    decreases j,
{
    if j > 0 {
        assert(suffix(p, (j - 1) as nat) =~= suffix(p, j).drop_first());
        assert(suffix(q, (j - 1) as nat) =~= suffix(q, j).drop_first());
        let s = suffix(p, j);
        let i = ctx_index(t[j as int], s);
        if i >= 0 {
            let item = t[j as int][i].1;
            lemma_learn_suffix(p, q, (j - 1) as nat, c, set_item(t, j as int, i, introduce(item, c)), u);
        } else {
            lemma_learn_suffix(p, q, (j - 1) as nat, c, push_context(t, j as int, s, introduce(Seq::empty(), c)), u);
        }
    }
}

/// Whether two character strings are equal.
pub fn same_chars(a: &Vec<char>, b: &Vec<char>) -> (r: bool)
    ensures
        r == (a@ == b@),
{
    if a.len() != b.len() {
        return false;
    }
    let mut i: usize = 0;
    while i < a.len()
        invariant
            i <= a.len() == b.len(),
            forall|j: int| 0 <= j < i ==> a@[j] == b@[j],
        decreases a.len() - i,
    {
        if a[i] != b[i] {
            return false;
        }
        i = i + 1;
    }
    proof {
        assert(a@ =~= b@);
    }
    true
}

/// A copy of a character string.
pub fn copy_chars(a: &Vec<char>) -> (r: Vec<char>)
    ensures
        r@ == a@,
{
    let mut r: Vec<char> = Vec::new();
    let mut i: usize = 0;
    while i < a.len()
        invariant
            i <= a.len(),
            r@ =~= a@.take(i as int),
        decreases a.len() - i,
    {
        r.push(a[i]);
        proof {
            assert(a@.take(i + 1) =~= a@.take(i as int).push(a@[i as int]));
        }
        i = i + 1;
    }
    proof {
        assert(a@.take(i as int) =~= a@);
    }
    r
}

/// `a` without its first character.
pub fn drop_first_char(a: &Vec<char>) -> (r: Vec<char>)
    requires
        a.len() >= 1,
    ensures
        r@ == a@.drop_first(),
{
    let mut r: Vec<char> = Vec::new();
    let mut i: usize = 1;
    while i < a.len()
        invariant
            1 <= i <= a.len(),
            r@ =~= a@.subrange(1, i as int),
        decreases a.len() - i,
    {
        r.push(a[i]);
        proof {
            assert(a@.subrange(1, i + 1) =~= a@.subrange(1, i as int).push(a@[i as int]));
        }
        i = i + 1;
    }
    proof {
        assert(a@.subrange(1, i as int) =~= a@.drop_first());
    }
    r
}

impl ContextItem {
    /// A copy of the entries.
    pub fn copy(&self) -> (r: ContextItem)
        ensures
            r@ == self@,
    {
        let mut entries: Vec<(char, Token)> = Vec::new();
        let mut i: usize = 0;
        while i < self.entries.len()
            invariant
                i <= self.entries.len(),
                entries@ =~= self@.take(i as int),
            decreases self.entries.len() - i,
        {
            entries.push(self.entries[i]);
            proof {
                assert(self@.take(i + 1) =~= self@.take(i as int).push(self@[i as int]));
            }
            i = i + 1;
        }
        proof {
            assert(self@.take(i as int) =~= self@);
        }
        ContextItem { entries }
    }
}

impl ContextNode {
    /// No contexts.
    pub fn new() -> (n: ContextNode)
        ensures
            n@ == Seq::<(Seq<char>, ItemView)>::empty(),
    {
        let n = ContextNode { contexts: Vec::new() };
        proof {
            assert(n@ =~= Seq::<(Seq<char>, ItemView)>::empty());
        }
        n
    }

    /// Position of the context `s`.
    pub fn find(&self, s: &Vec<char>) -> (r: Option<usize>)
        ensures
            r matches Some(i) ==> i == ctx_index(self@, s@),
            r is None ==> ctx_index(self@, s@) == -1,
    {
        proof {
            lemma_ctx_index(self@, s@);
        }
        let mut i: usize = 0;
        while i < self.contexts.len()
            invariant
                i <= self.contexts.len() == self@.len(),
                forall|j: int| 0 <= j < i ==> self@[j].0 != s@,
                -1 <= ctx_index(self@, s@) < self@.len(),
                ctx_index(self@, s@) >= 0 ==> self@[ctx_index(self@, s@)].0 == s@,
                forall|j: int| 0 <= j < ctx_index(self@, s@) ==> self@[j].0 != s@,
                ctx_index(self@, s@) < 0 ==> forall|j: int| 0 <= j < self@.len() ==> self@[j].0 != s@,
            decreases self.contexts.len() - i,
        {
            if same_chars(&self.contexts[i].0, s) {
                assert(self@[i as int].0 == s@);
                return Some(i);
            }
            assert(self@[i as int].0 != s@);
            i = i + 1;
        }
        None
    }

    /// Number of contexts.
    pub fn len(&self) -> (n: usize)
        ensures
            n == self@.len(),
    {
        self.contexts.len()
    }

    /// A copy of the contexts.
    pub fn copy(&self) -> (r: ContextNode)
        ensures
            r@ == self@,
    {
        let mut contexts: Vec<(Vec<char>, ContextItem)> = Vec::new();
        let mut i: usize = 0;
        while i < self.contexts.len()
            invariant
                i <= self.contexts.len(),
                contexts@.len() == i,
                forall|j: int| 0 <= j < i ==> #[trigger] contexts@[j].0@ == self.contexts@[j].0@ && contexts@[j].1@ == self.contexts@[j].1@,
            decreases self.contexts.len() - i,
        {
            let phrase = copy_chars(&self.contexts[i].0);
            let item = self.contexts[i].1.copy();
            let ghost before = contexts@;
            contexts.push((phrase, item));
            proof {
                assert forall|j: int| 0 <= j < i + 1 implies #[trigger] contexts@[j].0@ == self.contexts@[j].0@
                    && contexts@[j].1@ == self.contexts@[j].1@ by {
                    if j < i {
                        assert(contexts@[j] == before[j]);
                    }
                }
            }
            i = i + 1;
        }
        let r = ContextNode { contexts };
        proof {
            assert(r@ =~= self@);
        }
        r
    }
}

impl ContextTable {
    /// The entries of context `i` at level `j`.
    pub fn item(&self, j: usize, i: usize) -> (item: &ContextItem)
        requires
            j < self@.len(),
            i < self@[j as int].len(),
        ensures
            item@ == self@[j as int][i as int].1,
    {
        &self.levels[j].contexts[i].1
    }

    /// Position of the context `s` at level `j`.
    pub fn find(&self, j: usize, s: &Vec<char>) -> (r: Option<usize>)
        requires
            j < self@.len(),
        ensures
            r matches Some(i) ==> i == ctx_index(self@[j as int], s@),
            r is None ==> ctx_index(self@[j as int], s@) == -1,
    {
        self.levels[j].find(s)
    }

    /// Replaces the entries of context `i` at level `j`.
    pub fn set_item(&mut self, j: usize, i: usize, item: ContextItem)
        requires
            j < old(self)@.len(),
            i < old(self)@[j as int].len(),
        ensures
            final(self)@ == set_item(old(self)@, j as int, i as int, item@),
    {
        let mut node = ContextNode::new();
        self.levels.set_and_swap(j, &mut node);
        let mut entry: (Vec<char>, ContextItem) = (Vec::new(), ContextItem::new());
        node.contexts.set_and_swap(i, &mut entry);
        let (phrase, _) = entry;
        node.contexts.set(i, (phrase, item));
        self.levels.set(j, node);
        proof {
            assert(self@ =~= set_item(old(self)@, j as int, i as int, item@)) by {
                assert(self@[j as int] =~= old(self)@[j as int].update(i as int, (old(self)@[j as int][i as int].0, item@)));
            }
        }
    }

    /// Adds the context `s` with the given entries at level `j`.
    pub fn push_context(&mut self, j: usize, s: Vec<char>, item: ContextItem)
        requires
            j < old(self)@.len(),
        ensures
            final(self)@ == push_context(old(self)@, j as int, s@, item@),
    {
        let mut node = ContextNode::new();
        self.levels.set_and_swap(j, &mut node);
        node.contexts.push((s, item));
        self.levels.set(j, node);
        proof {
            assert(self@ =~= push_context(old(self)@, j as int, s@, item@)) by {
                assert(self@[j as int] =~= old(self)@[j as int].push((s@, item@)));
            }
        }
    }
}

/// The level the model starts learning at: the context length, at most `k`.
pub open spec fn start_level(len: nat, k: nat) -> nat {
    if len < k {
        len
    } else {
        k
    }
}

/// The model after `input` followed the phrase `frase`, walked as the model
/// update walks it, with phrase lengths counted in bytes of their UTF-8
/// encoding: while the phrase is shorter than `k`, `k` goes down; while it is
/// longer, it loses its first symbol; at the level of its length its context
/// learns `input` (gaining a use where it was seen, which ends the walk; else
/// `input` and the escape enter, the context being created if new) and the
/// walk goes on one level down with the phrase less its first symbol. With
/// the empty phrase at level zero the empty context learns `input`, and a
/// letter new there leaves the unseen letters.
pub open spec fn learn_walk(frase: Seq<char>, k: nat, c: char, t: TableView, u: Seq<char>) -> (TableView, Seq<char>)
    decreases frase.len() + k,
{
    proof {
        lemma_utf8_len_facts(frase);
    }
    let n = utf8_len(frase);
    if n == 0 && k == 0 {
        let i = ctx_index(t[0], frase);
        let item = t[0][i].1;
        if has_key(item, c) {
            (set_item(t, 0, i, bump(item, c)), u)
        } else {
            (set_item(t, 0, i, introduce(item, c)), u.remove(char_index(u, c)))
        }
    } else if n < k {
        learn_walk(frase, (k - 1) as nat, c, t, u)
    } else if n == k {
        let i = ctx_index(t[k as int], frase);
        if i >= 0 {
            let item = t[k as int][i].1;
            if has_key(item, c) {
                (set_item(t, k as int, i, bump(item, c)), u)
            } else {
                learn_walk(frase.drop_first(), (k - 1) as nat, c, set_item(t, k as int, i, introduce(item, c)), u)
            }
        } else {
            learn_walk(
                frase.drop_first(),
                (k - 1) as nat,
                c,
                push_context(t, k as int, frase, introduce(Seq::empty(), c)),
                u,
            )
        }
    } else {
        learn_walk(frase.drop_first(), k, c, t, u)
    }
}

/// `learn_walk` runs without a failed lookup or an overflow: every level
/// visited exists, level zero holds the empty context, the counts fit, a
/// letter new at level zero is in the (sorted) list of unseen letters, and a
/// phrase that loses its first symbol has one of a single byte.
pub open spec fn walk_defined(frase: Seq<char>, k: nat, c: char, t: TableView, u: Seq<char>) -> bool
    decreases frase.len() + k,
{
    proof {
        lemma_utf8_len_facts(frase);
    }
    let n = utf8_len(frase);
    if n == 0 && k == 0 {
        let i = ctx_index(t[0], frase);
        let item = t[0][i].1;
        &&& t.len() > 0
        &&& i >= 0
        &&& if has_key(item, c) {
            usage_sum(item) < usize::MAX
        } else {
            &&& usage_sum(item) + 2 <= usize::MAX
            &&& char_index(u, c) >= 0
            &&& sorted_chars(u)
        }
    } else if n < k {
        walk_defined(frase, (k - 1) as nat, c, t, u)
    } else if n == k {
        let i = ctx_index(t[k as int], frase);
        &&& k < t.len()
        &&& if i >= 0 {
            let item = t[k as int][i].1;
            if has_key(item, c) {
                usage_sum(item) < usize::MAX
            } else {
                &&& usage_sum(item) + 2 <= usize::MAX
                &&& (frase[0] as u32) < 128
                &&& walk_defined(frase.drop_first(), (k - 1) as nat, c, set_item(t, k as int, i, introduce(item, c)), u)
            }
        } else {
            &&& (frase[0] as u32) < 128
            &&& walk_defined(
                frase.drop_first(),
                (k - 1) as nat,
                c,
                push_context(t, k as int, frase, introduce(Seq::empty(), c)),
                u,
            )
        }
    } else {
        &&& (frase[0] as u32) < 128
        &&& walk_defined(frase.drop_first(), k, c, t, u)
    }
}

/// For an ASCII phrase the walk is the learning from the level of the
/// phrase's length (at most `k`) with its last symbols: `learn` and
/// `learn_defined` describe it.
pub proof fn lemma_walk_ascii(frase: Seq<char>, k: nat, c: char, t: TableView, u: Seq<char>)
    requires
        forall|i: int| 0 <= i < frase.len() ==> (#[trigger] frase[i] as u32) < 128,
    ensures
        learn_walk(frase, k, c, t, u) == learn(frase, start_level(frase.len(), k), c, t, u),
        walk_defined(frase, k, c, t, u) == learn_defined(frase, start_level(frase.len(), k), c, t, u),
    decreases frase.len() + k,
{
    lemma_ascii_utf8_len(frase);
    lemma_utf8_len_facts(frase);
    let n = frase.len();
    if n == 0 && k == 0 {
        assert(suffix(frase, 0) =~= frase);
    } else if n < k {
        lemma_walk_ascii(frase, (k - 1) as nat, c, t, u);
    } else {
        let rest = frase.drop_first();
        assert forall|i: int| 0 <= i < rest.len() implies (#[trigger] rest[i] as u32) < 128 by {
            assert(rest[i] == frase[i + 1]);
        }
        assert((frase[0] as u32) < 128);
        if n == k {
            assert(suffix(frase, k) =~= frase);
            assert(suffix(frase, (k - 1) as nat) =~= suffix(rest, (k - 1) as nat));
            let i = ctx_index(t[k as int], frase);
            if i >= 0 {
                let t1 = set_item(t, k as int, i, introduce(t[k as int][i].1, c));
                lemma_walk_ascii(rest, (k - 1) as nat, c, t1, u);
                lemma_learn_suffix(frase, rest, (k - 1) as nat, c, t1, u);
            } else {
                let t1 = push_context(t, k as int, frase, introduce(Seq::empty(), c));
                lemma_walk_ascii(rest, (k - 1) as nat, c, t1, u);
                lemma_learn_suffix(frase, rest, (k - 1) as nat, c, t1, u);
            }
        } else {
            assert(suffix(frase, k) =~= suffix(rest, k));
            lemma_walk_ascii(rest, k, c, t, u);
            lemma_learn_suffix(frase, rest, k, c, t, u);
        }
    }
}

/// Teaches the model that `input` followed the phrase `frase`, starting at
/// level `k` (see `learn_walk`).
pub fn update_tables(
    frase: &Vec<char>,
    k: usize,
    input: char,
    tables: &mut ContextTable,
    unseen: &mut Vec<char>,
)
    requires
        walk_defined(frase@, k as nat, input, old(tables)@, old(unseen)@),
    ensures
        (final(tables)@, final(unseen)@) == learn_walk(frase@, k as nat, input, old(tables)@, old(unseen)@),
    decreases frase@.len() + k,
{
    let n = utf8_length(frase);
    proof {
        lemma_utf8_len_facts(frase@);
    }
    if n == 0 && k == 0 {
        let i = tables.find(0, frase).unwrap();
        proof {
            lemma_ctx_index(tables@[0], frase@);
        }
        let mut item = tables.item(0, i).copy();
        if item.contains_key(input) {
            bump_symbol(&mut item, input);
            tables.set_item(0, i, item);
        } else {
            introduce_symbol(&mut item, input);
            tables.set_item(0, i, item);
            proof {
                lemma_char_index(unseen@, input);
            }
            let index = find_char(unseen, input).unwrap();
            unseen.remove(index);
        }
    } else if n < k as u128 {
        update_tables(frase, k - 1, input, tables, unseen);
    } else if n == k as u128 {
        match tables.find(k, frase) {
            Some(i) => {
                proof {
                    lemma_ctx_index(tables@[k as int], frase@);
                }
                let mut item = tables.item(k, i).copy();
                if item.contains_key(input) {
                    bump_symbol(&mut item, input);
                    tables.set_item(k, i, item);
                } else {
                    introduce_symbol(&mut item, input);
                    tables.set_item(k, i, item);
                    let rest = drop_first_char(frase);
                    update_tables(&rest, k - 1, input, tables, unseen);
                }
            },
            None => {
                let mut item = ContextItem::new();
                introduce_symbol(&mut item, input);
                tables.push_context(k, copy_chars(frase), item);
                let rest = drop_first_char(frase);
                update_tables(&rest, k - 1, input, tables, unseen);
            },
        }
    } else {
        let rest = drop_first_char(frase);
        update_tables(&rest, k, input, tables, unseen);
    }
}

/// The leaves of the code tree of a context, in symbol order: each symbol
/// weighs its usage.
pub open spec fn item_leaves(s: ItemView) -> Seq<Node> {
    s.map_values(|e: (char, Token)| leaf(e.0, e.1.usage))
}

/// The code tree of a context's entries.
pub open spec fn item_tree(s: ItemView) -> Node {
    build(item_leaves(s))
}

/// Builds the code tree of a non-empty context: its symbols in order, each
/// weighing its usage (which orders and adds as the usage divided by the
/// context's total does).
pub fn create_tree(tokens: &ContextItem) -> (tree: BinaryTree)
    requires
        tokens@.len() > 0,
        usage_sum(tokens@) <= usize::MAX,
    ensures
        tree.root == item_tree(tokens@),
{
    let mut table: Vec<SymbolToken> = Vec::new();
    let mut i: usize = 0;
    while i < tokens.entries.len()
        invariant
            i <= tokens.entries.len(),
            table@.len() == i,
            forall|j: int| 0 <= j < i ==> #[trigger] table@[j].symbol == tokens@[j].0 && table@[j].probability == tokens@[j].1.usage,
            weight_sum(table@) == usage_sum(tokens@.take(i as int)),
        decreases tokens.entries.len() - i,
    {
        let (c, t) = tokens.entries[i];
        let ghost before = table@;
        table.push(SymbolToken::new_all(c, t.usage, t.usage));
        proof {
            assert(table@.drop_last() =~= before);
            assert(tokens@.take(i + 1).drop_last() =~= tokens@.take(i as int));
        }
        i = i + 1;
    }
    proof {
        assert(tokens@.take(i as int) =~= tokens@);
        assert(leaves_of(table@) =~= item_leaves(tokens@));
    }
    BinaryTree::new(table)
}

/// Number of bytes of the UTF-8 encoding of a text.
pub open spec fn utf8_len(s: Seq<char>) -> nat {
    vstd::utf8::encode_utf8(s).len()
}

/// The context after `input`: appended, with the first symbol dropped once
/// the context's encoding holds `max` bytes.
pub open spec fn context_step(ctx: Seq<char>, input: char, max: nat) -> Seq<char> {
    if utf8_len(ctx) < max {
        ctx.push(input)
    } else {
        ctx.drop_first().push(input)
    }
}

/// The context after each symbol of `s` in turn, from an empty one.
pub open spec fn context_after(s: Seq<char>, max: nat) -> Seq<char>
    decreases s.len(),
{
    if s.len() == 0 {
        seq![]
    } else {
        context_step(context_after(s.drop_last(), max), s.last(), max)
    }
}

/// The encoding of a text joined to another is the two encodings joined.
pub proof fn lemma_utf8_concat(a: Seq<char>, b: Seq<char>)
    ensures
        vstd::utf8::encode_utf8(a + b) == vstd::utf8::encode_utf8(a) + vstd::utf8::encode_utf8(b),
    decreases a.len(),
{
    if a.len() == 0 {
        assert(a + b =~= b);
        assert(vstd::utf8::encode_utf8(a) + vstd::utf8::encode_utf8(b) =~= vstd::utf8::encode_utf8(b));
    } else {
        lemma_utf8_concat(a.drop_first(), b);
        assert((a + b).drop_first() =~= a.drop_first() + b);
        assert((a + b)[0] == a[0]);
        let e0 = vstd::utf8::encode_scalar(a[0] as u32);
        assert(e0 + (vstd::utf8::encode_utf8(a.drop_first()) + vstd::utf8::encode_utf8(b)) =~= (e0
            + vstd::utf8::encode_utf8(a.drop_first())) + vstd::utf8::encode_utf8(b));
    }
}

proof fn lemma_ascii_char(c: char)
    requires
        (c as u32) < 128,
    ensures
        '\0' <= c <= '\u{7f}',
{
}

/// The number of bytes of the encoding of a symbol.
proof fn lemma_scalar_len(c: char)
    ensures
        vstd::utf8::encode_scalar(c as u32).len() == if (c as u32) <= 0x7f {
            1int
        } else if (c as u32) <= 0x7ff {
            2int
        } else if (c as u32) <= 0xffff {
            3int
        } else {
            4int
        },
{
}

/// An ASCII text takes one byte per symbol.
pub proof fn lemma_ascii_utf8_len(s: Seq<char>)
    requires
        forall|i: int| 0 <= i < s.len() ==> (#[trigger] s[i] as u32) < 128,
    ensures
        utf8_len(s) == s.len(),
{
    assert(vstd::utf8::is_ascii_chars(s)) by {
        assert forall|i: int| 0 <= i < s.len() implies '\0' <= #[trigger] s[i] <= '\u{7f}' by {
            lemma_ascii_char(s[i]);
        }
    }
    vstd::utf8::is_ascii_chars_encode_utf8(s);
}

/// Fed the symbols of an ASCII text one by one (with `max` at least one), the
/// context holds the last `max` of them, or all of them while there are fewer.
pub proof fn lemma_context_window(s: Seq<char>, max: nat)
    requires
        max >= 1,
        forall|i: int| 0 <= i < s.len() ==> (#[trigger] s[i] as u32) < 128,
    ensures
        context_after(s, max) == s.skip(s.len() - if s.len() < max {
            s.len()
        } else {
            max
        }),
        context_after(s, max).len() <= max,
    decreases s.len(),
{
    if s.len() > 0 {
        let r = s.drop_last();
        lemma_context_window(r, max);
        let ctx = context_after(r, max);
        assert forall|i: int| 0 <= i < ctx.len() implies (#[trigger] ctx[i] as u32) < 128 by {
            let m = if r.len() < max { r.len() } else { max };
            assert(ctx[i] == r[r.len() - m + i]);
        }
        lemma_ascii_utf8_len(ctx);
        if r.len() < max {
            assert(ctx =~= r);
            assert(s.skip(0) =~= r.push(s.last()));
        } else {
            assert(ctx.drop_first().push(s.last()) =~= s.skip(s.len() - max));
        }
    } else {
        assert(s.skip(0) =~= Seq::<char>::empty());
    }
}

/// Whether the encoding of `s` holds fewer than `max` bytes.
fn utf8_len_below(s: &Vec<char>, max: usize) -> (b: bool)
    ensures
        b == (utf8_len(s@) < max),
{
    utf8_length(s) < max as u128
}

/// A text's encoding is empty exactly when the text is, and holds at least a
/// byte per symbol; a first symbol of one byte leaves the rest one byte
/// shorter.
pub proof fn lemma_utf8_len_facts(s: Seq<char>)
    ensures
        utf8_len(s) >= s.len(),
        utf8_len(s) == 0 <==> s.len() == 0,
        s.len() > 0 && (s[0] as u32) < 128 ==> utf8_len(s) == utf8_len(s.drop_first()) + 1,
    decreases s.len(),
{
    if s.len() > 0 {
        lemma_utf8_len_facts(s.drop_first());
        lemma_scalar_len(s[0]);
    } else {
        assert(vstd::utf8::encode_utf8(s) =~= Seq::<u8>::empty());
    }
}

/// Number of bytes of the UTF-8 encoding of `s`.
pub fn utf8_length(s: &Vec<char>) -> (n: u128)
    ensures
        n == utf8_len(s@),
{
    let mut total: u128 = 0;
    let mut i: usize = 0;
    proof {
        assert(s@.take(0) =~= Seq::<char>::empty());
    }
    while i < s.len()
        invariant
            i <= s.len(),
            total == utf8_len(s@.take(i as int)),
            total <= 4 * i,
        decreases s.len() - i,
    {
        let v = s[i] as u32;
        let w: u128 = if v <= 0x7f {
            1
        } else if v <= 0x7ff {
            2
        } else if v <= 0xffff {
            3
        } else {
            4
        };
        proof {
            assert(s@.take(i + 1) =~= s@.take(i as int) + seq![s@[i as int]]);
            lemma_utf8_concat(s@.take(i as int), seq![s@[i as int]]);
            assert(seq![s@[i as int]].drop_first() =~= Seq::<char>::empty());
            assert(seq![s@[i as int]][0] == s@[i as int]);
            assert(vstd::utf8::encode_utf8(Seq::<char>::empty()) =~= Seq::<u8>::empty());
            assert(vstd::utf8::encode_utf8(seq![s@[i as int]]) =~= vstd::utf8::encode_scalar(v));
            lemma_scalar_len(s@[i as int]);
        }
        total = total + w;
        i = i + 1;
    }
    proof {
        assert(s@.take(i as int) =~= s@);
    }
    total
}

/// Appends `input` to the context, dropping its first symbol once the
/// context's encoding holds `max` bytes (the first symbol must then take a
/// single byte).
pub fn update_context(context: &mut Vec<char>, input: char, max: usize)
    requires
        utf8_len(old(context)@) < max || (old(context)@.len() >= 1 && (old(context)@[0] as u32) < 128),
    ensures
        final(context)@ == context_step(old(context)@, input, max as nat),
{
    if utf8_len_below(context, max) {
        context.push(input);
    } else {
        let mut next = drop_first_char(context);
        next.push(input);
        *context = next;
    }
}

/// The entries of `s` that are not excluded by `item`: every symbol of `item`
/// but the escape is taken out.
pub open spec fn without(s: ItemView, item: ItemView) -> ItemView
    decreases s.len(),
{
    if s.len() == 0 {
        s
    } else {
        let rest = without(s.drop_last(), item);
        let e = s.last();
        if has_key(item, e.0) && e.0 != RO {
            rest
        } else {
            rest.push(e)
        }
    }
}

pub proof fn lemma_without(s: ItemView, item: ItemView)
    ensures
        forall|x: char| #[trigger] has_key(without(s, item), x) <==> (has_key(s, x) && !(has_key(item, x) && x != RO)),
        usage_sum(without(s, item)) <= usage_sum(s),
        usage_sum(without(s, item)) >= 0,
        s.len() == 0 ==> without(s, item).len() == 0,
        sorted_keys(s) ==> sorted_keys(without(s, item)),
        forall|i: int| 0 <= i < without(s, item).len() ==> exists|k: int| 0 <= k < s.len() && #[trigger] without(s, item)[i] == s[k],
    decreases s.len(),
{
    if s.len() > 0 {
        let r = without(s.drop_last(), item);
        lemma_without(s.drop_last(), item);
        lemma_usage_sum_nonneg(s);
        let e = s.last();
        assert forall|x: char| #[trigger] has_key(without(s, item), x) <==> (has_key(s, x) && !(has_key(item, x) && x != RO)) by {
            if has_key(s, x) {
                let k = choose|k: int| 0 <= k < s.len() && #[trigger] s[k].0 == x;
                if k < s.len() - 1 {
                    assert(s.drop_last()[k].0 == x);
                }
            }
            if has_key(s.drop_last(), x) {
                let k = choose|k: int| 0 <= k < s.drop_last().len() && #[trigger] s.drop_last()[k].0 == x;
                assert(s[k].0 == x);
            }
            if !(has_key(item, e.0) && e.0 != RO) {
                let w = r.push(e);
                if has_key(w, x) {
                    let k = choose|k: int| 0 <= k < w.len() && #[trigger] w[k].0 == x;
                    if k < r.len() {
                        assert(r[k].0 == x);
                    }
                }
                if has_key(r, x) {
                    let k = choose|k: int| 0 <= k < r.len() && #[trigger] r[k].0 == x;
                    assert(w[k].0 == x);
                }
                if x == e.0 {
                    assert(w[r.len() as int].0 == x);
                }
            }
        }
        if !(has_key(item, e.0) && e.0 != RO) {
            let w = r.push(e);
            assert(w.drop_last() =~= r);
            assert forall|i: int| 0 <= i < w.len() implies exists|k: int| 0 <= k < s.len() && #[trigger] w[i] == s[k] by {
                if i < r.len() {
                    let k = choose|k: int| 0 <= k < s.drop_last().len() && #[trigger] r[i] == s.drop_last()[k];
                    assert(w[i] == s[k]);
                } else {
                    assert(w[i] == s[s.len() - 1]);
                }
            }
            if sorted_keys(s) {
                assert forall|a: int, b: int| 0 <= a < b < w.len() implies (w[a].0 as u32) < (w[b].0 as u32) by {
                    if b == r.len() {
                        let k = choose|k: int| 0 <= k < s.drop_last().len() && #[trigger] r[a] == s.drop_last()[k];
                        assert(w[a] == s[k]);
                        assert(w[b] == s[s.len() - 1]);
                    }
                }
            }
        } else {
            assert forall|i: int| 0 <= i < r.len() implies exists|k: int| 0 <= k < s.len() && #[trigger] r[i] == s[k] by {
                let k = choose|k: int| 0 <= k < s.drop_last().len() && #[trigger] r[i] == s.drop_last()[k];
                assert(r[i] == s[k]);
            }
        }
    }
}

/// The model in which the context one level below `phrase` (its suffix
/// without the first symbol) has lost every symbol of `item` but the escape,
/// with its totals recomputed.
pub open spec fn exclude(t: TableView, phrase: Seq<char>, item: ItemView, k: nat) -> TableView {
    let i = ctx_index(t[k - 1], phrase.drop_first());
    set_item(t, k - 1, i, retotal(without(t[k - 1][i].1, item)))
}

/// `exclude` finds what it needs: the lower context exists and its remaining
/// counts fit.
pub open spec fn exclude_defined(t: TableView, phrase: Seq<char>, item: ItemView, k: nat) -> bool {
    let i = ctx_index(t[k - 1], phrase.drop_first());
    &&& 1 <= k <= t.len()
    &&& phrase.len() >= 1
    &&& i >= 0
    &&& usage_sum(without(t[k - 1][i].1, item)) <= usize::MAX
}

/// For level `k` > 0, a copy of the model in which the context below
/// `context` has lost the symbols `context` holds (but the escape); `None` at
/// level zero.
pub fn exclusion_table(tables: &ContextTable, context: (&Vec<char>, &ContextItem), k: usize) -> (r: Option<ContextTable>)
    requires
        k > 0 ==> exclude_defined(tables@, context.0@, context.1@, k as nat),
    ensures
        k == 0 ==> r is None,
        k > 0 ==> (r matches Some(t) && t@ == exclude(tables@, context.0@, context.1@, k as nat)),
{
    if k == 0 {
        return None;
    }
    let mut exclusion = tables.copy();
    let next_frase = drop_first_char(context.0);
    let i = exclusion.find(k - 1, &next_frase).unwrap();
    proof {
        lemma_ctx_index(exclusion@[k - 1], next_frase@);
    }
    let mut next_context = remove_symbols(exclusion.item(k - 1, i), context.1);
    update_totals(&mut next_context);
    exclusion.set_item(k - 1, i, next_context);
    Some(exclusion)
}

/// The entries of `s` whose symbol is the escape or not in `item`.
pub(crate) fn remove_symbols(s: &ContextItem, item: &ContextItem) -> (r: ContextItem)
    ensures
        r@ == without(s@, item@),
{
    let mut entries: Vec<(char, Token)> = Vec::new();
    let mut i: usize = 0;
    while i < s.entries.len()
        invariant
            i <= s.entries.len(),
            entries@ == without(s@.take(i as int), item@),
        decreases s.entries.len() - i,
    {
        let e = s.entries[i];
        proof {
            assert(s@.take(i + 1).drop_last() =~= s@.take(i as int));
        }
        if !(item.contains_key(e.0) && e.0 != RO) {
            entries.push(e);
        }
        i = i + 1;
    }
    proof {
        assert(s@.take(i as int) =~= s@);
    }
    ContextItem { entries }
}

impl ContextTable {
    /// A copy of the model.
    pub fn copy(&self) -> (r: ContextTable)
        ensures
            r@ == self@,
    {
        let mut levels: Vec<ContextNode> = Vec::new();
        let mut i: usize = 0;
        while i < self.levels.len()
            invariant
                i <= self.levels.len(),
                levels@.len() == i,
                forall|j: int| 0 <= j < i ==> #[trigger] levels@[j]@ == self.levels@[j]@,
            decreases self.levels.len() - i,
        {
            levels.push(self.levels[i].copy());
            i = i + 1;
        }
        let r = ContextTable { levels };
        proof {
            assert(r@ =~= self@);
        }
        r
    }
}

/// Position of `c` in `u`.
pub(crate) fn find_char(u: &Vec<char>, c: char) -> (r: Option<usize>)
    ensures
        r matches Some(i) ==> i == char_index(u@, c),
        r is None ==> char_index(u@, c) == -1,
{
    let mut i: usize = 0;
    proof {
        assert(u@.subrange(0, u@.len() as int) =~= u@);
    }
    while i < u.len()
        invariant
            i <= u.len(),
            char_index(u@, c) == if char_index(u@.subrange(i as int, u@.len() as int), c) < 0 {
                -1
            } else {
                i + char_index(u@.subrange(i as int, u@.len() as int), c)
            },
        decreases u.len() - i,
    {
        let ghost tail = u@.subrange(i as int, u@.len() as int);
        if u[i] == c {
            assert(tail[0] == c);
            return Some(i);
        }
        proof {
            assert(tail.drop_first() =~= u@.subrange(i + 1, u@.len() as int));
        }
        i = i + 1;
    }
    proof {
        assert(u@.subrange(i as int, u@.len() as int) =~= Seq::<char>::empty());
    }
    None
}

} // verus!
