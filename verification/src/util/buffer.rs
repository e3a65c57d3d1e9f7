//! Frequency tables for the static coder: counted from a text, or the
//! built-in letter weights of Portuguese text.
use vstd::prelude::*;
use crate::util::token::Token;
use crate::huffman::encoder::chars_of;

verus! {

/// The distinct symbols of `s` in order of first appearance, with how often
/// each occurs.
pub open spec fn tally(s: Seq<char>) -> Seq<(char, nat)>
    decreases s.len(),
{
    if s.len() == 0 {
        seq![]
    } else {
        let r = tally(s.drop_last());
        let c = s.last();
        let i = symbol_index(r, c);
        if i >= 0 {
            r.update(i, (c, r[i].1 + 1))
        } else {
            r.push((c, 1nat))
        }
    }
}

/// Position of `c` in a tally, or -1.
pub open spec fn symbol_index(r: Seq<(char, nat)>, c: char) -> int
    decreases r.len(),
{
    if r.len() == 0 {
        -1
    } else if r.last().0 == c {
        r.len() - 1
    } else {
        symbol_index(r.drop_last(), c)
    }
}

/// `e` put after every entry of `s` that weighs no more than it.
pub open spec fn insert_by_weight(s: Seq<(char, nat)>, e: (char, nat)) -> Seq<(char, nat)> {
    s.insert(lighter_count(s, e.1) as int, e)
}

/// Number of leading entries weighing at most `w`.
pub open spec fn lighter_count(s: Seq<(char, nat)>, w: nat) -> nat
    decreases s.len(),
{
    if s.len() == 0 {
        0
    } else if s[0].1 <= w {
        1 + lighter_count(s.drop_first(), w)
    } else {
        0
    }
}

/// The entries in order of weight; entries of equal weight keep their order.
pub open spec fn sort_by_weight(s: Seq<(char, nat)>) -> Seq<(char, nat)>
    decreases s.len(),
{
    if s.len() == 0 {
        s
    } else {
        insert_by_weight(sort_by_weight(s.drop_last()), s.last())
    }
}

/// Symbols with their weights as numbers.
pub open spec fn pairs_view(v: Seq<(char, usize)>) -> Seq<(char, nat)> {
    v.map_values(|e: (char, usize)| (e.0, e.1 as nat))
}

/// The tokens as symbols with their weights.
pub open spec fn token_entries(v: Seq<Token>) -> Seq<(char, nat)> {
    v.map_values(|t: Token| (t.symbol, t.probability as nat))
}

/// Position of `c` in `counts`, searching from the end.
fn find_symbol(counts: &Vec<(char, usize)>, c: char) -> (r: Option<usize>)
    ensures
        r matches Some(i) ==> i == symbol_index(pairs_view(counts@), c),
        r is None ==> symbol_index(pairs_view(counts@), c) == -1,
{
    let mut i: usize = counts.len();
    proof {
        assert(pairs_view(counts@).take(i as int) =~= pairs_view(counts@));
    }
    while i > 0
        invariant
            i <= counts.len(),
            symbol_index(pairs_view(counts@), c) == symbol_index(pairs_view(counts@).take(i as int), c),
        decreases i,
    {
        let ghost pre = pairs_view(counts@).take(i as int);
        if counts[i - 1].0 == c {
            return Some(i - 1);
        }
        proof {
            assert(pre.drop_last() =~= pairs_view(counts@).take(i - 1));
        }
        i = i - 1;
    }
    None
}

/// Counts the symbols of `s` in order of first appearance.
fn count_symbols(s: &Vec<char>) -> (counts: Vec<(char, usize)>)
    ensures
        pairs_view(counts@) == tally(s@),
{
    let mut counts: Vec<(char, usize)> = Vec::new();
    let mut k: usize = 0;
    proof {
        assert(s@.take(0) =~= Seq::<char>::empty());
        assert(pairs_view(counts@) =~= tally(s@.take(0)));
    }
    while k < s.len()
        invariant
            k <= s.len(),
            pairs_view(counts@) == tally(s@.take(k as int)),
            forall|i: int| 0 <= i < counts@.len() ==> #[trigger] counts@[i].1 <= k,
        decreases s.len() - k,
    {
        let c = s[k];
        proof {
            assert(s@.take(k + 1).drop_last() =~= s@.take(k as int));
            lemma_symbol_index(pairs_view(counts@), c);
        }
        match find_symbol(&counts, c) {
            Some(i) => {
                let n = counts[i].1;
                counts.set(i, (c, n + 1));
                proof {
                    assert(pairs_view(counts@) =~= tally(s@.take(k + 1)));
                }
            },
            None => {
                counts.push((c, 1));
                proof {
                    assert(pairs_view(counts@) =~= tally(s@.take(k + 1)));
                }
            },
        }
        k = k + 1;
    }
    proof {
        assert(s@.take(k as int) =~= s@);
    }
    counts
}

proof fn lemma_symbol_index(r: Seq<(char, nat)>, c: char)
    ensures
        -1 <= symbol_index(r, c) < r.len(),
        symbol_index(r, c) >= 0 ==> r[symbol_index(r, c)].0 == c,
    decreases r.len(),
{
    if r.len() > 0 && r.last().0 != c {
        lemma_symbol_index(r.drop_last(), c);
    }
}

/// Number of leading entries weighing at most `w`.
fn lighter_count_exec(v: &Vec<(char, usize)>, w: usize) -> (n: usize)
    ensures
        n == lighter_count(pairs_view(v@), w as nat),
{
    let mut i: usize = 0;
    proof {
        assert(pairs_view(v@).subrange(0, v@.len() as int) =~= pairs_view(v@));
    }
    while i < v.len() && v[i].1 <= w
        invariant
            i <= v.len(),
            lighter_count(pairs_view(v@), w as nat) == i + lighter_count(
                pairs_view(v@).subrange(i as int, v@.len() as int),
                w as nat,
            ),
        decreases v.len() - i,
    {
        proof {
            let tail = pairs_view(v@).subrange(i as int, v@.len() as int);
            assert(tail.drop_first() =~= pairs_view(v@).subrange(i + 1, v@.len() as int));
        }
        i = i + 1;
    }
    proof {
        if i < v.len() {
            let tail = pairs_view(v@).subrange(i as int, v@.len() as int);
            assert(tail[0] == pairs_view(v@)[i as int]);
        }
    }
    i
}

pub proof fn lemma_lighter_count(s: Seq<(char, nat)>, w: nat)
    ensures
        lighter_count(s, w) <= s.len(),
    decreases s.len(),
{
    if s.len() > 0 && s[0].1 <= w {
        lemma_lighter_count(s.drop_first(), w);
    }
}

/// The entries in order of weight, entries of equal weight in their order.
fn sort_pairs(v: &Vec<(char, usize)>) -> (r: Vec<(char, usize)>)
    ensures
        pairs_view(r@) == sort_by_weight(pairs_view(v@)),
{
    let mut out: Vec<(char, usize)> = Vec::new();
    let mut i: usize = 0;
    proof {
        assert(pairs_view(v@).take(0) =~= Seq::<(char, nat)>::empty());
        assert(pairs_view(out@) =~= sort_by_weight(pairs_view(v@).take(0)));
    }
    while i < v.len()
        invariant
            i <= v.len(),
            pairs_view(out@) == sort_by_weight(pairs_view(v@).take(i as int)),
        decreases v.len() - i,
    {
        let p = lighter_count_exec(&out, v[i].1);
        proof {
            lemma_lighter_count(pairs_view(out@), v@[i as int].1 as nat);
            assert(pairs_view(v@).take(i + 1).drop_last() =~= pairs_view(v@).take(i as int));
        }
        out.insert(p, v[i]);
        proof {
            assert(pairs_view(out@) =~= sort_by_weight(pairs_view(v@).take(i + 1)));
        }
        i = i + 1;
    }
    proof {
        assert(pairs_view(v@).take(i as int) =~= pairs_view(v@));
    }
    out
}

/// The symbols of `input` in order of how often they occur (symbols as
/// frequent keep their order of first appearance); each token counts its
/// uses and weighs them (its probability times the input's length).
pub fn construct(input: &String) -> (buffer: Vec<Token>)
    ensures
        token_entries(buffer@) == sort_by_weight(tally(input@)),
        forall|i: int| #![trigger buffer@[i]] 0 <= i < buffer@.len() ==> buffer@[i].usage == buffer@[i].probability && buffer@[i].code@ == Seq::<u8>::empty(),
{
    let chars = chars_of(input);
    let counts = count_symbols(&chars);
    let sorted = sort_pairs(&counts);
    let buffer = tokens_from_pairs(&sorted, true);
    buffer
}

/// A token per entry: weighing the entry's weight, and used that many times
/// (`counted`) or once.
fn tokens_from_pairs(v: &Vec<(char, usize)>, counted: bool) -> (buffer: Vec<Token>)
    ensures
        token_entries(buffer@) == pairs_view(v@),
        forall|i: int| #![trigger buffer@[i]] 0 <= i < buffer@.len() ==> buffer@[i].usage == (if counted {
            buffer@[i].probability
        } else {
            1
        }) && buffer@[i].code@ == Seq::<u8>::empty(),
{
    let mut buffer: Vec<Token> = Vec::new();
    let mut i: usize = 0;
    while i < v.len()
        invariant
            i <= v.len(),
            buffer@.len() == i,
            forall|j: int| #![trigger buffer@[j]] 0 <= j < i ==> buffer@[j].symbol == v@[j].0 && buffer@[j].probability == v@[j].1
                && buffer@[j].usage == (if counted {
                buffer@[j].probability
            } else {
                1
            }) && buffer@[j].code@ == Seq::<u8>::empty(),
        decreases v.len() - i,
    {
        let (c, w) = v[i];
        let t = if counted {
            Token::new_all(c, w, w)
        } else {
            let mut t = Token::new(c);
            t.set_probability(w);
            t
        };
        buffer.push(t);
        i = i + 1;
    }
    proof {
        assert(token_entries(buffer@) =~= pairs_view(v@));
    }
    buffer
}

/// The built-in weights: how often each letter (and the space) occurs in
/// Portuguese text, in ten-thousandths.
pub open spec fn weights() -> Seq<(char, nat)> {
    seq![
        (' ', 1438nat), ('e', 1238nat), ('a', 1161nat), ('o', 908nat), ('s', 661nat), ('r', 552nat),
        ('i', 523nat), ('n', 427nat), ('d', 422nat), ('m', 401nat), ('u', 392nat), ('t', 367nat),
        ('c', 328nat), ('l', 235nat), ('p', 213nat), ('v', 141nat), ('g', 110nat), ('h', 108nat),
        ('q', 102nat), ('b', 88nat), ('f', 86nat), ('z', 40nat), ('j', 34nat), ('x', 23nat),
        ('k', 2nat), ('w', 1nat), ('y', 1nat),
    ]
}

/// The built-in weights.
pub fn weights_vec() -> (v: Vec<(char, usize)>)
    ensures
        pairs_view(v@) == weights(),
{
    let v: Vec<(char, usize)> = vec![
        (' ', 1438), ('e', 1238), ('a', 1161), ('o', 908), ('s', 661), ('r', 552),
        ('i', 523), ('n', 427), ('d', 422), ('m', 401), ('u', 392), ('t', 367),
        ('c', 328), ('l', 235), ('p', 213), ('v', 141), ('g', 110), ('h', 108),
        ('q', 102), ('b', 88), ('f', 86), ('z', 40), ('j', 34), ('x', 23),
        ('k', 2), ('w', 1), ('y', 1),
    ];
    proof {
        assert(pairs_view(v@) =~= weights());
    }
    v
}

/// A token per built-in weight (each used once), lightest first; equal
/// weights keep their order.
pub fn get_default_weights() -> (buffer: Vec<Token>)
    ensures
        token_entries(buffer@) == sort_by_weight(weights()),
        forall|i: int| #![trigger buffer@[i]] 0 <= i < buffer@.len() ==> buffer@[i].usage == 1 && buffer@[i].code@ == Seq::<u8>::empty(),
{
    let w = weights_vec();
    let sorted = sort_pairs(&w);
    tokens_from_pairs(&sorted, false)
}

/// Sum of the weights of entries.
pub open spec fn pair_sum(s: Seq<(char, nat)>) -> nat
    decreases s.len(),
{
    if s.len() == 0 {
        0
    } else {
        pair_sum(s.drop_last()) + s.last().1
    }
}

pub proof fn lemma_pair_sum_concat(a: Seq<(char, nat)>, b: Seq<(char, nat)>)
    ensures
        pair_sum(a + b) == pair_sum(a) + pair_sum(b),
    decreases b.len(),
{
    if b.len() > 0 {
        lemma_pair_sum_concat(a, b.drop_last());
        assert((a + b).drop_last() =~= a + b.drop_last());
    } else {
        assert(a + b =~= a);
    }
}

pub proof fn lemma_pair_sum_single(e: (char, nat))
    ensures
        pair_sum(seq![e]) == e.1,
{
    assert(seq![e].drop_last() =~= Seq::<(char, nat)>::empty());
    assert(pair_sum(Seq::<(char, nat)>::empty()) == 0);
}

pub proof fn lemma_pair_sum_insert(s: Seq<(char, nat)>, i: int, e: (char, nat))
    requires
        0 <= i <= s.len(),
    ensures
        pair_sum(s.insert(i, e)) == pair_sum(s) + e.1,
{
    let a = s.subrange(0, i);
    let b = s.subrange(i, s.len() as int);
    assert(s =~= a + b);
    assert(s.insert(i, e) =~= a + seq![e] + b);
    lemma_pair_sum_concat(a + seq![e], b);
    lemma_pair_sum_concat(a, seq![e]);
    lemma_pair_sum_concat(a, b);
    lemma_pair_sum_single(e);
}

pub proof fn lemma_pair_sum_update(s: Seq<(char, nat)>, i: int, e: (char, nat))
    requires
        0 <= i < s.len(),
    ensures
        pair_sum(s.update(i, e)) == pair_sum(s) - s[i].1 + e.1,
{
    let a = s.subrange(0, i);
    let b = s.subrange(i + 1, s.len() as int);
    assert(s =~= a + seq![s[i]] + b);
    assert(s.update(i, e) =~= a + seq![e] + b);
    lemma_pair_sum_concat(a + seq![s[i]], b);
    lemma_pair_sum_concat(a, seq![s[i]]);
    lemma_pair_sum_concat(a + seq![e], b);
    lemma_pair_sum_concat(a, seq![e]);
    lemma_pair_sum_single(s[i]);
    lemma_pair_sum_single(e);
}

/// Counting keeps every symbol, and the counts add up to the length.
pub proof fn lemma_tally(s: Seq<char>)
    ensures
        pair_sum(tally(s)) == s.len(),
        forall|k: int| #![trigger s[k]] 0 <= k < s.len() ==> exists|i: int| 0 <= i < tally(s).len() && #[trigger] tally(s)[i].0 == s[k],
    decreases s.len(),
{
    if s.len() > 0 {
        let r = tally(s.drop_last());
        lemma_tally(s.drop_last());
        let c = s.last();
        lemma_symbol_index(r, c);
        let i = symbol_index(r, c);
        if i >= 0 {
            lemma_pair_sum_update(r, i, (c, r[i].1 + 1));
        } else {
            assert(pair_sum(r.push((c, 1nat))) == pair_sum(r) + 1) by {
                assert(r.push((c, 1nat)).drop_last() =~= r);
            }
        }
        let t = tally(s);
        assert forall|k: int| #![trigger s[k]] 0 <= k < s.len() implies exists|i2: int| 0 <= i2 < t.len() && #[trigger] t[i2].0 == s[k] by {
            if k == s.len() - 1 {
                if i >= 0 {
                    assert(t[i].0 == c);
                } else {
                    assert(t[r.len() as int].0 == c);
                }
            } else {
                assert(s[k] == s.drop_last()[k]);
                let i2 = choose|i2: int| 0 <= i2 < r.len() && #[trigger] r[i2].0 == s.drop_last()[k];
                assert(t[i2].0 == s[k]);
            }
        }
    }
}

/// Sorting keeps the entries and their sum.
pub proof fn lemma_sort_by_weight(s: Seq<(char, nat)>)
    ensures
        sort_by_weight(s).len() == s.len(),
        pair_sum(sort_by_weight(s)) == pair_sum(s),
        forall|k: int| #![trigger s[k]] 0 <= k < s.len() ==> exists|i: int| 0 <= i < s.len() && #[trigger] sort_by_weight(s)[i] == s[k],
    decreases s.len(),
{
    if s.len() > 0 {
        let r = sort_by_weight(s.drop_last());
        lemma_sort_by_weight(s.drop_last());
        let e = s.last();
        let p = lighter_count(r, e.1) as int;
        lemma_lighter_count(r, e.1);
        lemma_pair_sum_insert(r, p, e);
        let t = sort_by_weight(s);
        assert forall|k: int| #![trigger s[k]] 0 <= k < s.len() implies exists|i: int| 0 <= i < s.len() && #[trigger] t[i] == s[k] by {
            if k == s.len() - 1 {
                assert(t[p] == e);
            } else {
                assert(s[k] == s.drop_last()[k]);
                let i = choose|i: int| 0 <= i < r.len() && #[trigger] r[i] == s.drop_last()[k];
                if i < p {
                    assert(t[i] == r[i]);
                } else {
                    assert(t[i + 1] == r[i]);
                }
            }
        }
    }
}

} // verus!
