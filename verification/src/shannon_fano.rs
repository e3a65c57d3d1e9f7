//! Shannon-Fano codes: the heaviest symbols are split off until they weigh
//! half of the table, each half gets one more digit, and each half is split
//! again.
//!
//! A token's `probability` is its weight: the probability times a scale
//! shared by the whole table (see `Token`); sums and comparisons of weights
//! are those of the probabilities, and the scale is what turns a weight back
//! into a probability where one is read as a percentage.
use vstd::prelude::*;
use crate::util::token::Token;
use crate::huffman::encoder::copy_bytes;

verus! {

/// A token as plain values: symbol, usage, weight and code.
pub type TokenView = (char, nat, nat, Seq<u8>);

/// A token as plain values.
pub open spec fn token_view(t: Token) -> TokenView {
    (t.symbol, t.usage as nat, t.probability as nat, t.code@)
}

/// Tokens as plain values.
pub open spec fn tokens_view(v: Seq<Token>) -> Seq<TokenView> {
    v.map_values(|t: Token| token_view(t))
}

/// Sum of the weights.
pub open spec fn weight_total(s: Seq<TokenView>) -> nat
    decreases s.len(),
{
    if s.len() == 0 {
        0
    } else {
        weight_total(s.drop_last()) + s.last().2
    }
}

/// Number of leading tokens weighing at most `w`.
pub open spec fn lighter_tokens(s: Seq<TokenView>, w: nat) -> nat
    decreases s.len(),
{
    if s.len() == 0 {
        0
    } else if s[0].2 <= w {
        1 + lighter_tokens(s.drop_first(), w)
    } else {
        0
    }
}

/// The tokens in order of weight, lightest first; tokens of equal weight
/// keep their order.
pub open spec fn sort_tokens(s: Seq<TokenView>) -> Seq<TokenView>
    decreases s.len(),
{
    if s.len() == 0 {
        s
    } else {
        let r = sort_tokens(s.drop_last());
        r.insert(lighter_tokens(r, s.last().2) as int, s.last())
    }
}

/// How many tokens, taken one by one from the heavy end of `input`, make up
/// the first part: they are taken until their weight (`sum` so far) and that
/// of the next token pass half of `total`, or one token is left.
pub open spec fn right_count(input: Seq<TokenView>, sum: nat, total: nat) -> nat
    decreases input.len(),
{
    if input.len() <= 1 {
        1
    } else {
        let taken = sum + input.last().2;
        let rest = input.drop_last();
        if rest.len() <= 1 || 2 * (taken + rest.last().2) > total {
            1
        } else {
            1 + right_count(rest, taken, total)
        }
    }
}

/// The token with `code` as its code.
pub open spec fn with_code(t: TokenView, code: Seq<u8>) -> TokenView {
    (t.0, t.1, t.2, code)
}

/// The Shannon-Fano codes of a table, every code starting with `code`. One
/// token gets the digit 1; two tokens get 1 and 0. A larger table is put in
/// order of weight, its heaviest tokens (the first part, heaviest first) get
/// the digit 0 and the others (lightest first) the digit 1, and both parts
/// are coded on.
pub open spec fn sf_codes(buffer: Seq<TokenView>, code: Seq<u8>) -> Seq<TokenView>
    decreases buffer.len(),
{
    if buffer.len() <= 1 {
        if buffer.len() == 1 {
            seq![with_code(buffer[0], code.push(1))]
        } else {
            seq![]
        }
    } else if buffer.len() == 2 {
        seq![with_code(buffer[0], code.push(1)), with_code(buffer[1], code.push(0))]
    } else {
        let input = sort_tokens(buffer);
        proof {
            lemma_sort_tokens(buffer);
            lemma_right_count(input, 0, weight_total(input));
        }
        let n = input.len();
        let m = right_count(input, 0, weight_total(input));
        sf_codes(input.skip(n - m).reverse(), code.push(0)) + sf_codes(input.take(n - m), code.push(1))
    }
}

/// The coder is defined on a table: it is not empty, and every part of three
/// or more tokens weighs something, within `usize`.
pub open spec fn sf_defined(buffer: Seq<TokenView>) -> bool
    decreases buffer.len(),
{
    &&& buffer.len() >= 1
    &&& buffer.len() >= 3 ==> {
        let input = sort_tokens(buffer);
        let n = input.len();
        let total = weight_total(input);
        proof {
            lemma_sort_tokens(buffer);
            lemma_right_count(input, 0, total);
        }
        let m = right_count(input, 0, total);
        &&& 0 < total <= usize::MAX
        &&& sf_defined(input.skip(n - m).reverse())
        &&& sf_defined(input.take(n - m))
    }
}

/// The percentage a weight stands for, rounded down.
pub open spec fn percent(w: nat, scale: nat) -> nat {
    (100 * w / scale) as nat
}

/// Whether `a` comes no later than `b` in the final table: by percentage,
/// and among equal percentages longer codes first.
pub open spec fn key_le(a: TokenView, b: TokenView, scale: nat) -> bool {
    percent(a.2, scale) < percent(b.2, scale) || (percent(a.2, scale) == percent(b.2, scale)
        && a.3.len() >= b.3.len())
}

/// Number of leading tokens that come no later than `x`.
pub open spec fn key_count(s: Seq<TokenView>, x: TokenView, scale: nat) -> nat
    decreases s.len(),
{
    if s.len() == 0 {
        0
    } else if key_le(s[0], x, scale) {
        1 + key_count(s.drop_first(), x, scale)
    } else {
        0
    }
}

/// The tokens ordered by percentage, longer codes first among equals;
/// otherwise in their order.
pub open spec fn key_sort(s: Seq<TokenView>, scale: nat) -> Seq<TokenView>
    decreases s.len(),
{
    if s.len() == 0 {
        s
    } else {
        let r = key_sort(s.drop_last(), scale);
        r.insert(key_count(r, s.last(), scale) as int, s.last())
    }
}

/// Whether a table is in order: by the percentage its weights stand for
/// (`100 * weight / scale`, rounded down), lowest first, and among equal
/// percentages by code length, longest first.
pub open spec fn table_ordered(s: Seq<TokenView>, scale: nat) -> bool {
    forall|i: int, j: int|
        0 <= i < j < s.len() ==> (100 * #[trigger] s[i].2) / scale < (100 * #[trigger] s[j].2) / scale || ((100
            * s[i].2) / scale == (100 * s[j].2) / scale && s[i].3.len() >= s[j].3.len())
}

/// The leading tokens that `key_count` counts come no later than `x`; the
/// next one, if any, comes after it.
proof fn lemma_key_count_split(s: Seq<TokenView>, x: TokenView, scale: nat)
    ensures
        key_count(s, x, scale) <= s.len(),
        forall|i: int| 0 <= i < key_count(s, x, scale) ==> key_le(#[trigger] s[i], x, scale),
        key_count(s, x, scale) < s.len() ==> !key_le(s[key_count(s, x, scale) as int], x, scale),
    decreases s.len(),
{
    if s.len() > 0 && key_le(s[0], x, scale) {
        lemma_key_count_split(s.drop_first(), x, scale);
        assert forall|i: int| 0 <= i < key_count(s, x, scale) implies key_le(#[trigger] s[i], x, scale) by {
            if i > 0 {
                assert(s[i] == s.drop_first()[i - 1]);
            }
        }
    }
}

/// Sorting by percentage and code length keeps every token and leaves the
/// table in order (see `table_ordered`).
pub proof fn lemma_key_sort_ordered(s: Seq<TokenView>, scale: nat)
    requires
        scale > 0,
    ensures
        key_sort(s, scale).len() == s.len(),
        table_ordered(key_sort(s, scale), scale),
    decreases s.len(),
{
    if s.len() > 0 {
        let r = key_sort(s.drop_last(), scale);
        let x = s.last();
        lemma_key_sort_ordered(s.drop_last(), scale);
        lemma_key_count_split(r, x, scale);
        let pos = key_count(r, x, scale) as int;
        let q = r.insert(pos, x);
        assert(q == key_sort(s, scale));
        assert forall|i: int, j: int| 0 <= i < j < q.len() implies (100 * #[trigger] q[i].2) / scale < (100
            * #[trigger] q[j].2) / scale || ((100 * q[i].2) / scale == (100 * q[j].2) / scale && q[i].3.len()
            >= q[j].3.len()) by {
            if j < pos {
                assert(q[i] == r[i] && q[j] == r[j]);
            } else if j == pos {
                assert(q[i] == r[i] && q[j] == x);
                assert(key_le(r[i], x, scale));
            } else if i < pos {
                assert(q[i] == r[i] && q[j] == r[j - 1]);
            } else if i == pos {
                assert(q[i] == x && q[j] == r[j - 1]);
                assert(!key_le(r[pos], x, scale));
                if j - 1 > pos {
                    assert(r[pos] == r[pos]);
                    let a = r[pos];
                    let b = r[j - 1];
                    assert((100 * a.2) / scale < (100 * b.2) / scale || ((100 * a.2) / scale == (100 * b.2)
                        / scale && a.3.len() >= b.3.len()));
                }
            } else {
                assert(q[i] == r[i - 1] && q[j] == r[j - 1]);
            }
        }
    }
}

pub proof fn lemma_lighter_tokens(s: Seq<TokenView>, w: nat)
    ensures
        lighter_tokens(s, w) <= s.len(),
    decreases s.len(),
{
    if s.len() > 0 && s[0].2 <= w {
        lemma_lighter_tokens(s.drop_first(), w);
    }
}

pub proof fn lemma_key_count(s: Seq<TokenView>, x: TokenView, scale: nat)
    ensures
        key_count(s, x, scale) <= s.len(),
    decreases s.len(),
{
    if s.len() > 0 && key_le(s[0], x, scale) {
        lemma_key_count(s.drop_first(), x, scale);
    }
}

pub proof fn lemma_weight_total_concat(a: Seq<TokenView>, b: Seq<TokenView>)
    ensures
        weight_total(a + b) == weight_total(a) + weight_total(b),
    decreases b.len(),
{
    if b.len() == 0 {
        assert(a + b =~= a);
    } else {
        lemma_weight_total_concat(a, b.drop_last());
        assert((a + b).drop_last() =~= a + b.drop_last());
    }
}

/// Sorting keeps the length and the total weight.
pub proof fn lemma_sort_tokens(s: Seq<TokenView>)
    ensures
        sort_tokens(s).len() == s.len(),
        weight_total(sort_tokens(s)) == weight_total(s),
    decreases s.len(),
{
    if s.len() > 0 {
        let r = sort_tokens(s.drop_last());
        lemma_sort_tokens(s.drop_last());
        lemma_lighter_tokens(r, s.last().2);
        let i = lighter_tokens(r, s.last().2) as int;
        assert(r.insert(i, s.last()) =~= r.take(i) + seq![s.last()] + r.skip(i));
        assert(r =~= r.take(i) + r.skip(i));
        lemma_weight_total_concat(r.take(i) + seq![s.last()], r.skip(i));
        lemma_weight_total_concat(r.take(i), seq![s.last()]);
        lemma_weight_total_concat(r.take(i), r.skip(i));
        assert(seq![s.last()].drop_last() =~= Seq::<TokenView>::empty());
        assert(weight_total(Seq::<TokenView>::empty()) == 0);
        assert(weight_total(seq![s.last()]) == s.last().2);
    }
}

/// Of two or more tokens, at least one goes to each part.
pub proof fn lemma_right_count(input: Seq<TokenView>, sum: nat, total: nat)
    ensures
        input.len() >= 2 ==> 1 <= right_count(input, sum, total) <= input.len() - 1,
    decreases input.len(),
{
    if input.len() >= 2 {
        let taken = sum + input.last().2;
        let rest = input.drop_last();
        if !(rest.len() <= 1 || 2 * (taken + rest.last().2) > total) {
            lemma_right_count(rest, taken, total);
        }
    }
}

/// Whether `a` is a prefix of `b`.
pub open spec fn code_prefix(a: Seq<u8>, b: Seq<u8>) -> bool {
    a.len() <= b.len() && b.subrange(0, a.len() as int) == a
}

/// Every code of `s` is longer than `code` and starts with it.
pub open spec fn all_extend(s: Seq<TokenView>, code: Seq<u8>) -> bool {
    forall|i: int| 0 <= i < s.len() ==> #[trigger] s[i].3.len() > code.len() && code_prefix(code, s[i].3)
}

/// No code of `s` is a prefix of another.
pub open spec fn prefix_free(s: Seq<TokenView>) -> bool {
    forall|i: int, j: int|
        0 <= i < s.len() && 0 <= j < s.len() && i != j ==> !code_prefix(#[trigger] s[i].3, #[trigger] s[j].3)
}

/// Codes under `code` followed by 0 and codes under `code` followed by 1,
/// each prefix free, are prefix free together and all under `code`.
proof fn lemma_join_codes(a: Seq<TokenView>, b: Seq<TokenView>, code: Seq<u8>)
    requires
        all_extend(a, code.push(0)),
        all_extend(b, code.push(1)),
        prefix_free(a),
        prefix_free(b),
    ensures
        all_extend(a + b, code),
        prefix_free(a + b),
{
    let r = a + b;
    let d = code.len() as int;
    assert forall|i: int| 0 <= i < r.len() implies #[trigger] r[i].3.len() > code.len() && code_prefix(code, r[i].3) by {
        let p = if i < a.len() {
            code.push(0)
        } else {
            code.push(1)
        };
        let x = r[i].3;
        if i < a.len() {
            assert(r[i] == a[i]);
        } else {
            assert(r[i] == b[i - a.len()]);
        }
        assert(code_prefix(p, x));
        assert(x.subrange(0, d) =~= x.subrange(0, p.len() as int).subrange(0, d));
        assert(p.subrange(0, d) =~= code);
    }
    assert forall|i: int, j: int| 0 <= i < r.len() && 0 <= j < r.len() && i != j implies !code_prefix(
        #[trigger] r[i].3,
        #[trigger] r[j].3,
    ) by {
        if i < a.len() && j < a.len() {
            assert(r[i] == a[i] && r[j] == a[j]);
        } else if i >= a.len() && j >= a.len() {
            assert(r[i] == b[i - a.len()] && r[j] == b[j - a.len()]);
        } else {
            let ki = r[i].3;
            let kj = r[j].3;
            let ci = if i < a.len() {
                code.push(0)
            } else {
                code.push(1)
            };
            let cj = if i < a.len() {
                code.push(1)
            } else {
                code.push(0)
            };
            if i < a.len() {
                assert(r[i] == a[i] && r[j] == b[j - a.len()]);
            } else {
                assert(r[i] == b[i - a.len()] && r[j] == a[j]);
            }
            assert(ki[d] == ki.subrange(0, ci.len() as int)[d]);
            assert(kj[d] == kj.subrange(0, cj.len() as int)[d]);
            if code_prefix(ki, kj) {
                assert(kj[d] == kj.subrange(0, ki.len() as int)[d]);
            }
        }
    }
}

/// The Shannon-Fano codes of a table starting with `code` give every token
/// one code, each longer than `code` and starting with it, and no code is a
/// prefix of another.
pub proof fn lemma_sf_prefix_free(buffer: Seq<TokenView>, code: Seq<u8>)
    ensures
        sf_codes(buffer, code).len() == buffer.len(),
        all_extend(sf_codes(buffer, code), code),
        prefix_free(sf_codes(buffer, code)),
    decreases buffer.len(),
{
    let r = sf_codes(buffer, code);
    if buffer.len() <= 2 {
        assert(code.push(1).subrange(0, code.len() as int) =~= code);
        assert(code.push(0).subrange(0, code.len() as int) =~= code);
        if buffer.len() == 2 {
            assert(!code_prefix(code.push(1), code.push(0))) by {
                assert(code.push(0).subrange(0, code.len() as int + 1)[code.len() as int] == 0);
            }
            assert(!code_prefix(code.push(0), code.push(1))) by {
                assert(code.push(1).subrange(0, code.len() as int + 1)[code.len() as int] == 1);
            }
        }
    } else {
        let input = sort_tokens(buffer);
        lemma_sort_tokens(buffer);
        let n = input.len();
        lemma_right_count(input, 0, weight_total(input));
        let m = right_count(input, 0, weight_total(input));
        let right = input.skip(n - m).reverse();
        let left = input.take(n - m);
        lemma_sf_prefix_free(right, code.push(0));
        lemma_sf_prefix_free(left, code.push(1));
        lemma_join_codes(sf_codes(right, code.push(0)), sf_codes(left, code.push(1)), code);
        assert(r == sf_codes(right, code.push(0)) + sf_codes(left, code.push(1)));
    }
}

/// A copy of a token.
fn copy_token(t: &Token) -> (r: Token)
    ensures
        token_view(r) == token_view(*t),
{
    Token::new_code(t, &t.code)
}

/// The token with its code replaced by `code`.
fn recode(t: &Token, code: &Vec<u8>) -> (r: Token)
    ensures
        token_view(r) == with_code(token_view(*t), code@),
{
    Token::new_code(t, code)
}

/// `code` with one more digit.
fn extended(code: &Vec<u8>, digit: u8) -> (r: Vec<u8>)
    ensures
        r@ == code@.push(digit),
{
    let mut r = copy_bytes(code);
    r.push(digit);
    r
}

/// The tokens in order of weight, lightest first, equal weights in order.
fn sort_by_probability(v: &Vec<Token>) -> (r: Vec<Token>)
    ensures
        tokens_view(r@) == sort_tokens(tokens_view(v@)),
{
    let mut out: Vec<Token> = Vec::new();
    let mut i: usize = 0;
    proof {
        assert(tokens_view(v@).take(0) =~= Seq::<TokenView>::empty());
        assert(tokens_view(out@) =~= sort_tokens(tokens_view(v@).take(0)));
    }
    while i < v.len()
        invariant
            i <= v.len(),
            tokens_view(out@) == sort_tokens(tokens_view(v@).take(i as int)),
        decreases v.len() - i,
    {
        let w = v[i].probability;
        let mut p: usize = 0;
        proof {
            assert(tokens_view(out@).subrange(0, out@.len() as int) =~= tokens_view(out@));
        }
        while p < out.len() && out[p].probability <= w
            invariant
                p <= out.len(),
                lighter_tokens(tokens_view(out@), w as nat) == p + lighter_tokens(
                    tokens_view(out@).subrange(p as int, out@.len() as int),
                    w as nat,
                ),
            decreases out.len() - p,
        {
            proof {
                let tail = tokens_view(out@).subrange(p as int, out@.len() as int);
                assert(tail.drop_first() =~= tokens_view(out@).subrange(p + 1, out@.len() as int));
            }
            p = p + 1;
        }
        proof {
            if p < out.len() {
                let tail = tokens_view(out@).subrange(p as int, out@.len() as int);
                assert(tail[0] == tokens_view(out@)[p as int]);
            }
            assert(tokens_view(v@).take(i + 1).drop_last() =~= tokens_view(v@).take(i as int));
        }
        let t = copy_token(&v[i]);
        let ghost before = tokens_view(out@);
        out.insert(p, t);
        proof {
            assert(tokens_view(out@) =~= before.insert(p as int, token_view(v@[i as int])));
        }
        i = i + 1;
    }
    proof {
        assert(tokens_view(v@).take(i as int) =~= tokens_view(v@));
    }
    out
}

/// The Shannon-Fano codes of a table (see `sf_codes`).
fn generate_table_implementation(buffer: Vec<Token>, code: Vec<u8>) -> (table: Vec<Token>)
    requires
        sf_defined(tokens_view(buffer@)),
    ensures
        tokens_view(table@) == sf_codes(tokens_view(buffer@), code@),
    decreases buffer@.len(),
{
    let ghost b = tokens_view(buffer@);
    if buffer.len() == 1 {
        let c = extended(&code, 1);
        let t = recode(&buffer[0], &c);
        let r = vec![t];
        proof {
            assert(tokens_view(r@) =~= sf_codes(b, code@));
        }
        return r;
    }
    if buffer.len() == 2 {
        let c1 = extended(&code, 1);
        let c0 = extended(&code, 0);
        let t1 = recode(&buffer[0], &c1);
        let t0 = recode(&buffer[1], &c0);
        let r = vec![t1, t0];
        proof {
            assert(tokens_view(r@) =~= sf_codes(b, code@));
        }
        return r;
    }
    let mut input = sort_by_probability(&buffer);
    let ghost sorted = tokens_view(input@);
    let ghost n = sorted.len();
    proof {
        lemma_sort_tokens(b);
        lemma_right_count(sorted, 0, weight_total(sorted));
    }
    let ghost m = right_count(sorted, 0, weight_total(sorted));
    let mut total: usize = 0;
    let mut i: usize = 0;
    proof {
        assert(sorted.take(0) =~= Seq::<TokenView>::empty());
    }
    while i < input.len()
        invariant
            i <= input.len(),
            tokens_view(input@) == sorted,
            total == weight_total(sorted.take(i as int)),
            weight_total(sorted) <= usize::MAX,
        decreases input.len() - i,
    {
        proof {
            assert(sorted.take(i + 1).drop_last() =~= sorted.take(i as int));
            assert(sorted =~= sorted.take(i + 1) + sorted.skip(i + 1));
            lemma_weight_total_concat(sorted.take(i + 1), sorted.skip(i + 1));
        }
        total = total + input[i].probability;
        i = i + 1;
    }
    proof {
        assert(sorted.take(i as int) =~= sorted);
    }
    let mut sum: usize = 0;
    let mut right: Vec<Token> = Vec::new();
    loop
        invariant_except_break
            input@.len() >= 2,
            right_count(sorted, 0, total as nat) == (n - input@.len()) + right_count(
                sorted.take(input@.len() as int),
                sum as nat,
                total as nat,
            ),
        invariant
            n == sorted.len(),
            n >= 3,
            0 < total <= usize::MAX,
            total == weight_total(sorted),
            input@.len() <= n,
            tokens_view(input@) == sorted.take(input@.len() as int),
            tokens_view(right@) == sorted.skip(input@.len() as int).reverse(),
            sum == weight_total(sorted.skip(input@.len() as int)),
        ensures
            input@.len() >= 1,
            input@.len() == n - right_count(sorted, 0, total as nat),
        decreases input@.len(),
    {
        let ghost len = input@.len();
        let ghost pre = sorted.take(len as int);
        let temp = input.pop().unwrap();
        proof {
            assert(sorted.take(len - 1) =~= pre.drop_last());
            assert(sorted =~= sorted.take(len - 1) + sorted.skip(len - 1));
            assert(sorted.skip(len - 1) =~= seq![pre.last()] + sorted.skip(len as int));
            lemma_weight_total_concat(seq![pre.last()], sorted.skip(len as int));
            assert(seq![pre.last()].drop_last() =~= Seq::<TokenView>::empty());
            assert(weight_total(Seq::<TokenView>::empty()) == 0);
            assert(weight_total(seq![pre.last()]) == pre.last().2);
            assert(token_view(temp) == pre.last());
            lemma_weight_total_concat(sorted.take(len - 1), sorted.skip(len - 1));
            assert(tokens_view(input@) =~= sorted.take(len - 1));
        }
        sum = sum + temp.probability;
        let ghost before = tokens_view(right@);
        proof {
            assert(token_view(temp) == pre.last());
        }
        right.push(temp);
        proof {
            assert(tokens_view(right@) =~= before.push(pre.last()));
            assert(sorted.skip(len - 1).reverse() =~= sorted.skip(len as int).reverse().push(pre.last()));
        }
        let last_weight = match input.last() {
            Some(l) => l.probability,
            None => 0,
        };
        if input.len() <= 1 || 2 * (sum as u128 + last_weight as u128) > total as u128 {
            break;
        }
    }
    proof {
        lemma_right_count(sorted, 0, total as nat);
        assert(input@.len() == n - m);
    }
    let c0 = extended(&code, 0);
    let c1 = extended(&code, 1);
    let mut first = generate_table_implementation(right, c0);
    let mut second = generate_table_implementation(input, c1);
    first.append(&mut second);
    proof {
        assert(tokens_view(first@) =~= sf_codes(b, code@));
    }
    first
}

/// The Shannon-Fano table of `buffer`, every code starting with `code`,
/// ordered by the percentage each weight stands for (weights over `scale`),
/// longer codes first among equal percentages.
pub fn generate_table(buffer: Vec<Token>, code: Vec<u8>, scale: usize) -> (table: Vec<Token>)
    requires
        scale > 0,
        sf_defined(tokens_view(buffer@)),
    ensures
        tokens_view(table@) == key_sort(sf_codes(tokens_view(buffer@), code@), scale as nat),
        table_ordered(tokens_view(table@), scale as nat),
        table@.len() == buffer@.len(),
{
    let temp = generate_table_implementation(buffer, code);
    let mut out: Vec<Token> = Vec::new();
    let mut i: usize = 0;
    let ghost s = tokens_view(temp@);
    proof {
        assert(s.take(0) =~= Seq::<TokenView>::empty());
        assert(tokens_view(out@) =~= key_sort(s.take(0), scale as nat));
    }
    while i < temp.len()
        invariant
            i <= temp.len(),
            s == tokens_view(temp@),
            scale > 0,
            tokens_view(out@) == key_sort(s.take(i as int), scale as nat),
        decreases temp.len() - i,
    {
        let x = &temp[i];
        let px: u128 = (x.probability as u128 * 100) / scale as u128;
        let lx: usize = x.code.len();
        let mut p: usize = 0;
        let ghost xv = token_view(*x);
        proof {
            assert(tokens_view(out@).subrange(0, out@.len() as int) =~= tokens_view(out@));
            assert(px == percent(xv.2, scale as nat));
        }
        while p < out.len() && ((out[p].probability as u128 * 100) / (scale as u128) < px || ((
        out[p].probability as u128 * 100) / (scale as u128) == px && out[p].code.len() >= lx))
            invariant
                p <= out.len(),
                scale > 0,
                px == percent(xv.2, scale as nat),
                lx == xv.3.len(),
                key_count(tokens_view(out@), xv, scale as nat) == p + key_count(
                    tokens_view(out@).subrange(p as int, out@.len() as int),
                    xv,
                    scale as nat,
                ),
            decreases out.len() - p,
        {
            proof {
                let tail = tokens_view(out@).subrange(p as int, out@.len() as int);
                assert(tail.drop_first() =~= tokens_view(out@).subrange(p + 1, out@.len() as int));
                assert(tail[0] == token_view(out@[p as int]));
            }
            p = p + 1;
        }
        proof {
            if p < out.len() {
                let tail = tokens_view(out@).subrange(p as int, out@.len() as int);
                assert(tail[0] == token_view(out@[p as int]));
            }
            lemma_key_count(tokens_view(out@), xv, scale as nat);
            assert(s.take(i + 1).drop_last() =~= s.take(i as int));
        }
        let t = copy_token(x);
        let ghost before = tokens_view(out@);
        out.insert(p, t);
        proof {
            assert(tokens_view(out@) =~= before.insert(p as int, xv));
        }
        i = i + 1;
    }
    proof {
        assert(s.take(i as int) =~= s);
        lemma_key_sort_ordered(s, scale as nat);
        lemma_sf_prefix_free(tokens_view(buffer@), code@);
    }
    out
}

} // verus!
