//! Binary digits: how codes are spelled as bits, and how bits are read back
//! into bytes and characters.
use vstd::prelude::*;

verus! {

/// Value of a big-endian sequence of binary digits.
pub open spec fn bits_value(bits: Seq<u8>) -> nat
    decreases bits.len(),
{
    if bits.len() == 0 {
        0
    } else {
        2 * bits_value(bits.drop_last()) + bits.last() as nat
    }
}

/// Every element is a binary digit.
pub open spec fn is_bit_seq(bits: Seq<u8>) -> bool {
    forall|i: int| 0 <= i < bits.len() ==> #[trigger] bits[i] <= 1
}

/// The binary numeral of `v` without leading zeros (`0` is written as one digit).
pub open spec fn binary_digits(v: nat) -> Seq<u8>
    decreases v,
{
    if v < 2 {
        seq![v as u8]
    } else {
        binary_digits(v / 2).push((v % 2) as u8)
    }
}

/// The `n` lowest binary digits of `v`, most significant first.
pub open spec fn fixed_digits(v: nat, n: nat) -> Seq<u8>
    decreases n,
{
    if n == 0 {
        seq![]
    } else {
        fixed_digits(v / 2, (n - 1) as nat).push((v % 2) as u8)
    }
}

/// The eight binary digits of a byte.
pub open spec fn byte_digits(b: u8) -> Seq<u8> {
    fixed_digits(b as nat, 8)
}

/// The bits of a byte string, eight per byte, most significant first.
pub open spec fn bytes_bits(bytes: Seq<u8>) -> Seq<u8>
    decreases bytes.len(),
{
    if bytes.len() == 0 {
        seq![]
    } else {
        bytes_bits(bytes.drop_last()) + byte_digits(bytes.last())
    }
}

/// The digits written for a code: eight of them when `raw`, else the numeral.
pub open spec fn code_digits(code: u8, raw: bool) -> Seq<u8> {
    if raw {
        byte_digits(code)
    } else {
        binary_digits(code as nat)
    }
}

/// Decimal digits of `x`, most significant first.
pub open spec fn decimal_digits(x: nat) -> Seq<nat>
    decreases x,
{
    if x < 10 {
        seq![x]
    } else {
        decimal_digits(x / 10).push(x % 10)
    }
}

/// The digit string formed by writing every element in decimal, one after another.
pub open spec fn digit_string(s: Seq<u8>) -> Seq<nat>
    decreases s.len(),
{
    if s.len() == 0 {
        seq![]
    } else {
        digit_string(s.drop_last()) + decimal_digits(s.last() as nat)
    }
}

/// Value of a digit string read in base two.
pub open spec fn digits_value(ds: Seq<nat>) -> nat
    decreases ds.len(),
{
    if ds.len() == 0 {
        0
    } else {
        2 * digits_value(ds.drop_last()) + ds.last()
    }
}

/// The digit string of `input` is a non-empty base-two numeral of a byte.
pub open spec fn readable_as_byte(input: Seq<u8>) -> bool {
    let ds = digit_string(input);
    &&& ds.len() > 0
    &&& forall|i: int| 0 <= i < ds.len() ==> #[trigger] ds[i] <= 1
    &&& digits_value(ds) < 256
}

/// The byte that `input` spells.
pub open spec fn spelled_byte(input: Seq<u8>) -> nat {
    digits_value(digit_string(input))
}

pub proof fn lemma_digits_value_grows(a: Seq<nat>, b: Seq<nat>)
    ensures
        digits_value(a) <= digits_value(a + b),
    decreases b.len(),
{
    if b.len() > 0 {
        assert(a + b.drop_last() =~= (a + b).drop_last());
        lemma_digits_value_grows(a, b.drop_last());
    }
}

pub proof fn lemma_bits_digits_agree(bits: Seq<u8>)
    requires
        is_bit_seq(bits),
    ensures
        digit_string(bits) =~= Seq::new(bits.len(), |i: int| bits[i] as nat),
        digits_value(digit_string(bits)) == bits_value(bits),
    decreases bits.len(),
{
    if bits.len() > 0 {
        lemma_bits_digits_agree(bits.drop_last());
        assert(digit_string(bits) =~= Seq::new(bits.len(), |i: int| bits[i] as nat));
        assert(digit_string(bits).drop_last() =~= digit_string(bits.drop_last()));
    }
}

/// Appends the base-two reading of the decimal digits of `x` to a value.
fn append_decimal(v: u32, x: u8, Ghost(prefix): Ghost<Seq<nat>>, Ghost(whole): Ghost<Seq<nat>>) -> (r: u32)
    requires
        v as nat == digits_value(prefix),
        whole.len() >= prefix.len() + decimal_digits(x as nat).len(),
        whole.subrange(0, prefix.len() + decimal_digits(x as nat).len() as int) =~= prefix
            + decimal_digits(x as nat),
        forall|i: int| 0 <= i < whole.len() ==> #[trigger] whole[i] <= 1,
        digits_value(whole) < 256,
    ensures
        r as nat == digits_value(prefix + decimal_digits(x as nat)),
    decreases x,
{
    let ghost own = prefix + decimal_digits(x as nat);
    proof {
        lemma_digits_value_grows(own, whole.subrange(own.len() as int, whole.len() as int));
        assert(own + whole.subrange(own.len() as int, whole.len() as int) =~= whole);
    }
    if x < 10 {
        proof {
            assert(own.drop_last() =~= prefix);
            assert(own.last() == x as nat);
        }
        2 * v + x as u32
    } else {
        let ghost inner = prefix + decimal_digits((x / 10) as nat);
        proof {
            assert(own.drop_last() =~= inner);
            assert(whole.subrange(0, inner.len() as int) =~= inner) by {
                assert(whole.subrange(0, inner.len() as int) =~= own.subrange(0, inner.len() as int));
            }
            assert(own[own.len() - 1] == x as nat % 10);
        }
        let w = append_decimal(v, x / 10, Ghost(prefix), Ghost(whole));
        2 * w + (x % 10) as u32
    }
}

/// Reads a sequence of numbers, written one after another in decimal, as a
/// base-two numeral and returns the character with that code.
pub fn input_to_char(input: &Vec<u8>) -> (c: char)
    requires
        readable_as_byte(input@),
    ensures
        c as nat == spelled_byte(input@),
{
    let ghost whole = digit_string(input@);
    let mut value: u32 = 0;
    let mut i: usize = 0;
    proof {
        assert(input@.take(0) =~= Seq::<u8>::empty());
    }
    while i < input.len()
        invariant
            i <= input.len(),
            whole == digit_string(input@),
            readable_as_byte(input@),
            value as nat == digits_value(digit_string(input@.take(i as int))),
            digit_string(input@.take(i as int)).len() <= whole.len(),
            whole.subrange(0, digit_string(input@.take(i as int)).len() as int) =~= digit_string(
                input@.take(i as int),
            ),
        decreases input.len() - i,
    {
        let ghost pre = digit_string(input@.take(i as int));
        let ghost next = digit_string(input@.take(i + 1));
        proof {
            assert(input@.take(i + 1).drop_last() =~= input@.take(i as int));
            assert(next =~= pre + decimal_digits(input@[i as int] as nat));
            lemma_digit_string_prefix(input@, i + 1);
        }
        value = append_decimal(value, input[i], Ghost(pre), Ghost(whole));
        i = i + 1;
    }
    proof {
        assert(input@.take(i as int) =~= input@);
    }
    let b = value as u8;
    b as char
}

proof fn lemma_digit_string_prefix(s: Seq<u8>, n: int)
    requires
        0 <= n <= s.len(),
    ensures
        digit_string(s.take(n)).len() <= digit_string(s).len(),
        digit_string(s).subrange(0, digit_string(s.take(n)).len() as int) =~= digit_string(s.take(n)),
    decreases s.len() - n,
{
    if n < s.len() {
        lemma_digit_string_prefix(s, n + 1);
        assert(s.take(n + 1).drop_last() =~= s.take(n));
        let a = digit_string(s.take(n));
        let b = digit_string(s.take(n + 1));
        assert(b =~= a + decimal_digits(s[n] as nat));
        assert(digit_string(s).subrange(0, a.len() as int) =~= b.subrange(0, a.len() as int));
    } else {
        assert(s.take(n) =~= s);
    }
}


pub proof fn lemma_binary_digits_bits(v: nat)
    ensures
        is_bit_seq(binary_digits(v)),
        binary_digits(v).len() >= 1,
        v < 256 ==> binary_digits(v).len() <= 8,
        bits_value(binary_digits(v)) == v,
{
    lemma_binary_digits_len(v, 8);
    assert(pow2(8) == 256) by {
        vstd::arithmetic::power2::lemma2_to64();
    }
}

proof fn lemma_binary_digits_len(v: nat, n: nat)
    ensures
        is_bit_seq(binary_digits(v)),
        binary_digits(v).len() >= 1,
        n >= 1 && v < pow2(n) ==> binary_digits(v).len() <= n,
        bits_value(binary_digits(v)) == v,
    decreases v,
{
    if v >= 2 {
        if n >= 1 {
            assert(pow2(n) == 2 * pow2((n - 1) as nat)) by {
                vstd::arithmetic::power2::lemma_pow2_unfold(n);
            }
            if n == 1 {
                assert(pow2(0) == 1) by {
                    vstd::arithmetic::power2::lemma2_to64();
                }
            }
        }
        lemma_binary_digits_len(v / 2, (n - 1) as nat);
        let d = binary_digits(v);
        assert(d.drop_last() =~= binary_digits(v / 2));
        assert(d.last() as nat == v % 2);
        assert(bits_value(d) == 2 * bits_value(d.drop_last()) + d.last() as nat);
    } else {
        let d = binary_digits(v);
        assert(d.drop_last() =~= Seq::<u8>::empty());
        assert(bits_value(d.drop_last()) == 0);
        assert(d.last() as nat == v);
        assert(bits_value(d) == 2 * bits_value(d.drop_last()) + d.last() as nat);
    }
}

pub proof fn lemma_fixed_digits_bits(v: nat, n: nat)
    ensures
        is_bit_seq(fixed_digits(v, n)),
        fixed_digits(v, n).len() == n,
    decreases n,
{
    if n > 0 {
        lemma_fixed_digits_bits(v / 2, (n - 1) as nat);
    }
}

/// Reading `n` binary digits and writing them back with `n` digits gives them back.
pub proof fn lemma_fixed_digits_of_value(bits: Seq<u8>)
    requires
        is_bit_seq(bits),
    ensures
        fixed_digits(bits_value(bits), bits.len()) =~= bits,
        bits_value(bits) < pow2(bits.len()),
    decreases bits.len(),
{
    if bits.len() > 0 {
        let b = bits.drop_last();
        lemma_fixed_digits_of_value(b);
        assert(b.push(bits.last()) =~= bits);
        let v = bits_value(bits);
        assert(bits[bits.len() - 1] <= 1);
        assert(v / 2 == bits_value(b));
        assert((v % 2) as u8 == bits.last());
        assert(pow2(bits.len()) == 2 * pow2(b.len())) by {
            vstd::arithmetic::power2::lemma_pow2_unfold(bits.len());
        }
    } else {
        assert(pow2(0) == 1) by {
            vstd::arithmetic::power2::lemma2_to64();
        }
    }
}

pub open spec fn pow2(n: nat) -> nat {
    vstd::arithmetic::power2::pow2(n)
}

/// One to eight binary digits spell the byte they are the numeral of.
pub proof fn lemma_bits_readable(bits: Seq<u8>)
    requires
        is_bit_seq(bits),
        1 <= bits.len() <= 8,
    ensures
        readable_as_byte(bits),
        spelled_byte(bits) == bits_value(bits),
{
    lemma_bits_digits_agree(bits);
    lemma_fixed_digits_of_value(bits);
    assert(pow2(8) == 256) by {
        vstd::arithmetic::power2::lemma2_to64();
    }
    if bits.len() < 8 {
        vstd::arithmetic::power2::lemma_pow2_strictly_increases(bits.len(), 8);
    }
    let ds = digit_string(bits);
    assert forall|i: int| 0 <= i < ds.len() implies #[trigger] ds[i] <= 1 by {
        assert(bits[i] <= 1);
    }
}

/// The eight digits of a byte read back give the byte.
pub proof fn lemma_byte_digits_value(b: u8)
    ensures
        bits_value(byte_digits(b)) == b as nat,
        is_bit_seq(byte_digits(b)),
        byte_digits(b).len() == 8,
{
    lemma_fixed_value(b as nat, 8);
    lemma_fixed_digits_bits(b as nat, 8);
    assert(pow2(8) == 256) by {
        vstd::arithmetic::power2::lemma2_to64();
    }
}

pub proof fn lemma_fixed_value(v: nat, n: nat)
    ensures
        bits_value(fixed_digits(v, n)) == v % pow2(n),
    decreases n,
{
    vstd::arithmetic::power2::lemma_pow2_pos(n);
    if n == 0 {
        assert(pow2(0) == 1) by {
            vstd::arithmetic::power2::lemma2_to64();
        }
    } else {
        lemma_fixed_value(v / 2, (n - 1) as nat);
        let d = fixed_digits(v, n);
        assert(d.drop_last() =~= fixed_digits(v / 2, (n - 1) as nat));
        let p = pow2((n - 1) as nat);
        assert(pow2(n) == 2 * p) by {
            vstd::arithmetic::power2::lemma_pow2_unfold(n);
        }
        vstd::arithmetic::power2::lemma_pow2_pos((n - 1) as nat);
        vstd::arithmetic::div_mod::lemma_breakdown(v as int, 2, p as int);
    }
}

/// The bits of a byte string are binary digits, eight per byte.
pub proof fn lemma_bytes_bits(bytes: Seq<u8>)
    ensures
        is_bit_seq(bytes_bits(bytes)),
        bytes_bits(bytes).len() == 8 * bytes.len(),
    decreases bytes.len(),
{
    if bytes.len() > 0 {
        lemma_bytes_bits(bytes.drop_last());
        lemma_byte_digits_value(bytes.last());
    }
}

/// Appends the base-two numeral of `v` (no leading zeros) to `dst`.
pub fn push_binary_digits(v: u8, dst: &mut Vec<u8>)
    ensures
        final(dst)@ =~= old(dst)@ + binary_digits(v as nat),
    decreases v,
{
    if v >= 2 {
        push_binary_digits(v / 2, dst);
    }
    dst.push(v % 2);
}

/// Appends the eight binary digits of `v` to `dst`.
pub fn push_byte_digits(v: u8, dst: &mut Vec<u8>)
    ensures
        final(dst)@ =~= old(dst)@ + byte_digits(v),
{
    push_fixed_digits(v, 8, dst);
}

fn push_fixed_digits(v: u8, n: usize, dst: &mut Vec<u8>)
    ensures
        final(dst)@ =~= old(dst)@ + fixed_digits(v as nat, n as nat),
    decreases n,
{
    if n > 0 {
        push_fixed_digits(v / 2, n - 1, dst);
        dst.push(v % 2);
    }
}

/// The value of a short bit sequence, as a byte.
pub fn bits_to_byte(bits: &Vec<u8>) -> (b: u8)
    requires
        is_bit_seq(bits@),
        bits.len() <= 8,
    ensures
        b as nat == bits_value(bits@),
{
    let mut v: u8 = 0;
    let mut i: usize = 0;
    proof {
        assert(bits@.take(0) =~= Seq::<u8>::empty());
        assert(pow2(0) == 1) by {
            vstd::arithmetic::power2::lemma2_to64();
        }
    }
    while i < bits.len()
        invariant
            i <= bits.len() <= 8,
            is_bit_seq(bits@),
            v as nat == bits_value(bits@.take(i as int)),
            v < pow2(i as nat),
        decreases bits.len() - i,
    {
        proof {
            assert(bits@.take(i + 1).drop_last() =~= bits@.take(i as int));
            lemma_fixed_digits_of_value(bits@.take(i as int));
            assert(pow2((i + 1) as nat) == 2 * pow2(i as nat)) by {
                vstd::arithmetic::power2::lemma_pow2_unfold((i + 1) as nat);
            }
            assert(pow2(8) == 256) by {
                vstd::arithmetic::power2::lemma2_to64();
            }
            if i + 1 < 8 {
                vstd::arithmetic::power2::lemma_pow2_strictly_increases(i as nat + 1, 8);
            }
            assert(bits@[i as int] <= 1);
        }
        v = 2 * v + bits[i];
        i = i + 1;
    }
    proof {
        assert(bits@.take(i as int) =~= bits@);
    }
    v
}

} // verus!
