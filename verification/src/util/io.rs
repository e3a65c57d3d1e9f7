//! Preparing a text for the coders: lower case, accented letters folded to
//! their plain letters, and only ASCII letters kept.
use vstd::prelude::*;
use crate::util::bits::{binary_digits, push_binary_digits};

verus! {

/// The plain letter (or a space) an accented letter or a typographic mark
/// stands for; any other character is itself.
pub open spec fn ascii_fold(c: char) -> char {
    match c {
        '\u{e2}' | '\u{e1}' | '\u{e0}' | '\u{e3}' => 'a',
        '\u{ea}' | '\u{e9}' | '\u{e8}' => 'e',
        '\u{ee}' | '\u{ed}' | '\u{ec}' => 'i',
        '\u{f4}' | '\u{f3}' | '\u{f2}' | '\u{f5}' => 'o',
        '\u{fb}' | '\u{fa}' | '\u{f9}' | '\u{fc}' => 'u',
        '\u{f1}' => 'n',
        '\u{e7}' => 'c',
        '\u{201c}' | '\u{201d}' | '\u{2019}' | '\u{2014}' | '\u{2013}' | '\u{ba}' => ' ',
        t => t,
    }
}

/// The fold takes every accented Portuguese vowel to its plain vowel, `ñ` to
/// `n`, `ç` to `c`, typographic quotes, dashes and the ordinal sign to a
/// space, and leaves every ASCII letter as it is.
pub proof fn lemma_fold_table()
    ensures
        ascii_fold('\u{e2}') == 'a' && ascii_fold('\u{e1}') == 'a' && ascii_fold('\u{e0}') == 'a'
            && ascii_fold('\u{e3}') == 'a',
        ascii_fold('\u{ea}') == 'e' && ascii_fold('\u{e9}') == 'e' && ascii_fold('\u{e8}') == 'e',
        ascii_fold('\u{ee}') == 'i' && ascii_fold('\u{ed}') == 'i' && ascii_fold('\u{ec}') == 'i',
        ascii_fold('\u{f4}') == 'o' && ascii_fold('\u{f3}') == 'o' && ascii_fold('\u{f2}') == 'o'
            && ascii_fold('\u{f5}') == 'o',
        ascii_fold('\u{fb}') == 'u' && ascii_fold('\u{fa}') == 'u' && ascii_fold('\u{f9}') == 'u'
            && ascii_fold('\u{fc}') == 'u',
        ascii_fold('\u{f1}') == 'n',
        ascii_fold('\u{e7}') == 'c',
        ascii_fold('\u{201c}') == ' ' && ascii_fold('\u{201d}') == ' ' && ascii_fold('\u{2019}') == ' '
            && ascii_fold('\u{2014}') == ' ' && ascii_fold('\u{2013}') == ' ' && ascii_fold('\u{ba}') == ' ',
        forall|c: char| (c as u32) < 128 ==> #[trigger] ascii_fold(c) == c,
{
    assert forall|c: char| (c as u32) < 128 implies #[trigger] ascii_fold(c) == c by {
        assert(c != '\u{e2}' && c != '\u{e1}' && c != '\u{e0}' && c != '\u{e3}');
        assert(c != '\u{ea}' && c != '\u{e9}' && c != '\u{e8}');
        assert(c != '\u{ee}' && c != '\u{ed}' && c != '\u{ec}');
        assert(c != '\u{f4}' && c != '\u{f3}' && c != '\u{f2}' && c != '\u{f5}');
        assert(c != '\u{fb}' && c != '\u{fa}' && c != '\u{f9}' && c != '\u{fc}');
        assert(c != '\u{f1}' && c != '\u{e7}' && c != '\u{ba}');
        assert(c != '\u{201c}' && c != '\u{201d}' && c != '\u{2019}' && c != '\u{2014}' && c != '\u{2013}');
    }
}

/// Whether a character is an ASCII letter, upper or lower case.
pub open spec fn is_ascii_letter(c: char) -> bool {
    ('a' <= c && c <= 'z') || ('A' <= c && c <= 'Z')
}

/// The characters of `s`, folded, that are ASCII letters, in order.
pub open spec fn letters_of(s: Seq<char>) -> Seq<char>
    decreases s.len(),
{
    if s.len() == 0 {
        seq![]
    } else {
        let c = ascii_fold(s.last());
        if is_ascii_letter(c) {
            letters_of(s.drop_last()).push(c)
        } else {
            letters_of(s.drop_last())
        }
    }
}

/// Only ASCII letters are kept, and no more characters than the text had.
pub proof fn lemma_letters_only(s: Seq<char>)
    ensures
        letters_of(s).len() <= s.len(),
        forall|i: int| 0 <= i < letters_of(s).len() ==> is_ascii_letter(#[trigger] letters_of(s)[i]),
    decreases s.len(),
{
    if s.len() > 0 {
        lemma_letters_only(s.drop_last());
    }
}

/// What `str::to_lowercase` returns for a text: its Unicode lower-case
/// mapping, a function of the text alone.
pub uninterp spec fn lowercase(s: Seq<char>) -> Seq<char>;

/// The lower-case form of a text.
///
/// Trusted: calls `str::to_lowercase`; its result is only named here
/// (`lowercase`), nothing more is claimed of it.
#[verifier::external_body]
fn to_lowercase(s: &str) -> (r: String)
    ensures
        r@ == lowercase(s@),
{
    s.to_lowercase()
}

/// Folds an accented letter or a typographic mark to its plain form.
pub fn change_to_ascii(c: char) -> (r: char)
    ensures
        r == ascii_fold(c),
{
    match c {
        '\u{e2}' | '\u{e1}' | '\u{e0}' | '\u{e3}' => 'a',
        '\u{ea}' | '\u{e9}' | '\u{e8}' => 'e',
        '\u{ee}' | '\u{ed}' | '\u{ec}' => 'i',
        '\u{f4}' | '\u{f3}' | '\u{f2}' | '\u{f5}' => 'o',
        '\u{fb}' | '\u{fa}' | '\u{f9}' | '\u{fc}' => 'u',
        '\u{f1}' => 'n',
        '\u{e7}' => 'c',
        '\u{201c}' | '\u{201d}' | '\u{2019}' | '\u{2014}' | '\u{2013}' | '\u{ba}' => ' ',
        t => t,
    }
}

/// Keeps, in order, the folded characters of a lower-cased text that are
/// ASCII letters. (A character kept is thereby neither numeric, nor white
/// space, nor punctuation.)
pub fn keep_letters(lower: &String) -> (letters: Vec<char>)
    ensures
        letters@ == letters_of(lower@),
{
    let mut letters: Vec<char> = Vec::new();
    let ghost mut seen: Seq<char> = Seq::empty();
    for c in it: lower.as_str().chars()
        invariant
            it.seq() == lower@,
            seen == it.seq().take(it.index()),
            letters@ == letters_of(seen),
    {
        let f = change_to_ascii(c);
        proof {
            let next = seen.push(c);
            assert(next.drop_last() =~= seen);
            seen = next;
        }
        if ('a' <= f && f <= 'z') || ('A' <= f && f <= 'Z') {
            letters.push(f);
        }
    }
    proof {
        assert(seen =~= lower@);
    }
    letters
}

/// The letters of a text, lower-cased and folded (see `letters_of`).
pub fn clean_content(content: &String) -> (letters: Vec<char>)
    ensures
        letters@ == letters_of(lowercase(content@)),
{
    let lower = to_lowercase(content.as_str());
    keep_letters(&lower)
}

/// The binary numerals of the bytes of `bytes`, one after another (without
/// leading zeros).
pub open spec fn raw_digits(bytes: Seq<u8>) -> Seq<u8>
    decreases bytes.len(),
{
    if bytes.len() == 0 {
        seq![]
    } else {
        raw_digits(bytes.drop_last()) + binary_digits(bytes.last() as nat)
    }
}

/// The bits of a text as `raw_digits` spells them for the bytes of its
/// UTF-8 encoding.
pub fn raw_out(content: &String) -> (digits: Vec<u8>)
    ensures
        digits@ == raw_digits(vstd::utf8::encode_utf8(content@)),
{
    let bytes = content.as_str().as_bytes();
    let ghost b = vstd::utf8::encode_utf8(content@);
    let mut digits: Vec<u8> = Vec::new();
    let mut i: usize = 0;
    while i < bytes.len()
        invariant
            bytes@ == b,
            i <= bytes@.len(),
            digits@ == raw_digits(b.take(i as int)),
        decreases bytes@.len() - i,
    {
        proof {
            assert(b.take(i + 1).drop_last() =~= b.take(i as int));
        }
        push_binary_digits(bytes[i], &mut digits);
        i = i + 1;
    }
    proof {
        assert(b.take(i as int) =~= b);
    }
    digits
}

} // verus!
