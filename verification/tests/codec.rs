use lib::huffman::decoder::check::ppm_decodable;
use lib::huffman::encoder::ppm_encodable;
use lib::huffman::decoder::util::{decode_inside, decode_raw, input_to_char, teste};
use lib::huffman::decoder::ppm_impl as decode_stream;
use lib::huffman::encoder::ppm_impl as encode_stream;
use lib::huffman::utils::update_context;
use lib::huffman::writer::Writer;
use lib::huffman::{CodecError, Huffman, Mode, K};

#[test]
fn input_to_char_reads_binary_digits() {
    assert_eq!(input_to_char(&vec![0, 1, 1, 0, 0, 0, 0, 1]), 'a');
    assert_eq!(input_to_char(&vec![1, 0, 0, 0, 0, 0, 1]), 'A');
    assert_eq!(input_to_char(&vec![0]), '\0');
}

#[test]
fn input_to_char_reads_numbers_as_decimal_digits() {
    // 10 and 1 are written "10" and "1": the digits 1, 0, 1 spell five.
    assert_eq!(input_to_char(&vec![10, 1]), '\u{5}');
}

#[test]
fn decode_raw_reads_first_eight_bits() {
    let input = vec![0, 1, 1, 0, 0, 0, 1, 0, 1, 1];
    assert_eq!(decode_raw(&input), 'b');
}

#[test]
fn decode_inside_pops_last_eight_bits_in_reverse() {
    // The last eight bits, read from the end: 0 1 1 0 0 0 1 1 = 'c'.
    let mut input = vec![1, 1, 1, 0, 0, 0, 1, 1, 0];
    let c = decode_inside(&mut input);
    assert_eq!(c, 'c');
    assert_eq!(input, vec![1]);
}

#[test]
fn teste_pops_last_eight_bits_in_order() {
    let mut input = vec![1, 0, 0, 0, 0, 0, 0, 1, 1];
    let b = teste(&mut input);
    assert_eq!(b, 3);
    assert_eq!(input, vec![1]);
}

#[test]
fn writer_packs_bits_into_bytes() {
    let mut w = Writer::new();
    w.write(97, true);
    w.write(1, false);
    w.write(98, true);
    assert_eq!(w.output(), &vec![97, 177]);
    w.flush();
    assert_eq!(w.output(), &vec![97, 177, 0]);
}

#[test]
fn writer_flush_keeps_value_of_pending_bits() {
    let mut w = Writer::new();
    w.write(6, false);
    assert!(w.output().is_empty());
    w.flush();
    assert_eq!(w.output(), &vec![6]);
}

#[test]
fn writer_flush_of_empty_writer_writes_nothing() {
    let mut w = Writer::new();
    w.flush();
    assert!(w.output().is_empty());
}

#[test]
fn update_context_keeps_at_most_max_symbols() {
    let mut ctx = vec!['a', 'b'];
    update_context(&mut ctx, 'c', 3);
    assert_eq!(ctx, vec!['a', 'b', 'c']);
    update_context(&mut ctx, 'd', 3);
    assert_eq!(ctx, vec!['b', 'c', 'd']);
}

#[test]
fn update_context_counts_bytes() {
    // 'é' takes two bytes: "aé" holds three.
    let mut ctx = vec!['a', 'é'];
    update_context(&mut ctx, 'b', 4);
    assert_eq!(ctx, vec!['a', 'é', 'b']);
    let mut ctx = vec!['a', 'é'];
    update_context(&mut ctx, 'x', 3);
    assert_eq!(ctx, vec!['é', 'x']);
}

#[test]
fn ppm_encodes_first_letter_as_its_byte() {
    assert_eq!(encode_stream(&"a".to_string(), K), vec![97]);
}

#[test]
fn ppm_encodes_known_letter_with_its_code() {
    // 'a' raw, then the code "0" of 'a' in the empty context.
    assert_eq!(encode_stream(&"aa".to_string(), K), vec![97, 0]);
    assert_eq!(encode_stream(&"aaa".to_string(), K), vec![97, 0]);
}

#[test]
fn ppm_encodes_new_letter_after_escape() {
    // 'a' raw; for 'b' the escape "1" and the byte of 'b'; the last bit is
    // flushed as a byte of its own.
    assert_eq!(encode_stream(&"ab".to_string(), K), vec![97, 177, 0]);
}

#[test]
fn ppm_encodes_empty_text_as_nothing() {
    assert_eq!(encode_stream(&"".to_string(), K), Vec::<u8>::new());
}

#[test]
fn huffman_encode_adaptive_matches_ppm() {
    let text = "ab".to_string();
    assert_eq!(Huffman::encode(Mode::Adapdative, &text), vec![97, 177, 0]);
}

#[test]
fn huffman_encode_static_uses_frequency_tree() {
    // Counts a:2, b:1; the tree joins b (0) and a (1): bits 1 1 0.
    assert_eq!(Huffman::encode(Mode::SemiAdaptative, &"aab".to_string()), vec![6]);
}

#[test]
fn ppm_decodes_raw_first_letter() {
    // One byte of 'a' and a last byte saying no padding.
    assert_eq!(decode_stream(&vec![97, 0], K), vec!['a']);
}

#[test]
fn ppm_decodes_repeated_letter() {
    // After 'a', every 0 bit names 'a' in the deepest known context.
    assert_eq!(decode_stream(&vec![97, 0, 0], K), vec!['a'; 9]);
}

#[test]
fn ppm_decode_drops_padding_bits() {
    assert_eq!(decode_stream(&vec![97, 0, 3], K), vec!['a'; 6]);
}

#[test]
fn huffman_decode_adaptive() {
    let mut input = vec![97, 0, 0];
    assert_eq!(Huffman::decode(Mode::Adapdative, &mut input), Ok(vec!['a'; 9]));
    assert_eq!(input, vec![97, 0, 0]);
}

#[test]
fn huffman_decode_static_is_unsupported() {
    let mut input = vec![97, 0];
    assert_eq!(Huffman::decode(Mode::SemiAdaptative, &mut input), Err(CodecError::Unsupported));
}

#[test]
fn decodable_accepts_letter_streams() {
    assert!(ppm_decodable(&vec![97, 0, 0], K));
    assert!(ppm_decodable(&vec![97, 0], K));
}

#[test]
fn decodable_rejects_empty_and_broken_streams() {
    assert!(!ppm_decodable(&vec![], K));
    // After 'a' and 'b' the escape finds too few bits for a raw byte.
    assert!(!ppm_decodable(&vec![97, 177, 0], K));
    // A first byte that is not a letter a to z cannot be learnt.
    assert!(!ppm_decodable(&vec![65, 0], K));
}

#[test]
fn encodable_only_letters() {
    assert!(ppm_encodable(&"abracadabra".to_string(), K));
    assert!(ppm_encodable(&"".to_string(), K));
    assert!(!ppm_encodable(&"Abc".to_string(), K));
    assert!(!ppm_encodable(&"a b".to_string(), K));
    assert!(!ppm_encodable(&"abc".to_string(), 0));
    assert!(!ppm_encodable(&"abc".to_string(), usize::MAX));
}

#[test]
fn ppm_decode_reads_lone_byte_as_padding_count() {
    // The last byte of a stream counts padding bits: a stream of one byte
    // carries no bits at all.
    assert_eq!(decode_stream(&vec![97], K), Vec::<char>::new());
}
