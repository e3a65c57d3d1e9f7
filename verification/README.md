# Huffman coding of lower-case text, verified

A Verus library for two Huffman coders of texts made of the letters `a` to
`z`, with every function proved against a contract:

- an adaptive coder (PPM): each letter is coded with the code tree of the
  longest context (up to five letters before it) that has seen it, escaping
  to shorter contexts otherwise; a letter never seen is written as its byte;
- a static coder: one code tree built from the symbol counts of the text;
- Shannon-Fano code tables;
- the decoder of the adaptive coder's streams, and a test of whether a stream
  can be decoded. The decoder reads the last byte of a stream as a count of
  padding bits, which the encoder does not write, and the encoder writes codes
  without their leading zeros; so a coded text does not in general decode
  back to itself (a single letter followed by a zero byte does).

Layout:

- `src/huffman/` — the coders: the context model (`utils.rs`) and its
  invariant (`model.rs`), the encoder, the writer that packs bits into bytes,
  and the decoder (`decoder/`);
- `src/util/` — binary digits, code trees, symbol tokens, frequency tables and
  text cleaning;
- `src/shannon_fano.rs` — Shannon-Fano tables;
- `tests/` — tests on concrete values;
- `app/` — the command-line program: reading files, timing, printing.
