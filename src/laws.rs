use vstd::prelude::*;
use vstd::utf8::{decode_utf8, encode_utf8, valid_utf8};
use crate::tables::{PAD_INDEX, alphabet, alphabet_index, in_symbols, symbol, lemma_alphabet_bijective, lemma_symbols_distinct};
use crate::base64::{
    as_text, base64_bytes, base64_decoded, base64_text, data_len, encoded_indices, encoded_len,
    lemma_alphabet_ascii, lemma_ascii_text_bytes, lemma_base64_bytes_round_trip,
    lemma_encoded_layout, INVALID_CHARACTER_ERROR, LENGTH_ERROR,
};
use crate::taiji::{base64_of_symbols, symbol_index, taiji_decoded, taiji_text};

verus! {

/// Base64 text read back as bytes is its own ASCII characters.
proof fn lemma_base64_text_bytes(b: Seq<u8>)
    ensures
        encode_utf8(base64_text(b)) == base64_bytes(b),
{
    assert forall|i: int| 0 <= i < base64_bytes(b).len() implies #[trigger] base64_bytes(b)[i] < 128 by {
        lemma_encoded_layout(b, i);
        lemma_alphabet_ascii(encoded_indices(b)[i]);
    }
    lemma_ascii_text_bytes(base64_bytes(b));
}

/// Symbol text names, symbol by symbol, the Base64 characters it came from.
proof fn lemma_symbols_back_to_base64(b: Seq<u8>)
    ensures
        forall|i: int| 0 <= i < taiji_text(b).len() ==> in_symbols(#[trigger] taiji_text(b)[i]),
        base64_of_symbols(taiji_text(b)) == base64_bytes(b),
{
    lemma_symbols_distinct();
    assert forall|i: int| 0 <= i < taiji_text(b).len() implies in_symbols(#[trigger] taiji_text(b)[i])
        && symbol_index(taiji_text(b)[i]) == encoded_indices(b)[i] by {
        lemma_encoded_layout(b, i);
        let v = encoded_indices(b)[i];
        assert(0 <= v < 65 && symbol(v) == taiji_text(b)[i]);
    }
    assert(base64_of_symbols(taiji_text(b)) =~= base64_bytes(b));
}

/// Decoding the Base64 encoding of UTF-8 text gives the text back.
pub proof fn law_base64_round_trip(b: Seq<u8>)
    requires
        valid_utf8(b),
    ensures
        as_text(base64_decoded(encode_utf8(base64_text(b)))) == Ok::<Seq<char>, &'static str>(
            decode_utf8(b),
        ),
{
    lemma_base64_text_bytes(b);
    lemma_base64_bytes_round_trip(b);
}

/// Decoding the symbol encoding of any bytes recovers those bytes, and of
/// UTF-8 text recovers the text.
pub proof fn law_taiji_round_trip(b: Seq<u8>)
    ensures
        taiji_decoded(taiji_text(b)) == Ok::<Seq<u8>, &'static str>(b),
        valid_utf8(b) ==> as_text(taiji_decoded(taiji_text(b))) == Ok::<Seq<char>, &'static str>(
            decode_utf8(b),
        ),
{
    lemma_symbols_back_to_base64(b);
    lemma_base64_bytes_round_trip(b);
}

/// Both encodings of `b` have four characters for every started group of
/// three bytes, so a multiple of four.
pub proof fn law_encoded_length(b: Seq<u8>)
    ensures
        base64_text(b).len() == taiji_text(b).len(),
        taiji_text(b).len() == 4 * ((b.len() + 2) / 3),
        taiji_text(b).len() % 4 == 0,
        encoded_len(b.len() as int) == 4 * ((b.len() + 2) / 3),
{
}

/// A final group of one byte ends the encoding with two padding characters,
/// one of two bytes with one, and whole groups with none.
pub proof fn law_padding(b: Seq<u8>)
    ensures
        ({
            let n = b.len() as int;
            let pads: int = if n % 3 == 1 {
                2
            } else if n % 3 == 2 {
                1
            } else {
                0
            };
            let s = taiji_text(b);
            let t = base64_text(b);
            &&& forall|i: int| s.len() - pads <= i < s.len() ==> #[trigger] s[i] == symbol(PAD_INDEX as int)
            &&& forall|i: int| 0 <= i < s.len() - pads ==> #[trigger] s[i] != symbol(PAD_INDEX as int)
            &&& forall|i: int| t.len() - pads <= i < t.len() ==> #[trigger] t[i] == '='
            &&& forall|i: int| 0 <= i < t.len() - pads ==> #[trigger] t[i] != '='
        }),
{
    lemma_symbols_distinct();
    lemma_alphabet_bijective();
    let n = b.len() as int;
    let s = taiji_text(b);
    let t = base64_text(b);
    assert(data_len(n) + (if n % 3 == 1 { 2int } else if n % 3 == 2 { 1int } else { 0int }) == s.len());
    assert forall|i: int| 0 <= i < s.len() implies (#[trigger] s[i] == symbol(PAD_INDEX as int)) == (i >= data_len(n))
        && (t[i] == '=') == (i >= data_len(n)) by {
        lemma_encoded_layout(b, i);
        let v = encoded_indices(b)[i];
        assert(alphabet_index(alphabet(v)) == v);
        assert(t[i] == alphabet(v) as char);
    }
}

/// Each symbol maps back to the alphabet character at its own position,
/// and no two alphabet characters share a symbol.
pub proof fn law_symbol_bijection()
    ensures
        forall|v: int| 0 <= v < 65 ==> #[trigger] symbol_index(symbol(v)) == v && alphabet_index(alphabet(v)) == v,
        forall|v: int, w: int| 0 <= v < 65 && 0 <= w < 65 && v != w ==> #[trigger] symbol(v) != #[trigger] symbol(w),
        forall|v: int, w: int| 0 <= v < 65 && 0 <= w < 65 && v != w ==> #[trigger] alphabet(v) != #[trigger] alphabet(w),
{
    lemma_symbols_distinct();
    lemma_alphabet_bijective();
    assert forall|v: int| 0 <= v < 65 implies #[trigger] symbol_index(symbol(v)) == v by {
        assert(in_symbols(symbol(v)));
    }
}

/// Symbol text whose length is not a multiple of four is refused for its
/// length; text holding a character outside the symbol table is refused for
/// that character.
pub proof fn law_rejection(s: Seq<char>)
    ensures
        (forall|i: int| 0 <= i < s.len() ==> in_symbols(#[trigger] s[i])) && s.len() % 4 != 0
            ==> taiji_decoded(s) == Err::<Seq<u8>, &'static str>(LENGTH_ERROR),
        (exists|i: int| 0 <= i < s.len() && !in_symbols(#[trigger] s[i]))
            ==> taiji_decoded(s) == Err::<Seq<u8>, &'static str>(INVALID_CHARACTER_ERROR),
{
}

/// Base64 text whose length in bytes is not a multiple of four is refused
/// for its length.
pub proof fn law_base64_length_rejection(t: Seq<u8>)
    requires
        t.len() % 4 != 0,
    ensures
        base64_decoded(t) == Err::<Seq<u8>, &'static str>(LENGTH_ERROR),
{
}

} // verus!
