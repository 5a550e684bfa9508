use vstd::prelude::*;
use crate::tables::{TAIJI_TABLE, alphabet, in_symbols, symbol, lemma_alphabet_bijective, lemma_symbols_distinct};
use crate::base64::{lemma_alphabet_ascii, lemma_ascii_text_bytes, base64_decode, base64_decoded, base64_encode, base64_text, encoded_indices, alphabet_byte, alphabet_position, as_text, result_view, INVALID_CHARACTER_ERROR};
use crate::text::push_char;

verus! {

/// The first position of `key` in `table`, if it is there.
fn find_table_index(table: &[char; 65], key: char) -> (r: Option<usize>)
    ensures
        r is Some <==> exists|i: int| 0 <= i < 65 && table@[i] == key,
        r is Some ==> r->Some_0 < 65 && table@[r->Some_0 as int] == key,
{
    let mut i: usize = 0;
    while i < 65
        invariant
            i <= 65,
            table@.len() == 65,
            forall|j: int| 0 <= j < i ==> table@[j] != key,
        decreases 65 - i,
    {
        if table[i] == key {
            return Some(i);
        }
        i = i + 1;
    }
    None
}

/// Symbol text of `b`: its Base64 with every character replaced by the
/// symbol at the same table position.
pub open spec fn taiji_text(b: Seq<u8>) -> Seq<char> {
    encoded_indices(b).map_values(|v: int| symbol(v))
}

/// The table position of a symbol.
pub open spec fn symbol_index(c: char) -> int {
    choose|v: int| 0 <= v < 65 && symbol(v) == c
}

/// The Base64 text, as bytes, that symbol text `s` stands for.
pub open spec fn base64_of_symbols(s: Seq<char>) -> Seq<u8> {
    s.map_values(|c: char| alphabet(symbol_index(c)))
}

/// The bytes that symbol text `s` stands for, or the error that it gives.
pub open spec fn taiji_decoded(s: Seq<char>) -> Result<Seq<u8>, &'static str> {
    if forall|i: int| 0 <= i < s.len() ==> in_symbols(#[trigger] s[i]) {
        base64_decoded(base64_of_symbols(s))
    } else {
        Err(INVALID_CHARACTER_ERROR)
    }
}

/// Encodes `input` as Base64 and writes each character as the symbol at its
/// table position.
pub fn taiji_encode(input: &[u8]) -> (r: String)
    ensures
        r@ == taiji_text(input@),
{
    let base = base64_encode(input);
    let mut out = String::new();
    proof {
        lemma_alphabet_bijective();
    }
    for c in it: base.as_str().chars()
        invariant
            it.seq() == base64_text(input@),
            out@ =~= taiji_text(input@).take(it.index() as int),
    {
        let ghost k = it.index();
        proof {
            let v = encoded_indices(input@)[k];
            assert(0 <= v < 65);
            assert(c == alphabet(v) as char);
        }
        match alphabet_position(c as u8) {
            Some(v) => {
                push_char(&mut out, TAIJI_TABLE[v as usize]);
            },
            // Base64 text holds alphabet characters only.
            None => {},
        }
        assert(out@ =~= taiji_text(input@).take(k + 1));
    }
    assert(out@ =~= taiji_text(input@));
    out
}

/// Maps each symbol of `taiji` back to its Base64 character and decodes
/// the result as Base64 text.
///
/// A character that is not in the symbol table is an invalid character;
/// every error of the Base64 decoding comes through unchanged.
pub fn taiji_decode(taiji: &str) -> (r: Result<String, &'static str>)
    ensures
        result_view(r) == as_text(taiji_decoded(taiji@)),
{
    let mut base = String::new();
    let ghost b64 = base64_of_symbols(taiji@);
    proof {
        lemma_symbols_distinct();
    }
    for c in it: taiji.chars()
        invariant
            it.seq() == taiji@,
            b64 == base64_of_symbols(taiji@),
            forall|j: int| 0 <= j < it.index() ==> in_symbols(#[trigger] taiji@[j]),
            base@ =~= b64.take(it.index() as int).map_values(|b: u8| b as char),
    {
        let ghost k = it.index();
        match find_table_index(&TAIJI_TABLE, c) {
            Some(v) => {
                proof {
                    assert(symbol(v as int) == c);
                    assert(in_symbols(c));
                    assert(symbol_index(c) == v as int);
                    assert(b64[k] == alphabet(v as int));
                }
                push_char(&mut base, alphabet_byte(v as u8) as char);
                assert(base@ =~= b64.take(k + 1).map_values(|b: u8| b as char));
            },
            None => {
                assert(!in_symbols(c)) by {
                    if in_symbols(c) {
                        let v = choose|v: int| 0 <= v < 65 && symbol(v) == c;
                        assert(TAIJI_TABLE@[v] == c);
                    }
                }
                return Err(INVALID_CHARACTER_ERROR);
            },
        }
    }
    proof {
        assert(b64.take(taiji@.len() as int) =~= b64);
        assert forall|i: int| 0 <= i < b64.len() implies #[trigger] b64[i] < 128 by {
            let v = symbol_index(taiji@[i]);
            assert(0 <= v < 65 && symbol(v) == taiji@[i]);
            lemma_alphabet_ascii(v);
        }
        lemma_ascii_text_bytes(b64);
    }
    base64_decode(base.as_str())
}

} // verus!
