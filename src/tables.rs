use vstd::prelude::*;

verus! {

/// Position of the padding character in both tables.
pub const PAD_INDEX: u8 = 64;

/// The padding character of Base64, `=`.
pub const PAD_BYTE: u8 = 61;

/// The Base64 alphabet table: `A`-`Z`, `a`-`z`, `0`-`9`, `+`, `/`, and the
/// padding character `=` last.
pub const BASE64_TABLE: [u8; 65] = [
    65, 66, 67, 68, 69, 70, 71, 72, 73, 74, 75, 76, 77,  // ABCDEFGHIJKLM
    78, 79, 80, 81, 82, 83, 84, 85, 86, 87, 88, 89, 90,  // NOPQRSTUVWXYZ
    97, 98, 99, 100, 101, 102, 103, 104, 105, 106, 107, 108, 109,  // abcdefghijklm
    110, 111, 112, 113, 114, 115, 116, 117, 118, 119, 120, 121, 122,  // nopqrstuvwxyz
    48, 49, 50, 51, 52, 53, 54, 55, 56, 57,  // 0123456789
    43, 47, 61,  // +/=
];

/// The symbol table: sixty-four hexagrams for the Base64 data characters, in
/// alphabet order, and the taiji sign for the padding character.
pub const TAIJI_TABLE: [char; 65] = [
    '䷁', '䷗', '䷆', '䷒', '䷎', '䷣', '䷭', '䷊',
    '䷏', '䷲', '䷧', '䷵', '䷽', '䷶', '䷟', '䷡',
    '䷇', '䷂', '䷜', '䷻', '䷦', '䷾', '䷯', '䷄',
    '䷬', '䷐', '䷮', '䷹', '䷞', '䷰', '䷛', '䷪',
    '䷖', '䷚', '䷃', '䷨', '䷳', '䷕', '䷑', '䷙',
    '䷢', '䷔', '䷿', '䷥', '䷷', '䷝', '䷱', '䷍',
    '䷓', '䷩', '䷺', '䷼', '䷴', '䷤', '䷸', '䷈',
    '䷋', '䷘', '䷅', '䷉', '䷠', '䷌', '䷫', '䷀', '☯',
];

/// The Base64 character at position `v` of the alphabet table
/// `A`-`Z`, `a`-`z`, `0`-`9`, `+`, `/`, then `=` at position 64.
pub open spec fn alphabet(v: int) -> u8 {
    if v < 26 {
        (65 + v) as u8
    } else if v < 52 {
        (97 + (v - 26)) as u8
    } else if v < 62 {
        (48 + (v - 52)) as u8
    } else if v == 62 {
        43u8
    } else if v == 63 {
        47u8
    } else {
        PAD_BYTE
    }
}

/// The alphabet table holds `alphabet(v)` at each position `v`.
pub proof fn lemma_base64_table()
    ensures
        BASE64_TABLE@.len() == 65,
        forall|v: int| 0 <= v < 65 ==> #[trigger] BASE64_TABLE@[v] == alphabet(v),
{
    assert(BASE64_TABLE@ =~= Seq::new(65, |v: int| alphabet(v)));
}

/// Whether `c` is one of the 65 characters of the alphabet table.
pub open spec fn in_alphabet(c: u8) -> bool {
    exists|v: int| 0 <= v < 65 && alphabet(v) == c
}

/// The position of `c` in the alphabet table, for a character in it.
pub open spec fn alphabet_index(c: u8) -> int {
    if 65 <= c <= 90 {
        c - 65
    } else if 97 <= c <= 122 {
        c - 97 + 26
    } else if 48 <= c <= 57 {
        c - 48 + 52
    } else if c == 43 {
        62
    } else if c == 47 {
        63
    } else {
        64
    }
}

/// The symbol at position `v` of the symbol table.
pub open spec fn symbol(v: int) -> char {
    TAIJI_TABLE@[v]
}

/// Whether `c` is one of the 65 symbols of the symbol table.
pub open spec fn in_symbols(c: char) -> bool {
    exists|v: int| 0 <= v < 65 && symbol(v) == c
}

/// The alphabet table lists 65 distinct characters, and `alphabet_index`
/// inverts it.
pub proof fn lemma_alphabet_bijective()
    ensures
        forall|v: int| 0 <= v < 65 ==> alphabet_index(#[trigger] alphabet(v)) == v,
        forall|c: u8| in_alphabet(c) <==> alphabet(alphabet_index(c)) == c,
{
    assert forall|c: u8| alphabet(alphabet_index(c)) == c implies in_alphabet(c) by {
        assert(0 <= alphabet_index(c) < 65);
    }
}

/// No two positions of the symbol table hold the same symbol.
pub proof fn lemma_symbols_distinct()
    ensures
        forall|i: int, j: int|
            0 <= i < 65 && 0 <= j < 65 && i != j ==> #[trigger] symbol(i) != #[trigger] symbol(j),
{
    assert(TAIJI_TABLE@.len() == 65);
    assert forall|i: int, j: int|
        0 <= i < 65 && 0 <= j < 65 && i != j implies #[trigger] symbol(i) != #[trigger] symbol(j) by {
        assert(TAIJI_TABLE@ == seq![
            '䷁', '䷗', '䷆', '䷒', '䷎', '䷣', '䷭', '䷊',
            '䷏', '䷲', '䷧', '䷵', '䷽', '䷶', '䷟', '䷡',
            '䷇', '䷂', '䷜', '䷻', '䷦', '䷾', '䷯', '䷄',
            '䷬', '䷐', '䷮', '䷹', '䷞', '䷰', '䷛', '䷪',
            '䷖', '䷚', '䷃', '䷨', '䷳', '䷕', '䷑', '䷙',
            '䷢', '䷔', '䷿', '䷥', '䷷', '䷝', '䷱', '䷍',
            '䷓', '䷩', '䷺', '䷼', '䷴', '䷤', '䷸', '䷈',
            '䷋', '䷘', '䷅', '䷉', '䷠', '䷌', '䷫', '䷀', '☯',
        ]);
    }
}

} // verus!
