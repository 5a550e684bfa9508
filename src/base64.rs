use vstd::prelude::*;
use crate::tables::{BASE64_TABLE, lemma_base64_table, PAD_BYTE, PAD_INDEX, alphabet, alphabet_index, in_alphabet, lemma_alphabet_bijective};
use crate::text::{push_char, string_from_utf8};
use vstd::utf8::{decode_utf8, encode_utf8, is_ascii_chars, is_ascii_chars_encode_utf8, valid_utf8};
use vstd::string::StringSliceAdditionalSpecFns;

verus! {

/// Byte `i` of `b`, or zero past its end.
pub open spec fn byte_or_zero(b: Seq<u8>, i: int) -> int {
    if 0 <= i < b.len() {
        b[i] as int
    } else {
        0
    }
}

/// Six-bit value `p` (0 to 3, most significant first) of the 24-bit number
/// made of bytes `3g`, `3g+1`, `3g+2` of `b`, absent bytes counting as zero.
pub open spec fn sextet(b: Seq<u8>, g: int, p: int) -> int {
    let x = byte_or_zero(b, 3 * g);
    let y = byte_or_zero(b, 3 * g + 1);
    let z = byte_or_zero(b, 3 * g + 2);
    if p == 0 {
        x / 4
    } else if p == 1 {
        (x % 4) * 16 + y / 16
    } else if p == 2 {
        (y % 16) * 4 + z / 64
    } else {
        z % 64
    }
}

/// Number of characters in the encoding of `n` bytes: four per started
/// group of three.
pub open spec fn encoded_len(n: int) -> int {
    4 * ((n + 2) / 3)
}

/// Table position of character `k` of the encoding of `b`: a six-bit value,
/// or the padding position where the group has no byte for it.
pub open spec fn encoded_index(b: Seq<u8>, k: int) -> int {
    let g = k / 4;
    let p = k % 4;
    if 3 * g + p > b.len() {
        PAD_INDEX as int
    } else {
        sextet(b, g, p)
    }
}

/// Table positions of the encoding of `b`, shared by both alphabets.
pub open spec fn encoded_indices(b: Seq<u8>) -> Seq<int> {
    Seq::new(encoded_len(b.len() as int) as nat, |k: int| encoded_index(b, k))
}

/// Standard padded Base64 of `b`, as bytes.
pub open spec fn base64_bytes(b: Seq<u8>) -> Seq<u8> {
    encoded_indices(b).map_values(|v: int| alphabet(v))
}

/// Standard padded Base64 of `b`, as text.
pub open spec fn base64_text(b: Seq<u8>) -> Seq<char> {
    base64_bytes(b).map_values(|c: u8| c as char)
}

/// Every alphabet character is ASCII.
pub proof fn lemma_alphabet_ascii(v: int)
    requires
        0 <= v < 65,
    ensures
        alphabet(v) < 128,
{
}

/// Text made of ASCII bytes, one character each, is encoded in UTF-8 as
/// those very bytes.
pub proof fn lemma_ascii_text_bytes(bytes: Seq<u8>)
    requires
        forall|i: int| 0 <= i < bytes.len() ==> #[trigger] bytes[i] < 128,
    ensures
        encode_utf8(bytes.map_values(|c: u8| c as char)) == bytes,
{
    let chars = bytes.map_values(|c: u8| c as char);
    assert(is_ascii_chars(chars));
    is_ascii_chars_encode_utf8(chars);
    assert(encode_utf8(chars) =~= bytes);
}

/// The alphabet character at position `v`.
pub fn alphabet_byte(v: u8) -> (r: u8)
    requires
        v <= PAD_INDEX,
    ensures
        r == alphabet(v as int),
{
    proof {
        lemma_base64_table();
    }
    BASE64_TABLE[v as usize]
}

/// The position of `c` in the alphabet table, if it is there.
pub fn alphabet_position(c: u8) -> (r: Option<u8>)
    ensures
        r is Some <==> in_alphabet(c),
        r is Some ==> r->Some_0 == alphabet_index(c) && alphabet(r->Some_0 as int) == c,
{
    proof {
        lemma_alphabet_bijective();
    }
    if 65 <= c && c <= 90 {
        Some(c - 65)
    } else if 97 <= c && c <= 122 {
        Some(c - 97 + 26)
    } else if 48 <= c && c <= 57 {
        Some(c - 48 + 52)
    } else if c == 43 {
        Some(62)
    } else if c == 47 {
        Some(63)
    } else if c == PAD_BYTE {
        Some(PAD_INDEX)
    } else {
        None
    }
}

/// The table positions of the encoding of `b`: four for each started group
/// of three bytes, the positions of absent bytes' characters set to padding.
pub fn encode_indices(b: &[u8]) -> (r: Vec<u8>)
    ensures
        r@.len() == encoded_len(b@.len() as int),
        forall|k: int| 0 <= k < r@.len() ==> r@[k] as int == #[trigger] encoded_index(b@, k),
{
    let n: usize = b.len();
    let groups: usize = n / 3 + if n % 3 == 0 { 0 } else { 1 };
    let mut out: Vec<u8> = Vec::new();
    let mut g: usize = 0;
    while g < groups
        invariant
            n == b@.len(),
            groups == (n + 2) / 3,
            g <= groups,
            out@.len() == 4 * g,
            forall|k: int| 0 <= k < out@.len() ==> out@[k] as int == #[trigger] encoded_index(b@, k),
        decreases groups - g,
    {
        let i: usize = 3 * g;
        let x: u8 = b[i];
        let y: u8 = if i + 1 < n { b[i + 1] } else { 0 };
        let z: u8 = if i + 2 < n { b[i + 2] } else { 0 };
        let s0: u8 = x / 4;
        let s1: u8 = (x % 4) * 16 + y / 16;
        let s2: u8 = if i + 1 < n { (y % 16) * 4 + z / 64 } else { PAD_INDEX };
        let s3: u8 = if i + 2 < n { z % 64 } else { PAD_INDEX };
        let ghost before = out@;
        out.push(s0);
        out.push(s1);
        out.push(s2);
        out.push(s3);
        assert forall|k: int| 0 <= k < out@.len() implies out@[k] as int == #[trigger] encoded_index(b@, k) by {
            if k >= before.len() {
                assert(k / 4 == g as int);
                assert(k % 4 == k - 4 * g);
            }
        }
        g = g + 1;
    }
    out
}

/// Writes `input` as standard padded Base64: each group of three bytes
/// becomes four characters, and a final group of one or two bytes ends in
/// two or one `=`.
pub fn base64_encode(input: &[u8]) -> (r: String)
    ensures
        r@ == base64_text(input@),
{
    let idx = encode_indices(input);
    let mut s = String::new();
    let mut k: usize = 0;
    while k < idx.len()
        invariant
            idx@.len() == encoded_len(input@.len() as int),
            forall|j: int| 0 <= j < idx@.len() ==> idx@[j] as int == #[trigger] encoded_index(input@, j),
            k <= idx@.len(),
            s@ =~= base64_text(input@).take(k as int),
        decreases idx@.len() - k,
    {
        proof {
            assert(0 <= encoded_index(input@, k as int) <= 64) by {
                assert(idx@[k as int] as int == encoded_index(input@, k as int));
            }
        }
        let c: u8 = alphabet_byte(idx[k]);
        push_char(&mut s, c as char);
        k = k + 1;
        assert(s@ =~= base64_text(input@).take(k as int));
    }
    assert(s@ =~= base64_text(input@));
    s
}

/// Error for an input whose length is not a multiple of four.
pub const LENGTH_ERROR: &'static str = "Input length is not a multiple of 4";

/// Error for an input holding a character that the table does not know, or
/// padding that is not at the end.
pub const INVALID_CHARACTER_ERROR: &'static str = "Input contains invalid Base64 characters";

/// Error for decoded bytes that are not UTF-8 text.
pub const TEXT_ENCODING_ERROR: &'static str = "tran utf8 error";

/// `t` without the `=` characters at its end.
pub open spec fn unpadded(t: Seq<u8>) -> Seq<u8>
    decreases t.len(),
{
    if t.len() > 0 && t.last() == PAD_BYTE {
        unpadded(t.drop_last())
    } else {
        t
    }
}

/// A Base64 data character: in the alphabet, and not the padding.
pub open spec fn is_data(c: u8) -> bool {
    in_alphabet(c) && c != PAD_BYTE
}

/// What stays once the padding is stripped can be decoded: data characters
/// only, and no final group of a single character.
pub open spec fn decodable(u: Seq<u8>) -> bool {
    &&& u.len() % 4 != 1
    &&& forall|i: int| 0 <= i < u.len() ==> is_data(#[trigger] u[i])
}

/// Number of bytes that `l` data characters carry: three per full group,
/// one less than the characters of a final partial group.
pub open spec fn decoded_len(l: int) -> int {
    3 * (l / 4) + if l % 4 == 0 {
        0
    } else {
        l % 4 - 1
    }
}

/// The six-bit value of character `i` of `u`, or zero past its end.
pub open spec fn value_or_zero(u: Seq<u8>, i: int) -> int {
    if 0 <= i < u.len() {
        alphabet_index(u[i])
    } else {
        0
    }
}

/// Byte `k` of the decoding of the data characters `u`.
pub open spec fn decoded_byte(u: Seq<u8>, k: int) -> u8 {
    let g = k / 3;
    let a = value_or_zero(u, 4 * g);
    let b = value_or_zero(u, 4 * g + 1);
    let c = value_or_zero(u, 4 * g + 2);
    let d = value_or_zero(u, 4 * g + 3);
    if k % 3 == 0 {
        (a * 4 + b / 16) as u8
    } else if k % 3 == 1 {
        ((b % 16) * 16 + c / 4) as u8
    } else {
        ((c % 4) * 64 + d) as u8
    }
}

/// The bytes that the data characters `u` carry.
pub open spec fn decoded_bytes(u: Seq<u8>) -> Seq<u8> {
    Seq::new(decoded_len(u.len() as int) as nat, |k: int| decoded_byte(u, k))
}

/// The bytes that Base64 text `t` stands for, or the error that it gives.
pub open spec fn base64_decoded(t: Seq<u8>) -> Result<Seq<u8>, &'static str> {
    if t.len() % 4 != 0 {
        Err(LENGTH_ERROR)
    } else if !decodable(unpadded(t)) {
        Err(INVALID_CHARACTER_ERROR)
    } else {
        Ok(decoded_bytes(unpadded(t)))
    }
}

/// Decoded bytes read as text, or the text-encoding error.
pub open spec fn as_text(o: Result<Seq<u8>, &'static str>) -> Result<Seq<char>, &'static str> {
    match o {
        Ok(bytes) => if valid_utf8(bytes) {
            Ok(decode_utf8(bytes))
        } else {
            Err(TEXT_ENCODING_ERROR)
        },
        Err(e) => Err(e),
    }
}

/// The view of a decoding result: the text's characters, or the error.
pub open spec fn result_view(r: Result<String, &'static str>) -> Result<Seq<char>, &'static str> {
    match r {
        Ok(s) => Ok(s@),
        Err(e) => Err(e),
    }
}

/// The end of `t` once the trailing `=` characters are stripped.
fn unpadded_end(t: &[u8]) -> (end: usize)
    ensures
        end <= t@.len(),
        unpadded(t@) == t@.take(end as int),
{
    let mut end: usize = t.len();
    assert(t@.take(end as int) =~= t@);
    while end > 0 && t[end - 1] == PAD_BYTE
        invariant
            end <= t@.len(),
            unpadded(t@) == unpadded(t@.take(end as int)),
        decreases end,
    {
        assert(t@.take(end as int).drop_last() =~= t@.take(end - 1));
        end = end - 1;
    }
    end
}

/// The six-bit values of the first `end` characters of `t`, if all of them
/// are data characters.
fn data_values(t: &[u8], end: usize) -> (r: Option<Vec<u8>>)
    requires
        end <= t@.len(),
    ensures
        r is Some <==> (forall|i: int| 0 <= i < end ==> is_data(#[trigger] t@[i])),
        r is Some ==> r->Some_0@.len() == end && forall|i: int|
            0 <= i < end ==> (#[trigger] r->Some_0@[i]) as int == alphabet_index(t@[i]) && r->Some_0@[i] < 64,
{
    let mut vals: Vec<u8> = Vec::new();
    let mut i: usize = 0;
    while i < end
        invariant
            end <= t@.len(),
            i <= end,
            vals@.len() == i,
            forall|j: int| 0 <= j < i ==> is_data(#[trigger] t@[j]),
            forall|j: int| 0 <= j < i ==> (#[trigger] vals@[j]) as int == alphabet_index(t@[j]) && vals@[j] < 64,
        decreases end - i,
    {
        match alphabet_position(t[i]) {
            Some(v) => {
                if v == PAD_INDEX {
                    return None;
                }
                vals.push(v);
            },
            None => {
                return None;
            },
        }
        i = i + 1;
    }
    Some(vals)
}

/// Reads standard padded Base64 back into text.
///
/// The input's length in bytes must be a multiple of four. Trailing `=` are
/// stripped; what remains must be data characters only, with no final group
/// of a single character: a `=` anywhere but at the end is an invalid
/// character. The bytes recovered must be UTF-8.
pub fn base64_decode(taiji: &str) -> (r: Result<String, &'static str>)
    ensures
        result_view(r) == as_text(base64_decoded(taiji.spec_bytes())),
{
    let t: &[u8] = taiji.as_bytes();
    if t.len() % 4 != 0 {
        return Err(LENGTH_ERROR);
    }
    let end = unpadded_end(t);
    let ghost u = t@.take(end as int);
    if end % 4 == 1 {
        return Err(INVALID_CHARACTER_ERROR);
    }
    let vals = match data_values(t, end) {
        Some(v) => v,
        None => {
            assert(!decodable(u)) by {
                let i = choose|i: int| 0 <= i < end && !is_data(#[trigger] t@[i]);
                assert(u[i] == t@[i]);
            }
            return Err(INVALID_CHARACTER_ERROR);
        },
    };
    assert(decodable(u)) by {
        assert forall|i: int| 0 <= i < u.len() implies is_data(#[trigger] u[i]) by {
            assert(u[i] == t@[i]);
        }
    }
    let mut bytes: Vec<u8> = Vec::new();
    let mut g: usize = 0;
    while end - 4 * g >= 4
        invariant
            end <= t@.len(),
            end == u.len(),
            u == t@.take(end as int),
            vals@.len() == end,
            forall|i: int| 0 <= i < end ==> (#[trigger] vals@[i]) as int == alphabet_index(t@[i]) && vals@[i] < 64,
            4 * g <= end,
            bytes@.len() == 3 * g,
            forall|k: int| 0 <= k < bytes@.len() ==> bytes@[k] == #[trigger] decoded_byte(u, k),
        decreases end - 4 * g,
    {
        let i: usize = 4 * g;
        let a: u8 = vals[i];
        let b: u8 = vals[i + 1];
        let c: u8 = vals[i + 2];
        let d: u8 = vals[i + 3];
        let ghost before = bytes@;
        bytes.push(a * 4 + b / 16);
        bytes.push((b % 16) * 16 + c / 4);
        bytes.push((c % 4) * 64 + d);
        assert forall|k: int| 0 <= k < bytes@.len() implies bytes@[k] == #[trigger] decoded_byte(u, k) by {
            if k >= before.len() {
                assert(k / 3 == g as int);
                assert(u[4 * g] == t@[4 * g]);
                assert(u[4 * g + 1] == t@[4 * g + 1]);
                assert(u[4 * g + 2] == t@[4 * g + 2]);
                assert(u[4 * g + 3] == t@[4 * g + 3]);
            }
        }
        g = g + 1;
    }
    let i: usize = 4 * g;
    let rest: usize = end - i;
    let ghost before = bytes@;
    if rest >= 2 {
        let a: u8 = vals[i];
        let b: u8 = vals[i + 1];
        let c: u8 = if rest >= 3 { vals[i + 2] } else { 0 };
        bytes.push(a * 4 + b / 16);
        if rest >= 3 {
            bytes.push((b % 16) * 16 + c / 4);
        }
        assert forall|k: int| 0 <= k < bytes@.len() implies bytes@[k] == #[trigger] decoded_byte(u, k) by {
            if k >= before.len() {
                assert(k / 3 == g as int);
                assert(u[4 * g] == t@[4 * g]);
                assert(u[4 * g + 1] == t@[4 * g + 1]);
                if rest >= 3 {
                    assert(u[4 * g + 2] == t@[4 * g + 2]);
                }
            }
        }
    }
    assert(bytes@ =~= decoded_bytes(u));
    match string_from_utf8(bytes) {
        Some(s) => Ok(s),
        None => Err(TEXT_ENCODING_ERROR),
    }
}

/// Stripping the padding of `t` leaves its first `m` characters when those
/// do not end in `=` and all after them are `=`.
proof fn lemma_unpadded_prefix(t: Seq<u8>, m: int)
    requires
        0 <= m <= t.len(),
        forall|i: int| m <= i < t.len() ==> t[i] == PAD_BYTE,
        m == 0 || t[m - 1] != PAD_BYTE,
    ensures
        unpadded(t) == t.take(m),
    decreases t.len() - m,
{
    if t.len() > m {
        assert(t.drop_last().take(m) =~= t.take(m));
        lemma_unpadded_prefix(t.drop_last(), m);
    } else {
        assert(t.take(m) =~= t);
    }
}

/// The four six-bit values of three bytes give the bytes back.
proof fn lemma_sextets_rejoin(x: int, y: int, z: int)
    requires
        0 <= x < 256,
        0 <= y < 256,
        0 <= z < 256,
    ensures
        (x / 4) * 4 + ((x % 4) * 16 + y / 16) / 16 == x,
        (((x % 4) * 16 + y / 16) % 16) * 16 + ((y % 16) * 4 + z / 64) / 4 == y,
        ((((y % 16) * 4 + z / 64) % 4) * 64 + z % 64) == z,
{
}

/// Number of characters of the encoding of `n` bytes that carry data.
pub open spec fn data_len(n: int) -> int {
    4 * (n / 3) + if n % 3 == 0 {
        0
    } else {
        n % 3 + 1
    }
}

/// In the encoding of `b`, the first `data_len` positions hold six-bit
/// values and the rest hold the padding position.
pub proof fn lemma_encoded_layout(b: Seq<u8>, k: int)
    requires
        0 <= k < encoded_len(b.len() as int),
    ensures
        k < data_len(b.len() as int) ==> 0 <= encoded_index(b, k) < 64,
        k >= data_len(b.len() as int) ==> encoded_index(b, k) == PAD_INDEX,
{
}

/// Decoding the Base64 of any bytes gives those bytes back.
pub proof fn lemma_base64_bytes_round_trip(b: Seq<u8>)
    ensures
        base64_decoded(base64_bytes(b)) == Ok::<Seq<u8>, &'static str>(b),
{
    let n = b.len() as int;
    let t = base64_bytes(b);
    let m = data_len(n);
    lemma_alphabet_bijective();
    assert forall|k: int| 0 <= k < t.len() implies (#[trigger] t[k] == PAD_BYTE) == (k >= m) by {
        lemma_encoded_layout(b, k);
    }
    lemma_unpadded_prefix(t, m);
    let u = t.take(m);
    assert forall|i: int| 0 <= i < u.len() implies is_data(#[trigger] u[i]) by {
        lemma_encoded_layout(b, i);
        assert(alphabet_index(alphabet(encoded_index(b, i))) == encoded_index(b, i));
    }
    assert(decodable(u));
    assert forall|g: int, j: int| 0 <= g && 3 * g < n && 0 <= j < 4 implies #[trigger] value_or_zero(u, 4 * g + j) == sextet(b, g, j) by {
        let k = 4 * g + j;
        assert(k / 4 == g && k % 4 == j);
        if k < m {
            lemma_encoded_layout(b, k);
        }
    }
    assert forall|k: int| 0 <= k < n implies #[trigger] decoded_byte(u, k) == b[k] by {
        let g = k / 3;
        assert(value_or_zero(u, 4 * g) == sextet(b, g, 0));
        assert(value_or_zero(u, 4 * g + 1) == sextet(b, g, 1));
        assert(value_or_zero(u, 4 * g + 2) == sextet(b, g, 2));
        assert(value_or_zero(u, 4 * g + 3) == sextet(b, g, 3));
        lemma_sextets_rejoin(byte_or_zero(b, 3 * g), byte_or_zero(b, 3 * g + 1), byte_or_zero(b, 3 * g + 2));
    }
    assert(decoded_bytes(u) =~= b);
}

} // verus!
