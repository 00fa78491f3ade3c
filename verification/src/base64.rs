//! Base64 encoding and decoding over the RFC 4648 alphabet.
//!
//! The specification-level model works on byte sequences: `encode_bytes`
//! gives the encoded text (as ASCII bytes) of any byte buffer, and
//! `decode_spec` gives, for any candidate text, either the decoded bytes or
//! the exact error the decoder reports.

use vstd::prelude::*;
use vstd::slice::slice_subrange;
use vstd::string::StringSliceAdditionalSpecFns;

verus! {

/// The trailing filler symbol `=`.
pub const PADDING: u8 = 61;

/// True of the 64 bytes of the RFC 4648 alphabet: `A`-`Z`, `a`-`z`, `0`-`9`,
/// `+`, `/`.
pub open spec fn is_symbol(b: u8) -> bool {
    (65 <= b <= 90) || (97 <= b <= 122) || (48 <= b <= 57) || b == 43 || b == 47
}

/// The alphabet: the symbol for a 6-bit index.
pub open spec fn symbol_of(v: u8) -> u8
    recommends
        v < 64,
{
    if v < 26 {
        (v + 65) as u8
    } else if v < 52 {
        (v + 71) as u8
    } else if v < 62 {
        (v - 4) as u8
    } else if v == 62 {
        43
    } else {
        47
    }
}

/// The inverse alphabet: the 6-bit index of a symbol.
pub open spec fn value_of(b: u8) -> u8
    recommends
        is_symbol(b),
{
    if 65 <= b <= 90 {
        (b - 65) as u8
    } else if 97 <= b <= 122 {
        (b - 71) as u8
    } else if 48 <= b <= 57 {
        (b + 4) as u8
    } else if b == 43 {
        62
    } else {
        63
    }
}

/// The inverse alphabet undoes the alphabet on every 6-bit index.
pub proof fn lemma_alphabet_inverse(v: u8)
    requires
        v < 64,
    ensures
        is_symbol(symbol_of(v)),
        value_of(symbol_of(v)) == v,
{
}

/// Every value of `symbol_of`, even on an out-of-range index, is a symbol.
pub proof fn lemma_symbol_of_is_symbol(v: u8)
    ensures
        is_symbol(symbol_of(v)),
{
}

/// The four symbols encoding one full group of three bytes.
pub open spec fn encode_group(a: u8, b: u8, c: u8) -> Seq<u8> {
    seq![
        symbol_of(a >> 2),
        symbol_of(((a << 4) | (b >> 4)) & 0x3f),
        symbol_of(((b << 2) | (c >> 6)) & 0x3f),
        symbol_of(c & 0x3f),
    ]
}

/// The encoded text (as ASCII bytes) of a byte buffer: full groups of three
/// bytes become four symbols; a trailing byte or pair of bytes becomes a
/// final group completed with padding.
pub open spec fn encode_bytes(b: Seq<u8>) -> Seq<u8>
    decreases b.len(),
{
    if b.len() == 0 {
        Seq::empty()
    } else if b.len() == 1 {
        seq![symbol_of(b[0] >> 2), symbol_of((b[0] << 4) & 0x3f), PADDING, PADDING]
    } else if b.len() == 2 {
        seq![
            symbol_of(b[0] >> 2),
            symbol_of(((b[0] << 4) | (b[1] >> 4)) & 0x3f),
            symbol_of((b[1] << 2) & 0x3f),
            PADDING,
        ]
    } else {
        encode_group(b[0], b[1], b[2]) + encode_bytes(b.skip(3))
    }
}

/// The error a failed decode reports.
#[derive(Debug, PartialEq, Eq, Clone, Copy, Structural)]
pub enum DecodeError {
    /// The text length is not a multiple of four.
    InvalidLength,
    /// The byte at the given position is neither a symbol nor padding in a
    /// place padding may stand.
    UnexpectedCharacter(usize),
    /// Padding in the third position of the final group without padding in
    /// the fourth.
    InvalidPadding,
}

/// True when position `i` of `t` may hold the byte it holds: a symbol
/// anywhere, or padding in one of the last two positions.
pub open spec fn symbol_ok_at(t: Seq<u8>, i: int) -> bool {
    is_symbol(t[i]) || (t[i] == PADDING && i >= t.len() - 2)
}

/// True of the texts the decoder accepts: length a multiple of four (the
/// empty text included), symbols everywhere except that the last one or two
/// positions may hold padding, and padding in the second-to-last position
/// forces padding in the last.
pub open spec fn valid_encoding(t: Seq<u8>) -> bool {
    &&& t.len() % 4 == 0
    &&& forall|i: int| 0 <= i < t.len() ==> symbol_ok_at(t, i)
    &&& (t.len() >= 2 && t[t.len() - 2] == PADDING ==> t[t.len() - 1] == PADDING)
}

/// The first error a left-to-right scan from position `i` reports, if any.
pub open spec fn scan_error(t: Seq<u8>, i: int) -> Option<DecodeError>
    decreases t.len() - i,
{
    if i >= t.len() {
        None
    } else if is_symbol(t[i]) {
        scan_error(t, i + 1)
    } else if t[i] != PADDING || i < t.len() - 2 {
        Some(DecodeError::UnexpectedCharacter(i as usize))
    } else if i == t.len() - 2 && t[t.len() - 1] != PADDING {
        Some(DecodeError::InvalidPadding)
    } else {
        scan_error(t, i + 1)
    }
}

/// The three bytes packed into one group of four 6-bit values.
pub open spec fn decode_group(v1: u8, v2: u8, v3: u8, v4: u8) -> Seq<u8> {
    seq![(v1 << 2) | (v2 >> 4), ((v2 & 0x0f) << 4) | (v3 >> 2), (v3 << 6) | v4]
}

/// The bytes of the final group of a valid text: padding cuts the group to
/// two bytes or one.
pub open spec fn last_group_bytes(g: Seq<u8>) -> Seq<u8>
    recommends
        g.len() == 4,
{
    let v1 = value_of(g[0]);
    let v2 = value_of(g[1]);
    let v3 = value_of(g[2]);
    let v4 = value_of(g[3]);
    if g[2] == PADDING {
        seq![(v1 << 2) | (v2 >> 4)]
    } else if g[3] == PADDING {
        seq![(v1 << 2) | (v2 >> 4), ((v2 & 0x0f) << 4) | (v3 >> 2)]
    } else {
        decode_group(v1, v2, v3, v4)
    }
}

/// The decoded bytes of a valid text.
pub open spec fn decode_bytes(t: Seq<u8>) -> Seq<u8>
    recommends
        valid_encoding(t),
    decreases t.len(),
{
    if t.len() < 4 {
        Seq::empty()
    } else if t.len() == 4 {
        last_group_bytes(t)
    } else {
        decode_group(value_of(t[0]), value_of(t[1]), value_of(t[2]), value_of(t[3]))
            + decode_bytes(t.skip(4))
    }
}

/// What the decoder returns on any input text: the decoded bytes, or the
/// exact error.
pub open spec fn decode_spec(t: Seq<u8>) -> Result<Seq<u8>, DecodeError> {
    if t.len() % 4 != 0 {
        Err(DecodeError::InvalidLength)
    } else {
        match scan_error(t, 0) {
            Some(e) => Err(e),
            None => Ok(decode_bytes(t)),
        }
    }
}

/// The symbol for a 6-bit index.
fn symbol(v: u8) -> (b: u8)
    requires
        v < 64,
    ensures
        b == symbol_of(v),
        is_symbol(b),
{
    if v < 26 {
        v + 65
    } else if v < 52 {
        v + 71
    } else if v < 62 {
        v - 4
    } else if v == 62 {
        43
    } else {
        47
    }
}

/// The 6-bit index of a symbol.
fn char_to_byte(b: u8) -> (v: u8)
    requires
        is_symbol(b),
    ensures
        v == value_of(b),
        v < 64,
{
    if 65 <= b && b <= 90 {
        b - 65
    } else if 97 <= b && b <= 122 {
        b - 71
    } else if 48 <= b && b <= 57 {
        b + 4
    } else if b == 43 {
        62
    } else {
        63
    }
}

/// Whether a byte is a symbol of the alphabet.
fn is_symbol_byte(b: u8) -> (r: bool)
    ensures
        r == is_symbol(b),
{
    (65 <= b && b <= 90) || (97 <= b && b <= 122) || (48 <= b && b <= 57) || b == 43 || b == 47
}

/// Appends the four symbols of one full group of three bytes.
fn encode_slice(slice: &[u8], output: &mut Vec<u8>)
    requires
        slice@.len() == 3,
    ensures
        final(output)@ == old(output)@ + encode_group(slice@[0], slice@[1], slice@[2]),
{
    let a = slice[0];
    let b = slice[1];
    let c = slice[2];
    let char1 = a >> 2;
    let char2 = ((a << 4) | (b >> 4)) & 0x3f;
    let char3 = ((b << 2) | (c >> 6)) & 0x3f;
    let char4 = c & 0x3f;
    proof {
        assert(a >> 2 < 64 && ((a << 4) | (b >> 4)) & 0x3f < 64 && ((b << 2) | (c >> 6)) & 0x3f
            < 64 && c & 0x3f < 64) by (bit_vector);
    }
    output.push(symbol(char1));
    output.push(symbol(char2));
    output.push(symbol(char3));
    output.push(symbol(char4));
    proof {
        assert(output@ =~= old(output)@ + encode_group(slice@[0], slice@[1], slice@[2]));
    }
}

/// The encoded text is four symbols for every started group of three bytes.
pub proof fn lemma_encode_length(b: Seq<u8>)
    ensures
        encode_bytes(b).len() == ((b.len() + 2) / 3) * 4,
    decreases b.len(),
{
    if b.len() >= 3 {
        lemma_encode_length(b.skip(3));
    }
}

/// Every encoded text is one the decoder accepts.
pub proof fn lemma_encode_valid(b: Seq<u8>)
    ensures
        valid_encoding(encode_bytes(b)),
    decreases b.len(),
{
    let e = encode_bytes(b);
    lemma_encode_length(b);
    if b.len() == 0 {
    } else if b.len() == 1 {
        lemma_symbol_of_is_symbol(b[0] >> 2);
        lemma_symbol_of_is_symbol((b[0] << 4) & 0x3f);
        assert(forall|i: int| 0 <= i < e.len() ==> symbol_ok_at(e, i));
    } else if b.len() == 2 {
        lemma_symbol_of_is_symbol(b[0] >> 2);
        lemma_symbol_of_is_symbol(((b[0] << 4) | (b[1] >> 4)) & 0x3f);
        lemma_symbol_of_is_symbol((b[1] << 2) & 0x3f);
        assert(forall|i: int| 0 <= i < e.len() ==> symbol_ok_at(e, i));
    } else {
        lemma_encode_valid(b.skip(3));
        let rest = encode_bytes(b.skip(3));
        lemma_symbol_of_is_symbol(b[0] >> 2);
        lemma_symbol_of_is_symbol(((b[0] << 4) | (b[1] >> 4)) & 0x3f);
        lemma_symbol_of_is_symbol(((b[1] << 2) | (b[2] >> 6)) & 0x3f);
        lemma_symbol_of_is_symbol(b[2] & 0x3f);
        assert forall|i: int| 0 <= i < e.len() implies symbol_ok_at(e, i) by {
            if i >= 4 {
                assert(e[i] == rest[i - 4]);
                assert(symbol_ok_at(rest, i - 4));
            }
        }
        if e.len() >= 2 && e[e.len() - 2] == PADDING {
            if rest.len() == 0 {
                assert(is_symbol(e[e.len() - 2]));
            } else {
                assert(e[e.len() - 2] == rest[rest.len() - 2]);
                assert(e[e.len() - 1] == rest[rest.len() - 1]);
            }
        }
    }
}

/// Encodes a byte buffer as Base64 text.
///
/// The result is always the text that `encode_bytes` gives, read as
/// characters; encoding never fails, and the output holds four symbols for
/// every started group of three input bytes.
pub fn base64_encode(buffer: &[u8]) -> (r: String)
    ensures
        r@ == encode_bytes(buffer@).map_values(|b: u8| b as char),
        r@.len() == ((buffer@.len() + 2) / 3) * 4,
{
    let in_len = buffer.len();
    let mut output: Vec<u8> = Vec::new();
    let slices = in_len / 3;
    let mut i: usize = 0;
    proof {
        assert(buffer@.skip(0) =~= buffer@);
        assert(output@ + encode_bytes(buffer@) =~= encode_bytes(buffer@));
    }
    while i < slices
        invariant
            slices == buffer@.len() / 3,
            buffer@.len() == in_len,
            0 <= i <= slices,
            output@ + encode_bytes(buffer@.skip(3 * i as int)) == encode_bytes(buffer@),
        decreases slices - i,
    {
        proof {
            assert(buffer@.skip(3 * i as int).skip(3) =~= buffer@.skip(3 * (i + 1) as int));
        }
        encode_slice(slice_subrange(buffer, i * 3, i * 3 + 3), &mut output);
        proof {
            assert(output@ + encode_bytes(buffer@.skip(3 * (i + 1) as int)) =~= encode_bytes(
                buffer@,
            ));
        }
        i = i + 1;
    }
    let remains = in_len % 3;
    let ghost tail = buffer@.skip(3 * slices as int);
    proof {
        assert(tail.len() == remains);
    }
    if remains == 1 {
        let a = buffer[slices * 3];
        proof {
            assert(a >> 2 < 64 && (a << 4) & 0x3f < 64) by (bit_vector);
        }
        output.push(symbol(a >> 2));
        output.push(symbol((a << 4) & 0x3f));
        output.push(PADDING);
        output.push(PADDING);
        proof {
            assert(encode_bytes(tail) =~= seq![
                symbol_of(tail[0] >> 2),
                symbol_of((tail[0] << 4) & 0x3f),
                PADDING,
                PADDING,
            ]);
            assert(output@ =~= encode_bytes(buffer@));
        }
    } else if remains == 2 {
        let a = buffer[slices * 3];
        let b = buffer[slices * 3 + 1];
        proof {
            assert(a >> 2 < 64 && ((a << 4) | (b >> 4)) & 0x3f < 64 && (b << 2) & 0x3f < 64)
                by (bit_vector);
        }
        output.push(symbol(a >> 2));
        output.push(symbol(((a << 4) | (b >> 4)) & 0x3f));
        output.push(symbol((b << 2) & 0x3f));
        output.push(PADDING);
        proof {
            assert(output@ =~= encode_bytes(buffer@));
        }
    } else {
        proof {
            assert(output@ =~= encode_bytes(buffer@));
        }
    }
    proof {
        lemma_encode_valid(buffer@);
        lemma_encode_length(buffer@);
        assert forall|j: int| 0 <= j < output@.len() implies output@[j] < 128 by {
            assert(symbol_ok_at(encode_bytes(buffer@), j));
        }
    }
    crate::ascii::ascii_string(output)
}

/// Appends the three bytes of one full group of four symbols.
fn decode_slice(bytes: &[u8], output: &mut Vec<u8>)
    requires
        bytes@.len() == 4,
        forall|j: int| 0 <= j < 4 ==> is_symbol(bytes@[j]),
    ensures
        final(output)@ == old(output)@ + decode_group(
            value_of(bytes@[0]),
            value_of(bytes@[1]),
            value_of(bytes@[2]),
            value_of(bytes@[3]),
        ),
{
    let c1 = char_to_byte(bytes[0]);
    let c2 = char_to_byte(bytes[1]);
    let c3 = char_to_byte(bytes[2]);
    let c4 = char_to_byte(bytes[3]);
    output.push((c1 << 2) | (c2 >> 4));
    output.push(((c2 & 0x0f) << 4) | (c3 >> 2));
    output.push((c3 << 6) | c4);
    proof {
        assert(output@ =~= old(output)@ + decode_group(
            value_of(bytes@[0]),
            value_of(bytes@[1]),
            value_of(bytes@[2]),
            value_of(bytes@[3]),
        ));
    }
}

/// How many padding bytes end the text: zero, one, or two.
pub open spec fn padding_count(t: Seq<u8>) -> int {
    if t.len() == 0 {
        0
    } else if t[t.len() - 1] != PADDING {
        0
    } else if t.len() >= 2 && t[t.len() - 2] == PADDING {
        2
    } else {
        1
    }
}

/// Dropping the first group of a valid text leaves a valid text.
proof fn lemma_valid_skip(t: Seq<u8>)
    requires
        valid_encoding(t),
        t.len() > 4,
    ensures
        valid_encoding(t.skip(4)),
{
    let r = t.skip(4);
    assert forall|i: int| 0 <= i < r.len() implies symbol_ok_at(r, i) by {
        assert(symbol_ok_at(t, i + 4));
    }
    if r.len() >= 2 && r[r.len() - 2] == PADDING {
        assert(t[t.len() - 2] == PADDING);
    }
}

/// Length law for decoding: three bytes per group, less the padding of the
/// final group.
pub proof fn lemma_decode_length(t: Seq<u8>)
    requires
        valid_encoding(t),
    ensures
        decode_bytes(t).len() == 3 * (t.len() / 4) - padding_count(t),
    decreases t.len(),
{
    if t.len() == 0 {
    } else if t.len() == 4 {
        if t[2] == PADDING {
            assert(t[t.len() - 2] == PADDING);
        }
    } else {
        let rest = t.skip(4);
        lemma_valid_skip(t);
        lemma_decode_length(rest);
        assert(rest[rest.len() - 1] == t[t.len() - 1]);
        assert(rest.len() >= 2 && rest[rest.len() - 2] == t[t.len() - 2]);
    }
}

/// A scan of a valid text reports no error.
proof fn lemma_scan_none(t: Seq<u8>, i: int)
    requires
        valid_encoding(t),
        0 <= i <= t.len(),
    ensures
        scan_error(t, i) is None,
    decreases t.len() - i,
{
    if i < t.len() {
        assert(symbol_ok_at(t, i));
        lemma_scan_none(t, i + 1);
    }
}

/// Decoding undoes encoding on the underlying byte sequences.
proof fn lemma_decode_encode(b: Seq<u8>)
    ensures
        decode_bytes(encode_bytes(b)) == b,
    decreases b.len(),
{
    let e = encode_bytes(b);
    if b.len() == 0 {
        assert(decode_bytes(e) =~= b);
    } else if b.len() == 1 {
        let a = b[0];
        assert(a >> 2 < 64 && (a << 4) & 0x3f < 64) by (bit_vector);
        lemma_alphabet_inverse(a >> 2);
        lemma_alphabet_inverse((a << 4) & 0x3f);
        assert(((a >> 2) << 2) | ((((a << 4) & 0x3f)) >> 4) == a) by (bit_vector);
        assert(decode_bytes(e) =~= b);
    } else if b.len() == 2 {
        let a = b[0];
        let b1 = b[1];
        assert(a >> 2 < 64 && ((a << 4) | (b1 >> 4)) & 0x3f < 64 && (b1 << 2) & 0x3f < 64)
            by (bit_vector);
        lemma_alphabet_inverse(a >> 2);
        lemma_alphabet_inverse(((a << 4) | (b1 >> 4)) & 0x3f);
        lemma_alphabet_inverse((b1 << 2) & 0x3f);
        assert(!is_symbol(PADDING));
        assert(((a >> 2) << 2) | ((((a << 4) | (b1 >> 4)) & 0x3f) >> 4) == a) by (bit_vector);
        assert(((((a << 4) | (b1 >> 4)) & 0x3f) & 0x0f) << 4 | (((b1 << 2) & 0x3f) >> 2) == b1)
            by (bit_vector);
        assert(decode_bytes(e) =~= b);
    } else {
        let a = b[0];
        let b1 = b[1];
        let c = b[2];
        assert(a >> 2 < 64 && ((a << 4) | (b1 >> 4)) & 0x3f < 64 && ((b1 << 2) | (c >> 6)) & 0x3f
            < 64 && c & 0x3f < 64) by (bit_vector);
        lemma_alphabet_inverse(a >> 2);
        lemma_alphabet_inverse(((a << 4) | (b1 >> 4)) & 0x3f);
        lemma_alphabet_inverse(((b1 << 2) | (c >> 6)) & 0x3f);
        lemma_alphabet_inverse(c & 0x3f);
        assert(!is_symbol(PADDING));
        assert(((a >> 2) << 2) | ((((a << 4) | (b1 >> 4)) & 0x3f) >> 4) == a) by (bit_vector);
        assert(((((a << 4) | (b1 >> 4)) & 0x3f) & 0x0f) << 4 | ((((b1 << 2) | (c >> 6)) & 0x3f)
            >> 2) == b1) by (bit_vector);
        assert(((((b1 << 2) | (c >> 6)) & 0x3f) << 6) | (c & 0x3f) == c) by (bit_vector);
        lemma_decode_encode(b.skip(3));
        if b.len() == 3 {
            assert(b.skip(3).len() == 0);
            assert(decode_bytes(e) =~= b);
        } else {
            lemma_encode_length(b.skip(3));
            let rest = encode_bytes(b.skip(3));
            assert(rest.len() >= 4);
            assert(e.skip(4) =~= rest);
            assert(decode_bytes(e) =~= seq![a, b1, c] + decode_bytes(rest));
            assert(seq![a, b1, c] + b.skip(3) =~= b);
        }
    }
}

/// Round trip: every encoded text is accepted by the decoder, and decoding
/// it gives back exactly the bytes that were encoded.
pub proof fn lemma_round_trip(b: Seq<u8>)
    ensures
        valid_encoding(encode_bytes(b)),
        decode_spec(encode_bytes(b)) == Ok::<Seq<u8>, DecodeError>(b),
{
    lemma_encode_valid(b);
    lemma_scan_none(encode_bytes(b), 0);
    lemma_decode_encode(b);
}

/// Decodes Base64 text back into bytes.
///
/// The input is read as its UTF-8 bytes. The call succeeds exactly on the
/// texts `valid_encoding` accepts and then returns the bytes `decode_bytes`
/// gives; on any other input it returns the error `decode_spec` names.
pub fn base64_decode(s: &str) -> (r: Result<Vec<u8>, DecodeError>)
    ensures
        r is Ok <==> valid_encoding(s.spec_bytes()),
        r matches Ok(v) ==> Ok::<Seq<u8>, DecodeError>(v@) == decode_spec(s.spec_bytes()),
        r matches Err(e) ==> Err::<Seq<u8>, DecodeError>(e) == decode_spec(s.spec_bytes()),
{
    let bytes = s.as_bytes();
    let n = bytes.len();
    let ghost t = s.spec_bytes();
    if n % 4 != 0 {
        return Err(DecodeError::InvalidLength);
    }
    let mut i: usize = 0;
    while i < n
        invariant
            t == s.spec_bytes(),
            bytes@ == t,
            n == t.len(),
            n % 4 == 0,
            0 <= i <= n,
            scan_error(t, 0) == scan_error(t, i as int),
            forall|j: int| 0 <= j < i ==> symbol_ok_at(t, j),
            (i >= n - 1 && n >= 2 && t[n - 2] == PADDING) ==> t[n - 1] == PADDING,
        decreases n - i,
    {
        let b = bytes[i];
        if is_symbol_byte(b) {
        } else if b != PADDING || i < n - 2 {
            proof {
                assert(!symbol_ok_at(t, i as int));
                assert(scan_error(t, i as int) == Some(DecodeError::UnexpectedCharacter(i)));
            }
            return Err(DecodeError::UnexpectedCharacter(i));
        } else if i == n - 2 && bytes[n - 1] != PADDING {
            proof {
                assert(scan_error(t, i as int) == Some(DecodeError::InvalidPadding));
            }
            return Err(DecodeError::InvalidPadding);
        }
        i = i + 1;
    }
    proof {
        assert(valid_encoding(t));
    }
    let mut output: Vec<u8> = Vec::new();
    if n == 0 {
        proof {
            assert(output@ =~= decode_bytes(t));
        }
        return Ok(output);
    }
    let k = n / 4;
    let mut g: usize = 0;
    proof {
        assert(t.skip(0) =~= t);
        assert(output@ + decode_bytes(t) =~= decode_bytes(t));
    }
    while g < k - 1
        invariant
            t == s.spec_bytes(),
            bytes@ == t,
            n == t.len(),
            n % 4 == 0,
            n >= 4,
            k == n / 4,
            valid_encoding(t),
            0 <= g <= k - 1,
            output@ + decode_bytes(t.skip(4 * g as int)) == decode_bytes(t),
        decreases k - 1 - g,
    {
        proof {
            assert(symbol_ok_at(t, 4 * g as int));
            assert(symbol_ok_at(t, 4 * g as int + 1));
            assert(symbol_ok_at(t, 4 * g as int + 2));
            assert(symbol_ok_at(t, 4 * g as int + 3));
        }
        decode_slice(slice_subrange(bytes, 4 * g, 4 * g + 4), &mut output);
        proof {
            assert(t.skip(4 * g as int).skip(4) =~= t.skip(4 * (g + 1) as int));
            assert(output@ + decode_bytes(t.skip(4 * (g + 1) as int)) =~= decode_bytes(t));
        }
        g = g + 1;
    }
    proof {
        assert(symbol_ok_at(t, n - 4));
        assert(symbol_ok_at(t, n - 3));
    }
    let c1 = char_to_byte(bytes[n - 4]);
    let c2 = char_to_byte(bytes[n - 3]);
    output.push((c1 << 2) | (c2 >> 4));
    if bytes[n - 2] != PADDING {
        proof {
            assert(symbol_ok_at(t, n - 2));
        }
        let c3 = char_to_byte(bytes[n - 2]);
        output.push(((c2 & 0x0f) << 4) | (c3 >> 2));
        if bytes[n - 1] != PADDING {
            proof {
                assert(symbol_ok_at(t, n - 1));
            }
            let c4 = char_to_byte(bytes[n - 1]);
            output.push((c3 << 6) | c4);
        }
    }
    proof {
        let lg = t.skip(4 * (k - 1) as int);
        assert(lg.len() == 4);
        assert(lg[0] == t[n - 4] && lg[1] == t[n - 3] && lg[2] == t[n - 2] && lg[3] == t[n - 1]);
        assert(output@ =~= decode_bytes(t));
    }
    Ok(output)
}

/// Round trip through the executable types: the string `base64_encode`
/// returns for `b` reads back, as UTF-8 bytes, as exactly the encoded text,
/// so `base64_decode` accepts it and returns `b` again.
pub proof fn lemma_text_round_trip(b: Seq<u8>, s: &str)
    requires
        s@ == encode_bytes(b).map_values(|x: u8| x as char),
    ensures
        s.spec_bytes() == encode_bytes(b),
        decode_spec(s.spec_bytes()) == Ok::<Seq<u8>, DecodeError>(b),
{
    let e = encode_bytes(b);
    lemma_encode_valid(b);
    assert forall|i: int| 0 <= i < s@.len() implies '\0' <= #[trigger] s@[i] <= '\u{7f}' by {
        assert(symbol_ok_at(e, i));
    }
    assert(vstd::utf8::is_ascii_chars(s@));
    vstd::utf8::is_ascii_chars_encode_utf8(s@);
    assert forall|i: int| 0 <= i < e.len() implies s.spec_bytes()[i] == e[i] by {
        assert(symbol_ok_at(e, i));
    }
    assert(s.spec_bytes() =~= e);
    lemma_round_trip(b);
}

} // verus!
