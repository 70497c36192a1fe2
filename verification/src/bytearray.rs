//! Immutable fixed-length byte buffers with XOR combination and hex / UTF-8
//! encoding, the building block of the secret-sharing scheme.

use vstd::prelude::*;
use vstd::slice::slice_to_vec;
use vstd::utf8::{
    valid_utf8, decode_utf8, encode_utf8, is_ascii_chars, is_ascii_chars_encode_utf8,
    encode_utf8_valid_utf8, encode_utf8_decode_utf8,
};

verus! {

/// The bytes are not a valid UTF-8 encoding.
#[derive(Debug, Clone, Copy, PartialEq, Eq, Structural)]
pub struct DecodeError;

/// The string is not well-formed hex: odd length, or a non-hex character.
#[derive(Debug, Clone, Copy, PartialEq, Eq, Structural)]
pub struct HexError;

/// An immutable, fixed-length sequence of bytes. Every operation returns a
/// fresh buffer; nothing is mutated in place.
#[derive(Debug)]
pub struct ByteArray {
    data: Vec<u8>,
}

impl View for ByteArray {
    type V = Seq<u8>;

    closed spec fn view(&self) -> Seq<u8> {
        self.data@
    }
}

/// The all-zero byte sequence of length `n`.
pub open spec fn zero_bytes(n: nat) -> Seq<u8> {
    Seq::new(n, |i: int| 0u8)
}

/// Byte-wise exclusive or of two sequences of equal length.
pub open spec fn xor_bytes(a: Seq<u8>, b: Seq<u8>) -> Seq<u8> {
    Seq::new(a.len(), |i: int| a[i] ^ b[i])
}

/// The characters a byte sequence reads as, one character per byte.
/// Meaningful for ASCII bytes, where it inverts the UTF-8 encoding.
pub open spec fn chars_of_bytes(b: Seq<u8>) -> Seq<char> {
    b.map(|i: int, x: u8| x as char)
}

/// `c` is a hexadecimal digit, either case.
pub open spec fn is_hex_digit(c: char) -> bool {
    (48 <= c as u32 && c as u32 <= 57) || (97 <= c as u32 && c as u32 <= 102) || (65 <= c as u32
        && c as u32 <= 70)
}

/// `c` is a lowercase hexadecimal digit.
pub open spec fn is_lower_hex_digit(c: char) -> bool {
    (48 <= c as u32 && c as u32 <= 57) || (97 <= c as u32 && c as u32 <= 102)
}

/// The value of the hexadecimal digit `c`. Meaningful when `is_hex_digit(c)`.
pub open spec fn hex_val(c: char) -> u8 {
    if 48 <= c as u32 && c as u32 <= 57 {
        (c as u32 - 48) as u8
    } else if 97 <= c as u32 && c as u32 <= 102 {
        (c as u32 - 87) as u8
    } else {
        (c as u32 - 55) as u8
    }
}

/// The lowercase hexadecimal digit for the value `v`. Meaningful for `v < 16`.
pub open spec fn hex_digit_char(v: u8) -> char {
    if v < 10 {
        ((v + 48) as u8) as char
    } else {
        ((v + 87) as u8) as char
    }
}

/// `s` is a well-formed hex string: even length, hex digits throughout.
pub open spec fn is_hex_str(s: Seq<char>) -> bool {
    s.len() % 2 == 0 && (forall|i: int| 0 <= i < s.len() ==> is_hex_digit(#[trigger] s[i]))
}

/// The bytes a hex string decodes to, two digits per byte, high nibble first.
/// Meaningful when `is_hex_str(s)`.
pub open spec fn bytes_of_hex(s: Seq<char>) -> Seq<u8> {
    Seq::new((s.len() / 2) as nat, |i: int| (16 * hex_val(s[2 * i]) + hex_val(s[2 * i + 1])) as u8)
}

/// The lowercase hex encoding of a byte sequence, two digits per byte.
pub open spec fn hex_of(b: Seq<u8>) -> Seq<char> {
    Seq::new(
        b.len() * 2,
        |i: int|
            if i % 2 == 0 {
                hex_digit_char(b[i / 2] / 16)
            } else {
                hex_digit_char(b[i / 2] % 16)
            },
    )
}

/// Relies on `String::from_utf8`: it returns the decoded string exactly when
/// the bytes are a valid UTF-8 encoding, and fails otherwise.
#[verifier::external_body]
fn utf8_to_string(bytes: &Vec<u8>) -> (r: Option<String>)
    ensures
        r is Some <==> valid_utf8(bytes@),
        r matches Some(s) ==> s@ == decode_utf8(bytes@),
{
    String::from_utf8(bytes.clone()).ok()
}

/// Relies on `rand::random_iter` over the thread-local generator, a
/// cryptographically secure reseeding ChaCha core: it yields `size`
/// independent bytes. Nothing beyond the length can be promised of a random
/// result. Failure to seed the generator is fatal in the source and treated
/// as unreachable.
#[verifier::external_body]
fn random_fill(size: usize) -> (r: Vec<u8>)
    ensures
        r@.len() == size,
{
    rand::random_iter::<u8>().take(size).collect()
}

/// The value of a lowercase or uppercase hex digit, or nothing.
fn hex_digit_value(c: char) -> (r: Option<u8>)
    ensures
        r is Some <==> is_hex_digit(c),
        r matches Some(v) ==> v == hex_val(c) && v < 16,
{
    let u = c as u32;
    if 48 <= u && u <= 57 {
        Some((u - 48) as u8)
    } else if 97 <= u && u <= 102 {
        Some((u - 87) as u8)
    } else if 65 <= u && u <= 70 {
        Some((u - 55) as u8)
    } else {
        None
    }
}

impl ByteArray {
    /// A buffer of `size` zero bytes, the identity element for `xor`.
    pub fn zero(size: usize) -> (r: Self)
        ensures
            r@ == zero_bytes(size as nat),
    {
        let mut data: Vec<u8> = Vec::new();
        let mut i: usize = 0;
        while i < size
            invariant
                i <= size,
                data@.len() == i,
                forall|j: int| 0 <= j < i ==> data@[j] == 0u8,
            decreases size - i,
        {
            data.push(0u8);
            i = i + 1;
        }
        proof {
            assert(data@ =~= zero_bytes(size as nat));
        }
        ByteArray { data }
    }

    /// The byte-wise exclusive or of two buffers of equal length.
    pub fn xor(&self, other: &Self) -> (r: Self)
        requires
            self@.len() == other@.len(),
        ensures
            r@ == xor_bytes(self@, other@),
    {
        let n = self.data.len();
        let mut data: Vec<u8> = Vec::new();
        let mut i: usize = 0;
        while i < n
            invariant
                i <= n,
                n == self@.len(),
                self@.len() == other@.len(),
                data@.len() == i,
                forall|j: int| 0 <= j < i ==> data@[j] == (self@[j] ^ other@[j]),
            decreases n - i,
        {
            data.push(self.data[i] ^ other.data[i]);
            i = i + 1;
        }
        proof {
            assert(data@ =~= xor_bytes(self@, other@));
        }
        ByteArray { data }
    }

    /// A buffer of `size` bytes drawn from a cryptographically secure random
    /// source, independent across calls. Only its length is known.
    pub fn random(size: usize) -> (r: Self)
        ensures
            r@.len() == size,
    {
        ByteArray { data: random_fill(size) }
    }

    /// The UTF-8 encoding of a string.
    pub fn from_string(input: &str) -> (r: Self)
        ensures
            r@ == encode_utf8(input@),
    {
        let data = slice_to_vec(input.as_bytes());
        ByteArray { data }
    }

    /// Decodes the buffer as UTF-8 text; fails exactly when the bytes are
    /// not a valid UTF-8 encoding.
    pub fn to_string(&self) -> (r: Result<String, DecodeError>)
        ensures
            r is Ok <==> valid_utf8(self@),
            r matches Ok(s) ==> s@ == decode_utf8(self@),
    {
        match utf8_to_string(&self.data) {
            Some(s) => Ok(s),
            None => Err(DecodeError),
        }
    }

    /// Decodes a hex string, two digits per byte; fails exactly when the
    /// string is not well-formed hex.
    pub fn from_hex(input: &str) -> (r: Result<Self, HexError>)
        ensures
            r is Ok <==> is_hex_str(input@),
            r matches Ok(b) ==> b@ == bytes_of_hex(input@),
    {
        let n = input.unicode_len();
        if n % 2 == 1 {
            return Err(HexError);
        }
        let mut data: Vec<u8> = Vec::new();
        let mut i: usize = 0;
        while i < n
            invariant
                i <= n,
                i % 2 == 0,
                n % 2 == 0,
                n == input@.len(),
                data@.len() == i / 2,
                forall|j: int| 0 <= j < i ==> is_hex_digit(#[trigger] input@[j]),
                forall|j: int|
                    0 <= j < i / 2 ==> data@[j] == (16 * hex_val(input@[2 * j]) + hex_val(
                        input@[2 * j + 1],
                    )) as u8,
            decreases n - i,
        {
            let hi = match hex_digit_value(input.get_char(i)) {
                Some(v) => v,
                None => {
                    return Err(HexError);
                },
            };
            let lo = match hex_digit_value(input.get_char(i + 1)) {
                Some(v) => v,
                None => {
                    return Err(HexError);
                },
            };
            data.push(16 * hi + lo);
            i = i + 2;
        }
        proof {
            assert(data@ =~= bytes_of_hex(input@));
        }
        Ok(ByteArray { data })
    }

    /// Encodes the buffer as lowercase hex, two digits per byte.
    pub fn to_hex(&self) -> (r: String)
        ensures
            r@ == hex_of(self@),
    {
        let n = self.data.len();
        let mut ascii: Vec<u8> = Vec::new();
        let mut i: usize = 0;
        while i < n
            invariant
                i <= n,
                n == self@.len(),
                ascii@.len() == 2 * i,
                forall|j: int|
                    0 <= j < 2 * i ==> ascii@[j] == hex_of(self@)[j] && ascii@[j] < 128,
            decreases n - i,
        {
            let b = self.data[i];
            ascii.push(hex_ascii_digit(b / 16));
            ascii.push(hex_ascii_digit(b % 16));
            i = i + 1;
            proof {
                assert(hex_of(self@)[2 * (i - 1)] == hex_digit_char(self@[i - 1] / 16));
                assert(hex_of(self@)[2 * (i - 1) + 1] == hex_digit_char(self@[i - 1] % 16));
            }
        }
        proof {
            lemma_ascii_bytes_decode(ascii@);
            assert(decode_utf8(ascii@) =~= hex_of(self@));
        }
        match utf8_to_string(&ascii) {
            Some(s) => s,
            None => {
                proof {
                    assert(false);
                }
                String::new()
            },
        }
    }

    /// The number of bytes held.
    pub fn len(&self) -> (n: usize)
        ensures
            n == self@.len(),
    {
        self.data.len()
    }
}

/// The ASCII code of the lowercase hex digit for `v`.
fn hex_ascii_digit(v: u8) -> (r: u8)
    requires
        v < 16,
    ensures
        r as char == hex_digit_char(v),
        r < 128,
{
    if v < 10 {
        v + 48
    } else {
        v + 87
    }
}

/// ASCII bytes are valid UTF-8 and decode one character per byte.
pub proof fn lemma_ascii_bytes_decode(bytes: Seq<u8>)
    requires
        forall|i: int| 0 <= i < bytes.len() ==> bytes[i] < 128,
    ensures
        valid_utf8(bytes),
        decode_utf8(bytes) == chars_of_bytes(bytes),
{
    let chars = chars_of_bytes(bytes);
    assert(is_ascii_chars(chars));
    is_ascii_chars_encode_utf8(chars);
    assert(encode_utf8(chars) =~= bytes);
    encode_utf8_valid_utf8(chars);
    encode_utf8_decode_utf8(chars);
}

/// A hex digit encodes its own value, in lowercase.
proof fn lemma_hex_digit_char(v: u8)
    requires
        v < 16,
    ensures
        is_hex_digit(hex_digit_char(v)),
        is_lower_hex_digit(hex_digit_char(v)),
        hex_val(hex_digit_char(v)) == v,
{
}

/// Law: hex encoding round-trips: decoding the encoding of any buffer gives
/// the buffer back, and the encoding is well-formed lowercase hex of twice
/// the buffer's length.
pub proof fn lemma_hex_round_trip(b: Seq<u8>)
    ensures
        hex_of(b).len() == 2 * b.len(),
        is_hex_str(hex_of(b)),
        forall|i: int| 0 <= i < 2 * b.len() ==> is_lower_hex_digit(#[trigger] hex_of(b)[i]),
        bytes_of_hex(hex_of(b)) == b,
{
    let h = hex_of(b);
    assert forall|i: int| 0 <= i < h.len() implies is_hex_digit(#[trigger] h[i])
        && is_lower_hex_digit(h[i]) by {
        if i % 2 == 0 {
            lemma_hex_digit_char(b[i / 2] / 16);
        } else {
            lemma_hex_digit_char(b[i / 2] % 16);
        }
    }
    assert forall|i: int| 0 <= i < b.len() implies bytes_of_hex(h)[i] == b[i] by {
        lemma_hex_digit_char(b[i] / 16);
        lemma_hex_digit_char(b[i] % 16);
        assert(h[2 * i] == hex_digit_char(b[i] / 16));
        assert(h[2 * i + 1] == hex_digit_char(b[i] % 16));
        let x = b[i];
        assert(16 * (x / 16) + x % 16 == x) by (bit_vector);
    }
    assert(bytes_of_hex(h) =~= b);
}

/// Law: `xor` is commutative.
pub proof fn lemma_xor_commutative(a: Seq<u8>, b: Seq<u8>)
    requires
        a.len() == b.len(),
    ensures
        xor_bytes(a, b) == xor_bytes(b, a),
{
    assert forall|i: int| 0 <= i < a.len() implies xor_bytes(a, b)[i] == xor_bytes(b, a)[i] by {
        let x = a[i];
        let y = b[i];
        assert(x ^ y == y ^ x) by (bit_vector);
    }
    assert(xor_bytes(a, b) =~= xor_bytes(b, a));
}

/// Law: `xor` is associative.
pub proof fn lemma_xor_associative(a: Seq<u8>, b: Seq<u8>, c: Seq<u8>)
    requires
        a.len() == b.len(),
        b.len() == c.len(),
    ensures
        xor_bytes(xor_bytes(a, b), c) == xor_bytes(a, xor_bytes(b, c)),
{
    assert forall|i: int| 0 <= i < a.len() implies xor_bytes(xor_bytes(a, b), c)[i] == xor_bytes(
        a,
        xor_bytes(b, c),
    )[i] by {
        let x = a[i];
        let y = b[i];
        let z = c[i];
        assert((x ^ y) ^ z == x ^ (y ^ z)) by (bit_vector);
    }
    assert(xor_bytes(xor_bytes(a, b), c) =~= xor_bytes(a, xor_bytes(b, c)));
}

/// Law: a buffer XORed with itself is all zero.
pub proof fn lemma_xor_self(a: Seq<u8>)
    ensures
        xor_bytes(a, a) == zero_bytes(a.len()),
{
    assert forall|i: int| 0 <= i < a.len() implies xor_bytes(a, a)[i] == 0u8 by {
        let x = a[i];
        assert(x ^ x == 0) by (bit_vector);
    }
    assert(xor_bytes(a, a) =~= zero_bytes(a.len()));
}

/// Law: the zero buffer is the identity of `xor`.
pub proof fn lemma_xor_zero(a: Seq<u8>)
    ensures
        xor_bytes(zero_bytes(a.len()), a) == a,
        xor_bytes(a, zero_bytes(a.len())) == a,
{
    assert forall|i: int| 0 <= i < a.len() implies xor_bytes(zero_bytes(a.len()), a)[i] == a[i]
        && xor_bytes(a, zero_bytes(a.len()))[i] == a[i] by {
        let x = a[i];
        assert(0 ^ x == x && x ^ 0 == x) by (bit_vector);
    }
    assert(xor_bytes(zero_bytes(a.len()), a) =~= a);
    assert(xor_bytes(a, zero_bytes(a.len())) =~= a);
}

/// Law: `xor` is its own inverse: `a ^ (a ^ b) == b`.
pub proof fn lemma_xor_self_inverse(a: Seq<u8>, b: Seq<u8>)
    requires
        a.len() == b.len(),
    ensures
        xor_bytes(a, xor_bytes(a, b)) == b,
{
    assert forall|i: int| 0 <= i < a.len() implies xor_bytes(a, xor_bytes(a, b))[i] == b[i] by {
        let x = a[i];
        let y = b[i];
        assert(x ^ (x ^ y) == y) by (bit_vector);
    }
    assert(xor_bytes(a, xor_bytes(a, b)) =~= b);
}

} // verus!
