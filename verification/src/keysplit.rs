//! Splitting a textual secret into N hex-encoded shares and merging them
//! back, with the validation rules that make the scheme safe to expose:
//! printable-character restriction, hex well-formedness, length matching.

use vstd::prelude::*;
use vstd::utf8::{
    encode_utf8, encode_scalar, is_ascii_chars, is_ascii_chars_encode_utf8,
    decode_utf8_encode_utf8, char_is_scalar, has_width_1_encoding, has_width_2_encoding,
    has_width_3_encoding,
};
use crate::bytearray::{
    ByteArray, zero_bytes, xor_bytes, is_hex_str, bytes_of_hex, hex_of, chars_of_bytes,
    lemma_hex_round_trip, lemma_ascii_bytes_decode,
};

verus! {

/// Why a split or merge failed; an index names the offending share.
#[derive(Debug, Clone, Copy, PartialEq, Eq, Structural)]
pub enum Error {
    /// A share's decoded length differs from the first share's.
    NonMatchingLengths(usize),
    /// A share is not well-formed even-length hex.
    InvalidHex(usize),
    /// The merged bytes are not printable-ASCII text.
    InvalidMergedKey,
    /// The secret contains a character outside the printable ASCII range.
    InvalidInputKey,
}

/// `b` lies in the printable ASCII range, space through tilde.
pub open spec fn printable_byte(b: u8) -> bool {
    32 <= b <= 126
}

/// Every byte of `s` is printable ASCII.
pub open spec fn all_printable(s: Seq<u8>) -> bool {
    forall|i: int| 0 <= i < s.len() ==> printable_byte(#[trigger] s[i])
}

/// Every character of `s` is printable ASCII, space through tilde.
pub open spec fn printable_text(s: Seq<char>) -> bool {
    forall|i: int| 0 <= i < s.len() ==> ' ' <= #[trigger] s[i] <= '~'
}

/// XOR-fold of equal-length buffers into a zero accumulator of length
/// `len`, in order.
pub open spec fn xor_fold(bufs: Seq<Seq<u8>>, len: nat) -> Seq<u8>
    decreases bufs.len(),
{
    if bufs.len() == 0 {
        zero_bytes(len)
    } else {
        xor_bytes(xor_fold(bufs.drop_last(), len), bufs.last())
    }
}

/// Each share hex-decoded.
pub open spec fn decoded_shares(shares: Seq<Seq<char>>) -> Seq<Seq<u8>> {
    shares.map_values(|s: Seq<char>| bytes_of_hex(s))
}

/// Share `i` can be merged: well-formed hex that decodes to the same length
/// as the first share.
pub open spec fn share_ok(shares: Seq<Seq<char>>, i: int) -> bool {
    is_hex_str(shares[i]) && bytes_of_hex(shares[i]).len() == bytes_of_hex(shares[0]).len()
}

/// Every share can be merged.
pub open spec fn shares_well_formed(shares: Seq<Seq<char>>) -> bool {
    forall|i: int| 0 <= i < shares.len() ==> #[trigger] share_ok(shares, i)
}

/// The XOR-fold of a share list, at the first share's decoded length.
/// Meaningful when the shares are well formed.
pub open spec fn merged_bytes(shares: Seq<Seq<char>>) -> Seq<u8> {
    xor_fold(decoded_shares(shares), bytes_of_hex(shares[0]).len())
}

/// Merging `shares` succeeds: every share can be merged and the fold is
/// printable text.
pub open spec fn merge_ok(shares: Seq<Seq<char>>) -> bool {
    shares_well_formed(shares) && all_printable(merged_bytes(shares))
}

/// The first index at or after `i` whose share cannot be merged, or the
/// length if all can.
pub open spec fn first_bad_share(shares: Seq<Seq<char>>, i: int) -> int
    decreases shares.len() - i
    when 0 <= i <= shares.len()
{
    if i >= shares.len() {
        shares.len() as int
    } else if !share_ok(shares, i) {
        i
    } else {
        first_bad_share(shares, i + 1)
    }
}

/// The error a failed merge reports: the kind of the first offending share,
/// or `InvalidMergedKey` when only the folded text is at fault.
pub open spec fn merge_err(shares: Seq<Seq<char>>) -> Error {
    if !shares_well_formed(shares) {
        let i = first_bad_share(shares, 0);
        if !is_hex_str(shares[i]) {
            Error::InvalidHex(i as usize)
        } else {
            Error::NonMatchingLengths(i as usize)
        }
    } else {
        Error::InvalidMergedKey
    }
}

/// What a successful split guarantees of its shares: `piece_count` of them,
/// each well-formed hex of twice the secret's byte length, XOR-folding back
/// to the secret's UTF-8 encoding.
pub open spec fn valid_split(secret: Seq<char>, shares: Seq<Seq<char>>, piece_count: nat) -> bool {
    let sb = encode_utf8(secret);
    &&& shares.len() == piece_count
    &&& forall|i: int|
        0 <= i < shares.len() ==> is_hex_str(#[trigger] shares[i]) && shares[i].len() == 2
            * sb.len()
    &&& xor_fold(decoded_shares(shares), sb.len()) == sb
}

/// Folding one more buffer XORs it onto the accumulator.
proof fn lemma_xor_fold_push(bufs: Seq<Seq<u8>>, b: Seq<u8>, len: nat)
    ensures
        xor_fold(bufs.push(b), len) == xor_bytes(xor_fold(bufs, len), b),
{
    assert(bufs.push(b).drop_last() =~= bufs);
    assert(bufs.push(b).last() == b);
}

/// XORing the same buffer onto both operands leaves their XOR unchanged.
proof fn lemma_xor_cancel_pair(a: Seq<u8>, x: Seq<u8>, r: Seq<u8>)
    requires
        a.len() == x.len(),
        x.len() == r.len(),
    ensures
        xor_bytes(xor_bytes(a, r), xor_bytes(x, r)) == xor_bytes(a, x),
{
    assert forall|i: int| 0 <= i < a.len() implies xor_bytes(xor_bytes(a, r), xor_bytes(x, r))[i]
        == xor_bytes(a, x)[i] by {
        let p = a[i];
        let q = x[i];
        let s = r[i];
        assert((p ^ s) ^ (q ^ s) == p ^ q) by (bit_vector);
    }
    assert(xor_bytes(xor_bytes(a, r), xor_bytes(x, r)) =~= xor_bytes(a, x));
}

/// A character's code point is bounded by the largest Unicode scalar.
proof fn lemma_char_bound(c: char)
    ensures
        0 <= c as int <= 0x10FFFF,
{
}

/// Law: a text's UTF-8 encoding is printable ASCII exactly when the text
/// itself is, character by character: the two validation views agree.
pub proof fn lemma_printable_encoding(s: Seq<char>)
    ensures
        all_printable(encode_utf8(s)) <==> printable_text(s),
    decreases s.len(),
{
    if s.len() == 0 {
    } else {
        let c = s[0] as u32;
        lemma_char_bound(s[0]);
        char_is_scalar(s[0]);
        let head = encode_scalar(c);
        let tail = encode_utf8(s.drop_first());
        assert(encode_utf8(s) == head + tail);
        lemma_printable_encoding(s.drop_first());
        if !has_width_1_encoding(c) {
            // a multi-byte encoding leads with a byte at or above 0xC0
            let z: u8 = if has_width_2_encoding(c) {
                ((c >> 6) & 0x1F) as u8
            } else if has_width_3_encoding(c) {
                ((c >> 12) & 0x0F) as u8
            } else {
                ((c >> 18) & 0x7) as u8
            };
            assert(0xC0u8 | z >= 0xC0 && 0xE0u8 | z >= 0xC0 && 0xF0u8 | z >= 0xC0)
                by (bit_vector);
            assert(head[0] >= 0xC0);
            assert(!printable_byte(encode_utf8(s)[0]));
            assert(!(' ' <= s[0] <= '~'));
            assert(!printable_text(s));
            assert(!all_printable(encode_utf8(s)));
        } else {
            assert(c & 0x7F == c) by (bit_vector)
                requires
                    c <= 0x7F,
            ;
            assert(head =~= seq![c as u8]);
            assert(printable_byte(encode_utf8(s)[0]) <==> 32 <= c <= 126);
            assert(32 <= c <= 126 <==> ' ' <= s[0] <= '~');
            assert forall|i: int| 0 <= i < tail.len() implies tail[i] == encode_utf8(s)[1
                + i] by {}
            assert forall|i: int|
                1 <= i < s.len() implies s[i] == s.drop_first()[i - 1] by {}
            if all_printable(encode_utf8(s)) {
                assert(all_printable(tail));
                assert(printable_text(s.drop_first()));
                assert forall|i: int| 0 <= i < s.len() implies ' ' <= #[trigger] s[i]
                    <= '~' by {
                    if i > 0 {
                        assert(' ' <= s.drop_first()[i - 1] <= '~');
                    }
                }
            }
            if printable_text(s) {
                assert(printable_text(s.drop_first()));
                assert(all_printable(tail));
                assert forall|i: int|
                    0 <= i < encode_utf8(s).len() implies printable_byte(
                    #[trigger] encode_utf8(s)[i],
                ) by {
                    if i > 0 {
                        assert(encode_utf8(s)[i] == tail[i - 1]);
                    }
                }
            }
        }
    }
}

/// Splits `secret` into `piece_count` hex-encoded shares: `piece_count - 1`
/// fresh random buffers of the secret's byte length, followed by the secret
/// XOR-folded with all of them, so that XOR-folding every share recovers
/// the secret. Fails exactly when the secret holds a character outside the
/// printable ASCII range, space through tilde.
pub fn split(secret: &str, piece_count: usize) -> (r: Result<Vec<String>, Error>)
    requires
        piece_count >= 2,
    ensures
        r is Err <==> !all_printable(encode_utf8(secret@)),
        r matches Err(e) ==> e == Error::InvalidInputKey,
        r matches Ok(shares) ==> valid_split(secret@, shares.deep_view(), piece_count as nat),
{
    let sb = secret.as_bytes();
    let n = sb.len();
    let mut i: usize = 0;
    while i < n
        invariant
            i <= n,
            n == sb@.len(),
            sb@ == encode_utf8(secret@),
            forall|j: int| 0 <= j < i ==> printable_byte(#[trigger] sb@[j]),
        decreases n - i,
    {
        if sb[i] < 32 || sb[i] > 126 {
            return Err(Error::InvalidInputKey);
        }
        i = i + 1;
    }
    let ghost sbv = encode_utf8(secret@);
    let mut output: Vec<String> = Vec::new();
    let mut xored = ByteArray::from_string(secret);
    let mut k: usize = 0;
    proof {
        assert(decoded_shares(output.deep_view()) =~= Seq::<Seq<u8>>::empty());
        assert(xor_fold(decoded_shares(output.deep_view()), sbv.len()) == zero_bytes(sbv.len()));
        crate::bytearray::lemma_xor_zero(sbv);
    }
    while k < piece_count - 1
        invariant
            k <= piece_count - 1,
            xored@.len() == sbv.len(),
            sbv == encode_utf8(secret@),
            output.deep_view().len() == k,
            forall|j: int|
                0 <= j < k ==> is_hex_str(#[trigger] output.deep_view()[j])
                    && output.deep_view()[j].len() == 2 * sbv.len(),
            xor_bytes(xor_fold(decoded_shares(output.deep_view()), sbv.len()), xored@) == sbv,
        decreases piece_count - 1 - k,
    {
        let random_piece = ByteArray::random(xored.len());
        let ghost old_out = output.deep_view();
        let ghost old_xored = xored@;
        let hex = random_piece.to_hex();
        xored = xored.xor(&random_piece);
        output.push(hex);
        k = k + 1;
        proof {
            lemma_hex_round_trip(random_piece@);
            assert(output.deep_view() =~= old_out.push(hex_of(random_piece@)));
            assert(decoded_shares(old_out.push(hex_of(random_piece@))) =~= decoded_shares(
                old_out,
            ).push(random_piece@));
            lemma_xor_fold_push(decoded_shares(old_out), random_piece@, sbv.len());
            lemma_xor_cancel_pair(
                xor_fold(decoded_shares(old_out), sbv.len()),
                old_xored,
                random_piece@,
            );
        }
    }
    let ghost old_out = output.deep_view();
    let ghost last_bytes = xored@;
    output.push(xored.to_hex());
    proof {
        lemma_hex_round_trip(last_bytes);
        assert(output.deep_view() =~= old_out.push(hex_of(last_bytes)));
        assert(decoded_shares(old_out.push(hex_of(last_bytes))) =~= decoded_shares(old_out).push(
            last_bytes,
        ));
        lemma_xor_fold_push(decoded_shares(old_out), last_bytes, sbv.len());
    }
    Ok(output)
}

/// The first bad share seen from `k` is `i`, when all before `i` are good.
proof fn lemma_first_bad_from(shares: Seq<Seq<char>>, k: int, i: int)
    requires
        0 <= k <= i < shares.len(),
        forall|j: int| k <= j < i ==> #[trigger] share_ok(shares, j),
        !share_ok(shares, i),
    ensures
        first_bad_share(shares, k) == i,
    decreases i - k,
{
    if k < i {
        lemma_first_bad_from(shares, k + 1, i);
    }
}

/// Law: round trip — the shares of any successful split of a printable
/// secret merge back to exactly that secret: they are well formed, their
/// fold is printable, and its text is the secret.
pub proof fn lemma_split_merge_round_trip(
    secret: Seq<char>,
    shares: Seq<Seq<char>>,
    piece_count: nat,
)
    requires
        piece_count >= 2,
        printable_text(secret),
        valid_split(secret, shares, piece_count),
    ensures
        merge_ok(shares),
        chars_of_bytes(merged_bytes(shares)) == secret,
{
    let sb = encode_utf8(secret);
    assert(is_ascii_chars(secret));
    is_ascii_chars_encode_utf8(secret);
    assert forall|i: int| 0 <= i < sb.len() implies printable_byte(#[trigger] sb[i]) by {
        assert(sb[i] == secret[i] as u8);
    }
    assert forall|i: int| 0 <= i < shares.len() implies #[trigger] share_ok(shares, i) by {
        assert(shares[i].len() == 2 * sb.len());
        assert(shares[0].len() == 2 * sb.len());
    }
    assert(bytes_of_hex(shares[0]).len() == sb.len());
    assert(merged_bytes(shares) == sb);
    assert(chars_of_bytes(sb) =~= secret);
}

/// Merges hex-encoded shares back into the secret by XOR-folding their
/// decodings. Shares are checked in order and the first offense is
/// reported: `InvalidHex` for a string that is not well-formed hex,
/// `NonMatchingLengths` for one whose decoded length differs from the first
/// share's. `InvalidMergedKey` is reported when the folded bytes are not
/// printable ASCII text.
pub fn merge(shares: &Vec<String>) -> (r: Result<String, Error>)
    requires
        shares@.len() >= 2,
    ensures
        r is Ok <==> merge_ok(shares.deep_view()),
        r matches Ok(s) ==> s@ == chars_of_bytes(merged_bytes(shares.deep_view())),
        r matches Err(e) ==> e == merge_err(shares.deep_view()),
{
    let ghost sv = shares.deep_view();
    let first = match ByteArray::from_hex(shares[0].as_str()) {
        Ok(b) => b,
        Err(_) => {
            proof {
                lemma_first_bad_from(sv, 0, 0);
            }
            return Err(Error::InvalidHex(0));
        },
    };
    let ref_len = first.len();
    let mut combined = ByteArray::zero(ref_len);
    combined = combined.xor(&first);
    proof {
        let d1 = decoded_shares(sv.take(1));
        assert(d1.len() == 1);
        assert(d1.drop_last() =~= Seq::<Seq<u8>>::empty());
        assert(d1.last() == bytes_of_hex(sv[0]));
        assert(xor_fold(Seq::<Seq<u8>>::empty(), ref_len as nat) == zero_bytes(ref_len as nat));
        assert(xor_fold(d1, ref_len as nat) == xor_bytes(
            zero_bytes(ref_len as nat),
            bytes_of_hex(sv[0]),
        ));
        assert(combined@ == xor_fold(d1, ref_len as nat));
        assert(share_ok(sv, 0));
    }
    let mut i: usize = 1;
    while i < shares.len()
        invariant
            1 <= i <= sv.len(),
            sv == shares.deep_view(),
            sv.len() == shares@.len(),
            ref_len == bytes_of_hex(sv[0]).len(),
            forall|j: int| 0 <= j < i ==> #[trigger] share_ok(sv, j),
            combined@ == xor_fold(decoded_shares(sv.take(i as int)), ref_len as nat),
            combined@.len() == ref_len,
        decreases sv.len() - i,
    {
        let part = match ByteArray::from_hex(shares[i].as_str()) {
            Ok(b) => b,
            Err(_) => {
                proof {
                    assert(!share_ok(sv, i as int));
                    lemma_first_bad_from(sv, 0, i as int);
                    assert(!merge_ok(sv));
                    assert(merge_err(sv) == Error::InvalidHex(i as usize));
                }
                return Err(Error::InvalidHex(i));
            },
        };
        if part.len() != ref_len {
            proof {
                assert(!share_ok(sv, i as int));
                lemma_first_bad_from(sv, 0, i as int);
                assert(!merge_ok(sv));
                assert(merge_err(sv) == Error::NonMatchingLengths(i as usize));
            }
            return Err(Error::NonMatchingLengths(i));
        }
        combined = combined.xor(&part);
        i = i + 1;
        proof {
            let d1 = decoded_shares(sv.take(i as int));
            assert(d1.drop_last() =~= decoded_shares(sv.take(i - 1)));
            assert(d1.last() == bytes_of_hex(sv[i - 1]));
        }
    }
    proof {
        assert(sv.take(sv.len() as int) =~= sv);
        assert(shares_well_formed(sv));
    }
    match combined.to_string() {
        Err(_) => {
            proof {
                if all_printable(combined@) {
                    assert(forall|l: int|
                        0 <= l < combined@.len() ==> #[trigger] combined@[l] < 128);
                    lemma_ascii_bytes_decode(combined@);
                }
                assert(!merge_ok(sv));
                assert(merge_err(sv) == Error::InvalidMergedKey);
            }
            Err(Error::InvalidMergedKey)
        },
        Ok(text) => {
            let text_bytes = text.as_str().as_bytes();
            proof {
                decode_utf8_encode_utf8(combined@);
            }
            let n = text_bytes.len();
            let mut j: usize = 0;
            while j < n
                invariant
                    j <= n,
                    n == text_bytes@.len(),
                    text_bytes@ == combined@,
                    combined@ == merged_bytes(sv),
                    shares_well_formed(sv),
                    sv == shares.deep_view(),
                    forall|l: int| 0 <= l < j ==> printable_byte(#[trigger] text_bytes@[l]),
                decreases n - j,
            {
                if text_bytes[j] < 32 || text_bytes[j] > 126 {
                    proof {
                        assert(!printable_byte(merged_bytes(sv)[j as int]));
                        assert(!merge_ok(sv));
                        assert(merge_err(sv) == Error::InvalidMergedKey);
                    }
                    return Err(Error::InvalidMergedKey);
                }
                j = j + 1;
            }
            proof {
                lemma_ascii_bytes_decode(combined@);
            }
            Ok(text)
        },
    }
}

} // verus!
