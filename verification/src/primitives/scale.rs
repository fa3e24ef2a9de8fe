//! SCALE framing of the protocol values: the byte layouts of little-endian
//! integers, compact integers and length-prefixed byte strings, and the
//! encoders of `parity-scale-codec` that produce them.
use vstd::prelude::*;
use parity_scale_codec::Encode;

verus! {

/// The `k` little-endian bytes of `n` (bytes above `k` are dropped).
pub open spec fn le_bytes(n: nat, k: nat) -> Seq<u8>
    decreases k,
{
    if k == 0 {
        Seq::empty()
    } else {
        seq![(n % 256) as u8] + le_bytes(n / 256, (k - 1) as nat)
    }
}

/// The number that a little-endian byte string denotes.
pub open spec fn le_value(s: Seq<u8>) -> nat
    decreases s.len(),
{
    if s.len() == 0 {
        0
    } else {
        s[0] as nat + 256 * le_value(s.drop_first())
    }
}

/// 256 to the power `k`: one more than the largest `k`-byte number.
pub open spec fn pow256(k: nat) -> nat
    decreases k,
{
    if k == 0 {
        1
    } else {
        256 * pow256((k - 1) as nat)
    }
}

/// Eight bytes hold exactly the `u64` range.
pub proof fn lemma_pow256_8()
    ensures
        pow256(8) == 0x1_0000_0000_0000_0000,
{
    reveal_with_fuel(pow256, 9);
}

pub proof fn lemma_le_bytes_len(n: nat, k: nat)
    ensures
        le_bytes(n, k).len() == k,
    decreases k,
{
    if k > 0 {
        lemma_le_bytes_len(n / 256, (k - 1) as nat);
    }
}

/// A little-endian byte string denotes a number below 256 to its length.
pub proof fn lemma_le_value_bound(s: Seq<u8>)
    ensures
        le_value(s) < pow256(s.len()),
    decreases s.len(),
{
    if s.len() > 0 {
        lemma_le_value_bound(s.drop_first());
    }
}

/// Reading back the `k` little-endian bytes of a number below 256^k gives
/// the number.
pub proof fn lemma_le_roundtrip(n: nat, k: nat)
    requires
        n < pow256(k),
    ensures
        le_value(le_bytes(n, k)) == n,
        le_bytes(n, k).len() == k,
    decreases k,
{
    lemma_le_bytes_len(n, k);
    if k > 0 {
        assert(n / 256 < pow256((k - 1) as nat));
        lemma_le_roundtrip(n / 256, (k - 1) as nat);
        let s = le_bytes(n, k);
        assert(s.drop_first() =~= le_bytes(n / 256, (k - 1) as nat));
    }
}

/// Writing back the number that a byte string denotes gives the string.
pub proof fn lemma_le_bytes_of_value(s: Seq<u8>)
    ensures
        le_bytes(le_value(s), s.len()) == s,
    decreases s.len(),
{
    if s.len() > 0 {
        lemma_le_bytes_of_value(s.drop_first());
        let v = le_value(s);
        assert(v % 256 == s[0] as nat);
        assert(v / 256 == le_value(s.drop_first()));
        assert(le_bytes(v, s.len()) =~= s);
    }
}

/// The least number of bytes that hold `n`.
pub open spec fn byte_len(n: nat) -> nat
    decreases n,
{
    if n == 0 {
        0
    } else {
        1 + byte_len(n / 256)
    }
}

/// SCALE compact encoding of an unsigned integer: two low mode bits in the
/// first byte select one, two or four bytes holding `n << 2`, or a length
/// byte followed by the least little-endian bytes of `n`.
pub open spec fn compact_bytes(n: nat) -> Seq<u8> {
    if n < 64 {
        seq![(n * 4) as u8]
    } else if n < 16384 {
        le_bytes(n * 4 + 1, 2)
    } else if n < 1073741824 {
        le_bytes(n * 4 + 2, 4)
    } else {
        seq![((byte_len(n) - 4) * 4 + 3) as u8] + le_bytes(n, byte_len(n))
    }
}

/// SCALE encoding of a byte string: its compact length, then its bytes.
pub open spec fn byte_string_encoding(b: Seq<u8>) -> Seq<u8> {
    compact_bytes(b.len()) + b
}

/// SCALE encoding of a text: its UTF-8 bytes as a byte string.
pub open spec fn text_encoding(t: Seq<char>) -> Seq<u8> {
    byte_string_encoding(vstd::utf8::encode_utf8(t))
}

/// Whether a text can be framed: SCALE length prefixes are 32-bit.
pub open spec fn text_fits(t: Seq<char>) -> bool {
    vstd::utf8::encode_utf8(t).len() <= u32::MAX
}

/// UTF-8 takes at most four bytes per character.
pub proof fn lemma_utf8_len_bound(t: Seq<char>)
    ensures
        vstd::utf8::encode_utf8(t).len() <= 4 * t.len(),
    decreases t.len(),
{
    if t.len() > 0 {
        lemma_utf8_len_bound(t.drop_first());
    }
}

/// `Compact::<u64>::encode` of parity-scale-codec. Its contract claims the
/// compact layout that the crate's `CompactRef<u64>` encoder writes.
#[verifier::external_body]
pub(crate) fn scale_compact_u64(n: u64) -> (res: Vec<u8>)
    ensures
        res@ == compact_bytes(n as nat),
{
    parity_scale_codec::Compact::<u64>(n).encode()
}

/// `<u64 as Encode>::encode` of parity-scale-codec: the eight
/// little-endian bytes of the number.
#[verifier::external_body]
pub(crate) fn scale_u64(n: u64) -> (res: Vec<u8>)
    ensures
        res@ == le_bytes(n as nat, 8),
{
    n.encode()
}

/// `<[u8; 32] as Encode>::encode` of parity-scale-codec: a fixed-size
/// array is written as its bytes, with no length prefix.
#[verifier::external_body]
pub(crate) fn scale_array32(a: &[u8; 32]) -> (res: Vec<u8>)
    ensures
        res@ == a@,
{
    a.encode()
}

/// `<str as Encode>::encode` of parity-scale-codec: the compact byte length
/// and the UTF-8 bytes. The crate panics past a 32-bit length.
#[verifier::external_body]
pub(crate) fn scale_str(s: &str) -> (res: Vec<u8>)
    requires
        text_fits(s@),
    ensures
        res@ == text_encoding(s@),
{
    s.encode()
}

/// `<[u8] as Encode>::encode` of parity-scale-codec: the compact length and
/// the bytes. The crate panics past a 32-bit length.
#[verifier::external_body]
pub(crate) fn scale_bytes(b: &[u8]) -> (res: Vec<u8>)
    requires
        b@.len() <= u32::MAX,
    ensures
        res@ == byte_string_encoding(b@),
{
    b.encode()
}

/// `Compact::<u32>::encode` of parity-scale-codec, used for the item
/// count of a collection. Below 2^32 it writes the same bytes as the
/// `u64` encoder, as the source of both shows.
#[verifier::external_body]
pub(crate) fn scale_compact_u32(n: u32) -> (res: Vec<u8>)
    ensures
        res@ == compact_bytes(n as nat),
{
    parity_scale_codec::Compact::<u32>(n).encode()
}

} // verus!

verus! {

/// The compact integer at the front of `s`, as its value and its byte
/// count, when the front holds a canonical compact encoding of a `u64`.
pub open spec fn parse_compact(s: Seq<u8>) -> Option<(nat, nat)> {
    if s.len() == 0 {
        None
    } else {
        let b0 = s[0] as nat;
        if b0 % 4 == 0 {
            Some((b0 / 4, 1))
        } else if b0 % 4 == 1 {
            if s.len() < 2 {
                None
            } else {
                let x = le_value(s.take(2));
                if x / 4 >= 64 {
                    Some((x / 4, 2))
                } else {
                    None
                }
            }
        } else if b0 % 4 == 2 {
            if s.len() < 4 {
                None
            } else {
                let x = le_value(s.take(4));
                if x / 4 >= 16384 {
                    Some((x / 4, 4))
                } else {
                    None
                }
            }
        } else {
            let k = (b0 / 4 + 4) as nat;
            if k > 8 || s.len() < 1 + k {
                None
            } else {
                let v = le_value(s.subrange(1, (1 + k) as int));
                if v >= pow256((k - 1) as nat) && v >= 1073741824 {
                    Some((v, 1 + k))
                } else {
                    None
                }
            }
        }
    }
}

pub proof fn lemma_pow256_monotone(a: nat, b: nat)
    requires
        a <= b,
    ensures
        pow256(a) <= pow256(b),
        pow256(a) >= 1,
    decreases b,
{
    if b > 0 && a < b {
        lemma_pow256_monotone(a, (b - 1) as nat);
    }
    if a > 0 {
        lemma_pow256_monotone((a - 1) as nat, (a - 1) as nat);
    }
}

/// `k` is the least byte count of every number in [256^(k-1), 256^k).
pub proof fn lemma_byte_len_exact(v: nat, k: nat)
    requires
        k >= 1,
        pow256((k - 1) as nat) <= v < pow256(k),
    ensures
        byte_len(v) == k,
    decreases k,
{
    lemma_pow256_monotone(0, (k - 1) as nat);
    assert(v > 0);
    if k > 1 {
        assert(pow256((k - 2) as nat) <= v / 256);
        lemma_byte_len_exact(v / 256, (k - 1) as nat);
    } else {
        assert(v / 256 == 0);
        assert(byte_len(0) == 0);
    }
}

/// A positive number lies in [256^(n-1), 256^n) for its byte length n.
pub proof fn lemma_byte_len_bounds(v: nat)
    requires
        v > 0,
    ensures
        byte_len(v) >= 1,
        pow256((byte_len(v) - 1) as nat) <= v < pow256(byte_len(v)),
    decreases v,
{
    if v / 256 > 0 {
        lemma_byte_len_bounds(v / 256);
    } else {
        assert(byte_len(v / 256) == 0);
    }
}

/// A canonical compact encoding is found again at the front of any
/// continuation of it.
#[verifier::spinoff_prover]
#[verifier::rlimit(60)]
pub proof fn lemma_parse_compact_complete(v: nat, rest: Seq<u8>)
    requires
        v < 0x1_0000_0000_0000_0000,
    ensures
        parse_compact(compact_bytes(v) + rest) == Some((v, compact_bytes(v).len())),
{
    let c = compact_bytes(v);
    let s = c + rest;
    reveal_with_fuel(pow256, 9);
    if v < 64 {
        assert(s[0] == c[0]);
    } else if v < 16384 {
        lemma_le_roundtrip(v * 4 + 1, 2);
        assert(s.take(2) =~= c);
        assert(s[0] == c[0]);
        assert(c[0] as nat == (v * 4 + 1) % 256);
    } else if v < 1073741824 {
        lemma_le_roundtrip(v * 4 + 2, 4);
        assert(s.take(4) =~= c);
        assert(s[0] == c[0]);
        assert(c[0] as nat == (v * 4 + 2) % 256);
    } else {
        lemma_byte_len_bounds(v);
        let k = byte_len(v);
        if k < 4 {
            lemma_pow256_monotone(k, 3);
        }
        if k > 8 {
            lemma_pow256_monotone(8, (k - 1) as nat);
        }
        assert(4 <= k <= 8);
        lemma_le_roundtrip(v, k);
        assert(s.subrange(1, 1 + k as int) =~= le_bytes(v, k));
        assert(s[0] == c[0]);
    }
}

/// What the parser finds at the front of a byte string is a canonical
/// compact encoding of a `u64`.
#[verifier::spinoff_prover]
#[verifier::rlimit(60)]
pub proof fn lemma_parse_compact_sound(s: Seq<u8>)
    ensures
        parse_compact(s) matches Some((v, n)) ==> {
            &&& n <= s.len()
            &&& v < 0x1_0000_0000_0000_0000
            &&& s.take(n as int) == compact_bytes(v)
            &&& compact_bytes(v).len() == n
        },
{
    reveal_with_fuel(pow256, 9);
    if let Some((v, n)) = parse_compact(s) {
        let b0 = s[0] as nat;
        if b0 % 4 == 0 {
            assert(s.take(1) =~= seq![s[0]]);
            assert(compact_bytes(v) =~= seq![s[0]]);
        } else if b0 % 4 == 1 {
            let t = s.take(2);
            let x = le_value(t);
            lemma_le_value_bound(t);
            lemma_le_bytes_of_value(t);
            assert(x == t[0] as nat + 256 * le_value(t.drop_first()));
            assert(t.drop_first().drop_first() =~= Seq::<u8>::empty());
            assert(x % 4 == 1);
            assert(v * 4 + 1 == x);
        } else if b0 % 4 == 2 {
            let t = s.take(4);
            let x = le_value(t);
            lemma_le_value_bound(t);
            lemma_le_bytes_of_value(t);
            assert(x == t[0] as nat + 256 * le_value(t.drop_first()));
            assert(x % 4 == 2);
            assert(v * 4 + 2 == x);
        } else {
            let k = (b0 / 4 + 4) as nat;
            let t = s.subrange(1, 1 + k as int);
            lemma_le_value_bound(t);
            lemma_le_bytes_of_value(t);
            lemma_pow256_monotone(k, 8);
            lemma_byte_len_exact(v, k);
            assert(b0 == (k - 4) * 4 + 3);
            assert(s.take(n as int) =~= seq![s[0]] + t);
        }
    }
}

} // verus!

verus! {

/// The number that the `k` little-endian bytes of `input` from `start` denote.
pub fn read_le(input: &[u8], start: usize, k: usize) -> (v: u64)
    requires
        k <= 8,
        start + k <= input@.len(),
    ensures
        v as nat == le_value(input@.subrange(start as int, (start + k) as int)),
{
    let mut acc: u64 = 0;
    let mut i: usize = k;
    let len = input.len();
    let ghost s = input@.subrange(start as int, (start + k) as int);
    assert(s.skip(k as int) =~= Seq::<u8>::empty());
    while i > 0
        invariant
            k <= 8,
            start + k <= input@.len(),
            len == input@.len(),
            s == input@.subrange(start as int, (start + k) as int),
            0 <= i <= k,
            acc as nat == le_value(s.skip(i as int)),
        decreases i,
    {
        let ghost tail = s.skip(i as int);
        let ghost t2 = s.skip(i - 1);
        assert(t2.drop_first() =~= tail);
        assert(t2[0] == input@[start + i - 1]);
        proof {
            lemma_le_value_bound(tail);
            reveal_with_fuel(pow256, 9);
            assert(pow256(tail.len()) <= 0x100_0000_0000_0000) by {
                assert(tail.len() <= 7);
                lemma_pow256_monotone(tail.len(), 7);
            }
        }
        acc = acc * 256 + input[start + (i - 1)] as u64;
        i = i - 1;
    }
    assert(s.skip(0) =~= s);
    acc
}

/// The canonical compact integer at position `pos` of `input`, with the
/// position just past it.
pub fn decode_compact(input: &[u8], pos: usize) -> (r: Option<(u64, usize)>)
    requires
        pos <= input@.len(),
    ensures
        match parse_compact(input@.skip(pos as int)) {
            Some((v, n)) => r == Some((v as u64, (pos + n) as usize)) && pos + n <= input@.len()
                && v < 0x1_0000_0000_0000_0000,
            None => r is None,
        },
{
    let ghost s = input@.skip(pos as int);
    proof {
        lemma_parse_compact_sound(s);
    }
    if pos >= input.len() {
        return None;
    }
    let b0 = input[pos];
    assert(s[0] == b0);
    let rest = input.len() - pos;
    if b0 % 4 == 0 {
        Some(((b0 / 4) as u64, pos + 1))
    } else if b0 % 4 == 1 {
        if rest < 2 {
            return None;
        }
        let x = read_le(input, pos, 2);
        assert(input@.subrange(pos as int, pos + 2) =~= s.take(2));
        if x / 4 >= 64 {
            Some((x / 4, pos + 2))
        } else {
            None
        }
    } else if b0 % 4 == 2 {
        if rest < 4 {
            return None;
        }
        let x = read_le(input, pos, 4);
        assert(input@.subrange(pos as int, pos + 4) =~= s.take(4));
        if x / 4 >= 16384 {
            Some((x / 4, pos + 4))
        } else {
            None
        }
    } else {
        let k: usize = (b0 / 4) as usize + 4;
        if k > 8 || rest < 1 + k {
            return None;
        }
        let v = read_le(input, pos + 1, k);
        assert(input@.subrange(pos + 1, pos + 1 + k) =~= s.subrange(1, 1 + k as int));
        let mut t: u64 = 1;
        let mut i: usize = 1;
        while i < k
            invariant
                1 <= i <= k,
                k <= 8,
                t as nat == pow256((i - 1) as nat),
            decreases k - i,
        {
            proof {
                reveal_with_fuel(pow256, 9);
                lemma_pow256_monotone((i - 1) as nat, 6);
            }
            t = t * 256;
            i = i + 1;
        }
        if v >= t && v >= 1073741824 {
            Some((v, pos + 1 + k))
        } else {
            None
        }
    }
}

/// `std::str::from_utf8`, with its error dropped. The contract states what
/// std documents: the bytes are accepted exactly when they are valid UTF-8,
/// and the text is what they encode.
#[verifier::external_body]
pub(crate) fn utf8_text(bytes: &[u8]) -> (r: Option<&str>)
    ensures
        r is Some <==> vstd::utf8::valid_utf8(bytes@),
        r matches Some(t) ==> t@ == vstd::utf8::decode_utf8(bytes@),
{
    std::str::from_utf8(bytes).ok()
}

} // verus!
