//! Protocol types: digests, headers, extrinsics and blocks, with their
//! SCALE encodings and BLAKE3 commitments.
use vstd::prelude::*;
use crate::primitives::digest;
use crate::primitives::scale;

verus! {

broadcast use vstd::array::group_array_axioms;

pub type Slot = u64;

pub type BlockNumber = u64;

/// Fixed-size cryptographic identifier: the 32 bytes of a digest.
#[derive(Clone, Copy, Debug, Eq, Hash)]
pub struct Hash(pub [u8; 32]);

impl PartialEq for Hash {
    fn eq(&self, other: &Self) -> (r: bool) {
        let mut i: usize = 0;
        while i < 32
            invariant
                0 <= i <= 32,
                forall|j: int| 0 <= j < i ==> self.0[j] == other.0[j],
            decreases 32 - i,
        {
            if self.0[i] != other.0[i] {
                return false;
            }
            i = i + 1;
        }
        assert(self.0 =~= other.0);
        true
    }
}

impl vstd::std_specs::cmp::PartialEqSpecImpl for Hash {
    open spec fn obeys_eq_spec() -> bool {
        true
    }

    open spec fn eq_spec(&self, other: &Hash) -> bool {
        *self == *other
    }
}

impl Hash {
    /// Whether every byte is zero: the parent link of genesis.
    pub open spec fn is_zero(self) -> bool {
        forall|i: int| 0 <= i < 32 ==> self.0[i] == 0
    }

    /// The all-zero digest.
    pub open spec fn zero_spec() -> Hash {
        Hash(vstd::array::spec_array_fill_for_copy_type::<u8, 32>(0u8))
    }

    pub proof fn lemma_zero_spec()
        ensures
            Hash::zero_spec().is_zero(),
    {
    }

    /// Two digests with the same bytes are the same digest.
    pub proof fn lemma_bytes_determine(a: Hash, b: Hash)
        requires
            a.0@ == b.0@,
        ensures
            a == b,
    {
        assert forall|i: int| 0 <= i < 32 implies a.0[i] == b.0[i] by {
            assert(a.0@[i] == b.0@[i]);
        }
        assert(a.0 =~= b.0);
    }

    /// The all-zero digest is the only one with `is_zero`.
    pub proof fn lemma_zero_unique(a: Hash, b: Hash)
        requires
            a.is_zero(),
            b.is_zero(),
        ensures
            a == b,
    {
        assert(a.0 =~= b.0);
    }

    pub fn zero() -> (h: Hash)
        ensures
            h.is_zero(),
            h == Hash::zero_spec(),
    {
        Hash([0u8; 32])
    }

    pub fn from_bytes(bytes: [u8; 32]) -> (h: Hash)
        ensures
            h.0 == bytes,
    {
        Hash(bytes)
    }

    pub fn as_bytes(&self) -> (r: &[u8; 32])
        ensures
            *r == self.0,
    {
        &self.0
    }
}

/// Cryptographic header anchoring the chain state.
///
/// `state_root` is the commitment to the world state after the block.
#[derive(Debug)]
pub struct Header {
    pub parent_hash: Hash,
    pub number: BlockNumber,
    pub state_root: Hash,
    pub extrinsics_root: Hash,
    pub slot: Slot,
    pub author: String,
}

impl Clone for Header {
    fn clone(&self) -> (res: Self)
        ensures
            res == *self,
    {
        Header {
            parent_hash: self.parent_hash,
            number: self.number,
            state_root: self.state_root,
            extrinsics_root: self.extrinsics_root,
            slot: self.slot,
            author: self.author.clone(),
        }
    }
}

impl PartialEq for Header {
    fn eq(&self, other: &Self) -> (r: bool) {
        self.parent_hash == other.parent_hash && self.number == other.number && self.state_root
            == other.state_root && self.extrinsics_root == other.extrinsics_root && self.slot
            == other.slot && self.author == other.author
    }
}

impl vstd::std_specs::cmp::PartialEqSpecImpl for Header {
    open spec fn obeys_eq_spec() -> bool {
        true
    }

    open spec fn eq_spec(&self, other: &Header) -> bool {
        self.same_as(*other)
    }
}

impl Header {
    /// Field-wise equality, the author compared by its text.
    pub open spec fn same_as(self, other: Header) -> bool {
        &&& self.parent_hash == other.parent_hash
        &&& self.number == other.number
        &&& self.state_root == other.state_root
        &&& self.extrinsics_root == other.extrinsics_root
        &&& self.slot == other.slot
        &&& self.author@ == other.author@
    }

    /// The header can be framed: its author fits a 32-bit length prefix.
    pub open spec fn fits(self) -> bool {
        scale::text_fits(self.author@)
    }

    /// The SCALE encoding: the fields in declaration order, the number in
    /// compact form.
    pub open spec fn encoding(self) -> Seq<u8> {
        self.parent_hash.0@ + scale::compact_bytes(self.number as nat) + self.state_root.0@
            + self.extrinsics_root.0@ + scale::le_bytes(self.slot as nat, 8) + scale::text_encoding(
            self.author@,
        )
    }

    /// The BLAKE3 digest of the encoding.
    pub open spec fn digest(self) -> Seq<u8> {
        digest::blake3_digest(self.encoding())
    }

    /// The header's identity: the digest with the bytes of `digest()`.
    pub open spec fn id(self) -> Hash {
        Hash(choose|a: [u8; 32]| a@ == self.digest())
    }

    /// A digest with the bytes of the header's digest is its identity.
    pub proof fn lemma_id(self, h: Hash)
        requires
            h.0@ == self.digest(),
        ensures
            h == self.id(),
    {
        let a = choose|a: [u8; 32]| a@ == self.digest();
        assert(h.0@ == self.digest());
        assert(a@ == self.digest());
        Hash::lemma_bytes_determine(h, Hash(a));
    }

    pub fn encode(&self) -> (res: Vec<u8>)
        requires
            self.fits(),
        ensures
            res@ == self.encoding(),
    {
        let mut out = scale::scale_array32(&self.parent_hash.0);
        let mut part = scale::scale_compact_u64(self.number);
        out.append(&mut part);
        let mut part = scale::scale_array32(&self.state_root.0);
        out.append(&mut part);
        let mut part = scale::scale_array32(&self.extrinsics_root.0);
        out.append(&mut part);
        let mut part = scale::scale_u64(self.slot);
        out.append(&mut part);
        let mut part = scale::scale_str(self.author.as_str());
        out.append(&mut part);
        out
    }

    /// Generic Blake3 hashing of the SCALE-encoded header.
    pub fn hash(&self) -> (h: Hash)
        requires
            self.fits(),
        ensures
            h.0@ == self.digest(),
            h == self.id(),
    {
        let bytes = self.encode();
        let h = Hash::from_bytes(digest::blake3_hash(bytes.as_slice()));
        proof {
            self.lemma_id(h);
        }
        h
    }
}

/// Domain-specific extrinsics.
#[derive(Debug)]
pub enum Extrinsic {
    Transfer { from: String, to: String, amount: u64 },
    SetState { key: Vec<u8>, value: Vec<u8> },
}

/// What an extrinsic holds, its texts and byte strings by their contents.
pub enum ExtrinsicView {
    Transfer { from: Seq<char>, to: Seq<char>, amount: u64 },
    SetState { key: Seq<u8>, value: Seq<u8> },
}

impl View for Extrinsic {
    type V = ExtrinsicView;

    open spec fn view(&self) -> ExtrinsicView {
        match self {
            Extrinsic::Transfer { from, to, amount } => ExtrinsicView::Transfer {
                from: from@,
                to: to@,
                amount: *amount,
            },
            Extrinsic::SetState { key, value } => ExtrinsicView::SetState {
                key: key@,
                value: value@,
            },
        }
    }
}

impl Clone for Extrinsic {
    fn clone(&self) -> (res: Self)
        ensures
            res@ == self@,
    {
        match self {
            Extrinsic::Transfer { from, to, amount } => Extrinsic::Transfer {
                from: from.clone(),
                to: to.clone(),
                amount: *amount,
            },
            Extrinsic::SetState { key, value } => Extrinsic::SetState {
                key: key.clone(),
                value: value.clone(),
            },
        }
    }
}

impl ExtrinsicView {
    /// The extrinsic can be framed: every text and byte string fits a
    /// 32-bit length prefix.
    pub open spec fn fits(self) -> bool {
        match self {
            ExtrinsicView::Transfer { from, to, .. } => scale::text_fits(from) && scale::text_fits(
                to,
            ),
            ExtrinsicView::SetState { key, value } => key.len() <= u32::MAX && value.len()
                <= u32::MAX,
        }
    }

    /// The SCALE encoding: the variant index, then the fields in order.
    pub open spec fn encoding(self) -> Seq<u8> {
        match self {
            ExtrinsicView::Transfer { from, to, amount } => seq![0u8] + scale::text_encoding(from)
                + scale::text_encoding(to) + scale::le_bytes(amount as nat, 8),
            ExtrinsicView::SetState { key, value } => seq![1u8] + scale::byte_string_encoding(key)
                + scale::byte_string_encoding(value),
        }
    }

    pub open spec fn digest(self) -> Seq<u8> {
        digest::blake3_digest(self.encoding())
    }

    /// The extrinsic's identity: the digest with the bytes of `digest()`.
    pub open spec fn id(self) -> Hash {
        Hash(choose|a: [u8; 32]| a@ == self.digest())
    }

    pub proof fn lemma_id(self, h: Hash)
        requires
            h.0@ == self.digest(),
        ensures
            h == self.id(),
    {
        let a = choose|a: [u8; 32]| a@ == self.digest();
        assert(h.0@ == self.digest());
        assert(a@ == self.digest());
        Hash::lemma_bytes_determine(h, Hash(a));
    }
}

impl Extrinsic {
    pub fn encode(&self) -> (res: Vec<u8>)
        requires
            self@.fits(),
        ensures
            res@ == self@.encoding(),
    {
        match self {
            Extrinsic::Transfer { from, to, amount } => {
                let mut out: Vec<u8> = Vec::new();
                out.push(0u8);
                let mut part = scale::scale_str(from.as_str());
                out.append(&mut part);
                let mut part = scale::scale_str(to.as_str());
                out.append(&mut part);
                let mut part = scale::scale_u64(*amount);
                out.append(&mut part);
                out
            },
            Extrinsic::SetState { key, value } => {
                let mut out: Vec<u8> = Vec::new();
                out.push(1u8);
                let mut part = scale::scale_bytes(key.as_slice());
                out.append(&mut part);
                let mut part = scale::scale_bytes(value.as_slice());
                out.append(&mut part);
                out
            },
        }
    }

    pub fn hash(&self) -> (h: Hash)
        requires
            self@.fits(),
        ensures
            h.0@ == self@.digest(),
            h == self@.id(),
    {
        let bytes = self.encode();
        let h = Hash::from_bytes(digest::blake3_hash(bytes.as_slice()));
        proof {
            self@.lemma_id(h);
        }
        h
    }
}

/// Binary container for header and opaque extrinsic payload.
#[derive(Debug)]
pub struct Block {
    pub header: Header,
    pub extrinsics: Vec<Extrinsic>,
}

impl Block {
    /// The block's extrinsics by their contents.
    pub open spec fn extrinsics_view(self) -> Seq<ExtrinsicView> {
        self.extrinsics@.map_values(|e: Extrinsic| e@)
    }

    /// Same header, and extrinsics with the same contents.
    pub open spec fn same_as(self, other: Block) -> bool {
        self.header == other.header && self.extrinsics_view() == other.extrinsics_view()
    }

    pub fn hash(&self) -> (h: Hash)
        requires
            self.header.fits(),
        ensures
            h.0@ == self.header.digest(),
            h == self.header.id(),
    {
        self.header.hash()
    }
}

impl Clone for Block {
    fn clone(&self) -> (res: Self)
        ensures
            res.same_as(*self),
    {
        let extrinsics = self.extrinsics.clone();
        assert(extrinsics@.map_values(|e: Extrinsic| e@) =~= self.extrinsics@.map_values(
            |e: Extrinsic| e@,
        ));
        Block { header: self.header.clone(), extrinsics }
    }
}

} // verus!

verus! {

/// `s` begins with the encoding of `h`.
pub open spec fn encodes_prefix(h: Header, s: Seq<u8>) -> bool {
    &&& h.fits()
    &&& h.encoding().len() <= s.len()
    &&& s.take(h.encoding().len() as int) == h.encoding()
}

/// Where the fields of a header lie in a byte string that begins with its
/// encoding, and what the parser finds there.
pub proof fn lemma_header_layout(h: Header, s: Seq<u8>)
    requires
        encodes_prefix(h, s),
    ensures
        ({
            let c1 = scale::compact_bytes(h.number as nat).len();
            let p1: int = 32 + c1 as int;
            let au = vstd::utf8::encode_utf8(h.author@);
            let c2 = scale::compact_bytes(au.len()).len();
            let p2: int = p1 + 72 + c2;
            &&& h.encoding().len() == p2 + au.len()
            &&& s.len() >= p2 + au.len()
            &&& s.subrange(0, 32) == h.parent_hash.0@
            &&& scale::parse_compact(s.skip(32)) == Some((h.number as nat, c1))
            &&& s.subrange(p1 as int, p1 + 32) == h.state_root.0@
            &&& s.subrange(p1 + 32, p1 + 64) == h.extrinsics_root.0@
            &&& s.subrange(p1 + 64, p1 + 72) == scale::le_bytes(h.slot as nat, 8)
            &&& scale::parse_compact(s.skip(p1 + 72)) == Some((au.len(), c2))
            &&& s.subrange(p2 as int, p2 + au.len()) == au
        }),
{
    let e = h.encoding();
    let a = h.parent_hash.0@;
    let b = scale::compact_bytes(h.number as nat);
    let c = h.state_root.0@;
    let d = h.extrinsics_root.0@;
    let f = scale::le_bytes(h.slot as nat, 8);
    let au = vstd::utf8::encode_utf8(h.author@);
    let g = scale::compact_bytes(au.len());
    scale::lemma_le_bytes_len(h.slot as nat, 8);
    assert(e == a + b + c + d + f + (g + au));
    let t = s.take(e.len() as int);
    let p1: int = 32 + b.len() as int;
    let p2: int = p1 + 72 + g.len();
    assert forall|i: int| 0 <= i < e.len() implies s[i] == e[i] by {
        assert(t[i] == s[i]);
    }
    assert(s.subrange(0, 32) =~= a);
    assert(s.skip(32) =~= b + s.skip(p1 as int)) by {
        assert forall|i: int| 0 <= i < s.skip(32).len() implies s.skip(32)[i] == (b + s.skip(
            p1 as int,
        ))[i] by {
            if i < b.len() {
                assert(s[32 + i] == e[32 + i]);
            }
        }
    }
    scale::lemma_parse_compact_complete(h.number as nat, s.skip(p1 as int));
    assert(s.subrange(p1 as int, p1 + 32) =~= c);
    assert(s.subrange(p1 + 32, p1 + 64) =~= d);
    assert(s.subrange(p1 + 64, p1 + 72) =~= f);
    assert(s.skip(p1 + 72) =~= g + s.skip(p2 as int)) by {
        assert forall|i: int| 0 <= i < s.skip(p1 + 72).len() implies s.skip(p1 + 72)[i] == (g
            + s.skip(p2 as int))[i] by {
            if i < g.len() {
                assert(s[p1 + 72 + i] == e[p1 + 72 + i]);
            }
        }
    }
    scale::lemma_parse_compact_complete(au.len(), s.skip(p2 as int));
    assert(s.subrange(p2 as int, p2 + au.len()) =~= au);
}

/// Every header whose encoding begins `s` lies in `s` as the layout says.
proof fn lemma_layout_all(s: Seq<u8>)
    ensures
        forall|h: Header| #[trigger]
            encodes_prefix(h, s) ==> ({
                let c1 = scale::compact_bytes(h.number as nat).len();
                let p1: int = 32 + c1 as int;
                let au = vstd::utf8::encode_utf8(h.author@);
                let c2 = scale::compact_bytes(au.len()).len();
                let p2: int = p1 + 72 + c2;
                &&& s.len() >= p2 + au.len()
                &&& scale::parse_compact(s.skip(32)) == Some((h.number as nat, c1))
                &&& scale::parse_compact(s.skip(p1 + 72)) == Some((au.len(), c2))
                &&& vstd::utf8::valid_utf8(s.subrange(p2, p2 + au.len()))
            }),
{
    assert forall|h: Header| #[trigger] encodes_prefix(h, s) implies ({
        let c1 = scale::compact_bytes(h.number as nat).len();
        let p1: int = 32 + c1 as int;
        let au = vstd::utf8::encode_utf8(h.author@);
        let c2 = scale::compact_bytes(au.len()).len();
        let p2: int = p1 + 72 + c2;
        &&& s.len() >= p2 + au.len()
        &&& scale::parse_compact(s.skip(32)) == Some((h.number as nat, c1))
        &&& scale::parse_compact(s.skip(p1 + 72)) == Some((au.len(), c2))
        &&& vstd::utf8::valid_utf8(s.subrange(p2, p2 + au.len()))
    }) by {
        lemma_header_layout(h, s);
        vstd::utf8::encode_utf8_valid_utf8(h.author@);
    }
}

/// A header whose fields were read from the places where the layout puts
/// them is encoded at the front of `s`, and is the only header that is.
proof fn lemma_decoded(h: Header, s: Seq<u8>, p1: int, p2: int)
    requires
        32 <= p1,
        p1 + 72 <= p2,
        p2 + vstd::utf8::encode_utf8(h.author@).len() <= s.len(),
        vstd::utf8::encode_utf8(h.author@).len() <= u32::MAX,
        h.parent_hash.0@ == s.subrange(0, 32),
        scale::parse_compact(s.skip(32)) == Some((h.number as nat, (p1 - 32) as nat)),
        h.state_root.0@ == s.subrange(p1, p1 + 32),
        h.extrinsics_root.0@ == s.subrange(p1 + 32, p1 + 64),
        h.slot as nat == scale::le_value(s.subrange(p1 + 64, p1 + 72)),
        scale::parse_compact(s.skip(p1 + 72)) == Some(
            (vstd::utf8::encode_utf8(h.author@).len(), (p2 - p1 - 72) as nat),
        ),
        s.subrange(p2, p2 + vstd::utf8::encode_utf8(h.author@).len()) == vstd::utf8::encode_utf8(
            h.author@,
        ),
    ensures
        encodes_prefix(h, s),
        forall|h0: Header| #[trigger] encodes_prefix(h0, s) ==> h.same_as(h0),
{
    let au = vstd::utf8::encode_utf8(h.author@);
    scale::lemma_parse_compact_sound(s.skip(32));
    scale::lemma_parse_compact_sound(s.skip(p1 + 72));
    scale::lemma_le_bytes_of_value(s.subrange(p1 + 64, p1 + 72));
    let e = h.encoding();
    let c1 = scale::compact_bytes(h.number as nat);
    let c2 = scale::compact_bytes(au.len());
    assert(s.skip(32).take(c1.len() as int) == c1);
    assert(s.skip(p1 + 72).take(c2.len() as int) == c2);
    assert(s.subrange(32, p1) =~= c1);
    assert(s.subrange(p1 + 72, p2) =~= c2);
    assert(e =~= s.subrange(0, 32) + s.subrange(32, p1) + s.subrange(p1, p1 + 32) + s.subrange(
        p1 + 32,
        p1 + 64,
    ) + s.subrange(p1 + 64, p1 + 72) + (s.subrange(p1 + 72, p2) + s.subrange(p2, p2 + au.len())));
    assert(s.take(e.len() as int) =~= e);
    assert forall|h0: Header| #[trigger] encodes_prefix(h0, s) implies h.same_as(h0) by {
        lemma_header_layout(h0, s);
        Hash::lemma_bytes_determine(h.parent_hash, h0.parent_hash);
        Hash::lemma_bytes_determine(h.state_root, h0.state_root);
        Hash::lemma_bytes_determine(h.extrinsics_root, h0.extrinsics_root);
        scale::lemma_pow256_8();
        scale::lemma_le_roundtrip(h0.slot as nat, 8);
        vstd::utf8::encode_utf8_decode_utf8(h.author@);
        vstd::utf8::encode_utf8_decode_utf8(h0.author@);
    }
}

/// Copies the 32 bytes of `input` from `start` into an array.
fn read_array32(input: &[u8], start: usize) -> (a: [u8; 32])
    requires
        start + 32 <= input@.len(),
    ensures
        a@ == input@.subrange(start as int, start + 32),
{
    let mut a = [0u8; 32];
    let mut i: usize = 0;
    let len = input.len();
    while i < 32
        invariant
            start + 32 <= input@.len(),
            len == input@.len(),
            0 <= i <= 32,
            forall|j: int| 0 <= j < i ==> a[j] == input@[start + j],
        decreases 32 - i,
    {
        a[i] = input[start + i];
        i = i + 1;
    }
    assert(a@ =~= input@.subrange(start as int, start + 32));
    a
}

impl Header {
    /// Decodes a header from the front of `input`, as SCALE does: each field
    /// in turn, the number and the author's length in canonical compact
    /// form, the author as valid UTF-8. Bytes after the header are ignored.
    pub fn decode(input: &[u8]) -> (r: Option<Header>)
        ensures
            r matches Some(h) ==> encodes_prefix(h, input@),
            forall|h: Header| #[trigger]
                encodes_prefix(h, input@) ==> (r matches Some(h2) && h2.same_as(h)),
    {
        let ghost s = input@;
        proof {
            lemma_layout_all(s);
        }
        let len = input.len();
        if len < 32 {
            return None;
        }
        let parent = read_array32(input, 0);
        let (number, p1) = match scale::decode_compact(input, 32) {
            Some(x) => x,
            None => {
                return None;
            },
        };
        if len - p1 < 72 {
            return None;
        }
        let state_root = read_array32(input, p1);
        let extrinsics_root = read_array32(input, p1 + 32);
        let slot = scale::read_le(input, p1 + 64, 8);
        let (alen, p2) = match scale::decode_compact(input, p1 + 72) {
            Some(x) => x,
            None => {
                return None;
            },
        };
        if alen > 0xffff_ffff || ((len - p2) as u64) < alen {
            return None;
        }
        let alen = alen as usize;
        let mut bytes: Vec<u8> = Vec::new();
        let mut i: usize = 0;
        while i < alen
            invariant
                p2 + alen <= s.len(),
                len == s.len(),
                s == input@,
                0 <= i <= alen,
                bytes@ == s.subrange(p2 as int, p2 + i),
            decreases alen - i,
        {
            bytes.push(input[p2 + i]);
            i = i + 1;
            assert(bytes@ =~= s.subrange(p2 as int, p2 + i));
        }
        let text = match scale::utf8_text(bytes.as_slice()) {
            Some(t) => t,
            None => {
                return None;
            },
        };
        let author = String::from_str(text);
        let h = Header {
            parent_hash: Hash(parent),
            number,
            state_root: Hash(state_root),
            extrinsics_root: Hash(extrinsics_root),
            slot,
            author,
        };
        proof {
            vstd::utf8::decode_utf8_encode_utf8(bytes@);
            lemma_decoded(h, s, p1 as int, p2 as int);
        }
        Some(h)
    }
}

} // verus!

verus! {

/// The header encoding is injective: headers with the same encoding are the
/// same header. Hence `decode(encode(h))` gives `h` back.
pub proof fn lemma_header_encoding_injective(h1: Header, h2: Header)
    requires
        h1.fits(),
        h2.fits(),
        h1.encoding() == h2.encoding(),
    ensures
        h1.same_as(h2),
        encodes_prefix(h1, h1.encoding()),
{
    let s = h1.encoding();
    assert(s.take(s.len() as int) =~= s);
    lemma_header_layout(h1, s);
    lemma_header_layout(h2, s);
    Hash::lemma_bytes_determine(h1.parent_hash, h2.parent_hash);
    Hash::lemma_bytes_determine(h1.state_root, h2.state_root);
    Hash::lemma_bytes_determine(h1.extrinsics_root, h2.extrinsics_root);
    scale::lemma_pow256_8();
    scale::lemma_le_roundtrip(h1.slot as nat, 8);
    scale::lemma_le_roundtrip(h2.slot as nat, 8);
    vstd::utf8::encode_utf8_decode_utf8(h1.author@);
    vstd::utf8::encode_utf8_decode_utf8(h2.author@);
}

/// A block's identity commits to its header alone: blocks with the same
/// header have the same identity, whatever their extrinsics.
pub proof fn lemma_block_id_is_header_id(b1: Block, b2: Block)
    requires
        b1.header == b2.header,
    ensures
        b1.header.id() == b2.header.id(),
{
}

/// Hashing is deterministic: headers with the same fields have the same identity.
pub proof fn lemma_header_id_deterministic(h1: Header, h2: Header)
    requires
        h1.same_as(h2),
    ensures
        h1.encoding() == h2.encoding(),
        h1.id() == h2.id(),
{
}

} // verus!
