//! The state transition function: a sorted key/value world state, its
//! BLAKE3 commitment, and the execution of extrinsics against it.
use vstd::prelude::*;
use crate::collections::sorted_map::SortedByteMap;
use crate::primitives::digest;
use crate::primitives::scale;
use crate::primitives::types::{Extrinsic, ExtrinsicView};
use crate::primitives::types;

verus! {

/// SCALE encoding of sorted entries: each key, then its value, as byte strings.
pub open spec fn entries_encoding(ks: Seq<Seq<u8>>, vs: Seq<Seq<u8>>) -> Seq<u8>
    decreases ks.len(),
{
    if ks.len() == 0 || vs.len() == 0 {
        Seq::empty()
    } else {
        entries_encoding(ks.drop_last(), vs.drop_last()) + scale::byte_string_encoding(ks.last())
            + scale::byte_string_encoding(vs.last())
    }
}

/// World state: a map from byte-string keys to byte-string values.
pub struct State(pub SortedByteMap);

impl State {
    pub open spec fn wf(self) -> bool {
        self.0.wf()
    }

    /// The contents of the state.
    pub open spec fn map(self) -> Map<Seq<u8>, Seq<u8>> {
        self.0.map()
    }

    /// The state can be framed: its entry count and every key and value fit
    /// a 32-bit length prefix.
    pub open spec fn fits(self) -> bool {
        &&& self.0.key_seq().len() <= u32::MAX
        &&& forall|i: int| 0 <= i < self.0.key_seq().len() ==> #[trigger] self.0.key_seq()[i].len() <= u32::MAX
        &&& forall|i: int| 0 <= i < self.0.value_seq().len() ==> #[trigger] self.0.value_seq()[i].len() <= u32::MAX
    }

    /// The SCALE encoding of the underlying ordered map: the entry count in
    /// compact form, then the entries in key order.
    pub open spec fn encoding(self) -> Seq<u8> {
        scale::compact_bytes(self.0.key_seq().len()) + entries_encoding(
            self.0.key_seq(),
            self.0.value_seq(),
        )
    }

    /// The state root: the BLAKE3 digest of the encoding.
    pub open spec fn root_digest(self) -> Seq<u8> {
        digest::blake3_digest(self.encoding())
    }

    pub fn encode(&self) -> (res: Vec<u8>)
        requires
            self.wf(),
            self.fits(),
        ensures
            res@ == self.encoding(),
    {
        proof {
            self.0.lemma_wf();
        }
        let n = self.0.len();
        let mut out = scale::scale_compact_u32(n as u32);
        let mut i: usize = 0;
        while i < n
            invariant
                self.wf(),
                self.fits(),
                n == self.0.key_seq().len(),
                n == self.0.value_seq().len(),
                0 <= i <= n,
                out@ == scale::compact_bytes(n as nat) + entries_encoding(
                    self.0.key_seq().subrange(0, i as int),
                    self.0.value_seq().subrange(0, i as int),
                ),
            decreases n - i,
        {
            let ghost ks = self.0.key_seq();
            let ghost vs = self.0.value_seq();
            assert(ks.subrange(0, i + 1).drop_last() =~= ks.subrange(0, i as int));
            assert(vs.subrange(0, i + 1).drop_last() =~= vs.subrange(0, i as int));
            let k = self.0.key_at(i);
            let v = self.0.value_at(i);
            assert(k@.len() == ks[i as int].len());
            let mut part = scale::scale_bytes(k.as_slice());
            out.append(&mut part);
            let mut part = scale::scale_bytes(v.as_slice());
            out.append(&mut part);
            i = i + 1;
        }
        assert(self.0.key_seq().subrange(0, n as int) =~= self.0.key_seq());
        assert(self.0.value_seq().subrange(0, n as int) =~= self.0.value_seq());
        out
    }

    /// Commits world state to a unique Blake3 hash. The keys are kept
    /// sorted, so the encoding, and the root, depend on the contents alone.
    pub fn root(&self) -> (h: types::Hash)
        requires
            self.wf(),
            self.fits(),
        ensures
            h.0@ == self.root_digest(),
    {
        let bytes = self.encode();
        types::Hash::from_bytes(digest::blake3_hash(bytes.as_slice()))
    }
}

/// The bytes "balance:" that prefix the key of an account's balance.
pub open spec fn balance_prefix() -> Seq<u8> {
    seq![98u8, 97u8, 108u8, 97u8, 110u8, 99u8, 101u8, 58u8]
}

/// The state key of an account's balance: "balance:" and the account name.
pub open spec fn balance_key(account: Seq<char>) -> Seq<u8> {
    balance_prefix() + vstd::utf8::encode_utf8(account)
}

/// The balance stored under `key`: the little-endian number of an
/// eight-byte value, and zero for a missing key or a value of other length.
pub open spec fn balance_in(m: Map<Seq<u8>, Seq<u8>>, key: Seq<u8>) -> nat {
    if m.contains_key(key) && m[key].len() == 8 {
        scale::le_value(m[key])
    } else {
        0
    }
}

/// The state after crediting or debiting: `key` set to the eight bytes of `balance`.
pub open spec fn with_balance(m: Map<Seq<u8>, Seq<u8>>, key: Seq<u8>, balance: nat) -> Map<
    Seq<u8>,
    Seq<u8>,
> {
    m.insert(key, scale::le_bytes(balance, 8))
}

/// The state that executing an extrinsic leaves. A transfer moves `amount`
/// from one balance to the other when the sender holds at least `amount`,
/// and changes nothing otherwise.
pub open spec fn apply_extrinsic(m: Map<Seq<u8>, Seq<u8>>, e: ExtrinsicView) -> Map<
    Seq<u8>,
    Seq<u8>,
> {
    match e {
        ExtrinsicView::SetState { key, value } => m.insert(key, value),
        ExtrinsicView::Transfer { from, to, amount } => {
            let fk = balance_key(from);
            let tk = balance_key(to);
            let fb = balance_in(m, fk);
            if fb >= amount {
                let m1 = with_balance(m, fk, (fb - amount) as nat);
                with_balance(m1, tk, (balance_in(m1, tk) + amount) as nat)
            } else {
                m
            }
        },
    }
}

/// The credit of a transfer does not overflow a `u64` balance.
pub open spec fn no_overflow(m: Map<Seq<u8>, Seq<u8>>, e: ExtrinsicView) -> bool {
    match e {
        ExtrinsicView::SetState { .. } => true,
        ExtrinsicView::Transfer { from, to, amount } => {
            let fk = balance_key(from);
            let tk = balance_key(to);
            let fb = balance_in(m, fk);
            fb >= amount ==> balance_in(with_balance(m, fk, (fb - amount) as nat), tk) + amount
                <= u64::MAX
        },
    }
}

/// The eight little-endian bytes of a balance.
pub fn bincode_serialize(val: u64) -> (bytes: Vec<u8>)
    ensures
        bytes@ == scale::le_bytes(val as nat, 8),
{
    let mut out: Vec<u8> = Vec::new();
    let mut v: u64 = val;
    let mut i: usize = 0;
    while i < 8
        invariant
            0 <= i <= 8,
            out@ + scale::le_bytes(v as nat, (8 - i) as nat) == scale::le_bytes(val as nat, 8),
        decreases 8 - i,
    {
        let ghost rest = scale::le_bytes(v as nat, (8 - i) as nat);
        assert(rest == seq![(v % 256) as u8] + scale::le_bytes((v / 256) as nat, (8 - i - 1) as nat));
        out.push((v % 256) as u8);
        v = v / 256;
        i = i + 1;
        assert(out@ + scale::le_bytes(v as nat, (8 - i) as nat) =~= scale::le_bytes(val as nat, 8));
    }
    assert(out@ + scale::le_bytes(v as nat, 0) =~= out@);
    out
}

/// The balance that eight little-endian bytes denote; `None` for any
/// other length.
pub fn bincode_deserialize(bytes: &[u8]) -> (r: Option<u64>)
    ensures
        bytes@.len() == 8 ==> r == Some(scale::le_value(bytes@) as u64) && scale::le_value(bytes@)
            <= u64::MAX,
        bytes@.len() != 8 ==> r is None,
{
    if bytes.len() != 8 {
        return None;
    }
    let mut acc: u64 = 0;
    let mut i: usize = 8;
    assert(bytes@.skip(8) =~= Seq::<u8>::empty());
    while i > 0
        invariant
            bytes@.len() == 8,
            0 <= i <= 8,
            acc as nat == scale::le_value(bytes@.skip(i as int)),
        decreases i,
    {
        let ghost tail = bytes@.skip(i as int);
        let ghost s = bytes@.skip(i - 1);
        assert(s.drop_first() =~= tail);
        assert(s[0] == bytes@[i - 1]);
        proof {
            scale::lemma_le_value_bound(tail);
            scale::lemma_pow256_8();
            reveal_with_fuel(scale::pow256, 9);
            assert(scale::pow256(tail.len()) <= 0x100_0000_0000_0000) by {
                assert(tail.len() <= 7);
            }
        }
        acc = acc * 256 + bytes[i - 1] as u64;
        i = i - 1;
    }
    assert(bytes@.skip(0) =~= bytes@);
    Some(acc)
}

/// The state key of an account's balance.
fn balance_key_of(account: &String) -> (k: Vec<u8>)
    ensures
        k@ == balance_key(account@),
{
    let mut k: Vec<u8> = vec![98u8, 97u8, 108u8, 97u8, 110u8, 99u8, 101u8, 58u8];
    let name = account.as_str().as_bytes();
    let mut i: usize = 0;
    while i < name.len()
        invariant
            0 <= i <= name@.len(),
            k@ == balance_prefix() + name@.subrange(0, i as int),
        decreases name@.len() - i,
    {
        k.push(name[i]);
        i = i + 1;
        assert(k@ =~= balance_prefix() + name@.subrange(0, i as int));
    }
    assert(name@.subrange(0, name@.len() as int) =~= name@);
    k
}

/// State Transition Function (STF).
pub struct Runtime {
    pub state: State,
}

impl Runtime {
    pub fn new() -> (r: Self)
        ensures
            r.state.wf(),
            r.state.map() == Map::<Seq<u8>, Seq<u8>>::empty(),
            r.state.0.key_seq().len() == 0,
    {
        Runtime { state: State(SortedByteMap::new()) }
    }

    /// The balance stored under `key`.
    pub fn get_read_balance(&self, key: &[u8]) -> (b: u64)
        requires
            self.state.wf(),
        ensures
            b as nat == balance_in(self.state.map(), key@),
    {
        match self.state.0.get(key) {
            Some(v) => match bincode_deserialize(v.as_slice()) {
                Some(b) => b,
                None => 0,
            },
            None => 0,
        }
    }

    /// Stores `balance` under `key` as eight little-endian bytes.
    pub fn set_write_balance(&mut self, key: &[u8], balance: u64)
        requires
            old(self).state.wf(),
        ensures
            final(self).state.wf(),
            final(self).state.map() == with_balance(old(self).state.map(), key@, balance as nat),
    {
        let mut k: Vec<u8> = Vec::new();
        let mut i: usize = 0;
        while i < key.len()
            invariant
                0 <= i <= key@.len(),
                k@ == key@.subrange(0, i as int),
            decreases key@.len() - i,
        {
            k.push(key[i]);
            i = i + 1;
            assert(k@ =~= key@.subrange(0, i as int));
        }
        assert(key@.subrange(0, key@.len() as int) =~= key@);
        self.state.0.insert(k, bincode_serialize(balance));
    }

    /// Mutates the world state based on extrinsic payload.
    pub fn execute_transaction(&mut self, extrinsic: Extrinsic)
        requires
            old(self).state.wf(),
            no_overflow(old(self).state.map(), extrinsic@),
        ensures
            final(self).state.wf(),
            final(self).state.map() == apply_extrinsic(old(self).state.map(), extrinsic@),
    {
        match extrinsic {
            Extrinsic::SetState { key, value } => {
                self.state.0.insert(key, value);
            },
            Extrinsic::Transfer { from, to, amount } => {
                let from_key = balance_key_of(&from);
                let to_key = balance_key_of(&to);
                let from_balance = self.get_read_balance(from_key.as_slice());
                if from_balance >= amount {
                    self.set_write_balance(from_key.as_slice(), from_balance - amount);
                    let to_balance = self.get_read_balance(to_key.as_slice());
                    self.set_write_balance(to_key.as_slice(), to_balance + amount);
                }
            },
        }
    }
}

} // verus!

verus! {

/// The state root is a function of the state's contents: two states with
/// the same contents have the same encoding, and so the same root.
pub proof fn lemma_state_root_canonical(s1: State, s2: State)
    requires
        s1.wf(),
        s2.wf(),
        s1.map() == s2.map(),
    ensures
        s1.encoding() == s2.encoding(),
        s1.root_digest() == s2.root_digest(),
{
    SortedByteMap::lemma_canonical(s1.0, s2.0);
}

/// Execution is deterministic: the same extrinsic applied to states with
/// the same contents leaves states with the same contents, and so with the
/// same root.
pub proof fn lemma_execution_deterministic(
    s1: State,
    s2: State,
    e: ExtrinsicView,
    t1: State,
    t2: State,
)
    requires
        s1.map() == s2.map(),
        t1.wf(),
        t2.wf(),
        t1.map() == apply_extrinsic(s1.map(), e),
        t2.map() == apply_extrinsic(s2.map(), e),
    ensures
        t1.map() == t2.map(),
        t1.root_digest() == t2.root_digest(),
{
    lemma_state_root_canonical(t1, t2);
}

/// A transfer between two distinct accounts moves exactly the amount when
/// the sender holds at least that much: the sender's balance falls by the
/// amount and the recipient's rises by it. A sender holding less leaves
/// the state as it was.
pub proof fn lemma_transfer_moves_amount(
    m: Map<Seq<u8>, Seq<u8>>,
    from: Seq<char>,
    to: Seq<char>,
    amount: u64,
)
    requires
        balance_key(from) != balance_key(to),
        no_overflow(m, ExtrinsicView::Transfer { from, to, amount }),
    ensures
        ({
            let m2 = apply_extrinsic(m, ExtrinsicView::Transfer { from, to, amount });
            let fk = balance_key(from);
            let tk = balance_key(to);
            &&& balance_in(m, fk) >= amount ==> {
                &&& balance_in(m2, fk) == balance_in(m, fk) - amount
                &&& balance_in(m2, tk) == balance_in(m, tk) + amount
            }
            &&& balance_in(m, fk) < amount ==> m2 == m
        }),
{
    let fk = balance_key(from);
    let tk = balance_key(to);
    let fb = balance_in(m, fk);
    scale::lemma_pow256_8();
    if fk.len() > 0 && m.contains_key(fk) && m[fk].len() == 8 {
        scale::lemma_le_value_bound(m[fk]);
    }
    if fb >= amount {
        let m1 = with_balance(m, fk, (fb - amount) as nat);
        scale::lemma_le_roundtrip((fb - amount) as nat, 8);
        scale::lemma_le_bytes_len((fb - amount) as nat, 8);
        assert(balance_in(m1, tk) == balance_in(m, tk));
        let tb = balance_in(m1, tk);
        scale::lemma_le_roundtrip((tb + amount) as nat, 8);
        scale::lemma_le_bytes_len((tb + amount) as nat, 8);
        let m2 = with_balance(m1, tk, (tb + amount) as nat);
        assert(m2[fk] == m1[fk]);
    }
}

/// Writing a balance and reading it back gives the balance.
pub proof fn lemma_balance_roundtrip(v: u64)
    ensures
        scale::le_bytes(v as nat, 8).len() == 8,
        scale::le_value(scale::le_bytes(v as nat, 8)) == v,
{
    scale::lemma_pow256_8();
    scale::lemma_le_roundtrip(v as nat, 8);
}

/// A transfer neither creates nor destroys balance: between two accounts
/// with distinct keys the sum of the two balances is unchanged, and a
/// transfer to oneself leaves the balance as it was. Every other key keeps
/// its value.
pub proof fn lemma_transfer_conserves(
    m: Map<Seq<u8>, Seq<u8>>,
    from: Seq<char>,
    to: Seq<char>,
    amount: u64,
)
    requires
        no_overflow(m, ExtrinsicView::Transfer { from, to, amount }),
    ensures
        ({
            let m2 = apply_extrinsic(m, ExtrinsicView::Transfer { from, to, amount });
            let fk = balance_key(from);
            let tk = balance_key(to);
            &&& fk != tk ==> balance_in(m2, fk) + balance_in(m2, tk) == balance_in(m, fk)
                + balance_in(m, tk)
            &&& fk == tk ==> balance_in(m2, fk) == balance_in(m, fk)
            &&& forall|k: Seq<u8>| k != fk && k != tk ==> m2.contains_key(k) == m.contains_key(k)
                && (m.contains_key(k) ==> #[trigger] m2[k] == m[k])
        }),
{
    let fk = balance_key(from);
    let tk = balance_key(to);
    let fb = balance_in(m, fk);
    scale::lemma_pow256_8();
    if fk.len() > 0 && m.contains_key(fk) && m[fk].len() == 8 {
        scale::lemma_le_value_bound(m[fk]);
    }
    if fb >= amount {
        let m1 = with_balance(m, fk, (fb - amount) as nat);
        scale::lemma_le_roundtrip((fb - amount) as nat, 8);
        let tb = balance_in(m1, tk);
        scale::lemma_le_roundtrip((tb + amount) as nat, 8);
    }
}

} // verus!
