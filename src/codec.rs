use vstd::prelude::*;
use vstd::arithmetic::div_mod::lemma_mod_breakdown;
use crate::types::{NodeId, node_id_wf};

verus! {

/// Length of an encoded node id.
pub const NODE_ID_LENGTH: usize = 30;

pub open spec fn pow256(n: nat) -> nat
    decreases n,
{
    if n == 0 {
        1
    } else {
        256 * pow256((n - 1) as nat)
    }
}

/// The number that a big-endian byte string stands for.
pub open spec fn be_value(s: Seq<u8>) -> nat
    decreases s.len(),
{
    if s.len() == 0 {
        0
    } else {
        (be_value(s.drop_last()) * 256 + s.last()) as nat
    }
}

/// The `n` low-order bytes of `x`, big-endian.
pub open spec fn be_bytes(x: nat, n: nat) -> Seq<u8>
    decreases n,
{
    if n == 0 {
        Seq::empty()
    } else {
        be_bytes(x / 256, (n - 1) as nat).push((x % 256) as u8)
    }
}

/// The encoding of a node id: its tag byte, then the 13 high and 16 low payload bytes.
pub open spec fn node_id_bytes(n: NodeId) -> Seq<u8> {
    seq![n.entity_byte] + be_bytes(n.high as nat, 13) + be_bytes(n.low as nat, 16)
}

/// The node id that 30 bytes encode; nothing for any other length.
pub open spec fn node_id_from(b: Seq<u8>) -> Option<NodeId> {
    if b.len() != 30 {
        None
    } else {
        Some(NodeId {
            entity_byte: b[0],
            high: be_value(b.subrange(1, 14)) as u128,
            low: be_value(b.subrange(14, 30)) as u128,
        })
    }
}

proof fn lemma_pow256_pos(n: nat)
    ensures
        pow256(n) >= 1,
    decreases n,
{
    if n > 0 {
        lemma_pow256_pos((n - 1) as nat);
    }
}

proof fn lemma_pow256_mono(a: nat, b: nat)
    requires
        a <= b,
    ensures
        pow256(a) <= pow256(b),
    decreases b,
{
    if a < b {
        lemma_pow256_mono(a, (b - 1) as nat);
        lemma_pow256_pos((b - 1) as nat);
    }
}

proof fn lemma_pow256_values()
    ensures
        pow256(13) == 0x100_0000_0000_0000_0000_0000_0000,
        pow256(16) == 0x1_0000_0000_0000_0000_0000_0000_0000_0000,
{
    reveal_with_fuel(pow256, 17);
}

proof fn lemma_be_round_trip(x: nat, n: nat)
    ensures
        be_bytes(x, n).len() == n,
        be_value(be_bytes(x, n)) == x % pow256(n),
    decreases n,
{
    if n > 0 {
        let p = pow256((n - 1) as nat);
        lemma_be_round_trip(x / 256, (n - 1) as nat);
        lemma_pow256_pos((n - 1) as nat);
        let b = be_bytes(x, n);
        assert(b.drop_last() =~= be_bytes(x / 256, (n - 1) as nat));
        lemma_mod_breakdown(x as int, 256, p as int);
        assert(be_value(b) == ((x / 256) % p) * 256 + x % 256);
        assert(((x / 256) % p) * 256 == 256 * ((x / 256) % p)) by (nonlinear_arith);
    }
}

/// The `n` low-order bytes of `x`, big-endian.
pub fn encode_be(x: u128, n: usize) -> (r: Vec<u8>)
    ensures
        r@ == be_bytes(x as nat, n as nat),
    decreases n,
{
    if n == 0 {
        Vec::new()
    } else {
        let mut v = encode_be(x / 256, n - 1);
        v.push((x % 256) as u8);
        v
    }
}

/// The number that bytes `start..end` of `s` stand for, big-endian.
pub fn decode_be(s: &Vec<u8>, start: usize, end: usize) -> (r: u128)
    requires
        start <= end <= s@.len(),
        end - start <= 16,
    ensures
        r == be_value(s@.subrange(start as int, end as int)),
{
    let mut v: u128 = 0;
    let mut i: usize = start;
    proof {
        lemma_pow256_values();
        assert(s@.subrange(start as int, start as int) =~= Seq::<u8>::empty());
    }
    while i < end
        invariant
            start <= i <= end <= s@.len(),
            end - start <= 16,
            v == be_value(s@.subrange(start as int, i as int)),
            v < pow256((i - start) as nat),
            pow256(16) == 0x1_0000_0000_0000_0000_0000_0000_0000_0000,
        decreases end - i,
    {
        proof {
            assert(s@.subrange(start as int, i + 1).drop_last() =~= s@.subrange(start as int, i as int));
            lemma_pow256_mono((i + 1 - start) as nat, 16);
            assert(pow256((i + 1 - start) as nat) == 256 * pow256((i - start) as nat));
            assert(v * 256 + s@[i as int] < 256 * pow256((i - start) as nat)) by (nonlinear_arith)
                requires v < pow256((i - start) as nat), s@[i as int] < 256;
        }
        v = v * 256 + s[i] as u128;
        i = i + 1;
    }
    v
}

impl NodeId {
    /// The 30-byte encoding: tag byte, then the payload big-endian.
    pub fn to_bytes(&self) -> (r: Vec<u8>)
        ensures
            r@ == node_id_bytes(*self),
            r@.len() == NODE_ID_LENGTH,
    {
        let mut r: Vec<u8> = Vec::new();
        r.push(self.entity_byte);
        let mut h = encode_be(self.high, 13);
        let mut l = encode_be(self.low, 16);
        r.append(&mut h);
        r.append(&mut l);
        proof {
            lemma_be_round_trip(self.high as nat, 13);
            lemma_be_round_trip(self.low as nat, 16);
            assert(r@ =~= node_id_bytes(*self));
        }
        r
    }

    /// The node id that `bytes` encode; `None` unless they are 30 bytes long.
    pub fn from_bytes(bytes: &Vec<u8>) -> (r: Option<NodeId>)
        ensures
            r == node_id_from(bytes@),
    {
        if bytes.len() != NODE_ID_LENGTH {
            return None;
        }
        let high = decode_be(bytes, 1, 14);
        let low = decode_be(bytes, 14, 30);
        Some(NodeId { entity_byte: bytes[0], high, low })
    }
}

/// Decoding an encoded node id gives it back, and the encoding has its fixed length.
pub proof fn lemma_node_id_round_trip(n: NodeId)
    requires
        node_id_wf(n),
    ensures
        node_id_from(node_id_bytes(n)) == Some(n),
        node_id_bytes(n).len() == NODE_ID_LENGTH,
{
    let b = node_id_bytes(n);
    lemma_be_round_trip(n.high as nat, 13);
    lemma_be_round_trip(n.low as nat, 16);
    lemma_pow256_values();
    assert(b.subrange(1, 14) =~= be_bytes(n.high as nat, 13));
    assert(b.subrange(14, 30) =~= be_bytes(n.low as nat, 16));
    assert((n.high as nat) % pow256(13) == n.high);
    assert((n.low as nat) % pow256(16) == n.low);
}

} // verus!
