use vstd::prelude::*;

verus! {

/// The number of bytes of a key.
pub const KEY_BYTES: usize = 12;

/// The integer that a byte sequence spells in big-endian order.
pub open spec fn be_value(s: Seq<u8>) -> nat
    decreases s.len(),
{
    if s.len() == 0 {
        0
    } else {
        be_value(s.drop_last()) * 256 + s.last() as nat
    }
}

/// The bound on the value of a key: 2 to the 96th.
pub open spec fn key_bound() -> nat {
    0x1_0000_0000_0000_0000_0000_0000
}

/// A 96-bit document identifier. Keys are ordered by their big-endian byte
/// representation, that is by `id`; the first four bytes hold the seconds
/// since the epoch at which the key was made.
#[derive(PartialEq, Eq, Structural, Clone, Copy, Debug, Hash, PartialOrd, Ord)]
pub struct Key {
    pub id: u128,
}

/// Relies on `bson::oid::ObjectId::new`: a fresh object id (seconds since the
/// epoch, a process value and a counter), as its twelve bytes.
#[verifier::external_body]
fn fresh_object_id() -> (r: [u8; 12]) {
    bson::oid::ObjectId::new().bytes()
}

/// Relies on `bson::DateTime::now`: the current time, in milliseconds since
/// the epoch.
#[verifier::external_body]
pub(crate) fn now_millis() -> (r: i64) {
    bson::DateTime::now().timestamp_millis()
}

proof fn lemma_be_value_bound(s: Seq<u8>)
    ensures
        be_value(s) < pow256(s.len()),
    decreases s.len(),
{
    if s.len() > 0 {
        lemma_be_value_bound(s.drop_last());
        assert(be_value(s.drop_last()) * 256 + (s.last() as nat) < pow256((s.len() - 1) as nat) * 256)
            by (nonlinear_arith)
            requires
                be_value(s.drop_last()) < pow256((s.len() - 1) as nat),
                s.last() < 256,
        ;
    }
}

/// 256 to the power `n`.
pub open spec fn pow256(n: nat) -> nat
    decreases n,
{
    if n == 0 {
        1
    } else {
        pow256((n - 1) as nat) * 256
    }
}

/// Big-endian byte sequences of one length are equal when their values are.
proof fn lemma_be_value_injective(s: Seq<u8>, t: Seq<u8>)
    requires
        s.len() == t.len(),
        be_value(s) == be_value(t),
    ensures
        s == t,
    decreases s.len(),
{
    if s.len() > 0 {
        let a = be_value(s.drop_last());
        let b = be_value(t.drop_last());
        let x = s.last() as nat;
        let y = t.last() as nat;
        assert(a * 256 + x == b * 256 + y);
        assert(x == y && a == b) by (nonlinear_arith)
            requires
                a * 256 + x == b * 256 + y,
                x < 256,
                y < 256,
        ;
        lemma_be_value_injective(s.drop_last(), t.drop_last());
        assert(s =~= s.drop_last().push(s.last()));
        assert(t =~= t.drop_last().push(t.last()));
    }
}

/// The twelve big-endian bytes of a 96-bit key.
pub open spec fn key_bytes(k: Key) -> Seq<u8> {
    choose|s: Seq<u8>| s.len() == 12 && be_value(s) == k.id
}

impl Key {
    /// Whether the key fits in 96 bits, as every key made from twelve bytes does.
    pub open spec fn wf(self) -> bool {
        self.id < key_bound()
    }

    /// The seconds since the epoch held in the first four bytes.
    pub open spec fn seconds(self) -> nat {
        (self.id as nat / 0x1_0000_0000_0000_0000) % 0x1_0000_0000
    }

    /// The key whose big-endian representation is `bytes`.
    pub fn from_bytes(bytes: [u8; 12]) -> (r: Key)
        ensures
            r.id == be_value(bytes@),
            r.wf(),
    {
        let mut id: u128 = 0;
        let mut i: usize = 0;
        while i < KEY_BYTES
            invariant
                0 <= i <= KEY_BYTES,
                bytes@.len() == KEY_BYTES,
                id == be_value(bytes@.subrange(0, i as int)),
            decreases KEY_BYTES - i,
        {
            proof {
                lemma_be_value_bound(bytes@.subrange(0, i as int));
                assert(pow256(i as nat) <= pow256(11)) by {
                    lemma_pow256_mono(i as nat, 11);
                }
                lemma_pow256_values();
                assert(bytes@.subrange(0, i + 1).drop_last() == bytes@.subrange(0, i as int));
            }
            id = id * 256 + bytes[i] as u128;
            i = i + 1;
        }
        proof {
            assert(bytes@.subrange(0, 12) == bytes@);
            lemma_be_value_bound(bytes@);
            lemma_pow256_values();
        }
        Key { id }
    }

    /// The twelve big-endian bytes of the key.
    pub fn to_bytes(&self) -> (r: [u8; 12])
        requires
            self.wf(),
        ensures
            be_value(r@) == self.id,
            r@ == key_bytes(*self),
    {
        proof {
            lemma_pow256_values();
        }
        let mut bytes: [u8; 12] = [0u8; 12];
        let mut rest: u128 = self.id;
        let mut i: usize = KEY_BYTES;
        proof {
            assert(bytes@.subrange(12, 12) =~= Seq::<u8>::empty());
            assert(pow256(0) == 1);
            assert(be_value(bytes@.subrange(12, 12)) == 0);
            assert(rest * pow256(0) == rest);
        }
        while i > 0
            invariant
                0 <= i <= KEY_BYTES,
                bytes@.len() == KEY_BYTES,
                rest < pow256(i as nat),
                self.id == rest * pow256((KEY_BYTES - i) as nat) + be_value(bytes@.subrange(i as int, 12)),
            decreases i,
        {
            let b: u8 = (rest % 256) as u8;
            let ghost old_bytes = bytes@;
            let ghost old_rest = rest;
            bytes[i - 1] = b;
            rest = rest / 256;
            proof {
                assert(bytes@.subrange(i - 1, 12) =~= seq![b] + old_bytes.subrange(i as int, 12));
                lemma_be_value_tail(bytes@.subrange(i - 1, 12), old_bytes.subrange(i as int, 12), b);
                assert(bytes@.subrange(i as int, 12) == old_bytes.subrange(i as int, 12));
                lemma_to_bytes_step(old_rest, b, (KEY_BYTES - i) as nat, be_value(old_bytes.subrange(i as int, 12)));
                assert(pow256(i as nat) == pow256((i - 1) as nat) * 256);
                assert(rest < pow256((i - 1) as nat)) by (nonlinear_arith)
                    requires
                        rest == old_rest / 256,
                        old_rest < pow256((i - 1) as nat) * 256,
                ;
            }
            i = i - 1;
        }
        proof {
            assert(bytes@.subrange(0, 12) == bytes@);
            assert(rest == 0);
            assert(bytes@.len() == 12 && be_value(bytes@) == self.id);
            let k = key_bytes(*self);
            lemma_be_value_injective(k, bytes@);
        }
        bytes
    }

    /// A fresh key: its first four bytes hold the seconds since the epoch now.
    pub fn generate() -> (r: Key)
        ensures
            r.wf(),
    {
        Key::from_bytes(fresh_object_id())
    }

    /// The time the key was made, in milliseconds since the epoch: its
    /// seconds times a thousand.
    pub fn timestamp_millis(&self) -> (r: i64)
        ensures
            r == self.seconds() * 1000,
    {
        let secs: u32 = ((self.id / 0x1_0000_0000_0000_0000) % 0x1_0000_0000) as u32;
        secs as i64 * 1000
    }
}

proof fn lemma_pow256_values()
    ensures
        pow256(11) == 0x100_0000_0000_0000_0000_0000,
        pow256(12) == key_bound(),
{
    assert(pow256(0) == 1);
    assert(pow256(1) == 0x100);
    assert(pow256(2) == 0x1_0000);
    assert(pow256(3) == 0x100_0000);
    assert(pow256(4) == 0x1_0000_0000);
    assert(pow256(5) == 0x100_0000_0000);
    assert(pow256(6) == 0x1_0000_0000_0000);
    assert(pow256(7) == 0x100_0000_0000_0000);
    assert(pow256(8) == 0x1_0000_0000_0000_0000);
    assert(pow256(9) == 0x100_0000_0000_0000_0000);
    assert(pow256(10) == 0x1_0000_0000_0000_0000_0000);
    assert(pow256(11) == 0x100_0000_0000_0000_0000_0000);
    assert(pow256(12) == 0x1_0000_0000_0000_0000_0000_0000);
}

proof fn lemma_pow256_mono(a: nat, b: nat)
    requires
        a <= b,
    ensures
        pow256(a) <= pow256(b),
    decreases b,
{
    if a < b {
        lemma_pow256_mono(a, (b - 1) as nat);
    }
}

/// `be_value` of a byte followed by `tail`.
proof fn lemma_be_value_tail(s: Seq<u8>, tail: Seq<u8>, b: u8)
    requires
        s == seq![b] + tail,
    ensures
        be_value(s) == b as nat * pow256(tail.len()) + be_value(tail),
    decreases tail.len(),
{
    if tail.len() == 0 {
        assert(s.drop_last() =~= Seq::<u8>::empty());
        assert(be_value(s) == be_value(s.drop_last()) * 256 + s.last() as nat);
        assert(s.last() == b);
    } else {
        assert(s.drop_last() =~= seq![b] + tail.drop_last());
        lemma_be_value_tail(s.drop_last(), tail.drop_last(), b);
        assert(s.last() == tail.last());
        assert(pow256(tail.len()) == pow256((tail.len() - 1) as nat) * 256);
        assert(be_value(s) == be_value(s.drop_last()) * 256 + s.last() as nat);
        assert(be_value(tail) == be_value(tail.drop_last()) * 256 + tail.last() as nat);
        assert((b as nat * pow256((tail.len() - 1) as nat) + be_value(tail.drop_last())) * 256
            + tail.last() as nat == b as nat * (pow256((tail.len() - 1) as nat) * 256)
            + (be_value(tail.drop_last()) * 256 + tail.last() as nat)) by (nonlinear_arith);
    }
}

proof fn lemma_to_bytes_step(rest: u128, b: u8, k: nat, v: nat)
    requires
        b == rest % 256,
    ensures
        rest * pow256(k) + v == (rest / 256) * pow256(k + 1) + (b as nat * pow256(k) + v),
{
    assert(pow256(k + 1) == pow256(k) * 256);
    assert(rest == (rest / 256) * 256 + rest % 256);
    assert(rest * pow256(k) == ((rest / 256) * 256 + b as nat) * pow256(k));
    assert(((rest / 256) * 256 + b as nat) * pow256(k) == (rest / 256) * (pow256(k) * 256) + b as nat * pow256(k))
        by (nonlinear_arith);
}

} // verus!
