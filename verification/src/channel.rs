use vstd::prelude::*;
use crate::merkle::{sha256, sha256_of};
use crate::proofs::Proof;

verus! {

/// The four bytes of a 32-bit value, least significant first.
pub open spec fn u32_le(v: u32) -> Seq<u8> {
    seq![v as u8, (v >> 8) as u8, (v >> 16) as u8, (v >> 24) as u8]
}

/// The eight bytes of a 64-bit value, least significant first.
pub open spec fn u64_le(v: u64) -> Seq<u8> {
    seq![
        v as u8,
        (v >> 8) as u8,
        (v >> 16) as u8,
        (v >> 24) as u8,
        (v >> 32) as u8,
        (v >> 40) as u8,
        (v >> 48) as u8,
        (v >> 56) as u8,
    ]
}

/// The value read from four bytes taken most significant first.
pub open spec fn be_val(s: Seq<u8>) -> int {
    s[0] * 0x100_0000 + s[1] * 0x1_0000 + s[2] * 0x100 + s[3]
}

/// The wire form of a digest: a 4-byte length prefix holding 32,
/// then the 32 raw bytes.
pub open spec fn enc_digest(d: Seq<u8>) -> Seq<u8> {
    u32_le(32) + d
}

/// The concatenated wire forms of a list of digests.
pub open spec fn enc_digests(p: Seq<Seq<u8>>) -> Seq<u8>
    decreases p.len(),
{
    if p.len() == 0 {
        Seq::empty()
    } else {
        enc_digest(p[0]) + enc_digests(p.subrange(1, p.len() as int))
    }
}

/// The wire form of an authentication path: an 8-byte count followed
/// by each digest in its wire form.
pub open spec fn enc_path(p: Seq<Seq<u8>>) -> Seq<u8> {
    u64_le(p.len() as u64) + enc_digests(p)
}

/// Serializes a 32-bit value as four little-endian bytes.
pub fn encode_u32(v: u32) -> (r: Vec<u8>)
    ensures
        r@ == u32_le(v),
{
    let mut r: Vec<u8> = Vec::new();
    r.push(#[verifier::truncate] (v as u8));
    r.push(#[verifier::truncate] ((v >> 8) as u8));
    r.push(#[verifier::truncate] ((v >> 16) as u8));
    r.push(#[verifier::truncate] ((v >> 24) as u8));
    proof {
        assert(r@ =~= u32_le(v));
    }
    r
}

/// Serializes a 64-bit value as eight little-endian bytes.
pub fn encode_u64(v: u64) -> (r: Vec<u8>)
    ensures
        r@ == u64_le(v),
{
    let mut r: Vec<u8> = Vec::new();
    r.push(#[verifier::truncate] (v as u8));
    r.push(#[verifier::truncate] ((v >> 8) as u8));
    r.push(#[verifier::truncate] ((v >> 16) as u8));
    r.push(#[verifier::truncate] ((v >> 24) as u8));
    r.push(#[verifier::truncate] ((v >> 32) as u8));
    r.push(#[verifier::truncate] ((v >> 40) as u8));
    r.push(#[verifier::truncate] ((v >> 48) as u8));
    r.push(#[verifier::truncate] ((v >> 56) as u8));
    proof {
        assert(r@ =~= u64_le(v));
    }
    r
}

/// Serializes a digest in its wire form.
pub fn encode_digest(d: &Vec<u8>) -> (r: Vec<u8>)
    requires
        d@.len() == 32,
    ensures
        r@ == enc_digest(d@),
{
    let mut r = encode_u32(32);
    let mut copy = d.clone();
    r.append(&mut copy);
    proof {
        assert(r@ =~= enc_digest(d@));
    }
    r
}

/// Serializes an authentication path in its wire form.
#[verifier::loop_isolation(false)]
pub fn encode_path(p: &Vec<Vec<u8>>) -> (r: Vec<u8>)
    requires
        forall|i: int| 0 <= i < p@.len() ==> (#[trigger] p@[i])@.len() == 32,
    ensures
        r@ == enc_path(p@.map_values(|v: Vec<u8>| v@)),
{
    let ghost mapped = p@.map_values(|v: Vec<u8>| v@);
    let mut r = encode_u64(p.len() as u64);
    let mut i: usize = 0;
    proof {
        assert(mapped.subrange(0, mapped.len() as int) =~= mapped);
    }
    while i < p.len()
        invariant
            i <= p@.len(),
            r@ + enc_digests(mapped.subrange(i as int, mapped.len() as int)) == enc_path(mapped),
        decreases p@.len() - i,
    {
        let ghost pre = r@;
        let ghost rest = mapped.subrange(i as int, mapped.len() as int);
        let mut d = encode_digest(&p[i]);
        r.append(&mut d);
        proof {
            assert(rest[0] == mapped[i as int]);
            assert(rest.subrange(1, rest.len() as int) =~= mapped.subrange(
                i + 1,
                mapped.len() as int,
            ));
            assert(r@ =~= pre + enc_digest(mapped[i as int]));
            assert(pre + enc_digest(mapped[i as int]) + enc_digests(
                mapped.subrange(i + 1, mapped.len() as int),
            ) =~= pre + (enc_digest(mapped[i as int]) + enc_digests(
                mapped.subrange(i + 1, mapped.len() as int),
            )));
        }
        i = i + 1;
    }
    proof {
        assert(mapped.subrange(mapped.len() as int, mapped.len() as int)
            =~= Seq::<Seq<u8>>::empty());
        assert(r@ + Seq::<u8>::empty() =~= r@);
    }
    r
}

/// The Fiat-Shamir transcript: a running SHA-256 accumulator over
/// every committed message, and the raw log of those messages.
pub struct Channel {
    pub state: Vec<u8>,
    pub data: Vec<u8>,
}

impl Channel {
    /// The accumulator always holds one digest.
    pub open spec fn wf(self) -> bool {
        self.state@.len() == 32
    }

    /// A fresh transcript: a zeroed accumulator and an empty log.
    pub fn new() -> (r: Channel)
        ensures
            r.wf(),
            r.state@ == Seq::new(32, |i: int| 0u8),
            r.data@ == Seq::<u8>::empty(),
    {
        let state: Vec<u8> = vec![0u8; 32];
        proof {
            assert(state@ =~= Seq::new(32, |i: int| 0u8));
        }
        Channel { state, data: Vec::new() }
    }

    /// Absorbs a message: appends its bytes to the log and chains the
    /// accumulator as SHA-256 of the old accumulator and the message.
    pub fn commit(&mut self, bytes: &Vec<u8>)
        requires
            old(self).wf(),
        ensures
            final(self).wf(),
            final(self).data@ == old(self).data@ + bytes@,
            final(self).state@ == sha256_of(old(self).state@ + bytes@),
    {
        let mut buf = self.state.clone();
        let mut msg = bytes.clone();
        buf.append(&mut msg);
        proof {
            assert(buf@ =~= old(self).state@ + bytes@);
        }
        self.state = sha256(&buf);
        let mut msg2 = bytes.clone();
        self.data.append(&mut msg2);
    }

    /// Squeezes a challenge: reads the accumulator's first four bytes
    /// as a big-endian value, then absorbs that value so later
    /// challenges depend on it.
    pub fn get_u32(&mut self) -> (r: u32)
        requires
            old(self).wf(),
        ensures
            final(self).wf(),
            r == be_val(old(self).state@),
            final(self).data@ == old(self).data@ + u32_le(r),
            final(self).state@ == sha256_of(old(self).state@ + u32_le(r)),
    {
        let b0 = self.state[0];
        let b1 = self.state[1];
        let b2 = self.state[2];
        let b3 = self.state[3];
        let f: u32 = (b0 as u32) * 0x100_0000 + (b1 as u32) * 0x1_0000 + (b2 as u32) * 0x100 + (
        b3 as u32);
        let enc = encode_u32(f);
        self.commit(&enc);
        f
    }

    /// Consumes the transcript into the proof it carries.
    pub fn finalize(self) -> (r: Proof)
        requires
            self.wf(),
        ensures
            r.state@ == self.state@,
            r.data@ == self.data@,
    {
        Proof::new(self.state, self.data)
    }
}

} // verus!
