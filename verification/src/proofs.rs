use vstd::prelude::*;
use crate::channel::{be_val, enc_digest, enc_digests, enc_path, u32_le, u64_le, Channel};
use crate::field::{fpow, generator_candidate, is_prime_u32, Gf};
use crate::merkle::{compute_root_from_path, leaf_hash, root_from_path};

verus! {

/// Names the opening whose authentication path failed to reproduce
/// the committed root: one of the three trace openings, the
/// composition opening, or a FRI layer's opening at the point or its
/// negation.
#[derive(Clone, Copy, Debug, PartialEq, Eq)]
pub enum PathTag {
    Fx,
    Fgx,
    Fggx,
    Cp0x,
    FriX(u8),
    FriNx(u8),
}

/// Why a proof was rejected: the transcript bytes do not parse or do
/// not match the recomputed challenges, the algebraic identity at the
/// query point fails (carrying the recomputed value), or an
/// authentication path does not reproduce its root.
#[derive(Clone, Copy, Debug, PartialEq, Eq)]
pub enum VerifyError {
    Malformed,
    CompositionMismatch(u32),
    AuthPathMismatch(PathTag),
}

/// Whether two byte vectors hold the same bytes.
#[verifier::loop_isolation(false)]
pub fn eq_bytes(a: &Vec<u8>, b: &Vec<u8>) -> (r: bool)
    ensures
        r == (a@ == b@),
{
    if a.len() != b.len() {
        proof {
            assert(a@ != b@);
        }
        return false;
    }
    let mut i: usize = 0;
    while i < a.len()
        invariant
            i <= a@.len(),
            a@.len() == b@.len(),
            forall|j: int| 0 <= j < i ==> a@[j] == b@[j],
        decreases a.len() - i,
    {
        if a[i] != b[i] {
            proof {
                assert(a@[i as int] != b@[i as int]);
            }
            return false;
        }
        i = i + 1;
    }
    proof {
        assert(a@ =~= b@);
    }
    true
}

/// Reads `n` raw bytes.
#[verifier::loop_isolation(false)]
fn read_bytes(data: &Vec<u8>, pos: usize, n: usize) -> (r: Option<(Vec<u8>, usize)>)
    requires
        pos <= data@.len(),
    ensures
        match r {
            Some(t) => t.1 == pos + n && t.1 <= data@.len() && t.0@ == data@.subrange(
                pos as int,
                t.1 as int,
            ),
            None => pos + n > data@.len(),
        },
{
    if n > data.len() - pos {
        return None;
    }
    let mut v: Vec<u8> = Vec::new();
    while v.len() < n
        invariant
            v@.len() <= n,
            pos + n <= data@.len(),
            forall|j: int| 0 <= j < v@.len() ==> v@[j] == data@[pos + j],
        decreases n - v.len(),
    {
        v.push(data[pos + v.len()]);
    }
    proof {
        assert(v@ =~= data@.subrange(pos as int, (pos + n) as int));
    }
    Some((v, pos + n))
}

/// Reads a little-endian 32-bit value.
fn read_u32(data: &Vec<u8>, pos: usize) -> (r: Option<(u32, usize)>)
    requires
        pos <= data@.len(),
    ensures
        match r {
            Some(t) => t.1 == pos + 4 && t.1 <= data@.len() && data@.subrange(
                pos as int,
                t.1 as int,
            ) == u32_le(t.0),
            None => pos + 4 > data@.len(),
        },
{
    if 4 > data.len() - pos {
        return None;
    }
    let c0 = data[pos] as u32;
    let c1 = data[pos + 1] as u32;
    let c2 = data[pos + 2] as u32;
    let c3 = data[pos + 3] as u32;
    let v: u32 = c0 + c1 * 0x100 + c2 * 0x1_0000 + c3 * 0x100_0000;
    proof {
        assert(v as u8 == c0 && (v >> 8) as u8 == c1 && (v >> 16) as u8 == c2 && (v >> 24) as u8
            == c3) by (bit_vector)
            requires
                v == c0 + c1 * 0x100 + c2 * 0x1_0000 + c3 * 0x100_0000,
                c0 < 0x100,
                c1 < 0x100,
                c2 < 0x100,
                c3 < 0x100,
        ;
        assert(data@.subrange(pos as int, (pos + 4) as int) =~= u32_le(v));
    }
    Some((v, pos + 4))
}

/// Reads a little-endian 64-bit value.
fn read_u64(data: &Vec<u8>, pos: usize) -> (r: Option<(u64, usize)>)
    requires
        pos <= data@.len(),
    ensures
        match r {
            Some(t) => t.1 == pos + 8 && t.1 <= data@.len() && data@.subrange(
                pos as int,
                t.1 as int,
            ) == u64_le(t.0),
            None => pos + 8 > data@.len(),
        },
{
    if 8 > data.len() - pos {
        return None;
    }
    let c0 = data[pos] as u64;
    let c1 = data[pos + 1] as u64;
    let c2 = data[pos + 2] as u64;
    let c3 = data[pos + 3] as u64;
    let c4 = data[pos + 4] as u64;
    let c5 = data[pos + 5] as u64;
    let c6 = data[pos + 6] as u64;
    let c7 = data[pos + 7] as u64;
    let v: u64 = c0 + c1 * 0x100 + c2 * 0x1_0000 + c3 * 0x100_0000 + c4 * 0x1_0000_0000 + c5
        * 0x100_0000_0000 + c6 * 0x1_0000_0000_0000 + c7 * 0x100_0000_0000_0000;
    proof {
        assert(v as u8 == c0 && (v >> 8) as u8 == c1 && (v >> 16) as u8 == c2 && (v >> 24) as u8
            == c3 && (v >> 32) as u8 == c4 && (v >> 40) as u8 == c5 && (v >> 48) as u8 == c6 && (
        v >> 56) as u8 == c7) by (bit_vector)
            requires
                v == c0 + c1 * 0x100 + c2 * 0x1_0000 + c3 * 0x100_0000 + c4 * 0x1_0000_0000 + c5
                    * 0x100_0000_0000 + c6 * 0x1_0000_0000_0000 + c7 * 0x100_0000_0000_0000,
                c0 < 0x100,
                c1 < 0x100,
                c2 < 0x100,
                c3 < 0x100,
                c4 < 0x100,
                c5 < 0x100,
                c6 < 0x100,
                c7 < 0x100,
        ;
        assert(data@.subrange(pos as int, (pos + 8) as int) =~= u64_le(v));
    }
    Some((v, pos + 8))
}

/// Reads a digest in its wire form: a 4-byte length prefix of 32,
/// then the 32 raw bytes.
fn read_digest(data: &Vec<u8>, pos: usize) -> (r: Option<(Vec<u8>, usize)>)
    requires
        pos <= data@.len(),
    ensures
        match r {
            Some(t) => t.1 == pos + 36 && t.1 <= data@.len() && t.0@.len() == 32
                && data@.subrange(pos as int, t.1 as int) == enc_digest(t.0@),
            None => true,
        },
{
    let (len, p1) = match read_u32(data, pos) {
        Some(t) => t,
        None => {
            return None;
        },
    };
    if len != 32 {
        return None;
    }
    let (d, p2) = match read_bytes(data, p1, 32) {
        Some(t) => t,
        None => {
            return None;
        },
    };
    proof {
        assert(data@.subrange(pos as int, p2 as int) =~= data@.subrange(pos as int, p1 as int)
            + data@.subrange(p1 as int, p2 as int));
        assert(data@.subrange(pos as int, p2 as int) == enc_digest(d@));
    }
    Some((d, p2))
}

/// Appending one digest to a digest list extends its wire form.
proof fn lemma_enc_digests_push(s: Seq<Seq<u8>>, d: Seq<u8>)
    ensures
        enc_digests(s.push(d)) == enc_digests(s) + enc_digest(d),
    decreases s.len(),
{
    if s.len() == 0 {
        assert(s.push(d)[0] == d);
        assert(s.push(d).subrange(1, 1) =~= Seq::<Seq<u8>>::empty());
        assert(enc_digests(Seq::<Seq<u8>>::empty()) == Seq::<u8>::empty());
        assert(enc_digests(s.push(d)) == enc_digest(d) + enc_digests(Seq::<Seq<u8>>::empty()));
        assert(enc_digest(d) + Seq::<u8>::empty() =~= enc_digest(d));
        assert(enc_digests(s) + enc_digest(d) =~= enc_digest(d));
    } else {
        let t = s.subrange(1, s.len() as int);
        lemma_enc_digests_push(t, d);
        assert(s.push(d).subrange(1, s.push(d).len() as int) =~= t.push(d));
        assert(s.push(d)[0] == s[0]);
        assert(enc_digest(s[0]) + (enc_digests(t) + enc_digest(d)) =~= enc_digest(s[0])
            + enc_digests(t) + enc_digest(d));
    }
}

/// Reads an authentication path in its wire form: an 8-byte count and
/// that many digests.
#[verifier::loop_isolation(false)]
fn read_path(data: &Vec<u8>, pos: usize) -> (r: Option<(Vec<Vec<u8>>, usize)>)
    requires
        pos <= data@.len(),
    ensures
        match r {
            Some(t) => pos <= t.1 <= data@.len() && data@.subrange(pos as int, t.1 as int)
                == enc_path(t.0@.map_values(|v: Vec<u8>| v@)) && (forall|i: int|
                0 <= i < t.0@.len() ==> (#[trigger] t.0@[i])@.len() == 32),
            None => true,
        },
{
    let (cnt, p1) = match read_u64(data, pos) {
        Some(t) => t,
        None => {
            return None;
        },
    };
    let remaining = data.len() - p1;
    if cnt > (remaining / 36) as u64 {
        return None;
    }
    let n = cnt as usize;
    let mut p: Vec<Vec<u8>> = Vec::new();
    let mut cur = p1;
    while p.len() < n
        invariant
            p@.len() <= n,
            p1 <= cur <= data@.len(),
            n == cnt,
            data@.subrange(p1 as int, cur as int) == enc_digests(p@.map_values(|v: Vec<u8>| v@)),
            forall|i: int| 0 <= i < p@.len() ==> (#[trigger] p@[i])@.len() == 32,
        decreases n - p.len(),
    {
        let ghost mapped_pre = p@.map_values(|v: Vec<u8>| v@);
        let (d, np) = match read_digest(data, cur) {
            Some(t) => t,
            None => {
                return None;
            },
        };
        p.push(d);
        proof {
            lemma_enc_digests_push(mapped_pre, d@);
            assert(p@.map_values(|v: Vec<u8>| v@) =~= mapped_pre.push(d@));
            assert(data@.subrange(p1 as int, np as int) =~= data@.subrange(p1 as int, cur as int)
                + data@.subrange(cur as int, np as int));
        }
        cur = np;
    }
    proof {
        let mapped = p@.map_values(|v: Vec<u8>| v@);
        assert(mapped.len() == n);
        assert(u64_le(mapped.len() as u64) == u64_le(cnt));
        assert(data@.subrange(pos as int, cur as int) =~= data@.subrange(pos as int, p1 as int)
            + data@.subrange(p1 as int, cur as int));
        assert(data@.subrange(pos as int, cur as int) == enc_path(mapped));
    }
    Some((p, cur))
}

/// Absorbs an already-parsed byte range into the replay transcript.
#[verifier::loop_isolation(false)]
fn absorb_range(ch: &mut Channel, data: &Vec<u8>, a: usize, b: usize)
    requires
        old(ch).wf(),
        a <= b <= data@.len(),
    ensures
        final(ch).wf(),
        final(ch).data@ == old(ch).data@ + data@.subrange(a as int, b as int),
        final(ch).state@ == crate::merkle::sha256_of(
            old(ch).state@ + data@.subrange(a as int, b as int),
        ),
{
    let (bytes, _) = match read_bytes(data, a, b - a) {
        Some(t) => t,
        None => {
            proof {
                assert(false);
            }
            (Vec::new(), 0)
        },
    };
    ch.commit(&bytes);
}

/// Squeezes the next challenge from the replay transcript and checks
/// that the proof recorded the same value.
fn expect_challenge(ch: &mut Channel, data: &Vec<u8>, pos: usize) -> (r: Option<(u32, usize)>)
    requires
        old(ch).wf(),
        pos <= data@.len(),
    ensures
        final(ch).wf(),
        match r {
            Some(t) => t.1 == pos + 4 && t.1 <= data@.len() && t.0 == be_val(old(ch).state@)
                && data@.subrange(pos as int, t.1 as int) == u32_le(t.0) && final(ch).state@
                == crate::merkle::sha256_of(old(ch).state@ + u32_le(t.0)),
            None => true,
        },
{
    let cv = ch.get_u32();
    let (pv, np) = match read_u32(data, pos) {
        Some(t) => t,
        None => {
            return None;
        },
    };
    if pv != cv {
        return None;
    }
    Some((cv, np))
}

/// An opened value authenticates: its path has a workable length,
/// the index lies under the tree the path implies, and hashing back
/// up the path reproduces the committed root.
pub open spec fn opening_authenticated(
    value: u32,
    index: usize,
    path: Seq<Seq<u8>>,
    root: Seq<u8>,
) -> bool {
    &&& path.len() < 32
    &&& index < (1usize << path.len() as usize)
    &&& root_from_path(
        leaf_hash(value),
        index + (1usize << path.len() as usize) - 1,
        path,
    ) == root
}

/// Recomputes the root from an opening and compares it with a
/// commitment.
fn path_ok(value: u32, index: usize, path: &Vec<Vec<u8>>, root: &Vec<u8>) -> (r: bool)
    requires
        forall|i: int| 0 <= i < path@.len() ==> (#[trigger] path@[i])@.len() == 32,
    ensures
        r == opening_authenticated(value, index, path@.map_values(|v: Vec<u8>| v@), root@),
{
    if path.len() >= 32 {
        return false;
    }
    if !(index < (1usize << path.len())) {
        return false;
    }
    let computed = compute_root_from_path(value, index, path);
    eq_bytes(&computed, root)
}

/// The parsed contents of a proof's byte log, in commit order.
pub struct Transcript {
    pub f_root: Vec<u8>,
    pub alpha0: u32,
    pub alpha1: u32,
    pub alpha2: u32,
    pub cp_root: Vec<u8>,
    pub betas: Vec<u32>,
    pub fri_roots: Vec<Vec<u8>>,
    pub free_term: u32,
    pub raw_query: u32,
    pub openings: Vec<(u32, Vec<Vec<u8>>)>,
    pub layers: Vec<(u32, Vec<Vec<u8>>, u32, Vec<Vec<u8>>)>,
}

impl Transcript {
    /// The counts and digest widths the protocol fixes.
    pub open spec fn wf(self) -> bool {
        &&& self.f_root@.len() == 32
        &&& self.cp_root@.len() == 32
        &&& self.betas@.len() == 10
        &&& self.fri_roots@.len() == 10
        &&& forall|j: int| 0 <= j < 10 ==> (#[trigger] self.fri_roots@[j])@.len() == 32
        &&& self.openings@.len() == 4
        &&& forall|j: int, l: int|
            0 <= j < 4 && 0 <= l < (#[trigger] self.openings@[j]).1@.len() ==> (
            #[trigger] self.openings@[j].1@[l])@.len() == 32
        &&& self.layers@.len() == 10
        &&& forall|j: int, l: int|
            0 <= j < 10 && 0 <= l < (#[trigger] self.layers@[j]).1@.len() ==> (
            #[trigger] self.layers@[j].1@[l])@.len() == 32
        &&& forall|j: int, l: int|
            0 <= j < 10 && 0 <= l < (#[trigger] self.layers@[j]).3@.len() ==> (
            #[trigger] self.layers@[j].3@[l])@.len() == 32
    }
}

/// The wire form of the ten FRI rounds: each folding coefficient
/// followed by that layer's commitment.
pub open spec fn enc_rounds(betas: Seq<u32>, roots: Seq<Seq<u8>>) -> Seq<u8>
    decreases betas.len(),
{
    if betas.len() == 0 {
        Seq::empty()
    } else {
        u32_le(betas[0]) + enc_digest(roots[0]) + enc_rounds(
            betas.subrange(1, betas.len() as int),
            roots.subrange(1, roots.len() as int),
        )
    }
}

/// The wire form of the trace-side openings: each value followed by
/// its authentication path.
pub open spec fn enc_openings(s: Seq<(u32, Vec<Vec<u8>>)>) -> Seq<u8>
    decreases s.len(),
{
    if s.len() == 0 {
        Seq::empty()
    } else {
        u32_le(s[0].0) + enc_path(s[0].1@.map_values(|v: Vec<u8>| v@)) + enc_openings(
            s.subrange(1, s.len() as int),
        )
    }
}

/// The wire form of the FRI layer openings: the value and path at the
/// query point, then the value and path at its negation.
pub open spec fn enc_layers(s: Seq<(u32, Vec<Vec<u8>>, u32, Vec<Vec<u8>>)>) -> Seq<u8>
    decreases s.len(),
{
    if s.len() == 0 {
        Seq::empty()
    } else {
        u32_le(s[0].0) + enc_path(s[0].1@.map_values(|v: Vec<u8>| v@)) + u32_le(s[0].2)
            + enc_path(s[0].3@.map_values(|v: Vec<u8>| v@)) + enc_layers(
            s.subrange(1, s.len() as int),
        )
    }
}

/// The whole proof log: every commitment and opening in commit order.
pub open spec fn enc_transcript(t: Transcript) -> Seq<u8> {
    enc_digest(t.f_root@) + u32_le(t.alpha0) + u32_le(t.alpha1) + u32_le(t.alpha2) + enc_digest(
        t.cp_root@,
    ) + enc_rounds(t.betas@, t.fri_roots@.map_values(|v: Vec<u8>| v@)) + u32_le(t.free_term)
        + u32_le(t.raw_query) + enc_openings(t.openings@) + enc_layers(t.layers@)
}

/// Appending one round extends the rounds' wire form.
pub(crate) proof fn lemma_enc_rounds_push(betas: Seq<u32>, roots: Seq<Seq<u8>>, b: u32, d: Seq<u8>)
    requires
        betas.len() == roots.len(),
    ensures
        enc_rounds(betas.push(b), roots.push(d)) == enc_rounds(betas, roots) + (u32_le(b)
            + enc_digest(d)),
    decreases betas.len(),
{
    if betas.len() == 0 {
        assert(betas.push(b).subrange(1, 1) =~= Seq::<u32>::empty());
        assert(roots.push(d).subrange(1, 1) =~= Seq::<Seq<u8>>::empty());
        assert(enc_rounds(Seq::<u32>::empty(), Seq::<Seq<u8>>::empty()) == Seq::<u8>::empty());
        assert(enc_rounds(betas.push(b), roots.push(d)) =~= u32_le(b) + enc_digest(d));
        assert(enc_rounds(betas, roots) + (u32_le(b) + enc_digest(d)) =~= u32_le(b) + enc_digest(
            d,
        ));
    } else {
        lemma_enc_rounds_push(
            betas.subrange(1, betas.len() as int),
            roots.subrange(1, roots.len() as int),
            b,
            d,
        );
        assert(betas.push(b).subrange(1, betas.push(b).len() as int) =~= betas.subrange(
            1,
            betas.len() as int,
        ).push(b));
        assert(roots.push(d).subrange(1, roots.push(d).len() as int) =~= roots.subrange(
            1,
            roots.len() as int,
        ).push(d));
        assert(betas.push(b)[0] == betas[0] && roots.push(d)[0] == roots[0]);
        assert(enc_rounds(betas.push(b), roots.push(d)) =~= enc_rounds(betas, roots) + (u32_le(b)
            + enc_digest(d)));
    }
}

/// Appending one opening extends the openings' wire form.
pub(crate) proof fn lemma_enc_openings_push(s: Seq<(u32, Vec<Vec<u8>>)>, e: (u32, Vec<Vec<u8>>))
    ensures
        enc_openings(s.push(e)) == enc_openings(s) + (u32_le(e.0) + enc_path(
            e.1@.map_values(|v: Vec<u8>| v@),
        )),
    decreases s.len(),
{
    if s.len() == 0 {
        assert(s.push(e).subrange(1, 1) =~= Seq::<(u32, Vec<Vec<u8>>)>::empty());
        assert(enc_openings(Seq::<(u32, Vec<Vec<u8>>)>::empty()) == Seq::<u8>::empty());
        assert(enc_openings(s.push(e)) =~= u32_le(e.0) + enc_path(
            e.1@.map_values(|v: Vec<u8>| v@),
        ));
        assert(enc_openings(s) + (u32_le(e.0) + enc_path(e.1@.map_values(|v: Vec<u8>| v@)))
            =~= u32_le(e.0) + enc_path(e.1@.map_values(|v: Vec<u8>| v@)));
    } else {
        lemma_enc_openings_push(s.subrange(1, s.len() as int), e);
        assert(s.push(e).subrange(1, s.push(e).len() as int) =~= s.subrange(
            1,
            s.len() as int,
        ).push(e));
        assert(s.push(e)[0] == s[0]);
        assert(enc_openings(s.push(e)) =~= enc_openings(s) + (u32_le(e.0) + enc_path(
            e.1@.map_values(|v: Vec<u8>| v@),
        )));
    }
}

/// Appending one layer extends the layers' wire form.
pub(crate) proof fn lemma_enc_layers_push(
    s: Seq<(u32, Vec<Vec<u8>>, u32, Vec<Vec<u8>>)>,
    e: (u32, Vec<Vec<u8>>, u32, Vec<Vec<u8>>),
)
    ensures
        enc_layers(s.push(e)) == enc_layers(s) + (u32_le(e.0) + enc_path(
            e.1@.map_values(|v: Vec<u8>| v@),
        ) + u32_le(e.2) + enc_path(e.3@.map_values(|v: Vec<u8>| v@))),
    decreases s.len(),
{
    if s.len() == 0 {
        assert(s.push(e).subrange(1, 1) =~= Seq::<(u32, Vec<Vec<u8>>, u32, Vec<Vec<u8>>)>::empty());
        assert(enc_layers(Seq::<(u32, Vec<Vec<u8>>, u32, Vec<Vec<u8>>)>::empty())
            == Seq::<u8>::empty());
        assert(enc_layers(s.push(e)) =~= u32_le(e.0) + enc_path(e.1@.map_values(|v: Vec<u8>| v@))
            + u32_le(e.2) + enc_path(e.3@.map_values(|v: Vec<u8>| v@)));
        assert(enc_layers(s) + (u32_le(e.0) + enc_path(e.1@.map_values(|v: Vec<u8>| v@)) + u32_le(
            e.2,
        ) + enc_path(e.3@.map_values(|v: Vec<u8>| v@))) =~= u32_le(e.0) + enc_path(
            e.1@.map_values(|v: Vec<u8>| v@),
        ) + u32_le(e.2) + enc_path(e.3@.map_values(|v: Vec<u8>| v@)));
    } else {
        lemma_enc_layers_push(s.subrange(1, s.len() as int), e);
        assert(s.push(e).subrange(1, s.push(e).len() as int) =~= s.subrange(
            1,
            s.len() as int,
        ).push(e));
        assert(s.push(e)[0] == s[0]);
        assert(enc_layers(s.push(e)) =~= enc_layers(s) + (u32_le(e.0) + enc_path(
            e.1@.map_values(|v: Vec<u8>| v@),
        ) + u32_le(e.2) + enc_path(e.3@.map_values(|v: Vec<u8>| v@))));
    }
}

/// One absorption step of the transcript's accumulator.
pub open spec fn absorb(s: Seq<u8>, msg: Seq<u8>) -> Seq<u8> {
    crate::merkle::sha256_of(s + msg)
}

/// Every FRI folding coefficient is the value squeezed from the
/// accumulator at its turn, with the layer commitment absorbed after
/// it.
pub open spec fn rounds_chain_ok(s: Seq<u8>, betas: Seq<u32>, roots: Seq<Seq<u8>>) -> bool
    decreases betas.len(),
{
    if betas.len() == 0 {
        true
    } else {
        betas[0] == be_val(s) && rounds_chain_ok(
            absorb(absorb(s, u32_le(betas[0])), enc_digest(roots[0])),
            betas.subrange(1, betas.len() as int),
            roots.subrange(1, roots.len() as int),
        )
    }
}

/// The accumulator after the FRI rounds.
pub open spec fn rounds_chain_state(s: Seq<u8>, betas: Seq<u32>, roots: Seq<Seq<u8>>) -> Seq<u8>
    decreases betas.len(),
{
    if betas.len() == 0 {
        s
    } else {
        rounds_chain_state(
            absorb(absorb(s, u32_le(betas[0])), enc_digest(roots[0])),
            betas.subrange(1, betas.len() as int),
            roots.subrange(1, roots.len() as int),
        )
    }
}

/// Appending one round to the chain checks the new coefficient
/// against the accumulated state.
pub(crate) proof fn lemma_rounds_chain_push(s: Seq<u8>, betas: Seq<u32>, roots: Seq<Seq<u8>>, b: u32, d: Seq<
    u8,
>)
    requires
        betas.len() == roots.len(),
    ensures
        rounds_chain_ok(s, betas.push(b), roots.push(d)) == (rounds_chain_ok(s, betas, roots) && b
            == be_val(rounds_chain_state(s, betas, roots))),
        rounds_chain_state(s, betas.push(b), roots.push(d)) == absorb(
            absorb(rounds_chain_state(s, betas, roots), u32_le(b)),
            enc_digest(d),
        ),
    decreases betas.len(),
{
    if betas.len() == 0 {
        assert(betas.push(b).subrange(1, 1) =~= Seq::<u32>::empty());
        assert(roots.push(d).subrange(1, 1) =~= Seq::<Seq<u8>>::empty());
        let s2 = absorb(absorb(s, u32_le(b)), enc_digest(d));
        assert(rounds_chain_ok(s2, Seq::<u32>::empty(), Seq::<Seq<u8>>::empty()));
        assert(rounds_chain_state(s2, Seq::<u32>::empty(), Seq::<Seq<u8>>::empty()) == s2);
        assert(betas.push(b)[0] == b && roots.push(d)[0] == d);
        assert(rounds_chain_state(s, betas, roots) == s);
        assert(rounds_chain_ok(s, betas, roots));
    } else {
        lemma_rounds_chain_push(
            absorb(absorb(s, u32_le(betas[0])), enc_digest(roots[0])),
            betas.subrange(1, betas.len() as int),
            roots.subrange(1, roots.len() as int),
            b,
            d,
        );
        assert(betas.push(b).subrange(1, betas.push(b).len() as int) =~= betas.subrange(
            1,
            betas.len() as int,
        ).push(b));
        assert(roots.push(d).subrange(1, roots.push(d).len() as int) =~= roots.subrange(
            1,
            roots.len() as int,
        ).push(d));
        assert(betas.push(b)[0] == betas[0] && roots.push(d)[0] == roots[0]);
    }
}

/// Every challenge of a transcript is the one the replayed hash chain
/// squeezes at its turn: the three composition coefficients after the
/// trace commitment, each folding coefficient in its round, and the
/// query index after the free term.
pub open spec fn challenges_consistent(t: Transcript) -> bool {
    let s0 = Seq::new(32, |i: int| 0u8);
    let s1 = absorb(s0, enc_digest(t.f_root@));
    let s2 = absorb(s1, u32_le(t.alpha0));
    let s3 = absorb(s2, u32_le(t.alpha1));
    let s4 = absorb(s3, u32_le(t.alpha2));
    let s5 = absorb(s4, enc_digest(t.cp_root@));
    let roots = t.fri_roots@.map_values(|v: Vec<u8>| v@);
    let s6 = rounds_chain_state(s5, t.betas@, roots);
    let s7 = absorb(s6, u32_le(t.free_term));
    &&& t.alpha0 == be_val(s1)
    &&& t.alpha1 == be_val(s2)
    &&& t.alpha2 == be_val(s3)
    &&& rounds_chain_ok(s5, t.betas@, roots)
    &&& t.raw_query == be_val(s7)
}

/// Re-parses a transcript and replays its hash chain, rejecting it if
/// any recorded challenge differs from the recomputed one or bytes
/// remain unconsumed.
#[verifier::loop_isolation(false)]
#[verifier::rlimit(100)]
fn parse_transcript(data: &Vec<u8>) -> (r: Result<Transcript, VerifyError>)
    ensures
        r matches Ok(t) ==> t.wf() && data@.len() >= 36,
        r matches Ok(t) ==> data@ == enc_transcript(t),
        r matches Ok(t) ==> challenges_consistent(t),
        r matches Err(e) ==> e == VerifyError::Malformed,
{
    let mut ch = Channel::new();
    let mut pos: usize = 0;

    // the commitment to the trace's low-degree extension
    let (f_root, p1) = match read_digest(data, pos) {
        Some(t) => t,
        None => {
            return Err(VerifyError::Malformed);
        },
    };
    absorb_range(&mut ch, data, pos, p1);
    pos = p1;

    // the three composition coefficients
    let (alpha0, p2) = match expect_challenge(&mut ch, data, pos) {
        Some(t) => t,
        None => {
            return Err(VerifyError::Malformed);
        },
    };
    pos = p2;
    let (alpha1, p3) = match expect_challenge(&mut ch, data, pos) {
        Some(t) => t,
        None => {
            return Err(VerifyError::Malformed);
        },
    };
    pos = p3;
    let (alpha2, p4) = match expect_challenge(&mut ch, data, pos) {
        Some(t) => t,
        None => {
            return Err(VerifyError::Malformed);
        },
    };
    pos = p4;

    // the composition commitment
    let (cp_root, p5) = match read_digest(data, pos) {
        Some(t) => t,
        None => {
            return Err(VerifyError::Malformed);
        },
    };
    absorb_range(&mut ch, data, pos, p5);
    pos = p5;

    // ten FRI rounds: a folding coefficient and a layer commitment
    let mut betas: Vec<u32> = Vec::new();
    let mut fri_roots: Vec<Vec<u8>> = Vec::new();
    let ghost s5v = ch.state@;
    proof {
        assert(data@.subrange(p5 as int, p5 as int) =~= Seq::<u8>::empty());
        assert(enc_rounds(betas@, fri_roots@.map_values(|v: Vec<u8>| v@)) == Seq::<u8>::empty());
        assert(rounds_chain_ok(s5v, betas@, fri_roots@.map_values(|v: Vec<u8>| v@)));
        assert(rounds_chain_state(s5v, betas@, fri_roots@.map_values(|v: Vec<u8>| v@)) == s5v);
    }
    let mut i: usize = 0;
    while i < 10
        invariant
            i <= 10,
            ch.wf(),
            p5 <= pos <= data@.len(),
            betas@.len() == i,
            fri_roots@.len() == i,
            forall|j: int| 0 <= j < i ==> (#[trigger] fri_roots@[j])@.len() == 32,
            data@.subrange(p5 as int, pos as int) == enc_rounds(
                betas@,
                fri_roots@.map_values(|v: Vec<u8>| v@),
            ),
            rounds_chain_ok(s5v, betas@, fri_roots@.map_values(|v: Vec<u8>| v@)),
            ch.state@ == rounds_chain_state(s5v, betas@, fri_roots@.map_values(|v: Vec<u8>| v@)),
        decreases 10 - i,
    {
        let ghost pos0 = pos;
        let ghost betas0 = betas@;
        let ghost roots0 = fri_roots@.map_values(|v: Vec<u8>| v@);
        let (b, np) = match expect_challenge(&mut ch, data, pos) {
            Some(t) => t,
            None => {
                return Err(VerifyError::Malformed);
            },
        };
        pos = np;
        let (root, np2) = match read_digest(data, pos) {
            Some(t) => t,
            None => {
                return Err(VerifyError::Malformed);
            },
        };
        absorb_range(&mut ch, data, pos, np2);
        pos = np2;
        betas.push(b);
        fri_roots.push(root);
        proof {
            lemma_enc_rounds_push(betas0, roots0, b, root@);
            lemma_rounds_chain_push(s5v, betas0, roots0, b, root@);
            assert(fri_roots@.map_values(|v: Vec<u8>| v@) =~= roots0.push(root@));
            assert(data@.subrange(p5 as int, pos as int) =~= data@.subrange(
                p5 as int,
                pos0 as int,
            ) + data@.subrange(pos0 as int, np as int) + data@.subrange(np as int, pos as int));
            assert(data@.subrange(p5 as int, pos as int) =~= enc_rounds(betas0, roots0) + (u32_le(
                b,
            ) + enc_digest(root@)));
            assert(b == be_val(rounds_chain_state(s5v, betas0, roots0)));
            assert(ch.state@ == absorb(
                absorb(rounds_chain_state(s5v, betas0, roots0), u32_le(b)),
                enc_digest(root@),
            ));
        }
        i = i + 1;
    }
    let ghost r_end = pos;

    // the final layer's constant term
    let (free_term, p6) = match read_u32(data, pos) {
        Some(t) => t,
        None => {
            return Err(VerifyError::Malformed);
        },
    };
    absorb_range(&mut ch, data, pos, p6);
    pos = p6;

    // the query index
    let (raw_query, p7) = match expect_challenge(&mut ch, data, pos) {
        Some(t) => t,
        None => {
            return Err(VerifyError::Malformed);
        },
    };
    pos = p7;

    // the four trace-side openings
    let mut openings: Vec<(u32, Vec<Vec<u8>>)> = Vec::new();
    proof {
        assert(data@.subrange(p7 as int, p7 as int) =~= Seq::<u8>::empty());
        assert(enc_openings(openings@) == Seq::<u8>::empty());
    }
    let mut k: usize = 0;
    while k < 4
        invariant
            k <= 4,
            ch.wf(),
            p7 <= pos <= data@.len(),
            openings@.len() == k,
            forall|j: int, l: int|
                0 <= j < k && 0 <= l < (#[trigger] openings@[j]).1@.len() ==> (
                #[trigger] openings@[j].1@[l])@.len() == 32,
            data@.subrange(p7 as int, pos as int) == enc_openings(openings@),
        decreases 4 - k,
    {
        let ghost pos0 = pos;
        let ghost openings0 = openings@;
        let (v, np) = match read_u32(data, pos) {
            Some(t) => t,
            None => {
                return Err(VerifyError::Malformed);
            },
        };
        let (path, np2) = match read_path(data, np) {
            Some(t) => t,
            None => {
                return Err(VerifyError::Malformed);
            },
        };
        absorb_range(&mut ch, data, pos, np2);
        pos = np2;
        openings.push((v, path));
        proof {
            let e = openings@.last();
            lemma_enc_openings_push(openings0, e);
            assert(data@.subrange(p7 as int, pos as int) =~= data@.subrange(
                p7 as int,
                pos0 as int,
            ) + data@.subrange(pos0 as int, np as int) + data@.subrange(np as int, pos as int));
            assert(e.0 == v && e.1@ == path@);
            assert(e.1@.map_values(|v2: Vec<u8>| v2@) == path@.map_values(|v2: Vec<u8>| v2@));
            assert(data@.subrange(p7 as int, pos as int) =~= enc_openings(openings0) + (u32_le(v)
                + enc_path(path@.map_values(|v2: Vec<u8>| v2@))));
        }
        k = k + 1;
    }
    let ghost o_end = pos;

    // the ten FRI layer openings
    let mut layers: Vec<(u32, Vec<Vec<u8>>, u32, Vec<Vec<u8>>)> = Vec::new();
    proof {
        assert(data@.subrange(o_end as int, o_end as int) =~= Seq::<u8>::empty());
        assert(enc_layers(layers@) == Seq::<u8>::empty());
    }
    let mut n: usize = 0;
    while n < 10
        invariant
            n <= 10,
            ch.wf(),
            o_end <= pos <= data@.len(),
            layers@.len() == n,
            data@.subrange(o_end as int, pos as int) == enc_layers(layers@),
            forall|j: int, l: int|
                0 <= j < n && 0 <= l < (#[trigger] layers@[j]).1@.len() ==> (
                #[trigger] layers@[j].1@[l])@.len() == 32,
            forall|j: int, l: int|
                0 <= j < n && 0 <= l < (#[trigger] layers@[j]).3@.len() ==> (
                #[trigger] layers@[j].3@[l])@.len() == 32,
        decreases 10 - n,
    {
        let (v0, np) = match read_u32(data, pos) {
            Some(t) => t,
            None => {
                return Err(VerifyError::Malformed);
            },
        };
        let (path0, np2) = match read_path(data, np) {
            Some(t) => t,
            None => {
                return Err(VerifyError::Malformed);
            },
        };
        let (v1, np3) = match read_u32(data, np2) {
            Some(t) => t,
            None => {
                return Err(VerifyError::Malformed);
            },
        };
        let (path1, np4) = match read_path(data, np3) {
            Some(t) => t,
            None => {
                return Err(VerifyError::Malformed);
            },
        };
        absorb_range(&mut ch, data, pos, np4);
        let ghost pos0 = pos;
        let ghost layers0 = layers@;
        pos = np4;
        layers.push((v0, path0, v1, path1));
        proof {
            let e = layers@.last();
            lemma_enc_layers_push(layers0, e);
            assert(data@.subrange(o_end as int, pos as int) =~= data@.subrange(
                o_end as int,
                pos0 as int,
            ) + data@.subrange(pos0 as int, np as int) + data@.subrange(np as int, np2 as int)
                + data@.subrange(np2 as int, np3 as int) + data@.subrange(
                np3 as int,
                np4 as int,
            ));
            assert(e.0 == v0 && e.1@ == path0@ && e.2 == v1 && e.3@ == path1@);
            assert(e.1@.map_values(|v2: Vec<u8>| v2@) == path0@.map_values(|v2: Vec<u8>| v2@));
            assert(e.3@.map_values(|v2: Vec<u8>| v2@) == path1@.map_values(|v2: Vec<u8>| v2@));
            assert(data@.subrange(o_end as int, pos as int) =~= enc_layers(layers0) + (u32_le(v0)
                + enc_path(path0@.map_values(|v2: Vec<u8>| v2@)) + u32_le(v1) + enc_path(
                path1@.map_values(|v2: Vec<u8>| v2@),
            )));
        }
        n = n + 1;
    }

    // the transcript must end here
    if pos != data.len() {
        return Err(VerifyError::Malformed);
    }
    proof {
        let d = data@;
        assert(d.subrange(0, p2 as int) =~= d.subrange(0, p1 as int) + d.subrange(
            p1 as int,
            p2 as int,
        ));
        assert(d.subrange(0, p3 as int) =~= d.subrange(0, p2 as int) + d.subrange(
            p2 as int,
            p3 as int,
        ));
        assert(d.subrange(0, p4 as int) =~= d.subrange(0, p3 as int) + d.subrange(
            p3 as int,
            p4 as int,
        ));
        assert(d.subrange(0, p5 as int) =~= d.subrange(0, p4 as int) + d.subrange(
            p4 as int,
            p5 as int,
        ));
        assert(d.subrange(0, r_end as int) =~= d.subrange(0, p5 as int) + d.subrange(
            p5 as int,
            r_end as int,
        ));
        assert(d.subrange(0, p6 as int) =~= d.subrange(0, r_end as int) + d.subrange(
            r_end as int,
            p6 as int,
        ));
        assert(d.subrange(0, p7 as int) =~= d.subrange(0, p6 as int) + d.subrange(
            p6 as int,
            p7 as int,
        ));
        assert(d.subrange(0, o_end as int) =~= d.subrange(0, p7 as int) + d.subrange(
            p7 as int,
            o_end as int,
        ));
        assert(d.subrange(0, pos as int) =~= d.subrange(0, o_end as int) + d.subrange(
            o_end as int,
            pos as int,
        ));
        assert(d =~= d.subrange(0, pos as int));
        // the squeezed challenges match the replayed chain
        let s0 = Seq::new(32, |j: int| 0u8);
        let s1 = absorb(s0, enc_digest(f_root@));
        let s2 = absorb(s1, u32_le(alpha0));
        let s3 = absorb(s2, u32_le(alpha1));
        let s4 = absorb(s3, u32_le(alpha2));
        let s5 = absorb(s4, enc_digest(cp_root@));
        assert(s5v == s5);
        let roots = fri_roots@.map_values(|v: Vec<u8>| v@);
        let s6 = rounds_chain_state(s5, betas@, roots);
        let s7 = absorb(s6, u32_le(free_term));
        assert(alpha0 == be_val(s1));
        assert(alpha1 == be_val(s2));
        assert(alpha2 == be_val(s3));
        assert(rounds_chain_ok(s5, betas@, roots));
        assert(raw_query == be_val(s7));
    }
    Ok(
        Transcript {
            f_root,
            alpha0,
            alpha1,
            alpha2,
            cp_root,
            betas,
            fri_roots,
            free_term,
            raw_query,
            openings,
            layers,
        },
    )
}

/// `q` is the field quotient of the reduced numerator `num` by the
/// reduced denominator `den`: multiplying back recovers the numerator.
pub open spec fn fdiv_rel(m: int, num: int, den: int, q: int) -> bool {
    0 <= q < m && (q * den) % m == num
}

/// `x` is the least primitive-root candidate of the field: it passes
/// the generator test and no smaller element does.
pub open spec fn least_generator(p: int, x: int) -> bool {
    &&& 2 <= x < p
    &&& generator_candidate(p, x)
    &&& forall|y: int| 2 <= y < x ==> !(#[trigger] generator_candidate(p, y))
}

/// The query point in the evaluation coset: the primitive root times
/// the `xq`-th power of the size-8192 subgroup generator.
pub open spec fn query_point(m: int, pr: int, xq: usize) -> int {
    (pr * fpow(m, fpow(m, pr, 393216), xq as nat)) % m
}

/// The recombined composition value at the query point: the three
/// opened trace values, divided by the vanishing factors of the three
/// constraints, combine under the transcript's coefficients into `v`.
pub open spec fn composition_value(m: int, t: Transcript, xq: usize, pr: int, v: int) -> bool {
    let gg = fpow(m, pr, 3145728);
    let xf = query_point(m, pr, xq);
    let fx = (t.openings@[0].0 as int) % m;
    let fgx = (t.openings@[1].0 as int) % m;
    let fggx = (t.openings@[2].0 as int) % m;
    let d0 = (xf - 1) % m;
    let d1 = (xf - fpow(m, gg, 1022)) % m;
    let zden = ((((xf - fpow(m, gg, 1021)) % m) * ((xf - fpow(m, gg, 1022)) % m)) % m * ((xf
        - fpow(m, gg, 1023)) % m)) % m;
    let znum = (fpow(m, xf, 1024) - 1) % m;
    &&& d0 != 0
    &&& d1 != 0
    &&& zden != 0
    &&& exists|p0: int, p1: int, p2: int, z: int|
        #![trigger fdiv_rel(m, (fx - 1) % m, d0, p0), fdiv_rel(m, (fx - 2338775057) % m, d1, p1), fdiv_rel(m, ((fggx - (fgx * fgx) % m) % m - (fx * fx) % m) % m, z, p2)]
        {
            &&& fdiv_rel(m, (fx - 1) % m, d0, p0)
            &&& fdiv_rel(m, (fx - 2338775057) % m, d1, p1)
            &&& fdiv_rel(m, znum, zden, z)
            &&& z != 0
            &&& fdiv_rel(m, ((fggx - (fgx * fgx) % m) % m - (fx * fx) % m) % m, z, p2)
            &&& v == ((((t.alpha0 as int % m) * p0) % m + ((t.alpha1 as int % m) * p1) % m) % m + ((
            t.alpha2 as int % m) * p2) % m) % m
        }
}

/// The composition identity at the query point: the recombined value
/// equals the opened composition value.
pub open spec fn composition_identity(m: int, t: Transcript, xq: usize, pr: int) -> bool {
    composition_value(m, t, xq, pr, t.openings@[3].0 as int)
}

/// The recombined composition value is `v`, which differs from the
/// opened one: the reason a transcript is rejected with `v`.
pub open spec fn composition_mismatch(m: int, t: Transcript, xq: usize, v: u32) -> bool {
    exists|pr: int|
        #[trigger] least_generator(m, pr) && composition_value(m, t, xq, pr, v as int) && (
        v as int) != t.openings@[3].0 as int
}

/// What a FRI layer folds into: the next layer's opened value, or the
/// committed free term after the last layer.
pub open spec fn fri_target(t: Transcript, li: int) -> int {
    if li == 9 {
        t.free_term as int
    } else {
        t.layers@[li + 1].0 as int
    }
}

/// The folded value at one FRI layer: the even and odd parts
/// reconstructed from the layer's two openings combine under its
/// folding coefficient into `v`.
pub open spec fn fri_layer_value(m: int, t: Transcript, xq: usize, pr: int, li: int, v: int) -> bool {
    let xf = query_point(m, pr, xq);
    let cpx = (t.layers@[li].0 as int) % m;
    let cpnx = (t.layers@[li].2 as int) % m;
    let xl = fpow(m, xf, (1u32 << (li as u32)) as nat);
    let hden = (xl * 2) % m;
    &&& hden != 0
    &&& exists|gv: int, hv: int|
        #![trigger fdiv_rel(m, (cpx + cpnx) % m, 2, gv), fdiv_rel(m, (cpx - cpnx) % m, hden, hv)]
        {
            &&& fdiv_rel(m, (cpx + cpnx) % m, 2, gv)
            &&& fdiv_rel(m, (cpx - cpnx) % m, hden, hv)
            &&& v == (gv + ((t.betas@[li] as int % m) * hv) % m) % m
        }
}

/// One layer of the FRI consistency identity: the folded value equals
/// the next layer's opening.
pub open spec fn fri_layer_ok(m: int, t: Transcript, xq: usize, pr: int, li: int) -> bool {
    fri_layer_value(m, t, xq, pr, li, fri_target(t, li))
}

/// The FRI consistency identity at every layer.
pub open spec fn fri_identity(m: int, t: Transcript, xq: usize, pr: int) -> bool {
    forall|li: int| 0 <= li < 10 ==> #[trigger] fri_layer_ok(m, t, xq, pr, li)
}

/// Some FRI layer folds to `v`, which differs from what the next
/// layer opened: the reason a transcript is rejected with `v`.
pub open spec fn fri_mismatch(m: int, t: Transcript, xq: usize, v: u32) -> bool {
    exists|pr: int, li: int|
        #![trigger fri_layer_value(m, t, xq, pr, li, v as int)]
        least_generator(m, pr) && 0 <= li < 10 && fri_layer_value(m, t, xq, pr, li, v as int) && (
        v as int) != fri_target(t, li)
}

/// Checks the composition identity at the query point.
fn check_composition(t: &Transcript, xq: usize) -> (r: Result<(), VerifyError>)
    requires
        t.wf(),
        crate::field::is_prime(3221225473int),
        xq < 8176,
    ensures
        r matches Ok(_) ==> exists|pr: int|
            #[trigger] least_generator(3221225473int, pr) && composition_identity(
                3221225473int,
                *t,
                xq,
                pr,
            ),
        r matches Err(VerifyError::CompositionMismatch(v)) ==> composition_mismatch(
            3221225473int,
            *t,
            xq,
            v,
        ),
        r matches Err(e) ==> (e == VerifyError::Malformed || e matches
            VerifyError::CompositionMismatch(_)),
{
    let primitive_root = match Gf::<3221225473>::generator() {
        Some(g) => g,
        None => {
            return Err(VerifyError::Malformed);
        },
    };
    let generator_g = primitive_root.pow(3145728);
    let generator_h = primitive_root.pow(393216);
    let g0 = Gf::<3221225473>::one();
    let g1021 = generator_g.pow(1021);
    let g1022 = generator_g.pow(1022);
    let g1023 = generator_g.pow(1023);
    let x_field = primitive_root.mul(generator_h.pow(xq as u32));
    let one = Gf::<3221225473>::one();
    let fx = Gf::<3221225473>::new(t.openings[0].0);
    let fgx = Gf::<3221225473>::new(t.openings[1].0);
    let fggx = Gf::<3221225473>::new(t.openings[2].0);
    let cp0x = t.openings[3].0;
    let den0 = x_field.sub(g0);
    let den1 = x_field.sub(g1022);
    if den0.residue() == 0 || den1.residue() == 0 {
        return Err(VerifyError::Malformed);
    }
    let part0 = fx.sub(one).div(den0);
    let part1 = fx.sub(Gf::new(2338775057)).div(den1);
    let z_den = x_field.sub(g1021).mul(x_field.sub(g1022)).mul(x_field.sub(g1023));
    if z_den.residue() == 0 {
        return Err(VerifyError::Malformed);
    }
    let z = x_field.pow(1024).sub(one).div(z_den);
    if z.residue() == 0 {
        return Err(VerifyError::Malformed);
    }
    let part2 = fggx.sub(fgx.mul(fgx)).sub(fx.mul(fx)).div(z);
    let cp_expected = Gf::new(t.alpha0).mul(part0).add(Gf::new(t.alpha1).mul(part1)).add(
        Gf::new(t.alpha2).mul(part2),
    );
    proof {
        let m = 3221225473int;
        let prv = primitive_root.val as int;
        assert(least_generator(m, prv));
        let xf = query_point(m, prv, xq);
        assert(x_field.val as int == xf);
        let ggv = fpow(m, prv, 3145728);
        assert(generator_g.val as int == ggv);
        let fxv = (t.openings@[0].0 as int) % m;
        let fgxv = (t.openings@[1].0 as int) % m;
        let fggxv = (t.openings@[2].0 as int) % m;
        assert(fx.val as int == fxv && fgx.val as int == fgxv && fggx.val as int == fggxv);
        let d0v = (xf - 1) % m;
        let d1v = (xf - fpow(m, ggv, 1022)) % m;
        assert(den0.val as int == d0v);
        assert(den1.val as int == d1v);
        let zdenv = ((((xf - fpow(m, ggv, 1021)) % m) * ((xf - fpow(m, ggv, 1022)) % m)) % m * ((
        xf - fpow(m, ggv, 1023)) % m)) % m;
        assert(z_den.val as int == zdenv);
        let znumv = (fpow(m, xf, 1024) - 1) % m;
        let p0v = part0.val as int;
        let p1v = part1.val as int;
        let p2v = part2.val as int;
        let zv = z.val as int;
        assert(fdiv_rel(m, (fxv - 1) % m, d0v, p0v));
        assert(fdiv_rel(m, (fxv - 2338775057) % m, d1v, p1v));
        assert(fdiv_rel(m, znumv, zdenv, zv));
        assert(fdiv_rel(m, ((fggxv - (fgxv * fgxv) % m) % m - (fxv * fxv) % m) % m, zv, p2v));
        assert((cp_expected.val as int) == ((((t.alpha0 as int % m) * p0v) % m + ((t.alpha1 as int
            % m) * p1v) % m) % m + ((t.alpha2 as int % m) * p2v) % m) % m);
        assert(composition_value(m, *t, xq, prv, cp_expected.val as int));
    }
    let cv = cp_expected.residue();
    if cv != cp0x {
        proof {
            assert(composition_mismatch(3221225473int, *t, xq, cv));
        }
        return Err(VerifyError::CompositionMismatch(cv));
    }
    Ok(())
}

/// Checks that each FRI layer folds into the next, and the last into
/// the committed free term.
#[verifier::loop_isolation(false)]
#[verifier::rlimit(100)]
fn check_fri(t: &Transcript, xq: usize) -> (r: Result<(), VerifyError>)
    requires
        t.wf(),
        crate::field::is_prime(3221225473int),
        xq < 8176,
    ensures
        r matches Ok(_) ==> exists|pr: int|
            #[trigger] least_generator(3221225473int, pr) && fri_identity(
                3221225473int,
                *t,
                xq,
                pr,
            ),
        r matches Err(VerifyError::CompositionMismatch(v)) ==> fri_mismatch(
            3221225473int,
            *t,
            xq,
            v,
        ),
        r matches Err(e) ==> (e == VerifyError::Malformed || e matches
            VerifyError::CompositionMismatch(_)),
{
    let primitive_root = match Gf::<3221225473>::generator() {
        Some(g) => g,
        None => {
            return Err(VerifyError::Malformed);
        },
    };
    let generator_h = primitive_root.pow(393216);
    let x_field = primitive_root.mul(generator_h.pow(xq as u32));
    let two = Gf::<3221225473>::new(2);
    let ghost m = 3221225473int;
    let ghost prv = primitive_root.val as int;
    proof {
        assert(least_generator(m, prv));
        assert(x_field.val as int == query_point(m, prv, xq));
    }
    let mut lay: usize = 0;
    while lay < 10
        invariant
            lay <= 10,
            t.wf(),
            crate::field::is_prime(3221225473int),
            xq < 8176,
            x_field.valid(),
            two.valid(),
            two.val == 2,
            x_field.val as int == query_point(m, prv, xq),
            forall|j: int| 0 <= j < lay ==> #[trigger] fri_layer_ok(m, *t, xq, prv, j),
        decreases 10 - lay,
    {
        let cp_x = Gf::<3221225473>::new(t.layers[lay].0);
        let cp_nx = Gf::<3221225473>::new(t.layers[lay].2);
        let xl = x_field.pow(1u32 << (lay as u32));
        let g_xx = cp_x.add(cp_nx).div(two);
        let h_den = xl.mul(two);
        if h_den.residue() == 0 {
            return Err(VerifyError::Malformed);
        }
        let h_xx = cp_x.sub(cp_nx).div(h_den);
        let calc = g_xx.add(Gf::new(t.betas[lay]).mul(h_xx));
        let target: u32 = if lay == 9 {
            t.free_term
        } else {
            t.layers[lay + 1].0
        };
        proof {
            let xf = query_point(m, prv, xq);
            let li = lay as int;
            let cpxv = (t.layers@[li].0 as int) % m;
            let cpnxv = (t.layers@[li].2 as int) % m;
            assert(cp_x.val as int == cpxv && cp_nx.val as int == cpnxv);
            let xlv = fpow(m, xf, (1u32 << (li as u32)) as nat);
            assert(xl.val as int == xlv);
            let hdenv = (xlv * 2) % m;
            assert(h_den.val as int == hdenv);
            let gvv = g_xx.val as int;
            let hvv = h_xx.val as int;
            assert(fdiv_rel(m, (cpxv + cpnxv) % m, 2, gvv));
            assert(fdiv_rel(m, (cpxv - cpnxv) % m, hdenv, hvv));
            assert((calc.val as int) == (gvv + ((t.betas@[li] as int % m) * hvv) % m) % m);
            assert(fri_layer_value(m, *t, xq, prv, li, calc.val as int));
            assert(target as int == fri_target(*t, li));
        }
        let cv = calc.residue();
        if cv != target {
            proof {
                assert(least_generator(3221225473int, prv) && 0 <= (lay as int) && (
                lay as int) < 10 && fri_layer_value(
                    3221225473int,
                    *t,
                    xq,
                    prv,
                    lay as int,
                    cv as int,
                ) && cv as int != fri_target(*t, lay as int));
                assert(fri_mismatch(3221225473int, *t, xq, cv));
            }
            return Err(VerifyError::CompositionMismatch(cv));
        }
        proof {
            assert(fri_layer_ok(m, *t, xq, prv, lay as int));
        }
        lay = lay + 1;
    }
    proof {
        assert(fri_identity(m, *t, xq, prv));
    }
    Ok(())
}

/// All twenty-four openings of a transcript authenticate: the three
/// trace openings at the query point and its two shifts against the
/// trace commitment, the composition opening against the composition
/// commitment, and each FRI layer's pair of openings against that
/// layer's commitment.
pub open spec fn transcript_paths_ok(t: Transcript, xq: usize) -> bool {
    &&& opening_authenticated(
        t.openings@[0].0,
        xq,
        t.openings@[0].1@.map_values(|v: Vec<u8>| v@),
        t.f_root@,
    )
    &&& opening_authenticated(
        t.openings@[1].0,
        (xq + 8) as usize,
        t.openings@[1].1@.map_values(|v: Vec<u8>| v@),
        t.f_root@,
    )
    &&& opening_authenticated(
        t.openings@[2].0,
        (xq + 16) as usize,
        t.openings@[2].1@.map_values(|v: Vec<u8>| v@),
        t.f_root@,
    )
    &&& opening_authenticated(
        t.openings@[3].0,
        xq,
        t.openings@[3].1@.map_values(|v: Vec<u8>| v@),
        t.cp_root@,
    )
    &&& forall|li: int|
        0 <= li < 10 ==> {
            let sz = 8192usize >> (li as usize);
            let xi = ((xq as usize) % sz) as usize;
            let nxi = ((xi + sz / 2) as usize % sz) as usize;
            let root = if li == 0 {
                t.cp_root@
            } else {
                t.fri_roots@[li - 1]@
            };
            opening_authenticated(
                (#[trigger] t.layers@[li]).0,
                xi,
                t.layers@[li].1@.map_values(|v: Vec<u8>| v@),
                root,
            ) && opening_authenticated(
                t.layers@[li].2,
                nxi,
                t.layers@[li].3@.map_values(|v: Vec<u8>| v@),
                root,
            )
        }
}

/// Checks every authentication path against its committed root.
#[verifier::loop_isolation(false)]
fn check_paths(t: &Transcript, xq: usize) -> (r: Result<(), VerifyError>)
    requires
        t.wf(),
        xq < 8176,
    ensures
        r matches Ok(_) <==> transcript_paths_ok(*t, xq),
        r matches Err(e) ==> e matches VerifyError::AuthPathMismatch(_),
{
    if !path_ok(t.openings[0].0, xq, &t.openings[0].1, &t.f_root) {
        return Err(VerifyError::AuthPathMismatch(PathTag::Fx));
    }
    if !path_ok(t.openings[1].0, xq + 8, &t.openings[1].1, &t.f_root) {
        return Err(VerifyError::AuthPathMismatch(PathTag::Fgx));
    }
    if !path_ok(t.openings[2].0, xq + 16, &t.openings[2].1, &t.f_root) {
        return Err(VerifyError::AuthPathMismatch(PathTag::Fggx));
    }
    if !path_ok(t.openings[3].0, xq, &t.openings[3].1, &t.cp_root) {
        return Err(VerifyError::AuthPathMismatch(PathTag::Cp0x));
    }
    let mut li: usize = 0;
    while li < 10
        invariant
            li <= 10,
            t.wf(),
            xq < 8176,
            forall|j: int|
                0 <= j < li ==> {
                    let sz = 8192usize >> (j as usize);
                    let xi = ((xq as usize) % sz) as usize;
                    let nxi = ((xi + sz / 2) as usize % sz) as usize;
                    let root = if j == 0 {
                        t.cp_root@
                    } else {
                        t.fri_roots@[j - 1]@
                    };
                    opening_authenticated(
                        (#[trigger] t.layers@[j]).0,
                        xi,
                        t.layers@[j].1@.map_values(|v: Vec<u8>| v@),
                        root,
                    ) && opening_authenticated(
                        t.layers@[j].2,
                        nxi,
                        t.layers@[j].3@.map_values(|v: Vec<u8>| v@),
                        root,
                    )
                },
        decreases 10 - li,
    {
        proof {
            assert(8192usize >> li >= 16 && 8192usize >> li <= 8192) by (bit_vector)
                requires
                    li < 10usize,
            ;
        }
        let sz = 8192usize >> li;
        let xi = xq % sz;
        let nxi = (xi + sz / 2) % sz;
        let root = if li == 0 {
            &t.cp_root
        } else {
            &t.fri_roots[li - 1]
        };
        if !path_ok(t.layers[li].0, xi, &t.layers[li].1, root) {
            return Err(VerifyError::AuthPathMismatch(PathTag::FriX(li as u8)));
        }
        if !path_ok(t.layers[li].2, nxi, &t.layers[li].3, root) {
            return Err(VerifyError::AuthPathMismatch(PathTag::FriNx(li as u8)));
        }
        li = li + 1;
    }
    Ok(())
}

/// Runs the three check stages on a parsed transcript, in order.
fn run_checks(t: &Transcript, xq: usize) -> (r: Result<(), VerifyError>)
    requires
        t.wf(),
        crate::field::is_prime(3221225473int),
        xq == (t.raw_query % 8176) as usize,
        xq < 8176,
    ensures
        r matches Ok(_) ==> exists|pr: int|
            #[trigger] least_generator(3221225473int, pr) && composition_identity(
                3221225473int,
                *t,
                xq,
                pr,
            ) && fri_identity(3221225473int, *t, xq, pr) && transcript_paths_ok(*t, xq),
        r matches Err(VerifyError::CompositionMismatch(v)) ==> composition_mismatch(
            3221225473int,
            *t,
            xq,
            v,
        ) || fri_mismatch(3221225473int, *t, xq, v),
        r matches Err(VerifyError::AuthPathMismatch(tag)) ==> !transcript_paths_ok(*t, xq),
{
    match check_composition(t, xq) {
        Ok(_) => {},
        Err(e) => {
            return Err(e);
        },
    }
    match check_fri(t, xq) {
        Ok(_) => {},
        Err(e) => {
            return Err(e);
        },
    }
    match check_paths(t, xq) {
        Ok(_) => {},
        Err(e) => {
            return Err(e);
        },
    }
    proof {
        let m = 3221225473int;
        let pr1 = choose|pr: int|
            #[trigger] least_generator(m, pr) && composition_identity(m, *t, xq, pr);
        let pr2 = choose|pr: int|
            #[trigger] least_generator(m, pr) && fri_identity(m, *t, xq, pr);
        assert(pr1 == pr2) by {
            if pr1 < pr2 {
                assert(generator_candidate(m, pr1));
                assert(!generator_candidate(m, pr1));
            } else if pr2 < pr1 {
                assert(generator_candidate(m, pr2));
                assert(!generator_candidate(m, pr2));
            }
        }
        assert(fri_identity(m, *t, xq, pr1));
        assert(transcript_paths_ok(*t, xq));
        assert(t.wf() && least_generator(m, pr1));
    }
    Ok(())
}

/// A serialized proof: the transcript's final accumulator and the raw
/// byte log of every committed message.
pub struct Proof {
    pub state: Vec<u8>,
    pub data: Vec<u8>,
}

impl Proof {
    /// Wraps a final accumulator and a transcript log.
    pub fn new(state: Vec<u8>, data: Vec<u8>) -> (r: Proof)
        ensures
            r.state@ == state@,
            r.data@ == data@,
    {
        Proof { state, data }
    }

    /// The serialized size: the transcript bytes plus the 32-byte
    /// final accumulator.
    pub fn size(&self) -> (r: usize)
        requires
            self.data@.len() + 32 <= usize::MAX,
        ensures
            r == self.data@.len() + 32,
    {
        self.data.len() + 32
    }

    /// Checks the proof: re-parses the transcript, re-derives every
    /// challenge from the replayed hash chain, checks the algebraic
    /// identity at the query point, the consistency of consecutive
    /// FRI layers, and every authentication path against its
    /// committed root.
    pub fn verify(&self) -> (r: Result<(), VerifyError>)
        ensures
            r matches Ok(_) ==> self.data@.len() >= 36,
            r matches Ok(_) ==> exists|t: Transcript, pr: int|
                #![trigger least_generator(3221225473int, pr), t.wf()]
                {
                    let xq = (t.raw_query % 8176) as usize;
                    &&& t.wf()
                    &&& self.data@ == enc_transcript(t)
                    &&& challenges_consistent(t)
                    &&& least_generator(3221225473int, pr)
                    &&& composition_identity(3221225473int, t, xq, pr)
                    &&& fri_identity(3221225473int, t, xq, pr)
                    &&& transcript_paths_ok(t, xq)
                },
            // a rejection for a mismatched value names the recombined
            // value that disagreed with the transcript's opening
            r matches Err(VerifyError::CompositionMismatch(v)) ==> exists|t: Transcript|
                #![trigger t.wf()]
                t.wf() && self.data@ == enc_transcript(t) && challenges_consistent(t) && (
                composition_mismatch(3221225473int, t, ((t.raw_query % 8176) as usize), v)
                    || fri_mismatch(3221225473int, t, ((t.raw_query % 8176) as usize), v)),
            // a rejection for an authentication path means some path
            // of the parsed transcript fails to reproduce its root
            r matches Err(VerifyError::AuthPathMismatch(tag)) ==> exists|t: Transcript|
                #![trigger t.wf()]
                t.wf() && self.data@ == enc_transcript(t) && challenges_consistent(t)
                    && !transcript_paths_ok(t, ((t.raw_query % 8176) as usize)),
    {
        let t = match parse_transcript(&self.data) {
            Ok(t) => t,
            Err(e) => {
                return Err(e);
            },
        };
        if !is_prime_u32(3221225473) {
            return Err(VerifyError::Malformed);
        }
        let xq = (t.raw_query % 8176) as usize;
        match run_checks(&t, xq) {
            Ok(_) => Ok(()),
            Err(e) => Err(e),
        }
    }
}

} // verus!
