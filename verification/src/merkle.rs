use vstd::prelude::*;
use sha2::Digest;

verus! {

/// The SHA-256 digest of a byte sequence; its value is fixed by the
/// input alone, so equal inputs always name the same digest.
pub uninterp spec fn sha256_of(data: Seq<u8>) -> Seq<u8>;

/// Relies on sha2's Sha256: hashes the whole input in one pass and
/// returns the 32-byte digest.
#[verifier::external_body]
pub fn sha256(data: &Vec<u8>) -> (r: Vec<u8>)
    ensures
        r@ == sha256_of(data@),
        r@.len() == 32,
{
    sha2::Sha256::digest(data.as_slice()).to_vec()
}

/// The four bytes of a 32-bit value, most significant first.
pub open spec fn u32_be(v: u32) -> Seq<u8> {
    seq![(v >> 24) as u8, (v >> 16) as u8, (v >> 8) as u8, v as u8]
}

/// Serializes a 32-bit value as four big-endian bytes.
pub fn u32_to_be(v: u32) -> (r: Vec<u8>)
    ensures
        r@ == u32_be(v),
{
    let mut r: Vec<u8> = Vec::new();
    r.push(#[verifier::truncate] ((v >> 24) as u8));
    r.push(#[verifier::truncate] ((v >> 16) as u8));
    r.push(#[verifier::truncate] ((v >> 8) as u8));
    r.push(#[verifier::truncate] (v as u8));
    proof {
        assert(r@ =~= u32_be(v));
    }
    r
}

/// The hash a leaf commits to: SHA-256 of the residue's four
/// big-endian bytes.
pub open spec fn leaf_hash(v: u32) -> Seq<u8> {
    sha256_of(u32_be(v))
}

/// The sibling of a node in the heap layout with children `2i+1`, `2i+2`.
pub open spec fn sibling(i: int) -> int {
    if i % 2 == 0 {
        i - 1
    } else {
        i + 1
    }
}

/// The authentication path for tree index `i`: the sibling digest at
/// every level from the node up to, but excluding, the root.
pub open spec fn path_of(nodes: Seq<Seq<u8>>, i: int) -> Seq<Seq<u8>>
    decreases i,
{
    if i <= 0 {
        Seq::empty()
    } else {
        seq![nodes[sibling(i)]] + path_of(nodes, (i - 1) / 2)
    }
}

/// Recomputes the root digest from a node's digest, its tree index,
/// and the sibling digests along the way up: a right child (even
/// index) is hashed after its sibling, a left child before it.
pub open spec fn root_from_path(h: Seq<u8>, i: int, path: Seq<Seq<u8>>) -> Seq<u8>
    decreases path.len(),
{
    if path.len() == 0 {
        h
    } else {
        let combined = if i % 2 == 0 {
            sha256_of(path[0] + h)
        } else {
            sha256_of(h + path[0])
        };
        root_from_path(combined, (i - 1) / 2, path.subrange(1, path.len() as int))
    }
}

/// A perfect binary Merkle tree in heap layout: the root at index 0,
/// the children of node `i` at `2i+1` and `2i+2`, the leaves in the
/// upper half of the array.
pub struct Merkle {
    pub nodes: Vec<Vec<u8>>,
}

impl Merkle {
    /// The stored digests.
    pub open spec fn nodes_view(self) -> Seq<Seq<u8>> {
        self.nodes@.map_values(|v: Vec<u8>| v@)
    }

    /// The number of leaves.
    pub open spec fn leaf_count(self) -> int {
        (self.nodes_view().len() as int + 1) / 2
    }

    /// The array holds an odd number of 32-byte digests, and every
    /// internal node is the hash of its two children.
    pub open spec fn wf(self) -> bool {
        &&& self.nodes_view().len() >= 1
        &&& self.nodes_view().len() % 2 == 1
        &&& forall|i: int|
            0 <= i < self.nodes_view().len() ==> (#[trigger] self.nodes_view()[i]).len() == 32
        &&& forall|i: int|
            0 <= i < (self.nodes_view().len() - 1) / 2 ==> #[trigger] self.nodes_view()[i]
                == sha256_of(self.nodes_view()[2 * i + 1] + self.nodes_view()[2 * i + 2])
    }

    /// Builds the tree over the residues in `data`: leaf `i` holds
    /// SHA-256 of the big-endian bytes of `data[i]`, and each internal
    /// node the hash of its children's concatenation.
    #[verifier::loop_isolation(false)]
    pub fn new(size: usize, data: &Vec<u32>) -> (r: Merkle)
        requires
            size == data@.len(),
            1 <= size,
            size <= 0x1000_0000,
        ensures
            r.wf(),
            r.nodes_view().len() == 2 * size - 1,
            r.leaf_count() == size,
            forall|i: int|
                0 <= i < size ==> r.nodes_view()[size - 1 + i] == leaf_hash(
                    #[trigger] data@[i] as u32,
                ),
    {
        let total = 2 * size - 1;
        let mut nodes: Vec<Vec<u8>> = Vec::new();
        // placeholders for the internal nodes
        while nodes.len() < size - 1
            invariant
                nodes@.len() <= size - 1,
            decreases size - 1 - nodes.len(),
        {
            nodes.push(Vec::new());
        }
        // the leaf layer
        let mut i: usize = 0;
        while i < size
            invariant
                i <= size,
                nodes@.len() == size - 1 + i,
                forall|j: int|
                    size - 1 <= j < nodes@.len() ==> (#[trigger] nodes@[j])@ == leaf_hash(
                        data@[j - (size - 1)] as u32,
                    ) && nodes@[j]@.len() == 32,
            decreases size - i,
        {
            let bytes = u32_to_be(data[i]);
            nodes.push(sha256(&bytes));
            i = i + 1;
        }
        // the internal nodes, bottom-up
        let mut idx: usize = size - 1;
        while idx > 0
            invariant
                idx <= size - 1,
                nodes@.len() == total,
                forall|j: int|
                    size - 1 <= j < nodes@.len() ==> (#[trigger] nodes@[j])@ == leaf_hash(
                        data@[j - (size - 1)] as u32,
                    ) && nodes@[j]@.len() == 32,
                forall|j: int|
                    idx <= j < size - 1 ==> (#[trigger] nodes@[j])@ == sha256_of(
                        nodes@[2 * j + 1]@ + nodes@[2 * j + 2]@,
                    ) && nodes@[j]@.len() == 32,
            decreases idx,
        {
            idx = idx - 1;
            let mut buf: Vec<u8> = Vec::new();
            let mut left = nodes[2 * idx + 1].clone();
            let mut right = nodes[2 * idx + 2].clone();
            proof {
                assert(left@ == nodes@[2 * idx + 1]@);
                assert(right@ == nodes@[2 * idx + 2]@);
            }
            buf.append(&mut left);
            buf.append(&mut right);
            proof {
                assert(buf@ =~= nodes@[2 * idx + 1]@ + nodes@[2 * idx + 2]@);
            }
            let h = sha256(&buf);
            nodes[idx] = h;
        }
        let r = Merkle { nodes };
        proof {
            assert forall|j: int| 0 <= j < (r.nodes_view().len() - 1) / 2 implies #[trigger] r
                .nodes_view()[j] == sha256_of(
                r.nodes_view()[2 * j + 1] + r.nodes_view()[2 * j + 2],
            ) by {
                assert((r.nodes_view().len() - 1) / 2 == size - 1);
            }
        }
        r
    }

    /// The root digest.
    pub fn root(&self) -> (r: Vec<u8>)
        requires
            self.wf(),
        ensures
            r@ == self.nodes_view()[0],
    {
        self.nodes[0].clone()
    }

    /// The stored digest at tree index `i` (the root is index 0).
    pub fn node(&self, i: usize) -> (r: Vec<u8>)
        requires
            self.wf(),
            i < self.nodes_view().len(),
        ensures
            r@ == self.nodes_view()[i as int],
    {
        self.nodes[i].clone()
    }

    /// The authentication path for leaf `i`: the sibling digest at
    /// every level from the leaf up to, but excluding, the root.
    #[verifier::loop_isolation(false)]
    pub fn trace(&self, i: usize) -> (r: Vec<Vec<u8>>)
        requires
            self.wf(),
            i < self.leaf_count(),
        ensures
            r@.map_values(|v: Vec<u8>| v@) == path_of(
                self.nodes_view(),
                self.leaf_count() - 1 + i,
            ),
    {
        let n = self.nodes.len() / 2 + 1;
        proof {
            assert(n == self.leaf_count());
        }
        let mut cur = n - 1 + i;
        let mut r: Vec<Vec<u8>> = Vec::new();
        while cur > 0
            invariant
                cur < self.nodes_view().len(),
                r@.map_values(|v: Vec<u8>| v@) + path_of(self.nodes_view(), cur as int) == path_of(
                    self.nodes_view(),
                    self.leaf_count() - 1 + i,
                ),
            decreases cur,
        {
            let ghost pre = r@.map_values(|v: Vec<u8>| v@);
            let sib = if cur % 2 == 0 {
                cur - 1
            } else {
                cur + 1
            };
            proof {
                assert(sib == sibling(cur as int));
                if cur % 2 == 1 {
                    // a left child's sibling is inside the array
                    assert(cur + 1 < self.nodes_view().len());
                }
            }
            r.push(self.node(sib));
            cur = (cur - 1) / 2;
            proof {
                assert(r@.map_values(|v: Vec<u8>| v@) =~= pre + seq![
                    self.nodes_view()[sib as int],
                ]);
                assert(pre + seq![self.nodes_view()[sib as int]] + path_of(
                    self.nodes_view(),
                    cur as int,
                ) =~= pre + (seq![self.nodes_view()[sib as int]] + path_of(
                    self.nodes_view(),
                    cur as int,
                )));
            }
        }
        proof {
            assert(path_of(self.nodes_view(), 0) =~= Seq::<Seq<u8>>::empty());
            assert(r@.map_values(|v: Vec<u8>| v@) + Seq::<Seq<u8>>::empty() =~= r@.map_values(
                |v: Vec<u8>| v@,
            ));
        }
        r
    }
}

/// Recomputes the root digest committed to by `element` at leaf index
/// `index` with the given authentication path.
#[verifier::loop_isolation(false)]
pub fn compute_root_from_path(element: u32, index: usize, path: &Vec<Vec<u8>>) -> (r: Vec<u8>)
    requires
        path@.len() < 32,
        index < (1usize << path@.len()),
    ensures
        r@ == root_from_path(
            leaf_hash(element),
            index + (1usize << path@.len()) - 1,
            path@.map_values(|v: Vec<u8>| v@),
        ),
{
    let bytes = u32_to_be(element);
    let mut current = sha256(&bytes);
    let plen = path.len();
    proof {
        assert(1usize << plen >= 1 && 1usize << plen <= 0x8000_0000usize) by (bit_vector)
            requires
                plen < 32usize,
        ;
        assert(path@.map_values(|v: Vec<u8>| v@).skip(0) =~= path@.map_values(|v: Vec<u8>| v@));
    }
    let offset = (1usize << plen) - 1;
    let mut idx = index + offset;
    let mut level: usize = 0;
    while level < path.len()
        invariant
            level <= path@.len(),
            idx as int >= (1usize << ((plen - level) as usize)) as int - 1,
            root_from_path(
                current@,
                idx as int,
                path@.map_values(|v: Vec<u8>| v@).skip(level as int),
            ) == root_from_path(
                leaf_hash(element),
                index + (1usize << path@.len()) - 1,
                path@.map_values(|v: Vec<u8>| v@),
            ),
        decreases path@.len() - level,
    {
        let s = plen - level;
        proof {
            assert((1usize << s) == 2 * (1usize << ((s - 1) as usize)) && (1usize << s) >= 2)
                by (bit_vector)
                requires
                    1 <= s < 32usize,
            ;
            assert(idx >= 1);
        }
        let ghost mapped = path@.map_values(|v: Vec<u8>| v@);
        let ghost rest = mapped.skip(level as int);
        let mut buf: Vec<u8> = Vec::new();
        let mut sib = path[level].clone();
        proof {
            assert(sib@ == mapped[level as int]);
            assert(rest[0] == mapped[level as int]);
        }
        if idx % 2 == 0 {
            let mut cur = current;
            buf.append(&mut sib);
            buf.append(&mut cur);
            proof {
                assert(buf@ =~= rest[0] + current@);
            }
            current = sha256(&buf);
        } else {
            let mut cur = current;
            buf.append(&mut cur);
            buf.append(&mut sib);
            proof {
                assert(buf@ =~= current@ + rest[0]);
            }
            current = sha256(&buf);
        }
        proof {
            assert(rest.subrange(1, rest.len() as int) =~= mapped.skip(level + 1));
        }
        let ghost idx0 = idx as int;
        idx = (idx - 1) / 2;
        level = level + 1;
        proof {
            let twos = (1usize << s) as int;
            let half = (1usize << ((s - 1) as usize)) as int;
            assert(twos == 2 * half);
            vstd::arithmetic::div_mod::lemma_div_is_ordered(twos - 2, idx0 - 1, 2);
            vstd::arithmetic::div_mod::lemma_fundamental_div_mod_converse(
                2 * half - 2,
                2,
                half - 1,
                0,
            );
            assert((plen - level) as usize == (s - 1) as usize);
            assert(idx as int >= half - 1);
        }
    }
    proof {
        assert(path@.map_values(|v: Vec<u8>| v@).skip(path@.len() as int)
            =~= Seq::<Seq<u8>>::empty());
    }
    current
}

/// In a well-formed tree, the authentication path of any node leads
/// back to the root.
pub proof fn lemma_path_to_root(nodes: Seq<Seq<u8>>, i: int)
    requires
        nodes.len() % 2 == 1,
        0 <= i < nodes.len(),
        forall|j: int|
            0 <= j < (nodes.len() - 1) / 2 ==> #[trigger] nodes[j] == sha256_of(
                nodes[2 * j + 1] + nodes[2 * j + 2],
            ),
    ensures
        root_from_path(nodes[i], i, path_of(nodes, i)) == nodes[0],
    decreases i,
{
    if i <= 0 {
    } else {
        let p = (i - 1) / 2;
        let path = path_of(nodes, i);
        vstd::arithmetic::div_mod::lemma_fundamental_div_mod(i - 1, 2);
        if i % 2 == 1 {
            assert(i == 2 * p + 1);
            assert(i + 1 < nodes.len());
            assert(nodes[p] == sha256_of(nodes[i] + nodes[i + 1]));
        } else {
            assert(i == 2 * p + 2);
            assert(nodes[p] == sha256_of(nodes[i - 1] + nodes[i]));
        }
        assert(path.subrange(1, path.len() as int) =~= path_of(nodes, p));
        lemma_path_to_root(nodes, p);
    }
}

/// Every digest on an authentication path is a stored digest, so all
/// of them are 32 bytes long in a well-formed tree.
pub proof fn lemma_path_entry_lengths(nodes: Seq<Seq<u8>>, i: int)
    requires
        nodes.len() % 2 == 1,
        0 <= i < nodes.len(),
        forall|j: int| 0 <= j < nodes.len() ==> (#[trigger] nodes[j]).len() == 32,
    ensures
        forall|j: int|
            0 <= j < path_of(nodes, i).len() ==> (#[trigger] path_of(nodes, i)[j]).len() == 32,
    decreases i,
{
    if i <= 0 {
    } else {
        let p = (i - 1) / 2;
        vstd::arithmetic::div_mod::lemma_fundamental_div_mod(i - 1, 2);
        if i % 2 == 1 {
            assert(i + 1 < nodes.len());
        }
        lemma_path_entry_lengths(nodes, p);
        let path = path_of(nodes, i);
        assert(path.subrange(1, path.len() as int) =~= path_of(nodes, p));
        assert forall|j: int| 0 <= j < path.len() implies (#[trigger] path[j]).len() == 32 by {
            if j > 0 {
                assert(path[j] == path_of(nodes, p)[j - 1]);
            }
        }
    }
}

impl Merkle {
    /// In a well-formed tree the authentication path of leaf `i`
    /// recomputes the root from the leaf's stored digest.
    pub proof fn lemma_trace_verifies(self, i: int)
        requires
            self.wf(),
            0 <= i < self.leaf_count(),
        ensures
            root_from_path(
                self.nodes_view()[self.leaf_count() - 1 + i],
                self.leaf_count() - 1 + i,
                path_of(self.nodes_view(), self.leaf_count() - 1 + i),
            ) == self.nodes_view()[0],
    {
        lemma_path_to_root(self.nodes_view(), self.leaf_count() - 1 + i);
    }
}

} // verus!
