//! Binary hash tree whose leaves, read in increasing path order, form a keystream.
use vstd::arithmetic::power2::{lemma2_to64, lemma_pow2_strictly_increases, pow2};
use vstd::prelude::*;

verus! {

/// Largest supported tree depth (and number of slots in the node chain).
pub const MAX_DEPTH: usize = 32;

/// Size in bytes of one node value.
pub const HASH_SIZE: usize = 32;

/// One node value of the tree.
pub type Node = [u8; 32];

/// The BLAKE3 digest of `input`.
pub uninterp spec fn blake3_of(input: Seq<u8>) -> Seq<u8>;

/// Relies on blake3::hash: the 32-byte digest of the input, which depends on
/// the input bytes alone.
#[verifier::external_body]
fn blake3_hash(input: &[u8; 32]) -> (r: [u8; 32])
    ensures
        r@ == blake3_of(input@),
{
    *blake3::hash(input).as_bytes()
}

/// The leaf index mask for a tree of `depth` levels: `2^depth - 1`, the index
/// of its last leaf.
pub open spec fn mask_of(depth: u8) -> u32 {
    (pow2(depth as nat) - 1) as u32
}

/// Decision bit of `path` at tree level `level` (level 0 is next to the root).
pub open spec fn path_bit(path: u32, depth: int, level: int) -> bool {
    ((path >> ((depth - 1 - level) as u32)) & 1u32) == 1u32
}

/// The input hashed to obtain a child: the parent as is for a left child, the
/// parent with its bytes reversed for a right child.
pub open spec fn child_input(parent: Seq<u8>, right: bool) -> Seq<u8> {
    if right {
        parent.reverse()
    } else {
        parent
    }
}

/// Value of the node at `level` on the way from `seed` to leaf `path`.
pub open spec fn node_value(seed: Seq<u8>, path: u32, depth: int, level: nat) -> Seq<u8>
    decreases level,
{
    let parent = if level == 0 {
        seed
    } else {
        node_value(seed, path, depth, (level - 1) as nat)
    };
    blake3_of(child_input(parent, path_bit(path, depth, level as int)))
}

/// Value of leaf `path`.
pub open spec fn leaf_value(seed: Seq<u8>, path: u32, depth: int) -> Seq<u8> {
    node_value(seed, path, depth, (depth - 1) as nat)
}

/// Byte `k` of the keystream: byte `k % 32` of leaf `k / 32`.
pub open spec fn keystream_byte(seed: Seq<u8>, depth: int, k: nat) -> u8 {
    leaf_value(seed, (k / 32) as u32, depth)[(k % 32) as int]
}

/// The `n` keystream bytes that start at position `start`.
pub open spec fn keystream(seed: Seq<u8>, depth: int, start: nat, n: nat) -> Seq<u8> {
    Seq::new(n, |i: int| keystream_byte(seed, depth, start + i as nat))
}

/// `b` with its bytes in reverse order.
fn reversed(b: &[u8; 32]) -> (r: [u8; 32])
    ensures
        r@ == b@.reverse(),
{
    let mut out: [u8; 32] = *b;
    let mut i: usize = 0;
    while i < 32
        invariant
            i <= 32,
            out@.len() == 32,
            forall|k: int| 0 <= k < i ==> out@[k] == b@[31 - k],
        decreases 32 - i,
    {
        out[i] = b[31 - i];
        i = i + 1;
    }
    assert(out@ =~= b@.reverse());
    out
}

/// Bits of a path at or above `depth` are zero.
proof fn lemma_high_bit_zero(p: u32, d: u8, j: u32)
    requires
        d <= 32,
        d as u32 <= j < 32,
        p <= mask_of(d),
    ensures
        (p >> j) & 1u32 == 0u32,
{
    lemma2_to64();
    if d < j {
        lemma_pow2_strictly_increases(d as nat, j as nat);
    }
    assert(p < pow2(j as nat));
    vstd::bits::lemma_u32_shr_is_div(p, j);
    vstd::arithmetic::div_mod::lemma_basic_div(p as int, pow2(j as nat) as int);
    let z = p >> j;
    assert(z == 0);
    assert(z == 0u32 ==> z & 1u32 == 0u32) by (bit_vector);
}

/// Where the agreement mask of two paths has a one bit, the paths agree.
proof fn lemma_agreement_bit(p: u32, q: u32, j: u32)
    requires
        j < 32,
        (((p & q) | (!p & !q)) >> j) & 1u32 == 1u32,
    ensures
        (p >> j) & 1u32 == (q >> j) & 1u32,
{
    assert((p >> j) & 1u32 == (q >> j) & 1u32) by (bit_vector)
        requires
            j < 32,
            (((p & q) | (!p & !q)) >> j) & 1u32 == 1u32,
    ;
}

/// Where two paths both have a zero bit, their agreement mask has a one bit.
proof fn lemma_agreement_of_zeros(p: u32, q: u32, j: u32)
    requires
        j < 32,
        (p >> j) & 1u32 == 0u32,
        (q >> j) & 1u32 == 0u32,
    ensures
        (((p & q) | (!p & !q)) >> j) & 1u32 == 1u32,
{
    assert((((p & q) | (!p & !q)) >> j) & 1u32 == 1u32) by (bit_vector)
        requires
            j < 32,
            (p >> j) & 1u32 == 0u32,
            (q >> j) & 1u32 == 0u32,
    ;
}

/// Two paths of a tree of `depth` levels agree on at least the `32 - depth`
/// unused high bits, and on every level above the first level where they part.
proof fn lemma_common_levels(p: u32, q: u32, d: u8)
    requires
        1 <= d <= 32,
        p <= mask_of(d),
        q <= mask_of(d),
    ensures
        ({
            let ones = ((p & q) | (!p & !q)).leading_ones();
            &&& 32 - d <= ones <= 32
            &&& forall|l: int|
                0 <= l < ones - (32 - d) ==> path_bit(p, d as int, l) == path_bit(q, d as int, l)
        }),
{
    let c = (p & q) | (!p & !q);
    let ones = c.leading_ones();
    broadcast use vstd::std_specs::bits::axiom_u32_leading_ones;

    if ones < 32 - d {
        let j: u32 = (31 - ones) as u32;
        lemma_high_bit_zero(p, d, j);
        lemma_high_bit_zero(q, d, j);
        lemma_agreement_of_zeros(p, q, j);
        assert(false);
    }
    assert forall|l: int| 0 <= l < ones - (32 - d) implies path_bit(p, d as int, l) == path_bit(
        q,
        d as int,
        l,
    ) by {
        let j = (d - 1 - l) as u32;
        assert(32 - ones <= j < 32);
        assert((c >> j) & 1u32 == 1u32);
        lemma_agreement_bit(p, q, j);
    }
}

/// Nodes above the first level where two paths part are the same for both.
proof fn lemma_shared_prefix(seed: Seq<u8>, p: u32, q: u32, depth: int, n: nat, level: nat)
    requires
        level < n,
        forall|l: int| 0 <= l < n ==> path_bit(p, depth, l) == path_bit(q, depth, l),
    ensures
        node_value(seed, p, depth, level) == node_value(seed, q, depth, level),
    decreases level,
{
    assert(path_bit(p, depth, level as int) == path_bit(q, depth, level as int));
    if level > 0 {
        lemma_shared_prefix(seed, p, q, depth, n, (level - 1) as nat);
    }
}

/// Why a keystream read failed.
#[derive(Debug, Clone, Copy, PartialEq, Eq)]
pub enum KeystreamError {
    /// Every leaf of the tree has been handed out.
    Exhausted,
}

/// Consecutive keystream stretches join into one.
pub proof fn lemma_keystream_concat(seed: Seq<u8>, depth: int, start: nat, a: nat, b: nat)
    ensures
        keystream(seed, depth, start, a) + keystream(seed, depth, start + a, b) == keystream(
            seed,
            depth,
            start,
            a + b,
        ),
{
    assert(keystream(seed, depth, start, a) + keystream(seed, depth, start + a, b) =~= keystream(
        seed,
        depth,
        start,
        a + b,
    ));
}

/// Keystream generator over a binary hash tree of `depth` levels.
///
/// The node chain caches the values from the seed down to the current leaf;
/// `offset` counts the bytes of that leaf already handed out.
pub struct HashTree {
    seed: Node,
    path: u32,
    mask: u32,
    depth: u8,
    nodes: Vec<Node>,
    offset: usize,
}

impl HashTree {
    /// The seed the tree grows from.
    pub closed spec fn seed(&self) -> Seq<u8> {
        self.seed@
    }

    /// Index of the current leaf.
    pub closed spec fn path(&self) -> u32 {
        self.path
    }

    /// Number of levels.
    pub closed spec fn depth(&self) -> u8 {
        self.depth
    }

    /// Bytes of the current leaf already handed out.
    pub closed spec fn offset(&self) -> nat {
        self.offset as nat
    }

    /// The cached node chain, from the root's child down to the current leaf.
    pub closed spec fn chain(&self) -> Seq<Seq<u8>> {
        Seq::new(self.depth as nat, |l: int| self.nodes@[l]@)
    }

    /// Keystream position of the next byte to hand out.
    pub open spec fn position(&self) -> nat {
        self.path() as nat * 32 + self.offset()
    }

    /// Number of keystream bytes the tree holds: 32 per leaf.
    pub open spec fn capacity(&self) -> nat {
        (mask_of(self.depth()) as nat + 1) * 32
    }

    /// The chain that full recomputation yields for `path`.
    pub open spec fn fresh_chain(seed: Seq<u8>, path: u32, depth: u8) -> Seq<Seq<u8>> {
        Seq::new(depth as nat, |l: int| node_value(seed, path, depth as int, l as nat))
    }

    /// The internal invariant.
    pub closed spec fn wf(&self) -> bool {
        &&& 1 <= self.depth <= 32
        &&& self.mask == mask_of(self.depth)
        &&& self.path <= self.mask
        &&& self.offset <= 32
        &&& self.offset == 32 ==> self.path == self.mask
        &&& self.nodes@.len() == 32
        &&& forall|l: int|
            0 <= l < self.depth ==> #[trigger] self.nodes@[l]@ == node_value(
                self.seed@,
                self.path,
                self.depth as int,
                l as nat,
            )
    }

    /// What `wf` tells callers.
    pub proof fn lemma_wf(&self)
        requires
            self.wf(),
        ensures
            1 <= self.depth() <= 32,
            self.path() <= mask_of(self.depth()),
            self.offset() <= 32,
            self.offset() == 32 ==> self.path() == mask_of(self.depth()),
            self.position() <= self.capacity(),
            self.chain() == Self::fresh_chain(self.seed(), self.path(), self.depth()),
    {
        assert(self.chain() =~= Self::fresh_chain(self.seed(), self.path(), self.depth()));
        assert(self.path as nat * 32 + self.offset as nat <= (self.mask as nat + 1) * 32)
            by (nonlinear_arith)
            requires
                self.path <= self.mask,
                self.offset <= 32,
        ;
    }


    /// Creates a tree of `depth` levels positioned at the start of leaf `path`.
    pub fn create(depth: u8, path: u32, seed: Node) -> (r: Self)
        requires
            1 <= depth <= 32,
            path <= mask_of(depth),
        ensures
            r.wf(),
            r.seed() == seed@,
            r.depth() == depth,
            r.path() == path,
            r.offset() == 0,
            r.chain() == Self::fresh_chain(seed@, path, depth),
    {
        proof {
            lemma2_to64();
            if depth < 32 {
                lemma_pow2_strictly_increases(depth as nat, 32);
            }
            vstd::bits::lemma_u64_shl_is_mul(1, depth as u64);
        }
        let mask: u32 = ((1u64 << depth) - 1) as u32;
        let mut nodes: Vec<Node> = Vec::new();
        let mut k: usize = 0;
        while k < MAX_DEPTH
            invariant
                k <= MAX_DEPTH,
                nodes@.len() == k,
            decreases MAX_DEPTH - k,
        {
            nodes.push([0u8; 32]);
            k = k + 1;
        }
        let mut instance = HashTree { seed, path, mask, depth, nodes, offset: 0 };
        instance.compute_values(0);
        proof {
            instance.lemma_wf();
        }
        instance
    }

    /// Last leaf index: `2^depth - 1`.
    pub fn last_leaf_index(&self) -> (r: usize)
        requires
            self.wf(),
        ensures
            r == mask_of(self.depth()),
    {
        self.mask as usize
    }

    /// Last byte index: the last leaf index times the hash size.
    pub fn last_byte_index(&self) -> (r: u64)
        requires
            self.wf(),
        ensures
            r == mask_of(self.depth()) * 32,
    {
        self.mask as u64 * HASH_SIZE as u64
    }

    /// Moves to the start of leaf `path`, recomputing only the levels below the
    /// first one where the old and new paths part.
    pub fn goto(&mut self, path: u32)
        requires
            old(self).wf(),
            path <= mask_of(old(self).depth()),
        ensures
            final(self).wf(),
            final(self).seed() == old(self).seed(),
            final(self).depth() == old(self).depth(),
            final(self).path() == path,
            final(self).offset() == 0,
            final(self).chain() == Self::fresh_chain(old(self).seed(), path, old(self).depth()),
            // the levels above the first one where the paths part are kept
            forall|l: int|
                0 <= l < old(self).depth() && (forall|m: int|
                    0 <= m <= l ==> path_bit(old(self).path(), old(self).depth() as int, m)
                        == path_bit(path, old(self).depth() as int, m))
                    ==> #[trigger] final(self).chain()[l] == old(self).chain()[l],
    {
        let common = (self.path & path) | (!self.path & !path);
        let ones = common.leading_ones();
        proof {
            lemma_common_levels(self.path, path, self.depth);
        }
        let n = (self.depth as u32 - (32 - ones)) as u8;
        proof {
            let old_path = self.path;
            assert forall|l: int| 0 <= l < n implies #[trigger] self.nodes@[l]@ == node_value(
                self.seed@,
                path,
                self.depth as int,
                l as nat,
            ) by {
                lemma_shared_prefix(self.seed@, old_path, path, self.depth as int, n as nat, l as nat);
            }
        }
        let ghost before = *self;
        self.path = path;
        self.offset = 0;
        self.compute_values(n);
        proof {
            self.lemma_wf();
            assert forall|l: int|
                0 <= l < before.depth && (forall|m: int|
                    0 <= m <= l ==> path_bit(before.path, before.depth as int, m)
                        == path_bit(path, before.depth as int, m)) implies #[trigger] self.chain()[l]
                == before.chain()[l] by {
                lemma_shared_prefix(self.seed@, before.path, path, self.depth as int, (l + 1) as nat, l as nat);
            }
        }
    }


    /// Copies the next keystream bytes, at most up to the end of the current
    /// leaf, into `buffer` from index `start` on; moves on to the next leaf
    /// when the current one is used up.
    fn fill(&mut self, buffer: &mut [u8], start: usize) -> (n: usize)
        requires
            old(self).wf(),
            old(self).position() < old(self).capacity(),
            start <= old(buffer)@.len(),
        ensures
            final(self).wf(),
            final(self).seed() == old(self).seed(),
            final(self).depth() == old(self).depth(),
            n == (if old(buffer)@.len() - start < 32 - old(self).offset() {
                old(buffer)@.len() - start
            } else {
                32 - old(self).offset()
            }),
            final(self).position() == old(self).position() + n,
            final(buffer)@.len() == old(buffer)@.len(),
            final(buffer)@.subrange(start as int, start + n) == keystream(
                old(self).seed(),
                old(self).depth() as int,
                old(self).position(),
                n as nat,
            ),
            forall|j: int|
                0 <= j < old(buffer)@.len() && !(start <= j < start + n)
                    ==> #[trigger] final(buffer)@[j] == old(buffer)@[j],
    {
        proof {
            self.lemma_wf();
        }
        let d = self.depth as usize;
        let leaf: Node = self.nodes[d - 1];
        let off = self.offset;
        let avail = 32 - off;
        let blen = buffer.len();
        let want = blen - start;
        let len = if want < avail {
            want
        } else {
            avail
        };
        let ghost seed = self.seed@;
        let ghost pos = self.position();
        let ghost path = self.path;
        let ghost depth = self.depth as int;
        assert(leaf@ == leaf_value(seed, path, depth));
        let mut k: usize = 0;
        while k < len
            invariant
                k <= len,
                off + len <= 32,
                start + len <= blen,
                buffer@.len() == blen,
                blen == old(buffer)@.len(),
                pos == path as nat * 32 + off,
                leaf@ == leaf_value(seed, path, depth),
                forall|j: int|
                    0 <= j < k ==> #[trigger] buffer@[start + j] == keystream_byte(
                        seed,
                        depth,
                        pos + j as nat,
                    ),
                forall|j: int|
                    0 <= j < buffer@.len() && !(start <= j < start + k)
                        ==> #[trigger] buffer@[j] == old(buffer)@[j],
            decreases len - k,
        {
            proof {
                vstd::arithmetic::div_mod::lemma_fundamental_div_mod_converse(
                    pos + k,
                    32,
                    path as int,
                    off + k,
                );
            }
            buffer[start + k] = leaf[off + k];
            k = k + 1;
        }
        assert forall|j: int| 0 <= j < len implies #[trigger] buffer@.subrange(
            start as int,
            start + len,
        )[j] == keystream(seed, depth, pos, len as nat)[j] by {
            assert(buffer@[start + j] == keystream_byte(seed, depth, pos + j as nat));
        }
        assert(buffer@.subrange(start as int, start + len) =~= keystream(seed, depth, pos, len as nat));
        if off + len < 32 {
            self.offset = off + len;
        } else if self.path < self.mask {
            self.goto(self.path + 1);
        } else {
            self.offset = 32;
        }
        len
    }

    /// Copies the next keystream bytes into `buffer`: as many as fit, but not
    /// past the end of the current leaf. Once a leaf is used up the tree
    /// moves on to the next one.
    pub fn read(&mut self, buffer: &mut [u8]) -> (r: Result<usize, KeystreamError>)
        requires
            old(self).wf(),
        ensures
            final(self).wf(),
            final(self).seed() == old(self).seed(),
            final(self).depth() == old(self).depth(),
            r.is_err() <==> old(self).position() == old(self).capacity(),
            r.is_err() ==> *final(self) == *old(self) && final(buffer)@ == old(buffer)@,
            r matches Ok(n) ==> {
                &&& n == (if old(buffer)@.len() < 32 - old(self).offset() {
                    old(buffer)@.len() as int
                } else {
                    32 - old(self).offset()
                })
                &&& final(self).position() == old(self).position() + n
                &&& final(buffer)@ == keystream(
                    old(self).seed(),
                    old(self).depth() as int,
                    old(self).position(),
                    n as nat,
                ) + old(buffer)@.subrange(n as int, old(buffer)@.len() as int)
            },
    {
        proof {
            self.lemma_wf();
        }
        if self.offset == 32 {
            return Err(KeystreamError::Exhausted);
        }
        let ghost before = buffer@;
        let n = self.fill(buffer, 0);
        assert(buffer@ =~= buffer@.subrange(0, n as int) + before.subrange(
            n as int,
            before.len() as int,
        ));
        Ok(n)
    }

    /// Fills all of `buffer` with the next keystream bytes, or fails, leaving
    /// everything as it was, when fewer than that many are left.
    pub fn read_exact(&mut self, buffer: &mut [u8]) -> (r: Result<(), KeystreamError>)
        requires
            old(self).wf(),
        ensures
            final(self).wf(),
            final(self).seed() == old(self).seed(),
            final(self).depth() == old(self).depth(),
            r.is_err() <==> old(self).position() + old(buffer)@.len() > old(self).capacity(),
            r.is_err() ==> *final(self) == *old(self) && final(buffer)@ == old(buffer)@,
            r.is_ok() ==> {
                &&& final(self).position() == old(self).position() + old(buffer)@.len()
                &&& final(buffer)@ == keystream(
                    old(self).seed(),
                    old(self).depth() as int,
                    old(self).position(),
                    old(buffer)@.len(),
                )
            },
    {
        proof {
            self.lemma_wf();
        }
        let capacity: u64 = (self.mask as u64 + 1) * 32;
        let position: u64 = self.path as u64 * 32 + self.offset as u64;
        let len = buffer.len();
        if len as u64 > capacity - position {
            return Err(KeystreamError::Exhausted);
        }
        let ghost seed = self.seed();
        let ghost depth = self.depth() as int;
        let ghost pos0 = self.position();
        let mut filled: usize = 0;
        while filled < len
            invariant
                self.wf(),
                self.seed() == seed,
                self.depth() as int == depth,
                filled <= len,
                buffer@.len() == len,
                pos0 + len <= self.capacity(),
                self.position() == pos0 + filled,
                buffer@.subrange(0, filled as int) == keystream(seed, depth, pos0, filled as nat),
            decreases len - filled,
        {
            proof {
                self.lemma_wf();
            }
            let ghost prefix = buffer@.subrange(0, filled as int);
            let n = self.fill(buffer, filled);
            proof {
                assert(buffer@.subrange(0, filled as int) =~= prefix);
                assert(buffer@.subrange(0, filled + n) =~= buffer@.subrange(0, filled as int)
                    + buffer@.subrange(filled as int, filled + n));
                lemma_keystream_concat(seed, depth, pos0, filled as nat, n as nat);
            }
            filled = filled + n;
        }
        assert(buffer@ =~= buffer@.subrange(0, len as int));
        Ok(())
    }

    /// Value of the chain node at `level` (the leaf is at `depth - 1`).
    pub fn node(&self, level: usize) -> (r: Node)
        requires
            self.wf(),
            level < self.depth(),
        ensures
            r@ == self.chain()[level as int],
            r@ == node_value(self.seed(), self.path(), self.depth() as int, level as nat),
    {
        self.nodes[level]
    }

    /// Bytes of the current leaf already handed out.
    pub fn current_offset(&self) -> (r: usize)
        requires
            self.wf(),
        ensures
            r == self.offset(),
    {
        self.offset
    }

    /// Index of the current leaf.
    pub fn current_path(&self) -> (r: u32)
        requires
            self.wf(),
        ensures
            r == self.path(),
    {
        self.path
    }

    /// Recomputes the chain from level `from` down to the leaf.
    fn compute_values(&mut self, from: u8)
        requires
            1 <= old(self).depth <= 32,
            from <= old(self).depth,
            old(self).nodes@.len() == 32,
            forall|l: int|
                0 <= l < from ==> #[trigger] old(self).nodes@[l]@ == node_value(
                    old(self).seed@,
                    old(self).path,
                    old(self).depth as int,
                    l as nat,
                ),
        ensures
            final(self).seed == old(self).seed,
            final(self).path == old(self).path,
            final(self).mask == old(self).mask,
            final(self).depth == old(self).depth,
            final(self).offset == old(self).offset,
            final(self).nodes@.len() == 32,
            forall|l: int|
                0 <= l < final(self).depth ==> #[trigger] final(self).nodes@[l]@ == node_value(
                    final(self).seed@,
                    final(self).path,
                    final(self).depth as int,
                    l as nat,
                ),
    {
        let depth = self.depth as usize;
        let path = self.path;
        let mut i = from as usize;
        let mut prev: Node = if i == 0 {
            self.seed
        } else {
            self.nodes[i - 1]
        };
        while i < depth
            invariant
                from <= i <= depth,
                depth == self.depth,
                1 <= depth <= 32,
                path == self.path,
                self.seed == old(self).seed,
                self.path == old(self).path,
                self.mask == old(self).mask,
                self.depth == old(self).depth,
                self.offset == old(self).offset,
                self.nodes@.len() == 32,
                prev@ == (if i == 0 {
                    self.seed@
                } else {
                    node_value(self.seed@, path, depth as int, (i - 1) as nat)
                }),
                forall|l: int|
                    0 <= l < i ==> #[trigger] self.nodes@[l]@ == node_value(
                        self.seed@,
                        path,
                        depth as int,
                        l as nat,
                    ),
            decreases depth - i,
        {
            let shift = (depth - 1 - i) as u32;
            let right = (path >> shift) & 1u32 == 1u32;
            let input: Node = if right {
                reversed(&prev)
            } else {
                prev
            };
            let value = blake3_hash(&input);
            assert(value@ == node_value(self.seed@, path, depth as int, i as nat));
            self.nodes.set(i, value);
            prev = value;
            i = i + 1;
        }
    }
}

/// Reaching a leaf by moving through the tree gives the same chain as building
/// the tree afresh at that leaf: two well-formed trees with the same seed,
/// depth and current leaf hold the same node chain.
pub proof fn lemma_traversal_matches_fresh(moved: &HashTree, fresh: &HashTree)
    requires
        moved.wf(),
        fresh.wf(),
        moved.seed() == fresh.seed(),
        moved.depth() == fresh.depth(),
        moved.path() == fresh.path(),
    ensures
        moved.chain() == fresh.chain(),
{
    moved.lemma_wf();
    fresh.lemma_wf();
}

/// Two trees with the same seed and depth at the same leaf and offset hold the
/// same chain and stand at the same keystream position, so the same reads give
/// the same bytes.
pub proof fn lemma_determinism(a: &HashTree, b: &HashTree, n: nat)
    requires
        a.wf(),
        b.wf(),
        a.seed() == b.seed(),
        a.depth() == b.depth(),
        a.path() == b.path(),
        a.offset() == b.offset(),
    ensures
        a.chain() == b.chain(),
        a.position() == b.position(),
        keystream(a.seed(), a.depth() as int, a.position(), n) == keystream(
            b.seed(),
            b.depth() as int,
            b.position(),
            n,
        ),
{
    lemma_traversal_matches_fresh(a, b);
}

/// The 32 keystream bytes at leaf `path` are that leaf's value, so reading
/// across a leaf boundary yields the two leaf values one after the other.
pub proof fn lemma_leaf_bytes(seed: Seq<u8>, depth: int, path: u32)
    requires
        path < 0xffff_ffffu32,
        leaf_value(seed, path, depth).len() == 32,
        leaf_value(seed, (path + 1) as u32, depth).len() == 32,
    ensures
        keystream(seed, depth, path as nat * 32, 32) == leaf_value(seed, path, depth),
        keystream(seed, depth, path as nat * 32, 64) == leaf_value(seed, path, depth) + leaf_value(
            seed,
            (path + 1) as u32,
            depth,
        ),
{
    let next = (path + 1) as u32;
    assert forall|i: int| 0 <= i < 64 implies #[trigger] keystream(seed, depth, path as nat * 32, 64)[i]
        == (leaf_value(seed, path, depth) + leaf_value(seed, next, depth))[i] by {
        if i < 32 {
            vstd::arithmetic::div_mod::lemma_fundamental_div_mod_converse(
                path as nat * 32 + i,
                32,
                path as int,
                i,
            );
        } else {
            vstd::arithmetic::div_mod::lemma_fundamental_div_mod_converse(
                path as nat * 32 + i,
                32,
                path + 1,
                i - 32,
            );
        }
    }
    assert(keystream(seed, depth, path as nat * 32, 64) =~= leaf_value(seed, path, depth)
        + leaf_value(seed, next, depth));
    assert forall|i: int| 0 <= i < 32 implies #[trigger] keystream(seed, depth, path as nat * 32, 32)[i]
        == leaf_value(seed, path, depth)[i] by {
        vstd::arithmetic::div_mod::lemma_fundamental_div_mod_converse(
            path as nat * 32 + i,
            32,
            path as int,
            i,
        );
    }
    assert(keystream(seed, depth, path as nat * 32, 32) =~= leaf_value(seed, path, depth));
}

} // verus!
