//! A binary Merkle tree over field elements, with authentication paths.
//!
//! Nodes are numbered as in a binary heap: node 1 is the root, node `k` has
//! the children `2k` and `2k + 1`, and with `n` leaves the leaf `i` is node
//! `n + i`. A leaf's digest is the hash of the decimal representation of its
//! value; an inner node's digest is the hash of its children's digests, the
//! left one first.

use crate::field::{decimal, digit_char, lemma_decimal_len, FieldElement};
use vstd::arithmetic::div_mod::*;
use vstd::arithmetic::power2::*;
use vstd::prelude::*;
use vstd::string::StringExecFns;

verus! {

/// The SHA-256 digest of the UTF-8 bytes of `input`, in lower-case
/// hexadecimal.
pub uninterp spec fn sha256_hex(input: Seq<char>) -> Seq<char>;

/// `sha256::digest` on a string slice: the digest depends on the input's
/// characters alone.
#[verifier::external_body]
fn digest(input: &str) -> (r: String)
    ensures
        r@ == sha256_hex(input@),
{
    sha256::digest(input)
}

/// The digest of a leaf that holds the residue `value`.
pub open spec fn leaf_digest(value: nat) -> Seq<char> {
    sha256_hex(decimal(value))
}

/// The digest of an inner node with the given children.
pub open spec fn parent_digest(left: Seq<char>, right: Seq<char>) -> Seq<char> {
    sha256_hex(left + right)
}

/// The digest of node `k` in the tree over `leaves`.
pub open spec fn node_digest(leaves: Seq<nat>, k: nat) -> Seq<char>
    decreases 2 * leaves.len() - k,
{
    if 1 <= k < leaves.len() {
        parent_digest(node_digest(leaves, 2 * k), node_digest(leaves, 2 * k + 1))
    } else if leaves.len() <= k < 2 * leaves.len() {
        leaf_digest(leaves[k - leaves.len()])
    } else {
        Seq::empty()
    }
}

/// The other child of the parent of node `k`.
pub open spec fn sibling(k: nat) -> nat {
    if k % 2 == 0 {
        k + 1
    } else {
        (k - 1) as nat
    }
}

/// The sibling digests on the way from the root down to node `k`, the one
/// next to the root first.
pub open spec fn auth_path(leaves: Seq<nat>, k: nat) -> Seq<Seq<char>>
    decreases k,
{
    if k <= 1 {
        Seq::empty()
    } else {
        auth_path(leaves, k / 2).push(node_digest(leaves, sibling(k)))
    }
}

/// The digest reached by hashing upwards from node `k`, which holds `cur`,
/// with the siblings in `path`; the last entry of `path` is used first.
pub open spec fn climb(cur: Seq<char>, k: nat, path: Seq<Seq<char>>) -> Seq<char>
    decreases path.len(),
{
    if path.len() == 0 {
        cur
    } else {
        let next = if k % 2 == 0 {
            parent_digest(cur, path.last())
        } else {
            parent_digest(path.last(), cur)
        };
        climb(next, k / 2, path.drop_last())
    }
}

/// The contents of a list of digests.
pub open spec fn digests(path: Seq<String>) -> Seq<Seq<char>> {
    Seq::new(path.len(), |i: int| path[i]@)
}

/// The lowest bits of a node's number decide the climb: adding the number of
/// leaves that a path of this length stands for changes nothing.
pub proof fn lemma_climb_ignores_leading_bit(cur: Seq<char>, k: nat, path: Seq<Seq<char>>)
    ensures
        climb(cur, k + pow2(path.len()), path) == climb(cur, k, path),
    decreases path.len(),
{
    if path.len() > 0 {
        let len = path.len();
        let half = pow2((len - 1) as nat);
        lemma_pow2_unfold(len);
        assert((k + 2 * half) % 2 == k % 2);
        assert((k + 2 * half) / 2 == k / 2 + half);
        let next = if k % 2 == 0 {
            parent_digest(cur, path.last())
        } else {
            parent_digest(path.last(), cur)
        };
        lemma_climb_ignores_leading_bit(next, k / 2, path.drop_last());
    }
}

/// Replays the hash chain from a leaf to the root. The leaf `leaf_id` of a
/// tree with `2^len` leaves, where `len` is the path's length, is node
/// `leaf_id + 2^len`; its digest is combined with the path's entries from
/// the last to the first, on the side that the node's number gives. The
/// result says whether the chain ends in `root`.
pub fn verify_decommitment(
    leaf_id: u32,
    leaf_data: FieldElement,
    decommitment: Vec<String>,
    root: String,
) -> (r: bool)
    ensures
        r == (climb(
            leaf_digest(leaf_data@),
            leaf_id as nat + pow2(decommitment@.len()),
            digests(decommitment@),
        ) == root@),
{
    let ghost path = digests(decommitment@);
    let ghost start = leaf_digest(leaf_data@);
    let mut cur = digest(leaf_data.to_string().as_str());
    let mut k: u32 = leaf_id;
    let mut i: usize = decommitment.len();
    proof {
        lemma_climb_ignores_leading_bit(start, leaf_id as nat, path);
        assert(path.take(i as int) =~= path);
    }
    while i > 0
        invariant
            i <= decommitment@.len(),
            path == digests(decommitment@),
            climb(cur@, k as nat, path.take(i as int)) == climb(start, leaf_id as nat, path),
        decreases i,
    {
        proof {
            assert(path.take(i as int).drop_last() =~= path.take(i - 1));
            assert(path.take(i as int).last() == decommitment@[i - 1]@);
        }
        i = i - 1;
        let sib = &decommitment[i];
        cur = if k % 2 == 0 {
            digest(cur.concat(sib.as_str()).as_str())
        } else {
            digest(sib.clone().concat(cur.as_str()).as_str())
        };
        k = k / 2;
    }
    cur == root
}

/// The largest number of leaves that a tree can hold, padding included.
pub const MAX_LEAVES: usize = 0x4000_0000;

/// Why a tree operation was refused.
#[derive(Clone, Copy, Debug, PartialEq, Eq, Structural)]
pub enum MerkleError {
    /// A tree over no data was asked for.
    ConstructionError,
    /// The leaf asked for is not in the tree.
    IndexError,
}

/// The residues of a list of field elements.
pub open spec fn values(data: Seq<FieldElement>) -> Seq<nat> {
    Seq::new(data.len(), |i: int| data[i]@)
}

/// `data` followed by zeros up to the length `2^height`.
pub open spec fn padded(data: Seq<nat>, height: nat) -> Seq<nat> {
    Seq::new(pow2(height), |i: int| if i < data.len() { data[i] } else { 0 })
}

/// Whether `2^height` is the least power of two that is at least `len`.
pub open spec fn is_height_of(height: nat, len: nat) -> bool {
    &&& len <= pow2(height)
    &&& height > 0 ==> pow2((height - 1) as nat) < len
}

/// A commitment to a sequence of field elements. The sequence is padded with
/// zeros to a power of two; the digest of every node is kept, so that paths
/// are read off without hashing again.
pub struct MerkleTree {
    data: Vec<FieldElement>,
    height: u32,
    root: String,
    nodes: Vec<String>,
}

impl MerkleTree {
    #[verifier::type_invariant]
    closed spec fn well_formed(self) -> bool {
        &&& self.data@.len() == pow2(self.height as nat)
        &&& self.data@.len() <= MAX_LEAVES
        &&& self.nodes@.len() == 2 * self.data@.len()
        &&& forall|k: int|
            1 <= k < self.nodes@.len() ==> (#[trigger] self.nodes@[k])@ == node_digest(
                values(self.data@),
                k as nat,
            )
        &&& self.root@ == node_digest(values(self.data@), 1)
    }

    /// The residues of the leaves, padding included.
    pub closed spec fn leaf_values(&self) -> Seq<nat> {
        values(self.data@)
    }

    /// The number of levels below the root.
    pub closed spec fn depth(&self) -> nat {
        self.height as nat
    }

    /// The root's digest.
    pub closed spec fn root_digest(&self) -> Seq<char> {
        self.root@
    }

    /// The least `height` with `2^height >= len`, and `2^height` itself.
    fn padded_size(len: usize) -> (r: (u32, usize))
        requires
            1 <= len <= MAX_LEAVES,
        ensures
            is_height_of(r.0 as nat, len as nat),
            r.1 == pow2(r.0 as nat),
            r.1 <= MAX_LEAVES,
            r.0 <= 30,
    {
        let mut height: u32 = 0;
        let mut size: usize = 1;
        proof {
            lemma2_to64();
        }
        while size < len
            invariant
                size >= 1,
                size == pow2(height as nat),
                height > 0 ==> pow2((height - 1) as nat) < len,
                height <= 30,
                size <= MAX_LEAVES,
                len <= MAX_LEAVES,
                pow2(30) == 0x4000_0000,
            decreases MAX_LEAVES - size,
        {
            proof {
                lemma_pow2_unfold((height + 1) as nat);
                if height >= 30 {
                    assert(false);
                }
                if height < 29 {
                    lemma_pow2_strictly_increases((height + 1) as nat, 30);
                }
            }
            size = size * 2;
            height = height + 1;
        }
        (height, size)
    }

    /// Builds the tree over `data`, padded with zeros to the next power of
    /// two. It is refused for empty data, and only for it.
    pub fn new(data: Vec<FieldElement>) -> (r: Result<MerkleTree, MerkleError>)
        requires
            data@.len() <= MAX_LEAVES,
        ensures
            data@.len() == 0 <==> r is Err,
            r is Err ==> r == Err::<MerkleTree, MerkleError>(MerkleError::ConstructionError),
            r matches Ok(tree) ==> {
                &&& is_height_of(tree.depth(), data@.len())
                &&& tree.leaf_values() == padded(values(data@), tree.depth())
                &&& tree.root_digest() == node_digest(tree.leaf_values(), 1)
            },
    {
        if data.len() == 0 {
            return Err(MerkleError::ConstructionError);
        }
        let ghost given = values(data@);
        let (height, size) = Self::padded_size(data.len());
        let mut leaves = data;
        while leaves.len() < size
            invariant
                given.len() <= leaves@.len() <= size,
                forall|i: int| 0 <= i < given.len() ==> leaves@[i]@ == given[i],
                forall|i: int| given.len() <= i < leaves@.len() ==> leaves@[i]@ == 0,
            decreases size - leaves@.len(),
        {
            leaves.push(FieldElement::zero());
        }
        assert(values(leaves@) =~= padded(given, height as nat));
        let nodes = Self::build_tree(&leaves);
        let root = nodes[1].clone();
        Ok(MerkleTree { data: leaves, height, root, nodes })
    }

    /// The digests of all nodes over `leaves`, each at the index that is its
    /// node's number; index 0 holds nothing. The leaves are hashed first,
    /// then the inner nodes from the last one up to the root.
    fn build_tree(leaves: &Vec<FieldElement>) -> (nodes: Vec<String>)
        requires
            1 <= leaves@.len() <= MAX_LEAVES,
        ensures
            nodes@.len() == 2 * leaves@.len(),
            forall|k: int|
                1 <= k < nodes@.len() ==> (#[trigger] nodes@[k])@ == node_digest(
                    values(leaves@),
                    k as nat,
                ),
    {
        let n: usize = leaves.len();
        let ghost vals = values(leaves@);
        let mut nodes: Vec<String> = Vec::new();
        while nodes.len() < 2 * n
            invariant
                n == leaves@.len(),
                n <= MAX_LEAVES,
                nodes@.len() <= 2 * n,
            decreases 2 * n - nodes@.len(),
        {
            nodes.push(String::new());
        }
        let mut i: usize = 0;
        while i < n
            invariant
                n == leaves@.len(),
                n <= MAX_LEAVES,
                vals == values(leaves@),
                nodes@.len() == 2 * n,
                i <= n,
                forall|k: int| n <= k < n + i ==> (#[trigger] nodes@[k])@ == node_digest(vals, k as nat),
            decreases n - i,
        {
            let text = leaves[i].to_string();
            nodes.set(n + i, digest(text.as_str()));
            i = i + 1;
        }
        let mut k: usize = n;
        while k > 1
            invariant
                n == leaves@.len(),
                n <= MAX_LEAVES,
                vals == values(leaves@),
                nodes@.len() == 2 * n,
                1 <= k <= n,
                forall|j: int| k <= j < 2 * n ==> (#[trigger] nodes@[j])@ == node_digest(vals, j as nat),
            decreases k,
        {
            k = k - 1;
            let joined = nodes[2 * k].clone().concat(nodes[2 * k + 1].as_str());
            nodes.set(k, digest(joined.as_str()));
        }
        nodes
    }

    /// The root's digest.
    pub fn root(&self) -> (r: &String)
        ensures
            r@ == self.root_digest(),
            self.root_digest() == node_digest(self.leaf_values(), 1),
    {
        proof {
            use_type_invariant(self);
        }
        &self.root
    }

    /// The number of levels below the root.
    pub fn height(&self) -> (r: u32)
        ensures
            r == self.depth(),
            self.leaf_values().len() == pow2(self.depth()),
    {
        proof {
            use_type_invariant(self);
        }
        self.height
    }

    /// The leaves, padding included.
    pub fn leaves(&self) -> (r: &Vec<FieldElement>)
        ensures
            values(r@) == self.leaf_values(),
    {
        &self.data
    }

    /// The authentication path of the leaf `leaf_id`: the sibling digests on
    /// the way from the root down to that leaf. It is refused where the tree
    /// has no such leaf, and only there. Replayed from the leaf's value, the
    /// path ends in the root's digest.
    pub fn get_authentication_path(&self, leaf_id: u32) -> (r: Result<Vec<String>, MerkleError>)
        ensures
            leaf_id >= self.leaf_values().len() <==> r is Err,
            r is Err ==> r == Err::<Vec<String>, MerkleError>(MerkleError::IndexError),
            self.leaf_values().len() == pow2(self.depth()),
            r matches Ok(path) ==> {
                &&& path@.len() == self.depth()
                &&& digests(path@) == auth_path(
                    self.leaf_values(),
                    leaf_id as nat + self.leaf_values().len(),
                )
                &&& climb(
                    leaf_digest(self.leaf_values()[leaf_id as int]),
                    leaf_id as nat + pow2(path@.len()),
                    digests(path@),
                ) == self.root_digest()
            },
    {
        proof {
            use_type_invariant(self);
        }
        let n: usize = self.data.len();
        if leaf_id as usize >= n {
            return Err(MerkleError::IndexError);
        }
        let node_id: usize = leaf_id as usize + n;
        let ghost vals = values(self.data@);
        let mut path: Vec<String> = Vec::new();
        let mut span: usize = n;
        let ghost mut level: nat = 0;
        proof {
            lemma_small_div_one(node_id as int, n as int);
            assert(digests(path@) =~= auth_path(vals, 1));
        }
        while span > 1
            invariant
                self.well_formed(),
                n == self.data@.len(),
                vals == values(self.data@),
                n <= node_id < 2 * n,
                1 <= span <= n,
                level <= self.height,
                span == pow2((self.height - level) as nat),
                path@.len() == level,
                digests(path@) == auth_path(vals, (node_id / span) as nat),
            decreases span,
        {
            let ghost above = node_id / span;
            proof {
                if level == self.height {
                    lemma2_to64();
                    assert(false);
                }
                lemma_pow2_unfold((self.height - level) as nat);
            }
            span = span / 2;
            let ancestor: usize = node_id / span;
            proof {
                lemma_div_denominator(node_id as int, span as int, 2);
                lemma_div_is_ordered(2 * span as int, node_id as int, span as int);
                lemma_div_multiples_vanish(2, span as int);
                lemma_div_is_ordered_by_denominator(node_id as int, 1, span as int);
                lemma_div_basics(node_id as int);
                assert(ancestor / 2 == above);
                assert(2 <= ancestor <= node_id);
            }
            let beside: usize = if ancestor % 2 == 0 {
                ancestor + 1
            } else {
                ancestor - 1
            };
            path.push(self.nodes[beside].clone());
            proof {
                level = level + 1;
                assert(digests(path@) =~= auth_path(vals, above as nat).push(
                    node_digest(vals, sibling(ancestor as nat)),
                ));
            }
        }
        proof {
            if level < self.height {
                lemma_pow2_strictly_increases(0, (self.height - level) as nat);
                lemma2_to64();
                assert(false);
            }
            lemma_div_basics(node_id as int);
            lemma_round_trip(vals, self.height as nat, leaf_id as nat);
        }
        Ok(path)
    }
}

/// A number from `n` up to `2n`, itself left out, divided by `n` gives one.
proof fn lemma_small_div_one(x: int, n: int)
    requires
        1 <= n <= x < 2 * n,
    ensures
        x / n == 1,
{
    lemma_fundamental_div_mod_converse(x, n, 1, x - n);
}

/// Climbing from any node of a tree with that node's own path ends in the
/// root's digest.
pub proof fn lemma_climb_reaches_root(leaves: Seq<nat>, k: nat)
    requires
        1 <= k < 2 * leaves.len(),
    ensures
        climb(node_digest(leaves, k), k, auth_path(leaves, k)) == node_digest(leaves, 1),
    decreases k,
{
    if k > 1 {
        let path = auth_path(leaves, k);
        assert(path.drop_last() =~= auth_path(leaves, k / 2));
        assert(path.last() == node_digest(leaves, sibling(k)));
        lemma_climb_reaches_root(leaves, k / 2);
    }
}

/// Round trip: in a tree of `2^height` leaves, the path of a leaf, replayed
/// from that leaf's value at that leaf's index, ends in the root's digest. A
/// path has one entry for each level below the root.
pub proof fn lemma_round_trip(leaves: Seq<nat>, height: nat, i: nat)
    requires
        leaves.len() == pow2(height),
        i < leaves.len(),
    ensures
        auth_path(leaves, i + leaves.len()).len() == height,
        climb(
            leaf_digest(leaves[i as int]),
            i + pow2(auth_path(leaves, i + leaves.len()).len()),
            auth_path(leaves, i + leaves.len()),
        ) == node_digest(leaves, 1),
{
    lemma_auth_path_len(leaves, i + leaves.len(), height);
    lemma_climb_reaches_root(leaves, i + leaves.len());
}

/// A node on level `level`, counted from the root, has a path of `level`
/// entries.
pub proof fn lemma_auth_path_len(leaves: Seq<nat>, k: nat, level: nat)
    requires
        pow2(level) <= k < 2 * pow2(level),
    ensures
        auth_path(leaves, k).len() == level,
    decreases level,
{
    lemma2_to64();
    if level > 0 {
        lemma_pow2_unfold(level);
        lemma_auth_path_len(leaves, k / 2, (level - 1) as nat);
    }
}

/// Whether two different inputs with the same SHA-256 digest exist.
pub open spec fn collision_exists() -> bool {
    exists|x: Seq<char>, y: Seq<char>| x != y && #[trigger] sha256_hex(x) == #[trigger] sha256_hex(y)
}

/// Different numbers have different decimal representations.
pub proof fn lemma_decimal_injective(a: nat, b: nat)
    requires
        decimal(a) == decimal(b),
    ensures
        a == b,
    decreases a,
{
    let da = decimal(a);
    let db = decimal(b);
    if a < 10 && b < 10 {
        assert(da[0] == digit_char(a));
        assert(db[0] == digit_char(b));
    } else if a >= 10 && b >= 10 {
        assert(da.last() == digit_char(a % 10));
        assert(db.last() == digit_char(b % 10));
        assert(a % 10 == b % 10);
        assert(da.drop_last() =~= decimal(a / 10));
        assert(db.drop_last() =~= decimal(b / 10));
        lemma_decimal_injective(a / 10, b / 10);
    } else {
        lemma_decimal_len(a);
        lemma_decimal_len(b);
    }
}

/// Two different texts stay different when the same text is put before
/// both or behind both.
proof fn lemma_concat_cancels(a: Seq<char>, b: Seq<char>, s: Seq<char>)
    requires
        a != b,
    ensures
        a + s != b + s,
        s + a != s + b,
{
    if a + s == b + s {
        assert((a + s).len() == (b + s).len());
        assert forall|i: int| 0 <= i < a.len() implies a[i] == b[i] by {
            assert((a + s)[i] == (b + s)[i]);
        }
        assert(a =~= b);
    }
    if s + a == s + b {
        assert((s + a).len() == (s + b).len());
        assert forall|i: int| 0 <= i < a.len() implies a[i] == b[i] by {
            assert((s + a)[s.len() + i] == (s + b)[s.len() + i]);
        }
        assert(a =~= b);
    }
}

/// Two climbs from the same node with the same path that start from
/// different digests end in different digests, unless two different inputs
/// share a SHA-256 digest.
pub proof fn lemma_tampered_start(
    cur1: Seq<char>,
    cur2: Seq<char>,
    k: nat,
    path: Seq<Seq<char>>,
)
    requires
        cur1 != cur2,
        climb(cur1, k, path) == climb(cur2, k, path),
    ensures
        collision_exists(),
    decreases path.len(),
{
    if path.len() > 0 {
        let s = path.last();
        lemma_concat_cancels(cur1, cur2, s);
        let (x1, x2) = if k % 2 == 0 {
            (cur1 + s, cur2 + s)
        } else {
            (s + cur1, s + cur2)
        };
        if sha256_hex(x1) == sha256_hex(x2) {
            assert(x1 != x2 && sha256_hex(x1) == sha256_hex(x2));
        } else {
            lemma_tampered_start(sha256_hex(x1), sha256_hex(x2), k / 2, path.drop_last());
        }
    }
}

/// Tamper detection, the leaf: a path that leads one leaf value to a root
/// leads no other value to it, unless two different inputs share a SHA-256
/// digest.
pub proof fn lemma_tampered_leaf(value: nat, other: nat, k: nat, path: Seq<Seq<char>>)
    requires
        value != other,
        climb(leaf_digest(value), k, path) == climb(leaf_digest(other), k, path),
    ensures
        collision_exists(),
{
    if decimal(value) == decimal(other) {
        lemma_decimal_injective(value, other);
    }
    if leaf_digest(value) == leaf_digest(other) {
        assert(decimal(value) != decimal(other) && sha256_hex(decimal(value)) == sha256_hex(
            decimal(other),
        ));
    } else {
        lemma_tampered_start(leaf_digest(value), leaf_digest(other), k, path);
    }
}

/// Tamper detection, the path: two paths that differ in the entry `j` and
/// in no other lead the same digest to different ends, unless two different
/// inputs share a SHA-256 digest.
pub proof fn lemma_tampered_path(
    cur: Seq<char>,
    k: nat,
    path: Seq<Seq<char>>,
    other: Seq<Seq<char>>,
    j: int,
)
    requires
        path.len() == other.len(),
        0 <= j < path.len(),
        path[j] != other[j],
        forall|i: int| 0 <= i < path.len() && i != j ==> path[i] == other[i],
        climb(cur, k, path) == climb(cur, k, other),
    ensures
        collision_exists(),
    decreases path.len(),
{
    let s1 = path.last();
    let s2 = other.last();
    if j == path.len() - 1 {
        lemma_concat_cancels(s1, s2, cur);
        let (x1, x2) = if k % 2 == 0 {
            (cur + s1, cur + s2)
        } else {
            (s1 + cur, s2 + cur)
        };
        assert(path.drop_last() =~= other.drop_last());
        if sha256_hex(x1) == sha256_hex(x2) {
            assert(x1 != x2 && sha256_hex(x1) == sha256_hex(x2));
        } else {
            lemma_tampered_start(sha256_hex(x1), sha256_hex(x2), k / 2, path.drop_last());
        }
    } else {
        assert(s1 == s2);
        let next = if k % 2 == 0 {
            parent_digest(cur, s1)
        } else {
            parent_digest(s1, cur)
        };
        lemma_tampered_path(next, k / 2, path.drop_last(), other.drop_last(), j);
    }
}

} // verus!
