//! Merkle aggregation: one digest for an ordered list of digests.
//!
//! Neighbours are combined pairwise, level by level. A node without a
//! neighbour, at the end of a level of odd length, is combined with itself. A
//! list of one is its own root; the empty list has the empty root.

use crate::codec::{
    concat_bytes, sha256, sha256_collides, sha256_collision_exists, sha256_is_sized, spec_sha256,
};
use vstd::prelude::*;

verus! {

/// The parent of two nodes: the digest of the left followed by the right.
pub open spec fn spec_merge(left: Seq<u8>, right: Seq<u8>) -> Seq<u8> {
    spec_sha256(left + right)
}

/// The right neighbour of the node at `2 * i`, which is the node itself where
/// the level ends there.
pub open spec fn right_of(nodes: Seq<Seq<u8>>, i: int) -> Seq<u8> {
    if 2 * i + 1 < nodes.len() {
        nodes[2 * i + 1]
    } else {
        nodes[2 * i]
    }
}

/// The level above `nodes`.
pub open spec fn level_above(nodes: Seq<Seq<u8>>) -> Seq<Seq<u8>> {
    Seq::new(
        ((nodes.len() + 1) / 2) as nat,
        |i: int| spec_merge(nodes[2 * i], right_of(nodes, i)),
    )
}

/// The root over `nodes`.
pub open spec fn merkle_root(nodes: Seq<Seq<u8>>) -> Seq<u8>
    decreases nodes.len(),
{
    if nodes.len() == 0 {
        Seq::<u8>::empty()
    } else if nodes.len() == 1 {
        nodes[0]
    } else {
        merkle_root(level_above(nodes))
    }
}

/// A vector of bytes has the same bytes at every depth of view.
pub proof fn lemma_bytes_deep_view(bytes: Vec<u8>)
    ensures
        bytes.deep_view() == bytes@,
{
    assert(bytes.deep_view() =~= bytes@);
}

/// Combines two nodes into their parent.
pub fn merge(left: &Vec<u8>, right: &Vec<u8>) -> (parent: Vec<u8>)
    ensures
        parent@ == spec_merge(left@, right@),
{
    let data = concat_bytes(left.as_slice(), right.as_slice());
    sha256(data.as_slice())
}

fn build_level(nodes: &Vec<Vec<u8>>) -> (above: Vec<Vec<u8>>)
    requires
        nodes.len() >= 2,
    ensures
        above.deep_view() == level_above(nodes.deep_view()),
        above.len() < nodes.len(),
{
    let n = nodes.len();
    let pairs = n / 2 + n % 2;
    let mut above: Vec<Vec<u8>> = Vec::new();
    let mut i: usize = 0;
    while i < pairs
        invariant
            i <= pairs,
            n == nodes.len(),
            n >= 2,
            pairs == (n + 1) / 2,
            above.len() == i,
            forall|j: int|
                0 <= j < i ==> above[j].deep_view() == level_above(nodes.deep_view())[j],
        decreases pairs - i,
    {
        proof {
            lemma_bytes_deep_view(nodes[2 * i as int]);
            if 2 * i + 1 < n {
                lemma_bytes_deep_view(nodes[2 * i as int + 1]);
            }
        }
        let left = &nodes[2 * i];
        let parent = if 2 * i + 1 < n {
            merge(left, &nodes[2 * i + 1])
        } else {
            merge(left, left)
        };
        proof {
            lemma_bytes_deep_view(parent);
        }
        above.push(parent);
        i += 1;
    }
    assert(above.deep_view() =~= level_above(nodes.deep_view()));
    above
}

/// The Merkle root over `leaves`.
pub fn build_merkle_root(leaves: Vec<Vec<u8>>) -> (root: Vec<u8>)
    ensures
        root@ == merkle_root(leaves.deep_view()),
{
    let ghost start = leaves.deep_view();
    let mut level = leaves;
    while level.len() > 1
        invariant
            merkle_root(level.deep_view()) == merkle_root(start),
        decreases level.len(),
    {
        level = build_level(&level);
    }
    match level.pop() {
        Some(root) => {
            proof {
                lemma_bytes_deep_view(root);
            }
            root
        },
        None => Vec::new(),
    }
}

/// Every node has `len` bytes.
pub open spec fn uniform(nodes: Seq<Seq<u8>>, len: nat) -> bool {
    forall|i: int| 0 <= i < nodes.len() ==> (#[trigger] nodes[i]).len() == len
}

/// Two lists of as many nodes, all of one length, with the same root are the
/// same list, unless SHA-256 gives two different byte strings the same
/// digest. Lists of different lengths can share a root: a list of odd
/// length and the list with its last node repeated do.
pub proof fn lemma_merkle_root_injective(a: Seq<Seq<u8>>, b: Seq<Seq<u8>>, len: nat)
    requires
        sha256_is_sized(),
        a.len() == b.len(),
        uniform(a, len),
        uniform(b, len),
        merkle_root(a) == merkle_root(b),
    ensures
        a == b || sha256_collision_exists(),
    decreases a.len(),
{
    if a.len() == 0 {
        assert(a =~= b);
    } else if a.len() == 1 {
        assert(a =~= b);
    } else {
        let up_a = level_above(a);
        let up_b = level_above(b);
        assert(uniform(up_a, 32));
        assert(uniform(up_b, 32));
        lemma_merkle_root_injective(up_a, up_b, 32);
        if !sha256_collision_exists() {
            assert(up_a == up_b);
            assert forall|k: int| 0 <= k < a.len() implies a[k] == b[k] by {
                let i = k / 2;
                let left_a = a[2 * i];
                let left_b = b[2 * i];
                let right_a = right_of(a, i);
                let right_b = right_of(b, i);
                assert(up_a[i] == spec_merge(left_a, right_a));
                assert(up_b[i] == spec_merge(left_b, right_b));
                if left_a + right_a != left_b + right_b {
                    assert(sha256_collides(left_a + right_a, left_b + right_b));
                }
                let joined_a = left_a + right_a;
                let joined_b = left_b + right_b;
                assert(left_a =~= joined_a.subrange(0, len as int));
                assert(left_b =~= joined_b.subrange(0, len as int));
                assert(right_a =~= joined_a.subrange(len as int, 2 * len as int));
                assert(right_b =~= joined_b.subrange(len as int, 2 * len as int));
            }
            assert(a =~= b);
        }
    }
}

/// A list of odd length, three nodes or more, and the list with its last
/// node repeated have the same root: the node without a neighbour is
/// combined with itself, which is what the repeated node does too. So the
/// root does not tell the two lists apart.
pub proof fn lemma_repeated_last_shares_root(nodes: Seq<Seq<u8>>)
    requires
        nodes.len() >= 3,
        nodes.len() % 2 == 1,
    ensures
        merkle_root(nodes.push(nodes.last())) == merkle_root(nodes),
{
    let longer = nodes.push(nodes.last());
    let up = level_above(nodes);
    let up_longer = level_above(longer);
    assert(up_longer.len() == up.len());
    assert forall|i: int| 0 <= i < up.len() implies up_longer[i] == up[i] by {
        assert(longer[2 * i] == nodes[2 * i]);
        if 2 * i + 1 < nodes.len() {
            assert(longer[2 * i + 1] == nodes[2 * i + 1]);
        } else {
            assert(longer[2 * i + 1] == nodes[2 * i]);
        }
    }
    assert(up_longer =~= up);
}

/// The number of levels above a level of `n` nodes.
pub open spec fn height(n: nat) -> nat
    decreases n,
{
    if n <= 1 {
        0
    } else {
        1 + height((n + 1) / 2)
    }
}

/// The level that stands `k` levels above `nodes`.
pub open spec fn level(nodes: Seq<Seq<u8>>, k: nat) -> Seq<Seq<u8>>
    decreases k,
{
    if k == 0 {
        nodes
    } else {
        level(level_above(nodes), (k - 1) as nat)
    }
}

/// No node occurs twice.
pub open spec fn distinct_nodes(nodes: Seq<Seq<u8>>) -> bool {
    forall|i: int, j: int| 0 <= i < j < nodes.len() ==> #[trigger] nodes[i] != #[trigger] nodes[j]
}

/// The length of the nodes `k` levels above nodes of length `len`: above
/// the lowest level every node is a digest.
pub open spec fn node_len(len: nat, k: nat) -> nat {
    if k == 0 {
        len
    } else {
        32
    }
}

/// The level one higher is the level above.
pub proof fn lemma_level_step(nodes: Seq<Seq<u8>>, k: nat)
    ensures
        level(nodes, k + 1) == level_above(level(nodes, k)),
    decreases k,
{
    if k > 0 {
        lemma_level_step(level_above(nodes), (k - 1) as nat);
    } else {
        assert(level(level_above(nodes), 0) == level_above(nodes));
    }
}

/// The root is the one node of the topmost level.
pub proof fn lemma_root_is_top(nodes: Seq<Seq<u8>>)
    requires
        nodes.len() >= 1,
    ensures
        level(nodes, height(nodes.len())).len() == 1,
        merkle_root(nodes) == level(nodes, height(nodes.len()))[0],
    decreases nodes.len(),
{
    if nodes.len() > 1 {
        lemma_root_is_top(level_above(nodes));
    }
}

/// Below the topmost level every level has two nodes or more, and each
/// level has as many levels above it as are left.
pub proof fn lemma_level_len(nodes: Seq<Seq<u8>>, k: nat)
    requires
        nodes.len() >= 1,
        k <= height(nodes.len()),
    ensures
        level(nodes, k).len() >= 1,
        height(level(nodes, k).len()) == height(nodes.len()) - k,
        k < height(nodes.len()) ==> level(nodes, k).len() >= 2,
    decreases k,
{
    if k > 0 {
        assert(nodes.len() > 1);
        lemma_level_len(level_above(nodes), (k - 1) as nat);
    }
}

/// The nodes of a level are of one length: that of the lowest level there,
/// and that of a digest above it.
pub proof fn lemma_level_uniform(nodes: Seq<Seq<u8>>, len: nat, k: nat)
    requires
        sha256_is_sized(),
        uniform(nodes, len),
    ensures
        uniform(level(nodes, k), node_len(len, k)),
    decreases k,
{
    if k > 0 {
        assert(uniform(level_above(nodes), 32));
        lemma_level_uniform(level_above(nodes), 32, (k - 1) as nat);
    }
}

/// Above a level on which no node occurs twice no node occurs twice,
/// unless SHA-256 gives two different byte strings the same digest.
pub proof fn lemma_distinct_above(nodes: Seq<Seq<u8>>, len: nat)
    requires
        uniform(nodes, len),
        distinct_nodes(nodes),
        !sha256_collision_exists(),
    ensures
        distinct_nodes(level_above(nodes)),
{
    let up = level_above(nodes);
    assert forall|i: int, j: int| 0 <= i < j < up.len() implies #[trigger] up[i] != #[trigger] up[j] by {
        let x = nodes[2 * i] + right_of(nodes, i);
        let y = nodes[2 * j] + right_of(nodes, j);
        if up[i] == up[j] {
            if x != y {
                assert(sha256_collides(x, y));
            }
            assert(nodes[2 * i] =~= x.subrange(0, len as int));
            assert(nodes[2 * j] =~= y.subrange(0, len as int));
            assert(nodes[2 * i] != nodes[2 * j]);
        }
    }
}

/// On every level above leaves of which none occurs twice no node occurs
/// twice, unless SHA-256 collides.
pub proof fn lemma_level_distinct(nodes: Seq<Seq<u8>>, len: nat, k: nat)
    requires
        sha256_is_sized(),
        uniform(nodes, len),
        distinct_nodes(nodes),
        !sha256_collision_exists(),
    ensures
        distinct_nodes(level(nodes, k)),
    decreases k,
{
    if k > 0 {
        lemma_distinct_above(nodes, len);
        assert(uniform(level_above(nodes), 32));
        lemma_level_distinct(level_above(nodes), 32, (k - 1) as nat);
    }
}

/// Two levels without a repeated node that have the same level above them
/// are the same level, of nodes of the same length, unless SHA-256
/// collides.
pub proof fn lemma_same_above(x: Seq<Seq<u8>>, lx: nat, y: Seq<Seq<u8>>, ly: nat)
    requires
        uniform(x, lx),
        uniform(y, ly),
        x.len() >= 1,
        y.len() >= 1,
        distinct_nodes(x),
        distinct_nodes(y),
        level_above(x) == level_above(y),
        !sha256_collision_exists(),
    ensures
        lx == ly,
        x == y,
{
    let up_x = level_above(x);
    let up_y = level_above(y);
    assert(up_x.len() == up_y.len());
    assert(lx == ly) by {
        let p = x[0] + right_of(x, 0);
        let q = y[0] + right_of(y, 0);
        assert(up_x[0] == spec_merge(x[0], right_of(x, 0)));
        assert(up_y[0] == spec_merge(y[0], right_of(y, 0)));
        if p != q {
            assert(sha256_collides(p, q));
        }
        assert(p.len() == 2 * lx);
        assert(q.len() == 2 * ly);
    }
    assert(x.len() == y.len()) by {
        if x.len() < y.len() {
            let m = (x.len() - 1) / 2;
            assert(x.len() % 2 == 1 && y.len() == x.len() + 1);
            lemma_pair_equal(x, y, lx, m);
            assert(right_of(x, m) == x[2 * m]);
            assert(right_of(y, m) == y[2 * m + 1]);
            assert(y[2 * m] == y[2 * m + 1]);
            assert(false);
        }
        if y.len() < x.len() {
            let m = (y.len() - 1) / 2;
            assert(y.len() % 2 == 1 && x.len() == y.len() + 1);
            lemma_pair_equal(x, y, lx, m);
            assert(right_of(y, m) == y[2 * m]);
            assert(right_of(x, m) == x[2 * m + 1]);
            assert(x[2 * m] == x[2 * m + 1]);
            assert(false);
        }
    }
    assert forall|k: int| 0 <= k < x.len() implies x[k] == y[k] by {
        let i = k / 2;
        lemma_pair_equal(x, y, lx, i);
        if k % 2 == 1 {
            assert(right_of(x, i) == x[k]);
            assert(right_of(y, i) == y[k]);
        } else {
            assert(k == 2 * i);
        }
    }
    assert(x =~= y);
}

/// Where two levels of nodes of one length have the same level above them,
/// the nodes that make up a node of that level are the same in both, unless
/// SHA-256 collides.
pub proof fn lemma_pair_equal(x: Seq<Seq<u8>>, y: Seq<Seq<u8>>, len: nat, i: int)
    requires
        uniform(x, len),
        uniform(y, len),
        level_above(x) == level_above(y),
        0 <= i < level_above(x).len(),
        !sha256_collision_exists(),
    ensures
        x[2 * i] == y[2 * i],
        right_of(x, i) == right_of(y, i),
{
    let p = x[2 * i] + right_of(x, i);
    let q = y[2 * i] + right_of(y, i);
    assert(level_above(x)[i] == spec_merge(x[2 * i], right_of(x, i)));
    assert(level_above(y)[i] == spec_merge(y[2 * i], right_of(y, i)));
    if p != q {
        assert(sha256_collides(p, q));
    }
    assert(x[2 * i] =~= p.subrange(0, len as int));
    assert(y[2 * i] =~= q.subrange(0, len as int));
    assert(right_of(x, i) =~= p.subrange(len as int, 2 * len as int));
    assert(right_of(y, i) =~= q.subrange(len as int, 2 * len as int));
}

/// Counted down from the top, two trees with the same root and without a
/// repeated leaf have the same levels, unless SHA-256 collides.
pub proof fn lemma_descend(a: Seq<Seq<u8>>, b: Seq<Seq<u8>>, len: nat, j: nat)
    requires
        sha256_is_sized(),
        !sha256_collision_exists(),
        len > 0,
        uniform(a, len),
        uniform(b, len),
        a.len() >= 1,
        b.len() >= 1,
        distinct_nodes(a),
        distinct_nodes(b),
        merkle_root(a) == merkle_root(b),
        j <= height(a.len()),
        j <= height(b.len()),
    ensures
        level(a, (height(a.len()) - j) as nat) == level(b, (height(b.len()) - j) as nat),
        node_len(len, (height(a.len()) - j) as nat) == node_len(
            len,
            (height(b.len()) - j) as nat,
        ) || j == 0,
    decreases j,
{
    let ha = height(a.len());
    let hb = height(b.len());
    if j == 0 {
        lemma_root_is_top(a);
        lemma_root_is_top(b);
        assert(level(a, ha) =~= level(b, hb));
    } else {
        lemma_descend(a, b, len, (j - 1) as nat);
        let ka = (ha - j) as nat;
        let kb = (hb - j) as nat;
        let x = level(a, ka);
        let y = level(b, kb);
        lemma_level_step(a, ka);
        lemma_level_step(b, kb);
        assert(level_above(x) == level_above(y));
        lemma_level_uniform(a, len, ka);
        lemma_level_uniform(b, len, kb);
        lemma_level_distinct(a, len, ka);
        lemma_level_distinct(b, len, kb);
        lemma_level_len(a, ka);
        lemma_level_len(b, kb);
        lemma_same_above(x, node_len(len, ka), y, node_len(len, kb));
    }
}

/// Two lists of leaves, all of one length that is not that of a digest,
/// neither with a repeated leaf, that have the same root are the same list,
/// whatever their lengths, unless SHA-256 gives two different byte strings
/// the same digest.
pub proof fn lemma_merkle_root_injective_distinct(a: Seq<Seq<u8>>, b: Seq<Seq<u8>>, len: nat)
    requires
        sha256_is_sized(),
        len > 0,
        len != 32,
        uniform(a, len),
        uniform(b, len),
        distinct_nodes(a),
        distinct_nodes(b),
        merkle_root(a) == merkle_root(b),
    ensures
        a == b || sha256_collision_exists(),
{
    if !sha256_collision_exists() {
        if a.len() == 0 || b.len() == 0 {
            if a.len() >= 1 {
                lemma_root_is_top(a);
                lemma_level_uniform(a, len, height(a.len()));
            }
            if b.len() >= 1 {
                lemma_root_is_top(b);
                lemma_level_uniform(b, len, height(b.len()));
            }
            assert(a =~= b);
        } else {
            let ha = height(a.len());
            let hb = height(b.len());
            let j = if ha <= hb {
                ha
            } else {
                hb
            };
            lemma_descend(a, b, len, j);
            lemma_level_uniform(a, len, (ha - j) as nat);
            lemma_level_uniform(b, len, (hb - j) as nat);
            lemma_level_len(a, (ha - j) as nat);
            lemma_level_len(b, (hb - j) as nat);
            if ha != hb {
                let x = level(a, (ha - j) as nat);
                let y = level(b, (hb - j) as nat);
                assert(x[0].len() == node_len(len, (ha - j) as nat));
                assert(y[0].len() == node_len(len, (hb - j) as nat));
            }
        }
    }
}

} // verus!
