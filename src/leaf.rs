use vstd::prelude::*;
use vstd::arithmetic::power2::{pow2, lemma_pow2_unfold, lemma_pow2_strictly_increases, lemma2_to64, lemma2_to64_rest};

verus! {

/// Zero-based leaf slot addressed by `index`, a node index of a complete
/// binary tree whose leaf layer sits `tree_height` levels below the root.
pub open spec fn leaf_index_of(index: int, tree_height: nat) -> int {
    index - pow2(tree_height)
}

/// `2^tree_height` as an `i64`.
fn leaf_layer_offset(tree_height: u32) -> (r: i64)
    requires
        tree_height < 63,
    ensures
        r == pow2(tree_height as nat),
{
    proof {
        lemma2_to64();
        lemma2_to64_rest();
    }
    let mut r: i64 = 1;
    let mut i: u32 = 0;
    while i < tree_height
        invariant
            i <= tree_height < 63,
            r == pow2(i as nat),
            pow2(62) == 0x4000_0000_0000_0000,
        decreases tree_height - i,
    {
        proof {
            lemma_pow2_unfold((i + 1) as nat);
            if i < 62 {
                lemma_pow2_strictly_increases(i as nat, 62);
            }
        }
        r = r * 2;
        i = i + 1;
    }
    r
}

/// Turns a node index of the leaf layer into a leaf slot number by
/// subtracting the number of nodes that lie above the leaf layer, plus one.
pub fn node_idx_to_leaf_idx(index: i64, tree_height: u32) -> (r: i64)
    requires
        tree_height < 63,
        i64::MIN + pow2(tree_height as nat) <= index,
    ensures
        r == leaf_index_of(index as int, tree_height as nat),
{
    let offset = leaf_layer_offset(tree_height);
    index - offset
}

/// A node index `2^h + k` of the leaf layer names leaf `k`: slot 0 is the
/// leftmost leaf and slot `2^h - 1` the rightmost.
pub proof fn lemma_leaf_layer_index(tree_height: nat, k: int)
    requires
        0 <= k < pow2(tree_height),
    ensures
        leaf_index_of(pow2(tree_height) + k, tree_height) == k,
        0 <= leaf_index_of(pow2(tree_height) + k, tree_height) < pow2(tree_height),
{
}

} // verus!
