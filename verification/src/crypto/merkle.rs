//! Blake2b-based Merkle commitments over byte-string leaves.
//!
//! The root of a list of leaves (whose number is a power of two) hashes the
//! roots of its two halves together; an authentication path for a leaf
//! lists the sibling roots from the bottom of the tree to the top.

use vstd::prelude::*;
use vstd::arithmetic::power2::*;

use crate::bytes::{bytes_eq, concat_bytes, copy_bytes};
use crate::crypto::digest::{blake2b512, blake2b512_digest};

verus! {

/// The byte strings held by a list of vectors.
pub open spec fn byte_views(v: Seq<Vec<u8>>) -> Seq<Seq<u8>> {
    v.map_values(|b: Vec<u8>| b@)
}

/// The node above two children: the digest of their concatenation.
pub open spec fn hash_pair(left: Seq<u8>, right: Seq<u8>) -> Seq<u8> {
    blake2b512_digest(left + right)
}

/// The Merkle root of a list of leaves.
pub open spec fn merkle_root(leaves: Seq<Seq<u8>>) -> Seq<u8>
    decreases leaves.len(),
{
    if leaves.len() <= 1 {
        leaves[0]
    } else {
        let mid = leaves.len() / 2;
        hash_pair(merkle_root(leaves.take(mid as int)), merkle_root(leaves.skip(mid as int)))
    }
}

/// The authentication path of leaf `index`: the sibling roots, bottom first.
pub open spec fn merkle_path(index: int, leaves: Seq<Seq<u8>>) -> Seq<Seq<u8>>
    decreases leaves.len(),
{
    if leaves.len() <= 2 {
        seq![leaves[1 - index]]
    } else {
        let mid = leaves.len() / 2;
        if index < mid {
            merkle_path(index, leaves.take(mid as int)).push(merkle_root(leaves.skip(mid as int)))
        } else {
            merkle_path(index - mid, leaves.skip(mid as int)).push(
                merkle_root(leaves.take(mid as int)),
            )
        }
    }
}

/// The root recomputed from a leaf at `index` and its authentication path.
pub open spec fn path_root(index: nat, path: Seq<Seq<u8>>, leaf: Seq<u8>) -> Seq<u8>
    decreases path.len(),
{
    if path.len() == 0 {
        leaf
    } else if index % 2 == 0 {
        path_root(index / 2, path.skip(1), hash_pair(leaf, path[0]))
    } else {
        path_root(index / 2, path.skip(1), hash_pair(path[0], leaf))
    }
}

/// The leaves of a data array: the digest of each element.
pub open spec fn hashed_leaves(data: Seq<Seq<u8>>) -> Seq<Seq<u8>> {
    data.map_values(|d: Seq<u8>| blake2b512_digest(d))
}

/// `blake2b512(left ++ right)`.
fn hash_two(left: &[u8], right: &[u8]) -> (r: Vec<u8>)
    ensures
        r@ == hash_pair(left@, right@),
        r@.len() == 64,
{
    let data = concat_bytes(left, right);
    blake2b512(&data)
}

/// Blake2b Merkle commitment utilities.
pub struct Merkle;

impl Merkle {
    /// Commits already-hashed leaves into a Merkle root.
    pub fn commit_(leaves: &[Vec<u8>]) -> (root: Vec<u8>)
        requires
            is_pow2(leaves@.len() as int),
        ensures
            root@ == merkle_root(byte_views(leaves@)),
            leaves@.len() >= 2 ==> root@.len() == 64,
            leaves@.len() == 1 ==> root@ == leaves@[0]@,
        decreases leaves@.len(),
    {
        proof {
            reveal(is_pow2);
        }
        if leaves.len() == 1 {
            return copy_bytes(leaves[0].as_slice());
        }
        proof {
            reveal(is_pow2);
        }
        let midpoint = leaves.len() / 2;
        let (left, right) = leaves.split_at(midpoint);
        let left_root = Self::commit_(left);
        let right_root = Self::commit_(right);
        proof {
            assert(byte_views(left@) =~= byte_views(leaves@).take(midpoint as int));
            assert(byte_views(right@) =~= byte_views(leaves@).skip(midpoint as int));
        }
        hash_two(left_root.as_slice(), right_root.as_slice())
    }

    /// Opens a Merkle authentication path for already-hashed leaves.
    pub fn open_(index: usize, leaves: &[Vec<u8>]) -> (path: Vec<Vec<u8>>)
        requires
            is_pow2(leaves@.len() as int),
            leaves@.len() >= 2,
            index < leaves@.len(),
        ensures
            byte_views(path@) == merkle_path(index as int, byte_views(leaves@)),
        decreases leaves@.len(),
    {
        proof {
            reveal(is_pow2);
        }
        if leaves.len() == 2 {
            let sibling = copy_bytes(leaves[1 - index].as_slice());
            let mut path: Vec<Vec<u8>> = Vec::new();
            path.push(sibling);
            proof {
                assert(byte_views(path@) =~= merkle_path(index as int, byte_views(leaves@)));
            }
            return path;
        }
        let midpoint = leaves.len() / 2;
        let (left, right) = leaves.split_at(midpoint);
        proof {
            assert(byte_views(left@) =~= byte_views(leaves@).take(midpoint as int));
            assert(byte_views(right@) =~= byte_views(leaves@).skip(midpoint as int));
        }
        if index < midpoint {
            let mut path = Self::open_(index, left);
            let ghost prefix = path@;
            path.push(Self::commit_(right));
            proof {
                assert(byte_views(path@) =~= byte_views(prefix).push(
                    merkle_root(byte_views(right@)),
                ));
            }
            path
        } else {
            let mut path = Self::open_(index - midpoint, right);
            let ghost prefix = path@;
            path.push(Self::commit_(left));
            proof {
                assert(byte_views(path@) =~= byte_views(prefix).push(
                    merkle_root(byte_views(left@)),
                ));
            }
            path
        }
    }

    /// Verifies a Merkle authentication path against a root using a hashed
    /// leaf: the root recomputed from the leaf and the path must equal `root`.
    pub fn verify_(root: &[u8], index: usize, path: &[Vec<u8>], leaf: &[u8]) -> (ok: bool)
        requires
            path@.len() > 0,
            path@.len() < usize::BITS,
            (index as nat) < pow2(path@.len()),
        ensures
            ok == (root@ == path_root(index as nat, byte_views(path@), leaf@)),
        decreases path@.len(),
    {
        let ghost views = byte_views(path@);
        proof {
            assert(views[0] == path@[0]@);
        }
        if path.len() == 1 {
            proof {
                assert(views.skip(1) =~= Seq::<Seq<u8>>::empty());
                lemma2_to64();
                reveal_with_fuel(path_root, 2);
            }
            if index == 0 {
                let h = hash_two(leaf, path[0].as_slice());
                bytes_eq(root, h.as_slice())
            } else {
                let h = hash_two(path[0].as_slice(), leaf);
                bytes_eq(root, h.as_slice())
            }
        } else {
            let (_, rest) = path.split_at(1);
            proof {
                assert(byte_views(rest@) =~= views.skip(1));
                lemma_pow2_unfold(path@.len() as nat);
            }
            if index % 2 == 0 {
                let h = hash_two(leaf, path[0].as_slice());
                Self::verify_(root, index / 2, rest, h.as_slice())
            } else {
                let h = hash_two(path[0].as_slice(), leaf);
                Self::verify_(root, index / 2, rest, h.as_slice())
            }
        }
    }

    /// Commits a data array by hashing each element into a leaf first.
    pub fn commit(data_array: &[Vec<u8>]) -> (root: Vec<u8>)
        requires
            is_pow2(data_array@.len() as int),
        ensures
            root@ == merkle_root(hashed_leaves(byte_views(data_array@))),
            root@.len() == 64,
    {
        let leaves = hash_data_array(data_array);
        proof {
            reveal(is_pow2);
            if leaves@.len() == 1 {
                assert(leaves@[0]@.len() == 64);
            }
        }
        Self::commit_(leaves.as_slice())
    }

    /// Opens a data element by hashing each element into a leaf first.
    pub fn open(index: usize, data_array: &[Vec<u8>]) -> (path: Vec<Vec<u8>>)
        requires
            is_pow2(data_array@.len() as int),
            data_array@.len() >= 2,
            index < data_array@.len(),
        ensures
            byte_views(path@) == merkle_path(
                index as int,
                hashed_leaves(byte_views(data_array@)),
            ),
    {
        let leaves = hash_data_array(data_array);
        Self::open_(index, leaves.as_slice())
    }

    /// Verifies a data element by hashing it into a leaf first.
    pub fn verify(root: &[u8], index: usize, path: &[Vec<u8>], data_element: &[u8]) -> (ok: bool)
        requires
            path@.len() > 0,
            path@.len() < usize::BITS,
            (index as nat) < pow2(path@.len()),
        ensures
            ok == (root@ == path_root(
                index as nat,
                byte_views(path@),
                blake2b512_digest(data_element@),
            )),
    {
        let leaf = blake2b512(data_element);
        Self::verify_(root, index, path, leaf.as_slice())
    }
}

/// Hashes every element of a data array into a leaf.
pub fn hash_data_array(data_array: &[Vec<u8>]) -> (leaves: Vec<Vec<u8>>)
    ensures
        byte_views(leaves@) == hashed_leaves(byte_views(data_array@)),
        leaves@.len() == data_array@.len(),
        forall|i: int| 0 <= i < leaves@.len() ==> (#[trigger] leaves@[i])@.len() == 64,
{
    let mut leaves: Vec<Vec<u8>> = Vec::new();
    let mut i: usize = 0;
    while i < data_array.len()
        invariant
            i <= data_array.len(),
            byte_views(leaves@) == hashed_leaves(byte_views(data_array@)).take(i as int),
            leaves@.len() == i,
            forall|k: int| 0 <= k < leaves@.len() ==> (#[trigger] leaves@[k])@.len() == 64,
        decreases data_array.len() - i,
    {
        let h = blake2b512(data_array[i].as_slice());
        let ghost before = leaves@;
        leaves.push(h);
        i = i + 1;
        proof {
            assert(byte_views(leaves@) =~= byte_views(before).push(h@));
            assert(hashed_leaves(byte_views(data_array@)).take(i as int) =~= hashed_leaves(
                byte_views(data_array@),
            ).take(i - 1).push(h@));
        }
    }
    proof {
        assert(hashed_leaves(byte_views(data_array@)).take(data_array@.len() as int)
            =~= hashed_leaves(byte_views(data_array@)));
    }
    leaves
}

/// Appending a top-level sibling to a path: the recomputed root hashes the
/// root of the shorter path with that sibling, on the side given by the
/// index's top bit.
pub proof fn lemma_path_root_push(index: nat, path: Seq<Seq<u8>>, sibling: Seq<u8>, leaf: Seq<u8>)
    requires
        index < pow2(path.len() + 1),
    ensures
        path_root(index, path.push(sibling), leaf) == (if index < pow2(path.len()) {
            hash_pair(path_root(index, path, leaf), sibling)
        } else {
            hash_pair(sibling, path_root((index - pow2(path.len())) as nat, path, leaf))
        }),
    decreases path.len(),
{
    let full = path.push(sibling);
    lemma_pow2_unfold(path.len() + 1);
    if path.len() == 0 {
        lemma2_to64();
        assert(full.skip(1) =~= Seq::<Seq<u8>>::empty());
        reveal_with_fuel(path_root, 2);
    } else {
        lemma_pow2_unfold(path.len());
        let m = pow2(path.len());
        let h = pow2((path.len() - 1) as nat);
        let next = if index % 2 == 0 {
            hash_pair(leaf, path[0])
        } else {
            hash_pair(path[0], leaf)
        };
        assert(full.skip(1) =~= path.skip(1).push(sibling));
        assert(full[0] == path[0]);
        lemma_path_root_push(index / 2, path.skip(1), sibling, next);
        if index >= m {
            let j = (index - m) as nat;
            assert(j % 2 == index % 2);
            assert(j / 2 == index / 2 - h);
        }
    }
}

/// An authentication path of a tree with `2^k` leaves has `k` entries.
pub proof fn lemma_merkle_path_len(index: int, leaves: Seq<Seq<u8>>)
    requires
        is_pow2(leaves.len() as int),
        leaves.len() >= 2,
        0 <= index < leaves.len(),
    ensures
        pow2(merkle_path(index, leaves).len()) == leaves.len(),
    decreases leaves.len(),
{
    reveal(is_pow2);
    let mid = leaves.len() / 2;
    if leaves.len() == 2 {
        lemma2_to64();
    } else {
        if index < mid {
            lemma_merkle_path_len(index, leaves.take(mid as int));
            lemma_pow2_unfold(merkle_path(index, leaves).len());
        } else {
            lemma_merkle_path_len(index - mid, leaves.skip(mid as int));
            lemma_pow2_unfold(merkle_path(index, leaves).len());
        }
    }
}

/// Opening a leaf and recomputing the root from that leaf and its path
/// gives the committed root: verification accepts every honest opening.
pub proof fn lemma_open_then_verify(index: nat, leaves: Seq<Seq<u8>>)
    requires
        is_pow2(leaves.len() as int),
        leaves.len() >= 2,
        index < leaves.len(),
    ensures
        path_root(index, merkle_path(index as int, leaves), leaves[index as int])
            == merkle_root(leaves),
        pow2(merkle_path(index as int, leaves).len()) == leaves.len(),
    decreases leaves.len(),
{
    reveal(is_pow2);
    lemma_merkle_path_len(index as int, leaves);
    let mid = leaves.len() / 2;
    let left = leaves.take(mid as int);
    let right = leaves.skip(mid as int);
    if leaves.len() == 2 {
        reveal_with_fuel(path_root, 2);
        assert(seq![leaves[1 - index]].skip(1) =~= Seq::<Seq<u8>>::empty());
        assert(merkle_root(left) == leaves[0]);
        assert(merkle_root(right) == leaves[1]);
    } else if index < mid {
        let path = merkle_path(index as int, left);
        lemma_open_then_verify(index, left);
        lemma_path_root_push(index, path, merkle_root(right), leaves[index as int]);
    } else {
        let j = (index - mid) as nat;
        let path = merkle_path(j as int, right);
        lemma_open_then_verify(j, right);
        assert(right[j as int] == leaves[index as int]);
        lemma_path_root_push(index, path, merkle_root(left), leaves[index as int]);
    }
}

/// The data-level form: committing a data array, opening element `index`,
/// and verifying that element against the root succeeds.
pub proof fn lemma_commit_open_verify(index: nat, data: Seq<Seq<u8>>)
    requires
        is_pow2(data.len() as int),
        data.len() >= 2,
        index < data.len(),
    ensures
        path_root(
            index,
            merkle_path(index as int, hashed_leaves(data)),
            blake2b512_digest(data[index as int]),
        ) == merkle_root(hashed_leaves(data)),
        pow2(merkle_path(index as int, hashed_leaves(data)).len()) == data.len(),
{
    lemma_open_then_verify(index, hashed_leaves(data));
}

/// The block of `2^k` leaves whose subtree is the sibling, at height `k`,
/// of the subtree holding leaf `index`: the partner of the leaf's block.
pub open spec fn sibling_block(index: int, k: nat) -> int {
    let b = index / (pow2(k) as int);
    if b % 2 == 0 {
        b + 1
    } else {
        b - 1
    }
}

/// Entry `k` of the authentication path of leaf `index` in a tree of
/// `2^d` leaves is the root of the sibling subtree at height `k`, and the
/// path has `d` entries.
pub proof fn lemma_merkle_path_siblings(index: int, leaves: Seq<Seq<u8>>, d: nat, k: nat)
    requires
        d >= 1,
        leaves.len() == pow2(d),
        0 <= index < leaves.len(),
        k < d,
    ensures
        merkle_path(index, leaves).len() == d,
        merkle_path(index, leaves)[k as int] == merkle_root(
            leaves.subrange(sibling_block(index, k) * pow2(k), (sibling_block(index, k) + 1) * pow2(k)),
        ),
    decreases d,
{
    lemma_pow2_unfold(d);
    lemma_pow2_pos(k);
    lemma_pow2_pos((d - 1) as nat);
    if d == 1 {
        lemma2_to64();
        assert(k == 0);
        assert(pow2(0) == 1);
        assert(index / (pow2(0) as int) == index / 1);
        let s = sibling_block(index, 0);
        assert(s == 1 - index);
        assert(s * pow2(0) == s * 1);
        assert((s + 1) * pow2(0) == (s + 1) * 1);
        assert(leaves.subrange(s, s + 1).len() == 1);
        assert(leaves.subrange(s, s + 1)[0] == leaves[s]);
    } else {
        let mid = pow2((d - 1) as nat) as int;
        assert(leaves.len() / 2 == mid);
        assert(mid >= 2) by {
            lemma_pow2_unfold((d - 1) as nat);
            lemma_pow2_pos((d - 2) as nat);
        }
        let left = leaves.take(mid);
        let right = leaves.skip(mid);
        let c = pow2(k) as int;
        let b = index / c;
        let s = sibling_block(index, k);
        if index < mid {
            lemma_merkle_path_siblings(index, left, (d - 1) as nat, 0);
            if k < d - 1 {
                lemma_merkle_path_siblings(index, left, (d - 1) as nat, k);
                let m = pow2((d - 1 - k) as nat) as int;
                lemma_pow2_adds(k, (d - 1 - k) as nat);
                assert(c * m == mid);
                lemma_pow2_unfold((d - 1 - k) as nat);
                assert(m % 2 == 0);
                vstd::arithmetic::div_mod::lemma_multiply_divide_lt(index, c, m);
                assert(b < m);
                assert(s + 1 <= m);
                assert((s + 1) * c <= m * c) by {
                    vstd::arithmetic::mul::lemma_mul_inequality(s + 1, m, c);
                }
                assert(s >= 0);
                assert(s * c >= 0) by {
                    vstd::arithmetic::mul::lemma_mul_nonnegative(s, c);
                }
                vstd::arithmetic::mul::lemma_mul_is_commutative(c, m);
                assert(s * c <= (s + 1) * c) by {
                    vstd::arithmetic::mul::lemma_mul_inequality(s, s + 1, c);
                }
                assert(left.subrange(s * c, (s + 1) * c) =~= leaves.subrange(s * c, (s + 1) * c));
            } else {
                assert(k == d - 1);
                assert(c == mid);
                assert(b == 0) by {
                    vstd::arithmetic::div_mod::lemma_basic_div(index, c);
                }
                assert(s == 1);
                assert(s * c == 1 * c);
                assert((s + 1) * c == 2 * c);
                assert(leaves.subrange(s * c, (s + 1) * c) =~= right);
            }
        } else {
            let j = index - mid;
            lemma_merkle_path_siblings(j, right, (d - 1) as nat, 0);
            if k < d - 1 {
                lemma_merkle_path_siblings(j, right, (d - 1) as nat, k);
                let m = pow2((d - 1 - k) as nat) as int;
                lemma_pow2_adds(k, (d - 1 - k) as nat);
                assert(c * m == mid);
                lemma_pow2_unfold((d - 1 - k) as nat);
                assert(m % 2 == 0);
                assert(index == j + m * c) by {
                    vstd::arithmetic::mul::lemma_mul_is_commutative(m, c);
                }
                assert(b == j / c + m) by {
                    vstd::arithmetic::div_mod::lemma_fundamental_div_mod(j, c);
                    vstd::arithmetic::div_mod::lemma_mod_bound(j, c);
                    vstd::arithmetic::mul::lemma_mul_is_distributive_add_other_way(c, j / c, m);
                    vstd::arithmetic::mul::lemma_mul_is_commutative(j / c, c);
                    vstd::arithmetic::div_mod::lemma_fundamental_div_mod_converse(index, c, j / c + m, j % c);
                }
                let bj = j / c;
                let sj = sibling_block(j, k);
                assert(b % 2 == bj % 2);
                assert(s == sj + m);
                vstd::arithmetic::div_mod::lemma_multiply_divide_lt(j, c, m);
                assert(sj + 1 <= m);
                assert(sj >= 0);
                assert(s * c == sj * c + mid) by {
                    vstd::arithmetic::mul::lemma_mul_is_distributive_add_other_way(c, sj, m);
                    vstd::arithmetic::mul::lemma_mul_is_commutative(m, c);
                }
                assert((s + 1) * c == (sj + 1) * c + mid) by {
                    vstd::arithmetic::mul::lemma_mul_is_distributive_add_other_way(c, sj + 1, m);
                    vstd::arithmetic::mul::lemma_mul_is_commutative(m, c);
                }
                assert(sj * c >= 0) by {
                    vstd::arithmetic::mul::lemma_mul_nonnegative(sj, c);
                }
                assert((sj + 1) * c <= m * c) by {
                    vstd::arithmetic::mul::lemma_mul_inequality(sj + 1, m, c);
                }
                vstd::arithmetic::mul::lemma_mul_is_commutative(c, m);
                assert(sj * c <= (sj + 1) * c) by {
                    vstd::arithmetic::mul::lemma_mul_inequality(sj, sj + 1, c);
                }
                assert(right.subrange(sj * c, (sj + 1) * c) =~= leaves.subrange(s * c, (s + 1) * c));
            } else {
                assert(k == d - 1);
                assert(c == mid);
                assert(b == 1) by {
                    vstd::arithmetic::div_mod::lemma_fundamental_div_mod_converse(index, c, 1, index - c);
                }
                assert(s == 0);
                assert(s * c == 0 * c);
                assert((s + 1) * c == 1 * c);
                assert(leaves.subrange(s * c, (s + 1) * c) =~= left);
            }
        }
    }
}

/// The first entry of a leaf's authentication path is its sibling leaf.
pub proof fn lemma_merkle_path_first(index: int, leaves: Seq<Seq<u8>>, d: nat)
    requires
        d >= 1,
        leaves.len() == pow2(d),
        0 <= index < leaves.len(),
    ensures
        merkle_path(index, leaves)[0] == leaves[sibling_block(index, 0)],
        sibling_block(index, 0) == (if index % 2 == 0 { index + 1 } else { index - 1 }),
{
    lemma_merkle_path_siblings(index, leaves, d, 0);
    lemma2_to64();
    lemma_pow2_unfold(d);
    assert(pow2(0) == 1);
    assert(index / (pow2(0) as int) == index / 1);
    let s = sibling_block(index, 0);
    assert(s * pow2(0) == s * 1);
    assert((s + 1) * pow2(0) == (s + 1) * 1);
    assert(0 <= s && s + 1 <= leaves.len());
    assert(leaves.subrange(s, s + 1)[0] == leaves[s]);
    vstd::arithmetic::mul::lemma_mul_basics(s);
    vstd::arithmetic::mul::lemma_mul_basics(s + 1);
    assert(leaves.subrange(s * pow2(0), (s + 1) * pow2(0)) == leaves.subrange(s, s + 1));
    assert(merkle_root(leaves.subrange(s, s + 1)) == leaves[s]);
}

} // verus!
