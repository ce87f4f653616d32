//! Merkle-authenticated advice sets: nondeterministic data a program can
//! assert membership against, keyed by a committed root digest.
//!
//! Two variants share one capability set (root, leaf lookup, path lookup,
//! update): a fixed-depth balanced Merkle tree, and a sparse collection of
//! individually supplied Merkle paths.

use crate::field::Word;
use crate::field::word_valid;
use crate::field::word_view;
use crate::hasher::merge;
use crate::hasher::merge_of;
use vstd::arithmetic::power2::is_pow2;
use vstd::arithmetic::power2::lemma_pow2_strictly_increases;
use vstd::arithmetic::power2::lemma_pow2_unfold;
use vstd::arithmetic::power2::lemma2_to64;
use vstd::arithmetic::power2::lemma2_to64_rest;
use vstd::arithmetic::power2::pow2;
use vstd::pervasive::VecAdditionalExecFns;
use vstd::prelude::*;

verus! {

/// Failures surfaced while an advice set is built or queried. They indicate a
/// malformed or adversarial program/witness pairing and are never retried.
#[derive(Clone, Copy, Debug, PartialEq, Eq, Structural)]
pub enum AdviceSetError {
    /// Fewer than two leaves, or a path-set depth of zero, was supplied.
    DepthTooSmall,
    /// A path-set depth beyond the supported range was supplied.
    DepthTooBig,
    /// The number of leaves supplied for a balanced tree is not a power of two.
    NumLeavesNotPowerOfTwo,
    /// The index is out of range for the set's depth, or no leaf is stored at
    /// that index.
    InvalidIndex,
    /// The depth is not the depth this set was committed at.
    InvalidDepth,
    /// A supplied path has the wrong length or does not reproduce the
    /// committed root.
    InvalidPath,
    /// A path for this index is already registered.
    DuplicateIndex,
    /// This variant is read-only: it does not support leaf updates.
    UpdateNotSupported,
}

/// The root obtained by hashing `leaf` at leaf position `index` up through
/// the given sibling words, taking the left or the right slot at each level
/// according to the bits of `index`.
pub open spec fn compute_root_spec(leaf: Seq<u64>, index: int, path: Seq<Seq<u64>>) -> Seq<u64>
    decreases path.len(),
{
    if path.len() == 0 {
        leaf
    } else {
        let next = if index % 2 == 0 {
            merge_of(leaf, path[0])
        } else {
            merge_of(path[0], leaf)
        };
        compute_root_spec(next, index / 2, path.drop_first())
    }
}

/// The sibling words seen while walking from heap position `pos` up to the
/// root of a tree stored in heap layout (children of `i` at `2i` and
/// `2i + 1`).
spec fn sibling_path(nodes: Seq<Word>, pos: int) -> Seq<Seq<u64>>
    decreases pos,
{
    if pos <= 1 {
        Seq::empty()
    } else {
        let sib = if pos % 2 == 0 {
            pos + 1
        } else {
            pos - 1
        };
        seq![word_view(nodes[sib])] + sibling_path(nodes, pos / 2)
    }
}

/// A balanced Merkle tree of fixed depth over word-valued leaves, stored in
/// heap layout: the root at position 1, the children of node `i` at `2i` and
/// `2i + 1`, and the leaves in the upper half of the node array.
#[derive(Clone, Debug)]
pub struct MerkleTree {
    depth: u32,
    nodes: Vec<Word>,
}

impl MerkleTree {
    /// The depth of the tree: leaves sit `depth` levels below the root.
    pub closed spec fn depth_spec(self) -> u32 {
        self.depth
    }

    /// The number of leaves.
    pub closed spec fn size(self) -> int {
        (self.nodes@.len() / 2) as int
    }

    /// Structural well-formedness: the node array holds `2^depth` valid
    /// leaves below `2^depth` internal slots, and every internal node is the
    /// merge digest of its two children.
    pub closed spec fn wf(self) -> bool {
        &&& self.depth >= 1
        &&& self.nodes@.len() == 2 * pow2(self.depth as nat)
        &&& forall|i: int| 0 <= i < self.nodes@.len() ==> word_valid(#[trigger] self.nodes@[i])
        &&& forall|i: int|
            1 <= i < self.size() ==> word_view(#[trigger] self.nodes@[i]) == merge_of(
                word_view(self.nodes@[2 * i]),
                word_view(self.nodes@[2 * i + 1]),
            )
    }

    /// The committed root digest.
    pub closed spec fn root_view(self) -> Seq<u64> {
        word_view(self.nodes@[1])
    }

    /// The leaf stored at `index`.
    pub closed spec fn leaf_view(self, index: int) -> Seq<u64> {
        word_view(self.nodes@[self.size() + index])
    }

    /// All leaves, in index order.
    pub closed spec fn leaves_view(self) -> Seq<Seq<u64>> {
        self.nodes@.subrange(self.size(), 2 * self.size()).map_values(|w: Word| word_view(w))
    }

    /// The sibling path from the leaf at `index` up to the root.
    pub closed spec fn path_view(self, index: int) -> Seq<Seq<u64>> {
        sibling_path(self.nodes@, self.size() + index)
    }

    /// Returns a Merkle tree committed to the given leaves. Fails with
    /// `DepthTooSmall` on fewer than two leaves and `NumLeavesNotPowerOfTwo`
    /// when the leaf count is not a power of two; otherwise the returned tree
    /// holds exactly the given leaves and every internal node is the merge
    /// digest of its children.
    #[verifier::loop_isolation(false)]
    pub fn new(leaves: Vec<Word>) -> (r: Result<MerkleTree, AdviceSetError>)
        requires
            forall|i: int| 0 <= i < leaves@.len() ==> word_valid(#[trigger] leaves@[i]),
        ensures
            match r {
                Ok(t) => {
                    &&& leaves@.len() >= 2
                    &&& is_pow2(leaves@.len() as int)
                    &&& t.wf()
                    &&& t.size() == leaves@.len()
                    &&& pow2(t.depth_spec() as nat) == leaves@.len()
                    &&& t.leaves_view() == leaves@.map_values(|w: Word| word_view(w))
                },
                Err(e) => {
                    &&& (leaves@.len() < 2 || !is_pow2(leaves@.len() as int))
                    &&& e == (if leaves@.len() < 2 {
                        AdviceSetError::DepthTooSmall
                    } else {
                        AdviceSetError::NumLeavesNotPowerOfTwo
                    })
                },
            },
    {
        let n = leaves.len();
        if n < 2 {
            return Err(AdviceSetError::DepthTooSmall);
        }
        proof {
            reveal(is_pow2);
            lemma2_to64();
        }
        let mut m: usize = n;
        let mut d: u32 = 0;
        while m > 1
            invariant
                1 <= m <= n,
                d < 64,
                n == m * pow2(d as nat),
                pow2(d as nat) <= n,
                is_pow2(n as int) <==> is_pow2(m as int),
            decreases m,
        {
            if m % 2 == 1 {
                proof {
                    reveal(is_pow2);
                    assert(!is_pow2(m as int));
                    assert(!is_pow2(n as int));
                }
                return Err(AdviceSetError::NumLeavesNotPowerOfTwo);
            }
            proof {
                reveal(is_pow2);
                lemma_pow2_unfold((d + 1) as nat);
                assert((m / 2) * pow2((d + 1) as nat) == m * pow2(d as nat)) by (nonlinear_arith)
                    requires
                        m % 2 == 0,
                        m >= 2,
                        pow2((d + 1) as nat) == 2 * pow2(d as nat),
                ;
                assert(pow2((d + 1) as nat) <= n) by {
                    assert((m / 2) >= 1);
                    assert((m / 2) * pow2((d + 1) as nat) >= 1 * pow2((d + 1) as nat))
                        by (nonlinear_arith)
                        requires
                            m / 2 >= 1,
                    ;
                }
                if d + 1 >= 64 {
                    lemma2_to64_rest();
                    assert(d + 1 > 64 ==> pow2((d + 1) as nat) > pow2(64)) by {
                        if d + 1 > 64 {
                            lemma_pow2_strictly_increases(64, (d + 1) as nat);
                        }
                    }
                    assert(n <= usize::MAX);
                    assert(false);
                }
            }
            m = m / 2;
            d = d + 1;
        }
        proof {
            reveal(is_pow2);
        }
        // n == pow2(d) and n >= 2, so d >= 1
        proof {
            if d == 0 {
                lemma2_to64();
                assert(false);
            }
        }
        let zero_word = [
            crate::field::Felt::new(0),
            crate::field::Felt::new(0),
            crate::field::Felt::new(0),
            crate::field::Felt::new(0),
        ];
        proof {
            assert(word_valid(zero_word)) by {
                assert(word_view(zero_word)[0] == zero_word@[0]@ && word_view(zero_word)[1]
                    == zero_word@[1]@ && word_view(zero_word)[2] == zero_word@[2]@ && word_view(
                    zero_word,
                )[3] == zero_word@[3]@);
            }
        }
        let mut nodes: Vec<Word> = Vec::new();
        let mut i: usize = 0;
        while i < n
            invariant
                i <= n,
                nodes@.len() == i,
                forall|j: int| 0 <= j < i ==> word_valid(#[trigger] nodes@[j]),
            decreases n - i,
        {
            nodes.push(zero_word);
            i = i + 1;
        }
        let mut i: usize = 0;
        while i < n
            invariant
                i <= n == leaves@.len(),
                nodes@.len() == n + i,
                forall|j: int| 0 <= j < nodes@.len() ==> word_valid(#[trigger] nodes@[j]),
                forall|j: int| n <= j < n + i ==> nodes@[j] == leaves@[j - n],
            decreases n - i,
        {
            proof {
                assert(word_valid(leaves@[i as int]));
            }
            nodes.push(leaves[i]);
            i = i + 1;
        }
        let total = nodes.len();
        proof {
            assert(total == 2 * n);
        }
        let mut i: usize = n - 1;
        while i >= 1
            invariant
                0 <= i <= n - 1,
                nodes@.len() == 2 * n,
                forall|j: int| 0 <= j < nodes@.len() ==> word_valid(#[trigger] nodes@[j]),
                forall|j: int| n <= j < 2 * n ==> nodes@[j] == leaves@[j - n],
                forall|j: int|
                    i < j < n ==> word_view(#[trigger] nodes@[j]) == merge_of(
                        word_view(nodes@[2 * j]),
                        word_view(nodes@[2 * j + 1]),
                    ),
            decreases i,
        {
            let w = merge(&nodes[2 * i], &nodes[2 * i + 1]);
            nodes.set(i, w);
            i = i - 1;
        }
        let t = MerkleTree { depth: d, nodes };
        proof {
            assert(t.size() == n);
            assert(t.leaves_view() =~= leaves@.map_values(|w: Word| word_view(w)));
        }
        Ok(t)
    }

    /// Returns the committed root digest of the tree.
    pub fn root(&self) -> (r: Word)
        requires
            self.wf(),
        ensures
            word_view(r) == self.root_view(),
            word_valid(r),
    {
        proof {
            vstd::arithmetic::power2::lemma_pow2_pos(self.depth as nat);
        }
        self.nodes[1]
    }

    /// Returns the tree's depth.
    pub fn depth(&self) -> (r: u32)
        ensures
            r == self.depth_spec(),
    {
        self.depth
    }

    /// Returns the leaf at `index`. Fails with `InvalidDepth` when `depth` is
    /// not this tree's depth, and with `InvalidIndex` when `index` is out of
    /// range for that depth.
    pub fn get_leaf(&self, index: u64, depth: u32) -> (r: Result<Word, AdviceSetError>)
        requires
            self.wf(),
        ensures
            match r {
                Ok(w) => {
                    &&& depth == self.depth_spec()
                    &&& 0 <= index < self.size()
                    &&& word_view(w) == self.leaf_view(index as int)
                    &&& word_valid(w)
                },
                Err(e) => {
                    &&& (depth != self.depth_spec() || index >= self.size())
                    &&& e == (if depth != self.depth_spec() {
                        AdviceSetError::InvalidDepth
                    } else {
                        AdviceSetError::InvalidIndex
                    })
                },
            },
    {
        if depth != self.depth {
            return Err(AdviceSetError::InvalidDepth);
        }
        let half = self.nodes.len() / 2;
        if index >= half as u64 {
            return Err(AdviceSetError::InvalidIndex);
        }
        Ok(self.nodes[half + index as usize])
    }

    /// Returns the sibling path from the leaf at `index` to the root, one
    /// word per level. The failure conditions are those of `get_leaf`.
    #[verifier::loop_isolation(false)]
    pub fn get_path(&self, index: u64, depth: u32) -> (r: Result<Vec<Word>, AdviceSetError>)
        requires
            self.wf(),
        ensures
            match r {
                Ok(p) => {
                    &&& depth == self.depth_spec()
                    &&& 0 <= index < self.size()
                    &&& p@.map_values(|w: Word| word_view(w)) == self.path_view(index as int)
                    &&& p@.len() == depth
                    &&& forall|i: int| 0 <= i < p@.len() ==> word_valid(#[trigger] p@[i])
                },
                Err(e) => {
                    &&& (depth != self.depth_spec() || index >= self.size())
                    &&& e == (if depth != self.depth_spec() {
                        AdviceSetError::InvalidDepth
                    } else {
                        AdviceSetError::InvalidIndex
                    })
                },
            },
    {
        if depth != self.depth {
            return Err(AdviceSetError::InvalidDepth);
        }
        let half = self.nodes.len() / 2;
        if index >= half as u64 {
            return Err(AdviceSetError::InvalidIndex);
        }
        let ghost start = half + index as usize;
        let mut path: Vec<Word> = Vec::new();
        let mut pos: usize = half + index as usize;
        while pos > 1
            invariant
                1 <= pos < self.nodes@.len(),
                self.wf(),
                path@.map_values(|w: Word| word_view(w)) + sibling_path(self.nodes@, pos as int)
                    =~= sibling_path(self.nodes@, start as int),
                forall|i: int| 0 <= i < path@.len() ==> word_valid(#[trigger] path@[i]),
            decreases pos,
        {
            let sib = if pos % 2 == 0 {
                pos + 1
            } else {
                pos - 1
            };
            let ghost prev_path = path@;
            let ghost prev_pos = pos as int;
            path.push(self.nodes[sib]);
            proof {
                assert(sibling_path(self.nodes@, prev_pos) == seq![
                    word_view(self.nodes@[sib as int]),
                ] + sibling_path(self.nodes@, prev_pos / 2));
                assert(path@.map_values(|w: Word| word_view(w)) =~= prev_path.map_values(
                    |w: Word| word_view(w),
                ) + seq![word_view(self.nodes@[sib as int])]);
            }
            pos = pos / 2;
        }
        proof {
            assert(sibling_path(self.nodes@, 1) =~= Seq::<Seq<u64>>::empty());
            lemma_pow2_unfold((self.depth + 1) as nat);
            assert(pow2(self.depth as nat) <= start < pow2((self.depth + 1) as nat));
            lemma_sibling_path_len(self.nodes@, self.depth as nat, start as int);
        }
        Ok(path)
    }

    /// Replaces the leaf at `index` with `value`, recomputes the digests on
    /// the path to the root, and returns the new root. The failure conditions
    /// are those of `get_leaf`; on failure the tree is unchanged.
    #[verifier::loop_isolation(false)]
    pub fn update_leaf(&mut self, index: u64, depth: u32, value: Word) -> (r: Result<
        Word,
        AdviceSetError,
    >)
        requires
            old(self).wf(),
            word_valid(value),
        ensures
            match r {
                Ok(w) => {
                    &&& depth == old(self).depth_spec()
                    &&& 0 <= index < old(self).size()
                    &&& final(self).wf()
                    &&& final(self).depth_spec() == old(self).depth_spec()
                    &&& final(self).size() == old(self).size()
                    &&& final(self).leaves_view() == old(self).leaves_view().update(
                        index as int,
                        word_view(value),
                    )
                    &&& word_view(w) == final(self).root_view()
                    &&& word_valid(w)
                },
                Err(e) => {
                    &&& *final(self) == *old(self)
                    &&& (depth != old(self).depth_spec() || index >= old(self).size())
                    &&& e == (if depth != old(self).depth_spec() {
                        AdviceSetError::InvalidDepth
                    } else {
                        AdviceSetError::InvalidIndex
                    })
                },
            },
    {
        if depth != self.depth {
            return Err(AdviceSetError::InvalidDepth);
        }
        let half = self.nodes.len() / 2;
        if index >= half as u64 {
            return Err(AdviceSetError::InvalidIndex);
        }
        let start: usize = half + index as usize;
        proof {
            lemma_pow2_unfold(self.depth as nat);
            vstd::arithmetic::power2::lemma_pow2_pos((self.depth - 1) as nat);
            assert(half >= 2);
        }
        self.nodes.set(start, value);
        proof {
            assert(is_ancestor(start as int, start as int));
            assert forall|j: int|
                1 <= j < half && !(is_ancestor(j, start as int) && j != start) implies word_view(
                #[trigger] self.nodes@[j],
            ) == merge_of(
                word_view(self.nodes@[2 * j]),
                word_view(self.nodes@[2 * j + 1]),
            ) by {
                if 2 * j == start || 2 * j + 1 == start {
                    assert(j == start as int / 2);
                    assert(is_ancestor(j, j));
                    assert(is_ancestor(j, start as int));
                    assert(false);
                }
            }
        }
        let mut pos: usize = start;
        while pos > 1
            invariant
                self.depth == old(self).depth,
                self.nodes@.len() == old(self).nodes@.len(),
                1 <= pos < self.nodes@.len(),
                is_ancestor(pos as int, start as int),
                forall|j: int| 0 <= j < self.nodes@.len() ==> word_valid(#[trigger] self.nodes@[j]),
                forall|j: int|
                    half <= j < self.nodes@.len() && j != start ==> self.nodes@[j] == old(self).nodes@[j],
                self.nodes@[start as int] == value,
                forall|j: int|
                    1 <= j < half && !(is_ancestor(j, pos as int) && j != pos) ==> word_view(
                        #[trigger] self.nodes@[j],
                    ) == merge_of(
                        word_view(self.nodes@[2 * j]),
                        word_view(self.nodes@[2 * j + 1]),
                    ),
            decreases pos,
        {
            let parent = pos / 2;
            let w = merge(&self.nodes[2 * parent], &self.nodes[2 * parent + 1]);
            let ghost prev = self.nodes@;
            let ghost prev_pos = pos as int;
            self.nodes.set(parent, w);
            proof {
                lemma_ancestor_le(prev_pos, start as int);
                lemma_ancestor_parent(prev_pos, start as int);
                assert forall|j: int|
                    1 <= j < half && !(is_ancestor(j, prev_pos / 2) && j != prev_pos / 2)
                        implies word_view(#[trigger] self.nodes@[j]) == merge_of(
                        word_view(self.nodes@[2 * j]),
                        word_view(self.nodes@[2 * j + 1]),
                    ) by {
                    if j == prev_pos / 2 {
                    } else {
                        // j was intact before this write and is untouched by it
                        assert(!(is_ancestor(j, prev_pos) && j != prev_pos));
                        if prev_pos / 2 >= 2 && (2 * j == prev_pos / 2 || 2 * j + 1 == prev_pos
                            / 2) {
                            assert(j == prev_pos / 2 / 2);
                            assert(is_ancestor(j, j));
                            assert(is_ancestor(j, prev_pos / 2) && j != prev_pos / 2);
                        }
                        assert(self.nodes@[j] == prev[j] && self.nodes@[2 * j] == prev[2 * j]
                            && self.nodes@[2 * j + 1] == prev[2 * j + 1]);
                    }
                }
            }
            pos = parent;
        }
        let root = self.nodes[1];
        proof {
            assert forall|j: int| 1 <= j < half implies word_view(#[trigger] self.nodes@[j])
                == merge_of(
                word_view(self.nodes@[2 * j]),
                word_view(self.nodes@[2 * j + 1]),
            ) by {
                assert(!(is_ancestor(j, 1) && j != 1));
            }
            assert(self.leaves_view() =~= old(self).leaves_view().update(
                index as int,
                word_view(value),
            ));
        }
        Ok(root)
    }
}

/// The sibling path from a position in level `d` of a heap-layout tree has
/// exactly `d` entries.
proof fn lemma_sibling_path_len(nodes: Seq<Word>, d: nat, pos: int)
    requires
        pow2(d) <= pos < pow2(d + 1),
    ensures
        sibling_path(nodes, pos).len() == d,
    decreases d,
{
    lemma_pow2_unfold(d + 1);
    lemma2_to64();
    if d == 0 {
        assert(pos == 1);
    } else {
        lemma_pow2_unfold(d);
        assert(pow2(d) >= 2) by {
            lemma2_to64();
            if d >= 2 {
                lemma_pow2_strictly_increases(1, d);
            }
        }
        assert(pow2((d - 1) as nat) <= pos / 2 < pow2(d));
        lemma_sibling_path_len(nodes, (d - 1) as nat, pos / 2);
    }
}

/// Whether heap position `a` lies on the chain from heap position `b` up to
/// the root (position 1), endpoints included.
spec fn is_ancestor(a: int, b: int) -> bool
    decreases b,
{
    if b < 1 {
        false
    } else if a == b {
        true
    } else if b == 1 {
        false
    } else {
        is_ancestor(a, b / 2)
    }
}

/// An ancestor's heap position is at most the descendant's.
proof fn lemma_ancestor_le(a: int, b: int)
    requires
        is_ancestor(a, b),
    ensures
        1 <= a <= b,
    decreases b,
{
    if a != b && b > 1 {
        lemma_ancestor_le(a, b / 2);
    }
}

/// The parent of a position on the chain from `b` to the root is on that
/// chain as well.
proof fn lemma_ancestor_parent(a: int, b: int)
    requires
        is_ancestor(a, b),
        a >= 2,
    ensures
        is_ancestor(a / 2, b),
    decreases b,
{
    if a == b {
        assert(is_ancestor(a / 2, a / 2));
    } else {
        lemma_ancestor_parent(a, b / 2);
        lemma_ancestor_le(a / 2, b / 2);
    }
}

/// Folding the sibling path of heap position `pos` starting from the word at
/// `pos`, steering by the bits of `pos` itself, lands on the root word.
proof fn lemma_fold_pos(nodes: Seq<Word>, size: int, pos: int)
    requires
        size >= 1,
        nodes.len() == 2 * size,
        forall|i: int|
            1 <= i < size ==> word_view(#[trigger] nodes[i]) == merge_of(
                word_view(nodes[2 * i]),
                word_view(nodes[2 * i + 1]),
            ),
        1 <= pos < 2 * size,
    ensures
        compute_root_spec(word_view(nodes[pos]), pos, sibling_path(nodes, pos)) == word_view(
            nodes[1],
        ),
    decreases pos,
{
    if pos <= 1 {
    } else {
        let parent = pos / 2;
        let path = sibling_path(nodes, pos);
        if pos % 2 == 0 {
            assert(path[0] == word_view(nodes[pos + 1]));
            assert(word_view(nodes[parent]) == merge_of(
                word_view(nodes[pos]),
                word_view(nodes[pos + 1]),
            ));
        } else {
            assert(path[0] == word_view(nodes[pos - 1]));
            assert(word_view(nodes[parent]) == merge_of(
                word_view(nodes[pos - 1]),
                word_view(nodes[pos]),
            ));
        }
        assert(path.drop_first() =~= sibling_path(nodes, parent));
        lemma_fold_pos(nodes, size, parent);
    }
}

/// Steering the fold by `2^d + index` is the same as steering it by `index`
/// when the path has exactly `d` entries and `index` addresses a leaf.
proof fn lemma_fold_index(leaf: Seq<u64>, d: nat, index: int, path: Seq<Seq<u64>>)
    requires
        path.len() == d,
        0 <= index < pow2(d),
    ensures
        compute_root_spec(leaf, pow2(d) + index, path) == compute_root_spec(leaf, index, path),
    decreases d,
{
    if d == 0 {
    } else {
        lemma_pow2_unfold(d);
        let next = if index % 2 == 0 {
            merge_of(leaf, path[0])
        } else {
            merge_of(path[0], leaf)
        };
        assert((pow2(d) + index) % 2 == index % 2);
        assert((pow2(d) + index) / 2 == pow2((d - 1) as nat) + index / 2);
        lemma_fold_index(next, (d - 1) as nat, index / 2, path.drop_first());
    }
}

/// Re-hashing the leaf at `index` of a well-formed Merkle tree with its
/// sibling path reproduces the committed root exactly.
pub proof fn lemma_tree_path_verifies(t: MerkleTree, index: int)
    requires
        t.wf(),
        0 <= index < t.size(),
    ensures
        compute_root_spec(t.leaf_view(index), index, t.path_view(index)) == t.root_view(),
{
    let size = t.size();
    lemma_fold_pos(t.nodes@, size, size + index);
    assert(size == pow2(t.depth_spec() as nat));
    lemma_pow2_unfold((t.depth_spec() + 1) as nat);
    lemma_sibling_path_len(t.nodes@, t.depth_spec() as nat, size + index);
    lemma_fold_index(t.leaf_view(index), t.depth_spec() as nat, index, t.path_view(index));
}

/// Hashes `leaf` up through the sibling words in `path`, taking the left or
/// the right slot at each level according to the bits of `index`: the value
/// the execution engine compares against a committed root.
#[verifier::loop_isolation(false)]
pub fn compute_path_root(leaf: &Word, index: u64, path: &Vec<Word>) -> (r: Word)
    requires
        word_valid(*leaf),
        forall|i: int| 0 <= i < path@.len() ==> word_valid(#[trigger] path@[i]),
    ensures
        word_view(r) == compute_root_spec(
            word_view(*leaf),
            index as int,
            path@.map_values(|w: Word| word_view(w)),
        ),
        word_valid(r),
{
    let ghost full = path@.map_values(|w: Word| word_view(w));
    proof {
        assert(full.skip(0) =~= full);
    }
    let mut acc: Word = *leaf;
    let mut idx: u64 = index;
    let mut i: usize = 0;
    while i < path.len()
        invariant
            i <= path@.len(),
            word_valid(acc),
            compute_root_spec(word_view(acc), idx as int, full.skip(i as int)) == compute_root_spec(
                word_view(*leaf),
                index as int,
                full,
            ),
        decreases path@.len() - i,
    {
        proof {
            assert(full.skip(i as int)[0] == full[i as int]);
            assert(full.skip(i as int).drop_first() =~= full.skip(i as int + 1));
        }
        let w = if idx % 2 == 0 {
            merge(&acc, &path[i])
        } else {
            merge(&path[i], &acc)
        };
        acc = w;
        idx = idx / 2;
        i = i + 1;
    }
    proof {
        assert(full.skip(path@.len() as int) =~= Seq::<Seq<u64>>::empty());
    }
    acc
}

/// Computes `2^e` as a machine integer.
#[verifier::loop_isolation(false)]
fn pow2_u64(e: u32) -> (r: u64)
    requires
        e <= 63,
    ensures
        r == pow2(e as nat),
{
    proof {
        lemma2_to64();
        lemma2_to64_rest();
    }
    let mut r: u64 = 1;
    let mut i: u32 = 0;
    while i < e
        invariant
            i <= e,
            r == pow2(i as nat),
        decreases e - i,
    {
        proof {
            lemma_pow2_unfold((i + 1) as nat);
            if i + 1 < 64 {
                lemma_pow2_strictly_increases((i + 1) as nat, 64);
            }
        }
        r = r * 2;
        i = i + 1;
    }
    r
}

/// One individually supplied Merkle path: a leaf word at a leaf index,
/// together with the sibling words up to the root.
#[derive(Clone, Debug)]
struct PathEntry {
    index: u64,
    value: Word,
    path: Vec<Word>,
}

/// Whether an entry of a path set is internally consistent with the set's
/// depth and committed root.
spec fn entry_ok(e: PathEntry, depth: u32, root: Seq<u64>) -> bool {
    &&& e.index < pow2(depth as nat)
    &&& e.path@.len() == depth
    &&& word_valid(e.value)
    &&& (forall|k: int| 0 <= k < e.path@.len() ==> word_valid(#[trigger] e.path@[k]))
    &&& compute_root_spec(
        word_view(e.value),
        e.index as int,
        e.path@.map_values(|w: Word| word_view(w)),
    ) == root
}

/// A sparse collection of individually supplied Merkle paths, all committed
/// to one root at one fixed depth. The variant is read-only: it does not
/// support leaf updates.
#[derive(Clone, Debug)]
pub struct MerklePathSet {
    depth: u32,
    root: Word,
    entries: Vec<PathEntry>,
}

impl MerklePathSet {
    /// The depth of the set: every stored path has this many siblings.
    pub closed spec fn depth_spec(self) -> u32 {
        self.depth
    }

    /// The committed root digest.
    pub closed spec fn root_view(self) -> Seq<u64> {
        word_view(self.root)
    }

    /// Whether a path for leaf index `index` is stored.
    pub closed spec fn has_leaf(self, index: u64) -> bool {
        exists|i: int| 0 <= i < self.entries@.len() && #[trigger] self.entries@[i].index == index
    }

    /// The position of the entry for `index` in the entry list.
    spec fn entry_at(self, index: u64) -> int {
        choose|i: int| 0 <= i < self.entries@.len() && #[trigger] self.entries@[i].index == index
    }

    /// The leaf word stored for `index`.
    pub closed spec fn leaf_view(self, index: u64) -> Seq<u64> {
        word_view(self.entries@[self.entry_at(index)].value)
    }

    /// The sibling path stored for `index`.
    pub closed spec fn path_view(self, index: u64) -> Seq<Seq<u64>> {
        self.entries@[self.entry_at(index)].path@.map_values(|w: Word| word_view(w))
    }

    /// The number of stored paths.
    pub closed spec fn count(self) -> int {
        self.entries@.len() as int
    }

    /// Well-formedness: a supported depth, a valid root word, consistent
    /// entries with pairwise distinct indices, and every entry folding back
    /// to the committed root.
    pub closed spec fn wf(self) -> bool {
        &&& 1 <= self.depth <= 63
        &&& word_valid(self.root)
        &&& (forall|i: int|
            0 <= i < self.entries@.len() ==> entry_ok(
                #[trigger] self.entries@[i],
                self.depth,
                self.root_view(),
            ))
        &&& (forall|i: int, j: int|
            0 <= i < j < self.entries@.len() ==> #[trigger] self.entries@[i].index
                != #[trigger] self.entries@[j].index)
    }

    /// Returns an empty path set of the given depth, committed to the
    /// all-zero root until the first path is added. Fails with
    /// `DepthTooSmall` on a zero depth and `DepthTooBig` on a depth above 63.
    pub fn new(depth: u32) -> (r: Result<MerklePathSet, AdviceSetError>)
        ensures
            match r {
                Ok(s) => {
                    &&& 1 <= depth <= 63
                    &&& s.wf()
                    &&& s.depth_spec() == depth
                    &&& s.count() == 0
                    &&& s.root_view() == seq![0u64, 0u64, 0u64, 0u64]
                },
                Err(e) => {
                    &&& (depth < 1 || depth > 63)
                    &&& e == (if depth < 1 {
                        AdviceSetError::DepthTooSmall
                    } else {
                        AdviceSetError::DepthTooBig
                    })
                },
            },
    {
        if depth < 1 {
            return Err(AdviceSetError::DepthTooSmall);
        }
        if depth > 63 {
            return Err(AdviceSetError::DepthTooBig);
        }
        let zero = crate::field::Felt::new(0);
        let root = [zero, zero, zero, zero];
        proof {
            assert(word_view(root)[0] == root@[0]@ && word_view(root)[1] == root@[1]@ && word_view(
                root,
            )[2] == root@[2]@ && word_view(root)[3] == root@[3]@);
            assert(word_view(root) =~= seq![0u64, 0u64, 0u64, 0u64]);
        }
        Ok(MerklePathSet { depth, root, entries: Vec::new() })
    }

    /// Returns the set's depth.
    pub fn depth(&self) -> (r: u32)
        ensures
            r == self.depth_spec(),
    {
        self.depth
    }

    /// Returns the committed root digest of the set.
    pub fn root(&self) -> (r: Word)
        requires
            self.wf(),
        ensures
            word_view(r) == self.root_view(),
            word_valid(r),
    {
        self.root
    }

    /// Finds the entry position holding `index`, if any.
    fn find_entry(&self, index: u64) -> (r: Option<usize>)
        ensures
            match r {
                Some(i) => i < self.entries@.len() && self.entries@[i as int].index == index
                    && self.has_leaf(index),
                None => !self.has_leaf(index),
            },
    {
        let mut i: usize = 0;
        while i < self.entries.len()
            invariant
                i <= self.entries@.len(),
                forall|j: int| 0 <= j < i ==> #[trigger] self.entries@[j].index != index,
            decreases self.entries@.len() - i,
        {
            if self.entries[i].index == index {
                return Some(i);
            }
            i = i + 1;
        }
        None
    }

    /// Adds the path for one leaf. Fails with `InvalidPath` when the path
    /// length does not match the set's depth or when the folded root does not
    /// match the committed root of an already non-empty set, with
    /// `InvalidIndex` when `index` is out of range for the depth, and with
    /// `DuplicateIndex` when a path for `index` is already stored. The first
    /// successfully added path commits the set's root. On failure the set is
    /// unchanged.
    pub fn add_path(&mut self, index: u64, value: Word, path: Vec<Word>) -> (r: Result<
        (),
        AdviceSetError,
    >)
        requires
            old(self).wf(),
            word_valid(value),
            forall|i: int| 0 <= i < path@.len() ==> word_valid(#[trigger] path@[i]),
        ensures
            final(self).depth_spec() == old(self).depth_spec(),
            match r {
                Ok(()) => {
                    &&& path@.len() == old(self).depth_spec()
                    &&& index < pow2(old(self).depth_spec() as nat)
                    &&& !old(self).has_leaf(index)
                    &&& final(self).wf()
                    &&& final(self).count() == old(self).count() + 1
                    &&& final(self).has_leaf(index)
                    &&& final(self).leaf_view(index) == word_view(value)
                    &&& final(self).path_view(index) == path@.map_values(|w: Word| word_view(w))
                    &&& final(self).root_view() == compute_root_spec(
                        word_view(value),
                        index as int,
                        path@.map_values(|w: Word| word_view(w)),
                    )
                    &&& (old(self).count() > 0 ==> final(self).root_view() == old(self).root_view())
                    &&& (forall|j: u64|
                        #[trigger] old(self).has_leaf(j) ==> final(self).has_leaf(j) && final(self).leaf_view(j) == old(self).leaf_view(j) && final(self).path_view(j) == old(self).path_view(j))
                },
                Err(e) => {
                    &&& *final(self) == *old(self)
                    &&& {
                        ||| (path@.len() != old(self).depth_spec() && e
                            == AdviceSetError::InvalidPath)
                        ||| (path@.len() == old(self).depth_spec() && index >= pow2(
                            old(self).depth_spec() as nat,
                        ) && e == AdviceSetError::InvalidIndex)
                        ||| (path@.len() == old(self).depth_spec() && index < pow2(
                            old(self).depth_spec() as nat,
                        ) && old(self).has_leaf(index) && e == AdviceSetError::DuplicateIndex)
                        ||| (path@.len() == old(self).depth_spec() && index < pow2(
                            old(self).depth_spec() as nat,
                        ) && !old(self).has_leaf(index) && old(self).count() > 0
                            && compute_root_spec(
                            word_view(value),
                            index as int,
                            path@.map_values(|w: Word| word_view(w)),
                        ) != old(self).root_view() && e == AdviceSetError::InvalidPath)
                    }
                },
            },
    {
        if path.len() != self.depth as usize {
            return Err(AdviceSetError::InvalidPath);
        }
        let bound = pow2_u64(self.depth);
        if index >= bound {
            return Err(AdviceSetError::InvalidIndex);
        }
        if let Some(_i) = self.find_entry(index) {
            return Err(AdviceSetError::DuplicateIndex);
        }
        let folded = compute_path_root(&value, index, &path);
        let was_empty = self.entries.len() == 0;
        if !was_empty {
            if !crate::field::word_eq(&folded, &self.root) {
                return Err(AdviceSetError::InvalidPath);
            }
        } else {
            self.root = folded;
        }
        let ghost old_entries = self.entries@;
        self.entries.push(PathEntry { index, value, path });
        proof {
            let n = self.entries@.len() as int;
            assert(self.entries@[n - 1].index == index);
            assert(self.has_leaf(index));
            let at = self.entry_at(index);
            assert(0 <= at < n && self.entries@[at].index == index);
            if at != n - 1 {
                assert(old_entries[at].index == index);
                assert(false);
            }
            assert forall|j: u64| #[trigger] old(self).has_leaf(j) implies self.has_leaf(j)
                && self.leaf_view(j) == old(self).leaf_view(j) && self.path_view(j) == old(self).path_view(j) by {
                let oi = old(self).entry_at(j);
                assert(old_entries[oi].index == j);
                assert(self.entries@[oi].index == j);
                assert(self.has_leaf(j));
                let ni = self.entry_at(j);
                assert(self.entries@[ni].index == j);
                if ni != oi {
                    if ni == n - 1 {
                        assert(old(self).has_leaf(index));
                        assert(false);
                    } else {
                        assert(old_entries[ni].index == j && old_entries[oi].index == j);
                        assert(false);
                    }
                }
            }
            assert forall|i: int| 0 <= i < n implies entry_ok(
                #[trigger] self.entries@[i],
                self.depth,
                self.root_view(),
            ) by {
                if i < n - 1 {
                    assert(old_entries[i] == self.entries@[i]);
                    assert(entry_ok(old_entries[i], self.depth, old(self).root_view()));
                }
            }
        }
        Ok(())
    }

    /// Returns the leaf word stored for `index`. Fails with `InvalidDepth`
    /// when `depth` is not the set's depth, and with `InvalidIndex` when no
    /// path for `index` is stored.
    pub fn get_leaf(&self, index: u64, depth: u32) -> (r: Result<Word, AdviceSetError>)
        requires
            self.wf(),
        ensures
            match r {
                Ok(w) => {
                    &&& depth == self.depth_spec()
                    &&& self.has_leaf(index)
                    &&& word_view(w) == self.leaf_view(index)
                    &&& word_valid(w)
                },
                Err(e) => {
                    &&& (depth != self.depth_spec() || !self.has_leaf(index))
                    &&& e == (if depth != self.depth_spec() {
                        AdviceSetError::InvalidDepth
                    } else {
                        AdviceSetError::InvalidIndex
                    })
                },
            },
    {
        if depth != self.depth {
            return Err(AdviceSetError::InvalidDepth);
        }
        match self.find_entry(index) {
            Some(i) => {
                proof {
                    let at = self.entry_at(index);
                    if at != i {
                        assert(self.entries@[at].index == index);
                        assert(false);
                    }
                }
                Ok(self.entries[i].value)
            },
            None => Err(AdviceSetError::InvalidIndex),
        }
    }

    /// Returns the sibling path stored for `index`. The failure conditions
    /// are those of `get_leaf`.
    #[verifier::loop_isolation(false)]
    pub fn get_path(&self, index: u64, depth: u32) -> (r: Result<Vec<Word>, AdviceSetError>)
        requires
            self.wf(),
        ensures
            match r {
                Ok(p) => {
                    &&& depth == self.depth_spec()
                    &&& self.has_leaf(index)
                    &&& p@.map_values(|w: Word| word_view(w)) == self.path_view(index)
                    &&& p@.len() == depth
                    &&& forall|i: int| 0 <= i < p@.len() ==> word_valid(#[trigger] p@[i])
                },
                Err(e) => {
                    &&& (depth != self.depth_spec() || !self.has_leaf(index))
                    &&& e == (if depth != self.depth_spec() {
                        AdviceSetError::InvalidDepth
                    } else {
                        AdviceSetError::InvalidIndex
                    })
                },
            },
    {
        if depth != self.depth {
            return Err(AdviceSetError::InvalidDepth);
        }
        match self.find_entry(index) {
            Some(i) => {
                proof {
                    let at = self.entry_at(index);
                    if at != i {
                        assert(self.entries@[at].index == index);
                        assert(false);
                    }
                }
                let stored = &self.entries[i].path;
                let mut out: Vec<Word> = Vec::new();
                let mut k: usize = 0;
                while k < stored.len()
                    invariant
                        k <= stored@.len(),
                        out@ == stored@.take(k as int),
                    decreases stored@.len() - k,
                {
                    proof {
                        assert(stored@.take(k as int + 1) =~= stored@.take(k as int).push(
                            stored@[k as int],
                        ));
                    }
                    out.push(stored[k]);
                    k = k + 1;
                }
                proof {
                    assert(stored@.take(stored@.len() as int) =~= stored@);
                    assert(out@.map_values(|w: Word| word_view(w)) =~= self.path_view(index));
                }
                Ok(out)
            },
            None => Err(AdviceSetError::InvalidIndex),
        }
    }
}

/// A Merkle-authenticated advice set: a tagged union over the shared
/// capability set (root, leaf lookup, path lookup, update), keyed externally
/// by its root digest.
#[derive(Clone, Debug)]
pub enum AdviceSet {
    /// A fixed-depth balanced Merkle tree.
    MerkleTree(MerkleTree),
    /// A sparse collection of individually supplied Merkle paths.
    MerklePathSet(MerklePathSet),
}

impl AdviceSet {
    /// Well-formedness of the underlying variant.
    pub open spec fn wf(self) -> bool {
        match self {
            AdviceSet::MerkleTree(t) => t.wf(),
            AdviceSet::MerklePathSet(s) => s.wf(),
        }
    }

    /// The set's depth.
    pub open spec fn depth_spec(self) -> u32 {
        match self {
            AdviceSet::MerkleTree(t) => t.depth_spec(),
            AdviceSet::MerklePathSet(s) => s.depth_spec(),
        }
    }

    /// The committed root digest.
    pub open spec fn root_view(self) -> Seq<u64> {
        match self {
            AdviceSet::MerkleTree(t) => t.root_view(),
            AdviceSet::MerklePathSet(s) => s.root_view(),
        }
    }

    /// Whether `(index, depth)` addresses a leaf this set can produce.
    pub open spec fn has_leaf(self, index: u64, depth: u32) -> bool {
        match self {
            AdviceSet::MerkleTree(t) => depth == t.depth_spec() && (index as int) < t.size(),
            AdviceSet::MerklePathSet(s) => depth == s.depth_spec() && s.has_leaf(index),
        }
    }

    /// The leaf word at `index`.
    pub open spec fn leaf_view(self, index: u64) -> Seq<u64> {
        match self {
            AdviceSet::MerkleTree(t) => t.leaf_view(index as int),
            AdviceSet::MerklePathSet(s) => s.leaf_view(index),
        }
    }

    /// The sibling path from the leaf at `index` to the root.
    pub open spec fn path_view(self, index: u64) -> Seq<Seq<u64>> {
        match self {
            AdviceSet::MerkleTree(t) => t.path_view(index as int),
            AdviceSet::MerklePathSet(s) => s.path_view(index),
        }
    }

    /// Whether the variant supports leaf updates.
    pub open spec fn supports_update(self) -> bool {
        self is MerkleTree
    }

    /// Returns the committed root digest: the value this set registers under
    /// in the advice-set mapping of the program inputs.
    pub fn root(&self) -> (r: Word)
        requires
            self.wf(),
        ensures
            word_view(r) == self.root_view(),
            word_valid(r),
    {
        match self {
            AdviceSet::MerkleTree(t) => t.root(),
            AdviceSet::MerklePathSet(s) => s.root(),
        }
    }

    /// Returns the set's depth.
    pub fn depth(&self) -> (r: u32)
        ensures
            r == self.depth_spec(),
    {
        match self {
            AdviceSet::MerkleTree(t) => t.depth(),
            AdviceSet::MerklePathSet(s) => s.depth(),
        }
    }

    /// Returns the leaf at `(index, depth)`. Fails with `InvalidDepth` when
    /// `depth` is not this set's depth, and with `InvalidIndex` when the set
    /// holds no leaf at `index`.
    pub fn get_leaf(&self, index: u64, depth: u32) -> (r: Result<Word, AdviceSetError>)
        requires
            self.wf(),
        ensures
            match r {
                Ok(w) => {
                    &&& self.has_leaf(index, depth)
                    &&& word_view(w) == self.leaf_view(index)
                    &&& word_valid(w)
                },
                Err(e) => {
                    &&& !self.has_leaf(index, depth)
                    &&& e == (if depth != self.depth_spec() {
                        AdviceSetError::InvalidDepth
                    } else {
                        AdviceSetError::InvalidIndex
                    })
                },
            },
    {
        match self {
            AdviceSet::MerkleTree(t) => t.get_leaf(index, depth),
            AdviceSet::MerklePathSet(s) => s.get_leaf(index, depth),
        }
    }

    /// Returns the sibling path from the leaf at `(index, depth)` to the
    /// root, one word per level. The failure conditions are those of
    /// `get_leaf`.
    pub fn get_path(&self, index: u64, depth: u32) -> (r: Result<Vec<Word>, AdviceSetError>)
        requires
            self.wf(),
        ensures
            match r {
                Ok(p) => {
                    &&& self.has_leaf(index, depth)
                    &&& p@.map_values(|w: Word| word_view(w)) == self.path_view(index)
                    &&& p@.len() == depth
                    &&& forall|i: int| 0 <= i < p@.len() ==> word_valid(#[trigger] p@[i])
                },
                Err(e) => {
                    &&& !self.has_leaf(index, depth)
                    &&& e == (if depth != self.depth_spec() {
                        AdviceSetError::InvalidDepth
                    } else {
                        AdviceSetError::InvalidIndex
                    })
                },
            },
    {
        match self {
            AdviceSet::MerkleTree(t) => t.get_path(index, depth),
            AdviceSet::MerklePathSet(s) => s.get_path(index, depth),
        }
    }

    /// Replaces the leaf at `(index, depth)` with `value` and returns the
    /// recomputed root. Only the balanced-tree variant supports updates; the
    /// sparse path-set variant fails with `UpdateNotSupported`. On failure
    /// the set is unchanged.
    pub fn update_leaf(&mut self, index: u64, depth: u32, value: Word) -> (r: Result<
        Word,
        AdviceSetError,
    >)
        requires
            old(self).wf(),
            word_valid(value),
        ensures
            match r {
                Ok(w) => {
                    &&& old(self).supports_update()
                    &&& old(self).has_leaf(index, depth)
                    &&& final(self).wf()
                    &&& final(self).supports_update()
                    &&& final(self).depth_spec() == old(self).depth_spec()
                    &&& (forall|j: u64, d: u32|
                        final(self).has_leaf(j, d) == #[trigger] old(self).has_leaf(j, d))
                    &&& final(self).leaf_view(index) == word_view(value)
                    &&& (forall|j: u64|
                        old(self).has_leaf(j, depth) && j != index ==> final(self).leaf_view(j)
                            == #[trigger] old(self).leaf_view(j))
                    &&& word_view(w) == final(self).root_view()
                    &&& word_valid(w)
                },
                Err(e) => {
                    &&& *final(self) == *old(self)
                    &&& {
                        ||| (!old(self).supports_update() && e == AdviceSetError::UpdateNotSupported)
                        ||| (old(self).supports_update() && !old(self).has_leaf(index, depth) && e
                            == (if depth != old(self).depth_spec() {
                            AdviceSetError::InvalidDepth
                        } else {
                            AdviceSetError::InvalidIndex
                        }))
                    }
                },
            },
    {
        match self {
            AdviceSet::MerkleTree(t) => {
                let r = t.update_leaf(index, depth, value);
                proof {
                    if r is Ok {
                        let old_t = old(self)->MerkleTree_0;
                        let new_t = self->MerkleTree_0;
                        assert forall|j: u64| old(self).has_leaf(j, depth) && j != index
                            implies final(self).leaf_view(j) == #[trigger] old(self).leaf_view(
                            j,
                        ) by {
                            assert(new_t.leaves_view()[j as int] == old_t.leaves_view().update(
                                index as int,
                                word_view(value),
                            )[j as int]);
                            lemma_tree_leaf_from_leaves(old_t, j as int);
                            lemma_tree_leaf_from_leaves(new_t, j as int);
                        }
                        assert(final(self).leaf_view(index) == word_view(value)) by {
                            lemma_tree_leaf_from_leaves(new_t, index as int);
                        }
                    }
                }
                r
            },
            AdviceSet::MerklePathSet(_s) => Err(AdviceSetError::UpdateNotSupported),
        }
    }
}

/// A tree's per-index leaf view agrees with its leaf sequence.
proof fn lemma_tree_leaf_from_leaves(t: MerkleTree, index: int)
    requires
        t.wf(),
        0 <= index < t.size(),
    ensures
        t.leaf_view(index) == t.leaves_view()[index],
{
    assert(t.leaves_view()[index] == word_view(
        t.nodes@.subrange(t.size(), 2 * t.size())[index],
    ));
}

/// Re-hashing the leaf that an advice set stores at a valid `(index, depth)`
/// pair with the sibling path it stores for the same pair reproduces the
/// set's committed root exactly.
pub proof fn lemma_advice_set_path_verifies(s: AdviceSet, index: u64, depth: u32)
    requires
        s.wf(),
        s.has_leaf(index, depth),
    ensures
        compute_root_spec(s.leaf_view(index), index as int, s.path_view(index)) == s.root_view(),
{
    match s {
        AdviceSet::MerkleTree(t) => {
            lemma_tree_path_verifies(t, index as int);
        },
        AdviceSet::MerklePathSet(ps) => {
            let at = ps.entry_at(index);
            assert(ps.entries@[at].index == index);
            assert(entry_ok(ps.entries@[at], ps.depth_spec(), ps.root_view()));
        },
    }
}

/// An advice set's root digest always holds exactly four elements.
pub proof fn lemma_root_view_len(s: AdviceSet)
    ensures
        s.root_view().len() == 4,
{
    match s {
        AdviceSet::MerkleTree(t) => {
            assert(t.root_view().len() == 4);
        },
        AdviceSet::MerklePathSet(ps) => {
            assert(ps.root_view().len() == 4);
        },
    }
}

} // verus!
