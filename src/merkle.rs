use vstd::prelude::*;

use crate::hashing::{sha256, sha256_of};

verus! {

/// Lexicographic order on byte strings: `a` is not after `b`.
pub open spec fn bytes_le(a: Seq<u8>, b: Seq<u8>) -> bool
    decreases a.len(),
{
    if a.len() == 0 {
        true
    } else if b.len() == 0 {
        false
    } else if a[0] != b[0] {
        a[0] < b[0]
    } else {
        bytes_le(a.drop_first(), b.drop_first())
    }
}

/// The parent of two sibling digests: SHA-256 of the smaller followed by the larger.
pub open spec fn combine_spec(a: Seq<u8>, b: Seq<u8>) -> Seq<u8> {
    if bytes_le(a, b) {
        sha256_of(a + b)
    } else {
        sha256_of(b + a)
    }
}

/// Every sibling on the path is 32 bytes long.
pub open spec fn well_formed_path(path: Seq<Seq<u8>>) -> bool {
    forall|i: int| 0 <= i < path.len() ==> (#[trigger] path[i]).len() == 32
}

/// The digest reached by folding `d` with each sibling of `path` in turn.
pub open spec fn fold_path(d: Seq<u8>, path: Seq<Seq<u8>>) -> Seq<u8>
    decreases path.len(),
{
    if path.len() == 0 {
        d
    } else {
        fold_path(combine_spec(d, path[0]), path.drop_first())
    }
}

/// `path` is well formed and folds `d` up to `root`.
pub open spec fn verifies(d: Seq<u8>, path: Seq<Seq<u8>>, root: Seq<u8>) -> bool {
    well_formed_path(path) && fold_path(d, path) == root
}

pub proof fn lemma_bytes_le_total(a: Seq<u8>, b: Seq<u8>)
    ensures
        bytes_le(a, b) || bytes_le(b, a),
    decreases a.len(),
{
    if a.len() > 0 && b.len() > 0 && a[0] == b[0] {
        lemma_bytes_le_total(a.drop_first(), b.drop_first());
    }
}

pub proof fn lemma_bytes_le_antisymmetric(a: Seq<u8>, b: Seq<u8>)
    requires
        bytes_le(a, b),
        bytes_le(b, a),
    ensures
        a == b,
    decreases a.len(),
{
    if a.len() > 0 {
        lemma_bytes_le_antisymmetric(a.drop_first(), b.drop_first());
        assert(a =~= seq![a[0]] + a.drop_first());
        assert(b =~= seq![b[0]] + b.drop_first());
    } else {
        assert(b.len() == 0);
        assert(a =~= b);
    }
}

/// Combining two digests does not depend on which side each came from.
pub proof fn combine_commutative(a: Seq<u8>, b: Seq<u8>)
    ensures
        combine_spec(a, b) == combine_spec(b, a),
{
    lemma_bytes_le_total(a, b);
    if bytes_le(a, b) && bytes_le(b, a) {
        lemma_bytes_le_antisymmetric(a, b);
    }
}

/// The level above `level` in a tree built off-chain: neighbours are combined
/// in pairs, and a last node without a partner moves up unchanged.
pub open spec fn next_level(level: Seq<Seq<u8>>) -> Seq<Seq<u8>> {
    Seq::new(
        ((level.len() + 1) / 2) as nat,
        |k: int|
            if 2 * k + 1 < level.len() {
                combine_spec(level[2 * k], level[2 * k + 1])
            } else {
                level[2 * k]
            },
    )
}

/// The root of the tree built over the leaf digests `level`.
pub open spec fn tree_root(level: Seq<Seq<u8>>) -> Seq<u8>
    decreases level.len(),
{
    if level.len() <= 1 {
        level[0]
    } else {
        tree_root(next_level(level))
    }
}

/// The siblings from the `i`-th leaf of that tree up to its root, as the
/// builder hands them out.
pub open spec fn tree_path(level: Seq<Seq<u8>>, i: int) -> Seq<Seq<u8>>
    decreases level.len(),
{
    if level.len() <= 1 {
        Seq::empty()
    } else {
        let sibling = if i % 2 == 1 {
            seq![level[i - 1]]
        } else if i + 1 < level.len() {
            seq![level[i + 1]]
        } else {
            Seq::empty()
        };
        sibling + tree_path(next_level(level), i / 2)
    }
}

/// The path that the tree builder hands out for a leaf folds that leaf's
/// digest up to the tree's root, and is accepted wherever its siblings are
/// 32 bytes long.
pub proof fn verification_sound(level: Seq<Seq<u8>>, i: int)
    requires
        0 <= i < level.len(),
    ensures
        fold_path(level[i], tree_path(level, i)) == tree_root(level),
        well_formed_path(tree_path(level, i)) ==> verifies(
            level[i],
            tree_path(level, i),
            tree_root(level),
        ),
    decreases level.len(),
{
    if level.len() > 1 {
        let up = next_level(level);
        let rest = tree_path(up, i / 2);
        verification_sound(up, i / 2);
        if i % 2 == 1 {
            let path = seq![level[i - 1]] + rest;
            assert(path.drop_first() =~= rest);
            combine_commutative(level[i], level[i - 1]);
            assert(up[i / 2] == combine_spec(level[i - 1], level[i]));
        } else if i + 1 < level.len() {
            let path = seq![level[i + 1]] + rest;
            assert(path.drop_first() =~= rest);
            assert(up[i / 2] == combine_spec(level[i], level[i + 1]));
        } else {
            assert(Seq::<Seq<u8>>::empty() + rest =~= rest);
            assert(up[i / 2] == level[i]);
        }
    }
}

/// A leaf digest and path accept at most one root: any other root is rejected.
pub proof fn tampered_root_rejected(d: Seq<u8>, path: Seq<Seq<u8>>, root: Seq<u8>, other: Seq<u8>)
    requires
        verifies(d, path, root),
        other != root,
    ensures
        !verifies(d, path, other),
{
}

proof fn lemma_fold_step(d: Seq<u8>, path: Seq<Seq<u8>>, i: int)
    requires
        0 <= i < path.len(),
    ensures
        fold_path(combine_spec(d, path[i]), path.skip(i + 1)) == fold_path(d, path.skip(i)),
{
    assert(path.skip(i).drop_first() =~= path.skip(i + 1));
    assert(path.skip(i)[0] == path[i]);
}

/// Whether `a` is lexicographically not after `b`.
pub fn bytes_le_exec(a: &[u8], b: &[u8]) -> (r: bool)
    ensures
        r == bytes_le(a@, b@),
{
    let mut i: usize = 0;
    assert(a@.skip(0) =~= a@);
    assert(b@.skip(0) =~= b@);
    while i < a.len() && i < b.len()
        invariant
            i <= a@.len(),
            i <= b@.len(),
            bytes_le(a@, b@) == bytes_le(a@.skip(i as int), b@.skip(i as int)),
        decreases a@.len() - i,
    {
        assert(a@.skip(i as int).drop_first() =~= a@.skip(i + 1));
        assert(b@.skip(i as int).drop_first() =~= b@.skip(i + 1));
        if a[i] != b[i] {
            return a[i] < b[i];
        }
        i = i + 1;
    }
    i == a.len()
}

/// Whether two byte strings are equal.
pub fn bytes_eq(a: &[u8], b: &[u8]) -> (r: bool)
    ensures
        r == (a@ == b@),
{
    if a.len() != b.len() {
        return false;
    }
    let mut i: usize = 0;
    while i < a.len()
        invariant
            a@.len() == b@.len(),
            i <= a@.len(),
            forall|j: int| 0 <= j < i ==> a@[j] == b@[j],
        decreases a@.len() - i,
    {
        if a[i] != b[i] {
            return false;
        }
        i = i + 1;
    }
    assert(a@ =~= b@);
    true
}

fn concat(a: &[u8], b: &[u8]) -> (r: Vec<u8>)
    ensures
        r@ == a@ + b@,
{
    let mut out: Vec<u8> = Vec::new();
    let mut i: usize = 0;
    while i < a.len()
        invariant
            i <= a@.len(),
            out@ =~= a@.take(i as int),
        decreases a@.len() - i,
    {
        out.push(a[i]);
        i = i + 1;
    }
    let mut j: usize = 0;
    while j < b.len()
        invariant
            i == a@.len(),
            j <= b@.len(),
            out@ =~= a@ + b@.take(j as int),
        decreases b@.len() - j,
    {
        out.push(b[j]);
        j = j + 1;
    }
    assert(out@ =~= a@ + b@);
    out
}

/// The parent digest of two siblings, in either order.
pub fn combine(a: &[u8], b: &[u8]) -> (r: [u8; 32])
    ensures
        r@ == combine_spec(a@, b@),
{
    let joined = if bytes_le_exec(a, b) {
        concat(a, b)
    } else {
        concat(b, a)
    };
    sha256(joined.as_slice())
}

/// Folds `leaf_digest` through `proof`; `None` when a sibling is not 32 bytes long.
pub fn fold_proof(leaf_digest: &[u8; 32], proof: &Vec<Vec<u8>>) -> (r: Option<[u8; 32]>)
    ensures
        match r {
            Some(d) => well_formed_path(proof.deep_view()) && d@ == fold_path(
                leaf_digest@,
                proof.deep_view(),
            ),
            None => !well_formed_path(proof.deep_view()),
        },
{
    let ghost path = proof.deep_view();
    let mut current: [u8; 32] = *leaf_digest;
    let mut i: usize = 0;
    assert(path.skip(0) =~= path);
    while i < proof.len()
        invariant
            path == proof.deep_view(),
            i <= path.len(),
            forall|j: int| 0 <= j < i ==> (#[trigger] path[j]).len() == 32,
            fold_path(leaf_digest@, path) == fold_path(current@, path.skip(i as int)),
        decreases path.len() - i,
    {
        let sibling = &proof[i];
        assert(sibling@ == path[i as int]);
        if sibling.len() != 32 {
            return None;
        }
        proof {
            lemma_fold_step(current@, path, i as int);
        }
        current = combine(current.as_slice(), sibling.as_slice());
        i = i + 1;
    }
    assert(path.skip(i as int) =~= Seq::<Seq<u8>>::empty());
    Some(current)
}

/// Whether `proof` is well formed and folds `leaf_digest` up to `expected_root`.
pub fn verify(leaf_digest: &[u8; 32], proof: &Vec<Vec<u8>>, expected_root: &[u8; 32]) -> (r: bool)
    ensures
        r == verifies(leaf_digest@, proof.deep_view(), expected_root@),
{
    match fold_proof(leaf_digest, proof) {
        Some(root) => bytes_eq(root.as_slice(), expected_root.as_slice()),
        None => false,
    }
}

} // verus!
