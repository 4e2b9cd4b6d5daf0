use vstd::prelude::*;

use crate::leaf::{leaf_digest, LeafModel, NFTLeaf};
use crate::merkle::{
    fold_path, fold_proof, tree_path, tree_root, verification_sound, verifies, well_formed_path,
};

verus! {

/// Why a call was refused. A refused call changes nothing.
#[derive(Debug, Clone, Copy, PartialEq, Eq, Structural)]
pub enum NftError {
    /// The caller may not make this change.
    Authorization,
    /// An input is malformed: an empty root list, a sibling that is not 32 bytes long.
    Validation,
    /// The proof does not fold up to the committed root.
    ProofMismatch,
    /// The supplied record is not the record of the named item.
    NotFound,
}

#[verifier::external_type_specification]
#[verifier::external_body]
pub struct ExJsonError(serde_json::Error);

/// The list of roots that a JSON text holds, if it holds a JSON array of
/// arrays of 32 bytes.
pub uninterp spec fn json_roots_of(data: Seq<u8>) -> Option<Seq<Seq<u8>>>;

pub open spec fn digests_view(v: Seq<[u8; 32]>) -> Seq<Seq<u8>> {
    v.map_values(|d: [u8; 32]| d@)
}

/// Relies on `serde_json::from_slice` for `Vec<[u8; 32]>`: the outcome
/// depends on the bytes alone.
#[verifier::external_body]
fn parse_roots(data: &[u8]) -> (r: Result<Vec<[u8; 32]>, serde_json::Error>)
    ensures
        match r {
            Ok(v) => json_roots_of(data@) == Some(digests_view(v@)),
            Err(_) => json_roots_of(data@).is_none(),
        },
{
    serde_json::from_slice(data)
}

/// The state of the ledger: the owner, the further accounts that may push
/// roots, and the committed roots, the last of which is the current one.
pub struct ContractModel {
    pub owner: Seq<char>,
    pub authorized: Set<Seq<char>>,
    pub roots: Seq<Seq<u8>>,
}

/// The accounts named in `v`.
pub open spec fn names(v: Seq<String>) -> Set<Seq<char>> {
    Set::new(|x: Seq<char>| exists|j: int| 0 <= j < v.len() && (#[trigger] v[j])@ == x)
}

/// The owner and every added account may push roots.
pub open spec fn can_update(m: ContractModel, who: Seq<char>) -> bool {
    who == m.owner || m.authorized.contains(who)
}

/// Replacing all committed roots by `roots`.
pub open spec fn replace_roots_result(m: ContractModel, caller: Seq<char>, roots: Seq<Seq<u8>>) -> Result<
    ContractModel,
    NftError,
> {
    if !can_update(m, caller) {
        Err(NftError::Authorization)
    } else if roots.len() == 0 {
        Err(NftError::Validation)
    } else {
        Ok(ContractModel { roots, ..m })
    }
}

/// Adding `account` to the authorized accounts; only the owner may.
pub open spec fn add_result(m: ContractModel, caller: Seq<char>, account: Seq<char>) -> Result<
    ContractModel,
    NftError,
> {
    if caller != m.owner {
        Err(NftError::Authorization)
    } else {
        Ok(ContractModel { authorized: m.authorized.insert(account), ..m })
    }
}

/// Removing `account` from the authorized accounts; only the owner may.
pub open spec fn remove_result(m: ContractModel, caller: Seq<char>, account: Seq<char>) -> Result<
    ContractModel,
    NftError,
> {
    if caller != m.owner {
        Err(NftError::Authorization)
    } else {
        Ok(ContractModel { authorized: m.authorized.remove(account), ..m })
    }
}

/// Moving item `nft_id`, recorded as `leaf`, to `receiver`, with `path`
/// the siblings from its leaf to the current root.
pub open spec fn transfer_result(
    m: ContractModel,
    caller: Seq<char>,
    receiver: Seq<char>,
    nft_id: Seq<char>,
    leaf: LeafModel,
    path: Seq<Seq<u8>>,
) -> Result<ContractModel, NftError> {
    if leaf.nft_id != nft_id {
        Err(NftError::NotFound)
    } else if caller != leaf.owner {
        Err(NftError::Authorization)
    } else if !well_formed_path(path) {
        Err(NftError::Validation)
    } else if fold_path(leaf_digest(leaf), path) != m.roots.last() {
        Err(NftError::ProofMismatch)
    } else {
        let moved = LeafModel { owner: receiver, ..leaf };
        Ok(
            ContractModel {
                roots: m.roots.update(m.roots.len() - 1, fold_path(leaf_digest(moved), path)),
                ..m
            },
        )
    }
}

/// The state went from `before` to `after` as `expected` says, and the call
/// reported it: on an error nothing changed.
pub open spec fn applied(
    before: ContractModel,
    after: ContractModel,
    r: Result<(), NftError>,
    expected: Result<ContractModel, NftError>,
) -> bool {
    match expected {
        Ok(m) => r is Ok && after == m,
        Err(e) => r == Err::<(), NftError>(e) && after == before,
    }
}

/// The roots laid end to end.
pub open spec fn concat_digests(s: Seq<Seq<u8>>) -> Seq<u8>
    decreases s.len(),
{
    if s.len() == 0 {
        Seq::empty()
    } else {
        concat_digests(s.drop_last()) + s.last()
    }
}

proof fn lemma_concat_digests(s: Seq<Seq<u8>>)
    requires
        forall|i: int| 0 <= i < s.len() ==> (#[trigger] s[i]).len() == 32,
    ensures
        concat_digests(s).len() == 32 * s.len(),
        forall|i: int, j: int|
            0 <= i < s.len() && 0 <= j < 32 ==> concat_digests(s)[32 * i + j] == #[trigger] s[i][j],
    decreases s.len(),
{
    if s.len() > 0 {
        let init = s.drop_last();
        assert forall|i: int| 0 <= i < init.len() implies (#[trigger] init[i]).len() == 32 by {
            assert(init[i] == s[i]);
        }
        lemma_concat_digests(init);
        assert forall|i: int, j: int| 0 <= i < s.len() && 0 <= j < 32 implies concat_digests(s)[32 * i + j]
            == #[trigger] s[i][j] by {
            if i < s.len() - 1 {
                assert(init[i] == s[i]);
                assert(init[i][j] == s[i][j]);
            }
        }
    }
}

proof fn lemma_names_push(v: Seq<String>, s: String)
    ensures
        names(v.push(s)) == names(v).insert(s@),
{
    let w = v.push(s);
    assert forall|x: Seq<char>| names(w).contains(x) <==> names(v).insert(s@).contains(x) by {
        if names(v).contains(x) {
            let j = choose|j: int| 0 <= j < v.len() && (#[trigger] v[j])@ == x;
            assert(w[j] == v[j]);
        }
        if x == s@ {
            assert(w[v.len() as int] == s);
        }
        if names(w).contains(x) {
            let j = choose|j: int| 0 <= j < w.len() && (#[trigger] w[j])@ == x;
            if j < v.len() {
                assert(w[j] == v[j]);
            }
        }
    }
    assert(names(w) =~= names(v).insert(s@));
}

/// The ledger: who may change it, and the committed Merkle roots.
pub struct CompressedNFTContract {
    owner: String,
    authorized: Vec<String>,
    merkle_tree_data: Vec<[u8; 32]>,
}

impl View for CompressedNFTContract {
    type V = ContractModel;

    closed spec fn view(&self) -> ContractModel {
        ContractModel {
            owner: self.owner@,
            authorized: names(self.authorized@),
            roots: digests_view(self.merkle_tree_data@),
        }
    }
}

impl CompressedNFTContract {
    /// There is always a current root, and every committed root is 32 bytes long.
    pub open spec fn wf(&self) -> bool {
        &&& self@.roots.len() > 0
        &&& forall|i: int| 0 <= i < self@.roots.len() ==> (#[trigger] self@.roots[i]).len() == 32
    }

    /// A ledger owned by `owner` whose committed roots are `merkle_tree_data`;
    /// an empty list is refused.
    pub fn new(owner: String, merkle_tree_data: Vec<[u8; 32]>) -> (r: Result<Self, NftError>)
        ensures
            merkle_tree_data@.len() == 0 <==> r == Err::<Self, NftError>(NftError::Validation),
            merkle_tree_data@.len() > 0 <==> r is Ok,
            r matches Ok(c) ==> c.wf() && c@ == (ContractModel {
                owner: owner@,
                authorized: Set::empty(),
                roots: digests_view(merkle_tree_data@),
            }),
    {
        if merkle_tree_data.len() == 0 {
            return Err(NftError::Validation);
        }
        let c = CompressedNFTContract { owner, authorized: Vec::new(), merkle_tree_data };
        assert(names(c.authorized@) =~= Set::empty());
        Ok(c)
    }

    /// The owner's account.
    pub fn owner(&self) -> (r: &String)
        ensures
            r@ == self@.owner,
    {
        &self.owner
    }

    /// The current root.
    pub fn get_root(&self) -> (r: [u8; 32])
        requires
            self.wf(),
        ensures
            r@ == self@.roots.last(),
    {
        self.merkle_tree_data[self.merkle_tree_data.len() - 1]
    }

    fn is_listed(&self, who: &String) -> (r: bool)
        ensures
            r == self@.authorized.contains(who@),
    {
        let mut i: usize = 0;
        while i < self.authorized.len()
            invariant
                i <= self.authorized@.len(),
                forall|j: int| 0 <= j < i ==> (#[trigger] self.authorized@[j])@ != who@,
            decreases self.authorized@.len() - i,
        {
            if self.authorized[i] == *who {
                assert(self.authorized@[i as int]@ == who@);
                return true;
            }
            i = i + 1;
        }
        false
    }

    /// Whether `who` may push roots: the owner or an added account.
    pub fn is_authorized(&self, who: &String) -> (r: bool)
        ensures
            r == can_update(self@, who@),
    {
        *who == self.owner || self.is_listed(who)
    }

    /// Makes `new_merkle_root` the only committed root.
    pub fn update_merkle_root(&mut self, caller: &String, new_merkle_root: [u8; 32]) -> (r: Result<(), NftError>)
        requires
            old(self).wf(),
        ensures
            final(self).wf(),
            applied(old(self)@, final(self)@, r, replace_roots_result(old(self)@, caller@, seq![new_merkle_root@])),
            !can_update(old(self)@, caller@) <==> r == Err::<(), NftError>(NftError::Authorization),
            r is Err ==> final(self)@ == old(self)@,
    {
        if !self.is_authorized(caller) {
            return Err(NftError::Authorization);
        }
        self.merkle_tree_data = vec![new_merkle_root];
        assert(digests_view(self.merkle_tree_data@) =~= seq![new_merkle_root@]);
        Ok(())
    }

    /// Makes `new_merkle_root`, computed off-chain after a mint, the only
    /// committed root, as `update_merkle_root` does.
    pub fn update_merkle_root_after_mint(&mut self, caller: &String, new_merkle_root: [u8; 32]) -> (r: Result<(), NftError>)
        requires
            old(self).wf(),
        ensures
            final(self).wf(),
            applied(old(self)@, final(self)@, r, replace_roots_result(old(self)@, caller@, seq![new_merkle_root@])),
    {
        self.update_merkle_root(caller, new_merkle_root)
    }

    /// Lets `account` push roots too; adding it again changes nothing.
    pub fn add_authorized_account(&mut self, caller: &String, account: String) -> (r: Result<(), NftError>)
        requires
            old(self).wf(),
        ensures
            final(self).wf(),
            applied(old(self)@, final(self)@, r, add_result(old(self)@, caller@, account@)),
    {
        if *caller != self.owner {
            return Err(NftError::Authorization);
        }
        if self.is_listed(&account) {
            assert(self@.authorized.insert(account@) =~= self@.authorized);
            return Ok(());
        }
        proof {
            lemma_names_push(self.authorized@, account);
        }
        self.authorized.push(account);
        Ok(())
    }

    /// Stops `account` from pushing roots, unless it is the owner; removing an
    /// account that is not there changes nothing.
    pub fn remove_authorized_account(&mut self, caller: &String, account: &String) -> (r: Result<(), NftError>)
        requires
            old(self).wf(),
        ensures
            final(self).wf(),
            applied(old(self)@, final(self)@, r, remove_result(old(self)@, caller@, account@)),
    {
        if *caller != self.owner {
            return Err(NftError::Authorization);
        }
        let mut kept: Vec<String> = Vec::new();
        let mut i: usize = 0;
        assert(names(self.authorized@.take(0)) =~= Set::empty());
        assert(names(kept@) =~= Set::empty());
        while i < self.authorized.len()
            invariant
                i <= self.authorized@.len(),
                names(kept@) == names(self.authorized@.take(i as int)).remove(account@),
            decreases self.authorized@.len() - i,
        {
            let ghost before = self.authorized@.take(i as int);
            assert(self.authorized@.take(i + 1) =~= before.push(self.authorized@[i as int]));
            proof {
                lemma_names_push(before, self.authorized@[i as int]);
            }
            if self.authorized[i] != *account {
                proof {
                    lemma_names_push(kept@, self.authorized@[i as int]);
                }
                kept.push(self.authorized[i].clone());
                assert(names(kept@) =~= names(self.authorized@.take(i + 1)).remove(account@));
            } else {
                assert(names(kept@) =~= names(self.authorized@.take(i + 1)).remove(account@));
            }
            i = i + 1;
        }
        assert(self.authorized@.take(i as int) =~= self.authorized@);
        self.authorized = kept;
        Ok(())
    }

    /// Whether `proof` folds the digest of `leaf` up to the current root.
    pub fn verify_merkle_proof(&self, leaf: &NFTLeaf, proof: &Vec<Vec<u8>>) -> (r: bool)
        requires
            self.wf(),
        ensures
            r == verifies(leaf_digest(leaf@), proof.deep_view(), self@.roots.last()),
    {
        let root = self.get_root();
        crate::merkle::verify(&leaf.digest(), proof, &root)
    }

    /// Moves item `nft_id`, whose record is `leaf`, from its owner `caller`
    /// to `receiver_id`. The proof is checked against the current root, and the
    /// current root becomes the fold of the moved record through the same proof.
    pub fn transfer_nft(
        &mut self,
        caller: &String,
        receiver_id: String,
        nft_id: String,
        leaf: &NFTLeaf,
        merkle_proof: &Vec<Vec<u8>>,
    ) -> (r: Result<(), NftError>)
        requires
            old(self).wf(),
        ensures
            final(self).wf(),
            applied(
                old(self)@,
                final(self)@,
                r,
                transfer_result(old(self)@, caller@, receiver_id@, nft_id@, leaf@, merkle_proof.deep_view()),
            ),
            r is Err ==> final(self)@ == old(self)@,
    {
        if leaf.nft_id != nft_id {
            return Err(NftError::NotFound);
        }
        if *caller != leaf.owner {
            return Err(NftError::Authorization);
        }
        let old_root = match fold_proof(&leaf.digest(), merkle_proof) {
            Some(d) => d,
            None => return Err(NftError::Validation),
        };
        let current = self.get_root();
        if !crate::merkle::bytes_eq(old_root.as_slice(), current.as_slice()) {
            return Err(NftError::ProofMismatch);
        }
        let moved = NFTLeaf {
            nft_id: leaf.nft_id.clone(),
            owner: receiver_id,
            metadata: leaf.metadata.clone(),
        };
        let new_root = match fold_proof(&moved.digest(), merkle_proof) {
            Some(d) => d,
            None => return Err(NftError::Validation),
        };
        let last = self.merkle_tree_data.len() - 1;
        self.merkle_tree_data.set(last, new_root);
        assert(digests_view(self.merkle_tree_data@) =~= digests_view(old(self).merkle_tree_data@).update(
            last as int,
            new_root@,
        ));
        Ok(())
    }

    /// The committed roots laid end to end, 32 bytes each.
    pub fn serialize_merkle_tree_data(&self) -> (r: Vec<u8>)
        requires
            self.wf(),
        ensures
            r@ == concat_digests(self@.roots),
            r@.len() == 32 * self@.roots.len(),
            forall|i: int, j: int|
                0 <= i < self@.roots.len() && 0 <= j < 32 ==> r@[32 * i + j] == #[trigger] self@.roots[i][j],
    {
        proof {
            lemma_concat_digests(self@.roots);
        }
        let ghost roots = self@.roots;
        let mut out: Vec<u8> = Vec::new();
        let mut i: usize = 0;
        assert(roots.take(0) =~= Seq::<Seq<u8>>::empty());
        while i < self.merkle_tree_data.len()
            invariant
                roots == digests_view(self.merkle_tree_data@),
                i <= roots.len(),
                out@ == concat_digests(roots.take(i as int)),
            decreases roots.len() - i,
        {
            let element = self.merkle_tree_data[i];
            let ghost head = out@;
            let mut j: usize = 0;
            while j < 32
                invariant
                    j <= 32,
                    out@ =~= head + element@.take(j as int),
                decreases 32 - j,
            {
                out.push(element[j]);
                j = j + 1;
            }
            assert(roots.take(i + 1).drop_last() =~= roots.take(i as int));
            assert(element@.take(32) =~= element@);
            assert(roots[i as int] == element@);
            i = i + 1;
        }
        assert(roots.take(i as int) =~= roots);
        out
    }

    /// Replaces all committed roots by `roots`; an empty list is refused.
    pub fn replace_merkle_tree_data(&mut self, caller: &String, roots: Vec<[u8; 32]>) -> (r: Result<(), NftError>)
        requires
            old(self).wf(),
        ensures
            final(self).wf(),
            applied(old(self)@, final(self)@, r, replace_roots_result(old(self)@, caller@, digests_view(roots@))),
    {
        if !self.is_authorized(caller) {
            return Err(NftError::Authorization);
        }
        if roots.len() == 0 {
            return Err(NftError::Validation);
        }
        self.merkle_tree_data = roots;
        Ok(())
    }

    /// Replaces all committed roots by the list that the JSON text `data`
    /// holds; text that holds no such list is refused.
    pub fn deserialize_merkle_tree(&mut self, caller: &String, data: &[u8]) -> (r: Result<(), NftError>)
        requires
            old(self).wf(),
        ensures
            final(self).wf(),
            applied(
                old(self)@,
                final(self)@,
                r,
                if !can_update(old(self)@, caller@) {
                    Err(NftError::Authorization)
                } else {
                    match json_roots_of(data@) {
                        Some(roots) => replace_roots_result(old(self)@, caller@, roots),
                        None => Err(NftError::Validation),
                    }
                },
            ),
    {
        if !self.is_authorized(caller) {
            return Err(NftError::Authorization);
        }
        match parse_roots(data) {
            Ok(roots) => self.replace_merkle_tree_data(caller, roots),
            Err(_) => Err(NftError::Validation),
        }
    }
}

/// Adding the same account twice leaves the state as adding it once.
pub proof fn add_authorized_idempotent(m: ContractModel, caller: Seq<char>, account: Seq<char>)
    requires
        add_result(m, caller, account) is Ok,
    ensures
        add_result(add_result(m, caller, account)->Ok_0, caller, account) == add_result(m, caller, account),
{
    let once = add_result(m, caller, account)->Ok_0;
    assert(once.authorized.insert(account) =~= once.authorized);
}

/// Once a transfer has moved the current root, the proof it used no longer
/// verifies the old record: a second transfer with it fails.
pub proof fn stale_proof_rejected(
    m: ContractModel,
    caller: Seq<char>,
    receiver: Seq<char>,
    nft_id: Seq<char>,
    leaf: LeafModel,
    path: Seq<Seq<u8>>,
    next_receiver: Seq<char>,
)
    requires
        transfer_result(m, caller, receiver, nft_id, leaf, path) is Ok,
        transfer_result(m, caller, receiver, nft_id, leaf, path)->Ok_0.roots.last() != m.roots.last(),
    ensures
        transfer_result(
            transfer_result(m, caller, receiver, nft_id, leaf, path)->Ok_0,
            caller,
            next_receiver,
            nft_id,
            leaf,
            path,
        ) == Err::<ContractModel, NftError>(NftError::ProofMismatch),
{
}


/// A transfer by the record's owner with a well-formed proof that does not
/// fold up to the current root fails with a proof mismatch, and so leaves
/// the ledger as it was.
pub proof fn bad_proof_rejected(
    m: ContractModel,
    caller: Seq<char>,
    receiver: Seq<char>,
    leaf: LeafModel,
    path: Seq<Seq<u8>>,
)
    requires
        caller == leaf.owner,
        well_formed_path(path),
        fold_path(leaf_digest(leaf), path) != m.roots.last(),
    ensures
        transfer_result(m, caller, receiver, leaf.nft_id, leaf, path) == Err::<ContractModel, NftError>(
            NftError::ProofMismatch,
        ),
{
}

/// When the current root is that of a tree built off-chain over leaf digests
/// whose `i`-th is the digest of `leaf`, the path the builder hands out for it
/// is accepted against the ledger, and a transfer by its owner with that path
/// succeeds.
pub proof fn builder_proof_accepted(
    m: ContractModel,
    level: Seq<Seq<u8>>,
    i: int,
    leaf: LeafModel,
    receiver: Seq<char>,
)
    requires
        0 <= i < level.len(),
        level[i] == leaf_digest(leaf),
        m.roots.last() == tree_root(level),
        well_formed_path(tree_path(level, i)),
    ensures
        verifies(leaf_digest(leaf), tree_path(level, i), m.roots.last()),
        transfer_result(m, leaf.owner, receiver, leaf.nft_id, leaf, tree_path(level, i)) is Ok,
{
    verification_sound(level, i);
}

} // verus!
