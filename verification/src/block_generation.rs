//! The multi-signer commitment scheme.
//!
//! A commitment binds an accumulator root, an optional authority-set change
//! and the validator-set id in force after it.  It is serialized
//! deterministically and signed independently by every member of the signing
//! authority set; verification demands one valid signature per position —
//! full unanimity, not a quorum.

use vstd::prelude::*;

use crate::encoding::{copy_bytes, leaf_bytes, push_bytes, u64_le, u64_le_spec};
use crate::mmr::{MMRNode, NodeV};
use crate::types::{AuthorityId, BlockNumber, IngestError};

verus! {

/// Whether `seed` is admissible secret-key material: a fixed predicate of
/// the bytes alone, named here and never written out.
pub uninterp spec fn ecdsa_seed_ok(seed: Seq<u8>) -> bool;

/// The compressed public key derived from `seed`: a fixed function of the
/// bytes alone.
pub uninterp spec fn ecdsa_public_of(seed: Seq<u8>) -> Seq<u8>;

/// Whether `sig` is a valid signature by `public` over `msg`: a fixed
/// function of its three arguments alone.
pub uninterp spec fn ecdsa_verifies(public: Seq<u8>, msg: Seq<u8>, sig: Seq<u8>) -> bool;

/// The signature produced over `msg` by the key derived from `seed`: a
/// fixed function of the two arguments alone, since the signing primitive
/// draws its nonce deterministically.
pub uninterp spec fn ecdsa_sig_of(seed: Seq<u8>, msg: Seq<u8>) -> Seq<u8>;

/// The public keys derived from a list of seeds, in order.
pub open spec fn public_ids_of(seeds: Seq<Seq<u8>>) -> Seq<Seq<u8>> {
    seeds.map_values(|s: Seq<u8>| ecdsa_public_of(s))
}

/// Relies on `sp_core::ecdsa::Pair::from_seed_slice` and `public`: the
/// derivation succeeds exactly for admissible seeds, and the 33-byte public
/// key depends on the seed alone.
#[verifier::external_body]
fn ecdsa_public(seed: &Vec<u8>) -> (r: Option<Vec<u8>>)
    requires
        seed@.len() == 32,
    ensures
        r is Some <==> ecdsa_seed_ok(seed@),
        r matches Some(pk) ==> pk@ == ecdsa_public_of(seed@) && pk@.len() == 33,
{
    match <sp_core::ecdsa::Pair as sp_core::crypto::Pair>::from_seed_slice(seed.as_slice()) {
        Ok(pair) => Some(
            <sp_core::ecdsa::Pair as sp_core::crypto::Pair>::public(&pair).0.to_vec(),
        ),
        Err(_) => None,
    }
}

/// Relies on `sp_core::ecdsa::Pair::from_seed_slice` and `sign`: signing
/// succeeds exactly for admissible seeds and yields 65 bytes.  The
/// signature is a function of seed and message alone (RFC 6979 nonces, via
/// the non-randomized signing entry point), and `Pair::verify` accepts it
/// under the key derived from the same seed, since verification recovers
/// the very key the recoverable signature embeds.
#[verifier::external_body]
fn ecdsa_sign(seed: &Vec<u8>, msg: &Vec<u8>) -> (r: Option<Vec<u8>>)
    requires
        seed@.len() == 32,
    ensures
        r is Some <==> ecdsa_seed_ok(seed@),
        r matches Some(sig) ==> {
            &&& sig@.len() == 65
            &&& sig@ == ecdsa_sig_of(seed@, msg@)
            &&& ecdsa_public_of(seed@).len() == 33
            &&& ecdsa_verifies(ecdsa_public_of(seed@), msg@, sig@)
        },
{
    match <sp_core::ecdsa::Pair as sp_core::crypto::Pair>::from_seed_slice(seed.as_slice()) {
        Ok(pair) => Some(
            <sp_core::ecdsa::Pair as sp_core::crypto::Pair>::sign(&pair, msg.as_slice()).0.to_vec(),
        ),
        Err(_) => None,
    }
}

/// Relies on `sp_core::ecdsa::Pair::verify`: a deterministic verdict on a
/// 65-byte signature against a 33-byte public key and a message.
#[verifier::external_body]
fn ecdsa_verify_sig(public: &Vec<u8>, msg: &Vec<u8>, sig: &Vec<u8>) -> (r: bool)
    requires
        public@.len() == 33,
        sig@.len() == 65,
    ensures
        r == ecdsa_verifies(public@, msg@, sig@),
{
    let mut pk = [0u8; 33];
    pk.copy_from_slice(public.as_slice());
    let mut sg = [0u8; 65];
    sg.copy_from_slice(sig.as_slice());
    let pk = sp_core::ecdsa::Public::from_raw(pk);
    let sg = sp_core::ecdsa::Signature::from_raw(sg);
    <sp_core::ecdsa::Pair as sp_core::crypto::Pair>::verify(&sg, msg.as_slice(), &pk)
}

/// Derives one authority from secret seed material: the seed kept beside
/// its compressed public id.  Fails exactly for inadmissible seeds.
pub fn authority_pair_from_seed(seed: &Vec<u8>) -> (r: Option<(Vec<u8>, Vec<u8>)>)
    requires
        seed@.len() == 32,
    ensures
        r is Some <==> ecdsa_seed_ok(seed@),
        r matches Some(p) ==> p.0@ == seed@ && p.1@ == ecdsa_public_of(seed@) && p.1@.len() == 33,
{
    match ecdsa_public(seed) {
        None => None,
        Some(pk) => Some((copy_bytes(seed), pk)),
    }
}

/// The payload of a commitment: the accumulator root as of the committed
/// block, an optional wholesale authority-set replacement, and the
/// validator-set id that applies after this commitment.
pub struct CommitmentPayload {
    pub mmr_node: MMRNode,
    pub changed_authority_ids: Option<Vec<AuthorityId>>,
    pub new_validator_set_id: u64,
}

/// What a commitment binds: its payload, the block it speaks for, and the
/// id of the authority set that signs it.
pub struct Commitment {
    pub payload: CommitmentPayload,
    pub block_number: BlockNumber,
    pub validator_set_id: u64,
}

/// A commitment plus one optional signature slot per authority-set
/// position, index-aligned with the signing set.
pub struct SignedCommitment {
    pub commitment: Commitment,
    pub signatures: Vec<Option<Vec<u8>>>,
}

impl CommitmentPayload {
    /// The payload as a mathematical value.
    pub open spec fn model(self) -> (NodeV, Option<Seq<Seq<u8>>>, u64) {
        (self.mmr_node@, self.changed_authority_ids.deep_view(), self.new_validator_set_id)
    }

    /// Structural copy with a known result.
    pub fn duplicate(&self) -> (r: CommitmentPayload)
        ensures
            r.model() == self.model(),
    {
        let changed = match &self.changed_authority_ids {
            None => None,
            Some(ids) => Some(crate::encoding::copy_bytes_list(ids)),
        };
        let r = CommitmentPayload {
            mmr_node: self.mmr_node.duplicate(),
            changed_authority_ids: changed,
            new_validator_set_id: self.new_validator_set_id,
        };
        proof {
            assert(r.changed_authority_ids.deep_view() == self.changed_authority_ids.deep_view());
        }
        r
    }
}

impl Commitment {
    /// The commitment as a mathematical value.
    pub open spec fn model(self) -> ((NodeV, Option<Seq<Seq<u8>>>, u64), u64, u64) {
        (self.payload.model(), self.block_number, self.validator_set_id)
    }

    /// Structural copy with a known result.
    pub fn duplicate(&self) -> (r: Commitment)
        ensures
            r.model() == self.model(),
    {
        Commitment {
            payload: self.payload.duplicate(),
            block_number: self.block_number,
            validator_set_id: self.validator_set_id,
        }
    }
}

impl SignedCommitment {
    /// The signed commitment as a mathematical value.
    pub open spec fn model(self) -> (
        ((NodeV, Option<Seq<Seq<u8>>>, u64), u64, u64),
        Seq<Option<Seq<u8>>>,
    ) {
        (self.commitment.model(), self.signatures.deep_view())
    }

    /// Structural copy with a known result.
    pub fn duplicate(&self) -> (r: SignedCommitment)
        ensures
            r.model() == self.model(),
    {
        let n = self.signatures.len();
        let mut signatures: Vec<Option<Vec<u8>>> = Vec::new();
        let mut i: usize = 0;
        while i < n
            invariant
                n == self.signatures@.len(),
                i <= n,
                signatures@.len() == i,
                forall|j: int| 0 <= j < i ==> (#[trigger] signatures@[j]).deep_view()
                    == self.signatures@[j].deep_view(),
            decreases n - i,
        {
            let slot = match &self.signatures[i] {
                None => None,
                Some(sig) => Some(copy_bytes(sig)),
            };
            proof {
                match self.signatures@[i as int] {
                    None => {
                        assert(slot.deep_view() == self.signatures@[i as int].deep_view());
                    },
                    Some(sig0) => {
                        crate::encoding::lemma_bytes_deep_view(sig0);
                        crate::encoding::lemma_bytes_deep_view(slot->0);
                        assert(slot.deep_view() == self.signatures@[i as int].deep_view());
                    },
                }
            }
            signatures.push(slot);
            i = i + 1;
        }
        let r = SignedCommitment { commitment: self.commitment.duplicate(), signatures };
        proof {
            assert forall|j: int| 0 <= j < n implies #[trigger] r.signatures.deep_view()[j]
                == self.signatures.deep_view()[j] by {
                assert(r.signatures.deep_view()[j] == r.signatures@[j].deep_view());
                assert(self.signatures.deep_view()[j] == self.signatures@[j].deep_view());
            }
            assert(r.signatures.deep_view() =~= self.signatures.deep_view());
        }
        r
    }
}

/// A node encodes as a tag byte and its content: `0` before a leaf datum,
/// `1` before a digest.
pub open spec fn node_bytes_spec(n: NodeV) -> Seq<u8> {
    match n {
        NodeV::Data(l) => seq![0u8] + crate::encoding::leaf_bytes_spec(l),
        NodeV::Hash(d) => seq![1u8] + d,
    }
}

/// A list of ids encodes as each id's length and bytes, in order.
pub open spec fn ids_bytes_spec(ids: Seq<Seq<u8>>) -> Seq<u8>
    decreases ids.len(),
{
    if ids.len() == 0 {
        Seq::empty()
    } else {
        ids_bytes_spec(ids.drop_last()) + u64_le_spec(ids.last().len() as u64) + ids.last()
    }
}

/// A payload encodes as its node, a tagged optional id list, and the new
/// validator-set id.
pub open spec fn payload_bytes_spec(p: CommitmentPayload) -> Seq<u8> {
    node_bytes_spec(p.mmr_node@) + (match p.changed_authority_ids.deep_view() {
        None => seq![0u8],
        Some(ids) => seq![1u8] + u64_le_spec(ids.len() as u64) + ids_bytes_spec(ids),
    }) + u64_le_spec(p.new_validator_set_id)
}

/// The deterministic serialization of a commitment: what is hashed, signed
/// and checked.  Byte-identical for identical values.
pub open spec fn commitment_bytes_spec(c: Commitment) -> Seq<u8> {
    payload_bytes_spec(c.payload) + u64_le_spec(c.block_number) + u64_le_spec(c.validator_set_id)
}

/// Encodes a node.
pub fn node_bytes(n: &MMRNode) -> (r: Vec<u8>)
    ensures
        r@ == node_bytes_spec(n@),
{
    match n {
        MMRNode::Data(l) => {
            let mut r: Vec<u8> = Vec::new();
            r.push(0u8);
            let lb = leaf_bytes(l);
            push_bytes(&mut r, &lb);
            proof {
                assert(r@ =~= node_bytes_spec(n@));
            }
            r
        },
        MMRNode::Hash(d) => {
            let mut r: Vec<u8> = Vec::new();
            r.push(1u8);
            push_bytes(&mut r, d);
            proof {
                assert(r@ =~= node_bytes_spec(n@));
            }
            r
        },
    }
}

/// Encodes a commitment deterministically.
pub fn encode_commitment(c: &Commitment) -> (r: Vec<u8>)
    ensures
        r@ == commitment_bytes_spec(*c),
{
    let mut r = node_bytes(&c.payload.mmr_node);
    match &c.payload.changed_authority_ids {
        None => {
            r.push(0u8);
            proof {
                assert(r@ =~= node_bytes_spec(c.payload.mmr_node@) + seq![0u8]);
            }
        },
        Some(ids) => {
            r.push(1u8);
            let len_bytes = u64_le(ids.len() as u64);
            push_bytes(&mut r, &len_bytes);
            let ghost idsv = ids.deep_view();
            let ghost base = r@;
            let n = ids.len();
            let mut i: usize = 0;
            proof {
                assert(ids_bytes_spec(idsv.take(0)) =~= Seq::<u8>::empty());
                assert(r@ =~= base + ids_bytes_spec(idsv.take(0)));
            }
            while i < n
                invariant
                    n == ids@.len(),
                    idsv == ids.deep_view(),
                    idsv.len() == n,
                    base == node_bytes_spec(c.payload.mmr_node@) + seq![1u8] + u64_le_spec(
                        idsv.len() as u64,
                    ),
                    i <= n,
                    r@ == base + ids_bytes_spec(idsv.take(i as int)),
                decreases n - i,
            {
                let id = &ids[i];
                let id_len = u64_le(id.len() as u64);
                push_bytes(&mut r, &id_len);
                push_bytes(&mut r, id);
                proof {
                    let t1 = idsv.take(i + 1);
                    crate::encoding::lemma_bytes_deep_view(ids@[i as int]);
                    assert(t1.drop_last() =~= idsv.take(i as int));
                    assert(t1.last() == idsv[i as int]);
                    assert(idsv[i as int] == ids@[i as int]@);
                    assert(r@ =~= base + ids_bytes_spec(t1));
                }
                i = i + 1;
            }
            proof {
                assert(idsv.take(n as int) =~= idsv);
                assert(c.payload.changed_authority_ids.deep_view() == Some(idsv));
                assert(r@ =~= node_bytes_spec(c.payload.mmr_node@) + (seq![1u8] + u64_le_spec(
                    idsv.len() as u64,
                ) + ids_bytes_spec(idsv)));
            }
        },
    }
    let nvsi = u64_le(c.payload.new_validator_set_id);
    push_bytes(&mut r, &nvsi);
    proof {
        assert(r@ =~= payload_bytes_spec(c.payload));
    }
    let bn = u64_le(c.block_number);
    push_bytes(&mut r, &bn);
    let vsi = u64_le(c.validator_set_id);
    push_bytes(&mut r, &vsi);
    proof {
        assert(r@ =~= commitment_bytes_spec(*c));
    }
    r
}

/// A signature slot is good when the 33-byte key at its position accepts
/// the 65-byte signature over the commitment bytes.
pub open spec fn sig_valid_spec(public: Seq<u8>, msg: Seq<u8>, sig: Seq<u8>) -> bool {
    public.len() == 33 && sig.len() == 65 && ecdsa_verifies(public, msg, sig)
}

/// Position-by-position check from `idx` on: the first empty slot yields
/// `MissingSignature`, the first bad one `InvalidSignature`.
pub open spec fn check_sigs_from(
    sigs: Seq<Option<Seq<u8>>>,
    auths: Seq<Seq<u8>>,
    msg: Seq<u8>,
    idx: int,
) -> Result<(), IngestError>
    decreases sigs.len() - idx,
{
    if idx < 0 || idx >= sigs.len() {
        Ok(())
    } else {
        match sigs[idx] {
            None => Err(IngestError::MissingSignature),
            Some(s) => if !sig_valid_spec(auths[idx], msg, s) {
                Err(IngestError::InvalidSignature)
            } else {
                check_sigs_from(sigs, auths, msg, idx + 1)
            },
        }
    }
}

/// The verdict on a signed commitment against an authority set: a count
/// mismatch first, then the position-by-position unanimity check.
pub open spec fn verify_commitment_spec(sc: SignedCommitment, auths: Seq<Seq<u8>>) -> Result<
    (),
    IngestError,
> {
    if sc.signatures.deep_view().len() != auths.len() {
        Err(IngestError::SignatureCountMismatch)
    } else {
        check_sigs_from(
            sc.signatures.deep_view(),
            auths,
            commitment_bytes_spec(sc.commitment),
            0,
        )
    }
}

/// The deterministic serialization depends only on a commitment's model:
/// structural copies encode byte-identically.
pub proof fn lemma_commitment_bytes_model(c1: Commitment, c2: Commitment)
    requires
        c1.model() == c2.model(),
    ensures
        commitment_bytes_spec(c1) == commitment_bytes_spec(c2),
{
    assert(c1.payload.mmr_node@ == c2.payload.mmr_node@);
    assert(c1.payload.changed_authority_ids.deep_view()
        == c2.payload.changed_authority_ids.deep_view());
    assert(c1.payload.new_validator_set_id == c2.payload.new_validator_set_id);
}

/// The verdict on a signed commitment depends only on its model: the
/// structural copy a view carries is accepted exactly when the original is.
pub proof fn lemma_verify_commitment_model(
    sc1: SignedCommitment,
    sc2: SignedCommitment,
    auths: Seq<Seq<u8>>,
)
    requires
        sc1.model() == sc2.model(),
    ensures
        verify_commitment_spec(sc1, auths) == verify_commitment_spec(sc2, auths),
{
    lemma_commitment_bytes_model(sc1.commitment, sc2.commitment);
    assert(sc1.signatures.deep_view() == sc2.signatures.deep_view());
}

/// Verifies a signed commitment against an authority set.  Succeeds exactly
/// when the slot count matches the set size and every slot holds a valid
/// signature by its positional key — unanimity, no quorum.
pub fn verify_signed_commitment(
    signed_commitment: &SignedCommitment,
    initial_authorities: &Vec<AuthorityId>,
) -> (r: Result<(), IngestError>)
    ensures
        r == verify_commitment_spec(*signed_commitment, initial_authorities.deep_view()),
{
    let ghost sigsv = signed_commitment.signatures.deep_view();
    let ghost authsv = initial_authorities.deep_view();
    if signed_commitment.signatures.len() != initial_authorities.len() {
        return Err(IngestError::SignatureCountMismatch);
    }
    let encoded = encode_commitment(&signed_commitment.commitment);
    let ghost msg = commitment_bytes_spec(signed_commitment.commitment);
    let n = signed_commitment.signatures.len();
    let mut i: usize = 0;
    while i < n
        invariant
            n == sigsv.len(),
            n == authsv.len(),
            sigsv == signed_commitment.signatures.deep_view(),
            authsv == initial_authorities.deep_view(),
            encoded@ == msg,
            msg == commitment_bytes_spec(signed_commitment.commitment),
            i <= n,
            check_sigs_from(sigsv, authsv, msg, 0) == check_sigs_from(sigsv, authsv, msg, i as int),
        decreases n - i,
    {
        match &signed_commitment.signatures[i] {
            None => {
                proof {
                    assert(sigsv[i as int] is None);
                }
                return Err(IngestError::MissingSignature);
            },
            Some(sig) => {
                proof {
                    assert(sigsv[i as int] == Some(signed_commitment.signatures@[i as int]->0@));
                }
                let auth = &initial_authorities[i];
                proof {
                    assert(authsv[i as int] == initial_authorities@[i as int]@);
                }
                let shape_ok = auth.len() == 33 && sig.len() == 65;
                if !shape_ok {
                    proof {
                        assert(!sig_valid_spec(authsv[i as int], msg, sigsv[i as int]->0));
                    }
                    return Err(IngestError::InvalidSignature);
                }
                if !ecdsa_verify_sig(auth, &encoded, sig) {
                    proof {
                        assert(!sig_valid_spec(authsv[i as int], msg, sigsv[i as int]->0));
                    }
                    return Err(IngestError::InvalidSignature);
                }
                proof {
                    assert(sig_valid_spec(authsv[i as int], msg, sigsv[i as int]->0));
                    assert(check_sigs_from(sigsv, authsv, msg, i as int) == check_sigs_from(
                        sigsv,
                        authsv,
                        msg,
                        i as int + 1,
                    ));
                }
            },
        }
        i = i + 1;
    }
    Ok(())
}

/// A bad slot anywhere at or after `idx` dooms the position-by-position
/// check.
pub proof fn lemma_check_sigs_err(
    sigs: Seq<Option<Seq<u8>>>,
    auths: Seq<Seq<u8>>,
    msg: Seq<u8>,
    idx: int,
    bad: int,
)
    requires
        0 <= idx <= bad < sigs.len(),
        sigs[bad] is None || !sig_valid_spec(auths[bad], msg, sigs[bad]->0),
    ensures
        check_sigs_from(sigs, auths, msg, idx) is Err,
    decreases bad - idx,
{
    if idx < bad {
        lemma_check_sigs_err(sigs, auths, msg, idx + 1, bad);
    }
}

/// Unanimity: a signed commitment whose slot count differs from the
/// authority-set size is refused with `SignatureCountMismatch`; one with a
/// matching count but an empty slot, or a slot whose signature its
/// positional key rejects, is refused.
pub proof fn lemma_unanimity(sc: SignedCommitment, auths: Seq<Seq<u8>>, i: int)
    requires
        0 <= i < sc.signatures.deep_view().len(),
    ensures
        sc.signatures.deep_view().len() != auths.len() ==> verify_commitment_spec(sc, auths)
            == Err::<(), IngestError>(IngestError::SignatureCountMismatch),
        (sc.signatures.deep_view().len() == auths.len() && (sc.signatures.deep_view()[i] is None
            || !sig_valid_spec(
            auths[i],
            commitment_bytes_spec(sc.commitment),
            sc.signatures.deep_view()[i]->0,
        ))) ==> verify_commitment_spec(sc, auths) is Err,
{
    if sc.signatures.deep_view().len() == auths.len() && (sc.signatures.deep_view()[i] is None
        || !sig_valid_spec(
        auths[i],
        commitment_bytes_spec(sc.commitment),
        sc.signatures.deep_view()[i]->0,
    )) {
        lemma_check_sigs_err(
            sc.signatures.deep_view(),
            auths,
            commitment_bytes_spec(sc.commitment),
            0,
            i,
        );
    }
}

/// All slots from `idx` on are filled and valid: the position-by-position
/// check accepts.
pub proof fn lemma_check_sigs_ok(
    sigs: Seq<Option<Seq<u8>>>,
    auths: Seq<Seq<u8>>,
    msg: Seq<u8>,
    idx: int,
)
    requires
        0 <= idx,
        forall|j: int| idx <= j < sigs.len() ==> ((#[trigger] sigs[j]) matches Some(s)
            && sig_valid_spec(auths[j], msg, s)),
    ensures
        check_sigs_from(sigs, auths, msg, idx) == Ok::<(), IngestError>(()),
    decreases sigs.len() - idx,
{
    if idx < sigs.len() {
        lemma_check_sigs_ok(sigs, auths, msg, idx + 1);
    }
}

/// Builds a commitment over `payload` for `block_number` under `set_id` and
/// has every seed sign its deterministic serialization, in input order:
/// slot `i` holds exactly seed `i`'s signature over the encoded commitment,
/// and the whole result verifies against the public ids derived from the
/// seeds.  Fails exactly when some seed is inadmissible key material.
pub fn generate_signed_commitment(
    set_id: u64,
    block_number: BlockNumber,
    payload: CommitmentPayload,
    validator_seeds: &Vec<Vec<u8>>,
) -> (r: Option<SignedCommitment>)
    requires
        forall|i: int| 0 <= i < validator_seeds@.len() ==> (
        #[trigger] validator_seeds@[i])@.len() == 32,
    ensures
        r is Some <==> (forall|i: int| 0 <= i < validator_seeds@.len() ==> ecdsa_seed_ok(
            #[trigger] validator_seeds.deep_view()[i],
        )),
        r matches Some(sc) ==> {
            &&& sc.commitment.payload.model() == payload.model()
            &&& sc.commitment.block_number == block_number
            &&& sc.commitment.validator_set_id == set_id
            &&& sc.signatures.deep_view().len() == validator_seeds@.len()
            &&& forall|i: int| 0 <= i < sc.signatures.deep_view().len()
                ==> #[trigger] sc.signatures.deep_view()[i] == Some(
                    ecdsa_sig_of(
                        validator_seeds.deep_view()[i],
                        commitment_bytes_spec(sc.commitment),
                    ),
                )
            &&& verify_commitment_spec(sc, public_ids_of(validator_seeds.deep_view())) == Ok::<
                (),
                IngestError,
            >(())
        },
{
    let commitment = Commitment { payload, block_number, validator_set_id: set_id };
    let encoded = encode_commitment(&commitment);
    let n = validator_seeds.len();
    let mut signatures: Vec<Option<Vec<u8>>> = Vec::new();
    let mut i: usize = 0;
    while i < n
        invariant
            n == validator_seeds@.len(),
            forall|j: int| 0 <= j < n ==> (#[trigger] validator_seeds@[j])@.len() == 32,
            i <= n,
            signatures@.len() == i,
            encoded@ == commitment_bytes_spec(commitment),
            forall|j: int| 0 <= j < i ==> ecdsa_seed_ok(#[trigger] validator_seeds.deep_view()[j]),
            forall|j: int| 0 <= j < i ==> ((#[trigger] signatures@[j]) matches Some(sig)
                && sig@ == ecdsa_sig_of(validator_seeds.deep_view()[j], encoded@)
                && sig_valid_spec(
                ecdsa_public_of(validator_seeds.deep_view()[j]),
                encoded@,
                sig@,
            )),
        decreases n - i,
    {
        let seed = &validator_seeds[i];
        proof {
            crate::encoding::lemma_bytes_deep_view(validator_seeds@[i as int]);
            assert(validator_seeds.deep_view()[i as int] == validator_seeds@[i as int]@);
        }
        match ecdsa_sign(seed, &encoded) {
            None => {
                proof {
                    assert(!ecdsa_seed_ok(validator_seeds.deep_view()[i as int]));
                }
                return None;
            },
            Some(sig) => {
                signatures.push(Some(sig));
            },
        }
        i = i + 1;
    }
    let r = SignedCommitment { commitment, signatures };
    proof {
        let msg = commitment_bytes_spec(r.commitment);
        let sigsv = r.signatures.deep_view();
        let ids = public_ids_of(validator_seeds.deep_view());
        assert forall|j: int| 0 <= j < sigsv.len() implies #[trigger] sigsv[j] == Some(
            ecdsa_sig_of(validator_seeds.deep_view()[j], msg),
        ) && (sigsv[j] matches Some(s) && sig_valid_spec(ids[j], msg, s)) by {
            assert(sigsv[j] == r.signatures@[j].deep_view());
            let slot = r.signatures@[j];
            assert(slot matches Some(sig) && sig@ == ecdsa_sig_of(
                validator_seeds.deep_view()[j],
                msg,
            ) && sig_valid_spec(ecdsa_public_of(validator_seeds.deep_view()[j]), msg, sig@));
            crate::encoding::lemma_bytes_deep_view(slot->0);
            assert(ids[j] == ecdsa_public_of(validator_seeds.deep_view()[j]));
        }
        lemma_check_sigs_ok(sigsv, ids, msg, 0);
        assert(verify_commitment_spec(r, ids) == Ok::<(), IngestError>(()));
    }
    Some(r)
}

} // verus!
