//! The digest item: a tagged union of six payload kinds, its borrowing
//! projection used for zero-copy encoding, and the item-level wire codec.
//!
//! Wire layout of one item: a single tag byte naming the variant, then the
//! payload. Tag 3 is reserved and never produced; a buffer opening with it
//! (or any other unassigned tag) is rejected.

use vstd::prelude::*;

use crate::codec::{
    bytes_enc, compact_enc, decode_bytes_at, decode_raw_at, decode_u32_at, decode_u32_vec_at,
    encode_bytes_to, encode_raw_to, encode_u32_to, encode_u32_vec_to, lemma_compact_first_byte,
    lemma_compact_injective, lemma_subrange_concat, lemma_u32_le_injective, lemma_u32_seq_enc_injective,
    lemma_u32_seq_enc_len, u32_le_bytes, u32_seq_enc, u32_vec_enc,
};

verus! {

broadcast use vstd::array::group_array_axioms;

/// Hash payload of a changes-trie-root entry.
pub type Hash = u32;

/// Identifier of one authority in an authority-set change.
pub type AuthorityId = u32;

/// Opaque fixed-width identifier naming a consensus engine.
pub type ConsensusEngineId = [u8; 4];

/// Width in bytes of a seal signature on the wire.
pub const SEAL_SIGNATURE_LEN: usize = 64;

/// Fixed-width signature payload of a seal entry.
#[derive(PartialEq, Eq, Clone, Debug)]
pub struct SealSignature {
    pub bytes: Vec<u8>,
}

/// A signature is well-formed when it has exactly its fixed wire width.
pub open spec fn signature_wf(s: SealSignature) -> bool {
    s.bytes@.len() == SEAL_SIGNATURE_LEN
}

impl Default for SealSignature {
    /// The zero-filled signature.
    fn default() -> (r: Self)
        ensures
            signature_wf(r),
            r.bytes@ == Seq::new(SEAL_SIGNATURE_LEN as nat, |i: int| 0u8),
    {
        let mut bytes: Vec<u8> = Vec::new();
        let mut i: usize = 0;
        while i < SEAL_SIGNATURE_LEN
            invariant
                i <= SEAL_SIGNATURE_LEN,
                bytes@ == Seq::new(i as nat, |j: int| 0u8),
            decreases SEAL_SIGNATURE_LEN - i,
        {
            bytes.push(0u8);
            i = i + 1;
            proof {
                assert(bytes@ =~= Seq::new(i as nat, |j: int| 0u8));
            }
        }
        SealSignature { bytes }
    }
}

/// Mathematical shape of a digest item: each payload as a plain sequence.
pub enum ItemModel {
    AuthoritiesChange(Seq<u32>),
    ChangesTrieRoot(u32),
    Consensus(Seq<u8>, Seq<u8>),
    Seal(Seq<u8>, Seq<u8>),
    PreRuntime(Seq<u8>, Seq<u8>),
    Other(Seq<u8>),
}

/// Wire tag of the `Other` variant.
pub const TAG_OTHER: u8 = 0;
/// Wire tag of the `AuthoritiesChange` variant.
pub const TAG_AUTHORITIES_CHANGE: u8 = 1;
/// Wire tag of the `ChangesTrieRoot` variant.
pub const TAG_CHANGES_TRIE_ROOT: u8 = 2;
/// Wire tag of the `Consensus` variant. Tag 3 is reserved and unassigned.
pub const TAG_CONSENSUS: u8 = 4;
/// Wire tag of the `Seal` variant.
pub const TAG_SEAL: u8 = 5;
/// Wire tag of the `PreRuntime` variant.
pub const TAG_PRE_RUNTIME: u8 = 6;

/// The tag byte each variant opens with on the wire.
pub open spec fn tag_of(m: ItemModel) -> u8 {
    match m {
        ItemModel::Other(_) => TAG_OTHER,
        ItemModel::AuthoritiesChange(_) => TAG_AUTHORITIES_CHANGE,
        ItemModel::ChangesTrieRoot(_) => TAG_CHANGES_TRIE_ROOT,
        ItemModel::Consensus(_, _) => TAG_CONSENSUS,
        ItemModel::Seal(_, _) => TAG_SEAL,
        ItemModel::PreRuntime(_, _) => TAG_PRE_RUNTIME,
    }
}

/// Whether a byte is one of the six assigned tags.
pub open spec fn is_known_tag(b: u8) -> bool {
    b == TAG_OTHER || b == TAG_AUTHORITIES_CHANGE || b == TAG_CHANGES_TRIE_ROOT
        || b == TAG_CONSENSUS || b == TAG_SEAL || b == TAG_PRE_RUNTIME
}

/// Well-formedness: every variable-width payload fits the 32-bit length
/// prefix, engine identifiers are four bytes, signatures have their width.
pub open spec fn model_wf(m: ItemModel) -> bool {
    match m {
        ItemModel::AuthoritiesChange(a) => a.len() < 0x100000000,
        ItemModel::ChangesTrieRoot(_) => true,
        ItemModel::Consensus(id, d) => id.len() == 4 && d.len() < 0x100000000,
        ItemModel::Seal(id, sig) => id.len() == 4 && sig.len() == SEAL_SIGNATURE_LEN,
        ItemModel::PreRuntime(id, d) => id.len() == 4 && d.len() < 0x100000000,
        ItemModel::Other(d) => d.len() < 0x100000000,
    }
}

/// Wire image of an item: its tag byte, then its payload in declared field
/// order; pairs are laid out as the engine identifier then the second field.
pub open spec fn model_enc(m: ItemModel) -> Seq<u8> {
    match m {
        ItemModel::AuthoritiesChange(a) => seq![TAG_AUTHORITIES_CHANGE] + u32_vec_enc(a),
        ItemModel::ChangesTrieRoot(h) => seq![TAG_CHANGES_TRIE_ROOT] + u32_le_bytes(h),
        ItemModel::Consensus(id, d) => seq![TAG_CONSENSUS] + id + bytes_enc(d),
        ItemModel::Seal(id, sig) => seq![TAG_SEAL] + id + sig,
        ItemModel::PreRuntime(id, d) => seq![TAG_PRE_RUNTIME] + id + bytes_enc(d),
        ItemModel::Other(d) => seq![TAG_OTHER] + bytes_enc(d),
    }
}

/// Every encoding opens with its variant's tag, one of the six assigned
/// values; the reserved tag 3 never occurs.
pub proof fn lemma_model_enc_tag(m: ItemModel)
    ensures
        model_enc(m).len() >= 1,
        model_enc(m)[0] == tag_of(m),
        is_known_tag(tag_of(m)),
        tag_of(m) != 3,
{
}

/// Digest item owning its payload. Exactly one of six mutually exclusive
/// payload kinds; the wire tag is a function of the variant alone.
#[derive(PartialEq, Eq, Clone, Debug)]
pub enum DigestItem {
    /// The authority set changed in this block; carries the new set.
    AuthoritiesChange(Vec<AuthorityId>),
    /// Root of the changes trie at this block.
    ChangesTrieRoot(Hash),
    /// A message from the runtime to the named consensus engine.
    Consensus(ConsensusEngineId, Vec<u8>),
    /// A seal put on the block by the named consensus engine.
    Seal(ConsensusEngineId, SealSignature),
    /// A message from the named consensus engine to the runtime.
    PreRuntime(ConsensusEngineId, Vec<u8>),
    /// Any non-system entry, opaque to this codec.
    Other(Vec<u8>),
}

/// Borrowing projection of a digest item: the same six kinds, every payload
/// referencing data owned elsewhere. It exists to drive encoding without
/// copying; decoding always produces the owning type.
#[derive(PartialEq, Eq, Clone, Debug)]
pub enum DigestItemRef<'a> {
    /// Borrowed form of `DigestItem::AuthoritiesChange`.
    AuthoritiesChange(&'a Vec<AuthorityId>),
    /// Borrowed form of `DigestItem::ChangesTrieRoot`.
    ChangesTrieRoot(&'a Hash),
    /// Borrowed form of `DigestItem::Consensus`.
    Consensus(&'a ConsensusEngineId, &'a Vec<u8>),
    /// Borrowed form of `DigestItem::Seal`.
    Seal(&'a ConsensusEngineId, &'a SealSignature),
    /// Borrowed form of `DigestItem::PreRuntime`.
    PreRuntime(&'a ConsensusEngineId, &'a Vec<u8>),
    /// Borrowed form of `DigestItem::Other`.
    Other(&'a Vec<u8>),
}

impl View for DigestItem {
    type V = ItemModel;

    open spec fn view(&self) -> ItemModel {
        match self {
            DigestItem::AuthoritiesChange(a) => ItemModel::AuthoritiesChange(a@),
            DigestItem::ChangesTrieRoot(h) => ItemModel::ChangesTrieRoot(*h),
            DigestItem::Consensus(id, d) => ItemModel::Consensus(id@, d@),
            DigestItem::Seal(id, sig) => ItemModel::Seal(id@, sig.bytes@),
            DigestItem::PreRuntime(id, d) => ItemModel::PreRuntime(id@, d@),
            DigestItem::Other(d) => ItemModel::Other(d@),
        }
    }
}

impl<'a> View for DigestItemRef<'a> {
    type V = ItemModel;

    open spec fn view(&self) -> ItemModel {
        match self {
            DigestItemRef::AuthoritiesChange(a) => ItemModel::AuthoritiesChange(a@),
            DigestItemRef::ChangesTrieRoot(h) => ItemModel::ChangesTrieRoot(**h),
            DigestItemRef::Consensus(id, d) => ItemModel::Consensus(id@, d@),
            DigestItemRef::Seal(id, sig) => ItemModel::Seal(id@, sig.bytes@),
            DigestItemRef::PreRuntime(id, d) => ItemModel::PreRuntime(id@, d@),
            DigestItemRef::Other(d) => ItemModel::Other(d@),
        }
    }
}

/// Appends the four bytes of an engine identifier to `out`.
fn encode_engine_to(id: &ConsensusEngineId, out: &mut Vec<u8>)
    ensures
        final(out)@ == old(out)@ + id@,
{
    out.push(id[0]);
    out.push(id[1]);
    out.push(id[2]);
    out.push(id[3]);
    assert(out@ =~= old(out)@ + id@);
}

/// Reads a four-byte engine identifier at `pos`; fails exactly when fewer
/// than four bytes remain.
fn decode_engine_at(buf: &Vec<u8>, pos: usize) -> (r: Option<(ConsensusEngineId, usize)>)
    requires
        pos <= buf@.len(),
    ensures
        match r {
            Some((id, p)) => {
                &&& p == pos + 4
                &&& p <= buf@.len()
                &&& id@ == buf@.subrange(pos as int, p as int)
            },
            None => buf@.len() < pos + 4,
        },
{
    if buf.len() - pos < 4 {
        return None;
    }
    let id: ConsensusEngineId = [buf[pos], buf[pos + 1], buf[pos + 2], buf[pos + 3]];
    proof {
        assert(id@ =~= buf@.subrange(pos as int, pos + 4));
    }
    Some((id, pos + 4))
}

impl<'a> DigestItemRef<'a> {
    /// Present exactly when the item is an authorities-change entry; yields
    /// the new authority set.
    pub fn as_authorities_change(&self) -> (r: Option<&'a [AuthorityId]>)
        ensures
            match r {
                Some(a) => self@ matches ItemModel::AuthoritiesChange(s) && a@ == s,
                None => !(self@ is AuthoritiesChange),
            },
    {
        match *self {
            DigestItemRef::AuthoritiesChange(authorities) => Some(authorities.as_slice()),
            _ => None,
        }
    }

    /// Present exactly when the item is a changes-trie-root entry; yields the
    /// root hash.
    pub fn as_changes_trie_root(&self) -> (r: Option<&'a Hash>)
        ensures
            match r {
                Some(h) => self@ matches ItemModel::ChangesTrieRoot(x) && *h == x,
                None => !(self@ is ChangesTrieRoot),
            },
    {
        match *self {
            DigestItemRef::ChangesTrieRoot(changes_trie_root) => Some(changes_trie_root),
            _ => None,
        }
    }

    /// Present exactly when the item is a pre-runtime entry; yields the
    /// engine identifier and the message bytes.
    pub fn as_pre_runtime(&self) -> (r: Option<(ConsensusEngineId, &'a [u8])>)
        ensures
            match r {
                Some((id, d)) => self@ matches ItemModel::PreRuntime(i, s) && id@ == i && d@ == s,
                None => !(self@ is PreRuntime),
            },
    {
        match *self {
            DigestItemRef::PreRuntime(consensus_engine_id, data) => {
                Some((*consensus_engine_id, data.as_slice()))
            },
            _ => None,
        }
    }

    /// Wire image of the referenced item: tag byte, then payload.
    pub fn encode(&self) -> (r: Vec<u8>)
        requires
            model_wf(self@),
        ensures
            r@ == model_enc(self@),
    {
        let mut v: Vec<u8> = Vec::new();
        match *self {
            DigestItemRef::AuthoritiesChange(authorities) => {
                v.push(TAG_AUTHORITIES_CHANGE);
                encode_u32_vec_to(authorities, &mut v);
                assert(v@ =~= model_enc(self@));
            },
            DigestItemRef::ChangesTrieRoot(changes_trie_root) => {
                v.push(TAG_CHANGES_TRIE_ROOT);
                encode_u32_to(*changes_trie_root, &mut v);
                assert(v@ =~= model_enc(self@));
            },
            DigestItemRef::Consensus(val, data) => {
                v.push(TAG_CONSENSUS);
                encode_engine_to(val, &mut v);
                encode_bytes_to(data, &mut v);
                assert(v@ =~= model_enc(self@));
            },
            DigestItemRef::Seal(val, sig) => {
                v.push(TAG_SEAL);
                encode_engine_to(val, &mut v);
                encode_raw_to(&sig.bytes, &mut v);
                assert(v@ =~= model_enc(self@));
            },
            DigestItemRef::PreRuntime(val, data) => {
                v.push(TAG_PRE_RUNTIME);
                encode_engine_to(val, &mut v);
                encode_bytes_to(data, &mut v);
                assert(v@ =~= model_enc(self@));
            },
            DigestItemRef::Other(val) => {
                v.push(TAG_OTHER);
                encode_bytes_to(val, &mut v);
                assert(v@ =~= model_enc(self@));
            },
        }
        v
    }
}

impl DigestItem {
    /// The borrowing projection over this item's payload; accessor and
    /// encoding logic lives on the projection.
    fn dref<'a>(&'a self) -> (r: DigestItemRef<'a>)
        ensures
            r@ == self@,
    {
        match self {
            DigestItem::AuthoritiesChange(v) => DigestItemRef::AuthoritiesChange(v),
            DigestItem::ChangesTrieRoot(v) => DigestItemRef::ChangesTrieRoot(v),
            DigestItem::Consensus(v, s) => DigestItemRef::Consensus(v, s),
            DigestItem::Seal(v, s) => DigestItemRef::Seal(v, s),
            DigestItem::PreRuntime(v, s) => DigestItemRef::PreRuntime(v, s),
            DigestItem::Other(v) => DigestItemRef::Other(v),
        }
    }

    /// Present exactly when the item is an opaque (`Other`) entry.
    pub fn as_other(&self) -> (r: Option<&Vec<u8>>)
        ensures
            match r {
                Some(d) => self@ matches ItemModel::Other(s) && d@ == s,
                None => !(self@ is Other),
            },
    {
        match *self {
            DigestItem::Other(ref v) => Some(v),
            _ => None,
        }
    }

    /// Present exactly when the item is an authorities-change entry.
    pub fn as_authorities_change(&self) -> (r: Option<&[AuthorityId]>)
        ensures
            match r {
                Some(a) => self@ matches ItemModel::AuthoritiesChange(s) && a@ == s,
                None => !(self@ is AuthoritiesChange),
            },
    {
        self.dref().as_authorities_change()
    }

    /// Present exactly when the item is a changes-trie-root entry.
    pub fn as_changes_trie_root(&self) -> (r: Option<&Hash>)
        ensures
            match r {
                Some(h) => self@ matches ItemModel::ChangesTrieRoot(x) && *h == x,
                None => !(self@ is ChangesTrieRoot),
            },
    {
        self.dref().as_changes_trie_root()
    }

    /// Present exactly when the item is a pre-runtime entry.
    pub fn as_pre_runtime(&self) -> (r: Option<(ConsensusEngineId, &[u8])>)
        ensures
            match r {
                Some((id, d)) => self@ matches ItemModel::PreRuntime(i, s) && id@ == i && d@ == s,
                None => !(self@ is PreRuntime),
            },
    {
        self.dref().as_pre_runtime()
    }

    /// Whether every payload fits the wire format's length limits.
    pub fn check_wf(&self) -> (b: bool)
        ensures
            b == model_wf(self@),
    {
        match self {
            DigestItem::AuthoritiesChange(a) => (a.len() as u64) < 0x100000000u64,
            DigestItem::ChangesTrieRoot(_) => true,
            DigestItem::Consensus(_, d) => (d.len() as u64) < 0x100000000u64,
            DigestItem::Seal(_, sig) => sig.bytes.len() == SEAL_SIGNATURE_LEN,
            DigestItem::PreRuntime(_, d) => (d.len() as u64) < 0x100000000u64,
            DigestItem::Other(d) => (d.len() as u64) < 0x100000000u64,
        }
    }

    /// Wire image of this item, by projecting to its borrowed form.
    pub fn encode(&self) -> (r: Vec<u8>)
        requires
            model_wf(self@),
        ensures
            r@ == model_enc(self@),
    {
        self.dref().encode()
    }
}


impl DigestItem {
    /// Reads one digest item at `pos`: the tag byte, then exactly the
    /// matching payload shape. Returns `Some` exactly when the bytes at `pos`
    /// carry the encoding of some well-formed item, and then returns that
    /// item and the position just past its last byte; together with
    /// `encode`'s postcondition this makes decoding an encoded item give back
    /// the very item. A buffer opening with the reserved tag 3, or any other
    /// unassigned tag byte, is always rejected.
    #[verifier::rlimit(80)]
    pub fn decode_at(buf: &Vec<u8>, pos: usize) -> (r: Option<(DigestItem, usize)>)
        requires
            pos <= buf@.len(),
        ensures
            r matches Some((v, p)) ==> {
                &&& model_wf(v@)
                &&& pos < p <= buf@.len()
                &&& p == pos + model_enc(v@).len()
                &&& buf@.subrange(pos as int, p as int) == model_enc(v@)
            },
            forall|m: ItemModel| #![trigger model_enc(m)]
                model_wf(m)
                && pos + model_enc(m).len() <= buf@.len()
                && buf@.subrange(pos as int, pos + model_enc(m).len()) == model_enc(m)
                ==> (r matches Some((v, p)) && v@ == m && p == pos + model_enc(m).len()),
            pos < buf@.len() && !is_known_tag(buf@[pos as int]) ==> r is None,
    {
        let ghost matching = |m: ItemModel|
            model_wf(m)
            && pos + model_enc(m).len() <= buf@.len()
            && buf@.subrange(pos as int, pos + model_enc(m).len()) == model_enc(m);
        if buf.len() - pos < 1 {
            proof {
                assert forall|m: ItemModel| #![trigger model_enc(m)] matching(m) implies false by {
                    lemma_model_enc_tag(m);
                }
            }
            return None;
        }
        let tag = buf[pos];
        let p1 = pos + 1;
        proof {
            assert forall|m: ItemModel| #![trigger model_enc(m)] matching(m)
                implies tag_of(m) == tag && model_enc(m) ==
                    buf@.subrange(pos as int, pos + model_enc(m).len()) by {
                lemma_model_enc_tag(m);
                assert(buf@.subrange(pos as int, pos + model_enc(m).len())[0] == tag);
            }
        }
        if tag == TAG_AUTHORITIES_CHANGE {
            match decode_u32_vec_at(buf, p1) {
                None => {
                    proof {
                        assert forall|m: ItemModel| #![trigger model_enc(m)] matching(m) implies false by {
                            let s = m->AuthoritiesChange_0;
                            lemma_subrange_concat(buf@, pos as int, seq![TAG_AUTHORITIES_CHANGE], u32_vec_enc(s));
                        }
                    }
                    None
                },
                Some((a, p)) => {
                    proof {
                        assert(buf@.subrange(pos as int, p as int) =~=
                            seq![tag] + buf@.subrange(p1 as int, p as int));
                        assert forall|m: ItemModel| #![trigger model_enc(m)] matching(m)
                            implies a@ == m->AuthoritiesChange_0 && model_enc(m).len() == 1 + u32_vec_enc(a@).len() by {
                            let s = m->AuthoritiesChange_0;
                            lemma_subrange_concat(buf@, pos as int, seq![TAG_AUTHORITIES_CHANGE], u32_vec_enc(s));
                        }
                    }
                    Some((DigestItem::AuthoritiesChange(a), p))
                },
            }
        } else if tag == TAG_CHANGES_TRIE_ROOT {
            match decode_u32_at(buf, p1) {
                None => {
                    proof {
                        assert forall|m: ItemModel| #![trigger model_enc(m)] matching(m) implies false by {
                            let h = m->ChangesTrieRoot_0;
                            lemma_subrange_concat(buf@, pos as int, seq![TAG_CHANGES_TRIE_ROOT], u32_le_bytes(h));
                        }
                    }
                    None
                },
                Some((h, p)) => {
                    proof {
                        assert(buf@.subrange(pos as int, p as int) =~=
                            seq![tag] + buf@.subrange(p1 as int, p as int));
                        assert forall|m: ItemModel| #![trigger model_enc(m)] matching(m)
                            implies h == m->ChangesTrieRoot_0 by {
                            let x = m->ChangesTrieRoot_0;
                            lemma_subrange_concat(buf@, pos as int, seq![TAG_CHANGES_TRIE_ROOT], u32_le_bytes(x));
                            lemma_u32_le_injective(h, x);
                        }
                    }
                    Some((DigestItem::ChangesTrieRoot(h), p))
                },
            }
        } else if tag == TAG_CONSENSUS {
            match Self::decode_engine_bytes_at(buf, p1) {
                None => {
                    proof {
                        assert forall|m: ItemModel| #![trigger model_enc(m)] matching(m) implies false by {
                            assert(model_enc(m) =~= seq![TAG_CONSENSUS] + (m->Consensus_0 + bytes_enc(m->Consensus_1)));
                            lemma_subrange_concat(buf@, pos as int, seq![TAG_CONSENSUS],
                                m->Consensus_0 + bytes_enc(m->Consensus_1));
                        }
                    }
                    None
                },
                Some((id, d, p)) => {
                    proof {
                        assert(buf@.subrange(pos as int, p as int) =~=
                            seq![tag] + buf@.subrange(p1 as int, p as int));
                        assert forall|m: ItemModel| #![trigger model_enc(m)] matching(m)
                            implies id@ == m->Consensus_0 && d@ == m->Consensus_1
                                && model_enc(m).len() == 5 + bytes_enc(d@).len() by {
                            assert(model_enc(m) =~= seq![TAG_CONSENSUS] + (m->Consensus_0 + bytes_enc(m->Consensus_1)));
                            lemma_subrange_concat(buf@, pos as int, seq![TAG_CONSENSUS],
                                m->Consensus_0 + bytes_enc(m->Consensus_1));
                        }
                    }
                    Some((DigestItem::Consensus(id, d), p))
                },
            }
        } else if tag == TAG_SEAL {
            match decode_engine_at(buf, p1) {
                None => {
                    proof {
                        assert forall|m: ItemModel| #![trigger model_enc(m)] matching(m) implies false by {
                            assert(model_enc(m) =~= seq![TAG_SEAL] + (m->Seal_0 + m->Seal_1));
                            lemma_subrange_concat(buf@, pos as int, seq![TAG_SEAL],
                                m->Seal_0 + m->Seal_1);
                        }
                    }
                    None
                },
                Some((id, p2)) => {
                    match decode_raw_at(buf, p2, SEAL_SIGNATURE_LEN) {
                        None => {
                            proof {
                                assert forall|m: ItemModel| #![trigger model_enc(m)] matching(m) implies false by {
                                    assert(model_enc(m) =~= seq![TAG_SEAL] + (m->Seal_0 + m->Seal_1));
                                    lemma_subrange_concat(buf@, pos as int, seq![TAG_SEAL],
                                        m->Seal_0 + m->Seal_1);
                                    lemma_subrange_concat(buf@, p1 as int, m->Seal_0, m->Seal_1);
                                }
                            }
                            None
                        },
                        Some((sig, p)) => {
                            proof {
                                assert(buf@.subrange(pos as int, p as int) =~=
                                    seq![tag] + (buf@.subrange(p1 as int, p2 as int)
                                        + buf@.subrange(p2 as int, p as int)));
                                assert forall|m: ItemModel| #![trigger model_enc(m)] matching(m)
                                    implies id@ == m->Seal_0 && sig@ == m->Seal_1 by {
                                    assert(model_enc(m) =~= seq![TAG_SEAL] + (m->Seal_0 + m->Seal_1));
                                    lemma_subrange_concat(buf@, pos as int, seq![TAG_SEAL],
                                        m->Seal_0 + m->Seal_1);
                                    lemma_subrange_concat(buf@, p1 as int, m->Seal_0, m->Seal_1);
                                }
                            }
                            Some((DigestItem::Seal(id, SealSignature { bytes: sig }), p))
                        },
                    }
                },
            }
        } else if tag == TAG_PRE_RUNTIME {
            match Self::decode_engine_bytes_at(buf, p1) {
                None => {
                    proof {
                        assert forall|m: ItemModel| #![trigger model_enc(m)] matching(m) implies false by {
                            assert(model_enc(m) =~= seq![TAG_PRE_RUNTIME] + (m->PreRuntime_0 + bytes_enc(m->PreRuntime_1)));
                            lemma_subrange_concat(buf@, pos as int, seq![TAG_PRE_RUNTIME],
                                m->PreRuntime_0 + bytes_enc(m->PreRuntime_1));
                        }
                    }
                    None
                },
                Some((id, d, p)) => {
                    proof {
                        assert(buf@.subrange(pos as int, p as int) =~=
                            seq![tag] + buf@.subrange(p1 as int, p as int));
                        assert forall|m: ItemModel| #![trigger model_enc(m)] matching(m)
                            implies id@ == m->PreRuntime_0 && d@ == m->PreRuntime_1
                                && model_enc(m).len() == 5 + bytes_enc(d@).len() by {
                            assert(model_enc(m) =~= seq![TAG_PRE_RUNTIME] + (m->PreRuntime_0 + bytes_enc(m->PreRuntime_1)));
                            lemma_subrange_concat(buf@, pos as int, seq![TAG_PRE_RUNTIME],
                                m->PreRuntime_0 + bytes_enc(m->PreRuntime_1));
                        }
                    }
                    Some((DigestItem::PreRuntime(id, d), p))
                },
            }
        } else if tag == TAG_OTHER {
            match decode_bytes_at(buf, p1) {
                None => {
                    proof {
                        assert forall|m: ItemModel| #![trigger model_enc(m)] matching(m) implies false by {
                            lemma_subrange_concat(buf@, pos as int, seq![TAG_OTHER],
                                bytes_enc(m->Other_0));
                        }
                    }
                    None
                },
                Some((d, p)) => {
                    proof {
                        assert(buf@.subrange(pos as int, p as int) =~=
                            seq![tag] + buf@.subrange(p1 as int, p as int));
                        assert forall|m: ItemModel| #![trigger model_enc(m)] matching(m)
                            implies d@ == m->Other_0 && model_enc(m).len() == 1 + bytes_enc(d@).len() by {
                            lemma_subrange_concat(buf@, pos as int, seq![TAG_OTHER],
                                bytes_enc(m->Other_0));
                        }
                    }
                    Some((DigestItem::Other(d), p))
                },
            }
        } else {
            // unknown or reserved tag: nothing encodes to it
            proof {
                assert forall|m: ItemModel| #![trigger model_enc(m)] matching(m) implies false by {
                    lemma_model_enc_tag(m);
                }
            }
            None
        }
    }

    /// Reads the shared payload shape of `Consensus` and `PreRuntime`: a
    /// four-byte engine identifier, then a length-prefixed byte string.
    fn decode_engine_bytes_at(buf: &Vec<u8>, pos: usize) -> (r: Option<(ConsensusEngineId, Vec<u8>, usize)>)
        requires
            pos <= buf@.len(),
        ensures
            r matches Some((id, d, p)) ==> {
                &&& id@.len() == 4
                &&& d@.len() < 0x100000000
                &&& pos <= p <= buf@.len()
                &&& p == pos + 4 + bytes_enc(d@).len()
                &&& buf@.subrange(pos as int, p as int) == id@ + bytes_enc(d@)
            },
            forall|i: Seq<u8>, s: Seq<u8>| #![trigger i + bytes_enc(s)]
                i.len() == 4 && s.len() < 0x100000000
                && pos + (i + bytes_enc(s)).len() <= buf@.len()
                && buf@.subrange(pos as int, pos + (i + bytes_enc(s)).len()) == i + bytes_enc(s)
                ==> (r matches Some((id, d, p)) && id@ == i && d@ == s
                    && p == pos + (i + bytes_enc(s)).len()),
    {
        let ghost matching = |i: Seq<u8>, s: Seq<u8>|
            i.len() == 4 && s.len() < 0x100000000
            && pos + (i + bytes_enc(s)).len() <= buf@.len()
            && buf@.subrange(pos as int, pos + (i + bytes_enc(s)).len()) == i + bytes_enc(s);
        match decode_engine_at(buf, pos) {
            None => {
                proof {
                    assert forall|i: Seq<u8>, s: Seq<u8>| #![trigger i + bytes_enc(s)]
                        matching(i, s) implies false by {
                        lemma_subrange_concat(buf@, pos as int, i, bytes_enc(s));
                    }
                }
                None
            },
            Some((id, p2)) => {
                match decode_bytes_at(buf, p2) {
                    None => {
                        proof {
                            assert forall|i: Seq<u8>, s: Seq<u8>| #![trigger i + bytes_enc(s)]
                                matching(i, s) implies false by {
                                lemma_subrange_concat(buf@, pos as int, i, bytes_enc(s));
                            }
                        }
                        None
                    },
                    Some((d, p)) => {
                        proof {
                            assert(buf@.subrange(pos as int, p as int) =~=
                                buf@.subrange(pos as int, p2 as int) + buf@.subrange(p2 as int, p as int));
                            assert forall|i: Seq<u8>, s: Seq<u8>| #![trigger i + bytes_enc(s)]
                                matching(i, s) implies id@ == i && d@ == s by {
                                lemma_subrange_concat(buf@, pos as int, i, bytes_enc(s));
                            }
                        }
                        Some((id, d, p))
                    },
                }
            },
        }
    }
}


/// Two length-prefixed byte strings opening the same stream at the same
/// offset are equal: the compact prefix fixes its own width and the payload
/// length.
proof fn lemma_bytes_enc_common_prefix(da: Seq<u8>, db: Seq<u8>, s: Seq<u8>, off: int)
    requires
        da.len() < 0x100000000,
        db.len() < 0x100000000,
        0 <= off,
        off + bytes_enc(da).len() <= s.len(),
        off + bytes_enc(db).len() <= s.len(),
        bytes_enc(da) == s.subrange(off, off + bytes_enc(da).len()),
        bytes_enc(db) == s.subrange(off, off + bytes_enc(db).len()),
    ensures
        da == db,
{
    let na = da.len() as u32;
    let nb = db.len() as u32;
    let ca = compact_enc(na);
    let cb = compact_enc(nb);
    lemma_compact_first_byte(na);
    lemma_compact_first_byte(nb);
    assert(bytes_enc(da)[0] == s[off]);
    assert(bytes_enc(db)[0] == s[off]);
    assert(ca[0] == s[off] && cb[0] == s[off]);
    assert(ca.len() == cb.len());
    assert(ca =~= s.subrange(off, off + ca.len())) by {
        assert forall|i: int| 0 <= i < ca.len() implies ca[i] == s[off + i] by {
            assert(bytes_enc(da)[i] == ca[i]);
            assert(bytes_enc(da)[i] == s.subrange(off, off + bytes_enc(da).len())[i]);
        }
    }
    assert(cb =~= s.subrange(off, off + cb.len())) by {
        assert forall|i: int| 0 <= i < cb.len() implies cb[i] == s[off + i] by {
            assert(bytes_enc(db)[i] == cb[i]);
            assert(bytes_enc(db)[i] == s.subrange(off, off + bytes_enc(db).len())[i]);
        }
    }
    lemma_compact_injective(na, nb);
    assert(da =~= db) by {
        assert forall|i: int| 0 <= i < da.len() implies da[i] == db[i] by {
            assert(bytes_enc(da)[ca.len() + i] == da[i]);
            assert(bytes_enc(db)[cb.len() + i] == db[i]);
            assert(bytes_enc(da)[ca.len() + i] == s[off + ca.len() + i]);
            assert(bytes_enc(db)[cb.len() + i] == s[off + cb.len() + i]);
        }
    }
}

/// Two length-prefixed 32-bit sequences opening the same stream at the same
/// offset are equal.
proof fn lemma_u32_vec_enc_common_prefix(da: Seq<u32>, db: Seq<u32>, s: Seq<u8>, off: int)
    requires
        da.len() < 0x100000000,
        db.len() < 0x100000000,
        0 <= off,
        off + u32_vec_enc(da).len() <= s.len(),
        off + u32_vec_enc(db).len() <= s.len(),
        u32_vec_enc(da) == s.subrange(off, off + u32_vec_enc(da).len()),
        u32_vec_enc(db) == s.subrange(off, off + u32_vec_enc(db).len()),
    ensures
        da == db,
{
    let na = da.len() as u32;
    let nb = db.len() as u32;
    let ca = compact_enc(na);
    let cb = compact_enc(nb);
    lemma_compact_first_byte(na);
    lemma_compact_first_byte(nb);
    lemma_u32_seq_enc_len(da);
    lemma_u32_seq_enc_len(db);
    assert(u32_vec_enc(da)[0] == s[off]);
    assert(u32_vec_enc(db)[0] == s[off]);
    assert(ca[0] == s[off] && cb[0] == s[off]);
    assert(ca.len() == cb.len());
    assert(ca =~= s.subrange(off, off + ca.len())) by {
        assert forall|i: int| 0 <= i < ca.len() implies ca[i] == s[off + i] by {
            assert(u32_vec_enc(da)[i] == ca[i]);
            assert(u32_vec_enc(da)[i] == s.subrange(off, off + u32_vec_enc(da).len())[i]);
        }
    }
    assert(cb =~= s.subrange(off, off + cb.len())) by {
        assert forall|i: int| 0 <= i < cb.len() implies cb[i] == s[off + i] by {
            assert(u32_vec_enc(db)[i] == cb[i]);
            assert(u32_vec_enc(db)[i] == s.subrange(off, off + u32_vec_enc(db).len())[i]);
        }
    }
    lemma_compact_injective(na, nb);
    assert(u32_seq_enc(da) =~= u32_seq_enc(db)) by {
        assert forall|i: int| 0 <= i < u32_seq_enc(da).len() implies u32_seq_enc(da)[i] == u32_seq_enc(db)[i] by {
            assert(u32_vec_enc(da)[ca.len() + i] == u32_seq_enc(da)[i]);
            assert(u32_vec_enc(db)[cb.len() + i] == u32_seq_enc(db)[i]);
            assert(u32_vec_enc(da)[ca.len() + i] == s[off + ca.len() + i]);
            assert(u32_vec_enc(db)[cb.len() + i] == s[off + cb.len() + i]);
        }
    }
    lemma_u32_seq_enc_injective(da, db);
}

/// No well-formed item's encoding is a proper prefix of a different item's:
/// two encodings that open the same byte stream belong to the same item. An
/// item's encoding therefore determines the item, and a truncated encoding
/// matches none.
pub proof fn lemma_model_enc_prefix_free(a: ItemModel, b: ItemModel, s: Seq<u8>)
    requires
        model_wf(a),
        model_wf(b),
        model_enc(a).len() <= s.len(),
        model_enc(b).len() <= s.len(),
        model_enc(a) == s.subrange(0, model_enc(a).len() as int),
        model_enc(b) == s.subrange(0, model_enc(b).len() as int),
    ensures
        a == b,
{
    let ea = model_enc(a);
    let eb = model_enc(b);
    lemma_model_enc_tag(a);
    lemma_model_enc_tag(b);
    assert forall|i: int| 0 <= i < ea.len() implies ea[i] == s[i] by {
        assert(ea[i] == s.subrange(0, ea.len() as int)[i]);
    }
    assert forall|i: int| 0 <= i < eb.len() implies eb[i] == s[i] by {
        assert(eb[i] == s.subrange(0, eb.len() as int)[i]);
    }
    assert(tag_of(a) == tag_of(b));
    match a {
        ItemModel::AuthoritiesChange(aa) => {
            let ab = b->AuthoritiesChange_0;
            assert(u32_vec_enc(aa) =~= s.subrange(1, 1 + u32_vec_enc(aa).len() as int)) by {
                assert forall|i: int| 0 <= i < u32_vec_enc(aa).len()
                    implies u32_vec_enc(aa)[i] == s[1 + i] by {
                    assert(ea[1 + i] == u32_vec_enc(aa)[i]);
                }
            }
            assert(u32_vec_enc(ab) =~= s.subrange(1, 1 + u32_vec_enc(ab).len() as int)) by {
                assert forall|i: int| 0 <= i < u32_vec_enc(ab).len()
                    implies u32_vec_enc(ab)[i] == s[1 + i] by {
                    assert(eb[1 + i] == u32_vec_enc(ab)[i]);
                }
            }
            lemma_u32_vec_enc_common_prefix(aa, ab, s, 1);
        },
        ItemModel::ChangesTrieRoot(ha) => {
            let hb = b->ChangesTrieRoot_0;
            assert(u32_le_bytes(ha) =~= u32_le_bytes(hb)) by {
                assert forall|i: int| 0 <= i < 4 implies u32_le_bytes(ha)[i] == u32_le_bytes(hb)[i] by {
                    assert(ea[1 + i] == u32_le_bytes(ha)[i]);
                    assert(eb[1 + i] == u32_le_bytes(hb)[i]);
                }
            }
            lemma_u32_le_injective(ha, hb);
        },
        ItemModel::Consensus(ida, da) => {
            let idb = b->Consensus_0;
            let db = b->Consensus_1;
            assert(ea =~= seq![TAG_CONSENSUS] + ida + bytes_enc(da));
            assert(ida =~= idb) by {
                assert forall|i: int| 0 <= i < 4 implies ida[i] == idb[i] by {
                    assert(ea[1 + i] == ida[i]);
                    assert(eb[1 + i] == idb[i]);
                }
            }
            assert(bytes_enc(da) =~= s.subrange(5, 5 + bytes_enc(da).len() as int)) by {
                assert forall|i: int| 0 <= i < bytes_enc(da).len()
                    implies bytes_enc(da)[i] == s[5 + i] by {
                    assert(ea[5 + i] == bytes_enc(da)[i]);
                }
            }
            assert(bytes_enc(db) =~= s.subrange(5, 5 + bytes_enc(db).len() as int)) by {
                assert forall|i: int| 0 <= i < bytes_enc(db).len()
                    implies bytes_enc(db)[i] == s[5 + i] by {
                    assert(eb[5 + i] == bytes_enc(db)[i]);
                }
            }
            lemma_bytes_enc_common_prefix(da, db, s, 5);
        },
        ItemModel::Seal(ida, siga) => {
            let idb = b->Seal_0;
            let sigb = b->Seal_1;
            assert(ea.len() == 69 && eb.len() == 69);
            assert(ida =~= idb) by {
                assert forall|i: int| 0 <= i < 4 implies ida[i] == idb[i] by {
                    assert(ea[1 + i] == ida[i]);
                    assert(eb[1 + i] == idb[i]);
                }
            }
            assert(siga =~= sigb) by {
                assert forall|i: int| 0 <= i < 64 implies siga[i] == sigb[i] by {
                    assert(ea[5 + i] == siga[i]);
                    assert(eb[5 + i] == sigb[i]);
                }
            }
        },
        ItemModel::PreRuntime(ida, da) => {
            let idb = b->PreRuntime_0;
            let db = b->PreRuntime_1;
            assert(ida =~= idb) by {
                assert forall|i: int| 0 <= i < 4 implies ida[i] == idb[i] by {
                    assert(ea[1 + i] == ida[i]);
                    assert(eb[1 + i] == idb[i]);
                }
            }
            assert(bytes_enc(da) =~= s.subrange(5, 5 + bytes_enc(da).len() as int)) by {
                assert forall|i: int| 0 <= i < bytes_enc(da).len()
                    implies bytes_enc(da)[i] == s[5 + i] by {
                    assert(ea[5 + i] == bytes_enc(da)[i]);
                }
            }
            assert(bytes_enc(db) =~= s.subrange(5, 5 + bytes_enc(db).len() as int)) by {
                assert forall|i: int| 0 <= i < bytes_enc(db).len()
                    implies bytes_enc(db)[i] == s[5 + i] by {
                    assert(eb[5 + i] == bytes_enc(db)[i]);
                }
            }
            lemma_bytes_enc_common_prefix(da, db, s, 5);
        },
        ItemModel::Other(da) => {
            let db = b->Other_0;
            assert(bytes_enc(da) =~= s.subrange(1, 1 + bytes_enc(da).len() as int)) by {
                assert forall|i: int| 0 <= i < bytes_enc(da).len()
                    implies bytes_enc(da)[i] == s[1 + i] by {
                    assert(ea[1 + i] == bytes_enc(da)[i]);
                }
            }
            assert(bytes_enc(db) =~= s.subrange(1, 1 + bytes_enc(db).len() as int)) by {
                assert forall|i: int| 0 <= i < bytes_enc(db).len()
                    implies bytes_enc(db)[i] == s[1 + i] by {
                    assert(eb[1 + i] == bytes_enc(db)[i]);
                }
            }
            lemma_bytes_enc_common_prefix(da, db, s, 1);
        },
    }
}

/// Equal encodings mean equal items; together with the codec's contracts
/// this gives that decoding an encoded item returns that very item.
pub proof fn lemma_model_enc_injective(a: ItemModel, b: ItemModel)
    requires
        model_wf(a),
        model_wf(b),
        model_enc(a) == model_enc(b),
    ensures
        a == b,
{
    assert(model_enc(a) =~= model_enc(a).subrange(0, model_enc(a).len() as int));
    assert(model_enc(b) =~= model_enc(a).subrange(0, model_enc(b).len() as int));
    lemma_model_enc_prefix_free(a, b, model_enc(a));
}

/// An item's encoding with its trailing byte removed is no item's encoding;
/// by `decode_at`'s postcondition, decoding such bytes fails.
pub proof fn lemma_truncated_enc_matches_no_item(a: ItemModel, b: ItemModel)
    requires
        model_wf(a),
        model_wf(b),
    ensures
        model_enc(b) != model_enc(a).subrange(0, model_enc(a).len() - 1),
{
    lemma_model_enc_tag(a);
    lemma_model_enc_tag(b);
    if model_enc(b) == model_enc(a).subrange(0, model_enc(a).len() - 1) {
        assert(model_enc(a) =~= model_enc(a).subrange(0, model_enc(a).len() as int));
        assert forall|i: int| 0 <= i < model_enc(b).len()
            implies model_enc(b)[i] == model_enc(a)[i] by {
            assert(model_enc(b)[i] == model_enc(a).subrange(0, model_enc(a).len() - 1)[i]);
        }
        assert(model_enc(b) =~= model_enc(a).subrange(0, model_enc(b).len() as int));
        lemma_model_enc_prefix_free(a, b, model_enc(a));
        assert(false);
    }
}

} // verus!
