//! The state of a session: ratchet chains, retained message keys, and the
//! states of one conversation gathered under their tags.

use crate::keys::{
    CipherKey, Counter, IdentityKey, IdentityKeyPair, KeyPair, KeyPairView, MacKey, PreKeyId,
    PublicKey, SessionTag,
};
use std::collections::BTreeMap;
use std::collections::VecDeque;
use vstd::prelude::*;
use vstd::std_specs::btree::{key_obeys_cmp_spec, spec_btree_map_len};
use vstd::std_specs::vecdeque::spec_vec_dequeue_len;

verus! {

/// The key from which new chains are derived.
#[derive(Clone, Copy, Debug, PartialEq, Eq)]
pub struct RootKey {
    pub key: CipherKey,
}

impl View for RootKey {
    type V = Seq<u8>;

    open spec fn view(&self) -> Seq<u8> {
        self.key@
    }
}

/// A position in a ratchet chain: a key and the number of steps taken.
#[derive(Clone, Copy, Debug, PartialEq, Eq)]
pub struct ChainKey {
    pub key: MacKey,
    pub idx: Counter,
}

/// A chain key as plain values.
pub struct ChainKeyView {
    pub key: Seq<u8>,
    pub idx: u32,
}

impl ChainKeyView {
    /// The key has its length.
    pub open spec fn wf(self) -> bool {
        self.key.len() == 32
    }
}

impl View for ChainKey {
    type V = ChainKeyView;

    open spec fn view(&self) -> ChainKeyView {
        ChainKeyView { key: self.key@, idx: self.idx@ }
    }
}

/// The chain along which messages are sent, with the local ratchet keypair.
#[derive(Clone, Copy, Debug, PartialEq, Eq)]
pub struct SendChain {
    pub chain_key: ChainKey,
    pub ratchet_key: KeyPair,
}

/// A sending chain as plain values.
pub struct SendChainView {
    pub chain_key: ChainKeyView,
    pub ratchet_key: KeyPairView,
}

impl SendChainView {
    /// Every key has its length.
    pub open spec fn wf(self) -> bool {
        self.chain_key.wf() && self.ratchet_key.wf()
    }
}

impl View for SendChain {
    type V = SendChainView;

    open spec fn view(&self) -> SendChainView {
        SendChainView { chain_key: self.chain_key@, ratchet_key: self.ratchet_key@ }
    }
}

/// A chain along which messages are received, with the peer's ratchet key.
#[derive(Clone, Copy, Debug, PartialEq, Eq)]
pub struct RecvChain {
    pub chain_key: ChainKey,
    pub ratchet_key: PublicKey,
}

/// A receiving chain as plain values.
pub struct RecvChainView {
    pub chain_key: ChainKeyView,
    pub ratchet_key: Seq<u8>,
}

impl RecvChainView {
    /// Every key has its length.
    pub open spec fn wf(self) -> bool {
        self.chain_key.wf() && self.ratchet_key.len() == 32
    }
}

impl View for RecvChain {
    type V = RecvChainView;

    open spec fn view(&self) -> RecvChainView {
        RecvChainView { chain_key: self.chain_key@, ratchet_key: self.ratchet_key@ }
    }
}

/// The keys of one message, kept for a message that arrives out of order.
#[derive(Clone, Copy, Debug, PartialEq, Eq)]
pub struct MessageKeys {
    pub cipher_key: CipherKey,
    pub mac_key: MacKey,
    pub counter: Counter,
}

/// Message keys as plain values.
pub struct MessageKeysView {
    pub cipher_key: Seq<u8>,
    pub mac_key: Seq<u8>,
    pub counter: u32,
}

impl MessageKeysView {
    /// Both keys have their length.
    pub open spec fn wf(self) -> bool {
        self.cipher_key.len() == 32 && self.mac_key.len() == 32
    }
}

impl View for MessageKeys {
    type V = MessageKeysView;

    open spec fn view(&self) -> MessageKeysView {
        MessageKeysView { cipher_key: self.cipher_key@, mac_key: self.mac_key@, counter: self.counter@ }
    }
}

/// The version of the session format.
#[derive(Clone, Copy, Debug, PartialEq, Eq, Structural)]
pub enum Version {
    V1,
}

/// A value with the place it took when it entered its collection.
#[derive(Clone, Debug, PartialEq, Eq)]
pub struct Indexed<A> {
    pub idx: usize,
    pub val: A,
}

impl<A> Indexed<A> {
    /// `val` with the place `idx`.
    pub fn new(idx: usize, val: A) -> (r: Indexed<A>)
        ensures
            r.idx == idx,
            r.val == val,
    {
        Indexed { idx, val }
    }
}

impl<A: View> View for Indexed<A> {
    type V = Indexed<A::V>;

    open spec fn view(&self) -> Indexed<A::V> {
        Indexed { idx: self.idx, val: self.val@ }
    }
}

/// One ratchet state of a conversation.
#[derive(Clone, Debug, PartialEq, Eq)]
pub struct SessionState {
    pub session_tag: SessionTag,
    pub recv_chains: VecDeque<RecvChain>,
    pub send_chain: SendChain,
    pub root_key: RootKey,
    pub prev_counter: Counter,
    pub skipped_msgkeys: VecDeque<MessageKeys>,
}

/// A session state as plain values.
pub struct SessionStateView {
    pub session_tag: u128,
    pub recv_chains: Seq<RecvChainView>,
    pub send_chain: SendChainView,
    pub root_key: Seq<u8>,
    pub prev_counter: u32,
    pub skipped_msgkeys: Seq<MessageKeysView>,
}

impl SessionStateView {
    /// Every key has its length, and both sequences have a length that the
    /// format can hold.
    pub open spec fn wf(self) -> bool {
        &&& self.recv_chains.len() <= u64::MAX
        &&& forall|i: int| 0 <= i < self.recv_chains.len() ==> (#[trigger] self.recv_chains[i]).wf()
        &&& self.send_chain.wf()
        &&& self.root_key.len() == 32
        &&& self.skipped_msgkeys.len() <= u64::MAX
        &&& forall|i: int|
            0 <= i < self.skipped_msgkeys.len() ==> (#[trigger] self.skipped_msgkeys[i]).wf()
    }
}

/// The receiving chains as plain values, in their order.
pub open spec fn recv_chain_views(s: Seq<RecvChain>) -> Seq<RecvChainView> {
    s.map_values(|c: RecvChain| c@)
}

/// The message keys as plain values, in their order.
pub open spec fn msg_keys_views(s: Seq<MessageKeys>) -> Seq<MessageKeysView> {
    s.map_values(|k: MessageKeys| k@)
}

impl View for SessionState {
    type V = SessionStateView;

    open spec fn view(&self) -> SessionStateView {
        SessionStateView {
            session_tag: self.session_tag@,
            recv_chains: recv_chain_views(self.recv_chains@),
            send_chain: self.send_chain@,
            root_key: self.root_key@,
            prev_counter: self.prev_counter@,
            skipped_msgkeys: msg_keys_views(self.skipped_msgkeys@),
        }
    }
}

/// What a caller persists: both identities, the pending prekey if there is
/// one, and the states of the conversation, each under the number of its tag.
#[derive(Clone, Debug, PartialEq, Eq)]
pub struct Session<'r> {
    pub version: Version,
    pub session_tag: SessionTag,
    pub counter: usize,
    pub local_identity: &'r IdentityKeyPair,
    pub remote_identity: IdentityKey,
    pub pending_prekey: Option<(PreKeyId, PublicKey)>,
    pub session_states: BTreeMap<u128, Indexed<SessionState>>,
}

/// A session as plain values.
pub struct SessionView {
    pub version: Version,
    pub session_tag: u128,
    pub counter: usize,
    pub local_identity: KeyPairView,
    pub remote_identity: Seq<u8>,
    pub pending_prekey: Option<(u16, Seq<u8>)>,
    pub session_states: Map<u128, Indexed<SessionStateView>>,
}

impl SessionView {
    /// Every key has its length, the states are finitely many and few enough
    /// for the format, and each state stands under its own tag.
    pub open spec fn wf(self) -> bool {
        &&& self.local_identity.wf()
        &&& self.remote_identity.len() == 32
        &&& (self.pending_prekey matches Some(p) ==> p.1.len() == 32)
        &&& self.session_states.dom().finite()
        &&& self.session_states.dom().len() <= u64::MAX
        &&& forall|k: u128| #[trigger]
            self.session_states.dom().contains(k) ==> self.session_states[k].val.wf()
                && self.session_states[k].val.session_tag == k
    }
}

/// The pending prekey as plain values.
pub open spec fn pending_view(p: Option<(PreKeyId, PublicKey)>) -> Option<(u16, Seq<u8>)> {
    match p {
        Some((id, pk)) => Some((id@, pk@)),
        None => None,
    }
}

/// The states as plain values, each under its key.
pub open spec fn state_views(m: Map<u128, Indexed<SessionState>>) -> Map<u128, Indexed<SessionStateView>> {
    m.map_values(|s: Indexed<SessionState>| s@)
}

impl<'r> View for Session<'r> {
    type V = SessionView;

    open spec fn view(&self) -> SessionView {
        SessionView {
            version: self.version,
            session_tag: self.session_tag@,
            counter: self.counter,
            local_identity: self.local_identity@,
            remote_identity: self.remote_identity@,
            pending_prekey: pending_view(self.pending_prekey),
            session_states: state_views(self.session_states@),
        }
    }
}

impl SessionState {
    /// A state in memory is valid: its keys have their lengths by their
    /// types, and its sequences are no longer than memory allows.
    pub proof fn lemma_view_wf(&self)
        ensures
            self@.wf(),
    {
        assert(spec_vec_dequeue_len(&self.recv_chains) == self.recv_chains@.len());
        assert(spec_vec_dequeue_len(&self.skipped_msgkeys) == self.skipped_msgkeys@.len());
    }
}

impl<'r> Session<'r> {
    /// Each state stands under the number of its own tag.
    pub open spec fn filed_by_tag(&self) -> bool {
        forall|k: u128| #[trigger]
            self.session_states@.dom().contains(k) ==> self.session_states@[k].val.session_tag.tag == k
    }

    /// A session in memory is valid once each state stands under its tag.
    pub proof fn lemma_view_wf(&self)
        requires
            self.filed_by_tag(),
        ensures
            self@.wf(),
    {
        broadcast use vstd::std_specs::btree::group_btree_axioms;
        assert(key_obeys_cmp_spec::<u128>());
        assert(spec_btree_map_len(&self.session_states) == self.session_states@.len());
        assert(self@.session_states.dom() =~= self.session_states@.dom());
        assert forall|k: u128| #[trigger] self@.session_states.dom().contains(k) implies self@.session_states[k].val.wf()
            && self@.session_states[k].val.session_tag == k by {
            self.session_states@[k].val.lemma_view_wf();
        }
    }
}

} // verus!
