//! The wire format, stated on byte strings: what each value is written as,
//! and what a byte string is read as.

use crate::error::{DecodeError, DecodeSessionErrorView};
use crate::keys::{spec_dec_keypair, spec_enc_keypair, KeyPairView};
use crate::order::sorted_keys;
use crate::session::{
    ChainKeyView, Indexed, MessageKeysView, RecvChainView, SendChainView, SessionStateView,
    SessionView, Version,
};
use crate::wire::{be_bytes, be_value};
use vstd::prelude::*;

verus! {

/// A chain key on the wire: the key, then the counter.
pub open spec fn spec_enc_chain_key(k: ChainKeyView) -> Seq<u8> {
    k.key + be_bytes(k.idx as nat, 4)
}

/// The chain key at the front of `s`.
pub open spec fn spec_dec_chain_key(s: Seq<u8>) -> ChainKeyView {
    ChainKeyView { key: s.subrange(0, 32), idx: be_value(s.subrange(32, 36)) as u32 }
}

/// A sending chain on the wire: the chain key, then the keypair.
pub open spec fn spec_enc_send_chain(c: SendChainView) -> Seq<u8> {
    spec_enc_chain_key(c.chain_key) + spec_enc_keypair(c.ratchet_key)
}

/// The sending chain at the front of `s`.
pub open spec fn spec_dec_send_chain(s: Seq<u8>) -> SendChainView {
    SendChainView { chain_key: spec_dec_chain_key(s), ratchet_key: spec_dec_keypair(s.skip(36)) }
}

/// A receiving chain on the wire: the chain key, then the peer's key.
pub open spec fn spec_enc_recv_chain(c: RecvChainView) -> Seq<u8> {
    spec_enc_chain_key(c.chain_key) + c.ratchet_key
}

/// The receiving chain at the front of `s`.
pub open spec fn spec_dec_recv_chain(s: Seq<u8>) -> RecvChainView {
    RecvChainView { chain_key: spec_dec_chain_key(s), ratchet_key: s.subrange(36, 68) }
}

/// Message keys on the wire: cipher key, MAC key, counter.
pub open spec fn spec_enc_msg_keys(k: MessageKeysView) -> Seq<u8> {
    k.cipher_key + k.mac_key + be_bytes(k.counter as nat, 4)
}

/// The message keys at the front of `s`.
pub open spec fn spec_dec_msg_keys(s: Seq<u8>) -> MessageKeysView {
    MessageKeysView {
        cipher_key: s.subrange(0, 32),
        mac_key: s.subrange(32, 64),
        counter: be_value(s.subrange(64, 68)) as u32,
    }
}

/// Receiving chains on the wire, one after the other.
pub open spec fn spec_enc_recv_chains(items: Seq<RecvChainView>) -> Seq<u8>
    decreases items.len(),
{
    if items.len() == 0 {
        Seq::empty()
    } else {
        spec_enc_recv_chains(items.drop_last()) + spec_enc_recv_chain(items.last())
    }
}

/// The `n` receiving chains at the front of `s`.
pub open spec fn spec_dec_recv_chains(s: Seq<u8>, n: nat) -> Seq<RecvChainView> {
    Seq::new(n, |i: int| spec_dec_recv_chain(s.skip(68 * i)))
}

/// Message keys on the wire, one set after the other.
pub open spec fn spec_enc_msg_keys_seq(items: Seq<MessageKeysView>) -> Seq<u8>
    decreases items.len(),
{
    if items.len() == 0 {
        Seq::empty()
    } else {
        spec_enc_msg_keys_seq(items.drop_last()) + spec_enc_msg_keys(items.last())
    }
}

/// The `n` sets of message keys at the front of `s`.
pub open spec fn spec_dec_msg_keys_seq(s: Seq<u8>, n: nat) -> Seq<MessageKeysView> {
    Seq::new(n, |i: int| spec_dec_msg_keys(s.skip(68 * i)))
}

/// A session state on the wire: tag, counted receiving chains, sending
/// chain, root key, previous counter, counted message keys.
pub open spec fn spec_enc_session_state(v: SessionStateView) -> Seq<u8> {
    be_bytes(v.session_tag as nat, 16) + be_bytes(v.recv_chains.len(), 8) + spec_enc_recv_chains(
        v.recv_chains,
    ) + spec_enc_send_chain(v.send_chain) + v.root_key + be_bytes(v.prev_counter as nat, 4)
        + be_bytes(v.skipped_msgkeys.len(), 8) + spec_enc_msg_keys_seq(v.skipped_msgkeys)
}

/// The session state at the front of `s` and the number of bytes it takes,
/// or `None` where `s` ends before the state does.
#[verifier::opaque]
pub open spec fn spec_dec_session_state(s: Seq<u8>) -> Option<(SessionStateView, nat)> {
    if s.len() < 24 {
        None
    } else {
        let nr = be_value(s.subrange(16, 24));
        let a: int = (24 + 68 * nr) as int;
        if s.len() < a + 176 {
            None
        } else {
            let nm = be_value(s.subrange(a + 168, a + 176));
            let b: int = a + 176;
            if s.len() < b + 68 * nm {
                None
            } else {
                Some(
                    (
                        SessionStateView {
                            session_tag: be_value(s.subrange(0, 16)) as u128,
                            recv_chains: spec_dec_recv_chains(s.skip(24), nr),
                            send_chain: spec_dec_send_chain(s.skip(a)),
                            root_key: s.subrange(a + 132, a + 164),
                            prev_counter: be_value(s.subrange(a + 164, a + 168)) as u32,
                            skipped_msgkeys: spec_dec_msg_keys_seq(s.skip(b), nm),
                        },
                        (b + 68 * nm) as nat,
                    ),
                )
            }
        }
    }
}

/// The version field: the one known version is written as 1.
pub open spec fn spec_enc_version(v: Version) -> Seq<u8> {
    be_bytes(1, 4)
}

/// The version at the front of `s`.
pub open spec fn spec_dec_version(s: Seq<u8>) -> Result<(Version, nat), DecodeError> {
    if s.len() < 4 {
        Err(DecodeError::UnexpectedEof)
    } else if be_value(s.subrange(0, 4)) != 1 {
        Err(DecodeError::UnknownVersion(be_value(s.subrange(0, 4)) as u32))
    } else {
        Ok((Version::V1, 4))
    }
}

/// The pending prekey on the wire: 1 where there is none, else 2, the
/// prekey's number and its public key.
pub open spec fn spec_enc_pending(p: Option<(u16, Seq<u8>)>) -> Seq<u8> {
    match p {
        None => be_bytes(1, 4),
        Some((id, pk)) => be_bytes(2, 4) + be_bytes(id as nat, 2) + pk,
    }
}

/// The pending prekey at the front of `s` and the bytes it takes.
pub open spec fn spec_dec_pending(s: Seq<u8>) -> Result<(Option<(u16, Seq<u8>)>, nat), DecodeError> {
    if s.len() < 4 {
        Err(DecodeError::UnexpectedEof)
    } else {
        let t = be_value(s.subrange(0, 4));
        if t == 1 {
            Ok((None, 4))
        } else if t == 2 {
            if s.len() < 38 {
                Err(DecodeError::UnexpectedEof)
            } else {
                Ok((Some((be_value(s.subrange(4, 6)) as u16, s.subrange(6, 38))), 38))
            }
        } else {
            Err(DecodeError::InvalidPendingPrekey(t as u32))
        }
    }
}

/// Session states on the wire, one after the other.
pub open spec fn spec_enc_states(items: Seq<SessionStateView>) -> Seq<u8>
    decreases items.len(),
{
    if items.len() == 0 {
        Seq::empty()
    } else {
        spec_enc_states(items.drop_last()) + spec_enc_session_state(items.last())
    }
}

/// The `n` session states at the front of `s` and the bytes they take, or
/// `None` where `s` ends before the last of them does.
pub open spec fn spec_dec_states(s: Seq<u8>, n: nat) -> Option<(Seq<SessionStateView>, nat)>
    decreases n,
{
    if n == 0 {
        Some((Seq::empty(), 0))
    } else {
        match spec_dec_session_state(s) {
            None => None,
            Some((first, used)) => match spec_dec_states(s.skip(used as int), (n - 1) as nat) {
                None => None,
                Some((rest, more)) => Some((seq![first] + rest, used + more)),
            },
        }
    }
}

/// A state that is read takes at least its fixed part and no more bytes
/// than there are.
pub proof fn lemma_dec_session_state_bounds(s: Seq<u8>)
    ensures
        spec_dec_session_state(s) matches Some(found) ==> 200 <= found.1 <= s.len(),
{
    reveal(spec_dec_session_state);
}

/// Where `n` states are read, they are `n`, and they take no more bytes than
/// there are.
pub proof fn lemma_dec_states_len(s: Seq<u8>, n: nat)
    ensures
        match spec_dec_states(s, n) {
            Some((states, used)) => states.len() == n && 200 * n <= used <= s.len(),
            None => true,
        },
    decreases n,
{
    if n > 0 {
        lemma_dec_session_state_bounds(s);
        match spec_dec_session_state(s) {
            None => {},
            Some((first, used)) => {
                lemma_dec_states_len(s.skip(used as int), (n - 1) as nat);
            },
        }
    }
}

/// The states of a session in the order in which they are written: by tag,
/// smallest first.
pub open spec fn states_in_order(m: Map<u128, Indexed<SessionStateView>>) -> Seq<SessionStateView> {
    sorted_keys(m.dom()).map_values(|k: u128| m[k].val)
}

/// The collection that reading `states` one by one builds: each state goes
/// under its own tag, with its place in the sequence as index; a later state
/// takes the place of an earlier one with the same tag.
pub open spec fn collect(states: Seq<SessionStateView>) -> Map<u128, Indexed<SessionStateView>>
    decreases states.len(),
{
    if states.len() == 0 {
        Map::empty()
    } else {
        collect(states.drop_last()).insert(
            states.last().session_tag,
            Indexed { idx: (states.len() - 1) as usize, val: states.last() },
        )
    }
}

/// A session on the wire: version, tag, both identities' public keys, the
/// pending prekey, and the counted states in the order of their tags.
pub open spec fn spec_enc_session(v: SessionView) -> Seq<u8> {
    spec_enc_version(v.version) + be_bytes(v.session_tag as nat, 16) + v.local_identity.public_key
        + v.remote_identity + spec_enc_pending(v.pending_prekey) + be_bytes(
        v.session_states.dom().len(),
        8,
    ) + spec_enc_states(states_in_order(v.session_states))
}

/// The session at the front of `s`, read on behalf of `ident`, and the bytes
/// it takes; or the reason why there is none.
pub open spec fn spec_dec_session(ident: KeyPairView, s: Seq<u8>) -> Result<
    (SessionView, nat),
    DecodeSessionErrorView,
> {
    match spec_dec_version(s) {
        Err(e) => Err(DecodeSessionErrorView::Other(e)),
        Ok((version, _)) => if s.len() < 52 {
            Err(DecodeSessionErrorView::Other(DecodeError::UnexpectedEof))
        } else if s.subrange(20, 52) != ident.public_key {
            Err(DecodeSessionErrorView::LocalIdentityChanged(s.subrange(20, 52)))
        } else if s.len() < 84 {
            Err(DecodeSessionErrorView::Other(DecodeError::UnexpectedEof))
        } else {
            match spec_dec_pending(s.skip(84)) {
                Err(e) => Err(DecodeSessionErrorView::Other(e)),
                Ok((pending_prekey, used)) => {
                    let rest = s.skip((84 + used) as int);
                    if rest.len() < 8 {
                        Err(DecodeSessionErrorView::Other(DecodeError::UnexpectedEof))
                    } else {
                        match spec_dec_states(rest.skip(8), be_value(rest.subrange(0, 8))) {
                            None => Err(DecodeSessionErrorView::Other(DecodeError::UnexpectedEof)),
                            Some((states, more)) => Ok(
                                (
                                    SessionView {
                                        version,
                                        session_tag: be_value(s.subrange(4, 20)) as u128,
                                        counter: states.len() as usize,
                                        local_identity: ident,
                                        remote_identity: s.subrange(52, 84),
                                        pending_prekey,
                                        session_states: collect(states),
                                    },
                                    84 + used + 8 + more,
                                ),
                            ),
                        }
                    }
                },
            }
        },
    }
}

} // verus!
