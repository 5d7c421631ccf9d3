//! Encoders and decoders of the session state, field by field in the order
//! of the format.

use crate::error::{DecodeError, DecodeSessionError};
use crate::format::{
    collect, lemma_dec_session_state_bounds, lemma_dec_states_len, spec_dec_chain_key,
    spec_dec_msg_keys, spec_dec_msg_keys_seq, spec_dec_pending, spec_dec_recv_chain,
    spec_dec_recv_chains, spec_dec_send_chain, spec_dec_session, spec_dec_session_state,
    spec_dec_states, spec_dec_version, spec_enc_chain_key, spec_enc_msg_keys,
    spec_enc_msg_keys_seq, spec_enc_pending, spec_enc_recv_chain, spec_enc_recv_chains,
    spec_enc_send_chain, spec_enc_session, spec_enc_session_state, spec_enc_states,
    spec_enc_version, states_in_order,
};
use crate::keys::{
    dec_cipher_key, dec_counter, dec_identity_key, dec_keypair, dec_mac_key, dec_prekey_id,
    dec_public_key, dec_session_tag, enc_cipher_key, enc_counter, enc_identity_key, enc_keypair,
    enc_mac_key, enc_prekey_id, enc_public_key, enc_session_tag, IdentityKeyPair, PreKeyId,
    PublicKey,
};
use crate::order::{sorted_keys, values_in_order};
use crate::session::{
    msg_keys_views, pending_view, recv_chain_views, state_views, ChainKey, Indexed, MessageKeys,
    RecvChain, RootKey, SendChain, Session, SessionState, SessionStateView, Version,
};
use crate::wire::{parse_outcome, read_outcome, Decoder, Encoder};
use std::collections::BTreeMap;
use std::collections::VecDeque;
use vstd::prelude::*;

verus! {

// Root key

pub fn enc_root_key(k: &RootKey, e: &mut Encoder)
    ensures
        final(e)@ == old(e)@ + k@,
{
    enc_cipher_key(&k.key, e)
}

pub fn dec_root_key(d: &mut Decoder) -> (r: Result<RootKey, DecodeError>)
    ensures
        final(d).input() == old(d).input(),
        read_outcome(old(d).remaining(), final(d).remaining(), r, 32, old(d).remaining().take(32)),
{
    match dec_cipher_key(d) {
        Ok(key) => Ok(RootKey { key }),
        Err(e) => Err(e),
    }
}

// Chain key

pub fn enc_chain_key(k: &ChainKey, e: &mut Encoder)
    ensures
        final(e)@ == old(e)@ + spec_enc_chain_key(k@),
{
    enc_mac_key(&k.key, e);
    enc_counter(&k.idx, e);
    assert(e@ =~= old(e)@ + spec_enc_chain_key(k@));
}

pub fn dec_chain_key(d: &mut Decoder) -> (r: Result<ChainKey, DecodeError>)
    ensures
        final(d).input() == old(d).input(),
        read_outcome(old(d).remaining(), final(d).remaining(), r, 36, spec_dec_chain_key(old(d).remaining())),
{
    let ghost all = d.remaining();
    let k = dec_mac_key(d)?;
    let c = dec_counter(d)?;
    proof {
        assert(all.take(32) =~= all.subrange(0, 32));
        assert(all.skip(32).take(4) =~= all.subrange(32, 36));
        assert(all.skip(32).skip(4) =~= all.skip(36));
    }
    Ok(ChainKey { key: k, idx: c })
}

// Send chain

pub fn enc_send_chain(s: &SendChain, e: &mut Encoder)
    ensures
        final(e)@ == old(e)@ + spec_enc_send_chain(s@),
{
    enc_chain_key(&s.chain_key, e);
    enc_keypair(&s.ratchet_key, e);
    assert(e@ =~= old(e)@ + spec_enc_send_chain(s@));
}

pub fn dec_send_chain(d: &mut Decoder) -> (r: Result<SendChain, DecodeError>)
    ensures
        final(d).input() == old(d).input(),
        read_outcome(
            old(d).remaining(),
            final(d).remaining(),
            r,
            132,
            spec_dec_send_chain(old(d).remaining()),
        ),
{
    let ghost all = d.remaining();
    let k = dec_chain_key(d)?;
    let c = dec_keypair(d)?;
    proof {
        assert(all.skip(36).skip(96) =~= all.skip(132));
    }
    Ok(SendChain { chain_key: k, ratchet_key: c })
}

// Receive chain

pub fn enc_recv_chain(r: &RecvChain, e: &mut Encoder)
    ensures
        final(e)@ == old(e)@ + spec_enc_recv_chain(r@),
{
    enc_chain_key(&r.chain_key, e);
    enc_public_key(&r.ratchet_key, e);
    assert(e@ =~= old(e)@ + spec_enc_recv_chain(r@));
}

pub fn dec_recv_chain(d: &mut Decoder) -> (r: Result<RecvChain, DecodeError>)
    ensures
        final(d).input() == old(d).input(),
        read_outcome(
            old(d).remaining(),
            final(d).remaining(),
            r,
            68,
            spec_dec_recv_chain(old(d).remaining()),
        ),
{
    let ghost all = d.remaining();
    let k = dec_chain_key(d)?;
    let c = dec_public_key(d)?;
    proof {
        assert(all.skip(36).take(32) =~= all.subrange(36, 68));
        assert(all.skip(36).skip(32) =~= all.skip(68));
    }
    Ok(RecvChain { chain_key: k, ratchet_key: c })
}

// Message keys

pub fn enc_msg_keys(k: &MessageKeys, e: &mut Encoder)
    ensures
        final(e)@ == old(e)@ + spec_enc_msg_keys(k@),
{
    enc_cipher_key(&k.cipher_key, e);
    enc_mac_key(&k.mac_key, e);
    enc_counter(&k.counter, e);
    assert(e@ =~= old(e)@ + spec_enc_msg_keys(k@));
}

pub fn dec_msg_keys(d: &mut Decoder) -> (r: Result<MessageKeys, DecodeError>)
    ensures
        final(d).input() == old(d).input(),
        read_outcome(old(d).remaining(), final(d).remaining(), r, 68, spec_dec_msg_keys(old(d).remaining())),
{
    let ghost all = d.remaining();
    let k = dec_cipher_key(d)?;
    let m = dec_mac_key(d)?;
    let c = dec_counter(d)?;
    proof {
        assert(all.take(32) =~= all.subrange(0, 32));
        assert(all.skip(32).take(32) =~= all.subrange(32, 64));
        assert(all.skip(32).skip(32).take(4) =~= all.subrange(64, 68));
        assert(all.skip(32).skip(32).skip(4) =~= all.skip(68));
    }
    Ok(MessageKeys { cipher_key: k, mac_key: m, counter: c })
}

// Version

/// Writes the version field.
pub fn enc_session_version(v: &Version, e: &mut Encoder)
    ensures
        final(e)@ == old(e)@ + spec_enc_version(*v),
{
    e.put_u32(1);
}

/// Reads the version field; only the one known version is accepted.
pub fn dec_session_version(d: &mut Decoder) -> (r: Result<Version, DecodeError>)
    ensures
        final(d).input() == old(d).input(),
        match (spec_dec_version(old(d).remaining()), r) {
            (Ok((version, used)), Ok(v)) => v == version && final(d).remaining() == old(d).remaining().skip(
                used as int,
            ),
            (Err(expected), Err(e)) => e == expected,
            _ => false,
        },
{
    let ghost all = d.remaining();
    let vers: u32 = d.get_u32()?;
    assert(all.take(4) =~= all.subrange(0, 4));
    if vers == 1 {
        Ok(Version::V1)
    } else {
        Err(DecodeError::UnknownVersion(vers))
    }
}

// Pending prekey

/// Writes the pending prekey: 1 where there is none, else 2, the prekey's
/// number and its public key.
pub fn enc_pending_prekey(p: &Option<(PreKeyId, PublicKey)>, e: &mut Encoder)
    ensures
        final(e)@ == old(e)@ + spec_enc_pending(pending_view(*p)),
{
    match p {
        None => {
            e.put_u32(1);
        },
        Some((id, pk)) => {
            e.put_u32(2);
            enc_prekey_id(id, e);
            enc_public_key(pk, e);
            assert(e@ =~= old(e)@ + spec_enc_pending(pending_view(*p)));
        },
    }
}

/// Reads the pending prekey; any tag but 1 and 2 is refused.
pub fn dec_pending_prekey(d: &mut Decoder) -> (r: Result<Option<(PreKeyId, PublicKey)>, DecodeError>)
    ensures
        final(d).input() == old(d).input(),
        match (spec_dec_pending(old(d).remaining()), r) {
            (Ok((pending, used)), Ok(p)) => pending_view(p) == pending && final(d).remaining() == old(
                d,
            ).remaining().skip(used as int),
            (Err(expected), Err(e)) => e == expected,
            _ => false,
        },
{
    let ghost all = d.remaining();
    let t: u32 = d.get_u32()?;
    assert(all.take(4) =~= all.subrange(0, 4));
    if t == 1 {
        Ok(None)
    } else if t == 2 {
        let id = dec_prekey_id(d)?;
        let pk = dec_public_key(d)?;
        proof {
            assert(all.skip(4).take(2) =~= all.subrange(4, 6));
            assert(all.skip(4).skip(2).take(32) =~= all.subrange(6, 38));
            assert(all.skip(4).skip(2).skip(32) =~= all.skip(38));
        }
        Ok(Some((id, pk)))
    } else {
        Err(DecodeError::InvalidPendingPrekey(t))
    }
}

// Session

/// Writes a session: version, tag, both identities' public keys, the
/// pending prekey, and the counted states in the order of their tags.
pub fn enc_session(s: &Session, e: &mut Encoder)
    ensures
        final(e)@ == old(e)@ + spec_enc_session(s@),
{
    enc_session_version(&s.version, e);
    enc_session_tag(&s.session_tag, e);
    enc_identity_key(&s.local_identity.public_key, e);
    enc_identity_key(&s.remote_identity, e);
    enc_pending_prekey(&s.pending_prekey, e);
    e.put_u64(s.session_states.len() as u64);
    let ghost head = e@;
    let ghost ks = sorted_keys(s.session_states@.dom());
    let ghost written = states_in_order(s@.session_states);
    assert(s@.session_states.dom() =~= s.session_states@.dom());
    let it = values_in_order(&s.session_states);
    for t in cur: it
        invariant
            cur.seq() == ks.map(|i: int, k: u128| &s.session_states@[k]),
            written.len() == ks.len(),
            forall|i: int| 0 <= i < ks.len() ==> written[i] == (#[trigger] s.session_states@[ks[i]]).val@,
            e@ == head + spec_enc_states(written.take(cur.index())),
    {
        enc_session_state(&t.val, e);
        proof {
            let upto = written.take(cur.index() + 1);
            assert(upto.drop_last() =~= written.take(cur.index()));
            assert(upto.last() == t.val@);
            assert(e@ =~= head + spec_enc_states(upto));
        }
    }
    proof {
        assert(written.take(ks.len() as int) =~= written);
        assert(e@ =~= old(e)@ + spec_enc_session(s@));
    }
}

/// Reads a session on behalf of `ident`. The version is checked first, then
/// the identity under which the session was stored; the states are gathered
/// under their tags and numbered as they come.
pub fn dec_session<'r>(ident: &'r IdentityKeyPair, d: &mut Decoder) -> (r: Result<
    Session<'r>,
    DecodeSessionError,
>)
    ensures
        final(d).input() == old(d).input(),
        match (spec_dec_session(ident@, old(d).remaining()), r) {
            (Ok((session, used)), Ok(s)) => s@ == session && final(d).remaining() == old(d).remaining().skip(
                used as int,
            ),
            (Err(expected), Err(e)) => e@ == expected,
            _ => false,
        },
{
    let ghost all = d.remaining();
    let vs = match dec_session_version(d) {
        Ok(v) => v,
        Err(e) => {
            return Err(DecodeSessionError::from(e));
        },
    };
    let tg = match dec_session_tag(d) {
        Ok(t) => t,
        Err(e) => {
            return Err(DecodeSessionError::from(e));
        },
    };
    let li = match dec_identity_key(d) {
        Ok(k) => k,
        Err(e) => {
            return Err(DecodeSessionError::from(e));
        },
    };
    proof {
        assert(all.skip(4).take(16) =~= all.subrange(4, 20));
        assert(all.skip(4).skip(16).take(32) =~= all.subrange(20, 52));
        assert(all.skip(4).skip(16).skip(32) =~= all.skip(52));
    }
    if !li.same_as(&ident.public_key) {
        return Err(DecodeSessionError::LocalIdentityChanged(li));
    }
    let ri = match dec_identity_key(d) {
        Ok(k) => k,
        Err(e) => {
            return Err(DecodeSessionError::from(e));
        },
    };
    proof {
        assert(all.skip(52).take(32) =~= all.subrange(52, 84));
        assert(all.skip(52).skip(32) =~= all.skip(84));
    }
    let pp = match dec_pending_prekey(d) {
        Ok(p) => p,
        Err(e) => {
            return Err(DecodeSessionError::from(e));
        },
    };
    let ghost pused: nat = spec_dec_pending(all.skip(84))->Ok_0.1;
    let ghost rest = all.skip((84 + pused) as int);
    assert(d.remaining() =~= rest);
    let ls: u64 = match d.get_u64() {
        Ok(n) => n,
        Err(e) => {
            return Err(DecodeSessionError::from(e));
        },
    };
    let ghost body = rest.skip(8);
    proof {
        assert(rest.take(8) =~= rest.subrange(0, 8));
    }
    let (rb, counter) = match dec_session_states(d, ls) {
        Ok(found) => found,
        Err(e) => {
            return Err(DecodeSessionError::from(e));
        },
    };
    proof {
        let used: nat = spec_dec_states(body, ls as nat)->Some_0.1;
        lemma_dec_states_len(body, ls as nat);
        assert(rest.skip(8).skip(used as int) =~= all.skip((84 + pused + 8 + used) as int));
    }
    Ok(
        Session {
            version: vs,
            session_tag: tg,
            counter,
            local_identity: ident,
            remote_identity: ri,
            pending_prekey: pp,
            session_states: rb,
        },
    )
}

/// The bytes of a session.
pub fn encode_session(s: &Session) -> (out: Vec<u8>)
    ensures
        out@ == spec_enc_session(s@),
{
    let mut e = Encoder::new();
    enc_session(s, &mut e);
    assert(e@ =~= spec_enc_session(s@));
    e.into_bytes()
}

/// The session at the front of `bytes`, read on behalf of `ident`.
pub fn decode_session<'r>(ident: &'r IdentityKeyPair, bytes: &[u8]) -> (r: Result<
    Session<'r>,
    DecodeSessionError,
>)
    ensures
        match (spec_dec_session(ident@, bytes@), r) {
            (Ok((session, _)), Ok(s)) => s@ == session,
            (Err(expected), Err(e)) => e@ == expected,
            _ => false,
        },
{
    let mut d = Decoder::new(bytes);
    dec_session(ident, &mut d)
}

// Session state

/// Writes a session state: tag, counted receiving chains, sending chain,
/// root key, previous counter, counted message keys.
pub fn enc_session_state(s: &SessionState, e: &mut Encoder)
    ensures
        final(e)@ == old(e)@ + spec_enc_session_state(s@),
{
    enc_session_tag(&s.session_tag, e);
    let nr: usize = s.recv_chains.len();
    e.put_u64(nr as u64);
    let ghost head = e@;
    let mut i: usize = 0;
    while i < nr
        invariant
            i <= nr == s.recv_chains@.len(),
            e@ == head + spec_enc_recv_chains(s@.recv_chains.take(i as int)),
        decreases nr - i,
    {
        enc_recv_chain(&s.recv_chains[i], e);
        proof {
            let upto = s@.recv_chains.take(i + 1);
            assert(upto.drop_last() =~= s@.recv_chains.take(i as int));
            assert(upto.last() == s.recv_chains@[i as int]@);
            assert(e@ =~= head + spec_enc_recv_chains(upto));
        }
        i = i + 1;
    }
    assert(s@.recv_chains.take(nr as int) =~= s@.recv_chains);
    enc_send_chain(&s.send_chain, e);
    enc_root_key(&s.root_key, e);
    enc_counter(&s.prev_counter, e);
    let nm: usize = s.skipped_msgkeys.len();
    e.put_u64(nm as u64);
    let ghost middle = e@;
    let mut j: usize = 0;
    while j < nm
        invariant
            j <= nm == s.skipped_msgkeys@.len(),
            e@ == middle + spec_enc_msg_keys_seq(s@.skipped_msgkeys.take(j as int)),
        decreases nm - j,
    {
        enc_msg_keys(&s.skipped_msgkeys[j], e);
        proof {
            let upto = s@.skipped_msgkeys.take(j + 1);
            assert(upto.drop_last() =~= s@.skipped_msgkeys.take(j as int));
            assert(upto.last() == s.skipped_msgkeys@[j as int]@);
            assert(e@ =~= middle + spec_enc_msg_keys_seq(upto));
        }
        j = j + 1;
    }
    assert(s@.skipped_msgkeys.take(nm as int) =~= s@.skipped_msgkeys);
    assert(e@ =~= old(e)@ + spec_enc_session_state(s@));
}

/// `seen` and `used` put before what is still to be read.
pub open spec fn after_reading(
    seen: Seq<SessionStateView>,
    used: nat,
    rest: Option<(Seq<SessionStateView>, nat)>,
) -> Option<(Seq<SessionStateView>, nat)> {
    match rest {
        None => None,
        Some((more, n)) => Some((seen + more, used + n)),
    }
}

/// Reads `count` session states and gathers them under their tags, each
/// with its place in the stream as index.
#[verifier::loop_isolation(false)]
pub fn dec_session_states(d: &mut Decoder, count: u64) -> (r: Result<
    (BTreeMap<u128, Indexed<SessionState>>, usize),
    DecodeError,
>)
    ensures
        final(d).input() == old(d).input(),
        match (spec_dec_states(old(d).remaining(), count as nat), r) {
            (Some((states, used)), Ok(found)) => {
                &&& state_views(found.0@) == collect(states)
                &&& found.1 == states.len()
                &&& final(d).remaining() == old(d).remaining().skip(used as int)
            },
            (None, Err(e)) => e == DecodeError::UnexpectedEof,
            _ => false,
        },
{
    let ghost body = d.remaining();
    let total: usize = d.remaining_len();
    let ls: u64 = count;
    let mut rb: BTreeMap<u128, Indexed<SessionState>> = BTreeMap::new();
    let mut counter: usize = 0;
    let ghost mut seen: Seq<SessionStateView> = Seq::empty();
    let ghost mut used: nat = 0;
    proof {
        assert(state_views(rb@) =~= collect(seen));
        assert(body.skip(0) =~= body);
        match spec_dec_states(body, ls as nat) {
            None => {},
            Some((more, n)) => {
                assert(seen + more =~= more);
            },
        }
    }
    while (counter as u64) < ls
        invariant
            counter <= ls,
            d.input() == old(d).input(),
            counter <= used <= body.len(),
            d.remaining() == body.skip(used as int),
            seen.len() == counter,
            state_views(rb@) == collect(seen),
            spec_dec_states(body, ls as nat) == after_reading(
                seen,
                used,
                spec_dec_states(d.remaining(), (ls - counter) as nat),
            ),
        decreases ls - counter,
    {
        let ghost here = d.remaining();
        let ghost before = rb@;
        match dec_session_state(d) {
            Ok(s) => {
                let ghost first = s@;
                let ghost step: nat = spec_dec_session_state(here)->Some_0.1;
                proof {
                    lemma_dec_session_state_bounds(here);
                }
                rb.insert(s.session_tag.tag, Indexed::new(counter, s));
                proof {
                    assert(body.skip(used as int).skip(step as int) =~= body.skip((used + step) as int));
                    assert(seen.push(first).drop_last() =~= seen);
                    assert(state_views(rb@) =~= collect(seen.push(first)));
                    match spec_dec_states(here.skip(step as int), (ls - counter - 1) as nat) {
                        None => {},
                        Some((more, n)) => {
                            assert(seen + (seq![first] + more) =~= seen.push(first) + more);
                        },
                    }
                    seen = seen.push(first);
                    used = used + step;
                }
                counter = counter + 1;
            },
            Err(e) => {
                return Err(e);
            },
        }
    }
    proof {
        assert(seen + Seq::<SessionStateView>::empty() =~= seen);
    }
    Ok((rb, counter))
}

/// Reads a session state. Chains and message keys are read one at a time,
/// so a count that the source cannot back ends the read at the end of the
/// source.
#[verifier::loop_isolation(false)]
pub fn dec_session_state(d: &mut Decoder) -> (r: Result<SessionState, DecodeError>)
    ensures
        final(d).input() == old(d).input(),
        parse_outcome(
            old(d).remaining(),
            final(d).remaining(),
            r,
            spec_dec_session_state(old(d).remaining()),
        ),
{
    proof {
        reveal(spec_dec_session_state);
    }
    let ghost all = d.remaining();
    let tg = dec_session_tag(d)?;
    let lr: u64 = d.get_u64()?;
    proof {
        assert(all.take(16) =~= all.subrange(0, 16));
        assert(all.skip(16).take(8) =~= all.subrange(16, 24));
        assert(all.skip(16).skip(8) =~= all.skip(24));
    }
    let mut rr: VecDeque<RecvChain> = VecDeque::new();
    let mut i: u64 = 0;
    while i < lr
        invariant
            i <= lr,
            d.input() == old(d).input(),
            all.len() >= 24 + 68 * i,
            d.remaining() == all.skip(24 + 68 * i),
            recv_chain_views(rr@) == spec_dec_recv_chains(all.skip(24), i as nat),
        decreases lr - i,
    {
        let ghost seen = rr@;
        match dec_recv_chain(d) {
            Ok(c) => {
                rr.push_back(c);
                proof {
                    assert(all.skip(24 + 68 * i) =~= all.skip(24).skip(68 * i));
                    assert(all.skip(24 + 68 * i).skip(68) =~= all.skip(24 + 68 * (i + 1)));
                    assert(recv_chain_views(rr@) =~= recv_chain_views(seen).push(c@));
                    assert(recv_chain_views(rr@) =~= spec_dec_recv_chains(all.skip(24), (i + 1) as nat));
                }
            },
            Err(e) => {
                return Err(e);
            },
        }
        i = i + 1;
    }
    let ghost a: int = 24 + 68 * lr;
    let sc = dec_send_chain(d)?;
    let rk = dec_root_key(d)?;
    let ct = dec_counter(d)?;
    let lv: u64 = d.get_u64()?;
    proof {
        assert(all.skip(a).skip(132).take(32) =~= all.subrange(a + 132, a + 164));
        assert(all.skip(a).skip(132).skip(32).take(4) =~= all.subrange(a + 164, a + 168));
        assert(all.skip(a).skip(132).skip(32).skip(4).take(8) =~= all.subrange(a + 168, a + 176));
        assert(all.skip(a).skip(132).skip(32).skip(4).skip(8) =~= all.skip(a + 176));
    }
    let ghost b: int = a + 176;
    let mut vm: VecDeque<MessageKeys> = VecDeque::new();
    let mut j: u64 = 0;
    while j < lv
        invariant
            j <= lv,
            d.input() == old(d).input(),
            all.len() >= b + 68 * j,
            d.remaining() == all.skip(b + 68 * j),
            msg_keys_views(vm@) == spec_dec_msg_keys_seq(all.skip(b), j as nat),
        decreases lv - j,
    {
        let ghost seen = vm@;
        match dec_msg_keys(d) {
            Ok(m) => {
                vm.push_back(m);
                proof {
                    assert(all.skip(b + 68 * j) =~= all.skip(b).skip(68 * j));
                    assert(all.skip(b + 68 * j).skip(68) =~= all.skip(b + 68 * (j + 1)));
                    assert(msg_keys_views(vm@) =~= msg_keys_views(seen).push(m@));
                    assert(msg_keys_views(vm@) =~= spec_dec_msg_keys_seq(all.skip(b), (j + 1) as nat));
                }
            },
            Err(e) => {
                return Err(e);
            },
        }
        j = j + 1;
    }
    Ok(
        SessionState {
            session_tag: tg,
            recv_chains: rr,
            send_chain: sc,
            root_key: rk,
            prev_counter: ct,
            skipped_msgkeys: vm,
        },
    )
}

} // verus!
