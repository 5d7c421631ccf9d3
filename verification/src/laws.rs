//! What holds of the format: reading gives back what was written, a cut
//! stream is refused, and a session stored under one identity is not handed
//! to another.

use crate::error::{DecodeError, DecodeSessionErrorView};
use crate::format::{
    collect, spec_dec_chain_key, spec_dec_msg_keys, spec_dec_msg_keys_seq, spec_dec_pending,
    spec_dec_recv_chain, spec_dec_recv_chains, spec_dec_send_chain, spec_dec_session,
    spec_dec_session_state, spec_dec_states, spec_dec_version, spec_enc_chain_key,
    spec_enc_msg_keys, spec_enc_msg_keys_seq, spec_enc_pending, spec_enc_recv_chain,
    spec_enc_recv_chains, spec_enc_send_chain, spec_enc_session, spec_enc_session_state,
    spec_enc_states, spec_enc_version, states_in_order,
};
use crate::keys::{spec_dec_keypair, spec_enc_keypair, KeyPairView};
use crate::order::{ascending, lemma_lists_len, lemma_sorted_keys, lists, rank, sorted_keys};
use crate::session::{
    ChainKeyView, Indexed, MessageKeysView, RecvChainView, SendChainView, SessionStateView,
    SessionView, Version,
};
use crate::wire::{
    be_bytes, be_value, lemma_be_bytes_len, lemma_be_bytes_of_value, lemma_be_value_of_bytes,
    lemma_radix_values,
};
use vstd::prelude::*;

verus! {

/// A number that fits in `n` of the widths in use is read back as written.
pub proof fn lemma_number_round_trip(v: nat, n: nat, rest: Seq<u8>)
    requires
        n == 2 || n == 4 || n == 8 || n == 16,
        n == 2 ==> v <= u16::MAX,
        n == 4 ==> v <= u32::MAX,
        n == 8 ==> v <= u64::MAX,
        n == 16 ==> v <= u128::MAX,
    ensures
        be_bytes(v, n).len() == n,
        be_value(be_bytes(v, n)) == v,
        (be_bytes(v, n) + rest).subrange(0, n as int) == be_bytes(v, n),
        (be_bytes(v, n) + rest).skip(n as int) == rest,
{
    lemma_be_bytes_len(v, n);
    lemma_radix_values();
    lemma_be_value_of_bytes(v, n);
    assert((be_bytes(v, n) + rest).subrange(0, n as int) =~= be_bytes(v, n));
    assert((be_bytes(v, n) + rest).skip(n as int) =~= rest);
}

/// A keypair is read back as written, whatever follows it.
pub proof fn lemma_keypair_round_trip(k: KeyPairView, rest: Seq<u8>)
    requires
        k.wf(),
    ensures
        spec_enc_keypair(k).len() == 96,
        spec_dec_keypair(spec_enc_keypair(k) + rest) == k,
{
    let e = spec_enc_keypair(k) + rest;
    assert(e.subrange(0, 64) =~= k.secret_key);
    assert(e.subrange(64, 96) =~= k.public_key);
}

/// A chain key is read back as written, whatever follows it.
pub proof fn lemma_chain_key_round_trip(k: ChainKeyView, rest: Seq<u8>)
    requires
        k.wf(),
    ensures
        spec_enc_chain_key(k).len() == 36,
        spec_dec_chain_key(spec_enc_chain_key(k) + rest) == k,
{
    let e = spec_enc_chain_key(k) + rest;
    lemma_number_round_trip(k.idx as nat, 4, rest);
    assert(e.subrange(0, 32) =~= k.key);
    assert(e.subrange(32, 36) =~= be_bytes(k.idx as nat, 4));
}

/// A sending chain is read back as written, whatever follows it.
pub proof fn lemma_send_chain_round_trip(c: SendChainView, rest: Seq<u8>)
    requires
        c.wf(),
    ensures
        spec_enc_send_chain(c).len() == 132,
        spec_dec_send_chain(spec_enc_send_chain(c) + rest) == c,
{
    let e = spec_enc_send_chain(c) + rest;
    let tail = spec_enc_keypair(c.ratchet_key) + rest;
    lemma_chain_key_round_trip(c.chain_key, tail);
    lemma_keypair_round_trip(c.ratchet_key, rest);
    assert(e =~= spec_enc_chain_key(c.chain_key) + tail);
    assert(e.skip(36) =~= tail);
}

/// A receiving chain is read back as written, whatever follows it.
pub proof fn lemma_recv_chain_round_trip(c: RecvChainView, rest: Seq<u8>)
    requires
        c.wf(),
    ensures
        spec_enc_recv_chain(c).len() == 68,
        spec_dec_recv_chain(spec_enc_recv_chain(c) + rest) == c,
{
    let e = spec_enc_recv_chain(c) + rest;
    let tail = c.ratchet_key + rest;
    lemma_chain_key_round_trip(c.chain_key, tail);
    assert(e =~= spec_enc_chain_key(c.chain_key) + tail);
    assert(e.subrange(36, 68) =~= c.ratchet_key);
}

/// Message keys are read back as written, whatever follows them.
pub proof fn lemma_msg_keys_round_trip(k: MessageKeysView, rest: Seq<u8>)
    requires
        k.wf(),
    ensures
        spec_enc_msg_keys(k).len() == 68,
        spec_dec_msg_keys(spec_enc_msg_keys(k) + rest) == k,
{
    let e = spec_enc_msg_keys(k) + rest;
    lemma_number_round_trip(k.counter as nat, 4, rest);
    assert(e.subrange(0, 32) =~= k.cipher_key);
    assert(e.subrange(32, 64) =~= k.mac_key);
    assert(e.subrange(64, 68) =~= be_bytes(k.counter as nat, 4));
}

/// Receiving chains are read back as written and in their order, whatever
/// follows them.
pub proof fn lemma_recv_chains_round_trip(items: Seq<RecvChainView>, rest: Seq<u8>)
    requires
        forall|i: int| 0 <= i < items.len() ==> (#[trigger] items[i]).wf(),
    ensures
        spec_enc_recv_chains(items).len() == 68 * items.len(),
        spec_dec_recv_chains(spec_enc_recv_chains(items) + rest, items.len()) == items,
    decreases items.len(),
{
    let whole = spec_enc_recv_chains(items) + rest;
    if items.len() == 0 {
        assert(spec_dec_recv_chains(whole, 0) =~= items);
    } else {
        let front = items.drop_last();
        let last = items.last();
        let tail = spec_enc_recv_chain(last) + rest;
        lemma_recv_chains_round_trip(front, tail);
        lemma_recv_chain_round_trip(last, rest);
        assert(whole =~= spec_enc_recv_chains(front) + tail);
        assert(whole.skip((68 * front.len()) as int) =~= tail);
        assert forall|i: int| 0 <= i < items.len() implies spec_dec_recv_chains(whole, items.len())[i]
            == items[i] by {
            if i < front.len() {
                assert(spec_dec_recv_chains(spec_enc_recv_chains(front) + tail, front.len())[i] == front[i]);
            }
        }
        assert(spec_dec_recv_chains(whole, items.len()) =~= items);
    }
}

/// Message keys are read back as written and in their order, whatever
/// follows them.
pub proof fn lemma_msg_keys_seq_round_trip(items: Seq<MessageKeysView>, rest: Seq<u8>)
    requires
        forall|i: int| 0 <= i < items.len() ==> (#[trigger] items[i]).wf(),
    ensures
        spec_enc_msg_keys_seq(items).len() == 68 * items.len(),
        spec_dec_msg_keys_seq(spec_enc_msg_keys_seq(items) + rest, items.len()) == items,
    decreases items.len(),
{
    let whole = spec_enc_msg_keys_seq(items) + rest;
    if items.len() == 0 {
        assert(spec_dec_msg_keys_seq(whole, 0) =~= items);
    } else {
        let front = items.drop_last();
        let last = items.last();
        let tail = spec_enc_msg_keys(last) + rest;
        lemma_msg_keys_seq_round_trip(front, tail);
        lemma_msg_keys_round_trip(last, rest);
        assert(whole =~= spec_enc_msg_keys_seq(front) + tail);
        assert(whole.skip((68 * front.len()) as int) =~= tail);
        assert forall|i: int| 0 <= i < items.len() implies spec_dec_msg_keys_seq(whole, items.len())[i]
            == items[i] by {
            if i < front.len() {
                assert(spec_dec_msg_keys_seq(spec_enc_msg_keys_seq(front) + tail, front.len())[i] == front[i]);
            }
        }
        assert(spec_dec_msg_keys_seq(whole, items.len()) =~= items);
    }
}

/// The length of a session state on the wire.
pub open spec fn session_state_len(v: SessionStateView) -> nat {
    200 + 68 * v.recv_chains.len() + 68 * v.skipped_msgkeys.len()
}

/// The two parts of a byte string that was put together from them.
pub proof fn lemma_split(x: Seq<u8>, y: Seq<u8>)
    ensures
        (x + y).len() == x.len() + y.len(),
        (x + y).subrange(0, x.len() as int) == x,
        (x + y).skip(x.len() as int) == y,
{
    assert((x + y).subrange(0, x.len() as int) =~= x);
    assert((x + y).skip(x.len() as int) =~= y);
}

/// What lies `a` bytes into `s`, seen from the start and from `a`.
pub proof fn lemma_skip(s: Seq<u8>, a: int, n: int)
    requires
        0 <= a,
        0 <= n,
        a + n <= s.len(),
    ensures
        s.skip(a).len() == s.len() - a,
        s.skip(a).skip(n) == s.skip(a + n),
        s.skip(a).subrange(0, n) == s.subrange(a, a + n),
{
    assert(s.skip(a).skip(n) =~= s.skip(a + n));
    assert(s.skip(a).subrange(0, n) =~= s.subrange(a, a + n));
}

/// Putting three byte strings together gives the same either way.
pub proof fn lemma_assoc(x: Seq<u8>, y: Seq<u8>, z: Seq<u8>)
    ensures
        (x + y) + z == x + (y + z),
{
    assert((x + y) + z =~= x + (y + z));
}

/// The eight parts of a session state on the wire and what follows them,
/// put together from the back.
pub open spec fn from_parts(
    tag: Seq<u8>,
    nr: Seq<u8>,
    rc: Seq<u8>,
    sc: Seq<u8>,
    rk: Seq<u8>,
    pc: Seq<u8>,
    nm: Seq<u8>,
    mk: Seq<u8>,
    rest: Seq<u8>,
) -> Seq<u8> {
    tag + (nr + (rc + (sc + (rk + (pc + (nm + (mk + rest)))))))
}

/// Where each part of a session state lies in the bytes put together.
pub proof fn lemma_parts(
    tag: Seq<u8>,
    nr: Seq<u8>,
    rc: Seq<u8>,
    sc: Seq<u8>,
    rk: Seq<u8>,
    pc: Seq<u8>,
    nm: Seq<u8>,
    mk: Seq<u8>,
    rest: Seq<u8>,
)
    requires
        tag.len() == 16,
        nr.len() == 8,
        sc.len() == 132,
        rk.len() == 32,
        pc.len() == 4,
        nm.len() == 8,
    ensures
        ({
            let s = from_parts(tag, nr, rc, sc, rk, pc, nm, mk, rest);
            let a: int = (24 + rc.len()) as int;
            &&& s.len() == 200 + rc.len() + mk.len() + rest.len()
            &&& s.subrange(0, 16) == tag
            &&& s.subrange(16, 24) == nr
            &&& s.skip(24) == rc + (sc + (rk + (pc + (nm + (mk + rest)))))
            &&& s.skip(a) == sc + (rk + (pc + (nm + (mk + rest))))
            &&& s.subrange(a + 132, a + 164) == rk
            &&& s.subrange(a + 164, a + 168) == pc
            &&& s.subrange(a + 168, a + 176) == nm
            &&& s.skip(a + 176) == mk + rest
        }),
{
    let rest7 = mk + rest;
    let rest6 = nm + rest7;
    let rest5 = pc + rest6;
    let rest4 = rk + rest5;
    let rest3 = sc + rest4;
    let rest2 = rc + rest3;
    let rest1 = nr + rest2;
    let s = tag + rest1;
    let a: int = (24 + rc.len()) as int;
    lemma_split(mk, rest);
    lemma_split(nm, rest7);
    lemma_split(pc, rest6);
    lemma_split(rk, rest5);
    lemma_split(sc, rest4);
    lemma_split(rc, rest3);
    lemma_split(nr, rest2);
    lemma_split(tag, rest1);
    lemma_skip(s, 16, 8);
    lemma_skip(s, 24, rc.len() as int);
    lemma_skip(s, a, 132);
    lemma_skip(s, a + 132, 32);
    lemma_skip(s, a + 164, 4);
    lemma_skip(s, a + 168, 8);
}

/// A session state on the wire, with what follows it, is its parts put
/// together from the back.
pub proof fn lemma_session_state_parts(v: SessionStateView, rest: Seq<u8>)
    ensures
        spec_enc_session_state(v) + rest == from_parts(
            be_bytes(v.session_tag as nat, 16),
            be_bytes(v.recv_chains.len(), 8),
            spec_enc_recv_chains(v.recv_chains),
            spec_enc_send_chain(v.send_chain),
            v.root_key,
            be_bytes(v.prev_counter as nat, 4),
            be_bytes(v.skipped_msgkeys.len(), 8),
            spec_enc_msg_keys_seq(v.skipped_msgkeys),
            rest,
        ),
{
    let tag = be_bytes(v.session_tag as nat, 16);
    let nr = be_bytes(v.recv_chains.len(), 8);
    let rc = spec_enc_recv_chains(v.recv_chains);
    let sc = spec_enc_send_chain(v.send_chain);
    let rk = v.root_key;
    let pc = be_bytes(v.prev_counter as nat, 4);
    let nm = be_bytes(v.skipped_msgkeys.len(), 8);
    let mk = spec_enc_msg_keys_seq(v.skipped_msgkeys);
    let a1 = tag + nr;
    let a2 = a1 + rc;
    let a3 = a2 + sc;
    let a4 = a3 + rk;
    let a5 = a4 + pc;
    let a6 = a5 + nm;
    lemma_assoc(a6, mk, rest);
    lemma_assoc(a5, nm, mk + rest);
    lemma_assoc(a4, pc, nm + (mk + rest));
    lemma_assoc(a3, rk, pc + (nm + (mk + rest)));
    lemma_assoc(a2, sc, rk + (pc + (nm + (mk + rest))));
    lemma_assoc(a1, rc, sc + (rk + (pc + (nm + (mk + rest)))));
    lemma_assoc(tag, nr, rc + (sc + (rk + (pc + (nm + (mk + rest))))));
}

/// A session state is read back as written, whatever follows it.
pub proof fn lemma_session_state_round_trip(v: SessionStateView, rest: Seq<u8>)
    requires
        v.wf(),
    ensures
        spec_enc_session_state(v).len() == session_state_len(v),
        spec_dec_session_state(spec_enc_session_state(v) + rest) == Some((v, session_state_len(v))),
{
    reveal(spec_dec_session_state);
    let nr = v.recv_chains.len();
    let nm = v.skipped_msgkeys.len();
    let tag = be_bytes(v.session_tag as nat, 16);
    let rc = spec_enc_recv_chains(v.recv_chains);
    let sc = spec_enc_send_chain(v.send_chain);
    let pc = be_bytes(v.prev_counter as nat, 4);
    let mk = spec_enc_msg_keys_seq(v.skipped_msgkeys);
    let rest7 = mk + rest;
    let rest6 = be_bytes(nm, 8) + rest7;
    let rest5 = pc + rest6;
    let rest4 = v.root_key + rest5;
    let rest3 = sc + rest4;
    let s = spec_enc_session_state(v) + rest;
    lemma_number_round_trip(v.session_tag as nat, 16, rest);
    lemma_number_round_trip(nr, 8, rest);
    lemma_recv_chains_round_trip(v.recv_chains, rest3);
    lemma_send_chain_round_trip(v.send_chain, rest4);
    lemma_number_round_trip(v.prev_counter as nat, 4, rest);
    lemma_number_round_trip(nm, 8, rest);
    lemma_msg_keys_seq_round_trip(v.skipped_msgkeys, rest);
    lemma_session_state_parts(v, rest);
    lemma_parts(tag, be_bytes(nr, 8), rc, sc, v.root_key, pc, be_bytes(nm, 8), mk, rest);
    assert(spec_enc_session_state(v).len() + rest.len() == s.len());
}

/// The states on the wire begin with the first of them.
pub proof fn lemma_enc_states_front(items: Seq<SessionStateView>)
    requires
        items.len() > 0,
    ensures
        spec_enc_states(items) == spec_enc_session_state(items[0]) + spec_enc_states(items.drop_first()),
    decreases items.len(),
{
    let front = items.drop_last();
    let tail = items.drop_first();
    if items.len() == 1 {
        assert(spec_enc_states(front) =~= Seq::<u8>::empty());
        assert(spec_enc_states(tail) =~= Seq::<u8>::empty());
        assert(spec_enc_states(items) =~= spec_enc_session_state(items[0]) + spec_enc_states(tail));
    } else {
        lemma_enc_states_front(front);
        assert(front.drop_first() =~= tail.drop_last());
        assert(tail.last() == items.last());
        assert(front[0] == items[0]);
        lemma_assoc(
            spec_enc_session_state(items[0]),
            spec_enc_states(tail.drop_last()),
            spec_enc_session_state(items.last()),
        );
    }
}

/// Session states are read back as written and in their order, whatever
/// follows them.
pub proof fn lemma_states_round_trip(items: Seq<SessionStateView>, rest: Seq<u8>)
    requires
        forall|i: int| 0 <= i < items.len() ==> (#[trigger] items[i]).wf(),
    ensures
        spec_dec_states(spec_enc_states(items) + rest, items.len()) == Some(
            (items, spec_enc_states(items).len()),
        ),
    decreases items.len(),
{
    let whole = spec_enc_states(items) + rest;
    if items.len() == 0 {
        assert(items =~= Seq::<SessionStateView>::empty());
    } else {
        let first = items[0];
        let tail = items.drop_first();
        let after = spec_enc_states(tail) + rest;
        lemma_enc_states_front(items);
        lemma_assoc(spec_enc_session_state(first), spec_enc_states(tail), rest);
        lemma_session_state_round_trip(first, after);
        lemma_split(spec_enc_session_state(first), after);
        lemma_states_round_trip(tail, rest);
        assert(seq![first] + tail =~= items);
        lemma_split(spec_enc_session_state(first), spec_enc_states(tail));
    }
}

/// Where reading puts each state: under its own tag, with its place in the
/// sequence; where no tag comes twice, every state is found again.
pub proof fn lemma_collect(states: Seq<SessionStateView>)
    ensures
        forall|k: u128| #[trigger]
            collect(states).dom().contains(k) <==> exists|i: int|
                0 <= i < states.len() && #[trigger] states[i].session_tag == k,
        forall|k: u128| #[trigger]
            collect(states).dom().contains(k) ==> collect(states)[k].val.session_tag == k,
        collect(states).dom().finite(),
        (forall|i: int, j: int|
            0 <= i < j < states.len() ==> states[i].session_tag != states[j].session_tag) ==> forall|i: int|
            0 <= i < states.len() ==> collect(states)[#[trigger] states[i].session_tag] == (Indexed {
                idx: i as usize,
                val: states[i],
            }),
    decreases states.len(),
{
    if states.len() > 0 {
        let front = states.drop_last();
        let last = states.last();
        lemma_collect(front);
        assert forall|k: u128| #[trigger]
            collect(states).dom().contains(k) <==> exists|i: int|
                0 <= i < states.len() && #[trigger] states[i].session_tag == k by {
            if collect(states).dom().contains(k) {
                if k == last.session_tag {
                    assert(states[states.len() - 1].session_tag == k);
                } else {
                    assert(collect(front).dom().contains(k));
                    let i = choose|i: int| 0 <= i < front.len() && #[trigger] front[i].session_tag == k;
                    assert(states[i].session_tag == k);
                }
            }
            if exists|i: int| 0 <= i < states.len() && #[trigger] states[i].session_tag == k {
                let i = choose|i: int| 0 <= i < states.len() && #[trigger] states[i].session_tag == k;
                if i < front.len() {
                    assert(front[i].session_tag == k);
                    assert(collect(front).dom().contains(k));
                }
            }
        }
        if forall|i: int, j: int|
            0 <= i < j < states.len() ==> states[i].session_tag != states[j].session_tag {
            assert forall|i: int| 0 <= i < states.len() implies collect(states)[#[trigger] states[i].session_tag]
                == (Indexed { idx: i as usize, val: states[i] }) by {
                if i < front.len() {
                    assert(front[i] == states[i]);
                    assert(states[i].session_tag != states[states.len() - 1].session_tag);
                    assert(collect(front)[front[i].session_tag] == (Indexed { idx: i as usize, val: front[i] }));
                }
            }
        }
    }
}

/// The session with its states numbered as a reader numbers them: by the
/// place of their tag among the tags, smallest first; and with the number of
/// its states as counter.
pub open spec fn renumbered(v: SessionView) -> SessionView {
    SessionView {
        counter: v.session_states.dom().len() as usize,
        session_states: Map::new(
            |k: u128| v.session_states.dom().contains(k),
            |k: u128|
                Indexed { idx: rank(v.session_states.dom(), k) as usize, val: v.session_states[k].val },
        ),
        ..v
    }
}

/// The states of a valid session, written and read again, are the states
/// numbered by the order of their tags.
pub proof fn lemma_collect_in_order(v: SessionView)
    requires
        v.wf(),
    ensures
        collect(states_in_order(v.session_states)) == renumbered(v).session_states,
        states_in_order(v.session_states).len() == v.session_states.dom().len(),
        forall|i: int|
            0 <= i < states_in_order(v.session_states).len() ==> (#[trigger] states_in_order(
                v.session_states,
            )[i]).wf(),
{
    let m = v.session_states;
    let ks = sorted_keys(m.dom());
    let st = states_in_order(m);
    lemma_sorted_keys(m.dom());
    lemma_lists_len(ks, m.dom());
    assert forall|i: int| 0 <= i < st.len() implies (#[trigger] st[i]).wf() && st[i].session_tag == ks[i] by {
        assert(ks.contains(ks[i]));
        assert(m.dom().contains(ks[i]));
    }
    lemma_collect(st);
    let got = collect(st);
    let want = renumbered(v).session_states;
    assert forall|k: u128| got.dom().contains(k) <==> want.dom().contains(k) by {
        if got.dom().contains(k) {
            let i = choose|i: int| 0 <= i < st.len() && #[trigger] st[i].session_tag == k;
            assert(ks.contains(ks[i]));
        }
        if want.dom().contains(k) {
            assert(ks.contains(k));
            let i = choose|i: int| 0 <= i < ks.len() && ks[i] == k;
            assert(st[i].session_tag == k);
        }
    }
    assert forall|k: u128| got.dom().contains(k) implies got[k] == want[k] by {
        assert(ks.contains(k));
        let i = ks.index_of(k);
        assert(st[i].session_tag == k);
        assert(got[st[i].session_tag] == (Indexed { idx: i as usize, val: st[i] }));
    }
    assert(got =~= want);
}

/// The pending prekey is read back as written, whatever follows it.
pub proof fn lemma_pending_round_trip(p: Option<(u16, Seq<u8>)>, rest: Seq<u8>)
    requires
        p matches Some(q) ==> q.1.len() == 32,
    ensures
        spec_enc_pending(p).len() == (if p is Some {
            38nat
        } else {
            4nat
        }),
        spec_dec_pending(spec_enc_pending(p) + rest) == Ok::<(Option<(u16, Seq<u8>)>, nat), DecodeError>(
            (p, spec_enc_pending(p).len()),
        ),
{
    let s = spec_enc_pending(p) + rest;
    match p {
        None => {
            lemma_number_round_trip(1, 4, rest);
        },
        Some((id, pk)) => {
            let tail = be_bytes(id as nat, 2) + (pk + rest);
            lemma_number_round_trip(2, 4, tail);
            lemma_number_round_trip(id as nat, 2, pk + rest);
            lemma_assoc(be_bytes(2, 4) + be_bytes(id as nat, 2), pk, rest);
            lemma_assoc(be_bytes(2, 4), be_bytes(id as nat, 2), pk + rest);
            lemma_split(be_bytes(2, 4), tail);
            lemma_split(be_bytes(id as nat, 2), pk + rest);
            lemma_split(pk, rest);
            lemma_skip(s, 4, 2);
            lemma_skip(s, 6, 32);
        },
    }
}

/// A session on the wire, with what follows it, is its parts put together
/// from the back; and where the first four of them lie.
pub proof fn lemma_session_parts(v: SessionView, rest: Seq<u8>)
    requires
        v.wf(),
    ensures
        ({
            let s = spec_enc_session(v) + rest;
            let tail = spec_enc_pending(v.pending_prekey) + (be_bytes(v.session_states.dom().len(), 8) + (
            spec_enc_states(states_in_order(v.session_states)) + rest));
            &&& s.len() == 84 + tail.len()
            &&& s.subrange(0, 4) == be_bytes(1, 4)
            &&& s.subrange(4, 20) == be_bytes(v.session_tag as nat, 16)
            &&& s.subrange(20, 52) == v.local_identity.public_key
            &&& s.subrange(52, 84) == v.remote_identity
            &&& s.skip(84) == tail
        }),
{
    let ver = be_bytes(1, 4);
    let tag = be_bytes(v.session_tag as nat, 16);
    let li = v.local_identity.public_key;
    let ri = v.remote_identity;
    let pp = spec_enc_pending(v.pending_prekey);
    let cnt = be_bytes(v.session_states.dom().len(), 8);
    let st = spec_enc_states(states_in_order(v.session_states));
    let s = spec_enc_session(v) + rest;
    let t6 = st + rest;
    let t5 = cnt + t6;
    let t4 = pp + t5;
    let t3 = ri + t4;
    let t2 = li + t3;
    let t1 = tag + t2;
    let a1 = ver + tag;
    let a2 = a1 + li;
    let a3 = a2 + ri;
    let a4 = a3 + pp;
    let a5 = a4 + cnt;
    lemma_assoc(a5, st, rest);
    lemma_assoc(a4, cnt, t6);
    lemma_assoc(a3, pp, t5);
    lemma_assoc(a2, ri, t4);
    lemma_assoc(a1, li, t3);
    lemma_assoc(ver, tag, t2);
    assert(s == ver + t1);
    lemma_number_round_trip(1, 4, rest);
    lemma_number_round_trip(v.session_tag as nat, 16, rest);
    lemma_split(ver, t1);
    lemma_split(tag, t2);
    lemma_split(li, t3);
    lemma_split(ri, t4);
    lemma_skip(s, 4, 16);
    lemma_skip(s, 20, 32);
    lemma_skip(s, 52, 32);
}

/// Round trip: a valid session, written and read again on behalf of its own
/// identity, is the session that was written, but for the numbering of its
/// states and the counter: each state gets the place of its tag among the
/// tags as index, and the counter is the number of states. Nothing that
/// follows the session in the source is read.
pub proof fn law_round_trip(v: SessionView, rest: Seq<u8>)
    requires
        v.wf(),
    ensures
        spec_dec_session(v.local_identity, spec_enc_session(v) + rest) == Ok::<
            (SessionView, nat),
            DecodeSessionErrorView,
        >((renumbered(v), spec_enc_session(v).len())),
{
    let s = spec_enc_session(v) + rest;
    let st = states_in_order(v.session_states);
    let n = v.session_states.dom().len();
    let t6 = spec_enc_states(st) + rest;
    let t5 = be_bytes(n, 8) + t6;
    lemma_session_parts(v, rest);
    lemma_number_round_trip(1, 4, rest);
    lemma_number_round_trip(v.session_tag as nat, 16, rest);
    lemma_pending_round_trip(v.pending_prekey, t5);
    let plen = spec_enc_pending(v.pending_prekey).len();
    lemma_split(spec_enc_pending(v.pending_prekey), t5);
    lemma_skip(s, 84, plen as int);
    lemma_number_round_trip(n, 8, t6);
    lemma_split(be_bytes(n, 8), t6);
    lemma_collect_in_order(v);
    lemma_states_round_trip(st, rest);
    lemma_split(spec_enc_states(st), rest);
    assert(spec_enc_session(v).len() + rest.len() == s.len());
    assert(spec_dec_version(s) == Ok::<(Version, nat), DecodeError>((Version::V1, 4)));
    assert(renumbered(v).version == v.version);
}

/// Version rejection: a source that starts with any number but 1 is refused,
/// and the failure names that number.
pub proof fn law_version_rejected(ident: KeyPairView, s: Seq<u8>)
    requires
        s.len() >= 4,
        be_value(s.subrange(0, 4)) != 1,
    ensures
        spec_dec_session(ident, s) == Err::<(SessionView, nat), DecodeSessionErrorView>(
            DecodeSessionErrorView::Other(DecodeError::UnknownVersion(be_value(s.subrange(0, 4)) as u32)),
        ),
{
}

/// Identity continuity: a session written under one identity and read on
/// behalf of another is refused, and the failure carries the key under
/// which it was written.
pub proof fn law_identity_changed(v: SessionView, other: KeyPairView, rest: Seq<u8>)
    requires
        v.wf(),
        other.public_key != v.local_identity.public_key,
    ensures
        spec_dec_session(other, spec_enc_session(v) + rest) == Err::<(SessionView, nat), DecodeSessionErrorView>(
            DecodeSessionErrorView::LocalIdentityChanged(v.local_identity.public_key),
        ),
{
    lemma_session_parts(v, rest);
    lemma_number_round_trip(1, 4, rest);
    lemma_pending_round_trip(v.pending_prekey, rest);
}

/// The front of a byte string that was cut: what lies before the cut is as
/// it was.
pub proof fn lemma_cut(s: Seq<u8>, m: int, a: int, b: int)
    requires
        0 <= a <= b <= m <= s.len(),
    ensures
        s.take(m).len() == m,
        s.take(m).subrange(a, b) == s.subrange(a, b),
        s.take(m).skip(a) == s.skip(a).take(m - a),
{
    assert(s.take(m).subrange(a, b) =~= s.subrange(a, b));
    assert(s.take(m).skip(a) =~= s.skip(a).take(m - a));
}

/// A cut through two byte strings put together falls in the first or in the
/// second.
pub proof fn lemma_cut_concat(x: Seq<u8>, y: Seq<u8>, m: int)
    requires
        0 <= m <= x.len() + y.len(),
    ensures
        m <= x.len() ==> (x + y).take(m) == x.take(m),
        m >= x.len() ==> (x + y).take(m) == x + y.take(m - x.len()),
{
    if m <= x.len() {
        assert((x + y).take(m) =~= x.take(m));
    }
    if m >= x.len() {
        assert((x + y).take(m) =~= x + y.take(m - x.len()));
    }
}

/// A session state that was cut short is not read.
pub proof fn lemma_session_state_cut(v: SessionStateView, m: int)
    requires
        v.wf(),
        0 <= m < session_state_len(v),
    ensures
        spec_dec_session_state(spec_enc_session_state(v).take(m)) is None,
{
    reveal(spec_dec_session_state);
    let nr = v.recv_chains.len();
    let nm = v.skipped_msgkeys.len();
    let none = Seq::<u8>::empty();
    let s = spec_enc_session_state(v);
    let t = s.take(m);
    lemma_session_state_round_trip(v, none);
    lemma_session_state_parts(v, none);
    assert(s + none =~= s);
    lemma_recv_chains_round_trip(v.recv_chains, none);
    lemma_send_chain_round_trip(v.send_chain, none);
    lemma_msg_keys_seq_round_trip(v.skipped_msgkeys, none);
    lemma_number_round_trip(v.session_tag as nat, 16, none);
    lemma_number_round_trip(nr, 8, none);
    lemma_number_round_trip(v.prev_counter as nat, 4, none);
    lemma_number_round_trip(nm, 8, none);
    lemma_parts(
        be_bytes(v.session_tag as nat, 16),
        be_bytes(nr, 8),
        spec_enc_recv_chains(v.recv_chains),
        spec_enc_send_chain(v.send_chain),
        v.root_key,
        be_bytes(v.prev_counter as nat, 4),
        be_bytes(nm, 8),
        spec_enc_msg_keys_seq(v.skipped_msgkeys),
        none,
    );
    let a: int = (24 + 68 * nr) as int;
    if m >= 24 {
        lemma_cut(s, m, 16, 24);
        if m >= a + 176 {
            lemma_cut(s, m, a + 168, a + 176);
        }
    }
}

/// Session states of which the last was cut short are not read.
pub proof fn lemma_states_cut(items: Seq<SessionStateView>, m: int)
    requires
        forall|i: int| 0 <= i < items.len() ==> (#[trigger] items[i]).wf(),
        0 <= m < spec_enc_states(items).len(),
    ensures
        spec_dec_states(spec_enc_states(items).take(m), items.len()) is None,
    decreases items.len(),
{
    if items.len() == 0 {
        assert(spec_enc_states(items).len() == 0);
    } else {
        let first = items[0];
        let tail = items.drop_first();
        let head = spec_enc_session_state(first);
        lemma_enc_states_front(items);
        lemma_session_state_round_trip(first, spec_enc_states(tail).take(m - head.len()));
        lemma_cut_concat(head, spec_enc_states(tail), m);
        if m < head.len() {
            lemma_session_state_cut(first, m);
        } else {
            let after = spec_enc_states(tail).take(m - head.len());
            lemma_split(head, after);
            lemma_states_cut(tail, m - head.len());
        }
    }
}

/// A pending prekey that was cut short is not read; one that was not is read
/// as written.
pub proof fn lemma_pending_cut(p: Option<(u16, Seq<u8>)>, rest: Seq<u8>, m: int)
    requires
        p matches Some(q) ==> q.1.len() == 32,
        0 <= m <= spec_enc_pending(p).len() + rest.len(),
    ensures
        m < spec_enc_pending(p).len() ==> spec_dec_pending((spec_enc_pending(p) + rest).take(m)) == Err::<
            (Option<(u16, Seq<u8>)>, nat),
            DecodeError,
        >(DecodeError::UnexpectedEof),
        m >= spec_enc_pending(p).len() ==> spec_dec_pending((spec_enc_pending(p) + rest).take(m)) == Ok::<
            (Option<(u16, Seq<u8>)>, nat),
            DecodeError,
        >((p, spec_enc_pending(p).len())) && (spec_enc_pending(p) + rest).take(m).skip(
            spec_enc_pending(p).len() as int,
        ) == rest.take(m - spec_enc_pending(p).len()),
{
    let e = spec_enc_pending(p);
    let s = e + rest;
    lemma_pending_round_trip(p, rest);
    lemma_cut_concat(e, rest, m);
    if m >= e.len() {
        lemma_pending_round_trip(p, rest.take(m - e.len()));
        lemma_split(e, rest.take(m - e.len()));
    } else {
        if m >= 4 {
            let id = p->Some_0.0;
            let pk = p->Some_0.1;
            let tail = be_bytes(id as nat, 2) + pk;
            lemma_number_round_trip(2, 4, tail);
            lemma_number_round_trip(id as nat, 2, pk);
            lemma_assoc(be_bytes(2, 4), be_bytes(id as nat, 2), pk);
            lemma_split(be_bytes(2, 4), tail);
            lemma_cut(e, m, 0, 4);
        }
    }
}

/// Truncation safety: a valid session on the wire, cut anywhere before its
/// end and read on behalf of its own identity, is refused as ending too
/// early.
pub proof fn law_truncation(v: SessionView, m: int)
    requires
        v.wf(),
        0 <= m < spec_enc_session(v).len(),
    ensures
        spec_dec_session(v.local_identity, spec_enc_session(v).take(m)) == Err::<
            (SessionView, nat),
            DecodeSessionErrorView,
        >(DecodeSessionErrorView::Other(DecodeError::UnexpectedEof)),
{
    let none = Seq::<u8>::empty();
    let s = spec_enc_session(v);
    let t = s.take(m);
    let st = states_in_order(v.session_states);
    let n = v.session_states.dom().len();
    let pp = spec_enc_pending(v.pending_prekey);
    let t6 = spec_enc_states(st);
    let t5 = be_bytes(n, 8) + t6;
    let tail = pp + t5;
    assert(s + none =~= s);
    assert(t6 + none =~= t6);
    lemma_session_parts(v, none);
    lemma_number_round_trip(1, 4, none);
    lemma_number_round_trip(n, 8, t6);
    lemma_pending_round_trip(v.pending_prekey, t5);
    lemma_collect_in_order(v);
    lemma_split(pp, t5);
    lemma_split(be_bytes(n, 8), t6);
    if m >= 4 {
        lemma_cut(s, m, 0, 4);
        assert(spec_dec_version(t) == Ok::<(Version, nat), DecodeError>((Version::V1, 4)));
    }
    if m >= 52 {
        lemma_cut(s, m, 20, 52);
    }
    if m >= 84 {
        lemma_cut(s, m, 84, 84);
        lemma_pending_cut(v.pending_prekey, t5, m - 84);
        let m2 = m - 84 - pp.len();
        if m2 >= 0 {
            let cut = t5.take(m2);
            lemma_skip(t, 84, pp.len() as int);
            assert(t.skip((84 + pp.len()) as int) == cut);
            lemma_cut_concat(be_bytes(n, 8), t6, m2);
            if m2 >= 8 {
                lemma_split(be_bytes(n, 8), t6.take(m2 - 8));
                lemma_states_cut(st, m2 - 8);
            }
        }
    }
}

/// A session state that was read has keys of the right lengths.
pub proof fn lemma_dec_session_state_wf(s: Seq<u8>)
    ensures
        spec_dec_session_state(s) matches Some(found) ==> found.0.wf() && 200 <= found.1 <= s.len(),
{
    reveal(spec_dec_session_state);
    if let Some((v, used)) = spec_dec_session_state(s) {
        let nr = be_value(s.subrange(16, 24));
        let a: int = (24 + 68 * nr) as int;
        let nm = be_value(s.subrange(a + 168, a + 176));
        let b: int = a + 176;
        lemma_be_bytes_of_value(s.subrange(16, 24));
        lemma_be_bytes_of_value(s.subrange(a + 168, a + 176));
        lemma_radix_values();
        assert forall|i: int| 0 <= i < v.recv_chains.len() implies (#[trigger] v.recv_chains[i]).wf() by {
            lemma_skip(s, 24, 68 * i);
        }
        assert forall|i: int| 0 <= i < v.skipped_msgkeys.len() implies (#[trigger] v.skipped_msgkeys[i]).wf() by {
            lemma_skip(s, b, 68 * i);
        }
        lemma_skip(s, a, 36);
    }
}

/// Session states that were read have keys of the right lengths.
pub proof fn lemma_dec_states_wf(s: Seq<u8>, n: nat)
    ensures
        spec_dec_states(s, n) matches Some(found) ==> found.0.len() == n && forall|i: int|
            0 <= i < found.0.len() ==> (#[trigger] found.0[i]).wf(),
    decreases n,
{
    if n > 0 {
        lemma_dec_session_state_wf(s);
        if let Some((first, used)) = spec_dec_session_state(s) {
            lemma_dec_states_wf(s.skip(used as int), (n - 1) as nat);
        }
    }
}

/// Reading gathers no more states than it read.
pub proof fn lemma_collect_len(states: Seq<SessionStateView>)
    ensures
        collect(states).dom().finite(),
        collect(states).dom().len() <= states.len(),
    decreases states.len(),
{
    if states.len() > 0 {
        lemma_collect_len(states.drop_last());
    }
}

/// A session that was read is valid.
pub proof fn lemma_dec_session_wf(ident: KeyPairView, s: Seq<u8>)
    requires
        ident.wf(),
    ensures
        spec_dec_session(ident, s) matches Ok(found) ==> found.0.wf() && found.0.local_identity == ident,
{
    if let Ok((v, used)) = spec_dec_session(ident, s) {
        let pused = spec_dec_pending(s.skip(84))->Ok_0.1;
        let rest = s.skip((84 + pused) as int);
        let n = be_value(rest.subrange(0, 8));
        let states = spec_dec_states(rest.skip(8), n)->Some_0.0;
        lemma_be_bytes_of_value(rest.subrange(0, 8));
        lemma_radix_values();
        lemma_dec_states_wf(rest.skip(8), n);
        lemma_collect(states);
        lemma_collect_len(states);
        assert forall|k: u128| #[trigger] v.session_states.dom().contains(k) implies v.session_states[k].val.wf()
            && v.session_states[k].val.session_tag == k by {
            lemma_collect_vals(states, k);
        }
    }
}

/// What reading gathered under a tag is one of the states it read.
pub proof fn lemma_collect_vals(states: Seq<SessionStateView>, k: u128)
    requires
        collect(states).dom().contains(k),
    ensures
        exists|i: int| 0 <= i < states.len() && #[trigger] states[i] == collect(states)[k].val,
    decreases states.len(),
{
    if states.len() > 0 {
        let front = states.drop_last();
        if k == states.last().session_tag {
            assert(states[states.len() - 1] == collect(states)[k].val);
        } else {
            lemma_collect_vals(front, k);
            let i = choose|i: int| 0 <= i < front.len() && #[trigger] front[i] == collect(front)[k].val;
            assert(states[i] == collect(states)[k].val);
        }
    }
}

/// Numbering the states by their tags changes nothing on the wire, and
/// numbering them again changes nothing at all.
pub proof fn lemma_renumbered(v: SessionView)
    requires
        v.wf(),
    ensures
        renumbered(v).wf(),
        spec_enc_session(renumbered(v)) == spec_enc_session(v),
        renumbered(renumbered(v)) == renumbered(v),
{
    let r = renumbered(v);
    let ks = sorted_keys(v.session_states.dom());
    lemma_sorted_keys(v.session_states.dom());
    assert(r.session_states.dom() =~= v.session_states.dom());
    assert forall|i: int| 0 <= i < ks.len() implies v.session_states.dom().contains(#[trigger] ks[i]) by {
        assert(ks.contains(ks[i]));
    }
    assert(states_in_order(r.session_states) =~= states_in_order(v.session_states));
    assert(renumbered(r).session_states =~= r.session_states);
}

/// Idempotent re-encode: a session that was read, written again and read
/// again is the session that was read first, with its states numbered by the
/// order of their tags and their number as counter; writing that gives the
/// same bytes, and reading those gives the same session, however often. So
/// where the first reading had the states numbered in the order of their
/// tags already, the second reading gives the very same session.
pub proof fn law_reencode(ident: KeyPairView, s: Seq<u8>)
    requires
        ident.wf(),
        spec_dec_session(ident, s) is Ok,
    ensures
        ({
            let first = spec_dec_session(ident, s)->Ok_0.0;
            let again = spec_enc_session(first);
            &&& spec_dec_session(ident, again) == Ok::<(SessionView, nat), DecodeSessionErrorView>(
                (renumbered(first), again.len()),
            )
            &&& spec_enc_session(renumbered(first)) == again
            &&& renumbered(renumbered(first)) == renumbered(first)
            &&& first == renumbered(first) ==> spec_dec_session(ident, again) == Ok::<
                (SessionView, nat),
                DecodeSessionErrorView,
            >((first, again.len()))
        }),
{
    let first = spec_dec_session(ident, s)->Ok_0.0;
    lemma_dec_session_wf(ident, s);
    law_round_trip(first, Seq::empty());
    assert(spec_enc_session(first) + Seq::<u8>::empty() =~= spec_enc_session(first));
    lemma_renumbered(first);
}

} // verus!
