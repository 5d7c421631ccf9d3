use session_codec::binary::{
    dec_chain_key, dec_msg_keys, dec_pending_prekey, dec_recv_chain, dec_root_key,
    dec_send_chain, dec_session, dec_session_state, dec_session_states, dec_session_version,
    decode_session, enc_chain_key, enc_msg_keys, enc_pending_prekey, enc_recv_chain,
    enc_root_key, enc_send_chain, enc_session, enc_session_state, enc_session_version,
    encode_session,
};
use session_codec::error::{DecodeError, DecodeSessionError};
use session_codec::keys::{
    CipherKey, Counter, IdentityKey, IdentityKeyPair, KeyPair, MacKey, PreKeyId, PublicKey,
    SecretKey, SessionTag,
};
use session_codec::session::{
    ChainKey, Indexed, MessageKeys, RecvChain, RootKey, SendChain, Session, SessionState, Version,
};
use session_codec::wire::{Decoder, Encoder};
use std::collections::{BTreeMap, VecDeque};

fn run32(seed: u8) -> [u8; 32] {
    let mut a = [0u8; 32];
    for i in 0..32 {
        a[i] = seed.wrapping_mul(7).wrapping_add(i as u8);
    }
    a
}

fn run64(seed: u8) -> [u8; 64] {
    let mut a = [0u8; 64];
    for i in 0..64 {
        a[i] = seed.wrapping_mul(11).wrapping_add(i as u8);
    }
    a
}

fn identity(seed: u8) -> IdentityKeyPair {
    IdentityKeyPair {
        secret_key: SecretKey { bytes: run64(seed) },
        public_key: IdentityKey { public_key: PublicKey { bytes: run32(seed) } },
    }
}

fn chain_key(seed: u8) -> ChainKey {
    ChainKey { key: MacKey { bytes: run32(seed) }, idx: Counter { value: 1000 + seed as u32 } }
}

fn recv_chain(seed: u8) -> RecvChain {
    RecvChain { chain_key: chain_key(seed), ratchet_key: PublicKey { bytes: run32(seed.wrapping_add(1)) } }
}

fn send_chain(seed: u8) -> SendChain {
    SendChain {
        chain_key: chain_key(seed),
        ratchet_key: KeyPair {
            secret_key: SecretKey { bytes: run64(seed.wrapping_add(2)) },
            public_key: PublicKey { bytes: run32(seed.wrapping_add(3)) },
        },
    }
}

fn msg_keys(seed: u8) -> MessageKeys {
    MessageKeys {
        cipher_key: CipherKey { bytes: run32(seed) },
        mac_key: MacKey { bytes: run32(seed.wrapping_add(4)) },
        counter: Counter { value: 70000 + seed as u32 },
    }
}

fn state(tag: u128, recv: usize, skipped: usize, seed: u8) -> SessionState {
    let mut recv_chains = VecDeque::new();
    for i in 0..recv {
        recv_chains.push_back(recv_chain(seed.wrapping_add(10 * (i as u8 + 1))));
    }
    let mut skipped_msgkeys = VecDeque::new();
    for i in 0..skipped {
        skipped_msgkeys.push_back(msg_keys(seed.wrapping_add(20 * (i as u8 + 1))));
    }
    SessionState {
        session_tag: SessionTag { tag },
        recv_chains,
        send_chain: send_chain(seed),
        root_key: RootKey { key: CipherKey { bytes: run32(seed.wrapping_add(5)) } },
        prev_counter: Counter { value: 5 + seed as u32 },
        skipped_msgkeys,
    }
}

fn session<'r>(
    ident: &'r IdentityKeyPair,
    pending: Option<(PreKeyId, PublicKey)>,
    states: Vec<SessionState>,
) -> Session<'r> {
    let mut session_states = BTreeMap::new();
    let mut counter = 0;
    for s in states {
        session_states.insert(s.session_tag.tag, Indexed::new(counter, s));
        counter += 1;
    }
    Session {
        version: Version::V1,
        session_tag: SessionTag { tag: 0xabcdef },
        counter,
        local_identity: ident,
        remote_identity: IdentityKey { public_key: PublicKey { bytes: run32(200) } },
        pending_prekey: pending,
        session_states,
    }
}

fn bytes_of_state(s: &SessionState) -> Vec<u8> {
    let mut e = Encoder::new();
    enc_session_state(s, &mut e);
    e.into_bytes()
}

#[test]
fn chain_key_is_key_then_counter() {
    let k = chain_key(3);
    let mut e = Encoder::new();
    enc_chain_key(&k, &mut e);
    let bytes = e.into_bytes();
    let mut expected = run32(3).to_vec();
    expected.extend_from_slice(&[0, 0, 0x03, 0xeb]);
    assert_eq!(bytes, expected);
    let mut d = Decoder::new(&bytes);
    assert_eq!(dec_chain_key(&mut d), Ok(k));
    assert_eq!(d.position(), 36);
}

#[test]
fn chains_and_keys_have_their_fixed_lengths() {
    let mut e = Encoder::new();
    enc_root_key(&RootKey { key: CipherKey { bytes: run32(1) } }, &mut e);
    assert_eq!(e.into_bytes().len(), 32);
    let mut e = Encoder::new();
    enc_send_chain(&send_chain(1), &mut e);
    assert_eq!(e.into_bytes().len(), 132);
    let mut e = Encoder::new();
    enc_recv_chain(&recv_chain(1), &mut e);
    assert_eq!(e.into_bytes().len(), 68);
    let mut e = Encoder::new();
    enc_msg_keys(&msg_keys(1), &mut e);
    assert_eq!(e.into_bytes().len(), 68);
}

#[test]
fn chains_and_keys_round_trip_in_sequence() {
    let mut e = Encoder::new();
    enc_root_key(&RootKey { key: CipherKey { bytes: run32(1) } }, &mut e);
    enc_send_chain(&send_chain(2), &mut e);
    enc_recv_chain(&recv_chain(3), &mut e);
    enc_msg_keys(&msg_keys(4), &mut e);
    let bytes = e.into_bytes();
    let mut d = Decoder::new(&bytes);
    assert_eq!(dec_root_key(&mut d), Ok(RootKey { key: CipherKey { bytes: run32(1) } }));
    assert_eq!(dec_send_chain(&mut d), Ok(send_chain(2)));
    assert_eq!(dec_recv_chain(&mut d), Ok(recv_chain(3)));
    assert_eq!(dec_msg_keys(&mut d), Ok(msg_keys(4)));
    assert_eq!(d.remaining_len(), 0);
    assert_eq!(dec_msg_keys(&mut d), Err(DecodeError::UnexpectedEof));
}

#[test]
fn send_chain_field_order() {
    let c = send_chain(9);
    let mut e = Encoder::new();
    enc_send_chain(&c, &mut e);
    let bytes = e.into_bytes();
    assert_eq!(&bytes[..32], &c.chain_key.key.bytes[..]);
    assert_eq!(&bytes[32..36], &c.chain_key.idx.value.to_be_bytes()[..]);
    assert_eq!(&bytes[36..100], &c.ratchet_key.secret_key.bytes[..]);
    assert_eq!(&bytes[100..], &c.ratchet_key.public_key.bytes[..]);
}

#[test]
fn message_keys_field_order() {
    let k = msg_keys(9);
    let mut e = Encoder::new();
    enc_msg_keys(&k, &mut e);
    let bytes = e.into_bytes();
    assert_eq!(&bytes[..32], &k.cipher_key.bytes[..]);
    assert_eq!(&bytes[32..64], &k.mac_key.bytes[..]);
    assert_eq!(&bytes[64..], &k.counter.value.to_be_bytes()[..]);
}

#[test]
fn truncated_chains_are_rejected() {
    let mut e = Encoder::new();
    enc_send_chain(&send_chain(2), &mut e);
    let bytes = e.into_bytes();
    for n in 0..bytes.len() {
        let mut d = Decoder::new(&bytes[..n]);
        assert_eq!(dec_send_chain(&mut d), Err(DecodeError::UnexpectedEof));
    }
    let mut e = Encoder::new();
    enc_recv_chain(&recv_chain(2), &mut e);
    let bytes = e.into_bytes();
    for n in 0..bytes.len() {
        let mut d = Decoder::new(&bytes[..n]);
        assert_eq!(dec_recv_chain(&mut d), Err(DecodeError::UnexpectedEof));
    }
}

#[test]
fn version_is_written_as_one() {
    let mut e = Encoder::new();
    enc_session_version(&Version::V1, &mut e);
    let bytes = e.into_bytes();
    assert_eq!(bytes, vec![0, 0, 0, 1]);
    let mut d = Decoder::new(&bytes);
    assert_eq!(dec_session_version(&mut d), Ok(Version::V1));
    assert_eq!(d.position(), 4);
}

#[test]
fn other_versions_are_named_in_the_failure() {
    for v in [0u32, 2, 3, 256, u32::MAX] {
        let bytes = v.to_be_bytes();
        let mut d = Decoder::new(&bytes);
        assert_eq!(dec_session_version(&mut d), Err(DecodeError::UnknownVersion(v)));
    }
    let mut d = Decoder::new(&[0, 0, 0]);
    assert_eq!(dec_session_version(&mut d), Err(DecodeError::UnexpectedEof));
}

#[test]
fn absent_pending_prekey_round_trips() {
    let mut e = Encoder::new();
    enc_pending_prekey(&None, &mut e);
    let bytes = e.into_bytes();
    assert_eq!(bytes, vec![0, 0, 0, 1]);
    let mut d = Decoder::new(&bytes);
    assert_eq!(dec_pending_prekey(&mut d), Ok(None));
}

#[test]
fn present_pending_prekey_round_trips() {
    let p = Some((PreKeyId { value: 7 }, PublicKey { bytes: run32(42) }));
    let mut e = Encoder::new();
    enc_pending_prekey(&p, &mut e);
    let bytes = e.into_bytes();
    let mut expected = vec![0, 0, 0, 2, 0, 7];
    expected.extend_from_slice(&run32(42));
    assert_eq!(bytes, expected);
    let mut d = Decoder::new(&bytes);
    assert_eq!(dec_pending_prekey(&mut d), Ok(p));
    assert_eq!(d.position(), 38);
}

#[test]
fn unknown_pending_prekey_tag_is_rejected() {
    let mut bytes = vec![0, 0, 0, 3, 0, 7];
    bytes.extend_from_slice(&run32(42));
    let mut d = Decoder::new(&bytes);
    assert_eq!(dec_pending_prekey(&mut d), Err(DecodeError::InvalidPendingPrekey(3)));
    let mut d = Decoder::new(&[0, 0, 0, 0]);
    assert_eq!(dec_pending_prekey(&mut d), Err(DecodeError::InvalidPendingPrekey(0)));
}

#[test]
fn truncated_pending_prekey_is_rejected() {
    let mut bytes = vec![0, 0, 0, 2, 0, 7];
    bytes.extend_from_slice(&run32(42));
    for n in 0..bytes.len() {
        let mut d = Decoder::new(&bytes[..n]);
        assert_eq!(dec_pending_prekey(&mut d), Err(DecodeError::UnexpectedEof));
    }
}

#[test]
fn empty_state_round_trips_to_empty_sequences() {
    let s = state(77, 0, 0, 1);
    let bytes = bytes_of_state(&s);
    assert_eq!(bytes.len(), 200);
    assert_eq!(&bytes[16..24], &[0u8; 8][..]);
    assert_eq!(&bytes[192..200], &[0u8; 8][..]);
    let mut d = Decoder::new(&bytes);
    let back = dec_session_state(&mut d).unwrap();
    assert!(back.recv_chains.is_empty());
    assert!(back.skipped_msgkeys.is_empty());
    assert_eq!(back, s);
}

#[test]
fn state_with_chains_and_keys_round_trips_in_order() {
    let s = state(78, 3, 2, 1);
    let bytes = bytes_of_state(&s);
    assert_eq!(bytes.len(), 200 + 68 * 5);
    assert_eq!(&bytes[16..24], &[0u8, 0, 0, 0, 0, 0, 0, 3][..]);
    let mut d = Decoder::new(&bytes);
    let back = dec_session_state(&mut d).unwrap();
    assert_eq!(d.remaining_len(), 0);
    assert_eq!(back.recv_chains.len(), 3);
    assert_eq!(back.skipped_msgkeys.len(), 2);
    for i in 0..3 {
        assert_eq!(back.recv_chains[i], s.recv_chains[i]);
    }
    for i in 0..2 {
        assert_eq!(back.skipped_msgkeys[i], s.skipped_msgkeys[i]);
    }
    assert_eq!(back, s);
}

#[test]
fn state_layout_is_tag_chains_send_root_counter_keys() {
    let s = state(0x0102, 1, 1, 4);
    let bytes = bytes_of_state(&s);
    let mut expected = Vec::new();
    expected.extend_from_slice(&0x0102u128.to_be_bytes());
    expected.extend_from_slice(&1u64.to_be_bytes());
    let mut e = Encoder::new();
    enc_recv_chain(&s.recv_chains[0], &mut e);
    enc_send_chain(&s.send_chain, &mut e);
    enc_root_key(&s.root_key, &mut e);
    expected.extend(e.into_bytes());
    expected.extend_from_slice(&s.prev_counter.value.to_be_bytes());
    expected.extend_from_slice(&1u64.to_be_bytes());
    let mut e = Encoder::new();
    enc_msg_keys(&s.skipped_msgkeys[0], &mut e);
    expected.extend(e.into_bytes());
    assert_eq!(bytes, expected);
}

#[test]
fn truncated_state_is_rejected() {
    let s = state(78, 3, 2, 1);
    let bytes = bytes_of_state(&s);
    for n in 0..bytes.len() {
        let mut d = Decoder::new(&bytes[..n]);
        assert_eq!(dec_session_state(&mut d), Err(DecodeError::UnexpectedEof));
    }
}

#[test]
fn a_state_leaves_what_follows_it() {
    let s = state(78, 1, 1, 1);
    let mut bytes = bytes_of_state(&s);
    bytes.extend_from_slice(&[1, 2, 3]);
    let mut d = Decoder::new(&bytes);
    assert_eq!(dec_session_state(&mut d), Ok(s));
    assert_eq!(d.remaining_len(), 3);
}

#[test]
fn a_huge_claimed_count_fails_without_reading_further() {
    let s = state(78, 0, 0, 1);
    let mut bytes = bytes_of_state(&s);
    bytes[16..24].copy_from_slice(&u64::MAX.to_be_bytes());
    let mut d = Decoder::new(&bytes);
    assert_eq!(dec_session_state(&mut d), Err(DecodeError::UnexpectedEof));
    let mut bytes = bytes_of_state(&s);
    bytes[192..200].copy_from_slice(&(1u64 << 62).to_be_bytes());
    let mut d = Decoder::new(&bytes);
    assert_eq!(dec_session_state(&mut d), Err(DecodeError::UnexpectedEof));
}

#[test]
fn session_layout() {
    let me = identity(1);
    let s = session(&me, None, vec![state(5, 1, 0, 1)]);
    let bytes = encode_session(&s);
    let mut expected = vec![0, 0, 0, 1];
    expected.extend_from_slice(&0xabcdefu128.to_be_bytes());
    expected.extend_from_slice(&me.public_key.public_key.bytes);
    expected.extend_from_slice(&run32(200));
    expected.extend_from_slice(&[0, 0, 0, 1]);
    expected.extend_from_slice(&1u64.to_be_bytes());
    expected.extend(bytes_of_state(&state(5, 1, 0, 1)));
    assert_eq!(bytes, expected);
}

#[test]
fn session_without_states_round_trips() {
    let me = identity(1);
    let s = session(&me, None, vec![]);
    let bytes = encode_session(&s);
    assert_eq!(bytes.len(), 4 + 16 + 32 + 32 + 4 + 8);
    let back = decode_session(&me, &bytes).unwrap();
    assert_eq!(back, s);
    assert_eq!(back.counter, 0);
}

#[test]
fn session_round_trips_with_indices_in_stream_order() {
    let me = identity(1);
    let pending = Some((PreKeyId { value: 7 }, PublicKey { bytes: run32(42) }));
    let s = session(&me, pending, vec![state(30, 3, 2, 1), state(10, 0, 0, 2), state(20, 1, 4, 3)]);
    assert_eq!(s.session_states[&30].idx, 0);
    let bytes = encode_session(&s);
    let back = decode_session(&me, &bytes).unwrap();
    assert_eq!(back.version, s.version);
    assert_eq!(back.session_tag, s.session_tag);
    assert_eq!(back.local_identity, s.local_identity);
    assert_eq!(back.remote_identity, s.remote_identity);
    assert_eq!(back.pending_prekey, pending);
    assert_eq!(back.counter, 3);
    assert_eq!(back.session_states.len(), 3);
    assert_eq!(back.session_states[&10], Indexed::new(0, state(10, 0, 0, 2)));
    assert_eq!(back.session_states[&20], Indexed::new(1, state(20, 1, 4, 3)));
    assert_eq!(back.session_states[&30], Indexed::new(2, state(30, 3, 2, 1)));
}

#[test]
fn states_are_written_by_ascending_tag() {
    let me = identity(1);
    let s = session(&me, None, vec![state(u128::MAX, 0, 0, 1), state(0, 0, 0, 2), state(1 << 64, 0, 0, 3)]);
    let bytes = encode_session(&s);
    let mut expected = bytes[..96].to_vec();
    expected[88..96].copy_from_slice(&3u64.to_be_bytes());
    expected.extend(bytes_of_state(&state(0, 0, 0, 2)));
    expected.extend(bytes_of_state(&state(1 << 64, 0, 0, 3)));
    expected.extend(bytes_of_state(&state(u128::MAX, 0, 0, 1)));
    assert_eq!(bytes, expected);
}

#[test]
fn version_two_is_rejected() {
    let me = identity(1);
    let s = session(&me, None, vec![state(5, 1, 1, 1)]);
    let mut bytes = encode_session(&s);
    bytes[3] = 2;
    assert_eq!(decode_session(&me, &bytes), Err(DecodeSessionError::Other(DecodeError::UnknownVersion(2))));
    bytes[0] = 0x80;
    assert_eq!(
        decode_session(&me, &bytes),
        Err(DecodeSessionError::Other(DecodeError::UnknownVersion(0x8000_0002)))
    );
}

#[test]
fn another_identity_is_told_the_stored_key() {
    let a = identity(1);
    let b = identity(2);
    let s = session(&a, None, vec![state(5, 1, 1, 1)]);
    let bytes = encode_session(&s);
    assert_eq!(decode_session(&b, &bytes), Err(DecodeSessionError::LocalIdentityChanged(a.public_key)));
    assert!(decode_session(&a, &bytes).is_ok());
}

#[test]
fn identity_is_checked_before_the_rest_is_read() {
    let a = identity(1);
    let b = identity(2);
    let s = session(&a, None, vec![]);
    let bytes = encode_session(&s);
    assert_eq!(
        decode_session(&b, &bytes[..52]),
        Err(DecodeSessionError::LocalIdentityChanged(a.public_key))
    );
    assert_eq!(
        decode_session(&b, &bytes[..51]),
        Err(DecodeSessionError::Other(DecodeError::UnexpectedEof))
    );
}

#[test]
fn version_is_checked_before_identity() {
    let a = identity(1);
    let b = identity(2);
    let s = session(&a, None, vec![]);
    let mut bytes = encode_session(&s);
    bytes[3] = 9;
    assert_eq!(decode_session(&b, &bytes), Err(DecodeSessionError::Other(DecodeError::UnknownVersion(9))));
}

#[test]
fn pending_prekey_round_trips_inside_a_session() {
    let me = identity(3);
    let absent = session(&me, None, vec![state(1, 0, 0, 1)]);
    let back = decode_session(&me, &encode_session(&absent)).unwrap();
    assert_eq!(back.pending_prekey, None);
    let pending = Some((PreKeyId { value: 7 }, PublicKey { bytes: run32(9) }));
    let present = session(&me, pending, vec![state(1, 0, 0, 1)]);
    let bytes = encode_session(&present);
    assert_eq!(&bytes[84..90], &[0u8, 0, 0, 2, 0, 7][..]);
    let back = decode_session(&me, &bytes).unwrap();
    assert_eq!(back.pending_prekey, pending);
    assert_eq!(back, present);
}

#[test]
fn pending_prekey_tag_three_is_rejected() {
    let me = identity(3);
    let s = session(&me, None, vec![state(1, 0, 0, 1)]);
    let mut bytes = encode_session(&s);
    bytes[87] = 3;
    assert_eq!(
        decode_session(&me, &bytes),
        Err(DecodeSessionError::Other(DecodeError::InvalidPendingPrekey(3)))
    );
}

#[test]
fn every_truncation_is_an_unexpected_end() {
    let me = identity(1);
    let pending = Some((PreKeyId { value: 7 }, PublicKey { bytes: run32(42) }));
    let s = session(&me, pending, vec![state(30, 3, 2, 1), state(10, 0, 0, 2)]);
    let bytes = encode_session(&s);
    for n in 0..bytes.len() {
        assert_eq!(
            decode_session(&me, &bytes[..n]),
            Err(DecodeSessionError::Other(DecodeError::UnexpectedEof)),
            "cut at {}",
            n
        );
    }
    assert!(decode_session(&me, &bytes).is_ok());
}

#[test]
fn a_huge_state_count_is_an_unexpected_end() {
    let me = identity(1);
    let s = session(&me, None, vec![state(30, 0, 0, 1)]);
    let mut bytes = encode_session(&s);
    bytes[88..96].copy_from_slice(&u64::MAX.to_be_bytes());
    assert_eq!(decode_session(&me, &bytes), Err(DecodeSessionError::Other(DecodeError::UnexpectedEof)));
}

#[test]
fn encoding_again_gives_the_same_session() {
    let me = identity(1);
    let s = session(&me, None, vec![state(30, 3, 2, 1), state(10, 0, 0, 2), state(20, 1, 1, 3)]);
    let first = decode_session(&me, &encode_session(&s)).unwrap();
    let again = encode_session(&first);
    assert_eq!(again, encode_session(&s));
    let second = decode_session(&me, &again).unwrap();
    assert_eq!(second, first);
}

#[test]
fn a_repeated_tag_keeps_the_later_state() {
    let me = identity(1);
    let s = session(&me, None, vec![]);
    let mut bytes = encode_session(&s);
    bytes[88..96].copy_from_slice(&3u64.to_be_bytes());
    bytes.extend(bytes_of_state(&state(9, 1, 0, 1)));
    bytes.extend(bytes_of_state(&state(4, 0, 0, 2)));
    bytes.extend(bytes_of_state(&state(9, 0, 2, 3)));
    let back = decode_session(&me, &bytes).unwrap();
    assert_eq!(back.counter, 3);
    assert_eq!(back.session_states.len(), 2);
    assert_eq!(back.session_states[&9], Indexed::new(2, state(9, 0, 2, 3)));
    assert_eq!(back.session_states[&4], Indexed::new(1, state(4, 0, 0, 2)));
}

#[test]
fn states_out_of_order_keep_their_stream_index() {
    let me = identity(1);
    let s = session(&me, None, vec![]);
    let mut bytes = encode_session(&s);
    bytes[88..96].copy_from_slice(&2u64.to_be_bytes());
    bytes.extend(bytes_of_state(&state(9, 0, 0, 1)));
    bytes.extend(bytes_of_state(&state(4, 0, 0, 2)));
    let first = decode_session(&me, &bytes).unwrap();
    assert_eq!(first.session_states[&9].idx, 0);
    assert_eq!(first.session_states[&4].idx, 1);
    let second = decode_session(&me, &encode_session(&first)).unwrap();
    assert_eq!(second.session_states[&4].idx, 0);
    assert_eq!(second.session_states[&9].idx, 1);
}

#[test]
fn dec_session_leaves_what_follows() {
    let me = identity(1);
    let s = session(&me, None, vec![state(30, 1, 1, 1)]);
    let mut e = Encoder::new();
    e.put_u16(0xaaaa);
    enc_session(&s, &mut e);
    e.put_u16(0xbbbb);
    let bytes = e.into_bytes();
    let mut d = Decoder::new(&bytes);
    assert_eq!(d.get_u16(), Ok(0xaaaa));
    assert_eq!(dec_session(&me, &mut d), Ok(s));
    assert_eq!(d.get_u16(), Ok(0xbbbb));
    assert_eq!(d.remaining_len(), 0);
}

#[test]
fn dec_session_states_counts_what_it_read() {
    let mut bytes = bytes_of_state(&state(3, 0, 0, 1));
    bytes.extend(bytes_of_state(&state(2, 1, 0, 2)));
    let mut d = Decoder::new(&bytes);
    let (found, n) = dec_session_states(&mut d, 2).unwrap();
    assert_eq!(n, 2);
    assert_eq!(found[&3].idx, 0);
    assert_eq!(found[&2].idx, 1);
    let mut d = Decoder::new(&bytes);
    assert_eq!(dec_session_states(&mut d, 3), Err(DecodeError::UnexpectedEof));
    let mut d = Decoder::new(&bytes);
    let (found, n) = dec_session_states(&mut d, 0).unwrap();
    assert_eq!(n, 0);
    assert!(found.is_empty());
    assert_eq!(d.position(), 0);
}

#[test]
fn the_cause_of_a_failure() {
    let changed = DecodeSessionError::LocalIdentityChanged(identity(1).public_key);
    assert_eq!(changed.cause(), None);
    let other = DecodeSessionError::Other(DecodeError::UnknownVersion(4));
    assert_eq!(other.cause(), Some(&DecodeError::UnknownVersion(4)));
    assert_eq!(DecodeSessionError::from(DecodeError::UnexpectedEof), DecodeSessionError::Other(DecodeError::UnexpectedEof));
}

#[test]
fn failures_in_words() {
    assert_eq!(DecodeError::UnexpectedEof.message(), "Unexpected end of input");
    assert_eq!(DecodeError::UnknownVersion(2).message(), "Unknown session version 2");
    assert_eq!(DecodeError::UnknownVersion(0).message(), "Unknown session version 0");
    assert_eq!(DecodeError::UnknownVersion(10).message(), "Unknown session version 10");
    assert_eq!(DecodeError::UnknownVersion(u32::MAX).message(), "Unknown session version 4294967295");
    assert_eq!(DecodeError::InvalidPendingPrekey(3).message(), "Invalid pending prekeys");
    assert_eq!(
        DecodeSessionError::LocalIdentityChanged(identity(1).public_key).message(),
        "DecodeSessionError: local identity changed"
    );
    assert_eq!(
        DecodeSessionError::Other(DecodeError::UnknownVersion(77)).message(),
        "DecodeSessionError: Unknown session version 77"
    );
}

#[test]
fn a_rejected_version_is_named_in_the_message() {
    let me = identity(1);
    let s = session(&me, None, vec![state(5, 1, 1, 1)]);
    let mut bytes = encode_session(&s);
    bytes[3] = 2;
    let e = decode_session(&me, &bytes).unwrap_err();
    assert_eq!(e.message(), "DecodeSessionError: Unknown session version 2");
}
