//! Key material and the small values that travel with it, each with its
//! fixed-length encoding.

use crate::error::DecodeError;
use crate::wire::{be_bytes, be_value, read_outcome, Decoder, Encoder};
use vstd::prelude::*;

verus! {

pub const KEY_LEN: usize = 32;

pub const SECRET_KEY_LEN: usize = 64;

/// Whether two byte strings of one length hold the same bytes.
pub fn same_bytes<const N: usize>(a: &[u8; N], b: &[u8; N]) -> (r: bool)
    ensures
        r == (a@ == b@),
{
    let mut i: usize = 0;
    while i < N
        invariant
            i <= N,
            a@.take(i as int) == b@.take(i as int),
        decreases N - i,
    {
        if a[i] != b[i] {
            assert(a@[i as int] != b@[i as int]);
            return false;
        }
        assert(a@.take(i + 1) =~= a@.take(i as int).push(a@[i as int]));
        assert(b@.take(i + 1) =~= b@.take(i as int).push(b@[i as int]));
        i = i + 1;
    }
    assert(a@.take(N as int) =~= a@);
    assert(b@.take(N as int) =~= b@);
    true
}

/// A symmetric key for encryption.
#[derive(Clone, Copy, Debug, PartialEq, Eq)]
pub struct CipherKey {
    pub bytes: [u8; 32],
}

impl View for CipherKey {
    type V = Seq<u8>;

    open spec fn view(&self) -> Seq<u8> {
        self.bytes@
    }
}

/// A symmetric key for message authentication.
#[derive(Clone, Copy, Debug, PartialEq, Eq)]
pub struct MacKey {
    pub bytes: [u8; 32],
}

impl View for MacKey {
    type V = Seq<u8>;

    open spec fn view(&self) -> Seq<u8> {
        self.bytes@
    }
}

/// The public half of a key-exchange keypair.
#[derive(Clone, Copy, Debug, PartialEq, Eq)]
pub struct PublicKey {
    pub bytes: [u8; 32],
}

impl View for PublicKey {
    type V = Seq<u8>;

    open spec fn view(&self) -> Seq<u8> {
        self.bytes@
    }
}

/// The private half of a key-exchange keypair.
#[derive(Clone, Copy, Debug, PartialEq, Eq)]
pub struct SecretKey {
    pub bytes: [u8; 64],
}

impl View for SecretKey {
    type V = Seq<u8>;

    open spec fn view(&self) -> Seq<u8> {
        self.bytes@
    }
}

/// A key-exchange keypair.
#[derive(Clone, Copy, Debug, PartialEq, Eq)]
pub struct KeyPair {
    pub secret_key: SecretKey,
    pub public_key: PublicKey,
}

/// A keypair as two byte strings.
pub struct KeyPairView {
    pub secret_key: Seq<u8>,
    pub public_key: Seq<u8>,
}

impl KeyPairView {
    /// Both halves have their length.
    pub open spec fn wf(self) -> bool {
        self.secret_key.len() == SECRET_KEY_LEN && self.public_key.len() == KEY_LEN
    }
}

impl View for KeyPair {
    type V = KeyPairView;

    open spec fn view(&self) -> KeyPairView {
        KeyPairView { secret_key: self.secret_key@, public_key: self.public_key@ }
    }
}

/// The long-term public key that identifies a party.
#[derive(Clone, Copy, Debug, PartialEq, Eq)]
pub struct IdentityKey {
    pub public_key: PublicKey,
}

impl View for IdentityKey {
    type V = Seq<u8>;

    open spec fn view(&self) -> Seq<u8> {
        self.public_key@
    }
}

impl IdentityKey {
    /// Whether `other` is the same identity.
    pub fn same_as(&self, other: &IdentityKey) -> (r: bool)
        ensures
            r == (self@ == other@),
    {
        same_bytes(&self.public_key.bytes, &other.public_key.bytes)
    }
}

/// A party's long-term keypair.
#[derive(Clone, Copy, Debug, PartialEq, Eq)]
pub struct IdentityKeyPair {
    pub secret_key: SecretKey,
    pub public_key: IdentityKey,
}

impl View for IdentityKeyPair {
    type V = KeyPairView;

    open spec fn view(&self) -> KeyPairView {
        KeyPairView { secret_key: self.secret_key@, public_key: self.public_key@ }
    }
}

/// A position in a ratchet chain.
#[derive(Clone, Copy, Debug, PartialEq, Eq)]
pub struct Counter {
    pub value: u32,
}

impl View for Counter {
    type V = u32;

    open spec fn view(&self) -> u32 {
        self.value
    }
}

/// The number of a one-time prekey.
#[derive(Clone, Copy, Debug, PartialEq, Eq)]
pub struct PreKeyId {
    pub value: u16,
}

impl View for PreKeyId {
    type V = u16;

    open spec fn view(&self) -> u16 {
        self.value
    }
}

/// Tells the states of one conversation apart. Tags are ordered as numbers,
/// which is the order of their sixteen bytes read left to right.
#[derive(Clone, Copy, Debug, PartialEq, Eq)]
pub struct SessionTag {
    pub tag: u128,
}

impl View for SessionTag {
    type V = u128;

    open spec fn view(&self) -> u128 {
        self.tag
    }
}

/// A keypair on the wire: the private half, then the public half.
pub open spec fn spec_enc_keypair(k: KeyPairView) -> Seq<u8> {
    k.secret_key + k.public_key
}

/// The keypair at the front of `s`.
pub open spec fn spec_dec_keypair(s: Seq<u8>) -> KeyPairView {
    KeyPairView { secret_key: s.subrange(0, 64), public_key: s.subrange(64, 96) }
}

/// Writes a cipher key: thirty-two bytes as they are.
pub fn enc_cipher_key(k: &CipherKey, e: &mut Encoder)
    ensures
        final(e)@ == old(e)@ + k@,
{
    e.put_array(&k.bytes);
}

/// Reads a cipher key.
pub fn dec_cipher_key(d: &mut Decoder) -> (r: Result<CipherKey, DecodeError>)
    ensures
        final(d).input() == old(d).input(),
        read_outcome(old(d).remaining(), final(d).remaining(), r, 32, old(d).remaining().take(32)),
{
    match d.get_array::<32>() {
        Ok(bytes) => Ok(CipherKey { bytes }),
        Err(e) => Err(e),
    }
}

/// Writes a MAC key: thirty-two bytes as they are.
pub fn enc_mac_key(k: &MacKey, e: &mut Encoder)
    ensures
        final(e)@ == old(e)@ + k@,
{
    e.put_array(&k.bytes);
}

/// Reads a MAC key.
pub fn dec_mac_key(d: &mut Decoder) -> (r: Result<MacKey, DecodeError>)
    ensures
        final(d).input() == old(d).input(),
        read_outcome(old(d).remaining(), final(d).remaining(), r, 32, old(d).remaining().take(32)),
{
    match d.get_array::<32>() {
        Ok(bytes) => Ok(MacKey { bytes }),
        Err(e) => Err(e),
    }
}

/// Writes a public key: thirty-two bytes as they are.
pub fn enc_public_key(k: &PublicKey, e: &mut Encoder)
    ensures
        final(e)@ == old(e)@ + k@,
{
    e.put_array(&k.bytes);
}

/// Reads a public key.
pub fn dec_public_key(d: &mut Decoder) -> (r: Result<PublicKey, DecodeError>)
    ensures
        final(d).input() == old(d).input(),
        read_outcome(old(d).remaining(), final(d).remaining(), r, 32, old(d).remaining().take(32)),
{
    match d.get_array::<32>() {
        Ok(bytes) => Ok(PublicKey { bytes }),
        Err(e) => Err(e),
    }
}

/// Writes a secret key: sixty-four bytes as they are.
pub fn enc_secret_key(k: &SecretKey, e: &mut Encoder)
    ensures
        final(e)@ == old(e)@ + k@,
{
    e.put_array(&k.bytes);
}

/// Reads a secret key.
pub fn dec_secret_key(d: &mut Decoder) -> (r: Result<SecretKey, DecodeError>)
    ensures
        final(d).input() == old(d).input(),
        read_outcome(old(d).remaining(), final(d).remaining(), r, 64, old(d).remaining().take(64)),
{
    match d.get_array::<64>() {
        Ok(bytes) => Ok(SecretKey { bytes }),
        Err(e) => Err(e),
    }
}

/// Writes an identity key: the thirty-two bytes of its public key.
pub fn enc_identity_key(k: &IdentityKey, e: &mut Encoder)
    ensures
        final(e)@ == old(e)@ + k@,
{
    enc_public_key(&k.public_key, e);
}

/// Reads an identity key.
pub fn dec_identity_key(d: &mut Decoder) -> (r: Result<IdentityKey, DecodeError>)
    ensures
        final(d).input() == old(d).input(),
        read_outcome(old(d).remaining(), final(d).remaining(), r, 32, old(d).remaining().take(32)),
{
    match dec_public_key(d) {
        Ok(public_key) => Ok(IdentityKey { public_key }),
        Err(e) => Err(e),
    }
}

/// Writes a keypair: the private half, then the public half.
pub fn enc_keypair(k: &KeyPair, e: &mut Encoder)
    ensures
        final(e)@ == old(e)@ + spec_enc_keypair(k@),
{
    enc_secret_key(&k.secret_key, e);
    enc_public_key(&k.public_key, e);
    assert(e@ =~= old(e)@ + spec_enc_keypair(k@));
}

/// Reads a keypair.
pub fn dec_keypair(d: &mut Decoder) -> (r: Result<KeyPair, DecodeError>)
    ensures
        final(d).input() == old(d).input(),
        read_outcome(old(d).remaining(), final(d).remaining(), r, 96, spec_dec_keypair(old(d).remaining())),
{
    let ghost all = d.remaining();
    let secret_key = dec_secret_key(d)?;
    let public_key = dec_public_key(d)?;
    proof {
        assert(all.take(64) =~= all.subrange(0, 64));
        assert(all.skip(64).take(32) =~= all.subrange(64, 96));
        assert(all.skip(64).skip(32) =~= all.skip(96));
    }
    Ok(KeyPair { secret_key, public_key })
}

/// Writes a counter: four bytes, most significant first.
pub fn enc_counter(c: &Counter, e: &mut Encoder)
    ensures
        final(e)@ == old(e)@ + be_bytes(c@ as nat, 4),
{
    e.put_u32(c.value);
}

/// Reads a counter.
pub fn dec_counter(d: &mut Decoder) -> (r: Result<Counter, DecodeError>)
    ensures
        final(d).input() == old(d).input(),
        read_outcome(
            old(d).remaining(),
            final(d).remaining(),
            r,
            4,
            be_value(old(d).remaining().take(4)) as u32,
        ),
{
    match d.get_u32() {
        Ok(value) => Ok(Counter { value }),
        Err(e) => Err(e),
    }
}

/// Writes a prekey's number: two bytes, most significant first.
pub fn enc_prekey_id(i: &PreKeyId, e: &mut Encoder)
    ensures
        final(e)@ == old(e)@ + be_bytes(i@ as nat, 2),
{
    e.put_u16(i.value);
}

/// Reads a prekey's number.
pub fn dec_prekey_id(d: &mut Decoder) -> (r: Result<PreKeyId, DecodeError>)
    ensures
        final(d).input() == old(d).input(),
        read_outcome(
            old(d).remaining(),
            final(d).remaining(),
            r,
            2,
            be_value(old(d).remaining().take(2)) as u16,
        ),
{
    match d.get_u16() {
        Ok(value) => Ok(PreKeyId { value }),
        Err(e) => Err(e),
    }
}

/// Writes a session tag: sixteen bytes, most significant first.
pub fn enc_session_tag(t: &SessionTag, e: &mut Encoder)
    ensures
        final(e)@ == old(e)@ + be_bytes(t@ as nat, 16),
{
    e.put_u128(t.tag);
}

/// Reads a session tag.
pub fn dec_session_tag(d: &mut Decoder) -> (r: Result<SessionTag, DecodeError>)
    ensures
        final(d).input() == old(d).input(),
        read_outcome(
            old(d).remaining(),
            final(d).remaining(),
            r,
            16,
            be_value(old(d).remaining().take(16)) as u128,
        ),
{
    match d.get_u128() {
        Ok(tag) => Ok(SessionTag { tag }),
        Err(e) => Err(e),
    }
}

} // verus!
