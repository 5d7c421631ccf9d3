//! Byte sink, byte source and the big-endian integer encoding.

use bincode::rustc_serialize::{DecoderReader, DecodingError, EncoderWriter};
use bincode::SizeLimit;
use rustc_serialize::{Decodable, Encodable};
use crate::error::DecodeError;
use vstd::prelude::*;
use vstd::slice::slice_subrange;

verus! {

/// `256^n`: the number of values that `n` bytes can hold.
pub open spec fn radix(n: nat) -> nat
    decreases n,
{
    if n == 0 {
        1
    } else {
        256 * radix((n - 1) as nat)
    }
}

/// The `n` low-order bytes of `v`, most significant first.
pub open spec fn be_bytes(v: nat, n: nat) -> Seq<u8>
    decreases n,
{
    if n == 0 {
        Seq::empty()
    } else {
        be_bytes(v / 256, (n - 1) as nat).push((v % 256) as u8)
    }
}

/// The number that `s` spells, most significant byte first.
pub open spec fn be_value(s: Seq<u8>) -> nat
    decreases s.len(),
{
    if s.len() == 0 {
        0
    } else {
        be_value(s.drop_last()) * 256 + s.last() as nat
    }
}

/// The values of `radix` at the widths in use.
pub proof fn lemma_radix_values()
    ensures
        radix(0) == 1,
        radix(1) == 0x100,
        radix(2) == 0x1_0000,
        radix(4) == 0x1_0000_0000,
        radix(8) == 0x1_0000_0000_0000_0000,
        radix(16) == 0x1_0000_0000_0000_0000_0000_0000_0000_0000,
{
    reveal_with_fuel(radix, 17);
}

/// `radix` is positive and grows with its argument.
pub proof fn lemma_radix_grows(a: nat, b: nat)
    requires
        a <= b,
    ensures
        0 < radix(a) <= radix(b),
    decreases b,
{
    if b > 0 {
        if a < b {
            lemma_radix_grows(a, (b - 1) as nat);
        } else {
            lemma_radix_grows((a - 1) as nat, (b - 1) as nat);
        }
    }
}

/// A number written in `n` bytes is `n` bytes long.
pub proof fn lemma_be_bytes_len(v: nat, n: nat)
    ensures
        be_bytes(v, n).len() == n,
    decreases n,
{
    if n > 0 {
        lemma_be_bytes_len(v / 256, (n - 1) as nat);
    }
}

/// Decoding what was encoded gives the number back, when it fits in `n` bytes.
pub proof fn lemma_be_value_of_bytes(v: nat, n: nat)
    requires
        v < radix(n),
    ensures
        be_value(be_bytes(v, n)) == v,
    decreases n,
{
    if n > 0 {
        let head = be_bytes(v / 256, (n - 1) as nat);
        lemma_be_value_of_bytes(v / 256, (n - 1) as nat);
        assert(head.push((v % 256) as u8).drop_last() =~= head);
    }
}

/// Encoding what was decoded gives the bytes back, and the number fits.
pub proof fn lemma_be_bytes_of_value(s: Seq<u8>)
    ensures
        be_value(s) < radix(s.len()),
        be_bytes(be_value(s), s.len()) == s,
    decreases s.len(),
{
    if s.len() > 0 {
        lemma_be_bytes_of_value(s.drop_last());
        let hi = be_value(s.drop_last());
        let lo = s.last() as nat;
        assert((hi * 256 + lo) / 256 == hi);
        assert((hi * 256 + lo) % 256 == lo);
        assert(s.drop_last().push(s.last()) =~= s);
    } else {
        assert(be_bytes(0, 0) =~= s);
    }
}

/// bincode's decoding failure. Nothing is read from it: a failed read of a
/// number is reported as the end of the source.
#[verifier::external_type_specification]
#[verifier::external_body]
pub struct ExDecodingError(DecodingError);

/// `rustc_serialize::Encodable::encode` of a `u32` into bincode's
/// `EncoderWriter` over a vector: appends the four bytes of `v`, most
/// significant first, and nothing else. A vector accepts every write, so the
/// encoder's result is always `Ok` and is not looked at.
#[verifier::external_body]
fn emit_u32(out: &mut Vec<u8>, v: u32)
    ensures
        final(out)@ == old(out)@ + be_bytes(v as nat, 4),
{
    let mut e = EncoderWriter::new(out);
    let _ = Encodable::encode(&v, &mut e);
}

/// `rustc_serialize::Decodable::decode` of a `u32` from bincode's
/// `DecoderReader` over a slice, without a size limit: succeeds exactly when
/// the slice holds at least four bytes, and then gives the number that the
/// first four bytes spell, most significant first.
#[verifier::external_body]
fn read_u32(src: &[u8]) -> (r: Result<u32, DecodingError>)
    ensures
        r is Ok <==> src@.len() >= 4,
        r matches Ok(v) ==> v as nat == be_value(src@.take(4)),
{
    let mut rest = src;
    let mut d = DecoderReader::new(&mut rest, SizeLimit::Infinite);
    Decodable::decode(&mut d)
}

/// `rustc_serialize::Encodable::encode` of a `u16` into bincode's
/// `EncoderWriter` over a vector: appends the two bytes of `v`, most
/// significant first, and nothing else. A vector accepts every write, so the
/// encoder's result is always `Ok` and is not looked at.
#[verifier::external_body]
fn emit_u16(out: &mut Vec<u8>, v: u16)
    ensures
        final(out)@ == old(out)@ + be_bytes(v as nat, 2),
{
    let mut e = EncoderWriter::new(out);
    let _ = Encodable::encode(&v, &mut e);
}

/// `rustc_serialize::Decodable::decode` of a `u16` from bincode's
/// `DecoderReader` over a slice, without a size limit: succeeds exactly when
/// the slice holds at least two bytes, and then gives the number that the
/// first two bytes spell, most significant first.
#[verifier::external_body]
fn read_u16(src: &[u8]) -> (r: Result<u16, DecodingError>)
    ensures
        r is Ok <==> src@.len() >= 2,
        r matches Ok(v) ==> v as nat == be_value(src@.take(2)),
{
    let mut rest = src;
    let mut d = DecoderReader::new(&mut rest, SizeLimit::Infinite);
    Decodable::decode(&mut d)
}

/// `rustc_serialize::Encodable::encode` of a `u64` into bincode's
/// `EncoderWriter` over a vector: appends the eight bytes of `v`, most
/// significant first, and nothing else. A vector accepts every write, so the
/// encoder's result is always `Ok` and is not looked at.
#[verifier::external_body]
fn emit_u64(out: &mut Vec<u8>, v: u64)
    ensures
        final(out)@ == old(out)@ + be_bytes(v as nat, 8),
{
    let mut e = EncoderWriter::new(out);
    let _ = Encodable::encode(&v, &mut e);
}

/// `rustc_serialize::Decodable::decode` of a `u64` from bincode's
/// `DecoderReader` over a slice, without a size limit: succeeds exactly when
/// the slice holds at least eight bytes, and then gives the number that the
/// first eight bytes spell, most significant first.
#[verifier::external_body]
fn read_u64(src: &[u8]) -> (r: Result<u64, DecodingError>)
    ensures
        r is Ok <==> src@.len() >= 8,
        r matches Ok(v) ==> v as nat == be_value(src@.take(8)),
{
    let mut rest = src;
    let mut d = DecoderReader::new(&mut rest, SizeLimit::Infinite);
    Decodable::decode(&mut d)
}

/// What a read of a value of `len` bytes off the front of `before` comes to:
/// the value and the rest when there are that many bytes, else the end of
/// the source.
pub open spec fn read_outcome<T: View>(
    before: Seq<u8>,
    after: Seq<u8>,
    r: Result<T, DecodeError>,
    len: nat,
    value: T::V,
) -> bool {
    match r {
        Ok(v) => before.len() >= len && v@ == value && after == before.skip(len as int),
        Err(e) => before.len() < len && e == DecodeError::UnexpectedEof,
    }
}

/// What a read off the front of `before` comes to, where `parsed` is what
/// `before` holds: the value and the rest, or the end of the source.
pub open spec fn parse_outcome<T: View>(
    before: Seq<u8>,
    after: Seq<u8>,
    r: Result<T, DecodeError>,
    parsed: Option<(T::V, nat)>,
) -> bool {
    match (parsed, r) {
        (Some((value, used)), Ok(v)) => v@ == value && after == before.skip(used as int),
        (None, Err(e)) => e == DecodeError::UnexpectedEof,
        _ => false,
    }
}

/// A growing byte string: what has been encoded so far.
pub struct Encoder {
    buf: Vec<u8>,
}

impl View for Encoder {
    type V = Seq<u8>;

    closed spec fn view(&self) -> Seq<u8> {
        self.buf@
    }
}

impl Encoder {
    /// An encoder that holds nothing yet.
    pub fn new() -> (e: Encoder)
        ensures
            e@ == Seq::<u8>::empty(),
    {
        Encoder { buf: Vec::new() }
    }

    /// What has been encoded.
    pub fn into_bytes(self) -> (out: Vec<u8>)
        ensures
            out@ == self@,
    {
        self.buf
    }

    /// Appends the two bytes of `v`, most significant first.
    pub fn put_u16(&mut self, v: u16)
        ensures
            final(self)@ == old(self)@ + be_bytes(v as nat, 2),
    {
        emit_u16(&mut self.buf, v);
    }

    /// Appends the four bytes of `v`, most significant first.
    pub fn put_u32(&mut self, v: u32)
        ensures
            final(self)@ == old(self)@ + be_bytes(v as nat, 4),
    {
        emit_u32(&mut self.buf, v);
    }

    /// Appends the eight bytes of `v`, most significant first.
    pub fn put_u64(&mut self, v: u64)
        ensures
            final(self)@ == old(self)@ + be_bytes(v as nat, 8),
    {
        emit_u64(&mut self.buf, v);
    }

    /// Appends the sixteen bytes of `v`, most significant first.
    pub fn put_u128(&mut self, v: u128)
        ensures
            final(self)@ == old(self)@ + be_bytes(v as nat, 16),
    {
        let mut digits: [u8; 16] = [0u8; 16];
        let mut rest: u128 = v;
        let mut left: usize = 16;
        while left > 0
            invariant
                left <= 16,
                be_bytes(v as nat, 16) == be_bytes(rest as nat, left as nat) + digits@.skip(left as int),
            decreases left,
        {
            let ghost before = digits@;
            left = left - 1;
            digits[left] = (rest % 256) as u8;
            proof {
                assert(be_bytes(rest as nat, (left + 1) as nat) == be_bytes((rest / 256) as nat, left as nat).push(
                    (rest % 256) as u8,
                ));
                assert(digits@.skip(left as int) =~= seq![(rest % 256) as u8] + before.skip(left + 1));
                assert(be_bytes((rest / 256) as nat, left as nat).push((rest % 256) as u8) + before.skip(left + 1)
                    =~= be_bytes((rest / 256) as nat, left as nat) + digits@.skip(left as int));
            }
            rest = rest / 256;
        }
        assert(be_bytes(v as nat, 16) =~= digits@);
        self.put_array(&digits);
    }

    /// Appends the bytes of `a` as they are.
    pub fn put_array<const N: usize>(&mut self, a: &[u8; N])
        ensures
            final(self)@ == old(self)@ + a@,
    {
        let mut i: usize = 0;
        while i < N
            invariant
                i <= N,
                self@ == old(self)@ + a@.take(i as int),
            decreases N - i,
        {
            self.buf.push(a[i]);
            assert(a@.take(i + 1) =~= a@.take(i as int).push(a@[i as int]));
            i = i + 1;
        }
        assert(a@.take(N as int) =~= a@);
    }
}

/// A byte string being read from the front.
pub struct Decoder<'a> {
    input: &'a [u8],
    pos: usize,
}

impl<'a> Decoder<'a> {
    #[verifier::type_invariant]
    spec fn in_bounds(self) -> bool {
        self.pos <= self.input@.len()
    }

    /// Everything the decoder was made over.
    pub closed spec fn input(&self) -> Seq<u8> {
        self.input@
    }

    /// How many bytes have been read.
    pub closed spec fn consumed(&self) -> nat {
        self.pos as nat
    }

    /// The bytes that have not been read yet.
    pub open spec fn remaining(&self) -> Seq<u8> {
        self.input().skip(self.consumed() as int)
    }

    /// A decoder at the front of `input`.
    pub fn new(input: &'a [u8]) -> (d: Decoder<'a>)
        ensures
            d.input() == input@,
            d.consumed() == 0,
            d.remaining() == input@,
    {
        let d = Decoder { input, pos: 0 };
        assert(d.remaining() =~= input@);
        d
    }

    /// How many bytes are left to read.
    pub fn remaining_len(&self) -> (n: usize)
        ensures
            n == self.remaining().len(),
    {
        proof {
            use_type_invariant(self);
        }
        self.input.len() - self.pos
    }

    /// How many bytes have been read.
    pub fn position(&self) -> (n: usize)
        ensures
            n == self.consumed(),
            n <= self.input().len(),
    {
        proof {
            use_type_invariant(self);
        }
        self.pos
    }

    /// Reads two bytes as one number, most significant first. A failed read
    /// leaves the decoder where it was.
    pub fn get_u16(&mut self) -> (r: Result<u16, DecodeError>)
        ensures
            final(self).input() == old(self).input(),
            match r {
                Ok(v) => {
                    &&& old(self).remaining().len() >= 2
                    &&& v as nat == be_value(old(self).remaining().take(2))
                    &&& final(self).remaining() == old(self).remaining().skip(2)
                },
                Err(e) => {
                    &&& old(self).remaining().len() < 2
                    &&& e == DecodeError::UnexpectedEof
                    &&& final(self).remaining() == old(self).remaining()
                },
            },
    {
        proof {
            use_type_invariant(&*self);
        }
        let rest = slice_subrange(self.input, self.pos, self.input.len());
        assert(rest@ =~= self.remaining());
        match read_u16(rest) {
            Ok(v) => {
                self.pos = self.pos + 2;
                assert(self.remaining() =~= old(self).remaining().skip(2));
                Ok(v)
            },
            Err(_) => Err(DecodeError::UnexpectedEof),
        }
    }

    /// Reads four bytes as one number, most significant first. A failed read
    /// leaves the decoder where it was.
    pub fn get_u32(&mut self) -> (r: Result<u32, DecodeError>)
        ensures
            final(self).input() == old(self).input(),
            match r {
                Ok(v) => {
                    &&& old(self).remaining().len() >= 4
                    &&& v as nat == be_value(old(self).remaining().take(4))
                    &&& final(self).remaining() == old(self).remaining().skip(4)
                },
                Err(e) => {
                    &&& old(self).remaining().len() < 4
                    &&& e == DecodeError::UnexpectedEof
                    &&& final(self).remaining() == old(self).remaining()
                },
            },
    {
        proof {
            use_type_invariant(&*self);
        }
        let rest = slice_subrange(self.input, self.pos, self.input.len());
        assert(rest@ =~= self.remaining());
        match read_u32(rest) {
            Ok(v) => {
                self.pos = self.pos + 4;
                assert(self.remaining() =~= old(self).remaining().skip(4));
                Ok(v)
            },
            Err(_) => Err(DecodeError::UnexpectedEof),
        }
    }

    /// Reads eight bytes as one number, most significant first. A failed read
    /// leaves the decoder where it was.
    pub fn get_u64(&mut self) -> (r: Result<u64, DecodeError>)
        ensures
            final(self).input() == old(self).input(),
            match r {
                Ok(v) => {
                    &&& old(self).remaining().len() >= 8
                    &&& v as nat == be_value(old(self).remaining().take(8))
                    &&& final(self).remaining() == old(self).remaining().skip(8)
                },
                Err(e) => {
                    &&& old(self).remaining().len() < 8
                    &&& e == DecodeError::UnexpectedEof
                    &&& final(self).remaining() == old(self).remaining()
                },
            },
    {
        proof {
            use_type_invariant(&*self);
        }
        let rest = slice_subrange(self.input, self.pos, self.input.len());
        assert(rest@ =~= self.remaining());
        match read_u64(rest) {
            Ok(v) => {
                self.pos = self.pos + 8;
                assert(self.remaining() =~= old(self).remaining().skip(8));
                Ok(v)
            },
            Err(_) => Err(DecodeError::UnexpectedEof),
        }
    }

    /// Reads sixteen bytes as one number, most significant first.
    pub fn get_u128(&mut self) -> (r: Result<u128, DecodeError>)
        ensures
            final(self).input() == old(self).input(),
            match r {
                Ok(v) => {
                    &&& old(self).remaining().len() >= 16
                    &&& v as nat == be_value(old(self).remaining().take(16))
                    &&& final(self).remaining() == old(self).remaining().skip(16)
                },
                Err(e) => {
                    &&& old(self).remaining().len() < 16
                    &&& e == DecodeError::UnexpectedEof
                    &&& final(self).remaining() == old(self).remaining()
                },
            },
    {
        let digits: [u8; 16] = match self.get_array::<16>() {
            Ok(a) => a,
            Err(e) => {
                return Err(e);
            },
        };
        let mut acc: u128 = 0;
        let mut i: usize = 0;
        while i < 16
            invariant
                i <= 16,
                acc as nat == be_value(digits@.take(i as int)),
            decreases 16 - i,
        {
            proof {
                let next = digits@.take(i + 1);
                assert(next.drop_last() =~= digits@.take(i as int));
                lemma_be_bytes_of_value(next);
                lemma_radix_grows(next.len(), 16);
                lemma_radix_values();
            }
            acc = acc * 256 + digits[i] as u128;
            i = i + 1;
        }
        assert(digits@.take(16) =~= digits@);
        Ok(acc)
    }

    /// Reads `N` bytes as they are.
    pub fn get_array<const N: usize>(&mut self) -> (r: Result<[u8; N], DecodeError>)
        ensures
            final(self).input() == old(self).input(),
            match r {
                Ok(a) => {
                    &&& old(self).remaining().len() >= N
                    &&& a@ == old(self).remaining().take(N as int)
                    &&& final(self).remaining() == old(self).remaining().skip(N as int)
                },
                Err(e) => {
                    &&& old(self).remaining().len() < N
                    &&& e == DecodeError::UnexpectedEof
                    &&& final(self).remaining() == old(self).remaining()
                },
            },
    {
        proof {
            use_type_invariant(&*self);
        }
        let total: usize = self.input.len();
        if total - self.pos < N {
            return Err(DecodeError::UnexpectedEof);
        }
        let mut a: [u8; N] = [0u8; N];
        let mut i: usize = 0;
        while i < N
            invariant
                i <= N,
                self.pos + N <= total == self.input@.len(),
                forall|j: int| 0 <= j < i ==> a@[j] == self.input@[self.pos + j],
            decreases N - i,
        {
            a[i] = self.input[self.pos + i];
            i = i + 1;
        }
        assert(a@ =~= self.remaining().take(N as int));
        self.pos = self.pos + N;
        assert(self.remaining() =~= old(self).remaining().skip(N as int));
        Ok(a)
    }
}

} // verus!
