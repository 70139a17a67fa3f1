//! The byte-level side of strict encoding: an in-memory cursor over a byte
//! stream, the decode error taxonomy, and the capability traits that element
//! types provide so that the bounded containers can encode and decode them.

use vstd::prelude::*;

verus! {

/// Failure conditions reported while decoding strict-encoded bytes.
#[derive(Clone, Copy, PartialEq, Eq, Debug)]
pub enum DecodeError {
    /// The stream ended before the needed bytes could be read.
    UnexpectedEof,
    /// A length prefix below the minimum the container demands.
    LengthOutOfRange { len: u16, min_len: u16 },
    /// A length prefix above the maximum the container allows.
    ExceedMaxItems { len: u16, max_len: u16 },
    /// A byte outside the 7-bit range where ASCII is required.
    CharOutOfRange { byte: u8 },
    /// A repeated set element or map key, at this element position.
    RepeatedValue { pos: u16 },
    /// The bytes of a string are not valid UTF-8.
    InvalidUtf8,
}

/// Reading one byte at `pos`: the byte and the position after it,
/// or `None` when the stream is too short.
pub open spec fn spec_read_u8(data: Seq<u8>, pos: nat) -> Option<(u8, nat)> {
    if pos + 1 <= data.len() {
        Some((data[pos as int], (pos + 1) as nat))
    } else {
        None
    }
}

/// The 16-bit value encoded little-endian by the two bytes.
pub open spec fn u16_from_le(lo: u8, hi: u8) -> u16 {
    (lo + 256 * hi) as u16
}

/// The two little-endian bytes of a 16-bit value.
pub open spec fn u16_to_le(v: u16) -> Seq<u8> {
    seq![(v % 256) as u8, (v / 256) as u8]
}

/// Reading a 16-bit little-endian value at `pos`: the value and the position
/// after it, or `None` when the stream is too short.
pub open spec fn spec_read_u16(data: Seq<u8>, pos: nat) -> Option<(u16, nat)> {
    if pos + 2 <= data.len() {
        Some((u16_from_le(data[pos as int], data[pos as int + 1]), (pos + 2) as nat))
    } else {
        None
    }
}

/// An in-memory byte stream with a read position. Reads advance the
/// position; a read past the end fails and leaves the position unchanged.
pub struct Cursor {
    data: Vec<u8>,
    pos: usize,
}

impl Cursor {
    /// The bytes of the stream.
    pub closed spec fn data(&self) -> Seq<u8> {
        self.data@
    }

    /// The current read position.
    pub closed spec fn pos(&self) -> nat {
        self.pos as nat
    }

    /// The position never passes the end of the stream.
    #[verifier::type_invariant]
    pub open spec fn wf(&self) -> bool {
        self.pos() <= self.data().len()
    }

    /// The byte at an absolute position, wherever the cursor stands.
    pub fn byte_at(&self, i: usize) -> (b: u8)
        requires
            (i as nat) < self.data().len(),
        ensures
            b == self.data()[i as int],
    {
        self.data[i]
    }

    /// A cursor over the given bytes, positioned at the start.
    pub fn new(data: Vec<u8>) -> (c: Cursor)
        ensures
            c.data() == data@,
            c.pos() == 0,
    {
        Cursor { data, pos: 0 }
    }

    /// The current read position.
    pub fn position(&self) -> (p: usize)
        ensures
            p as nat == self.pos(),
    {
        self.pos
    }

    /// Reads one byte.
    pub fn read_u8(&mut self) -> (r: Result<u8, DecodeError>)
        ensures
            final(self).data() == old(self).data(),
            match spec_read_u8(old(self).data(), old(self).pos()) {
                Some(vp) => r == Ok::<u8, DecodeError>(vp.0) && final(self).pos() == vp.1,
                None => r == Err::<u8, DecodeError>(DecodeError::UnexpectedEof) && final(self).pos()
                    == old(self).pos(),
            },
    {
        if self.pos < self.data.len() {
            let b = self.data[self.pos];
            self.pos = self.pos + 1;
            Ok(b)
        } else {
            Err(DecodeError::UnexpectedEof)
        }
    }

    /// Reads a 16-bit little-endian value, as every length prefix is encoded.
    pub fn read_u16_le(&mut self) -> (r: Result<u16, DecodeError>)
        ensures
            final(self).data() == old(self).data(),
            match spec_read_u16(old(self).data(), old(self).pos()) {
                Some(vp) => r == Ok::<u16, DecodeError>(vp.0) && final(self).pos() == vp.1,
                None => r == Err::<u16, DecodeError>(DecodeError::UnexpectedEof) && final(self).pos()
                    == old(self).pos(),
            },
    {
        if self.pos < self.data.len() && self.data.len() - self.pos >= 2 {
            let lo = self.data[self.pos];
            let hi = self.data[self.pos + 1];
            self.pos = self.pos + 2;
            Ok(lo as u16 + hi as u16 * 256)
        } else {
            Err(DecodeError::UnexpectedEof)
        }
    }

    /// Advances the position over `n` bytes without reading them. Fails, and
    /// leaves the position unchanged, when fewer than `n` bytes remain.
    pub fn skip(&mut self, n: usize) -> (r: bool)
        ensures
            final(self).data() == old(self).data(),
            if old(self).pos() + n <= old(self).data().len() {
                r && final(self).pos() == old(self).pos() + n
            } else {
                !r && final(self).pos() == old(self).pos()
            },
    {
        if self.pos <= self.data.len() && self.data.len() - self.pos >= n {
            self.pos = self.pos + n;
            true
        } else {
            false
        }
    }

    /// Reads exactly `n` bytes. Fails, and leaves the position unchanged,
    /// when fewer than `n` bytes remain.
    pub fn read_exact(&mut self, n: usize) -> (r: Result<Vec<u8>, DecodeError>)
        ensures
            final(self).data() == old(self).data(),
            if old(self).pos() + n <= old(self).data().len() {
                r matches Ok(v) && v@ == old(self).data().subrange(
                    old(self).pos() as int,
                    old(self).pos() + n,
                ) && final(self).pos() == old(self).pos() + n
            } else {
                r == Err::<Vec<u8>, DecodeError>(DecodeError::UnexpectedEof) && final(self).pos()
                    == old(self).pos()
            },
    {
        if self.pos <= self.data.len() && self.data.len() - self.pos >= n {
            let mut v: Vec<u8> = Vec::new();
            let mut i: usize = 0;
            while i < n
                invariant
                    i <= n,
                    self.pos + n <= self.data.len(),
                    v@ == self.data@.subrange(self.pos as int, self.pos + i),
                decreases n - i,
            {
                v.push(self.data[self.pos + i]);
                proof {
                    assert(v@ =~= self.data@.subrange(self.pos as int, self.pos + i + 1));
                }
                i = i + 1;
            }
            self.pos = self.pos + n;
            Ok(v)
        } else {
            Err(DecodeError::UnexpectedEof)
        }
    }
}

/// The capability an element type provides so that containers can encode
/// and decode values of it: a mathematical byte encoding, a decode relation,
/// the proof that decoding inverts encoding, and the two executable sides.
pub trait StrictCodec: Sized {
    /// The strict-encoded bytes of this value.
    spec fn spec_enc(&self) -> Seq<u8>;

    /// Decoding one value at `pos`: the value and the position after its
    /// encoding, or `None` when no value can be decoded there.
    spec fn spec_dec(data: Seq<u8>, pos: nat) -> Option<(Self, nat)>;

    /// Decoding reads back exactly the value whose encoding sits at `pos`,
    /// whatever bytes follow it.
    proof fn lemma_dec_enc(&self, data: Seq<u8>, pos: nat)
        requires
            pos + self.spec_enc().len() <= data.len(),
            data.subrange(pos as int, (pos + self.spec_enc().len()) as int) == self.spec_enc(),
        ensures
            Self::spec_dec(data, pos) == Some((*self, (pos + self.spec_enc().len()) as nat)),
    ;

    /// A successful decode never moves the position backwards or past the end.
    proof fn lemma_dec_advances(data: Seq<u8>, pos: nat)
        ensures
            Self::spec_dec(data, pos) matches Some(vp) ==> pos <= vp.1 <= data.len(),
    ;

    /// Appends the encoding of this value.
    fn encode(&self, out: &mut Vec<u8>)
        ensures
            final(out)@ == old(out)@ + self.spec_enc(),
    ;

    /// Decodes one value from the cursor.
    fn decode(d: &mut Cursor) -> (r: Result<Self, DecodeError>)
        ensures
            final(d).data() == old(d).data(),
            match Self::spec_dec(old(d).data(), old(d).pos()) {
                Some(vp) => r matches Ok(v) && v == vp.0 && final(d).pos() == vp.1,
                None => r matches Err(_),
            },
    ;
}

/// Three-way comparison result between two keys.
#[derive(Clone, Copy, PartialEq, Eq, Debug)]
pub enum KeyOrder {
    Less,
    Equal,
    Greater,
}

/// The total order an element type provides so that it can serve as a set
/// element or map key: a strict order relation, its laws, and an executable
/// comparison deciding it.
pub trait StrictKey: StrictCodec {
    /// The strict order on keys.
    spec fn spec_lt(&self, other: &Self) -> bool;

    /// `spec_lt` is a strict total order: transitive, asymmetric, and
    /// connected (incomparable keys are equal).
    proof fn lemma_lt_properties(a: Self, b: Self, c: Self)
        ensures
            a.spec_lt(&b) && b.spec_lt(&c) ==> a.spec_lt(&c),
            !(a.spec_lt(&b) && b.spec_lt(&a)),
            !a.spec_lt(&b) && !b.spec_lt(&a) ==> a == b,
    ;

    /// Compares two keys.
    fn key_cmp(&self, other: &Self) -> (c: KeyOrder)
        ensures
            match c {
                KeyOrder::Less => self.spec_lt(other),
                KeyOrder::Equal => *self == *other,
                KeyOrder::Greater => other.spec_lt(self),
            },
    ;
}

impl StrictCodec for u8 {
    open spec fn spec_enc(&self) -> Seq<u8> {
        seq![*self]
    }

    open spec fn spec_dec(data: Seq<u8>, pos: nat) -> Option<(u8, nat)> {
        spec_read_u8(data, pos)
    }

    proof fn lemma_dec_enc(&self, data: Seq<u8>, pos: nat) {
        assert(data.subrange(pos as int, pos as int + 1)[0] == data[pos as int]);
    }

    proof fn lemma_dec_advances(data: Seq<u8>, pos: nat) {
    }

    fn encode(&self, out: &mut Vec<u8>) {
        out.push(*self);
    }

    fn decode(d: &mut Cursor) -> (r: Result<u8, DecodeError>) {
        d.read_u8()
    }
}

impl StrictKey for u8 {
    open spec fn spec_lt(&self, other: &Self) -> bool {
        *self < *other
    }

    proof fn lemma_lt_properties(a: u8, b: u8, c: u8) {
    }

    fn key_cmp(&self, other: &Self) -> (c: KeyOrder) {
        if *self < *other {
            KeyOrder::Less
        } else if *self == *other {
            KeyOrder::Equal
        } else {
            KeyOrder::Greater
        }
    }
}

impl StrictCodec for u16 {
    open spec fn spec_enc(&self) -> Seq<u8> {
        u16_to_le(*self)
    }

    open spec fn spec_dec(data: Seq<u8>, pos: nat) -> Option<(u16, nat)> {
        spec_read_u16(data, pos)
    }

    proof fn lemma_dec_enc(&self, data: Seq<u8>, pos: nat) {
        assert(data.subrange(pos as int, pos as int + 2)[0] == data[pos as int]);
        assert(data.subrange(pos as int, pos as int + 2)[1] == data[pos as int + 1]);
    }

    proof fn lemma_dec_advances(data: Seq<u8>, pos: nat) {
    }

    fn encode(&self, out: &mut Vec<u8>) {
        out.push((*self % 256) as u8);
        out.push((*self / 256) as u8);
        proof {
            assert(out@ =~= old(out)@ + self.spec_enc());
        }
    }

    fn decode(d: &mut Cursor) -> (r: Result<u16, DecodeError>) {
        d.read_u16_le()
    }
}

impl StrictKey for u16 {
    open spec fn spec_lt(&self, other: &Self) -> bool {
        *self < *other
    }

    proof fn lemma_lt_properties(a: u16, b: u16, c: u16) {
    }

    fn key_cmp(&self, other: &Self) -> (c: KeyOrder) {
        if *self < *other {
            KeyOrder::Less
        } else if *self == *other {
            KeyOrder::Equal
        } else {
            KeyOrder::Greater
        }
    }
}

} // verus!
