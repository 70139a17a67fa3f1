//! Bounded containers: sequence, set, ordered-key map, UTF-8 string and
//! ASCII-only string, each carrying a type-level minimum length (and, for
//! ASCII strings, a maximum). The size invariant is enforced when a
//! container is built, on every mutation, and when one is decoded from
//! bytes. Every container serializes behind a 16-bit element count.

use vstd::prelude::*;
use vstd::string::StringSliceAdditionalSpecFns;
use vstd::utf8::{decode_utf8, encode_utf8, valid_utf8};

use crate::codec::{
    spec_read_u16, u16_from_le, u16_to_le, Cursor, DecodeError, KeyOrder, StrictCodec, StrictKey,
};

verus! {

/// Largest element or byte count any bounded container may hold.
pub const STRICT_COLLECTION_MAX_LEN: u16 = 0xFFFF;

/// An operation would grow a collection past the permitted maximum;
/// carries the size the operation would have produced.
#[derive(Clone, Copy, PartialEq, Eq, Debug)]
pub struct OversizeError(pub usize);

/// An operation would shrink a collection below its minimum length, or an
/// input was already below it; carries the actual and the required length.
#[derive(Clone, Copy, PartialEq, Eq, Debug)]
pub struct UndersizeError {
    pub len: u16,
    pub min_len: u16,
}

/// A size bound was violated while building or growing a collection.
#[derive(Clone, Copy, PartialEq, Eq, Debug)]
pub enum CollectionError {
    Undersize(UndersizeError),
    Oversize(OversizeError),
}

/// A bound or charset violation while building an ASCII-only string.
#[derive(Clone, Copy, PartialEq, Eq, Debug)]
pub enum AsciiStringError {
    Undersize(UndersizeError),
    Oversize(OversizeError),
    /// A byte outside the 7-bit ASCII range; carries that byte.
    InvalidChar(u8),
}

/// A removal was refused.
#[derive(Clone, Copy, PartialEq, Eq, Debug)]
pub enum RemoveError {
    Undersize(UndersizeError),
    IndexOutOfBounds { index: u16, len: u16 },
}

/// The concatenated encodings of the elements, in order.
pub open spec fn spec_enc_items<T: StrictCodec>(s: Seq<T>) -> Seq<u8>
    decreases s.len(),
{
    if s.len() == 0 {
        Seq::empty()
    } else {
        s[0].spec_enc() + spec_enc_items(s.skip(1))
    }
}

/// Appending one element appends its encoding.
pub proof fn lemma_enc_items_push<T: StrictCodec>(s: Seq<T>, x: T)
    ensures
        spec_enc_items(s.push(x)) == spec_enc_items(s) + x.spec_enc(),
    decreases s.len(),
{
    if s.len() == 0 {
        assert(s.push(x).skip(1) =~= Seq::<T>::empty());
        assert(s.push(x)[0] == x);
        assert(spec_enc_items(s.push(x)) == x.spec_enc() + spec_enc_items(Seq::<T>::empty()));
        assert(x.spec_enc() + Seq::<u8>::empty() =~= x.spec_enc());
        assert(spec_enc_items(s) + x.spec_enc() =~= x.spec_enc());
    } else {
        assert(s.push(x).skip(1) =~= s.skip(1).push(x));
        lemma_enc_items_push(s.skip(1), x);
        assert(s.push(x)[0] == s[0]);
        assert(spec_enc_items(s.push(x)) =~= spec_enc_items(s) + x.spec_enc());
    }
}

/// The wire form of a sequence: its 16-bit length, then its elements.
pub open spec fn spec_enc_seq<T: StrictCodec>(s: Seq<T>) -> Seq<u8> {
    u16_to_le(s.len() as u16) + spec_enc_items(s)
}

/// Decoding `count` elements one after another: the elements and the
/// position after them, or `None` when any element fails to decode.
pub open spec fn spec_dec_items<T: StrictCodec>(data: Seq<u8>, pos: nat, count: nat) -> Option<
    (Seq<T>, nat),
>
    decreases count,
{
    if count == 0 {
        Some((Seq::empty(), pos))
    } else {
        match T::spec_dec(data, pos) {
            None => None,
            Some(vp) => match spec_dec_items::<T>(data, vp.1, (count - 1) as nat) {
                None => None,
                Some(sp) => Some((seq![vp.0] + sp.0, sp.1)),
            },
        }
    }
}

/// What decoding a whole container yields.
pub enum DecOutcome<T> {
    /// The decoded elements, in wire order, and the position after them.
    Done(Seq<T>, nat),
    /// Decoding failed with exactly this error.
    Fail(DecodeError),
    /// An element failed to decode; the error is the element's own.
    Abort,
}

/// Decoding a bounded sequence: a 16-bit length, rejected below `min_len`,
/// then that many elements.
pub open spec fn spec_dec_vec<T: StrictCodec>(data: Seq<u8>, pos: nat, min_len: u16) -> DecOutcome<
    T,
> {
    match spec_read_u16(data, pos) {
        None => DecOutcome::Fail(DecodeError::UnexpectedEof),
        Some(lp) => if lp.0 < min_len {
            DecOutcome::Fail(DecodeError::LengthOutOfRange { len: lp.0, min_len })
        } else {
            match spec_dec_items::<T>(data, lp.1, lp.0 as nat) {
                Some(sp) => DecOutcome::Done(sp.0, sp.1),
                None => DecOutcome::Abort,
            }
        },
    }
}

/// An ordered sequence of elements, duplicates allowed, whose length always
/// stays between `MIN_LEN` and 0xFFFF. Growth past 0xFFFF is refused, so the
/// length always fits the 16-bit count it is serialized behind.
pub struct StrictVec<T, const MIN_LEN: u16>(Vec<T>);

impl<T, const MIN_LEN: u16> View for StrictVec<T, MIN_LEN> {
    type V = Seq<T>;

    closed spec fn view(&self) -> Seq<T> {
        self.0@
    }
}

impl<T> Default for StrictVec<T, 0> {
    /// The empty sequence.
    fn default() -> (r: Self)
        ensures
            r@ == Seq::<T>::empty(),
            r.inv(),
    {
        StrictVec(Vec::new())
    }
}

impl<T> StrictVec<T, 0> {
    /// The empty sequence; only containers with minimum length zero have it.
    pub fn new() -> (r: Self)
        ensures
            r@ == Seq::<T>::empty(),
            r.inv(),
    {
        StrictVec(Vec::new())
    }
}

impl<T, const MIN_LEN: u16> StrictVec<T, MIN_LEN> {
    /// The size invariant: length between the configured minimum and 0xFFFF.
    pub open spec fn inv(&self) -> bool {
        MIN_LEN as nat <= self@.len() <= STRICT_COLLECTION_MAX_LEN as nat
    }

    /// Builds a bounded sequence from an unbounded one. Succeeds exactly when
    /// the input length lies within the bounds; reports the violated bound
    /// otherwise.
    pub fn try_from(value: Vec<T>) -> (r: Result<Self, CollectionError>)
        ensures
            value@.len() > STRICT_COLLECTION_MAX_LEN as nat ==> (r matches Err(e) && e
                == CollectionError::Oversize(OversizeError(value@.len() as usize))),
            value@.len() <= STRICT_COLLECTION_MAX_LEN as nat && value@.len() < MIN_LEN as nat ==> (
            r matches Err(e) && e == CollectionError::Undersize(
                UndersizeError { len: value@.len() as u16, min_len: MIN_LEN },
            )),
            MIN_LEN as nat <= value@.len() <= STRICT_COLLECTION_MAX_LEN as nat ==> (r matches Ok(
                v,
            ) && v@ == value@ && v.inv()),
    {
        let len = value.len();
        if len > STRICT_COLLECTION_MAX_LEN as usize {
            Err(CollectionError::Oversize(OversizeError(len)))
        } else if len < MIN_LEN as usize {
            Err(CollectionError::Undersize(UndersizeError { len: len as u16, min_len: MIN_LEN }))
        } else {
            Ok(StrictVec(value))
        }
    }

    /// The element count, always representable in 16 bits.
    pub fn len(&self) -> (n: u16)
        requires
            self.inv(),
        ensures
            n as nat == self@.len(),
    {
        self.0.len() as u16
    }

    /// The element at `index`.
    pub fn get(&self, index: u16) -> (r: &T)
        requires
            (index as nat) < self@.len(),
        ensures
            *r == self@[index as int],
    {
        &self.0[index as usize]
    }

    /// Appends an element and returns the pre-insertion count. Refused once
    /// the container already holds 0xFFFF elements, so the length never
    /// leaves the 16-bit range; the error carries the size the operation
    /// would have produced.
    pub fn push(&mut self, item: T) -> (r: Result<u16, OversizeError>)
        requires
            old(self).inv(),
        ensures
            final(self).inv(),
            old(self)@.len() == STRICT_COLLECTION_MAX_LEN as nat ==> (r matches Err(e) && e
                == OversizeError((old(self)@.len() + 1) as usize) && final(self)@ == old(self)@),
            old(self)@.len() < STRICT_COLLECTION_MAX_LEN as nat ==> (r matches Ok(n) && n as nat
                == old(self)@.len() && final(self)@ == old(self)@.push(item)),
    {
        let len = self.0.len();
        if len >= STRICT_COLLECTION_MAX_LEN as usize {
            return Err(OversizeError(len + 1));
        }
        self.0.push(item);
        Ok(len as u16)
    }

    /// Removes and returns the element at `index`. Refused outright, whatever
    /// the index, while the container sits at its minimum length; refused with
    /// an index error when `index` is not strictly below the length.
    pub fn remove(&mut self, index: u16) -> (r: Result<T, RemoveError>)
        requires
            old(self).inv(),
        ensures
            final(self).inv(),
            old(self)@.len() == MIN_LEN as nat ==> (r matches Err(e) && e
                == RemoveError::Undersize(UndersizeError { len: MIN_LEN, min_len: MIN_LEN })
                && final(self)@ == old(self)@),
            old(self)@.len() != MIN_LEN as nat && index as nat >= old(self)@.len() ==> (r matches
            Err(e) && e == (RemoveError::IndexOutOfBounds {
                index,
                len: old(self)@.len() as u16,
            }) && final(self)@ == old(self)@),
            old(self)@.len() != MIN_LEN as nat && (index as nat) < old(self)@.len() ==> (r matches
            Ok(x) && x == old(self)@[index as int] && final(self)@ == old(self)@.remove(
                index as int,
            )),
    {
        let len = self.len();
        if len == MIN_LEN {
            return Err(RemoveError::Undersize(UndersizeError { len, min_len: MIN_LEN }));
        }
        if index >= len {
            return Err(RemoveError::IndexOutOfBounds { index, len });
        }
        Ok(self.0.remove(index as usize))
    }
}

impl<T: StrictCodec, const MIN_LEN: u16> StrictVec<T, MIN_LEN> {
    /// Appends the wire form: 16-bit length, then the elements in order.
    pub fn strict_encode(&self, out: &mut Vec<u8>)
        requires
            self.inv(),
        ensures
            final(out)@ == old(out)@ + spec_enc_seq(self@),
    {
        let ghost out0 = out@;
        let len = self.0.len() as u16;
        len.encode(out);
        let mut i: usize = 0;
        while i < self.0.len()
            invariant
                self.inv(),
                i <= self.0.len(),
                len as nat == self@.len(),
                out@ == out0 + u16_to_le(len) + spec_enc_items(self@.take(i as int)),
            decreases self.0.len() - i,
        {
            self.0[i].encode(out);
            proof {
                lemma_enc_items_push(self@.take(i as int), self@[i as int]);
                assert(self@.take(i as int).push(self@[i as int]) =~= self@.take(i as int + 1));
                assert(out@ =~= out0 + u16_to_le(len) + spec_enc_items(self@.take(i as int + 1)));
            }
            i = i + 1;
        }
        proof {
            assert(self@.take(self@.len() as int) =~= self@);
            assert(out@ =~= out0 + spec_enc_seq(self@));
        }
    }

    /// Decodes a bounded sequence: reads the 16-bit length, rejects one below
    /// `MIN_LEN`, then decodes exactly that many elements.
    pub fn strict_decode(d: &mut Cursor) -> (r: Result<Self, DecodeError>)
        ensures
            final(d).data() == old(d).data(),
            match spec_dec_vec::<T>(old(d).data(), old(d).pos(), MIN_LEN) {
                DecOutcome::Done(s, p) => r matches Ok(v) && v@ == s && v.inv() && final(d).pos()
                    == p,
                DecOutcome::Fail(e) => r matches Err(e2) && e2 == e,
                DecOutcome::Abort => r matches Err(_),
            },
    {
        let len = d.read_u16_le()?;
        if len < MIN_LEN {
            return Err(DecodeError::LengthOutOfRange { len, min_len: MIN_LEN });
        }
        let mut items: Vec<T> = Vec::new();
        let mut i: u16 = 0;
        while i < len
            invariant
                i <= len,
                MIN_LEN <= len,
                d.data() == old(d).data(),
                items@.len() == i as nat,
                ({
                    let full = spec_dec_vec::<T>(old(d).data(), old(d).pos(), MIN_LEN);
                    match spec_dec_items::<T>(d.data(), d.pos(), (len - i) as nat) {
                        Some(sp) => full == DecOutcome::Done(items@ + sp.0, sp.1),
                        None => full == DecOutcome::<T>::Abort,
                    }
                }),
            decreases len - i,
        {
            let ghost items_pre = items@;
            let ghost rest = (len - i) as nat;
            let ghost pos_pre = d.pos();
            let item = T::decode(d)?;
            proof {
                let vp = T::spec_dec(old(d).data(), pos_pre).unwrap();
                let sp = spec_dec_items::<T>(old(d).data(), vp.1, (rest - 1) as nat);
                if sp is Some {
                    assert(items_pre + (seq![vp.0] + sp.unwrap().0) =~= (items_pre.push(vp.0))
                        + sp.unwrap().0);
                }
            }
            items.push(item);
            i = i + 1;
        }
        proof {
            assert(items@ + Seq::<T>::empty() =~= items@);
        }
        Ok(StrictVec(items))
    }
}

/// Relies on `String::from_utf8`: yields the string whose UTF-8 bytes are the
/// input exactly when the input is valid UTF-8, and nothing otherwise.
#[verifier::external_body]
fn string_from_utf8(bytes: Vec<u8>) -> (r: Option<String>)
    ensures
        match r {
            Some(s) => valid_utf8(bytes@) && encode_utf8(s@) == bytes@,
            None => !valid_utf8(bytes@),
        },
{
    String::from_utf8(bytes).ok()
}

/// The wire form of a string: the 16-bit length of its UTF-8 bytes, then
/// those bytes.
pub open spec fn spec_enc_str(s: Seq<char>) -> Seq<u8> {
    u16_to_le(encode_utf8(s).len() as u16) + encode_utf8(s)
}

/// Decoding a bounded string: a 16-bit byte length, rejected below
/// `min_len`, then that many bytes, which must be valid UTF-8.
pub open spec fn spec_dec_str(data: Seq<u8>, pos: nat, min_len: u16) -> DecOutcome<char> {
    match spec_read_u16(data, pos) {
        None => DecOutcome::Fail(DecodeError::UnexpectedEof),
        Some(lp) => if lp.0 < min_len {
            DecOutcome::Fail(DecodeError::LengthOutOfRange { len: lp.0, min_len })
        } else if lp.1 + lp.0 > data.len() {
            DecOutcome::Fail(DecodeError::UnexpectedEof)
        } else {
            let bytes = data.subrange(lp.1 as int, lp.1 as int + lp.0 as int);
            if valid_utf8(bytes) {
                DecOutcome::Done(decode_utf8(bytes), (lp.1 + lp.0) as nat)
            } else {
                DecOutcome::Fail(DecodeError::InvalidUtf8)
            }
        },
    }
}

/// A UTF-8 string whose byte length always stays between `MIN_LEN` and
/// 0xFFFF.
pub struct StrictStr<const MIN_LEN: u16>(String);

impl<const MIN_LEN: u16> View for StrictStr<MIN_LEN> {
    type V = Seq<char>;

    closed spec fn view(&self) -> Seq<char> {
        self.0@
    }
}

impl Default for StrictStr<0> {
    /// The empty string.
    fn default() -> (r: Self)
        ensures
            r@ == Seq::<char>::empty(),
            r.inv(),
    {
        let s = String::new();
        proof {
            assert(encode_utf8(s@).len() == 0);
        }
        StrictStr(s)
    }
}

impl StrictStr<0> {
    /// The empty string; only strings with minimum length zero have it.
    pub fn new() -> (r: Self)
        ensures
            r@ == Seq::<char>::empty(),
            r.inv(),
    {
        let s = String::new();
        proof {
            assert(encode_utf8(s@).len() == 0);
        }
        StrictStr(s)
    }
}

impl<const MIN_LEN: u16> StrictStr<MIN_LEN> {
    /// The size invariant: UTF-8 byte length between the configured minimum
    /// and 0xFFFF.
    pub open spec fn inv(&self) -> bool {
        MIN_LEN as nat <= encode_utf8(self@).len() <= STRICT_COLLECTION_MAX_LEN as nat
    }

    /// Builds a bounded string from an unbounded one. Succeeds exactly when
    /// the UTF-8 byte length lies within the bounds; reports the violated
    /// bound otherwise.
    pub fn try_from(value: String) -> (r: Result<Self, CollectionError>)
        requires
            encode_utf8(value@).len() <= usize::MAX as nat,
        ensures
            encode_utf8(value@).len() > STRICT_COLLECTION_MAX_LEN as nat ==> (r matches Err(e) && e
                == CollectionError::Oversize(OversizeError(encode_utf8(value@).len() as usize))),
            encode_utf8(value@).len() <= STRICT_COLLECTION_MAX_LEN as nat && encode_utf8(
                value@,
            ).len() < MIN_LEN as nat ==> (r matches Err(e) && e == CollectionError::Undersize(
                UndersizeError { len: encode_utf8(value@).len() as u16, min_len: MIN_LEN },
            )),
            MIN_LEN as nat <= encode_utf8(value@).len() <= STRICT_COLLECTION_MAX_LEN as nat ==> (r
                matches Ok(v) && v@ == value@ && v.inv()),
    {
        let len = value.as_str().len();
        if len > STRICT_COLLECTION_MAX_LEN as usize {
            Err(CollectionError::Oversize(OversizeError(len)))
        } else if len < MIN_LEN as usize {
            Err(CollectionError::Undersize(UndersizeError { len: len as u16, min_len: MIN_LEN }))
        } else {
            Ok(StrictStr(value))
        }
    }

    /// The UTF-8 byte length, always representable in 16 bits.
    pub fn len(&self) -> (n: u16)
        requires
            self.inv(),
        ensures
            n as nat == encode_utf8(self@).len(),
    {
        self.0.as_str().len() as u16
    }

    /// The characters of the string.
    pub fn as_str(&self) -> (r: &str)
        ensures
            r@ == self@,
    {
        self.0.as_str()
    }

    /// Appends the wire form: the 16-bit length of the UTF-8 bytes, then
    /// those bytes.
    pub fn strict_encode(&self, out: &mut Vec<u8>)
        requires
            self.inv(),
        ensures
            final(out)@ == old(out)@ + spec_enc_str(self@),
    {
        let ghost out0 = out@;
        let len = self.0.as_str().len() as u16;
        len.encode(out);
        let bytes = self.0.as_str().as_bytes();
        let mut i: usize = 0;
        while i < bytes.len()
            invariant
                i <= bytes.len(),
                bytes@ == encode_utf8(self@),
                len as nat == encode_utf8(self@).len(),
                out@ == out0 + u16_to_le(len) + bytes@.take(i as int),
            decreases bytes.len() - i,
        {
            let b = bytes[i];
            out.push(b);
            proof {
                assert(out@ =~= out0 + u16_to_le(len) + bytes@.take(i as int + 1));
            }
            i = i + 1;
        }
        proof {
            assert(bytes@.take(bytes@.len() as int) =~= bytes@);
            assert(out@ =~= out0 + spec_enc_str(self@));
        }
    }

    /// Decodes a bounded string: reads the 16-bit byte length, rejects one
    /// below `MIN_LEN`, then reads that many bytes and validates them as
    /// UTF-8.
    pub fn strict_decode(d: &mut Cursor) -> (r: Result<Self, DecodeError>)
        ensures
            final(d).data() == old(d).data(),
            match spec_dec_str(old(d).data(), old(d).pos(), MIN_LEN) {
                DecOutcome::Done(s, p) => r matches Ok(v) && v@ == s && v.inv() && final(d).pos()
                    == p,
                DecOutcome::Fail(e) => r matches Err(e2) && e2 == e,
                DecOutcome::Abort => false,
            },
    {
        let len = d.read_u16_le()?;
        if len < MIN_LEN {
            return Err(DecodeError::LengthOutOfRange { len, min_len: MIN_LEN });
        }
        let bytes = d.read_exact(len as usize)?;
        match string_from_utf8(bytes) {
            None => Err(DecodeError::InvalidUtf8),
            Some(s) => {
                proof {
                    vstd::utf8::encode_utf8_decode_utf8(s@);
                }
                Ok(StrictStr(s))
            },
        }
    }
}

/// The elements are strictly increasing in the key order.
pub open spec fn sorted_strict<T: StrictKey>(s: Seq<T>) -> bool {
    forall|i: int, j: int| 0 <= i < j < s.len() ==> s[i].spec_lt(&s[j])
}

/// Membership by value.
pub open spec fn set_contains<T: StrictKey>(s: Seq<T>, x: T) -> bool {
    exists|i: int| 0 <= i < s.len() && s[i] == x
}

/// Insertion into a sorted sequence: keeps the order, drops a duplicate.
pub open spec fn sorted_insert<T: StrictKey>(s: Seq<T>, x: T) -> Seq<T>
    decreases s.len(),
{
    if s.len() == 0 {
        seq![x]
    } else if x.spec_lt(&s[0]) {
        seq![x] + s
    } else if x == s[0] {
        s
    } else {
        seq![s[0]] + sorted_insert(s.skip(1), x)
    }
}

/// Removal from a sorted sequence by value; absent values leave it unchanged.
pub open spec fn sorted_remove<T: StrictKey>(s: Seq<T>, x: T) -> Seq<T>
    decreases s.len(),
{
    if s.len() == 0 {
        s
    } else if x == s[0] {
        s.skip(1)
    } else if x.spec_lt(&s[0]) {
        s
    } else {
        seq![s[0]] + sorted_remove(s.skip(1), x)
    }
}

/// A strictly sorted sequence stays strictly sorted when `x` goes in at `i`,
/// the position where everything before is below `x` and everything from `i`
/// on is above it.
pub proof fn lemma_insert_keeps_sorted<T: StrictKey>(s: Seq<T>, x: T, i: int)
    requires
        sorted_strict(s),
        0 <= i <= s.len(),
        forall|j: int| 0 <= j < i ==> s[j].spec_lt(&x),
        i < s.len() ==> x.spec_lt(&s[i]),
    ensures
        sorted_strict(s.insert(i, x)),
{
    let t = s.insert(i, x);
    assert forall|a: int, b: int| 0 <= a < b < t.len() implies t[a].spec_lt(&t[b]) by {
        if b < i {
            assert(t[a] == s[a] && t[b] == s[b]);
        } else if a < i && b == i {
            assert(t[a] == s[a] && t[b] == x);
        } else if a < i && b > i {
            assert(t[a] == s[a] && t[b] == s[b - 1]);
        } else if a == i {
            assert(t[a] == x && t[b] == s[b - 1]);
            if b - 1 > i {
                T::lemma_lt_properties(x, s[i], s[b - 1]);
            }
        } else {
            assert(t[a] == s[a - 1] && t[b] == s[b - 1]);
        }
    }
}

/// A value below everything from position `i` on, and above everything
/// before `i`, is absent from a strictly sorted sequence.
pub proof fn lemma_absent<T: StrictKey>(s: Seq<T>, x: T, i: int)
    requires
        sorted_strict(s),
        0 <= i <= s.len(),
        forall|j: int| 0 <= j < i ==> s[j].spec_lt(&x),
        i < s.len() ==> x.spec_lt(&s[i]),
    ensures
        !set_contains(s, x),
{
    assert forall|k: int| 0 <= k < s.len() implies s[k] != x by {
        T::lemma_lt_properties(x, x, x);
        if k >= i && k > i {
            T::lemma_lt_properties(x, s[i], s[k]);
        }
    }
}

/// Where the scan that found position `i` leaves `sorted_insert`: an equal
/// element keeps the sequence, otherwise `x` goes in exactly at `i`.
pub proof fn lemma_sorted_insert_at<T: StrictKey>(s: Seq<T>, x: T, i: int)
    requires
        sorted_strict(s),
        0 <= i <= s.len(),
        forall|j: int| 0 <= j < i ==> s[j].spec_lt(&x),
    ensures
        i < s.len() && s[i] == x ==> sorted_insert(s, x) == s && set_contains(s, x),
        i < s.len() && x.spec_lt(&s[i]) ==> sorted_insert(s, x) == s.insert(i, x) && !set_contains(
            s,
            x,
        ),
        i == s.len() ==> sorted_insert(s, x) == s.push(x) && !set_contains(s, x),
    decreases i,
{
    T::lemma_lt_properties(x, x, x);
    if i < s.len() && x.spec_lt(&s[i]) {
        lemma_absent(s, x, i);
    }
    if i == s.len() {
        lemma_absent(s, x, i);
    }
    if i == 0 {
        if s.len() == 0 {
            assert(sorted_insert(s, x) =~= s.push(x));
        } else if s[0] == x {
            assert(set_contains(s, x));
        } else if x.spec_lt(&s[0]) {
            assert(sorted_insert(s, x) =~= s.insert(0, x));
        }
    } else {
        T::lemma_lt_properties(s[0], x, s[0]);
        assert(s[0].spec_lt(&x));
        assert(!x.spec_lt(&s[0]) && x != s[0]);
        let rest = s.skip(1);
        assert forall|a: int, b: int| 0 <= a < b < rest.len() implies rest[a].spec_lt(&rest[b]) by {
            assert(rest[a] == s[a + 1] && rest[b] == s[b + 1]);
        }
        assert forall|j: int| 0 <= j < i - 1 implies rest[j].spec_lt(&x) by {
            assert(rest[j] == s[j + 1]);
        }
        lemma_sorted_insert_at(rest, x, i - 1);
        assert(sorted_insert(s, x) == seq![s[0]] + sorted_insert(rest, x));
        if i < s.len() && s[i] == x {
            assert(rest[i - 1] == x);
            assert(seq![s[0]] + rest =~= s);
            assert(set_contains(s, x)) by {
                assert(s[i] == x);
            }
        } else if i < s.len() && x.spec_lt(&s[i]) {
            assert(rest[i - 1] == s[i]);
            assert(seq![s[0]] + rest.insert(i - 1, x) =~= s.insert(i, x));
        } else if i == s.len() {
            assert(seq![s[0]] + rest.push(x) =~= s.push(x));
        }
    }
}

/// Where the scan that found position `i` leaves `sorted_remove`: an equal
/// element at `i` comes out, otherwise the value is absent and nothing moves.
pub proof fn lemma_sorted_remove_at<T: StrictKey>(s: Seq<T>, x: T, i: int)
    requires
        sorted_strict(s),
        0 <= i <= s.len(),
        forall|j: int| 0 <= j < i ==> s[j].spec_lt(&x),
    ensures
        i < s.len() && s[i] == x ==> sorted_remove(s, x) == s.remove(i) && set_contains(s, x)
            && sorted_strict(s.remove(i)),
        i < s.len() && x.spec_lt(&s[i]) ==> sorted_remove(s, x) == s && !set_contains(s, x),
        i == s.len() ==> sorted_remove(s, x) == s && !set_contains(s, x),
    decreases i,
{
    T::lemma_lt_properties(x, x, x);
    if i < s.len() && s[i] == x {
        assert(sorted_strict(s.remove(i))) by {
            let t = s.remove(i);
            assert forall|a: int, b: int| 0 <= a < b < t.len() implies t[a].spec_lt(&t[b]) by {
                if a < i && b >= i {
                    assert(t[a] == s[a] && t[b] == s[b + 1]);
                } else if a >= i {
                    assert(t[a] == s[a + 1] && t[b] == s[b + 1]);
                } else {
                    assert(t[a] == s[a] && t[b] == s[b]);
                }
            }
        }
    }
    if i < s.len() && x.spec_lt(&s[i]) {
        lemma_absent(s, x, i);
    }
    if i == s.len() {
        lemma_absent(s, x, i);
    }
    if i == 0 {
        if s.len() == 0 {
        } else if s[0] == x {
            assert(sorted_remove(s, x) =~= s.remove(0));
        }
    } else {
        T::lemma_lt_properties(s[0], x, s[0]);
        assert(s[0].spec_lt(&x));
        assert(!x.spec_lt(&s[0]) && x != s[0]);
        let rest = s.skip(1);
        assert forall|a: int, b: int| 0 <= a < b < rest.len() implies rest[a].spec_lt(&rest[b]) by {
            assert(rest[a] == s[a + 1] && rest[b] == s[b + 1]);
        }
        assert forall|j: int| 0 <= j < i - 1 implies rest[j].spec_lt(&x) by {
            assert(rest[j] == s[j + 1]);
        }
        lemma_sorted_remove_at(rest, x, i - 1);
        assert(sorted_remove(s, x) == seq![s[0]] + sorted_remove(rest, x));
        if i < s.len() && s[i] == x {
            assert(rest[i - 1] == x);
            assert(seq![s[0]] + rest.remove(i - 1) =~= s.remove(i));
            assert(s[i] == x);
        } else {
            if i < s.len() {
                assert(rest[i - 1] == s[i]);
            }
            assert(seq![s[0]] + rest =~= s);
        }
    }
}

/// Inserts `item` into a sorted vector, keeping it sorted; reports whether
/// the item was new.
fn sorted_insert_exec<T: StrictKey>(v: &mut Vec<T>, item: T) -> (r: bool)
    requires
        sorted_strict(old(v)@),
        old(v)@.len() < usize::MAX as nat,
    ensures
        sorted_strict(final(v)@),
        final(v)@ == sorted_insert(old(v)@, item),
        r <==> !set_contains(old(v)@, item),
        r ==> final(v)@.len() == old(v)@.len() + 1,
        !r ==> final(v)@ == old(v)@,
{
    let mut i: usize = 0;
    while i < v.len()
        invariant
            v@ == old(v)@,
            sorted_strict(v@),
            v@.len() < usize::MAX as nat,
            i <= v@.len(),
            forall|j: int| 0 <= j < i ==> v@[j].spec_lt(&item),
        decreases v@.len() - i,
    {
        match item.key_cmp(&v[i]) {
            KeyOrder::Less => {
                proof {
                    lemma_sorted_insert_at(v@, item, i as int);
                    lemma_insert_keeps_sorted(v@, item, i as int);
                }
                v.insert(i, item);
                return true;
            },
            KeyOrder::Equal => {
                proof {
                    lemma_sorted_insert_at(v@, item, i as int);
                }
                return false;
            },
            KeyOrder::Greater => {
                i = i + 1;
            },
        }
    }
    proof {
        lemma_sorted_insert_at(v@, item, v@.len() as int);
        lemma_insert_keeps_sorted(v@, item, v@.len() as int);
        assert(v@.insert(v@.len() as int, item) =~= v@.push(item));
    }
    v.push(item);
    true
}

/// Decoding `count` set elements after `idx` earlier ones already collected
/// in `acc`: each element must be new; a repeat reports its position.
pub open spec fn spec_dec_set_items<T: StrictKey>(
    data: Seq<u8>,
    pos: nat,
    count: nat,
    idx: nat,
    acc: Seq<T>,
) -> DecOutcome<T>
    decreases count,
{
    if count == 0 {
        DecOutcome::Done(acc, pos)
    } else {
        match T::spec_dec(data, pos) {
            None => DecOutcome::Abort,
            Some(vp) => if set_contains(acc, vp.0) {
                DecOutcome::Fail(DecodeError::RepeatedValue { pos: idx as u16 })
            } else {
                spec_dec_set_items(data, vp.1, (count - 1) as nat, idx + 1, sorted_insert(acc, vp.0))
            },
        }
    }
}

/// Decoding a bounded set: a 16-bit length, rejected below `min_len`, then
/// that many elements, each distinct from all before it.
pub open spec fn spec_dec_set<T: StrictKey>(data: Seq<u8>, pos: nat, min_len: u16) -> DecOutcome<
    T,
> {
    match spec_read_u16(data, pos) {
        None => DecOutcome::Fail(DecodeError::UnexpectedEof),
        Some(lp) => if lp.0 < min_len {
            DecOutcome::Fail(DecodeError::LengthOutOfRange { len: lp.0, min_len })
        } else {
            spec_dec_set_items::<T>(data, lp.1, lp.0 as nat, 0, Seq::empty())
        },
    }
}

/// A set of unique elements held in strictly increasing order, whose size
/// always stays between `MIN_LEN` and 0xFFFF.
pub struct StrictSet<T, const MIN_LEN: u16>(Vec<T>);

impl<T, const MIN_LEN: u16> View for StrictSet<T, MIN_LEN> {
    type V = Seq<T>;

    closed spec fn view(&self) -> Seq<T> {
        self.0@
    }
}

impl<T: StrictKey> Default for StrictSet<T, 0> {
    /// The empty set.
    fn default() -> (r: Self)
        ensures
            r@ == Seq::<T>::empty(),
            r.inv(),
    {
        StrictSet(Vec::new())
    }
}

impl<T: StrictKey> StrictSet<T, 0> {
    /// The empty set; only containers with minimum length zero have it.
    pub fn new() -> (r: Self)
        ensures
            r@ == Seq::<T>::empty(),
            r.inv(),
    {
        StrictSet(Vec::new())
    }
}

impl<T: StrictKey, const MIN_LEN: u16> StrictSet<T, MIN_LEN> {
    /// The invariant: size within the bounds, elements strictly increasing
    /// (hence unique).
    pub open spec fn inv(&self) -> bool {
        MIN_LEN as nat <= self@.len() <= STRICT_COLLECTION_MAX_LEN as nat && sorted_strict(self@)
    }

    /// The element count, always representable in 16 bits.
    pub fn len(&self) -> (n: u16)
        requires
            self.inv(),
        ensures
            n as nat == self@.len(),
    {
        self.0.len() as u16
    }

    /// The element at `index`, in sorted order.
    pub fn get(&self, index: u16) -> (r: &T)
        requires
            (index as nat) < self@.len(),
        ensures
            *r == self@[index as int],
    {
        &self.0[index as usize]
    }

    /// Whether the set holds this element.
    pub fn contains(&self, item: &T) -> (r: bool)
        requires
            self.inv(),
        ensures
            r == set_contains(self@, *item),
    {
        let mut i: usize = 0;
        while i < self.0.len()
            invariant
                sorted_strict(self@),
                i <= self@.len(),
                forall|j: int| 0 <= j < i ==> self@[j].spec_lt(item),
            decreases self@.len() - i,
        {
            match item.key_cmp(&self.0[i]) {
                KeyOrder::Equal => {
                    return true;
                },
                KeyOrder::Less => {
                    proof {
                        lemma_absent(self@, *item, i as int);
                    }
                    return false;
                },
                KeyOrder::Greater => {
                    i = i + 1;
                },
            }
        }
        proof {
            lemma_absent(self@, *item, self@.len() as int);
        }
        false
    }

    /// Inserts an element and returns the pre-insertion count; an element
    /// already present leaves the set unchanged. Refused once the set already
    /// holds 0xFFFF elements, whether or not the element is present, so the
    /// size never leaves the 16-bit range.
    pub fn insert(&mut self, item: T) -> (r: Result<u16, OversizeError>)
        requires
            old(self).inv(),
        ensures
            final(self).inv(),
            old(self)@.len() == STRICT_COLLECTION_MAX_LEN as nat ==> (r matches Err(e) && e
                == OversizeError((old(self)@.len() + 1) as usize) && final(self)@ == old(self)@),
            old(self)@.len() < STRICT_COLLECTION_MAX_LEN as nat ==> (r matches Ok(n) && n as nat
                == old(self)@.len() && final(self)@ == sorted_insert(old(self)@, item)),
    {
        let len = self.0.len();
        if len >= STRICT_COLLECTION_MAX_LEN as usize {
            return Err(OversizeError(len + 1));
        }
        sorted_insert_exec(&mut self.0, item);
        Ok(len as u16)
    }

    /// Removes an element, reporting whether it was present. Refused
    /// outright, whether or not the element is present, while the set sits at
    /// its minimum size.
    pub fn remove(&mut self, item: &T) -> (r: Result<bool, UndersizeError>)
        requires
            old(self).inv(),
        ensures
            final(self).inv(),
            old(self)@.len() == MIN_LEN as nat ==> (r matches Err(e) && e == (UndersizeError {
                len: MIN_LEN,
                min_len: MIN_LEN,
            }) && final(self)@ == old(self)@),
            old(self)@.len() != MIN_LEN as nat ==> (r matches Ok(found) && found == set_contains(
                old(self)@,
                *item,
            ) && final(self)@ == sorted_remove(old(self)@, *item)),
    {
        let len = self.len();
        if len == MIN_LEN {
            return Err(UndersizeError { len, min_len: MIN_LEN });
        }
        let mut i: usize = 0;
        while i < self.0.len()
            invariant
                self@ == old(self)@,
                old(self).inv(),
                old(self)@.len() != MIN_LEN as nat,
                i <= self@.len(),
                forall|j: int| 0 <= j < i ==> self@[j].spec_lt(item),
            decreases self@.len() - i,
        {
            match item.key_cmp(&self.0[i]) {
                KeyOrder::Equal => {
                    proof {
                        lemma_sorted_remove_at(self@, *item, i as int);
                    }
                    self.0.remove(i);
                    return Ok(true);
                },
                KeyOrder::Less => {
                    proof {
                        lemma_sorted_remove_at(self@, *item, i as int);
                    }
                    return Ok(false);
                },
                KeyOrder::Greater => {
                    i = i + 1;
                },
            }
        }
        proof {
            lemma_sorted_remove_at(self@, *item, self@.len() as int);
        }
        Ok(false)
    }

    /// Appends the wire form: 16-bit size, then the elements in their sorted
    /// order.
    pub fn strict_encode(&self, out: &mut Vec<u8>)
        requires
            self.inv(),
        ensures
            final(out)@ == old(out)@ + spec_enc_seq(self@),
    {
        let ghost out0 = out@;
        let len = self.0.len() as u16;
        len.encode(out);
        let mut i: usize = 0;
        while i < self.0.len()
            invariant
                self.inv(),
                i <= self.0.len(),
                len as nat == self@.len(),
                out@ == out0 + u16_to_le(len) + spec_enc_items(self@.take(i as int)),
            decreases self.0.len() - i,
        {
            self.0[i].encode(out);
            proof {
                lemma_enc_items_push(self@.take(i as int), self@[i as int]);
                assert(self@.take(i as int).push(self@[i as int]) =~= self@.take(i as int + 1));
                assert(out@ =~= out0 + u16_to_le(len) + spec_enc_items(self@.take(i as int + 1)));
            }
            i = i + 1;
        }
        proof {
            assert(self@.take(self@.len() as int) =~= self@);
            assert(out@ =~= out0 + spec_enc_seq(self@));
        }
    }

    /// Decodes a bounded set: reads the 16-bit size, rejects one below
    /// `MIN_LEN`, then decodes that many elements, refusing any element
    /// equal to an earlier one. Wire order is not required to be sorted;
    /// the elements are ordered as they are inserted.
    pub fn strict_decode(d: &mut Cursor) -> (r: Result<Self, DecodeError>)
        ensures
            final(d).data() == old(d).data(),
            match spec_dec_set::<T>(old(d).data(), old(d).pos(), MIN_LEN) {
                DecOutcome::Done(s, p) => r matches Ok(v) && v@ == s && v.inv() && final(d).pos()
                    == p,
                DecOutcome::Fail(e) => r matches Err(e2) && e2 == e,
                DecOutcome::Abort => r matches Err(_),
            },
    {
        let len = d.read_u16_le()?;
        if len < MIN_LEN {
            return Err(DecodeError::LengthOutOfRange { len, min_len: MIN_LEN });
        }
        let mut items: Vec<T> = Vec::new();
        let mut i: u16 = 0;
        while i < len
            invariant
                i <= len,
                MIN_LEN <= len,
                d.data() == old(d).data(),
                sorted_strict(items@),
                items@.len() == i as nat,
                spec_dec_set::<T>(old(d).data(), old(d).pos(), MIN_LEN) == spec_dec_set_items::<
                    T,
                >(d.data(), d.pos(), (len - i) as nat, i as nat, items@),
            decreases len - i,
        {
            let item = T::decode(d)?;
            let fresh = sorted_insert_exec(&mut items, item);
            if !fresh {
                return Err(DecodeError::RepeatedValue { pos: i });
            }
            i = i + 1;
        }
        Ok(StrictSet(items))
    }
}

/// The entries are strictly increasing in their key order.
pub open spec fn map_sorted<K: StrictKey, V>(s: Seq<(K, V)>) -> bool {
    forall|i: int, j: int| 0 <= i < j < s.len() ==> s[i].0.spec_lt(&s[j].0)
}

/// Whether some entry carries this key.
pub open spec fn map_contains_key<K: StrictKey, V>(s: Seq<(K, V)>, k: K) -> bool {
    exists|i: int| 0 <= i < s.len() && s[i].0 == k
}

/// The value stored under a key, if any.
pub open spec fn map_get<K: StrictKey, V>(s: Seq<(K, V)>, k: K) -> Option<V>
    decreases s.len(),
{
    if s.len() == 0 {
        None
    } else if s[0].0 == k {
        Some(s[0].1)
    } else {
        map_get(s.skip(1), k)
    }
}

/// Insertion into a key-sorted sequence: keeps the order and replaces the
/// value of an already present key.
pub open spec fn map_insert<K: StrictKey, V>(s: Seq<(K, V)>, k: K, v: V) -> Seq<(K, V)>
    decreases s.len(),
{
    if s.len() == 0 {
        seq![(k, v)]
    } else if k.spec_lt(&s[0].0) {
        seq![(k, v)] + s
    } else if k == s[0].0 {
        seq![(k, v)] + s.skip(1)
    } else {
        seq![s[0]] + map_insert(s.skip(1), k, v)
    }
}

/// Removal from a key-sorted sequence; absent keys leave it unchanged.
pub open spec fn map_remove<K: StrictKey, V>(s: Seq<(K, V)>, k: K) -> Seq<(K, V)>
    decreases s.len(),
{
    if s.len() == 0 {
        s
    } else if k == s[0].0 {
        s.skip(1)
    } else if k.spec_lt(&s[0].0) {
        s
    } else {
        seq![s[0]] + map_remove(s.skip(1), k)
    }
}

/// A key below everything from position `i` on, and above everything before
/// `i`, is absent from a key-sorted sequence.
pub proof fn lemma_map_absent<K: StrictKey, V>(s: Seq<(K, V)>, k: K, i: int)
    requires
        map_sorted(s),
        0 <= i <= s.len(),
        forall|j: int| 0 <= j < i ==> s[j].0.spec_lt(&k),
        i < s.len() ==> k.spec_lt(&s[i].0),
    ensures
        !map_contains_key(s, k),
{
    assert forall|a: int| 0 <= a < s.len() implies s[a].0 != k by {
        K::lemma_lt_properties(k, k, k);
        if a >= i && a > i {
            K::lemma_lt_properties(k, s[i].0, s[a].0);
        }
    }
}

/// An absent key has no stored value.
pub proof fn lemma_map_get_absent<K: StrictKey, V>(s: Seq<(K, V)>, k: K)
    requires
        !map_contains_key(s, k),
    ensures
        map_get(s, k) is None,
    decreases s.len(),
{
    if s.len() > 0 {
        assert(s[0].0 != k);
        let rest = s.skip(1);
        assert(!map_contains_key(rest, k)) by {
            if exists|a: int| 0 <= a < rest.len() && rest[a].0 == k {
                let a = choose|a: int| 0 <= a < rest.len() && rest[a].0 == k;
                assert(s[a + 1].0 == k);
            }
        }
        lemma_map_get_absent(rest, k);
    }
}

/// Where the scan that found position `i` leaves the map operations: an
/// equal key is updated or removed at `i`; an absent key goes in at `i` or
/// leaves the sequence unchanged. The produced sequences stay key-sorted.
pub proof fn lemma_map_at<K: StrictKey, V>(s: Seq<(K, V)>, k: K, v: V, i: int)
    requires
        map_sorted(s),
        0 <= i <= s.len(),
        forall|j: int| 0 <= j < i ==> s[j].0.spec_lt(&k),
    ensures
        i < s.len() && s[i].0 == k ==> map_insert(s, k, v) == s.update(i, (k, v)) && map_remove(
            s,
            k,
        ) == s.remove(i) && map_get(s, k) == Some(s[i].1) && map_contains_key(s, k) && map_sorted(
            s.update(i, (k, v)),
        ) && map_sorted(s.remove(i)),
        i < s.len() && k.spec_lt(&s[i].0) ==> map_insert(s, k, v) == s.insert(i, (k, v))
            && map_remove(s, k) == s && map_get(s, k) is None && !map_contains_key(s, k)
            && map_sorted(s.insert(i, (k, v))),
        i == s.len() ==> map_insert(s, k, v) == s.push((k, v)) && map_remove(s, k) == s && map_get(
            s,
            k,
        ) is None && !map_contains_key(s, k) && map_sorted(s.push((k, v))),
    decreases i,
{
    K::lemma_lt_properties(k, k, k);
    if i < s.len() && s[i].0 == k {
        let t = s.update(i, (k, v));
        assert forall|a: int, b: int| 0 <= a < b < t.len() implies t[a].0.spec_lt(&t[b].0) by {
            assert(s[a].0.spec_lt(&s[b].0));
        }
        let u = s.remove(i);
        assert forall|a: int, b: int| 0 <= a < b < u.len() implies u[a].0.spec_lt(&u[b].0) by {
            if a < i && b >= i {
                assert(u[a] == s[a] && u[b] == s[b + 1]);
            } else if a >= i {
                assert(u[a] == s[a + 1] && u[b] == s[b + 1]);
            } else {
                assert(u[a] == s[a] && u[b] == s[b]);
            }
        }
    }
    if i < s.len() && k.spec_lt(&s[i].0) {
        lemma_map_absent::<K, V>(s, k, i);
        lemma_map_get_absent::<K, V>(s, k);
        let t = s.insert(i, (k, v));
        assert forall|a: int, b: int| 0 <= a < b < t.len() implies t[a].0.spec_lt(&t[b].0) by {
            if b < i {
                assert(t[a] == s[a] && t[b] == s[b]);
            } else if a < i && b == i {
                assert(t[a] == s[a] && t[b] == (k, v));
            } else if a < i && b > i {
                assert(t[a] == s[a] && t[b] == s[b - 1]);
            } else if a == i {
                assert(t[a] == (k, v) && t[b] == s[b - 1]);
                if b - 1 > i {
                    K::lemma_lt_properties(k, s[i].0, s[b - 1].0);
                }
            } else {
                assert(t[a] == s[a - 1] && t[b] == s[b - 1]);
            }
        }
    }
    if i == s.len() {
        lemma_map_absent::<K, V>(s, k, i);
        lemma_map_get_absent::<K, V>(s, k);
        let t = s.push((k, v));
        assert forall|a: int, b: int| 0 <= a < b < t.len() implies t[a].0.spec_lt(&t[b].0) by {
            if b < s.len() {
                assert(t[a] == s[a] && t[b] == s[b]);
            } else {
                assert(t[b] == (k, v));
            }
        }
    }
    if i == 0 {
        if s.len() == 0 {
            assert(map_insert(s, k, v) =~= s.push((k, v)));
        } else if s[0].0 == k {
            assert(map_insert(s, k, v) =~= s.update(0, (k, v)));
            assert(map_remove(s, k) =~= s.remove(0));
        } else if k.spec_lt(&s[0].0) {
            assert(map_insert(s, k, v) =~= s.insert(0, (k, v)));
        }
    } else {
        K::lemma_lt_properties(s[0].0, k, s[0].0);
        assert(s[0].0.spec_lt(&k));
        assert(!k.spec_lt(&s[0].0) && k != s[0].0);
        let rest = s.skip(1);
        assert forall|a: int, b: int| 0 <= a < b < rest.len() implies rest[a].0.spec_lt(
            &rest[b].0,
        ) by {
            assert(rest[a] == s[a + 1] && rest[b] == s[b + 1]);
        }
        assert forall|j: int| 0 <= j < i - 1 implies rest[j].0.spec_lt(&k) by {
            assert(rest[j] == s[j + 1]);
        }
        lemma_map_at(rest, k, v, i - 1);
        assert(map_insert(s, k, v) == seq![s[0]] + map_insert(rest, k, v));
        assert(map_remove(s, k) == seq![s[0]] + map_remove(rest, k));
        assert(map_get(s, k) == map_get(rest, k));
        if i < s.len() && s[i].0 == k {
            assert(rest[i - 1] == s[i]);
            assert(seq![s[0]] + rest.update(i - 1, (k, v)) =~= s.update(i, (k, v)));
            assert(seq![s[0]] + rest.remove(i - 1) =~= s.remove(i));
            assert(rest[i - 1].1 == s[i].1);
            assert(s[i].0 == k);
        } else if i < s.len() && k.spec_lt(&s[i].0) {
            assert(rest[i - 1] == s[i]);
            assert(seq![s[0]] + rest.insert(i - 1, (k, v)) =~= s.insert(i, (k, v)));
            assert(seq![s[0]] + rest =~= s);
        } else if i == s.len() {
            assert(seq![s[0]] + rest.push((k, v)) =~= s.push((k, v)));
            assert(seq![s[0]] + rest =~= s);
        }
    }
}

/// Inserts an entry into a key-sorted vector, keeping it sorted; an already
/// present key has its value replaced. Reports whether the key was new.
fn map_insert_exec<K: StrictKey, V>(entries: &mut Vec<(K, V)>, key: K, value: V) -> (r: bool)
    requires
        map_sorted(old(entries)@),
        old(entries)@.len() < usize::MAX as nat,
    ensures
        map_sorted(final(entries)@),
        final(entries)@ == map_insert(old(entries)@, key, value),
        r <==> !map_contains_key(old(entries)@, key),
        r ==> final(entries)@.len() == old(entries)@.len() + 1,
        !r ==> final(entries)@.len() == old(entries)@.len(),
{
    let mut i: usize = 0;
    while i < entries.len()
        invariant
            entries@ == old(entries)@,
            map_sorted(entries@),
            entries@.len() < usize::MAX as nat,
            i <= entries@.len(),
            forall|j: int| 0 <= j < i ==> entries@[j].0.spec_lt(&key),
        decreases entries@.len() - i,
    {
        match key.key_cmp(&entries[i].0) {
            KeyOrder::Less => {
                proof {
                    lemma_map_at(entries@, key, value, i as int);
                }
                entries.insert(i, (key, value));
                return true;
            },
            KeyOrder::Equal => {
                proof {
                    lemma_map_at(entries@, key, value, i as int);
                }
                entries.set(i, (key, value));
                return false;
            },
            KeyOrder::Greater => {
                i = i + 1;
            },
        }
    }
    proof {
        lemma_map_at(entries@, key, value, entries@.len() as int);
    }
    entries.push((key, value));
    true
}

/// The concatenated encodings of the entries: each key, then its value.
pub open spec fn spec_enc_map_items<K: StrictCodec, V: StrictCodec>(s: Seq<(K, V)>) -> Seq<u8>
    decreases s.len(),
{
    if s.len() == 0 {
        Seq::empty()
    } else {
        s[0].0.spec_enc() + s[0].1.spec_enc() + spec_enc_map_items(s.skip(1))
    }
}

/// Appending one entry appends its key's and value's encodings.
pub proof fn lemma_enc_map_items_push<K: StrictCodec, V: StrictCodec>(s: Seq<(K, V)>, e: (K, V))
    ensures
        spec_enc_map_items(s.push(e)) == spec_enc_map_items(s) + e.0.spec_enc() + e.1.spec_enc(),
    decreases s.len(),
{
    if s.len() == 0 {
        assert(s.push(e).skip(1) =~= Seq::<(K, V)>::empty());
        assert(s.push(e)[0] == e);
        assert(spec_enc_map_items(s.push(e)) == e.0.spec_enc() + e.1.spec_enc()
            + spec_enc_map_items(Seq::<(K, V)>::empty()));
        assert(spec_enc_map_items(s.push(e)) =~= spec_enc_map_items(s) + e.0.spec_enc()
            + e.1.spec_enc());
    } else {
        assert(s.push(e).skip(1) =~= s.skip(1).push(e));
        lemma_enc_map_items_push(s.skip(1), e);
        assert(s.push(e)[0] == s[0]);
        assert(spec_enc_map_items(s.push(e)) =~= spec_enc_map_items(s) + e.0.spec_enc()
            + e.1.spec_enc());
    }
}

/// The wire form of a map: its 16-bit size, then its entries in key order.
pub open spec fn spec_enc_map<K: StrictCodec, V: StrictCodec>(s: Seq<(K, V)>) -> Seq<u8> {
    u16_to_le(s.len() as u16) + spec_enc_map_items(s)
}

/// Decoding `count` map entries after `idx` earlier ones already collected in
/// `acc`: a key, then its value; each key must be new, and a repeat reports
/// its position.
pub open spec fn spec_dec_map_items<K: StrictKey, V: StrictCodec>(
    data: Seq<u8>,
    pos: nat,
    count: nat,
    idx: nat,
    acc: Seq<(K, V)>,
) -> DecOutcome<(K, V)>
    decreases count,
{
    if count == 0 {
        DecOutcome::Done(acc, pos)
    } else {
        match K::spec_dec(data, pos) {
            None => DecOutcome::Abort,
            Some(kp) => match V::spec_dec(data, kp.1) {
                None => DecOutcome::Abort,
                Some(vp) => if map_contains_key(acc, kp.0) {
                    DecOutcome::Fail(DecodeError::RepeatedValue { pos: idx as u16 })
                } else {
                    spec_dec_map_items(
                        data,
                        vp.1,
                        (count - 1) as nat,
                        idx + 1,
                        map_insert(acc, kp.0, vp.0),
                    )
                },
            },
        }
    }
}

/// Decoding a bounded map: a 16-bit size, rejected below `min_len`, then
/// that many key-value entries, every key distinct from all before it.
pub open spec fn spec_dec_map<K: StrictKey, V: StrictCodec>(
    data: Seq<u8>,
    pos: nat,
    min_len: u16,
) -> DecOutcome<(K, V)> {
    match spec_read_u16(data, pos) {
        None => DecOutcome::Fail(DecodeError::UnexpectedEof),
        Some(lp) => if lp.0 < min_len {
            DecOutcome::Fail(DecodeError::LengthOutOfRange { len: lp.0, min_len })
        } else {
            spec_dec_map_items::<K, V>(data, lp.1, lp.0 as nat, 0, Seq::empty())
        },
    }
}

/// A map whose entries are held in strictly increasing key order, with a
/// size that always stays between `MIN_LEN` and 0xFFFF.
pub struct StrictMap<K, V, const MIN_LEN: u16>(Vec<(K, V)>);

impl<K, V, const MIN_LEN: u16> View for StrictMap<K, V, MIN_LEN> {
    type V = Seq<(K, V)>;

    closed spec fn view(&self) -> Seq<(K, V)> {
        self.0@
    }
}

impl<K: StrictKey, V> Default for StrictMap<K, V, 0> {
    /// The empty map.
    fn default() -> (r: Self)
        ensures
            r@ == Seq::<(K, V)>::empty(),
            r.inv(),
    {
        StrictMap(Vec::new())
    }
}

impl<K: StrictKey, V> StrictMap<K, V, 0> {
    /// The empty map; only containers with minimum length zero have it.
    pub fn new() -> (r: Self)
        ensures
            r@ == Seq::<(K, V)>::empty(),
            r.inv(),
    {
        StrictMap(Vec::new())
    }
}

impl<K: StrictKey, V, const MIN_LEN: u16> StrictMap<K, V, MIN_LEN> {
    /// The invariant: size within the bounds, keys strictly increasing
    /// (hence unique).
    pub open spec fn inv(&self) -> bool {
        MIN_LEN as nat <= self@.len() <= STRICT_COLLECTION_MAX_LEN as nat && map_sorted(self@)
    }

    /// The entry count, always representable in 16 bits.
    pub fn len(&self) -> (n: u16)
        requires
            self.inv(),
        ensures
            n as nat == self@.len(),
    {
        self.0.len() as u16
    }

    /// The entry at `index`, in key order.
    pub fn entry(&self, index: u16) -> (r: &(K, V))
        requires
            (index as nat) < self@.len(),
        ensures
            *r == self@[index as int],
    {
        &self.0[index as usize]
    }

    /// The value stored under a key, if any.
    pub fn get(&self, key: &K) -> (r: Option<&V>)
        requires
            self.inv(),
        ensures
            match map_get(self@, *key) {
                Some(v) => r matches Some(rv) && *rv == v,
                None => r is None,
            },
    {
        let mut i: usize = 0;
        while i < self.0.len()
            invariant
                self.inv(),
                i <= self@.len(),
                forall|j: int| 0 <= j < i ==> self@[j].0.spec_lt(key),
            decreases self@.len() - i,
        {
            match key.key_cmp(&self.0[i].0) {
                KeyOrder::Equal => {
                    proof {
                        lemma_map_at(self@, *key, self@[i as int].1, i as int);
                    }
                    return Some(&self.0[i].1);
                },
                KeyOrder::Less => {
                    proof {
                        lemma_map_at(self@, *key, self@[i as int].1, i as int);
                    }
                    return None;
                },
                KeyOrder::Greater => {
                    i = i + 1;
                },
            }
        }
        proof {
            if self@.len() > 0 {
                lemma_map_at(self@, *key, self@[0].1, self@.len() as int);
            }
        }
        None
    }

    /// Inserts an entry and returns the pre-insertion count; an already
    /// present key keeps its place and has its value replaced. Refused once
    /// the map already holds 0xFFFF entries, whether or not the key is
    /// present, so the size never leaves the 16-bit range.
    pub fn insert(&mut self, key: K, value: V) -> (r: Result<u16, OversizeError>)
        requires
            old(self).inv(),
        ensures
            final(self).inv(),
            old(self)@.len() == STRICT_COLLECTION_MAX_LEN as nat ==> (r matches Err(e) && e
                == OversizeError((old(self)@.len() + 1) as usize) && final(self)@ == old(self)@),
            old(self)@.len() < STRICT_COLLECTION_MAX_LEN as nat ==> (r matches Ok(n) && n as nat
                == old(self)@.len() && final(self)@ == map_insert(old(self)@, key, value)),
    {
        let len = self.0.len();
        if len >= STRICT_COLLECTION_MAX_LEN as usize {
            return Err(OversizeError(len + 1));
        }
        map_insert_exec(&mut self.0, key, value);
        Ok(len as u16)
    }

    /// Removes the entry under a key, returning its value if it was there.
    /// Refused outright, whether or not the key is present, while the map
    /// sits at its minimum size.
    pub fn remove(&mut self, key: &K) -> (r: Result<Option<V>, UndersizeError>)
        requires
            old(self).inv(),
        ensures
            final(self).inv(),
            old(self)@.len() == MIN_LEN as nat ==> (r matches Err(e) && e == (UndersizeError {
                len: MIN_LEN,
                min_len: MIN_LEN,
            }) && final(self)@ == old(self)@),
            old(self)@.len() != MIN_LEN as nat ==> (r matches Ok(taken) && taken == map_get(
                old(self)@,
                *key,
            ) && final(self)@ == map_remove(old(self)@, *key)),
    {
        let len = self.len();
        if len == MIN_LEN {
            return Err(UndersizeError { len, min_len: MIN_LEN });
        }
        let mut i: usize = 0;
        while i < self.0.len()
            invariant
                self@ == old(self)@,
                old(self).inv(),
                old(self)@.len() != MIN_LEN as nat,
                i <= self@.len(),
                forall|j: int| 0 <= j < i ==> self@[j].0.spec_lt(key),
            decreases self@.len() - i,
        {
            match key.key_cmp(&self.0[i].0) {
                KeyOrder::Equal => {
                    proof {
                        lemma_map_at(self@, *key, self@[i as int].1, i as int);
                    }
                    let entry = self.0.remove(i);
                    return Ok(Some(entry.1));
                },
                KeyOrder::Less => {
                    proof {
                        lemma_map_at(self@, *key, self@[i as int].1, i as int);
                    }
                    return Ok(None);
                },
                KeyOrder::Greater => {
                    i = i + 1;
                },
            }
        }
        proof {
            if self@.len() > 0 {
                lemma_map_at(self@, *key, self@[0].1, self@.len() as int);
            } else {
                assert(map_remove(self@, *key) =~= self@);
            }
        }
        Ok(None)
    }

}

impl<K: StrictKey, V: StrictCodec, const MIN_LEN: u16> StrictMap<K, V, MIN_LEN> {
    /// Appends the wire form: 16-bit size, then each entry as its key's
    /// bytes followed by its value's, in key order.
    pub fn strict_encode(&self, out: &mut Vec<u8>)
        requires
            self.inv(),
        ensures
            final(out)@ == old(out)@ + spec_enc_map(self@),
    {
        let ghost out0 = out@;
        let len = self.0.len() as u16;
        len.encode(out);
        let mut i: usize = 0;
        while i < self.0.len()
            invariant
                self.inv(),
                i <= self.0.len(),
                len as nat == self@.len(),
                out@ == out0 + u16_to_le(len) + spec_enc_map_items(self@.take(i as int)),
            decreases self.0.len() - i,
        {
            self.0[i].0.encode(out);
            self.0[i].1.encode(out);
            proof {
                lemma_enc_map_items_push(self@.take(i as int), self@[i as int]);
                assert(self@.take(i as int).push(self@[i as int]) =~= self@.take(i as int + 1));
                assert(out@ =~= out0 + u16_to_le(len) + spec_enc_map_items(
                    self@.take(i as int + 1),
                ));
            }
            i = i + 1;
        }
        proof {
            assert(self@.take(self@.len() as int) =~= self@);
            assert(out@ =~= out0 + spec_enc_map(self@));
        }
    }

    /// Decodes a bounded map: reads the 16-bit size, rejects one below
    /// `MIN_LEN`, then decodes that many key-value entries, refusing any key
    /// equal to an earlier one. Wire order is not required to be sorted; the
    /// entries are ordered as they are inserted.
    pub fn strict_decode(d: &mut Cursor) -> (r: Result<Self, DecodeError>)
        ensures
            final(d).data() == old(d).data(),
            match spec_dec_map::<K, V>(old(d).data(), old(d).pos(), MIN_LEN) {
                DecOutcome::Done(s, p) => r matches Ok(v) && v@ == s && v.inv() && final(d).pos()
                    == p,
                DecOutcome::Fail(e) => r matches Err(e2) && e2 == e,
                DecOutcome::Abort => r matches Err(_),
            },
    {
        let len = d.read_u16_le()?;
        if len < MIN_LEN {
            return Err(DecodeError::LengthOutOfRange { len, min_len: MIN_LEN });
        }
        let mut entries: Vec<(K, V)> = Vec::new();
        let mut i: u16 = 0;
        while i < len
            invariant
                i <= len,
                MIN_LEN <= len,
                d.data() == old(d).data(),
                map_sorted(entries@),
                entries@.len() == i as nat,
                spec_dec_map::<K, V>(old(d).data(), old(d).pos(), MIN_LEN) == spec_dec_map_items::<
                    K,
                    V,
                >(d.data(), d.pos(), (len - i) as nat, i as nat, entries@),
            decreases len - i,
        {
            let key = K::decode(d)?;
            let value = V::decode(d)?;
            let fresh = map_insert_exec(&mut entries, key, value);
            if !fresh {
                return Err(DecodeError::RepeatedValue { pos: i });
            }
            i = i + 1;
        }
        Ok(StrictMap(entries))
    }
}

/// Decoding at the start of a run of element encodings reads back exactly
/// those elements, whatever bytes follow them.
pub proof fn lemma_dec_items_of_enc<T: StrictCodec>(s: Seq<T>, data: Seq<u8>, pos: nat)
    requires
        pos + spec_enc_items(s).len() <= data.len(),
        data.subrange(pos as int, (pos + spec_enc_items(s).len()) as int) == spec_enc_items(s),
    ensures
        spec_dec_items::<T>(data, pos, s.len()) == Some(
            (s, (pos + spec_enc_items(s).len()) as nat),
        ),
    decreases s.len(),
{
    if s.len() == 0 {
        assert(Seq::<T>::empty() =~= s);
    } else {
        let x = s[0];
        let e0 = x.spec_enc();
        let etail = spec_enc_items(s.skip(1));
        let eall = spec_enc_items(s);
        assert(eall == e0 + etail);
        assert(data.subrange(pos as int, (pos + e0.len()) as int) =~= e0) by {
            assert forall|j: int| 0 <= j < e0.len() implies data[pos + j] == e0[j] by {
                assert(data[pos + j] == data.subrange(pos as int, (pos + eall.len()) as int)[j]);
                assert(eall[j] == e0[j]);
            }
        }
        x.lemma_dec_enc(data, pos);
        let p1 = (pos + e0.len()) as nat;
        assert(data.subrange(p1 as int, (p1 + etail.len()) as int) =~= etail) by {
            assert forall|j: int| 0 <= j < etail.len() implies data[p1 + j] == etail[j] by {
                assert(data[pos + (e0.len() + j)] == data.subrange(
                    pos as int,
                    (pos + eall.len()) as int,
                )[e0.len() + j]);
                assert(eall[e0.len() + j] == etail[j]);
            }
        }
        lemma_dec_items_of_enc::<T>(s.skip(1), data, p1);
        assert(seq![x] + s.skip(1) =~= s);
    }
}

/// Law: the wire form of a bounded sequence decodes back, under the same
/// minimum, to exactly the sequence, whatever bytes follow it.
pub proof fn lemma_vec_round_trip<T: StrictCodec>(s: Seq<T>, rest: Seq<u8>, min_len: u16)
    requires
        min_len as nat <= s.len() <= STRICT_COLLECTION_MAX_LEN as nat,
    ensures
        spec_dec_vec::<T>(spec_enc_seq(s) + rest, 0, min_len) == DecOutcome::Done(
            s,
            spec_enc_seq(s).len() as nat,
        ),
{
    let data = spec_enc_seq(s) + rest;
    let len = s.len() as u16;
    let items = spec_enc_items(s);
    assert(data[0] == (len % 256) as u8 && data[1] == (len / 256) as u8);
    assert(u16_from_le((len % 256) as u8, (len / 256) as u8) == len);
    assert(spec_read_u16(data, 0) == Some((len, 2nat)));
    assert(data.subrange(2, (2 + items.len()) as int) =~= items) by {
        assert forall|j: int| 0 <= j < items.len() implies data[2 + j] == items[j] by {
            assert(data[2 + j] == spec_enc_seq(s)[2 + j]);
            assert(spec_enc_seq(s)[2 + j] == items[j]);
        }
    }
    lemma_dec_items_of_enc::<T>(s, data, 2);
}

/// Law: the wire form of a bounded set decodes back, under the same
/// minimum, to exactly the set, whatever bytes follow it. Decoding inserts
/// element by element; because the encoded elements come in strictly
/// increasing order, each lands at the end and none repeats.
pub proof fn lemma_dec_set_items_of_enc<T: StrictKey>(
    acc: Seq<T>,
    s: Seq<T>,
    data: Seq<u8>,
    pos: nat,
    idx: nat,
)
    requires
        sorted_strict(acc + s),
        pos + spec_enc_items(s).len() <= data.len(),
        data.subrange(pos as int, (pos + spec_enc_items(s).len()) as int) == spec_enc_items(s),
    ensures
        spec_dec_set_items::<T>(data, pos, s.len(), idx, acc) == DecOutcome::Done(
            acc + s,
            (pos + spec_enc_items(s).len()) as nat,
        ),
    decreases s.len(),
{
    if s.len() == 0 {
        assert(acc + s =~= acc);
    } else {
        let x = s[0];
        let e0 = x.spec_enc();
        let etail = spec_enc_items(s.skip(1));
        let eall = spec_enc_items(s);
        assert(eall == e0 + etail);
        assert(data.subrange(pos as int, (pos + e0.len()) as int) =~= e0) by {
            assert forall|j: int| 0 <= j < e0.len() implies data[pos + j] == e0[j] by {
                assert(data[pos + j] == data.subrange(pos as int, (pos + eall.len()) as int)[j]);
                assert(eall[j] == e0[j]);
            }
        }
        x.lemma_dec_enc(data, pos);
        let p1 = (pos + e0.len()) as nat;
        assert(sorted_strict(acc)) by {
            assert forall|a: int, b: int| 0 <= a < b < acc.len() implies acc[a].spec_lt(
                &acc[b],
            ) by {
                assert((acc + s)[a] == acc[a] && (acc + s)[b] == acc[b]);
            }
        }
        assert forall|j: int| 0 <= j < acc.len() implies acc[j].spec_lt(&x) by {
            assert((acc + s)[j] == acc[j] && (acc + s)[acc.len() as int] == x);
        }
        lemma_sorted_insert_at(acc, x, acc.len() as int);
        assert(!set_contains(acc, x));
        assert(sorted_insert(acc, x) == acc.push(x));
        assert(data.subrange(p1 as int, (p1 + etail.len()) as int) =~= etail) by {
            assert forall|j: int| 0 <= j < etail.len() implies data[p1 + j] == etail[j] by {
                assert(data[pos + (e0.len() + j)] == data.subrange(
                    pos as int,
                    (pos + eall.len()) as int,
                )[e0.len() + j]);
                assert(eall[e0.len() + j] == etail[j]);
            }
        }
        assert(acc.push(x) + s.skip(1) =~= acc + s);
        lemma_dec_set_items_of_enc::<T>(acc.push(x), s.skip(1), data, p1, idx + 1);
    }
}

/// Law: encoding a valid bounded set and decoding it with the same bounds
/// reproduces an equal value.
pub proof fn lemma_set_round_trip<T: StrictKey>(s: Seq<T>, rest: Seq<u8>, min_len: u16)
    requires
        sorted_strict(s),
        min_len as nat <= s.len() <= STRICT_COLLECTION_MAX_LEN as nat,
    ensures
        spec_dec_set::<T>(spec_enc_seq(s) + rest, 0, min_len) == DecOutcome::Done(
            s,
            spec_enc_seq(s).len() as nat,
        ),
{
    let data = spec_enc_seq(s) + rest;
    let len = s.len() as u16;
    let items = spec_enc_items(s);
    assert(data[0] == (len % 256) as u8 && data[1] == (len / 256) as u8);
    assert(u16_from_le((len % 256) as u8, (len / 256) as u8) == len);
    assert(spec_read_u16(data, 0) == Some((len, 2nat)));
    assert(data.subrange(2, (2 + items.len()) as int) =~= items) by {
        assert forall|j: int| 0 <= j < items.len() implies data[2 + j] == items[j] by {
            assert(data[2 + j] == spec_enc_seq(s)[2 + j]);
            assert(spec_enc_seq(s)[2 + j] == items[j]);
        }
    }
    assert(Seq::<T>::empty() + s =~= s);
    lemma_dec_set_items_of_enc::<T>(Seq::empty(), s, data, 2, 0);
}

/// Decoding at the start of a run of entry encodings reads back exactly
/// those entries, whatever bytes follow them.
pub proof fn lemma_dec_map_items_of_enc<K: StrictKey, V: StrictCodec>(
    acc: Seq<(K, V)>,
    s: Seq<(K, V)>,
    data: Seq<u8>,
    pos: nat,
    idx: nat,
)
    requires
        map_sorted(acc + s),
        pos + spec_enc_map_items(s).len() <= data.len(),
        data.subrange(pos as int, (pos + spec_enc_map_items(s).len()) as int)
            == spec_enc_map_items(s),
    ensures
        spec_dec_map_items::<K, V>(data, pos, s.len(), idx, acc) == DecOutcome::Done(
            acc + s,
            (pos + spec_enc_map_items(s).len()) as nat,
        ),
    decreases s.len(),
{
    if s.len() == 0 {
        assert(acc + s =~= acc);
    } else {
        let k = s[0].0;
        let v = s[0].1;
        let ek = k.spec_enc();
        let ev = v.spec_enc();
        let etail = spec_enc_map_items(s.skip(1));
        let eall = spec_enc_map_items(s);
        assert(eall == ek + ev + etail);
        assert forall|j: int| 0 <= j < eall.len() implies data[pos + j] == eall[j] by {
            assert(data[pos + j] == data.subrange(pos as int, (pos + eall.len()) as int)[j]);
        }
        assert(data.subrange(pos as int, (pos + ek.len()) as int) =~= ek) by {
            assert forall|j: int| 0 <= j < ek.len() implies data[pos + j] == ek[j] by {
                assert(eall[j] == (ek + ev)[j]);
            }
        }
        k.lemma_dec_enc(data, pos);
        let p1 = (pos + ek.len()) as nat;
        assert(data.subrange(p1 as int, (p1 + ev.len()) as int) =~= ev) by {
            assert forall|j: int| 0 <= j < ev.len() implies data[p1 + j] == ev[j] by {
                assert(eall[ek.len() + j] == (ek + ev)[ek.len() + j]);
            }
        }
        v.lemma_dec_enc(data, p1);
        let p2 = (p1 + ev.len()) as nat;
        assert(map_sorted(acc)) by {
            assert forall|a: int, b: int| 0 <= a < b < acc.len() implies acc[a].0.spec_lt(
                &acc[b].0,
            ) by {
                assert((acc + s)[a] == acc[a] && (acc + s)[b] == acc[b]);
            }
        }
        assert forall|j: int| 0 <= j < acc.len() implies acc[j].0.spec_lt(&k) by {
            assert((acc + s)[j] == acc[j] && (acc + s)[acc.len() as int] == s[0]);
        }
        lemma_map_at(acc, k, v, acc.len() as int);
        assert(!map_contains_key(acc, k));
        assert(map_insert(acc, k, v) == acc.push((k, v)));
        assert(data.subrange(p2 as int, (p2 + etail.len()) as int) =~= etail) by {
            assert forall|j: int| 0 <= j < etail.len() implies data[p2 + j] == etail[j] by {
                assert(data[pos + (ek.len() + ev.len() + j)] == eall[ek.len() + ev.len() + j]);
                assert(eall[ek.len() + ev.len() + j] == etail[j]);
            }
        }
        assert(acc.push((k, v)) + s.skip(1) =~= acc + s);
        assert((k, v) == s[0]);
        lemma_dec_map_items_of_enc::<K, V>(acc.push((k, v)), s.skip(1), data, p2, idx + 1);
    }
}

/// Law: encoding a valid bounded map and decoding it with the same bounds
/// reproduces an equal value.
pub proof fn lemma_map_round_trip<K: StrictKey, V: StrictCodec>(
    s: Seq<(K, V)>,
    rest: Seq<u8>,
    min_len: u16,
)
    requires
        map_sorted(s),
        min_len as nat <= s.len() <= STRICT_COLLECTION_MAX_LEN as nat,
    ensures
        spec_dec_map::<K, V>(spec_enc_map(s) + rest, 0, min_len) == DecOutcome::Done(
            s,
            spec_enc_map(s).len() as nat,
        ),
{
    let data = spec_enc_map(s) + rest;
    let len = s.len() as u16;
    let items = spec_enc_map_items(s);
    assert(data[0] == (len % 256) as u8 && data[1] == (len / 256) as u8);
    assert(u16_from_le((len % 256) as u8, (len / 256) as u8) == len);
    assert(spec_read_u16(data, 0) == Some((len, 2nat)));
    assert(data.subrange(2, (2 + items.len()) as int) =~= items) by {
        assert forall|j: int| 0 <= j < items.len() implies data[2 + j] == items[j] by {
            assert(data[2 + j] == spec_enc_map(s)[2 + j]);
            assert(spec_enc_map(s)[2 + j] == items[j]);
        }
    }
    assert(Seq::<(K, V)>::empty() + s =~= s);
    lemma_dec_map_items_of_enc::<K, V>(Seq::empty(), s, data, 2, 0);
}

/// Law: a removed set element, re-inserted at once, restores the set
/// exactly, membership included.
pub proof fn lemma_set_remove_insert_restores<T: StrictKey>(s: Seq<T>, x: T)
    requires
        sorted_strict(s),
        set_contains(s, x),
    ensures
        sorted_insert(sorted_remove(s, x), x) == s,
{
    let i = choose|i: int| 0 <= i < s.len() && s[i] == x;
    assert forall|j: int| 0 <= j < i implies s[j].spec_lt(&x) by {
        assert(s[j].spec_lt(&s[i]));
    }
    lemma_sorted_remove_at(s, x, i);
    let t = s.remove(i);
    assert forall|j: int| 0 <= j < i implies t[j].spec_lt(&x) by {
        assert(t[j] == s[j]);
    }
    if i < t.len() {
        assert(t[i] == s[i + 1]);
        assert(x.spec_lt(&t[i]));
    }
    lemma_sorted_insert_at(t, x, i);
    if i < t.len() {
        assert(t.insert(i, x) =~= s);
    } else {
        assert(t.push(x) =~= s);
    }
}

/// Law: a removed map entry, re-inserted at once with its old value,
/// restores the map exactly.
pub proof fn lemma_map_remove_insert_restores<K: StrictKey, V>(s: Seq<(K, V)>, k: K, v: V)
    requires
        map_sorted(s),
        map_get(s, k) == Some(v),
    ensures
        map_insert(map_remove(s, k), k, v) == s,
{
    assert(map_contains_key(s, k)) by {
        if !map_contains_key(s, k) {
            lemma_map_get_absent::<K, V>(s, k);
        }
    }
    let i = choose|i: int| 0 <= i < s.len() && s[i].0 == k;
    assert forall|j: int| 0 <= j < i implies s[j].0.spec_lt(&k) by {
        assert(s[j].0.spec_lt(&s[i].0));
    }
    lemma_map_at(s, k, v, i);
    assert(s[i].1 == v) by {
        assert(map_get(s, k) == Some(s[i].1));
    }
    let t = s.remove(i);
    assert forall|j: int| 0 <= j < i implies t[j].0.spec_lt(&k) by {
        assert(t[j] == s[j]);
    }
    if i < t.len() {
        assert(t[i] == s[i + 1]);
        assert(k.spec_lt(&t[i].0));
    }
    assert(map_sorted(t));
    lemma_map_at(t, k, v, i);
    if i < t.len() {
        assert(t.insert(i, (k, v)) =~= s);
    } else {
        assert(t.push((k, v)) =~= s);
    }
}

/// Law: an element removed from a bounded sequence and pushed back at once
/// restores the sequence's content: exactly, order included, when it was the
/// last element — the only position a push can refill, since the sequence
/// grows only at its end — and as a multiset of elements from any position.
pub proof fn lemma_vec_remove_push_restores<T>(s: Seq<T>, i: int)
    requires
        0 <= i < s.len(),
    ensures
        s.remove(i).push(s[i]).to_multiset() == s.to_multiset(),
        i == s.len() - 1 ==> s.remove(i).push(s[i]) == s,
{
    broadcast use vstd::seq_lib::group_to_multiset_ensures;

    assert(s.remove(i).push(s[i]).to_multiset() =~= s.remove(i).to_multiset().insert(s[i]));
    assert(s.remove(i).to_multiset() =~= s.to_multiset().remove(s[i]));
    assert(s.contains(s[i]));
    assert(s.to_multiset().remove(s[i]).insert(s[i]) =~= s.to_multiset());
    if i == s.len() - 1 {
        assert(s.remove(i).push(s[i]) =~= s);
    }
}

/// Every byte of the sequence is in the 7-bit ASCII range.
pub open spec fn ascii_ok(s: Seq<u8>) -> bool {
    forall|i: int| 0 <= i < s.len() ==> s[i] < 0x80
}

/// The wire form of an ASCII string: its 16-bit byte length, then its bytes.
pub open spec fn spec_enc_ascii(s: Seq<u8>) -> Seq<u8> {
    u16_to_le(s.len() as u16) + s
}

/// Decoding a bounded ASCII string: a 16-bit byte length, rejected below
/// `min_len` or above `max_len`, then that many bytes, each below 0x80.
pub open spec fn spec_dec_ascii(data: Seq<u8>, pos: nat, min_len: u16, max_len: u16) -> DecOutcome<
    u8,
> {
    match spec_read_u16(data, pos) {
        None => DecOutcome::Fail(DecodeError::UnexpectedEof),
        Some(lp) => if lp.0 < min_len {
            DecOutcome::Fail(DecodeError::LengthOutOfRange { len: lp.0, min_len })
        } else if lp.0 > max_len {
            DecOutcome::Fail(DecodeError::ExceedMaxItems { len: lp.0, max_len })
        } else if lp.1 + lp.0 > data.len() {
            DecOutcome::Fail(DecodeError::UnexpectedEof)
        } else {
            let bytes = data.subrange(lp.1 as int, lp.1 as int + lp.0 as int);
            if ascii_ok(bytes) {
                DecOutcome::Done(bytes, (lp.1 + lp.0) as nat)
            } else {
                DecOutcome::Fail(
                    DecodeError::CharOutOfRange {
                        byte: bytes[choose|i: int| 0 <= i < bytes.len() && bytes[i] >= 0x80],
                    },
                )
            }
        },
    }
}

/// Law: encoding a valid bounded string and decoding it with the same
/// bounds reproduces an equal value, whatever bytes follow it.
pub proof fn lemma_str_round_trip(s: Seq<char>, rest: Seq<u8>, min_len: u16)
    requires
        min_len as nat <= encode_utf8(s).len() <= STRICT_COLLECTION_MAX_LEN as nat,
    ensures
        spec_dec_str(spec_enc_str(s) + rest, 0, min_len) == DecOutcome::Done(
            s,
            spec_enc_str(s).len() as nat,
        ),
{
    let bytes = encode_utf8(s);
    let data = spec_enc_str(s) + rest;
    let len = bytes.len() as u16;
    assert(data[0] == (len % 256) as u8 && data[1] == (len / 256) as u8);
    assert(u16_from_le((len % 256) as u8, (len / 256) as u8) == len);
    assert(spec_read_u16(data, 0) == Some((len, 2nat)));
    assert(data.subrange(2, (2 + bytes.len()) as int) =~= bytes) by {
        assert forall|j: int| 0 <= j < bytes.len() implies data[2 + j] == bytes[j] by {
            assert(data[2 + j] == spec_enc_str(s)[2 + j]);
            assert(spec_enc_str(s)[2 + j] == bytes[j]);
        }
    }
    vstd::utf8::encode_utf8_valid_utf8(s);
    vstd::utf8::encode_utf8_decode_utf8(s);
}

/// Law: encoding a valid bounded ASCII string and decoding it with the same
/// bounds reproduces an equal value, whatever bytes follow it.
pub proof fn lemma_ascii_round_trip(s: Seq<u8>, rest: Seq<u8>, min_len: u16, max_len: u16)
    requires
        ascii_ok(s),
        min_len as nat <= s.len() <= max_len as nat,
    ensures
        spec_dec_ascii(spec_enc_ascii(s) + rest, 0, min_len, max_len) == DecOutcome::Done(
            s,
            spec_enc_ascii(s).len() as nat,
        ),
{
    let data = spec_enc_ascii(s) + rest;
    let len = s.len() as u16;
    assert(data[0] == (len % 256) as u8 && data[1] == (len / 256) as u8);
    assert(u16_from_le((len % 256) as u8, (len / 256) as u8) == len);
    assert(spec_read_u16(data, 0) == Some((len, 2nat)));
    assert(data.subrange(2, (2 + s.len()) as int) =~= s) by {
        assert forall|j: int| 0 <= j < s.len() implies data[2 + j] == s[j] by {
            assert(data[2 + j] == spec_enc_ascii(s)[2 + j]);
            assert(spec_enc_ascii(s)[2 + j] == s[j]);
        }
    }
}

/// A string restricted to 7-bit ASCII bytes, with a byte length between
/// `MIN_LEN` and `MAX_LEN`. Held as its bytes, every one below 0x80.
pub struct AsciiString<const MIN_LEN: u16, const MAX_LEN: u16>(Vec<u8>);

impl<const MIN_LEN: u16, const MAX_LEN: u16> View for AsciiString<MIN_LEN, MAX_LEN> {
    type V = Seq<u8>;

    closed spec fn view(&self) -> Seq<u8> {
        self.0@
    }
}

impl<const MAX_LEN: u16> Default for AsciiString<0, MAX_LEN> {
    /// The empty string.
    fn default() -> (r: Self)
        ensures
            r@ == Seq::<u8>::empty(),
            r.inv(),
    {
        AsciiString(Vec::new())
    }
}

impl<const MAX_LEN: u16> AsciiString<0, MAX_LEN> {
    /// The empty string; only strings with minimum length zero have it.
    pub fn new() -> (r: Self)
        ensures
            r@ == Seq::<u8>::empty(),
            r.inv(),
    {
        AsciiString(Vec::new())
    }
}

impl<const MIN_LEN: u16, const MAX_LEN: u16> AsciiString<MIN_LEN, MAX_LEN> {
    /// The invariant: byte length within the bounds, every byte ASCII.
    pub open spec fn inv(&self) -> bool {
        MIN_LEN as nat <= self@.len() <= MAX_LEN as nat && ascii_ok(self@)
    }

    /// Builds a bounded ASCII string from any string. Succeeds exactly when
    /// the byte length lies within the bounds and every byte is ASCII;
    /// reports the violated bound, or the first offending byte, otherwise.
    pub fn try_from(value: &str) -> (r: Result<Self, AsciiStringError>)
        ensures
            value.spec_bytes().len() > MAX_LEN as nat ==> (r matches Err(e) && e
                == AsciiStringError::Oversize(OversizeError(value.spec_bytes().len() as usize))),
            value.spec_bytes().len() <= MAX_LEN as nat && value.spec_bytes().len() < MIN_LEN as nat
                ==> (r matches Err(e) && e == AsciiStringError::Undersize(
                UndersizeError { len: value.spec_bytes().len() as u16, min_len: MIN_LEN },
            )),
            MIN_LEN as nat <= value.spec_bytes().len() <= MAX_LEN as nat && !ascii_ok(
                value.spec_bytes(),
            ) ==> (r matches Err(e) && exists|i: int|
                0 <= i < value.spec_bytes().len() && value.spec_bytes()[i] >= 0x80 && e
                    == AsciiStringError::InvalidChar(value.spec_bytes()[i]) && (forall|j: int|
                    0 <= j < i ==> value.spec_bytes()[j] < 0x80)),
            MIN_LEN as nat <= value.spec_bytes().len() <= MAX_LEN as nat && ascii_ok(
                value.spec_bytes(),
            ) ==> (r matches Ok(v) && v@ == value.spec_bytes() && v.inv()),
    {
        let bytes = value.as_bytes();
        let len = bytes.len();
        if len > MAX_LEN as usize {
            return Err(AsciiStringError::Oversize(OversizeError(len)));
        }
        if len < MIN_LEN as usize {
            return Err(
                AsciiStringError::Undersize(UndersizeError { len: len as u16, min_len: MIN_LEN }),
            );
        }
        let mut out: Vec<u8> = Vec::new();
        let mut i: usize = 0;
        while i < len
            invariant
                i <= len,
                len == bytes@.len(),
                bytes@ == value.spec_bytes(),
                MIN_LEN as nat <= len && len <= MAX_LEN as nat,
                out@ == bytes@.take(i as int),
                forall|j: int| 0 <= j < i ==> bytes@[j] < 0x80,
            decreases len - i,
        {
            let b = bytes[i];
            if b >= 0x80 {
                return Err(AsciiStringError::InvalidChar(b));
            }
            out.push(b);
            proof {
                assert(out@ =~= bytes@.take(i as int + 1));
            }
            i = i + 1;
        }
        proof {
            assert(bytes@.take(len as int) =~= bytes@);
        }
        Ok(AsciiString(out))
    }

    /// The byte length, always representable in 16 bits.
    pub fn len(&self) -> (n: u16)
        requires
            self.inv(),
        ensures
            n as nat == self@.len(),
    {
        self.0.len() as u16
    }

    /// The bytes of the string.
    pub fn as_bytes(&self) -> (r: &Vec<u8>)
        ensures
            r@ == self@,
    {
        &self.0
    }

    /// Appends the wire form: 16-bit byte length, then the bytes.
    pub fn strict_encode(&self, out: &mut Vec<u8>)
        requires
            self.inv(),
        ensures
            final(out)@ == old(out)@ + spec_enc_ascii(self@),
    {
        let ghost out0 = out@;
        let len = self.0.len() as u16;
        len.encode(out);
        let mut i: usize = 0;
        while i < self.0.len()
            invariant
                i <= self@.len(),
                len as nat == self@.len(),
                out@ == out0 + u16_to_le(len) + self@.take(i as int),
            decreases self@.len() - i,
        {
            let b = self.0[i];
            out.push(b);
            proof {
                assert(out@ =~= out0 + u16_to_le(len) + self@.take(i as int + 1));
            }
            i = i + 1;
        }
        proof {
            assert(self@.take(self@.len() as int) =~= self@);
            assert(out@ =~= out0 + spec_enc_ascii(self@));
        }
    }

    /// Decodes a bounded ASCII string: reads the 16-bit byte length, rejects
    /// one outside `MIN_LEN ..= MAX_LEN`, then reads that many bytes, each of
    /// which must be ASCII; the first offending byte is reported.
    pub fn strict_decode(d: &mut Cursor) -> (r: Result<Self, DecodeError>)
        ensures
            final(d).data() == old(d).data(),
            match spec_dec_ascii(old(d).data(), old(d).pos(), MIN_LEN, MAX_LEN) {
                DecOutcome::Done(s, p) => r matches Ok(v) && v@ == s && v.inv() && final(d).pos()
                    == p,
                DecOutcome::Fail(e) => r matches Err(e2) && (match e {
                    DecodeError::CharOutOfRange { byte } => e2 matches DecodeError::CharOutOfRange {
                        byte: b2,
                    } && b2 >= 0x80,
                    _ => e2 == e,
                }),
                DecOutcome::Abort => false,
            },
    {
        let len = d.read_u16_le()?;
        if len < MIN_LEN {
            return Err(DecodeError::LengthOutOfRange { len, min_len: MIN_LEN });
        }
        if len > MAX_LEN {
            return Err(DecodeError::ExceedMaxItems { len, max_len: MAX_LEN });
        }
        let bytes = d.read_exact(len as usize)?;
        let mut i: usize = 0;
        while i < bytes.len()
            invariant
                i <= bytes@.len(),
                forall|j: int| 0 <= j < i ==> bytes@[j] < 0x80,
                d.data() == old(d).data(),
                ({
                    let lp = spec_read_u16(old(d).data(), old(d).pos()).unwrap();
                    spec_read_u16(old(d).data(), old(d).pos()) is Some && MIN_LEN <= lp.0 && lp.0
                        <= MAX_LEN && lp.1 + lp.0 <= old(d).data().len() && bytes@ == old(
                        d,
                    ).data().subrange(lp.1 as int, lp.1 as int + lp.0 as int) && d.pos() == lp.1
                        + lp.0
                }),
            decreases bytes@.len() - i,
        {
            let b = bytes[i];
            if b >= 0x80 {
                return Err(DecodeError::CharOutOfRange { byte: b });
            }
            i = i + 1;
        }
        Ok(AsciiString(bytes))
    }
}


impl AsciiString<0, 0xFFFF> {
    /// Builds an unbounded ASCII string from any string, reporting the first
    /// non-ASCII byte. A string longer than 0xFFFF bytes is refused with an
    /// oversize error, so the size invariant always holds.
    pub fn from_str(value: &str) -> (r: Result<Self, AsciiStringError>)
        ensures
            !ascii_ok(value.spec_bytes()) ==> (r matches Err(e) && exists|i: int|
                0 <= i < value.spec_bytes().len() && value.spec_bytes()[i] >= 0x80 && e
                    == AsciiStringError::InvalidChar(value.spec_bytes()[i]) && (forall|j: int|
                    0 <= j < i ==> value.spec_bytes()[j] < 0x80)),
            ascii_ok(value.spec_bytes()) && value.spec_bytes().len() > 0xFFFF ==> (r matches Err(e)
                && e == AsciiStringError::Oversize(OversizeError(value.spec_bytes().len() as usize))),
            ascii_ok(value.spec_bytes()) && value.spec_bytes().len() <= 0xFFFF ==> (r matches Ok(v)
                && v@ == value.spec_bytes() && v.inv()),
    {
        let bytes = value.as_bytes();
        let len = bytes.len();
        let mut out: Vec<u8> = Vec::new();
        let mut i: usize = 0;
        while i < len
            invariant
                i <= len,
                len == bytes@.len(),
                bytes@ == value.spec_bytes(),
                out@ == bytes@.take(i as int),
                forall|j: int| 0 <= j < i ==> bytes@[j] < 0x80,
            decreases len - i,
        {
            let b = bytes[i];
            if b >= 0x80 {
                return Err(AsciiStringError::InvalidChar(b));
            }
            out.push(b);
            proof {
                assert(out@ =~= bytes@.take(i as int + 1));
            }
            i = i + 1;
        }
        proof {
            assert(bytes@.take(len as int) =~= bytes@);
        }
        if len > 0xFFFF {
            return Err(AsciiStringError::Oversize(OversizeError(len)));
        }
        Ok(AsciiString(out))
    }
}

} // verus!
