use std::collections::{BTreeMap, BTreeSet};

use strict_encoding::{StrictDecode, StrictEncode};
use strict_schema::codec::{Cursor, DecodeError, StrictCodec};
use strict_schema::collection::{AsciiString, StrictMap, StrictSet, StrictStr, StrictVec};

#[test]
fn u16_wire_is_little_endian() {
    let mut out: Vec<u8> = Vec::new();
    0xABCDu16.encode(&mut out);
    assert_eq!(out, vec![0xCD, 0xAB]);
    let mut cur = Cursor::new(out);
    assert_eq!(u16::decode(&mut cur).unwrap(), 0xABCD);
}

#[test]
fn vec_wire_format() {
    let v: StrictVec<u8, 0> = StrictVec::try_from(vec![1u8, 2, 3]).unwrap();
    let mut out: Vec<u8> = Vec::new();
    v.strict_encode(&mut out);
    assert_eq!(out, vec![3, 0, 1, 2, 3]);
}

#[test]
fn vec_round_trip() {
    let v: StrictVec<u16, 1> = StrictVec::try_from(vec![513u16, 7]).unwrap();
    let mut out: Vec<u8> = Vec::new();
    v.strict_encode(&mut out);
    assert_eq!(out, vec![2, 0, 1, 2, 7, 0]);
    let mut cur = Cursor::new(out);
    let back = StrictVec::<u16, 1>::strict_decode(&mut cur).ok().unwrap();
    assert_eq!(back.len(), 2);
    assert_eq!(*back.get(0), 513);
    assert_eq!(*back.get(1), 7);
}

#[test]
fn set_round_trip() {
    let mut s: StrictSet<u8, 0> = StrictSet::new();
    s.insert(9).unwrap();
    s.insert(3).unwrap();
    s.insert(7).unwrap();
    let mut out: Vec<u8> = Vec::new();
    s.strict_encode(&mut out);
    assert_eq!(out, vec![3, 0, 3, 7, 9]);
    let mut cur = Cursor::new(out);
    let back = StrictSet::<u8, 0>::strict_decode(&mut cur).ok().unwrap();
    assert_eq!(back.len(), 3);
    assert_eq!(*back.get(0), 3);
    assert_eq!(*back.get(1), 7);
    assert_eq!(*back.get(2), 9);
}

#[test]
fn map_round_trip() {
    let mut m: StrictMap<u8, u16, 0> = StrictMap::new();
    m.insert(2, 20).unwrap();
    m.insert(1, 10).unwrap();
    let mut out: Vec<u8> = Vec::new();
    m.strict_encode(&mut out);
    assert_eq!(out, vec![2, 0, 1, 10, 0, 2, 20, 0]);
    let mut cur = Cursor::new(out);
    let back = StrictMap::<u8, u16, 0>::strict_decode(&mut cur).ok().unwrap();
    assert_eq!(back.len(), 2);
    assert_eq!(back.get(&1).copied(), Some(10));
    assert_eq!(back.get(&2).copied(), Some(20));
}

#[test]
fn str_round_trip() {
    let s: StrictStr<1> = StrictStr::try_from(String::from("h\u{e9}llo")).unwrap();
    let mut out: Vec<u8> = Vec::new();
    s.strict_encode(&mut out);
    assert_eq!(out, vec![6, 0, 0x68, 0xC3, 0xA9, 0x6C, 0x6C, 0x6F]);
    let mut cur = Cursor::new(out);
    let back = StrictStr::<1>::strict_decode(&mut cur).ok().unwrap();
    assert_eq!(back.as_str(), "h\u{e9}llo");
}

#[test]
fn ascii_round_trip() {
    let a: AsciiString<1, 10> = AsciiString::try_from("abc").unwrap();
    let mut out: Vec<u8> = Vec::new();
    a.strict_encode(&mut out);
    assert_eq!(out, vec![3, 0, 97, 98, 99]);
    let mut cur = Cursor::new(out);
    let back = AsciiString::<1, 10>::strict_decode(&mut cur).ok().unwrap();
    assert_eq!(back.as_bytes().as_slice(), b"abc");
}

#[test]
fn vec_decode_eof() {
    let mut empty = Cursor::new(vec![]);
    assert_eq!(
        StrictVec::<u8, 0>::strict_decode(&mut empty).err().unwrap(),
        DecodeError::UnexpectedEof
    );
    let mut short = Cursor::new(vec![3, 0, 1]);
    assert_eq!(
        StrictVec::<u8, 0>::strict_decode(&mut short).err().unwrap(),
        DecodeError::UnexpectedEof
    );
}

#[test]
fn vec_decode_rejects_short_length() {
    let mut cur = Cursor::new(vec![1, 0, 5]);
    assert_eq!(
        StrictVec::<u8, 2>::strict_decode(&mut cur).err().unwrap(),
        DecodeError::LengthOutOfRange { len: 1, min_len: 2 }
    );
}

#[test]
fn set_decode_rejects_duplicate() {
    let mut cur = Cursor::new(vec![2, 0, 5, 5]);
    assert_eq!(
        StrictSet::<u8, 0>::strict_decode(&mut cur).err().unwrap(),
        DecodeError::RepeatedValue { pos: 1 }
    );
}

#[test]
fn set_decode_accepts_unsorted_wire() {
    let mut cur = Cursor::new(vec![3, 0, 9, 3, 7]);
    let s = StrictSet::<u8, 0>::strict_decode(&mut cur).ok().unwrap();
    assert_eq!(s.len(), 3);
    assert_eq!(*s.get(0), 3);
    assert_eq!(*s.get(1), 7);
    assert_eq!(*s.get(2), 9);
}

#[test]
fn set_decode_then_remove_at_min_fails() {
    let mut cur = Cursor::new(vec![2, 0, 1, 2]);
    let mut s = StrictSet::<u8, 2>::strict_decode(&mut cur).ok().unwrap();
    let e = s.remove(&9).err().unwrap();
    assert_eq!(e.len, 2);
    assert_eq!(e.min_len, 2);
}

#[test]
fn map_decode_rejects_duplicate_key() {
    let mut cur = Cursor::new(vec![2, 0, 1, 10, 1, 11]);
    assert_eq!(
        StrictMap::<u8, u8, 0>::strict_decode(&mut cur).err().unwrap(),
        DecodeError::RepeatedValue { pos: 1 }
    );
}

#[test]
fn ascii_decode_bounds_and_charset() {
    let mut long = Cursor::new(vec![3, 0, 97, 98, 99]);
    assert_eq!(
        AsciiString::<0, 2>::strict_decode(&mut long).err().unwrap(),
        DecodeError::ExceedMaxItems { len: 3, max_len: 2 }
    );
    let mut bad = Cursor::new(vec![1, 0, 0x80]);
    assert_eq!(
        AsciiString::<0, 65535>::strict_decode(&mut bad).err().unwrap(),
        DecodeError::CharOutOfRange { byte: 0x80 }
    );
}

#[test]
fn str_decode_rejects_invalid_utf8() {
    let mut cur = Cursor::new(vec![1, 0, 0xFF]);
    assert_eq!(
        StrictStr::<0>::strict_decode(&mut cur).err().unwrap(),
        DecodeError::InvalidUtf8
    );
}

#[test]
fn u16_wire_matches_reference_codec() {
    let mut theirs: Vec<u8> = Vec::new();
    0xABCDu16.strict_encode(&mut theirs).unwrap();
    let mut mine: Vec<u8> = Vec::new();
    0xABCDu16.encode(&mut mine);
    assert_eq!(mine, theirs);
    let back = u16::strict_decode(&theirs[..]).unwrap();
    let mut cur = Cursor::new(mine);
    assert_eq!(u16::decode(&mut cur).unwrap(), back);
}

#[test]
fn vec_wire_matches_reference_codec() {
    let mut theirs: Vec<u8> = Vec::new();
    vec![1u8, 2, 3].strict_encode(&mut theirs).unwrap();
    let v: StrictVec<u8, 0> = StrictVec::try_from(vec![1u8, 2, 3]).unwrap();
    let mut mine: Vec<u8> = Vec::new();
    v.strict_encode(&mut mine);
    assert_eq!(mine, theirs);
}

#[test]
fn set_wire_matches_reference_codec() {
    let reference: BTreeSet<u8> = [9u8, 3, 7].into_iter().collect();
    let mut theirs: Vec<u8> = Vec::new();
    reference.strict_encode(&mut theirs).unwrap();
    let mut s: StrictSet<u8, 0> = StrictSet::new();
    s.insert(9).unwrap();
    s.insert(3).unwrap();
    s.insert(7).unwrap();
    let mut mine: Vec<u8> = Vec::new();
    s.strict_encode(&mut mine);
    assert_eq!(mine, theirs);
}

#[test]
fn map_wire_matches_reference_codec() {
    let mut reference: BTreeMap<u8, u16> = BTreeMap::new();
    reference.insert(2, 20);
    reference.insert(1, 10);
    let mut theirs: Vec<u8> = Vec::new();
    reference.strict_encode(&mut theirs).unwrap();
    let mut m: StrictMap<u8, u16, 0> = StrictMap::new();
    m.insert(2, 20).unwrap();
    m.insert(1, 10).unwrap();
    let mut mine: Vec<u8> = Vec::new();
    m.strict_encode(&mut mine);
    assert_eq!(mine, theirs);
}

#[test]
fn string_wire_matches_reference_codec() {
    let mut theirs: Vec<u8> = Vec::new();
    String::from("h\u{e9}llo").strict_encode(&mut theirs).unwrap();
    let s: StrictStr<0> = StrictStr::try_from(String::from("h\u{e9}llo")).unwrap();
    let mut mine: Vec<u8> = Vec::new();
    s.strict_encode(&mut mine);
    assert_eq!(mine, theirs);
}
