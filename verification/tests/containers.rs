use strict_schema::collection::{
    AsciiString, AsciiStringError, CollectionError, OversizeError, RemoveError, StrictMap,
    StrictSet, StrictStr, StrictVec, UndersizeError,
};

#[test]
fn vec_try_from_within_bounds() {
    let v: StrictVec<u8, 2> = StrictVec::try_from(vec![1u8, 2, 3]).unwrap();
    assert_eq!(v.len(), 3);
    assert_eq!(*v.get(0), 1);
    assert_eq!(*v.get(2), 3);
}

#[test]
fn vec_try_from_undersize() {
    let r = StrictVec::<u8, 2>::try_from(vec![1u8]);
    assert_eq!(
        r.err().unwrap(),
        CollectionError::Undersize(UndersizeError { len: 1, min_len: 2 })
    );
}

#[test]
fn vec_try_from_oversize() {
    let r = StrictVec::<u8, 0>::try_from(vec![0u8; 65536]);
    assert_eq!(r.err().unwrap(), CollectionError::Oversize(OversizeError(65536)));
}

#[test]
fn vec_push_returns_previous_count() {
    let mut v: StrictVec<u8, 0> = StrictVec::new();
    assert_eq!(v.push(7).unwrap(), 0);
    assert_eq!(v.push(9).unwrap(), 1);
    assert_eq!(v.len(), 2);
    assert_eq!(*v.get(0), 7);
}

#[test]
fn vec_remove_at_min_fails_undersize() {
    let mut v: StrictVec<u8, 1> = StrictVec::try_from(vec![5u8]).unwrap();
    let e = v.remove(0).err().unwrap();
    assert_eq!(e, RemoveError::Undersize(UndersizeError { len: 1, min_len: 1 }));
    assert_eq!(v.len(), 1);
}

#[test]
fn vec_remove_index_out_of_bounds() {
    let mut v: StrictVec<u8, 0> = StrictVec::try_from(vec![1u8, 2]).unwrap();
    assert_eq!(
        v.remove(2).err().unwrap(),
        RemoveError::IndexOutOfBounds { index: 2, len: 2 }
    );
    assert_eq!(
        v.remove(5).err().unwrap(),
        RemoveError::IndexOutOfBounds { index: 5, len: 2 }
    );
    assert_eq!(v.len(), 2);
}

#[test]
fn vec_remove_then_push_restores_last() {
    let mut v: StrictVec<u8, 0> = StrictVec::try_from(vec![1u8, 2, 3]).unwrap();
    let x = v.remove(2).unwrap();
    assert_eq!(x, 3);
    v.push(x).unwrap();
    assert_eq!(v.len(), 3);
    assert_eq!(*v.get(0), 1);
    assert_eq!(*v.get(1), 2);
    assert_eq!(*v.get(2), 3);
}

#[test]
fn set_insert_orders_and_dedups() {
    let mut s: StrictSet<u8, 0> = StrictSet::new();
    s.insert(9).unwrap();
    s.insert(3).unwrap();
    assert_eq!(s.insert(7).unwrap(), 2);
    assert_eq!(s.insert(3).unwrap(), 3);
    assert_eq!(s.len(), 3);
    assert_eq!(*s.get(0), 3);
    assert_eq!(*s.get(1), 7);
    assert_eq!(*s.get(2), 9);
}

#[test]
fn set_remove_at_min_fails_regardless() {
    let mut s: StrictSet<u8, 0> = StrictSet::new();
    assert_eq!(
        s.remove(&7).err().unwrap(),
        UndersizeError { len: 0, min_len: 0 }
    );
}

#[test]
fn set_remove_then_insert_restores() {
    let mut s: StrictSet<u8, 0> = StrictSet::new();
    s.insert(5).unwrap();
    s.insert(1).unwrap();
    s.insert(9).unwrap();
    assert_eq!(s.remove(&5).unwrap(), true);
    assert_eq!(s.len(), 2);
    s.insert(5).unwrap();
    assert_eq!(s.len(), 3);
    assert_eq!(*s.get(0), 1);
    assert_eq!(*s.get(1), 5);
    assert_eq!(*s.get(2), 9);
}

#[test]
fn set_remove_absent_reports_false() {
    let mut s: StrictSet<u8, 0> = StrictSet::new();
    s.insert(1).unwrap();
    assert_eq!(s.remove(&2).unwrap(), false);
    assert_eq!(s.len(), 1);
}

#[test]
fn map_insert_get_replace() {
    let mut m: StrictMap<u8, u16, 0> = StrictMap::new();
    m.insert(2, 20).unwrap();
    m.insert(1, 10).unwrap();
    assert_eq!(m.get(&1).copied(), Some(10));
    assert_eq!(m.get(&2).copied(), Some(20));
    m.insert(1, 11).unwrap();
    assert_eq!(m.get(&1).copied(), Some(11));
    assert_eq!(m.len(), 2);
    assert_eq!(m.get(&3).copied(), None);
    assert_eq!(m.entry(0).0, 1);
    assert_eq!(m.entry(1).0, 2);
}

#[test]
fn map_remove_at_min_fails_regardless() {
    let mut m: StrictMap<u8, u16, 0> = StrictMap::new();
    assert_eq!(
        m.remove(&1).err().unwrap(),
        UndersizeError { len: 0, min_len: 0 }
    );
}

#[test]
fn map_remove_then_insert_restores() {
    let mut m: StrictMap<u8, u16, 0> = StrictMap::new();
    m.insert(1, 10).unwrap();
    m.insert(2, 20).unwrap();
    let taken = m.remove(&1).unwrap();
    assert_eq!(taken, Some(10));
    assert_eq!(m.len(), 1);
    m.insert(1, 10).unwrap();
    assert_eq!(m.len(), 2);
    assert_eq!(m.get(&1).copied(), Some(10));
    assert_eq!(m.get(&2).copied(), Some(20));
}

#[test]
fn strict_str_try_from_bounds() {
    let s: StrictStr<0> = StrictStr::try_from(String::from("h\u{e9}llo")).unwrap();
    assert_eq!(s.len(), 6);
    assert_eq!(s.as_str(), "h\u{e9}llo");
    let r = StrictStr::<8>::try_from(String::from("h\u{e9}llo"));
    assert_eq!(
        r.err().unwrap(),
        CollectionError::Undersize(UndersizeError { len: 6, min_len: 8 })
    );
}

#[test]
fn ascii_try_from_bounds_and_charset() {
    let a: AsciiString<1, 5> = AsciiString::try_from("abc").unwrap();
    assert_eq!(a.len(), 3);
    assert_eq!(a.as_bytes().as_slice(), b"abc");
    assert_eq!(
        AsciiString::<1, 5>::try_from("").err().unwrap(),
        AsciiStringError::Undersize(UndersizeError { len: 0, min_len: 1 })
    );
    assert_eq!(
        AsciiString::<0, 2>::try_from("abc").err().unwrap(),
        AsciiStringError::Oversize(OversizeError(3))
    );
    assert_eq!(
        AsciiString::<0, 65535>::try_from("a\u{e9}").err().unwrap(),
        AsciiStringError::InvalidChar(0xC3)
    );
}

#[test]
fn set_contains_queries_membership() {
    let mut s: StrictSet<u16, 0> = StrictSet::new();
    s.insert(300).unwrap();
    assert!(s.contains(&300));
    assert!(!s.contains(&299));
}

#[test]
fn ascii_from_str_checks_charset() {
    let a = AsciiString::from_str("hello").unwrap();
    assert_eq!(a.len(), 5);
    assert_eq!(
        AsciiString::from_str("h\u{e9}").err().unwrap(),
        AsciiStringError::InvalidChar(0xC3)
    );
}

#[test]
fn empty_constructors() {
    let v: StrictVec<u8, 0> = StrictVec::new();
    assert_eq!(v.len(), 0);
    let s: StrictStr<0> = StrictStr::new();
    assert_eq!(s.len(), 0);
    assert_eq!(s.as_str(), "");
    let a: AsciiString<0, 9> = AsciiString::new();
    assert_eq!(a.len(), 0);
    let set: StrictSet<u8, 0> = StrictSet::new();
    assert_eq!(set.len(), 0);
    let m: StrictMap<u8, u8, 0> = StrictMap::new();
    assert_eq!(m.len(), 0);
}

#[test]
fn vec_push_refused_at_max() {
    let mut v: StrictVec<u8, 0> = StrictVec::try_from(vec![0u8; 65535]).unwrap();
    assert_eq!(v.push(1).err().unwrap(), OversizeError(65536));
    assert_eq!(v.len(), 65535);
}

#[test]
fn set_insert_refused_at_max() {
    let mut bytes: Vec<u8> = vec![0xFF, 0xFF];
    for i in 0..65535u32 {
        bytes.push((i % 256) as u8);
        bytes.push((i / 256) as u8);
    }
    let mut cur = strict_schema::codec::Cursor::new(bytes);
    let mut s = StrictSet::<u16, 0>::strict_decode(&mut cur).ok().unwrap();
    assert_eq!(s.len(), 65535);
    assert_eq!(s.insert(0xFFFF).err().unwrap(), OversizeError(65536));
}
