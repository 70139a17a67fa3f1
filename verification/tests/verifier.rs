use strict_schema::codec::Cursor;
use strict_schema::collection::StrictVec;
use strict_schema::path::{DataPath, DataStep};
use strict_schema::schema::{
    KeyType, PrimitiveType, StructField, StructType, TypeConstr, TypeDef, TypeName, TypeRef,
    TypeSystem,
};
use strict_schema::verify::Verify;

fn prim(p: PrimitiveType) -> TypeRef {
    TypeRef::InPlace(TypeDef::Primitive(p))
}

#[test]
fn struct_with_u32_field_needs_exactly_four_bytes() {
    let ts = TypeSystem::new();
    let st = StructType {
        fields: vec![StructField { ty: prim(PrimitiveType::U32), optional: false }],
    };
    let mut buf = Cursor::new(vec![0xAA; 4]);
    assert!(st.verify(&ts, &mut buf));
    assert_eq!(buf.position(), 4);
    let mut short = Cursor::new(vec![0xAA; 3]);
    assert!(!st.verify(&ts, &mut short));
}

#[test]
fn set_of_u8_enforces_order_and_uniqueness() {
    let ts = TypeSystem::new();
    let tc = TypeConstr::SetOf(Box::new(prim(PrimitiveType::U8)));
    let mut ordered = Cursor::new(vec![3, 0, 1, 2, 3]);
    assert!(tc.verify(&ts, &mut ordered));
    let mut unordered = Cursor::new(vec![3, 0, 1, 3, 2]);
    assert!(!tc.verify(&ts, &mut unordered));
    let mut duplicate = Cursor::new(vec![2, 0, 1, 1]);
    assert!(!tc.verify(&ts, &mut duplicate));
}

#[test]
fn optional_u16_field_honors_presence_byte() {
    let ts = TypeSystem::new();
    let st = StructType {
        fields: vec![StructField { ty: prim(PrimitiveType::U16), optional: true }],
    };
    let mut absent = Cursor::new(vec![0]);
    assert!(st.verify(&ts, &mut absent));
    assert_eq!(absent.position(), 1);
    let mut present = Cursor::new(vec![1, 0x00, 0x01]);
    assert!(st.verify(&ts, &mut present));
    assert_eq!(present.position(), 3);
    let mut bad_presence = Cursor::new(vec![2, 0x00, 0x01]);
    assert!(!st.verify(&ts, &mut bad_presence));
}

#[test]
fn unknown_root_name_fails_without_reading() {
    let ts = TypeSystem::new();
    let name = TypeName(String::from("Missing"));
    let mut buf = Cursor::new(vec![1, 2, 3]);
    assert!(!name.verify(&ts, &mut buf));
    assert_eq!(buf.position(), 0);
}

#[test]
fn named_struct_resolves_through_registry() {
    let mut ts = TypeSystem::new();
    ts.insert(
        TypeName(String::from("Point")),
        TypeDef::Struct(
            StructType {
                fields: vec![
                    StructField { ty: prim(PrimitiveType::U16), optional: false },
                    StructField { ty: prim(PrimitiveType::U16), optional: false },
                ],
            },
        ),
    );
    let name = TypeName(String::from("Point"));
    let mut buf = Cursor::new(vec![0u8; 4]);
    assert!(name.verify(&ts, &mut buf));
    assert_eq!(buf.position(), 4);
    let mut short = Cursor::new(vec![0u8; 3]);
    assert!(!name.verify(&ts, &mut short));
}

#[test]
fn list_reads_count_and_allows_repeats() {
    let ts = TypeSystem::new();
    let tc = TypeConstr::List(Box::new(prim(PrimitiveType::U8)));
    let mut repeats = Cursor::new(vec![2, 0, 9, 9]);
    assert!(tc.verify(&ts, &mut repeats));
    let mut short = Cursor::new(vec![2, 0, 9]);
    assert!(!tc.verify(&ts, &mut short));
}

#[test]
fn array_count_is_schema_fixed() {
    let ts = TypeSystem::new();
    let tc = TypeConstr::Array(3, Box::new(prim(PrimitiveType::U8)));
    let mut exact = Cursor::new(vec![9, 9, 9]);
    assert!(tc.verify(&ts, &mut exact));
    assert_eq!(exact.position(), 3);
    let mut short = Cursor::new(vec![9, 9]);
    assert!(!tc.verify(&ts, &mut short));
}

#[test]
fn map_enforces_key_order() {
    let ts = TypeSystem::new();
    let tc = TypeConstr::MapOf(KeyType::Primitive(PrimitiveType::U8), Box::new(prim(
        PrimitiveType::U16,
    )));
    let mut ordered = Cursor::new(vec![2, 0, 1, 5, 5, 2, 6, 6]);
    assert!(tc.verify(&ts, &mut ordered));
    let mut unordered = Cursor::new(vec![2, 0, 2, 5, 5, 1, 6, 6]);
    assert!(!tc.verify(&ts, &mut unordered));
    let mut duplicate = Cursor::new(vec![2, 0, 1, 5, 5, 1, 6, 6]);
    assert!(!tc.verify(&ts, &mut duplicate));
}

#[test]
fn char_primitives_are_length_prefixed() {
    let ts = TypeSystem::new();
    let mut ok = Cursor::new(vec![2, 0, 0xFF, 0xFE]);
    assert!(PrimitiveType::UnicodeChar.verify(&ts, &mut ok));
    assert_eq!(ok.position(), 4);
    let mut short = Cursor::new(vec![2, 0, 0xFF]);
    assert!(!PrimitiveType::AsciiChar.verify(&ts, &mut short));
}

#[test]
fn wide_primitives_need_their_full_width() {
    let ts = TypeSystem::new();
    let mut exact = Cursor::new(vec![0u8; 128]);
    assert!(PrimitiveType::U1024.verify(&ts, &mut exact));
    assert_eq!(exact.position(), 128);
    let mut short = Cursor::new(vec![0u8; 127]);
    assert!(!PrimitiveType::U1024.verify(&ts, &mut short));
    let mut ten = Cursor::new(vec![0u8; 10]);
    assert!(PrimitiveType::F80.verify(&ts, &mut ten));
}

#[test]
fn key_array_and_list_of_primitives() {
    let ts = TypeSystem::new();
    let mut arr = Cursor::new(vec![7, 7]);
    assert!(KeyType::Array(2, PrimitiveType::U8).verify(&ts, &mut arr));
    let mut arr_short = Cursor::new(vec![7]);
    assert!(!KeyType::Array(2, PrimitiveType::U8).verify(&ts, &mut arr_short));
    let mut list = Cursor::new(vec![1, 0, 7]);
    assert!(KeyType::List(PrimitiveType::U8).verify(&ts, &mut list));
}

#[test]
fn data_path_holds_steps() {
    let mut steps: StrictVec<DataStep, 0> = StrictVec::new();
    steps.push(DataStep::StructField(2)).unwrap();
    steps.push(DataStep::ArrayIndex(0)).unwrap();
    steps.push(DataStep::MapKey(KeyType::Primitive(PrimitiveType::U8))).unwrap();
    let path = DataPath(steps);
    assert_eq!(path.0.len(), 3);
    assert!(matches!(*path.0.get(0), DataStep::StructField(2)));
}
