//! The type schema the stream verifier walks: a registry of named type
//! definitions, where a definition is a primitive, a struct of fields, or a
//! container constructor over an inner type. The registry is consumed
//! read-only; every lookup goes through a caller-supplied reference.

use vstd::prelude::*;

verus! {

/// The fixed catalog of primitive types: unsigned and signed integers of 8
/// to 1024 bits, floating-point widths from 16 to 512 bits (`F16b` is the
/// bfloat16 layout), and the two length-prefixed character kinds.
#[derive(Clone, Copy, PartialEq, Eq, Debug)]
pub enum PrimitiveType {
    U8,
    U16,
    U32,
    U64,
    U128,
    U256,
    U512,
    U1024,
    I8,
    I16,
    I32,
    I64,
    I128,
    I256,
    I512,
    I1024,
    F16b,
    F16,
    F32,
    F64,
    F80,
    F128,
    F256,
    F512,
    AsciiChar,
    UnicodeChar,
}

/// The restricted set of types legal as set and map keys: a primitive, a
/// fixed-size array of a primitive, or a list of a primitive. Structs and
/// nested containers are excluded so key ordering stays well-defined.
#[derive(Clone, Copy, PartialEq, Eq, Debug)]
pub enum KeyType {
    Primitive(PrimitiveType),
    Array(u16, PrimitiveType),
    List(PrimitiveType),
}

/// The name under which a type is registered.
#[derive(Clone, Debug)]
pub struct TypeName(pub String);

impl View for TypeName {
    type V = Seq<char>;

    open spec fn view(&self) -> Seq<char> {
        self.0@
    }
}

/// A reference to a type: a definition given in place, or the name of a
/// registered definition.
pub enum TypeRef {
    InPlace(TypeDef),
    NameRef(TypeName),
}

/// A container constructor over an inner type: a plain value, a fixed-size
/// array, a length-prefixed list, a length-prefixed set, or a
/// length-prefixed map from a key type to the inner type.
pub enum TypeConstr {
    Plain(Box<TypeRef>),
    Array(u16, Box<TypeRef>),
    List(Box<TypeRef>),
    SetOf(Box<TypeRef>),
    MapOf(KeyType, Box<TypeRef>),
}

/// One struct field: its type and whether a presence byte precedes it on
/// the wire.
pub struct StructField {
    pub ty: TypeRef,
    pub optional: bool,
}

/// A struct: its fields, in the order they appear on the wire.
pub struct StructType {
    pub fields: Vec<StructField>,
}

/// A registered type definition.
pub enum TypeDef {
    Primitive(PrimitiveType),
    Struct(StructType),
    Constr(TypeConstr),
}

/// The definition registered first under `name`, if any.
pub open spec fn spec_lookup(entries: Seq<(TypeName, TypeDef)>, name: Seq<char>) -> Option<
    TypeDef,
>
    decreases entries.len(),
{
    if entries.len() == 0 {
        None
    } else if entries[0].0@ == name {
        Some(entries[0].1)
    } else {
        spec_lookup(entries.skip(1), name)
    }
}

/// The registry of named type definitions. Lookup finds the earliest entry
/// under a name; a later entry under the same name never shadows it.
pub struct TypeSystem(Vec<(TypeName, TypeDef)>);

impl View for TypeSystem {
    type V = Seq<(TypeName, TypeDef)>;

    closed spec fn view(&self) -> Seq<(TypeName, TypeDef)> {
        self.0@
    }
}

impl TypeSystem {
    /// An empty registry.
    pub fn new() -> (r: Self)
        ensures
            r@ == Seq::<(TypeName, TypeDef)>::empty(),
    {
        TypeSystem(Vec::new())
    }

    /// Registers a definition under a name. It is only reachable if the name
    /// is not already taken.
    pub fn insert(&mut self, name: TypeName, def: TypeDef)
        ensures
            final(self)@ == old(self)@.push((name, def)),
    {
        self.0.push((name, def));
    }

    /// Looks a name up, yielding the definition registered first under it.
    pub fn get(&self, name: &TypeName) -> (r: Option<&TypeDef>)
        ensures
            match spec_lookup(self@, name@) {
                Some(d) => r matches Some(rd) && *rd == d,
                None => r is None,
            },
    {
        proof {
            assert(self@.skip(0) =~= self@);
        }
        let mut i: usize = 0;
        while i < self.0.len()
            invariant
                i <= self@.len(),
                spec_lookup(self@, name@) == spec_lookup(self@.skip(i as int), name@),
            decreases self@.len() - i,
        {
            if self.0[i].0.0 == name.0 {
                proof {
                    assert(self@.skip(i as int)[0] == self@[i as int]);
                }
                return Some(&self.0[i].1);
            }
            proof {
                assert(self@.skip(i as int)[0] == self@[i as int]);
                assert(self@.skip(i as int).skip(1) =~= self@.skip(i as int + 1));
            }
            i = i + 1;
        }
        proof {
            assert(self@.skip(self@.len() as int) =~= Seq::<(TypeName, TypeDef)>::empty());
        }
        None
    }
}

} // verus!
