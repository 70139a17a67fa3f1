//! The stream verifier: a recursive descent over a type schema and a byte
//! cursor in lockstep, confirming that the remaining bytes form a valid
//! encoding of the declared type without materializing a decoded value. It
//! consumes exactly the bytes a real decode would, returns only pass/fail,
//! and enforces canonical order and uniqueness for set and map entries by
//! comparing each element's raw byte span with the previous one.
//!
//! Every step is mirrored by a specification function over the stream bytes.
//! The descent carries a recursion budget: a step with an exhausted budget
//! fails. The executable entry points start from a budget of `u64::MAX`,
//! which no realizable schema or stream exhausts; it guards against schemas
//! whose name references form a cycle that consumes no bytes, on which the
//! descent would otherwise never return.

use vstd::prelude::*;

use crate::codec::{spec_read_u16, spec_read_u8, Cursor};
use crate::schema::{
    spec_lookup, KeyType, PrimitiveType, StructField, StructType, TypeConstr, TypeDef, TypeName,
    TypeRef, TypeSystem,
};

verus! {

/// Strict lexicographic order on byte strings: a proper prefix comes first,
/// otherwise the first differing byte decides.
pub open spec fn lex_lt(a: Seq<u8>, b: Seq<u8>) -> bool
    decreases a.len(),
{
    if b.len() == 0 {
        false
    } else if a.len() == 0 {
        true
    } else if a[0] < b[0] {
        true
    } else if a[0] > b[0] {
        false
    } else {
        lex_lt(a.skip(1), b.skip(1))
    }
}

/// The recursion budget the executable entry points start from.
pub open spec fn max_fuel() -> nat {
    u64::MAX as nat
}

/// The encoded width in bytes of a fixed-width primitive; the two character
/// kinds carry their own length prefix instead.
pub open spec fn prim_width(p: PrimitiveType) -> nat {
    match p {
        PrimitiveType::U8 => 1,
        PrimitiveType::U16 => 2,
        PrimitiveType::U32 => 4,
        PrimitiveType::U64 => 8,
        PrimitiveType::U128 => 16,
        PrimitiveType::U256 => 32,
        PrimitiveType::U512 => 64,
        PrimitiveType::U1024 => 128,
        PrimitiveType::I8 => 1,
        PrimitiveType::I16 => 2,
        PrimitiveType::I32 => 4,
        PrimitiveType::I64 => 8,
        PrimitiveType::I128 => 16,
        PrimitiveType::I256 => 32,
        PrimitiveType::I512 => 64,
        PrimitiveType::I1024 => 128,
        PrimitiveType::F16b => 2,
        PrimitiveType::F16 => 2,
        PrimitiveType::F32 => 4,
        PrimitiveType::F64 => 8,
        PrimitiveType::F80 => 10,
        PrimitiveType::F128 => 16,
        PrimitiveType::F256 => 32,
        PrimitiveType::F512 => 64,
        PrimitiveType::AsciiChar => 0,
        PrimitiveType::UnicodeChar => 0,
    }
}

/// Verifying a primitive: a fixed-width kind needs only that many bytes
/// left, content unread; a character kind reads a 16-bit length and needs
/// that many bytes. The result is pass/fail and the position after.
pub open spec fn sv_prim(p: PrimitiveType, data: Seq<u8>, pos: nat) -> (bool, nat) {
    match p {
        PrimitiveType::AsciiChar | PrimitiveType::UnicodeChar => match spec_read_u16(data, pos) {
            None => (false, pos),
            Some(lp) => if lp.1 + lp.0 <= data.len() {
                (true, (lp.1 + lp.0) as nat)
            } else {
                (false, lp.1)
            },
        },
        _ => if pos + prim_width(p) <= data.len() {
            (true, (pos + prim_width(p)) as nat)
        } else {
            (false, pos)
        },
    }
}

/// Verifying `count` consecutive primitives.
pub open spec fn sv_prim_items(p: PrimitiveType, data: Seq<u8>, pos: nat, count: nat) -> (
    bool,
    nat,
)
    decreases count,
{
    if count == 0 {
        (true, pos)
    } else {
        let bp = sv_prim(p, data, pos);
        if !bp.0 {
            (false, bp.1)
        } else {
            sv_prim_items(p, data, bp.1, (count - 1) as nat)
        }
    }
}

/// Verifying a key type: a primitive as itself; an array as `count`
/// primitives; a list as a 16-bit count, then that many primitives.
pub open spec fn sv_key(k: KeyType, data: Seq<u8>, pos: nat) -> (bool, nat) {
    match k {
        KeyType::Primitive(p) => sv_prim(p, data, pos),
        KeyType::Array(n, p) => sv_prim_items(p, data, pos, n as nat),
        KeyType::List(p) => match spec_read_u16(data, pos) {
            None => (false, pos),
            Some(lp) => sv_prim_items(p, data, lp.1, lp.0 as nat),
        },
    }
}

/// Verifying a named type: an unregistered name fails without reading.
pub open spec fn sv_name(
    name: Seq<char>,
    ts: Seq<(TypeName, TypeDef)>,
    data: Seq<u8>,
    pos: nat,
    fuel: nat,
) -> (bool, nat)
    decreases fuel,
{
    if fuel == 0 {
        (false, pos)
    } else {
        match spec_lookup(ts, name) {
            None => (false, pos),
            Some(def) => sv_def(def, ts, data, pos, (fuel - 1) as nat),
        }
    }
}

/// Verifying a definition.
pub open spec fn sv_def(
    def: TypeDef,
    ts: Seq<(TypeName, TypeDef)>,
    data: Seq<u8>,
    pos: nat,
    fuel: nat,
) -> (bool, nat)
    decreases fuel,
{
    if fuel == 0 {
        (false, pos)
    } else {
        match def {
            TypeDef::Primitive(p) => sv_prim(p, data, pos),
            TypeDef::Struct(st) => sv_fields(st.fields@, ts, data, pos, (fuel - 1) as nat),
            TypeDef::Constr(tc) => sv_constr(tc, ts, data, pos, (fuel - 1) as nat),
        }
    }
}

/// Verifying struct fields left to right; the first failure aborts.
pub open spec fn sv_fields(
    fields: Seq<StructField>,
    ts: Seq<(TypeName, TypeDef)>,
    data: Seq<u8>,
    pos: nat,
    fuel: nat,
) -> (bool, nat)
    decreases fuel,
{
    if fields.len() == 0 {
        (true, pos)
    } else if fuel == 0 {
        (false, pos)
    } else {
        let bp = sv_field(fields[0], ts, data, pos, (fuel - 1) as nat);
        if !bp.0 {
            (false, bp.1)
        } else {
            sv_fields(fields.skip(1), ts, data, bp.1, (fuel - 1) as nat)
        }
    }
}

/// Verifying one field: an optional field reads a presence byte first —
/// 0 passes with nothing more read, 1 demands the field's type next, any
/// other value fails; a required field demands its type unconditionally.
pub open spec fn sv_field(
    f: StructField,
    ts: Seq<(TypeName, TypeDef)>,
    data: Seq<u8>,
    pos: nat,
    fuel: nat,
) -> (bool, nat)
    decreases fuel,
{
    if fuel == 0 {
        (false, pos)
    } else if f.optional {
        match spec_read_u8(data, pos) {
            None => (false, pos),
            Some(bp) => if bp.0 == 0 {
                (true, bp.1)
            } else if bp.0 == 1 {
                sv_ref(f.ty, ts, data, bp.1, (fuel - 1) as nat)
            } else {
                (false, bp.1)
            },
        }
    } else {
        sv_ref(f.ty, ts, data, pos, (fuel - 1) as nat)
    }
}

/// Verifying a type reference: in place directly, by name through the
/// registry.
pub open spec fn sv_ref(
    r: TypeRef,
    ts: Seq<(TypeName, TypeDef)>,
    data: Seq<u8>,
    pos: nat,
    fuel: nat,
) -> (bool, nat)
    decreases fuel,
{
    if fuel == 0 {
        (false, pos)
    } else {
        match r {
            TypeRef::InPlace(def) => sv_def(def, ts, data, pos, (fuel - 1) as nat),
            TypeRef::NameRef(n) => sv_name(n@, ts, data, pos, (fuel - 1) as nat),
        }
    }
}

/// Verifying `count` consecutive values of the inner type.
pub open spec fn sv_items(
    r: TypeRef,
    ts: Seq<(TypeName, TypeDef)>,
    data: Seq<u8>,
    pos: nat,
    count: nat,
    fuel: nat,
) -> (bool, nat)
    decreases fuel,
{
    if count == 0 {
        (true, pos)
    } else if fuel == 0 {
        (false, pos)
    } else {
        let bp = sv_ref(r, ts, data, pos, (fuel - 1) as nat);
        if !bp.0 {
            (false, bp.1)
        } else {
            sv_items(r, ts, data, bp.1, (count - 1) as nat, (fuel - 1) as nat)
        }
    }
}

/// Verifying `count` set elements: each element verifies as the inner type,
/// and its raw byte span must be strictly greater, lexicographically, than
/// the previous element's span — which enforces canonical order and
/// uniqueness at once.
pub open spec fn sv_set_items(
    r: TypeRef,
    ts: Seq<(TypeName, TypeDef)>,
    data: Seq<u8>,
    pos: nat,
    count: nat,
    prev: Option<Seq<u8>>,
    fuel: nat,
) -> (bool, nat)
    decreases fuel,
{
    if count == 0 {
        (true, pos)
    } else if fuel == 0 {
        (false, pos)
    } else {
        let bp = sv_ref(r, ts, data, pos, (fuel - 1) as nat);
        if !bp.0 {
            (false, bp.1)
        } else {
            let span = data.subrange(pos as int, bp.1 as int);
            let ordered = match prev {
                None => true,
                Some(pr) => lex_lt(pr, span),
            };
            if !ordered {
                (false, bp.1)
            } else {
                sv_set_items(r, ts, data, bp.1, (count - 1) as nat, Some(span), (fuel - 1) as nat)
            }
        }
    }
}

/// Verifying `count` map entries: each key verifies as the key type with
/// its raw span strictly above the previous key's span, then the value
/// verifies as the inner type; values carry no ordering constraint.
pub open spec fn sv_map_items(
    k: KeyType,
    v: TypeRef,
    ts: Seq<(TypeName, TypeDef)>,
    data: Seq<u8>,
    pos: nat,
    count: nat,
    prev: Option<Seq<u8>>,
    fuel: nat,
) -> (bool, nat)
    decreases fuel,
{
    if count == 0 {
        (true, pos)
    } else if fuel == 0 {
        (false, pos)
    } else {
        let kp = sv_key(k, data, pos);
        if !kp.0 {
            (false, kp.1)
        } else {
            let span = data.subrange(pos as int, kp.1 as int);
            let ordered = match prev {
                None => true,
                Some(pr) => lex_lt(pr, span),
            };
            if !ordered {
                (false, kp.1)
            } else {
                let vp = sv_ref(v, ts, data, kp.1, (fuel - 1) as nat);
                if !vp.0 {
                    (false, vp.1)
                } else {
                    sv_map_items(
                        k,
                        v,
                        ts,
                        data,
                        vp.1,
                        (count - 1) as nat,
                        Some(span),
                        (fuel - 1) as nat,
                    )
                }
            }
        }
    }
}

/// Verifying a container constructor: a plain value as the inner type once;
/// an array as a schema-fixed count of inner values; a list as a 16-bit
/// count, then that many inner values; a set and a map with the canonical
/// order discipline on elements and keys.
pub open spec fn sv_constr(
    tc: TypeConstr,
    ts: Seq<(TypeName, TypeDef)>,
    data: Seq<u8>,
    pos: nat,
    fuel: nat,
) -> (bool, nat)
    decreases fuel,
{
    if fuel == 0 {
        (false, pos)
    } else {
        match tc {
            TypeConstr::Plain(r) => sv_ref(*r, ts, data, pos, (fuel - 1) as nat),
            TypeConstr::Array(n, r) => sv_items(*r, ts, data, pos, n as nat, (fuel - 1) as nat),
            TypeConstr::List(r) => match spec_read_u16(data, pos) {
                None => (false, pos),
                Some(lp) => sv_items(*r, ts, data, lp.1, lp.0 as nat, (fuel - 1) as nat),
            },
            TypeConstr::SetOf(r) => match spec_read_u16(data, pos) {
                None => (false, pos),
                Some(lp) => sv_set_items(
                    *r,
                    ts,
                    data,
                    lp.1,
                    lp.0 as nat,
                    None,
                    (fuel - 1) as nat,
                ),
            },
            TypeConstr::MapOf(k, v) => match spec_read_u16(data, pos) {
                None => (false, pos),
                Some(lp) => sv_map_items(
                    k,
                    *v,
                    ts,
                    data,
                    lp.1,
                    lp.0 as nat,
                    None,
                    (fuel - 1) as nat,
                ),
            },
        }
    }
}

/// Law: a set payload fails verification as soon as an element's raw byte
/// span does not lie strictly above the previous element's span — equality
/// (a repeat) and inversion alike — however valid each element is on its
/// own. Stated for the next two elements from any point of a run, which is
/// where every adjacent pair stands when the descent reaches it.
pub proof fn lemma_set_rejects_unordered(
    r: TypeRef,
    ts: Seq<(TypeName, TypeDef)>,
    data: Seq<u8>,
    pos: nat,
    count: nat,
    prev: Option<Seq<u8>>,
    fuel: nat,
)
    requires
        count >= 2,
        fuel >= 2,
        sv_ref(r, ts, data, pos, (fuel - 1) as nat).0,
        ({
            let p1 = sv_ref(r, ts, data, pos, (fuel - 1) as nat).1;
            sv_ref(r, ts, data, p1, (fuel - 2) as nat).0 && !lex_lt(
                data.subrange(pos as int, p1 as int),
                data.subrange(p1 as int, sv_ref(r, ts, data, p1, (fuel - 2) as nat).1 as int),
            )
        }),
    ensures
        !sv_set_items(r, ts, data, pos, count, prev, fuel).0,
{
    let p1 = sv_ref(r, ts, data, pos, (fuel - 1) as nat).1;
    let span1 = data.subrange(pos as int, p1 as int);
    if match prev {
        None => true,
        Some(pr) => lex_lt(pr, span1),
    } {
        assert(sv_set_items(r, ts, data, pos, count, prev, fuel) == sv_set_items(
            r,
            ts,
            data,
            p1,
            (count - 1) as nat,
            Some(span1),
            (fuel - 1) as nat,
        ));
    }
}

/// The positions bounding each element of a set run: the start, then the
/// position after each element, as far as the elements verify.
pub open spec fn sv_set_bounds(
    r: TypeRef,
    ts: Seq<(TypeName, TypeDef)>,
    data: Seq<u8>,
    pos: nat,
    count: nat,
    fuel: nat,
) -> Seq<nat>
    decreases fuel,
{
    if count == 0 || fuel == 0 {
        seq![pos]
    } else {
        let bp = sv_ref(r, ts, data, pos, (fuel - 1) as nat);
        if !bp.0 {
            seq![pos]
        } else {
            seq![pos] + sv_set_bounds(r, ts, data, bp.1, (count - 1) as nat, (fuel - 1) as nat)
        }
    }
}

/// Law: a set payload passes verification only if the raw byte spans of its
/// elements are strictly increasing, each above the span before it — so no
/// two elements of a passing payload share their bytes.
pub proof fn lemma_set_passes_only_increasing(
    r: TypeRef,
    ts: Seq<(TypeName, TypeDef)>,
    data: Seq<u8>,
    pos: nat,
    count: nat,
    prev: Option<Seq<u8>>,
    fuel: nat,
)
    requires
        sv_set_items(r, ts, data, pos, count, prev, fuel).0,
    ensures
        ({
            let bs = sv_set_bounds(r, ts, data, pos, count, fuel);
            bs.len() == count + 1 && bs[0] == pos && (forall|i: int|
                1 <= i < count ==> lex_lt(
                    data.subrange(#[trigger] bs[i - 1] as int, bs[i] as int),
                    data.subrange(bs[i] as int, bs[i + 1] as int),
                )) && (match prev {
                Some(pr) => count >= 1 ==> lex_lt(
                    pr,
                    data.subrange(bs[0] as int, bs[1] as int),
                ),
                None => true,
            })
        }),
    decreases fuel,
{
    let bs = sv_set_bounds(r, ts, data, pos, count, fuel);
    if count == 0 {
        assert(bs =~= seq![pos]);
    } else {
        let bp = sv_ref(r, ts, data, pos, (fuel - 1) as nat);
        let span = data.subrange(pos as int, bp.1 as int);
        let tail = sv_set_bounds(r, ts, data, bp.1, (count - 1) as nat, (fuel - 1) as nat);
        assert(bp.0);
        assert(bs == seq![pos] + tail);
        lemma_set_passes_only_increasing(
            r,
            ts,
            data,
            bp.1,
            (count - 1) as nat,
            Some(span),
            (fuel - 1) as nat,
        );
        assert(bs[0] == pos && bs[1] == tail[0] && tail[0] == bp.1);
        assert forall|i: int| 1 <= i < count implies lex_lt(
            data.subrange(#[trigger] bs[i - 1] as int, bs[i] as int),
            data.subrange(bs[i] as int, bs[i + 1] as int),
        ) by {
            if i == 1 {
                assert(bs[1] == bp.1 && bs[2] == tail[1]);
            } else {
                assert(bs[i - 1] == tail[i - 2] && bs[i] == tail[i - 1] && bs[i + 1] == tail[i]);
            }
        }
    }
}

/// The spans of the keys of a map run — each key's start and end position —
/// as far as the entries verify.
pub open spec fn sv_map_key_spans(
    k: KeyType,
    v: TypeRef,
    ts: Seq<(TypeName, TypeDef)>,
    data: Seq<u8>,
    pos: nat,
    count: nat,
    fuel: nat,
) -> Seq<(nat, nat)>
    decreases fuel,
{
    if count == 0 || fuel == 0 {
        Seq::empty()
    } else {
        let kp = sv_key(k, data, pos);
        if !kp.0 {
            Seq::empty()
        } else {
            let vp = sv_ref(v, ts, data, kp.1, (fuel - 1) as nat);
            if !vp.0 {
                Seq::empty()
            } else {
                seq![(pos, kp.1)] + sv_map_key_spans(
                    k,
                    v,
                    ts,
                    data,
                    vp.1,
                    (count - 1) as nat,
                    (fuel - 1) as nat,
                )
            }
        }
    }
}

/// Law: a map payload passes verification only if the raw byte spans of its
/// keys are strictly increasing, each above the span before it — so no two
/// entries of a passing payload share their key bytes.
pub proof fn lemma_map_passes_only_increasing(
    k: KeyType,
    v: TypeRef,
    ts: Seq<(TypeName, TypeDef)>,
    data: Seq<u8>,
    pos: nat,
    count: nat,
    prev: Option<Seq<u8>>,
    fuel: nat,
)
    requires
        sv_map_items(k, v, ts, data, pos, count, prev, fuel).0,
    ensures
        ({
            let ks = sv_map_key_spans(k, v, ts, data, pos, count, fuel);
            ks.len() == count && (forall|i: int|
                1 <= i < count ==> lex_lt(
                    data.subrange((#[trigger] ks[i - 1]).0 as int, ks[i - 1].1 as int),
                    data.subrange(ks[i].0 as int, ks[i].1 as int),
                )) && (match prev {
                Some(pr) => count >= 1 ==> lex_lt(
                    pr,
                    data.subrange(ks[0].0 as int, ks[0].1 as int),
                ),
                None => true,
            })
        }),
    decreases fuel,
{
    let ks = sv_map_key_spans(k, v, ts, data, pos, count, fuel);
    if count == 0 {
        assert(ks =~= Seq::<(nat, nat)>::empty());
    } else {
        let kp = sv_key(k, data, pos);
        let span = data.subrange(pos as int, kp.1 as int);
        let vp = sv_ref(v, ts, data, kp.1, (fuel - 1) as nat);
        let tail = sv_map_key_spans(k, v, ts, data, vp.1, (count - 1) as nat, (fuel - 1) as nat);
        assert(kp.0 && vp.0);
        assert(ks == seq![(pos, kp.1)] + tail);
        lemma_map_passes_only_increasing(
            k,
            v,
            ts,
            data,
            vp.1,
            (count - 1) as nat,
            Some(span),
            (fuel - 1) as nat,
        );
        assert(ks[0] == (pos, kp.1));
        assert forall|i: int| 1 <= i < count implies lex_lt(
            data.subrange((#[trigger] ks[i - 1]).0 as int, ks[i - 1].1 as int),
            data.subrange(ks[i].0 as int, ks[i].1 as int),
        ) by {
            if i == 1 {
                assert(ks[1] == tail[0]);
            } else {
                assert(ks[i - 1] == tail[i - 2] && ks[i] == tail[i - 1]);
            }
        }
    }
}

/// Law: a map payload fails verification as soon as a key's raw byte span
/// does not lie strictly above the previous key's span, whatever the keys
/// and values are. Stated for the next two entries from any point of a run,
/// which is where every adjacent pair stands when the descent reaches it.
pub proof fn lemma_map_rejects_unordered(
    k: KeyType,
    v: TypeRef,
    ts: Seq<(TypeName, TypeDef)>,
    data: Seq<u8>,
    pos: nat,
    count: nat,
    prev: Option<Seq<u8>>,
    fuel: nat,
)
    requires
        count >= 2,
        fuel >= 2,
        sv_key(k, data, pos).0,
        sv_ref(v, ts, data, sv_key(k, data, pos).1, (fuel - 1) as nat).0,
        ({
            let p2 = sv_ref(v, ts, data, sv_key(k, data, pos).1, (fuel - 1) as nat).1;
            sv_key(k, data, p2).0 && !lex_lt(
                data.subrange(pos as int, sv_key(k, data, pos).1 as int),
                data.subrange(p2 as int, sv_key(k, data, p2).1 as int),
            )
        }),
    ensures
        !sv_map_items(k, v, ts, data, pos, count, prev, fuel).0,
{
    let kp = sv_key(k, data, pos);
    let span1 = data.subrange(pos as int, kp.1 as int);
    let p2 = sv_ref(v, ts, data, kp.1, (fuel - 1) as nat).1;
    if match prev {
        None => true,
        Some(pr) => lex_lt(pr, span1),
    } {
        assert(sv_map_items(k, v, ts, data, pos, count, prev, fuel) == sv_map_items(
            k,
            v,
            ts,
            data,
            p2,
            (count - 1) as nat,
            Some(span1),
            (fuel - 1) as nat,
        ));
    }
}

/// Compares two spans of the cursor's stream lexicographically.
fn span_lex_lt(buf: &Cursor, a_from: usize, a_to: usize, b_from: usize, b_to: usize) -> (r: bool)
    requires
        a_from <= a_to <= buf.data().len(),
        b_from <= b_to <= buf.data().len(),
    ensures
        r == lex_lt(
            buf.data().subrange(a_from as int, a_to as int),
            buf.data().subrange(b_from as int, b_to as int),
        ),
{
    let ghost av = buf.data().subrange(a_from as int, a_to as int);
    let ghost bv = buf.data().subrange(b_from as int, b_to as int);
    proof {
        assert(av.skip(0) =~= av);
        assert(bv.skip(0) =~= bv);
    }
    let la = a_to - a_from;
    let lb = b_to - b_from;
    let mut i: usize = 0;
    while i < la && i < lb
        invariant
            i <= la,
            i <= lb,
            a_from + la <= buf.data().len(),
            b_from + lb <= buf.data().len(),
            av == buf.data().subrange(a_from as int, a_to as int),
            bv == buf.data().subrange(b_from as int, b_to as int),
            la == av.len(),
            lb == bv.len(),
            a_to == a_from + la,
            b_to == b_from + lb,
            lex_lt(av, bv) == lex_lt(av.skip(i as int), bv.skip(i as int)),
        decreases la - i,
    {
        let ab = buf.byte_at(a_from + i);
        let bb = buf.byte_at(b_from + i);
        proof {
            assert(av.skip(i as int)[0] == av[i as int]);
            assert(bv.skip(i as int)[0] == bv[i as int]);
            assert(av[i as int] == buf.data()[a_from + i]);
            assert(bv[i as int] == buf.data()[b_from + i]);
        }
        if ab < bb {
            return true;
        }
        if ab > bb {
            return false;
        }
        proof {
            assert(av.skip(i as int).skip(1) =~= av.skip(i as int + 1));
            assert(bv.skip(i as int).skip(1) =~= bv.skip(i as int + 1));
        }
        i = i + 1;
    }
    proof {
        if i >= lb {
            assert(bv.skip(i as int).len() == 0);
        } else {
            assert(av.skip(i as int).len() == 0);
            assert(bv.skip(i as int).len() > 0);
        }
    }
    i < lb
}

/// Verifies one primitive against the stream.
fn verify_prim(p: &PrimitiveType, buf: &mut Cursor) -> (r: bool)
    ensures
        final(buf).data() == old(buf).data(),
        old(buf).pos() <= final(buf).pos(),
        ({
            let sp = sv_prim(*p, old(buf).data(), old(buf).pos());
            r == sp.0 && final(buf).pos() == sp.1
        }),
{
    match p {
        PrimitiveType::AsciiChar | PrimitiveType::UnicodeChar => {
            match buf.read_u16_le() {
                Err(_) => false,
                Ok(len) => buf.skip(len as usize),
            }
        },
        _ => {
            let width: usize = match p {
                PrimitiveType::U8 => 1,
                PrimitiveType::U16 => 2,
                PrimitiveType::U32 => 4,
                PrimitiveType::U64 => 8,
                PrimitiveType::U128 => 16,
                PrimitiveType::U256 => 32,
                PrimitiveType::U512 => 64,
                PrimitiveType::U1024 => 128,
                PrimitiveType::I8 => 1,
                PrimitiveType::I16 => 2,
                PrimitiveType::I32 => 4,
                PrimitiveType::I64 => 8,
                PrimitiveType::I128 => 16,
                PrimitiveType::I256 => 32,
                PrimitiveType::I512 => 64,
                PrimitiveType::I1024 => 128,
                PrimitiveType::F16b => 2,
                PrimitiveType::F16 => 2,
                PrimitiveType::F32 => 4,
                PrimitiveType::F64 => 8,
                PrimitiveType::F80 => 10,
                PrimitiveType::F128 => 16,
                PrimitiveType::F256 => 32,
                PrimitiveType::F512 => 64,
                PrimitiveType::AsciiChar => 0,
                PrimitiveType::UnicodeChar => 0,
            };
            buf.skip(width)
        },
    }
}

/// Verifies `count` consecutive primitives against the stream.
fn verify_prim_items(p: &PrimitiveType, buf: &mut Cursor, count: u16) -> (r: bool)
    ensures
        final(buf).data() == old(buf).data(),
        old(buf).pos() <= final(buf).pos(),
        ({
            let sp = sv_prim_items(*p, old(buf).data(), old(buf).pos(), count as nat);
            r == sp.0 && final(buf).pos() == sp.1
        }),
{
    let ghost full = sv_prim_items(*p, buf.data(), buf.pos(), count as nat);
    let mut i: u16 = 0;
    while i < count
        invariant
            i <= count,
            buf.data() == old(buf).data(),
            old(buf).pos() <= buf.pos(),
            full == sv_prim_items(*p, old(buf).data(), old(buf).pos(), count as nat),
            full == sv_prim_items(*p, buf.data(), buf.pos(), (count - i) as nat),
        decreases count - i,
    {
        if !verify_prim(p, buf) {
            return false;
        }
        i = i + 1;
    }
    true
}

/// Verifies one key against the stream.
fn verify_key(k: &KeyType, buf: &mut Cursor) -> (r: bool)
    ensures
        final(buf).data() == old(buf).data(),
        old(buf).pos() <= final(buf).pos(),
        ({
            let sp = sv_key(*k, old(buf).data(), old(buf).pos());
            r == sp.0 && final(buf).pos() == sp.1
        }),
{
    match k {
        KeyType::Primitive(p) => verify_prim(p, buf),
        KeyType::Array(n, p) => verify_prim_items(p, buf, *n),
        KeyType::List(p) => {
            match buf.read_u16_le() {
                Err(_) => false,
                Ok(len) => verify_prim_items(p, buf, len),
            }
        },
    }
}

/// Verifies a named type against the stream.
fn verify_name(name: &TypeName, ts: &TypeSystem, buf: &mut Cursor, fuel: u64) -> (r: bool)
    ensures
        final(buf).data() == old(buf).data(),
        old(buf).pos() <= final(buf).pos(),
        ({
            let sp = sv_name(name@, ts@, old(buf).data(), old(buf).pos(), fuel as nat);
            r == sp.0 && final(buf).pos() == sp.1
        }),
    decreases fuel,
{
    if fuel == 0 {
        return false;
    }
    match ts.get(name) {
        None => false,
        Some(def) => verify_def(def, ts, buf, fuel - 1),
    }
}

/// Verifies a definition against the stream.
fn verify_def(def: &TypeDef, ts: &TypeSystem, buf: &mut Cursor, fuel: u64) -> (r: bool)
    ensures
        final(buf).data() == old(buf).data(),
        old(buf).pos() <= final(buf).pos(),
        ({
            let sp = sv_def(*def, ts@, old(buf).data(), old(buf).pos(), fuel as nat);
            r == sp.0 && final(buf).pos() == sp.1
        }),
    decreases fuel,
{
    if fuel == 0 {
        return false;
    }
    match def {
        TypeDef::Primitive(p) => verify_prim(p, buf),
        TypeDef::Struct(st) => verify_fields(st, ts, buf, fuel - 1),
        TypeDef::Constr(tc) => verify_constr(tc, ts, buf, fuel - 1),
    }
}

/// Verifies a struct's fields, left to right, against the stream.
fn verify_fields(st: &StructType, ts: &TypeSystem, buf: &mut Cursor, fuel: u64) -> (r: bool)
    ensures
        final(buf).data() == old(buf).data(),
        old(buf).pos() <= final(buf).pos(),
        ({
            let sp = sv_fields(st.fields@, ts@, old(buf).data(), old(buf).pos(), fuel as nat);
            r == sp.0 && final(buf).pos() == sp.1
        }),
    decreases fuel,
{
    let ghost full = sv_fields(st.fields@, ts@, buf.data(), buf.pos(), fuel as nat);
    proof {
        assert(st.fields@.skip(0) =~= st.fields@);
    }
    let mut i: usize = 0;
    let mut f: u64 = fuel;
    while i < st.fields.len()
        invariant
            i <= st.fields@.len(),
            f <= fuel,
            buf.data() == old(buf).data(),
            old(buf).pos() <= buf.pos(),
            full == sv_fields(st.fields@, ts@, old(buf).data(), old(buf).pos(), fuel as nat),
            full == sv_fields(st.fields@.skip(i as int), ts@, buf.data(), buf.pos(), f as nat),
        decreases st.fields@.len() - i,
    {
        proof {
            assert(st.fields@.skip(i as int)[0] == st.fields@[i as int]);
        }
        if f == 0 {
            return false;
        }
        if !verify_field(&st.fields[i], ts, buf, f - 1) {
            return false;
        }
        proof {
            assert(st.fields@.skip(i as int).skip(1) =~= st.fields@.skip(i as int + 1));
        }
        f = f - 1;
        i = i + 1;
    }
    proof {
        assert(st.fields@.skip(st.fields@.len() as int).len() == 0);
    }
    true
}

/// Verifies one field against the stream, honoring its presence byte when
/// it is optional.
fn verify_field(field: &StructField, ts: &TypeSystem, buf: &mut Cursor, fuel: u64) -> (r: bool)
    ensures
        final(buf).data() == old(buf).data(),
        old(buf).pos() <= final(buf).pos(),
        ({
            let sp = sv_field(*field, ts@, old(buf).data(), old(buf).pos(), fuel as nat);
            r == sp.0 && final(buf).pos() == sp.1
        }),
    decreases fuel,
{
    if fuel == 0 {
        return false;
    }
    if field.optional {
        match buf.read_u8() {
            Err(_) => false,
            Ok(0) => true,
            Ok(1) => verify_ref(&field.ty, ts, buf, fuel - 1),
            Ok(_) => false,
        }
    } else {
        verify_ref(&field.ty, ts, buf, fuel - 1)
    }
}

/// Verifies a type reference against the stream.
fn verify_ref(r: &TypeRef, ts: &TypeSystem, buf: &mut Cursor, fuel: u64) -> (res: bool)
    ensures
        final(buf).data() == old(buf).data(),
        old(buf).pos() <= final(buf).pos(),
        ({
            let sp = sv_ref(*r, ts@, old(buf).data(), old(buf).pos(), fuel as nat);
            res == sp.0 && final(buf).pos() == sp.1
        }),
    decreases fuel,
{
    if fuel == 0 {
        return false;
    }
    match r {
        TypeRef::InPlace(def) => verify_def(def, ts, buf, fuel - 1),
        TypeRef::NameRef(n) => verify_name(n, ts, buf, fuel - 1),
    }
}

/// Verifies `count` consecutive values of the inner type against the stream.
fn verify_items(r: &TypeRef, ts: &TypeSystem, buf: &mut Cursor, count: u16, fuel: u64) -> (res:
    bool)
    ensures
        final(buf).data() == old(buf).data(),
        old(buf).pos() <= final(buf).pos(),
        ({
            let sp = sv_items(*r, ts@, old(buf).data(), old(buf).pos(), count as nat, fuel as nat);
            res == sp.0 && final(buf).pos() == sp.1
        }),
    decreases fuel,
{
    let ghost full = sv_items(*r, ts@, buf.data(), buf.pos(), count as nat, fuel as nat);
    let mut i: u16 = 0;
    let mut f: u64 = fuel;
    while i < count
        invariant
            i <= count,
            f <= fuel,
            buf.data() == old(buf).data(),
            old(buf).pos() <= buf.pos(),
            full == sv_items(*r, ts@, old(buf).data(), old(buf).pos(), count as nat, fuel as nat),
            full == sv_items(*r, ts@, buf.data(), buf.pos(), (count - i) as nat, f as nat),
        decreases count - i,
    {
        if f == 0 {
            return false;
        }
        if !verify_ref(r, ts, buf, f - 1) {
            return false;
        }
        f = f - 1;
        i = i + 1;
    }
    true
}

/// Verifies `count` set elements against the stream, enforcing strictly
/// increasing raw byte spans.
fn verify_set_items(r: &TypeRef, ts: &TypeSystem, buf: &mut Cursor, count: u16, fuel: u64) -> (res:
    bool)
    ensures
        final(buf).data() == old(buf).data(),
        old(buf).pos() <= final(buf).pos(),
        ({
            let sp = sv_set_items(
                *r,
                ts@,
                old(buf).data(),
                old(buf).pos(),
                count as nat,
                None,
                fuel as nat,
            );
            res == sp.0 && final(buf).pos() == sp.1
        }),
    decreases fuel,
{
    let ghost full = sv_set_items(*r, ts@, buf.data(), buf.pos(), count as nat, None, fuel as nat);
    let mut i: u16 = 0;
    let mut f: u64 = fuel;
    let mut prev_from: usize = 0;
    let mut prev_to: usize = 0;
    let mut have_prev: bool = false;
    while i < count
        invariant
            i <= count,
            f <= fuel,
            buf.data() == old(buf).data(),
            old(buf).pos() <= buf.pos(),
            have_prev ==> prev_from <= prev_to <= buf.data().len(),
            full == sv_set_items(
                *r,
                ts@,
                old(buf).data(),
                old(buf).pos(),
                count as nat,
                None,
                fuel as nat,
            ),
            full == sv_set_items(
                *r,
                ts@,
                buf.data(),
                buf.pos(),
                (count - i) as nat,
                if have_prev {
                    Some(buf.data().subrange(prev_from as int, prev_to as int))
                } else {
                    None
                },
                f as nat,
            ),
        decreases count - i,
    {
        if f == 0 {
            return false;
        }
        let pos_from = buf.position();
        proof {
            use_type_invariant(&*buf);
        }
        if !verify_ref(r, ts, buf, f - 1) {
            return false;
        }
        let pos_to = buf.position();
        proof {
            use_type_invariant(&*buf);
        }
        if have_prev {
            if !span_lex_lt(buf, prev_from, prev_to, pos_from, pos_to) {
                return false;
            }
        }
        prev_from = pos_from;
        prev_to = pos_to;
        have_prev = true;
        f = f - 1;
        i = i + 1;
    }
    true
}

/// Verifies `count` map entries against the stream, enforcing strictly
/// increasing raw key spans; each value verifies right after its key.
fn verify_map_items(
    k: &KeyType,
    v: &TypeRef,
    ts: &TypeSystem,
    buf: &mut Cursor,
    count: u16,
    fuel: u64,
) -> (res: bool)
    ensures
        final(buf).data() == old(buf).data(),
        old(buf).pos() <= final(buf).pos(),
        ({
            let sp = sv_map_items(
                *k,
                *v,
                ts@,
                old(buf).data(),
                old(buf).pos(),
                count as nat,
                None,
                fuel as nat,
            );
            res == sp.0 && final(buf).pos() == sp.1
        }),
    decreases fuel,
{
    let ghost full = sv_map_items(
        *k,
        *v,
        ts@,
        buf.data(),
        buf.pos(),
        count as nat,
        None,
        fuel as nat,
    );
    let mut i: u16 = 0;
    let mut f: u64 = fuel;
    let mut prev_from: usize = 0;
    let mut prev_to: usize = 0;
    let mut have_prev: bool = false;
    while i < count
        invariant
            i <= count,
            f <= fuel,
            buf.data() == old(buf).data(),
            old(buf).pos() <= buf.pos(),
            have_prev ==> prev_from <= prev_to <= buf.data().len(),
            full == sv_map_items(
                *k,
                *v,
                ts@,
                old(buf).data(),
                old(buf).pos(),
                count as nat,
                None,
                fuel as nat,
            ),
            full == sv_map_items(
                *k,
                *v,
                ts@,
                buf.data(),
                buf.pos(),
                (count - i) as nat,
                if have_prev {
                    Some(buf.data().subrange(prev_from as int, prev_to as int))
                } else {
                    None
                },
                f as nat,
            ),
        decreases count - i,
    {
        if f == 0 {
            return false;
        }
        let pos_from = buf.position();
        proof {
            use_type_invariant(&*buf);
        }
        if !verify_key(k, buf) {
            return false;
        }
        let pos_to = buf.position();
        proof {
            use_type_invariant(&*buf);
        }
        if have_prev {
            if !span_lex_lt(buf, prev_from, prev_to, pos_from, pos_to) {
                return false;
            }
        }
        if !verify_ref(v, ts, buf, f - 1) {
            return false;
        }
        prev_from = pos_from;
        prev_to = pos_to;
        have_prev = true;
        f = f - 1;
        i = i + 1;
    }
    true
}

/// Verifies a container constructor against the stream.
fn verify_constr(tc: &TypeConstr, ts: &TypeSystem, buf: &mut Cursor, fuel: u64) -> (res: bool)
    ensures
        final(buf).data() == old(buf).data(),
        old(buf).pos() <= final(buf).pos(),
        ({
            let sp = sv_constr(*tc, ts@, old(buf).data(), old(buf).pos(), fuel as nat);
            res == sp.0 && final(buf).pos() == sp.1
        }),
    decreases fuel,
{
    if fuel == 0 {
        return false;
    }
    match tc {
        TypeConstr::Plain(r) => verify_ref(r, ts, buf, fuel - 1),
        TypeConstr::Array(n, r) => verify_items(r, ts, buf, *n, fuel - 1),
        TypeConstr::List(r) => {
            match buf.read_u16_le() {
                Err(_) => false,
                Ok(len) => verify_items(r, ts, buf, len, fuel - 1),
            }
        },
        TypeConstr::SetOf(r) => {
            match buf.read_u16_le() {
                Err(_) => false,
                Ok(len) => verify_set_items(r, ts, buf, len, fuel - 1),
            }
        },
        TypeConstr::MapOf(k, v) => {
            match buf.read_u16_le() {
                Err(_) => false,
                Ok(len) => verify_map_items(k, v, ts, buf, len, fuel - 1),
            }
        },
    }
}

/// A schema item that can confirm, against a byte cursor, that the coming
/// bytes form a valid encoding of itself, consuming exactly what a real
/// decode would consume.
pub trait Verify {
    /// What verification means for this item: pass/fail and the position
    /// after the consumed bytes, for a given recursion budget.
    spec fn spec_verify(
        &self,
        ts: Seq<(TypeName, TypeDef)>,
        data: Seq<u8>,
        pos: nat,
        fuel: nat,
    ) -> (bool, nat);

    /// Checks the cursor's coming bytes against this item, advancing the
    /// cursor exactly as a decode would; every failure, a short stream
    /// included, yields `false`.
    fn verify(&self, ts: &TypeSystem, buf: &mut Cursor) -> (r: bool)
        ensures
            final(buf).data() == old(buf).data(),
            old(buf).pos() <= final(buf).pos(),
            ({
                let sp = self.spec_verify(ts@, old(buf).data(), old(buf).pos(), max_fuel());
                r == sp.0 && final(buf).pos() == sp.1
            }),
    ;
}

impl Verify for TypeName {
    open spec fn spec_verify(
        &self,
        ts: Seq<(TypeName, TypeDef)>,
        data: Seq<u8>,
        pos: nat,
        fuel: nat,
    ) -> (bool, nat) {
        sv_name(self@, ts, data, pos, fuel)
    }

    fn verify(&self, ts: &TypeSystem, buf: &mut Cursor) -> (r: bool) {
        verify_name(self, ts, buf, u64::MAX)
    }
}

impl Verify for StructType {
    open spec fn spec_verify(
        &self,
        ts: Seq<(TypeName, TypeDef)>,
        data: Seq<u8>,
        pos: nat,
        fuel: nat,
    ) -> (bool, nat) {
        sv_fields(self.fields@, ts, data, pos, fuel)
    }

    fn verify(&self, ts: &TypeSystem, buf: &mut Cursor) -> (r: bool) {
        verify_fields(self, ts, buf, u64::MAX)
    }
}

impl Verify for StructField {
    open spec fn spec_verify(
        &self,
        ts: Seq<(TypeName, TypeDef)>,
        data: Seq<u8>,
        pos: nat,
        fuel: nat,
    ) -> (bool, nat) {
        sv_field(*self, ts, data, pos, fuel)
    }

    fn verify(&self, ts: &TypeSystem, buf: &mut Cursor) -> (r: bool) {
        verify_field(self, ts, buf, u64::MAX)
    }
}

impl Verify for TypeRef {
    open spec fn spec_verify(
        &self,
        ts: Seq<(TypeName, TypeDef)>,
        data: Seq<u8>,
        pos: nat,
        fuel: nat,
    ) -> (bool, nat) {
        sv_ref(*self, ts, data, pos, fuel)
    }

    fn verify(&self, ts: &TypeSystem, buf: &mut Cursor) -> (r: bool) {
        verify_ref(self, ts, buf, u64::MAX)
    }
}

impl Verify for TypeConstr {
    open spec fn spec_verify(
        &self,
        ts: Seq<(TypeName, TypeDef)>,
        data: Seq<u8>,
        pos: nat,
        fuel: nat,
    ) -> (bool, nat) {
        sv_constr(*self, ts, data, pos, fuel)
    }

    fn verify(&self, ts: &TypeSystem, buf: &mut Cursor) -> (r: bool) {
        verify_constr(self, ts, buf, u64::MAX)
    }
}

impl Verify for TypeDef {
    open spec fn spec_verify(
        &self,
        ts: Seq<(TypeName, TypeDef)>,
        data: Seq<u8>,
        pos: nat,
        fuel: nat,
    ) -> (bool, nat) {
        sv_def(*self, ts, data, pos, fuel)
    }

    fn verify(&self, ts: &TypeSystem, buf: &mut Cursor) -> (r: bool) {
        verify_def(self, ts, buf, u64::MAX)
    }
}

impl Verify for KeyType {
    open spec fn spec_verify(
        &self,
        ts: Seq<(TypeName, TypeDef)>,
        data: Seq<u8>,
        pos: nat,
        fuel: nat,
    ) -> (bool, nat) {
        sv_key(*self, data, pos)
    }

    fn verify(&self, ts: &TypeSystem, buf: &mut Cursor) -> (r: bool) {
        verify_key(self, buf)
    }
}

impl Verify for PrimitiveType {
    open spec fn spec_verify(
        &self,
        ts: Seq<(TypeName, TypeDef)>,
        data: Seq<u8>,
        pos: nat,
        fuel: nat,
    ) -> (bool, nat) {
        sv_prim(*self, data, pos)
    }

    fn verify(&self, ts: &TypeSystem, buf: &mut Cursor) -> (r: bool) {
        verify_prim(self, buf)
    }
}

} // verus!
