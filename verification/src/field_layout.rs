//! Wire layout of a record with primitive fields, as the `WireMessage`
//! derive lays it out: each field in declaration order, packed, little-endian.
//!
//! Field types are named as in Rust source (`u8`, `i64`, `bool`, ...).
use vstd::prelude::*;
use vstd::string::StrSliceExecFns;

verus! {

/// How one field is written on the wire.
#[derive(Debug, Clone, Copy, PartialEq, Eq, Structural)]
pub enum TypeKind {
    /// One byte, as is.
    U8,
    /// One byte: 1 for `true`, 0 for `false`; any non-zero byte reads as `true`.
    Bool,
    /// A number written as its `size` little-endian bytes.
    LeNum { size: usize },
}

/// Size and kind of a supported field type.
#[derive(Debug, Clone, Copy, PartialEq, Eq, Structural)]
pub struct TypeInfo {
    pub size: usize,
    pub kind: TypeKind,
}

/// Error for a field type the layout does not support.
#[derive(Debug, Clone, Copy, PartialEq, Eq, Structural)]
pub struct UnsupportedType;

/// The wire layout of the field type named `name`, if it is supported.
pub open spec fn supported_type(name: Seq<char>) -> Option<TypeInfo> {
    if name == "u8"@ {
        Some(TypeInfo { size: 1, kind: TypeKind::U8 })
    } else if name == "bool"@ {
        Some(TypeInfo { size: 1, kind: TypeKind::Bool })
    } else if name == "u16"@ || name == "i16"@ {
        Some(TypeInfo { size: 2, kind: TypeKind::LeNum { size: 2 } })
    } else if name == "i8"@ {
        Some(TypeInfo { size: 1, kind: TypeKind::LeNum { size: 1 } })
    } else if name == "u32"@ || name == "i32"@ || name == "f32"@ {
        Some(TypeInfo { size: 4, kind: TypeKind::LeNum { size: 4 } })
    } else if name == "u64"@ || name == "i64"@ || name == "f64"@ {
        Some(TypeInfo { size: 8, kind: TypeKind::LeNum { size: 8 } })
    } else {
        None
    }
}

/// Total size of `fields`, laid out one after another.
pub open spec fn sizes_sum(fields: Seq<TypeInfo>) -> nat
    decreases fields.len(),
{
    if fields.len() == 0 {
        0
    } else {
        sizes_sum(fields.drop_last()) + fields.last().size as nat
    }
}

/// Whether two strings hold the same characters.
fn str_eq(a: &str, b: &str) -> (r: bool)
    ensures
        r == (a@ == b@),
{
    let n = a.unicode_len();
    if n != b.unicode_len() {
        return false;
    }
    let mut i: usize = 0;
    while i < n
        invariant
            n == a@.len(),
            n == b@.len(),
            i <= n,
            forall|j: int| 0 <= j < i ==> a@[j] == b@[j],
        decreases n - i,
    {
        if a.get_char(i) != b.get_char(i) {
            return false;
        }
        i = i + 1;
    }
    assert(a@ =~= b@);
    true
}

/// The wire layout of the field type named `name`.
pub fn type_info(name: &str) -> (r: Result<TypeInfo, UnsupportedType>)
    ensures
        match r {
            Ok(info) => supported_type(name@) == Some(info),
            Err(_) => supported_type(name@) is None,
        },
{
    if str_eq(name, "u8") {
        Ok(TypeInfo { size: 1, kind: TypeKind::U8 })
    } else if str_eq(name, "bool") {
        Ok(TypeInfo { size: 1, kind: TypeKind::Bool })
    } else if str_eq(name, "u16") || str_eq(name, "i16") {
        Ok(TypeInfo { size: 2, kind: TypeKind::LeNum { size: 2 } })
    } else if str_eq(name, "i8") {
        Ok(TypeInfo { size: 1, kind: TypeKind::LeNum { size: 1 } })
    } else if str_eq(name, "u32") || str_eq(name, "i32") || str_eq(name, "f32") {
        Ok(TypeInfo { size: 4, kind: TypeKind::LeNum { size: 4 } })
    } else if str_eq(name, "u64") || str_eq(name, "i64") || str_eq(name, "f64") {
        Ok(TypeInfo { size: 8, kind: TypeKind::LeNum { size: 8 } })
    } else {
        Err(UnsupportedType)
    }
}

/// The offset of each field (the sum of the sizes before it) and the total
/// size of the record.
pub fn field_offsets(fields: &[TypeInfo]) -> (r: (Vec<usize>, usize))
    requires
        sizes_sum(fields@) <= usize::MAX,
    ensures
        r.0@.len() == fields@.len(),
        forall|i: int| 0 <= i < fields@.len() ==> #[trigger] r.0@[i] == sizes_sum(fields@.take(i)),
        r.1 == sizes_sum(fields@),
{
    let mut offsets: Vec<usize> = Vec::new();
    let mut total: usize = 0;
    let mut i: usize = 0;
    while i < fields.len()
        invariant
            i <= fields@.len(),
            offsets@.len() == i,
            forall|j: int| 0 <= j < i ==> #[trigger] offsets@[j] == sizes_sum(fields@.take(j)),
            total == sizes_sum(fields@.take(i as int)),
            sizes_sum(fields@) <= usize::MAX,
        decreases fields@.len() - i,
    {
        proof {
            lemma_sizes_sum_prefix(fields@, i as int + 1);
            assert(fields@.take(i + 1).drop_last() =~= fields@.take(i as int));
        }
        offsets.push(total);
        total = total + fields[i].size;
        i = i + 1;
    }
    assert(fields@.take(i as int) =~= fields@);
    (offsets, total)
}

/// The total size of a prefix of the fields is at most the total size of all.
proof fn lemma_sizes_sum_prefix(fields: Seq<TypeInfo>, i: int)
    requires
        0 <= i <= fields.len(),
    ensures
        sizes_sum(fields.take(i)) <= sizes_sum(fields),
    decreases fields.len() - i,
{
    if i < fields.len() {
        lemma_sizes_sum_prefix(fields, i + 1);
        assert(fields.take(i + 1).drop_last() =~= fields.take(i));
    } else {
        assert(fields.take(i) =~= fields);
    }
}

/// Each of the eleven supported field types has a layout whose size is the
/// type's width in bytes: one byte for `u8`, `i8` and `bool`, and two, four
/// or eight little-endian bytes for the 16-, 32- and 64-bit numbers.
pub proof fn lemma_supported_types()
    ensures
        supported_type("u8"@) == Some(TypeInfo { size: 1, kind: TypeKind::U8 }),
        supported_type("bool"@) == Some(TypeInfo { size: 1, kind: TypeKind::Bool }),
        supported_type("u16"@) == Some(TypeInfo { size: 2, kind: TypeKind::LeNum { size: 2 } }),
        supported_type("i16"@) == Some(TypeInfo { size: 2, kind: TypeKind::LeNum { size: 2 } }),
        supported_type("i8"@) == Some(TypeInfo { size: 1, kind: TypeKind::LeNum { size: 1 } }),
        supported_type("u32"@) == Some(TypeInfo { size: 4, kind: TypeKind::LeNum { size: 4 } }),
        supported_type("i32"@) == Some(TypeInfo { size: 4, kind: TypeKind::LeNum { size: 4 } }),
        supported_type("f32"@) == Some(TypeInfo { size: 4, kind: TypeKind::LeNum { size: 4 } }),
        supported_type("u64"@) == Some(TypeInfo { size: 8, kind: TypeKind::LeNum { size: 8 } }),
        supported_type("i64"@) == Some(TypeInfo { size: 8, kind: TypeKind::LeNum { size: 8 } }),
        supported_type("f64"@) == Some(TypeInfo { size: 8, kind: TypeKind::LeNum { size: 8 } }),
{
    reveal_strlit("u8");
    reveal_strlit("bool");
    reveal_strlit("u16");
    reveal_strlit("i16");
    reveal_strlit("i8");
    reveal_strlit("u32");
    reveal_strlit("i32");
    reveal_strlit("f32");
    reveal_strlit("u64");
    reveal_strlit("i64");
    reveal_strlit("f64");
    assert("u8"@.len() == 2);
    assert("bool"@.len() == 4);
    assert("u16"@.len() == 3);
    assert("i16"@.len() == 3);
    assert("i8"@.len() == 2);
    assert("u32"@.len() == 3);
    assert("i32"@.len() == 3);
    assert("f32"@.len() == 3);
    assert("u64"@.len() == 3);
    assert("i64"@.len() == 3);
    assert("f64"@.len() == 3);
    assert("u8"@[0] == 'u' && "u8"@[1] == '8');
    assert("bool"@[0] == 'b' && "bool"@[1] == 'o');
    assert("u16"@[0] == 'u' && "u16"@[1] == '1');
    assert("i16"@[0] == 'i' && "i16"@[1] == '1');
    assert("i8"@[0] == 'i' && "i8"@[1] == '8');
    assert("u32"@[0] == 'u' && "u32"@[1] == '3');
    assert("i32"@[0] == 'i' && "i32"@[1] == '3');
    assert("f32"@[0] == 'f' && "f32"@[1] == '3');
    assert("u64"@[0] == 'u' && "u64"@[1] == '6');
    assert("i64"@[0] == 'i' && "i64"@[1] == '6');
    assert("f64"@[0] == 'f' && "f64"@[1] == '6');
}

/// Every supported layout takes one, two, four or eight bytes, and its kind
/// agrees with its size.
pub proof fn lemma_layout_sizes(name: Seq<char>)
    requires
        supported_type(name) is Some,
    ensures
        supported_type(name).unwrap().size == 1 || supported_type(name).unwrap().size == 2
            || supported_type(name).unwrap().size == 4 || supported_type(name).unwrap().size == 8,
        supported_type(name).unwrap().kind matches TypeKind::LeNum { size } ==> size
            == supported_type(name).unwrap().size,
        supported_type(name).unwrap().kind is U8 || supported_type(name).unwrap().kind is Bool
            ==> supported_type(name).unwrap().size == 1,
{
}

} // verus!
