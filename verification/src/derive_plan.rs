//! Target side: the field plan behind `#[derive(Watch)]`.
//!
//! For each named field of a structure, in declaration order: a field
//! marked `#[watch(skip)]`, or whose type is not a path, is left out; a
//! field of a primitive type (`f32`, `f64`, `i8`..`i64`, `u8`..`u64`,
//! `bool`) is watched directly, read/write unless marked
//! `#[watch(readonly)]`; a field of any other type is a nested structure
//! whose own fields are flattened under it (all of them read-only when the
//! field is marked `#[watch(readonly)]`, each with its own permission
//! otherwise), and which, seen from further out, is a read-only `Str(32)`
//! value. Kept fields are numbered from 0. Only a structure with named
//! fields derives; an enum, a union, a tuple or a unit structure is refused.

use vstd::prelude::*;

use crate::text::{contains_text, text_contains, text_eq};
use crate::watch_value::{Access, WatchValueKind};

verus! {

broadcast use vstd::string::group_string_axioms;

/// An attribute of a field, reduced to what the plan reads: whether its
/// path is `watch`, and the text of its argument list when it has one.
pub struct AttrInfo {
    pub is_watch: bool,
    pub list_tokens: Option<String>,
}

/// A named field of the structure being derived.
pub struct FieldDecl {
    /// Field name.
    pub name: String,
    /// Last segment of the field's type path, or `None` when the type is
    /// not a path.
    pub type_ident: Option<String>,
    /// The field's attributes.
    pub attrs: Vec<AttrInfo>,
}

/// A kept field.
pub struct FieldInfo {
    pub name: String,
    pub type_str: String,
    pub is_primitive: bool,
    pub is_readonly: bool,
    /// Whether the field carries `#[watch(readonly)]`.
    pub marked_readonly: bool,
    pub kind_str: String,
    pub type_name_str: String,
    pub index: usize,
}

/// Mathematical value of a `FieldInfo`.
pub struct FieldInfoView {
    pub name: Seq<char>,
    pub type_str: Seq<char>,
    pub is_primitive: bool,
    pub is_readonly: bool,
    pub marked_readonly: bool,
    pub kind_str: Seq<char>,
    pub type_name_str: Seq<char>,
    pub index: int,
}

impl View for FieldInfo {
    type V = FieldInfoView;

    open spec fn view(&self) -> FieldInfoView {
        FieldInfoView {
            name: self.name@,
            type_str: self.type_str@,
            is_primitive: self.is_primitive,
            is_readonly: self.is_readonly,
            marked_readonly: self.marked_readonly,
            kind_str: self.kind_str@,
            type_name_str: self.type_name_str@,
            index: self.index as int,
        }
    }
}

/// `a` is a `watch(...)` attribute whose argument text contains `key`.
pub open spec fn attr_has(a: AttrInfo, key: Seq<char>) -> bool {
    a.is_watch && match a.list_tokens {
        Some(t) => contains_text(t@, key),
        None => false,
    }
}

/// Whether a `watch(...)` attribute whose argument text contains `key` is
/// among `attrs`.
pub open spec fn has_watch_attr_spec(attrs: Seq<AttrInfo>, key: Seq<char>) -> bool {
    exists|i: int| 0 <= i < attrs.len() && attr_has(#[trigger] attrs[i], key)
}

/// Whether the field carries `#[watch(..key..)]`.
pub fn has_watch_attr(attrs: &Vec<AttrInfo>, key: &str) -> (r: bool)
    ensures
        r == has_watch_attr_spec(attrs@, key@),
{
    let mut i: usize = 0;
    while i < attrs.len()
        invariant
            i <= attrs@.len(),
            forall|k: int| 0 <= k < i ==> !attr_has(#[trigger] attrs@[k], key@),
        decreases attrs.len() - i,
    {
        if attrs[i].is_watch {
            match &attrs[i].list_tokens {
                Some(t) => {
                    if text_contains(t.as_str(), key) {
                        return true;
                    }
                },
                None => {},
            }
        }
        i = i + 1;
    }
    false
}

/// The kind identifier and type name of a primitive type.
pub open spec fn primitive_kind_spec(t: Seq<char>) -> Option<(Seq<char>, Seq<char>)> {
    if t == "f32"@ {
        Some(("F32"@, "f32"@))
    } else if t == "f64"@ {
        Some(("F64"@, "f64"@))
    } else if t == "i8"@ {
        Some(("I8"@, "i8"@))
    } else if t == "i16"@ {
        Some(("I16"@, "i16"@))
    } else if t == "i32"@ {
        Some(("I32"@, "i32"@))
    } else if t == "i64"@ {
        Some(("I64"@, "i64"@))
    } else if t == "u8"@ {
        Some(("U8"@, "u8"@))
    } else if t == "u16"@ {
        Some(("U16"@, "u16"@))
    } else if t == "u32"@ {
        Some(("U32"@, "u32"@))
    } else if t == "u64"@ {
        Some(("U64"@, "u64"@))
    } else if t == "bool"@ {
        Some(("Bool"@, "bool"@))
    } else {
        None
    }
}

/// The kind identifier and type name of a primitive type, or `None`.
pub fn primitive_kind(type_ident_text: &str) -> (r: Option<(&'static str, &'static str)>)
    ensures
        match r {
            Some((k, tn)) => primitive_kind_spec(type_ident_text@) == Some((k@, tn@)),
            None => primitive_kind_spec(type_ident_text@) is None,
        },
{
    if text_eq(type_ident_text, "f32") {
        Some(("F32", "f32"))
    } else if text_eq(type_ident_text, "f64") {
        Some(("F64", "f64"))
    } else if text_eq(type_ident_text, "i8") {
        Some(("I8", "i8"))
    } else if text_eq(type_ident_text, "i16") {
        Some(("I16", "i16"))
    } else if text_eq(type_ident_text, "i32") {
        Some(("I32", "i32"))
    } else if text_eq(type_ident_text, "i64") {
        Some(("I64", "i64"))
    } else if text_eq(type_ident_text, "u8") {
        Some(("U8", "u8"))
    } else if text_eq(type_ident_text, "u16") {
        Some(("U16", "u16"))
    } else if text_eq(type_ident_text, "u32") {
        Some(("U32", "u32"))
    } else if text_eq(type_ident_text, "u64") {
        Some(("U64", "u64"))
    } else if text_eq(type_ident_text, "bool") {
        Some(("Bool", "bool"))
    } else {
        None
    }
}

/// The kept field for a declaration, numbered `index`.
pub open spec fn info_of(
    name: Seq<char>,
    t: Seq<char>,
    readonly: bool,
    index: int,
) -> FieldInfoView {
    match primitive_kind_spec(t) {
        Some((k, tn)) => FieldInfoView {
            name,
            type_str: t,
            is_primitive: true,
            is_readonly: readonly,
            marked_readonly: readonly,
            kind_str: k,
            type_name_str: tn,
            index,
        },
        None => FieldInfoView {
            name,
            type_str: t,
            is_primitive: false,
            is_readonly: true,
            marked_readonly: readonly,
            kind_str: Seq::empty(),
            type_name_str: t,
            index,
        },
    }
}

/// The kept fields of `decls`, in order, numbered from 0.
pub open spec fn plan_fields(decls: Seq<FieldDecl>) -> Seq<FieldInfoView>
    decreases decls.len(),
{
    if decls.len() == 0 {
        Seq::empty()
    } else {
        let acc = plan_fields(decls.drop_last());
        let d = decls.last();
        if has_watch_attr_spec(d.attrs@, "skip"@) {
            acc
        } else {
            match d.type_ident {
                None => acc,
                Some(t) => acc.push(
                    info_of(d.name@, t@, has_watch_attr_spec(d.attrs@, "readonly"@), acc.len() as int),
                ),
            }
        }
    }
}

/// The views of a sequence of `FieldInfo`.
pub open spec fn infos_view(v: Seq<FieldInfo>) -> Seq<FieldInfoView> {
    v.map_values(|f: FieldInfo| f@)
}

/// The shape of the item `#[derive(Watch)]` is applied to.
pub enum DeriveTarget {
    /// A structure with named fields, in declaration order.
    NamedStruct(Vec<FieldDecl>),
    /// A tuple structure or a unit structure.
    UnnamedStruct,
    /// An enum or a union.
    NotStruct,
}

/// Why `#[derive(Watch)]` refuses an item.
#[derive(Clone, Copy, Debug, PartialEq, Eq, Structural)]
pub enum DeriveError {
    /// The structure's fields are not named.
    UnnamedFields,
    /// The item is not a structure.
    NotStruct,
}

impl DeriveError {
    /// The compile error reported for the refusal.
    pub fn message(&self) -> (s: &'static str)
        ensures
            s@ == (match self {
                DeriveError::UnnamedFields => "Watch 仅支持具名字段结构体"@,
                DeriveError::NotStruct => "Watch 仅支持结构体"@,
            }),
    {
        match self {
            DeriveError::UnnamedFields => "Watch 仅支持具名字段结构体",
            DeriveError::NotStruct => "Watch 仅支持结构体",
        }
    }
}

/// Plans `#[derive(Watch)]` on an item: the field plan of a structure with
/// named fields (see the module documentation); any other item is refused.
pub fn derive_watch(target: &DeriveTarget) -> (r: Result<Vec<FieldInfo>, DeriveError>)
    ensures
        match target {
            DeriveTarget::NamedStruct(fields) => r matches Ok(infos) && infos_view(infos@) == plan_fields(
                fields@,
            ),
            DeriveTarget::UnnamedStruct => r == Err::<Vec<FieldInfo>, DeriveError>(DeriveError::UnnamedFields),
            DeriveTarget::NotStruct => r == Err::<Vec<FieldInfo>, DeriveError>(DeriveError::NotStruct),
        },
{
    match target {
        DeriveTarget::NamedStruct(fields) => Ok(plan_named_fields(fields)),
        DeriveTarget::UnnamedStruct => Err(DeriveError::UnnamedFields),
        DeriveTarget::NotStruct => Err(DeriveError::NotStruct),
    }
}

/// The field plan of the named fields `fields`.
fn plan_named_fields(fields: &Vec<FieldDecl>) -> (infos: Vec<FieldInfo>)
    ensures
        infos_view(infos@) == plan_fields(fields@),
{
    let mut infos: Vec<FieldInfo> = Vec::new();
    let mut i: usize = 0;
    assert(fields@.take(0) =~= Seq::<FieldDecl>::empty());
    while i < fields.len()
        invariant
            i <= fields@.len(),
            infos_view(infos@) == plan_fields(fields@.take(i as int)),
            infos@.len() <= i,
        decreases fields.len() - i,
    {
        let field = &fields[i];
        proof {
            assert(fields@.take(i + 1).drop_last() =~= fields@.take(i as int));
            assert(fields@.take(i + 1).last() == fields@[i as int]);
        }
        proof {
            reveal_strlit("skip");
            reveal_strlit("readonly");
        }
        if !has_watch_attr(&field.attrs, "skip") {
            match &field.type_ident {
                None => {},
                Some(t) => {
                    let is_readonly = has_watch_attr(&field.attrs, "readonly");
                    let index = infos.len();
                    let info = match primitive_kind(t.as_str()) {
                        Some((k, tn)) => FieldInfo {
                            name: field.name.clone(),
                            type_str: t.clone(),
                            is_primitive: true,
                            is_readonly,
                            marked_readonly: is_readonly,
                            kind_str: String::from_str(k),
                            type_name_str: String::from_str(tn),
                            index,
                        },
                        None => FieldInfo {
                            name: field.name.clone(),
                            type_str: t.clone(),
                            is_primitive: false,
                            is_readonly: true,
                            marked_readonly: is_readonly,
                            kind_str: String::new(),
                            type_name_str: t.clone(),
                            index,
                        },
                    };
                    let ghost before = infos@;
                    infos.push(info);
                    proof {
                        assert(infos_view(infos@) =~= infos_view(before).push(info@));
                    }
                },
            }
        }
        i = i + 1;
    }
    assert(fields@.take(i as int) =~= fields@);
    infos
}

/// The value kind an identifier names.
pub open spec fn kind_named(k: Seq<char>) -> WatchValueKind {
    if k == "F32"@ {
        WatchValueKind::F32
    } else if k == "F64"@ {
        WatchValueKind::F64
    } else if k == "I8"@ {
        WatchValueKind::I8
    } else if k == "I16"@ {
        WatchValueKind::I16
    } else if k == "I32"@ {
        WatchValueKind::I32
    } else if k == "I64"@ {
        WatchValueKind::I64
    } else if k == "U8"@ {
        WatchValueKind::U8
    } else if k == "U16"@ {
        WatchValueKind::U16
    } else if k == "U32"@ {
        WatchValueKind::U32
    } else if k == "U64"@ {
        WatchValueKind::U64
    } else {
        WatchValueKind::Bool
    }
}

/// Kind of the metadata of a kept field: its primitive kind, or `Str(32)`
/// for a nested structure.
pub open spec fn meta_kind(f: FieldInfoView) -> WatchValueKind {
    if f.is_primitive {
        kind_named(f.kind_str)
    } else {
        WatchValueKind::Str(32)
    }
}

/// Permission of the metadata of a kept field.
pub open spec fn meta_access(f: FieldInfoView) -> Access {
    if f.is_readonly {
        Access::ReadOnly
    } else {
        Access::ReadWrite
    }
}

impl FieldInfo {
    /// The value kind this field's metadata reports.
    pub fn kind(&self) -> (k: WatchValueKind)
        ensures
            k == meta_kind(self@),
    {
        if !self.is_primitive {
            return WatchValueKind::Str(32);
        }
        let s = self.kind_str.as_str();
        if text_eq(s, "F32") {
            WatchValueKind::F32
        } else if text_eq(s, "F64") {
            WatchValueKind::F64
        } else if text_eq(s, "I8") {
            WatchValueKind::I8
        } else if text_eq(s, "I16") {
            WatchValueKind::I16
        } else if text_eq(s, "I32") {
            WatchValueKind::I32
        } else if text_eq(s, "I64") {
            WatchValueKind::I64
        } else if text_eq(s, "U8") {
            WatchValueKind::U8
        } else if text_eq(s, "U16") {
            WatchValueKind::U16
        } else if text_eq(s, "U32") {
            WatchValueKind::U32
        } else if text_eq(s, "U64") {
            WatchValueKind::U64
        } else {
            WatchValueKind::Bool
        }
    }

    /// The permission this field's metadata reports.
    pub fn access(&self) -> (a: Access)
        ensures
            a == meta_access(self@),
    {
        if self.is_readonly {
            Access::ReadOnly
        } else {
            Access::ReadWrite
        }
    }
}

/// Whether the derived reader answers selector `idx`: only primitive
/// fields are read.
pub open spec fn reads(plan: Seq<FieldInfoView>, idx: int) -> bool {
    exists|i: int| 0 <= i < plan.len() && (#[trigger] plan[i]).index == idx && plan[i].is_primitive
}

/// Whether the derived writer accepts selector `idx`: only primitive fields
/// that are not read-only are written.
pub open spec fn writes(plan: Seq<FieldInfoView>, idx: int) -> bool {
    exists|i: int|
        0 <= i < plan.len() && (#[trigger] plan[i]).index == idx && plan[i].is_primitive
            && !plan[i].is_readonly
}

/// `f` is planned as a primitive field of kind `k` and type name `t`,
/// read-only exactly when marked so.
pub open spec fn planned_as(f: FieldInfoView, k: WatchValueKind, t: Seq<char>, readonly: bool) -> bool {
    &&& f.is_primitive
    &&& meta_kind(f) == k
    &&& f.type_name_str == t
    &&& f.type_str == t
    &&& f.is_readonly == readonly
    &&& meta_access(f) == (if readonly {
        Access::ReadOnly
    } else {
        Access::ReadWrite
    })
}

/// The type and kind literals, spelled out and told apart.
proof fn lemma_type_literals()
    ensures
        "f32"@ == seq!['f', '3', '2'],
        "F32"@ == seq!['F', '3', '2'],
        "f64"@ == seq!['f', '6', '4'],
        "F64"@ == seq!['F', '6', '4'],
        "i8"@ == seq!['i', '8'],
        "I8"@ == seq!['I', '8'],
        "i16"@ == seq!['i', '1', '6'],
        "I16"@ == seq!['I', '1', '6'],
        "i32"@ == seq!['i', '3', '2'],
        "I32"@ == seq!['I', '3', '2'],
        "i64"@ == seq!['i', '6', '4'],
        "I64"@ == seq!['I', '6', '4'],
        "u8"@ == seq!['u', '8'],
        "U8"@ == seq!['U', '8'],
        "u16"@ == seq!['u', '1', '6'],
        "U16"@ == seq!['U', '1', '6'],
        "u32"@ == seq!['u', '3', '2'],
        "U32"@ == seq!['U', '3', '2'],
        "u64"@ == seq!['u', '6', '4'],
        "U64"@ == seq!['U', '6', '4'],
        "bool"@ == seq!['b', 'o', 'o', 'l'],
        "Bool"@ == seq!['B', 'o', 'o', 'l'],
{
    reveal_strlit("f32");
    reveal_strlit("F32");
    assert("f32"@ =~= seq!['f', '3', '2']);
    assert("F32"@ =~= seq!['F', '3', '2']);
    reveal_strlit("f64");
    reveal_strlit("F64");
    assert("f64"@ =~= seq!['f', '6', '4']);
    assert("F64"@ =~= seq!['F', '6', '4']);
    reveal_strlit("i8");
    reveal_strlit("I8");
    assert("i8"@ =~= seq!['i', '8']);
    assert("I8"@ =~= seq!['I', '8']);
    reveal_strlit("i16");
    reveal_strlit("I16");
    assert("i16"@ =~= seq!['i', '1', '6']);
    assert("I16"@ =~= seq!['I', '1', '6']);
    reveal_strlit("i32");
    reveal_strlit("I32");
    assert("i32"@ =~= seq!['i', '3', '2']);
    assert("I32"@ =~= seq!['I', '3', '2']);
    reveal_strlit("i64");
    reveal_strlit("I64");
    assert("i64"@ =~= seq!['i', '6', '4']);
    assert("I64"@ =~= seq!['I', '6', '4']);
    reveal_strlit("u8");
    reveal_strlit("U8");
    assert("u8"@ =~= seq!['u', '8']);
    assert("U8"@ =~= seq!['U', '8']);
    reveal_strlit("u16");
    reveal_strlit("U16");
    assert("u16"@ =~= seq!['u', '1', '6']);
    assert("U16"@ =~= seq!['U', '1', '6']);
    reveal_strlit("u32");
    reveal_strlit("U32");
    assert("u32"@ =~= seq!['u', '3', '2']);
    assert("U32"@ =~= seq!['U', '3', '2']);
    reveal_strlit("u64");
    reveal_strlit("U64");
    assert("u64"@ =~= seq!['u', '6', '4']);
    assert("U64"@ =~= seq!['U', '6', '4']);
    reveal_strlit("bool");
    reveal_strlit("Bool");
    assert("bool"@ =~= seq!['b', 'o', 'o', 'l']);
    assert("Bool"@ =~= seq!['B', 'o', 'o', 'l']);
    assert(seq!['f', '3', '2'][1] != seq!['f', '6', '4'][1]);
    assert(seq!['f', '3', '2'][0] != seq!['i', '1', '6'][0]);
    assert(seq!['f', '3', '2'][0] != seq!['i', '3', '2'][0]);
    assert(seq!['f', '3', '2'][0] != seq!['i', '6', '4'][0]);
    assert(seq!['f', '3', '2'][0] != seq!['u', '1', '6'][0]);
    assert(seq!['f', '3', '2'][0] != seq!['u', '3', '2'][0]);
    assert(seq!['f', '3', '2'][0] != seq!['u', '6', '4'][0]);
    assert(seq!['f', '6', '4'][0] != seq!['i', '1', '6'][0]);
    assert(seq!['f', '6', '4'][0] != seq!['i', '3', '2'][0]);
    assert(seq!['f', '6', '4'][0] != seq!['i', '6', '4'][0]);
    assert(seq!['f', '6', '4'][0] != seq!['u', '1', '6'][0]);
    assert(seq!['f', '6', '4'][0] != seq!['u', '3', '2'][0]);
    assert(seq!['f', '6', '4'][0] != seq!['u', '6', '4'][0]);
    assert(seq!['i', '8'][0] != seq!['u', '8'][0]);
    assert(seq!['i', '1', '6'][1] != seq!['i', '3', '2'][1]);
    assert(seq!['i', '1', '6'][1] != seq!['i', '6', '4'][1]);
    assert(seq!['i', '1', '6'][0] != seq!['u', '1', '6'][0]);
    assert(seq!['i', '1', '6'][0] != seq!['u', '3', '2'][0]);
    assert(seq!['i', '1', '6'][0] != seq!['u', '6', '4'][0]);
    assert(seq!['i', '3', '2'][1] != seq!['i', '6', '4'][1]);
    assert(seq!['i', '3', '2'][0] != seq!['u', '1', '6'][0]);
    assert(seq!['i', '3', '2'][0] != seq!['u', '3', '2'][0]);
    assert(seq!['i', '3', '2'][0] != seq!['u', '6', '4'][0]);
    assert(seq!['i', '6', '4'][0] != seq!['u', '1', '6'][0]);
    assert(seq!['i', '6', '4'][0] != seq!['u', '3', '2'][0]);
    assert(seq!['i', '6', '4'][0] != seq!['u', '6', '4'][0]);
    assert(seq!['u', '1', '6'][1] != seq!['u', '3', '2'][1]);
    assert(seq!['u', '1', '6'][1] != seq!['u', '6', '4'][1]);
    assert(seq!['u', '3', '2'][1] != seq!['u', '6', '4'][1]);
    assert(seq!['F', '3', '2'][1] != seq!['F', '6', '4'][1]);
    assert(seq!['F', '3', '2'][0] != seq!['I', '1', '6'][0]);
    assert(seq!['F', '3', '2'][0] != seq!['I', '3', '2'][0]);
    assert(seq!['F', '3', '2'][0] != seq!['I', '6', '4'][0]);
    assert(seq!['F', '3', '2'][0] != seq!['U', '1', '6'][0]);
    assert(seq!['F', '3', '2'][0] != seq!['U', '3', '2'][0]);
    assert(seq!['F', '3', '2'][0] != seq!['U', '6', '4'][0]);
    assert(seq!['F', '6', '4'][0] != seq!['I', '1', '6'][0]);
    assert(seq!['F', '6', '4'][0] != seq!['I', '3', '2'][0]);
    assert(seq!['F', '6', '4'][0] != seq!['I', '6', '4'][0]);
    assert(seq!['F', '6', '4'][0] != seq!['U', '1', '6'][0]);
    assert(seq!['F', '6', '4'][0] != seq!['U', '3', '2'][0]);
    assert(seq!['F', '6', '4'][0] != seq!['U', '6', '4'][0]);
    assert(seq!['I', '8'][0] != seq!['U', '8'][0]);
    assert(seq!['I', '1', '6'][1] != seq!['I', '3', '2'][1]);
    assert(seq!['I', '1', '6'][1] != seq!['I', '6', '4'][1]);
    assert(seq!['I', '1', '6'][0] != seq!['U', '1', '6'][0]);
    assert(seq!['I', '1', '6'][0] != seq!['U', '3', '2'][0]);
    assert(seq!['I', '1', '6'][0] != seq!['U', '6', '4'][0]);
    assert(seq!['I', '3', '2'][1] != seq!['I', '6', '4'][1]);
    assert(seq!['I', '3', '2'][0] != seq!['U', '1', '6'][0]);
    assert(seq!['I', '3', '2'][0] != seq!['U', '3', '2'][0]);
    assert(seq!['I', '3', '2'][0] != seq!['U', '6', '4'][0]);
    assert(seq!['I', '6', '4'][0] != seq!['U', '1', '6'][0]);
    assert(seq!['I', '6', '4'][0] != seq!['U', '3', '2'][0]);
    assert(seq!['I', '6', '4'][0] != seq!['U', '6', '4'][0]);
    assert(seq!['U', '1', '6'][1] != seq!['U', '3', '2'][1]);
    assert(seq!['U', '1', '6'][1] != seq!['U', '6', '4'][1]);
    assert(seq!['U', '3', '2'][1] != seq!['U', '6', '4'][1]);
}

/// Each of the primitive types `f32`, `f64`, `i8`, `i16`, `i32`, `i64`,
/// `u8`, `u16`, `u32`, `u64` and `bool` is planned as a primitive field with
/// the value kind of that type, its own name as type name, and read/write
/// unless marked read-only.
pub proof fn law_primitive_fields(name: Seq<char>, readonly: bool, index: int)
    ensures
        planned_as(info_of(name, seq!['f', '3', '2'], readonly, index), WatchValueKind::F32, seq!['f', '3', '2'], readonly),
        planned_as(info_of(name, seq!['f', '6', '4'], readonly, index), WatchValueKind::F64, seq!['f', '6', '4'], readonly),
        planned_as(info_of(name, seq!['i', '8'], readonly, index), WatchValueKind::I8, seq!['i', '8'], readonly),
        planned_as(info_of(name, seq!['i', '1', '6'], readonly, index), WatchValueKind::I16, seq!['i', '1', '6'], readonly),
        planned_as(info_of(name, seq!['i', '3', '2'], readonly, index), WatchValueKind::I32, seq!['i', '3', '2'], readonly),
        planned_as(info_of(name, seq!['i', '6', '4'], readonly, index), WatchValueKind::I64, seq!['i', '6', '4'], readonly),
        planned_as(info_of(name, seq!['u', '8'], readonly, index), WatchValueKind::U8, seq!['u', '8'], readonly),
        planned_as(info_of(name, seq!['u', '1', '6'], readonly, index), WatchValueKind::U16, seq!['u', '1', '6'], readonly),
        planned_as(info_of(name, seq!['u', '3', '2'], readonly, index), WatchValueKind::U32, seq!['u', '3', '2'], readonly),
        planned_as(info_of(name, seq!['u', '6', '4'], readonly, index), WatchValueKind::U64, seq!['u', '6', '4'], readonly),
        planned_as(info_of(name, seq!['b', 'o', 'o', 'l'], readonly, index), WatchValueKind::Bool, seq!['b', 'o', 'o', 'l'], readonly),
{
    lemma_type_literals();
}

/// A field of any other type is planned as a nested structure: not
/// primitive, read-only, of kind `Str(32)`, with its type as type name.
pub proof fn law_other_types_nested(name: Seq<char>, t: Seq<char>, readonly: bool, index: int)
    requires
        t != seq!['f', '3', '2'] && t != seq!['f', '6', '4'] && t != seq!['i', '8'] && t != seq!['i', '1', '6'] && t != seq!['i', '3', '2'] && t != seq!['i', '6', '4'] && t != seq!['u', '8'] && t != seq!['u', '1', '6'] && t != seq!['u', '3', '2'] && t != seq!['u', '6', '4'] && t != seq!['b', 'o', 'o', 'l'],
    ensures
        !info_of(name, t, readonly, index).is_primitive,
        info_of(name, t, readonly, index).is_readonly,
        meta_kind(info_of(name, t, readonly, index)) == WatchValueKind::Str(32),
        meta_access(info_of(name, t, readonly, index)) == Access::ReadOnly,
        info_of(name, t, readonly, index).type_name_str == t,
{
    lemma_type_literals();
}

/// Every planned field is planned from its own name, type and read-only
/// mark at its own position, so `law_primitive_fields` and
/// `law_other_types_nested` describe each field `derive_watch` returns.
pub proof fn law_plan_fields_are_infos(decls: Seq<FieldDecl>)
    ensures
        forall|i: int|
            0 <= i < plan_fields(decls).len() ==> #[trigger] plan_fields(decls)[i] == info_of(
                plan_fields(decls)[i].name,
                plan_fields(decls)[i].type_str,
                plan_fields(decls)[i].marked_readonly,
                i,
            ),
    decreases decls.len(),
{
    if decls.len() > 0 {
        law_plan_fields_are_infos(decls.drop_last());
        let acc = plan_fields(decls.drop_last());
        let p = plan_fields(decls);
        assert(p.len() == acc.len() || p.len() == acc.len() + 1);
        assert forall|i: int| 0 <= i < p.len() implies #[trigger] p[i] == info_of(
            p[i].name,
            p[i].type_str,
            p[i].marked_readonly,
            i,
        ) by {
            if i < acc.len() {
                assert(p[i] == acc[i]);
            }
        }
    }
}

/// The type name a primitive type reports is the type itself.
pub proof fn law_primitive_name_is_type(t: Seq<char>)
    ensures
        primitive_kind_spec(t) matches Some((k, n)) ==> n == t,
{
}

/// The field the derived reader reads for selector `idx`: the first
/// primitive field numbered `idx`, or `None` when the reader answers nothing.
pub fn read_field(plan: &Vec<FieldInfo>, idx: u16) -> (r: Option<usize>)
    ensures
        r is Some <==> reads(infos_view(plan@), idx as int),
        r matches Some(i) ==> i < plan@.len() && plan@[i as int].index == idx as int
            && plan@[i as int].is_primitive,
{
    let ghost v = infos_view(plan@);
    let mut i: usize = 0;
    while i < plan.len()
        invariant
            i <= plan@.len(),
            v == infos_view(plan@),
            v.len() == plan@.len(),
            forall|k: int| 0 <= k < i ==> !((#[trigger] v[k]).index == idx as int && v[k].is_primitive),
        decreases plan.len() - i,
    {
        assert(v[i as int] == plan@[i as int]@);
        if plan[i].index == idx as usize && plan[i].is_primitive {
            return Some(i);
        }
        i = i + 1;
    }
    None
}

/// The field the derived writer writes for selector `idx`: the first
/// primitive field numbered `idx` that is not read-only, or `None` when the
/// writer refuses it.
pub fn write_field(plan: &Vec<FieldInfo>, idx: u16) -> (r: Option<usize>)
    ensures
        r is Some <==> writes(infos_view(plan@), idx as int),
        r matches Some(i) ==> i < plan@.len() && plan@[i as int].index == idx as int
            && plan@[i as int].is_primitive && !plan@[i as int].is_readonly,
{
    let ghost v = infos_view(plan@);
    let mut i: usize = 0;
    while i < plan.len()
        invariant
            i <= plan@.len(),
            v == infos_view(plan@),
            v.len() == plan@.len(),
            forall|k: int|
                0 <= k < i ==> !((#[trigger] v[k]).index == idx as int && v[k].is_primitive && !v[k].is_readonly),
        decreases plan.len() - i,
    {
        assert(v[i as int] == plan@[i as int]@);
        if plan[i].index == idx as usize && plan[i].is_primitive && !plan[i].is_readonly {
            return Some(i);
        }
        i = i + 1;
    }
    None
}

/// Kept fields are numbered 0, 1, 2, ... in order; a nested structure is
/// always read-only; nothing the reader refuses is written.
pub proof fn law_plan_shape(decls: Seq<FieldDecl>)
    ensures
        forall|i: int| 0 <= i < plan_fields(decls).len() ==> (#[trigger] plan_fields(decls)[i]).index == i,
        forall|i: int|
            0 <= i < plan_fields(decls).len() && !(#[trigger] plan_fields(decls)[i]).is_primitive
                ==> plan_fields(decls)[i].is_readonly,
        forall|idx: int| writes(plan_fields(decls), idx) ==> reads(plan_fields(decls), idx),
        plan_fields(decls).len() <= decls.len(),
    decreases decls.len(),
{
    if decls.len() > 0 {
        law_plan_shape(decls.drop_last());
    }
}

} // verus!
