use rtt_debug_tool::derive_plan::{
    derive_watch, has_watch_attr, primitive_kind, read_field, write_field, AttrInfo, DeriveError, DeriveTarget,
    FieldDecl,
};
use rtt_debug_tool::text::text_contains;
use rtt_debug_tool::watch_value::{Access, WatchValueKind};

fn attr(tokens: &str) -> AttrInfo {
    AttrInfo { is_watch: true, list_tokens: Some(tokens.to_string()) }
}

fn field(name: &str, ty: &str, attrs: Vec<AttrInfo>) -> FieldDecl {
    FieldDecl { name: name.to_string(), type_ident: Some(ty.to_string()), attrs }
}

#[test]
fn primitive_kinds() {
    assert_eq!(primitive_kind("f32"), Some(("F32", "f32")));
    assert_eq!(primitive_kind("u16"), Some(("U16", "u16")));
    assert_eq!(primitive_kind("bool"), Some(("Bool", "bool")));
    assert_eq!(primitive_kind("Motor"), None);
    assert_eq!(primitive_kind("usize"), None);
}

#[test]
fn watch_attributes() {
    assert!(has_watch_attr(&vec![attr("readonly")], "readonly"));
    assert!(!has_watch_attr(&vec![attr("readonly")], "skip"));
    assert!(!has_watch_attr(&vec![AttrInfo { is_watch: false, list_tokens: Some("skip".to_string()) }], "skip"));
    assert!(!has_watch_attr(&vec![AttrInfo { is_watch: true, list_tokens: None }], "skip"));
    assert!(text_contains("a, skip", "skip"));
    assert!(!text_contains("sk", "skip"));
}

#[test]
fn plan_of_arm() {
    let fields = vec![
        field("voltage", "f32", vec![]),
        field("hidden", "u8", vec![attr("skip")]),
        field("pitch", "Motor", vec![]),
        field("count", "u32", vec![attr("readonly")]),
        FieldDecl { name: "tuple".to_string(), type_ident: None, attrs: vec![] },
        field("on", "bool", vec![]),
    ];
    let plan = derive_watch(&DeriveTarget::NamedStruct(fields)).unwrap();
    assert_eq!(plan.len(), 4);
    assert_eq!(plan[0].name, "voltage");
    assert_eq!(plan[0].index, 0);
    assert!(plan[0].is_primitive && !plan[0].is_readonly);
    assert_eq!(plan[0].kind(), WatchValueKind::F32);
    assert_eq!(plan[0].access(), Access::ReadWrite);
    assert_eq!(plan[1].name, "pitch");
    assert_eq!(plan[1].index, 1);
    assert!(!plan[1].is_primitive && plan[1].is_readonly);
    assert_eq!(plan[1].kind(), WatchValueKind::Str(32));
    assert_eq!(plan[1].type_name_str, "Motor");
    assert_eq!(plan[2].name, "count");
    assert_eq!(plan[2].access(), Access::ReadOnly);
    assert_eq!(plan[2].kind(), WatchValueKind::U32);
    assert_eq!(plan[3].name, "on");
    assert_eq!(plan[3].index, 3);
    assert_eq!(plan[3].kind(), WatchValueKind::Bool);
}

#[test]
fn nested_readonly_mark_is_kept() {
    let fields = vec![field("pitch", "Motor", vec![]), field("joint", "Joint", vec![attr("readonly")])];
    let plan = derive_watch(&DeriveTarget::NamedStruct(fields)).unwrap();
    assert!(plan[0].is_readonly && !plan[0].marked_readonly);
    assert!(plan[1].is_readonly && plan[1].marked_readonly);
}

#[test]
fn only_named_structs_derive() {
    assert_eq!(derive_watch(&DeriveTarget::UnnamedStruct).err(), Some(DeriveError::UnnamedFields));
    assert_eq!(derive_watch(&DeriveTarget::NotStruct).err(), Some(DeriveError::NotStruct));
    assert_eq!(DeriveError::NotStruct.message(), "Watch 仅支持结构体");
    assert_eq!(DeriveError::UnnamedFields.message(), "Watch 仅支持具名字段结构体");
    assert!(derive_watch(&DeriveTarget::NamedStruct(vec![])).unwrap().is_empty());
}

#[test]
fn dispatch_selects_fields() {
    let fields = vec![
        field("voltage", "f32", vec![]),
        field("pitch", "Motor", vec![]),
        field("count", "u32", vec![attr("readonly")]),
    ];
    let plan = derive_watch(&DeriveTarget::NamedStruct(fields)).unwrap();
    assert_eq!(read_field(&plan, 0), Some(0));
    assert_eq!(write_field(&plan, 0), Some(0));
    assert_eq!(read_field(&plan, 1), None);
    assert_eq!(write_field(&plan, 1), None);
    assert_eq!(read_field(&plan, 2), Some(2));
    assert_eq!(write_field(&plan, 2), None);
    assert_eq!(read_field(&plan, 7), None);
}
