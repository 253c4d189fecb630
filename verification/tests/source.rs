use collisions::bindings::{OutItem, SrcFields};
use collisions::source::{transform_rust_source_code, SyntaxArena};
use quote::ToTokens;

fn kept_text(arena: &SyntaxArena, item: &OutItem) -> String {
    match item {
        OutItem::Keep(node) => arena.items[*node].to_token_stream().to_string(),
        other => panic!("expected a kept item, got {:?}", other),
    }
}

fn names(items: &[OutItem]) -> Vec<String> {
    items
        .iter()
        .map(|item| match item {
            OutItem::Struct(_, name, _) => format!("struct {}", name),
            OutItem::TagEnum(_, name, _) => format!("enum {}", name),
            OutItem::DataUnion(_, name, _) => format!("union {}", name),
            OutItem::TaggedStruct(_, name, _, _) => format!("tagged {}", name),
            OutItem::Keep(_) => "keep".to_string(),
            OutItem::Impl(_, _) => "impl".to_string(),
            OutItem::Fn(_) => "fn".to_string(),
        })
        .collect()
}

#[test]
fn text_that_does_not_parse_is_refused() {
    assert!(transform_rust_source_code("pub fn (").is_none());
    assert!(transform_rust_source_code("struct").is_none());
}

#[test]
fn empty_text_has_no_items() {
    let (rewritten, _) = transform_rust_source_code("").unwrap();
    assert!(rewritten.items.is_empty());
    assert!(rewritten.warnings.is_empty());
}

#[test]
fn public_modules_in_source_are_flattened() {
    let source = "pub mod foo { pub mod bar { pub fn baz() {} } mod private { pub fn bazinga() {} } }";
    let (rewritten, arena) = transform_rust_source_code(source).unwrap();
    assert_eq!(2, rewritten.items.len());
    assert!(kept_text(&arena, &rewritten.items[0]).starts_with("mod private"));
    assert_eq!("pub fn baz () { }", kept_text(&arena, &rewritten.items[1]));
}

#[test]
fn other_items_are_kept_in_order() {
    let source = "struct A; fn f() {} const C: u8 = 1;";
    let (rewritten, arena) = transform_rust_source_code(source).unwrap();
    assert_eq!(3, rewritten.items.len());
    assert_eq!("struct A ;", kept_text(&arena, &rewritten.items[0]));
    assert_eq!("fn f () { }", kept_text(&arena, &rewritten.items[1]));
    assert_eq!("const C : u8 = 1 ;", kept_text(&arena, &rewritten.items[2]));
}

#[test]
fn tagged_union_is_split() {
    let source = "#[repr(C, i32)] pub enum Foo { Bar(i32), Baz { x: f64 }, Qux }";
    let (rewritten, arena) = transform_rust_source_code(source).unwrap();
    assert_eq!(
        vec![
            "struct Foo_Bar",
            "struct Foo_Baz",
            "struct Foo_Qux",
            "enum Foo_Tag",
            "union Foo_Data",
            "tagged Foo",
        ],
        names(&rewritten.items)
    );
    match &rewritten.items[0] {
        OutItem::Struct(_, _, SrcFields::Unnamed(f)) => {
            assert_eq!("i32", arena.fields[*f].to_token_stream().to_string())
        }
        other => panic!("unexpected {:?}", other),
    }
    match &rewritten.items[1] {
        OutItem::Struct(_, _, SrcFields::Named(f)) => {
            assert_eq!("x : f64", arena.fields[*f].to_token_stream().to_string())
        }
        other => panic!("unexpected {:?}", other),
    }
    assert!(matches!(rewritten.items[2], OutItem::Struct(_, _, SrcFields::Unit)));
    assert!(rewritten.warnings.is_empty());
}

#[test]
fn wrong_repr_is_kept_with_a_warning() {
    let source = "#[repr(i32)] pub enum E { A(i32), B }";
    let (rewritten, arena) = transform_rust_source_code(source).unwrap();
    assert_eq!(vec!["E".to_string()], rewritten.warnings);
    assert_eq!(1, rewritten.items.len());
    assert!(kept_text(&arena, &rewritten.items[0]).contains("pub enum E"));
}

#[test]
fn private_and_generic_enums_are_kept() {
    let source = "#[repr(C, u8)] enum P { A(i32) } #[repr(C, u8)] pub enum G<T> { A(T) }";
    let (rewritten, _) = transform_rust_source_code(source).unwrap();
    assert_eq!(vec!["keep", "keep"], names(&rewritten.items));
}

#[test]
fn extern_methods_are_lifted_from_source() {
    let source = "impl S { pub extern \"C\" fn f(&self) -> u8 { 0 } fn g(&self) {} }";
    let (rewritten, arena) = transform_rust_source_code(source).unwrap();
    assert_eq!(vec!["fn", "impl"], names(&rewritten.items));
    match &rewritten.items[1] {
        OutItem::Impl(node, kept) => {
            assert_eq!(1, kept.len());
            assert!(arena.items[*node].to_token_stream().to_string().starts_with("impl S"));
            assert_eq!("fn g (& self) { }", arena.impl_items[kept[0]].to_token_stream().to_string());
        }
        other => panic!("unexpected {:?}", other),
    }
}

#[test]
fn trait_impls_are_kept() {
    let source = "impl T for S { extern \"C\" fn f(&self) {} }";
    let (rewritten, _) = transform_rust_source_code(source).unwrap();
    assert_eq!(vec!["keep"], names(&rewritten.items));
}
