use collisions::bindings::{
    get_repr, has_generics, has_repr, is_abi_fn, is_public, is_tagged_union, transform_enum,
    transform_fn, transform_impl, transform_items, transform_self, SrcAttribute, SrcFields, SourceItems,
    SrcFnArg, Generics, SrcImplItem, ImplItemFn, SrcItem, SrcItemEnum, ItemFn, SrcItemImpl, SrcItemMod, Meta,
    OutItem, SrcPatType, SrcPath, PathSegment, Receiver, SrcReturnType, SelfType, TaggedUnionRepr,
    TokenTree, SrcType, Variant, SrcVisibility,
};

fn path(name: &str) -> SrcPath {
    SrcPath {
        leading_colon: false,
        segments: vec![PathSegment { ident: name.to_string(), has_arguments: false }],
    }
}

/// `#[name(a, b, ..)]`: identifiers separated by commas.
fn list_attr(name: &str, idents: &[&str]) -> SrcAttribute {
    let mut tokens = Vec::new();
    for (i, ident) in idents.iter().enumerate() {
        if i > 0 {
            tokens.push(TokenTree::Other);
        }
        tokens.push(TokenTree::Ident(ident.to_string()));
    }
    SrcAttribute { meta: Meta::List(path(name), tokens) }
}

fn no_generics() -> Generics {
    Generics { lt_token: false, gt_token: false }
}

fn variant(name: &str, fields: SrcFields) -> Variant {
    Variant { ident: name.to_string(), fields }
}

fn enum_item(node: usize, attrs: Vec<SrcAttribute>, name: &str, variants: Vec<Variant>) -> SrcItemEnum {
    SrcItemEnum {
        node,
        attrs,
        vis: SrcVisibility::Public,
        ident: name.to_string(),
        generics: no_generics(),
        variants,
    }
}

fn method(node: usize, vis: SrcVisibility, abi: bool, output: SrcReturnType, inputs: Vec<SrcFnArg>) -> ImplItemFn {
    ImplItemFn { node, vis, abi, output, inputs }
}

fn self_path(node: usize) -> SrcType {
    SrcType::Path(node, false, Some("Self".to_string()))
}

fn foo_type() -> SrcType {
    SrcType::Path(90, false, Some("Foo".to_string()))
}

fn by_ref() -> SrcFnArg {
    SrcFnArg::Receiver(Receiver { attrs: 7, reference: Some(None), mutability: false })
}

#[test]
fn test_is_public() {
    assert_eq!(true, is_public(&SrcVisibility::Public));
    assert_eq!(false, is_public(&SrcVisibility::Restricted));
    //  empty visibility is private
    assert_eq!(false, is_public(&SrcVisibility::Inherited));
}

#[test]
fn test_is_abi_fn() {
    let fun = method(1, SrcVisibility::Public, true, SrcReturnType::Default, vec![]);
    assert_eq!(true, is_abi_fn(&fun));

    let fun = method(2, SrcVisibility::Public, true, SrcReturnType::Default, vec![]);
    assert_eq!(true, is_abi_fn(&fun));

    let fun = method(3, SrcVisibility::Public, false, SrcReturnType::Default, vec![]);
    assert_eq!(false, is_abi_fn(&fun));
}

#[test]
fn test_has_generics() {
    assert_eq!(false, has_generics(&no_generics()));
    assert_eq!(true, has_generics(&Generics { lt_token: true, gt_token: true }));
}

fn bar_baz(attrs: Vec<SrcAttribute>) -> SrcItemEnum {
    enum_item(
        1,
        attrs,
        "Foo",
        vec![variant("Bar", SrcFields::Unnamed(10)), variant("Baz", SrcFields::Unnamed(11))],
    )
}

#[test]
fn test_has_repr() {
    assert_eq!(true, has_repr(&bar_baz(vec![list_attr("repr", &["C", "i32"])])));
    assert_eq!(true, has_repr(&bar_baz(vec![list_attr("repr", &["C"])])));
    assert_eq!(false, has_repr(&bar_baz(vec![list_attr("buh", &["C", "i32"])])));
    assert_eq!(false, has_repr(&bar_baz(vec![])));
}

#[test]
fn test_is_tagged_union() {
    let item = enum_item(
        1,
        vec![],
        "Foo",
        vec![variant("Bar", SrcFields::Unnamed(10)), variant("Baz", SrcFields::Unnamed(11))],
    );
    assert_eq!(true, is_tagged_union(&item));

    let item = enum_item(
        1,
        vec![],
        "Foo",
        vec![variant("Bar", SrcFields::Named(10)), variant("Baz", SrcFields::Named(11))],
    );
    assert_eq!(true, is_tagged_union(&item));

    let item = enum_item(
        1,
        vec![],
        "Foo",
        vec![
            variant("Bar", SrcFields::Named(10)),
            variant("Baz", SrcFields::Unnamed(11)),
            variant("Bum", SrcFields::Unit),
        ],
    );
    assert_eq!(true, is_tagged_union(&item));

    let item = enum_item(
        1,
        vec![],
        "Foo",
        vec![variant("Bar", SrcFields::Unit), variant("Baz", SrcFields::Unit)],
    );
    assert_eq!(false, is_tagged_union(&item));
}

#[test]
fn test_get_repr() {
    assert_eq!(None, get_repr(&list_attr("repr", &["C"])));

    let expected = Some(TaggedUnionRepr { data_repr: "C".to_string(), tag_repr: "i32".to_string() });
    assert_eq!(expected, get_repr(&list_attr("repr", &["C", "i32"])));

    assert_eq!(None, get_repr(&list_attr("repr", &["C", "i32", "u8"])));
    assert_eq!(None, get_repr(&list_attr("buh", &["C", "i32"])));
    assert_eq!(None, get_repr(&SrcAttribute { meta: Meta::Path(path("repr")) }));
}

#[test]
fn get_repr_skips_other_tokens() {
    let attr = SrcAttribute {
        meta: Meta::List(
            path("repr"),
            vec![
                TokenTree::Other,
                TokenTree::Ident("C".to_string()),
                TokenTree::Other,
                TokenTree::Ident("u8".to_string()),
                TokenTree::Other,
            ],
        ),
    };
    let expected = Some(TaggedUnionRepr { data_repr: "C".to_string(), tag_repr: "u8".to_string() });
    assert_eq!(expected, get_repr(&attr));
    let mut qualified = path("repr");
    qualified.leading_colon = true;
    let attr = SrcAttribute {
        meta: Meta::List(
            qualified,
            vec![TokenTree::Ident("C".to_string()), TokenTree::Ident("u8".to_string())],
        ),
    };
    assert_eq!(None, get_repr(&attr));
}

#[test]
fn repr_attributes() {
    let repr = TaggedUnionRepr { data_repr: "C".to_string(), tag_repr: "i32".to_string() };
    assert_eq!(list_attr("repr", &["C"]), repr.data_attr());
    assert_eq!(list_attr("repr", &["i32"]), repr.tag_attr());
}

#[test]
fn enum_becomes_tagged_union() {
    let item = enum_item(
        1,
        vec![list_attr("repr", &["C", "i32"])],
        "Foo",
        vec![variant("Bar", SrcFields::Unnamed(10)), variant("Baz", SrcFields::Named(11))],
    );
    let repr = TaggedUnionRepr { data_repr: "C".to_string(), tag_repr: "i32".to_string() };
    let data = list_attr("repr", &["C"]);
    let tag = list_attr("repr", &["i32"]);
    let expected = vec![
        OutItem::Struct(data.clone(), "Foo_Bar".to_string(), SrcFields::Unnamed(10)),
        OutItem::Struct(data.clone(), "Foo_Baz".to_string(), SrcFields::Named(11)),
        OutItem::TagEnum(tag, "Foo_Tag".to_string(), vec!["Bar".to_string(), "Baz".to_string()]),
        OutItem::DataUnion(
            data.clone(),
            "Foo_Data".to_string(),
            vec![
                ("Bar".to_string(), "Foo_Bar".to_string()),
                ("Baz".to_string(), "Foo_Baz".to_string()),
            ],
        ),
        OutItem::TaggedStruct(
            data,
            "Foo".to_string(),
            "Foo_Tag".to_string(),
            "Foo_Data".to_string(),
        ),
    ];
    assert_eq!(expected, transform_enum(item, repr));
}

#[test]
fn receiver_becomes_myself() {
    let shared = Receiver { attrs: 3, reference: Some(Some(4)), mutability: false };
    let arg = transform_self(&shared, foo_type());
    assert_eq!(
        SrcPatType {
            attrs: 3,
            mutability: false,
            ident: "myself".to_string(),
            ty: SelfType::Reference(Some(4), false, foo_type()),
        },
        arg
    );

    let exclusive = Receiver { attrs: 3, reference: Some(None), mutability: true };
    let arg = transform_self(&exclusive, foo_type());
    assert_eq!(SelfType::Reference(None, true, foo_type()), arg.ty);
    assert!(!arg.mutability);

    let owned_mut = Receiver { attrs: 3, reference: None, mutability: true };
    let arg = transform_self(&owned_mut, foo_type());
    assert_eq!(SelfType::Value(foo_type()), arg.ty);
    assert!(arg.mutability);
}

#[test]
fn method_becomes_free_function() {
    let fun = method(
        5,
        SrcVisibility::Public,
        true,
        SrcReturnType::Type(self_path(6)),
        vec![by_ref(), SrcFnArg::Typed(8)],
    );
    let lifted = transform_fn(fun, foo_type());
    assert_eq!(SrcReturnType::Type(foo_type()), lifted.output);
    assert_eq!(5, lifted.node);
    assert_eq!(
        Some(SrcPatType {
            attrs: 7,
            mutability: false,
            ident: "myself".to_string(),
            ty: SelfType::Reference(None, false, foo_type()),
        }),
        lifted.receiver
    );

    let qualified = SrcType::Path(6, true, Some("SrcItem".to_string()));
    let fun = method(5, SrcVisibility::Public, true, SrcReturnType::Type(qualified), vec![SrcFnArg::Typed(8)]);
    let lifted = transform_fn(fun, foo_type());
    assert_eq!(SrcReturnType::Type(foo_type()), lifted.output);
    assert_eq!(None, lifted.receiver);

    let other = SrcType::Path(6, false, Some("u32".to_string()));
    let fun = method(5, SrcVisibility::Public, true, SrcReturnType::Type(other.clone()), vec![]);
    assert_eq!(SrcReturnType::Type(other), transform_fn(fun, foo_type()).output);
}

#[test]
fn extern_methods_are_lifted() {
    let bar = method(2, SrcVisibility::Public, true, SrcReturnType::Default, vec![by_ref()]);
    let baz = method(3, SrcVisibility::Inherited, false, SrcReturnType::Type(self_path(4)), vec![by_ref()]);
    let qux = method(5, SrcVisibility::Public, false, SrcReturnType::Default, vec![]);
    let implementation = SrcItemImpl {
        node: 1,
        is_trait: false,
        self_ty: foo_type(),
        items: vec![SrcImplItem::Fn(bar), SrcImplItem::Fn(baz), SrcImplItem::Other(6), SrcImplItem::Fn(qux)],
    };
    let expected = vec![
        OutItem::Fn(ItemFn {
            node: 2,
            output: SrcReturnType::Default,
            receiver: Some(SrcPatType {
                attrs: 7,
                mutability: false,
                ident: "myself".to_string(),
                ty: SelfType::Reference(None, false, foo_type()),
            }),
        }),
        OutItem::Impl(1, vec![3, 6, 5]),
    ];
    assert_eq!(expected, transform_impl(implementation));
}

#[test]
fn trait_impl_is_kept() {
    let bar = method(2, SrcVisibility::Public, true, SrcReturnType::Default, vec![by_ref()]);
    let implementation =
        SrcItemImpl { node: 1, is_trait: true, self_ty: foo_type(), items: vec![SrcImplItem::Fn(bar)] };
    assert_eq!(vec![OutItem::Keep(1)], transform_impl(implementation));
}

#[test]
fn public_modules_are_flattened() {
    // pub mod foo { pub mod bar { pub fn baz() {} } mod private { pub fn bazinga() {} } }
    let bar = SrcItem::Mod(SrcItemMod {
        node: 2,
        vis: SrcVisibility::Public,
        content: Some(vec![SrcItem::Other(3)]),
    });
    let private = SrcItem::Mod(SrcItemMod {
        node: 4,
        vis: SrcVisibility::Inherited,
        content: Some(vec![SrcItem::Other(5)]),
    });
    let foo = SrcItem::Mod(SrcItemMod { node: 1, vis: SrcVisibility::Public, content: Some(vec![bar, private]) });
    let outline = SrcItem::Mod(SrcItemMod { node: 6, vis: SrcVisibility::Public, content: None });
    let res = transform_items(SourceItems { items: vec![foo, SrcItem::Other(7), outline] });
    assert_eq!(vec![OutItem::Keep(7), OutItem::Keep(4), OutItem::Keep(3)], res.items);
    assert!(res.warnings.is_empty());
}

#[test]
fn enums_in_file() {
    let tagged = enum_item(
        1,
        vec![list_attr("derive", &["Debug"]), list_attr("repr", &["C", "u8"])],
        "Shape",
        vec![variant("Dot", SrcFields::Unit), variant("Circle", SrcFields::Unnamed(10))],
    );
    let wrong_repr = enum_item(
        2,
        vec![list_attr("repr", &["C"])],
        "Wrong",
        vec![variant("A", SrcFields::Unnamed(11))],
    );
    let mut generic = enum_item(3, vec![list_attr("repr", &["C", "u8"])], "Gen", vec![]);
    generic.generics = Generics { lt_token: true, gt_token: true };
    let mut private = enum_item(4, vec![list_attr("repr", &["C", "u8"])], "Hidden", vec![]);
    private.vis = SrcVisibility::Restricted;
    let plain = enum_item(5, vec![list_attr("repr", &["C"])], "Plain", vec![variant("X", SrcFields::Unit)]);
    let res = transform_items(SourceItems {
        items: vec![
            SrcItem::Enum(tagged),
            SrcItem::Enum(wrong_repr),
            SrcItem::Enum(generic),
            SrcItem::Enum(private),
            SrcItem::Enum(plain),
        ],
    });
    assert_eq!(9, res.items.len());
    assert_eq!(
        OutItem::Struct(list_attr("repr", &["C"]), "Shape_Dot".to_string(), SrcFields::Unit),
        res.items[0]
    );
    assert_eq!(
        OutItem::TaggedStruct(
            list_attr("repr", &["C"]),
            "Shape".to_string(),
            "Shape_Tag".to_string(),
            "Shape_Data".to_string(),
        ),
        res.items[4]
    );
    assert_eq!(
        vec![OutItem::Keep(2), OutItem::Keep(3), OutItem::Keep(4), OutItem::Keep(5)],
        res.items[5..].to_vec()
    );
    assert_eq!(vec!["Wrong".to_string()], res.warnings);
}
