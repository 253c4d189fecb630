//! Reading Rust source text with `syn` and rewriting its items for the C# binding
//! generator.
//!
//! The text is parsed by `syn::parse_file`; what the rewriting reads of each item is
//! described with the types of [`crate::bindings`], and every syntax node that the
//! rewriting carries over unread is kept in a [`SyntaxArena`], where the description
//! refers to it by its index.
use crate::bindings::{
    transform_items, flattened, out_view, rewritten_all, warnings_all, Generics, ImplItemFn,
    Meta, PathSegment, Receiver, Rewritten, SourceItems, SrcAttribute, SrcFields, SrcFnArg,
    SrcImplItem, SrcItem, SrcItemEnum, SrcItemImpl, SrcItemMod, SrcPath, SrcReturnType,
    SrcType, SrcVisibility, TokenTree, Variant,
};
use vstd::prelude::*;

verus! {

#[verifier::external_type_specification]
#[verifier::external_body]
pub struct ExSynFile(syn::File);

#[verifier::external_type_specification]
#[verifier::external_body]
pub struct ExSynItem(syn::Item);

#[verifier::external_type_specification]
#[verifier::external_body]
pub struct ExSynItemMod(syn::ItemMod);

#[verifier::external_type_specification]
#[verifier::external_body]
pub struct ExSynItemEnum(syn::ItemEnum);

#[verifier::external_type_specification]
#[verifier::external_body]
pub struct ExSynItemImpl(syn::ItemImpl);

#[verifier::external_type_specification]
#[verifier::external_body]
pub struct ExSynImplItem(syn::ImplItem);

#[verifier::external_type_specification]
#[verifier::external_body]
pub struct ExSynType(syn::Type);

#[verifier::external_type_specification]
#[verifier::external_body]
pub struct ExSynReturnType(syn::ReturnType);

#[verifier::external_type_specification]
#[verifier::external_body]
pub struct ExSynFnArg(syn::FnArg);

#[verifier::external_type_specification]
#[verifier::external_body]
pub struct ExSynFields(syn::Fields);

#[verifier::external_type_specification]
#[verifier::external_body]
pub struct ExSynField(syn::Field);

#[verifier::external_type_specification]
#[verifier::external_body]
pub struct ExSynComma(syn::token::Comma);

#[verifier::external_type_specification]
#[verifier::external_body]
#[verifier::reject_recursive_types(T)]
#[verifier::reject_recursive_types(P)]
pub struct ExSynPunctuated<T, P>(syn::punctuated::Punctuated<T, P>);

#[verifier::external_type_specification]
#[verifier::external_body]
pub struct ExSynAttribute(syn::Attribute);

#[verifier::external_type_specification]
#[verifier::external_body]
pub struct ExSynPath(syn::Path);

#[verifier::external_type_specification]
#[verifier::external_body]
pub struct ExSynVisibility(syn::Visibility);

#[verifier::external_type_specification]
#[verifier::external_body]
pub struct ExSynLifetime(syn::Lifetime);

#[verifier::external_type_specification]
#[verifier::external_body]
pub struct ExSynPatType(syn::PatType);

/// The syntax nodes that the description of a file's items refers to by index, and the
/// file itself with its items taken out.
pub struct SyntaxArena {
    pub file: syn::File,
    pub items: Vec<syn::Item>,
    pub impl_items: Vec<syn::ImplItem>,
    pub types: Vec<syn::Type>,
    pub fields: Vec<syn::punctuated::Punctuated<syn::Field, syn::token::Comma>>,
    pub attrs: Vec<Vec<syn::Attribute>>,
    pub lifetimes: Vec<syn::Lifetime>,
    pub args: Vec<syn::PatType>,
}

/// Whether `syn::parse_file` reads the text as a Rust source file.
pub uninterp spec fn parses(source: Seq<char>) -> bool;

/// The items of the file that `syn::parse_file` reads from the text, as the rewriting
/// reads them, with the handles numbered in the order in which the nodes are met.
pub uninterp spec fn items_of(source: Seq<char>) -> Seq<SrcItem>;

/// Calls `syn::parse_file` on the text and describes the items of the file it reads.
/// Claimed: `None` exactly when the parse fails, and otherwise a description that depends
/// on the text alone; what that description is, is not stated.
#[verifier::external_body]
fn parse_items(source: &str) -> (res: Option<(Vec<SrcItem>, SyntaxArena)>)
    ensures
        res is Some <==> parses(source@),
        res matches Some(p) ==> p.0@ == items_of(source@),
{
    match syn::parse_file(source) {
        Ok(mut file) => {
            let items = std::mem::take(&mut file.items);
            let mut arena = SyntaxArena {
                file, items: vec![], impl_items: vec![], types: vec![], fields: vec![],
                attrs: vec![], lifetimes: vec![], args: vec![],
            };
            let mut described = Vec::new();
            for item in items {
                described.push(describe_item(item, &mut arena));
            }
            Some((described, arena))
        },
        Err(_) => None,
    }
}

/// Part of what [`parse_items`] gives back: the tokens of a `syn` visibility, classified by
/// [`visibility_of_tokens`].
/// Nothing is proved of it; it only moves and converts the node's parts.
#[verifier::external_body]
fn describe_visibility(vis: &syn::Visibility) -> SrcVisibility {
    let mut tokens = Vec::new();
    for t in quote::ToTokens::to_token_stream(vis) {
        tokens.push(match t {
            proc_macro2::TokenTree::Ident(ident) => TokenTree::Ident(ident.to_string()),
            _ => TokenTree::Other,
        });
    }
    visibility_of_tokens(&tokens)
}

/// The visibility that the tokens `tokens` write: no tokens is no visibility keyword;
/// `pub` alone is public; `pub` followed by a restriction, as in `pub(crate)`,
/// `pub(super)` or `pub(in path)`, is restricted, and so never public.
pub fn visibility_of_tokens(tokens: &Vec<TokenTree>) -> (res: SrcVisibility)
    ensures
        tokens@.len() == 0 <==> res == SrcVisibility::Inherited,
        res == SrcVisibility::Public <==> (tokens@.len() == 1 && tokens@[0]@ == Some("pub"@)),
        tokens@.len() > 1 ==> res == SrcVisibility::Restricted,
{
    if tokens.len() == 0 {
        SrcVisibility::Inherited
    } else if tokens.len() == 1 {
        let keyword = String::from_str("pub");
        proof {
            reveal_strlit("pub");
        }
        match &tokens[0] {
            TokenTree::Ident(word) => if *word == keyword {
                SrcVisibility::Public
            } else {
                SrcVisibility::Restricted
            },
            TokenTree::Other => SrcVisibility::Restricted,
        }
    } else {
        SrcVisibility::Restricted
    }
}

/// Part of what [`parse_items`] gives back: a `syn` path as the rewriting reads it.
/// Nothing is proved of it; it only moves and converts the node's parts.
#[verifier::external_body]
fn describe_path(path: &syn::Path) -> SrcPath {
    let mut segments = Vec::new();
    for s in path.segments.iter() {
        segments.push(
            PathSegment { ident: s.ident.to_string(), has_arguments: !s.arguments.is_none() },
        );
    }
    SrcPath { leading_colon: path.leading_colon.is_some(), segments }
}

/// Part of what [`parse_items`] gives back: a `syn` attribute as the rewriting reads it.
/// Nothing is proved of it; it only moves and converts the node's parts.
#[verifier::external_body]
fn describe_attribute(attr: &syn::Attribute) -> SrcAttribute {
    let meta = match &attr.meta {
        syn::Meta::Path(path) => Meta::Path(describe_path(path)),
        syn::Meta::List(list) => {
            let mut tokens = Vec::new();
            for t in list.tokens.clone() {
                tokens.push(match t {
                    proc_macro2::TokenTree::Ident(ident) => TokenTree::Ident(ident.to_string()),
                    _ => TokenTree::Other,
                });
            }
            Meta::List(describe_path(&list.path), tokens)
        },
        syn::Meta::NameValue(nv) => Meta::NameValue(describe_path(&nv.path)),
    };
    SrcAttribute { meta }
}

/// Part of what [`parse_items`] gives back: a `syn` type, kept in the arena.
/// Nothing is proved of it; it only moves and converts the node's parts.
#[verifier::external_body]
fn describe_type(ty: &syn::Type, arena: &mut SyntaxArena) -> SrcType {
    arena.types.push(ty.clone());
    let node = arena.types.len() - 1;
    match ty {
        syn::Type::Path(path) => SrcType::Path(
            node,
            path.qself.is_some(),
            path.path.segments.first().map(|s| s.ident.to_string()),
        ),
        _ => SrcType::Other(node),
    }
}

/// Part of what [`parse_items`] gives back: a `syn` return type.
/// Nothing is proved of it; it only moves and converts the node's parts.
#[verifier::external_body]
fn describe_return(output: &syn::ReturnType, arena: &mut SyntaxArena) -> SrcReturnType {
    match output {
        syn::ReturnType::Default => SrcReturnType::Default,
        syn::ReturnType::Type(_, ty) => SrcReturnType::Type(describe_type(ty, arena)),
    }
}

/// Part of what [`parse_items`] gives back: a `syn` argument, its nodes kept in the arena.
/// Nothing is proved of it; it only moves and converts the node's parts.
#[verifier::external_body]
fn describe_fn_arg(arg: &syn::FnArg, arena: &mut SyntaxArena) -> SrcFnArg {
    match arg {
        syn::FnArg::Receiver(rec) => {
            arena.attrs.push(rec.attrs.clone());
            let attrs = arena.attrs.len() - 1;
            let reference = rec.reference.as_ref().map(|(_, lifetime)| lifetime.as_ref().map(|l| {
                arena.lifetimes.push(l.clone());
                arena.lifetimes.len() - 1
            }));
            SrcFnArg::Receiver(Receiver { attrs, reference, mutability: rec.mutability.is_some() })
        },
        syn::FnArg::Typed(typed) => {
            arena.args.push(typed.clone());
            SrcFnArg::Typed(arena.args.len() - 1)
        },
    }
}

/// Part of what [`parse_items`] gives back: the `syn` arguments of a function, in order.
/// Nothing is proved of it; it only moves and converts the node's parts.
#[verifier::external_body]
fn describe_inputs(
    inputs: &syn::punctuated::Punctuated<syn::FnArg, syn::token::Comma>,
    arena: &mut SyntaxArena,
) -> Vec<SrcFnArg> {
    let mut described = Vec::new();
    for arg in inputs.iter() {
        described.push(describe_fn_arg(arg, arena));
    }
    described
}

/// Part of what [`parse_items`] gives back: a `syn` item of an `impl` block, kept in the arena.
/// Nothing is proved of it; it only moves and converts the node's parts.
#[verifier::external_body]
fn describe_impl_item(item: syn::ImplItem, arena: &mut SyntaxArena) -> SrcImplItem {
    match item {
        syn::ImplItem::Fn(fun) => {
            let vis = describe_visibility(&fun.vis);
            let output = describe_return(&fun.sig.output, arena);
            let inputs = describe_inputs(&fun.sig.inputs, arena);
            let abi = fun.sig.abi.is_some();
            arena.impl_items.push(syn::ImplItem::Fn(fun));
            let node = arena.impl_items.len() - 1;
            SrcImplItem::Fn(ImplItemFn { node, vis, abi, output, inputs })
        },
        other => {
            arena.impl_items.push(other);
            SrcImplItem::Other(arena.impl_items.len() - 1)
        },
    }
}

/// Part of what [`parse_items`] gives back: `syn` fields, kept in the arena.
/// Nothing is proved of it; it only moves and converts the node's parts.
#[verifier::external_body]
fn describe_fields(fields: &syn::Fields, arena: &mut SyntaxArena) -> SrcFields {
    match fields {
        syn::Fields::Named(named) => {
            arena.fields.push(named.named.clone());
            SrcFields::Named(arena.fields.len() - 1)
        },
        syn::Fields::Unnamed(unnamed) => {
            arena.fields.push(unnamed.unnamed.clone());
            SrcFields::Unnamed(arena.fields.len() - 1)
        },
        syn::Fields::Unit => SrcFields::Unit,
    }
}

/// Part of what [`parse_items`] gives back: a `syn` module and its items, kept in the arena.
/// Nothing is proved of it; it only moves and converts the node's parts.
#[verifier::external_body]
fn describe_mod(module: syn::ItemMod, arena: &mut SyntaxArena) -> SrcItem {
    let vis = describe_visibility(&module.vis);
    let content = match module.content.clone() {
        Some((_, items)) => {
            let mut described = Vec::new();
            for item in items {
                described.push(describe_item(item, arena));
            }
            Some(described)
        },
        None => None,
    };
    arena.items.push(syn::Item::Mod(module));
    SrcItem::Mod(SrcItemMod { node: arena.items.len() - 1, vis, content })
}

/// Part of what [`parse_items`] gives back: a `syn` enum, kept in the arena.
/// Nothing is proved of it; it only moves and converts the node's parts.
#[verifier::external_body]
fn describe_enum(item_enum: syn::ItemEnum, arena: &mut SyntaxArena) -> SrcItem {
    let attrs = item_enum.attrs.iter().map(describe_attribute).collect();
    let mut variants = Vec::new();
    for v in item_enum.variants.iter() {
        variants.push(Variant { ident: v.ident.to_string(), fields: describe_fields(&v.fields, arena) });
    }
    let generics = Generics {
        lt_token: item_enum.generics.lt_token.is_some(),
        gt_token: item_enum.generics.gt_token.is_some(),
    };
    let (vis, ident) = (describe_visibility(&item_enum.vis), item_enum.ident.to_string());
    arena.items.push(syn::Item::Enum(item_enum));
    let node = arena.items.len() - 1;
    SrcItem::Enum(SrcItemEnum { node, attrs, vis, ident, generics, variants })
}

/// Part of what [`parse_items`] gives back: a `syn` `impl` block and its items, kept in the arena.
/// Nothing is proved of it; it only moves and converts the node's parts.
#[verifier::external_body]
fn describe_impl(implementation: syn::ItemImpl, arena: &mut SyntaxArena) -> SrcItem {
    let self_ty = describe_type(&implementation.self_ty, arena);
    let mut items = Vec::new();
    for item in implementation.items.iter().cloned() {
        items.push(describe_impl_item(item, arena));
    }
    let is_trait = implementation.trait_.is_some();
    arena.items.push(syn::Item::Impl(implementation));
    let node = arena.items.len() - 1;
    SrcItem::Impl(SrcItemImpl { node, is_trait, self_ty, items })
}

/// Part of what [`parse_items`] gives back: a `syn` item, kept in the arena.
/// Nothing is proved of it; it only moves and converts the node's parts.
#[verifier::external_body]
fn describe_item(item: syn::Item, arena: &mut SyntaxArena) -> SrcItem {
    match item {
        syn::Item::Mod(module) => describe_mod(module, arena),
        syn::Item::Enum(item_enum) => describe_enum(item_enum, arena),
        syn::Item::Impl(implementation) => describe_impl(implementation, arena),
        other => {
            arena.items.push(other);
            SrcItem::Other(arena.items.len() - 1)
        },
    }
}

/// Transforms Rust source code into a form suitable for C# bindings generation: the text
/// is parsed, and its items are rewritten by [`transform_items`]. `None` exactly when the
/// text does not parse. The rewritten items refer to the nodes of the returned arena,
/// which also holds the file they belong in.
pub fn transform_rust_source_code(source: &str) -> (res: Option<(Rewritten, SyntaxArena)>)
    ensures
        res is Some <==> parses(source@),
        res matches Some(r) ==> out_view(r.0.items@) == rewritten_all(
            flattened(items_of(source@)),
        ),
        res matches Some(r) ==> r.0.warnings@.map_values(|s: String| s@) == warnings_all(
            flattened(items_of(source@)),
        ),
{
    match parse_items(source) {
        Some((items, arena)) => Some((transform_items(SourceItems { items }), arena)),
        None => None,
    }
}

} // verus!
