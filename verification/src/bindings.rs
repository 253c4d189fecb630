//! Rewriting of a crate's items into the shape that the C# binding generator reads.
//!
//! Public modules are flattened, public tagged-union enums marked `#[repr(C, Int)]` are
//! split into explicit data structs, a tag enum, a data union and a struct holding both,
//! and public `extern` methods are lifted out of their inherent `impl` blocks into free
//! functions that take the receiver as an argument named `myself`.
//!
//! The items are described by what the rewriting reads of them; whatever it carries over
//! unread (bodies, field lists, types, attributes) is referred to by a handle, an index
//! that the caller chose for that syntax node.
use vstd::prelude::*;

verus! {

/// The visibility of an item.
#[derive(Clone, Copy, Debug, PartialEq, Eq, Structural)]
pub enum SrcVisibility {
    /// `pub`
    Public,
    /// `pub(crate)`, `pub(super)`, `pub(in path)`
    Restricted,
    /// No visibility keyword.
    Inherited,
}

/// One segment of a path: its identifier, and whether it carries generic arguments.
#[derive(Clone, Debug, PartialEq)]
pub struct PathSegment {
    pub ident: String,
    pub has_arguments: bool,
}

/// A path such as `repr` or `::core::mem`.
#[derive(Clone, Debug, PartialEq)]
pub struct SrcPath {
    pub leading_colon: bool,
    pub segments: Vec<PathSegment>,
}

/// A path as values: the leading `::`, and each segment's identifier and arguments flag.
pub struct PathView {
    pub leading_colon: bool,
    pub segments: Seq<(Seq<char>, bool)>,
}

impl View for SrcPath {
    type V = PathView;

    open spec fn view(&self) -> PathView {
        PathView {
            leading_colon: self.leading_colon,
            segments: self.segments@.map_values(|s: PathSegment| (s.ident@, s.has_arguments)),
        }
    }
}

/// The path is the single identifier `name`.
pub open spec fn path_is(p: PathView, name: Seq<char>) -> bool {
    &&& !p.leading_colon
    &&& p.segments.len() == 1
    &&& !p.segments[0].1
    &&& p.segments[0].0 == name
}

impl SrcPath {
    /// Whether the path is the single identifier `name`, with no leading `::` and no
    /// generic arguments.
    pub fn is_ident(&self, name: &str) -> (res: bool)
        ensures
            res == path_is(self@, name@),
    {
        if self.leading_colon || self.segments.len() != 1 || self.segments[0].has_arguments {
            return false;
        }
        let name = String::from_str(name);
        self.segments[0].ident == name
    }
}

impl SrcPath {
    /// A copy of the path.
    pub fn clone_path(&self) -> (res: SrcPath)
        ensures
            res@ == self@,
    {
        let mut segments: Vec<PathSegment> = Vec::new();
        let n = self.segments.len();
        let mut i: usize = 0;
        while i < n
            invariant
                n == self.segments@.len(),
                i <= n,
                segments@.len() == i,
                forall|j: int|
                    0 <= j < i ==> #[trigger] segments@[j].ident@ == self.segments@[j].ident@
                        && segments@[j].has_arguments == self.segments@[j].has_arguments,
            decreases n - i,
        {
            let s = &self.segments[i];
            let segment = PathSegment { ident: s.ident.clone(), has_arguments: s.has_arguments };
            let ghost before = segments@;
            segments.push(segment);
            assert(segments@[i as int].ident@ == self.segments@[i as int].ident@);
            assert(forall|j: int| 0 <= j < i ==> segments@[j] == before[j]);
            i = i + 1;
        }
        let res = SrcPath { leading_colon: self.leading_colon, segments };
        assert(res@.segments =~= self@.segments);
        res
    }
}

/// A token at the top level of an attribute's arguments.
#[derive(Clone, Debug, PartialEq)]
pub enum TokenTree {
    /// An identifier.
    Ident(String),
    /// A literal, a punctuation mark or a delimited group.
    Other,
}

impl View for TokenTree {
    type V = Option<Seq<char>>;

    open spec fn view(&self) -> Option<Seq<char>> {
        match self {
            TokenTree::Ident(s) => Some(s@),
            TokenTree::Other => None,
        }
    }
}

/// The content of an attribute.
#[derive(Clone, Debug, PartialEq)]
pub enum Meta {
    /// `#[path]`
    Path(SrcPath),
    /// `#[path(tokens)]`
    List(SrcPath, Vec<TokenTree>),
    /// `#[path = value]`
    NameValue(SrcPath),
}

impl Meta {
    /// A copy of the attribute content.
    pub fn clone_meta(&self) -> (res: Meta)
        ensures
            res@ == self@,
    {
        match self {
            Meta::Path(p) => Meta::Path(p.clone_path()),
            Meta::List(p, t) => {
                let mut tokens: Vec<TokenTree> = Vec::new();
                let n = t.len();
                let mut i: usize = 0;
                while i < n
                    invariant
                        n == t@.len(),
                        i <= n,
                        tokens@.len() == i,
                        forall|j: int| 0 <= j < i ==> #[trigger] tokens@[j]@ == t@[j]@,
                    decreases n - i,
                {
                    let tok = match &t[i] {
                        TokenTree::Ident(s) => TokenTree::Ident(s.clone()),
                        TokenTree::Other => TokenTree::Other,
                    };
                    tokens.push(tok);
                    i = i + 1;
                }
                let res = Meta::List(p.clone_path(), tokens);
                assert(tokens@.map_values(|x: TokenTree| x@) =~= t@.map_values(|x: TokenTree| x@));
                res
            },
            Meta::NameValue(p) => Meta::NameValue(p.clone_path()),
        }
    }
}

/// An attribute's content as values.
pub enum MetaView {
    Path(PathView),
    List(PathView, Seq<Option<Seq<char>>>),
    NameValue(PathView),
}

impl View for Meta {
    type V = MetaView;

    open spec fn view(&self) -> MetaView {
        match self {
            Meta::Path(p) => MetaView::Path(p@),
            Meta::List(p, t) => MetaView::List(p@, t@.map_values(|x: TokenTree| x@)),
            Meta::NameValue(p) => MetaView::NameValue(p@),
        }
    }
}

/// An outer attribute `#[..]`.
#[derive(Clone, Debug, PartialEq)]
pub struct SrcAttribute {
    pub meta: Meta,
}

impl SrcAttribute {
    /// A copy of the attribute.
    pub fn clone_attr(&self) -> (res: SrcAttribute)
        ensures
            res@ == self@,
    {
        SrcAttribute { meta: self.meta.clone_meta() }
    }
}

impl View for SrcAttribute {
    type V = MetaView;

    open spec fn view(&self) -> MetaView {
        self.meta@
    }
}

/// The data and tag representations of a tagged union, as in `#[repr(C, i32)]`.
#[derive(Clone, Debug, PartialEq)]
pub struct TaggedUnionRepr {
    pub data_repr: String,
    pub tag_repr: String,
}

impl View for TaggedUnionRepr {
    type V = (Seq<char>, Seq<char>);

    open spec fn view(&self) -> (Seq<char>, Seq<char>) {
        (self.data_repr@, self.tag_repr@)
    }
}

/// The attribute `#[repr(t)]`.
pub open spec fn repr_meta(t: Seq<char>) -> MetaView {
    MetaView::List(
        PathView { leading_colon: false, segments: seq![("repr"@, false)] },
        seq![Some(t)],
    )
}

/// The attribute `#[repr(t)]`.
fn repr_attr(t: &String) -> (res: SrcAttribute)
    ensures
        res@ == repr_meta(t@),
{
    let segment = PathSegment { ident: String::from_str("repr"), has_arguments: false };
    let path = SrcPath { leading_colon: false, segments: vec![segment] };
    let res = SrcAttribute { meta: Meta::List(path, vec![TokenTree::Ident(t.clone())]) };
    assert(res@ == repr_meta(t@)) by {
        assert(res.meta->List_0@.segments =~= seq![("repr"@, false)]);
        assert(res.meta->List_1@.map_values(|x: TokenTree| x@) =~= seq![Some(t@)]);
    }
    res
}

impl TaggedUnionRepr {
    /// The attribute `#[repr(data)]` of the data items.
    pub fn data_attr(&self) -> (res: SrcAttribute)
        ensures
            res@ == repr_meta(self.data_repr@),
    {
        repr_attr(&self.data_repr)
    }

    /// The attribute `#[repr(tag)]` of the tag enum.
    pub fn tag_attr(&self) -> (res: SrcAttribute)
        ensures
            res@ == repr_meta(self.tag_repr@),
    {
        repr_attr(&self.tag_repr)
    }
}

/// The identifiers among `tokens`, in order.
pub open spec fn ident_tokens(tokens: Seq<Option<Seq<char>>>) -> Seq<Seq<char>>
    decreases tokens.len(),
{
    if tokens.len() == 0 {
        seq![]
    } else {
        let rest = ident_tokens(tokens.drop_last());
        match tokens.last() {
            Some(s) => rest.push(s),
            None => rest,
        }
    }
}

/// The representation that an attribute declares: `#[repr(A, B)]` with exactly two
/// identifiers among its arguments.
pub open spec fn repr_of(meta: MetaView) -> Option<(Seq<char>, Seq<char>)> {
    match meta {
        MetaView::List(p, t) => {
            let idents = ident_tokens(t);
            if path_is(p, "repr"@) && idents.len() == 2 {
                Some((idents[0], idents[1]))
            } else {
                None
            }
        },
        _ => None,
    }
}

/// The view of an optional representation.
pub open spec fn repr_view(r: Option<TaggedUnionRepr>) -> Option<(Seq<char>, Seq<char>)> {
    match r {
        Some(x) => Some(x@),
        None => None,
    }
}

/// Reads the attribute `#[repr(A, B)]` as a tagged-union representation; any other
/// attribute gives `None`.
pub fn get_repr(attr: &SrcAttribute) -> (res: Option<TaggedUnionRepr>)
    ensures
        repr_view(res) == repr_of(attr@),
{
    match &attr.meta {
        Meta::List(path, tokens) => {
            if !path.is_ident("repr") {
                return None;
            }
            let ghost tv = tokens@.map_values(|x: TokenTree| x@);
            let mut types: Vec<String> = Vec::new();
            let n = tokens.len();
            let mut i: usize = 0;
            while i < n
                invariant
                    n == tokens@.len(),
                    tv == tokens@.map_values(|x: TokenTree| x@),
                    i <= n,
                    types@.map_values(|s: String| s@) == ident_tokens(tv.subrange(0, i as int)),
                decreases n - i,
            {
                proof {
                    assert(tv.subrange(0, i + 1).drop_last() =~= tv.subrange(0, i as int));
                }
                match &tokens[i] {
                    TokenTree::Ident(ident) => {
                        types.push(ident.clone());
                        proof {
                            let prev = types@.drop_last();
                            assert(types@.map_values(|s: String| s@) =~= prev.map_values(
                                |s: String| s@,
                            ).push(ident@));
                        }
                    },
                    TokenTree::Other => {},
                }
                i = i + 1;
            }
            proof {
                assert(tv.subrange(0, n as int) =~= tv);
            }
            if types.len() == 2 {
                let data_repr = types[0].clone();
                let tag_repr = types[1].clone();
                proof {
                    assert(types@.map_values(|s: String| s@)[0] == types@[0]@);
                    assert(types@.map_values(|s: String| s@)[1] == types@[1]@);
                }
                Some(TaggedUnionRepr { data_repr, tag_repr })
            } else {
                None
            }
        },
        _ => None,
    }
}

/// Whether the visibility is `pub`.
pub fn is_public(vis: &SrcVisibility) -> (res: bool)
    ensures
        res == (*vis == SrcVisibility::Public),
{
    match vis {
        SrcVisibility::Public => true,
        _ => false,
    }
}

/// The generic parameters of an item: whether `<` and `>` are present.
#[derive(Clone, Copy, Debug, PartialEq, Eq, Structural)]
pub struct Generics {
    pub lt_token: bool,
    pub gt_token: bool,
}

/// Whether the item has generic parameters.
pub fn has_generics(generics: &Generics) -> (res: bool)
    ensures
        res == (generics.gt_token && generics.lt_token),
{
    generics.gt_token && generics.lt_token
}

/// The fields of an enum variant; a field list is referred to by its handle.
#[derive(Clone, Copy, Debug, PartialEq, Eq, Structural)]
pub enum SrcFields {
    /// `{ a: A, b: B }`
    Named(usize),
    /// `(A, B)`
    Unnamed(usize),
    /// No fields.
    Unit,
}

/// A variant of an enum.
#[derive(Clone, Debug, PartialEq)]
pub struct Variant {
    pub ident: String,
    pub fields: SrcFields,
}

/// An enum item; `node` is the handle of the whole item.
#[derive(Clone, Debug, PartialEq)]
pub struct SrcItemEnum {
    pub node: usize,
    pub attrs: Vec<SrcAttribute>,
    pub vis: SrcVisibility,
    pub ident: String,
    pub generics: Generics,
    pub variants: Vec<Variant>,
}

/// Some attribute of the enum is a list attribute whose path is `repr`.
pub open spec fn spec_has_repr(item: SrcItemEnum) -> bool {
    exists|i: int|
        #![trigger item.attrs@[i]]
        0 <= i < item.attrs@.len() && (item.attrs@[i]@ matches MetaView::List(p, _) && path_is(
            p,
            "repr"@,
        ))
}

/// Whether the enum has a `#[repr(..)]` attribute.
pub fn has_repr(item: &SrcItemEnum) -> (res: bool)
    ensures
        res == spec_has_repr(*item),
{
    let n = item.attrs.len();
    let mut i: usize = 0;
    while i < n
        invariant
            n == item.attrs@.len(),
            i <= n,
            forall|j: int|
                #![trigger item.attrs@[j]]
                0 <= j < i ==> !(item.attrs@[j]@ matches MetaView::List(p, _) && path_is(
                    p,
                    "repr"@,
                )),
        decreases n - i,
    {
        if let Meta::List(path, _) = &item.attrs[i].meta {
            if path.is_ident("repr") {
                return true;
            }
        }
        i = i + 1;
    }
    false
}

/// Some variant of the enum has fields.
pub open spec fn spec_is_tagged_union(item: SrcItemEnum) -> bool {
    exists|i: int|
        0 <= i < item.variants@.len() && !(#[trigger] item.variants@[i].fields is Unit)
}

/// Whether some variant of the enum has fields.
pub fn is_tagged_union(item: &SrcItemEnum) -> (res: bool)
    ensures
        res == spec_is_tagged_union(*item),
{
    let n = item.variants.len();
    let mut i: usize = 0;
    while i < n
        invariant
            n == item.variants@.len(),
            i <= n,
            forall|j: int| 0 <= j < i ==> #[trigger] item.variants@[j].fields is Unit,
        decreases n - i,
    {
        match &item.variants[i].fields {
            SrcFields::Named(_) | SrcFields::Unnamed(_) => return true,
            SrcFields::Unit => {},
        }
        i = i + 1;
    }
    false
}

/// The first representation that the attributes declare.
pub open spec fn first_repr(attrs: Seq<MetaView>) -> Option<(Seq<char>, Seq<char>)>
    decreases attrs.len(),
{
    if attrs.len() == 0 {
        None
    } else {
        match repr_of(attrs[0]) {
            Some(r) => Some(r),
            None => first_repr(attrs.drop_first()),
        }
    }
}

/// The views of the attributes.
pub open spec fn attrs_view(attrs: Seq<SrcAttribute>) -> Seq<MetaView> {
    attrs.map_values(|a: SrcAttribute| a@)
}

/// The first attribute of the list that reads as a tagged-union representation.
fn first_attr_repr(attrs: &Vec<SrcAttribute>) -> (res: Option<TaggedUnionRepr>)
    ensures
        repr_view(res) == first_repr(attrs_view(attrs@)),
{
    let ghost all = attrs_view(attrs@);
    let n = attrs.len();
    let mut i: usize = 0;
    assert(all.subrange(0, n as int) =~= all);
    while i < n
        invariant
            n == attrs@.len(),
            all == attrs_view(attrs@),
            i <= n,
            first_repr(all) == first_repr(all.subrange(i as int, n as int)),
        decreases n - i,
    {
        let r = get_repr(&attrs[i]);
        proof {
            let rest = all.subrange(i as int, n as int);
            assert(rest[0] == attrs@[i as int]@);
            assert(rest.drop_first() =~= all.subrange(i + 1, n as int));
        }
        if r.is_some() {
            return r;
        }
        i = i + 1;
    }
    proof {
        assert(all.subrange(n as int, n as int) =~= Seq::<MetaView>::empty());
    }
    None
}

/// A type: a path type, with whether it has a qualified self (`<T as Trait>::X`) and the
/// identifier of its first segment, or any other type; `node` is the type's handle.
#[derive(Debug, PartialEq)]
pub enum SrcType {
    Path(usize, bool, Option<String>),
    Other(usize),
}

/// A type as values.
pub enum TypeView {
    Path(usize, bool, Option<Seq<char>>),
    Other(usize),
}

impl View for SrcType {
    type V = TypeView;

    open spec fn view(&self) -> TypeView {
        match self {
            SrcType::Path(n, q, first) => TypeView::Path(
                *n,
                *q,
                match first {
                    Some(s) => Some(s@),
                    None => None,
                },
            ),
            SrcType::Other(n) => TypeView::Other(*n),
        }
    }
}

impl Clone for SrcType {
    fn clone(&self) -> (res: Self)
        ensures
            res@ == self@,
    {
        match self {
            SrcType::Path(n, q, first) => {
                let first = match first {
                    Some(s) => Some(s.clone()),
                    None => None,
                };
                SrcType::Path(*n, *q, first)
            },
            SrcType::Other(n) => SrcType::Other(*n),
        }
    }
}

/// The return type of a function.
#[derive(Clone, Debug, PartialEq)]
pub enum SrcReturnType {
    /// No return type.
    Default,
    /// `-> T`
    Type(SrcType),
}

impl View for SrcReturnType {
    type V = Option<TypeView>;

    open spec fn view(&self) -> Option<TypeView> {
        match self {
            SrcReturnType::Default => None,
            SrcReturnType::Type(t) => Some(t@),
        }
    }
}

/// The receiver `self` of a method: the handle of its attributes, the `&` with the handle
/// of its lifetime if there is one, and `mut`.
#[derive(Clone, Copy, Debug, PartialEq, Eq)]
pub struct Receiver {
    pub attrs: usize,
    pub reference: Option<Option<usize>>,
    pub mutability: bool,
}

/// An argument of a function: the receiver, or a typed argument referred to by its handle.
#[derive(Clone, Copy, Debug, PartialEq, Eq)]
pub enum SrcFnArg {
    Receiver(Receiver),
    Typed(usize),
}

/// A function of an `impl` block; `node` is its handle.
#[derive(Clone, Debug, PartialEq)]
pub struct ImplItemFn {
    pub node: usize,
    pub vis: SrcVisibility,
    /// Whether it is declared `extern`.
    pub abi: bool,
    pub output: SrcReturnType,
    pub inputs: Vec<SrcFnArg>,
}

/// Whether the function is declared with an ABI, as in `extern "C" fn`.
pub fn is_abi_fn(fun: &ImplItemFn) -> (res: bool)
    ensures
        res == fun.abi,
{
    fun.abi
}

/// An item of an `impl` block.
#[derive(Clone, Debug, PartialEq)]
pub enum SrcImplItem {
    Fn(ImplItemFn),
    /// A constant, type or macro of the block, by its handle.
    Other(usize),
}

/// An `impl` block; `node` is its handle.
#[derive(Clone, Debug, PartialEq)]
pub struct SrcItemImpl {
    pub node: usize,
    /// Whether it implements a trait.
    pub is_trait: bool,
    pub self_ty: SrcType,
    pub items: Vec<SrcImplItem>,
}

/// A module; `node` is its handle.
#[derive(Debug, PartialEq)]
pub struct SrcItemMod {
    pub node: usize,
    pub vis: SrcVisibility,
    /// The items of an inline module; `None` for `mod name;`.
    pub content: Option<Vec<SrcItem>>,
}

/// An item of a source file.
#[derive(Debug, PartialEq)]
pub enum SrcItem {
    Mod(SrcItemMod),
    Enum(SrcItemEnum),
    Impl(SrcItemImpl),
    /// Any other item, by its handle.
    Other(usize),
}

/// The items of a source file.
#[derive(Debug, PartialEq)]
pub struct SourceItems {
    pub items: Vec<SrcItem>,
}

/// The type of the argument that replaces a receiver.
#[derive(Clone, Debug, PartialEq)]
pub enum SelfType {
    /// `&'lifetime mut T`: the lifetime's handle, and `mut`.
    Reference(Option<usize>, bool, SrcType),
    /// `T`
    Value(SrcType),
}

/// The type of the argument that replaces a receiver, as values.
pub enum SelfTypeView {
    Reference(Option<usize>, bool, TypeView),
    Value(TypeView),
}

impl View for SelfType {
    type V = SelfTypeView;

    open spec fn view(&self) -> SelfTypeView {
        match self {
            SelfType::Reference(l, m, t) => SelfTypeView::Reference(*l, *m, t@),
            SelfType::Value(t) => SelfTypeView::Value(t@),
        }
    }
}

/// A typed argument `mut name: T`, with the handle of its attributes.
#[derive(Clone, Debug, PartialEq)]
pub struct SrcPatType {
    pub attrs: usize,
    pub mutability: bool,
    pub ident: String,
    pub ty: SelfType,
}

/// A typed argument as values.
pub struct PatTypeView {
    pub attrs: usize,
    pub mutability: bool,
    pub ident: Seq<char>,
    pub ty: SelfTypeView,
}

impl View for SrcPatType {
    type V = PatTypeView;

    open spec fn view(&self) -> PatTypeView {
        PatTypeView {
            attrs: self.attrs,
            mutability: self.mutability,
            ident: self.ident@,
            ty: self.ty@,
        }
    }
}

/// A free function made of the method with handle `node`: its return type, and the
/// argument that replaces its receiver, if it had one.
#[derive(Clone, Debug, PartialEq)]
pub struct ItemFn {
    pub node: usize,
    pub output: SrcReturnType,
    pub receiver: Option<SrcPatType>,
}

/// A free function as values.
pub struct ItemFnView {
    pub node: usize,
    pub output: Option<TypeView>,
    pub receiver: Option<PatTypeView>,
}

impl View for ItemFn {
    type V = ItemFnView;

    open spec fn view(&self) -> ItemFnView {
        ItemFnView {
            node: self.node,
            output: self.output@,
            receiver: match self.receiver {
                Some(p) => Some(p@),
                None => None,
            },
        }
    }
}

/// An item of the rewritten file.
#[derive(Clone, Debug, PartialEq)]
pub enum OutItem {
    /// The input item with this handle, unchanged.
    Keep(usize),
    /// The `impl` block with this handle, keeping only the items with the listed handles.
    Impl(usize, Vec<usize>),
    /// A method lifted into a free function.
    Fn(ItemFn),
    /// `#[attr] pub struct name fields`
    Struct(SrcAttribute, String, SrcFields),
    /// `#[attr] pub enum name { variants }`
    TagEnum(SrcAttribute, String, Vec<String>),
    /// `#[attr] pub union name { field: Type, .. }`
    DataUnion(SrcAttribute, String, Vec<(String, String)>),
    /// `#[attr] pub struct name { tag: Tag, data: Data }`
    TaggedStruct(SrcAttribute, String, String, String),
}

/// An item of the rewritten file as values.
pub enum OutView {
    Keep(usize),
    Impl(usize, Seq<usize>),
    Fn(ItemFnView),
    Struct(MetaView, Seq<char>, SrcFields),
    TagEnum(MetaView, Seq<char>, Seq<Seq<char>>),
    DataUnion(MetaView, Seq<char>, Seq<(Seq<char>, Seq<char>)>),
    TaggedStruct(MetaView, Seq<char>, Seq<char>, Seq<char>),
}

impl View for OutItem {
    type V = OutView;

    open spec fn view(&self) -> OutView {
        match self {
            OutItem::Keep(n) => OutView::Keep(*n),
            OutItem::Impl(n, items) => OutView::Impl(*n, items@),
            OutItem::Fn(f) => OutView::Fn(f@),
            OutItem::Struct(a, name, f) => OutView::Struct(a@, name@, *f),
            OutItem::TagEnum(a, name, vs) => OutView::TagEnum(
                a@,
                name@,
                vs@.map_values(|v: String| v@),
            ),
            OutItem::DataUnion(a, name, fs) => OutView::DataUnion(
                a@,
                name@,
                fs@.map_values(|f: (String, String)| (f.0@, f.1@)),
            ),
            OutItem::TaggedStruct(a, name, tag, data) => OutView::TaggedStruct(
                a@,
                name@,
                tag@,
                data@,
            ),
        }
    }
}

/// The views of rewritten items.
pub open spec fn out_view(items: Seq<OutItem>) -> Seq<OutView> {
    items.map_values(|o: OutItem| o@)
}

/// The items that replace a tagged-union enum named `name`: a struct per variant, the tag
/// enum, the data union and the struct that holds both.
pub open spec fn enum_rewritten(e: SrcItemEnum, data: Seq<char>, tag: Seq<char>) -> Seq<OutView> {
    let name = e.ident@;
    let vs = e.variants@;
    Seq::new(
        vs.len(),
        |i: int| OutView::Struct(repr_meta(data), name + "_"@ + vs[i].ident@, vs[i].fields),
    ) + seq![
        OutView::TagEnum(repr_meta(tag), name + "_Tag"@, Seq::new(vs.len(), |i: int| vs[i].ident@)),
        OutView::DataUnion(
            repr_meta(data),
            name + "_Data"@,
            Seq::new(vs.len(), |i: int| (vs[i].ident@, name + "_"@ + vs[i].ident@)),
        ),
        OutView::TaggedStruct(repr_meta(data), name, name + "_Tag"@, name + "_Data"@),
    ]
}

/// `a` followed by `b`.
fn joined(a: &String, b: &str) -> (res: String)
    ensures
        res@ == a@ + b@,
{
    let mut res = a.clone();
    res.append(b);
    res
}

/// Splits a tagged-union enum into a struct per variant (named `Enum_Variant`, with the
/// variant's fields), the tag enum `Enum_Tag` of the variants, the union `Enum_Data` of
/// the variant structs, and the struct `Enum` of a tag and the data.
pub fn transform_enum(item_enum: SrcItemEnum, enum_repr: TaggedUnionRepr) -> (res: Vec<OutItem>)
    ensures
        out_view(res@) == enum_rewritten(item_enum, enum_repr.data_repr@, enum_repr.tag_repr@),
{
    let ghost target = enum_rewritten(item_enum, enum_repr.data_repr@, enum_repr.tag_repr@);
    let ghost vs = item_enum.variants@;
    let mut output: Vec<OutItem> = Vec::new();
    let tag_attr = enum_repr.tag_attr();
    let data_attr = enum_repr.data_attr();
    let name = &item_enum.ident;
    let name_tag = joined(name, "_Tag");
    let name_union = joined(name, "_Data");
    let mut variants: Vec<String> = Vec::new();
    let mut data: Vec<(String, String)> = Vec::new();
    let n = item_enum.variants.len();
    let mut i: usize = 0;
    while i < n
        invariant
            n == vs.len(),
            vs == item_enum.variants@,
            i <= n,
            data_attr@ == repr_meta(enum_repr.data_repr@),
            output@.len() == i,
            variants@.len() == i,
            data@.len() == i,
            forall|j: int|
                0 <= j < i ==> #[trigger] output@[j]@ == OutView::Struct(
                    repr_meta(enum_repr.data_repr@),
                    name@ + "_"@ + vs[j].ident@,
                    vs[j].fields,
                ),
            forall|j: int| 0 <= j < i ==> #[trigger] variants@[j]@ == vs[j].ident@,
            forall|j: int|
                0 <= j < i ==> (#[trigger] data@[j]).0@ == vs[j].ident@ && data@[j].1@ == name@
                    + "_"@ + vs[j].ident@,
        decreases n - i,
    {
        let variant = &item_enum.variants[i];
        let prefix = joined(name, "_");
        let data_name = joined(&prefix, variant.ident.as_str());
        output.push(OutItem::Struct(data_attr.clone_attr(), data_name.clone(), variant.fields));
        data.push((variant.ident.clone(), data_name));
        variants.push(variant.ident.clone());
        i = i + 1;
    }
    output.push(OutItem::TagEnum(tag_attr, name_tag.clone(), variants));
    output.push(OutItem::DataUnion(data_attr.clone_attr(), name_union.clone(), data));
    output.push(OutItem::TaggedStruct(data_attr, name.clone(), name_tag, name_union));
    proof {
        assert(out_view(output@) =~= target) by {
            assert forall|j: int| 0 <= j < target.len() implies #[trigger] out_view(output@)[j]
                == target[j] by {
                if j == n {
                    if let OutView::TagEnum(_, _, vv) = out_view(output@)[j] {
                        assert(vv =~= Seq::new(vs.len(), |k: int| vs[k].ident@));
                    }
                } else if j == n + 1 {
                    if let OutView::DataUnion(_, _, dv) = out_view(output@)[j] {
                        assert(dv =~= Seq::new(
                            vs.len(),
                            |k: int| (vs[k].ident@, name@ + "_"@ + vs[k].ident@),
                        ));
                    }
                }
            }
        }
    }
    output
}

/// The argument `myself` that replaces the receiver `rec` of a method of `parent`: a
/// reference receiver becomes a reference to `parent` with the same lifetime and `mut`;
/// `self` or `mut self` becomes `myself` or `mut myself` of type `parent`.
pub open spec fn self_rewritten(rec: Receiver, parent: TypeView) -> PatTypeView {
    PatTypeView {
        attrs: rec.attrs,
        mutability: rec.mutability && rec.reference is None,
        ident: "myself"@,
        ty: match rec.reference {
            Some(lifetime) => SelfTypeView::Reference(lifetime, rec.mutability, parent),
            None => SelfTypeView::Value(parent),
        },
    }
}

/// Transforms the receiver `self` into the argument `myself` of type `parent`.
pub fn transform_self(rec: &Receiver, parent: SrcType) -> (res: SrcPatType)
    ensures
        res@ == self_rewritten(*rec, parent@),
{
    let ident = String::from_str("myself");
    let is_ref = rec.reference.is_some();
    let is_mut = rec.mutability;
    let mutability = is_mut && !is_ref;
    let ty = match rec.reference {
        Some(lifetime) => SelfType::Reference(lifetime, rec.mutability, parent),
        None => SelfType::Value(parent),
    };
    SrcPatType { attrs: rec.attrs, mutability, ident, ty }
}

/// The return type names `Self`: a path type with a qualified self, or whose first segment
/// is `Self`.
pub open spec fn names_self(t: TypeView) -> bool {
    match t {
        TypeView::Path(_, qself, first) => qself || first == Some("Self"@),
        TypeView::Other(_) => false,
    }
}

/// The free function made of method `f` of `parent`: a return type that names `Self`
/// becomes `parent`, and a receiver becomes the argument `myself`.
pub open spec fn fn_rewritten(f: ImplItemFn, parent: TypeView) -> ItemFnView {
    ItemFnView {
        node: f.node,
        output: match f.output@ {
            Some(t) => if names_self(t) {
                Some(parent)
            } else {
                Some(t)
            },
            None => None,
        },
        receiver: if f.inputs@.len() > 0 && f.inputs@[0] is Receiver {
            Some(self_rewritten(f.inputs@[0]->Receiver_0, parent))
        } else {
            None
        },
    }
}

/// Whether the type is a path type whose first segment is `Self`.
fn first_is_self(t: &SrcType) -> (res: bool)
    ensures
        res == (t@ matches TypeView::Path(_, _, first) && first == Some("Self"@)),
{
    match t {
        SrcType::Path(_, _, Some(first)) => {
            let self_name = String::from_str("Self");
            *first == self_name
        },
        _ => false,
    }
}

/// Turns a method of `parent` into a free function, replacing `Self` in its return type
/// and its receiver by `parent`.
pub fn transform_fn(fun: ImplItemFn, parent: SrcType) -> (res: ItemFn)
    ensures
        res@ == fn_rewritten(fun, parent@),
{
    let output = match &fun.output {
        SrcReturnType::Type(ret) => {
            let qself = match ret {
                SrcType::Path(_, q, _) => *q,
                SrcType::Other(_) => false,
            };
            let is_path = match ret {
                SrcType::Path(..) => true,
                SrcType::Other(_) => false,
            };
            if is_path && (qself || first_is_self(ret)) {
                SrcReturnType::Type(parent.clone())
            } else {
                SrcReturnType::Type(ret.clone())
            }
        },
        SrcReturnType::Default => SrcReturnType::Default,
    };
    let receiver = if fun.inputs.len() > 0 {
        match &fun.inputs[0] {
            SrcFnArg::Receiver(rec) => Some(transform_self(rec, parent.clone())),
            SrcFnArg::Typed(_) => None,
        }
    } else {
        None
    };
    ItemFn { node: fun.node, output, receiver }
}

/// The item is a public `extern` function, to be lifted out of its block.
pub open spec fn is_lifted(item: SrcImplItem) -> bool {
    item matches SrcImplItem::Fn(f) && f.vis == SrcVisibility::Public && f.abi
}

/// The handle of an item of an `impl` block.
pub open spec fn impl_item_node(item: SrcImplItem) -> usize {
    match item {
        SrcImplItem::Fn(f) => f.node,
        SrcImplItem::Other(n) => n,
    }
}

/// The free functions lifted out of the items, in order.
pub open spec fn lifted_fns(items: Seq<SrcImplItem>, parent: TypeView) -> Seq<OutView>
    decreases items.len(),
{
    if items.len() == 0 {
        seq![]
    } else {
        let rest = lifted_fns(items.drop_last(), parent);
        if is_lifted(items.last()) {
            rest.push(OutView::Fn(fn_rewritten(items.last()->Fn_0, parent)))
        } else {
            rest
        }
    }
}

/// The handles of the items that stay in the block, in order.
pub open spec fn kept_items(items: Seq<SrcImplItem>) -> Seq<usize>
    decreases items.len(),
{
    if items.len() == 0 {
        seq![]
    } else {
        let rest = kept_items(items.drop_last());
        if is_lifted(items.last()) {
            rest
        } else {
            rest.push(impl_item_node(items.last()))
        }
    }
}

/// What an `impl` block becomes: a trait implementation stays as it is; an inherent one
/// becomes its public `extern` functions, lifted, followed by the block without them.
pub open spec fn impl_rewritten(imp: SrcItemImpl) -> Seq<OutView> {
    if imp.is_trait {
        seq![OutView::Keep(imp.node)]
    } else {
        lifted_fns(imp.items@, imp.self_ty@) + seq![OutView::Impl(imp.node, kept_items(imp.items@))]
    }
}

/// Lifts the public `extern` functions of an inherent `impl` block out of it.
pub fn transform_impl(implementation: SrcItemImpl) -> (res: Vec<OutItem>)
    ensures
        out_view(res@) == impl_rewritten(implementation),
{
    if implementation.is_trait {
        let res = vec![OutItem::Keep(implementation.node)];
        assert(out_view(res@) =~= seq![OutView::Keep(implementation.node)]);
        return res;
    }
    let ghost items = implementation.items@;
    let ghost parent = implementation.self_ty@;
    let SrcItemImpl { node, is_trait: _, self_ty, items: mut impl_items } = implementation;
    let mut standalone: Vec<OutItem> = Vec::new();
    let mut impled: Vec<usize> = Vec::new();
    let mut rev: Vec<SrcImplItem> = Vec::new();
    while impl_items.len() > 0
        invariant
            items == impl_items@ + rev@.reverse(),
        decreases impl_items@.len(),
    {
        let ghost before = impl_items@;
        let item = impl_items.pop().unwrap();
        proof {
            assert(rev@.push(item).reverse() =~= seq![item] + rev@.reverse());
            assert(before =~= impl_items@.push(item));
            assert(items =~= impl_items@ + rev@.push(item).reverse());
        }
        rev.push(item);
    }
    assert(items =~= rev@.reverse());
    let ghost done = Seq::<SrcImplItem>::empty();
    while rev.len() > 0
        invariant
            self_ty@ == parent,
            items == done + rev@.reverse(),
            out_view(standalone@) == lifted_fns(done, parent),
            impled@ == kept_items(done),
        decreases rev@.len(),
    {
        let ghost before = rev@;
        let item = rev.pop().unwrap();
        proof {
            assert(before =~= rev@.push(item));
            assert(rev@.push(item).reverse() =~= seq![item] + rev@.reverse());
            assert(items =~= done.push(item) + rev@.reverse());
            assert(done.push(item).drop_last() =~= done);
            assert((done.push(item)).last() == item);
        }
        match item {
            SrcImplItem::Fn(fun) => {
                if is_public(&fun.vis) && is_abi_fn(&fun) {
                    let f = transform_fn(fun, self_ty.clone());
                    standalone.push(OutItem::Fn(f));
                    proof {
                        assert(out_view(standalone@) =~= out_view(standalone@.drop_last()).push(
                            standalone@.last()@,
                        ));
                    }
                } else {
                    impled.push(fun.node);
                }
            },
            SrcImplItem::Other(other) => {
                impled.push(other);
            },
        }
        proof {
            done = done.push(item);
        }
    }
    proof {
        assert(done =~= items);
    }
    standalone.push(OutItem::Impl(node, impled));
    proof {
        assert(out_view(standalone@) =~= out_view(standalone@.drop_last()).push(
            standalone@.last()@,
        ));
    }
    standalone
}

/// The number of items that `item` stands for: one, and for an inline module, also the
/// items inside it.
pub open spec fn item_size(item: SrcItem) -> nat
    decreases item,
{
    match item {
        SrcItem::Mod(m) => match m.content {
            Some(items) => 1 + items_size(items@),
            None => 1,
        },
        _ => 1,
    }
}

/// The number of items that a list of items stands for.
pub open spec fn items_size(items: Seq<SrcItem>) -> nat
    decreases items,
{
    if items.len() == 0 {
        0
    } else {
        items_size(items.subrange(0, items.len() - 1)) + item_size(items[items.len() - 1])
    }
}

/// The size of two lists of items together is the sum of their sizes.
pub proof fn lemma_items_size_concat(a: Seq<SrcItem>, b: Seq<SrcItem>)
    ensures
        items_size(a + b) == items_size(a) + items_size(b),
    decreases b.len(),
{
    if b.len() == 0 {
        assert(a + b =~= a);
    } else {
        let ab = a + b;
        lemma_items_size_concat(a, b.subrange(0, b.len() - 1));
        assert(ab.subrange(0, ab.len() - 1) =~= a + b.subrange(0, b.len() - 1));
        assert(ab[ab.len() - 1] == b[b.len() - 1]);
    }
}

/// The size of a list is the size of its first item and of the rest.
pub proof fn lemma_items_size_first(q: Seq<SrcItem>)
    requires
        q.len() > 0,
    ensures
        items_size(q) == item_size(q[0]) + items_size(q.drop_first()),
{
    let one = seq![q[0]];
    assert(one.subrange(0, 0) =~= Seq::<SrcItem>::empty());
    assert(items_size(Seq::<SrcItem>::empty()) == 0);
    assert(items_size(one) == item_size(q[0]));
    assert(q =~= one + q.drop_first());
    lemma_items_size_concat(one, q.drop_first());
}

/// The items of a queue in the order in which they are taken from its front, where a
/// public module is replaced by its items, appended at the back (and dropped if it has
/// none inline).
pub open spec fn flattened(queue: Seq<SrcItem>) -> Seq<SrcItem>
    decreases items_size(queue),
{
    if queue.len() == 0 {
        seq![]
    } else {
        proof {
            lemma_items_size_first(queue);
        }
        let first = queue[0];
        let rest = queue.drop_first();
        match first {
            SrcItem::Mod(m) => if m.vis == SrcVisibility::Public {
                match m.content {
                    Some(items) => {
                        proof {
                            lemma_items_size_concat(rest, items@);
                        }
                        flattened(rest + items@)
                    },
                    None => flattened(rest),
                }
            } else {
                seq![first] + flattened(rest)
            },
            _ => seq![first] + flattened(rest),
        }
    }
}

/// The enum is public and not generic.
pub open spec fn is_candidate(e: SrcItemEnum) -> bool {
    e.vis == SrcVisibility::Public && !(e.generics.gt_token && e.generics.lt_token)
}

/// What an item that is not a public module becomes.
pub open spec fn item_rewritten(item: SrcItem) -> Seq<OutView> {
    match item {
        SrcItem::Mod(m) => seq![OutView::Keep(m.node)],
        SrcItem::Enum(e) => if is_candidate(e) {
            match first_repr(attrs_view(e.attrs@)) {
                Some(r) => enum_rewritten(e, r.0, r.1),
                None => seq![OutView::Keep(e.node)],
            }
        } else {
            seq![OutView::Keep(e.node)]
        },
        SrcItem::Impl(imp) => impl_rewritten(imp),
        SrcItem::Other(n) => seq![OutView::Keep(n)],
    }
}

/// The item is a public, non-generic tagged union with a `repr` attribute that does not
/// read as `#[repr(A, B)]`: it stays as it is, with a warning.
pub open spec fn warns(item: SrcItem) -> bool {
    match item {
        SrcItem::Enum(e) => is_candidate(e) && first_repr(attrs_view(e.attrs@)) is None
            && spec_is_tagged_union(e) && spec_has_repr(e),
        _ => false,
    }
}

/// What a sequence of items becomes, item after item.
pub open spec fn rewritten_all(items: Seq<SrcItem>) -> Seq<OutView>
    decreases items.len(),
{
    if items.len() == 0 {
        seq![]
    } else {
        item_rewritten(items[0]) + rewritten_all(items.drop_first())
    }
}

/// The names of the enums that are warned about, in order.
pub open spec fn warnings_all(items: Seq<SrcItem>) -> Seq<Seq<char>>
    decreases items.len(),
{
    if items.len() == 0 {
        seq![]
    } else {
        let rest = warnings_all(items.drop_first());
        if warns(items[0]) {
            seq![items[0]->Enum_0.ident@] + rest
        } else {
            rest
        }
    }
}

/// The rewritten items of a file, and the names of the enums left as they were because
/// their `repr` attribute is not of the form `#[repr(C, Int)]`.
pub struct Rewritten {
    pub items: Vec<OutItem>,
    pub warnings: Vec<String>,
}

/// The items of `items` in a queue, in order.
fn to_queue(items: Vec<SrcItem>) -> (res: std::collections::VecDeque<SrcItem>)
    ensures
        res@ == items@,
{
    let ghost all = items@;
    let mut items = items;
    let mut queue = std::collections::VecDeque::new();
    while items.len() > 0
        invariant
            all == items@ + queue@,
        decreases items@.len(),
    {
        let ghost before = items@;
        let item = items.pop().unwrap();
        proof {
            assert(before =~= items@.push(item));
        }
        queue.push_front(item);
        assert(all =~= items@ + queue@);
    }
    assert(all =~= queue@);
    queue
}

/// Rewrites one item that is not a public module.
fn rewrite_item(item: SrcItem) -> (res: (Vec<OutItem>, Option<String>))
    ensures
        out_view(res.0@) == item_rewritten(item),
        warns(item) ==> res.1 is Some && res.1->Some_0@ == item->Enum_0.ident@,
        !warns(item) ==> res.1 is None,
{
    match item {
        SrcItem::Mod(module) => {
            let res = vec![OutItem::Keep(module.node)];
            assert(out_view(res@) =~= seq![OutView::Keep(module.node)]);
            (res, None)
        },
        SrcItem::Enum(item_enum) => {
            if is_public(&item_enum.vis) && !has_generics(&item_enum.generics) {
                let first_repr = first_attr_repr(&item_enum.attrs);
                match first_repr {
                    Some(repr) => (transform_enum(item_enum, repr), None),
                    None => {
                        let warning = if is_tagged_union(&item_enum) && has_repr(&item_enum) {
                            Some(item_enum.ident.clone())
                        } else {
                            None
                        };
                        let res = vec![OutItem::Keep(item_enum.node)];
                        assert(out_view(res@) =~= seq![OutView::Keep(item_enum.node)]);
                        (res, warning)
                    },
                }
            } else {
                let res = vec![OutItem::Keep(item_enum.node)];
                assert(out_view(res@) =~= seq![OutView::Keep(item_enum.node)]);
                (res, None)
            }
        },
        SrcItem::Impl(implementation) => (transform_impl(implementation), None),
        SrcItem::Other(node) => {
            let res = vec![OutItem::Keep(node)];
            assert(out_view(res@) =~= seq![OutView::Keep(node)]);
            (res, None)
        },
    }
}

/// Rewrites the items of a file for the C# binding generator: public modules are
/// flattened, public non-generic enums with `#[repr(C, Int)]` are split into explicit
/// tagged unions, and public `extern` methods are lifted out of inherent `impl` blocks.
/// Every other item is kept as it is.
pub fn transform_items(file: SourceItems) -> (res: Rewritten)
    ensures
        out_view(res.items@) == rewritten_all(flattened(file.items@)),
        res.warnings@.map_values(|s: String| s@) == warnings_all(flattened(file.items@)),
{
    let ghost all = flattened(file.items@);
    let mut transformed: Vec<OutItem> = Vec::new();
    let mut warnings: Vec<String> = Vec::new();
    let mut queue = to_queue(file.items);
    while queue.len() > 0
        invariant
            out_view(transformed@) + rewritten_all(flattened(queue@)) == rewritten_all(all),
            warnings@.map_values(|s: String| s@) + warnings_all(flattened(queue@))
                == warnings_all(all),
        decreases items_size(queue@),
    {
        let ghost q = queue@;
        let item = queue.pop_front().unwrap();
        proof {
            lemma_items_size_first(q);
            assert(q.drop_first() =~= queue@);
        }
        match item {
            SrcItem::Mod(module) => {
                if is_public(&module.vis) {
                    if let Some(items) = module.content {
                        let ghost c = items@;
                        let mut more = to_queue(items);
                        queue.append(&mut more);
                        proof {
                            lemma_items_size_concat(q.drop_first(), c);
                        }
                    }
                } else {
                    let (out, _) = rewrite_item(SrcItem::Mod(module));
                    proof {
                        let x = q[0];
                        let f = flattened(queue@);
                        assert((seq![x] + f)[0] == x);
                        assert((seq![x] + f).drop_first() =~= f);
                        assert(out_view(transformed@ + out@) =~= out_view(transformed@) + out_view(
                            out@,
                        ));
                    }
                    let mut out = out;
                    transformed.append(&mut out);
                }
            },
            item => {
                let ghost x = item;
                let (out, warning) = rewrite_item(item);
                proof {
                    let f = flattened(queue@);
                    assert((seq![x] + f)[0] == x);
                    assert((seq![x] + f).drop_first() =~= f);
                    assert(out_view(transformed@ + out@) =~= out_view(transformed@) + out_view(
                        out@,
                    ));
                }
                let mut out = out;
                transformed.append(&mut out);
                if let Some(name) = warning {
                    let ghost before = warnings@;
                    warnings.push(name);
                    assert(warnings@.map_values(|s: String| s@) =~= before.map_values(
                        |s: String| s@,
                    ).push(name@));
                }
            },
        }
    }
    Rewritten { items: transformed, warnings }
}

/// A public module is never left among the flattened items: its items take its place.
pub proof fn lemma_no_public_module_left(queue: Seq<SrcItem>)
    ensures
        forall|i: int|
            0 <= i < flattened(queue).len() ==> !(#[trigger] flattened(queue)[i] matches SrcItem::Mod(
                m,
            ) && m.vis == SrcVisibility::Public),
    decreases items_size(queue),
{
    if queue.len() > 0 {
        lemma_items_size_first(queue);
        let first = queue[0];
        let rest = queue.drop_first();
        let shifted = seq![first] + flattened(rest);
        match first {
            SrcItem::Mod(m) => {
                if m.vis == SrcVisibility::Public {
                    match m.content {
                        Some(items) => {
                            lemma_items_size_concat(rest, items@);
                            lemma_no_public_module_left(rest + items@);
                        },
                        None => {
                            lemma_no_public_module_left(rest);
                        },
                    }
                } else {
                    lemma_no_public_module_left(rest);
                    assert(forall|i: int| 0 < i < shifted.len() ==> shifted[i] == flattened(rest)[i - 1]);
                }
            },
            _ => {
                lemma_no_public_module_left(rest);
                assert(forall|i: int| 0 < i < shifted.len() ==> shifted[i] == flattened(rest)[i - 1]);
            },
        }
    }
}

/// Each item of an inherent `impl` block is either lifted out of it or kept in it.
pub proof fn lemma_impl_items_partition(items: Seq<SrcImplItem>, parent: TypeView)
    ensures
        lifted_fns(items, parent).len() + kept_items(items).len() == items.len(),
    decreases items.len(),
{
    if items.len() > 0 {
        lemma_impl_items_partition(items.drop_last(), parent);
    }
}

/// A lifted function keeps the handle of its method and its return type, unless that type
/// names `Self` (a path type with a qualified self, or whose first segment is `Self`): then
/// it returns the parent type. Any other type (a pointer, a reference, a tuple, an array,
/// a path not starting with `Self`) is carried over as it is. It takes the argument
/// `myself` exactly when the method's first argument is its receiver.
pub proof fn law_lifted_fn_signature(f: ImplItemFn, parent: TypeView)
    ensures
        fn_rewritten(f, parent).node == f.node,
        match f.output@ {
            None => fn_rewritten(f, parent).output is None,
            Some(TypeView::Other(n)) => fn_rewritten(f, parent).output == Some(TypeView::Other(n)),
            Some(TypeView::Path(n, q, first)) => if q || first == Some("Self"@) {
                fn_rewritten(f, parent).output == Some(parent)
            } else {
                fn_rewritten(f, parent).output == Some(TypeView::Path(n, q, first))
            },
        },
        fn_rewritten(f, parent).receiver is Some <==> (f.inputs@.len() > 0
            && f.inputs@[0] is Receiver),
        (f.inputs@.len() > 0 && f.inputs@[0] is Receiver) ==> fn_rewritten(f, parent).receiver
            == Some(self_rewritten(f.inputs@[0]->Receiver_0, parent)),
{
}

/// The receiver becomes an argument named `myself` with the receiver's attributes. A
/// receiver without `&` (`self`, `mut self`) becomes an argument of the parent type itself,
/// keeping its `mut`; a receiver `&'a self` or `&'a mut self` becomes a reference to the
/// parent type with the same lifetime and `mut`, and the argument itself is not `mut`.
pub proof fn law_receiver_argument(rec: Receiver, parent: TypeView)
    ensures
        self_rewritten(rec, parent).ident == "myself"@,
        self_rewritten(rec, parent).attrs == rec.attrs,
        rec.reference is None ==> self_rewritten(rec, parent).ty == SelfTypeView::Value(parent),
        rec.reference is None ==> self_rewritten(rec, parent).mutability == rec.mutability,
        rec.reference matches Some(lifetime) ==> self_rewritten(rec, parent).ty
            == SelfTypeView::Reference(lifetime, rec.mutability, parent),
        rec.reference is Some ==> !self_rewritten(rec, parent).mutability,
{
}

/// A tagged-union enum with `n` variants becomes `n + 3` items: the struct `Enum_Variant`
/// of each variant's fields, in order; the tag enum `Enum_Tag` naming every variant (unit
/// variants included) in order, so that each tag has the variant's position; the union
/// `Enum_Data` with a field per variant of that variant's struct; and the struct `Enum` of
/// a tag and the data. The data items carry `#[repr(data)]`, the tag enum `#[repr(tag)]`.
pub proof fn law_enum_split(e: SrcItemEnum, data: Seq<char>, tag: Seq<char>)
    ensures
        ({
            let out = enum_rewritten(e, data, tag);
            let vs = e.variants@;
            let n = vs.len() as int;
            &&& out.len() == n + 3
            &&& forall|i: int|
                0 <= i < n ==> #[trigger] out[i] == OutView::Struct(
                    repr_meta(data),
                    e.ident@ + "_"@ + vs[i].ident@,
                    vs[i].fields,
                )
            &&& (out[n] matches OutView::TagEnum(m, name, names) && m == repr_meta(tag) && name
                == e.ident@ + "_Tag"@ && names.len() == n && (forall|i: int|
                0 <= i < n ==> #[trigger] names[i] == vs[i].ident@))
            &&& (out[n + 1] matches OutView::DataUnion(m, name, fs) && m == repr_meta(data) && name
                == e.ident@ + "_Data"@ && fs.len() == n && (forall|i: int|
                0 <= i < n ==> #[trigger] fs[i] == (vs[i].ident@, e.ident@ + "_"@ + vs[i].ident@)))
            &&& out[n + 2] == OutView::TaggedStruct(
                repr_meta(data),
                e.ident@,
                e.ident@ + "_Tag"@,
                e.ident@ + "_Data"@,
            )
        }),
{
}

/// Of the items of an inherent `impl` block, exactly the functions that are `pub` and
/// `extern` are lifted, in order and whatever their arguments (a constructor without a
/// receiver included); every other item stays in the block, in order.
pub proof fn law_impl_lifting(items: Seq<SrcImplItem>, parent: TypeView)
    ensures
        lifted_fns(items, parent) == items.filter(
            |it: SrcImplItem|
                it matches SrcImplItem::Fn(f) && f.vis == SrcVisibility::Public && f.abi,
        ).map_values(|it: SrcImplItem| OutView::Fn(fn_rewritten(it->Fn_0, parent))),
        kept_items(items) == items.filter(
            |it: SrcImplItem|
                !(it matches SrcImplItem::Fn(f) && f.vis == SrcVisibility::Public && f.abi),
        ).map_values(|it: SrcImplItem| impl_item_node(it)),
        lifted_fns(items, parent).len() == items.filter(
            |it: SrcImplItem|
                it matches SrcImplItem::Fn(f) && f.vis == SrcVisibility::Public && f.abi,
        ).len(),
    decreases items.len(),
{
    reveal(Seq::filter);
    if items.len() > 0 {
        law_impl_lifting(items.drop_last(), parent);
        let lifted = |it: SrcImplItem|
            it matches SrcImplItem::Fn(f) && f.vis == SrcVisibility::Public && f.abi;
        let kept = |it: SrcImplItem|
            !(it matches SrcImplItem::Fn(f) && f.vis == SrcVisibility::Public && f.abi);
        let to_fn = |it: SrcImplItem| OutView::Fn(fn_rewritten(it->Fn_0, parent));
        let a = items.drop_last().filter(lifted);
        let b = items.drop_last().filter(kept);
        assert(a.push(items.last()).map_values(to_fn) =~= a.map_values(to_fn).push(
            to_fn(items.last()),
        ));
        assert(b.push(items.last()).map_values(|it: SrcImplItem| impl_item_node(it))
            =~= b.map_values(|it: SrcImplItem| impl_item_node(it)).push(
            impl_item_node(items.last()),
        ));
    }
}

/// An `impl` block that implements a trait is kept as it is; an inherent one becomes its
/// lifted functions followed by the block, which keeps its handle.
pub proof fn law_impl_rewritten(imp: SrcItemImpl)
    ensures
        imp.is_trait ==> impl_rewritten(imp) == seq![OutView::Keep(imp.node)],
        !imp.is_trait ==> impl_rewritten(imp).len() == lifted_fns(imp.items@, imp.self_ty@).len()
            + 1,
        !imp.is_trait ==> impl_rewritten(imp).last() == OutView::Impl(
            imp.node,
            kept_items(imp.items@),
        ),
{
}

/// A module that is not plainly `pub` (`pub(crate)`, `pub(super)`, `pub(in path)`, or
/// private) is not flattened: it stays where it is, ahead of what follows it, and is kept
/// whole.
pub proof fn law_non_public_module_kept(m: SrcItemMod, rest: Seq<SrcItem>)
    requires
        m.vis != SrcVisibility::Public,
    ensures
        flattened(seq![SrcItem::Mod(m)] + rest) == seq![SrcItem::Mod(m)] + flattened(rest),
        rewritten_all(flattened(seq![SrcItem::Mod(m)])) == seq![OutView::Keep(m.node)],
{
    let q = seq![SrcItem::Mod(m)] + rest;
    assert(q[0] == SrcItem::Mod(m));
    assert(q.drop_first() =~= rest);
    let one = seq![SrcItem::Mod(m)];
    assert(one.drop_first() =~= Seq::<SrcItem>::empty());
    assert(one[0] == SrcItem::Mod(m));
    assert(flattened(Seq::<SrcItem>::empty()) =~= Seq::<SrcItem>::empty());
    assert(flattened(one) =~= one + flattened(one.drop_first()));
    assert(flattened(one) =~= one);
    assert(rewritten_all(one.drop_first()) =~= Seq::<OutView>::empty());
    assert(rewritten_all(one) =~= seq![OutView::Keep(m.node)]);
}

} // verus!
