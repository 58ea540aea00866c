//! The syntax tree of an error-set description, and deep copies of its parts.
use vstd::prelude::*;

verus! {

/// An attribute `#[...]` as written: its inner text, the single identifier that
/// names it (if its path is one identifier), the text inside its delimiters
/// when it has the list form `name(...)`, and where its `#` stands.
#[derive(Debug)]
pub struct Attribute {
    pub text: String,
    pub name: Option<String>,
    pub args: Option<String>,
    pub at: usize,
}

/// A named field of a variant: `name: Type`, the type kept as its source text.
#[derive(Debug)]
pub struct Field {
    pub name: String,
    pub ty: String,
}

/// One error case of a declaration.
#[derive(Debug)]
pub struct Variant {
    pub attributes: Vec<Attribute>,
    pub cfg_attributes: Vec<Attribute>,
    /// The tokens of the `display(...)` attribute, if the variant has one.
    pub display: Option<String>,
    pub name: String,
    /// `None`: no field block; `Some` of an empty list: an explicit `{}`.
    pub fields: Option<Vec<Field>>,
    pub source_type: Option<String>,
    pub backtrace_type: Option<String>,
}

/// The value of a variant, with its lists seen as sequences.
pub struct VariantView {
    pub attributes: Seq<Attribute>,
    pub cfg_attributes: Seq<Attribute>,
    pub display: Option<String>,
    pub name: Seq<char>,
    pub fields: Option<Seq<Field>>,
    pub source_type: Option<String>,
    pub backtrace_type: Option<String>,
}

impl View for Variant {
    type V = VariantView;

    open spec fn view(&self) -> VariantView {
        VariantView {
            attributes: self.attributes@,
            cfg_attributes: self.cfg_attributes@,
            display: self.display,
            name: self.name@,
            fields: match self.fields {
                Some(fs) => Some(fs@),
                None => None,
            },
            source_type: self.source_type,
            backtrace_type: self.backtrace_type,
        }
    }
}

/// The per-declaration switches that suppress generated code.
#[derive(Debug)]
pub struct Disabled {
    /// `None`: conversions are generated; `Some` of an empty list: none are;
    /// `Some` of types: conversions from those source types are not.
    pub from: Option<Vec<String>>,
    pub display: bool,
    pub debug: bool,
    pub error: bool,
}

/// A reference part: the target's name, where it stands, and its generic arguments.
#[derive(Debug)]
pub struct RefPart {
    pub name: String,
    pub at: usize,
    pub generic_refs: Vec<String>,
}

#[derive(Debug)]
pub enum Part {
    Inline(Vec<Variant>),
    Ref(RefPart),
}

#[derive(Debug)]
pub struct Declaration {
    pub attributes: Vec<Attribute>,
    pub name: String,
    pub name_at: usize,
    pub generics: Vec<String>,
    pub disabled: Disabled,
    pub parts: Vec<Part>,
}

#[derive(Debug)]
pub struct ErrorSet {
    pub declarations: Vec<Declaration>,
}

pub open spec fn views(vs: Seq<Variant>) -> Seq<VariantView> {
    vs.map_values(|v: Variant| v@)
}

pub fn copy_opt_string(o: &Option<String>) -> (r: Option<String>)
    ensures
        r == *o,
{
    match o {
        Some(s) => Some(s.clone()),
        None => None,
    }
}

pub fn copy_strings(v: &Vec<String>) -> (r: Vec<String>)
    ensures
        r@ == v@,
{
    let mut r: Vec<String> = Vec::new();
    let mut i: usize = 0;
    while i < v.len()
        invariant
            i <= v.len(),
            r@ == v@.take(i as int),
        decreases v.len() - i,
    {
        r.push(v[i].clone());
        i = i + 1;
        assert(r@ =~= v@.take(i as int));
    }
    assert(v@.take(v.len() as int) =~= v@);
    r
}

pub fn copy_attribute(a: &Attribute) -> (r: Attribute)
    ensures
        r == *a,
{
    Attribute { text: a.text.clone(), name: copy_opt_string(&a.name), args: copy_opt_string(&a.args), at: a.at }
}

pub fn copy_attributes(v: &Vec<Attribute>) -> (r: Vec<Attribute>)
    ensures
        r@ == v@,
{
    let mut r: Vec<Attribute> = Vec::new();
    let mut i: usize = 0;
    while i < v.len()
        invariant
            i <= v.len(),
            r@ == v@.take(i as int),
        decreases v.len() - i,
    {
        r.push(copy_attribute(&v[i]));
        i = i + 1;
        assert(r@ =~= v@.take(i as int));
    }
    assert(v@.take(v.len() as int) =~= v@);
    r
}

pub fn copy_field(f: &Field) -> (r: Field)
    ensures
        r == *f,
{
    Field { name: f.name.clone(), ty: f.ty.clone() }
}

pub fn copy_fields(v: &Vec<Field>) -> (r: Vec<Field>)
    ensures
        r@ == v@,
{
    let mut r: Vec<Field> = Vec::new();
    let mut i: usize = 0;
    while i < v.len()
        invariant
            i <= v.len(),
            r@ == v@.take(i as int),
        decreases v.len() - i,
    {
        r.push(copy_field(&v[i]));
        i = i + 1;
        assert(r@ =~= v@.take(i as int));
    }
    assert(v@.take(v.len() as int) =~= v@);
    r
}

pub fn copy_variant(v: &Variant) -> (r: Variant)
    ensures
        r@ == v@,
{
    let fields = match &v.fields {
        Some(fs) => Some(copy_fields(fs)),
        None => None,
    };
    Variant {
        attributes: copy_attributes(&v.attributes),
        cfg_attributes: copy_attributes(&v.cfg_attributes),
        display: copy_opt_string(&v.display),
        name: v.name.clone(),
        fields,
        source_type: copy_opt_string(&v.source_type),
        backtrace_type: copy_opt_string(&v.backtrace_type),
    }
}

pub fn copy_variants(v: &Vec<Variant>) -> (r: Vec<Variant>)
    ensures
        views(r@) == views(v@),
{
    let mut r: Vec<Variant> = Vec::new();
    let mut i: usize = 0;
    while i < v.len()
        invariant
            i <= v.len(),
            views(r@) == views(v@).take(i as int),
        decreases v.len() - i,
    {
        let ghost prev = r@;
        r.push(copy_variant(&v[i]));
        i = i + 1;
        assert(views(r@) =~= views(prev).push(v@[i - 1]@));
        assert(views(r@) =~= views(v@).take(i as int));
    }
    assert(views(v@).take(v.len() as int) =~= views(v@));
    r
}

/// How the emitted variant is built, from whether it has a field block and a
/// source type.
#[derive(Clone, Copy, Debug)]
pub enum Shape {
    /// `V`
    Named,
    /// `V { .. }`
    Struct,
    /// `V(Source)`
    SourceTuple,
    /// `V(Source) { .. }`
    SourceStruct,
}

pub fn reshape(v: &Variant) -> (r: Shape)
    ensures
        r is Named <==> v.fields is None && v.source_type is None,
        r is Struct <==> v.fields is Some && v.source_type is None,
        r is SourceTuple <==> v.fields is None && v.source_type is Some,
        r is SourceStruct <==> v.fields is Some && v.source_type is Some,
{
    match (&v.fields, &v.source_type) {
        (Some(_), Some(_)) => Shape::SourceStruct,
        (Some(_), None) => Shape::Struct,
        (None, Some(_)) => Shape::SourceTuple,
        (None, None) => Shape::Named,
    }
}

} // verus!
