//! Resolution of references between declarations: every declaration ends with
//! the variants of the sets it names, renamed for its generic arguments and
//! merged so that a name is taken by its first variant.
use vstd::prelude::*;
use vstd::set_lib::*;

use crate::ast::{
    copy_attributes, copy_opt_string, copy_strings, copy_variant, copy_variants, views, Attribute, Declaration, Disabled,
    ErrorSet, Field, Part, RefPart, Variant, VariantView,
};
use crate::error::{Error, ErrorKind};
use crate::parser::{lexing_failed, parse_error, plain_set, set_is, tokens_of, wf_set, Ctx};

verus! {

// ---------------------------------------------------------------------------
// The model: declarations as nodes of a reference graph.
/// What resolution reads of a declaration.
pub struct Node {
    pub name: Seq<char>,
    pub generics: Seq<String>,
    /// The variants of its inline parts, in order.
    pub inline: Seq<VariantView>,
    /// Its reference parts, in order.
    pub refs: Seq<RefPart>,
}

/// `j` is the first declaration called `name`: the one a reference to `name` reaches.
pub open spec fn is_first(g: Seq<Node>, name: Seq<char>, j: int) -> bool {
    &&& 0 <= j < g.len()
    &&& g[j].name == name
    &&& forall|k: int| 0 <= k < j ==> (#[trigger] g[k].name) != name
}

pub open spec fn declared(g: Seq<Node>, name: Seq<char>) -> bool {
    exists|j: int| 0 <= j < g.len() && (#[trigger] g[j].name) == name
}

pub open spec fn target(g: Seq<Node>, name: Seq<char>) -> int {
    choose|j: int| is_first(g, name, j)
}

/// Declaration `i` has a reference part that reaches declaration `j`.
pub open spec fn edge(g: Seq<Node>, i: int, j: int) -> bool {
    &&& 0 <= i < g.len()
    &&& exists|k: int| 0 <= k < g[i].refs.len() && is_first(g, (#[trigger] g[i].refs[k]).name@, j)
}

/// A closed walk along references, given as the declarations it visits.
pub open spec fn is_cycle(g: Seq<Node>, p: Seq<int>) -> bool {
    &&& p.len() >= 2
    &&& p[0] == p[p.len() - 1]
    &&& forall|m: int| 0 <= m < p.len() - 1 ==> edge(g, #[trigger] p[m], p[m + 1])
}

/// A walk along references, given as the declarations it visits.
pub open spec fn is_walk(g: Seq<Node>, p: Seq<int>) -> bool {
    &&& p.len() >= 1
    &&& 0 <= p[0] < g.len()
    &&& forall|m: int| 0 <= m < p.len() - 1 ==> edge(g, #[trigger] p[m], p[m + 1])
}

/// Declaration `j` can be reached from `i` by following references (or is `i`).
pub open spec fn reaches(g: Seq<Node>, i: int, j: int) -> bool {
    exists|p: Seq<int>| #[trigger] is_walk(g, p) && p[0] == i && p[p.len() - 1] == j
}

proof fn lemma_reach_step(g: Seq<Node>, i: int, t: int, j: int)
    requires
        edge(g, i, t),
        reaches(g, t, j),
    ensures
        reaches(g, i, j),
{
    let p = choose|p: Seq<int>| #[trigger] is_walk(g, p) && p[0] == t && p[p.len() - 1] == j;
    let q = seq![i] + p;
    assert forall|m: int| 0 <= m < q.len() - 1 implies edge(g, #[trigger] q[m], q[m + 1]) by {
        if m > 0 {
            assert(q[m] == p[m - 1] && q[m + 1] == p[m]);
        }
    }
    assert(is_walk(g, q));
}

proof fn lemma_reach_self(g: Seq<Node>, i: int)
    requires
        0 <= i < g.len(),
    ensures
        reaches(g, i, i),
{
    assert(is_walk(g, seq![i]));
}

/// Before its last step, the walk visits no declaration twice.
pub open spec fn visits_once(p: Seq<int>) -> bool {
    forall|a: int, b: int| 0 <= a < b < p.len() - 1 ==> p[a] != p[b]
}

/// Where `x` first stands in `s`.
pub open spec fn first_at(s: Seq<usize>, x: usize) -> int
    decreases s.len(),
{
    if s.len() == 0 || s[0] == x {
        0
    } else {
        1 + first_at(s.skip(1), x)
    }
}

/// The names on the cycle closed by reaching `index` with stack `st`: the stack
/// from the first visit of `index` on, then `index` again.
pub open spec fn cycle_path(g: Seq<Node>, st: Seq<usize>, index: usize) -> Seq<Seq<char>> {
    st.subrange(first_at(st, index), st.len() as int).push(index).map_values(|j: usize| g[j as int].name)
}

pub open spec fn all_declared(g: Seq<Node>) -> bool {
    forall|i: int, k: int|
        0 <= i < g.len() && 0 <= k < g[i].refs.len() ==> declared(g, (#[trigger] g[i].refs[k]).name@)
}

pub open spec fn arity_mismatch(g: Seq<Node>, i: int, k: int, j: int) -> bool {
    &&& 0 <= i < g.len()
    &&& 0 <= k < g[i].refs.len()
    &&& is_first(g, g[i].refs[k].name@, j)
    &&& g[i].refs[k].generic_refs@.len() != g[j].generics.len()
}

pub open spec fn arities_match(g: Seq<Node>) -> bool {
    forall|i: int, k: int, j: int| !#[trigger] arity_mismatch(g, i, k, j)
}

pub open spec fn acyclic(g: Seq<Node>) -> bool {
    forall|p: Seq<int>| !#[trigger] is_cycle(g, p)
}

/// The declarations can be resolved.
pub open spec fn valid(g: Seq<Node>) -> bool {
    all_declared(g) && arities_match(g) && acyclic(g)
}

// ---------------------------------------------------------------------------
// Merging and renaming.
pub open spec fn has_name(vs: Seq<VariantView>, name: Seq<char>) -> bool {
    exists|k: int| 0 <= k < vs.len() && (#[trigger] vs[k]).name == name
}

/// Appends the variants of `add` in order, each only if no variant with its name
/// is there yet.
pub open spec fn merge(acc: Seq<VariantView>, add: Seq<VariantView>) -> Seq<VariantView>
    decreases add.len(),
{
    if add.len() == 0 {
        acc
    } else {
        let m = merge(acc, add.drop_last());
        if has_name(m, add.last().name) {
            m
        } else {
            m.push(add.last())
        }
    }
}

/// A type that is exactly a generic parameter becomes the argument at the same
/// position (the last such parameter, if one repeats); any other stays.
pub open spec fn subst_ty(ty: String, params: Seq<String>, args: Seq<String>) -> String
    decreases params.len(),
{
    if params.len() == 0 {
        ty
    } else if ty@ == params.last()@ {
        args[params.len() - 1]
    } else {
        subst_ty(ty, params.drop_last(), args)
    }
}

pub open spec fn subst_field(f: Field, params: Seq<String>, args: Seq<String>) -> Field {
    Field { name: f.name, ty: subst_ty(f.ty, params, args) }
}

pub open spec fn subst_variant(v: VariantView, params: Seq<String>, args: Seq<String>) -> VariantView {
    VariantView {
        attributes: v.attributes,
        cfg_attributes: v.cfg_attributes,
        display: v.display,
        name: v.name,
        fields: match v.fields {
            Some(fs) => Some(fs.map_values(|f: Field| subst_field(f, params, args))),
            None => None,
        },
        source_type: match v.source_type {
            Some(t) => Some(subst_ty(t, params, args)),
            None => None,
        },
        backtrace_type: v.backtrace_type,
    }
}

pub open spec fn subst_all(vs: Seq<VariantView>, params: Seq<String>, args: Seq<String>) -> Seq<VariantView> {
    vs.map_values(|v: VariantView| subst_variant(v, params, args))
}

/// `acc` after merging in, reference by reference, the resolved variants
/// `res` of each target, renamed for the reference's generic arguments.
pub open spec fn absorb(
    acc: Seq<VariantView>,
    refs: Seq<RefPart>,
    g: Seq<Node>,
    res: Seq<Seq<VariantView>>,
) -> Seq<VariantView>
    decreases refs.len(),
{
    if refs.len() == 0 {
        acc
    } else {
        let r = refs.last();
        let t = target(g, r.name@);
        merge(absorb(acc, refs.drop_last(), g, res), subst_all(res[t], g[t].generics, r.generic_refs@))
    }
}

/// `res` gives each declaration its own inline variants followed by what its
/// references bring.
pub open spec fn is_resolution(g: Seq<Node>, res: Seq<Seq<VariantView>>) -> bool {
    &&& res.len() == g.len()
    &&& forall|i: int| 0 <= i < g.len() ==> #[trigger] res[i] == absorb(g[i].inline, g[i].refs, g, res)
}

// ---------------------------------------------------------------------------
// Builders.
/// A declaration during resolution. Its reference parts are cleared once their
/// variants are merged into `error_variants`.
pub struct ErrorEnumBuilder {
    pub attributes: Vec<Attribute>,
    pub error_name: String,
    pub name_at: usize,
    pub generics: Vec<String>,
    pub disabled: Disabled,
    pub error_variants: Vec<Variant>,
    pub ref_parts_to_resolve: Vec<RefPart>,
    /// Above the heights of the resolved builders it references.
    pub height: Ghost<nat>,
}

pub open spec fn node_of(b: ErrorEnumBuilder) -> Node {
    Node {
        name: b.error_name@,
        generics: b.generics@,
        inline: views(b.error_variants@),
        refs: b.ref_parts_to_resolve@,
    }
}

pub open spec fn nodes(bs: Seq<ErrorEnumBuilder>) -> Seq<Node> {
    bs.map_values(|b: ErrorEnumBuilder| node_of(b))
}

pub open spec fn variant_lists(bs: Seq<ErrorEnumBuilder>) -> Seq<Seq<VariantView>> {
    bs.map_values(|b: ErrorEnumBuilder| views(b.error_variants@))
}

pub open spec fn done(b: ErrorEnumBuilder) -> bool {
    b.ref_parts_to_resolve@.len() == 0
}

pub open spec fn same_header(a: ErrorEnumBuilder, b: ErrorEnumBuilder) -> bool {
    &&& a.attributes == b.attributes
    &&& a.error_name == b.error_name
    &&& a.name_at == b.name_at
    &&& a.generics == b.generics
    &&& a.disabled == b.disabled
}

/// Builder `i` is resolved: its references reach resolved builders of lower
/// height with the right number of generic arguments.
pub open spec fn resolved_at(g: Seq<Node>, bs: Seq<ErrorEnumBuilder>, i: int) -> bool {
    &&& forall|k: int| 0 <= k < g[i].refs.len() ==> declared(g, (#[trigger] g[i].refs[k]).name@)
    &&& forall|k: int, j: int|
        0 <= k < g[i].refs.len() && #[trigger] is_first(g, g[i].refs[k].name@, j) ==> {
            &&& done(bs[j])
            &&& g[i].refs[k].generic_refs@.len() == g[j].generics.len()
            &&& (g[j].refs.len() == 0 || bs[j].height@ < bs[i].height@)
        }
    &&& views(bs[i].error_variants@) == absorb(g[i].inline, g[i].refs, g, variant_lists(bs))
}

/// The builders `bs`, part way through resolving the declarations `g`.
pub open spec fn inv(g: Seq<Node>, bs: Seq<ErrorEnumBuilder>) -> bool {
    &&& bs.len() == g.len()
    &&& forall|i: int| 0 <= i < bs.len() ==> (#[trigger] bs[i]).error_name@ == g[i].name
    &&& forall|i: int| 0 <= i < bs.len() ==> (#[trigger] bs[i]).generics@ == g[i].generics
    &&& forall|i: int| 0 <= i < bs.len() && !done(#[trigger] bs[i]) ==> node_of(bs[i]) == g[i]
    &&& forall|i: int| 0 <= i < bs.len() && done(#[trigger] bs[i]) ==> resolved_at(g, bs, i)
}

/// From `a` to `b` only unresolved builders changed, each into a resolved one
/// with the same header.
pub open spec fn frame(a: Seq<ErrorEnumBuilder>, b: Seq<ErrorEnumBuilder>) -> bool {
    &&& a.len() == b.len()
    &&& forall|j: int| 0 <= j < a.len() ==> {
        ||| #[trigger] b[j] == a[j]
        ||| (!done(a[j]) && done(b[j]) && same_header(a[j], b[j]))
    }
}

/// The visitation stack: distinct unresolved builders, each referencing the next.
pub open spec fn stack_ok(g: Seq<Node>, bs: Seq<ErrorEnumBuilder>, st: Seq<usize>) -> bool {
    &&& st.no_duplicates()
    &&& forall|m: int| 0 <= m < st.len() ==> (#[trigger] st[m]) < g.len() && !done(bs[st[m] as int])
    &&& forall|m: int| 0 <= m < st.len() - 1 ==> edge(g, #[trigger] st[m] as int, st[m + 1] as int)
}

/// What an error of resolution says of the declarations.
pub open spec fn explains(g: Seq<Node>, e: Error) -> bool {
    match e.kind {
        ErrorKind::Undeclared => exists|i: int, k: int|
            0 <= i < g.len() && 0 <= k < g[i].refs.len() && !declared(g, (#[trigger] g[i].refs[k]).name@)
                && g[i].refs[k].at == e.at,
        ErrorKind::ArityMismatch { supplied, expected } => exists|i: int, k: int, j: int|
            #[trigger] arity_mismatch(g, i, k, j) && g[i].refs[k].generic_refs@.len() == supplied
                && g[j].generics.len() == expected && g[i].refs[k].at == e.at,
        ErrorKind::Cycle(path) => exists|p: Seq<int>|
            #[trigger] is_cycle(g, p) && visits_once(p) && path@.len() == p.len() && forall|m: int|
                0 <= m < p.len() ==> (#[trigger] path@[m])@ == g[p[m]].name,
        _ => false,
    }
}

// ---------------------------------------------------------------------------
// Lemmas.
pub(crate) proof fn lemma_target(g: Seq<Node>, name: Seq<char>, j: int)
    requires
        is_first(g, name, j),
    ensures
        target(g, name) == j,
{
    let t = target(g, name);
    assert(is_first(g, name, t));
    if t < j {
        assert(g[t].name != name);
    } else if j < t {
        assert(g[j].name != name);
    }
}

proof fn lemma_absorb_frame(
    acc: Seq<VariantView>,
    refs: Seq<RefPart>,
    g: Seq<Node>,
    r1: Seq<Seq<VariantView>>,
    r2: Seq<Seq<VariantView>>,
)
    requires
        forall|k: int| 0 <= k < refs.len() ==> r1[target(g, (#[trigger] refs[k]).name@)] == r2[target(g, refs[k].name@)],
    ensures
        absorb(acc, refs, g, r1) == absorb(acc, refs, g, r2),
    decreases refs.len(),
{
    if refs.len() > 0 {
        let d = refs.drop_last();
        assert forall|k: int| 0 <= k < d.len() implies r1[target(g, (#[trigger] d[k]).name@)] == r2[target(g, d[k].name@)] by {
            assert(d[k] == refs[k]);
        }
        lemma_absorb_frame(acc, d, g, r1, r2);
        assert(refs.last() == refs[refs.len() - 1]);
    }
}

proof fn lemma_stack_bound(st: Seq<usize>, n: int)
    requires
        st.no_duplicates(),
        forall|m: int| 0 <= m < st.len() ==> (#[trigger] st[m]) < n,
        0 <= n,
    ensures
        st.len() <= n,
{
    let si = st.map_values(|x: usize| x as int);
    assert(si.no_duplicates()) by {
        assert forall|a: int, b: int| 0 <= a < si.len() && 0 <= b < si.len() && a != b implies si[a] != si[b] by {
            assert(st[a] != st[b]);
        }
    }
    si.unique_seq_to_set();
    lemma_int_range(0, n);
    assert(si.to_set().subset_of(set_int_range(0, n))) by {
        assert forall|x: int| si.to_set().contains(x) implies set_int_range(0, n).contains(x) by {
            let m = choose|m: int| 0 <= m < si.len() && si[m] == x;
            assert(st[m] < n);
        }
    }
    lemma_len_subset(si.to_set(), set_int_range(0, n));
}

proof fn lemma_height_descends(g: Seq<Node>, bs: Seq<ErrorEnumBuilder>, p: Seq<int>, m: int)
    requires
        0 <= m < p.len(),
        is_cycle(g, p),
        inv(g, bs),
        forall|i: int| 0 <= i < bs.len() ==> done(#[trigger] bs[i]),
        forall|q: int| 0 <= q < p.len() ==> (#[trigger] g[p[q]]).refs.len() > 0,
    ensures
        bs[p[m]].height@ + m <= bs[p[0]].height@,
    decreases m,
{
    if m > 0 {
        lemma_height_descends(g, bs, p, m - 1);
        let q = m - 1;
        assert(edge(g, p[q], p[q + 1]));
        let k = choose|k: int| 0 <= k < g[p[q]].refs.len() && is_first(g, (#[trigger] g[p[q]].refs[k]).name@, p[q + 1]);
        assert(done(bs[p[q]]));
        assert(resolved_at(g, bs, p[q]));
        assert(is_first(g, g[p[q]].refs[k].name@, p[q + 1]));
        assert(g[p[q + 1]].refs.len() > 0);
    }
}

/// Where every builder is resolved, no walk along references closes.
proof fn lemma_no_cycle(g: Seq<Node>, bs: Seq<ErrorEnumBuilder>, p: Seq<int>)
    requires
        inv(g, bs),
        forall|i: int| 0 <= i < bs.len() ==> done(#[trigger] bs[i]),
    ensures
        !is_cycle(g, p),
{
    if is_cycle(g, p) {
        let last = p.len() - 1;
        // Every declaration on the walk references another one.
        assert forall|m: int| 0 <= m <= last implies (#[trigger] g[p[m]]).refs.len() > 0 by {
            if m < last {
                assert(edge(g, p[m], p[m + 1]));
            } else {
                assert(edge(g, p[0], p[1]));
            }
        }
        lemma_height_descends(g, bs, p, last);
        assert(bs[p[last]].height@ + last <= bs[p[0]].height@);
    }
}

proof fn lemma_first_exists(g: Seq<Node>, name: Seq<char>, j: int)
    requires
        0 <= j < g.len(),
        g[j].name == name,
    ensures
        is_first(g, name, target(g, name)),
    decreases j,
{
    if exists|k: int| 0 <= k < j && (#[trigger] g[k].name) == name {
        let k = choose|k: int| 0 <= k < j && (#[trigger] g[k].name) == name;
        lemma_first_exists(g, name, k);
    } else {
        assert(is_first(g, name, j));
    }
}

proof fn lemma_declared_first(g: Seq<Node>, name: Seq<char>)
    requires
        declared(g, name),
    ensures
        is_first(g, name, target(g, name)),
{
    let j = choose|j: int| 0 <= j < g.len() && (#[trigger] g[j].name) == name;
    lemma_first_exists(g, name, j);
}

/// A resolved builder stays resolved while the resolved builders stay as they are.
proof fn lemma_resolved_stable(g: Seq<Node>, bs1: Seq<ErrorEnumBuilder>, bs2: Seq<ErrorEnumBuilder>, j: int)
    requires
        bs1.len() == g.len(),
        bs2.len() == g.len(),
        0 <= j < g.len(),
        resolved_at(g, bs1, j),
        bs2[j].error_variants == bs1[j].error_variants,
        bs2[j].height == bs1[j].height,
        forall|q: int| 0 <= q < bs1.len() && done(#[trigger] bs1[q]) ==> bs2[q] == bs1[q],
    ensures
        resolved_at(g, bs2, j),
{
    let refs = g[j].refs;
    assert forall|k: int| 0 <= k < refs.len() implies variant_lists(bs1)[target(g, (#[trigger] refs[k]).name@)]
        == variant_lists(bs2)[target(g, refs[k].name@)] by {
        assert(declared(g, g[j].refs[k].name@));
        lemma_declared_first(g, refs[k].name@);
        let t = target(g, refs[k].name@);
        assert(is_first(g, g[j].refs[k].name@, t));
        assert(done(bs1[t]));
    }
    lemma_absorb_frame(g[j].inline, refs, g, variant_lists(bs1), variant_lists(bs2));
    assert forall|k: int, q: int|
        0 <= k < g[j].refs.len() && #[trigger] is_first(g, g[j].refs[k].name@, q) implies {
            &&& done(bs2[q])
            &&& g[j].refs[k].generic_refs@.len() == g[q].generics.len()
            &&& (g[q].refs.len() == 0 || bs2[q].height@ < bs2[j].height@)
        } by {
        assert(done(bs1[q]));
    }
}

/// An error that explains itself rules resolution out.
proof fn lemma_explained_invalid(g: Seq<Node>, e: Error)
    requires
        explains(g, e),
    ensures
        !valid(g),
{
    match e.kind {
        ErrorKind::Undeclared => {
            let (i, k) = choose|i: int, k: int|
                0 <= i < g.len() && 0 <= k < g[i].refs.len() && !declared(g, (#[trigger] g[i].refs[k]).name@)
                    && g[i].refs[k].at == e.at;
            assert(!declared(g, g[i].refs[k].name@));
        },
        ErrorKind::ArityMismatch { supplied, expected } => {
            let (i, k, j) = choose|i: int, k: int, j: int|
                #[trigger] arity_mismatch(g, i, k, j) && g[i].refs[k].generic_refs@.len() == supplied
                    && g[j].generics.len() == expected && g[i].refs[k].at == e.at;
            assert(arity_mismatch(g, i, k, j));
        },
        ErrorKind::Cycle(path) => {
            let p = choose|p: Seq<int>|
                #[trigger] is_cycle(g, p) && path@.len() == p.len() && forall|m: int|
                    0 <= m < p.len() ==> (#[trigger] path@[m])@ == g[p[m]].name;
            assert(is_cycle(g, p));
        },
        _ => {},
    }
}

/// The merge so far reads only resolved targets, which the step left alone.
proof fn lemma_absorb_step_frame(g: Seq<Node>, bs1: Seq<ErrorEnumBuilder>, bs2: Seq<ErrorEnumBuilder>, i: int, k: int)
    requires
        0 <= i < g.len(),
        0 <= k <= g[i].refs.len(),
        bs1.len() == g.len(),
        frame(bs1, bs2),
        forall|q: int| 0 <= q < k ==> declared(g, (#[trigger] g[i].refs[q]).name@),
        forall|q: int, j: int| 0 <= q < k && #[trigger] is_first(g, g[i].refs[q].name@, j) ==> done(bs1[j]),
    ensures
        absorb(g[i].inline, g[i].refs.take(k), g, variant_lists(bs1))
            == absorb(g[i].inline, g[i].refs.take(k), g, variant_lists(bs2)),
{
    let refs = g[i].refs.take(k);
    assert forall|q: int| 0 <= q < refs.len() implies variant_lists(bs1)[target(g, (#[trigger] refs[q]).name@)]
        == variant_lists(bs2)[target(g, refs[q].name@)] by {
        assert(refs[q] == g[i].refs[q]);
        lemma_declared_first(g, refs[q].name@);
        let t = target(g, refs[q].name@);
        assert(is_first(g, g[i].refs[q].name@, t));
        assert(done(bs1[t]));
    }
    lemma_absorb_frame(g[i].inline, refs, g, variant_lists(bs1), variant_lists(bs2));
}

// ---------------------------------------------------------------------------
// Executable parts.
/// Whether two variants take the same place in a declaration: they do when
/// their names are equal, whatever their fields.
pub fn does_occupy_the_same_space(this: &Variant, other: &Variant) -> (r: bool)
    ensures
        r == (this.name@ == other.name@),
{
    this.name == other.name
}

fn has_variant_named(vs: &Vec<Variant>, v: &Variant) -> (r: bool)
    ensures
        r == has_name(views(vs@), v.name@),
{
    let mut i: usize = 0;
    while i < vs.len()
        invariant
            i <= vs.len(),
            forall|k: int| 0 <= k < i ==> (#[trigger] vs@[k]).name@ != v.name@,
        decreases vs.len() - i,
    {
        if does_occupy_the_same_space(&vs[i], v) {
            assert(views(vs@)[i as int].name == v.name@);
            return true;
        }
        i = i + 1;
    }
    assert forall|k: int| 0 <= k < views(vs@).len() implies (#[trigger] views(vs@)[k]).name != v.name@ by {
        assert(vs@[k].name@ != v.name@);
    }
    false
}

/// Merges `add` into `dst`: first-declared wins, later duplicates are dropped.
pub fn merge_into(dst: &mut Vec<Variant>, add: &Vec<Variant>)
    ensures
        views(final(dst)@) == merge(views(old(dst)@), views(add@)),
{
    let ghost start = views(dst@);
    let mut i: usize = 0;
    while i < add.len()
        invariant
            i <= add.len(),
            start == views(old(dst)@),
            views(dst@) == merge(start, views(add@).take(i as int)),
        decreases add.len() - i,
    {
        let ghost before = views(dst@);
        assert(views(add@).take(i as int + 1).drop_last() =~= views(add@).take(i as int));
        assert(views(add@).take(i as int + 1).last() == add@[i as int]@);
        if !has_variant_named(dst, &add[i]) {
            dst.push(copy_variant(&add[i]));
            assert(views(dst@) =~= before.push(add@[i as int]@));
        }
        i = i + 1;
    }
    assert(views(add@).take(add.len() as int) =~= views(add@));
}

fn rename_type(ty: &String, params: &Vec<String>, args: &Vec<String>) -> (r: String)
    requires
        params.len() == args.len(),
    ensures
        r == subst_ty(*ty, params@, args@),
{
    let mut r = ty.clone();
    let mut j: usize = 0;
    while j < params.len()
        invariant
            j <= params.len(),
            params.len() == args.len(),
            r == subst_ty(*ty, params@.take(j as int), args@),
        decreases params.len() - j,
    {
        assert(params@.take(j as int + 1).drop_last() =~= params@.take(j as int));
        if *ty == params[j] {
            r = args[j].clone();
        }
        j = j + 1;
    }
    assert(params@.take(params.len() as int) =~= params@);
    r
}

/// A copy of `variants` where every field type and source type that is one of
/// the generic parameters `params` becomes the argument at its position.
pub fn substitute(variants: &Vec<Variant>, params: &Vec<String>, args: &Vec<String>) -> (r: Vec<Variant>)
    requires
        params.len() == args.len(),
    ensures
        views(r@) == subst_all(views(variants@), params@, args@),
{
    let mut r: Vec<Variant> = Vec::new();
    let mut i: usize = 0;
    while i < variants.len()
        invariant
            i <= variants.len(),
            params.len() == args.len(),
            views(r@) == subst_all(views(variants@), params@, args@).take(i as int),
        decreases variants.len() - i,
    {
        let v = &variants[i];
        let fields = match &v.fields {
            Some(fs) => {
                let mut nf: Vec<Field> = Vec::new();
                let mut k: usize = 0;
                while k < fs.len()
                    invariant
                        k <= fs.len(),
                        params.len() == args.len(),
                        nf@ == fs@.map_values(|f: Field| subst_field(f, params@, args@)).take(k as int),
                    decreases fs.len() - k,
                {
                    nf.push(Field { name: fs[k].name.clone(), ty: rename_type(&fs[k].ty, params, args) });
                    k = k + 1;
                    assert(nf@ =~= fs@.map_values(|f: Field| subst_field(f, params@, args@)).take(k as int));
                }
                assert(fs@.map_values(|f: Field| subst_field(f, params@, args@)).take(fs.len() as int)
                    =~= fs@.map_values(|f: Field| subst_field(f, params@, args@)));
                Some(nf)
            },
            None => None,
        };
        let nv = Variant {
            attributes: copy_attributes(&v.attributes),
            cfg_attributes: copy_attributes(&v.cfg_attributes),
            display: copy_opt_string(&v.display),
            name: v.name.clone(),
            fields,
            source_type: match &v.source_type {
                Some(t) => Some(rename_type(t, params, args)),
                None => None,
            },
            backtrace_type: copy_opt_string(&v.backtrace_type),
        };
        assert(nv@ == subst_variant(v@, params@, args@));
        assert(subst_all(views(variants@), params@, args@)[i as int] == subst_variant(v@, params@, args@));
        let ghost prev = r@;
        r.push(nv);
        assert(views(r@) =~= views(prev).push(nv@));
        i = i + 1;
        assert(views(r@) =~= subst_all(views(variants@), params@, args@).take(i as int));
    }
    assert(subst_all(views(variants@), params@, args@).take(variants.len() as int) =~= subst_all(views(variants@), params@, args@));
    r
}

fn copy_ref_part(r: &RefPart) -> (c: RefPart)
    ensures
        c.name == r.name,
        c.at == r.at,
        c.generic_refs@ == r.generic_refs@,
{
    RefPart { name: r.name.clone(), at: r.at, generic_refs: copy_strings(&r.generic_refs) }
}

/// Appends `n` in decimal digits.
fn append_decimal(s: &mut String, n: usize) {
    let mut digits: Vec<usize> = Vec::new();
    let mut m = n;
    loop
        decreases m,
    {
        digits.push(m % 10);
        m = m / 10;
        if m == 0 {
            break;
        }
    }
    let mut i = digits.len();
    while i > 0
        invariant
            i <= digits.len(),
        decreases i,
    {
        i = i - 1;
        let d = digits[i];
        let text = if d == 0 {
            "0"
        } else if d == 1 {
            "1"
        } else if d == 2 {
            "2"
        } else if d == 3 {
            "3"
        } else if d == 4 {
            "4"
        } else if d == 5 {
            "5"
        } else if d == 6 {
            "6"
        } else if d == 7 {
            "7"
        } else if d == 8 {
            "8"
        } else {
            "9"
        };
        s.append(text);
    }
}

fn arity_message(name: &String, supplied: usize, expected: usize) -> String {
    let mut m = String::from_str("A reference to ");
    m.append(name.as_str());
    m.append(" was declared with ");
    append_decimal(&mut m, supplied);
    m.append(" generic param(s), but its declaration takes ");
    append_decimal(&mut m, expected);
    m.append(".");
    m
}

fn find_builder(bs: &Vec<ErrorEnumBuilder>, name: &String, Ghost(g): Ghost<Seq<Node>>) -> (r: Option<usize>)
    requires
        bs.len() == g.len(),
        forall|i: int| 0 <= i < bs.len() ==> (#[trigger] bs@[i]).error_name@ == g[i].name,
    ensures
        match r {
            Some(j) => is_first(g, name@, j as int),
            None => !declared(g, name@),
        },
{
    let mut i: usize = 0;
    while i < bs.len()
        invariant
            i <= bs.len(),
            bs.len() == g.len(),
            forall|q: int| 0 <= q < bs.len() ==> (#[trigger] bs@[q]).error_name@ == g[q].name,
            forall|k: int| 0 <= k < i ==> (#[trigger] g[k].name) != name@,
        decreases bs.len() - i,
    {
        if bs[i].error_name == *name {
            return Some(i);
        }
        i = i + 1;
    }
    None
}

fn contains_index(st: &Vec<usize>, x: usize) -> (r: bool)
    ensures
        r == st@.contains(x),
{
    let mut i: usize = 0;
    while i < st.len()
        invariant
            i <= st.len(),
            forall|k: int| 0 <= k < i ==> st@[k] != x,
        decreases st.len() - i,
    {
        if st[i] == x {
            return true;
        }
        i = i + 1;
    }
    false
}

proof fn lemma_first_at(s: Seq<usize>, x: usize, pos: int)
    requires
        0 <= pos < s.len(),
        s[pos] == x,
        forall|k: int| 0 <= k < pos ==> s[k] != x,
    ensures
        first_at(s, x) == pos,
    decreases pos,
{
    if pos > 0 {
        lemma_first_at(s.skip(1), x, pos - 1);
    }
}

/// The error for a stack that reaches `index` again: the names from the first
/// visit of `index` on, and `index` once more.
fn cycle_error(index: usize, bs: &Vec<ErrorEnumBuilder>, visited: &Vec<usize>, Ghost(g): Ghost<Seq<Node>>) -> (e: Error)
    requires
        inv(g, bs@),
        index < bs.len(),
        stack_ok(g, bs@, visited@),
        visited@.contains(index),
        edge(g, visited@.last() as int, index as int),
    ensures
        explains(g, e),
        e.kind matches ErrorKind::Cycle(path) && path@.map_values(|n: String| n@) == cycle_path(g, visited@, index),
        e.at == bs@[index as int].name_at,
{
    let mut pos: usize = 0;
    while visited[pos] != index
        invariant
            pos < visited.len(),
            visited@.contains(index),
            forall|k: int| 0 <= k < pos ==> visited@[k] != index,
        decreases visited.len() - pos,
    {
        pos = pos + 1;
        if pos == visited.len() {
            let ghost w = choose|w: int| 0 <= w < visited.len() && visited@[w] == index;
            assert(false);
        }
    }
    let ghost full = visited@.push(index);
    let ghost p = full.subrange(pos as int, full.len() as int).map_values(|x: usize| x as int);
    let mut path: Vec<String> = Vec::new();
    let mut message = String::from_str("Cycle Detected: ");
    let mut m: usize = pos;
    while m < visited.len()
        invariant
            pos <= m <= visited.len(),
            inv(g, bs@),
            stack_ok(g, bs@, visited@),
            full == visited@.push(index),
            path@.len() == m - pos,
            forall|q: int| 0 <= q < path@.len() ==> (#[trigger] path@[q])@ == g[p[q]].name,
            p == full.subrange(pos as int, full.len() as int).map_values(|x: usize| x as int),
        decreases visited.len() - m,
    {
        let name = bs[visited[m]].error_name.clone();
        message.append(name.as_str());
        message.append("->");
        path.push(name);
        m = m + 1;
    }
    let last = bs[index].error_name.clone();
    message.append(last.as_str());
    path.push(last);
    proof {
        lemma_first_at(visited@, index, pos as int);
        assert(path@.map_values(|n: String| n@) =~= cycle_path(g, visited@, index));
        assert(visits_once(p)) by {
            assert forall|a: int, b: int| 0 <= a < b < p.len() - 1 implies p[a] != p[b] by {
                assert(visited@[pos + a] != visited@[pos + b]);
            }
        }
    }
    assert(is_cycle(g, p)) by {
        assert forall|q: int| 0 <= q < p.len() - 1 implies edge(g, #[trigger] p[q], p[q + 1]) by {
            if pos + q + 1 < visited.len() {
                assert(edge(g, visited@[pos + q] as int, visited@[pos + q + 1] as int));
            }
        }
    }
    Error { kind: ErrorKind::Cycle(path), at: bs[index].name_at, message }
}

fn resolve_builders_helper(
    index: usize,
    bs: &mut Vec<ErrorEnumBuilder>,
    visited: &mut Vec<usize>,
    Ghost(g): Ghost<Seq<Node>>,
) -> (r: Result<(), Error>)
    requires
        inv(g, old(bs)@),
        index < old(bs).len(),
        stack_ok(g, old(bs)@, old(visited)@),
        old(visited)@.len() > 0 ==> edge(g, old(visited)@.last() as int, index as int),
    ensures
        r is Ok ==> {
            &&& inv(g, final(bs)@)
            &&& frame(old(bs)@, final(bs)@)
            &&& done(final(bs)@[index as int])
            &&& final(visited)@ == old(visited)@
            &&& forall|m: int| 0 <= m < old(visited)@.len()
                ==> final(bs)@[#[trigger] old(visited)@[m] as int] == old(bs)@[old(visited)@[m] as int]
            &&& forall|j: int| 0 <= j < old(bs)@.len() && #[trigger] final(bs)@[j] != old(bs)@[j] ==> reaches(g, index as int, j)
        },
        r is Err ==> explains(g, r->Err_0),
        done(old(bs)@[index as int]) && !old(visited)@.contains(index) ==> r is Ok && final(bs)@ == old(bs)@,
        old(visited)@.contains(index) ==> (r matches Err(e) && e.kind matches ErrorKind::Cycle(path) && path@.map_values(
            |n: String| n@,
        ) == cycle_path(g, old(visited)@, index) && e.at == old(bs)@[index as int].name_at && final(bs)@ == old(bs)@
            && final(visited)@ == old(visited)@),
    decreases g.len() - old(visited)@.len(),
{
    if contains_index(visited, index) {
        return Err(cycle_error(index, bs, visited, Ghost(g)));
    }
    if bs[index].ref_parts_to_resolve.len() == 0 {
        return Ok(());
    }
    let ghost bs0 = bs@;
    let ghost st0 = visited@;
    assert(node_of(bs0[index as int]) == g[index as int]);
    let mut refs: Vec<RefPart> = Vec::new();
    let mut q: usize = 0;
    while q < bs[index].ref_parts_to_resolve.len()
        invariant
            bs@ == bs0,
            index < bs.len(),
            q <= bs0[index as int].ref_parts_to_resolve@.len(),
            refs@.len() == q,
            forall|k: int| 0 <= k < q ==> {
                &&& (#[trigger] refs@[k]).name == bs0[index as int].ref_parts_to_resolve@[k].name
                &&& refs@[k].at == bs0[index as int].ref_parts_to_resolve@[k].at
                &&& refs@[k].generic_refs@ == bs0[index as int].ref_parts_to_resolve@[k].generic_refs@
            },
        decreases bs0[index as int].ref_parts_to_resolve@.len() - q,
    {
        refs.push(copy_ref_part(&bs[index].ref_parts_to_resolve[q]));
        q = q + 1;
    }
    let mut cur = copy_variants(&bs[index].error_variants);
    assert(g[index as int].refs.take(0) =~= Seq::<RefPart>::empty());
    let ghost mut h: nat = 0;
    let mut k: usize = 0;
    while k < refs.len()
        invariant
            inv(g, bs@),
            frame(bs0, bs@),
            bs@[index as int] == bs0[index as int],
            !done(bs0[index as int]),
            node_of(bs0[index as int]) == g[index as int],
            index < bs.len(),
            visited@ == st0,
            !st0.contains(index),
            st0 == old(visited)@,
            bs0 == old(bs)@,
            stack_ok(g, bs@, st0),
            st0.len() > 0 ==> edge(g, st0.last() as int, index as int),
            forall|j: int| 0 <= j < bs0.len() && #[trigger] bs@[j] != bs0[j] ==> reaches(g, index as int, j),
            forall|m: int| 0 <= m < st0.len() ==> bs@[#[trigger] st0[m] as int] == bs0[st0[m] as int],
            k <= refs@.len(),
            refs@.len() == g[index as int].refs.len(),
            forall|q: int| 0 <= q < refs@.len() ==> {
                &&& (#[trigger] refs@[q]).name == g[index as int].refs[q].name
                &&& refs@[q].at == g[index as int].refs[q].at
                &&& refs@[q].generic_refs@ == g[index as int].refs[q].generic_refs@
            },
            views(cur@) == absorb(g[index as int].inline, g[index as int].refs.take(k as int), g, variant_lists(bs@)),
            forall|q: int| 0 <= q < k ==> declared(g, (#[trigger] g[index as int].refs[q]).name@),
            forall|q: int, j: int|
                0 <= q < k && #[trigger] is_first(g, g[index as int].refs[q].name@, j) ==> {
                    &&& done(bs@[j])
                    &&& g[index as int].refs[q].generic_refs@.len() == g[j].generics.len()
                    &&& (g[j].refs.len() == 0 || bs@[j].height@ <= h)
                },
        decreases refs.len() - k,
    {
        let t = match find_builder(bs, &refs[k].name, Ghost(g)) {
            Some(t) => t,
            None => {
                let e = Error {
                    kind: ErrorKind::Undeclared,
                    at: refs[k].at,
                    message: String::from_str("Not a declared error set."),
                };
                assert(!declared(g, g[index as int].refs[k as int].name@));
                return Err(e);
            },
        };
        let ghost gk = g[index as int].refs[k as int];
        assert(edge(g, index as int, t as int));
        if bs[t].ref_parts_to_resolve.len() > 0 {
            let ghost bs1 = bs@;
            visited.push(index);
            proof {
                assert(visited@.no_duplicates()) by {
                    assert forall|a: int, b: int| 0 <= a < visited@.len() && 0 <= b < visited@.len() && a != b
                        implies visited@[a] != visited@[b] by {
                        if a < st0.len() && b < st0.len() {
                        } else if a < st0.len() {
                            assert(st0[a] != index);
                        } else if b < st0.len() {
                            assert(st0[b] != index);
                        }
                    }
                }
                assert forall|m: int| 0 <= m < visited@.len() - 1 implies edge(g, #[trigger] visited@[m] as int, visited@[m + 1] as int) by {
                    if m < st0.len() - 1 {
                        assert(edge(g, st0[m] as int, st0[m + 1] as int));
                    }
                }
                assert forall|m: int| 0 <= m < visited@.len() implies (#[trigger] visited@[m]) < g.len() && !done(bs@[visited@[m] as int]) by {
                    if m < st0.len() {
                        assert(st0[m] < g.len());
                    }
                }
                lemma_stack_bound(visited@, g.len() as int);
            }
            match resolve_builders_helper(t, bs, visited, Ghost(g)) {
                Ok(()) => {},
                Err(e) => {
                    return Err(e);
                },
            }
            visited.pop();
            proof {
                assert(visited@ =~= st0);
                assert(bs@[index as int] == bs1[index as int]) by {
                    assert(st0.push(index)[st0.len() as int] == index);
                }
                assert forall|m: int| 0 <= m < st0.len() implies bs@[#[trigger] st0[m] as int] == bs0[st0[m] as int] by {
                    assert(st0.push(index)[m] == st0[m]);
                }
                assert(frame(bs0, bs@)) by {
                    assert forall|j: int| 0 <= j < bs0.len() implies {
                        ||| #[trigger] bs@[j] == bs0[j]
                        ||| (!done(bs0[j]) && done(bs@[j]) && same_header(bs0[j], bs@[j]))
                    } by {
                        assert(frame(bs1, bs@));
                        if bs@[j] != bs1[j] {
                            assert(!done(bs1[j]));
                        }
                    }
                }
                lemma_absorb_step_frame(g, bs1, bs@, index as int, k as int);
                assert forall|j: int| 0 <= j < bs0.len() && #[trigger] bs@[j] != bs0[j] implies reaches(g, index as int, j) by {
                    if bs@[j] != bs1[j] {
                        lemma_reach_step(g, index as int, t as int, j);
                    }
                }
            }
        }
        proof {
            lemma_target(g, gk.name@, t as int);
        }
        if refs[k].generic_refs.len() != bs[t].generics.len() {
            let e = Error {
                kind: ErrorKind::ArityMismatch { supplied: refs[k].generic_refs.len(), expected: bs[t].generics.len() },
                at: refs[k].at,
                message: arity_message(&refs[k].name, refs[k].generic_refs.len(), bs[t].generics.len()),
            };
            assert(arity_mismatch(g, index as int, k as int, t as int));
            return Err(e);
        }
        let renamed = substitute(&bs[t].error_variants, &bs[t].generics, &refs[k].generic_refs);
        let ghost before = views(cur@);
        merge_into(&mut cur, &renamed);
        proof {
            let refs_g = g[index as int].refs;
            assert(refs_g.take(k as int + 1).drop_last() =~= refs_g.take(k as int));
            assert(refs_g.take(k as int + 1).last() == gk);
            assert(variant_lists(bs@)[t as int] == views(bs@[t as int].error_variants@));
            if g[t as int].refs.len() > 0 && bs@[t as int].height@ > h {
                h = bs@[t as int].height@;
            }
            assert forall|q: int, j: int|
                0 <= q <= k && #[trigger] is_first(g, g[index as int].refs[q].name@, j) implies {
                    &&& done(bs@[j])
                    &&& g[index as int].refs[q].generic_refs@.len() == g[j].generics.len()
                    &&& (g[j].refs.len() == 0 || bs@[j].height@ <= h)
                } by {
                if q == k {
                    lemma_target(g, gk.name@, j);
                }
            }
        }
        k = k + 1;
    }
    let ghost bs2 = bs@;
    let ob = bs.remove(index);
    let nb = ErrorEnumBuilder {
        attributes: ob.attributes,
        error_name: ob.error_name,
        name_at: ob.name_at,
        generics: ob.generics,
        disabled: ob.disabled,
        error_variants: cur,
        ref_parts_to_resolve: Vec::new(),
        height: Ghost(h + 1),
    };
    bs.insert(index, nb);
    proof {
        assert(bs@ =~= bs2.update(index as int, nb));
        assert(g[index as int].refs.take(refs.len() as int) =~= g[index as int].refs);
        // The targets are resolved, so none of them is `index`.
        assert forall|q: int| 0 <= q < bs2.len() && done(#[trigger] bs2[q]) implies bs@[q] == bs2[q] by {
            if q == index {
                assert(!done(bs2[q]));
            }
        }
        assert(resolved_at(g, bs@, index as int)) by {
            let refs_g = g[index as int].refs;
            assert forall|q: int| 0 <= q < refs_g.len() implies variant_lists(bs2)[target(g, (#[trigger] refs_g[q]).name@)]
                == variant_lists(bs@)[target(g, refs_g[q].name@)] by {
                lemma_declared_first(g, refs_g[q].name@);
                let t = target(g, refs_g[q].name@);
                assert(is_first(g, g[index as int].refs[q].name@, t));
                assert(done(bs2[t]));
            }
            lemma_absorb_frame(g[index as int].inline, refs_g, g, variant_lists(bs2), variant_lists(bs@));
            assert forall|q: int, j: int|
                0 <= q < refs_g.len() && #[trigger] is_first(g, g[index as int].refs[q].name@, j) implies {
                    &&& done(bs@[j])
                    &&& g[index as int].refs[q].generic_refs@.len() == g[j].generics.len()
                    &&& (g[j].refs.len() == 0 || bs@[j].height@ < bs@[index as int].height@)
                } by {
                assert(done(bs2[j]));
            }
        }
        assert forall|i: int| 0 <= i < bs@.len() && done(#[trigger] bs@[i]) implies resolved_at(g, bs@, i) by {
            if i != index {
                lemma_resolved_stable(g, bs2, bs@, i);
            }
        }
        assert(frame(bs0, bs@)) by {
            assert forall|j: int| 0 <= j < bs0.len() implies {
                ||| #[trigger] bs@[j] == bs0[j]
                ||| (!done(bs0[j]) && done(bs@[j]) && same_header(bs0[j], bs@[j]))
            } by {
                if j != index {
                    assert(bs@[j] == bs2[j]);
                }
            }
        }
        assert forall|m: int| 0 <= m < st0.len() implies bs@[#[trigger] st0[m] as int] == bs0[st0[m] as int] by {
            assert(st0[m] != index);
        }
        lemma_reach_self(g, index as int);
        assert forall|j: int| 0 <= j < bs0.len() && #[trigger] bs@[j] != bs0[j] implies reaches(g, index as int, j) by {
            if j != index {
                assert(bs@[j] == bs2[j]);
            }
        }
    }
    Ok(())
}

/// A declaration with every reference resolved: its variants are all its own.
#[derive(Debug)]
pub struct ErrorEnum {
    pub attributes: Vec<Attribute>,
    pub error_name: String,
    pub generics: Vec<String>,
    pub disabled: Disabled,
    pub error_variants: Vec<Variant>,
}

pub open spec fn enum_lists(es: Seq<ErrorEnum>) -> Seq<Seq<VariantView>> {
    es.map_values(|e: ErrorEnum| views(e.error_variants@))
}

impl ErrorEnumBuilder {
    pub fn new(error_name: String, name_at: usize, attributes: Vec<Attribute>, generics: Vec<String>, disabled: Disabled) -> (r: Self)
        ensures
            r.error_name == error_name,
            r.name_at == name_at,
            r.attributes == attributes,
            r.generics == generics,
            r.disabled == disabled,
            r.error_variants@.len() == 0,
            r.ref_parts_to_resolve@.len() == 0,
    {
        ErrorEnumBuilder {
            attributes,
            error_name,
            name_at,
            generics,
            disabled,
            error_variants: Vec::new(),
            ref_parts_to_resolve: Vec::new(),
            height: Ghost(0),
        }
    }

    pub fn add_ref_part(&mut self, ref_part: RefPart)
        ensures
            final(self).ref_parts_to_resolve@ == old(self).ref_parts_to_resolve@.push(ref_part),
            final(self).error_variants == old(self).error_variants,
            same_header(*old(self), *final(self)),
    {
        self.ref_parts_to_resolve.push(ref_part);
    }
}

/// Two builders are the same declaration when their names are equal.
impl PartialEq for ErrorEnumBuilder {
    fn eq(&self, other: &ErrorEnumBuilder) -> (r: bool) {
        self.error_name == other.error_name
    }
}

impl vstd::std_specs::cmp::PartialEqSpecImpl for ErrorEnumBuilder {
    open spec fn obeys_eq_spec() -> bool {
        true
    }

    open spec fn eq_spec(&self, other: &ErrorEnumBuilder) -> bool {
        self.error_name@ == other.error_name@
    }
}

impl Eq for ErrorEnumBuilder {
}

impl ErrorEnum {
    /// The resolved declaration that a builder with no references left stands for.
    pub fn from_builder(value: ErrorEnumBuilder) -> (r: ErrorEnum)
        requires
            done(value),
        ensures
            r.attributes == value.attributes,
            r.error_name == value.error_name,
            r.generics == value.generics,
            r.disabled == value.disabled,
            r.error_variants == value.error_variants,
    {
        ErrorEnum {
            attributes: value.attributes,
            error_name: value.error_name,
            generics: value.generics,
            disabled: value.disabled,
            error_variants: value.error_variants,
        }
    }
}

/// Resolves every builder: `Ok` exactly when the declarations can be resolved,
/// and then each declaration holds its own inline variants followed by the
/// variants its references bring, first-declared name first.
pub fn resolve_builders(error_enum_builders: Vec<ErrorEnumBuilder>) -> (r: Result<Vec<ErrorEnum>, Error>)
    ensures
        r is Ok <==> valid(nodes(error_enum_builders@)),
        r matches Ok(out) ==> {
            &&& out@.len() == error_enum_builders@.len()
            &&& is_resolution(nodes(error_enum_builders@), enum_lists(out@))
            &&& forall|i: int| 0 <= i < out@.len() ==> {
                &&& (#[trigger] out@[i]).error_name == error_enum_builders@[i].error_name
                &&& out@[i].generics == error_enum_builders@[i].generics
                &&& out@[i].attributes == error_enum_builders@[i].attributes
                &&& out@[i].disabled == error_enum_builders@[i].disabled
            }
        },
        r matches Err(e) ==> explains(nodes(error_enum_builders@), e),
        (forall|i: int| 0 <= i < error_enum_builders@.len() ==> done(#[trigger] error_enum_builders@[i]))
            ==> (r matches Ok(out) && enum_lists(out@) == variant_lists(error_enum_builders@)),
{
    let ghost g = nodes(error_enum_builders@);
    let ghost bs0 = error_enum_builders@;
    let mut bs = error_enum_builders;
    proof {
        assert forall|i: int| 0 <= i < bs@.len() && done(#[trigger] bs@[i]) implies resolved_at(g, bs@, i) by {
            assert(g[i] == node_of(bs@[i]));
            assert(variant_lists(bs@)[i] == views(bs@[i].error_variants@));
        }
    }
    let mut index: usize = 0;
    while index < bs.len()
        invariant
            g == nodes(bs0),
            bs0 == error_enum_builders@,
            inv(g, bs@),
            frame(bs0, bs@),
            index <= bs.len(),
            forall|i: int| 0 <= i < index ==> done(#[trigger] bs@[i]),
        decreases bs.len() - index,
    {
        if bs[index].ref_parts_to_resolve.len() > 0 {
            let ghost before = bs@;
            let mut visited: Vec<usize> = Vec::new();
            match resolve_builders_helper(index, &mut bs, &mut visited, Ghost(g)) {
                Ok(()) => {},
                Err(e) => {
                    proof {
                        lemma_explained_invalid(g, e);
                    }
                    return Err(e);
                },
            }
            proof {
                assert forall|j: int| 0 <= j < bs0.len() implies {
                    ||| #[trigger] bs@[j] == bs0[j]
                    ||| (!done(bs0[j]) && done(bs@[j]) && same_header(bs0[j], bs@[j]))
                } by {
                    if bs@[j] != before[j] {
                        assert(!done(before[j]));
                    }
                }
                assert forall|i: int| 0 <= i <= index implies done(#[trigger] bs@[i]) by {
                    if i < index {
                        assert(done(before[i]));
                    }
                }
            }
        }
        index = index + 1;
    }
    let ghost fin = bs@;
    proof {
        assert(all_declared(g)) by {
            assert forall|i: int, k: int| 0 <= i < g.len() && 0 <= k < g[i].refs.len()
                implies declared(g, (#[trigger] g[i].refs[k]).name@) by {
                assert(done(fin[i]));
                assert(resolved_at(g, fin, i));
            }
        }
        assert(arities_match(g)) by {
            assert forall|i: int, k: int, j: int| !#[trigger] arity_mismatch(g, i, k, j) by {
                if arity_mismatch(g, i, k, j) {
                    assert(done(fin[i]));
                    assert(resolved_at(g, fin, i));
                    assert(is_first(g, g[i].refs[k].name@, j));
                }
            }
        }
        assert(acyclic(g)) by {
            assert forall|p: Seq<int>| !#[trigger] is_cycle(g, p) by {
                lemma_no_cycle(g, fin, p);
            }
        }
    }
    let mut out: Vec<ErrorEnum> = Vec::new();
    while bs.len() > 0
        invariant
            bs@ == fin.skip(out@.len() as int),
            out@.len() <= fin.len(),
            forall|i: int| 0 <= i < fin.len() ==> done(#[trigger] fin[i]),
            forall|i: int| 0 <= i < out@.len() ==> {
                &&& (#[trigger] out@[i]).error_name == fin[i].error_name
                &&& out@[i].generics == fin[i].generics
                &&& out@[i].attributes == fin[i].attributes
                &&& out@[i].disabled == fin[i].disabled
                &&& out@[i].error_variants == fin[i].error_variants
            },
        decreases bs.len(),
    {
        let b = bs.remove(0);
        assert(b == fin[out@.len() as int]);
        out.push(ErrorEnum::from_builder(b));
        assert(bs@ =~= fin.skip(out@.len() as int));
    }
    proof {
        assert(out@.len() == fin.len());
        assert(enum_lists(out@) =~= variant_lists(fin));
        assert forall|i: int| 0 <= i < g.len() implies #[trigger] enum_lists(out@)[i] == absorb(g[i].inline, g[i].refs, g, enum_lists(out@)) by {
            assert(done(fin[i]));
            assert(resolved_at(g, fin, i));
        }
        assert forall|i: int| 0 <= i < out@.len() implies {
            &&& (#[trigger] out@[i]).error_name == bs0[i].error_name
            &&& out@[i].generics == bs0[i].generics
            &&& out@[i].attributes == bs0[i].attributes
            &&& out@[i].disabled == bs0[i].disabled
        } by {
            if fin[i] != bs0[i] {
                assert(same_header(bs0[i], fin[i]));
            }
        }
        if forall|i: int| 0 <= i < bs0.len() ==> done(#[trigger] bs0[i]) {
            assert(variant_lists(fin) =~= variant_lists(bs0)) by {
                assert forall|i: int| 0 <= i < bs0.len() implies variant_lists(fin)[i] == variant_lists(bs0)[i] by {
                    assert(done(bs0[i]));
                }
            }
        }
    }
    Ok(out)
}

// ---------------------------------------------------------------------------
// From the syntax tree.
/// The variants of the inline parts, in order.
pub open spec fn inline_of(parts: Seq<Part>) -> Seq<VariantView>
    decreases parts.len(),
{
    if parts.len() == 0 {
        Seq::empty()
    } else {
        match parts[0] {
            Part::Inline(vs) => views(vs@) + inline_of(parts.skip(1)),
            Part::Ref(_) => inline_of(parts.skip(1)),
        }
    }
}

/// The reference parts, in order.
pub open spec fn refs_of(parts: Seq<Part>) -> Seq<RefPart>
    decreases parts.len(),
{
    if parts.len() == 0 {
        Seq::empty()
    } else {
        match parts[0] {
            Part::Inline(_) => refs_of(parts.skip(1)),
            Part::Ref(r) => seq![r] + refs_of(parts.skip(1)),
        }
    }
}

pub open spec fn decl_node(d: Declaration) -> Node {
    Node { name: d.name@, generics: d.generics@, inline: inline_of(d.parts@), refs: refs_of(d.parts@) }
}

pub open spec fn decl_nodes(ds: Seq<Declaration>) -> Seq<Node> {
    ds.map_values(|d: Declaration| decl_node(d))
}

/// The names of all reference parts, declaration by declaration, in order.
pub open spec fn ref_names(g: Seq<Node>) -> Seq<Seq<char>>
    decreases g.len(),
{
    if g.len() == 0 {
        Seq::empty()
    } else {
        ref_names(g.drop_last()) + g.last().refs.map_values(|r: RefPart| r.name@)
    }
}

fn builder_of(declaration: Declaration) -> (b: ErrorEnumBuilder)
    ensures
        node_of(b) == decl_node(declaration),
        b.error_name == declaration.name,
        b.name_at == declaration.name_at,
        b.generics == declaration.generics,
        b.attributes == declaration.attributes,
        b.disabled == declaration.disabled,
{
    let Declaration { attributes, name, name_at, generics, disabled, parts } = declaration;
    let ghost all = parts@;
    let mut b = ErrorEnumBuilder::new(name, name_at, attributes, generics, disabled);
    let mut parts = parts;
    while parts.len() > 0
        invariant
            views(b.error_variants@) + inline_of(parts@) == inline_of(all),
            b.ref_parts_to_resolve@ + refs_of(parts@) == refs_of(all),
            b.error_name == declaration.name,
            b.name_at == declaration.name_at,
            b.generics == declaration.generics,
            b.attributes == declaration.attributes,
            b.disabled == declaration.disabled,
        decreases parts.len(),
    {
        let ghost before = parts@;
        let part = parts.remove(0);
        assert(parts@ =~= before.skip(1));
        match part {
            Part::Inline(vs) => {
                let ghost prev = b.error_variants@;
                let mut vs = vs;
                b.error_variants.append(&mut vs);
                assert(views(b.error_variants@) =~= views(prev) + views(before[0]->Inline_0@));
                assert(views(b.error_variants@) + inline_of(parts@) =~= views(prev) + inline_of(before));
                assert(b.ref_parts_to_resolve@ + refs_of(parts@) == b.ref_parts_to_resolve@ + refs_of(before));
            },
            Part::Ref(r) => {
                let ghost prev = b.ref_parts_to_resolve@;
                b.add_ref_part(r);
                assert(b.ref_parts_to_resolve@ + refs_of(parts@) =~= prev + refs_of(before));
            },
        }
    }
    assert(views(b.error_variants@) =~= inline_of(all));
    assert(b.ref_parts_to_resolve@ =~= refs_of(all));
    b
}

/// Resolves a parsed set: `Ok` exactly when its declarations can be resolved,
/// with each declaration fully expanded and the names of all reference parts
/// in the order they were written.
pub fn resolve(error_set: ErrorSet) -> (r: Result<(Vec<ErrorEnum>, Vec<String>), Error>)
    ensures
        r is Ok <==> valid(decl_nodes(error_set.declarations@)),
        r matches Ok((out, names)) ==> {
            &&& out@.len() == error_set.declarations@.len()
            &&& is_resolution(decl_nodes(error_set.declarations@), enum_lists(out@))
            &&& forall|i: int| 0 <= i < out@.len() ==> {
                &&& (#[trigger] out@[i]).error_name == error_set.declarations@[i].name
                &&& out@[i].generics == error_set.declarations@[i].generics
                &&& out@[i].attributes == error_set.declarations@[i].attributes
                &&& out@[i].disabled == error_set.declarations@[i].disabled
            }
            &&& names@.map_values(|s: String| s@) == ref_names(decl_nodes(error_set.declarations@))
        },
        r matches Err(e) ==> explains(decl_nodes(error_set.declarations@), e),
{
    let ghost ds = error_set.declarations@;
    let mut decls = error_set.declarations;
    let mut builders: Vec<ErrorEnumBuilder> = Vec::new();
    let mut names: Vec<String> = Vec::new();
    while decls.len() > 0
        invariant
            ds == error_set.declarations@,
            builders@.len() + decls@.len() == ds.len(),
            decls@ == ds.skip(builders@.len() as int),
            nodes(builders@) == decl_nodes(ds).take(builders@.len() as int),
            forall|i: int| 0 <= i < builders@.len() ==> {
                &&& (#[trigger] builders@[i]).error_name == ds[i].name
                &&& builders@[i].generics == ds[i].generics
                &&& builders@[i].attributes == ds[i].attributes
                &&& builders@[i].disabled == ds[i].disabled
            },
            names@.map_values(|s: String| s@) == ref_names(nodes(builders@)),
        decreases decls.len(),
    {
        let d = decls.remove(0);
        assert(d == ds[builders@.len() as int]);
        let b = builder_of(d);
        let ghost prev_names = names@;
        let mut q: usize = 0;
        while q < b.ref_parts_to_resolve.len()
            invariant
                q <= b.ref_parts_to_resolve@.len(),
                names@ == prev_names + b.ref_parts_to_resolve@.take(q as int).map_values(|r: RefPart| r.name),
            decreases b.ref_parts_to_resolve@.len() - q,
        {
            names.push(b.ref_parts_to_resolve[q].name.clone());
            q = q + 1;
            assert(names@ =~= prev_names + b.ref_parts_to_resolve@.take(q as int).map_values(|r: RefPart| r.name));
        }
        let ghost prev_builders = builders@;
        builders.push(b);
        proof {
            assert(b.ref_parts_to_resolve@.take(q as int) =~= b.ref_parts_to_resolve@);
            assert(nodes(builders@) =~= nodes(prev_builders).push(node_of(b)));
            assert(nodes(builders@).drop_last() =~= nodes(prev_builders));
            assert(names@.map_values(|s: String| s@) =~= ref_names(nodes(builders@)));
            assert(nodes(builders@) =~= decl_nodes(ds).take(builders@.len() as int));
        }
        assert(decls@ =~= ds.skip(builders@.len() as int));
    }
    assert(nodes(builders@) =~= decl_nodes(ds));
    let ghost bs = builders@;
    match resolve_builders(builders) {
        Ok(out) => {
            Ok((out, names))
        },
        Err(e) => Err(e),
    }
}

/// `r` is what resolving the declarations `g` gives: `Ok` exactly when they can
/// be resolved, then their resolution; otherwise an error they explain.
pub open spec fn outcome_for(g: Seq<Node>, r: Result<(Vec<ErrorEnum>, Vec<String>), Error>) -> bool {
    &&& (r is Ok <==> valid(g))
    &&& (r matches Ok((out, names)) ==> is_resolution(g, enum_lists(out@)) && names@.map_values(|s: String| s@)
        == ref_names(g))
    &&& (r matches Err(e) ==> explains(g, e))
}

/// Parses `src` and resolves what it declares: the fully expanded declarations
/// and the names of all reference parts, or the first error.
pub fn resolve_source(src: &str) -> (r: Result<(Vec<ErrorEnum>, Vec<String>), Error>)
    ensures
        r matches Ok((out, names)) ==> exists|set: ErrorSet| {
            &&& wf_set(set)
            &&& valid(decl_nodes(set.declarations@))
            &&& is_resolution(decl_nodes(set.declarations@), enum_lists(out@))
            &&& names@.map_values(|s: String| s@) == ref_names(decl_nodes(set.declarations@))
        },
        r matches Err(e) ==> parse_error(e) || exists|set: ErrorSet|
            wf_set(set) && !valid(decl_nodes(set.declarations@)) && explains(decl_nodes(set.declarations@), e),
        crate::lexer::tokens(src@) is None ==> lexing_failed(src@, r),
        crate::lexer::tokens(src@) matches Some(ts) ==> exists|cx: Ctx, set: ErrorSet|
            #![trigger tokens_of(&cx, src@), decl_nodes(set.declarations@)]
            cx.toks@ == ts && tokens_of(&cx, src@) && (plain_set(&cx, 0) matches Some(ds) ==> (set_is(&cx, ds, set)
                && outcome_for(decl_nodes(set.declarations@), r))),
{
    let chars = crate::lexer::chars_of(src);
    let toks = crate::lexer::lex(&chars)?;
    let cx = Ctx { src: String::from_str(src), chars, toks };
    assert(tokens_of(&cx, src@));
    let set = match crate::parser::parse_tokens(&cx) {
        Ok(set) => set,
        Err(e) => {
            proof {
                let w: ErrorSet = vstd::pervasive::arbitrary();
                assert(plain_set(&cx, 0) is None);
                assert(tokens_of(&cx, src@) && decl_nodes(w.declarations@) == decl_nodes(w.declarations@));
            }
            return Err(e);
        },
    };
    let ghost parsed = set;
    let r = resolve(set);
    proof {
        if r is Err {
            lemma_explained_invalid(decl_nodes(parsed.declarations@), r->Err_0);
        }
        assert(tokens_of(&cx, src@) && decl_nodes(parsed.declarations@) == decl_nodes(parsed.declarations@));
    }
    r
}

} // verus!
