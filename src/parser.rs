//! The grammar of an error-set description, over the tokens of its text.
//!
//! ```text
//! ErrorSet      := (Declaration ';')*
//! Declaration   := Attribute* Ident Generics? '=' Part ('||' Part)*
//! Generics      := '<' Ident (',' Ident)* ','? '>'
//! Part          := '{' Variant (',' Variant)* ','? '}' | Ident Generics?
//! Variant       := Attribute* Ident ('(' TypePath (',' TypePath)? ')')? ('{' Fields '}')?
//! Fields        := (Ident ':' Type (',' Ident ':' Type)* ','?)?
//! ```
use vstd::prelude::*;

use crate::ast::{Attribute, Declaration, Disabled, ErrorSet, Field, Part, RefPart, Variant};
use crate::error::{Error, ErrorKind};
use crate::lexer::{
    chars_of, covered, tokens, is_ident_continue, is_ident_start, is_space, lex, lexed_ok, skipped, unterminated, Token, TokenKind,
};

verus! {

/// The text being parsed, its characters and its tokens.
pub struct Ctx {
    pub src: String,
    pub chars: Vec<char>,
    pub toks: Vec<Token>,
}

pub open spec fn ctx_ok(cx: &Ctx) -> bool {
    cx.src@ == cx.chars@ && lexed_ok(cx.chars@, cx.toks@)
}

// ---------------------------------------------------------------------------
// Attributes and the rules that pick some of them out.
/// The attribute has the list form `w(...)`.
pub open spec fn is_named(a: Attribute, w: Seq<char>) -> bool {
    a.name matches Some(n) && n@ == w && a.args is Some
}

/// The attributes of `s` that are (`want`) or are not (`!want`) named `w`, in order.
pub open spec fn split_spec(s: Seq<Attribute>, w: Seq<char>, want: bool) -> Seq<Attribute>
    decreases s.len(),
{
    if s.len() == 0 {
        Seq::empty()
    } else if is_named(s[0], w) == want {
        seq![s[0]] + split_spec(s.skip(1), w, want)
    } else {
        split_spec(s.skip(1), w, want)
    }
}

fn named(a: &Attribute, w: &str) -> (r: bool)
    ensures
        r == is_named(*a, w@),
{
    match (&a.name, &a.args) {
        (Some(n), Some(_)) => *n == String::from_str(w),
        _ => false,
    }
}

/// Parts the attributes into those not named `w` and those named `w`, each in order.
pub fn split_named(attributes: Vec<Attribute>, w: &str) -> (r: (Vec<Attribute>, Vec<Attribute>))
    ensures
        r.0@ == split_spec(attributes@, w@, false),
        r.1@ == split_spec(attributes@, w@, true),
{
    let ghost all = attributes@;
    let mut rest = attributes;
    let mut kept: Vec<Attribute> = Vec::new();
    let mut taken: Vec<Attribute> = Vec::new();
    while rest.len() > 0
        invariant
            kept@ + split_spec(rest@, w@, false) == split_spec(all, w@, false),
            taken@ + split_spec(rest@, w@, true) == split_spec(all, w@, true),
        decreases rest.len(),
    {
        let ghost before = rest@;
        let a = rest.remove(0);
        assert(rest@ =~= before.skip(1));
        if named(&a, w) {
            let ghost k0 = kept@;
            let ghost t0 = taken@;
            taken.push(a);
            assert(taken@ + split_spec(rest@, w@, true) =~= t0 + split_spec(before, w@, true));
            assert(k0 + split_spec(rest@, w@, false) == k0 + split_spec(before, w@, false));
        } else {
            let ghost k0 = kept@;
            let ghost t0 = taken@;
            kept.push(a);
            assert(kept@ + split_spec(rest@, w@, false) =~= k0 + split_spec(before, w@, false));
            assert(t0 + split_spec(rest@, w@, true) == t0 + split_spec(before, w@, true));
        }
    }
    assert(kept@ =~= split_spec(all, w@, false));
    assert(taken@ =~= split_spec(all, w@, true));
    (kept, taken)
}

proof fn lemma_split_named(s: Seq<Attribute>, w: Seq<char>, want: bool)
    ensures
        forall|k: int| 0 <= k < split_spec(s, w, want).len() ==> is_named(#[trigger] split_spec(s, w, want)[k], w) == want
            && s.contains(split_spec(s, w, want)[k]),
    decreases s.len(),
{
    if s.len() > 0 {
        lemma_split_named(s.skip(1), w, want);
        let t = split_spec(s.skip(1), w, want);
        assert forall|k: int| 0 <= k < split_spec(s, w, want).len() implies is_named(#[trigger] split_spec(s, w, want)[k], w)
            == want && s.contains(split_spec(s, w, want)[k]) by {
            if is_named(s[0], w) == want {
                if k > 0 {
                    assert(split_spec(s, w, want)[k] == t[k - 1]);
                    let m = choose|m: int| 0 <= m < s.skip(1).len() && s.skip(1)[m] == t[k - 1];
                    assert(s[m + 1] == t[k - 1]);
                } else {
                    assert(split_spec(s, w, want)[0] == s[0]);
                }
            } else {
                assert(split_spec(s, w, want)[k] == t[k]);
                let m = choose|m: int| 0 <= m < s.skip(1).len() && s.skip(1)[m] == t[k];
                assert(s[m + 1] == t[k]);
            }
        }
    }
}

/// Splits off the build-configuration attributes `cfg(...)`: the others, then those.
pub fn extract_cfg(attributes: Vec<Attribute>) -> (r: (Vec<Attribute>, Vec<Attribute>))
    ensures
        r.0@ == split_spec(attributes@, "cfg"@, false),
        r.1@ == split_spec(attributes@, "cfg"@, true),
{
    split_named(attributes, "cfg")
}

/// Takes the `display(...)` attribute out of the list: none gives `None`, one
/// gives its arguments, more than one is an error at the first.
pub fn extract_display_attribute(attributes: &mut Vec<Attribute>) -> (r: Result<Option<String>, Error>)
    ensures
        r is Err <==> split_spec(old(attributes)@, "display"@, true).len() >= 2,
        r matches Err(e) ==> e.kind is DuplicateDisplay,
        r matches Ok(None) ==> split_spec(old(attributes)@, "display"@, true).len() == 0,
        r matches Ok(Some(d)) ==> split_spec(old(attributes)@, "display"@, true).len() == 1
            && split_spec(old(attributes)@, "display"@, true)[0].args == Some(d),
        r is Ok ==> final(attributes)@ == split_spec(old(attributes)@, "display"@, false),
{
    let mut all: Vec<Attribute> = Vec::new();
    std::mem::swap(attributes, &mut all);
    let (rest, mut displays) = split_named(all, "display");
    *attributes = rest;
    if displays.len() == 0 {
        return Ok(None);
    }
    if displays.len() > 1 {
        return Err(Error {
            kind: ErrorKind::DuplicateDisplay,
            at: displays[0].at,
            message: String::from_str("More than one `display` attribute found"),
        });
    }
    proof {
        lemma_split_named(old(attributes)@, "display"@, true);
        assert(is_named(displays@[0], "display"@));
    }
    let d = displays.remove(0);
    match d.args {
        Some(args) => Ok(Some(args)),
        None => Ok(None),
    }
}

impl Disabled {
    /// A later `disable(...)` replaces an earlier one whole.
    pub fn merge(&mut self, other: Disabled)
        ensures
            *final(self) == other,
    {
        *self = other;
    }
}

impl Default for Disabled {
    fn default() -> (r: Disabled)
        ensures
            r.from is None,
            !r.display && !r.debug && !r.error,
    {
        Disabled { from: None, display: false, debug: false, error: false }
    }
}

/// Token `k` lies before `end` and is the punctuation mark `c`.
pub open spec fn is_punct(toks: Seq<Token>, k: int, end: int, c: char) -> bool {
    0 <= k < end && k < toks.len() && toks[k].kind == TokenKind::Punct(c)
}

/// Token `k` lies before `end` and is an identifier.
pub open spec fn is_ident_tok(toks: Seq<Token>, k: int, end: int) -> bool {
    0 <= k < end && k < toks.len() && toks[k].kind is Ident
}

/// The source text of token `k`.
pub open spec fn tok_text(cx: &Ctx, k: int) -> Seq<char> {
    cx.chars@.subrange(cx.toks@[k].start as int, cx.toks@[k].end as int)
}

/// After a `<` at `q - 1`: the positions of the parameter names up to the
/// closing `>`, and the position after it; `None` if the list is malformed.
pub open spec fn generic_names(toks: Seq<Token>, q: int, end: int) -> Option<(Seq<int>, int)>
    decreases end - q,
{
    if q < 0 || q >= end {
        None
    } else if is_punct(toks, q, end, '>') {
        Some((Seq::empty(), q + 1))
    } else if is_ident_tok(toks, q, end) {
        if is_punct(toks, q + 1, end, ',') {
            match generic_names(toks, q + 2, end) {
                Some((ns, e)) => Some((seq![q] + ns, e)),
                None => None,
            }
        } else if is_punct(toks, q + 1, end, '>') {
            Some((seq![q], q + 2))
        } else {
            None
        }
    } else {
        None
    }
}

/// `<A, B>` at `p`: the positions of its names and the position after it;
/// no `<` is an empty list that takes no tokens.
pub open spec fn generics_at(toks: Seq<Token>, p: int, end: int) -> Option<(Seq<int>, int)> {
    if is_punct(toks, p, end, '<') {
        generic_names(toks, p + 1, end)
    } else {
        Some((Seq::empty(), p))
    }
}

/// The names `g` are the texts of the tokens at `ns`.
pub open spec fn texts_at(cx: &Ctx, g: Seq<String>, ns: Seq<int>) -> bool {
    g.len() == ns.len() && forall|k: int| 0 <= k < g.len() ==> (#[trigger] g[k])@ == tok_text(cx, ns[k])
}

/// Tokens `p..q` are the reference `rp`: a name, then its generic arguments.
pub open spec fn ref_at(cx: &Ctx, p: int, end: int, rp: RefPart, q: int) -> bool {
    &&& is_ident_tok(cx.toks@, p, end)
    &&& generics_at(cx.toks@, p + 1, end) matches Some((ns, e)) && q == e && texts_at(cx, rp.generic_refs@, ns)
    &&& rp.name@ == tok_text(cx, p)
    &&& rp.at == cx.toks@[p].start
}

/// A variant of a name alone: no fields, no source, no attributes.
pub open spec fn bare(v: Variant) -> bool {
    &&& v.fields is None
    &&& v.source_type is None
    &&& v.backtrace_type is None
    &&& v.attributes@.len() == 0
    &&& v.cfg_attributes@.len() == 0
    &&& v.display is None
}

/// `v` is the attribute-free variant written at `q`, inside a block closing at `c`.
pub open spec fn variant_is(cx: &Ctx, q: int, c: int, v: Variant) -> bool {
    &&& v.attributes@.len() == 0 && v.cfg_attributes@.len() == 0 && v.display is None
    &&& shape_is(cx, q, c, v)
}

/// `v` has the name, sources and fields written from the name at `q` on.
pub open spec fn shape_is(cx: &Ctx, q: int, c: int, v: Variant) -> bool {
    &&& v.name@ == tok_text(cx, q)
    &&& (is_punct(cx.toks@, q + 1, c, '(') ==> sources_are(
        cx,
        v,
        source_list(cx, q, c).unwrap(),
        matching_at(cx.toks@, q + 1, c).unwrap(),
    ))
    &&& (!is_punct(cx.toks@, q + 1, c, '(') ==> v.source_type is None && v.backtrace_type is None)
    &&& fields_written(cx, q, c, v)
}

/// Tokens `a..c` are attribute-free variants separated by commas, with an
/// optional trailing comma: where each starts; `None` otherwise or when empty.
pub open spec fn variants_scan(cx: &Ctx, a: int, c: int) -> Option<Seq<int>>
    decreases c - a,
{
    if !is_ident_tok(cx.toks@, a, c) {
        None
    } else {
        match variant_end(cx, a, c) {
            Some(e) => if e <= a || e > c {
                None
            } else if e == c {
                Some(seq![a])
            } else if is_punct(cx.toks@, e, c, ',') {
                if e + 1 == c {
                    Some(seq![a])
                } else {
                    match variants_scan(cx, e + 1, c) {
                        Some(ns) => Some(seq![a] + ns),
                        None => None,
                    }
                }
            } else {
                None
            },
            None => None,
        }
    }
}

/// At `p` a brace block holds attribute-free variants only.
pub open spec fn is_plain_block(cx: &Ctx, p: int, end: int) -> bool {
    &&& matching_at(cx.toks@, p, end) is Some
    &&& variants_scan(cx, p + 1, matching_at(cx.toks@, p, end).unwrap()) is Some
}

/// `vs` are the variants that block writes, and `q` follows its `}`.
pub open spec fn plain_block(cx: &Ctx, p: int, end: int, vs: Seq<Variant>, q: int) -> bool {
    let c = matching_at(cx.toks@, p, end).unwrap();
    let ns = variants_scan(cx, p + 1, c).unwrap();
    &&& q == c + 1
    &&& vs.len() == ns.len()
    &&& forall|k: int| 0 <= k < vs.len() ==> variant_is(cx, ns[k], c, #[trigger] vs[k])
}

/// `||` at `e`: two `|` with nothing between them.
pub open spec fn or_or(toks: Seq<Token>, e: int, end: int) -> bool {
    is_punct(toks, e, end, '|') && is_punct(toks, e + 1, end, '|') && toks[e].end == toks[e + 1].start
}

/// Where the part at `q` ends, when it is a block of bare names or a reference.
pub open spec fn part_stop(cx: &Ctx, q: int, end: int) -> Option<int> {
    if is_punct(cx.toks@, q, end, '{') {
        if is_plain_block(cx, q, end) {
            Some(matching_at(cx.toks@, q, end).unwrap() + 1)
        } else {
            None
        }
    } else if is_ident_tok(cx.toks@, q, end) {
        match generics_at(cx.toks@, q + 1, end) {
            Some((_, e)) => Some(e),
            None => None,
        }
    } else {
        None
    }
}

/// From `q`, parts joined by `||` and ended by `;`: where each part starts, and
/// where the `;` stands.
pub open spec fn plain_parts(cx: &Ctx, q: int, end: int) -> Option<(Seq<int>, int)>
    decreases end - q,
{
    match part_stop(cx, q, end) {
        Some(e) => if e <= q || e > end {
            None
        } else if is_punct(cx.toks@, e, end, ';') {
            Some((seq![q], e))
        } else if or_or(cx.toks@, e, end) {
            match plain_parts(cx, e + 2, end) {
                Some((ps, f)) => Some((seq![q] + ps, f)),
                None => None,
            }
        } else {
            None
        },
        None => None,
    }
}

/// `part` is what the tokens at `q` say: the block of bare names, or the reference.
pub open spec fn part_is(cx: &Ctx, q: int, end: int, part: Part) -> bool {
    match part {
        Part::Inline(vs) => is_punct(cx.toks@, q, end, '{') && plain_block(
            cx,
            q,
            end,
            vs@,
            matching_at(cx.toks@, q, end).unwrap() + 1,
        ),
        Part::Ref(rp) => ref_at(cx, q, end, rp, part_stop(cx, q, end).unwrap()),
    }
}

/// Where the parts of the declaration named at `p` start: after its generics and `=`.
pub open spec fn parts_start(cx: &Ctx, p: int, end: int) -> int {
    generics_at(cx.toks@, p + 1, end).unwrap().1 + 1
}

/// The parts of the declaration named at `p`, as `plain_parts` reads them.
pub open spec fn decl_parts(cx: &Ctx, p: int, end: int) -> Option<(Seq<int>, int)> {
    plain_parts(cx, parts_start(cx, p, end), end)
}

/// At `p`: a name, its generics, `=`, then parts as `plain_parts` reads them.
pub open spec fn plain_declaration(cx: &Ctx, p: int, end: int) -> bool {
    &&& is_ident_tok(cx.toks@, p, end)
    &&& generics_at(cx.toks@, p + 1, end) is Some
    &&& is_punct(cx.toks@, parts_start(cx, p, end) - 1, end, '=')
    &&& decl_parts(cx, p, end) is Some
}

/// From `q`, parts joined by `||` that run to `end` with no `;` after the last.
pub open spec fn parts_run_out(cx: &Ctx, q: int, end: int) -> bool
    decreases end - q,
{
    match part_stop(cx, q, end) {
        Some(e) => if e <= q || e > end {
            false
        } else if e == end {
            true
        } else if or_or(cx.toks@, e, end) {
            parts_run_out(cx, e + 2, end)
        } else {
            false
        },
        None => false,
    }
}

/// The declaration at `p` is written up to its parts, whose last one ends the input.
pub open spec fn decl_runs_out(cx: &Ctx, p: int, end: int) -> bool {
    &&& is_ident_tok(cx.toks@, p, end)
    &&& generics_at(cx.toks@, p + 1, end) is Some
    &&& is_punct(cx.toks@, parts_start(cx, p, end) - 1, end, '=')
    &&& parts_run_out(cx, parts_start(cx, p, end), end)
}

/// From token `q`: declarations of the exactly-read kind, each ended by `;`,
/// then one whose parts run to the end of the input without its `;`.
pub open spec fn set_runs_out(cx: &Ctx, q: int) -> bool
    decreases cx.toks@.len() - q,
{
    let end = cx.toks@.len() as int;
    if !(0 <= q < end) {
        false
    } else if decl_runs_out(cx, q, end) {
        true
    } else if plain_declaration(cx, q, end) {
        let f = decl_parts(cx, q, end).unwrap().1;
        if q < f < end {
            set_runs_out(cx, f + 1)
        } else {
            false
        }
    } else {
        false
    }
}

/// `d`, ending at the `;` at `q`, is the attribute-free declaration those tokens write.
pub open spec fn declaration_is(cx: &Ctx, p: int, end: int, d: Declaration, q: int) -> bool {
    &&& d.attributes@.len() == 0
    &&& d.disabled.from is None && !d.disabled.display && !d.disabled.debug && !d.disabled.error
    &&& declaration_shape(cx, p, end, d, q)
}

/// `d` has the name, generics and parts written from the name at `p` on, up to the `;` at `q`.
pub open spec fn declaration_shape(cx: &Ctx, p: int, end: int, d: Declaration, q: int) -> bool {
    let (ps, f) = decl_parts(cx, p, end).unwrap();
    &&& q == f
    &&& d.name@ == tok_text(cx, p)
    &&& texts_at(cx, d.generics@, generics_at(cx.toks@, p + 1, end).unwrap().0)
    &&& d.parts@.len() == ps.len()
    &&& forall|k: int| 0 <= k < ps.len() ==> part_is(cx, ps[k], end, #[trigger] d.parts@[k])
}

/// Scanning a type from `q` with `angle` unclosed `<`: where it stops, at a
/// top-level `,` or at `end`, with every bracket closed.
pub open spec fn type_scan(toks: Seq<Token>, q: int, end: int, angle: int) -> Option<int>
    decreases end - q,
{
    if q < 0 || q >= end || q >= toks.len() {
        if angle == 0 && q == end {
            Some(q)
        } else {
            None
        }
    } else if angle == 0 && is_punct(toks, q, end, ',') {
        Some(q)
    } else if is_punct(toks, q, end, '(') || is_punct(toks, q, end, '[') || is_punct(toks, q, end, '{') {
        match matching_at(toks, q, end) {
            Some(m) => if q < m < end {
                type_scan(toks, m + 1, end, angle)
            } else {
                None
            },
            None => None,
        }
    } else if is_punct(toks, q, end, '<') {
        type_scan(toks, q + 1, end, angle + 1)
    } else if is_punct(toks, q, end, '>') && angle > 0 {
        type_scan(toks, q + 1, end, angle - 1)
    } else {
        type_scan(toks, q + 1, end, angle)
    }
}

/// Where the type at `p` ends; it takes at least one token.
pub open spec fn type_end(toks: Seq<Token>, p: int, end: int) -> Option<int> {
    match type_scan(toks, p, end, 0) {
        Some(q) => if q > p {
            Some(q)
        } else {
            None
        },
        None => None,
    }
}

/// Where the type path at `p` ends: a type starting with a name or `::`.
pub open spec fn path_end(toks: Seq<Token>, p: int, end: int) -> Option<int> {
    if is_ident_tok(toks, p, end) || is_punct(toks, p, end, ':') {
        type_end(toks, p, end)
    } else {
        None
    }
}

/// From `q` to `end`: type paths separated by commas, a trailing comma allowed;
/// where each starts.
pub open spec fn paths_scan(toks: Seq<Token>, q: int, end: int) -> Option<Seq<int>>
    decreases end - q,
{
    if q >= end {
        Some(Seq::empty())
    } else {
        match path_end(toks, q, end) {
            Some(e) => if e <= q || e > end {
                None
            } else if e == end {
                Some(seq![q])
            } else if is_punct(toks, e, end, ',') {
                match paths_scan(toks, e + 1, end) {
                    Some(ns) => Some(seq![q] + ns),
                    None => None,
                }
            } else {
                None
            },
            None => None,
        }
    }
}

/// The text from the start of token `a` to the end of token `b - 1`.
pub open spec fn span_text(cx: &Ctx, a: int, b: int) -> Seq<char> {
    cx.chars@.subrange(cx.toks@[a].start as int, cx.toks@[b - 1].end as int)
}

/// `ts` are the texts of the type paths starting at `ns`.
pub open spec fn paths_are(cx: &Ctx, end: int, ts: Seq<String>, ns: Seq<int>) -> bool {
    &&& ts.len() == ns.len()
    &&& forall|k: int| 0 <= k < ts.len() ==> (#[trigger] ts[k])@ == span_text(cx, ns[k], path_end(cx.toks@, ns[k], end).unwrap())
}

/// After the name at `p`, a parenthesised list of type paths: where they start.
pub open spec fn source_list(cx: &Ctx, p: int, end: int) -> Option<Seq<int>> {
    if is_punct(cx.toks@, p + 1, end, '(') {
        match matching_at(cx.toks@, p + 1, end) {
            Some(c) => paths_scan(cx.toks@, p + 2, c),
            None => None,
        }
    } else {
        None
    }
}

/// The variant's source and backtrace types are the first and second of the
/// paths at `ns`, which end at the `)` at `c`.
pub open spec fn sources_are(cx: &Ctx, v: Variant, ns: Seq<int>, c: int) -> bool {
    &&& (ns.len() >= 1 ==> v.source_type is Some && v.source_type.unwrap()@ == span_text(
        cx,
        ns[0],
        path_end(cx.toks@, ns[0], c).unwrap(),
    ))
    &&& (ns.len() == 0 ==> v.source_type is None)
    &&& (ns.len() == 2 ==> v.backtrace_type is Some && v.backtrace_type.unwrap()@ == span_text(
        cx,
        ns[1],
        path_end(cx.toks@, ns[1], c).unwrap(),
    ))
    &&& (ns.len() < 2 ==> v.backtrace_type is None)
}

/// From `q` to `end`: fields `name: Type` separated by commas, a trailing comma
/// allowed; where each starts.
pub open spec fn fields_scan(toks: Seq<Token>, q: int, end: int) -> Option<Seq<int>>
    decreases end - q,
{
    if q >= end {
        Some(Seq::empty())
    } else if is_ident_tok(toks, q, end) && is_punct(toks, q + 1, end, ':') && !is_punct(toks, q + 2, end, ':') {
        match type_end(toks, q + 2, end) {
            Some(e) => if e <= q || e > end {
                None
            } else if e == end {
                Some(seq![q])
            } else if is_punct(toks, e, end, ',') {
                match fields_scan(toks, e + 1, end) {
                    Some(ns) => Some(seq![q] + ns),
                    None => None,
                }
            } else {
                None
            },
            None => None,
        }
    } else {
        None
    }
}

/// `fs` are the fields starting at `ns`: each name's text and its type's text.
pub open spec fn fields_are(cx: &Ctx, end: int, fs: Seq<Field>, ns: Seq<int>) -> bool {
    &&& fs.len() == ns.len()
    &&& forall|k: int|
        0 <= k < fs.len() ==> (#[trigger] fs[k]).name@ == tok_text(cx, ns[k]) && fs[k].ty@ == span_text(
            cx,
            ns[k] + 2,
            type_end(cx.toks@, ns[k] + 2, end).unwrap(),
        )
}

/// Where the `disable` option at `q` ends: a name, then perhaps a
/// parenthesised list of type paths.
pub open spec fn option_end(toks: Seq<Token>, q: int, end: int) -> Option<int> {
    if is_punct(toks, q + 1, end, '(') {
        match matching_at(toks, q + 1, end) {
            Some(c) => if paths_scan(toks, q + 2, c) is Some {
                Some(c + 1)
            } else {
                None
            },
            None => None,
        }
    } else {
        Some(q + 1)
    }
}

/// From `q` to `end`: `disable` options separated by commas, a trailing comma
/// allowed; where each starts.
pub open spec fn options_scan(toks: Seq<Token>, q: int, end: int) -> Option<Seq<int>>
    decreases end - q,
{
    if q >= end {
        Some(Seq::empty())
    } else if is_ident_tok(toks, q, end) {
        match option_end(toks, q, end) {
            Some(e) => if e <= q || e > end {
                None
            } else if e == end {
                Some(seq![q])
            } else if is_punct(toks, e, end, ',') {
                match options_scan(toks, e + 1, end) {
                    Some(ns) => Some(seq![q] + ns),
                    None => None,
                }
            } else {
                None
            },
            None => None,
        }
    } else {
        None
    }
}

/// `o` is the option written at `q`: its name, where it stands, and the type
/// paths in its parentheses (none without them).
pub open spec fn option_is(cx: &Ctx, q: int, end: int, o: DisableArg) -> bool {
    &&& o.name@ == tok_text(cx, q)
    &&& o.at == cx.toks@[q].start
    &&& (is_punct(cx.toks@, q + 1, end, '(') ==> paths_are(
        cx,
        matching_at(cx.toks@, q + 1, end).unwrap(),
        o.refs@,
        paths_scan(cx.toks@, q + 2, matching_at(cx.toks@, q + 1, end).unwrap()).unwrap(),
    ))
    &&& (!is_punct(cx.toks@, q + 1, end, '(') ==> o.refs@.len() == 0)
}

/// After the name at `p`: where an optional list of at most two source paths ends.
pub open spec fn after_sources(cx: &Ctx, p: int, end: int) -> Option<int> {
    if is_punct(cx.toks@, p + 1, end, '(') {
        match source_list(cx, p, end) {
            Some(ns) => if ns.len() <= 2 {
                Some(matching_at(cx.toks@, p + 1, end).unwrap() + 1)
            } else {
                None
            },
            None => None,
        }
    } else {
        Some(p + 1)
    }
}

/// Where the attribute-free variant at `p` ends: its name, optional sources, and
/// an optional field block.
pub open spec fn variant_end(cx: &Ctx, p: int, end: int) -> Option<int> {
    match after_sources(cx, p, end) {
        Some(a) => if is_punct(cx.toks@, a, end, '{') {
            match matching_at(cx.toks@, a, end) {
                Some(d) => if fields_scan(cx.toks@, a + 1, d) is Some {
                    Some(d + 1)
                } else {
                    None
                },
                None => None,
            }
        } else {
            Some(a)
        },
        None => None,
    }
}

/// The variant's fields are those its brace block writes, or `None` without one.
pub open spec fn fields_written(cx: &Ctx, p: int, end: int, v: Variant) -> bool {
    let a = after_sources(cx, p, end).unwrap();
    &&& (is_punct(cx.toks@, a, end, '{') ==> v.fields is Some && fields_are(
        cx,
        matching_at(cx.toks@, a, end).unwrap(),
        v.fields.unwrap()@,
        fields_scan(cx.toks@, a + 1, matching_at(cx.toks@, a, end).unwrap()).unwrap(),
    ))
    &&& (!is_punct(cx.toks@, a, end, '{') ==> v.fields is None)
}

/// Where the attribute `#[...]` at `p` ends; it holds at least one token.
pub open spec fn attr_end(toks: Seq<Token>, p: int, end: int) -> Option<int> {
    if is_punct(toks, p, end, '#') && is_punct(toks, p + 1, end, '[') {
        match matching_at(toks, p + 1, end) {
            Some(c) => if c > p + 2 {
                Some(c + 1)
            } else {
                None
            },
            None => None,
        }
    } else {
        None
    }
}

/// From `p`: the outer attributes there (where each starts) and the position after them.
pub open spec fn attrs_scan(toks: Seq<Token>, p: int, end: int) -> Option<(Seq<int>, int)>
    decreases end - p,
{
    if !is_punct(toks, p, end, '#') {
        Some((Seq::empty(), p))
    } else {
        match attr_end(toks, p, end) {
            Some(e) => if e <= p || e > end {
                None
            } else {
                match attrs_scan(toks, e, end) {
                    Some((ns, q)) => Some((seq![p] + ns, q)),
                    None => None,
                }
            },
            None => None,
        }
    }
}

/// The attribute's path is the one identifier at `s` (inside brackets closing at `c`).
pub open spec fn attr_named(toks: Seq<Token>, s: int, c: int) -> bool {
    is_ident_tok(toks, s, c) && !is_punct(toks, s + 1, c, ':')
}

/// The named attribute has the list form: one group from `s + 1` to the `]`.
pub open spec fn attr_listed(toks: Seq<Token>, s: int, c: int) -> bool {
    attr_named(toks, s, c) && s + 1 < c && matching_at(toks, s + 1, c) == Some(c - 1)
}

/// `a` is the attribute written at `p`: its inner text, its name, its list
/// arguments and where its `#` stands.
pub open spec fn attr_is(cx: &Ctx, p: int, end: int, a: Attribute) -> bool {
    let c = matching_at(cx.toks@, p + 1, end).unwrap();
    let s = p + 2;
    &&& a.text@ == span_text(cx, s, c)
    &&& a.at == cx.toks@[p].start
    &&& (attr_named(cx.toks@, s, c) ==> a.name is Some && a.name.unwrap()@ == tok_text(cx, s))
    &&& (!attr_named(cx.toks@, s, c) ==> a.name is None)
    &&& (attr_listed(cx.toks@, s, c) ==> a.args is Some && a.args.unwrap()@ == (if s + 2 < c - 1 {
        span_text(cx, s + 2, c - 1)
    } else {
        Seq::empty()
    }))
    &&& (!attr_listed(cx.toks@, s, c) ==> a.args is None)
}

/// For a list attribute at `p`, `span` is the token range of its arguments.
pub open spec fn span_is(cx: &Ctx, p: int, end: int, span: (usize, usize)) -> bool {
    let c = matching_at(cx.toks@, p + 1, end).unwrap();
    attr_listed(cx.toks@, p + 2, c) ==> span.0 == p + 4 && span.1 == c - 1
}

pub open spec fn spans_are(cx: &Ctx, end: int, spans: Seq<(usize, usize)>, ns: Seq<int>) -> bool {
    &&& spans.len() == ns.len()
    &&& forall|k: int| 0 <= k < spans.len() ==> span_is(cx, ns[k], end, #[trigger] spans[k])
}

/// The arguments of the `disable(...)` attribute written at `p`.
pub open spec fn disable_args_at(cx: &Ctx, p: int, end: int) -> (int, int) {
    (p + 4, matching_at(cx.toks@, p + 1, end).unwrap() - 1)
}

/// Every `disable(...)` among `attrs`, written at `ns`, is valid.
pub open spec fn disables_ok(cx: &Ctx, end: int, attrs: Seq<Attribute>, ns: Seq<int>) -> bool {
    forall|k: int|
        0 <= k < attrs.len() && is_named(#[trigger] attrs[k], "disable"@) ==> disable_ok(
            cx,
            disable_args_at(cx, ns[k], end).0,
            disable_args_at(cx, ns[k], end).1,
        )
}

/// `d` is what the last `disable(...)` among `attrs` sets, or nothing is disabled.
pub open spec fn disabled_from(cx: &Ctx, end: int, attrs: Seq<Attribute>, ns: Seq<int>, d: Disabled) -> bool {
    match last_disable(attrs) {
        Some(k) => disabled_is(cx, disable_args_at(cx, ns[k], end).0, disable_args_at(cx, ns[k], end).1, d),
        None => d.from is None && !d.display && !d.debug && !d.error,
    }
}

/// `attrs` are the attributes written at `ns`.
pub open spec fn attrs_are(cx: &Ctx, end: int, attrs: Seq<Attribute>, ns: Seq<int>) -> bool {
    &&& attrs.len() == ns.len()
    &&& forall|k: int| 0 <= k < attrs.len() ==> attr_is(cx, ns[k], end, #[trigger] attrs[k])
}

/// The `display(...)` attributes among those that are not `cfg(...)`.
pub open spec fn displays_of(attrs: Seq<Attribute>) -> Seq<Attribute> {
    split_spec(split_spec(attrs, "cfg"@, false), "display"@, true)
}

/// The variant's attributes are `attrs` split: `cfg(...)` ones apart, the one
/// `display(...)` taken out, the rest kept in order.
pub open spec fn attributes_split(attrs: Seq<Attribute>, v: Variant) -> bool {
    &&& v.cfg_attributes@ == split_spec(attrs, "cfg"@, true)
    &&& v.attributes@ == split_spec(split_spec(attrs, "cfg"@, false), "display"@, false)
    &&& (displays_of(attrs).len() == 1 ==> v.display == displays_of(attrs)[0].args)
    &&& (displays_of(attrs).len() == 0 ==> v.display is None)
}

/// How many types the parentheses of the option at `q` hold.
pub open spec fn option_types(cx: &Ctx, q: int, b: int) -> int {
    if is_punct(cx.toks@, q + 1, b, '(') {
        paths_scan(cx.toks@, q + 2, matching_at(cx.toks@, q + 1, b).unwrap()).unwrap().len() as int
    } else {
        0
    }
}

/// The option written at `q` is known, and only `From` has types.
pub open spec fn option_ok_at(cx: &Ctx, q: int, b: int) -> bool {
    let n = tok_text(cx, q);
    ||| n == "From"@
    ||| ((n == "Display"@ || n == "Debug"@ || n == "Error"@) && option_types(cx, q, b) == 0)
}

/// The arguments `a..b` of a `disable(...)` attribute are well formed and valid.
pub open spec fn disable_ok(cx: &Ctx, a: int, b: int) -> bool {
    &&& options_scan(cx.toks@, a, b) is Some
    &&& forall|k: int|
        0 <= k < options_scan(cx.toks@, a, b).unwrap().len() ==> option_ok_at(
            cx,
            #[trigger] options_scan(cx.toks@, a, b).unwrap()[k],
            b,
        )
}

/// One of the options at `ns` is named `w`.
pub open spec fn option_named(cx: &Ctx, ns: Seq<int>, w: Seq<char>) -> bool {
    exists|k: int| 0 <= k < ns.len() && tok_text(cx, #[trigger] ns[k]) == w
}

/// The index of the last option at `ns` named `From`.
pub open spec fn last_from_at(cx: &Ctx, ns: Seq<int>) -> Option<int>
    decreases ns.len(),
{
    if ns.len() == 0 {
        None
    } else if tok_text(cx, ns.last()) == "From"@ {
        Some(ns.len() - 1)
    } else {
        last_from_at(cx, ns.drop_last())
    }
}

/// `d` is what the `disable(...)` arguments `a..b` set: each switch named, and
/// the types of the last `From`.
pub open spec fn disabled_is(cx: &Ctx, a: int, b: int, d: Disabled) -> bool {
    let ns = options_scan(cx.toks@, a, b).unwrap();
    &&& d.display == option_named(cx, ns, "Display"@)
    &&& d.debug == option_named(cx, ns, "Debug"@)
    &&& d.error == option_named(cx, ns, "Error"@)
    &&& match last_from_at(cx, ns) {
        Some(k) => d.from is Some && (is_punct(cx.toks@, ns[k] + 1, b, '(') ==> paths_are(
            cx,
            matching_at(cx.toks@, ns[k] + 1, b).unwrap(),
            d.from.unwrap()@,
            paths_scan(cx.toks@, ns[k] + 2, matching_at(cx.toks@, ns[k] + 1, b).unwrap()).unwrap(),
        )) && (!is_punct(cx.toks@, ns[k] + 1, b, '(') ==> d.from.unwrap()@.len() == 0),
        None => d.from is None,
    }
}

/// The index of the last `disable(...)` attribute.
pub open spec fn last_disable(attrs: Seq<Attribute>) -> Option<int>
    decreases attrs.len(),
{
    if attrs.len() == 0 {
        None
    } else if is_named(attrs.last(), "disable"@) {
        Some(attrs.len() - 1)
    } else {
        last_disable(attrs.drop_last())
    }
}

/// An error that parsing can give.
pub open spec fn parse_error(e: Error) -> bool {
    e.kind is Syntax || e.kind is DuplicateDisplay || e.kind is InvalidDisable
}

// ---------------------------------------------------------------------------
// Token helpers.
fn punct_at(cx: &Ctx, p: usize, end: usize, c: char) -> (r: bool)
    requires
        end <= cx.toks@.len(),
    ensures
        r == (p < end && cx.toks@[p as int].kind == TokenKind::Punct(c)),
{
    if p < end {
        match cx.toks[p].kind {
            TokenKind::Punct(d) => d == c,
            _ => false,
        }
    } else {
        false
    }
}

fn ident_at(cx: &Ctx, p: usize, end: usize) -> (r: bool)
    requires
        end <= cx.toks@.len(),
    ensures
        r == (p < end && cx.toks@[p as int].kind is Ident),
{
    if p < end {
        match cx.toks[p].kind {
            TokenKind::Ident => true,
            _ => false,
        }
    } else {
        false
    }
}

/// `||`: two `|` with nothing between them.
fn or_or_at(cx: &Ctx, p: usize, end: usize) -> (r: bool)
    requires
        end <= cx.toks@.len(),
    ensures
        r ==> p + 1 < end,
        r == or_or(cx.toks@, p as int, end as int),
{
    p < end && end - p >= 2 && punct_at(cx, p, end, '|') && punct_at(cx, p + 1, end, '|')
        && cx.toks[p].end == cx.toks[p + 1].start
}

/// Where an error about token `p` points: that token, or the last one where the
/// input ended early.
fn loc(cx: &Ctx, p: usize) -> (r: usize)
    ensures
        cx.toks@.len() == 0 ==> r == 0,
        p < cx.toks@.len() ==> r == cx.toks@[p as int].start,
        p >= cx.toks@.len() > 0 ==> r == cx.toks@[cx.toks@.len() - 1].start,
{
    if p < cx.toks.len() {
        cx.toks[p].start
    } else if cx.toks.len() > 0 {
        cx.toks[cx.toks.len() - 1].start
    } else {
        0
    }
}

fn syntax(cx: &Ctx, p: usize, message: &str) -> (e: Error)
    ensures
        cx.toks@.len() == 0 ==> e.at == 0,
        e.kind is Syntax,
        p < cx.toks@.len() ==> e.at == cx.toks@[p as int].start,
        p >= cx.toks@.len() > 0 ==> e.at == cx.toks@[cx.toks@.len() - 1].start,
{
    Error { kind: ErrorKind::Syntax, at: loc(cx, p), message: String::from_str(message) }
}

/// The source text of tokens `a` up to `b`.
fn text(cx: &Ctx, a: usize, b: usize) -> (r: String)
    requires
        ctx_ok(cx),
        a < b <= cx.toks@.len(),
    ensures
        r@ == cx.chars@.subrange(cx.toks@[a as int].start as int, cx.toks@[b - 1].end as int),
{
    proof {
        reveal(lexed_ok);
        assert(cx.toks@[a as int].start < cx.toks@[a as int].end);
        if a < b - 1 {
            assert(cx.toks@[a as int].end <= cx.toks@[b - 1].start);
        }
    }
    let s = cx.src.as_str().substring_char(cx.toks[a].start, cx.toks[b - 1].end);
    String::from_str(s)
}

/// Text of identifier characters, starting with a letter or `_`.
pub open spec fn is_identifier(s: Seq<char>) -> bool {
    &&& s.len() > 0
    &&& is_ident_start(s[0])
    &&& forall|m: int| 0 <= m < s.len() ==> is_ident_continue(#[trigger] s[m])
}

/// The text of the identifier token at `q`.
fn ident_text(cx: &Ctx, q: usize) -> (r: String)
    requires
        ctx_ok(cx),
        q < cx.toks@.len(),
        cx.toks@[q as int].kind is Ident,
    ensures
        is_identifier(r@),
        r@ == cx.chars@.subrange(cx.toks@[q as int].start as int, cx.toks@[q as int].end as int),
{
    proof {
        reveal(lexed_ok);
        assert(cx.toks@[q as int].start < cx.toks@[q as int].end);
    }
    assert(q < cx.toks.len());
    let r = text(cx, q, q + 1);
    proof {
        let t = cx.toks@[q as int];
        assert forall|m: int| 0 <= m < r@.len() implies is_ident_continue(#[trigger] r@[m]) by {
            assert(r@[m] == cx.chars@[t.start + m]);
        }
        assert(r@[0] == cx.chars@[t.start as int]);
    }
    r
}

pub open spec fn closer_of(c: char) -> Option<char> {
    if c == '(' {
        Some(')')
    } else if c == '[' {
        Some(']')
    } else if c == '{' {
        Some('}')
    } else {
        None
    }
}

pub open spec fn is_open(c: char) -> bool {
    c == '(' || c == '[' || c == '{'
}

pub open spec fn is_close(c: char) -> bool {
    c == ')' || c == ']' || c == '}'
}

/// Scanning from `q` at bracket depth `depth` (one group already open): where
/// the group closes, if it closes with `close` before `end`.
pub open spec fn group_close(toks: Seq<Token>, q: int, end: int, depth: int, close: char) -> Option<int>
    decreases end - q,
{
    if q < 0 || q >= end || q >= toks.len() {
        None
    } else {
        match toks[q].kind {
            TokenKind::Punct(c) => if is_open(c) {
                group_close(toks, q + 1, end, depth + 1, close)
            } else if is_close(c) {
                if depth <= 1 {
                    if depth == 1 && c == close {
                        Some(q)
                    } else {
                        None
                    }
                } else {
                    group_close(toks, q + 1, end, depth - 1, close)
                }
            } else {
                group_close(toks, q + 1, end, depth, close)
            },
            _ => group_close(toks, q + 1, end, depth, close),
        }
    }
}

/// The token that closes the group opening at `p`, brackets nested and of matching kinds at the outer level.
pub open spec fn matching_at(toks: Seq<Token>, p: int, end: int) -> Option<int> {
    if 0 <= p < end && p < toks.len() {
        match toks[p].kind {
            TokenKind::Punct(c) => match closer_of(c) {
                Some(d) => group_close(toks, p + 1, end, 1, d),
                None => None,
            },
            _ => None,
        }
    } else {
        None
    }
}

fn closer(c: char) -> (r: Option<char>)
    ensures
        r == closer_of(c),
{
    if c == '(' {
        Some(')')
    } else if c == '[' {
        Some(']')
    } else if c == '{' {
        Some('}')
    } else {
        None
    }
}

proof fn lemma_group_close_range(toks: Seq<Token>, q: int, end: int, depth: int, close: char)
    ensures
        group_close(toks, q, end, depth, close) matches Some(c) ==> q <= c < end,
    decreases end - q,
{
    if 0 <= q < end && q < toks.len() {
        lemma_group_close_range(toks, q + 1, end, depth + 1, close);
        lemma_group_close_range(toks, q + 1, end, depth - 1, close);
        lemma_group_close_range(toks, q + 1, end, depth, close);
    }
}

/// The token that closes the group opened at `p`, if it closes before `end`.
fn matching(cx: &Ctx, p: usize, end: usize) -> (r: Option<usize>)
    requires
        p < end <= cx.toks@.len(),
    ensures
        r matches Some(q) ==> p < q < end,
        r == (match matching_at(cx.toks@, p as int, end as int) {
            Some(q) => Some(q as usize),
            None => None::<usize>,
        }),
        matching_at(cx.toks@, p as int, end as int) matches Some(q) ==> p < q < end,
{
    let close = match cx.toks[p].kind {
        TokenKind::Punct(c) => match closer(c) {
            Some(d) => d,
            None => {
                return None;
            },
        },
        _ => {
            return None;
        },
    };
    let ghost toks = cx.toks@;
    let mut depth: usize = 1;
    let mut q: usize = p + 1;
    proof {
        lemma_group_close_range(toks, q as int, end as int, 1, close);
    }
    while q < end
        invariant
            p < q <= end,
            end <= cx.toks@.len(),
            toks == cx.toks@,
            1 <= depth <= q - p,
            matching_at(toks, p as int, end as int) == group_close(toks, q as int, end as int, depth as int, close),
            group_close(toks, q as int, end as int, depth as int, close) matches Some(c) ==> q <= c < end,
        decreases end - q,
    {
        match cx.toks[q].kind {
            TokenKind::Punct(c) => {
                if c == '(' || c == '[' || c == '{' {
                    depth = depth + 1;
                } else if c == ')' || c == ']' || c == '}' {
                    if depth <= 1 {
                        if c == close {
                            return Some(q);
                        }
                        return None;
                    }
                    depth = depth - 1;
                }
            },
            _ => {},
        }
        q = q + 1;
        proof {
            lemma_group_close_range(toks, q as int, end as int, depth as int, close);
        }
    }
    None
}

// ---------------------------------------------------------------------------
// Grammar.
/// Outer attributes `#[...]`, with the token range of each one's list arguments.
fn parse_attributes(cx: &Ctx, from: usize, end: usize) -> (r: Result<(Vec<Attribute>, Vec<(usize, usize)>, usize), Error>)
    requires
        ctx_ok(cx),
        from <= end <= cx.toks@.len(),
    ensures
        r matches Ok((attrs, spans, q)) ==> from <= q <= end && attrs@.len() == spans@.len() && forall|k: int|
            0 <= k < spans@.len() ==> from <= (#[trigger] spans@[k]).0 <= spans@[k].1 <= q,
        r matches Err(e) ==> parse_error(e),
        !is_punct(cx.toks@, from as int, end as int, '#') ==> (r matches Ok((attrs, _, q)) && q == from && attrs@.len() == 0),
        r is Ok <==> attrs_scan(cx.toks@, from as int, end as int) is Some,
        r matches Ok((attrs, _, q)) ==> q == attrs_scan(cx.toks@, from as int, end as int).unwrap().1 && attrs_are(
            cx,
            end as int,
            attrs@,
            attrs_scan(cx.toks@, from as int, end as int).unwrap().0,
        ),
        r matches Ok((attrs, spans, _)) ==> spans_are(cx, end as int, spans@, attrs_scan(cx.toks@, from as int, end as int).unwrap().0),
{
    let ghost toks = cx.toks@;
    let ghost mut starts: Seq<int> = Seq::empty();
    let mut attrs: Vec<Attribute> = Vec::new();
    let mut spans: Vec<(usize, usize)> = Vec::new();
    let mut p = from;
    let ghost p0 = from;
    while punct_at(cx, p, end, '#')
        invariant
            ctx_ok(cx),
            p0 == from,
            p0 <= p <= end <= cx.toks@.len(),
            attrs@.len() == spans@.len(),
            !is_punct(cx.toks@, p0 as int, end as int, '#') ==> p == p0 && attrs@.len() == 0,
            forall|k: int| 0 <= k < spans@.len() ==> p0 <= (#[trigger] spans@[k]).0 <= spans@[k].1 <= p,
            toks == cx.toks@,
            attrs_are(cx, end as int, attrs@, starts),
            spans_are(cx, end as int, spans@, starts),
            attrs_scan(toks, p0 as int, end as int) == match attrs_scan(toks, p as int, end as int) {
                Some((ns, q)) => Some((starts + ns, q)),
                None => None::<(Seq<int>, int)>,
            },
        decreases end - p,
    {
        let ghost ps = p as int;
        if !punct_at(cx, p + 1, end, '[') {
            return Err(syntax(cx, p + 1, "Expected `[` after `#`."));
        }
        let close = match matching(cx, p + 1, end) {
            Some(c) => c,
            None => {
                return Err(syntax(cx, p + 1, "Unclosed attribute."));
            },
        };
        let a = p + 2;
        if a == close {
            return Err(syntax(cx, close, "Expected an attribute."));
        }
        let name = if ident_at(cx, a, close) && !punct_at(cx, a + 1, close, ':') {
            Some(text(cx, a, a + 1))
        } else {
            None
        };
        let mut args: Option<String> = None;
        let mut span: (usize, usize) = (a, a);
        if name.is_some() && a + 1 < close {
            match matching(cx, a + 1, close) {
                Some(m) => {
                    if m + 1 == close {
                        if a + 2 < m {
                            args = Some(text(cx, a + 2, m));
                        } else {
                            args = Some(String::new());
                        }
                        span = (a + 2, m);
                    }
                },
                None => {},
            }
        }
        let at = cx.toks[p].start;
        let ghost prev = spans@;
        let ghost prev_attrs = attrs@;
        attrs.push(Attribute { text: text(cx, a, close), name, args, at });
        spans.push(span);
        p = close + 1;
        proof {
            starts = starts.push(ps);
            assert forall|k: int| 0 <= k < attrs@.len() implies attr_is(cx, starts[k], end as int, #[trigger] attrs@[k]) by {
                if k < prev_attrs.len() {
                    assert(attrs@[k] == prev_attrs[k]);
                }
            }
            assert forall|k: int| 0 <= k < spans@.len() implies span_is(cx, starts[k], end as int, #[trigger] spans@[k]) by {
                if k < prev.len() {
                    assert(spans@[k] == prev[k]);
                }
            }
            match attrs_scan(toks, p as int, end as int) {
                Some((ns, q)) => {
                    assert(starts.drop_last() + (seq![ps] + ns) =~= starts + ns);
                },
                None => {},
            }
        }
        assert forall|k: int| 0 <= k < spans@.len() implies p0 <= (#[trigger] spans@[k]).0 <= spans@[k].1 <= p by {
            if k < prev.len() {
                assert(spans@[k] == prev[k]);
            }
        }
    }
    assert(starts + Seq::<int>::empty() =~= starts);
    Ok((attrs, spans, p))
}

/// A type as written: the tokens up to a `,` outside any brackets, or to `end`.
fn parse_type(cx: &Ctx, p: usize, end: usize) -> (r: Result<(String, usize), Error>)
    requires
        ctx_ok(cx),
        p <= end <= cx.toks@.len(),
    ensures
        r matches Ok((t, q)) ==> p < q <= end,
        r matches Err(e) ==> parse_error(e),
        r is Ok <==> type_end(cx.toks@, p as int, end as int) is Some,
        r matches Ok((t, q)) ==> q == type_end(cx.toks@, p as int, end as int).unwrap() && t@ == span_text(
            cx,
            p as int,
            q as int,
        ),
{
    let mut q = p;
    let mut angle: usize = 0;
    while q < end && !(angle == 0 && punct_at(cx, q, end, ','))
        invariant
            ctx_ok(cx),
            p <= q <= end <= cx.toks@.len(),
            angle <= q - p,
            type_scan(cx.toks@, p as int, end as int, 0) == type_scan(cx.toks@, q as int, end as int, angle as int),
        decreases end - q,
    {
        if punct_at(cx, q, end, '(') || punct_at(cx, q, end, '[') || punct_at(cx, q, end, '{') {
            match matching(cx, q, end) {
                Some(m) => {
                    q = m + 1;
                },
                None => {
                    return Err(syntax(cx, q, "Unclosed bracket in a type."));
                },
            }
        } else {
            if punct_at(cx, q, end, '<') {
                angle = angle + 1;
            } else if punct_at(cx, q, end, '>') && angle > 0 {
                angle = angle - 1;
            }
            q = q + 1;
        }
    }
    if q == p {
        return Err(syntax(cx, p, "Expected a type."));
    }
    if angle != 0 {
        return Err(syntax(cx, q, "Unclosed `<` in a type."));
    }
    Ok((text(cx, p, q), q))
}

/// A path type such as `std::io::Error` or `Wrapper<T>`.
fn parse_type_path(cx: &Ctx, p: usize, end: usize) -> (r: Result<(String, usize), Error>)
    requires
        ctx_ok(cx),
        p <= end <= cx.toks@.len(),
    ensures
        r matches Ok((t, q)) ==> p < q <= end,
        r matches Err(e) ==> parse_error(e),
        r is Ok <==> path_end(cx.toks@, p as int, end as int) is Some,
        r matches Ok((t, q)) ==> q == path_end(cx.toks@, p as int, end as int).unwrap() && t@ == span_text(
            cx,
            p as int,
            q as int,
        ),
{
    if !ident_at(cx, p, end) && !punct_at(cx, p, end, ':') {
        return Err(syntax(cx, p, "Expected a type path."));
    }
    parse_type(cx, p, end)
}

/// A list of items separated by commas, with an optional trailing comma.
fn parse_type_paths(cx: &Ctx, p: usize, end: usize) -> (r: Result<Vec<String>, Error>)
    requires
        ctx_ok(cx),
        p <= end <= cx.toks@.len(),
    ensures
        r matches Err(e) ==> parse_error(e),
        r is Ok <==> paths_scan(cx.toks@, p as int, end as int) is Some,
        r matches Ok(ts) ==> paths_are(cx, end as int, ts@, paths_scan(cx.toks@, p as int, end as int).unwrap()),
{
    let ghost toks = cx.toks@;
    let ghost mut starts: Seq<int> = Seq::empty();
    let mut out: Vec<String> = Vec::new();
    let mut q = p;
    while q < end
        invariant
            ctx_ok(cx),
            toks == cx.toks@,
            p <= q <= end <= cx.toks@.len(),
            paths_are(cx, end as int, out@, starts),
            paths_scan(toks, p as int, end as int) == match paths_scan(toks, q as int, end as int) {
                Some(ns) => Some(starts + ns),
                None => None::<Seq<int>>,
            },
        decreases end - q,
    {
        let ghost qs = q as int;
        let (t, n) = parse_type_path(cx, q, end)?;
        let ghost prev = out@;
        out.push(t);
        proof {
            starts = starts.push(qs);
            assert forall|k: int| 0 <= k < out@.len() implies (#[trigger] out@[k])@ == span_text(
                cx,
                starts[k],
                path_end(toks, starts[k], end as int).unwrap(),
            ) by {
                if k < prev.len() {
                    assert(out@[k] == prev[k]);
                }
            }
        }
        q = n;
        if q < end {
            if !punct_at(cx, q, end, ',') {
                return Err(syntax(cx, q, "Expected `,`."));
            }
            q = q + 1;
            proof {
                match paths_scan(toks, q as int, end as int) {
                    Some(ns) => {
                        assert(starts.drop_last() + (seq![qs] + ns) =~= starts + ns);
                    },
                    None => {},
                }
            }
        } else {
            assert(starts.drop_last() + seq![qs] + Seq::<int>::empty() =~= starts + Seq::<int>::empty());
        }
    }
    assert(starts + Seq::<int>::empty() =~= starts);
    Ok(out)
}

/// `<A, B>`, or nothing.
fn generics(cx: &Ctx, p: usize, end: usize) -> (r: Result<(Vec<String>, usize), Error>)
    requires
        ctx_ok(cx),
        p <= end <= cx.toks@.len(),
    ensures
        r matches Ok((g, q)) ==> p <= q <= end && (q == p ==> g@.len() == 0) && forall|k: int|
            0 <= k < g@.len() ==> is_identifier((#[trigger] g@[k])@),
        r matches Err(e) ==> parse_error(e),
        r is Ok <==> generics_at(cx.toks@, p as int, end as int) is Some,
        r matches Ok((g, q)) ==> q == generics_at(cx.toks@, p as int, end as int).unwrap().1 && texts_at(
            cx,
            g@,
            generics_at(cx.toks@, p as int, end as int).unwrap().0,
        ),
{
    if !punct_at(cx, p, end, '<') {
        return Ok((Vec::new(), p));
    }
    let ghost toks = cx.toks@;
    let mut names: Vec<String> = Vec::new();
    let ghost mut pos: Seq<int> = Seq::empty();
    let mut q = p + 1;
    loop
        invariant
            ctx_ok(cx),
            toks == cx.toks@,
            p < q <= end <= cx.toks@.len(),
            is_punct(toks, p as int, end as int, '<'),
            forall|k: int| 0 <= k < names@.len() ==> is_identifier((#[trigger] names@[k])@),
            texts_at(cx, names@, pos),
            generic_names(toks, p + 1, end as int) == match generic_names(toks, q as int, end as int) {
                Some((ns, e)) => Some((pos + ns, e)),
                None => None::<(Seq<int>, int)>,
            },
        decreases end - q,
    {
        if punct_at(cx, q, end, '>') {
            assert(pos + Seq::<int>::empty() =~= pos);
            return Ok((names, q + 1));
        }
        if !ident_at(cx, q, end) {
            return Err(syntax(cx, q, "Expected a generic parameter name or `>`."));
        }
        let ghost prev = names@;
        let ghost q0 = q as int;
        let nm = ident_text(cx, q);
        names.push(nm);
        proof {
            pos = pos.push(q0);
            assert forall|k: int| 0 <= k < names@.len() implies is_identifier((#[trigger] names@[k])@) by {
                if k < prev.len() {
                    assert(names@[k] == prev[k]);
                }
            }
            assert forall|k: int| 0 <= k < names@.len() implies (#[trigger] names@[k])@ == tok_text(cx, pos[k]) by {
                if k < prev.len() {
                    assert(names@[k] == prev[k]);
                }
            }
        }
        q = q + 1;
        if punct_at(cx, q, end, ',') {
            q = q + 1;
            proof {
                match generic_names(toks, q as int, end as int) {
                    Some((ns, e)) => {
                        assert(pos.drop_last() + (seq![q0] + ns) =~= pos + ns);
                    },
                    None => {},
                }
            }
        } else if !punct_at(cx, q, end, '>') {
            return Err(syntax(cx, q, "Expected `,` or `>`."));
        } else {
            assert(pos.drop_last() + seq![q0] =~= pos + Seq::<int>::empty());
        }
    }
}

/// One option of a `disable(...)` attribute: its name, where the name stands,
/// and the types in its parentheses.
#[derive(Debug)]
pub struct DisableArg {
    pub name: String,
    pub at: usize,
    pub refs: Vec<String>,
}

/// The option is known, and only `From` has arguments.
pub open spec fn option_ok(o: DisableArg) -> bool {
    ||| o.name@ == "From"@
    ||| ((o.name@ == "Display"@ || o.name@ == "Debug"@ || o.name@ == "Error"@) && o.refs@.len() == 0)
}

pub open spec fn names_option(os: Seq<DisableArg>, w: Seq<char>) -> bool {
    exists|k: int| 0 <= k < os.len() && (#[trigger] os[k]).name@ == w
}

/// The position of the last `From` option.
pub open spec fn last_from(os: Seq<DisableArg>) -> Option<int>
    decreases os.len(),
{
    if os.len() == 0 {
        None
    } else if os.last().name@ == "From"@ {
        Some(os.len() - 1)
    } else {
        last_from(os.drop_last())
    }
}

/// The switches that the options of one `disable(...)` attribute set: each of
/// `Display`, `Debug`, `Error` when named; the types of the last `From`. An
/// unknown option, or arguments to one that takes none, is an error at the
/// first such option.
pub fn disabled_of(options: Vec<DisableArg>) -> (r: Result<Disabled, Error>)
    ensures
        r is Ok <==> forall|k: int| 0 <= k < options@.len() ==> option_ok(#[trigger] options@[k]),
        r matches Err(e) ==> e.kind is InvalidDisable && exists|k: int|
            0 <= k < options@.len() && !option_ok(#[trigger] options@[k]) && options@[k].at == e.at && forall|m: int|
                0 <= m < k ==> option_ok(#[trigger] options@[m]),
        r matches Ok(d) ==> {
            &&& d.display == names_option(options@, "Display"@)
            &&& d.debug == names_option(options@, "Debug"@)
            &&& d.error == names_option(options@, "Error"@)
            &&& match last_from(options@) {
                Some(k) => d.from matches Some(v) && v@ == options@[k].refs@,
                None => d.from is None,
            }
        },
{
    let ghost all = options@;
    let mut rest = options;
    let n = rest.len();
    let mut d = Disabled { from: None, display: false, debug: false, error: false };
    let mut i: usize = 0;
    while rest.len() > 0
        invariant
            all == options@,
            n == all.len(),
            i + rest@.len() == all.len(),
            rest@ == all.skip(i as int),
            forall|m: int| 0 <= m < i ==> option_ok(#[trigger] all[m]),
            d.display == names_option(all.take(i as int), "Display"@),
            d.debug == names_option(all.take(i as int), "Debug"@),
            d.error == names_option(all.take(i as int), "Error"@),
            match last_from(all.take(i as int)) {
                Some(k) => d.from matches Some(v) && v@ == all[k].refs@,
                None => d.from is None,
            },
        decreases rest.len(),
    {
        proof {
            reveal_strlit("From");
            reveal_strlit("Display");
            reveal_strlit("Debug");
            reveal_strlit("Error");
            assert("From"@.len() == 4 && "Display"@.len() == 7 && "Debug"@.len() == 5 && "Error"@.len() == 5);
            assert("From"@[0] != "Debug"@[0]);
            assert("From"@[0] != "Error"@[0]);
            assert("Debug"@[0] != "Error"@[0]);
        }
        let ghost before = rest@;
        let o = rest.remove(0);
        assert(o == all[i as int]);
        assert(rest@ =~= all.skip(i + 1));
        let ghost t0 = all.take(i as int);
        let ghost t1 = all.take(i + 1);
        assert(t1.drop_last() =~= t0);
        assert(t1.last() == o);
        assert forall|w: Seq<char>| names_option(t1, w) <==> names_option(t0, w) || o.name@ == w by {
            if names_option(t1, w) {
                let k = choose|k: int| 0 <= k < t1.len() && (#[trigger] t1[k]).name@ == w;
                if k < t0.len() {
                    assert(t0[k] == t1[k]);
                }
            }
            if names_option(t0, w) {
                let k = choose|k: int| 0 <= k < t0.len() && (#[trigger] t0[k]).name@ == w;
                assert(t1[k] == t0[k]);
            }
            if o.name@ == w {
                assert(t1[i as int] == o);
            }
        }
        if o.name == String::from_str("From") {
            d.from = Some(o.refs);
        } else if o.name == String::from_str("Display") || o.name == String::from_str("Debug") || o.name
            == String::from_str("Error") {
            if o.refs.len() > 0 {
                assert(!option_ok(all[i as int]));
                return Err(Error {
                    kind: ErrorKind::InvalidDisable,
                    at: o.at,
                    message: String::from_str("This option of `disable` does not take any arguments."),
                });
            }
            if o.name == String::from_str("Display") {
                d.display = true;
            } else if o.name == String::from_str("Debug") {
                d.debug = true;
            } else {
                d.error = true;
            }
        } else {
            assert(!option_ok(all[i as int]));
            return Err(Error {
                kind: ErrorKind::InvalidDisable,
                at: o.at,
                message: String::from_str("Not a valid option for `disable`."),
            });
        }
        i = i + 1;
    }
    assert(all.take(all.len() as int) =~= all);
    Ok(d)
}

/// The options of one `disable(...)` attribute, in the token range `a..b`:
/// names, each with an optional list of type paths in parentheses.
fn parse_disable_args(cx: &Ctx, a: usize, b: usize) -> (r: Result<Vec<DisableArg>, Error>)
    requires
        ctx_ok(cx),
        a <= b <= cx.toks@.len(),
    ensures
        r matches Err(e) ==> e.kind is Syntax,
        r matches Ok(os) ==> forall|k: int| 0 <= k < os@.len() ==> is_identifier((#[trigger] os@[k]).name@),
        a == b ==> (r matches Ok(os) && os@.len() == 0),
        r is Ok <==> options_scan(cx.toks@, a as int, b as int) is Some,
        r matches Ok(os) ==> os@.len() == options_scan(cx.toks@, a as int, b as int).unwrap().len() && forall|k: int|
            0 <= k < os@.len() ==> option_is(
                cx,
                options_scan(cx.toks@, a as int, b as int).unwrap()[k],
                b as int,
                #[trigger] os@[k],
            ),
{
    let ghost toks = cx.toks@;
    let ghost mut starts: Seq<int> = Seq::empty();
    let mut options: Vec<DisableArg> = Vec::new();
    let mut q = a;
    while q < b
        invariant
            ctx_ok(cx),
            toks == cx.toks@,
            a <= q <= b <= cx.toks@.len(),
            forall|k: int| 0 <= k < options@.len() ==> is_identifier((#[trigger] options@[k]).name@),
            q == a ==> options@.len() == 0,
            options@.len() == starts.len() && forall|k: int|
                0 <= k < options@.len() ==> option_is(cx, starts[k], b as int, #[trigger] options@[k]),
            options_scan(toks, a as int, b as int) == match options_scan(toks, q as int, b as int) {
                Some(ns) => Some(starts + ns),
                None => None::<Seq<int>>,
            },
        decreases b - q,
    {
        let ghost qs = q as int;
        if !ident_at(cx, q, b) {
            return Err(syntax(cx, q, "Invalid syntax for `disable` attribute."));
        }
        let at = cx.toks[q].start;
        let name = ident_text(cx, q);
        q = q + 1;
        let mut refs: Vec<String> = Vec::new();
        if punct_at(cx, q, b, '(') {
            let close = match matching(cx, q, b) {
                Some(c) => c,
                None => {
                    return Err(syntax(cx, q, "Invalid syntax for `disable` attribute."));
                },
            };
            refs = match parse_type_paths(cx, q + 1, close) {
                Ok(r) => r,
                Err(_) => {
                    return Err(syntax(cx, q, "Invalid syntax for `disable` attribute."));
                },
            };
            q = close + 1;
        }
        let ghost prev = options@;
        options.push(DisableArg { name, at, refs });
        assert forall|k: int| 0 <= k < options@.len() implies is_identifier((#[trigger] options@[k]).name@) by {
            if k < prev.len() {
                assert(options@[k] == prev[k]);
            }
        }
        proof {
            starts = starts.push(qs);
            assert forall|k: int| 0 <= k < options@.len() implies option_is(cx, starts[k], b as int, #[trigger] options@[k]) by {
                if k < prev.len() {
                    assert(options@[k] == prev[k]);
                }
            }
        }
        if q < b {
            if !punct_at(cx, q, b, ',') {
                return Err(syntax(cx, q, "Invalid syntax for `disable` attribute."));
            }
            q = q + 1;
            proof {
                match options_scan(toks, q as int, b as int) {
                    Some(ns) => {
                        assert(starts.drop_last() + (seq![qs] + ns) =~= starts + ns);
                    },
                    None => {},
                }
            }
        } else {
            assert(starts.drop_last() + seq![qs] + Seq::<int>::empty() =~= starts + Seq::<int>::empty());
        }
    }
    assert(starts + Seq::<int>::empty() =~= starts);
    Ok(options)
}

/// Takes the `disable(...)` attributes out of the list; the last one decides.
#[verifier::rlimit(60)]
fn extract_disabled(cx: &Ctx, attributes: &mut Vec<Attribute>, spans: &Vec<(usize, usize)>) -> (r: Result<Disabled, Error>)
    requires
        ctx_ok(cx),
        old(attributes)@.len() == spans@.len(),
        forall|k: int| 0 <= k < spans@.len() ==> (#[trigger] spans@[k]).0 <= spans@[k].1 <= cx.toks@.len(),
    ensures
        r is Ok ==> final(attributes)@ == split_spec(old(attributes)@, "disable"@, false),
        r matches Ok(d) ==> (split_spec(old(attributes)@, "disable"@, true).len() == 0 ==> d.from is None && !d.display
            && !d.debug && !d.error),
        r matches Err(e) ==> e.kind is Syntax || e.kind is InvalidDisable,
        old(attributes)@.len() == 0 ==> r is Ok,
        r is Ok <==> forall|k: int|
            0 <= k < old(attributes)@.len() && is_named(#[trigger] old(attributes)@[k], "disable"@) ==> disable_ok(
                cx,
                spans@[k].0 as int,
                spans@[k].1 as int,
            ),
        r matches Ok(d) ==> match last_disable(old(attributes)@) {
            Some(k) => disabled_is(cx, spans@[k].0 as int, spans@[k].1 as int, d),
            None => d.from is None && !d.display && !d.debug && !d.error,
        },
{
    proof {
        reveal_strlit("From");
        reveal_strlit("Display");
        reveal_strlit("Debug");
        reveal_strlit("Error");
    }
    let mut disabled = Disabled::default();
    let mut i: usize = 0;
    while i < attributes.len()
        invariant
            ctx_ok(cx),
            attributes@ == old(attributes)@,
            attributes@.len() == spans@.len(),
            i <= attributes@.len(),
            forall|k: int| 0 <= k < spans@.len() ==> (#[trigger] spans@[k]).0 <= spans@[k].1 <= cx.toks@.len(),
            split_spec(attributes@.take(i as int), "disable"@, true).len() == 0 ==> disabled.from is None
                && !disabled.display && !disabled.debug && !disabled.error,
            forall|k: int|
                0 <= k < i && is_named(#[trigger] attributes@[k], "disable"@) ==> disable_ok(
                    cx,
                    spans@[k].0 as int,
                    spans@[k].1 as int,
                ),
            match last_disable(attributes@.take(i as int)) {
                Some(k) => disabled_is(cx, spans@[k].0 as int, spans@[k].1 as int, disabled),
                None => disabled.from is None && !disabled.display && !disabled.debug && !disabled.error,
            },
        decreases attributes@.len() - i,
    {
        proof {
            lemma_split_take(attributes@, "disable"@, i as int);
            assert(attributes@.take(i + 1).drop_last() =~= attributes@.take(i as int));
            assert(attributes@.take(i + 1).last() == attributes@[i as int]);
        }
        if named(&attributes[i], "disable") {
            let (a, b) = spans[i];
            let options = match parse_disable_args(cx, a, b) {
                Ok(os) => os,
                Err(e) => {
                    assert(!disable_ok(cx, a as int, b as int));
                    return Err(e);
                },
            };
            let ghost os = options@;
            let ghost ns = options_scan(cx.toks@, a as int, b as int).unwrap();
            proof {
                assert forall|k: int| 0 <= k < os.len() implies (option_ok(#[trigger] os[k]) <==> option_ok_at(cx, ns[k], b as int)) by {
                    assert(option_is(cx, ns[k], b as int, os[k]));
                }
                assert forall|w: Seq<char>| names_option(os, w) <==> option_named(cx, ns, w) by {
                    if names_option(os, w) {
                        let k = choose|k: int| 0 <= k < os.len() && (#[trigger] os[k]).name@ == w;
                        assert(option_is(cx, ns[k], b as int, os[k]));
                    }
                    if option_named(cx, ns, w) {
                        let k = choose|k: int| 0 <= k < ns.len() && tok_text(cx, #[trigger] ns[k]) == w;
                        assert(option_is(cx, ns[k], b as int, os[k]));
                    }
                }
                assert forall|k: int| 0 <= k < os.len() implies (#[trigger] os[k]).name@ == tok_text(cx, ns[k]) by {
                    assert(option_is(cx, ns[k], b as int, os[k]));
                }
                lemma_last_from(cx, os, ns);
            }
            let this = match disabled_of(options) {
                Ok(d) => d,
                Err(e) => {
                    proof {
                        let k = choose|k: int| 0 <= k < os.len() && !option_ok(#[trigger] os[k]);
                        assert(!option_ok_at(cx, ns[k], b as int));
                    }
                    return Err(e);
                },
            };
            proof {
                assert forall|k: int| 0 <= k < ns.len() implies option_ok_at(cx, #[trigger] ns[k], b as int) by {
                    assert(option_ok(os[k]));
                }
                match last_from_at(cx, ns) {
                    Some(k) => {
                        assert(option_is(cx, ns[k], b as int, os[k]));
                    },
                    None => {},
                }
            }
            disabled.merge(this);
        }
        i = i + 1;
    }
    assert(attributes@.take(attributes@.len() as int) =~= attributes@);
    let mut all: Vec<Attribute> = Vec::new();
    std::mem::swap(attributes, &mut all);
    let (rest, _) = split_named(all, "disable");
    *attributes = rest;
    Ok(disabled)
}

proof fn lemma_last_from(cx: &Ctx, os: Seq<DisableArg>, ns: Seq<int>)
    requires
        os.len() == ns.len(),
        forall|k: int| 0 <= k < os.len() ==> (#[trigger] os[k]).name@ == tok_text(cx, ns[k]),
    ensures
        last_from(os) == last_from_at(cx, ns),
        last_from_at(cx, ns) matches Some(k) ==> 0 <= k < ns.len(),
    decreases os.len(),
{
    if os.len() > 0 {
        assert(os.last().name@ == tok_text(cx, ns.last()));
        lemma_last_from(cx, os.drop_last(), ns.drop_last());
    }
}

proof fn lemma_last_disable(attrs: Seq<Attribute>)
    ensures
        last_disable(attrs) matches Some(k) ==> 0 <= k < attrs.len() && is_named(attrs[k], "disable"@),
    decreases attrs.len(),
{
    if attrs.len() > 0 {
        lemma_last_disable(attrs.drop_last());
    }
}

proof fn lemma_split_take(s: Seq<Attribute>, w: Seq<char>, i: int)
    requires
        0 <= i < s.len(),
    ensures
        split_spec(s.take(i + 1), w, true) == split_spec(s.take(i), w, true) + (if is_named(s[i], w) {
            seq![s[i]]
        } else {
            Seq::empty()
        }),
    decreases i,
{
    let t1 = s.take(i + 1);
    let t0 = s.take(i);
    if i == 0 {
        assert(t1.skip(1) =~= Seq::<Attribute>::empty());
        assert(t0 =~= Seq::<Attribute>::empty());
        assert(split_spec(t1.skip(1), w, true) =~= Seq::<Attribute>::empty());
    } else {
        lemma_split_take(s.skip(1), w, i - 1);
        assert(t1.skip(1) =~= s.skip(1).take(i));
        assert(t0.skip(1) =~= s.skip(1).take(i - 1));
        assert(t1[0] == s[0] && t0[0] == s[0]);
        assert(s.skip(1)[i - 1] == s[i]);
        if is_named(s[0], w) {
            assert(split_spec(t1, w, true) =~= seq![s[0]] + split_spec(t1.skip(1), w, true));
        }
        assert(split_spec(t1, w, true) =~= split_spec(t0, w, true) + (if is_named(s[i], w) {
            seq![s[i]]
        } else {
            Seq::empty()
        }));
    }
}

/// The fields of a brace block `name: Type, ...`, in the token range `p..end`.
fn parse_fields(cx: &Ctx, p: usize, end: usize) -> (r: Result<Vec<Field>, Error>)
    requires
        ctx_ok(cx),
        p <= end <= cx.toks@.len(),
    ensures
        r matches Err(e) ==> parse_error(e),
        p == end ==> (r matches Ok(fs) && fs@.len() == 0),
        r is Ok <==> fields_scan(cx.toks@, p as int, end as int) is Some,
        r matches Ok(fs) ==> fields_are(cx, end as int, fs@, fields_scan(cx.toks@, p as int, end as int).unwrap()),
{
    let ghost toks = cx.toks@;
    let ghost mut starts: Seq<int> = Seq::empty();
    let mut fields: Vec<Field> = Vec::new();
    let mut q = p;
    while q < end
        invariant
            ctx_ok(cx),
            toks == cx.toks@,
            p <= q <= end <= cx.toks@.len(),
            p == end ==> fields@.len() == 0,
            fields_are(cx, end as int, fields@, starts),
            fields_scan(toks, p as int, end as int) == match fields_scan(toks, q as int, end as int) {
                Some(ns) => Some(starts + ns),
                None => None::<Seq<int>>,
            },
        decreases end - q,
    {
        let ghost qs = q as int;
        if !ident_at(cx, q, end) {
            return Err(syntax(cx, q, "Expected a field name."));
        }
        let name = text(cx, q, q + 1);
        if !punct_at(cx, q + 1, end, ':') || punct_at(cx, q + 2, end, ':') {
            return Err(syntax(cx, q + 1, "Expected `:` after a field name."));
        }
        let (ty, n) = parse_type(cx, q + 2, end)?;
        let ghost prev = fields@;
        fields.push(Field { name, ty });
        proof {
            starts = starts.push(qs);
            assert forall|k: int| 0 <= k < fields@.len() implies (#[trigger] fields@[k]).name@ == tok_text(cx, starts[k])
                && fields@[k].ty@ == span_text(cx, starts[k] + 2, type_end(toks, starts[k] + 2, end as int).unwrap()) by {
                if k < prev.len() {
                    assert(fields@[k] == prev[k]);
                }
            }
        }
        q = n;
        if q < end {
            if !punct_at(cx, q, end, ',') {
                return Err(syntax(cx, q, "Expected `,`."));
            }
            q = q + 1;
            proof {
                match fields_scan(toks, q as int, end as int) {
                    Some(ns) => {
                        assert(starts.drop_last() + (seq![qs] + ns) =~= starts + ns);
                    },
                    None => {},
                }
            }
        } else {
            assert(starts.drop_last() + seq![qs] + Seq::<int>::empty() =~= starts + Seq::<int>::empty());
        }
    }
    assert(starts + Seq::<int>::empty() =~= starts);
    Ok(fields)
}

/// One variant of an inline block.
#[verifier::rlimit(60)]
fn parse_variant(cx: &Ctx, p: usize, end: usize) -> (r: Result<(Variant, usize), Error>)
    requires
        ctx_ok(cx),
        p <= end <= cx.toks@.len(),
    ensures
        r matches Ok((v, q)) ==> p < q <= end && wf_variant(v),
        r matches Err(e) ==> parse_error(e),
        !is_punct(cx.toks@, p as int, end as int, '#') ==> (r matches Ok((v, _)) ==> v.name@ == tok_text(cx, p as int)
            && v.attributes@.len() == 0 && v.cfg_attributes@.len() == 0 && v.display is None),
        !is_punct(cx.toks@, p as int, end as int, '#') && !is_ident_tok(cx.toks@, p as int, end as int) ==> r is Err,
        !is_punct(cx.toks@, p as int, end as int, '#') && is_ident_tok(cx.toks@, p as int, end as int) && !is_punct(
            cx.toks@,
            p + 1,
            end as int,
            '(',
        ) && !is_punct(cx.toks@, p + 1, end as int, '{') ==> (r matches Ok((v, q)) && q == p + 1 && bare(v)),
        !is_punct(cx.toks@, p as int, end as int, '#') && is_ident_tok(cx.toks@, p as int, end as int) && !is_punct(
            cx.toks@,
            p + 1,
            end as int,
            '(',
        ) ==> (r matches Ok((v, _)) ==> v.source_type is None && v.backtrace_type is None),
        !is_punct(cx.toks@, p as int, end as int, '#') && is_ident_tok(cx.toks@, p as int, end as int) && !is_punct(
            cx.toks@,
            p + 1,
            end as int,
            '(',
        ) && is_punct(cx.toks@, p + 1, end as int, '{') && matching_at(cx.toks@, p + 1, end as int) == Some(p + 2) ==> (r matches Ok(
            (v, q),
        ) && q == p + 3 && v.fields is Some && v.fields.unwrap()@.len() == 0),
        !is_punct(cx.toks@, p as int, end as int, '#') && is_ident_tok(cx.toks@, p as int, end as int) && is_punct(
            cx.toks@,
            p + 1,
            end as int,
            '(',
        ) && source_list(cx, p as int, end as int) is None ==> r is Err,
        !is_punct(cx.toks@, p as int, end as int, '#') && is_ident_tok(cx.toks@, p as int, end as int) && source_list(
            cx,
            p as int,
            end as int,
        ) is Some && source_list(cx, p as int, end as int).unwrap().len() > 2 ==> r is Err,
        !is_punct(cx.toks@, p as int, end as int, '#') && is_ident_tok(cx.toks@, p as int, end as int) && source_list(
            cx,
            p as int,
            end as int,
        ) is Some ==> (r matches Ok((v, _)) ==> sources_are(
            cx,
            v,
            source_list(cx, p as int, end as int).unwrap(),
            matching_at(cx.toks@, p + 1, end as int).unwrap(),
        )),
        !is_punct(cx.toks@, p as int, end as int, '#') && is_ident_tok(cx.toks@, p as int, end as int) ==> (r is Ok
            <==> variant_end(cx, p as int, end as int) is Some),
        attrs_scan(cx.toks@, p as int, end as int) matches Some((ns, q1)) ==> exists|attrs: Seq<Attribute>|
            #![trigger attrs_are(cx, end as int, attrs, ns)]
            attrs_are(cx, end as int, attrs, ns) && (displays_of(attrs).len() >= 2 ==> (r matches Err(e)
                && e.kind is DuplicateDisplay)) && (is_ident_tok(cx.toks@, q1, end as int) ==> ((r is Ok <==> (
            displays_of(attrs).len() <= 1 && variant_end(cx, q1, end as int) is Some)) && (r matches Ok((v, q)) ==> q
                == variant_end(cx, q1, end as int).unwrap() && attributes_split(attrs, v) && shape_is(
                cx,
                q1,
                end as int,
                v,
            ) && fields_written(cx, q1, end as int, v)))),
        !is_punct(cx.toks@, p as int, end as int, '#') && is_ident_tok(cx.toks@, p as int, end as int) ==> (r matches Ok(
            (v, q),
        ) ==> q == variant_end(cx, p as int, end as int).unwrap() && fields_written(cx, p as int, end as int, v)),
{
    let (attributes, _spans, mut q) = parse_attributes(cx, p, end)?;
    let ghost all = attributes@;
    let ghost q1 = q as int;
    let (mut attributes, cfg_attributes) = extract_cfg(attributes);
    let ghost rest = attributes@;
    let display = extract_display_attribute(&mut attributes)?;
    proof {
        lemma_split_named(all, "cfg"@, true);
        lemma_split_named(all, "cfg"@, false);
        lemma_split_named(rest, "display"@, false);
        assert forall|k: int| 0 <= k < attributes@.len() implies !is_named(#[trigger] attributes@[k], "cfg"@)
            && !is_named(attributes@[k], "display"@) by {
            let m = choose|m: int| 0 <= m < rest.len() && rest[m] == attributes@[k];
            assert(!is_named(rest[m], "cfg"@));
        }
        assert forall|k: int| 0 <= k < cfg_attributes@.len() implies is_named(#[trigger] cfg_attributes@[k], "cfg"@) by {}
    }
    if !ident_at(cx, q, end) {
        return Err(syntax(cx, q, "Expected the name of an error variant."));
    }
    let name = ident_text(cx, q);
    q = q + 1;
    let mut source_type: Option<String> = None;
    let mut backtrace_type: Option<String> = None;
    if punct_at(cx, q, end, '(') {
        let close = match matching(cx, q, end) {
            Some(c) => c,
            None => {
                return Err(syntax(cx, q, "Unclosed `(`."));
            },
        };
        let mut types = parse_type_paths(cx, q + 1, close)?;
        if types.len() > 2 {
            return Err(syntax(cx, q, "Expected at most two elements - a source error type and a backtrace."));
        }
        if types.len() == 2 {
            backtrace_type = Some(types.remove(1));
        }
        if types.len() == 1 {
            source_type = Some(types.remove(0));
        }
        q = close + 1;
    }
    let mut fields: Option<Vec<Field>> = None;
    if punct_at(cx, q, end, '{') {
        let close = match matching(cx, q, end) {
            Some(c) => c,
            None => {
                return Err(syntax(cx, q, "Unclosed `{`."));
            },
        };
        fields = Some(parse_fields(cx, q + 1, close)?);
        q = close + 1;
    }
    Ok((Variant { attributes, cfg_attributes, display, name, fields, source_type, backtrace_type }, q))
}

/// An inline block `{ V, ... }` starting at `p`; it may not be empty.
#[verifier::rlimit(60)]
fn parse_inline(cx: &Ctx, p: usize, end: usize) -> (r: Result<(Vec<Variant>, usize), Error>)
    requires
        ctx_ok(cx),
        p < end <= cx.toks@.len(),
    ensures
        r matches Ok((vs, q)) ==> p < q <= end && vs@.len() > 0 && forall|k: int|
            0 <= k < vs@.len() ==> wf_variant(#[trigger] vs@[k]),
        r matches Err(e) ==> parse_error(e),
        r matches Ok((_, q)) ==> matching_at(cx.toks@, p as int, end as int) == Some(q - 1),
        matching_at(cx.toks@, p as int, end as int) is None ==> r is Err,
        matching_at(cx.toks@, p as int, end as int) == Some(p + 1) ==> r is Err,
        is_plain_block(cx, p as int, end as int) ==> (r matches Ok((vs, q)) && plain_block(cx, p as int, end as int, vs@, q as int)),
{
    let close = match matching(cx, p, end) {
        Some(c) => c,
        None => {
            return Err(syntax(cx, p, "Unclosed `{`."));
        },
    };
    let mut variants: Vec<Variant> = Vec::new();
    let mut q = p + 1;
    let ghost toks = cx.toks@;
    let ghost plain = variants_scan(cx, p + 1, close as int) is Some;
    let ghost mut pos: Seq<int> = Seq::empty();
    while q < close
        invariant
            toks == cx.toks@,
            matching_at(toks, p as int, end as int) == Some(close as int),
            plain == variants_scan(cx, p + 1, close as int) is Some,
            plain ==> variants@.len() == pos.len() && forall|k: int|
                0 <= k < variants@.len() ==> variant_is(cx, pos[k], close as int, #[trigger] variants@[k]),
            plain && q == close ==> variants_scan(cx, p + 1, close as int) == Some(pos),
            plain && q < close ==> variants_scan(cx, p + 1, close as int) == match variants_scan(cx, q as int, close as int) {
                Some(ns) => Some(pos + ns),
                None => None::<Seq<int>>,
            },
            close == p + 1 ==> variants@.len() == 0,
            ctx_ok(cx),
            p < q <= close < end <= cx.toks@.len(),
            forall|k: int| 0 <= k < variants@.len() ==> wf_variant(#[trigger] variants@[k]),
        decreases close - q,
    {
        let ghost q0 = q as int;
        proof {
            if plain {
                assert(variants_scan(cx, q0, close as int) is Some);
                assert(is_ident_tok(toks, q0, close as int));
                assert(variant_end(cx, q0, close as int) is Some);
                assert(!is_punct(toks, q0, close as int, '#'));
            }
        }
        let (v, n) = parse_variant(cx, q, close)?;
        let ghost prev = variants@;
        variants.push(v);
        assert forall|k: int| 0 <= k < variants@.len() implies wf_variant(#[trigger] variants@[k]) by {
            if k < prev.len() {
                assert(variants@[k] == prev[k]);
            }
        }
        proof {
            if plain {
                pos = pos.push(q0);
                assert forall|k: int| 0 <= k < variants@.len() implies variant_is(cx, pos[k], close as int, #[trigger] variants@[k]) by {
                    if k < prev.len() {
                        assert(variants@[k] == prev[k]);
                    }
                }
            }
        }
        q = n;
        if q < close {
            if !punct_at(cx, q, close, ',') {
                return Err(syntax(cx, q, "Expected `,` or `}` after an error variant."));
            }
            q = q + 1;
        }
        proof {
            if plain {
                if q == close {
                    assert(pos.drop_last() + seq![q0] =~= pos);
                } else {
                    match variants_scan(cx, q as int, close as int) {
                        Some(ns) => {
                            assert(pos.drop_last() + (seq![q0] + ns) =~= pos + ns);
                        },
                        None => {},
                    }
                }
            }
        }
    }
    if variants.len() == 0 {
        return Err(syntax(cx, p, "Inline error variants cannot be empty"));
    }
    Ok((variants, close + 1))
}

/// A reference `Name<Args>` starting at `p`.
fn parse_ref(cx: &Ctx, p: usize, end: usize) -> (r: Result<(RefPart, usize), Error>)
    requires
        ctx_ok(cx),
        p < end <= cx.toks@.len(),
        cx.toks@[p as int].kind is Ident,
    ensures
        r matches Ok((rp, q)) ==> p < q <= end && wf_ref(rp) && stands_at(cx.chars@, rp.name@, rp.at),
        r matches Err(e) ==> parse_error(e),
        r is Ok <==> generics_at(cx.toks@, p + 1, end as int) is Some,
        r matches Ok((rp, q)) ==> ref_at(cx, p as int, end as int, rp, q as int),
{
    let name = ident_text(cx, p);
    proof {
        reveal(lexed_ok);
        assert(cx.toks@[p as int].start < cx.toks@[p as int].end <= cx.chars@.len());
    }
    let (generic_refs, q) = generics(cx, p + 1, end)?;
    Ok((RefPart { name, at: cx.toks[p].start, generic_refs }, q))
}

#[verifier::rlimit(60)]
fn parse_part(cx: &Ctx, p: usize, end: usize) -> (r: Result<(Part, usize), Error>)
    requires
        ctx_ok(cx),
        p <= end <= cx.toks@.len(),
    ensures
        r matches Ok((part, q)) ==> p < q <= end && wf_part(part) && (part matches Part::Ref(rp) ==> stands_at(
            cx.chars@,
            rp.name@,
            rp.at,
        )),
        r matches Err(e) ==> parse_error(e),
        r matches Ok((part, _)) ==> (part is Inline <==> is_punct(cx.toks@, p as int, end as int, '{')),
        !is_punct(cx.toks@, p as int, end as int, '{') && !is_ident_tok(cx.toks@, p as int, end as int) ==> r is Err,
        is_ident_tok(cx.toks@, p as int, end as int) ==> (r is Ok <==> generics_at(cx.toks@, p + 1, end as int) is Some),
        r matches Ok((Part::Ref(rp), q)) ==> ref_at(cx, p as int, end as int, rp, q as int),
        part_stop(cx, p as int, end as int) is Some ==> (r matches Ok((part, q)) && q == part_stop(
            cx,
            p as int,
            end as int,
        ).unwrap() && part_is(cx, p as int, end as int, part)),
{
    if punct_at(cx, p, end, '{') {
        let (vs, q) = parse_inline(cx, p, end)?;
        return Ok((Part::Inline(vs), q));
    }
    if ident_at(cx, p, end) {
        let (rp, q) = parse_ref(cx, p, end)?;
        return Ok((Part::Ref(rp), q));
    }
    Err(syntax(
        cx,
        p,
        "Expected the next token to be the start of an inline error variant ('{...}') or a reference to another error enum.",
    ))
}

/// `name` is the text at offset `at`.
pub open spec fn stands_at(text: Seq<char>, name: Seq<char>, at: usize) -> bool {
    at + name.len() <= text.len() && text.subrange(at as int, at + name.len()) == name
}

/// Every declaration name and reference name is the text at the offset recorded with it.
pub open spec fn located(text: Seq<char>, d: Declaration) -> bool {
    &&& stands_at(text, d.name@, d.name_at)
    &&& forall|k: int| 0 <= k < d.parts@.len() ==> ((#[trigger] d.parts@[k]) matches Part::Ref(r) ==> stands_at(
        text,
        r.name@,
        r.at,
    ))
}

/// A variant's name is an identifier; its `cfg(...)` attributes stand apart from
/// the others, and its `display(...)` has been taken out.
pub open spec fn wf_variant(v: Variant) -> bool {
    &&& is_identifier(v.name@)
    &&& forall|k: int| 0 <= k < v.cfg_attributes@.len() ==> is_named(#[trigger] v.cfg_attributes@[k], "cfg"@)
    &&& forall|k: int| 0 <= k < v.attributes@.len() ==> !is_named(#[trigger] v.attributes@[k], "cfg"@)
        && !is_named(v.attributes@[k], "display"@)
}

pub open spec fn wf_ref(r: RefPart) -> bool {
    &&& is_identifier(r.name@)
    &&& forall|k: int| 0 <= k < r.generic_refs@.len() ==> is_identifier((#[trigger] r.generic_refs@[k])@)
}

/// An inline part holds at least one variant; every name is an identifier.
pub open spec fn wf_part(p: Part) -> bool {
    match p {
        Part::Inline(vs) => vs@.len() > 0 && forall|k: int| 0 <= k < vs@.len() ==> wf_variant(#[trigger] vs@[k]),
        Part::Ref(r) => wf_ref(r),
    }
}

/// A declaration has at least one part; its names are identifiers, and its
/// `disable(...)` attributes have been taken out.
pub open spec fn wf_declaration(d: Declaration) -> bool {
    &&& is_identifier(d.name@)
    &&& forall|k: int| 0 <= k < d.attributes@.len() ==> !is_named(#[trigger] d.attributes@[k], "disable"@)
    &&& forall|k: int| 0 <= k < d.generics@.len() ==> is_identifier((#[trigger] d.generics@[k])@)
    &&& d.parts@.len() > 0
    &&& forall|k: int| 0 <= k < d.parts@.len() ==> wf_part(#[trigger] d.parts@[k])
}

pub open spec fn wf_set(s: ErrorSet) -> bool {
    forall|i: int| 0 <= i < s.declarations@.len() ==> wf_declaration(#[trigger] s.declarations@[i])
}

#[verifier::rlimit(60)]
fn parse_declaration(cx: &Ctx, p: usize, end: usize) -> (r: Result<(Declaration, usize), Error>)
    requires
        ctx_ok(cx),
        p <= end <= cx.toks@.len(),
    ensures
        r matches Ok((d, q)) ==> p < q <= end && wf_declaration(d) && located(cx.chars@, d),
        r matches Err(e) ==> parse_error(e),
        r matches Ok((_, q)) ==> q == end || is_punct(cx.toks@, q as int, end as int, ';'),
        !is_punct(cx.toks@, p as int, end as int, '#') ==> (r matches Ok((d, _)) ==> d.name@ == tok_text(cx, p as int)
            && d.name_at == cx.toks@[p as int].start && d.attributes@.len() == 0),
        !is_punct(cx.toks@, p as int, end as int, '#') && is_ident_tok(cx.toks@, p as int, end as int) && !is_punct(
            cx.toks@,
            p + 1,
            end as int,
            '=',
        ) && !is_punct(cx.toks@, p + 1, end as int, '<') ==> r is Err,
        !is_punct(cx.toks@, p as int, end as int, '#') && is_ident_tok(cx.toks@, p as int, end as int) && is_punct(
            cx.toks@,
            p + 1,
            end as int,
            '=',
        ) && (p + 2 == end || is_punct(cx.toks@, p + 2, end as int, ';')) ==> r is Err,
        !is_punct(cx.toks@, p as int, end as int, '#') && !is_ident_tok(cx.toks@, p as int, end as int) ==> r is Err,
        !is_punct(cx.toks@, p as int, end as int, '#') && decl_runs_out(cx, p as int, end as int) && end == cx.toks@.len()
            ==> (r matches Err(e) && e.kind is Syntax && e.at == cx.toks@[end - 1].start),
        plain_declaration(cx, p as int, end as int) ==> (r matches Ok((d, q)) && declaration_is(
            cx,
            p as int,
            end as int,
            d,
            q as int,
        )),
        attrs_scan(cx.toks@, p as int, end as int) matches Some((ns, q1)) ==> exists|attrs: Seq<Attribute>|
            #![trigger attrs_are(cx, end as int, attrs, ns)]
            attrs_are(cx, end as int, attrs, ns) && (!disables_ok(cx, end as int, attrs, ns) ==> r is Err) && (disables_ok(
                cx,
                end as int,
                attrs,
                ns,
            ) && plain_declaration(cx, q1, end as int) ==> (r matches Ok((d, q)) && declaration_shape(
                cx,
                q1,
                end as int,
                d,
                q as int,
            ) && d.attributes@ == split_spec(attrs, "disable"@, false) && disabled_from(cx, end as int, attrs, ns, d.disabled))),
{
    let (mut attributes, spans, q) = parse_attributes(cx, p, end)?;
    let ghost all = attributes@;
    let ghost q1 = q as int;
    proof {
        let ns = attrs_scan(cx.toks@, p as int, end as int).unwrap().0;
        assert forall|k: int| 0 <= k < all.len() && is_named(#[trigger] all[k], "disable"@) implies spans@[k].0 == disable_args_at(
            cx,
            ns[k],
            end as int,
        ).0 && spans@[k].1 == disable_args_at(cx, ns[k], end as int).1 by {
            assert(attr_is(cx, ns[k], end as int, all[k]));
            assert(span_is(cx, ns[k], end as int, spans@[k]));
        }
        match last_disable(all) {
            Some(k) => {
                lemma_last_disable(all);
            },
            None => {},
        }
    }
    let disabled = extract_disabled(cx, &mut attributes, &spans)?;
    proof {
        lemma_split_named(all, "disable"@, false);
    }
    if q >= end {
        return Err(syntax(
            cx,
            q,
            "Expected an error definition to be next after attributes. You may have a dangling doc comment.",
        ));
    }
    if !ident_at(cx, q, end) {
        return Err(syntax(cx, q, "Expected the name of an error set."));
    }
    let name_at = cx.toks[q].start;
    let name = ident_text(cx, q);
    proof {
        reveal(lexed_ok);
        assert(cx.toks@[q as int].start < cx.toks@[q as int].end <= cx.chars@.len());
    }
    let mut q = q + 1;
    if !punct_at(cx, q, end, '=') && !punct_at(cx, q, end, '<') {
        return Err(syntax(cx, q, "Expected `=` or generic `<..>` to be next."));
    }
    let (generics, n) = generics(cx, q, end)?;
    q = n;
    if !punct_at(cx, q, end, '=') {
        return Err(syntax(cx, q, "Expected `=` to be next."));
    }
    q = q + 1;
    let ghost q0 = q;
    let ghost plain_d = plain_declaration(cx, q1, end as int);
    let ghost runs = !is_punct(cx.toks@, p as int, end as int, '#') && decl_runs_out(cx, p as int, end as int);
    assert(runs ==> q0 == parts_start(cx, p as int, end as int));
    let ghost mut starts: Seq<int> = Seq::empty();
    assert(plain_d ==> q0 == parts_start(cx, q1, end as int));
    let mut parts: Vec<Part> = Vec::new();
    while q < end
        invariant_except_break
            plain_d ==> decl_parts(cx, q1, end as int) == match plain_parts(cx, q as int, end as int) {
                Some((ps, f)) => Some((starts + ps, f)),
                None => None::<(Seq<int>, int)>,
            },
        invariant
            attrs_scan(cx.toks@, p as int, end as int) == Some((attrs_scan(cx.toks@, p as int, end as int).unwrap().0, q1)),
            attrs_are(cx, end as int, all, attrs_scan(cx.toks@, p as int, end as int).unwrap().0),
            disables_ok(cx, end as int, all, attrs_scan(cx.toks@, p as int, end as int).unwrap().0),
            disabled_from(cx, end as int, all, attrs_scan(cx.toks@, p as int, end as int).unwrap().0, disabled),
            attributes@ == split_spec(all, "disable"@, false),
            plain_declaration(cx, p as int, end as int) ==> q1 == p,
            runs == (!is_punct(cx.toks@, p as int, end as int, '#') && decl_runs_out(cx, p as int, end as int)),
            runs ==> parts_run_out(cx, q as int, end as int),
            plain_d == plain_declaration(cx, q1, end as int),
            plain_d ==> q0 == parts_start(cx, q1, end as int),
            plain_d ==> parts@.len() == starts.len() && forall|k: int|
                0 <= k < starts.len() ==> part_is(cx, starts[k], end as int, #[trigger] parts@[k]),
            q0 == end ==> parts@.len() == 0,
            q0 <= q,
            parts@.len() == 0 ==> q == q0,
            is_punct(cx.toks@, q0 as int, end as int, ';') ==> parts@.len() == 0,
            ctx_ok(cx),
            p < q <= end <= cx.toks@.len(),
            forall|k: int| 0 <= k < parts@.len() ==> wf_part(#[trigger] parts@[k]),
            forall|k: int| 0 <= k < parts@.len() ==> ((#[trigger] parts@[k]) matches Part::Ref(r) ==> stands_at(
                cx.chars@,
                r.name@,
                r.at,
            )),
        ensures
            q >= end || is_punct(cx.toks@, q as int, end as int, ';'),
            p < q <= end,
            plain_d ==> parts@.len() == starts.len() && forall|k: int|
                0 <= k < starts.len() ==> part_is(cx, starts[k], end as int, #[trigger] parts@[k]),
            plain_d ==> decl_parts(cx, q1, end as int) == Some((starts, q as int)),
        decreases end - q,
    {
        let ghost qs = q as int;
        proof {
            if plain_d {
                assert(plain_parts(cx, qs, end as int) is Some);
                assert(part_stop(cx, qs, end as int) is Some);
            }
        }
        let (part, n) = parse_part(cx, q, end)?;
        let ghost prev = parts@;
        parts.push(part);
        proof {
            if plain_d {
                starts = starts.push(qs);
                assert forall|k: int| 0 <= k < starts.len() implies part_is(cx, starts[k], end as int, #[trigger] parts@[k]) by {
                    if k < prev.len() {
                        assert(parts@[k] == prev[k]);
                    }
                }
            }
        }
        assert forall|k: int| 0 <= k < parts@.len() implies wf_part(#[trigger] parts@[k]) && ((parts@[k]) matches Part::Ref(
            r,
        ) ==> stands_at(cx.chars@, r.name@, r.at)) by {
            if k < prev.len() {
                assert(parts@[k] == prev[k]);
            }
        }
        q = n;
        if or_or_at(cx, q, end) {
            q = q + 2;
            proof {
                if plain_d {
                    match plain_parts(cx, q as int, end as int) {
                        Some((ps, f)) => {
                            assert(starts.drop_last() + (seq![qs] + ps) =~= starts + ps);
                        },
                        None => {},
                    }
                }
            }
        } else if punct_at(cx, q, end, ';') {
            proof {
                if plain_d {
                    assert(starts.drop_last() + seq![qs] =~= starts);
                }
            }
            break;
        } else {
            return Err(syntax(cx, q, "Expected `||` or `;` to be next."));
        }
    }
    if parts.len() == 0 {
        return Err(syntax(cx, q, "Missing error definitions"));
    }
    Ok((Declaration { attributes, name, name_at, generics, disabled, parts }, q))
}

/// The text has a string literal or block comment that never closes, and the
/// result is the error at its start.
pub open spec fn lexing_failed<T>(text: Seq<char>, r: Result<T, Error>) -> bool {
    r matches Err(e) && e.kind is Syntax && unterminated(text, e.at as int)
}

/// `cx` holds the text `text` and tokens for it: in order, each where its kind
/// says, and every character outside them whitespace or comment.
pub open spec fn tokens_of(cx: &Ctx, text: Seq<char>) -> bool {
    &&& ctx_ok(cx)
    &&& cx.chars@ == text
    &&& forall|m: int| 0 <= m < text.len() && !covered(cx.toks@, m) ==> skipped(text, m)
}

/// From token `q`: attribute-free declarations, each ended by `;`, to the end
/// of the tokens; the positions where the declarations start.
pub open spec fn plain_set(cx: &Ctx, q: int) -> Option<Seq<int>>
    decreases cx.toks@.len() - q,
{
    let end = cx.toks@.len() as int;
    if q == end {
        Some(Seq::empty())
    } else if 0 <= q < end && plain_declaration(cx, q, end) {
        let f = decl_parts(cx, q, end).unwrap().1;
        if q < f < end {
            match plain_set(cx, f + 1) {
                Some(ds) => Some(seq![q] + ds),
                None => None,
            }
        } else {
            None
        }
    } else {
        None
    }
}

/// `set` is the declarations starting at `ds`, each as its tokens write it.
pub open spec fn set_is(cx: &Ctx, ds: Seq<int>, set: ErrorSet) -> bool {
    &&& set.declarations@.len() == ds.len()
    &&& forall|i: int|
        0 <= i < ds.len() ==> declaration_is(
            cx,
            ds[i],
            cx.toks@.len() as int,
            #[trigger] set.declarations@[i],
            decl_parts(cx, ds[i], cx.toks@.len() as int).unwrap().1,
        )
}

/// Parses the tokens of a description: declarations, each ended by `;`. Where
/// every declaration is attribute-free with parts of bare-name blocks and
/// references, the result is those declarations in order, each as written.
#[verifier::rlimit(60)]
pub fn parse_tokens(cx: &Ctx) -> (r: Result<ErrorSet, Error>)
    requires
        ctx_ok(cx),
    ensures
        r matches Ok(set) ==> wf_set(set) && forall|i: int|
            0 <= i < set.declarations@.len() ==> located(cx.chars@, #[trigger] set.declarations@[i]),
        r matches Err(e) ==> parse_error(e),
        cx.toks@.len() == 0 ==> (r matches Ok(set) && set.declarations@.len() == 0),
        plain_set(cx, 0) matches Some(ds) ==> (r matches Ok(set) && set_is(cx, ds, set)),
        set_runs_out(cx, 0) ==> (r matches Err(e) && e.kind is Syntax && e.at == cx.toks@[cx.toks@.len() - 1].start),
{
    let end = cx.toks.len();
    let mut declarations: Vec<Declaration> = Vec::new();
    let ghost mut starts: Seq<int> = Seq::empty();
    let ghost plain = plain_set(cx, 0) is Some;
    let ghost runs = set_runs_out(cx, 0);
    let mut q: usize = 0;
    while q < end
        invariant
            ctx_ok(cx),
            q <= end == cx.toks@.len(),
            forall|i: int| 0 <= i < declarations@.len() ==> wf_declaration(#[trigger] declarations@[i]),
            forall|i: int| 0 <= i < declarations@.len() ==> located(cx.chars@, #[trigger] declarations@[i]),
            end == 0 ==> declarations@.len() == 0,
            plain == plain_set(cx, 0) is Some,
            runs == set_runs_out(cx, 0),
            runs ==> set_runs_out(cx, q as int),
            plain ==> plain_set(cx, 0) == match plain_set(cx, q as int) {
                Some(ds) => Some(starts + ds),
                None => None::<Seq<int>>,
            },
            plain ==> declarations@.len() == starts.len() && forall|i: int|
                0 <= i < starts.len() ==> declaration_is(
                    cx,
                    starts[i],
                    end as int,
                    #[trigger] declarations@[i],
                    decl_parts(cx, starts[i], end as int).unwrap().1,
                ),
        decreases end - q,
    {
        let ghost qs = q as int;
        let (d, n) = parse_declaration(cx, q, end)?;
        let ghost prev = declarations@;
        declarations.push(d);
        assert forall|i: int| 0 <= i < declarations@.len() implies wf_declaration(#[trigger] declarations@[i]) && located(
            cx.chars@,
            declarations@[i],
        ) by {
            if i < prev.len() {
                assert(declarations@[i] == prev[i]);
            }
        }
        proof {
            if plain {
                starts = starts.push(qs);
                assert forall|i: int| 0 <= i < starts.len() implies declaration_is(
                    cx,
                    starts[i],
                    end as int,
                    #[trigger] declarations@[i],
                    decl_parts(cx, starts[i], end as int).unwrap().1,
                ) by {
                    if i < prev.len() {
                        assert(declarations@[i] == prev[i]);
                    }
                }
            }
        }
        q = n;
        if punct_at(cx, q, end, ';') {
            q = q + 1;
            proof {
                if plain {
                    match plain_set(cx, q as int) {
                        Some(ds) => {
                            assert(starts.drop_last() + (seq![qs] + ds) =~= starts + ds);
                        },
                        None => {},
                    }
                }
            }
        } else {
            return Err(syntax(cx, q, "Expected a `;` after an error definition."));
        }
    }
    proof {
        if plain {
            assert(starts + Seq::<int>::empty() =~= starts);
        }
    }
    Ok(ErrorSet { declarations })
}

/// Parses a whole description: declarations, each ended by `;`. Text of
/// whitespace alone is the empty set.
#[verifier::rlimit(60)]
pub fn parse(src: &str) -> (r: Result<ErrorSet, Error>)
    ensures
        r matches Ok(set) ==> wf_set(set) && forall|i: int|
            0 <= i < set.declarations@.len() ==> located(src@, #[trigger] set.declarations@[i]),
        (forall|m: int| 0 <= m < src@.len() ==> is_space(#[trigger] src@[m])) ==> (r matches Ok(set)
            && set.declarations@.len() == 0),
        r matches Err(e) ==> parse_error(e),
        tokens(src@) is None ==> lexing_failed(src@, r),
        tokens(src@) matches Some(ts) ==> exists|cx: Ctx|
            #![trigger tokens_of(&cx, src@)]
            cx.toks@ == ts && tokens_of(&cx, src@) && (plain_set(&cx, 0) matches Some(ds) ==> (r matches Ok(set) && set_is(
                &cx,
                ds,
                set,
            ))) && (set_runs_out(&cx, 0) ==> (r matches Err(e) && e.kind is Syntax && e.at == ts[ts.len() - 1].start)),
{
    let chars = chars_of(src);
    let toks = lex(&chars)?;
    let cx = Ctx { src: String::from_str(src), chars, toks };
    let r = parse_tokens(&cx);
    assert(tokens_of(&cx, src@));
    r
}

} // verus!
