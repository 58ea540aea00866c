//! Facts about resolution, proved from the model that `resolve` is specified by.
use vstd::prelude::*;

use crate::ast::VariantView;
use crate::error::{Error, ErrorKind};
use crate::resolve::{
    absorb, acyclic, all_declared, arities_match, arity_mismatch, edge, explains, has_name, is_cycle,
    is_first, is_resolution, merge, subst_all, subst_variant, target, valid, Node,
};

verus! {

pub open spec fn names_of(vs: Seq<VariantView>) -> Set<Seq<char>> {
    Set::new(|n: Seq<char>| has_name(vs, n))
}

proof fn lemma_merge_extends(acc: Seq<VariantView>, add: Seq<VariantView>)
    ensures
        merge(acc, add).len() >= acc.len(),
        merge(acc, add).subrange(0, acc.len() as int) == acc,
        forall|m: int| acc.len() <= m < merge(acc, add).len() ==> !has_name(acc, (#[trigger] merge(acc, add)[m]).name),
        forall|n: Seq<char>| has_name(merge(acc, add), n) <==> has_name(acc, n) || has_name(add, n),
    decreases add.len(),
{
    if add.len() > 0 {
        let d = add.drop_last();
        lemma_merge_extends(acc, d);
        let m0 = merge(acc, d);
        let v = add.last();
        assert forall|n: Seq<char>| has_name(add, n) <==> has_name(d, n) || v.name == n by {
            if has_name(add, n) {
                let k = choose|k: int| 0 <= k < add.len() && (#[trigger] add[k]).name == n;
                if k < d.len() {
                    assert(d[k] == add[k]);
                }
            }
            if has_name(d, n) {
                let k = choose|k: int| 0 <= k < d.len() && (#[trigger] d[k]).name == n;
                assert(add[k] == d[k]);
            }
            if v.name == n {
                assert(add[add.len() - 1] == v);
            }
        }
        if !has_name(m0, v.name) {
            let m1 = m0.push(v);
            assert(m1.subrange(0, acc.len() as int) =~= m0.subrange(0, acc.len() as int));
            assert forall|n: Seq<char>| has_name(m1, n) <==> has_name(m0, n) || v.name == n by {
                if has_name(m1, n) {
                    let k = choose|k: int| 0 <= k < m1.len() && (#[trigger] m1[k]).name == n;
                    if k < m0.len() {
                        assert(m0[k] == m1[k]);
                    }
                }
                if has_name(m0, n) {
                    let k = choose|k: int| 0 <= k < m0.len() && (#[trigger] m0[k]).name == n;
                    assert(m1[k] == m0[k]);
                }
                if v.name == n {
                    assert(m1[m0.len() as int] == v);
                }
            }
            assert forall|m: int| acc.len() <= m < m1.len() implies !has_name(acc, (#[trigger] m1[m]).name) by {
                if m < m0.len() {
                    assert(m1[m] == m0[m]);
                } else {
                    assert(m1[m] == v);
                    if has_name(acc, v.name) {
                        let k = choose|k: int| 0 <= k < acc.len() && (#[trigger] acc[k]).name == v.name;
                        assert(m0.subrange(0, acc.len() as int)[k] == acc[k]);
                        assert(m0[k] == acc[k]);
                    }
                }
            }
        } else {
            assert forall|n: Seq<char>| has_name(m0, n) || v.name == n implies has_name(m0, n) by {}
        }
    }
}

proof fn lemma_subst_names(vs: Seq<VariantView>, params: Seq<String>, args: Seq<String>)
    ensures
        forall|n: Seq<char>| has_name(subst_all(vs, params, args), n) <==> has_name(vs, n),
{
    let s = subst_all(vs, params, args);
    assert forall|n: Seq<char>| has_name(s, n) <==> has_name(vs, n) by {
        if has_name(s, n) {
            let k = choose|k: int| 0 <= k < s.len() && (#[trigger] s[k]).name == n;
            assert(s[k] == subst_variant(vs[k], params, args));
        }
        if has_name(vs, n) {
            let k = choose|k: int| 0 <= k < vs.len() && (#[trigger] vs[k]).name == n;
            assert(s[k] == subst_variant(vs[k], params, args));
        }
    }
}

/// What resolution adds keeps what was there first, and brings only names that
/// were not there; every name of every target is there after.
proof fn lemma_absorb_extends(acc: Seq<VariantView>, refs: Seq<crate::ast::RefPart>, g: Seq<Node>, res: Seq<Seq<VariantView>>)
    ensures
        absorb(acc, refs, g, res).len() >= acc.len(),
        absorb(acc, refs, g, res).subrange(0, acc.len() as int) == acc,
        forall|m: int| acc.len() <= m < absorb(acc, refs, g, res).len()
            ==> !has_name(acc, (#[trigger] absorb(acc, refs, g, res)[m]).name),
        forall|n: Seq<char>| has_name(acc, n) ==> has_name(absorb(acc, refs, g, res), n),
        forall|k: int, n: Seq<char>| 0 <= k < refs.len() && #[trigger] has_name(res[target(g, (#[trigger] refs[k]).name@)], n)
            ==> has_name(absorb(acc, refs, g, res), n),
    decreases refs.len(),
{
    if refs.len() > 0 {
        let d = refs.drop_last();
        lemma_absorb_extends(acc, d, g, res);
        let a0 = absorb(acc, d, g, res);
        let r = refs.last();
        let t = target(g, r.name@);
        let add = subst_all(res[t], g[t].generics, r.generic_refs@);
        lemma_merge_extends(a0, add);
        lemma_subst_names(res[t], g[t].generics, r.generic_refs@);
        let a1 = merge(a0, add);
        assert(a1.subrange(0, acc.len() as int) =~= a0.subrange(0, acc.len() as int)) by {
            assert forall|m: int| 0 <= m < acc.len() implies a1[m] == a0[m] by {
                assert(a1.subrange(0, a0.len() as int)[m] == a0[m]);
            }
        }
        assert forall|m: int| acc.len() <= m < a1.len() implies !has_name(acc, (#[trigger] a1[m]).name) by {
            if m < a0.len() {
                assert(a1.subrange(0, a0.len() as int)[m] == a0[m]);
                assert(a1[m] == a0[m]);
            } else if has_name(acc, a1[m].name) {
                let k = choose|k: int| 0 <= k < acc.len() && (#[trigger] acc[k]).name == a1[m].name;
                assert(a0.subrange(0, acc.len() as int)[k] == acc[k]);
                assert(a0[k] == acc[k]);
                assert(has_name(a0, a1[m].name));
            }
        }
        assert forall|k: int, n: Seq<char>| 0 <= k < refs.len() && #[trigger] has_name(res[target(g, (#[trigger] refs[k]).name@)], n)
            implies has_name(a1, n) by {
            if k < d.len() {
                assert(d[k] == refs[k]);
            }
        }
    }
}

/// Where every reference names a declaration and no walk along references
/// closes, resolution fails exactly when some reference supplies a number of
/// generic arguments other than its target declares, and then the error it
/// gives is that mismatch.
pub proof fn arity_check(g: Seq<Node>, e: Error)
    requires
        all_declared(g),
        acyclic(g),
    ensures
        !valid(g) <==> exists|i: int, k: int, j: int| #[trigger] arity_mismatch(g, i, k, j),
        explains(g, e) ==> e.kind is ArityMismatch,
{
    if explains(g, e) {
        match e.kind {
            ErrorKind::Undeclared => {
                let (i, k) = choose|i: int, k: int|
                    0 <= i < g.len() && 0 <= k < g[i].refs.len() && !crate::resolve::declared(g, (#[trigger] g[i].refs[k]).name@)
                        && g[i].refs[k].at == e.at;
            },
            ErrorKind::Cycle(path) => {
                let p = choose|p: Seq<int>|
                    #[trigger] is_cycle(g, p) && path@.len() == p.len() && forall|m: int|
                        0 <= m < p.len() ==> (#[trigger] path@[m])@ == g[p[m]].name;
                assert(is_cycle(g, p));
            },
            _ => {},
        }
    }
}

/// Where every reference names a declaration with the right number of generic
/// arguments, a closed walk along references makes resolution fail, and the
/// error it gives is a cycle: a path of names that starts and ends with the
/// same name, each one referencing the next.
pub proof fn cycle_detection(g: Seq<Node>, p: Seq<int>, e: Error)
    requires
        all_declared(g),
        arities_match(g),
        is_cycle(g, p),
    ensures
        !valid(g),
        explains(g, e) ==> (e.kind matches ErrorKind::Cycle(path) && path@.len() >= 2
            && path@[0]@ == path@[path@.len() - 1]@),
{
    assert(!acyclic(g));
    if explains(g, e) {
        match e.kind {
            ErrorKind::Undeclared => {
                let (i, k) = choose|i: int, k: int|
                    0 <= i < g.len() && 0 <= k < g[i].refs.len() && !crate::resolve::declared(g, (#[trigger] g[i].refs[k]).name@)
                        && g[i].refs[k].at == e.at;
            },
            ErrorKind::ArityMismatch { supplied, expected } => {
                let (i, k, j) = choose|i: int, k: int, j: int|
                    #[trigger] arity_mismatch(g, i, k, j) && g[i].refs[k].generic_refs@.len() == supplied
                        && g[j].generics.len() == expected && g[i].refs[k].at == e.at;
                assert(arity_mismatch(g, i, k, j));
            },
            ErrorKind::Cycle(path) => {
                let q = choose|q: Seq<int>|
                    #[trigger] is_cycle(g, q) && path@.len() == q.len() && forall|m: int|
                        0 <= m < q.len() ==> (#[trigger] path@[m])@ == g[q[m]].name;
                assert(path@[0]@ == g[q[0]].name);
                assert(path@[path@.len() - 1]@ == g[q[q.len() - 1]].name);
            },
            _ => {},
        }
    }
}

/// If `a` references `b` and `b` references `c`, the resolved `a` has a
/// variant of every name among the inline variants of `a`, `b` and `c`.
pub proof fn transitive_inclusion(g: Seq<Node>, res: Seq<Seq<VariantView>>, a: int, b: int, c: int)
    requires
        is_resolution(g, res),
        edge(g, a, b),
        edge(g, b, c),
    ensures
        names_of(g[a].inline).union(names_of(g[b].inline)).union(names_of(g[c].inline)).subset_of(names_of(res[a])),
{
    assert forall|x: int, y: int| #[trigger] edge(g, x, y) && 0 <= x < g.len() implies
        names_of(g[x].inline).subset_of(names_of(res[x])) && names_of(res[y]).subset_of(names_of(res[x])) by {
        lemma_absorb_extends(g[x].inline, g[x].refs, g, res);
        assert(res[x] == absorb(g[x].inline, g[x].refs, g, res));
        let k = choose|k: int| 0 <= k < g[x].refs.len() && is_first(g, (#[trigger] g[x].refs[k]).name@, y);
        crate::resolve::lemma_target(g, g[x].refs[k].name@, y);
        assert forall|n: Seq<char>| names_of(res[y]).contains(n) implies names_of(res[x]).contains(n) by {
            assert(has_name(res[target(g, g[x].refs[k].name@)], n));
        }
    }
    lemma_absorb_extends(g[c].inline, g[c].refs, g, res);
    assert(res[c] == absorb(g[c].inline, g[c].refs, g, res));
}

/// A variant that the inline parts of a declaration define once is, after
/// resolution, the one variant of that name in it, as it was written: what a
/// reference brings under the same name is dropped.
pub proof fn first_declared_wins(g: Seq<Node>, res: Seq<Seq<VariantView>>, i: int, q: int)
    requires
        is_resolution(g, res),
        0 <= i < g.len(),
        0 <= q < g[i].inline.len(),
        forall|m: int| 0 <= m < g[i].inline.len() && (#[trigger] g[i].inline[m]).name == g[i].inline[q].name ==> m == q,
    ensures
        res[i][q] == g[i].inline[q],
        forall|m: int| 0 <= m < res[i].len() && (#[trigger] res[i][m]).name == g[i].inline[q].name ==> m == q,
{
    let acc = g[i].inline;
    lemma_absorb_extends(acc, g[i].refs, g, res);
    assert(res[i] == absorb(acc, g[i].refs, g, res));
    assert(res[i].subrange(0, acc.len() as int)[q] == acc[q]);
    assert forall|m: int| 0 <= m < res[i].len() && (#[trigger] res[i][m]).name == acc[q].name implies m == q by {
        if m < acc.len() {
            assert(res[i].subrange(0, acc.len() as int)[m] == acc[m]);
        } else {
            assert(!has_name(acc, res[i][m].name));
            assert(acc[q].name == res[i][m].name);
        }
    }
}

/// A declaration with no inline variants whose references all bring nothing
/// resolves to no variants; such a declaration is no error.
pub proof fn empty_declarations(g: Seq<Node>, res: Seq<Seq<VariantView>>, i: int)
    requires
        is_resolution(g, res),
        0 <= i < g.len(),
        g[i].inline.len() == 0,
        forall|k: int| 0 <= k < g[i].refs.len() ==> res[target(g, (#[trigger] g[i].refs[k]).name@)].len() == 0,
    ensures
        res[i].len() == 0,
{
    lemma_absorb_empty(g[i].refs, g, res);
    assert(res[i] == absorb(g[i].inline, g[i].refs, g, res));
    assert(g[i].inline =~= Seq::<VariantView>::empty());
}

proof fn lemma_absorb_empty(refs: Seq<crate::ast::RefPart>, g: Seq<Node>, res: Seq<Seq<VariantView>>)
    requires
        forall|k: int| 0 <= k < refs.len() ==> res[target(g, (#[trigger] refs[k]).name@)].len() == 0,
    ensures
        absorb(Seq::empty(), refs, g, res).len() == 0,
    decreases refs.len(),
{
    if refs.len() > 0 {
        let d = refs.drop_last();
        assert forall|k: int| 0 <= k < d.len() implies res[target(g, (#[trigger] d[k]).name@)].len() == 0 by {
            assert(d[k] == refs[k]);
        }
        lemma_absorb_empty(d, g, res);
        let r = refs.last();
        assert(r == refs[refs.len() - 1]);
        let t = target(g, r.name@);
        let add = subst_all(res[t], g[t].generics, r.generic_refs@);
        assert(add.len() == 0);
        assert(add =~= Seq::<VariantView>::empty());
    }
}

} // verus!
