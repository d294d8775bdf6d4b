//! What the hoisting pass guarantees, stated one guarantee at a time over
//! the relation `passed` between a component before and after the pass.
use vstd::prelude::*;

use crate::expression_tree::{Expression, NamedReference};
use crate::move_declarations::{
    bindings_mention_removed, element_ids, fixed, hoisted_declarations, hoisted_from,
    mentions_removed, moved_count, passed, ref_fixed, relocated_all, renamed, scope_before,
    split_bindings, Scope,
};
use crate::object_tree::{
    decl_view, declares, has_name, hoisted_name, inherited_declarations, well_formed, Component,
    Element, PropertyDeclaration,
};

verus! {

proof fn lemma_hoisted_from_contains(es: Seq<Element>, t: int, k: int)
    requires
        0 <= t < es.len(),
        0 <= k < es[t].property_declarations.len(),
    ensures
        exists|m: int|
            0 <= m < hoisted_from(es).len() && #[trigger] hoisted_from(es)[m] == (
                hoisted_name(es[t].id@, es[t].property_declarations@[k].0@),
                es[t].property_declarations@[k].1,
            ),
    decreases es.len(),
{
    let pre = hoisted_from(es.drop_last());
    if t == es.len() - 1 {
        let m = pre.len() + k;
        assert(hoisted_from(es)[m] == renamed(
            es.last().id@,
            decl_view(es.last().property_declarations@),
        )[k]);
    } else {
        lemma_hoisted_from_contains(es.drop_last(), t, k);
        let m = choose|m: int|
            0 <= m < pre.len() && #[trigger] pre[m] == (
                hoisted_name(es[t].id@, es[t].property_declarations@[k].0@),
                es[t].property_declarations@[k].1,
            );
        assert(hoisted_from(es)[m] == pre[m]);
    }
}

/// Every property `P` that a non-root live element `E` declared before the
/// pass is declared by the root afterwards as `E_P`, with the same metadata.
pub proof fn lemma_declaration_moves_to_root(c0: Component, c: Component, i: int, k: int)
    requires
        c0.elements.len() > 0,
        passed(c0, c),
        1 <= i < c0.elements.len(),
        0 <= k < c0.elements@[i].property_declarations.len(),
    ensures
        exists|m: int|
            0 <= m < c.elements@[0].property_declarations.len() && {
                let d = #[trigger] c.elements@[0].property_declarations@[m];
                &&& d.0@ == hoisted_name(
                    c0.elements@[i].id@,
                    c0.elements@[i].property_declarations@[k].0@,
                )
                &&& d.1 == c0.elements@[i].property_declarations@[k].1
            },
{
    let es = c0.elements@.subrange(1, c0.elements.len() as int);
    let own = decl_view(c0.elements@[0].property_declarations@);
    lemma_hoisted_from_contains(es, i - 1, k);
    let m = choose|m: int|
        0 <= m < hoisted_from(es).len() && #[trigger] hoisted_from(es)[m] == (
            hoisted_name(es[i - 1].id@, es[i - 1].property_declarations@[k].0@),
            es[i - 1].property_declarations@[k].1,
        );
    let root = c.elements@[0];
    let j = own.len() + m;
    assert(decl_view(root.property_declarations@).len() == root.property_declarations@.len());
    assert(hoisted_declarations(c0) == own + hoisted_from(es));
    assert(j < decl_view(root.property_declarations@).len());
    assert(decl_view(root.property_declarations@)[j] == hoisted_from(es)[m]);
    assert(decl_view(root.property_declarations@)[j] == (
        root.property_declarations@[j].0@,
        root.property_declarations@[j].1,
    ));
}

proof fn lemma_split_member(
    sc: Scope,
    id: Seq<char>,
    d: Seq<(String, PropertyDeclaration)>,
    b: Seq<(String, Expression)>,
    kept: Seq<(String, Expression)>,
    moved: Seq<(String, Expression)>,
    k: int,
)
    requires
        split_bindings(sc, id, d, b, kept, moved),
        0 <= k < b.len(),
    ensures
        declares(d, b[k].0@) ==> exists|m: int|
            0 <= m < moved.len() && (#[trigger] moved[m]).0@ == hoisted_name(id, b[k].0@) && fixed(
                sc,
                b[k].1,
                moved[m].1,
            ),
        !declares(d, b[k].0@) ==> exists|m: int|
            0 <= m < kept.len() && (#[trigger] kept[m]).0@ == b[k].0@ && fixed(sc, b[k].1, kept[m].1),
    decreases b.len(),
{
    if k == b.len() - 1 {
        if declares(d, b[k].0@) {
            assert(moved[moved.len() - 1] == moved.last());
        } else {
            assert(kept[kept.len() - 1] == kept.last());
        }
    } else {
        assert(b.drop_last()[k] == b[k]);
        if declares(d, b.last().0@) {
            lemma_split_member(sc, id, d, b.drop_last(), kept, moved.drop_last(), k);
            if declares(d, b[k].0@) {
                let m = choose|m: int|
                    0 <= m < moved.drop_last().len() && (#[trigger] moved.drop_last()[m]).0@
                        == hoisted_name(id, b[k].0@) && fixed(sc, b[k].1, moved.drop_last()[m].1);
                assert(moved[m] == moved.drop_last()[m]);
            }
        } else {
            lemma_split_member(sc, id, d, b.drop_last(), kept.drop_last(), moved, k);
            if !declares(d, b[k].0@) {
                let m = choose|m: int|
                    0 <= m < kept.drop_last().len() && (#[trigger] kept.drop_last()[m]).0@ == b[k].0@
                        && fixed(sc, b[k].1, kept.drop_last()[m].1);
                assert(kept[m] == kept.drop_last()[m]);
            }
        }
    }
}

proof fn lemma_relocated_member(
    sc: Scope,
    olds: Seq<Element>,
    news: Seq<Seq<(String, Expression)>>,
    r: Seq<(String, Expression)>,
    t: int,
    k: int,
)
    requires
        relocated_all(sc, olds, news, r),
        0 <= t < olds.len(),
        0 <= k < olds[t].bindings.len(),
    ensures
        news.len() == olds.len(),
        declares(olds[t].property_declarations@, olds[t].bindings@[k].0@) ==> exists|m: int|
            0 <= m < r.len() && (#[trigger] r[m]).0@ == hoisted_name(
                olds[t].id@,
                olds[t].bindings@[k].0@,
            ) && fixed(sc, olds[t].bindings@[k].1, r[m].1),
        !declares(olds[t].property_declarations@, olds[t].bindings@[k].0@) ==> exists|m: int|
            0 <= m < news[t].len() && (#[trigger] news[t][m]).0@ == olds[t].bindings@[k].0@
                && fixed(sc, olds[t].bindings@[k].1, news[t][m].1),
    decreases olds.len(),
{
    let e = olds.last();
    let mc = moved_count(e.property_declarations@, e.bindings@);
    let tail = r.subrange(r.len() - mc, r.len() as int);
    let head = r.subrange(0, r.len() - mc);
    if t == olds.len() - 1 {
        lemma_split_member(sc, e.id@, e.property_declarations@, e.bindings@, news.last(), tail, k);
        if declares(e.property_declarations@, e.bindings@[k].0@) {
            let m = choose|m: int|
                0 <= m < tail.len() && (#[trigger] tail[m]).0@ == hoisted_name(e.id@, e.bindings@[k].0@)
                    && fixed(sc, e.bindings@[k].1, tail[m].1);
            assert(r[r.len() - mc + m] == tail[m]);
        }
    } else {
        lemma_relocated_member(sc, olds.drop_last(), news.drop_last(), head, t, k);
        assert(olds.drop_last()[t] == olds[t]);
        assert(news.drop_last()[t] == news[t]);
        if declares(olds[t].property_declarations@, olds[t].bindings@[k].0@) {
            let m = choose|m: int|
                0 <= m < head.len() && (#[trigger] head[m]).0@ == hoisted_name(
                    olds[t].id@,
                    olds[t].bindings@[k].0@,
                ) && fixed(sc, olds[t].bindings@[k].1, head[m].1);
            assert(r[m] == head[m]);
        }
    }
}

/// A binding that assigned property `P` of a non-root live element `E` before
/// the pass is, afterwards, a binding of `E_P` on the root, its expression
/// rewritten; any other binding of `E` stays on `E` under its name, its
/// expression rewritten.
pub proof fn lemma_binding_follows_declaration(c0: Component, c: Component, i: int, k: int)
    requires
        c0.elements.len() > 0,
        passed(c0, c),
        1 <= i < c0.elements.len(),
        0 <= k < c0.elements@[i].bindings.len(),
    ensures
        ({
            let e = c0.elements@[i];
            let p = e.bindings@[k];
            &&& declares(e.property_declarations@, p.0@) ==> exists|m: int|
                0 <= m < c.elements@[0].bindings.len() && (#[trigger] c.elements@[0].bindings@[m]).0@
                    == hoisted_name(e.id@, p.0@) && fixed(
                    scope_before(c0),
                    p.1,
                    c.elements@[0].bindings@[m].1,
                )
            &&& !declares(e.property_declarations@, p.0@) ==> exists|m: int|
                0 <= m < c.elements@[i].bindings.len() && (#[trigger] c.elements@[i].bindings@[m]).0@
                    == p.0@ && fixed(scope_before(c0), p.1, c.elements@[i].bindings@[m].1)
        }),
{
    let n = c0.elements.len() as int;
    let n0 = c0.elements@[0].bindings.len() as int;
    let root = c.elements@[0];
    let olds = c0.elements@.subrange(1, n);
    let news = c.elements@.subrange(1, n).map_values(|e: Element| e.bindings@);
    let r = root.bindings@.subrange(n0, root.bindings.len() as int);
    lemma_relocated_member(scope_before(c0), olds, news, r, i - 1, k);
    assert(olds[i - 1] == c0.elements@[i]);
    assert(news[i - 1] == c.elements@[i].bindings@);
    let e = c0.elements@[i];
    let p = e.bindings@[k];
    if declares(e.property_declarations@, p.0@) {
        let m = choose|m: int|
            0 <= m < r.len() && (#[trigger] r[m]).0@ == hoisted_name(e.id@, p.0@) && fixed(
                scope_before(c0),
                p.1,
                r[m].1,
            );
        assert(root.bindings@[n0 + m] == r[m]);
    }
}

/// A reference into the component to a property that a non-root live element
/// declares is rewritten to the root and the hoisted name; a reference into
/// another component is left as it was.
pub proof fn lemma_reference_fixup(c0: Component, r: NamedReference, s: NamedReference, i: int)
    requires
        c0.elements.len() > 0,
        ref_fixed(scope_before(c0), r, s),
    ensures
        s.component == r.component,
        r.component != c0.key ==> s.element@ == r.element@ && s.name@ == r.name@,
        r.component == c0.key && 1 <= i < c0.elements.len() && c0.elements@[i].id@ == r.element@
            && declares(c0.elements@[i].property_declarations@, r.name@) ==> s.element@
            == c0.elements@[0].id@ && s.name@ == hoisted_name(r.element@, r.name@),
{
    if r.component == c0.key && 1 <= i < c0.elements.len() && c0.elements@[i].id@ == r.element@
        && declares(c0.elements@[i].property_declarations@, r.name@) {
        assert((scope_before(c0).moved)(r.element@, r.name@));
    }
}

/// Does every reference of `e` into `c` that names a removed element name a
/// property which that element declares or inherits through its base type?
pub open spec fn refs_typed(c: Component, e: Expression) -> bool
    decreases e,
{
    match e {
        Expression::PropertyReference(r) => ref_typed(c, r),
        Expression::SignalReference(r) => ref_typed(c, r),
        Expression::UnaryOp { sub, op: _ } => refs_typed(c, *sub),
        Expression::BinaryOp { lhs, rhs, op: _ } => refs_typed(c, *lhs) && refs_typed(c, *rhs),
        Expression::Condition { condition, true_expr, false_expr } => refs_typed(c, *condition)
            && refs_typed(c, *true_expr) && refs_typed(c, *false_expr),
        _ => true,
    }
}

/// If `r` names a removed element of `c`, it names a property that element
/// declares or inherits.
pub open spec fn ref_typed(c: Component, r: NamedReference) -> bool {
    r.component == c.key ==> forall|j: int|
        0 <= j < c.optimized_elements.len() && (#[trigger] c.optimized_elements@[j]).id@
            == r.element@ ==> declares(c.optimized_elements@[j].property_declarations@, r.name@)
            || has_name(inherited_declarations(c.optimized_elements@[j].base_type), r.name@)
}

proof fn lemma_fixed_leaves_removed(c0: Component, e: Expression, f: Expression)
    requires
        c0.elements.len() > 0,
        forall|j: int|
            0 <= j < c0.optimized_elements.len() ==> (#[trigger] c0.optimized_elements@[j]).id@
                != c0.elements@[0].id@,
        fixed(scope_before(c0), e, f),
        refs_typed(c0, e),
    ensures
        !mentions_removed(c0.key, element_ids(c0.optimized_elements@), f),
    decreases e,
{
    let ids = element_ids(c0.optimized_elements@);
    match (e, f) {
        (Expression::PropertyReference(r), Expression::PropertyReference(s)) => {
            lemma_ref_leaves_removed(c0, r, s);
        },
        (Expression::SignalReference(r), Expression::SignalReference(s)) => {
            lemma_ref_leaves_removed(c0, r, s);
        },
        (Expression::UnaryOp { sub: a, op: _ }, Expression::UnaryOp { sub: b, op: _ }) => {
            lemma_fixed_leaves_removed(c0, *a, *b);
        },
        (
            Expression::BinaryOp { lhs: la, rhs: ra, op: _ },
            Expression::BinaryOp { lhs: lb, rhs: rb, op: _ },
        ) => {
            lemma_fixed_leaves_removed(c0, *la, *lb);
            lemma_fixed_leaves_removed(c0, *ra, *rb);
        },
        (
            Expression::Condition { condition: ca, true_expr: ta, false_expr: fa },
            Expression::Condition { condition: cb, true_expr: tb, false_expr: fb },
        ) => {
            lemma_fixed_leaves_removed(c0, *ca, *cb);
            lemma_fixed_leaves_removed(c0, *ta, *tb);
            lemma_fixed_leaves_removed(c0, *fa, *fb);
        },
        _ => {},
    }
}

proof fn lemma_ref_leaves_removed(c0: Component, r: NamedReference, s: NamedReference)
    requires
        c0.elements.len() > 0,
        forall|j: int|
            0 <= j < c0.optimized_elements.len() ==> (#[trigger] c0.optimized_elements@[j]).id@
                != c0.elements@[0].id@,
        ref_fixed(scope_before(c0), r, s),
        ref_typed(c0, r),
    ensures
        !(s.component == c0.key && exists|j: int|
            0 <= j < c0.optimized_elements.len() && (#[trigger] element_ids(
                c0.optimized_elements@,
            )[j]) == s.element@),
{
    let ids = element_ids(c0.optimized_elements@);
    if s.component == c0.key && exists|j: int| 0 <= j < c0.optimized_elements.len() && (#[trigger] ids[j]) == s.element@ {
        let j = choose|j: int| 0 <= j < c0.optimized_elements.len() && (#[trigger] ids[j]) == s.element@;
        assert(ids[j] == c0.optimized_elements@[j].id@);
        if (scope_before(c0).moved)(r.element@, r.name@) {
            assert(s.element@ == c0.elements@[0].id@);
        } else {
            assert(s.element@ == r.element@);
            assert(c0.optimized_elements@[j].id@ == r.element@);
            assert((scope_before(c0).moved)(r.element@, r.name@));
        }
    }
}

proof fn lemma_split_leaves_removed(
    c0: Component,
    id: Seq<char>,
    d: Seq<(String, PropertyDeclaration)>,
    b: Seq<(String, Expression)>,
    kept: Seq<(String, Expression)>,
    moved: Seq<(String, Expression)>,
)
    requires
        c0.elements.len() > 0,
        forall|j: int|
            0 <= j < c0.optimized_elements.len() ==> (#[trigger] c0.optimized_elements@[j]).id@
                != c0.elements@[0].id@,
        split_bindings(scope_before(c0), id, d, b, kept, moved),
        forall|k: int| 0 <= k < b.len() ==> refs_typed(c0, #[trigger] b[k].1),
    ensures
        forall|m: int|
            0 <= m < kept.len() ==> !mentions_removed(
                c0.key,
                element_ids(c0.optimized_elements@),
                #[trigger] kept[m].1,
            ),
        forall|m: int|
            0 <= m < moved.len() ==> !mentions_removed(
                c0.key,
                element_ids(c0.optimized_elements@),
                #[trigger] moved[m].1,
            ),
    decreases b.len(),
{
    if b.len() > 0 {
        let last = b.len() - 1;
        assert(refs_typed(c0, b[last].1));
        assert forall|k: int| 0 <= k < b.drop_last().len() implies refs_typed(
            c0,
            #[trigger] b.drop_last()[k].1,
        ) by {
            assert(b.drop_last()[k] == b[k]);
        }
        if declares(d, b.last().0@) {
            lemma_split_leaves_removed(c0, id, d, b.drop_last(), kept, moved.drop_last());
            lemma_fixed_leaves_removed(c0, b.last().1, moved.last().1);
            assert forall|m: int| 0 <= m < moved.len() implies !mentions_removed(
                c0.key,
                element_ids(c0.optimized_elements@),
                #[trigger] moved[m].1,
            ) by {
                if m < moved.len() - 1 {
                    assert(moved.drop_last()[m] == moved[m]);
                }
            }
        } else {
            lemma_split_leaves_removed(c0, id, d, b.drop_last(), kept.drop_last(), moved);
            lemma_fixed_leaves_removed(c0, b.last().1, kept.last().1);
            assert forall|m: int| 0 <= m < kept.len() implies !mentions_removed(
                c0.key,
                element_ids(c0.optimized_elements@),
                #[trigger] kept[m].1,
            ) by {
                if m < kept.len() - 1 {
                    assert(kept.drop_last()[m] == kept[m]);
                }
            }
        }
    }
}

proof fn lemma_relocated_leaves_removed(
    c0: Component,
    olds: Seq<Element>,
    news: Seq<Seq<(String, Expression)>>,
    r: Seq<(String, Expression)>,
)
    requires
        c0.elements.len() > 0,
        forall|j: int|
            0 <= j < c0.optimized_elements.len() ==> (#[trigger] c0.optimized_elements@[j]).id@
                != c0.elements@[0].id@,
        relocated_all(scope_before(c0), olds, news, r),
        forall|t: int, k: int|
            0 <= t < olds.len() && 0 <= k < olds[t].bindings.len() ==> refs_typed(
                c0,
                #[trigger] olds[t].bindings@[k].1,
            ),
    ensures
        news.len() == olds.len(),
        forall|m: int|
            0 <= m < r.len() ==> !mentions_removed(
                c0.key,
                element_ids(c0.optimized_elements@),
                #[trigger] r[m].1,
            ),
        forall|t: int, m: int|
            0 <= t < news.len() && 0 <= m < news[t].len() ==> !mentions_removed(
                c0.key,
                element_ids(c0.optimized_elements@),
                #[trigger] news[t][m].1,
            ),
    decreases olds.len(),
{
    if olds.len() > 0 {
        let e = olds.last();
        let mc = moved_count(e.property_declarations@, e.bindings@);
        let tail = r.subrange(r.len() - mc, r.len() as int);
        let head = r.subrange(0, r.len() - mc);
        assert forall|t: int, k: int|
            0 <= t < olds.drop_last().len() && 0 <= k < olds.drop_last()[t].bindings.len()
                implies refs_typed(c0, #[trigger] olds.drop_last()[t].bindings@[k].1) by {
            assert(olds.drop_last()[t] == olds[t]);
        }
        assert forall|k: int| 0 <= k < e.bindings@.len() implies refs_typed(
            c0,
            #[trigger] e.bindings@[k].1,
        ) by {
            assert(olds[olds.len() - 1].bindings@[k] == e.bindings@[k]);
        }
        lemma_relocated_leaves_removed(c0, olds.drop_last(), news.drop_last(), head);
        lemma_split_leaves_removed(c0, e.id@, e.property_declarations@, e.bindings@, news.last(), tail);
        assert forall|m: int| 0 <= m < r.len() implies !mentions_removed(
            c0.key,
            element_ids(c0.optimized_elements@),
            #[trigger] r[m].1,
        ) by {
            if m < r.len() - mc {
                assert(head[m] == r[m]);
            } else {
                assert(tail[m - (r.len() - mc)] == r[m]);
            }
        }
        assert forall|t: int, m: int| 0 <= t < news.len() && 0 <= m < news[t].len() implies !mentions_removed(
            c0.key,
            element_ids(c0.optimized_elements@),
            #[trigger] news[t][m].1,
        ) by {
            if t < news.len() - 1 {
                assert(news.drop_last()[t] == news[t]);
            }
        }
    }
}

/// When every reference to a removed element names a property that element
/// declares or inherits, no binding references a removed element after the
/// pass: every such reference has been moved to the root. By the contract of
/// `move_declarations`, the pass then does not fail with
/// `ReferencedOptimizedElement`.
pub proof fn lemma_removed_elements_unreferenced(c0: Component, c: Component)
    requires
        well_formed(c0),
        passed(c0, c),
        forall|i: int, k: int|
            0 <= i < c0.elements.len() && 0 <= k < c0.elements@[i].bindings.len() ==> refs_typed(
                c0,
                #[trigger] c0.elements@[i].bindings@[k].1,
            ),
    ensures
        !bindings_mention_removed(c0.key, element_ids(c0.optimized_elements@), c.elements@),
{
    let n = c0.elements.len() as int;
    let n0 = c0.elements@[0].bindings.len() as int;
    let root = c.elements@[0];
    let ids = element_ids(c0.optimized_elements@);
    assert forall|j: int| 0 <= j < c0.optimized_elements.len() implies (
    #[trigger] c0.optimized_elements@[j]).id@ != c0.elements@[0].id@ by {
        assert(c0.elements@[0].id@ != c0.optimized_elements@[j].id@);
    }
    let olds = c0.elements@.subrange(1, n);
    let news = c.elements@.subrange(1, n).map_values(|e: Element| e.bindings@);
    let r = root.bindings@.subrange(n0, root.bindings.len() as int);
    let rk = root.bindings@.subrange(0, n0);
    assert forall|t: int, k: int| 0 <= t < olds.len() && 0 <= k < olds[t].bindings.len() implies refs_typed(
        c0,
        #[trigger] olds[t].bindings@[k].1,
    ) by {
        assert(olds[t] == c0.elements@[t + 1]);
    }
    lemma_relocated_leaves_removed(c0, olds, news, r);
    lemma_split_leaves_removed(
        c0,
        c0.elements@[0].id@,
        Seq::empty(),
        c0.elements@[0].bindings@,
        rk,
        Seq::empty(),
    );
    if bindings_mention_removed(c0.key, ids, c.elements@) {
        let (i, k) = choose|i: int, k: int|
            0 <= i < c.elements.len() && 0 <= k < c.elements@[i].bindings.len() && mentions_removed(
                c0.key,
                ids,
                #[trigger] c.elements@[i].bindings@[k].1,
            );
        if i == 0 {
            if k < n0 {
                assert(rk[k] == root.bindings@[k]);
            } else {
                assert(r[k - n0] == root.bindings@[k]);
            }
        } else {
            assert(news[i - 1] == c.elements@[i].bindings@);
            assert(news[i - 1][k] == c.elements@[i].bindings@[k]);
        }
    }
}

} // verus!
