//! The declaration hoisting pass.
use vstd::prelude::*;

use crate::expression_tree::{Expression, NamedReference};
use crate::object_tree::{
    decl_view, declares, has_name, hoisted_name, inherited_declarations, names_unique, well_formed,
    Component, Element, ElementType, PropertyDeclaration, PropertyType,
};

verus! {

/// An internal-consistency failure of the pass.
#[derive(Clone, Copy, PartialEq, Eq, Structural, Debug)]
pub enum MoveError {
    /// A reference names an element that the component does not hold.
    BrokenReference,
    /// Two declarations take the same name on the root. Binding names are not
    /// checked: a binding targets a declared or inherited property.
    NameCollision,
    /// A removed element is still referenced once the pass is done.
    ReferencedOptimizedElement,
}

/// Does the component hold, live or removed, an element with id `id`?
pub open spec fn resolves(c: Component, id: Seq<char>) -> bool {
    (exists|i: int| 0 <= i < c.elements.len() && (#[trigger] c.elements@[i]).id@ == id)
    || (exists|j: int|
        0 <= j < c.optimized_elements.len() && (#[trigger] c.optimized_elements@[j]).id@ == id)
}

/// Does an element with id `id`, live or removed, declare `name` locally?
/// Such a property is the one that moves to the root.
pub open spec fn relocates(c: Component, id: Seq<char>, name: Seq<char>) -> bool {
    (exists|i: int|
        0 <= i < c.elements.len() && (#[trigger] c.elements@[i]).id@ == id && declares(
            c.elements@[i].property_declarations@,
            name,
        )) || (exists|j: int|
        0 <= j < c.optimized_elements.len() && (#[trigger] c.optimized_elements@[j]).id@ == id
            && declares(c.optimized_elements@[j].property_declarations@, name))
}

/// What the rewriting of references needs to know of a component: its key,
/// the id of its root, which `(element id, name)` pairs move to the root, and
/// which element ids resolve.
pub struct Scope {
    pub key: u64,
    pub root: Seq<char>,
    pub moved: spec_fn(Seq<char>, Seq<char>) -> bool,
    pub found: spec_fn(Seq<char>) -> bool,
}

/// The scope of a component in its current state.
pub open spec fn scope_of(c: Component) -> Scope {
    Scope {
        key: c.key,
        root: c.elements@[0].id@,
        moved: |id: Seq<char>, name: Seq<char>| relocates(c, id, name),
        found: |id: Seq<char>| resolves(c, id),
    }
}

/// `s` is what reference `r` becomes: a reference into the component to a
/// property that moves points at the root under the hoisted name; any other
/// is kept.
pub open spec fn ref_fixed(sc: Scope, r: NamedReference, s: NamedReference) -> bool {
    &&& s.component == r.component
    &&& if r.component == sc.key && (sc.moved)(r.element@, r.name@) {
        s.element@ == sc.root && s.name@ == hoisted_name(r.element@, r.name@)
    } else {
        s.element@ == r.element@ && s.name@ == r.name@
    }
}

/// `f` is expression `e` with every reference rewritten by `ref_fixed`.
pub open spec fn fixed(sc: Scope, e: Expression, f: Expression) -> bool
    decreases e,
{
    match (e, f) {
        (Expression::Invalid, Expression::Invalid) => true,
        (Expression::BoolLiteral(a), Expression::BoolLiteral(b)) => a == b,
        (Expression::NumberLiteral(a), Expression::NumberLiteral(b)) => a == b,
        (Expression::StringLiteral(a), Expression::StringLiteral(b)) => a@ == b@,
        (Expression::PropertyReference(r), Expression::PropertyReference(s)) => ref_fixed(sc, r, s),
        (Expression::SignalReference(r), Expression::SignalReference(s)) => ref_fixed(sc, r, s),
        (
            Expression::UnaryOp { sub: a, op: oa },
            Expression::UnaryOp { sub: b, op: ob },
        ) => oa == ob && fixed(sc, *a, *b),
        (
            Expression::BinaryOp { lhs: la, rhs: ra, op: oa },
            Expression::BinaryOp { lhs: lb, rhs: rb, op: ob },
        ) => oa == ob && fixed(sc, *la, *lb) && fixed(sc, *ra, *rb),
        (
            Expression::Condition { condition: ca, true_expr: ta, false_expr: fa },
            Expression::Condition { condition: cb, true_expr: tb, false_expr: fb },
        ) => fixed(sc, *ca, *cb) && fixed(sc, *ta, *tb) && fixed(sc, *fa, *fb),
        _ => false,
    }
}

/// Does every reference of `e` into the component name an element it holds?
pub open spec fn refs_resolve(sc: Scope, e: Expression) -> bool
    decreases e,
{
    match e {
        Expression::PropertyReference(r) => r.component == sc.key ==> (sc.found)(r.element@),
        Expression::SignalReference(r) => r.component == sc.key ==> (sc.found)(r.element@),
        Expression::UnaryOp { sub, op: _ } => refs_resolve(sc, *sub),
        Expression::BinaryOp { lhs, rhs, op: _ } => refs_resolve(sc, *lhs) && refs_resolve(sc, *rhs),
        Expression::Condition { condition, true_expr, false_expr } => refs_resolve(sc, *condition)
            && refs_resolve(sc, *true_expr) && refs_resolve(sc, *false_expr),
        _ => true,
    }
}

/// The name `<id>_<s>` that declaration `s` of element `id` takes on the root.
pub fn map_name(id: &String, s: &String) -> (r: String)
    ensures
        r@ == hoisted_name(id@, s@),
{
    proof {
        reveal_strlit("_");
    }
    let mut r = id.clone();
    r.append("_");
    r.append(s.as_str());
    r
}

fn declares_name(v: &Vec<(String, PropertyDeclaration)>, name: &String) -> (r: bool)
    ensures
        r == declares(v@, name@),
{
    let mut i: usize = 0;
    while i < v.len()
        invariant
            i <= v.len(),
            forall|k: int| 0 <= k < i ==> (#[trigger] v@[k]).0@ != name@,
        decreases v.len() - i,
    {
        if v[i].0 == *name {
            return true;
        }
        i = i + 1;
    }
    false
}

/// Looks up the element `id` of `c`: whether it resolves, and whether its
/// property `name` is one that moves to the root.
fn lookup(c: &Component, id: &String, name: &String) -> (r: (bool, bool))
    ensures
        r.0 == resolves(*c, id@),
        r.1 == relocates(*c, id@, name@),
{
    let mut found = false;
    let mut moved = false;
    let mut i: usize = 0;
    while i < c.elements.len()
        invariant
            i <= c.elements.len(),
            found == exists|k: int| 0 <= k < i && (#[trigger] c.elements@[k]).id@ == id@,
            moved == exists|k: int|
                0 <= k < i && (#[trigger] c.elements@[k]).id@ == id@ && declares(
                    c.elements@[k].property_declarations@,
                    name@,
                ),
        decreases c.elements.len() - i,
    {
        if c.elements[i].id == *id {
            found = true;
            if declares_name(&c.elements[i].property_declarations, name) {
                moved = true;
            }
        }
        i = i + 1;
    }
    let mut j: usize = 0;
    while j < c.optimized_elements.len()
        invariant
            j <= c.optimized_elements.len(),
            found == ((exists|k: int| 0 <= k < c.elements.len() && (#[trigger] c.elements@[k]).id@
                == id@) || exists|k: int|
                0 <= k < j && (#[trigger] c.optimized_elements@[k]).id@ == id@),
            moved == ((exists|k: int|
                0 <= k < c.elements.len() && (#[trigger] c.elements@[k]).id@ == id@ && declares(
                    c.elements@[k].property_declarations@,
                    name@,
                )) || exists|k: int|
                0 <= k < j && (#[trigger] c.optimized_elements@[k]).id@ == id@ && declares(
                    c.optimized_elements@[k].property_declarations@,
                    name@,
                )),
        decreases c.optimized_elements.len() - j,
    {
        let o = &c.optimized_elements[j];
        if o.id == *id {
            found = true;
            if declares_name(&o.property_declarations, name) {
                moved = true;
            }
        }
        j = j + 1;
    }
    (found, moved)
}

fn fixup_reference(r: NamedReference, comp: &Component) -> (res: Result<NamedReference, MoveError>)
    requires
        comp.elements.len() > 0,
    ensures
        res is Ok <==> (r.component == comp.key ==> resolves(*comp, r.element@)),
        res matches Ok(s) ==> ref_fixed(scope_of(*comp), r, s),
        res matches Err(e) ==> e == MoveError::BrokenReference,
{
    if r.component != comp.key {
        return Ok(r);
    }
    let (found, moved) = lookup(comp, &r.element, &r.name);
    if !found {
        Err(MoveError::BrokenReference)
    } else if moved {
        let name = map_name(&r.element, &r.name);
        Ok(NamedReference { component: r.component, element: comp.elements[0].id.clone(), name })
    } else {
        Ok(r)
    }
}

/// Rewrites every reference of `val` to a property that moves to the root so
/// that it names the root and the hoisted property.
pub fn fixup_bindings(val: Expression, comp: &Component) -> (res: Result<Expression, MoveError>)
    requires
        comp.elements.len() > 0,
    ensures
        res is Ok <==> refs_resolve(scope_of(*comp), val),
        res matches Ok(f) ==> fixed(scope_of(*comp), val, f),
        res matches Err(e) ==> e == MoveError::BrokenReference,
    decreases val,
{
    match val {
        Expression::PropertyReference(r) => match fixup_reference(r, comp) {
            Ok(s) => Ok(Expression::PropertyReference(s)),
            Err(e) => Err(e),
        },
        Expression::SignalReference(r) => match fixup_reference(r, comp) {
            Ok(s) => Ok(Expression::SignalReference(s)),
            Err(e) => Err(e),
        },
        Expression::UnaryOp { sub, op } => match fixup_bindings(*sub, comp) {
            Ok(s) => Ok(Expression::UnaryOp { sub: Box::new(s), op }),
            Err(e) => Err(e),
        },
        Expression::BinaryOp { lhs, rhs, op } => {
            let l = match fixup_bindings(*lhs, comp) {
                Ok(l) => l,
                Err(e) => return Err(e),
            };
            match fixup_bindings(*rhs, comp) {
                Ok(r) => Ok(Expression::BinaryOp { lhs: Box::new(l), rhs: Box::new(r), op }),
                Err(e) => Err(e),
            }
        },
        Expression::Condition { condition, true_expr, false_expr } => {
            let c = match fixup_bindings(*condition, comp) {
                Ok(c) => c,
                Err(e) => return Err(e),
            };
            let t = match fixup_bindings(*true_expr, comp) {
                Ok(t) => t,
                Err(e) => return Err(e),
            };
            match fixup_bindings(*false_expr, comp) {
                Ok(f) => Ok(
                    Expression::Condition {
                        condition: Box::new(c),
                        true_expr: Box::new(t),
                        false_expr: Box::new(f),
                    },
                ),
                Err(e) => Err(e),
            }
        },
        Expression::Invalid => Ok(Expression::Invalid),
        Expression::BoolLiteral(b) => Ok(Expression::BoolLiteral(b)),
        Expression::NumberLiteral(n) => Ok(Expression::NumberLiteral(n)),
        Expression::StringLiteral(s) => Ok(Expression::StringLiteral(s)),
    }
}

/// An optimized element `new` is `old` that declares, after its own, every
/// property its base type chain exposes, and has no base type left.
pub open spec fn simplified(old: Element, new: Element) -> bool {
    &&& new.id == old.id
    &&& new.bindings == old.bindings
    &&& new.children == old.children
    &&& decl_view(new.property_declarations@) == decl_view(old.property_declarations@)
        + inherited_declarations(old.base_type)
    &&& new.base_type is Invalid
}

proof fn lemma_decl_view_push(v: Seq<(String, PropertyDeclaration)>, x: (String, PropertyDeclaration))
    ensures
        decl_view(v.push(x)) == decl_view(v).push((x.0@, x.1)),
{
    assert(decl_view(v.push(x)) =~= decl_view(v).push((x.0@, x.1)));
}

/// Appends to `out` the declarations that the base type chain `t` exposes.
fn collect_inherited(t: &ElementType, out: &mut Vec<(String, PropertyDeclaration)>)
    ensures
        decl_view(final(out)@) == decl_view(old(out)@) + inherited_declarations(*t),
    decreases t,
{
    match t {
        ElementType::Invalid => {
            assert(decl_view(out@) =~= decl_view(out@) + inherited_declarations(*t));
        },
        ElementType::Builtin(b) => {
            let ghost start = decl_view(out@);
            let ghost props = b.properties@.map_values(
                |p: (String, PropertyType)|
                    (p.0@, PropertyDeclaration { property_type: p.1, expose_in_public_api: false }),
            );
            let mut i: usize = 0;
            while i < b.properties.len()
                invariant
                    i <= b.properties.len(),
                    props == inherited_declarations(*t),
                    props.len() == b.properties.len(),
                    props == b.properties@.map_values(
                        |p: (String, PropertyType)|
                            (p.0@, PropertyDeclaration { property_type: p.1, expose_in_public_api: false }),
                    ),
                    decl_view(out@) == start + props.subrange(0, i as int),
                decreases b.properties.len() - i,
            {
                let d = PropertyDeclaration {
                    property_type: b.properties[i].1,
                    expose_in_public_api: false,
                };
                let x = (b.properties[i].0.clone(), d);
                proof {
                    lemma_decl_view_push(out@, x);
                }
                out.push(x);
                assert(props.subrange(0, i + 1) =~= props.subrange(0, i as int).push(props[i as int]));
                i = i + 1;
            }
            assert(props.subrange(0, i as int) =~= props);
        },
        ElementType::Component(c) => {
            if c.elements.len() > 0 {
                let root = &c.elements[0];
                let ghost start = decl_view(out@);
                let ghost own = decl_view(root.property_declarations@);
                let mut i: usize = 0;
                while i < root.property_declarations.len()
                    invariant
                        i <= root.property_declarations.len(),
                        own == decl_view(root.property_declarations@),
                        decl_view(out@) == start + own.subrange(0, i as int),
                    decreases root.property_declarations.len() - i,
                {
                    let x = (root.property_declarations[i].0.clone(), root.property_declarations[i].1);
                    proof {
                        lemma_decl_view_push(out@, x);
                    }
                    out.push(x);
                    assert(own.subrange(0, i + 1) =~= own.subrange(0, i as int).push(own[i as int]));
                    i = i + 1;
                }
                assert(own.subrange(0, i as int) =~= own);
                collect_inherited(&root.base_type, out);
                assert(start + own + inherited_declarations(root.base_type) =~= start + (own
                    + inherited_declarations(root.base_type)));
            } else {
                assert(decl_view(out@) =~= decl_view(out@) + inherited_declarations(*t));
            }
        },
    }
}

/// Makes each optimized element declare itself every property that its base
/// type chain exposes, so that later steps need look at its own declarations
/// only. Bindings of a component base are not copied: such properties keep
/// their default values.
pub fn simplify_optimized_items(items: &mut Vec<Element>)
    ensures
        final(items).len() == old(items).len(),
        forall|j: int|
            0 <= j < old(items).len() ==> simplified(#[trigger] old(items)@[j], final(items)@[j]),
{
    let mut j: usize = 0;
    while j < items.len()
        invariant
            j <= items.len(),
            items.len() == old(items).len(),
            forall|k: int| 0 <= k < j ==> simplified(#[trigger] old(items)@[k], items@[k]),
            forall|k: int| j <= k < items.len() ==> #[trigger] items@[k] == old(items)@[k],
        decreases items.len() - j,
    {
        let mut t = ElementType::Invalid;
        core::mem::swap(&mut items[j].base_type, &mut t);
        collect_inherited(&t, &mut items[j].property_declarations);
        j = j + 1;
    }
}

/// How many of the bindings `b` target a property that `d` declares.
pub open spec fn moved_count(d: Seq<(String, PropertyDeclaration)>, b: Seq<(String, Expression)>) -> nat
    decreases b.len(),
{
    if b.len() == 0 {
        0
    } else {
        moved_count(d, b.drop_last()) + if declares(d, b.last().0@) {
            1nat
        } else {
            0nat
        }
    }
}

/// The bindings `b` of the element with id `id` and declarations `d`, each
/// expression rewritten and the order kept, split in two: `kept` holds those
/// whose property `d` does not declare, under their names; `moved` holds the
/// others, under their hoisted names.
pub open spec fn split_bindings(
    sc: Scope,
    id: Seq<char>,
    d: Seq<(String, PropertyDeclaration)>,
    b: Seq<(String, Expression)>,
    kept: Seq<(String, Expression)>,
    moved: Seq<(String, Expression)>,
) -> bool
    decreases b.len(),
{
    if b.len() == 0 {
        kept.len() == 0 && moved.len() == 0
    } else if declares(d, b.last().0@) {
        &&& moved.len() > 0
        &&& moved.last().0@ == hoisted_name(id, b.last().0@)
        &&& fixed(sc, b.last().1, moved.last().1)
        &&& split_bindings(sc, id, d, b.drop_last(), kept, moved.drop_last())
    } else {
        &&& kept.len() > 0
        &&& kept.last().0@ == b.last().0@
        &&& fixed(sc, b.last().1, kept.last().1)
        &&& split_bindings(sc, id, d, b.drop_last(), kept.drop_last(), moved)
    }
}

proof fn lemma_split_count(
    sc: Scope,
    id: Seq<char>,
    d: Seq<(String, PropertyDeclaration)>,
    b: Seq<(String, Expression)>,
    kept: Seq<(String, Expression)>,
    moved: Seq<(String, Expression)>,
)
    requires
        split_bindings(sc, id, d, b, kept, moved),
    ensures
        moved.len() == moved_count(d, b),
        kept.len() + moved.len() == b.len(),
    decreases b.len(),
{
    if b.len() > 0 {
        if declares(d, b.last().0@) {
            lemma_split_count(sc, id, d, b.drop_last(), kept, moved.drop_last());
        } else {
            lemma_split_count(sc, id, d, b.drop_last(), kept.drop_last(), moved);
        }
    }
}

/// Rewrites the bindings of one element and splits them into those that stay
/// on it and those that move to the root with their declaration.
fn fixup_element_bindings(
    bindings: Vec<(String, Expression)>,
    id: &String,
    d: &Vec<(String, PropertyDeclaration)>,
    comp: &Component,
) -> (res: Result<(Vec<(String, Expression)>, Vec<(String, Expression)>), MoveError>)
    requires
        comp.elements.len() > 0,
    ensures
        res is Ok <==> forall|k: int|
            0 <= k < bindings.len() ==> refs_resolve(scope_of(*comp), #[trigger] bindings@[k].1),
        res matches Ok(p) ==> split_bindings(scope_of(*comp), id@, d@, bindings@, p.0@, p.1@),
        res matches Err(e) ==> e == MoveError::BrokenReference,
{
    let ghost orig = bindings@;
    let ghost sc = scope_of(*comp);
    let mut b = bindings;
    let mut kept: Vec<(String, Expression)> = Vec::new();
    let mut moved: Vec<(String, Expression)> = Vec::new();
    let mut i: usize = 0;
    while i < b.len()
        invariant
            comp.elements.len() > 0,
            sc == scope_of(*comp),
            orig == bindings@,
            b.len() == orig.len(),
            i <= b.len(),
            forall|k: int| i <= k < b.len() ==> #[trigger] b@[k] == orig[k],
            forall|k: int| 0 <= k < i ==> refs_resolve(sc, #[trigger] orig[k].1),
            split_bindings(sc, id@, d@, orig.subrange(0, i as int), kept@, moved@),
        decreases b.len() - i,
    {
        let mut p = (String::new(), Expression::Invalid);
        core::mem::swap(&mut b[i], &mut p);
        let (name, e) = p;
        let f = match fixup_bindings(e, comp) {
            Ok(f) => f,
            Err(err) => {
                assert(!refs_resolve(sc, orig[i as int].1));
                return Err(err);
            },
        };
        assert(orig.subrange(0, i + 1).drop_last() =~= orig.subrange(0, i as int));
        let ghost kept0 = kept@;
        let ghost moved0 = moved@;
        if declares_name(d, &name) {
            moved.push((map_name(id, &name), f));
            assert(moved@.drop_last() =~= moved0);
        } else {
            kept.push((name, f));
            assert(kept@.drop_last() =~= kept0);
        }
        i = i + 1;
    }
    assert(orig.subrange(0, i as int) =~= orig);
    Ok((kept, moved))
}

/// The scope of a component before the pass: the properties that move are
/// those a non-root live element declares, and those a removed element
/// declares or inherits through its base type chain.
pub open spec fn scope_before(c: Component) -> Scope {
    Scope {
        key: c.key,
        root: c.elements@[0].id@,
        moved: |id: Seq<char>, name: Seq<char>|
            (exists|i: int|
                1 <= i < c.elements.len() && (#[trigger] c.elements@[i]).id@ == id && declares(
                    c.elements@[i].property_declarations@,
                    name,
                )) || (exists|j: int|
                0 <= j < c.optimized_elements.len() && (#[trigger] c.optimized_elements@[j]).id@
                    == id && (declares(c.optimized_elements@[j].property_declarations@, name)
                    || has_name(inherited_declarations(c.optimized_elements@[j].base_type), name))),
        found: |id: Seq<char>| resolves(c, id),
    }
}

/// Declarations `d` of the element `id`, each under its hoisted name.
pub open spec fn renamed(id: Seq<char>, d: Seq<(Seq<char>, PropertyDeclaration)>) -> Seq<(Seq<char>, PropertyDeclaration)> {
    d.map_values(|p: (Seq<char>, PropertyDeclaration)| (hoisted_name(id, p.0), p.1))
}

/// The declarations of the elements `es`, renamed, one element after another.
pub open spec fn hoisted_from(es: Seq<Element>) -> Seq<(Seq<char>, PropertyDeclaration)>
    decreases es.len(),
{
    if es.len() == 0 {
        seq![]
    } else {
        hoisted_from(es.drop_last()) + renamed(
            es.last().id@,
            decl_view(es.last().property_declarations@),
        )
    }
}

/// What the root declares after the pass: its own declarations, then those of
/// every other live element under their hoisted names.
pub open spec fn hoisted_declarations(c: Component) -> Seq<(Seq<char>, PropertyDeclaration)> {
    decl_view(c.elements@[0].property_declarations@) + hoisted_from(
        c.elements@.subrange(1, c.elements.len() as int),
    )
}

/// Does every reference of every live binding of `c` resolve?
pub open spec fn all_resolve(c: Component) -> bool {
    forall|i: int, k: int|
        0 <= i < c.elements.len() && 0 <= k < c.elements@[i].bindings.len() ==> refs_resolve(
            scope_before(c),
            #[trigger] c.elements@[i].bindings@[k].1,
        )
}

/// The bindings that move to the root, `r`, are those of the elements `olds`
/// in turn, as `split_bindings` gives them; `news` are the bindings that stay.
pub open spec fn relocated_all(
    sc: Scope,
    olds: Seq<Element>,
    news: Seq<Seq<(String, Expression)>>,
    r: Seq<(String, Expression)>,
) -> bool
    decreases olds.len(),
{
    if olds.len() == 0 {
        r.len() == 0 && news.len() == 0
    } else {
        let e = olds.last();
        let m = moved_count(e.property_declarations@, e.bindings@);
        &&& news.len() == olds.len()
        &&& m <= r.len()
        &&& split_bindings(
            sc,
            e.id@,
            e.property_declarations@,
            e.bindings@,
            news.last(),
            r.subrange(r.len() - m, r.len() as int),
        )
        &&& relocated_all(sc, olds.drop_last(), news.drop_last(), r.subrange(0, r.len() - m))
    }
}

/// The ids of the elements `es`.
pub open spec fn element_ids(es: Seq<Element>) -> Seq<Seq<char>> {
    es.map_values(|e: Element| e.id@)
}

/// Does `e` reference, inside the component `key`, an element whose id is
/// among `removed`?
pub open spec fn mentions_removed(key: u64, removed: Seq<Seq<char>>, e: Expression) -> bool
    decreases e,
{
    match e {
        Expression::PropertyReference(r) => r.component == key && exists|j: int|
            0 <= j < removed.len() && (#[trigger] removed[j]) == r.element@,
        Expression::SignalReference(r) => r.component == key && exists|j: int|
            0 <= j < removed.len() && (#[trigger] removed[j]) == r.element@,
        Expression::UnaryOp { sub, op: _ } => mentions_removed(key, removed, *sub),
        Expression::BinaryOp { lhs, rhs, op: _ } => mentions_removed(key, removed, *lhs)
            || mentions_removed(key, removed, *rhs),
        Expression::Condition { condition, true_expr, false_expr } => mentions_removed(
            key,
            removed,
            *condition,
        ) || mentions_removed(key, removed, *true_expr) || mentions_removed(
            key,
            removed,
            *false_expr,
        ),
        _ => false,
    }
}

/// Does a binding of one of the elements `es` reference a removed element?
pub open spec fn bindings_mention_removed(key: u64, removed: Seq<Seq<char>>, es: Seq<Element>) -> bool {
    exists|i: int, k: int|
        0 <= i < es.len() && 0 <= k < es[i].bindings.len() && mentions_removed(
            key,
            removed,
            #[trigger] es[i].bindings@[k].1,
        )
}

/// The component `c` is what the pass makes of `c0`: the same live elements,
/// every declaration on the root under its hoisted name, every binding
/// rewritten and those of moved properties on the root, after the root's own.
pub open spec fn passed(c0: Component, c: Component) -> bool {
    let n = c0.elements.len();
    let n0 = c0.elements@[0].bindings.len();
    let root = c.elements@[0];
    &&& c.key == c0.key
    &&& c.optimized_elements.len() == 0
    &&& c.elements.len() == n
    &&& forall|i: int|
        0 <= i < n ==> {
            &&& (#[trigger] c.elements@[i]).id == c0.elements@[i].id
            &&& c.elements@[i].children == c0.elements@[i].children
            &&& c.elements@[i].base_type == c0.elements@[i].base_type
        }
    &&& forall|i: int| 1 <= i < n ==> (#[trigger] c.elements@[i]).property_declarations.len() == 0
    &&& decl_view(root.property_declarations@) == hoisted_declarations(c0)
    &&& n0 <= root.bindings.len()
    &&& split_bindings(
        scope_before(c0),
        c0.elements@[0].id@,
        Seq::empty(),
        c0.elements@[0].bindings@,
        root.bindings@.subrange(0, n0 as int),
        Seq::empty(),
    )
    &&& relocated_all(
        scope_before(c0),
        c0.elements@.subrange(1, n as int),
        c.elements@.subrange(1, n as int).map_values(|e: Element| e.bindings@),
        root.bindings@.subrange(n0 as int, root.bindings.len() as int),
    )
}

proof fn lemma_declares_view(v: Seq<(String, PropertyDeclaration)>, name: Seq<char>)
    ensures
        declares(v, name) == has_name(decl_view(v), name),
{
    if declares(v, name) {
        let i = choose|i: int| 0 <= i < v.len() && (#[trigger] v[i]).0@ == name;
        assert(decl_view(v)[i].0 == name);
    }
    if has_name(decl_view(v), name) {
        let i = choose|i: int| 0 <= i < decl_view(v).len() && (#[trigger] decl_view(v)[i]).0 == name;
        assert(v[i].0@ == name);
    }
}

proof fn lemma_has_name_concat(
    a: Seq<(Seq<char>, PropertyDeclaration)>,
    b: Seq<(Seq<char>, PropertyDeclaration)>,
    name: Seq<char>,
)
    ensures
        has_name(a + b, name) == (has_name(a, name) || has_name(b, name)),
{
    if has_name(a + b, name) {
        let i = choose|i: int| 0 <= i < (a + b).len() && (#[trigger] (a + b)[i]).0 == name;
        if i < a.len() {
            assert(a[i].0 == name);
        } else {
            assert(b[i - a.len()].0 == name);
        }
    }
    if has_name(a, name) {
        let i = choose|i: int| 0 <= i < a.len() && (#[trigger] a[i]).0 == name;
        assert((a + b)[i].0 == name);
    }
    if has_name(b, name) {
        let i = choose|i: int| 0 <= i < b.len() && (#[trigger] b[i]).0 == name;
        assert((a + b)[a.len() + i].0 == name);
    }
}

/// During the pass the component resolves references as it did before:
/// ids are kept, the root's declarations are taken out, non-root live
/// elements keep theirs, and each removed element declares what it declared
/// or inherited.
proof fn lemma_scope(c0: Component, c: Component)
    requires
        c0.elements.len() > 0,
        c.elements@[0].property_declarations.len() == 0,
        c.key == c0.key,
        c.elements.len() == c0.elements.len(),
        c.optimized_elements.len() == c0.optimized_elements.len(),
        forall|i: int| 0 <= i < c.elements.len() ==> (#[trigger] c.elements@[i]).id == c0.elements@[i].id,
        forall|i: int|
            1 <= i < c.elements.len() ==> (#[trigger] c.elements@[i]).property_declarations
                == c0.elements@[i].property_declarations,
        forall|j: int|
            0 <= j < c0.optimized_elements.len() ==> simplified(
                #[trigger] c0.optimized_elements@[j],
                c.optimized_elements@[j],
            ),
    ensures
        scope_of(c) == scope_before(c0),
{
    let a = scope_of(c);
    let b = scope_before(c0);
    assert forall|id: Seq<char>, name: Seq<char>| #[trigger] (a.moved)(id, name) == (b.moved)(id, name) by {
        assert forall|j: int| 0 <= j < c0.optimized_elements.len() implies (declares(
            c.optimized_elements@[j].property_declarations@,
            name,
        ) == (declares(c0.optimized_elements@[j].property_declarations@, name) || has_name(
            inherited_declarations(c0.optimized_elements@[j].base_type),
            name,
        ))) by {
            let o = c0.optimized_elements@[j];
            let n = c.optimized_elements@[j];
            assert(simplified(o, n));
            lemma_declares_view(n.property_declarations@, name);
            lemma_declares_view(o.property_declarations@, name);
            lemma_has_name_concat(
                decl_view(o.property_declarations@),
                inherited_declarations(o.base_type),
                name,
            );
        }
        if (a.moved)(id, name) {
            if exists|j: int|
                0 <= j < c.optimized_elements.len() && (#[trigger] c.optimized_elements@[j]).id@
                    == id && declares(c.optimized_elements@[j].property_declarations@, name) {
                let j = choose|j: int|
                    0 <= j < c.optimized_elements.len() && (#[trigger] c.optimized_elements@[j]).id@
                        == id && declares(c.optimized_elements@[j].property_declarations@, name);
                assert(c0.optimized_elements@[j].id@ == id);
            } else {
                let i = choose|i: int|
                    1 <= i < c.elements.len() && (#[trigger] c.elements@[i]).id@ == id && declares(
                        c.elements@[i].property_declarations@,
                        name,
                    );
                assert(c0.elements@[i].id@ == id);
            }
        }
        if (b.moved)(id, name) {
            if exists|j: int|
                0 <= j < c0.optimized_elements.len() && (#[trigger] c0.optimized_elements@[j]).id@
                    == id && (declares(c0.optimized_elements@[j].property_declarations@, name)
                    || has_name(inherited_declarations(c0.optimized_elements@[j].base_type), name)) {
                let j = choose|j: int|
                    0 <= j < c0.optimized_elements.len() && (#[trigger] c0.optimized_elements@[j]).id@
                        == id && (declares(c0.optimized_elements@[j].property_declarations@, name)
                        || has_name(inherited_declarations(c0.optimized_elements@[j].base_type), name));
                assert(c.optimized_elements@[j].id@ == id);
            } else {
                let i = choose|i: int|
                    1 <= i < c0.elements.len() && (#[trigger] c0.elements@[i]).id@ == id && declares(
                        c0.elements@[i].property_declarations@,
                        name,
                    );
                assert(c.elements@[i].id@ == id);
            }
        }
    }
    assert forall|id: Seq<char>| #[trigger] (a.found)(id) == (b.found)(id) by {
        if (a.found)(id) {
            if exists|i: int| 0 <= i < c.elements.len() && (#[trigger] c.elements@[i]).id@ == id {
                let i = choose|i: int| 0 <= i < c.elements.len() && (#[trigger] c.elements@[i]).id@ == id;
                assert(c0.elements@[i].id@ == id);
            } else {
                let j = choose|j: int|
                    0 <= j < c.optimized_elements.len() && (#[trigger] c.optimized_elements@[j]).id@ == id;
                assert(c0.optimized_elements@[j].id@ == id);
            }
        }
        if (b.found)(id) {
            if exists|i: int| 0 <= i < c0.elements.len() && (#[trigger] c0.elements@[i]).id@ == id {
                let i = choose|i: int| 0 <= i < c0.elements.len() && (#[trigger] c0.elements@[i]).id@ == id;
                assert(c.elements@[i].id@ == id);
            } else {
                let j = choose|j: int|
                    0 <= j < c0.optimized_elements.len() && (#[trigger] c0.optimized_elements@[j]).id@ == id;
                assert(c.optimized_elements@[j].id@ == id);
            }
        }
    }
    assert(a.moved =~= b.moved);
    assert(a.found =~= b.found);
}

proof fn lemma_moved_count_none(d: Seq<(String, PropertyDeclaration)>, b: Seq<(String, Expression)>)
    requires
        d.len() == 0,
    ensures
        moved_count(d, b) == 0,
    decreases b.len(),
{
    if b.len() > 0 {
        lemma_moved_count_none(d, b.drop_last());
    }
}

/// The declarations of one element, taken out of it.
struct Declarations {
    property_declarations: Vec<(String, PropertyDeclaration)>,
}

impl Declarations {
    /// Takes the declarations out of `e`, leaving it none and the rest as it was.
    fn take_from_element(e: &mut Element) -> (r: Self)
        ensures
            r.property_declarations == old(e).property_declarations,
            final(e).property_declarations@.len() == 0,
            final(e).id == old(e).id,
            final(e).base_type == old(e).base_type,
            final(e).bindings == old(e).bindings,
            final(e).children == old(e).children,
    {
        let mut d: Vec<(String, PropertyDeclaration)> = Vec::new();
        core::mem::swap(&mut e.property_declarations, &mut d);
        Declarations { property_declarations: d }
    }
}

/// Appends to `acc` the declarations `d` of element `id` under their hoisted names.
fn extend_renamed(
    acc: &mut Vec<(String, PropertyDeclaration)>,
    id: &String,
    d: &Vec<(String, PropertyDeclaration)>,
)
    ensures
        decl_view(final(acc)@) == decl_view(old(acc)@) + renamed(id@, decl_view(d@)),
{
    let ghost start = decl_view(acc@);
    let ghost r = renamed(id@, decl_view(d@));
    let mut t: usize = 0;
    while t < d.len()
        invariant
            t <= d.len(),
            r == renamed(id@, decl_view(d@)),
            r.len() == d.len(),
            decl_view(acc@) == start + r.subrange(0, t as int),
        decreases d.len() - t,
    {
        let x = (map_name(id, &d[t].0), d[t].1);
        proof {
            lemma_decl_view_push(acc@, x);
        }
        acc.push(x);
        assert(r.subrange(0, t + 1) =~= r.subrange(0, t as int).push(r[t as int]));
        t = t + 1;
    }
    assert(r.subrange(0, t as int) =~= r);
}

/// Do two of the declarations share a name?
fn has_duplicate_names(v: &Vec<(String, PropertyDeclaration)>) -> (r: bool)
    ensures
        r == !names_unique(decl_view(v@)),
{
    let ghost dv = decl_view(v@);
    let mut j: usize = 0;
    while j < v.len()
        invariant
            j <= v.len(),
            dv == decl_view(v@),
            forall|a: int, b: int| 0 <= a < b < j ==> (#[trigger] dv[a]).0 != (#[trigger] dv[b]).0,
        decreases v.len() - j,
    {
        let mut i: usize = 0;
        while i < j
            invariant
                i <= j < v.len(),
                dv == decl_view(v@),
                forall|a: int| 0 <= a < i ==> (#[trigger] dv[a]).0 != dv[j as int].0,
            decreases j - i,
        {
            if v[i].0 == v[j].0 {
                assert(dv[i as int].0 == dv[j as int].0);
                return true;
            }
            i = i + 1;
        }
        j = j + 1;
    }
    false
}

fn is_removed_id(removed: &Vec<Element>, id: &String) -> (r: bool)
    ensures
        r == exists|j: int|
            0 <= j < removed.len() && (#[trigger] element_ids(removed@)[j]) == id@,
{
    let mut j: usize = 0;
    while j < removed.len()
        invariant
            j <= removed.len(),
            forall|k: int| 0 <= k < j ==> (#[trigger] element_ids(removed@)[k]) != id@,
        decreases removed.len() - j,
    {
        if removed[j].id == *id {
            assert(element_ids(removed@)[j as int] == id@);
            return true;
        }
        j = j + 1;
    }
    false
}

fn mentions_removed_element(key: u64, removed: &Vec<Element>, e: &Expression) -> (r: bool)
    ensures
        r == mentions_removed(key, element_ids(removed@), *e),
    decreases e,
{
    match e {
        Expression::PropertyReference(r) => r.component == key && is_removed_id(removed, &r.element),
        Expression::SignalReference(r) => r.component == key && is_removed_id(removed, &r.element),
        Expression::UnaryOp { sub, op: _ } => mentions_removed_element(key, removed, &**sub),
        Expression::BinaryOp { lhs, rhs, op: _ } => mentions_removed_element(key, removed, &**lhs)
            || mentions_removed_element(key, removed, &**rhs),
        Expression::Condition { condition, true_expr, false_expr } => mentions_removed_element(
            key,
            removed,
            &**condition,
        ) || mentions_removed_element(key, removed, &**true_expr) || mentions_removed_element(
            key,
            removed,
            &**false_expr,
        ),
        _ => false,
    }
}

/// Checks that no binding of the live elements `elements` references one of
/// the removed elements `items` any more. Only the bindings of these live
/// elements are looked at: references held by other components, or by the
/// removed elements themselves, are not seen.
pub fn assert_optized_item_unused(key: u64, items: &Vec<Element>, elements: &Vec<Element>) -> (r: bool)
    ensures
        r == !bindings_mention_removed(key, element_ids(items@), elements@),
{
    let mut i: usize = 0;
    while i < elements.len()
        invariant
            i <= elements.len(),
            forall|a: int, k: int|
                0 <= a < i && 0 <= k < elements@[a].bindings.len() ==> !mentions_removed(
                    key,
                    element_ids(items@),
                    #[trigger] elements@[a].bindings@[k].1,
                ),
        decreases elements.len() - i,
    {
        let b = &elements[i].bindings;
        let mut k: usize = 0;
        while k < b.len()
            invariant
                i < elements.len(),
                b == elements@[i as int].bindings,
                k <= b.len(),
                forall|a: int, k: int|
                    0 <= a < i && 0 <= k < elements@[a].bindings.len() ==> !mentions_removed(
                        key,
                        element_ids(items@),
                        #[trigger] elements@[a].bindings@[k].1,
                    ),
                forall|m: int|
                    0 <= m < k ==> !mentions_removed(key, element_ids(items@), #[trigger] b@[m].1),
            decreases b.len() - k,
        {
            if mentions_removed_element(key, items, &b[k].1) {
                return false;
            }
            k = k + 1;
        }
        i = i + 1;
    }
    true
}

/// Moves every property declaration of the elements of the component's tree
/// (in a well-formed component, every live element is reached exactly once) to
/// its root, renamed `<element id>_<name>`, together with the bindings of those
/// properties, and rewrites every reference to a moved property so that it
/// names the root and the new name. Removed elements first take on the
/// declarations of their base type chain, so that references to them move
/// too; the side list of removed elements is emptied.
///
/// Fails with `BrokenReference` when a reference into the component names an
/// element it does not hold, with `NameCollision` when two declarations take
/// the same name on the root, and with `ReferencedOptimizedElement` when a
/// binding still references a removed element at the end; in that last case
/// the declarations and bindings have been moved all the same.
pub fn move_declarations(component: &mut Component) -> (res: Result<(), MoveError>)
    requires
        well_formed(*old(component)),
    ensures
        res == Err::<(), MoveError>(MoveError::BrokenReference) <==> !all_resolve(*old(component)),
        res == Err::<(), MoveError>(MoveError::NameCollision) <==> all_resolve(*old(component))
            && !names_unique(hoisted_declarations(*old(component))),
        res == Err::<(), MoveError>(MoveError::ReferencedOptimizedElement) <==> all_resolve(
            *old(component),
        ) && names_unique(hoisted_declarations(*old(component))) && bindings_mention_removed(
            old(component).key,
            element_ids(old(component).optimized_elements@),
            final(component).elements@,
        ),
        res is Ok ==> final(component).optimized_elements.len() == 0 && !bindings_mention_removed(
            old(component).key,
            element_ids(old(component).optimized_elements@),
            final(component).elements@,
        ),
        res is Ok || res == Err::<(), MoveError>(MoveError::ReferencedOptimizedElement) ==> passed(
            *old(component),
            *final(component),
        ),
{
    let ghost c0 = *component;
    let ghost sc = scope_before(c0);
    let n = component.elements.len();
    simplify_optimized_items(&mut component.optimized_elements);
    let mut decl = Declarations::take_from_element(&mut component.elements[0]);

    // The root's own properties keep their names, so its bindings all stay.
    let mut b: Vec<(String, Expression)> = Vec::new();
    core::mem::swap(&mut component.elements[0].bindings, &mut b);
    proof {
        lemma_scope(c0, *component);
    }
    let kept0 = match fixup_element_bindings(
        b,
        &component.elements[0].id,
        &component.elements[0].property_declarations,
        &*component,
    ) {
        Ok(p) => {
            proof {
                lemma_split_count(
                    sc,
                    c0.elements@[0].id@,
                    component.elements@[0].property_declarations@,
                    c0.elements@[0].bindings@,
                    p.0@,
                    p.1@,
                );
                lemma_moved_count_none(component.elements@[0].property_declarations@, c0.elements@[0].bindings@);
                assert(component.elements@[0].property_declarations@ =~= Seq::empty());
                assert(p.1@ =~= Seq::empty());
            }
            p.0
        },
        Err(e) => {
            proof {
                let k = choose|k: int|
                    0 <= k < c0.elements@[0].bindings.len() && !refs_resolve(
                        sc,
                        #[trigger] c0.elements@[0].bindings@[k].1,
                    );
                assert(!refs_resolve(scope_before(c0), c0.elements@[0].bindings@[k].1));
            }
            return Err(e);
        },
    };
    let ghost root_kept = kept0@;
    component.elements[0].bindings = kept0;

    let mut new_root_bindings: Vec<(String, Expression)> = Vec::new();
    let mut i: usize = 1;
    while i < n
        invariant
            1 <= i <= n,
            c0 == *old(component),
            component.elements@[0].property_declarations.len() == 0,
            n == c0.elements.len(),
            sc == scope_before(c0),
            component.key == c0.key,
            component.elements.len() == n,
            component.optimized_elements.len() == c0.optimized_elements.len(),
            forall|j: int|
                0 <= j < c0.optimized_elements.len() ==> simplified(
                    #[trigger] c0.optimized_elements@[j],
                    component.optimized_elements@[j],
                ),
            forall|k: int|
                0 <= k < n ==> {
                    &&& (#[trigger] component.elements@[k]).id == c0.elements@[k].id
                    &&& component.elements@[k].children == c0.elements@[k].children
                    &&& component.elements@[k].base_type == c0.elements@[k].base_type
                },
            forall|k: int|
                1 <= k < n ==> (#[trigger] component.elements@[k]).property_declarations
                    == c0.elements@[k].property_declarations,
            forall|k: int| i <= k < n ==> (#[trigger] component.elements@[k]).bindings == c0.elements@[k].bindings,
            component.elements@[0].bindings@ == root_kept,
            decl.property_declarations == c0.elements@[0].property_declarations,
            split_bindings(
                sc,
                c0.elements@[0].id@,
                Seq::empty(),
                c0.elements@[0].bindings@,
                root_kept,
                Seq::empty(),
            ),
            root_kept.len() == c0.elements@[0].bindings.len(),
            relocated_all(
                sc,
                c0.elements@.subrange(1, i as int),
                component.elements@.subrange(1, i as int).map_values(|e: Element| e.bindings@),
                new_root_bindings@,
            ),
            forall|a: int, k: int|
                0 <= a < i && 0 <= k < c0.elements@[a].bindings.len() ==> refs_resolve(
                    sc,
                    #[trigger] c0.elements@[a].bindings@[k].1,
                ),
        decreases n - i,
    {
        let ghost prev = component.elements@;
        let ghost prev_moved = new_root_bindings@;
        let mut b: Vec<(String, Expression)> = Vec::new();
        core::mem::swap(&mut component.elements[i].bindings, &mut b);
        proof {
            lemma_scope(c0, *component);
            assert(prev[i as int].bindings == c0.elements@[i as int].bindings);
            assert(b@ == c0.elements@[i as int].bindings@);
        }
        match fixup_element_bindings(
            b,
            &component.elements[i].id,
            &component.elements[i].property_declarations,
            &*component,
        ) {
            Ok((kept, mut moved)) => {
                let ghost e = c0.elements@[i as int];
                proof {
                    lemma_split_count(sc, e.id@, e.property_declarations@, e.bindings@, kept@, moved@);
                }
                let ghost moved_v = moved@;
                component.elements[i].bindings = kept;
                new_root_bindings.append(&mut moved);
                proof {
                    let f = |e: Element| e.bindings@;
                    let olds = c0.elements@.subrange(1, i + 1);
                    let news = component.elements@.subrange(1, i + 1).map_values(f);
                    let r = new_root_bindings@;
                    let m = moved_v.len();
                    assert(olds.drop_last() =~= c0.elements@.subrange(1, i as int));
                    assert(olds.last() == e);
                    assert(news.drop_last() =~= prev.subrange(1, i as int).map_values(f));
                    assert(news.last() == component.elements@[i as int].bindings@);
                    assert(r.subrange(r.len() - m, r.len() as int) =~= moved_v);
                    assert(r.subrange(0, r.len() - m) =~= prev_moved);
                }
            },
            Err(err) => {
                proof {
                    let k = choose|k: int|
                        0 <= k < c0.elements@[i as int].bindings.len() && !refs_resolve(
                            sc,
                            #[trigger] c0.elements@[i as int].bindings@[k].1,
                        );
                    assert(!refs_resolve(scope_before(c0), c0.elements@[i as int].bindings@[k].1));
                }
                return Err(err);
            },
        }
        i = i + 1;
    }
    assert(all_resolve(c0));
    let ghost fixed_elements = component.elements@;

    let mut j: usize = 1;
    while j < n
        invariant
            1 <= j <= n,
            c0 == *old(component),
            n == c0.elements.len(),
            fixed_elements.len() == n,
            component.key == c0.key,
            component.elements.len() == n,
            component.optimized_elements.len() == c0.optimized_elements.len(),
            forall|k: int|
                0 <= k < n ==> {
                    &&& (#[trigger] component.elements@[k]).id == c0.elements@[k].id
                    &&& component.elements@[k].children == c0.elements@[k].children
                    &&& component.elements@[k].base_type == c0.elements@[k].base_type
                    &&& component.elements@[k].bindings == fixed_elements[k].bindings
                },
            forall|k: int|
                j <= k < n ==> (#[trigger] component.elements@[k]).property_declarations
                    == c0.elements@[k].property_declarations,
            forall|k: int| 1 <= k < j ==> (#[trigger] component.elements@[k]).property_declarations.len() == 0,
            decl_view(decl.property_declarations@) == decl_view(c0.elements@[0].property_declarations@)
                + hoisted_from(c0.elements@.subrange(1, j as int)),
            sc == scope_before(c0),
            forall|k: int|
                0 <= k < c0.optimized_elements.len() ==> simplified(
                    #[trigger] c0.optimized_elements@[k],
                    component.optimized_elements@[k],
                ),
            component.elements@[0].bindings@ == root_kept,
            split_bindings(
                sc,
                c0.elements@[0].id@,
                Seq::empty(),
                c0.elements@[0].bindings@,
                root_kept,
                Seq::empty(),
            ),
            root_kept.len() == c0.elements@[0].bindings.len(),
            relocated_all(
                sc,
                c0.elements@.subrange(1, n as int),
                fixed_elements.subrange(1, n as int).map_values(|e: Element| e.bindings@),
                new_root_bindings@,
            ),
            all_resolve(c0),
        decreases n - j,
    {
        let elem_decl = Declarations::take_from_element(&mut component.elements[j]);
        extend_renamed(&mut decl.property_declarations, &component.elements[j].id, &elem_decl.property_declarations);
        proof {
            let es = c0.elements@.subrange(1, j + 1);
            assert(es.drop_last() =~= c0.elements@.subrange(1, j as int));
            assert(es.last() == c0.elements@[j as int]);
            assert(decl_view(c0.elements@[0].property_declarations@) + hoisted_from(
                c0.elements@.subrange(1, j as int),
            ) + renamed(c0.elements@[j as int].id@, decl_view(c0.elements@[j as int].property_declarations@))
                =~= decl_view(c0.elements@[0].property_declarations@) + hoisted_from(es));
        }
        j = j + 1;
    }
    if has_duplicate_names(&decl.property_declarations) {
        return Err(MoveError::NameCollision);
    }
    let ghost moved_all = new_root_bindings@;
    component.elements[0].property_declarations = decl.property_declarations;
    component.elements[0].bindings.append(&mut new_root_bindings);

    let mut removed: Vec<Element> = Vec::new();
    core::mem::swap(&mut component.optimized_elements, &mut removed);
    proof {
        assert(element_ids(removed@) =~= element_ids(c0.optimized_elements@)) by {
            assert forall|k: int| 0 <= k < removed.len() implies element_ids(removed@)[k]
                == element_ids(c0.optimized_elements@)[k] by {
                assert(simplified(c0.optimized_elements@[k], removed@[k]));
            }
        }
        let f = |e: Element| e.bindings@;
        let root = component.elements@[0];
        let n0 = c0.elements@[0].bindings.len();
        assert(root.bindings@.subrange(0, n0 as int) =~= root_kept);
        assert(component.elements@.subrange(1, n as int).map_values(f) =~= fixed_elements.subrange(
            1,
            n as int,
        ).map_values(f));
        assert(root.bindings@.subrange(n0 as int, root.bindings.len() as int) =~= moved_all);
    }
    if !assert_optized_item_unused(component.key, &removed, &component.elements) {
        return Err(MoveError::ReferencedOptimizedElement);
    }
    Ok(())
}

} // verus!
