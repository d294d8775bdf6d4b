//! The element tree of a component.
//!
//! A component owns its elements in an arena: `elements[0]` is the root and
//! the other entries are the live elements below it, linked by the child
//! indices of their parents. Elements that an earlier inlining step removed
//! from the live tree are kept in a side list until the hoisting pass ends.
use vstd::prelude::*;

use crate::expression_tree::Expression;

verus! {

/// The type of a declared property.
#[derive(Clone, Copy, PartialEq, Eq, Structural, Debug)]
pub enum PropertyType {
    Invalid,
    Bool,
    Int32,
    Number,
    String,
    Length,
    Color,
    Callback,
}

/// A named, typed slot that a binding may target.
#[derive(Clone, Copy, PartialEq, Eq, Structural, Debug)]
pub struct PropertyDeclaration {
    pub property_type: PropertyType,
    pub expose_in_public_api: bool,
}

/// A builtin element: a static table of property names and types.
pub struct BuiltinElement {
    pub name: String,
    pub properties: Vec<(String, PropertyType)>,
}

/// What an element specializes.
pub enum ElementType {
    Invalid,
    Builtin(BuiltinElement),
    Component(Box<Component>),
}

pub struct Element {
    /// Unique among the elements of the owning component.
    pub id: String,
    pub base_type: ElementType,
    pub property_declarations: Vec<(String, PropertyDeclaration)>,
    pub bindings: Vec<(String, Expression)>,
    /// Indices into the owning component's `elements`.
    pub children: Vec<usize>,
}

pub struct Component {
    /// Identifies the component; references carry it as their weak link.
    pub key: u64,
    /// The live tree; `elements[0]` is the root element.
    pub elements: Vec<Element>,
    /// Elements removed from the live tree by inlining, their removed
    /// children included.
    pub optimized_elements: Vec<Element>,
}

/// The declarations of a list, with each name seen as its characters.
pub open spec fn decl_view(v: Seq<(String, PropertyDeclaration)>) -> Seq<(Seq<char>, PropertyDeclaration)> {
    v.map_values(|p: (String, PropertyDeclaration)| (p.0@, p.1))
}

/// Does the declaration list hold an entry named `name`?
pub open spec fn declares(v: Seq<(String, PropertyDeclaration)>, name: Seq<char>) -> bool {
    exists|i: int| 0 <= i < v.len() && (#[trigger] v[i]).0@ == name
}

/// Does the list of declarations hold an entry named `name`?
pub open spec fn has_name(d: Seq<(Seq<char>, PropertyDeclaration)>, name: Seq<char>) -> bool {
    exists|i: int| 0 <= i < d.len() && (#[trigger] d[i]).0 == name
}

/// Are the names of the declarations pairwise distinct?
pub open spec fn names_unique(d: Seq<(Seq<char>, PropertyDeclaration)>) -> bool {
    forall|i: int, j: int| 0 <= i < j < d.len() ==> (#[trigger] d[i]).0 != (#[trigger] d[j]).0
}

/// The name that a declaration `name` of element `id` takes on the root.
pub open spec fn hoisted_name(id: Seq<char>, name: Seq<char>) -> Seq<char> {
    id + seq!['_'] + name
}

/// Every declaration the base type chain `t` exposes: the root declarations
/// of each component along the chain, then the builtin table that ends it,
/// each builtin property with default metadata.
pub open spec fn inherited_declarations(t: ElementType) -> Seq<(Seq<char>, PropertyDeclaration)>
    decreases t,
{
    match t {
        ElementType::Invalid => seq![],
        ElementType::Builtin(b) => b.properties@.map_values(
            |p: (String, PropertyType)|
                (p.0@, PropertyDeclaration { property_type: p.1, expose_in_public_api: false }),
        ),
        ElementType::Component(c) => {
            if c.elements.len() > 0 {
                decl_view(c.elements@[0].property_declarations@) + inherited_declarations(
                    c.elements@[0].base_type,
                )
            } else {
                seq![]
            }
        },
    }
}

/// Are the names of the bindings pairwise distinct?
pub open spec fn binding_names_distinct(b: Seq<(String, Expression)>) -> bool {
    forall|i: int, j: int| 0 <= i < j < b.len() ==> (#[trigger] b[i]).0@ != (#[trigger] b[j]).0@
}

/// An element's declarations and bindings are maps: no name twice.
pub open spec fn element_well_formed(e: Element) -> bool {
    &&& names_unique(decl_view(e.property_declarations@))
    &&& binding_names_distinct(e.bindings@)
}

/// Is element `k` listed among the children of one of the elements `live`?
pub open spec fn has_parent(live: Seq<Element>, k: int) -> bool {
    exists|p: int, j: int|
        0 <= p < live.len() && 0 <= j < live[p].children.len() && #[trigger] live[p].children@[j]
            == k
}

/// The component as the earlier passes deliver it:
/// - `elements` is a tree rooted at `elements[0]` laid out in depth-first
///   order: each child index lies after its parent and within the arena, and
///   every non-root element is the child of exactly one element, once;
/// - ids are unique among live and removed elements together;
/// - every element's declarations and bindings are maps;
/// - a removed element redeclares nothing that its base type chain exposes,
///   and the chain exposes no name twice.
pub open spec fn well_formed(c: Component) -> bool {
    let n = c.elements.len();
    let live = c.elements@;
    let gone = c.optimized_elements@;
    &&& n > 0
    &&& forall|p: int, j: int|
        0 <= p < n && 0 <= j < live[p].children.len() ==> p < #[trigger] live[p].children@[j] < n
    &&& forall|k: int| 1 <= k < n ==> #[trigger] has_parent(live, k)
    &&& forall|p: int, j: int, q: int, l: int|
        0 <= p < n && 0 <= j < live[p].children.len() && 0 <= q < n && 0 <= l
            < live[q].children.len() && #[trigger] live[p].children@[j]
            == #[trigger] live[q].children@[l] ==> p == q && j == l
    &&& forall|a: int, b: int| 0 <= a < b < n ==> (#[trigger] live[a]).id@ != (#[trigger] live[b]).id@
    &&& forall|a: int, b: int|
        0 <= a < b < gone.len() ==> (#[trigger] gone[a]).id@ != (#[trigger] gone[b]).id@
    &&& forall|a: int, b: int|
        0 <= a < n && 0 <= b < gone.len() ==> (#[trigger] live[a]).id@ != (#[trigger] gone[b]).id@
    &&& forall|a: int| 0 <= a < n ==> element_well_formed(#[trigger] live[a])
    &&& forall|b: int|
        0 <= b < gone.len() ==> {
            &&& element_well_formed(#[trigger] gone[b])
            &&& names_unique(
                decl_view(gone[b].property_declarations@) + inherited_declarations(gone[b].base_type),
            )
        }
}

} // verus!
