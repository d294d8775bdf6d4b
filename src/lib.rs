//! A compiler pass that hoists every element's property declarations to the
//! root element of its component, renaming each one `<element id>_<name>`.

pub mod expression_tree;
pub mod object_tree;
pub mod move_declarations;
pub mod lemmas;
