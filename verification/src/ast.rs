use vstd::prelude::*;

verus! {

/// The kinds of declaration the traversal tells apart: the three that set
/// the context label, and everything else (enums, impls, modules, ...),
/// which is walked without changing the label.
#[derive(Clone, Copy)]
pub enum ItemKind {
    Struct,
    Trait,
    Function,
    Other,
}

/// One generic parameter of a declaration, as the traversal reads it: a type
/// parameter with its trait bounds already rendered to text in declaration
/// order, a lifetime parameter by bare name (without the sigil), or any other
/// kind of parameter (such as a const parameter), which the traversal ignores.
pub enum GenericParam {
    TypeParam { name: String, bounds: Vec<String> },
    LifetimeParam { name: String },
    OtherParam,
}

/// A node of the declaration tree: its kind, its own name (meaningful only
/// for the kinds that set the context label), its generic parameters in
/// declaration order, and the nested nodes in traversal order. A node whose
/// generics sit between its name and its body (a struct, a trait, an impl
/// block) lists its parameters here and its nested declarations — trait
/// methods, impl methods, items of a module or a function body — as children,
/// in the order the source gives them.
pub struct Item {
    pub kind: ItemKind,
    pub name: String,
    pub params: Vec<GenericParam>,
    pub children: Vec<Item>,
}

} // verus!
