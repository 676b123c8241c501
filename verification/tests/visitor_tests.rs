use generics_report::ast::{GenericParam, Item, ItemKind};
use generics_report::visitor::GenericVisitor;

fn type_param(name: &str, bounds: &[&str]) -> GenericParam {
    GenericParam::TypeParam {
        name: name.to_string(),
        bounds: bounds.iter().map(|b| b.to_string()).collect(),
    }
}

fn lifetime_param(name: &str) -> GenericParam {
    GenericParam::LifetimeParam { name: name.to_string() }
}

fn leaf(kind: ItemKind, name: &str, params: Vec<GenericParam>) -> Item {
    Item { kind, name: name.to_string(), params, children: Vec::new() }
}

#[test]
fn struct_pair_records_one_type_and_one_lifetime() {
    let item = leaf(ItemKind::Struct, "Pair", vec![lifetime_param("a"), type_param("T", &["Clone"])]);
    let mut v = GenericVisitor::new();
    v.visit_item(&item);
    assert_eq!(v.types.len(), 1);
    assert_eq!(v.types[0].name, "T");
    assert_eq!(v.types[0].bounds, vec!["Clone".to_string()]);
    assert_eq!(v.types[0].context, "struct Pair");
    assert_eq!(v.lifetimes.len(), 1);
    assert_eq!(v.lifetimes[0].name, "a");
    assert_eq!(v.lifetimes[0].context, "struct Pair");
}

#[test]
fn function_with_two_lifetimes_records_no_types() {
    let item = leaf(ItemKind::Function, "f", vec![lifetime_param("x"), lifetime_param("y")]);
    let mut v = GenericVisitor::new();
    v.visit_item(&item);
    assert_eq!(v.types.len(), 0);
    assert_eq!(v.lifetimes.len(), 2);
    assert_eq!(v.lifetimes[0].name, "x");
    assert_eq!(v.lifetimes[0].context, "function f");
    assert_eq!(v.lifetimes[1].name, "y");
    assert_eq!(v.lifetimes[1].context, "function f");
}

#[test]
fn bounds_keep_declaration_order() {
    let item = leaf(ItemKind::Trait, "Container", vec![type_param("T", &["A", "B"])]);
    let mut v = GenericVisitor::new();
    v.visit_item(&item);
    assert_eq!(v.types.len(), 1);
    assert_eq!(v.types[0].bounds, vec!["A".to_string(), "B".to_string()]);
    assert_eq!(v.types[0].context, "trait Container");
}

#[test]
fn declaration_with_mixed_parameters_counts_each_kind() {
    let item = leaf(
        ItemKind::Struct,
        "Holder",
        vec![
            lifetime_param("a"),
            lifetime_param("b"),
            type_param("T", &[]),
            type_param("U", &[]),
        ],
    );
    let mut v = GenericVisitor::new();
    v.visit_item(&item);
    assert_eq!(v.types.len(), 2);
    assert_eq!(v.lifetimes.len(), 2);
    assert_eq!(v.types[0].name, "T");
    assert_eq!(v.types[1].name, "U");
    assert!(v.types.iter().all(|t| t.context == "struct Holder"));
    assert!(v.lifetimes.iter().all(|l| l.context == "struct Holder"));
}

#[test]
fn other_parameter_kinds_are_ignored() {
    let item = leaf(
        ItemKind::Struct,
        "Arr",
        vec![GenericParam::OtherParam, type_param("T", &[])],
    );
    let mut v = GenericVisitor::new();
    v.visit_item(&item);
    assert_eq!(v.types.len(), 1);
    assert_eq!(v.lifetimes.len(), 0);
}

#[test]
fn unnamed_item_keeps_enclosing_context() {
    // An impl block after a struct: the walk does not change the label, so
    // the impl's parameters are recorded under the struct's label.
    let file = vec![
        leaf(ItemKind::Struct, "DataHolder", vec![lifetime_param("a"), type_param("T", &[])]),
        leaf(ItemKind::Other, "", vec![lifetime_param("a"), type_param("T", &[])]),
    ];
    let mut v = GenericVisitor::new();
    v.visit_file(&file);
    assert_eq!(v.types.len(), 2);
    assert_eq!(v.types[1].context, "struct DataHolder");
    assert_eq!(v.lifetimes[1].context, "struct DataHolder");
}

#[test]
fn nested_declaration_overwrites_context_for_later_siblings() {
    // A struct nested in a function body leaves its own label behind; an
    // unnamed sibling visited afterwards records under that leaked label.
    let f = Item {
        kind: ItemKind::Function,
        name: "outer".to_string(),
        params: vec![],
        children: vec![leaf(ItemKind::Struct, "Inner", vec![type_param("S", &[])])],
    };
    let file = vec![f, leaf(ItemKind::Other, "", vec![type_param("E", &[])])];
    let mut v = GenericVisitor::new();
    v.visit_file(&file);
    assert_eq!(v.types.len(), 2);
    assert_eq!(v.types[0].name, "S");
    assert_eq!(v.types[0].context, "struct Inner");
    assert_eq!(v.types[1].name, "E");
    assert_eq!(v.types[1].context, "struct Inner");
}

#[test]
fn children_are_walked_after_own_parameters() {
    // A trait with a method that has its own generics: the trait's
    // parameters come first, the method's follow, both under the trait's
    // label since a method does not change it.
    let t = Item {
        kind: ItemKind::Trait,
        name: "Proc".to_string(),
        params: vec![type_param("T", &[])],
        children: vec![leaf(ItemKind::Other, "", vec![type_param("V", &["AsRef < str >"])])],
    };
    let mut v = GenericVisitor::new();
    v.visit_item(&t);
    assert_eq!(v.types.len(), 2);
    assert_eq!(v.types[0].name, "T");
    assert_eq!(v.types[1].name, "V");
    assert_eq!(v.types[1].context, "trait Proc");
    assert_eq!(v.types[1].bounds, vec!["AsRef < str >".to_string()]);
}

#[test]
fn set_context_replaces_the_label() {
    let mut v = GenericVisitor::new();
    v.set_context("trait Demo");
    let params = vec![lifetime_param("q")];
    v.visit_generics(&params);
    assert_eq!(v.lifetimes.len(), 1);
    assert_eq!(v.lifetimes[0].context, "trait Demo");
}
