use generics_report::ast::{GenericParam, Item, ItemKind};
use generics_report::report::{group_lifetimes, trimmed};
use generics_report::visitor::{GenericVisitor, LifetimeInfo};

fn type_param(name: &str, bounds: &[&str]) -> GenericParam {
    GenericParam::TypeParam {
        name: name.to_string(),
        bounds: bounds.iter().map(|b| b.to_string()).collect(),
    }
}

fn lifetime_param(name: &str) -> GenericParam {
    GenericParam::LifetimeParam { name: name.to_string() }
}

fn leaf(kind: ItemKind, name: &str, params: Vec<GenericParam>) -> Item {
    Item { kind, name: name.to_string(), params, children: Vec::new() }
}

fn entry(name: &str, context: &str) -> LifetimeInfo {
    LifetimeInfo { name: name.to_string(), context: context.to_string() }
}

#[test]
fn empty_state_renders_only_the_two_headers() {
    let v = GenericVisitor::new();
    assert_eq!(v.format_output(), "\n=== Generic Types ===\n\n=== Lifetimes ===\n");
}

#[test]
fn struct_pair_report_text() {
    let item = leaf(ItemKind::Struct, "Pair", vec![lifetime_param("a"), type_param("T", &["Clone"])]);
    let mut v = GenericVisitor::new();
    v.visit_item(&item);
    let expected = "\n=== Generic Types ===\n\
                    \nIn struct Pair:\n  Type: T\n  Bounds:\n    - Clone\n\
                    \n=== Lifetimes ===\n\
                    \nLifetime 'a\n  Used in:\n    - struct Pair\n";
    assert_eq!(v.format_output(), expected);
}

#[test]
fn type_without_bounds_gets_no_bounds_heading() {
    let item = leaf(ItemKind::Struct, "Bare", vec![type_param("T", &[])]);
    let mut v = GenericVisitor::new();
    v.visit_item(&item);
    let expected = "\n=== Generic Types ===\n\nIn struct Bare:\n  Type: T\n\n=== Lifetimes ===\n";
    assert_eq!(v.format_output(), expected);
}

#[test]
fn bounds_are_trimmed_in_the_report() {
    let item = leaf(ItemKind::Struct, "S", vec![type_param("T", &["  Clone \n"])]);
    let mut v = GenericVisitor::new();
    v.visit_item(&item);
    let expected =
        "\n=== Generic Types ===\n\nIn struct S:\n  Type: T\n  Bounds:\n    - Clone\n\n=== Lifetimes ===\n";
    assert_eq!(v.format_output(), expected);
}

#[test]
fn two_function_lifetimes_make_two_groups_of_one_context() {
    let item = leaf(ItemKind::Function, "f", vec![lifetime_param("x"), lifetime_param("y")]);
    let mut v = GenericVisitor::new();
    v.visit_item(&item);
    let groups = group_lifetimes(&v.lifetimes);
    assert_eq!(groups.len(), 2);
    assert_eq!(groups[0].name, "x");
    assert_eq!(groups[0].contexts, vec!["function f".to_string()]);
    assert_eq!(groups[1].name, "y");
    assert_eq!(groups[1].contexts, vec!["function f".to_string()]);
}

#[test]
fn grouping_partitions_entries_without_loss() {
    let entries = vec![
        entry("a", "struct One"),
        entry("b", "struct Two"),
        entry("a", "fn three"),
        entry("c", "fn four"),
        entry("b", "fn five"),
    ];
    let groups = group_lifetimes(&entries);
    assert_eq!(groups.len(), 3);
    assert_eq!(groups[0].name, "a");
    assert_eq!(groups[0].contexts, vec!["struct One".to_string(), "fn three".to_string()]);
    assert_eq!(groups[1].name, "b");
    assert_eq!(groups[1].contexts, vec!["struct Two".to_string(), "fn five".to_string()]);
    assert_eq!(groups[2].name, "c");
    assert_eq!(groups[2].contexts, vec!["fn four".to_string()]);
    let total: usize = groups.iter().map(|g| g.contexts.len()).sum();
    assert_eq!(total, entries.len());
}

#[test]
fn grouping_of_no_entries_is_empty() {
    let entries: Vec<LifetimeInfo> = Vec::new();
    let groups = group_lifetimes(&entries);
    assert_eq!(groups.len(), 0);
}

#[test]
fn running_the_walk_twice_gives_identical_text() {
    let file = vec![
        leaf(ItemKind::Struct, "Pair", vec![lifetime_param("a"), type_param("T", &["Clone"])]),
        leaf(ItemKind::Function, "go", vec![lifetime_param("a"), type_param("U", &["Default", "Clone"])]),
    ];
    let mut first = GenericVisitor::new();
    first.visit_file(&file);
    let mut second = GenericVisitor::new();
    second.visit_file(&file);
    assert_eq!(first.format_output(), second.format_output());
}

#[test]
fn trimmed_strips_only_outer_whitespace() {
    assert_eq!(trimmed("  Clone + Debug \n"), "Clone + Debug");
    assert_eq!(trimmed("Iterator < Item = u8 >"), "Iterator < Item = u8 >");
    assert_eq!(trimmed(""), "");
    assert_eq!(trimmed(" \t\r\n "), "");
    assert_eq!(trimmed("x"), "x");
}

#[test]
fn lifetime_shared_across_declarations_lists_both_contexts() {
    let file = vec![
        leaf(ItemKind::Struct, "Holder", vec![lifetime_param("a")]),
        leaf(ItemKind::Function, "use_it", vec![lifetime_param("a")]),
    ];
    let mut v = GenericVisitor::new();
    v.visit_file(&file);
    let expected = "\n=== Generic Types ===\n\
                    \n=== Lifetimes ===\n\
                    \nLifetime 'a\n  Used in:\n    - struct Holder\n    - function use_it\n";
    assert_eq!(v.format_output(), expected);
}
