use generics_report::visitor::GenericVisitor;

// The tool aborts on unparsable input before any traversal runs: the parser
// refuses the text, so nothing ever reaches the visitor and no report is
// produced. The parser's verdict itself comes from the parsing crate.
#[test]
fn mismatched_braces_are_refused_by_the_parser() {
    let bad = "struct Broken { field: u32";
    let parsed = syn::parse_file(bad);
    assert!(parsed.is_err());
}

#[test]
fn valid_input_is_accepted_by_the_parser() {
    let good = "struct Pair<'a, T: Clone> { x: &'a T }";
    let parsed = syn::parse_file(good);
    assert!(parsed.is_ok());
}

#[test]
fn fresh_visitor_holds_no_entries() {
    let v = GenericVisitor::new();
    assert_eq!(v.types.len(), 0);
    assert_eq!(v.lifetimes.len(), 0);
    assert_eq!(v.current_context, "");
}
