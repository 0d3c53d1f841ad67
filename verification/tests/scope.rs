use bumpalo::Bump;
use sbnf::sublime_syntax::{Pattern, Scope};

#[test]
fn scope_parse_normalises_whitespace() {
    let bump = Bump::new();
    let scope = Scope::parse("  a.b \t c.d\n\ne  ", &bump);
    assert_eq!(scope.as_str(), "a.b c.d e");
    assert!(!scope.is_empty());
}

#[test]
fn scope_parse_is_idempotent() {
    let bump = Bump::new();
    let once = Scope::parse(" x\r\ny \x0c z ", &bump);
    let twice = Scope::parse(once.as_str(), &bump);
    assert_eq!(once.as_str(), "x y z");
    assert_eq!(twice.as_str(), once.as_str());
    // A parsed scope is accepted as it is.
    assert_eq!(Scope::new(once.as_str()), once);
}

#[test]
fn scope_parse_keeps_vertical_tab() {
    // Vertical tab is not ASCII whitespace for `split_ascii_whitespace`.
    let bump = Bump::new();
    let scope = Scope::parse("a\x0bb c", &bump);
    assert_eq!(scope.as_str(), "a\x0bb c");
}

#[test]
fn scope_parse_of_blank_is_empty() {
    let bump = Bump::new();
    let scope = Scope::parse(" \t\n ", &bump);
    assert!(scope.is_empty());
    assert_eq!(scope.as_str(), "");
}

#[test]
fn scope_parse_with_postfix_appends_to_each_name() {
    let bump = Bump::new();
    let scope = Scope::parse_with_postfix(" string.quoted  punctuation ", "sbnf", &bump);
    assert_eq!(scope.as_str(), "string.quoted.sbnf punctuation.sbnf");
    let empty = Scope::parse_with_postfix("   ", "sbnf", &bump);
    assert!(empty.is_empty());
}

#[test]
fn scope_extended_joins_with_a_space() {
    let bump = Bump::new();
    let a = Scope::new("a.b");
    let b = Scope::new("c d");
    assert_eq!(a.extended(b, &bump).as_str(), "a.b c d");
    assert_eq!(b.extended(a, &bump).as_str(), "c d a.b");
}

#[test]
fn scope_extended_empty_is_identity() {
    let bump = Bump::new();
    let a = Scope::new("a.b");
    assert_eq!(a.extended(Scope::empty(), &bump), a);
    assert_eq!(Scope::empty().extended(a, &bump), a);
    assert!(Scope::empty().extended(Scope::empty(), &bump).is_empty());
}

#[test]
fn scope_extended_is_associative() {
    let bump = Bump::new();
    let a = Scope::new("a");
    let b = Scope::new("b.c");
    let c = Scope::new("d");
    let left = a.extended(b, &bump).extended(c, &bump);
    let right = a.extended(b.extended(c, &bump), &bump);
    assert_eq!(left.as_str(), "a b.c d");
    assert_eq!(left.as_str(), right.as_str());
}

#[test]
fn scope_empty_has_no_characters() {
    assert_eq!(Scope::empty().as_str(), "");
    assert!(Scope::empty().is_empty());
}

#[test]
fn pattern_from_str() {
    let p = Pattern::from("a|b");
    assert_eq!(p, Pattern("a|b"));
}
