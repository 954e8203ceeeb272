//! Attribute globs, field selectors and the pattern lint.

use archiv_agent::glob;
use archiv_agent::lint::check_nested_repetition;
use archiv_agent::redact::FieldSelector;

#[test]
fn glob_glob_semantics() {
    assert!(glob::matches(b"*", b"anything"));
    assert!(glob::matches(b"*", b""));
    assert!(glob::matches(b"user.*", b"user.email"));
    assert!(glob::matches(b"user.*", b"user."));
    assert!(!glob::matches(b"user.*", b"username")); // '.' is literal
    assert!(glob::matches(b"*.email", b"user.email"));
    assert!(glob::matches(b"u*r.*l", b"user.email")); // backtracks over several stars
    assert!(glob::matches(b"exact", b"exact"));
    assert!(!glob::matches(b"exact", b"exact-no"));
    assert!(!glob::matches(b"", b"x"));
    assert!(glob::matches(b"", b""));
}

#[test]
fn star_takes_any_run_even_one_with_a_star_in_it() {
    assert!(glob::matches(b"*", b"*a"));
    assert!(glob::matches(b"a*c", b"a*bc"));
    assert!(glob::matches(b"a**c", b"ac"));
    assert!(!glob::matches(b"a*c", b"ab"));
}

#[test]
fn field_selector_parsing() {
    assert_eq!(FieldSelector::parse("body"), Some(FieldSelector::Body));
    assert_eq!(
        FieldSelector::parse("attributes.*"),
        Some(FieldSelector::Attrs("*".to_string()))
    );
    assert_eq!(
        FieldSelector::parse("attributes.user.email"),
        Some(FieldSelector::Attrs("user.email".to_string()))
    );
    assert_eq!(FieldSelector::parse("attributes."), None);
    assert_eq!(FieldSelector::parse("bodies"), None);
}

#[test]
fn rejects_nested_unbounded() {
    for p in [
        r"(a+)+",
        r"([a-z]*)*",
        r"(a+)*",
        r"(?:\d+){3,}",
        r"((ab)+c)*",
        r"(x{2,})+",
    ] {
        assert!(
            check_nested_repetition(p).is_err(),
            "{p} should be rejected"
        );
    }
}

#[test]
fn accepts_safe_patterns() {
    for p in [
        r"[A-Za-z0-9._%+-]+@[A-Za-z0-9.-]+\.[A-Za-z]{2,}", // an e-mail address
        r"(a+)b+",                                         // next to each other, not nested
        r"(a+){3}",                                        // bounded outside
        r"(a{2,4})+",                                      // bounded inside
        r"(abc)+",                                         // nothing unbounded inside
        r"\(a+\)+",                                        // escaped parentheses
        r"[(+*]+",                                         // a class
        r"a{3}\{4,\}",                                     // escaped braces
    ] {
        assert!(check_nested_repetition(p).is_ok(), "{p} should be accepted");
    }
}

#[test]
fn braces_that_are_no_quantifier_are_literals() {
    for p in [r"(a+){,}", r"(a+){1,2,}", r"(a+){x}", r"(a+){"] {
        assert!(check_nested_repetition(p).is_ok(), "{p} should be accepted");
    }
}

#[test]
fn a_group_around_a_pattern_changes_nothing() {
    for p in [r"a+", r"(a+)+", r"(abc)+", r"x{2,}y", r"[(+*]+"] {
        let grouped = format!("({p})");
        let plain = format!("(?:{p})");
        let bounded = format!("({p}){{3}}");
        let verdict = check_nested_repetition(p).is_ok();
        assert_eq!(check_nested_repetition(&grouped).is_ok(), verdict, "{grouped}");
        assert_eq!(check_nested_repetition(&plain).is_ok(), verdict, "{plain}");
        assert_eq!(check_nested_repetition(&bounded).is_ok(), verdict, "{bounded}");
    }
}

#[test]
fn a_repeated_group_holds_no_repetition() {
    for (p, ok) in [(r"a+", false), (r"abc", true), (r"x{2,}y", false), (r"x{2}", true)] {
        let repeated = format!("({p})+");
        assert_eq!(check_nested_repetition(&repeated).is_ok(), ok, "{repeated}");
    }
}
