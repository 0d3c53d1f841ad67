use bumpalo::Bump;
use sbnf::codegen::scope_for_match_stack;
use sbnf::sublime_syntax::Scope;

#[test]
fn match_scope_extends_from_top_of_stack_down() {
    let bump = Bump::new();
    let stack = [Some(Scope::new("bottom")), None, Some(Scope::new("top")), Some(Scope::empty())];
    let scope = scope_for_match_stack(Some(Scope::new("rule")), &stack, Scope::new("term"), &bump);
    assert_eq!(scope.as_str(), "rule top bottom term");
}

#[test]
fn match_scope_without_rule_or_stack() {
    let bump = Bump::new();
    let scope = scope_for_match_stack(None, &[], Scope::new("a.b c"), &bump);
    assert_eq!(scope.as_str(), "a.b c");
    let empty = scope_for_match_stack(None, &[None, Some(Scope::empty())], Scope::empty(), &bump);
    assert!(empty.is_empty());
}

#[test]
fn match_scope_of_rule_alone() {
    let bump = Bump::new();
    let scope = scope_for_match_stack(Some(Scope::new("r")), &[None], Scope::empty(), &bump);
    assert_eq!(scope.as_str(), "r");
}

use sbnf::codegen::{
    entry_context, illegal_end_match, meta_content_scope_context, meta_context_name, BranchPoint,
    RuleKey,
};
use sbnf::sublime_syntax::{ContextChange, ContextPattern, Match, Pattern, ScopeClear};

#[test]
fn illegal_end_pops_on_empty_lookahead() {
    let m = illegal_end_match(true, false, None, Scope::new("invalid.illegal"));
    assert_eq!(
        m,
        Match {
            pattern: Pattern("(?=\\S)"),
            scope: Scope::empty(),
            captures: &[],
            change_context: ContextChange::NoChange,
            pop: 1,
        }
    );
}

#[test]
fn illegal_end_fails_branch_point() {
    let bp = BranchPoint { name: "main@1", can_fail: true };
    let m = illegal_end_match(false, false, Some(bp), Scope::new("invalid.illegal"));
    assert_eq!(m.pattern, Pattern("\\S"));
    assert!(m.scope.is_empty());
    assert_eq!(m.change_context, ContextChange::Fail("main@1"));
    assert_eq!(m.pop, 0);
    // With a capture, an empty lookahead does not pop either.
    let m = illegal_end_match(true, true, Some(bp), Scope::new("invalid.illegal"));
    assert_eq!(m.change_context, ContextChange::Fail("main@1"));
}

#[test]
fn illegal_end_marks_illegal_text() {
    let bp = BranchPoint { name: "main@1", can_fail: false };
    let m = illegal_end_match(false, false, Some(bp), Scope::new("invalid.illegal.x"));
    assert_eq!(m.pattern, Pattern("\\S"));
    assert_eq!(m.scope.as_str(), "invalid.illegal.x");
    assert_eq!(m.change_context, ContextChange::NoChange);
    assert_eq!(m.pop, 1);
    let m = illegal_end_match(true, true, None, Scope::new("invalid.illegal.x"));
    assert_eq!(m.pop, 0);
}

#[test]
fn meta_context_of_a_rule() {
    let key = RuleKey { id: 3, name: "expr", arguments: Some("a b") };
    assert_eq!(meta_context_name(&key), "expr@YSBi|meta");
    let ctx = meta_content_scope_context(Scope::new("meta.expr"), "Meta scope context for expr");
    assert_eq!(ctx.meta_content_scope.as_str(), "meta.expr");
    assert!(ctx.meta_scope.is_empty());
    assert!(ctx.meta_include_prototype);
    assert_eq!(ctx.clear_scopes, ScopeClear::Amount(0));
    assert_eq!(ctx.comment, Some("Meta scope context for expr"));
    assert_eq!(
        ctx.matches,
        vec![ContextPattern::Match(Match {
            pattern: Pattern(""),
            scope: Scope::empty(),
            captures: &[],
            change_context: ContextChange::NoChange,
            pop: 1,
        })]
    );
}

#[test]
fn entry_context_sets_the_stack() {
    let contexts = ["a|0", "b|meta", "c|1"];
    let ctx = entry_context(&contexts);
    assert!(ctx.meta_content_scope.is_empty());
    assert!(ctx.meta_scope.is_empty());
    assert_eq!(ctx.comment, None);
    assert_eq!(
        ctx.matches,
        vec![ContextPattern::Match(Match {
            pattern: Pattern(""),
            scope: Scope::empty(),
            captures: &[],
            change_context: ContextChange::SetContexts(&contexts),
            pop: 0,
        })]
    );
}

use sbnf::codegen::terminal_match;

#[test]
fn terminal_match_turns_push_of_same_context_into_fewer_pops() {
    let bump = Bump::new();
    let contexts = ["main|0", "other|1"];
    let m = terminal_match(
        "main|0",
        Scope::new("meta.main"),
        Scope::new("keyword"),
        "if",
        &[],
        ContextChange::Push(&contexts),
        1,
        &bump,
    );
    assert_eq!(m.pattern, Pattern("if"));
    assert_eq!(m.change_context, ContextChange::Push(&contexts[1..]));
    assert_eq!(m.pop, 0);
    assert_eq!(m.scope.as_str(), "keyword");
}

#[test]
fn terminal_match_drops_push_of_only_same_context() {
    let bump = Bump::new();
    let contexts = ["main|0"];
    let captures = [Scope::new("a"), Scope::new("b")];
    let m = terminal_match(
        "main|0",
        Scope::new("meta.main"),
        Scope::new("keyword"),
        "(a)(b)",
        &captures,
        ContextChange::Push(&contexts),
        2,
        &bump,
    );
    assert_eq!(m.change_context, ContextChange::NoChange);
    assert_eq!(m.pop, 1);
    // Only popping: the scope sits inside the meta content scope.
    assert_eq!(m.scope.as_str(), "meta.main keyword");
    assert_eq!(m.captures, &captures[..]);
}

#[test]
fn terminal_match_keeps_other_exits() {
    let bump = Bump::new();
    let contexts = ["x|0"];
    let m = terminal_match(
        "main|0",
        Scope::new("meta.main"),
        Scope::new("k"),
        "k",
        &[],
        ContextChange::Push(&contexts),
        1,
        &bump,
    );
    assert_eq!(m.change_context, ContextChange::Push(&contexts));
    assert_eq!(m.pop, 1);
    assert_eq!(m.scope.as_str(), "k");
    let m = terminal_match(
        "main|0",
        Scope::new("meta.main"),
        Scope::new("k"),
        "k",
        &[],
        ContextChange::NoChange,
        0,
        &bump,
    );
    assert_eq!(m.change_context, ContextChange::NoChange);
    assert_eq!(m.scope.as_str(), "k");
    let m = terminal_match(
        "main|0",
        Scope::new("meta.main"),
        Scope::empty(),
        "k",
        &[],
        ContextChange::NoChange,
        3,
        &bump,
    );
    assert_eq!(m.pop, 3);
    assert_eq!(m.scope.as_str(), "meta.main");
}
