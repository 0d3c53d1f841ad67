use bumpalo::Bump;
use sbnf::codegen::{build_rule_key_name, NameState, RuleKey};

fn key<'a>(id: u64, name: &'a str, arguments: Option<&'a str>) -> RuleKey<'a> {
    RuleKey { id, name, arguments }
}

#[test]
fn rule_key_name_without_arguments() {
    assert_eq!(build_rule_key_name(&key(0, "main", None)), "main");
}

#[test]
fn rule_key_name_encodes_arguments_url_safe_without_padding() {
    assert_eq!(build_rule_key_name(&key(0, "r", Some("a b"))), "r@YSBi");
    assert_eq!(build_rule_key_name(&key(0, "r", Some("???"))), "r@Pz8_");
    assert_eq!(build_rule_key_name(&key(0, "r", Some("~~~"))), "r@fn5-");
    assert_eq!(build_rule_key_name(&key(0, "r", Some("ab"))), "r@YWI");
    assert_eq!(build_rule_key_name(&key(0, "r", Some("a"))), "r@YQ");
    assert_eq!(build_rule_key_name(&key(0, "r", Some("héllo"))), "r@aMOpbGxv");
    assert_eq!(build_rule_key_name(&key(0, "r", Some(""))), "r@");
}

#[test]
fn context_names_count_up_per_rule() {
    let bump = Bump::new();
    let mut names = NameState::new(&bump);
    let main = key(1, "main", None);
    let other = key(2, "other", Some("a b"));
    assert_eq!(names.create_uncached_context_name(&main, None), "main|0");
    assert_eq!(names.create_uncached_context_name(&main, None), "main|1");
    assert_eq!(names.create_uncached_context_name(&other, None), "other@YSBi|0");
    assert_eq!(names.create_uncached_context_name(&main, Some("main@1")), "main|2|main@1");
    assert_eq!(names.create_uncached_context_name(&other, Some("bp")), "other@YSBi|1|bp");
}

#[test]
fn context_names_never_repeat() {
    let bump = Bump::new();
    let mut names = NameState::new(&bump);
    let main = key(7, "main", None);
    let mut seen = Vec::new();
    for _ in 0..25 {
        let name = names.create_uncached_context_name(&main, None);
        assert!(!seen.contains(&name));
        seen.push(name);
    }
    assert_eq!(seen[10], "main|10");
}

#[test]
fn branch_point_names_start_at_one() {
    let bump = Bump::new();
    let mut names = NameState::new(&bump);
    let main = key(1, "main", Some("x"));
    // Branch point names use the rule's name alone.
    assert_eq!(names.create_branch_point_name(&main), "main@1");
    assert_eq!(names.create_branch_point_name(&main), "main@2");
    // The context counter is separate from the branch point counter.
    assert_eq!(names.create_uncached_context_name(&main, None), "main@eA|0");
    assert_eq!(names.create_branch_point_name(&key(3, "b", None)), "b@1");
}

#[test]
fn include_context_names() {
    let bump = Bump::new();
    let names = NameState::new(&bump);
    assert_eq!(names.create_branch_point_include_context_name("main@1"), "include!main@1");
}

#[test]
fn entry_context_names_count_up_per_rule() {
    let bump = Bump::new();
    let mut names = NameState::new(&bump);
    let main = key(1, "main", None);
    let other = key(2, "other", None);
    assert_eq!(names.create_entry_context_name(&main, "main|3"), "main|3|entry-0");
    assert_eq!(names.create_entry_context_name(&main, "x|0"), "x|0|entry-1");
    assert_eq!(names.create_entry_context_name(&other, "x|0"), "x|0|entry-0");
    // The other counters are separate.
    assert_eq!(names.create_uncached_context_name(&main, None), "main|0");
    assert_eq!(names.create_branch_point_name(&main), "main@1");
    assert_eq!(names.create_entry_context_name(&main, "x|0"), "x|0|entry-2");
}
