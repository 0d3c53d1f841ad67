use sbnf::sublime_syntax::{
    Context, ContextChange, ContextPattern, Embed, IncludeEmbed, Match, Pattern, Scope,
    ScopeClear, Syntax,
};

const HEADER: &str = "%YAML 1.2\n---\n# http://www.sublimetext.com/docs/syntax.html\nversion: 2\n";

fn plain_context<'a>(matches: Vec<ContextPattern<'a>>) -> Context<'a> {
    Context {
        meta_scope: Scope::empty(),
        meta_content_scope: Scope::empty(),
        meta_include_prototype: true,
        clear_scopes: ScopeClear::Amount(0),
        matches,
        comment: None,
    }
}

fn simple_match<'a>(pattern: &'a str, change_context: ContextChange<'a>, pop: u16) -> ContextPattern<'a> {
    ContextPattern::Match(Match {
        pattern: Pattern::from(pattern),
        scope: Scope::empty(),
        captures: &[],
        change_context,
        pop,
    })
}

fn serialize(syntax: &Syntax) -> String {
    let mut buf = String::new();
    syntax.serialize(&mut buf).unwrap();
    buf
}

fn one_context<'a>(name: &'a str, context: Context<'a>, contexts: &'a mut Vec<(&'a str, Context<'a>)>) -> Syntax<'a> {
    contexts.push((name, context));
    let contexts: &'a Vec<(&'a str, Context<'a>)> = contexts;
    Syntax {
        name: "T",
        file_extensions: &[],
        first_line_match: None,
        scope: Scope::empty(),
        hidden: false,
        variables: &[],
        contexts: contexts.as_slice(),
    }
}

#[test]
fn serialize_appends_to_existing_output() {
    let syntax = Syntax {
        name: "A",
        file_extensions: &[],
        first_line_match: None,
        scope: Scope::empty(),
        hidden: false,
        variables: &[],
        contexts: &[],
    };
    let mut buf = String::from("previous\n");
    syntax.serialize(&mut buf).unwrap();
    assert_eq!(buf, format!("previous\n{}name: A\n", HEADER));
}

#[test]
fn serialize_multiline_pattern_as_block() {
    let syntax = Syntax {
        name: "M",
        file_extensions: &[],
        first_line_match: Some(Pattern::from("a\n\nb")),
        scope: Scope::empty(),
        hidden: false,
        variables: &[("v", Pattern::from("x\ny"))],
        contexts: &[],
    };
    assert_eq!(
        serialize(&syntax),
        format!("{}name: M\nfirst_line_match: |-\n    a\n    \n    b\nvariables:\n  v: |-\n    x\n    y\n", HEADER)
    );
}

#[test]
fn serialize_escapes_backslash_quote() {
    let syntax = Syntax {
        name: "Q",
        file_extensions: &[],
        first_line_match: Some(Pattern::from("a\\'b\\\\'c'd")),
        scope: Scope::empty(),
        hidden: false,
        variables: &[],
        contexts: &[],
    };
    assert_eq!(
        serialize(&syntax),
        format!("{}name: Q\nfirst_line_match: 'a''b\\''c'd'\n", HEADER)
    );
}

#[test]
fn serialize_comment_lines() {
    let mut context = plain_context(vec![]);
    context.comment = Some("one\r\ntwo\r\n\nthree\r");
    let mut contexts = Vec::new();
    let syntax = one_context("main", context, &mut contexts);
    assert_eq!(
        serialize(&syntax),
        format!("{}name: T\ncontexts:\n  # one\n  # two\n  # \n  # three\r\n  main:\n", HEADER)
    );
}

#[test]
fn serialize_comment_with_final_newline() {
    let mut context = plain_context(vec![]);
    context.comment = Some("only\n");
    let mut contexts = Vec::new();
    let syntax = one_context("main", context, &mut contexts);
    assert_eq!(
        serialize(&syntax),
        format!("{}name: T\ncontexts:\n  # only\n  main:\n", HEADER)
    );
}

#[test]
fn serialize_negative_clear_scopes() {
    let mut context = plain_context(vec![]);
    context.clear_scopes = ScopeClear::Amount(-12);
    context.meta_include_prototype = false;
    context.meta_scope = Scope::new("m");
    let mut contexts = Vec::new();
    let syntax = one_context("main", context, &mut contexts);
    assert_eq!(
        serialize(&syntax),
        format!(
            "{}name: T\ncontexts:\n  main:\n    - meta_scope: m\n    - meta_include_prototype: false\n    - clear_scopes: -12\n",
            HEADER
        )
    );
}

#[test]
fn serialize_minimum_clear_scopes() {
    let mut context = plain_context(vec![]);
    context.clear_scopes = ScopeClear::Amount(i32::MIN);
    let mut contexts = Vec::new();
    let syntax = one_context("main", context, &mut contexts);
    assert_eq!(
        serialize(&syntax),
        format!("{}name: T\ncontexts:\n  main:\n    - clear_scopes: -2147483648\n", HEADER)
    );
}

#[test]
fn serialize_context_changes() {
    let matches = vec![
        simple_match("a", ContextChange::PushOne("x"), 0),
        simple_match("b", ContextChange::SetContexts(&["x", "y", "z"]), 0),
        simple_match("c", ContextChange::SetContexts(&["x"]), 10),
        simple_match("d", ContextChange::Branch("bp", &["p", "q"]), 0),
        simple_match("e", ContextChange::Fail("bp"), 65535),
        simple_match("f", ContextChange::PushEmbed(plain_context(vec![simple_match("g", ContextChange::NoChange, 1)])), 1),
        simple_match(
            "h",
            ContextChange::IncludeEmbed(IncludeEmbed { path: "X.sublime-syntax", use_push: false, with_prototype: vec![] }),
            0,
        ),
        simple_match(
            "i",
            ContextChange::Embed(Embed {
                embed: "scope:source.x",
                embed_scope: Scope::new("meta.x"),
                escape: None,
                escape_captures: &[],
            }),
            0,
        ),
    ];
    let mut contexts = Vec::new();
    let syntax = one_context("main", plain_context(matches), &mut contexts);
    assert_eq!(
        serialize(&syntax),
        format!(
            "{}name: T\ncontexts:\n  main:\n{}",
            HEADER,
            [
                "    - match: 'a'\n      push: x\n",
                "    - match: 'b'\n      set: [x, y, z]\n",
                "    - match: 'c'\n      set: x\n      pop: 10\n",
                "    - match: 'd'\n      branch_point: bp\n      branch:\n        - p\n        - q\n",
                "    - match: 'e'\n      fail: bp\n      pop: 65535\n",
                "    - match: 'f'\n      push:\n        - match: 'g'\n          pop: true\n      pop: true\n",
                "    - match: 'h'\n      set: X.sublime-syntax\n",
                "    - match: 'i'\n      embed: scope:source.x\n      embed_scope: meta.x\n",
            ]
            .join(""),
        )
    );
}

#[test]
fn serialize_captures_skip_empty_scopes() {
    let captures = [Scope::empty(), Scope::new("a"), Scope::empty(), Scope::empty(), Scope::empty(),
        Scope::empty(), Scope::empty(), Scope::empty(), Scope::empty(), Scope::empty(), Scope::new("k")];
    let matches = vec![ContextPattern::Match(Match {
        pattern: Pattern::from("(a)"),
        scope: Scope::new("s"),
        captures: &captures,
        change_context: ContextChange::NoChange,
        pop: 2,
    })];
    let mut contexts = Vec::new();
    let syntax = one_context("main", plain_context(matches), &mut contexts);
    assert_eq!(
        serialize(&syntax),
        format!(
            "{}name: T\ncontexts:\n  main:\n    - match: '(a)'\n      scope: s\n      captures:\n        1: a\n        10: k\n      pop: 2\n",
            HEADER
        )
    );
}

#[test]
fn serialize_captures_all_empty_still_writes_key() {
    let captures = [Scope::empty()];
    let matches = vec![ContextPattern::Match(Match {
        pattern: Pattern::from("x"),
        scope: Scope::empty(),
        captures: &captures,
        change_context: ContextChange::NoChange,
        pop: 0,
    })];
    let mut contexts = Vec::new();
    let syntax = one_context("main", plain_context(matches), &mut contexts);
    assert_eq!(
        serialize(&syntax),
        format!("{}name: T\ncontexts:\n  main:\n    - match: 'x'\n      captures:\n", HEADER)
    );
}

#[test]
fn serialize_nested_multiline_pattern() {
    let matches = vec![simple_match("a\nb", ContextChange::NoChange, 0)];
    let mut contexts = Vec::new();
    let syntax = one_context("main", plain_context(matches), &mut contexts);
    assert_eq!(
        serialize(&syntax),
        format!("{}name: T\ncontexts:\n  main:\n    - match: |-\n        a\n        b\n", HEADER)
    );
}
