use sbnf::sublime_syntax::{
    Context, ContextChange, ContextPattern, Embed, IncludeEmbed, Match, Pattern, Scope,
    ScopeClear, Syntax,
};

#[test]
fn serialize_empty_syntax() {
    let syntax = Syntax {
        name: "Empty Lang",
        file_extensions: &["tes", "test"],
        first_line_match: Some(Pattern::from(".*\\bfoo\\b")),
        scope: Scope::new("source.empty"),
        hidden: true,
        variables: &[],
        contexts: &[],
    };

    let mut buf = String::new();
    syntax.serialize(&mut buf).unwrap();
    assert_eq!(
        buf,
        "\
%YAML 1.2
---
# http://www.sublimetext.com/docs/syntax.html
version: 2
name: Empty Lang
file_extensions:
  - tes
  - test
first_line_match: '.*\\bfoo\\b'
scope: source.empty
hidden: true\n"
    );
}

#[test]
fn serialize_variables() {
    let syntax = Syntax {
        name: "Vars",
        file_extensions: &[],
        first_line_match: None,
        scope: Scope::new("source.vars text.vars"),
        hidden: false,
        variables: &[
            ("bar", Pattern::from("\\bbar\\b|\\bfoo\\b")),
            ("foo", Pattern::from("^foo\\b.*$")),
        ],
        contexts: &[],
    };

    let mut buf = String::new();
    syntax.serialize(&mut buf).unwrap();
    assert_eq!(
        buf,
        "\
%YAML 1.2
---
# http://www.sublimetext.com/docs/syntax.html
version: 2
name: Vars
scope: source.vars text.vars
variables:
  bar: '\\bbar\\b|\\bfoo\\b'
  foo: '^foo\\b.*$'\n"
    );
}

#[test]
fn serialize_contexts() {
    let captures1 = [Scope::empty(), Scope::new("b")];
    let captures2 = [Scope::empty(), Scope::empty(), Scope::new("c")];
    let with_prototype = vec![ContextPattern::Match(Match {
        pattern: Pattern::from("c"),
        scope: Scope::new("c"),
        captures: &[],
        change_context: ContextChange::NoChange,
        pop: 3,
    })];
    let matches = vec![
        ContextPattern::Match(Match {
            pattern: Pattern::from("(?=aa)"),
            scope: Scope::empty(),
            captures: &[],
            change_context: ContextChange::Embed(Embed {
                embed: "Prolog.sublime-syntax",
                embed_scope: Scope::empty(),
                escape: Some(Pattern::from("</(p)>")),
                escape_captures: &captures2,
            }),
            pop: 0,
        }),
        ContextPattern::Match(Match {
            pattern: Pattern::from("b"),
            scope: Scope::empty(),
            captures: &[],
            change_context: ContextChange::IncludeEmbed(IncludeEmbed {
                path: "D.sublime-syntax",
                use_push: true,
                with_prototype,
            }),
            pop: 0,
        }),
    ];

    let syntax = Syntax {
        name: "Ctx",
        file_extensions: &["ctx"],
        first_line_match: None,
        scope: Scope::new("source.ctx"),
        hidden: false,
        variables: &[],
        contexts: &[
            (
                "bar",
                Context {
                    meta_scope: Scope::empty(),
                    meta_content_scope: Scope::empty(),
                    meta_include_prototype: false,
                    clear_scopes: ScopeClear::Amount(0),
                    matches: vec![ContextPattern::Match(Match {
                        pattern: Pattern::from("//"),
                        scope: Scope::new("b"),
                        captures: &[],
                        change_context: ContextChange::SetEmbed(Context {
                            meta_scope: Scope::new("c"),
                            meta_content_scope: Scope::empty(),
                            meta_include_prototype: true,
                            clear_scopes: ScopeClear::Amount(2),
                            matches,
                            comment: Some("inner"),
                        }),
                        pop: 2,
                    })],
                    comment: Some("foo\nbar"),
                },
            ),
            (
                "foo",
                Context {
                    meta_scope: Scope::empty(),
                    meta_content_scope: Scope::new("a b"),
                    meta_include_prototype: true,
                    clear_scopes: ScopeClear::All,
                    matches: vec![
                        ContextPattern::Include("bar"),
                        ContextPattern::Include("baz"),
                        ContextPattern::Match(Match {
                            pattern: Pattern::from("\\ba(b)\\b"),
                            scope: Scope::empty(),
                            captures: &captures1,
                            change_context: ContextChange::NoChange,
                            pop: 0,
                        }),
                        ContextPattern::Match(Match {
                            pattern: Pattern::from("(?=\\()"),
                            scope: Scope::new("a b"),
                            captures: &[],
                            change_context: ContextChange::Push(&["foo"]),
                            pop: 0,
                        }),
                        ContextPattern::Match(Match {
                            pattern: Pattern::from("(?={)"),
                            scope: Scope::new("a.b"),
                            captures: &[],
                            change_context: ContextChange::Push(&["foo", "bar"]),
                            pop: 0,
                        }),
                        ContextPattern::Match(Match {
                            pattern: Pattern::from(""),
                            scope: Scope::empty(),
                            captures: &[],
                            change_context: ContextChange::NoChange,
                            pop: 1,
                        }),
                    ],
                    comment: None,
                },
            ),
        ],
    };

    let mut buf = String::new();
    syntax.serialize(&mut buf).unwrap();
    assert_eq!(
        buf,
        r"%YAML 1.2
---
# http://www.sublimetext.com/docs/syntax.html
version: 2
name: Ctx
file_extensions:
  - ctx
scope: source.ctx
contexts:
  # foo
  # bar
  bar:
    - meta_include_prototype: false
    - match: '//'
      scope: b
      set:
        - meta_scope: c
        - clear_scopes: 2
        - match: '(?=aa)'
          embed: Prolog.sublime-syntax
          escape: '</(p)>'
          escape_captures:
            2: c
        - match: 'b'
          push: D.sublime-syntax
          with_prototype:
            - match: 'c'
              scope: c
              pop: 3
      pop: 2
  foo:
    - meta_content_scope: a b
    - clear_scopes: true
    - include: bar
    - include: baz
    - match: '\ba(b)\b'
      captures:
        1: b
    - match: '(?=\()'
      scope: a b
      push: foo
    - match: '(?={)'
      scope: a.b
      push: [foo, bar]
    - match: ''
      pop: true
"
    );
}
