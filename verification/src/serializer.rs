//! Writing a [`Syntax`] as a sublime-syntax (YAML) document.
//!
//! The first half of this file states, as spec functions, the exact text that
//! each part of a syntax becomes; the second half writes it.
use vstd::prelude::*;

use crate::sublime_syntax::{
    Context, ContextChange, ContextPattern, Embed, Match, Pattern, Scope, ScopeClear,
    Syntax,
};
use crate::text::{
    chars_of, concat, contains_char, decimal, escape_quotes, indentation, lemma_concat_append,
    lemma_concat_push, lemma_indentation_no_newline, lemma_no_sep_concat, lemma_signed_decimal_reads,
    lemma_split_lines, lemma_split_nonempty, lemma_split_pieces, lemma_split_plain, reads_as,
    push_char, push_char_prefix, push_chars, push_decimal,
    push_escaped_quotes, push_indentation, push_signed_decimal, signed_decimal, split_chars,
    split_on, strip_cr, text_lines, views,
};

verus! {

// ---------------------------------------------------------------------------
// The document, as text
// ---------------------------------------------------------------------------

/// One line at indentation `k`.
pub open spec fn line(k: nat, content: Seq<char>) -> Seq<char> {
    indentation(k) + content + seq!['\n']
}

/// A line `key value` when `value` is non-empty, nothing otherwise.
pub open spec fn attr_line(k: nat, key: Seq<char>, value: Seq<char>) -> Seq<char> {
    if value.len() > 0 {
        line(k, key + value)
    } else {
        seq![]
    }
}

/// A pattern written after a key on the current line: a block scalar with one
/// line per line of the pattern, two levels deeper than `k`, when it spans
/// several lines; otherwise a single-quoted scalar.
pub open spec fn pattern_text(p: Seq<char>, k: nat) -> Seq<char> {
    if p.contains('\n') {
        "|-"@ + seq!['\n'] + concat(split_on(p, '\n').map_values(|l: Seq<char>| line(k + 2, l)))
    } else {
        seq!['\''] + escape_quotes(p) + seq!['\'', '\n']
    }
}

/// The comment lines written above a context.
pub open spec fn comment_text(k: nat, comment: Option<&str>) -> Seq<char> {
    match comment {
        Some(t) => concat(text_lines(t@).map_values(|l: Seq<char>| line(k, "# "@ + l))),
        None => seq![],
    }
}

/// The capture lines: one per non-empty scope, keyed by its index.
pub open spec fn capture_lines(j: nat, caps: Seq<Scope>) -> Seq<Seq<char>> {
    Seq::new(
        caps.len(),
        |i: int|
            if caps[i]@.len() > 0 {
                line(j, "  "@ + decimal(i as nat) + ": "@ + caps[i]@)
            } else {
                seq![]
            },
    )
}

/// A captures block under `name`, or nothing when there are no captures.
pub open spec fn captures_text(j: nat, name: Seq<char>, caps: Seq<Scope>) -> Seq<char> {
    if caps.len() == 0 {
        seq![]
    } else {
        line(j, name + ":"@) + concat(capture_lines(j, caps))
    }
}

/// A list of context names, ended by a line feed: the name alone when there is
/// one, otherwise a bracketed, comma-separated list.
pub open spec fn list_text(l: Seq<&str>) -> Seq<char> {
    if l.len() == 1 {
        l[0]@ + seq!['\n']
    } else {
        seq!['['] + l[0]@ + concat(l.skip(1).map_values(|c: &str| ", "@ + c@)) + seq![']', '\n']
    }
}

/// The `pop` line of a match.
pub open spec fn pop_text(j: nat, pop: u16) -> Seq<char> {
    if pop == 1 {
        line(j, "pop: true"@)
    } else if pop > 0 {
        line(j, "pop: "@ + decimal(pop as nat))
    } else {
        seq![]
    }
}

/// The `clear_scopes` line of a context.
pub open spec fn clear_text(k: nat, clear: ScopeClear) -> Seq<char> {
    match clear {
        ScopeClear::All => line(k, "- clear_scopes: true"@),
        ScopeClear::Amount(a) => if a == 0 {
            seq![]
        } else {
            line(k, "- clear_scopes: "@ + signed_decimal(a as int))
        },
    }
}

/// A context's body at indentation `k`.
pub open spec fn context_text(c: Context, k: nat) -> Seq<char>
    decreases c,
{
    attr_line(k, "- meta_scope: "@, c.meta_scope@) + attr_line(
        k,
        "- meta_content_scope: "@,
        c.meta_content_scope@,
    ) + (if !c.meta_include_prototype {
        line(k, "- meta_include_prototype: false"@)
    } else {
        seq![]
    }) + clear_text(k, c.clear_scopes) + patterns_text(c.matches@, k)
}

/// A list of patterns at indentation `k`.
pub open spec fn patterns_text(ps: Seq<ContextPattern>, k: nat) -> Seq<char>
    decreases ps,
{
    if ps.len() == 0 {
        seq![]
    } else {
        patterns_text(ps.drop_last(), k) + context_pattern_text(ps.last(), k)
    }
}

/// One pattern at indentation `k`.
pub open spec fn context_pattern_text(p: ContextPattern, k: nat) -> Seq<char>
    decreases p,
{
    match p {
        ContextPattern::Match(m) => match_text(m, k),
        ContextPattern::Include(name) => line(k, "- include: "@ + name@),
    }
}

/// A match at indentation `k`; its keys stand one level deeper.
pub open spec fn match_text(m: Match, k: nat) -> Seq<char>
    decreases m,
{
    indentation(k) + "- match: "@ + pattern_text(m.pattern@, k) + attr_line(
        k + 1,
        "scope: "@,
        m.scope@,
    ) + captures_text(k + 1, "captures"@, m.captures@) + change_text(m.change_context, k + 1)
        + pop_text(k + 1, m.pop)
}

/// The keys that describe a change of context, at indentation `j`.
pub open spec fn change_text(change: ContextChange, j: nat) -> Seq<char>
    decreases change,
{
    match change {
        ContextChange::NoChange => seq![],
        ContextChange::Push(l) => indentation(j) + "push: "@ + list_text(l@),
        ContextChange::PushOne(name) => indentation(j) + "push: "@ + name@ + seq!['\n'],
        ContextChange::SetContexts(l) => indentation(j) + "set: "@ + list_text(l@),
        ContextChange::PushEmbed(c) => line(j, "push:"@) + context_text(c, j + 1),
        ContextChange::SetEmbed(c) => line(j, "set:"@) + context_text(c, j + 1),
        ContextChange::Embed(e) => embed_text(e, j),
        ContextChange::IncludeEmbed(e) => (if e.use_push {
            line(j, "push: "@ + e.path@)
        } else {
            line(j, "set: "@ + e.path@)
        }) + (if e.with_prototype@.len() > 0 {
            line(j, "with_prototype:"@) + patterns_text(e.with_prototype@, j + 1)
        } else {
            seq![]
        }),
        ContextChange::Branch(point, branches) => line(j, "branch_point: "@ + point@) + line(
            j,
            "branch:"@,
        ) + concat(branches@.map_values(|b: &str| line(j, "  - "@ + b@))),
        ContextChange::Fail(point) => line(j, "fail: "@ + point@),
    }
}

/// The keys of an embed, at indentation `j`.
pub open spec fn embed_text(e: Embed, j: nat) -> Seq<char> {
    line(j, "embed: "@ + e.embed@) + attr_line(j, "embed_scope: "@, e.embed_scope@) + (match e.escape {
        Some(p) => indentation(j) + "escape: "@ + pattern_text(p@, j),
        None => seq![],
    }) + captures_text(j, "escape_captures"@, e.escape_captures@)
}

/// One named context of the `contexts` section: its comment and name one
/// level in, its body two levels in.
pub open spec fn named_context_text(name: &str, c: Context) -> Seq<char> {
    comment_text(1, c.comment) + line(1, name@ + ":"@) + context_text(c, 2)
}

/// The whole document.
pub open spec fn syntax_text(s: Syntax) -> Seq<char> {
    line(0, "%YAML 1.2"@) + line(0, "---"@) + line(0, "# http://www.sublimetext.com/docs/syntax.html"@)
        + line(0, "version: 2"@) + line(0, "name: "@ + s.name@) + (if s.file_extensions@.len() > 0 {
        line(0, "file_extensions:"@) + concat(
            s.file_extensions@.map_values(|e: &str| line(0, "  - "@ + e@)),
        )
    } else {
        seq![]
    }) + (match s.first_line_match {
        Some(p) => "first_line_match: "@ + pattern_text(p@, 0),
        None => seq![],
    }) + attr_line(0, "scope: "@, s.scope@) + (if s.hidden {
        line(0, "hidden: true"@)
    } else {
        seq![]
    }) + (if s.variables@.len() > 0 {
        line(0, "variables:"@) + concat(
            s.variables@.map_values(
                |v: (&str, Pattern)| "  "@ + v.0@ + ": "@ + pattern_text(v.1@, 0),
            ),
        )
    } else {
        seq![]
    }) + (if s.contexts@.len() > 0 {
        line(0, "contexts:"@) + concat(
            s.contexts@.map_values(|nc: (&str, Context)| named_context_text(nc.0, nc.1)),
        )
    } else {
        seq![]
    })
}

// ---------------------------------------------------------------------------
// Laws of the document text
// ---------------------------------------------------------------------------

/// A branch lists every alternative, in order, one per line: split at line
/// feeds, the keys of a branch are the `branch_point` line, the `branch:`
/// line, then one `  - name` line for each alternative, and nothing else.
pub proof fn lemma_branch_lists_every_alternative(point: &str, branches: &[&str], j: nat)
    requires
        !point@.contains('\n'),
        forall|i: int| 0 <= i < branches@.len() ==> !(#[trigger] branches@[i])@.contains('\n'),
    ensures
        split_on(change_text(ContextChange::Branch(point, branches), j), '\n').len()
            == branches@.len() + 3,
        split_on(change_text(ContextChange::Branch(point, branches), j), '\n')[0] == indentation(j)
            + "branch_point: "@ + point@,
        split_on(change_text(ContextChange::Branch(point, branches), j), '\n')[1] == indentation(j)
            + "branch:"@,
        forall|i: int|
            0 <= i < branches@.len() ==> #[trigger] split_on(
                change_text(ContextChange::Branch(point, branches), j),
                '\n',
            )[i + 2] == indentation(j) + "  - "@ + branches@[i]@,
        split_on(change_text(ContextChange::Branch(point, branches), j), '\n').last().len() == 0,
{
    reveal_strlit("branch_point: ");
    reveal_strlit("branch:");
    reveal_strlit("  - ");
    let ind = indentation(j);
    lemma_indentation_no_newline(j);
    let x0 = ind + "branch_point: "@ + point@;
    let x1 = ind + "branch:"@;
    let rest = branches@.map_values(|b: &str| ind + "  - "@ + b@);
    let ls = seq![x0, x1] + rest;
    assert(!"branch_point: "@.contains('\n'));
    assert(!"branch:"@.contains('\n'));
    assert(!"  - "@.contains('\n'));
    lemma_no_sep_concat(ind, "branch_point: "@, '\n');
    lemma_no_sep_concat(ind + "branch_point: "@, point@, '\n');
    lemma_no_sep_concat(ind, "branch:"@, '\n');
    lemma_no_sep_concat(ind, "  - "@, '\n');
    assert forall|i: int| 0 <= i < ls.len() implies !(#[trigger] ls[i]).contains('\n') by {
        if i >= 2 {
            assert(ls[i] == ind + "  - "@ + branches@[i - 2]@);
            lemma_no_sep_concat(ind + "  - "@, branches@[i - 2]@, '\n');
        }
    }
    lemma_split_lines(ls, '\n');
    let ms = ls.map_values(|l: Seq<char>| l.push('\n'));
    let head = seq![x0.push('\n'), x1.push('\n')];
    let tail = rest.map_values(|l: Seq<char>| l.push('\n'));
    assert(ms =~= head + tail);
    lemma_concat_append(head, tail);
    let one = seq![x0.push('\n')];
    assert(head.drop_last() =~= one);
    assert(one.drop_last() =~= Seq::<Seq<char>>::empty());
    assert(concat(one) == concat(one.drop_last()) + one.last());
    assert(concat(one) =~= x0.push('\n'));
    assert(concat(head) == concat(head.drop_last()) + head.last());
    assert(concat(head) =~= x0.push('\n') + x1.push('\n'));
    let lines = branches@.map_values(|b: &str| line(j, "  - "@ + b@));
    assert forall|i: int| 0 <= i < tail.len() implies tail[i] == lines[i] by {
        assert((ind + "  - "@ + branches@[i]@).push('\n') =~= line(j, "  - "@ + branches@[i]@));
    }
    assert(tail =~= lines);
    assert(change_text(ContextChange::Branch(point, branches), j) =~= concat(ms));
    assert forall|i: int| 0 <= i < branches@.len() implies #[trigger] split_on(
        change_text(ContextChange::Branch(point, branches), j),
        '\n',
    )[i + 2] == indentation(j) + "  - "@ + branches@[i]@ by {
        assert(ls.push(seq![])[i + 2] == rest[i]);
    }
}

/// The `clear_scopes` line: `true` only for clearing every scope, nothing for
/// clearing none, and otherwise a decimal numeral that reads as the amount.
pub proof fn lemma_clear_scopes_line(k: nat, clear: ScopeClear)
    ensures
        match clear {
            ScopeClear::All => clear_text(k, clear) == indentation(k) + "- clear_scopes: true"@
                + seq!['\n'],
            ScopeClear::Amount(a) => if a == 0 {
                clear_text(k, clear).len() == 0
            } else {
                exists|t: Seq<char>|
                    reads_as(t, a as int) && clear_text(k, clear) == indentation(k)
                        + "- clear_scopes: "@ + t + seq!['\n']
            },
        },
{
    if let ScopeClear::Amount(a) = clear {
        if a != 0 {
            let t = signed_decimal(a as int);
            lemma_signed_decimal_reads(a as int);
            assert(clear_text(k, clear) == indentation(k) + "- clear_scopes: "@ + t + seq!['\n']);
        }
    }
}

/// A context that only clears `a != 0` parent scopes is written as the one
/// `clear_scopes` line whose numeral reads as `a`.
pub proof fn lemma_context_clearing_only(c: Context, k: nat, a: i32)
    requires
        c.meta_scope@.len() == 0,
        c.meta_content_scope@.len() == 0,
        c.meta_include_prototype,
        c.clear_scopes == ScopeClear::Amount(a),
        a != 0,
        c.matches@.len() == 0,
    ensures
        exists|t: Seq<char>|
            reads_as(t, a as int) && context_text(c, k) == indentation(k) + "- clear_scopes: "@ + t
                + seq!['\n'],
{
    lemma_clear_scopes_line(k, c.clear_scopes);
    assert(context_text(c, k) =~= clear_text(k, c.clear_scopes));
}

/// A comment without a line feed is written as exactly one `# ` line.
pub proof fn lemma_comment_single_line(k: nat, comment: &str)
    requires
        comment@.len() > 0,
        !comment@.contains('\n'),
    ensures
        comment_text(k, Some(comment)) == indentation(k) + "# "@ + comment@ + seq!['\n'],
{
    let t = comment@;
    lemma_split_plain(Seq::<char>::empty(), t, '\n');
    assert(Seq::<char>::empty() + t =~= t);
    assert(split_on(Seq::<char>::empty(), '\n') =~= seq![Seq::<char>::empty()]);
    assert(split_on(t, '\n') =~= seq![t]);
    assert(text_lines(t) =~= seq![t]);
    let ls = text_lines(t).map_values(|l: Seq<char>| line(k, "# "@ + l));
    assert(ls =~= seq![line(k, "# "@ + t)]);
    assert(ls.drop_last() =~= Seq::<Seq<char>>::empty());
    assert(concat(ls) == concat(ls.drop_last()) + ls.last());
    assert(line(k, "# "@ + t) =~= indentation(k) + "# "@ + t + seq!['\n']);
    assert(concat(ls) =~= indentation(k) + "# "@ + t + seq!['\n']);
}

/// A comment is written as one `# ` line per line of the comment, in order,
/// the lines taken as `str::lines` yields them: split at line feeds, the
/// comment text is those lines and nothing else.
pub proof fn lemma_comment_lines(k: nat, comment: &str)
    ensures
        split_on(comment_text(k, Some(comment)), '\n') == text_lines(comment@).map_values(
            |l: Seq<char>| indentation(k) + "# "@ + l,
        ).push(seq![]),
{
    reveal_strlit("# ");
    let t = comment@;
    let tl = text_lines(t);
    let ind = indentation(k);
    let p = split_on(t, '\n');
    lemma_split_pieces(t, '\n');
    lemma_split_nonempty(t, '\n');
    lemma_indentation_no_newline(k);
    assert(!"# "@.contains('\n'));
    lemma_no_sep_concat(ind, "# "@, '\n');
    assert forall|i: int| 0 <= i < tl.len() implies !(#[trigger] tl[i]).contains('\n') by {
        let body = p.drop_last().map_values(|l: Seq<char>| strip_cr(l));
        if i < body.len() {
            let l = p[i];
            assert(!l.contains('\n'));
            assert(tl[i] == strip_cr(l));
            if strip_cr(l).contains('\n') {
                let m = choose|m: int| 0 <= m < strip_cr(l).len() && strip_cr(l)[m] == '\n';
                assert(l[m] == '\n');
            }
        } else {
            assert(tl[i] == p.last());
            assert(!p[p.len() - 1].contains('\n'));
        }
    }
    let m = tl.map_values(|l: Seq<char>| ind + "# "@ + l);
    assert forall|i: int| 0 <= i < m.len() implies !(#[trigger] m[i]).contains('\n') by {
        lemma_no_sep_concat(ind + "# "@, tl[i], '\n');
    }
    lemma_split_lines(m, '\n');
    let a = m.map_values(|l: Seq<char>| l.push('\n'));
    let b = tl.map_values(|l: Seq<char>| line(k, "# "@ + l));
    assert forall|i: int| 0 <= i < a.len() implies a[i] == b[i] by {
        assert((ind + "# "@ + tl[i]).push('\n') =~= line(k, "# "@ + tl[i]));
    }
    assert(a =~= b);
}

// ---------------------------------------------------------------------------
// When the serializer can write a value
// ---------------------------------------------------------------------------

/// Writing a pattern at indentation `k` keeps the indentation counter within
/// `u16` (a block scalar goes two levels deeper).
pub open spec fn pattern_fits(p: Seq<char>, k: nat) -> bool {
    p.contains('\n') ==> k + 2 <= u16::MAX
}

/// A context can be written at indentation `k`: every list of context names
/// it pushes or sets is non-empty, every branch has more than one
/// alternative, and the indentation never exceeds `u16::MAX`.
pub open spec fn context_fits(c: Context, k: nat) -> bool
    decreases c,
{
    patterns_fit(c.matches@, k)
}

pub open spec fn patterns_fit(ps: Seq<ContextPattern>, k: nat) -> bool
    decreases ps,
{
    ps.len() == 0 || (patterns_fit(ps.drop_last(), k) && context_pattern_fits(ps.last(), k))
}

pub open spec fn context_pattern_fits(p: ContextPattern, k: nat) -> bool
    decreases p,
{
    match p {
        ContextPattern::Match(m) => match_fits(m, k),
        ContextPattern::Include(_) => true,
    }
}

pub open spec fn match_fits(m: Match, k: nat) -> bool
    decreases m,
{
    k + 1 <= u16::MAX && pattern_fits(m.pattern@, k) && change_fits(m.change_context, k + 1)
}

pub open spec fn change_fits(change: ContextChange, j: nat) -> bool
    decreases change,
{
    match change {
        ContextChange::Push(l) => l@.len() >= 1,
        ContextChange::SetContexts(l) => l@.len() >= 1,
        ContextChange::PushEmbed(c) => j + 1 <= u16::MAX && context_fits(c, j + 1),
        ContextChange::SetEmbed(c) => j + 1 <= u16::MAX && context_fits(c, j + 1),
        ContextChange::Embed(e) => match e.escape {
            Some(p) => pattern_fits(p@, j),
            None => true,
        },
        ContextChange::IncludeEmbed(e) => e.with_prototype@.len() > 0 ==> (j + 1 <= u16::MAX
            && patterns_fit(e.with_prototype@, j + 1)),
        ContextChange::Branch(_, branches) => branches@.len() > 1,
        _ => true,
    }
}

/// A syntax can be written: each of its contexts can, two levels in.
pub open spec fn syntax_fits(s: Syntax) -> bool {
    forall|i: int| 0 <= i < s.contexts@.len() ==> context_fits(#[trigger] s.contexts@[i].1, 2)
}

// ---------------------------------------------------------------------------
// The document is made of whole lines
// ---------------------------------------------------------------------------

/// `t` is empty or ends with a line feed.
pub open spec fn whole_lines(t: Seq<char>) -> bool {
    t.len() == 0 || t.last() == '\n'
}

proof fn lemma_whole_lines_append(a: Seq<char>, b: Seq<char>)
    requires
        whole_lines(a),
        whole_lines(b),
    ensures
        whole_lines(a + b),
{
    if b.len() == 0 {
        assert(a + b =~= a);
    } else {
        assert((a + b).last() == b.last());
    }
}

/// Any text followed by a non-empty text of whole lines is whole lines.
proof fn lemma_ends_with_line(a: Seq<char>, b: Seq<char>)
    requires
        whole_lines(b),
        b.len() > 0,
    ensures
        whole_lines(a + b),
        (a + b).len() > 0,
{
    assert((a + b).last() == b.last());
}

proof fn lemma_line_whole(k: nat, content: Seq<char>)
    ensures
        whole_lines(line(k, content)),
        line(k, content).len() > 0,
{
}

proof fn lemma_concat_whole(ts: Seq<Seq<char>>)
    requires
        forall|i: int| 0 <= i < ts.len() ==> whole_lines(#[trigger] ts[i]),
    ensures
        whole_lines(concat(ts)),
    decreases ts.len(),
{
    if ts.len() > 0 {
        lemma_concat_whole(ts.drop_last());
        lemma_whole_lines_append(concat(ts.drop_last()), ts.last());
    }
}

proof fn lemma_pattern_whole(p: Seq<char>, k: nat)
    ensures
        whole_lines(pattern_text(p, k)),
        pattern_text(p, k).len() > 0,
{
    if p.contains('\n') {
        let ls = split_on(p, '\n').map_values(|l: Seq<char>| line(k + 2, l));
        assert forall|i: int| 0 <= i < ls.len() implies whole_lines(#[trigger] ls[i]) by {
            lemma_line_whole(k + 2, split_on(p, '\n')[i]);
        }
        lemma_concat_whole(ls);
        lemma_whole_lines_append("|-"@ + seq!['\n'], concat(ls));
    }
}

proof fn lemma_captures_whole(j: nat, name: Seq<char>, caps: Seq<Scope>)
    ensures
        whole_lines(captures_text(j, name, caps)),
{
    if caps.len() > 0 {
        let ls = capture_lines(j, caps);
        assert forall|i: int| 0 <= i < ls.len() implies whole_lines(#[trigger] ls[i]) by {}
        lemma_concat_whole(ls);
        lemma_whole_lines_append(line(j, name + ":"@), concat(ls));
    }
}

proof fn lemma_list_whole(l: Seq<&str>)
    ensures
        whole_lines(list_text(l)),
        list_text(l).len() > 0,
{
}

proof fn lemma_context_whole(c: Context, k: nat)
    ensures
        whole_lines(context_text(c, k)),
    decreases c,
{
    let a = attr_line(k, "- meta_scope: "@, c.meta_scope@);
    let b = attr_line(k, "- meta_content_scope: "@, c.meta_content_scope@);
    let m = if !c.meta_include_prototype {
        line(k, "- meta_include_prototype: false"@)
    } else {
        seq![]
    };
    let cl = clear_text(k, c.clear_scopes);
    lemma_patterns_whole(c.matches@, k);
    lemma_whole_lines_append(a, b);
    lemma_whole_lines_append(a + b, m);
    lemma_whole_lines_append(a + b + m, cl);
    lemma_whole_lines_append(a + b + m + cl, patterns_text(c.matches@, k));
}

proof fn lemma_patterns_whole(ps: Seq<ContextPattern>, k: nat)
    ensures
        whole_lines(patterns_text(ps, k)),
    decreases ps,
{
    if ps.len() > 0 {
        lemma_patterns_whole(ps.drop_last(), k);
        lemma_context_pattern_whole(ps.last(), k);
        lemma_whole_lines_append(patterns_text(ps.drop_last(), k), context_pattern_text(ps.last(), k));
    }
}

proof fn lemma_context_pattern_whole(p: ContextPattern, k: nat)
    ensures
        whole_lines(context_pattern_text(p, k)),
    decreases p,
{
    match p {
        ContextPattern::Match(m) => lemma_match_whole(m, k),
        ContextPattern::Include(_) => {},
    }
}

proof fn lemma_match_whole(m: Match, k: nat)
    ensures
        whole_lines(match_text(m, k)),
    decreases m,
{
    let head = indentation(k) + "- match: "@ + pattern_text(m.pattern@, k);
    lemma_pattern_whole(m.pattern@, k);
    lemma_ends_with_line(indentation(k) + "- match: "@, pattern_text(m.pattern@, k));
    assert(pattern_text(m.pattern@, k).len() > 0);
    let sc = attr_line(k + 1, "scope: "@, m.scope@);
    let ca = captures_text(k + 1, "captures"@, m.captures@);
    let ch = change_text(m.change_context, k + 1);
    let po = pop_text(k + 1, m.pop);
    lemma_captures_whole(k + 1, "captures"@, m.captures@);
    lemma_change_whole(m.change_context, k + 1);
    lemma_whole_lines_append(head, sc);
    lemma_whole_lines_append(head + sc, ca);
    lemma_whole_lines_append(head + sc + ca, ch);
    lemma_whole_lines_append(head + sc + ca + ch, po);
}

proof fn lemma_change_whole(change: ContextChange, j: nat)
    ensures
        whole_lines(change_text(change, j)),
    decreases change,
{
    match change {
        ContextChange::Push(l) => {
            lemma_list_whole(l@);
            lemma_ends_with_line(indentation(j) + "push: "@, list_text(l@));
        },
        ContextChange::SetContexts(l) => {
            lemma_list_whole(l@);
            lemma_ends_with_line(indentation(j) + "set: "@, list_text(l@));
        },
        ContextChange::PushEmbed(c) => {
            lemma_context_whole(c, j + 1);
            lemma_whole_lines_append(line(j, "push:"@), context_text(c, j + 1));
        },
        ContextChange::SetEmbed(c) => {
            lemma_context_whole(c, j + 1);
            lemma_whole_lines_append(line(j, "set:"@), context_text(c, j + 1));
        },
        ContextChange::Embed(e) => {
            let a = line(j, "embed: "@ + e.embed@) + attr_line(j, "embed_scope: "@, e.embed_scope@);
            lemma_whole_lines_append(line(j, "embed: "@ + e.embed@), attr_line(j, "embed_scope: "@, e.embed_scope@));
            let esc = match e.escape {
                Some(p) => indentation(j) + "escape: "@ + pattern_text(p@, j),
                None => seq![],
            };
            match e.escape {
                Some(p) => {
                    lemma_pattern_whole(p@, j);
                    lemma_ends_with_line(indentation(j) + "escape: "@, pattern_text(p@, j));
                },
                None => {},
            }
            lemma_whole_lines_append(a, esc);
            lemma_captures_whole(j, "escape_captures"@, e.escape_captures@);
            lemma_whole_lines_append(a + esc, captures_text(j, "escape_captures"@, e.escape_captures@));
        },
        ContextChange::IncludeEmbed(e) => {
            let a = if e.use_push {
                line(j, "push: "@ + e.path@)
            } else {
                line(j, "set: "@ + e.path@)
            };
            if e.with_prototype@.len() > 0 {
                lemma_patterns_whole(e.with_prototype@, j + 1);
                lemma_whole_lines_append(line(j, "with_prototype:"@), patterns_text(e.with_prototype@, j + 1));
                lemma_whole_lines_append(a, line(j, "with_prototype:"@) + patterns_text(e.with_prototype@, j + 1));
            } else {
                lemma_whole_lines_append(a, seq![]);
            }
        },
        ContextChange::Branch(point, branches) => {
            let ls = branches@.map_values(|b: &str| line(j, "  - "@ + b@));
            assert forall|i: int| 0 <= i < ls.len() implies whole_lines(#[trigger] ls[i]) by {}
            lemma_concat_whole(ls);
            lemma_whole_lines_append(line(j, "branch_point: "@ + point@) + line(j, "branch:"@), concat(ls));
        },
        _ => {},
    }
}

/// A written document is made of whole lines: it always ends with a line
/// feed, so nothing written after it can join its last line.
#[verifier::rlimit(60)]
pub proof fn lemma_syntax_text_whole_lines(s: Syntax)
    ensures
        syntax_text(s).len() > 0,
        syntax_text(s).last() == '\n',
{
    let head = line(0, "%YAML 1.2"@) + line(0, "---"@) + line(0, "# http://www.sublimetext.com/docs/syntax.html"@)
        + line(0, "version: 2"@) + line(0, "name: "@ + s.name@);
    let ext = if s.file_extensions@.len() > 0 {
        line(0, "file_extensions:"@) + concat(
            s.file_extensions@.map_values(|e: &str| line(0, "  - "@ + e@)),
        )
    } else {
        seq![]
    };
    let flm = match s.first_line_match {
        Some(p) => "first_line_match: "@ + pattern_text(p@, 0),
        None => seq![],
    };
    let sc = attr_line(0, "scope: "@, s.scope@);
    let hid = if s.hidden {
        line(0, "hidden: true"@)
    } else {
        seq![]
    };
    let vars = if s.variables@.len() > 0 {
        line(0, "variables:"@) + concat(
            s.variables@.map_values(
                |v: (&str, Pattern)| "  "@ + v.0@ + ": "@ + pattern_text(v.1@, 0),
            ),
        )
    } else {
        seq![]
    };
    let ctxs = if s.contexts@.len() > 0 {
        line(0, "contexts:"@) + concat(
            s.contexts@.map_values(|nc: (&str, Context)| named_context_text(nc.0, nc.1)),
        )
    } else {
        seq![]
    };
    assert(whole_lines(head) && head.len() > 0);
    if s.file_extensions@.len() > 0 {
        let ls = s.file_extensions@.map_values(|e: &str| line(0, "  - "@ + e@));
        assert forall|i: int| 0 <= i < ls.len() implies whole_lines(#[trigger] ls[i]) by {}
        lemma_concat_whole(ls);
        lemma_whole_lines_append(line(0, "file_extensions:"@), concat(ls));
    }
    match s.first_line_match {
        Some(p) => {
            lemma_pattern_whole(p@, 0);
            lemma_ends_with_line("first_line_match: "@, pattern_text(p@, 0));
        },
        None => {},
    }
    if s.variables@.len() > 0 {
        let ls = s.variables@.map_values(
            |v: (&str, Pattern)| "  "@ + v.0@ + ": "@ + pattern_text(v.1@, 0),
        );
        assert forall|i: int| 0 <= i < ls.len() implies whole_lines(#[trigger] ls[i]) by {
            lemma_pattern_whole(s.variables@[i].1@, 0);
            lemma_ends_with_line("  "@ + s.variables@[i].0@ + ": "@, pattern_text(s.variables@[i].1@, 0));
        }
        lemma_concat_whole(ls);
        lemma_whole_lines_append(line(0, "variables:"@), concat(ls));
    }
    if s.contexts@.len() > 0 {
        let ls = s.contexts@.map_values(|nc: (&str, Context)| named_context_text(nc.0, nc.1));
        assert forall|i: int| 0 <= i < ls.len() implies whole_lines(#[trigger] ls[i]) by {
            let c = s.contexts@[i].1;
            let n = s.contexts@[i].0;
            lemma_context_whole(c, 2);
            lemma_comment_whole(1, c.comment);
            lemma_whole_lines_append(comment_text(1, c.comment), line(1, n@ + ":"@));
            lemma_whole_lines_append(comment_text(1, c.comment) + line(1, n@ + ":"@), context_text(c, 2));
        }
        lemma_concat_whole(ls);
        lemma_whole_lines_append(line(0, "contexts:"@), concat(ls));
    }
    lemma_whole_lines_append(head, ext);
    lemma_whole_lines_append(head + ext, flm);
    lemma_whole_lines_append(head + ext + flm, sc);
    lemma_whole_lines_append(head + ext + flm + sc, hid);
    lemma_whole_lines_append(head + ext + flm + sc + hid, vars);
    lemma_whole_lines_append(head + ext + flm + sc + hid + vars, ctxs);
    assert(syntax_text(s) == head + ext + flm + sc + hid + vars + ctxs);
}

proof fn lemma_comment_whole(k: nat, comment: Option<&str>)
    ensures
        whole_lines(comment_text(k, comment)),
{
    match comment {
        Some(t) => {
            let ls = text_lines(t@).map_values(|l: Seq<char>| line(k, "# "@ + l));
            assert forall|i: int| 0 <= i < ls.len() implies whole_lines(#[trigger] ls[i]) by {}
            lemma_concat_whole(ls);
        },
        None => {},
    }
}

// ---------------------------------------------------------------------------
// Writing
// ---------------------------------------------------------------------------

/// The text written so far and the current indentation level.
pub struct SerializeState {
    pub indent: u16,
    pub output: String,
}

impl SerializeState {
    /// Writes the current indentation.
    pub fn write_indentation(&mut self)
        ensures
            final(self).indent == old(self).indent,
            final(self).output@ == old(self).output@ + indentation(old(self).indent as nat),
    {
        push_indentation(&mut self.output, self.indent);
    }

    /// Writes `s`.
    fn write(&mut self, s: &str)
        ensures
            final(self).indent == old(self).indent,
            final(self).output@ == old(self).output@ + s@,
    {
        self.output.append(s);
    }

    /// Ends the current line.
    fn newline(&mut self)
        ensures
            final(self).indent == old(self).indent,
            final(self).output@ == old(self).output@ + seq!['\n'],
    {
        push_char(&mut self.output, '\n');
    }

    /// Writes the line `s` at the current indentation.
    fn write_line(&mut self, s: &str)
        ensures
            final(self).indent == old(self).indent,
            final(self).output@ == old(self).output@ + line(old(self).indent as nat, s@),
    {
        self.write_indentation();
        self.write(s);
        self.newline();
        assert(self.output@ =~= old(self).output@ + line(old(self).indent as nat, s@));
    }

    /// Writes the line `key value` at the current indentation.
    fn write_key_line(&mut self, key: &str, value: &str)
        ensures
            final(self).indent == old(self).indent,
            final(self).output@ == old(self).output@ + line(
                old(self).indent as nat,
                key@ + value@,
            ),
    {
        self.write_indentation();
        self.write(key);
        self.write(value);
        self.newline();
        assert(self.output@ =~= old(self).output@ + line(old(self).indent as nat, key@ + value@));
    }
}

impl<'a> Pattern<'a> {
    /// Writes the pattern after a key on the current line, ending that line
    /// (and, for a block scalar, the lines that follow it).
    pub fn serializeln(&self, state: &mut SerializeState)
        requires
            pattern_fits(self@, old(state).indent as nat),
        ensures
            final(state).indent == old(state).indent,
            final(state).output@ == old(state).output@ + pattern_text(
                self@,
                old(state).indent as nat,
            ),
    {
        let chars = chars_of(self.0);
        if contains_char(&chars, '\n') {
            state.write("|-");
            state.newline();
            let ghost k = state.indent as nat;
            let ghost start = state.output@;
            state.indent = state.indent + 2;
            let pieces = split_chars(&chars, '\n');
            let ghost lines = split_on(self@, '\n').map_values(|l: Seq<char>| line(k + 2, l));
            let n = pieces.len();
            let mut i: usize = 0;
            while i < n
                invariant
                    n == pieces@.len(),
                    views(pieces@) == split_on(self@, '\n'),
                    lines == split_on(self@, '\n').map_values(|l: Seq<char>| line(k + 2, l)),
                    state.indent == k + 2,
                    i <= n,
                    state.output@ == start + concat(lines.take(i as int)),
                decreases n - i,
            {
                state.write_indentation();
                push_chars(&mut state.output, &pieces[i]);
                state.newline();
                proof {
                    assert(views(pieces@)[i as int] == pieces@[i as int]@);
                    assert(lines.take(i + 1) =~= lines.take(i as int).push(lines[i as int]));
                    lemma_concat_push(lines.take(i as int), lines[i as int]);
                }
                i = i + 1;
            }
            assert(lines.take(n as int) =~= lines);
            state.indent = state.indent - 2;
        } else {
            push_char(&mut state.output, '\'');
            push_escaped_quotes(&mut state.output, &chars);
            push_char(&mut state.output, '\'');
            state.newline();
        }
    }
}

/// Writes a captures block named `name`: one line per non-empty scope, keyed
/// by its index; nothing when there are no captures.
fn write_captures(state: &mut SerializeState, name: &str, captures: &[Scope])
    ensures
        final(state).indent == old(state).indent,
        final(state).output@ == old(state).output@ + captures_text(
            old(state).indent as nat,
            name@,
            captures@,
        ),
{
    if captures.len() != 0 {
        let ghost j = state.indent as nat;
        state.write_key_line(name, ":");
        let ghost start = state.output@;
        let ghost lines = capture_lines(j, captures@);
        let n = captures.len();
        let mut i: usize = 0;
        while i < n
            invariant
                n == captures@.len(),
                lines == capture_lines(j, captures@),
                state.indent == j,
                i <= n,
                state.output@ == start + concat(lines.take(i as int)),
            decreases n - i,
        {
            let ghost before = state.output@;
            if !captures[i].is_empty() {
                state.write_indentation();
                state.write("  ");
                push_decimal(&mut state.output, i as u64);
                state.write(": ");
                state.write(captures[i].as_str());
                state.newline();
                assert(state.output@ =~= before + lines[i as int]);
            } else {
                assert(lines[i as int] =~= seq![]);
                assert(state.output@ =~= before + lines[i as int]);
            }
            proof {
                assert(lines.take(i + 1) =~= lines.take(i as int).push(lines[i as int]));
                lemma_concat_push(lines.take(i as int), lines[i as int]);
            }
            i = i + 1;
        }
        assert(lines.take(n as int) =~= lines);
    }
}

/// Writes a list of context names and ends the line.
fn write_context_list(state: &mut SerializeState, list: &[&str])
    requires
        list@.len() >= 1,
    ensures
        final(state).indent == old(state).indent,
        final(state).output@ == old(state).output@ + list_text(list@),
{
    if list.len() == 1 {
        state.write(list[0]);
        state.newline();
    } else {
        push_char(&mut state.output, '[');
        state.write(list[0]);
        let ghost start = state.output@;
        let ghost rest = list@.skip(1).map_values(|c: &str| ", "@ + c@);
        let n = list.len();
        let mut i: usize = 1;
        while i < n
            invariant
                n == list@.len(),
                rest == list@.skip(1).map_values(|c: &str| ", "@ + c@),
                1 <= i <= n,
                state.indent == old(state).indent,
                state.output@ == start + concat(rest.take(i - 1)),
            decreases n - i,
        {
            state.write(", ");
            state.write(list[i]);
            proof {
                assert(rest[i - 1] == ", "@ + list@[i as int]@);
                assert(rest.take(i as int) =~= rest.take(i - 1).push(rest[i - 1]));
                lemma_concat_push(rest.take(i - 1), rest[i - 1]);
            }
            i = i + 1;
        }
        assert(rest.take(n - 1) =~= rest);
        push_char(&mut state.output, ']');
        state.newline();
    }
}

/// Writes the comment lines of a context, one `# ` line per line of the
/// comment.
fn write_comment(state: &mut SerializeState, comment: &str)
    ensures
        final(state).indent == old(state).indent,
        final(state).output@ == old(state).output@ + comment_text(
            old(state).indent as nat,
            Some(comment),
        ),
{
    let ghost k = state.indent as nat;
    let ghost start = state.output@;
    let ghost lines = text_lines(comment@).map_values(|l: Seq<char>| line(k, "# "@ + l));
    let chars = chars_of(comment);
    let pieces = split_chars(&chars, '\n');
    proof {
        lemma_split_nonempty(comment@, '\n');
    }
    let n = pieces.len();
    let ghost p = split_on(comment@, '\n');
    assert(text_lines(comment@).len() >= n - 1);
    let mut i: usize = 0;
    while i + 1 < n
        invariant
            n == pieces@.len(),
            n >= 1,
            p == split_on(comment@, '\n'),
            views(pieces@) == p,
            lines == text_lines(comment@).map_values(|l: Seq<char>| line(k, "# "@ + l)),
            text_lines(comment@).len() >= n - 1,
            state.indent == k,
            i + 1 <= n,
            state.output@ == start + concat(lines.take(i as int)),
        decreases n - i,
    {
        let ghost before = state.output@;
        let piece = &pieces[i];
        assert(piece@ == p[i as int]);
        state.write_indentation();
        state.write("# ");
        let m = piece.len();
        if m > 0 && piece[m - 1] == '\r' {
            push_char_prefix(&mut state.output, piece, m - 1);
            assert(piece@.take(m - 1) =~= piece@.drop_last());
        } else {
            push_chars(&mut state.output, piece);
        }
        state.newline();
        proof {
            assert(text_lines(comment@)[i as int] == strip_cr(p[i as int]));
            assert(state.output@ =~= before + lines[i as int]);
            assert(lines.take(i + 1) =~= lines.take(i as int).push(lines[i as int]));
            lemma_concat_push(lines.take(i as int), lines[i as int]);
        }
        i = i + 1;
    }
    let last = &pieces[n - 1];
    assert(last@ == p.last());
    if last.len() > 0 {
        let ghost before = state.output@;
        state.write_indentation();
        state.write("# ");
        push_chars(&mut state.output, last);
        state.newline();
        proof {
            assert(text_lines(comment@).len() == n);
            assert(text_lines(comment@)[n - 1] == p.last());
            assert(state.output@ =~= before + lines[n - 1]);
            assert(lines.take(n as int) =~= lines.take(n - 1).push(lines[n - 1]));
            lemma_concat_push(lines.take(n - 1), lines[n - 1]);
            assert(lines.take(n as int) =~= lines);
        }
    } else {
        assert(text_lines(comment@).len() == n - 1);
        assert(lines.take(n - 1) =~= lines);
    }
}

/// Each pattern of a list that can be written can itself be written.
proof fn lemma_patterns_fit_each(ps: Seq<ContextPattern>, k: nat, i: int)
    requires
        patterns_fit(ps, k),
        0 <= i < ps.len(),
    ensures
        context_pattern_fits(ps[i], k),
    decreases ps.len(),
{
    if i < ps.len() - 1 {
        lemma_patterns_fit_each(ps.drop_last(), k, i);
    }
}

/// Writes a list of patterns, one after the other.
fn write_patterns(state: &mut SerializeState, ps: &Vec<ContextPattern>)
    requires
        patterns_fit(ps@, old(state).indent as nat),
    ensures
        final(state).indent == old(state).indent,
        final(state).output@ == old(state).output@ + patterns_text(ps@, old(state).indent as nat),
    decreases ps,
{
    let ghost k = state.indent as nat;
    let ghost start = state.output@;
    let n = ps.len();
    let mut i: usize = 0;
    assert(ps@.take(0) =~= Seq::<ContextPattern>::empty());
    while i < n
        invariant
            n == ps@.len(),
            patterns_fit(ps@, k),
            state.indent == k,
            i <= n,
            state.output@ == start + patterns_text(ps@.take(i as int), k),
        decreases n - i,
    {
        proof {
            lemma_patterns_fit_each(ps@, k, i as int);
        }
        ps[i].serialize(state);
        proof {
            let t = ps@.take(i + 1);
            assert(t.drop_last() =~= ps@.take(i as int));
            assert(t.last() == ps@[i as int]);
        }
        i = i + 1;
    }
    assert(ps@.take(n as int) =~= ps@);
}

impl<'a> Context<'a> {
    /// Writes the context's attributes and patterns at the current
    /// indentation.
    #[verifier::rlimit(40)]
    pub fn serialize(&self, state: &mut SerializeState)
        requires
            context_fits(*self, old(state).indent as nat),
        ensures
            final(state).indent == old(state).indent,
            final(state).output@ == old(state).output@ + context_text(
                *self,
                old(state).indent as nat,
            ),
        decreases self,
    {
        let ghost k = state.indent as nat;
        let ghost start = state.output@;
        if !self.meta_scope.is_empty() {
            state.write_key_line("- meta_scope: ", self.meta_scope.as_str());
        }
        let ghost s1 = state.output@;
        assert(s1 == start + attr_line(k, "- meta_scope: "@, self.meta_scope@));
        if !self.meta_content_scope.is_empty() {
            state.write_key_line("- meta_content_scope: ", self.meta_content_scope.as_str());
        }
        let ghost s2 = state.output@;
        if !self.meta_include_prototype {
            state.write_line("- meta_include_prototype: false");
        }
        let ghost s3 = state.output@;
        match self.clear_scopes {
            ScopeClear::All => {
                state.write_line("- clear_scopes: true");
            },
            ScopeClear::Amount(amount) => {
                if amount != 0 {
                    state.write_indentation();
                    state.write("- clear_scopes: ");
                    push_signed_decimal(&mut state.output, amount as i64);
                    state.newline();
                    assert(state.output@ =~= s3 + line(
                        k,
                        "- clear_scopes: "@ + signed_decimal(amount as int),
                    ));
                }
            },
        }
        let ghost s4 = state.output@;
        assert(s4 == s3 + clear_text(k, self.clear_scopes));
        write_patterns(state, &self.matches);
        assert(state.output@ =~= start + context_text(*self, k));
    }
}

impl<'a> ContextPattern<'a> {
    /// Writes one pattern at the current indentation.
    pub fn serialize(&self, state: &mut SerializeState)
        requires
            context_pattern_fits(*self, old(state).indent as nat),
        ensures
            final(state).indent == old(state).indent,
            final(state).output@ == old(state).output@ + context_pattern_text(
                *self,
                old(state).indent as nat,
            ),
        decreases self,
    {
        match self {
            ContextPattern::Match(m) => {
                m.serialize(state);
            },
            ContextPattern::Include(context) => {
                state.write_key_line("- include: ", context);
            },
        }
    }
}

impl<'a> Match<'a> {
    /// Writes the match at the current indentation, its keys one level
    /// deeper.
    #[verifier::rlimit(60)]
    pub fn serialize(&self, state: &mut SerializeState)
        requires
            match_fits(*self, old(state).indent as nat),
        ensures
            final(state).indent == old(state).indent,
            final(state).output@ == old(state).output@ + match_text(
                *self,
                old(state).indent as nat,
            ),
        decreases self,
    {
        let ghost k = state.indent as nat;
        let ghost start = state.output@;
        state.write_indentation();
        state.write("- match: ");
        self.pattern.serializeln(state);
        let ghost s1 = state.output@;
        state.indent = state.indent + 1;
        if !self.scope.is_empty() {
            state.write_key_line("scope: ", self.scope.as_str());
        }
        let ghost s2 = state.output@;
        assert(s2 == s1 + attr_line(k + 1, "scope: "@, self.scope@));
        write_captures(state, "captures", self.captures);
        let ghost s3 = state.output@;
        write_change(state, &self.change_context);
        let ghost s4 = state.output@;
        if self.pop == 1 {
            state.write_line("pop: true");
        } else if self.pop > 0 {
            state.write_indentation();
            state.write("pop: ");
            push_decimal(&mut state.output, self.pop as u64);
            state.newline();
            assert(state.output@ =~= s4 + line(k + 1, "pop: "@ + decimal(self.pop as nat)));
        }
        assert(state.output@ == s4 + pop_text(k + 1, self.pop));
        state.indent = state.indent - 1;
        assert(state.output@ =~= start + match_text(*self, k));
    }
}

/// Writes the keys of an embed at the current indentation.
fn write_embed(state: &mut SerializeState, embed: &Embed)
    requires
        match embed.escape {
            Some(p) => pattern_fits(p@, old(state).indent as nat),
            None => true,
        },
    ensures
        final(state).indent == old(state).indent,
        final(state).output@ == old(state).output@ + embed_text(*embed, old(state).indent as nat),
{
    let ghost j = state.indent as nat;
    let ghost start = state.output@;
    state.write_key_line("embed: ", embed.embed);
    if !embed.embed_scope.is_empty() {
        state.write_key_line("embed_scope: ", embed.embed_scope.as_str());
    }
    let ghost s1 = state.output@;
    assert(s1 == start + line(j, "embed: "@ + embed.embed@) + attr_line(
        j,
        "embed_scope: "@,
        embed.embed_scope@,
    ));
    if let Some(pattern) = &embed.escape {
        state.write_indentation();
        state.write("escape: ");
        pattern.serializeln(state);
    }
    let ghost s2 = state.output@;
    assert(s2 =~= s1 + match embed.escape {
        Some(p) => indentation(j) + "escape: "@ + pattern_text(p@, j),
        None => seq![],
    });
    write_captures(state, "escape_captures", embed.escape_captures);
    assert(state.output@ =~= start + embed_text(*embed, j));
}

/// Writes the keys that describe a change of context at the current
/// indentation.
fn write_change(state: &mut SerializeState, change: &ContextChange)
    requires
        change_fits(*change, old(state).indent as nat),
    ensures
        final(state).indent == old(state).indent,
        final(state).output@ == old(state).output@ + change_text(
            *change,
            old(state).indent as nat,
        ),
    decreases change,
{
    let ghost j = state.indent as nat;
    let ghost start = state.output@;
    match change {
        ContextChange::NoChange => {},
        ContextChange::Push(contexts) => {
            state.write_indentation();
            state.write("push: ");
            write_context_list(state, contexts);
            assert(state.output@ =~= start + change_text(*change, j));
        },
        ContextChange::PushOne(context) => {
            state.write_indentation();
            state.write("push: ");
            state.write(context);
            state.newline();
            assert(state.output@ =~= start + change_text(*change, j));
        },
        ContextChange::SetContexts(contexts) => {
            state.write_indentation();
            state.write("set: ");
            write_context_list(state, contexts);
            assert(state.output@ =~= start + change_text(*change, j));
        },
        ContextChange::PushEmbed(context) => {
            state.write_line("push:");
            state.indent = state.indent + 1;
            context.serialize(state);
            state.indent = state.indent - 1;
            assert(state.output@ =~= start + change_text(*change, j));
        },
        ContextChange::SetEmbed(context) => {
            state.write_line("set:");
            state.indent = state.indent + 1;
            context.serialize(state);
            state.indent = state.indent - 1;
            assert(state.output@ =~= start + change_text(*change, j));
        },
        ContextChange::Embed(embed) => {
            write_embed(state, embed);
        },
        ContextChange::IncludeEmbed(embed) => {
            if embed.use_push {
                state.write_key_line("push: ", embed.path);
            } else {
                state.write_key_line("set: ", embed.path);
            }
            let ghost s1 = state.output@;
            if embed.with_prototype.len() != 0 {
                state.write_line("with_prototype:");
                state.indent = state.indent + 1;
                write_patterns(state, &embed.with_prototype);
                state.indent = state.indent - 1;
            }
            assert(state.output@ =~= start + change_text(*change, j));
        },
        ContextChange::Branch(branch_point, branches) => {
            state.write_key_line("branch_point: ", branch_point);
            state.write_line("branch:");
            let ghost s1 = state.output@;
            let ghost lines = branches@.map_values(|b: &str| line(j, "  - "@ + b@));
            let n = branches.len();
            let mut i: usize = 0;
            while i < n
                invariant
                    n == branches@.len(),
                    lines == branches@.map_values(|b: &str| line(j, "  - "@ + b@)),
                    state.indent == j,
                    i <= n,
                    state.output@ == s1 + concat(lines.take(i as int)),
                decreases n - i,
            {
                state.write_key_line("  - ", branches[i]);
                proof {
                    assert(lines.take(i + 1) =~= lines.take(i as int).push(lines[i as int]));
                    lemma_concat_push(lines.take(i as int), lines[i as int]);
                }
                i = i + 1;
            }
            assert(lines.take(n as int) =~= lines);
            assert(state.output@ =~= start + change_text(*change, j));
        },
        ContextChange::Fail(branch_point) => {
            state.write_key_line("fail: ", branch_point);
        },
    }
}

/// `std::fmt::Error`, the error type of formatting. Opaque here: the
/// serializer writes to a `String` and never produces one.
#[verifier::external_type_specification]
#[verifier::external_body]
pub struct ExFmtError(std::fmt::Error);

impl<'a> Syntax<'a> {
    /// Appends the sublime-syntax document for this syntax to `output`.
    pub fn serialize(&self, output: &mut String) -> (r: Result<(), std::fmt::Error>)
        requires
            syntax_fits(*self),
        ensures
            r is Ok,
            final(output)@ == old(output)@ + syntax_text(*self),
    {
        let mut state = SerializeState { indent: 0, output: String::new() };
        state.write_line("%YAML 1.2");
        state.write_line("---");
        state.write_line("# http://www.sublimetext.com/docs/syntax.html");
        state.write_line("version: 2");
        state.write_key_line("name: ", self.name);
        let ghost s1 = state.output@;
        write_extensions(&mut state, self.file_extensions);
        let ghost s2 = state.output@;
        if let Some(pattern) = &self.first_line_match {
            state.write_indentation();
            state.write("first_line_match: ");
            pattern.serializeln(&mut state);
        }
        let ghost s3 = state.output@;
        assert(s3 =~= s2 + match self.first_line_match {
            Some(p) => "first_line_match: "@ + pattern_text(p@, 0),
            None => seq![],
        });
        if !self.scope.is_empty() {
            state.write_key_line("scope: ", self.scope.as_str());
        }
        if self.hidden {
            state.write_line("hidden: true");
        }
        let ghost s4 = state.output@;
        write_variables(&mut state, self.variables);
        let ghost s5 = state.output@;
        write_contexts(&mut state, self.contexts);
        assert(state.output@ =~= syntax_text(*self));
        output.append(state.output.as_str());
        Ok(())
    }
}

/// Writes the `file_extensions` section, if there are any.
fn write_extensions(state: &mut SerializeState, extensions: &[&str])
    requires
        old(state).indent == 0,
    ensures
        final(state).indent == 0,
        final(state).output@ == old(state).output@ + (if extensions@.len() > 0 {
            line(0, "file_extensions:"@) + concat(
                extensions@.map_values(|e: &str| line(0, "  - "@ + e@)),
            )
        } else {
            seq![]
        }),
{
    if extensions.len() != 0 {
        state.write_line("file_extensions:");
        let ghost start = state.output@;
        let ghost lines = extensions@.map_values(|e: &str| line(0, "  - "@ + e@));
        let n = extensions.len();
        let mut i: usize = 0;
        while i < n
            invariant
                n == extensions@.len(),
                lines == extensions@.map_values(|e: &str| line(0, "  - "@ + e@)),
                state.indent == 0,
                i <= n,
                state.output@ == start + concat(lines.take(i as int)),
            decreases n - i,
        {
            state.write_key_line("  - ", extensions[i]);
            proof {
                assert(lines.take(i + 1) =~= lines.take(i as int).push(lines[i as int]));
                lemma_concat_push(lines.take(i as int), lines[i as int]);
            }
            i = i + 1;
        }
        assert(lines.take(n as int) =~= lines);
    }
}

/// Writes the `variables` section, if there are any.
fn write_variables(state: &mut SerializeState, variables: &[(&str, Pattern)])
    requires
        old(state).indent == 0,
    ensures
        final(state).indent == 0,
        final(state).output@ == old(state).output@ + (if variables@.len() > 0 {
            line(0, "variables:"@) + concat(
                variables@.map_values(
                    |v: (&str, Pattern)| "  "@ + v.0@ + ": "@ + pattern_text(v.1@, 0),
                ),
            )
        } else {
            seq![]
        }),
{
    if variables.len() != 0 {
        state.write_line("variables:");
        let ghost start = state.output@;
        let ghost lines = variables@.map_values(
            |v: (&str, Pattern)| "  "@ + v.0@ + ": "@ + pattern_text(v.1@, 0),
        );
        let n = variables.len();
        let mut i: usize = 0;
        while i < n
            invariant
                n == variables@.len(),
                lines == variables@.map_values(
                    |v: (&str, Pattern)| "  "@ + v.0@ + ": "@ + pattern_text(v.1@, 0),
                ),
                state.indent == 0,
                i <= n,
                state.output@ == start + concat(lines.take(i as int)),
            decreases n - i,
        {
            let ghost before = state.output@;
            let (name, pattern) = &variables[i];
            state.write_indentation();
            state.write("  ");
            state.write(name);
            state.write(": ");
            pattern.serializeln(state);
            proof {
                assert(state.output@ =~= before + lines[i as int]);
                assert(lines.take(i + 1) =~= lines.take(i as int).push(lines[i as int]));
                lemma_concat_push(lines.take(i as int), lines[i as int]);
            }
            i = i + 1;
        }
        assert(lines.take(n as int) =~= lines);
    }
}

/// Writes the `contexts` section, if there are any.
fn write_contexts(state: &mut SerializeState, contexts: &[(&str, Context)])
    requires
        old(state).indent == 0,
        forall|i: int| 0 <= i < contexts@.len() ==> context_fits(#[trigger] contexts@[i].1, 2),
    ensures
        final(state).indent == 0,
        final(state).output@ == old(state).output@ + (if contexts@.len() > 0 {
            line(0, "contexts:"@) + concat(
                contexts@.map_values(|nc: (&str, Context)| named_context_text(nc.0, nc.1)),
            )
        } else {
            seq![]
        }),
{
    if contexts.len() != 0 {
        state.write_line("contexts:");
        let ghost start = state.output@;
        let ghost lines = contexts@.map_values(
            |nc: (&str, Context)| named_context_text(nc.0, nc.1),
        );
        state.indent = 1;
        let n = contexts.len();
        let mut i: usize = 0;
        while i < n
            invariant
                n == contexts@.len(),
                forall|i: int| 0 <= i < contexts@.len() ==> context_fits(#[trigger] contexts@[i].1, 2),
                lines == contexts@.map_values(
                    |nc: (&str, Context)| named_context_text(nc.0, nc.1),
                ),
                state.indent == 1,
                i <= n,
                state.output@ == start + concat(lines.take(i as int)),
            decreases n - i,
        {
            let ghost before = state.output@;
            let (name, context) = &contexts[i];
            if let Some(comment) = context.comment {
                write_comment(state, comment);
            }
            let ghost mid = state.output@;
            assert(mid == before + comment_text(1, context.comment));
            state.write_key_line(name, ":");
            state.indent = 2;
            context.serialize(state);
            state.indent = 1;
            proof {
                assert(state.output@ =~= before + lines[i as int]);
                assert(lines.take(i + 1) =~= lines.take(i as int).push(lines[i as int]));
                lemma_concat_push(lines.take(i as int), lines[i as int]);
            }
            i = i + 1;
        }
        assert(lines.take(n as int) =~= lines);
        state.indent = 0;
    }
}

} // verus!
