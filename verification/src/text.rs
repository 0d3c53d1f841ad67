//! Character-level building blocks shared by the scope normaliser and the
//! sublime-syntax serialiser: what splitting, joining, quoting and number
//! formatting produce, stated over `Seq<char>`, with executable versions.
use vstd::prelude::*;

verus! {

// ---------------------------------------------------------------------------
// Specifications
// ---------------------------------------------------------------------------

/// ASCII whitespace as `char::is_ascii_whitespace` defines it: space, tab,
/// line feed, form feed and carriage return.
pub open spec fn is_ascii_space(c: char) -> bool {
    c == ' ' || c == '\t' || c == '\n' || c == '\x0C' || c == '\r'
}

/// The maximal runs of non-whitespace characters of `s`, in order (what
/// `str::split_ascii_whitespace` yields).
pub open spec fn ascii_words(s: Seq<char>) -> Seq<Seq<char>>
    decreases s.len(),
{
    if s.len() == 0 {
        seq![]
    } else {
        let prev = ascii_words(s.drop_last());
        let c = s.last();
        if is_ascii_space(c) {
            prev
        } else if s.len() == 1 || is_ascii_space(s[s.len() - 2]) {
            prev.push(seq![c])
        } else {
            prev.update(prev.len() - 1, prev.last().push(c))
        }
    }
}

/// The words of `ws` separated by single spaces.
pub open spec fn join_words(ws: Seq<Seq<char>>) -> Seq<char>
    decreases ws.len(),
{
    if ws.len() == 0 {
        seq![]
    } else if ws.len() == 1 {
        ws[0]
    } else {
        join_words(ws.drop_last()) + seq![' '] + ws.last()
    }
}

/// `s` with its whitespace normalised: the words of `s` separated by single
/// spaces, with no leading or trailing whitespace.
pub open spec fn normalize_space(s: Seq<char>) -> Seq<char> {
    join_words(ascii_words(s))
}

/// Each word followed by a dot and `postfix`.
pub open spec fn postfixed(ws: Seq<Seq<char>>, postfix: Seq<char>) -> Seq<Seq<char>> {
    ws.map_values(|w: Seq<char>| w + seq!['.'] + postfix)
}

/// The pieces of `s` between occurrences of `sep` (what `str::split` yields
/// for a single-character separator): always at least one piece.
pub open spec fn split_on(s: Seq<char>, sep: char) -> Seq<Seq<char>>
    decreases s.len(),
{
    if s.len() == 0 {
        seq![seq![]]
    } else {
        let prev = split_on(s.drop_last(), sep);
        if s.last() == sep {
            prev.push(seq![])
        } else {
            prev.update(prev.len() - 1, prev.last().push(s.last()))
        }
    }
}

/// `l` without one trailing carriage return, if it has one.
pub open spec fn strip_cr(l: Seq<char>) -> Seq<char> {
    if l.len() > 0 && l.last() == '\r' {
        l.drop_last()
    } else {
        l
    }
}

/// The lines of `s` as `str::lines` yields them: the pieces between line
/// feeds, a piece ended by a line feed losing one trailing carriage return,
/// and an empty final piece left out.
pub open spec fn text_lines(s: Seq<char>) -> Seq<Seq<char>> {
    let p = split_on(s, '\n');
    let body = p.drop_last().map_values(|l: Seq<char>| strip_cr(l));
    if p.last().len() == 0 {
        body
    } else {
        body.push(p.last())
    }
}

/// `s` with every backslash-quote pair replaced by two quotes, scanning from
/// the left (what `str::replace("\\'", "''")` yields).
pub open spec fn escape_quotes(s: Seq<char>) -> Seq<char>
    decreases s.len(),
{
    if s.len() < 2 {
        s
    } else if s[0] == '\\' && s[1] == '\'' {
        seq!['\'', '\''] + escape_quotes(s.skip(2))
    } else {
        seq![s[0]] + escape_quotes(s.skip(1))
    }
}

/// The decimal digit for `d < 10`.
pub open spec fn digit_char(d: nat) -> char {
    ((d + 48) as u8) as char
}

/// The decimal representation of `n`, without leading zeros.
pub open spec fn decimal(n: nat) -> Seq<char>
    decreases n,
{
    if n < 10 {
        seq![digit_char(n)]
    } else {
        decimal(n / 10).push(digit_char(n % 10))
    }
}

/// The decimal representation of `i`, with a leading minus sign when it is
/// negative.
pub open spec fn signed_decimal(i: int) -> Seq<char> {
    if i < 0 {
        seq!['-'] + decimal((-i) as nat)
    } else {
        decimal(i as nat)
    }
}

/// `k` levels of indentation, two spaces each.
pub open spec fn indentation(k: nat) -> Seq<char>
    decreases k,
{
    if k == 0 {
        seq![]
    } else {
        indentation((k - 1) as nat) + seq![' ', ' ']
    }
}

/// The contents of a sequence of character vectors.
pub open spec fn views(ws: Seq<Vec<char>>) -> Seq<Seq<char>> {
    ws.map_values(|w: Vec<char>| w@)
}

/// Concatenation of a sequence of texts.
pub open spec fn concat(ts: Seq<Seq<char>>) -> Seq<char>
    decreases ts.len(),
{
    if ts.len() == 0 {
        seq![]
    } else {
        concat(ts.drop_last()) + ts.last()
    }
}

// ---------------------------------------------------------------------------
// Lemmas
// ---------------------------------------------------------------------------

/// Every word is non-empty and holds no whitespace.
pub proof fn lemma_words_shape(s: Seq<char>)
    ensures
        forall|i: int|
            0 <= i < ascii_words(s).len() ==> #[trigger] ascii_words(s)[i].len() > 0 && forall|
                j: int,
            |
                0 <= j < ascii_words(s)[i].len() ==> !is_ascii_space(
                    #[trigger] ascii_words(s)[i][j],
                ),
        s.len() > 0 && !is_ascii_space(s.last()) ==> ascii_words(s).len() > 0,
    decreases s.len(),
{
    if s.len() > 0 {
        lemma_words_shape(s.drop_last());
        let prev = ascii_words(s.drop_last());
        if !is_ascii_space(s.last()) && s.len() > 1 && !is_ascii_space(s[s.len() - 2]) {
            assert(s.drop_last().last() == s[s.len() - 2]);
        }
    }
}

/// Joining non-empty words gives an empty text exactly when there are no
/// words.
pub proof fn lemma_join_empty(ws: Seq<Seq<char>>)
    requires
        forall|i: int| 0 <= i < ws.len() ==> #[trigger] ws[i].len() > 0,
    ensures
        (join_words(ws).len() == 0) == (ws.len() == 0),
    decreases ws.len(),
{
    if ws.len() > 1 {
        lemma_join_empty(ws.drop_last());
    }
}

/// Joining one more word.
pub proof fn lemma_join_push(ws: Seq<Seq<char>>, w: Seq<char>)
    ensures
        join_words(ws.push(w)) == if ws.len() == 0 {
            w
        } else {
            join_words(ws) + seq![' '] + w
        },
{
    assert(ws.push(w).drop_last() =~= ws);
}

/// A non-empty run without whitespace is a single word.
pub proof fn lemma_words_single(w: Seq<char>)
    requires
        w.len() > 0,
        forall|j: int| 0 <= j < w.len() ==> !is_ascii_space(#[trigger] w[j]),
    ensures
        ascii_words(w) == seq![w],
    decreases w.len(),
{
    assert(!is_ascii_space(w[w.len() - 1]));
    if w.len() > 1 {
        lemma_words_single(w.drop_last());
        assert(!is_ascii_space(w[w.len() - 2]));
        assert(w.drop_last().push(w.last()) =~= w);
        assert(seq![w.drop_last()].update(0, w.drop_last().push(w.last())) =~= seq![w]);
        assert(ascii_words(w) == ascii_words(w.drop_last()).update(
            0,
            ascii_words(w.drop_last()).last().push(w.last()),
        ));
    } else {
        assert(w.drop_last() =~= Seq::<char>::empty());
        assert(ascii_words(w.drop_last()) =~= Seq::<Seq<char>>::empty());
        assert(seq![w.last()] =~= w);
        assert(ascii_words(w) == Seq::<Seq<char>>::empty().push(seq![w.last()]));
        assert(Seq::<Seq<char>>::empty().push(seq![w.last()]) =~= seq![w]);
    }
}

/// A space followed by a word adds that word.
pub proof fn lemma_words_append_word(a: Seq<char>, w: Seq<char>)
    requires
        w.len() > 0,
        forall|j: int| 0 <= j < w.len() ==> !is_ascii_space(#[trigger] w[j]),
    ensures
        ascii_words(a + seq![' '] + w) == ascii_words(a).push(w),
    decreases w.len(),
{
    let s = a + seq![' '] + w;
    assert(s.last() == w[w.len() - 1]);
    assert(!is_ascii_space(w[w.len() - 1]));
    if w.len() == 1 {
        assert(s.drop_last() =~= a + seq![' ']);
        assert((a + seq![' ']).drop_last() =~= a);
        assert((a + seq![' ']).last() == ' ');
        assert(ascii_words(a + seq![' ']) == ascii_words(a));
        assert(s[s.len() - 2] == ' ');
        assert(seq![s.last()] =~= w);
    } else {
        assert(!is_ascii_space(w[w.len() - 2]));
        let w1 = w.drop_last();
        lemma_words_append_word(a, w1);
        assert(s.drop_last() =~= a + seq![' '] + w1);
        assert(s[s.len() - 2] == w1.last());
        let prev = ascii_words(a + seq![' '] + w1);
        assert(prev =~= ascii_words(a).push(w1));
        assert(w1.push(w.last()) =~= w);
        assert(prev.update(prev.len() - 1, prev.last().push(s.last())) =~= ascii_words(a).push(w));
    }
}

/// Splitting joined words gives the words back, when each is non-empty and
/// holds no whitespace.
pub proof fn lemma_words_of_join(ws: Seq<Seq<char>>)
    requires
        forall|i: int| 0 <= i < ws.len() ==> #[trigger] ws[i].len() > 0,
        forall|i: int, j: int|
            0 <= i < ws.len() && 0 <= j < ws[i].len() ==> !is_ascii_space(#[trigger] ws[i][j]),
    ensures
        ascii_words(join_words(ws)) == ws,
    decreases ws.len(),
{
    if ws.len() == 0 {
    } else if ws.len() == 1 {
        lemma_words_single(ws[0]);
        assert(seq![ws[0]] =~= ws);
    } else {
        let init = ws.drop_last();
        lemma_words_of_join(init);
        let w = ws.last();
        assert(forall|j: int| 0 <= j < w.len() ==> !is_ascii_space(#[trigger] w[j])) by {
            assert forall|j: int| 0 <= j < w.len() implies !is_ascii_space(#[trigger] w[j]) by {
                assert(w[j] == ws[ws.len() - 1][j]);
            }
        }
        lemma_words_append_word(join_words(init), w);
        assert(init.push(w) =~= ws);
    }
}

/// Joining two non-empty lists of words.
pub proof fn lemma_join_append(a: Seq<Seq<char>>, b: Seq<Seq<char>>)
    requires
        a.len() > 0,
        b.len() > 0,
    ensures
        join_words(a + b) == join_words(a) + seq![' '] + join_words(b),
    decreases b.len(),
{
    if b.len() == 1 {
        assert((a + b).drop_last() =~= a);
    } else {
        lemma_join_append(a, b.drop_last());
        assert((a + b).drop_last() =~= a + b.drop_last());
    }
}

/// There is always at least one piece.
pub proof fn lemma_split_nonempty(s: Seq<char>, sep: char)
    ensures
        split_on(s, sep).len() >= 1,
    decreases s.len(),
{
    if s.len() > 0 {
        lemma_split_nonempty(s.drop_last(), sep);
    }
}

/// The texts of a sequence with one more element.
pub proof fn lemma_concat_push(ts: Seq<Seq<char>>, t: Seq<char>)
    ensures
        concat(ts.push(t)) == concat(ts) + t,
{
    assert(ts.push(t).drop_last() =~= ts);
}

/// Whitespace between two texts separates their words: the words of
/// `a + c + b` are those of `a` followed by those of `b`.
pub proof fn lemma_words_split_at(a: Seq<char>, c: char, b: Seq<char>)
    requires
        is_ascii_space(c),
    ensures
        ascii_words(a + seq![c] + b) == ascii_words(a) + ascii_words(b),
    decreases b.len(),
{
    let s = a + seq![c] + b;
    if b.len() == 0 {
        assert(s.drop_last() =~= a);
        assert(ascii_words(b) =~= Seq::<Seq<char>>::empty());
        assert(ascii_words(a) + ascii_words(b) =~= ascii_words(a));
    } else {
        let b1 = b.drop_last();
        let d = b.last();
        lemma_words_split_at(a, c, b1);
        assert(s.drop_last() =~= a + seq![c] + b1);
        assert(s.last() == d);
        let wa = ascii_words(a);
        let w1 = ascii_words(b1);
        if is_ascii_space(d) {
        } else if b1.len() == 0 {
            assert(s[s.len() - 2] == c);
            assert(w1 =~= Seq::<Seq<char>>::empty());
            assert(ascii_words(b) == w1.push(seq![d]));
            assert((wa + w1).push(seq![d]) =~= wa + w1.push(seq![d]));
        } else if is_ascii_space(b1.last()) {
            assert(s[s.len() - 2] == b1.last());
            assert(b[b.len() - 2] == b1.last());
            assert((wa + w1).push(seq![d]) =~= wa + w1.push(seq![d]));
        } else {
            assert(s[s.len() - 2] == b1.last());
            assert(b[b.len() - 2] == b1.last());
            lemma_words_shape(b1);
            let p = wa + w1;
            assert(p.update(p.len() - 1, p.last().push(d)) =~= wa + w1.update(
                w1.len() - 1,
                w1.last().push(d),
            ));
        }
    }
}

/// The texts of two sequences one after the other.
pub proof fn lemma_concat_append(a: Seq<Seq<char>>, b: Seq<Seq<char>>)
    ensures
        concat(a + b) == concat(a) + concat(b),
    decreases b.len(),
{
    if b.len() == 0 {
        assert(a + b =~= a);
        assert(concat(a) + concat(b) =~= concat(a));
    } else {
        lemma_concat_append(a, b.drop_last());
        assert((a + b).drop_last() =~= a + b.drop_last());
        assert((a + b).last() == b.last());
        assert(concat(a + b.drop_last()) + b.last() =~= concat(a) + (concat(b.drop_last())
            + b.last()));
    }
}

/// Indentation is made of spaces only.
pub proof fn lemma_indentation_spaces(k: nat)
    ensures
        forall|i: int| 0 <= i < indentation(k).len() ==> #[trigger] indentation(k)[i] == ' ',
    decreases k,
{
    if k > 0 {
        let prev = indentation((k - 1) as nat);
        lemma_indentation_spaces((k - 1) as nat);
        assert forall|i: int| 0 <= i < indentation(k).len() implies #[trigger] indentation(k)[i]
            == ' ' by {
            if i < prev.len() {
                assert(indentation(k)[i] == prev[i]);
            }
        }
    }
}

/// Appending text without a separator extends the last piece.
pub proof fn lemma_split_plain(s: Seq<char>, x: Seq<char>, sep: char)
    requires
        !x.contains(sep),
    ensures
        split_on(s + x, sep).len() == split_on(s, sep).len(),
        split_on(s + x, sep) == split_on(s, sep).update(
            split_on(s, sep).len() - 1,
            split_on(s, sep).last() + x,
        ),
    decreases x.len(),
{
    lemma_split_nonempty(s, sep);
    let p = split_on(s, sep);
    if x.len() == 0 {
        assert(s + x =~= s);
        assert(p.last() + x =~= p.last());
        assert(p.update(p.len() - 1, p.last() + x) =~= p);
    } else {
        let x1 = x.drop_last();
        assert(!x1.contains(sep)) by {
            if x1.contains(sep) {
                let i = choose|i: int| 0 <= i < x1.len() && x1[i] == sep;
                assert(x[i] == sep);
            }
        }
        assert(x.last() != sep) by {
            assert(x[x.len() - 1] == x.last());
        }
        lemma_split_plain(s, x1, sep);
        assert((s + x).drop_last() =~= s + x1);
        assert((s + x).last() == x.last());
        let q = split_on(s + x1, sep);
        assert(q.last() == p.last() + x1);
        assert((p.last() + x1).push(x.last()) =~= p.last() + x);
        assert(q.update(q.len() - 1, q.last().push(x.last())) =~= p.update(
            p.len() - 1,
            p.last() + x,
        ));
    }
}

/// Text made of whole lines, each without the separator, splits back into
/// those lines and one empty piece after the last separator.
pub proof fn lemma_split_lines(ls: Seq<Seq<char>>, sep: char)
    requires
        forall|i: int| 0 <= i < ls.len() ==> !(#[trigger] ls[i]).contains(sep),
    ensures
        split_on(concat(ls.map_values(|l: Seq<char>| l.push(sep))), sep) == ls.push(seq![]),
    decreases ls.len(),
{
    let ms = ls.map_values(|l: Seq<char>| l.push(sep));
    if ls.len() == 0 {
        assert(concat(ms) =~= Seq::<char>::empty());
        assert(split_on(Seq::<char>::empty(), sep) =~= ls.push(seq![]));
    } else {
        let l1 = ls.drop_last();
        let l = ls.last();
        lemma_split_lines(l1, sep);
        assert(ms.drop_last() =~= l1.map_values(|l: Seq<char>| l.push(sep)));
        let c1 = concat(l1.map_values(|l: Seq<char>| l.push(sep)));
        assert(concat(ms) =~= c1 + l + seq![sep]);
        assert(!l.contains(sep));
        lemma_split_plain(c1, l, sep);
        assert((c1 + l + seq![sep]).drop_last() =~= c1 + l);
        assert(split_on(c1 + l, sep) =~= l1.push(seq![]).update(l1.len() as int, Seq::<char>::empty() + l));
        assert(l1.push(seq![]).update(l1.len() as int, Seq::<char>::empty() + l) =~= ls);
    }
}

/// No piece of a split holds the separator.
pub proof fn lemma_split_pieces(s: Seq<char>, sep: char)
    ensures
        forall|i: int| 0 <= i < split_on(s, sep).len() ==> !(#[trigger] split_on(s, sep)[i]).contains(sep),
    decreases s.len(),
{
    if s.len() > 0 {
        lemma_split_pieces(s.drop_last(), sep);
        lemma_split_nonempty(s.drop_last(), sep);
        let p = split_on(s.drop_last(), sep);
        if s.last() != sep {
            let q = p.update(p.len() - 1, p.last().push(s.last()));
            assert forall|i: int| 0 <= i < q.len() implies !(#[trigger] q[i]).contains(sep) by {
                if i == p.len() - 1 {
                    if q[i].contains(sep) {
                        let m = choose|m: int| 0 <= m < q[i].len() && q[i][m] == sep;
                        if m < p.last().len() {
                            assert(p.last()[m] == sep);
                            assert(p[p.len() - 1].contains(sep));
                        }
                    }
                }
            }
        } else {
            let q = p.push(seq![]);
            assert forall|i: int| 0 <= i < q.len() implies !(#[trigger] q[i]).contains(sep) by {
                if i < p.len() {
                    assert(q[i] == p[i]);
                }
            }
        }
    }
}

/// Two texts without the separator make a text without it.
pub proof fn lemma_no_sep_concat(a: Seq<char>, b: Seq<char>, sep: char)
    requires
        !a.contains(sep),
        !b.contains(sep),
    ensures
        !(a + b).contains(sep),
{
    if (a + b).contains(sep) {
        let m = choose|m: int| 0 <= m < (a + b).len() && (a + b)[m] == sep;
        if m < a.len() {
            assert(a[m] == sep);
        } else {
            assert(b[m - a.len()] == sep);
        }
    }
}

/// Indentation holds no line feed.
pub proof fn lemma_indentation_no_newline(k: nat)
    ensures
        !indentation(k).contains('\n'),
{
    lemma_indentation_spaces(k);
    if indentation(k).contains('\n') {
        let m = choose|m: int| 0 <= m < indentation(k).len() && indentation(k)[m] == '\n';
        assert(indentation(k)[m] == ' ');
    }
}

/// Whether `t` is a non-empty run of decimal digits.
pub open spec fn is_digits(t: Seq<char>) -> bool {
    t.len() > 0 && forall|i: int| 0 <= i < t.len() ==> '0' <= #[trigger] t[i] <= '9'
}

/// The number a run of decimal digits stands for.
pub open spec fn digits_value(t: Seq<char>) -> int
    decreases t.len(),
{
    if t.len() == 0 {
        0
    } else {
        digits_value(t.drop_last()) * 10 + (t.last() as int - '0' as int)
    }
}

/// Whether `t` is a decimal numeral, with a leading minus for a negative
/// number, that reads as `a`.
pub open spec fn reads_as(t: Seq<char>, a: int) -> bool {
    if t.len() > 0 && t[0] == '-' {
        is_digits(t.skip(1)) && digits_value(t.skip(1)) == -a
    } else {
        is_digits(t) && digits_value(t) == a
    }
}

/// A decimal text is made of digits and reads back as its number.
pub proof fn lemma_decimal_reads(n: nat)
    ensures
        is_digits(decimal(n)),
        digits_value(decimal(n)) == n,
    decreases n,
{
    let d = (n % 10) as nat;
    assert(digit_char(d) as int == d + 48);
    assert('0' as int == 48);
    assert(decimal(n).last() == digit_char(d));
    if n < 10 {
        assert(decimal(n).drop_last() =~= Seq::<char>::empty());
        assert(digits_value(decimal(n)) == digits_value(decimal(n).drop_last()) * 10 + (
        decimal(n).last() as int - '0' as int));
    } else {
        lemma_decimal_reads(n / 10);
        assert(decimal(n).drop_last() =~= decimal(n / 10));
        assert(n == (n / 10) * 10 + n % 10);
        assert(digits_value(decimal(n)) == digits_value(decimal(n / 10)) * 10 + d);
        assert forall|i: int| 0 <= i < decimal(n).len() implies '0' <= #[trigger] decimal(n)[i] <= '9' by {
            if i < decimal(n / 10).len() {
                assert(decimal(n)[i] == decimal(n / 10)[i]);
            }
        }
    }
}

/// A signed decimal text reads back as its number.
pub proof fn lemma_signed_decimal_reads(i: int)
    ensures
        reads_as(signed_decimal(i), i),
{
    if i < 0 {
        lemma_decimal_reads((-i) as nat);
        assert(signed_decimal(i).skip(1) =~= decimal((-i) as nat));
    } else {
        lemma_decimal_reads(i as nat);
        assert(decimal(i as nat)[0] != '-');
    }
}

// ---------------------------------------------------------------------------
// Executable helpers
// ---------------------------------------------------------------------------

/// Appends one character to a string (`String::push`).
#[verifier::external_body]
pub(crate) fn push_char(s: &mut String, c: char)
    ensures
        final(s)@ == old(s)@.push(c),
{
    s.push(c)
}

/// The characters of `s`, in order.
pub fn chars_of(s: &str) -> (v: Vec<char>)
    ensures
        v@ == s@,
{
    let mut v: Vec<char> = Vec::new();
    for c in it: s.chars()
        invariant
            v@ == it.seq().take(it.index() as int),
    {
        v.push(c);
    }
    v
}

/// Whether `a` and `b` hold the same characters.
pub fn same_text(a: &str, b: &str) -> (r: bool)
    ensures
        r == (a@ == b@),
{
    let x = chars_of(a);
    let y = chars_of(b);
    if x.len() != y.len() {
        return false;
    }
    let mut i: usize = 0;
    while i < x.len()
        invariant
            x@ == a@,
            y@ == b@,
            x@.len() == y@.len(),
            i <= x@.len(),
            x@.take(i as int) == y@.take(i as int),
        decreases x@.len() - i,
    {
        if x[i] != y[i] {
            assert(x@[i as int] != y@[i as int]);
            return false;
        }
        assert(x@.take(i as int + 1) =~= x@.take(i as int).push(x@[i as int]));
        assert(y@.take(i as int + 1) =~= y@.take(i as int).push(y@[i as int]));
        i = i + 1;
    }
    assert(x@.take(i as int) =~= x@);
    assert(y@.take(i as int) =~= y@);
    true
}

/// Appends the characters of `v` to `s`.
pub fn push_chars(s: &mut String, v: &Vec<char>)
    ensures
        final(s)@ == old(s)@ + v@,
{
    let n = v.len();
    let mut i: usize = 0;
    while i < n
        invariant
            n == v@.len(),
            i <= n,
            s@ == old(s)@ + v@.take(i as int),
        decreases n - i,
    {
        push_char(s, v[i]);
        i = i + 1;
        assert(v@.take(i as int) =~= v@.take((i - 1) as int).push(v@[i - 1]));
    }
    assert(v@.take(n as int) =~= v@);
}

/// Appends the first `m` characters of `v` to `s`.
pub fn push_char_prefix(s: &mut String, v: &Vec<char>, m: usize)
    requires
        m <= v@.len(),
    ensures
        final(s)@ == old(s)@ + v@.take(m as int),
{
    let mut i: usize = 0;
    while i < m
        invariant
            m <= v@.len(),
            i <= m,
            s@ == old(s)@ + v@.take(i as int),
        decreases m - i,
    {
        push_char(s, v[i]);
        i = i + 1;
        assert(v@.take(i as int) =~= v@.take((i - 1) as int).push(v@[i - 1]));
    }
}

/// Whether `c` occurs in `v`.
pub fn contains_char(v: &Vec<char>, c: char) -> (r: bool)
    ensures
        r == v@.contains(c),
{
    let n = v.len();
    let mut i: usize = 0;
    while i < n
        invariant
            n == v@.len(),
            i <= n,
            forall|j: int| 0 <= j < i ==> v@[j] != c,
        decreases n - i,
    {
        if v[i] == c {
            assert(v@[i as int] == c);
            return true;
        }
        i = i + 1;
    }
    false
}

/// Appends the decimal representation of `n`.
pub fn push_decimal(s: &mut String, n: u64)
    ensures
        final(s)@ == old(s)@ + decimal(n as nat),
    decreases n,
{
    if n >= 10 {
        push_decimal(s, n / 10);
    }
    let d: u8 = (n % 10) as u8;
    push_char(s, (48 + d) as char);
}

/// Appends the decimal representation of `i`, with a minus sign if negative.
pub fn push_signed_decimal(s: &mut String, i: i64)
    ensures
        final(s)@ == old(s)@ + signed_decimal(i as int),
{
    if i < 0 {
        push_char(s, '-');
        let m: i128 = -(i as i128);
        push_decimal(s, m as u64);
        assert(old(s)@ + signed_decimal(i as int) =~= old(s)@.push('-') + decimal((-i) as nat));
    } else {
        push_decimal(s, i as u64);
    }
}

/// Appends `k` levels of indentation.
pub fn push_indentation(s: &mut String, k: u16)
    ensures
        final(s)@ == old(s)@ + indentation(k as nat),
{
    let mut i: u16 = 0;
    while i < k
        invariant
            i <= k,
            s@ == old(s)@ + indentation(i as nat),
        decreases k - i,
    {
        push_char(s, ' ');
        push_char(s, ' ');
        i = i + 1;
        assert(s@ =~= old(s)@ + indentation(i as nat));
    }
}

/// The words of `v` (see [`ascii_words`]).
pub fn words_of(v: &Vec<char>) -> (ws: Vec<Vec<char>>)
    ensures
        views(ws@) == ascii_words(v@),
{
    let n = v.len();
    let mut ws: Vec<Vec<char>> = Vec::new();
    let mut i: usize = 0;
    while i < n
        invariant
            n == v@.len(),
            i <= n,
            views(ws@) == ascii_words(v@.take(i as int)),
        decreases n - i,
    {
        let c = v[i];
        let ghost t = v@.take(i as int);
        let ghost t1 = v@.take(i + 1);
        assert(t1.drop_last() =~= t);
        assert(t1.last() == c);
        let space = c == ' ' || c == '\t' || c == '\n' || c == '\x0C' || c == '\r';
        if space {
        } else if i == 0 || {
            let p = v[i - 1];
            p == ' ' || p == '\t' || p == '\n' || p == '\x0C' || p == '\r'
        } {
            let mut w: Vec<char> = Vec::new();
            w.push(c);
            ws.push(w);
            assert(views(ws@) =~= ascii_words(t).push(seq![c]));
        } else {
            assert(t1[t1.len() - 2] == v@[i - 1]);
            proof {
                lemma_words_shape(t);
                assert(t.last() == v@[i - 1]);
            }
            let ghost before = views(ws@);
            let mut w = ws.pop().unwrap();
            w.push(c);
            ws.push(w);
            assert(views(ws@) =~= before.update(before.len() - 1, before.last().push(c)));
        }
        i = i + 1;
    }
    assert(v@.take(n as int) =~= v@);
    ws
}

/// Appends the words of `ws` separated by single spaces, each followed by a
/// dot and `postfix` when one is given.
pub fn push_joined(s: &mut String, ws: &Vec<Vec<char>>, postfix: Option<&Vec<char>>)
    ensures
        final(s)@ == old(s)@ + join_words(
            match postfix {
                Some(p) => postfixed(views(ws@), p@),
                None => views(ws@),
            },
        ),
{
    let ghost target = match postfix {
        Some(p) => postfixed(views(ws@), p@),
        None => views(ws@),
    };
    let n = ws.len();
    let mut i: usize = 0;
    while i < n
        invariant
            n == ws@.len(),
            n == target.len(),
            i <= n,
            target == match postfix {
                Some(p) => postfixed(views(ws@), p@),
                None => views(ws@),
            },
            s@ == old(s)@ + join_words(target.take(i as int)),
        decreases n - i,
    {
        let ghost before = s@;
        if i > 0 {
            push_char(s, ' ');
        }
        push_chars(s, &ws[i]);
        match postfix {
            Some(p) => {
                push_char(s, '.');
                push_chars(s, p);
            },
            None => {},
        }
        proof {
            assert(views(ws@)[i as int] == ws@[i as int]@);
            assert(target.take(i + 1) =~= target.take(i as int).push(target[i as int]));
            lemma_join_push(target.take(i as int), target[i as int]);
        }
        i = i + 1;
    }
    assert(target.take(n as int) =~= target);
}

/// The pieces of `v` between occurrences of `sep` (see [`split_on`]).
pub fn split_chars(v: &Vec<char>, sep: char) -> (ps: Vec<Vec<char>>)
    ensures
        views(ps@) == split_on(v@, sep),
{
    let n = v.len();
    let mut ps: Vec<Vec<char>> = Vec::new();
    ps.push(Vec::new());
    assert(views(ps@) =~= split_on(v@.take(0), sep));
    let mut i: usize = 0;
    while i < n
        invariant
            n == v@.len(),
            i <= n,
            views(ps@) == split_on(v@.take(i as int), sep),
        decreases n - i,
    {
        let c = v[i];
        let ghost t = v@.take(i as int);
        assert(v@.take(i + 1).drop_last() =~= t);
        proof {
            lemma_split_nonempty(t, sep);
        }
        let ghost before = views(ps@);
        if c == sep {
            ps.push(Vec::new());
            assert(views(ps@) =~= before.push(seq![]));
        } else {
            let mut w = ps.pop().unwrap();
            w.push(c);
            ps.push(w);
            assert(views(ps@) =~= before.update(before.len() - 1, before.last().push(c)));
        }
        i = i + 1;
    }
    assert(v@.take(n as int) =~= v@);
    ps
}

/// `v` with every backslash-quote pair replaced by two quotes (see
/// [`escape_quotes`]), appended to `s`.
pub fn push_escaped_quotes(s: &mut String, v: &Vec<char>)
    ensures
        final(s)@ == old(s)@ + escape_quotes(v@),
{
    let n = v.len();
    let mut i: usize = 0;
    assert(v@.skip(0) =~= v@);
    while i < n
        invariant
            n == v@.len(),
            i <= n,
            old(s)@ + escape_quotes(v@) == s@ + escape_quotes(v@.skip(i as int)),
        decreases n - i,
    {
        let ghost rest = v@.skip(i as int);
        if i + 1 < n && v[i] == '\\' && v[i + 1] == '\'' {
            push_char(s, '\'');
            push_char(s, '\'');
            assert(rest.skip(2) =~= v@.skip(i + 2));
            i = i + 2;
        } else {
            push_char(s, v[i]);
            assert(rest.skip(1) =~= v@.skip(i + 1));
            proof {
                if rest.len() < 2 {
                    assert(escape_quotes(rest.skip(1)) =~= seq![]);
                    assert(rest =~= seq![rest[0]]);
                }
            }
            i = i + 1;
        }
    }
    assert(v@.skip(n as int) =~= seq![]);
}

} // verus!
