//! The parts of code generation that work on plain values.
//!
//! Names: a context name starts with the rule's name, followed by its
//! arguments (URL-safe base64, so that any argument text is safe in a name),
//! then a per-rule counter and, inside a branch point, the branch point's
//! name. The counters live in hash maps keyed by the rule's id, so that every
//! name created for a rule is new.
//!
//! Matches: the scope of a match is worked out from the rules on its match
//! stack; the matches and contexts of a fixed shape that code generation
//! emits are built here.
//!
//! Terminals: a count of each regex across lookaheads, and the terminals of
//! one lookahead grouped by regex in order of first occurrence.
use vstd::prelude::*;

use crate::arena::alloc_str;
use crate::sublime_syntax::{
    lemma_extended_normal, scope_concat, Context, ContextChange, ContextPattern, Match, Pattern,
    Scope, ScopeClear,
};
use crate::text::{
    ascii_words, decimal, lemma_words_split_at, normalize_space, push_char, push_decimal,
    same_text,
};
use base64::Engine;
use bumpalo::Bump;
use vstd::utf8::encode_utf8;

verus! {

// ---------------------------------------------------------------------------
// Base64 (RFC 4648, URL-safe alphabet, no padding)
// ---------------------------------------------------------------------------

/// The URL-safe base64 digit for a six-bit value.
pub open spec fn base64_digit(v: nat) -> char {
    if v < 26 {
        ((v + 65) as u8) as char
    } else if v < 52 {
        ((v - 26 + 97) as u8) as char
    } else if v < 62 {
        ((v - 52 + 48) as u8) as char
    } else if v == 62 {
        '-'
    } else {
        '_'
    }
}

/// The URL-safe base64 encoding of `b` without padding: each group of three
/// bytes becomes four digits, a final group of two bytes three digits, and a
/// final single byte two digits.
pub open spec fn base64_url_no_pad(b: Seq<u8>) -> Seq<char>
    decreases b.len(),
{
    if b.len() == 0 {
        seq![]
    } else if b.len() == 1 {
        seq![base64_digit(b[0] as nat / 4), base64_digit((b[0] as nat % 4) * 16)]
    } else if b.len() == 2 {
        seq![
            base64_digit(b[0] as nat / 4),
            base64_digit((b[0] as nat % 4) * 16 + b[1] as nat / 16),
            base64_digit((b[1] as nat % 16) * 4),
        ]
    } else {
        seq![
            base64_digit(b[0] as nat / 4),
            base64_digit((b[0] as nat % 4) * 16 + b[1] as nat / 16),
            base64_digit((b[1] as nat % 16) * 4 + b[2] as nat / 64),
            base64_digit(b[2] as nat % 64),
        ] + base64_url_no_pad(b.skip(3))
    }
}

/// Appends the URL-safe base64 encoding of `bytes`, without padding, to
/// `output`, with `base64::engine::general_purpose::URL_SAFE_NO_PAD` and
/// `Engine::encode_string`. The contract claims that the engine appends
/// exactly the RFC 4648 encoding with the URL-safe alphabet (`-` and `_` for
/// 62 and 63) and no `=` padding, and leaves what `output` held before.
#[verifier::external_body]
fn encode_url_safe_no_pad(bytes: &[u8], output: &mut String)
    ensures
        final(output)@ == old(output)@ + base64_url_no_pad(bytes@),
{
    base64::engine::general_purpose::URL_SAFE_NO_PAD.encode_string(bytes, output);
}

// ---------------------------------------------------------------------------
// Counts, in a hashbrown map
// ---------------------------------------------------------------------------

/// Counts keyed by integer: per rule, how many names of a kind it has; per
/// regex, how often it occurs. A `hashbrown::HashMap`, held here because its
/// allocator parameter cannot be declared; [`count_map`] names what it holds.
#[verifier::external_body]
pub struct CountMap {
    map: hashbrown::HashMap<u64, usize>,
}

/// What a [`CountMap`] holds: the count of each key that has one.
pub uninterp spec fn count_map(t: CountMap) -> Map<u64, usize>;

/// An empty map (`hashbrown::HashMap::new`). The contract claims the new
/// map holds no entries.
#[verifier::external_body]
fn count_map_new() -> (table: CountMap)
    ensures
        count_map(table).dom().is_empty(),
{
    CountMap { map: hashbrown::HashMap::new() }
}

/// The count of `key`, if it has one (`hashbrown::HashMap::get`). The
/// contract claims the lookup returns the entry for `key` exactly when the
/// map holds one.
#[verifier::external_body]
fn count_map_get(t: &CountMap, key: u64) -> (r: Option<usize>)
    ensures
        r == (if count_map(*t).dom().contains(key) {
            Some(count_map(*t)[key])
        } else {
            None
        }),
{
    t.map.get(&key).copied()
}

/// Sets the count of `key` (`hashbrown::HashMap::insert`). The contract
/// claims the entry for `key` is replaced or added and every other entry is
/// left as it was.
#[verifier::external_body]
fn count_map_insert(t: &mut CountMap, key: u64, count: usize)
    ensures
        count_map(*final(t)) == count_map(*old(t)).insert(key, count),
{
    t.map.insert(key, count);
}

impl CountMap {
    /// The counts, as a map.
    pub closed spec fn counts(&self) -> Map<u64, usize> {
        count_map(*self)
    }

    /// The count of `key`, if it has one.
    pub fn get(&self, key: u64) -> (r: Option<usize>)
        ensures
            r == (if self.counts().dom().contains(key) {
                Some(self.counts()[key])
            } else {
                None
            }),
    {
        count_map_get(self, key)
    }
}

// ---------------------------------------------------------------------------
// Names
// ---------------------------------------------------------------------------

/// A rule as names are made for it: an id that tells rules apart, the
/// rule's name and, for a rule instantiated with arguments, their text.
#[derive(Clone, Copy, Debug, PartialEq, Eq)]
pub struct RuleKey<'a> {
    pub id: u64,
    pub name: &'a str,
    pub arguments: Option<&'a str>,
}

/// The name that stands for a rule key: the rule's name, then `@` and the
/// base64 of the arguments' UTF-8 bytes when it has arguments.
pub open spec fn rule_key_name(key: RuleKey) -> Seq<char> {
    key.name@ + match key.arguments {
        Some(a) => seq!['@'] + base64_url_no_pad(encode_utf8(a@)),
        None => seq![],
    }
}

/// The name of the `index`-th context of a rule, inside the branch point
/// `branch_point` if one is given.
pub open spec fn context_name(key: RuleKey, index: nat, branch_point: Option<Seq<char>>) -> Seq<
    char,
> {
    rule_key_name(key) + seq!['|'] + decimal(index) + match branch_point {
        Some(b) => seq!['|'] + b,
        None => seq![],
    }
}

/// The name of the `index`-th branch point of a rule.
pub open spec fn branch_point_name(key: RuleKey, index: nat) -> Seq<char> {
    key.name@ + seq!['@'] + decimal(index)
}

/// The name of the `index`-th entry context of a rule, whose list of
/// contexts ends in `last_context`.
pub open spec fn entry_context_name(last_context: Seq<char>, index: nat) -> Seq<char> {
    last_context + "|entry-"@ + decimal(index)
}

/// The name of the context that includes branch point `branch_point`.
pub open spec fn include_context_name(branch_point: Seq<char>) -> Seq<char> {
    "include!"@ + branch_point
}

/// The count of `id` in `counts`; zero for an id not yet seen.
pub open spec fn count_of(counts: Map<u64, usize>, id: u64) -> nat {
    if counts.dom().contains(id) {
        counts[id] as nat
    } else {
        0
    }
}

/// Returns the name that stands for `key` (see [`rule_key_name`]).
pub fn build_rule_key_name(key: &RuleKey) -> (r: String)
    ensures
        r@ == rule_key_name(*key),
{
    let mut result = String::new();
    result.append(key.name);
    if let Some(arguments) = key.arguments {
        push_char(&mut result, '@');
        encode_url_safe_no_pad(arguments.as_bytes(), &mut result);
    }
    result
}

/// The naming state of code generation: per rule, how many contexts, how
/// many branch points and how many entry contexts were named so far, and the
/// arena that names are allocated in.
pub struct NameState<'a> {
    context_counts: CountMap,
    branch_point_counts: CountMap,
    entry_context_counts: CountMap,
    allocator: &'a Bump,
}

impl<'a> NameState<'a> {
    /// How many contexts each rule has had named.
    pub closed spec fn context_counts(&self) -> Map<u64, usize> {
        count_map(self.context_counts)
    }

    /// How many branch points each rule has had named.
    pub closed spec fn branch_point_counts(&self) -> Map<u64, usize> {
        count_map(self.branch_point_counts)
    }

    /// How many entry contexts each rule has had named.
    pub closed spec fn entry_context_counts(&self) -> Map<u64, usize> {
        count_map(self.entry_context_counts)
    }

    /// A state in which no rule has any names yet.
    pub fn new(allocator: &'a Bump) -> (r: Self)
        ensures
            r.context_counts() == Map::<u64, usize>::empty(),
            r.branch_point_counts() == Map::<u64, usize>::empty(),
            r.entry_context_counts() == Map::<u64, usize>::empty(),
    {
        let context_counts = count_map_new();
        let branch_point_counts = count_map_new();
        let entry_context_counts = count_map_new();
        assert(count_map(context_counts) =~= Map::<u64, usize>::empty());
        assert(count_map(branch_point_counts) =~= Map::<u64, usize>::empty());
        assert(count_map(entry_context_counts) =~= Map::<u64, usize>::empty());
        NameState { context_counts, branch_point_counts, entry_context_counts, allocator }
    }

    /// Returns a new context name for `key` (inside `branch_point`, if one is
    /// given), numbered by the rule's context count, which goes up by one.
    pub fn create_uncached_context_name(&mut self, key: &RuleKey, branch_point: Option<&str>) -> (r:
        &'a str)
        requires
            count_of(old(self).context_counts(), key.id) < usize::MAX,
        ensures
            r@ == context_name(
                *key,
                count_of(old(self).context_counts(), key.id),
                match branch_point {
                    Some(b) => Some(b@),
                    None => None,
                },
            ),
            final(self).context_counts() == old(self).context_counts().insert(
                key.id,
                (count_of(old(self).context_counts(), key.id) + 1) as usize,
            ),
            final(self).branch_point_counts() == old(self).branch_point_counts(),
            final(self).entry_context_counts() == old(self).entry_context_counts(),
    {
        let mut result = build_rule_key_name(key);
        let index = match count_map_get(&self.context_counts, key.id) {
            Some(count) => {
                count_map_insert(&mut self.context_counts, key.id, count + 1);
                count
            },
            None => {
                count_map_insert(&mut self.context_counts, key.id, 1);
                0
            },
        };
        push_char(&mut result, '|');
        push_decimal(&mut result, index as u64);
        if let Some(branch_point) = branch_point {
            push_char(&mut result, '|');
            result.append(branch_point);
        }
        alloc_str(self.allocator, result.as_str())
    }

    /// Returns a new branch point name for `key`, numbered by the rule's
    /// branch point count after it goes up by one.
    pub fn create_branch_point_name(&mut self, key: &RuleKey) -> (r: &'a str)
        requires
            count_of(old(self).branch_point_counts(), key.id) < usize::MAX,
        ensures
            r@ == branch_point_name(*key, count_of(old(self).branch_point_counts(), key.id) + 1),
            final(self).branch_point_counts() == old(self).branch_point_counts().insert(
                key.id,
                (count_of(old(self).branch_point_counts(), key.id) + 1) as usize,
            ),
            final(self).context_counts() == old(self).context_counts(),
            final(self).entry_context_counts() == old(self).entry_context_counts(),
    {
        let index = match count_map_get(&self.branch_point_counts, key.id) {
            Some(count) => {
                count_map_insert(&mut self.branch_point_counts, key.id, count + 1);
                count + 1
            },
            None => {
                count_map_insert(&mut self.branch_point_counts, key.id, 1);
                1
            },
        };
        let mut result = String::new();
        result.append(key.name);
        push_char(&mut result, '@');
        push_decimal(&mut result, index as u64);
        alloc_str(self.allocator, result.as_str())
    }

    /// Returns a new entry context name for `key`, made of the last context
    /// the entry context sets and the rule's entry context count, which goes
    /// up by one.
    pub fn create_entry_context_name(&mut self, key: &RuleKey, last_context: &str) -> (r: &'a str)
        requires
            count_of(old(self).entry_context_counts(), key.id) < usize::MAX,
        ensures
            r@ == entry_context_name(
                last_context@,
                count_of(old(self).entry_context_counts(), key.id),
            ),
            final(self).entry_context_counts() == old(self).entry_context_counts().insert(
                key.id,
                (count_of(old(self).entry_context_counts(), key.id) + 1) as usize,
            ),
            final(self).context_counts() == old(self).context_counts(),
            final(self).branch_point_counts() == old(self).branch_point_counts(),
    {
        let index = match count_map_get(&self.entry_context_counts, key.id) {
            Some(count) => {
                count_map_insert(&mut self.entry_context_counts, key.id, count + 1);
                count
            },
            None => {
                count_map_insert(&mut self.entry_context_counts, key.id, 1);
                0
            },
        };
        let mut result = String::new();
        result.append(last_context);
        result.append("|entry-");
        push_decimal(&mut result, index as u64);
        alloc_str(self.allocator, result.as_str())
    }

    /// Returns the name of the context that includes `branch_point`.
    pub fn create_branch_point_include_context_name(&self, branch_point: &str) -> (r: &'a str)
        ensures
            r@ == include_context_name(branch_point@),
    {
        let mut result = String::new();
        result.append("include!");
        result.append(branch_point);
        alloc_str(self.allocator, result.as_str())
    }
}

// ---------------------------------------------------------------------------
// Names do not repeat
// ---------------------------------------------------------------------------

/// A decimal text is never empty.
proof fn lemma_decimal_nonempty(n: nat)
    ensures
        decimal(n).len() >= 1,
    decreases n,
{
    if n >= 10 {
        lemma_decimal_nonempty(n / 10);
    }
}

/// Different numbers have different decimal texts.
pub proof fn lemma_decimal_injective(a: nat, b: nat)
    requires
        decimal(a) == decimal(b),
    ensures
        a == b,
    decreases a,
{
    if a < 10 && b < 10 {
        assert(decimal(a)[0] == digit_char_of(a));
        assert(digit_char_of(a) as int == a + 48);
        assert(digit_char_of(b) as int == b + 48);
    } else if a < 10 {
        lemma_decimal_nonempty(b / 10);
        assert(decimal(b).len() >= 2);
    } else if b < 10 {
        lemma_decimal_nonempty(a / 10);
        assert(decimal(a).len() >= 2);
    } else {
        assert(decimal(a).drop_last() == decimal(a / 10));
        assert(decimal(b).drop_last() == decimal(b / 10));
        lemma_decimal_injective(a / 10, b / 10);
        let da = (a % 10) as nat;
        let db = (b % 10) as nat;
        assert(decimal(a).last() == digit_char_of(da));
        assert(decimal(b).last() == digit_char_of(db));
        assert(digit_char_of(da) as int == da + 48);
        assert(digit_char_of(db) as int == db + 48);
    }
}

/// The decimal digit of `d < 10`, as [`decimal`] writes it.
spec fn digit_char_of(d: nat) -> char {
    crate::text::digit_char(d)
}

/// In `p + x + s == p + y + s`, the middle parts are equal.
proof fn lemma_cancel_middle(p: Seq<char>, x: Seq<char>, y: Seq<char>, s: Seq<char>)
    requires
        p + x + s == p + y + s,
    ensures
        x == y,
{
    let l = p + x + s;
    let r = p + y + s;
    assert(l.len() == p.len() + x.len() + s.len());
    assert(r.len() == p.len() + y.len() + s.len());
    assert(x.len() == y.len());
    assert(x =~= l.subrange(p.len() as int, (p.len() + x.len()) as int));
    assert(y =~= r.subrange(p.len() as int, (p.len() + y.len()) as int));
}

/// Two contexts of one rule with different counter values have different
/// names, inside the same branch point or outside any: the names that one
/// [`NameState`] creates for a rule never repeat, since each call moves the
/// rule's counter up by one.
pub proof fn lemma_context_names_distinct(
    key: RuleKey,
    i: nat,
    j: nat,
    branch_point: Option<Seq<char>>,
)
    requires
        i != j,
    ensures
        context_name(key, i, branch_point) != context_name(key, j, branch_point),
{
    let p = rule_key_name(key) + seq!['|'];
    let s = match branch_point {
        Some(b) => seq!['|'] + b,
        None => seq![],
    };
    if context_name(key, i, branch_point) == context_name(key, j, branch_point) {
        assert(context_name(key, i, branch_point) =~= p + decimal(i) + s);
        assert(context_name(key, j, branch_point) =~= p + decimal(j) + s);
        lemma_cancel_middle(p, decimal(i), decimal(j), s);
        lemma_decimal_injective(i, j);
    }
}

/// Two branch points of one rule with different counter values have
/// different names.
pub proof fn lemma_branch_point_names_distinct(key: RuleKey, i: nat, j: nat)
    requires
        i != j,
    ensures
        branch_point_name(key, i) != branch_point_name(key, j),
{
    let p = key.name@ + seq!['@'];
    if branch_point_name(key, i) == branch_point_name(key, j) {
        assert(branch_point_name(key, i) =~= p + decimal(i) + Seq::<char>::empty());
        assert(branch_point_name(key, j) =~= p + decimal(j) + Seq::<char>::empty());
        lemma_cancel_middle(p, decimal(i), decimal(j), Seq::<char>::empty());
        lemma_decimal_injective(i, j);
    }
}

/// Two entry contexts of one rule that end in the same context, with
/// different counter values, have different names.
pub proof fn lemma_entry_context_names_distinct(last_context: Seq<char>, i: nat, j: nat)
    requires
        i != j,
    ensures
        entry_context_name(last_context, i) != entry_context_name(last_context, j),
{
    let p = last_context + "|entry-"@;
    if entry_context_name(last_context, i) == entry_context_name(last_context, j) {
        assert(entry_context_name(last_context, i) =~= p + decimal(i) + Seq::<char>::empty());
        assert(entry_context_name(last_context, j) =~= p + decimal(j) + Seq::<char>::empty());
        lemma_cancel_middle(p, decimal(i), decimal(j), Seq::<char>::empty());
        lemma_decimal_injective(i, j);
    }
}

// ---------------------------------------------------------------------------
// The scope of a match
// ---------------------------------------------------------------------------

/// `acc` extended by the scopes in `stack`, taken from the last entry to the
/// first; an entry without a scope (one that is not a rule) is passed over.
pub open spec fn stack_scope(acc: Seq<char>, stack: Seq<Option<Scope>>) -> Seq<char>
    decreases stack.len(),
{
    if stack.len() == 0 {
        acc
    } else {
        let next = match stack.last() {
            Some(s) => scope_concat(acc, s@),
            None => acc,
        };
        stack_scope(next, stack.drop_last())
    }
}

/// The scope of a terminal's match: the scope of the rule the match is made
/// in (if any), extended by the scope of each rule on the terminal's match
/// stack from the top of the stack down, then by the terminal's own scope.
/// `stack` holds, per stack entry, the scope of its rule, or `None` for an
/// entry that is not a rule.
pub fn scope_for_match_stack<'a>(
    rule_scope: Option<Scope<'a>>,
    stack: &[Option<Scope<'a>>],
    terminal_scope: Scope<'a>,
    allocator: &'a Bump,
) -> (r: Scope<'a>)
    ensures
        r@ == scope_concat(
            stack_scope(
                match rule_scope {
                    Some(s) => s@,
                    None => Seq::<char>::empty(),
                },
                stack@,
            ),
            terminal_scope@,
        ),
{
    let mut scope = match rule_scope {
        Some(s) => s,
        None => Scope::empty(),
    };
    let ghost start = scope@;
    let mut i = stack.len();
    assert(stack@.take(i as int) =~= stack@);
    while i > 0
        invariant
            i <= stack.len(),
            stack_scope(start, stack@) == stack_scope(scope@, stack@.take(i as int)),
        decreases i,
    {
        let ghost before = scope@;
        i = i - 1;
        if let Some(s) = stack[i] {
            scope = scope.extended(s, allocator);
        }
        assert(stack@.take((i + 1) as int).drop_last() =~= stack@.take(i as int));
        assert(stack@.take((i + 1) as int).last() == stack@[i as int]);
        assert(stack_scope(before, stack@.take((i + 1) as int)) == stack_scope(
            scope@,
            stack@.take(i as int),
        ));
    }
    assert(stack@.take(0) =~= Seq::<Option<Scope>>::empty());
    scope.extended(terminal_scope, allocator)
}

/// The names of the scopes in `stack`, from the last entry to the first.
pub open spec fn stack_words(stack: Seq<Option<Scope>>) -> Seq<Seq<char>>
    decreases stack.len(),
{
    if stack.len() == 0 {
        seq![]
    } else {
        (match stack.last() {
            Some(s) => ascii_words(s@),
            None => seq![],
        }) + stack_words(stack.drop_last())
    }
}

/// The names of two scopes one after the other are those of each.
proof fn lemma_scope_concat_words(a: Seq<char>, b: Seq<char>)
    ensures
        ascii_words(scope_concat(a, b)) == ascii_words(a) + ascii_words(b),
{
    if a.len() == 0 {
        assert(ascii_words(a) =~= Seq::<Seq<char>>::empty());
        assert(ascii_words(a) + ascii_words(b) =~= ascii_words(b));
    } else if b.len() == 0 {
        assert(ascii_words(b) =~= Seq::<Seq<char>>::empty());
        assert(ascii_words(a) + ascii_words(b) =~= ascii_words(a));
    } else {
        lemma_words_split_at(a, ' ', b);
    }
}

proof fn lemma_stack_scope_words(acc: Seq<char>, stack: Seq<Option<Scope>>)
    ensures
        ascii_words(stack_scope(acc, stack)) == ascii_words(acc) + stack_words(stack),
    decreases stack.len(),
{
    if stack.len() == 0 {
        assert(ascii_words(acc) + Seq::<Seq<char>>::empty() =~= ascii_words(acc));
    } else {
        let next = match stack.last() {
            Some(s) => scope_concat(acc, s@),
            None => acc,
        };
        let own = match stack.last() {
            Some(s) => ascii_words(s@),
            None => Seq::<Seq<char>>::empty(),
        };
        if let Some(s) = stack.last() {
            lemma_scope_concat_words(acc, s@);
        } else {
            assert(ascii_words(acc) + own =~= ascii_words(acc));
        }
        lemma_stack_scope_words(next, stack.drop_last());
        assert(ascii_words(acc) + own + stack_words(stack.drop_last()) =~= ascii_words(acc) + (own
            + stack_words(stack.drop_last())));
    }
}

/// Every rule on the match stack contributes its scope, whatever the other
/// entries hold: the names of a match's scope are the names of the rule's
/// scope, then those of each rule entry from the top of the stack down, then
/// those of the terminal's scope. In particular their number is the sum of
/// the numbers of names of all of these.
pub proof fn lemma_match_scope_words(
    rule_scope: Seq<char>,
    stack: Seq<Option<Scope>>,
    terminal_scope: Seq<char>,
)
    ensures
        ascii_words(scope_concat(stack_scope(rule_scope, stack), terminal_scope)) == ascii_words(
            rule_scope,
        ) + stack_words(stack) + ascii_words(terminal_scope),
        ascii_words(scope_concat(stack_scope(rule_scope, stack), terminal_scope)).len()
            == ascii_words(rule_scope).len() + stack_words(stack).len() + ascii_words(
            terminal_scope,
        ).len(),
{
    lemma_stack_scope_words(rule_scope, stack);
    lemma_scope_concat_words(stack_scope(rule_scope, stack), terminal_scope);
}

/// Built from scopes in normal form, the scope of a match is in normal form.
pub proof fn lemma_match_scope_normal(
    rule_scope: Seq<char>,
    stack: Seq<Option<Scope>>,
    terminal_scope: Seq<char>,
)
    requires
        normalize_space(rule_scope) == rule_scope,
        forall|i: int|
            0 <= i < stack.len() && #[trigger] stack[i] is Some ==> normalize_space(stack[i]->0@)
                == stack[i]->0@,
        normalize_space(terminal_scope) == terminal_scope,
    ensures
        normalize_space(scope_concat(stack_scope(rule_scope, stack), terminal_scope))
            == scope_concat(stack_scope(rule_scope, stack), terminal_scope),
    decreases stack.len(),
{
    if stack.len() == 0 {
        lemma_extended_normal(rule_scope, terminal_scope);
    } else {
        let next = match stack.last() {
            Some(s) => scope_concat(rule_scope, s@),
            None => rule_scope,
        };
        if let Some(s) = stack.last() {
            assert(stack[stack.len() - 1] is Some);
            lemma_extended_normal(rule_scope, s@);
        }
        let rest = stack.drop_last();
        assert forall|i: int| 0 <= i < rest.len() && #[trigger] rest[i] is Some implies normalize_space(
            rest[i]->0@,
        ) == rest[i]->0@ by {
            assert(rest[i] == stack[i]);
        }
        lemma_match_scope_normal(next, rest, terminal_scope);
    }
}

// ---------------------------------------------------------------------------
// Matches and contexts of a fixed shape
// ---------------------------------------------------------------------------

/// A branch point that a context belongs to: its name, and whether a match
/// that fails in it goes back to the branch point.
#[derive(Clone, Copy, Debug, PartialEq, Eq)]
pub struct BranchPoint<'a> {
    pub name: &'a str,
    pub can_fail: bool,
}

/// Whether `branch_point` is a branch point that can fail.
pub open spec fn fails_branch_point(branch_point: Option<BranchPoint>) -> bool {
    match branch_point {
        Some(b) => b.can_fail,
        None => false,
    }
}

/// The match that ends a context where nothing else may follow. When the
/// lookahead may be empty and nothing is captured, it pops as soon as
/// anything but whitespace follows; inside a branch point that can fail, it
/// fails the branch point on anything but whitespace; otherwise it marks
/// that text with `illegal_scope`, popping unless the context captures.
pub fn illegal_end_match<'a>(
    lookahead_empty: bool,
    capture: bool,
    branch_point: Option<BranchPoint<'a>>,
    illegal_scope: Scope<'a>,
) -> (r: Match<'a>)
    ensures
        r.captures@.len() == 0,
        lookahead_empty && !capture ==> {
            &&& r.pattern@ == "(?=\\S)"@
            &&& r.scope@.len() == 0
            &&& r.change_context == ContextChange::NoChange
            &&& r.pop == 1
        },
        !(lookahead_empty && !capture) && fails_branch_point(branch_point) ==> {
            &&& r.pattern@ == "\\S"@
            &&& r.scope@.len() == 0
            &&& r.change_context == ContextChange::Fail(branch_point->0.name)
            &&& r.pop == 0
        },
        !(lookahead_empty && !capture) && !fails_branch_point(branch_point) ==> {
            &&& r.pattern@ == "\\S"@
            &&& r.scope == illegal_scope
            &&& r.change_context == ContextChange::NoChange
            &&& r.pop == (if capture {
                0u16
            } else {
                1u16
            })
        },
{
    if lookahead_empty && !capture {
        Match {
            pattern: Pattern::from("(?=\\S)"),
            scope: Scope::empty(),
            captures: &[],
            change_context: ContextChange::NoChange,
            pop: 1,
        }
    } else if branch_point.is_some() && branch_point.unwrap().can_fail {
        Match {
            pattern: Pattern::from("\\S"),
            scope: Scope::empty(),
            captures: &[],
            change_context: ContextChange::Fail(branch_point.unwrap().name),
            pop: 0,
        }
    } else {
        Match {
            pattern: Pattern::from("\\S"),
            scope: illegal_scope,
            captures: &[],
            change_context: ContextChange::NoChange,
            pop: if capture {
                0
            } else {
                1
            },
        }
    }
}

/// The match for a terminal, made in context `context_name`, that leaves the
/// context with `exit` after popping `pop_amount` contexts. A push that
/// starts with the context being popped out of pushes the rest instead and
/// pops one context less. When the match then only pops, its scope is
/// `scope` inside the context's meta content scope.
pub fn terminal_match<'a>(
    context_name: &str,
    meta_content_scope: Scope<'a>,
    scope: Scope<'a>,
    regex: &'a str,
    captures: &'a [Scope<'a>],
    exit: ContextChange<'a>,
    pop_amount: u16,
    allocator: &'a Bump,
) -> (r: Match<'a>)
    requires
        exit matches ContextChange::Push(cs) ==> pop_amount == 0 || cs@.len() > 0,
    ensures
        r.pattern == Pattern(regex),
        r.captures == captures,
        match exit {
            ContextChange::Push(cs) => if pop_amount > 0 && cs@[0]@ == context_name@ {
                &&& r.pop == pop_amount - 1
                &&& if cs@.len() > 1 {
                    (r.change_context matches ContextChange::Push(rest) && rest@ == cs@.skip(1))
                } else {
                    r.change_context == ContextChange::NoChange
                }
            } else {
                r.pop == pop_amount && r.change_context == exit
            },
            _ => r.pop == pop_amount && r.change_context == exit,
        },
        r.scope@ == (if r.change_context is NoChange && r.pop > 0 {
            scope_concat(meta_content_scope@, scope@)
        } else {
            scope@
        }),
{
    let mut exit = exit;
    let mut pop_amount = pop_amount;
    if let ContextChange::Push(contexts) = exit {
        if pop_amount > 0 && same_text(contexts[0], context_name) {
            if contexts.len() > 1 {
                let (_, rest) = contexts.split_at(1);
                exit = ContextChange::Push(rest);
            } else {
                exit = ContextChange::NoChange;
            }
            pop_amount = pop_amount - 1;
        }
    }
    let mut scope = scope;
    if let ContextChange::NoChange = exit {
        if pop_amount > 0 {
            scope = meta_content_scope.extended(scope, allocator);
        }
    }
    Match { pattern: Pattern(regex), scope, captures, change_context: exit, pop: pop_amount }
}

/// The name of the context that applies a rule's meta content scope: the
/// rule key's name followed by `|meta`.
pub fn meta_context_name(key: &RuleKey) -> (r: String)
    ensures
        r@ == rule_key_name(*key) + "|meta"@,
{
    let mut name = build_rule_key_name(key);
    name.append("|meta");
    name
}

/// The context that applies a rule's meta content scope: it sets
/// `meta_content_scope` and pops at once, without consuming anything.
pub fn meta_content_scope_context<'a>(meta_content_scope: Scope<'a>, comment: &'a str) -> (r:
    Context<'a>)
    ensures
        r.meta_content_scope == meta_content_scope,
        r.meta_scope@.len() == 0,
        r.meta_include_prototype,
        r.clear_scopes == ScopeClear::Amount(0),
        r.comment == Some(comment),
        r.matches@.len() == 1,
        r.matches@[0] matches ContextPattern::Match(m) && m.pattern@ == ""@ && m.scope@.len() == 0
            && m.captures@.len() == 0 && m.change_context == ContextChange::NoChange && m.pop == 1,
{
    let m = Match {
        pattern: Pattern::from(""),
        scope: Scope::empty(),
        captures: &[],
        change_context: ContextChange::NoChange,
        pop: 1,
    };
    Context {
        meta_content_scope,
        meta_scope: Scope::empty(),
        meta_include_prototype: true,
        clear_scopes: ScopeClear::Amount(0),
        matches: vec![ContextPattern::Match(m)],
        comment: Some(comment),
    }
}

/// The entry context for a list of contexts: it sets the context stack to
/// `contexts` without consuming anything.
pub fn entry_context<'a>(contexts: &'a [&'a str]) -> (r: Context<'a>)
    ensures
        r.meta_content_scope@.len() == 0,
        r.meta_scope@.len() == 0,
        r.meta_include_prototype,
        r.clear_scopes == ScopeClear::Amount(0),
        r.comment is None,
        r.matches@.len() == 1,
        r.matches@[0] matches ContextPattern::Match(m) && m.pattern@ == ""@ && m.scope@.len() == 0
            && m.captures@.len() == 0 && m.change_context == ContextChange::SetContexts(contexts)
            && m.pop == 0,
{
    let m = Match {
        pattern: Pattern::from(""),
        scope: Scope::empty(),
        captures: &[],
        change_context: ContextChange::SetContexts(contexts),
        pop: 0,
    };
    Context {
        meta_content_scope: Scope::empty(),
        meta_scope: Scope::empty(),
        meta_include_prototype: true,
        clear_scopes: ScopeClear::Amount(0),
        matches: vec![ContextPattern::Match(m)],
        comment: None,
    }
}

// ---------------------------------------------------------------------------
// Grouping terminals by regex
// ---------------------------------------------------------------------------
//
// A lookahead is seen here through the regexes of its terminals, in order;
// each regex is an interned symbol, an integer.

/// How often `r` occurs in `rs`.
pub open spec fn occurrences(rs: Seq<u64>, r: u64) -> nat
    decreases rs.len(),
{
    if rs.len() == 0 {
        0
    } else {
        occurrences(rs.drop_last(), r) + if rs.last() == r {
            1nat
        } else {
            0nat
        }
    }
}

/// How often `r` occurs across all of `ls`.
pub open spec fn total_occurrences(ls: Seq<Seq<u64>>, r: u64) -> nat
    decreases ls.len(),
{
    if ls.len() == 0 {
        0
    } else {
        total_occurrences(ls.drop_last(), r) + occurrences(ls.last(), r)
    }
}

/// The number of regexes across all of `ls`.
pub open spec fn total_len(ls: Seq<Seq<u64>>) -> nat
    decreases ls.len(),
{
    if ls.len() == 0 {
        0
    } else {
        total_len(ls.drop_last()) + ls.last().len()
    }
}

/// The regexes of each lookahead.
pub open spec fn regex_lists(ls: Seq<Vec<u64>>) -> Seq<Seq<u64>> {
    ls.map_values(|l: Vec<u64>| l@)
}

proof fn lemma_occurrences_le_len(rs: Seq<u64>, r: u64)
    ensures
        occurrences(rs, r) <= rs.len(),
    decreases rs.len(),
{
    if rs.len() > 0 {
        lemma_occurrences_le_len(rs.drop_last(), r);
    }
}

proof fn lemma_total_occurrences_le_len(ls: Seq<Seq<u64>>, r: u64)
    ensures
        total_occurrences(ls, r) <= total_len(ls),
    decreases ls.len(),
{
    if ls.len() > 0 {
        lemma_total_occurrences_le_len(ls.drop_last(), r);
        lemma_occurrences_le_len(ls.last(), r);
    }
}

/// Counts how often each regex occurs across the terminals of all the
/// lookaheads, given as the regexes of their terminals.
pub fn count_duplicate_regexes(lookaheads: &[Vec<u64>]) -> (r: CountMap)
    requires
        total_len(regex_lists(lookaheads@)) <= usize::MAX,
    ensures
        forall|regex: u64|
            (#[trigger] r.counts().dom().contains(regex)) == (total_occurrences(
                regex_lists(lookaheads@),
                regex,
            ) > 0),
        forall|regex: u64|
            #[trigger] r.counts().dom().contains(regex) ==> r.counts()[regex] == total_occurrences(
                regex_lists(lookaheads@),
                regex,
            ),
{
    let ghost ls = regex_lists(lookaheads@);
    let mut map = count_map_new();
    let n = lookaheads.len();
    let mut j: usize = 0;
    while j < n
        invariant
            n == lookaheads@.len(),
            ls == regex_lists(lookaheads@),
            total_len(ls) <= usize::MAX,
            j <= n,
            forall|regex: u64|
                (#[trigger] count_map(map).dom().contains(regex)) == (total_occurrences(
                    ls.take(j as int),
                    regex,
                ) > 0),
            forall|regex: u64|
                #[trigger] count_map(map).dom().contains(regex) ==> count_map(
                    map,
                )[regex] == total_occurrences(ls.take(j as int), regex),
        decreases n - j,
    {
        let terminals = &lookaheads[j];
        let ghost done = ls.take(j as int);
        let ghost cur = ls[j as int];
        assert(cur == terminals@);
        proof {
            assert(ls.take(j + 1).drop_last() =~= done);
            assert(total_len(ls.take(j + 1)) <= total_len(ls)) by {
                lemma_total_len_prefix(ls, j + 1);
            }
        }
        let m = terminals.len();
        let mut i: usize = 0;
        while i < m
            invariant
                m == cur.len(),
                cur == terminals@,
                done == ls.take(j as int),
                j < n,
                n == lookaheads@.len(),
                ls == regex_lists(lookaheads@),
                cur == ls[j as int],
                total_len(done) + cur.len() <= usize::MAX,
                i <= m,
                forall|regex: u64|
                    (#[trigger] count_map(map).dom().contains(regex)) == (total_occurrences(
                        done,
                        regex,
                    ) + occurrences(cur.take(i as int), regex) > 0),
                forall|regex: u64|
                    #[trigger] count_map(map).dom().contains(regex) ==> count_map(
                        map,
                    )[regex] == total_occurrences(done, regex) + occurrences(
                        cur.take(i as int),
                        regex,
                    ),
            decreases m - i,
        {
            let regex = terminals[i];
            proof {
                assert(cur.take(i + 1).drop_last() =~= cur.take(i as int));
                assert(cur.take(i + 1).last() == regex);
                lemma_total_occurrences_le_len(done, regex);
                lemma_occurrences_le_len(cur.take(i as int), regex);
            }
            match count_map_get(&map, regex) {
                Some(count) => {
                    count_map_insert(&mut map, regex, count + 1);
                },
                None => {
                    count_map_insert(&mut map, regex, 1);
                },
            }
            i = i + 1;
        }
        proof {
            assert(cur.take(m as int) =~= cur);
            assert(ls.take(j + 1).last() == cur);
        }
        j = j + 1;
    }
    assert(ls.take(n as int) =~= ls);
    map
}

proof fn lemma_total_len_prefix(ls: Seq<Seq<u64>>, k: int)
    requires
        0 <= k <= ls.len(),
    ensures
        total_len(ls.take(k)) <= total_len(ls),
    decreases ls.len(),
{
    if k < ls.len() {
        lemma_total_len_prefix(ls.drop_last(), k);
        assert(ls.drop_last().take(k) =~= ls.take(k));
    } else {
        assert(ls.take(k) =~= ls);
    }
}

/// `indexmap::IndexMap`, a hash map that keeps its entries in insertion
/// order. Opaque here: [`index_map_entries`] names what it holds.
#[verifier::external_type_specification]
#[verifier::external_body]
#[verifier::reject_recursive_types(K)]
#[verifier::reject_recursive_types(V)]
#[verifier::reject_recursive_types(S)]
pub struct ExIndexMap<K, V, S>(indexmap::IndexMap<K, V, S>);

/// The entries of a map from regex to terminal indexes, in the map's order.
pub uninterp spec fn index_map_entries(m: indexmap::IndexMap<u64, Vec<usize>>) -> Seq<(u64, Seq<usize>)>;

/// The position of the entry for `k` in `es` (the first, if several), or -1.
pub open spec fn entry_index(es: Seq<(u64, Seq<usize>)>, k: u64) -> int
    decreases es.len(),
{
    if es.len() == 0 {
        -1
    } else {
        let i = entry_index(es.drop_last(), k);
        if i >= 0 {
            i
        } else if es.last().0 == k {
            es.len() - 1
        } else {
            -1
        }
    }
}

/// The terminal indexes of each regex of `rs`, grouped by regex, the groups
/// in the order their regexes first occur and the indexes ascending.
pub open spec fn terminal_groups(rs: Seq<u64>) -> Seq<(u64, Seq<usize>)>
    decreases rs.len(),
{
    if rs.len() == 0 {
        seq![]
    } else {
        let g = terminal_groups(rs.drop_last());
        let r = rs.last();
        let i = entry_index(g, r);
        let n = (rs.len() - 1) as usize;
        if i >= 0 {
            g.update(i, (r, g[i].1.push(n)))
        } else {
            g.push((r, seq![n]))
        }
    }
}

/// An empty map (`indexmap::IndexMap::new`). The contract claims the new map
/// holds no entries.
#[verifier::external_body]
fn terminal_index_new() -> (m: indexmap::IndexMap<u64, Vec<usize>>)
    ensures
        index_map_entries(m).len() == 0,
{
    indexmap::IndexMap::new()
}

/// A copy of the indexes stored for `regex`, if any (`indexmap::IndexMap::get`).
/// The contract claims the lookup finds the entry for `regex` exactly when the
/// map holds one.
#[verifier::external_body]
fn terminal_index_get(m: &indexmap::IndexMap<u64, Vec<usize>>, regex: u64) -> (r: Option<Vec<usize>>)
    ensures
        entry_index(index_map_entries(*m), regex) >= 0 ==> r is Some && r->0@ == index_map_entries(
            *m,
        )[entry_index(index_map_entries(*m), regex)].1,
        entry_index(index_map_entries(*m), regex) < 0 ==> r is None,
{
    m.get(&regex).cloned()
}

/// Stores `indexes` for `regex` (`indexmap::IndexMap::insert`). The contract
/// claims, as the crate documents, that an existing entry keeps its place and
/// takes the new value, and that a new entry goes last.
#[verifier::external_body]
fn terminal_index_insert(m: &mut indexmap::IndexMap<u64, Vec<usize>>, regex: u64, indexes: Vec<usize>)
    ensures
        index_map_entries(*final(m)) == (if entry_index(index_map_entries(*old(m)), regex) >= 0 {
            index_map_entries(*old(m)).update(
                entry_index(index_map_entries(*old(m)), regex),
                (regex, indexes@),
            )
        } else {
            index_map_entries(*old(m)).push((regex, indexes@))
        }),
{
    m.insert(regex, indexes);
}

/// Groups the terminals of a lookahead, given as their regexes, by regex:
/// for each regex, in the order regexes first occur, the indexes of the
/// terminals that have it.
pub fn index_terminals(regexes: &[u64]) -> (r: indexmap::IndexMap<u64, Vec<usize>>)
    ensures
        index_map_entries(r) == terminal_groups(regexes@),
{
    let mut map = terminal_index_new();
    assert(index_map_entries(map) =~= terminal_groups(regexes@.take(0)));
    let n = regexes.len();
    let mut i: usize = 0;
    while i < n
        invariant
            n == regexes@.len(),
            i <= n,
            index_map_entries(map) == terminal_groups(regexes@.take(i as int)),
        decreases n - i,
    {
        let regex = regexes[i];
        proof {
            let t = regexes@.take(i + 1);
            assert(t.drop_last() =~= regexes@.take(i as int));
            assert(t.last() == regex);
        }
        match terminal_index_get(&map, regex) {
            Some(mut indexes) => {
                indexes.push(i);
                terminal_index_insert(&mut map, regex, indexes);
            },
            None => {
                let mut indexes = Vec::new();
                indexes.push(i);
                assert(indexes@ =~= seq![i]);
                terminal_index_insert(&mut map, regex, indexes);
            },
        }
        i = i + 1;
    }
    assert(regexes@.take(n as int) =~= regexes@);
    map
}

/// What [`entry_index`] finds: an entry with the key, or there is none.
proof fn lemma_entry_index(es: Seq<(u64, Seq<usize>)>, k: u64)
    ensures
        entry_index(es, k) == -1 ==> forall|j: int| 0 <= j < es.len() ==> (#[trigger] es[j]).0 != k,
        entry_index(es, k) != -1 ==> 0 <= entry_index(es, k) < es.len() && es[entry_index(
            es,
            k,
        )].0 == k,
    decreases es.len(),
{
    if es.len() > 0 {
        lemma_entry_index(es.drop_last(), k);
        assert forall|j: int| 0 <= j < es.len() - 1 implies es.drop_last()[j] == #[trigger] es[j] by {}
    }
}

/// [`index_terminals`] partitions the terminals by regex: the groups have
/// distinct regexes, every terminal index is in the group of its regex, and
/// every index in a group is that of a terminal with the group's regex.
pub proof fn lemma_terminal_groups_partition(rs: Seq<u64>)
    requires
        rs.len() <= usize::MAX,
    ensures
        forall|j1: int, j2: int|
            0 <= j1 < terminal_groups(rs).len() && 0 <= j2 < terminal_groups(rs).len() && j1
                != j2 ==> (#[trigger] terminal_groups(rs)[j1]).0 != (
            #[trigger] terminal_groups(rs)[j2]).0,
        forall|i: int|
            #![trigger rs[i]]
            0 <= i < rs.len() ==> exists|j: int|
                0 <= j < terminal_groups(rs).len() && (#[trigger] terminal_groups(rs)[j]).0
                    == rs[i] && terminal_groups(rs)[j].1.contains(i as usize),
        forall|j: int, t: int|
            #![trigger terminal_groups(rs)[j].1[t]]
            0 <= j < terminal_groups(rs).len() && 0 <= t < terminal_groups(rs)[j].1.len()
                ==> terminal_groups(rs)[j].1[t] < rs.len() && rs[terminal_groups(rs)[j].1[t] as int]
                == terminal_groups(rs)[j].0,
    decreases rs.len(),
{
    if rs.len() > 0 {
        let prev = rs.drop_last();
        lemma_terminal_groups_partition(prev);
        assert forall|j: int, t: int|
            #![trigger terminal_groups(prev)[j].1[t]]
            0 <= j < terminal_groups(prev).len() && 0 <= t < terminal_groups(prev)[j].1.len()
                implies terminal_groups(prev)[j].1[t] < prev.len() && prev[terminal_groups(prev)[j].1[t] as int]
                == terminal_groups(prev)[j].0 by {}
        let g = terminal_groups(prev);
        let r = rs.last();
        let n = (rs.len() - 1) as usize;
        let ng = terminal_groups(rs);
        lemma_entry_index(g, r);
        let e = entry_index(g, r);
        assert forall|i: int| 0 <= i < prev.len() implies #[trigger] rs[i] == prev[i] by {}
        if e >= 0 {
            assert(ng == g.update(e, (r, g[e].1.push(n))));
            assert forall|i: int| #![trigger rs[i]] 0 <= i < rs.len() implies exists|j: int|
                0 <= j < ng.len() && (#[trigger] ng[j]).0 == rs[i] && ng[j].1.contains(
                    i as usize,
                ) by {
                assert(n == rs.len() - 1);
                if i == n {
                    assert(ng[e].1.last() == n);
                    assert(ng[e].1.contains(n));
                } else {
                    assert(rs[i] == prev[i]);
                    let j = choose|j: int|
                        0 <= j < g.len() && (#[trigger] g[j]).0 == prev[i] && g[j].1.contains(
                            i as usize,
                        );
                    if j == e {
                        let t = choose|t: int| 0 <= t < g[j].1.len() && g[j].1[t] == i as usize;
                        assert(ng[e].1 == g[e].1.push(n));
                        assert(ng[j].1[t] == i as usize);
                        assert(ng[j].1.contains(i as usize));
                    } else {
                        assert(ng[j] == g[j]);
                    }
                }
            }
            assert forall|j: int, t: int|
                #![trigger ng[j].1[t]]
                0 <= j < ng.len() && 0 <= t < ng[j].1.len() implies ng[j].1[t] < rs.len()
                    && rs[ng[j].1[t] as int] == ng[j].0 by {
                if j == e {
                    if t < g[e].1.len() {
                        assert(ng[j].1[t] == g[e].1[t]);
                    }
                } else {
                    assert(ng[j] == g[j]);
                }
            }
        } else {
            assert(ng == g.push((r, seq![n])));
            assert forall|i: int| #![trigger rs[i]] 0 <= i < rs.len() implies exists|j: int|
                0 <= j < ng.len() && (#[trigger] ng[j]).0 == rs[i] && ng[j].1.contains(
                    i as usize,
                ) by {
                if i == n {
                    assert(ng[g.len() as int].1[0] == n);
                } else {
                    let j = choose|j: int|
                        0 <= j < g.len() && (#[trigger] g[j]).0 == prev[i] && g[j].1.contains(
                            i as usize,
                        );
                    assert(ng[j] == g[j]);
                }
            }
            assert forall|j: int, t: int|
                #![trigger ng[j].1[t]]
                0 <= j < ng.len() && 0 <= t < ng[j].1.len() implies ng[j].1[t] < rs.len()
                    && rs[ng[j].1[t] as int] == ng[j].0 by {
                if j < g.len() {
                    assert(ng[j] == g[j]);
                }
            }
        }
    }
}

} // verus!
