//! Turning what a reader typed into the search box into a full-text `MATCH` expression.
//!
//! Every term the reader typed ends up inside a double-quoted string literal, so nothing they
//! type can become query syntax; the only syntax in the output is what this module writes:
//! `AND`, `OR`, `NOT`, brackets and the prefix star.
use vstd::prelude::*;
use crate::text::{occurs_at, 
    any_alphanumeric, chars_eq, chars_of, copy_chars, has_alnum, is_control, is_ctrl, is_space,
    is_whitespace, push_char, push_range,
};

verus! {

/// How many terms one query may carry.
pub const MAX_TERMS: usize = 24;

/// How many of those may be open-ended prefixes.
pub const MAX_PREFIX_TERMS: usize = 4;

/// One search term as the reader wrote it.
#[verifier::ext_equal]
pub struct TermV {
    pub text: Seq<char>,
    pub quoted: bool,
    pub prefix: bool,
    pub negated: bool,
}

/// What the tokenizer reads: a term, or the word `OR` between two alternatives.
#[verifier::ext_equal]
pub enum TokenV {
    Term(TermV),
    Or,
}

/// The terms between two `OR`s, split by whether they were negated.
#[verifier::ext_equal]
pub struct GroupV {
    pub positive: Seq<TermV>,
    pub negative: Seq<TermV>,
}

/// The first position at or after `i` that holds a double quote, or the end.
pub open spec fn quote_end(s: Seq<char>, i: int) -> int
    decreases s.len() - i,
{
    if i >= s.len() || s[i] == '"' {
        i
    } else {
        quote_end(s, i + 1)
    }
}

/// The first position at or after `i` that holds whitespace, or the end.
pub open spec fn word_end(s: Seq<char>, i: int) -> int
    decreases s.len() - i,
{
    if i >= s.len() || is_space(s[i]) {
        i
    } else {
        word_end(s, i + 1)
    }
}

/// `t` without the stars it ends in (`trim_end_matches('*')`).
pub open spec fn trim_stars(t: Seq<char>) -> Seq<char>
    decreases t.len(),
{
    if t.len() > 0 && t.last() == '*' {
        trim_stars(t.drop_last())
    } else {
        t
    }
}

pub proof fn lemma_quote_end(s: Seq<char>, i: int)
    requires
        0 <= i <= s.len(),
    ensures
        i <= quote_end(s, i) <= s.len(),
        quote_end(s, i) < s.len() ==> s[quote_end(s, i)] == '"',
        forall|j: int| i <= j < quote_end(s, i) ==> s[j] != '"',
    decreases s.len() - i,
{
    if i < s.len() && s[i] != '"' {
        lemma_quote_end(s, i + 1);
    }
}

pub proof fn lemma_word_end(s: Seq<char>, i: int)
    requires
        0 <= i <= s.len(),
    ensures
        i <= word_end(s, i) <= s.len(),
        word_end(s, i) < s.len() ==> is_space(s[word_end(s, i)]),
        forall|j: int| i <= j < word_end(s, i) ==> !is_space(s[j]),
    decreases s.len() - i,
{
    if i < s.len() && !is_space(s[i]) {
        lemma_word_end(s, i + 1);
    }
}

/// Whether a token starts at `at` with a `-` that negates it.
pub open spec fn dash_negates(s: Seq<char>, at: int) -> bool {
    s[at] == '-' && at + 1 < s.len() && !is_space(s[at + 1])
}

/// Where the token's own text starts: past a negating dash, if there is one.
pub open spec fn body_start(s: Seq<char>, at: int) -> int {
    if dash_negates(s, at) {
        at + 1
    } else {
        at
    }
}

/// The text a token starting at `at` holds, before any trailing star is dealt with.
pub open spec fn raw_text(s: Seq<char>, at: int) -> Seq<char> {
    let b = body_start(s, at);
    if s[b] == '"' {
        s.subrange(b + 1, quote_end(s, b + 1))
    } else {
        s.subrange(b, word_end(s, b))
    }
}

/// Where reading resumes after the token starting at `at`.
pub open spec fn token_end(s: Seq<char>, at: int) -> int {
    let b = body_start(s, at);
    if s[b] == '"' {
        let e = quote_end(s, b + 1);
        let after = if e < s.len() {
            e + 1
        } else {
            e
        };
        if after < s.len() && s[after] == '*' {
            after + 1
        } else {
            after
        }
    } else {
        word_end(s, b)
    }
}

/// The term a token starting at `at` reads as.
pub open spec fn token_term(s: Seq<char>, at: int, negate_next: bool) -> TermV {
    let b = body_start(s, at);
    let quoted = s[b] == '"';
    let raw = raw_text(s, at);
    let starred = !quoted && raw.len() > 0 && raw.last() == '*';
    TermV {
        text: if starred {
            trim_stars(raw)
        } else {
            raw
        },
        quoted,
        prefix: if quoted {
            let e = quote_end(s, b + 1);
            let after = if e < s.len() {
                e + 1
            } else {
                e
            };
            after < s.len() && s[after] == '*'
        } else {
            starred
        },
        negated: negate_next || dash_negates(s, at),
    }
}

pub open spec fn is_keyword(t: TermV, word: Seq<char>) -> bool {
    !t.quoted && !t.negated && t.text == word
}

pub proof fn lemma_token_end(s: Seq<char>, at: int)
    requires
        0 <= at < s.len(),
        !is_space(s[at]),
    ensures
        at < token_end(s, at) <= s.len(),
{
    let b = body_start(s, at);
    if s[b] == '"' {
        lemma_quote_end(s, b + 1);
    } else {
        lemma_word_end(s, b);
        lemma_word_end(s, b + 1);
    }
}

/// The tokens read from `s`, starting at `at`, where the previous word was a bare `NOT` when
/// `negate_next` holds.
pub open spec fn scan(s: Seq<char>, at: int, negate_next: bool) -> Seq<TokenV>
    decreases s.len() - at,
{
    if at < 0 || at >= s.len() {
        Seq::empty()
    } else if is_space(s[at]) {
        scan(s, at + 1, negate_next)
    } else {
        let t = token_term(s, at, negate_next);
        let next = token_end(s, at);
        proof {
            lemma_token_end(s, at);
        }
        if is_keyword(t, seq!['O', 'R']) {
            seq![TokenV::Or] + scan(s, next, false)
        } else if is_keyword(t, seq!['A', 'N', 'D']) {
            scan(s, next, false)
        } else if is_keyword(t, seq!['N', 'O', 'T']) {
            scan(s, next, true)
        } else if has_alnum(t.text) {
            seq![TokenV::Term(t)] + scan(s, next, false)
        } else {
            scan(s, next, false)
        }
    }
}

/// The last token, when it is a bare word, is the word still being typed: it matches as a
/// prefix.
pub open spec fn with_trailing_prefix(ts: Seq<TokenV>) -> Seq<TokenV> {
    if ts.len() == 0 {
        ts
    } else {
        match ts.last() {
            TokenV::Term(t) => if !t.quoted && !t.negated {
                ts.update(ts.len() - 1, TokenV::Term(TermV { prefix: true, ..t }))
            } else {
                ts
            },
            TokenV::Or => ts,
        }
    }
}

/// What the tokenizer makes of a raw query.
pub open spec fn tokens_of(raw: Seq<char>) -> Seq<TokenV> {
    with_trailing_prefix(scan(raw, 0, false))
}

/// The groups a run of tokens falls into: a new group at every `OR`.
pub open spec fn groups_of(ts: Seq<TokenV>) -> Seq<GroupV>
    decreases ts.len(),
{
    if ts.len() == 0 {
        seq![GroupV { positive: Seq::empty(), negative: Seq::empty() }]
    } else {
        let gs = groups_of(ts.drop_last());
        match ts.last() {
            TokenV::Or => gs.push(GroupV { positive: Seq::empty(), negative: Seq::empty() }),
            TokenV::Term(t) => {
                let g = gs.last();
                if t.negated {
                    gs.update(gs.len() - 1, GroupV { negative: g.negative.push(t), ..g })
                } else {
                    gs.update(gs.len() - 1, GroupV { positive: g.positive.push(t), ..g })
                }
            },
        }
    }
}

pub proof fn lemma_groups_nonempty(ts: Seq<TokenV>)
    ensures
        groups_of(ts).len() >= 1,
    decreases ts.len(),
{
    if ts.len() > 0 {
        lemma_groups_nonempty(ts.drop_last());
    }
}

/// The first `k` of `ts` kept under the budget, with `prefixes` open-ended terms still allowed
/// at the start; returns the kept terms and the prefix allowance left over.
pub open spec fn spend(ts: Seq<TermV>, k: int, prefixes: nat) -> (Seq<TermV>, nat)
    decreases k,
{
    if k <= 0 {
        (Seq::empty(), prefixes)
    } else {
        let (kept, left) = spend(ts, k - 1, prefixes);
        let t = ts[k - 1];
        if t.prefix && left > 0 {
            (kept.push(t), (left - 1) as nat)
        } else {
            (kept.push(TermV { prefix: false, ..t }), left)
        }
    }
}

pub open spec fn min(a: int, b: int) -> int {
    if a < b {
        a
    } else {
        b
    }
}

/// The groups cut down to the term and prefix budget, in order; returns the cut groups and the
/// budget left.
pub open spec fn truncate(gs: Seq<GroupV>) -> (Seq<GroupV>, nat, nat)
    decreases gs.len(),
{
    if gs.len() == 0 {
        (Seq::empty(), MAX_TERMS as nat, MAX_PREFIX_TERMS as nat)
    } else {
        let (done, terms, prefixes) = truncate(gs.drop_last());
        let g = gs.last();
        let kp = min(terms as int, g.positive.len() as int);
        let (pos, p1) = spend(g.positive, kp, prefixes);
        let t1 = (terms - kp) as nat;
        let kn = min(t1 as int, g.negative.len() as int);
        let (neg, p2) = spend(g.negative, kn, p1);
        (done.push(GroupV { positive: pos, negative: neg }), (t1 - kn) as nat, p2)
    }
}

/// The text of a term with the characters that could end its string literal or the statement
/// removed.
pub open spec fn clean(t: Seq<char>) -> Seq<char>
    decreases t.len(),
{
    if t.len() == 0 {
        t
    } else if t.last() == '"' || is_ctrl(t.last()) {
        clean(t.drop_last())
    } else {
        clean(t.drop_last()).push(t.last())
    }
}

/// A term as a quoted string literal, starred when it is a prefix.
pub open spec fn render_term(t: TermV) -> Seq<char> {
    seq!['"'] + clean(t.text) + seq!['"'] + if t.prefix {
        seq!['*']
    } else {
        Seq::empty()
    }
}

/// The terms rendered and joined by `sep`.
pub open spec fn join_terms(ts: Seq<TermV>, sep: Seq<char>) -> Seq<char>
    decreases ts.len(),
{
    if ts.len() == 0 {
        Seq::empty()
    } else if ts.len() == 1 {
        render_term(ts[0])
    } else {
        join_terms(ts.drop_last(), sep) + sep + render_term(ts.last())
    }
}

pub open spec fn and_sep() -> Seq<char> {
    seq![' ', 'A', 'N', 'D', ' ']
}

pub open spec fn or_sep() -> Seq<char> {
    seq![' ', 'O', 'R', ' ']
}

/// A group as an expression, or nothing when it has no positive term: an exclusion alone
/// matches everything, which is not a search.
pub open spec fn render_group(g: GroupV) -> Option<Seq<char>> {
    if g.positive.len() == 0 {
        None
    } else if g.negative.len() == 0 {
        Some(join_terms(g.positive, and_sep()))
    } else {
        Some(
            seq!['('] + join_terms(g.positive, and_sep()) + seq![')', ' ', 'N', 'O', 'T', ' ', '(']
                + join_terms(g.negative, or_sep()) + seq![')'],
        )
    }
}

/// The groups that render to something, rendered, in order.
pub open spec fn rendered(gs: Seq<GroupV>) -> Seq<Seq<char>>
    decreases gs.len(),
{
    if gs.len() == 0 {
        Seq::empty()
    } else {
        match render_group(gs.last()) {
            Some(r) => rendered(gs.drop_last()).push(r),
            None => rendered(gs.drop_last()),
        }
    }
}

/// The rendered groups, each in brackets, joined by ` OR `.
pub open spec fn or_join(rs: Seq<Seq<char>>) -> Seq<char>
    decreases rs.len(),
{
    if rs.len() == 0 {
        Seq::empty()
    } else if rs.len() == 1 {
        seq!['('] + rs[0] + seq![')']
    } else {
        or_join(rs.drop_last()) + or_sep() + seq!['('] + rs.last() + seq![')']
    }
}

/// The `MATCH` expression for a raw query, or nothing when nothing in it can be matched.
pub open spec fn fts(raw: Seq<char>) -> Option<Seq<char>> {
    let rs = rendered(truncate(groups_of(tokens_of(raw))).0);
    if rs.len() == 0 {
        None
    } else if rs.len() == 1 {
        Some(rs[0])
    } else {
        Some(or_join(rs))
    }
}

/// How many double quotes `s` holds.
pub open spec fn quotes(s: Seq<char>) -> nat
    decreases s.len(),
{
    if s.len() == 0 {
        0
    } else {
        quotes(s.drop_last()) + if s.last() == '"' {
            1nat
        } else {
            0nat
        }
    }
}

/// What may stand outside a string literal in a `MATCH` expression this module writes.
pub open spec fn syntax_char(c: char) -> bool {
    is_space(c) || c == '(' || c == ')' || c == '*' || crate::text::is_ascii_upper(c)
}

/// Every character of `s` that is outside a string literal (an even number of quotes before
/// it) is syntax this module wrote, never text the reader typed.
pub open spec fn literal_safe(s: Seq<char>) -> bool {
    forall|i: int|
        0 <= i < s.len() && s[i] != '"' && #[trigger] quotes(s.take(i)) % 2 == 0 ==> syntax_char(
            s[i],
        )
}

/// `s` holds no control character.
pub open spec fn no_control(s: Seq<char>) -> bool {
    forall|i: int| 0 <= i < s.len() ==> !is_ctrl(#[trigger] s[i])
}

/// A piece that can be put next to another without letting any text out of its literals.
pub open spec fn sealed(s: Seq<char>) -> bool {
    literal_safe(s) && quotes(s) % 2 == 0 && no_control(s)
}

proof fn lemma_quotes_add(a: Seq<char>, b: Seq<char>)
    ensures
        quotes(a + b) == quotes(a) + quotes(b),
    decreases b.len(),
{
    if b.len() > 0 {
        lemma_quotes_add(a, b.drop_last());
        assert((a + b).drop_last() =~= a + b.drop_last());
    } else {
        assert(a + b =~= a);
    }
}

proof fn lemma_quote_free(s: Seq<char>)
    requires
        forall|i: int| 0 <= i < s.len() ==> s[i] != '"',
    ensures
        quotes(s) == 0,
    decreases s.len(),
{
    if s.len() > 0 {
        lemma_quote_free(s.drop_last());
    }
}

/// Syntax with no quotes in it is sealed.
proof fn lemma_plain_sealed(s: Seq<char>)
    requires
        forall|i: int|
            0 <= i < s.len() ==> syntax_char(#[trigger] s[i]) && s[i] != '"' && !is_ctrl(s[i]),
    ensures
        sealed(s),
{
    lemma_quote_free(s);
}

proof fn lemma_concat_sealed(a: Seq<char>, b: Seq<char>)
    requires
        sealed(a),
        sealed(b),
    ensures
        sealed(a + b),
{
    let s = a + b;
    lemma_quotes_add(a, b);
    assert forall|i: int|
        0 <= i < s.len() && s[i] != '"' && #[trigger] quotes(s.take(i)) % 2 == 0 implies syntax_char(
        s[i],
    ) by {
        if i < a.len() {
            assert(s.take(i) =~= a.take(i));
        } else {
            let j = i - a.len();
            assert(s.take(i) =~= a + b.take(j));
            lemma_quotes_add(a, b.take(j));
            assert(b[j] == s[i]);
        }
    }
    assert forall|i: int| 0 <= i < s.len() implies !is_ctrl(#[trigger] s[i]) by {
        if i < a.len() {
            assert(s[i] == a[i]);
        } else {
            assert(s[i] == b[i - a.len()]);
        }
    }
}

proof fn lemma_clean(t: Seq<char>)
    ensures
        forall|i: int| 0 <= i < clean(t).len() ==> clean(t)[i] != '"' && !is_ctrl(clean(t)[i]),
    decreases t.len(),
{
    if t.len() > 0 {
        lemma_clean(t.drop_last());
        let prev = clean(t.drop_last());
        assert forall|i: int| 0 <= i < clean(t).len() implies clean(t)[i] != '"' && !is_ctrl(
            clean(t)[i],
        ) by {
            if i < prev.len() {
                assert(clean(t)[i] == prev[i]);
            }
        }
    }
}

proof fn lemma_term_sealed(t: TermV)
    ensures
        sealed(render_term(t)),
{
    let c = clean(t.text);
    lemma_clean(t.text);
    lemma_quote_free(c);
    let q = seq!['"'];
    let star: Seq<char> = if t.prefix {
        seq!['*']
    } else {
        Seq::empty()
    };
    let s = render_term(t);
    assert(s =~= q + c + q + star);
    assert(quotes(q) == 1) by {
        assert(q.drop_last() =~= Seq::<char>::empty());
        assert(quotes(Seq::<char>::empty()) == 0);
        assert(q.last() == '"');
    }
    lemma_quote_free(star);
    lemma_quotes_add(q, c);
    lemma_quotes_add(q + c, q);
    lemma_quotes_add(q + c + q, star);
    assert forall|i: int|
        0 <= i < s.len() && s[i] != '"' && #[trigger] quotes(s.take(i)) % 2 == 0 implies syntax_char(
        s[i],
    ) by {
        if i == 0 {
        } else if i <= c.len() {
            assert(s.take(i) =~= q + c.take(i - 1));
            lemma_quote_free(c.take(i - 1));
            lemma_quotes_add(q, c.take(i - 1));
        } else if i == c.len() + 1 {
        } else {
            assert(s[i] == '*');
        }
    }
    assert forall|i: int| 0 <= i < s.len() implies !is_ctrl(#[trigger] s[i]) by {
        if 1 <= i <= c.len() {
            assert(s[i] == c[i - 1]);
        }
    }
}

proof fn lemma_join_sealed(ts: Seq<TermV>, sep: Seq<char>)
    requires
        sealed(sep),
    ensures
        sealed(join_terms(ts, sep)),
    decreases ts.len(),
{
    if ts.len() == 0 {
        lemma_plain_sealed(Seq::<char>::empty());
    } else if ts.len() == 1 {
        lemma_term_sealed(ts[0]);
    } else {
        lemma_join_sealed(ts.drop_last(), sep);
        lemma_term_sealed(ts.last());
        lemma_concat_sealed(join_terms(ts.drop_last(), sep), sep);
        lemma_concat_sealed(join_terms(ts.drop_last(), sep) + sep, render_term(ts.last()));
    }
}

proof fn lemma_group_sealed(g: GroupV)
    ensures
        render_group(g) matches Some(r) ==> sealed(r),
{
    let and_s = and_sep();
    let or_s = or_sep();
    lemma_plain_sealed(and_s);
    lemma_plain_sealed(or_s);
    lemma_join_sealed(g.positive, and_s);
    lemma_join_sealed(g.negative, or_s);
    let open = seq!['('];
    let close = seq![')'];
    let not = seq![')', ' ', 'N', 'O', 'T', ' ', '('];
    lemma_plain_sealed(open);
    lemma_plain_sealed(close);
    lemma_plain_sealed(not);
    let p = join_terms(g.positive, and_s);
    let n = join_terms(g.negative, or_s);
    lemma_concat_sealed(open, p);
    lemma_concat_sealed(open + p, not);
    lemma_concat_sealed(open + p + not, n);
    lemma_concat_sealed(open + p + not + n, close);
}

proof fn lemma_rendered_sealed(gs: Seq<GroupV>)
    ensures
        forall|i: int| 0 <= i < rendered(gs).len() ==> sealed(#[trigger] rendered(gs)[i]),
    decreases gs.len(),
{
    if gs.len() > 0 {
        lemma_rendered_sealed(gs.drop_last());
        lemma_group_sealed(gs.last());
        let prev = rendered(gs.drop_last());
        assert forall|i: int| 0 <= i < rendered(gs).len() implies sealed(
            #[trigger] rendered(gs)[i],
        ) by {
            if i < prev.len() {
                assert(rendered(gs)[i] == prev[i]);
            }
        }
    }
}

proof fn lemma_or_join_sealed(rs: Seq<Seq<char>>)
    requires
        forall|i: int| 0 <= i < rs.len() ==> sealed(#[trigger] rs[i]),
    ensures
        sealed(or_join(rs)),
    decreases rs.len(),
{
    let open = seq!['('];
    let close = seq![')'];
    lemma_plain_sealed(open);
    lemma_plain_sealed(close);
    if rs.len() == 0 {
        lemma_plain_sealed(Seq::<char>::empty());
    } else if rs.len() == 1 {
        assert(sealed(rs[0]));
        lemma_concat_sealed(open, rs[0]);
        lemma_concat_sealed(open + rs[0], close);
    } else {
        lemma_or_join_sealed(rs.drop_last());
        lemma_plain_sealed(or_sep());
        assert(sealed(rs.last()));
        let a = or_join(rs.drop_last());
        lemma_concat_sealed(a, or_sep());
        lemma_concat_sealed(a + or_sep(), open);
        lemma_concat_sealed(a + or_sep() + open, rs.last());
        lemma_concat_sealed(a + or_sep() + open + rs.last(), close);
    }
}

/// Whatever a reader types, every character of the expression that is outside a string
/// literal is syntax this module wrote (brackets, spaces, the prefix star and the upper-case
/// operators), and no control character survives anywhere: the reader's text can neither
/// escape its quotes nor end the statement early.
pub proof fn law_user_input_stays_in_literals(raw: Seq<char>)
    ensures
        fts(raw) matches Some(q) ==> sealed(q),
{
    let rs = rendered(truncate(groups_of(tokens_of(raw))).0);
    lemma_rendered_sealed(truncate(groups_of(tokens_of(raw))).0);
    if rs.len() >= 2 {
        lemma_or_join_sealed(rs);
    }
}

/// How many of `ts` are prefixes.
pub open spec fn prefixes_in(ts: Seq<TermV>) -> nat
    decreases ts.len(),
{
    if ts.len() == 0 {
        0
    } else {
        prefixes_in(ts.drop_last()) + if ts.last().prefix {
            1nat
        } else {
            0nat
        }
    }
}

/// How many terms, and how many prefixes, a run of groups carries.
pub open spec fn terms_in(gs: Seq<GroupV>) -> (nat, nat)
    decreases gs.len(),
{
    if gs.len() == 0 {
        (0, 0)
    } else {
        let (t, p) = terms_in(gs.drop_last());
        let g = gs.last();
        (
            t + g.positive.len() + g.negative.len(),
            p + prefixes_in(g.positive) + prefixes_in(g.negative),
        )
    }
}

proof fn lemma_spend(ts: Seq<TermV>, k: int, p: nat)
    requires
        0 <= k <= ts.len(),
    ensures
        spend(ts, k, p).0.len() == k,
        prefixes_in(spend(ts, k, p).0) + spend(ts, k, p).1 == p,
    decreases k,
{
    if k > 0 {
        lemma_spend(ts, k - 1, p);
        let (kept, left) = spend(ts, k - 1, p);
        let (now, _) = spend(ts, k, p);
        assert(now.drop_last() =~= kept);
    }
}

proof fn lemma_truncate_budget(gs: Seq<GroupV>)
    ensures
        terms_in(truncate(gs).0).0 + truncate(gs).1 == MAX_TERMS,
        terms_in(truncate(gs).0).1 + truncate(gs).2 == MAX_PREFIX_TERMS,
    decreases gs.len(),
{
    if gs.len() > 0 {
        lemma_truncate_budget(gs.drop_last());
        let (done, terms, prefixes) = truncate(gs.drop_last());
        let g = gs.last();
        let kp = min(terms as int, g.positive.len() as int);
        lemma_spend(g.positive, kp, prefixes);
        let (pos, p1) = spend(g.positive, kp, prefixes);
        let t1 = (terms - kp) as nat;
        let kn = min(t1 as int, g.negative.len() as int);
        lemma_spend(g.negative, kn, p1);
        let out = truncate(gs).0;
        assert(out.drop_last() =~= done);
    }
}

/// However long the query, the expression carries at most `MAX_TERMS` terms, of which at most
/// `MAX_PREFIX_TERMS` are prefixes: a pasted essay cannot turn into an expensive search.
pub proof fn law_query_stays_within_budget(raw: Seq<char>)
    ensures
        terms_in(truncate(groups_of(tokens_of(raw))).0).0 <= MAX_TERMS,
        terms_in(truncate(groups_of(tokens_of(raw))).0).1 <= MAX_PREFIX_TERMS,
{
    lemma_truncate_budget(groups_of(tokens_of(raw)));
}

struct Term {
    text: Vec<char>,
    quoted: bool,
    prefix: bool,
    negated: bool,
}

impl View for Term {
    type V = TermV;

    closed spec fn view(&self) -> TermV {
        TermV { text: self.text@, quoted: self.quoted, prefix: self.prefix, negated: self.negated }
    }
}

enum Token {
    Term(Term),
    Or,
}

impl View for Token {
    type V = TokenV;

    closed spec fn view(&self) -> TokenV {
        match self {
            Token::Term(t) => TokenV::Term(t@),
            Token::Or => TokenV::Or,
        }
    }
}

struct Group {
    positive: Vec<Term>,
    negative: Vec<Term>,
}

impl View for Group {
    type V = GroupV;

    closed spec fn view(&self) -> GroupV {
        GroupV { positive: terms_v(self.positive@), negative: terms_v(self.negative@) }
    }
}

spec fn terms_v(ts: Seq<Term>) -> Seq<TermV> {
    ts.map_values(|t: Term| t@)
}

spec fn tokens_v(ts: Seq<Token>) -> Seq<TokenV> {
    ts.map_values(|t: Token| t@)
}

spec fn groups_v(gs: Seq<Group>) -> Seq<GroupV> {
    gs.map_values(|g: Group| g@)
}

fn copy_term(t: &Term) -> (c: Term)
    ensures
        c@ == t@,
{
    Term { text: copy_chars(&t.text), quoted: t.quoted, prefix: t.prefix, negated: t.negated }
}

/// Reads the tokens of a raw query.
fn tokenize(raw: &str) -> (tokens: Vec<Token>)
    ensures
        tokens_v(tokens@) == tokens_of(raw@),
{
    let chars = chars_of(raw);
    let n = chars.len();
    let ghost s = chars@;
    let mut tokens: Vec<Token> = Vec::new();
    let mut at: usize = 0;
    let mut negate_next = false;

    while at < n
        invariant
            s == chars@,
            n == s.len(),
            at <= n,
            tokens_v(tokens@) + scan(s, at as int, negate_next) == scan(s, 0, false),
        decreases n - at,
    {
        if is_whitespace(chars[at]) {
            at = at + 1;
            continue;
        }
        let ghost start = at as int;
        let ghost was_negating = negate_next;
        proof {
            lemma_token_end(s, start);
        }

        let mut negated = negate_next;
        negate_next = false;

        if chars[at] == '-' && at + 1 < n && !is_whitespace(chars[at + 1]) {
            negated = true;
            at = at + 1;
        }
        let ghost b = at as int;
        assert(b == body_start(s, start));

        let quoted = chars[at] == '"';
        let mut text: Vec<char> = Vec::new();

        if quoted {
            at = at + 1;
            proof {
                lemma_quote_end(s, b + 1);
            }
            while at < n && chars[at] != '"'
                invariant
                    s == chars@,
                    n == s.len(),
                    0 <= b,
                    b + 1 <= at <= quote_end(s, b + 1) <= n,
                    text@ == s.subrange(b + 1, at as int),
                    quote_end(s, at as int) == quote_end(s, b + 1),
                decreases n - at,
            {
                proof {
                    lemma_quote_end(s, at as int + 1);
                }
                text.push(chars[at]);
                at = at + 1;
                assert(text@ =~= s.subrange(b + 1, at as int));
            }
            assert(at as int == quote_end(s, b + 1));
            if at < n {
                at = at + 1;
            }
        } else {
            proof {
                lemma_word_end(s, b);
            }
            while at < n && !is_whitespace(chars[at])
                invariant
                    s == chars@,
                    n == s.len(),
                    0 <= b,
                    b <= at <= word_end(s, b) <= n,
                    text@ == s.subrange(b, at as int),
                    word_end(s, at as int) == word_end(s, b),
                decreases n - at,
            {
                proof {
                    lemma_word_end(s, at as int + 1);
                }
                text.push(chars[at]);
                at = at + 1;
                assert(text@ =~= s.subrange(b, at as int));
            }
            assert(at as int == word_end(s, b));
        }
        assert(text@ == raw_text(s, start));

        let mut prefix = false;
        if quoted {
            if at < n && chars[at] == '*' {
                prefix = true;
                at = at + 1;
            }
        } else if text.len() > 0 && text[text.len() - 1] == '*' {
            prefix = true;
            let ghost raw_t = text@;
            while text.len() > 0 && text[text.len() - 1] == '*'
                invariant
                    trim_stars(text@) == trim_stars(raw_t),
                decreases text.len(),
            {
                let ghost before = text@;
                text.pop();
                assert(text@ =~= before.drop_last());
            }
        }
        let term = Term { text, quoted, prefix, negated };
        let ghost before = tokens@;
        assert(term@ == token_term(s, start, was_negating));
        assert(at as int == token_end(s, start));

        if !quoted && !negated {
            if chars_eq(&term.text, &vec!['O', 'R']) {
                tokens.push(Token::Or);
                assert(tokens_v(tokens@) =~= tokens_v(before).push(TokenV::Or));
                assert(tokens_v(tokens@) + scan(s, at as int, negate_next) =~= tokens_v(before)
                    + scan(s, start, was_negating));
                continue;
            }
            if chars_eq(&term.text, &vec!['A', 'N', 'D']) {
                continue;
            }
            if chars_eq(&term.text, &vec!['N', 'O', 'T']) {
                negate_next = true;
                continue;
            }
        }

        if any_alphanumeric(&term.text) {
            let ghost tv = term@;
            tokens.push(Token::Term(term));
            assert(tokens_v(tokens@) =~= tokens_v(before).push(TokenV::Term(tv)));
            assert(tokens_v(tokens@) + scan(s, at as int, negate_next) =~= tokens_v(before)
                + scan(s, start, was_negating));
        }
    }

    assert(scan(s, at as int, negate_next) =~= Seq::<TokenV>::empty());
    assert(tokens_v(tokens@) =~= scan(s, 0, false));
    apply_trailing_prefix(&mut tokens);
    tokens
}

/// Gathers tokens into the groups that `OR` separates.
fn groups(tokens: &Vec<Token>) -> (out: Vec<Group>)
    ensures
        groups_v(out@) == groups_of(tokens_v(tokens@)),
{
    let mut out: Vec<Group> = Vec::new();
    out.push(Group { positive: Vec::new(), negative: Vec::new() });
    let ghost tv = tokens_v(tokens@);
    assert(terms_v(Seq::<Term>::empty()) =~= Seq::<TermV>::empty());
    assert(tv.take(0).len() == 0);
    assert(groups_v(out@) =~= groups_of(tv.take(0)));
    let mut i: usize = 0;
    while i < tokens.len()
        invariant
            tv == tokens_v(tokens@),
            i <= tokens@.len(),
            out@.len() >= 1,
            groups_v(out@) == groups_of(tv.take(i as int)),
        decreases tokens.len() - i,
    {
        let ghost before = out@;
        assert(tv.take(i + 1).drop_last() =~= tv.take(i as int));
        match &tokens[i] {
            Token::Or => {
                out.push(Group { positive: Vec::new(), negative: Vec::new() });
                assert(terms_v(Seq::<Term>::empty()) =~= Seq::<TermV>::empty());
                assert(groups_v(out@) =~= groups_of(tv.take(i + 1)));
            },
            Token::Term(t) => {
                let mut last = out.pop().unwrap();
                let ghost g = last@;
                if t.negated {
                    last.negative.push(copy_term(t));
                    assert(last@.negative =~= g.negative.push(t@));
                } else {
                    last.positive.push(copy_term(t));
                    assert(last@.positive =~= g.positive.push(t@));
                }
                out.push(last);
                assert(groups_v(out@) =~= groups_of(tv.take(i + 1)));
            },
        }
        i = i + 1;
    }
    assert(tv.take(i as int) =~= tv);
    out
}

struct Budget {
    terms: usize,
    prefixes: usize,
}

impl Budget {
    fn new() -> (b: Budget)
        ensures
            b.terms == MAX_TERMS,
            b.prefixes == MAX_PREFIX_TERMS,
    {
        Budget { terms: MAX_TERMS, prefixes: MAX_PREFIX_TERMS }
    }

    /// Keeps as many of `terms` as the budget still allows, in order, and lets only as many of
    /// them stay prefixes as the prefix budget allows.
    fn spend(&mut self, terms: &Vec<Term>) -> (kept: Vec<Term>)
        ensures
            ({
                let k = min(old(self).terms as int, terms@.len() as int);
                let (ts, p) = spend(terms_v(terms@), k, old(self).prefixes as nat);
                &&& terms_v(kept@) == ts
                &&& final(self).prefixes == p
                &&& final(self).terms == old(self).terms - k
            }),
    {
        let k = if self.terms < terms.len() {
            self.terms
        } else {
            terms.len()
        };
        let ghost tv = terms_v(terms@);
        let ghost p0 = self.prefixes as nat;
        let ghost t0 = self.terms;
        let mut out: Vec<Term> = Vec::new();
        let mut i: usize = 0;
        while i < k
            invariant
                tv == terms_v(terms@),
                k <= terms@.len(),
                k <= t0,
                i <= k,
                terms_v(out@) == spend(tv, i as int, p0).0,
                self.prefixes == spend(tv, i as int, p0).1,
                self.terms == t0 - i,
            decreases k - i,
        {
            self.terms = self.terms - 1;
            let mut term = copy_term(&terms[i]);
            let ghost before = out@;
            if term.prefix && self.prefixes > 0 {
                self.prefixes = self.prefixes - 1;
            } else {
                term.prefix = false;
            }
            out.push(term);
            i = i + 1;
            assert(terms_v(out@) =~= spend(tv, i as int, p0).0);
        }
        out
    }
}

impl Group {
    /// The group cut down to what the budget still allows: positive terms first.
    fn truncated(&self, budget: &mut Budget) -> (g: Group)
        ensures
            ({
                let kp = min(old(budget).terms as int, self@.positive.len() as int);
                let (pos, p1) = spend(self@.positive, kp, old(budget).prefixes as nat);
                let t1 = old(budget).terms - kp;
                let kn = min(t1, self@.negative.len() as int);
                let (neg, p2) = spend(self@.negative, kn, p1);
                &&& g@ == GroupV { positive: pos, negative: neg }
                &&& final(budget).terms == t1 - kn
                &&& final(budget).prefixes == p2
            }),
    {
        let positive = budget.spend(&self.positive);
        let negative = budget.spend(&self.negative);
        Group { positive, negative }
    }

    /// The group as an expression, or nothing when it has no positive term.
    fn render(&self) -> (out: Option<String>)
        ensures
            match out {
                None => render_group(self@) is None,
                Some(r) => render_group(self@) == Some(r@),
            },
    {
        if self.positive.len() == 0 {
            return None;
        }
        let mut out = String::new();
        if self.negative.len() == 0 {
            join_into(&mut out, &self.positive, &vec![' ', 'A', 'N', 'D', ' ']);
            assert(out@ =~= join_terms(self@.positive, and_sep()));
            return Some(out);
        }
        push_char(&mut out, '(');
        join_into(&mut out, &self.positive, &vec![' ', 'A', 'N', 'D', ' ']);
        push_range(&mut out, &vec![')', ' ', 'N', 'O', 'T', ' ', '('], 0, 7);
        join_into(&mut out, &self.negative, &vec![' ', 'O', 'R', ' ']);
        push_char(&mut out, ')');
        assert(out@ =~= seq!['('] + join_terms(self@.positive, and_sep()) + seq![
            ')',
            ' ',
            'N',
            'O',
            'T',
            ' ',
            '(',
        ] + join_terms(self@.negative, or_sep()) + seq![')']);
        Some(out)
    }
}

impl Term {
    /// Appends the term as a quoted literal.
    fn render_into(&self, out: &mut String)
        ensures
            final(out)@ == old(out)@ + render_term(self@),
    {
        push_char(out, '"');
        let ghost mid = out@;
        let mut i: usize = 0;
        assert(self.text@.take(0) =~= Seq::<char>::empty());
        while i < self.text.len()
            invariant
                i <= self.text@.len(),
                out@ == mid + clean(self.text@.take(i as int)),
            decreases self.text.len() - i,
        {
            let c = self.text[i];
            assert(self.text@.take(i + 1).drop_last() =~= self.text@.take(i as int));
            if c != '"' && !is_control(c) {
                push_char(out, c);
            }
            i = i + 1;
        }
        assert(self.text@.take(i as int) =~= self.text@);
        push_char(out, '"');
        if self.prefix {
            push_char(out, '*');
        }
        assert(out@ =~= old(out)@ + render_term(self@));
    }
}

/// Appends the terms as literals joined by `sep`.
fn join_into(out: &mut String, terms: &Vec<Term>, sep: &Vec<char>)
    ensures
        final(out)@ == old(out)@ + join_terms(terms_v(terms@), sep@),
{
    let ghost tv = terms_v(terms@);
    let mut i: usize = 0;
    assert(tv.take(0) =~= Seq::<TermV>::empty());
    while i < terms.len()
        invariant
            tv == terms_v(terms@),
            i <= terms@.len(),
            out@ == old(out)@ + join_terms(tv.take(i as int), sep@),
        decreases terms.len() - i,
    {
        assert(tv.take(i + 1).drop_last() =~= tv.take(i as int));
        if i > 0 {
            push_range(out, sep, 0, sep.len());
            assert(sep@.subrange(0, sep@.len() as int) =~= sep@);
        }
        terms[i].render_into(out);
        i = i + 1;
        assert(out@ =~= old(out)@ + join_terms(tv.take(i as int), sep@));
    }
    assert(tv.take(i as int) =~= tv);
}

spec fn strings_v(v: Seq<String>) -> Seq<Seq<char>> {
    v.map_values(|s: String| s@)
}

/// The full-text `MATCH` expression for what a reader typed, or `None` when nothing in it could
/// match anything.
pub fn fts_query(raw: &str) -> (out: Option<String>)
    ensures
        match out {
            None => fts(raw@) is None,
            Some(q) => fts(raw@) == Some(q@),
        },
{
    let tokens = tokenize(raw);
    let groups = groups(&tokens);
    let ghost gv = groups_v(groups@);
    let mut budget = Budget::new();
    let mut pieces: Vec<String> = Vec::new();
    let mut i: usize = 0;
    assert(gv.take(0) =~= Seq::<GroupV>::empty());
    while i < groups.len()
        invariant
            gv == groups_v(groups@),
            i <= groups@.len(),
            truncate(gv.take(i as int)).1 == budget.terms,
            truncate(gv.take(i as int)).2 == budget.prefixes,
            strings_v(pieces@) == rendered(truncate(gv.take(i as int)).0),
        decreases groups.len() - i,
    {
        assert(gv.take(i + 1).drop_last() =~= gv.take(i as int));
        let g = groups[i].truncated(&mut budget);
        let ghost before = pieces@;
        match g.render() {
            Some(r) => {
                pieces.push(r);
                assert(strings_v(pieces@) =~= strings_v(before).push(r@));
            },
            None => {},
        }
        i = i + 1;
        assert(truncate(gv.take(i as int)).0.last() == g@);
        assert(truncate(gv.take(i as int)).0.drop_last() == truncate(gv.take(i - 1)).0);
    }
    assert(gv.take(i as int) =~= gv);
    if pieces.len() == 0 {
        return None;
    }
    if pieces.len() == 1 {
        return pieces.pop();
    }
    let mut out = String::new();
    let mut j: usize = 0;
    let ghost rv = strings_v(pieces@);
    assert(rv.take(0) =~= Seq::<Seq<char>>::empty());
    while j < pieces.len()
        invariant
            rv == strings_v(pieces@),
            rv.len() >= 2,
            j <= rv.len(),
            j == 0 ==> out@ == Seq::<char>::empty(),
            j > 0 ==> out@ == or_join(rv.take(j as int)),
        decreases pieces.len() - j,
    {
        assert(rv.take(j + 1).drop_last() =~= rv.take(j as int));
        if j > 0 {
            push_range(&mut out, &vec![' ', 'O', 'R', ' '], 0, 4);
        }
        push_char(&mut out, '(');
        let piece = chars_of(pieces[j].as_str());
        push_range(&mut out, &piece, 0, piece.len());
        push_char(&mut out, ')');
        assert(piece@.subrange(0, piece@.len() as int) =~= piece@);
        j = j + 1;
        assert(out@ =~= or_join(rv.take(j as int)));
    }
    assert(rv.take(j as int) =~= rv);
    Some(out)
}

/// Marks the last token as a prefix when it is a bare word.
fn apply_trailing_prefix(tokens: &mut Vec<Token>)
    ensures
        tokens_v(final(tokens)@) == with_trailing_prefix(tokens_v(old(tokens)@)),
{
    let ghost before = tokens@;
    match tokens.pop() {
        None => {},
        Some(Token::Or) => {
            tokens.push(Token::Or);
            assert(tokens@ =~= before);
        },
        Some(Token::Term(t)) => {
            let bare = !t.quoted && !t.negated;
            let prefix = if bare {
                true
            } else {
                t.prefix
            };
            let ghost tv = t@;
            tokens.push(Token::Term(Term { text: t.text, quoted: t.quoted, prefix, negated: t.negated }));
            assert(tokens_v(tokens@) =~= with_trailing_prefix(tokens_v(before)));
        },
    }
}

/// How many double quotes the pieces hold together.
pub open spec fn quotes_all(rs: Seq<Seq<char>>) -> nat
    decreases rs.len(),
{
    if rs.len() == 0 {
        0
    } else {
        quotes_all(rs.drop_last()) + quotes(rs.last())
    }
}

proof fn lemma_term_quotes(t: TermV)
    ensures
        quotes(render_term(t)) == 2,
{
    let c = clean(t.text);
    lemma_clean(t.text);
    lemma_quote_free(c);
    let q = seq!['"'];
    let star: Seq<char> = if t.prefix {
        seq!['*']
    } else {
        Seq::empty()
    };
    assert(render_term(t) =~= q + c + q + star);
    lemma_quote_free(star);
    assert(quotes(q) == 1) by {
        assert(q.drop_last() =~= Seq::<char>::empty());
        assert(quotes(Seq::<char>::empty()) == 0);
    }
    lemma_quotes_add(q, c);
    lemma_quotes_add(q + c, q);
    lemma_quotes_add(q + c + q, star);
}

proof fn lemma_join_quotes(ts: Seq<TermV>, sep: Seq<char>)
    requires
        quotes(sep) == 0,
    ensures
        quotes(join_terms(ts, sep)) == 2 * ts.len(),
    decreases ts.len(),
{
    if ts.len() == 0 {
    } else if ts.len() == 1 {
        lemma_term_quotes(ts[0]);
    } else {
        lemma_join_quotes(ts.drop_last(), sep);
        lemma_term_quotes(ts.last());
        lemma_quotes_add(join_terms(ts.drop_last(), sep), sep);
        lemma_quotes_add(join_terms(ts.drop_last(), sep) + sep, render_term(ts.last()));
    }
}

proof fn lemma_plain_quotes(s: Seq<char>)
    requires
        forall|i: int| 0 <= i < s.len() ==> s[i] != '"',
    ensures
        quotes(s) == 0,
{
    lemma_quote_free(s);
}

proof fn lemma_group_quotes(g: GroupV)
    ensures
        render_group(g) matches Some(r) ==> quotes(r) == 2 * (g.positive.len() + g.negative.len()),
{
    let and_s = and_sep();
    let or_s = or_sep();
    lemma_plain_quotes(and_s);
    lemma_plain_quotes(or_s);
    lemma_join_quotes(g.positive, and_s);
    lemma_join_quotes(g.negative, or_s);
    if g.positive.len() > 0 && g.negative.len() > 0 {
        let open = seq!['('];
        let close = seq![')'];
        let not = seq![')', ' ', 'N', 'O', 'T', ' ', '('];
        lemma_plain_quotes(open);
        lemma_plain_quotes(close);
        lemma_plain_quotes(not);
        let p = join_terms(g.positive, and_s);
        let n = join_terms(g.negative, or_s);
        lemma_quotes_add(open, p);
        lemma_quotes_add(open + p, not);
        lemma_quotes_add(open + p + not, n);
        lemma_quotes_add(open + p + not + n, close);
    }
}

proof fn lemma_rendered_quotes(gs: Seq<GroupV>)
    ensures
        quotes_all(rendered(gs)) <= 2 * terms_in(gs).0,
    decreases gs.len(),
{
    if gs.len() > 0 {
        lemma_rendered_quotes(gs.drop_last());
        lemma_group_quotes(gs.last());
        match render_group(gs.last()) {
            Some(r) => {
                assert(rendered(gs).drop_last() =~= rendered(gs.drop_last()));
            },
            None => {},
        }
    }
}

proof fn lemma_or_join_quotes(rs: Seq<Seq<char>>)
    ensures
        quotes(or_join(rs)) == quotes_all(rs),
    decreases rs.len(),
{
    let open = seq!['('];
    let close = seq![')'];
    lemma_plain_quotes(open);
    lemma_plain_quotes(close);
    if rs.len() == 0 {
    } else if rs.len() == 1 {
        lemma_quotes_add(open, rs[0]);
        lemma_quotes_add(open + rs[0], close);
        assert(rs.drop_last() =~= Seq::<Seq<char>>::empty());
        assert(quotes_all(rs.drop_last()) == 0);
        assert(rs.last() == rs[0]);
    } else {
        lemma_or_join_quotes(rs.drop_last());
        lemma_plain_quotes(or_sep());
        let a = or_join(rs.drop_last());
        lemma_quotes_add(a, or_sep());
        lemma_quotes_add(a + or_sep(), open);
        lemma_quotes_add(a + or_sep() + open, rs.last());
        lemma_quotes_add(a + or_sep() + open + rs.last(), close);
    }
}

/// However long the query, the expression it becomes holds at most `MAX_TERMS` string
/// literals: two double quotes for each term, and no other double quote.
pub proof fn law_expression_stays_within_budget(raw: Seq<char>)
    ensures
        fts(raw) matches Some(q) ==> quotes(q) <= 2 * MAX_TERMS,
{
    let gs = truncate(groups_of(tokens_of(raw))).0;
    let rs = rendered(gs);
    lemma_truncate_budget(groups_of(tokens_of(raw)));
    lemma_rendered_quotes(gs);
    if rs.len() == 1 {
        assert(rs.drop_last() =~= Seq::<Seq<char>>::empty());
        assert(quotes_all(rs.drop_last()) == 0);
        assert(rs.last() == rs[0]);
        assert(quotes_all(rs) == quotes(rs[0]));
    } else if rs.len() >= 2 {
        lemma_or_join_quotes(rs);
    }
}

/// How many string literals in `s` are followed by a star: a double quote that closes a
/// literal (it has an odd number of double quotes before it) with `*` right after it.
pub open spec fn starred(s: Seq<char>) -> nat
    decreases s.len(),
{
    if s.len() < 2 {
        0
    } else {
        starred(s.drop_last()) + if s.last() == '*' && s[s.len() - 2] == '"' && quotes(
            s.take(s.len() - 2),
        ) % 2 == 1 {
            1nat
        } else {
            0nat
        }
    }
}

pub open spec fn starred_all(rs: Seq<Seq<char>>) -> nat
    decreases rs.len(),
{
    if rs.len() == 0 {
        0
    } else {
        starred_all(rs.drop_last()) + starred(rs.last())
    }
}

proof fn lemma_starred_add(a: Seq<char>, b: Seq<char>)
    requires
        quotes(a) % 2 == 0,
        b.len() == 0 || b[0] != '*',
    ensures
        starred(a + b) == starred(a) + starred(b),
    decreases b.len(),
{
    if b.len() == 0 {
        assert(a + b =~= a);
    } else if b.len() == 1 {
        if a.len() == 0 {
            assert(a + b =~= b);
        } else {
            assert((a + b).drop_last() =~= a);
        }
    } else {
        let bd = b.drop_last();
        lemma_starred_add(a, bd);
        let s = a + b;
        let n = s.len();
        assert(s.drop_last() =~= a + bd);
        assert(s.take(n - 2) =~= a + b.take(b.len() - 2));
        lemma_quotes_add(a, b.take(b.len() - 2));
        assert(s[n - 2] == b[b.len() - 2]);
    }
}

proof fn lemma_starless(s: Seq<char>)
    requires
        forall|i: int| 0 <= i < s.len() ==> s[i] != '*',
    ensures
        starred(s) == 0,
    decreases s.len(),
{
    if s.len() >= 2 {
        lemma_starless(s.drop_last());
    }
}

proof fn lemma_open_literal(c: Seq<char>)
    requires
        forall|i: int| 0 <= i < c.len() ==> c[i] != '"',
    ensures
        starred(seq!['"'] + c) == 0,
    decreases c.len(),
{
    let u = seq!['"'] + c;
    if c.len() > 0 {
        lemma_open_literal(c.drop_last());
        assert(u.drop_last() =~= seq!['"'] + c.drop_last());
        if u.len() >= 2 && u[u.len() - 2] == '"' {
            assert(u.len() == 2);
            assert(u.take(0) =~= Seq::<char>::empty());
        }
    }
}

proof fn lemma_term_starred(t: TermV)
    ensures
        starred(render_term(t)) == if t.prefix {
            1nat
        } else {
            0nat
        },
{
    let c = clean(t.text);
    lemma_clean(t.text);
    let q = seq!['"'];
    lemma_open_literal(c);
    let u = q + c + q;
    assert(u.drop_last() =~= q + c);
    lemma_quote_free(c);
    assert(quotes(q) == 1) by {
        assert(q.drop_last() =~= Seq::<char>::empty());
        assert(quotes(Seq::<char>::empty()) == 0);
    }
    lemma_quotes_add(q, c);
    assert(u.last() == '"');
    assert(starred(u) == starred(q + c));
    if t.prefix {
        let w = u + seq!['*'];
        assert(render_term(t) =~= w);
        assert(w.drop_last() =~= u);
        assert(w.take(w.len() - 2) =~= q + c);
        assert(w[w.len() - 2] == '"');
        assert(quotes(q + c) == 1);
    } else {
        assert(render_term(t) =~= u);
    }
}

proof fn lemma_join_first(ts: Seq<TermV>, sep: Seq<char>)
    requires
        ts.len() > 0,
    ensures
        join_terms(ts, sep).len() > 0,
        join_terms(ts, sep)[0] == '"',
    decreases ts.len(),
{
    if ts.len() == 1 {
        assert(render_term(ts[0])[0] == '"');
    } else {
        lemma_join_first(ts.drop_last(), sep);
    }
}

proof fn lemma_join_starred(ts: Seq<TermV>, sep: Seq<char>)
    requires
        quotes(sep) == 0,
        starred(sep) == 0,
        sep.len() > 0,
        sep[0] != '*',
    ensures
        starred(join_terms(ts, sep)) == prefixes_in(ts),
    decreases ts.len(),
{
    if ts.len() == 0 {
    } else if ts.len() == 1 {
        lemma_term_starred(ts[0]);
        assert(ts.drop_last() =~= Seq::<TermV>::empty());
    } else {
        let a = join_terms(ts.drop_last(), sep);
        lemma_join_starred(ts.drop_last(), sep);
        lemma_term_starred(ts.last());
        lemma_join_quotes(ts.drop_last(), sep);
        lemma_starred_add(a, sep);
        lemma_quotes_add(a, sep);
        lemma_starred_add(a + sep, render_term(ts.last()));
    }
}

proof fn lemma_group_starred(g: GroupV)
    ensures
        render_group(g) matches Some(r) ==> starred(r) == prefixes_in(g.positive) + prefixes_in(
            g.negative,
        ) && quotes(r) % 2 == 0 && r.len() > 0 && r[0] != '*',
{
    let and_s = and_sep();
    let or_s = or_sep();
    lemma_plain_quotes(and_s);
    lemma_plain_quotes(or_s);
    lemma_group_quotes(g);
    lemma_starless(and_s);
    lemma_starless(or_s);
    if g.positive.len() > 0 {
        lemma_join_starred(g.positive, and_s);
        lemma_join_first(g.positive, and_s);
        if g.negative.len() > 0 {
            lemma_join_starred(g.negative, or_s);
            lemma_join_first(g.negative, or_s);
            lemma_join_quotes(g.positive, and_s);
            lemma_join_quotes(g.negative, or_s);
            let open = seq!['('];
            let close = seq![')'];
            let not = seq![')', ' ', 'N', 'O', 'T', ' ', '('];
            lemma_plain_quotes(open);
            lemma_plain_quotes(close);
            lemma_plain_quotes(not);
            lemma_starless(open);
            lemma_starless(close);
            lemma_starless(not);
            let p = join_terms(g.positive, and_s);
            let n = join_terms(g.negative, or_s);
            lemma_starred_add(open, p);
            lemma_quotes_add(open, p);
            lemma_starred_add(open + p, not);
            lemma_quotes_add(open + p, not);
            lemma_starred_add(open + p + not, n);
            lemma_quotes_add(open + p + not, n);
            lemma_starred_add(open + p + not + n, close);
        }
    }
}

proof fn lemma_rendered_starred(gs: Seq<GroupV>)
    ensures
        starred_all(rendered(gs)) <= terms_in(gs).1,
        forall|i: int| 0 <= i < rendered(gs).len() ==> quotes(#[trigger] rendered(gs)[i]) % 2 == 0
            && rendered(gs)[i].len() > 0 && rendered(gs)[i][0] != '*',
    decreases gs.len(),
{
    if gs.len() > 0 {
        lemma_rendered_starred(gs.drop_last());
        lemma_group_starred(gs.last());
        let prev = rendered(gs.drop_last());
        match render_group(gs.last()) {
            Some(r) => {
                assert(rendered(gs).drop_last() =~= prev);
            },
            None => {},
        }
        assert forall|i: int| 0 <= i < rendered(gs).len() implies quotes(#[trigger] rendered(gs)[i]) % 2 == 0
            && rendered(gs)[i].len() > 0 && rendered(gs)[i][0] != '*' by {
            if i < prev.len() {
                assert(rendered(gs)[i] == prev[i]);
            }
        }
    }
}

proof fn lemma_or_join_starred(rs: Seq<Seq<char>>)
    requires
        forall|i: int| 0 <= i < rs.len() ==> quotes(#[trigger] rs[i]) % 2 == 0 && rs[i].len() > 0
            && rs[i][0] != '*',
    ensures
        starred(or_join(rs)) == starred_all(rs),
        quotes(or_join(rs)) % 2 == 0,
    decreases rs.len(),
{
    let open = seq!['('];
    let close = seq![')'];
    lemma_plain_quotes(open);
    lemma_plain_quotes(close);
    lemma_starless(open);
    lemma_starless(close);
    lemma_or_join_quotes(rs);
    if rs.len() == 0 {
    } else if rs.len() == 1 {
        assert(quotes(rs[0]) % 2 == 0);
        lemma_starred_add(open, rs[0]);
        lemma_quotes_add(open, rs[0]);
        lemma_starred_add(open + rs[0], close);
        lemma_quotes_add(open + rs[0], close);
        assert(rs.drop_last() =~= Seq::<Seq<char>>::empty());
        assert(starred_all(rs.drop_last()) == 0);
        assert(rs.last() == rs[0]);
        assert(quotes_all(rs.drop_last()) == 0);
    } else {
        assert forall|i: int| 0 <= i < rs.drop_last().len() implies quotes(#[trigger] rs.drop_last()[i]) % 2 == 0
            && rs.drop_last()[i].len() > 0 && rs.drop_last()[i][0] != '*' by {
            assert(rs.drop_last()[i] == rs[i]);
        }
        lemma_or_join_starred(rs.drop_last());
        lemma_plain_quotes(or_sep());
        lemma_starless(or_sep());
        let a = or_join(rs.drop_last());
        let last = rs.last();
        assert(quotes(last) % 2 == 0 && last.len() > 0 && last[0] != '*') by {
            assert(last == rs[rs.len() - 1]);
        }
        lemma_starred_add(a, or_sep());
        lemma_quotes_add(a, or_sep());
        lemma_starred_add(a + or_sep(), open);
        lemma_quotes_add(a + or_sep(), open);
        lemma_starred_add(a + or_sep() + open, last);
        lemma_quotes_add(a + or_sep() + open, last);
        lemma_starred_add(a + or_sep() + open + last, close);
        lemma_quotes_add(a + or_sep() + open + last, close);
    }
}

/// However long the query, at most `MAX_PREFIX_TERMS` of the literals in the expression it
/// becomes are followed by the prefix star.
pub proof fn law_expression_keeps_prefix_budget(raw: Seq<char>)
    ensures
        fts(raw) matches Some(q) ==> starred(q) <= MAX_PREFIX_TERMS,
{
    let gs = truncate(groups_of(tokens_of(raw))).0;
    let rs = rendered(gs);
    lemma_truncate_budget(groups_of(tokens_of(raw)));
    lemma_rendered_starred(gs);
    if rs.len() == 1 {
        assert(rs.drop_last() =~= Seq::<Seq<char>>::empty());
        assert(starred_all(rs.drop_last()) == 0);
        assert(starred_all(rs) == starred(rs[0]));
    } else if rs.len() >= 2 {
        lemma_or_join_starred(rs);
    }
}

proof fn lemma_quote_end_shift(p: Seq<char>, b: Seq<char>, i: int)
    requires
        0 <= i,
    ensures
        quote_end(p + b, p.len() + i) == p.len() + quote_end(b, i),
    decreases b.len() - i,
{
    let s = p + b;
    if i < b.len() {
        assert(s[p.len() + i] == b[i]);
        if b[i] != '"' {
            lemma_quote_end_shift(p, b, i + 1);
        }
    }
}

proof fn lemma_word_end_shift(p: Seq<char>, b: Seq<char>, i: int)
    requires
        0 <= i,
    ensures
        word_end(p + b, p.len() + i) == p.len() + word_end(b, i),
    decreases b.len() - i,
{
    let s = p + b;
    if i < b.len() {
        assert(s[p.len() + i] == b[i]);
        if !is_space(b[i]) {
            lemma_word_end_shift(p, b, i + 1);
        }
    }
}

proof fn lemma_token_shift(p: Seq<char>, b: Seq<char>, i: int, f: bool)
    requires
        0 <= i < b.len(),
        !is_space(b[i]),
    ensures
        token_term(p + b, p.len() + i, f) == token_term(b, i, f),
        token_end(p + b, p.len() + i) == p.len() + token_end(b, i),
{
    let s = p + b;
    let n = p.len() as int;
    assert(s[n + i] == b[i]);
    if i + 1 < b.len() {
        assert(s[n + i + 1] == b[i + 1]);
    }
    assert(dash_negates(s, n + i) == dash_negates(b, i));
    let bb = body_start(b, i);
    assert(body_start(s, n + i) == n + bb);
    assert(s[n + bb] == b[bb]);
    lemma_quote_end_shift(p, b, bb + 1);
    lemma_word_end_shift(p, b, bb);
    lemma_token_end(b, i);
    if b[bb] == '"' {
        lemma_quote_end(b, bb + 1);
        let e = quote_end(b, bb + 1);
        assert(s.subrange(n + bb + 1, n + e) =~= b.subrange(bb + 1, e));
        let after = if e < b.len() { e + 1 } else { e };
        if after < b.len() {
            assert(s[n + after] == b[after]);
        }
    } else {
        lemma_word_end(b, bb);
        assert(s.subrange(n + bb, n + word_end(b, bb)) =~= b.subrange(bb, word_end(b, bb)));
    }
    assert(raw_text(s, n + i) == raw_text(b, i));
}

/// Reading from inside a text gives the tokens that reading the same characters on their own does.
proof fn lemma_scan_shift(p: Seq<char>, b: Seq<char>, i: int, f: bool)
    requires
        0 <= i,
    ensures
        scan(p + b, p.len() + i, f) == scan(b, i, f),
    decreases b.len() - i,
{
    let s = p + b;
    let n = p.len() as int;
    if i < b.len() {
        assert(s[n + i] == b[i]);
        if is_space(b[i]) {
            lemma_scan_shift(p, b, i + 1, f);
        } else {
            lemma_token_shift(p, b, i, f);
            lemma_token_end(b, i);
            let next = token_end(b, i);
            lemma_scan_shift(p, b, next, false);
            lemma_scan_shift(p, b, next, true);
        }
    }
}

proof fn lemma_word_end_agree(x: Seq<char>, y: Seq<char>, b: int, n: int)
    requires
        0 <= b <= n < x.len(),
        n < y.len(),
        forall|i: int| b <= i <= n ==> x[i] == y[i],
        is_space(x[n]),
    ensures
        word_end(x, b) == word_end(y, b),
        word_end(x, b) <= n,
    decreases n - b,
{
    if !is_space(x[b]) {
        lemma_word_end_agree(x, y, b + 1, n);
    }
}

pub open spec fn and_gap() -> Seq<char> {
    seq![' ', 'A', 'N', 'D', ' ']
}

pub open spec fn not_word() -> Seq<char> {
    seq!['N', 'O', 'T']
}

/// `a` holds no double quote, and no `NOT` that stands as a word of its own.
pub open spec fn plain_lead(a: Seq<char>) -> bool {
    &&& forall|i: int| 0 <= i < a.len() ==> a[i] != '"'
    &&& forall|i: int|
        #![trigger occurs_at(a, not_word(), i)]
        occurs_at(a, not_word(), i) && (i == 0 || is_space(a[i - 1])) ==> i + 3 < a.len() && !is_space(
            a[i + 3],
        ) && a[i + 3] != '*'
}

proof fn lemma_trim_stars(t: Seq<char>)
    ensures
        trim_stars(t).len() <= t.len(),
        t.take(trim_stars(t).len() as int) == trim_stars(t),
        forall|k: int| trim_stars(t).len() <= k < t.len() ==> t[k] == '*',
    decreases t.len(),
{
    if t.len() > 0 && t.last() == '*' {
        lemma_trim_stars(t.drop_last());
        let r = trim_stars(t.drop_last());
        assert(t.take(r.len() as int) =~= t.drop_last().take(r.len() as int));
        assert forall|k: int| r.len() <= k < t.len() implies t[k] == '*' by {
            if k < t.len() - 1 {
                assert(t[k] == t.drop_last()[k]);
            }
        }
    } else {
        assert(t.take(t.len() as int) =~= t);
    }
}

proof fn lemma_scan_lead(a: Seq<char>, b: Seq<char>, at: int)
    requires
        plain_lead(a),
        0 <= at <= a.len(),
        at == 0 || is_space((a + and_gap() + b)[at - 1]) || is_space((a + and_gap() + b)[at]),
    ensures
        scan(a + and_gap() + b, at, false) == scan(a + seq![' '] + b, at, false),
    decreases a.len() - at,
{
    let s1 = a + and_gap() + b;
    let s2 = a + seq![' '] + b;
    let n = a.len() as int;
    assert forall|i: int| 0 <= i <= n implies s1[i] == s2[i] by {
        if i < n {
            assert(s1[i] == a[i] && s2[i] == a[i]);
        }
    }
    assert(s1[n] == ' ' && s2[n] == ' ');
    if at == n {
        assert(s1[n + 1] == 'A' && s1[n + 2] == 'N' && s1[n + 3] == 'D' && s1[n + 4] == ' ');
        assert(!is_space('A') && !is_space('N') && !is_space('D'));
        assert(word_end(s1, n + 4) == n + 4);
        assert(word_end(s1, n + 3) == n + 4);
        assert(word_end(s1, n + 2) == n + 4);
        assert(word_end(s1, n + 1) == n + 4);
        assert(!dash_negates(s1, n + 1));
        assert(s1.subrange(n + 1, n + 4) =~= seq!['A', 'N', 'D']);
        let t = token_term(s1, n + 1, false);
        assert(t.text == seq!['A', 'N', 'D']);
        assert(!is_keyword(t, seq!['O', 'R']));
        assert(is_keyword(t, seq!['A', 'N', 'D']));
        assert(token_end(s1, n + 1) == n + 4);
        assert(scan(s1, n, false) == scan(s1, n + 1, false));
        assert(scan(s1, n + 1, false) == scan(s1, n + 4, false));
        assert(scan(s1, n + 4, false) == scan(s1, n + 5, false));
        assert(scan(s2, n, false) == scan(s2, n + 1, false));
        assert(s1 == (a + and_gap()) + b);
        lemma_scan_shift(a + and_gap(), b, 0, false);
        lemma_scan_shift(a + seq![' '], b, 0, false);
    } else if is_space(s1[at]) {
        lemma_scan_lead(a, b, at + 1);
    } else {
        assert(s1[at] == a[at]);
        let bs = body_start(s1, at);
        if at + 1 < s1.len() {
            assert(s1[at + 1] == s2[at + 1]);
        }
        assert(dash_negates(s1, at) == dash_negates(s2, at));
        assert(bs == body_start(s2, at));
        assert(bs < n);
        assert(s1[bs] == a[bs]);
        lemma_word_end_agree(s1, s2, bs, n);
        lemma_word_end(s1, bs);
        let we = word_end(s1, bs);
        assert(s1.subrange(bs, we) =~= s2.subrange(bs, we));
        assert(raw_text(s1, at) == raw_text(s2, at));
        assert(token_end(s1, at) == we && token_end(s2, at) == we);
        let t = token_term(s1, at, false);
        assert(t == token_term(s2, at, false));
        lemma_word_end(s1, bs + 1);
        assert(we > at);
        if we < s1.len() {
            assert(is_space(s1[we]));
        }
        if is_keyword(t, not_word()) {
            assert(!dash_negates(s1, at));
            assert(bs == at);
            let raw = s1.subrange(at, we);
            assert(raw_text(s1, at) == raw);
            lemma_trim_stars(raw);
            assert(raw.take(3) == not_word());
            assert(a.subrange(at, at + 3) =~= raw.take(3));
            assert(occurs_at(a, not_word(), at));
            if at > 0 {
                assert(s1[at - 1] == a[at - 1]);
            }
            assert(at + 3 < n && !is_space(a[at + 3]) && a[at + 3] != '*');
            assert(s1[at + 3] == a[at + 3]);
            if we == at + 3 {
                assert(is_space(s1[we]));
            } else {
                assert(raw[3] == s1[at + 3]);
                assert(raw[3] == '*');
            }
            assert(false);
        }
        lemma_scan_lead(a, b, we);
    }
}

/// A bare upper-case `AND` between two parts of a search is only a separator: the search means
/// what it means with a plain space there. This holds wherever the part before it has no double
/// quote to open a phrase across it and no bare `NOT` word (which, last, would take the `AND`
/// as the word it excludes).
pub proof fn law_and_is_a_plain_separator(a: Seq<char>, b: Seq<char>)
    requires
        plain_lead(a),
    ensures
        tokens_of(a + and_gap() + b) == tokens_of(a + seq![' '] + b),
        fts(a + and_gap() + b) == fts(a + seq![' '] + b),
{
    lemma_scan_lead(a, b, 0);
}

} // verus!
