//! Laws of the lexer, stated and proved against [`crate::lexer::spec_tokenize`].
//!
//! Three families: re-tokenizing an emitted comment, processing instruction
//! or quoted value, re-wrapped in its delimiters, reproduces the one token;
//! whitespace-only input produces exactly one `Linebreak` per line feed and
//! nothing else; and a forest of balanced, attribute-free tags with
//! alphanumeric names tokenizes to exactly its alternating tag tokens.

use vstd::prelude::*;

use crate::chars::{is_alnum_char, is_space_char};
use crate::lexer::{
    emit, flushed, lex_from, lex_normal, lex_normal_step, lemma_emit_assoc, lemma_emit_nil,
    peek_at, spec_tokenize, Mode, TokenView,
};

verus! {

/// The closing delimiter of a comment, as the lexer looks for it.
pub open spec fn comment_closer() -> Seq<char> {
    seq![' ', '-', '-', '>']
}

/// The closing delimiter of a processing instruction, as the lexer looks
/// for it.
pub open spec fn pi_closer() -> Seq<char> {
    seq![' ', '?', '>']
}

/// Whether the comment scanner, standing at position `j` of `u`, sees the
/// four-character closing sequence.
pub open spec fn comment_end_at(u: Seq<char>, j: int) -> bool {
    u[j] == ' ' && u[j + 1] == '-' && u[j + 2] == '-' && u[j + 3] == '>'
}

/// Whether the processing-instruction scanner, standing at position `j` of
/// `u`, sees the three-character closing sequence.
pub open spec fn pi_end_at(u: Seq<char>, j: int) -> bool {
    u[j] == ' ' && u[j + 1] == '?' && u[j + 2] == '>'
}

/// A comment text that closes exactly at its end: followed by the closer,
/// no earlier position of the text matches the closing test.
pub open spec fn comment_closed(t: Seq<char>) -> bool {
    forall|j: int| 0 <= j < t.len() ==> !comment_end_at(t + comment_closer(), j)
}

/// A processing-instruction text that closes exactly at its end.
pub open spec fn pi_closed(t: Seq<char>) -> bool {
    forall|j: int| 0 <= j < t.len() ==> !pi_end_at(t + pi_closer(), j)
}

/// A quoted-value text: free of both quote characters.
pub open spec fn value_closed(t: Seq<char>) -> bool {
    forall|j: int| 0 <= j < t.len() ==> t[j] != '"' && t[j] != '\''
}

proof fn lemma_lex_value_run(s: Seq<char>, i: int, k: int, buf: Seq<char>)
    requires
        0 <= i,
        0 <= k,
        i + k <= s.len(),
        forall|j: int| i <= j < i + k ==> s[j] != '"' && s[j] != '\'',
    ensures
        lex_from(s, i, Mode::InsideQuotedValue, buf) == lex_from(
            s,
            i + k,
            Mode::InsideQuotedValue,
            buf + s.subrange(i, i + k),
        ),
    decreases k,
{
    if k == 0 {
        assert(buf + s.subrange(i, i) =~= buf);
    } else {
        let c = s[i];
        assert(lex_from(s, i, Mode::InsideQuotedValue, buf) == lex_from(
            s,
            i + 1,
            Mode::InsideQuotedValue,
            buf.push(c),
        ));
        lemma_lex_value_run(s, i + 1, k - 1, buf.push(c));
        assert(buf.push(c) + s.subrange(i + 1, i + k) =~= buf + s.subrange(i, i + k));
    }
}

proof fn lemma_lex_comment_run(s: Seq<char>, i: int, t: Seq<char>, buf: Seq<char>)
    requires
        0 <= i,
        i + t.len() + 4 <= s.len(),
        s.subrange(i, i + t.len() + 4) == t + comment_closer(),
        comment_closed(t),
    ensures
        lex_from(s, i, Mode::InsideComment, buf) == emit(
            seq![TokenView::Comment(buf + t)],
            lex_from(s, i + t.len() + 4, Mode::Normal, Seq::<char>::empty()),
        ),
    decreases t.len(),
{
    let u = t + comment_closer();
    assert forall|j: int| i <= j < i + u.len() implies #[trigger] s[j] == u[j - i] by {
        assert(s.subrange(i, i + t.len() + 4)[j - i] == s[j]);
    }
    if t.len() == 0 {
        assert(s[i] == ' ' && s[i + 1] == '-' && s[i + 2] == '-' && s[i + 3] == '>');
        assert(peek_at(s, i + 1) == '-' && peek_at(s, i + 2) == '-' && peek_at(s, i + 3) == '>');
        assert(buf + t =~= buf);
    } else {
        let c = s[i];
        assert(c == u[0] && u[0] == t[0]);
        assert(!comment_end_at(u, 0));
        assert(peek_at(s, i + 1) == u[1]);
        assert(peek_at(s, i + 2) == u[2]);
        assert(peek_at(s, i + 3) == u[3]);
        assert(lex_from(s, i, Mode::InsideComment, buf) == lex_from(
            s,
            i + 1,
            Mode::InsideComment,
            buf.push(c),
        ));
        let t2 = t.drop_first();
        assert(s.subrange(i + 1, i + 1 + t2.len() + 4) =~= t2 + comment_closer());
        assert forall|j: int| 0 <= j < t2.len() implies !comment_end_at(
            t2 + comment_closer(),
            j,
        ) by {
            assert(!comment_end_at(u, j + 1));
            assert((t2 + comment_closer()) =~= u.drop_first());
            assert(comment_end_at(t2 + comment_closer(), j) == comment_end_at(u, j + 1));
        }
        lemma_lex_comment_run(s, i + 1, t2, buf.push(c));
        assert(buf.push(c) + t2 =~= buf + t);
    }
}

proof fn lemma_lex_pi_run(s: Seq<char>, i: int, t: Seq<char>, buf: Seq<char>)
    requires
        0 <= i,
        i + t.len() + 3 <= s.len(),
        s.subrange(i, i + t.len() + 3) == t + pi_closer(),
        pi_closed(t),
    ensures
        lex_from(s, i, Mode::InsideProcessingInstruction, buf) == emit(
            seq![TokenView::ProcessingInstruction(buf + t)],
            lex_from(s, i + t.len() + 3, Mode::Normal, Seq::<char>::empty()),
        ),
    decreases t.len(),
{
    let u = t + pi_closer();
    assert forall|j: int| i <= j < i + u.len() implies #[trigger] s[j] == u[j - i] by {
        assert(s.subrange(i, i + t.len() + 3)[j - i] == s[j]);
    }
    if t.len() == 0 {
        assert(s[i] == ' ' && s[i + 1] == '?' && s[i + 2] == '>');
        assert(peek_at(s, i + 1) == '?' && peek_at(s, i + 2) == '>');
        assert(buf + t =~= buf);
    } else {
        let c = s[i];
        assert(c == u[0] && u[0] == t[0]);
        assert(!pi_end_at(u, 0));
        assert(peek_at(s, i + 1) == u[1] && peek_at(s, i + 2) == u[2]);
        assert(lex_from(s, i, Mode::InsideProcessingInstruction, buf) == lex_from(
            s,
            i + 1,
            Mode::InsideProcessingInstruction,
            buf.push(c),
        ));
        let t2 = t.drop_first();
        assert(s.subrange(i + 1, i + 1 + t2.len() + 3) =~= t2 + pi_closer());
        assert forall|j: int| 0 <= j < t2.len() implies !pi_end_at(t2 + pi_closer(), j) by {
            assert(!pi_end_at(u, j + 1));
            assert((t2 + pi_closer()) =~= u.drop_first());
            assert(pi_end_at(t2 + pi_closer(), j) == pi_end_at(u, j + 1));
        }
        lemma_lex_pi_run(s, i + 1, t2, buf.push(c));
        assert(buf.push(c) + t2 =~= buf + t);
    }
}

/// Law: re-tokenizing a quoted value's text, re-wrapped in quotes,
/// reproduces exactly that one `Value` token, for every text free of quote
/// characters — which, by [`lemma_emitted_tokens_closed`], every `Value`
/// the lexer emits is.
pub proof fn lemma_value_round_trip(t: Seq<char>)
    requires
        value_closed(t),
    ensures
        spec_tokenize(seq!['"'] + t + seq!['"']) == Ok::<_, Seq<char>>(
            seq![TokenView::Value(t)],
        ),
{
    let s = seq!['"'] + t + seq!['"'];
    assert(s[0] == '"');
    assert(0 < s.len());
    assert(lex_from(s, 0, Mode::Normal, Seq::<char>::empty()) == lex_normal(
        s,
        0,
        Seq::<char>::empty(),
    ));
    assert(lex_normal(s, 0, Seq::<char>::empty()) == lex_normal_step(s, 0, Seq::<char>::empty()));
    assert(s[0] != '<' && s[0] != '/' && s[0] != '>' && s[0] != '\n' && s[0] != '=');
    assert(lex_normal_step(s, 0, Seq::<char>::empty()) == lex_from(
        s,
        1,
        Mode::InsideQuotedValue,
        Seq::<char>::empty(),
    ));
    assert(lex_from(s, 0, Mode::Normal, Seq::<char>::empty()) == lex_from(
        s,
        1,
        Mode::InsideQuotedValue,
        Seq::<char>::empty(),
    ));
    assert forall|j: int| 1 <= j < 1 + t.len() implies s[j] != '"' && s[j] != '\'' by {
        assert(s[j] == t[j - 1]);
    }
    lemma_lex_value_run(s, 1, t.len() as int, Seq::<char>::empty());
    assert(Seq::<char>::empty() + s.subrange(1, 1 + t.len() as int) =~= t);
    assert(s[1 + t.len() as int] == '"');
    assert(lex_from(s, 1 + t.len() as int, Mode::InsideQuotedValue, t) == emit(
        seq![TokenView::Value(t)],
        lex_from(s, 2 + t.len() as int, Mode::Normal, Seq::<char>::empty()),
    ));
    assert(lex_from(s, 2 + t.len() as int, Mode::Normal, Seq::<char>::empty()) == Ok::<_, Seq<char>>(
        Seq::<TokenView>::empty(),
    ));
    assert(seq![TokenView::Value(t)] + Seq::<TokenView>::empty() =~= seq![TokenView::Value(t)]);
}

/// Law: re-tokenizing a comment's text, re-wrapped in `<!-- ` and ` -->`,
/// reproduces exactly that one `Comment` token, for every closed text —
/// which, by [`lemma_emitted_tokens_closed`], every `Comment` the lexer
/// emits is.
pub proof fn lemma_comment_round_trip(t: Seq<char>)
    requires
        comment_closed(t),
    ensures
        spec_tokenize(seq!['<', '!', '-', '-', ' '] + t + comment_closer()) == Ok::<
            _,
            Seq<char>,
        >(seq![TokenView::Comment(t)]),
{
    let s = seq!['<', '!', '-', '-', ' '] + t + comment_closer();
    assert(s[0] == '<' && s[1] == '!' && s[2] == '-' && s[3] == '-' && s[4] == ' ');
    assert(peek_at(s, 2) == '-' && peek_at(s, 3) == '-' && peek_at(s, 4) == ' ');
    assert(lex_from(s, 0, Mode::Normal, Seq::<char>::empty()) == lex_normal(
        s,
        0,
        Seq::<char>::empty(),
    ));
    assert(lex_normal(s, 0, Seq::<char>::empty()) == lex_normal_step(s, 0, Seq::<char>::empty()));
    assert(lex_normal_step(s, 0, Seq::<char>::empty()) == lex_from(
        s,
        5,
        Mode::InsideComment,
        Seq::<char>::empty(),
    ));
    assert(s.subrange(5, 5 + t.len() as int + 4) =~= t + comment_closer());
    lemma_lex_comment_run(s, 5, t, Seq::<char>::empty());
    assert(Seq::<char>::empty() + t =~= t);
    assert(lex_from(s, 5 + t.len() as int + 4, Mode::Normal, Seq::<char>::empty()) == Ok::<
        _,
        Seq<char>,
    >(Seq::<TokenView>::empty()));
    assert(seq![TokenView::Comment(t)] + Seq::<TokenView>::empty() =~= seq![
        TokenView::Comment(t),
    ]);
}

/// Law: re-tokenizing a processing instruction's text, re-wrapped in
/// `<? ` and ` ?>`, reproduces exactly that one `ProcessingInstruction`
/// token, for every closed text — which, by
/// [`lemma_emitted_tokens_closed`], every `ProcessingInstruction` the
/// lexer emits is.
pub proof fn lemma_pi_round_trip(t: Seq<char>)
    requires
        pi_closed(t),
    ensures
        spec_tokenize(seq!['<', '?', ' '] + t + pi_closer()) == Ok::<_, Seq<char>>(
            seq![TokenView::ProcessingInstruction(t)],
        ),
{
    let s = seq!['<', '?', ' '] + t + pi_closer();
    assert(s[0] == '<' && s[1] == '?' && s[2] == ' ');
    assert(lex_from(s, 0, Mode::Normal, Seq::<char>::empty()) == lex_normal(
        s,
        0,
        Seq::<char>::empty(),
    ));
    assert(lex_normal(s, 0, Seq::<char>::empty()) == lex_normal_step(s, 0, Seq::<char>::empty()));
    assert(lex_normal_step(s, 0, Seq::<char>::empty()) == lex_from(
        s,
        3,
        Mode::InsideProcessingInstruction,
        Seq::<char>::empty(),
    ));
    assert(s.subrange(3, 3 + t.len() as int + 3) =~= t + pi_closer());
    lemma_lex_pi_run(s, 3, t, Seq::<char>::empty());
    assert(Seq::<char>::empty() + t =~= t);
    assert(lex_from(s, 3 + t.len() as int + 3, Mode::Normal, Seq::<char>::empty()) == Ok::<
        _,
        Seq<char>,
    >(Seq::<TokenView>::empty()));
    assert(seq![TokenView::ProcessingInstruction(t)] + Seq::<TokenView>::empty() =~= seq![
        TokenView::ProcessingInstruction(t),
    ]);
}

/// One `Linebreak` for each line feed of `s`, in order, and nothing else.
pub open spec fn linebreaks_of(s: Seq<char>) -> Seq<TokenView>
    decreases s.len(),
{
    if s.len() == 0 {
        Seq::<TokenView>::empty()
    } else if s[0] == '\n' {
        seq![TokenView::Linebreak] + linebreaks_of(s.drop_first())
    } else {
        linebreaks_of(s.drop_first())
    }
}

proof fn lemma_lex_whitespace(s: Seq<char>, i: int)
    requires
        0 <= i <= s.len(),
        forall|j: int| i <= j < s.len() ==> is_space_char(#[trigger] s[j]) && !is_alnum_char(
            s[j],
        ),
    ensures
        lex_from(s, i, Mode::Normal, Seq::<char>::empty()) == Ok::<_, Seq<char>>(
            linebreaks_of(s.subrange(i, s.len() as int)),
        ),
    decreases s.len() - i,
{
    let rest = s.subrange(i, s.len() as int);
    if i >= s.len() {
        assert(rest =~= Seq::<char>::empty());
    } else {
        let c = s[i];
        assert(is_space_char(c) && !is_alnum_char(c));
        assert(rest[0] == c);
        assert(lex_from(s, i, Mode::Normal, Seq::<char>::empty()) == lex_normal(
            s,
            i,
            Seq::<char>::empty(),
        ));
        assert(lex_normal(s, i, Seq::<char>::empty()) == lex_normal_step(
            s,
            i,
            Seq::<char>::empty(),
        ));
        assert(c != '<' && c != '/' && c != '>' && c != '=' && c != '"' && c != '\'');
        if c == '\n' {
            if i + 1 < s.len() && s[i + 1] == '\r' {
                assert(lex_normal_step(s, i, Seq::<char>::empty()) == emit(
                    seq![TokenView::Linebreak],
                    lex_from(s, i + 2, Mode::Normal, Seq::<char>::empty()),
                ));
                lemma_lex_whitespace(s, i + 2);
                assert(rest.drop_first() =~= s.subrange(i + 1, s.len() as int));
                assert(rest.drop_first()[0] == '\r');
                assert(s.subrange(i + 1, s.len() as int).drop_first() =~= s.subrange(
                    i + 2,
                    s.len() as int,
                ));
                assert(linebreaks_of(s.subrange(i + 1, s.len() as int)) == linebreaks_of(
                    s.subrange(i + 2, s.len() as int),
                ));
                assert(linebreaks_of(rest) == seq![TokenView::Linebreak] + linebreaks_of(
                    s.subrange(i + 2, s.len() as int),
                ));
            } else {
                assert(lex_normal_step(s, i, Seq::<char>::empty()) == emit(
                    seq![TokenView::Linebreak],
                    lex_from(s, i + 1, Mode::Normal, Seq::<char>::empty()),
                ));
                lemma_lex_whitespace(s, i + 1);
                assert(rest.drop_first() =~= s.subrange(i + 1, s.len() as int));
            }
        } else {
            assert(c != '\n');
            assert(lex_normal_step(s, i, Seq::<char>::empty()) == emit(
                flushed(Seq::<char>::empty()),
                lex_from(s, i + 1, Mode::Normal, Seq::<char>::empty()),
            ));
            lemma_lex_whitespace(s, i + 1);
            assert(rest.drop_first() =~= s.subrange(i + 1, s.len() as int));
            assert(linebreaks_of(rest) == linebreaks_of(s.subrange(i + 1, s.len() as int)));
            assert(Seq::<TokenView>::empty() + linebreaks_of(s.subrange(i + 1, s.len() as int))
                =~= linebreaks_of(s.subrange(i + 1, s.len() as int)));
        }
    }
}

/// Law: input consisting of whitespace alone produces no token except one
/// `Linebreak` per line feed. The hypothesis also says no character counts
/// as alphanumeric, which is true of every actual whitespace character; it
/// is stated because beyond ASCII the two classes are named, not written
/// out.
pub proof fn lemma_whitespace_only(s: Seq<char>)
    requires
        forall|j: int| 0 <= j < s.len() ==> is_space_char(#[trigger] s[j]) && !is_alnum_char(
            s[j],
        ),
    ensures
        spec_tokenize(s) == Ok::<_, Seq<char>>(linebreaks_of(s)),
{
    lemma_lex_whitespace(s, 0);
    assert(s.subrange(0, s.len() as int) =~= s);
}

/// A balanced, attribute-free tag tree: either a self-closing tag or an
/// open/close pair around a forest of children.
pub enum TagTree {
    Single { name: Seq<char> },
    Many { name: Seq<char>, children: Seq<TagTree> },
}

/// A usable tag name: non-empty and alphanumeric throughout.
pub open spec fn tag_name_ok(name: Seq<char>) -> bool {
    name.len() > 0 && forall|j: int| 0 <= j < name.len() ==> is_alnum_char(#[trigger] name[j])
}

/// Every name in the tree is usable.
pub open spec fn tree_wf(t: TagTree) -> bool
    decreases t, 1int,
{
    match t {
        TagTree::Single { name } => tag_name_ok(name),
        TagTree::Many { name, children } => tag_name_ok(name) && forest_wf(children),
    }
}

/// Every name in the forest is usable.
pub open spec fn forest_wf(ts: Seq<TagTree>) -> bool
    decreases ts, 0int,
{
    if ts.len() == 0 {
        true
    } else {
        tree_wf(ts[0]) && forest_wf(ts.drop_first())
    }
}

/// The markup text of one tag tree: `<name/>`, or `<name>` around the
/// children and `</name>`.
pub open spec fn render_tree(t: TagTree) -> Seq<char>
    decreases t, 1int,
{
    match t {
        TagTree::Single { name } => seq!['<'] + name + seq!['/', '>'],
        TagTree::Many { name, children } => seq!['<'] + name + seq!['>'] + render_forest(
            children,
        ) + seq!['<', '/'] + name + seq!['>'],
    }
}

/// The markup text of a forest: its trees, one after the other.
pub open spec fn render_forest(ts: Seq<TagTree>) -> Seq<char>
    decreases ts, 0int,
{
    if ts.len() == 0 {
        Seq::<char>::empty()
    } else {
        render_tree(ts[0]) + render_forest(ts.drop_first())
    }
}

/// The tokens one tag tree lexes to.
pub open spec fn tree_tokens(t: TagTree) -> Seq<TokenView>
    decreases t, 1int,
{
    match t {
        TagTree::Single { name } => seq![
            TokenView::TagStartOpen,
            TokenView::Identifier(name),
            TokenView::TagCloseSingle,
        ],
        TagTree::Many { name, children } => seq![
            TokenView::TagStartOpen,
            TokenView::Identifier(name),
            TokenView::TagCloseMany,
        ] + forest_tokens(children) + seq![
            TokenView::TagEndOpen,
            TokenView::Identifier(name),
            TokenView::TagCloseMany,
        ],
    }
}

/// The tokens a forest lexes to.
pub open spec fn forest_tokens(ts: Seq<TagTree>) -> Seq<TokenView>
    decreases ts, 0int,
{
    if ts.len() == 0 {
        Seq::<TokenView>::empty()
    } else {
        tree_tokens(ts[0]) + forest_tokens(ts.drop_first())
    }
}

proof fn lemma_lex_alnum_run(s: Seq<char>, i: int, k: int, buf: Seq<char>)
    requires
        0 <= i,
        0 <= k,
        i + k <= s.len(),
        forall|j: int| i <= j < i + k ==> is_alnum_char(#[trigger] s[j]),
    ensures
        lex_from(s, i, Mode::Normal, buf) == lex_from(
            s,
            i + k,
            Mode::Normal,
            buf + s.subrange(i, i + k),
        ),
    decreases k,
{
    if k == 0 {
        assert(buf + s.subrange(i, i) =~= buf);
    } else {
        let c = s[i];
        assert(is_alnum_char(c));
        assert(c != '<' && c != '/' && c != '>' && c != '\n' && c != '=' && c != '"' && c
            != '\'');
        assert(lex_from(s, i, Mode::Normal, buf) == lex_normal(s, i, buf));
        assert(lex_normal(s, i, buf) == lex_normal_step(s, i, buf));
        assert(lex_normal_step(s, i, buf) == lex_from(s, i + 1, Mode::Normal, buf.push(c)));
        lemma_lex_alnum_run(s, i + 1, k - 1, buf.push(c));
        assert(buf.push(c) + s.subrange(i + 1, i + k) =~= buf + s.subrange(i, i + k));
    }
}

#[verifier::rlimit(50)]
proof fn lemma_lex_open_tag(s: Seq<char>, i: int, name: Seq<char>, single: bool)
    requires
        tag_name_ok(name),
        0 <= i,
        s[i] == '<',
        s.subrange(i + 1, i + 1 + name.len() as int) == name,
        single ==> i + name.len() + 3 <= s.len() && s[i + 1 + name.len()] == '/' && s[i + 2
            + name.len()] == '>',
        !single ==> i + name.len() + 2 <= s.len() && s[i + 1 + name.len()] == '>',
    ensures
        single ==> lex_from(s, i, Mode::Normal, Seq::<char>::empty()) == emit(
            seq![
                TokenView::TagStartOpen,
                TokenView::Identifier(name),
                TokenView::TagCloseSingle,
            ],
            lex_from(s, i + name.len() + 3, Mode::Normal, Seq::<char>::empty()),
        ),
        !single ==> lex_from(s, i, Mode::Normal, Seq::<char>::empty()) == emit(
            seq![TokenView::TagStartOpen, TokenView::Identifier(name), TokenView::TagCloseMany],
            lex_from(s, i + name.len() + 2, Mode::Normal, Seq::<char>::empty()),
        ),
{
    let e = Seq::<char>::empty();
    let n = name.len() as int;
    assert forall|j: int| i + 1 <= j < i + 1 + n implies #[trigger] s[j] == name[j - i - 1] by {
        assert(s.subrange(i + 1, i + 1 + n)[j - i - 1] == s[j]);
    }
    assert(s[i + 1] == name[0]);
    assert(is_alnum_char(name[0]));
    assert(name[0] != '/' && name[0] != '!' && name[0] != '?');
    assert(lex_from(s, i, Mode::Normal, e) == lex_normal(s, i, e));
    assert(lex_normal(s, i, e) == lex_normal_step(s, i, e));
    assert(lex_normal_step(s, i, e) == emit(
        seq![TokenView::TagStartOpen],
        lex_from(s, i + 1, Mode::Normal, e),
    ));
    assert forall|j: int| i + 1 <= j < i + 1 + n implies is_alnum_char(#[trigger] s[j]) by {
        assert(s[j] == name[j - i - 1]);
    }
    lemma_lex_alnum_run(s, i + 1, n, e);
    assert(e + s.subrange(i + 1, i + 1 + n) =~= name);
    let i2 = i + 1 + n;
    assert(lex_from(s, i2, Mode::Normal, name) == lex_normal(s, i2, name));
    assert(lex_normal(s, i2, name) == lex_normal_step(s, i2, name));
    if single {
        assert(s[i2] == '/' && s[i2 + 1] == '>');
        let rtail = lex_from(s, i2 + 2, Mode::Normal, e);
        assert(lex_normal_step(s, i2, name) == emit(
            flushed(name) + seq![TokenView::TagCloseSingle],
            rtail,
        ));
        let e1 = seq![TokenView::Identifier(name), TokenView::TagCloseSingle];
        assert(flushed(name) + seq![TokenView::TagCloseSingle] =~= e1);
        lemma_emit_assoc(seq![TokenView::TagStartOpen], e1, rtail);
        assert(seq![TokenView::TagStartOpen] + e1 =~= seq![
            TokenView::TagStartOpen,
            TokenView::Identifier(name),
            TokenView::TagCloseSingle,
        ]);
    } else {
        assert(s[i2] == '>');
        let rtail = lex_from(s, i2 + 1, Mode::Normal, e);
        assert(lex_normal_step(s, i2, name) == emit(
            flushed(name) + seq![TokenView::TagCloseMany],
            rtail,
        ));
        let e1 = seq![TokenView::Identifier(name), TokenView::TagCloseMany];
        assert(flushed(name) + seq![TokenView::TagCloseMany] =~= e1);
        lemma_emit_assoc(seq![TokenView::TagStartOpen], e1, rtail);
        assert(seq![TokenView::TagStartOpen] + e1 =~= seq![
            TokenView::TagStartOpen,
            TokenView::Identifier(name),
            TokenView::TagCloseMany,
        ]);
    }
}

#[verifier::rlimit(50)]
proof fn lemma_lex_close_tag(s: Seq<char>, i: int, name: Seq<char>)
    requires
        tag_name_ok(name),
        0 <= i,
        i + name.len() + 3 <= s.len(),
        s[i] == '<',
        s[i + 1] == '/',
        s.subrange(i + 2, i + 2 + name.len() as int) == name,
        s[i + 2 + name.len()] == '>',
    ensures
        lex_from(s, i, Mode::Normal, Seq::<char>::empty()) == emit(
            seq![TokenView::TagEndOpen, TokenView::Identifier(name), TokenView::TagCloseMany],
            lex_from(s, i + name.len() + 3, Mode::Normal, Seq::<char>::empty()),
        ),
{
    let e = Seq::<char>::empty();
    let n = name.len() as int;
    assert forall|j: int| i + 2 <= j < i + 2 + n implies #[trigger] s[j] == name[j - i - 2] by {
        assert(s.subrange(i + 2, i + 2 + n)[j - i - 2] == s[j]);
    }
    assert(lex_from(s, i, Mode::Normal, e) == lex_normal(s, i, e));
    assert(lex_normal(s, i, e) == lex_normal_step(s, i, e));
    assert(lex_normal_step(s, i, e) == emit(
        seq![TokenView::TagEndOpen],
        lex_from(s, i + 2, Mode::Normal, e),
    ));
    assert forall|j: int| i + 2 <= j < i + 2 + n implies is_alnum_char(#[trigger] s[j]) by {
        assert(s[j] == name[j - i - 2]);
    }
    lemma_lex_alnum_run(s, i + 2, n, e);
    assert(e + s.subrange(i + 2, i + 2 + n) =~= name);
    let i2 = i + 2 + n;
    assert(s[i2] == '>');
    assert(lex_from(s, i2, Mode::Normal, name) == lex_normal(s, i2, name));
    assert(lex_normal(s, i2, name) == lex_normal_step(s, i2, name));
    let rtail = lex_from(s, i2 + 1, Mode::Normal, e);
    assert(lex_normal_step(s, i2, name) == emit(
        flushed(name) + seq![TokenView::TagCloseMany],
        rtail,
    ));
    let e1 = seq![TokenView::Identifier(name), TokenView::TagCloseMany];
    assert(flushed(name) + seq![TokenView::TagCloseMany] =~= e1);
    lemma_emit_assoc(seq![TokenView::TagEndOpen], e1, rtail);
    assert(seq![TokenView::TagEndOpen] + e1 =~= seq![
        TokenView::TagEndOpen,
        TokenView::Identifier(name),
        TokenView::TagCloseMany,
    ]);
}

#[verifier::rlimit(80)]
#[verifier::spinoff_prover]
proof fn lemma_lex_tree(s: Seq<char>, i: int, t: TagTree)
    requires
        tree_wf(t),
        0 <= i,
        i + render_tree(t).len() <= s.len(),
        s.subrange(i, i + render_tree(t).len() as int) == render_tree(t),
    ensures
        lex_from(s, i, Mode::Normal, Seq::<char>::empty()) == emit(
            tree_tokens(t),
            lex_from(s, i + render_tree(t).len(), Mode::Normal, Seq::<char>::empty()),
        ),
    decreases t, 1int,
{
    let r = render_tree(t);
    let ln = r.len() as int;
    assert forall|j: int| i <= j < i + ln implies #[trigger] s[j] == r[j - i] by {
        assert(s.subrange(i, i + ln)[j - i] == s[j]);
    }
    let e = Seq::<char>::empty();
    let rtail = lex_from(s, i + ln, Mode::Normal, e);
    match t {
        TagTree::Single { name } => {
            let n = name.len() as int;
            assert(r == seq!['<'] + name + seq!['/', '>']);
            assert(ln == n + 3);
            assert(s[i] == '<');
            assert(s.subrange(i + 1, i + 1 + n) =~= name);
            assert(s[i + 1 + n] == '/' && s[i + 2 + n] == '>');
            lemma_lex_open_tag(s, i, name, true);
            assert(tree_tokens(t) == seq![
                TokenView::TagStartOpen,
                TokenView::Identifier(name),
                TokenView::TagCloseSingle,
            ]);
        },
        TagTree::Many { name, children } => {
            let n = name.len() as int;
            let rf = render_forest(children);
            let lf = rf.len() as int;
            assert(r == seq!['<'] + name + seq!['>'] + rf + seq!['<', '/'] + name + seq!['>']);
            assert(ln == 2 * n + lf + 5);
            assert(s[i] == '<');
            assert(s.subrange(i + 1, i + 1 + n) =~= name);
            assert(s[i + 1 + n] == '>');
            lemma_lex_open_tag(s, i, name, false);
            let e1 = seq![
                TokenView::TagStartOpen,
                TokenView::Identifier(name),
                TokenView::TagCloseMany,
            ];
            let i3 = i + n + 2;
            assert(s.subrange(i3, i3 + lf) =~= rf);
            lemma_lex_forest(s, i3, children);
            let ft = forest_tokens(children);
            let i4 = i3 + lf;
            assert(s[i4] == '<' && s[i4 + 1] == '/');
            assert(s.subrange(i4 + 2, i4 + 2 + n) =~= name);
            assert(s[i4 + 2 + n] == '>');
            lemma_lex_close_tag(s, i4, name);
            let e2 = seq![
                TokenView::TagEndOpen,
                TokenView::Identifier(name),
                TokenView::TagCloseMany,
            ];
            assert(i4 + n + 3 == i + ln);
            assert(lex_from(s, i, Mode::Normal, e) == emit(e1, emit(ft, emit(e2, rtail))));
            lemma_emit_assoc(ft, e2, rtail);
            lemma_emit_assoc(e1, ft + e2, rtail);
            assert(e1 + (ft + e2) =~= tree_tokens(t));
        },
    }
}

proof fn lemma_lex_forest(s: Seq<char>, i: int, ts: Seq<TagTree>)
    requires
        forest_wf(ts),
        0 <= i,
        i + render_forest(ts).len() <= s.len(),
        s.subrange(i, i + render_forest(ts).len() as int) == render_forest(ts),
    ensures
        lex_from(s, i, Mode::Normal, Seq::<char>::empty()) == emit(
            forest_tokens(ts),
            lex_from(s, i + render_forest(ts).len(), Mode::Normal, Seq::<char>::empty()),
        ),
    decreases ts, 0int,
{
    let e = Seq::<char>::empty();
    if ts.len() == 0 {
        assert(forest_tokens(ts) == Seq::<TokenView>::empty());
        lemma_emit_nil(lex_from(s, i, Mode::Normal, e));
    } else {
        let t0 = ts[0];
        let rest = ts.drop_first();
        let r0 = render_tree(t0);
        let rr = render_forest(rest);
        let l0 = r0.len() as int;
        let lr = rr.len() as int;
        let whole = render_forest(ts);
        assert(whole == r0 + rr);
        assert forall|j: int| i <= j < i + l0 + lr implies #[trigger] s[j] == whole[j - i] by {
            assert(s.subrange(i, i + whole.len() as int)[j - i] == s[j]);
        }
        assert(s.subrange(i, i + l0) =~= r0);
        assert(s.subrange(i + l0, i + l0 + lr) =~= rr);
        lemma_lex_tree(s, i, t0);
        lemma_lex_forest(s, i + l0, rest);
        let rtail = lex_from(s, i + l0 + lr, Mode::Normal, e);
        assert(lex_from(s, i, Mode::Normal, e) == emit(
            tree_tokens(t0),
            emit(forest_tokens(rest), rtail),
        ));
        lemma_emit_assoc(tree_tokens(t0), forest_tokens(rest), rtail);
        assert(tree_tokens(t0) + forest_tokens(rest) == forest_tokens(ts));
    }
}

/// Law: input consisting only of balanced tags with alphanumeric names and
/// no attributes tokenizes to exactly the forest's token sequence — for
/// each tag `TagStartOpen`, its `Identifier` and then `TagCloseSingle`, or
/// `TagCloseMany` with the children's tokens and the closing
/// `TagEndOpen`, `Identifier`, `TagCloseMany`.
pub proof fn lemma_balanced_tags(f: Seq<TagTree>)
    requires
        forest_wf(f),
    ensures
        spec_tokenize(render_forest(f)) == Ok::<_, Seq<char>>(forest_tokens(f)),
{
    let s = render_forest(f);
    assert(s.subrange(0, s.len() as int) =~= s);
    lemma_lex_forest(s, 0, f);
    assert(lex_from(s, s.len() as int, Mode::Normal, Seq::<char>::empty()) == Ok::<
        _,
        Seq<char>,
    >(Seq::<TokenView>::empty()));
    assert(forest_tokens(f) + Seq::<TokenView>::empty() =~= forest_tokens(f));
}

/// Law: tokenizing what a [`crate::structure::Comment`] node prints gives
/// back exactly one `Comment` token carrying its content, for every content
/// in which no position passes the closing test.
pub proof fn lemma_printed_comment_round_trip(content: Seq<char>)
    requires
        comment_closed(content),
    ensures
        spec_tokenize(crate::structure::comment_text(content)) == Ok::<_, Seq<char>>(
            seq![TokenView::Comment(content)],
        ),
{
    reveal_strlit("<!-- ");
    reveal_strlit(" -->");
    assert(crate::structure::comment_text(content) =~= seq!['<', '!', '-', '-', ' '] + content
        + comment_closer());
    lemma_comment_round_trip(content);
}

/// Whether the comment scanner's closing test passes at position `k` of
/// the input itself.
pub open spec fn raw_comment_end(s: Seq<char>, k: int) -> bool {
    s[k] == ' ' && peek_at(s, k + 1) == '-' && peek_at(s, k + 2) == '-' && peek_at(s, k + 3)
        == '>'
}

/// Whether the processing-instruction scanner's closing test passes at
/// position `k` of the input itself.
pub open spec fn raw_pi_end(s: Seq<char>, k: int) -> bool {
    s[k] == ' ' && peek_at(s, k + 1) == '?' && peek_at(s, k + 2) == '>'
}

/// The first position at or after `i` where the comment scanner's closing
/// test passes, or the end of the input if it never does.
pub open spec fn comment_scan_end(s: Seq<char>, i: int) -> int
    recommends
        0 <= i,
    decreases s.len() - i + 1,
{
    if i < 0 || i >= s.len() {
        s.len() as int
    } else if raw_comment_end(s, i) {
        i
    } else {
        comment_scan_end(s, i + 1)
    }
}

/// The first position at or after `i` where the processing-instruction
/// scanner's closing test passes, or the end of the input.
pub open spec fn pi_scan_end(s: Seq<char>, i: int) -> int
    recommends
        0 <= i,
    decreases s.len() - i + 1,
{
    if i < 0 || i >= s.len() {
        s.len() as int
    } else if raw_pi_end(s, i) {
        i
    } else {
        pi_scan_end(s, i + 1)
    }
}

/// The first quote at or after `i`, or the end of the input.
pub open spec fn value_scan_end(s: Seq<char>, i: int) -> int
    recommends
        0 <= i,
    decreases s.len() - i + 1,
{
    if i < 0 || i >= s.len() {
        s.len() as int
    } else if s[i] == '"' || s[i] == '\'' {
        i
    } else {
        value_scan_end(s, i + 1)
    }
}

proof fn lemma_comment_scan_end_props(s: Seq<char>, i: int)
    requires
        0 <= i <= s.len(),
    ensures
        i <= comment_scan_end(s, i) <= s.len(),
        comment_scan_end(s, i) < s.len() ==> raw_comment_end(s, comment_scan_end(s, i))
            && comment_scan_end(s, i) + 3 < s.len(),
        forall|k: int| i <= k < comment_scan_end(s, i) ==> !raw_comment_end(s, k),
    decreases s.len() - i,
{
    if i >= s.len() {
    } else if raw_comment_end(s, i) {
        assert(peek_at(s, i + 3) == '>');
        assert(i + 3 < s.len());
    } else {
        lemma_comment_scan_end_props(s, i + 1);
        assert forall|k: int| i <= k < comment_scan_end(s, i) implies !raw_comment_end(
            s,
            k,
        ) by {
            if k == i {
                assert(!raw_comment_end(s, i));
            }
        }
    }
}

proof fn lemma_pi_scan_end_props(s: Seq<char>, i: int)
    requires
        0 <= i <= s.len(),
    ensures
        i <= pi_scan_end(s, i) <= s.len(),
        pi_scan_end(s, i) < s.len() ==> raw_pi_end(s, pi_scan_end(s, i)) && pi_scan_end(s, i)
            + 2 < s.len(),
        forall|k: int| i <= k < pi_scan_end(s, i) ==> !raw_pi_end(s, k),
    decreases s.len() - i,
{
    if i >= s.len() {
    } else if raw_pi_end(s, i) {
        assert(peek_at(s, i + 2) == '>');
        assert(i + 2 < s.len());
    } else {
        lemma_pi_scan_end_props(s, i + 1);
        assert forall|k: int| i <= k < pi_scan_end(s, i) implies !raw_pi_end(s, k) by {
            if k == i {
                assert(!raw_pi_end(s, i));
            }
        }
    }
}

proof fn lemma_value_scan_end_props(s: Seq<char>, i: int)
    requires
        0 <= i <= s.len(),
    ensures
        i <= value_scan_end(s, i) <= s.len(),
        value_scan_end(s, i) < s.len() ==> s[value_scan_end(s, i)] == '"' || s[value_scan_end(
            s,
            i,
        )] == '\'',
        forall|k: int| i <= k < value_scan_end(s, i) ==> s[k] != '"' && #[trigger] s[k] != '\'',
    decreases s.len() - i,
{
    if i >= s.len() {
    } else if s[i] == '"' || s[i] == '\'' {
    } else {
        lemma_value_scan_end_props(s, i + 1);
    }
}

proof fn lemma_comment_scan(s: Seq<char>, i: int, buf: Seq<char>)
    requires
        0 <= i <= s.len(),
    ensures
        comment_scan_end(s, i) == s.len() ==> lex_from(s, i, Mode::InsideComment, buf) == Ok::<
            _,
            Seq<char>,
        >(Seq::<TokenView>::empty()),
        comment_scan_end(s, i) < s.len() ==> lex_from(s, i, Mode::InsideComment, buf) == emit(
            seq![TokenView::Comment(buf + s.subrange(i, comment_scan_end(s, i)))],
            lex_from(s, comment_scan_end(s, i) + 4, Mode::Normal, Seq::<char>::empty()),
        ),
    decreases s.len() - i,
{
    lemma_comment_scan_end_props(s, i);
    let j = comment_scan_end(s, i);
    if i >= s.len() {
    } else if raw_comment_end(s, i) {
        assert(j == i);
        assert(lex_from(s, i, Mode::InsideComment, buf) == emit(
            seq![TokenView::Comment(buf)],
            lex_from(s, i + 4, Mode::Normal, Seq::<char>::empty()),
        ));
        assert(buf + s.subrange(i, i) =~= buf);
    } else {
        assert(lex_from(s, i, Mode::InsideComment, buf) == lex_from(
            s,
            i + 1,
            Mode::InsideComment,
            buf.push(s[i]),
        ));
        lemma_comment_scan(s, i + 1, buf.push(s[i]));
        assert(comment_scan_end(s, i + 1) == j);
        if j < s.len() {
            assert(buf.push(s[i]) + s.subrange(i + 1, j) =~= buf + s.subrange(i, j));
        }
    }
}

proof fn lemma_pi_scan(s: Seq<char>, i: int, buf: Seq<char>)
    requires
        0 <= i <= s.len(),
    ensures
        pi_scan_end(s, i) == s.len() ==> lex_from(s, i, Mode::InsideProcessingInstruction, buf)
            == Ok::<_, Seq<char>>(Seq::<TokenView>::empty()),
        pi_scan_end(s, i) < s.len() ==> lex_from(s, i, Mode::InsideProcessingInstruction, buf)
            == emit(
            seq![TokenView::ProcessingInstruction(buf + s.subrange(i, pi_scan_end(s, i)))],
            lex_from(s, pi_scan_end(s, i) + 3, Mode::Normal, Seq::<char>::empty()),
        ),
    decreases s.len() - i,
{
    lemma_pi_scan_end_props(s, i);
    let j = pi_scan_end(s, i);
    if i >= s.len() {
    } else if raw_pi_end(s, i) {
        assert(j == i);
        assert(lex_from(s, i, Mode::InsideProcessingInstruction, buf) == emit(
            seq![TokenView::ProcessingInstruction(buf)],
            lex_from(s, i + 3, Mode::Normal, Seq::<char>::empty()),
        ));
        assert(buf + s.subrange(i, i) =~= buf);
    } else {
        assert(lex_from(s, i, Mode::InsideProcessingInstruction, buf) == lex_from(
            s,
            i + 1,
            Mode::InsideProcessingInstruction,
            buf.push(s[i]),
        ));
        lemma_pi_scan(s, i + 1, buf.push(s[i]));
        assert(pi_scan_end(s, i + 1) == j);
        if j < s.len() {
            assert(buf.push(s[i]) + s.subrange(i + 1, j) =~= buf + s.subrange(i, j));
        }
    }
}

proof fn lemma_value_scan(s: Seq<char>, i: int, buf: Seq<char>)
    requires
        0 <= i <= s.len(),
    ensures
        value_scan_end(s, i) == s.len() ==> lex_from(s, i, Mode::InsideQuotedValue, buf) == Ok::<
            _,
            Seq<char>,
        >(Seq::<TokenView>::empty()),
        value_scan_end(s, i) < s.len() ==> lex_from(s, i, Mode::InsideQuotedValue, buf) == emit(
            seq![TokenView::Value(buf + s.subrange(i, value_scan_end(s, i)))],
            lex_from(s, value_scan_end(s, i) + 1, Mode::Normal, Seq::<char>::empty()),
        ),
    decreases s.len() - i,
{
    lemma_value_scan_end_props(s, i);
    let j = value_scan_end(s, i);
    if i >= s.len() {
    } else if s[i] == '"' || s[i] == '\'' {
        assert(j == i);
        assert(buf + s.subrange(i, i) =~= buf);
    } else {
        assert(lex_from(s, i, Mode::InsideQuotedValue, buf) == lex_from(
            s,
            i + 1,
            Mode::InsideQuotedValue,
            buf.push(s[i]),
        ));
        lemma_value_scan(s, i + 1, buf.push(s[i]));
        assert(value_scan_end(s, i + 1) == j);
        if j < s.len() {
            assert(buf.push(s[i]) + s.subrange(i + 1, j) =~= buf + s.subrange(i, j));
        }
    }
}

/// Law: what the comment scanner emits is closed. A scan that starts at
/// `i` with nothing pending and finds its closing sequence emits one
/// `Comment` holding exactly the characters up to the first position that
/// passes the closing test — and that text satisfies [`comment_closed`],
/// so [`lemma_comment_round_trip`] applies to it.
pub proof fn lemma_comment_scan_emits_closed(s: Seq<char>, i: int)
    requires
        0 <= i <= s.len(),
        comment_scan_end(s, i) < s.len(),
    ensures
        lex_from(s, i, Mode::InsideComment, Seq::<char>::empty()) == emit(
            seq![TokenView::Comment(s.subrange(i, comment_scan_end(s, i)))],
            lex_from(s, comment_scan_end(s, i) + 4, Mode::Normal, Seq::<char>::empty()),
        ),
        comment_closed(s.subrange(i, comment_scan_end(s, i))),
{
    lemma_comment_scan(s, i, Seq::<char>::empty());
    lemma_comment_scanned_closed(s, i);
    assert(Seq::<char>::empty() + s.subrange(i, comment_scan_end(s, i)) =~= s.subrange(
        i,
        comment_scan_end(s, i),
    ));
}

proof fn lemma_comment_scanned_closed(s: Seq<char>, i: int)
    requires
        0 <= i <= s.len(),
        comment_scan_end(s, i) < s.len(),
    ensures
        comment_closed(s.subrange(i, comment_scan_end(s, i))),
{
    lemma_comment_scan_end_props(s, i);
    let j = comment_scan_end(s, i);
    let t = s.subrange(i, j);
    let u = t + comment_closer();
    assert(raw_comment_end(s, j));
    assert(s[j] == ' ' && s[j + 1] == '-' && s[j + 2] == '-' && s[j + 3] == '>');
    assert(u =~= s.subrange(i, j + 4));
    assert forall|m: int| 0 <= m < t.len() implies !comment_end_at(u, m) by {
        assert(u[m] == s[i + m]);
        assert(u[m + 1] == s[i + m + 1]);
        assert(u[m + 2] == s[i + m + 2]);
        assert(u[m + 3] == s[i + m + 3]);
        assert(!raw_comment_end(s, i + m));
        assert(peek_at(s, i + m + 1) == s[i + m + 1]);
        assert(peek_at(s, i + m + 2) == s[i + m + 2]);
        assert(peek_at(s, i + m + 3) == s[i + m + 3]);
    }
}

/// Law: what the processing-instruction scanner emits is closed, in the
/// sense of [`pi_closed`] — so [`lemma_pi_round_trip`] applies to it.
pub proof fn lemma_pi_scan_emits_closed(s: Seq<char>, i: int)
    requires
        0 <= i <= s.len(),
        pi_scan_end(s, i) < s.len(),
    ensures
        lex_from(s, i, Mode::InsideProcessingInstruction, Seq::<char>::empty()) == emit(
            seq![TokenView::ProcessingInstruction(s.subrange(i, pi_scan_end(s, i)))],
            lex_from(s, pi_scan_end(s, i) + 3, Mode::Normal, Seq::<char>::empty()),
        ),
        pi_closed(s.subrange(i, pi_scan_end(s, i))),
{
    lemma_pi_scan(s, i, Seq::<char>::empty());
    lemma_pi_scanned_closed(s, i);
    assert(Seq::<char>::empty() + s.subrange(i, pi_scan_end(s, i)) =~= s.subrange(
        i,
        pi_scan_end(s, i),
    ));
}

proof fn lemma_pi_scanned_closed(s: Seq<char>, i: int)
    requires
        0 <= i <= s.len(),
        pi_scan_end(s, i) < s.len(),
    ensures
        pi_closed(s.subrange(i, pi_scan_end(s, i))),
{
    lemma_pi_scan_end_props(s, i);
    let j = pi_scan_end(s, i);
    let t = s.subrange(i, j);
    let u = t + pi_closer();
    assert(raw_pi_end(s, j));
    assert(s[j] == ' ' && s[j + 1] == '?' && s[j + 2] == '>');
    assert(u =~= s.subrange(i, j + 3));
    assert forall|m: int| 0 <= m < t.len() implies !pi_end_at(u, m) by {
        assert(u[m] == s[i + m]);
        assert(u[m + 1] == s[i + m + 1]);
        assert(u[m + 2] == s[i + m + 2]);
        assert(!raw_pi_end(s, i + m));
        assert(peek_at(s, i + m + 1) == s[i + m + 1]);
        assert(peek_at(s, i + m + 2) == s[i + m + 2]);
    }
}

/// Law: what the value scanner emits is free of quote characters, in the
/// sense of [`value_closed`] — so [`lemma_value_round_trip`] applies to it.
pub proof fn lemma_value_scan_emits_closed(s: Seq<char>, i: int)
    requires
        0 <= i <= s.len(),
        value_scan_end(s, i) < s.len(),
    ensures
        lex_from(s, i, Mode::InsideQuotedValue, Seq::<char>::empty()) == emit(
            seq![TokenView::Value(s.subrange(i, value_scan_end(s, i)))],
            lex_from(s, value_scan_end(s, i) + 1, Mode::Normal, Seq::<char>::empty()),
        ),
        value_closed(s.subrange(i, value_scan_end(s, i))),
{
    lemma_value_scan(s, i, Seq::<char>::empty());
    lemma_value_scanned_closed(s, i);
    assert(Seq::<char>::empty() + s.subrange(i, value_scan_end(s, i)) =~= s.subrange(
        i,
        value_scan_end(s, i),
    ));
}

proof fn lemma_value_scanned_closed(s: Seq<char>, i: int)
    requires
        0 <= i <= s.len(),
        value_scan_end(s, i) < s.len(),
    ensures
        value_closed(s.subrange(i, value_scan_end(s, i))),
{
    lemma_value_scan_end_props(s, i);
    let j = value_scan_end(s, i);
    let t = s.subrange(i, j);
    assert forall|m: int| 0 <= m < t.len() implies t[m] != '"' && t[m] != '\'' by {
        assert(t[m] == s[i + m]);
    }
}

/// Law: a closed comment text stays closed under an alphanumeric prefix —
/// the only shape of pending text the lexer can carry into a comment,
/// since in normal mode only alphanumeric characters accumulate.
pub proof fn lemma_comment_closed_alnum_prefix(p: Seq<char>, w: Seq<char>)
    requires
        forall|j: int| 0 <= j < p.len() ==> is_alnum_char(#[trigger] p[j]),
        comment_closed(w),
    ensures
        comment_closed(p + w),
{
    let u = (p + w) + comment_closer();
    let uw = w + comment_closer();
    assert forall|m: int| 0 <= m < (p + w).len() implies !comment_end_at(u, m) by {
        if m < p.len() {
            assert(u[m] == p[m]);
            assert(is_alnum_char(p[m]));
            assert(p[m] != ' ');
        } else {
            assert(u[m] == uw[m - p.len()]);
            assert(u[m + 1] == uw[m - p.len() + 1]);
            assert(u[m + 2] == uw[m - p.len() + 2]);
            assert(u[m + 3] == uw[m - p.len() + 3]);
            assert(!comment_end_at(uw, m - p.len()));
        }
    }
}

/// Law: a closed processing-instruction text stays closed under an
/// alphanumeric prefix.
pub proof fn lemma_pi_closed_alnum_prefix(p: Seq<char>, w: Seq<char>)
    requires
        forall|j: int| 0 <= j < p.len() ==> is_alnum_char(#[trigger] p[j]),
        pi_closed(w),
    ensures
        pi_closed(p + w),
{
    let u = (p + w) + pi_closer();
    let uw = w + pi_closer();
    assert forall|m: int| 0 <= m < (p + w).len() implies !pi_end_at(u, m) by {
        if m < p.len() {
            assert(u[m] == p[m]);
            assert(is_alnum_char(p[m]));
            assert(p[m] != ' ');
        } else {
            assert(u[m] == uw[m - p.len()]);
            assert(u[m + 1] == uw[m - p.len() + 1]);
            assert(u[m + 2] == uw[m - p.len() + 2]);
            assert(!pi_end_at(uw, m - p.len()));
        }
    }
}

/// Law: a quote-free value text stays quote-free under an alphanumeric
/// prefix.
pub proof fn lemma_value_closed_alnum_prefix(p: Seq<char>, w: Seq<char>)
    requires
        forall|j: int| 0 <= j < p.len() ==> is_alnum_char(#[trigger] p[j]),
        value_closed(w),
    ensures
        value_closed(p + w),
{
    assert forall|m: int| 0 <= m < (p + w).len() implies (p + w)[m] != '"' && (p + w)[m]
        != '\'' by {
        if m < p.len() {
            assert((p + w)[m] == p[m]);
            assert(is_alnum_char(p[m]));
        } else {
            assert((p + w)[m] == w[m - p.len()]);
        }
    }
}

/// Whether a token's text would survive re-wrapping in its own delimiters:
/// comments, processing instructions and values must be closed; every
/// other token carries no text to constrain.
pub open spec fn token_closed(t: TokenView) -> bool {
    match t {
        TokenView::Comment(c) => comment_closed(c),
        TokenView::ProcessingInstruction(c) => pi_closed(c),
        TokenView::Value(c) => value_closed(c),
        _ => true,
    }
}

/// Every token of the sequence is closed.
pub open spec fn all_tokens_closed(ts: Seq<TokenView>) -> bool {
    forall|k: int| 0 <= k < ts.len() ==> token_closed(#[trigger] ts[k])
}

/// Alphanumeric throughout — the only shape the lexer's pending text ever
/// has in normal mode.
pub open spec fn alnum_text(p: Seq<char>) -> bool {
    forall|j: int| 0 <= j < p.len() ==> is_alnum_char(#[trigger] p[j])
}

proof fn lemma_all_closed_append(a: Seq<TokenView>, b: Seq<TokenView>)
    requires
        all_tokens_closed(a),
        all_tokens_closed(b),
    ensures
        all_tokens_closed(a + b),
{
    assert forall|k: int| 0 <= k < (a + b).len() implies token_closed(#[trigger] (a + b)[k]) by {
        if k < a.len() {
            assert((a + b)[k] == a[k]);
        } else {
            assert((a + b)[k] == b[k - a.len()]);
        }
    }
}

proof fn lemma_singleton_closed(t: TokenView)
    requires
        token_closed(t),
    ensures
        all_tokens_closed(seq![t]),
{
    assert(seq![t][0] == t);
}

proof fn lemma_flushed_closed(buf: Seq<char>)
    ensures
        all_tokens_closed(flushed(buf)),
{
    if buf.len() > 0 {
        assert(flushed(buf)[0] == TokenView::Identifier(buf));
    }
}

#[verifier::rlimit(100)]
#[verifier::spinoff_prover]
proof fn lemma_run_closed(s: Seq<char>, i: int, buf: Seq<char>)
    requires
        0 <= i <= s.len(),
        alnum_text(buf),
    ensures
        lex_from(s, i, Mode::Normal, buf) matches Ok(ts) ==> all_tokens_closed(ts),
    decreases s.len() - i,
{
    let e = Seq::<char>::empty();
    if i >= s.len() {
    } else {
        let c = s[i];
        assert(lex_from(s, i, Mode::Normal, buf) == lex_normal(s, i, buf));
        assert(lex_normal(s, i, buf) == lex_normal_step(s, i, buf));
        if c == '<' {
            if i + 1 < s.len() {
                let p = s[i + 1];
                if p == '/' {
                    assert(lex_normal_step(s, i, buf) == emit(
                        seq![TokenView::TagEndOpen],
                        lex_from(s, i + 2, Mode::Normal, buf),
                    ));
                    lemma_run_closed(s, i + 2, buf);
                    match lex_from(s, i + 2, Mode::Normal, buf) {
                        Ok(ts2) => {
                            lemma_singleton_closed(TokenView::TagEndOpen);
                            lemma_all_closed_append(seq![TokenView::TagEndOpen], ts2);
                        },
                        Err(_) => {},
                    }
                } else if p == '!' {
                    if peek_at(s, i + 2) == '-' && peek_at(s, i + 3) == '-' && peek_at(s, i + 4)
                        == ' ' {
                        assert(lex_normal_step(s, i, buf) == lex_from(
                            s,
                            i + 5,
                            Mode::InsideComment,
                            buf,
                        ));
                        assert(peek_at(s, i + 4) == ' ');
                        assert(i + 4 < s.len());
                        let j = comment_scan_end(s, i + 5);
                        lemma_comment_scan_end_props(s, i + 5);
                        lemma_comment_scan(s, i + 5, buf);
                        if j < s.len() {
                            lemma_comment_scanned_closed(s, i + 5);
                            lemma_comment_closed_alnum_prefix(buf, s.subrange(i + 5, j));
                            lemma_run_closed(s, j + 4, e);
                            match lex_from(s, j + 4, Mode::Normal, e) {
                                Ok(ts2) => {
                                    let tok = TokenView::Comment(buf + s.subrange(i + 5, j));
                                    lemma_singleton_closed(tok);
                                    lemma_all_closed_append(seq![tok], ts2);
                                },
                                Err(_) => {},
                            }
                        }
                    }
                } else if p == '?' {
                    assert(lex_normal_step(s, i, buf) == lex_from(
                        s,
                        i + 3,
                        Mode::InsideProcessingInstruction,
                        buf,
                    ));
                    if i + 3 <= s.len() {
                        let j = pi_scan_end(s, i + 3);
                        lemma_pi_scan_end_props(s, i + 3);
                        lemma_pi_scan(s, i + 3, buf);
                        if j < s.len() {
                            lemma_pi_scanned_closed(s, i + 3);
                            lemma_pi_closed_alnum_prefix(buf, s.subrange(i + 3, j));
                            lemma_run_closed(s, j + 3, e);
                            match lex_from(s, j + 3, Mode::Normal, e) {
                                Ok(ts2) => {
                                    let tok = TokenView::ProcessingInstruction(
                                        buf + s.subrange(i + 3, j),
                                    );
                                    lemma_singleton_closed(tok);
                                    lemma_all_closed_append(seq![tok], ts2);
                                },
                                Err(_) => {},
                            }
                        }
                    }
                } else if is_alnum_char(p) {
                    assert(lex_normal_step(s, i, buf) == emit(
                        seq![TokenView::TagStartOpen],
                        lex_from(s, i + 1, Mode::Normal, buf),
                    ));
                    lemma_run_closed(s, i + 1, buf);
                    match lex_from(s, i + 1, Mode::Normal, buf) {
                        Ok(ts2) => {
                            lemma_singleton_closed(TokenView::TagStartOpen);
                            lemma_all_closed_append(seq![TokenView::TagStartOpen], ts2);
                        },
                        Err(_) => {},
                    }
                }
            }
        } else if c == '/' {
            if i + 1 < s.len() && s[i + 1] == '>' {
                assert(lex_normal_step(s, i, buf) == emit(
                    flushed(buf) + seq![TokenView::TagCloseSingle],
                    lex_from(s, i + 2, Mode::Normal, e),
                ));
                lemma_run_closed(s, i + 2, e);
                match lex_from(s, i + 2, Mode::Normal, e) {
                    Ok(ts2) => {
                        lemma_flushed_closed(buf);
                        lemma_singleton_closed(TokenView::TagCloseSingle);
                        lemma_all_closed_append(flushed(buf), seq![TokenView::TagCloseSingle]);
                        lemma_all_closed_append(
                            flushed(buf) + seq![TokenView::TagCloseSingle],
                            ts2,
                        );
                    },
                    Err(_) => {},
                }
            }
        } else if c == '>' {
            assert(lex_normal_step(s, i, buf) == emit(
                flushed(buf) + seq![TokenView::TagCloseMany],
                lex_from(s, i + 1, Mode::Normal, e),
            ));
            lemma_run_closed(s, i + 1, e);
            match lex_from(s, i + 1, Mode::Normal, e) {
                Ok(ts2) => {
                    lemma_flushed_closed(buf);
                    lemma_singleton_closed(TokenView::TagCloseMany);
                    lemma_all_closed_append(flushed(buf), seq![TokenView::TagCloseMany]);
                    lemma_all_closed_append(flushed(buf) + seq![TokenView::TagCloseMany], ts2);
                },
                Err(_) => {},
            }
        } else if c == '\n' {
            let next = if i + 1 < s.len() && s[i + 1] == '\r' {
                i + 2
            } else {
                i + 1
            };
            assert(lex_normal_step(s, i, buf) == emit(
                flushed(buf) + seq![TokenView::Linebreak],
                lex_from(s, next, Mode::Normal, e),
            ));
            lemma_run_closed(s, next, e);
            match lex_from(s, next, Mode::Normal, e) {
                Ok(ts2) => {
                    lemma_flushed_closed(buf);
                    lemma_singleton_closed(TokenView::Linebreak);
                    lemma_all_closed_append(flushed(buf), seq![TokenView::Linebreak]);
                    lemma_all_closed_append(flushed(buf) + seq![TokenView::Linebreak], ts2);
                },
                Err(_) => {},
            }
        } else if c == '=' {
            assert(lex_normal_step(s, i, buf) == emit(
                flushed(buf) + seq![TokenView::Equals],
                lex_from(s, i + 1, Mode::Normal, e),
            ));
            lemma_run_closed(s, i + 1, e);
            match lex_from(s, i + 1, Mode::Normal, e) {
                Ok(ts2) => {
                    lemma_flushed_closed(buf);
                    lemma_singleton_closed(TokenView::Equals);
                    lemma_all_closed_append(flushed(buf), seq![TokenView::Equals]);
                    lemma_all_closed_append(flushed(buf) + seq![TokenView::Equals], ts2);
                },
                Err(_) => {},
            }
        } else if c == '"' || c == '\'' {
            assert(lex_normal_step(s, i, buf) == lex_from(
                s,
                i + 1,
                Mode::InsideQuotedValue,
                buf,
            ));
            let j = value_scan_end(s, i + 1);
            lemma_value_scan_end_props(s, i + 1);
            lemma_value_scan(s, i + 1, buf);
            if j < s.len() {
                lemma_value_scanned_closed(s, i + 1);
                lemma_value_closed_alnum_prefix(buf, s.subrange(i + 1, j));
                lemma_run_closed(s, j + 1, e);
                match lex_from(s, j + 1, Mode::Normal, e) {
                    Ok(ts2) => {
                        let tok = TokenView::Value(buf + s.subrange(i + 1, j));
                        lemma_singleton_closed(tok);
                        lemma_all_closed_append(seq![tok], ts2);
                    },
                    Err(_) => {},
                }
            }
        } else if is_alnum_char(c) {
            assert(lex_normal_step(s, i, buf) == lex_from(s, i + 1, Mode::Normal, buf.push(c)));
            assert forall|j: int| 0 <= j < buf.push(c).len() implies is_alnum_char(
                #[trigger] buf.push(c)[j],
            ) by {
                if j < buf.len() {
                    assert(buf.push(c)[j] == buf[j]);
                } else {
                    assert(buf.push(c)[j] == c);
                }
            }
            lemma_run_closed(s, i + 1, buf.push(c));
        } else if is_space_char(c) {
            assert(lex_normal_step(s, i, buf) == emit(
                flushed(buf),
                lex_from(s, i + 1, Mode::Normal, e),
            ));
            lemma_run_closed(s, i + 1, e);
            match lex_from(s, i + 1, Mode::Normal, e) {
                Ok(ts2) => {
                    lemma_flushed_closed(buf);
                    lemma_all_closed_append(flushed(buf), ts2);
                },
                Err(_) => {},
            }
        }
    }
}

/// Law: every comment, processing instruction and value token that a
/// successful tokenization emits carries a closed text — so the round-trip
/// laws apply to each token the lexer ever hands out.
pub proof fn lemma_emitted_tokens_closed(s: Seq<char>)
    ensures
        spec_tokenize(s) matches Ok(ts) ==> all_tokens_closed(ts),
{
    lemma_run_closed(s, 0, Seq::<char>::empty());
}

} // verus!
