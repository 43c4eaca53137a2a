//! Lexical analysis of MIDL source text.
//!
//! Regular `//` comments are dropped, `///` comments become documentation tokens, and every
//! token carries the 1-based line and column of its first character.
use vstd::prelude::*;
use crate::midl::ast::{Diagnostic, DiagnosticModel};
use crate::text::{chars_of, concat, push_char, string_of, string_of_range};

verus! {

#[derive(Clone, Debug, PartialEq, Eq)]
pub enum TokenKind {
    Ident(String),
    Doc(String),
    Arrow,
    Symbol(char),
    Eof,
}

#[derive(Clone, Debug, PartialEq, Eq)]
pub struct Token {
    pub kind: TokenKind,
    pub line: usize,
    pub column: usize,
}

/// The mathematical value of a [`TokenKind`].
pub enum TokenKindModel {
    Ident(Seq<char>),
    Doc(Seq<char>),
    Arrow,
    Symbol(char),
    Eof,
    /// A plain `//` comment while lexing: it detaches the documentation comments right before
    /// it and never reaches the token list.
    Break,
}

pub struct TokenModel {
    pub kind: TokenKindModel,
    pub line: int,
    pub column: int,
}

impl TokenKind {
    pub open spec fn model(&self) -> TokenKindModel {
        match self {
            TokenKind::Ident(s) => TokenKindModel::Ident(s@),
            TokenKind::Doc(s) => TokenKindModel::Doc(s@),
            TokenKind::Arrow => TokenKindModel::Arrow,
            TokenKind::Symbol(c) => TokenKindModel::Symbol(*c),
            TokenKind::Eof => TokenKindModel::Eof,
        }
    }
}

impl Token {
    pub open spec fn model(&self) -> TokenModel {
        TokenModel { kind: self.kind.model(), line: self.line as int, column: self.column as int }
    }
}

pub open spec fn tokens_model(v: Seq<Token>) -> Seq<TokenModel> {
    v.map_values(|t: Token| t.model())
}

/// Characters that separate tokens.
pub open spec fn is_layout(c: char) -> bool {
    c == ' ' || c == '\t' || c == '\r' || c == '\n'
}

/// Characters that form a token on their own.
pub open spec fn is_symbol_char(c: char) -> bool {
    c == '{' || c == '}' || c == '(' || c == ')' || c == '[' || c == ']' || c == '<' || c == '>'
        || c == ':' || c == ';' || c == ',' || c == '=' || c == '?'
}

pub open spec fn spec_is_ident_start(c: char) -> bool {
    c == '_' || ('a' <= c && c <= 'z') || ('A' <= c && c <= 'Z')
}

pub open spec fn spec_is_ident_continue(c: char) -> bool {
    spec_is_ident_start(c) || ('0' <= c && c <= '9')
}

/// Unicode `White_Space` characters: what `char::is_whitespace` accepts.
pub open spec fn is_unicode_whitespace(c: char) -> bool {
    ('\u{9}' <= c && c <= '\u{d}') || c == ' ' || c == '\u{85}' || c == '\u{a0}' || c == '\u{1680}'
        || ('\u{2000}' <= c && c <= '\u{200a}') || c == '\u{2028}' || c == '\u{2029}' || c
        == '\u{202f}' || c == '\u{205f}' || c == '\u{3000}'
}

/// `t` without its leading whitespace.
pub open spec fn trim_leading_whitespace(t: Seq<char>) -> Seq<char>
    decreases t.len(),
{
    if t.len() > 0 && is_unicode_whitespace(t[0]) {
        trim_leading_whitespace(t.drop_first())
    } else {
        t
    }
}

/// The 1-based line of position `i` of `s`: one more than the newlines before it.
pub open spec fn line_at(s: Seq<char>, i: int) -> int
    decreases i,
{
    if i <= 0 {
        1
    } else if s[i - 1] == '\n' {
        line_at(s, i - 1) + 1
    } else {
        line_at(s, i - 1)
    }
}

/// The 1-based column of position `i` of `s`: one more than the characters since the last
/// newline before it.
pub open spec fn column_at(s: Seq<char>, i: int) -> int
    decreases i,
{
    if i <= 0 {
        1
    } else if s[i - 1] == '\n' {
        1
    } else {
        column_at(s, i - 1) + 1
    }
}

/// The first newline at or after `i`, or the end of `s`.
pub open spec fn line_end(s: Seq<char>, i: int) -> int
    decreases s.len() - i,
{
    if i >= s.len() {
        s.len() as int
    } else if s[i] == '\n' {
        i
    } else {
        line_end(s, i + 1)
    }
}

/// The first position at or after `i` that cannot continue an identifier, or the end of `s`.
pub open spec fn ident_end(s: Seq<char>, i: int) -> int
    decreases s.len() - i,
{
    if i >= s.len() {
        s.len() as int
    } else if !spec_is_ident_continue(s[i]) {
        i
    } else {
        ident_end(s, i + 1)
    }
}

pub proof fn lemma_line_end(s: Seq<char>, i: int)
    requires
        0 <= i,
    ensures
        i <= line_end(s, i) || s.len() < i,
        line_end(s, i) <= s.len(),
        forall|j: int| i <= j < line_end(s, i) ==> s[j] != '\n',
        line_end(s, i) < s.len() ==> s[line_end(s, i)] == '\n',
    decreases s.len() - i,
{
    if i < s.len() && s[i] != '\n' {
        lemma_line_end(s, i + 1);
    }
}

pub proof fn lemma_ident_end(s: Seq<char>, i: int)
    requires
        0 <= i,
    ensures
        i <= line_end(s, i) || s.len() < i,
        ident_end(s, i) <= s.len(),
        i <= s.len() ==> i <= ident_end(s, i),
        forall|j: int| i <= j < ident_end(s, i) ==> spec_is_ident_continue(s[j]),
        ident_end(s, i) < s.len() ==> !spec_is_ident_continue(s[ident_end(s, i)]),
    decreases s.len() - i,
{
    lemma_line_end(s, i);
    if i < s.len() && spec_is_ident_continue(s[i]) {
        lemma_ident_end(s, i + 1);
    }
}

/// Why lexing stopped.
pub enum LexFailure {
    /// A `/` that does not start a comment.
    LoneSlash,
    /// A `-` that does not start `->`.
    LoneDash,
    /// A character that starts no token.
    Unexpected(char),
}

/// The message a [`LexFailure`] is reported with.
pub open spec fn failure_message(f: LexFailure) -> Seq<char> {
    match f {
        LexFailure::LoneSlash => "expected comment after `/`"@,
        LexFailure::LoneDash => "expected `>` after `-`"@,
        LexFailure::Unexpected(c) => "unexpected character `"@ + seq![c] + "`"@,
    }
}

/// `prefix` in front of what `rest` lexed, unless `rest` failed.
pub open spec fn prepend_lexed(
    prefix: Seq<(TokenKindModel, int)>,
    rest: Result<Seq<(TokenKindModel, int)>, (LexFailure, int)>,
) -> Result<Seq<(TokenKindModel, int)>, (LexFailure, int)> {
    match rest {
        Ok(r) => Ok(prefix + r),
        Err(e) => Err(e),
    }
}

/// The tokens of `s` from position `i` on, each with the position it starts at, or the first
/// failure and its position.
pub open spec fn lex_from(s: Seq<char>, i: int) -> Result<Seq<(TokenKindModel, int)>, (LexFailure, int)>
    decreases s.len() - i,
{
    if i < 0 || i >= s.len() {
        Ok(Seq::empty())
    } else {
        let c = s[i];
        if is_layout(c) {
            lex_from(s, i + 1)
        } else if c == '/' {
            if i + 1 < s.len() && s[i + 1] == '/' {
                if i + 2 < s.len() && s[i + 2] == '/' {
                    proof {
                        lemma_line_end(s, i + 3);
                    }
                    let e = line_end(s, i + 3);
                    prepend_lexed(
                        seq![(TokenKindModel::Doc(trim_leading_whitespace(s.subrange(i + 3, e))), i)],
                        lex_from(s, e),
                    )
                } else {
                    proof {
                        lemma_line_end(s, i + 2);
                    }
                    prepend_lexed(seq![(TokenKindModel::Break, i)], lex_from(s, line_end(s, i + 2)))
                }
            } else {
                Err((LexFailure::LoneSlash, i))
            }
        } else if c == '-' {
            if i + 1 < s.len() && s[i + 1] == '>' {
                prepend_lexed(seq![(TokenKindModel::Arrow, i)], lex_from(s, i + 2))
            } else {
                Err((LexFailure::LoneDash, i))
            }
        } else if is_symbol_char(c) {
            prepend_lexed(seq![(TokenKindModel::Symbol(c), i)], lex_from(s, i + 1))
        } else if spec_is_ident_start(c) {
            proof {
                lemma_ident_end(s, i);
                lemma_ident_end(s, i + 1);
            }
            let e = ident_end(s, i + 1);
            prepend_lexed(seq![(TokenKindModel::Ident(s.subrange(i, e)), i)], lex_from(s, e))
        } else {
            Err((LexFailure::Unexpected(c), i))
        }
    }
}

proof fn lemma_prepend_one(
    lexed: Seq<(TokenKindModel, int)>,
    tok: (TokenKindModel, int),
    rest: Result<Seq<(TokenKindModel, int)>, (LexFailure, int)>,
)
    ensures
        prepend_lexed(lexed, prepend_lexed(seq![tok], rest)) == prepend_lexed(lexed.push(tok), rest),
{
    if let Ok(r) = rest {
        assert(lexed + (seq![tok] + r) =~= lexed.push(tok) + r);
    }
}

/// `lexed` without the documentation comments at its end.
pub open spec fn drop_trailing_docs(lexed: Seq<(TokenKindModel, int)>) -> Seq<(TokenKindModel, int)>
    decreases lexed.len(),
{
    if lexed.len() > 0 && lexed.last().0 is Doc {
        drop_trailing_docs(lexed.drop_last())
    } else {
        lexed
    }
}

/// The lexed tokens once plain comments have taken effect: each one drops the documentation
/// comments right before it, and goes itself.
pub open spec fn detach(lexed: Seq<(TokenKindModel, int)>) -> Seq<(TokenKindModel, int)>
    decreases lexed.len(),
{
    if lexed.len() == 0 {
        lexed
    } else if lexed.last().0 == TokenKindModel::Break {
        drop_trailing_docs(detach(lexed.drop_last()))
    } else {
        detach(lexed.drop_last()).push(lexed.last())
    }
}

proof fn lemma_detach_push(lexed: Seq<(TokenKindModel, int)>, tok: (TokenKindModel, int))
    ensures
        tok.0 != TokenKindModel::Break ==> detach(lexed.push(tok)) == detach(lexed).push(tok),
        tok.0 == TokenKindModel::Break ==> detach(lexed.push(tok)) == drop_trailing_docs(detach(lexed)),
{
    assert(lexed.push(tok).drop_last() =~= lexed);
}

/// Lexed tokens with the line and column of their positions.
pub open spec fn locate(s: Seq<char>, lexed: Seq<(TokenKindModel, int)>) -> Seq<TokenModel> {
    lexed.map_values(
        |p: (TokenKindModel, int)| TokenModel { kind: p.0, line: line_at(s, p.1), column: column_at(s, p.1) },
    )
}

/// What tokenizing `s` gives: its located tokens (documentation comments cut off by a plain
/// comment dropped) followed by an end-of-file token at the end of the text, or a diagnostic
/// at the first position that does not lex.
pub open spec fn tokenize_model(s: Seq<char>) -> Result<Seq<TokenModel>, DiagnosticModel> {
    match lex_from(s, 0) {
        Ok(lexed) => Ok(
            locate(s, detach(lexed)).push(
                TokenModel {
                    kind: TokenKindModel::Eof,
                    line: line_at(s, s.len() as int),
                    column: column_at(s, s.len() as int),
                },
            ),
        ),
        Err((f, p)) => Err(
            DiagnosticModel { message: failure_message(f), line: line_at(s, p), column: column_at(s, p) },
        ),
    }
}

pub fn is_ident_start(ch: char) -> (r: bool)
    ensures
        r == spec_is_ident_start(ch),
{
    ch == '_' || ('a' <= ch && ch <= 'z') || ('A' <= ch && ch <= 'Z')
}

pub fn is_ident_continue(ch: char) -> (r: bool)
    ensures
        r == spec_is_ident_continue(ch),
{
    ch == '_' || ('a' <= ch && ch <= 'z') || ('A' <= ch && ch <= 'Z') || ('0' <= ch && ch <= '9')
}

fn is_whitespace(c: char) -> (r: bool)
    ensures
        r == is_unicode_whitespace(c),
{
    ('\u{9}' <= c && c <= '\u{d}') || c == ' ' || c == '\u{85}' || c == '\u{a0}' || c == '\u{1680}'
        || ('\u{2000}' <= c && c <= '\u{200a}') || c == '\u{2028}' || c == '\u{2029}' || c
        == '\u{202f}' || c == '\u{205f}' || c == '\u{3000}'
}

/// Line and column stay in step with the position while it moves over characters that are
/// not newlines.
proof fn lemma_advance_in_line(s: Seq<char>, from: int, to: int)
    requires
        0 <= from <= to <= s.len(),
        forall|j: int| from <= j < to ==> s[j] != '\n',
    ensures
        line_at(s, to) == line_at(s, from),
        column_at(s, to) == column_at(s, from) + (to - from),
    decreases to - from,
{
    if to > from {
        lemma_advance_in_line(s, from, to - 1);
    }
}

proof fn lemma_line_column_bounds(s: Seq<char>, i: int)
    requires
        0 <= i,
    ensures
        1 <= line_at(s, i) <= i + 1,
        1 <= column_at(s, i) <= i + 1,
    decreases i,
{
    if i > 0 {
        lemma_line_column_bounds(s, i - 1);
    }
}

/// Splits MIDL source text into tokens, ending with an end-of-file token.
pub fn tokenize(source: &str) -> (r: Result<Vec<Token>, Diagnostic>)
    requires
        source@.len() < usize::MAX,
    ensures
        match r {
            Ok(tokens) => tokenize_model(source@) == Ok::<Seq<TokenModel>, DiagnosticModel>(
                tokens_model(tokens@),
            ),
            Err(d) => tokenize_model(source@) == Err::<Seq<TokenModel>, DiagnosticModel>(d.model()),
        },
{
    let chars = chars_of(source);
    let ghost s = source@;
    let n = chars.len();
    let mut tokens: Vec<Token> = Vec::new();
    let ghost mut lexed: Seq<(TokenKindModel, int)> = Seq::empty();
    let mut i: usize = 0;
    let mut line: usize = 1;
    let mut column: usize = 1;
    while i < n
        invariant
            s == source@,
            chars@ == s,
            n == s.len(),
            n < usize::MAX,
            i <= n,
            line == line_at(s, i as int),
            column == column_at(s, i as int),
            lex_from(s, 0) == prepend_lexed(lexed, lex_from(s, i as int)),
            tokens_model(tokens@) == locate(s, detach(lexed)),
        decreases n - i,
    {
        proof {
            lemma_line_column_bounds(s, i as int);
            lemma_line_column_bounds(s, i + 1);
        }
        let ch = chars[i];
        if ch == ' ' || ch == '\t' || ch == '\r' || ch == '\n' {
            if ch == '\n' {
                line = line + 1;
                column = 1;
            } else {
                column = column + 1;
            }
            i = i + 1;
        } else if ch == '/' {
            let start_line = line;
            let start_column = column;
            if !(i + 1 < n && chars[i + 1] == '/') {
                assert(lex_from(s, i as int) == Err::<Seq<(TokenKindModel, int)>, (LexFailure, int)>((LexFailure::LoneSlash, i as int)));
                let message = string_of("expected comment after `/`");
                assert(message@ == failure_message(LexFailure::LoneSlash));
                return Err(Diagnostic::new(message, start_line, start_column));
            }
            if i + 2 < n && chars[i + 2] == '/' {
                let from = i + 3;
                let end = scan_line_end(&chars, from);
                let mut k = from;
                while k < end && is_whitespace(chars[k])
                    invariant
                        from <= k <= end <= n,
                        n == chars.len(),
                        chars@ == s,
                        trim_leading_whitespace(s.subrange(from as int, end as int))
                            == trim_leading_whitespace(s.subrange(k as int, end as int)),
                    decreases end - k,
                {
                    assert(s.subrange(k as int, end as int).drop_first() =~= s.subrange(k + 1, end as int));
                    k = k + 1;
                }
                let doc = string_of_range(&chars, k, end);
                proof {
                    lemma_line_end(s, from as int);
                    lemma_advance_in_line(s, i as int, end as int);
                    let tok = (TokenKindModel::Doc(trim_leading_whitespace(s.subrange(from as int, end as int))), i as int);
                    assert(lex_from(s, i as int) == prepend_lexed(seq![tok], lex_from(s, end as int)));
                    lemma_detach_push(lexed, tok);
                    assert(locate(s, detach(lexed).push(tok)) =~= locate(s, detach(lexed)).push(
                        TokenModel { kind: tok.0, line: line_at(s, i as int), column: column_at(s, i as int) }));
                    lemma_prepend_one(lexed, tok, lex_from(s, end as int));
                    lexed = lexed.push(tok);
                }
                tokens.push(Token { kind: TokenKind::Doc(doc), line: start_line, column: start_column });
                column = column + (end - i);
                i = end;
            } else {
                let end = scan_line_end(&chars, i + 2);
                let ghost kept = detach(lexed);
                proof {
                    assert(tokens_model(tokens@).len() == tokens@.len());
                    assert(locate(s, kept).len() == kept.len());
                    assert(kept.take(tokens@.len() as int) =~= kept);
                }
                while tokens.len() > 0 && matches!(tokens[tokens.len() - 1].kind, TokenKind::Doc(_))
                    invariant
                        tokens_model(tokens@) == locate(s, kept.take(tokens@.len() as int)),
                        tokens@.len() <= kept.len(),
                        drop_trailing_docs(kept) == drop_trailing_docs(kept.take(tokens@.len() as int)),
                    decreases tokens.len(),
                {
                    let ghost before = kept.take(tokens@.len() as int);
                    let ghost old_tokens = tokens@;
                    proof {
                        assert(tokens_model(tokens@)[tokens@.len() - 1] == locate(s, before)[before.len() - 1]);
                        assert(before.last().0 is Doc);
                        assert(before.drop_last() =~= kept.take(tokens@.len() - 1));
                    }
                    tokens.pop();
                    proof {
                        assert(tokens@ =~= old_tokens.drop_last());
                        assert(tokens_model(tokens@) =~= tokens_model(old_tokens).drop_last());
                        assert(locate(s, before.drop_last()) =~= locate(s, before).drop_last());
                    }
                }
                proof {
                    lemma_line_end(s, i + 2);
                    lemma_advance_in_line(s, i as int, end as int);
                    let tok = (TokenKindModel::Break, i as int);
                    let cut = kept.take(tokens@.len() as int);
                    if cut.len() > 0 {
                        assert(tokens_model(tokens@)[tokens@.len() - 1] == locate(s, cut)[cut.len() - 1]);
                        assert(!(cut.last().0 is Doc));
                    }
                    assert(drop_trailing_docs(cut) == cut);
                    lemma_detach_push(lexed, tok);
                    assert(lex_from(s, i as int) == prepend_lexed(seq![tok], lex_from(s, end as int)));
                    lemma_prepend_one(lexed, tok, lex_from(s, end as int));
                    lexed = lexed.push(tok);
                }
                column = column + (end - i);
                i = end;
            }
        } else if ch == '-' {
            if !(i + 1 < n && chars[i + 1] == '>') {
                assert(lex_from(s, i as int) == Err::<Seq<(TokenKindModel, int)>, (LexFailure, int)>((LexFailure::LoneDash, i as int)));
                let message = string_of("expected `>` after `-`");
                assert(message@ == failure_message(LexFailure::LoneDash));
                return Err(Diagnostic::new(message, line, column));
            }
            proof {
                let tok = (TokenKindModel::Arrow, i as int);
                lemma_detach_push(lexed, tok);
                assert(locate(s, detach(lexed).push(tok)) =~= locate(s, detach(lexed)).push(
                    TokenModel { kind: tok.0, line: line_at(s, i as int), column: column_at(s, i as int) }));
                lemma_advance_in_line(s, i as int, i + 2);
                lemma_prepend_one(lexed, tok, lex_from(s, i + 2));
                lexed = lexed.push(tok);
            }
            tokens.push(Token { kind: TokenKind::Arrow, line, column });
            column = column + 2;
            i = i + 2;
        } else if ch == '{' || ch == '}' || ch == '(' || ch == ')' || ch == '[' || ch == ']' || ch
            == '<' || ch == '>' || ch == ':' || ch == ';' || ch == ',' || ch == '=' || ch == '?' {
            proof {
                let tok = (TokenKindModel::Symbol(ch), i as int);
                lemma_detach_push(lexed, tok);
                assert(locate(s, detach(lexed).push(tok)) =~= locate(s, detach(lexed)).push(
                    TokenModel { kind: tok.0, line: line_at(s, i as int), column: column_at(s, i as int) }));
                lemma_prepend_one(lexed, tok, lex_from(s, i + 1));
                lexed = lexed.push(tok);
            }
            tokens.push(Token { kind: TokenKind::Symbol(ch), line, column });
            column = column + 1;
            i = i + 1;
        } else if is_ident_start(ch) {
            let mut end = i + 1;
            while end < n && is_ident_continue(chars[end])
                invariant
                    i < end <= n,
                    n == chars.len(),
                    chars@ == s,
                    ident_end(s, i + 1) == ident_end(s, end as int),
                    forall|j: int| i <= j < end ==> spec_is_ident_continue(s[j]),
                decreases n - end,
            {
                end = end + 1;
            }
            let ident = string_of_range(&chars, i, end);
            proof {
                assert(ident_end(s, i + 1) == end);
                lemma_advance_in_line(s, i as int, end as int);
                let tok = (TokenKindModel::Ident(s.subrange(i as int, end as int)), i as int);
                lemma_detach_push(lexed, tok);
                assert(locate(s, detach(lexed).push(tok)) =~= locate(s, detach(lexed)).push(
                    TokenModel { kind: tok.0, line: line_at(s, i as int), column: column_at(s, i as int) }));
                lemma_prepend_one(lexed, tok, lex_from(s, end as int));
                lexed = lexed.push(tok);
            }
            tokens.push(Token { kind: TokenKind::Ident(ident), line, column });
            column = column + (end - i);
            i = end;
        } else {
            let mut message = string_of("unexpected character `");
            push_char(&mut message, ch);
            let message = concat(message.as_str(), "`");
            assert(lex_from(s, i as int) == Err::<Seq<(TokenKindModel, int)>, (LexFailure, int)>((LexFailure::Unexpected(ch), i as int)));
            assert(message@ =~= failure_message(LexFailure::Unexpected(ch)));
            return Err(Diagnostic::new(message, line, column));
        }
    }
    proof {
        assert(lex_from(s, i as int) == Ok::<Seq<(TokenKindModel, int)>, (LexFailure, int)>(Seq::empty()));
        assert(lexed + Seq::<(TokenKindModel, int)>::empty() =~= lexed);
        lemma_line_column_bounds(s, n as int);
    }
    let eof = Token { kind: TokenKind::Eof, line, column };
    tokens.push(eof);
    proof {
        assert(tokens_model(tokens@) =~= locate(s, detach(lexed)).push(eof.model()));
    }
    Ok(tokens)
}

/// The first newline at or after `from`, or the end of `chars`.
fn scan_line_end(chars: &Vec<char>, from: usize) -> (end: usize)
    requires
        from <= chars.len(),
    ensures
        end == line_end(chars@, from as int),
        from <= end <= chars.len(),
{
    let mut end = from;
    while end < chars.len() && chars[end] != '\n'
        invariant
            from <= end <= chars.len(),
            line_end(chars@, from as int) == line_end(chars@, end as int),
        decreases chars.len() - end,
    {
        end = end + 1;
    }
    end
}

/// `lexed` with every position moved `d` places on.
pub open spec fn shift_lexed(
    lexed: Result<Seq<(TokenKindModel, int)>, (LexFailure, int)>,
    d: int,
) -> Result<Seq<(TokenKindModel, int)>, (LexFailure, int)> {
    match lexed {
        Ok(tokens) => Ok(tokens.map_values(|t: (TokenKindModel, int)| (t.0, t.1 + d))),
        Err((f, p)) => Err((f, p + d)),
    }
}

proof fn lemma_shift_prepend(tok: (TokenKindModel, int), rest: Result<Seq<(TokenKindModel, int)>, (LexFailure, int)>, d: int)
    ensures
        shift_lexed(prepend_lexed(seq![tok], rest), d) == prepend_lexed(seq![(tok.0, tok.1 + d)], shift_lexed(rest, d)),
{
    if let Ok(r) = rest {
        assert((seq![tok] + r).map_values(|t: (TokenKindModel, int)| (t.0, t.1 + d)) =~= seq![(tok.0, tok.1 + d)] + r.map_values(
            |t: (TokenKindModel, int)| (t.0, t.1 + d),
        ));
    }
}

proof fn lemma_line_end_shift(p: Seq<char>, s: Seq<char>, i: int)
    requires
        0 <= i,
    ensures
        line_end(p + s, i + p.len()) == line_end(s, i) + p.len(),
    decreases s.len() - i,
{
    if i < s.len() {
        assert((p + s)[i + p.len()] == s[i]);
        if s[i] != '\n' {
            lemma_line_end_shift(p, s, i + 1);
        }
    }
}

proof fn lemma_ident_end_shift(p: Seq<char>, s: Seq<char>, i: int)
    requires
        0 <= i,
    ensures
        ident_end(p + s, i + p.len()) == ident_end(s, i) + p.len(),
    decreases s.len() - i,
{
    if i < s.len() {
        assert((p + s)[i + p.len()] == s[i]);
        if spec_is_ident_continue(s[i]) {
            lemma_ident_end_shift(p, s, i + 1);
        }
    }
}

/// The lexer only looks ahead: lexing `p + s` from a position inside `s` gives what lexing `s`
/// gives there, each position moved by the length of `p`.
pub proof fn lemma_lex_after_prefix(p: Seq<char>, s: Seq<char>, i: int)
    requires
        0 <= i,
    ensures
        lex_from(p + s, i + p.len()) == shift_lexed(lex_from(s, i), p.len() as int),
    decreases s.len() - i,
{
    let t = p + s;
    let d = p.len() as int;
    let j = i + d;
    if i >= s.len() {
        assert(Seq::<(TokenKindModel, int)>::empty().map_values(|x: (TokenKindModel, int)| (x.0, x.1 + d)) =~= Seq::<
            (TokenKindModel, int),
        >::empty());
    } else {
        let c = s[i];
        assert(t[j] == c);
        if i + 1 < s.len() {
            assert(t[j + 1] == s[i + 1]);
        }
        if i + 2 < s.len() {
            assert(t[j + 2] == s[i + 2]);
        }
        if is_layout(c) {
            lemma_lex_after_prefix(p, s, i + 1);
        } else if c == '/' {
            if i + 1 < s.len() && s[i + 1] == '/' {
                if i + 2 < s.len() && s[i + 2] == '/' {
                    lemma_line_end(s, i + 3);
                    lemma_line_end_shift(p, s, i + 3);
                    let e = line_end(s, i + 3);
                    assert(t.subrange(j + 3, e + d) =~= s.subrange(i + 3, e));
                    lemma_lex_after_prefix(p, s, e);
                    lemma_shift_prepend(
                        (TokenKindModel::Doc(trim_leading_whitespace(s.subrange(i + 3, e))), i),
                        lex_from(s, e),
                        d,
                    );
                } else {
                    lemma_line_end(s, i + 2);
                    lemma_line_end_shift(p, s, i + 2);
                    lemma_lex_after_prefix(p, s, line_end(s, i + 2));
                    lemma_shift_prepend((TokenKindModel::Break, i), lex_from(s, line_end(s, i + 2)), d);
                }
            }
        } else if c == '-' {
            if i + 1 < s.len() && s[i + 1] == '>' {
                lemma_lex_after_prefix(p, s, i + 2);
                lemma_shift_prepend((TokenKindModel::Arrow, i), lex_from(s, i + 2), d);
            }
        } else if is_symbol_char(c) {
            lemma_lex_after_prefix(p, s, i + 1);
            lemma_shift_prepend((TokenKindModel::Symbol(c), i), lex_from(s, i + 1), d);
        } else if spec_is_ident_start(c) {
            lemma_ident_end(s, i + 1);
            lemma_ident_end_shift(p, s, i + 1);
            let e = ident_end(s, i + 1);
            assert(t.subrange(j, e + d) =~= s.subrange(i, e));
            lemma_lex_after_prefix(p, s, e);
            lemma_shift_prepend((TokenKindModel::Ident(s.subrange(i, e)), i), lex_from(s, e), d);
        }
    }
}

/// Whitespace is insignificant: layout in front of the text leaves its tokens (or its first
/// error) as they were, each one moved on by the length of the layout.
pub proof fn law_leading_layout_is_insignificant(layout: Seq<char>, s: Seq<char>)
    requires
        forall|k: int| 0 <= k < layout.len() ==> is_layout(#[trigger] layout[k]),
    ensures
        lex_from(layout + s, 0) == shift_lexed(lex_from(s, 0), layout.len() as int),
{
    lemma_skip_layout(layout, s, 0);
    lemma_lex_after_prefix(layout, s, 0);
}

/// A `//` comment line in front of the text (one that is not a `///` documentation comment)
/// only marks a break: the tokens of the text follow as they were, each one moved on by the
/// length of the line.
pub proof fn law_comment_line_is_insignificant(text: Seq<char>, s: Seq<char>)
    requires
        !text.contains('\n'),
        text.len() > 0 ==> text[0] != '/',
    ensures
        ({
            let line = seq!['/', '/'] + text + seq!['\n'];
            lex_from(line + s, 0) == prepend_lexed(
                seq![(TokenKindModel::Break, 0int)],
                shift_lexed(lex_from(s, 0), line.len() as int),
            )
        }),
{
    let line = seq!['/', '/'] + text + seq!['\n'];
    let t = line + s;
    let n = line.len() as int;
    assert(t[0] == '/');
    assert(t[1] == '/');
    assert(t[2] != '/') by {
        if text.len() > 0 {
            assert(t[2] == text[0]);
        } else {
            assert(t[2] == '\n');
        }
    }
    assert(line_end(t, 2) == n - 1) by {
        assert forall|k: int| 2 <= k < n - 1 implies t[k] != '\n' by {
            assert(t[k] == text[k - 2]);
        }
        assert(t[n - 1] == '\n');
        lemma_line_end_at(t, 2, n - 1);
    }
    assert(t[n - 1] == '\n');
    assert(lex_from(t, n - 1) == lex_from(t, n));
    assert(lex_from(t, 0) == prepend_lexed(seq![(TokenKindModel::Break, 0int)], lex_from(t, n - 1)));
    lemma_lex_after_prefix(line, s, 0);
}

proof fn lemma_line_end_at(t: Seq<char>, i: int, e: int)
    requires
        0 <= i <= e < t.len(),
        forall|k: int| i <= k < e ==> t[k] != '\n',
        t[e] == '\n',
    ensures
        line_end(t, i) == e,
    decreases e - i,
{
    if i < e {
        lemma_line_end_at(t, i + 1, e);
    }
}

/// Documentation comments stay with what follows them unless a plain comment comes between:
/// without one they are kept in order, and a plain comment right after them drops them while
/// keeping everything lexed before them.
pub proof fn law_comment_detaches_docs(before: Seq<(TokenKindModel, int)>, docs: Seq<(TokenKindModel, int)>, brk: int)
    requires
        forall|k: int| 0 <= k < docs.len() ==> #[trigger] docs[k].0 is Doc,
    ensures
        detach(before + docs) == detach(before) + docs,
        detach(before + docs + seq![(TokenKindModel::Break, brk)]) == drop_trailing_docs(detach(before)),
    decreases docs.len(),
{
    let brk_tok = (TokenKindModel::Break, brk);
    assert(before + docs + seq![brk_tok] =~= (before + docs).push(brk_tok));
    if docs.len() == 0 {
        assert(before + docs =~= before);
        assert(detach(before) + docs =~= detach(before));
        lemma_detach_push(before, (TokenKindModel::Break, brk));
    } else {
        let rest = docs.drop_last();
        law_comment_detaches_docs(before, rest, brk);
        assert(before + docs =~= (before + rest).push(docs.last()));
        lemma_detach_push(before + rest, docs.last());
        assert(detach(before) + docs =~= (detach(before) + rest).push(docs.last()));
        lemma_detach_push(before + docs, (TokenKindModel::Break, brk));
        lemma_drop_trailing_docs_append(detach(before), docs);
    }
}

proof fn lemma_drop_trailing_docs_append(x: Seq<(TokenKindModel, int)>, docs: Seq<(TokenKindModel, int)>)
    requires
        forall|k: int| 0 <= k < docs.len() ==> #[trigger] docs[k].0 is Doc,
    ensures
        drop_trailing_docs(x + docs) == drop_trailing_docs(x),
    decreases docs.len(),
{
    if docs.len() > 0 {
        assert((x + docs).drop_last() =~= x + docs.drop_last());
        assert((x + docs).last() == docs.last());
        lemma_drop_trailing_docs_append(x, docs.drop_last());
    } else {
        assert(x + docs =~= x);
    }
}

proof fn lemma_skip_layout(layout: Seq<char>, s: Seq<char>, k: int)
    requires
        0 <= k <= layout.len(),
        forall|m: int| 0 <= m < layout.len() ==> is_layout(#[trigger] layout[m]),
    ensures
        lex_from(layout + s, k) == lex_from(layout + s, layout.len() as int),
    decreases layout.len() - k,
{
    if k < layout.len() {
        assert((layout + s)[k] == layout[k]);
        lemma_skip_layout(layout, s, k + 1);
    }
}


/// The lexed token `t` is what `s` holds at its position: the first character its kind starts
/// with, and the shape its kind requires.
pub open spec fn starts_token(s: Seq<char>, t: (TokenKindModel, int)) -> bool {
    let p = t.1;
    &&& 0 <= p < s.len()
    &&& match t.0 {
        TokenKindModel::Ident(x) => {
            &&& x.len() > 0
            &&& p + x.len() <= s.len()
            &&& s.subrange(p, p + x.len()) == x
            &&& spec_is_ident_start(x[0])
            &&& forall|k: int| 0 <= k < x.len() ==> spec_is_ident_continue(#[trigger] x[k])
            &&& p + x.len() < s.len() ==> !spec_is_ident_continue(s[p + x.len()])
        },
        TokenKindModel::Doc(d) => {
            &&& s[p] == '/'
            &&& !d.contains('\n')
            &&& d.len() > 0 ==> !is_unicode_whitespace(d[0])
        },
        TokenKindModel::Arrow => s[p] == '-' && p + 1 < s.len() && s[p + 1] == '>',
        TokenKindModel::Symbol(c) => s[p] == c && is_symbol_char(c),
        TokenKindModel::Break => s[p] == '/',
        TokenKindModel::Eof => false,
    }
}

/// Every token of `lexed` is what `s` holds at its position, and positions strictly increase.
pub open spec fn lexed_well(s: Seq<char>, lexed: Seq<(TokenKindModel, int)>) -> bool {
    &&& forall|j: int| 0 <= j < lexed.len() ==> starts_token(s, #[trigger] lexed[j])
    &&& forall|j: int, k: int| 0 <= j < k < lexed.len() ==> #[trigger] lexed[j].1 < #[trigger] lexed[k].1
}

/// Lexing failed at `p` because of the character there.
pub open spec fn fails_at(s: Seq<char>, f: LexFailure, p: int) -> bool {
    match f {
        LexFailure::LoneSlash => s[p] == '/',
        LexFailure::LoneDash => s[p] == '-',
        LexFailure::Unexpected(c) => s[p] == c,
    }
}

proof fn lemma_trim(t: Seq<char>)
    ensures
        trim_leading_whitespace(t).len() <= t.len(),
        trim_leading_whitespace(t) == t.subrange(t.len() - trim_leading_whitespace(t).len(), t.len() as int),
        trim_leading_whitespace(t).len() > 0 ==> !is_unicode_whitespace(trim_leading_whitespace(t)[0]),
    decreases t.len(),
{
    if t.len() > 0 && is_unicode_whitespace(t[0]) {
        lemma_trim(t.drop_first());
        let r = trim_leading_whitespace(t);
        assert(t.drop_first().subrange(t.len() - 1 - r.len(), t.len() - 1) =~= t.subrange(t.len() - r.len(), t.len() as int));
    } else {
        assert(t.subrange(0, t.len() as int) =~= t);
    }
}

proof fn lemma_prepend_well(s: Seq<char>, tok: (TokenKindModel, int), rest: Seq<(TokenKindModel, int)>, next: int)
    requires
        starts_token(s, tok),
        lexed_well(s, rest),
        tok.1 < next,
        forall|j: int| 0 <= j < rest.len() ==> next <= #[trigger] rest[j].1,
    ensures
        lexed_well(s, seq![tok] + rest),
        forall|j: int| 0 <= j < (seq![tok] + rest).len() ==> tok.1 <= #[trigger] (seq![tok] + rest)[j].1,
{
    let l = seq![tok] + rest;
    assert forall|j: int| 0 <= j < l.len() implies starts_token(s, #[trigger] l[j]) by {
        if j > 0 {
            assert(l[j] == rest[j - 1]);
        }
    }
    assert forall|j: int, k: int| 0 <= j < k < l.len() implies #[trigger] l[j].1 < #[trigger] l[k].1 by {
        assert(l[k] == rest[k - 1]);
        if j > 0 {
            assert(l[j] == rest[j - 1]);
        }
    }
    assert forall|j: int| 0 <= j < l.len() implies tok.1 <= #[trigger] l[j].1 by {
        if j > 0 {
            assert(l[j] == rest[j - 1]);
        }
    }
}

/// What lexing yields is what the text holds: each token starts at a position at or after
/// the starting point with the character its kind starts with, positions strictly increase,
/// and a failure is reported at a position holding the character that caused it.
pub proof fn lemma_lex_shape(s: Seq<char>, i: int)
    requires
        0 <= i,
    ensures
        match lex_from(s, i) {
            Ok(l) => lexed_well(s, l) && forall|j: int| 0 <= j < l.len() ==> i <= #[trigger] l[j].1,
            Err((f, p)) => i <= p < s.len() && fails_at(s, f, p),
        },
    decreases s.len() - i,
{
    if i >= s.len() {
    } else {
        let c = s[i];
        if is_layout(c) {
            lemma_lex_shape(s, i + 1);
        } else if c == '/' {
            if i + 1 < s.len() && s[i + 1] == '/' {
                if i + 2 < s.len() && s[i + 2] == '/' {
                    lemma_line_end(s, i + 3);
                    let e = line_end(s, i + 3);
                    let body = s.subrange(i + 3, e);
                    lemma_trim(body);
                    let d = trim_leading_whitespace(body);
                    assert(!d.contains('\n')) by {
                        if d.contains('\n') {
                            let k = d.index_of('\n');
                            assert(d[k] == body[body.len() - d.len() + k]);
                        }
                    }
                    lemma_lex_shape(s, e);
                    if let Ok(r) = lex_from(s, e) {
                        lemma_prepend_well(s, (TokenKindModel::Doc(d), i), r, e);
                    }
                } else {
                    lemma_line_end(s, i + 2);
                    let e = line_end(s, i + 2);
                    lemma_lex_shape(s, e);
                    if let Ok(r) = lex_from(s, e) {
                        lemma_prepend_well(s, (TokenKindModel::Break, i), r, e);
                    }
                }
            }
        } else if c == '-' {
            if i + 1 < s.len() && s[i + 1] == '>' {
                lemma_lex_shape(s, i + 2);
                if let Ok(r) = lex_from(s, i + 2) {
                    lemma_prepend_well(s, (TokenKindModel::Arrow, i), r, i + 2);
                }
            }
        } else if is_symbol_char(c) {
            lemma_lex_shape(s, i + 1);
            if let Ok(r) = lex_from(s, i + 1) {
                lemma_prepend_well(s, (TokenKindModel::Symbol(c), i), r, i + 1);
            }
        } else if spec_is_ident_start(c) {
            lemma_ident_end(s, i);
            lemma_ident_end(s, i + 1);
            let e = ident_end(s, i + 1);
            let x = s.subrange(i, e);
            assert(x.len() == e - i);
            assert forall|k: int| 0 <= k < x.len() implies spec_is_ident_continue(#[trigger] x[k]) by {
                assert(x[k] == s[i + k]);
            }
            assert(s.subrange(i, i + x.len()) =~= x);
            lemma_lex_shape(s, e);
            if let Ok(r) = lex_from(s, e) {
                lemma_prepend_well(s, (TokenKindModel::Ident(x), i), r, e);
            }
        }
    }
}

/// `y` keeps the first `y.len()` tokens of `x`.
pub open spec fn is_prefix_of(y: Seq<(TokenKindModel, int)>, x: Seq<(TokenKindModel, int)>) -> bool {
    y.len() <= x.len() && forall|j: int| 0 <= j < y.len() ==> #[trigger] y[j] == x[j]
}

proof fn lemma_drop_trailing_docs_prefix(x: Seq<(TokenKindModel, int)>)
    ensures
        is_prefix_of(drop_trailing_docs(x), x),
    decreases x.len(),
{
    if x.len() > 0 && x.last().0 is Doc {
        lemma_drop_trailing_docs_prefix(x.drop_last());
    }
}

/// Plain comments take effect without reordering anything: what remains is a selection of
/// the lexed tokens, in their order, with no break marks.
pub proof fn lemma_detach_well(s: Seq<char>, l: Seq<(TokenKindModel, int)>)
    requires
        lexed_well(s, l),
    ensures
        lexed_well(s, detach(l)),
        forall|j: int| 0 <= j < detach(l).len() ==> (#[trigger] detach(l)[j]).0 != TokenKindModel::Break,
        forall|j: int| 0 <= j < detach(l).len() ==> l.contains(#[trigger] detach(l)[j]),
    decreases l.len(),
{
    if l.len() > 0 {
        let init = l.drop_last();
        assert(lexed_well(s, init)) by {
            assert forall|j: int, k: int| 0 <= j < k < init.len() implies #[trigger] init[j].1 < #[trigger] init[k].1 by {
                assert(init[j] == l[j] && init[k] == l[k]);
            }
            assert forall|j: int| 0 <= j < init.len() implies starts_token(s, #[trigger] init[j]) by {
                assert(init[j] == l[j]);
            }
        }
        lemma_detach_well(s, init);
        let d = detach(init);
        assert forall|j: int| 0 <= j < d.len() implies l.contains(#[trigger] d[j]) && d[j].1 < l.last().1 by {
            assert(init.contains(d[j]));
            let k = init.index_of(d[j]);
            assert(l[k] == d[j]);
            assert(l[k].1 < l[l.len() - 1].1);
        }
        if l.last().0 == TokenKindModel::Break {
            lemma_drop_trailing_docs_prefix(d);
            let r = drop_trailing_docs(d);
            assert forall|j: int| 0 <= j < r.len() implies #[trigger] r[j] == d[j] by {}
            assert forall|j: int, k: int| 0 <= j < k < r.len() implies #[trigger] r[j].1 < #[trigger] r[k].1 by {
                assert(r[j] == d[j] && r[k] == d[k]);
            }
        } else {
            let r = d.push(l.last());
            assert(l.contains(l.last())) by {
                assert(l[l.len() - 1] == l.last());
            }
            assert(starts_token(s, l[l.len() - 1]));
            assert forall|j: int| 0 <= j < r.len() implies starts_token(s, #[trigger] r[j]) && l.contains(r[j]) by {
                if j < d.len() {
                    assert(r[j] == d[j]);
                }
            }
            assert forall|j: int, k: int| 0 <= j < k < r.len() implies #[trigger] r[j].1 < #[trigger] r[k].1 by {
                assert(r[j] == d[j]);
                if k < d.len() {
                    assert(r[k] == d[k]);
                }
            }
        }
    }
}

/// Positions later in the text have later (line, column) pairs.
pub proof fn lemma_position_order(s: Seq<char>, p: int, q: int)
    requires
        0 <= p < q <= s.len(),
    ensures
        line_at(s, p) < line_at(s, q) || (line_at(s, p) == line_at(s, q) && column_at(s, p) < column_at(s, q)),
    decreases q - p,
{
    if q - 1 > p {
        lemma_position_order(s, p, q - 1);
    }
}

/// `a` comes before `b` in reading order.
pub open spec fn reads_before(a: TokenModel, b: TokenModel) -> bool {
    a.line < b.line || (a.line == b.line && a.column < b.column)
}

/// The token `t` of `s` stands at position `p`: its line and column are those of `p`, and the
/// text there is what its kind says.
pub open spec fn located_at(s: Seq<char>, t: TokenModel, p: int) -> bool {
    &&& t.line == line_at(s, p)
    &&& t.column == column_at(s, p)
    &&& starts_token(s, (t.kind, p))
}

/// The token `t` stands at some position of `s`.
pub open spec fn stands_in(s: Seq<char>, t: TokenModel) -> bool {
    exists|p: int| #[trigger] located_at(s, t, p)
}

/// What a successful tokenization gives: tokens that each stand at a position of the text with
/// the character their kind starts with (an identifier is a maximal run of identifier
/// characters starting with a letter or `_`, a documentation comment has no newline and no
/// leading whitespace, a symbol is one of the symbol characters), in strictly increasing
/// reading order, followed by exactly one end-of-file token at the line and column of the end
/// of the text.
pub proof fn law_tokens_read_in_order(s: Seq<char>)
    requires
        tokenize_model(s) is Ok,
    ensures
        ({
            let ts = tokenize_model(s)->Ok_0;
            &&& ts.len() >= 1
            &&& ts.last().kind == TokenKindModel::Eof
            &&& ts.last().line == line_at(s, s.len() as int)
            &&& ts.last().column == column_at(s, s.len() as int)
            &&& forall|j: int| 0 <= j < ts.len() - 1 ==> stands_in(s, #[trigger] ts[j])
            &&& forall|j: int| 0 <= j < ts.len() - 1 ==> (#[trigger] ts[j]).kind != TokenKindModel::Eof && ts[j].kind != TokenKindModel::Break
            &&& forall|j: int, k: int| 0 <= j < k < ts.len() ==> reads_before(#[trigger] ts[j], #[trigger] ts[k])
        }),
{
    lemma_lex_shape(s, 0);
    let lexed = lex_from(s, 0)->Ok_0;
    lemma_detach_well(s, lexed);
    let d = detach(lexed);
    let located = locate(s, d);
    let eof = TokenModel { kind: TokenKindModel::Eof, line: line_at(s, s.len() as int), column: column_at(s, s.len() as int) };
    let ts = tokenize_model(s)->Ok_0;
    assert(ts == located.push(eof));
    assert forall|j: int| 0 <= j < ts.len() - 1 implies stands_in(s, #[trigger] ts[j]) by {
        assert(ts[j] == located[j]);
        assert(located_at(s, ts[j], d[j].1));
    }
    assert forall|j: int| 0 <= j < ts.len() - 1 implies (#[trigger] ts[j]).kind != TokenKindModel::Eof && ts[j].kind != TokenKindModel::Break by {
        assert(ts[j] == located[j]);
        assert(starts_token(s, d[j]));
    }
    assert forall|j: int, k: int| 0 <= j < k < ts.len() implies reads_before(#[trigger] ts[j], #[trigger] ts[k]) by {
        assert(ts[j] == located[j]);
        assert(starts_token(s, d[j]));
        if k < ts.len() - 1 {
            assert(ts[k] == located[k]);
            lemma_position_order(s, d[j].1, d[k].1);
        } else {
            lemma_position_order(s, d[j].1, s.len() as int);
        }
    }
}

proof fn lemma_line_end_take(s: Seq<char>, pos: int, j: int)
    requires
        0 <= j,
        pos <= s.len(),
        line_end(s, j) <= pos,
    ensures
        line_end(s.take(pos), j) == line_end(s, j),
    decreases s.len() - j,
{
    lemma_line_end(s, j);
    if j < pos {
        assert(s.take(pos)[j] == s[j]);
        if s[j] != '\n' {
            lemma_line_end_take(s, pos, j + 1);
        }
    }
}

proof fn lemma_ident_end_take(s: Seq<char>, pos: int, j: int)
    requires
        0 <= j,
        pos <= s.len(),
        ident_end(s, j) <= pos,
    ensures
        ident_end(s.take(pos), j) == ident_end(s, j),
    decreases s.len() - j,
{
    lemma_ident_end(s, j);
    if j < pos {
        assert(s.take(pos)[j] == s[j]);
        if spec_is_ident_continue(s[j]) {
            lemma_ident_end_take(s, pos, j + 1);
        }
    }
}

/// Lexing fails at the first position that does not lex: the text before it lexes.
pub proof fn lemma_lex_prefix_ok(s: Seq<char>, i: int)
    requires
        0 <= i,
        lex_from(s, i) is Err,
    ensures
        lex_from(s.take(lex_from(s, i)->Err_0.1), i) is Ok,
    decreases s.len() - i,
{
    lemma_lex_shape(s, i);
    let pos = lex_from(s, i)->Err_0.1;
    let t = s.take(pos);
    if i < pos {
        let c = s[i];
        assert(t[i] == c);
        if is_layout(c) {
            lemma_lex_prefix_ok(s, i + 1);
        } else if c == '/' {
            lemma_line_end(s, i + 2);
            lemma_line_end(s, i + 3);
            if i + 2 < s.len() && s[i + 2] == '/' {
                let e = line_end(s, i + 3);
                lemma_lex_shape(s, e);
                assert(t[i + 1] == s[i + 1] && t[i + 2] == s[i + 2]);
                lemma_line_end_take(s, pos, i + 3);
                assert(t.subrange(i + 3, e) =~= s.subrange(i + 3, e));
                lemma_lex_prefix_ok(s, e);
            } else {
                let e = line_end(s, i + 2);
                lemma_lex_shape(s, e);
                assert(t[i + 1] == s[i + 1]);
                if i + 2 < pos {
                    assert(t[i + 2] == s[i + 2]);
                }
                lemma_line_end_take(s, pos, i + 2);
                lemma_lex_prefix_ok(s, e);
            }
        } else if c == '-' {
            lemma_lex_shape(s, i + 2);
            assert(t[i + 1] == s[i + 1]);
            lemma_lex_prefix_ok(s, i + 2);
        } else if is_symbol_char(c) {
            lemma_lex_prefix_ok(s, i + 1);
        } else {
            lemma_ident_end(s, i + 1);
            let e = ident_end(s, i + 1);
            lemma_lex_shape(s, e);
            lemma_ident_end_take(s, pos, i + 1);
            assert(t.subrange(i, e) =~= s.subrange(i, e));
            lemma_lex_prefix_ok(s, e);
        }
    }
}

/// A failed tokenization reports the first position that does not lex, with one of three
/// messages that names what is found there: the text before that position tokenizes.
pub proof fn law_failure_is_at_the_first_bad_position(s: Seq<char>)
    requires
        tokenize_model(s) is Err,
    ensures
        exists|p: int|
            #![trigger s.take(p)]
            {
                let d = tokenize_model(s)->Err_0;
                &&& 0 <= p < s.len()
                &&& d.line == line_at(s, p)
                &&& d.column == column_at(s, p)
                &&& tokenize_model(s.take(p)) is Ok
                &&& {
                    ||| s[p] == '/' && d.message == "expected comment after `/`"@
                    ||| s[p] == '-' && d.message == "expected `>` after `-`"@
                    ||| d.message == "unexpected character `"@ + seq![s[p]] + "`"@
                }
            },
{
    lemma_lex_shape(s, 0);
    lemma_lex_prefix_ok(s, 0);
    let p = lex_from(s, 0)->Err_0.1;
    assert(s.take(p) == s.take(p));
}


/// A token kind that can be written back as text: what tokenizing can yield before the end.
pub open spec fn renderable(k: TokenKindModel) -> bool {
    match k {
        TokenKindModel::Ident(x) => {
            &&& x.len() > 0
            &&& spec_is_ident_start(x[0])
            &&& forall|j: int| 0 <= j < x.len() ==> spec_is_ident_continue(#[trigger] x[j])
        },
        TokenKindModel::Doc(d) => !d.contains('\n') && (d.len() > 0 ==> !is_unicode_whitespace(d[0])),
        TokenKindModel::Arrow => true,
        TokenKindModel::Symbol(c) => is_symbol_char(c),
        _ => false,
    }
}

/// The text of a token kind: an identifier as is, `->`, the symbol, or `///`, the
/// documentation text and a newline.
pub open spec fn render_kind(k: TokenKindModel) -> Seq<char> {
    match k {
        TokenKindModel::Ident(x) => x,
        TokenKindModel::Doc(d) => seq!['/', '/', '/'] + d + seq!['\n'],
        TokenKindModel::Arrow => seq!['-', '>'],
        TokenKindModel::Symbol(c) => seq![c],
        _ => Seq::empty(),
    }
}

/// The texts of `ks`, each followed by a space.
pub open spec fn render_kinds(ks: Seq<TokenKindModel>) -> Seq<char>
    decreases ks.len(),
{
    if ks.len() == 0 {
        Seq::empty()
    } else {
        render_kind(ks[0]) + seq![' '] + render_kinds(ks.drop_first())
    }
}

/// The kinds of `ts`, in order.
pub open spec fn kinds_of(ts: Seq<TokenModel>) -> Seq<TokenKindModel> {
    ts.map_values(|t: TokenModel| t.kind)
}

/// The kinds of lexed tokens, in order.
pub open spec fn lexed_kinds(l: Seq<(TokenKindModel, int)>) -> Seq<TokenKindModel> {
    l.map_values(|t: (TokenKindModel, int)| t.0)
}

proof fn lemma_ident_end_at(t: Seq<char>, i: int, e: int)
    requires
        0 <= i <= e < t.len(),
        forall|k: int| i <= k < e ==> spec_is_ident_continue(#[trigger] t[k]),
        !spec_is_ident_continue(t[e]),
    ensures
        ident_end(t, i) == e,
    decreases e - i,
{
    if i < e {
        lemma_ident_end_at(t, i + 1, e);
    }
}

proof fn lemma_detach_no_break(l: Seq<(TokenKindModel, int)>)
    requires
        forall|j: int| 0 <= j < l.len() ==> (#[trigger] l[j]).0 != TokenKindModel::Break,
    ensures
        detach(l) == l,
    decreases l.len(),
{
    if l.len() > 0 {
        lemma_detach_no_break(l.drop_last());
        assert(l.last() == l[l.len() - 1]);
        assert(l.drop_last().push(l.last()) =~= l);
    }
}

/// Lexing the text of one renderable token and a space, in front of anything, yields that
/// token at 0 and then goes on right after the space.
proof fn lemma_lex_one_rendered(k: TokenKindModel, rest: Seq<char>)
    requires
        renderable(k),
    ensures
        ({
            let h = render_kind(k) + seq![' '];
            lex_from(h + rest, 0) == prepend_lexed(seq![(k, 0int)], lex_from(h + rest, h.len() as int))
        }),
{
    let h = render_kind(k) + seq![' '];
    let t = h + rest;
    let n = h.len() as int;
    assert(t[n - 1] == ' ');
    assert(lex_from(t, n - 1) == lex_from(t, n));
    match k {
        TokenKindModel::Ident(x) => {
            assert forall|j: int| 1 <= j < x.len() implies spec_is_ident_continue(#[trigger] t[j]) by {
                assert(t[j] == x[j]);
            }
            assert(t[0] == x[0]);
            lemma_ident_end_at(t, 1, x.len() as int);
            assert(t.subrange(0, x.len() as int) =~= x);
        },
        TokenKindModel::Doc(d) => {
            let e = 3 + d.len() as int;
            assert(t[0] == '/' && t[1] == '/' && t[2] == '/');
            assert forall|j: int| 3 <= j < e implies t[j] != '\n' by {
                assert(t[j] == d[j - 3]);
                if t[j] == '\n' {
                    assert(d.contains('\n'));
                }
            }
            assert(t[e] == '\n');
            lemma_line_end_at(t, 3, e);
            assert(t.subrange(3, e) =~= d);
            assert(trim_leading_whitespace(d) == d);
            assert(lex_from(t, e) == lex_from(t, e + 1));
        },
        TokenKindModel::Arrow => {
            assert(t[0] == '-' && t[1] == '>');
        },
        TokenKindModel::Symbol(c) => {
            assert(t[0] == c);
        },
        _ => {},
    }
}

proof fn lemma_shift_kinds(l: Seq<(TokenKindModel, int)>, d: int)
    ensures
        shift_lexed(Ok(l), d) is Ok,
        lexed_kinds(shift_lexed(Ok(l), d)->Ok_0) == lexed_kinds(l),
{
    let m = shift_lexed(Ok(l), d)->Ok_0;
    assert(lexed_kinds(m) =~= lexed_kinds(l));
}

/// The text of renderable kinds lexes back to those kinds, with no break marks.
pub proof fn lemma_render_lexes(ks: Seq<TokenKindModel>)
    requires
        forall|j: int| 0 <= j < ks.len() ==> renderable(#[trigger] ks[j]),
    ensures
        lex_from(render_kinds(ks), 0) is Ok,
        lexed_kinds(lex_from(render_kinds(ks), 0)->Ok_0) == ks,
    decreases ks.len(),
{
    if ks.len() == 0 {
        assert(lexed_kinds(Seq::<(TokenKindModel, int)>::empty()) =~= ks);
    } else {
        let rest = ks.drop_first();
        assert forall|j: int| 0 <= j < rest.len() implies renderable(#[trigger] rest[j]) by {
            assert(rest[j] == ks[j + 1]);
        }
        lemma_render_lexes(rest);
        let h = render_kind(ks[0]) + seq![' '];
        let r = render_kinds(rest);
        assert(render_kinds(ks) == h + r);
        lemma_lex_one_rendered(ks[0], r);
        lemma_lex_after_prefix(h, r, 0);
        let lr = lex_from(r, 0)->Ok_0;
        lemma_shift_kinds(lr, h.len() as int);
        let shifted = shift_lexed(Ok(lr), h.len() as int)->Ok_0;
        assert(lex_from(h + r, h.len() as int) == Ok::<Seq<(TokenKindModel, int)>, (LexFailure, int)>(shifted));
        assert(lexed_kinds(seq![(ks[0], 0int)] + shifted) =~= ks) by {
            assert(lexed_kinds(shifted) == rest);
            assert forall|j: int| 0 <= j < ks.len() implies #[trigger] lexed_kinds(seq![(ks[0], 0int)] + shifted)[j] == ks[j] by {
                if j > 0 {
                    assert(lexed_kinds(shifted)[j - 1] == rest[j - 1]);
                }
            }
        }
    }
}

/// Writing the tokens back as text (each followed by a space; a documentation comment as
/// `///`, its text and a newline) and tokenizing that text gives the same kinds in the same
/// order; only the positions may differ.
pub proof fn law_rendered_tokens_read_back(s: Seq<char>)
    requires
        tokenize_model(s) is Ok,
    ensures
        ({
            let ts = tokenize_model(s)->Ok_0;
            let r = render_kinds(kinds_of(ts.drop_last()));
            &&& tokenize_model(r) is Ok
            &&& kinds_of(tokenize_model(r)->Ok_0) == kinds_of(ts)
        }),
{
    law_tokens_read_in_order(s);
    let ts = tokenize_model(s)->Ok_0;
    let ks = kinds_of(ts.drop_last());
    assert forall|j: int| 0 <= j < ks.len() implies renderable(#[trigger] ks[j]) by {
        assert(ks[j] == ts[j].kind);
        assert(stands_in(s, ts[j]));
        let p = choose|p: int| located_at(s, ts[j], p);
        assert(starts_token(s, (ts[j].kind, p)));
        if let TokenKindModel::Ident(x) = ts[j].kind {
            assert(s.subrange(p, p + x.len())[0] == s[p]);
        }
    }
    lemma_render_lexes(ks);
    let r = render_kinds(ks);
    let lexed = lex_from(r, 0)->Ok_0;
    assert forall|j: int| 0 <= j < lexed.len() implies (#[trigger] lexed[j]).0 != TokenKindModel::Break by {
        assert(lexed_kinds(lexed)[j] == lexed[j].0);
        assert(renderable(ks[j]));
    }
    lemma_detach_no_break(lexed);
    let rs = tokenize_model(r)->Ok_0;
    assert(kinds_of(rs) =~= kinds_of(ts)) by {
        assert forall|j: int| 0 <= j < rs.len() implies #[trigger] kinds_of(rs)[j] == kinds_of(ts)[j] by {
            if j < rs.len() - 1 {
                assert(lexed_kinds(lexed)[j] == lexed[j].0);
                assert(ks[j] == ts[j].kind);
            }
        }
    }
}

} // verus!
