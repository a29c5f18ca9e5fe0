//! Template source: lines with their indentation, and the Rust tokens of a
//! line.

use std::str::FromStr;

use proc_macro2::TokenTree;
use vstd::prelude::*;

use crate::chars::{
    byte_len, chars_of, copy_chars, find_char, find_char_from, is_white, lead, lemma_byte_len_push,
    lemma_char_width_bounds, lemma_lead, push_all, push_str, trim_bounds, trim_spec, utf8_width,
};

verus! {

/// A token of a template line, as plain characters.
pub enum Token {
    Ident(Vec<char>),
    Punct(char),
    Literal(Vec<char>),
    Group { delimited: Vec<char>, inner: Vec<char> },
    /// A `!` followed by a group: raw markup.
    RawGroup(Vec<char>),
}

/// The value a `Token` stands for.
pub enum TokenModel {
    Ident(Seq<char>),
    Punct(char),
    Literal(Seq<char>),
    Group { delimited: Seq<char>, inner: Seq<char> },
    RawGroup(Seq<char>),
}

impl View for Token {
    type V = TokenModel;

    open spec fn view(&self) -> TokenModel {
        match self {
            Token::Ident(t) => TokenModel::Ident(t@),
            Token::Punct(c) => TokenModel::Punct(*c),
            Token::Literal(t) => TokenModel::Literal(t@),
            Token::Group { delimited, inner } => TokenModel::Group {
                delimited: delimited@,
                inner: inner@,
            },
            Token::RawGroup(t) => TokenModel::RawGroup(t@),
        }
    }
}

/// The views of a sequence of tokens.
pub open spec fn token_views(tokens: Seq<Token>) -> Seq<TokenModel> {
    tokens.map_values(|t: Token| t@)
}

/// How a token is shown in an error message.
pub open spec fn describe_spec(t: TokenModel) -> Seq<char> {
    match t {
        TokenModel::Ident(s) => s,
        TokenModel::Literal(s) => s,
        TokenModel::RawGroup(s) => s,
        TokenModel::Group { delimited, .. } => delimited,
        TokenModel::Punct(c) => seq![c],
    }
}

impl Token {
    /// The text of the token, for error messages.
    pub fn describe(&self) -> (out: Vec<char>)
        ensures
            out@ == describe_spec(self@),
    {
        match self {
            Token::Ident(text) | Token::Literal(text) | Token::RawGroup(text) => text.clone(),
            Token::Group { delimited, .. } => delimited.clone(),
            Token::Punct(ch) => {
                let mut out = Vec::new();
                out.push(*ch);
                out
            },
        }
    }
}

impl Token {
    /// A copy of this token.
    pub fn copy(&self) -> (r: Token)
        ensures
            r@ == self@,
    {
        match self {
            Token::Ident(t) => Token::Ident(copy_chars(t)),
            Token::Punct(c) => Token::Punct(*c),
            Token::Literal(t) => Token::Literal(copy_chars(t)),
            Token::Group { delimited, inner } => Token::Group {
                delimited: copy_chars(delimited),
                inner: copy_chars(inner),
            },
            Token::RawGroup(t) => Token::RawGroup(copy_chars(t)),
        }
    }
}

/// A copy of some tokens.
pub fn copy_tokens(tokens: &Vec<Token>) -> (r: Vec<Token>)
    ensures
        token_views(r@) == token_views(tokens@),
{
    let mut r: Vec<Token> = Vec::new();
    let mut i: usize = 0;
    while i < tokens.len()
        invariant
            i <= tokens@.len(),
            r@.len() == i,
            forall|k: int| 0 <= k < i ==> #[trigger] r@[k]@ == tokens@[k]@,
        decreases tokens.len() - i,
    {
        r.push(tokens[i].copy());
        i += 1;
    }
    assert(token_views(r@) =~= token_views(tokens@));
    r
}

/// The view of a lexing result.
pub open spec fn lexed_view(r: Result<Vec<Token>, Vec<char>>) -> Result<Seq<TokenModel>, Seq<char>> {
    match r {
        Ok(tokens) => Ok(token_views(tokens@)),
        Err(message) => Err(message@),
    }
}

/// Calls `proc_macro2::TokenStream::from_str` and converts each top-level
/// token tree, one for one, into a `Token` (a group keeps its text with and
/// without its delimiters), or the error into its message. Nothing is
/// stated of the result: inside a procedural macro, with `proc_macro2`'s
/// `proc-macro` feature on, the compiler lexes, and elsewhere
/// `proc_macro2`'s own lexer does; the two print a group's tokens with
/// different spacing.
#[verifier::external_body]
fn lex(text: &str) -> (r: Result<Vec<Token>, Vec<char>>) {
    match proc_macro2::TokenStream::from_str(text) {
        Ok(stream) => Ok(stream.into_iter().map(|tree| match tree {
            TokenTree::Ident(t) => Token::Ident(t.to_string().chars().collect()),
            TokenTree::Punct(p) => Token::Punct(p.as_char()),
            TokenTree::Literal(l) => Token::Literal(l.to_string().chars().collect()),
            TokenTree::Group(g) => Token::Group {
                delimited: g.to_string().chars().collect(),
                inner: g.stream().to_string().chars().collect(),
            },
        }).collect()),
        Err(e) => Err(e.to_string().chars().collect()),
    }
}

/// What tokenizing one line gave: its tokens, or the error message.
pub type Lexed = Result<Seq<TokenModel>, Seq<char>>;

/// The message for a line that does not lex.
pub open spec fn lex_failure(message: Seq<char>) -> Seq<char> {
    "failed to tokenize: "@ + message
}

/// What holds of every outcome of tokenizing a line: an error is the
/// lexer's message after `failed to tokenize: `.
pub open spec fn lex_outcome_ok(o: Lexed) -> bool {
    o matches Err(e) ==> exists|m: Seq<char>| e == lex_failure(m)
}

/// Whether each of some outcomes is one that tokenizing can give.
pub open spec fn lex_outcomes_ok(os: Seq<Lexed>) -> bool {
    forall|i: int| 0 <= i < os.len() ==> lex_outcome_ok(#[trigger] os[i])
}

/// The views of some tokenizing results.
pub open spec fn lexed_views(v: Seq<Result<Vec<Token>, Vec<char>>>) -> Seq<Lexed> {
    v.map_values(|r: Result<Vec<Token>, Vec<char>>| lexed_view(r))
}

/// One line of a template that holds something.
pub struct Line {
    /// The line's number, counting from 1.
    pub num: usize,
    /// The width of its indentation in bytes.
    pub level: usize,
    /// The whole line.
    pub text: Vec<char>,
}

/// The value a `Line` stands for.
pub struct LineModel {
    pub num: nat,
    pub level: nat,
    pub text: Seq<char>,
}

impl View for Line {
    type V = LineModel;

    open spec fn view(&self) -> LineModel {
        LineModel { num: self.num as nat, level: self.level as nat, text: self.text@ }
    }
}

/// A line without the `\r` of a `\r\n` ending.
pub open spec fn strip_cr(line: Seq<char>) -> Seq<char> {
    if line.len() > 0 && line.last() == '\r' {
        line.drop_last()
    } else {
        line
    }
}

/// The lines of `s` as `str::lines` splits them: at `\n` or `\r\n`, the
/// final line ending optional.
pub open spec fn split_lines(s: Seq<char>) -> Seq<Seq<char>>
    decreases s.len(),
{
    if s.len() == 0 {
        Seq::empty()
    } else {
        let k = find_char(s, '\n');
        if k < 0 || k >= s.len() {
            seq![s]
        } else {
            seq![strip_cr(s.take(k))] + split_lines(s.skip(k + 1))
        }
    }
}

/// Whether a line carries nothing: blank, or a `/` comment.
pub open spec fn is_skipped(line: Seq<char>) -> bool {
    trim_spec(line).len() == 0 || trim_spec(line)[0] == '/'
}

/// The kept lines among `lines`, the first of them numbered `first`.
pub open spec fn kept_lines(lines: Seq<Seq<char>>, first: nat) -> Seq<LineModel>
    decreases lines.len(),
{
    if lines.len() == 0 {
        Seq::empty()
    } else {
        let rest = kept_lines(lines.drop_first(), first + 1);
        if is_skipped(lines[0]) {
            rest
        } else {
            seq![LineModel { num: first, level: byte_len(lines[0].take(lead(lines[0]) as int)), text: lines[0] }] + rest
        }
    }
}

/// The lines of a template that hold something, numbered from 1.
pub open spec fn source_lines(input: Seq<char>) -> Seq<LineModel> {
    kept_lines(split_lines(input), 1)
}

/// The views of a sequence of lines.
pub open spec fn line_views(lines: Seq<Line>) -> Seq<LineModel> {
    lines.map_values(|l: Line| l@)
}

pub struct Source;

impl Source {
    /// The lines of `input` that hold something, with their numbers and
    /// indentation.
    pub fn lines(input: &[char]) -> (out: Vec<Line>)
        requires
            byte_len(input@) <= usize::MAX,
        ensures
            line_views(out@) == source_lines(input@),
    {
        let n = input.len();
        let mut out: Vec<Line> = Vec::new();
        let mut pos: usize = 0;
        let mut done: usize = 0;
        proof {
            assert(input@.skip(0) =~= input@);
            crate::chars::lemma_byte_len_ge_len(input@);
        }
        while pos < n
            invariant
                n == input@.len(),
                n <= byte_len(input@) <= usize::MAX,
                pos <= n,
                done <= pos,
                line_views(out@) + kept_lines(split_lines(input@.skip(pos as int)), done as nat + 1)
                    == source_lines(input@),
            decreases n - pos,
        {
            let ghost rest = input@.skip(pos as int);
            let found = find_char_from(input, pos, '\n');
            let (end, next) = match found {
                Some(k) => {
                    if k > pos && input[k - 1] == '\r' {
                        (k - 1, k + 1)
                    } else {
                        (k, k + 1)
                    }
                },
                None => (n, n),
            };
            let ghost raw = input@.subrange(pos as int, end as int);
            proof {
                match found {
                    Some(k) => {
                        assert(rest.take(k - pos) =~= input@.subrange(pos as int, k as int));
                        assert(rest.skip(k - pos + 1) =~= input@.skip(next as int));
                        if k > pos && input@[k - 1] == '\r' {
                            assert(raw =~= input@.subrange(pos as int, k as int).drop_last());
                        }
                        assert(raw == strip_cr(rest.take(k - pos)));
                        assert(split_lines(rest) == seq![raw] + split_lines(input@.skip(next as int)));
                    },
                    None => {
                        assert(raw =~= rest);
                        assert(input@.skip(next as int) =~= Seq::<char>::empty());
                        assert(split_lines(rest) == seq![raw]);
                        assert(seq![raw].drop_first() =~= Seq::<Seq<char>>::empty());
                    },
                }
                assert(seq![raw][0] == raw);
                assert((seq![raw] + split_lines(input@.skip(next as int))).drop_first() =~= split_lines(input@.skip(next as int)));
            }
            let (t0, t1) = trim_bounds(input, pos, end);
            let skip = t0 == t1 || input[t0] == '/';
            proof {
                assert(skip == is_skipped(raw));
            }
            if !skip {
                proof {
                crate::chars::lemma_byte_len_subrange(input@, pos as int, end as int);
            }
            let level = Self::indentation(input, pos, end);
                let text = vstd::slice::slice_to_vec(vstd::slice::slice_subrange(input, pos, end));
                let line = Line { num: done + 1, level, text };
                let ghost before = out@;
                out.push(line);
                proof {
                    assert(line_views(out@) =~= line_views(before).push(line@));
                }
            }
            proof {
                let lines = split_lines(rest);
                assert(lines[0] == raw);
                assert(lines.drop_first() == split_lines(input@.skip(next as int)));
            }
            pos = next;
            done = done + 1;
        }
        proof {
            assert(input@.skip(n as int) =~= Seq::<char>::empty());
            assert(line_views(out@) + Seq::<LineModel>::empty() =~= line_views(out@));
        }
        out
    }

    /// The byte width of the leading whitespace of `input[start..end]`.
    fn indentation(input: &[char], start: usize, end: usize) -> (level: usize)
        requires
            start <= end <= input.len(),
            byte_len(input@.subrange(start as int, end as int)) <= usize::MAX,
        ensures
            level == byte_len(
                input@.subrange(start as int, end as int).take(
                    lead(input@.subrange(start as int, end as int)) as int,
                ),
            ),
    {
        let ghost line = input@.subrange(start as int, end as int);
        let mut i = start;
        let mut level: usize = 0;
        while i < end && crate::chars::is_whitespace(input[i])
            invariant
                start <= i <= end <= input.len(),
                line == input@.subrange(start as int, end as int),
                forall|j: int| start <= j < i ==> is_white(#[trigger] input@[j]),
                level == byte_len(line.take(i - start)),
                byte_len(line) <= usize::MAX,
            decreases end - i,
        {
            let w = utf8_width(input[i]);
            proof {
                lemma_byte_len_push(line.take(i - start), input@[i as int]);
                assert(line.take(i - start + 1) =~= line.take(i - start).push(input@[i as int]));
                crate::chars::lemma_byte_len_subrange(line, 0, i - start + 1);
            }
            level = level + w;
            i += 1;
        }
        proof {
            assert forall|j: int| 0 <= j < i - start implies is_white(#[trigger] line[j]) by {
                assert(line[j] == input@[start + j]);
            }
            if i < end {
                assert(line[i - start] == input@[i as int]);
            }
            lemma_lead(line, i - start);
        }
        level
    }

    /// The tokens of a template line, as Rust's lexer makes them, or the
    /// lexer's error after `failed to tokenize: `.
    pub fn tokenize(text: &[char]) -> (r: Result<Vec<Token>, Vec<char>>)
        ensures
            lex_outcome_ok(lexed_view(r)),
    {
        let source = crate::chars::string_of(text);
        match lex(source.as_str()) {
            Ok(tokens) => Ok(tokens),
            Err(message) => {
                let mut out: Vec<char> = Vec::new();
                push_str(&mut out, "failed to tokenize: ");
                push_all(&mut out, &message);
                assert(out@ == lex_failure(message@));
                Err(out)
            },
        }
    }
}

} // verus!
