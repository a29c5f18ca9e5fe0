//! From template lines to content nodes: directives, tag lines, and the
//! folding of `else` branches into their conditionals.

use vstd::prelude::*;

use super::{Content, ContentModel, contents_view, lemma_contents_view, lemma_contents_view_take};
use crate::chars::{
    byte_len, copy_chars, find_str, find_sub, has_prefix, lit, opt_view, pairs_view, push_all, push_str, same,
    starts_with, strings_view, trim, trim_spec,
};
use crate::markup::{decimal, push_decimal_chars};
use crate::source::{
    Lexed, Line, LineModel, Source, Token, TokenModel, copy_tokens, describe_spec, lex_outcome_ok,
    lex_outcomes_ok, lexed_view, lexed_views, line_views, source_lines, token_views,
};
use crate::text::{camel_to_dashed_spec, escape_pair, unescape_spec, unquote_spec, Text};

verus! {

/// A parsed line: its indentation and its content.
pub struct Node {
    pub level: usize,
    pub content: Content,
}

/// The value a `Node` stands for.
pub struct NodeModel {
    pub level: nat,
    pub content: ContentModel,
}

impl View for Node {
    type V = NodeModel;

    open spec fn view(&self) -> NodeModel {
        NodeModel { level: self.level as nat, content: self.content@ }
    }
}

/// The views of a sequence of nodes.
pub open spec fn node_views(v: Seq<Node>) -> Seq<NodeModel> {
    v.map_values(|n: Node| n@)
}

/// The attribute name for an identifier: camelCase becomes dashed-case,
/// except `viewBox`.
pub open spec fn attr_name_spec(name: Seq<char>) -> Seq<char> {
    if name == "viewBox"@ {
        name
    } else {
        camel_to_dashed_spec(name)
    }
}

/// One character of `| ` text inside a quoted literal.
pub open spec fn quote_char(c: char) -> Seq<char> {
    if c == '\\' {
        seq!['\\', '\\']
    } else if c == '"' {
        seq!['\\', '"']
    } else {
        seq![c]
    }
}

/// Text with backslashes and quotes escaped.
pub open spec fn quote_escape(s: Seq<char>) -> Seq<char>
    decreases s.len(),
{
    if s.len() == 0 {
        Seq::empty()
    } else {
        quote_escape(s.drop_last()) + quote_char(s.last())
    }
}

/// Escaping a concatenation escapes each part.
proof fn lemma_quote_escape_concat(a: Seq<char>, b: Seq<char>)
    ensures
        quote_escape(a + b) == quote_escape(a) + quote_escape(b),
    decreases b.len(),
{
    if b.len() == 0 {
        assert(a + b =~= a);
        assert(quote_escape(a) + quote_escape(b) =~= quote_escape(a));
    } else {
        lemma_quote_escape_concat(a, b.drop_last());
        assert((a + b).drop_last() =~= a + b.drop_last());
        assert((a + b).last() == b.last());
        assert(quote_escape(a + b) =~= quote_escape(a) + quote_escape(b.drop_last()) + quote_char(b.last()));
    }
}

/// Text after `| ` reads back as itself: escaping its backslashes and
/// quotes, wrapping it in quotes and unquoting it gives it back.
pub proof fn law_quote_round_trip(s: Seq<char>)
    ensures
        unescape_spec(quote_escape(s)) == s,
        unquote_spec(seq!['"'] + quote_escape(s) + seq!['"']) == s,
    decreases s.len(),
{
    let lit = seq!['"'] + quote_escape(s) + seq!['"'];
    assert(lit.subrange(1, lit.len() - 1) =~= quote_escape(s));
    if s.len() > 0 {
        let c = s[0];
        let rest = s.drop_first();
        law_quote_round_trip(rest);
        lemma_quote_escape_concat(seq![c], rest);
        assert(seq![c] + rest =~= s);
        assert(seq![c].drop_last() =~= Seq::<char>::empty());
        assert(seq![c].last() == c);
        assert(quote_escape(Seq::<char>::empty()) =~= Seq::<char>::empty());
        assert(quote_escape(seq![c]) == quote_escape(Seq::<char>::empty()) + quote_char(c));
        assert(quote_escape(seq![c]) =~= quote_char(c));
        let q = quote_char(c) + quote_escape(rest);
        assert(quote_escape(s) == q);
        if c == '\\' || c == '"' {
            assert(q[0] == '\\');
            assert(q.skip(2) =~= quote_escape(rest));
            assert(escape_pair(q[1]) == seq![c]);
            assert(unescape_spec(q) == escape_pair(q[1]) + unescape_spec(q.skip(2)));
        } else {
            assert(q[0] == c);
            assert(q.drop_first() =~= quote_escape(rest));
        }
        assert(unescape_spec(q) =~= s);
    } else {
        assert(quote_escape(s) =~= Seq::<char>::empty());
    }
}

/// The message for a malformed `- for` line.
pub open spec fn for_error(num: nat, trimmed: Seq<char>) -> Seq<char> {
    "HTML line "@ + decimal(num) + ": `- for VAR in EXPR` expected, got `"@ + trimmed + "`"@
}

/// What a directive line (`- for`, `- if`, `- else if`, `- else`, `| `)
/// is; `Ok(None)` for any other line.
pub open spec fn directive_spec(num: nat, level: nat, t: Seq<char>) -> Result<
    Option<NodeModel>,
    Seq<char>,
> {
    if has_prefix(t, "- for "@) {
        let rest = t.skip("- for "@.len() as int);
        let split = find_sub(rest, " in "@);
        if split < 0 {
            Err(for_error(num, t))
        } else {
            Ok(
                Some(
                    NodeModel {
                        level,
                        content: ContentModel::For {
                            var: trim_spec(rest.take(split)),
                            iter: trim_spec(rest.skip(split + " in "@.len())),
                            contents: Seq::empty(),
                        },
                    },
                ),
            )
        }
    } else if has_prefix(t, "- else if "@) {
        Ok(
            Some(
                NodeModel {
                    level,
                    content: ContentModel::ElseIf {
                        condition: trim_spec(t.skip("- else if "@.len() as int)),
                        contents: Seq::empty(),
                    },
                },
            ),
        )
    } else if t == "- else"@ {
        Ok(Some(NodeModel { level, content: ContentModel::Else { contents: Seq::empty() } }))
    } else if has_prefix(t, "- if "@) {
        Ok(
            Some(
                NodeModel {
                    level,
                    content: ContentModel::If {
                        condition: trim_spec(t.skip("- if "@.len() as int)),
                        contents: Seq::empty(),
                        else_branch: None,
                    },
                },
            ),
        )
    } else if has_prefix(t, "| "@) {
        Ok(
            Some(
                NodeModel {
                    level,
                    content: ContentModel::Text(
                        seq!['"'] + quote_escape(t.skip("| "@.len() as int)) + seq!['"'],
                    ),
                },
            ),
        )
    } else {
        Ok(None)
    }
}

/// The view of a directive result.
pub open spec fn directive_view(r: Result<Option<Node>, Vec<char>>) -> Result<
    Option<NodeModel>,
    Seq<char>,
> {
    match r {
        Ok(Some(n)) => Ok(Some(n@)),
        Ok(None) => Ok(None),
        Err(e) => Err(e@),
    }
}

/// Tokens with each `!` directly before a group merged into a raw group.
pub open spec fn merge_raw_spec(ts: Seq<TokenModel>) -> Seq<TokenModel>
    decreases ts.len(),
{
    if ts.len() == 0 {
        Seq::empty()
    } else if ts.len() >= 2 && ts[0] == TokenModel::Punct('!') && ts[1] is Group {
        seq![TokenModel::RawGroup(ts[1]->Group_inner)] + merge_raw_spec(ts.skip(2))
    } else {
        seq![ts[0]] + merge_raw_spec(ts.drop_first())
    }
}


pub struct Html;

impl Html {
    /// The attribute name for an identifier.
    pub fn attr_name(name: &[char]) -> (r: Vec<char>)
        ensures
            r@ == attr_name_spec(name@),
    {
        if same(name, &lit("viewBox")) {
            copy_chars(name)
        } else {
            Text::camel_to_dashed(name)
        }
    }

    /// Text with backslashes and quotes escaped.
    fn quote_escaped(s: &[char]) -> (r: Vec<char>)
        ensures
            r@ == quote_escape(s@),
    {
        let mut out: Vec<char> = Vec::new();
        let mut i: usize = 0;
        while i < s.len()
            invariant
                i <= s.len(),
                out@ == quote_escape(s@.take(i as int)),
            decreases s.len() - i,
        {
            let c = s[i];
            let ghost before = out@;
            if c == '\\' {
                out.push('\\');
                out.push('\\');
            } else if c == '"' {
                out.push('\\');
                out.push('"');
            } else {
                out.push(c);
            }
            proof {
                assert(s@.take(i as int + 1).drop_last() =~= s@.take(i as int));
                assert(out@ =~= before + quote_char(c));
            }
            i += 1;
        }
        assert(s@.take(s.len() as int) =~= s@);
        out
    }

    /// What a directive line is, if it is one.
    pub fn directive(num: usize, level: usize, trimmed: &[char]) -> (r: Result<Option<Node>, Vec<char>>)
        ensures
            directive_view(r) == directive_spec(num as nat, level as nat, trimmed@),
    {
        let t = trimmed;
        let for_prefix = lit("- for ");
        let else_if_prefix = lit("- else if ");
        let else_line = lit("- else");
        let if_prefix = lit("- if ");
        let text_prefix = lit("| ");
        let content = if starts_with(t, &for_prefix) {
            let rest = vstd::slice::slice_subrange(t, for_prefix.len(), t.len());
            assert(rest@ =~= t@.skip("- for "@.len() as int));
            let sep = lit(" in ");
            match find_str(rest, 0, &sep) {
                None => {
                    assert(rest@.skip(0) =~= rest@);
                    let mut message: Vec<char> = Vec::new();
                    push_str(&mut message, "HTML line ");
                    push_decimal_chars(num as u64, &mut message);
                    push_str(&mut message, ": `- for VAR in EXPR` expected, got `");
                    push_all(&mut message, t);
                    push_str(&mut message, "`");
                    assert(message@ =~= for_error(num as nat, t@));
                    return Err(message);
                },
                Some(split) => {
                    assert(rest@.skip(0) =~= rest@);
                    let var = trim(vstd::slice::slice_subrange(rest, 0, split));
                    let iter = trim(vstd::slice::slice_subrange(rest, split + sep.len(), rest.len()));
                    assert(rest@.subrange(0, split as int) =~= rest@.take(split as int));
                    assert(rest@.subrange(split + sep.len(), rest@.len() as int) =~= rest@.skip(split + " in "@.len()));
                    Content::For { var, iter, contents: Vec::new() }
                },
            }
        } else if starts_with(t, &else_if_prefix) {
            let rest = vstd::slice::slice_subrange(t, else_if_prefix.len(), t.len());
            assert(rest@ =~= t@.skip("- else if "@.len() as int));
            Content::ElseIf { condition: trim(rest), contents: Vec::new() }
        } else if same(t, &else_line) {
            Content::Else { contents: Vec::new() }
        } else if starts_with(t, &if_prefix) {
            let rest = vstd::slice::slice_subrange(t, if_prefix.len(), t.len());
            assert(rest@ =~= t@.skip("- if "@.len() as int));
            Content::If { condition: trim(rest), contents: Vec::new(), else_branch: None }
        } else if starts_with(t, &text_prefix) {
            let rest = vstd::slice::slice_subrange(t, text_prefix.len(), t.len());
            assert(rest@ =~= t@.skip("| "@.len() as int));
            let mut text: Vec<char> = Vec::new();
            text.push('"');
            let escaped = Self::quote_escaped(rest);
            push_all(&mut text, &escaped);
            text.push('"');
            assert(text@ =~= seq!['"'] + quote_escape(rest@) + seq!['"']);
            Content::Text(text)
        } else {
            return Ok(None);
        };
        let node = Node { level, content };
        proof {
            assert(contents_view(Seq::<Content>::empty()) =~= Seq::<ContentModel>::empty());
        }
        Ok(Some(node))
    }

    /// Merges each `!` directly before a group into a raw group.
    pub fn merge_raw(tokens: Vec<Token>) -> (out: Vec<Token>)
        ensures
            token_views(out@) == merge_raw_spec(token_views(tokens@)),
    {
        let ghost all = token_views(tokens@);
        let mut out: Vec<Token> = Vec::new();
        let mut i: usize = 0;
        proof {
            assert(all.skip(0) =~= all);
            assert(token_views(out@) =~= Seq::<TokenModel>::empty());
        }
        while i < tokens.len()
            invariant
                i <= tokens@.len(),
                all == token_views(tokens@),
                all.len() == tokens@.len(),
                token_views(out@) + merge_raw_spec(all.skip(i as int)) == merge_raw_spec(all),
            decreases tokens.len() - i,
        {
            let ghost rest = all.skip(i as int);
            let ghost before = out@;
            let is_bang = match &tokens[i] {
                Token::Punct(c) => *c == '!',
                _ => false,
            };
            let next_group = i + 1 < tokens.len() && match &tokens[i + 1] {
                Token::Group { .. } => true,
                _ => false,
            };
            if is_bang && next_group {
                let inner = match &tokens[i + 1] {
                    Token::Group { inner, .. } => copy_chars(inner),
                    _ => Vec::new(),
                };
                let merged = Token::RawGroup(inner);
                out.push(merged);
                proof {
                    assert(rest[0] == tokens@[i as int]@);
                    assert(rest[1] == tokens@[i + 1]@);
                    assert(rest.skip(2) =~= all.skip(i + 2));
                    assert(token_views(out@) =~= token_views(before).push(merged@));
                    assert(merge_raw_spec(rest) == seq![merged@] + merge_raw_spec(all.skip(i + 2)));
                    assert(token_views(out@) + merge_raw_spec(all.skip(i + 2)) =~= token_views(before) + merge_raw_spec(rest));
                }
                i += 2;
            } else {
                let copied = tokens[i].copy();
                out.push(copied);
                proof {
                    assert(rest[0] == tokens@[i as int]@);
                    if i + 1 < tokens.len() {
                        assert(rest[1] == tokens@[i + 1]@);
                    }
                    assert(rest.drop_first() =~= all.skip(i + 1));
                    assert(token_views(out@) =~= token_views(before).push(copied@));
                    assert(merge_raw_spec(rest) == seq![rest[0]] + merge_raw_spec(all.skip(i + 1)));
                    assert(token_views(out@) + merge_raw_spec(all.skip(i + 1)) =~= token_views(before) + merge_raw_spec(rest));
                }
                i += 1;
            }
        }
        proof {
            assert(all.skip(i as int) =~= Seq::<TokenModel>::empty());
            assert(token_views(out@) + Seq::<TokenModel>::empty() =~= token_views(out@));
        }
        out
    }
}


// ---------------------------------------------------------------------------
// Tag lines
// ---------------------------------------------------------------------------

/// Where the reading of a tag line stands.
pub enum TagState {
    StandBy,
    HasTag,
    PropertyName(Vec<char>),
    PropertyValue(Vec<char>),
    ClassName,
    Id,
    Done(Content),
}

/// The value a `TagState` stands for.
pub enum TagStateModel {
    StandBy,
    HasTag,
    PropertyName(Seq<char>),
    PropertyValue(Seq<char>),
    ClassName,
    Id,
    Done(ContentModel),
}

impl View for TagState {
    type V = TagStateModel;

    open spec fn view(&self) -> TagStateModel {
        match self {
            TagState::StandBy => TagStateModel::StandBy,
            TagState::HasTag => TagStateModel::HasTag,
            TagState::PropertyName(n) => TagStateModel::PropertyName(n@),
            TagState::PropertyValue(n) => TagStateModel::PropertyValue(n@),
            TagState::ClassName => TagStateModel::ClassName,
            TagState::Id => TagStateModel::Id,
            TagState::Done(c) => TagStateModel::Done(c@),
        }
    }
}

/// What has been read of a tag line so far.
pub struct TagRead {
    pub state: TagStateModel,
    pub tag: Option<Seq<char>>,
    pub classes: Seq<Seq<char>>,
    pub properties: Seq<(Seq<char>, Seq<char>)>,
    /// Texts, each with whether it is raw.
    pub contents: Seq<(Seq<char>, bool)>,
}

/// Nothing read yet.
pub open spec fn tag_start() -> TagRead {
    TagRead {
        state: TagStateModel::StandBy,
        tag: None,
        classes: Seq::empty(),
        properties: Seq::empty(),
        contents: Seq::empty(),
    }
}

/// The message for a token that does not fit where it stands.
pub open spec fn unexpected(t: TokenModel) -> Seq<char> {
    "HTML: unexpected `"@ + describe_spec(t) + "`"@
}

/// Reading one more token of a tag line.
pub open spec fn tag_step(r: TagRead, t: TokenModel) -> Result<TagRead, Seq<char>> {
    match r.state {
        TagStateModel::StandBy => match t {
            TokenModel::Ident(i) => Ok(TagRead { state: TagStateModel::HasTag, tag: Some(i), ..r }),
            TokenModel::Literal(l) => Ok(TagRead { state: TagStateModel::Done(ContentModel::Text(l)), ..r }),
            TokenModel::Group { inner, .. } => Ok(
                TagRead { state: TagStateModel::Done(ContentModel::Text(inner)), ..r },
            ),
            TokenModel::RawGroup(g) => Ok(
                TagRead { state: TagStateModel::Done(ContentModel::RawText(g)), ..r },
            ),
            TokenModel::Punct(c) => if c == '.' {
                Ok(TagRead { state: TagStateModel::ClassName, tag: Some("div"@), ..r })
            } else if c == '#' {
                Ok(TagRead { state: TagStateModel::Id, tag: Some("div"@), ..r })
            } else {
                Err(unexpected(t))
            },
        },
        TagStateModel::HasTag => match t {
            TokenModel::Punct(c) => if c == '.' {
                Ok(TagRead { state: TagStateModel::ClassName, ..r })
            } else if c == '#' {
                Ok(TagRead { state: TagStateModel::Id, ..r })
            } else {
                Err(unexpected(t))
            },
            TokenModel::Ident(i) => Ok(
                TagRead { state: TagStateModel::PropertyName(attr_name_spec(i)), ..r },
            ),
            TokenModel::Literal(l) => Ok(TagRead { contents: r.contents.push((l, false)), ..r }),
            TokenModel::Group { inner, .. } => Ok(
                TagRead { contents: r.contents.push((inner, false)), ..r },
            ),
            TokenModel::RawGroup(g) => Ok(TagRead { contents: r.contents.push((g, true)), ..r }),
        },
        TagStateModel::PropertyName(name) => {
            let named = r.properties.push((name, Seq::empty()));
            match t {
                TokenModel::Punct(c) => if c == '=' {
                    Ok(TagRead { state: TagStateModel::PropertyValue(name), ..r })
                } else if c == '.' {
                    Ok(TagRead { state: TagStateModel::ClassName, properties: named, ..r })
                } else if c == '#' {
                    Ok(TagRead { state: TagStateModel::Id, properties: named, ..r })
                } else {
                    Err(unexpected(t))
                },
                TokenModel::Ident(i) => Ok(
                    TagRead {
                        state: TagStateModel::PropertyName(attr_name_spec(i)),
                        properties: named,
                        ..r
                    },
                ),
                TokenModel::Literal(l) => Ok(
                    TagRead {
                        state: TagStateModel::HasTag,
                        properties: named,
                        contents: r.contents.push((l, false)),
                        ..r
                    },
                ),
                TokenModel::Group { inner, .. } => Ok(
                    TagRead {
                        state: TagStateModel::HasTag,
                        properties: named,
                        contents: r.contents.push((inner, false)),
                        ..r
                    },
                ),
                TokenModel::RawGroup(g) => Ok(
                    TagRead {
                        state: TagStateModel::HasTag,
                        properties: named,
                        contents: r.contents.push((g, true)),
                        ..r
                    },
                ),
            }
        },
        TagStateModel::PropertyValue(name) => match t {
            TokenModel::Literal(l) => Ok(
                TagRead {
                    state: TagStateModel::HasTag,
                    properties: r.properties.push((name, l)),
                    ..r
                },
            ),
            TokenModel::Group { inner, .. } => Ok(
                TagRead {
                    state: TagStateModel::HasTag,
                    properties: r.properties.push((name, inner)),
                    ..r
                },
            ),
            _ => Err(unexpected(t)),
        },
        TagStateModel::ClassName => match t {
            TokenModel::Ident(i) => Ok(
                TagRead { state: TagStateModel::HasTag, classes: r.classes.push(i), ..r },
            ),
            _ => Err(unexpected(t)),
        },
        TagStateModel::Id => match t {
            TokenModel::Ident(i) => Ok(
                TagRead {
                    state: TagStateModel::HasTag,
                    properties: r.properties.push(("id"@, seq!['"'] + i + seq!['"'])),
                    ..r
                },
            ),
            _ => Err(unexpected(t)),
        },
        TagStateModel::Done(_) => Err(unexpected(t)),
    }
}

/// Reading the tokens of a tag line in order, stopping at the first error.
pub open spec fn tag_run(ts: Seq<TokenModel>) -> Result<TagRead, Seq<char>>
    decreases ts.len(),
{
    if ts.len() == 0 {
        Ok(tag_start())
    } else {
        match tag_run(ts.drop_last()) {
            Ok(r) => tag_step(r, ts.last()),
            Err(e) => Err(e),
        }
    }
}

/// The texts after a tag, as content.
pub open spec fn texts_content(texts: Seq<(Seq<char>, bool)>) -> Seq<ContentModel> {
    texts.map_values(
        |p: (Seq<char>, bool)|
            if p.1 {
                ContentModel::RawText(p.0)
            } else {
                ContentModel::Text(p.0)
            },
    )
}

/// The node that a completely read tag line makes.
pub open spec fn tag_finish(r: TagRead) -> Result<ContentModel, Seq<char>> {
    let r = match r.state {
        TagStateModel::PropertyName(name) => TagRead {
            state: TagStateModel::HasTag,
            properties: r.properties.push((name, Seq::empty())),
            ..r
        },
        _ => r,
    };
    match r.state {
        TagStateModel::Done(c) => Ok(c),
        _ => match r.tag {
            None => Err("HTML: line has no tag"@),
            Some(tag) => Ok(
                ContentModel::Element {
                    tag,
                    classes: r.classes,
                    properties: r.properties,
                    contents: texts_content(r.contents),
                },
            ),
        },
    }
}

/// The node that a tag line makes.
pub open spec fn parse_tag_spec(ts: Seq<TokenModel>) -> Result<ContentModel, Seq<char>> {
    match tag_run(ts) {
        Ok(r) => tag_finish(r),
        Err(e) => Err(e),
    }
}

/// Names as identifier tokens.
pub open spec fn ident_tokens(names: Seq<Seq<char>>) -> Seq<TokenModel> {
    names.map_values(|n: Seq<char>| TokenModel::Ident(n))
}

/// Attribute names without values, in order.
pub open spec fn bare_attributes(names: Seq<Seq<char>>) -> Seq<(Seq<char>, Seq<char>)> {
    names.map_values(|n: Seq<char>| (attr_name_spec(n), Seq::<char>::empty()))
}

/// Where reading a tag and `k` bare names stands.
spec fn bare_read(tag: Seq<char>, names: Seq<Seq<char>>, k: int) -> TagRead {
    TagRead {
        state: if k == 0 {
            TagStateModel::HasTag
        } else {
            TagStateModel::PropertyName(attr_name_spec(names[k - 1]))
        },
        tag: Some(tag),
        classes: Seq::empty(),
        properties: if k == 0 {
            Seq::empty()
        } else {
            bare_attributes(names.take(k - 1))
        },
        contents: Seq::empty(),
    }
}

/// Reading a tag and bare names keeps each name but the last, in order,
/// with the last one pending.
proof fn lemma_bare_run(tag: Seq<char>, names: Seq<Seq<char>>, k: int)
    requires
        0 <= k <= names.len(),
    ensures
        tag_run(seq![TokenModel::Ident(tag)] + ident_tokens(names.take(k))) == Ok::<TagRead, Seq<char>>(
            bare_read(tag, names, k),
        ),
    decreases k,
{
    let ts = seq![TokenModel::Ident(tag)] + ident_tokens(names.take(k));
    if k == 0 {
        assert(ts =~= seq![TokenModel::Ident(tag)]);
        assert(ts.drop_last() =~= Seq::<TokenModel>::empty());
        assert(ts.last() == TokenModel::Ident(tag));
        assert(tag_run(Seq::<TokenModel>::empty()) == Ok::<TagRead, Seq<char>>(tag_start()));
        assert(tag_run(ts) == tag_step(tag_start(), TokenModel::Ident(tag)));
        assert(tag_step(tag_start(), TokenModel::Ident(tag)) == Ok::<TagRead, Seq<char>>(bare_read(tag, names, 0)));
    } else {
        lemma_bare_run(tag, names, k - 1);
        assert(ts.drop_last() =~= seq![TokenModel::Ident(tag)] + ident_tokens(names.take(k - 1)));
        assert(ts.last() == TokenModel::Ident(names[k - 1]));
        let prev = bare_read(tag, names, k - 1);
        if k == 1 {
            assert(bare_attributes(names.take(0)) =~= Seq::<(Seq<char>, Seq<char>)>::empty());
        } else {
            assert(bare_attributes(names.take(k - 2)).push((attr_name_spec(names[k - 2]), Seq::<char>::empty()))
                =~= bare_attributes(names.take(k - 1)));
        }
        assert(tag_run(ts) == tag_step(prev, TokenModel::Ident(names[k - 1])));
        assert(tag_step(prev, TokenModel::Ident(names[k - 1])) == Ok::<TagRead, Seq<char>>(
            bare_read(tag, names, k),
        ));
    }
}

/// Every attribute name read on a tag line ends up in the element, in
/// order: a tag followed by bare names makes that element with each name
/// as an attribute without a value, and nothing else.
pub proof fn law_bare_attributes_kept(tag: Seq<char>, names: Seq<Seq<char>>)
    ensures
        parse_tag_spec(seq![TokenModel::Ident(tag)] + ident_tokens(names)) == Ok::<ContentModel, Seq<char>>(
            ContentModel::Element {
                tag,
                classes: Seq::empty(),
                properties: bare_attributes(names),
                contents: Seq::empty(),
            },
        ),
{
    lemma_bare_run(tag, names, names.len() as int);
    assert(names.take(names.len() as int) =~= names);
    assert(texts_content(Seq::<(Seq<char>, bool)>::empty()) =~= Seq::<ContentModel>::empty());
    if names.len() > 0 {
        let n = names.len() as int;
        assert(bare_attributes(names.take(n - 1)).push((attr_name_spec(names[n - 1]), Seq::<char>::empty()))
            =~= bare_attributes(names));
    } else {
        assert(bare_attributes(names) =~= Seq::<(Seq<char>, Seq<char>)>::empty());
    }
}

/// Once reading fails, it stays failed.
proof fn lemma_tag_run_err(ts: Seq<TokenModel>, k: int)
    requires
        0 <= k <= ts.len(),
        tag_run(ts.take(k)) is Err,
    ensures
        tag_run(ts) == tag_run(ts.take(k)),
    decreases ts.len() - k,
{
    if k < ts.len() {
        assert(ts.take(k + 1).drop_last() =~= ts.take(k));
        lemma_tag_run_err(ts, k + 1);
    } else {
        assert(ts.take(k) =~= ts);
    }
}

/// The view of a tag-line result.
pub open spec fn content_result_view(r: Result<Content, Vec<char>>) -> Result<ContentModel, Seq<char>> {
    match r {
        Ok(c) => Ok(c@),
        Err(e) => Err(e@),
    }
}

/// The views of some texts with their rawness.
pub open spec fn text_views(v: Seq<(Vec<char>, bool)>) -> Seq<(Seq<char>, bool)> {
    v.map_values(|p: (Vec<char>, bool)| (p.0@, p.1))
}

impl Html {
    /// The error for a token that does not fit where it stands.
    fn unexpected(token: &Token) -> (e: Vec<char>)
        ensures
            e@ == unexpected(token@),
    {
        let mut message: Vec<char> = Vec::new();
        push_str(&mut message, "HTML: unexpected `");
        let shown = token.describe();
        push_all(&mut message, &shown);
        push_str(&mut message, "`");
        assert(message@ =~= unexpected(token@));
        message
    }

    /// The node that a tag line makes: an element with its classes,
    /// attributes and texts, or a single text.
    pub fn parse_tag(tokens: Vec<Token>) -> (r: Result<Content, Vec<char>>)
        ensures
            content_result_view(r) == parse_tag_spec(token_views(tokens@)),
    {
        let ghost ts = token_views(tokens@);
        let mut state = TagState::StandBy;
        let mut tag: Option<Vec<char>> = None;
        let mut classes: Vec<Vec<char>> = Vec::new();
        let mut properties: Vec<(Vec<char>, Vec<char>)> = Vec::new();
        let mut contents: Vec<(Vec<char>, bool)> = Vec::new();
        let mut i: usize = 0;
        proof {
            assert(ts.take(0) =~= Seq::<TokenModel>::empty());
            assert(strings_view(classes@) =~= Seq::<Seq<char>>::empty());
            assert(pairs_view(properties@) =~= Seq::<(Seq<char>, Seq<char>)>::empty());
            assert(text_views(contents@) =~= Seq::<(Seq<char>, bool)>::empty());
        }
        while i < tokens.len()
            invariant
                i <= tokens@.len(),
                ts == token_views(tokens@),
                ts.len() == tokens@.len(),
                tag_run(ts.take(i as int)) == Ok::<TagRead, Seq<char>>(
                    TagRead {
                        state: state@,
                        tag: opt_view(tag),
                        classes: strings_view(classes@),
                        properties: pairs_view(properties@),
                        contents: text_views(contents@),
                    },
                ),
            decreases tokens.len() - i,
        {
            let token = &tokens[i];
            let ghost before = TagRead {
                state: state@,
                tag: opt_view(tag),
                classes: strings_view(classes@),
                properties: pairs_view(properties@),
                contents: text_views(contents@),
            };
            let ghost cls0 = classes@;
            let ghost props0 = properties@;
            let ghost texts0 = contents@;
            proof {
                assert(ts[i as int] == token@);
                assert(ts.take(i as int + 1).drop_last() =~= ts.take(i as int));
                assert(tag_run(ts.take(i as int + 1)) == tag_step(before, token@));
            }
            let current = state;
            let next: Result<TagState, Vec<char>> = match current {
                TagState::StandBy => match token {
                    Token::Ident(ident) => {
                        tag = Some(copy_chars(ident));
                        Ok(TagState::HasTag)
                    },
                    Token::Literal(l) => Ok(TagState::Done(Content::Text(copy_chars(l)))),
                    Token::Group { inner, .. } => Ok(TagState::Done(Content::Text(copy_chars(inner)))),
                    Token::RawGroup(g) => Ok(TagState::Done(Content::RawText(copy_chars(g)))),
                    Token::Punct(c) => {
                        if *c == '.' {
                            tag = Some(lit("div"));
                            Ok(TagState::ClassName)
                        } else if *c == '#' {
                            tag = Some(lit("div"));
                            Ok(TagState::Id)
                        } else {
                            Err(Self::unexpected(token))
                        }
                    },
                },
                TagState::HasTag => match token {
                    Token::Punct(c) => {
                        if *c == '.' {
                            Ok(TagState::ClassName)
                        } else if *c == '#' {
                            Ok(TagState::Id)
                        } else {
                            Err(Self::unexpected(token))
                        }
                    },
                    Token::Ident(ident) => Ok(TagState::PropertyName(Self::attr_name(ident))),
                    Token::Literal(l) => {
                        contents.push((copy_chars(l), false));
                        Ok(TagState::HasTag)
                    },
                    Token::Group { inner, .. } => {
                        contents.push((copy_chars(inner), false));
                        Ok(TagState::HasTag)
                    },
                    Token::RawGroup(g) => {
                        contents.push((copy_chars(g), true));
                        Ok(TagState::HasTag)
                    },
                },
                TagState::PropertyName(name) => match token {
                    Token::Punct(c) => {
                        if *c == '=' {
                            Ok(TagState::PropertyValue(name))
                        } else if *c == '.' {
                            properties.push((name, Vec::new()));
                            Ok(TagState::ClassName)
                        } else if *c == '#' {
                            properties.push((name, Vec::new()));
                            Ok(TagState::Id)
                        } else {
                            Err(Self::unexpected(token))
                        }
                    },
                    Token::Ident(ident) => {
                        properties.push((name, Vec::new()));
                        Ok(TagState::PropertyName(Self::attr_name(ident)))
                    },
                    Token::Literal(l) => {
                        properties.push((name, Vec::new()));
                        contents.push((copy_chars(l), false));
                        Ok(TagState::HasTag)
                    },
                    Token::Group { inner, .. } => {
                        properties.push((name, Vec::new()));
                        contents.push((copy_chars(inner), false));
                        Ok(TagState::HasTag)
                    },
                    Token::RawGroup(g) => {
                        properties.push((name, Vec::new()));
                        contents.push((copy_chars(g), true));
                        Ok(TagState::HasTag)
                    },
                },
                TagState::PropertyValue(name) => match token {
                    Token::Literal(l) => {
                        properties.push((name, copy_chars(l)));
                        Ok(TagState::HasTag)
                    },
                    Token::Group { inner, .. } => {
                        properties.push((name, copy_chars(inner)));
                        Ok(TagState::HasTag)
                    },
                    _ => Err(Self::unexpected(token)),
                },
                TagState::ClassName => match token {
                    Token::Ident(ident) => {
                        classes.push(copy_chars(ident));
                        Ok(TagState::HasTag)
                    },
                    _ => Err(Self::unexpected(token)),
                },
                TagState::Id => match token {
                    Token::Ident(ident) => {
                        let mut value: Vec<char> = Vec::new();
                        value.push('"');
                        push_all(&mut value, ident);
                        value.push('"');
                        assert(value@ =~= seq!['"'] + ident@ + seq!['"']);
                        properties.push((lit("id"), value));
                        Ok(TagState::HasTag)
                    },
                    _ => Err(Self::unexpected(token)),
                },
                TagState::Done(_) => Err(Self::unexpected(token)),
            };
            match next {
                Ok(s) => {
                    state = s;
                    proof {
                        assert(strings_view(classes@) =~= tag_step(before, token@)->Ok_0.classes);
                        assert(pairs_view(properties@) =~= tag_step(before, token@)->Ok_0.properties);
                        assert(text_views(contents@) =~= tag_step(before, token@)->Ok_0.contents);
                    }
                },
                Err(e) => {
                    proof {
                        lemma_tag_run_err(ts, i as int + 1);
                    }
                    return Err(e);
                },
            }
            i += 1;
        }
        proof {
            assert(ts.take(tokens@.len() as int) =~= ts);
        }
        Self::finish_tag(state, tag, classes, properties, contents)
    }

    /// The node that a completely read tag line makes.
    fn finish_tag(
        state: TagState,
        tag: Option<Vec<char>>,
        classes: Vec<Vec<char>>,
        properties: Vec<(Vec<char>, Vec<char>)>,
        contents: Vec<(Vec<char>, bool)>,
    ) -> (r: Result<Content, Vec<char>>)
        ensures
            content_result_view(r) == tag_finish(
                TagRead {
                    state: state@,
                    tag: opt_view(tag),
                    classes: strings_view(classes@),
                    properties: pairs_view(properties@),
                    contents: text_views(contents@),
                },
            ),
    {
        let mut properties = properties;
        let ghost props0 = properties@;
        let state = match state {
            TagState::PropertyName(name) => {
                properties.push((name, Vec::new()));
                proof {
                    assert(pairs_view(properties@) =~= pairs_view(props0).push((name@, Seq::<char>::empty())));
                }
                TagState::HasTag
            },
            other => other,
        };
        match state {
            TagState::Done(content) => Ok(content),
            _ => match tag {
                None => Err(lit("HTML: line has no tag")),
                Some(tag) => {
                    let mut nodes: Vec<Content> = Vec::new();
                    let mut i: usize = 0;
                    while i < contents.len()
                        invariant
                            i <= contents@.len(),
                            contents_view(nodes@) == texts_content(text_views(contents@)).take(i as int),
                        decreases contents.len() - i,
                    {
                        let (text, raw) = &contents[i];
                        let node = if *raw {
                            Content::RawText(copy_chars(text))
                        } else {
                            Content::Text(copy_chars(text))
                        };
                        let ghost before = nodes@;
                        nodes.push(node);
                        proof {
                            assert(nodes@.drop_last() =~= before);
                            assert(texts_content(text_views(contents@)).take(i as int + 1) =~= texts_content(text_views(contents@)).take(i as int).push(node@));
                        }
                        i += 1;
                    }
                    proof {
                        assert(texts_content(text_views(contents@)).take(contents@.len() as int) =~= texts_content(text_views(contents@)));
                    }
                    Ok(Content::Element { tag, classes, properties, contents: nodes })
                },
            },
        }
    }
}

// ---------------------------------------------------------------------------
// Blocks and `else` branches
// ---------------------------------------------------------------------------

/// The message for a block under a line that cannot hold one.
pub open spec fn no_block_error() -> Seq<char> {
    "HTML: this line cannot hold a nested block"@
}

/// A line given the block below it: an element without inline texts, a
/// loop or a branch takes it; anything else cannot.
pub open spec fn adopt_content(c: ContentModel, children: Seq<ContentModel>) -> Result<ContentModel, Seq<char>> {
    match c {
        ContentModel::Element { tag, classes, properties, contents } => if contents.len() == 0 {
            Ok(ContentModel::Element { tag, classes, properties, contents: children })
        } else {
            Err(no_block_error())
        },
        ContentModel::For { var, iter, .. } => Ok(ContentModel::For { var, iter, contents: children }),
        ContentModel::If { condition, else_branch, .. } => Ok(
            ContentModel::If { condition, contents: children, else_branch },
        ),
        ContentModel::ElseIf { condition, .. } => Ok(ContentModel::ElseIf { condition, contents: children }),
        ContentModel::Else { .. } => Ok(ContentModel::Else { contents: children }),
        _ => Err(no_block_error()),
    }
}

/// The `else` chain at the start of `s`: the branch it makes and how many
/// siblings it takes.
pub open spec fn take_else_spec(s: Seq<ContentModel>) -> (Option<Box<ContentModel>>, nat)
    decreases s.len(),
{
    if s.len() == 0 {
        (None, 0)
    } else {
        match s[0] {
            ContentModel::ElseIf { condition, contents } => {
                let inner = take_else_spec(s.drop_first());
                (
                    Some(Box::new(ContentModel::If { condition, contents, else_branch: inner.0 })),
                    inner.1 + 1,
                )
            },
            ContentModel::Else { .. } => (Some(Box::new(s[0])), 1),
            _ => (None, 0),
        }
    }
}

/// An `else` chain takes no more siblings than there are.
pub proof fn lemma_take_else_len(s: Seq<ContentModel>)
    ensures
        take_else_spec(s).1 <= s.len(),
    decreases s.len(),
{
    if s.len() > 0 {
        lemma_take_else_len(s.drop_first());
    }
}

/// Siblings with each `if` joined by the `else if` and `else` lines that
/// follow it.
pub open spec fn merge_else_spec(s: Seq<ContentModel>) -> Seq<ContentModel>
    decreases s.len(),
{
    if s.len() == 0 {
        Seq::empty()
    } else {
        match s[0] {
            ContentModel::If { condition, contents, .. } => {
                let taken = take_else_spec(s.drop_first());
                proof {
                    lemma_take_else_len(s.drop_first());
                }
                seq![ContentModel::If { condition, contents, else_branch: taken.0 }]
                    + merge_else_spec(s.drop_first().skip(taken.1 as int))
            },
            _ => seq![s[0]] + merge_else_spec(s.drop_first()),
        }
    }
}

/// An `else` part written back out as the `else if` and `else` lines it
/// was made of.
pub open spec fn else_lines(b: ContentModel) -> Seq<ContentModel>
    decreases b,
{
    match b {
        ContentModel::If { condition, contents, else_branch } => seq![
            ContentModel::ElseIf { condition, contents },
        ] + match else_branch {
            Some(e) => else_lines(*e),
            None => Seq::empty(),
        },
        _ => seq![b],
    }
}

/// Siblings with the `else` part of each `if` written back out as lines
/// after it.
pub open spec fn unfold_else(s: Seq<ContentModel>) -> Seq<ContentModel>
    decreases s.len(),
{
    if s.len() == 0 {
        Seq::empty()
    } else {
        (match s[0] {
            ContentModel::If { condition, contents, else_branch: Some(e) } => seq![
                ContentModel::If { condition, contents, else_branch: None },
            ] + else_lines(*e),
            _ => seq![s[0]],
        }) + unfold_else(s.drop_first())
    }
}

/// Whether no `if` among `s` has an `else` part yet, as lines read from a
/// template have none.
pub open spec fn no_else_parts(s: Seq<ContentModel>) -> bool {
    forall|i: int| 0 <= i < s.len() && (#[trigger] s[i]) is If ==> s[i]->If_else_branch is None
}

/// An `else` chain written back out is the lines it was taken from.
proof fn lemma_take_else_lines(s: Seq<ContentModel>)
    ensures
        take_else_spec(s).0 matches Some(b) ==> else_lines(*b) == s.take(take_else_spec(s).1 as int),
        take_else_spec(s).0 is None ==> take_else_spec(s).1 == 0,
        take_else_spec(s).1 <= s.len(),
    decreases s.len(),
{
    if s.len() > 0 {
        lemma_take_else_lines(s.drop_first());
        match s[0] {
            ContentModel::ElseIf { condition, contents } => {
                let inner = take_else_spec(s.drop_first());
                let b = ContentModel::If { condition, contents, else_branch: inner.0 };
                match inner.0 {
                    Some(e) => {
                        assert(else_lines(b) == seq![ContentModel::ElseIf { condition, contents }] + else_lines(*e));
                    },
                    None => {
                        assert(else_lines(b) == seq![ContentModel::ElseIf { condition, contents }] + Seq::<
                            ContentModel,
                        >::empty());
                    },
                }
                assert(else_lines(b) =~= s.take(inner.1 as int + 1));
            },
            ContentModel::Else { .. } => {
                assert(else_lines(s[0]) =~= s.take(1));
            },
            _ => {},
        }
    }
}

/// Joining each `if` with its `else` lines loses, repeats and moves
/// nothing: writing the `else` parts back out as lines gives back the
/// siblings, and there are no more of them than before.
pub proof fn law_merge_else_unfolds(s: Seq<ContentModel>)
    requires
        no_else_parts(s),
    ensures
        unfold_else(merge_else_spec(s)) == s,
        merge_else_spec(s).len() <= s.len(),
    decreases s.len(),
{
    if s.len() > 0 {
        let t = s.drop_first();
        match s[0] {
            ContentModel::If { condition, contents, else_branch } => {
                assert(s[0] is If);
                assert(else_branch is None);
                let taken = take_else_spec(t);
                lemma_take_else_lines(t);
                let rest = t.skip(taken.1 as int);
                assert forall|i: int| 0 <= i < rest.len() && (#[trigger] rest[i]) is If implies rest[i]->If_else_branch is None by {
                    assert(rest[i] == s[i + 1 + taken.1]);
                }
                law_merge_else_unfolds(rest);
                let head = ContentModel::If { condition, contents, else_branch: taken.0 };
                let merged = seq![head] + merge_else_spec(rest);
                assert(merge_else_spec(s) == merged);
                assert(merged[0] == head);
                assert(merged.drop_first() =~= merge_else_spec(rest));
                match taken.0 {
                    Some(e) => {
                        assert(unfold_else(merged) == seq![
                            ContentModel::If { condition, contents, else_branch: None },
                        ] + else_lines(*e) + unfold_else(merge_else_spec(rest)));
                        assert(seq![s[0]] + t.take(taken.1 as int) + rest =~= s);
                    },
                    None => {
                        assert(unfold_else(merged) == seq![head] + unfold_else(merge_else_spec(rest)));
                        assert(t.skip(0) =~= t);
                        assert(seq![s[0]] + t =~= s);
                    },
                }
            },
            _ => {
                assert forall|i: int| 0 <= i < t.len() && (#[trigger] t[i]) is If implies t[i]->If_else_branch is None by {
                    assert(t[i] == s[i + 1]);
                }
                law_merge_else_unfolds(t);
                let merged = seq![s[0]] + merge_else_spec(t);
                assert(merge_else_spec(s) == merged);
                assert(merged[0] == s[0]);
                assert(merged.drop_first() =~= merge_else_spec(t));
                assert(unfold_else(merged) == seq![s[0]] + unfold_else(merge_else_spec(t)));
                assert(seq![s[0]] + t =~= s);
            },
        }
    }
}

/// What is left to read of a stack of pending siblings, next one last.
pub open spec fn pending_view(v: Seq<Content>) -> Seq<ContentModel> {
    contents_view(v).reverse()
}

/// Taking the next pending sibling.
proof fn lemma_pending_pop(v: Seq<Content>)
    requires
        v.len() > 0,
    ensures
        pending_view(v.drop_last()) == pending_view(v).drop_first(),
        pending_view(v)[0] == v.last()@,
        pending_view(v).len() == v.len(),
{
    lemma_contents_view(v);
    lemma_contents_view(v.drop_last());
    assert(pending_view(v.drop_last()) =~= pending_view(v).drop_first());
}

/// Dropping pending siblings from the top.
proof fn lemma_pending_take(v: Seq<Content>, k: int)
    requires
        0 <= k <= v.len(),
    ensures
        pending_view(v.take(v.len() - k)) == pending_view(v).skip(k),
{
    lemma_contents_view_take(v, v.len() - k);
    lemma_contents_view(v);
    assert(pending_view(v.take(v.len() - k)) =~= pending_view(v).skip(k));
}

impl crate::indent::IndentNode for Node {
    type Output = Content;

    open spec fn level_of(n: NodeModel) -> nat {
        n.level
    }

    open spec fn output_of(n: NodeModel) -> ContentModel {
        n.content
    }

    open spec fn adopt_spec(n: NodeModel, children: Seq<ContentModel>) -> Result<NodeModel, Seq<char>> {
        match adopt_content(n.content, children) {
            Ok(c) => Ok(NodeModel { level: n.level, content: c }),
            Err(e) => Err(e),
        }
    }

    open spec fn finish_spec(siblings: Seq<ContentModel>) -> Seq<ContentModel> {
        merge_else_spec(siblings)
    }

    fn level(&self) -> (r: usize) {
        self.level
    }

    fn into_output(self) -> (r: Content) {
        self.content
    }

    fn adopt(&mut self, children: Vec<Content>) -> (r: Result<(), Vec<char>>) {
        let ghost kids = crate::indent::outputs_view(children@);
        proof {
            lemma_contents_view(children@);
            assert(kids =~= contents_view(children@));
        }
        let mut content = Content::Fragment(Vec::new());
        std::mem::swap(&mut self.content, &mut content);
        let ghost before = content@;
        assert(before == old(self)@.content);
        match content {
            Content::Element { tag, classes, properties, contents } => {
                proof {
                    lemma_contents_view(contents@);
                }
                if contents.len() == 0 {
                    self.content = Content::Element { tag, classes, properties, contents: children };
                    Ok(())
                } else {
                    self.content = Content::Element { tag, classes, properties, contents };
                    Err(lit("HTML: this line cannot hold a nested block"))
                }
            },
            Content::For { var, iter, .. } => {
                self.content = Content::For { var, iter, contents: children };
                Ok(())
            },
            Content::If { condition, else_branch, .. } => {
                self.content = Content::If { condition, contents: children, else_branch };
                Ok(())
            },
            Content::ElseIf { condition, .. } => {
                self.content = Content::ElseIf { condition, contents: children };
                Ok(())
            },
            Content::Else { .. } => {
                self.content = Content::Else { contents: children };
                Ok(())
            },
            other => {
                self.content = other;
                Err(lit("HTML: this line cannot hold a nested block"))
            },
        }
    }

    fn finish_siblings(siblings: Vec<Content>) -> (r: Vec<Content>) {
        proof {
            lemma_contents_view(siblings@);
            assert(crate::indent::outputs_view(siblings@) =~= contents_view(siblings@));
        }
        let r = Self::merge_else(siblings);
        proof {
            lemma_contents_view(r@);
            assert(crate::indent::outputs_view(r@) =~= contents_view(r@));
        }
        r
    }
}

impl Node {
    /// Joins each `if` with the `else if` and `else` siblings after it.
    pub fn merge_else(siblings: Vec<Content>) -> (out: Vec<Content>)
        ensures
            contents_view(out@) == merge_else_spec(contents_view(siblings@)),
    {
        let ghost all = contents_view(siblings@);
        let mut pending = crate::indent::reversed(siblings);
        let mut out: Vec<Content> = Vec::new();
        proof {
            lemma_contents_view(pending@);
            lemma_contents_view(siblings@);
            assert(pending_view(pending@) =~= all);
            assert(contents_view(out@) =~= Seq::<ContentModel>::empty());
        }
        while pending.len() > 0
            invariant
                contents_view(out@) + merge_else_spec(pending_view(pending@)) == merge_else_spec(all),
            decreases pending.len(),
        {
            let ghost rem = pending_view(pending@);
            proof {
                lemma_pending_pop(pending@);
            }
            let item = pending.pop().unwrap();
            let ghost before = out@;
            match item {
                Content::If { condition, contents, .. } => {
                    let ghost taken = take_else_spec(rem.drop_first());
                    let ghost p1 = pending@;
                    let else_branch = Self::take_else(&mut pending);
                    proof {
                        lemma_pending_take(p1, taken.1 as int);
                    }
                    let merged = Content::If { condition, contents, else_branch };
                    out.push(merged);
                    proof {
                        assert(contents_view(out@) == contents_view(before).push(merged@)) by {
                            assert(out@.drop_last() =~= before);
                        }
                        lemma_take_else_len(rem.drop_first());
                        assert(pending_view(pending@) == rem.drop_first().skip(taken.1 as int));
                        assert(merge_else_spec(rem) == seq![merged@] + merge_else_spec(pending_view(pending@)));
                        assert(contents_view(out@) + merge_else_spec(pending_view(pending@)) =~= contents_view(before) + merge_else_spec(rem));
                    }
                },
                other => {
                    let ghost o = other@;
                    out.push(other);
                    proof {
                        assert(contents_view(out@) == contents_view(before).push(o)) by {
                            assert(out@.drop_last() =~= before);
                        }
                        assert(merge_else_spec(rem) == seq![o] + merge_else_spec(rem.drop_first()));
                        assert(contents_view(out@) + merge_else_spec(pending_view(pending@)) =~= contents_view(before) + merge_else_spec(rem));
                    }
                },
            }
        }
        proof {
            assert(pending_view(pending@) =~= Seq::<ContentModel>::empty());
            assert(contents_view(out@) + Seq::<ContentModel>::empty() =~= contents_view(out@));
        }
        out
    }

    /// Takes the `else if` and `else` siblings that come next.
    fn take_else(pending: &mut Vec<Content>) -> (r: Option<Box<Content>>)
        ensures
            ({
                let t = take_else_spec(pending_view(old(pending)@));
                &&& t.1 <= old(pending)@.len()
                &&& final(pending)@ == old(pending)@.take(old(pending)@.len() - t.1)
                &&& t.0 == match r {
                    Some(b) => Some(Box::new((*b)@)),
                    None => None,
                }
            }),
        decreases old(pending)@.len(),
    {
        let ghost rem = pending_view(pending@);
        if pending.len() == 0 {
            assert(pending@.take(0) =~= pending@);
            return None;
        }
        proof {
            lemma_pending_pop(pending@);
        }
        let n = pending.len();
        let is_else_if = match &pending[n - 1] {
            Content::ElseIf { .. } => true,
            _ => false,
        };
        let is_else = match &pending[n - 1] {
            Content::Else { .. } => true,
            _ => false,
        };
        if is_else_if {
            let item = pending.pop().unwrap();
            let ghost p1 = pending@;
            match item {
                Content::ElseIf { condition, contents } => {
                    let inner = Self::take_else(pending);
                    proof {
                        assert(p1 =~= old(pending)@.take(n - 1));
                        assert(rem.drop_first() == pending_view(p1));
                        assert(pending@ =~= old(pending)@.take(old(pending)@.len() - take_else_spec(rem).1));
                    }
                    Some(Box::new(Content::If { condition, contents, else_branch: inner }))
                },
                _ => {
                    assert(false);
                    None
                },
            }
        } else if is_else {
            let item = pending.pop().unwrap();
            proof {
                assert(pending@ =~= old(pending)@.take(n - 1));
            }
            Some(Box::new(item))
        } else {
            assert(pending@.take(n as int) =~= pending@);
            None
        }
    }
}

impl Html {
    /// The root of a template: its single top-level node, or a fragment of
    /// several.
    pub fn root(roots: Vec<Content>) -> (r: Result<Content, Vec<char>>)
        ensures
            content_result_view(r) == root_spec(contents_view(roots@)),
    {
        proof {
            lemma_contents_view(roots@);
        }
        if roots.len() == 0 {
            Err(lit("HTML: empty template"))
        } else if roots.len() == 1 {
            let mut roots = roots;
            let only = roots.pop().unwrap();
            Ok(only)
        } else {
            Ok(Content::Fragment(roots))
        }
    }
}

/// The root of a template.
pub open spec fn root_spec(roots: Seq<ContentModel>) -> Result<ContentModel, Seq<char>> {
    if roots.len() == 0 {
        Err("HTML: empty template"@)
    } else if roots.len() == 1 {
        Ok(roots[0])
    } else {
        Ok(ContentModel::Fragment(roots))
    }
}

// ---------------------------------------------------------------------------
// Whole templates
// ---------------------------------------------------------------------------

/// The prefix of an error on a given line.
pub open spec fn line_prefix(num: nat) -> Seq<char> {
    "HTML line "@ + decimal(num) + ": "@
}

/// What one line of a template is, given what tokenizing it gave (which
/// a directive line does not consult): a node, nothing (a line of no
/// tokens), or an error.
pub open spec fn line_node(l: LineModel, lexed: Lexed) -> Result<Option<NodeModel>, Seq<char>> {
    match directive_spec(l.num, l.level, trim_spec(l.text)) {
        Err(e) => Err(e),
        Ok(Some(n)) => Ok(Some(n)),
        Ok(None) => match lexed {
            Err(e) => Err(line_prefix(l.num) + e),
            Ok(ts) => {
                let merged = merge_raw_spec(ts);
                if merged.len() == 0 {
                    Ok(None)
                } else {
                    match parse_tag_spec(merged) {
                        Err(e) => Err(line_prefix(l.num) + e),
                        Ok(c) => Ok(Some(NodeModel { level: l.level, content: c })),
                    }
                }
            },
        },
    }
}

/// The nodes of some lines, in order, stopping at the first error; line
/// `i` tokenized to `lexed[i]`.
pub open spec fn parse_lines(ls: Seq<LineModel>, lexed: Seq<Lexed>) -> Result<Seq<NodeModel>, Seq<char>>
    decreases ls.len(),
{
    if ls.len() == 0 {
        Ok(Seq::empty())
    } else {
        match parse_lines(ls.drop_last(), lexed.drop_last()) {
            Err(e) => Err(e),
            Ok(ns) => match line_node(ls.last(), lexed.last()) {
                Err(e) => Err(e),
                Ok(None) => Ok(ns),
                Ok(Some(n)) => Ok(ns.push(n)),
            },
        }
    }
}

/// The nodes of an HTML template, given what tokenizing each of its lines
/// gave.
pub open spec fn html_parse_spec(input: Seq<char>, lexed: Seq<Lexed>) -> Result<Seq<NodeModel>, Seq<char>> {
    parse_lines(source_lines(input), lexed)
}

/// Once parsing fails, it stays failed, whatever the later lines lex to.
proof fn lemma_parse_lines_err(ls: Seq<LineModel>, lexed: Seq<Lexed>, k: int)
    requires
        0 <= k <= ls.len(),
        lexed.len() == ls.len(),
        parse_lines(ls.take(k), lexed.take(k)) is Err,
    ensures
        parse_lines(ls, lexed) == parse_lines(ls.take(k), lexed.take(k)),
    decreases ls.len() - k,
{
    if k < ls.len() {
        assert(ls.take(k + 1).drop_last() =~= ls.take(k));
        assert(lexed.take(k + 1).drop_last() =~= lexed.take(k));
        lemma_parse_lines_err(ls, lexed, k + 1);
    } else {
        assert(ls.take(k) =~= ls);
        assert(lexed.take(k) =~= lexed);
    }
}

/// The view of a parsing result.
pub open spec fn nodes_result(r: Result<Vec<Node>, Vec<char>>) -> Result<Seq<NodeModel>, Seq<char>> {
    match r {
        Ok(v) => Ok(node_views(v@)),
        Err(e) => Err(e@),
    }
}

impl Html {
    /// Prefixes an error with its line number.
    fn at_line(num: usize, e: &[char]) -> (m: Vec<char>)
        ensures
            m@ == line_prefix(num as nat) + e@,
    {
        let mut message: Vec<char> = Vec::new();
        push_str(&mut message, "HTML line ");
        push_decimal_chars(num as u64, &mut message);
        push_str(&mut message, ": ");
        push_all(&mut message, e);
        assert(message@ =~= line_prefix(num as nat) + e@);
        message
    }

    /// What one line is, given what tokenizing its text gave.
    fn line_node(line: &Line, lexed: &Result<Vec<Token>, Vec<char>>) -> (r: Result<Option<Node>, Vec<char>>)
        ensures
            directive_view(r) == line_node(line@, lexed_view(*lexed)),
    {
        let trimmed = trim(&line.text);
        match Self::directive(line.num, line.level, &trimmed) {
            Err(e) => return Err(e),
            Ok(Some(node)) => return Ok(Some(node)),
            Ok(None) => {},
        }
        let tokens = match lexed {
            Ok(tokens) => copy_tokens(tokens),
            Err(e) => return Err(Self::at_line(line.num, e)),
        };
        let tokens = Self::merge_raw(tokens);
        if tokens.len() == 0 {
            return Ok(None);
        }
        match Self::parse_tag(tokens) {
            Ok(content) => Ok(Some(Node { level: line.level, content })),
            Err(e) => Err(Self::at_line(line.num, &e)),
        }
    }

    /// The nodes of an HTML template, given what tokenizing the text of
    /// each of its lines (`Source::lines`) gave, in order; a directive line
    /// does not look at it.
    pub fn parse_lexed(input: &[char], lexed: &Vec<Result<Vec<Token>, Vec<char>>>) -> (r: Result<
        Vec<Node>,
        Vec<char>,
    >)
        requires
            byte_len(input@) <= usize::MAX,
            lexed@.len() == source_lines(input@).len(),
        ensures
            nodes_result(r) == html_parse_spec(input@, lexed_views(lexed@)),
    {
        let ghost all = lexed_views(lexed@);
        let lines = Source::lines(input);
        let ghost ls = source_lines(input@);
        let mut nodes: Vec<Node> = Vec::new();
        let mut i: usize = 0;
        proof {
            assert(ls.take(0) =~= Seq::<LineModel>::empty());
            assert(all.take(0) =~= Seq::<Lexed>::empty());
            assert(node_views(nodes@) =~= Seq::<NodeModel>::empty());
        }
        while i < lines.len()
            invariant
                i <= lines@.len(),
                line_views(lines@) == ls,
                ls == source_lines(input@),
                all == lexed_views(lexed@),
                all.len() == ls.len(),
                parse_lines(ls.take(i as int), all.take(i as int)) == Ok::<Seq<NodeModel>, Seq<char>>(
                    node_views(nodes@),
                ),
            decreases lines.len() - i,
        {
            proof {
                assert(ls[i as int] == lines@[i as int]@);
                assert(ls.take(i as int + 1).drop_last() =~= ls.take(i as int));
                assert(ls.take(i as int + 1).last() == ls[i as int]);
                assert(all.take(i as int + 1).drop_last() =~= all.take(i as int));
                assert(all.take(i as int + 1).last() == all[i as int]);
                assert(all[i as int] == lexed_view(lexed@[i as int]));
            }
            match Self::line_node(&lines[i], &lexed[i]) {
                Err(e) => {
                    proof {
                        lemma_parse_lines_err(ls, all, i as int + 1);
                    }
                    return Err(e);
                },
                Ok(None) => {},
                Ok(Some(node)) => {
                    let ghost before = nodes@;
                    nodes.push(node);
                    proof {
                        assert(node_views(nodes@) =~= node_views(before).push(node@));
                    }
                },
            }
            i += 1;
        }
        proof {
            assert(ls.take(lines@.len() as int) =~= ls);
            assert(all.take(lines@.len() as int) =~= all);
        }
        Ok(nodes)
    }

    /// The nodes of an HTML template, one for each line that holds one: the
    /// text of each line (`Source::lines`) is tokenized and the results
    /// parsed (`parse_lexed`). This is what the template gives for some
    /// outcomes of tokenizing.
    pub fn parse(input: &[char]) -> (r: Result<Vec<Node>, Vec<char>>)
        requires
            byte_len(input@) <= usize::MAX,
        ensures
            exists|lexed: Seq<Lexed>|
                #![trigger html_parse_spec(input@, lexed)]
                lexed.len() == source_lines(input@).len() && lex_outcomes_ok(lexed) && nodes_result(r)
                    == html_parse_spec(input@, lexed),
    {
        let lines = Source::lines(input);
        let mut lexed: Vec<Result<Vec<Token>, Vec<char>>> = Vec::new();
        let mut i: usize = 0;
        assert(lexed_views(lexed@) =~= Seq::<Lexed>::empty());
        while i < lines.len()
            invariant
                i <= lines@.len(),
                lexed@.len() == i,
                lex_outcomes_ok(lexed_views(lexed@)),
            decreases lines.len() - i,
        {
            let one = Source::tokenize(&lines[i].text);
            let ghost before = lexed_views(lexed@);
            lexed.push(one);
            proof {
                assert(lexed_views(lexed@) =~= before.push(lexed_view(one)));
                assert forall|j: int| 0 <= j < lexed_views(lexed@).len() implies lex_outcome_ok(
                    #[trigger] lexed_views(lexed@)[j],
                ) by {
                    if j < before.len() {
                        assert(lexed_views(lexed@)[j] == before[j]);
                    }
                }
            }
            i += 1;
        }
        proof {
            assert(line_views(lines@).len() == lines@.len());
        }
        let ghost outcomes = lexed_views(lexed@);
        let r = Self::parse_lexed(input, &lexed);
        assert(nodes_result(r) == html_parse_spec(input@, outcomes));
        r
    }
}
} // verus!
