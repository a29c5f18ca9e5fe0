//! From template text to what a template expands to: the whole path of
//! both languages.

use vstd::prelude::*;

use crate::chars::{byte_len, chars_of, lit, text_result};
use crate::css::{content_lines, css_parse_spec, css_render_spec, items_view, lemma_items_view, Css};
use crate::html::emit::{body_spec, emission_view, emittable, markup_spec, Emission, EmissionModel};
use crate::html::parse::{html_parse_spec, node_views, nodes_result, root_spec, Html};
use crate::html::{contents_view, ContentModel};
use crate::indent::{build_spec, nodes_view, outputs_view, Indent};
use crate::source::{Lexed, lex_outcomes_ok, source_lines};

verus! {

/// What a template expands to: a value of its own, or a `Body`.
#[derive(Clone, Copy, PartialEq, Eq, Structural)]
pub enum Mode {
    Markup,
    Body,
}

/// The message for a tree that cannot be emitted.
pub open spec fn cannot_emit() -> Seq<char> {
    "HTML: a literal is not quoted, or an `- else` has no `- if`"@
}

/// The message for a tree whose size does not fit a `usize`.
pub open spec fn too_large() -> Seq<char> {
    "HTML: template too large"@
}

/// The expansion of a tree in a mode.
pub open spec fn emit_spec(c: ContentModel, mode: Mode) -> Result<EmissionModel, Seq<char>> {
    if !emittable(c) {
        Err(cannot_emit())
    } else {
        let emitted = match mode {
            Mode::Markup => markup_spec(c),
            Mode::Body => body_spec(c),
        };
        match emitted {
            Some(e) => Ok(e),
            None => Err(too_large()),
        }
    }
}

/// The expansion of an HTML template, given what tokenizing each of its
/// lines gave: its lines parsed, nested, gathered under one root and
/// emitted.
pub open spec fn html_compile_spec(input: Seq<char>, mode: Mode, lexed: Seq<Lexed>) -> Result<
    EmissionModel,
    Seq<char>,
> {
    match html_parse_spec(input, lexed) {
        Err(e) => Err(e),
        Ok(nodes) => match build_spec::<crate::html::parse::Node>(nodes) {
            Err(e) => Err(e),
            Ok(roots) => match root_spec(roots) {
                Err(e) => Err(e),
                Ok(c) => emit_spec(c, mode),
            },
        },
    }
}

/// The style sheet of a CSS template, given what tokenizing each of its
/// content lines gave: its lines parsed, nested and flattened.
pub open spec fn css_compile_spec(input: Seq<char>, lexed: Seq<Lexed>) -> Result<Seq<char>, Seq<char>> {
    match css_parse_spec(input, lexed) {
        Err(e) => Err(e),
        Ok(nodes) => match build_spec::<crate::css::Node>(nodes) {
            Err(e) => Err(e),
            Ok(roots) => css_render_spec(roots),
        },
    }
}

/// Whether two expansions write the same: the same static text, or the
/// same statements (each with its own reservation).
pub open spec fn same_output(a: EmissionModel, b: EmissionModel) -> bool {
    match (a, b) {
        (EmissionModel::Static(x), EmissionModel::Static(y)) => x == y,
        (EmissionModel::Dynamic { stmts: s, .. }, EmissionModel::Dynamic { stmts: t, .. }) => s == t,
        _ => false,
    }
}

/// A template whose lines tokenize alike expands to the same output as a
/// value and as a `Body`: where both succeed they write the same, and an
/// error other than a size that does not fit is the same in both modes.
pub proof fn law_modes_agree(input: Seq<char>, lexed: Seq<Lexed>)
    ensures
        html_compile_spec(input, Mode::Markup, lexed) is Ok && html_compile_spec(input, Mode::Body, lexed) is Ok
            ==> same_output(
            html_compile_spec(input, Mode::Markup, lexed)->Ok_0,
            html_compile_spec(input, Mode::Body, lexed)->Ok_0,
        ),
        html_compile_spec(input, Mode::Markup, lexed) matches Err(e) && e != too_large()
            ==> html_compile_spec(input, Mode::Body, lexed) == html_compile_spec(input, Mode::Markup, lexed),
        html_compile_spec(input, Mode::Body, lexed) matches Err(e) && e != too_large()
            ==> html_compile_spec(input, Mode::Markup, lexed) == html_compile_spec(input, Mode::Body, lexed),
{
}

/// The view of an expansion result.
pub open spec fn emission_result(r: Result<Emission, Vec<char>>) -> Result<EmissionModel, Seq<char>> {
    match r {
        Ok(e) => Ok(e@),
        Err(m) => Err(m@),
    }
}

pub struct Compiler;

impl Compiler {
    /// Expands an HTML template in the given mode: what its lines give for
    /// some outcomes of tokenizing them.
    pub fn run_html(input: &str, mode: Mode) -> (r: Result<Emission, Vec<char>>)
        ensures
            exists|lexed: Seq<Lexed>|
                #![trigger html_compile_spec(input@, mode, lexed)]
                lexed.len() == source_lines(input@).len() && lex_outcomes_ok(lexed) && emission_result(r)
                    == html_compile_spec(input@, mode, lexed),
    {
        let (r, Ghost(lexed)) = Self::html_with(input, mode);
        assert(emission_result(r) == html_compile_spec(input@, mode, lexed));
        r
    }

    /// Expands an HTML template, with what tokenizing its lines gave.
    fn html_with(input: &str, mode: Mode) -> (r: (Result<Emission, Vec<char>>, Ghost<Seq<Lexed>>))
        ensures
            r.1@.len() == source_lines(input@).len(),
            lex_outcomes_ok(r.1@),
            emission_result(r.0) == html_compile_spec(input@, mode, r.1@),
    {
        let text = chars_of(input);
        let size = input.as_bytes().len();
        assert(size == byte_len(text@));
        let parsed = Html::parse(&text);
        let ghost lexed = choose|lexed: Seq<Lexed>|
            #![trigger html_parse_spec(input@, lexed)]
            lexed.len() == source_lines(input@).len() && lex_outcomes_ok(lexed) && nodes_result(parsed)
                == html_parse_spec(input@, lexed);
        (Self::emit_parsed(parsed, mode, Ghost(input@), Ghost(lexed)), Ghost(lexed))
    }

    /// Nests, gathers and emits parsed HTML lines.
    fn emit_parsed(
        parsed: Result<Vec<crate::html::parse::Node>, Vec<char>>,
        mode: Mode,
        Ghost(input): Ghost<Seq<char>>,
        Ghost(lexed): Ghost<Seq<Lexed>>,
    ) -> (r: Result<Emission, Vec<char>>)
        requires
            nodes_result(parsed) == html_parse_spec(input, lexed),
        ensures
            emission_result(r) == html_compile_spec(input, mode, lexed),
    {
        let nodes = match parsed {
            Ok(nodes) => nodes,
            Err(e) => return Err(e),
        };
        assert(nodes_view(nodes@) =~= node_views(nodes@));
        let roots = match Indent::build(nodes) {
            Ok(roots) => roots,
            Err(e) => return Err(e),
        };
        proof {
            crate::html::lemma_contents_view(roots@);
            assert(outputs_view(roots@) =~= contents_view(roots@));
        }
        let root = match Html::root(roots) {
            Ok(root) => root,
            Err(e) => return Err(e),
        };
        if !root.can_emit() {
            return Err(lit("HTML: a literal is not quoted, or an `- else` has no `- if`"));
        }
        let emitted = match mode {
            Mode::Markup => root.to_markup(),
            Mode::Body => root.to_body(),
        };
        match emitted {
            Some(e) => Ok(e),
            None => Err(lit("HTML: template too large")),
        }
    }

    /// The style sheet of a CSS template: what its lines give for some
    /// outcomes of tokenizing them.
    pub fn run_css(input: &str) -> (r: Result<Vec<char>, Vec<char>>)
        ensures
            exists|lexed: Seq<Lexed>|
                #![trigger css_compile_spec(input@, lexed)]
                lexed.len() == content_lines(source_lines(input@)).len() && lex_outcomes_ok(lexed)
                    && text_result(r) == css_compile_spec(input@, lexed),
    {
        let text = chars_of(input);
        let size = input.as_bytes().len();
        assert(size == byte_len(text@));
        let parsed = Css::parse(&text);
        let ghost lexed = choose|lexed: Seq<Lexed>|
            #![trigger css_parse_spec(input@, lexed)]
            lexed.len() == content_lines(source_lines(input@)).len() && lex_outcomes_ok(lexed)
                && crate::css::css_nodes_result(parsed) == css_parse_spec(input@, lexed);
        let r = Self::render_parsed(parsed, Ghost(input@), Ghost(lexed));
        assert(text_result(r) == css_compile_spec(input@, lexed));
        r
    }

    /// Nests and writes out parsed CSS lines.
    fn render_parsed(
        parsed: Result<Vec<crate::css::Node>, Vec<char>>,
        Ghost(input): Ghost<Seq<char>>,
        Ghost(lexed): Ghost<Seq<Lexed>>,
    ) -> (r: Result<Vec<char>, Vec<char>>)
        requires
            crate::css::css_nodes_result(parsed) == css_parse_spec(input, lexed),
        ensures
            text_result(r) == css_compile_spec(input, lexed),
    {
        let nodes = match parsed {
            Ok(nodes) => nodes,
            Err(e) => return Err(e),
        };
        assert(nodes_view(nodes@) =~= crate::css::css_node_views(nodes@));
        let roots = match Indent::build(nodes) {
            Ok(roots) => roots,
            Err(e) => return Err(e),
        };
        proof {
            lemma_items_view(roots@);
            assert(outputs_view(roots@) =~= items_view(roots@));
        }
        Css::render(roots)
    }
}

} // verus!
