//! From a content tree to what the macros expand to: the static markup of a
//! tree without dynamic parts, and otherwise the statements that write it.

use vstd::prelude::*;

use super::{Content, ContentModel, contents_view, lemma_contents_view, lemma_contents_view_take};
use crate::chars::{byte_count, byte_len, copy_chars, lit, pairs_view, push_all, push_str, same, strings_view};
use crate::text::{quotable, starts_with_char, unquote_spec, Text};

verus! {

// ---------------------------------------------------------------------------
// What the statements are
// ---------------------------------------------------------------------------

/// A statement of the generated code; expressions are kept as text.
pub enum Stmt {
    /// Write this static text.
    PutStatic(Vec<char>),
    /// Write the value of this expression, escaped.
    Escaped(Vec<char>),
    /// Write the value of this expression as it is.
    Raw(Vec<char>),
    For { var: Vec<char>, iter: Vec<char>, body: Vec<Stmt> },
    /// `otherwise` is an `If` (for `else if`) or a `Block` (for `else`).
    If { condition: Vec<char>, body: Vec<Stmt>, otherwise: Option<Box<Stmt>> },
    Block(Vec<Stmt>),
}

/// The value a `Stmt` stands for.
pub enum StmtModel {
    PutStatic(Seq<char>),
    Escaped(Seq<char>),
    Raw(Seq<char>),
    For { var: Seq<char>, iter: Seq<char>, body: Seq<StmtModel> },
    If { condition: Seq<char>, body: Seq<StmtModel>, otherwise: Option<Box<StmtModel>> },
    Block(Seq<StmtModel>),
}

impl View for Stmt {
    type V = StmtModel;

    open spec fn view(&self) -> StmtModel
        decreases self,
    {
        match self {
            Stmt::PutStatic(t) => StmtModel::PutStatic(t@),
            Stmt::Escaped(t) => StmtModel::Escaped(t@),
            Stmt::Raw(t) => StmtModel::Raw(t@),
            Stmt::For { var, iter, body } => StmtModel::For {
                var: var@,
                iter: iter@,
                body: stmts_view(body@),
            },
            Stmt::If { condition, body, otherwise } => StmtModel::If {
                condition: condition@,
                body: stmts_view(body@),
                otherwise: match otherwise {
                    Some(b) => Some(Box::new((**b).view())),
                    None => None,
                },
            },
            Stmt::Block(body) => StmtModel::Block(
                stmts_view(body@),
            ),
        }
    }
}

/// The views of a sequence of statements.
pub open spec fn stmts_view(v: Seq<Stmt>) -> Seq<StmtModel>
    decreases v,
{
    if v.len() == 0 {
        Seq::empty()
    } else {
        stmts_view(v.drop_last()).push(v.last().view())
    }
}

/// Viewing a sequence with one more statement.
pub proof fn lemma_stmts_view_push(v: Seq<Stmt>, s: Stmt)
    ensures
        stmts_view(v.push(s)) == stmts_view(v).push(s@),
{
    assert(v.push(s).drop_last() =~= v);
}

/// Statements so far, and static text not yet written out.
pub type Emitting = (Seq<StmtModel>, Seq<char>);

/// The statements, with pending static text written out.
pub open spec fn flush_spec(st: Emitting) -> Seq<StmtModel> {
    if st.1.len() == 0 {
        st.0
    } else {
        st.0.push(StmtModel::PutStatic(st.1))
    }
}

/// Static text joins the pending text.
pub open spec fn add_text(st: Emitting, t: Seq<char>) -> Emitting {
    (st.0, st.1 + t)
}

/// A dynamic statement writes out the pending text first.
pub open spec fn add_stmt(st: Emitting, s: StmtModel) -> Emitting {
    (flush_spec(st).push(s), Seq::empty())
}

/// A text or attribute value: a literal joins the static text, anything
/// else is an expression written escaped.
pub open spec fn value_spec(st: Emitting, v: Seq<char>) -> Emitting {
    if starts_with_char(v, '"') {
        add_text(st, unquote_spec(v))
    } else {
        add_stmt(st, StmtModel::Escaped(v))
    }
}

/// One attribute of an opening tag.
pub open spec fn prop_spec(st: Emitting, p: (Seq<char>, Seq<char>)) -> Emitting {
    let named = add_text(st, " "@ + p.0);
    if p.1.len() == 0 {
        named
    } else {
        add_text(value_spec(add_text(named, "=\""@), p.1), "\""@)
    }
}

/// The attributes of an opening tag, in order.
pub open spec fn props_spec(st: Emitting, ps: Seq<(Seq<char>, Seq<char>)>) -> Emitting
    decreases ps.len(),
{
    if ps.len() == 0 {
        st
    } else {
        prop_spec(props_spec(st, ps.drop_last()), ps.last())
    }
}

/// Class names separated by single spaces.
pub open spec fn join_spaced(parts: Seq<Seq<char>>) -> Seq<char>
    decreases parts.len(),
{
    if parts.len() == 0 {
        Seq::empty()
    } else if parts.len() == 1 {
        parts[0]
    } else {
        join_spaced(parts.drop_last()) + " "@ + parts.last()
    }
}

/// The `class` attribute, if there are classes.
pub open spec fn class_attr(classes: Seq<Seq<char>>) -> Seq<char> {
    if classes.len() == 0 {
        Seq::empty()
    } else {
        " class=\""@ + join_spaced(classes) + "\""@
    }
}

/// An opening tag.
pub open spec fn open_tag_spec(
    st: Emitting,
    tag: Seq<char>,
    classes: Seq<Seq<char>>,
    props: Seq<(Seq<char>, Seq<char>)>,
) -> Emitting {
    add_text(props_spec(add_text(st, "<"@ + tag + class_attr(classes)), props), ">"@)
}

/// Elements that have no closing tag.
pub open spec fn is_void_tag(tag: Seq<char>) -> bool {
    ||| tag == "area"@
    ||| tag == "base"@
    ||| tag == "br"@
    ||| tag == "col"@
    ||| tag == "embed"@
    ||| tag == "hr"@
    ||| tag == "img"@
    ||| tag == "input"@
    ||| tag == "link"@
    ||| tag == "meta"@
    ||| tag == "param"@
    ||| tag == "source"@
    ||| tag == "track"@
    ||| tag == "wbr"@
}

/// What emitting `c` does to the statements and pending text.
pub open spec fn collect_spec(c: ContentModel, st: Emitting) -> Emitting
    decreases c,
{
    match c {
        ContentModel::Fragment(children) => collect_all(children, st),
        ContentModel::Element { tag, classes, properties, contents } => {
            let opened = open_tag_spec(st, tag, classes, properties);
            if is_void_tag(tag) {
                opened
            } else {
                add_text(collect_all(contents, opened), "</"@ + tag + ">"@)
            }
        },
        ContentModel::Text(t) => value_spec(st, t),
        ContentModel::RawText(t) => add_stmt(st, StmtModel::Raw(t)),
        ContentModel::For { var, iter, contents } => add_stmt(
            st,
            StmtModel::For {
                var,
                iter,
                body: flush_spec(collect_all(contents, (Seq::empty(), Seq::empty()))),
            },
        ),
        ContentModel::If { condition, contents, else_branch } => add_stmt(
            st,
            StmtModel::If {
                condition,
                body: flush_spec(collect_all(contents, (Seq::empty(), Seq::empty()))),
                otherwise: else_spec(else_branch),
            },
        ),
        _ => st,
    }
}

/// What emitting each of `cs`, in order, does.
pub open spec fn collect_all(cs: Seq<ContentModel>, st: Emitting) -> Emitting
    decreases cs,
{
    if cs.len() == 0 {
        st
    } else {
        collect_spec(cs.last(), collect_all(cs.drop_last(), st))
    }
}

/// The `else` part of a conditional.
pub open spec fn else_spec(b: Option<Box<ContentModel>>) -> Option<Box<StmtModel>>
    decreases b,
{
    match b {
        Some(branch) => match *branch {
            ContentModel::If { condition, contents, else_branch } => Some(
                Box::new(
                    StmtModel::If {
                        condition,
                        body: flush_spec(collect_all(contents, (Seq::empty(), Seq::empty()))),
                        otherwise: else_spec(else_branch),
                    },
                ),
            ),
            ContentModel::Else { contents } => Some(
                Box::new(
                    StmtModel::Block(flush_spec(collect_all(contents, (Seq::empty(), Seq::empty())))),
                ),
            ),
            _ => None,
        },
        None => None,
    }
}

/// The conditions of an `if` chain, in order, with `None` for a final
/// `else`.
pub open spec fn chain_conditions(b: ContentModel) -> Seq<Option<Seq<char>>>
    decreases b,
{
    match b {
        ContentModel::If { condition, else_branch, .. } => seq![Some(condition)] + match else_branch {
            Some(e) => chain_conditions(*e),
            None => Seq::empty(),
        },
        _ => seq![None],
    }
}

/// The conditions of a chain of statements, following each `otherwise`,
/// with `None` for a final block.
pub open spec fn stmt_conditions(s: StmtModel) -> Seq<Option<Seq<char>>>
    decreases s,
{
    match s {
        StmtModel::If { condition, otherwise, .. } => seq![Some(condition)] + match otherwise {
            Some(o) => stmt_conditions(*o),
            None => Seq::empty(),
        },
        _ => seq![None],
    }
}

/// Every branch of an `else if` / `else` chain is written: the statement
/// for the chain tests the same conditions in the same order and ends in a
/// block exactly where the chain ends in an `else`.
pub proof fn law_else_chain_kept(b: ContentModel)
    requires
        else_emittable(Some(Box::new(b))),
    ensures
        else_spec(Some(Box::new(b))) is Some,
        stmt_conditions(*else_spec(Some(Box::new(b)))->Some_0) == chain_conditions(b),
    decreases b,
{
    match b {
        ContentModel::If { condition, contents, else_branch } => {
            let body = flush_spec(collect_all(contents, (Seq::empty(), Seq::empty())));
            let made = StmtModel::If { condition, body, otherwise: else_spec(else_branch) };
            assert(else_spec(Some(Box::new(b))) == Some(Box::new(made)));
            match else_branch {
                Some(e) => {
                    assert(Box::new(*e) == e);
                    law_else_chain_kept(*e);
                    let tail = else_spec(Some(e))->Some_0;
                    assert(stmt_conditions(made) == seq![Some(condition)] + stmt_conditions(*tail));
                    assert(chain_conditions(b) == seq![Some(condition)] + chain_conditions(*e));
                },
                None => {
                    assert(stmt_conditions(made) == seq![Some(condition)] + Seq::<Option<Seq<char>>>::empty());
                    assert(chain_conditions(b) == seq![Some(condition)] + Seq::<Option<Seq<char>>>::empty());
                },
            }
        },
        ContentModel::Else { contents } => {
            let made = StmtModel::Block(flush_spec(collect_all(contents, (Seq::empty(), Seq::empty()))));
            assert(else_spec(Some(Box::new(b))) == Some(Box::new(made)));
            assert(stmt_conditions(made) == seq![None::<Seq<char>>]);
        },
        _ => {},
    }
}

/// The statements that write `c`.
pub open spec fn statements_spec(c: ContentModel) -> Seq<StmtModel> {
    flush_spec(collect_spec(c, (Seq::empty(), Seq::empty())))
}

/// A text value can be written: a quoted literal must have its quotes.
pub open spec fn literal_ok(v: Seq<char>) -> bool {
    starts_with_char(v, '"') ==> quotable(v)
}

/// Whether `c` can be emitted: every literal is quoted, and every `else`
/// follows an `if`; what a void element holds is never written, so it is
/// not looked at.
pub open spec fn emittable(c: ContentModel) -> bool
    decreases c,
{
    match c {
        ContentModel::Fragment(children) => all_emittable(children),
        ContentModel::Element { tag, properties, contents, .. } => {
            &&& forall|i: int| 0 <= i < properties.len() ==> literal_ok(#[trigger] properties[i].1)
            &&& (is_void_tag(tag) || all_emittable(contents))
        },
        ContentModel::Text(t) => literal_ok(t),
        ContentModel::RawText(_) => true,
        ContentModel::For { contents, .. } => all_emittable(contents),
        ContentModel::If { contents, else_branch, .. } => all_emittable(contents)
            && else_emittable(else_branch),
        _ => false,
    }
}

/// Whether each of `cs` can be emitted.
pub open spec fn all_emittable(cs: Seq<ContentModel>) -> bool
    decreases cs,
{
    cs.len() == 0 || (all_emittable(cs.drop_last()) && emittable(cs.last()))
}

/// Whether an `else` part can be emitted.
pub open spec fn else_emittable(b: Option<Box<ContentModel>>) -> bool
    decreases b,
{
    match b {
        Some(branch) => match *branch {
            ContentModel::If { contents, else_branch, .. } => all_emittable(contents)
                && else_emittable(else_branch),
            ContentModel::Else { contents } => all_emittable(contents),
            _ => false,
        },
        None => true,
    }
}


/// Whether the bytes of `c`'s static text can be counted: every quoted
/// literal that the count looks at keeps its one-byte quotes.
pub open spec fn literals_ok(c: ContentModel) -> bool
    decreases c,
{
    match c {
        ContentModel::Fragment(children) => all_literals_ok(children),
        ContentModel::Element { tag, properties, contents, .. } => {
            &&& forall|i: int| 0 <= i < properties.len() ==> literal_ok(#[trigger] properties[i].1)
            &&& (is_void_tag(tag) || all_literals_ok(contents))
        },
        ContentModel::Text(t) => literal_ok(t),
        ContentModel::RawText(_) => true,
        ContentModel::ElseIf { .. } => true,
        ContentModel::For { contents, .. } => all_literals_ok(contents),
        ContentModel::Else { contents } => all_literals_ok(contents),
        ContentModel::If { contents, else_branch, .. } => all_literals_ok(contents) && match else_branch {
            Some(b) => literals_ok(*b),
            None => true,
        },
    }
}

/// Whether each of `cs` can have its bytes counted.
pub open spec fn all_literals_ok(cs: Seq<ContentModel>) -> bool
    decreases cs,
{
    cs.len() == 0 || (all_literals_ok(cs.drop_last()) && literals_ok(cs.last()))
}

/// `all_literals_ok` holds exactly when it holds of each element.
pub proof fn lemma_all_literals_ok(cs: Seq<ContentModel>)
    ensures
        all_literals_ok(cs) == (forall|i: int| 0 <= i < cs.len() ==> literals_ok(#[trigger] cs[i])),
    decreases cs.len(),
{
    if cs.len() > 0 {
        lemma_all_literals_ok(cs.drop_last());
        if all_literals_ok(cs.drop_last()) && literals_ok(cs.last()) {
            assert forall|i: int| 0 <= i < cs.len() implies literals_ok(#[trigger] cs[i]) by {
                if i < cs.len() - 1 {
                    assert(cs[i] == cs.drop_last()[i]);
                }
            }
        }
        if forall|i: int| 0 <= i < cs.len() ==> literals_ok(#[trigger] cs[i]) {
            assert forall|i: int| 0 <= i < cs.len() - 1 implies literals_ok(
                #[trigger] cs.drop_last()[i],
            ) by {
                assert(cs[i] == cs.drop_last()[i]);
            }
            assert(literals_ok(cs[cs.len() - 1]));
        }
    }
}

/// What can be emitted can have its bytes counted.
pub proof fn lemma_emittable_literals(c: ContentModel)
    ensures
        emittable(c) ==> literals_ok(c),
        else_emittable(Some(Box::new(c))) ==> literals_ok(c),
    decreases c,
{
    match c {
        ContentModel::Fragment(children) => lemma_all_emittable_literals(children),
        ContentModel::Element { contents, .. } => lemma_all_emittable_literals(contents),
        ContentModel::For { contents, .. } => lemma_all_emittable_literals(contents),
        ContentModel::Else { contents } => lemma_all_emittable_literals(contents),
        ContentModel::If { contents, else_branch, .. } => {
            lemma_all_emittable_literals(contents);
            match else_branch {
                Some(b) => lemma_emittable_literals(*b),
                None => {},
            }
        },
        _ => {},
    }
}

/// What can be emitted, each of it, can have its bytes counted.
pub proof fn lemma_all_emittable_literals(cs: Seq<ContentModel>)
    ensures
        all_emittable(cs) ==> all_literals_ok(cs),
    decreases cs,
{
    if cs.len() > 0 {
        lemma_all_emittable_literals(cs.drop_last());
        lemma_emittable_literals(cs.last());
    }
}

/// `all_emittable` holds exactly when each element is emittable.
pub proof fn lemma_all_emittable(cs: Seq<ContentModel>)
    ensures
        all_emittable(cs) == (forall|i: int| 0 <= i < cs.len() ==> emittable(#[trigger] cs[i])),
    decreases cs.len(),
{
    if cs.len() > 0 {
        lemma_all_emittable(cs.drop_last());
        if all_emittable(cs.drop_last()) && emittable(cs.last()) {
            assert forall|i: int| 0 <= i < cs.len() implies emittable(#[trigger] cs[i]) by {
                if i < cs.len() - 1 {
                    assert(cs[i] == cs.drop_last()[i]);
                }
            }
        }
        if forall|i: int| 0 <= i < cs.len() ==> emittable(#[trigger] cs[i]) {
            assert forall|i: int| 0 <= i < cs.len() - 1 implies emittable(
                #[trigger] cs.drop_last()[i],
            ) by {
                assert(cs[i] == cs.drop_last()[i]);
            }
            assert(emittable(cs[cs.len() - 1]));
        }
    }
}

impl Content {
    /// Whether `tag` names an element without a closing tag.
    pub fn is_void(tag: &[char]) -> (b: bool)
        ensures
            b == is_void_tag(tag@),
    {
        same(tag, &lit("area")) || same(tag, &lit("base")) || same(tag, &lit("br")) || same(
            tag,
            &lit("col"),
        ) || same(tag, &lit("embed")) || same(tag, &lit("hr")) || same(tag, &lit("img")) || same(
            tag,
            &lit("input"),
        ) || same(tag, &lit("link")) || same(tag, &lit("meta")) || same(tag, &lit("param"))
            || same(tag, &lit("source")) || same(tag, &lit("track")) || same(tag, &lit("wbr"))
    }

    /// The contents of `text` if it is a quoted literal.
    pub fn literal(text: &[char]) -> (r: Option<Vec<char>>)
        requires
            literal_ok(text@),
        ensures
            r is Some == starts_with_char(text@, '"'),
            r matches Some(u) ==> u@ == unquote_spec(text@),
    {
        if text.len() > 0 && text[0] == '"' {
            Some(Text::unquote(text))
        } else {
            None
        }
    }

    /// Writes out the pending static text as a statement.
    fn flush(accum: &mut Vec<char>, stmts: &mut Vec<Stmt>)
        ensures
            stmts_view(final(stmts)@) == flush_spec((stmts_view(old(stmts)@), old(accum)@)),
            final(accum)@ == Seq::<char>::empty(),
    {
        if accum.len() > 0 {
            let mut text: Vec<char> = Vec::new();
            std::mem::swap(accum, &mut text);
            let ghost before = stmts@;
            let stmt = Stmt::PutStatic(text);
            stmts.push(stmt);
            proof {
                lemma_stmts_view_push(before, stmt);
            }
        }
    }

    /// Appends a statement after writing out the pending static text.
    fn push_stmt(accum: &mut Vec<char>, stmts: &mut Vec<Stmt>, stmt: Stmt)
        ensures
            (stmts_view(final(stmts)@), final(accum)@) == add_stmt(
                (stmts_view(old(stmts)@), old(accum)@),
                stmt@,
            ),
    {
        Self::flush(accum, stmts);
        let ghost before = stmts@;
        let ghost pushed = stmt;
        stmts.push(stmt);
        proof {
            lemma_stmts_view_push(before, pushed);
        }
    }

    /// A text or attribute value: a literal joins the static text, an
    /// expression becomes an escaped write.
    fn value(v: &[char], accum: &mut Vec<char>, stmts: &mut Vec<Stmt>)
        requires
            literal_ok(v@),
        ensures
            (stmts_view(final(stmts)@), final(accum)@) == value_spec(
                (stmts_view(old(stmts)@), old(accum)@),
                v@,
            ),
    {
        match Self::literal(v) {
            Some(text) => push_all(accum, &text),
            None => Self::push_stmt(accum, stmts, Stmt::Escaped(copy_chars(v))),
        }
    }

    /// The opening tag of an element.
    fn open_tag(
        tag: &[char],
        classes: &Vec<Vec<char>>,
        properties: &Vec<(Vec<char>, Vec<char>)>,
        accum: &mut Vec<char>,
        stmts: &mut Vec<Stmt>,
    )
        requires
            forall|i: int|
                0 <= i < properties@.len() ==> literal_ok(#[trigger] properties@[i].1@),
        ensures
            (stmts_view(final(stmts)@), final(accum)@) == open_tag_spec(
                (stmts_view(old(stmts)@), old(accum)@),
                tag@,
                strings_view(classes@),
                pairs_view(properties@),
            ),
    {
        let ghost st0 = (stmts_view(stmts@), accum@);
        let ghost cls = strings_view(classes@);
        let ghost props = pairs_view(properties@);
        push_str(accum, "<");
        push_all(accum, tag);
        Self::push_class_attr(classes, accum);
        let ghost st1 = (stmts_view(stmts@), accum@);
        assert(st1 == add_text(st0, "<"@ + tag@ + class_attr(cls)));
        let mut j: usize = 0;
        while j < properties.len()
            invariant
                j <= properties@.len(),
                props == pairs_view(properties@),
                forall|i: int|
                    0 <= i < properties@.len() ==> literal_ok(#[trigger] properties@[i].1@),
                (stmts_view(stmts@), accum@) == props_spec(st1, props.take(j as int)),
            decreases properties.len() - j,
        {
            let (name, value) = &properties[j];
            push_str(accum, " ");
            push_all(accum, name);
            let ghost named = (stmts_view(stmts@), accum@);
            if value.len() > 0 {
                push_str(accum, "=\"");
                Self::value(value, accum, stmts);
                push_str(accum, "\"");
            }
            proof {
                let t = props.take(j as int + 1);
                assert(t.drop_last() =~= props.take(j as int));
                assert(t.last() == (name@, value@));
                assert(named.1 =~= props_spec(st1, props.take(j as int)).1 + (" "@ + name@));
                if value.len() > 0 {
                    let v = value_spec(add_text(named, "=\""@), value@);
                    assert(accum@ =~= v.1 + "\""@);
                }
            }
            j += 1;
        }
        proof {
            assert(props.take(properties@.len() as int) =~= props);
        }
        push_str(accum, ">");
    }

    /// Emits this node into the statements and the pending static text.
    fn collect(&self, accum: &mut Vec<char>, stmts: &mut Vec<Stmt>)
        requires
            emittable(self@),
        ensures
            (stmts_view(final(stmts)@), final(accum)@) == collect_spec(
                self@,
                (stmts_view(old(stmts)@), old(accum)@),
            ),
        decreases self,
    {
        match self {
            Content::Fragment(children) => {
                Self::collect_each(children, accum, stmts);
            },
            Content::Element { tag, classes, properties, contents } => {
                proof {
                    let ps = pairs_view(properties@);
                    let m = self@;
                    assert(m->Element_properties == ps);
                    assert forall|i: int| 0 <= i < properties@.len() implies literal_ok(
                        #[trigger] properties@[i].1@,
                    ) by {
                        assert(ps[i].1 == properties@[i].1@);
                        assert(literal_ok(ps[i].1));
                    }
                }
                Self::open_tag(tag, classes, properties, accum, stmts);
                if !Self::is_void(tag) {
                    Self::collect_each(contents, accum, stmts);
                    push_str(accum, "</");
                    push_all(accum, tag);
                    push_str(accum, ">");
                }
            },
            Content::Text(text) => Self::value(text, accum, stmts),
            Content::RawText(text) => Self::push_stmt(accum, stmts, Stmt::Raw(copy_chars(text))),
            Content::For { var, iter, contents } => {
                let body = Self::block(contents);
                Self::push_stmt(
                    accum,
                    stmts,
                    Stmt::For { var: copy_chars(var), iter: copy_chars(iter), body },
                );
            },
            Content::If { condition, contents, else_branch } => {
                let body = Self::block(contents);
                let otherwise = match else_branch {
                    Some(branch) => Some(Box::new(branch.else_arm())),
                    None => None,
                };
                Self::push_stmt(
                    accum,
                    stmts,
                    Stmt::If { condition: copy_chars(condition), body, otherwise },
                );
            },
            Content::ElseIf { .. } | Content::Else { .. } => {
                assert(false);
            },
        }
    }

    /// Emits each of `contents` in order.
    fn collect_each(contents: &Vec<Content>, accum: &mut Vec<char>, stmts: &mut Vec<Stmt>)
        requires
            all_emittable(contents_view(contents@)),
        ensures
            (stmts_view(final(stmts)@), final(accum)@) == collect_all(
                contents_view(contents@),
                (stmts_view(old(stmts)@), old(accum)@),
            ),
        decreases contents,
    {
        let ghost ms = contents_view(contents@);
        let ghost st0 = (stmts_view(stmts@), accum@);
        proof {
            lemma_all_emittable(ms);
            lemma_contents_view(contents@);
        }
        let mut i: usize = 0;
        while i < contents.len()
            invariant
                i <= contents@.len(),
                ms == contents_view(contents@),
                ms.len() == contents@.len(),
                forall|k: int| 0 <= k < ms.len() ==> emittable(#[trigger] ms[k]),
                forall|k: int| 0 <= k < ms.len() ==> #[trigger] ms[k] == contents@[k]@,
                (stmts_view(stmts@), accum@) == collect_all(ms.take(i as int), st0),
            decreases contents.len() - i,
        {
            assert(emittable(ms[i as int]));
            contents[i].collect(accum, stmts);
            proof {
                assert(ms.take(i as int + 1).drop_last() =~= ms.take(i as int));
            }
            i += 1;
        }
        assert(ms.take(contents@.len() as int) =~= ms);
    }

    /// The statements of a nested block.
    fn block(contents: &Vec<Content>) -> (r: Vec<Stmt>)
        requires
            all_emittable(contents_view(contents@)),
        ensures
            stmts_view(r@) == flush_spec(collect_all(contents_view(contents@), (Seq::empty(), Seq::empty()))),
        decreases contents,
    {
        let mut accum: Vec<char> = Vec::new();
        let mut stmts: Vec<Stmt> = Vec::new();
        proof {
            assert(stmts_view(stmts@) == Seq::<StmtModel>::empty());
        }
        let ghost ms = contents_view(contents@);
        let ghost st0 = (stmts_view(stmts@), accum@);
        proof {
            lemma_all_emittable(ms);
            lemma_contents_view(contents@);
        }
        let mut i: usize = 0;
        while i < contents.len()
            invariant
                i <= contents@.len(),
                ms == contents_view(contents@),
                ms.len() == contents@.len(),
                forall|k: int| 0 <= k < ms.len() ==> emittable(#[trigger] ms[k]),
                forall|k: int| 0 <= k < ms.len() ==> #[trigger] ms[k] == contents@[k]@,
                (stmts_view(stmts@), accum@) == collect_all(ms.take(i as int), st0),
            decreases contents.len() - i,
        {
            assert(emittable(ms[i as int]));
            contents[i].collect(&mut accum, &mut stmts);
            proof {
                assert(ms.take(i as int + 1).drop_last() =~= ms.take(i as int));
            }
            i += 1;
        }
        assert(ms.take(contents@.len() as int) =~= ms);
        Self::flush(&mut accum, &mut stmts);
        stmts
    }

    /// The `else` part of a conditional: `else if` or `else`.
    fn else_arm(&self) -> (r: Stmt)
        requires
            else_emittable(Some(Box::new(self@))),
        ensures
            else_spec(Some(Box::new(self@))) == Some(Box::new(r@)),
        decreases self,
    {
        match self {
            Content::If { condition, contents, else_branch } => {
                let body = Self::block(contents);
                let otherwise = match else_branch {
                    Some(branch) => Some(Box::new(branch.else_arm())),
                    None => None,
                };
                let r = Stmt::If { condition: copy_chars(condition), body, otherwise };
                proof {
                    let m = self@;
                    assert(m == ContentModel::If {
                        condition: condition@,
                        contents: contents_view(contents@),
                        else_branch: match else_branch {
                            Some(b) => Some(Box::new((**b).view())),
                            None => None,
                        },
                    });
                    let ob = match else_branch {
                        Some(b) => Some(Box::new((**b).view())),
                        None => None,
                    };
                    assert(else_spec(ob) == match otherwise {
                        Some(b) => Some(Box::new((*b).view())),
                        None => None,
                    });
                }
                r
            },
            Content::Else { contents } => {
                Stmt::Block(Self::block(contents))
            },
            _ => {
                assert(false);
                Stmt::Block(Vec::new())
            },
        }
    }

    /// The statements that write this node.
    pub fn statements(&self) -> (r: Vec<Stmt>)
        requires
            emittable(self@),
        ensures
            stmts_view(r@) == statements_spec(self@),
    {
        let mut accum: Vec<char> = Vec::new();
        let mut stmts: Vec<Stmt> = Vec::new();
        proof {
            assert(stmts_view(stmts@) == Seq::<StmtModel>::empty());
        }
        self.collect(&mut accum, &mut stmts);
        Self::flush(&mut accum, &mut stmts);
        stmts
    }
}

// ---------------------------------------------------------------------------
// Static rendering and the counts used to size buffers
// ---------------------------------------------------------------------------

/// Whether attribute values are all empty or quoted literals.
pub open spec fn props_static(ps: Seq<(Seq<char>, Seq<char>)>) -> bool {
    forall|i: int| 0 <= i < ps.len() ==> (#[trigger] ps[i]).1.len() == 0 || starts_with_char(ps[i].1, '"')
}

/// Whether `c` renders the same every time: no expressions, loops or
/// conditionals.
pub open spec fn is_static(c: ContentModel) -> bool
    decreases c,
{
    match c {
        ContentModel::Fragment(children) => all_static(children),
        ContentModel::Element { properties, contents, .. } => props_static(properties) && all_static(
            contents,
        ),
        ContentModel::Text(t) => starts_with_char(t, '"'),
        _ => false,
    }
}

/// Whether each of `cs` is static.
pub open spec fn all_static(cs: Seq<ContentModel>) -> bool
    decreases cs,
{
    cs.len() == 0 || (all_static(cs.drop_last()) && is_static(cs.last()))
}

/// One attribute as static text.
pub open spec fn prop_text(p: (Seq<char>, Seq<char>)) -> Seq<char> {
    " "@ + p.0 + (if p.1.len() == 0 {
        Seq::empty()
    } else {
        "=\""@ + unquote_spec(p.1) + "\""@
    })
}

/// The attributes as static text.
pub open spec fn props_text(ps: Seq<(Seq<char>, Seq<char>)>) -> Seq<char>
    decreases ps.len(),
{
    if ps.len() == 0 {
        Seq::empty()
    } else {
        props_text(ps.drop_last()) + prop_text(ps.last())
    }
}

/// The markup of a static node.
pub open spec fn render(c: ContentModel) -> Seq<char>
    decreases c,
{
    match c {
        ContentModel::Fragment(children) => render_all(children),
        ContentModel::Element { tag, classes, properties, contents } => "<"@ + tag + class_attr(
            classes,
        ) + props_text(properties) + ">"@ + (if is_void_tag(tag) {
            Seq::empty()
        } else {
            render_all(contents) + ("</"@ + tag + ">"@)
        }),
        ContentModel::Text(t) => unquote_spec(t),
        _ => Seq::empty(),
    }
}

/// The markup of each of `cs`, in order.
pub open spec fn render_all(cs: Seq<ContentModel>) -> Seq<char>
    decreases cs,
{
    if cs.len() == 0 {
        Seq::empty()
    } else {
        render_all(cs.drop_last()) + render(cs.last())
    }
}

/// The bytes of static text in one attribute.
pub open spec fn prop_bytes(p: (Seq<char>, Seq<char>)) -> nat {
    1 + byte_len(p.0) + (if p.1.len() == 0 {
        0
    } else {
        3 + (if starts_with_char(p.1, '"') {
            byte_len(unquote_spec(p.1))
        } else {
            0
        })
    })
}

/// The bytes of static text in the attributes.
pub open spec fn props_bytes(ps: Seq<(Seq<char>, Seq<char>)>) -> nat
    decreases ps.len(),
{
    if ps.len() == 0 {
        0
    } else {
        props_bytes(ps.drop_last()) + prop_bytes(ps.last())
    }
}

/// The total bytes of some strings.
pub open spec fn strings_bytes(ss: Seq<Seq<char>>) -> nat
    decreases ss.len(),
{
    if ss.len() == 0 {
        0
    } else {
        strings_bytes(ss.drop_last()) + byte_len(ss.last())
    }
}

/// The bytes of the `class` attribute.
pub open spec fn classes_bytes(classes: Seq<Seq<char>>) -> nat {
    if classes.len() == 0 {
        0
    } else {
        9 + strings_bytes(classes) + (classes.len() - 1) as nat
    }
}

/// The bytes of static text that writing `c` produces at most: both branches
/// of a conditional are counted by the larger, a loop body once.
pub open spec fn static_bytes(c: ContentModel) -> nat
    decreases c,
{
    match c {
        ContentModel::Fragment(children) => bytes_all(children),
        ContentModel::Element { tag, classes, properties, contents } => byte_len(tag) + 2
            + classes_bytes(classes) + props_bytes(properties) + (if is_void_tag(tag) {
            0
        } else {
            bytes_all(contents) + byte_len(tag) + 3
        }),
        ContentModel::Text(t) => if starts_with_char(t, '"') {
            byte_len(unquote_spec(t))
        } else {
            0
        },
        ContentModel::RawText(_) => 0,
        ContentModel::ElseIf { .. } => 0,
        ContentModel::For { contents, .. } => bytes_all(contents),
        ContentModel::Else { contents } => bytes_all(contents),
        ContentModel::If { contents, else_branch, .. } => {
            let then_bytes = bytes_all(contents);
            let else_bytes = match else_branch {
                Some(b) => static_bytes(*b),
                None => 0,
            };
            if then_bytes >= else_bytes {
                then_bytes
            } else {
                else_bytes
            }
        },
    }
}

/// The static bytes of each of `cs`, summed.
pub open spec fn bytes_all(cs: Seq<ContentModel>) -> nat
    decreases cs,
{
    if cs.len() == 0 {
        0
    } else {
        bytes_all(cs.drop_last()) + static_bytes(cs.last())
    }
}

/// The number of attributes with an expression as value.
pub open spec fn dynamic_props(ps: Seq<(Seq<char>, Seq<char>)>) -> nat
    decreases ps.len(),
{
    if ps.len() == 0 {
        0
    } else {
        dynamic_props(ps.drop_last()) + (if ps.last().1.len() != 0 && !starts_with_char(
            ps.last().1,
            '"',
        ) {
            1nat
        } else {
            0nat
        })
    }
}

/// The number of segments that writing `c` adds to a body, at most.
pub open spec fn parts(c: ContentModel) -> nat
    decreases c,
{
    match c {
        ContentModel::Fragment(children) => parts_all(children),
        ContentModel::Element { properties, contents, .. } => 2 + dynamic_props(properties)
            + parts_all(contents),
        ContentModel::Text(_) => 1,
        ContentModel::RawText(_) => 1,
        ContentModel::ElseIf { .. } => 0,
        ContentModel::For { contents, .. } => parts_all(contents),
        ContentModel::Else { contents } => parts_all(contents),
        ContentModel::If { contents, else_branch, .. } => {
            let then_parts = parts_all(contents);
            let else_parts = match else_branch {
                Some(b) => parts(*b),
                None => 0,
            };
            if then_parts >= else_parts {
                then_parts
            } else {
                else_parts
            }
        },
    }
}

/// The parts of each of `cs`, summed.
pub open spec fn parts_all(cs: Seq<ContentModel>) -> nat
    decreases cs,
{
    if cs.len() == 0 {
        0
    } else {
        parts_all(cs.drop_last()) + parts(cs.last())
    }
}

/// A count as a `usize`, where it fits.
pub open spec fn fit(x: nat) -> Option<usize> {
    if x <= usize::MAX {
        Some(x as usize)
    } else {
        None
    }
}

/// Adds two counts that may not have fit.
fn add_fit(a: Option<usize>, b: Option<usize>, Ghost(x): Ghost<nat>, Ghost(y): Ghost<nat>) -> (r: Option<usize>)
    requires
        a == fit(x),
        b == fit(y),
    ensures
        r == fit(x + y),
{
    match (a, b) {
        (Some(p), Some(q)) => p.checked_add(q),
        _ => None,
    }
}

/// The larger of two counts that may not have fit.
fn max_fit(a: Option<usize>, b: Option<usize>, Ghost(x): Ghost<nat>, Ghost(y): Ghost<nat>) -> (r: Option<usize>)
    requires
        a == fit(x),
        b == fit(y),
    ensures
        r == fit(if x >= y { x } else { y }),
{
    match (a, b) {
        (Some(p), Some(q)) => Some(if p >= q { p } else { q }),
        _ => None,
    }
}

impl Content {
    /// Whether this node renders the same every time.
    pub fn is_static(&self) -> (b: bool)
        ensures
            b == is_static(self@),
        decreases self,
    {
        match self {
            Content::Fragment(children) => Self::all_static(children),
            Content::Element { properties, contents, .. } => {
                let ghost ps = pairs_view(properties@);
                let mut i: usize = 0;
                while i < properties.len()
                    invariant
                        i <= properties@.len(),
                        ps == pairs_view(properties@),
                        self@ is Element,
                        self@->Element_properties == ps,
                        forall|k: int| 0 <= k < i ==> (#[trigger] ps[k]).1.len() == 0 || starts_with_char(ps[k].1, '"'),
                    decreases properties.len() - i,
                {
                    let value = &properties[i].1;
                    assert(ps[i as int].1 == value@);
                    if !(value.len() == 0 || value[0] == '"') {
                        assert(!(ps[i as int].1.len() == 0 || starts_with_char(ps[i as int].1, '"')));
                        assert(!props_static(ps));
                        assert(self@->Element_properties == ps);
                        return false;
                    }
                    i += 1;
                }
                Self::all_static(contents)
            },
            Content::Text(text) => text.len() > 0 && text[0] == '"',
            _ => false,
        }
    }

    /// Whether each of `contents` is static.
    fn all_static(contents: &Vec<Content>) -> (b: bool)
        ensures
            b == all_static(contents_view(contents@)),
        decreases contents,
    {
        let ghost ms = contents_view(contents@);
        proof {
            lemma_contents_view(contents@);
        }
        let mut i: usize = 0;
        while i < contents.len()
            invariant
                i <= contents@.len(),
                ms == contents_view(contents@),
                ms.len() == contents@.len(),
                forall|k: int| 0 <= k < ms.len() ==> #[trigger] ms[k] == contents@[k]@,
                all_static(ms.take(i as int)),
            decreases contents.len() - i,
        {
            let b = contents[i].is_static();
            proof {
                assert(ms.take(i as int + 1).drop_last() =~= ms.take(i as int));
            }
            if !b {
                proof {
                    if all_static(ms) {
                        lemma_all_static_prefix(ms, i as int + 1);
                    }
                }
                return false;
            }
            i += 1;
        }
        assert(ms.take(contents@.len() as int) =~= ms);
        true
    }
}

/// A sequence whose prefix is not all static is not all static.
proof fn lemma_all_static_prefix(cs: Seq<ContentModel>, k: int)
    requires
        0 <= k <= cs.len(),
        all_static(cs),
    ensures
        all_static(cs.take(k)),
    decreases cs.len(),
{
    if k < cs.len() {
        assert(cs.drop_last().take(k) =~= cs.take(k));
        lemma_all_static_prefix(cs.drop_last(), k);
    } else {
        assert(cs.take(k) =~= cs);
    }
}

/// `all_static` holds exactly when each element is static.
pub proof fn lemma_all_static(cs: Seq<ContentModel>)
    ensures
        all_static(cs) == (forall|i: int| 0 <= i < cs.len() ==> is_static(#[trigger] cs[i])),
    decreases cs.len(),
{
    if cs.len() > 0 {
        lemma_all_static(cs.drop_last());
        if all_static(cs.drop_last()) && is_static(cs.last()) {
            assert forall|i: int| 0 <= i < cs.len() implies is_static(#[trigger] cs[i]) by {
                if i < cs.len() - 1 {
                    assert(cs[i] == cs.drop_last()[i]);
                }
            }
        }
        if forall|i: int| 0 <= i < cs.len() ==> is_static(#[trigger] cs[i]) {
            assert forall|i: int| 0 <= i < cs.len() - 1 implies is_static(
                #[trigger] cs.drop_last()[i],
            ) by {
                assert(cs[i] == cs.drop_last()[i]);
            }
            assert(is_static(cs[cs.len() - 1]));
        }
    }
}

impl Content {
    /// Appends the `class` attribute of an opening tag.
    fn push_class_attr(classes: &Vec<Vec<char>>, accum: &mut Vec<char>)
        ensures
            final(accum)@ == old(accum)@ + class_attr(strings_view(classes@)),
    {
        let ghost cls = strings_view(classes@);
        if classes.len() > 0 {
            push_str(accum, " class=\"");
            let ghost mark = accum@;
            let mut i: usize = 0;
            while i < classes.len()
                invariant
                    i <= classes@.len(),
                    cls == strings_view(classes@),
                    accum@ == mark + join_spaced(cls.take(i as int)),
                decreases classes.len() - i,
            {
                if i > 0 {
                    push_str(accum, " ");
                }
                push_all(accum, &classes[i]);
                proof {
                    let t = cls.take(i as int + 1);
                    assert(t.drop_last() =~= cls.take(i as int));
                    assert(t.last() == classes@[i as int]@);
                    if i == 0 {
                        assert(join_spaced(cls.take(0)) =~= Seq::<char>::empty());
                        assert(join_spaced(t) == t[0]);
                    }
                    assert(accum@ =~= mark + join_spaced(t));
                }
                i += 1;
            }
            push_str(accum, "\"");
            proof {
                assert(cls.take(classes@.len() as int) =~= cls);
                assert(accum@ =~= old(accum)@ + class_attr(cls));
            }
        } else {
            proof {
                assert(cls =~= Seq::<Seq<char>>::empty());
                assert(accum@ =~= old(accum)@ + class_attr(cls));
            }
        }
    }

    /// Appends the markup of a static node.
    fn render_into(&self, out: &mut Vec<char>)
        requires
            is_static(self@),
            emittable(self@),
        ensures
            final(out)@ == old(out)@ + render(self@),
        decreases self,
    {
        match self {
            Content::Fragment(children) => Self::render_each(children, out),
            Content::Element { tag, classes, properties, contents } => {
                let ghost ps = pairs_view(properties@);
                proof {
                    assert(self@->Element_properties == ps);
                    assert forall|i: int| 0 <= i < ps.len() implies (#[trigger] ps[i]).1.len() == 0
                        || quotable(ps[i].1) by {
                        assert(literal_ok(ps[i].1));
                    }
                }
                push_str(out, "<");
                push_all(out, tag);
                Self::push_class_attr(classes, out);
                let ghost mark = out@;
                let mut j: usize = 0;
                while j < properties.len()
                    invariant
                        j <= properties@.len(),
                        ps == pairs_view(properties@),
                        forall|i: int| 0 <= i < ps.len() ==> (#[trigger] ps[i]).1.len() == 0 || quotable(ps[i].1),
                        out@ == mark + props_text(ps.take(j as int)),
                    decreases properties.len() - j,
                {
                    let (name, value) = &properties[j];
                    assert(ps[j as int] == (name@, value@));
                    let ghost before = out@;
                    push_str(out, " ");
                    push_all(out, name);
                    if value.len() > 0 {
                        push_str(out, "=\"");
                        let unquoted = Text::unquote(value);
                        push_all(out, &unquoted);
                        push_str(out, "\"");
                    }
                    proof {
                        let t = ps.take(j as int + 1);
                        assert(t.drop_last() =~= ps.take(j as int));
                        assert(t.last() == (name@, value@));
                        assert(out@ =~= before + prop_text((name@, value@)));
                    }
                    j += 1;
                }
                proof {
                    assert(ps.take(properties@.len() as int) =~= ps);
                }
                push_str(out, ">");
                if !Self::is_void(tag) {
                    let ghost opened = out@;
                    Self::render_each(contents, out);
                    push_str(out, "</");
                    push_all(out, tag);
                    push_str(out, ">");
                    assert(out@ =~= opened + (render_all(contents_view(contents@)) + ("</"@ + tag@ + ">"@)));
                } else {
                    assert(out@ =~= out@ + Seq::<char>::empty());
                }
            },
            Content::Text(text) => {
                let unquoted = Text::unquote(text);
                push_all(out, &unquoted);
            },
            _ => {
                assert(false);
            },
        }
    }

    /// Appends the markup of each of `contents`.
    fn render_each(contents: &Vec<Content>, out: &mut Vec<char>)
        requires
            all_static(contents_view(contents@)),
            all_emittable(contents_view(contents@)),
        ensures
            final(out)@ == old(out)@ + render_all(contents_view(contents@)),
        decreases contents,
    {
        let ghost ms = contents_view(contents@);
        proof {
            lemma_contents_view(contents@);
            lemma_all_static(ms);
            lemma_all_emittable(ms);
        }
        let mut i: usize = 0;
        while i < contents.len()
            invariant
                i <= contents@.len(),
                ms == contents_view(contents@),
                ms.len() == contents@.len(),
                forall|k: int| 0 <= k < ms.len() ==> #[trigger] ms[k] == contents@[k]@,
                forall|k: int| 0 <= k < ms.len() ==> is_static(#[trigger] ms[k]),
                forall|k: int| 0 <= k < ms.len() ==> emittable(#[trigger] ms[k]),
                out@ == old(out)@ + render_all(ms.take(i as int)),
            decreases contents.len() - i,
        {
            assert(is_static(ms[i as int]) && emittable(ms[i as int]));
            contents[i].render_into(out);
            proof {
                assert(ms.take(i as int + 1).drop_last() =~= ms.take(i as int));
            }
            i += 1;
        }
        assert(ms.take(contents@.len() as int) =~= ms);
    }

    /// The markup of a static node.
    pub fn render_static(&self) -> (out: Vec<char>)
        requires
            is_static(self@),
            emittable(self@),
        ensures
            out@ == render(self@),
    {
        let mut out: Vec<char> = Vec::new();
        self.render_into(&mut out);
        assert(out@ =~= render(self@));
        out
    }
}

/// The byte count of some characters, where it fits.
fn count_bytes(s: &[char]) -> (r: Option<usize>)
    ensures
        r == fit(byte_len(s@)),
{
    byte_count(s)
}

impl Content {
    /// The bytes of static text that writing this node produces at most.
    pub fn static_bytes(&self) -> (r: Option<usize>)
        requires
            literals_ok(self@),
        ensures
            r == fit(static_bytes(self@)),
        decreases self,
    {
        match self {
            Content::Fragment(children) => Self::bytes_each(children),
            Content::Element { tag, classes, properties, contents } => {
                let ghost cls = strings_view(classes@);
                let ghost ps = pairs_view(properties@);
                proof {
                    assert(self@->Element_properties == ps);
                    assert forall|i: int| 0 <= i < ps.len() implies literal_ok(#[trigger] ps[i].1) by {
                    }
                }
                let tag_bytes = count_bytes(tag);
                let mut count = add_fit(tag_bytes, Some(2), Ghost(byte_len(tag@)), Ghost(2nat));
                let classes_count = Self::classes_bytes(classes);
                count = add_fit(count, classes_count, Ghost(byte_len(tag@) + 2), Ghost(classes_bytes(cls)));
                let props_count = Self::props_bytes(properties);
                count = add_fit(
                    count,
                    props_count,
                    Ghost(byte_len(tag@) + 2 + classes_bytes(cls)),
                    Ghost(props_bytes(ps)),
                );
                if !Self::is_void(tag) {
                    let inner = Self::bytes_each(contents);
                    let closing = add_fit(inner, tag_bytes, Ghost(bytes_all(contents_view(contents@))), Ghost(byte_len(tag@)));
                    let closing = add_fit(
                        closing,
                        Some(3),
                        Ghost(bytes_all(contents_view(contents@)) + byte_len(tag@)),
                        Ghost(3nat),
                    );
                    count = add_fit(
                        count,
                        closing,
                        Ghost(byte_len(tag@) + 2 + classes_bytes(cls) + props_bytes(ps)),
                        Ghost(bytes_all(contents_view(contents@)) + byte_len(tag@) + 3),
                    );
                } else {
                    count = add_fit(
                        count,
                        Some(0),
                        Ghost(byte_len(tag@) + 2 + classes_bytes(cls) + props_bytes(ps)),
                        Ghost(0nat),
                    );
                }
                count
            },
            Content::Text(text) => {
                if text.len() > 0 && text[0] == '"' {
                    count_bytes(&Text::unquote(text))
                } else {
                    Some(0)
                }
            },
            Content::RawText(_) | Content::ElseIf { .. } => Some(0),
            Content::For { contents, .. } | Content::Else { contents } => Self::bytes_each(contents),
            Content::If { contents, else_branch, .. } => {
                let then_bytes = Self::bytes_each(contents);
                let ghost else_model = match else_branch {
                    Some(b) => static_bytes((**b)@),
                    None => 0,
                };
                let else_bytes = match else_branch {
                    Some(branch) => branch.static_bytes(),
                    None => Some(0),
                };
                max_fit(then_bytes, else_bytes, Ghost(bytes_all(contents_view(contents@))), Ghost(else_model))
            },
        }
    }

    /// The static bytes of each of `contents`, summed.
    fn bytes_each(contents: &Vec<Content>) -> (r: Option<usize>)
        requires
            all_literals_ok(contents_view(contents@)),
        ensures
            r == fit(bytes_all(contents_view(contents@))),
        decreases contents,
    {
        let ghost ms = contents_view(contents@);
        proof {
            lemma_contents_view(contents@);
            lemma_all_literals_ok(ms);
        }
        let mut total: Option<usize> = Some(0);
        let mut i: usize = 0;
        while i < contents.len()
            invariant
                i <= contents@.len(),
                ms == contents_view(contents@),
                ms.len() == contents@.len(),
                forall|k: int| 0 <= k < ms.len() ==> #[trigger] ms[k] == contents@[k]@,
                forall|k: int| 0 <= k < ms.len() ==> literals_ok(#[trigger] ms[k]),
                total == fit(bytes_all(ms.take(i as int))),
            decreases contents.len() - i,
        {
            assert(literals_ok(ms[i as int]));
            let one = contents[i].static_bytes();
            proof {
                assert(ms.take(i as int + 1).drop_last() =~= ms.take(i as int));
            }
            total = add_fit(total, one, Ghost(bytes_all(ms.take(i as int))), Ghost(static_bytes(ms[i as int])));
            i += 1;
        }
        assert(ms.take(contents@.len() as int) =~= ms);
        total
    }

    /// The bytes of the `class` attribute.
    fn classes_bytes(classes: &Vec<Vec<char>>) -> (r: Option<usize>)
        ensures
            r == fit(classes_bytes(strings_view(classes@))),
    {
        let ghost cls = strings_view(classes@);
        if classes.len() == 0 {
            return Some(0);
        }
        let mut total: Option<usize> = Some(9);
        let mut i: usize = 0;
        while i < classes.len()
            invariant
                i <= classes@.len(),
                cls == strings_view(classes@),
                total == fit(9 + strings_bytes(cls.take(i as int))),
            decreases classes.len() - i,
        {
            let one = count_bytes(&classes[i]);
            proof {
                assert(cls.take(i as int + 1).drop_last() =~= cls.take(i as int));
                assert(cls[i as int] == classes@[i as int]@);
            }
            total = add_fit(total, one, Ghost(9 + strings_bytes(cls.take(i as int))), Ghost(byte_len(cls[i as int])));
            i += 1;
        }
        assert(cls.take(classes@.len() as int) =~= cls);
        add_fit(total, Some(classes.len() - 1), Ghost(9 + strings_bytes(cls)), Ghost((cls.len() - 1) as nat))
    }

    /// The bytes of static text in the attributes.
    fn props_bytes(properties: &Vec<(Vec<char>, Vec<char>)>) -> (r: Option<usize>)
        requires
            forall|i: int| 0 <= i < properties@.len() ==> literal_ok(#[trigger] pairs_view(properties@)[i].1),
        ensures
            r == fit(props_bytes(pairs_view(properties@))),
    {
        let ghost ps = pairs_view(properties@);
        let mut total: Option<usize> = Some(0);
        let mut j: usize = 0;
        while j < properties.len()
            invariant
                j <= properties@.len(),
                ps == pairs_view(properties@),
                forall|i: int| 0 <= i < properties@.len() ==> literal_ok(#[trigger] ps[i].1),
                total == fit(props_bytes(ps.take(j as int))),
            decreases properties.len() - j,
        {
            let (name, value) = &properties[j];
            assert(ps[j as int] == (name@, value@));
            assert(literal_ok(ps[j as int].1));
            let mut one = add_fit(Some(1), count_bytes(name), Ghost(1nat), Ghost(byte_len(name@)));
            if value.len() > 0 {
                let text = if value[0] == '"' {
                    count_bytes(&Text::unquote(value))
                } else {
                    Some(0)
                };
                let ghost text_bytes: nat = if starts_with_char(value@, '"') {
                    byte_len(unquote_spec(value@))
                } else {
                    0
                };
                let quoted = add_fit(Some(3), text, Ghost(3nat), Ghost(text_bytes));
                one = add_fit(one, quoted, Ghost(1 + byte_len(name@)), Ghost(3 + text_bytes));
            }
            proof {
                assert(ps.take(j as int + 1).drop_last() =~= ps.take(j as int));
            }
            total = add_fit(total, one, Ghost(props_bytes(ps.take(j as int))), Ghost(prop_bytes(ps[j as int])));
            j += 1;
        }
        assert(ps.take(properties@.len() as int) =~= ps);
        total
    }

    /// The number of segments writing this node adds to a body, at most.
    pub fn parts(&self) -> (r: Option<usize>)
        ensures
            r == fit(parts(self@)),
        decreases self,
    {
        match self {
            Content::Fragment(children) => Self::parts_each(children),
            Content::Element { properties, contents, .. } => {
                let ghost ps = pairs_view(properties@);
                assert(self@->Element_properties == ps);
                let mut dynamic: usize = 0;
                let mut j: usize = 0;
                while j < properties.len()
                    invariant
                        j <= properties@.len(),
                        ps == pairs_view(properties@),
                        dynamic == dynamic_props(ps.take(j as int)),
                        dynamic <= j,
                    decreases properties.len() - j,
                {
                    let value = &properties[j].1;
                    assert(ps[j as int].1 == value@);
                    assert(ps.take(j as int + 1).drop_last() =~= ps.take(j as int));
                    if value.len() != 0 && value[0] != '"' {
                        dynamic = dynamic + 1;
                    }
                    j += 1;
                }
                assert(ps.take(properties@.len() as int) =~= ps);
                let inner = Self::parts_each(contents);
                let fixed = add_fit(Some(2), Some(dynamic), Ghost(2nat), Ghost(dynamic_props(ps)));
                add_fit(fixed, inner, Ghost(2 + dynamic_props(ps)), Ghost(parts_all(contents_view(contents@))))
            },
            Content::Text(_) | Content::RawText(_) => Some(1),
            Content::ElseIf { .. } => Some(0),
            Content::For { contents, .. } | Content::Else { contents } => Self::parts_each(contents),
            Content::If { contents, else_branch, .. } => {
                let then_parts = Self::parts_each(contents);
                let ghost else_model = match else_branch {
                    Some(b) => parts((**b)@),
                    None => 0,
                };
                let else_parts = match else_branch {
                    Some(branch) => branch.parts(),
                    None => Some(0),
                };
                max_fit(then_parts, else_parts, Ghost(parts_all(contents_view(contents@))), Ghost(else_model))
            },
        }
    }

    /// The parts of each of `contents`, summed.
    fn parts_each(contents: &Vec<Content>) -> (r: Option<usize>)
        ensures
            r == fit(parts_all(contents_view(contents@))),
        decreases contents,
    {
        let ghost ms = contents_view(contents@);
        proof {
            lemma_contents_view(contents@);
        }
        let mut total: Option<usize> = Some(0);
        let mut i: usize = 0;
        while i < contents.len()
            invariant
                i <= contents@.len(),
                ms == contents_view(contents@),
                ms.len() == contents@.len(),
                forall|k: int| 0 <= k < ms.len() ==> #[trigger] ms[k] == contents@[k]@,
                total == fit(parts_all(ms.take(i as int))),
            decreases contents.len() - i,
        {
            let one = contents[i].parts();
            proof {
                assert(ms.take(i as int + 1).drop_last() =~= ms.take(i as int));
            }
            total = add_fit(total, one, Ghost(parts_all(ms.take(i as int))), Ghost(parts(ms[i as int])));
            i += 1;
        }
        assert(ms.take(contents@.len() as int) =~= ms);
        total
    }
}

// ---------------------------------------------------------------------------
// Laws: static content compiles to its own markup
// ---------------------------------------------------------------------------

/// Attributes with static values add their text.
proof fn lemma_static_props(st: Emitting, ps: Seq<(Seq<char>, Seq<char>)>)
    requires
        props_static(ps),
        forall|i: int| 0 <= i < ps.len() ==> literal_ok(#[trigger] ps[i].1),
    ensures
        props_spec(st, ps) == add_text(st, props_text(ps)),
    decreases ps.len(),
{
    if ps.len() == 0 {
        assert(st.1 + Seq::<char>::empty() =~= st.1);
    } else {
        let init = ps.drop_last();
        assert forall|i: int| 0 <= i < init.len() implies literal_ok(#[trigger] init[i].1) by {
            assert(init[i] == ps[i]);
        }
        assert forall|i: int| 0 <= i < init.len() implies (#[trigger] init[i]).1.len() == 0
            || starts_with_char(init[i].1, '"') by {
            assert(init[i] == ps[i]);
        }
        lemma_static_props(st, init);
        let p = ps.last();
        assert(ps[ps.len() - 1] == p);
        let mid = props_spec(st, init);
        if p.1.len() == 0 {
            assert(prop_spec(mid, p).1 =~= st.1 + props_text(ps));
        } else {
            assert(starts_with_char(p.1, '"'));
            assert(prop_spec(mid, p).1 =~= st.1 + props_text(ps));
        }
    }
}

/// Emitting static content only adds its markup to the pending text.
pub proof fn lemma_static_collect(c: ContentModel, st: Emitting)
    requires
        is_static(c),
        emittable(c),
    ensures
        collect_spec(c, st) == add_text(st, render(c)),
    decreases c,
{
    match c {
        ContentModel::Fragment(children) => {
            lemma_static_collect_all(children, st);
        },
        ContentModel::Element { tag, classes, properties, contents } => {
            let first = add_text(st, "<"@ + tag + class_attr(classes));
            lemma_static_props(first, properties);
            let opened = open_tag_spec(st, tag, classes, properties);
            assert(opened.1 =~= st.1 + ("<"@ + tag + class_attr(classes) + props_text(properties) + ">"@));
            if is_void_tag(tag) {
                assert(collect_spec(c, st).1 =~= st.1 + render(c));
            } else {
                lemma_static_collect_all(contents, opened);
                assert(collect_spec(c, st).1 =~= st.1 + render(c));
            }
        },
        ContentModel::Text(t) => {
        },
        _ => {
        },
    }
}

/// Emitting a sequence of static content adds their markup in order.
pub proof fn lemma_static_collect_all(cs: Seq<ContentModel>, st: Emitting)
    requires
        all_static(cs),
        all_emittable(cs),
    ensures
        collect_all(cs, st) == add_text(st, render_all(cs)),
    decreases cs,
{
    if cs.len() == 0 {
        assert(st.1 + Seq::<char>::empty() =~= st.1);
    } else {
        lemma_static_collect_all(cs.drop_last(), st);
        lemma_static_collect(cs.last(), collect_all(cs.drop_last(), st));
        assert(collect_all(cs, st).1 =~= st.1 + render_all(cs));
    }
}

/// Static content compiles to a single write of its markup (none when the
/// markup is empty): the statements and the static rendering agree.
pub proof fn law_static_statements(c: ContentModel)
    requires
        is_static(c),
        emittable(c),
    ensures
        statements_spec(c) == flush_spec((Seq::<StmtModel>::empty(), render(c))),
{
    lemma_static_collect(c, (Seq::empty(), Seq::empty()));
    assert(Seq::<char>::empty() + render(c) =~= render(c));
}

// ---------------------------------------------------------------------------
// Laws: the byte count of static content is exact
// ---------------------------------------------------------------------------

/// ASCII text takes one byte per character.
pub proof fn lemma_ascii_bytes(s: Seq<char>)
    requires
        forall|i: int| 0 <= i < s.len() ==> (#[trigger] s[i] as u32) < 0x80,
    ensures
        byte_len(s) == s.len(),
    decreases s.len(),
{
    if s.len() > 0 {
        assert forall|i: int| 0 <= i < s.len() - 1 implies (#[trigger] s.drop_last()[i] as u32) < 0x80 by {
            assert(s.drop_last()[i] == s[i]);
        }
        lemma_ascii_bytes(s.drop_last());
        crate::chars::lemma_byte_len_push(s.drop_last(), s.last());
        crate::chars::lemma_char_width_bounds(s.last());
        assert(s.drop_last().push(s.last()) =~= s);
    }
}

/// The byte lengths of the fixed pieces of markup.
proof fn lemma_markup_literals()
    ensures
        byte_len("<"@) == 1,
        byte_len(">"@) == 1,
        byte_len("</"@) == 2,
        byte_len(" "@) == 1,
        byte_len("=\""@) == 2,
        byte_len("\""@) == 1,
        byte_len(" class=\""@) == 8,
{
    reveal_strlit("<");
    reveal_strlit(">");
    reveal_strlit("</");
    reveal_strlit(" ");
    reveal_strlit("=\"");
    reveal_strlit("\"");
    reveal_strlit(" class=\"");
    lemma_ascii_bytes("<"@);
    lemma_ascii_bytes(">"@);
    lemma_ascii_bytes("</"@);
    lemma_ascii_bytes(" "@);
    lemma_ascii_bytes("=\""@);
    lemma_ascii_bytes("\""@);
    lemma_ascii_bytes(" class=\""@);
}

/// Classes joined by spaces take their bytes plus one per space.
proof fn lemma_join_bytes(parts: Seq<Seq<char>>)
    requires
        parts.len() > 0,
    ensures
        byte_len(join_spaced(parts)) == strings_bytes(parts) + parts.len() - 1,
    decreases parts.len(),
{
    lemma_markup_literals();
    if parts.len() == 1 {
        assert(parts.drop_last() =~= Seq::<Seq<char>>::empty());
        assert(strings_bytes(Seq::<Seq<char>>::empty()) == 0);
        assert(parts.last() == parts[0]);
    } else {
        lemma_join_bytes(parts.drop_last());
        crate::chars::lemma_byte_len_concat(join_spaced(parts.drop_last()), " "@);
        crate::chars::lemma_byte_len_concat(join_spaced(parts.drop_last()) + " "@, parts.last());
    }
}

/// Static attributes take the bytes that their count says.
proof fn lemma_props_bytes(ps: Seq<(Seq<char>, Seq<char>)>)
    requires
        props_static(ps),
    ensures
        props_bytes(ps) == byte_len(props_text(ps)),
    decreases ps.len(),
{
    lemma_markup_literals();
    if ps.len() == 0 {
        crate::chars::lemma_byte_len_zero(Seq::<char>::empty());
    } else {
        let init = ps.drop_last();
        assert forall|i: int| 0 <= i < init.len() implies (#[trigger] init[i]).1.len() == 0
            || starts_with_char(init[i].1, '"') by {
            assert(init[i] == ps[i]);
        }
        lemma_props_bytes(init);
        let p = ps.last();
        assert(ps[ps.len() - 1] == p);
        crate::chars::lemma_byte_len_concat(props_text(init), prop_text(p));
        crate::chars::lemma_byte_len_concat(" "@, p.0);
        if p.1.len() == 0 {
            crate::chars::lemma_byte_len_zero(Seq::<char>::empty());
            crate::chars::lemma_byte_len_concat(" "@ + p.0, Seq::<char>::empty());
        } else {
            let q = "=\""@ + unquote_spec(p.1) + "\""@;
            crate::chars::lemma_byte_len_concat("=\""@, unquote_spec(p.1));
            crate::chars::lemma_byte_len_concat("=\""@ + unquote_spec(p.1), "\""@);
            crate::chars::lemma_byte_len_concat(" "@ + p.0, q);
        }
    }
}

/// Static content takes exactly the bytes that `static_bytes` counts.
pub proof fn law_static_bytes_exact(c: ContentModel)
    requires
        is_static(c),
        emittable(c),
    ensures
        static_bytes(c) == byte_len(render(c)),
    decreases c,
{
    lemma_markup_literals();
    match c {
        ContentModel::Fragment(children) => {
            lemma_static_bytes_all(children);
        },
        ContentModel::Element { tag, classes, properties, contents } => {
            lemma_props_bytes(properties);
            let ca = class_attr(classes);
            if classes.len() > 0 {
                lemma_join_bytes(classes);
                crate::chars::lemma_byte_len_concat(" class=\""@, join_spaced(classes));
                crate::chars::lemma_byte_len_concat(" class=\""@ + join_spaced(classes), "\""@);
            } else {
                crate::chars::lemma_byte_len_zero(Seq::<char>::empty());
            }
            assert(byte_len(ca) == classes_bytes(classes));
            let head = "<"@ + tag + ca + props_text(properties) + ">"@;
            crate::chars::lemma_byte_len_concat("<"@, tag);
            crate::chars::lemma_byte_len_concat("<"@ + tag, ca);
            crate::chars::lemma_byte_len_concat("<"@ + tag + ca, props_text(properties));
            crate::chars::lemma_byte_len_concat("<"@ + tag + ca + props_text(properties), ">"@);
            if is_void_tag(tag) {
                crate::chars::lemma_byte_len_zero(Seq::<char>::empty());
                crate::chars::lemma_byte_len_concat(head, Seq::<char>::empty());
            } else {
                lemma_static_bytes_all(contents);
                let close = "</"@ + tag + ">"@;
                crate::chars::lemma_byte_len_concat("</"@, tag);
                crate::chars::lemma_byte_len_concat("</"@ + tag, ">"@);
                crate::chars::lemma_byte_len_concat(render_all(contents), close);
                crate::chars::lemma_byte_len_concat(head, render_all(contents) + close);
            }
        },
        _ => {
        },
    }
}

/// The static bytes of static contents, summed, are their markup's bytes.
pub proof fn lemma_static_bytes_all(cs: Seq<ContentModel>)
    requires
        all_static(cs),
        all_emittable(cs),
    ensures
        bytes_all(cs) == byte_len(render_all(cs)),
    decreases cs,
{
    if cs.len() == 0 {
        crate::chars::lemma_byte_len_zero(Seq::<char>::empty());
    } else {
        lemma_static_bytes_all(cs.drop_last());
        law_static_bytes_exact(cs.last());
        crate::chars::lemma_byte_len_concat(render_all(cs.drop_last()), render(cs.last()));
    }
}

// ---------------------------------------------------------------------------
// What a template compiles to
// ---------------------------------------------------------------------------

/// The expansion of a template: fixed markup, or statements that write into
/// a buffer reserved with the given size.
pub enum Emission {
    Static(Vec<char>),
    Dynamic { reserve: usize, stmts: Vec<Stmt> },
}

/// The value an `Emission` stands for.
pub enum EmissionModel {
    Static(Seq<char>),
    Dynamic { reserve: nat, stmts: Seq<StmtModel> },
}

impl View for Emission {
    type V = EmissionModel;

    open spec fn view(&self) -> EmissionModel {
        match self {
            Emission::Static(text) => EmissionModel::Static(text@),
            Emission::Dynamic { reserve, stmts } => EmissionModel::Dynamic {
                reserve: *reserve as nat,
                stmts: stmts_view(stmts@),
            },
        }
    }
}

/// The expansion of `html!`: a string, reserved by its static bytes; `None`
/// where that count does not fit a `usize`.
pub open spec fn markup_spec(c: ContentModel) -> Option<EmissionModel> {
    if is_static(c) {
        Some(EmissionModel::Static(render(c)))
    } else if static_bytes(c) <= usize::MAX {
        Some(EmissionModel::Dynamic { reserve: static_bytes(c), stmts: statements_spec(c) })
    } else {
        None
    }
}

/// The expansion of `html_body!`: a body, reserved by its parts (at least
/// one); `None` where that count does not fit a `usize`.
pub open spec fn body_spec(c: ContentModel) -> Option<EmissionModel> {
    if is_static(c) {
        Some(EmissionModel::Static(render(c)))
    } else if parts(c) <= usize::MAX {
        Some(
            EmissionModel::Dynamic {
                reserve: if parts(c) >= 1 {
                    parts(c)
                } else {
                    1
                },
                stmts: statements_spec(c),
            },
        )
    } else {
        None
    }
}

/// The views of an optional emission.
pub open spec fn emission_view(e: Option<Emission>) -> Option<EmissionModel> {
    match e {
        Some(x) => Some(x@),
        None => None,
    }
}

impl Content {
    /// Whether this node can be emitted: every literal is quoted and every
    /// `else` follows an `if`.
    pub fn can_emit(&self) -> (b: bool)
        ensures
            b == emittable(self@),
        decreases self,
    {
        match self {
            Content::Fragment(children) => Self::can_emit_each(children),
            Content::Element { tag, properties, contents, .. } => {
                let ghost ps = pairs_view(properties@);
                let mut j: usize = 0;
                while j < properties.len()
                    invariant
                        j <= properties@.len(),
                        ps == pairs_view(properties@),
                        self@ is Element,
                        self@->Element_properties == ps,
                        forall|i: int| 0 <= i < j ==> literal_ok(#[trigger] ps[i].1),
                    decreases properties.len() - j,
                {
                    let value = &properties[j].1;
                    assert(ps[j as int].1 == value@);
                    if value.len() > 0 && value[0] == '"' && !Self::quoted(value) {
                        assert(!literal_ok(ps[j as int].1));
                        return false;
                    }
                    j += 1;
                }
                Self::is_void(tag) || Self::can_emit_each(contents)
            },
            Content::Text(text) => !(text.len() > 0 && text[0] == '"') || Self::quoted(text),
            Content::RawText(_) => true,
            Content::For { contents, .. } => Self::can_emit_each(contents),
            Content::If { contents, else_branch, .. } => {
                if !Self::can_emit_each(contents) {
                    return false;
                }
                match else_branch {
                    Some(branch) => branch.can_emit_else(),
                    None => true,
                }
            },
            _ => false,
        }
    }

    /// Whether this node can be emitted as the `else` part of a conditional.
    fn can_emit_else(&self) -> (b: bool)
        ensures
            b == else_emittable(Some(Box::new(self@))),
        decreases self,
    {
        match self {
            Content::If { condition, contents, else_branch } => {
                let ghost ob = match else_branch {
                    Some(b) => Some(Box::new((**b).view())),
                    None => None,
                };
                proof {
                    assert(self@ == ContentModel::If {
                        condition: condition@,
                        contents: contents_view(contents@),
                        else_branch: ob,
                    });
                    assert(else_emittable(Some(Box::new(self@))) == (all_emittable(
                        contents_view(contents@),
                    ) && else_emittable(ob)));
                }
                if !Self::can_emit_each(contents) {
                    return false;
                }
                let rest = match else_branch {
                    Some(branch) => branch.can_emit_else(),
                    None => true,
                };
                assert(rest == else_emittable(ob));
                rest
            },
            Content::Else { contents } => Self::can_emit_each(contents),
            _ => false,
        }
    }

    /// Whether each of `contents` can be emitted.
    fn can_emit_each(contents: &Vec<Content>) -> (b: bool)
        ensures
            b == all_emittable(contents_view(contents@)),
        decreases contents,
    {
        let ghost ms = contents_view(contents@);
        proof {
            lemma_contents_view(contents@);
            lemma_all_emittable(ms);
        }
        let mut i: usize = 0;
        while i < contents.len()
            invariant
                i <= contents@.len(),
                ms == contents_view(contents@),
                ms.len() == contents@.len(),
                forall|k: int| 0 <= k < ms.len() ==> #[trigger] ms[k] == contents@[k]@,
                forall|k: int| 0 <= k < i ==> emittable(#[trigger] ms[k]),
                all_emittable(ms) == (forall|k: int| 0 <= k < ms.len() ==> emittable(#[trigger] ms[k])),
            decreases contents.len() - i,
        {
            if !contents[i].can_emit() {
                assert(!emittable(ms[i as int]));
                return false;
            }
            i += 1;
        }
        true
    }

    /// Whether a literal keeps its quotes: two characters at least, the
    /// first and last of one byte each.
    fn quoted(text: &[char]) -> (b: bool)
        ensures
            b == quotable(text@),
    {
        text.len() >= 2 && (text[0] as u32) < 0x80 && (text[text.len() - 1] as u32) < 0x80
    }

    /// The expansion of `html!` for this tree.
    pub fn to_markup(&self) -> (r: Option<Emission>)
        requires
            emittable(self@),
        ensures
            emission_view(r) == markup_spec(self@),
    {
        if self.is_static() {
            return Some(Emission::Static(self.render_static()));
        }
        proof {
            lemma_emittable_literals(self@);
        }
        match self.static_bytes() {
            Some(reserve) => Some(Emission::Dynamic { reserve, stmts: self.statements() }),
            None => None,
        }
    }

    /// The expansion of `html_body!` for this tree.
    pub fn to_body(&self) -> (r: Option<Emission>)
        requires
            emittable(self@),
        ensures
            emission_view(r) == body_spec(self@),
    {
        if self.is_static() {
            return Some(Emission::Static(self.render_static()));
        }
        match self.parts() {
            Some(parts) => {
                let reserve = if parts >= 1 {
                    parts
                } else {
                    1
                };
                Some(Emission::Dynamic { reserve, stmts: self.statements() })
            },
            None => None,
        }
    }
}
} // verus!
