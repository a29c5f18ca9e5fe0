//! The HTML template language: a tree of content parsed from indented
//! lines, rendered statically where it can be and otherwise compiled into
//! statements that write into a sink.

pub mod emit;
pub mod parse;

use vstd::prelude::*;

use crate::chars::{pairs_view, strings_view};

verus! {

/// A node of an HTML template.
pub enum Content {
    /// Several nodes side by side.
    Fragment(Vec<Content>),
    Element {
        tag: Vec<char>,
        classes: Vec<Vec<char>>,
        /// Attribute names with their values: empty, a quoted literal, or
        /// an expression.
        properties: Vec<(Vec<char>, Vec<char>)>,
        contents: Vec<Content>,
    },
    /// A quoted literal, or an expression whose value is escaped.
    Text(Vec<char>),
    /// An expression whose value is written unescaped.
    RawText(Vec<char>),
    For { var: Vec<char>, iter: Vec<char>, contents: Vec<Content> },
    If { condition: Vec<char>, contents: Vec<Content>, else_branch: Option<Box<Content>> },
    ElseIf { condition: Vec<char>, contents: Vec<Content> },
    Else { contents: Vec<Content> },
}

/// The value a `Content` stands for.
pub enum ContentModel {
    Fragment(Seq<ContentModel>),
    Element {
        tag: Seq<char>,
        classes: Seq<Seq<char>>,
        properties: Seq<(Seq<char>, Seq<char>)>,
        contents: Seq<ContentModel>,
    },
    Text(Seq<char>),
    RawText(Seq<char>),
    For { var: Seq<char>, iter: Seq<char>, contents: Seq<ContentModel> },
    If { condition: Seq<char>, contents: Seq<ContentModel>, else_branch: Option<Box<ContentModel>> },
    ElseIf { condition: Seq<char>, contents: Seq<ContentModel> },
    Else { contents: Seq<ContentModel> },
}


impl View for Content {
    type V = ContentModel;

    open spec fn view(&self) -> ContentModel
        decreases self,
    {
        match self {
            Content::Fragment(children) => ContentModel::Fragment(
                contents_view(children@),
            ),
            Content::Element { tag, classes, properties, contents } => ContentModel::Element {
                tag: tag@,
                classes: strings_view(classes@),
                properties: pairs_view(properties@),
                contents: contents_view(contents@),
            },
            Content::Text(t) => ContentModel::Text(t@),
            Content::RawText(t) => ContentModel::RawText(t@),
            Content::For { var, iter, contents } => ContentModel::For {
                var: var@,
                iter: iter@,
                contents: contents_view(contents@),
            },
            Content::If { condition, contents, else_branch } => ContentModel::If {
                condition: condition@,
                contents: contents_view(contents@),
                else_branch: match else_branch {
                    Some(b) => Some(Box::new((**b).view())),
                    None => None,
                },
            },
            Content::ElseIf { condition, contents } => ContentModel::ElseIf {
                condition: condition@,
                contents: contents_view(contents@),
            },
            Content::Else { contents } => ContentModel::Else {
                contents: contents_view(contents@),
            },
        }
    }
}

/// The views of a sequence of contents.
pub open spec fn contents_view(v: Seq<Content>) -> Seq<ContentModel>
    decreases v,
{
    if v.len() == 0 {
        Seq::empty()
    } else {
        contents_view(v.drop_last()).push(v.last().view())
    }
}

/// `contents_view` views each element.
pub proof fn lemma_contents_view(v: Seq<Content>)
    ensures
        contents_view(v).len() == v.len(),
        forall|i: int| 0 <= i < v.len() ==> #[trigger] contents_view(v)[i] == v[i]@,
    decreases v.len(),
{
    if v.len() > 0 {
        lemma_contents_view(v.drop_last());
        assert(contents_view(v) == contents_view(v.drop_last()).push(v.last().view()));
        assert forall|i: int| 0 <= i < v.len() implies #[trigger] contents_view(v)[i] == v[i]@ by {
            if i < v.len() - 1 {
                assert(v.drop_last()[i] == v[i]);
            }
        }
    }
}

/// The view of a prefix is the prefix of the view.
pub proof fn lemma_contents_view_take(v: Seq<Content>, k: int)
    requires
        0 <= k <= v.len(),
    ensures
        contents_view(v.take(k)) == contents_view(v).take(k),
{
    lemma_contents_view(v.take(k));
    lemma_contents_view(v);
    assert(contents_view(v.take(k)) =~= contents_view(v).take(k));
}

} // verus!
