//! The CSS template language: nested selectors and declarations, flattened
//! into plain rules.

use vstd::prelude::*;

use crate::chars::{
    byte_len, byte_size, copy_chars, find_char, find_char_from, find_str, find_sub, has_prefix,
    lemma_find_char_take, opt_view, pairs_view, push_all, push_str, starts_with, strings_view,
    text_result, trim_bounds, trim_spec,
};
use crate::markup::{decimal, push_decimal_chars};
use crate::source::{
    Lexed, Line, LineModel, Source, Token, TokenModel, copy_tokens, describe_spec, lex_outcome_ok, lex_outcomes_ok,
    lexed_view, lexed_views, line_views, source_lines, token_views,
};
use crate::text::{camel_to_dashed_spec, quotable, starts_with_char, unquote_spec, Text};

verus! {

/// A CSS template node: a selector with its block, or a declaration.
pub enum Item {
    Node { name: Vec<char>, children: Vec<Item> },
    Declaration { property: Vec<char>, value: Vec<char> },
}

/// The value an `Item` stands for.
pub enum ItemModel {
    Node { name: Seq<char>, children: Seq<ItemModel> },
    Declaration { property: Seq<char>, value: Seq<char> },
}

impl View for Item {
    type V = ItemModel;

    open spec fn view(&self) -> ItemModel
        decreases self,
    {
        match self {
            Item::Node { name, children } => ItemModel::Node { name: name@, children: items_view(children@) },
            Item::Declaration { property, value } => ItemModel::Declaration {
                property: property@,
                value: value@,
            },
        }
    }
}

/// The views of a sequence of items.
pub open spec fn items_view(v: Seq<Item>) -> Seq<ItemModel>
    decreases v,
{
    if v.len() == 0 {
        Seq::empty()
    } else {
        items_view(v.drop_last()).push(v.last().view())
    }
}

/// `items_view` views each element.
pub proof fn lemma_items_view(v: Seq<Item>)
    ensures
        items_view(v).len() == v.len(),
        forall|i: int| 0 <= i < v.len() ==> #[trigger] items_view(v)[i] == v[i]@,
    decreases v.len(),
{
    if v.len() > 0 {
        lemma_items_view(v.drop_last());
        assert(items_view(v) == items_view(v.drop_last()).push(v.last().view()));
        assert forall|i: int| 0 <= i < v.len() implies #[trigger] items_view(v)[i] == v[i]@ by {
            if i < v.len() - 1 {
                assert(v.drop_last()[i] == v[i]);
            }
        }
    }
}

/// Viewing a sequence with one more item.
pub proof fn lemma_items_view_push(v: Seq<Item>, x: Item)
    ensures
        items_view(v.push(x)) == items_view(v).push(x@),
{
    assert(v.push(x).drop_last() =~= v);
}

/// Viewing a concatenation.
pub proof fn lemma_items_view_concat(a: Seq<Item>, b: Seq<Item>)
    ensures
        items_view(a + b) == items_view(a) + items_view(b),
{
    lemma_items_view(a);
    lemma_items_view(b);
    lemma_items_view(a + b);
    assert(items_view(a + b) =~= items_view(a) + items_view(b));
}

// ---------------------------------------------------------------------------
// Selector names
// ---------------------------------------------------------------------------

/// The pieces of `s` between occurrences of `c`.
pub open spec fn split_char(s: Seq<char>, c: char) -> Seq<Seq<char>>
    decreases s.len(),
{
    let k = find_char(s, c);
    if k < 0 || k >= s.len() {
        seq![s]
    } else {
        seq![s.take(k)] + split_char(s.skip(k + 1), c)
    }
}

/// Pieces joined with a separator between each two.
pub open spec fn join_with(parts: Seq<Seq<char>>, sep: Seq<char>) -> Seq<char>
    decreases parts.len(),
{
    if parts.len() == 0 {
        Seq::empty()
    } else if parts.len() == 1 {
        parts[0]
    } else {
        join_with(parts.drop_last(), sep) + sep + parts.last()
    }
}

/// A selector nested in `namespace`: `&` joins directly, anything else as a
/// descendant.
pub open spec fn join_one(namespace: Seq<char>, part: Seq<char>) -> Seq<char> {
    if starts_with_char(part, '&') {
        namespace + part.drop_first()
    } else {
        namespace + " "@ + part
    }
}

/// Each selector of a comma list nested in `namespace`.
pub open spec fn join_parts(namespace: Seq<char>, parts: Seq<Seq<char>>) -> Seq<Seq<char>> {
    parts.map_values(|p: Seq<char>| join_one(namespace, trim_spec(p)))
}

/// A selector name nested in `namespace`.
pub open spec fn join_name_spec(namespace: Seq<char>, name: Seq<char>) -> Seq<char> {
    if find_char(name, ',') >= 0 {
        join_with(join_parts(namespace, split_char(name, ',')), ", "@)
    } else {
        join_one(namespace, name)
    }
}


/// A list of pieces always has at least one.
proof fn lemma_split_nonempty(s: Seq<char>, c: char)
    ensures
        split_char(s, c).len() >= 1,
    decreases s.len(),
{
    let k = find_char(s, c);
    if !(k < 0 || k >= s.len()) {
        lemma_split_nonempty(s.skip(k + 1), c);
    }
}

impl Item {
    /// Appends `part` nested in `namespace`.
    fn push_joined(namespace: &[char], part: &[char], out: &mut Vec<char>)
        ensures
            final(out)@ == old(out)@ + join_one(namespace@, part@),
    {
        push_all(out, namespace);
        if part.len() > 0 && part[0] == '&' {
            let rest = vstd::slice::slice_subrange(part, 1, part.len());
            assert(rest@ =~= part@.drop_first());
            push_all(out, rest);
        } else {
            push_str(out, " ");
            push_all(out, part);
        }
        assert(final(out)@ =~= old(out)@ + join_one(namespace@, part@));
    }

    /// A selector name nested in `namespace`; each selector of a comma
    /// list is nested.
    pub fn join_name(namespace: &[char], name: &[char]) -> (out: Vec<char>)
        ensures
            out@ == join_name_spec(namespace@, name@),
    {
        let mut out: Vec<char> = Vec::new();
        let first_comma = find_char_from(name, 0, ',');
        assert(name@.skip(0) =~= name@);
        if first_comma.is_none() {
            Self::push_joined(namespace, name, &mut out);
            assert(out@ =~= join_name_spec(namespace@, name@));
            return out;
        }
        let ghost pieces = split_char(name@, ',');
        let ghost joined = join_parts(namespace@, pieces);
        let mut start: usize = 0;
        let ghost mut count: int = 0;
        proof {
            lemma_split_nonempty(name@, ',');
            assert(pieces.skip(0) =~= pieces);
        }
        loop
            invariant
                start <= name@.len(),
                0 <= count < pieces.len(),
                find_char(name@, ',') >= 0,
                pieces == split_char(name@, ','),
                joined == join_parts(namespace@, pieces),
                split_char(name@.skip(start as int), ',') == pieces.skip(count),
                count == 0 ==> out@ == Seq::<char>::empty(),
                count > 0 ==> out@ == join_with(joined.take(count), ", "@) + ", "@,
            decreases name@.len() - start,
        {
            let ghost rest = name@.skip(start as int);
            let found = find_char_from(name, start, ',');
            let end = match found {
                Some(k) => k,
                None => name.len(),
            };
            let (a, b) = trim_bounds(name, start, end);
            let piece = vstd::slice::slice_subrange(name, a, b);
            let ghost before = out@;
            Self::push_joined(namespace, piece, &mut out);
            proof {
                let k = find_char(rest, ',');
                assert(name@.subrange(start as int, end as int) =~= (if k < 0 { rest } else { rest.take(k) }));
                assert(pieces.skip(count)[0] == pieces[count]);
                if k < 0 || k >= rest.len() {
                    assert(split_char(rest, ',') == seq![rest]);
                } else {
                    assert(split_char(rest, ',') == seq![rest.take(k)] + split_char(rest.skip(k + 1), ','));
                }
                assert(joined[count] == join_one(namespace@, trim_spec(pieces[count])));
                let t = joined.take(count + 1);
                assert(t.drop_last() =~= joined.take(count));
                if count == 0 {
                    assert(out@ =~= join_with(t, ", "@));
                } else {
                    assert(out@ =~= join_with(t, ", "@));
                }
            }
            match found {
                Some(k) => {
                    push_str(&mut out, ", ");
                    proof {
                        let kk = find_char(rest, ',');
                        assert(kk == k - start);
                        assert(rest.skip(kk + 1) =~= name@.skip(k + 1));
                        assert(pieces.skip(count).drop_first() =~= pieces.skip(count + 1));
                        assert(pieces.skip(count + 1).len() >= 1) by {
                            lemma_split_nonempty(name@.skip(k + 1), ',');
                        }
                        count = count + 1;
                    }
                    start = k + 1;
                },
                None => {
                    proof {
                        assert(pieces.skip(count).len() == 1);
                        assert(count + 1 == pieces.len());
                        assert(joined.take(count + 1) =~= joined);
                        assert(find_char(name@, ',') >= 0);
                    }
                    return out;
                },
            }
        }
    }
}

// ---------------------------------------------------------------------------
// Flattening and rendering
// ---------------------------------------------------------------------------

/// An optional item as a sequence of at most one.
pub open spec fn opt_list(o: Option<ItemModel>) -> Seq<ItemModel> {
    match o {
        Some(x) => seq![x],
        None => Seq::empty(),
    }
}

/// An item lifted out of nesting: a declaration stays for its enclosing
/// rule; a rule becomes a list of plain rules, its own last, named by its
/// full selector. A `@media` block inside a rule keeps the rule inside it.
pub open spec fn flatten_spec(item: ItemModel, ns: Option<Seq<char>>) -> (Option<ItemModel>, Seq<ItemModel>)
    decreases item,
{
    match item {
        ItemModel::Declaration { .. } => (Some(item), Seq::empty()),
        ItemModel::Node { name, children } => {
            if ns is Some && has_prefix(name, "@media"@) {
                let parent = ns->0;
                let inner = flatten_children(children, Some(parent));
                let nodes = if inner.0.len() > 0 {
                    inner.1.push(ItemModel::Node { name: parent, children: inner.0 })
                } else {
                    inner.1
                };
                (None, seq![ItemModel::Node { name, children: nodes }])
            } else {
                let scoped = match ns {
                    Some(n) => join_name_spec(n, name),
                    None => name,
                };
                let inner = flatten_children(children, Some(scoped));
                (None, inner.1.push(ItemModel::Node { name: scoped, children: inner.0 }))
            }
        },
    }
}

/// The declarations and the rules that the children of a rule give.
pub open spec fn flatten_children(cs: Seq<ItemModel>, ns: Option<Seq<char>>) -> (Seq<ItemModel>, Seq<ItemModel>)
    decreases cs,
{
    if cs.len() == 0 {
        (Seq::empty(), Seq::empty())
    } else {
        let prev = flatten_children(cs.drop_last(), ns);
        let one = flatten_spec(cs.last(), ns);
        (prev.0 + opt_list(one.0), prev.1 + one.1)
    }
}

/// The CSS text of an item: a rule without declarations writes nothing; a
/// declaration whose value cannot lose its first and last character as
/// single bytes (see `quotable`) is refused.
pub open spec fn render_result(item: ItemModel) -> Result<Seq<char>, Seq<char>>
    decreases item,
{
    match item {
        ItemModel::Node { name, children } => if children.len() == 0 {
            Ok(Seq::empty())
        } else {
            match render_all(children) {
                Ok(text) => Ok(name + " {"@ + text + "}"@),
                Err(e) => Err(e),
            }
        },
        ItemModel::Declaration { property, value } => if quotable(value) {
            Ok(property + ": "@ + unquote_spec(value) + ";"@)
        } else {
            Err(css_malformed(value))
        },
    }
}

/// The CSS text of each of `cs`, in order; the first refusal stops it.
pub open spec fn render_all(cs: Seq<ItemModel>) -> Result<Seq<char>, Seq<char>>
    decreases cs,
{
    if cs.len() == 0 {
        Ok(Seq::empty())
    } else {
        match render_all(cs.drop_last()) {
            Ok(text) => match render_result(cs.last()) {
                Ok(more) => Ok(text + more),
                Err(e) => Err(e),
            },
            Err(e) => Err(e),
        }
    }
}

/// Once rendering a list fails, a longer list fails the same way.
proof fn lemma_render_all_err(cs: Seq<ItemModel>, k: int)
    requires
        0 <= k <= cs.len(),
        render_all(cs.take(k)) is Err,
    ensures
        render_all(cs) == render_all(cs.take(k)),
    decreases cs.len() - k,
{
    if k < cs.len() {
        assert(cs.take(k + 1).drop_last() =~= cs.take(k));
        lemma_render_all_err(cs, k + 1);
    } else {
        assert(cs.take(k) =~= cs);
    }
}

/// The flat rules of the top-level items, in order; `None` where one of
/// them is a declaration.
pub open spec fn flatten_roots(roots: Seq<ItemModel>) -> Option<Seq<ItemModel>>
    decreases roots.len(),
{
    if roots.len() == 0 {
        Some(Seq::empty())
    } else {
        match flatten_roots(roots.drop_last()) {
            Some(prev) => {
                let one = flatten_spec(roots.last(), None);
                if one.0 is Some {
                    None
                } else {
                    Some(prev + one.1)
                }
            },
            None => None,
        }
    }
}

/// The view of an optional item.
pub open spec fn opt_item_view(o: Option<Item>) -> Option<ItemModel> {
    match o {
        Some(i) => Some(i@),
        None => None,
    }
}

impl Item {
    /// Lifts this item out of nesting within `namespace`.
    pub fn flatten(&self, namespace: &Option<Vec<char>>) -> (r: (Option<Item>, Vec<Item>))
        ensures
            (opt_item_view(r.0), items_view(r.1@)) == flatten_spec(self@, opt_view(*namespace)),
        decreases self,
    {
        match self {
            Item::Declaration { property, value } => {
                let copied = Item::Declaration { property: copy_chars(property), value: copy_chars(value) };
                proof {
                    assert(items_view(Seq::<Item>::empty()) =~= Seq::<ItemModel>::empty());
                }
                (Some(copied), Vec::new())
            },
            Item::Node { name, children } => {
                let media = match namespace {
                    Some(_) => starts_with(name, &crate::chars::lit("@media")),
                    None => false,
                };
                if media {
                    let parent = match namespace {
                        Some(p) => copy_chars(p),
                        None => Vec::new(),
                    };
                    let inner_ns = Some(copy_chars(&parent));
                    let (declarations, mut nodes) = Self::flatten_each(children, &inner_ns);
                    if declarations.len() > 0 {
                        let ghost before = nodes@;
                        let rule = Item::Node { name: parent, children: declarations };
                        nodes.push(rule);
                        proof {
                            lemma_items_view_push(before, rule);
                        }
                    } else {
                        proof {
                            lemma_items_view(declarations@);
                        }
                    }
                    let wrapped = Item::Node { name: copy_chars(name), children: nodes };
                    let mut out: Vec<Item> = Vec::new();
                    out.push(wrapped);
                    proof {
                        lemma_items_view_push(Seq::<Item>::empty(), wrapped);
                        assert(Seq::<Item>::empty().push(wrapped) =~= out@);
                        assert(items_view(Seq::<Item>::empty()) =~= Seq::<ItemModel>::empty());
                        lemma_items_view(declarations@);
                    }
                    (None, out)
                } else {
                    let scoped = match namespace {
                        Some(n) => Self::join_name(n, name),
                        None => copy_chars(name),
                    };
                    let inner_ns = Some(copy_chars(&scoped));
                    let (declarations, mut nodes) = Self::flatten_each(children, &inner_ns);
                    let ghost before = nodes@;
                    let rule = Item::Node { name: scoped, children: declarations };
                    nodes.push(rule);
                    proof {
                        lemma_items_view_push(before, rule);
                    }
                    (None, nodes)
                }
            },
        }
    }

    /// Lifts each of `children` out of nesting within `namespace`:
    /// their declarations, and their rules.
    fn flatten_each(children: &Vec<Item>, namespace: &Option<Vec<char>>) -> (r: (Vec<Item>, Vec<Item>))
        ensures
            (items_view(r.0@), items_view(r.1@)) == flatten_children(items_view(children@), opt_view(*namespace)),
        decreases children,
    {
        let ghost cs = items_view(children@);
        let ghost ns = opt_view(*namespace);
        proof {
            lemma_items_view(children@);
        }
        let mut declarations: Vec<Item> = Vec::new();
        let mut nodes: Vec<Item> = Vec::new();
        let mut i: usize = 0;
        proof {
            assert(cs.take(0) =~= Seq::<ItemModel>::empty());
            assert(items_view(declarations@) =~= Seq::<ItemModel>::empty());
        }
        while i < children.len()
            invariant
                i <= children@.len(),
                cs == items_view(children@),
                cs.len() == children@.len(),
                ns == opt_view(*namespace),
                forall|k: int| 0 <= k < cs.len() ==> #[trigger] cs[k] == children@[k]@,
                (items_view(declarations@), items_view(nodes@)) == flatten_children(cs.take(i as int), ns),
            decreases children.len() - i,
        {
            let (declaration, mut child_nodes) = children[i].flatten(namespace);
            let ghost d0 = declarations@;
            let ghost n0 = nodes@;
            let ghost c0 = child_nodes@;
            match declaration {
                Some(d) => {
                    declarations.push(d);
                    proof {
                        lemma_items_view_push(d0, d);
                    }
                },
                None => {},
            }
            nodes.append(&mut child_nodes);
            proof {
                lemma_items_view_concat(n0, c0);
                assert(cs.take(i as int + 1).drop_last() =~= cs.take(i as int));
                assert(cs.take(i as int + 1).last() == children@[i as int]@);
                assert(items_view(declarations@) =~= items_view(d0) + opt_list(flatten_spec(children@[i as int]@, ns).0));
            }
            i += 1;
        }
        proof {
            assert(cs.take(children@.len() as int) =~= cs);
        }
        (declarations, nodes)
    }

    /// Appends the CSS text of this item; a declaration whose value cannot
    /// lose its first and last character as single bytes is refused.
    pub fn render(&self, out: &mut Vec<char>) -> (r: Result<(), Vec<char>>)
        ensures
            match render_result(self@) {
                Ok(text) => r is Ok && final(out)@ == old(out)@ + text,
                Err(e) => r matches Err(m) && m@ == e,
            },
        decreases self,
    {
        match self {
            Item::Node { name, children } => {
                proof {
                    lemma_items_view(children@);
                }
                if children.len() == 0 {
                    assert(old(out)@ + Seq::<char>::empty() =~= old(out)@);
                    return Ok(());
                }
                push_all(out, name);
                push_str(out, " {");
                let done = Self::render_each(children, out);
                if done.is_err() {
                    return done;
                }
                push_str(out, "}");
                assert(out@ =~= old(out)@ + render_result(self@)->Ok_0);
                Ok(())
            },
            Item::Declaration { property, value } => {
                if !(value.len() >= 2 && (value[0] as u32) < 0x80 && (value[value.len() - 1] as u32) < 0x80) {
                    return Err(message_with("CSS: malformed literal `", value));
                }
                push_all(out, property);
                push_str(out, ": ");
                let text = Text::unquote(value);
                push_all(out, &text);
                push_str(out, ";");
                assert(out@ =~= old(out)@ + render_result(self@)->Ok_0);
                Ok(())
            },
        }
    }

    /// Appends the CSS text of each of `items`, in order; the first refusal
    /// stops it.
    pub fn render_each(items: &Vec<Item>, out: &mut Vec<char>) -> (r: Result<(), Vec<char>>)
        ensures
            match render_all(items_view(items@)) {
                Ok(text) => r is Ok && final(out)@ == old(out)@ + text,
                Err(e) => r matches Err(m) && m@ == e,
            },
        decreases items,
    {
        let ghost cs = items_view(items@);
        proof {
            lemma_items_view(items@);
            assert(cs.take(0) =~= Seq::<ItemModel>::empty());
        }
        let mut i: usize = 0;
        while i < items.len()
            invariant
                i <= items@.len(),
                cs == items_view(items@),
                cs.len() == items@.len(),
                forall|k: int| 0 <= k < cs.len() ==> #[trigger] cs[k] == items@[k]@,
                render_all(cs.take(i as int)) is Ok,
                out@ == old(out)@ + render_all(cs.take(i as int))->Ok_0,
            decreases items.len() - i,
        {
            let ghost before = out@;
            let done = items[i].render(out);
            proof {
                assert(cs.take(i as int + 1).drop_last() =~= cs.take(i as int));
                assert(cs.take(i as int + 1).last() == cs[i as int]);
            }
            match done {
                Ok(()) => {},
                Err(e) => {
                    proof {
                        lemma_render_all_err(cs, i as int + 1);
                    }
                    return Err(e);
                },
            }
            i += 1;
        }
        proof {
            assert(cs.take(items@.len() as int) =~= cs);
        }
        Ok(())
    }
}

// ---------------------------------------------------------------------------
// Lines
// ---------------------------------------------------------------------------

/// A parsed line: its indentation and its item.
pub struct Node {
    pub level: usize,
    pub item: Item,
}

/// The value a `Node` stands for.
pub struct NodeModel {
    pub level: nat,
    pub item: ItemModel,
}

impl View for Node {
    type V = NodeModel;

    open spec fn view(&self) -> NodeModel {
        NodeModel { level: self.level as nat, item: self.item@ }
    }
}

/// Where the reading of a CSS line stands.
pub enum LineState {
    StandBy,
    Prefix(char),
    Selector(Vec<char>),
    Accumulated(Vec<char>),
    Punctuated(Vec<char>),
    DeclarationValue(Vec<char>),
    Done(Item),
}

/// The value a `LineState` stands for.
pub enum LineStateModel {
    StandBy,
    Prefix(char),
    Selector(Seq<char>),
    Accumulated(Seq<char>),
    Punctuated(Seq<char>),
    DeclarationValue(Seq<char>),
    Done(ItemModel),
}

impl View for LineState {
    type V = LineStateModel;

    open spec fn view(&self) -> LineStateModel {
        match self {
            LineState::StandBy => LineStateModel::StandBy,
            LineState::Prefix(c) => LineStateModel::Prefix(*c),
            LineState::Selector(s) => LineStateModel::Selector(s@),
            LineState::Accumulated(s) => LineStateModel::Accumulated(s@),
            LineState::Punctuated(s) => LineStateModel::Punctuated(s@),
            LineState::DeclarationValue(s) => LineStateModel::DeclarationValue(s@),
            LineState::Done(i) => LineStateModel::Done(i@),
        }
    }
}

/// The message for a token that does not fit where it stands.
pub open spec fn css_unexpected(t: TokenModel) -> Seq<char> {
    "CSS: unexpected `"@ + describe_spec(t) + "`"@
}

/// The message for a literal that is not quoted.
pub open spec fn css_malformed(l: Seq<char>) -> Seq<char> {
    "CSS: malformed literal `"@ + l + "`"@
}

/// Reading one more token of a CSS line.
pub open spec fn line_step(st: LineStateModel, t: TokenModel) -> Result<LineStateModel, Seq<char>> {
    match st {
        LineStateModel::StandBy => match t {
            TokenModel::Ident(i) => Ok(LineStateModel::Selector(i)),
            TokenModel::Punct(p) => if p == '@' {
                Ok(LineStateModel::Prefix('@'))
            } else if p == '.' || p == '#' || p == '&' {
                Ok(LineStateModel::Punctuated(seq![p]))
            } else {
                Err(css_unexpected(t))
            },
            _ => Err(css_unexpected(t)),
        },
        LineStateModel::Prefix(prefix) => match t {
            TokenModel::Ident(i) => Ok(LineStateModel::Selector(seq![prefix] + camel_to_dashed_spec(i))),
            _ => Err(css_unexpected(t)),
        },
        LineStateModel::Selector(sel) => match t {
            TokenModel::Punct(p) => if p == '.' {
                Ok(LineStateModel::Punctuated(sel + " ."@))
            } else if p == ',' {
                Ok(LineStateModel::Punctuated(sel + ", "@))
            } else if p == ':' {
                Ok(LineStateModel::DeclarationValue(sel))
            } else {
                Err(css_unexpected(t))
            },
            TokenModel::Literal(l) => if quotable(l) {
                Ok(LineStateModel::Accumulated(sel + " "@ + unquote_spec(l)))
            } else {
                Err(css_malformed(l))
            },
            TokenModel::Ident(i) => Ok(LineStateModel::Accumulated(sel + " "@ + i)),
            TokenModel::Group { delimited, .. } => Ok(LineStateModel::Accumulated(sel + delimited)),
            _ => Err(css_unexpected(t)),
        },
        LineStateModel::DeclarationValue(property) => match t {
            TokenModel::Literal(v) => Ok(
                LineStateModel::Done(ItemModel::Declaration { property: camel_to_dashed_spec(property), value: v }),
            ),
            _ => Err(css_unexpected(t)),
        },
        LineStateModel::Accumulated(prev) => match t {
            TokenModel::Ident(i) => Ok(LineStateModel::Accumulated(prev + " "@ + i)),
            TokenModel::Punct(p) => if p == '-' {
                Ok(LineStateModel::Punctuated(prev + "-"@))
            } else if p == ',' {
                Ok(LineStateModel::Punctuated(prev + ", "@))
            } else {
                Ok(LineStateModel::Punctuated(prev + " "@ + seq![p]))
            },
            TokenModel::Group { delimited, .. } => Ok(LineStateModel::Accumulated(prev + delimited)),
            _ => Err(css_unexpected(t)),
        },
        LineStateModel::Punctuated(prev) => match t {
            TokenModel::Ident(i) => Ok(LineStateModel::Accumulated(prev + i)),
            TokenModel::Punct(p) => Ok(LineStateModel::Punctuated(prev + seq![p])),
            TokenModel::Group { delimited, .. } => Ok(LineStateModel::Accumulated(prev + delimited)),
            _ => Err(css_unexpected(t)),
        },
        LineStateModel::Done(_) => Err(css_unexpected(t)),
    }
}

/// Reading the tokens of a CSS line in order, stopping at the first error.
pub open spec fn line_run(ts: Seq<TokenModel>) -> Result<LineStateModel, Seq<char>>
    decreases ts.len(),
{
    if ts.len() == 0 {
        Ok(LineStateModel::StandBy)
    } else {
        match line_run(ts.drop_last()) {
            Ok(st) => line_step(st, ts.last()),
            Err(e) => Err(e),
        }
    }
}

/// The item that a CSS line makes.
pub open spec fn parse_line_spec(level: nat, ts: Seq<TokenModel>) -> Result<NodeModel, Seq<char>> {
    match line_run(ts) {
        Err(e) => Err(e),
        Ok(st) => match st {
            LineStateModel::Done(item) => Ok(NodeModel { level, item }),
            LineStateModel::Selector(name) => Ok(
                NodeModel { level, item: ItemModel::Node { name, children: Seq::empty() } },
            ),
            LineStateModel::Accumulated(name) => Ok(
                NodeModel { level, item: ItemModel::Node { name, children: Seq::empty() } },
            ),
            _ => Err("CSS: incomplete line"@),
        },
    }
}

/// A selector starting with `.` keeps the name after it as written.
pub proof fn law_class_selector_starts(a: Seq<char>)
    ensures
        line_run(seq![TokenModel::Punct('.'), TokenModel::Ident(a)]) == Ok::<LineStateModel, Seq<char>>(
            LineStateModel::Accumulated(seq!['.'] + a),
        ),
{
    let ts = seq![TokenModel::Punct('.'), TokenModel::Ident(a)];
    let one = seq![TokenModel::Punct('.')];
    assert(ts.drop_last() =~= one);
    assert(ts.last() == TokenModel::Ident(a));
    assert(one.drop_last() =~= Seq::<TokenModel>::empty());
    assert(one.last() == TokenModel::Punct('.'));
    assert(line_run(Seq::<TokenModel>::empty()) == Ok::<LineStateModel, Seq<char>>(LineStateModel::StandBy));
    assert(line_run(one) == Ok::<LineStateModel, Seq<char>>(LineStateModel::Punctuated(seq!['.'])));
    assert(line_run(ts) == line_step(LineStateModel::Punctuated(seq!['.']), TokenModel::Ident(a)));
}

/// A hyphen inside a selector joins its neighbours directly: a selector
/// read so far followed by `-` and a name reads as the three side by side,
/// so hyphenated class names are kept as written.
pub proof fn law_hyphen_joins(ts: Seq<TokenModel>, p: Seq<char>, x: Seq<char>)
    requires
        line_run(ts) == Ok::<LineStateModel, Seq<char>>(LineStateModel::Accumulated(p)),
    ensures
        line_run(ts + seq![TokenModel::Punct('-'), TokenModel::Ident(x)]) == Ok::<LineStateModel, Seq<char>>(
            LineStateModel::Accumulated(p.push('-') + x),
        ),
{
    let all = ts + seq![TokenModel::Punct('-'), TokenModel::Ident(x)];
    let mid = ts.push(TokenModel::Punct('-'));
    assert(all.drop_last() =~= mid);
    assert(all.last() == TokenModel::Ident(x));
    assert(mid.drop_last() =~= ts);
    assert(mid.last() == TokenModel::Punct('-'));
    reveal_strlit("-");
    assert(p + "-"@ =~= p.push('-'));
    assert(line_run(mid) == line_step(LineStateModel::Accumulated(p), TokenModel::Punct('-')));
    assert(line_run(mid) == Ok::<LineStateModel, Seq<char>>(LineStateModel::Punctuated(p.push('-'))));
    assert(line_run(all) == line_step(LineStateModel::Punctuated(p.push('-')), TokenModel::Ident(x)));
}

/// Once reading fails, it stays failed.
proof fn lemma_line_run_err(ts: Seq<TokenModel>, k: int)
    requires
        0 <= k <= ts.len(),
        line_run(ts.take(k)) is Err,
    ensures
        line_run(ts) == line_run(ts.take(k)),
    decreases ts.len() - k,
{
    if k < ts.len() {
        assert(ts.take(k + 1).drop_last() =~= ts.take(k));
        lemma_line_run_err(ts, k + 1);
    } else {
        assert(ts.take(k) =~= ts);
    }
}

/// The view of a line result.
pub open spec fn node_result(r: Result<Node, Vec<char>>) -> Result<NodeModel, Seq<char>> {
    match r {
        Ok(n) => Ok(n@),
        Err(e) => Err(e@),
    }
}

/// The view of the result of reading a token.
pub open spec fn state_result(r: Result<LineState, Vec<char>>) -> Result<LineStateModel, Seq<char>> {
    match r {
        Ok(s) => Ok(s@),
        Err(e) => Err(e@),
    }
}

/// Appends a token's text in an error message.
fn message_with(prefix: &str, middle: &[char]) -> (m: Vec<char>)
    ensures
        m@ == prefix@ + middle@ + "`"@,
{
    let mut m: Vec<char> = Vec::new();
    push_str(&mut m, prefix);
    push_all(&mut m, middle);
    push_str(&mut m, "`");
    m
}

impl Node {
    /// The error for a token that does not fit where it stands.
    fn unexpected(token: &Token) -> (e: Vec<char>)
        ensures
            e@ == css_unexpected(token@),
    {
        message_with("CSS: unexpected `", &token.describe())
    }

    /// Reads one more token of a CSS line.
    fn step(state: LineState, token: &Token) -> (r: Result<LineState, Vec<char>>)
        ensures
            state_result(r) == line_step(state@, token@),
    {
        match state {
            LineState::StandBy => match token {
                Token::Ident(ident) => Ok(LineState::Selector(copy_chars(ident))),
                Token::Punct(p) => {
                    if *p == '@' {
                        Ok(LineState::Prefix('@'))
                    } else if *p == '.' || *p == '#' || *p == '&' {
                        let mut v: Vec<char> = Vec::new();
                        v.push(*p);
                        assert(v@ =~= seq![*p]);
                        Ok(LineState::Punctuated(v))
                    } else {
                        Err(Self::unexpected(token))
                    }
                },
                _ => Err(Self::unexpected(token)),
            },
            LineState::Prefix(prefix) => match token {
                Token::Ident(ident) => {
                    let mut v: Vec<char> = Vec::new();
                    v.push(prefix);
                    let dashed = Text::camel_to_dashed(ident);
                    push_all(&mut v, &dashed);
                    assert(v@ =~= seq![prefix] + dashed@);
                    Ok(LineState::Selector(v))
                },
                _ => Err(Self::unexpected(token)),
            },
            LineState::Selector(sel) => match token {
                Token::Punct(p) => {
                    if *p == '.' {
                        let mut v = sel;
                        push_str(&mut v, " .");
                        Ok(LineState::Punctuated(v))
                    } else if *p == ',' {
                        let mut v = sel;
                        push_str(&mut v, ", ");
                        Ok(LineState::Punctuated(v))
                    } else if *p == ':' {
                        Ok(LineState::DeclarationValue(sel))
                    } else {
                        Err(Self::unexpected(token))
                    }
                },
                Token::Literal(l) => {
                    if l.len() >= 2 && (l[0] as u32) < 0x80 && (l[l.len() - 1] as u32) < 0x80 {
                        let mut v = sel;
                        push_str(&mut v, " ");
                        let text = Text::unquote(l);
                        push_all(&mut v, &text);
                        Ok(LineState::Accumulated(v))
                    } else {
                        Err(message_with("CSS: malformed literal `", l))
                    }
                },
                Token::Ident(ident) => {
                    let mut v = sel;
                    push_str(&mut v, " ");
                    push_all(&mut v, ident);
                    Ok(LineState::Accumulated(v))
                },
                Token::Group { delimited, .. } => {
                    let mut v = sel;
                    push_all(&mut v, delimited);
                    Ok(LineState::Accumulated(v))
                },
                _ => Err(Self::unexpected(token)),
            },
            LineState::DeclarationValue(property) => match token {
                Token::Literal(value) => Ok(
                    LineState::Done(
                        Item::Declaration {
                            property: Text::camel_to_dashed(&property),
                            value: copy_chars(value),
                        },
                    ),
                ),
                _ => Err(Self::unexpected(token)),
            },
            LineState::Accumulated(prev) => match token {
                Token::Ident(ident) => {
                    let mut v = prev;
                    push_str(&mut v, " ");
                    push_all(&mut v, ident);
                    Ok(LineState::Accumulated(v))
                },
                Token::Punct(p) => {
                    let mut v = prev;
                    if *p == '-' {
                        push_str(&mut v, "-");
                    } else if *p == ',' {
                        push_str(&mut v, ", ");
                    } else {
                        push_str(&mut v, " ");
                        v.push(*p);
                        assert(v@ =~= prev@ + " "@ + seq![*p]);
                    }
                    Ok(LineState::Punctuated(v))
                },
                Token::Group { delimited, .. } => {
                    let mut v = prev;
                    push_all(&mut v, delimited);
                    Ok(LineState::Accumulated(v))
                },
                _ => Err(Self::unexpected(token)),
            },
            LineState::Punctuated(prev) => match token {
                Token::Ident(ident) => {
                    let mut v = prev;
                    push_all(&mut v, ident);
                    Ok(LineState::Accumulated(v))
                },
                Token::Punct(p) => {
                    let mut v = prev;
                    v.push(*p);
                    assert(v@ =~= prev@ + seq![*p]);
                    Ok(LineState::Punctuated(v))
                },
                Token::Group { delimited, .. } => {
                    let mut v = prev;
                    push_all(&mut v, delimited);
                    Ok(LineState::Accumulated(v))
                },
                _ => Err(Self::unexpected(token)),
            },
            LineState::Done(_) => Err(Self::unexpected(token)),
        }
    }

    /// The item that a CSS line makes: a selector, or a declaration.
    pub fn parse(level: usize, tokens: Vec<Token>) -> (r: Result<Node, Vec<char>>)
        ensures
            node_result(r) == parse_line_spec(level as nat, token_views(tokens@)),
    {
        let ghost ts = token_views(tokens@);
        let mut state = LineState::StandBy;
        let mut i: usize = 0;
        assert(ts.take(0) =~= Seq::<TokenModel>::empty());
        while i < tokens.len()
            invariant
                i <= tokens@.len(),
                ts == token_views(tokens@),
                ts.len() == tokens@.len(),
                line_run(ts.take(i as int)) == Ok::<LineStateModel, Seq<char>>(state@),
            decreases tokens.len() - i,
        {
            let token = &tokens[i];
            let ghost before = state@;
            proof {
                assert(ts[i as int] == token@);
                assert(ts.take(i as int + 1).drop_last() =~= ts.take(i as int));
                assert(line_run(ts.take(i as int + 1)) == line_step(before, token@));
            }
            let next = Self::step(state, token);
            match next {
                Ok(s) => {
                    state = s;
                },
                Err(e) => {
                    proof {
                        lemma_line_run_err(ts, i as int + 1);
                    }
                    return Err(e);
                },
            }
            i += 1;
        }
        proof {
            assert(ts.take(tokens@.len() as int) =~= ts);
        }
        match state {
            LineState::Done(item) => Ok(Node { level, item }),
            LineState::Selector(name) | LineState::Accumulated(name) => {
                proof {
                    assert(items_view(Seq::<Item>::empty()) =~= Seq::<ItemModel>::empty());
                }
                Ok(Node { level, item: Item::Node { name, children: Vec::new() } })
            },
            _ => Err(crate::chars::lit("CSS: incomplete line")),
        }
    }
}

impl crate::indent::IndentNode for Node {
    type Output = Item;

    open spec fn level_of(n: NodeModel) -> nat {
        n.level
    }

    open spec fn output_of(n: NodeModel) -> ItemModel {
        n.item
    }

    open spec fn adopt_spec(n: NodeModel, children: Seq<ItemModel>) -> Result<NodeModel, Seq<char>> {
        match n.item {
            ItemModel::Node { name, .. } => Ok(NodeModel { level: n.level, item: ItemModel::Node { name, children } }),
            ItemModel::Declaration { property, .. } => Err(
                "CSS: declaration `"@ + property + "` cannot have children"@,
            ),
        }
    }

    open spec fn finish_spec(siblings: Seq<ItemModel>) -> Seq<ItemModel> {
        siblings
    }

    fn level(&self) -> (r: usize) {
        self.level
    }

    fn into_output(self) -> (r: Item) {
        self.item
    }

    fn adopt(&mut self, children: Vec<Item>) -> (r: Result<(), Vec<char>>) {
        proof {
            lemma_items_view(children@);
            assert(crate::indent::outputs_view(children@) =~= items_view(children@));
        }
        let mut item = Item::Node { name: Vec::new(), children: Vec::new() };
        std::mem::swap(&mut self.item, &mut item);
        assert(item@ == old(self)@.item);
        match item {
            Item::Node { name, .. } => {
                self.item = Item::Node { name, children };
                Ok(())
            },
            Item::Declaration { property, value } => {
                let mut message: Vec<char> = Vec::new();
                push_str(&mut message, "CSS: declaration `");
                push_all(&mut message, &property);
                push_str(&mut message, "` cannot have children");
                self.item = Item::Declaration { property, value };
                Err(message)
            },
        }
    }

    fn finish_siblings(siblings: Vec<Item>) -> (r: Vec<Item>) {
        siblings
    }
}


/// Once flattening the top-level items fails, it stays failed.
proof fn lemma_flatten_roots_none(roots: Seq<ItemModel>, k: int)
    requires
        0 <= k <= roots.len(),
        flatten_roots(roots.take(k)) is None,
    ensures
        flatten_roots(roots) is None,
    decreases roots.len() - k,
{
    if k < roots.len() {
        assert(roots.take(k + 1).drop_last() =~= roots.take(k));
        lemma_flatten_roots_none(roots, k + 1);
    } else {
        assert(roots.take(k) =~= roots);
    }
}

/// Whether each of `cs` is a declaration.
pub open spec fn all_declarations(cs: Seq<ItemModel>) -> bool {
    forall|i: int| 0 <= i < cs.len() ==> #[trigger] cs[i] is Declaration
}

/// Whether a rule is flat: it holds only declarations, or it is an
/// `@media` rule that holds only flat rules.
pub open spec fn flat_rule(item: ItemModel) -> bool
    decreases item,
{
    match item {
        ItemModel::Declaration { .. } => false,
        ItemModel::Node { name, children } => all_declarations(children) || (has_prefix(name, "@media"@)
            && all_flat(children)),
    }
}

/// Whether each of `cs` is a flat rule.
pub open spec fn all_flat(cs: Seq<ItemModel>) -> bool
    decreases cs,
{
    cs.len() == 0 || (all_flat(cs.drop_last()) && flat_rule(cs.last()))
}

/// Flat rules side by side are flat.
proof fn lemma_all_flat_concat(a: Seq<ItemModel>, b: Seq<ItemModel>)
    requires
        all_flat(a),
        all_flat(b),
    ensures
        all_flat(a + b),
    decreases b.len(),
{
    if b.len() == 0 {
        assert(a + b =~= a);
    } else {
        lemma_all_flat_concat(a, b.drop_last());
        assert((a + b).drop_last() =~= a + b.drop_last());
        assert((a + b).last() == b.last());
    }
}

/// Lifting an item out of nesting leaves a declaration, if anything, for
/// the enclosing rule, and flat rules.
proof fn lemma_flatten_flat(item: ItemModel, ns: Option<Seq<char>>)
    ensures
        flatten_spec(item, ns).0 matches Some(d) ==> d is Declaration,
        all_flat(flatten_spec(item, ns).1),
    decreases item,
{
    match item {
        ItemModel::Declaration { .. } => {
            assert(flatten_spec(item, ns).1 =~= Seq::<ItemModel>::empty());
            assert(all_flat(flatten_spec(item, ns).1));
        },
        ItemModel::Node { name, children } => {
            if ns is Some && has_prefix(name, "@media"@) {
                let parent = ns->0;
                lemma_flatten_children_flat(children, Some(parent));
                let inner = flatten_children(children, Some(parent));
                if inner.0.len() > 0 {
                    let rule = ItemModel::Node { name: parent, children: inner.0 };
                    assert(flat_rule(rule));
                    assert(inner.1.push(rule).drop_last() =~= inner.1);
                    assert(all_flat(inner.1.push(rule)));
                }
                let nodes = if inner.0.len() > 0 {
                    inner.1.push(ItemModel::Node { name: parent, children: inner.0 })
                } else {
                    inner.1
                };
                assert(all_flat(nodes));
                let out = seq![ItemModel::Node { name, children: nodes }];
                assert(out.drop_last() =~= Seq::<ItemModel>::empty());
                assert(all_flat(out.drop_last()));
                assert(flat_rule(out.last()));
                assert(all_flat(out));
                assert(flatten_spec(item, ns).1 == out);
            } else {
                let scoped = match ns {
                    Some(n) => join_name_spec(n, name),
                    None => name,
                };
                lemma_flatten_children_flat(children, Some(scoped));
                let inner = flatten_children(children, Some(scoped));
                let rule = ItemModel::Node { name: scoped, children: inner.0 };
                assert(flat_rule(rule));
                let out = inner.1.push(rule);
                assert(out.drop_last() =~= inner.1);
                assert(all_flat(out));
                assert(flatten_spec(item, ns).1 == out);
            }
        },
    }
}

/// Lifting the children of a rule out of nesting gives declarations for
/// the rule, and flat rules.
proof fn lemma_flatten_children_flat(cs: Seq<ItemModel>, ns: Option<Seq<char>>)
    ensures
        all_declarations(flatten_children(cs, ns).0),
        all_flat(flatten_children(cs, ns).1),
    decreases cs,
{
    if cs.len() > 0 {
        lemma_flatten_children_flat(cs.drop_last(), ns);
        lemma_flatten_flat(cs.last(), ns);
        let prev = flatten_children(cs.drop_last(), ns);
        let one = flatten_spec(cs.last(), ns);
        lemma_all_flat_concat(prev.1, one.1);
        let ds = prev.0 + opt_list(one.0);
        assert forall|i: int| 0 <= i < ds.len() implies #[trigger] ds[i] is Declaration by {
            if i >= prev.0.len() {
                assert(ds[i] == one.0->Some_0);
            }
        }
    }
}

/// What flattening gives is flat: each rule holds only declarations, but
/// an `@media` rule, which holds flat rules.
pub proof fn law_flatten_is_flat(roots: Seq<ItemModel>)
    ensures
        flatten_roots(roots) matches Some(flat) ==> all_flat(flat),
    decreases roots.len(),
{
    if roots.len() > 0 {
        law_flatten_is_flat(roots.drop_last());
        lemma_flatten_flat(roots.last(), None);
        if flatten_roots(roots) is Some {
            lemma_all_flat_concat(flatten_roots(roots.drop_last())->Some_0, flatten_spec(roots.last(), None).1);
        }
    }
}

/// The style sheet that the top-level items make: their rules flattened and
/// written out in order. A declaration at the top level is refused.
pub open spec fn css_render_spec(roots: Seq<ItemModel>) -> Result<Seq<char>, Seq<char>> {
    match flatten_roots(roots) {
        None => Err("CSS: top-level declaration"@),
        Some(flat) => render_all(flat),
    }
}

/// The CSS template language.
pub struct Css;

impl Css {
    /// Writes out the style sheet of the top-level items.
    pub fn render(roots: Vec<Item>) -> (r: Result<Vec<char>, Vec<char>>)
        ensures
            text_result(r) == css_render_spec(items_view(roots@)),
    {
        let ghost cs = items_view(roots@);
        proof {
            lemma_items_view(roots@);
            assert(cs.take(0) =~= Seq::<ItemModel>::empty());
            assert(items_view(Seq::<Item>::empty()) =~= Seq::<ItemModel>::empty());
        }
        let mut flat: Vec<Item> = Vec::new();
        let mut i: usize = 0;
        let no_namespace: Option<Vec<char>> = None;
        while i < roots.len()
            invariant
                i <= roots@.len(),
                cs == items_view(roots@),
                cs.len() == roots@.len(),
                no_namespace is None,
                forall|k: int| 0 <= k < cs.len() ==> #[trigger] cs[k] == roots@[k]@,
                flatten_roots(cs.take(i as int)) == Some(items_view(flat@)),
            decreases roots.len() - i,
        {
            let (declaration, mut nodes) = roots[i].flatten(&no_namespace);
            proof {
                assert(cs.take(i as int + 1).drop_last() =~= cs.take(i as int));
                assert(cs.take(i as int + 1).last() == cs[i as int]);
            }
            if declaration.is_some() {
                proof {
                    lemma_flatten_roots_none(cs, i as int + 1);
                }
                return Err(crate::chars::lit("CSS: top-level declaration"));
            }
            let ghost before = flat@;
            let ghost added = nodes@;
            flat.append(&mut nodes);
            proof {
                lemma_items_view_concat(before, added);
            }
            i += 1;
        }
        proof {
            assert(cs.take(roots@.len() as int) =~= cs);
        }
        let mut css: Vec<char> = Vec::new();
        match Item::render_each(&flat, &mut css) {
            Ok(()) => {
                assert(css@ =~= Seq::<char>::empty() + render_all(items_view(flat@))->Ok_0);
                Ok(css)
            },
            Err(e) => Err(e),
        }
    }
}

// ---------------------------------------------------------------------------
// Variables
// ---------------------------------------------------------------------------

/// A `$name: value` line: its name and its value, each trimmed.
pub open spec fn var_line(text: Seq<char>) -> Option<(Seq<char>, Seq<char>)> {
    let t = trim_spec(text);
    if t.len() > 0 && t[0] == '$' {
        let rest = t.drop_first();
        let k = find_char(rest, ':');
        if 0 <= k < rest.len() {
            Some((trim_spec(rest.take(k)), trim_spec(rest.skip(k + 1))))
        } else {
            None
        }
    } else {
        None
    }
}

/// The variables that some lines define, in order.
pub open spec fn line_vars(lines: Seq<LineModel>) -> Seq<(Seq<char>, Seq<char>)>
    decreases lines.len(),
{
    if lines.len() == 0 {
        Seq::empty()
    } else {
        match var_line(lines.last().text) {
            Some(v) => line_vars(lines.drop_last()).push(v),
            None => line_vars(lines.drop_last()),
        }
    }
}

/// The lines that define no variable, in order.
pub open spec fn content_lines(lines: Seq<LineModel>) -> Seq<LineModel>
    decreases lines.len(),
{
    if lines.len() == 0 {
        Seq::empty()
    } else {
        match var_line(lines.last().text) {
            Some(_) => content_lines(lines.drop_last()),
            None => content_lines(lines.drop_last()).push(lines.last()),
        }
    }
}

/// `v` placed into `sorted` after every variable whose name takes at least
/// as many bytes.
pub open spec fn insert_by_length(
    sorted: Seq<(Seq<char>, Seq<char>)>,
    v: (Seq<char>, Seq<char>),
) -> Seq<(Seq<char>, Seq<char>)>
    decreases sorted.len(),
{
    if sorted.len() == 0 || byte_len(sorted.last().0) >= byte_len(v.0) {
        sorted.push(v)
    } else {
        insert_by_length(sorted.drop_last(), v).push(sorted.last())
    }
}

/// The variables ordered by the byte length of their names, longest first;
/// names of equal length keep their order.
pub open spec fn by_length(vars: Seq<(Seq<char>, Seq<char>)>) -> Seq<(Seq<char>, Seq<char>)>
    decreases vars.len(),
{
    if vars.len() == 0 {
        Seq::empty()
    } else {
        insert_by_length(by_length(vars.drop_last()), vars.last())
    }
}

/// `s` with each occurrence of `pat` replaced by `with`, scanning from the
/// left; occurrences do not overlap.
pub open spec fn replace_spec(s: Seq<char>, pat: Seq<char>, with: Seq<char>) -> Seq<char>
    decreases s.len(),
{
    let k = find_sub(s, pat);
    if pat.len() == 0 || k < 0 || k + pat.len() > s.len() {
        s
    } else {
        s.take(k) + with + replace_spec(s.skip(k + pat.len()), pat, with)
    }
}

/// Pieces joined with a separator after each.
pub open spec fn joined_after(parts: Seq<Seq<char>>, sep: Seq<char>) -> Seq<char>
    decreases parts.len(),
{
    if parts.len() == 0 {
        Seq::empty()
    } else {
        parts[0] + sep + joined_after(parts.drop_first(), sep)
    }
}

/// Whether `pat` occurs in `s` at no position.
pub open spec fn nowhere(s: Seq<char>, pat: Seq<char>) -> bool {
    forall|i: int| 0 <= i <= s.len() ==> !#[trigger] has_prefix(s.skip(i), pat)
}

/// Whether `pat` occurs in `x + pat` only at its end.
pub open spec fn only_at_end(x: Seq<char>, pat: Seq<char>) -> bool {
    forall|i: int| 0 <= i < x.len() ==> !#[trigger] has_prefix((x + pat).skip(i), pat)
}

/// The first occurrence in `x + pat + rest` is the one after `x`.
proof fn lemma_first_after(x: Seq<char>, pat: Seq<char>, rest: Seq<char>)
    requires
        only_at_end(x, pat),
    ensures
        find_sub(x + pat + rest, pat) == x.len(),
{
    let s = x + pat + rest;
    assert forall|i: int| 0 <= i < x.len() implies !#[trigger] has_prefix(s.skip(i), pat) by {
        if has_prefix(s.skip(i), pat) {
            assert(s.skip(i).take(pat.len() as int) =~= (x + pat).skip(i).take(pat.len() as int));
            assert(has_prefix((x + pat).skip(i), pat));
        }
    }
    assert(s.skip(x.len() as int).take(pat.len() as int) =~= pat);
    crate::chars::lemma_find_sub(s, pat, x.len() as int);
}

/// Substitution replaces every occurrence: text made of pieces, each
/// followed by the pattern (which occurs in a piece and the pattern after
/// it only at that place), and a tail free of the pattern, becomes the same
/// pieces each followed by the replacement, and the tail.
pub proof fn law_replace_every(parts: Seq<Seq<char>>, tail: Seq<char>, pat: Seq<char>, with: Seq<char>)
    requires
        pat.len() > 0,
        forall|j: int| 0 <= j < parts.len() ==> only_at_end(#[trigger] parts[j], pat),
        nowhere(tail, pat),
    ensures
        replace_spec(joined_after(parts, pat) + tail, pat, with) == joined_after(parts, with) + tail,
    decreases parts.len(),
{
    if parts.len() == 0 {
        crate::chars::lemma_find_sub_none(tail, pat);
        assert(Seq::<char>::empty() + tail =~= tail);
    } else {
        let x = parts[0];
        let rest = parts.drop_first();
        assert forall|j: int| 0 <= j < rest.len() implies only_at_end(#[trigger] rest[j], pat) by {
            assert(rest[j] == parts[j + 1]);
        }
        law_replace_every(rest, tail, pat, with);
        let after = joined_after(rest, pat) + tail;
        let s = joined_after(parts, pat) + tail;
        assert(s =~= x + pat + after);
        assert(only_at_end(parts[0], pat));
        lemma_first_after(x, pat, after);
        assert(s.take(x.len() as int) =~= x);
        assert(s.skip(x.len() + pat.len() as int) =~= after);
        assert(joined_after(parts, with) + tail =~= x + with + (joined_after(rest, with) + tail));
    }
}

/// `text` with each `$name` replaced by its value, one variable after the
/// other in the order given.
pub open spec fn substitute(text: Seq<char>, vars: Seq<(Seq<char>, Seq<char>)>) -> Seq<char>
    decreases vars.len(),
{
    if vars.len() == 0 {
        text
    } else {
        replace_spec(substitute(text, vars.drop_last()), seq!['$'] + vars.last().0, vars.last().1)
    }
}

/// Inserting at the place found by scanning back over the shorter names.
proof fn lemma_insert_at(sorted: Seq<(Seq<char>, Seq<char>)>, v: (Seq<char>, Seq<char>), j: int)
    requires
        0 <= j <= sorted.len(),
        j == 0 || byte_len(sorted[j - 1].0) >= byte_len(v.0),
        forall|k: int| j <= k < sorted.len() ==> byte_len(#[trigger] sorted[k].0) < byte_len(v.0),
    ensures
        insert_by_length(sorted, v) == sorted.insert(j, v),
    decreases sorted.len(),
{
    if sorted.len() == j {
        assert(sorted.push(v) =~= sorted.insert(j, v));
    } else {
        let init = sorted.drop_last();
        assert(byte_len(sorted[sorted.len() - 1].0) < byte_len(v.0));
        assert forall|k: int| j <= k < init.len() implies byte_len(#[trigger] init[k].0) < byte_len(v.0) by {
            assert(init[k] == sorted[k]);
        }
        if j > 0 {
            assert(init[j - 1] == sorted[j - 1]);
        }
        lemma_insert_at(init, v, j);
        assert(init.insert(j, v).push(sorted.last()) =~= sorted.insert(j, v));
    }
}

/// Inserting keeps every weight at or above a bound that the inserted
/// variable also meets.
proof fn lemma_insert_bound(sorted: Seq<(Seq<char>, Seq<char>)>, v: (Seq<char>, Seq<char>), bound: nat)
    requires
        byte_len(v.0) >= bound,
        forall|k: int| 0 <= k < sorted.len() ==> byte_len(#[trigger] sorted[k].0) >= bound,
    ensures
        insert_by_length(sorted, v).len() == sorted.len() + 1,
        forall|k: int|
            0 <= k < insert_by_length(sorted, v).len() ==> byte_len(#[trigger] insert_by_length(sorted, v)[k].0)
                >= bound,
    decreases sorted.len(),
{
    if !(sorted.len() == 0 || byte_len(sorted.last().0) >= byte_len(v.0)) {
        let init = sorted.drop_last();
        assert forall|k: int| 0 <= k < init.len() implies byte_len(#[trigger] init[k].0) >= bound by {
            assert(init[k] == sorted[k]);
        }
        lemma_insert_bound(init, v, bound);
    }
}

/// Whether the names of `vars` never grow longer along the sequence.
pub open spec fn longest_first(vars: Seq<(Seq<char>, Seq<char>)>) -> bool {
    forall|i: int, j: int| 0 <= i < j < vars.len() ==> byte_len(#[trigger] vars[i].0) >= byte_len(#[trigger] vars[j].0)
}

/// Inserting into a sequence ordered longest first keeps it so, and adds
/// exactly the inserted variable.
proof fn lemma_insert_sorted(sorted: Seq<(Seq<char>, Seq<char>)>, v: (Seq<char>, Seq<char>))
    requires
        longest_first(sorted),
    ensures
        longest_first(insert_by_length(sorted, v)),
        insert_by_length(sorted, v).to_multiset() == sorted.to_multiset().insert(v),
    decreases sorted.len(),
{
    broadcast use vstd::seq_lib::group_to_multiset_ensures;

    if sorted.len() == 0 || byte_len(sorted.last().0) >= byte_len(v.0) {
        let r = sorted.push(v);
        assert forall|i: int, j: int| 0 <= i < j < r.len() implies byte_len(#[trigger] r[i].0) >= byte_len(
            #[trigger] r[j].0,
        ) by {
            if j == r.len() - 1 && i < r.len() - 1 {
                assert(byte_len(sorted[i].0) >= byte_len(sorted.last().0));
            }
        }
    } else {
        let init = sorted.drop_last();
        let last = sorted.last();
        assert forall|i: int, j: int| 0 <= i < j < init.len() implies byte_len(#[trigger] init[i].0) >= byte_len(
            #[trigger] init[j].0,
        ) by {
            assert(init[i] == sorted[i]);
            assert(init[j] == sorted[j]);
        }
        lemma_insert_sorted(init, v);
        let mid = insert_by_length(init, v);
        assert forall|k: int| 0 <= k < init.len() implies byte_len(#[trigger] init[k].0) >= byte_len(last.0) by {
            assert(init[k] == sorted[k]);
        }
        lemma_insert_bound(init, v, byte_len(last.0));
        let r = mid.push(last);
        assert forall|i: int, j: int| 0 <= i < j < r.len() implies byte_len(#[trigger] r[i].0) >= byte_len(
            #[trigger] r[j].0,
        ) by {
            if j == r.len() - 1 {
                assert(r[i] == mid[i]);
            } else {
                assert(r[i] == mid[i]);
                assert(r[j] == mid[j]);
            }
        }
        assert(sorted == init.push(last));
        assert(mid.push(last).to_multiset() =~= mid.to_multiset().insert(last));
        assert(init.push(last).to_multiset() =~= init.to_multiset().insert(last));
        assert(init.to_multiset().insert(v).insert(last) =~= init.to_multiset().insert(last).insert(v));
    }
}

/// Variables are substituted longest name first: the order in which they
/// are applied never has a longer name after a shorter one, and it holds
/// each defined variable exactly as often as it was defined.
pub proof fn law_longest_name_first(vars: Seq<(Seq<char>, Seq<char>)>)
    ensures
        longest_first(by_length(vars)),
        by_length(vars).to_multiset() == vars.to_multiset(),
    decreases vars.len(),
{
    broadcast use vstd::seq_lib::group_to_multiset_ensures;

    if vars.len() == 0 {
        assert(by_length(vars) =~= Seq::<(Seq<char>, Seq<char>)>::empty());
    } else {
        law_longest_name_first(vars.drop_last());
        lemma_insert_sorted(by_length(vars.drop_last()), vars.last());
        assert(vars == vars.drop_last().push(vars.last()));
    }
}

/// The message for an error on a numbered CSS line.
pub open spec fn css_line_error(num: nat, e: Seq<char>) -> Seq<char> {
    "CSS line "@ + decimal(num) + ": "@ + e
}

/// The nodes of some content lines, in order, where line `i` tokenized to
/// `lexed[i]`; a line of no tokens makes none; the first error stops it.
pub open spec fn css_lines(lines: Seq<LineModel>, lexed: Seq<Lexed>) -> Result<Seq<NodeModel>, Seq<char>>
    decreases lines.len(),
{
    if lines.len() == 0 {
        Ok(Seq::empty())
    } else {
        match css_lines(lines.drop_last(), lexed.drop_last()) {
            Err(e) => Err(e),
            Ok(prev) => {
                let line = lines.last();
                match lexed.last() {
                    Err(e) => Err(css_line_error(line.num, e)),
                    Ok(ts) => if ts.len() == 0 {
                        Ok(prev)
                    } else {
                        match parse_line_spec(line.level, ts) {
                            Err(e) => Err(css_line_error(line.num, e)),
                            Ok(n) => Ok(prev.push(n)),
                        }
                    },
                }
            },
        }
    }
}

/// The text that each content line of a CSS template is tokenized from,
/// in order: the line with the variables that the template defines
/// substituted, longest name first.
pub open spec fn css_texts(input: Seq<char>) -> Seq<Seq<char>> {
    let lines = source_lines(input);
    let vars = by_length(line_vars(lines));
    content_lines(lines).map_values(|l: LineModel| substitute(l.text, vars))
}

/// The nodes of a CSS template, given what tokenizing the text of each of
/// its content lines (`css_texts`) gave.
pub open spec fn css_parse_spec(input: Seq<char>, lexed: Seq<Lexed>) -> Result<Seq<NodeModel>, Seq<char>> {
    css_lines(content_lines(source_lines(input)), lexed)
}

/// Once parsing fails, it stays failed, whatever the later lines lex to.
proof fn lemma_css_lines_err(ls: Seq<LineModel>, lexed: Seq<Lexed>, k: int)
    requires
        0 <= k <= ls.len(),
        lexed.len() == ls.len(),
        css_lines(ls.take(k), lexed.take(k)) is Err,
    ensures
        css_lines(ls, lexed) == css_lines(ls.take(k), lexed.take(k)),
    decreases ls.len() - k,
{
    if k < ls.len() {
        assert(ls.take(k + 1).drop_last() =~= ls.take(k));
        assert(lexed.take(k + 1).drop_last() =~= lexed.take(k));
        lemma_css_lines_err(ls, lexed, k + 1);
    } else {
        assert(ls.take(k) =~= ls);
        assert(lexed.take(k) =~= lexed);
    }
}

/// The views of some nodes.
pub open spec fn css_node_views(v: Seq<Node>) -> Seq<NodeModel> {
    v.map_values(|n: Node| n@)
}

/// The view of a parsing result.
pub open spec fn css_nodes_result(r: Result<Vec<Node>, Vec<char>>) -> Result<Seq<NodeModel>, Seq<char>> {
    match r {
        Ok(v) => Ok(css_node_views(v@)),
        Err(e) => Err(e@),
    }
}

impl Css {
    /// Reads a `$name: value` line.
    fn var_line(text: &[char]) -> (r: Option<(Vec<char>, Vec<char>)>)
        ensures
            match r {
                Some(v) => var_line(text@) == Some((v.0@, v.1@)),
                None => var_line(text@) is None,
            },
    {
        let (a, b) = trim_bounds(text, 0, text.len());
        assert(text@.subrange(0, text@.len() as int) =~= text@);
        let ghost t = trim_spec(text@);
        if a == b || text[a] != '$' {
            return None;
        }
        let ghost rest = t.drop_first();
        let colon = find_char_from(text, a + 1, ':');
        proof {
            assert(text@.skip(a + 1).take(b - a - 1) =~= rest);
        }
        proof {
            lemma_find_char_take(text@.skip(a + 1), ':', b - a - 1);
        }
        match colon {
            Some(k) if k < b => {
                let (n0, n1) = trim_bounds(text, a + 1, k);
                let (v0, v1) = trim_bounds(text, k + 1, b);
                proof {
                    let j = k - a - 1;
                    assert(text@.subrange(a + 1, k as int) =~= rest.take(j));
                    assert(text@.subrange(k + 1, b as int) =~= rest.skip(j + 1));
                }
                let name = vstd::slice::slice_to_vec(vstd::slice::slice_subrange(text, n0, n1));
                let value = vstd::slice::slice_to_vec(vstd::slice::slice_subrange(text, v0, v1));
                Some((name, value))
            },
            _ => {
                None
            },
        }
    }
}

/// Splitting the lines splits the content lines the same way.
proof fn lemma_content_lines_concat(a: Seq<LineModel>, b: Seq<LineModel>)
    ensures
        content_lines(a + b) == content_lines(a) + content_lines(b),
    decreases b.len(),
{
    if b.len() == 0 {
        assert(a + b =~= a);
        assert(content_lines(a) + content_lines(b) =~= content_lines(a));
    } else {
        lemma_content_lines_concat(a, b.drop_last());
        assert((a + b).drop_last() =~= a + b.drop_last());
        assert((a + b).last() == b.last());
        match var_line(b.last().text) {
            Some(_) => {},
            None => {
                assert(content_lines(a) + content_lines(b.drop_last()).push(b.last())
                    =~= (content_lines(a) + content_lines(b.drop_last())).push(b.last()));
            },
        }
    }
}

/// `s` with each occurrence of `pat` replaced by `with`.
fn replace(s: &[char], pat: &[char], with: &[char]) -> (r: Vec<char>)
    requires
        pat.len() > 0,
    ensures
        r@ == replace_spec(s@, pat@, with@),
{
    let mut out: Vec<char> = Vec::new();
    let mut pos: usize = 0;
    assert(s@.skip(0) =~= s@);
    assert(out@ + replace_spec(s@, pat@, with@) =~= replace_spec(s@, pat@, with@));
    loop
        invariant
            pos <= s.len(),
            pat.len() > 0,
            out@ + replace_spec(s@.skip(pos as int), pat@, with@) == replace_spec(s@, pat@, with@),
        decreases s.len() - pos,
    {
        let ghost rest = s@.skip(pos as int);
        let ghost before = out@;
        match find_str(s, pos, pat) {
            None => {
                let tail = vstd::slice::slice_subrange(s, pos, s.len());
                push_all(&mut out, tail);
                assert(tail@ =~= rest);
                return out;
            },
            Some(k) => {
                let piece = vstd::slice::slice_subrange(s, pos, k);
                push_all(&mut out, piece);
                push_all(&mut out, with);
                proof {
                    let j = k - pos;
                    assert(s@.skip(k as int).len() == s.len() - k);
                    assert(piece@ =~= rest.take(j));
                    assert(rest.skip(j + pat@.len()) =~= s@.skip(k + pat@.len()));
                    assert(replace_spec(rest, pat@, with@) == rest.take(j) + with@ + replace_spec(
                        rest.skip(j + pat@.len()),
                        pat@,
                        with@,
                    ));
                    assert(out@ + replace_spec(s@.skip(k + pat@.len()), pat@, with@) =~= before
                        + replace_spec(rest, pat@, with@));
                }
                pos = k + pat.len();
            },
        }
    }
}

/// A fresh copy of a name and its value.
fn copy_pair(p: &(Vec<char>, Vec<char>)) -> (r: (Vec<char>, Vec<char>))
    ensures
        r.0@ == p.0@,
        r.1@ == p.1@,
{
    (copy_chars(&p.0), copy_chars(&p.1))
}

impl Css {
    /// The error for a numbered line.
    fn at_line(num: usize, e: &[char]) -> (m: Vec<char>)
        ensures
            m@ == css_line_error(num as nat, e@),
    {
        let mut message: Vec<char> = Vec::new();
        push_str(&mut message, "CSS line ");
        push_decimal_chars(num as u64, &mut message);
        push_str(&mut message, ": ");
        push_all(&mut message, e);
        assert(message@ =~= css_line_error(num as nat, e@));
        message
    }

    /// `text` with each `$name` replaced by its value, one variable after
    /// the other.
    fn substitute(text: &[char], vars: &Vec<(Vec<char>, Vec<char>)>) -> (r: Vec<char>)
        ensures
            r@ == substitute(text@, pairs_view(vars@)),
    {
        let ghost vs = pairs_view(vars@);
        let mut current = copy_chars(text);
        let mut i: usize = 0;
        assert(vs.take(0) =~= Seq::<(Seq<char>, Seq<char>)>::empty());
        while i < vars.len()
            invariant
                i <= vars@.len(),
                vs == pairs_view(vars@),
                current@ == substitute(text@, vs.take(i as int)),
            decreases vars.len() - i,
        {
            let mut pat: Vec<char> = Vec::new();
            pat.push('$');
            push_all(&mut pat, &vars[i].0);
            current = replace(&current, &pat, &vars[i].1);
            proof {
                assert(vs.take(i as int + 1).drop_last() =~= vs.take(i as int));
                assert(vs.take(i as int + 1).last() == vs[i as int]);
                assert(pat@ =~= seq!['$'] + vs[i as int].0);
            }
            i += 1;
        }
        assert(vs.take(vars@.len() as int) =~= vs);
        current
    }

    /// The variables ordered by the byte length of their names, longest
    /// first; names of equal length keep their order.
    fn sort_by_length(vars: &Vec<(Vec<char>, Vec<char>)>) -> (r: Vec<(Vec<char>, Vec<char>)>)
        ensures
            pairs_view(r@) == by_length(pairs_view(vars@)),
    {
        let ghost vs = pairs_view(vars@);
        let mut sorted: Vec<(Vec<char>, Vec<char>)> = Vec::new();
        let mut i: usize = 0;
        assert(vs.take(0) =~= Seq::<(Seq<char>, Seq<char>)>::empty());
        assert(pairs_view(sorted@) =~= Seq::<(Seq<char>, Seq<char>)>::empty());
        while i < vars.len()
            invariant
                i <= vars@.len(),
                vs == pairs_view(vars@),
                pairs_view(sorted@) == by_length(vs.take(i as int)),
            decreases vars.len() - i,
        {
            let entry = copy_pair(&vars[i]);
            let weight = byte_size(&entry.0);
            let ghost sv = pairs_view(sorted@);
            let ghost v = (entry.0@, entry.1@);
            let mut j = sorted.len();
            while j > 0 && byte_size(&sorted[j - 1].0) < weight
                invariant
                    j <= sorted.len(),
                    sv == pairs_view(sorted@),
                    weight == byte_len(v.0),
                    forall|k: int| j <= k < sv.len() ==> byte_len(#[trigger] sv[k].0) < byte_len(v.0),
                decreases j,
            {
                assert(sv[j - 1] == (sorted@[j - 1].0@, sorted@[j - 1].1@));
                j -= 1;
            }
            proof {
                if j > 0 {
                    assert(sv[j - 1] == (sorted@[j - 1].0@, sorted@[j - 1].1@));
                }
                lemma_insert_at(sv, v, j as int);
            }
            sorted.insert(j, entry);
            proof {
                assert(pairs_view(sorted@) =~= sv.insert(j as int, v));
                assert(vs.take(i as int + 1).drop_last() =~= vs.take(i as int));
                assert(vs.take(i as int + 1).last() == vs[i as int]);
                assert(vs[i as int] == v);
            }
            i += 1;
        }
        assert(vs.take(vars@.len() as int) =~= vs);
        sorted
    }

    /// The `$name: value` definitions among some lines, in order.
    fn collect_vars(lines: &Vec<Line>) -> (vars: Vec<(Vec<char>, Vec<char>)>)
        ensures
            pairs_view(vars@) == line_vars(line_views(lines@)),
    {
        let ghost ls = line_views(lines@);
        let mut vars: Vec<(Vec<char>, Vec<char>)> = Vec::new();
        let mut i: usize = 0;
        assert(ls.take(0) =~= Seq::<LineModel>::empty());
        assert(pairs_view(vars@) =~= Seq::<(Seq<char>, Seq<char>)>::empty());
        while i < lines.len()
            invariant
                i <= lines@.len(),
                line_views(lines@) == ls,
                pairs_view(vars@) == line_vars(ls.take(i as int)),
            decreases lines.len() - i,
        {
            proof {
                assert(ls[i as int] == lines@[i as int]@);
                assert(ls.take(i as int + 1).drop_last() =~= ls.take(i as int));
                assert(ls.take(i as int + 1).last() == ls[i as int]);
            }
            match Self::var_line(&lines[i].text) {
                Some(v) => {
                    let ghost before = vars@;
                    vars.push(v);
                    assert(pairs_view(vars@) =~= pairs_view(before).push((v.0@, v.1@)));
                },
                None => {},
            }
            i += 1;
        }
        assert(ls.take(lines@.len() as int) =~= ls);
        vars
    }

    /// The text that each content line of a CSS template is tokenized
    /// from, in order: the `$name: value` lines define variables, which are
    /// substituted into the other lines, longest name first.
    pub fn line_texts(input: &[char]) -> (texts: Vec<Vec<char>>)
        requires
            byte_len(input@) <= usize::MAX,
        ensures
            strings_view(texts@) == css_texts(input@),
    {
        let lines = Source::lines(input);
        let ghost ls = source_lines(input@);
        let vars = Self::collect_vars(&lines);
        let sorted = Self::sort_by_length(&vars);
        let ghost sv = by_length(line_vars(ls));
        let mut texts: Vec<Vec<char>> = Vec::new();
        let mut i: usize = 0;
        assert(ls.take(0) =~= Seq::<LineModel>::empty());
        assert(strings_view(texts@) =~= Seq::<Seq<char>>::empty());
        while i < lines.len()
            invariant
                i <= lines@.len(),
                line_views(lines@) == ls,
                ls == source_lines(input@),
                pairs_view(sorted@) == sv,
                sv == by_length(line_vars(ls)),
                strings_view(texts@) == content_lines(ls.take(i as int)).map_values(
                    |l: LineModel| substitute(l.text, sv),
                ),
            decreases lines.len() - i,
        {
            let line = &lines[i];
            proof {
                assert(ls[i as int] == line@);
                assert(ls.take(i as int + 1).drop_last() =~= ls.take(i as int));
                assert(ls.take(i as int + 1).last() == ls[i as int]);
            }
            if Self::var_line(&line.text).is_none() {
                let text = Self::substitute(&line.text, &sorted);
                let ghost before = texts@;
                texts.push(text);
                proof {
                    let cl = content_lines(ls.take(i as int));
                    let f = |l: LineModel| substitute(l.text, sv);
                    assert(content_lines(ls.take(i as int + 1)) == cl.push(line@));
                    assert(text@ == substitute(line@.text, sv));
                    assert(strings_view(texts@) =~= strings_view(before).push(text@));
                    assert(cl.push(line@).map_values(f) =~= cl.map_values(f).push(f(line@)));
                }
            }
            i += 1;
        }
        assert(ls.take(lines@.len() as int) =~= ls);
        texts
    }

    /// The nodes of a CSS template, given what tokenizing the text of each
    /// of its content lines gave, in order.
    pub fn parse_lexed(input: &[char], lexed: &Vec<Result<Vec<Token>, Vec<char>>>) -> (r: Result<
        Vec<Node>,
        Vec<char>,
    >)
        requires
            byte_len(input@) <= usize::MAX,
            lexed@.len() == content_lines(source_lines(input@)).len(),
        ensures
            css_nodes_result(r) == css_parse_spec(input@, lexed_views(lexed@)),
    {
        let ghost all = lexed_views(lexed@);
        let lines = Source::lines(input);
        let ghost ls = source_lines(input@);
        let ghost total = content_lines(ls).len();
        let mut nodes: Vec<Node> = Vec::new();
        let mut i: usize = 0;
        let mut j: usize = 0;
        let count = lexed.len();
        assert(ls.take(0) =~= Seq::<LineModel>::empty());
        assert(all.take(0) =~= Seq::<Lexed>::empty());
        assert(css_node_views(nodes@) =~= Seq::<NodeModel>::empty());
        while i < lines.len()
            invariant
                i <= lines@.len(),
                line_views(lines@) == ls,
                ls == source_lines(input@),
                total == content_lines(ls).len(),
                all.len() == total,
                j == content_lines(ls.take(i as int)).len(),
                count == lexed@.len(),
                j <= total,
                all == lexed_views(lexed@),
                css_lines(content_lines(ls.take(i as int)), all.take(content_lines(ls.take(i as int)).len() as int))
                    == Ok::<Seq<NodeModel>, Seq<char>>(css_node_views(nodes@)),
            decreases lines.len() - i,
        {
            let line = &lines[i];
            let ghost cl = content_lines(ls.take(i as int));
            let ghost done = cl.len();
            proof {
                assert(ls[i as int] == line@);
                assert(ls.take(i as int + 1).drop_last() =~= ls.take(i as int));
                assert(ls.take(i as int + 1).last() == ls[i as int]);
                lemma_content_lines_concat(ls.take(i as int + 1), ls.skip(i as int + 1));
                assert(ls.take(i as int + 1) + ls.skip(i as int + 1) =~= ls);
            }
            if Self::var_line(&line.text).is_none() {
                let ghost next = cl.push(line@);
                proof {
                    assert(content_lines(ls.take(i as int + 1)) == next);
                    assert(next.drop_last() =~= cl);
                    assert(content_lines(ls).take(next.len() as int) =~= next);
                }
                assert(j < count);
                let result = &lexed[j];
                proof {
                    assert(lexed_view(*result) == all[done as int]);
                }
                let ghost upto = all.take(next.len() as int);
                proof {
                    assert(next.len() == done + 1);
                    assert(upto.drop_last() =~= all.take(done as int));
                    assert(upto.last() == all[done as int]);
                    assert(next.last() == line@);
                }
                let tokens = match result {
                    Ok(tokens) => copy_tokens(tokens),
                    Err(e) => {
                        let message = Self::at_line(line.num, &e);
                        proof {
                            assert(css_lines(next, upto) == Err::<Seq<NodeModel>, Seq<char>>(message@));
                            lemma_css_lines_err(content_lines(ls), all, next.len() as int);
                            assert(content_lines(ls).take(next.len() as int) == next);
                            assert(css_lines(content_lines(ls), all) == Err::<Seq<NodeModel>, Seq<char>>(message@));
                            assert(css_parse_spec(input@, all) == Err::<Seq<NodeModel>, Seq<char>>(message@));
                        }
                        return Err(message);
                    },
                };
                if tokens.len() > 0 {
                    match Node::parse(line.level, tokens) {
                        Ok(node) => {
                            let ghost before = nodes@;
                            nodes.push(node);
                            assert(css_node_views(nodes@) =~= css_node_views(before).push(node@));
                        },
                        Err(e) => {
                            let message = Self::at_line(line.num, &e);
                            proof {
                                assert(css_lines(next, upto) == Err::<Seq<NodeModel>, Seq<char>>(message@));
                                lemma_css_lines_err(content_lines(ls), all, next.len() as int);
                                assert(content_lines(ls).take(next.len() as int) == next);
                                assert(css_lines(content_lines(ls), all) == Err::<Seq<NodeModel>, Seq<char>>(message@));
                                assert(css_parse_spec(input@, all) == Err::<Seq<NodeModel>, Seq<char>>(message@));
                            }
                            return Err(message);
                        },
                    }
                }
                j += 1;
            }
            i += 1;
        }
        assert(ls.take(lines@.len() as int) =~= ls);
        assert(all.take(total as int) =~= all);
        Ok(nodes)
    }

    /// The nodes of a CSS template: the text of each content line
    /// (`line_texts`) is tokenized and the results parsed (`parse_lexed`).
    /// This is what the template gives for some outcomes of tokenizing.
    pub fn parse(input: &[char]) -> (r: Result<Vec<Node>, Vec<char>>)
        requires
            byte_len(input@) <= usize::MAX,
        ensures
            exists|lexed: Seq<Lexed>|
                #![trigger css_parse_spec(input@, lexed)]
                lexed.len() == content_lines(source_lines(input@)).len() && lex_outcomes_ok(lexed)
                    && css_nodes_result(r) == css_parse_spec(input@, lexed),
    {
        let texts = Self::line_texts(input);
        let mut lexed: Vec<Result<Vec<Token>, Vec<char>>> = Vec::new();
        let mut i: usize = 0;
        assert(lexed_views(lexed@) =~= Seq::<Lexed>::empty());
        while i < texts.len()
            invariant
                i <= texts@.len(),
                lexed@.len() == i,
                lex_outcomes_ok(lexed_views(lexed@)),
            decreases texts.len() - i,
        {
            let one = Source::tokenize(&texts[i]);
            let ghost before = lexed_views(lexed@);
            lexed.push(one);
            proof {
                assert(lexed_views(lexed@) =~= before.push(lexed_view(one)));
                assert forall|j: int| 0 <= j < lexed_views(lexed@).len() implies lex_outcome_ok(
                    #[trigger] lexed_views(lexed@)[j],
                ) by {
                    if j < before.len() {
                        assert(lexed_views(lexed@)[j] == before[j]);
                    }
                }
            }
            i += 1;
        }
        proof {
            assert(strings_view(texts@).len() == texts@.len());
            assert(css_texts(input@).len() == content_lines(source_lines(input@)).len());
        }
        let ghost outcomes = lexed_views(lexed@);
        let r = Self::parse_lexed(input, &lexed);
        assert(css_nodes_result(r) == css_parse_spec(input@, outcomes));
        r
    }
}

} // verus!
