//! The library's parts on concrete inputs: buffers, escaping, text helpers,
//! lines and tokens, and the errors of both template languages.

use std::borrow::Cow;

use tent::body::{Body, Sink};
use tent::chars::{byte_count, byte_size, chars_of};
use tent::compile::{Compiler, Mode};
use tent::css::{Css, Item};
use tent::html::emit::{Emission, Stmt};
use tent::html::parse::Html as Template;
use tent::html::Content;
use tent::indent::Indent;
use tent::markup::Html;
use tent::source::{Source, Token};
use tent::text::Text;

fn text(chars: &[char]) -> String {
    chars.iter().collect()
}

fn html_error(source: &str) -> String {
    match Compiler::run_html(source, Mode::Markup) {
        Ok(_) => panic!("`{source}` should be refused"),
        Err(e) => text(&e),
    }
}

fn static_html(source: &str) -> String {
    match Compiler::run_html(source, Mode::Markup) {
        Ok(Emission::Static(t)) => text(&t),
        Ok(Emission::Dynamic { .. }) => panic!("`{source}` should be static"),
        Err(e) => panic!("{}", text(&e)),
    }
}

fn css(source: &str) -> Result<String, String> {
    match Compiler::run_css(source) {
        Ok(t) => Ok(text(&t)),
        Err(e) => Err(text(&e)),
    }
}

fn escaped(s: &str) -> String {
    let mut out = String::new();
    s.escaped(&mut out);
    out
}

// ---------------------------------------------------------------------------
// Body and escaping
// ---------------------------------------------------------------------------

#[test]
fn body_len_counts_bytes_of_every_segment() {
    let mut body = Body::with_capacity(2);
    assert!(body.is_empty());
    assert_eq!(body.len(), 0);
    body.put_static("ab");
    body.put_owned("é");
    assert!(!body.is_empty());
    assert_eq!(body.len(), 4);
    assert_eq!(body.finish(), "abé");
}

#[test]
fn body_from_static_holds_the_text() {
    let body = Body::from_static("héllo");
    assert_eq!(body.len(), "héllo".len());
    assert_eq!(body.finish(), "héllo");
}

#[test]
fn string_sink_appends() {
    let mut out = String::from("x");
    out.put_static("<");
    out.put_owned("y");
    assert_eq!(out, "x<y");
}

#[test]
fn escaping_replaces_the_five_specials() {
    assert_eq!(escaped("a<b>&\"'c"), "a&lt;b&gt;&amp;&quot;&#x27;c");
}

#[test]
fn escaping_leaves_plain_text() {
    assert_eq!(escaped("plain text, ünïcode"), "plain text, ünïcode");
    assert_eq!(escaped(""), "");
}

#[test]
fn escaping_is_piecewise() {
    let whole = escaped("a<b&c");
    let parts = escaped("a<b") + &escaped("&c");
    assert_eq!(whole, parts);
}

#[test]
fn escaping_into_a_body_tracks_len() {
    let mut body = Body::with_capacity(1);
    "x & y".escaped(&mut body);
    let len = body.len();
    let out = body.finish();
    assert_eq!(out, "x &amp; y");
    assert_eq!(len, out.len());
}

#[test]
fn raw_writes_as_is() {
    let mut out = String::new();
    "<b>".raw(&mut out);
    String::from("&").raw(&mut out);
    assert_eq!(out, "<b>&");
}

#[test]
fn numbers_and_booleans_render_in_decimal() {
    let mut out = String::new();
    255u8.escaped(&mut out);
    out.put_static(" ");
    (-128i8).escaped(&mut out);
    out.put_static(" ");
    i64::MIN.raw(&mut out);
    out.put_static(" ");
    u64::MAX.escaped(&mut out);
    out.put_static(" ");
    0usize.escaped(&mut out);
    out.put_static(" ");
    (-1isize).raw(&mut out);
    out.put_static(" ");
    65535u16.escaped(&mut out);
    out.put_static(" ");
    (-32768i16).escaped(&mut out);
    out.put_static(" ");
    4000000000u32.raw(&mut out);
    out.put_static(" ");
    (-7i32).escaped(&mut out);
    out.put_static(" ");
    true.escaped(&mut out);
    out.put_static(" ");
    false.raw(&mut out);
    assert_eq!(
        out,
        "255 -128 -9223372036854775808 18446744073709551615 0 -1 65535 -32768 4000000000 -7 true false"
    );
}

#[test]
fn borrowed_and_owned_text_escape_alike() {
    let mut out = String::new();
    let cow: Cow<'_, str> = Cow::Owned(String::from("<i>"));
    cow.escaped(&mut out);
    let reference: &&str = &"'";
    reference.escaped(&mut out);
    String::from(">").escaped(&mut out);
    assert_eq!(out, "&lt;i&gt;&#x27;&gt;");
}

// ---------------------------------------------------------------------------
// Text helpers
// ---------------------------------------------------------------------------

#[test]
fn camel_case_becomes_dashed() {
    assert_eq!(text(&Text::camel_to_dashed(&chars_of("fontSize"))), "font-size");
    assert_eq!(text(&Text::camel_to_dashed(&chars_of("plain"))), "plain");
    assert_eq!(text(&Text::camel_to_dashed(&chars_of("ÀB"))), "-à-b");
}

#[test]
fn unquote_resolves_escapes() {
    let literal = chars_of("\"a\\nb\\q\\\\\\t\\\"\"");
    assert_eq!(text(&Text::unquote(&literal)), "a\nb\\q\\\t\"");
}

#[test]
fn unquote_keeps_a_final_backslash() {
    let literal = chars_of("\"ab\\\"");
    assert_eq!(text(&Text::unquote(&literal)), "ab\\");
}

#[test]
fn attribute_names_are_dashed_but_view_box() {
    assert_eq!(text(&Template::attr_name(&chars_of("dataId"))), "data-id");
    assert_eq!(text(&Template::attr_name(&chars_of("viewBox"))), "viewBox");
}

#[test]
fn byte_counts_match_utf8() {
    let chars = chars_of("aé€😀");
    assert_eq!(byte_count(&chars), Some("aé€😀".len()));
    assert_eq!(byte_size(&chars), "aé€😀".len() as u128);
}

#[test]
fn selector_names_nest_under_their_namespace() {
    let joined = Item::join_name(&chars_of(".p"), &chars_of(".a, &:hover"));
    assert_eq!(text(&joined), ".p .a, .p:hover");
    let single = Item::join_name(&chars_of(".p"), &chars_of("&.on"));
    assert_eq!(text(&single), ".p.on");
}

// ---------------------------------------------------------------------------
// Lines and tokens
// ---------------------------------------------------------------------------

#[test]
fn lines_skip_blanks_and_comments() {
    let lines = Source::lines(&chars_of("a\n\n  // c\n  b\r\n\tc"));
    assert_eq!(lines.len(), 3);
    assert_eq!((lines[0].num, lines[0].level, text(&lines[0].text)), (1, 0, "a".to_string()));
    assert_eq!((lines[1].num, lines[1].level, text(&lines[1].text)), (4, 2, "  b".to_string()));
    assert_eq!((lines[2].num, lines[2].level, text(&lines[2].text)), (5, 1, "\tc".to_string()));
}

#[test]
fn tokenize_splits_rust_tokens() {
    let tokens = Source::tokenize(&chars_of("div .x (y) \"s\"")).unwrap();
    assert_eq!(tokens.len(), 5);
    assert!(matches!(&tokens[0], Token::Ident(t) if text(t) == "div"));
    assert!(matches!(&tokens[1], Token::Punct('.')));
    assert!(matches!(&tokens[2], Token::Ident(t) if text(t) == "x"));
    assert!(
        matches!(&tokens[3], Token::Group { delimited, inner } if text(delimited) == "(y)" && text(inner) == "y")
    );
    assert!(matches!(&tokens[4], Token::Literal(t) if text(t) == "\"s\""));
    assert_eq!(text(&tokens[4].describe()), "\"s\"");
    assert_eq!(text(&tokens[1].describe()), ".");
}

#[test]
fn tokenize_reports_lexing_errors() {
    let error = Source::tokenize(&chars_of("\"open")).err().unwrap();
    assert!(text(&error).starts_with("failed to tokenize: "));
}

#[test]
fn bang_before_a_group_is_raw() {
    let tokens = Source::tokenize(&chars_of("span !{x} !")).unwrap();
    let merged = Template::merge_raw(tokens);
    assert_eq!(merged.len(), 3);
    assert!(matches!(&merged[1], Token::RawGroup(t) if text(t) == "x"));
    assert!(matches!(&merged[2], Token::Punct('!')));
}

// ---------------------------------------------------------------------------
// HTML templates
// ---------------------------------------------------------------------------

#[test]
fn html_attributes_ids_and_void_tags() {
    assert_eq!(static_html("a href=\"x\" \"link\""), "<a href=\"x\">link</a>");
    assert_eq!(static_html("input disabled"), "<input disabled>");
    assert_eq!(static_html("div #main"), "<div id=\"main\"></div>");
    assert_eq!(static_html(".a.b \"t\""), "<div class=\"a b\">t</div>");
    assert_eq!(static_html("svg viewBox=\"0 0 1 1\""), "<svg viewBox=\"0 0 1 1\"></svg>");
    assert_eq!(static_html("div dataId=\"x\""), "<div data-id=\"x\"></div>");
}

#[test]
fn html_pipe_lines_are_text() {
    assert_eq!(static_html("p\n  | a \"b\" \\ c"), "<p>a \"b\" \\ c</p>");
}

#[test]
fn html_siblings_at_top_make_a_fragment() {
    assert_eq!(static_html("p \"1\"\np \"2\""), "<p>1</p><p>2</p>");
}

#[test]
fn html_static_markup_and_body_agree() {
    let source = "ul\n  li \"a\"\n  li \"b\"";
    let markup = static_html(source);
    match Compiler::run_html(source, Mode::Body) {
        Ok(Emission::Static(t)) => assert_eq!(text(&t), markup),
        _ => panic!("a static template expands to static text"),
    }
}

#[test]
fn html_dynamic_plan_reserves_static_bytes() {
    match Compiler::run_html("span (name)", Mode::Markup) {
        Ok(Emission::Dynamic { reserve, stmts }) => {
            assert_eq!(reserve, "<span></span>".len());
            assert_eq!(stmts.len(), 3);
            assert!(matches!(&stmts[0], Stmt::PutStatic(t) if text(t) == "<span>"));
            assert!(matches!(&stmts[1], Stmt::Escaped(t) if text(t) == "name"));
            assert!(matches!(&stmts[2], Stmt::PutStatic(t) if text(t) == "</span>"));
        }
        _ => panic!("an expression makes the template dynamic"),
    }
}

#[test]
fn html_body_plan_reserves_parts() {
    match Compiler::run_html("span (name)", Mode::Body) {
        Ok(Emission::Dynamic { reserve, .. }) => assert_eq!(reserve, 3),
        _ => panic!("an expression makes the template dynamic"),
    }
}

#[test]
fn html_raw_group_plan() {
    match Compiler::run_html("span !{markup}", Mode::Markup) {
        Ok(Emission::Dynamic { stmts, .. }) => {
            assert!(matches!(&stmts[1], Stmt::Raw(t) if text(t) == "markup"));
        }
        _ => panic!("a raw group makes the template dynamic"),
    }
}

#[test]
fn html_refuses_an_unexpected_token() {
    assert_eq!(html_error("div ="), "HTML line 1: HTML: unexpected `=`");
}

#[test]
fn html_refuses_a_malformed_for() {
    assert_eq!(
        html_error("ul\n  - for x"),
        "HTML line 2: `- for VAR in EXPR` expected, got `- for x`"
    );
}

#[test]
fn html_refuses_an_empty_template() {
    assert_eq!(html_error("// nothing here\n\n"), "HTML: empty template");
}

#[test]
fn html_refuses_a_block_under_text() {
    assert_eq!(html_error("\"a\"\n  b"), "HTML: this line cannot hold a nested block");
}

#[test]
fn html_refuses_an_else_without_if() {
    assert_eq!(
        html_error("- else\n  b \"x\""),
        "HTML: a literal is not quoted, or an `- else` has no `- if`"
    );
}

#[test]
fn html_reports_lexing_errors_with_the_line() {
    assert!(html_error("div\n  span \"open").starts_with("HTML line 2: failed to tokenize: "));
}

// ---------------------------------------------------------------------------
// CSS templates
// ---------------------------------------------------------------------------

#[test]
fn css_nested_rules_are_flattened() {
    assert_eq!(css(".a\n  .b\n    color: \"red\""), Ok(".a .b {color: red;}".to_string()));
    assert_eq!(
        css(".a\n  color: \"blue\"\n  .b\n    color: \"red\""),
        Ok(".a .b {color: red;}.a {color: blue;}".to_string())
    );
}

#[test]
fn css_ampersand_joins_directly() {
    assert_eq!(css(".a\n  &:hover\n    color: \"red\""), Ok(".a:hover {color: red;}".to_string()));
}

#[test]
fn css_comma_lists_nest_each_selector() {
    assert_eq!(
        css(".p\n  .a, .b\n    color: \"red\""),
        Ok(".p .a, .p .b {color: red;}".to_string())
    );
}

#[test]
fn css_media_wraps_the_enclosing_rule() {
    assert_eq!(
        css(".a\n  @media screen\n    color: \"red\""),
        Ok("@media screen {.a {color: red;}}".to_string())
    );
}

#[test]
fn css_properties_are_dashed() {
    assert_eq!(css(".x\n  fontSize: \"1px\""), Ok(".x {font-size: 1px;}".to_string()));
}

#[test]
fn css_variables_are_substituted() {
    assert_eq!(css("$main: red\n.a\n  color: \"$main\""), Ok(".a {color: red;}".to_string()));
}

#[test]
fn css_longer_variable_names_go_first() {
    assert_eq!(
        css("$a: 1\n$ab: 2\n.x\n  width: \"$ab\"\n  height: \"$a\""),
        Ok(".x {width: 2;height: 1;}".to_string())
    );
}

#[test]
fn css_empty_template_is_empty() {
    assert_eq!(css(""), Ok(String::new()));
}

#[test]
fn css_refuses_a_top_level_declaration() {
    assert_eq!(css("color: \"red\""), Err("CSS: top-level declaration".to_string()));
}

#[test]
fn css_refuses_children_of_a_declaration() {
    assert_eq!(
        css(".a\n  color: \"red\"\n    .b"),
        Err("CSS: declaration `color` cannot have children".to_string())
    );
}

#[test]
fn css_refuses_an_unexpected_token() {
    assert_eq!(css("\"x\""), Err("CSS line 1: CSS: unexpected `\"x\"`".to_string()));
}

#[test]
fn css_refuses_an_incomplete_line() {
    assert_eq!(css(".a\n  b:"), Err("CSS line 2: CSS: incomplete line".to_string()));
}

#[test]
fn css_refuses_an_unquoted_value() {
    assert_eq!(css(".a\n  width: 1"), Err("CSS: malformed literal `1`".to_string()));
}

#[test]
fn css_refuses_a_malformed_selector_literal() {
    assert_eq!(css("a 1"), Err("CSS line 1: CSS: malformed literal `1`".to_string()));
}

#[test]
fn css_reports_lexing_errors_with_the_line() {
    let error = css(".a \"open").err().unwrap();
    assert!(error.starts_with("CSS line 1: failed to tokenize: "));
}

// ---------------------------------------------------------------------------
// Laws on concrete values
// ---------------------------------------------------------------------------

fn html_tree(source: &str) -> Content {
    let nodes = Template::parse(&chars_of(source)).ok().unwrap();
    let roots = Indent::build(nodes).ok().unwrap();
    Template::root(roots).ok().unwrap()
}

#[test]
fn static_tree_compiles_to_one_write_of_its_markup() {
    let tree = html_tree("div\n  span \"hello\"\n  br");
    assert!(tree.is_static());
    let markup = tree.render_static();
    assert_eq!(text(&markup), "<div><span>hello</span><br></div>");
    let stmts = tree.statements();
    assert_eq!(stmts.len(), 1);
    assert!(matches!(&stmts[0], Stmt::PutStatic(t) if t == &markup));
}

#[test]
fn static_bytes_of_a_static_tree_are_exact() {
    let tree = html_tree("p.note title=\"é\" \"naïve\"");
    let markup = text(&tree.render_static());
    assert_eq!(markup, "<p class=\"note\" title=\"é\">naïve</p>");
    assert_eq!(tree.static_bytes(), Some(markup.len()));
}

#[test]
fn both_modes_write_the_same() {
    let source = "ul\n  - for n in 0u32..3\n    li (n)";
    let markup = Compiler::run_html(source, Mode::Markup).ok().unwrap();
    let body = Compiler::run_html(source, Mode::Body).ok().unwrap();
    match (markup, body) {
        (Emission::Dynamic { stmts: a, .. }, Emission::Dynamic { stmts: b, .. }) => {
            assert_eq!(a.len(), b.len());
            assert!(matches!(&a[1], Stmt::For { .. }));
            assert!(matches!(&b[1], Stmt::For { .. }));
        }
        _ => panic!("a loop makes the template dynamic in both modes"),
    }
}

#[test]
fn flattened_rules_hold_only_declarations() {
    let item = Item::Node {
        name: chars_of(".a"),
        children: vec![
            Item::Declaration { property: chars_of("color"), value: chars_of("\"red\"") },
            Item::Node {
                name: chars_of("&.b"),
                children: vec![Item::Declaration { property: chars_of("margin"), value: chars_of("\"0\"") }],
            },
        ],
    };
    let (declaration, rules) = item.flatten(&None);
    assert!(declaration.is_none());
    assert_eq!(rules.len(), 2);
    for rule in &rules {
        match rule {
            Item::Node { children, .. } => {
                assert!(children.iter().all(|c| matches!(c, Item::Declaration { .. })));
            }
            Item::Declaration { .. } => panic!("a flattened rule is a rule"),
        }
    }
    let sheet = Css::render(vec![item]).ok().unwrap();
    assert_eq!(text(&sheet), ".a.b {margin: 0;}.a {color: red;}");
}

#[test]
fn text_without_backslashes_unquotes_to_itself() {
    assert_eq!(text(&Text::unquote(&chars_of("\"plain words\""))), "plain words");
}

#[test]
fn html_void_element_ignores_what_it_holds() {
    match Compiler::run_html("br\n  - else\n    b \"x\"", Mode::Markup) {
        Ok(Emission::Dynamic { reserve, stmts }) => {
            assert_eq!(reserve, 4);
            assert_eq!(stmts.len(), 1);
            assert!(matches!(&stmts[0], Stmt::PutStatic(t) if text(t) == "<br>"));
        }
        _ => panic!("a void element with a block expands to its tag"),
    }
}

#[test]
fn lines_of_one_level_become_sibling_roots() {
    let nodes = Template::parse(&chars_of("a\nb \"x\"\nc")).ok().unwrap();
    let roots = Indent::build(nodes).ok().unwrap();
    assert_eq!(roots.len(), 3);
    assert!(matches!(&roots[0], Content::Element { tag, .. } if text(tag) == "a"));
    assert!(matches!(&roots[1], Content::Element { tag, contents, .. } if text(tag) == "b" && contents.len() == 1));
    assert!(matches!(&roots[2], Content::Element { tag, .. } if text(tag) == "c"));
}

#[test]
fn body_writes_come_out_in_order() {
    let mut body = Body::from_static("a");
    body.put_owned("bc");
    body.put_static("");
    body.put_static("d");
    assert_eq!(body.len(), 4);
    assert_eq!(body.finish(), "abcd");
}

#[test]
fn merge_else_joins_an_if_with_its_else_lines() {
    let line = |t: &str| Content::Text(chars_of(t));
    let siblings = vec![
        Content::If { condition: chars_of("a"), contents: vec![line("\"1\"")], else_branch: None },
        Content::ElseIf { condition: chars_of("b"), contents: vec![line("\"2\"")] },
        Content::Else { contents: vec![line("\"3\"")] },
        line("\"after\""),
    ];
    let merged = tent::html::parse::Node::merge_else(siblings);
    assert_eq!(merged.len(), 2);
    match &merged[0] {
        Content::If { condition, else_branch: Some(tail), .. } => {
            assert_eq!(text(condition), "a");
            match &**tail {
                Content::If { condition, else_branch: Some(last), .. } => {
                    assert_eq!(text(condition), "b");
                    assert!(matches!(&**last, Content::Else { .. }));
                }
                _ => panic!("the else if becomes a nested if"),
            }
        }
        _ => panic!("the if keeps its place"),
    }
    assert!(matches!(&merged[1], Content::Text(t) if text(t) == "\"after\""));
}

#[test]
fn css_line_texts_substitute_longest_name_first() {
    let texts = Css::line_texts(&chars_of("$a: \"x\"\n$ab: \"y\"\n.k\n  color: $ab"));
    let texts: Vec<String> = texts.iter().map(|t| text(t)).collect();
    assert_eq!(texts, vec![".k".to_string(), "  color: \"y\"".to_string()]);
}

#[test]
fn css_parse_reads_the_substituted_lines() {
    let nodes = Css::parse(&chars_of("$a: \"x\"\n$ab: \"y\"\n.k\n  color: $ab")).ok().unwrap();
    assert_eq!(nodes.len(), 2);
    assert_eq!(nodes[0].level, 0);
    assert!(matches!(&nodes[0].item, Item::Node { name, children } if text(name) == ".k" && children.is_empty()));
    assert_eq!(nodes[1].level, 2);
    assert!(
        matches!(&nodes[1].item, Item::Declaration { property, value } if text(property) == "color" && text(value) == "\"y\"")
    );
}

#[test]
fn css_parse_lexed_uses_the_tokens_given() {
    let lexed = vec![Ok(vec![Token::Punct('.'), Token::Ident(chars_of("z"))]), Err(chars_of("failed to tokenize: x"))];
    let error = Css::parse_lexed(&chars_of(".a\n  b: \"1\""), &lexed).err().unwrap();
    assert_eq!(text(&error), "CSS line 2: failed to tokenize: x");
    let lexed = vec![Ok(vec![Token::Punct('.'), Token::Ident(chars_of("z"))])];
    let nodes = Css::parse_lexed(&chars_of(".a"), &lexed).ok().unwrap();
    assert!(matches!(&nodes[0].item, Item::Node { name, .. } if text(name) == ".z"));
}

#[test]
fn html_parse_lexed_uses_the_tokens_given_but_not_for_directives() {
    let lexed = vec![Ok(vec![Token::Ident(chars_of("span"))]), Err(chars_of("not looked at"))];
    let nodes = Template::parse_lexed(&chars_of("p\n- if x"), &lexed).ok().unwrap();
    assert_eq!(nodes.len(), 2);
    let roots = Indent::build(nodes).ok().unwrap();
    assert_eq!(roots.len(), 2);
    assert!(matches!(&roots[0], Content::Element { tag, .. } if text(tag) == "span"));
    assert!(matches!(&roots[1], Content::If { condition, .. } if text(condition) == "x"));
}

#[test]
fn pipe_text_with_quotes_and_backslashes_reads_back() {
    assert_eq!(static_html("| say \"hi\" \\ ok"), "say \"hi\" \\ ok");
}
