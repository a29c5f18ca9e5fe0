//! Templates expanded and then run the way the expansion runs in a caller's
//! code, with a small interpreter standing in for the compiled statements.

use std::borrow::Cow;

use tent::body::{Body, Sink};
use tent::compile::{Compiler, Mode};
use tent::html::emit::{Emission, Stmt};
use tent::markup::Html;

/// A value that a template expression can name.
#[derive(Clone, Copy)]
enum Value {
    Str(&'static str),
    Number(u32),
}

fn text(chars: &[char]) -> String {
    chars.iter().collect()
}

fn leak(s: String) -> &'static str {
    Box::leak(s.into_boxed_str())
}

fn lookup(env: &[(String, Value)], expr: &[char]) -> Value {
    let name = text(expr);
    let name = name.trim();
    for (key, value) in env.iter().rev() {
        if key == name {
            return *value;
        }
    }
    panic!("unknown name `{name}` in a template expression");
}

fn number(text: &str) -> u32 {
    let digits: String = text.trim().chars().take_while(|c| c.is_ascii_digit()).collect();
    digits.parse().unwrap()
}

fn condition(expr: &[char]) -> bool {
    let source = text(expr);
    match source.trim() {
        "true" => true,
        "false" => false,
        other => {
            if let Some((a, b)) = other.split_once('>') {
                number(a) > number(b)
            } else if let Some((a, b)) = other.split_once('<') {
                number(a) < number(b)
            } else {
                panic!("unsupported condition `{other}`")
            }
        }
    }
}

fn range(expr: &[char]) -> (u32, u32) {
    let source = text(expr);
    let (a, b) = source.split_once("..").unwrap();
    (number(a), number(b))
}

fn run<S: Sink>(stmts: &[Stmt], env: &mut Vec<(String, Value)>, out: &mut S) {
    for stmt in stmts {
        match stmt {
            Stmt::PutStatic(t) => out.put_static(leak(text(t))),
            Stmt::Escaped(e) => match lookup(env, e) {
                Value::Str(s) => s.escaped(out),
                Value::Number(n) => n.escaped(out),
            },
            Stmt::Raw(e) => match lookup(env, e) {
                Value::Str(s) => s.raw(out),
                Value::Number(n) => n.raw(out),
            },
            Stmt::For { var, iter, body } => {
                let (start, end) = range(iter);
                for n in start..end {
                    env.push((text(var), Value::Number(n)));
                    run(body, env, out);
                    env.pop();
                }
            }
            Stmt::If { condition: c, body, otherwise } => {
                if condition(c) {
                    run(body, env, out);
                } else if let Some(other) = otherwise {
                    run(std::slice::from_ref(&**other), env, out);
                }
            }
            Stmt::Block(body) => run(body, env, out),
        }
    }
}

fn markup(source: &str, env: &[(&str, Value)]) -> Cow<'static, str> {
    let mut env: Vec<(String, Value)> = env.iter().map(|(k, v)| (k.to_string(), *v)).collect();
    match Compiler::run_html(source, Mode::Markup) {
        Ok(Emission::Static(t)) => Cow::Borrowed(leak(text(&t))),
        Ok(Emission::Dynamic { reserve, stmts }) => {
            let mut out = String::with_capacity(reserve);
            run(&stmts, &mut env, &mut out);
            Cow::Owned(out)
        }
        Err(e) => panic!("{}", text(&e)),
    }
}

fn body(source: &str, env: &[(&str, Value)]) -> Body {
    let mut env: Vec<(String, Value)> = env.iter().map(|(k, v)| (k.to_string(), *v)).collect();
    match Compiler::run_html(source, Mode::Body) {
        Ok(Emission::Static(t)) => Body::from_static(leak(text(&t))),
        Ok(Emission::Dynamic { reserve, stmts }) => {
            let mut out = Body::with_capacity(reserve);
            run(&stmts, &mut env, &mut out);
            out
        }
        Err(e) => panic!("{}", text(&e)),
    }
}

fn sheet(source: &str) -> &'static str {
    match Compiler::run_css(source) {
        Ok(t) => leak(text(&t)),
        Err(e) => panic!("{}", text(&e)),
    }
}

#[test]
fn html_static_nesting() {
    let out = markup("div\n  span \"hello\"", &[]);
    assert_eq!(&*out, "<div><span>hello</span></div>");
}

#[test]
fn html_classes_and_nesting() {
    let out = markup(".card\n  .title \"Hi\"", &[]);
    assert_eq!(
        &*out,
        "<div class=\"card\"><div class=\"title\">Hi</div></div>"
    );
}

#[test]
fn html_body_static_tracks_len() {
    let body = body("p \"text\"", &[]);
    assert_eq!(body.len(), "<p>text</p>".len());
    assert_eq!(body.finish(), "<p>text</p>");
}

#[test]
fn html_interpolates_expression() {
    let name = "world";
    let out = markup("span (name)", &[("name", Value::Str(name))]);
    assert_eq!(&*out, "<span>world</span>");
}

#[test]
fn html_body_for_loop_tracks_len() {
    let body = body("ul\n  - for n in 0u32..3\n    li (n)", &[]);
    let len = body.len();
    let rendered = body.finish();
    assert_eq!(rendered, "<ul><li>0</li><li>1</li><li>2</li></ul>");
    assert_eq!(len, rendered.len());
}

#[test]
fn html_escapes_dynamic_text() {
    let danger = "<b>";
    let out = markup("span (danger)", &[("danger", Value::Str(danger))]);
    assert_eq!(&*out, "<span>&lt;b&gt;</span>");
}

#[test]
fn html_raw_skips_escaping() {
    let markup_text = "<b>x</b>";
    let out = markup("span !{markup}", &[("markup", Value::Str(markup_text))]);
    assert_eq!(&*out, "<span><b>x</b></span>");
}

#[test]
fn html_if_else_branches() {
    let body = body("div\n  - if 1 > 0\n    b \"yes\"\n  - else\n    b \"no\"", &[]);
    assert_eq!(body.finish(), "<div><b>yes</b></div>");
}

#[test]
fn css_nests_selectors() {
    let css: &str = sheet(".box\n  color: \"red\"");
    assert_eq!(css, ".box {color: red;}");
}

#[test]
fn css_body_renders_static() {
    let body = Body::from_static(sheet(".x\n  margin: \"0\""));
    assert_eq!(body.finish(), ".x {margin: 0;}");
}
