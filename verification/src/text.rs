//! Text transformations used by the template languages: attribute names,
//! quoted literals and their escapes.

use vstd::prelude::*;

verus! {

/// Whether `c` has the Unicode `Uppercase` property.
pub uninterp spec fn uppercase_property(c: char) -> bool;

/// The Unicode lowercase mapping of `c` (one to three characters).
pub uninterp spec fn lowercase_mapping(c: char) -> Seq<char>;

/// Calls `char::is_uppercase`: whether `c` has the Unicode `Uppercase`
/// property. Among ASCII characters that is exactly `A` to `Z`; beyond
/// ASCII the property is left unstated beyond its name.
#[verifier::external_body]
fn is_uppercase(c: char) -> (b: bool)
    ensures
        b == uppercase_property(c),
        (c as u32) < 0x80 ==> (b <==> ('A' <= c && c <= 'Z')),
{
    c.is_uppercase()
}

/// Calls `char::to_lowercase` and collects its characters: the Unicode
/// lowercase mapping of `c`, which for `A` to `Z` is the matching small
/// letter; other mappings are left unstated beyond their name.
#[verifier::external_body]
fn to_lowercase(c: char) -> (r: Vec<char>)
    ensures
        r@ == lowercase_mapping(c),
        ('A' <= c && c <= 'Z') ==> r@ == seq![((c as u32) + 32) as char],
{
    c.to_lowercase().collect()
}

/// Whether `c` is uppercase: among ASCII characters exactly `A` to `Z`,
/// beyond ASCII the Unicode `Uppercase` property.
pub open spec fn is_upper(c: char) -> bool {
    if (c as u32) < 0x80 {
        'A' <= c && c <= 'Z'
    } else {
        uppercase_property(c)
    }
}

/// The lowercase of `c`: the matching small letter for `A` to `Z`, the
/// Unicode lowercase mapping otherwise.
pub open spec fn lower(c: char) -> Seq<char> {
    if 'A' <= c && c <= 'Z' {
        seq![((c as u32) + 32) as char]
    } else {
        lowercase_mapping(c)
    }
}

/// What one character of a camel-case name becomes.
pub open spec fn dashed_char(c: char) -> Seq<char> {
    if is_upper(c) {
        seq!['-'] + lower(c)
    } else {
        seq![c]
    }
}

/// `name` with each uppercase character replaced by `-` and its lowercase.
pub open spec fn camel_to_dashed_spec(name: Seq<char>) -> Seq<char>
    decreases name.len(),
{
    if name.len() == 0 {
        Seq::empty()
    } else {
        camel_to_dashed_spec(name.drop_last()) + dashed_char(name.last())
    }
}

/// What the escape `\c` stands for inside a quoted literal.
pub open spec fn escape_pair(c: char) -> Seq<char> {
    if c == '"' {
        seq!['"']
    } else if c == '\\' {
        seq!['\\']
    } else if c == 'n' {
        seq!['\n']
    } else if c == 't' {
        seq!['\t']
    } else if c == 'r' {
        seq!['\r']
    } else if c == '0' {
        seq!['\0']
    } else {
        seq!['\\', c]
    }
}

/// `text` with its backslash escapes resolved; an unknown escape is kept as
/// written and a trailing lone backslash stays.
pub open spec fn unescape_spec(text: Seq<char>) -> Seq<char>
    decreases text.len(),
{
    if text.len() == 0 {
        Seq::empty()
    } else if text[0] != '\\' {
        seq![text[0]] + unescape_spec(text.drop_first())
    } else if text.len() == 1 {
        seq!['\\']
    } else {
        escape_pair(text[1]) + unescape_spec(text.skip(2))
    }
}

/// Whether `literal` can lose its first and last character as bytes: at
/// least two characters, the first and the last of them one byte long.
pub open spec fn quotable(literal: Seq<char>) -> bool {
    &&& literal.len() >= 2
    &&& (literal[0] as u32) < 0x80
    &&& (literal.last() as u32) < 0x80
}

/// The contents of a quoted literal, escapes resolved.
pub open spec fn unquote_spec(literal: Seq<char>) -> Seq<char> {
    unescape_spec(literal.subrange(1, literal.len() - 1))
}

/// Whether `s` begins with `c`.
pub open spec fn starts_with_char(s: Seq<char>, c: char) -> bool {
    s.len() > 0 && s[0] == c
}

/// Text without backslashes reads as itself.
pub proof fn law_unescape_plain(text: Seq<char>)
    requires
        forall|i: int| 0 <= i < text.len() ==> #[trigger] text[i] != '\\',
    ensures
        unescape_spec(text) == text,
    decreases text.len(),
{
    if text.len() > 0 {
        law_unescape_plain(text.drop_first());
        assert(seq![text[0]] + text.drop_first() =~= text);
    }
}

/// Names without uppercase characters, such as ASCII names without `A`
/// to `Z`, are left as they are.
pub proof fn law_dashed_plain(name: Seq<char>)
    requires
        forall|i: int| 0 <= i < name.len() ==> !is_upper(#[trigger] name[i]),
    ensures
        camel_to_dashed_spec(name) == name,
    decreases name.len(),
{
    if name.len() > 0 {
        law_dashed_plain(name.drop_last());
        assert(!is_upper(name[name.len() - 1]));
        assert(name.drop_last().push(name.last()) =~= name);
    }
}

pub struct Text;

impl Text {
    /// `name` converted from camelCase to dashed-case.
    pub fn camel_to_dashed(name: &[char]) -> (out: Vec<char>)
        ensures
            out@ == camel_to_dashed_spec(name@),
    {
        let mut out: Vec<char> = Vec::new();
        let mut i: usize = 0;
        while i < name.len()
            invariant
                i <= name.len(),
                out@ == camel_to_dashed_spec(name@.take(i as int)),
            decreases name.len() - i,
        {
            let ch = name[i];
            let ghost before = out@;
            if is_uppercase(ch) {
                out.push('-');
                let mut lower = to_lowercase(ch);
                out.append(&mut lower);
            } else {
                out.push(ch);
            }
            proof {
                assert(name@.take(i as int + 1).drop_last() =~= name@.take(i as int));
                assert(out@ =~= before + dashed_char(ch));
            }
            i += 1;
        }
        assert(name@.take(name.len() as int) =~= name@);
        out
    }

    /// The contents of a quoted literal, with its escapes resolved.
    pub fn unquote(literal: &[char]) -> (out: Vec<char>)
        requires
            quotable(literal@),
        ensures
            out@ == unquote_spec(literal@),
    {
        Self::unescape(literal, 1, literal.len() - 1)
    }

    /// The characters of `text[start..end]` with escapes resolved.
    fn unescape(text: &[char], start: usize, end: usize) -> (out: Vec<char>)
        requires
            start <= end <= text.len(),
        ensures
            out@ == unescape_spec(text@.subrange(start as int, end as int)),
    {
        let ghost whole = text@.subrange(start as int, end as int);
        let mut out: Vec<char> = Vec::new();
        let mut i = start;
        assert(text@.subrange(start as int, end as int) =~= whole);
        while i < end
            invariant
                start <= i <= end <= text.len(),
                whole == text@.subrange(start as int, end as int),
                out@ + unescape_spec(text@.subrange(i as int, end as int)) == unescape_spec(whole),
            decreases end - i,
        {
            let ghost rest = text@.subrange(i as int, end as int);
            let ch = text[i];
            if ch != '\\' {
                out.push(ch);
                proof {
                    assert(rest.drop_first() =~= text@.subrange(i as int + 1, end as int));
                    assert(out@ + unescape_spec(text@.subrange(i as int + 1, end as int)) =~= out@.drop_last() + unescape_spec(rest));
                }
                i += 1;
            } else if i + 1 == end {
                out.push('\\');
                proof {
                    assert(text@.subrange(end as int, end as int) =~= Seq::<char>::empty());
                    assert(unescape_spec(Seq::<char>::empty()) =~= Seq::<char>::empty());
                    assert(out@ + unescape_spec(text@.subrange(end as int, end as int)) =~= out@.drop_last() + unescape_spec(rest));
                }
                i += 1;
            } else {
                let next = text[i + 1];
                let ghost before = out@;
                if next == '"' {
                    out.push('"');
                } else if next == '\\' {
                    out.push('\\');
                } else if next == 'n' {
                    out.push('\n');
                } else if next == 't' {
                    out.push('\t');
                } else if next == 'r' {
                    out.push('\r');
                } else if next == '0' {
                    out.push('\0');
                } else {
                    out.push('\\');
                    out.push(next);
                }
                proof {
                    assert(rest[1] == next);
                    assert(rest.skip(2) =~= text@.subrange(i as int + 2, end as int));
                    assert(out@ =~= before + escape_pair(next));
                    assert(out@ + unescape_spec(text@.subrange(i as int + 2, end as int)) =~= before + unescape_spec(rest));
                }
                i += 2;
            }
        }
        proof {
            assert(text@.subrange(end as int, end as int) =~= Seq::<char>::empty());
            assert(unescape_spec(Seq::<char>::empty()) =~= Seq::<char>::empty());
            assert(out@ + Seq::<char>::empty() =~= out@);
        }
        out
    }
}

} // verus!
