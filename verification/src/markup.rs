//! Values that render into a `Sink`, raw or with HTML escaping.

use vstd::prelude::*;

use crate::body::{Piece, Sink};
use crate::chars::push_char;
use crate::chars::chars_of;

verus! {

/// Characters that HTML escaping replaces.
pub open spec fn is_special(c: char) -> bool {
    c == '&' || c == '<' || c == '>' || c == '"' || c == '\''
}

/// What escaping turns one character into.
pub open spec fn escape_char(c: char) -> Seq<char> {
    if c == '&' {
        "&amp;"@
    } else if c == '<' {
        "&lt;"@
    } else if c == '>' {
        "&gt;"@
    } else if c == '"' {
        "&quot;"@
    } else if c == '\'' {
        "&#x27;"@
    } else {
        seq![c]
    }
}

/// `s` with each special character replaced by its entity.
pub open spec fn escape_html(s: Seq<char>) -> Seq<char>
    decreases s.len(),
{
    if s.len() == 0 {
        Seq::empty()
    } else {
        escape_html(s.drop_last()) + escape_char(s.last())
    }
}

/// Escaping works piecewise.
pub proof fn law_escape_concat(a: Seq<char>, b: Seq<char>)
    ensures
        escape_html(a + b) == escape_html(a) + escape_html(b),
    decreases b.len(),
{
    if b.len() == 0 {
        assert(a + b =~= a);
        assert(escape_html(a) + escape_html(b) =~= escape_html(a));
    } else {
        law_escape_concat(a, b.drop_last());
        assert((a + b).drop_last() =~= a + b.drop_last());
        assert((a + b).last() == b.last());
        assert(escape_html(a + b) =~= escape_html(a) + escape_html(b.drop_last()) + escape_char(
            b.last(),
        ));
    }
}

/// Text without special characters is left as it is.
pub proof fn law_escape_plain(s: Seq<char>)
    requires
        forall|i: int| 0 <= i < s.len() ==> !is_special(#[trigger] s[i]),
    ensures
        escape_html(s) == s,
    decreases s.len(),
{
    if s.len() > 0 {
        law_escape_plain(s.drop_last());
        assert(!is_special(s[s.len() - 1]));
        assert(s.drop_last().push(s.last()) =~= s);
    }
}

/// A pending run of plain text, as the write that flushes it: none when
/// it is empty.
pub open spec fn flush_run(run: Seq<char>) -> Seq<Piece> {
    if run.len() == 0 {
        Seq::empty()
    } else {
        seq![Piece::Owned(run)]
    }
}

/// The writes that escaping `s` makes when the plain text `run` is pending
/// before it: each run of plain text as an owned copy, written when an
/// entity or the end follows it, and each entity as static text.
pub open spec fn escape_pieces_from(run: Seq<char>, s: Seq<char>) -> Seq<Piece>
    decreases s.len(),
{
    if s.len() == 0 {
        flush_run(run)
    } else if is_special(s[0]) {
        flush_run(run) + seq![Piece::Static(escape_char(s[0]))] + escape_pieces_from(
            Seq::empty(),
            s.drop_first(),
        )
    } else {
        escape_pieces_from(run.push(s[0]), s.drop_first())
    }
}

/// The writes that escaping `s` makes.
pub open spec fn escape_pieces(s: Seq<char>) -> Seq<Piece> {
    escape_pieces_from(Seq::empty(), s)
}

/// The decimal digit `d`.
pub open spec fn digit_char(d: int) -> char {
    if d == 0 {
        '0'
    } else if d == 1 {
        '1'
    } else if d == 2 {
        '2'
    } else if d == 3 {
        '3'
    } else if d == 4 {
        '4'
    } else if d == 5 {
        '5'
    } else if d == 6 {
        '6'
    } else if d == 7 {
        '7'
    } else if d == 8 {
        '8'
    } else {
        '9'
    }
}

/// The decimal representation of `n`, without leading zeros.
pub open spec fn decimal(n: nat) -> Seq<char>
    decreases n,
{
    if n < 10 {
        seq![digit_char(n as int)]
    } else {
        decimal(n / 10).push(digit_char((n % 10) as int))
    }
}

/// The decimal representation of `n`, with a leading `-` when negative.
pub open spec fn signed_decimal(n: int) -> Seq<char> {
    if n < 0 {
        seq!['-'] + decimal((-n) as nat)
    } else {
        decimal(n as nat)
    }
}

/// Decimal digits are never escaped.
pub proof fn lemma_decimal_plain(n: nat)
    ensures
        forall|i: int| 0 <= i < decimal(n).len() ==> !is_special(#[trigger] decimal(n)[i]),
        escape_html(decimal(n)) == decimal(n),
    decreases n,
{
    if n >= 10 {
        lemma_decimal_plain(n / 10);
    }
    law_escape_plain(decimal(n));
}

/// Signed decimals are never escaped either.
pub proof fn lemma_signed_decimal_plain(n: int)
    ensures
        escape_html(signed_decimal(n)) == signed_decimal(n),
{
    if n < 0 {
        lemma_decimal_plain((-n) as nat);
        let s = signed_decimal(n);
        assert forall|i: int| 0 <= i < s.len() implies !is_special(#[trigger] s[i]) by {
            if i > 0 {
                assert(s[i] == decimal((-n) as nat)[i - 1]);
            }
        }
        law_escape_plain(s);
    } else {
        lemma_decimal_plain(n as nat);
    }
}

fn digit_of(d: u64) -> (c: char)
    requires
        d < 10,
    ensures
        c == digit_char(d as int),
{
    if d == 0 {
        '0'
    } else if d == 1 {
        '1'
    } else if d == 2 {
        '2'
    } else if d == 3 {
        '3'
    } else if d == 4 {
        '4'
    } else if d == 5 {
        '5'
    } else if d == 6 {
        '6'
    } else if d == 7 {
        '7'
    } else if d == 8 {
        '8'
    } else {
        '9'
    }
}

/// Appends the decimal representation of `n` to `out`.
pub fn push_decimal(n: u64, out: &mut String)
    ensures
        final(out)@ == old(out)@ + decimal(n as nat),
    decreases n,
{
    if n >= 10 {
        push_decimal(n / 10, out);
    }
    push_char(out, digit_of(n % 10));
    proof {
        if n >= 10 {
            assert(decimal(n as nat) == decimal((n / 10) as nat).push(digit_char((n % 10) as int)));
        }
    }
    assert(final(out)@ =~= old(out)@ + decimal(n as nat));
}

/// Appends the decimal representation of `n`, signed, to `out`.
pub fn push_signed_decimal(n: i64, out: &mut String)
    ensures
        final(out)@ == old(out)@ + signed_decimal(n as int),
{
    if n < 0 {
        push_char(out, '-');
        let magnitude: u64 = if n == i64::MIN {
            9223372036854775808u64
        } else {
            (-n) as u64
        };
        push_decimal(magnitude, out);
        assert(final(out)@ =~= old(out)@ + signed_decimal(n as int));
    } else {
        push_decimal(n as u64, out);
    }
}

/// The replacement entity for a special character.
fn entity(c: char) -> (r: Option<&'static str>)
    ensures
        r matches Some(t) ==> is_special(c) && t@ == escape_char(c),
        r is None ==> !is_special(c),
{
    if c == '&' {
        Some("&amp;")
    } else if c == '<' {
        Some("&lt;")
    } else if c == '>' {
        Some("&gt;")
    } else if c == '"' {
        Some("&quot;")
    } else if c == '\'' {
        Some("&#x27;")
    } else {
        None
    }
}

/// A value that can be written into markup.
pub trait Html {
    /// The text the value stands for.
    spec fn text(&self) -> Seq<char>;

    /// The writes that escaping the value makes into a sink, in order.
    spec fn escaped_writes(&self) -> Seq<Piece>;

    /// The writes that writing the value raw makes into a sink, in order.
    spec fn raw_writes(&self) -> Seq<Piece>;

    /// Appends the text with `&`, `<`, `>`, `"` and `'` replaced by entities,
    /// in the writes `escaped_writes`.
    fn escaped<S: Sink>(&self, out: &mut S)
        requires
            S::holds(old(out).written() + escape_html(self.text())),
        ensures
            final(out).written() == old(out).written() + escape_html(self.text()),
            S::keeps_pieces() ==> final(out).pieces() == old(out).pieces() + self.escaped_writes(),
    ;

    /// Appends the text unchanged, in the writes `raw_writes`.
    fn raw<S: Sink>(&self, out: &mut S)
        requires
            S::holds(old(out).written() + self.text()),
        ensures
            final(out).written() == old(out).written() + self.text(),
            S::keeps_pieces() ==> final(out).pieces() == old(out).pieces() + self.raw_writes(),
    ;
}

impl Html for str {

    /// Escaping writes each run of plain text as an owned copy and each
    /// entity as static text, and never an empty run.
    open spec fn escaped_writes(&self) -> Seq<Piece> {
        escape_pieces(self@)
    }

    /// The text is written as one owned copy, even when empty.
    open spec fn raw_writes(&self) -> Seq<Piece> {
        seq![Piece::Owned(self@)]
    }
    open spec fn text(&self) -> Seq<char> {
        self@
    }

    fn escaped<S: Sink>(&self, out: &mut S) {
        let chars = chars_of(self);
        let ghost all = chars@;
        let ghost base = out.written();
        let ghost pbase = out.pieces();
        let ghost mut done: Seq<Piece> = Seq::empty();
        let n = chars.len();
        let mut run = String::new();
        let ghost mut start: int = 0;
        let mut i: usize = 0;
        proof {
            law_escape_concat(all.take(0), all.skip(0));
            assert(all.take(0) + all.skip(0) =~= all);
            assert(all.skip(0) =~= all);
            assert(done + escape_pieces_from(run@, all.skip(0)) =~= escape_pieces(all));
            assert(pbase + done =~= pbase);
        }
        while i < n
            invariant
                n == all.len(),
                all == self@,
                chars@ == all,
                i <= n,
                0 <= start <= i,
                out.written() == base + escape_html(all.take(start)),
                run@ == all.subrange(start, i as int),
                forall|k: int| start <= k < i ==> !is_special(#[trigger] all[k]),
                S::holds(base + escape_html(all)),
                S::keeps_pieces() ==> out.pieces() == pbase + done,
                done + escape_pieces_from(run@, all.skip(i as int)) == escape_pieces(all),
            decreases n - i,
        {
            let c = chars[i];
            proof {
                assert(all.skip(i as int)[0] == c);
                assert(all.skip(i as int).drop_first() =~= all.skip(i as int + 1));
            }
            match entity(c) {
                Some(replacement) => {
                    proof {
                        law_escape_plain(run@);
                        law_escape_concat(all.take(start), run@);
                        assert(all.take(start) + run@ =~= all.take(i as int));
                        law_escape_concat(all.take(i as int), seq![c]);
                        assert(all.take(i as int) + seq![c] =~= all.take(i as int + 1));
                        assert(seq![c].drop_last() =~= Seq::<char>::empty());
                        assert(escape_html(Seq::<char>::empty()) =~= Seq::<char>::empty());
                        assert(escape_html(seq![c]) =~= escape_char(c));
                        law_escape_concat(all.take(i as int + 1), all.skip(i as int + 1));
                        assert(all.take(i as int + 1) + all.skip(i as int + 1) =~= all);
                        assert(base + escape_html(all) =~= base + escape_html(all.take(i as int + 1))
                            + escape_html(all.skip(i as int + 1)));
                        S::lemma_holds_prefix(
                            base + escape_html(all.take(i as int + 1)),
                            escape_html(all.skip(i as int + 1)),
                        );
                        assert(base + escape_html(all.take(i as int)) + escape_char(c) =~= base
                            + escape_html(all.take(i as int + 1)));
                    }
                    let ghost pending = run@;
                    let ghost was = done;
                    let ghost flushed = done + flush_run(run@);
                    if !run.as_str().is_empty() {
                        proof {
                            S::lemma_holds_prefix(
                                base + escape_html(all.take(i as int)),
                                escape_char(c),
                            );
                            assert(out.written() + run@ =~= base + escape_html(all.take(i as int)));
                        }
                        out.put_owned(run.as_str());
                        proof {
                            assert(pbase + done + seq![Piece::Owned(run@)] =~= pbase + flushed);
                        }
                    } else {
                        proof {
                            assert(run@.len() == 0);
                            assert(all.take(start) =~= all.take(i as int));
                        }
                    }
                    proof {
                        assert(out.written() =~= base + escape_html(all.take(i as int)));
                    }
                    proof {
                        if run@.len() == 0 {
                            assert(flushed =~= done);
                        }
                    }
                    out.put_static(replacement);
                    let ghost rest = escape_pieces_from(Seq::empty(), all.skip(i as int + 1));
                    run = String::new();
                    proof {
                        start = i as int + 1;
                        assert(out.written() =~= base + escape_html(all.take(start)));
                        assert(escape_pieces_from(pending, all.skip(i as int)) == flush_run(pending) + seq![
                            Piece::Static(escape_char(c)),
                        ] + rest);
                        assert(run@ =~= Seq::<char>::empty());
                        done = flushed + seq![Piece::Static(escape_char(c))];
                        assert(done + rest =~= was + (flush_run(pending) + seq![Piece::Static(escape_char(c))] + rest));
                    }
                },
                None => {
                    let ghost pending = run@;
                    push_char(&mut run, c);
                    proof {
                        assert(run@ =~= all.subrange(start, i as int + 1));
                        assert(run@ == pending.push(c));
                        assert(escape_pieces_from(pending, all.skip(i as int)) == escape_pieces_from(
                            run@,
                            all.skip(i as int + 1),
                        ));
                    }
                },
            }
            i += 1;
        }
        proof {
            law_escape_plain(run@);
            law_escape_concat(all.take(start), run@);
            assert(all.take(start) + run@ =~= all);
            assert(base + escape_html(all) =~= out.written() + run@);
        }
        proof {
            assert(all.skip(n as int) =~= Seq::<char>::empty());
            assert(escape_pieces_from(run@, all.skip(n as int)) == flush_run(run@));
        }
        if !run.as_str().is_empty() {
            out.put_owned(run.as_str());
            proof {
                assert(pbase + done + seq![Piece::Owned(run@)] =~= pbase + (done + flush_run(run@)));
            }
        } else {
            assert(all.take(start) =~= all);
            assert(done + flush_run(run@) =~= done);
        }
    }

    fn raw<S: Sink>(&self, out: &mut S) {
        out.put_owned(self);
    }
}

impl Html for String {

    /// Escaping writes each run of plain text as an owned copy and each
    /// entity as static text, and never an empty run.
    open spec fn escaped_writes(&self) -> Seq<Piece> {
        escape_pieces(self@)
    }

    /// The text is written as one owned copy, even when empty.
    open spec fn raw_writes(&self) -> Seq<Piece> {
        seq![Piece::Owned(self@)]
    }
    open spec fn text(&self) -> Seq<char> {
        self@
    }

    fn escaped<S: Sink>(&self, out: &mut S) {
        self.as_str().escaped(out);
    }

    fn raw<S: Sink>(&self, out: &mut S) {
        self.as_str().raw(out);
    }
}

impl<T: Html + ?Sized> Html for &T {

    open spec fn escaped_writes(&self) -> Seq<Piece> {
        (**self).escaped_writes()
    }

    open spec fn raw_writes(&self) -> Seq<Piece> {
        (**self).raw_writes()
    }
    open spec fn text(&self) -> Seq<char> {
        (**self).text()
    }

    fn escaped<S: Sink>(&self, out: &mut S) {
        (**self).escaped(out);
    }

    fn raw<S: Sink>(&self, out: &mut S) {
        (**self).raw(out);
    }
}

impl Html for bool {

    /// One static write, raw or escaped.
    open spec fn escaped_writes(&self) -> Seq<Piece> {
        seq![Piece::Static(self.text())]
    }

    open spec fn raw_writes(&self) -> Seq<Piece> {
        seq![Piece::Static(self.text())]
    }
    open spec fn text(&self) -> Seq<char> {
        if *self {
            "true"@
        } else {
            "false"@
        }
    }

    fn escaped<S: Sink>(&self, out: &mut S) {
        proof {
            reveal_strlit("true");
            reveal_strlit("false");
            law_escape_plain("true"@);
            law_escape_plain("false"@);
        }
        out.put_static(if *self { "true" } else { "false" });
    }

    fn raw<S: Sink>(&self, out: &mut S) {
        out.put_static(if *self { "true" } else { "false" });
    }
}

impl Html for std::borrow::Cow<'_, str> {

    /// Escaping writes each run of plain text as an owned copy and each
    /// entity as static text, and never an empty run.
    open spec fn escaped_writes(&self) -> Seq<Piece> {
        escape_pieces(self@)
    }

    /// The text is written as one owned copy, even when empty.
    open spec fn raw_writes(&self) -> Seq<Piece> {
        seq![Piece::Owned(self@)]
    }
    open spec fn text(&self) -> Seq<char> {
        self@
    }

    fn escaped<S: Sink>(&self, out: &mut S) {
        match self {
            std::borrow::Cow::Borrowed(text) => text.escaped(out),
            std::borrow::Cow::Owned(text) => text.as_str().escaped(out),
        }
    }

    fn raw<S: Sink>(&self, out: &mut S) {
        match self {
            std::borrow::Cow::Borrowed(text) => text.raw(out),
            std::borrow::Cow::Owned(text) => text.as_str().raw(out),
        }
    }
}

impl Html for u8 {

    /// One owned write of the decimal digits, raw or escaped.
    open spec fn escaped_writes(&self) -> Seq<Piece> {
        seq![Piece::Owned(self.text())]
    }

    open spec fn raw_writes(&self) -> Seq<Piece> {
        seq![Piece::Owned(self.text())]
    }
    open spec fn text(&self) -> Seq<char> {
        decimal(*self as nat)
    }

    fn escaped<S: Sink>(&self, out: &mut S) {
        proof {
            lemma_decimal_plain(*self as nat);
        }
        self.raw(out);
    }

    fn raw<S: Sink>(&self, out: &mut S) {
        let mut text = String::new();
        push_decimal(*self as u64, &mut text);
        proof {
            assert(text@ =~= decimal(*self as nat));
        }
        out.put_owned(text.as_str());
    }
}

impl Html for u16 {

    /// One owned write of the decimal digits, raw or escaped.
    open spec fn escaped_writes(&self) -> Seq<Piece> {
        seq![Piece::Owned(self.text())]
    }

    open spec fn raw_writes(&self) -> Seq<Piece> {
        seq![Piece::Owned(self.text())]
    }
    open spec fn text(&self) -> Seq<char> {
        decimal(*self as nat)
    }

    fn escaped<S: Sink>(&self, out: &mut S) {
        proof {
            lemma_decimal_plain(*self as nat);
        }
        self.raw(out);
    }

    fn raw<S: Sink>(&self, out: &mut S) {
        let mut text = String::new();
        push_decimal(*self as u64, &mut text);
        proof {
            assert(text@ =~= decimal(*self as nat));
        }
        out.put_owned(text.as_str());
    }
}

impl Html for u32 {

    /// One owned write of the decimal digits, raw or escaped.
    open spec fn escaped_writes(&self) -> Seq<Piece> {
        seq![Piece::Owned(self.text())]
    }

    open spec fn raw_writes(&self) -> Seq<Piece> {
        seq![Piece::Owned(self.text())]
    }
    open spec fn text(&self) -> Seq<char> {
        decimal(*self as nat)
    }

    fn escaped<S: Sink>(&self, out: &mut S) {
        proof {
            lemma_decimal_plain(*self as nat);
        }
        self.raw(out);
    }

    fn raw<S: Sink>(&self, out: &mut S) {
        let mut text = String::new();
        push_decimal(*self as u64, &mut text);
        proof {
            assert(text@ =~= decimal(*self as nat));
        }
        out.put_owned(text.as_str());
    }
}

impl Html for u64 {

    /// One owned write of the decimal digits, raw or escaped.
    open spec fn escaped_writes(&self) -> Seq<Piece> {
        seq![Piece::Owned(self.text())]
    }

    open spec fn raw_writes(&self) -> Seq<Piece> {
        seq![Piece::Owned(self.text())]
    }
    open spec fn text(&self) -> Seq<char> {
        decimal(*self as nat)
    }

    fn escaped<S: Sink>(&self, out: &mut S) {
        proof {
            lemma_decimal_plain(*self as nat);
        }
        self.raw(out);
    }

    fn raw<S: Sink>(&self, out: &mut S) {
        let mut text = String::new();
        push_decimal(*self as u64, &mut text);
        proof {
            assert(text@ =~= decimal(*self as nat));
        }
        out.put_owned(text.as_str());
    }
}

impl Html for usize {

    /// One owned write of the decimal digits, raw or escaped.
    open spec fn escaped_writes(&self) -> Seq<Piece> {
        seq![Piece::Owned(self.text())]
    }

    open spec fn raw_writes(&self) -> Seq<Piece> {
        seq![Piece::Owned(self.text())]
    }
    open spec fn text(&self) -> Seq<char> {
        decimal(*self as nat)
    }

    fn escaped<S: Sink>(&self, out: &mut S) {
        proof {
            lemma_decimal_plain(*self as nat);
        }
        self.raw(out);
    }

    fn raw<S: Sink>(&self, out: &mut S) {
        let mut text = String::new();
        push_decimal(*self as u64, &mut text);
        proof {
            assert(text@ =~= decimal(*self as nat));
        }
        out.put_owned(text.as_str());
    }
}

impl Html for i8 {

    /// One owned write of the decimal digits, raw or escaped.
    open spec fn escaped_writes(&self) -> Seq<Piece> {
        seq![Piece::Owned(self.text())]
    }

    open spec fn raw_writes(&self) -> Seq<Piece> {
        seq![Piece::Owned(self.text())]
    }
    open spec fn text(&self) -> Seq<char> {
        signed_decimal(*self as int)
    }

    fn escaped<S: Sink>(&self, out: &mut S) {
        proof {
            lemma_signed_decimal_plain(*self as int);
        }
        self.raw(out);
    }

    fn raw<S: Sink>(&self, out: &mut S) {
        let mut text = String::new();
        push_signed_decimal(*self as i64, &mut text);
        proof {
            assert(text@ =~= signed_decimal(*self as int));
        }
        out.put_owned(text.as_str());
    }
}

impl Html for i16 {

    /// One owned write of the decimal digits, raw or escaped.
    open spec fn escaped_writes(&self) -> Seq<Piece> {
        seq![Piece::Owned(self.text())]
    }

    open spec fn raw_writes(&self) -> Seq<Piece> {
        seq![Piece::Owned(self.text())]
    }
    open spec fn text(&self) -> Seq<char> {
        signed_decimal(*self as int)
    }

    fn escaped<S: Sink>(&self, out: &mut S) {
        proof {
            lemma_signed_decimal_plain(*self as int);
        }
        self.raw(out);
    }

    fn raw<S: Sink>(&self, out: &mut S) {
        let mut text = String::new();
        push_signed_decimal(*self as i64, &mut text);
        proof {
            assert(text@ =~= signed_decimal(*self as int));
        }
        out.put_owned(text.as_str());
    }
}

impl Html for i32 {

    /// One owned write of the decimal digits, raw or escaped.
    open spec fn escaped_writes(&self) -> Seq<Piece> {
        seq![Piece::Owned(self.text())]
    }

    open spec fn raw_writes(&self) -> Seq<Piece> {
        seq![Piece::Owned(self.text())]
    }
    open spec fn text(&self) -> Seq<char> {
        signed_decimal(*self as int)
    }

    fn escaped<S: Sink>(&self, out: &mut S) {
        proof {
            lemma_signed_decimal_plain(*self as int);
        }
        self.raw(out);
    }

    fn raw<S: Sink>(&self, out: &mut S) {
        let mut text = String::new();
        push_signed_decimal(*self as i64, &mut text);
        proof {
            assert(text@ =~= signed_decimal(*self as int));
        }
        out.put_owned(text.as_str());
    }
}

impl Html for i64 {

    /// One owned write of the decimal digits, raw or escaped.
    open spec fn escaped_writes(&self) -> Seq<Piece> {
        seq![Piece::Owned(self.text())]
    }

    open spec fn raw_writes(&self) -> Seq<Piece> {
        seq![Piece::Owned(self.text())]
    }
    open spec fn text(&self) -> Seq<char> {
        signed_decimal(*self as int)
    }

    fn escaped<S: Sink>(&self, out: &mut S) {
        proof {
            lemma_signed_decimal_plain(*self as int);
        }
        self.raw(out);
    }

    fn raw<S: Sink>(&self, out: &mut S) {
        let mut text = String::new();
        push_signed_decimal(*self as i64, &mut text);
        proof {
            assert(text@ =~= signed_decimal(*self as int));
        }
        out.put_owned(text.as_str());
    }
}

impl Html for isize {

    /// One owned write of the decimal digits, raw or escaped.
    open spec fn escaped_writes(&self) -> Seq<Piece> {
        seq![Piece::Owned(self.text())]
    }

    open spec fn raw_writes(&self) -> Seq<Piece> {
        seq![Piece::Owned(self.text())]
    }
    open spec fn text(&self) -> Seq<char> {
        signed_decimal(*self as int)
    }

    fn escaped<S: Sink>(&self, out: &mut S) {
        proof {
            lemma_signed_decimal_plain(*self as int);
        }
        self.raw(out);
    }

    fn raw<S: Sink>(&self, out: &mut S) {
        let mut text = String::new();
        push_signed_decimal(*self as i64, &mut text);
        proof {
            assert(text@ =~= signed_decimal(*self as int));
        }
        out.put_owned(text.as_str());
    }
}


/// Appends the decimal representation of `n` to a character vector.
pub fn push_decimal_chars(n: u64, out: &mut Vec<char>)
    ensures
        final(out)@ == old(out)@ + decimal(n as nat),
    decreases n,
{
    if n >= 10 {
        push_decimal_chars(n / 10, out);
    }
    out.push(digit_of(n % 10));
    proof {
        if n >= 10 {
            assert(decimal(n as nat) == decimal((n / 10) as nat).push(digit_char((n % 10) as int)));
        }
    }
    assert(final(out)@ =~= old(out)@ + decimal(n as nat));
}
} // verus!
