//! Character-sequence helpers shared by the runtime and the template compiler.

use vstd::prelude::*;
use vstd::utf8::*;

verus! {

/// The number of bytes in the UTF-8 encoding of `s`.
pub open spec fn byte_len(s: Seq<char>) -> nat {
    encode_utf8(s).len()
}

/// The number of bytes in the UTF-8 encoding of `c`.
pub open spec fn char_width(c: char) -> nat {
    encode_scalar(c as u32).len()
}

/// Encoding a concatenation is concatenating the encodings.
pub proof fn lemma_encode_concat(a: Seq<char>, b: Seq<char>)
    ensures
        encode_utf8(a + b) == encode_utf8(a) + encode_utf8(b),
    decreases a.len(),
{
    if a.len() == 0 {
        assert(a + b =~= b);
        assert(encode_utf8(a) =~= Seq::<u8>::empty());
        assert(encode_utf8(a) + encode_utf8(b) =~= encode_utf8(b));
    } else {
        lemma_encode_concat(a.drop_first(), b);
        assert((a + b).drop_first() =~= a.drop_first() + b);
        assert((a + b)[0] == a[0]);
        assert(encode_utf8(a + b) =~= encode_scalar(a[0] as u32) + encode_utf8(a.drop_first() + b));
    }
}

/// Byte length is additive.
pub proof fn lemma_byte_len_concat(a: Seq<char>, b: Seq<char>)
    ensures
        byte_len(a + b) == byte_len(a) + byte_len(b),
{
    lemma_encode_concat(a, b);
}

/// The byte length of a sequence ending in `c` adds the width of `c`.
pub proof fn lemma_byte_len_push(a: Seq<char>, c: char)
    ensures
        byte_len(a.push(c)) == byte_len(a) + char_width(c),
{
    lemma_encode_concat(a, seq![c]);
    assert(a.push(c) =~= a + seq![c]);
    assert(seq![c].drop_first() =~= Seq::<char>::empty());
    assert(encode_utf8(seq![c]) =~= encode_scalar(c as u32) + encode_utf8(Seq::<char>::empty()));
}

/// Every character takes between one and four bytes; ASCII takes one.
pub proof fn lemma_char_width_bounds(c: char)
    ensures
        1 <= char_width(c) <= 4,
        (c as u32) < 0x80 ==> char_width(c) == 1,
{
    broadcast use char_is_scalar;
    assert(is_scalar(c as u32));
}

/// A sequence is empty exactly when its encoding is.
pub proof fn lemma_byte_len_zero(s: Seq<char>)
    ensures
        (byte_len(s) == 0) == (s.len() == 0),
{
    if s.len() > 0 {
        lemma_char_width_bounds(s[0]);
        assert(encode_utf8(s) =~= encode_scalar(s[0] as u32) + encode_utf8(s.drop_first()));
    }
}

/// The byte length of a sequence is at least its number of characters.
pub proof fn lemma_byte_len_ge_len(s: Seq<char>)
    ensures
        byte_len(s) >= s.len(),
    decreases s.len(),
{
    if s.len() > 0 {
        lemma_byte_len_ge_len(s.drop_first());
        lemma_char_width_bounds(s[0]);
        assert(encode_utf8(s) =~= encode_scalar(s[0] as u32) + encode_utf8(s.drop_first()));
    }
}

/// The number of bytes that `c` takes in UTF-8.
pub fn utf8_width(c: char) -> (w: usize)
    ensures
        w == char_width(c),
        1 <= w <= 4,
{
    broadcast use char_is_scalar;
    let u = c as u32;
    assert(is_scalar(c as u32));
    if u < 0x80 {
        1
    } else if u < 0x800 {
        2
    } else if u < 0x10000 {
        3
    } else {
        4
    }
}

/// Appends `c` to `s`.
///
/// Calls `String::push`, which the standard library documents as appending
/// the given character to the end of the string.
#[verifier::external_body]
pub(crate) fn push_char(s: &mut String, c: char)
    ensures
        final(s)@ == old(s)@.push(c),
{
    s.push(c);
}

/// A new, empty string with room for `capacity` bytes.
///
/// Calls `String::with_capacity`, which the standard library documents as
/// creating a new empty `String`.
#[verifier::external_body]
pub(crate) fn string_with_capacity(capacity: usize) -> (s: String)
    ensures
        s@ == Seq::<char>::empty(),
{
    String::with_capacity(capacity)
}

/// The characters of `s`, in order.
pub fn chars_of(s: &str) -> (v: Vec<char>)
    ensures
        v@ == s@,
{
    let mut v: Vec<char> = Vec::new();
    for c in it: s.chars()
        invariant
            v@ == it.seq().take(it.index() as int),
    {
        v.push(c);
    }
    v
}

/// A string holding exactly the characters of `s`.
pub fn string_of(s: &[char]) -> (r: String)
    ensures
        r@ == s@,
{
    let mut r = String::new();
    let mut i: usize = 0;
    while i < s.len()
        invariant
            i <= s.len(),
            r@ == s@.take(i as int),
        decreases s.len() - i,
    {
        push_char(&mut r, s[i]);
        assert(s@.take(i as int + 1) =~= s@.take(i as int).push(s@[i as int]));
        i += 1;
    }
    assert(s@.take(s.len() as int) =~= s@);
    r
}

/// The number of bytes in the UTF-8 encoding of `s`, or `None` where that
/// number does not fit in a `usize`.
pub fn byte_count(s: &[char]) -> (n: Option<usize>)
    ensures
        n matches Some(k) ==> k == byte_len(s@),
        n is None ==> byte_len(s@) > usize::MAX,
{
    let mut total: usize = 0;
    let mut i: usize = 0;
    while i < s.len()
        invariant
            i <= s.len(),
            total == byte_len(s@.take(i as int)),
        decreases s.len() - i,
    {
        let w = utf8_width(s[i]);
        proof {
            lemma_byte_len_push(s@.take(i as int), s@[i as int]);
            assert(s@.take(i as int + 1) =~= s@.take(i as int).push(s@[i as int]));
        }
        if total > usize::MAX - w {
            proof {
                lemma_byte_len_concat(s@.take(i as int + 1), s@.skip(i as int + 1));
                assert(s@ =~= s@.take(i as int + 1) + s@.skip(i as int + 1));
            }
            return None;
        }
        total = total + w;
        i += 1;
    }
    assert(s@.take(s.len() as int) =~= s@);
    Some(total)
}


/// The number of bytes in the UTF-8 encoding of `s`, counted wide enough
/// that it always fits.
pub fn byte_size(s: &[char]) -> (n: u128)
    ensures
        n == byte_len(s@),
{
    let mut total: u128 = 0;
    let mut i: usize = 0;
    while i < s.len()
        invariant
            i <= s.len(),
            total == byte_len(s@.take(i as int)),
            total <= 4 * i,
        decreases s.len() - i,
    {
        let w = utf8_width(s[i]);
        proof {
            lemma_byte_len_push(s@.take(i as int), s@[i as int]);
            lemma_char_width_bounds(s@[i as int]);
            assert(s@.take(i as int + 1) =~= s@.take(i as int).push(s@[i as int]));
        }
        total = total + w as u128;
        i += 1;
    }
    assert(s@.take(s.len() as int) =~= s@);
    total
}

/// Whether `c` has the Unicode `White_Space` property, which is what
/// `char::is_whitespace` reports.
pub open spec fn is_white(c: char) -> bool {
    let u = c as u32;
    ||| 0x9 <= u <= 0xD
    ||| u == 0x20
    ||| u == 0x85
    ||| u == 0xA0
    ||| u == 0x1680
    ||| 0x2000 <= u <= 0x200A
    ||| u == 0x2028
    ||| u == 0x2029
    ||| u == 0x202F
    ||| u == 0x205F
    ||| u == 0x3000
}

/// Whether `c` is whitespace in the sense of `char::is_whitespace`.
pub fn is_whitespace(c: char) -> (b: bool)
    ensures
        b == is_white(c),
{
    let u = c as u32;
    (0x9 <= u && u <= 0xD) || u == 0x20 || u == 0x85 || u == 0xA0 || u == 0x1680 || (0x2000 <= u
        && u <= 0x200A) || u == 0x2028 || u == 0x2029 || u == 0x202F || u == 0x205F || u == 0x3000
}

/// The number of whitespace characters that `s` begins with.
pub open spec fn lead(s: Seq<char>) -> nat
    decreases s.len(),
{
    if s.len() > 0 && is_white(s[0]) {
        1 + lead(s.drop_first())
    } else {
        0
    }
}

/// The number of whitespace characters that `s` ends with.
pub open spec fn trail(s: Seq<char>) -> nat
    decreases s.len(),
{
    if s.len() > 0 && is_white(s.last()) {
        1 + trail(s.drop_last())
    } else {
        0
    }
}

/// `s` without leading and trailing whitespace.
pub open spec fn trim_spec(s: Seq<char>) -> Seq<char> {
    if lead(s) == s.len() {
        Seq::empty()
    } else {
        s.subrange(lead(s) as int, s.len() - trail(s))
    }
}

/// `lead` is the position of the first non-whitespace character.
pub proof fn lemma_lead(s: Seq<char>, k: int)
    requires
        0 <= k <= s.len(),
        forall|i: int| 0 <= i < k ==> is_white(#[trigger] s[i]),
        k == s.len() || !is_white(s[k]),
    ensures
        lead(s) == k,
    decreases k,
{
    if k > 0 {
        assert forall|i: int| 0 <= i < k - 1 implies is_white(#[trigger] s.drop_first()[i]) by {
            assert(s.drop_first()[i] == s[i + 1]);
        }
        if k < s.len() {
            assert(s.drop_first()[k - 1] == s[k]);
        }
        lemma_lead(s.drop_first(), k - 1);
    }
}

/// `trail` counts back to the last non-whitespace character.
pub proof fn lemma_trail(s: Seq<char>, k: int)
    requires
        0 <= k <= s.len(),
        forall|i: int| k <= i < s.len() ==> is_white(#[trigger] s[i]),
        k == 0 || !is_white(s[k - 1]),
    ensures
        trail(s) == s.len() - k,
    decreases s.len() - k,
{
    if k < s.len() {
        assert forall|i: int| k <= i < s.len() - 1 implies is_white(#[trigger] s.drop_last()[i]) by {
            assert(s.drop_last()[i] == s[i]);
        }
        lemma_trail(s.drop_last(), k);
    }
}

/// The bounds `[start, end)` of `s[from..to]` without surrounding whitespace.
pub fn trim_bounds(s: &[char], from: usize, to: usize) -> (r: (usize, usize))
    requires
        from <= to <= s.len(),
    ensures
        from <= r.0 <= r.1 <= to,
        s@.subrange(r.0 as int, r.1 as int) == trim_spec(s@.subrange(from as int, to as int)),
{
    let ghost t = s@.subrange(from as int, to as int);
    let mut start = from;
    while start < to && is_whitespace(s[start])
        invariant
            from <= start <= to <= s.len(),
            t == s@.subrange(from as int, to as int),
            forall|i: int| from <= i < start ==> is_white(#[trigger] s@[i]),
        decreases to - start,
    {
        start += 1;
    }
    proof {
        assert forall|i: int| 0 <= i < start - from implies is_white(#[trigger] t[i]) by {
            assert(t[i] == s@[from + i]);
        }
        if start < to {
            assert(t[start - from] == s@[start as int]);
        }
        lemma_lead(t, start - from);
    }
    if start == to {
        assert(s@.subrange(start as int, start as int) =~= Seq::<char>::empty());
        return (start, start);
    }
    let mut end = to;
    while end > start && is_whitespace(s[end - 1])
        invariant
            from <= start < to,
            start <= end <= to <= s.len(),
            !is_white(s@[start as int]),
            forall|i: int| end <= i < to ==> is_white(#[trigger] s@[i]),
        decreases end - start,
    {
        end -= 1;
    }
    proof {
        assert(end > start);
        assert forall|i: int| end - from <= i < t.len() implies is_white(#[trigger] t[i]) by {
            assert(t[i] == s@[from + i]);
        }
        assert(t[end - from - 1] == s@[end - 1]);
        lemma_trail(t, end - from);
        assert(s@.subrange(start as int, end as int) =~= t.subrange(lead(t) as int, t.len() - trail(t)));
    }
    (start, end)
}

/// `s` without leading and trailing whitespace.
pub fn trim(s: &[char]) -> (r: Vec<char>)
    ensures
        r@ == trim_spec(s@),
{
    let (a, b) = trim_bounds(s, 0, s.len());
    assert(s@.subrange(0, s@.len() as int) =~= s@);
    vstd::slice::slice_to_vec(vstd::slice::slice_subrange(s, a, b))
}

/// The first position of `c` in `s`, or -1.
pub open spec fn find_char(s: Seq<char>, c: char) -> int
    decreases s.len(),
{
    if s.len() == 0 {
        -1
    } else if s[0] == c {
        0
    } else if find_char(s.drop_first(), c) < 0 {
        -1
    } else {
        find_char(s.drop_first(), c) + 1
    }
}

/// `find_char` is the first position holding `c`.
pub proof fn lemma_find_char(s: Seq<char>, c: char, k: int)
    requires
        0 <= k <= s.len(),
        forall|i: int| 0 <= i < k ==> #[trigger] s[i] != c,
        k == s.len() || s[k] == c,
    ensures
        find_char(s, c) == (if k == s.len() { -1 } else { k }),
    decreases k,
{
    if k > 0 {
        assert forall|i: int| 0 <= i < k - 1 implies #[trigger] s.drop_first()[i] != c by {
            assert(s.drop_first()[i] == s[i + 1]);
        }
        if k < s.len() {
            assert(s.drop_first()[k - 1] == s[k]);
        }
        lemma_find_char(s.drop_first(), c, k - 1);
    }
}

/// Before the first position of `c`, and anywhere if there is none, no
/// character is `c`.
pub proof fn lemma_find_char_first(s: Seq<char>, c: char, i: int)
    requires
        0 <= i < s.len(),
        find_char(s, c) < 0 || i < find_char(s, c),
    ensures
        s[i] != c,
    decreases s.len(),
{
    if i > 0 {
        assert(s.drop_first()[i - 1] == s[i]);
        lemma_find_char_first(s.drop_first(), c, i - 1);
    }
}

/// Where `find_char` finds a position, it holds `c`.
pub proof fn lemma_find_char_found(s: Seq<char>, c: char)
    requires
        find_char(s, c) >= 0,
    ensures
        find_char(s, c) < s.len(),
        s[find_char(s, c)] == c,
    decreases s.len(),
{
    if s[0] != c {
        lemma_find_char_found(s.drop_first(), c);
    }
}

/// Searching a prefix of `s` finds what searching `s` finds, if it lies in
/// the prefix, and nothing otherwise.
pub proof fn lemma_find_char_take(s: Seq<char>, c: char, n: int)
    requires
        0 <= n <= s.len(),
    ensures
        find_char(s.take(n), c) == (if 0 <= find_char(s, c) < n { find_char(s, c) } else { -1 }),
{
    let p = s.take(n);
    let f = find_char(s, c);
    if 0 <= f < n {
        lemma_find_char_found(s, c);
        assert forall|i: int| 0 <= i < f implies #[trigger] p[i] != c by {
            lemma_find_char_first(s, c, i);
        }
        lemma_find_char(p, c, f);
    } else {
        assert forall|i: int| 0 <= i < n implies #[trigger] p[i] != c by {
            if f >= 0 {
                lemma_find_char_found(s, c);
            }
            lemma_find_char_first(s, c, i);
        }
        lemma_find_char(p, c, n);
    }
}

/// The first position of `c` in `s[from..]`, counted from `from`, if any.
pub fn find_char_from(s: &[char], from: usize, c: char) -> (r: Option<usize>)
    requires
        from <= s.len(),
    ensures
        find_char(s@.skip(from as int), c) == (match r {
            Some(k) => k - from,
            None => -1int,
        }),
        r matches Some(k) ==> from <= k < s.len() && s@[k as int] == c,
{
    let mut i = from;
    while i < s.len()
        invariant
            from <= i <= s.len(),
            forall|j: int| from <= j < i ==> #[trigger] s@[j] != c,
        decreases s.len() - i,
    {
        if s[i] == c {
            proof {
                let t = s@.skip(from as int);
                assert forall|j: int| 0 <= j < i - from implies #[trigger] t[j] != c by {
                    assert(t[j] == s@[from + j]);
                }
                lemma_find_char(t, c, i - from);
            }
            return Some(i);
        }
        i += 1;
    }
    proof {
        let t = s@.skip(from as int);
        assert forall|j: int| 0 <= j < t.len() implies #[trigger] t[j] != c by {
            assert(t[j] == s@[from + j]);
        }
        lemma_find_char(t, c, t.len() as int);
    }
    None
}

/// Whether `s` begins with `prefix`.
pub open spec fn has_prefix(s: Seq<char>, prefix: Seq<char>) -> bool {
    prefix.len() <= s.len() && s.take(prefix.len() as int) == prefix
}

/// Whether `s` begins with `prefix`.
pub fn starts_with(s: &[char], prefix: &[char]) -> (b: bool)
    ensures
        b == has_prefix(s@, prefix@),
{
    if prefix.len() > s.len() {
        return false;
    }
    let mut i: usize = 0;
    while i < prefix.len()
        invariant
            prefix.len() <= s.len(),
            i <= prefix.len(),
            forall|j: int| 0 <= j < i ==> s@[j] == prefix@[j],
        decreases prefix.len() - i,
    {
        if s[i] != prefix[i] {
            assert(s@.take(prefix.len() as int)[i as int] != prefix@[i as int]);
            return false;
        }
        i += 1;
    }
    assert(s@.take(prefix.len() as int) =~= prefix@);
    true
}

/// Whether `a` and `b` hold the same characters.
pub fn same(a: &[char], b: &[char]) -> (r: bool)
    ensures
        r == (a@ == b@),
{
    if a.len() != b.len() {
        return false;
    }
    let r = starts_with(a, b);
    assert(a@.take(b.len() as int) =~= a@);
    r
}

/// Appends the characters of `text` to `out`.
pub fn push_all(out: &mut Vec<char>, text: &[char])
    ensures
        final(out)@ == old(out)@ + text@,
{
    let mut i: usize = 0;
    while i < text.len()
        invariant
            i <= text.len(),
            out@ == old(out)@ + text@.take(i as int),
        decreases text.len() - i,
    {
        out.push(text[i]);
        assert(text@.take(i as int + 1) =~= text@.take(i as int).push(text@[i as int]));
        i += 1;
    }
    assert(text@.take(text.len() as int) =~= text@);
}

/// Appends the characters of `text` to `out`.
pub fn push_str(out: &mut Vec<char>, text: &str)
    ensures
        final(out)@ == old(out)@ + text@,
{
    let chars = chars_of(text);
    push_all(out, &chars);
}

/// The characters of `text`.
pub fn lit(text: &str) -> (r: Vec<char>)
    ensures
        r@ == text@,
{
    chars_of(text)
}

/// A part of a sequence takes no more bytes than the whole.
pub proof fn lemma_byte_len_subrange(s: Seq<char>, i: int, j: int)
    requires
        0 <= i <= j <= s.len(),
    ensures
        byte_len(s.subrange(i, j)) <= byte_len(s),
        byte_len(s.take(j)) <= byte_len(s),
{
    lemma_byte_len_concat(s.take(i), s.subrange(i, j));
    lemma_byte_len_concat(s.take(j), s.skip(j));
    assert(s.take(i) + s.subrange(i, j) =~= s.take(j));
    assert(s.take(j) + s.skip(j) =~= s);
}

/// The first position at which `pat` occurs in `s`, or -1.
pub open spec fn find_sub(s: Seq<char>, pat: Seq<char>) -> int
    decreases s.len(),
{
    if has_prefix(s, pat) {
        0
    } else if s.len() == 0 {
        -1
    } else if find_sub(s.drop_first(), pat) < 0 {
        -1
    } else {
        find_sub(s.drop_first(), pat) + 1
    }
}

/// `find_sub` is the first position where `pat` occurs.
pub proof fn lemma_find_sub(s: Seq<char>, pat: Seq<char>, k: int)
    requires
        0 <= k <= s.len(),
        forall|i: int| 0 <= i < k ==> !#[trigger] has_prefix(s.skip(i), pat),
        has_prefix(s.skip(k), pat),
    ensures
        find_sub(s, pat) == k,
    decreases k,
{
    assert(s.skip(0) =~= s);
    if k > 0 {
        assert(!has_prefix(s.skip(0), pat));
        let t = s.drop_first();
        assert forall|i: int| 0 <= i < k - 1 implies !#[trigger] has_prefix(t.skip(i), pat) by {
            assert(t.skip(i) =~= s.skip(i + 1));
            assert(!has_prefix(s.skip(i + 1), pat));
        }
        assert(t.skip(k - 1) =~= s.skip(k));
        lemma_find_sub(t, pat, k - 1);
    }
}

/// `find_sub` is -1 where `pat` occurs nowhere.
pub proof fn lemma_find_sub_none(s: Seq<char>, pat: Seq<char>)
    requires
        forall|i: int| 0 <= i <= s.len() ==> !#[trigger] has_prefix(s.skip(i), pat),
    ensures
        find_sub(s, pat) == -1,
    decreases s.len(),
{
    assert(s.skip(0) =~= s);
    assert(!has_prefix(s.skip(0), pat));
    if s.len() > 0 {
        let t = s.drop_first();
        assert forall|i: int| 0 <= i <= t.len() implies !#[trigger] has_prefix(t.skip(i), pat) by {
            assert(t.skip(i) =~= s.skip(i + 1));
            assert(!has_prefix(s.skip(i + 1), pat));
        }
        lemma_find_sub_none(t, pat);
    }
}

/// The first position at or after `from` where `pat` occurs in `s`.
pub fn find_str(s: &[char], from: usize, pat: &[char]) -> (r: Option<usize>)
    requires
        from <= s.len(),
    ensures
        find_sub(s@.skip(from as int), pat@) == (match r {
            Some(k) => k - from,
            None => -1int,
        }),
        r matches Some(k) ==> from <= k <= s.len() && has_prefix(s@.skip(k as int), pat@),
{
    let ghost t = s@.skip(from as int);
    let mut i = from;
    while i <= s.len()
        invariant
            from <= i <= s.len(),
            t == s@.skip(from as int),
            forall|j: int| 0 <= j < i - from ==> !#[trigger] has_prefix(t.skip(j), pat@),
        decreases s.len() + 1 - i,
    {
        let rest = vstd::slice::slice_subrange(s, i, s.len());
        assert(rest@ =~= s@.skip(i as int));
        assert(t.skip(i - from) =~= s@.skip(i as int));
        if starts_with(rest, pat) {
            proof {
                lemma_find_sub(t, pat@, i - from);
            }
            return Some(i);
        }
        if i == s.len() {
            proof {
                assert forall|j: int| 0 <= j <= t.len() implies !#[trigger] has_prefix(t.skip(j), pat@) by {
                    if j == t.len() {
                        assert(t.skip(j) =~= s@.skip(i as int));
                    }
                }
                lemma_find_sub_none(t, pat@);
            }
            return None;
        }
        i += 1;
    }
    proof {
        assert(false);
    }
    None
}

/// A copy of some characters.
pub fn copy_chars(v: &[char]) -> (r: Vec<char>)
    ensures
        r@ == v@,
{
    vstd::slice::slice_to_vec(v)
}

/// The views of a sequence of character vectors.
pub open spec fn strings_view(v: Seq<Vec<char>>) -> Seq<Seq<char>> {
    v.map_values(|s: Vec<char>| s@)
}

/// The views of a sequence of pairs of character vectors.
pub open spec fn pairs_view(v: Seq<(Vec<char>, Vec<char>)>) -> Seq<(Seq<char>, Seq<char>)> {
    v.map_values(|p: (Vec<char>, Vec<char>)| (p.0@, p.1@))
}

/// The view of an optional character vector.
pub open spec fn opt_view(o: Option<Vec<char>>) -> Option<Seq<char>> {
    match o {
        Some(t) => Some(t@),
        None => None,
    }
}

/// The view of a result that holds text either way.
pub open spec fn text_result(r: Result<Vec<char>, Vec<char>>) -> Result<Seq<char>, Seq<char>> {
    match r {
        Ok(t) => Ok(t@),
        Err(e) => Err(e@),
    }
}
} // verus!
