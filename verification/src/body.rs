//! Output buffers: the `Sink` trait and the segmented `Body`.

use vstd::prelude::*;

use crate::chars::{byte_len, lemma_byte_len_concat, lemma_byte_len_zero, string_with_capacity};

verus! {

/// One piece of a `Body`: borrowed static text or an owned copy.
pub enum Segment {
    Static(&'static str),
    Owned(String),
}

impl Segment {
    /// The characters this segment holds.
    pub open spec fn text(&self) -> Seq<char> {
        match self {
            Segment::Static(t) => t@,
            Segment::Owned(s) => s@,
        }
    }
}

/// One write into a sink: static text, or a copy of borrowed text.
pub enum Piece {
    Static(Seq<char>),
    Owned(Seq<char>),
}

impl Piece {
    /// The text of the write.
    pub open spec fn text(self) -> Seq<char> {
        match self {
            Piece::Static(t) => t,
            Piece::Owned(t) => t,
        }
    }
}

/// The texts of some writes, one after the other.
pub open spec fn pieces_text(pieces: Seq<Piece>) -> Seq<char>
    decreases pieces.len(),
{
    if pieces.len() == 0 {
        Seq::empty()
    } else {
        pieces_text(pieces.drop_last()) + pieces.last().text()
    }
}

/// The write that a segment records.
pub open spec fn segment_piece(segment: Segment) -> Piece {
    match segment {
        Segment::Static(t) => Piece::Static(t@),
        Segment::Owned(s) => Piece::Owned(s@),
    }
}

/// The concatenation of the segments' texts, in order.
pub open spec fn segments_text(segments: Seq<Segment>) -> Seq<char>
    decreases segments.len(),
{
    if segments.len() == 0 {
        Seq::empty()
    } else {
        segments_text(segments.drop_last()) + segments.last().text()
    }
}

/// Rendered output kept as a list of segments, with its total length in
/// bytes tracked as the segments are added.
pub struct Body {
    len: usize,
    segments: Vec<Segment>,
}

impl View for Body {
    type V = Seq<char>;

    closed spec fn view(&self) -> Seq<char> {
        segments_text(self.segments@)
    }
}

impl Body {
    /// The writes the body holds, in order: one for each segment.
    pub closed spec fn writes(&self) -> Seq<Piece> {
        self.segments@.map_values(|seg: Segment| segment_piece(seg))
    }

    /// The recorded length: always the UTF-8 byte length of the text.
    #[verifier::type_invariant]
    spec fn len_matches(self) -> bool {
        self.len == byte_len(self@)
    }

    /// An empty body with room for `parts` segments.
    pub fn with_capacity(parts: usize) -> (b: Self)
        ensures
            b@ == Seq::<char>::empty(),
            b.writes() == Seq::<Piece>::empty(),
    {
        proof {
            lemma_byte_len_zero(Seq::<char>::empty());
        }
        let b = Self { len: 0, segments: Vec::with_capacity(parts) };
        assert(b.writes() =~= Seq::<Piece>::empty());
        b
    }

    /// A body holding exactly `text`.
    pub fn from_static(text: &'static str) -> (b: Self)
        ensures
            b@ == text@,
            b.writes() == seq![Piece::Static(text@)],
    {
        let mut segments: Vec<Segment> = Vec::new();
        segments.push(Segment::Static(text));
        proof {
            assert(segments@.drop_last() =~= Seq::<Segment>::empty());
            assert(segments_text(Seq::<Segment>::empty()) =~= Seq::<char>::empty());
            assert(segments@.last() == Segment::Static(text));
            assert(segments_text(segments@) =~= text@);
        }
        let b = Self { len: text.as_bytes().len(), segments };
        assert(b.writes() =~= seq![Piece::Static(text@)]);
        b
    }

    /// The length of the text in bytes.
    pub fn len(&self) -> (n: usize)
        ensures
            n == byte_len(self@),
    {
        proof {
            use_type_invariant(self);
        }
        self.len
    }

    /// Whether the body holds no text.
    pub fn is_empty(&self) -> (b: bool)
        ensures
            b == (self@.len() == 0),
    {
        proof {
            use_type_invariant(self);
            lemma_byte_len_zero(self@);
        }
        self.len == 0
    }

    /// The text of the body as one string.
    pub fn finish(self) -> (out: String)
        ensures
            out@ == self@,
            byte_len(out@) == byte_len(self@),
    {
        proof {
            use_type_invariant(&self);
        }
        let mut out = string_with_capacity(self.len);
        let n = self.segments.len();
        let mut i: usize = 0;
        while i < n
            invariant
                n == self.segments@.len(),
                i <= n,
                out@ == segments_text(self.segments@.take(i as int)),
            decreases n - i,
        {
            match &self.segments[i] {
                Segment::Static(text) => out.append(text),
                Segment::Owned(text) => out.append(text.as_str()),
            }
            proof {
                assert(self.segments@.take(i as int + 1).drop_last() =~= self.segments@.take(
                    i as int,
                ));
            }
            i += 1;
        }
        assert(self.segments@.take(n as int) =~= self.segments@);
        out
    }

    fn push_segment(&mut self, segment: Segment, bytes: usize)
        requires
            bytes == byte_len(segment.text()),
            old(self).len + bytes <= usize::MAX,
        ensures
            final(self)@ == old(self)@ + segment.text(),
            final(self).writes() == old(self).writes().push(segment_piece(segment)),
    {
        proof {
            use_type_invariant(&*self);
            lemma_byte_len_concat(self@, segment.text());
        }
        let mut taken = Body { len: 0, segments: Vec::new() };
        proof {
            lemma_byte_len_zero(Seq::<char>::empty());
        }
        std::mem::swap(self, &mut taken);
        proof {
            use_type_invariant(&taken);
        }
        let Body { len, mut segments } = taken;
        let ghost prev = segments@;
        let ghost before = taken.writes();
        segments.push(segment);
        proof {
            assert(segments@.drop_last() =~= prev);
        }
        *self = Body { len: len + bytes, segments };
        assert(self.writes() =~= before.push(segment_piece(segment)));
    }
}

/// Something that rendered text can be appended to.
pub trait Sink {
    /// The text appended so far.
    spec fn written(&self) -> Seq<char>;

    /// Whether a sink of this kind can hold `text` in all.
    spec fn holds(text: Seq<char>) -> bool;

    /// Whether a sink of this kind keeps its writes apart.
    spec fn keeps_pieces() -> bool;

    /// The writes made into the sink, in order, where it keeps them apart.
    spec fn pieces(&self) -> Seq<Piece>;

    /// What a sink can hold, it can hold any prefix of.
    proof fn lemma_holds_prefix(a: Seq<char>, b: Seq<char>)
        requires
            Self::holds(a + b),
        ensures
            Self::holds(a),
    ;

    /// Appends `text`, as one static write.
    fn put_static(&mut self, text: &'static str)
        requires
            Self::holds(old(self).written() + text@),
        ensures
            final(self).written() == old(self).written() + text@,
            Self::keeps_pieces() ==> final(self).pieces() == old(self).pieces().push(Piece::Static(text@)),
    ;

    /// Appends a copy of `text`, as one owned write.
    fn put_owned(&mut self, text: &str)
        requires
            Self::holds(old(self).written() + text@),
        ensures
            final(self).written() == old(self).written() + text@,
            Self::keeps_pieces() ==> final(self).pieces() == old(self).pieces().push(Piece::Owned(text@)),
    ;
}

impl Sink for String {
    open spec fn written(&self) -> Seq<char> {
        self@
    }

    open spec fn holds(text: Seq<char>) -> bool {
        true
    }

    /// A string keeps only its text.
    open spec fn keeps_pieces() -> bool {
        false
    }

    open spec fn pieces(&self) -> Seq<Piece> {
        Seq::empty()
    }

    proof fn lemma_holds_prefix(a: Seq<char>, b: Seq<char>) {
    }

    fn put_static(&mut self, text: &'static str) {
        self.append(text);
    }

    fn put_owned(&mut self, text: &str) {
        self.append(text);
    }
}

impl Sink for Body {
    open spec fn written(&self) -> Seq<char> {
        self@
    }

    /// The byte length must fit the `usize` that tracks it.
    open spec fn holds(text: Seq<char>) -> bool {
        byte_len(text) <= usize::MAX
    }

    /// A body keeps each write as a segment.
    open spec fn keeps_pieces() -> bool {
        true
    }

    open spec fn pieces(&self) -> Seq<Piece> {
        self.writes()
    }

    proof fn lemma_holds_prefix(a: Seq<char>, b: Seq<char>) {
        lemma_byte_len_concat(a, b);
    }

    fn put_static(&mut self, text: &'static str) {
        proof {
            use_type_invariant(&*self);
            lemma_byte_len_concat(self@, text@);
        }
        self.push_segment(Segment::Static(text), text.len());
    }

    fn put_owned(&mut self, text: &str) {
        proof {
            use_type_invariant(&*self);
            lemma_byte_len_concat(self@, text@);
        }
        let owned = text.to_owned();
        self.push_segment(Segment::Owned(owned), text.len());
    }
}

/// Each segment's text is the text of its write.
proof fn lemma_segments_pieces(segments: Seq<Segment>)
    ensures
        segments_text(segments) == pieces_text(segments.map_values(|seg: Segment| segment_piece(seg))),
    decreases segments.len(),
{
    if segments.len() > 0 {
        lemma_segments_pieces(segments.drop_last());
        let all = segments.map_values(|seg: Segment| segment_piece(seg));
        assert(all.drop_last() =~= segments.drop_last().map_values(|seg: Segment| segment_piece(seg)));
        assert(all.last() == segment_piece(segments.last()));
    }
}

/// A body's text is the text of its writes, one after the other, in the
/// order they were made: nothing is dropped, repeated or moved.
pub proof fn law_body_text_is_its_writes(b: Body)
    ensures
        b@ == pieces_text(b.writes()),
{
    lemma_segments_pieces(b.segments@);
}

/// The text of writes made one after another is their texts one after
/// another.
pub proof fn law_pieces_text_concat(a: Seq<Piece>, b: Seq<Piece>)
    ensures
        pieces_text(a + b) == pieces_text(a) + pieces_text(b),
    decreases b.len(),
{
    if b.len() == 0 {
        assert(a + b =~= a);
        assert(pieces_text(a) + pieces_text(b) =~= pieces_text(a));
    } else {
        law_pieces_text_concat(a, b.drop_last());
        assert((a + b).drop_last() =~= a + b.drop_last());
        assert((a + b).last() == b.last());
        assert(pieces_text(a + b) =~= pieces_text(a) + pieces_text(b.drop_last()) + b.last().text());
    }
}

} // verus!
