use vstd::prelude::*;
use super::classes::{
    ByteClass, Quote, MARKER, TAG_END, classify, closer, closer_of, is_whitespace, opened_by,
};
use super::poi::{PointsOfInterest, no_marker_in};
use super::span::Span;

verus! {

/// Where a tag lies in the buffer: its name, its raw attribute bytes if a
/// whitespace byte ended the name, and the offset just past its closing `>`.
pub struct TagModel {
    pub name_start: int,
    pub name_end: int,
    pub attrs: Option<(int, int)>,
    pub end: int,
}

/// A tag's name runs up to the first whitespace byte or `>`.
pub open spec fn ends_name(b: u8) -> bool {
    b == TAG_END || is_whitespace(b)
}

/// The offset of the first byte at or after `from` that ends a tag's name.
pub open spec fn name_end(s: Seq<u8>, from: int) -> Option<int>
    decreases s.len() - from,
{
    if from < 0 || from >= s.len() {
        None
    } else if ends_name(s[from]) {
        Some(from)
    } else {
        name_end(s, from + 1)
    }
}

/// The offset of the `>` that ends a tag whose attribute bytes are scanned
/// from `from`, where `open` says inside which kind of value the scan
/// stands. A `>` inside a value is content; a delimiter outside one opens
/// a value, which runs to the first matching closer.
pub open spec fn tag_end(s: Seq<u8>, from: int, open: Option<Quote>) -> Option<int>
    decreases s.len() - from,
{
    if from < 0 || from >= s.len() {
        None
    } else {
        match open {
            Some(quote) => if s[from] == closer_of(quote) {
                tag_end(s, from + 1, None)
            } else {
                tag_end(s, from + 1, open)
            },
            None => if s[from] == TAG_END {
                Some(from)
            } else {
                tag_end(s, from + 1, opened_by(s[from]))
            },
        }
    }
}

/// The tag that the marker at offset `p` begins. The name starts after the
/// marker. Where `>` ends the name, the tag has no attributes; where
/// whitespace ends it, the attribute bytes run from the next byte to the
/// `>` that ends the tag. A candidate whose `>` never comes yields no tag.
pub open spec fn tag_at(s: Seq<u8>, p: int) -> Option<TagModel> {
    match name_end(s, p + 1) {
        None => None,
        Some(k) => if s[k] == TAG_END {
            Some(TagModel { name_start: p + 1, name_end: k, attrs: None, end: k + 1 })
        } else {
            match tag_end(s, k + 1, None) {
                None => None,
                Some(j) => Some(
                    TagModel { name_start: p + 1, name_end: k, attrs: Some((k + 1, j)), end: j + 1 },
                ),
            }
        },
    }
}

/// A name's end that was found lies at or after the place where the search
/// began, and no byte before it ends a name.
pub proof fn lemma_name_end_bounds(s: Seq<u8>, from: int)
    ensures
        match name_end(s, from) {
            Some(k) => {
                &&& 0 <= from <= k < s.len()
                &&& ends_name(s[k])
                &&& forall|i: int| from <= i < k ==> !ends_name(s[i])
            },
            None => forall|i: int| 0 <= from <= i < s.len() ==> !ends_name(s[i]),
        },
    decreases s.len() - from,
{
    if 0 <= from < s.len() && !ends_name(s[from]) {
        lemma_name_end_bounds(s, from + 1);
    }
}

/// Where no byte from `from` up to `k` ends a name and the byte at `k` does,
/// the name that starts at `from` ends at `k`.
pub proof fn lemma_name_end_is(s: Seq<u8>, from: int, k: int)
    requires
        0 <= from <= k < s.len(),
        ends_name(s[k]),
        forall|i: int| from <= i < k ==> !ends_name(s[i]),
    ensures
        name_end(s, from) == Some(k),
    decreases k - from,
{
    if from < k {
        lemma_name_end_is(s, from + 1, k);
    }
}

/// The `>` that ends a tag lies at or after the place where the search began.
pub proof fn lemma_tag_end_bounds(s: Seq<u8>, from: int, open: Option<Quote>)
    ensures
        match tag_end(s, from, open) {
            Some(j) => 0 <= from <= j < s.len() && s[j] == TAG_END,
            None => true,
        },
    decreases s.len() - from,
{
    if 0 <= from < s.len() {
        match open {
            Some(quote) => if s[from] == closer_of(quote) {
                lemma_tag_end_bounds(s, from + 1, None);
            } else {
                lemma_tag_end_bounds(s, from + 1, open);
            },
            None => if s[from] != TAG_END {
                lemma_tag_end_bounds(s, from + 1, opened_by(s[from]));
            },
        }
    }
}

/// A tag lies after its marker and inside the buffer, in the order marker,
/// name, attributes, `>`.
pub proof fn lemma_tag_at_bounds(s: Seq<u8>, p: int)
    requires
        0 <= p,
    ensures
        match tag_at(s, p) {
            Some(tag) => {
                &&& tag.name_start == p + 1
                &&& tag.name_start <= tag.name_end < tag.end <= s.len()
                &&& s[tag.end - 1] == TAG_END
                &&& match tag.attrs {
                    Some((lo, hi)) => lo == tag.name_end + 1 && lo <= hi && hi + 1 == tag.end,
                    None => tag.end == tag.name_end + 1,
                }
            },
            None => true,
        },
{
    lemma_name_end_bounds(s, p + 1);
    match name_end(s, p + 1) {
        Some(k) => {
            lemma_tag_end_bounds(s, k + 1, None);
        },
        None => {},
    }
}

/// Where a tag lies in the buffer, as the tag extractor reports it.
#[derive(Copy, Clone, Debug, PartialEq, Eq)]
pub struct TagBounds {
    /// The bytes of the name, which start after the marker
    pub name: Span,
    /// The raw attribute bytes, absent where `>` ended the name
    pub attrs: Option<Span>,
    /// The offset just past the closing `>`
    pub end: usize,
}

impl View for TagBounds {
    type V = TagModel;

    open spec fn view(&self) -> TagModel {
        TagModel {
            name_start: self.name.start as int,
            name_end: self.name.end as int,
            attrs: match self.attrs {
                Some(span) => Some((span.start as int, span.end as int)),
                None => None,
            },
            end: self.end as int,
        }
    }
}

/// Looks for the byte that ends the name which starts at `from`.
pub fn find_name_end(input: &[u8], from: usize) -> (end: Option<usize>)
    ensures
        match end {
            Some(k) => {
                &&& name_end(input@, from as int) == Some(k as int)
                &&& from <= k < input@.len()
                &&& ends_name(input@[k as int])
                &&& forall|i: int| from <= i < k ==> !ends_name(input@[i])
            },
            None => {
                &&& name_end(input@, from as int) is None
                &&& forall|i: int| from <= i < input@.len() ==> !ends_name(input@[i])
            },
        },
{
    let mut i: usize = from;
    while i < input.len()
        invariant
            from <= i,
            name_end(input@, from as int) == name_end(input@, i as int),
        decreases input@.len() - i,
    {
        proof {
            lemma_name_end_bounds(input@, from as int);
        }
        match classify(input[i]) {
            ByteClass::TagEnd => {
                return Some(i);
            },
            ByteClass::Whitespace => {
                return Some(i);
            },
            _ => {},
        }
        i += 1;
    }
    proof {
        lemma_name_end_bounds(input@, from as int);
    }
    None
}

/// Looks for the `>` that ends the tag whose attribute bytes start at
/// `from`, keeping track of the attribute value that is open.
pub fn find_tag_end(input: &[u8], from: usize) -> (end: Option<usize>)
    ensures
        match end {
            Some(j) => tag_end(input@, from as int, None) == Some(j as int),
            None => tag_end(input@, from as int, None) is None,
        },
{
    let mut open: Option<Quote> = None;
    let mut i: usize = from;
    while i < input.len()
        invariant
            from <= i,
            tag_end(input@, from as int, None) == tag_end(input@, i as int, open),
        decreases input@.len() - i,
    {
        let b: u8 = input[i];
        match open {
            Some(quote) => {
                if b == closer(quote) {
                    open = None;
                }
            },
            None => {
                match classify(b) {
                    ByteClass::TagEnd => {
                        return Some(i);
                    },
                    ByteClass::SingleQuote => {
                        open = Some(Quote::Single);
                    },
                    ByteClass::DoubleQuote => {
                        open = Some(Quote::Double);
                    },
                    ByteClass::CurlyOpen => {
                        open = Some(Quote::Curly);
                    },
                    _ => {},
                }
            },
        }
        i += 1;
    }
    None
}

/// Splits the tag that the marker at offset `p` begins into its name and
/// its raw attribute bytes.
pub fn extract_tag(input: &[u8], p: usize) -> (found: Option<TagBounds>)
    ensures
        match found {
            Some(tag) => tag_at(input@, p as int) == Some(tag@),
            None => tag_at(input@, p as int) is None,
        },
{
    if p >= input.len() {
        return None;
    }
    proof {
        lemma_name_end_bounds(input@, p + 1);
    }
    match find_name_end(input, p + 1) {
        None => None,
        Some(k) => {
            if input[k] == TAG_END {
                Some(TagBounds { name: Span::new(p + 1, k), attrs: None, end: k + 1 })
            } else {
                proof {
                    lemma_tag_end_bounds(input@, k + 1, None);
                }
                match find_tag_end(input, k + 1) {
                    None => None,
                    Some(j) => Some(
                        TagBounds {
                            name: Span::new(p + 1, k),
                            attrs: Some(Span::new(k + 1, j)),
                            end: j + 1,
                        },
                    ),
                }
            }
        },
    }
}

/// The bytes of a tag: its name and its raw attributes
pub struct TagView {
    pub name: Seq<u8>,
    pub attrs: Option<Seq<u8>>,
}

/// The bytes that a tag covers in the buffer.
pub open spec fn tag_bytes(s: Seq<u8>, tag: TagModel) -> TagView {
    TagView {
        name: s.subrange(tag.name_start, tag.name_end),
        attrs: match tag.attrs {
            Some((lo, hi)) => Some(s.subrange(lo, hi)),
            None => None,
        },
    }
}

/// An HTML tag: its name and, where whitespace followed the name, the raw
/// bytes of its attributes
#[derive(Copy, Clone, Debug, PartialEq, Eq)]
pub struct Tag<'a> {
    pub name: &'a [u8],
    pub attrs: Option<&'a [u8]>,
}

impl<'a> View for Tag<'a> {
    type V = TagView;

    open spec fn view(&self) -> TagView {
        TagView {
            name: self.name@,
            attrs: match self.attrs {
                Some(bytes) => Some(bytes@),
                None => None,
            },
        }
    }
}

/// The tags that the markers at or after `at` begin, in order. A marker
/// directly followed by whitespace or `>` begins a tag without a name, which
/// is no tag. With the first candidate for which no tag end is reached
/// before the buffer ends, the sequence ends.
pub open spec fn tags_from(s: Seq<u8>, at: int) -> Seq<TagModel>
    decreases s.len() - at,
{
    if at < 0 || at >= s.len() {
        Seq::empty()
    } else if s[at] != MARKER {
        tags_from(s, at + 1)
    } else {
        match name_end(s, at + 1) {
            None => Seq::empty(),
            Some(k) => if k == at + 1 {
                tags_from(s, at + 1)
            } else {
                match tag_at(s, at) {
                    None => Seq::empty(),
                    Some(tag) => seq![tag] + tags_from(s, at + 1),
                }
            },
        }
    }
}

/// The tags of a buffer, in order.
pub open spec fn tags_of(s: Seq<u8>) -> Seq<TagModel> {
    tags_from(s, 0)
}

/// Bytes that hold no marker begin no tag.
pub proof fn lemma_tags_skip(s: Seq<u8>, from: int, to: int)
    requires
        0 <= from <= to <= s.len(),
        no_marker_in(s, from, to),
    ensures
        tags_from(s, from) == tags_from(s, to),
    decreases to - from,
{
    if from < to {
        lemma_tags_skip(s, from + 1, to);
    }
}

/// There are no more tags than bytes.
pub proof fn lemma_tags_len(s: Seq<u8>, at: int)
    requires
        0 <= at <= s.len(),
    ensures
        tags_from(s, at).len() <= s.len() - at,
    decreases s.len() - at,
{
    if at < s.len() {
        lemma_tags_len(s, at + 1);
    }
}

/// Finds HTML tags and their attributes in a byte slice
pub struct FindTags<'a> {
    input: &'a [u8],
    points: PointsOfInterest<'a>,
    /// Set once a candidate has reached the end of the input without a `>`
    done: bool,
}

impl<'a> View for FindTags<'a> {
    type V = Seq<TagModel>;

    /// The tags still to come, in the order in which they come.
    open spec fn view(&self) -> Seq<TagModel> {
        if self.finished() {
            Seq::empty()
        } else {
            tags_from(self.bytes(), self.cursor())
        }
    }
}

impl<'a> FindTags<'a> {
    #[verifier::type_invariant]
    spec fn inv(self) -> bool {
        &&& self.points.bytes() == self.input@
        &&& 0 <= self.points.cursor() <= self.input@.len()
    }

    /// The buffer that is scanned.
    pub closed spec fn bytes(&self) -> Seq<u8> {
        self.input@
    }

    /// The offset up to which the buffer has been searched for markers.
    pub closed spec fn cursor(&self) -> int {
        self.points.cursor()
    }

    /// Whether the extraction has ended before the markers did.
    pub closed spec fn finished(&self) -> bool {
        self.done
    }

    pub fn new(input: &'a [u8]) -> (tags: Self)
        ensures
            tags.bytes() == input@,
            tags@ == tags_of(input@),
    {
        Self { input, points: PointsOfInterest::new(input), done: false }
    }

    /// Yields the bounds of the next tag, or `None` once no tag is left.
    pub fn next_bounds(&mut self) -> (found: Option<TagBounds>)
        ensures
            final(self).bytes() == old(self).bytes(),
            match found {
                Some(tag) => {
                    &&& old(self)@ == seq![tag@] + final(self)@
                    &&& tag.name.start < tag.name.end < tag.end <= old(self).bytes().len()
                    &&& match tag.attrs {
                        Some(span) => span.start == tag.name.end + 1 && span.start <= span.end
                            && span.end + 1 == tag.end,
                        None => tag.end == tag.name.end + 1,
                    }
                },
                None => old(self)@ == Seq::<TagModel>::empty() && final(self)@ == Seq::<
                    TagModel,
                >::empty(),
            },
    {
        proof {
            use_type_invariant(&*self);
        }
        let input = self.input;
        let mut points = self.points;
        let n: usize = input.len();
        if self.done {
            return None;
        }
        loop
            invariant
                *self == *old(self),
                n == input@.len(),
                input == self.input,
                !self.done,
                points.bytes() == input@,
                0 <= old(self).cursor() <= points.cursor() <= input@.len(),
                tags_from(input@, old(self).cursor()) == tags_from(input@, points.cursor()),
            decreases input@.len() - points.cursor(),
        {
            let ghost from = points.cursor();
            match points.next() {
                None => {
                    proof {
                        lemma_tags_skip(input@, from, input@.len() as int);
                    }
                    *self = FindTags { input, points, done: true };
                    return None;
                },
                Some(p) => {
                    proof {
                        lemma_tags_skip(input@, from, p as int);
                        lemma_name_end_bounds(input@, p + 1);
                        lemma_tag_at_bounds(input@, p as int);
                    }
                    if p + 1 < n && ends_a_name(input[p + 1]) {
                        // a marker without a name after it is no tag
                    } else {
                        match extract_tag(input, p) {
                            Some(tag) => {
                                *self = FindTags { input, points, done: false };
                                return Some(tag);
                            },
                            None => {
                                *self = FindTags { input, points, done: true };
                                return None;
                            },
                        }
                    }
                },
            }
        }
    }

    /// Yields the next tag, or `None` once no tag is left.
    pub fn next(&mut self) -> (found: Option<Tag<'a>>)
        ensures
            final(self).bytes() == old(self).bytes(),
            match found {
                Some(tag) => {
                    &&& old(self)@.len() > 0
                    &&& tag@ == tag_bytes(old(self).bytes(), old(self)@.first())
                    &&& tag.name@.len() > 0
                    &&& final(self)@ == old(self)@.drop_first()
                },
                None => old(self)@ == Seq::<TagModel>::empty() && final(self)@ == Seq::<
                    TagModel,
                >::empty(),
            },
    {
        proof {
            use_type_invariant(&*self);
        }
        let input = self.input;
        match self.next_bounds() {
            None => None,
            Some(bounds) => {
                assert(old(self)@.first() == bounds@);
                assert(final(self)@ =~= old(self)@.drop_first());
                let name = vstd::slice::slice_subrange(input, bounds.name.start, bounds.name.end);
                let attrs = match bounds.attrs {
                    Some(span) => Some(vstd::slice::slice_subrange(input, span.start, span.end)),
                    None => None,
                };
                Some(Tag { name, attrs })
            },
        }
    }

    /// Counts the tags still to come.
    pub fn count(self) -> (n: usize)
        ensures
            n == self@.len(),
    {
        let mut tags = self;
        let mut n: usize = 0;
        proof {
            use_type_invariant(&tags);
            lemma_tags_len(tags.bytes(), tags.cursor());
            assert(tags.input@.len() == tags.input.len());
        }
        loop
            invariant
                n + tags@.len() == self@.len(),
                self@.len() <= usize::MAX,
            decreases tags@.len(),
        {
            match tags.next_bounds() {
                Some(_) => {
                    n += 1;
                },
                None => {
                    return n;
                },
            }
        }
    }
}

/// Whether a byte ends a tag's name.
fn ends_a_name(b: u8) -> (ends: bool)
    ensures
        ends == ends_name(b),
{
    match classify(b) {
        ByteClass::TagEnd => true,
        ByteClass::Whitespace => true,
        _ => false,
    }
}

} // verus!
