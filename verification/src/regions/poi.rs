use vstd::prelude::*;
use vstd::std_specs::bits::axiom_u64_trailing_zeros;
use super::classes::MARKER;

verus! {

/// The number of bytes that are compared at once
pub const CHUNK: usize = 64;

/// The byte that fills up a chunk shorter than that: it is no marker
pub const PADDING: u8 = 1;

/// Whether no marker stands at the offsets from `lo` up to `hi`.
pub open spec fn no_marker_in(s: Seq<u8>, lo: int, hi: int) -> bool {
    forall|k: int| 0 <= lo <= k < hi && k < s.len() ==> s[k] != MARKER
}

/// Whether `p` is the offset of the first marker at or after `from`.
pub open spec fn is_next_marker(s: Seq<u8>, from: int, p: int) -> bool {
    &&& 0 <= from <= p < s.len()
    &&& s[p] == MARKER
    &&& no_marker_in(s, from, p)
}

/// The offsets of the markers at or after `from`, in ascending order.
pub open spec fn markers_from(s: Seq<u8>, from: int) -> Seq<int>
    decreases s.len() - from,
{
    if from < 0 || from >= s.len() {
        Seq::empty()
    } else if s[from] == MARKER {
        seq![from] + markers_from(s, from + 1)
    } else {
        markers_from(s, from + 1)
    }
}

/// The offsets of all the markers of a buffer, in ascending order.
pub open spec fn markers_of(s: Seq<u8>) -> Seq<int> {
    markers_from(s, 0)
}

/// The markers from `from` on are the first of them and those after it.
pub proof fn lemma_markers_next(s: Seq<u8>, from: int, p: int)
    requires
        is_next_marker(s, from, p),
    ensures
        markers_from(s, from) == seq![p] + markers_from(s, p + 1),
    decreases p - from,
{
    if from < p {
        lemma_markers_next(s, from + 1, p);
    }
}

/// Where no marker is left, the sequence of markers is empty.
pub proof fn lemma_markers_none(s: Seq<u8>, from: int)
    requires
        0 <= from,
        no_marker_in(s, from, s.len() as int),
    ensures
        markers_from(s, from) == Seq::<int>::empty(),
    decreases s.len() - from,
{
    if from < s.len() {
        lemma_markers_none(s, from + 1);
    }
}

/// There are no more markers than bytes.
pub proof fn lemma_markers_len(s: Seq<u8>, from: int)
    requires
        0 <= from <= s.len(),
    ensures
        markers_from(s, from).len() <= s.len() - from,
    decreases s.len() - from,
{
    if from < s.len() {
        lemma_markers_len(s, from + 1);
    }
}

/// Whether bit `k` of a mask is set.
pub open spec fn bit(mask: u64, k: u64) -> bool {
    (mask >> k) & 1 == 1
}

/// Whether the mask has, among its low `n` bits, exactly those set whose
/// byte in the chunk is a marker, and none above them.
pub open spec fn mask_of(mask: u64, chunk: Seq<u8>, n: int) -> bool {
    forall|k: u64| k < 64 ==> (#[trigger] bit(mask, k) <==> (k < n && chunk[k as int] == MARKER))
}

proof fn lemma_bit_zero()
    ensures
        forall|k: u64| k < 64 ==> !#[trigger] bit(0, k),
{
    assert forall|k: u64| k < 64 implies !#[trigger] bit(0, k) by {
        assert(k < 64 ==> (0u64 >> k) & 1 != 1) by (bit_vector);
    }
}

proof fn lemma_bit_set(mask: u64, j: u64)
    requires
        j < 64,
    ensures
        forall|k: u64| k < 64 ==> (#[trigger] bit(mask | (1u64 << j), k) <==> (bit(mask, k) || k == j)),
{
    assert forall|k: u64| k < 64 implies (#[trigger] bit(mask | (1u64 << j), k) <==> (bit(mask, k)
        || k == j)) by {
        assert(j < 64 && k < 64 ==> ((((mask | (1u64 << j)) >> k) & 1 == 1) <==> (((mask >> k) & 1
            == 1) || k == j))) by (bit_vector);
    }
}

proof fn lemma_bit_shift(mask: u64, by: u64)
    requires
        by < 64,
    ensures
        forall|k: u64|
            k < 64 ==> (#[trigger] bit(mask >> by, k) <==> (k + by < 64 && bit(
                mask,
                (k + by) as u64,
            ))),
{
    assert forall|k: u64| k < 64 implies (#[trigger] bit(mask >> by, k) <==> (k + by < 64 && bit(
        mask,
        (k + by) as u64,
    ))) by {
        if k + by < 64 {
            let kb: u64 = (k + by) as u64;
            assert(by < 64 && k < 64 && kb == k + by ==> ((((mask >> by) >> k) & 1 == 1) <==> ((mask
                >> kb) & 1 == 1))) by (bit_vector);
        } else {
            assert(by < 64 && k < 64 && k + by >= 64 ==> ((mask >> by) >> k) & 1 != 1)
                by (bit_vector);
        }
    }
}

/// Compares each byte of a chunk with the marker and gathers the results
/// in a mask, bit `k` for byte `k`.
fn update_from(data: &[u8; CHUNK]) -> (mask: u64)
    ensures
        mask_of(mask, data@, 64),
{
    let mut mask: u64 = 0;
    let mut j: usize = 0;
    proof {
        lemma_bit_zero();
    }
    while j < CHUNK
        invariant
            j <= 64,
            mask_of(mask, data@, j as int),
        decreases 64 - j,
    {
        if data[j] == MARKER {
            proof {
                lemma_bit_set(mask, j as u64);
            }
            mask = mask | (1u64 << (j as u64));
        }
        j += 1;
    }
    mask
}

/// Whether the mask has exactly those bits set whose byte, in the chunk of
/// the buffer that starts at `start`, is a marker.
pub open spec fn chunk_mask(mask: u64, s: Seq<u8>, start: int) -> bool {
    forall|k: u64|
        k < 64 ==> (#[trigger] bit(mask, k) <==> (start + k < s.len() && s[start + k] == MARKER))
}

/// Whether a scan's fields fit together: the mask holds the markers of the
/// current chunk from the current offset on, shifted down by that offset.
pub open spec fn fits(s: Seq<u8>, start: int, offset: int, matches: u64) -> bool {
    &&& 0 <= start
    &&& 0 <= offset <= 64
    &&& start + offset <= s.len()
    &&& forall|k: u64|
        k < 64 ==> (#[trigger] bit(matches, k) <==> (offset + k < 64 && start + offset + k
            < s.len() && s[start + offset + k] == MARKER))
}

/// Copies the chunk of 64 bytes at `start` and computes its mask.
fn update(input: &[u8], start: usize) -> (mask: u64)
    requires
        start + 64 <= input@.len(),
    ensures
        chunk_mask(mask, input@, start as int),
{
    let mut data: [u8; CHUNK] = [PADDING; CHUNK];
    let mut j: usize = 0;
    while j < CHUNK
        invariant
            j <= 64,
            start + 64 <= input.len(),
            forall|k: int| 0 <= k < j ==> data@[k] == input@[start + k],
        decreases 64 - j,
    {
        data[j] = input[start + j];
        j += 1;
    }
    update_from(&data)
}

/// Computes the mask of the last chunk, which is shorter than 64 bytes: it
/// is copied into a buffer whose other bytes are not markers.
fn update_small(input: &[u8], start: usize) -> (mask: u64)
    requires
        start <= input@.len(),
        input@.len() - start < 64,
    ensures
        chunk_mask(mask, input@, start as int),
{
    let rest: usize = input.len() - start;
    let mut data: [u8; CHUNK] = [PADDING; CHUNK];
    let mut j: usize = 0;
    while j < rest
        invariant
            j <= rest,
            rest < 64,
            start + rest == input.len(),
            forall|k: int| 0 <= k < j ==> data@[k] == input@[start + k],
            forall|k: int| j <= k < 64 ==> data@[k] == PADDING,
        decreases rest - j,
    {
        data[j] = input[start + j];
        j += 1;
    }
    update_from(&data)
}

/// Look for the start of HTML tags in a byte slice
///
/// This finds the positions of every `<` character in the input meaning that
/// every valid tag will start at one of these positions. However, this also
/// may return positions that do not represent the start of a valid tag.
///
/// The caller is responsible for validating the tag after the fact.
#[derive(Copy, Clone)]
pub struct PointsOfInterest<'a> {
    /// The input data
    input: &'a [u8],
    /// A bitmask noting every byte in the current chunk that is a tag marker
    matches: u64,
    /// The current chunk position in the input
    start: usize,
    /// The current offset within the current chunk
    offset: usize,
}

impl<'a> View for PointsOfInterest<'a> {
    type V = Seq<int>;

    /// The offsets still to come, in the order in which they come.
    open spec fn view(&self) -> Seq<int> {
        markers_from(self.bytes(), self.cursor())
    }
}

impl<'a> PointsOfInterest<'a> {
    #[verifier::type_invariant]
    spec fn inv(self) -> bool {
        fits(self.input@, self.start as int, self.offset as int, self.matches)
    }

    /// The buffer that is scanned.
    pub closed spec fn bytes(&self) -> Seq<u8> {
        self.input@
    }

    /// The offset up to which the buffer has been scanned.
    pub closed spec fn cursor(&self) -> int {
        self.start + self.offset
    }

    /// Whether the scan rests on a marker that it has found and not yet
    /// passed.
    closed spec fn at_marker(&self) -> bool {
        bit(self.matches, 0)
    }

    pub fn new(input: &'a [u8]) -> (points: Self)
        ensures
            points.bytes() == input@,
            points.cursor() == 0,
            points@ == markers_of(input@),
    {
        let matches: u64 = if input.len() >= CHUNK {
            update(input, 0)
        } else {
            update_small(input, 0)
        };
        PointsOfInterest { input, matches, start: 0, offset: 0 }
    }

    /// Moves on to the next marker and rests on it. Where the mask of the
    /// current chunk is used up, the chunks that follow are loaded one by
    /// one until one of them holds a marker or the input ends.
    fn advance(&mut self) -> (found: bool)
        ensures
            final(self).bytes() == old(self).bytes(),
            found ==> final(self).at_marker() && is_next_marker(
                old(self).bytes(),
                old(self).cursor(),
                final(self).cursor(),
            ),
            !found ==> final(self).cursor() == old(self).bytes().len() && no_marker_in(
                old(self).bytes(),
                old(self).cursor(),
                old(self).bytes().len() as int,
            ),
    {
        proof {
            use_type_invariant(&*self);
        }
        let input = self.input;
        let ghost s = input@;
        let ghost from = self.start + self.offset;
        let mut matches: u64 = self.matches;
        let mut start: usize = self.start;
        let mut offset: usize = self.offset;
        while matches == 0
            invariant
                s == input@,
                s == old(self).bytes(),
                from == old(self).cursor(),
                fits(s, start as int, offset as int, matches),
                from <= start + offset,
                no_marker_in(s, from, start + offset),
            decreases s.len() - start,
        {
            proof {
                lemma_bit_zero();
                assert forall|k: int| start + offset <= k < start + 64 && k < s.len() implies s[k]
                    != MARKER by {
                    let j: u64 = (k - start - offset) as u64;
                    assert(!bit(matches, j));
                }
            }
            // We've processed the entire input
            if input.len() - start <= CHUNK {
                *self = PointsOfInterest { input, matches: 0, start: input.len(), offset: 0 };
                return false;
            }
            start += CHUNK;
            offset = 0;
            if input.len() - start < CHUNK {
                // We're less than 64 bytes from the end of the input
                matches = update_small(input, start);
            } else {
                // Process the next 64 bytes
                matches = update(input, start);
            }
        }
        let skip: u32 = matches.trailing_zeros();
        proof {
            axiom_u64_trailing_zeros(matches);
            lemma_bit_shift(matches, skip as u64);
            assert(bit(matches, skip as u64));
            assert forall|k: int| start + offset <= k < start + offset + skip implies s[k]
                != MARKER by {
                let j: u64 = (k - start - offset) as u64;
                assert(!bit(matches, j));
            }
        }
        matches = matches >> (skip as u64);
        offset = offset + skip as usize;
        *self = PointsOfInterest { input, matches, start, offset };
        true
    }

    /// Steps past the marker that the scan rests on.
    fn consume(&mut self)
        requires
            old(self).at_marker(),
        ensures
            final(self).bytes() == old(self).bytes(),
            final(self).cursor() == old(self).cursor() + 1,
    {
        proof {
            use_type_invariant(&*self);
            lemma_bit_shift(self.matches, 1);
        }
        *self = PointsOfInterest {
            input: self.input,
            matches: self.matches >> 1u64,
            start: self.start,
            offset: self.offset + 1,
        };
    }

    /// The offset at which the scan stands.
    fn pos(&self) -> (at: usize)
        ensures
            at == self.cursor(),
    {
        proof {
            use_type_invariant(self);
            assert(self.input@.len() == self.input.len());
        }
        self.start + self.offset
    }

    /// Yields the offset of the next marker, or `None` once the rest of the
    /// input holds no marker.
    pub fn next(&mut self) -> (point: Option<usize>)
        ensures
            final(self).bytes() == old(self).bytes(),
            0 <= old(self).cursor() <= final(self).cursor() <= old(self).bytes().len(),
            match point {
                Some(p) => {
                    &&& is_next_marker(old(self).bytes(), old(self).cursor(), p as int)
                    &&& final(self).cursor() == p + 1
                    &&& old(self)@ == seq![p as int] + final(self)@
                },
                None => {
                    &&& no_marker_in(
                        old(self).bytes(),
                        old(self).cursor(),
                        old(self).bytes().len() as int,
                    )
                    &&& final(self).cursor() == old(self).bytes().len()
                    &&& old(self)@ == Seq::<int>::empty()
                    &&& final(self)@ == Seq::<int>::empty()
                },
            },
    {
        proof {
            use_type_invariant(&*self);
        }
        if self.advance() {
            let p: usize = self.pos();
            self.consume();
            proof {
                lemma_markers_next(old(self).bytes(), old(self).cursor(), p as int);
            }
            Some(p)
        } else {
            proof {
                lemma_markers_none(old(self).bytes(), old(self).cursor());
                lemma_markers_none(self.bytes(), self.cursor());
            }
            None
        }
    }

    /// Counts the markers still to come.
    pub fn count(self) -> (n: usize)
        ensures
            n == self@.len(),
    {
        let mut points = self;
        let mut n: usize = 0;
        proof {
            use_type_invariant(&points);
            lemma_markers_len(points.bytes(), points.cursor());
            assert(points.input@.len() == points.input.len());
        }
        loop
            invariant
                points.bytes() == self.bytes(),
                0 <= points.cursor() <= points.bytes().len(),
                n + points@.len() == self@.len(),
                self@.len() <= self.bytes().len() <= usize::MAX,
            decreases points.bytes().len() - points.cursor(),
        {
            match points.next() {
                Some(_) => {
                    n += 1;
                },
                None => {
                    return n;
                },
            }
        }
    }
}

} // verus!
