use vstd::prelude::*;
use vstd::string::StringSliceAdditionalSpecFns;
use vstd::utf8::encode_scalar;
use vstd::utf8::encode_utf8_valid_utf8;

use crate::delimiter::Delimiter;
use crate::encoding::lemma_encode_utf8_len_zero;
use crate::search::find_first;
use crate::search::lemma_first_match_from_props;

verus! {

/// A lazy splitting cursor over a borrowed source text.
///
/// The cursor yields, one pull at a time, the substrings of the source
/// lying between occurrences of the delimiter.  Produced segments are
/// always borrowed views into the original source, never copies.
///
/// The unconsumed tail is carried as an optional borrow: absent means
/// exhausted (no further output, ever), while a present but empty tail
/// means one final empty segment is still owed.  The two states are
/// deliberately distinct; collapsing them would lose trailing empty
/// segments.
pub struct StrSplit<'a, D> {
    remainder: Option<&'a str>,
    delimiter: D,
}

impl<'a, D> StrSplit<'a, D> {
    /// The UTF-8 bytes of the not-yet-consumed tail; absent when the
    /// sequence is exhausted.
    pub closed spec fn remaining_bytes(&self) -> Option<Seq<u8>> {
        match self.remainder {
            Some(r) => Some(r.spec_bytes()),
            None => None,
        }
    }

    /// The delimiter value this cursor was constructed with.
    pub closed spec fn delim(&self) -> D {
        self.delimiter
    }

    /// Build a cursor over `haystack`.  An empty source starts exhausted
    /// and will produce zero segments; any other source starts with the
    /// full text as its unconsumed tail.
    pub fn new(haystack: &'a str, delimiter: D) -> (r: Self)
        ensures
            haystack.spec_bytes().len() == 0 ==> r.remaining_bytes() is None,
            haystack.spec_bytes().len() > 0 ==> r.remaining_bytes() == Some(haystack.spec_bytes()),
            r.delim() == delimiter,
    {
        proof {
            lemma_encode_utf8_len_zero(haystack@);
        }
        if haystack.is_empty() {
            StrSplit { remainder: None, delimiter }
        } else {
            StrSplit { remainder: Some(haystack), delimiter }
        }
    }
}

impl<'a, D: Delimiter> StrSplit<'a, D> {
    /// Pull the next segment.
    ///
    /// On an exhausted cursor this returns nothing, forever.  Otherwise,
    /// when the delimiter occurs in the tail, the segment before its
    /// first occurrence is produced and the tail advances past the
    /// occurrence (remaining present even when empty, so a trailing
    /// delimiter still owes one empty segment); when it does not occur,
    /// the whole tail is produced and the cursor becomes exhausted.
    pub fn next(&mut self) -> (r: Option<&'a str>)
        ensures
            final(self).delim() == old(self).delim(),
            match old(self).remaining_bytes() {
                None => r is None && final(self).remaining_bytes() is None,
                Some(h) => {
                    let d = old(self).delim().delim_bytes();
                    match find_first(h, d) {
                        Some(s) => {
                            &&& r matches Some(seg) && seg.spec_bytes() == h.subrange(0, s)
                            &&& final(self).remaining_bytes() == Some(
                                h.subrange(s + d.len(), h.len() as int),
                            )
                        },
                        None => {
                            &&& r matches Some(seg) && seg.spec_bytes() == h
                            &&& final(self).remaining_bytes() is None
                        },
                    }
                },
            },
    {
        match self.remainder {
            None => None,
            Some(rem) => {
                let found = self.delimiter.find_next(rem);
                match found {
                    Some((ds, de)) => {
                        proof {
                            encode_utf8_valid_utf8(rem@);
                            lemma_first_match_from_props(
                                rem.spec_bytes(),
                                self.delimiter.delim_bytes(),
                                0,
                            );
                        }
                        let (head, _) = rem.split_at(ds);
                        let (_, tail) = rem.split_at(de);
                        self.remainder = Some(tail);
                        Some(head)
                    },
                    None => {
                        self.remainder = None;
                        Some(rem)
                    },
                }
            },
        }
    }
}

/// The full sequence of segments that splitting `h` on a non-empty
/// delimiter `d` produces: the text before each occurrence of `d` in
/// turn, and finally the text after the last occurrence.  A source is
/// split into at least one segment; the splitting cursor produces
/// exactly these, except that an empty source produces none.
pub open spec fn split_bytes(h: Seq<u8>, d: Seq<u8>) -> Seq<Seq<u8>>
    decreases h.len(),
        when d.len() > 0
        via split_bytes_decreases
{
    match find_first(h, d) {
        Some(s) => seq![h.subrange(0, s)] + split_bytes(
            h.subrange(s + d.len(), h.len() as int),
            d,
        ),
        None => seq![h],
    }
}

#[via_fn]
proof fn split_bytes_decreases(h: Seq<u8>, d: Seq<u8>) {
    lemma_first_match_from_props(h, d, 0);
}

/// The source text that a sequence of segments came from: the segments
/// in order, with one copy of the delimiter between each adjacent pair.
pub open spec fn join_with(segs: Seq<Seq<u8>>, d: Seq<u8>) -> Seq<u8>
    decreases segs.len(),
{
    if segs.len() == 0 {
        Seq::empty()
    } else if segs.len() == 1 {
        segs[0]
    } else {
        segs[0] + d + join_with(segs.drop_first(), d)
    }
}

/// Splitting always yields at least one segment.
pub proof fn lemma_split_bytes_len(h: Seq<u8>, d: Seq<u8>)
    requires
        d.len() > 0,
    ensures
        split_bytes(h, d).len() >= 1,
{
}

/// Law: the segments, joined by one copy of the delimiter between each
/// adjacent pair, reconstruct the source text exactly.
pub proof fn lemma_split_reconstructs(h: Seq<u8>, d: Seq<u8>)
    requires
        d.len() > 0,
    ensures
        join_with(split_bytes(h, d), d) == h,
    decreases h.len(),
{
    lemma_first_match_from_props(h, d, 0);
    match find_first(h, d) {
        Some(s) => {
            let e = s + d.len() as int;
            let tail = h.subrange(e, h.len() as int);
            lemma_split_reconstructs(tail, d);
            lemma_split_bytes_len(tail, d);
            let rest = split_bytes(tail, d);
            let segs = split_bytes(h, d);
            assert(segs == seq![h.subrange(0, s)] + rest);
            assert(segs[0] == h.subrange(0, s));
            assert(segs.drop_first() =~= rest);
            assert(join_with(segs, d) == h.subrange(0, s) + d + join_with(rest, d));
            assert(h =~= h.subrange(0, s) + h.subrange(s, e) + tail);
        },
        None => {
        },
    }
}

/// The byte offset within the source at which segment `k` begins.
pub open spec fn segment_start(h: Seq<u8>, d: Seq<u8>, k: int) -> int
    decreases k,
{
    if k <= 0 {
        0
    } else {
        match find_first(h, d) {
            Some(s) => s + d.len() + segment_start(h.subrange(s + d.len(), h.len() as int), d, k - 1),
            None => 0,
        }
    }
}

/// Law: segments and delimiter spans tile the source text exactly once,
/// left to right, without overlap.  Segment `k` occupies the byte range
/// starting at `segment_start`; each non-final segment is followed
/// immediately by one occurrence of the delimiter, at whose end the next
/// segment begins; the final segment reaches the end of the source.
pub proof fn lemma_split_partitions(h: Seq<u8>, d: Seq<u8>, k: int)
    requires
        d.len() > 0,
        0 <= k < split_bytes(h, d).len(),
    ensures
        ({
            let segs = split_bytes(h, d);
            let start = segment_start(h, d, k);
            let end = start + segs[k].len();
            &&& 0 <= start && end <= h.len()
            &&& segs[k] == h.subrange(start, end)
            &&& k < segs.len() - 1 ==> end + d.len() <= h.len() && h.subrange(
                end,
                end + d.len() as int,
            ) == d && segment_start(h, d, k + 1) == end + d.len()
            &&& k == segs.len() - 1 ==> end == h.len()
        }),
    decreases k,
{
    lemma_first_match_from_props(h, d, 0);
    let segs = split_bytes(h, d);
    match find_first(h, d) {
        Some(s) => {
            let e = s + d.len() as int;
            let tail = h.subrange(e, h.len() as int);
            let rest = split_bytes(tail, d);
            lemma_split_bytes_len(tail, d);
            assert(segs == seq![h.subrange(0, s)] + rest);
            if k == 0 {
                assert(segs[0] == h.subrange(0, s));
                assert(h.subrange(s, e) == d);
                assert(segment_start(h, d, 1) == e + segment_start(tail, d, 0));
            } else {
                lemma_split_partitions(tail, d, k - 1);
                let start_t = segment_start(tail, d, k - 1);
                let end_t = start_t + rest[k - 1].len();
                assert(segs[k] == rest[k - 1]);
                assert(segment_start(h, d, k) == e + start_t);
                assert(tail.subrange(start_t, end_t) =~= h.subrange(e + start_t, e + end_t));
                if k < segs.len() - 1 {
                    assert(tail.subrange(end_t, end_t + d.len() as int) =~= h.subrange(
                        e + end_t,
                        e + end_t + d.len() as int,
                    ));
                    assert(segment_start(h, d, k + 1) == e + segment_start(tail, d, k));
                }
            }
        },
        None => {
            assert(segs == seq![h]);
            assert(segs[0] == h);
            assert(h.subrange(0, h.len() as int) =~= h);
        },
    }
}

/// The byte contents of a sequence of borrowed segments.
pub open spec fn segment_views(v: Seq<&str>) -> Seq<Seq<u8>> {
    v.map_values(|s: &str| s.spec_bytes())
}

impl<'a, D: Delimiter> StrSplit<'a, D> {
    /// Pull every remaining segment, in order, leaving the cursor
    /// exhausted.  A freshly built cursor hands back the whole split of
    /// its source: every segment of `split_bytes`, or none at all when
    /// the source was empty.
    pub fn remaining_segments(&mut self) -> (v: Vec<&'a str>)
        requires
            old(self).delim().delim_bytes().len() > 0,
        ensures
            final(self).remaining_bytes() is None,
            final(self).delim() == old(self).delim(),
            match old(self).remaining_bytes() {
                None => v@.len() == 0,
                Some(h) => segment_views(v@) == split_bytes(h, old(self).delim().delim_bytes()),
            },
    {
        let ghost h0 = self.remaining_bytes();
        let ghost d = self.delim().delim_bytes();
        let mut v: Vec<&'a str> = Vec::new();
        let mut done = false;
        while !done
            invariant
                self.delim() == old(self).delim(),
                d == self.delim().delim_bytes(),
                d.len() > 0,
                h0 == old(self).remaining_bytes(),
                done ==> self.remaining_bytes() is None,
                match h0 {
                    None => self.remaining_bytes() is None && v@.len() == 0,
                    Some(h) => match self.remaining_bytes() {
                        Some(hc) => segment_views(v@) + split_bytes(hc, d) == split_bytes(h, d),
                        None => segment_views(v@) == split_bytes(h, d),
                    },
                },
            decreases (if done {
                0int
            } else {
                match self.remaining_bytes() {
                    Some(hc) => hc.len() as int + 2,
                    None => 1int,
                }
            }),
        {
            let ghost pre = self.remaining_bytes();
            match self.next() {
                Some(seg) => {
                    v.push(seg);
                    proof {
                        let h = pre.unwrap();
                        lemma_first_match_from_props(h, d, 0);
                        match find_first(h, d) {
                            Some(s) => {
                                let tail = h.subrange(s + d.len(), h.len() as int);
                                assert(split_bytes(h, d) == seq![h.subrange(0, s)] + split_bytes(
                                    tail,
                                    d,
                                ));
                                assert(segment_views(v@) =~= segment_views(v@.drop_last()).push(
                                    seg.spec_bytes(),
                                ));
                                assert(segment_views(v@.drop_last()) + split_bytes(h, d)
                                    =~= segment_views(v@) + split_bytes(tail, d));
                            },
                            None => {
                                assert(split_bytes(h, d) == seq![h]);
                                assert(segment_views(v@) =~= segment_views(v@.drop_last()).push(
                                    seg.spec_bytes(),
                                ));
                                assert(segment_views(v@.drop_last()) + split_bytes(h, d)
                                    =~= segment_views(v@));
                            },
                        }
                    }
                },
                None => {
                    done = true;
                },
            }
        }
        v
    }
}

/// Everything in `haystack` before the first occurrence of the code
/// point `delimiter`; the whole text when the code point does not occur;
/// nothing only when `haystack` is empty.
pub fn until_char<'a>(haystack: &'a str, delimiter: char) -> (r: Option<&'a str>)
    ensures
        r is Some <==> haystack@.len() > 0,
        match r {
            Some(seg) => ({
                let h = haystack.spec_bytes();
                let d = encode_scalar(delimiter as u32);
                seg.spec_bytes() == (match find_first(h, d) {
                    Some(s) => h.subrange(0, s),
                    None => h,
                })
            }),
            None => true,
        },
{
    proof {
        lemma_encode_utf8_len_zero(haystack@);
    }
    let mut split = StrSplit::new(haystack, delimiter);
    split.next()
}

} // verus!
