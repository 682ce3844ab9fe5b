use vstd::prelude::*;
use vstd::string::StringSliceAdditionalSpecFns;
use vstd::utf8::encode_scalar;
use vstd::utf8::encode_utf8_valid_utf8;
use vstd::utf8::is_char_boundary;

use crate::encoding::encode_char;
use crate::encoding::lemma_encode_scalar_valid;
use crate::encoding::lemma_match_bounds_are_boundaries;
use crate::search::find_first;
use crate::search::find_in_bytes;
use crate::search::lemma_first_match_from_props;

verus! {

/// The capability of locating the next occurrence of a delimiter in a text.
///
/// A delimiter stands for one fixed piece of content, `delim_bytes()`; an
/// implementation must report the first place where that content occurs,
/// as a half-open byte span.  The span must lie on code-point boundaries
/// of the haystack, so that the surrounding text can be sliced at it.
pub trait Delimiter {
    /// The UTF-8 bytes of the content this delimiter matches.
    spec fn delim_bytes(&self) -> Seq<u8>;

    /// Report the first (lowest-offset) occurrence of the delimiter in
    /// `haystack` as a byte span `(start, end)`, with the bytes at
    /// `start .. end` being exactly the delimiter content; `None` when no
    /// occurrence exists.
    fn find_next(&self, haystack: &str) -> (r: Option<(usize, usize)>)
        ensures
            match r {
                Some(span) => {
                    &&& find_first(haystack.spec_bytes(), self.delim_bytes()) == Some(
                        span.0 as int,
                    )
                    &&& span.1 == span.0 + self.delim_bytes().len()
                    &&& is_char_boundary(haystack.spec_bytes(), span.0 as int)
                    &&& is_char_boundary(haystack.spec_bytes(), span.1 as int)
                },
                None => find_first(haystack.spec_bytes(), self.delim_bytes()) is None,
            },
    ;
}

/// A single code point as a delimiter: matches its UTF-8 encoding, which
/// may be more than one byte wide.
impl Delimiter for char {
    open spec fn delim_bytes(&self) -> Seq<u8> {
        encode_scalar(*self as u32)
    }

    fn find_next(&self, haystack: &str) -> (r: Option<(usize, usize)>) {
        let d = encode_char(*self);
        let hb = haystack.as_bytes();
        let r = find_in_bytes(hb, d.as_slice());
        proof {
            vstd::slice::axiom_spec_len(hb);
            encode_utf8_valid_utf8(haystack@);
            lemma_encode_scalar_valid(*self);
        }
        match r {
            Some(i) => {
                proof {
                    lemma_first_match_from_props(hb@, d@, 0);
                    lemma_match_bounds_are_boundaries(
                        haystack.spec_bytes(),
                        self.delim_bytes(),
                        i as int,
                    );
                }
                Some((i, i + d.len()))
            },
            None => None,
        }
    }
}

/// A literal substring as a delimiter: matches its exact byte content.
///
/// An empty literal matches at offset zero with a zero-width span; a
/// sequence built on one never advances past it, so splitting on an empty
/// literal is of no practical use.
impl Delimiter for &str {
    open spec fn delim_bytes(&self) -> Seq<u8> {
        self.spec_bytes()
    }

    fn find_next(&self, haystack: &str) -> (r: Option<(usize, usize)>) {
        let hb = haystack.as_bytes();
        let db = self.as_bytes();
        let r = find_in_bytes(hb, db);
        proof {
            vstd::slice::axiom_spec_len(hb);
            encode_utf8_valid_utf8(haystack@);
            encode_utf8_valid_utf8(self@);
        }
        match r {
            Some(i) => {
                proof {
                    lemma_first_match_from_props(hb@, db@, 0);
                    if db@.len() == 0 {
                        assert(hb@.subrange(0, 0) =~= db@);
                        assert(is_char_boundary(haystack.spec_bytes(), 0));
                    } else {
                        lemma_match_bounds_are_boundaries(
                            haystack.spec_bytes(),
                            self.delim_bytes(),
                            i as int,
                        );
                    }
                }
                Some((i, i + db.len()))
            },
            None => None,
        }
    }
}

} // verus!
