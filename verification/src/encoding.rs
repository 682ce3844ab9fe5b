use vstd::prelude::*;
use vstd::utf8::char_is_scalar;
use vstd::utf8::encode_scalar;
use vstd::utf8::encode_utf8;
use vstd::utf8::encode_utf8_valid_utf8;
use vstd::utf8::is_char_boundary;
use vstd::utf8::is_char_boundary_iff_not_is_continuation_byte;
use vstd::utf8::is_char_boundary_start_end_of_seq;
use vstd::utf8::length_of_first_scalar;
use vstd::utf8::pop_first_scalar;
use vstd::utf8::valid_first_scalar;
use vstd::utf8::valid_utf8;
use vstd::utf8::valid_utf8_split;

use crate::search::matches_at;

verus! {

/// The UTF-8 encoding of a single code point, as executable bytes.
pub fn encode_char(c: char) -> (v: Vec<u8>)
    ensures
        v@ == encode_scalar(c as u32),
{
    proof {
        char_is_scalar(c);
    }
    let u = c as u32;
    let mut v: Vec<u8> = Vec::new();
    if u <= 0x7F {
        v.push((u & 0x7F) as u8);
    } else if u <= 0x7FF {
        v.push(0xC0 | ((u >> 6) & 0x1F) as u8);
        v.push(0x80 | (u & 0x3F) as u8);
    } else if u <= 0xFFFF {
        v.push(0xE0 | ((u >> 12) & 0x0F) as u8);
        v.push(0x80 | ((u >> 6) & 0x3F) as u8);
        v.push(0x80 | (u & 0x3F) as u8);
    } else {
        v.push(0xF0 | ((u >> 18) & 0x7) as u8);
        v.push(0x80 | ((u >> 12) & 0x3F) as u8);
        v.push(0x80 | ((u >> 6) & 0x3F) as u8);
        v.push(0x80 | (u & 0x3F) as u8);
    }
    proof {
        assert(v@ =~= encode_scalar(c as u32));
    }
    v
}

/// The encoding of one code point is itself a non-empty, valid UTF-8 sequence.
pub proof fn lemma_encode_scalar_valid(c: char)
    ensures
        valid_utf8(encode_scalar(c as u32)),
        encode_scalar(c as u32).len() >= 1,
{
    char_is_scalar(c);
    let cs = seq![c];
    encode_utf8_valid_utf8(cs);
    assert(cs.drop_first() =~= Seq::<char>::empty());
    assert(encode_utf8(Seq::<char>::empty()) =~= Seq::<u8>::empty());
    assert(encode_utf8(cs) =~= encode_scalar(c as u32) + Seq::<u8>::empty());
    assert(encode_utf8(cs) =~= encode_scalar(c as u32));
}

/// A text encodes to zero bytes exactly when it has zero characters.
pub proof fn lemma_encode_utf8_len_zero(cs: Seq<char>)
    ensures
        encode_utf8(cs).len() == 0 <==> cs.len() == 0,
{
    if cs.len() > 0 {
        char_is_scalar(cs[0]);
        assert(encode_scalar(cs[0] as u32).len() >= 1);
    }
}

/// If a prefix of a valid UTF-8 sequence is itself valid UTF-8, then the
/// prefix ends on a character boundary.
pub proof fn lemma_valid_prefix_is_boundary(t: Seq<u8>, m: int)
    requires
        valid_utf8(t),
        0 <= m <= t.len(),
        valid_utf8(t.subrange(0, m)),
    ensures
        is_char_boundary(t, m),
    decreases m,
{
    if m > 0 {
        let p = t.subrange(0, m);
        assert(valid_first_scalar(p));
        assert(valid_first_scalar(t));
        assert(p[0] == t[0]);
        let k = length_of_first_scalar(t);
        assert(length_of_first_scalar(p) == k);
        assert(k <= m);
        let tp = pop_first_scalar(t);
        let pp = pop_first_scalar(p);
        assert(pp =~= tp.subrange(0, m - k));
        assert(valid_utf8(tp));
        assert(valid_utf8(pp));
        lemma_valid_prefix_is_boundary(tp, m - k);
    }
}

/// A byte-level occurrence of one valid UTF-8 sequence inside another
/// starts and ends on character boundaries of the surrounding sequence.
pub proof fn lemma_match_bounds_are_boundaries(h: Seq<u8>, d: Seq<u8>, s: int)
    requires
        valid_utf8(h),
        valid_utf8(d),
        d.len() > 0,
        matches_at(h, d, s),
    ensures
        is_char_boundary(h, s),
        is_char_boundary(h, s + d.len()),
{
    let e = s + d.len() as int;
    if s == 0 {
        assert(is_char_boundary(h, 0));
    } else {
        assert(h.subrange(s, e)[0] == h[s]);
        assert(h[s] == d[0]);
        assert(is_char_boundary(d, 0));
        is_char_boundary_iff_not_is_continuation_byte(d, 0);
        is_char_boundary_iff_not_is_continuation_byte(h, s);
    }
    if e == h.len() {
        is_char_boundary_start_end_of_seq(h);
    } else {
        valid_utf8_split(h, s);
        let t = h.subrange(s, h.len() as int);
        assert(t.subrange(0, d.len() as int) =~= h.subrange(s, e));
        assert(t.subrange(0, d.len() as int) == d);
        lemma_valid_prefix_is_boundary(t, d.len() as int);
        is_char_boundary_iff_not_is_continuation_byte(t, d.len() as int);
        assert(t[d.len() as int] == h[e]);
        is_char_boundary_iff_not_is_continuation_byte(h, e);
    }
}

} // verus!
