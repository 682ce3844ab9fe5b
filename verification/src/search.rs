use vstd::prelude::*;

verus! {

/// True when the byte pattern `d` occurs in `h` starting at offset `i`.
pub open spec fn matches_at(h: Seq<u8>, d: Seq<u8>, i: int) -> bool {
    0 <= i && i + d.len() <= h.len() && h.subrange(i, i + d.len() as int) == d
}

/// The lowest offset at or after `i` where `d` occurs in `h`, if any.
pub open spec fn first_match_from(h: Seq<u8>, d: Seq<u8>, i: int) -> Option<int>
    decreases h.len() - i + 1,
{
    if i < 0 || i + d.len() > h.len() {
        None
    } else if h.subrange(i, i + d.len() as int) == d {
        Some(i)
    } else {
        first_match_from(h, d, i + 1)
    }
}

/// The lowest offset where `d` occurs in `h`, if any.
pub open spec fn find_first(h: Seq<u8>, d: Seq<u8>) -> Option<int> {
    first_match_from(h, d, 0)
}

/// `first_match_from` reports a genuine occurrence, and the lowest one.
pub proof fn lemma_first_match_from_props(h: Seq<u8>, d: Seq<u8>, i: int)
    requires
        0 <= i,
    ensures
        match first_match_from(h, d, i) {
            Some(s) => {
                &&& i <= s
                &&& matches_at(h, d, s)
                &&& forall|j: int| i <= j < s ==> !matches_at(h, d, j)
            },
            None => forall|j: int| i <= j ==> !matches_at(h, d, j),
        },
    decreases h.len() - i + 1,
{
    if i + d.len() > h.len() {
    } else if h.subrange(i, i + d.len() as int) == d {
    } else {
        lemma_first_match_from_props(h, d, i + 1);
    }
}

/// Compare `h[i .. i + d.len()]` with `d`, byte for byte.
fn bytes_eq_at(h: &[u8], d: &[u8], i: usize) -> (b: bool)
    requires
        i + d@.len() <= h@.len(),
    ensures
        b == (h@.subrange(i as int, i + d@.len()) == d@),
{
    let n = h.len();
    let m = d.len();
    let mut k: usize = 0;
    while k < m
        invariant
            n == h@.len(),
            i + m <= n,
            m == d@.len(),
            k <= m,
            forall|t: int| 0 <= t < k ==> h@[i + t] == d@[t],
        decreases m - k,
    {
        if h[i + k] != d[k] {
            proof {
                assert(h@.subrange(i as int, i + d@.len()) != d@) by {
                    assert(h@.subrange(i as int, i + d@.len())[k as int] == h@[i + k]);
                }
            }
            return false;
        }
        k += 1;
    }
    proof {
        assert(h@.subrange(i as int, i + d@.len()) =~= d@);
    }
    true
}

/// Find the lowest offset where the byte pattern `d` occurs in `h`.
pub fn find_in_bytes(h: &[u8], d: &[u8]) -> (r: Option<usize>)
    ensures
        match r {
            Some(i) => find_first(h@, d@) == Some(i as int),
            None => find_first(h@, d@) is None,
        },
{
    let n = h.len();
    let m = d.len();
    if m > n {
        return None;
    }
    if m == 0 {
        proof {
            assert(h@.subrange(0, 0) =~= d@);
        }
        return Some(0);
    }
    let mut i: usize = 0;
    while i <= n - m
        invariant
            1 <= m <= n,
            n == h@.len(),
            m == d@.len(),
            i <= n - m + 1,
            first_match_from(h@, d@, 0) == first_match_from(h@, d@, i as int),
        decreases n - m - i + 1,
    {
        if bytes_eq_at(h, d, i) {
            return Some(i);
        }
        i += 1;
    }
    None
}

} // verus!
