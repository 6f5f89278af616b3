//! The HEAD pointer: `"ref: refs/heads/<branch>\n"`. Any other content is a
//! corrupt or detached HEAD, which the status operation reports as an error
//! rather than guessing a branch.

use vstd::prelude::*;

use crate::bytes::{bytes_eq, subvec};

verus! {

/// True for the ASCII whitespace bytes: tab, newline, carriage return, space.
pub open spec fn is_ascii_ws(b: u8) -> bool {
    b == 9 || b == 10 || b == 13 || b == 32
}

/// `s` with trailing ASCII whitespace removed.
pub open spec fn spec_trim_end(s: Seq<u8>) -> Seq<u8>
    decreases s.len(),
{
    if s.len() > 0 && is_ascii_ws(s.last()) {
        spec_trim_end(s.drop_last())
    } else {
        s
    }
}

/// `s` with leading ASCII whitespace removed.
pub open spec fn spec_trim_start(s: Seq<u8>) -> Seq<u8>
    decreases s.len(),
{
    if s.len() > 0 && is_ascii_ws(s[0]) {
        spec_trim_start(s.drop_first())
    } else {
        s
    }
}

/// `s` with ASCII whitespace removed from both ends.
pub open spec fn spec_trim(s: Seq<u8>) -> Seq<u8> {
    spec_trim_start(spec_trim_end(s))
}

/// Tests a byte for ASCII whitespace.
fn is_ws(b: u8) -> (r: bool)
    ensures
        r == is_ascii_ws(b),
{
    b == 9 || b == 10 || b == 13 || b == 32
}

/// Removes ASCII whitespace from both ends of `s`.
pub fn trim_ascii(s: &Vec<u8>) -> (r: Vec<u8>)
    ensures
        r@ == spec_trim(s@),
{
    let mut hi: usize = s.len();
    proof {
        assert(s@.subrange(0, hi as int) =~= s@);
    }
    while hi > 0 && is_ws(s[hi - 1])
        invariant
            hi <= s@.len(),
            spec_trim_end(s@) == spec_trim_end(s@.subrange(0, hi as int)),
        decreases hi,
    {
        proof {
            let cur = s@.subrange(0, hi as int);
            assert(cur.last() == s@[hi - 1]);
            assert(cur.drop_last() =~= s@.subrange(0, hi - 1));
        }
        hi = hi - 1;
    }
    proof {
        let cur = s@.subrange(0, hi as int);
        if hi > 0 {
            assert(cur.last() == s@[hi - 1]);
        }
        assert(spec_trim_end(s@) == cur);
    }
    let mut lo: usize = 0;
    while lo < hi && is_ws(s[lo])
        invariant
            lo <= hi <= s@.len(),
            spec_trim_end(s@) == s@.subrange(0, hi as int),
            spec_trim_start(s@.subrange(0, hi as int)) == spec_trim_start(
                s@.subrange(lo as int, hi as int),
            ),
        decreases hi - lo,
    {
        proof {
            let cur = s@.subrange(lo as int, hi as int);
            assert(cur[0] == s@[lo as int]);
            assert(cur.drop_first() =~= s@.subrange(lo + 1, hi as int));
        }
        lo = lo + 1;
    }
    proof {
        let cur = s@.subrange(lo as int, hi as int);
        if lo < hi {
            assert(cur[0] == s@[lo as int]);
        }
        assert(spec_trim_start(cur) == cur);
    }
    subvec(s, lo, hi)
}

/// `"ref: refs/heads/"`: the prefix HEAD carries when it points at a branch.
pub open spec fn head_ref_prefix() -> Seq<u8> {
    seq![114u8, 101u8, 102u8, 58u8, 32u8, 114u8, 101u8, 102u8, 115u8, 47u8, 104u8, 101u8, 97u8, 100u8, 115u8, 47u8]
}

/// The branch HEAD points at: the bytes after `"ref: refs/heads/"`, trimmed
/// of surrounding whitespace. Content of any other shape is no branch.
pub open spec fn spec_parse_head(h: Seq<u8>) -> Option<Seq<u8>> {
    if h.len() >= 16 && h.subrange(0, 16) == head_ref_prefix() {
        Some(spec_trim(h.subrange(16, h.len() as int)))
    } else {
        None
    }
}

/// The expected prefix, as a vector.
fn head_ref_prefix_vec() -> (r: Vec<u8>)
    ensures
        r@ == head_ref_prefix(),
{
    let mut r: Vec<u8> = Vec::new();
    r.push(114);
    r.push(101);
    r.push(102);
    r.push(58);
    r.push(32);
    r.push(114);
    r.push(101);
    r.push(102);
    r.push(115);
    r.push(47);
    r.push(104);
    r.push(101);
    r.push(97);
    r.push(100);
    r.push(115);
    r.push(47);
    proof {
        assert(r@ =~= head_ref_prefix());
    }
    r
}

/// Reads the branch name out of HEAD's content, or `None` when HEAD does not
/// point at a branch.
pub fn parse_head(h: &Vec<u8>) -> (r: Option<Vec<u8>>)
    ensures
        match r {
            Some(b) => spec_parse_head(h@) == Some(b@),
            None => spec_parse_head(h@) is None,
        },
{
    if h.len() < 16 {
        return None;
    }
    let prefix = subvec(h, 0, 16);
    let expected = head_ref_prefix_vec();
    if !bytes_eq(&prefix, &expected) {
        return None;
    }
    let rest = subvec(h, 16, h.len());
    Some(trim_ascii(&rest))
}

} // verus!
