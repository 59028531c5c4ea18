use vstd::prelude::*;
use vstd::utf8::*;
use vstd::string::StringSliceAdditionalSpecFns;

verus! {

broadcast use vstd::utf8::group_utf8_lib;

/// The index of the first newline byte at or after `pos`, or the length
/// when there is none.
pub open spec fn next_newline(b: Seq<u8>, pos: int) -> int
    decreases b.len() - pos,
{
    if pos < 0 || pos >= b.len() {
        b.len() as int
    } else if b[pos] == 10 {
        pos
    } else {
        next_newline(b, pos + 1)
    }
}

/// Where the line that starts at `pos` ends: before its newline, and before
/// a carriage return that directly precedes that newline. A last line
/// without a newline keeps all of its bytes.
pub open spec fn line_end(b: Seq<u8>, pos: int) -> int {
    let nl = next_newline(b, pos);
    if nl < b.len() && nl > pos && b[nl - 1] == 13 {
        nl - 1
    } else {
        nl
    }
}

/// The byte ranges of the lines of `b` from `pos` on, as `str::lines`
/// yields them: split after each newline, the newline and a carriage
/// return before it dropped, no line after a final newline.
pub open spec fn line_ranges_from(b: Seq<u8>, pos: int) -> Seq<(int, int)>
    decreases b.len() + 1 - pos,
    via line_ranges_from_decreases
{
    if pos < 0 || pos >= b.len() {
        seq![]
    } else {
        seq![(pos, line_end(b, pos))] + line_ranges_from(b, next_newline(b, pos) + 1)
    }
}

#[via_fn]
proof fn line_ranges_from_decreases(b: Seq<u8>, pos: int) {
    if !(pos < 0 || pos >= b.len()) {
        lemma_next_newline(b, pos);
    }
}

/// The byte ranges of all lines of `b`.
pub open spec fn line_ranges(b: Seq<u8>) -> Seq<(int, int)> {
    line_ranges_from(b, 0)
}

/// `v` lists the same ranges as `s`.
pub open spec fn ranges_agree(v: Seq<(usize, usize)>, s: Seq<(int, int)>) -> bool {
    &&& v.len() == s.len()
    &&& forall|i: int| 0 <= i < v.len() ==> (#[trigger] v[i]).0 == s[i].0 && v[i].1 == s[i].1
}

pub proof fn lemma_next_newline(b: Seq<u8>, pos: int)
    requires
        0 <= pos <= b.len(),
    ensures
        pos <= next_newline(b, pos) <= b.len(),
        next_newline(b, pos) < b.len() ==> b[next_newline(b, pos)] == 10,
        forall|k: int| pos <= k < next_newline(b, pos) ==> b[k] != 10,
    decreases b.len() - pos,
{
    if pos < b.len() && b[pos] != 10 {
        lemma_next_newline(b, pos + 1);
    }
}

/// Just after an ASCII byte of valid UTF-8 lies a character boundary.
pub proof fn lemma_boundary_after_ascii(b: Seq<u8>, k: int)
    requires
        valid_utf8(b),
        0 <= k < b.len(),
        b[k] < 0x80,
    ensures
        is_char_boundary(b, k + 1),
{
    is_char_boundary_start_end_of_seq(b);
    if k + 1 < b.len() {
        assert(is_char_boundary(b, k)) by {
            is_char_boundary_iff_not_is_continuation_byte(b, k);
        }
        valid_utf8_split(b, k);
        let suffix = b.subrange(k, b.len() as int);
        assert(valid_first_scalar(suffix));
        assert(pop_first_scalar(suffix) =~= b.subrange(k + 1, b.len() as int));
        let rest = b.subrange(k + 1, b.len() as int);
        assert(valid_utf8(suffix));
        assert(valid_utf8(rest));
        assert(rest.len() > 0);
        assert(valid_first_scalar(rest));
        assert(!is_continuation_byte(b[k + 1]));
        is_char_boundary_iff_not_is_continuation_byte(b, k + 1);
    }
}

/// A byte below 0x80 of valid UTF-8 stands on a character boundary.
pub proof fn lemma_boundary_at_ascii(b: Seq<u8>, k: int)
    requires
        valid_utf8(b),
        0 <= k < b.len(),
        b[k] < 0x80,
    ensures
        is_char_boundary(b, k),
{
    is_char_boundary_iff_not_is_continuation_byte(b, k);
}

/// Each line range lies inside the text, with both ends on character
/// boundaries, and does not contain a newline.
pub open spec fn good_ranges(b: Seq<u8>, r: Seq<(int, int)>) -> bool {
    forall|i: int|
        0 <= i < r.len() ==> {
            &&& 0 <= (#[trigger] r[i]).0 <= r[i].1 <= b.len()
            &&& is_char_boundary(b, r[i].0)
            &&& is_char_boundary(b, r[i].1)
        }
}

pub proof fn lemma_line_ranges_from_good(b: Seq<u8>, pos: int)
    requires
        valid_utf8(b),
        0 <= pos <= b.len(),
        is_char_boundary(b, pos),
    ensures
        good_ranges(b, line_ranges_from(b, pos)),
    decreases b.len() - pos,
{
    is_char_boundary_start_end_of_seq(b);
    if pos < b.len() {
        lemma_next_newline(b, pos);
        let nl = next_newline(b, pos);
        let e = line_end(b, pos);
        assert(is_char_boundary(b, e)) by {
            if nl < b.len() {
                if nl > pos && b[nl - 1] == 13 {
                    lemma_boundary_at_ascii(b, nl - 1);
                } else {
                    lemma_boundary_at_ascii(b, nl);
                }
            }
        }
        if nl < b.len() {
            lemma_boundary_after_ascii(b, nl);
            lemma_line_ranges_from_good(b, nl + 1);
        }
        let rest = line_ranges_from(b, nl + 1);
        let all = line_ranges_from(b, pos);
        assert(all == seq![(pos, e)] + rest);
        assert forall|i: int| 0 <= i < all.len() implies {
            &&& 0 <= (#[trigger] all[i]).0 <= all[i].1 <= b.len()
            &&& is_char_boundary(b, all[i].0)
            &&& is_char_boundary(b, all[i].1)
        } by {
            if i > 0 {
                assert(all[i] == rest[i - 1]);
            }
        }
    }
}

/// The byte ranges of the lines of `s`.
pub fn line_ranges_of(s: &str) -> (r: Vec<(usize, usize)>)
    ensures
        ranges_agree(r@, line_ranges(s.spec_bytes())),
        good_ranges(s.spec_bytes(), line_ranges(s.spec_bytes())),
{
    let b = s.as_bytes();
    let ghost bs = s.spec_bytes();
    let n = b.len();
    let mut r: Vec<(usize, usize)> = Vec::new();
    let mut pos: usize = 0;
    proof {
        is_char_boundary_start_end_of_seq(bs);
        lemma_line_ranges_from_good(bs, 0);
    }
    while pos < n
        invariant
            b@ == bs,
            n == bs.len(),
            pos <= n,
            ranges_agree(r@, line_ranges(bs).subrange(0, r@.len() as int)),
            r@.len() + line_ranges_from(bs, pos as int).len() == line_ranges(bs).len(),
            line_ranges(bs).subrange(r@.len() as int, line_ranges(bs).len() as int)
                == line_ranges_from(bs, pos as int),
        decreases n - pos,
    {
        let mut nl = pos;
        while nl < n && b[nl] != 10
            invariant
                b@ == bs,
                n == bs.len(),
                pos <= nl <= n,
                forall|k: int| pos <= k < nl ==> bs[k] != 10,
            decreases n - nl,
        {
            nl = nl + 1;
        }
        proof {
            lemma_next_newline(bs, pos as int);
            if nl < n {
                assert(next_newline(bs, pos as int) == nl) by {
                    if next_newline(bs, pos as int) < nl {
                        assert(bs[next_newline(bs, pos as int)] == 10);
                    }
                }
            } else {
                assert(next_newline(bs, pos as int) == nl);
            }
        }
        let end = if nl < n && nl > pos && b[nl - 1] == 13 {
            nl - 1
        } else {
            nl
        };
        let ghost old_r = r@;
        r.push((pos, end));
        proof {
            let all = line_ranges(bs);
            let from = line_ranges_from(bs, pos as int);
            assert(from == seq![(pos as int, end as int)] + line_ranges_from(bs, nl + 1));
            assert(all[old_r.len() as int] == from[0]);
            assert(all.subrange(r@.len() as int, all.len() as int) =~= from.subrange(1, from.len() as int));
            assert(from.subrange(1, from.len() as int) =~= line_ranges_from(bs, nl + 1));
            assert forall|i: int| 0 <= i < r@.len() implies (#[trigger] r@[i]).0 == all.subrange(0, r@.len() as int)[i].0
                && r@[i].1 == all.subrange(0, r@.len() as int)[i].1 by {
                if i < old_r.len() {
                    assert(r@[i] == old_r[i]);
                    assert(all.subrange(0, old_r.len() as int)[i] == all[i]);
                }
            }
        }
        if nl < n {
            pos = nl + 1;
        } else {
            pos = n;
            proof {
                assert(line_ranges_from(bs, nl + 1) =~= Seq::<(int, int)>::empty());
            }
        }
    }
    proof {
        assert(line_ranges(bs).subrange(0, r@.len() as int) =~= line_ranges(bs));
    }
    r
}

} // verus!
