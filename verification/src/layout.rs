//! Finding a text offset among laid-out lines. The lines themselves, and
//! the coordinates of a place in them, come from measured widths and are
//! computed elsewhere; this module takes the character count of each line.

use vstd::prelude::*;
use crate::editor::total;

verus! {

/// The line, and the offset within it, that text offset `offset` falls on
/// when the lines hold `lens` characters each, one after the other: the
/// first line whose end reaches `offset`. `None` when `offset` lies past
/// all of them.
pub open spec fn offset_in_lines(lens: Seq<usize>, offset: int) -> Option<(int, int)>
    decreases lens.len(),
{
    if lens.len() == 0 {
        None
    } else if offset <= lens[0] {
        Some((0, offset))
    } else {
        match offset_in_lines(lens.skip(1), offset - lens[0]) {
            Some((k, o)) => Some((k + 1, o)),
            None => None,
        }
    }
}

/// A text offset is found on a line exactly when there are lines and it
/// does not lie past the end of all of them, and then the offset within the line lies between the
/// line's start and its end.
pub proof fn lemma_offset_in_lines_bounds(lens: Seq<usize>, offset: int)
    requires
        0 <= offset,
    ensures
        offset_in_lines(lens, offset) is Some <==> lens.len() > 0 && offset <= total(lens),
        offset_in_lines(lens, offset) matches Some((k, o)) ==> 0 <= k < lens.len() && 0 <= o
            <= lens[k],
    decreases lens.len(),
{
    if lens.len() > 0 && offset > lens[0] {
        lemma_offset_in_lines_bounds(lens.skip(1), offset - lens[0]);
        crate::editor::lemma_total_nonneg(lens.skip(1));
        match offset_in_lines(lens.skip(1), offset - lens[0]) {
            Some((k, o)) => {
                assert(lens.skip(1)[k] == lens[k + 1]);
            },
            None => {},
        }
    } else if lens.len() > 0 {
        crate::editor::lemma_total_nonneg(lens.skip(1));
    }
}

/// The line found for an offset is the first line whose end reaches it:
/// the offset is the lengths of the lines before plus the offset within
/// the line, which lies within the line and, past the first line, after
/// its start.
pub proof fn lemma_offset_in_lines_first(lens: Seq<usize>, offset: int)
    requires
        0 <= offset,
    ensures
        offset_in_lines(lens, offset) matches Some((k, o)) ==> {
            &&& 0 <= k < lens.len()
            &&& offset == total(lens.take(k)) + o
            &&& 0 <= o <= lens[k]
            &&& k > 0 ==> o > 0
        },
    decreases lens.len(),
{
    if lens.len() > 0 {
        assert(lens.take(0) =~= Seq::<usize>::empty());
        if offset > lens[0] {
            let rest = lens.skip(1);
            lemma_offset_in_lines_first(rest, offset - lens[0]);
            match offset_in_lines(rest, offset - lens[0]) {
                Some((k, o)) => {
                    assert(lens.take(k + 1).skip(1) =~= rest.take(k));
                    assert(lens.take(k + 1)[0] == lens[0]);
                    assert(rest[k] == lens[k + 1]);
                },
                None => {},
            }
        }
    }
}

/// The line and the offset within it of text offset `offset`, as
/// `offset_in_lines` says.
pub fn locate_offset(line_lengths: &Vec<usize>, offset: usize) -> (r: Option<(usize, usize)>)
    requires
        total(line_lengths@) <= usize::MAX,
    ensures
        r matches Some((k, o)) ==> offset_in_lines(line_lengths@, offset as int) == Some(
            (k as int, o as int),
        ),
        r is None ==> offset_in_lines(line_lengths@, offset as int) is None,
{
    let ghost lens = line_lengths@;
    let n = line_lengths.len();
    let mut current_offset: usize = 0;
    let mut k: usize = 0;
    assert(lens.skip(0) =~= lens);
    while k < n
        invariant
            n == lens.len(),
            lens == line_lengths@,
            k <= n,
            current_offset <= offset,
            current_offset + total(lens.skip(k as int)) == total(lens),
            total(lens) <= usize::MAX,
            offset_in_lines(lens, offset as int) == match offset_in_lines(
                lens.skip(k as int),
                offset - current_offset,
            ) {
                Some((j, o)) => Some((j + k, o)),
                None => None,
            },
        decreases n - k,
    {
        let ghost rest = lens.skip(k as int);
        proof {
            assert(rest.skip(1) =~= lens.skip(k + 1));
            assert(rest[0] == lens[k as int]);
            crate::editor::lemma_total_nonneg(rest.skip(1));
        }
        let line_length = line_lengths[k];
        if offset <= current_offset + line_length {
            return Some((k, offset - current_offset));
        }
        current_offset = current_offset + line_length;
        k = k + 1;
    }
    None
}

} // verus!
