//! Pieces: byte ranges of a piece table's buffers, what sequences of them
//! stand for, and the facts about those sequences that the table's
//! operations rest on.

use vstd::prelude::*;
use vstd::utf8::*;
use crate::text_bytes::{
    line_text, lemma_line_text_valid, lemma_newline_offsets_facts, count_newlines, lemma_count_newlines_concat, as_ints, is_boundary, keep_below, keep_from, newline_offsets, lemma_slice_valid, clamp,
    lemma_split_offsets, lemma_boundary_append,
};

verus! {


/// Which buffer a piece reads from.
#[derive(Debug, Clone, Copy, PartialEq, Eq, Structural)]
pub enum BufferType {
    Original,
    Add,
}

/// A byte range `start .. start + length` of one buffer, with the offsets,
/// relative to `start`, of the newlines inside it.
#[derive(Debug, Clone)]
pub struct Piece {
    pub buffer_type: BufferType,
    pub start: usize,
    pub length: usize,
    pub line_breaks: Vec<usize>,
}

/// The buffer that `p` reads from.
pub open spec fn buffer_of(p: Piece, orig: Seq<u8>, add: Seq<u8>) -> Seq<u8> {
    match p.buffer_type {
        BufferType::Original => orig,
        BufferType::Add => add,
    }
}

/// The bytes that `p` stands for.
pub open spec fn piece_bytes(p: Piece, orig: Seq<u8>, add: Seq<u8>) -> Seq<u8> {
    buffer_of(p, orig, add).subrange(p.start as int, p.start + p.length)
}

/// `p` lies inside its buffer and records exactly the newlines it holds.
pub open spec fn piece_wf(p: Piece, orig: Seq<u8>, add: Seq<u8>) -> bool {
    &&& p.start + p.length <= buffer_of(p, orig, add).len()
    &&& as_ints(p.line_breaks@) == newline_offsets(piece_bytes(p, orig, add))
}

/// Both ends of `p` are character boundaries of its buffer, so that the
/// buffer can be sliced there.
pub open spec fn piece_sliceable(p: Piece, orig: Seq<u8>, add: Seq<u8>) -> bool {
    &&& is_boundary(buffer_of(p, orig, add), p.start as int)
    &&& is_boundary(buffer_of(p, orig, add), p.start + p.length)
}

/// The text that a sequence of pieces stands for.
pub open spec fn text_of(ps: Seq<Piece>, orig: Seq<u8>, add: Seq<u8>) -> Seq<u8>
    decreases ps.len(),
{
    if ps.len() == 0 {
        Seq::empty()
    } else {
        piece_bytes(ps[0], orig, add) + text_of(ps.drop_first(), orig, add)
    }
}

/// The piece that holds byte position `pos` and the offset inside it: the
/// first piece whose end is at or after `pos`; past the last piece, the
/// number of pieces and offset 0.
pub open spec fn locate(ps: Seq<Piece>, pos: int) -> (int, int)
    decreases ps.len(),
{
    if ps.len() == 0 {
        (0, 0)
    } else if pos <= ps[0].length {
        (0, pos)
    } else {
        let r = locate(ps.drop_first(), pos - ps[0].length);
        (r.0 + 1, r.1)
    }
}

/// The lengths of pieces `ps`, in order.
pub open spec fn piece_lens(ps: Seq<Piece>) -> Seq<int> {
    ps.map_values(|p: Piece| p.length as int)
}

/// The piece, and the offset in it, where byte `pos` falls when the pieces
/// are `lens` bytes long: the first piece whose end reaches `pos`, or one
/// past the last piece, at offset 0, when none does.
pub open spec fn locate_len(lens: Seq<int>, pos: int) -> (int, int)
    decreases lens.len(),
{
    if lens.len() == 0 {
        (0, 0)
    } else if pos <= lens[0] {
        (0, pos)
    } else {
        let r = locate_len(lens.drop_first(), pos - lens[0]);
        (r.0 + 1, r.1)
    }
}

/// `locate` depends on the pieces' lengths alone.
#[verifier::spinoff_prover]
pub proof fn lemma_locate_len(ps: Seq<Piece>, pos: int)
    ensures
        locate(ps, pos) == locate_len(piece_lens(ps), pos),
    decreases ps.len(),
{
    if ps.len() > 0 {
        assert(piece_lens(ps).drop_first() =~= piece_lens(ps.drop_first()));
        lemma_locate_len(ps.drop_first(), pos - ps[0].length);
    }
}

/// The piece lengths after inserting `n > 0` bytes at `position`: a new
/// piece of length `n` at the end when `position` falls past every piece,
/// before or after the piece it falls in when it is at that piece's start
/// or end, and otherwise between the two parts of that piece, split there.
pub open spec fn lens_after_insert(lens: Seq<int>, position: int, n: int) -> Seq<int> {
    let (i, off) = locate_len(lens, position);
    if n == 0 {
        lens
    } else if i >= lens.len() {
        lens.push(n)
    } else if off == 0 {
        lens.insert(i, n)
    } else if off == lens[i] {
        lens.insert(i + 1, n)
    } else {
        lens.take(i) + seq![off, n, lens[i] - off] + lens.skip(i + 1)
    }
}

/// The piece lengths after deleting `length` bytes from `position` of a
/// text of `total` bytes. Inside one piece: the piece goes when all of it
/// goes, is shortened when one end of it goes, and is split in two when
/// the bytes go from its middle. Across pieces: the first and the last
/// keep what lies outside the range, and go when nothing does; the pieces
/// between them go.
pub open spec fn lens_after_delete(lens: Seq<int>, total: int, position: int, length: int) -> Seq<int> {
    if length == 0 || position >= total {
        lens
    } else {
        let end = clamp(position + length, total);
        let (sp, so) = locate_len(lens, position);
        let (ep, eo) = locate_len(lens, end);
        if sp == ep {
            if so == 0 && eo == lens[sp] {
                lens.remove(sp)
            } else if so == 0 {
                lens.update(sp, lens[sp] - eo)
            } else if eo == lens[sp] {
                lens.update(sp, so)
            } else {
                lens.take(sp) + seq![so, lens[sp] - eo] + lens.skip(sp + 1)
            }
        } else {
            lens.take(sp) + (if so > 0 {
                seq![so]
            } else {
                Seq::empty()
            }) + (if eo < lens[ep] {
                seq![lens[ep] - eo]
            } else {
                Seq::empty()
            }) + lens.skip(ep + 1)
        }
    }
}

/// The newlines that deleting `length` bytes from `position` of text `t`,
/// held in pieces of lengths `lens`, takes off the kept line count. Inside
/// one piece: those of the removed bytes when they reach one end of the
/// piece and not the other, none otherwise. Across pieces: those of the
/// removed end of the first piece when part of it stays, those of the
/// pieces in between, and those of the removed start of the last piece
/// when part of it stays.
pub open spec fn counted_breaks(t: Seq<u8>, lens: Seq<int>, position: int, length: int) -> int {
    if length == 0 || position >= t.len() {
        0
    } else {
        let end = clamp(position + length, t.len() as int);
        let (sp, so) = locate_len(lens, position);
        let (ep, eo) = locate_len(lens, end);
        let first_end = position - so + lens[sp];
        let last_start = end - eo;
        if sp == ep {
            if (so == 0) != (eo == lens[sp]) {
                count_newlines(t.subrange(position, end)) as int
            } else {
                0
            }
        } else {
            (if so > 0 {
                count_newlines(t.subrange(position, first_end)) as int
            } else {
                0
            }) + count_newlines(t.subrange(first_end, last_start)) + (if eo < lens[ep] {
                count_newlines(t.subrange(last_start, end)) as int
            } else {
                0
            })
        }
    }
}

#[verifier::spinoff_prover]
pub proof fn lemma_text_of_concat(a: Seq<Piece>, b: Seq<Piece>, orig: Seq<u8>, add: Seq<u8>)
    ensures
        text_of(a + b, orig, add) == text_of(a, orig, add) + text_of(b, orig, add),
    decreases a.len(),
{
    if a.len() == 0 {
        assert(a + b =~= b);
        assert(text_of(a, orig, add) + text_of(b, orig, add) =~= text_of(b, orig, add));
    } else {
        lemma_text_of_concat(a.drop_first(), b, orig, add);
        assert((a + b).drop_first() =~= a.drop_first() + b);
        assert((a + b)[0] == a[0]);
        assert(piece_bytes(a[0], orig, add) + (text_of(a.drop_first(), orig, add) + text_of(
            b,
            orig,
            add,
        )) =~= (piece_bytes(a[0], orig, add) + text_of(a.drop_first(), orig, add)) + text_of(
            b,
            orig,
            add,
        ));
    }
}

#[verifier::spinoff_prover]
pub proof fn lemma_text_of_single(p: Piece, orig: Seq<u8>, add: Seq<u8>)
    ensures
        text_of(seq![p], orig, add) == piece_bytes(p, orig, add),
{
    assert(seq![p].drop_first() =~= Seq::<Piece>::empty());
    assert(seq![p][0] == p);
    assert(text_of(Seq::<Piece>::empty(), orig, add) =~= Seq::<u8>::empty());
    assert(piece_bytes(p, orig, add) + Seq::<u8>::empty() =~= piece_bytes(p, orig, add));
}

/// The text up to piece `i + 1` is the text up to piece `i` and then piece `i`.
#[verifier::spinoff_prover]
pub proof fn lemma_text_of_take_step(ps: Seq<Piece>, i: int, orig: Seq<u8>, add: Seq<u8>)
    requires
        0 <= i < ps.len(),
    ensures
        text_of(ps.take(i + 1), orig, add) == text_of(ps.take(i), orig, add) + piece_bytes(
            ps[i],
            orig,
            add,
        ),
{
    assert(ps.take(i + 1) =~= ps.take(i) + seq![ps[i]]);
    lemma_text_of_concat(ps.take(i), seq![ps[i]], orig, add);
    lemma_text_of_single(ps[i], orig, add);
}

/// The text splits around piece `i`.
#[verifier::spinoff_prover]
pub proof fn lemma_text_of_split(ps: Seq<Piece>, i: int, orig: Seq<u8>, add: Seq<u8>)
    requires
        0 <= i < ps.len(),
    ensures
        text_of(ps, orig, add) == text_of(ps.take(i), orig, add) + piece_bytes(ps[i], orig, add)
            + text_of(ps.skip(i + 1), orig, add),
{
    assert(ps =~= ps.take(i + 1) + ps.skip(i + 1));
    lemma_text_of_concat(ps.take(i + 1), ps.skip(i + 1), orig, add);
    lemma_text_of_take_step(ps, i, orig, add);
}

/// Sliceable pieces of valid buffers make valid text.
#[verifier::spinoff_prover]
pub proof fn lemma_text_of_valid(ps: Seq<Piece>, orig: Seq<u8>, add: Seq<u8>)
    requires
        valid_utf8(orig),
        valid_utf8(add),
        forall|i: int| 0 <= i < ps.len() ==> piece_wf(#[trigger] ps[i], orig, add),
        forall|i: int| 0 <= i < ps.len() ==> piece_sliceable(#[trigger] ps[i], orig, add),
    ensures
        valid_utf8(text_of(ps, orig, add)),
    decreases ps.len(),
{
    if ps.len() > 0 {
        assert(piece_wf(ps[0], orig, add));
        assert(piece_sliceable(ps[0], orig, add));
        let p = ps[0];
        lemma_slice_valid(buffer_of(p, orig, add), p.start as int, p.start + p.length);
        lemma_text_of_valid(ps.drop_first(), orig, add);
        valid_utf8_concat(piece_bytes(p, orig, add), text_of(ps.drop_first(), orig, add));
    }
}

/// Appending to the add buffer changes no piece that lies inside it.
#[verifier::spinoff_prover]
pub proof fn lemma_text_of_extend_add(ps: Seq<Piece>, orig: Seq<u8>, add: Seq<u8>, t: Seq<u8>)
    requires
        forall|i: int| 0 <= i < ps.len() ==> piece_wf(#[trigger] ps[i], orig, add),
    ensures
        text_of(ps, orig, add + t) == text_of(ps, orig, add),
        forall|i: int| 0 <= i < ps.len() ==> piece_wf(#[trigger] ps[i], orig, add + t),
    decreases ps.len(),
{
    if ps.len() > 0 {
        lemma_text_of_extend_add(ps.drop_first(), orig, add, t);
        assert forall|i: int| 0 <= i < ps.len() implies piece_wf(#[trigger] ps[i], orig, add + t) by {
            let p = ps[i];
            assert(piece_wf(p, orig, add));
            assert(piece_bytes(p, orig, add + t) =~= piece_bytes(p, orig, add));
        }
        assert(piece_bytes(ps[0], orig, add + t) =~= piece_bytes(ps[0], orig, add));
        assert(ps.drop_first().len() == ps.len() - 1);
        assert forall|i: int| 0 <= i < ps.drop_first().len() implies piece_wf(
            #[trigger] ps.drop_first()[i],
            orig,
            add,
        ) by {
            assert(ps.drop_first()[i] == ps[i + 1]);
        }
    }
}


/// What `locate` finds: inside the text, the piece and the offset that
/// reach `pos`; past its end, one past the last piece.
#[verifier::spinoff_prover]
pub proof fn lemma_locate(ps: Seq<Piece>, pos: int, orig: Seq<u8>, add: Seq<u8>)
    requires
        pos >= 0,
        forall|i: int| 0 <= i < ps.len() ==> piece_wf(#[trigger] ps[i], orig, add),
    ensures
        0 <= locate(ps, pos).0 <= ps.len(),
        locate(ps, pos).0 < ps.len() ==> {
            &&& 0 <= locate(ps, pos).1 <= ps[locate(ps, pos).0].length
            &&& text_of(ps.take(locate(ps, pos).0), orig, add).len() + locate(ps, pos).1 == pos
            &&& pos > 0 ==> locate(ps, pos).1 > 0
        },
        locate(ps, pos).0 == ps.len() ==> locate(ps, pos).1 == 0 && pos >= text_of(
            ps,
            orig,
            add,
        ).len(),
    decreases ps.len(),
{
    if ps.len() == 0 {
    } else {
        assert(piece_wf(ps[0], orig, add));
        assert(piece_bytes(ps[0], orig, add).len() == ps[0].length);
        if pos <= ps[0].length {
            assert(ps.take(0) =~= Seq::<Piece>::empty());
            assert(text_of(Seq::<Piece>::empty(), orig, add).len() == 0);
        } else {
            let rest = ps.drop_first();
            assert forall|i: int| 0 <= i < rest.len() implies piece_wf(#[trigger] rest[i], orig, add) by {
                assert(rest[i] == ps[i + 1]);
            }
            lemma_locate(rest, pos - ps[0].length, orig, add);
            let r = locate(rest, pos - ps[0].length);
            if r.0 < rest.len() {
                let t = ps.take(r.0 + 1);
                assert(t.drop_first() =~= rest.take(r.0));
                assert(t[0] == ps[0]);
                assert(t.len() > 0);
            }
        }
    }
}

/// Pieces that could be sliced out of the add buffer still can after more
/// valid bytes are appended to it.
#[verifier::spinoff_prover]
pub proof fn lemma_sliceable_extend_add(ps: Seq<Piece>, orig: Seq<u8>, add: Seq<u8>, t: Seq<u8>)
    requires
        valid_utf8(t),
        forall|i: int| 0 <= i < ps.len() ==> piece_wf(#[trigger] ps[i], orig, add),
        forall|i: int| 0 <= i < ps.len() ==> piece_sliceable(#[trigger] ps[i], orig, add),
    ensures
        forall|i: int| 0 <= i < ps.len() ==> piece_sliceable(#[trigger] ps[i], orig, add + t),
{
    assert forall|i: int| 0 <= i < ps.len() implies piece_sliceable(#[trigger] ps[i], orig, add + t) by {
        let p = ps[i];
        assert(piece_wf(p, orig, add));
        assert(piece_sliceable(p, orig, add));
        if p.buffer_type == BufferType::Add {
            lemma_boundary_append(add, t, p.start as int);
            lemma_boundary_append(add, t, p.start + p.length);
        }
    }
}

/// The text of three consecutive parts.
#[verifier::spinoff_prover]
pub proof fn lemma_text_of_three(
    a: Seq<Piece>,
    b: Seq<Piece>,
    c: Seq<Piece>,
    orig: Seq<u8>,
    add: Seq<u8>,
)
    ensures
        text_of(a + b + c, orig, add) == text_of(a, orig, add) + text_of(b, orig, add) + text_of(
            c,
            orig,
            add,
        ),
{
    lemma_text_of_concat(a + b, c, orig, add);
    lemma_text_of_concat(a, b, orig, add);
}

/// The text of two and of three pieces.
#[verifier::spinoff_prover]
pub proof fn lemma_text_of_pair(p: Piece, q: Piece, orig: Seq<u8>, add: Seq<u8>)
    ensures
        text_of(seq![p, q], orig, add) == piece_bytes(p, orig, add) + piece_bytes(q, orig, add),
{
    assert(seq![p, q] =~= seq![p] + seq![q]);
    lemma_text_of_concat(seq![p], seq![q], orig, add);
    lemma_text_of_single(p, orig, add);
    lemma_text_of_single(q, orig, add);
}

#[verifier::spinoff_prover]
pub proof fn lemma_text_of_triple(p: Piece, q: Piece, r: Piece, orig: Seq<u8>, add: Seq<u8>)
    ensures
        text_of(seq![p, q, r], orig, add) == piece_bytes(p, orig, add) + piece_bytes(q, orig, add)
            + piece_bytes(r, orig, add),
{
    assert(seq![p, q, r] =~= seq![p, q] + seq![r]);
    lemma_text_of_concat(seq![p, q], seq![r], orig, add);
    lemma_text_of_pair(p, q, orig, add);
    lemma_text_of_single(r, orig, add);
}


/// Inserting piece `np` before piece `i`, where the text so far reaches `p`.
#[verifier::spinoff_prover]
pub proof fn lemma_insert_piece(
    ps0: Seq<Piece>,
    i: int,
    np: Piece,
    orig: Seq<u8>,
    add: Seq<u8>,
    tb: Seq<u8>,
    p: int,
)
    requires
        0 <= i <= ps0.len(),
        forall|k: int| 0 <= k < ps0.len() ==> piece_wf(#[trigger] ps0[k], orig, add),
        piece_wf(np, orig, add),
        piece_bytes(np, orig, add) == tb,
        p == text_of(ps0.take(i), orig, add).len(),
    ensures
        text_of(ps0.insert(i, np), orig, add) == text_of(ps0, orig, add).take(p) + tb + text_of(
            ps0,
            orig,
            add,
        ).skip(p),
        forall|k: int|
            0 <= k < ps0.insert(i, np).len() ==> piece_wf(#[trigger] ps0.insert(i, np)[k], orig, add),
        (forall|k: int| 0 <= k < ps0.len() ==> piece_sliceable(#[trigger] ps0[k], orig, add))
            && piece_sliceable(np, orig, add) ==> forall|k: int|
            0 <= k < ps0.insert(i, np).len() ==> piece_sliceable(
                #[trigger] ps0.insert(i, np)[k],
                orig,
                add,
            ),
{
    let ps1 = ps0.insert(i, np);
    assert(ps1 =~= ps0.take(i) + seq![np] + ps0.skip(i));
    lemma_text_of_three(ps0.take(i), seq![np], ps0.skip(i), orig, add);
    lemma_text_of_single(np, orig, add);
    assert(ps0 =~= ps0.take(i) + ps0.skip(i));
    lemma_text_of_concat(ps0.take(i), ps0.skip(i), orig, add);
    let t0 = text_of(ps0, orig, add);
    assert(t0.take(p) =~= text_of(ps0.take(i), orig, add));
    assert(t0.skip(p) =~= text_of(ps0.skip(i), orig, add));
    assert forall|k: int| 0 <= k < ps1.len() implies piece_wf(#[trigger] ps1[k], orig, add) by {
        if k < i {
            assert(ps1[k] == ps0[k]);
        } else if k > i {
            assert(ps1[k] == ps0[k - 1]);
        }
    }
}

/// The two halves that `split_at` cuts from `old_p` at `offset`.
pub open spec fn halves_of(old_p: Piece, offset: usize, first: Piece, second: Piece) -> bool {
    &&& offset <= old_p.length
    &&& first.buffer_type == old_p.buffer_type
    &&& first.start == old_p.start
    &&& first.length == offset
    &&& first.line_breaks@ == keep_below(old_p.line_breaks@, offset)
    &&& second.buffer_type == old_p.buffer_type
    &&& second.start == old_p.start + offset
    &&& second.length == old_p.length - offset
    &&& second.line_breaks@ == keep_from(old_p.line_breaks@, offset)
}

/// The halves of a well-formed piece are well formed and hold its bytes.
#[verifier::spinoff_prover]
pub proof fn lemma_halves(old_p: Piece, offset: usize, first: Piece, second: Piece, orig: Seq<u8>, add: Seq<u8>)
    requires
        piece_wf(old_p, orig, add),
        halves_of(old_p, offset, first, second),
    ensures
        piece_wf(first, orig, add),
        piece_wf(second, orig, add),
        piece_bytes(first, orig, add) == piece_bytes(old_p, orig, add).subrange(0, offset as int),
        piece_bytes(second, orig, add) == piece_bytes(old_p, orig, add).subrange(
            offset as int,
            old_p.length as int,
        ),
{
    let b = piece_bytes(old_p, orig, add);
    lemma_split_offsets(old_p.line_breaks@, b, offset);
    assert(piece_bytes(first, orig, add) =~= b.subrange(0, offset as int));
    assert(piece_bytes(second, orig, add) =~= b.subrange(offset as int, b.len() as int));
}

/// The halves of a sliceable piece cut at a byte that starts a character
/// are sliceable.
#[verifier::spinoff_prover]
pub proof fn lemma_halves_sliceable(old_p: Piece, offset: usize, first: Piece, second: Piece, orig: Seq<u8>, add: Seq<u8>)
    requires
        piece_wf(old_p, orig, add),
        piece_sliceable(old_p, orig, add),
        halves_of(old_p, offset, first, second),
        0 < offset < old_p.length,
        !is_continuation_byte(piece_bytes(old_p, orig, add)[offset as int]),
    ensures
        piece_sliceable(first, orig, add),
        piece_sliceable(second, orig, add),
{
    let buf = buffer_of(old_p, orig, add);
    assert(piece_bytes(old_p, orig, add)[offset as int] == buf[old_p.start + offset]);
}

/// Splitting piece `i` at `offset` and putting `np` between the halves.
#[verifier::spinoff_prover]
pub proof fn lemma_insert_split_text(
    ps0: Seq<Piece>,
    i: int,
    offset: usize,
    first: Piece,
    second: Piece,
    np: Piece,
    orig: Seq<u8>,
    add: Seq<u8>,
    tb: Seq<u8>,
    p: int,
)
    requires
        0 <= i < ps0.len(),
        piece_wf(ps0[i], orig, add),
        piece_bytes(np, orig, add) == tb,
        p == text_of(ps0.take(i), orig, add).len() + offset,
        halves_of(ps0[i], offset, first, second),
        0 < offset < ps0[i].length,
    ensures
        ({
            let ps1 = ps0.take(i) + seq![first, np, second] + ps0.skip(i + 1);
            let t0 = text_of(ps0, orig, add);
            &&& text_of(ps1, orig, add) == t0.take(p) + tb + t0.skip(p)
            &&& t0[p] == piece_bytes(ps0[i], orig, add)[offset as int]
        }),
{
    let ps1 = ps0.take(i) + seq![first, np, second] + ps0.skip(i + 1);
    let t0 = text_of(ps0, orig, add);
    let old_p = ps0[i];
    let b = piece_bytes(old_p, orig, add);
    lemma_halves(old_p, offset, first, second, orig, add);
    lemma_text_of_three(ps0.take(i), seq![first, np, second], ps0.skip(i + 1), orig, add);
    lemma_text_of_triple(first, np, second, orig, add);
    lemma_text_of_split(ps0, i, orig, add);
    let pre = text_of(ps0.take(i), orig, add);
    let post = text_of(ps0.skip(i + 1), orig, add);
    assert(t0.take(p) =~= pre + b.subrange(0, offset as int));
    assert(t0.skip(p) =~= b.subrange(offset as int, b.len() as int) + post);
    assert(text_of(ps1, orig, add) =~= t0.take(p) + tb + t0.skip(p));
}

/// A property of every piece survives replacing piece `i` by three pieces
/// that have it.
#[verifier::spinoff_prover]
pub proof fn lemma_insert_split_all(
    ps0: Seq<Piece>,
    ps1: Seq<Piece>,
    i: int,
    first: Piece,
    np: Piece,
    second: Piece,
    pred: spec_fn(Piece) -> bool,
)
    requires
        0 <= i < ps0.len(),
        ps1 == ps0.take(i) + seq![first, np, second] + ps0.skip(i + 1),
        forall|k: int| 0 <= k < ps0.len() ==> #[trigger] pred(ps0[k]),
        pred(first),
        pred(np),
        pred(second),
    ensures
        forall|k: int| 0 <= k < ps1.len() ==> #[trigger] pred(ps1[k]),
{
    assert forall|k: int| 0 <= k < ps1.len() implies #[trigger] pred(ps1[k]) by {
        if k < i {
            assert(ps1[k] == ps0[k]);
        } else if k > i + 2 {
            assert(ps1[k] == ps0[k - 2]);
        } else if k == i {
            assert(ps1[k] == first);
        } else if k == i + 1 {
            assert(ps1[k] == np);
        } else {
            assert(ps1[k] == second);
        }
    }
}


/// What placing a new piece needs: `locate` found `(piece_index, offset)`
/// for `position`, the pieces fit both the old and the extended add buffer,
/// and `np` covers the appended bytes `tb`.
pub open spec fn place_pre(
    ps0: Seq<Piece>,
    piece_index: usize,
    offset: usize,
    np: Piece,
    orig: Seq<u8>,
    add0: Seq<u8>,
    tb: Seq<u8>,
    position: int,
) -> bool {
    &&& position >= 0
    &&& valid_utf8(tb)
    &&& orig.len() <= usize::MAX
    &&& add0.len() + tb.len() <= usize::MAX
    &&& piece_index as int == locate(ps0, position).0
    &&& offset as int == locate(ps0, position).1
    &&& forall|k: int| 0 <= k < ps0.len() ==> piece_wf(#[trigger] ps0[k], orig, add0)
    &&& forall|k: int| 0 <= k < ps0.len() ==> piece_wf(#[trigger] ps0[k], orig, add0 + tb)
    &&& piece_wf(np, orig, add0 + tb)
    &&& piece_bytes(np, orig, add0 + tb) == tb
    &&& piece_sliceable(np, orig, add0 + tb)
}

/// What placing a new piece gives: the text with `tb` at the clamped
/// position, well-formed pieces, and sliceable pieces when the old ones were
/// and the position is a character boundary.
pub open spec fn place_post(
    ps0: Seq<Piece>,
    ps1: Seq<Piece>,
    orig: Seq<u8>,
    add0: Seq<u8>,
    tb: Seq<u8>,
    position: int,
) -> bool {
    let add = add0 + tb;
    let t0 = text_of(ps0, orig, add);
    let p = clamp(position, t0.len() as int);
    &&& text_of(ps1, orig, add) == t0.take(p) + tb + t0.skip(p)
    &&& forall|k: int| 0 <= k < ps1.len() ==> piece_wf(#[trigger] ps1[k], orig, add)
    &&& (forall|k: int| 0 <= k < ps0.len() ==> piece_sliceable(#[trigger] ps0[k], orig, add0))
        && is_boundary(t0, p) ==> forall|k: int|
        0 <= k < ps1.len() ==> piece_sliceable(#[trigger] ps1[k], orig, add)
}

#[verifier::spinoff_prover]
pub proof fn lemma_place_insert(
    ps0: Seq<Piece>,
    i: int,
    piece_index: usize,
    offset: usize,
    np: Piece,
    orig: Seq<u8>,
    add0: Seq<u8>,
    tb: Seq<u8>,
    position: int,
)
    requires
        place_pre(ps0, piece_index, offset, np, orig, add0, tb, position),
        i == ps0.len() && piece_index >= ps0.len() || i == piece_index && piece_index < ps0.len()
            && offset == 0 || i == piece_index + 1 && piece_index < ps0.len() && offset
            == ps0[piece_index as int].length,
    ensures
        place_post(ps0, ps0.insert(i, np), orig, add0, tb, position),
{
    let add1 = add0 + tb;
    lemma_locate(ps0, position, orig, add1);
    let t0 = text_of(ps0, orig, add1);
    let idx = piece_index as int;
    if idx < ps0.len() {
        lemma_text_of_split(ps0, idx, orig, add1);
        lemma_text_of_take_step(ps0, idx, orig, add1);
        assert(piece_wf(ps0[idx], orig, add1));
    } else {
        assert(ps0.take(ps0.len() as int) =~= ps0);
    }
    let p = clamp(position, t0.len() as int);
    assert(p == text_of(ps0.take(i), orig, add1).len());
    lemma_insert_piece(ps0, i, np, orig, add1, tb, p);
    if (forall|k: int| 0 <= k < ps0.len() ==> piece_sliceable(#[trigger] ps0[k], orig, add0)) {
        lemma_sliceable_extend_add(ps0, orig, add0, tb);
    }
}

/// Where the split piece lies: at the located position, strictly inside
/// the text.
#[verifier::spinoff_prover]
proof fn lemma_place_split_at(
    ps0: Seq<Piece>,
    i: int,
    piece_index: usize,
    offset: usize,
    np: Piece,
    orig: Seq<u8>,
    add0: Seq<u8>,
    tb: Seq<u8>,
    position: int,
)
    requires
        place_pre(ps0, piece_index, offset, np, orig, add0, tb, position),
        i == piece_index,
        0 <= i < ps0.len(),
        0 < offset < ps0[i].length,
    ensures
        ({
            let add1 = add0 + tb;
            let t0 = text_of(ps0, orig, add1);
            &&& clamp(position, t0.len() as int) == position
            &&& piece_wf(ps0[i], orig, add1)
            &&& position == text_of(ps0.take(i), orig, add1).len() + offset
            &&& 0 < position < t0.len()
        }),
{
    let add1 = add0 + tb;
    lemma_locate(ps0, position, orig, add1);
    lemma_text_of_split(ps0, i, orig, add1);
    assert(piece_wf(ps0[i], orig, add1));
}

/// Splitting a sliceable piece at a boundary of the text, with a
/// sliceable new piece between the halves, leaves sliceable pieces.
#[verifier::spinoff_prover]
proof fn lemma_place_split_sliceable(
    ps0: Seq<Piece>,
    ps1: Seq<Piece>,
    i: int,
    offset: usize,
    first: Piece,
    second: Piece,
    np: Piece,
    orig: Seq<u8>,
    add0: Seq<u8>,
    tb: Seq<u8>,
)
    requires
        0 <= i < ps0.len(),
        halves_of(ps0[i], offset, first, second),
        0 < offset < ps0[i].length,
        piece_wf(ps0[i], orig, add0 + tb),
        ps1 == ps0.take(i) + seq![first, np, second] + ps0.skip(i + 1),
        forall|k: int| 0 <= k < ps0.len() ==> piece_sliceable(#[trigger] ps0[k], orig, add0),
        forall|k: int| 0 <= k < ps0.len() ==> piece_wf(#[trigger] ps0[k], orig, add0),
        piece_sliceable(np, orig, add0 + tb),
        valid_utf8(tb),
        !is_continuation_byte(piece_bytes(ps0[i], orig, add0 + tb)[offset as int]),
    ensures
        forall|k: int| 0 <= k < ps1.len() ==> piece_sliceable(#[trigger] ps1[k], orig, add0 + tb),
{
    let add1 = add0 + tb;
    lemma_sliceable_extend_add(ps0, orig, add0, tb);
    assert(piece_sliceable(ps0[i], orig, add1));
    lemma_halves_sliceable(ps0[i], offset, first, second, orig, add1);
    lemma_insert_split_all(
        ps0,
        ps1,
        i,
        first,
        np,
        second,
        |q: Piece| piece_sliceable(q, orig, add1),
    );
}

#[verifier::spinoff_prover]
pub proof fn lemma_place_split(
    ps0: Seq<Piece>,
    ps1: Seq<Piece>,
    i: int,
    piece_index: usize,
    offset: usize,
    first: Piece,
    second: Piece,
    np: Piece,
    orig: Seq<u8>,
    add0: Seq<u8>,
    tb: Seq<u8>,
    position: int,
)
    requires
        place_pre(ps0, piece_index, offset, np, orig, add0, tb, position),
        i == piece_index,
        0 <= i < ps0.len(),
        halves_of(ps0[i], offset, first, second),
        0 < offset < ps0[i].length,
        ps1 == ps0.take(i) + seq![first, np, second] + ps0.skip(i + 1),
    ensures
        place_post(ps0, ps1, orig, add0, tb, position),
{
    let add1 = add0 + tb;
    let t0 = text_of(ps0, orig, add1);
    let old_p = ps0[i];
    let p = clamp(position, t0.len() as int);
    lemma_place_split_at(ps0, i, piece_index, offset, np, orig, add0, tb, position);
    assert(text_of(ps1, orig, add1) == t0.take(p) + tb + t0.skip(p) && t0[p] == piece_bytes(
        old_p,
        orig,
        add1,
    )[offset as int]) by {
        lemma_insert_split_text(ps0, i, offset, first, second, np, orig, add1, tb, p);
    }
    assert(forall|k: int| 0 <= k < ps1.len() ==> piece_wf(#[trigger] ps1[k], orig, add1)) by {
        lemma_halves(old_p, offset, first, second, orig, add1);
        lemma_insert_split_all(ps0, ps1, i, first, np, second, |q: Piece| piece_wf(q, orig, add1));
    }
    if (forall|k: int| 0 <= k < ps0.len() ==> piece_sliceable(#[trigger] ps0[k], orig, add0))
        && is_boundary(t0, p) {
        assert(!is_continuation_byte(t0[p]));
        lemma_place_split_sliceable(ps0, ps1, i, offset, first, second, np, orig, add0, tb);
    }
}


/// The number of newlines that the pieces record.
pub open spec fn breaks_in(ps: Seq<Piece>) -> nat
    decreases ps.len(),
{
    if ps.len() == 0 {
        0
    } else {
        ps[0].line_breaks@.len() + breaks_in(ps.drop_first())
    }
}

/// Well-formed pieces record exactly the newlines of their text.
#[verifier::spinoff_prover]
pub proof fn lemma_breaks_in(ps: Seq<Piece>, orig: Seq<u8>, add: Seq<u8>)
    requires
        forall|i: int| 0 <= i < ps.len() ==> piece_wf(#[trigger] ps[i], orig, add),
    ensures
        breaks_in(ps) == count_newlines(text_of(ps, orig, add)),
    decreases ps.len(),
{
    if ps.len() > 0 {
        let rest = ps.drop_first();
        assert forall|i: int| 0 <= i < rest.len() implies piece_wf(#[trigger] rest[i], orig, add) by {
            assert(rest[i] == ps[i + 1]);
        }
        lemma_breaks_in(rest, orig, add);
        assert(piece_wf(ps[0], orig, add));
        assert(as_ints(ps[0].line_breaks@).len() == ps[0].line_breaks@.len());
        lemma_count_newlines_concat(piece_bytes(ps[0], orig, add), text_of(rest, orig, add));
    }
}

#[verifier::spinoff_prover]
pub proof fn lemma_breaks_in_single(x: Piece)
    ensures
        breaks_in(seq![x]) == x.line_breaks@.len(),
{
    assert(seq![x].drop_first() =~= Seq::<Piece>::empty());
    assert(seq![x][0] == x);
    assert(breaks_in(Seq::<Piece>::empty()) == 0);
}

#[verifier::spinoff_prover]
pub proof fn lemma_breaks_in_concat(a: Seq<Piece>, b: Seq<Piece>)
    ensures
        breaks_in(a + b) == breaks_in(a) + breaks_in(b),
    decreases a.len(),
{
    if a.len() == 0 {
        assert(a + b =~= b);
    } else {
        lemma_breaks_in_concat(a.drop_first(), b);
        assert((a + b).drop_first() =~= a.drop_first() + b);
        assert((a + b)[0] == a[0]);
    }
}

/// The newline counts of the two halves of a well-formed piece cut at `o`.
#[verifier::spinoff_prover]
pub proof fn lemma_halves_counts(p: Piece, o: usize, orig: Seq<u8>, add: Seq<u8>)
    requires
        piece_wf(p, orig, add),
        o <= p.length,
    ensures
        keep_below(p.line_breaks@, o).len() == count_newlines(
            piece_bytes(p, orig, add).subrange(0, o as int),
        ),
        keep_from(p.line_breaks@, o).len() == count_newlines(
            piece_bytes(p, orig, add).subrange(o as int, p.length as int),
        ),
        p.line_breaks@.len() == count_newlines(piece_bytes(p, orig, add)),
{
    let b = piece_bytes(p, orig, add);
    lemma_split_offsets(p.line_breaks@, b, o);
    assert(as_ints(keep_below(p.line_breaks@, o)).len() == keep_below(p.line_breaks@, o).len());
    assert(as_ints(keep_from(p.line_breaks@, o)).len() == keep_from(p.line_breaks@, o).len());
    assert(as_ints(p.line_breaks@).len() == p.line_breaks@.len());
}

/// Inside the text, `locate` finds a piece, and a position after the start
/// has a positive offset.
#[verifier::spinoff_prover]
pub proof fn lemma_locate_inside(ps: Seq<Piece>, pos: int, orig: Seq<u8>, add: Seq<u8>)
    requires
        0 <= pos <= text_of(ps, orig, add).len(),
        ps.len() > 0,
        forall|i: int| 0 <= i < ps.len() ==> piece_wf(#[trigger] ps[i], orig, add),
    ensures
        locate(ps, pos).0 < ps.len(),
    decreases ps.len(),
{
    assert(piece_wf(ps[0], orig, add));
    if pos > ps[0].length {
        let rest = ps.drop_first();
        assert forall|i: int| 0 <= i < rest.len() implies piece_wf(#[trigger] rest[i], orig, add) by {
            assert(rest[i] == ps[i + 1]);
        }
        if rest.len() == 0 {
            assert(text_of(rest, orig, add).len() == 0);
        } else {
            lemma_locate_inside(rest, pos - ps[0].length, orig, add);
        }
    }
}

/// The newlines that deleting bytes `so .. eo` of the single piece `p`
/// subtracts from the line count: those of the part cut off when the
/// deletion starts or ends at an end of the piece, and none when it removes
/// the whole piece or falls strictly inside it.
pub open spec fn within_counted(p: Piece, so: usize, eo: usize) -> nat {
    if so == 0 && eo == p.length {
        0
    } else if so == 0 {
        keep_below(p.line_breaks@, eo).len()
    } else if eo == p.length {
        keep_from(p.line_breaks@, so).len()
    } else {
        0
    }
}

/// The newlines that deleting from offset `so` of piece `sp` to offset `eo`
/// of a later piece `ep` subtracts: those of the cut-off end of the first
/// piece when it is kept, those of every piece in between, and those of the
/// cut-off start of the last piece when it is kept.
pub open spec fn across_counted(ps: Seq<Piece>, sp: int, so: usize, ep: int, eo: usize) -> nat {
    (if so > 0 {
        keep_from(ps[sp].line_breaks@, so).len()
    } else {
        0
    }) + breaks_in(ps.subrange(sp + 1, ep)) + (if eo < ps[ep].length {
        keep_below(ps[ep].line_breaks@, eo).len()
    } else {
        0
    })
}

/// A property of every element of two sequences holds of every element of
/// their concatenation.
#[verifier::spinoff_prover]
pub proof fn lemma_all_concat(a: Seq<Piece>, b: Seq<Piece>, pred: spec_fn(Piece) -> bool)
    requires
        forall|k: int| 0 <= k < a.len() ==> #[trigger] pred(a[k]),
        forall|k: int| 0 <= k < b.len() ==> #[trigger] pred(b[k]),
    ensures
        forall|k: int| 0 <= k < (a + b).len() ==> #[trigger] pred((a + b)[k]),
{
    assert forall|k: int| 0 <= k < (a + b).len() implies #[trigger] pred((a + b)[k]) by {
        if k < a.len() {
            assert((a + b)[k] == a[k]);
        } else {
            assert((a + b)[k] == b[k - a.len()]);
        }
    }
}

/// A property of every element holds of every element of a subrange.
#[verifier::spinoff_prover]
pub proof fn lemma_all_subrange(a: Seq<Piece>, i: int, j: int, pred: spec_fn(Piece) -> bool)
    requires
        0 <= i <= j <= a.len(),
        forall|k: int| 0 <= k < a.len() ==> #[trigger] pred(a[k]),
    ensures
        forall|k: int| 0 <= k < a.subrange(i, j).len() ==> #[trigger] pred(a.subrange(i, j)[k]),
{
    assert forall|k: int| 0 <= k < a.subrange(i, j).len() implies #[trigger] pred(a.subrange(i, j)[k]) by {
        assert(a.subrange(i, j)[k] == a[i + k]);
    }
}

/// Cutting at `o` keeps every element on exactly one side.
#[verifier::spinoff_prover]
pub proof fn lemma_keep_lens(v: Seq<usize>, o: usize)
    ensures
        keep_below(v, o).len() + keep_from(v, o).len() == v.len(),
    decreases v.len(),
{
    if v.len() > 0 {
        lemma_keep_lens(v.drop_last(), o);
    }
}


/// Replacing piece `i` by the pieces `mid`: the text is the text before,
/// that of `mid`, and the text after; well-formedness and sliceability carry
/// over from the parts.
#[verifier::spinoff_prover]
pub proof fn lemma_replace_one(ps0: Seq<Piece>, i: int, mid: Seq<Piece>, orig: Seq<u8>, add: Seq<u8>)
    requires
        0 <= i < ps0.len(),
        forall|k: int| 0 <= k < ps0.len() ==> piece_wf(#[trigger] ps0[k], orig, add),
        forall|k: int| 0 <= k < mid.len() ==> piece_wf(#[trigger] mid[k], orig, add),
    ensures
        text_of(ps0.take(i) + mid + ps0.skip(i + 1), orig, add) == text_of(ps0.take(i), orig, add)
            + text_of(mid, orig, add) + text_of(ps0.skip(i + 1), orig, add),
        text_of(ps0, orig, add) == text_of(ps0.take(i), orig, add) + piece_bytes(ps0[i], orig, add)
            + text_of(ps0.skip(i + 1), orig, add),
        forall|k: int|
            0 <= k < (ps0.take(i) + mid + ps0.skip(i + 1)).len() ==> piece_wf(
                #[trigger] (ps0.take(i) + mid + ps0.skip(i + 1))[k],
                orig,
                add,
            ),
        (forall|k: int| 0 <= k < ps0.len() ==> piece_sliceable(#[trigger] ps0[k], orig, add))
            && (forall|k: int| 0 <= k < mid.len() ==> piece_sliceable(#[trigger] mid[k], orig, add))
            ==> forall|k: int|
            0 <= k < (ps0.take(i) + mid + ps0.skip(i + 1)).len() ==> piece_sliceable(
                #[trigger] (ps0.take(i) + mid + ps0.skip(i + 1))[k],
                orig,
                add,
            ),
{
    let pre = ps0.take(i);
    let post = ps0.skip(i + 1);
    lemma_text_of_three(pre, mid, post, orig, add);
    lemma_text_of_split(ps0, i, orig, add);
    assert(ps0.subrange(0, i) =~= pre);
    assert(ps0.subrange(i + 1, ps0.len() as int) =~= post);
    lemma_all_subrange(ps0, 0, i, |q: Piece| piece_wf(q, orig, add));
    lemma_all_subrange(ps0, i + 1, ps0.len() as int, |q: Piece| piece_wf(q, orig, add));
    lemma_all_concat(pre, mid, |q: Piece| piece_wf(q, orig, add));
    lemma_all_concat(pre + mid, post, |q: Piece| piece_wf(q, orig, add));
    if (forall|k: int| 0 <= k < ps0.len() ==> piece_sliceable(#[trigger] ps0[k], orig, add))
        && (forall|k: int| 0 <= k < mid.len() ==> piece_sliceable(#[trigger] mid[k], orig, add)) {
        lemma_all_subrange(ps0, 0, i, |q: Piece| piece_sliceable(q, orig, add));
        lemma_all_subrange(ps0, i + 1, ps0.len() as int, |q: Piece| piece_sliceable(q, orig, add));
        lemma_all_concat(pre, mid, |q: Piece| piece_sliceable(q, orig, add));
        lemma_all_concat(pre + mid, post, |q: Piece| piece_sliceable(q, orig, add));
    }
}


/// No piece or the one piece.
pub open spec fn opt_seq(o: Option<Piece>) -> Seq<Piece> {
    match o {
        Some(p) => seq![p],
        None => Seq::empty(),
    }
}

/// The parts of a deletion across pieces `sp < ep`: the text and the
/// properties of `ps0.take(sp) + first + last + ps0.skip(ep + 1)`.
#[verifier::spinoff_prover]
pub proof fn lemma_across_result(
    ps0: Seq<Piece>,
    sp: int,
    ep: int,
    first: Seq<Piece>,
    last: Seq<Piece>,
    orig: Seq<u8>,
    add: Seq<u8>,
)
    requires
        0 <= sp < ep < ps0.len(),
        forall|k: int| 0 <= k < ps0.len() ==> piece_wf(#[trigger] ps0[k], orig, add),
        forall|k: int| 0 <= k < first.len() ==> piece_wf(#[trigger] first[k], orig, add),
        forall|k: int| 0 <= k < last.len() ==> piece_wf(#[trigger] last[k], orig, add),
    ensures
        text_of(ps0.take(sp) + first + last + ps0.skip(ep + 1), orig, add) == text_of(
            ps0.take(sp),
            orig,
            add,
        ) + text_of(first, orig, add) + text_of(last, orig, add) + text_of(ps0.skip(ep + 1), orig, add),
        text_of(ps0, orig, add) == text_of(ps0.take(sp), orig, add) + piece_bytes(ps0[sp], orig, add)
            + text_of(ps0.subrange(sp + 1, ep), orig, add) + piece_bytes(ps0[ep], orig, add) + text_of(
            ps0.skip(ep + 1),
            orig,
            add,
        ),
        forall|k: int|
            0 <= k < (ps0.take(sp) + first + last + ps0.skip(ep + 1)).len() ==> piece_wf(
                #[trigger] (ps0.take(sp) + first + last + ps0.skip(ep + 1))[k],
                orig,
                add,
            ),
        (forall|k: int| 0 <= k < ps0.len() ==> piece_sliceable(#[trigger] ps0[k], orig, add))
            && (forall|k: int| 0 <= k < first.len() ==> piece_sliceable(#[trigger] first[k], orig, add))
            && (forall|k: int| 0 <= k < last.len() ==> piece_sliceable(#[trigger] last[k], orig, add))
            ==> forall|k: int|
            0 <= k < (ps0.take(sp) + first + last + ps0.skip(ep + 1)).len() ==> piece_sliceable(
                #[trigger] (ps0.take(sp) + first + last + ps0.skip(ep + 1))[k],
                orig,
                add,
            ),
{
    let pre = ps0.take(sp);
    let post = ps0.skip(ep + 1);
    let mid = ps0.subrange(sp + 1, ep);
    lemma_text_of_concat(pre + first + last, post, orig, add);
    lemma_text_of_concat(pre + first, last, orig, add);
    lemma_text_of_concat(pre, first, orig, add);
    lemma_text_of_split(ps0, sp, orig, add);
    let after = ps0.skip(sp + 1);
    assert(after =~= mid + seq![ps0[ep]] + post);
    lemma_text_of_concat(mid + seq![ps0[ep]], post, orig, add);
    lemma_text_of_concat(mid, seq![ps0[ep]], orig, add);
    lemma_text_of_single(ps0[ep], orig, add);
    assert(ps0.subrange(0, sp) =~= pre);
    assert(ps0.subrange(ep + 1, ps0.len() as int) =~= post);
    lemma_all_subrange(ps0, 0, sp, |q: Piece| piece_wf(q, orig, add));
    lemma_all_subrange(ps0, ep + 1, ps0.len() as int, |q: Piece| piece_wf(q, orig, add));
    lemma_all_concat(pre, first, |q: Piece| piece_wf(q, orig, add));
    lemma_all_concat(pre + first, last, |q: Piece| piece_wf(q, orig, add));
    lemma_all_concat(pre + first + last, post, |q: Piece| piece_wf(q, orig, add));
    if (forall|k: int| 0 <= k < ps0.len() ==> piece_sliceable(#[trigger] ps0[k], orig, add))
        && (forall|k: int| 0 <= k < first.len() ==> piece_sliceable(#[trigger] first[k], orig, add))
        && (forall|k: int| 0 <= k < last.len() ==> piece_sliceable(#[trigger] last[k], orig, add)) {
        lemma_all_subrange(ps0, 0, sp, |q: Piece| piece_sliceable(q, orig, add));
        lemma_all_subrange(ps0, ep + 1, ps0.len() as int, |q: Piece| piece_sliceable(q, orig, add));
        lemma_all_concat(pre, first, |q: Piece| piece_sliceable(q, orig, add));
        lemma_all_concat(pre + first, last, |q: Piece| piece_sliceable(q, orig, add));
        lemma_all_concat(pre + first + last, post, |q: Piece| piece_sliceable(q, orig, add));
    }
}

/// The newlines a deletion across pieces subtracts are at most all the
/// newlines the pieces record.
#[verifier::spinoff_prover]
pub proof fn lemma_across_bound(ps0: Seq<Piece>, sp: int, so: usize, ep: int, eo: usize)
    requires
        0 <= sp < ep < ps0.len(),
    ensures
        keep_from(ps0[sp].line_breaks@, so).len() + breaks_in(ps0.subrange(sp + 1, ep)) + keep_below(
            ps0[ep].line_breaks@,
            eo,
        ).len() <= breaks_in(ps0),
{
    let mid = ps0.subrange(sp + 1, ep);
    assert(ps0 =~= ps0.take(sp) + seq![ps0[sp]] + mid + seq![ps0[ep]] + ps0.skip(ep + 1));
    lemma_breaks_in_concat(ps0.take(sp) + seq![ps0[sp]] + mid + seq![ps0[ep]], ps0.skip(ep + 1));
    lemma_breaks_in_concat(ps0.take(sp) + seq![ps0[sp]] + mid, seq![ps0[ep]]);
    lemma_breaks_in_concat(ps0.take(sp) + seq![ps0[sp]], mid);
    lemma_breaks_in_concat(ps0.take(sp), seq![ps0[sp]]);
    lemma_breaks_in_single(ps0[sp]);
    lemma_breaks_in_single(ps0[ep]);
    lemma_keep_lens(ps0[sp].line_breaks@, so);
    lemma_keep_lens(ps0[ep].line_breaks@, eo);
}


/// A later position is found in the same or a later piece, and in the same
/// piece at the same or a later offset.
#[verifier::spinoff_prover]
pub proof fn lemma_locate_mono(ps: Seq<Piece>, a: int, b: int)
    requires
        0 <= a <= b,
    ensures
        0 <= locate(ps, a).0 <= locate(ps, b).0 <= ps.len(),
        locate(ps, a).0 == locate(ps, b).0 ==> locate(ps, a).1 + (b - a) == locate(ps, b).1
            || locate(ps, a).0 == ps.len(),
    decreases ps.len(),
{
    if ps.len() > 0 {
        if a > ps[0].length {
            lemma_locate_mono(ps.drop_first(), a - ps[0].length, b - ps[0].length);
        } else if b > ps[0].length {
            lemma_locate_mono(ps.drop_first(), 0, b - ps[0].length);
        }
    }
}

/// A text made of a prefix, a middle part and a suffix, with `position`
/// and `end` around the removed bytes `r`.
pub open spec fn three_parts(t: Seq<u8>, x: Seq<u8>, r: Seq<u8>, y: Seq<u8>, position: int, end: int) -> bool {
    &&& t == x + r + y
    &&& position == x.len()
    &&& end == x.len() + r.len()
}

/// Removing the middle part leaves the prefix and the suffix, and the
/// newlines of the middle part are those that go.
#[verifier::spinoff_prover]
pub proof fn lemma_three_parts(t: Seq<u8>, x: Seq<u8>, r: Seq<u8>, y: Seq<u8>, position: int, end: int)
    requires
        three_parts(t, x, r, y, position, end),
    ensures
        t.take(position) == x,
        t.skip(end) == y,
        count_newlines(x + y) + count_newlines(r) == count_newlines(t),
        end <= t.len(),
{
    assert(t.take(position) =~= x);
    assert(t.skip(end) =~= y);
    lemma_count_newlines_concat(x, r);
    lemma_count_newlines_concat(x + r, y);
    lemma_count_newlines_concat(x, y);
}

/// Cutting bytes `so .. eo` out of the middle part `b` of `pre + b + post`.
#[verifier::spinoff_prover]
pub proof fn lemma_cut_middle(t: Seq<u8>, pre: Seq<u8>, b: Seq<u8>, post: Seq<u8>, so: int, eo: int)
    requires
        t == pre + b + post,
        0 <= so < eo <= b.len(),
    ensures
        three_parts(
            t,
            pre + b.subrange(0, so),
            b.subrange(so, eo),
            b.subrange(eo, b.len() as int) + post,
            pre.len() + so,
            pre.len() + eo,
        ),
        (pre + b.subrange(0, so)) + (b.subrange(eo, b.len() as int) + post) == pre + b.subrange(0, so)
            + b.subrange(eo, b.len() as int) + post,
{
    let x = b.subrange(0, so);
    let r = b.subrange(so, eo);
    let y = b.subrange(eo, b.len() as int);
    assert(b =~= x + r + y);
    assert(t =~= (pre + x) + r + (y + post));
    assert((pre + x) + (y + post) =~= pre + x + y + post);
}

/// The newlines that a piece counts between `so` and `eo` are at most those
/// of its bytes there.
#[verifier::spinoff_prover]
pub proof fn lemma_within_bound(p: Piece, so: int, eo: int, orig: Seq<u8>, add: Seq<u8>)
    requires
        piece_wf(p, orig, add),
        0 <= so < eo <= p.length,
    ensures
        within_counted(p, so as usize, eo as usize) <= count_newlines(
            piece_bytes(p, orig, add).subrange(so, eo),
        ),
{
    let b = piece_bytes(p, orig, add);
    let x = b.subrange(0, so);
    let r = b.subrange(so, eo);
    let y = b.subrange(eo, b.len() as int);
    lemma_halves_counts(p, eo as usize, orig, add);
    lemma_halves_counts(p, so as usize, orig, add);
    assert(b.subrange(0, eo) =~= x + r);
    assert(b.subrange(so, b.len() as int) =~= r + y);
    lemma_count_newlines_concat(x, r);
    lemma_count_newlines_concat(r, y);
}

/// Deleting bytes `so .. eo` of the single piece that holds them.
#[verifier::spinoff_prover]
pub proof fn lemma_delete_within_text(
    ps: Seq<Piece>,
    sp: int,
    so: int,
    eo: int,
    position: int,
    end: int,
    orig: Seq<u8>,
    add: Seq<u8>,
)
    requires
        0 <= sp < ps.len(),
        0 <= so < eo <= ps[sp].length,
        forall|k: int| 0 <= k < ps.len() ==> piece_wf(#[trigger] ps[k], orig, add),
        position == text_of(ps.take(sp), orig, add).len() + so,
        end == position + (eo - so),
    ensures
        ({
            let t = text_of(ps, orig, add);
            let b = piece_bytes(ps[sp], orig, add);
            let pre = text_of(ps.take(sp), orig, add);
            let post = text_of(ps.skip(sp + 1), orig, add);
            &&& three_parts(t, pre + b.subrange(0, so), b.subrange(so, eo), b.subrange(eo, b.len() as int) + post, position, end)
            &&& (pre + b.subrange(0, so)) + (b.subrange(eo, b.len() as int) + post) == pre + b.subrange(0, so) + b.subrange(eo, b.len() as int) + post
            &&& within_counted(ps[sp], so as usize, eo as usize) <= count_newlines(b.subrange(so, eo))
        }),
{
    let t = text_of(ps, orig, add);
    let p = ps[sp];
    let b = piece_bytes(p, orig, add);
    let pre = text_of(ps.take(sp), orig, add);
    let post = text_of(ps.skip(sp + 1), orig, add);
    assert(piece_wf(p, orig, add));
    lemma_text_of_split(ps, sp, orig, add);
    assert(t == pre + b + post && b.len() == p.length);
    lemma_cut_middle(t, pre, b, post, so, eo);
    lemma_within_bound(p, so, eo, orig, add);
}

/// A boundary of the text inside a piece is a boundary of the piece's bytes.
#[verifier::spinoff_prover]
pub proof fn lemma_boundary_in_piece(t: Seq<u8>, pre: Seq<u8>, b: Seq<u8>, post: Seq<u8>, o: int)
    requires
        t == pre + b + post,
        0 <= o <= b.len(),
        is_boundary(t, pre.len() + o),
    ensures
        is_boundary(b, o),
{
    if 0 < o < b.len() {
        assert(t[pre.len() + o] == b[o]);
    }
}


/// The text around pieces `sp < ep`.
#[verifier::spinoff_prover]
pub proof fn lemma_across_parts(ps: Seq<Piece>, sp: int, ep: int, orig: Seq<u8>, add: Seq<u8>)
    requires
        0 <= sp < ep < ps.len(),
        forall|k: int| 0 <= k < ps.len() ==> piece_wf(#[trigger] ps[k], orig, add),
    ensures
        text_of(ps, orig, add) == text_of(ps.take(sp), orig, add) + piece_bytes(ps[sp], orig, add)
            + text_of(ps.subrange(sp + 1, ep), orig, add) + piece_bytes(ps[ep], orig, add) + text_of(
            ps.skip(ep + 1),
            orig,
            add,
        ),
        text_of(ps.take(ep), orig, add) == text_of(ps.take(sp), orig, add) + piece_bytes(ps[sp], orig, add)
            + text_of(ps.subrange(sp + 1, ep), orig, add),
        piece_bytes(ps[sp], orig, add).len() == ps[sp].length,
        piece_bytes(ps[ep], orig, add).len() == ps[ep].length,
{
    let midp = ps.subrange(sp + 1, ep);
    assert(ps =~= ps.take(sp) + seq![ps[sp]] + midp + seq![ps[ep]] + ps.skip(ep + 1));
    lemma_text_of_concat(ps.take(sp) + seq![ps[sp]] + midp + seq![ps[ep]], ps.skip(ep + 1), orig, add);
    lemma_text_of_concat(ps.take(sp) + seq![ps[sp]] + midp, seq![ps[ep]], orig, add);
    lemma_text_of_concat(ps.take(sp) + seq![ps[sp]], midp, orig, add);
    lemma_text_of_concat(ps.take(sp), seq![ps[sp]], orig, add);
    lemma_text_of_single(ps[sp], orig, add);
    lemma_text_of_single(ps[ep], orig, add);
    assert(ps.take(ep) =~= ps.take(sp) + seq![ps[sp]] + midp);
    assert(piece_wf(ps[sp], orig, add));
    assert(piece_wf(ps[ep], orig, add));
}

/// The newlines a deletion across pieces counts are at most those of the
/// bytes it removes.
#[verifier::spinoff_prover]
pub proof fn lemma_across_counted_bound(ps: Seq<Piece>, sp: int, so: int, ep: int, eo: int, orig: Seq<u8>, add: Seq<u8>)
    requires
        0 <= sp < ep < ps.len(),
        0 <= so <= ps[sp].length,
        0 <= eo <= ps[ep].length,
        forall|k: int| 0 <= k < ps.len() ==> piece_wf(#[trigger] ps[k], orig, add),
    ensures
        ({
            let bs = piece_bytes(ps[sp], orig, add);
            let be = piece_bytes(ps[ep], orig, add);
            let mid = text_of(ps.subrange(sp + 1, ep), orig, add);
            across_counted(ps, sp, so as usize, ep, eo as usize) <= count_newlines(
                bs.subrange(so, bs.len() as int) + mid + be.subrange(0, eo),
            )
        }),
{
    let bs = piece_bytes(ps[sp], orig, add);
    let be = piece_bytes(ps[ep], orig, add);
    let midp = ps.subrange(sp + 1, ep);
    let mid = text_of(midp, orig, add);
    assert(piece_wf(ps[sp], orig, add));
    assert(piece_wf(ps[ep], orig, add));
    lemma_halves_counts(ps[sp], so as usize, orig, add);
    lemma_halves_counts(ps[ep], eo as usize, orig, add);
    lemma_all_subrange(ps, sp + 1, ep, |q: Piece| piece_wf(q, orig, add));
    lemma_breaks_in(midp, orig, add);
    lemma_count_newlines_concat(bs.subrange(so, bs.len() as int), mid);
    lemma_count_newlines_concat(bs.subrange(so, bs.len() as int) + mid, be.subrange(0, eo));
}

/// Deleting from offset `so` of piece `sp` to offset `eo` of a later piece `ep`.
#[verifier::spinoff_prover]
pub proof fn lemma_delete_across_text(
    ps: Seq<Piece>,
    sp: int,
    so: int,
    ep: int,
    eo: int,
    position: int,
    end: int,
    orig: Seq<u8>,
    add: Seq<u8>,
)
    requires
        0 <= sp < ep < ps.len(),
        0 <= so <= ps[sp].length,
        0 <= eo <= ps[ep].length,
        forall|k: int| 0 <= k < ps.len() ==> piece_wf(#[trigger] ps[k], orig, add),
        position == text_of(ps.take(sp), orig, add).len() + so,
        end == text_of(ps.take(ep), orig, add).len() + eo,
    ensures
        ({
            let t = text_of(ps, orig, add);
            let bs = piece_bytes(ps[sp], orig, add);
            let be = piece_bytes(ps[ep], orig, add);
            let pre = text_of(ps.take(sp), orig, add);
            let mid = text_of(ps.subrange(sp + 1, ep), orig, add);
            let post = text_of(ps.skip(ep + 1), orig, add);
            &&& three_parts(
                t,
                pre + bs.subrange(0, so),
                bs.subrange(so, bs.len() as int) + mid + be.subrange(0, eo),
                be.subrange(eo, be.len() as int) + post,
                position,
                end,
            )
            &&& (pre + bs.subrange(0, so)) + (be.subrange(eo, be.len() as int) + post) == pre
                + bs.subrange(0, so) + be.subrange(eo, be.len() as int) + post
        }),
{
    let t = text_of(ps, orig, add);
    let bs = piece_bytes(ps[sp], orig, add);
    let be = piece_bytes(ps[ep], orig, add);
    let pre = text_of(ps.take(sp), orig, add);
    let mid = text_of(ps.subrange(sp + 1, ep), orig, add);
    let post = text_of(ps.skip(ep + 1), orig, add);
    lemma_across_parts(ps, sp, ep, orig, add);
    lemma_five_parts(t, pre, bs, mid, be, post, so, eo);
}

/// Cutting `t = pre + bs + mid + be + post` from offset `so` of `bs` to
/// offset `eo` of `be`.
#[verifier::spinoff_prover]
pub proof fn lemma_five_parts(
    t: Seq<u8>,
    pre: Seq<u8>,
    bs: Seq<u8>,
    mid: Seq<u8>,
    be: Seq<u8>,
    post: Seq<u8>,
    so: int,
    eo: int,
)
    requires
        t == pre + bs + mid + be + post,
        0 <= so <= bs.len(),
        0 <= eo <= be.len(),
    ensures
        three_parts(
            t,
            pre + bs.subrange(0, so),
            bs.subrange(so, bs.len() as int) + mid + be.subrange(0, eo),
            be.subrange(eo, be.len() as int) + post,
            pre.len() + so,
            pre.len() + bs.len() + mid.len() + eo,
        ),
        (pre + bs.subrange(0, so)) + (be.subrange(eo, be.len() as int) + post) == pre + bs.subrange(
            0,
            so,
        ) + be.subrange(eo, be.len() as int) + post,
{
    let x = bs.subrange(0, so);
    let r1 = bs.subrange(so, bs.len() as int);
    let r2 = be.subrange(0, eo);
    let y = be.subrange(eo, be.len() as int);
    assert(bs =~= x + r1);
    assert(be =~= r2 + y);
    assert(t =~= (pre + x) + (r1 + mid + r2) + (y + post));
    assert((pre + x) + (y + post) =~= pre + x + y + post);
}


/// The newlines that deleting `length` bytes from `position` takes off the
/// line count of a table with pieces `ps` and text length `len`: those that
/// `within_counted` or `across_counted` name for the pieces that hold the
/// ends of the deleted range.
pub open spec fn delete_counted(ps: Seq<Piece>, len: int, position: int, length: int) -> nat {
    if length == 0 || position >= len {
        0
    } else {
        let end = clamp(position + length, len);
        let s = locate(ps, position);
        let e = locate(ps, end);
        if s.0 == e.0 {
            within_counted(ps[s.0], s.1 as usize, e.1 as usize)
        } else {
            across_counted(ps, s.0, s.1 as usize, e.0, e.1 as usize)
        }
    }
}

/// What a deletion inside one piece leaves: the text without the range, no
/// more newlines counted than removed, and the range's ends at boundaries
/// of the piece when they are boundaries of the text.
#[verifier::spinoff_prover]
pub proof fn lemma_delete_within_result(
    ps0: Seq<Piece>,
    t1: Seq<u8>,
    sp: int,
    so: int,
    eo: int,
    position: int,
    end: int,
    orig: Seq<u8>,
    add: Seq<u8>,
)
    requires
        0 <= sp < ps0.len(),
        0 <= so < eo <= ps0[sp].length,
        forall|k: int| 0 <= k < ps0.len() ==> piece_wf(#[trigger] ps0[k], orig, add),
        position == text_of(ps0.take(sp), orig, add).len() + so,
        end == position + (eo - so),
        ({
            let b = piece_bytes(ps0[sp], orig, add);
            t1 == text_of(ps0.take(sp), orig, add) + b.subrange(0, so) + b.subrange(
                eo,
                b.len() as int,
            ) + text_of(ps0.skip(sp + 1), orig, add)
        }),
    ensures
        ({
            let t0 = text_of(ps0, orig, add);
            let b = piece_bytes(ps0[sp], orig, add);
            &&& t1 == t0.take(position) + t0.skip(end)
            &&& end <= t0.len()
            &&& within_counted(ps0[sp], so as usize, eo as usize) + count_newlines(t1)
                <= count_newlines(t0)
            &&& is_boundary(t0, position) ==> is_boundary(b, so)
            &&& is_boundary(t0, end) ==> is_boundary(b, eo)
        }),
{
    let t0 = text_of(ps0, orig, add);
    lemma_delete_within_text(ps0, sp, so, eo, position, end, orig, add);
    let b = piece_bytes(ps0[sp], orig, add);
    let pre = text_of(ps0.take(sp), orig, add);
    let post = text_of(ps0.skip(sp + 1), orig, add);
    lemma_three_parts(
        t0,
        pre + b.subrange(0, so),
        b.subrange(so, eo),
        b.subrange(eo, b.len() as int) + post,
        position,
        end,
    );
    lemma_text_of_split(ps0, sp, orig, add);
    if is_boundary(t0, position) {
        lemma_boundary_in_piece(t0, pre, b, post, so);
    }
    if is_boundary(t0, end) {
        lemma_boundary_in_piece(t0, pre, b, post, eo);
    }
}

/// What a deletion across pieces leaves, as for one piece.
#[verifier::spinoff_prover]
pub proof fn lemma_delete_across_result(
    ps0: Seq<Piece>,
    t1: Seq<u8>,
    sp: int,
    so: int,
    ep: int,
    eo: int,
    position: int,
    end: int,
    orig: Seq<u8>,
    add: Seq<u8>,
)
    requires
        0 <= sp < ep < ps0.len(),
        0 <= so <= ps0[sp].length,
        0 <= eo <= ps0[ep].length,
        forall|k: int| 0 <= k < ps0.len() ==> piece_wf(#[trigger] ps0[k], orig, add),
        position == text_of(ps0.take(sp), orig, add).len() + so,
        end == text_of(ps0.take(ep), orig, add).len() + eo,
        ({
            let bs = piece_bytes(ps0[sp], orig, add);
            let be = piece_bytes(ps0[ep], orig, add);
            t1 == text_of(ps0.take(sp), orig, add) + bs.subrange(0, so) + be.subrange(
                eo,
                be.len() as int,
            ) + text_of(ps0.skip(ep + 1), orig, add)
        }),
    ensures
        ({
            let t0 = text_of(ps0, orig, add);
            let bs = piece_bytes(ps0[sp], orig, add);
            let be = piece_bytes(ps0[ep], orig, add);
            &&& t1 == t0.take(position) + t0.skip(end)
            &&& end <= t0.len()
            &&& across_counted(ps0, sp, so as usize, ep, eo as usize) + count_newlines(t1)
                <= count_newlines(t0)
            &&& is_boundary(t0, position) ==> is_boundary(bs, so)
            &&& is_boundary(t0, end) ==> is_boundary(be, eo)
        }),
{
    let t0 = text_of(ps0, orig, add);
    let bs = piece_bytes(ps0[sp], orig, add);
    let be = piece_bytes(ps0[ep], orig, add);
    let pre = text_of(ps0.take(sp), orig, add);
    let mid = text_of(ps0.subrange(sp + 1, ep), orig, add);
    let post = text_of(ps0.skip(ep + 1), orig, add);
    assert(t1 == t0.take(position) + t0.skip(end) && end <= t0.len() && across_counted(
        ps0,
        sp,
        so as usize,
        ep,
        eo as usize,
    ) + count_newlines(t1) <= count_newlines(t0)) by {
        lemma_delete_across_text(ps0, sp, so, ep, eo, position, end, orig, add);
        lemma_across_counted_bound(ps0, sp, so, ep, eo, orig, add);
        lemma_three_parts(
            t0,
            pre + bs.subrange(0, so),
            bs.subrange(so, bs.len() as int) + mid + be.subrange(0, eo),
            be.subrange(eo, be.len() as int) + post,
            position,
            end,
        );
    }
    assert(t0 == pre + bs + mid + be + post && pre.len() + so == position && (pre + bs + mid).len()
        + eo == end) by {
        lemma_across_parts(ps0, sp, ep, orig, add);
    }
    if is_boundary(t0, position) {
        assert(t0 =~= pre + bs + (mid + be + post));
        lemma_boundary_in_piece(t0, pre, bs, mid + be + post, so);
    }
    if is_boundary(t0, end) {
        assert(t0 =~= (pre + bs + mid) + be + post);
        lemma_boundary_in_piece(t0, pre + bs + mid, be, post, eo);
    }
}


/// A position past the text of the first `i` pieces lies in piece `i` or later.
#[verifier::spinoff_prover]
pub proof fn lemma_locate_after(ps: Seq<Piece>, pos: int, i: int, orig: Seq<u8>, add: Seq<u8>)
    requires
        0 <= i <= ps.len(),
        pos > text_of(ps.take(i), orig, add).len(),
        forall|k: int| 0 <= k < ps.len() ==> piece_wf(#[trigger] ps[k], orig, add),
    ensures
        locate(ps, pos).0 >= i,
    decreases i,
{
    if i > 0 {
        assert(piece_wf(ps[0], orig, add));
        let rest = ps.drop_first();
        assert(ps.take(i).drop_first() =~= rest.take(i - 1));
        assert(ps.take(i)[0] == ps[0]);
        assert forall|k: int| 0 <= k < rest.len() implies piece_wf(#[trigger] rest[k], orig, add) by {
            assert(rest[k] == ps[k + 1]);
        }
        assert(text_of(ps.take(i), orig, add) == piece_bytes(ps[0], orig, add) + text_of(
            rest.take(i - 1),
            orig,
            add,
        ));
        assert(pos > ps[0].length);
        lemma_locate_after(rest, pos - ps[0].length, i - 1, orig, add);
        assert(locate(ps, pos).0 == locate(rest, pos - ps[0].length).0 + 1);
    } else {
        lemma_locate_mono(ps, pos, pos);
    }
}

/// The last piece that reading line `n` touches: the one holding the
/// newline that ends the line, or the last piece when the line runs to the
/// end of the text or does not exist.
pub open spec fn line_last_piece(ps: Seq<Piece>, orig: Seq<u8>, add: Seq<u8>, n: int) -> int {
    let nl = newline_offsets(text_of(ps, orig, add));
    if 1 <= n && n - 1 < nl.len() {
        locate(ps, nl[n - 1] + 1).0
    } else {
        ps.len() - 1
    }
}


/// When the pieces up to the last one that line `n` touches are sliceable,
/// the line's bytes are valid UTF-8.
#[verifier::spinoff_prover]
pub proof fn lemma_line_valid(ps: Seq<Piece>, orig: Seq<u8>, add: Seq<u8>, n: int)
    requires
        valid_utf8(orig),
        valid_utf8(add),
        forall|k: int| 0 <= k < ps.len() ==> piece_wf(#[trigger] ps[k], orig, add),
        forall|k: int|
            0 <= k < ps.len() && k <= line_last_piece(ps, orig, add, n) ==> piece_sliceable(
                #[trigger] ps[k],
                orig,
                add,
            ),
        line_text(text_of(ps, orig, add), n) is Some,
    ensures
        valid_utf8(line_text(text_of(ps, orig, add), n)->0),
{
    let t = text_of(ps, orig, add);
    let nl = newline_offsets(t);
    lemma_newline_offsets_facts(t);
    if ps.len() == 0 {
        assert(t =~= Seq::<u8>::empty());
        assert(false);
    }
    let k = line_last_piece(ps, orig, add, n);
    if 1 <= n && n - 1 < nl.len() {
        let q = nl[n - 1];
        lemma_locate_inside(ps, q + 1, orig, add);
        lemma_locate(ps, q + 1, orig, add);
        lemma_locate_mono(ps, 0, q + 1);
        lemma_text_of_take_step(ps, k, orig, add);
        assert(piece_wf(ps[k], orig, add));
    }
    assert(0 <= k < ps.len());
    let front = ps.take(k + 1);
    assert forall|j: int| 0 <= j < front.len() implies piece_wf(#[trigger] front[j], orig, add) by {
        assert(front[j] == ps[j]);
    }
    assert forall|j: int| 0 <= j < front.len() implies piece_sliceable(#[trigger] front[j], orig, add) by {
        assert(front[j] == ps[j]);
    }
    lemma_text_of_valid(front, orig, add);
    let u = text_of(front, orig, add);
    assert(ps =~= front + ps.skip(k + 1));
    lemma_text_of_concat(front, ps.skip(k + 1), orig, add);
    assert(u =~= t.take(u.len() as int));
    if !(1 <= n && n - 1 < nl.len()) {
        assert(ps.skip(k + 1) =~= Seq::<Piece>::empty());
        assert(text_of(ps.skip(k + 1), orig, add) =~= Seq::<u8>::empty());
    }
    lemma_line_text_valid(t, u, n);
}

impl Piece {
    /// A piece of `length` bytes at `start` in `buffer_type`, with no newlines recorded.
    #[verifier::spinoff_prover]
    pub fn new(buffer_type: BufferType, start: usize, length: usize) -> (p: Piece)
        ensures
            p.buffer_type == buffer_type,
            p.start == start,
            p.length == length,
            p.line_breaks@ == Seq::<usize>::empty(),
    {
        Piece { buffer_type, start, length, line_breaks: Vec::new() }
    }

    /// Cuts the piece `offset` bytes in: the first part keeps the newlines
    /// before `offset`, the second the rest, counted from its own start.
    #[verifier::spinoff_prover]
    pub fn split_at(&self, offset: usize) -> (res: (Piece, Piece))
        requires
            offset <= self.length,
            self.start + offset <= usize::MAX,
        ensures
            res.0.buffer_type == self.buffer_type,
            res.0.start == self.start,
            res.0.length == offset,
            res.0.line_breaks@ == keep_below(self.line_breaks@, offset),
            res.1.buffer_type == self.buffer_type,
            res.1.start == self.start + offset,
            res.1.length == self.length - offset,
            res.1.line_breaks@ == keep_from(self.line_breaks@, offset),
    {
        let mut first_breaks: Vec<usize> = Vec::new();
        let mut second_breaks: Vec<usize> = Vec::new();
        let mut i: usize = 0;
        while i < self.line_breaks.len()
            invariant
                i <= self.line_breaks@.len(),
                first_breaks@ == keep_below(self.line_breaks@.take(i as int), offset),
                second_breaks@ == keep_from(self.line_breaks@.take(i as int), offset),
            decreases self.line_breaks@.len() - i,
        {
            let br = self.line_breaks[i];
            assert(self.line_breaks@.take(i + 1).drop_last() =~= self.line_breaks@.take(i as int));
            if br < offset {
                first_breaks.push(br);
            } else {
                second_breaks.push(br - offset);
            }
            i = i + 1;
        }
        assert(self.line_breaks@.take(i as int) =~= self.line_breaks@);
        let first = Piece {
            buffer_type: self.buffer_type,
            start: self.start,
            length: offset,
            line_breaks: first_breaks,
        };
        let second = Piece {
            buffer_type: self.buffer_type,
            start: self.start + offset,
            length: self.length - offset,
            line_breaks: second_breaks,
        };
        (first, second)
    }
}

} // verus!
