//! A piece table: the text is the concatenation of pieces, each a byte range
//! of either the original buffer or the append-only add buffer. Positions
//! and lengths are byte counts, as for `str`.

use vstd::prelude::*;
use vstd::utf8::*;
use vstd::string::StringSliceAdditionalSpecFns;
use crate::text_bytes::{
    keep_below, keep_from, remove_range, insert_at, line_start, line_text, lemma_newline_offsets_step,
    lemma_newline_offsets_prefix, lemma_newline_offsets_concat, shift,
    lemma_str_bytes_valid, as_ints, count_newlines, is_boundary, newline_offsets, clamp,
    lemma_count_newlines_concat, NEWLINE, string_from_utf8, lemma_boundary_append,
};
use crate::piece::{
    BufferType, Piece, buffer_of, piece_bytes, piece_wf, piece_sliceable, text_of, locate,
    lemma_text_of_take_step, lemma_text_of_split, lemma_text_of_valid, lemma_text_of_single,
    lemma_text_of_extend_add, lemma_locate, lemma_sliceable_extend_add,
    place_pre, place_post, lemma_place_insert, lemma_place_split, lemma_halves,
    lemma_halves_sliceable, lemma_text_of_pair, within_counted, across_counted,
    breaks_in, lemma_breaks_in, lemma_breaks_in_concat, lemma_locate_inside,
    lemma_replace_one,
    lemma_across_result, lemma_across_bound, opt_seq, lemma_breaks_in_single,
    lemma_locate_mono, delete_counted, lemma_delete_within_result, lemma_delete_across_result, line_last_piece,
    lemma_line_valid, piece_lens, lemma_locate_len, counted_breaks, lemma_halves_counts,
    lemma_across_parts, lens_after_insert, lens_after_delete,
};

verus! {

/// The bytes of a sequence of pieces, all held by valid buffers.
#[derive(Debug, Clone)]
pub struct PieceTable {
    original_buffer: Vec<u8>,
    add_buffer: Vec<u8>,
    pieces: Vec<Piece>,
    total_length: usize,
    line_count: usize,
}

impl PieceTable {
    /// The text: the bytes of the pieces, in order.
    pub closed spec fn text(&self) -> Seq<u8> {
        text_of(self.pieces@, self.original_buffer@, self.add_buffer@)
    }

    /// The line count that the table keeps.
    pub closed spec fn spec_line_count(&self) -> nat {
        self.line_count as nat
    }

    /// The table's invariant: valid UTF-8 buffers, pieces inside them that
    /// know their newlines, a length that is the text's, and a line count of
    /// at least one more than the text's newlines.
    pub closed spec fn wf(&self) -> bool {
        &&& valid_utf8(self.original_buffer@)
        &&& valid_utf8(self.add_buffer@)
        &&& self.add_buffer@.len() <= usize::MAX
        &&& self.original_buffer@.len() <= usize::MAX
        &&& forall|i: int|
            0 <= i < self.pieces@.len() ==> piece_wf(
                #[trigger] self.pieces@[i],
                self.original_buffer@,
                self.add_buffer@,
            )
        &&& self.total_length == self.text().len()
        &&& self.line_count >= 1 + count_newlines(self.text())
    }

    /// The newlines that `delete(position, length)` takes off the line
    /// count. They are the newlines of the removed bytes, except that
    /// nothing is taken off for a piece that is removed whole, nor when the
    /// removed bytes lie strictly inside one piece.
    /// The lengths of the pieces that hold the text, in order.
    pub closed spec fn piece_lengths(&self) -> Seq<int> {
        piece_lens(self.pieces@)
    }

    pub closed spec fn delete_breaks(&self, position: int, length: int) -> nat {
        delete_counted(self.pieces@, self.text().len() as int, position, length)
    }

    /// The pieces that reading line `n` slices out of their buffers can be:
    /// those up to the one holding the newline that ends the line, or all of
    /// them when the line runs to the end of the text.
    pub closed spec fn line_sliceable(&self, n: int) -> bool {
        forall|i: int|
            0 <= i < self.pieces@.len() && i <= line_last_piece(
                self.pieces@,
                self.original_buffer@,
                self.add_buffer@,
                n,
            ) ==> piece_sliceable(#[trigger] self.pieces@[i], self.original_buffer@, self.add_buffer@)
    }

    /// A sliceable table can be read line by line.
    #[verifier::spinoff_prover]
    pub proof fn lemma_sliceable_lines(&self, n: int)
        requires
            self.sliceable(),
        ensures
            self.line_sliceable(n),
    {
    }

    /// Every piece can be sliced out of its buffer.
    pub closed spec fn sliceable(&self) -> bool {
        forall|i: int|
            0 <= i < self.pieces@.len() ==> piece_sliceable(
                #[trigger] self.pieces@[i],
                self.original_buffer@,
                self.add_buffer@,
            )
    }

    /// A sliceable table holds valid UTF-8 text.
    #[verifier::spinoff_prover]
    pub proof fn lemma_sliceable_valid(&self)
        requires
            self.wf(),
            self.sliceable(),
        ensures
            valid_utf8(self.text()),
    {
        lemma_text_of_valid(self.pieces@, self.original_buffer@, self.add_buffer@);
    }

    /// An empty table: no text, one line.
    #[verifier::spinoff_prover]
    pub fn new() -> (t: PieceTable)
        ensures
            t.wf(),
            t.sliceable(),
            t.text() == Seq::<u8>::empty(),
            t.spec_line_count() == 1,
            t.piece_lengths() == Seq::<int>::empty(),
    {
        let t = PieceTable {
            original_buffer: Vec::new(),
            add_buffer: Vec::new(),
            pieces: Vec::new(),
            total_length: 0,
            line_count: 1,
        };
        assert(valid_utf8(Seq::<u8>::empty()));
        assert(t.text() =~= Seq::<u8>::empty());
        assert(t.piece_lengths() =~= Seq::<int>::empty());
        t
    }

    /// A table whose text is `text`, held as one piece of the original buffer.
    #[verifier::spinoff_prover]
    pub fn from_text(text: String) -> (t: PieceTable)
        requires
            encode_utf8(text@).len() < usize::MAX,
        ensures
            t.wf(),
            t.sliceable(),
            t.text() == encode_utf8(text@),
            t.spec_line_count() == 1 + count_newlines(encode_utf8(text@)),
            t.piece_lengths() == seq![encode_utf8(text@).len() as int],
    {
        let text_str = text.as_str();
        let line_breaks = Self::find_line_breaks(text_str);
        let bytes = text_str.as_bytes_vec();
        let length = bytes.len();
        proof {
            crate::text_bytes::lemma_newline_offsets_facts(bytes@);
            assert(as_ints(line_breaks@).len() == line_breaks@.len());
        }
        let line_count = line_breaks.len() + 1;
        let mut piece = Piece::new(BufferType::Original, 0, length);
        piece.line_breaks = line_breaks;
        let mut pieces: Vec<Piece> = Vec::new();
        pieces.push(piece);
        let t = PieceTable {
            original_buffer: bytes,
            add_buffer: Vec::new(),
            pieces,
            total_length: length,
            line_count,
        };
        proof {
            encode_utf8_valid_utf8(text@);
            assert(valid_utf8(Seq::<u8>::empty()));
            let ps = t.pieces@;
            assert(piece_bytes(ps[0], t.original_buffer@, t.add_buffer@) =~= bytes@);
            lemma_text_of_single(ps[0], t.original_buffer@, t.add_buffer@);
            assert(ps =~= seq![ps[0]]);
            is_char_boundary_start_end_of_seq(bytes@);
            assert(t.piece_lengths() =~= seq![length as int]);
        }
        t
    }

    /// The byte offsets of the newlines of `text`.
    #[verifier::spinoff_prover]
    fn find_line_breaks(text: &str) -> (v: Vec<usize>)
        ensures
            as_ints(v@) == newline_offsets(text.spec_bytes()),
    {
        let b = text.as_bytes();
        let mut v: Vec<usize> = Vec::new();
        let mut i: usize = 0;
        while i < b.len()
            invariant
                i <= b@.len(),
                b@ == text.spec_bytes(),
                as_ints(v@) == newline_offsets(b@.take(i as int)),
            decreases b@.len() - i,
        {
            assert(b@.take(i + 1).drop_last() =~= b@.take(i as int));
            if b[i] == NEWLINE {
                assert(as_ints(v@.push(i)) =~= as_ints(v@).push(i as int));
                v.push(i);
            }
            i = i + 1;
        }
        assert(b@.take(i as int) =~= b@);
        v
    }

    /// The text's length in bytes.
    #[verifier::spinoff_prover]
    pub fn length(&self) -> (n: usize)
        requires
            self.wf(),
        ensures
            n == self.text().len(),
    {
        self.total_length
    }

    /// The line count that the table keeps.
    #[verifier::spinoff_prover]
    pub fn line_count(&self) -> (n: usize)
        ensures
            n == self.spec_line_count(),
    {
        self.line_count
    }

    /// The piece that holds `position` and the offset inside it, as `locate`
    /// describes.
    #[verifier::spinoff_prover]
    fn find_piece_and_offset(&self, position: usize) -> (res: (usize, usize))
        requires
            self.wf(),
        ensures
            res.0 as int == locate(self.pieces@, position as int).0,
            res.1 as int == locate(self.pieces@, position as int).1,
    {
        let ghost ps = self.pieces@;
        let ghost orig = self.original_buffer@;
        let ghost add = self.add_buffer@;
        let mut current_pos: usize = 0;
        let mut i: usize = 0;
        assert(ps.skip(0) =~= ps);
        while i < self.pieces.len()
            invariant
                current_pos <= position,
                self.wf(),
                ps == self.pieces@,
                orig == self.original_buffer@,
                add == self.add_buffer@,
                i <= ps.len(),
                current_pos == text_of(ps.take(i as int), orig, add).len(),
                locate(ps, position as int) == ({
                    let r = locate(ps.skip(i as int), position - current_pos);
                    (r.0 + i, r.1)
                }),
            decreases ps.len() - i,
        {
            let len = self.pieces[i].length;
            proof {
                assert(piece_wf(ps[i as int], orig, add));
                lemma_text_of_take_step(ps, i as int, orig, add);
                lemma_text_of_split(ps, i as int, orig, add);
                assert(ps.skip(i as int)[0] == ps[i as int]);
                assert(ps.skip(i as int).drop_first() =~= ps.skip(i + 1));
            }
            if position <= current_pos + len {
                return (i, position - current_pos);
            }
            current_pos = current_pos + len;
            i = i + 1;
        }
        proof {
            assert(ps.skip(i as int) =~= Seq::<Piece>::empty());
        }
        (self.pieces.len(), 0)
    }


    /// Inserts `text` at byte `position`; a position past the end appends.
    /// When the table was sliceable and `position` (so clamped) is a
    /// character boundary of the text, it stays sliceable.
    #[verifier::spinoff_prover]
    pub fn insert(&mut self, position: usize, text: &str)
        requires
            old(self).wf(),
            old(self).text().len() + text.spec_bytes().len() <= usize::MAX,
            old(self).spec_line_count() + count_newlines(text.spec_bytes()) <= usize::MAX,
        ensures
            final(self).wf(),
            final(self).text() == insert_at(old(self).text(), position as int, text.spec_bytes()),
            final(self).spec_line_count() == old(self).spec_line_count() + count_newlines(
                text.spec_bytes(),
            ),
            old(self).sliceable() && is_boundary(
                old(self).text(),
                clamp(position as int, old(self).text().len() as int),
            ) ==> final(self).sliceable(),
            text.spec_bytes().len() == 0 ==> *final(self) == *old(self),
            final(self).piece_lengths() == lens_after_insert(
                old(self).piece_lengths(),
                position as int,
                text.spec_bytes().len() as int,
            ),
    {
        let ghost orig = self.original_buffer@;
        let ghost add0 = self.add_buffer@;
        let ghost t0 = self.text();
        let ghost tb = text.spec_bytes();
        let ghost p = clamp(position as int, t0.len() as int);
        proof {
            lemma_str_bytes_valid(text);
        }
        let tb_len = text.len();
        if tb_len == 0 {
            proof {
                assert(tb =~= Seq::<u8>::empty());
                assert(t0.take(p) + tb + t0.skip(p) =~= t0);
                assert(newline_offsets(tb) =~= Seq::<int>::empty());
            }
            return;
        }
        let (piece_index, offset) = self.find_piece_and_offset(position);
        let new_piece = self.append_text(text);
        let line_breaks_count = new_piece.line_breaks.len();
        proof {
            assert(as_ints(new_piece.line_breaks@).len() == new_piece.line_breaks@.len());
            lemma_locate(self.pieces@, position as int, orig, self.add_buffer@);
        }
        Self::place_piece(
            &mut self.pieces,
            piece_index,
            offset,
            new_piece,
            Ghost(orig),
            Ghost(add0),
            Ghost(tb),
            Ghost(position as int),
        );
        self.total_length = self.total_length + tb_len;
        self.line_count = self.line_count + line_breaks_count;
        proof {
            assert(t0 =~= t0.take(p) + t0.skip(p));
            lemma_count_newlines_concat(t0.take(p), t0.skip(p));
            lemma_count_newlines_concat(t0.take(p), tb);
            lemma_count_newlines_concat(t0.take(p) + tb, t0.skip(p));
            valid_utf8_concat(add0, tb);
        }
    }

    /// Appends the bytes of `text` to the add buffer and returns the piece
    /// that covers them.
    #[verifier::spinoff_prover]
    fn append_text(&mut self, text: &str) -> (np: Piece)
        requires
            old(self).wf(),
            text.spec_bytes().len() > 0,
        ensures
            final(self).original_buffer@ == old(self).original_buffer@,
            final(self).add_buffer@ == old(self).add_buffer@ + text.spec_bytes(),
            final(self).add_buffer@.len() <= usize::MAX,
            final(self).pieces@ == old(self).pieces@,
            final(self).total_length == old(self).total_length,
            final(self).line_count == old(self).line_count,
            final(self).text() == old(self).text(),
            forall|i: int|
                0 <= i < final(self).pieces@.len() ==> piece_wf(
                    #[trigger] final(self).pieces@[i],
                    final(self).original_buffer@,
                    final(self).add_buffer@,
                ),
            old(self).sliceable() ==> final(self).sliceable(),
            np.buffer_type == BufferType::Add,
            np.start == old(self).add_buffer@.len(),
            np.length == text.spec_bytes().len(),
            piece_wf(np, final(self).original_buffer@, final(self).add_buffer@),
            piece_bytes(np, final(self).original_buffer@, final(self).add_buffer@) == text.spec_bytes(),
            piece_sliceable(np, final(self).original_buffer@, final(self).add_buffer@),
    {
        let ghost orig = self.original_buffer@;
        let ghost add0 = self.add_buffer@;
        let ghost tb = text.spec_bytes();
        proof {
            lemma_str_bytes_valid(text);
        }
        let add_start = self.add_buffer.len();
        let mut extra = text.as_bytes_vec();
        self.add_buffer.append(&mut extra);
        let _new_len = self.add_buffer.len();
        let mut new_piece = Piece::new(BufferType::Add, add_start, text.len());
        new_piece.line_breaks = Self::find_line_breaks(text);
        proof {
            let add1 = self.add_buffer@;
            lemma_text_of_extend_add(self.pieces@, orig, add0, tb);
            assert(piece_bytes(new_piece, orig, add1) =~= tb);
            if self.sliceable() {
            }
            if old(self).sliceable() {
                lemma_sliceable_extend_add(self.pieces@, orig, add0, tb);
            }
            lemma_boundary_append(add0, tb, add0.len() as int);
        }
        new_piece
    }

    /// Puts `np` into `pieces` at the place that `locate` found for
    /// `position`, splitting the piece there when `position` falls inside it.
    #[verifier::spinoff_prover]
    fn place_piece(
        pieces: &mut Vec<Piece>,
        piece_index: usize,
        offset: usize,
        np: Piece,
        Ghost(orig): Ghost<Seq<u8>>,
        Ghost(add0): Ghost<Seq<u8>>,
        Ghost(tb): Ghost<Seq<u8>>,
        Ghost(position): Ghost<int>,
    )
        requires
            place_pre(old(pieces)@, piece_index, offset, np, orig, add0, tb, position),
            np.length > 0,
        ensures
            place_post(old(pieces)@, final(pieces)@, orig, add0, tb, position),
            piece_lens(final(pieces)@) == lens_after_insert(
                piece_lens(old(pieces)@),
                position,
                np.length as int,
            ),
    {
        let ghost ps0 = pieces@;
        let ghost add1 = add0 + tb;
        let ghost lens = piece_lens(ps0);
        proof {
            lemma_locate(ps0, position, orig, add1);
            lemma_locate_len(ps0, position);
        }
        if piece_index >= pieces.len() {
            pieces.push(np);
            proof {
                assert(ps0.insert(ps0.len() as int, np) =~= ps0.push(np));
                lemma_place_insert(ps0, ps0.len() as int, piece_index, offset, np, orig, add0, tb, position);
                lemma_lens_insert(ps0, ps0.len() as int, np);
            }
        } else if offset == 0 {
            pieces.insert(piece_index, np);
            proof {
                lemma_place_insert(ps0, piece_index as int, piece_index, offset, np, orig, add0, tb, position);
                lemma_lens_insert(ps0, piece_index as int, np);
            }
        } else if offset == pieces[piece_index].length {
            pieces.insert(piece_index + 1, np);
            proof {
                lemma_place_insert(ps0, piece_index + 1, piece_index, offset, np, orig, add0, tb, position);
                lemma_lens_insert(ps0, piece_index + 1, np);
            }
        } else {
            proof {
                assert(piece_wf(ps0[piece_index as int], orig, add1));
            }
            let (first, second) = pieces[piece_index].split_at(offset);
            pieces.set(piece_index, first);
            let next = piece_index + 1;
            pieces.insert(next, np);
            let _len_now = pieces.len();
            pieces.insert(next + 1, second);
            proof {
                let i = piece_index as int;
                assert(pieces@ =~= ps0.take(i) + seq![first, np, second] + ps0.skip(i + 1));
                lemma_place_split(ps0, pieces@, i, piece_index, offset, first, second, np, orig, add0, tb, position);
                lemma_lens_replace(ps0, i, seq![first, np, second]);
                assert(piece_lens(seq![first, np, second]) =~= seq![
                    offset as int,
                    np.length as int,
                    lens[i] - offset,
                ]);
            }
        }
    }



    /// Deletes `length` bytes from byte `position`, stopping at the end of
    /// the text; nothing happens when `length` is 0 or `position` is at or
    /// past the end. The line count drops by `delete_breaks`. When the table
    /// was sliceable and both ends of the deleted range are character
    /// boundaries of the text, it stays sliceable.
    #[verifier::spinoff_prover]
    pub fn delete(&mut self, position: usize, length: usize)
        requires
            old(self).wf(),
            length == 0 || position >= old(self).text().len() || position + length <= usize::MAX,
        ensures
            final(self).wf(),
            final(self).text() == remove_range(old(self).text(), position as int, length as int),
            final(self).spec_line_count() == old(self).spec_line_count() - old(self).delete_breaks(
                position as int,
                length as int,
            ),
            old(self).sliceable() && (length == 0 || position >= old(self).text().len() || (
            is_boundary(old(self).text(), position as int) && is_boundary(
                old(self).text(),
                clamp(position + length, old(self).text().len() as int),
            ))) ==> final(self).sliceable(),
            final(self).piece_lengths() == lens_after_delete(
                old(self).piece_lengths(),
                old(self).text().len() as int,
                position as int,
                length as int,
            ),
    {
        let ghost t0 = self.text();
        let ghost ps0 = self.pieces@;
        let ghost orig = self.original_buffer@;
        let ghost add = self.add_buffer@;
        if length == 0 || position >= self.total_length {
            return;
        }
        let end_position = if position + length < self.total_length {
            position + length
        } else {
            self.total_length
        };
        let actual_length = end_position - position;
        let (start_piece, start_offset) = self.find_piece_and_offset(position);
        let (end_piece, end_offset) = self.find_piece_and_offset(end_position);
        proof {
            assert(ps0.len() > 0) by {
                if ps0.len() == 0 {
                    assert(t0 =~= Seq::<u8>::empty());
                }
            }
            lemma_locate(ps0, position as int, orig, add);
            lemma_locate(ps0, end_position as int, orig, add);
            lemma_locate_inside(ps0, position as int, orig, add);
            lemma_locate_inside(ps0, end_position as int, orig, add);
            lemma_locate_mono(ps0, position as int, end_position as int);
            lemma_breaks_in(ps0, orig, add);
            crate::text_bytes::lemma_newline_offsets_facts(t0);
            lemma_locate_len(ps0, position as int);
            lemma_locate_len(ps0, end_position as int);
        }
        let removed = if start_piece == end_piece {
            Self::delete_within(&mut self.pieces, start_piece, start_offset, end_offset, Ghost(orig), Ghost(add))
        } else {
            Self::delete_across(
                &mut self.pieces,
                start_piece,
                start_offset,
                end_piece,
                end_offset,
                Ghost(orig),
                Ghost(add),
            )
        };
        proof {
            let t1 = self.text();
            let p = position as int;
            let e = end_position as int;
            assert(remove_range(t0, p, length as int) == t0.take(p) + t0.skip(e));
            if start_piece == end_piece {
                lemma_delete_within_result(
                    ps0,
                    t1,
                    start_piece as int,
                    start_offset as int,
                    end_offset as int,
                    p,
                    e,
                    orig,
                    add,
                );
            } else {
                lemma_delete_across_result(
                    ps0,
                    t1,
                    start_piece as int,
                    start_offset as int,
                    end_piece as int,
                    end_offset as int,
                    p,
                    e,
                    orig,
                    add,
                );
            }
        }
        self.line_count = self.line_count - removed;
        self.total_length = self.total_length - actual_length;
    }

    /// Removes bytes `so .. eo` of piece `sp`, the only piece they touch,
    /// and returns the number of newlines to take off the line count.
    #[verifier::spinoff_prover]
    fn delete_within(
        pieces: &mut Vec<Piece>,
        sp: usize,
        so: usize,
        eo: usize,
        Ghost(orig): Ghost<Seq<u8>>,
        Ghost(add): Ghost<Seq<u8>>,
    ) -> (removed: usize)
        requires
            sp < old(pieces)@.len(),
            so < eo <= old(pieces)@[sp as int].length,
            orig.len() <= usize::MAX,
            add.len() <= usize::MAX,
            forall|k: int|
                0 <= k < old(pieces)@.len() ==> piece_wf(#[trigger] old(pieces)@[k], orig, add),
        ensures
            ({
                let ps0 = old(pieces)@;
                let b = piece_bytes(ps0[sp as int], orig, add);
                text_of(final(pieces)@, orig, add) == text_of(ps0.take(sp as int), orig, add)
                    + b.subrange(0, so as int) + b.subrange(eo as int, b.len() as int) + text_of(
                    ps0.skip(sp + 1),
                    orig,
                    add,
                )
            }),
            forall|k: int|
                0 <= k < final(pieces)@.len() ==> piece_wf(#[trigger] final(pieces)@[k], orig, add),
            removed == within_counted(old(pieces)@[sp as int], so, eo),
            ({
                let lens = piece_lens(old(pieces)@);
                let len = lens[sp as int];
                piece_lens(final(pieces)@) == if so == 0 && eo == len {
                    lens.remove(sp as int)
                } else if so == 0 {
                    lens.update(sp as int, len - eo)
                } else if eo == len {
                    lens.update(sp as int, so as int)
                } else {
                    lens.take(sp as int) + seq![so as int, len - eo] + lens.skip(sp + 1)
                }
            }),
            ({
                let ps0 = old(pieces)@;
                let b = piece_bytes(ps0[sp as int], orig, add);
                (forall|k: int| 0 <= k < ps0.len() ==> piece_sliceable(#[trigger] ps0[k], orig, add))
                    && is_boundary(b, so as int) && is_boundary(b, eo as int) ==> forall|k: int|
                    0 <= k < final(pieces)@.len() ==> piece_sliceable(
                        #[trigger] final(pieces)@[k],
                        orig,
                        add,
                    )
            }),
    {
        let ghost ps0 = pieces@;
        let ghost i = sp as int;
        let ghost old_p = ps0[i];
        let ghost b = piece_bytes(old_p, orig, add);
        let ghost boundaries = (forall|k: int|
            0 <= k < ps0.len() ==> piece_sliceable(#[trigger] ps0[k], orig, add)) && is_boundary(
            b,
            so as int,
        ) && is_boundary(b, eo as int);
        proof {
            assert(piece_wf(old_p, orig, add));
        }
        let n = pieces.len();
        let plen = pieces[sp].length;
        if so == 0 && eo == plen {
            let _gone = pieces.remove(sp);
            proof {
                let mid = Seq::<Piece>::empty();
                assert(pieces@ =~= ps0.take(i) + mid + ps0.skip(i + 1));
                lemma_replace_one(ps0, i, mid, orig, add);
                assert(text_of(mid, orig, add) =~= Seq::<u8>::empty());
                assert(b.subrange(0, so as int) + b.subrange(eo as int, b.len() as int) =~= Seq::<u8>::empty());
                lemma_lens_replace(ps0, i, mid);
                assert(piece_lens(ps0).take(i) + piece_lens(mid) + piece_lens(ps0).skip(i + 1)
                    =~= piece_lens(ps0).remove(i));
            }
            0
        } else if so == 0 {
            let (cut, kept) = pieces[sp].split_at(eo);
            let removed = cut.line_breaks.len();
            pieces.set(sp, kept);
            proof {
                lemma_halves(old_p, eo, cut, kept, orig, add);
                let mid = seq![kept];
                assert(pieces@ =~= ps0.take(i) + mid + ps0.skip(i + 1));
                lemma_text_of_single(kept, orig, add);
                if boundaries {
                    lemma_halves_sliceable(old_p, eo, cut, kept, orig, add);
                }
                lemma_replace_one(ps0, i, mid, orig, add);
                assert(b.subrange(0, 0) + b.subrange(eo as int, b.len() as int) =~= b.subrange(eo as int, b.len() as int));
                lemma_lens_replace(ps0, i, mid);
                assert(piece_lens(ps0).take(i) + piece_lens(mid) + piece_lens(ps0).skip(i + 1)
                    =~= piece_lens(ps0).update(i, kept.length as int));
            }
            removed
        } else if eo == plen {
            let (kept, cut) = pieces[sp].split_at(so);
            let removed = cut.line_breaks.len();
            pieces.set(sp, kept);
            proof {
                lemma_halves(old_p, so, kept, cut, orig, add);
                let mid = seq![kept];
                assert(pieces@ =~= ps0.take(i) + mid + ps0.skip(i + 1));
                lemma_text_of_single(kept, orig, add);
                if boundaries {
                    lemma_halves_sliceable(old_p, so, kept, cut, orig, add);
                }
                lemma_replace_one(ps0, i, mid, orig, add);
                assert(b.subrange(0, so as int) + b.subrange(eo as int, b.len() as int) =~= b.subrange(0, so as int));
                lemma_lens_replace(ps0, i, mid);
                assert(piece_lens(ps0).take(i) + piece_lens(mid) + piece_lens(ps0).skip(i + 1)
                    =~= piece_lens(ps0).update(i, kept.length as int));
            }
            removed
        } else {
            let (first, middle) = pieces[sp].split_at(so);
            let (gone, second) = pieces[sp].split_at(eo);
            pieces.set(sp, first);
            pieces.insert(sp + 1, second);
            proof {
                lemma_halves(old_p, so, first, middle, orig, add);
                lemma_halves(old_p, eo, gone, second, orig, add);
                let mid = seq![first, second];
                assert(pieces@ =~= ps0.take(i) + mid + ps0.skip(i + 1));
                lemma_text_of_pair(first, second, orig, add);
                if boundaries {
                    lemma_halves_sliceable(old_p, so, first, middle, orig, add);
                    lemma_halves_sliceable(old_p, eo, gone, second, orig, add);
                }
                lemma_replace_one(ps0, i, mid, orig, add);
                lemma_lens_replace(ps0, i, mid);
                assert(piece_lens(mid) =~= seq![first.length as int, second.length as int]);
            }
            0
        }
    }


    /// What is left of piece `p` when its first `eo` bytes go: nothing when
    /// that is all of it. Returns the newlines that the deletion takes off
    /// the line count for it: those of the cut-off bytes when a part is
    /// left, none otherwise.
    #[verifier::spinoff_prover]
    fn trim_front(p: Piece, eo: usize, Ghost(orig): Ghost<Seq<u8>>, Ghost(add): Ghost<Seq<u8>>) -> (res: (usize, Option<Piece>))
        requires
            eo <= p.length,
            piece_wf(p, orig, add),
            buffer_of(p, orig, add).len() <= usize::MAX,
        ensures
            res.0 == (if eo < p.length { keep_below(p.line_breaks@, eo).len() } else { 0 }),
            res.1 is Some <==> eo < p.length,
            res.1 matches Some(k) ==> k.length == p.length - eo,
            text_of(opt_seq(res.1), orig, add) == piece_bytes(p, orig, add).subrange(eo as int, p.length as int),
            forall|k: int| 0 <= k < opt_seq(res.1).len() ==> piece_wf(#[trigger] opt_seq(res.1)[k], orig, add),
            piece_sliceable(p, orig, add) && is_boundary(piece_bytes(p, orig, add), eo as int) ==> forall|k: int|
                0 <= k < opt_seq(res.1).len() ==> piece_sliceable(#[trigger] opt_seq(res.1)[k], orig, add),
    {
        if eo < p.length {
            let (cut, kept) = p.split_at(eo);
            proof {
                lemma_halves(p, eo, cut, kept, orig, add);
                if piece_sliceable(p, orig, add) && is_boundary(piece_bytes(p, orig, add), eo as int) && eo > 0 {
                    lemma_halves_sliceable(p, eo, cut, kept, orig, add);
                }
                lemma_text_of_single(kept, orig, add);
                assert(opt_seq(Some(kept)) =~= seq![kept]);
            }
            (cut.line_breaks.len(), Some(kept))
        } else {
            proof {
                assert(text_of(opt_seq(None), orig, add) =~= Seq::<u8>::empty());
                assert(piece_bytes(p, orig, add).subrange(eo as int, p.length as int) =~= Seq::<u8>::empty());
            }
            (0, None)
        }
    }

    /// What is left of piece `p` when its bytes from `so` on go: nothing when
    /// that is all of it. Returns the newlines that the deletion takes off
    /// the line count for it: those of the cut-off bytes when a part is
    /// left, none otherwise.
    #[verifier::spinoff_prover]
    fn trim_back(p: Piece, so: usize, Ghost(orig): Ghost<Seq<u8>>, Ghost(add): Ghost<Seq<u8>>) -> (res: (usize, Option<Piece>))
        requires
            so <= p.length,
            piece_wf(p, orig, add),
            buffer_of(p, orig, add).len() <= usize::MAX,
        ensures
            res.0 == (if so > 0 { keep_from(p.line_breaks@, so).len() } else { 0 }),
            res.1 is Some <==> so > 0,
            res.1 matches Some(k) ==> k.length == so,
            text_of(opt_seq(res.1), orig, add) == piece_bytes(p, orig, add).subrange(0, so as int),
            forall|k: int| 0 <= k < opt_seq(res.1).len() ==> piece_wf(#[trigger] opt_seq(res.1)[k], orig, add),
            piece_sliceable(p, orig, add) && is_boundary(piece_bytes(p, orig, add), so as int) ==> forall|k: int|
                0 <= k < opt_seq(res.1).len() ==> piece_sliceable(#[trigger] opt_seq(res.1)[k], orig, add),
    {
        if so > 0 {
            let (kept, cut) = p.split_at(so);
            proof {
                lemma_halves(p, so, kept, cut, orig, add);
                if piece_sliceable(p, orig, add) && is_boundary(piece_bytes(p, orig, add), so as int) && so < p.length {
                    lemma_halves_sliceable(p, so, kept, cut, orig, add);
                }
                lemma_text_of_single(kept, orig, add);
                assert(opt_seq(Some(kept)) =~= seq![kept]);
            }
            (cut.line_breaks.len(), Some(kept))
        } else {
            proof {
                assert(text_of(opt_seq(None), orig, add) =~= Seq::<u8>::empty());
                assert(piece_bytes(p, orig, add).subrange(0, so as int) =~= Seq::<u8>::empty());
            }
            (0, None)
        }
    }

    /// Removes the `count` pieces after piece `sp` and returns the newlines
    /// they recorded.
    #[verifier::spinoff_prover]
    fn remove_after(pieces: &mut Vec<Piece>, sp: usize, count: usize) -> (removed: usize)
        requires
            sp + 1 + count <= old(pieces)@.len(),
            sp + 1 + count <= usize::MAX,
            breaks_in(old(pieces)@.subrange(sp + 1, sp + 1 + count)) <= usize::MAX,
        ensures
            final(pieces)@ == old(pieces)@.take(sp + 1) + old(pieces)@.skip(sp + 1 + count),
            removed == breaks_in(old(pieces)@.subrange(sp + 1, sp + 1 + count)),
    {
        let ghost ps0 = pieces@;
        let mut removed: usize = 0;
        let mut j: usize = 0;
        proof {
            assert(ps0 =~= ps0.take(sp + 1) + ps0.skip(sp + 1 + 0));
            assert(ps0.subrange(sp + 1, sp + 1) =~= Seq::<Piece>::empty());
        }
        while j < count
            invariant
                sp + 1 + count <= ps0.len(),
                sp + 1 + count <= usize::MAX,
                j <= count,
                pieces@ == ps0.take(sp + 1) + ps0.skip(sp + 1 + j),
                removed == breaks_in(ps0.subrange(sp + 1, sp + 1 + j)),
                breaks_in(ps0.subrange(sp + 1, sp + 1 + count)) <= usize::MAX,
            decreases count - j,
        {
            let ghost x = ps0[sp + 1 + j];
            proof {
                assert(pieces@[sp + 1] == x);
                assert(ps0.subrange(sp + 1, sp + 1 + j + 1) =~= ps0.subrange(sp + 1, sp + 1 + j) + seq![x]);
                lemma_breaks_in_concat(ps0.subrange(sp + 1, sp + 1 + j), seq![x]);
                lemma_breaks_in_single(x);
                assert(ps0.subrange(sp + 1, sp + 1 + count) =~= ps0.subrange(sp + 1, sp + 1 + j + 1)
                    + ps0.subrange(sp + 1 + j + 1, sp + 1 + count));
                lemma_breaks_in_concat(ps0.subrange(sp + 1, sp + 1 + j + 1), ps0.subrange(sp + 1 + j + 1, sp + 1 + count));
            }
            let gone = pieces.remove(sp + 1);
            removed = removed + gone.line_breaks.len();
            j = j + 1;
            proof {
                assert(pieces@ =~= ps0.take(sp + 1) + ps0.skip(sp + 1 + j));
            }
        }
        removed
    }

    /// Removes the bytes from offset `so` of piece `sp` to offset `eo` of the
    /// later piece `ep`, and returns the number of newlines to take off the
    /// line count.
    #[verifier::rlimit(100)]
    #[verifier::spinoff_prover]
    fn delete_across(
        pieces: &mut Vec<Piece>,
        sp: usize,
        so: usize,
        ep: usize,
        eo: usize,
        Ghost(orig): Ghost<Seq<u8>>,
        Ghost(add): Ghost<Seq<u8>>,
    ) -> (removed: usize)
        requires
            sp < ep < old(pieces)@.len(),
            so <= old(pieces)@[sp as int].length,
            eo <= old(pieces)@[ep as int].length,
            orig.len() <= usize::MAX,
            add.len() <= usize::MAX,
            breaks_in(old(pieces)@) <= usize::MAX,
            forall|k: int|
                0 <= k < old(pieces)@.len() ==> piece_wf(#[trigger] old(pieces)@[k], orig, add),
        ensures
            ({
                let ps0 = old(pieces)@;
                let bs = piece_bytes(ps0[sp as int], orig, add);
                let be = piece_bytes(ps0[ep as int], orig, add);
                text_of(final(pieces)@, orig, add) == text_of(ps0.take(sp as int), orig, add)
                    + bs.subrange(0, so as int) + be.subrange(eo as int, be.len() as int) + text_of(
                    ps0.skip(ep + 1),
                    orig,
                    add,
                )
            }),
            forall|k: int|
                0 <= k < final(pieces)@.len() ==> piece_wf(#[trigger] final(pieces)@[k], orig, add),
            removed == across_counted(old(pieces)@, sp as int, so, ep as int, eo),
            ({
                let lens = piece_lens(old(pieces)@);
                piece_lens(final(pieces)@) == lens.take(sp as int) + (if so > 0 {
                    seq![so as int]
                } else {
                    Seq::<int>::empty()
                }) + (if eo < lens[ep as int] {
                    seq![lens[ep as int] - eo]
                } else {
                    Seq::<int>::empty()
                }) + lens.skip(ep + 1)
            }),
            ({
                let ps0 = old(pieces)@;
                let bs = piece_bytes(ps0[sp as int], orig, add);
                let be = piece_bytes(ps0[ep as int], orig, add);
                (forall|k: int| 0 <= k < ps0.len() ==> piece_sliceable(#[trigger] ps0[k], orig, add))
                    && is_boundary(bs, so as int) && is_boundary(be, eo as int) ==> forall|k: int|
                    0 <= k < final(pieces)@.len() ==> piece_sliceable(
                        #[trigger] final(pieces)@[k],
                        orig,
                        add,
                    )
            }),
    {
        let ghost ps0 = pieces@;
        proof {
            assert(piece_wf(ps0[sp as int], orig, add));
            assert(piece_wf(ps0[ep as int], orig, add));
            lemma_across_bound(ps0, sp as int, so, ep as int, eo);
        }
        let last = pieces.remove(ep);
        let (r_last, kept_last) = Self::trim_front(last, eo, Ghost(orig), Ghost(add));
        match kept_last {
            Some(k) => {
                pieces.insert(ep, k);
            },
            None => {},
        }
        let ghost last_part = opt_seq(kept_last);
        let ghost ps1 = pieces@;
        proof {
            assert(ps1 =~= ps0.take(ep as int) + last_part + ps0.skip(ep + 1));
            assert(ps1.subrange(sp + 1, sp + 1 + (ep - sp - 1)) =~= ps0.subrange(sp + 1, ep as int));
        }
        let r_mid = Self::remove_after(pieces, sp, ep - sp - 1);
        proof {
            assert(pieces@ =~= ps0.take(sp + 1) + last_part + ps0.skip(ep + 1));
            assert(pieces@[sp as int] == ps0[sp as int]);
        }
        let first = pieces.remove(sp);
        let (r_first, kept_first) = Self::trim_back(first, so, Ghost(orig), Ghost(add));
        match kept_first {
            Some(k) => {
                pieces.insert(sp, k);
            },
            None => {},
        }
        let ghost first_part = opt_seq(kept_first);
        proof {
            assert(pieces@ =~= ps0.take(sp as int) + first_part + last_part + ps0.skip(ep + 1));
            lemma_lens_replace_range(ps0, sp as int, ep as int, first_part + last_part);
            assert(piece_lens(first_part + last_part) =~= (if so > 0 {
                seq![so as int]
            } else {
                Seq::<int>::empty()
            }) + (if eo < piece_lens(ps0)[ep as int] {
                seq![piece_lens(ps0)[ep as int] - eo]
            } else {
                Seq::<int>::empty()
            }));
            lemma_across_result(ps0, sp as int, ep as int, first_part, last_part, orig, add);
            if (forall|k: int| 0 <= k < ps0.len() ==> piece_sliceable(#[trigger] ps0[k], orig, add)) {
                assert(piece_sliceable(ps0[sp as int], orig, add));
                assert(piece_sliceable(ps0[ep as int], orig, add));
            }
        }
        r_last + r_mid + r_first
    }


    /// The byte position where line `line_number` (counted from 1) starts:
    /// nothing for line 0 or a line past the kept line count, 0 for line 1,
    /// and otherwise just after the newline that ends the line before, when
    /// the text has that many newlines.
    #[verifier::spinoff_prover]
    pub fn get_line_start_position(&self, line_number: usize) -> (res: Option<usize>)
        requires
            self.wf(),
        ensures
            res is Some <==> 1 <= line_number <= self.spec_line_count() && line_start(
                self.text(),
                line_number as int,
            ) is Some,
            res matches Some(v) ==> v as int == line_start(self.text(), line_number as int)->0,
    {
        let ghost ps = self.pieces@;
        let ghost orig = self.original_buffer@;
        let ghost add = self.add_buffer@;
        let ghost t = self.text();
        if line_number == 0 || line_number > self.line_count {
            return None;
        }
        if line_number == 1 {
            return Some(0);
        }
        let mut current_line: usize = 1;
        let mut position: usize = 0;
        let mut i: usize = 0;
        proof {
            assert(ps.take(0) =~= Seq::<Piece>::empty());
            assert(text_of(Seq::<Piece>::empty(), orig, add) =~= Seq::<u8>::empty());
            assert(newline_offsets(Seq::<u8>::empty()) =~= Seq::<int>::empty());
        }
        while i < self.pieces.len()
            invariant
                self.wf(),
                ps == self.pieces@,
                orig == self.original_buffer@,
                add == self.add_buffer@,
                t == self.text(),
                2 <= line_number,
                line_number <= self.line_count,
                i <= ps.len(),
                position == text_of(ps.take(i as int), orig, add).len(),
                current_line == 1 + count_newlines(text_of(ps.take(i as int), orig, add)),
                current_line < line_number,
            decreases ps.len() - i,
        {
            if current_line >= line_number {
                return Some(position);
            }
            let piece = &self.pieces[i];
            let ghost pre = text_of(ps.take(i as int), orig, add);
            let ghost b = piece_bytes(ps[i as int], orig, add);
            proof {
                assert(piece_wf(ps[i as int], orig, add));
                lemma_text_of_take_step(ps, i as int, orig, add);
                lemma_text_of_split(ps, i as int, orig, add);
                lemma_newline_offsets_concat(pre, b);
                lemma_newline_offsets_prefix(t, (pre.len() + b.len()) as int);
                assert(t.take((pre.len() + b.len()) as int) =~= pre + b);
                crate::text_bytes::lemma_newline_offsets_facts(b);
            }
            let mut j: usize = 0;
            while j < piece.line_breaks.len()
                invariant
                    ps == self.pieces@,
                    *piece == ps[i as int],
                    pre == text_of(ps.take(i as int), orig, add),
                    b == piece_bytes(ps[i as int], orig, add),
                    t == self.text(),
                    as_ints(piece.line_breaks@) == newline_offsets(b),
                    newline_offsets(pre + b) == newline_offsets(pre) + shift(newline_offsets(b), pre.len() as int),
                    forall|k: int|
                        0 <= k < newline_offsets(pre + b).len() ==> newline_offsets(t)[k]
                            == #[trigger] newline_offsets(pre + b)[k],
                    forall|k: int| 0 <= k < newline_offsets(b).len() ==> 0 <= #[trigger] newline_offsets(b)[k] < b.len(),
                    pre.len() + b.len() <= t.len(),
                    newline_offsets(pre + b).len() <= newline_offsets(t).len(),
                    t.len() <= usize::MAX,
                    position == pre.len(),
                    2 <= line_number,
                    line_number <= self.line_count,
                    i < ps.len(),
                    j <= piece.line_breaks@.len(),
                    current_line == 1 + count_newlines(pre) + j,
                    current_line < line_number,
                decreases piece.line_breaks@.len() - j,
            {
                let line_break = piece.line_breaks[j];
                proof {
                    assert(as_ints(piece.line_breaks@)[j as int] == line_break as int);
                    assert(as_ints(piece.line_breaks@).len() == piece.line_breaks@.len());
                    assert(count_newlines(pre) + j < newline_offsets(pre + b).len());
                    assert(shift(newline_offsets(b), pre.len() as int)[j as int] == newline_offsets(b)[j as int] + pre.len());
                    assert(newline_offsets(pre + b)[count_newlines(pre) + j] == newline_offsets(b)[j as int] + pre.len());
                    assert(newline_offsets(t)[count_newlines(pre) + j] == newline_offsets(b)[j as int] + pre.len());
                }
                current_line = current_line + 1;
                if current_line == line_number {
                    return Some(position + line_break + 1);
                }
                j = j + 1;
            }
            proof {
                assert(as_ints(piece.line_breaks@).len() == piece.line_breaks@.len());
                crate::text_bytes::lemma_count_newlines_concat(pre, b);
                assert(piece_wf(ps[i as int], orig, add));
            }
            position = position + piece.length;
            i = i + 1;
        }
        proof {
            assert(ps.take(i as int) =~= ps);
        }
        None
    }


    /// Line `line_number` (counted from 1) without its newline, as
    /// `line_text` describes; nothing for line 0, for a line past the text,
    /// and for line 1 of an empty text. The pieces read up to the line's end
    /// must be sliceable.
    #[verifier::spinoff_prover]
    pub fn get_line(&self, line_number: usize) -> (res: Option<String>)
        requires
            self.wf(),
            1 <= line_number <= self.spec_line_count() ==> self.line_sliceable(line_number as int),
        ensures
            res is Some <==> line_text(self.text(), line_number as int) is Some,
            res matches Some(s) ==> encode_utf8(s@) == line_text(self.text(), line_number as int)->0,
    {
        let ghost ps = self.pieces@;
        let ghost orig = self.original_buffer@;
        let ghost add = self.add_buffer@;
        let ghost t = self.text();
        let ghost n = line_number as int;
        proof {
            crate::text_bytes::lemma_newline_offsets_facts(t);
        }
        if line_number == 0 || line_number > self.line_count {
            return None;
        }
        let ghost start = line_start(t, n)->0;
        let mut current_line: usize = 1;
        let mut result: Vec<u8> = Vec::new();
        let mut in_target = false;
        let mut i: usize = 0;
        let ghost mut g: int = 0;
        proof {
            assert(t.take(0) =~= Seq::<u8>::empty());
            assert(newline_offsets(Seq::<u8>::empty()) =~= Seq::<int>::empty());
            assert(ps.take(0) =~= Seq::<Piece>::empty());
            assert(text_of(Seq::<Piece>::empty(), orig, add) =~= Seq::<u8>::empty());
            assert(t.subrange(0, 0) =~= Seq::<u8>::empty());
        }
        while i < self.pieces.len()
            invariant
                self.wf(),
                ps == self.pieces@,
                orig == self.original_buffer@,
                add == self.add_buffer@,
                t == self.text(),
                n == line_number,
                1 <= n <= self.line_count,
                self.line_sliceable(n),
                i <= ps.len(),
                g == text_of(ps.take(i as int), orig, add).len(),
                g <= t.len(),
                current_line == 1 + count_newlines(t.take(g)),
                current_line <= n,
                start == line_start(t, n)->0,
                in_target == (current_line == n && (n > 1 || g > 0)),
                current_line == n ==> line_start(t, n) is Some && line_start(t, n)->0 == start && 0 <= start <= g,
                result@ == (if current_line == n { t.subrange(start, g) } else { Seq::<u8>::empty() }),
            decreases ps.len() - i,
        {
            let piece = &self.pieces[i];
            let buffer = match piece.buffer_type {
                BufferType::Original => &self.original_buffer,
                BufferType::Add => &self.add_buffer,
            };
            let ghost pre = text_of(ps.take(i as int), orig, add);
            let ghost b = piece_bytes(ps[i as int], orig, add);
            proof {
                assert(piece_wf(ps[i as int], orig, add));
                assert(buffer@ == buffer_of(*piece, orig, add));
                lemma_text_of_take_step(ps, i as int, orig, add);
                lemma_text_of_split(ps, i as int, orig, add);
            }
            let end = piece.start + piece.length;
            let mut j: usize = piece.start;
            while j < end
                invariant
                    end == piece.start + piece.length,
                    piece.start <= j <= end,
                    end <= buffer@.len(),
                    self.wf(),
                    t == self.text(),
                    1 <= n <= self.line_count,
                    self.line_sliceable(n),
                    b == buffer@.subrange(piece.start as int, end as int),
                    t == pre + b + text_of(ps.skip(i + 1), orig, add),
                    g == pre.len() + (j - piece.start),
                    t.len() <= usize::MAX,
                    n == line_number,
                    1 <= n,
                    current_line == 1 + count_newlines(t.take(g)),
                    current_line <= n,
                    start == line_start(t, n)->0,
                    in_target == (current_line == n && (n > 1 || g > 0)),
                    current_line == n ==> line_start(t, n) is Some && line_start(t, n)->0 == start && 0 <= start <= g,
                    result@ == (if current_line == n { t.subrange(start, g) } else { Seq::<u8>::empty() }),
                decreases end - j,
            {
                let ch = buffer[j];
                proof {
                    assert(b[j - piece.start] == buffer@[j as int]);
                    assert(t[g] == b[j - piece.start]);
                    assert(ch == t[g]);
                    assert(g < t.len());
                    lemma_newline_offsets_step(t, g);
                    lemma_newline_offsets_prefix(t, g);
                    lemma_newline_offsets_prefix(t, g + 1);
                }
                if current_line == line_number {
                    in_target = true;
                    if ch == NEWLINE {
                        proof {
                            self.lemma_line_end(n, g, start);
                        }
                        return Some(string_from_utf8(result));
                    }
                    let ghost before = result@;
                    result.push(ch);
                    proof {
                        assert(before == t.subrange(start, g));
                        assert(result@ =~= t.subrange(start, g + 1));
                    }
                } else if ch == NEWLINE {
                    current_line = current_line + 1;
                    if current_line == line_number {
                        in_target = true;
                        proof {
                            assert(count_newlines(t.take(g)) == n - 2);
                            assert(newline_offsets(t.take(g + 1))[n - 2] == g);
                            assert(newline_offsets(t)[n - 2] == g);
                            assert(line_start(t, n) == Some(g + 1));
                            assert(start == g + 1);
                            assert(t.subrange(g + 1, g + 1) =~= Seq::<u8>::empty());
                        }
                    }
                }
                j = j + 1;
                proof {
                    g = g + 1;
                }
            }
            i = i + 1;
        }
        proof {
            assert(ps.take(i as int) =~= ps);
            assert(t.take(g) =~= t);
        }
        if in_target {
            proof {
                self.lemma_line_to_end(n, start);
            }
            Some(string_from_utf8(result))
        } else {
            None
        }
    }

    /// Reading line `n` stopped at the newline at `g` that ends it.
    #[verifier::spinoff_prover]
    proof fn lemma_line_end(&self, n: int, g: int, start: int)
        requires
            self.wf(),
            1 <= n <= self.line_count,
            self.line_sliceable(n),
            0 <= g < self.text().len(),
            self.text()[g] == NEWLINE,
            n == 1 + count_newlines(self.text().take(g)),
            line_start(self.text(), n) is Some,
            line_start(self.text(), n)->0 == start,
            start <= g,
        ensures
            line_text(self.text(), n) == Some(self.text().subrange(start, g)),
            valid_utf8(self.text().subrange(start, g)),
            encode_utf8(decode_utf8(self.text().subrange(start, g))) == self.text().subrange(start, g),
    {
        let t = self.text();
        lemma_newline_offsets_step(t, g);
        lemma_newline_offsets_prefix(t, g + 1);
        assert(newline_offsets(t.take(g + 1))[n - 1] == g);
        lemma_line_valid(self.pieces@, self.original_buffer@, self.add_buffer@, n);
        decode_utf8_encode_utf8(t.subrange(start, g));
    }

    /// Reading line `n` ran to the end of the text.
    #[verifier::spinoff_prover]
    proof fn lemma_line_to_end(&self, n: int, start: int)
        requires
            self.wf(),
            1 <= n <= self.line_count,
            self.line_sliceable(n),
            n == 1 + count_newlines(self.text()),
            n > 1 || self.text().len() > 0,
            line_start(self.text(), n) is Some,
            line_start(self.text(), n)->0 == start,
            start <= self.text().len(),
        ensures
            line_text(self.text(), n) == Some(self.text().subrange(start, self.text().len() as int)),
            valid_utf8(self.text().subrange(start, self.text().len() as int)),
            encode_utf8(decode_utf8(self.text().subrange(start, self.text().len() as int)))
                == self.text().subrange(start, self.text().len() as int),
    {
        let t = self.text();
        lemma_line_valid(self.pieces@, self.original_buffer@, self.add_buffer@, n);
        decode_utf8_encode_utf8(t.subrange(start, t.len() as int));
    }

    /// The bytes of the text.
    #[verifier::spinoff_prover]
    pub fn text_bytes(&self) -> (v: Vec<u8>)
        requires
            self.wf(),
        ensures
            v@ == self.text(),
    {
        let ghost ps = self.pieces@;
        let ghost orig = self.original_buffer@;
        let ghost add = self.add_buffer@;
        let mut result: Vec<u8> = Vec::new();
        let mut i: usize = 0;
        while i < self.pieces.len()
            invariant
                self.wf(),
                ps == self.pieces@,
                orig == self.original_buffer@,
                add == self.add_buffer@,
                i <= ps.len(),
                result@ == text_of(ps.take(i as int), orig, add),
            decreases ps.len() - i,
        {
            let piece = &self.pieces[i];
            let buffer = match piece.buffer_type {
                BufferType::Original => &self.original_buffer,
                BufferType::Add => &self.add_buffer,
            };
            proof {
                assert(piece_wf(ps[i as int], orig, add));
                lemma_text_of_take_step(ps, i as int, orig, add);
            }
            let ghost before = result@;
            assert(buffer@ == buffer_of(*piece, orig, add));
            let end = piece.start + piece.length;
            let mut j: usize = piece.start;
            while j < end
                invariant
                    end == piece.start + piece.length,
                    piece.start <= j <= end,
                    end <= buffer@.len(),
                    result@ == before + buffer@.subrange(piece.start as int, j as int),
                decreases end - j,
            {
                result.push(buffer[j]);
                j = j + 1;
                assert(result@ =~= before + buffer@.subrange(piece.start as int, j as int));
            }
            i = i + 1;
        }
        proof {
            assert(ps.take(i as int) =~= ps);
        }
        result
    }

    /// The text as a string; every piece must be sliceable out of its buffer.
    #[verifier::spinoff_prover]
    pub fn get_text(&self) -> (s: String)
        requires
            self.wf(),
            self.sliceable(),
        ensures
            valid_utf8(self.text()),
            s@ == decode_utf8(self.text()),
            encode_utf8(s@) == self.text(),
    {
        let bytes = self.text_bytes();
        proof {
            self.lemma_sliceable_valid();
            decode_utf8_encode_utf8(bytes@);
        }
        string_from_utf8(bytes)
    }
}


/// Deleting what was just inserted, from where it went, gives back the text
/// before the insertion.
#[verifier::spinoff_prover]
pub proof fn lemma_insert_then_delete(t: Seq<u8>, position: int, s: Seq<u8>)
    requires
        0 <= position,
    ensures
        remove_range(insert_at(t, position, s), clamp(position, t.len() as int), s.len() as int) == t,
{
    let p = clamp(position, t.len() as int);
    let u = insert_at(t, position, s);
    if s.len() > 0 {
        assert(u.take(p) =~= t.take(p));
        assert(clamp(p + s.len(), u.len() as int) == p + s.len());
        assert(u.skip(p + s.len()) =~= t.skip(p));
        assert(t.take(p) + t.skip(p) =~= t);
    } else {
        assert(u =~= t);
    }
}

/// Inserting `s` adds its newlines to the text's: so a line count that is
/// one more than the text's newlines stays so across an insertion.
#[verifier::spinoff_prover]
pub proof fn lemma_insert_keeps_line_count(t: Seq<u8>, position: int, s: Seq<u8>, count: int)
    requires
        0 <= position,
        count == 1 + count_newlines(t),
    ensures
        count + count_newlines(s) == 1 + count_newlines(insert_at(t, position, s)),
{
    let p = clamp(position, t.len() as int);
    assert(t =~= t.take(p) + t.skip(p));
    lemma_count_newlines_concat(t.take(p), t.skip(p));
    lemma_count_newlines_concat(t.take(p), s);
    lemma_count_newlines_concat(t.take(p) + s, t.skip(p));
}

/// A line's start position and its text agree: the text of line `k` begins
/// at its start position, ends at a newline or at the end of the text, and
/// a newline comes just before it unless it starts the text.
pub proof fn lemma_line_start_and_text(t: Seq<u8>, k: int)
    requires
        line_text(t, k) is Some,
    ensures
        line_start(t, k) is Some,
        ({
            let p = line_start(t, k)->0;
            let l = line_text(t, k)->0;
            &&& 0 <= p <= p + l.len() <= t.len()
            &&& t.subrange(p, p + l.len()) == l
            &&& p + l.len() == t.len() || t[p + l.len()] == NEWLINE
            &&& p == 0 || t[p - 1] == NEWLINE
        }),
{
    crate::text_bytes::lemma_newline_offsets_facts(t);
    let nl = newline_offsets(t);
    if k >= 2 {
        assert(nl[k - 2] < t.len());
        if k - 1 < nl.len() {
            assert(nl[k - 2] < nl[k - 1]);
        }
    }
}

/// The text after inserting, one after the other, the byte strings of
/// `inserts` at their positions.
pub open spec fn after_inserts(t: Seq<u8>, inserts: Seq<(int, Seq<u8>)>) -> Seq<u8>
    decreases inserts.len(),
{
    if inserts.len() == 0 {
        t
    } else {
        insert_at(after_inserts(t, inserts.drop_last()), inserts.last().0, inserts.last().1)
    }
}

/// The newlines of the inserted byte strings.
pub open spec fn inserted_newlines(inserts: Seq<(int, Seq<u8>)>) -> int
    decreases inserts.len(),
{
    if inserts.len() == 0 {
        0
    } else {
        inserted_newlines(inserts.drop_last()) + count_newlines(inserts.last().1)
    }
}

/// Only inserting keeps a line count exact: a count that starts one more
/// than the text's newlines and grows by the newlines of each inserted
/// string ends one more than the newlines of the final text.
pub proof fn lemma_inserts_keep_line_count(t: Seq<u8>, inserts: Seq<(int, Seq<u8>)>)
    requires
        forall|i: int| 0 <= i < inserts.len() ==> (#[trigger] inserts[i]).0 >= 0,
    ensures
        1 + count_newlines(t) + inserted_newlines(inserts) == 1 + count_newlines(
            after_inserts(t, inserts),
        ),
    decreases inserts.len(),
{
    if inserts.len() > 0 {
        let rest = inserts.drop_last();
        assert forall|i: int| 0 <= i < rest.len() implies (#[trigger] rest[i]).0 >= 0 by {
            assert(rest[i] == inserts[i]);
        }
        lemma_inserts_keep_line_count(t, rest);
        assert(inserts[inserts.len() - 1] == inserts.last());
        lemma_insert_keeps_line_count(
            after_inserts(t, rest),
            inserts.last().0,
            inserts.last().1,
            (1 + count_newlines(after_inserts(t, rest))) as int,
        );
    }
}

/// The bytes of the middle part of `pre + b + post` are those of the text
/// at the same place.
proof fn lemma_piece_slice(t: Seq<u8>, pre: Seq<u8>, b: Seq<u8>, post: Seq<u8>, x: int, y: int)
    requires
        t == pre + b + post,
        0 <= x <= y <= b.len(),
    ensures
        b.subrange(x, y) == t.subrange(pre.len() + x, pre.len() + y),
{
    assert(b.subrange(x, y) =~= t.subrange(pre.len() + x, pre.len() + y));
}

/// The newlines counted by a deletion inside piece `sp` are those that
/// `counted_breaks` gives.
#[verifier::spinoff_prover]
proof fn lemma_counted_within(
    ps0: Seq<Piece>,
    sp: int,
    so: int,
    eo: int,
    position: int,
    e: int,
    orig: Seq<u8>,
    add: Seq<u8>,
)
    requires
        0 <= sp < ps0.len(),
        0 <= so <= eo <= ps0[sp].length,
        forall|k: int| 0 <= k < ps0.len() ==> piece_wf(#[trigger] ps0[k], orig, add),
        text_of(ps0.take(sp), orig, add).len() + so == position,
        text_of(ps0.take(sp), orig, add).len() + eo == e,
    ensures
        within_counted(ps0[sp], so as usize, eo as usize) == (if (so == 0) != (eo
            == ps0[sp].length) {
            count_newlines(text_of(ps0, orig, add).subrange(position, e)) as int
        } else {
            0
        }),
{
    let t0 = text_of(ps0, orig, add);
    let bs = piece_bytes(ps0[sp], orig, add);
    let pre = text_of(ps0.take(sp), orig, add);
    assert(piece_wf(ps0[sp], orig, add));
    lemma_text_of_split(ps0, sp, orig, add);
    lemma_halves_counts(ps0[sp], so as usize, orig, add);
    lemma_halves_counts(ps0[sp], eo as usize, orig, add);
    lemma_piece_slice(t0, pre, bs, text_of(ps0.skip(sp + 1), orig, add), so, eo);
    if so == 0 {
        assert(bs.subrange(0, eo) == bs.subrange(so, eo));
    }
    if eo == ps0[sp].length {
        assert(bs.subrange(so, ps0[sp].length as int) == bs.subrange(so, eo));
    }
}

/// The newlines counted by a deletion from piece `sp` to piece `ep` are
/// those that `counted_breaks` gives.
#[verifier::spinoff_prover]
proof fn lemma_counted_across(
    ps0: Seq<Piece>,
    sp: int,
    so: int,
    ep: int,
    eo: int,
    position: int,
    e: int,
    orig: Seq<u8>,
    add: Seq<u8>,
)
    requires
        0 <= sp < ep < ps0.len(),
        0 <= so <= ps0[sp].length,
        0 <= eo <= ps0[ep].length,
        forall|k: int| 0 <= k < ps0.len() ==> piece_wf(#[trigger] ps0[k], orig, add),
        text_of(ps0.take(sp), orig, add).len() + so == position,
        text_of(ps0.take(ep), orig, add).len() + eo == e,
    ensures
        ({
            let t0 = text_of(ps0, orig, add);
            let first_end = position - so + ps0[sp].length;
            let last_start = e - eo;
            across_counted(ps0, sp, so as usize, ep, eo as usize) == (if so > 0 {
                count_newlines(t0.subrange(position, first_end)) as int
            } else {
                0
            }) + count_newlines(t0.subrange(first_end, last_start)) + (if eo < ps0[ep].length {
                count_newlines(t0.subrange(last_start, e)) as int
            } else {
                0
            })
        }),
{
    let t0 = text_of(ps0, orig, add);
    let bs = piece_bytes(ps0[sp], orig, add);
    let be = piece_bytes(ps0[ep], orig, add);
    let pre = text_of(ps0.take(sp), orig, add);
    let mid = text_of(ps0.subrange(sp + 1, ep), orig, add);
    let post = text_of(ps0.skip(ep + 1), orig, add);
    assert(piece_wf(ps0[sp], orig, add));
    assert(piece_wf(ps0[ep], orig, add));
    lemma_across_parts(ps0, sp, ep, orig, add);
    lemma_halves_counts(ps0[sp], so as usize, orig, add);
    lemma_halves_counts(ps0[ep], eo as usize, orig, add);
    assert forall|k: int| 0 <= k < ps0.subrange(sp + 1, ep).len() implies piece_wf(
        #[trigger] ps0.subrange(sp + 1, ep)[k],
        orig,
        add,
    ) by {
        assert(ps0.subrange(sp + 1, ep)[k] == ps0[sp + 1 + k]);
    }
    lemma_breaks_in(ps0.subrange(sp + 1, ep), orig, add);
    assert(t0 =~= pre + bs + (mid + be + post));
    lemma_piece_slice(t0, pre, bs, mid + be + post, so, bs.len() as int);
    assert(t0 =~= (pre + bs) + mid + (be + post));
    lemma_piece_slice(t0, pre + bs, mid, be + post, 0, mid.len() as int);
    assert(mid.subrange(0, mid.len() as int) =~= mid);
    lemma_piece_slice(t0, pre + bs + mid, be, post, 0, eo);
}

/// Putting a piece in puts its length in.
proof fn lemma_lens_insert(ps: Seq<Piece>, i: int, np: Piece)
    requires
        0 <= i <= ps.len(),
    ensures
        piece_lens(ps.insert(i, np)) == piece_lens(ps).insert(i, np.length as int),
        i == ps.len() ==> piece_lens(ps.insert(i, np)) == piece_lens(ps).push(np.length as int),
{
    assert(piece_lens(ps.insert(i, np)) =~= piece_lens(ps).insert(i, np.length as int));
    assert(piece_lens(ps).insert(ps.len() as int, np.length as int) =~= piece_lens(ps).push(
        np.length as int,
    ));
}

/// Replacing piece `i` by `mid` replaces its length by those of `mid`.
proof fn lemma_lens_replace(ps: Seq<Piece>, i: int, mid: Seq<Piece>)
    requires
        0 <= i < ps.len(),
    ensures
        piece_lens(ps.take(i) + mid + ps.skip(i + 1)) == piece_lens(ps).take(i) + piece_lens(mid)
            + piece_lens(ps).skip(i + 1),
{
    assert(piece_lens(ps.take(i) + mid + ps.skip(i + 1)) =~= piece_lens(ps).take(i) + piece_lens(
        mid,
    ) + piece_lens(ps).skip(i + 1));
}

/// Replacing pieces `sp ..= ep` by `mid` replaces their lengths by those of
/// `mid`.
proof fn lemma_lens_replace_range(ps: Seq<Piece>, sp: int, ep: int, mid: Seq<Piece>)
    requires
        0 <= sp <= ep < ps.len(),
    ensures
        piece_lens(ps.take(sp) + mid + ps.skip(ep + 1)) == piece_lens(ps).take(sp) + piece_lens(mid)
            + piece_lens(ps).skip(ep + 1),
{
    assert(piece_lens(ps.take(sp) + mid + ps.skip(ep + 1)) =~= piece_lens(ps).take(sp) + piece_lens(
        mid,
    ) + piece_lens(ps).skip(ep + 1));
}

impl PieceTable {
    /// A deletion takes no more off the line count than the newlines of the
    /// bytes it removes.
    #[verifier::spinoff_prover]
    pub proof fn lemma_delete_breaks_bound(&self, position: int, length: int)
        requires
            self.wf(),
            0 <= position,
            0 <= length,
        ensures
            self.delete_breaks(position, length) <= count_newlines(
                self.text().subrange(
                    clamp(position, self.text().len() as int),
                    clamp(position + length, self.text().len() as int),
                ),
            ),
    {
        let t0 = self.text();
        let ps0 = self.pieces@;
        let orig = self.original_buffer@;
        let add = self.add_buffer@;
        if length == 0 || position >= t0.len() {
            return;
        }
        let e = clamp(position + length, t0.len() as int);
        assert(ps0.len() > 0) by {
            if ps0.len() == 0 {
                assert(t0 =~= Seq::<u8>::empty());
            }
        }
        lemma_locate(ps0, position, orig, add);
        lemma_locate(ps0, e, orig, add);
        lemma_locate_inside(ps0, position, orig, add);
        lemma_locate_inside(ps0, e, orig, add);
        lemma_locate_mono(ps0, position, e);
        let sp = locate(ps0, position).0;
        let so = locate(ps0, position).1;
        let ep = locate(ps0, e).0;
        let eo = locate(ps0, e).1;
        if sp == ep {
            let b = piece_bytes(ps0[sp], orig, add);
            let t1 = text_of(ps0.take(sp), orig, add) + b.subrange(0, so) + b.subrange(
                eo,
                b.len() as int,
            ) + text_of(ps0.skip(sp + 1), orig, add);
            lemma_delete_within_result(ps0, t1, sp, so, eo, position, e, orig, add);
            assert(self.delete_breaks(position, length) == within_counted(
                ps0[sp],
                so as usize,
                eo as usize,
            ));
        } else {
            let bs = piece_bytes(ps0[sp], orig, add);
            let be = piece_bytes(ps0[ep], orig, add);
            let t1 = text_of(ps0.take(sp), orig, add) + bs.subrange(0, so) + be.subrange(
                eo,
                be.len() as int,
            ) + text_of(ps0.skip(ep + 1), orig, add);
            lemma_delete_across_result(ps0, t1, sp, so, ep, eo, position, e, orig, add);
            assert(self.delete_breaks(position, length) == across_counted(
                ps0,
                sp,
                so as usize,
                ep,
                eo as usize,
            ));
        }
        let r = t0.subrange(position, e);
        assert(t0 =~= t0.take(position) + r + t0.skip(e));
        lemma_count_newlines_concat(t0.take(position), r);
        lemma_count_newlines_concat(t0.take(position) + r, t0.skip(e));
        lemma_count_newlines_concat(t0.take(position), t0.skip(e));
    }

    /// The line count that a deletion takes off, in terms of the text and
    /// the lengths of its pieces: `counted_breaks`.
    #[verifier::spinoff_prover]
    pub proof fn lemma_delete_breaks_exact(&self, position: int, length: int)
        requires
            self.wf(),
            0 <= position,
            0 <= length,
        ensures
            self.delete_breaks(position, length) == counted_breaks(
                self.text(),
                self.piece_lengths(),
                position,
                length,
            ),
    {
        let t0 = self.text();
        let ps0 = self.pieces@;
        let orig = self.original_buffer@;
        let add = self.add_buffer@;
        let lens = piece_lens(ps0);
        if length == 0 || position >= t0.len() {
            return;
        }
        let e = clamp(position + length, t0.len() as int);
        assert(ps0.len() > 0) by {
            if ps0.len() == 0 {
                assert(t0 =~= Seq::<u8>::empty());
            }
        }
        lemma_locate(ps0, position, orig, add);
        lemma_locate(ps0, e, orig, add);
        lemma_locate_inside(ps0, position, orig, add);
        lemma_locate_inside(ps0, e, orig, add);
        lemma_locate_mono(ps0, position, e);
        lemma_locate_len(ps0, position);
        lemma_locate_len(ps0, e);
        let sp = locate(ps0, position).0;
        let so = locate(ps0, position).1;
        let ep = locate(ps0, e).0;
        let eo = locate(ps0, e).1;
        assert(lens[sp] == ps0[sp].length);
        assert(lens[ep] == ps0[ep].length);
        assert(piece_wf(ps0[sp], orig, add));
        assert(piece_wf(ps0[ep], orig, add));
        if sp == ep {
            lemma_counted_within(ps0, sp, so, eo, position, e, orig, add);
        } else {
            lemma_counted_across(ps0, sp, so, ep, eo, position, e, orig, add);
        }
    }

    /// Deleting nothing takes nothing off the line count.
    #[verifier::spinoff_prover]
    pub proof fn lemma_delete_breaks_nothing(&self, position: int, length: int)
        requires
            length == 0 || position >= self.text().len(),
        ensures
            self.delete_breaks(position, length) == 0,
    {
    }

    /// The kept line count is never below one more than the text's newlines.
    #[verifier::spinoff_prover]
    pub proof fn lemma_line_count_bound(&self)
        requires
            self.wf(),
        ensures
            self.spec_line_count() >= 1 + count_newlines(self.text()),
            self.spec_line_count() <= usize::MAX,
    {
    }
}

} // verus!
