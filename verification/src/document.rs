//! The first document model: the whole text in one UTF-8 byte buffer,
//! edited in place, and read back as paragraphs of styled runs.

use vstd::prelude::*;
use vstd::utf8::*;
use vstd::string::StringSliceAdditionalSpecFns;
use crate::text_bytes::{
    clamp, insert_at, is_boundary, newline_offsets, remove_range, string_from_utf8,
    lemma_slice_valid, lemma_str_bytes_valid, lemma_newline_offsets_facts, NEWLINE,
};
use crate::types::TextStyle;

verus! {

/// A run of text with one style, covering `start .. end` of its paragraph.
#[derive(Debug, Clone)]
pub struct TextRun {
    pub text: String,
    pub style: TextStyle,
    pub start: usize,
    pub end: usize,
}

impl TextRun {
    /// A run of `text` starting at `start` and ending its length in bytes later.
    pub fn new(text: String, style: TextStyle, start: usize) -> (r: TextRun)
        requires
            start + encode_utf8(text@).len() <= usize::MAX,
        ensures
            r.text == text,
            r.style == style,
            r.start == start,
            r.end == start + encode_utf8(text@).len(),
    {
        let end = start + text.as_str().len();
        TextRun { text, style, start, end }
    }
}

/// The text of a sequence of runs, one after the other.
pub open spec fn runs_text(runs: Seq<TextRun>) -> Seq<char>
    decreases runs.len(),
{
    if runs.len() == 0 {
        Seq::empty()
    } else {
        runs_text(runs.drop_last()) + runs.last().text@
    }
}

/// A paragraph: runs laid end to end from `start_offset` to `end_offset`.
#[derive(Debug, Clone)]
pub struct Paragraph {
    pub runs: Vec<TextRun>,
    pub start_offset: usize,
    pub end_offset: usize,
}

impl Paragraph {
    /// An empty paragraph at offset 0.
    pub fn new() -> (p: Paragraph)
        ensures
            p.runs@ == Seq::<TextRun>::empty(),
            p.start_offset == 0,
            p.end_offset == 0,
    {
        Paragraph { runs: Vec::new(), start_offset: 0, end_offset: 0 }
    }

    /// Appends `run`, moved to start where the paragraph ends; the paragraph
    /// then ends where the run does.
    pub fn add_run(&mut self, run: TextRun)
        requires
            old(self).end_offset + encode_utf8(run.text@).len() <= usize::MAX,
        ensures
            final(self).runs@.len() == old(self).runs@.len() + 1,
            final(self).runs@.drop_last() == old(self).runs@,
            final(self).runs@.last().text == run.text,
            final(self).runs@.last().style == run.style,
            final(self).runs@.last().start == old(self).end_offset,
            final(self).runs@.last().end == old(self).end_offset + encode_utf8(run.text@).len(),
            final(self).start_offset == old(self).start_offset,
            final(self).end_offset == old(self).end_offset + encode_utf8(run.text@).len(),
    {
        let mut run = run;
        run.start = self.end_offset;
        run.end = run.start + run.text.as_str().len();
        self.end_offset = run.end;
        self.runs.push(run);
        assert(self.runs@.drop_last() =~= old(self).runs@);
    }

    /// The text of the runs, one after the other.
    pub fn get_text(&self) -> (s: String)
        ensures
            s@ == runs_text(self.runs@),
    {
        let mut result = String::new();
        let mut i: usize = 0;
        while i < self.runs.len()
            invariant
                i <= self.runs@.len(),
                result@ == runs_text(self.runs@.take(i as int)),
            decreases self.runs@.len() - i,
        {
            assert(self.runs@.take(i + 1).drop_last() =~= self.runs@.take(i as int));
            result.append(self.runs[i].text.as_str());
            i = i + 1;
        }
        assert(self.runs@.take(i as int) =~= self.runs@);
        result
    }
}

/// The byte value of `'\r'`.
pub const CARRIAGE_RETURN: u8 = 13u8;

/// Where line `k` of `t`, as `str::lines` splits it, starts: 0, or just
/// after the `k`th newline.
pub open spec fn segment_start(t: Seq<u8>, k: int) -> int {
    if k == 0 {
        0
    } else {
        newline_offsets(t)[k - 1] + 1
    }
}

/// How many lines `str::lines` gives for `t`: one per newline, and one
/// more when bytes follow the last newline.
pub open spec fn lines_count(t: Seq<u8>) -> nat {
    let nl = newline_offsets(t);
    if segment_start(t, nl.len() as int) < t.len() {
        nl.len() + 1
    } else {
        nl.len()
    }
}

/// Line `k` of `t` as `str::lines` gives it: the bytes up to the next
/// newline without it and without a carriage return just before it, or the
/// bytes after the last newline.
pub open spec fn lines_item(t: Seq<u8>, k: int) -> Seq<u8> {
    let nl = newline_offsets(t);
    let s = segment_start(t, k);
    if k < nl.len() {
        let e = nl[k];
        if e > s && t[e - 1] == CARRIAGE_RETURN {
            t.subrange(s, e - 1)
        } else {
            t.subrange(s, e)
        }
    } else {
        t.subrange(s, t.len() as int)
    }
}

/// The paragraph that `DocumentModel::paragraphs` makes of line `item`.
pub open spec fn paragraph_of(p: Paragraph, item: Seq<u8>) -> bool {
    &&& p.start_offset == 0
    &&& item.len() == 0 ==> p.runs@.len() == 0 && p.end_offset == 0
    &&& item.len() > 0 ==> {
        &&& p.runs@.len() == 1
        &&& encode_utf8(p.runs@[0].text@) == item
        &&& p.runs@[0].style == TextStyle {}
        &&& p.runs@[0].start == 0
        &&& p.runs@[0].end == item.len()
        &&& p.end_offset == item.len()
    }
}

/// The whole text in one buffer of valid UTF-8.
pub struct DocumentModel {
    content: Vec<u8>,
}

impl DocumentModel {
    /// The text's bytes.
    pub closed spec fn text(&self) -> Seq<u8> {
        self.content@
    }

    /// The buffer holds valid UTF-8.
    pub closed spec fn wf(&self) -> bool {
        valid_utf8(self.content@)
    }

    /// A well-formed document holds valid UTF-8.
    pub proof fn lemma_wf_valid(&self)
        requires
            self.wf(),
        ensures
            valid_utf8(self.text()),
    {
    }

    /// An empty document.
    pub fn new() -> (d: DocumentModel)
        ensures
            d.wf(),
            d.text() == Seq::<u8>::empty(),
    {
        let d = DocumentModel { content: Vec::new() };
        assert(valid_utf8(Seq::<u8>::empty()));
        d
    }

    /// Inserts `text` at `position`, or at the end when past it. The
    /// clamped position must be a character boundary unless `text` is empty.
    pub fn insert_text(&mut self, position: usize, text: &str)
        requires
            old(self).wf(),
            text.spec_bytes().len() > 0 ==> is_boundary(
                old(self).text(),
                clamp(position as int, old(self).text().len() as int),
            ),
        ensures
            final(self).wf(),
            final(self).text() == insert_at(old(self).text(), position as int, text.spec_bytes()),
    {
        let ghost t0 = self.content@;
        let tb = text.as_bytes();
        if tb.len() == 0 {
            proof {
                let p = clamp(position as int, t0.len() as int);
                assert(t0.take(p) + tb@ + t0.skip(p) =~= t0);
            }
            return;
        }
        let len = self.content.len();
        let pos = if position < len {
            position
        } else {
            len
        };
        let mut out: Vec<u8> = Vec::new();
        let mut i: usize = 0;
        while i < pos
            invariant
                i <= pos <= self.content@.len(),
                out@ == self.content@.take(i as int),
            decreases pos - i,
        {
            out.push(self.content[i]);
            i = i + 1;
            assert(out@ =~= self.content@.take(i as int));
        }
        let mut j: usize = 0;
        while j < tb.len()
            invariant
                j <= tb@.len(),
                out@ == self.content@.take(pos as int) + tb@.take(j as int),
            decreases tb@.len() - j,
        {
            out.push(tb[j]);
            j = j + 1;
            assert(out@ =~= self.content@.take(pos as int) + tb@.take(j as int));
        }
        let mut k: usize = pos;
        while k < len
            invariant
                pos <= k <= len,
                len == self.content@.len(),
                out@ == self.content@.take(pos as int) + tb@ + self.content@.subrange(pos as int, k as int),
            decreases len - k,
        {
            out.push(self.content[k]);
            k = k + 1;
            assert(out@ =~= self.content@.take(pos as int) + tb@ + self.content@.subrange(pos as int, k as int));
        }
        proof {
            assert(tb@.take(tb@.len() as int) =~= tb@);
            assert(self.content@.subrange(pos as int, len as int) =~= self.content@.skip(pos as int));
            lemma_str_bytes_valid(text);
            lemma_slice_valid(t0, 0, pos as int);
            lemma_slice_valid(t0, pos as int, len as int);
            assert(t0.take(pos as int) =~= t0.subrange(0, pos as int));
            valid_utf8_concat(t0.take(pos as int), tb@);
            valid_utf8_concat(t0.take(pos as int) + tb@, t0.skip(pos as int));
        }
        self.content = out;
    }

    /// Deletes `length` bytes from `start`, stopping at the end of the text;
    /// nothing happens when `length` is 0 or `start` is at or past the end.
    /// Both ends of the deleted range must be character boundaries.
    pub fn delete_text(&mut self, start: usize, length: usize)
        requires
            old(self).wf(),
            length == 0 || start >= old(self).text().len() || (start + length <= usize::MAX
                && is_boundary(old(self).text(), start as int) && is_boundary(
                old(self).text(),
                clamp(start + length, old(self).text().len() as int),
            )),
        ensures
            final(self).wf(),
            final(self).text() == remove_range(old(self).text(), start as int, length as int),
    {
        let ghost t0 = self.content@;
        let len = self.content.len();
        if length == 0 || start >= len {
            return;
        }
        let end = if start + length < len {
            start + length
        } else {
            len
        };
        let mut out: Vec<u8> = Vec::new();
        let mut i: usize = 0;
        while i < start
            invariant
                i <= start <= self.content@.len(),
                out@ == self.content@.take(i as int),
            decreases start - i,
        {
            out.push(self.content[i]);
            i = i + 1;
            assert(out@ =~= self.content@.take(i as int));
        }
        let mut k: usize = end;
        while k < len
            invariant
                end <= k <= len,
                len == self.content@.len(),
                out@ == self.content@.take(start as int) + self.content@.subrange(end as int, k as int),
            decreases len - k,
        {
            out.push(self.content[k]);
            k = k + 1;
            assert(out@ =~= self.content@.take(start as int) + self.content@.subrange(end as int, k as int));
        }
        proof {
            assert(self.content@.subrange(end as int, len as int) =~= self.content@.skip(end as int));
            lemma_slice_valid(t0, 0, start as int);
            lemma_slice_valid(t0, end as int, len as int);
            assert(t0.take(start as int) =~= t0.subrange(0, start as int));
            valid_utf8_concat(t0.take(start as int), t0.skip(end as int));
        }
        self.content = out;
    }

    /// The text as a string.
    pub fn get_text(&self) -> (s: String)
        requires
            self.wf(),
        ensures
            encode_utf8(s@) == self.text(),
    {
        let mut copy: Vec<u8> = Vec::new();
        let mut i: usize = 0;
        while i < self.content.len()
            invariant
                i <= self.content@.len(),
                copy@ == self.content@.take(i as int),
            decreases self.content@.len() - i,
        {
            copy.push(self.content[i]);
            i = i + 1;
            assert(copy@ =~= self.content@.take(i as int));
        }
        proof {
            assert(copy@ =~= self.content@);
            decode_utf8_encode_utf8(copy@);
        }
        string_from_utf8(copy)
    }

    /// The text's length in bytes.
    pub fn get_text_length(&self) -> (n: usize)
        ensures
            n == self.text().len(),
    {
        self.content.len()
    }

    /// The number of lines that `str::lines` gives, but at least 1.
    pub fn get_paragraph_count(&self) -> (n: usize)
        ensures
            n == if lines_count(self.text()) == 0 {
                1
            } else {
                lines_count(self.text())
            },
    {
        let ghost t = self.content@;
        let len = self.content.len();
        let mut count: usize = 0;
        let mut segment: usize = 0;
        let mut i: usize = 0;
        proof {
            assert(t.take(0) =~= Seq::<u8>::empty());
            assert(newline_offsets(Seq::<u8>::empty()) =~= Seq::<int>::empty());
            lemma_newline_offsets_facts(t);
        }
        while i < len
            invariant
                len == t.len(),
                t == self.content@,
                i <= len,
                count == newline_offsets(t.take(i as int)).len(),
                count <= i,
                count <= segment,
                segment <= i,
                segment == segment_start(t, count as int),
            decreases len - i,
        {
            proof {
                crate::text_bytes::lemma_newline_offsets_step(t, i as int);
                crate::text_bytes::lemma_newline_offsets_prefix(t, i + 1);
                crate::text_bytes::lemma_newline_offsets_prefix(t, i as int);
            }
            if self.content[i] == NEWLINE {
                count = count + 1;
                segment = i + 1;
                proof {
                    assert(newline_offsets(t.take(i + 1))[count - 1] == i);
                }
            }
            i = i + 1;
        }
        proof {
            assert(t.take(len as int) =~= t);
        }
        let lines = if segment < len {
            count + 1
        } else {
            count
        };
        if lines < 1 {
            1
        } else {
            lines
        }
    }

    /// The paragraphs of the text: one per line that `str::lines` gives,
    /// holding the line as one run of the default style, or no run when the
    /// line is empty. The run of line `k` is first placed at
    /// `k * (length + 1)` and then moved to the paragraph's start; that
    /// offset and the run's end there must fit in a `usize`.
    pub fn paragraphs(&self) -> (ps: Vec<Paragraph>)
        requires
            self.wf(),
            forall|k: int|
                0 <= k < lines_count(self.text()) && #[trigger] lines_item(self.text(), k).len() > 0
                    ==> lines_item(self.text(), k).len() + 1 <= usize::MAX && k * (lines_item(
                    self.text(),
                    k,
                ).len() + 1) + lines_item(self.text(), k).len() <= usize::MAX,
        ensures
            ps@.len() == lines_count(self.text()),
            forall|k: int|
                0 <= k < ps@.len() ==> paragraph_of(#[trigger] ps@[k], lines_item(self.text(), k)),
    {
        let ghost t = self.content@;
        let len = self.content.len();
        let mut result: Vec<Paragraph> = Vec::new();
        let mut count: usize = 0;
        let mut segment: usize = 0;
        let mut i: usize = 0;
        proof {
            assert(t.take(0) =~= Seq::<u8>::empty());
            assert(newline_offsets(Seq::<u8>::empty()) =~= Seq::<int>::empty());
            lemma_newline_offsets_facts(t);
            assert(self.text() == t);
        }
        while i < len
            invariant
                self.wf(),
                len == t.len(),
                t == self.content@,
                i <= len,
                count == newline_offsets(t.take(i as int)).len(),
                count <= segment <= i,
                segment == segment_start(t, count as int),
                result@.len() == count,
                forall|k: int|
                    0 <= k < lines_count(t) && #[trigger] lines_item(t, k).len() > 0 ==> lines_item(
                        t,
                        k,
                    ).len() + 1 <= usize::MAX && k * (lines_item(t, k).len() + 1) + lines_item(
                        t,
                        k,
                    ).len() <= usize::MAX,
                forall|k: int| 0 <= k < count ==> paragraph_of(#[trigger] result@[k], lines_item(t, k)),
            decreases len - i,
        {
            proof {
                crate::text_bytes::lemma_newline_offsets_step(t, i as int);
                crate::text_bytes::lemma_newline_offsets_prefix(t, i + 1);
                crate::text_bytes::lemma_newline_offsets_prefix(t, i as int);
                lemma_newline_offsets_facts(t);
            }
            if self.content[i] == NEWLINE {
                let e = if i > segment && self.content[i - 1] == CARRIAGE_RETURN {
                    i - 1
                } else {
                    i
                };
                proof {
                    assert(newline_offsets(t.take(i + 1))[count as int] == i);
                    assert(newline_offsets(t)[count as int] == i);
                    assert(lines_item(t, count as int) == t.subrange(segment as int, e as int));
                    crate::text_bytes::lemma_newline_boundaries(t, i as int);
                    if count > 0 {
                        assert(newline_offsets(t)[count - 1] < i);
                        crate::text_bytes::lemma_newline_boundaries(t, newline_offsets(t)[count - 1]);
                    }
                    assert(count < lines_count(t)) by {
                        assert(newline_offsets(t).len() > count);
                    }
                }
                let p = Self::make_paragraph(&self.content, segment, e, count);
                result.push(p);
                count = count + 1;
                segment = i + 1;
            }
            i = i + 1;
        }
        proof {
            assert(t.take(len as int) =~= t);
        }
        if segment < len {
            proof {
                lemma_newline_offsets_facts(t);
                assert(lines_item(t, count as int) == t.subrange(segment as int, len as int));
                if count > 0 {
                    crate::text_bytes::lemma_newline_boundaries(t, newline_offsets(t)[count - 1]);
                }
            }
            let p = Self::make_paragraph(&self.content, segment, len, count);
            result.push(p);
        }
        result
    }

    /// The paragraph of line `k`, the bytes `s .. e` of `content`.
    fn make_paragraph(content: &Vec<u8>, s: usize, e: usize, k: usize) -> (p: Paragraph)
        requires
            valid_utf8(content@),
            s <= e <= content@.len(),
            is_boundary(content@, s as int),
            is_boundary(content@, e as int),
            e > s ==> e - s + 1 <= usize::MAX && k * (e - s + 1) + (e - s) <= usize::MAX,
        ensures
            paragraph_of(p, content@.subrange(s as int, e as int)),
    {
        let mut p = Paragraph::new();
        if e > s {
            let mut bytes: Vec<u8> = Vec::new();
            let mut i = s;
            while i < e
                invariant
                    s <= i <= e,
                    e <= content@.len(),
                    bytes@ == content@.subrange(s as int, i as int),
                decreases e - i,
            {
                bytes.push(content[i]);
                i = i + 1;
                assert(bytes@ =~= content@.subrange(s as int, i as int));
            }
            proof {
                lemma_slice_valid(content@, s as int, e as int);
                decode_utf8_encode_utf8(bytes@);
                assert(k * (e - s + 1) <= usize::MAX);
            }
            let text = string_from_utf8(bytes);
            let run = TextRun::new(text, TextStyle::default(), k * (e - s + 1));
            p.add_run(run);
            proof {
                assert(p.runs@.drop_last() == Seq::<TextRun>::empty());
            }
        }
        p
    }

    /// The style at `position`: every position has the default style.
    fn get_style_at_position(&self, position: usize) -> (s: TextStyle)
        ensures
            s == (TextStyle {}),
    {
        TextStyle::default()
    }
}

} // verus!
