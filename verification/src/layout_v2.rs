//! Where the visual lines of a text go: the byte range of each, the page
//! it falls on and its row there. How a source line is wrapped into visual
//! lines depends on measured widths and is decided elsewhere; this module
//! takes the byte lengths of the visual lines of each source line.

use vstd::prelude::*;

verus! {



/// A visual line: its byte range in the text and its row on its page.
#[derive(Debug, Clone, Copy, PartialEq, Eq)]
pub struct LineSpan {
    pub start_position: usize,
    pub end_position: usize,
    pub row: usize,
}

/// The sum of `ls`.
pub open spec fn width_sum(ls: Seq<usize>) -> int
    decreases ls.len(),
{
    if ls.len() == 0 {
        0
    } else {
        width_sum(ls.drop_last()) + ls.last()
    }
}

/// The bytes that source lines `v` take, each with the newline after it.
pub open spec fn lines_total(v: Seq<Seq<usize>>) -> int
    decreases v.len(),
{
    if v.len() == 0 {
        0
    } else {
        lines_total(v.drop_last()) + width_sum(v.last()) + 1
    }
}

/// The byte ranges of visual lines of lengths `ls` laid end to end from
/// `pos`.
pub open spec fn runs(ls: Seq<usize>, pos: int) -> Seq<(int, int)>
    decreases ls.len(),
{
    if ls.len() == 0 {
        Seq::empty()
    } else {
        runs(ls.drop_last(), pos).push((pos + width_sum(ls.drop_last()), pos + width_sum(ls)))
    }
}

/// The byte ranges of all visual lines: each source line starts after the
/// previous ones and their newlines.
pub open spec fn spans(v: Seq<Seq<usize>>) -> Seq<(int, int)>
    decreases v.len(),
{
    if v.len() == 0 {
        Seq::empty()
    } else {
        spans(v.drop_last()) + runs(v.last(), lines_total(v.drop_last()))
    }
}

/// The contents of a sequence of vectors.
pub open spec fn contents(p: Seq<Vec<LineSpan>>) -> Seq<Seq<LineSpan>> {
    p.map_values(|page: Vec<LineSpan>| page@)
}

/// `f` holds the ranges `s`, in order.
pub open spec fn same_ranges(f: Seq<LineSpan>, s: Seq<(int, int)>) -> bool {
    &&& f.len() == s.len()
    &&& forall|g: int|
        0 <= g < s.len() ==> (#[trigger] f[g]).start_position == s[g].0 && f[g].end_position
            == s[g].1
}

/// `pages` lays out the ranges `s` with `per_page` rows to a page: read in
/// order they give `s`; each line's row is its place on its page; with
/// rows to a page, every page but the last is full and the last is not
/// empty; with none, the first page is empty and each other holds one line.
/// Without any line there is one page with one empty line at 0.
pub open spec fn paginated(pages: Seq<Seq<LineSpan>>, s: Seq<(int, int)>, per_page: int) -> bool {
    if s.len() == 0 {
        pages == seq![seq![LineSpan { start_position: 0, end_position: 0, row: 0 }]]
    } else {
        &&& same_ranges(pages.flatten(), s)
        &&& forall|p: int, i: int|
            0 <= p < pages.len() && 0 <= i < pages[p].len() ==> (#[trigger] pages[p][i]).row == i
        &&& pages.len() >= 1
        &&& per_page > 0 ==> {
            &&& forall|p: int| 0 <= p < pages.len() - 1 ==> (#[trigger] pages[p]).len() == per_page
            &&& 1 <= pages.last().len() <= per_page
        }
        &&& per_page == 0 ==> {
            &&& pages[0].len() == 0
            &&& forall|p: int| 1 <= p < pages.len() ==> (#[trigger] pages[p]).len() == 1
        }
    }
}

/// A prefix of lengths sums to no more than the whole.
pub proof fn lemma_width_sum_prefix(ls: Seq<usize>, k: int)
    requires
        0 <= k <= ls.len(),
    ensures
        0 <= width_sum(ls.take(k)) <= width_sum(ls),
    decreases ls.len(),
{
    if ls.len() > 0 {
        if k == ls.len() {
            assert(ls.take(k) =~= ls);
            lemma_width_sum_prefix(ls.drop_last(), k - 1);
            assert(ls.drop_last().take(k - 1) =~= ls.drop_last().take(k - 1));
        } else {
            assert(ls.drop_last().take(k) =~= ls.take(k));
            lemma_width_sum_prefix(ls.drop_last(), k);
        }
    }
}

/// A prefix of source lines takes no more bytes than all of them.
pub proof fn lemma_lines_total_prefix(v: Seq<Seq<usize>>, j: int)
    requires
        0 <= j <= v.len(),
    ensures
        0 <= lines_total(v.take(j)) <= lines_total(v),
    decreases v.len(),
{
    if v.len() > 0 {
        lemma_width_sum_prefix(v.last(), v.last().len() as int);
        if j == v.len() {
            assert(v.take(j) =~= v);
            lemma_lines_total_prefix(v.drop_last(), j - 1);
        } else {
            assert(v.drop_last().take(j) =~= v.take(j));
            lemma_lines_total_prefix(v.drop_last(), j);
        }
    }
}

/// Lays out visual lines: `source_lines[j]` holds the byte lengths of the
/// visual lines that source line `j` wraps into, and a newline follows
/// each source line. Returns the pages, each the lines placed on it, as
/// `paginated` says.
pub fn place_lines(source_lines: &Vec<Vec<usize>>, lines_per_page: usize) -> (pages: Vec<Vec<LineSpan>>)
    requires
        lines_total(source_lines@.map_values(|l: Vec<usize>| l@)) <= usize::MAX,
    ensures
        paginated(
            contents(pages@),
            spans(source_lines@.map_values(|l: Vec<usize>| l@)),
            lines_per_page as int,
        ),
{
    let ghost v = source_lines@.map_values(|l: Vec<usize>| l@);
    let mut flat: Vec<(usize, usize)> = Vec::new();
    let mut position: usize = 0;
    let mut j: usize = 0;
    while j < source_lines.len()
        invariant
            v == source_lines@.map_values(|l: Vec<usize>| l@),
            lines_total(v) <= usize::MAX,
            j <= source_lines.len(),
            j < source_lines.len() ==> position == lines_total(v.take(j as int)),
            flat@.len() == spans(v.take(j as int)).len(),
            forall|g: int|
                0 <= g < flat@.len() ==> (#[trigger] flat@[g]).0 == spans(v.take(j as int))[g].0
                    && flat@[g].1 == spans(v.take(j as int))[g].1,
        decreases source_lines.len() - j,
    {
        let line = &source_lines[j];
        let ghost base = lines_total(v.take(j as int));
        let ghost before = spans(v.take(j as int));
        proof {
            assert(v.take(j + 1).drop_last() =~= v.take(j as int));
            assert(v.take(j + 1).last() == line@);
            lemma_lines_total_prefix(v, j + 1);
        }
        let mut k: usize = 0;
        while k < line.len()
            invariant
                v == source_lines@.map_values(|l: Vec<usize>| l@),
                j < source_lines.len(),
                line@ == v[j as int],
                base == lines_total(v.take(j as int)),
                before == spans(v.take(j as int)),
                base + width_sum(line@) + 1 <= lines_total(v),
                lines_total(v) <= usize::MAX,
                k <= line.len(),
                position == base + width_sum(line@.take(k as int)),
                flat@.len() == before.len() + runs(line@.take(k as int), base).len(),
                forall|g: int|
                    0 <= g < flat@.len() ==> (#[trigger] flat@[g]).0 == (before + runs(
                        line@.take(k as int),
                        base,
                    ))[g].0 && flat@[g].1 == (before + runs(line@.take(k as int), base))[g].1,
            decreases line.len() - k,
        {
            proof {
                assert(line@.take(k + 1).drop_last() =~= line@.take(k as int));
                lemma_width_sum_prefix(line@, k + 1);
            }
            let w = line[k];
            flat.push((position, position + w));
            position = position + w;
            k = k + 1;
        }
        proof {
            assert(line@.take(k as int) =~= line@);
            assert(spans(v.take(j + 1)) == before + runs(line@, base));
        }
        if j + 1 < source_lines.len() {
            proof {
                lemma_lines_total_prefix(v, j + 2);
                assert(v.take(j + 2).drop_last() =~= v.take(j + 1));
            }
            position = position + 1;
        }
        j = j + 1;
    }
    proof {
        assert(v.take(j as int) =~= v);
    }
    let ghost s = spans(v);
    let mut pages: Vec<Vec<LineSpan>> = Vec::new();
    let mut current: Vec<LineSpan> = Vec::new();
    let mut g: usize = 0;
    while g < flat.len()
        invariant
            s.len() == flat@.len(),
            forall|h: int| 0 <= h < flat@.len() ==> (#[trigger] flat@[h]).0 == s[h].0 && flat@[h].1 == s[h].1,
            g <= flat.len(),
            same_ranges(contents(pages@).flatten() + current@, s.take(g as int)),
            forall|p: int, i: int|
                0 <= p < pages@.len() && 0 <= i < pages@[p]@.len() ==> (#[trigger] pages@[p]@[i]).row == i,
            forall|i: int| 0 <= i < current@.len() ==> (#[trigger] current@[i]).row == i,
            g == 0 ==> pages@.len() == 0 && current@.len() == 0,
            g > 0 ==> current@.len() >= 1,
            lines_per_page > 0 ==> current@.len() <= lines_per_page && forall|p: int|
                0 <= p < pages@.len() ==> (#[trigger] pages@[p]@).len() == lines_per_page,
            lines_per_page == 0 && g > 0 ==> pages@.len() >= 1 && pages@[0]@.len() == 0
                && current@.len() == 1 && forall|p: int|
                1 <= p < pages@.len() ==> (#[trigger] pages@[p]@).len() == 1,
        decreases flat.len() - g,
    {
        let ghost old_pages = contents(pages@);
        let ghost old_acc = old_pages.flatten() + current@;
        if current.len() >= lines_per_page {
            let ghost cur_v = current@;
            pages.push(current);
            current = Vec::new();
            proof {
                assert(contents(pages@) =~= old_pages.push(cur_v));
                old_pages.lemma_flatten_push(cur_v);
                assert(contents(pages@).flatten() + current@ =~= old_acc);
            }
        }
        let row = current.len();
        let (start_position, end_position) = flat[g];
        let ghost mid_acc = contents(pages@).flatten() + current@;
        let span = LineSpan { start_position, end_position, row };
        current.push(span);
        proof {
            assert(contents(pages@).flatten() + current@ =~= mid_acc.push(span));
            assert(s.take(g + 1) =~= s.take(g as int).push(s[g as int]));
            let acc = contents(pages@).flatten() + current@;
            assert forall|h: int| 0 <= h < g + 1 implies (#[trigger] acc[h]).start_position
                == s.take(g + 1)[h].0 && acc[h].end_position == s.take(g + 1)[h].1 by {
                if h < g {
                    assert(acc[h] == old_acc[h]);
                }
            }
        }
        g = g + 1;
    }
    proof {
        assert(s.take(g as int) =~= s);
    }
    let ghost before_pages = contents(pages@);
    if current.len() > 0 {
        let ghost cur_v = current@;
        pages.push(current);
        proof {
            assert(contents(pages@) =~= before_pages.push(cur_v));
            before_pages.lemma_flatten_push(cur_v);
            let ps = contents(pages@);
            assert forall|p: int, i: int|
                0 <= p < ps.len() && 0 <= i < ps[p].len() implies (#[trigger] ps[p][i]).row == i by {
                if p < ps.len() - 1 {
                    assert(ps[p] == pages@[p]@);
                }
            }
            if lines_per_page > 0 {
                assert forall|p: int| 0 <= p < ps.len() - 1 implies (#[trigger] ps[p]).len()
                    == lines_per_page by {
                    assert(ps[p] == pages@[p]@);
                }
            } else {
                assert(ps[0] == pages@[0]@);
                assert forall|p: int| 1 <= p < ps.len() implies (#[trigger] ps[p]).len() == 1 by {
                    assert(ps[p] == pages@[p]@);
                }
            }
        }
    }
    if pages.len() == 0 {
        let mut only: Vec<LineSpan> = Vec::new();
        only.push(LineSpan { start_position: 0, end_position: 0, row: 0 });
        pages.push(only);
        proof {
            assert(contents(pages@) =~= seq![seq![LineSpan { start_position: 0, end_position: 0, row: 0 }]]);
        }
    }
    pages
}

/// The ranges of visual lines laid end to end are the running sums of
/// their lengths.
pub proof fn lemma_runs_at(ls: Seq<usize>, pos: int)
    ensures
        runs(ls, pos).len() == ls.len(),
        forall|k: int|
            0 <= k < ls.len() ==> (#[trigger] runs(ls, pos)[k]).0 == pos + width_sum(ls.take(k))
                && runs(ls, pos)[k].1 == pos + width_sum(ls.take(k + 1)),
    decreases ls.len(),
{
    if ls.len() > 0 {
        lemma_runs_at(ls.drop_last(), pos);
        assert forall|k: int| 0 <= k < ls.len() implies (#[trigger] runs(ls, pos)[k]).0 == pos
            + width_sum(ls.take(k)) && runs(ls, pos)[k].1 == pos + width_sum(ls.take(k + 1)) by {
            if k < ls.len() - 1 {
                assert(ls.drop_last().take(k) =~= ls.take(k));
                assert(ls.drop_last().take(k + 1) =~= ls.take(k + 1));
            } else {
                assert(ls.drop_last() =~= ls.take(k));
                assert(ls =~= ls.take(k + 1));
            }
        }
    }
}

/// Each visual line of a source line spans exactly its length, the visual
/// lines of one source line lie end to end, and the first visual line of a
/// source line starts one byte, its newline, after the last visual line of
/// the source line before it ends.
pub proof fn lemma_spans_step(v: Seq<Seq<usize>>, ls: Seq<usize>)
    ensures
        spans(v.push(ls)).len() == spans(v).len() + ls.len(),
        forall|k: int|
            0 <= k < ls.len() ==> (#[trigger] spans(v.push(ls))[spans(v).len() + k]).1 - spans(
                v.push(ls),
            )[spans(v).len() + k].0 == ls[k],
        forall|k: int|
            0 < k < ls.len() ==> (#[trigger] spans(v.push(ls))[spans(v).len() + k]).0 == spans(
                v.push(ls),
            )[spans(v).len() + k - 1].1,
        v.len() > 0 && v.last().len() > 0 && ls.len() > 0 ==> spans(v.push(ls))[spans(v).len()
            as int].0 == spans(v).last().1 + 1,
{
    let base = lines_total(v);
    assert(v.push(ls).drop_last() =~= v);
    assert(v.push(ls).last() == ls);
    lemma_runs_at(ls, base);
    let r = runs(ls, base);
    let a = spans(v);
    assert(spans(v.push(ls)) == a + r);
    assert forall|k: int| 0 <= k < ls.len() implies (#[trigger] spans(v.push(ls))[a.len() + k]).1
        - spans(v.push(ls))[a.len() + k].0 == ls[k] by {
        assert(spans(v.push(ls))[a.len() + k] == r[k]);
        assert(ls.take(k + 1).drop_last() =~= ls.take(k));
        assert(ls.take(k + 1).last() == ls[k]);
    }
    assert forall|k: int| 0 < k < ls.len() implies (#[trigger] spans(v.push(ls))[a.len() + k]).0
        == spans(v.push(ls))[a.len() + k - 1].1 by {
        assert(spans(v.push(ls))[a.len() + k] == r[k]);
        assert(spans(v.push(ls))[a.len() + k - 1] == r[k - 1]);
    }
    if v.len() > 0 && v.last().len() > 0 && ls.len() > 0 {
        let w = v.drop_last();
        let l = v.last();
        let bw = lines_total(w);
        lemma_runs_at(l, bw);
        let rl = runs(l, bw);
        assert(a == spans(w) + rl);
        assert(a.last() == rl[l.len() - 1]);
        assert(l.take(l.len() as int) =~= l);
        assert(ls.take(0) =~= Seq::<usize>::empty());
        assert(spans(v.push(ls))[a.len() as int] == r[0]);
    }
}

/// The visual lines of a text come in order and do not overlap: each
/// starts no later than it ends, ends no later than the next one starts,
/// and all end before the bytes of the source lines are used up.
pub proof fn lemma_spans_ordered(v: Seq<Seq<usize>>)
    ensures
        forall|g: int| 0 <= g < spans(v).len() ==> 0 <= (#[trigger] spans(v)[g]).0 <= spans(v)[g].1 < lines_total(v),
        forall|g: int, h: int|
            0 <= g < h < spans(v).len() ==> (#[trigger] spans(v)[g]).1 <= (#[trigger] spans(v)[h]).0,
    decreases v.len(),
{
    if v.len() > 0 {
        let w = v.drop_last();
        let ls = v.last();
        let base = lines_total(w);
        lemma_spans_ordered(w);
        lemma_runs_at(ls, base);
        lemma_lines_total_prefix(w, 0);
        assert(w.take(0) =~= Seq::<Seq<usize>>::empty());
        let a = spans(w);
        let r = runs(ls, base);
        assert(spans(v) == a + r);
        assert forall|k: int| 0 <= k < r.len() implies 0 <= base + width_sum(#[trigger] ls.take(k))
            <= base + width_sum(ls.take(k + 1)) <= base + width_sum(ls) by {
            lemma_width_sum_prefix(ls.take(k + 1), k);
            assert(ls.take(k + 1).take(k) =~= ls.take(k));
            lemma_width_sum_prefix(ls, k + 1);
        }
        assert forall|k: int, m: int| 0 <= k < m < r.len() implies width_sum(
            #[trigger] ls.take(k + 1),
        ) <= width_sum(#[trigger] ls.take(m)) by {
            lemma_width_sum_prefix(ls.take(m), k + 1);
            assert(ls.take(m).take(k + 1) =~= ls.take(k + 1));
        }
        lemma_width_sum_prefix(ls, 0);
        assert forall|g: int| 0 <= g < spans(v).len() implies 0 <= (#[trigger] spans(v)[g]).0
            <= spans(v)[g].1 < lines_total(v) by {
            if g >= a.len() {
                let k = g - a.len();
                assert(spans(v)[g] == r[k]);
                assert(0 <= base + width_sum(ls.take(k)));
            } else {
                assert(spans(v)[g] == a[g]);
            }
        }
        assert forall|g: int, h: int| 0 <= g < h < spans(v).len() implies (#[trigger] spans(
            v,
        )[g]).1 <= (#[trigger] spans(v)[h]).0 by {
            if h >= a.len() {
                let m = h - a.len();
                assert(spans(v)[h] == r[m]);
                assert(0 <= base + width_sum(ls.take(m)));
                if g >= a.len() {
                    let k = g - a.len();
                    assert(spans(v)[g] == r[k]);
                    assert(width_sum(ls.take(k + 1)) <= width_sum(ls.take(m)));
                } else {
                    assert(spans(v)[g] == a[g]);
                }
            } else {
                assert(spans(v)[g] == a[g]);
                assert(spans(v)[h] == a[h]);
            }
        }
    }
}

/// Line `l` covers byte `position`, either end included.
pub open spec fn covers(l: LineSpan, position: int) -> bool {
    l.start_position <= position <= l.end_position
}

/// Line `i` of page `p` is the first line, in page order, that covers
/// `position`.
pub open spec fn first_cover(pages: Seq<Seq<LineSpan>>, position: int, p: int, i: int) -> bool {
    &&& 0 <= p < pages.len()
    &&& 0 <= i < pages[p].len()
    &&& covers(pages[p][i], position)
    &&& forall|q: int, j: int|
        0 <= q <= p && 0 <= j < pages[q].len() && (q < p || j < i) ==> !covers(
            #[trigger] pages[q][j],
            position,
        )
}

/// No line covers `position`.
pub open spec fn uncovered(pages: Seq<Seq<LineSpan>>, position: int) -> bool {
    forall|q: int, j: int|
        0 <= q < pages.len() && 0 <= j < pages[q].len() ==> !covers(#[trigger] pages[q][j], position)
}

/// The number of lines on the pages before page `p`.
pub open spec fn lines_before(pages: Seq<Seq<LineSpan>>, p: int) -> int {
    pages.take(p).flatten().len() as int
}

/// Counting the lines of more pages gives no fewer.
pub proof fn lemma_lines_before_mono(pages: Seq<Seq<LineSpan>>, a: int, b: int)
    requires
        0 <= a <= b <= pages.len(),
    ensures
        lines_before(pages, a) <= lines_before(pages, b),
        b < pages.len() ==> lines_before(pages, b + 1) == lines_before(pages, b) + pages[b].len(),
        lines_before(pages, pages.len() as int) == pages.flatten().len(),
    decreases b - a,
{
    assert(pages.take(pages.len() as int) =~= pages);
    if b < pages.len() {
        assert(pages.take(b + 1) =~= pages.take(b).push(pages[b]));
        pages.take(b).lemma_flatten_push(pages[b]);
    }
    if a < b {
        lemma_lines_before_mono(pages, a, b - 1);
        assert(pages.take(b) =~= pages.take(b - 1).push(pages[b - 1]));
        pages.take(b - 1).lemma_flatten_push(pages[b - 1]);
    }
}

/// The page and the place on it of the first line that covers
/// `position`, or `None` when no line does.
pub fn locate_position(pages: &Vec<Vec<LineSpan>>, position: usize) -> (r: Option<(usize, usize)>)
    ensures
        r matches Some((p, i)) ==> first_cover(contents(pages@), position as int, p as int, i as int),
        r is None ==> uncovered(contents(pages@), position as int),
{
    let ghost ps = contents(pages@);
    let mut p: usize = 0;
    while p < pages.len()
        invariant
            ps == contents(pages@),
            p <= pages@.len(),
            forall|q: int, j: int|
                0 <= q < p && 0 <= j < ps[q].len() ==> !covers(#[trigger] ps[q][j], position as int),
        decreases pages.len() - p,
    {
        let page = &pages[p];
        assert(ps[p as int] == page@);
        let mut i: usize = 0;
        while i < page.len()
            invariant
                ps == contents(pages@),
                p < pages@.len(),
                ps[p as int] == page@,
                i <= page@.len(),
                forall|q: int, j: int|
                    0 <= q < p && 0 <= j < ps[q].len() ==> !covers(#[trigger] ps[q][j], position as int),
                forall|j: int| 0 <= j < i ==> !covers(#[trigger] ps[p as int][j], position as int),
            decreases page.len() - i,
        {
            let line = page[i];
            if position >= line.start_position && position <= line.end_position {
                return Some((p, i));
            }
            i = i + 1;
        }
        p = p + 1;
    }
    None
}

/// The number, counted over all pages from 0, of the first line that
/// covers `position`, or `None` when no line does.
pub fn line_at_position(pages: &Vec<Vec<LineSpan>>, position: usize) -> (r: Option<usize>)
    requires
        contents(pages@).flatten().len() <= usize::MAX,
    ensures
        forall|p: int, i: int|
            first_cover(contents(pages@), position as int, p, i) ==> r == Some(
                (lines_before(contents(pages@), p) + i) as usize,
            ),
        uncovered(contents(pages@), position as int) ==> r is None,
{
    let ghost ps = contents(pages@);
    match locate_position(pages, position) {
        Some((p, i)) => {
            proof {
                assert forall|p2: int, i2: int| first_cover(ps, position as int, p2, i2) implies p2
                    == p && i2 == i by {
                    if p2 < p || (p2 == p && i2 < i) {
                        assert(!covers(ps[p2][i2], position as int));
                    } else if p2 > p || (p2 == p && i2 > i) {
                        assert(!covers(ps[p as int][i as int], position as int));
                    }
                }
            }
            proof {
                lemma_lines_before_mono(ps, p + 1, ps.len() as int);
                lemma_lines_before_mono(ps, p as int, p as int);
            }
            let mut count: usize = 0;
            let mut q: usize = 0;
            while q < p
                invariant
                    ps == contents(pages@),
                    q <= p < pages@.len(),
                    count == lines_before(ps, q as int),
                    lines_before(ps, p as int) + i < usize::MAX,
                    i < ps[p as int].len(),
                decreases p - q,
            {
                proof {
                    lemma_lines_before_mono(ps, q as int, q as int);
                    lemma_lines_before_mono(ps, q + 1, p as int);
                    assert(ps[q as int] == pages@[q as int]@);
                }
                count = count + pages[q].len();
                q = q + 1;
            }
            Some(count + i)
        },
        None => None,
    }
}

} // verus!
