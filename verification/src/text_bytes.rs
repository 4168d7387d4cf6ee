//! Byte-level facts about UTF-8 text: character boundaries, newline
//! positions, and the conversion of valid bytes back into a `String`.

use vstd::prelude::*;
use vstd::utf8::*;
use vstd::string::StringSliceAdditionalSpecFns;

verus! {

/// The byte value of `'\n'`.
pub const NEWLINE: u8 = 10u8;

/// `index` splits `bytes` between two characters: it is the start, the end,
/// or a position whose byte is not a UTF-8 continuation byte. This is the
/// test that `str::is_char_boundary` makes, and slicing a `str` panics at any
/// other index.
pub open spec fn is_boundary(bytes: Seq<u8>, index: int) -> bool {
    index == 0 || index == bytes.len() || (0 < index < bytes.len() && !is_continuation_byte(
        bytes[index],
    ))
}

/// `pos`, or `len` when `pos` lies past it.
pub open spec fn clamp(pos: int, len: int) -> int {
    if pos < len {
        pos
    } else {
        len
    }
}

/// `t` with `s` put in at `position`, or at the end when `position` lies
/// past it.
pub open spec fn insert_at(t: Seq<u8>, position: int, s: Seq<u8>) -> Seq<u8> {
    t.take(clamp(position, t.len() as int)) + s + t.skip(clamp(position, t.len() as int))
}

/// `t` without the `length` bytes from `position`: unchanged when nothing
/// is asked for or `position` is at or past the end, and cut at the end
/// when `position + length` lies past it.
pub open spec fn remove_range(t: Seq<u8>, position: int, length: int) -> Seq<u8> {
    if length == 0 || position >= t.len() {
        t
    } else {
        t.take(position) + t.skip(clamp(position + length, t.len() as int))
    }
}

/// The positions of the newline bytes of `s`, in increasing order.
pub open spec fn newline_offsets(s: Seq<u8>) -> Seq<int>
    decreases s.len(),
{
    if s.len() == 0 {
        Seq::empty()
    } else {
        let rest = newline_offsets(s.drop_last());
        if s.last() == NEWLINE {
            rest.push(s.len() - 1)
        } else {
            rest
        }
    }
}

/// The number of newline bytes in `s`.
pub open spec fn count_newlines(s: Seq<u8>) -> nat {
    newline_offsets(s).len()
}

/// Every element of `v` increased by `k`.
pub open spec fn shift(v: Seq<int>, k: int) -> Seq<int> {
    Seq::new(v.len(), |i: int| v[i] + k)
}

/// A sequence of machine integers read as mathematical integers.
pub open spec fn as_ints(v: Seq<usize>) -> Seq<int> {
    Seq::new(v.len(), |i: int| v[i] as int)
}

/// The elements of `v` that are below `bound`, in their order.
pub open spec fn keep_below(v: Seq<usize>, bound: usize) -> Seq<usize>
    decreases v.len(),
{
    if v.len() == 0 {
        v
    } else {
        let rest = keep_below(v.drop_last(), bound);
        if v.last() < bound {
            rest.push(v.last())
        } else {
            rest
        }
    }
}

/// The elements of `v` that are at least `bound`, each reduced by `bound`.
pub open spec fn keep_from(v: Seq<usize>, bound: usize) -> Seq<usize>
    decreases v.len(),
{
    if v.len() == 0 {
        v
    } else {
        let rest = keep_from(v.drop_last(), bound);
        if v.last() >= bound {
            rest.push((v.last() - bound) as usize)
        } else {
            rest
        }
    }
}

/// Newline positions of a concatenation: those of the left part, then those
/// of the right part moved past the left part.
pub proof fn lemma_newline_offsets_concat(a: Seq<u8>, b: Seq<u8>)
    ensures
        newline_offsets(a + b) == newline_offsets(a) + shift(newline_offsets(b), a.len() as int),
    decreases b.len(),
{
    if b.len() == 0 {
        assert(a + b =~= a);
        assert(shift(newline_offsets(b), a.len() as int) =~= Seq::<int>::empty());
        assert(newline_offsets(a) + Seq::<int>::empty() =~= newline_offsets(a));
    } else {
        lemma_newline_offsets_concat(a, b.drop_last());
        assert((a + b).drop_last() =~= a + b.drop_last());
        let rb = newline_offsets(b.drop_last());
        if b.last() == NEWLINE {
            assert(shift(rb.push(b.len() - 1), a.len() as int) =~= shift(rb, a.len() as int).push(
                a.len() + b.len() - 1,
            ));
            assert(newline_offsets(a) + shift(rb, a.len() as int).push(a.len() + b.len() - 1)
                =~= (newline_offsets(a) + shift(rb, a.len() as int)).push(a.len() + b.len() - 1));
        }
    }
}

/// The number of newlines of a concatenation is the sum of the numbers.
pub proof fn lemma_count_newlines_concat(a: Seq<u8>, b: Seq<u8>)
    ensures
        count_newlines(a + b) == count_newlines(a) + count_newlines(b),
{
    lemma_newline_offsets_concat(a, b);
}

/// Each newline position is in range, names a newline byte, and they increase.
pub proof fn lemma_newline_offsets_facts(s: Seq<u8>)
    ensures
        forall|k: int|
            0 <= k < newline_offsets(s).len() ==> 0 <= #[trigger] newline_offsets(s)[k] < s.len()
                && s[newline_offsets(s)[k]] == NEWLINE,
        forall|k: int, l: int|
            0 <= k < l < newline_offsets(s).len() ==> #[trigger] newline_offsets(s)[k]
                < #[trigger] newline_offsets(s)[l],
        newline_offsets(s).len() <= s.len(),
    decreases s.len(),
{
    if s.len() > 0 {
        lemma_newline_offsets_facts(s.drop_last());
    }
}

/// A position holding a newline byte is among the newline positions.
pub proof fn lemma_newline_offsets_complete(s: Seq<u8>, i: int)
    requires
        0 <= i < s.len(),
        s[i] == NEWLINE,
    ensures
        newline_offsets(s).contains(i),
    decreases s.len(),
{
    lemma_newline_offsets_facts(s);
    if i == s.len() - 1 {
        assert(newline_offsets(s).last() == i);
    } else {
        lemma_newline_offsets_complete(s.drop_last(), i);
        let k = choose|k: int| 0 <= k < newline_offsets(s.drop_last()).len() && newline_offsets(s.drop_last())[k] == i;
        assert(newline_offsets(s)[k] == i);
    }
}

/// The first byte of a non-empty valid UTF-8 sequence starts a character.
pub proof fn lemma_valid_first_byte(b: Seq<u8>)
    requires
        valid_utf8(b),
        b.len() > 0,
    ensures
        !is_continuation_byte(b[0]),
{
    is_char_boundary_start_end_of_seq(b);
    is_char_boundary_iff_not_is_continuation_byte(b, 0);
}

/// On valid UTF-8, `is_boundary` agrees with vstd's character boundaries.
pub proof fn lemma_is_boundary_agrees(b: Seq<u8>, i: int)
    requires
        valid_utf8(b),
        0 <= i <= b.len(),
    ensures
        is_boundary(b, i) <==> is_char_boundary(b, i),
{
    is_char_boundary_start_end_of_seq(b);
    if 0 < i < b.len() {
        is_char_boundary_iff_not_is_continuation_byte(b, i);
    }
}

/// A slice of valid UTF-8 between two boundaries is valid UTF-8.
pub proof fn lemma_slice_valid(b: Seq<u8>, s: int, e: int)
    requires
        valid_utf8(b),
        0 <= s <= e <= b.len(),
        is_boundary(b, s),
        is_boundary(b, e),
    ensures
        valid_utf8(b.subrange(s, e)),
{
    lemma_is_boundary_agrees(b, e);
    valid_utf8_split(b, e);
    let p = b.subrange(0, e);
    assert(is_boundary(p, s));
    lemma_is_boundary_agrees(p, s);
    valid_utf8_split(p, s);
    assert(p.subrange(s, p.len() as int) =~= b.subrange(s, e));
}

/// Around a newline byte of valid UTF-8 text both sides are boundaries.
pub proof fn lemma_newline_boundaries(b: Seq<u8>, i: int)
    requires
        valid_utf8(b),
        0 <= i < b.len(),
        b[i] == NEWLINE,
    ensures
        is_boundary(b, i),
        is_boundary(b, i + 1),
{
    if i + 1 < b.len() {
        lemma_is_boundary_agrees(b, i);
        valid_utf8_split(b, i);
        let t = b.subrange(i, b.len() as int);
        assert(t[0] == NEWLINE);
        assert(length_of_first_scalar(t) == 1);
        assert(pop_first_scalar(t) =~= b.subrange(i + 1, b.len() as int));
        let r = b.subrange(i + 1, b.len() as int);
        lemma_valid_first_byte(r);
        assert(r[0] == b[i + 1]);
    }
}

/// The bytes that a string slice holds are valid UTF-8.
pub proof fn lemma_str_bytes_valid(s: &str)
    ensures
        valid_utf8(s.spec_bytes()),
{
    encode_utf8_valid_utf8(s@);
}

/// A boundary of a valid prefix stays one after valid bytes are appended.
pub proof fn lemma_boundary_append(a: Seq<u8>, t: Seq<u8>, i: int)
    requires
        valid_utf8(t),
        is_boundary(a, i),
    ensures
        is_boundary(a + t, i),
{
    if i == a.len() && t.len() > 0 {
        lemma_valid_first_byte(t);
        assert((a + t)[i] == t[0]);
    } else if 0 < i < a.len() {
        assert((a + t)[i] == a[i]);
    }
}


/// Every newline position lies below the length.
pub proof fn lemma_offsets_below_len(b: Seq<usize>, s: Seq<u8>)
    requires
        as_ints(b) == newline_offsets(s),
    ensures
        forall|k: int| 0 <= k < b.len() ==> (#[trigger] b[k]) < s.len(),
{
    lemma_newline_offsets_facts(s);
    assert forall|k: int| 0 <= k < b.len() implies (#[trigger] b[k]) < s.len() by {
        assert(as_ints(b)[k] == b[k] as int);
    }
}

/// `keep_below` keeps everything and `keep_from` nothing when all elements
/// are below the bound.
pub proof fn lemma_keep_all_below(b: Seq<usize>, o: usize)
    requires
        forall|k: int| 0 <= k < b.len() ==> (#[trigger] b[k]) < o,
    ensures
        keep_below(b, o) == b,
        keep_from(b, o) == Seq::<usize>::empty(),
    decreases b.len(),
{
    if b.len() > 0 {
        lemma_keep_all_below(b.drop_last(), o);
        assert(b.drop_last().push(b.last()) =~= b);
    }
}

/// Splitting the newline positions of `s` at offset `o` gives the newline
/// positions of the two halves of `s`.
pub proof fn lemma_split_offsets(b: Seq<usize>, s: Seq<u8>, o: usize)
    requires
        as_ints(b) == newline_offsets(s),
        o <= s.len(),
    ensures
        as_ints(keep_below(b, o)) == newline_offsets(s.subrange(0, o as int)),
        as_ints(keep_from(b, o)) == newline_offsets(s.subrange(o as int, s.len() as int)),
    decreases s.len(),
{
    if o == s.len() {
        lemma_offsets_below_len(b, s);
        lemma_keep_all_below(b, o);
        assert(s.subrange(0, o as int) =~= s);
        assert(s.subrange(o as int, s.len() as int) =~= Seq::<u8>::empty());
        assert(as_ints(Seq::<usize>::empty()) =~= Seq::<int>::empty());
    } else {
        let s0 = s.drop_last();
        let n0 = newline_offsets(s0);
        let b0 = if s.last() == NEWLINE { b.drop_last() } else { b };
        if s.last() == NEWLINE {
            assert(as_ints(b.drop_last()) =~= as_ints(b).drop_last());
            assert(newline_offsets(s).drop_last() =~= n0);
            assert(b0.push(b.last()) =~= b);
            assert(b.last() as int == s.len() - 1) by {
                assert(as_ints(b)[b.len() - 1] == b.last() as int);
            }
        } else {
            assert(b0 =~= b);
        }
        assert(as_ints(b0) == n0);
        lemma_split_offsets(b0, s0, o);
        assert(s.subrange(0, o as int) =~= s0.subrange(0, o as int));
        let t = s.subrange(o as int, s.len() as int);
        assert(t.drop_last() =~= s0.subrange(o as int, s0.len() as int));
        assert(t.last() == s.last());
        if s.last() == NEWLINE {
            assert(keep_below(b, o) == keep_below(b0, o));
            assert(keep_from(b, o) == keep_from(b0, o).push((b.last() - o) as usize));
            assert(as_ints(keep_from(b0, o).push((b.last() - o) as usize)) =~= as_ints(
                keep_from(b0, o),
            ).push(t.len() - 1));
        } else {
            assert(keep_below(b, o) == keep_below(b0, o));
            assert(keep_from(b, o) == keep_from(b0, o));
        }
    }
}


/// The byte position where line `n` (counted from 1) of `t` starts: 0 for
/// the first line, just after the `(n - 1)`th newline for a later one, and
/// nothing when `t` has fewer newlines.
pub open spec fn line_start(t: Seq<u8>, n: int) -> Option<int> {
    if n == 1 {
        Some(0)
    } else if 2 <= n && n - 2 < newline_offsets(t).len() {
        Some(newline_offsets(t)[n - 2] + 1)
    } else {
        None
    }
}

/// The bytes of line `n` (counted from 1) of `t`, without its newline: from
/// its start to the next newline or the end of `t`. There is no such line
/// when `t` has fewer than `n - 1` newlines, and an empty `t` has no first
/// line.
pub open spec fn line_text(t: Seq<u8>, n: int) -> Option<Seq<u8>> {
    let nl = newline_offsets(t);
    if n < 1 || n - 1 > nl.len() || (n == 1 && t.len() == 0) {
        None
    } else {
        let start = if n == 1 {
            0
        } else {
            nl[n - 2] + 1
        };
        let end = if n - 1 < nl.len() {
            nl[n - 1]
        } else {
            t.len() as int
        };
        Some(t.subrange(start, end))
    }
}

/// One more byte: the newline positions grow by it when it is a newline.
pub proof fn lemma_newline_offsets_step(t: Seq<u8>, g: int)
    requires
        0 <= g < t.len(),
    ensures
        newline_offsets(t.take(g + 1)) == if t[g] == NEWLINE {
            newline_offsets(t.take(g)).push(g)
        } else {
            newline_offsets(t.take(g))
        },
{
    assert(t.take(g + 1).drop_last() =~= t.take(g));
}

/// The newline positions of a prefix are a prefix of the newline positions.
pub proof fn lemma_newline_offsets_prefix(t: Seq<u8>, g: int)
    requires
        0 <= g <= t.len(),
    ensures
        forall|k: int|
            0 <= k < newline_offsets(t.take(g)).len() ==> newline_offsets(t)[k] == #[trigger] newline_offsets(
                t.take(g),
            )[k],
        newline_offsets(t.take(g)).len() <= newline_offsets(t).len(),
{
    assert(t =~= t.take(g) + t.skip(g));
    lemma_newline_offsets_concat(t.take(g), t.skip(g));
}


/// The bytes of an existing line of valid text are valid, provided the
/// text up to the line's end (`u`, a prefix of `t`) is valid.
pub proof fn lemma_line_text_valid(t: Seq<u8>, u: Seq<u8>, n: int)
    requires
        line_text(t, n) is Some,
        u == t.take(u.len() as int),
        u.len() <= t.len(),
        valid_utf8(u),
        n - 1 < newline_offsets(t).len() ==> newline_offsets(t)[n - 1] < u.len(),
        n - 1 >= newline_offsets(t).len() ==> u.len() == t.len(),
    ensures
        valid_utf8(line_text(t, n)->0),
{
    let nl = newline_offsets(t);
    lemma_newline_offsets_facts(t);
    let start = if n == 1 {
        0
    } else {
        nl[n - 2] + 1
    };
    let end = if n - 1 < nl.len() {
        nl[n - 1]
    } else {
        t.len() as int
    };
    if n >= 2 {
        let s0 = nl[n - 2];
        if n - 1 < nl.len() {
            assert(nl[n - 2] < nl[n - 1]);
        }
        assert(s0 < u.len());
        assert(u[s0] == t[s0]);
        lemma_newline_boundaries(u, s0);
    }
    if end < u.len() {
        assert(u[end] == t[end]);
        lemma_newline_boundaries(u, end);
    }
    assert(start <= end);
    lemma_slice_valid(u, start, end);
    assert(u.subrange(start, end) =~= t.subrange(start, end));
}

/// Between two character boundaries of valid text with only continuation
/// bytes strictly between them lies exactly one character: the text from
/// the first boundary decodes to one more character than the text from the
/// second.
pub proof fn lemma_one_char_back(t: Seq<u8>, j: int, i: int)
    requires
        valid_utf8(t),
        0 <= j < i <= t.len(),
        is_boundary(t, j),
        is_boundary(t, i),
        forall|k: int| j < k < i ==> is_continuation_byte(#[trigger] t[k]),
    ensures
        decode_utf8(t.subrange(j, t.len() as int)).len() == 1 + decode_utf8(
            t.subrange(i, t.len() as int),
        ).len(),
{
    let u = t.subrange(j, t.len() as int);
    lemma_slice_valid(t, j, t.len() as int);
    let m = i - j;
    assert(is_boundary(u, m)) by {
        if m < u.len() {
            assert(u[m] == t[i]);
        }
    }
    lemma_is_boundary_agrees(u, m);
    decode_utf8_split(u, m);
    assert(u.subrange(m, u.len() as int) =~= t.subrange(i, t.len() as int));
    let w = u.subrange(0, m);
    assert(w =~= t.subrange(j, i));
    lemma_slice_valid(t, j, i);
    let len1 = length_of_first_scalar(w);
    let pop = pop_first_scalar(w);
    assert(valid_first_scalar(w) && valid_utf8(pop));
    assert(1 <= len1 <= w.len());
    if pop.len() > 0 {
        lemma_valid_first_byte(pop);
        assert(pop[0] == t[j + len1]);
        assert(is_continuation_byte(t[j + len1]));
    }
    assert(pop =~= Seq::<u8>::empty());
    assert(decode_utf8(pop) =~= Seq::<char>::empty());
}

/// Whether `index` is a character boundary of `bytes`, as `is_boundary`
/// says.
pub fn is_boundary_at(bytes: &[u8], index: usize) -> (r: bool)
    ensures
        r == is_boundary(bytes@, index as int),
{
    if index == 0 || index == bytes.len() {
        true
    } else if index < bytes.len() {
        let b = bytes[index];
        !(0x80u8 <= b && b <= 0xbfu8)
    } else {
        false
    }
}

/// Whether two strings hold the same characters, compared byte by byte.
pub fn str_eq(a: &str, b: &str) -> (r: bool)
    ensures
        r == (a@ == b@),
{
    let x = a.as_bytes();
    let y = b.as_bytes();
    proof {
        encode_utf8_decode_utf8(a@);
        encode_utf8_decode_utf8(b@);
    }
    if x.len() != y.len() {
        return false;
    }
    let mut i: usize = 0;
    while i < x.len()
        invariant
            x@ == a.spec_bytes(),
            y@ == b.spec_bytes(),
            x@.len() == y@.len(),
            i <= x@.len(),
            forall|k: int| 0 <= k < i ==> x@[k] == y@[k],
        decreases x@.len() - i,
    {
        if x[i] != y[i] {
            return false;
        }
        i = i + 1;
    }
    assert(x@ =~= y@);
    true
}

/// `String::from_utf8`: on valid UTF-8 bytes it returns the string that the
/// bytes encode. Nothing is claimed for other bytes, which the `requires`
/// rules out.
#[verifier::external_body]
pub(crate) fn string_from_utf8(bytes: Vec<u8>) -> (s: String)
    requires
        valid_utf8(bytes@),
    ensures
        s@ == decode_utf8(bytes@),
{
    String::from_utf8(bytes).unwrap()
}

} // verus!
