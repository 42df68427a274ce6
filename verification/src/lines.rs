//! The mathematical model of a log stream: a byte sequence decomposed into
//! lines, where every line carries its terminating newline byte and only the
//! final line of the stream may lack one.

use vstd::prelude::*;

verus! {

/// Byte value of the line terminator.
pub const NL: u8 = 10;

/// Length of the first line of `s`, counting its terminator when present.
/// When `s` holds no terminator at all, the whole of `s` is its first line.
pub open spec fn first_line_len(s: Seq<u8>) -> nat
    decreases s.len(),
{
    if s.len() == 0 {
        0
    } else if s[0] == NL {
        1
    } else {
        1 + first_line_len(s.drop_first())
    }
}

/// Decomposition of a byte sequence into its lines.
pub open spec fn lines_of(s: Seq<u8>) -> Seq<Seq<u8>>
    decreases s.len(),
    via lines_of_dec
{
    if s.len() == 0 {
        Seq::empty()
    } else {
        seq![s.take(first_line_len(s) as int)] + lines_of(s.skip(first_line_len(s) as int))
    }
}

#[via_fn]
proof fn lines_of_dec(s: Seq<u8>) {
    if s.len() > 0 {
        lemma_first_line_len(s);
    }
}

/// Concatenation of a sequence of byte sequences.
pub open spec fn cat(ls: Seq<Seq<u8>>) -> Seq<u8>
    decreases ls.len(),
{
    if ls.len() == 0 {
        Seq::empty()
    } else {
        ls[0] + cat(ls.drop_first())
    }
}

/// Total byte length of a sequence of byte sequences.
pub open spec fn total_len(ls: Seq<Seq<u8>>) -> int
    decreases ls.len(),
{
    if ls.len() == 0 {
        0
    } else {
        ls[0].len() + total_len(ls.drop_first())
    }
}

/// Byte offset at which line `j` of `s` starts; `pos_of(s, lines_of(s).len())`
/// is the length of `s`.
pub open spec fn pos_of(s: Seq<u8>, j: int) -> int {
    total_len(lines_of(s).take(j))
}

/// A well-formed line: non-empty, no terminator anywhere but at its end.
pub open spec fn line_shaped(l: Seq<u8>) -> bool {
    l.len() >= 1 && (forall|p: int| 0 <= p < l.len() - 1 ==> l[p] != NL)
}

/// A well-formed line decomposition: every element is a line, every element
/// but the last ends with the terminator.
pub open spec fn lines_shaped(ls: Seq<Seq<u8>>) -> bool {
    &&& forall|k: int| 0 <= k < ls.len() ==> line_shaped(#[trigger] ls[k])
    &&& forall|k: int| 0 <= k < ls.len() - 1 ==> (#[trigger] ls[k]).last() == NL
}

pub proof fn lemma_first_line_len(s: Seq<u8>)
    requires
        s.len() > 0,
    ensures
        1 <= first_line_len(s) <= s.len(),
        forall|p: int| 0 <= p < first_line_len(s) - 1 ==> s[p] != NL,
        s[first_line_len(s) - 1] == NL || first_line_len(s) == s.len(),
        first_line_len(s) < s.len() ==> s[first_line_len(s) - 1] == NL,
    decreases s.len(),
{
    if s[0] == NL {
    } else if s.len() == 1 {
    } else {
        lemma_first_line_len(s.drop_first());
        assert forall|p: int| 0 <= p < first_line_len(s) - 1 implies s[p] != NL by {
            if p > 0 {
                assert(s.drop_first()[p - 1] == s[p]);
            }
        }
        assert(s.drop_first()[first_line_len(s.drop_first()) - 1] == s[first_line_len(s) - 1]);
    }
}

/// A prefix that covers the whole first line has the same first line.
pub proof fn lemma_first_line_len_take(s: Seq<u8>, m: int)
    requires
        s.len() > 0,
        first_line_len(s) <= m <= s.len(),
    ensures
        first_line_len(s.take(m)) == first_line_len(s),
    decreases s.len(),
{
    if s[0] == NL {
    } else if s.len() == 1 {
        assert(s.take(m) =~= s);
    } else {
        lemma_first_line_len(s);
        assert(s.take(m).drop_first() =~= s.drop_first().take(m - 1));
        lemma_first_line_len_take(s.drop_first(), m - 1);
    }
}

pub proof fn lemma_cat_push(ls: Seq<Seq<u8>>, x: Seq<u8>)
    ensures
        cat(ls.push(x)) == cat(ls) + x,
        total_len(ls.push(x)) == total_len(ls) + x.len(),
    decreases ls.len(),
{
    if ls.len() == 0 {
        assert(ls.push(x).drop_first() =~= Seq::<Seq<u8>>::empty());
        assert(ls.push(x)[0] == x);
        assert(cat(ls.push(x)) == x + cat(Seq::<Seq<u8>>::empty()));
        assert(cat(ls.push(x)) =~= cat(ls) + x);
        assert(total_len(ls.push(x)) == x.len() + total_len(Seq::<Seq<u8>>::empty()));
    } else {
        assert(ls.push(x).drop_first() =~= ls.drop_first().push(x));
        lemma_cat_push(ls.drop_first(), x);
        assert(ls.push(x)[0] == ls[0]);
        assert(cat(ls.push(x)) == ls[0] + cat(ls.drop_first().push(x)));
        assert(cat(ls.push(x)) =~= cat(ls) + x);
        assert(total_len(ls.push(x)) == total_len(ls) + x.len());
    }
}

pub proof fn lemma_cat_concat(a: Seq<Seq<u8>>, b: Seq<Seq<u8>>)
    ensures
        cat(a + b) == cat(a) + cat(b),
        total_len(a + b) == total_len(a) + total_len(b),
    decreases a.len(),
{
    if a.len() == 0 {
        assert(a + b =~= b);
        assert(cat(a + b) =~= cat(a) + cat(b));
    } else {
        assert((a + b).drop_first() =~= a.drop_first() + b);
        lemma_cat_concat(a.drop_first(), b);
        assert(cat(a + b) =~= cat(a) + cat(b));
    }
}

/// Pointwise description of the deep view of a vector of byte vectors.
pub proof fn lemma_deep_view(v: Vec<Vec<u8>>)
    ensures
        v.deep_view().len() == v@.len(),
        forall|i: int| 0 <= i < v@.len() ==> #[trigger] v.deep_view()[i] == v@[i]@,
{
    assert forall|i: int| 0 <= i < v@.len() implies #[trigger] v.deep_view()[i] == v@[i]@ by {
        assert(v.deep_view()[i] =~= v@[i]@);
    }
}

/// Dropping the last element commutes with taking deep views.
pub proof fn lemma_deep_drop_last(prev: Vec<Vec<u8>>, cur: Vec<Vec<u8>>, x: Vec<u8>)
    requires
        prev@.len() > 0,
        cur@ == prev@.subrange(0, prev@.len() - 1),
        x == prev@[prev@.len() - 1],
    ensures
        prev.deep_view().len() == prev@.len(),
        cur.deep_view() == prev.deep_view().take(prev@.len() - 1),
        x@ == prev.deep_view()[prev@.len() - 1],
{
    lemma_deep_view(prev);
    lemma_deep_view(cur);
    assert forall|i: int|
        0 <= i < cur@.len() implies cur.deep_view()[i] == prev.deep_view().take(
        prev@.len() - 1,
    )[i] by {
        assert(cur.deep_view()[i] == cur@[i]@);
        assert(cur@[i] == prev@[i]);
        assert(prev.deep_view()[i] == prev@[i]@);
    }
    assert(cur.deep_view() =~= prev.deep_view().take(prev@.len() - 1));
    assert(prev.deep_view()[prev@.len() - 1] == prev@[prev@.len() - 1]@);
}

/// Removing the front element commutes with taking deep views.
pub proof fn lemma_deep_remove_front(prev: Vec<Vec<u8>>, cur: Vec<Vec<u8>>, x: Vec<u8>)
    requires
        prev@.len() > 0,
        cur@ == prev@.remove(0),
        x == prev@[0],
    ensures
        prev.deep_view().len() == prev@.len(),
        cur.deep_view() == prev.deep_view().skip(1),
        x@ == prev.deep_view()[0],
{
    lemma_deep_view(prev);
    lemma_deep_view(cur);
    assert forall|i: int|
        0 <= i < cur@.len() implies cur.deep_view()[i] == prev.deep_view().skip(1)[i] by {
        assert(cur.deep_view()[i] == cur@[i]@);
        assert(cur@[i] == prev@[i + 1]);
        assert(prev.deep_view()[i + 1] == prev@[i + 1]@);
    }
    assert(cur.deep_view() =~= prev.deep_view().skip(1));
    assert(prev.deep_view()[0] == prev@[0]@);
}

/// Pushing an element commutes with taking deep views.
pub proof fn lemma_deep_push(prev: Vec<Vec<u8>>, cur: Vec<Vec<u8>>, x: Vec<u8>)
    requires
        cur@ == prev@.push(x),
    ensures
        cur.deep_view() == prev.deep_view().push(x@),
{
    lemma_deep_view(prev);
    lemma_deep_view(cur);
    assert forall|i: int|
        0 <= i < cur@.len() implies cur.deep_view()[i] == prev.deep_view().push(x@)[i] by {
        assert(cur.deep_view()[i] == cur@[i]@);
        if i < prev@.len() {
            assert(cur@[i] == prev@[i]);
            assert(prev.deep_view()[i] == prev@[i]@);
        } else {
            assert(cur@[i] == x);
        }
    }
    assert(cur.deep_view() =~= prev.deep_view().push(x@));
}

/// Concatenation commutes with taking deep views.
pub proof fn lemma_deep_concat(a: Vec<Vec<u8>>, b: Vec<Vec<u8>>, c: Vec<Vec<u8>>)
    requires
        c@ == a@ + b@,
    ensures
        c.deep_view() == a.deep_view() + b.deep_view(),
{
    lemma_deep_view(a);
    lemma_deep_view(b);
    lemma_deep_view(c);
    assert forall|i: int|
        0 <= i < c@.len() implies c.deep_view()[i] == (a.deep_view() + b.deep_view())[i] by {
        assert(c.deep_view()[i] == c@[i]@);
        if i < a@.len() {
            assert(c@[i] == a@[i]);
            assert(a.deep_view()[i] == a@[i]@);
        } else {
            assert(c@[i] == b@[i - a@.len()]);
            assert(b.deep_view()[i - a@.len()] == b@[i - a@.len()]@);
        }
    }
    assert(c.deep_view() =~= a.deep_view() + b.deep_view());
}

pub proof fn lemma_cat_singleton(x: Seq<u8>)
    ensures
        cat(seq![x]) == x,
        total_len(seq![x]) == x.len(),
{
    assert(seq![x].drop_first() =~= Seq::<Seq<u8>>::empty());
    assert(seq![x][0] == x);
    assert(cat(seq![x]) == x + cat(Seq::<Seq<u8>>::empty()));
    assert(x + Seq::<u8>::empty() =~= x);
    assert(total_len(seq![x]) == x.len() + total_len(Seq::<Seq<u8>>::empty()));
}

pub proof fn lemma_total_len_nonneg(ls: Seq<Seq<u8>>)
    ensures
        total_len(ls) >= 0,
        cat(ls).len() == total_len(ls),
    decreases ls.len(),
{
    if ls.len() > 0 {
        lemma_total_len_nonneg(ls.drop_first());
    }
}

/// Structure of the full decomposition: it concatenates back to `s`, and it
/// is shaped as lines.
pub proof fn lemma_lines_of(s: Seq<u8>)
    ensures
        cat(lines_of(s)) == s,
        total_len(lines_of(s)) == s.len(),
        lines_shaped(lines_of(s)),
        lines_of(s).len() <= s.len(),
        s.len() > 0 ==> lines_of(s).len() >= 1,
        s.len() == 0 ==> lines_of(s).len() == 0,
        s.len() > 0 ==> (lines_of(s).last().last() == NL <==> s.last() == NL),
        s.len() > 0 ==> lines_of(s).last().last() == s.last(),
    decreases s.len(),
{
    if s.len() == 0 {
    } else {
        let f = first_line_len(s) as int;
        lemma_first_line_len(s);
        let rest = s.skip(f);
        lemma_lines_of(rest);
        let ls = lines_of(s);
        assert(ls.drop_first() =~= lines_of(rest));
        assert(cat(ls) =~= s.take(f) + cat(lines_of(rest)));
        assert(s.take(f) + rest =~= s);
        assert(cat(ls) =~= s);
        assert forall|k: int| 0 <= k < ls.len() implies line_shaped(#[trigger] ls[k]) by {
            if k > 0 {
                assert(ls[k] == lines_of(rest)[k - 1]);
            } else {
                assert(ls[0] == s.take(f));
            }
        }
        assert forall|k: int| 0 <= k < ls.len() - 1 implies (#[trigger] ls[k]).last() == NL by {
            if k > 0 {
                assert(ls[k] == lines_of(rest)[k - 1]);
            } else {
                assert(rest.len() > 0);
                assert(f < s.len());
                assert(ls[0].last() == s[f - 1]);
            }
        }
        if rest.len() > 0 {
            assert(ls.last() == lines_of(rest).last());
            assert(rest.last() == s.last());
        } else {
            assert(ls.last() == s.take(f));
            assert(ls.last().last() == s[f - 1]);
        }
    }
}

/// Offsets of line starts: zero at the front, the length of `s` past the
/// last line, one line's length apart, and monotone.
pub proof fn lemma_pos_of(s: Seq<u8>)
    ensures
        pos_of(s, 0) == 0,
        pos_of(s, lines_of(s).len() as int) == s.len(),
        forall|j: int|
            0 <= j < lines_of(s).len() ==> #[trigger] pos_of(s, j + 1) == pos_of(s, j)
                + lines_of(s)[j].len(),
        forall|j: int, k: int|
            0 <= j <= k <= lines_of(s).len() ==> #[trigger] pos_of(s, j) <= #[trigger] pos_of(
                s,
                k,
            ),
        forall|j: int| 0 <= j <= lines_of(s).len() ==> 0 <= #[trigger] pos_of(s, j) <= s.len(),
{
    let ls = lines_of(s);
    lemma_lines_of(s);
    assert(ls.take(0) =~= Seq::<Seq<u8>>::empty());
    assert(ls.take(ls.len() as int) =~= ls);
    assert forall|j: int|
        0 <= j < ls.len() implies #[trigger] pos_of(s, j + 1) == pos_of(s, j) + ls[j].len() by {
        assert(ls.take(j + 1) =~= ls.take(j).push(ls[j]));
        lemma_cat_push(ls.take(j), ls[j]);
    }
    assert forall|j: int, k: int|
        0 <= j <= k <= ls.len() implies #[trigger] pos_of(s, j) <= #[trigger] pos_of(s, k) by {
        assert(ls.take(k) =~= ls.take(j) + ls.subrange(j, k));
        lemma_cat_concat(ls.take(j), ls.subrange(j, k));
        lemma_total_len_nonneg(ls.subrange(j, k));
    }
    assert forall|j: int| 0 <= j <= ls.len() implies 0 <= #[trigger] pos_of(s, j) <= s.len() by {
        assert(pos_of(s, 0) <= pos_of(s, j) <= pos_of(s, ls.len() as int));
    }
}

/// A contiguous run of lines concatenates to the byte range between its
/// boundary offsets.
pub proof fn lemma_cat_slice(s: Seq<u8>, i: int, j: int)
    requires
        0 <= i <= j <= lines_of(s).len(),
    ensures
        cat(lines_of(s).subrange(i, j)) == s.subrange(pos_of(s, i), pos_of(s, j)),
        total_len(lines_of(s).subrange(i, j)) == pos_of(s, j) - pos_of(s, i),
{
    let ls = lines_of(s);
    lemma_lines_of(s);
    lemma_pos_of(s);
    assert(ls =~= ls.take(j) + ls.skip(j));
    lemma_cat_concat(ls.take(j), ls.skip(j));
    assert(ls.take(j) =~= ls.take(i) + ls.subrange(i, j));
    lemma_cat_concat(ls.take(i), ls.subrange(i, j));
    lemma_total_len_nonneg(ls.take(i));
    lemma_total_len_nonneg(ls.take(j));
    lemma_total_len_nonneg(ls.subrange(i, j));
    lemma_total_len_nonneg(ls.skip(j));
    assert(cat(ls) == s);
    assert(cat(ls.take(j)) == cat(ls.take(i)) + cat(ls.subrange(i, j)));
    assert(s == cat(ls.take(j)) + cat(ls.skip(j)));
    assert(cat(ls.subrange(i, j)) =~= s.subrange(pos_of(s, i), pos_of(s, j)));
}

/// Line `j` occupies exactly the bytes between its boundary offsets.
pub proof fn lemma_line_at(s: Seq<u8>, j: int)
    requires
        0 <= j < lines_of(s).len(),
    ensures
        s.subrange(pos_of(s, j), pos_of(s, j + 1)) == lines_of(s)[j],
{
    lemma_cat_slice(s, j, j + 1);
    let one = lines_of(s).subrange(j, j + 1);
    assert(one =~= seq![lines_of(s)[j]]);
    lemma_cat_singleton(lines_of(s)[j]);
}

/// Cutting a stream at a line boundary splits its decomposition.
pub proof fn lemma_lines_boundary(s: Seq<u8>, j: int)
    requires
        0 <= j <= lines_of(s).len(),
    ensures
        lines_of(s.take(pos_of(s, j))) == lines_of(s).take(j),
        lines_of(s.skip(pos_of(s, j))) == lines_of(s).skip(j),
{
    let ls = lines_of(s);
    let p = pos_of(s, j);
    lemma_lines_of(s);
    lemma_pos_of(s);
    lemma_cat_slice(s, 0, j);
    lemma_cat_slice(s, j, ls.len() as int);
    assert(ls.subrange(0, j) =~= ls.take(j));
    assert(ls.subrange(j, ls.len() as int) =~= ls.skip(j));
    assert(s.subrange(0, p) =~= s.take(p));
    assert(s.subrange(p, s.len() as int) =~= s.skip(p));
    assert forall|k: int| 0 <= k < j implies line_shaped(#[trigger] ls.take(j)[k]) by {
        assert(ls.take(j)[k] == ls[k]);
    }
    assert forall|k: int| 0 <= k < j - 1 implies (#[trigger] ls.take(j)[k]).last() == NL by {
        assert(ls.take(j)[k] == ls[k]);
    }
    if j >= 1 && j < ls.len() {
        assert(ls.take(j)[j - 1] == ls[j - 1]);
        assert(ls[j - 1].last() == NL);
    }
    lemma_lines_unique(ls.take(j), s.take(p));
    assert forall|k: int| 0 <= k < ls.len() - j implies line_shaped(#[trigger] ls.skip(j)[k]) by {
        assert(ls.skip(j)[k] == ls[k + j]);
    }
    assert forall|k: int|
        0 <= k < ls.len() - j - 1 implies (#[trigger] ls.skip(j)[k]).last() == NL by {
        assert(ls.skip(j)[k] == ls[k + j]);
    }
    lemma_lines_unique(ls.skip(j), s.skip(p));
}

/// Index of the line of `s` in which byte position `e` falls; positions at a
/// boundary, including the end of the stream, belong to the line that starts
/// there.
pub open spec fn cut_index(s: Seq<u8>, e: int) -> int
    decreases s.len(),
    via cut_index_dec
{
    if s.len() == 0 {
        0
    } else if e >= s.len() {
        lines_of(s).len() as int
    } else if e < first_line_len(s) {
        0
    } else {
        1 + cut_index(s.skip(first_line_len(s) as int), e - first_line_len(s))
    }
}

#[via_fn]
proof fn cut_index_dec(s: Seq<u8>, e: int) {
    if s.len() > 0 {
        lemma_first_line_len(s);
    }
}

/// A stream without a terminator is one single line.
pub proof fn lemma_lines_no_nl(t: Seq<u8>)
    requires
        t.len() > 0,
        forall|p: int| 0 <= p < t.len() ==> t[p] != NL,
    ensures
        lines_of(t) == seq![t],
{
    lemma_first_line_len(t);
    assert(first_line_len(t) == t.len());
    assert(t.take(t.len() as int) =~= t);
    assert(t.skip(t.len() as int) =~= Seq::<u8>::empty());
    assert(lines_of(t) == seq![t] + lines_of(Seq::<u8>::empty()));
    assert(seq![t] + Seq::<Seq<u8>>::empty() =~= seq![t]);
}

/// Decomposition of an arbitrary prefix: the complete lines it covers,
/// followed by the partial front of the line its end cuts, if any.
pub proof fn lemma_cut_prefix(s: Seq<u8>, e: int)
    requires
        0 <= e <= s.len(),
    ensures
        0 <= cut_index(s, e) <= lines_of(s).len(),
        pos_of(s, cut_index(s, e)) <= e,
        cut_index(s, e) < lines_of(s).len() ==> e < pos_of(s, cut_index(s, e) + 1),
        e == s.len() ==> cut_index(s, e) == lines_of(s).len(),
        lines_of(s.take(e)) == lines_of(s).take(cut_index(s, e)) + (if e > pos_of(
            s,
            cut_index(s, e),
        ) {
            seq![s.subrange(pos_of(s, cut_index(s, e)), e)]
        } else {
            Seq::<Seq<u8>>::empty()
        }),
    decreases s.len(),
{
    let ls = lines_of(s);
    let j = cut_index(s, e);
    lemma_lines_of(s);
    lemma_pos_of(s);
    if s.len() == 0 {
        assert(lines_of(s.take(e)) =~= ls.take(0));
    } else if e >= s.len() {
        assert(s.take(e) =~= s);
        assert(ls.take(ls.len() as int) =~= ls);
        assert(pos_of(s, j) == s.len());
        assert(lines_of(s.take(e)) =~= ls.take(j));
    } else if e < first_line_len(s) {
        lemma_first_line_len(s);
        assert(pos_of(s, 0) == 0);
        assert(pos_of(s, 1) == ls[0].len());
        assert(ls[0] == s.take(first_line_len(s) as int));
        if e == 0 {
            assert(s.take(0) =~= Seq::<u8>::empty());
            assert(lines_of(s.take(e)) =~= ls.take(0));
        } else {
            let t = s.take(e);
            assert forall|p: int| 0 <= p < t.len() implies t[p] != NL by {
                assert(t[p] == s[p]);
            }
            lemma_lines_no_nl(t);
            assert(t =~= s.subrange(0, e));
            assert(lines_of(s.take(e)) =~= ls.take(0) + seq![s.subrange(pos_of(s, 0), e)]);
        }
    } else {
        let f = first_line_len(s) as int;
        let s2 = s.skip(f);
        let e2 = e - f;
        lemma_first_line_len(s);
        lemma_cut_prefix(s2, e2);
        let j2 = cut_index(s2, e2);
        let ls2 = lines_of(s2);
        assert(ls.drop_first() =~= ls2);
        assert(j == 1 + j2);
        lemma_lines_of(s2);
        lemma_pos_of(s2);
        // Offsets in the suffix shift by the first line's length.
        assert forall|k: int| 0 <= k <= ls2.len() implies #[trigger] pos_of(s, 1 + k) == f
            + pos_of(s2, k) by {
            assert(ls.take(1 + k) =~= seq![ls[0]] + ls2.take(k));
            lemma_cat_concat(seq![ls[0]], ls2.take(k));
            lemma_cat_singleton(ls[0]);
            assert(ls[0].len() == f);
        }
        assert(pos_of(s, j) == f + pos_of(s2, j2));
        assert(pos_of(s, j) <= e);
        if j < ls.len() {
            assert(j2 < ls2.len());
            assert(e2 < pos_of(s2, j2 + 1));
            assert(pos_of(s, j + 1) == f + pos_of(s2, j2 + 1));
        }
        // Decompose the prefix itself.
        let t = s.take(e);
        lemma_first_line_len_take(s, e);
        assert(first_line_len(t) == f);
        assert(t.take(f) =~= s.take(f));
        assert(t.skip(f) =~= s2.take(e2));
        assert(lines_of(t) == seq![s.take(f)] + lines_of(s2.take(e2)));
        assert(ls.take(j) =~= seq![ls[0]] + ls2.take(j2));
        if e > pos_of(s, j) {
            assert(e2 > pos_of(s2, j2));
            assert(s2.subrange(pos_of(s2, j2), e2) =~= s.subrange(pos_of(s, j), e));
            assert(lines_of(t) =~= ls.take(j) + seq![s.subrange(pos_of(s, j), e)]);
        } else {
            assert(e2 == pos_of(s2, j2));
            assert(lines_of(t) =~= ls.take(j));
        }
    }
}

/// The byte just before a line boundary is the previous line's terminator.
pub proof fn lemma_boundary_nl(s: Seq<u8>, j: int)
    requires
        1 <= j < lines_of(s).len(),
    ensures
        s[pos_of(s, j) - 1] == NL,
        0 < pos_of(s, j) <= s.len(),
{
    lemma_lines_of(s);
    lemma_pos_of(s);
    lemma_line_at(s, j - 1);
    let l = lines_of(s)[j - 1];
    assert(l.len() >= 1);
    assert(l.last() == NL);
    assert(s.subrange(pos_of(s, j - 1), pos_of(s, j))[l.len() - 1] == s[pos_of(s, j) - 1]);
}

/// Decomposition of an arbitrary suffix: the partial tail of the line the
/// start position cuts, if any, followed by the complete lines after it.
pub proof fn lemma_cut_suffix(s: Seq<u8>, x: int)
    requires
        0 <= x <= s.len(),
    ensures
        x == pos_of(s, cut_index(s, x)) ==> lines_of(s.skip(x)) == lines_of(s).skip(
            cut_index(s, x),
        ),
        x != pos_of(s, cut_index(s, x)) ==> cut_index(s, x) < lines_of(s).len() && lines_of(
            s.skip(x),
        ) == seq![s.subrange(x, pos_of(s, cut_index(s, x) + 1))] + lines_of(s).skip(
            cut_index(s, x) + 1,
        ),
{
    let ls = lines_of(s);
    let n = ls.len() as int;
    let j0 = cut_index(s, x);
    lemma_lines_of(s);
    lemma_pos_of(s);
    lemma_cut_prefix(s, x);
    if x == pos_of(s, j0) {
        lemma_lines_boundary(s, j0);
    } else {
        assert(x > pos_of(s, j0));
        assert(j0 < n) by {
            if j0 == n {
                assert(pos_of(s, n) == s.len());
            }
        }
        let p1 = pos_of(s, j0 + 1);
        assert(x < p1);
        let frag = s.subrange(x, p1);
        let candidate = seq![frag] + ls.skip(j0 + 1);
        lemma_line_at(s, j0);
        let l = ls[j0];
        // The fragment is the tail of line `j0`.
        assert forall|p: int| 0 <= p < frag.len() implies frag[p] == l[x - pos_of(s, j0) + p] by {
            assert(frag[p] == s[x + p]);
            assert(s.subrange(pos_of(s, j0), p1)[x - pos_of(s, j0) + p] == s[x + p]);
        }
        assert(line_shaped(frag)) by {
            assert(frag.len() >= 1);
            assert forall|p: int| 0 <= p < frag.len() - 1 implies frag[p] != NL by {
                assert(frag[p] == l[x - pos_of(s, j0) + p]);
                assert(x - pos_of(s, j0) + p < l.len() - 1);
            }
        }
        assert(lines_shaped(candidate)) by {
            assert forall|k: int| 0 <= k < candidate.len() implies line_shaped(
                #[trigger] candidate[k],
            ) by {
                if k > 0 {
                    assert(candidate[k] == ls[j0 + 1 + (k - 1)]);
                }
            }
            assert forall|k: int|
                0 <= k < candidate.len() - 1 implies (#[trigger] candidate[k]).last() == NL by {
                if k == 0 {
                    assert(j0 + 1 < n);
                    assert(l.last() == NL);
                    assert(frag.last() == l[x - pos_of(s, j0) + frag.len() - 1]);
                } else {
                    assert(candidate[k] == ls[j0 + 1 + (k - 1)]);
                }
            }
        }
        lemma_cat_slice(s, j0 + 1, n);
        assert(ls.subrange(j0 + 1, n) =~= ls.skip(j0 + 1));
        lemma_cat_concat(seq![frag], ls.skip(j0 + 1));
        lemma_cat_singleton(frag);
        assert(cat(candidate) == frag + s.subrange(p1, pos_of(s, n)));
        assert(cat(candidate) =~= s.skip(x));
        lemma_lines_unique(candidate, s.skip(x));
    }
}

/// The decomposition of a byte sequence into shaped lines is unique.
pub proof fn lemma_lines_unique(ls: Seq<Seq<u8>>, s: Seq<u8>)
    requires
        lines_shaped(ls),
        cat(ls) == s,
    ensures
        ls == lines_of(s),
    decreases ls.len(),
{
    if ls.len() == 0 {
        assert(s.len() == 0);
        assert(ls =~= lines_of(s));
    } else {
        let l0 = ls[0];
        lemma_total_len_nonneg(ls.drop_first());
        assert(s =~= l0 + cat(ls.drop_first()));
        assert(s.len() >= l0.len());
        // The first line of `s` is exactly `l0`.
        assert forall|p: int| 0 <= p < l0.len() implies s[p] == l0[p] by {}
        lemma_first_line_len(s);
        let f = first_line_len(s) as int;
        if ls.len() > 1 {
            // l0 ends with NL and has no interior NL, so f == l0.len().
            assert(s[l0.len() - 1] == NL);
            assert(f <= l0.len()) by {
                if f > l0.len() {
                    assert(s[l0.len() - 1] != NL);
                }
            }
            assert(f >= l0.len()) by {
                if f < l0.len() {
                    assert(s[f - 1] == NL);
                    assert(l0[f - 1] == NL);
                }
            }
        } else {
            // Single line: s == l0.
            assert(s =~= l0);
            if l0.last() == NL {
                assert(f == l0.len()) by {
                    if f < l0.len() {
                        assert(l0[f - 1] == NL);
                    }
                }
            } else {
                assert(f == s.len()) by {
                    if f < s.len() {
                        assert(s[f - 1] == NL);
                        assert(l0[f - 1] == NL);
                    }
                }
            }
        }
        assert(f == l0.len());
        assert(s.take(f) =~= l0);
        assert(s.skip(f) =~= cat(ls.drop_first()));
        lemma_lines_unique(ls.drop_first(), s.skip(f));
        assert(ls =~= lines_of(s));
    }
}

/// The stream a window engine tiles: the file's bytes, closed by a phantom
/// terminator when the file does not end in one. Every non-empty augmented
/// stream ends with the terminator, so each of its lines carries one.
pub open spec fn aug(s: Seq<u8>) -> Seq<u8> {
    if s.len() == 0 || s.last() == NL {
        s
    } else {
        s.push(NL)
    }
}

/// A line list all of whose elements end with the terminator.
pub open spec fn all_terminated(ls: Seq<Seq<u8>>) -> bool {
    forall|k: int| 0 <= k < ls.len() ==> (#[trigger] ls[k]).len() >= 1 && ls[k].last() == NL
}

/// The same lines with their terminators stripped.
pub open spec fn strip_all(ls: Seq<Seq<u8>>) -> Seq<Seq<u8>> {
    Seq::new(ls.len(), |k: int| ls[k].drop_last())
}

/// Byte span of a list of stripped lines: each line plus its terminator.
pub open spec fn chg(ls: Seq<Seq<u8>>) -> int {
    total_len(ls) + ls.len()
}

/// What a run of stripped lines spells out on disk: each line followed by
/// the terminator.
pub open spec fn cat_nl(ls: Seq<Seq<u8>>) -> Seq<u8>
    decreases ls.len(),
{
    if ls.len() == 0 {
        Seq::empty()
    } else {
        ls[0] + seq![NL] + cat_nl(ls.drop_first())
    }
}

/// Appending one more line extends the spelled-out bytes by that line and
/// its terminator.
pub proof fn lemma_cat_nl_push(ls: Seq<Seq<u8>>, x: Seq<u8>)
    ensures
        cat_nl(ls.push(x)) == cat_nl(ls) + x + seq![NL],
    decreases ls.len(),
{
    if ls.len() == 0 {
        assert(ls.push(x).drop_first() =~= Seq::<Seq<u8>>::empty());
        assert(ls.push(x)[0] == x);
        assert(cat_nl(ls.push(x)) == x + seq![NL] + cat_nl(Seq::<Seq<u8>>::empty()));
        assert(cat_nl(ls.push(x)) =~= cat_nl(ls) + x + seq![NL]);
    } else {
        assert(ls.push(x).drop_first() =~= ls.drop_first().push(x));
        lemma_cat_nl_push(ls.drop_first(), x);
        assert(ls.push(x)[0] == ls[0]);
        assert(cat_nl(ls.push(x)) == ls[0] + seq![NL] + cat_nl(ls.drop_first().push(x)));
        assert(cat_nl(ls.push(x)) =~= cat_nl(ls) + x + seq![NL]);
    }
}

/// Every line of a terminator-closed stream carries its terminator.
pub proof fn lemma_lines_of_terminated(s: Seq<u8>)
    requires
        s.len() == 0 || s.last() == NL,
    ensures
        all_terminated(lines_of(s)),
    decreases s.len(),
{
    lemma_lines_of(s);
    if s.len() > 0 {
        let ls = lines_of(s);
        assert forall|k: int|
            0 <= k < ls.len() implies (#[trigger] ls[k]).len() >= 1 && ls[k].last() == NL by {
            if k == ls.len() - 1 {
                assert(ls.last().last() == s.last());
            }
        }
    }
}

/// Stripping terminators shortens each line by one byte.
pub proof fn lemma_total_len_strip(ls: Seq<Seq<u8>>)
    requires
        all_terminated(ls),
    ensures
        total_len(strip_all(ls)) == total_len(ls) - ls.len(),
        chg(strip_all(ls)) == total_len(ls),
    decreases ls.len(),
{
    if ls.len() == 0 {
        assert(strip_all(ls) =~= Seq::<Seq<u8>>::empty());
    } else {
        assert(strip_all(ls).drop_first() =~= strip_all(ls.drop_first()));
        lemma_total_len_strip(ls.drop_first());
        assert(strip_all(ls)[0] == ls[0].drop_last());
        assert(total_len(strip_all(ls)) == strip_all(ls)[0].len() + total_len(
            strip_all(ls).drop_first(),
        ));
    }
}

/// Re-terminating stripped lines restores the stream bytes.
pub proof fn lemma_cat_nl_strip(ls: Seq<Seq<u8>>)
    requires
        all_terminated(ls),
    ensures
        cat_nl(strip_all(ls)) == cat(ls),
    decreases ls.len(),
{
    if ls.len() == 0 {
        assert(strip_all(ls) =~= Seq::<Seq<u8>>::empty());
    } else {
        assert(strip_all(ls).drop_first() =~= strip_all(ls.drop_first()));
        lemma_cat_nl_strip(ls.drop_first());
        assert(strip_all(ls)[0] == ls[0].drop_last());
        assert(ls[0].drop_last() + seq![NL] =~= ls[0]);
        assert(cat_nl(strip_all(ls)) == ls[0].drop_last() + seq![NL] + cat_nl(
            strip_all(ls.drop_first()),
        ));
        assert(cat_nl(strip_all(ls)) =~= cat(ls));
    }
}

/// A subrange of the augmented stream: inside the real bytes it is a
/// subrange of them; reaching one past their end it picks up the phantom
/// terminator.
pub proof fn lemma_aug_subrange(s: Seq<u8>, x: int, y: int)
    requires
        0 <= x <= y <= aug(s).len(),
    ensures
        y <= s.len() ==> aug(s).subrange(x, y) == s.subrange(x, y),
        y > s.len() && x <= s.len() ==> aug(s).subrange(x, y) == s.subrange(x, s.len() as int)
            + seq![NL],
{
    if y <= s.len() {
        assert(aug(s).subrange(x, y) =~= s.subrange(x, y));
    } else if x > s.len() {
    } else {
        if s.len() == 0 || s.last() == NL {
            assert(aug(s) == s);
            assert(false);
        }
        assert(aug(s) == s.push(NL));
        assert(y == s.len() + 1);
        assert forall|i: int|
            0 <= i < y - x implies aug(s).subrange(x, y)[i] == (s.subrange(x, s.len() as int)
            + seq![NL])[i] by {
            if x + i < s.len() {
                assert(aug(s)[x + i] == s[x + i]);
            } else {
                assert(aug(s)[x + i] == NL);
            }
        }
        assert(aug(s).subrange(x, y) =~= s.subrange(x, s.len() as int) + seq![NL]);
    }
}

} // verus!
