//! One log file under the viewer's window engine. The file's bytes are held
//! as a value; the engine reads them in bounded chunks next to the window's
//! cursors, splits the chunks into lines, discards the partial fragments that
//! a chunk boundary cuts, and keeps the window a contiguous, byte-accurate
//! run of whole lines.

use vstd::prelude::*;

use crate::direction::ShiftDirection;
use crate::lines::{
    all_terminated, aug, cat, cat_nl, chg, cut_index, first_line_len, lemma_aug_subrange,
    lemma_boundary_nl, lemma_cat_nl_strip, lemma_cat_slice, lemma_cut_prefix, lemma_cut_suffix,
    lemma_deep_push, lemma_deep_remove_front, lemma_deep_view, lemma_first_line_len,
    lemma_lines_boundary, lemma_lines_of, lemma_lines_of_terminated, lemma_lines_unique,
    lemma_pos_of, lemma_total_len_nonneg, lemma_total_len_strip, lines_of, lines_shaped,
    line_shaped, pos_of, strip_all, total_len, NL,
};
use crate::log_window::nl_free;
use crate::log_window::LogWindow;
use crate::timestamp::Timestamp;

verus! {

/// Size of the chunks read next to a cursor before splitting into lines.
pub const READ_CHUNK_SIZE_BYTES: u64 = 1000;

/// No further whole line can be read rightward from line boundary `j`: the
/// stream's end, or a line too long to fit a read chunk.
pub open spec fn stuck_right(s: Seq<u8>, j: int) -> bool {
    ||| j == lines_of(s).len()
    ||| (pos_of(s, j) + READ_CHUNK_SIZE_BYTES < s.len() && pos_of(s, j + 1) >= pos_of(s, j)
        + READ_CHUNK_SIZE_BYTES)
}

/// No further whole line can be read leftward from line boundary `i`.
pub open spec fn stuck_left(s: Seq<u8>, i: int) -> bool {
    ||| i == 0
    ||| (pos_of(s, i) > READ_CHUNK_SIZE_BYTES && pos_of(s, i) - pos_of(s, i - 1)
        > READ_CHUNK_SIZE_BYTES)
}

/// Copy of the byte range `[a, b)` of `v`.
pub(crate) fn subvec(v: &Vec<u8>, a: usize, b: usize) -> (r: Vec<u8>)
    requires
        a <= b <= v@.len(),
    ensures
        r@ == v@.subrange(a as int, b as int),
{
    let mut r: Vec<u8> = Vec::new();
    let mut i: usize = a;
    while i < b
        invariant
            a <= i <= b <= v@.len(),
            r@ == v@.subrange(a as int, i as int),
        decreases b - i,
    {
        r.push(v[i]);
        i = i + 1;
        proof {
            assert(r@ =~= v@.subrange(a as int, i as int));
        }
    }
    r
}

/// Split a buffer into its lines, each line keeping its terminator.
fn split_lines(buf: &Vec<u8>) -> (r: Vec<Vec<u8>>)
    ensures
        r.deep_view() == lines_of(buf@),
{
    let mut done: Vec<Vec<u8>> = Vec::new();
    let mut cur: Vec<u8> = Vec::new();
    let mut i: usize = 0;
    proof {
        assert(done.deep_view() =~= Seq::<Seq<u8>>::empty());
        assert(cur@ =~= Seq::<u8>::empty());
        assert(cat(done.deep_view()) + cur@ =~= buf@.take(0));
    }
    while i < buf.len()
        invariant
            i <= buf@.len(),
            cat(done.deep_view()) + cur@ == buf@.take(i as int),
            forall|k: int|
                0 <= k < done.deep_view().len() ==> line_shaped(#[trigger] done.deep_view()[k])
                    && done.deep_view()[k].last() == NL,
            forall|p: int| 0 <= p < cur@.len() ==> cur@[p] != NL,
        decreases buf@.len() - i,
    {
        let b = buf[i];
        let ghost prev_done = done;
        let ghost prev_cur = cur;
        cur.push(b);
        if b == NL {
            let full = cur;
            cur = Vec::new();
            done.push(full);
            proof {
                lemma_deep_push(prev_done, done, full);
                crate::lines::lemma_cat_push(prev_done.deep_view(), full@);
                assert(full@ =~= prev_cur@.push(b));
                assert(cur@ =~= Seq::<u8>::empty());
                assert(buf@.take(i + 1) =~= buf@.take(i as int).push(b));
                assert(cat(done.deep_view()) + cur@ =~= buf@.take(i + 1));
                assert(line_shaped(full@));
            }
        } else {
            proof {
                assert(cur@ =~= prev_cur@.push(b));
                assert(buf@.take(i + 1) =~= buf@.take(i as int).push(b));
                assert(cat(done.deep_view()) + cur@ =~= buf@.take(i + 1));
            }
        }
        i = i + 1;
    }
    proof {
        assert(buf@.take(buf@.len() as int) =~= buf@);
    }
    let ghost pre = done;
    if cur.len() > 0 {
        done.push(cur);
        proof {
            lemma_deep_push(pre, done, cur);
            crate::lines::lemma_cat_push(pre.deep_view(), cur@);
        }
    }
    proof {
        let d = done.deep_view();
        assert(cat(d) == buf@);
        assert(lines_shaped(d)) by {
            if cur@.len() > 0 {
                assert forall|k: int| 0 <= k < d.len() implies line_shaped(#[trigger] d[k]) by {
                    if k < d.len() - 1 {
                        assert(d[k] == pre.deep_view()[k]);
                    }
                }
                assert forall|k: int| 0 <= k < d.len() - 1 implies (#[trigger] d[k]).last()
                    == NL by {
                    assert(d[k] == pre.deep_view()[k]);
                }
            }
        }
        lemma_lines_unique(d, buf@);
    }
    done
}

/// Keep only the first `num_lines` elements of a run of lines anchored at
/// line `j` of `ls`.
fn truncate_first(fr: Vec<Vec<u8>>, num_lines: usize, Ghost(ls): Ghost<Seq<Seq<u8>>>, Ghost(
    j,
): Ghost<int>) -> (r: Vec<Vec<u8>>)
    requires
        0 <= j,
        j + fr.deep_view().len() <= ls.len(),
        fr.deep_view() == ls.subrange(j, j + fr.deep_view().len()),
    ensures
        r.deep_view().len() == (if fr.deep_view().len() <= num_lines {
            fr.deep_view().len() as int
        } else {
            num_lines as int
        }),
        r.deep_view() == ls.subrange(j, j + r.deep_view().len()),
{
    let ghost orig = fr.deep_view().len() as int;
    let mut fr = fr;
    while fr.len() > num_lines
        invariant
            0 <= j,
            j + fr.deep_view().len() <= ls.len(),
            fr.deep_view() == ls.subrange(j, j + fr.deep_view().len()),
            orig <= num_lines ==> fr.deep_view().len() == orig,
            orig > num_lines ==> num_lines <= fr.deep_view().len() <= orig,
        decreases fr.len(),
    {
        let ghost pre = fr;
        let x = fr.pop().unwrap();
        proof {
            lemma_deep_view(pre);
            crate::lines::lemma_deep_drop_last(pre, fr, x);
            let ll = pre.deep_view().len() as int;
            assert(pre.deep_view() == ls.subrange(j, j + ll));
            assert(fr.deep_view() == pre.deep_view().take(ll - 1));
            assert forall|q: int|
                0 <= q < ll - 1 implies fr.deep_view()[q] == ls.subrange(j, j + (ll - 1))[q] by {
                assert(fr.deep_view()[q] == pre.deep_view()[q]);
                assert(pre.deep_view()[q] == ls.subrange(j, j + ll)[q]);
            }
            assert(fr.deep_view() =~= ls.subrange(j, j + (ll - 1)));
        }
    }
    proof {
        lemma_deep_view(fr);
    }
    fr
}

/// Keep only the last `num_lines` elements of a run of lines ending at line
/// `i` of `ls`.
fn truncate_last(fr: Vec<Vec<u8>>, num_lines: usize, Ghost(ls): Ghost<Seq<Seq<u8>>>, Ghost(
    i,
): Ghost<int>) -> (r: Vec<Vec<u8>>)
    requires
        0 <= i - fr.deep_view().len(),
        i <= ls.len(),
        fr.deep_view() == ls.subrange(i - fr.deep_view().len(), i),
    ensures
        r.deep_view().len() == (if fr.deep_view().len() <= num_lines {
            fr.deep_view().len() as int
        } else {
            num_lines as int
        }),
        r.deep_view() == ls.subrange(i - r.deep_view().len(), i),
{
    let ghost orig = fr.deep_view().len() as int;
    let mut fr = fr;
    while fr.len() > num_lines
        invariant
            0 <= i - fr.deep_view().len(),
            i <= ls.len(),
            fr.deep_view() == ls.subrange(i - fr.deep_view().len(), i),
            orig <= num_lines ==> fr.deep_view().len() == orig,
            orig > num_lines ==> num_lines <= fr.deep_view().len() <= orig,
        decreases fr.len(),
    {
        let ghost pre = fr;
        let x = fr.remove(0);
        proof {
            lemma_deep_view(pre);
            lemma_deep_remove_front(pre, fr, x);
            let ll = pre.deep_view().len() as int;
            assert(pre.deep_view() == ls.subrange(i - ll, i));
            assert(fr.deep_view() == pre.deep_view().skip(1));
            assert forall|q: int|
                0 <= q < ll - 1 implies fr.deep_view()[q] == ls.subrange(i - (ll - 1), i)[q] by {
                assert(fr.deep_view()[q] == pre.deep_view()[q + 1]);
                assert(pre.deep_view()[q + 1] == ls.subrange(i - ll, i)[q + 1]);
            }
            assert(fr.deep_view() =~= ls.subrange(i - (ll - 1), i));
        }
    }
    proof {
        lemma_deep_view(fr);
    }
    fr
}

/// The span and bytes of a stripped run of lines `[x, y)` of a
/// terminator-closed stream.
proof fn lemma_span(s: Seq<u8>, x: int, y: int)
    requires
        s.len() == 0 || s.last() == NL,
        0 <= x <= y <= lines_of(s).len(),
    ensures
        all_terminated(lines_of(s).subrange(x, y)),
        chg(strip_all(lines_of(s).subrange(x, y))) == pos_of(s, y) - pos_of(s, x),
        cat(lines_of(s).subrange(x, y)) == s.subrange(pos_of(s, x), pos_of(s, y)),
{
    lemma_lines_of_terminated(s);
    let sub = lines_of(s).subrange(x, y);
    assert(all_terminated(sub)) by {
        assert forall|q: int|
            0 <= q < sub.len() implies (#[trigger] sub[q]).len() >= 1 && sub[q].last() == NL by {
            assert(sub[q] == lines_of(s)[x + q]);
        }
    }
    lemma_total_len_strip(sub);
    lemma_cat_slice(s, x, y);
}

/// Stripping shaped lines leaves no terminator behind.
proof fn lemma_strip_nl_free(ls: Seq<Seq<u8>>)
    requires
        forall|k: int| 0 <= k < ls.len() ==> line_shaped(#[trigger] ls[k]),
    ensures
        nl_free(strip_all(ls)),
{
    assert forall|k: int, p: int|
        0 <= k < strip_all(ls).len() && 0 <= p < strip_all(ls)[k].len() implies #[trigger] strip_all(
        ls,
    )[k][p] != NL by {
        assert(strip_all(ls)[k] == ls[k].drop_last());
        assert(strip_all(ls)[k][p] == ls[k][p]);
    }
}

/// One log file with its window. The construction hands over the file's
/// bytes; the rotation stamp orders rotated siblings.
pub struct RotatedLogFile {
    pub file_path: String,
    pub timestamp: Timestamp,
    pub content: Vec<u8>,
    pub opened: bool,
    pub file_len: u64,
    pub window: LogWindow,
    pub bounds: Ghost<(int, int)>,
}

impl RotatedLogFile {
    /// The file's bytes.
    pub open spec fn s(self) -> Seq<u8> {
        self.content@
    }

    /// The stream the window tiles: the file's bytes, closed by a phantom
    /// terminator when the file does not end in one.
    pub open spec fn a(self) -> Seq<u8> {
        aug(self.content@)
    }

    /// The file's lines, terminators included; the last line's terminator
    /// may be the phantom one.
    pub open spec fn ls(self) -> Seq<Seq<u8>> {
        lines_of(aug(self.content@))
    }

    /// Number of lines of the file.
    pub open spec fn n(self) -> int {
        lines_of(aug(self.content@)).len() as int
    }

    /// Index of the first line inside the window.
    pub open spec fn lo(self) -> int {
        self.bounds@.0
    }

    /// Index one past the last line inside the window.
    pub open spec fn hi(self) -> int {
        self.bounds@.1
    }

    pub open spec fn win(self) -> Seq<Seq<u8>> {
        self.window.lines.deep_view()
    }

    pub open spec fn start(self) -> int {
        self.window.start_cursor as int
    }

    pub open spec fn end(self) -> int {
        self.window.end_cursor as int
    }

    /// Every line of the file fits strictly inside one read chunk, so a
    /// read stops only at the stream's edges, never at a line it cannot
    /// span.
    pub open spec fn short_lined(self) -> bool {
        forall|k: int| 0 <= k < self.n() ==> (#[trigger] self.ls()[k]).len() < READ_CHUNK_SIZE_BYTES
    }

    /// Under short lines the only leftward obstruction is the stream start.
    pub proof fn lemma_short_stuck_left(self, i: int)
        requires
            self.short_lined(),
            0 <= i <= self.n(),
            stuck_left(self.a(), i),
        ensures
            i == 0,
    {
        if i >= 1 {
            lemma_pos_of(self.a());
            assert(self.ls()[i - 1].len() < READ_CHUNK_SIZE_BYTES);
            assert(pos_of(self.a(), (i - 1) + 1) == pos_of(self.a(), i - 1) + lines_of(
                self.a(),
            )[i - 1].len());
        }
    }

    /// Under short lines the only rightward obstruction is the stream end.
    pub proof fn lemma_short_stuck_right(self, j: int)
        requires
            self.short_lined(),
            0 <= j <= self.n(),
            stuck_right(self.a(), j),
        ensures
            j == self.n(),
    {
        if j < self.n() {
            lemma_pos_of(self.a());
            assert(self.ls()[j].len() < READ_CHUNK_SIZE_BYTES);
            assert(pos_of(self.a(), j + 1) == pos_of(self.a(), j) + lines_of(self.a())[j].len());
        }
    }

    /// The window is a contiguous run of whole lines of the file, and the
    /// cursors are the byte offsets of that run's boundaries.
    pub open spec fn wf(self) -> bool {
        &&& self.window.wf()
        &&& 0 <= self.lo() <= self.hi() <= self.n()
        &&& self.win() == strip_all(self.ls().subrange(self.lo(), self.hi()))
        &&& self.start() == pos_of(self.a(), self.lo())
        &&& self.end() == pos_of(self.a(), self.hi())
        &&& self.opened ==> self.file_len == self.s().len()
        &&& self.s().len() < usize::MAX
    }

    /// The concatenation law: each window line followed by its terminator
    /// concatenates to exactly the byte range `[start_cursor, end_cursor)`
    /// of the stream; `end_cursor` may sit one byte past the file's end,
    /// where the phantom terminator closes an unterminated last line.
    pub open spec fn concat_law(self) -> bool {
        cat_nl(self.win()) == self.a().subrange(self.start(), self.end())
    }

    /// Every well-formed window satisfies the concatenation law; while the
    /// window stays inside the file's real bytes the law reads on them
    /// directly.
    pub proof fn lemma_concat_law(self)
        requires
            self.wf(),
        ensures
            self.concat_law(),
            0 <= self.start() <= self.end() <= self.s().len() + 1,
            self.end() <= self.s().len() ==> cat_nl(self.win()) == self.s().subrange(
                self.start(),
                self.end(),
            ),
    {
        lemma_pos_of(self.a());
        lemma_cat_slice(self.a(), self.lo(), self.hi());
        lemma_lines_of_terminated(self.a());
        let sub = self.ls().subrange(self.lo(), self.hi());
        assert(all_terminated(sub)) by {
            assert forall|k: int|
                0 <= k < sub.len() implies (#[trigger] sub[k]).len() >= 1 && sub[k].last()
                == NL by {
                assert(sub[k] == self.ls()[self.lo() + k]);
            }
        }
        lemma_cat_nl_strip(sub);
        lemma_aug_subrange(self.s(), self.start(), self.end());
    }

    pub fn new(file_path: String, timestamp: Timestamp, content: Vec<u8>) -> (r: RotatedLogFile)
        requires
            content@.len() < usize::MAX,
        ensures
            r.wf(),
            r.s() == content@,
            r.timestamp == timestamp,
            r.lo() == 0,
            r.hi() == 0,
            r.win() == Seq::<Seq<u8>>::empty(),
            r.start() == 0,
            r.end() == 0,
    {
        let r = RotatedLogFile {
            file_path,
            timestamp,
            content,
            opened: false,
            file_len: 0,
            window: LogWindow::new(),
            bounds: Ghost((0int, 0int)),
        };
        proof {
            lemma_pos_of(r.a());
            assert(strip_all(r.ls().subrange(0, 0)) =~= Seq::<Seq<u8>>::empty());
            assert(pos_of(r.a(), 0) == 0);
        }
        r
    }

    pub fn timestamp(&self) -> (r: &Timestamp)
        ensures
            r == &self.timestamp,
    {
        &self.timestamp
    }

    pub fn file_path(&self) -> (r: &String)
        ensures
            r == &self.file_path,
    {
        &self.file_path
    }

    /// The lines currently inside the window.
    pub fn lines(&self) -> (r: &Vec<Vec<u8>>)
        ensures
            r == &self.window.lines,
            r.deep_view() == self.win(),
    {
        self.window.lines()
    }

    pub fn len(&self) -> (r: usize)
        ensures
            r == self.win().len(),
    {
        proof {
            lemma_deep_view(self.window.lines);
        }
        self.window.len()
    }

    /// Empty the window and move the cursors to the file's start.
    pub fn reset(&mut self)
        requires
            old(self).wf(),
        ensures
            final(self).wf(),
            final(self).s() == old(self).s(),
            final(self).timestamp == old(self).timestamp,
            final(self).file_path == old(self).file_path,
            final(self).lo() == 0,
            final(self).hi() == 0,
            final(self).win() == Seq::<Seq<u8>>::empty(),
            final(self).start() == 0,
            final(self).end() == 0,
    {
        self.window.reset();
        proof {
            self.bounds@ = (0int, 0int);
            lemma_pos_of(self.a());
            assert(strip_all(self.ls().subrange(0, 0)) =~= Seq::<Seq<u8>>::empty());
        }
    }

    fn open_log_file(&mut self)
        requires
            old(self).wf(),
        ensures
            final(self).wf(),
            *final(self) == (RotatedLogFile {
                opened: true,
                file_len: old(self).s().len() as u64,
                ..*old(self)
            }),
    {
        self.opened = true;
        self.file_len = self.content.len() as u64;
    }

    /// Drop the final byte — the terminator — of every line.
    fn strip_lines(v: Vec<Vec<u8>>) -> (r: Vec<Vec<u8>>)
        requires
            forall|k: int|
                0 <= k < v.deep_view().len() ==> (#[trigger] v.deep_view()[k]).len() >= 1,
        ensures
            r.deep_view() == strip_all(v.deep_view()),
            r@.len() == v@.len(),
    {
        let ghost vd = v.deep_view();
        let mut out: Vec<Vec<u8>> = Vec::new();
        let mut k: usize = 0;
        proof {
            lemma_deep_view(v);
            assert(out.deep_view() =~= strip_all(vd.take(0)));
        }
        while k < v.len()
            invariant
                k <= v@.len(),
                vd == v.deep_view(),
                vd.len() == v@.len(),
                forall|q: int| 0 <= q < vd.len() ==> (#[trigger] vd[q]).len() >= 1,
                forall|q: int| 0 <= q < v@.len() ==> #[trigger] v@[q]@ == vd[q],
                out.deep_view() == strip_all(vd.take(k as int)),
                out@.len() == k,
            decreases v@.len() - k,
        {
            let line = &v[k];
            let stripped = subvec(line, 0, line.len() - 1);
            let ghost pre = out;
            out.push(stripped);
            proof {
                lemma_deep_push(pre, out, stripped);
                assert(stripped@ =~= vd[k as int].drop_last());
                assert(out.deep_view() =~= strip_all(vd.take(k + 1)));
            }
            k = k + 1;
        }
        proof {
            assert(vd.take(vd.len() as int) =~= vd);
        }
        out
    }

    /// One past the last tileable byte of the stream: the file's length,
    /// plus one for the phantom terminator when the file does not end in
    /// one.
    fn stream_end(&self) -> (r: usize)
        requires
            self.s().len() < usize::MAX,
        ensures
            r == aug(self.s()).len(),
    {
        let n = self.content.len();
        if n == 0 {
            0
        } else if self.content[n - 1] == NL {
            n
        } else {
            n + 1
        }
    }

    /// Read the chunk `[a, ce)` of the stream: its real bytes, completed by
    /// the phantom terminator when the chunk reaches one past the file's
    /// end.
    fn read_chunk(&self, a: usize, ce: usize) -> (r: Vec<u8>)
        requires
            self.s().len() < usize::MAX,
            a <= self.s().len(),
            a <= ce <= aug(self.s()).len(),
        ensures
            r@ == aug(self.s()).subrange(a as int, ce as int),
    {
        let len_total = self.content.len();
        let mut buf = subvec(
            &self.content,
            a,
            if ce > len_total {
                len_total
            } else {
                ce
            },
        );
        if ce > len_total {
            buf.push(NL);
        }
        proof {
            lemma_aug_subrange(self.s(), a as int, ce as int);
            assert(buf@ =~= aug(self.s()).subrange(a as int, ce as int));
        }
        buf
    }

    /// Read the next whole lines to the right of the window: at most one
    /// chunk of bytes, split into lines, the partial fragments that the chunk
    /// boundaries cut dropped, truncated to the first `num_lines` lines. An
    /// empty result means the cursor is stuck on that side.
    #[verifier::rlimit(100)]
    fn read_lines_right(&self, num_lines: usize) -> (r: Vec<Vec<u8>>)
        requires
            self.wf(),
            num_lines >= 1,
        ensures
            self.hi() + r@.len() <= self.n(),
            r.deep_view() == self.ls().subrange(self.hi(), self.hi() + r@.len()),
            r@.len() <= num_lines,
            r@.len() == 0 <==> stuck_right(self.a(), self.hi()),
    {
        let ghost s = self.a();
        let ghost ls = self.ls();
        let ghost n = self.n();
        let ghost j = self.hi();
        proof {
            lemma_lines_of(s);
            lemma_pos_of(s);
        }
        let c = self.window.end_cursor();
        let aug_us = self.stream_end();
        if c >= aug_us as u64 {
            proof {
                assert(pos_of(s, j) == s.len());
                if j < n {
                    assert(pos_of(s, j + 1) <= pos_of(s, n));
                    assert(pos_of(s, j + 1) == pos_of(s, j) + ls[j].len());
                    assert(ls[j].len() >= 1);
                }
                assert(j == n);
            }
            let r: Vec<Vec<u8>> = Vec::new();
            proof {
                assert(r.deep_view() =~= Seq::<Seq<u8>>::empty());
                assert(r.deep_view() =~= ls.subrange(j, j));
            }
            return r;
        }
        proof {
            // The cursor is strictly inside the file, so more lines follow.
            assert(c as int == pos_of(s, j));
            assert(pos_of(s, j) < s.len());
            assert(j < n) by {
                if j == n {
                    assert(pos_of(s, n) == s.len());
                }
            }
        }
        let cu: usize = c as usize;
        proof {
            assert(cu as int == pos_of(s, j));
        }
        let ce: usize = if aug_us - cu > 1000 {
            cu + 1000
        } else {
            aug_us
        };
        let ext = cu > 0;
        let a: usize = if ext {
            cu - 1
        } else {
            0
        };
        let buf = self.read_chunk(a, ce);
        let mut fr = split_lines(&buf);
        let ghost s2 = s.skip(cu as int);
        let ghost e2: int = ce - cu;
        let ghost j2 = cut_index(s2, e2);
        proof {
            lemma_lines_boundary(s, j);
            lemma_lines_of(s2);
            lemma_pos_of(s2);
            lemma_cut_prefix(s2, e2);
            assert(lines_of(s2) == ls.skip(j));
            // Offsets within the suffix shift by the cut position.
            assert forall|k: int| 0 <= k <= n - j implies #[trigger] pos_of(s2, k) == pos_of(
                s,
                j + k,
            ) - pos_of(s, j) by {
                assert(lines_of(s2).take(k) =~= ls.subrange(j, j + k));
                lemma_cat_slice(s, j, j + k);
            }
            assert(0 <= j2 <= n - j);
            if ext {
                lemma_boundary_nl(s, j);
                assert(buf@[0] == s[cu - 1]);
                assert(buf@[0] == NL);
                lemma_first_line_len(buf@);
                assert(first_line_len(buf@) == 1);
                assert(buf@.take(1) =~= seq![NL]);
                assert(buf@.skip(1) =~= s2.take(e2));
                assert(lines_of(buf@) == seq![seq![NL]] + lines_of(s2.take(e2)));
            } else {
                assert(cu == 0);
                assert(buf@ =~= s2.take(e2));
            }
        }
        if ext {
            proof {
                lemma_deep_view(fr);
                assert(lines_of(buf@).len() >= 1);
            }
            let ghost pre = fr;
            let first = fr.remove(0);
            proof {
                lemma_deep_remove_front(pre, fr, first);
                assert(fr.deep_view() =~= lines_of(s2.take(e2)));
            }
        }
        proof {
            assert(fr.deep_view() == lines_of(s2.take(e2)));
            assert(lines_of(s2.take(e2)) == lines_of(s2).take(j2) + (if e2 > pos_of(s2, j2) {
                seq![s2.subrange(pos_of(s2, j2), e2)]
            } else {
                Seq::<Seq<u8>>::empty()
            }));
            assert(lines_of(s2).take(j2) =~= ls.subrange(j, j + j2));
        }
        let ghost whole = j + j2;
        let ghost frag_present = e2 > pos_of(s2, j2);
        if ce < aug_us {
            if fr.len() > 0 {
                let ghost pre = fr;
                let popped = fr.pop().unwrap();
                proof {
                    crate::lines::lemma_deep_drop_last(pre, fr, popped);
                    if frag_present {
                        // The popped element was the partial head of the line
                        // the chunk end cuts.
                        assert(pre.deep_view() =~= ls.subrange(j, whole) + seq![
                            s2.subrange(pos_of(s2, j2), e2),
                        ]);
                        assert(fr.deep_view() =~= ls.subrange(j, whole));
                    } else {
                        // The chunk ends at a boundary; the popped element is a
                        // whole line that the next round reads again.
                        assert(pre.deep_view() =~= ls.subrange(j, whole));
                        assert(j2 >= 1) by {
                            if j2 == 0 {
                                assert(pos_of(s2, 0) == 0);
                            }
                        }
                        assert(fr.deep_view() =~= ls.subrange(j, whole - 1));
                    }
                }
            } else {
                proof {
                    lemma_deep_view(fr);
                    assert(!frag_present);
                    assert(j2 == 0) by {
                        assert(ls.subrange(j, j + j2).len() == j2);
                    }
                }
            }
        }
        let ghost kept0 = fr.deep_view().len() as int;
        proof {
            lemma_deep_view(fr);
            assert(fr.deep_view() == ls.subrange(j, j + kept0));
            if ce < aug_us {
                assert((ce - cu) as int == READ_CHUNK_SIZE_BYTES);
                assert(pos_of(s, j) + READ_CHUNK_SIZE_BYTES < s.len());
                if kept0 == 0 {
                    if frag_present {
                        assert(j2 == 0);
                        assert(e2 < pos_of(s2, j2 + 1));
                        assert(pos_of(s2, 1) > 0);
                        assert(pos_of(s2, 1) >= e2) by {
                            if pos_of(s2, 1) < e2 {
                                assert(pos_of(s2, cut_index(s2, e2)) <= e2);
                            }
                        }
                        assert(pos_of(s, j + 1) >= pos_of(s, j) + READ_CHUNK_SIZE_BYTES);
                    } else {
                        assert(j2 == 1 || j2 == 0);
                        if j2 == 0 {
                            assert(e2 == pos_of(s2, 0));
                            assert(e2 == 0);
                            assert(false);
                        }
                        assert(e2 == pos_of(s2, 1));
                        assert(pos_of(s, j + 1) == pos_of(s, j) + READ_CHUNK_SIZE_BYTES);
                    }
                    assert(stuck_right(s, j));
                } else {
                    assert(whole >= j + 1 || (frag_present && kept0 == j2));
                    assert(pos_of(s2, 1) <= e2);
                    assert(pos_of(s, j + 1) < pos_of(s, j) + READ_CHUNK_SIZE_BYTES || pos_of(
                        s,
                        j + 1,
                    ) == pos_of(s2, 1) + pos_of(s, j));
                    assert(!stuck_right(s, j)) by {
                        if pos_of(s, j + 1) >= pos_of(s, j) + READ_CHUNK_SIZE_BYTES {
                            assert(pos_of(s2, 1) >= e2);
                            if frag_present {
                                assert(j2 == 0 || pos_of(s2, j2) >= pos_of(s2, 1));
                                assert(j2 == 0);
                                assert(kept0 == 0);
                            } else {
                                assert(j2 <= 1);
                                assert(kept0 <= 0);
                            }
                        }
                    }
                }
            } else {
                assert(ce == aug_us);
                assert(e2 == s2.len());
                assert(j2 == n - j);
                assert(e2 == pos_of(s2, j2));
                assert(!frag_present);
                assert(kept0 == n - j);
                assert(kept0 >= 1) by {
                    assert(pos_of(s, j) < pos_of(s, n));
                    assert(pos_of(s, j + 1) == pos_of(s, j) + ls[j].len());
                }
                assert(!stuck_right(s, j));
            }
        }
        let fr = truncate_first(fr, num_lines, Ghost(ls), Ghost(j));
        proof {
            lemma_deep_view(fr);
        }
        fr
    }

    /// Read the next whole lines to the left of the window, truncated to the
    /// last `num_lines` lines. An empty result means the cursor is stuck.
    #[verifier::rlimit(100)]
    fn read_lines_left(&self, num_lines: usize) -> (r: Vec<Vec<u8>>)
        requires
            self.wf(),
            num_lines >= 1,
        ensures
            r@.len() <= self.lo(),
            r.deep_view() == self.ls().subrange(self.lo() - r@.len(), self.lo()),
            r@.len() <= num_lines,
            r@.len() == 0 <==> stuck_left(self.a(), self.lo()),
    {
        let ghost s = self.a();
        let ghost ls = self.ls();
        let ghost n = self.n();
        let ghost i = self.lo();
        proof {
            lemma_lines_of(s);
            lemma_pos_of(s);
        }
        let b = self.window.start_cursor();
        if b == 0 {
            proof {
                assert(pos_of(s, i) == 0);
                assert(i == 0) by {
                    if i >= 1 {
                        assert(pos_of(s, 1) <= pos_of(s, i));
                        assert(pos_of(s, 1) == pos_of(s, 0) + ls[0].len());
                        assert(ls[0].len() >= 1);
                    }
                }
            }
            let r: Vec<Vec<u8>> = Vec::new();
            proof {
                assert(r.deep_view() =~= Seq::<Seq<u8>>::empty());
                assert(r.deep_view() =~= ls.subrange(0, 0));
            }
            return r;
        }
        let aug_us = self.stream_end();
        proof {
            assert(aug_us == s.len());
            assert(b as int == pos_of(s, i));
            assert(b as int <= s.len());
            assert(i >= 1) by {
                if i == 0 {
                    assert(pos_of(s, 0) == 0);
                }
            }
        }
        let bu: usize = b as usize;
        proof {
            assert(bu as int == pos_of(s, i));
        }
        let a0: usize = if bu > 1000 {
            bu - 1000
        } else {
            0
        };
        let ext = a0 > 0;
        let a: usize = if ext {
            a0 - 1
        } else {
            0
        };
        let buf = self.read_chunk(a, bu);
        let mut fr = split_lines(&buf);
        let ghost t = s.take(bu as int);
        let ghost j0 = cut_index(t, a as int);
        proof {
            lemma_lines_boundary(s, i);
            assert(lines_of(t) == ls.take(i));
            lemma_lines_of(t);
            lemma_pos_of(t);
            lemma_cut_prefix(t, a as int);
            lemma_cut_suffix(t, a as int);
            // Offsets agree between the prefix and the whole file.
            assert forall|k: int| 0 <= k <= i implies #[trigger] pos_of(t, k) == pos_of(s, k) by {
                assert(lines_of(t).take(k) =~= ls.take(i).take(k));
                assert(ls.take(i).take(k) =~= ls.take(k));
            }
            assert(buf@ =~= t.skip(a as int));
            assert(0 <= j0 <= i);
        }
        let ghost m: int = if ext {
            j0 + 1
        } else {
            0
        };
        if ext {
            proof {
                assert(pos_of(t, j0) <= a as int);
                assert(j0 < i) by {
                    if j0 == i {
                        assert(pos_of(t, i) == t.len());
                    }
                }
                if a as int == pos_of(t, j0) {
                    assert(lines_of(buf@) == lines_of(t).skip(j0));
                    assert(lines_of(t).skip(j0) =~= seq![ls[j0]] + ls.subrange(j0 + 1, i));
                } else {
                    assert(lines_of(buf@) == seq![t.subrange(a as int, pos_of(t, j0 + 1))]
                        + lines_of(t).skip(j0 + 1));
                    assert(lines_of(t).skip(j0 + 1) =~= ls.subrange(j0 + 1, i));
                }
                assert(lines_of(buf@).len() >= 1);
                lemma_deep_view(fr);
            }
            let ghost pre = fr;
            let first = fr.remove(0);
            proof {
                lemma_deep_remove_front(pre, fr, first);
                assert(fr.deep_view() =~= ls.subrange(j0 + 1, i));
            }
        } else {
            proof {
                assert(a == 0);
                assert(buf@ =~= t);
                assert(fr.deep_view() == lines_of(t));
                assert(fr.deep_view() =~= ls.subrange(0, i));
            }
        }
        proof {
            assert(fr.deep_view() == ls.subrange(m, i));
            lemma_deep_view(fr);
            // Relate the harvest to the stuck predicate.
            if ext {
                assert(bu as int - 1000 > 0);
                assert(pos_of(s, i) > READ_CHUNK_SIZE_BYTES);
                if m == i {
                    assert(j0 == i - 1);
                    assert(pos_of(s, i - 1) <= a as int);
                    assert(pos_of(s, i) - pos_of(s, i - 1) > READ_CHUNK_SIZE_BYTES);
                    assert(stuck_left(s, i));
                } else {
                    assert(j0 + 1 < i);
                    assert((a as int) < pos_of(t, j0 + 1));
                    assert(pos_of(s, i - 1) >= pos_of(s, j0 + 1));
                    assert(pos_of(s, j0 + 1) > a as int);
                    assert(pos_of(s, i) - pos_of(s, i - 1) <= READ_CHUNK_SIZE_BYTES);
                    assert(!stuck_left(s, i));
                }
            } else {
                assert(pos_of(s, i) <= READ_CHUNK_SIZE_BYTES);
                assert(m < i);
                assert(!stuck_left(s, i));
            }
        }
        let fr = truncate_last(fr, num_lines, Ghost(ls), Ghost(i));
        proof {
            lemma_deep_view(fr);
            assert(fr.deep_view() == ls.subrange(i - fr.deep_view().len(), i));
        }
        fr
    }

    /// Read whole lines adjacent to the window's cursor on the `direction`
    /// side, at most `num_lines` of them.
    fn read_lines(&self, direction: ShiftDirection, num_lines: usize) -> (r: Vec<Vec<u8>>)
        requires
            self.wf(),
            num_lines >= 1,
        ensures
            direction == ShiftDirection::Right ==> {
                &&& self.hi() + r@.len() <= self.n()
                &&& r.deep_view() == self.ls().subrange(self.hi(), self.hi() + r@.len())
                &&& r@.len() <= num_lines
                &&& (r@.len() == 0 <==> stuck_right(self.a(), self.hi()))
            },
            direction == ShiftDirection::Left ==> {
                &&& r@.len() <= self.lo()
                &&& r.deep_view() == self.ls().subrange(self.lo() - r@.len(), self.lo())
                &&& r@.len() <= num_lines
                &&& (r@.len() == 0 <==> stuck_left(self.a(), self.lo()))
            },
    {
        match direction {
            ShiftDirection::Right => self.read_lines_right(num_lines),
            ShiftDirection::Left => self.read_lines_left(num_lines),
        }
    }


    /// The window can take no more lines toward `direction` under window
    /// size `w`: either it already holds `w` lines, or its edge cursor can
    /// read no further.
    pub open spec fn saturated(self, direction: ShiftDirection, w: int) -> bool {
        ||| self.hi() - self.lo() == w
        ||| (self.hi() - self.lo() < w && (match direction {
            ShiftDirection::Right => stuck_right(self.a(), self.hi()),
            ShiftDirection::Left => stuck_left(self.a(), self.lo()),
        }))
    }

    /// Everything `read_and_shift` leaves untouched, plus well-formedness.
    pub open spec fn frame(self, post: RotatedLogFile) -> bool {
        &&& post.wf()
        &&& post.s() == self.s()
        &&& post.timestamp == self.timestamp
        &&& post.file_path == self.file_path
    }

    #[verifier::rlimit(100)]
    fn read_and_shift_right(&mut self, window_size_lines: usize, shift_len: usize) -> (r: (
        usize,
        usize,
    ))
        requires
            old(self).wf(),
            window_size_lines + shift_len <= usize::MAX,
        ensures
            old(self).frame(*final(self)),
            r.0 == final(self).hi() - final(self).lo(),
            r.0 == final(self).win().len(),
            ({
                let i0 = old(self).lo();
                let j0 = old(self).hi();
                let total = window_size_lines + shift_len;
                let jm0 = if j0 - i0 > total {
                    i0 + total
                } else {
                    j0
                };
                &&& final(self).lo() >= i0
                &&& jm0 <= final(self).hi() <= i0 + total
                &&& (final(self).hi() - i0 == total || (j0 - i0 < total && stuck_right(
                    aug(old(self).s()),
                    final(self).hi(),
                )))
                &&& r.1 == (if shift_len <= final(self).hi() - i0 {
                    shift_len as int
                } else {
                    final(self).hi() - i0
                })
                &&& final(self).lo() == i0 + r.1
            }),
            shift_len == 0 && old(self).saturated(ShiftDirection::Right, window_size_lines as int)
                ==> final(self).lo() == old(self).lo() && final(self).hi() == old(self).hi()
                && final(self).win() == old(self).win() && final(self).start() == old(self).start()
                && final(self).end() == old(self).end() && r.1 == 0,
            old(self).start() == aug(old(self).s()).len() ==> r.1 == 0 && final(self).start()
                == aug(old(self).s()).len() && final(self).end() == aug(old(self).s()).len(),
    {
        let ghost orig = *self;
        let ghost s = self.a();
        let ghost ls = self.ls();
        let ghost n = self.n();
        let ghost i0 = self.lo();
        let ghost j0 = self.hi();
        proof {
            lemma_lines_of(s);
            lemma_pos_of(s);
        }
        let total = window_size_lines + shift_len;
        let have = self.window.len();
        proof {
            lemma_deep_view(self.window.lines);
            assert(have == j0 - i0);
        }
        if have > total {
            let excess = have - total;
            let ghost prewin = self.window;
            let empty_append: Vec<Vec<u8>> = Vec::new();
            proof {
                assert(empty_append.deep_view() =~= Seq::<Seq<u8>>::empty());
            }
            let popped = self.window.shift(ShiftDirection::Left, excess, empty_append);
            proof {
                lemma_total_len_nonneg(Seq::<Seq<u8>>::empty());
                assert(popped == excess);
                self.bounds@ = (i0, i0 + total);
                assert(prewin.lines.deep_view().take(have - excess) =~= strip_all(
                    ls.subrange(i0, i0 + total),
                ));
                assert(Seq::<Seq<u8>>::empty() + prewin.lines.deep_view().take(have - excess)
                    =~= prewin.lines.deep_view().take(have - excess));
                assert(prewin.lines.deep_view().skip(have - excess) =~= strip_all(
                    ls.subrange(i0 + total, j0),
                ));
                lemma_span(s, i0 + total, j0);
                lemma_span(s, i0, i0 + total);
                assert(self.end() == pos_of(s, i0 + total));
            }
        }
        if !self.opened {
            self.open_log_file();
        }
        let content_len = self.content.len();
        proof {
            assert(s.len() <= content_len + 1);
        }
        let mut need = total - self.window.len();
        let mut stop = false;
        proof {
            lemma_deep_view(self.window.lines);
        }
        while need > 0 && !stop
            invariant
                self.wf(),
                self.a() == s,
                self.s() == orig.s(),
                s.len() <= usize::MAX,
                orig.a() == s,
                orig.lo() == i0,
                orig.hi() == j0,
                total == window_size_lines + shift_len,
                self.timestamp == orig.timestamp,
                self.file_path == orig.file_path,
                ls == lines_of(s),
                n == ls.len(),
                self.lo() == i0,
                need == total - (self.hi() - self.lo()),
                self.hi() <= i0 + total,
                self.hi() >= (if j0 - i0 > total {
                    i0 + total
                } else {
                    j0
                }),
                stop ==> stuck_right(s, self.hi()),
                stop ==> j0 - i0 < total,
                shift_len == 0 && orig.saturated(ShiftDirection::Right, window_size_lines as int)
                    ==> self.lo() == orig.lo() && self.hi() == orig.hi() && self.win()
                    == orig.win() && self.start() == orig.start() && self.end() == orig.end(),
            decreases need + (if stop {
                0int
            } else {
                1int
            }),
        {
            let kept = self.read_lines(ShiftDirection::Right, need);
            if kept.len() == 0 {
                if self.window.len() == 0 {
                    self.opened = false;
                }
                stop = true;
            } else {
                let klen = kept.len();
                let ghost kd_inc = kept.deep_view();
                let ghost prewin = self.window;
                let ghost jcur = self.hi();
                proof {
                    lemma_lines_of(s);
                    lemma_pos_of(s);
                    if shift_len == 0 && orig.saturated(
                        ShiftDirection::Right,
                        window_size_lines as int,
                    ) {
                        // A saturated window reads nothing, so this branch
                        // cannot be reached.
                        assert(self.hi() == orig.hi());
                        assert(self.hi() - self.lo() < window_size_lines);
                        assert(stuck_right(s, self.hi()));
                        assert(kept@.len() == 0);
                        assert(false);
                    }
                    lemma_deep_view(kept);
                    lemma_span(s, jcur, jcur + klen);
                    assert(pos_of(s, jcur + klen) <= s.len());
                    assert forall|q: int|
                        0 <= q < kd_inc.len() implies (#[trigger] kd_inc[q]).len() >= 1 by {
                        assert(kd_inc[q] == ls.subrange(jcur, jcur + klen)[q]);
                    }
                    lemma_strip_nl_free(ls.subrange(jcur, jcur + klen));
                }
                let kept = Self::strip_lines(kept);
                let ghost kd = kept.deep_view();
                proof {
                    assert(kd == strip_all(kd_inc));
                    assert(chg(kd) == pos_of(s, jcur + klen) - pos_of(s, jcur));
                    assert(nl_free(kd));
                }
                self.window.shift(ShiftDirection::Right, 0, kept);
                proof {
                    self.bounds@ = (i0, jcur + klen);
                    assert(prewin.lines.deep_view().skip(0) =~= prewin.lines.deep_view());
                    assert(prewin.lines.deep_view() + kd =~= strip_all(
                        ls.subrange(i0, jcur + klen),
                    ));
                    assert(prewin.lines.deep_view().take(0) =~= Seq::<Seq<u8>>::empty());
                    assert(self.end() == pos_of(s, jcur + klen));
                }
                need = need - klen;
            }
        }
        let ghost prewin = self.window;
        let ghost jfin = self.hi();
        let empty_append: Vec<Vec<u8>> = Vec::new();
        proof {
            assert(empty_append.deep_view() =~= Seq::<Seq<u8>>::empty());
        }
        let lines_shifted = self.window.shift(ShiftDirection::Right, shift_len, empty_append);
        proof {
            lemma_total_len_nonneg(Seq::<Seq<u8>>::empty());
            let p = lines_shifted as int;
            assert(p == (if shift_len <= jfin - i0 {
                shift_len as int
            } else {
                jfin - i0
            }));
            self.bounds@ = (i0 + p, jfin);
            assert(prewin.lines.deep_view().skip(p) + Seq::<Seq<u8>>::empty() =~= strip_all(
                ls.subrange(i0 + p, jfin),
            ));
            lemma_span(s, i0, i0 + p);
            assert(prewin.lines.deep_view().take(p) =~= strip_all(ls.subrange(i0, i0 + p)));
            assert(self.start() == pos_of(s, i0 + p));
            lemma_deep_view(self.window.lines);
            if orig.start() == s.len() {
                assert(pos_of(s, orig.lo()) == s.len());
                assert(orig.lo() == n) by {
                    if orig.lo() < n {
                        assert(pos_of(s, orig.lo() + 1) <= pos_of(s, n));
                        assert(pos_of(s, orig.lo() + 1) == pos_of(s, orig.lo()) + ls[orig.lo()].len());
                        assert(ls[orig.lo()].len() >= 1);
                    }
                }
                assert(i0 == n && j0 == n);
                assert(jfin == n);
                assert(self.start() == pos_of(s, n));
            }
        }
        (self.window.len(), lines_shifted)
    }

    #[verifier::rlimit(100)]
    fn read_and_shift_left(&mut self, window_size_lines: usize, shift_len: usize) -> (r: (
        usize,
        usize,
    ))
        requires
            old(self).wf(),
            window_size_lines + shift_len <= usize::MAX,
        ensures
            old(self).frame(*final(self)),
            r.0 == final(self).hi() - final(self).lo(),
            r.0 == final(self).win().len(),
            ({
                let i0 = old(self).lo();
                let j0 = old(self).hi();
                let total = window_size_lines + shift_len;
                let im0 = if j0 - i0 > total {
                    j0 - total
                } else {
                    i0
                };
                &&& final(self).hi() <= j0
                &&& j0 - total <= final(self).lo() <= im0
                &&& (j0 - final(self).lo() == total || (j0 - i0 < total && stuck_left(
                    aug(old(self).s()),
                    final(self).lo(),
                )))
                &&& r.1 == (if shift_len <= j0 - final(self).lo() {
                    shift_len as int
                } else {
                    j0 - final(self).lo()
                })
                &&& final(self).hi() == j0 - r.1
            }),
            shift_len == 0 && old(self).saturated(ShiftDirection::Left, window_size_lines as int)
                ==> final(self).lo() == old(self).lo() && final(self).hi() == old(self).hi()
                && final(self).win() == old(self).win() && final(self).start() == old(self).start()
                && final(self).end() == old(self).end() && r.1 == 0,
            old(self).end() == 0 ==> r.1 == 0 && final(self).start() == 0 && final(self).end()
                == 0,
    {
        let ghost orig = *self;
        let ghost s = self.a();
        let ghost ls = self.ls();
        let ghost n = self.n();
        let ghost i0 = self.lo();
        let ghost j0 = self.hi();
        proof {
            lemma_lines_of(s);
            lemma_pos_of(s);
        }
        let total = window_size_lines + shift_len;
        let have = self.window.len();
        proof {
            lemma_deep_view(self.window.lines);
            assert(have == j0 - i0);
        }
        if have > total {
            let excess = have - total;
            let ghost prewin = self.window;
            let empty_append: Vec<Vec<u8>> = Vec::new();
            proof {
                assert(empty_append.deep_view() =~= Seq::<Seq<u8>>::empty());
                lemma_total_len_nonneg(Seq::<Seq<u8>>::empty());
            }
            let popped = self.window.shift(ShiftDirection::Right, excess, empty_append);
            proof {
                assert(popped == excess);
                self.bounds@ = (j0 - total, j0);
                assert(prewin.lines.deep_view().skip(excess as int) + Seq::<Seq<u8>>::empty()
                    =~= strip_all(ls.subrange(j0 - total, j0)));
                assert(prewin.lines.deep_view().take(excess as int) =~= strip_all(
                    ls.subrange(i0, j0 - total),
                ));
                lemma_span(s, i0, j0 - total);
                assert(self.start() == pos_of(s, j0 - total));
            }
        }
        if !self.opened {
            self.open_log_file();
        }
        let content_len = self.content.len();
        proof {
            assert(s.len() <= content_len + 1);
        }
        let mut need = total - self.window.len();
        let mut stop = false;
        proof {
            lemma_deep_view(self.window.lines);
        }
        while need > 0 && !stop
            invariant
                self.wf(),
                self.a() == s,
                self.s() == orig.s(),
                s.len() <= usize::MAX,
                orig.a() == s,
                orig.lo() == i0,
                orig.hi() == j0,
                total == window_size_lines + shift_len,
                self.timestamp == orig.timestamp,
                self.file_path == orig.file_path,
                ls == lines_of(s),
                n == ls.len(),
                self.hi() == (if j0 - i0 > total {
                    j0
                } else {
                    j0
                }),
                need == total - (self.hi() - self.lo()),
                self.lo() >= j0 - total,
                self.lo() <= (if j0 - i0 > total {
                    j0 - total
                } else {
                    i0
                }),
                stop ==> stuck_left(s, self.lo()),
                stop ==> j0 - i0 < total,
                shift_len == 0 && orig.saturated(ShiftDirection::Left, window_size_lines as int)
                    ==> self.lo() == orig.lo() && self.hi() == orig.hi() && self.win()
                    == orig.win() && self.start() == orig.start() && self.end() == orig.end(),
            decreases need + (if stop {
                0int
            } else {
                1int
            }),
        {
            let kept = self.read_lines(ShiftDirection::Left, need);
            if kept.len() == 0 {
                if self.window.len() == 0 {
                    self.opened = false;
                }
                stop = true;
            } else {
                let klen = kept.len();
                let ghost kd_inc = kept.deep_view();
                let ghost prewin = self.window;
                let ghost icur = self.lo();
                proof {
                    lemma_lines_of(s);
                    lemma_pos_of(s);
                    if shift_len == 0 && orig.saturated(
                        ShiftDirection::Left,
                        window_size_lines as int,
                    ) {
                        // A saturated window reads nothing, so this branch
                        // cannot be reached.
                        assert(self.lo() == orig.lo());
                        assert(self.hi() - self.lo() < window_size_lines);
                        assert(stuck_left(s, self.lo()));
                        assert(kept@.len() == 0);
                        assert(false);
                    }
                    lemma_deep_view(kept);
                    lemma_span(s, icur - klen, icur);
                    assert(pos_of(s, icur - klen) >= 0);
                    assert forall|q: int|
                        0 <= q < kd_inc.len() implies (#[trigger] kd_inc[q]).len() >= 1 by {
                        assert(kd_inc[q] == ls.subrange(icur - klen, icur)[q]);
                    }
                    lemma_strip_nl_free(ls.subrange(icur - klen, icur));
                }
                let kept = Self::strip_lines(kept);
                let ghost kd = kept.deep_view();
                proof {
                    assert(kd == strip_all(kd_inc));
                    assert(chg(kd) == pos_of(s, icur) - pos_of(s, icur - klen));
                    assert(nl_free(kd));
                }
                self.window.shift(ShiftDirection::Left, 0, kept);
                proof {
                    self.bounds@ = (icur - klen, self.hi());
                    assert(prewin.lines.deep_view().take(prewin.lines.deep_view().len() as int)
                        =~= prewin.lines.deep_view());
                    assert(kd + prewin.lines.deep_view() =~= strip_all(
                        ls.subrange(icur - klen, j0),
                    ));
                    assert(prewin.lines.deep_view().skip(prewin.lines.deep_view().len() as int)
                        =~= Seq::<Seq<u8>>::empty());
                    assert(self.start() == pos_of(s, icur - klen));
                }
                need = need - klen;
            }
        }
        let ghost prewin = self.window;
        let ghost ifin = self.lo();
        let empty_append: Vec<Vec<u8>> = Vec::new();
        proof {
            assert(empty_append.deep_view() =~= Seq::<Seq<u8>>::empty());
            lemma_total_len_nonneg(Seq::<Seq<u8>>::empty());
        }
        let lines_shifted = self.window.shift(ShiftDirection::Left, shift_len, empty_append);
        proof {
            let p = lines_shifted as int;
            assert(p == (if shift_len <= j0 - ifin {
                shift_len as int
            } else {
                j0 - ifin
            }));
            self.bounds@ = (ifin, j0 - p);
            assert(Seq::<Seq<u8>>::empty() + prewin.lines.deep_view().take(j0 - ifin - p)
                =~= strip_all(ls.subrange(ifin, j0 - p)));
            lemma_span(s, j0 - p, j0);
            assert(prewin.lines.deep_view().skip(j0 - ifin - p) =~= strip_all(
                ls.subrange(j0 - p, j0),
            ));
            assert(self.end() == pos_of(s, j0 - p));
            lemma_deep_view(self.window.lines);
            if orig.end() == 0 {
                assert(pos_of(s, orig.hi()) == 0);
                assert(orig.hi() == 0) by {
                    if orig.hi() >= 1 {
                        assert(pos_of(s, 1) <= pos_of(s, orig.hi()));
                        assert(pos_of(s, 1) == pos_of(s, 0) + ls[0].len());
                        assert(ls[0].len() >= 1);
                    }
                }
                assert(i0 == 0 && j0 == 0);
                assert(ifin == 0);
            }
        }
        (self.window.len(), lines_shifted)
    }

    /// Move the window by `shift_len` lines toward `direction`, first
    /// reading enough adjacent whole lines to hold `window_size_lines` lines
    /// after the move, shrinking first if the window holds more. Returns the
    /// window's line count after the call and how many lines were actually
    /// shifted; fewer than `shift_len` are shifted only where the file's
    /// edge, or an unreadable stretch, is reached.
    pub fn read_and_shift(&mut self, direction: ShiftDirection, window_size_lines: usize,
        shift_len: usize) -> (r: (usize, usize))
        requires
            old(self).wf(),
            window_size_lines + shift_len <= usize::MAX,
        ensures
            old(self).frame(*final(self)),
            r.0 == final(self).hi() - final(self).lo(),
            r.0 == final(self).win().len(),
            r.1 <= shift_len,
            direction == ShiftDirection::Right ==> ({
                let i0 = old(self).lo();
                let j0 = old(self).hi();
                let total = window_size_lines + shift_len;
                let jm0 = if j0 - i0 > total {
                    i0 + total
                } else {
                    j0
                };
                &&& final(self).lo() >= i0
                &&& jm0 <= final(self).hi() <= i0 + total
                &&& (final(self).hi() - i0 == total || (j0 - i0 < total && stuck_right(
                    aug(old(self).s()),
                    final(self).hi(),
                )))
                &&& r.1 == (if shift_len <= final(self).hi() - i0 {
                    shift_len as int
                } else {
                    final(self).hi() - i0
                })
                &&& final(self).lo() == i0 + r.1
            }),
            direction == ShiftDirection::Left ==> ({
                let i0 = old(self).lo();
                let j0 = old(self).hi();
                let total = window_size_lines + shift_len;
                let im0 = if j0 - i0 > total {
                    j0 - total
                } else {
                    i0
                };
                &&& final(self).hi() <= j0
                &&& j0 - total <= final(self).lo() <= im0
                &&& (j0 - final(self).lo() == total || (j0 - i0 < total && stuck_left(
                    aug(old(self).s()),
                    final(self).lo(),
                )))
                &&& r.1 == (if shift_len <= j0 - final(self).lo() {
                    shift_len as int
                } else {
                    j0 - final(self).lo()
                })
                &&& final(self).hi() == j0 - r.1
            }),
            shift_len == 0 && old(self).saturated(direction, window_size_lines as int) ==> final(self).lo() == old(self).lo() && final(self).hi() == old(self).hi() && final(self).win()
                == old(self).win() && final(self).start() == old(self).start() && final(self).end()
                == old(self).end() && r.1 == 0,
            direction == ShiftDirection::Left && old(self).end() == 0 ==> r.1 == 0 && final(self).start() == 0 && final(self).end() == 0,
            direction == ShiftDirection::Right && old(self).start() == aug(old(self).s()).len()
                ==> r.1 == 0 && final(self).start() == aug(old(self).s()).len()
                && final(self).end() == aug(old(self).s()).len(),
    {
        match direction {
            ShiftDirection::Right => self.read_and_shift_right(window_size_lines, shift_len),
            ShiftDirection::Left => self.read_and_shift_left(window_size_lines, shift_len),
        }
    }

    /// Empty the window and park both cursors one past the stream's last
    /// tileable byte, so that the next leftward read starts from the last
    /// line. For a file that does not end in a terminator — every line of
    /// it rendered complete only through the phantom one — that is
    /// `file_len + 1`; for a terminator-closed file it is `file_len`, past
    /// which no line starts.
    pub fn rev(&mut self)
        requires
            old(self).wf(),
        ensures
            final(self).wf(),
            final(self).s() == old(self).s(),
            final(self).timestamp == old(self).timestamp,
            final(self).file_path == old(self).file_path,
            final(self).lo() == final(self).n(),
            final(self).hi() == final(self).n(),
            final(self).win() == Seq::<Seq<u8>>::empty(),
            final(self).start() == aug(old(self).s()).len(),
            final(self).end() == aug(old(self).s()).len(),
            old(self).s().len() > 0 && old(self).s().last() != NL ==> final(self).start() == old(
                self,
            ).s().len() + 1 && final(self).end() == old(self).s().len() + 1,
    {
        if !self.opened {
            self.open_log_file();
        }
        let e = self.stream_end();
        self.window.rev(e as u64);
        proof {
            self.bounds@ = (self.n(), self.n());
            lemma_pos_of(self.a());
            lemma_lines_of(self.a());
            assert(strip_all(self.ls().subrange(self.n(), self.n())) =~= Seq::<Seq<u8>>::empty());
        }
    }
}

/// The live log file under the viewer: the same engine as a rotated file,
/// with the epoch as its stamp so it orders after every rotated sibling.
pub struct LiveLogFile {
    pub inner: RotatedLogFile,
}

impl LiveLogFile {
    pub fn new(file_path: String, content: Vec<u8>) -> (r: LiveLogFile)
        requires
            content@.len() < usize::MAX,
        ensures
            r.inner.wf(),
            r.inner.s() == content@,
            r.inner.win() == Seq::<Seq<u8>>::empty(),
    {
        let epoch = Timestamp { year: 1970, month: 1, day: 1, hour: 0, minute: 0, second: 0, millis: 0 };
        LiveLogFile { inner: RotatedLogFile::new(file_path, epoch, content) }
    }

    /// Empty the window and park the cursors at the file's end.
    pub fn rev(&mut self)
        requires
            old(self).inner.wf(),
        ensures
            final(self).inner.wf(),
            final(self).inner.s() == old(self).inner.s(),
            final(self).inner.win() == Seq::<Seq<u8>>::empty(),
            final(self).inner.start() == aug(old(self).inner.s()).len(),
            final(self).inner.end() == aug(old(self).inner.s()).len(),
    {
        self.inner.rev();
    }

    /// The wrapped window engine.
    pub fn file(&mut self) -> (r: &mut RotatedLogFile)
        ensures
            *r == old(self).inner,
            final(self).inner == *final(r),
    {
        &mut self.inner
    }

    pub fn lines(&self) -> (r: &Vec<Vec<u8>>)
        ensures
            r.deep_view() == self.inner.win(),
    {
        self.inner.lines()
    }
}

} // verus!
