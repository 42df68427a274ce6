//! The window buffer of one log file: a run of lines together with the byte
//! cursors that delimit the run inside the stream. Lines are stored without
//! their terminators; every line dropped or appended charges the cursors
//! its length plus one for the terminator — the phantom one at the stream's
//! end included — so `[start_cursor, end_cursor)` always measures exactly
//! the lines in the window.

use vstd::prelude::*;

use crate::direction::ShiftDirection;
use crate::lines::{chg, lemma_cat_concat, lemma_cat_push, lemma_total_len_nonneg, NL};

verus! {

/// No stored line contains a terminator.
pub open spec fn nl_free(ls: Seq<Seq<u8>>) -> bool {
    forall|k: int, p: int| 0 <= k < ls.len() && 0 <= p < ls[k].len() ==> #[trigger] ls[k][p] != NL
}

/// A window over a byte stream. `lines` holds consecutive lines, stripped
/// of their terminators; the cursors are byte offsets with
/// `end_cursor - start_cursor` equal to the lines' span, one terminator per
/// line included.
pub struct LogWindow {
    /// Byte offset of the first spanned byte.
    pub start_cursor: u64,
    /// Byte offset one past the last spanned byte.
    pub end_cursor: u64,
    /// The lines inside the window.
    pub lines: Vec<Vec<u8>>,
}

impl LogWindow {
    /// Cursor coherence: the window spans exactly its lines, each charged
    /// its length plus one, and no line holds a terminator.
    pub open spec fn wf(self) -> bool {
        &&& self.start_cursor <= self.end_cursor
        &&& self.end_cursor - self.start_cursor == chg(self.lines.deep_view())
        &&& nl_free(self.lines.deep_view())
    }

    pub fn new() -> (r: LogWindow)
        ensures
            r.wf(),
            r.start_cursor == 0,
            r.end_cursor == 0,
            r.lines.deep_view() == Seq::<Seq<u8>>::empty(),
    {
        let r = LogWindow { start_cursor: 0, end_cursor: 0, lines: Vec::new() };
        proof {
            assert(r.lines.deep_view() =~= Seq::<Seq<u8>>::empty());
        }
        r
    }

    /// Empty the window and move both cursors back to the stream start.
    pub fn reset(&mut self)
        ensures
            final(self).wf(),
            final(self).start_cursor == 0,
            final(self).end_cursor == 0,
            final(self).lines.deep_view() == Seq::<Seq<u8>>::empty(),
    {
        self.start_cursor = 0;
        self.end_cursor = 0;
        self.lines = Vec::new();
        proof {
            assert(self.lines.deep_view() =~= Seq::<Seq<u8>>::empty());
        }
    }

    /// Empty the window and park both cursors at `end_pos`.
    pub fn rev(&mut self, end_pos: u64)
        ensures
            final(self).wf(),
            final(self).start_cursor == end_pos,
            final(self).end_cursor == end_pos,
            final(self).lines.deep_view() == Seq::<Seq<u8>>::empty(),
    {
        self.start_cursor = end_pos;
        self.end_cursor = end_pos;
        self.lines = Vec::new();
        proof {
            assert(self.lines.deep_view() =~= Seq::<Seq<u8>>::empty());
        }
    }

    pub fn start_cursor(&self) -> (r: u64)
        ensures
            r == self.start_cursor,
    {
        self.start_cursor
    }

    pub fn end_cursor(&self) -> (r: u64)
        ensures
            r == self.end_cursor,
    {
        self.end_cursor
    }

    pub fn lines(&self) -> (r: &Vec<Vec<u8>>)
        ensures
            r == &self.lines,
    {
        &self.lines
    }

    pub fn len(&self) -> (r: usize)
        ensures
            r == self.lines.len(),
    {
        self.lines.len()
    }

    /// Drop up to `shift_len` lines from the near end of the window, then
    /// append `append_lines` on the far end; `Left` treats the start side as
    /// far, `Right` the end side. Cursors are charged the byte length plus
    /// one of every line dropped or appended. Returns how many lines were
    /// actually dropped.
    pub fn shift(&mut self, direction: ShiftDirection, shift_len: usize, append_lines: Vec<
        Vec<u8>,
    >) -> (r: usize)
        requires
            old(self).wf(),
            nl_free(append_lines.deep_view()),
            direction == ShiftDirection::Left ==> chg(append_lines.deep_view()) <= old(
                self,
            ).start_cursor,
            direction == ShiftDirection::Right ==> old(self).end_cursor + chg(
                append_lines.deep_view(),
            ) <= u64::MAX,
        ensures
            final(self).wf(),
            r == (if shift_len <= old(self).lines.len() {
                shift_len as int
            } else {
                old(self).lines.len() as int
            }),
            direction == ShiftDirection::Left ==> {
                &&& final(self).lines.deep_view() == append_lines.deep_view() + old(
                    self,
                ).lines.deep_view().take(old(self).lines.len() - r)
                &&& final(self).start_cursor == old(self).start_cursor - chg(
                    append_lines.deep_view(),
                )
                &&& final(self).end_cursor == old(self).end_cursor - chg(
                    old(self).lines.deep_view().skip(old(self).lines.len() - r),
                )
            },
            direction == ShiftDirection::Right ==> {
                &&& final(self).lines.deep_view() == old(self).lines.deep_view().skip(r as int)
                    + append_lines.deep_view()
                &&& final(self).start_cursor == old(self).start_cursor + chg(
                    old(self).lines.deep_view().take(r as int),
                )
                &&& final(self).end_cursor == old(self).end_cursor + chg(
                    append_lines.deep_view(),
                )
            },
    {
        let ghost orig = *self;
        let ghost app_vec = append_lines;
        let ghost app = append_lines.deep_view();
        let mut total_shifted: usize = 0;
        match direction {
            ShiftDirection::Left => {
                while total_shifted < shift_len && self.lines.len() > 0
                    invariant
                        total_shifted <= shift_len,
                        total_shifted <= orig.lines.len(),
                        total_shifted < shift_len ==> self.lines.len() == orig.lines.len()
                            - total_shifted,
                        self.lines.len() >= orig.lines.len() - total_shifted,
                        self.lines.deep_view() == orig.lines.deep_view().take(
                            orig.lines.len() - total_shifted,
                        ),
                        self.start_cursor == orig.start_cursor,
                        self.end_cursor == orig.end_cursor - chg(
                            orig.lines.deep_view().skip(orig.lines.len() - total_shifted),
                        ),
                        self.wf(),
                        orig.wf(),
                    decreases shift_len - total_shifted,
                {
                    let ghost prev = self.lines;
                    let ghost od = orig.lines.deep_view();
                    let ghost k = orig.lines.len() - total_shifted;
                    let line = self.lines.pop().unwrap();
                    proof {
                        crate::lines::lemma_deep_drop_last(prev, self.lines, line);
                        assert(prev.deep_view() == od.take(k as int));
                        assert(prev@.len() == k);
                        assert(od.take(k as int).take(k - 1) =~= od.take(k - 1));
                        assert(self.lines.deep_view() =~= od.take(k - 1));
                        assert(line@ == od.take(k as int)[k - 1]);
                        assert(line@ == od[k - 1]);
                        assert(od.skip(k - 1) =~= seq![od[k - 1]] + od.skip(k as int));
                        lemma_cat_concat(seq![od[k - 1]], od.skip(k as int));
                        crate::lines::lemma_cat_singleton(od[k - 1]);
                        lemma_total_len_nonneg(od.skip(k as int));
                        // The whole window measures at least the popped line.
                        assert(od.take(k as int) =~= od.take(k - 1).push(od[k - 1]));
                        lemma_cat_push(od.take(k - 1), od[k - 1]);
                        lemma_total_len_nonneg(od.take(k - 1));
                    }
                    self.end_cursor = self.end_cursor - (line.len() as u64 + 1);
                    total_shifted = total_shifted + 1;
                }
                proof {
                    if total_shifted < shift_len {
                        assert(self.lines.len() == 0);
                        assert(orig.lines.len() - total_shifted == 0);
                    }
                    lemma_total_len_nonneg(app);
                }
                let ghost popped = *self;
                let mut appended: u64 = 0;
                let mut i: usize = 0;
                while i < append_lines.len()
                    invariant
                        i <= append_lines.len(),
                        app == append_lines.deep_view(),
                        appended == chg(app.take(i as int)),
                        chg(app) <= orig.start_cursor,
                        appended <= chg(app),
                    decreases append_lines.len() - i,
                {
                    proof {
                        crate::lines::lemma_deep_view(append_lines);
                        assert(app.take(i + 1) =~= app.take(i as int).push(app[i as int]));
                        lemma_cat_push(app.take(i as int), app[i as int]);
                        assert(app =~= app.take(i + 1) + app.skip(i + 1));
                        lemma_cat_concat(app.take(i + 1), app.skip(i + 1));
                        lemma_total_len_nonneg(app.skip(i + 1));
                        lemma_total_len_nonneg(app.take(i as int));
                        assert(append_lines@[i as int]@ == app[i as int]);
                    }
                    appended = appended + (append_lines[i].len() as u64 + 1);
                    i = i + 1;
                }
                proof {
                    assert(app.take(append_lines.len() as int) =~= app);
                }
                self.start_cursor = self.start_cursor - appended;
                let ghost kept = self.lines;
                let mut new_lines = append_lines;
                new_lines.append(&mut self.lines);
                self.lines = new_lines;
                proof {
                    crate::lines::lemma_deep_concat(app_vec, kept, self.lines);
                    assert(kept.deep_view() == popped.lines.deep_view());
                    assert(self.lines.deep_view() =~= app + popped.lines.deep_view());
                    lemma_cat_concat(app, popped.lines.deep_view());
                    lemma_total_len_nonneg(popped.lines.deep_view());
                }
            },
            ShiftDirection::Right => {
                while total_shifted < shift_len && self.lines.len() > 0
                    invariant
                        total_shifted <= shift_len,
                        total_shifted <= orig.lines.len(),
                        total_shifted < shift_len ==> self.lines.len() == orig.lines.len()
                            - total_shifted,
                        self.lines.len() >= orig.lines.len() - total_shifted,
                        self.lines.deep_view() == orig.lines.deep_view().skip(
                            total_shifted as int,
                        ),
                        self.end_cursor == orig.end_cursor,
                        self.start_cursor == orig.start_cursor + chg(
                            orig.lines.deep_view().take(total_shifted as int),
                        ),
                        self.wf(),
                        orig.wf(),
                    decreases shift_len - total_shifted,
                {
                    let ghost prev = self.lines;
                    let ghost od = orig.lines.deep_view();
                    let ghost t = total_shifted as int;
                    let line = self.lines.remove(0);
                    proof {
                        crate::lines::lemma_deep_remove_front(prev, self.lines, line);
                        assert(prev.deep_view() == od.skip(t));
                        assert(od.skip(t).skip(1) =~= od.skip(t + 1));
                        assert(self.lines.deep_view() =~= od.skip(t + 1));
                        assert(line@ == od.skip(t)[0]);
                        assert(line@ == od[t]);
                        assert(od.skip(t) =~= seq![od[t]] + od.skip(t + 1));
                        lemma_cat_concat(seq![od[t]], od.skip(t + 1));
                        crate::lines::lemma_cat_singleton(od[t]);
                        assert(od.take(t + 1) =~= od.take(t).push(od[t]));
                        lemma_cat_push(od.take(t), od[t]);
                        lemma_total_len_nonneg(od.skip(t + 1));
                        lemma_total_len_nonneg(od.take(t));
                    }
                    self.start_cursor = self.start_cursor + (line.len() as u64 + 1);
                    total_shifted = total_shifted + 1;
                }
                proof {
                    if total_shifted < shift_len {
                        assert(self.lines.len() == 0);
                        assert(orig.lines.len() - total_shifted == 0);
                    }
                }
                let ghost popped = *self;
                proof {
                    assert(self.lines.deep_view() =~= popped.lines.deep_view() + app.take(0));
                    lemma_total_len_nonneg(app.take(0));
                    assert(app.take(0) =~= Seq::<Seq<u8>>::empty());
                }
                let mut rest = append_lines;
                let ghost mut done: int = 0;
                while rest.len() > 0
                    invariant
                        0 <= done <= app.len(),
                        done + rest.len() == app.len(),
                        rest.deep_view() == app.skip(done),
                        self.lines.deep_view() == popped.lines.deep_view() + app.take(done),
                        self.start_cursor == popped.start_cursor,
                        self.end_cursor == popped.end_cursor + chg(app.take(done)),
                        self.wf(),
                        nl_free(app),
                        popped.end_cursor + chg(app) <= u64::MAX,
                    decreases rest.len(),
                {
                    let ghost prev = rest;
                    let line = rest.remove(0);
                    proof {
                        crate::lines::lemma_deep_remove_front(prev, rest, line);
                        assert(prev.deep_view() == app.skip(done));
                        assert(line@ == app.skip(done)[0]);
                        assert(line@ == app[done]);
                        assert(app.skip(done).skip(1) =~= app.skip(done + 1));
                        assert(rest.deep_view() =~= app.skip(done + 1));
                        assert(app.take(done + 1) =~= app.take(done).push(app[done]));
                        lemma_cat_push(app.take(done), app[done]);
                        assert(app =~= app.take(done + 1) + app.skip(done + 1));
                        lemma_cat_concat(app.take(done + 1), app.skip(done + 1));
                        lemma_total_len_nonneg(app.skip(done + 1));
                        lemma_total_len_nonneg(app.take(done));
                    }
                    self.end_cursor = self.end_cursor + (line.len() as u64 + 1);
                    let ghost prevl = self.lines;
                    self.lines.push(line);
                    proof {
                        crate::lines::lemma_deep_push(prevl, self.lines, line);
                        assert(self.lines.deep_view() == prevl.deep_view().push(line@));
                        assert(self.lines.deep_view() =~= popped.lines.deep_view() + app.take(
                            done + 1,
                        ));
                        lemma_cat_concat(popped.lines.deep_view(), app.take(done + 1));
                        lemma_cat_concat(popped.lines.deep_view(), app.take(done));
                        done = done + 1;
                    }
                }
                proof {
                    assert(done == app.len());
                    assert(app.take(done) =~= app);
                }
            },
        }
        total_shifted
    }
}

} // verus!
