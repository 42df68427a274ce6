//! The registry stitches the ordered log files — rotated siblings first, the
//! live file last — into one logical stream. A pair of indices delimits the
//! files whose windows are visible; shifting first extends the windows so
//! the viewport can be filled, then moves them, so that a short stream never
//! lets the view run past the data.

use vstd::prelude::*;

use crate::direction::ShiftDirection;
use crate::lines::{aug, cat_nl, lemma_cat_nl_push, lemma_deep_view, NL};
use crate::log_file::{stuck_left, stuck_right, RotatedLogFile};

verus! {

/// Rendered form of one file's window: each line followed by a newline,
/// except that the final newline is omitted when it is the phantom one past
/// the file's end — the file's last line is unterminated on disk.
pub open spec fn file_render(f: RotatedLogFile) -> Seq<u8> {
    if f.win().len() > 0 && f.end() == f.s().len() + 1 {
        cat_nl(f.win()).drop_last()
    } else {
        cat_nl(f.win())
    }
}

/// Rendered form of the file windows `k ..= hi` of `files`: empty windows
/// contribute nothing; one newline joins each non-empty window to the
/// non-empty one before it (`seen` records whether one came earlier).
pub open spec fn render_from(files: Seq<RotatedLogFile>, k: int, hi: int, seen: bool) -> Seq<u8>
    decreases hi + 1 - k,
{
    if k > hi || k < 0 {
        Seq::empty()
    } else if files[k].win().len() == 0 {
        render_from(files, k + 1, hi, seen)
    } else {
        (if seen {
            seq![NL]
        } else {
            Seq::<u8>::empty()
        }) + file_render(files[k]) + render_from(files, k + 1, hi, true)
    }
}

/// Total number of lines the windows of files `lo ..= hi` hold.
pub open spec fn total_win(files: Seq<RotatedLogFile>, lo: int, hi: int) -> int
    decreases hi + 1 - lo,
{
    if lo > hi || lo < 0 {
        0
    } else {
        files[lo].win().len() + total_win(files, lo + 1, hi)
    }
}

/// Updating a file outside the range leaves the range's line count alone.
proof fn lemma_total_win_update(files: Seq<RotatedLogFile>, lo: int, hi: int, c: int,
    f: RotatedLogFile)
    requires
        c < lo || c > hi,
        0 <= c < files.len(),
        hi < files.len(),
    ensures
        total_win(files.update(c, f), lo, hi) == total_win(files, lo, hi),
    decreases hi + 1 - lo,
{
    if lo > hi || lo < 0 {
        assert(total_win(files.update(c, f), lo, hi) == 0);
        assert(total_win(files, lo, hi) == 0);
    } else {
        assert(files.update(c, f)[lo] == files[lo]);
        lemma_total_win_update(files, lo + 1, hi, c, f);
        assert(total_win(files.update(c, f), lo, hi) == files[lo].win().len() + total_win(
            files.update(c, f),
            lo + 1,
            hi,
        ));
    }
}

/// Counting one more file on the right adds that file's window.
proof fn lemma_total_win_split(files: Seq<RotatedLogFile>, lo: int, hi: int)
    requires
        0 <= lo <= hi,
    ensures
        total_win(files, lo, hi) == total_win(files, lo, hi - 1) + files[hi].win().len(),
    decreases hi - lo,
{
    if lo == hi {
        assert(total_win(files, lo + 1, hi) == 0);
        assert(total_win(files, lo, hi - 1) == 0);
    } else {
        lemma_total_win_split(files, lo + 1, hi);
        assert(total_win(files, lo, hi) == files[lo].win().len() + total_win(files, lo + 1, hi));
        assert(total_win(files, lo, hi - 1) == files[lo].win().len() + total_win(
            files,
            lo + 1,
            hi - 1,
        ));
    }
}

/// Stream line index at which file `k` begins: the lines of all earlier
/// files.
pub open spec fn before(files: Seq<RotatedLogFile>, k: int) -> int
    decreases k,
{
    if k <= 0 {
        0
    } else {
        before(files, k - 1) + files[k - 1].n()
    }
}

/// Total number of lines of the logical stream.
pub open spec fn stream_len(files: Seq<RotatedLogFile>) -> int {
    before(files, files.len() as int)
}

/// Every file's lines fit a read chunk, so only the stream's edges stop a
/// read.
pub open spec fn all_short(files: Seq<RotatedLogFile>) -> bool {
    forall|k: int| 0 <= k < files.len() ==> (#[trigger] files[k]).short_lined()
}

/// The visible windows chain into one contiguous run of stream lines:
/// every window left of the view's right edge reaches its file's end, and
/// every window right of the view's left edge starts at its file's
/// beginning.
pub open spec fn aligned(files: Seq<RotatedLogFile>, lo: int, hi: int) -> bool {
    &&& forall|k: int| 0 <= k < hi ==> (#[trigger] files[k]).hi() == files[k].n()
    &&& forall|k: int| lo < k < files.len() ==> (#[trigger] files[k]).lo() == 0
}

/// `before` is monotone and depends only on the files' streams.
proof fn lemma_before(a: Seq<RotatedLogFile>, b: Seq<RotatedLogFile>, k: int)
    requires
        0 <= k <= a.len(),
        b.len() == a.len(),
        forall|m: int| 0 <= m < a.len() ==> (#[trigger] b[m]).s() == a[m].s(),
    ensures
        before(b, k) == before(a, k),
        before(a, k) >= 0,
        forall|m: int| 0 <= m <= k ==> 0 <= #[trigger] before(a, m) <= before(a, k),
    decreases k,
{
    if k > 0 {
        lemma_before(a, b, k - 1);
        assert(b[k - 1].s() == a[k - 1].s());
        assert forall|m: int| 0 <= m <= k implies 0 <= #[trigger] before(a, m) <= before(
            a,
            k,
        ) by {}
    }
}

/// Under alignment the visible line count is exactly the span between the
/// view's stream boundaries.
proof fn lemma_total_win_view(files: Seq<RotatedLogFile>, lo: int, hi: int)
    requires
        0 <= lo <= hi < files.len(),
        forall|k: int| 0 <= k < files.len() ==> (#[trigger] files[k]).wf(),
        aligned(files, lo, hi),
    ensures
        total_win(files, lo, hi) == (before(files, hi) + files[hi].hi()) - (before(files, lo)
            + files[lo].lo()),
    decreases hi - lo,
{
    if lo == hi {
        assert(total_win(files, lo + 1, hi) == 0);
    } else {
        lemma_total_win_view(files, lo + 1, hi);
        assert(files[lo].hi() == files[lo].n());
        assert(files[lo + 1].lo() == 0);
        assert(before(files, lo + 1) == before(files, lo) + files[lo].n());
    }
}

/// Every window in the range counts at least nothing and at most the whole.
proof fn lemma_total_win_nonneg(files: Seq<RotatedLogFile>, lo: int, hi: int)
    requires
        0 <= lo,
        hi < files.len(),
        forall|k: int| 0 <= k < files.len() ==> (#[trigger] files[k]).wf(),
    ensures
        total_win(files, lo, hi) >= 0,
        forall|k: int|
            lo <= k <= hi ==> (#[trigger] files[k]).hi() - files[k].lo() <= total_win(
                files,
                lo,
                hi,
            ),
    decreases hi + 1 - lo,
{
    if lo > hi {
    } else {
        lemma_total_win_nonneg(files, lo + 1, hi);
        assert forall|k: int|
            lo <= k <= hi implies (#[trigger] files[k]).hi() - files[k].lo() <= total_win(
            files,
            lo,
            hi,
        ) by {
            if k > lo {
                assert(files[k].hi() - files[k].lo() <= total_win(files, lo + 1, hi));
            }
        }
    }
}

/// Two files over the same bytes have the same lines, count and shortness.
proof fn lemma_same_stream(a: RotatedLogFile, b: RotatedLogFile)
    requires
        b.s() == a.s(),
    ensures
        b.ls() == a.ls(),
        b.n() == a.n(),
        b.short_lined() == a.short_lined(),
{
    assert(b.a() == a.a());
    assert(b.ls() == a.ls());
    assert(b.short_lined() ==> a.short_lined()) by {
        if b.short_lined() {
            assert forall|k: int|
                0 <= k < a.n() implies (#[trigger] a.ls()[k]).len()
                    < crate::log_file::READ_CHUNK_SIZE_BYTES by {
                assert(b.ls()[k].len() < crate::log_file::READ_CHUNK_SIZE_BYTES);
            }
        }
    }
    assert(a.short_lined() ==> b.short_lined()) by {
        if a.short_lined() {
            assert forall|k: int|
                0 <= k < b.n() implies (#[trigger] b.ls()[k]).len()
                    < crate::log_file::READ_CHUNK_SIZE_BYTES by {
                assert(a.ls()[k].len() < crate::log_file::READ_CHUNK_SIZE_BYTES);
            }
        }
    }
}

/// Shortness carries across files with the same streams.
proof fn lemma_all_short_frame(a: Seq<RotatedLogFile>, b: Seq<RotatedLogFile>)
    requires
        b.len() == a.len(),
        forall|m: int| 0 <= m < a.len() ==> (#[trigger] b[m]).s() == a[m].s(),
    ensures
        all_short(b) == all_short(a),
{
    assert(all_short(b) ==> all_short(a)) by {
        if all_short(b) {
            assert forall|k: int| 0 <= k < a.len() implies (#[trigger] a[k]).short_lined() by {
                lemma_same_stream(a[k], b[k]);
            }
        }
    }
    assert(all_short(a) ==> all_short(b)) by {
        if all_short(a) {
            assert forall|k: int| 0 <= k < b.len() implies (#[trigger] b[k]).short_lined() by {
                lemma_same_stream(a[k], b[k]);
            }
        }
    }
}

/// The files of `b` hold the same streams as those of `a`, in order.
pub open spec fn files_frame(a: Seq<RotatedLogFile>, b: Seq<RotatedLogFile>) -> bool {
    &&& b.len() == a.len()
    &&& forall|k: int|
        0 <= k < a.len() ==> (#[trigger] b[k]).s() == a[k].s() && b[k].timestamp == a[k].timestamp
            && b[k].file_path == a[k].file_path
}

/// The ordered log files with the pair of indices delimiting the visible
/// windows.
pub struct LogRegistry {
    pub log_files: Vec<RotatedLogFile>,
    pub current_window: (usize, usize),
}

impl LogRegistry {
    pub open spec fn files(self) -> Seq<RotatedLogFile> {
        self.log_files@
    }

    pub open spec fn lo(self) -> int {
        self.current_window.0 as int
    }

    pub open spec fn hi(self) -> int {
        self.current_window.1 as int
    }

    pub open spec fn wf(self) -> bool {
        &&& self.files().len() >= 1
        &&& 0 <= self.lo() <= self.hi() < self.files().len()
        &&& forall|k: int| 0 <= k < self.files().len() ==> (#[trigger] self.files()[k]).wf()
        &&& (all_short(self.files()) ==> aligned(self.files(), self.lo(), self.hi()))
    }

    /// Stream line index of the view's left boundary.
    pub open spec fn view_start(self) -> int {
        before(self.files(), self.lo()) + self.files()[self.lo()].lo()
    }

    /// Stream line index of the view's right boundary.
    pub open spec fn view_end(self) -> int {
        before(self.files(), self.hi()) + self.files()[self.hi()].hi()
    }

    /// What the viewer renders for the current window.
    pub open spec fn rendered(self) -> Seq<u8> {
        render_from(self.files(), self.lo(), self.hi(), false)
    }

    /// Build the registry over the ordered files: every window is parked at
    /// its file's end and the view starts at the last file, so the first
    /// leftward shift shows the tail of the live log.
    pub fn new(files: Vec<RotatedLogFile>) -> (r: LogRegistry)
        requires
            files@.len() >= 1,
            forall|k: int| 0 <= k < files@.len() ==> (#[trigger] files@[k]).wf(),
        ensures
            r.wf(),
            files_frame(files@, r.files()),
            r.lo() == r.files().len() - 1,
            r.hi() == r.files().len() - 1,
            forall|k: int|
                0 <= k < r.files().len() ==> (#[trigger] r.files()[k]).win()
                    == Seq::<Seq<u8>>::empty() && r.files()[k].start() == aug(
                    r.files()[k].s(),
                ).len() && r.files()[k].end() == aug(r.files()[k].s()).len(),
    {
        let ghost orig = files@;
        let mut rest = files;
        let mut out: Vec<RotatedLogFile> = Vec::new();
        proof {
            assert(out@ =~= Seq::<RotatedLogFile>::empty());
        }
        while rest.len() > 0
            invariant
                out@.len() + rest@.len() == orig.len(),
                rest@ == orig.skip(out@.len() as int),
                forall|k: int| 0 <= k < orig.len() ==> (#[trigger] orig[k]).wf(),
                forall|k: int|
                    0 <= k < out@.len() ==> (#[trigger] out@[k]).wf() && out@[k].s() == orig[k].s()
                        && out@[k].timestamp == orig[k].timestamp && out@[k].file_path
                        == orig[k].file_path && out@[k].win() == Seq::<Seq<u8>>::empty()
                        && out@[k].start() == aug(out@[k].s()).len() && out@[k].end() == aug(
                        out@[k].s(),
                    ).len() && out@[k].lo() == out@[k].n() && out@[k].hi() == out@[k].n(),
            decreases rest@.len(),
        {
            let ghost done = out@.len() as int;
            let mut f = rest.remove(0);
            proof {
                assert(f == orig[done]);
                assert(rest@ =~= orig.skip(done + 1));
            }
            f.rev();
            out.push(f);
        }
        let init_cursor = out.len() - 1;
        let r = LogRegistry { log_files: out, current_window: (init_cursor, init_cursor) };
        proof {
            assert(aligned(r.files(), r.lo(), r.hi()));
        }
        r
    }

    /// Extend the visible windows toward `direction`, starting from the near
    /// edge, until `windows_len` lines are held or the stream's edge is
    /// reached. Returns the number of lines the visible windows hold.
    fn extend(&mut self, direction: ShiftDirection, windows_len: usize) -> (r: usize)
        requires
            old(self).wf(),
        ensures
            final(self).wf(),
            files_frame(old(self).files(), final(self).files()),
            r <= windows_len,
            windows_len > 0 ==> r == total_win(
                final(self).files(),
                final(self).lo(),
                final(self).hi(),
            ),
            direction == ShiftDirection::Left ==> final(self).hi() == old(self).hi(),
            direction == ShiftDirection::Right ==> final(self).lo() == old(self).lo(),
            all_short(old(self).files()) && windows_len > 0 && direction == ShiftDirection::Left
                ==> final(self).view_end() == old(self).view_end() && r == (
            if windows_len <= old(self).view_end() {
                windows_len as int
            } else {
                old(self).view_end()
            }),
            all_short(old(self).files()) && windows_len > 0 && direction == ShiftDirection::Right
                ==> final(self).view_start() == old(self).view_start() && r == (
            if windows_len <= stream_len(old(self).files()) - old(self).view_start() {
                windows_len as int
            } else {
                stream_len(old(self).files()) - old(self).view_start()
            }),
    {
        let mut total_lines_read: usize = 0;
        match direction {
            ShiftDirection::Left => {
                self.current_window.0 = self.current_window.1;
            },
            ShiftDirection::Right => {
                self.current_window.1 = self.current_window.0;
            },
        }
        let ghost base = self.files();
        let ghost lo0 = self.lo();
        let ghost hi0 = self.hi();
        // The edge of the visited range: for a leftward extension, every
        // file of `[visited, hi]` has been read and counted.
        let ghost mut visited: int = match direction {
            ShiftDirection::Left => self.lo() + 1,
            ShiftDirection::Right => self.hi() - 1,
        };
        let mut at_edge = false;
        while total_lines_read < windows_len && !at_edge
            invariant
                self.wf(),
                files_frame(base, self.files()),
                total_lines_read <= windows_len,
                lo0 == self.lo() || direction == ShiftDirection::Left,
                hi0 == self.hi() || direction == ShiftDirection::Right,
                direction == ShiftDirection::Left ==> {
                    &&& self.hi() == hi0
                    &&& (visited == self.lo() || visited == self.lo() + 1)
                    &&& total_lines_read == total_win(self.files(), visited, hi0)
                    &&& (windows_len > 0 && (total_lines_read >= windows_len || at_edge)
                        ==> visited == self.lo())
                    &&& (total_lines_read < windows_len && !at_edge ==> visited == self.lo() + 1)
                    &&& self.files()[hi0 as int].hi() == base[hi0 as int].hi()
                    &&& (at_edge && all_short(base) ==> self.lo() == 0 && self.files()[0].lo()
                        == 0)
                },
                direction == ShiftDirection::Right ==> {
                    &&& self.lo() == lo0
                    &&& (visited == self.hi() || visited == self.hi() - 1)
                    &&& total_lines_read == total_win(self.files(), lo0, visited)
                    &&& (windows_len > 0 && (total_lines_read >= windows_len || at_edge)
                        ==> visited == self.hi())
                    &&& (total_lines_read < windows_len && !at_edge ==> visited == self.hi() - 1)
                    &&& self.files()[lo0 as int].lo() == base[lo0 as int].lo()
                    &&& (at_edge && all_short(base) ==> self.hi() == self.files().len() - 1
                        && self.files()[self.files().len() - 1].hi() == self.files()[self.files().len() - 1].n())
                },
            decreases
                    windows_len - total_lines_read,
                    (match direction {
                        ShiftDirection::Left => self.lo(),
                        ShiftDirection::Right => self.files().len() - 1 - self.hi(),
                    }),
                    (if at_edge {
                        0int
                    } else {
                        1int
                    }),
        {
            let cursor_to_use = match direction {
                ShiftDirection::Left => self.current_window.0,
                ShiftDirection::Right => self.current_window.1,
            };
            let ghost pref = self.files();
            let ghost prev_total = total_lines_read as int;
            let mut f = self.log_files.remove(cursor_to_use);
            let res = f.read_and_shift(direction, windows_len - total_lines_read, 0);
            self.log_files.insert(cursor_to_use, f);
            proof {
                assert(self.files() =~= pref.update(cursor_to_use as int, f));
                assert(files_frame(base, self.files()));
                let c = cursor_to_use as int;
                match direction {
                    ShiftDirection::Left => {
                        lemma_total_win_update(pref, c + 1, hi0, c, f);
                        assert(total_win(self.files(), c + 1, hi0) == total_lines_read as int);
                        assert(self.files()[c].win().len() == res.0);
                        assert(total_win(self.files(), c, hi0) == res.0 + total_lines_read);
                        visited = c;
                    },
                    ShiftDirection::Right => {
                        lemma_total_win_update(pref, lo0, c - 1, c, f);
                        assert(total_win(self.files(), lo0, c - 1) == total_lines_read as int);
                        assert(self.files()[c].win().len() == res.0);
                        lemma_total_win_split(self.files(), lo0, c);
                        visited = c;
                    },
                }
            }
            let file_lines_len = res.0;
            total_lines_read = total_lines_read + file_lines_len;
            if total_lines_read >= windows_len {
                // The current file supplied everything that was missing.
            } else {
                match direction {
                    ShiftDirection::Left => {
                        if self.current_window.0 == 0 {
                            at_edge = true;
                        } else {
                            self.current_window.0 = self.current_window.0 - 1;
                        }
                    },
                    ShiftDirection::Right => {
                        if self.current_window.1 == self.log_files.len() - 1 {
                            at_edge = true;
                        } else {
                            self.current_window.1 = self.current_window.1 + 1;
                        }
                    },
                }
            }
            proof {
                // The chain alignment survives the read: the file kept its
                // anchor-side edge, and a file the cursor moves past was
                // read to a stop, which under short lines is its stream
                // edge.
                let c = cursor_to_use as int;
                if all_short(self.files()) {
                    lemma_all_short_frame(pref, self.files());
                    match direction {
                        ShiftDirection::Left => {
                            assert(f.hi() == pref[c].hi());
                            if self.lo() < c || at_edge {
                                // The read could not fill what was missing.
                                assert(res.0 < windows_len - prev_total);
                                assert(stuck_left(aug(pref[c].s()), f.lo()));
                                lemma_same_stream(pref[c], f);
                                assert(stuck_left(aug(f.s()), f.lo()));
                                f.lemma_short_stuck_left(f.lo());
                                assert(f.lo() == 0);
                            }
                            assert(aligned(self.files(), self.lo(), self.hi())) by {
                                assert forall|k: int|
                                    0 <= k < self.hi() implies (#[trigger] self.files()[k]).hi()
                                    == self.files()[k].n() by {
                                    if k == c {
                                        lemma_same_stream(pref[c], f);
                                        assert(pref[c].hi() == pref[c].n());
                                    } else {
                                        assert(self.files()[k] == pref[k]);
                                    }
                                }
                                assert forall|k: int|
                                    self.lo() < k < self.files().len()
                                    implies (#[trigger] self.files()[k]).lo() == 0 by {
                                    if k != c {
                                        assert(self.files()[k] == pref[k]);
                                    }
                                }
                            }
                        },
                        ShiftDirection::Right => {
                            assert(f.lo() == pref[c].lo());
                            if self.hi() > c || at_edge {
                                assert(res.0 < windows_len - prev_total);
                                assert(stuck_right(aug(pref[c].s()), f.hi()));
                                lemma_same_stream(pref[c], f);
                                assert(stuck_right(aug(f.s()), f.hi()));
                                f.lemma_short_stuck_right(f.hi());
                                assert(f.hi() == f.n());
                            }
                            assert(aligned(self.files(), self.lo(), self.hi())) by {
                                assert forall|k: int|
                                    0 <= k < self.hi() implies (#[trigger] self.files()[k]).hi()
                                    == self.files()[k].n() by {
                                    if k != c {
                                        assert(self.files()[k] == pref[k]);
                                    }
                                }
                                assert forall|k: int|
                                    self.lo() < k < self.files().len()
                                    implies (#[trigger] self.files()[k]).lo() == 0 by {
                                    if k == c {
                                        lemma_same_stream(pref[c], f);
                                        assert(pref[c].lo() == 0);
                                    } else {
                                        assert(self.files()[k] == pref[k]);
                                    }
                                }
                            }
                        },
                    }
                }
            }
        }
        proof {
            // The fill law: under short lines the loop gathered exactly
            // what was asked for, or everything the stream holds on that
            // side of the anchor.
            if all_short(base) && windows_len > 0 {
                lemma_all_short_frame(base, self.files());
                lemma_total_win_view(self.files(), self.lo(), self.hi());
                lemma_before(base, self.files(), self.files().len() as int);
                match direction {
                    ShiftDirection::Left => {
                        lemma_before(base, self.files(), hi0 as int);
                        lemma_before(base, self.files(), self.lo());
                        if total_lines_read >= windows_len {
                            assert(total_lines_read == windows_len);
                            lemma_before(self.files(), self.files(), self.lo());
                        } else {
                            assert(at_edge);
                            assert(self.lo() == 0);
                            assert(self.view_start() == 0);
                        }
                    },
                    ShiftDirection::Right => {
                        lemma_before(base, self.files(), lo0 as int);
                        lemma_before(base, self.files(), self.hi());
                        lemma_before(self.files(), self.files(), self.files().len() as int);
                        assert(before(self.files(), self.hi() + 1) == before(
                            self.files(),
                            self.hi(),
                        ) + self.files()[self.hi()].n());
                        assert(self.files()[self.hi()].hi() <= self.files()[self.hi()].n());
                        if total_lines_read >= windows_len {
                            assert(total_lines_read == windows_len);
                        } else {
                            assert(at_edge);
                            assert(self.hi() == self.files().len() - 1);
                            assert(before(self.files(), self.files().len() as int) == before(
                                self.files(),
                                self.files().len() - 1,
                            ) + self.files()[self.files().len() - 1].n());
                        }
                    },
                }
            }
        }
        total_lines_read
    }

    /// Move the view `shift_len` lines toward `direction`, keeping up to
    /// `windows_len` lines visible. The windows are first extended so the
    /// shift never runs past the edge of a short stream, then lines are
    /// consumed from the opposite edge, hopping across file boundaries.
    #[verifier::rlimit(100)]
    pub fn shift(&mut self, direction: ShiftDirection, shift_len: usize, windows_len: usize)
        requires
            old(self).wf(),
            windows_len + shift_len <= usize::MAX,
        ensures
            final(self).wf(),
            files_frame(old(self).files(), final(self).files()),
            shift_len == 0 && windows_len > 0 ==> total_win(
                final(self).files(),
                final(self).lo(),
                final(self).hi(),
            ) <= windows_len,
            direction == ShiftDirection::Left ==> final(self).hi() <= old(self).hi(),
            direction == ShiftDirection::Right ==> final(self).lo() >= old(self).lo(),
            all_short(old(self).files()) && windows_len > 0 && direction == ShiftDirection::Left
                ==> ({
                let a0 = old(self).view_end();
                let got = if windows_len + shift_len <= a0 {
                    windows_len + shift_len
                } else {
                    a0
                };
                let eff = if got > windows_len {
                    got - windows_len
                } else {
                    0
                };
                &&& final(self).view_end() == a0 - eff
                &&& total_win(final(self).files(), final(self).lo(), final(self).hi()) == (
                if windows_len <= a0 - eff {
                    windows_len as int
                } else {
                    a0 - eff
                })
                &&& final(self).view_start() == final(self).view_end() - total_win(
                    final(self).files(),
                    final(self).lo(),
                    final(self).hi(),
                )
            }),
            all_short(old(self).files()) && windows_len > 0 && direction == ShiftDirection::Right
                ==> ({
                let b0 = old(self).view_start();
                let nn = stream_len(old(self).files());
                let got = if windows_len + shift_len <= nn - b0 {
                    windows_len + shift_len
                } else {
                    nn - b0
                };
                let eff = if got > windows_len {
                    got - windows_len
                } else {
                    0
                };
                &&& final(self).view_start() == b0 + eff
                &&& total_win(final(self).files(), final(self).lo(), final(self).hi()) == (
                if windows_len <= nn - b0 - eff {
                    windows_len as int
                } else {
                    nn - b0 - eff
                })
                &&& final(self).view_end() == final(self).view_start() + total_win(
                    final(self).files(),
                    final(self).lo(),
                    final(self).hi(),
                )
            }),
    {
        let ghost short0 = all_short(old(self).files());
        let total_lines_read = self.extend(direction, windows_len + shift_len);
        let mut shift_len = if total_lines_read > windows_len {
            total_lines_read - windows_len
        } else {
            0
        };
        let ghost base = self.files();
        let ghost lo1 = self.lo();
        let ghost hi1 = self.hi();
        let ghost entry = *self;
        let ghost eff0 = shift_len as int;
        proof {
            lemma_all_short_frame(old(self).files(), base);
            if short0 && eff0 > 0 {
                lemma_total_win_view(base, lo1 as int, hi1 as int);
                assert(total_lines_read as int == total_win(base, lo1 as int, hi1 as int));
                assert(total_win(base, lo1 as int, hi1 as int) == windows_len + eff0);
            }
        }
        let mut done = false;
        while shift_len > 0 && !done
            invariant
                self.wf(),
                files_frame(base, self.files()),
                windows_len <= usize::MAX,
                shift_len <= usize::MAX - windows_len,
                shift_len <= eff0,
                eff0 == 0 ==> *self == entry,
                direction == ShiftDirection::Left ==> self.hi() <= hi1,
                direction == ShiftDirection::Right ==> self.lo() >= lo1,
                short0 == all_short(base),
                short0 && eff0 > 0 ==> ({
                    &&& !done
                    &&& total_win(self.files(), self.lo(), self.hi()) == windows_len + shift_len
                    &&& (direction == ShiftDirection::Left ==> self.view_end() == entry.view_end()
                        - (eff0 - shift_len) && self.view_start() == entry.view_start())
                    &&& (direction == ShiftDirection::Right ==> self.view_start()
                        == entry.view_start() + (eff0 - shift_len) && self.view_end()
                        == entry.view_end())
                }),
            decreases
                    shift_len,
                    (match direction {
                        ShiftDirection::Left => self.hi(),
                        ShiftDirection::Right => self.files().len() - 1 - self.lo(),
                    }),
                    (if done {
                        0int
                    } else {
                        1int
                    }),
        {
            let cursor_to_use = match direction {
                ShiftDirection::Left => self.current_window.1,
                ShiftDirection::Right => self.current_window.0,
            };
            let ghost pref = self.files();
            let ghost plo = self.lo();
            let ghost phi = self.hi();
            let ghost rem = shift_len as int;
            let mut f = self.log_files.remove(cursor_to_use);
            let res = f.read_and_shift(direction, windows_len, shift_len);
            self.log_files.insert(cursor_to_use, f);
            proof {
                assert(self.files() =~= pref.update(cursor_to_use as int, f));
                assert(files_frame(base, self.files()));
                let c = cursor_to_use as int;
                if short0 && eff0 > 0 {
                    lemma_all_short_frame(base, pref);
                    lemma_all_short_frame(pref, self.files());
                    lemma_total_win_nonneg(pref, plo, phi);
                    // The touched window never exceeds the view it is part
                    // of, so the call neither shrinks nor extends: it only
                    // pops, pinning the file's far edge.
                    assert(pref[c].hi() - pref[c].lo() <= windows_len + rem);
                    match direction {
                        ShiftDirection::Left => {
                            assert(f.lo() == pref[c].lo()) by {
                                if c == plo {
                                    assert(total_win(pref, plo, phi) == pref[c].hi()
                                        - pref[c].lo()) by {
                                        assert(total_win(pref, c + 1, phi) == 0);
                                    }
                                } else {
                                    assert(pref[c].lo() == 0);
                                }
                            }
                            assert(f.hi() == pref[c].hi() - res.1);
                            assert(res.1 == (if rem <= pref[c].hi() - pref[c].lo() {
                                rem
                            } else {
                                pref[c].hi() - pref[c].lo()
                            }));
                        },
                        ShiftDirection::Right => {
                            assert(f.hi() == pref[c].hi()) by {
                                if c < phi {
                                    assert(pref[c].hi() == pref[c].n());
                                    lemma_same_stream(pref[c], f);
                                } else {
                                    assert(total_win(pref, plo, phi) == pref[c].hi()
                                        - pref[c].lo()) by {
                                        assert(total_win(pref, c + 1, phi) == 0);
                                    }
                                }
                            }
                            assert(f.lo() == pref[c].lo() + res.1);
                            assert(res.1 == (if rem <= pref[c].hi() - pref[c].lo() {
                                rem
                            } else {
                                pref[c].hi() - pref[c].lo()
                            }));
                        },
                    }
                    // The visible count drops by exactly what was popped.
                    lemma_total_win_update(pref, plo, c - 1, c, f);
                    lemma_total_win_update(pref, c + 1, phi, c, f);
                    lemma_total_win_split(pref, plo, phi);
                    lemma_total_win_split(self.files(), plo, phi);
                    assert(total_win(self.files(), plo, phi) == total_win(pref, plo, phi)
                        - res.1);
                    lemma_before(pref, self.files(), c);
                    lemma_before(pref, self.files(), phi);
                    lemma_before(pref, self.files(), plo);
                }
            }
            let lines_shifted = res.1;
            shift_len = shift_len - lines_shifted;
            if shift_len > 0 {
                match direction {
                    ShiftDirection::Left => {
                        if self.current_window.1 == 0 {
                            done = true;
                            proof {
                                if short0 && eff0 > 0 {
                                    // The chain always holds enough lines to
                                    // finish the pop, so this is unreachable.
                                    let c = cursor_to_use as int;
                                    assert(c == 0 && plo == 0);
                                    assert(pref[c].hi() - pref[c].lo() == windows_len + rem);
                                    assert(res.1 == rem);
                                    assert(false);
                                }
                            }
                        } else {
                            self.current_window.1 = self.current_window.1 - 1;
                            proof {
                                if short0 && eff0 > 0 {
                                    let c = cursor_to_use as int;
                                    assert(self.lo() <= self.current_window.1 as int) by {
                                        if plo == phi {
                                            assert(pref[c].hi() - pref[c].lo() == windows_len
                                                + rem);
                                            assert(res.1 == rem);
                                            assert(false);
                                        }
                                    }
                                }
                            }
                            if self.current_window.0 > self.current_window.1 {
                                self.current_window.0 = self.current_window.1;
                            }
                        }
                    },
                    ShiftDirection::Right => {
                        if self.current_window.0 == self.log_files.len() - 1 {
                            done = true;
                            proof {
                                if short0 && eff0 > 0 {
                                    let c = cursor_to_use as int;
                                    assert(c == self.files().len() - 1 && phi == c);
                                    assert(pref[c].hi() - pref[c].lo() == windows_len + rem);
                                    assert(res.1 == rem);
                                    assert(false);
                                }
                            }
                        } else {
                            self.current_window.0 = self.current_window.0 + 1;
                            proof {
                                if short0 && eff0 > 0 {
                                    let c = cursor_to_use as int;
                                    assert(self.current_window.0 as int <= self.hi()) by {
                                        if plo == phi {
                                            assert(pref[c].hi() - pref[c].lo() == windows_len
                                                + rem);
                                            assert(res.1 == rem);
                                            assert(false);
                                        }
                                    }
                                }
                            }
                            if self.current_window.1 < self.current_window.0 {
                                self.current_window.1 = self.current_window.0;
                            }
                        }
                    },
                }
            }
            proof {
                // Re-establish the chain alignment and the boundary
                // bookkeeping for the new cursor pair.
                let c = cursor_to_use as int;
                lemma_all_short_frame(base, pref);
                lemma_all_short_frame(pref, self.files());
                assert(all_short(self.files()) == short0);
                if short0 && eff0 > 0 {
                    assert(aligned(self.files(), self.lo(), self.hi())) by {
                        assert forall|k: int|
                            0 <= k < self.hi() implies (#[trigger] self.files()[k]).hi()
                            == self.files()[k].n() by {
                            if k != c {
                                assert(self.files()[k] == pref[k]);
                            } else {
                                lemma_same_stream(pref[c], f);
                            }
                        }
                        assert forall|k: int|
                            self.lo() < k < self.files().len()
                            implies (#[trigger] self.files()[k]).lo() == 0 by {
                            if k != c {
                                assert(self.files()[k] == pref[k]);
                            } else {
                                lemma_same_stream(pref[c], f);
                            }
                        }
                    }
                    if self.hi() < phi {
                        // The emptied window sat flush against its
                        // neighbour, so the boundary is unmoved.
                        assert(self.hi() == phi - 1 && c == phi);
                        assert(f.hi() == f.lo());
                        assert(before(self.files(), phi) == before(self.files(), phi - 1)
                            + self.files()[phi - 1].n());
                        assert(self.files()[phi - 1].hi() == self.files()[phi - 1].n());
                    }
                    if self.lo() > plo {
                        assert(self.lo() == plo + 1 && c == plo);
                        assert(f.hi() == f.lo());
                        assert(before(self.files(), plo + 1) == before(self.files(), plo)
                            + self.files()[plo].n());
                    }
                }
            }
        }
        proof {
            // The boundary law: the view moved by exactly the effective
            // shift and holds what fits of the viewport.
            if short0 && windows_len > 0 {
                lemma_all_short_frame(base, self.files());
                lemma_total_win_view(self.files(), self.lo(), self.hi());
                if eff0 == 0 {
                    assert(*self == entry);
                    lemma_total_win_view(entry.files(), entry.lo(), entry.hi());
                }
            }
        }
    }

    /// Render the visible windows into one byte buffer: each line followed
    /// by a newline — save the phantom one past a file's end — and one
    /// newline joining consecutive non-empty windows; empty windows
    /// contribute nothing and cause no extra newline.
    pub fn write(&self) -> (r: Vec<u8>)
        requires
            self.wf(),
        ensures
            r@ == self.rendered(),
    {
        let mut out: Vec<u8> = Vec::new();
        let nfiles = self.log_files.len();
        let mut i = self.current_window.0;
        let mut seen = false;
        let ghost lo = self.lo();
        let ghost hi = self.hi();
        let ghost files = self.files();
        proof {
            assert(out@ =~= Seq::<u8>::empty());
            assert(out@ + render_from(files, lo, hi, false) =~= render_from(files, lo, hi, false));
        }
        while i <= self.current_window.1
            invariant
                self.wf(),
                lo == self.lo(),
                hi == self.hi(),
                files == self.files(),
                nfiles == files.len(),
                lo <= i,
                i <= hi + 1,
                out@ + render_from(files, i as int, hi, seen) == render_from(
                    files,
                    lo,
                    hi,
                    false,
                ),
            decreases hi + 1 - i,
        {
            let ghost pre_file = out@;
            let f = &self.log_files[i];
            let lines = f.lines();
            proof {
                lemma_deep_view(*lines);
            }
            if lines.len() > 0 {
                if seen {
                    out.push(NL);
                }
                let ghost pre_out = out@;
                // Whether this window's final newline is the phantom one.
                let phantom = f.window.end_cursor() == f.content.len() as u64 + 1;
                let ghost w = f.win();
                let mut li: usize = 0;
                while li < lines.len()
                    invariant
                        0 <= i < files.len(),
                        f == files[i as int],
                        w == f.win(),
                        lines == &files[i as int].window.lines,
                        li <= lines@.len(),
                        w.len() == lines@.len(),
                        phantom == (f.end() == f.s().len() + 1),
                        forall|k: int| 0 <= k < lines@.len() ==> #[trigger] lines@[k]@ == w[k],
                        li < lines@.len() ==> out@ == pre_out + cat_nl(w.take(li as int)),
                        li == lines@.len() ==> out@ == pre_out + (if phantom {
                            cat_nl(w).drop_last()
                        } else {
                            cat_nl(w)
                        }),
                    decreases lines@.len() - li,
                {
                    let line = &lines[li];
                    let mut bi: usize = 0;
                    let ghost out_before_line = out@;
                    while bi < line.len()
                        invariant
                            bi <= line@.len(),
                            out@ == out_before_line + line@.take(bi as int),
                        decreases line@.len() - bi,
                    {
                        out.push(line[bi]);
                        proof {
                            assert(out@ =~= out_before_line + line@.take(bi + 1));
                        }
                        bi = bi + 1;
                    }
                    if li + 1 < lines.len() || !phantom {
                        out.push(NL);
                    }
                    proof {
                        assert(line@.take(line@.len() as int) =~= line@);
                        assert(w.take(li + 1) =~= w.take(li as int).push(w[li as int]));
                        lemma_cat_nl_push(w.take(li as int), w[li as int]);
                        if li + 1 < lines@.len() || !phantom {
                            assert(out@ =~= pre_out + cat_nl(w.take(li + 1)));
                            if li + 1 == lines@.len() {
                                assert(w.take(li + 1) =~= w);
                            }
                        } else {
                            assert(w.take(li + 1) =~= w);
                            assert(cat_nl(w) == cat_nl(w.take(li as int)) + w[li as int]
                                + seq![NL]);
                            assert(cat_nl(w).drop_last() =~= cat_nl(w.take(li as int))
                                + w[li as int]);
                            assert(out@ =~= pre_out + cat_nl(w).drop_last());
                        }
                    }
                    li = li + 1;
                }
                proof {
                    assert(w.take(w.len() as int) =~= w);
                    // This window rendered as its `file_render`.
                    if phantom {
                        assert(out@ =~= pre_out + file_render(files[i as int]));
                    } else {
                        assert(out@ =~= pre_out + file_render(files[i as int]));
                    }
                    assert(out@ =~= pre_file + (if seen {
                        seq![NL]
                    } else {
                        Seq::<u8>::empty()
                    }) + file_render(files[i as int]));
                    assert(out@ + render_from(files, i + 1, hi, true) =~= pre_file + render_from(
                        files,
                        i as int,
                        hi,
                        seen,
                    ));
                }
                seen = true;
            } else {
                proof {
                    assert(render_from(files, i as int, hi, seen) == render_from(
                        files,
                        i + 1,
                        hi,
                        seen,
                    ));
                }
            }
            i = i + 1;
        }
        proof {
            assert(render_from(files, hi + 1, hi, seen) =~= Seq::<u8>::empty());
            assert(out@ + Seq::<u8>::empty() =~= out@);
        }
        out
    }
}

} // verus!
