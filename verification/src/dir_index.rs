//! Classification of the files found next to the live log: the live file
//! itself, rotated siblings whose names carry a parseable rotation stamp,
//! and everything else, which is ignored. Rotated entries come out ordered
//! by their stamps, oldest first, with the live entry last.

use vstd::prelude::*;

use crate::log_file::subvec;
use crate::timestamp::{parse_stamp, stamp_of_text, stamp_text_shaped, Timestamp, UNDERSCORE};

verus! {

/// Byte value of the ASCII dot separating a file name's stem and extension.
pub const DOT: u8 = 46;

/// A discovered log file: the live append target, or a rotated sibling with
/// its rotation stamp.
#[derive(Debug, Clone, Copy, PartialEq, Eq, Structural)]
pub enum LogFileType {
    Rotated(Timestamp),
    Live,
}

/// A classified directory entry.
pub struct LogFileEntry {
    pub log_file_name: Vec<u8>,
    pub log_type: LogFileType,
}

/// Index of the last dot of `name`, or `-1` when it has none.
pub open spec fn last_dot(name: Seq<u8>) -> int
    decreases name.len(),
{
    if name.len() == 0 {
        -1
    } else if name.last() == DOT {
        name.len() - 1
    } else {
        last_dot(name.drop_last())
    }
}

/// `name` is `<stem>_<mid>.<ext>` with a non-empty, dot-free `mid`.
pub open spec fn matches_rotated(name: Seq<u8>, stem: Seq<u8>, ext: Seq<u8>) -> bool {
    &&& name.len() >= stem.len() + ext.len() + 3
    &&& name.take(stem.len() as int) == stem
    &&& name[stem.len() as int] == UNDERSCORE
    &&& name.skip(name.len() - ext.len()) == ext
    &&& name[name.len() - ext.len() - 1] == DOT
    &&& forall|k: int| stem.len() + 1 <= k < name.len() - ext.len() - 1 ==> name[k] != DOT
}

/// The stamp text inside a rotated name.
pub open spec fn rotated_mid(name: Seq<u8>, stem: Seq<u8>, ext: Seq<u8>) -> Seq<u8> {
    name.subrange(stem.len() as int + 1, name.len() - ext.len() - 1)
}

/// A directory file name accepted as a rotated sibling of the live log
/// `live`: not the live name itself, shaped as `<stem>_<stamp>.<ext>`, and
/// carrying a valid rotation stamp.
pub open spec fn accepted(live: Seq<u8>, name: Seq<u8>) -> bool {
    let ld = last_dot(live);
    let stem = live.take(ld);
    let ext = live.skip(ld + 1);
    &&& ld >= 0
    &&& name != live
    &&& matches_rotated(name, stem, ext)
    &&& stamp_text_shaped(rotated_mid(name, stem, ext))
    &&& stamp_of_text(rotated_mid(name, stem, ext)).valid()
}

pub proof fn lemma_last_dot(name: Seq<u8>)
    ensures
        last_dot(name) >= 0 ==> last_dot(name) < name.len() && name[last_dot(name)] == DOT
            && (forall|k: int| last_dot(name) < k < name.len() ==> name[k] != DOT),
        last_dot(name) < 0 ==> forall|k: int| 0 <= k < name.len() ==> name[k] != DOT,
    decreases name.len(),
{
    if name.len() == 0 {
    } else if name.last() == DOT {
    } else {
        lemma_last_dot(name.drop_last());
        assert forall|k: int| 0 <= k < name.len() - 1 implies name.drop_last()[k] == name[k] by {}
    }
}

/// Byte-for-byte equality of two byte vectors.
fn bytes_eq(a: &Vec<u8>, b: &Vec<u8>) -> (r: bool)
    ensures
        r == (a@ == b@),
{
    if a.len() != b.len() {
        proof {
            assert(a@ != b@);
        }
        return false;
    }
    let mut k: usize = 0;
    while k < a.len()
        invariant
            k <= a@.len(),
            a@.len() == b@.len(),
            forall|q: int| 0 <= q < k ==> a@[q] == b@[q],
        decreases a@.len() - k,
    {
        if a[k] != b[k] {
            return false;
        }
        k = k + 1;
    }
    proof {
        assert(a@ =~= b@);
    }
    true
}

/// Sort key of an entry: rotated entries sort by stamp; the live entry is
/// appended separately and needs no key.
pub open spec fn entry_stamp(e: LogFileEntry) -> Timestamp {
    match e.log_type {
        LogFileType::Rotated(t) => t,
        LogFileType::Live => Timestamp {
            year: 0,
            month: 0,
            day: 0,
            hour: 0,
            minute: 0,
            second: 0,
            millis: 0,
        },
    }
}

/// `x` occurs among the given directory names.
pub open spec fn name_listed(names: Seq<Vec<u8>>, x: Seq<u8>) -> bool {
    exists|k: int| 0 <= k < names.len() && (#[trigger] names[k])@ == x
}

/// Whether `name` already occurs among the collected entries.
fn holds_name(entries: &Vec<LogFileEntry>, name: &Vec<u8>) -> (r: bool)
    ensures
        r == (exists|p: int|
            0 <= p < entries@.len() && (#[trigger] entries@[p]).log_file_name@ == name@),
{
    let mut p: usize = 0;
    while p < entries.len()
        invariant
            p <= entries@.len(),
            forall|q: int| 0 <= q < p ==> (#[trigger] entries@[q]).log_file_name@ != name@,
        decreases entries@.len() - p,
    {
        if bytes_eq(&entries[p].log_file_name, name) {
            proof {
                assert(entries@[p as int].log_file_name@ == name@);
            }
            return true;
        }
        p = p + 1;
    }
    proof {
        if exists|q: int|
            0 <= q < entries@.len() && (#[trigger] entries@[q]).log_file_name@ == name@ {
            let w = choose|q: int|
                0 <= q < entries@.len() && (#[trigger] entries@[q]).log_file_name@ == name@;
            assert(entries@[w].log_file_name@ != name@);
        }
    }
    false
}

pub struct DirectoryReader;

impl DirectoryReader {
    /// Find the last dot of `name`; `None` when it has none.
    fn find_last_dot(name: &Vec<u8>) -> (r: Option<usize>)
        ensures
            r == (if last_dot(name@) >= 0 {
                Some(last_dot(name@) as usize)
            } else {
                Option::<usize>::None
            }),
    {
        let mut k: usize = name.len();
        while k > 0
            invariant
                k <= name@.len(),
                forall|q: int| k <= q < name@.len() ==> name@[q] != DOT,
            decreases k,
        {
            k = k - 1;
            if name[k] == DOT {
                proof {
                    lemma_last_dot(name@);
                    assert(last_dot(name@) == k) by {
                        if last_dot(name@) < k {
                            assert(name@[k as int] != DOT);
                        }
                        if last_dot(name@) > k {
                            assert(name@[last_dot(name@)] != DOT);
                        }
                    }
                }
                return Some(k);
            }
        }
        proof {
            lemma_last_dot(name@);
            assert(last_dot(name@) < 0) by {
                if last_dot(name@) >= 0 {
                    assert(name@[last_dot(name@)] == DOT);
                }
            }
        }
        None
    }

    /// Classify one directory name against the live log's stem and
    /// extension. Returns the rotation stamp exactly for accepted names.
    fn classify(live: &Vec<u8>, name: &Vec<u8>, stem_len: usize, ext_len: usize) -> (r: Option<
        Timestamp,
    >)
        requires
            last_dot(live@) == stem_len as int,
            live@.len() == stem_len + 1 + ext_len,
        ensures
            r == (if accepted(live@, name@) {
                Some(accepted_stamp_of(live@, name@))
            } else {
                Option::<Timestamp>::None
            }),
    {
        let ghost stem = live@.take(stem_len as int);
        let ghost ext = live@.skip(stem_len + 1);
        if bytes_eq(live, name) {
            return None;
        }
        if name.len() < stem_len {
            return None;
        }
        if name.len() - stem_len < ext_len {
            return None;
        }
        if name.len() - stem_len - ext_len < 3 {
            return None;
        }
        // Prefix: the stem, then an underscore.
        let mut k: usize = 0;
        while k < stem_len
            invariant
                k <= stem_len,
                live@.len() == stem_len + 1 + ext_len,
                last_dot(live@) == stem_len as int,
                stem == live@.take(stem_len as int),
                ext == live@.skip(stem_len + 1),
                name@.len() >= stem_len + ext_len + 3,
                forall|q: int| 0 <= q < k ==> name@[q] == live@[q],
            decreases stem_len - k,
        {
            if name[k] != live[k] {
                proof {
                    assert(name@.take(stem_len as int)[k as int] != stem[k as int]);
                }
                return None;
            }
            k = k + 1;
        }
        proof {
            assert(name@.take(stem_len as int) =~= stem);
        }
        if name[stem_len] != UNDERSCORE {
            return None;
        }
        // Suffix: a dot, then the extension.
        let nl = name.len();
        if name[nl - ext_len - 1] != DOT {
            return None;
        }
        let mut k: usize = 0;
        while k < ext_len
            invariant
                k <= ext_len,
                nl == name@.len(),
                name@.len() >= stem_len + ext_len + 3,
                live@.len() == stem_len + 1 + ext_len,
                last_dot(live@) == stem_len as int,
                stem == live@.take(stem_len as int),
                ext == live@.skip(stem_len + 1),
                forall|q: int|
                    0 <= q < k ==> #[trigger] name@[nl - ext_len + q] == live@[stem_len + 1 + q],
            decreases ext_len - k,
        {
            if name[nl - ext_len + k] != live[stem_len + 1 + k] {
                proof {
                    assert(name@.skip(nl - ext_len)[k as int] != ext[k as int]);
                }
                return None;
            }
            k = k + 1;
        }
        proof {
            assert forall|q: int| 0 <= q < ext_len implies name@.skip(nl - ext_len)[q] == ext[q] by {
                assert(name@[nl - ext_len + q] == live@[stem_len + 1 + q]);
            }
            assert(name@.skip(nl - ext_len) =~= ext);
        }
        // The middle: dot-free stamp text.
        let mid = subvec(name, stem_len + 1, nl - ext_len - 1);
        let mut k: usize = 0;
        while k < mid.len()
            invariant
                k <= mid@.len(),
                mid@ == name@.subrange(stem_len + 1, nl - ext_len - 1),
                nl == name@.len(),
                name@.len() >= stem_len + ext_len + 3,
                live@.len() == stem_len + 1 + ext_len,
                last_dot(live@) == stem_len as int,
                stem == live@.take(stem_len as int),
                ext == live@.skip(stem_len + 1),
                forall|q: int| 0 <= q < k ==> mid@[q] != DOT,
            decreases mid@.len() - k,
        {
            if mid[k] == DOT {
                proof {
                    assert(name@[stem_len + 1 + k] == DOT);
                }
                return None;
            }
            k = k + 1;
        }
        proof {
            assert forall|q: int|
                stem_len + 1 <= q < name@.len() - ext_len - 1 implies name@[q] != DOT by {
                assert(mid@[q - (stem_len + 1)] != DOT);
            }
            assert(mid@ == rotated_mid(name@, stem, ext));
        }
        let r = parse_stamp(&mid);
        proof {
            if r.is_some() {
                assert(matches_rotated(name@, stem, ext));
                assert(accepted(live@, name@));
            } else {
                assert(!(stamp_text_shaped(rotated_mid(name@, stem, ext)) && stamp_of_text(
                    rotated_mid(name@, stem, ext),
                ).valid()));
            }
        }
        r
    }

    /// Classify every name of the directory listing: the accepted rotated
    /// siblings, ordered by stamp, oldest first, then the live entry.
    #[verifier::rlimit(100)]
    pub fn read_dir_logs(live_log_name: &Vec<u8>, dir_file_names: &Vec<Vec<u8>>) -> (r: Vec<
        LogFileEntry,
    >)
        ensures
            r@.len() >= 1,
            r@.last().log_file_name@ == live_log_name@,
            r@.last().log_type == LogFileType::Live,
            forall|p: int|
                0 <= p < r@.len() - 1 ==> accepted(
                    live_log_name@,
                    (#[trigger] r@[p]).log_file_name@,
                ) && r@[p].log_type == LogFileType::Rotated(
                    accepted_stamp_of(live_log_name@, r@[p].log_file_name@),
                ),
            forall|p: int, q: int|
                0 <= p <= q < r@.len() - 1 ==> entry_stamp(#[trigger] r@[p]).le_spec(
                    entry_stamp(#[trigger] r@[q]),
                ),
            forall|k: int|
                0 <= k < dir_file_names@.len() && accepted(
                    live_log_name@,
                    (#[trigger] dir_file_names@[k])@,
                ) ==> exists|p: int|
                    0 <= p < r@.len() - 1 && (#[trigger] r@[p]).log_file_name@
                        == dir_file_names@[k]@,
            forall|p: int|
                0 <= p < r@.len() - 1 ==> name_listed(
                    dir_file_names@,
                    (#[trigger] r@[p]).log_file_name@,
                ),
            forall|p: int, q: int|
                0 <= p < q < r@.len() - 1 ==> (#[trigger] r@[p]).log_file_name@ != (
                #[trigger] r@[q]).log_file_name@,
    {
        let ghost live = live_log_name@;
        let mut rotated: Vec<LogFileEntry> = Vec::new();
        let split = Self::find_last_dot(live_log_name);
        if let Some(stem_len) = split {
            proof {
                lemma_last_dot(live);
            }
            let ext_len = live_log_name.len() - stem_len - 1;
            let mut idx: usize = 0;
            while idx < dir_file_names.len()
                invariant
                    idx <= dir_file_names@.len(),
                    last_dot(live) == stem_len as int,
                    live == live_log_name@,
                    live.len() == stem_len + 1 + ext_len,
                    forall|p: int|
                        0 <= p < rotated@.len() ==> accepted(
                            live,
                            (#[trigger] rotated@[p]).log_file_name@,
                        ) && rotated@[p].log_type == LogFileType::Rotated(
                            accepted_stamp_of(live, rotated@[p].log_file_name@),
                        ),
                    forall|p: int, q: int|
                        0 <= p <= q < rotated@.len() ==> entry_stamp(#[trigger] rotated@[p]).le_spec(
                            entry_stamp(#[trigger] rotated@[q]),
                        ),
                    forall|k: int|
                        0 <= k < idx && accepted(live, (#[trigger] dir_file_names@[k])@)
                            ==> exists|p: int|
                            0 <= p < rotated@.len() && (#[trigger] rotated@[p]).log_file_name@
                                == dir_file_names@[k]@,
                    forall|p: int|
                        0 <= p < rotated@.len() ==> name_listed(
                            dir_file_names@,
                            (#[trigger] rotated@[p]).log_file_name@,
                        ),
                    forall|p: int, q: int|
                        0 <= p < q < rotated@.len() ==> (#[trigger] rotated@[p]).log_file_name@
                            != (#[trigger] rotated@[q]).log_file_name@,
                decreases dir_file_names@.len() - idx,
            {
                let name = &dir_file_names[idx];
                let already = holds_name(&rotated, name);
                if already {
                    // A name already collected; directory listings hold each
                    // name once, so nothing new is learned from it.
                    proof {
                        let p0 = choose|p: int|
                            0 <= p < rotated@.len() && (#[trigger] rotated@[p]).log_file_name@
                                == name@;
                        assert(rotated@[p0].log_file_name@ == dir_file_names@[idx as int]@);
                    }
                } else if let Some(ts) = Self::classify(live_log_name, name, stem_len, ext_len) {
                    let entry = LogFileEntry {
                        log_file_name: name.clone(),
                        log_type: LogFileType::Rotated(ts),
                    };
                    // Find the insertion point that keeps the stamps ordered.
                    let mut at: usize = 0;
                    while at < rotated.len() && rotated[at].stamp_le(&ts)
                        invariant
                            at <= rotated@.len(),
                            forall|p: int|
                                0 <= p < at ==> entry_stamp(#[trigger] rotated@[p]).le_spec(ts),
                        decreases rotated@.len() - at,
                    {
                        at = at + 1;
                    }
                    let ghost prev = rotated@;
                    rotated.insert(at, entry);
                    proof {
                        crate::timestamp::lemma_le_total(ts, ts);
                        assert forall|p: int, q: int|
                            0 <= p <= q < rotated@.len() implies entry_stamp(
                            #[trigger] rotated@[p],
                        ).le_spec(entry_stamp(#[trigger] rotated@[q])) by {
                            if p < at && q == at {
                            } else if p == at && q > at {
                                crate::timestamp::lemma_le_total(ts, entry_stamp(prev[q - 1]));
                            } else if p < at && q > at {
                            } else if p == at && q == at {
                            }
                        }
                        assert forall|k: int|
                            0 <= k < idx + 1 && accepted(
                                live,
                                (#[trigger] dir_file_names@[k])@,
                            ) implies exists|p: int|
                            0 <= p < rotated@.len() && (#[trigger] rotated@[p]).log_file_name@
                                == dir_file_names@[k]@ by {
                            if k == idx {
                                assert(rotated@[at as int].log_file_name@ == dir_file_names@[k]@);
                            } else {
                                let p0 = choose|p: int|
                                    0 <= p < prev.len() && (#[trigger] prev[p]).log_file_name@
                                        == dir_file_names@[k]@;
                                if p0 < at {
                                    assert(rotated@[p0].log_file_name@ == dir_file_names@[k]@);
                                } else {
                                    assert(rotated@[p0 + 1].log_file_name@
                                        == dir_file_names@[k]@);
                                }
                            }
                        }
                        assert forall|p: int|
                            0 <= p < rotated@.len() implies name_listed(
                            dir_file_names@,
                            (#[trigger] rotated@[p]).log_file_name@,
                        ) by {
                            if p == at {
                                assert(dir_file_names@[idx as int]@ == rotated@[p].log_file_name@);
                            } else {
                                let p0 = if p < at {
                                    p
                                } else {
                                    p - 1
                                };
                                assert(rotated@[p] == prev[p0]);
                            }
                        }
                        assert forall|p: int, q: int|
                            0 <= p < q < rotated@.len() implies (
                        #[trigger] rotated@[p]).log_file_name@ != (
                        #[trigger] rotated@[q]).log_file_name@ by {
                            let p0 = if p < at {
                                p
                            } else {
                                p - 1
                            };
                            let q0 = if q < at {
                                q
                            } else {
                                q - 1
                            };
                            if p == at {
                                assert(rotated@[q] == prev[q0]);
                            } else if q == at {
                                assert(rotated@[p] == prev[p0]);
                            } else {
                                assert(rotated@[p] == prev[p0]);
                                assert(rotated@[q] == prev[q0]);
                            }
                        }
                    }
                }
                idx = idx + 1;
            }
        } else {
            proof {
                assert forall|k: int|
                    0 <= k < dir_file_names@.len() implies !accepted(
                    live,
                    (#[trigger] dir_file_names@[k])@,
                ) by {}
            }
        }
        let live_entry = LogFileEntry {
            log_file_name: live_log_name.clone(),
            log_type: LogFileType::Live,
        };
        let ghost before_live = rotated@;
        rotated.push(live_entry);
        proof {
            assert(rotated@.last().log_file_name@ == live);
            assert forall|p: int|
                0 <= p < rotated@.len() - 1 implies accepted(
                live,
                (#[trigger] rotated@[p]).log_file_name@,
            ) && rotated@[p].log_type == LogFileType::Rotated(
                accepted_stamp_of(live, rotated@[p].log_file_name@),
            ) by {
                assert(rotated@[p] == before_live[p]);
            }
            assert forall|k: int|
                0 <= k < dir_file_names@.len() && accepted(
                    live,
                    (#[trigger] dir_file_names@[k])@,
                ) implies exists|p: int|
                    0 <= p < rotated@.len() - 1 && (#[trigger] rotated@[p]).log_file_name@
                        == dir_file_names@[k]@ by {
                let p0 = choose|p: int|
                    0 <= p < before_live.len() && (#[trigger] before_live[p]).log_file_name@
                        == dir_file_names@[k]@;
                assert(rotated@[p0].log_file_name@ == dir_file_names@[k]@);
            }
            assert forall|p: int|
                0 <= p < rotated@.len() - 1 implies name_listed(
                dir_file_names@,
                (#[trigger] rotated@[p]).log_file_name@,
            ) by {
                assert(rotated@[p] == before_live[p]);
            }
            assert forall|p: int, q: int|
                0 <= p < q < rotated@.len() - 1 implies (#[trigger] rotated@[p]).log_file_name@
                    != (#[trigger] rotated@[q]).log_file_name@ by {
                assert(rotated@[p] == before_live[p]);
                assert(rotated@[q] == before_live[q]);
            }
        }
        rotated
    }
}

impl LogFileEntry {
    /// Decide whether this entry's stamp is at most `ts`.
    fn stamp_le(&self, ts: &Timestamp) -> (r: bool)
        ensures
            r == entry_stamp(*self).le_spec(*ts),
    {
        match &self.log_type {
            LogFileType::Rotated(own) => own.le(ts),
            LogFileType::Live => {
                let zero = Timestamp {
                    year: 0,
                    month: 0,
                    day: 0,
                    hour: 0,
                    minute: 0,
                    second: 0,
                    millis: 0,
                };
                zero.le(ts)
            },
        }
    }
}

/// The stamp an accepted rotated name carries.
pub open spec fn accepted_stamp_of(live: Seq<u8>, name: Seq<u8>) -> Timestamp {
    stamp_of_text(rotated_mid(name, live.take(last_dot(live)), live.skip(last_dot(live) + 1)))
}

} // verus!
