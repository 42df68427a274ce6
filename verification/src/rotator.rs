//! Rotation naming and retention. The rotated sibling's name stamps the
//! moment of rotation into the live file's name; retention sorts the rotated
//! names — for stamped names lexicographic order is chronological order —
//! and picks the oldest beyond the cap for removal.

use vstd::prelude::*;

use crate::dir_index::{accepted, last_dot, lemma_last_dot, matches_rotated, rotated_mid, DOT};
use vstd::multiset::Multiset;

use crate::timestamp::{
    format_rotated_stamp, lemma_stamp_round_trip, rotated_stamp, stamp_of_text, Timestamp,
    UNDERSCORE,
};

verus! {

/// Lexicographic order on byte strings.
pub open spec fn bytes_le(a: Seq<u8>, b: Seq<u8>) -> bool
    decreases a.len(),
{
    if a.len() == 0 {
        true
    } else if b.len() == 0 {
        false
    } else if a[0] < b[0] {
        true
    } else if a[0] > b[0] {
        false
    } else {
        bytes_le(a.drop_first(), b.drop_first())
    }
}

pub proof fn lemma_bytes_le_total(a: Seq<u8>, b: Seq<u8>)
    ensures
        bytes_le(a, b) || bytes_le(b, a),
    decreases a.len(),
{
    if a.len() == 0 || b.len() == 0 {
    } else if a[0] == b[0] {
        lemma_bytes_le_total(a.drop_first(), b.drop_first());
    }
}

pub proof fn lemma_bytes_le_trans(a: Seq<u8>, b: Seq<u8>, c: Seq<u8>)
    requires
        bytes_le(a, b),
        bytes_le(b, c),
    ensures
        bytes_le(a, c),
    decreases a.len(),
{
    if a.len() == 0 || b.len() == 0 || c.len() == 0 {
    } else if a[0] == b[0] || b[0] == c[0] {
        if a[0] == b[0] && b[0] == c[0] {
            lemma_bytes_le_trans(a.drop_first(), b.drop_first(), c.drop_first());
        }
    }
}

/// Decide the lexicographic order on concrete byte vectors.
pub fn bytes_le_vec(a: &Vec<u8>, b: &Vec<u8>) -> (r: bool)
    ensures
        r == bytes_le(a@, b@),
{
    let mut k: usize = 0;
    let ghost av = a@;
    let ghost bv = b@;
    proof {
        lemma_bytes_le_common(av, bv, 0);
    }
    loop
        invariant
            k <= av.len(),
            k <= bv.len(),
            av == a@,
            bv == b@,
            forall|q: int| 0 <= q < k ==> av[q] == bv[q],
            bytes_le(av, bv) == bytes_le(av.skip(k as int), bv.skip(k as int)),
        decreases av.len() - k,
    {
        if k == a.len() {
            proof {
                assert(av.skip(k as int).len() == 0);
            }
            return true;
        }
        if k == b.len() {
            proof {
                assert(bv.skip(k as int).len() == 0);
                assert(av.skip(k as int).len() > 0);
            }
            return false;
        }
        let ca = a[k];
        let cb = b[k];
        if ca < cb {
            proof {
                assert(av.skip(k as int)[0] == ca && bv.skip(k as int)[0] == cb);
            }
            return true;
        }
        if ca > cb {
            proof {
                assert(av.skip(k as int)[0] == ca && bv.skip(k as int)[0] == cb);
            }
            return false;
        }
        proof {
            assert(av.skip(k as int)[0] == ca && bv.skip(k as int)[0] == cb);
            assert(av.skip(k as int).drop_first() =~= av.skip(k + 1));
            assert(bv.skip(k as int).drop_first() =~= bv.skip(k + 1));
        }
        k = k + 1;
    }
}

/// Skipping a common prefix does not change the order.
proof fn lemma_bytes_le_common(a: Seq<u8>, b: Seq<u8>, k: int)
    requires
        0 <= k <= a.len(),
        k <= b.len(),
        forall|q: int| 0 <= q < k ==> a[q] == b[q],
    ensures
        bytes_le(a, b) == bytes_le(a.skip(k), b.skip(k)),
    decreases k,
{
    if k > 0 {
        assert(a.len() > 0 && b.len() > 0);
        assert(a[0] == b[0]);
        lemma_bytes_le_common(a.drop_first(), b.drop_first(), k - 1);
        assert(a.drop_first().skip(k - 1) =~= a.skip(k));
        assert(b.drop_first().skip(k - 1) =~= b.skip(k));
    } else {
        assert(a.skip(0) =~= a);
        assert(b.skip(0) =~= b);
    }
}

pub open spec fn sorted_names(s: Seq<Seq<u8>>) -> bool {
    forall|p: int, q: int| 0 <= p <= q < s.len() ==> bytes_le(#[trigger] s[p], #[trigger] s[q])
}

/// Sort file names ascending; the result holds exactly the given names.
pub fn sort_names(names: Vec<Vec<u8>>) -> (r: Vec<Vec<u8>>)
    ensures
        sorted_names(r.deep_view()),
        r.deep_view().to_multiset() == names.deep_view().to_multiset(),
        r@.len() == names@.len(),
{
    broadcast use vstd::seq_lib::group_seq_properties;

    let ghost orig = names.deep_view();
    let mut rest = names;
    let mut out: Vec<Vec<u8>> = Vec::new();
    proof {
        crate::lines::lemma_deep_view(rest);
        crate::lines::lemma_deep_view(out);
        assert(out.deep_view() =~= Seq::<Seq<u8>>::empty());
        assert(out.deep_view().to_multiset().add(rest.deep_view().to_multiset()) =~= orig.to_multiset());
    }
    while rest.len() > 0
        invariant
            sorted_names(out.deep_view()),
            out.deep_view().to_multiset().add(rest.deep_view().to_multiset())
                == orig.to_multiset(),
            out@.len() + rest@.len() == orig.len(),
        decreases rest@.len(),
    {
        broadcast use vstd::seq_lib::group_seq_properties;

        let ghost pre_rest = rest;
        let x = rest.remove(0);
        proof {
            crate::lines::lemma_deep_remove_front(pre_rest, rest, x);
            let s2 = pre_rest.deep_view();
            s2.to_multiset_ensures();
            assert(s2.remove(0).to_multiset() =~= s2.to_multiset().remove(s2[0]));
            assert(s2.remove(0) =~= rest.deep_view());
            assert(s2[0] == x@);
            assert(s2.contains(x@));
            assert(s2.to_multiset().count(x@) > 0);
            assert(pre_rest.deep_view().to_multiset() =~= rest.deep_view().to_multiset().insert(
                x@,
            ));
        }
        let mut at: usize = 0;
        while at < out.len() && bytes_le_vec(&out[at], &x)
            invariant
                at <= out@.len(),
                forall|p: int| 0 <= p < at ==> bytes_le(#[trigger] out.deep_view()[p], x@),
            decreases out@.len() - at,
        {
            proof {
                crate::lines::lemma_deep_view(out);
            }
            at = at + 1;
        }
        proof {
            crate::lines::lemma_deep_view(out);
        }
        let ghost pre_out = out;
        out.insert(at, x);
        proof {
            crate::lines::lemma_deep_view(pre_out);
            crate::lines::lemma_deep_view(out);
            assert(out@ == pre_out@.insert(at as int, x));
            assert forall|p: int|
                0 <= p < out@.len() implies out.deep_view()[p] == (if p < at {
                pre_out.deep_view()[p]
            } else if p == at {
                x@
            } else {
                pre_out.deep_view()[p - 1]
            }) by {
                if p < at {
                    assert(out@[p] == pre_out@[p]);
                } else if p == at {
                    assert(out@[p] == x);
                } else {
                    assert(out@[p] == pre_out@[p - 1]);
                }
            }
            assert(sorted_names(out.deep_view())) by {
                assert forall|p: int, q: int|
                    0 <= p <= q < out.deep_view().len() implies bytes_le(
                    #[trigger] out.deep_view()[p],
                    #[trigger] out.deep_view()[q],
                ) by {
                    let d = pre_out.deep_view();
                    if p < at && q == at {
                    } else if p == at && q > at {
                        lemma_bytes_le_total(d[q - 1], x@);
                        if q - 1 >= at {
                            assert(!bytes_le(d[at as int], x@) || at as int == q - 1);
                            if at as int <= q - 1 {
                                assert(bytes_le(d[at as int], d[q - 1]));
                            }
                            assert(bytes_le(x@, d[q - 1])) by {
                                if bytes_le(d[q - 1], x@) {
                                    lemma_bytes_le_trans(d[at as int], d[q - 1], x@);
                                    lemma_bytes_le_total(x@, d[q - 1]);
                                }
                            }
                        }
                    } else if p < at && q > at {
                    } else if p == at && q == at {
                        lemma_bytes_le_total(x@, x@);
                    }
                }
            }
            // The inserted element keeps the contents intact.
            assert(out@.remove(at as int) =~= pre_out@);
            assert(out.deep_view().remove(at as int) =~= pre_out.deep_view());
            out.deep_view().to_multiset_ensures();
            assert(out.deep_view().remove(at as int).to_multiset() =~= out.deep_view().to_multiset()
                .remove(out.deep_view()[at as int]));
            assert(out.deep_view().to_multiset().contains(x@)) by {
                out.deep_view().to_multiset_ensures();
            }
            assert(out.deep_view().to_multiset() =~= pre_out.deep_view().to_multiset().insert(
                x@,
            )) by {
                assert(pre_out.deep_view().to_multiset() =~= out.deep_view().to_multiset().remove(
                    x@,
                ));
            }
            assert(out.deep_view().to_multiset().add(rest.deep_view().to_multiset())
                =~= orig.to_multiset());
        }
    }
    proof {
        crate::lines::lemma_deep_view(rest);
        assert(rest.deep_view() =~= Seq::<Seq<u8>>::empty());
        assert(Seq::<Seq<u8>>::empty().to_multiset() =~= Multiset::<Seq<u8>>::empty());
        assert(out.deep_view().to_multiset().add(Multiset::<Seq<u8>>::empty())
            =~= out.deep_view().to_multiset());
    }
    out
}

/// The rotated sibling's name: the live name's stem, an underscore, the
/// rotation stamp, a dot and the live name's extension; names without a
/// proper extension fall back to the default extension, an empty name to the
/// default stem.
pub open spec fn rotated_name_spec(live: Seq<u8>, t: Timestamp) -> Seq<u8> {
    let stem = if live.len() == 0 {
        default_stem()
    } else if last_dot(live) <= 0 {
        live
    } else {
        live.take(last_dot(live))
    };
    let ext = if last_dot(live) <= 0 {
        default_ext()
    } else {
        live.skip(last_dot(live) + 1)
    };
    stem + seq![UNDERSCORE] + rotated_stamp(t) + seq![DOT] + ext
}

pub open spec fn default_stem() -> Seq<u8> {
    seq![107u8, 114u8, 111u8, 115u8, 115u8, 98u8, 97u8, 114u8, 95u8, 108u8, 111u8, 103u8]
}

pub open spec fn default_ext() -> Seq<u8> {
    seq![108u8, 111u8, 103u8]
}

/// Append all of `src` to `out`.
fn push_all(out: &mut Vec<u8>, src: &Vec<u8>)
    ensures
        final(out)@ == old(out)@ + src@,
{
    let mut k: usize = 0;
    while k < src.len()
        invariant
            k <= src@.len(),
            out@ == old(out)@ + src@.take(k as int),
        decreases src@.len() - k,
    {
        out.push(src[k]);
        proof {
            assert(old(out)@ + src@.take(k + 1) =~= (old(out)@ + src@.take(k as int)).push(
                src@[k as int],
            ));
        }
        k = k + 1;
    }
    proof {
        assert(src@.take(src@.len() as int) =~= src@);
    }
}

/// Build the rotated sibling's name for a rotation happening at `t`.
pub fn rotated_file_name(live_name: &Vec<u8>, t: &Timestamp) -> (r: Vec<u8>)
    requires
        t.valid(),
    ensures
        r@ == rotated_name_spec(live_name@, *t),
{
    let live_len = live_name.len();
    let split = find_last_dot_pub(live_name);
    proof {
        assert(live_len == live_name@.len());
        lemma_last_dot(live_name@);
    }
    let mut out: Vec<u8> = Vec::new();
    match split {
        Some(ld) if ld > 0 => {
            let stem = crate::log_file::subvec(live_name, 0, ld);
            push_all(&mut out, &stem);
        },
        _ => {
            if live_name.len() == 0 {
                let mut d: Vec<u8> = Vec::new();
                d.push(107);
                d.push(114);
                d.push(111);
                d.push(115);
                d.push(115);
                d.push(98);
                d.push(97);
                d.push(114);
                d.push(95);
                d.push(108);
                d.push(111);
                d.push(103);
                proof {
                    assert(d@ =~= default_stem());
                }
                push_all(&mut out, &d);
            } else {
                push_all(&mut out, live_name);
            }
        },
    }
    out.push(UNDERSCORE);
    let stamp = format_rotated_stamp(t);
    push_all(&mut out, &stamp);
    out.push(DOT);
    match split {
        Some(ld) if ld > 0 => {
            proof {
                assert(ld as int == last_dot(live_name@));
                assert((ld as int) < live_name@.len());
            }
            let ext = crate::log_file::subvec(live_name, ld + 1, live_name.len());
            push_all(&mut out, &ext);
        },
        _ => {
            let mut d: Vec<u8> = Vec::new();
            d.push(108);
            d.push(111);
            d.push(103);
            proof {
                assert(d@ =~= default_ext());
            }
            push_all(&mut out, &d);
        },
    }
    proof {
        assert(out@ =~= rotated_name_spec(live_name@, *t));
    }
    out
}

/// Find the last dot of a name; `None` when it has none.
pub fn find_last_dot_pub(name: &Vec<u8>) -> (r: Option<usize>)
    ensures
        r == (if last_dot(name@) >= 0 {
            Some(last_dot(name@) as usize)
        } else {
            Option::<usize>::None
        }),
{
    let mut k: usize = name.len();
    while k > 0
        invariant
            k <= name@.len(),
            forall|q: int| k <= q < name@.len() ==> name@[q] != DOT,
        decreases k,
    {
        k = k - 1;
        if name[k] == DOT {
            proof {
                lemma_last_dot(name@);
                assert(last_dot(name@) == k) by {
                    if last_dot(name@) < k {
                        assert(name@[k as int] != DOT);
                    }
                    if last_dot(name@) > k {
                        assert(name@[last_dot(name@)] != DOT);
                    }
                }
            }
            return Some(k);
        }
    }
    proof {
        lemma_last_dot(name@);
        assert(last_dot(name@) < 0) by {
            if last_dot(name@) >= 0 {
                assert(name@[last_dot(name@)] == DOT);
            }
        }
    }
    None
}

/// Retention for size-rotated logs.
pub struct Rotator {
    pub keep_num_files: usize,
    pub log_location: Vec<u8>,
}

impl Rotator {
    pub fn new(keep_num_files: usize, log_location: Vec<u8>) -> (r: Rotator)
        ensures
            r.keep_num_files == keep_num_files,
            r.log_location@ == log_location@,
    {
        Rotator { keep_num_files, log_location }
    }

    /// The name the live file takes when rotated at `t`.
    pub fn rotated_path(&self, t: &Timestamp) -> (r: Vec<u8>)
        requires
            t.valid(),
        ensures
            r@ == rotated_name_spec(self.log_location@, *t),
    {
        rotated_file_name(&self.log_location, t)
    }

    /// The name the live file takes when rotated now.
    pub fn rotated_path_now(&self) -> (r: Vec<u8>)
        ensures
            exists|t: Timestamp| t.valid() && r@ == rotated_name_spec(self.log_location@, t),
    {
        let t = crate::timestamp::now_clamped();
        let r = rotated_file_name(&self.log_location, &t);
        proof {
            assert(t.valid() && r@ == rotated_name_spec(self.log_location@, t));
        }
        r
    }

    /// Split the directory listing into the names to remove — the
    /// lexicographically smallest beyond the retention cap, which for
    /// stamped names are the oldest — and the names to keep.
    pub fn removal_plan(&self, file_names: Vec<Vec<u8>>) -> (r: (Vec<Vec<u8>>, Vec<Vec<u8>>))
        ensures
            sorted_names(r.0.deep_view() + r.1.deep_view()),
            (r.0.deep_view() + r.1.deep_view()).to_multiset()
                == file_names.deep_view().to_multiset(),
            r.0@.len() == (if file_names@.len() > self.keep_num_files {
                file_names@.len() - self.keep_num_files
            } else {
                0
            }),
    {
        let sorted = sort_names(file_names);
        let ghost sd = sorted.deep_view();
        let delete_count = if sorted.len() > self.keep_num_files {
            sorted.len() - self.keep_num_files
        } else {
            0
        };
        let ghost sorted_vec = sorted;
        let mut head = sorted;
        let tail = head.split_off(delete_count);
        proof {
            crate::lines::lemma_deep_view(sorted_vec);
            crate::lines::lemma_deep_view(head);
            crate::lines::lemma_deep_view(tail);
            assert forall|p: int|
                0 <= p < sd.len() implies (head.deep_view() + tail.deep_view())[p] == sd[p] by {
                if p < delete_count {
                    assert(head@[p] == sorted_vec@[p]);
                } else {
                    assert(tail@[p - delete_count] == sorted_vec@[p]);
                }
            }
            assert(head.deep_view() + tail.deep_view() =~= sd);
        }
        (head, tail)
    }
}

/// A rotation's name coheres with discovery: the name built for a rotation
/// at `t` is exactly what the directory index accepts as a rotated sibling
/// of the live file, carrying the same stamp. This needs the live name's
/// extension dot to sit past its first byte; a name such as a bare stem
/// falls back to default parts the index does not look for.
pub proof fn lemma_rotated_name_accepted(live: Seq<u8>, t: Timestamp)
    requires
        t.valid(),
        t.millis == 0,
        last_dot(live) >= 1,
    ensures
        accepted(live, rotated_name_spec(live, t)),
        crate::dir_index::accepted_stamp_of(live, rotated_name_spec(live, t)) == t,
{
    let ld = last_dot(live);
    lemma_last_dot(live);
    let stem = live.take(ld);
    let ext = live.skip(ld + 1);
    let stamp = rotated_stamp(t);
    let name = rotated_name_spec(live, t);
    lemma_stamp_round_trip(t);
    assert(stamp.len() == 19);
    assert(name =~= stem + seq![UNDERSCORE] + stamp + seq![DOT] + ext);
    assert(name.len() == stem.len() + ext.len() + 21);
    assert(name.take(stem.len() as int) =~= stem);
    assert(name[stem.len() as int] == UNDERSCORE);
    assert(name.skip(name.len() - ext.len()) =~= ext);
    assert(name[name.len() - ext.len() - 1] == DOT);
    let mid = rotated_mid(name, stem, ext);
    assert(mid =~= stamp);
    assert forall|k: int| stem.len() + 1 <= k < name.len() - ext.len() - 1 implies name[k]
        != DOT by {
        let j = k - stem.len() - 1;
        assert(name[k] == stamp[j]);
        if j != 4 && j != 7 && j != 10 && j != 13 && j != 16 {
            assert(crate::timestamp::is_digit(stamp[j]));
        } else {
            assert(stamp[j] == UNDERSCORE);
        }
    }
    assert(matches_rotated(name, stem, ext));
    assert(name != live) by {
        assert(name.len() != live.len());
    }
    assert(stamp_of_text(mid) == t);
}

} // verus!
