//! The commit record: locating its two timestamps, patching them, and
//! brute-forcing a digest that carries the signature.
//!
//! A timestamp line starts with one of the two role markers, runs through
//! the role's name and address, and ends with `"> "`, the epoch seconds, one
//! whitespace byte, and a `+HHMM` zone offset.  The record must hold two
//! such lines; their digit runs are located once and patched by splicing,
//! never re-parsed.

use vstd::prelude::*;
use core::sync::atomic::{AtomicBool, AtomicUsize, Ordering};
use std::io::Write;
use rayon::iter::{IntoParallelIterator, ParallelIterator};
use crate::args::Args;
use crate::args::ArgsView;
use crate::digits::{
    all_digits, dec_int, digits_value, is_digit, lemma_dec_of_digits_value, parse_digits_value,
    push_decimal_i64, push_decimal_u64, dec_digits,
};
use crate::error::GashError;
use crate::hash::{
    create_validator, hex_of, hex_string, sha1_digest, sha1_of, sig_matches, valid_signature,
    HashMatcher,
};
use crate::spiral::{lemma_pair_in_window, lemma_pair_index, lemma_ring_monotone, ring_of, spec_pair, Spiral};
use crate::time::{TimeDelta, TimeDeltaView};

verus! {

/// A whitespace byte that can occur inside a line: space, tab, vertical
/// tab, form feed or carriage return.
pub open spec fn is_ws(b: u8) -> bool {
    b == 32 || b == 9 || b == 11 || b == 12 || b == 13
}

/// The first newline at or after `i`, or the end of the record.
pub open spec fn line_end(s: Seq<u8>, i: int) -> int
    decreases s.len() - i
        when 0 <= i <= s.len()
{
    if i >= s.len() {
        s.len() as int
    } else if s[i] == 10 {
        i
    } else {
        line_end(s, i + 1)
    }
}

/// The defining facts of `line_end`.
pub proof fn lemma_line_end(s: Seq<u8>, i: int)
    requires
        0 <= i <= s.len(),
    ensures
        i <= line_end(s, i) <= s.len(),
        forall|k: int| i <= k < line_end(s, i) ==> s[k] != 10,
        line_end(s, i) < s.len() ==> s[line_end(s, i)] == 10,
    decreases s.len() - i,
{
    if i < s.len() && s[i] != 10 {
        lemma_line_end(s, i + 1);
    }
}

/// The end of the maximal digit run starting at `i`, bounded by `le`.
pub open spec fn digit_run_end(s: Seq<u8>, i: int, le: int) -> int
    decreases le - i
        when i <= le
{
    if i >= le {
        i
    } else if is_digit(s[i]) {
        digit_run_end(s, i + 1, le)
    } else {
        i
    }
}

/// The defining facts of `digit_run_end`.
pub proof fn lemma_digit_run_end(s: Seq<u8>, i: int, le: int)
    requires
        i <= le,
    ensures
        i <= digit_run_end(s, i, le) <= le,
        forall|k: int| i <= k < digit_run_end(s, i, le) ==> is_digit(#[trigger] s[k]),
        digit_run_end(s, i, le) < le ==> !is_digit(s[digit_run_end(s, i, le)]),
    decreases le - i,
{
    if i < le && is_digit(s[i]) {
        lemma_digit_run_end(s, i + 1, le);
    }
}

/// After `"> "` the line must carry a digit run, one whitespace byte, a
/// plus sign, four digits, and nothing but whitespace to the line's end.
pub open spec fn tail_ts_match(s: Seq<u8>, j2: int, le: int) -> bool {
    let de = digit_run_end(s, j2, le);
    &&& de > j2
    &&& de + 6 <= le
    &&& is_ws(s[de])
    &&& s[de + 1] == 43
    &&& is_digit(s[de + 2])
    &&& is_digit(s[de + 3])
    &&& is_digit(s[de + 4])
    &&& is_digit(s[de + 5])
    &&& forall|k: int| de + 6 <= k < le ==> is_ws(#[trigger] s[k])
}

/// `"> "` stands at `j` and the rest of the line is a timestamp tail.
pub open spec fn gt_sp_at(s: Seq<u8>, j: int, le: int) -> bool {
    &&& j + 2 <= le
    &&& s[j] == 62
    &&& s[j + 1] == 32
    &&& tail_ts_match(s, j + 2, le)
}

/// The bytes of the marker `author`.
pub open spec fn author_bytes() -> Seq<u8> {
    seq![97u8, 117u8, 116u8, 104u8, 111u8, 114u8]
}

/// The bytes of the marker `committer`.
pub open spec fn committer_bytes() -> Seq<u8> {
    seq![99u8, 111u8, 109u8, 109u8, 105u8, 116u8, 116u8, 101u8, 114u8]
}

/// The line starts with one of the two role markers.
pub open spec fn line_has_role(s: Seq<u8>, ls: int, le: int) -> bool {
    ||| (ls + 6 <= le && s.subrange(ls, ls + 6) == author_bytes())
    ||| (ls + 9 <= le && s.subrange(ls, ls + 9) == committer_bytes())
}

/// The line `[ls, le)` is a timestamp line.
pub open spec fn line_matches(s: Seq<u8>, ls: int, le: int) -> bool {
    &&& line_has_role(s, ls, le)
    &&& exists|j: int| ls <= j && #[trigger] gt_sp_at(s, j, le)
}

/// The digit run of a matching line: its start and end.
pub open spec fn line_ts_bounds(s: Seq<u8>, ls: int, le: int) -> (int, int)
    recommends
        line_matches(s, ls, le),
{
    let j = choose|j: int| ls <= j && #[trigger] gt_sp_at(s, j, le);
    (j + 2, digit_run_end(s, j + 2, le))
}

/// Only one position of a line can carry `"> "` followed by a valid tail:
/// no byte of a valid tail is `>`.
pub proof fn lemma_gt_sp_unique(s: Seq<u8>, le: int, j1: int, j2: int)
    requires
        gt_sp_at(s, j1, le),
        gt_sp_at(s, j2, le),
        j1 <= j2,
    ensures
        j1 == j2,
{
    if j1 < j2 {
        assert(j2 != j1 + 1);
        let ds = j1 + 2;
        let de = digit_run_end(s, ds, le);
        lemma_digit_run_end(s, ds, le);
        assert(ds <= j2 < le);
        if j2 < de {
            assert(is_digit(s[j2]));
        } else if j2 == de {
            assert(is_ws(s[j2]));
        } else if j2 == de + 1 {
            assert(s[j2] == 43);
        } else if j2 < de + 6 {
            assert(is_digit(s[j2]));
        } else {
            assert(is_ws(s[j2]));
        }
        assert(false);
    }
}

/// The timestamp occurrences of the record from line start `ls` on: the
/// digit-run bounds of each matching line, in order.
pub open spec fn occurrences_from(s: Seq<u8>, ls: int) -> Seq<(int, int)>
    decreases s.len() - ls
        when 0 <= ls <= s.len()
        via occurrences_from_decreases
{
    if ls >= s.len() {
        Seq::empty()
    } else {
        let le = line_end(s, ls);
        let head: Seq<(int, int)> = if line_matches(s, ls, le) {
            seq![line_ts_bounds(s, ls, le)]
        } else {
            Seq::empty()
        };
        let rest: Seq<(int, int)> = if le >= s.len() {
            Seq::empty()
        } else {
            occurrences_from(s, le + 1)
        };
        head + rest
    }
}

#[via_fn]
proof fn occurrences_from_decreases(s: Seq<u8>, ls: int) {
    if ls < s.len() {
        lemma_line_end(s, ls);
    }
}

/// The timestamp occurrences of the whole record.
pub open spec fn timestamp_occurrences(s: Seq<u8>) -> Seq<(int, int)> {
    occurrences_from(s, 0)
}

/// An occurrence entry is sound: a non-empty digit run inside the record,
/// followed by whitespace, a plus sign and four digits.
pub open spec fn occ_entry_ok(s: Seq<u8>, ls: int, e: (int, int)) -> bool {
    &&& ls + 2 <= e.0 < e.1
    &&& e.1 + 6 <= s.len()
    &&& all_digits(s.subrange(e.0, e.1))
    &&& is_ws(s[e.1])
    &&& s[e.1 + 1] == 43
    &&& is_digit(s[e.1 + 2])
    &&& is_digit(s[e.1 + 3])
    &&& is_digit(s[e.1 + 4])
    &&& is_digit(s[e.1 + 5])
}

/// Every occurrence is sound, and successive occurrences do not overlap.
pub proof fn lemma_occurrences_props(s: Seq<u8>, ls: int)
    requires
        0 <= ls <= s.len(),
    ensures
        forall|k: int|
            0 <= k < occurrences_from(s, ls).len() ==> occ_entry_ok(
                s,
                ls,
                #[trigger] occurrences_from(s, ls)[k],
            ),
        forall|k: int|
            0 <= k < occurrences_from(s, ls).len() - 1 ==> (#[trigger] occurrences_from(s, ls)[k]).1
                + 6 < occurrences_from(s, ls)[k + 1].0,
    decreases s.len() - ls,
{
    if ls < s.len() {
        let le = line_end(s, ls);
        lemma_line_end(s, ls);
        let rest: Seq<(int, int)> = if le >= s.len() {
            Seq::empty()
        } else {
            occurrences_from(s, le + 1)
        };
        if le < s.len() {
            lemma_occurrences_props(s, le + 1);
        }
        if line_matches(s, ls, le) {
            let j = choose|j: int| ls <= j && #[trigger] gt_sp_at(s, j, le);
            let ds = j + 2;
            let de = digit_run_end(s, ds, le);
            lemma_digit_run_end(s, ds, le);
            assert(all_digits(s.subrange(ds, de))) by {
                assert(forall|k: int|
                    0 <= k < de - ds ==> is_digit(#[trigger] s.subrange(ds, de)[k]));
            }
            assert(occ_entry_ok(s, ls, (ds, de)));
            let all = occurrences_from(s, ls);
            assert(all == seq![(ds, de)] + rest);
            assert forall|k: int| 0 <= k < all.len() implies occ_entry_ok(
                s,
                ls,
                #[trigger] all[k],
            ) by {
                if k == 0 {
                    assert(all[0] == (ds, de));
                } else {
                    assert(all[k] == rest[k - 1]);
                    assert(occ_entry_ok(s, le + 1, rest[k - 1]));
                }
            }
            assert forall|k: int| 0 <= k < all.len() - 1 implies (#[trigger] all[k]).1 + 6
                < all[k + 1].0 by {
                if k == 0 {
                    assert(all[1] == rest[0]);
                    assert(occ_entry_ok(s, le + 1, rest[0]));
                    assert(de + 6 <= le);
                } else {
                    assert(all[k] == rest[k - 1] && all[k + 1] == rest[k]);
                }
            }
        } else {
            let all = occurrences_from(s, ls);
            assert(all == rest);
            assert forall|k: int| 0 <= k < all.len() implies occ_entry_ok(
                s,
                ls,
                #[trigger] all[k],
            ) by {
                assert(all[k] == rest[k]);
                assert(occ_entry_ok(s, le + 1, rest[k]));
            }
        }
    }
}

/// The zone offset, in seconds, written as `+HHMM` right after the
/// whitespace byte that ends the digit run at `de`.
pub open spec fn tz_secs_at(s: Seq<u8>, de: int) -> int {
    ((s[de + 2] - 48) * 10 + (s[de + 3] - 48)) * 3600 + ((s[de + 4] - 48) * 10 + (s[de + 5]
        - 48)) * 60
}

/// What a parsed commit stands for: its text and the two timestamp
/// occurrences, each with its value, digit-run bounds and zone offset.
pub struct CommitView {
    pub text: Seq<u8>,
    pub a_val: int,
    pub a_start: int,
    pub a_end: int,
    pub a_tz: int,
    pub c_val: int,
    pub c_start: int,
    pub c_end: int,
    pub c_tz: int,
}

/// A commit view is well formed when its occurrence fields are the first
/// two timestamp occurrences of its text, with their values and offsets.
pub open spec fn view_wf(v: CommitView) -> bool {
    let occ = timestamp_occurrences(v.text);
    &&& occ.len() >= 2
    &&& (v.a_start, v.a_end) == occ[0]
    &&& (v.c_start, v.c_end) == occ[1]
    &&& v.a_end - v.a_start <= 18
    &&& v.c_end - v.c_start <= 18
    &&& v.a_val == digits_value(v.text.subrange(v.a_start, v.a_end))
    &&& v.c_val == digits_value(v.text.subrange(v.c_start, v.c_end))
    &&& v.a_tz == tz_secs_at(v.text, v.a_end)
    &&& v.c_tz == tz_secs_at(v.text, v.c_end)
}

/// A commit record with its two timestamps located.
pub struct Commit {
    text: Vec<u8>,
    a_val: i64,
    a_start: usize,
    a_end: usize,
    a_tz: i32,
    c_val: i64,
    c_start: usize,
    c_end: usize,
    c_tz: i32,
}

impl View for Commit {
    type V = CommitView;

    closed spec fn view(&self) -> CommitView {
        CommitView {
            text: self.text@,
            a_val: self.a_val as int,
            a_start: self.a_start as int,
            a_end: self.a_end as int,
            a_tz: self.a_tz as int,
            c_val: self.c_val as int,
            c_start: self.c_start as int,
            c_end: self.c_end as int,
            c_tz: self.c_tz as int,
        }
    }
}

/// The text with both timestamp digit runs replaced by the adjusted
/// values, and nothing else changed.
pub open spec fn patched_spec(v: CommitView, da: int, dc: int) -> Seq<u8> {
    v.text.subrange(0, v.a_start) + dec_int(v.a_val + da) + v.text.subrange(v.a_end, v.c_start)
        + dec_int(v.c_val + dc) + v.text.subrange(v.c_end, v.text.len() as int)
}

/// The end of the line, by scanning.
fn find_line_end(text: &Vec<u8>, ls: usize) -> (le: usize)
    requires
        ls <= text@.len(),
    ensures
        le == line_end(text@, ls as int),
        ls <= le <= text@.len(),
{
    let n = text.len();
    let mut i: usize = ls;
    while i < n
        invariant
            ls <= i <= n == text@.len(),
            line_end(text@, ls as int) == line_end(text@, i as int),
        decreases n - i,
    {
        if text[i] == 10 {
            return i;
        }
        i = i + 1;
    }
    i
}

/// Whether the line starts with a role marker.
fn has_role(text: &Vec<u8>, ls: usize, le: usize) -> (r: bool)
    requires
        ls <= le <= text@.len(),
        text@.len() + 100 <= usize::MAX,
    ensures
        r == line_has_role(text@, ls as int, le as int),
{
    if ls + 6 <= le && text[ls] == 97 && text[ls + 1] == 117 && text[ls + 2] == 116 && text[ls
        + 3] == 104 && text[ls + 4] == 111 && text[ls + 5] == 114 {
        proof {
            assert(text@.subrange(ls as int, ls + 6) =~= author_bytes());
        }
        return true;
    }
    if ls + 9 <= le && text[ls] == 99 && text[ls + 1] == 111 && text[ls + 2] == 109 && text[ls
        + 3] == 109 && text[ls + 4] == 105 && text[ls + 5] == 116 && text[ls + 6] == 116
        && text[ls + 7] == 101 && text[ls + 8] == 114 {
        proof {
            assert(text@.subrange(ls as int, ls + 9) =~= committer_bytes());
        }
        return true;
    }
    proof {
        let s = text@;
        if ls + 6 <= le && s.subrange(ls as int, ls + 6) == author_bytes() {
            assert(s[ls as int] == s.subrange(ls as int, ls + 6)[0]);
            assert(s[ls + 1] == s.subrange(ls as int, ls + 6)[1]);
            assert(s[ls + 2] == s.subrange(ls as int, ls + 6)[2]);
            assert(s[ls + 3] == s.subrange(ls as int, ls + 6)[3]);
            assert(s[ls + 4] == s.subrange(ls as int, ls + 6)[4]);
            assert(s[ls + 5] == s.subrange(ls as int, ls + 6)[5]);
            assert(false);
        }
        if ls + 9 <= le && s.subrange(ls as int, ls + 9) == committer_bytes() {
            assert(s[ls as int] == s.subrange(ls as int, ls + 9)[0]);
            assert(s[ls + 1] == s.subrange(ls as int, ls + 9)[1]);
            assert(s[ls + 2] == s.subrange(ls as int, ls + 9)[2]);
            assert(s[ls + 3] == s.subrange(ls as int, ls + 9)[3]);
            assert(s[ls + 4] == s.subrange(ls as int, ls + 9)[4]);
            assert(s[ls + 5] == s.subrange(ls as int, ls + 9)[5]);
            assert(s[ls + 6] == s.subrange(ls as int, ls + 9)[6]);
            assert(s[ls + 7] == s.subrange(ls as int, ls + 9)[7]);
            assert(s[ls + 8] == s.subrange(ls as int, ls + 9)[8]);
            assert(false);
        }
    }
    false
}

/// Whether a timestamp tail stands at `j2`, and where its digit run ends.
fn check_tail(text: &Vec<u8>, j2: usize, le: usize) -> (r: Option<usize>)
    requires
        j2 <= le <= text@.len(),
        text@.len() + 100 <= usize::MAX,
    ensures
        r is Some <==> tail_ts_match(text@, j2 as int, le as int),
        r matches Some(de) ==> de as int == digit_run_end(text@, j2 as int, le as int),
{
    let ghost s = text@;
    proof {
        lemma_digit_run_end(s, j2 as int, le as int);
    }
    let mut i: usize = j2;
    while i < le
        invariant_except_break
            j2 <= i <= le <= text@.len(),
            s == text@,
            digit_run_end(s, j2 as int, le as int) == digit_run_end(s, i as int, le as int),
        ensures
            j2 <= i <= le <= text@.len(),
            s == text@,
            i as int == digit_run_end(s, j2 as int, le as int),
        decreases le - i,
    {
        let b = text[i];
        if !(48 <= b && b <= 57) {
            proof {
                assert(!is_digit(s[i as int]));
                assert(digit_run_end(s, i as int, le as int) == i);
            }
            break;
        }
        i = i + 1;
    }
    let de = i;
    if de == j2 {
        return None;
    }
    if de + 6 > le {
        return None;
    }
    let w = text[de];
    if !(w == 32 || w == 9 || w == 11 || w == 12 || w == 13) {
        return None;
    }
    if text[de + 1] != 43 {
        return None;
    }
    let d2 = text[de + 2];
    let d3 = text[de + 3];
    let d4 = text[de + 4];
    let d5 = text[de + 5];
    if !(48 <= d2 && d2 <= 57) || !(48 <= d3 && d3 <= 57) || !(48 <= d4 && d4 <= 57) || !(48 <= d5
        && d5 <= 57) {
        return None;
    }
    let mut k: usize = de + 6;
    while k < le
        invariant
            de + 6 <= k <= le <= text@.len(),
            s == text@,
            j2 < de,
            de as int == digit_run_end(s, j2 as int, le as int),
            forall|t: int| de + 6 <= t < k ==> is_ws(#[trigger] s[t]),
        decreases le - k,
    {
        let b = text[k];
        if !(b == 32 || b == 9 || b == 11 || b == 12 || b == 13) {
            proof {
                assert(!is_ws(s[k as int]));
            }
            return None;
        }
        k = k + 1;
    }
    proof {
        assert(tail_ts_match(s, j2 as int, le as int));
    }
    Some(de)
}

/// Scan one line for its timestamp occurrence.
fn scan_line(text: &Vec<u8>, ls: usize, le: usize) -> (r: Option<(usize, usize)>)
    requires
        ls <= le <= text@.len(),
        text@.len() + 100 <= usize::MAX,
    ensures
        r is Some <==> line_matches(text@, ls as int, le as int),
        r matches Some(p) ==> (p.0 as int, p.1 as int) == line_ts_bounds(
            text@,
            ls as int,
            le as int,
        ),
{
    let ghost s = text@;
    if !has_role(text, ls, le) {
        return None;
    }
    let mut j = ls;
    while j + 1 < le
        invariant
            ls <= j,
            j <= le <= text@.len(),
            text@.len() + 100 <= usize::MAX,
            s == text@,
            line_has_role(s, ls as int, le as int),
            forall|t: int| ls <= t < j ==> !(#[trigger] gt_sp_at(s, t, le as int)),
        decreases le - j,
    {
        if text[j] == 62 && text[j + 1] == 32 {
            match check_tail(text, j + 2, le) {
                Some(de) => {
                    proof {
                        assert(gt_sp_at(s, j as int, le as int));
                        assert(line_matches(s, ls as int, le as int));
                        let jc = choose|t: int| ls <= t && #[trigger] gt_sp_at(s, t, le as int);
                        if jc <= j as int {
                            lemma_gt_sp_unique(s, le as int, jc, j as int);
                        } else {
                            lemma_gt_sp_unique(s, le as int, j as int, jc);
                        }
                        assert(jc == j as int);
                    }
                    return Some((j + 2, de));
                },
                None => {
                    proof {
                        assert(!gt_sp_at(s, j as int, le as int));
                    }
                },
            }
        } else {
            proof {
                assert(!gt_sp_at(s, j as int, le as int));
            }
        }
        j = j + 1;
    }
    proof {
        if line_matches(s, ls as int, le as int) {
            let jc = choose|t: int| ls <= t && #[trigger] gt_sp_at(s, t, le as int);
            assert(jc + 2 <= le);
            assert(jc < j);
            assert(!gt_sp_at(s, jc, le as int));
            assert(false);
        }
    }
    None
}

impl Commit {
    /// Whether the commit's fields faithfully describe its text.
    pub open spec fn wf(&self) -> bool {
        view_wf(self@)
    }

    /// Parse a record: locate its two timestamp lines.
    ///
    /// Fails when fewer than two timestamp lines are found, or when a
    /// timestamp has more than eighteen digits and so cannot be adjusted
    /// within a 64-bit value.
    #[verifier::rlimit(50)]
    pub fn new(text: Vec<u8>) -> (r: Result<Commit, GashError>)
        requires
            text@.len() + 100 <= usize::MAX,
        ensures
            r matches Ok(c) ==> c.wf() && c@.text == text@,
            r is Ok <==> (timestamp_occurrences(text@).len() >= 2 && {
                let occ = timestamp_occurrences(text@);
                occ[0].1 - occ[0].0 <= 18 && occ[1].1 - occ[1].0 <= 18
            }),
            r matches Err(e) ==> (e == GashError::MissingTimestamps || e
                == GashError::TimestampOutOfRange),
            r matches Err(e) ==> (e == GashError::MissingTimestamps <==> timestamp_occurrences(
                text@,
            ).len() < 2),
    {
        let ghost s = text@;
        let ghost all = timestamp_occurrences(s);
        let n = text.len();
        let mut found: Vec<(usize, usize)> = Vec::new();
        let mut ls: usize = 0;
        proof {
            assert(all.skip(0) =~= all);
        }
        while ls < n && found.len() < 2
            invariant
                ls <= n == text@.len(),
                text@.len() + 100 <= usize::MAX,
                s == text@,
                all == timestamp_occurrences(s),
                found@.len() <= 2,
                found@.len() <= all.len(),
                occurrences_from(s, ls as int) == all.skip(found@.len() as int),
                forall|k: int|
                    0 <= k < found@.len() ==> ((#[trigger] found@[k]).0 as int,
                    found@[k].1 as int) == all[k],
            decreases n - ls,
        {
            let le = find_line_end(&text, ls);
            let ghost head: Seq<(int, int)> = if line_matches(s, ls as int, le as int) {
                seq![line_ts_bounds(s, ls as int, le as int)]
            } else {
                Seq::empty()
            };
            let ghost next: Seq<(int, int)> = if le as int >= s.len() {
                Seq::empty()
            } else {
                occurrences_from(s, le + 1)
            };
            proof {
                assert(occurrences_from(s, ls as int) == head + next);
            }
            let ghost k0 = found@.len() as int;
            match scan_line(&text, ls, le) {
                Some(p) => {
                    proof {
                        assert(head == seq![(p.0 as int, p.1 as int)]);
                        assert(all.skip(k0) == head + next);
                        assert(all.skip(k0).len() == 1 + next.len());
                        assert(all.skip(k0).len() == all.len() - k0);
                        assert(k0 + 1 <= all.len());
                        assert(all.skip(k0)[0] == all[k0]);
                        assert(all[k0] == (p.0 as int, p.1 as int));
                        assert forall|t: int| 0 <= t < next.len() implies all[k0 + 1 + t]
                            == next[t] by {
                            assert(all.skip(k0)[1 + t] == (head + next)[1 + t]);
                            assert(all.skip(k0)[1 + t] == all[k0 + 1 + t]);
                        }
                        assert(all.skip(k0 + 1) =~= next);
                    }
                    found.push(p);
                },
                None => {
                    proof {
                        assert(head =~= Seq::<(int, int)>::empty());
                        assert(head + next =~= next);
                    }
                },
            }
            ls = if le < n {
                le + 1
            } else {
                n
            };
        }
        if found.len() < 2 {
            proof {
                assert(ls == n);
                assert(occurrences_from(s, n as int) =~= Seq::<(int, int)>::empty());
                assert(all.skip(found@.len() as int).len() == all.len() - found@.len());
                assert(all.len() == found@.len());
            }
            return Err(GashError::MissingTimestamps);
        }
        proof {
            assert(all.len() >= 2);
            lemma_occurrences_props(s, 0);
            assert(occurrences_from(s, 0)[0] == all[0]);
            assert(occurrences_from(s, 0)[1] == all[1]);
            assert(occ_entry_ok(s, 0, all[0]));
            assert(occ_entry_ok(s, 0, all[1]));
        }
        let (a_start, a_end) = (found[0].0, found[0].1);
        let (c_start, c_end) = (found[1].0, found[1].1);
        if a_end - a_start > 18 || c_end - c_start > 18 {
            return Err(GashError::TimestampOutOfRange);
        }
        let a_val = parse_digits_value(&text, a_start, a_end) as i64;
        let c_val = parse_digits_value(&text, c_start, c_end) as i64;
        let a_tz: i32 = ((text[a_end + 2] - 48) as i32 * 10 + (text[a_end + 3] - 48) as i32)
            * 3600 + ((text[a_end + 4] - 48) as i32 * 10 + (text[a_end + 5] - 48) as i32) * 60;
        let c_tz: i32 = ((text[c_end + 2] - 48) as i32 * 10 + (text[c_end + 3] - 48) as i32)
            * 3600 + ((text[c_end + 4] - 48) as i32 * 10 + (text[c_end + 5] - 48) as i32) * 60;
        let c = Commit { text, a_val, a_start, a_end, a_tz, c_val, c_start, c_end, c_tz };
        proof {
            assert(c.wf());
        }
        Ok(c)
    }

    /// Build the record text with the author timestamp shifted by `da`
    /// seconds and the committer timestamp by `dc`.
    pub fn with_diff(&self, da: i64, dc: i64) -> (r: Vec<u8>)
        requires
            self.wf(),
            i64::MIN < self@.a_val + da <= i64::MAX,
            i64::MIN < self@.c_val + dc <= i64::MAX,
        ensures
            r@ == patched_spec(self@, da as int, dc as int),
    {
        proof {
            lemma_occurrences_props(self@.text, 0);
            assert(occ_entry_ok(self@.text, 0, timestamp_occurrences(self@.text)[0]));
            assert(occ_entry_ok(self@.text, 0, timestamp_occurrences(self@.text)[1]));
        }
        let sl = self.text.as_slice();
        let mut out: Vec<u8> = Vec::with_capacity(self.text.len());
        out.extend_from_slice(&sl[0..self.a_start]);
        proof {
            assert(out@ =~= self@.text.subrange(0, self@.a_start));
        }
        push_decimal_i64(&mut out, self.a_val + da);
        out.extend_from_slice(&sl[self.a_end..self.c_start]);
        proof {
            assert(out@ =~= self@.text.subrange(0, self@.a_start) + dec_int(self@.a_val + da)
                + self@.text.subrange(self@.a_end, self@.c_start));
        }
        push_decimal_i64(&mut out, self.c_val + dc);
        out.extend_from_slice(&sl[self.c_end..self.text.len()]);
        proof {
            assert(out@ =~= patched_spec(self@, da as int, dc as int));
        }
        out
    }
}

/// Law: with both deltas zero the patch reproduces the record byte for
/// byte, provided the record's timestamp digit runs carry no leading zero
/// (so each is the canonical rendering of its value).  A record whose
/// timestamp is written with a leading zero is reproduced with the zero
/// dropped instead.
pub proof fn lemma_patch_zero_identity(v: CommitView)
    requires
        view_wf(v),
        v.text[v.a_start] != 48 || v.a_end - v.a_start == 1,
        v.text[v.c_start] != 48 || v.c_end - v.c_start == 1,
    ensures
        patched_spec(v, 0, 0) == v.text,
{
    lemma_occurrences_props(v.text, 0);
    assert(occ_entry_ok(v.text, 0, timestamp_occurrences(v.text)[0]));
    assert(occ_entry_ok(v.text, 0, timestamp_occurrences(v.text)[1]));
    let sa = v.text.subrange(v.a_start, v.a_end);
    let sc = v.text.subrange(v.c_start, v.c_end);
    assert(sa[0] == v.text[v.a_start]);
    assert(sc[0] == v.text[v.c_start]);
    lemma_dec_of_digits_value(sa);
    lemma_dec_of_digits_value(sc);
    assert(dec_int(v.a_val + 0) == sa);
    assert(dec_int(v.c_val + 0) == sc);
    assert(patched_spec(v, 0, 0) =~= v.text);
}

/// Law: a patch changes exactly the two timestamp digit runs.  The bytes
/// before the first run, between the runs, and after the second run are
/// those of the original record, and the two runs are replaced by the
/// decimal renderings of the adjusted values.
pub proof fn lemma_patch_changes_only_timestamps(v: CommitView, da: int, dc: int)
    requires
        view_wf(v),
    ensures
        ({
            let p = patched_spec(v, da, dc);
            let la = dec_int(v.a_val + da).len();
            let lc = dec_int(v.c_val + dc).len();
            let mid = v.c_start - v.a_end;
            &&& p.len() == v.text.len() - (v.a_end - v.a_start) - (v.c_end - v.c_start) + la + lc
            &&& p.subrange(0, v.a_start) == v.text.subrange(0, v.a_start)
            &&& p.subrange(v.a_start, v.a_start + la) == dec_int(v.a_val + da)
            &&& p.subrange(v.a_start + la, v.a_start + la + mid) == v.text.subrange(
                v.a_end,
                v.c_start,
            )
            &&& p.subrange(v.a_start + la + mid, v.a_start + la + mid + lc) == dec_int(
                v.c_val + dc,
            )
            &&& p.subrange(v.a_start + la + mid + lc, p.len() as int) == v.text.subrange(
                v.c_end,
                v.text.len() as int,
            )
        }),
{
    lemma_occurrences_props(v.text, 0);
    assert(occ_entry_ok(v.text, 0, timestamp_occurrences(v.text)[0]));
    assert(occ_entry_ok(v.text, 0, timestamp_occurrences(v.text)[1]));
    let p = patched_spec(v, da, dc);
    let la = dec_int(v.a_val + da).len();
    let lc = dec_int(v.c_val + dc).len();
    let mid = v.c_start - v.a_end;
    assert(p.subrange(0, v.a_start) =~= v.text.subrange(0, v.a_start));
    assert(p.subrange(v.a_start, v.a_start + la) =~= dec_int(v.a_val + da));
    assert(p.subrange(v.a_start + la, v.a_start + la + mid) =~= v.text.subrange(
        v.a_end,
        v.c_start,
    ));
    assert(p.subrange(v.a_start + la + mid, v.a_start + la + mid + lc) =~= dec_int(v.c_val + dc));
    assert(p.subrange(v.a_start + la + mid + lc, p.len() as int) =~= v.text.subrange(
        v.c_end,
        v.text.len() as int,
    ));
}

/// The canonical object encoding that is hashed: the kind, the byte
/// length, a NUL, then the record text.
pub open spec fn framed_spec(p: Seq<u8>) -> Seq<u8> {
    seq![99u8, 111u8, 109u8, 109u8, 105u8, 116u8, 32u8] + dec_digits(p.len()) + seq![0u8] + p
}

/// Build the canonical object encoding of a record.
pub fn frame_commit(p: &Vec<u8>) -> (r: Vec<u8>)
    ensures
        r@ == framed_spec(p@),
{
    let mut r: Vec<u8> = Vec::with_capacity(p.len());
    r.push(99);
    r.push(111);
    r.push(109);
    r.push(109);
    r.push(105);
    r.push(116);
    r.push(32);
    proof {
        assert(r@ =~= seq![99u8, 111u8, 109u8, 109u8, 105u8, 116u8, 32u8]);
    }
    push_decimal_u64(&mut r, p.len() as u64);
    r.push(0);
    let ghost before = r@;
    let mut i: usize = 0;
    while i < p.len()
        invariant
            0 <= i <= p@.len(),
            r@ == before + p@.take(i as int),
        decreases p@.len() - i,
    {
        r.push(p[i]);
        proof {
            assert(r@ =~= before + p@.take(i + 1));
        }
        i = i + 1;
    }
    proof {
        assert(p@.take(p@.len() as int) =~= p@);
        assert(r@ =~= framed_spec(p@));
    }
    r
}

/// The record text of candidate `n`: the spiral's `n`-th delta pair
/// spliced into the record.
pub open spec fn candidate_text(v: CommitView, n: int) -> Seq<u8> {
    patched_spec(v, spec_pair(n).0, spec_pair(n).1)
}

/// The digest of candidate `n`.
pub open spec fn candidate_hash(v: CommitView, n: int) -> Seq<u8> {
    sha1_of(framed_spec(candidate_text(v, n)))
}

/// Candidate `n` qualifies: its digest carries the signature.
pub open spec fn candidate_ok(v: CommitView, sig: Seq<char>, as_suffix: bool, n: int) -> bool {
    sig_matches(sig, as_suffix, candidate_hash(v, n))
}

/// The first qualifying candidate index in `[n, top]`, if any.
pub open spec fn first_match_from(
    v: CommitView,
    sig: Seq<char>,
    as_suffix: bool,
    n: int,
    top: int,
) -> Option<int>
    decreases top + 1 - n
        when n <= top + 1
{
    if n > top {
        None
    } else if candidate_ok(v, sig, as_suffix, n) {
        Some(n)
    } else {
        first_match_from(v, sig, as_suffix, n + 1, top)
    }
}

/// When nothing in `[m, n)` qualifies and `n` does, the first match from
/// `m` is `n`.
proof fn lemma_first_match_here(
    v: CommitView,
    sig: Seq<char>,
    as_suffix: bool,
    m: int,
    n: int,
    top: int,
)
    requires
        1 <= m <= n <= top,
        forall|k: int| m <= k < n ==> !candidate_ok(v, sig, as_suffix, k),
        candidate_ok(v, sig, as_suffix, n),
    ensures
        first_match_from(v, sig, as_suffix, m, top) == Some(n),
    decreases n - m,
{
    if m < n {
        lemma_first_match_here(v, sig, as_suffix, m + 1, n, top);
    }
}

/// When nothing in `[m, top]` qualifies, there is no first match from `m`.
proof fn lemma_first_match_none(
    v: CommitView,
    sig: Seq<char>,
    as_suffix: bool,
    m: int,
    top: int,
)
    requires
        1 <= m <= top + 1,
        forall|k: int| m <= k <= top ==> !candidate_ok(v, sig, as_suffix, k),
    ensures
        first_match_from(v, sig, as_suffix, m, top) is None,
    decreases top + 1 - m,
{
    if m <= top {
        lemma_first_match_none(v, sig, as_suffix, m + 1, top);
    }
}


/// The first match from `m` is a qualifying candidate, within range, with
/// nothing qualifying before it.
proof fn lemma_first_match_props(
    v: CommitView,
    sig: Seq<char>,
    as_suffix: bool,
    m: int,
    top: int,
)
    requires
        1 <= m <= top + 1,
        first_match_from(v, sig, as_suffix, m, top) is Some,
    ensures
        ({
            let n0 = first_match_from(v, sig, as_suffix, m, top)->0;
            &&& m <= n0 <= top
            &&& candidate_ok(v, sig, as_suffix, n0)
            &&& forall|k: int| m <= k < n0 ==> !candidate_ok(v, sig, as_suffix, k)
        }),
    decreases top + 1 - m,
{
    if m <= top && !candidate_ok(v, sig, as_suffix, m) {
        lemma_first_match_props(v, sig, as_suffix, m + 1, top);
    }
}

/// Law: the sequential winner lies on the smallest qualifying ring.  Every
/// qualifying candidate's delta pair is at least as many rings out as the
/// first match's, so the sequential search disturbs the timestamps as
/// little as any qualifying adjustment can.
pub proof fn lemma_sequential_winner_ring_minimal(
    v: CommitView,
    sig: Seq<char>,
    as_suffix: bool,
    top: int,
    n: int,
)
    requires
        1 <= top,
        first_match_from(v, sig, as_suffix, 1, top) is Some,
        1 <= n <= top,
        candidate_ok(v, sig, as_suffix, n),
    ensures
        ring_of(first_match_from(v, sig, as_suffix, 1, top)->0) <= ring_of(n),
{
    lemma_first_match_props(v, sig, as_suffix, 1, top);
    let n0 = first_match_from(v, sig, as_suffix, 1, top)->0;
    assert(n0 <= n);
    lemma_ring_monotone(n0, n);
}

/// Simple struct to return the results of our brute force search.
pub struct BruteForceResult {
    /// The new brute forced hash, as lower-case hex.
    pub sha1: String,
    /// The patched commit text that created the hash.
    pub patched_commit: Vec<u8>,
    /// How much the author timestamp has been changed.
    pub da: TimeDelta,
    /// How much the committer timestamp has been changed.
    pub dc: TimeDelta,
}

/// The result `r` is exactly what candidate `n` yields: its digest in hex,
/// its patched text, and the two deltas against the original timestamps.
pub open spec fn result_matches(
    v: CommitView,
    sig: Seq<char>,
    as_suffix: bool,
    n: int,
    r: BruteForceResult,
) -> bool {
    &&& candidate_ok(v, sig, as_suffix, n)
    &&& r.sha1@ == hex_of(candidate_hash(v, n))
    &&& r.patched_commit@ == candidate_text(v, n)
    &&& r.da@ == (TimeDeltaView { epoch: v.a_val, tz_secs: v.a_tz, diff_secs: spec_pair(n).0 })
    &&& r.dc@ == (TimeDeltaView { epoch: v.c_val, tz_secs: v.c_tz, diff_secs: spec_pair(n).1 })
}

/// What any search outcome must satisfy: a result is some qualifying
/// candidate's result; no result means no candidate qualifies.
pub open spec fn search_outcome_ok(
    v: CommitView,
    a: ArgsView,
    r: Option<BruteForceResult>,
) -> bool {
    let top = Spiral::spec_count(a.max_variance);
    match r {
        None => forall|n: int| 1 <= n <= top ==> !candidate_ok(v, a.signature, a.stealth, n),
        Some(res) => exists|n: int|
            1 <= n <= top && #[trigger] result_matches(v, a.signature, a.stealth, n, res),
    }
}

/// What the sequential search satisfies on top: the result is the first
/// qualifying candidate in ring order.
pub open spec fn sequential_outcome_ok(
    v: CommitView,
    a: ArgsView,
    r: Option<BruteForceResult>,
) -> bool {
    let top = Spiral::spec_count(a.max_variance);
    let fm = first_match_from(v, a.signature, a.stealth, 1, top);
    match r {
        None => fm is None,
        Some(res) => fm is Some && result_matches(v, a.signature, a.stealth, fm->0, res),
    }
}

/// The shared state of one search call: a counter of candidates tried and
/// a found-flag that stops progress output once a match exists.
struct SearchState {
    count: AtomicUsize,
    found: AtomicBool,
}

/// Relies on `std::io::Write` for standard error: carriage-returns the
/// progress figure in place.  Display only.
#[verifier::external_body]
fn emit_progress(pad: &str, thousands: usize) {
    let _ = write!(std::io::stderr(), "\r{}hashes {}k", pad, thousands);
}

/// Relies on `std::io::Write` for standard error: moves off the progress
/// line once a match is found.  Display only.
#[verifier::external_body]
fn emit_progress_end() {
    let _ = writeln!(std::io::stderr());
}

/// Try candidate `n`: record the attempt, patch, hash, test.  The outcome
/// is a function of the record, the signature and the index alone; the
/// shared state only drives progress output.
fn search_step(
    commit: &Commit,
    matcher: &HashMatcher,
    state: &SearchState,
    progress: bool,
    pad: &'static str,
    n: i64,
) -> (r: Option<BruteForceResult>)
    requires
        commit.wf(),
        matcher.wf(),
        valid_signature(matcher@.sig),
        1 <= n <= Spiral::spec_count(1_000_000_000),
    ensures
        r is Some <==> candidate_ok(commit@, matcher@.sig, matcher@.as_suffix, n as int),
        r matches Some(res) ==> result_matches(
            commit@,
            matcher@.sig,
            matcher@.as_suffix,
            n as int,
            res,
        ),
{
    if progress {
        if !state.found.load(Ordering::SeqCst) {
            let k = state.count.fetch_add(1, Ordering::SeqCst);
            if k % 1000 == 0 {
                emit_progress(pad, k / 1000);
            }
        }
    }
    proof {
        assert((2 * 1_000_000_000 + 1) * (2 * 1_000_000_000 + 1) - 1 < 0x4000_0000_0000_0000int)
            by (nonlinear_arith);
        lemma_pair_in_window(1_000_000_000, n as int);
        lemma_pair_index(n as int);
        lemma_occurrences_props(commit@.text, 0);
        assert(occ_entry_ok(commit@.text, 0, timestamp_occurrences(commit@.text)[0]));
        assert(occ_entry_ok(commit@.text, 0, timestamp_occurrences(commit@.text)[1]));
        crate::digits::lemma_digits_value_bound(commit@.text.subrange(
            commit@.a_start,
            commit@.a_end,
        ));
        crate::digits::lemma_digits_value_bound(commit@.text.subrange(
            commit@.c_start,
            commit@.c_end,
        ));
        crate::digits::lemma_pow10_monotone((commit@.a_end - commit@.a_start) as nat, 18);
        crate::digits::lemma_pow10_monotone((commit@.c_end - commit@.c_start) as nat, 18);
        crate::digits::lemma_pow10_18();
    }
    let (da, dc) = Spiral::pair(n);
    let patched = commit.with_diff(da, dc);
    let framed = frame_commit(&patched);
    let digest = sha1_digest(&framed);
    if matcher.matches(digest.as_slice()) {
        if progress {
            state.found.store(true, Ordering::SeqCst);
            emit_progress_end();
        }
        let sha1 = hex_string(&digest);
        let res = BruteForceResult {
            sha1,
            patched_commit: patched,
            da: TimeDelta::new(commit.a_val, commit.a_tz, da),
            dc: TimeDelta::new(commit.c_val, commit.c_tz, dc),
        };
        proof {
            assert(result_matches(commit@, matcher@.sig, matcher@.as_suffix, n as int, res));
        }
        Some(res)
    } else {
        None
    }
}

/// Relies on rayon: `find_map_any` over the inclusive index range applies
/// the closure to items of the range and returns some `Some` value the
/// closure produced, or `None` only once the closure returned `None` for
/// every index.  The closure only calls the verified `search_step`, whose
/// outcome on `n` is `Some` exactly when candidate `n` qualifies, whatever
/// the shared progress state held; which qualifying candidate wins is
/// deliberately left open.
#[verifier::external_body]
fn par_search(
    commit: &Commit,
    matcher: &HashMatcher,
    state: &SearchState,
    progress: bool,
    pad: &'static str,
    top: i64,
) -> (r: Option<BruteForceResult>)
    requires
        commit.wf(),
        matcher.wf(),
        valid_signature(matcher@.sig),
        0 <= top <= Spiral::spec_count(1_000_000_000),
    ensures
        r matches Some(res) ==> exists|n: int|
            1 <= n <= top && #[trigger] result_matches(
                commit@,
                matcher@.sig,
                matcher@.as_suffix,
                n,
                res,
            ),
        r is None ==> forall|n: int|
            1 <= n <= top ==> !candidate_ok(commit@, matcher@.sig, matcher@.as_suffix, n),
{
    (1i64..=top).into_par_iter().find_map_any(|n| search_step(
        commit,
        matcher,
        state,
        progress,
        pad,
        n,
    ))
}

impl Commit {
    /// Brute force the sha1 hash of the commit, by patching the commit's
    /// timestamps and trying to change the author and committer timestamps
    /// as little as possible.
    ///
    /// An invalid signature fails before any candidate is tried.  In
    /// sequential mode the result is the first qualifying candidate in
    /// ring order; in parallel mode it is some qualifying candidate.
    pub fn brute_force_sha1(&self, args: &Args) -> (r: Result<
        Option<BruteForceResult>,
        GashError,
    >)
        requires
            self.wf(),
            0 <= args@.max_variance <= 1_000_000_000,
        ensures
            r is Ok <==> valid_signature(args@.signature),
            r matches Err(e) ==> (e == GashError::SignatureTooLong <==> args@.signature.len()
                > 40) && (args@.signature.len() <= 40 ==> e == GashError::SignatureNotHex),
            r matches Ok(o) ==> search_outcome_ok(self@, args@, o),
            r matches Ok(o) ==> (!args@.parallel ==> sequential_outcome_ok(self@, args@, o)),
    {
        let signature = args.signature();
        let matcher = match create_validator(signature.as_str(), args.stealth()) {
            Ok(m) => m,
            Err(e) => {
                return Err(e);
            },
        };
        let spiral = Spiral::new(args.max_variance());
        let top = spiral.count();
        proof {
            assert(Spiral::spec_count(args@.max_variance) <= Spiral::spec_count(
                1_000_000_000,
            )) by (nonlinear_arith)
                requires 0 <= args@.max_variance <= 1_000_000_000;
        }
        let state = SearchState {
            count: AtomicUsize::new(0),
            found: AtomicBool::new(false),
        };
        let pad: &'static str = if args.verbosity() > 0 {
            "        "
        } else {
            ""
        };
        let progress = args.progress();
        if args.parallel() {
            Ok(par_search(self, &matcher, &state, progress, pad, top))
        } else {
            let ghost v = self@;
            let ghost sig = args@.signature;
            let ghost sfx = args@.stealth;
            let mut n: i64 = 1;
            while n <= top
                invariant
                    1 <= n <= top + 1,
                    self.wf(),
                    v == self@,
                    matcher.wf(),
                    valid_signature(matcher@.sig),
                    matcher@.sig == sig,
                    matcher@.as_suffix == sfx,
                    top == Spiral::spec_count(args@.max_variance),
                    sig == args@.signature,
                    sfx == args@.stealth,
                    0 <= top <= Spiral::spec_count(1_000_000_000),
                    top < 0x4000_0000_0000_0000,
                    forall|k: int| 1 <= k < n ==> !candidate_ok(v, sig, sfx, k),
                decreases top + 1 - n,
            {
                match search_step(self, &matcher, &state, progress, pad, n) {
                    Some(res) => {
                        proof {
                            lemma_first_match_here(v, sig, sfx, 1, n as int, top as int);
                            assert(result_matches(v, sig, sfx, n as int, res));
                        }
                        return Ok(Some(res));
                    },
                    None => {},
                }
                n = n + 1;
            }
            proof {
                if top >= 1 {
                    lemma_first_match_none(v, sig, sfx, 1, top as int);
                } else {
                    assert(first_match_from(v, sig, sfx, 1, top as int) is None);
                }
            }
            Ok(None)
        }
    }
}

/// Law: the sequential search is deterministic.  Two outcomes that both
/// meet the sequential contract for the same record and settings agree:
/// both fail, or both carry the same digest, the same patched text and the
/// same deltas.
pub proof fn lemma_sequential_deterministic(
    v: CommitView,
    a: ArgsView,
    r1: Option<BruteForceResult>,
    r2: Option<BruteForceResult>,
)
    requires
        sequential_outcome_ok(v, a, r1),
        sequential_outcome_ok(v, a, r2),
    ensures
        r1 is Some <==> r2 is Some,
        r1 is Some && r2 is Some ==> (r1->0.sha1@ == r2->0.sha1@ && r1->0.patched_commit@
            == r2->0.patched_commit@ && r1->0.da@ == r2->0.da@ && r1->0.dc@ == r2->0.dc@),
{
    let top = Spiral::spec_count(a.max_variance);
    let fm = first_match_from(v, a.signature, a.stealth, 1, top);
    if r1 is Some && r2 is Some {
        assert(result_matches(v, a.signature, a.stealth, fm->0, r1->0));
        assert(result_matches(v, a.signature, a.stealth, fm->0, r2->0));
    }
}

/// Law: any search result carries the signature.  Its digest field is the
/// hex form of the digest of its own patched text, and that digest
/// satisfies the signature predicate.
pub proof fn lemma_search_result_qualifies(v: CommitView, a: ArgsView, res: BruteForceResult)
    requires
        search_outcome_ok(v, a, Some(res)),
    ensures
        res.sha1@ == hex_of(sha1_of(framed_spec(res.patched_commit@))),
        sig_matches(a.signature, a.stealth, sha1_of(framed_spec(res.patched_commit@))),
{
    let top = Spiral::spec_count(a.max_variance);
    let n = choose|n: int|
        1 <= n <= top && #[trigger] result_matches(v, a.signature, a.stealth, n, res);
    assert(result_matches(v, a.signature, a.stealth, n, res));
}


} // verus!
