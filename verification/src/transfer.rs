//! What a worker decides while it fetches a part: which headers to send,
//! how much of a received chunk belongs to its range, whether a setback is
//! retried, and how the download's counters and states follow its progress.
use vstd::prelude::*;
use crate::models::{ActivePart, Download, Part, seq_sum, parts_downloaded, st_connecting, unique_header_names,
    st_downloading, st_failed, st_paused, st_cancelled, st_completed, is_dead};
use crate::scheduler::{covers, tracks, is_assigned, next_part, best_unassigned, best_split,
    min_split_size, split_point, schedulable, is_best_split};
use crate::text::{owned, text_eq, u64_to_decimal, decimal, chars_of, find_sub_in, find_char_from,
    find_sub, find_char, slice_chars, string_of, lemma_find_char};
use crate::outside::{url_parse, url_join, url_parsed, url_joined, header_value_accepted,
    valid_header_value};
use vstd::string::StringSliceAdditionalSpecFns;

verus! {

// ---------------------------------------------------------------------------
// Sums
// ---------------------------------------------------------------------------

proof fn lemma_seq_sum_prefix(s: Seq<u64>, k: int)
    requires
        0 <= k <= s.len(),
    ensures
        seq_sum(s.take(k)) <= seq_sum(s),
        seq_sum(s.take(k)) >= 0,
    decreases s.len() - k,
{
    if k < s.len() {
        lemma_seq_sum_prefix(s, k + 1);
        assert(s.take(k + 1).drop_last() =~= s.take(k));
    } else {
        assert(s.take(k) =~= s);
    }
    lemma_seq_sum_nonneg(s.take(k));
}

proof fn lemma_seq_sum_nonneg(s: Seq<u64>)
    ensures
        seq_sum(s) >= 0,
    decreases s.len(),
{
    if s.len() > 0 {
        lemma_seq_sum_nonneg(s.drop_last());
    }
}

/// The sum of the counters (`iter().sum()`), which must fit in a `u64`.
pub fn sum_u64(v: &Vec<u64>) -> (r: u64)
    requires
        seq_sum(v@) <= u64::MAX,
    ensures
        r == seq_sum(v@),
{
    let mut acc: u64 = 0;
    let mut i: usize = 0;
    while i < v.len()
        invariant
            i <= v@.len(),
            seq_sum(v@) <= u64::MAX,
            acc == seq_sum(v@.take(i as int)),
        decreases v@.len() - i,
    {
        proof {
            lemma_seq_sum_prefix(v@, i + 1);
            assert(v@.take(i + 1).drop_last() =~= v@.take(i as int));
        }
        acc = acc + v[i];
        i += 1;
    }
    assert(v@.take(i as int) =~= v@);
    acc
}

proof fn lemma_parts_downloaded_prefix(s: Seq<Part>, k: int)
    requires
        0 <= k <= s.len(),
    ensures
        parts_downloaded(s.take(k)) <= parts_downloaded(s),
        parts_downloaded(s.take(k)) >= 0,
    decreases s.len() - k,
{
    if k < s.len() {
        lemma_parts_downloaded_prefix(s, k + 1);
        assert(s.take(k + 1).drop_last() =~= s.take(k));
    } else {
        assert(s.take(k) =~= s);
    }
    lemma_parts_downloaded_nonneg(s.take(k));
}

proof fn lemma_parts_downloaded_nonneg(s: Seq<Part>)
    ensures
        parts_downloaded(s) >= 0,
    decreases s.len(),
{
    if s.len() > 0 {
        lemma_parts_downloaded_nonneg(s.drop_last());
    }
}

/// The bytes on disk over all parts (`parts.iter().map(|p| p.downloaded).sum()`).
pub fn sum_downloaded(v: &Vec<Part>) -> (r: u64)
    requires
        parts_downloaded(v@) <= u64::MAX,
    ensures
        r == parts_downloaded(v@),
{
    let mut acc: u64 = 0;
    let mut i: usize = 0;
    while i < v.len()
        invariant
            i <= v@.len(),
            parts_downloaded(v@) <= u64::MAX,
            acc == parts_downloaded(v@.take(i as int)),
        decreases v@.len() - i,
    {
        proof {
            lemma_parts_downloaded_prefix(v@, i + 1);
            assert(v@.take(i + 1).drop_last() =~= v@.take(i as int));
        }
        acc = acc + v[i].downloaded;
        i += 1;
    }
    assert(v@.take(i as int) =~= v@);
    acc
}

/// Sum of the parts' bytes after `delta` more bytes are counted in part `i`.
proof fn lemma_parts_downloaded_update(s: Seq<Part>, i: int, p: Part)
    requires
        0 <= i < s.len(),
    ensures
        parts_downloaded(s.update(i, p)) == parts_downloaded(s) - s[i].downloaded + p.downloaded,
    decreases s.len(),
{
    if i == s.len() - 1 {
        assert(s.update(i, p).drop_last() =~= s.drop_last());
    } else {
        lemma_parts_downloaded_update(s.drop_last(), i, p);
        assert(s.update(i, p).drop_last() =~= s.drop_last().update(i, p));
    }
}

// ---------------------------------------------------------------------------
// Counters of a download
// ---------------------------------------------------------------------------

/// The speeds after worker `w` reports `speed` (ignored when there is no slot `w`).
pub open spec fn speeds_with(speeds: Seq<u64>, w: int, speed: u64) -> Seq<u64> {
    if 0 <= w < speeds.len() { speeds.update(w, speed) } else { speeds }
}

/// Worker `w` reports `speed`; the download's speed becomes the sum over workers.
pub fn set_worker_speed(d: &mut Download, w: usize, speed: u64)
    requires
        seq_sum(speeds_with(old(d).speeds@, w as int, speed)) <= u64::MAX,
    ensures
        final(d).speeds@ == speeds_with(old(d).speeds@, w as int, speed),
        final(d).speed == seq_sum(final(d).speeds@),
        *final(d) == (Download { speeds: final(d).speeds, speed: final(d).speed, ..*old(d) }),
{
    if w < d.speeds.len() {
        d.speeds.set(w, speed);
    }
    d.speed = sum_u64(&d.speeds);
}

/// The parts after `bytes` more bytes of part `i` reached the disk.
pub open spec fn parts_with_progress(parts: Seq<Part>, i: int, bytes: u64) -> Seq<Part> {
    if 0 <= i < parts.len() {
        parts.update(i, Part { downloaded: (parts[i].downloaded + bytes) as u64, ..parts[i] })
    } else {
        parts
    }
}

/// Counts `bytes` more bytes of part `i` as on disk and recomputes the
/// download's total from its parts (nothing is counted for a part that
/// does not exist).
pub fn record_progress(d: &mut Download, i: usize, bytes: u64)
    requires
        (i as int) < old(d).parts@.len() ==> old(d).parts@[i as int].downloaded + bytes <= u64::MAX
            && parts_downloaded(parts_with_progress(old(d).parts@, i as int, bytes)) <= u64::MAX,
    ensures
        (i as int) < old(d).parts@.len() ==> final(d).parts@ == parts_with_progress(old(d).parts@, i as int, bytes)
            && final(d).downloaded == parts_downloaded(final(d).parts@),
        (i as int) >= old(d).parts@.len() ==> *final(d) == *old(d),
        *final(d) == (Download { parts: final(d).parts, downloaded: final(d).downloaded, ..*old(d) }),
{
    if i < d.parts.len() {
        let p = d.parts[i];
        d.parts.set(i, Part { downloaded: p.downloaded + bytes, ..p });
        d.downloaded = sum_downloaded(&d.parts);
    }
}

/// Law: when a download's counter agrees with its parts, counting `bytes`
/// more bytes of an existing part raises the counter by exactly `bytes`.
pub proof fn lemma_progress_adds_up(parts: Seq<Part>, downloaded: u64, i: int, bytes: u64)
    requires
        downloaded == parts_downloaded(parts),
        0 <= i < parts.len(),
        parts[i].downloaded + bytes <= u64::MAX,
    ensures
        parts_downloaded(parts_with_progress(parts, i, bytes)) == downloaded + bytes,
{
    lemma_parts_downloaded_update(parts, i, Part { downloaded: (parts[i].downloaded + bytes) as u64, ..parts[i] });
}

// ---------------------------------------------------------------------------
// Releasing a part
// ---------------------------------------------------------------------------

pub open spec fn not_fetching(i: usize) -> spec_fn(ActivePart) -> bool {
    |a: ActivePart| a.part_index != i
}

/// Drops every active entry for part `i`.
pub fn release_part(active: &mut Vec<ActivePart>, i: usize)
    ensures
        final(active)@ == old(active)@.filter(not_fetching(i)),
{
    let mut kept: Vec<ActivePart> = Vec::new();
    let mut k: usize = 0;
    while k < active.len()
        invariant
            k <= active@.len(),
            kept@ == active@.take(k as int).filter(not_fetching(i)),
        decreases active@.len() - k,
    {
        proof {
            reveal(Seq::filter);
            assert(active@.take(k + 1).drop_last() =~= active@.take(k as int));
        }
        if active[k].part_index != i {
            kept.push(active[k]);
        }
        k += 1;
    }
    assert(active@.take(k as int) =~= active@);
    *active = kept;
}

/// `j` is the first part that ends at `b`.
pub open spec fn is_first_ending_at(parts: Seq<Part>, b: u64, j: int) -> bool {
    0 <= j < parts.len() && parts[j].end == b && forall|q: int| 0 <= q < j ==> parts[q].end != b
}

pub open spec fn first_ending_at(parts: Seq<Part>, b: u64) -> Option<int> {
    if exists|j: int| is_first_ending_at(parts, b, j) {
        Some(choose|j: int| is_first_ending_at(parts, b, j))
    } else {
        None
    }
}

/// `k` is the first active entry for part `j`.
pub open spec fn is_first_entry_for(active: Seq<ActivePart>, j: int, k: int) -> bool {
    0 <= k < active.len() && active[k].part_index == j
        && forall|q: int| 0 <= q < k ==> active[q].part_index != j
}

pub open spec fn first_entry_for(active: Seq<ActivePart>, j: int) -> Option<int> {
    if exists|k: int| is_first_entry_for(active, j, k) {
        Some(choose|k: int| is_first_entry_for(active, j, k))
    } else {
        None
    }
}

/// A part that has been given up.
pub open spec fn dead_part() -> Part {
    Part { start: u64::MAX, end: u64::MAX, downloaded: 0 }
}

/// The byte just before `s` (0 stays 0), as `saturating_sub(1)` gives it.
pub open spec fn before(s: u64) -> u64 {
    if s > 0 { (s - 1) as u64 } else { 0 }
}

/// Parts and active entries after part `i`, on which no byte was fetched, is
/// given up: the first part that ends just before it takes over its range
/// (and so does an active entry fetching that part), and `i` is marked dead.
pub open spec fn abandoned(parts: Seq<Part>, active: Seq<ActivePart>, i: int) -> (Seq<Part>, Seq<ActivePart>) {
    if 0 <= i < parts.len() && parts[i].downloaded == 0 {
        let p = parts[i];
        match first_ending_at(parts, before(p.start)) {
            Some(j) => {
                let parts1 = parts.update(j, Part { end: p.end, ..parts[j] });
                let active1 = match first_entry_for(active, j) {
                    Some(k) => active.update(k, ActivePart { end: p.end, ..active[k] }),
                    None => active,
                };
                (parts1.update(i, dead_part()), active1)
            },
            None => (parts.update(i, dead_part()), active),
        }
    } else {
        (parts, active)
    }
}

fn first_part_ending_at(parts: &Vec<Part>, b: u64) -> (r: Option<usize>)
    ensures
        match first_ending_at(parts@, b) {
            Some(j) => r == Some(j as usize),
            None => r is None,
        },
{
    let mut j: usize = 0;
    while j < parts.len()
        invariant
            j <= parts@.len(),
            forall|q: int| 0 <= q < j ==> parts@[q].end != b,
        decreases parts@.len() - j,
    {
        if parts[j].end == b {
            proof {
                assert(is_first_ending_at(parts@, b, j as int));
                let c = choose|q: int| is_first_ending_at(parts@, b, q);
                if c < j {
                    assert(parts@[c].end == b);
                } else if j < c {
                    assert(parts@[j as int].end == b);
                }
            }
            return Some(j);
        }
        j += 1;
    }
    proof {
        if exists|q: int| is_first_ending_at(parts@, b, q) {
            let q = choose|q: int| is_first_ending_at(parts@, b, q);
            assert(parts@[q].end == b);
        }
    }
    None
}

fn first_active_entry_for(active: &Vec<ActivePart>, j: usize) -> (r: Option<usize>)
    ensures
        match first_entry_for(active@, j as int) {
            Some(k) => r == Some(k as usize),
            None => r is None,
        },
{
    let mut k: usize = 0;
    while k < active.len()
        invariant
            k <= active@.len(),
            forall|q: int| 0 <= q < k ==> active@[q].part_index != j,
        decreases active@.len() - k,
    {
        if active[k].part_index == j {
            proof {
                assert(is_first_entry_for(active@, j as int, k as int));
                let c = choose|q: int| is_first_entry_for(active@, j as int, q);
                if c < k {
                    assert(active@[c].part_index == j);
                } else if k < c {
                    assert(active@[k as int].part_index == j);
                }
            }
            return Some(k);
        }
        k += 1;
    }
    proof {
        if exists|q: int| is_first_entry_for(active@, j as int, q) {
            let q = choose|q: int| is_first_entry_for(active@, j as int, q);
            assert(active@[q].part_index == j);
        }
    }
    None
}

/// A worker that failed before any byte arrived gives up part `i`: its speed
/// slot is zeroed, the download's speed re-summed, and, when the part has no
/// bytes on disk, the part is folded into the part that ends just before it.
pub fn abandon_part(d: &mut Download, active: &mut Vec<ActivePart>, i: usize, w: usize)
    requires
        seq_sum(speeds_with(old(d).speeds@, w as int, 0)) <= u64::MAX,
    ensures
        (final(d).parts@, final(active)@) == abandoned(old(d).parts@, old(active)@, i as int),
        final(d).speeds@ == speeds_with(old(d).speeds@, w as int, 0),
        final(d).speed == seq_sum(final(d).speeds@),
        *final(d) == (Download { parts: final(d).parts, speeds: final(d).speeds, speed: final(d).speed, ..*old(d) }),
{
    set_worker_speed(d, w, 0);
    if i < d.parts.len() && d.parts[i].downloaded == 0 {
        let p = d.parts[i];
        let b = p.start.saturating_sub(1);
        assert(b == before(p.start));
        let ghost parts0 = d.parts@;
        let ghost active0 = active@;
        match first_part_ending_at(&d.parts, b) {
            Some(j) => {
                proof {
                    let c = choose|q: int| is_first_ending_at(d.parts@, b, q);
                    assert(is_first_ending_at(d.parts@, b, c));
                    assert(first_ending_at(parts0, b) == Some(j as int));
                }
                let q = d.parts[j];
                d.parts.set(j, Part { end: p.end, ..q });
                match first_active_entry_for(active, j) {
                    Some(k) => {
                        let alen = active.len();
                        proof {
                            assert(active0.len() == alen);
                            assert(active@ == active0);
                            let c = choose|q: int| is_first_entry_for(active0, j as int, q);
                            assert(is_first_entry_for(active0, j as int, c));
                            assert(c == k);
                            assert(first_entry_for(active0, j as int) == Some(k as int));
                        }
                        let a = active[k];
                        active.set(k, ActivePart { end: p.end, ..a });
                    },
                    None => {
                        assert(first_entry_for(active0, j as int) is None);
                    },
                }
                assert(d.parts@ == parts0.update(j as int, Part { end: p.end, ..parts0[j as int] }));
            },
            None => {
                assert(first_ending_at(parts0, b) is None);
            },
        }
        d.parts.set(i, Part { start: u64::MAX, end: u64::MAX, downloaded: 0 });
        assert((d.parts@, active@) == abandoned(parts0, active0, i as int));
    }
}

} // verus!

verus! {

/// Law: when a worker gives up a part that no one else fetches, on which no
/// byte arrived, and some live part ends just before it, the set of bytes
/// that the live parts cover is unchanged (the neighbour takes the range
/// over) and every active entry still mirrors its part.
pub proof fn lemma_abandon_keeps_ranges(parts: Seq<Part>, active: Seq<ActivePart>, i: int)
    requires
        tracks(parts, active),
        0 <= i < parts.len(),
        !is_assigned(active, i),
        !is_dead(parts[i]),
        parts[i].start <= parts[i].end,
        parts[i].downloaded == 0,
        parts[i].start > 0,
        first_ending_at(parts, before(parts[i].start)) matches Some(j)
            && !is_dead(parts[j]) && parts[j].start <= parts[j].end,
    ensures
        ({
            let (parts2, active2) = abandoned(parts, active, i);
            &&& tracks(parts2, active2)
            &&& forall|b: int| covers(parts2, b) == covers(parts, b)
            &&& is_dead(parts2[i])
        }),
{
    let (parts2, active2) = abandoned(parts, active, i);
    let p = parts[i];
    let j = first_ending_at(parts, before(p.start)).unwrap();
    assert(is_first_ending_at(parts, before(p.start), j));
    assert(j != i);
    assert(parts2[j] == Part { end: p.end, ..parts[j] });
    assert(parts2[i] == dead_part());
    assert forall|b: int| covers(parts2, b) == covers(parts, b) by {
        if covers(parts, b) {
            let q = choose|q: int| 0 <= q < parts.len() && !is_dead(parts[q])
                && parts[q].start <= b && b <= parts[q].end;
            if q == i || q == j {
                assert(parts2[j].start <= b && b <= parts2[j].end);
            } else {
                assert(parts2[q] == parts[q]);
            }
        }
        if covers(parts2, b) {
            let q = choose|q: int| 0 <= q < parts2.len() && !is_dead(parts2[q])
                && parts2[q].start <= b && b <= parts2[q].end;
            if q == j {
                if b <= parts[j].end {
                    assert(parts[j].start <= b && b <= parts[j].end);
                } else {
                    assert(parts[i].start <= b && b <= parts[i].end);
                }
            } else {
                assert(q != i);
                assert(parts2[q] == parts[q]);
            }
        }
    }
    assert forall|k: int| 0 <= k < active2.len() implies {
        let a = #[trigger] active2[k];
        &&& a.part_index < parts2.len()
        &&& parts2[a.part_index as int].start == a.start
        &&& parts2[a.part_index as int].end == a.end
        &&& a.start <= a.current_pos
    } by {
        assert(active[k].part_index != i);
        match first_entry_for(active, j) {
            Some(e) => {
                assert(is_first_entry_for(active, j, e));
                if k != e {
                    assert(active2[k] == active[k]);
                }
            },
            None => {
                assert(active2[k] == active[k]);
                if active[k].part_index == j {
                    assert(is_first_entry_for(active, j, k)) by {
                        assert forall|q: int| 0 <= q < k implies active[q].part_index != j by {
                            if active[q].part_index == j {
                                assert(active[q].part_index == active[k].part_index);
                            }
                        }
                    }
                }
            },
        }
    }
    assert forall|k: int, l: int| 0 <= k < active2.len() && 0 <= l < active2.len() && k != l
        implies (#[trigger] active2[k]).part_index != (#[trigger] active2[l]).part_index by {
        assert(active2[k].part_index == active[k].part_index);
        assert(active2[l].part_index == active[l].part_index);
    }
}

} // verus!

verus! {

/// Law: the download's byte counter keeps agreeing with its parts while
/// work is handed out: taking a part changes no part, a split only moves a
/// range end and adds a part with no bytes, and a download of unknown size
/// gets its single part with the bytes counted so far.
pub proof fn lemma_scheduling_keeps_the_count(total: u64, downloaded: u64, parts: Seq<Part>, active: Seq<ActivePart>)
    requires
        downloaded == parts_downloaded(parts),
        schedulable(total, parts, active),
    ensures
        parts_downloaded(next_part(total, downloaded, parts, active).0) == downloaded,
{
    let parts2 = next_part(total, downloaded, parts, active).0;
    if total == 0 {
        if parts.len() == 0 {
            let one = seq![Part { start: 0, end: 0, downloaded: downloaded }];
            assert(one.drop_last() =~= Seq::<Part>::empty());
            assert(parts_downloaded(one.drop_last()) == 0);
            assert(parts_downloaded(one) == downloaded);
            assert(parts2 == one);
        } else {
            assert(parts2 == parts);
        }
    } else if best_unassigned(parts, active) is Some {
        assert(parts2 == parts);
    } else {
        match best_split(active, min_split_size(total)) {
            Some(k) => {
                assert(is_best_split(active, min_split_size(total), k));
                let a = active[k];
                let v = a.part_index as int;
                let mid = split_point(a);
                let updated = parts.update(v, Part { end: (mid - 1) as u64, ..parts[v] });
                lemma_parts_downloaded_update(parts, v, Part { end: (mid - 1) as u64, ..parts[v] });
                let pushed = updated.push(Part { start: mid as u64, end: a.end, downloaded: 0 });
                assert(pushed.drop_last() =~= updated);
                assert(parts2 == pushed);
                assert(parts_downloaded(pushed) == parts_downloaded(updated));
            },
            None => {
                assert(parts2 == parts);
            },
        }
    }
}

/// Law: giving up a part keeps the download's byte counter in agreement
/// with its parts (only a part without bytes is marked dead, and its
/// neighbour only gets a longer range).
pub proof fn lemma_abandon_keeps_the_count(parts: Seq<Part>, active: Seq<ActivePart>, i: int, downloaded: u64)
    requires
        downloaded == parts_downloaded(parts),
    ensures
        parts_downloaded(abandoned(parts, active, i).0) == downloaded,
{
    if 0 <= i < parts.len() && parts[i].downloaded == 0 {
        let p = parts[i];
        match first_ending_at(parts, before(p.start)) {
            Some(j) => {
                assert(is_first_ending_at(parts, before(p.start), j));
                let parts1 = parts.update(j, Part { end: p.end, ..parts[j] });
                lemma_parts_downloaded_update(parts, j, Part { end: p.end, ..parts[j] });
                lemma_parts_downloaded_update(parts1, i, dead_part());
            },
            None => {
                lemma_parts_downloaded_update(parts, i, dead_part());
            },
        }
    }
}

} // verus!

verus! {

// ---------------------------------------------------------------------------
// States
// ---------------------------------------------------------------------------

/// The first bytes of a download arrived: a connecting download is now downloading.
pub fn begin_transfer(d: &mut Download)
    ensures
        final(d).state@ == (if old(d).state@ == st_connecting() { st_downloading() } else { old(d).state@ }),
        *final(d) == (Download { state: final(d).state, ..*old(d) }),
{
    if text_eq(d.state.as_str(), "Connecting") {
        d.state = owned("Downloading");
    }
}

/// A worker could not finish its part: a connecting or downloading download
/// fails. Returns whether it did (the app then stops the download's workers).
pub fn fail_download(d: &mut Download) -> (failed: bool)
    ensures
        failed == (old(d).state@ == st_downloading() || old(d).state@ == st_connecting()),
        final(d).state@ == (if failed { st_failed() } else { old(d).state@ }),
        *final(d) == (Download { state: final(d).state, ..*old(d) }),
{
    if text_eq(d.state.as_str(), "Downloading") || text_eq(d.state.as_str(), "Connecting") {
        d.state = owned("Failed");
        true
    } else {
        false
    }
}

/// All speed slots zeroed.
pub open spec fn zeros(n: nat) -> Seq<u64> {
    Seq::new(n, |i: int| 0u64)
}

/// Sets every speed slot to 0.
pub fn zero_speeds(speeds: &mut Vec<u64>)
    ensures
        final(speeds)@ == zeros(old(speeds)@.len()),
{
    let mut i: usize = 0;
    while i < speeds.len()
        invariant
            i <= speeds@.len(),
            speeds@.len() == old(speeds)@.len(),
            forall|j: int| 0 <= j < i ==> speeds@[j] == 0,
        decreases speeds@.len() - i,
    {
        speeds.set(i, 0);
        i += 1;
    }
    assert(speeds@ =~= zeros(old(speeds)@.len()));
}

/// Whether a download that its last worker left has all its bytes: a sized
/// download when `downloaded >= total`, one of unknown size always.
pub open spec fn is_actually_done(d: Download) -> bool {
    if d.total > 0 { d.downloaded >= d.total } else { true }
}

/// The state of a download after its last worker stopped.
pub open spec fn finished_state(d: Download) -> Seq<char> {
    if d.state@ == st_failed() || d.state@ == st_paused() || d.state@ == st_cancelled() {
        d.state@
    } else if is_actually_done(d) {
        st_completed()
    } else if d.state@ == st_downloading() || d.state@ == st_connecting() {
        st_failed()
    } else {
        d.state@
    }
}

/// Law: once the last worker has stopped, no download is left running. One
/// that was downloading or connecting ends "Completed" when all its bytes
/// are there (or its size is unknown) and "Failed" otherwise; a failed,
/// paused or cancelled one keeps its state.
pub proof fn lemma_finish_leaves_nothing_running(d: Download)
    ensures
        (d.state@ == "Downloading"@ || d.state@ == "Connecting"@) ==>
            finished_state(d) != "Downloading"@ && finished_state(d) != "Connecting"@,
        (d.state@ == "Downloading"@ || d.state@ == "Connecting"@) && d.total > 0 && d.downloaded < d.total
            ==> finished_state(d) == "Failed"@,
        (d.state@ == "Downloading"@ || d.state@ == "Connecting"@) && (d.total == 0 || d.downloaded >= d.total)
            ==> finished_state(d) == "Completed"@,
        (d.state@ == "Failed"@ || d.state@ == "Paused"@ || d.state@ == "Cancelled"@) ==> finished_state(d) == d.state@,
{
    reveal_strlit("Downloading");
    reveal_strlit("Connecting");
    reveal_strlit("Completed");
    reveal_strlit("Failed");
    reveal_strlit("Paused");
    reveal_strlit("Cancelled");
    assert("Downloading"@.len() == 11);
    assert("Connecting"@.len() == 10);
    assert("Completed"@.len() == 9);
    assert("Failed"@.len() == 6);
    assert("Paused"@.len() == 6);
    assert("Cancelled"@.len() == 9);
    assert("Failed"@[0] != "Paused"@[0]);
    assert("Completed"@[1] != "Cancelled"@[1]);
}

/// The last worker stopped: speeds drop to 0 and, unless the user failed,
/// paused or cancelled it, the download completes when all its bytes are on
/// disk and fails otherwise. Returns whether it completed just now (the app
/// then moves the temporary file to its final name).
pub fn finish_download(d: &mut Download) -> (completed: bool)
    ensures
        final(d).state@ == finished_state(*old(d)),
        completed == (is_actually_done(*old(d)) && !(old(d).state@ == st_failed()
            || old(d).state@ == st_paused() || old(d).state@ == st_cancelled())),
        final(d).speed == 0,
        final(d).speeds@ == zeros(old(d).speeds@.len()),
        *final(d) == (Download { state: final(d).state, speed: 0, speeds: final(d).speeds, ..*old(d) }),
        (old(d).state@ == "Downloading"@ || old(d).state@ == "Connecting"@) ==> final(d).state@ == (
            if old(d).total == 0 || old(d).downloaded >= old(d).total { "Completed"@ } else { "Failed"@ }),
        (old(d).state@ == "Downloading"@ || old(d).state@ == "Connecting"@) ==> completed
            == (old(d).total == 0 || old(d).downloaded >= old(d).total),
{
    proof {
        lemma_finish_leaves_nothing_running(*old(d));
        reveal_strlit("Completed");
        reveal_strlit("Failed");
        reveal_strlit("Paused");
        reveal_strlit("Cancelled");
    }
    d.speed = 0;
    zero_speeds(&mut d.speeds);
    if !text_eq(d.state.as_str(), "Failed") && !text_eq(d.state.as_str(), "Paused")
        && !text_eq(d.state.as_str(), "Cancelled") {
        let done = if d.total > 0 { d.downloaded >= d.total } else { true };
        if done {
            d.state = owned("Completed");
            return true;
        } else if text_eq(d.state.as_str(), "Downloading") || text_eq(d.state.as_str(), "Connecting") {
            d.state = owned("Failed");
        }
    }
    false
}

// ---------------------------------------------------------------------------
// Setbacks and retries
// ---------------------------------------------------------------------------

/// How often a worker retries a part before it gives up.
pub const MAX_RETRIES: u32 = 100;

/// What went wrong while fetching a part.
#[derive(Clone, Copy, Debug)]
pub enum Setback {
    /// The request could not be sent.
    SendFailed,
    /// The server answered with neither success nor partial content.
    BadStatus,
    /// The server ignored the range and sent the file from its start.
    RangeIgnored,
    /// The body stopped before the part's end, or broke off with an error.
    StreamCut,
}

/// What the worker does about a setback.
pub enum Recovery {
    /// Try the part again (the retry counter went up).
    Retry,
    /// Give the part back and stop: this worker never got a byte through.
    Abandon,
    /// Stop fetching the part: the download fails.
    GiveUp,
}

/// The recovery for a setback of a worker that has finished `chunks_completed`
/// parts and may have started a transfer, with `retries` retries spent.
pub open spec fn recovery_for(setback: Setback, chunks_completed: u64, started: bool, retries: u32) -> Recovery {
    let fresh = chunks_completed == 0 && !started;
    let refused = setback is SendFailed || setback is BadStatus;
    if refused && fresh {
        Recovery::Abandon
    } else if retries < MAX_RETRIES {
        Recovery::Retry
    } else {
        Recovery::GiveUp
    }
}

/// A status of 200 to 299 (what `StatusCode::is_success` documents).
pub open spec fn is_success_status(status: u16) -> bool {
    200 <= status <= 299
}

/// A status of 300 to 399 (what `StatusCode::is_redirection` documents).
pub open spec fn is_redirection_status(status: u16) -> bool {
    300 <= status <= 399
}

/// What the status of a reply to a range request starting at `pos` means:
/// neither a success nor partial content (206) is a refusal; a success
/// other than partial content for a range that does not start at 0 means
/// the server ignored the range and sent the file from its start; anything
/// else brings the range.
pub open spec fn reply_setback(status: u16, pos: u64) -> Option<Setback> {
    if !is_success_status(status) && status != 206 {
        Some(Setback::BadStatus)
    } else if status != 206 && pos > 0 {
        Some(Setback::RangeIgnored)
    } else {
        None
    }
}

/// Classifies the status of a reply to a range request starting at `pos`
/// (see `reply_setback`): `None` when the body can be written.
pub fn classify_reply(status: u16, pos: u64) -> (r: Option<Setback>)
    ensures
        r == reply_setback(status, pos),
{
    let success = 200 <= status && status <= 299;
    if !success && status != 206 {
        Some(Setback::BadStatus)
    } else if status != 206 && pos > 0 {
        Some(Setback::RangeIgnored)
    } else {
        None
    }
}

/// Whether a reply is a redirect (status 300 to 399), whose `Location` the
/// worker follows.
pub fn is_redirection(status: u16) -> (r: bool)
    ensures
        r == is_redirection_status(status),
{
    300 <= status && status <= 399
}

/// Law: a worker is stubborn but not endless. Starting from no retries, a
/// retry is only granted while fewer than `MAX_RETRIES` were spent, so the
/// counter never passes `MAX_RETRIES`; and a worker that has moved bytes
/// never gives its part back.
pub proof fn lemma_retries_are_bounded(setback: Setback, chunks_completed: u64, started: bool, retries: u32)
    requires
        retries <= MAX_RETRIES,
    ensures
        recovery_for(setback, chunks_completed, started, retries) is Retry ==> retries + 1 <= MAX_RETRIES,
        recovery_for(setback, chunks_completed, started, retries) is GiveUp ==> retries == MAX_RETRIES,
        (chunks_completed > 0 || started) ==> !(recovery_for(setback, chunks_completed, started, retries) is Abandon),
{
}

/// Law: what a worker does about each setback. A worker that has not moved
/// a byte yet gives its part back when its request fails or is refused;
/// every other setback is retried while fewer than `MAX_RETRIES` retries
/// were spent, and gives up once they all were.
pub proof fn lemma_recovery_by_setback(setback: Setback, chunks_completed: u64, started: bool, retries: u32)
    ensures
        chunks_completed == 0 && !started && (setback is SendFailed || setback is BadStatus)
            ==> recovery_for(setback, chunks_completed, started, retries) is Abandon,
        !(chunks_completed == 0 && !started && (setback is SendFailed || setback is BadStatus)) && retries < 100
            ==> recovery_for(setback, chunks_completed, started, retries) is Retry,
        !(chunks_completed == 0 && !started && (setback is SendFailed || setback is BadStatus)) && retries >= 100
            ==> recovery_for(setback, chunks_completed, started, retries) is GiveUp,
{
}

/// Law: how a reply's status is read. Partial content (206) always brings
/// the range; a success (200 to 299) from the first byte brings it too; any
/// other success means the range was ignored; every status outside 200 to
/// 299 is a refusal.
pub proof fn lemma_reply_classes(status: u16, pos: u64)
    ensures
        status == 206 ==> reply_setback(status, pos) is None,
        200 <= status <= 299 && pos == 0 ==> reply_setback(status, pos) is None,
        200 <= status <= 299 && status != 206 && pos > 0 ==> reply_setback(status, pos) == Some(Setback::RangeIgnored),
        (status < 200 || status > 299) ==> reply_setback(status, pos) == Some(Setback::BadStatus),
{
}

/// Decides what a worker does about a setback: a worker that has not yet
/// moved a byte of any part gives its part back when the request fails or the
/// server refuses it; otherwise it retries until `MAX_RETRIES` is spent.
pub fn recover(setback: Setback, chunks_completed: u64, started: bool, retries: &mut u32) -> (r: Recovery)
    ensures
        r == recovery_for(setback, chunks_completed, started, *old(retries)),
        *final(retries) == (if r is Retry { *old(retries) + 1 } else { *old(retries) as int }),
{
    let fresh = chunks_completed == 0 && !started;
    let abandon = match setback {
        Setback::SendFailed | Setback::BadStatus => fresh,
        _ => false,
    };
    if abandon {
        Recovery::Abandon
    } else if *retries < MAX_RETRIES {
        *retries = *retries + 1;
        Recovery::Retry
    } else {
        Recovery::GiveUp
    }
}

/// Spends one retry if any is left (used after following a redirect).
pub fn spend_retry(retries: &mut u32) -> (spent: bool)
    ensures
        spent == (*old(retries) < MAX_RETRIES),
        *final(retries) == (if spent { *old(retries) + 1 } else { *old(retries) as int }),
{
    if *retries < MAX_RETRIES {
        *retries = *retries + 1;
        true
    } else {
        false
    }
}

/// The body ended: the part is complete unless its range has a known end
/// that `pos` has not passed.
pub fn stream_complete(pos: u64, end_byte: u64) -> (complete: bool)
    ensures
        complete == !(end_byte > 0 && pos <= end_byte),
{
    !(end_byte > 0 && pos <= end_byte)
}

/// How much of a chunk of `len` bytes received at `pos` belongs to the range
/// ending at `end_byte` (0: open end), and whether the chunk ran past it.
pub open spec fn clamped(pos: u64, len: u64, end_byte: u64) -> (u64, bool) {
    if end_byte > 0 && pos + len - 1 > end_byte {
        ((end_byte + 1 - pos) as u64, true)
    } else {
        (len, false)
    }
}

/// Cuts a received chunk at the end of the worker's range.
pub fn clamp_chunk(pos: u64, len: u64, end_byte: u64) -> (r: (u64, bool))
    requires
        1 <= pos + len <= u64::MAX,
        end_byte > 0 && pos + len - 1 > end_byte ==> pos <= end_byte + 1,
    ensures
        r == clamped(pos, len, end_byte),
{
    if end_byte > 0 && pos + len - 1 > end_byte {
        (end_byte + 1 - pos, true)
    } else {
        (len, false)
    }
}

/// Law: the bytes a worker writes never run past the end of its range, and
/// a chunk is cut only where it would.
pub proof fn lemma_clamp_stays_in_range(pos: u64, len: u64, end_byte: u64)
    requires
        1 <= pos + len <= u64::MAX,
        end_byte > 0,
        pos <= end_byte + 1,
    ensures
        pos + clamped(pos, len, end_byte).0 <= end_byte + 1,
        clamped(pos, len, end_byte).0 <= len,
        clamped(pos, len, end_byte).1 == (pos + len > end_byte + 1),
        clamped(pos, len, end_byte).1 ==> pos + clamped(pos, len, end_byte).0 == end_byte + 1,
        !clamped(pos, len, end_byte).1 ==> clamped(pos, len, end_byte).0 == len,
{
}

/// Law: a range without a known end (`end_byte` 0) takes every received byte.
pub proof fn lemma_open_range_takes_all(pos: u64, len: u64)
    ensures
        clamped(pos, len, 0) == (len, false),
{
}

// ---------------------------------------------------------------------------
// Request headers
// ---------------------------------------------------------------------------

/// The value of the `Range` header for bytes `pos..=end_byte` (0: to the end).
pub open spec fn range_header_text(pos: u64, end_byte: u64) -> Seq<char> {
    if end_byte > 0 {
        "bytes="@ + decimal(pos as nat) + "-"@ + decimal(end_byte as nat)
    } else {
        "bytes="@ + decimal(pos as nat) + "-"@
    }
}

/// `format!("bytes={}-{}", pos, end_byte)`, or `format!("bytes={}-", pos)` for an open end.
pub fn range_header(pos: u64, end_byte: u64) -> (r: String)
    ensures
        r@ == range_header_text(pos, end_byte),
{
    let mut s = owned("bytes=");
    let p = u64_to_decimal(pos);
    s.append(p.as_str());
    s.append("-");
    if end_byte > 0 {
        let e = u64_to_decimal(end_byte);
        s.append(e.as_str());
    }
    s
}

/// The Chrome major version named in a user agent (`Chrome/NNN.`), or "120".
pub open spec fn chrome_version_of(ua: Seq<char>) -> Seq<char> {
    match find_sub(ua, "Chrome/"@) {
        Some(i) => {
            let rest = ua.skip(i + 7);
            match find_char(rest, '.') {
                Some(j) => rest.take(j),
                None => "120"@,
            }
        },
        None => "120"@,
    }
}

/// Picks the Chrome version that the `sec-ch-ua` header repeats.
pub fn chrome_version(ua: &str) -> (r: String)
    ensures
        r@ == chrome_version_of(ua@),
{
    proof {
        reveal_strlit("Chrome/");
    }
    let v = chars_of(ua);
    let key = chars_of("Chrome/");
    match find_sub_in(v.as_slice(), key.as_slice()) {
        Some(i) => {
            proof {
                assert(crate::text::occurs_at(ua@, "Chrome/"@, i as int));
                assert("Chrome/"@.len() == 7);
                assert(key@ == "Chrome/"@);
            }
            assert(i + 7 <= v.len());
            let from = i + 7;
            match find_char_from(v.as_slice(), '.', from) {
                Some(e) => {
                    let r = slice_chars(v.as_slice(), from, e);
                    proof {
                        let rest = ua@.skip(i + 7);
                        assert(rest == v@.skip(from as int));
                        assert(r@ =~= rest.take(e - from));
                    }
                    string_of(r.as_slice())
                },
                None => {
                    assert(ua@.skip(i + 7) == v@.skip(from as int));
                    proof { lemma_find_char(v@.skip(from as int), '.'); }
                    owned("120")
                },
            }
        },
        None => owned("120"),
    }
}

/// The `sec-ch-ua` value announcing Chrome version `cv`.
pub open spec fn sec_ch_ua_text(cv: Seq<char>) -> Seq<char> {
    "\"Google Chrome\";v=\""@ + cv + "\", \"Chromium\";v=\""@ + cv + "\", \"Not?A_Brand\";v=\"24\""@
}

pub fn sec_ch_ua(cv: &str) -> (r: String)
    ensures
        r@ == sec_ch_ua_text(cv@),
{
    let mut s = owned("\"Google Chrome\";v=\"");
    s.append(cv);
    s.append("\", \"Chromium\";v=\"");
    s.append(cv);
    s.append("\", \"Not?A_Brand\";v=\"24\"");
    s
}

/// The text of an optional string.
pub open spec fn opt_text(o: Option<String>) -> Option<Seq<char>> {
    match o {
        Some(s) => Some(s@),
        None => None,
    }
}

/// Header (name, value) pairs as text.
pub open spec fn header_texts(v: Seq<(String, String)>) -> Seq<(Seq<char>, Seq<char>)> {
    v.map_values(|p: (String, String)| (p.0@, p.1@))
}

/// The headers that make a request look like the browser that handed the download over.
pub open spec fn browser_identity(ua: Seq<char>) -> Seq<(Seq<char>, Seq<char>)> {
    seq![
        ("user-agent"@, ua),
        ("sec-ch-ua"@, sec_ch_ua_text(chrome_version_of(ua))),
        ("sec-ch-ua-mobile"@, "?0"@),
        ("sec-ch-ua-platform"@, "\"Windows\""@),
    ]
}

pub open spec fn opt_header(name: Seq<char>, value: Option<Seq<char>>) -> Seq<(Seq<char>, Seq<char>)> {
    match value {
        Some(v) => seq![(name, v)],
        None => Seq::empty(),
    }
}

/// The place of each header name that the request builders use, in the
/// order they put them.
pub open spec fn header_rank(n: Seq<char>) -> int {
    if n == "range"@ { 0 }
    else if n == "cookie"@ { 1 }
    else if n == "user-agent"@ { 2 }
    else if n == "sec-ch-ua"@ { 3 }
    else if n == "sec-ch-ua-mobile"@ { 4 }
    else if n == "sec-ch-ua-platform"@ { 5 }
    else if n == "referer"@ { 6 }
    else { 7 }
}

/// Every header's rank lies in `lo..hi` and the ranks strictly increase.
pub open spec fn ranked(h: Seq<(Seq<char>, Seq<char>)>, lo: int, hi: int) -> bool {
    &&& forall|i: int| 0 <= i < h.len() ==> lo <= #[trigger] header_rank(h[i].0) < hi
    &&& forall|i: int, j: int| 0 <= i < j < h.len() ==> header_rank(#[trigger] h[i].0) < header_rank(#[trigger] h[j].0)
}

proof fn lemma_ranked_concat(x: Seq<(Seq<char>, Seq<char>)>, y: Seq<(Seq<char>, Seq<char>)>, lo: int, mid: int, hi: int)
    requires
        lo <= mid <= hi,
        ranked(x, lo, mid),
        ranked(y, mid, hi),
    ensures
        ranked(x + y, lo, hi),
{
    let z = x + y;
    assert forall|i: int| 0 <= i < z.len() implies lo <= #[trigger] header_rank(z[i].0) < hi by {
        if i < x.len() {
            assert(z[i] == x[i]);
            assert(lo <= header_rank(x[i].0) < mid);
        } else {
            assert(z[i] == y[i - x.len()]);
            assert(mid <= header_rank(y[i - x.len()].0) < hi);
        }
    }
    assert forall|i: int, j: int| 0 <= i < j < z.len() implies header_rank(#[trigger] z[i].0) < header_rank(#[trigger] z[j].0) by {
        if j < x.len() {
            assert(z[i] == x[i] && z[j] == x[j]);
            assert(header_rank(x[i].0) < header_rank(x[j].0));
        } else if i < x.len() {
            assert(z[i] == x[i] && z[j] == y[j - x.len()]);
            assert(lo <= header_rank(x[i].0) < mid);
            assert(mid <= header_rank(y[j - x.len()].0) < hi);
        } else {
            assert(z[i] == y[i - x.len()] && z[j] == y[j - x.len()]);
            assert(header_rank(y[i - x.len()].0) < header_rank(y[j - x.len()].0));
        }
    }
}

proof fn lemma_ranked_opt(name: Seq<char>, v: Option<Seq<char>>, r: int)
    requires
        header_rank(name) == r,
    ensures
        ranked(opt_header(name, v), r, r + 1),
{
}

proof fn lemma_reveal_header_names()
    ensures
        header_rank("range"@) == 0,
        header_rank("cookie"@) == 1,
        header_rank("user-agent"@) == 2,
        header_rank("sec-ch-ua"@) == 3,
        header_rank("sec-ch-ua-mobile"@) == 4,
        header_rank("sec-ch-ua-platform"@) == 5,
        header_rank("referer"@) == 6,
{
    reveal_strlit("range");
    reveal_strlit("cookie");
    reveal_strlit("user-agent");
    reveal_strlit("sec-ch-ua");
    reveal_strlit("sec-ch-ua-mobile");
    reveal_strlit("sec-ch-ua-platform");
    reveal_strlit("referer");
    assert("range"@.len() == 5);
    assert("cookie"@.len() == 6);
    assert("user-agent"@.len() == 10);
    assert("sec-ch-ua"@.len() == 9);
    assert("sec-ch-ua-mobile"@.len() == 16);
    assert("sec-ch-ua-platform"@.len() == 18);
    assert("referer"@.len() == 7);
}

proof fn lemma_identity_ranked(ua: Option<Seq<char>>)
    ensures
        ranked(match ua { Some(u) => browser_identity(u), None => Seq::empty() }, 2, 6),
{
    lemma_reveal_header_names();
    match ua {
        Some(u) => {
            let b = browser_identity(u);
            assert(header_rank(b[0].0) == 2);
            assert(header_rank(b[1].0) == 3);
            assert(header_rank(b[2].0) == 4);
            assert(header_rank(b[3].0) == 5);
        },
        None => {},
    }
}

/// Header lists whose names are ranked have no name twice.
proof fn lemma_ranked_unique(v: Seq<(String, String)>, lo: int, hi: int)
    requires
        ranked(header_texts(v), lo, hi),
    ensures
        unique_header_names(v),
{
    let h = header_texts(v);
    assert forall|i: int, j: int| 0 <= i < j < v.len() implies (#[trigger] v[i]).0@ != (#[trigger] v[j]).0@ by {
        assert(h[i].0 == v[i].0@ && h[j].0 == v[j].0@);
        assert(header_rank(h[i].0) < header_rank(h[j].0));
    }
}

/// Law: the three request builders put their headers in one fixed order of
/// names, so none of them names a header twice.
pub proof fn lemma_request_headers_ranked(range: Seq<char>, cookies: Option<Seq<char>>, ua: Option<Seq<char>>,
    referer: Option<Seq<char>>)
    ensures
        ranked(part_request_headers(range, cookies, ua, referer), 0, 7),
        ranked(probe_request_headers(cookies, ua, referer), 0, 7),
        ranked(head_request_headers(cookies, referer), 1, 7),
{
    lemma_reveal_header_names();
    lemma_ranked_opt("range"@, Some(range), 0);
    lemma_ranked_opt("range"@, Some("bytes=0-"@), 0);
    assert(opt_header("range"@, Some(range)) == seq![("range"@, range)]);
    assert(opt_header("range"@, Some("bytes=0-"@)) == seq![("range"@, "bytes=0-"@)]);
    lemma_ranked_opt("cookie"@, cookies, 1);
    lemma_identity_ranked(ua);
    lemma_ranked_opt("referer"@, referer, 6);
    let rf = match referer {
        Some(r) => if valid_header_value(encode_text(r)) { seq![("referer"@, r)] } else { Seq::empty() },
        None => Seq::empty(),
    };
    assert(ranked(rf, 6, 7));
    let idn = match ua { Some(u) => browser_identity(u), None => Seq::empty() };
    lemma_ranked_concat(seq![("range"@, range)], opt_header("cookie"@, cookies), 0, 1, 2);
    lemma_ranked_concat(seq![("range"@, range)] + opt_header("cookie"@, cookies), idn, 0, 2, 6);
    lemma_ranked_concat(seq![("range"@, range)] + opt_header("cookie"@, cookies) + idn, rf, 0, 6, 7);
    lemma_ranked_concat(seq![("range"@, "bytes=0-"@)], opt_header("cookie"@, cookies), 0, 1, 2);
    lemma_ranked_concat(seq![("range"@, "bytes=0-"@)] + opt_header("cookie"@, cookies), idn, 0, 2, 6);
    lemma_ranked_concat(seq![("range"@, "bytes=0-"@)] + opt_header("cookie"@, cookies) + idn,
        opt_header("referer"@, referer), 0, 6, 7);
    assert(ranked(opt_header("cookie"@, cookies), 1, 6));
    lemma_ranked_concat(opt_header("cookie"@, cookies), opt_header("referer"@, referer), 1, 6, 7);
}

/// Law: the requests carry what they are given. The `HEAD` request holds
/// exactly the given cookies and referer; the probe holds the open range
/// from byte 0, the cookies, the user agent and the referer; a worker's
/// request holds its range, the cookies, the user agent, and the referer
/// when that is a valid header value.
pub proof fn lemma_requests_carry_their_inputs(range: Seq<char>, cookies: Option<Seq<char>>, ua: Option<Seq<char>>,
    referer: Option<Seq<char>>)
    ensures
        head_request_headers(cookies, referer).len()
            == (if cookies is Some { 1int } else { 0int }) + (if referer is Some { 1int } else { 0int }),
        cookies matches Some(c) ==> head_request_headers(cookies, referer).contains(("cookie"@, c)),
        referer matches Some(r) ==> head_request_headers(cookies, referer).contains(("referer"@, r)),
        probe_request_headers(cookies, ua, referer).contains(("range"@, "bytes=0-"@)),
        cookies matches Some(c) ==> probe_request_headers(cookies, ua, referer).contains(("cookie"@, c)),
        ua matches Some(u) ==> probe_request_headers(cookies, ua, referer).contains(("user-agent"@, u)),
        referer matches Some(r) ==> probe_request_headers(cookies, ua, referer).contains(("referer"@, r)),
        part_request_headers(range, cookies, ua, referer).contains(("range"@, range)),
        cookies matches Some(c) ==> part_request_headers(range, cookies, ua, referer).contains(("cookie"@, c)),
        ua matches Some(u) ==> part_request_headers(range, cookies, ua, referer).contains(("user-agent"@, u)),
        referer matches Some(r) ==> ((forall|i: int|
            0 <= i < vstd::utf8::encode_utf8(r).len() ==> {
                let b = #[trigger] vstd::utf8::encode_utf8(r)[i];
                (b >= 32 && b != 127) || b == 9
            }) ==> part_request_headers(range, cookies, ua, referer).contains(("referer"@, r))),
{
    let ch = opt_header("cookie"@, cookies);
    let idn = match ua { Some(u) => browser_identity(u), None => Seq::empty() };
    let h = head_request_headers(cookies, referer);
    match cookies {
        Some(c) => { assert(h[0] == ("cookie"@, c)); },
        None => {},
    }
    match referer {
        Some(r) => { assert(h[h.len() - 1] == ("referer"@, r)); },
        None => {},
    }
    let p = probe_request_headers(cookies, ua, referer);
    let a = seq![("range"@, "bytes=0-"@)] + ch;
    let b = a + idn;
    assert(p[0] == ("range"@, "bytes=0-"@));
    match cookies {
        Some(c) => { assert(p[1] == ("cookie"@, c)); },
        None => {},
    }
    match ua {
        Some(u) => { assert(p[a.len() as int] == ("user-agent"@, u)); },
        None => {},
    }
    match referer {
        Some(r) => { assert(p[p.len() - 1] == ("referer"@, r)); },
        None => {},
    }
    let w = part_request_headers(range, cookies, ua, referer);
    let a2 = seq![("range"@, range)] + ch;
    assert(w[0] == ("range"@, range));
    match cookies {
        Some(c) => { assert(w[1] == ("cookie"@, c)); },
        None => {},
    }
    match ua {
        Some(u) => { assert(w[a2.len() as int] == ("user-agent"@, u)); },
        None => {},
    }
    match referer {
        Some(r) => {
            if valid_header_value(encode_text(r)) {
                assert(w[w.len() - 1] == ("referer"@, r));
            }
        },
        None => {},
    }
}

/// The headers of a worker's range request: the range, then the cookies, the
/// browser's identity, and the referer where it is a valid header value.
pub open spec fn part_request_headers(range: Seq<char>, cookies: Option<Seq<char>>, ua: Option<Seq<char>>,
    referer: Option<Seq<char>>) -> Seq<(Seq<char>, Seq<char>)>
{
    seq![("range"@, range)]
        + opt_header("cookie"@, cookies)
        + (match ua { Some(u) => browser_identity(u), None => Seq::empty() })
        + (match referer {
            Some(r) => if valid_header_value(encode_text(r)) { seq![("referer"@, r)] } else { Seq::empty() },
            None => Seq::empty(),
        })
}

/// The UTF-8 bytes of a text.
pub open spec fn encode_text(s: Seq<char>) -> Seq<u8> {
    vstd::utf8::encode_utf8(s)
}

fn push_header(v: &mut Vec<(String, String)>, name: &str, value: String)
    ensures
        header_texts(final(v)@) == header_texts(old(v)@).push((name@, value@)),
{
    let ghost before = v@;
    v.push((owned(name), value));
    assert(header_texts(v@) =~= header_texts(before).push((name@, value@)));
}

fn push_identity(v: &mut Vec<(String, String)>, ua: &str)
    ensures
        header_texts(final(v)@) == header_texts(old(v)@) + browser_identity(ua@),
{
    let ghost before = header_texts(v@);
    let cv = chrome_version(ua);
    push_header(v, "user-agent", owned(ua));
    push_header(v, "sec-ch-ua", sec_ch_ua(cv.as_str()));
    push_header(v, "sec-ch-ua-mobile", owned("?0"));
    push_header(v, "sec-ch-ua-platform", owned("\"Windows\""));
    assert(header_texts(v@) =~= before + browser_identity(ua@));
}

/// The headers a worker sends with its range request (`range` is the
/// `Range` value, see `range_header`).
pub fn part_request(range: &str, cookies: &Option<String>, user_agent: &Option<String>,
    referer: &Option<String>) -> (r: Vec<(String, String)>)
    ensures
        header_texts(r@) == part_request_headers(range@, opt_text(*cookies), opt_text(*user_agent), opt_text(*referer)),
        unique_header_names(r@),
        header_texts(r@).contains(("range"@, range@)),
        cookies matches Some(c) ==> header_texts(r@).contains(("cookie"@, c@)),
        user_agent matches Some(u) ==> header_texts(r@).contains(("user-agent"@, u@)),
{
    let mut v: Vec<(String, String)> = Vec::new();
    push_header(&mut v, "range", owned(range));
    let ghost h1 = header_texts(v@);
    match cookies {
        Some(c) => push_header(&mut v, "cookie", owned(c.as_str())),
        None => {},
    }
    let ghost h2 = header_texts(v@);
    assert(h2 =~= h1 + opt_header("cookie"@, opt_text(*cookies)));
    match user_agent {
        Some(u) => push_identity(&mut v, u.as_str()),
        None => {},
    }
    let ghost h3 = header_texts(v@);
    match referer {
        Some(rf) => {
            if header_value_accepted(rf.as_str()) {
                push_header(&mut v, "referer", owned(rf.as_str()));
            }
        },
        None => {},
    }
    assert(header_texts(v@) =~= part_request_headers(range@, opt_text(*cookies), opt_text(*user_agent), opt_text(*referer)));
    proof {
        lemma_request_headers_ranked(range@, opt_text(*cookies), opt_text(*user_agent), opt_text(*referer));
        lemma_ranked_unique(v@, 0, 7);
        lemma_requests_carry_their_inputs(range@, opt_text(*cookies), opt_text(*user_agent), opt_text(*referer));
    }
    v
}

/// The headers of the probe request that checks for range support: an open
/// range from byte 0, the cookies, the browser's identity and the referer.
pub open spec fn probe_request_headers(cookies: Option<Seq<char>>, ua: Option<Seq<char>>,
    referer: Option<Seq<char>>) -> Seq<(Seq<char>, Seq<char>)>
{
    seq![("range"@, "bytes=0-"@)]
        + opt_header("cookie"@, cookies)
        + (match ua { Some(u) => browser_identity(u), None => Seq::empty() })
        + opt_header("referer"@, referer)
}

pub fn probe_request(cookies: &Option<String>, user_agent: &Option<String>, referer: &Option<String>)
    -> (r: Vec<(String, String)>)
    ensures
        header_texts(r@) == probe_request_headers(opt_text(*cookies), opt_text(*user_agent), opt_text(*referer)),
        unique_header_names(r@),
        header_texts(r@).contains(("range"@, "bytes=0-"@)),
        cookies matches Some(c) ==> header_texts(r@).contains(("cookie"@, c@)),
        user_agent matches Some(u) ==> header_texts(r@).contains(("user-agent"@, u@)),
        referer matches Some(rf) ==> header_texts(r@).contains(("referer"@, rf@)),
{
    let mut v: Vec<(String, String)> = Vec::new();
    push_header(&mut v, "range", owned("bytes=0-"));
    match cookies {
        Some(c) => push_header(&mut v, "cookie", owned(c.as_str())),
        None => {},
    }
    match user_agent {
        Some(u) => push_identity(&mut v, u.as_str()),
        None => {},
    }
    match referer {
        Some(rf) => push_header(&mut v, "referer", owned(rf.as_str())),
        None => {},
    }
    assert(header_texts(v@) =~= probe_request_headers(opt_text(*cookies), opt_text(*user_agent), opt_text(*referer)));
    proof {
        lemma_request_headers_ranked(Seq::empty(), opt_text(*cookies), opt_text(*user_agent), opt_text(*referer));
        lemma_ranked_unique(v@, 0, 7);
        lemma_requests_carry_their_inputs(Seq::empty(), opt_text(*cookies), opt_text(*user_agent), opt_text(*referer));
    }
    v
}

/// The headers of the `HEAD` request of a probe: the cookies and the referer.
pub open spec fn head_request_headers(cookies: Option<Seq<char>>, referer: Option<Seq<char>>)
    -> Seq<(Seq<char>, Seq<char>)>
{
    opt_header("cookie"@, cookies) + opt_header("referer"@, referer)
}

pub fn head_request(cookies: &Option<String>, referer: &Option<String>) -> (r: Vec<(String, String)>)
    ensures
        header_texts(r@) == head_request_headers(opt_text(*cookies), opt_text(*referer)),
        unique_header_names(r@),
        r@.len() == (if cookies is Some { 1int } else { 0int }) + (if referer is Some { 1int } else { 0int }),
        cookies matches Some(c) ==> header_texts(r@).contains(("cookie"@, c@)),
        referer matches Some(rf) ==> header_texts(r@).contains(("referer"@, rf@)),
{
    let mut v: Vec<(String, String)> = Vec::new();
    assert(header_texts(v@) =~= Seq::empty());
    match cookies {
        Some(c) => push_header(&mut v, "cookie", owned(c.as_str())),
        None => {},
    }
    match referer {
        Some(rf) => push_header(&mut v, "referer", owned(rf.as_str())),
        None => {},
    }
    assert(header_texts(v@) =~= head_request_headers(opt_text(*cookies), opt_text(*referer)));
    proof {
        lemma_request_headers_ranked(Seq::empty(), opt_text(*cookies), None, opt_text(*referer));
        lemma_ranked_unique(v@, 1, 7);
        lemma_requests_carry_their_inputs(Seq::empty(), opt_text(*cookies), None, opt_text(*referer));
    }
    v
}

// ---------------------------------------------------------------------------
// Redirects
// ---------------------------------------------------------------------------

/// Where a redirect leads: the `Location` as an absolute URL, else resolved
/// against the current URL.
pub open spec fn redirect_target_of(current: Seq<char>, location: Seq<char>) -> Option<Seq<char>> {
    match url_parsed(location) {
        Ok(u) => Some(u),
        Err(_) => url_joined(current, location),
    }
}

pub fn redirect_target(current: &str, location: &str) -> (r: Option<String>)
    ensures
        opt_text(r) == redirect_target_of(current@, location@),
{
    match url_parse(location) {
        Ok(u) => Some(u),
        Err(_) => url_join(current, location),
    }
}

} // verus!

verus! {

/// The sum of the counters, when it fits in a `u64`.
pub fn checked_sum(v: &Vec<u64>) -> (r: Option<u64>)
    ensures
        r matches Some(x) ==> x == seq_sum(v@),
        r is None <==> seq_sum(v@) > u64::MAX,
{
    let mut acc: u64 = 0;
    let mut i: usize = 0;
    while i < v.len()
        invariant
            i <= v@.len(),
            acc == seq_sum(v@.take(i as int)),
        decreases v@.len() - i,
    {
        proof {
            assert(v@.take(i + 1).drop_last() =~= v@.take(i as int));
        }
        if acc > u64::MAX - v[i] {
            proof {
                lemma_seq_sum_prefix(v@, i + 1);
            }
            return None;
        }
        acc = acc + v[i];
        i += 1;
    }
    assert(v@.take(i as int) =~= v@);
    Some(acc)
}

/// Whether worker `w` can report `speed` (the new sum of speeds fits in a `u64`).
pub fn speed_fits(speeds: &Vec<u64>, w: usize, speed: u64) -> (r: bool)
    ensures
        r == (seq_sum(speeds_with(speeds@, w as int, speed)) <= u64::MAX),
{
    let mut copy: Vec<u64> = Vec::new();
    let mut i: usize = 0;
    while i < speeds.len()
        invariant
            i <= speeds@.len(),
            copy@ == speeds@.take(i as int),
        decreases speeds@.len() - i,
    {
        copy.push(speeds[i]);
        assert(speeds@.take(i + 1) =~= speeds@.take(i as int).push(speeds@[i as int]));
        i += 1;
    }
    assert(copy@ =~= speeds@);
    if w < copy.len() {
        copy.set(w, speed);
    }
    checked_sum(&copy).is_some()
}

/// Whether `bytes` more bytes of part `i` can be counted (the part's count
/// and the sum over parts fit in a `u64`).
pub fn progress_fits(parts: &Vec<Part>, i: usize, bytes: u64) -> (r: bool)
    ensures
        r == ((i as int) < parts@.len() ==> parts@[i as int].downloaded + bytes <= u64::MAX
            && parts_downloaded(parts_with_progress(parts@, i as int, bytes)) <= u64::MAX),
{
    if i >= parts.len() {
        return true;
    }
    if parts[i].downloaded > u64::MAX - bytes {
        return false;
    }
    let mut acc: u64 = 0;
    let mut k: usize = 0;
    let ghost after = parts_with_progress(parts@, i as int, bytes);
    while k < parts.len()
        invariant
            k <= parts@.len(),
            i < parts@.len(),
            parts@[i as int].downloaded + bytes <= u64::MAX,
            after == parts_with_progress(parts@, i as int, bytes),
            after.len() == parts@.len(),
            acc == parts_downloaded(after.take(k as int)),
        decreases parts@.len() - k,
    {
        proof {
            assert(after.take(k + 1).drop_last() =~= after.take(k as int));
        }
        let n = if k == i { parts[k].downloaded + bytes } else { parts[k].downloaded };
        assert(n == after[k as int].downloaded);
        if acc > u64::MAX - n {
            proof {
                lemma_parts_downloaded_prefix(after, k + 1);
            }
            return false;
        }
        acc = acc + n;
        k += 1;
    }
    assert(after.take(k as int) =~= after);
    true
}

/// Whether a chunk of `len` bytes received at `pos` can be cut at `end_byte`.
pub fn chunk_fits(pos: u64, len: u64, end_byte: u64) -> (r: bool)
    ensures
        r == (1 <= pos + len <= u64::MAX && (end_byte > 0 && pos + len - 1 > end_byte ==> pos <= end_byte + 1)),
{
    if len > u64::MAX - pos || pos + len == 0 {
        return false;
    }
    if end_byte > 0 && pos + len - 1 > end_byte {
        pos <= end_byte || pos - 1 == end_byte
    } else {
        true
    }
}

} // verus!
