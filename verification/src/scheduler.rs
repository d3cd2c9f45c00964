//! Handing byte ranges to workers: a worker takes the largest part that no
//! one is fetching, and when none is left it splits the largest remaining
//! range of a busy worker in two.
use vstd::prelude::*;
use crate::models::{ActivePart, Download, Part, is_dead, part_size};

verus! {

/// What a worker is given: the part to fetch, where that part starts, how
/// many of its bytes are already on disk, and, when the part was split off a
/// busy worker's range, which entry of the active list was shortened.
#[derive(Clone, Copy)]
pub struct PartGrant {
    pub part_index: usize,
    pub start: u64,
    pub offset: u64,
    pub split_from: Option<usize>,
}

pub const MIN_SPLIT_FLOOR: u64 = 5242880;

/// Ranges shorter than twice this are not split: 5 MiB, or a 32nd of the file.
pub open spec fn min_split_size(total: u64) -> int {
    if total / 32 > MIN_SPLIT_FLOOR { (total / 32) as int } else { MIN_SPLIT_FLOOR as int }
}

/// Some entry of `active` is fetching part `i`.
pub open spec fn is_assigned(active: Seq<ActivePart>, i: int) -> bool {
    exists|k: int| 0 <= k < active.len() && active[k].part_index == i
}

/// The bytes still missing from part `i` when no one fetches it and it is
/// live and incomplete; 0 otherwise.
pub open spec fn unassigned_room(parts: Seq<Part>, active: Seq<ActivePart>, i: int) -> int {
    if 0 <= i < parts.len() && !is_dead(parts[i]) && parts[i].downloaded < part_size(parts[i])
        && !is_assigned(active, i) {
        part_size(parts[i]) - parts[i].downloaded
    } else {
        0
    }
}

/// `i` is the first of the parts with the most unassigned room, and that room is positive.
pub open spec fn is_best_unassigned(parts: Seq<Part>, active: Seq<ActivePart>, i: int) -> bool {
    &&& 0 <= i < parts.len()
    &&& unassigned_room(parts, active, i) > 0
    &&& forall|j: int| 0 <= j < parts.len() ==> unassigned_room(parts, active, j) <= unassigned_room(parts, active, i)
    &&& forall|j: int| 0 <= j < i ==> unassigned_room(parts, active, j) < unassigned_room(parts, active, i)
}

pub open spec fn best_unassigned(parts: Seq<Part>, active: Seq<ActivePart>) -> Option<int> {
    if exists|i: int| is_best_unassigned(parts, active, i) {
        Some(choose|i: int| is_best_unassigned(parts, active, i))
    } else {
        None
    }
}

/// The bytes that active entry `k` still has to fetch, when that is more than
/// twice `min`; 0 otherwise.
pub open spec fn split_room(active: Seq<ActivePart>, k: int, min: int) -> int {
    if 0 <= k < active.len() && active[k].end > active[k].current_pos
        && active[k].end - active[k].current_pos > 2 * min {
        active[k].end - active[k].current_pos
    } else {
        0
    }
}

pub open spec fn is_best_split(active: Seq<ActivePart>, min: int, k: int) -> bool {
    &&& 0 <= k < active.len()
    &&& split_room(active, k, min) > 0
    &&& forall|j: int| 0 <= j < active.len() ==> split_room(active, j, min) <= split_room(active, k, min)
    &&& forall|j: int| 0 <= j < k ==> split_room(active, j, min) < split_room(active, k, min)
}

pub open spec fn best_split(active: Seq<ActivePart>, min: int) -> Option<int> {
    if exists|k: int| is_best_split(active, min, k) {
        Some(choose|k: int| is_best_split(active, min, k))
    } else {
        None
    }
}

/// Where a split cuts the range of active entry `a`: halfway through what it has left.
pub open spec fn split_point(a: ActivePart) -> int {
    a.current_pos + (a.end - a.current_pos) / 2
}

/// The parts, active entries and grant after a worker asks for work on a
/// download of `total` bytes (0: size unknown) of which `downloaded` are on disk.
pub open spec fn next_part(total: u64, downloaded: u64, parts: Seq<Part>, active: Seq<ActivePart>)
    -> (Seq<Part>, Seq<ActivePart>, Option<PartGrant>)
{
    if total == 0 {
        // A download of unknown size is fetched by one worker, as one part.
        let parts1 = if parts.len() == 0 {
            seq![Part { start: 0, end: 0, downloaded: downloaded }]
        } else {
            parts
        };
        if active.len() == 0 {
            (
                parts1,
                seq![ActivePart { part_index: 0, start: 0, current_pos: parts1[0].downloaded, end: 0 }],
                Some(PartGrant { part_index: 0, start: 0, offset: parts1[0].downloaded, split_from: None }),
            )
        } else {
            (parts1, active, None)
        }
    } else {
        match best_unassigned(parts, active) {
            Some(i) => {
                let p = parts[i];
                (
                    parts,
                    active.push(ActivePart {
                        part_index: i as usize,
                        start: p.start,
                        current_pos: (p.start + p.downloaded) as u64,
                        end: p.end,
                    }),
                    Some(PartGrant { part_index: i as usize, start: p.start, offset: p.downloaded, split_from: None }),
                )
            },
            None => match best_split(active, min_split_size(total)) {
                Some(k) => {
                    let a = active[k];
                    let mid = split_point(a);
                    let victim = parts[a.part_index as int];
                    (
                        parts.update(a.part_index as int, Part { end: (mid - 1) as u64, ..victim })
                            .push(Part { start: mid as u64, end: a.end, downloaded: 0 }),
                        active.update(k, ActivePart { end: (mid - 1) as u64, ..a })
                            .push(ActivePart {
                                part_index: parts.len() as usize,
                                start: mid as u64,
                                current_pos: mid as u64,
                                end: a.end,
                            }),
                        Some(PartGrant {
                            part_index: parts.len() as usize,
                            start: mid as u64,
                            offset: 0,
                            split_from: Some(k as usize),
                        }),
                    )
                },
                None => (parts, active, None),
            },
        }
    }
}

/// Every live part spans fewer than `u64::MAX` bytes (so its size fits in a `u64`).
pub open spec fn sized_parts(parts: Seq<Part>) -> bool {
    forall|i: int| 0 <= i < parts.len() && !is_dead(#[trigger] parts[i]) ==>
        (if parts[i].end >= parts[i].start { parts[i].end - parts[i].start } else { 0int }) < u64::MAX
}

/// Whether work can be handed out without an overflow or a missing part: for
/// a download of known size, the live parts are sized and, when no part is
/// free to take, the entry that would be split names an existing part. A
/// download of unknown size is always schedulable.
pub open spec fn schedulable(total: u64, parts: Seq<Part>, active: Seq<ActivePart>) -> bool {
    total > 0 ==> {
        &&& sized_parts(parts)
        &&& (best_unassigned(parts, active) is None ==>
                (best_split(active, min_split_size(total)) matches Some(k) ==> active[k].part_index < parts.len()))
    }
}

proof fn lemma_best_unassigned_unique(parts: Seq<Part>, active: Seq<ActivePart>, i: int)
    requires
        is_best_unassigned(parts, active, i),
    ensures
        best_unassigned(parts, active) == Some(i),
{
    let k = choose|j: int| is_best_unassigned(parts, active, j);
    assert(is_best_unassigned(parts, active, k));
    if k < i {
        assert(unassigned_room(parts, active, k) < unassigned_room(parts, active, i));
    } else if i < k {
        assert(unassigned_room(parts, active, i) < unassigned_room(parts, active, k));
    }
}

proof fn lemma_best_split_unique(active: Seq<ActivePart>, min: int, k: int)
    requires
        is_best_split(active, min, k),
    ensures
        best_split(active, min) == Some(k),
{
    let c = choose|j: int| is_best_split(active, min, j);
    assert(is_best_split(active, min, c));
    if c < k {
        assert(split_room(active, c, min) < split_room(active, k, min));
    } else if k < c {
        assert(split_room(active, k, min) < split_room(active, c, min));
    }
}

/// Whether some entry of `active` is fetching part `i`.
fn part_is_assigned(active: &Vec<ActivePart>, i: usize) -> (r: bool)
    ensures
        r == is_assigned(active@, i as int),
{
    let mut k: usize = 0;
    while k < active.len()
        invariant
            k <= active@.len(),
            forall|j: int| 0 <= j < k ==> active@[j].part_index != i,
        decreases active@.len() - k,
    {
        if active[k].part_index == i {
            return true;
        }
        k += 1;
    }
    false
}

/// The first of the parts with the most unassigned room, if any has room.
fn find_best_unassigned(parts: &Vec<Part>, active: &Vec<ActivePart>) -> (r: Option<usize>)
    requires
        sized_parts(parts@),
    ensures
        match best_unassigned(parts@, active@) {
            Some(i) => r == Some(i as usize),
            None => r is None,
        },
        r matches Some(i) ==> is_best_unassigned(parts@, active@, i as int),
{
    let mut best: Option<usize> = None;
    let mut max_room: u64 = 0;
    let mut i: usize = 0;
    while i < parts.len()
        invariant
            i <= parts@.len(),
            sized_parts(parts@),
            forall|j: int| 0 <= j < i ==> unassigned_room(parts@, active@, j) <= max_room,
            match best {
                Some(b) => b < i && max_room == unassigned_room(parts@, active@, b as int) && max_room > 0
                    && forall|j: int| 0 <= j < b ==> unassigned_room(parts@, active@, j) < max_room,
                None => max_room == 0,
            },
        decreases parts@.len() - i,
    {
        let p = parts[i];
        if p.start != u64::MAX {
            assert(!is_dead(parts@[i as int]));
            let span: u64 = p.end.saturating_sub(p.start) + 1;
            if p.downloaded < span {
                if !part_is_assigned(active, i) {
                    let room = span - p.downloaded;
                    assert(room == unassigned_room(parts@, active@, i as int));
                    if room > max_room {
                        max_room = room;
                        best = Some(i);
                    }
                } else {
                    assert(unassigned_room(parts@, active@, i as int) == 0);
                }
            } else {
                assert(unassigned_room(parts@, active@, i as int) == 0);
            }
        } else {
            assert(unassigned_room(parts@, active@, i as int) == 0);
        }
        i += 1;
    }
    proof {
        match best {
            Some(b) => {
                assert(is_best_unassigned(parts@, active@, b as int));
                lemma_best_unassigned_unique(parts@, active@, b as int);
            },
            None => {
                if exists|j: int| is_best_unassigned(parts@, active@, j) {
                    let j = choose|j: int| is_best_unassigned(parts@, active@, j);
                    assert(unassigned_room(parts@, active@, j) <= 0);
                }
            },
        }
    }
    best
}

/// The first active entry with the most room to split, if any has enough.
fn find_best_split(active: &Vec<ActivePart>, min: u64) -> (r: Option<usize>)
    requires
        min <= u64::MAX / 2,
    ensures
        match best_split(active@, min as int) {
            Some(k) => r == Some(k as usize),
            None => r is None,
        },
        r matches Some(k) ==> is_best_split(active@, min as int, k as int),
{
    let mut best: Option<usize> = None;
    let mut max_room: u64 = 0;
    let mut k: usize = 0;
    while k < active.len()
        invariant
            k <= active@.len(),
            min <= u64::MAX / 2,
            forall|j: int| 0 <= j < k ==> split_room(active@, j, min as int) <= max_room,
            match best {
                Some(b) => b < k && max_room == split_room(active@, b as int, min as int) && max_room > 0
                    && forall|j: int| 0 <= j < b ==> split_room(active@, j, min as int) < max_room,
                None => max_room == 0,
            },
        decreases active@.len() - k,
    {
        let a = active[k];
        if a.end > a.current_pos {
            let room = a.end - a.current_pos;
            if room > min * 2 && room > max_room {
                max_room = room;
                best = Some(k);
            }
        }
        k += 1;
    }
    proof {
        match best {
            Some(b) => {
                assert(is_best_split(active@, min as int, b as int));
                lemma_best_split_unique(active@, min as int, b as int);
            },
            None => {
                if exists|j: int| is_best_split(active@, min as int, j) {
                    let j = choose|j: int| is_best_split(active@, min as int, j);
                    assert(split_room(active@, j, min as int) <= 0);
                }
            },
        }
    }
    best
}

/// Hands a worker its next range of `d`: for a download of unknown size the
/// single part (when no one fetches it yet); otherwise the part that no one
/// fetches and that misses the most bytes (the first such); otherwise the
/// second half of what the busiest worker has left, when that is more than
/// twice the minimum split size. `None` when there is nothing to hand out.
pub fn get_next_part(d: &mut Download, active: &mut Vec<ActivePart>) -> (r: Option<PartGrant>)
    requires
        schedulable(old(d).total, old(d).parts@, old(active)@),
    ensures
        (final(d).parts@, final(active)@, r) == next_part(old(d).total, old(d).downloaded, old(d).parts@, old(active)@),
        *final(d) == (Download { parts: final(d).parts, ..*old(d) }),
{
    if d.total == 0 {
        if d.parts.len() == 0 {
            d.parts.push(Part { start: 0, end: 0, downloaded: d.downloaded });
        }
        if active.len() == 0 {
            let offset = d.parts[0].downloaded;
            active.push(ActivePart { part_index: 0, start: 0, current_pos: offset, end: 0 });
            return Some(PartGrant { part_index: 0, start: 0, offset, split_from: None });
        }
        return None;
    }
    let min_split: u64 = if d.total / 32 > MIN_SPLIT_FLOOR { d.total / 32 } else { MIN_SPLIT_FLOOR };
    match find_best_unassigned(&d.parts, active) {
        Some(i) => {
            let p = d.parts[i];
            proof {
                assert(is_best_unassigned(d.parts@, old(active)@, i as int));
            }
            let pos = p.start + p.downloaded;
            active.push(ActivePart { part_index: i, start: p.start, current_pos: pos, end: p.end });
            Some(PartGrant { part_index: i, start: p.start, offset: p.downloaded, split_from: None })
        },
        None => match find_best_split(active, min_split) {
            Some(k) => {
                let a = active[k];
                proof {
                    assert(is_best_split(old(active)@, min_split as int, k as int));
                }
                let mid = a.current_pos + (a.end - a.current_pos) / 2;
                active.set(k, ActivePart { end: mid - 1, ..a });
                let victim = d.parts[a.part_index];
                d.parts.set(a.part_index, Part { end: mid - 1, ..victim });
                let new_index = d.parts.len();
                d.parts.push(Part { start: mid, end: a.end, downloaded: 0 });
                active.push(ActivePart { part_index: new_index, start: mid, current_pos: mid, end: a.end });
                Some(PartGrant { part_index: new_index, start: mid, offset: 0, split_from: Some(k) })
            },
            None => None,
        },
    }
}

} // verus!

verus! {

/// Byte `b` lies in some live part.
pub open spec fn covers(parts: Seq<Part>, b: int) -> bool {
    exists|i: int| 0 <= i < parts.len() && !is_dead(parts[i]) && parts[i].start <= b && b <= parts[i].end
}

/// Every active entry names a distinct part whose range it mirrors, and has
/// not moved before the part's start.
pub open spec fn tracks(parts: Seq<Part>, active: Seq<ActivePart>) -> bool {
    &&& forall|k: int| 0 <= k < active.len() ==> {
        let a = #[trigger] active[k];
        &&& a.part_index < parts.len()
        &&& parts[a.part_index as int].start == a.start
        &&& parts[a.part_index as int].end == a.end
        &&& a.start <= a.current_pos
    }
    &&& forall|k: int, l: int| 0 <= k < active.len() && 0 <= l < active.len() && k != l
        ==> (#[trigger] active[k]).part_index != (#[trigger] active[l]).part_index
}

proof fn lemma_next_part_unsized(downloaded: u64, parts: Seq<Part>, active: Seq<ActivePart>)
    requires
        unsized_parts(parts),
        tracks(parts, active),
    ensures
        ({
            let (parts2, active2, grant) = next_part(0, downloaded, parts, active);
            &&& tracks(parts2, active2)
            &&& forall|b: int| covers(parts2, b) == (covers(parts, b) || (parts.len() == 0 && b == 0))
            &&& grant matches Some(g) ==> {
                &&& !is_assigned(active, g.part_index as int)
                &&& active2.len() == active.len() + 1
                &&& active2.last().part_index == g.part_index
                &&& active2.last().current_pos == g.start + g.offset
                &&& g.split_from is None
            }
        }),
{
    let (parts2, active2, grant) = next_part(0, downloaded, parts, active);
    if parts.len() == 0 && active.len() > 0 {
        assert(active[0].part_index < parts.len());
    }
    assert(!is_dead(parts2[0]));
    assert forall|b: int| covers(parts2, b) == (covers(parts, b) || (parts.len() == 0 && b == 0)) by {
        if covers(parts2, b) {
            let q = choose|q: int| 0 <= q < parts2.len() && !is_dead(parts2[q])
                && parts2[q].start <= b && b <= parts2[q].end;
            assert(q == 0);
            if parts.len() > 0 {
                assert(parts2 == parts);
            }
        }
        if parts.len() == 0 && b == 0 {
            assert(parts2[0].start <= b && b <= parts2[0].end);
        }
        if covers(parts, b) {
            assert(parts2 == parts);
        }
    }
    if active.len() == 0 {
        assert(tracks(parts2, active2));
    } else {
        assert(parts2 == parts);
        assert(active2 == active);
    }
}

/// The parts a download of unknown size can have: none yet, or its single
/// part `0..=0`.
pub open spec fn unsized_parts(parts: Seq<Part>) -> bool {
    parts.len() == 0 || (parts.len() == 1 && parts[0].start == 0 && parts[0].end == 0)
}

/// Law: handing out work never gives a worker a part that another worker is
/// fetching, keeps every active entry in step with its part, and leaves the
/// set of bytes that the live parts cover unchanged (a split cuts one range
/// in two adjacent halves, each at least the minimum split size, and the
/// busy worker keeps every byte it has already passed). For a download of
/// unknown size (whose parts are none or the single part `0..=0`) the one
/// part `0..=0` is created when there is none yet, and goes to the first
/// worker only.
pub proof fn lemma_next_part_keeps_ranges(total: u64, downloaded: u64, parts: Seq<Part>, active: Seq<ActivePart>)
    requires
        total > 0 || unsized_parts(parts),
        parts.len() < usize::MAX,
        active.len() < usize::MAX,
        schedulable(total, parts, active),
        tracks(parts, active),
    ensures
        ({
            let (parts2, active2, grant) = next_part(total, downloaded, parts, active);
            &&& tracks(parts2, active2)
            &&& forall|b: int| covers(parts2, b) == (covers(parts, b) || (total == 0 && parts.len() == 0 && b == 0))
            &&& grant matches Some(g) ==> {
                &&& !is_assigned(active, g.part_index as int)
                &&& active2.len() == active.len() + 1
                &&& active2.last().part_index == g.part_index
                &&& active2.last().current_pos == g.start + g.offset
            }
            &&& grant matches Some(g) ==> (g.split_from matches Some(k) ==> {
                &&& 0 <= k < active.len()
                &&& active2[k as int].end >= active[k as int].current_pos
                &&& active2[k as int].end + 1 == g.start
                &&& active2.last().end == active[k as int].end
                &&& active2[k as int].end + 1 - active[k as int].current_pos >= min_split_size(total)
                &&& active2.last().end + 1 - g.start > min_split_size(total)
            })
        }),
{
    if total == 0 {
        lemma_next_part_unsized(downloaded, parts, active);
        return;
    }
    let (parts2, active2, grant) = next_part(total, downloaded, parts, active);
    match best_unassigned(parts, active) {
        Some(i) => {
            assert(is_best_unassigned(parts, active, i));
            assert(!is_assigned(active, i));
            assert(parts[i].downloaded < part_size(parts[i]));
            assert(parts[i].start + parts[i].downloaded <= u64::MAX);
            assert(parts2 == parts);
            assert forall|k: int| 0 <= k < active2.len() implies {
                let a = #[trigger] active2[k];
                &&& a.part_index < parts2.len()
                &&& parts2[a.part_index as int].start == a.start
                &&& parts2[a.part_index as int].end == a.end
                &&& a.start <= a.current_pos
            } by {
                if k < active.len() {
                    assert(active2[k] == active[k]);
                } else {
                    let p = parts[i];
                    assert(p.downloaded < part_size(p));
                    assert(p.start + p.downloaded <= u64::MAX);
                    assert(active2[k].part_index == i);
                    assert(active2[k].current_pos == p.start + p.downloaded);
                }
            }
            assert forall|k: int, l: int| 0 <= k < active2.len() && 0 <= l < active2.len() && k != l
                implies (#[trigger] active2[k]).part_index != (#[trigger] active2[l]).part_index by {
                if k == active.len() as int {
                    assert(active2[l] == active[l]);
                } else if l == active.len() as int {
                    assert(active2[k] == active[k]);
                } else {
                    assert(active2[k] == active[k]);
                    assert(active2[l] == active[l]);
                }
            }
            assert(tracks(parts2, active2));
            assert(forall|b: int| covers(parts2, b) == covers(parts, b));
            let g = grant.unwrap();
            assert(active2.last().current_pos == g.start + g.offset);
            assert(active2.last().part_index == g.part_index);
            assert(g.split_from is None);
        },
        None => {
            match best_split(active, min_split_size(total)) {
                Some(k) => {
                    let min = min_split_size(total);
                    assert(is_best_split(active, min, k));
                    let a = active[k];
                    let v = a.part_index as int;
                    let mid = split_point(a);
                    assert(a.end - a.current_pos > 2 * min);
                    assert(min >= MIN_SPLIT_FLOOR);
                    assert(a.current_pos < mid <= a.end);
                    assert(parts[v].start == a.start && parts[v].end == a.end);
                    assert(!is_dead(parts[v]));
                    // the new part is not being fetched: its index is new
                    assert(!is_assigned(active, parts.len() as int));
                    assert forall|b: int| covers(parts2, b) == covers(parts, b) by {
                        if covers(parts, b) {
                            let i = choose|i: int| 0 <= i < parts.len() && !is_dead(parts[i])
                                && parts[i].start <= b && b <= parts[i].end;
                            if i == v {
                                if b < mid {
                                    assert(parts2[v].start <= b && b <= parts2[v].end);
                                } else {
                                    let n = parts.len() as int;
                                    assert(parts2[n].start <= b && b <= parts2[n].end);
                                    assert(!is_dead(parts2[n]));
                                }
                            } else {
                                assert(parts2[i] == parts[i]);
                            }
                        }
                        if covers(parts2, b) {
                            let i = choose|i: int| 0 <= i < parts2.len() && !is_dead(parts2[i])
                                && parts2[i].start <= b && b <= parts2[i].end;
                            if i == v {
                                assert(parts[v].start <= b && b <= parts[v].end);
                            } else if i == parts.len() as int {
                                assert(parts[v].start <= b && b <= parts[v].end);
                            } else {
                                assert(parts2[i] == parts[i]);
                            }
                        }
                    }
                    assert forall|j: int| 0 <= j < active2.len() implies {
                        let c = #[trigger] active2[j];
                        &&& c.part_index < parts2.len()
                        &&& parts2[c.part_index as int].start == c.start
                        &&& parts2[c.part_index as int].end == c.end
                        &&& c.start <= c.current_pos
                    } by {
                        if j < active.len() && j != k {
                            assert(active2[j] == active[j]);
                            assert(active[j].part_index != active[k].part_index);
                        } else if j == k {
                            assert(active2[j].part_index == a.part_index);
                            assert(active2[j].end == (mid - 1) as u64);
                            assert(parts2[v].end == (mid - 1) as u64);
                            assert(parts2[v].start == parts[v].start);
                        } else {
                            let n = parts.len() as int;
                            assert(active2[j].part_index == n);
                            assert(parts2[n].start == mid as u64);
                            assert(active2[j].start == mid as u64);
                            assert(parts2[n].end == a.end);
                        }
                    }
                    let g = grant.unwrap();
                    assert(g.split_from == Some(k as usize));
                    assert(active2[k].end + 1 == g.start);
                    assert forall|j: int, l: int| 0 <= j < active2.len() && 0 <= l < active2.len() && j != l
                        implies (#[trigger] active2[j]).part_index != (#[trigger] active2[l]).part_index by {
                        let n = active.len() as int;
                        assert(forall|q: int| 0 <= q < n ==> (#[trigger] active2[q]).part_index == active[q].part_index);
                        assert(active2[n].part_index == parts.len());
                        if j == n {
                            assert(active[l].part_index < parts.len());
                        } else if l == n {
                            assert(active[j].part_index < parts.len());
                        } else {
                            assert(active2[j].part_index == active[j].part_index);
                            assert(active2[l].part_index == active[l].part_index);
                        }
                    }
                },
                None => {
                    assert(parts2 == parts);
                    assert(active2 == active);
                    assert(grant is None);
                },
            }
        },
    }
}

} // verus!

verus! {

/// Whether `get_next_part` may be called on `d` with these active entries
/// (see `schedulable`).
pub fn can_schedule(d: &Download, active: &Vec<ActivePart>) -> (r: bool)
    ensures
        r == schedulable(d.total, d.parts@, active@),
{
    if d.total == 0 {
        return true;
    }
    let parts = &d.parts;
    let mut i: usize = 0;
    while i < parts.len()
        invariant
            i <= parts@.len(),
            d.total > 0,
            parts@ == d.parts@,
            forall|j: int| 0 <= j < i && !is_dead(#[trigger] parts@[j]) ==>
                (if parts@[j].end >= parts@[j].start { parts@[j].end - parts@[j].start } else { 0int }) < u64::MAX,
        decreases parts@.len() - i,
    {
        let p = parts[i];
        if p.start != u64::MAX && p.end >= p.start && p.end - p.start == u64::MAX {
            proof {
                let q = parts@[i as int];
                assert(!is_dead(q));
                assert(!((if q.end >= q.start { q.end - q.start } else { 0int }) < u64::MAX));
                assert(!sized_parts(parts@));
            }
            return false;
        }
        i += 1;
    }
    match find_best_unassigned(parts, active) {
        Some(_) => true,
        None => {
            let min_split: u64 = if d.total / 32 > MIN_SPLIT_FLOOR { d.total / 32 } else { MIN_SPLIT_FLOOR };
            match find_best_split(active, min_split) {
                Some(k) => active[k].part_index < parts.len(),
                None => true,
            }
        },
    }
}

} // verus!
