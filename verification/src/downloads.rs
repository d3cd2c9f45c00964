//! The list of downloads and what the user does to it: add, pause, resume,
//! cancel, re-link, select and delete downloads.
use vstd::prelude::*;
use crate::models::{Download, Part, st_connecting, st_downloading, st_paused, st_cancelled};
use crate::text::{owned, text_eq};
use crate::transfer::{zeros, zero_speeds};
use crate::utils::{temp_name, temp_file_name};
use crate::outside::{path_join, path_joined, path_relative, path_is_relative};

verus! {

// ---------------------------------------------------------------------------
// Finding a download
// ---------------------------------------------------------------------------

/// `i` is the first download with id `id`.
pub open spec fn is_first_with_id(list: Seq<Download>, id: Seq<char>, i: int) -> bool {
    0 <= i < list.len() && list[i].id@ == id && forall|j: int| 0 <= j < i ==> list[j].id@ != id
}

pub open spec fn first_with_id(list: Seq<Download>, id: Seq<char>) -> Option<int> {
    if exists|i: int| is_first_with_id(list, id, i) {
        Some(choose|i: int| is_first_with_id(list, id, i))
    } else {
        None
    }
}

/// Position of the first download with id `id`.
pub fn find_download(list: &Vec<Download>, id: &str) -> (r: Option<usize>)
    ensures
        match first_with_id(list@, id@) {
            Some(i) => r == Some(i as usize),
            None => r is None,
        },
        r matches Some(i) ==> is_first_with_id(list@, id@, i as int),
{
    let mut k: usize = 0;
    while k < list.len()
        invariant
            k <= list@.len(),
            forall|j: int| 0 <= j < k ==> list@[j].id@ != id@,
        decreases list@.len() - k,
    {
        if text_eq(list[k].id.as_str(), id) {
            proof {
                assert(is_first_with_id(list@, id@, k as int));
                let c = choose|q: int| is_first_with_id(list@, id@, q);
                if c < k {
                    assert(list@[c].id@ == id@);
                } else if k < c {
                    assert(list@[k as int].id@ == id@);
                }
            }
            return Some(k);
        }
        k += 1;
    }
    proof {
        if exists|q: int| is_first_with_id(list@, id@, q) {
            let q = choose|q: int| is_first_with_id(list@, id@, q);
            assert(list@[q].id@ == id@);
        }
    }
    None
}

/// `new` is `old` with position `i` changed by `step`, when `i` names the
/// first download with `id`; `new` is `old` when there is none.
pub open spec fn first_changed(old: Seq<Download>, new: Seq<Download>, id: Seq<char>,
    step: spec_fn(Download, Download) -> bool) -> bool
{
    match first_with_id(old, id) {
        Some(i) => {
            &&& new.len() == old.len()
            &&& step(old[i], new[i])
            &&& forall|j: int| 0 <= j < old.len() && j != i ==> new[j] == old[j]
        },
        None => new == old,
    }
}

// ---------------------------------------------------------------------------
// Pause, re-link, cancel
// ---------------------------------------------------------------------------

/// `new` is `old` paused: state "Paused", speed 0 and every speed slot 0.
pub open spec fn is_paused_from(old: Download, new: Download) -> bool {
    &&& new == Download { state: new.state, speeds: new.speeds, speed: 0, ..old }
    &&& new.state@ == st_paused()
    &&& new.speeds@ == zeros(old.speeds@.len())
}

fn pause(d: &mut Download)
    ensures
        is_paused_from(*old(d), *final(d)),
{
    d.state = owned("Paused");
    d.speed = 0;
    zero_speeds(&mut d.speeds);
}

/// Pauses the first download with id `id` (its workers are stopped by the app).
pub fn pause_download(list: &mut Vec<Download>, id: &str)
    ensures
        first_changed(old(list)@, final(list)@, id@, |o: Download, n: Download| is_paused_from(o, n)),
{
    match find_download(list, id) {
        Some(i) => {
            pause(&mut list[i]);
        },
        None => {},
    }
}

/// Law: pausing twice is pausing once. The second pause leaves every
/// download as the first left it (the state text and the speed slots with
/// the same contents).
pub proof fn lemma_pause_twice(a: Seq<Download>, b: Seq<Download>, c: Seq<Download>, id: Seq<char>)
    requires
        first_changed(a, b, id, |o: Download, n: Download| is_paused_from(o, n)),
        first_changed(b, c, id, |o: Download, n: Download| is_paused_from(o, n)),
    ensures
        c.len() == b.len(),
        forall|j: int| 0 <= j < b.len() ==> {
            &&& (#[trigger] c[j]) == (Download { state: c[j].state, speeds: c[j].speeds, ..b[j] })
            &&& c[j].state@ == b[j].state@
            &&& c[j].speeds@ == b[j].speeds@
        },
{
    match first_with_id(a, id) {
        Some(i) => {
            assert(forall|j: int| 0 <= j < a.len() ==> (#[trigger] b[j]).id == a[j].id) by {
                assert forall|j: int| 0 <= j < a.len() implies (#[trigger] b[j]).id == a[j].id by {
                    if j == i {
                        assert(is_paused_from(a[i], b[i]));
                    }
                }
            }
            lemma_first_with_id_same_ids(a, b, id);
            assert(is_paused_from(a[i], b[i]));
            assert(is_paused_from(b[i], c[i]));
        },
        None => {
            assert(b == a);
        },
    }
}

/// `new` is `old` paused and pointed at `link`.
pub open spec fn is_relinked_from(old: Download, new: Download, link: Seq<char>) -> bool {
    &&& new == Download { state: new.state, speeds: new.speeds, speed: 0, link: new.link, ..old }
    &&& new.state@ == st_paused()
    &&& new.speeds@ == zeros(old.speeds@.len())
    &&& new.link@ == link
}

/// Pauses the first download with id `id` and gives it the new link `url`.
pub fn change_link(list: &mut Vec<Download>, id: &str, url: String)
    ensures
        first_changed(old(list)@, final(list)@, id@, |o: Download, n: Download| is_relinked_from(o, n, url@)),
{
    match find_download(list, id) {
        Some(i) => {
            let d = &mut list[i];
            d.state = owned("Paused");
            d.speed = 0;
            d.link = url;
            zero_speeds(&mut d.speeds);
        },
        None => {},
    }
}

/// The one part of a download that starts over: all of `0..=total-1`, nothing on disk.
pub open spec fn whole_file_part(total: u64) -> Part {
    Part { start: 0, end: if total > 0 { (total - 1) as u64 } else { 0 }, downloaded: 0 }
}

/// `new` is `old` cancelled: nothing downloaded, state "Cancelled", speed,
/// speeds and connections 0, and (when it had parts) a single part over the
/// whole file.
pub open spec fn is_cancelled_from(old: Download, new: Download) -> bool {
    &&& new == Download { state: new.state, speeds: new.speeds, connections: new.connections,
            parts: new.parts, speed: 0, downloaded: 0, ..old }
    &&& new.state@ == st_cancelled()
    &&& new.speeds@ == zeros(old.speeds@.len())
    &&& new.connections@ == zeros(old.connections@.len())
    &&& new.parts@ == (if old.parts@.len() > 0 { seq![whole_file_part(old.total)] } else { old.parts@ })
}

/// The temporary file of a download: `<location>/<name>.jdm`.
pub open spec fn temp_path_of(d: Download) -> Seq<char> {
    path_joined(d.location@, temp_name(d.name@))
}

/// The final file of a download: `<location>/<name>`.
pub open spec fn final_path_of(d: Download) -> Seq<char> {
    path_joined(d.location@, d.name@)
}

pub fn temp_file_path(d: &Download) -> (r: String)
    ensures
        r@ == temp_path_of(*d),
{
    let t = temp_file_name(d.name.as_str());
    path_join(d.location.as_str(), t.as_str())
}

pub fn final_file_path(d: &Download) -> (r: String)
    ensures
        r@ == final_path_of(*d),
{
    path_join(d.location.as_str(), d.name.as_str())
}

/// Cancels the first download with id `id` and returns its temporary file,
/// which the app deletes.
pub fn cancel_download(list: &mut Vec<Download>, id: &str) -> (r: Option<String>)
    ensures
        first_changed(old(list)@, final(list)@, id@, |o: Download, n: Download| is_cancelled_from(o, n)),
        match first_with_id(old(list)@, id@) {
            Some(i) => r matches Some(p) && p@ == temp_path_of(old(list)@[i]),
            None => r is None,
        },
{
    match find_download(list, id) {
        Some(i) => {
            let d = &mut list[i];
            d.downloaded = 0;
            d.state = owned("Cancelled");
            d.speed = 0;
            zero_speeds(&mut d.connections);
            if d.parts.len() > 0 {
                let end = if d.total > 0 { d.total - 1 } else { 0 };
                let mut parts: Vec<Part> = Vec::new();
                parts.push(Part { start: 0, end, downloaded: 0 });
                d.parts = parts;
            }
            zero_speeds(&mut d.speeds);
            Some(temp_file_path(d))
        },
        None => None,
    }
}

// ---------------------------------------------------------------------------
// Resume
// ---------------------------------------------------------------------------

/// A part whose size `end - start + 1` can be computed in a `u64`.
pub open spec fn well_sized(p: Part) -> bool {
    p.start <= p.end && p.end - p.start < u64::MAX
}

/// Part `p` has all its bytes on disk.
pub open spec fn part_complete(p: Part) -> bool {
    p.downloaded >= p.end - p.start + 1
}

/// A sized download whose parts all have their bytes on disk.
pub open spec fn all_parts_complete(d: Download) -> bool {
    d.total > 0 && forall|i: int| 0 <= i < d.parts@.len() ==> part_complete(#[trigger] d.parts@[i])
}

/// The parts are checked in order until one is incomplete; each checked part
/// must be well sized.
pub open spec fn completion_checkable(d: Download) -> bool {
    d.total > 0 ==> forall|i: int| 0 <= i < d.parts@.len()
        && (forall|j: int| 0 <= j < i ==> part_complete(#[trigger] d.parts@[j]))
        ==> well_sized(#[trigger] d.parts@[i])
}

/// Whether a sized download already has every byte of every part.
pub fn parts_complete(d: &Download) -> (r: bool)
    requires
        completion_checkable(*d),
    ensures
        r == all_parts_complete(*d),
{
    if d.total == 0 {
        return false;
    }
    let mut i: usize = 0;
    while i < d.parts.len()
        invariant
            i <= d.parts@.len(),
            d.total > 0,
            completion_checkable(*d),
            forall|j: int| 0 <= j < i ==> part_complete(#[trigger] d.parts@[j]),
        decreases d.parts@.len() - i,
    {
        let p = d.parts[i];
        assert(well_sized(d.parts@[i as int]));
        if p.downloaded < p.end - p.start + 1 {
            return false;
        }
        i += 1;
    }
    true
}

/// How many workers a resumed download gets: one without range support or
/// size, else one per speed slot it had, or 8 the first time.
pub open spec fn worker_count(d: Download) -> int {
    if !d.resume {
        1
    } else if d.total > 0 {
        if d.speeds@.len() > 0 { d.speeds@.len() as int } else { 8 }
    } else {
        1
    }
}

pub fn workers_to_spawn(d: &Download) -> (r: usize)
    ensures
        r == worker_count(*d),
{
    if !d.resume {
        1
    } else if d.total > 0 {
        if d.speeds.len() > 0 { d.speeds.len() } else { 8 }
    } else {
        1
    }
}

/// `new` is `old` connecting again with `workers` speed slots at time `now`:
/// the time spent so far is kept (reset when it lies in the future) and the
/// start time moved back by it.
pub open spec fn is_resumed_from(old: Download, new: Download, workers: nat, now: u64) -> bool {
    let elapsed = if old.elapsed > now { 0 } else { old.elapsed };
    &&& new == Download { state: new.state, speeds: new.speeds, speed: 0, elapsed: elapsed,
            start_time: Some((now - elapsed) as u64), ..old }
    &&& new.state@ == st_connecting()
    &&& new.speeds@ == zeros(workers)
}

/// Two lists whose downloads carry the same ids position by position find
/// the same first download for every id.
proof fn lemma_first_with_id_same_ids(a: Seq<Download>, b: Seq<Download>, id: Seq<char>)
    requires
        a.len() == b.len(),
        forall|j: int| 0 <= j < a.len() ==> (#[trigger] b[j]).id == a[j].id,
    ensures
        first_with_id(b, id) == first_with_id(a, id),
{
    if exists|i: int| is_first_with_id(a, id, i) {
        let i = choose|i: int| is_first_with_id(a, id, i);
        assert(b[i].id == a[i].id);
        assert(is_first_with_id(b, id, i)) by {
            assert forall|j: int| 0 <= j < i implies b[j].id@ != id by {
                assert(b[j].id == a[j].id);
            }
        }
        let k = choose|q: int| is_first_with_id(b, id, q);
        if k < i {
            assert(b[k].id@ == id);
        } else if i < k {
            assert(b[i].id@ == id);
        }
    } else if exists|k: int| is_first_with_id(b, id, k) {
        let k = choose|k: int| is_first_with_id(b, id, k);
        assert(b[k].id == a[k].id);
        assert(is_first_with_id(a, id, k)) by {
            assert forall|j: int| 0 <= j < k implies a[j].id@ != id by {
                assert(b[j].id == a[j].id);
            }
        }
    }
}

/// Law: pausing a download and resuming it keeps everything it has
/// fetched (its parts, counters, size, link, name and folder) and leaves it
/// connecting with as many fresh speed slots as it gets workers; the other
/// downloads are untouched.
pub proof fn lemma_pause_then_resume_keeps_progress(a: Seq<Download>, b: Seq<Download>, c: Seq<Download>,
    id: Seq<char>, now: u64)
    requires
        first_changed(a, b, id, |o: Download, n: Download| is_paused_from(o, n)),
        first_changed(b, c, id, |o: Download, n: Download| is_resumed_from(o, n, worker_count(o) as nat, now)),
    ensures
        c.len() == a.len(),
        forall|j: int| 0 <= j < a.len() ==> {
            &&& (#[trigger] c[j]).parts == a[j].parts
            &&& c[j].downloaded == a[j].downloaded
            &&& c[j].total == a[j].total
            &&& c[j].id == a[j].id
            &&& c[j].link == a[j].link
            &&& c[j].name == a[j].name
            &&& c[j].location == a[j].location
        },
        match first_with_id(a, id) {
            Some(i) => c[i].state@ == st_connecting() && c[i].speeds@ == zeros(worker_count(a[i]) as nat)
                && forall|j: int| 0 <= j < a.len() && j != i ==> c[j] == a[j],
            None => c == a,
        },
{
    match first_with_id(a, id) {
        Some(i) => {
            assert(forall|j: int| 0 <= j < a.len() ==> (#[trigger] b[j]).id == a[j].id) by {
                assert forall|j: int| 0 <= j < a.len() implies (#[trigger] b[j]).id == a[j].id by {
                    if j == i {
                        assert(is_paused_from(a[i], b[i]));
                    }
                }
            }
            lemma_first_with_id_same_ids(a, b, id);
            assert(is_paused_from(a[i], b[i]));
            assert(is_resumed_from(b[i], c[i], worker_count(b[i]) as nat, now));
            assert(worker_count(b[i]) == worker_count(a[i]));
        },
        None => {
            assert(b == a);
        },
    }
}

fn zero_vec(n: usize) -> (v: Vec<u64>)
    ensures
        v@ == zeros(n as nat),
{
    let mut v: Vec<u64> = Vec::new();
    while v.len() < n
        invariant
            v@.len() <= n,
            forall|j: int| 0 <= j < v@.len() ==> v@[j] == 0,
        decreases n - v@.len(),
    {
        v.push(0);
    }
    assert(v@ =~= zeros(n as nat));
    v
}

/// What resuming a download comes to: there is no download with that id;
/// it has every byte already (the app only moves its file into place); or
/// it starts again with `workers` workers. `index` is the download's
/// position in the list.
#[derive(Clone, Copy, Debug)]
pub enum ResumePlan {
    NotFound,
    AlreadyComplete { index: usize },
    Start { index: usize, workers: usize },
}

/// The completion check of the download to resume can run (see
/// `completion_checkable`).
pub open spec fn resume_checkable(list: Seq<Download>, id: Seq<char>) -> bool {
    first_with_id(list, id) matches Some(i) ==> completion_checkable(list[i])
}

/// The plan for resuming the first download with id `id`.
pub open spec fn resume_plan_of(list: Seq<Download>, id: Seq<char>) -> ResumePlan {
    match first_with_id(list, id) {
        None => ResumePlan::NotFound,
        Some(i) => if all_parts_complete(list[i]) {
            ResumePlan::AlreadyComplete { index: i as usize }
        } else {
            ResumePlan::Start { index: i as usize, workers: worker_count(list[i]) as usize }
        },
    }
}

/// Whether `resume_plan` and `resume_download` may be called for `id`.
pub fn resume_check_ok(list: &Vec<Download>, id: &str) -> (r: bool)
    ensures
        r == resume_checkable(list@, id@),
{
    match find_download(list, id) {
        Some(i) => completion_check_ok(&list[i]),
        None => true,
    }
}

/// Decides what resuming the first download with id `id` comes to (see
/// `ResumePlan`): not found, already complete (a sized download whose parts
/// all have their bytes), or a start with `workers_to_spawn` workers.
pub fn resume_plan(list: &Vec<Download>, id: &str) -> (r: ResumePlan)
    requires
        resume_checkable(list@, id@),
    ensures
        r == resume_plan_of(list@, id@),
        r matches ResumePlan::Start { index, workers } ==> index < list@.len()
            && first_with_id(list@, id@) == Some(index as int) && workers as int == worker_count(list@[index as int]),
        r matches ResumePlan::AlreadyComplete { index } ==> index < list@.len()
            && first_with_id(list@, id@) == Some(index as int),
{
    match find_download(list, id) {
        None => ResumePlan::NotFound,
        Some(i) => {
            if parts_complete(&list[i]) {
                ResumePlan::AlreadyComplete { index: i }
            } else {
                ResumePlan::Start { index: i, workers: workers_to_spawn(&list[i]) }
            }
        },
    }
}

/// Resumes the first download with id `id` at time `now` (seconds since
/// the epoch), as `resume_plan` decides: when it starts, it is marked
/// connecting with one zeroed speed slot per worker, its time so far kept
/// (reset when it lies in the future) and its start time moved back by it;
/// otherwise the list is left as it is.
pub fn resume_download(list: &mut Vec<Download>, id: &str, now: u64) -> (r: ResumePlan)
    requires
        resume_checkable(old(list)@, id@),
    ensures
        r == resume_plan_of(old(list)@, id@),
        r is Start ==> first_changed(old(list)@, final(list)@, id@,
            |o: Download, n: Download| is_resumed_from(o, n, worker_count(o) as nat, now)),
        !(r is Start) ==> final(list)@ == old(list)@,
{
    let ghost before = list@;
    let plan = resume_plan(list, id);
    match plan {
        ResumePlan::Start { index, workers } => {
            let ghost o = before[index as int];
            assert(workers as nat == worker_count(o) as nat);
            let d = &mut list[index];
            d.state = owned("Connecting");
            d.speeds = zero_vec(workers);
            d.speed = 0;
            if d.elapsed > now {
                d.elapsed = 0;
            }
            d.start_time = Some(now - d.elapsed);
            assert(is_resumed_from(o, list@[index as int], worker_count(o) as nat, now));
            assert(forall|j: int| 0 <= j < before.len() && j != index ==> list@[j] == before[j]);
        },
        _ => {},
    }
    plan
}

// ---------------------------------------------------------------------------
// Adding
// ---------------------------------------------------------------------------

/// Where a download's files go: a relative location is taken inside the
/// user's download folder ("Downloads" meaning the folder itself); without a
/// download folder, and for an absolute location, it stays as it is.
pub open spec fn resolved_location(location: Seq<char>, download_dir: Option<Seq<char>>) -> Seq<char> {
    if path_is_relative(location) {
        match download_dir {
            Some(dir) => if location == "Downloads"@ { dir } else { path_joined(dir, location) },
            None => location,
        }
    } else {
        location
    }
}

pub fn resolve_location(location: &str, download_dir: &Option<String>) -> (r: String)
    ensures
        r@ == resolved_location(location@, crate::transfer::opt_text(*download_dir)),
{
    if path_relative(location) {
        match download_dir {
            Some(dir) => {
                if text_eq(location, "Downloads") {
                    owned(dir.as_str())
                } else {
                    path_join(dir.as_str(), location)
                }
            },
            None => owned(location),
        }
    } else {
        owned(location)
    }
}

/// The parts a new download starts with: its own, or one part over the whole
/// file (`0..=0` when the size is unknown).
pub open spec fn initial_parts(d: Download) -> Seq<Part> {
    if d.parts@.len() == 0 { seq![whole_file_part(d.total)] } else { d.parts@ }
}

/// Appends a new download: its location resolved against the user's
/// download folder `download_dir` (see `resolved_location`), and a single
/// whole-file part given when it has none. Returns the temporary file to
/// create at full size first, for a sized download with range support (the
/// app creates it, and takes the download back out if that fails).
pub fn add_download(list: &mut Vec<Download>, download: Download, download_dir: &Option<String>)
    -> (allocate: Option<String>)
    ensures
        final(list)@.len() == old(list)@.len() + 1,
        forall|j: int| 0 <= j < old(list)@.len() ==> final(list)@[j] == old(list)@[j],
        final(list)@.last() == (Download {
            parts: final(list)@.last().parts,
            location: final(list)@.last().location,
            ..download
        }),
        final(list)@.last().parts@ == initial_parts(download),
        final(list)@.last().location@ == resolved_location(download.location@, crate::transfer::opt_text(*download_dir)),
        if download.resume && download.total > 0 {
            allocate matches Some(p) && p@ == temp_path_of(final(list)@.last())
        } else {
            allocate is None
        },
{
    let mut download = download;
    download.location = resolve_location(download.location.as_str(), download_dir);
    if download.parts.len() == 0 {
        let end = if download.total > 0 { download.total - 1 } else { 0 };
        let mut parts: Vec<Part> = Vec::new();
        parts.push(Part { start: 0, end, downloaded: 0 });
        download.parts = parts;
    }
    let allocate = if download.resume && download.total > 0 { Some(temp_file_path(&download)) } else { None };
    list.push(download);
    allocate
}

// ---------------------------------------------------------------------------
// Selection
// ---------------------------------------------------------------------------

/// Download `d` is listed under `tab` ("All" lists every download).
pub open spec fn in_tab(d: Download, tab: Seq<char>) -> bool {
    tab == "All"@ || d.state@ == tab
}

/// Whether some download under `tab` is selected.
pub open spec fn any_selected_in(list: Seq<Download>, tab: Seq<char>) -> bool {
    exists|k: int| 0 <= k < list.len() && in_tab(list[k], tab) && list[k].is_selected
}

/// `d` with its selection set to `s`.
pub open spec fn with_selection(d: Download, s: bool) -> Download {
    Download { is_selected: s, ..d }
}

/// Selects every download under `tab`, or clears their selection when one of
/// them is selected already; downloads of other tabs keep theirs.
pub fn toggle_select(list: &mut Vec<Download>, tab: &str)
    ensures
        final(list)@.len() == old(list)@.len(),
        forall|k: int| 0 <= k < old(list)@.len() ==> final(list)@[k] == (if in_tab(old(list)@[k], tab@) {
            with_selection(old(list)@[k], !any_selected_in(old(list)@, tab@))
        } else {
            old(list)@[k]
        }),
{
    let all = text_eq(tab, "All");
    let mut any = false;
    let mut k: usize = 0;
    while k < list.len()
        invariant
            k <= list@.len(),
            all == (tab@ == "All"@),
            any == (exists|j: int| 0 <= j < k && in_tab(list@[j], tab@) && list@[j].is_selected),
        decreases list@.len() - k,
    {
        if (all || text_eq(list[k].state.as_str(), tab)) && list[k].is_selected {
            any = true;
        }
        k += 1;
    }
    let should_select = !any;
    let ghost before = list@;
    let mut k: usize = 0;
    while k < list.len()
        invariant
            k <= list@.len(),
            list@.len() == before.len(),
            all == (tab@ == "All"@),
            should_select == !any_selected_in(before, tab@),
            forall|j: int| 0 <= j < k ==> list@[j] == (if in_tab(before[j], tab@) {
                with_selection(before[j], should_select) } else { before[j] }),
            forall|j: int| k <= j < list@.len() ==> list@[j] == before[j],
        decreases list@.len() - k,
    {
        if all || text_eq(list[k].state.as_str(), tab) {
            let d = &mut list[k];
            d.is_selected = should_select;
        }
        k += 1;
    }
}

/// Flips the selection of the first download with id `id`.
pub fn toggle_one(list: &mut Vec<Download>, id: &str)
    ensures
        first_changed(old(list)@, final(list)@, id@, |o: Download, n: Download| n == with_selection(o, !o.is_selected)),
{
    match find_download(list, id) {
        Some(i) => {
            let d = &mut list[i];
            d.is_selected = !d.is_selected;
        },
        None => {},
    }
}

/// Law: toggling a download twice leaves the list as it was.
pub proof fn lemma_toggle_one_twice(a: Seq<Download>, b: Seq<Download>, c: Seq<Download>, id: Seq<char>)
    requires
        first_changed(a, b, id, |o: Download, n: Download| n == with_selection(o, !o.is_selected)),
        first_changed(b, c, id, |o: Download, n: Download| n == with_selection(o, !o.is_selected)),
    ensures
        c == a,
{
    match first_with_id(a, id) {
        Some(i) => {
            assert(is_first_with_id(a, id, i));
            assert(is_first_with_id(b, id, i)) by {
                assert forall|j: int| 0 <= j < i implies b[j].id@ != id by {
                    assert(b[j] == a[j]);
                }
            }
            let k = choose|q: int| is_first_with_id(b, id, q);
            if k < i {
                assert(b[k].id@ == id);
            } else if i < k {
                assert(b[i].id@ == id);
            }
            assert(first_with_id(b, id) == Some(i));
            assert(c =~= a);
        },
        None => {
            assert(b == a);
        },
    }
}

/// Selects only the downloads with id `id`, flipping their selection, and
/// clears every other selection.
pub fn select_one(list: &mut Vec<Download>, id: &str)
    ensures
        final(list)@.len() == old(list)@.len(),
        forall|k: int| 0 <= k < old(list)@.len() ==> final(list)@[k] == (if old(list)@[k].id@ == id@ {
            with_selection(old(list)@[k], !old(list)@[k].is_selected)
        } else {
            with_selection(old(list)@[k], false)
        }),
{
    let ghost before = list@;
    let mut k: usize = 0;
    while k < list.len()
        invariant
            k <= list@.len(),
            list@.len() == before.len(),
            forall|j: int| 0 <= j < k ==> list@[j] == (if before[j].id@ == id@ {
                with_selection(before[j], !before[j].is_selected) } else { with_selection(before[j], false) }),
            forall|j: int| k <= j < list@.len() ==> list@[j] == before[j],
        decreases list@.len() - k,
    {
        let same = text_eq(list[k].id.as_str(), id);
        let d = &mut list[k];
        if same {
            d.is_selected = !d.is_selected;
        } else {
            d.is_selected = false;
        }
        k += 1;
    }
}

/// Law: after `select_one`, every selected download carries the chosen id.
pub proof fn lemma_select_one_selects_only_id(old: Seq<Download>, new: Seq<Download>, id: Seq<char>)
    requires
        new.len() == old.len(),
        forall|k: int| 0 <= k < old.len() ==> new[k] == (if old[k].id@ == id {
            with_selection(old[k], !old[k].is_selected)
        } else {
            with_selection(old[k], false)
        }),
    ensures
        forall|k: int| 0 <= k < new.len() && new[k].is_selected ==> new[k].id@ == id,
{
}

// ---------------------------------------------------------------------------
// Removing
// ---------------------------------------------------------------------------

pub open spec fn is_selected_dl() -> spec_fn(Download) -> bool {
    |d: Download| d.is_selected
}

pub open spec fn is_unselected_dl() -> spec_fn(Download) -> bool {
    |d: Download| !d.is_selected
}

pub open spec fn has_other_id(id: Seq<char>) -> spec_fn(Download) -> bool {
    |d: Download| d.id@ != id
}

/// Takes the selected downloads out of the list, in order, and returns them
/// (the app deletes their files when asked to).
pub fn delete_selected(list: &mut Vec<Download>) -> (removed: Vec<Download>)
    ensures
        final(list)@ == old(list)@.filter(is_unselected_dl()),
        removed@ == old(list)@.filter(is_selected_dl()),
{
    let mut rest: Vec<Download> = Vec::new();
    std::mem::swap(list, &mut rest);
    let ghost orig = rest@;
    let mut kept: Vec<Download> = Vec::new();
    let mut removed: Vec<Download> = Vec::new();
    let ghost mut k: int = 0;
    assert(orig.skip(0) =~= orig);
    while rest.len() > 0
        invariant
            0 <= k <= orig.len(),
            rest@ == orig.skip(k),
            kept@ == orig.take(k).filter(is_unselected_dl()),
            removed@ == orig.take(k).filter(is_selected_dl()),
        decreases rest@.len(),
    {
        let d = rest.remove(0);
        proof {
            reveal(Seq::filter);
            assert(orig.take(k + 1).drop_last() =~= orig.take(k));
            assert(orig.take(k + 1).last() == d);
            assert(orig.skip(k).remove(0) =~= orig.skip(k + 1));
            k = k + 1;
        }
        if d.is_selected {
            removed.push(d);
        } else {
            kept.push(d);
        }
    }
    assert(orig.take(k) =~= orig);
    *list = kept;
    removed
}

/// Takes every download with id `id` out of the list.
pub fn remove_download(list: &mut Vec<Download>, id: &str)
    ensures
        final(list)@ == old(list)@.filter(has_other_id(id@)),
{
    let mut rest: Vec<Download> = Vec::new();
    std::mem::swap(list, &mut rest);
    let ghost orig = rest@;
    let mut kept: Vec<Download> = Vec::new();
    let ghost mut k: int = 0;
    assert(orig.skip(0) =~= orig);
    while rest.len() > 0
        invariant
            0 <= k <= orig.len(),
            rest@ == orig.skip(k),
            kept@ == orig.take(k).filter(has_other_id(id@)),
        decreases rest@.len(),
    {
        let d = rest.remove(0);
        proof {
            reveal(Seq::filter);
            assert(orig.take(k + 1).drop_last() =~= orig.take(k));
            assert(orig.take(k + 1).last() == d);
            assert(orig.skip(k).remove(0) =~= orig.skip(k + 1));
            k = k + 1;
        }
        if !text_eq(d.id.as_str(), id) {
            kept.push(d);
        }
    }
    assert(orig.take(k) =~= orig);
    *list = kept;
}

/// Takes every download with id `id` out of the list and returns the
/// temporary and final files of the first of them, which the app deletes.
pub fn delete_download(list: &mut Vec<Download>, id: &str) -> (r: Option<(String, String)>)
    ensures
        final(list)@ == old(list)@.filter(has_other_id(id@)),
        match first_with_id(old(list)@, id@) {
            Some(i) => r matches Some(p) && p.0@ == temp_path_of(old(list)@[i]) && p.1@ == final_path_of(old(list)@[i]),
            None => r is None,
        },
{
    let files = match find_download(list, id) {
        Some(i) => Some((temp_file_path(&list[i]), final_file_path(&list[i]))),
        None => None,
    };
    remove_download(list, id);
    files
}

// ---------------------------------------------------------------------------
// Restoring and ticking
// ---------------------------------------------------------------------------

/// Whether a download was being fetched.
pub open spec fn is_running(d: Download) -> bool {
    d.state@ == st_downloading() || d.state@ == st_connecting()
}

/// Downloads that were running when the app stopped come back paused, with
/// their speeds at 0; the others come back as they were.
pub fn pause_interrupted(list: &mut Vec<Download>)
    ensures
        final(list)@.len() == old(list)@.len(),
        forall|k: int| #![trigger final(list)@[k]] 0 <= k < old(list)@.len() ==> if is_running(old(list)@[k]) {
            is_paused_from(old(list)@[k], final(list)@[k])
        } else {
            final(list)@[k] == old(list)@[k]
        },
{
    let ghost before = list@;
    let mut k: usize = 0;
    while k < list.len()
        invariant
            k <= list@.len(),
            list@.len() == before.len(),
            forall|j: int| #![trigger list@[j]] 0 <= j < k ==> if is_running(before[j]) {
                is_paused_from(before[j], list@[j])
            } else {
                list@[j] == before[j]
            },
            forall|j: int| k <= j < list@.len() ==> list@[j] == before[j],
        decreases list@.len() - k,
    {
        if text_eq(list[k].state.as_str(), "Downloading") || text_eq(list[k].state.as_str(), "Connecting") {
            pause(&mut list[k]);
        }
        k += 1;
    }
}

/// Law: after the list is restored no download is running, and each keeps
/// the parts and counters it had.
pub proof fn lemma_restored_list_is_idle(a: Seq<Download>, b: Seq<Download>)
    requires
        b.len() == a.len(),
        forall|k: int| #![trigger b[k]] 0 <= k < a.len() ==> if is_running(a[k]) {
            is_paused_from(a[k], b[k])
        } else {
            b[k] == a[k]
        },
    ensures
        forall|k: int| 0 <= k < b.len() ==> !is_running(#[trigger] b[k]),
        forall|k: int| 0 <= k < b.len() ==> (#[trigger] b[k]).parts == a[k].parts && b[k].downloaded == a[k].downloaded,
{
    reveal_strlit("Paused");
    reveal_strlit("Downloading");
    reveal_strlit("Connecting");
    assert forall|k: int| 0 <= k < b.len() implies !is_running(#[trigger] b[k]) by {
        if is_running(a[k]) {
            assert(b[k].state@ == st_paused());
            assert(st_paused() != st_downloading());
            assert(st_paused() != st_connecting());
        }
    }
}

/// One more second of downloading for every download in the "Downloading"
/// state. Returns whether there was one (the app then tells the window).
pub fn tick_elapsed(list: &mut Vec<Download>) -> (changed: bool)
    requires
        forall|k: int| 0 <= k < old(list)@.len() && old(list)@[k].state@ == st_downloading()
            ==> #[trigger] old(list)@[k].elapsed < u64::MAX,
    ensures
        final(list)@.len() == old(list)@.len(),
        forall|k: int| 0 <= k < old(list)@.len() ==> #[trigger] final(list)@[k] == (if old(list)@[k].state@ == st_downloading() {
            Download { elapsed: (old(list)@[k].elapsed + 1) as u64, ..old(list)@[k] }
        } else {
            old(list)@[k]
        }),
        changed == (exists|k: int| 0 <= k < old(list)@.len() && old(list)@[k].state@ == st_downloading()),
{
    let ghost before = list@;
    let mut changed = false;
    let mut k: usize = 0;
    while k < list.len()
        invariant
            k <= list@.len(),
            list@.len() == before.len(),
            forall|j: int| 0 <= j < before.len() && before[j].state@ == st_downloading()
                ==> #[trigger] before[j].elapsed < u64::MAX,
            forall|j: int| 0 <= j < k ==> #[trigger] list@[j] == (if before[j].state@ == st_downloading() {
                Download { elapsed: (before[j].elapsed + 1) as u64, ..before[j] } } else { before[j] }),
            forall|j: int| k <= j < list@.len() ==> list@[j] == before[j],
            changed == (exists|j: int| 0 <= j < k && before[j].state@ == st_downloading()),
        decreases list@.len() - k,
    {
        if text_eq(list[k].state.as_str(), "Downloading") {
            let d = &mut list[k];
            d.elapsed = d.elapsed + 1;
            changed = true;
        }
        k += 1;
    }
    changed
}

/// Whether `parts_complete` may be called on `d` (see `completion_checkable`).
pub fn completion_check_ok(d: &Download) -> (r: bool)
    ensures
        r == completion_checkable(*d),
{
    if d.total == 0 {
        return true;
    }
    let mut i: usize = 0;
    while i < d.parts.len()
        invariant
            i <= d.parts@.len(),
            d.total > 0,
            forall|j: int| 0 <= j < i ==> part_complete(#[trigger] d.parts@[j]) && well_sized(d.parts@[j]),
        decreases d.parts@.len() - i,
    {
        let p = d.parts[i];
        if !(p.start <= p.end && p.end - p.start < u64::MAX) {
            assert(!well_sized(d.parts@[i as int]));
            return false;
        }
        if p.downloaded < p.end - p.start + 1 {
            proof {
                assert forall|k: int| 0 <= k < d.parts@.len()
                    && (forall|j: int| 0 <= j < k ==> part_complete(#[trigger] d.parts@[j]))
                    implies well_sized(#[trigger] d.parts@[k]) by {
                    if k > i {
                        assert(!part_complete(d.parts@[i as int]));
                    }
                }
            }
            return true;
        }
        i += 1;
    }
    true
}

/// Whether `tick_elapsed` may be called: no downloading download's time is at `u64::MAX`.
pub fn tick_fits(list: &Vec<Download>) -> (r: bool)
    ensures
        r == (forall|k: int| 0 <= k < list@.len() && list@[k].state@ == st_downloading()
            ==> #[trigger] list@[k].elapsed < u64::MAX),
{
    let mut k: usize = 0;
    while k < list.len()
        invariant
            k <= list@.len(),
            forall|j: int| 0 <= j < k && list@[j].state@ == st_downloading() ==> #[trigger] list@[j].elapsed < u64::MAX,
        decreases list@.len() - k,
    {
        if list[k].elapsed == u64::MAX && text_eq(list[k].state.as_str(), "Downloading") {
            return false;
        }
        k += 1;
    }
    true
}

} // verus!
