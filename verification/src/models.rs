//! The data the download manager keeps: downloads, their byte-range parts,
//! the parts that workers are fetching, and what a URL probe learns.
use vstd::prelude::*;

verus! {

/// What probing a URL tells the user before a download is added.
pub struct UrlInfo {
    pub filename: String,
    pub resume_supported: bool,
    pub size: Option<u64>,
}

/// A byte range `start..=end` of the file, of which the first `downloaded`
/// bytes are on disk. A part whose `start` is `u64::MAX` has been given up
/// and merged into its neighbour.
#[derive(Clone, Copy, Debug)]
pub struct Part {
    pub start: u64,
    pub end: u64,
    pub downloaded: u64,
}

/// One download, as the user sees and the app stores it.
#[derive(Clone, Debug)]
pub struct Download {
    pub id: String,
    pub link: String,
    pub name: String,
    pub location: String,
    pub resume: bool,
    pub downloaded: u64,
    pub total: u64,
    pub start_time: Option<u64>,
    pub elapsed: u64,
    pub speed: u64,
    pub state: String,
    pub is_selected: bool,
    pub connections: Vec<u64>,
    pub parts: Vec<Part>,
    pub speeds: Vec<u64>,
    pub cookies: Option<String>,
    pub user_agent: Option<String>,
    pub referer: Option<String>,
    /// The headers the browser sent along, each name once (`unique_header_names`).
    pub headers: Vec<(String, String)>,
}

/// A part that a worker is fetching: where it started, how far it has come,
/// and where it must stop (which another worker may move closer).
#[derive(Clone, Copy)]
pub struct ActivePart {
    pub part_index: usize,
    pub start: u64,
    pub current_pos: u64,
    pub end: u64,
}

/// What the browser extension posts to the local server.
#[derive(Clone, Debug)]
pub struct DownloadPayload {
    pub url: String,
    pub name: String,
    pub size: u64,
    pub resume: String,
    pub cookie: String,
    pub user_agent: String,
    pub referer: String,
    /// Each name once (`unique_header_names`).
    pub headers: Vec<(String, String)>,
}

/// A part marked as given up.
pub open spec fn is_dead(p: Part) -> bool {
    p.start == u64::MAX
}

/// The number of bytes that part `p` spans (`end - start + 1`, at least 1).
pub open spec fn part_size(p: Part) -> int {
    if p.end >= p.start { p.end - p.start + 1 } else { 1 }
}

/// The sum of a sequence of counters.
pub open spec fn seq_sum(s: Seq<u64>) -> int
    decreases s.len(),
{
    if s.len() == 0 {
        0
    } else {
        seq_sum(s.drop_last()) + s.last()
    }
}

/// The sum of the bytes downloaded in each part.
pub open spec fn parts_downloaded(parts: Seq<Part>) -> int
    decreases parts.len(),
{
    if parts.len() == 0 {
        0
    } else {
        parts_downloaded(parts.drop_last()) + parts.last().downloaded
    }
}

/// No header name occurs twice in a header list (as in the map that the
/// browser extension sends, and as the request builders produce them).
pub open spec fn unique_header_names(headers: Seq<(String, String)>) -> bool {
    forall|i: int, j: int| 0 <= i < j < headers.len() ==> (#[trigger] headers[i]).0@ != (#[trigger] headers[j]).0@
}

// The states that the library sets and reads.
pub open spec fn st_connecting() -> Seq<char> { "Connecting"@ }
pub open spec fn st_downloading() -> Seq<char> { "Downloading"@ }
pub open spec fn st_paused() -> Seq<char> { "Paused"@ }
pub open spec fn st_failed() -> Seq<char> { "Failed"@ }
pub open spec fn st_completed() -> Seq<char> { "Completed"@ }
pub open spec fn st_cancelled() -> Seq<char> { "Cancelled"@ }

} // verus!
