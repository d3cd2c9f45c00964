use jda::downloads::{completion_check_ok, parts_complete, resume_check_ok, tick_elapsed, tick_fits};
use jda::models::{ActivePart, Download, Part};
use jda::probe::{final_url, HeadReply};
use jda::scheduler::can_schedule;
use jda::transfer::{checked_sum, chunk_fits, progress_fits, speed_fits, sum_downloaded, sum_u64, zero_speeds};
use jda::utils::{first_free_numbered_name, split_file_name, temp_file_name};

fn download(state: &str, total: u64, parts: Vec<Part>, elapsed: u64) -> Download {
    Download {
        id: "g".to_string(),
        link: "https://example.com/f.bin".to_string(),
        name: "f.bin".to_string(),
        location: "/d".to_string(),
        resume: true,
        downloaded: 0,
        total,
        start_time: None,
        elapsed,
        speed: 0,
        state: state.to_string(),
        is_selected: false,
        connections: vec![],
        parts,
        speeds: vec![],
        cookies: None,
        user_agent: None,
        referer: None,
        headers: vec![],
    }
}

#[test]
fn scheduling_needs_sized_parts_and_a_known_victim() {
    let total: u64 = 100 * 1024 * 1024;
    let stray = |part_index: usize| ActivePart { part_index, start: 0, current_pos: 0, end: total - 1 };
    // a free part is taken: an entry naming no part does not matter
    let d = download("Downloading", total, vec![Part { start: 0, end: total - 1, downloaded: 0 }], 0);
    assert!(can_schedule(&d, &vec![stray(1)]));
    // nothing is free: the entry to split must name a part
    let full = download("Downloading", total, vec![Part { start: 0, end: total - 1, downloaded: total }], 0);
    assert!(!can_schedule(&full, &vec![stray(1)]));
    assert!(can_schedule(&full, &vec![stray(0)]));
    // a part spanning every byte value has no size
    let whole = download("Downloading", 10, vec![Part { start: 0, end: u64::MAX, downloaded: 0 }], 0);
    assert!(!can_schedule(&whole, &vec![]));
    // a dead part is never sized
    let dead = download("Downloading", 10, vec![Part { start: u64::MAX, end: u64::MAX, downloaded: 0 }], 0);
    assert!(can_schedule(&dead, &vec![]));
    // a download of unknown size is always schedulable
    let open = download("Downloading", 0, vec![Part { start: 0, end: u64::MAX, downloaded: 0 }], 0);
    assert!(can_schedule(&open, &vec![stray(7)]));
}

#[test]
fn counters_are_summed_only_when_they_fit() {
    assert_eq!(checked_sum(&vec![1, 2, 3]), Some(6));
    assert_eq!(checked_sum(&vec![]), Some(0));
    assert_eq!(checked_sum(&vec![u64::MAX, 1]), None);
    assert_eq!(sum_u64(&vec![4, 5]), 9);
    let parts = vec![Part { start: 0, end: 9, downloaded: 4 }, Part { start: 10, end: 19, downloaded: 6 }];
    assert_eq!(sum_downloaded(&parts), 10);
}

#[test]
fn speed_reports_that_would_overflow_are_caught() {
    assert!(speed_fits(&vec![1, 2], 0, 100));
    assert!(!speed_fits(&vec![1, u64::MAX - 1], 0, 2));
    // the old speed of the worker is replaced, not added to
    assert!(speed_fits(&vec![5, u64::MAX - 5], 0, 5));
    // a worker without a slot changes nothing
    assert!(speed_fits(&vec![1, 2], 7, u64::MAX));
}

#[test]
fn progress_that_would_overflow_is_caught() {
    let parts = vec![Part { start: 0, end: 9, downloaded: 4 }, Part { start: 10, end: 19, downloaded: 6 }];
    assert!(progress_fits(&parts, 0, 100));
    assert!(!progress_fits(&parts, 0, u64::MAX - 3));
    assert!(!progress_fits(&parts, 1, u64::MAX - 9));
    assert!(progress_fits(&parts, 5, u64::MAX));
}

#[test]
fn chunks_that_cannot_be_cut_are_caught() {
    assert!(chunk_fits(10, 10, 14));
    assert!(chunk_fits(15, 3, 14));
    assert!(!chunk_fits(16, 3, 14));
    assert!(!chunk_fits(0, 0, 0));
    assert!(!chunk_fits(u64::MAX, 1, 0));
}

#[test]
fn completion_is_checked_on_well_sized_parts() {
    let done = download("Paused", 20, vec![Part { start: 0, end: 9, downloaded: 10 }, Part { start: 10, end: 19, downloaded: 10 }], 0);
    assert!(completion_check_ok(&done));
    assert!(parts_complete(&done));
    let bad = download("Paused", 20, vec![Part { start: 5, end: 4, downloaded: 0 }], 0);
    assert!(!completion_check_ok(&bad));
    // a download of unknown size is never checked, and never complete
    let no_size = download("Paused", 0, vec![Part { start: 5, end: 4, downloaded: 0 }], 0);
    assert!(completion_check_ok(&no_size));
    assert!(!parts_complete(&no_size));
    // checking stops at the first incomplete part
    let partial = download("Paused", 20, vec![Part { start: 0, end: 9, downloaded: 3 }, Part { start: 5, end: 4, downloaded: 0 }], 0);
    assert!(completion_check_ok(&partial));
    assert!(!parts_complete(&partial));
}

#[test]
fn ticking_is_guarded_against_overflow() {
    let mut list = vec![download("Downloading", 10, vec![], u64::MAX)];
    assert!(!tick_fits(&list));
    list[0].state = "Paused".to_string();
    assert!(tick_fits(&list));
    assert!(!tick_elapsed(&mut list));
    assert_eq!(list[0].elapsed, u64::MAX);
}

#[test]
fn speeds_are_zeroed_in_place() {
    let mut v = vec![3, 4, 5];
    zero_speeds(&mut v);
    assert_eq!(v, vec![0, 0, 0]);
}

#[test]
fn file_names_split_into_stem_and_extension() {
    let chars = |s: &str| s.chars().collect::<Vec<char>>();
    let text = |v: &[char]| v.iter().collect::<String>();
    let (stem, ext) = split_file_name(&chars("a.tar.gz"));
    assert_eq!(text(&stem), "a.tar");
    assert_eq!(ext.map(|e| text(&e)), Some("gz".to_string()));
    let (stem, ext) = split_file_name(&chars(".profile"));
    assert_eq!(text(&stem), ".profile");
    assert_eq!(ext, None);
    assert_eq!(temp_file_name("a.bin"), "a.bin.jdm");
}

#[test]
fn numbered_names_skip_what_is_taken() {
    let occupied = vec!["a(1).zip".to_string()];
    let reserved = vec!["a(2).zip".to_string()];
    assert_eq!(first_free_numbered_name(&Some("a.zip".to_string()), &occupied, &reserved, false), "a(3).zip");
    assert_eq!(first_free_numbered_name(&None, &vec![], &vec![], false), "download(1)");
    let occupied = vec!["a(1).zip.jdm".to_string()];
    assert_eq!(first_free_numbered_name(&Some("a.zip".to_string()), &occupied, &vec![], true), "a(2).zip");
    assert_eq!(first_free_numbered_name(&Some("a.zip".to_string()), &occupied, &vec![], false), "a(1).zip");
}

#[test]
fn the_final_url_follows_a_successful_head() {
    let head = |success: bool, url: &str| Some(HeadReply {
        success,
        url: url.to_string(),
        content_length: None,
        content_type: None,
        content_disposition: None,
    });
    assert_eq!(final_url("https://a.com/x", &head(true, "https://b.com/y")), "https://b.com/y");
    assert_eq!(final_url("https://a.com/x", &head(true, "HTTPS://B.com")), "https://b.com/");
    assert_eq!(final_url("https://a.com/x", &head(false, "https://b.com/y")), "https://a.com/x");
    assert_eq!(final_url("https://a.com/x", &head(true, "not a url")), "https://a.com/x");
    assert_eq!(final_url("https://a.com/x", &None), "https://a.com/x");
}

#[test]
fn resuming_is_checked_on_the_found_download() {
    let mut bad = download("Paused", 20, vec![Part { start: 5, end: 4, downloaded: 0 }], 0);
    bad.id = "bad".to_string();
    let good = download("Paused", 20, vec![Part { start: 0, end: 19, downloaded: 0 }], 0);
    let list = vec![good, bad];
    assert!(resume_check_ok(&list, "g"));
    assert!(!resume_check_ok(&list, "bad"));
    assert!(resume_check_ok(&list, "missing"));
}
