use jda::downloads::{add_download, cancel_download, change_link, delete_download, delete_selected,
    find_download, parts_complete, pause_download, pause_interrupted, remove_download, resolve_location,
    resume_download, resume_plan, select_one, temp_file_path, final_file_path, tick_elapsed, toggle_one,
    toggle_select, workers_to_spawn, ResumePlan};
use jda::models::{Download, Part};

fn dl(id: &str, state: &str, selected: bool) -> Download {
    Download {
        id: id.to_string(),
        link: format!("https://example.com/{}", id),
        name: format!("{}.bin", id),
        location: "/data".to_string(),
        resume: true,
        downloaded: 30,
        total: 100,
        start_time: Some(5),
        elapsed: 7,
        speed: 9,
        state: state.to_string(),
        is_selected: selected,
        connections: vec![1, 2],
        parts: vec![Part { start: 0, end: 49, downloaded: 20 }, Part { start: 50, end: 99, downloaded: 10 }],
        speeds: vec![4, 5],
        cookies: None,
        user_agent: None,
        referer: None,
        headers: vec![],
    }
}

fn ids(list: &[Download]) -> Vec<String> {
    list.iter().map(|d| d.id.clone()).collect()
}

#[test]
fn find_download_takes_the_first_match() {
    let list = vec![dl("a", "Paused", false), dl("b", "Paused", false), dl("b", "Failed", false)];
    assert_eq!(find_download(&list, "b"), Some(1));
    assert_eq!(find_download(&list, "z"), None);
}

#[test]
fn pause_and_relink() {
    let mut list = vec![dl("a", "Downloading", false), dl("b", "Downloading", false)];
    pause_download(&mut list, "b");
    assert_eq!(list[1].state, "Paused");
    assert_eq!(list[1].speed, 0);
    assert_eq!(list[1].speeds, vec![0, 0]);
    assert_eq!(list[0].state, "Downloading");
    change_link(&mut list, "a", "https://mirror/a".to_string());
    assert_eq!(list[0].link, "https://mirror/a");
    assert_eq!(list[0].state, "Paused");
    pause_download(&mut list, "missing");
    assert_eq!(list.len(), 2);
}

#[test]
fn cancel_resets_progress_and_names_the_temp_file() {
    let mut list = vec![dl("a", "Downloading", false)];
    let temp = cancel_download(&mut list, "a").unwrap();
    assert_eq!(temp, "/data/a.bin.jdm");
    let d = &list[0];
    assert_eq!(d.state, "Cancelled");
    assert_eq!(d.downloaded, 0);
    assert_eq!(d.connections, vec![0, 0]);
    assert_eq!(d.parts.len(), 1);
    assert_eq!((d.parts[0].start, d.parts[0].end, d.parts[0].downloaded), (0, 99, 0));
    assert_eq!(cancel_download(&mut list, "zzz"), None);
}

#[test]
fn resume_planning() {
    let mut d = dl("a", "Paused", false);
    assert_eq!(workers_to_spawn(&d), 2);
    d.speeds = vec![];
    assert_eq!(workers_to_spawn(&d), 8);
    d.resume = false;
    assert_eq!(workers_to_spawn(&d), 1);
    d.resume = true;
    d.total = 0;
    assert_eq!(workers_to_spawn(&d), 1);
    let mut done = dl("b", "Paused", false);
    assert!(!parts_complete(&done));
    done.parts = vec![Part { start: 0, end: 49, downloaded: 50 }, Part { start: 50, end: 99, downloaded: 60 }];
    assert!(parts_complete(&done));
    done.total = 0;
    assert!(!parts_complete(&done));
}

#[test]
fn resume_marks_the_download_connecting() {
    let mut list = vec![dl("z", "Paused", false), dl("a", "Paused", false)];
    let plan = resume_download(&mut list, "a", 1000);
    assert!(matches!(plan, ResumePlan::Start { index: 1, workers: 2 }));
    let d = &list[1];
    assert_eq!(d.state, "Connecting");
    assert_eq!(d.speeds, vec![0, 0]);
    assert_eq!(d.speed, 0);
    assert_eq!(d.start_time, Some(993));
    assert_eq!(list[0].state, "Paused");
    let mut list = vec![dl("a", "Paused", false)];
    list[0].elapsed = 5000;
    list[0].speeds = vec![];
    assert!(matches!(resume_download(&mut list, "a", 1000), ResumePlan::Start { index: 0, workers: 8 }));
    assert_eq!(list[0].elapsed, 0);
    assert_eq!(list[0].start_time, Some(1000));
    assert_eq!(list[0].speeds, vec![0; 8]);
}

#[test]
fn resuming_an_unknown_download_is_refused() {
    let mut list = vec![dl("a", "Paused", false)];
    assert!(matches!(resume_plan(&list, "b"), ResumePlan::NotFound));
    assert!(matches!(resume_download(&mut list, "b", 1000), ResumePlan::NotFound));
    assert_eq!(list[0].state, "Paused");
    assert_eq!(list[0].speeds, vec![4, 5]);
}

#[test]
fn resuming_a_complete_download_starts_no_worker() {
    let mut list = vec![dl("a", "Paused", false)];
    list[0].parts = vec![Part { start: 0, end: 49, downloaded: 50 }, Part { start: 50, end: 99, downloaded: 50 }];
    assert!(matches!(resume_plan(&list, "a"), ResumePlan::AlreadyComplete { index: 0 }));
    assert!(matches!(resume_download(&mut list, "a", 1000), ResumePlan::AlreadyComplete { index: 0 }));
    assert_eq!(list[0].state, "Paused");
    assert_eq!(list[0].start_time, Some(5));
    // without range support a single worker fetches the file
    let mut list = vec![dl("a", "Paused", false)];
    list[0].resume = false;
    assert!(matches!(resume_plan(&list, "a"), ResumePlan::Start { index: 0, workers: 1 }));
}

#[test]
fn add_download_gives_a_whole_file_part() {
    let mut list = vec![];
    let mut d = dl("a", "Connecting", false);
    d.parts = vec![];
    d.location = "/abs".to_string();
    assert_eq!(add_download(&mut list, d, &None), Some("/abs/a.bin.jdm".to_string()));
    assert_eq!(list[0].parts.len(), 1);
    assert_eq!(list[0].parts[0].end, 99);
    let mut u = dl("u", "Connecting", false);
    u.parts = vec![];
    u.total = 0;
    assert_eq!(add_download(&mut list, u, &None), None);
    assert_eq!(list[1].parts[0].end, 0);
    let mut k = dl("k", "Paused", false);
    k.resume = false;
    assert_eq!(add_download(&mut list, k, &None), None);
    assert_eq!(list[2].parts.len(), 2);
}

#[test]
fn added_downloads_land_in_the_download_folder() {
    let dir = Some("/home/u/Downloads".to_string());
    let mut list = vec![];
    let mut d = dl("a", "Connecting", false);
    d.location = "Downloads".to_string();
    assert_eq!(add_download(&mut list, d, &dir), Some("/home/u/Downloads/a.bin.jdm".to_string()));
    assert_eq!(list[0].location, "/home/u/Downloads");
    let mut m = dl("m", "Connecting", false);
    m.location = "music".to_string();
    add_download(&mut list, m, &dir);
    assert_eq!(list[1].location, "/home/u/Downloads/music");
    let mut r = dl("r", "Connecting", false);
    r.location = "rel".to_string();
    add_download(&mut list, r, &None);
    assert_eq!(list[2].location, "rel");
}

#[test]
fn locations_resolve_inside_the_download_folder() {
    let dir = Some("/home/u/Downloads".to_string());
    assert_eq!(resolve_location("Downloads", &dir), "/home/u/Downloads");
    assert_eq!(resolve_location("music", &dir), "/home/u/Downloads/music");
    assert_eq!(resolve_location("/abs/path", &dir), "/abs/path");
    assert_eq!(resolve_location("music", &None), "music");
}

#[test]
fn file_paths_of_a_download() {
    let d = dl("a", "Paused", false);
    assert_eq!(temp_file_path(&d), "/data/a.bin.jdm");
    assert_eq!(final_file_path(&d), "/data/a.bin");
}

#[test]
fn toggle_select_selects_or_clears_a_tab() {
    let mut list = vec![dl("a", "Paused", false), dl("b", "Failed", false), dl("c", "Paused", false)];
    toggle_select(&mut list, "Paused");
    assert_eq!(list.iter().map(|d| d.is_selected).collect::<Vec<_>>(), vec![true, false, true]);
    toggle_select(&mut list, "All");
    assert!(list.iter().all(|d| !d.is_selected));
    toggle_select(&mut list, "All");
    assert!(list.iter().all(|d| d.is_selected));
}

#[test]
fn toggle_one_and_select_one() {
    let mut list = vec![dl("a", "Paused", true), dl("b", "Paused", false)];
    toggle_one(&mut list, "b");
    assert!(list[1].is_selected);
    toggle_one(&mut list, "b");
    assert!(!list[1].is_selected);
    select_one(&mut list, "b");
    assert_eq!((list[0].is_selected, list[1].is_selected), (false, true));
    select_one(&mut list, "b");
    assert_eq!((list[0].is_selected, list[1].is_selected), (false, false));
}

#[test]
fn deleting_downloads() {
    let mut list = vec![dl("a", "Paused", true), dl("b", "Paused", false), dl("c", "Paused", true)];
    let removed = delete_selected(&mut list);
    assert_eq!(ids(&removed), vec!["a", "c"]);
    assert_eq!(ids(&list), vec!["b"]);
    let mut list = vec![dl("a", "Paused", false), dl("b", "Paused", false), dl("a", "Failed", false)];
    let files = delete_download(&mut list, "a").unwrap();
    assert_eq!(files, ("/data/a.bin.jdm".to_string(), "/data/a.bin".to_string()));
    assert_eq!(ids(&list), vec!["b"]);
    assert_eq!(delete_download(&mut list, "a"), None);
    remove_download(&mut list, "b");
    assert!(list.is_empty());
}

#[test]
fn restored_downloads_come_back_paused() {
    let mut list = vec![dl("a", "Downloading", false), dl("b", "Connecting", false), dl("c", "Completed", false)];
    pause_interrupted(&mut list);
    assert_eq!(list[0].state, "Paused");
    assert_eq!(list[0].speeds, vec![0, 0]);
    assert_eq!(list[1].state, "Paused");
    assert_eq!(list[2].state, "Completed");
    assert_eq!(list[2].speed, 9);
}

#[test]
fn ticking_counts_downloading_time() {
    let mut list = vec![dl("a", "Downloading", false), dl("b", "Paused", false)];
    assert!(tick_elapsed(&mut list));
    assert_eq!((list[0].elapsed, list[1].elapsed), (8, 7));
    let mut idle = vec![dl("b", "Paused", false)];
    assert!(!tick_elapsed(&mut idle));
}

#[test]
fn pausing_and_resuming_keeps_what_was_fetched() {
    let mut list = vec![dl("a", "Downloading", false), dl("b", "Downloading", false)];
    let before = list.clone();
    pause_download(&mut list, "a");
    resume_download(&mut list, "a", 500);
    assert_eq!(list[0].state, "Connecting");
    assert_eq!(list[0].speeds, vec![0, 0]);
    assert_eq!(list[0].downloaded, before[0].downloaded);
    assert_eq!(list[0].parts.len(), before[0].parts.len());
    for (p, q) in list[0].parts.iter().zip(before[0].parts.iter()) {
        assert_eq!((p.start, p.end, p.downloaded), (q.start, q.end, q.downloaded));
    }
    assert_eq!(list[0].link, before[0].link);
    assert_eq!(list[1].state, "Downloading");
    assert_eq!(list[1].speeds, before[1].speeds);
}

#[test]
fn pausing_twice_is_pausing_once() {
    let mut once = vec![dl("a", "Downloading", false), dl("b", "Downloading", false)];
    pause_download(&mut once, "a");
    let mut twice = once.clone();
    pause_download(&mut twice, "a");
    for (x, y) in once.iter().zip(twice.iter()) {
        assert_eq!((&x.state, x.speed, &x.speeds, x.downloaded), (&y.state, y.speed, &y.speeds, y.downloaded));
    }
}
