use jda::transfer::{classify_reply, is_redirection};
use jda::models::{Download, Part};
use jda::transfer::{begin_transfer, chrome_version, clamp_chunk, fail_download, finish_download,
    head_request, part_request, probe_request, range_header, recover, redirect_target, sec_ch_ua,
    spend_retry, stream_complete, Recovery, Setback, MAX_RETRIES};

fn with_state(state: &str, total: u64, downloaded: u64) -> Download {
    Download {
        id: "x".to_string(),
        link: String::new(),
        name: "n".to_string(),
        location: "/d".to_string(),
        resume: true,
        downloaded,
        total,
        start_time: None,
        elapsed: 0,
        speed: 5,
        state: state.to_string(),
        is_selected: false,
        connections: vec![],
        parts: vec![Part { start: 0, end: 9, downloaded }],
        speeds: vec![2, 3],
        cookies: None,
        user_agent: None,
        referer: None,
        headers: vec![],
    }
}

#[test]
fn range_header_formats() {
    assert_eq!(range_header(0, 0), "bytes=0-");
    assert_eq!(range_header(100, 199), "bytes=100-199");
    assert_eq!(range_header(5, 0), "bytes=5-");
}

#[test]
fn chrome_version_extraction() {
    let ua = "Mozilla/5.0 (Windows NT 10.0) AppleWebKit/537.36 Chrome/131.0.0.0 Safari/537.36";
    assert_eq!(chrome_version(ua), "131");
    assert_eq!(chrome_version("Firefox/120"), "120");
    assert_eq!(chrome_version("Chrome/99"), "120");
    assert_eq!(sec_ch_ua("131"), "\"Google Chrome\";v=\"131\", \"Chromium\";v=\"131\", \"Not?A_Brand\";v=\"24\"");
}

#[test]
fn part_request_headers_in_order() {
    let h = part_request("bytes=0-9", &Some("a=b".to_string()), &Some("X Chrome/100.1".to_string()), &Some("https://r/".to_string()));
    let names: Vec<&str> = h.iter().map(|p| p.0.as_str()).collect();
    assert_eq!(names, vec!["range", "cookie", "user-agent", "sec-ch-ua", "sec-ch-ua-mobile", "sec-ch-ua-platform", "referer"]);
    assert_eq!(h[3].1, "\"Google Chrome\";v=\"100\", \"Chromium\";v=\"100\", \"Not?A_Brand\";v=\"24\"");
    // an invalid referer is left out
    let h = part_request("bytes=0-", &None, &None, &Some("bad\nvalue".to_string()));
    assert_eq!(h.len(), 1);
    // the probe keeps the referer as it is
    let p = probe_request(&None, &None, &Some("bad\nvalue".to_string()));
    assert_eq!(p.len(), 2);
    assert_eq!(p[0], ("range".to_string(), "bytes=0-".to_string()));
    let hd = head_request(&Some("c".to_string()), &None);
    assert_eq!(hd, vec![("cookie".to_string(), "c".to_string())]);
}

#[test]
fn chunks_are_cut_at_the_range_end() {
    assert_eq!(clamp_chunk(10, 10, 14), (5, true));
    assert_eq!(clamp_chunk(10, 5, 14), (5, false));
    assert_eq!(clamp_chunk(10, 100, 0), (100, false));
}

#[test]
fn setbacks_of_a_fresh_worker_give_the_part_back() {
    let mut r = 0;
    assert!(matches!(recover(Setback::SendFailed, 0, false, &mut r), Recovery::Abandon));
    assert!(matches!(recover(Setback::BadStatus, 0, false, &mut r), Recovery::Abandon));
    assert_eq!(r, 0);
    assert!(matches!(recover(Setback::RangeIgnored, 0, false, &mut r), Recovery::Retry));
    assert_eq!(r, 1);
}

#[test]
fn setbacks_are_retried_until_the_budget_is_spent() {
    let mut r = 0;
    assert!(matches!(recover(Setback::SendFailed, 1, false, &mut r), Recovery::Retry));
    assert!(matches!(recover(Setback::StreamCut, 0, true, &mut r), Recovery::Retry));
    assert_eq!(r, 2);
    let mut r = MAX_RETRIES;
    assert!(matches!(recover(Setback::StreamCut, 3, true, &mut r), Recovery::GiveUp));
    assert_eq!(r, MAX_RETRIES);
    assert!(!spend_retry(&mut r));
    let mut r = 4;
    assert!(spend_retry(&mut r));
    assert_eq!(r, 5);
}

#[test]
fn stream_completion() {
    assert!(stream_complete(10, 9));
    assert!(!stream_complete(9, 9));
    assert!(stream_complete(5, 0));
}

#[test]
fn states_follow_the_workers() {
    let mut d = with_state("Connecting", 10, 0);
    begin_transfer(&mut d);
    assert_eq!(d.state, "Downloading");
    begin_transfer(&mut d);
    assert_eq!(d.state, "Downloading");
    assert!(fail_download(&mut d));
    assert_eq!(d.state, "Failed");
    let mut p = with_state("Paused", 10, 0);
    assert!(!fail_download(&mut p));
    assert_eq!(p.state, "Paused");
}

#[test]
fn last_worker_completes_or_fails_the_download() {
    let mut d = with_state("Downloading", 10, 10);
    assert!(finish_download(&mut d));
    assert_eq!(d.state, "Completed");
    assert_eq!(d.speed, 0);
    assert_eq!(d.speeds, vec![0, 0]);
    let mut d = with_state("Downloading", 10, 9);
    assert!(!finish_download(&mut d));
    assert_eq!(d.state, "Failed");
    let mut d = with_state("Paused", 10, 10);
    assert!(!finish_download(&mut d));
    assert_eq!(d.state, "Paused");
    let mut d = with_state("Connecting", 0, 0);
    assert!(finish_download(&mut d));
    assert_eq!(d.state, "Completed");
}

#[test]
fn redirects_resolve_against_the_current_url() {
    assert_eq!(redirect_target("https://a.com/x/y", "https://b.org/z"), Some("https://b.org/z".to_string()));
    assert_eq!(redirect_target("https://a.com/x/y", "/files/f.zip"), Some("https://a.com/files/f.zip".to_string()));
    assert_eq!(redirect_target("https://a.com/x/y", "f.zip"), Some("https://a.com/x/f.zip".to_string()));
    assert_eq!(redirect_target("not a url", "also not"), None);
}

#[test]
fn replies_are_classified_by_status_and_position() {
    assert!(classify_reply(206, 500).is_none());
    assert!(classify_reply(200, 0).is_none());
    assert!(matches!(classify_reply(200, 500), Some(Setback::RangeIgnored)));
    assert!(matches!(classify_reply(204, 1), Some(Setback::RangeIgnored)));
    assert!(matches!(classify_reply(403, 0), Some(Setback::BadStatus)));
    assert!(matches!(classify_reply(302, 10), Some(Setback::BadStatus)));
    assert!(matches!(classify_reply(500, 0), Some(Setback::BadStatus)));
    assert!(is_redirection(301));
    assert!(is_redirection(399));
    assert!(!is_redirection(200));
    assert!(!is_redirection(400));
}
