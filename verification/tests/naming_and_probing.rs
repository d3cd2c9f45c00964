use jda::probe::{browser_headers, deep_link_target, file_name_from_path, parse_link, url_info,
    url_info_from, HeadReply, ProbeReply};
use jda::utils::{unique_file_name_in_dir, unique_file_path};

fn names(v: &[&str]) -> Vec<String> {
    v.iter().map(|s| s.to_string()).collect()
}

#[test]
fn free_desired_name_is_kept() {
    assert_eq!(unique_file_name_in_dir("a.txt", &vec![], &names(&["b.txt"])), "a.txt");
}

#[test]
fn taken_names_get_numbered() {
    assert_eq!(unique_file_name_in_dir("a.txt", &vec![], &names(&["a.txt"])), "a(1).txt");
    assert_eq!(unique_file_name_in_dir("a.txt", &vec![], &names(&["a.txt", "a(1).txt", "a(2).txt.jdm"])), "a(3).txt");
    assert_eq!(unique_file_name_in_dir("a.txt", &names(&["a.txt", "a(1).txt"]), &vec![]), "a(2).txt");
    assert_eq!(unique_file_name_in_dir("a.txt", &vec![], &names(&["a.txt.jdm"])), "a(1).txt");
}

#[test]
fn numbering_keeps_stem_and_extension() {
    assert_eq!(unique_file_name_in_dir("archive.tar.gz", &vec![], &names(&["archive.tar.gz"])), "archive.tar(1).gz");
    assert_eq!(unique_file_name_in_dir("README", &vec![], &names(&["README"])), "README(1)");
    assert_eq!(unique_file_name_in_dir(".bashrc", &vec![], &names(&[".bashrc"])), ".bashrc(1)");
    assert_eq!(unique_file_name_in_dir("x.", &vec![], &names(&["x."])), "x(1)");
    assert_eq!(unique_file_name_in_dir("sub/x.txt", &names(&["sub/x.txt"]), &vec![]), "x(1).txt");
}

#[test]
fn unique_paths_in_the_parent_folder() {
    assert_eq!(unique_file_path("/d/a.txt", false, &names(&["a.txt"])), "/d/a.txt");
    assert_eq!(unique_file_path("/d/a.txt", true, &names(&["a.txt"])), "/d/a(1).txt");
    assert_eq!(unique_file_path("/d/a.txt", true, &names(&["a.txt", "a(1).txt.jdm"])), "/d/a(1).txt");
    assert_eq!(unique_file_path("a.txt", true, &names(&["a.txt", "a(1).txt"])), "a(2).txt");
}

fn head(success: bool, url: &str, len: Option<&str>, ty: Option<&str>, disp: Option<&str>) -> Option<HeadReply> {
    Some(HeadReply {
        success,
        url: url.to_string(),
        content_length: len.map(|s| s.to_string()),
        content_type: ty.map(|s| s.to_string()),
        content_disposition: disp.map(|s| s.to_string()),
    })
}

fn probe(status: u16, range: Option<Option<&str>>, len: Option<&str>, disp: Option<&str>) -> Option<ProbeReply> {
    Some(ProbeReply {
        status,
        content_range: range.map(|r| r.map(|s| s.to_string())),
        content_length: len.map(|s| s.to_string()),
        content_disposition: disp.map(|s| s.to_string()),
    })
}

#[test]
fn url_info_from_a_full_head_reply() {
    let info = url_info(
        "https://ex.com/get?id=1",
        head(true, "https://cdn.ex.com/files/report.pdf", Some("12345"), Some("application/pdf"), None),
        probe(206, Some(Some("bytes 0-99/99999")), None, None),
    );
    assert_eq!(info.filename, "report.pdf");
    assert!(info.resume_supported);
    assert_eq!(info.size, Some(12345));
}

#[test]
fn url_info_falls_back_to_the_probe() {
    let info = url_info(
        "https://ex.com/dl/data",
        head(false, "https://ex.com/dl/data", Some("5"), Some("application/zip"), None),
        probe(206, Some(Some("bytes 0-12344/12345")), Some("12345"), Some("attachment; filename=\"d.zip\"")),
    );
    assert_eq!(info.filename, "d.zip");
    assert_eq!(info.size, Some(12345));
    let info = url_info("https://ex.com/dl/data", None, probe(200, None, Some("77"), None));
    assert_eq!(info.filename, "data");
    assert!(!info.resume_supported);
    assert_eq!(info.size, Some(77));
    // an unreadable Content-Range hides Content-Length
    let info = url_info("https://ex.com/", None, probe(200, Some(None), Some("77"), None));
    assert_eq!(info.size, None);
    assert_eq!(info.filename, "download");
    let info = url_info("https://ex.com/a", None, None);
    assert_eq!((info.filename.as_str(), info.resume_supported, info.size), ("a", false, None));
}

#[test]
fn url_names_get_the_mime_extension() {
    let info = url_info(
        "https://ex.com/get/photo",
        head(true, "https://ex.com/get/photo", None, Some("image/png"), None),
        None,
    );
    assert_eq!(info.filename, "photo.png");
    let info = url_info_from(
        head(true, "ignored", None, Some("image/png"), None),
        None,
        &Some("/a/b.v2".to_string()),
    );
    assert_eq!(info.filename, "b.v2");
    let info = url_info_from(None, None, &Some("/a/".to_string()));
    assert_eq!(info.filename, "download");
}

#[test]
fn file_names_from_url_paths() {
    assert_eq!(file_name_from_path(&Some("/x/y/z.iso".to_string())), "z.iso");
    assert_eq!(file_name_from_path(&Some("/".to_string())), "download");
    assert_eq!(file_name_from_path(&Some("opaque".to_string())), "download");
    assert_eq!(file_name_from_path(&None), "download");
}

#[test]
fn links_are_normalized_or_refused() {
    assert_eq!(parse_link("HTTPS://Example.com"), Ok("https://example.com/".to_string()));
    assert!(parse_link("no scheme here").is_err());
}

#[test]
fn browser_headers_are_filtered_and_lowercased() {
    let given = vec![
        ("Accept-Language".to_string(), "en".to_string()),
        ("Host".to_string(), "ex.com".to_string()),
        ("X-Empty".to_string(), "".to_string()),
        ("Bad Name".to_string(), "v".to_string()),
        ("X-Bad-Value".to_string(), "a\nb".to_string()),
        ("RANGE".to_string(), "bytes=0-".to_string()),
        ("Sec-Fetch-Mode".to_string(), "navigate".to_string()),
    ];
    let kept = browser_headers(&given);
    assert_eq!(kept, vec![
        ("accept-language".to_string(), "en".to_string()),
        ("sec-fetch-mode".to_string(), "navigate".to_string()),
    ]);
}

#[test]
fn deep_links_carry_the_download_url() {
    assert_eq!(deep_link_target("jda://https://ex.com/f.zip"), Some("https://ex.com/f.zip".to_string()));
    assert_eq!(deep_link_target("jda://ajda://b"), Some("ab".to_string()));
    assert_eq!(deep_link_target("https://ex.com"), None);
    assert_eq!(deep_link_target("--flag"), None);
}
