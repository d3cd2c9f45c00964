use jda::text::{parse_u64, u64_to_decimal, chars_of, text_eq, trim_chars, lower_ascii_chars, Trim};
use jda::utils::{extension_from_mime, parse_filename, extended_filename, plain_filename};

#[test]
fn parse_u64_accepts_plain_and_plus_numbers() {
    assert_eq!(parse_u64("12345"), Some(12345));
    assert_eq!(parse_u64("+7"), Some(7));
    assert_eq!(parse_u64("0"), Some(0));
    assert_eq!(parse_u64("18446744073709551615"), Some(u64::MAX));
}

#[test]
fn parse_u64_rejects_what_str_parse_rejects() {
    assert_eq!(parse_u64(""), None);
    assert_eq!(parse_u64("+"), None);
    assert_eq!(parse_u64("-1"), None);
    assert_eq!(parse_u64("12a"), None);
    assert_eq!(parse_u64(" 12"), None);
    assert_eq!(parse_u64("18446744073709551616"), None);
    for s in ["", "+", "-1", "12a", " 12", "18446744073709551616", "007", "+0"] {
        assert_eq!(parse_u64(s), s.parse::<u64>().ok(), "{}", s);
    }
}

#[test]
fn decimal_roundtrip_on_samples() {
    for n in [0u64, 1, 9, 10, 99, 100, 12345, u64::MAX] {
        let s = u64_to_decimal(n);
        assert_eq!(s, n.to_string());
        assert_eq!(parse_u64(&s), Some(n));
    }
}

#[test]
fn text_helpers() {
    assert!(text_eq("abc", "abc"));
    assert!(!text_eq("abc", "abd"));
    let t = trim_chars(&chars_of("  \t x y \n"), Trim::Whitespace);
    assert_eq!(t.iter().collect::<String>(), "x y");
    let q = trim_chars(&chars_of("\"\"a\"b\""), Trim::Quote);
    assert_eq!(q.iter().collect::<String>(), "a\"b");
    let l = lower_ascii_chars(&chars_of("Content-TYPE É"));
    assert_eq!(l.iter().collect::<String>(), "content-type É");
}

#[test]
fn extension_from_mime_known_types() {
    assert_eq!(extension_from_mime("application/pdf"), ".pdf");
    assert_eq!(extension_from_mime("application/zip"), ".zip");
    assert_eq!(extension_from_mime("application/x-rar-compressed"), ".rar");
    assert_eq!(extension_from_mime("application/json"), ".json");
    assert_eq!(extension_from_mime("text/html"), ".html");
    assert_eq!(extension_from_mime("text/plain"), ".txt");
    assert_eq!(extension_from_mime("image/jpeg"), ".jpg");
    assert_eq!(extension_from_mime("image/png"), ".png");
    assert_eq!(extension_from_mime("video/mp4"), ".mp4");
    assert_eq!(extension_from_mime("audio/mpeg"), ".mp3");
    assert_eq!(extension_from_mime("application/octet-stream"), ".bin");
    assert_eq!(extension_from_mime("application/x-msdownload"), ".exe");
}

#[test]
fn extension_from_mime_unknown_or_parameterized() {
    assert_eq!(extension_from_mime("text/html; charset=utf-8"), "");
    assert_eq!(extension_from_mime("IMAGE/PNG"), "");
    assert_eq!(extension_from_mime(""), "");
}

#[test]
fn parse_filename_plain() {
    assert_eq!(parse_filename("attachment; filename=report.pdf"), Some("report.pdf".to_string()));
    assert_eq!(parse_filename("attachment; filename=\"my file.zip\""), Some("my file.zip".to_string()));
    assert_eq!(parse_filename("attachment;   filename=a.txt  ; size=3"), Some("a.txt".to_string()));
    assert_eq!(parse_filename("inline"), None);
    assert_eq!(parse_filename(""), None);
}

#[test]
fn parse_filename_prefers_decoded_extended_name() {
    assert_eq!(
        parse_filename("attachment; filename=\"fallback.txt\"; filename*=UTF-8''na%C3%AFve%20file.txt"),
        Some("naïve file.txt".to_string())
    );
    assert_eq!(parse_filename("attachment; filename*=UTF-8''a%20b.txt"), Some("a b.txt".to_string()));
}

#[test]
fn parse_filename_falls_back_when_extended_name_is_unusable() {
    // no '' separator: the extended form is ignored
    assert_eq!(parse_filename("attachment; filename*=plain.txt; filename=b.txt"), Some("b.txt".to_string()));
    // decodes to invalid UTF-8: falls back to filename=
    assert_eq!(parse_filename("attachment; filename*=UTF-8''%FF; filename=c.txt"), Some("c.txt".to_string()));
    assert_eq!(parse_filename("attachment; filename*=UTF-8''%FF"), None);
}

#[test]
fn extended_and_plain_filename_parts() {
    assert_eq!(extended_filename("a; filename*=UTF-8''x%20y''z"), Some("x%20y".to_string()));
    assert_eq!(extended_filename("a; filename=x"), None);
    assert_eq!(plain_filename("a; filename=\"q\""), Some("q".to_string()));
    assert_eq!(plain_filename("a; filename*=UTF-8''q"), None);
}
