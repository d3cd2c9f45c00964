//! What the app learns about a link before downloading it, the browser
//! headers it forwards, and the links that reach it through `jda://`.
use vstd::prelude::*;
use vstd::string::StringSliceAdditionalSpecFns;
use crate::models::UrlInfo;
use crate::text::{chars_of, string_of, owned, parse_u64, parse_u64_spec, contains_char, find_sub,
    find_sub_in, has_prefix, starts_with, slice_chars, lower_ascii_chars, lower_ascii_seq, occurs_at,
    is_first_occurrence};
use crate::utils::{parse_filename, filename_of, extension_from_mime, mime_extension, rfind_char,
    opt_chars, listed, texts};
use crate::outside::{url_parse, url_parsed, url_path, url_path_of, header_name_accepted,
    header_value_accepted, valid_header_name, valid_header_value};
use crate::transfer::opt_text;

verus! {

// ---------------------------------------------------------------------------
// Links
// ---------------------------------------------------------------------------

/// Checks a link the user typed: its normalized form, or why it is not a URL.
pub fn parse_link(url: &str) -> (r: Result<String, String>)
    ensures
        r matches Ok(u) ==> url_parsed(url@) matches Ok(v) && v == u@,
        r matches Err(e) ==> url_parsed(url@) matches Err(v) && v == e@,
{
    url_parse(url)
}

/// What the `HEAD` request answered: whether the status was a success, the
/// URL it ended at, and the headers (absent when not visible ASCII).
pub struct HeadReply {
    pub success: bool,
    pub url: String,
    pub content_length: Option<String>,
    pub content_type: Option<String>,
    pub content_disposition: Option<String>,
}

/// What the ranged `GET` probe answered: its status and headers. The outer
/// `Option` of `content_range` tells whether the header was there, the inner
/// one whether it was visible ASCII.
pub struct ProbeReply {
    pub status: u16,
    pub content_range: Option<Option<String>>,
    pub content_length: Option<String>,
    pub content_disposition: Option<String>,
}

/// What follows the last `c` in `s` (all of `s` when there is none).
pub open spec fn after_last(s: Seq<char>, c: char) -> Seq<char> {
    match rfind_char(s, c) {
        Some(i) => s.skip(i + 1),
        None => s,
    }
}

/// The last segment of a URL path, when the path has segments and the last
/// one is non-empty; "download" otherwise.
pub open spec fn path_file_name(path: Option<Seq<char>>) -> Seq<char> {
    match path {
        Some(p) => if p.len() > 0 && p[0] == '/' && after_last(p, '/').len() > 0 {
            after_last(p, '/')
        } else {
            "download"@
        },
        None => "download"@,
    }
}

/// A file name taken from a URL gets the extension of its MIME type when it
/// has no `.` and the type is one the app knows.
pub open spec fn with_type_extension(name: Seq<char>, content_type: Option<Seq<char>>) -> Seq<char> {
    match content_type {
        Some(t) => if !name.contains('.') && mime_extension(t).len() > 0 { name + mime_extension(t) } else { name },
        None => name,
    }
}

pub open spec fn parse_opt_u64(s: Option<Seq<char>>) -> Option<u64> {
    match s {
        Some(t) => parse_u64_spec(t),
        None => None,
    }
}

pub open spec fn filename_opt(s: Option<Seq<char>>) -> Option<Seq<char>> {
    match s {
        Some(t) => filename_of(t),
        None => None,
    }
}

/// A successful `HEAD` reply.
pub open spec fn head_ok(head: Option<HeadReply>) -> bool {
    head matches Some(h) && h.success
}

/// The size the probe tells: the total after the `/` of `Content-Range`,
/// else (without that header) `Content-Length`.
pub open spec fn probe_size(p: ProbeReply) -> Option<u64> {
    match p.content_range {
        Some(Some(cr)) => parse_u64_spec(after_last(cr@, '/')),
        Some(None) => None,
        None => parse_opt_u64(opt_text(p.content_length)),
    }
}

/// What probing a link tells: whether ranges work (the probe got 206), the
/// size (from a successful `HEAD`, else from the probe) and the file name
/// (from `Content-Disposition`, else from the URL the `HEAD` ended at,
/// completed by the MIME type's extension).
pub open spec fn url_info_of(requested: Seq<char>, head: Option<HeadReply>, probe: Option<ProbeReply>)
    -> (Seq<char>, bool, Option<u64>)
{
    url_info_from_path(head, probe, url_path_of(final_url_of(requested, head)))
}

/// The URL a probe ended at: where a successful `HEAD` was redirected to,
/// else the requested one.
pub open spec fn final_url_of(requested: Seq<char>, head: Option<HeadReply>) -> Seq<char> {
    if head_ok(head) {
        match url_parsed(head.unwrap().url@) {
            Ok(u) => u,
            Err(_) => requested,
        }
    } else {
        requested
    }
}

/// What probing tells, given the path of the URL the probe ended at.
pub open spec fn url_info_from_path(head: Option<HeadReply>, probe: Option<ProbeReply>, final_path: Option<Seq<char>>)
    -> (Seq<char>, bool, Option<u64>)
{
    let head_size = if head_ok(head) { parse_opt_u64(opt_text(head.unwrap().content_length)) } else { None };
    let content_type = if head_ok(head) { opt_text(head.unwrap().content_type) } else { None };
    let head_name = if head_ok(head) { filename_opt(opt_text(head.unwrap().content_disposition)) } else { None };
    let size = if head_size is None && probe is Some { probe_size(probe.unwrap()) } else { head_size };
    let name = if head_name is None && head_size is None && probe is Some {
        filename_opt(opt_text(probe.unwrap().content_disposition))
    } else {
        head_name
    };
    let resume = probe matches Some(p) && p.status == 206;
    let file_name = match name {
        Some(n) => n,
        None => with_type_extension(path_file_name(final_path), content_type),
    };
    (file_name, resume, size)
}

/// Law: a successful `HEAD` whose `Content-Length` parses gives the size.
pub proof fn lemma_size_from_head(head: Option<HeadReply>, probe: Option<ProbeReply>, final_path: Option<Seq<char>>,
    n: u64)
    requires
        match head {
            Some(h) => h.success && match h.content_length { Some(c) => parse_u64_spec(c@) == Some(n), None => false },
            None => false,
        },
    ensures
        url_info_from_path(head, probe, final_path).2 == Some(n),
{
}

/// Law: when the `HEAD` gives no size (it failed, is missing, or has no
/// `Content-Length` that parses), the total in the probe's `Content-Range`
/// (`bytes a-b/n`: the text after its last `/`) gives the size.
pub proof fn lemma_size_from_content_range(head: Option<HeadReply>, probe: Option<ProbeReply>,
    final_path: Option<Seq<char>>, pre: Seq<char>, total: Seq<char>, n: u64)
    requires
        match head {
            Some(h) => !h.success || match h.content_length { Some(c) => parse_u64_spec(c@) is None, None => true },
            None => true,
        },
        match probe {
            Some(p) => match p.content_range { Some(Some(cr)) => cr@ == pre + seq!['/'] + total, _ => false },
            None => false,
        },
        !total.contains('/'),
        parse_u64_spec(total) == Some(n),
    ensures
        url_info_from_path(head, probe, final_path).2 == Some(n),
{
    let cr = probe.unwrap().content_range.unwrap().unwrap()@;
    let k = pre.len() as int;
    assert(cr[k] == '/');
    assert forall|j: int| k < j < cr.len() implies cr[j] != '/' by {
        assert(cr[j] == total[j - k - 1]);
    }
    assert(crate::utils::is_last_char(cr, '/', k));
    let c = choose|i: int| crate::utils::is_last_char(cr, '/', i);
    assert(crate::utils::is_last_char(cr, '/', c));
    if c < k {
        assert(cr[k] == '/');
    } else if k < c {
        assert(cr[c] == '/');
    }
    assert(rfind_char(cr, '/') == Some(k));
    assert(cr.skip(k + 1) =~= total);
    assert(after_last(cr, '/') == total);
}

/// Law: range support is reported exactly when the probe got `206 Partial Content`.
pub proof fn lemma_resume_means_partial_content(head: Option<HeadReply>, probe: Option<ProbeReply>,
    final_path: Option<Seq<char>>)
    ensures
        url_info_from_path(head, probe, final_path).1 == (probe matches Some(p) && p.status == 206),
{
}

/// Law: a file name from a successful `HEAD`'s `Content-Disposition` is
/// used as it is; without it, and without a `HEAD` size, one from the
/// probe's `Content-Disposition` is.
pub proof fn lemma_name_from_disposition(head: Option<HeadReply>, probe: Option<ProbeReply>,
    final_path: Option<Seq<char>>, name: Seq<char>)
    ensures
        (match head {
            Some(h) => h.success && match h.content_disposition { Some(cd) => filename_of(cd@) == Some(name), None => false },
            None => false,
        }) ==> url_info_from_path(head, probe, final_path).0 == name,
        (match head {
            Some(h) => !h.success || (
                (match h.content_length { Some(c) => parse_u64_spec(c@) is None, None => true })
                && (match h.content_disposition { Some(cd) => filename_of(cd@) is None, None => true })),
            None => true,
        }) && (match probe {
            Some(p) => match p.content_disposition { Some(pd) => filename_of(pd@) == Some(name), None => false },
            None => false,
        }) ==> url_info_from_path(head, probe, final_path).0 == name,
{
}

fn parse_opt(s: &Option<String>) -> (r: Option<u64>)
    ensures
        r == parse_opt_u64(opt_text(*s)),
{
    match s {
        Some(t) => parse_u64(t.as_str()),
        None => None,
    }
}

fn filename_from(s: &Option<String>) -> (r: Option<String>)
    ensures
        opt_chars(r) == filename_opt(opt_text(*s)),
{
    match s {
        Some(t) => parse_filename(t.as_str()),
        None => None,
    }
}

/// What follows the last `c`.
fn after_last_in(v: &[char], c: char) -> (r: Vec<char>)
    ensures
        r@ == after_last(v@, c),
{
    let mut k: usize = v.len();
    while k > 0
        invariant
            k <= v@.len(),
            forall|j: int| k <= j < v@.len() ==> v@[j] != c,
        decreases k,
    {
        if v[k - 1] == c {
            proof {
                assert(crate::utils::is_last_char(v@, c, k - 1));
                let q = choose|q: int| crate::utils::is_last_char(v@, c, q);
                if q < k - 1 {
                    assert(v@[k - 1] == c);
                } else if q > k - 1 {
                    assert(v@[q] == c);
                }
            }
            let r = slice_chars(v, k, v.len());
            assert(r@ =~= v@.skip(k as int));
            return r;
        }
        k -= 1;
    }
    proof {
        if exists|q: int| crate::utils::is_last_char(v@, c, q) {
            let q = choose|q: int| crate::utils::is_last_char(v@, c, q);
            assert(v@[q] == c);
        }
    }
    let r = slice_chars(v, 0, v.len());
    assert(r@ =~= v@);
    r
}

/// The file name a URL path suggests (see `path_file_name`).
pub fn file_name_from_path(path: &Option<String>) -> (r: String)
    ensures
        r@ == path_file_name(opt_text(*path)),
{
    match path {
        Some(p) => {
            let v = chars_of(p.as_str());
            if v.len() > 0 && v[0] == '/' {
                let last = after_last_in(v.as_slice(), '/');
                if last.len() > 0 {
                    return string_of(last.as_slice());
                }
            }
            owned("download")
        },
        None => owned("download"),
    }
}

fn add_type_extension(name: String, content_type: &Option<String>) -> (r: String)
    ensures
        r@ == with_type_extension(name@, opt_text(*content_type)),
{
    match content_type {
        Some(t) => {
            let v = chars_of(name.as_str());
            if !contains_char(v.as_slice(), '.') {
                let ext = extension_from_mime(t.as_str());
                if !ext.is_empty() {
                    let mut n = name;
                    n.append(ext);
                    return n;
                }
            }
            name
        },
        None => name,
    }
}

/// The URL that a probe of `requested` ended at (see `final_url_of`).
pub fn final_url(requested: &str, head: &Option<HeadReply>) -> (r: String)
    ensures
        r@ == final_url_of(requested@, *head),
{
    match head {
        Some(h) => {
            if h.success {
                match url_parse(h.url.as_str()) {
                    Ok(u) => u,
                    Err(_) => owned(requested),
                }
            } else {
                owned(requested)
            }
        },
        None => owned(requested),
    }
}

/// Turns the replies to the two requests that probe `requested` (the
/// normalized link) into what the user is shown (see `url_info_of`).
pub fn url_info(requested: &str, head: Option<HeadReply>, probe: Option<ProbeReply>) -> (r: UrlInfo)
    ensures
        (r.filename@, r.resume_supported, r.size) == url_info_of(requested@, head, probe),
{
    let end = final_url(requested, &head);
    let path = url_path(end.as_str());
    url_info_from(head, probe, &path)
}

/// What probing tells, given the replies and the path of the URL the probe
/// ended at (see `url_info_from_path`).
pub fn url_info_from(head: Option<HeadReply>, probe: Option<ProbeReply>, final_path: &Option<String>) -> (r: UrlInfo)
    ensures
        (r.filename@, r.resume_supported, r.size) == url_info_from_path(head, probe, opt_text(*final_path)),
{
    let mut size: Option<u64> = None;
    let mut filename: Option<String> = None;
    let mut content_type: Option<String> = None;
    match &head {
        Some(h) => {
            if h.success {
                size = parse_opt(&h.content_length);
                content_type = match &h.content_type {
                    Some(t) => Some(owned(t.as_str())),
                    None => None,
                };
                filename = filename_from(&h.content_disposition);
            }
        },
        None => {},
    }
    let resume_supported = match &probe {
        Some(p) => p.status == 206,
        None => false,
    };
    if size.is_none() {
        match &probe {
            Some(p) => {
                match &p.content_range {
                    Some(cr) => {
                        match cr {
                            Some(text) => {
                                let v = chars_of(text.as_str());
                                let total = after_last_in(v.as_slice(), '/');
                                let t = string_of(total.as_slice());
                                size = parse_u64(t.as_str());
                            },
                            None => {},
                        }
                    },
                    None => {
                        size = parse_opt(&p.content_length);
                    },
                }
                if filename.is_none() {
                    filename = filename_from(&p.content_disposition);
                }
            },
            None => {},
        }
    }
    let name = match filename {
        Some(n) => n,
        None => {
            let path_name = file_name_from_path(final_path);
            add_type_extension(path_name, &content_type)
        },
    };
    UrlInfo { filename: name, resume_supported, size }
}

// ---------------------------------------------------------------------------
// Browser headers
// ---------------------------------------------------------------------------

/// Headers that the app sets itself and so does not take from the browser.
pub open spec fn is_skipped_header(lower: Seq<char>) -> bool {
    lower == "host"@ || lower == "connection"@ || lower == "content-length"@
        || lower == "accept-encoding"@ || lower == "range"@
}

/// A browser header as the app forwards it (name lower-cased), or `None`
/// when its value is empty, the app sets it itself, or the name or value is
/// not a valid HTTP header.
pub open spec fn forwarded_header(h: (Seq<char>, Seq<char>)) -> Option<(Seq<char>, Seq<char>)> {
    let lower = lower_ascii_seq(h.0);
    if h.1.len() == 0 || is_skipped_header(lower)
        || !valid_header_name(vstd::utf8::encode_utf8(lower))
        || !valid_header_value(vstd::utf8::encode_utf8(h.1)) {
        None
    } else {
        Some((lower, h.1))
    }
}

/// The headers forwarded from a browser, in order.
pub open spec fn forwarded_headers(hs: Seq<(Seq<char>, Seq<char>)>) -> Seq<(Seq<char>, Seq<char>)>
    decreases hs.len(),
{
    if hs.len() == 0 {
        Seq::empty()
    } else {
        let before = forwarded_headers(hs.drop_last());
        match forwarded_header(hs.last()) {
            Some(h) => before.push(h),
            None => before,
        }
    }
}

proof fn lemma_lower_ascii_idempotent(s: Seq<char>)
    ensures
        lower_ascii_seq(lower_ascii_seq(s)) == lower_ascii_seq(s),
{
    assert forall|i: int| 0 <= i < s.len() implies crate::text::lower_ascii(crate::text::lower_ascii(s[i])) == crate::text::lower_ascii(s[i]) by {
        let c = s[i];
        if 'A' <= c && c <= 'Z' {
            assert((c as u32) + 32 >= 97);
            assert(!('A' <= crate::text::lower_ascii(c) && crate::text::lower_ascii(c) <= 'Z'));
        }
    }
    assert(lower_ascii_seq(lower_ascii_seq(s)) =~= lower_ascii_seq(s));
}

/// Law: of the browser's headers, none that the app sets itself is ever
/// forwarded, whatever the case of its name: every forwarded name is lower
/// case and none of host, connection, content-length, accept-encoding or
/// range; and every forwarded header has a value.
pub proof fn lemma_forwarded_headers_leave_out_app_headers(hs: Seq<(Seq<char>, Seq<char>)>)
    ensures
        forall|i: int| 0 <= i < forwarded_headers(hs).len() ==> {
            let h = #[trigger] forwarded_headers(hs)[i];
            &&& lower_ascii_seq(h.0) == h.0
            &&& !(lower_ascii_seq(h.0) == "host"@ || lower_ascii_seq(h.0) == "connection"@ || lower_ascii_seq(h.0) == "content-length"@
                || lower_ascii_seq(h.0) == "accept-encoding"@ || lower_ascii_seq(h.0) == "range"@)
            &&& h.1.len() > 0
        },
    decreases hs.len(),
{
    if hs.len() > 0 {
        lemma_forwarded_headers_leave_out_app_headers(hs.drop_last());
        let before = forwarded_headers(hs.drop_last());
        match forwarded_header(hs.last()) {
            Some(h) => {
                lemma_lower_ascii_idempotent(hs.last().0);
                assert forall|i: int| 0 <= i < forwarded_headers(hs).len() implies {
                    let g = #[trigger] forwarded_headers(hs)[i];
                    &&& lower_ascii_seq(g.0) == g.0
                    &&& !(lower_ascii_seq(g.0) == "host"@ || lower_ascii_seq(g.0) == "connection"@ || lower_ascii_seq(g.0) == "content-length"@
                || lower_ascii_seq(g.0) == "accept-encoding"@ || lower_ascii_seq(g.0) == "range"@)
                    &&& g.1.len() > 0
                } by {
                    if i < before.len() {
                        assert(forwarded_headers(hs)[i] == before[i]);
                    } else {
                        assert(forwarded_headers(hs)[i] == h);
                    }
                }
            },
            None => {},
        }
    }
}

fn skipped_header(lower: &str) -> (r: bool)
    ensures
        r == is_skipped_header(lower@),
{
    crate::text::text_eq(lower, "host") || crate::text::text_eq(lower, "connection")
        || crate::text::text_eq(lower, "content-length") || crate::text::text_eq(lower, "accept-encoding")
        || crate::text::text_eq(lower, "range")
}

/// The headers a download's requests take over from the browser that handed
/// it over (what the app then sets with `RequestBuilder::header`).
pub fn browser_headers(headers: &Vec<(String, String)>) -> (r: Vec<(String, String)>)
    ensures
        crate::transfer::header_texts(r@) == forwarded_headers(crate::transfer::header_texts(headers@)),
        forall|i: int| 0 <= i < r@.len() ==> {
            &&& lower_ascii_seq((#[trigger] r@[i]).0@) == r@[i].0@
            &&& !(lower_ascii_seq(r@[i].0@) == "host"@ || lower_ascii_seq(r@[i].0@) == "connection"@ || lower_ascii_seq(r@[i].0@) == "content-length"@
                || lower_ascii_seq(r@[i].0@) == "accept-encoding"@ || lower_ascii_seq(r@[i].0@) == "range"@)
            &&& r@[i].1@.len() > 0
        },
{
    let ghost hs = crate::transfer::header_texts(headers@);
    let mut out: Vec<(String, String)> = Vec::new();
    let mut i: usize = 0;
    while i < headers.len()
        invariant
            i <= headers@.len(),
            hs == crate::transfer::header_texts(headers@),
            crate::transfer::header_texts(out@) == forwarded_headers(hs.take(i as int)),
        decreases headers@.len() - i,
    {
        let name = &headers[i].0;
        let value = &headers[i].1;
        let lower_v = lower_ascii_chars(chars_of(name.as_str()).as_slice());
        let lower = string_of(lower_v.as_slice());
        let ghost prev = out@;
        proof {
            assert(hs.take(i + 1).drop_last() =~= hs.take(i as int));
            assert(hs.take(i + 1).last() == hs[i as int]);
            assert(hs[i as int] == (name@, value@));
        }
        if !(value.as_str().is_empty()) && !skipped_header(lower.as_str())
            && header_name_accepted(lower.as_str()) && header_value_accepted(value.as_str()) {
            out.push((lower, owned(value.as_str())));
            assert(crate::transfer::header_texts(out@) =~= crate::transfer::header_texts(prev).push((lower_v@, value@)));
        }
        i += 1;
    }
    assert(hs.take(i as int) =~= hs);
    proof {
        lemma_forwarded_headers_leave_out_app_headers(hs);
        let t = crate::transfer::header_texts(out@);
        assert forall|k: int| 0 <= k < out@.len() implies {
            &&& lower_ascii_seq((#[trigger] out@[k]).0@) == out@[k].0@
            &&& !(lower_ascii_seq(out@[k].0@) == "host"@ || lower_ascii_seq(out@[k].0@) == "connection"@ || lower_ascii_seq(out@[k].0@) == "content-length"@
                || lower_ascii_seq(out@[k].0@) == "accept-encoding"@ || lower_ascii_seq(out@[k].0@) == "range"@)
            &&& out@[k].1@.len() > 0
        } by {
            assert(t[k] == (out@[k].0@, out@[k].1@));
            assert(t[k] == forwarded_headers(hs)[k]);
        }
    }
    out
}

// ---------------------------------------------------------------------------
// Deep links
// ---------------------------------------------------------------------------

/// `s` with every occurrence of `pat` removed, left to right (`str::replace(pat, "")`).
pub open spec fn without_all(s: Seq<char>, pat: Seq<char>) -> Seq<char>
    decreases s.len(),
{
    if pat.len() == 0 {
        s
    } else {
        match find_sub(s, pat) {
            Some(i) => s.take(i) + without_all(s.skip(i + pat.len()), pat),
            None => s,
        }
    }
}

/// The download link inside a `jda://` link passed on the command line.
pub open spec fn deep_link_of(arg: Seq<char>) -> Option<Seq<char>> {
    if starts_with(arg, "jda://"@) { Some(without_all(arg, "jda://"@)) } else { None }
}

fn remove_all(v: &[char], pat: &[char]) -> (r: Vec<char>)
    requires
        pat@.len() > 0,
    ensures
        r@ == without_all(v@, pat@),
{
    let mut out: Vec<char> = Vec::new();
    let mut rest = slice_chars(v, 0, v.len());
    assert(rest@ =~= v@);
    while rest.len() > 0
        invariant
            pat@.len() > 0,
            out@ + without_all(rest@, pat@) == without_all(v@, pat@),
        decreases rest@.len(),
    {
        match find_sub_in(rest.as_slice(), pat) {
            Some(i) => {
                assert(occurs_at(rest@, pat@, i as int));
                let head = slice_chars(rest.as_slice(), 0, i);
                let tail = slice_chars(rest.as_slice(), i + pat.len(), rest.len());
                proof {
                    assert(head@ =~= rest@.take(i as int));
                    assert(tail@ =~= rest@.skip(i + pat@.len()));
                    assert(without_all(rest@, pat@) == head@ + without_all(tail@, pat@));
                }
                let ghost out0 = out@;
                crate::utils::append_chars(&mut out, head.as_slice());
                assert(out@ + without_all(tail@, pat@) =~= out0 + (head@ + without_all(tail@, pat@)));
                rest = tail;
            },
            None => {
                let ghost out0 = out@;
                crate::utils::append_chars(&mut out, rest.as_slice());
                let ghost r0 = rest@;
                rest = Vec::new();
                assert(without_all(rest@, pat@) =~= Seq::<char>::empty());
                assert(out@ + without_all(rest@, pat@) =~= out0 + without_all(r0, pat@));
            },
        }
    }
    assert(without_all(rest@, pat@) =~= Seq::<char>::empty());
    assert(out@ =~= out@ + without_all(rest@, pat@));
    out
}

/// The download link of a `jda://` argument (every `jda://` in it removed),
/// or `None` for any other argument.
pub fn deep_link_target(arg: &str) -> (r: Option<String>)
    ensures
        opt_chars(r) == deep_link_of(arg@),
{
    proof {
        reveal_strlit("jda://");
    }
    let v = chars_of(arg);
    let scheme = chars_of("jda://");
    if has_prefix(v.as_slice(), scheme.as_slice()) {
        let rest = remove_all(v.as_slice(), scheme.as_slice());
        Some(string_of(rest.as_slice()))
    } else {
        None
    }
}

} // verus!
