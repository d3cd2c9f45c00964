//! File names: what a `Content-Disposition` header or a MIME type says a
//! file is called, and the first name a new file can take in a folder.
use vstd::prelude::*;
use crate::text::{chars_of, string_of, owned, text_eq, seq_eq, find_char, find_char_from, find_sub,
    find_sub_in, has_prefix, starts_with, slice_chars, trim, trim_chars, Trim, lemma_find_char,
    is_first_char, is_first_occurrence, occurs_at};
use crate::outside::{percent_decode, percent_decoded, path_file_name, path_file_name_of, path_parent,
    path_parent_of, path_join, path_joined};

verus! {

// ---------------------------------------------------------------------------
// Extension from a MIME type
// ---------------------------------------------------------------------------

/// The file extension (with its dot) for the MIME types the app knows, else "".
pub open spec fn mime_extension(m: Seq<char>) -> Seq<char> {
    if m == "application/pdf"@ { ".pdf"@ }
    else if m == "application/zip"@ { ".zip"@ }
    else if m == "application/x-rar-compressed"@ { ".rar"@ }
    else if m == "application/json"@ { ".json"@ }
    else if m == "text/html"@ { ".html"@ }
    else if m == "text/plain"@ { ".txt"@ }
    else if m == "image/jpeg"@ { ".jpg"@ }
    else if m == "image/png"@ { ".png"@ }
    else if m == "video/mp4"@ { ".mp4"@ }
    else if m == "audio/mpeg"@ { ".mp3"@ }
    else if m == "application/octet-stream"@ { ".bin"@ }
    else if m == "application/x-msdownload"@ { ".exe"@ }
    else { ""@ }
}

/// The extension for a MIME type (exact match), "" when unknown.
pub fn extension_from_mime(mime: &str) -> (r: &'static str)
    ensures
        r@ == mime_extension(mime@),
{
    if text_eq(mime, "application/pdf") { ".pdf" }
    else if text_eq(mime, "application/zip") { ".zip" }
    else if text_eq(mime, "application/x-rar-compressed") { ".rar" }
    else if text_eq(mime, "application/json") { ".json" }
    else if text_eq(mime, "text/html") { ".html" }
    else if text_eq(mime, "text/plain") { ".txt" }
    else if text_eq(mime, "image/jpeg") { ".jpg" }
    else if text_eq(mime, "image/png") { ".png" }
    else if text_eq(mime, "video/mp4") { ".mp4" }
    else if text_eq(mime, "audio/mpeg") { ".mp3" }
    else if text_eq(mime, "application/octet-stream") { ".bin" }
    else if text_eq(mime, "application/x-msdownload") { ".exe" }
    else { "" }
}

// ---------------------------------------------------------------------------
// Content-Disposition
// ---------------------------------------------------------------------------

/// Splitting `s` at its first `;`: the first segment, and what follows.
pub open spec fn first_segment(s: Seq<char>) -> Seq<char> {
    match find_char(s, ';') {
        Some(i) => s.take(i),
        None => s,
    }
}

/// The value of the first `;`-separated segment of `s` that, trimmed, starts
/// with `key` (`s.split(';').find_map(|p| p.trim().strip_prefix(key))`).
pub open spec fn find_param(s: Seq<char>, key: Seq<char>) -> Option<Seq<char>>
    decreases s.len(),
{
    let t = trim(first_segment(s), Trim::Whitespace);
    if starts_with(t, key) {
        Some(t.skip(key.len() as int))
    } else {
        match find_char(s, ';') {
            Some(i) => {
                proof {
                    lemma_find_char(s, ';');
                }
                find_param(s.skip(i + 1), key)
            },
            None => None,
        }
    }
}

/// The second piece of `s` split at `sep` (`s.split(sep).nth(1)`).
pub open spec fn second_piece(s: Seq<char>, sep: Seq<char>) -> Option<Seq<char>> {
    match find_sub(s, sep) {
        Some(i) => {
            let r = s.skip(i + sep.len());
            match find_sub(r, sep) {
                Some(j) => Some(r.take(j)),
                None => Some(r),
            }
        },
        None => None,
    }
}

/// The file name in a `Content-Disposition` header: the RFC 5987
/// `filename*=charset''encoded` form, percent-decoded, when present and
/// decodable; else the plain `filename=` value without surrounding quotes.
pub open spec fn filename_of(h: Seq<char>) -> Option<Seq<char>> {
    let extended = match extended_filename_of(h) {
        Some(enc) => percent_decoded(enc),
        None => None,
    };
    if extended is Some { extended } else { plain_filename_of(h) }
}

proof fn lemma_skip_skip(s: Seq<char>, a: int, b: int)
    requires
        0 <= a,
        0 <= b,
        a + b <= s.len(),
    ensures
        s.skip(a).skip(b) == s.skip(a + b),
{
    assert(s.skip(a).skip(b) =~= s.skip(a + b));
}

/// `find_param` over `v[from..]`.
fn find_param_in(v: &[char], key: &[char]) -> (r: Option<Vec<char>>)
    ensures
        match find_param(v@, key@) {
            Some(x) => r matches Some(y) && y@ == x,
            None => r is None,
        },
{
    let mut pos: usize = 0;
    assert(v@.skip(0) =~= v@);
    while pos <= v.len()
        invariant
            pos <= v@.len(),
            find_param(v@, key@) == find_param(v@.skip(pos as int), key@),
        decreases v@.len() - pos,
    {
        let ghost rest = v@.skip(pos as int);
        let semi = find_char_from(v, ';', pos);
        let end = match semi {
            Some(e) => e,
            None => v.len(),
        };
        let seg = slice_chars(v, pos, end);
        proof {
            match semi {
                Some(e) => {
                    assert(seg@ =~= rest.take(e - pos));
                },
                None => {
                    lemma_find_char(rest, ';');
                    assert(seg@ =~= rest);
                },
            }
            assert(seg@ == first_segment(rest));
        }
        let t = trim_chars(seg.as_slice(), Trim::Whitespace);
        if has_prefix(t.as_slice(), key) {
            let value = slice_chars(t.as_slice(), key.len(), t.len());
            assert(value@ =~= t@.skip(key@.len() as int));
            return Some(value);
        }
        match semi {
            Some(e) => {
                proof {
                    let i = e - pos;
                    lemma_skip_skip(v@, pos as int, i + 1);
                }
                pos = e + 1;
            },
            None => {
                return None;
            },
        }
    }
    None
}

/// `second_piece(v, sep)`.
fn second_piece_in(v: &[char], sep: &[char]) -> (r: Option<Vec<char>>)
    ensures
        match second_piece(v@, sep@) {
            Some(x) => r matches Some(y) && y@ == x,
            None => r is None,
        },
{
    match find_sub_in(v, sep) {
        Some(i) => {
            assert(occurs_at(v@, sep@, i as int));
            assert(i + sep.len() <= v.len());
            let from = i + sep.len();
            let rest = slice_chars(v, from, v.len());
            assert(rest@ =~= v@.skip(from as int));
            match find_sub_in(rest.as_slice(), sep) {
                Some(j) => {
                    let piece = slice_chars(rest.as_slice(), 0, j);
                    assert(piece@ =~= rest@.take(j as int));
                    Some(piece)
                },
                None => Some(rest),
            }
        },
        None => None,
    }
}

/// The still percent-encoded name of an RFC 5987 `filename*=charset''name`
/// parameter: what follows its first `''`, up to the next one.
pub open spec fn extended_filename_of(h: Seq<char>) -> Option<Seq<char>> {
    match find_param(h, "filename*="@) {
        Some(v) => second_piece(v, "''"@),
        None => None,
    }
}

/// The value of a plain `filename=` parameter, without surrounding quotes.
pub open spec fn plain_filename_of(h: Seq<char>) -> Option<Seq<char>> {
    match find_param(h, "filename="@) {
        Some(v) => Some(trim(v, Trim::Quote)),
        None => None,
    }
}

/// The encoded name of the `filename*=` parameter of a header.
pub fn extended_filename(header: &str) -> (r: Option<String>)
    ensures
        opt_chars(r) == extended_filename_of(header@),
{
    let h = chars_of(header);
    let ext_key = chars_of("filename*=");
    match find_param_in(h.as_slice(), ext_key.as_slice()) {
        Some(v) => {
            let sep = chars_of("''");
            match second_piece_in(v.as_slice(), sep.as_slice()) {
                Some(enc) => Some(string_of(enc.as_slice())),
                None => None,
            }
        },
        None => None,
    }
}

/// The unquoted value of the `filename=` parameter of a header.
pub fn plain_filename(header: &str) -> (r: Option<String>)
    ensures
        opt_chars(r) == plain_filename_of(header@),
{
    let h = chars_of(header);
    let key = chars_of("filename=");
    match find_param_in(h.as_slice(), key.as_slice()) {
        Some(v) => {
            let t = trim_chars(v.as_slice(), Trim::Quote);
            Some(string_of(t.as_slice()))
        },
        None => None,
    }
}

/// The file name announced by a `Content-Disposition` header: the decoded
/// `filename*=` name when there is one that decodes, else the `filename=` one.
pub fn parse_filename(header: &str) -> (r: Option<String>)
    ensures
        opt_chars(r) == filename_of(header@),
{
    match extended_filename(header) {
        Some(enc) => {
            match percent_decode(enc.as_str()) {
                Some(d) => {
                    return Some(d);
                },
                None => {},
            }
        },
        None => {},
    }
    plain_filename(header)
}

/// The text of an optional string.
pub open spec fn opt_chars(o: Option<String>) -> Option<Seq<char>> {
    match o {
        Some(s) => Some(s@),
        None => None,
    }
}

} // verus!

verus! {

// ---------------------------------------------------------------------------
// Stem and extension of a file name
// ---------------------------------------------------------------------------

/// `i` is the position of the last `c` in `s`.
pub open spec fn is_last_char(s: Seq<char>, c: char, i: int) -> bool {
    0 <= i < s.len() && s[i] == c && forall|j: int| i < j < s.len() ==> s[j] != c
}

pub open spec fn rfind_char(s: Seq<char>, c: char) -> Option<int> {
    if exists|i: int| is_last_char(s, c, i) {
        Some(choose|i: int| is_last_char(s, c, i))
    } else {
        None
    }
}

/// `Path::file_stem` of a path whose file name is `n`: the name before its
/// last `.`, or the whole name when it has no `.` but a leading one.
pub open spec fn stem_of(n: Seq<char>) -> Seq<char> {
    match rfind_char(n, '.') {
        Some(i) => if i > 0 { n.take(i) } else { n },
        None => n,
    }
}

/// `Path::extension` of a path whose file name is `n`: what follows the
/// last `.`, unless that `.` is the name's first character.
pub open spec fn extension_of(n: Seq<char>) -> Option<Seq<char>> {
    match rfind_char(n, '.') {
        Some(i) => if i > 0 { Some(n.skip(i + 1)) } else { None },
        None => None,
    }
}

fn rfind_char_in(v: &[char], c: char) -> (r: Option<usize>)
    ensures
        match rfind_char(v@, c) {
            Some(i) => r == Some(i as usize),
            None => r is None,
        },
        r matches Some(i) ==> is_last_char(v@, c, i as int),
{
    let mut k: usize = v.len();
    while k > 0
        invariant
            k <= v@.len(),
            forall|j: int| k <= j < v@.len() ==> v@[j] != c,
        decreases k,
    {
        if v[k - 1] == c {
            proof {
                assert(is_last_char(v@, c, k - 1));
                let q = choose|q: int| is_last_char(v@, c, q);
                if q < k - 1 {
                    assert(v@[k - 1] == c);
                } else if q > k - 1 {
                    assert(v@[q] == c);
                }
            }
            return Some(k - 1);
        }
        k -= 1;
    }
    proof {
        if exists|q: int| is_last_char(v@, c, q) {
            let q = choose|q: int| is_last_char(v@, c, q);
            assert(v@[q] == c);
        }
    }
    None
}

/// The stem and extension of the file name `n`.
pub fn split_file_name(n: &[char]) -> (r: (Vec<char>, Option<Vec<char>>))
    ensures
        r.0@ == stem_of(n@),
        match extension_of(n@) {
            Some(e) => r.1 matches Some(x) && x@ == e,
            None => r.1 is None,
        },
{
    match rfind_char_in(n, '.') {
        Some(i) => {
            if i > 0 {
                assert(i < n.len());
                let stem = slice_chars(n, 0, i);
                let ext = slice_chars(n, i + 1, n.len());
                assert(stem@ =~= n@.take(i as int));
                assert(ext@ =~= n@.skip(i + 1));
                (stem, Some(ext))
            } else {
                (slice_chars(n, 0, n.len()), None)
            }
        },
        None => {
            let whole = slice_chars(n, 0, n.len());
            assert(whole@ =~= n@);
            (whole, None)
        },
    }
}

// ---------------------------------------------------------------------------
// Numbered names
// ---------------------------------------------------------------------------

/// The texts of a list of strings.
pub open spec fn texts(v: Seq<String>) -> Seq<Seq<char>> {
    v.map_values(|s: String| s@)
}

/// What follows the number in a numbered name: `.ext` for a non-empty extension.
pub open spec fn ext_suffix(ext: Option<Seq<char>>) -> Seq<char> {
    match ext {
        Some(e) => if e.len() > 0 { "."@ + e } else { Seq::empty() },
        None => Seq::empty(),
    }
}

/// `stem(i).ext`, the `i`-th alternative name.
pub open spec fn numbered_name(stem: Seq<char>, ext: Option<Seq<char>>, i: int) -> Seq<char> {
    stem + "("@ + crate::text::decimal(i as nat) + ")"@ + ext_suffix(ext)
}

/// The name of the temporary file that a download writes before it completes.
pub open spec fn temp_name(n: Seq<char>) -> Seq<char> {
    n + ".jdm"@
}

/// A name is in use when a file of that name exists, when (if `with_temp`)
/// its temporary file exists, or when it is reserved.
pub open spec fn in_use(n: Seq<char>, occupied: Seq<Seq<char>>, reserved: Seq<Seq<char>>, with_temp: bool) -> bool {
    occupied.contains(n) || (with_temp && occupied.contains(temp_name(n))) || reserved.contains(n)
}

/// `i` is the smallest positive number whose numbered name is free.
pub open spec fn is_first_free(stem: Seq<char>, ext: Option<Seq<char>>, occupied: Seq<Seq<char>>,
    reserved: Seq<Seq<char>>, with_temp: bool, i: int) -> bool
{
    &&& i >= 1
    &&& !in_use(numbered_name(stem, ext, i), occupied, reserved, with_temp)
    &&& forall|j: int| 1 <= j < i ==> in_use(#[trigger] numbered_name(stem, ext, j), occupied, reserved, with_temp)
}

pub open spec fn first_free(stem: Seq<char>, ext: Option<Seq<char>>, occupied: Seq<Seq<char>>,
    reserved: Seq<Seq<char>>, with_temp: bool) -> int
{
    choose|i: int| is_first_free(stem, ext, occupied, reserved, with_temp, i)
}

/// Law: distinct numbers give distinct numbered names.
pub proof fn lemma_numbered_name_injective(stem: Seq<char>, ext: Option<Seq<char>>, i: int, j: int)
    requires
        i >= 0,
        j >= 0,
        numbered_name(stem, ext, i) == numbered_name(stem, ext, j),
    ensures
        i == j,
{
    reveal_strlit("(");
    reveal_strlit(")");
    let a = stem + "("@;
    let di = crate::text::decimal(i as nat);
    let dj = crate::text::decimal(j as nat);
    let b = ")"@ + ext_suffix(ext);
    let ni = numbered_name(stem, ext, i);
    let nj = numbered_name(stem, ext, j);
    assert(ni =~= a + di + b);
    assert(nj =~= a + dj + b);
    assert(di.len() == dj.len());
    assert(ni.subrange(a.len() as int, (a.len() + di.len()) as int) =~= di);
    assert(nj.subrange(a.len() as int, (a.len() + dj.len()) as int) =~= dj);
    crate::text::lemma_decimal_injective(i as nat, j as nat);
}

proof fn lemma_temp_name_injective(a: Seq<char>, b: Seq<char>)
    requires
        temp_name(a) == temp_name(b),
    ensures
        a == b,
{
    reveal_strlit(".jdm");
    assert(temp_name(a).len() == a.len() + 4);
    assert(a.len() == b.len());
    assert(a =~= temp_name(a).take(a.len() as int));
    assert(b =~= temp_name(b).take(b.len() as int));
}

/// The numbers in `1..=n` whose names are in `names` under `f`.
spec fn hits(n: int, names: Set<Seq<char>>, f: spec_fn(int) -> Seq<char>) -> Set<int> {
    vstd::set_lib::set_int_range(1, n + 1).filter(|i: int| names.contains(f(i)))
}

proof fn lemma_hits_bound(n: int, names: Seq<Seq<char>>, f: spec_fn(int) -> Seq<char>)
    requires
        n >= 0,
        forall|i: int, j: int| 1 <= i <= n && 1 <= j <= n && #[trigger] f(i) == #[trigger] f(j) ==> i == j,
    ensures
        hits(n, names.to_set(), f).finite(),
        hits(n, names.to_set(), f).len() <= names.len(),
{
    let range = vstd::set_lib::set_int_range(1, n + 1);
    vstd::set_lib::lemma_int_range(1, n + 1);
    let h = hits(n, names.to_set(), f);
    assert(h.subset_of(range));
    vstd::set_lib::lemma_len_subset(h, range);
    assert(vstd::relations::injective_on(f, h));
    vstd::set_lib::lemma_map_size(h, h.map(f), f);
    names.lemma_cardinality_of_set();
    assert(h.map(f).subset_of(names.to_set()));
    vstd::set_lib::lemma_len_subset(h.map(f), names.to_set());
}

/// Some number in `1..=2*|occupied| + |reserved| + 1` names a free name.
proof fn lemma_some_number_free(stem: Seq<char>, ext: Option<Seq<char>>, occupied: Seq<Seq<char>>,
    reserved: Seq<Seq<char>>, with_temp: bool)
    ensures
        exists|i: int| 1 <= i <= 2 * occupied.len() + reserved.len() + 1
            && !in_use(numbered_name(stem, ext, i), occupied, reserved, with_temp),
{
    let n: int = (2 * occupied.len() + reserved.len() + 1) as int;
    let f = |i: int| numbered_name(stem, ext, i);
    let g = |i: int| temp_name(numbered_name(stem, ext, i));
    assert forall|i: int, j: int| 1 <= i <= n && 1 <= j <= n && #[trigger] f(i) == #[trigger] f(j) implies i == j by {
        lemma_numbered_name_injective(stem, ext, i, j);
    }
    assert forall|i: int, j: int| 1 <= i <= n && 1 <= j <= n && #[trigger] g(i) == #[trigger] g(j) implies i == j by {
        lemma_temp_name_injective(f(i), f(j));
        lemma_numbered_name_injective(stem, ext, i, j);
    }
    lemma_hits_bound(n, occupied, f);
    lemma_hits_bound(n, occupied, g);
    lemma_hits_bound(n, reserved, f);
    let h1 = hits(n, occupied.to_set(), f);
    let h2 = hits(n, occupied.to_set(), g);
    let h3 = hits(n, reserved.to_set(), f);
    let range = vstd::set_lib::set_int_range(1, n + 1);
    vstd::set_lib::lemma_int_range(1, n + 1);
    if forall|i: int| 1 <= i <= n ==> in_use(numbered_name(stem, ext, i), occupied, reserved, with_temp) {
        assert(range.subset_of(h1.union(h2).union(h3))) by {
            assert forall|i: int| range.contains(i) implies h1.union(h2).union(h3).contains(i) by {
                assert(in_use(numbered_name(stem, ext, i), occupied, reserved, with_temp));
                if occupied.contains(f(i)) {
                    assert(occupied.to_set().contains(f(i)));
                } else if with_temp && occupied.contains(g(i)) {
                    assert(occupied.to_set().contains(g(i)));
                } else {
                    assert(reserved.to_set().contains(f(i)));
                }
            }
        }
        vstd::set_lib::lemma_len_union(h1, h2);
        vstd::set_lib::lemma_len_union(h1.union(h2), h3);
        vstd::set_lib::lemma_len_subset(range, h1.union(h2).union(h3));
        assert(false);
    }
}

/// There is a smallest number whose numbered name is free.
pub proof fn lemma_first_free_exists(stem: Seq<char>, ext: Option<Seq<char>>, occupied: Seq<Seq<char>>,
    reserved: Seq<Seq<char>>, with_temp: bool)
    ensures
        is_first_free(stem, ext, occupied, reserved, with_temp, first_free(stem, ext, occupied, reserved, with_temp)),
        first_free(stem, ext, occupied, reserved, with_temp) <= 2 * occupied.len() + reserved.len() + 1,
{
    lemma_some_number_free(stem, ext, occupied, reserved, with_temp);
    let w = choose|i: int| 1 <= i <= 2 * occupied.len() + reserved.len() + 1
        && !in_use(numbered_name(stem, ext, i), occupied, reserved, with_temp);
    lemma_first_free_below(stem, ext, occupied, reserved, with_temp, w);
    let f = first_free(stem, ext, occupied, reserved, with_temp);
    if f > w {
        assert(in_use(numbered_name(stem, ext, w), occupied, reserved, with_temp));
    }
}

proof fn lemma_first_free_below(stem: Seq<char>, ext: Option<Seq<char>>, occupied: Seq<Seq<char>>,
    reserved: Seq<Seq<char>>, with_temp: bool, w: int)
    requires
        w >= 1,
        !in_use(numbered_name(stem, ext, w), occupied, reserved, with_temp),
    ensures
        exists|i: int| is_first_free(stem, ext, occupied, reserved, with_temp, i),
    decreases w,
{
    if forall|j: int| 1 <= j < w ==> in_use(numbered_name(stem, ext, j), occupied, reserved, with_temp) {
        assert(is_first_free(stem, ext, occupied, reserved, with_temp, w));
    } else {
        let j = choose|j: int| 1 <= j < w && !in_use(numbered_name(stem, ext, j), occupied, reserved, with_temp);
        lemma_first_free_below(stem, ext, occupied, reserved, with_temp, j);
    }
}

/// Whether `name` is one of `list`.
pub fn listed(list: &Vec<String>, name: &str) -> (r: bool)
    ensures
        r == texts(list@).contains(name@),
{
    let mut k: usize = 0;
    while k < list.len()
        invariant
            k <= list@.len(),
            forall|j: int| 0 <= j < k ==> list@[j]@ != name@,
        decreases list@.len() - k,
    {
        if text_eq(list[k].as_str(), name) {
            assert(texts(list@)[k as int] == name@);
            return true;
        }
        k += 1;
    }
    proof {
        if texts(list@).contains(name@) {
            let j = choose|j: int| 0 <= j < texts(list@).len() && texts(list@)[j] == name@;
            assert(list@[j]@ == name@);
        }
    }
    false
}

/// `n` followed by `.jdm`.
pub fn temp_file_name(n: &str) -> (r: String)
    ensures
        r@ == temp_name(n@),
{
    let mut s = owned(n);
    s.append(".jdm");
    s
}

fn name_in_use(n: &str, occupied: &Vec<String>, reserved: &Vec<String>, with_temp: bool) -> (r: bool)
    ensures
        r == in_use(n@, texts(occupied@), texts(reserved@), with_temp),
{
    if listed(occupied, n) {
        return true;
    }
    if with_temp {
        let t = temp_file_name(n);
        if listed(occupied, t.as_str()) {
            return true;
        }
    }
    listed(reserved, n)
}

/// Appends the characters of `w` to `v`.
pub(crate) fn append_chars(v: &mut Vec<char>, w: &[char])
    ensures
        final(v)@ == old(v)@ + w@,
{
    let mut i: usize = 0;
    while i < w.len()
        invariant
            i <= w@.len(),
            v@ == old(v)@ + w@.take(i as int),
        decreases w@.len() - i,
    {
        v.push(w[i]);
        assert(w@.take(i + 1) =~= w@.take(i as int).push(w@[i as int]));
        i += 1;
    }
    assert(w@.take(w@.len() as int) =~= w@);
}

/// The `i`-th numbered name.
fn make_numbered(stem: &[char], ext: &Option<Vec<char>>, i: u128) -> (r: String)
    ensures
        r@ == numbered_name(stem@, opt_seq(*ext), i as int),
{
    let mut v: Vec<char> = Vec::new();
    append_chars(&mut v, stem);
    v.push('(');
    let d = crate::text::decimal_chars(i);
    append_chars(&mut v, d.as_slice());
    v.push(')');
    let ghost base = v@;
    match ext {
        Some(e) => {
            if e.len() > 0 {
                v.push('.');
                append_chars(&mut v, e.as_slice());
            }
        },
        None => {},
    }
    proof {
        reveal_strlit("(");
        reveal_strlit(")");
        reveal_strlit(".");
        assert(v@ =~= numbered_name(stem@, opt_seq(*ext), i as int));
    }
    string_of(v.as_slice())
}

/// The text of an optional vector of characters.
pub open spec fn opt_seq(o: Option<Vec<char>>) -> Option<Seq<char>> {
    match o {
        Some(v) => Some(v@),
        None => None,
    }
}

/// The first free numbered name `stem(i).ext`, `i = 1, 2, ...`.
fn first_free_name(stem: &[char], ext: &Option<Vec<char>>, occupied: &Vec<String>, reserved: &Vec<String>,
    with_temp: bool) -> (r: String)
    ensures
        r@ == numbered_name(stem@, opt_seq(*ext), first_free(stem@, opt_seq(*ext), texts(occupied@), texts(reserved@), with_temp) ),
{
    let ghost occ = texts(occupied@);
    let ghost res = texts(reserved@);
    let ghost e = opt_seq(*ext);
    proof {
        lemma_first_free_exists(stem@, e, occ, res, with_temp);
    }
    let ghost f = first_free(stem@, e, occ, res, with_temp);
    let ol = occupied.len();
    let rl = reserved.len();
    let mut i: u128 = 1;
    loop
        invariant
            occ.len() == ol,
            res.len() == rl,
            1 <= i <= f,
            is_first_free(stem@, e, occ, res, with_temp, f),
            f <= 2 * occ.len() + res.len() + 1,
            occ.len() == occupied@.len(),
            res.len() == reserved@.len(),
            occ == texts(occupied@),
            res == texts(reserved@),
            e == opt_seq(*ext),
        decreases f - i,
    {
        let name = make_numbered(stem, ext, i);
        if !name_in_use(name.as_str(), occupied, reserved, with_temp) {
            proof {
                if (i as int) < f {
                    assert(in_use(numbered_name(stem@, e, i as int), occ, res, with_temp));
                }
            }
            return name;
        }
        assert(i < f);
        i = i + 1;
    }
}

} // verus!

verus! {

/// The stem that numbered names start with, for a path whose file name is
/// `file_name`: its file stem, or "download" when it has none.
pub open spec fn stem_for(file_name: Option<Seq<char>>) -> Seq<char> {
    match file_name {
        Some(f) => if stem_of(f).len() > 0 { stem_of(f) } else { "download"@ },
        None => "download"@,
    }
}

/// The extension that numbered names keep, for a path whose file name is `file_name`.
pub open spec fn ext_for(file_name: Option<Seq<char>>) -> Option<Seq<char>> {
    match file_name {
        Some(f) => extension_of(f),
        None => None,
    }
}

pub open spec fn numbering_stem(path: Seq<char>) -> Seq<char> {
    stem_for(path_file_name_of(path))
}

pub open spec fn numbering_ext(path: Seq<char>) -> Option<Seq<char>> {
    ext_for(path_file_name_of(path))
}

/// The first free name `stem(i).ext`, `i = 1, 2, ...`, for a path whose
/// file name is `file_name` (see `in_use`).
pub fn first_free_numbered_name(file_name: &Option<String>, occupied: &Vec<String>, reserved: &Vec<String>,
    with_temp: bool) -> (r: String)
    ensures
        r@ == numbered_name(stem_for(opt_chars(*file_name)), ext_for(opt_chars(*file_name)),
            first_free(stem_for(opt_chars(*file_name)), ext_for(opt_chars(*file_name)), texts(occupied@),
                texts(reserved@), with_temp)),
        !in_use(r@, texts(occupied@), texts(reserved@), with_temp),
{
    let (stem, ext) = match file_name {
        Some(f) => {
            let fc = chars_of(f.as_str());
            let (stem, ext) = split_file_name(fc.as_slice());
            if stem.len() > 0 {
                (stem, ext)
            } else {
                (chars_of("download"), ext)
            }
        },
        None => (chars_of("download"), None),
    };
    proof {
        lemma_first_free_exists(stem@, opt_seq(ext), texts(occupied@), texts(reserved@), with_temp);
    }
    first_free_name(stem.as_slice(), &ext, occupied, reserved, with_temp)
}

/// The name a new download of `desired` gets in a folder whose entries are
/// `occupied`, when `reserved` names are promised to other downloads: the
/// desired name itself when neither it nor its temporary file exists and it
/// is not reserved, else the first free `stem(i).ext`.
pub open spec fn unique_name_in_dir(desired: Seq<char>, reserved: Seq<Seq<char>>, occupied: Seq<Seq<char>>) -> Seq<char> {
    if !in_use(desired, occupied, reserved, true) {
        desired
    } else {
        let stem = numbering_stem(desired);
        let ext = numbering_ext(desired);
        numbered_name(stem, ext, first_free(stem, ext, occupied, reserved, true))
    }
}

/// Picks the name for a new download in a folder: `desired_name` when it is
/// free, else `stem(1).ext`, `stem(2).ext`, ... until one is free. A name is
/// taken when it or its `.jdm` temporary file is among `occupied` or it is
/// among `reserved_names`. `occupied` holds the names, taken relative to the
/// folder, under which something exists there: the folder's existing entries,
/// and the desired name and its temporary file when they exist (a desired
/// name may reach into a subfolder; the numbered names never do).
pub fn unique_file_name_in_dir(desired_name: &str, reserved_names: &Vec<String>, occupied: &Vec<String>) -> (r: String)
    ensures
        r@ == unique_name_in_dir(desired_name@, texts(reserved_names@), texts(occupied@)),
        !in_use(r@, texts(occupied@), texts(reserved_names@), true),
{
    if !name_in_use(desired_name, occupied, reserved_names, true) {
        return owned(desired_name);
    }
    let file_name = path_file_name(desired_name);
    first_free_numbered_name(&file_name, occupied, reserved_names, true)
}

/// The path a new file at `path` gets: `path` itself when no file exists
/// there, else `stem(i).ext` in the same folder for the first `i` whose name
/// is not among the folder's entries `occupied`.
pub open spec fn unique_path(path: Seq<char>, path_exists: bool, occupied: Seq<Seq<char>>) -> Seq<char> {
    if !path_exists {
        path
    } else {
        let parent = match path_parent_of(path) {
            Some(p) => p,
            None => Seq::empty(),
        };
        let stem = numbering_stem(path);
        let ext = numbering_ext(path);
        path_joined(parent, numbered_name(stem, ext, first_free(stem, ext, occupied, Seq::empty(), false)))
    }
}

/// A path for a new file that does not overwrite an existing one (see
/// `unique_path`): `path_exists` tells whether something exists at `path`,
/// and `occupied` holds the names of the existing entries of its folder.
pub fn unique_file_path(path: &str, path_exists: bool, occupied: &Vec<String>) -> (r: String)
    ensures
        r@ == unique_path(path@, path_exists, texts(occupied@)),
{
    if !path_exists {
        return owned(path);
    }
    let parent = match path_parent(path) {
        Some(p) => p,
        None => String::new(),
    };
    let file_name = path_file_name(path);
    let none: Vec<String> = Vec::new();
    assert(texts(none@) =~= Seq::<Seq<char>>::empty());
    let name = first_free_numbered_name(&file_name, occupied, &none, false);
    path_join(parent.as_str(), name.as_str())
}

} // verus!
