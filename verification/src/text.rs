//! Character-level text handling: decimal numbers, whitespace trimming,
//! ASCII case folding and substring search, all stated over `Seq<char>`.
use vstd::prelude::*;

verus! {

// ---------------------------------------------------------------------------
// Conversions between `str`/`String` and character vectors
// ---------------------------------------------------------------------------

/// The characters of `s`, in order.
pub fn chars_of(s: &str) -> (v: Vec<char>)
    ensures
        v@ == s@,
{
    let mut v: Vec<char> = Vec::new();
    for c in it: s.chars()
        invariant
            v@ == it.seq().take(it.index() as int),
            it.seq() == s@,
    {
        v.push(c);
    }
    v
}

/// Collects characters into a `String` (std's `FromIterator<char>` for `String`).
/// Trusted: the string holds exactly the given characters, in order.
#[verifier::external_body]
pub(crate) fn string_of(v: &[char]) -> (s: String)
    ensures
        s@ == v@,
{
    v.iter().collect()
}

/// An owned copy of `s`.
pub fn owned(s: &str) -> (r: String)
    ensures
        r@ == s@,
{
    String::from_str(s)
}

/// Character-wise equality of two strings.
pub fn text_eq(a: &str, b: &str) -> (r: bool)
    ensures
        r == (a@ == b@),
{
    let va = chars_of(a);
    let vb = chars_of(b);
    seq_eq(&va, &vb)
}

/// Element-wise equality of two character slices.
pub fn seq_eq(a: &[char], b: &[char]) -> (r: bool)
    ensures
        r == (a@ == b@),
{
    if a.len() != b.len() {
        return false;
    }
    let mut i: usize = 0;
    while i < a.len()
        invariant
            a@.len() == b@.len(),
            i <= a@.len(),
            forall|k: int| 0 <= k < i ==> a@[k] == b@[k],
        decreases a@.len() - i,
    {
        if a[i] != b[i] {
            return false;
        }
        i += 1;
    }
    assert(a@ =~= b@);
    true
}

// ---------------------------------------------------------------------------
// Decimal digits
// ---------------------------------------------------------------------------

pub open spec fn is_digit(c: char) -> bool {
    '0' <= c && c <= '9'
}

pub open spec fn all_digits(s: Seq<char>) -> bool {
    forall|i: int| 0 <= i < s.len() ==> is_digit(#[trigger] s[i])
}

/// The character of a decimal digit `d < 10`.
pub open spec fn digit_char(d: int) -> char {
    if d == 0 { '0' }
    else if d == 1 { '1' }
    else if d == 2 { '2' }
    else if d == 3 { '3' }
    else if d == 4 { '4' }
    else if d == 5 { '5' }
    else if d == 6 { '6' }
    else if d == 7 { '7' }
    else if d == 8 { '8' }
    else { '9' }
}

/// The value of a decimal digit character.
pub open spec fn digit_value(c: char) -> int {
    if c == '0' { 0 }
    else if c == '1' { 1 }
    else if c == '2' { 2 }
    else if c == '3' { 3 }
    else if c == '4' { 4 }
    else if c == '5' { 5 }
    else if c == '6' { 6 }
    else if c == '7' { 7 }
    else if c == '8' { 8 }
    else { 9 }
}

/// The shortest decimal numeral of `n` (no leading zeros, "0" for zero).
pub open spec fn decimal(n: nat) -> Seq<char>
    decreases n,
{
    if n < 10 {
        seq![digit_char(n as int)]
    } else {
        decimal(n / 10).push(digit_char((n % 10) as int))
    }
}

/// The value of a numeral made of decimal digits.
pub open spec fn digits_value(s: Seq<char>) -> nat
    decreases s.len(),
{
    if s.len() == 0 {
        0
    } else {
        (digits_value(s.drop_last()) * 10 + digit_value(s.last())) as nat
    }
}

/// `str::parse::<u64>`: an optional `+`, then one or more decimal digits whose
/// value fits in a `u64`.
pub open spec fn parse_u64_spec(s: Seq<char>) -> Option<u64> {
    let body = if s.len() > 0 && s[0] == '+' { s.drop_first() } else { s };
    if body.len() > 0 && all_digits(body) && digits_value(body) <= u64::MAX {
        Some(digits_value(body) as u64)
    } else {
        None
    }
}

pub proof fn lemma_digit_roundtrip(d: int)
    requires
        0 <= d < 10,
    ensures
        is_digit(digit_char(d)),
        digit_value(digit_char(d)) == d,
{
}

/// The numeral of `n` is made of digits, is non-empty and reads back as `n`.
pub proof fn lemma_decimal_value(n: nat)
    ensures
        decimal(n).len() >= 1,
        all_digits(decimal(n)),
        digits_value(decimal(n)) == n,
        decimal(n)[0] != '+',
    decreases n,
{
    if n < 10 {
        lemma_digit_roundtrip(n as int);
        let s = decimal(n);
        assert(s.drop_last() =~= Seq::<char>::empty());
        assert(digits_value(s.drop_last()) == 0);
        assert(digits_value(s) == digits_value(s.drop_last()) * 10 + digit_value(s.last()));
    } else {
        lemma_decimal_value(n / 10);
        lemma_digit_roundtrip((n % 10) as int);
        let s = decimal(n);
        assert(s.drop_last() =~= decimal(n / 10));
        assert forall|i: int| 0 <= i < s.len() implies is_digit(#[trigger] s[i]) by {
            if i < s.len() - 1 {
                assert(s[i] == decimal(n / 10)[i]);
            }
        }
        assert(s[0] == decimal(n / 10)[0]);
        assert(digits_value(s) == digits_value(s.drop_last()) * 10 + digit_value(s.last()));
        assert(n == (n / 10) * 10 + n % 10);
    }
}

/// Law: reading back the decimal numeral of any `u64` gives the number.
pub proof fn lemma_parse_decimal_roundtrip(n: u64)
    ensures
        parse_u64_spec(decimal(n as nat)) == Some(n),
{
    lemma_decimal_value(n as nat);
}

/// Law: distinct numbers have distinct numerals.
pub proof fn lemma_decimal_injective(a: nat, b: nat)
    requires
        decimal(a) == decimal(b),
    ensures
        a == b,
{
    lemma_decimal_value(a);
    lemma_decimal_value(b);
}

fn digit_of(d: u128) -> (c: char)
    requires
        d < 10,
    ensures
        c == digit_char(d as int),
{
    if d == 0 { '0' }
    else if d == 1 { '1' }
    else if d == 2 { '2' }
    else if d == 3 { '3' }
    else if d == 4 { '4' }
    else if d == 5 { '5' }
    else if d == 6 { '6' }
    else if d == 7 { '7' }
    else if d == 8 { '8' }
    else { '9' }
}

/// The decimal numeral of `n`, as characters.
pub fn decimal_chars(n: u128) -> (v: Vec<char>)
    ensures
        v@ == decimal(n as nat),
    decreases n,
{
    if n < 10 {
        let mut v: Vec<char> = Vec::new();
        v.push(digit_of(n));
        proof {
            assert(v@ =~= decimal(n as nat));
        }
        v
    } else {
        let mut v = decimal_chars(n / 10);
        v.push(digit_of(n % 10));
        v
    }
}

/// The decimal numeral of `n` (what `n.to_string()` gives).
pub fn u64_to_decimal(n: u64) -> (s: String)
    ensures
        s@ == decimal(n as nat),
{
    let v = decimal_chars(n as u128);
    string_of(v.as_slice())
}

fn digit_value_of(c: char) -> (d: u64)
    requires
        is_digit(c),
    ensures
        d == digit_value(c),
        d < 10,
{
    if c == '0' { 0 }
    else if c == '1' { 1 }
    else if c == '2' { 2 }
    else if c == '3' { 3 }
    else if c == '4' { 4 }
    else if c == '5' { 5 }
    else if c == '6' { 6 }
    else if c == '7' { 7 }
    else if c == '8' { 8 }
    else { 9 }
}

proof fn lemma_digits_value_monotone(s: Seq<char>, k: int)
    requires
        0 <= k <= s.len(),
        all_digits(s),
    ensures
        digits_value(s.take(k)) <= digits_value(s),
    decreases s.len() - k,
{
    if k < s.len() {
        lemma_digits_value_monotone(s, k + 1);
        assert(s.take(k + 1).drop_last() =~= s.take(k));
    } else {
        assert(s.take(k) =~= s);
    }
}

/// `s.parse::<u64>().ok()`.
pub fn parse_u64(s: &str) -> (r: Option<u64>)
    ensures
        r == parse_u64_spec(s@),
{
    let v = chars_of(s);
    let start: usize = if v.len() > 0 && v[0] == '+' { 1 } else { 0 };
    let ghost body = if s@.len() > 0 && s@[0] == '+' { s@.drop_first() } else { s@ };
    assert(body =~= v@.skip(start as int));
    if start >= v.len() {
        return None;
    }
    let mut acc: u64 = 0;
    let mut i: usize = start;
    while i < v.len()
        invariant
            start <= i <= v@.len(),
            start < v@.len(),
            v@ == s@,
            body == (if s@.len() > 0 && s@[0] == '+' { s@.drop_first() } else { s@ }),
            body =~= v@.skip(start as int),
            all_digits(body.take(i - start)),
            acc == digits_value(body.take(i - start)),
        decreases v@.len() - i,
    {
        let c = v[i];
        if !('0' <= c && c <= '9') {
            assert(body[i - start] == c);
            assert(!is_digit(body[i - start]));
            assert(!all_digits(body));
            return None;
        }
        let d = digit_value_of(c);
        assert(body.take(i + 1 - start).drop_last() =~= body.take(i - start));
        assert(body.take(i + 1 - start).last() == c);
        if acc > (u64::MAX - d) / 10 {
            proof {
                assert(acc * 10 + d > u64::MAX) by (nonlinear_arith)
                    requires acc > (u64::MAX - d) / 10, d < 10;
                assert(digits_value(body.take(i + 1 - start)) == acc * 10 + d);
                assert(digits_value(body.take(i + 1 - start)) > u64::MAX);
                assert forall|k: int| 0 <= k < body.take(i + 1 - start).len() implies
                    is_digit(#[trigger] body.take(i + 1 - start)[k]) by {
                    if k < i - start {
                        assert(body.take(i + 1 - start)[k] == body.take(i - start)[k]);
                    }
                }
                if all_digits(body) {
                    lemma_digits_value_monotone(body, i + 1 - start);
                }
            }
            return None;
        }
        assert(acc * 10 + d <= u64::MAX) by (nonlinear_arith)
            requires acc <= (u64::MAX - d) / 10, d < 10;
        acc = acc * 10 + d;
        proof {
            assert forall|k: int| 0 <= k < body.take(i + 1 - start).len() implies
                is_digit(#[trigger] body.take(i + 1 - start)[k]) by {
                if k < i - start {
                    assert(body.take(i + 1 - start)[k] == body.take(i - start)[k]);
                }
            }
        }
        i += 1;
    }
    assert(body.take(i - start) =~= body);
    Some(acc)
}

} // verus!

verus! {

// ---------------------------------------------------------------------------
// Searching
// ---------------------------------------------------------------------------

/// `i` is the position of the first occurrence of `c` in `s`.
pub open spec fn is_first_char(s: Seq<char>, c: char, i: int) -> bool {
    0 <= i < s.len() && s[i] == c && forall|j: int| 0 <= j < i ==> s[j] != c
}

/// Position of the first occurrence of `c` in `s` (`str::find` with a `char`).
pub open spec fn find_char(s: Seq<char>, c: char) -> Option<int> {
    if exists|i: int| is_first_char(s, c, i) {
        Some(choose|i: int| is_first_char(s, c, i))
    } else {
        None
    }
}

pub proof fn lemma_find_char(s: Seq<char>, c: char)
    ensures
        find_char(s, c) matches Some(i) ==> is_first_char(s, c, i),
        find_char(s, c) is None <==> !s.contains(c),
        forall|i: int| is_first_char(s, c, i) ==> find_char(s, c) == Some(i),
{
    if exists|i: int| is_first_char(s, c, i) {
        let k = choose|i: int| is_first_char(s, c, i);
        assert forall|i: int| is_first_char(s, c, i) implies i == k by {
            if i < k {
                assert(s[i] == c);
            } else if k < i {
                assert(s[k] == c);
            }
        }
    }
    if s.contains(c) {
        let w = choose|j: int| 0 <= j < s.len() && s[j] == c;
        lemma_first_exists(s, c, w);
    }
}

proof fn lemma_first_exists(s: Seq<char>, c: char, w: int)
    requires
        0 <= w < s.len(),
        s[w] == c,
    ensures
        exists|i: int| is_first_char(s, c, i),
    decreases w,
{
    if forall|j: int| 0 <= j < w ==> s[j] != c {
        assert(is_first_char(s, c, w));
    } else {
        let j = choose|j: int| 0 <= j < w && s[j] == c;
        lemma_first_exists(s, c, j);
    }
}

/// `p` occurs in `s` at position `i`.
pub open spec fn occurs_at(s: Seq<char>, p: Seq<char>, i: int) -> bool {
    0 <= i && i + p.len() <= s.len() && s.subrange(i, i + p.len()) == p
}

/// `i` is the position of the first occurrence of `p` in `s`.
pub open spec fn is_first_occurrence(s: Seq<char>, p: Seq<char>, i: int) -> bool {
    occurs_at(s, p, i) && forall|j: int| 0 <= j < i ==> !occurs_at(s, p, j)
}

/// Position of the first occurrence of `p` in `s` (`str::find` with a `&str`).
pub open spec fn find_sub(s: Seq<char>, p: Seq<char>) -> Option<int> {
    if exists|i: int| is_first_occurrence(s, p, i) {
        Some(choose|i: int| is_first_occurrence(s, p, i))
    } else {
        None
    }
}

pub proof fn lemma_find_sub_unique(s: Seq<char>, p: Seq<char>, i: int)
    requires
        is_first_occurrence(s, p, i),
    ensures
        find_sub(s, p) == Some(i),
{
    let k = choose|j: int| is_first_occurrence(s, p, j);
    if i < k {
        assert(occurs_at(s, p, i));
    } else if k < i {
        assert(occurs_at(s, p, k));
    }
}

/// Scans `v` from `from` on for the character `c`.
pub fn find_char_from(v: &[char], c: char, from: usize) -> (r: Option<usize>)
    requires
        from <= v@.len(),
    ensures
        match find_char(v@.skip(from as int), c) {
            Some(i) => r == Some((from + i) as usize),
            None => r is None,
        },
        r matches Some(e) ==> from <= e < v@.len() && is_first_char(v@.skip(from as int), c, e - from)
            && find_char(v@.skip(from as int), c) == Some(e - from),
        r is None ==> !v@.skip(from as int).contains(c),
{
    let ghost t = v@.skip(from as int);
    let mut i = from;
    while i < v.len()
        invariant
            from <= i <= v@.len(),
            t == v@.skip(from as int),
            forall|j: int| 0 <= j < i - from ==> t[j] != c,
        decreases v@.len() - i,
    {
        if v[i] == c {
            proof {
                assert(is_first_char(t, c, i - from));
                lemma_find_char(t, c);
            }
            return Some(i);
        }
        i += 1;
    }
    proof {
        lemma_find_char(t, c);
        if t.contains(c) {
            let j = choose|j: int| 0 <= j < t.len() && t[j] == c;
            assert(t[j] != c);
        }
    }
    None
}

/// Whether `p` occurs in `v` at position `i`.
pub fn matches_at(v: &[char], p: &[char], i: usize) -> (r: bool)
    ensures
        r == occurs_at(v@, p@, i as int),
{
    if i > v.len() || p.len() > v.len() - i {
        return false;
    }
    let mut k: usize = 0;
    while k < p.len()
        invariant
            i + p@.len() <= v@.len(),
            v@.len() == v.len(),
            k <= p@.len(),
            forall|j: int| 0 <= j < k ==> v@[i + j] == p@[j],
        decreases p@.len() - k,
    {
        assert(i + k < v.len());
        if v[i + k] != p[k] {
            assert(v@.subrange(i as int, i + p@.len())[k as int] != p@[k as int]);
            return false;
        }
        k += 1;
    }
    assert(v@.subrange(i as int, i + p@.len()) =~= p@);
    true
}

/// Position of the first occurrence of `p` in `v`.
pub fn find_sub_in(v: &[char], p: &[char]) -> (r: Option<usize>)
    ensures
        match find_sub(v@, p@) {
            Some(i) => r == Some(i as usize),
            None => r is None,
        },
        r matches Some(i) ==> is_first_occurrence(v@, p@, i as int) && find_sub(v@, p@) == Some(i as int),
{
    let mut i: usize = 0;
    while i < v.len()
        invariant
            i <= v@.len(),
            forall|j: int| 0 <= j < i ==> !occurs_at(v@, p@, j),
        decreases v@.len() - i,
    {
        if matches_at(v, p, i) {
            proof {
                assert(is_first_occurrence(v@, p@, i as int));
                lemma_find_sub_unique(v@, p@, i as int);
            }
            return Some(i);
        }
        i += 1;
    }
    if matches_at(v, p, i) {
        proof {
            assert(is_first_occurrence(v@, p@, i as int));
            lemma_find_sub_unique(v@, p@, i as int);
        }
        return Some(i);
    }
    proof {
        if exists|j: int| is_first_occurrence(v@, p@, j) {
            let j = choose|j: int| is_first_occurrence(v@, p@, j);
            assert(occurs_at(v@, p@, j));
            assert(j <= v@.len());
        }
    }
    None
}

/// `s` begins with `p`.
pub open spec fn starts_with(s: Seq<char>, p: Seq<char>) -> bool {
    p.len() <= s.len() && s.take(p.len() as int) == p
}

pub fn has_prefix(v: &[char], p: &[char]) -> (r: bool)
    ensures
        r == starts_with(v@, p@),
{
    let r = matches_at(v, p, 0);
    proof {
        if p@.len() <= v@.len() {
            assert(v@.subrange(0, p@.len() as int) == v@.take(p@.len() as int));
        }
    }
    r
}

/// `s` contains the character `c`.
pub fn contains_char(v: &[char], c: char) -> (r: bool)
    ensures
        r == v@.contains(c),
{
    let r = find_char_from(v, c, 0);
    proof {
        assert(v@.skip(0) =~= v@);
        lemma_find_char(v@, c);
    }
    r.is_some()
}

// ---------------------------------------------------------------------------
// Trimming
// ---------------------------------------------------------------------------

/// Unicode `White_Space`, as `char::is_whitespace` documents it.
pub open spec fn is_whitespace(c: char) -> bool {
    ('\u{9}' <= c && c <= '\u{d}') || c == ' ' || c == '\u{85}' || c == '\u{a0}'
        || c == '\u{1680}' || ('\u{2000}' <= c && c <= '\u{200a}') || c == '\u{2028}'
        || c == '\u{2029}' || c == '\u{202f}' || c == '\u{205f}' || c == '\u{3000}'
}

/// The characters that a trim removes.
pub enum Trim {
    Whitespace,
    Quote,
}

pub open spec fn trimmed_char(k: Trim, c: char) -> bool {
    match k {
        Trim::Whitespace => is_whitespace(c),
        Trim::Quote => c == '"',
    }
}

/// `s` without its leading characters of kind `k`.
pub open spec fn trim_start(s: Seq<char>, k: Trim) -> Seq<char>
    decreases s.len(),
{
    if s.len() > 0 && trimmed_char(k, s[0]) {
        trim_start(s.drop_first(), k)
    } else {
        s
    }
}

/// `s` without its trailing characters of kind `k`.
pub open spec fn trim_end(s: Seq<char>, k: Trim) -> Seq<char>
    decreases s.len(),
{
    if s.len() > 0 && trimmed_char(k, s.last()) {
        trim_end(s.drop_last(), k)
    } else {
        s
    }
}

/// `str::trim` (for `Whitespace`) and `str::trim_matches('"')` (for `Quote`).
pub open spec fn trim(s: Seq<char>, k: Trim) -> Seq<char> {
    trim_end(trim_start(s, k), k)
}

fn is_trimmed_char(k: &Trim, c: char) -> (r: bool)
    ensures
        r == trimmed_char(*k, c),
{
    match k {
        Trim::Whitespace => {
            ('\u{9}' <= c && c <= '\u{d}') || c == ' ' || c == '\u{85}' || c == '\u{a0}'
                || c == '\u{1680}' || ('\u{2000}' <= c && c <= '\u{200a}') || c == '\u{2028}'
                || c == '\u{2029}' || c == '\u{202f}' || c == '\u{205f}' || c == '\u{3000}'
        },
        Trim::Quote => c == '"',
    }
}

/// `v[lo..hi]` as a vector.
pub fn slice_chars(v: &[char], lo: usize, hi: usize) -> (r: Vec<char>)
    requires
        lo <= hi <= v@.len(),
    ensures
        r@ == v@.subrange(lo as int, hi as int),
{
    let mut r: Vec<char> = Vec::new();
    let mut i = lo;
    while i < hi
        invariant
            lo <= i <= hi <= v@.len(),
            r@ == v@.subrange(lo as int, i as int),
        decreases hi - i,
    {
        r.push(v[i]);
        assert(v@.subrange(lo as int, i + 1) =~= v@.subrange(lo as int, i as int).push(v@[i as int]));
        i += 1;
    }
    r
}

/// Trims characters of kind `k` from both ends of `v`.
pub fn trim_chars(v: &[char], k: Trim) -> (r: Vec<char>)
    ensures
        r@ == trim(v@, k),
{
    let mut lo: usize = 0;
    assert(v@.skip(0) =~= v@);
    while lo < v.len() && is_trimmed_char(&k, v[lo])
        invariant
            lo <= v@.len(),
            trim_start(v@, k) == trim_start(v@.skip(lo as int), k),
        decreases v@.len() - lo,
    {
        assert(v@.skip(lo as int).drop_first() =~= v@.skip(lo + 1));
        lo += 1;
    }
    let ghost a = v@.skip(lo as int);
    assert(trim_start(a, k) == a);
    let mut hi: usize = v.len();
    while hi > lo && is_trimmed_char(&k, v[hi - 1])
        invariant
            lo <= hi <= v@.len(),
            a == v@.skip(lo as int),
            trim_end(a, k) == trim_end(v@.subrange(lo as int, hi as int), k),
        decreases hi,
    {
        assert(v@.subrange(lo as int, hi as int).drop_last() =~= v@.subrange(lo as int, hi - 1));
        hi -= 1;
    }
    proof {
        if hi == v@.len() {
            assert(a =~= v@.subrange(lo as int, hi as int));
        }
    }
    slice_chars(v, lo, hi)
}

// ---------------------------------------------------------------------------
// ASCII case
// ---------------------------------------------------------------------------

/// `char::to_ascii_lowercase`.
pub open spec fn lower_ascii(c: char) -> char {
    if 'A' <= c && c <= 'Z' {
        ((c as u32) + 32) as char
    } else {
        c
    }
}

pub open spec fn lower_ascii_seq(s: Seq<char>) -> Seq<char> {
    Seq::new(s.len(), |i: int| lower_ascii(s[i]))
}

fn lower_ascii_char(c: char) -> (r: char)
    ensures
        r == lower_ascii(c),
{
    if 'A' <= c && c <= 'Z' {
        let b: u8 = (c as u32) as u8;
        let r = (b + 32) as char;
        assert(r == ((c as u32) + 32) as char);
        r
    } else {
        c
    }
}

/// `str::to_ascii_lowercase`, as characters.
pub fn lower_ascii_chars(v: &[char]) -> (r: Vec<char>)
    ensures
        r@ == lower_ascii_seq(v@),
{
    let mut r: Vec<char> = Vec::new();
    for i in 0..v.len()
        invariant
            r@ =~= lower_ascii_seq(v@.take(i as int)),
    {
        r.push(lower_ascii_char(v[i]));
        assert(lower_ascii_seq(v@.take(i + 1)) =~= lower_ascii_seq(v@.take(i as int)).push(lower_ascii(v@[i as int])));
    }
    assert(v@.take(v@.len() as int) =~= v@);
    r
}

} // verus!
