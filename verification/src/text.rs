use vstd::prelude::*;

verus! {

broadcast use vstd::string::group_string_axioms;

// ─── Character classes ──────────────────────────────────────────────

pub open spec fn is_ascii_alpha(c: char) -> bool {
    ('a' <= c && c <= 'z') || ('A' <= c && c <= 'Z')
}

pub open spec fn is_ascii_upper(c: char) -> bool {
    'A' <= c && c <= 'Z'
}

pub open spec fn is_ascii_lower(c: char) -> bool {
    'a' <= c && c <= 'z'
}

pub open spec fn is_ascii_char(c: char) -> bool {
    (c as u32) < 128
}

pub open spec fn all_ascii(s: Seq<char>) -> bool {
    forall|i: int| 0 <= i < s.len() ==> is_ascii_char(#[trigger] s[i])
}

pub open spec fn all_ascii_alpha(s: Seq<char>) -> bool {
    forall|i: int| 0 <= i < s.len() ==> is_ascii_alpha(#[trigger] s[i])
}

/// Unicode `White_Space` code points, the set that `char::is_whitespace` tests.
pub open spec fn is_whitespace(c: char) -> bool {
    let u = c as u32;
    ||| 0x09 <= u <= 0x0D
    ||| u == 0x20
    ||| u == 0x85
    ||| u == 0xA0
    ||| u == 0x1680
    ||| 0x2000 <= u <= 0x200A
    ||| u == 0x2028
    ||| u == 0x2029
    ||| u == 0x202F
    ||| u == 0x205F
    ||| u == 0x3000
}

pub fn ascii_alpha(c: char) -> (r: bool)
    ensures
        r == is_ascii_alpha(c),
{
    ('a' <= c && c <= 'z') || ('A' <= c && c <= 'Z')
}

pub fn ascii_upper(c: char) -> (r: bool)
    ensures
        r == is_ascii_upper(c),
{
    'A' <= c && c <= 'Z'
}

pub fn ascii_lower(c: char) -> (r: bool)
    ensures
        r == is_ascii_lower(c),
{
    'a' <= c && c <= 'z'
}

pub fn whitespace(c: char) -> (r: bool)
    ensures
        r == is_whitespace(c),
{
    let u = c as u32;
    (0x09 <= u && u <= 0x0D) || u == 0x20 || u == 0x85 || u == 0xA0 || u == 0x1680 || (0x2000 <= u
        && u <= 0x200A) || u == 0x2028 || u == 0x2029 || u == 0x202F || u == 0x205F || u == 0x3000
}

/// The character sequences of a list of strings.
pub open spec fn strings_view(v: Seq<String>) -> Seq<Seq<char>> {
    v.map_values(|e: String| e@)
}

// ─── Conversions between strings and characters ─────────────────────

/// The characters of `s`, in order.
pub fn chars_of(s: &str) -> (v: Vec<char>)
    ensures
        v@ == s@,
{
    let mut v: Vec<char> = Vec::new();
    for c in iter: s.chars()
        invariant
            iter.seq() == s@,
            v@ == s@.take(iter.index() as int),
    {
        v.push(c);
    }
    assert(v@ =~= s@);
    v
}

/// Appends one character (`String::push`).
#[verifier::external_body]
pub fn push_char(s: &mut String, c: char)
    ensures
        final(s)@ == old(s)@.push(c),
{
    s.push(c)
}

/// Appends `t` to `s`.
pub fn push_str(s: &mut String, t: &str)
    ensures
        final(s)@ == old(s)@ + t@,
{
    s.append(t);
}

/// A string holding exactly the given characters.
pub fn string_from_chars(v: &[char]) -> (s: String)
    ensures
        s@ == v@,
{
    let mut s = String::new();
    let mut k: usize = 0;
    while k < v.len()
        invariant
            0 <= k <= v@.len(),
            s@ == v@.take(k as int),
        decreases v@.len() - k,
    {
        push_char(&mut s, v[k]);
        assert(v@.take(k + 1) =~= v@.take(k as int).push(v@[k as int]));
        k = k + 1;
    }
    assert(v@.take(v@.len() as int) =~= v@);
    s
}

/// A string holding `v[from..to]`.
pub fn string_from_range(v: &[char], from: usize, to: usize) -> (s: String)
    requires
        from <= to <= v@.len(),
    ensures
        s@ == v@.subrange(from as int, to as int),
{
    let mut s = String::new();
    let mut k: usize = from;
    while k < to
        invariant
            from <= k <= to <= v@.len(),
            s@ == v@.subrange(from as int, k as int),
        decreases to - k,
    {
        push_char(&mut s, v[k]);
        assert(v@.subrange(from as int, k + 1) =~= v@.subrange(from as int, k as int).push(
            v@[k as int],
        ));
        k = k + 1;
    }
    s
}

pub fn copy_str(s: &str) -> (r: String)
    ensures
        r@ == s@,
{
    s.to_owned()
}

pub fn copy_string(s: &String) -> (r: String)
    ensures
        r@ == s@,
{
    s.clone()
}

/// Whether two strings hold the same characters.
pub fn str_equal(a: &str, b: &str) -> (r: bool)
    ensures
        r == (a@ == b@),
{
    let x = chars_of(a);
    let y = chars_of(b);
    chars_equal(x.as_slice(), y.as_slice())
}

pub fn chars_equal(a: &[char], b: &[char]) -> (r: bool)
    ensures
        r == (a@ == b@),
{
    if a.len() != b.len() {
        return false;
    }
    let mut k: usize = 0;
    while k < a.len()
        invariant
            a@.len() == b@.len(),
            0 <= k <= a@.len(),
            forall|t: int| 0 <= t < k ==> a@[t] == b@[t],
        decreases a@.len() - k,
    {
        if a[k] != b[k] {
            return false;
        }
        k = k + 1;
    }
    assert(a@ =~= b@);
    true
}

// ─── Trimming ───────────────────────────────────────────────────────

/// Number of leading whitespace characters of `s`.
pub open spec fn leading_ws(s: Seq<char>) -> nat
    decreases s.len(),
{
    if s.len() > 0 && is_whitespace(s[0]) {
        1 + leading_ws(s.drop_first())
    } else {
        0
    }
}

/// Number of trailing whitespace characters of `s`.
pub open spec fn trailing_ws(s: Seq<char>) -> nat
    decreases s.len(),
{
    if s.len() > 0 && is_whitespace(s.last()) {
        1 + trailing_ws(s.drop_last())
    } else {
        0
    }
}

/// `s` without leading and trailing whitespace (`str::trim`).
pub open spec fn trim(s: Seq<char>) -> Seq<char> {
    let front = s.skip(leading_ws(s) as int);
    front.take(front.len() - trailing_ws(front))
}

proof fn lemma_leading_ws_bound(s: Seq<char>)
    ensures
        leading_ws(s) <= s.len(),
    decreases s.len(),
{
    if s.len() > 0 && is_whitespace(s[0]) {
        lemma_leading_ws_bound(s.drop_first());
    }
}

proof fn lemma_trailing_ws_bound(s: Seq<char>)
    ensures
        trailing_ws(s) <= s.len(),
    decreases s.len(),
{
    if s.len() > 0 && is_whitespace(s.last()) {
        lemma_trailing_ws_bound(s.drop_last());
    }
}

/// Trimming ASCII text leaves ASCII text.
pub proof fn lemma_trim_keeps_ascii(s: Seq<char>)
    requires
        all_ascii(s),
    ensures
        all_ascii(trim(s)),
{
    lemma_leading_ws_bound(s);
    let front = s.skip(leading_ws(s) as int);
    lemma_trailing_ws_bound(front);
    assert forall|k: int| 0 <= k < trim(s).len() implies is_ascii_char(#[trigger] trim(s)[k]) by {
        assert(trim(s)[k] == s[k + leading_ws(s)]);
    }
}

proof fn lemma_leading_ws_step(s: Seq<char>, k: int)
    requires
        0 <= k < s.len(),
        forall|t: int| 0 <= t < k ==> is_whitespace(#[trigger] s[t]),
    ensures
        is_whitespace(s[k]) ==> leading_ws(s) >= k + 1,
        !is_whitespace(s[k]) ==> leading_ws(s) == k,
    decreases k,
{
    if k > 0 {
        lemma_leading_ws_step(s.drop_first(), k - 1);
    }
}

proof fn lemma_leading_ws_all(s: Seq<char>)
    requires
        forall|t: int| 0 <= t < s.len() ==> is_whitespace(#[trigger] s[t]),
    ensures
        leading_ws(s) == s.len(),
    decreases s.len(),
{
    if s.len() > 0 {
        lemma_leading_ws_all(s.drop_first());
    }
}

proof fn lemma_trailing_ws_step(s: Seq<char>, k: int)
    requires
        0 <= k < s.len(),
        forall|t: int| k < t < s.len() ==> is_whitespace(#[trigger] s[t]),
    ensures
        is_whitespace(s[k]) ==> trailing_ws(s) >= s.len() - k,
        !is_whitespace(s[k]) ==> trailing_ws(s) == s.len() - 1 - k,
    decreases s.len() - k,
{
    if k < s.len() - 1 {
        lemma_trailing_ws_step(s.drop_last(), k);
    }
}

proof fn lemma_trailing_ws_all(s: Seq<char>)
    requires
        forall|t: int| 0 <= t < s.len() ==> is_whitespace(#[trigger] s[t]),
    ensures
        trailing_ws(s) == s.len(),
    decreases s.len(),
{
    if s.len() > 0 {
        lemma_trailing_ws_all(s.drop_last());
    }
}

/// Bounds `[start, end)` of the trimmed part of `v`.
pub fn trim_bounds(v: &[char]) -> (r: (usize, usize))
    ensures
        r.0 <= r.1 <= v@.len(),
        v@.subrange(r.0 as int, r.1 as int) == trim(v@),
{
    let n = v.len();
    let mut start: usize = 0;
    while start < n && whitespace(v[start])
        invariant
            0 <= start <= n == v@.len(),
            forall|t: int| 0 <= t < start ==> is_whitespace(#[trigger] v@[t]),
        decreases n - start,
    {
        start = start + 1;
    }
    proof {
        if start < n {
            lemma_leading_ws_step(v@, start as int);
        } else {
            lemma_leading_ws_all(v@);
        }
    }
    let ghost front = v@.skip(start as int);
    let mut end: usize = n;
    while end > start && whitespace(v[end - 1])
        invariant
            start <= end <= n == v@.len(),
            front == v@.skip(start as int),
            forall|t: int| end <= t < n ==> is_whitespace(#[trigger] v@[t]),
        decreases end - start,
    {
        end = end - 1;
    }
    proof {
        if end > start {
            assert forall|t: int| (end - start) as int <= t < front.len() implies is_whitespace(
                #[trigger] front[t],
            ) by {
                assert(front[t] == v@[t + start]);
            }
            lemma_trailing_ws_step(front, (end - 1 - start) as int);
        } else {
            assert forall|t: int| 0 <= t < front.len() implies is_whitespace(#[trigger] front[t]) by {
                assert(front[t] == v@[t + start]);
            }
            lemma_trailing_ws_all(front);
        }
        assert(v@.subrange(start as int, end as int) =~= front.take(front.len() - trailing_ws(front)));
    }
    (start, end)
}

/// `s` with leading and trailing whitespace removed.
pub fn trimmed(s: &str) -> (r: String)
    ensures
        r@ == trim(s@),
{
    let v = chars_of(s);
    let (a, b) = trim_bounds(v.as_slice());
    string_from_range(v.as_slice(), a, b)
}

// ─── Lines ──────────────────────────────────────────────────────────

pub open spec fn strip_cr(line: Seq<char>) -> Seq<char> {
    if line.len() > 0 && line.last() == '\r' { line.drop_last() } else { line }
}

/// Completed lines and the pending partial line after reading `s`.
pub open spec fn lines_state(s: Seq<char>) -> (Seq<Seq<char>>, Seq<char>)
    decreases s.len(),
{
    if s.len() == 0 {
        (Seq::empty(), Seq::empty())
    } else {
        let (done, cur) = lines_state(s.drop_last());
        if s.last() == '\n' {
            (done.push(strip_cr(cur)), Seq::empty())
        } else {
            (done, cur.push(s.last()))
        }
    }
}

/// The lines of `s` as `str::lines` yields them: split at `\n`, a `\r`
/// right before the `\n` dropped, no line after a final `\n`.
pub open spec fn lines_of(s: Seq<char>) -> Seq<Seq<char>> {
    let (done, cur) = lines_state(s);
    if cur.len() > 0 { done.push(cur) } else { done }
}

/// The lines of `s`, each as a list of characters.
pub fn split_lines(s: &str) -> (lines: Vec<Vec<char>>)
    ensures
        lines@.len() == lines_of(s@).len(),
        forall|i: int| 0 <= i < lines@.len() ==> #[trigger] lines@[i]@ == lines_of(s@)[i],
{
    let v = chars_of(s);
    let mut lines: Vec<Vec<char>> = Vec::new();
    let mut cur: Vec<char> = Vec::new();
    let mut k: usize = 0;
    while k < v.len()
        invariant
            0 <= k <= v@.len(),
            v@ == s@,
            lines@.len() == lines_state(v@.take(k as int)).0.len(),
            forall|i: int|
                0 <= i < lines@.len() ==> #[trigger] lines@[i]@ == lines_state(v@.take(k as int)).0[i],
            cur@ == lines_state(v@.take(k as int)).1,
        decreases v@.len() - k,
    {
        let c = v[k];
        assert(v@.take(k + 1).drop_last() =~= v@.take(k as int));
        if c == '\n' {
            let n = cur.len();
            if n > 0 && cur[n - 1] == '\r' {
                cur.pop();
            }
            lines.push(cur);
            cur = Vec::new();
        } else {
            cur.push(c);
        }
        k = k + 1;
    }
    assert(v@.take(v@.len() as int) =~= v@);
    if cur.len() > 0 {
        lines.push(cur);
    }
    lines
}

// ─── Case mapping ───────────────────────────────────────────────────

pub open spec fn ascii_lower_char(c: char) -> char {
    if is_ascii_upper(c) { ((c as u32) + 32) as char } else { c }
}

pub open spec fn ascii_upper_char(c: char) -> char {
    if is_ascii_lower(c) { ((c as u32) - 32) as char } else { c }
}

/// `s` with ASCII capitals turned into small letters.
pub open spec fn ascii_lowercase(s: Seq<char>) -> Seq<char> {
    s.map_values(|c: char| ascii_lower_char(c))
}

pub open spec fn ascii_uppercase(s: Seq<char>) -> Seq<char> {
    s.map_values(|c: char| ascii_upper_char(c))
}

pub fn ascii_lowercase_of(v: &[char]) -> (s: String)
    ensures
        s@ == ascii_lowercase(v@),
{
    let mut s = String::new();
    let mut k: usize = 0;
    while k < v.len()
        invariant
            0 <= k <= v@.len(),
            s@ == ascii_lowercase(v@.take(k as int)),
        decreases v@.len() - k,
    {
        let c = v[k];
        let l = if 'A' <= c && c <= 'Z' {
            let u = (c as u8) + 32;
            u as char
        } else {
            c
        };
        push_char(&mut s, l);
        assert(ascii_lowercase(v@.take(k + 1)) =~= ascii_lowercase(v@.take(k as int)).push(l));
        k = k + 1;
    }
    assert(v@.take(v@.len() as int) =~= v@);
    s
}

/// What `str::to_lowercase` returns for a string: its Unicode lowercase mapping.
pub uninterp spec fn unicode_lowercase(s: Seq<char>) -> Seq<char>;

/// What `str::to_uppercase` returns for a string: its Unicode uppercase mapping.
pub uninterp spec fn unicode_uppercase(s: Seq<char>) -> Seq<char>;

/// What `char::to_uppercase` yields for one character.
pub uninterp spec fn unicode_char_uppercase(c: char) -> Seq<char>;

/// The lowercase form of a string: ASCII text has its capitals lowered,
/// other text gets the Unicode mapping.
pub open spec fn lowercase_of(s: Seq<char>) -> Seq<char> {
    if all_ascii(s) { ascii_lowercase(s) } else { unicode_lowercase(s) }
}

/// The uppercase form of a string: ASCII text has its small letters raised,
/// other text gets the Unicode mapping.
pub open spec fn uppercase_of(s: Seq<char>) -> Seq<char> {
    if all_ascii(s) { ascii_uppercase(s) } else { unicode_uppercase(s) }
}

/// The uppercase form of one character: a raised small letter for ASCII,
/// the Unicode mapping otherwise.
pub open spec fn char_uppercase_of(c: char) -> Seq<char> {
    if is_ascii_char(c) { seq![ascii_upper_char(c)] } else { unicode_char_uppercase(c) }
}

/// `str::to_lowercase`. Its result is the Unicode lowercase mapping of the
/// argument, named here; on ASCII-only text it lowers the capitals A-Z and
/// leaves every other character as it is, as the standard documents.
#[verifier::external_body]
pub fn to_lowercase(s: &str) -> (r: String)
    ensures
        r@ == unicode_lowercase(s@),
        all_ascii(s@) ==> r@ == ascii_lowercase(s@),
{
    s.to_lowercase()
}

/// `str::to_uppercase`. Its result is the Unicode uppercase mapping of the
/// argument, named here; on ASCII-only text it raises a-z and leaves every
/// other character as it is.
#[verifier::external_body]
pub fn to_uppercase(s: &str) -> (r: String)
    ensures
        r@ == unicode_uppercase(s@),
        all_ascii(s@) ==> r@ == ascii_uppercase(s@),
{
    s.to_uppercase()
}

/// `char::to_uppercase`, collected into a string. The characters are the
/// Unicode uppercase mapping of `c`, named here; for an ASCII character it is
/// the single character `c` raised if it is a small letter.
#[verifier::external_body]
pub fn char_to_uppercase(c: char) -> (r: String)
    ensures
        r@ == unicode_char_uppercase(c),
        is_ascii_char(c) ==> r@ == seq![ascii_upper_char(c)],
{
    c.to_uppercase().collect()
}

// ─── Decimal numbers ────────────────────────────────────────────────

pub open spec fn digit_char(d: nat) -> char {
    (('0' as u32) + d) as char
}

/// Decimal representation of `n`, without leading zeros.
pub open spec fn decimal(n: nat) -> Seq<char>
    decreases n,
{
    if n < 10 {
        seq![digit_char(n)]
    } else {
        decimal(n / 10).push(digit_char(n % 10))
    }
}

/// `n` written in decimal.
pub fn u64_to_decimal(n: u64) -> (s: String)
    ensures
        s@ == decimal(n as nat),
    decreases n,
{
    let d = (n % 10) as u8;
    let c = (48u8 + d) as char;
    if n < 10 {
        let mut s = String::new();
        push_char(&mut s, c);
        s
    } else {
        let mut s = u64_to_decimal(n / 10);
        push_char(&mut s, c);
        s
    }
}

} // verus!
