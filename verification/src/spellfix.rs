use vstd::prelude::*;
use vstd::utf8::encode_utf8;
use crate::text::{
    all_ascii_alpha, ascii_alpha, ascii_lower, ascii_upper, char_to_uppercase, chars_of, copy_str,
    is_ascii_alpha, is_ascii_lower, is_ascii_upper, lines_of, push_str, split_lines, string_from_chars,
    string_from_range, to_uppercase, trim,
    copy_string, uppercase_of, char_uppercase_of, lowercase_of, all_ascii, is_ascii_char, lemma_trim_keeps_ascii, ascii_upper_char, ascii_lower_char, ascii_lowercase, ascii_lowercase_of, trim_bounds, trimmed, to_lowercase,
};

verus! {

broadcast use vstd::string::group_string_axioms;

// ─── Edit distance ──────────────────────────────────────────────────

pub open spec fn min_nat(x: nat, y: nat) -> nat {
    if x <= y { x } else { y }
}

/// Edit distance between the first `i` bytes of `a` and the first `j` bytes of `b`
/// (insertions, deletions and substitutions each cost one).
pub open spec fn edit_distance_prefix(a: Seq<u8>, b: Seq<u8>, i: nat, j: nat) -> nat
    decreases i + j,
{
    if i == 0 {
        j
    } else if j == 0 {
        i
    } else {
        let cost: nat = if a[i - 1] == b[j - 1] { 0 } else { 1 };
        min_nat(
            min_nat(
                edit_distance_prefix(a, b, (i - 1) as nat, (j - 1) as nat) + cost,
                edit_distance_prefix(a, b, (i - 1) as nat, j) + 1,
            ),
            edit_distance_prefix(a, b, i, (j - 1) as nat) + 1,
        )
    }
}

/// Levenshtein edit distance between two byte strings.
pub open spec fn edit_distance(a: Seq<u8>, b: Seq<u8>) -> nat {
    edit_distance_prefix(a, b, a.len(), b.len())
}

/// The smallest entry of row `i` of the edit-distance table, over columns `0..=j`.
pub open spec fn row_min(a: Seq<u8>, b: Seq<u8>, i: nat, j: nat) -> nat
    decreases j,
{
    if j == 0 {
        edit_distance_prefix(a, b, i, 0)
    } else {
        min_nat(row_min(a, b, i, (j - 1) as nat), edit_distance_prefix(a, b, i, j))
    }
}

pub open spec fn abs_diff(x: nat, y: nat) -> nat {
    if x >= y { (x - y) as nat } else { (y - x) as nat }
}

/// Some row of the table already has all its entries above `max`.
pub open spec fn some_row_exceeds(a: Seq<u8>, b: Seq<u8>, max: nat) -> bool {
    exists|i: nat| 1 <= i <= a.len() && #[trigger] row_min(a, b, i, b.len()) > max
}

/// What the bounded edit distance reports: the exact distance, or `max + 1`
/// once the computation can tell that the distance is above `max`.
pub open spec fn bounded_edit_distance(a: Seq<u8>, b: Seq<u8>, max: nat) -> nat {
    if abs_diff(a.len(), b.len()) > max {
        max + 1
    } else if a == b {
        0
    } else if some_row_exceeds(a, b, max) {
        max + 1
    } else {
        edit_distance(a, b)
    }
}

fn bytes_equal(a: &[u8], b: &[u8]) -> (r: bool)
    ensures
        r == (a@ == b@),
{
    if a.len() != b.len() {
        return false;
    }
    let mut k: usize = 0;
    while k < a.len()
        invariant
            a@.len() == b@.len(),
            0 <= k <= a@.len(),
            forall|t: int| 0 <= t < k ==> a@[t] == b@[t],
        decreases a@.len() - k,
    {
        if a[k] != b[k] {
            return false;
        }
        k = k + 1;
    }
    assert(a@ =~= b@);
    true
}

/// Bounded Levenshtein distance over raw bytes.
pub fn levenshtein_bytes(a: &[u8], b: &[u8], max: usize) -> (d: usize)
    requires
        max < usize::MAX,
        a@.len() < usize::MAX,
        b@.len() < usize::MAX,
    ensures
        d == bounded_edit_distance(a@, b@, max as nat),
{
    let a_len = a.len();
    let b_len = b.len();
    let diff = if a_len >= b_len { a_len - b_len } else { b_len - a_len };
    if diff > max {
        return max + 1;
    }
    if bytes_equal(a, b) {
        return 0;
    }
    let ghost sa = a@;
    let ghost sb = b@;
    assert(abs_diff(sa.len(), sb.len()) <= max);

    let mut prev_row: Vec<usize> = Vec::new();
    let mut k: usize = 0;
    while k <= b_len
        invariant
            b_len == sb.len(),
            b_len < usize::MAX,
            0 <= k <= b_len + 1,
            prev_row@.len() == k,
            forall|t: int| 0 <= t < k ==> prev_row@[t] == edit_distance_prefix(sa, sb, 0, t as nat),
        decreases b_len + 1 - k,
    {
        prev_row.push(k);
        k = k + 1;
    }

    let mut i: usize = 1;
    while i <= a_len
        invariant
            a_len == sa.len(),
            b_len == sb.len(),
            a_len < usize::MAX,
            b_len < usize::MAX,
            a@ == sa,
            b@ == sb,
            max < usize::MAX,
            abs_diff(sa.len(), sb.len()) <= max,
            sa != sb,
            1 <= i <= a_len + 1,
            prev_row@.len() == b_len + 1,
            forall|t: int| 0 <= t <= b_len ==> prev_row@[t] == edit_distance_prefix(sa, sb, (i - 1) as nat, t as nat),
            forall|r: nat| 1 <= r < i ==> #[trigger] row_min(sa, sb, r, b_len as nat) <= max,
        decreases a_len + 1 - i,
    {
        let ghost row = i as nat;
        let mut prev_diag = prev_row[0];
        prev_row.set(0, i);
        let a_byte = a[i - 1];
        let mut rmin = prev_row[0];
        assert(rmin == row_min(sa, sb, row, 0));

        let mut j: usize = 1;
        while j <= b_len
            invariant
                a_len == sa.len(),
                b_len == sb.len(),
                a_len < usize::MAX,
                b_len < usize::MAX,
                b@ == sb,
                row == i as nat,
                1 <= i <= a_len,
                a_byte == sa[i - 1],
                1 <= j <= b_len + 1,
                prev_row@.len() == b_len + 1,
                forall|t: int| 0 <= t < j ==> prev_row@[t] == edit_distance_prefix(sa, sb, row, t as nat),
                forall|t: int| j <= t <= b_len ==> prev_row@[t] == edit_distance_prefix(sa, sb, (row - 1) as nat, t as nat),
                prev_diag == edit_distance_prefix(sa, sb, (row - 1) as nat, (j - 1) as nat),
                rmin == row_min(sa, sb, row, (j - 1) as nat),
            decreases b_len + 1 - j,
        {
            proof {
                lemma_prefix_bound(sa, sb, (row - 1) as nat, (j - 1) as nat);
                lemma_prefix_bound(sa, sb, (row - 1) as nat, j as nat);
                lemma_prefix_bound(sa, sb, row, (j - 1) as nat);
            }
            let old_diag = prev_diag;
            prev_diag = prev_row[j];
            let cost: usize = if a_byte == b[j - 1] { 0 } else { 1 };
            let via_sub = old_diag + cost;
            let via_del = prev_row[j] + 1;
            let via_ins = prev_row[j - 1] + 1;
            let m1 = if via_sub <= via_del { via_sub } else { via_del };
            let m = if m1 <= via_ins { m1 } else { via_ins };
            prev_row.set(j, m);
            if m < rmin {
                rmin = m;
            }
            j = j + 1;
        }

        if rmin > max {
            proof {
                assert(row_min(sa, sb, row, b_len as nat) > max);
                assert(some_row_exceeds(sa, sb, max as nat));
            }
            return max + 1;
        }
        i = i + 1;
    }
    proof {
        assert(!some_row_exceeds(sa, sb, max as nat));
    }
    prev_row[b_len]
}

/// Every entry of the edit-distance table is at most the larger of its indices.
pub proof fn lemma_prefix_bound(a: Seq<u8>, b: Seq<u8>, i: nat, j: nat)
    ensures
        edit_distance_prefix(a, b, i, j) <= if i >= j { i } else { j },
    decreases i + j,
{
    if i > 0 && j > 0 {
        lemma_prefix_bound(a, b, (i - 1) as nat, (j - 1) as nat);
        lemma_prefix_bound(a, b, (i - 1) as nat, j);
        lemma_prefix_bound(a, b, i, (j - 1) as nat);
    }
}


proof fn lemma_row_min_le_entry(a: Seq<u8>, b: Seq<u8>, i: nat, n: nat, k: nat)
    requires
        k <= n,
    ensures
        row_min(a, b, i, n) <= edit_distance_prefix(a, b, i, k),
    decreases n,
{
    if n > 0 && k < n {
        lemma_row_min_le_entry(a, b, i, (n - 1) as nat, k);
    }
}

proof fn lemma_entry_ge_previous_row(a: Seq<u8>, b: Seq<u8>, i: nat, j: nat)
    requires
        i >= 1,
        j <= b.len(),
    ensures
        edit_distance_prefix(a, b, i, j) >= row_min(a, b, (i - 1) as nat, b.len()),
    decreases j,
{
    if j == 0 {
        lemma_row_min_le_entry(a, b, (i - 1) as nat, b.len(), 0);
    } else {
        lemma_entry_ge_previous_row(a, b, i, (j - 1) as nat);
        lemma_row_min_le_entry(a, b, (i - 1) as nat, b.len(), (j - 1) as nat);
        lemma_row_min_le_entry(a, b, (i - 1) as nat, b.len(), j);
    }
}

proof fn lemma_row_min_ge_previous_row(a: Seq<u8>, b: Seq<u8>, i: nat, j: nat)
    requires
        i >= 1,
        j <= b.len(),
    ensures
        row_min(a, b, i, j) >= row_min(a, b, (i - 1) as nat, b.len()),
    decreases j,
{
    lemma_entry_ge_previous_row(a, b, i, j);
    if j > 0 {
        lemma_row_min_ge_previous_row(a, b, i, (j - 1) as nat);
    }
}

proof fn lemma_row_min_monotone(a: Seq<u8>, b: Seq<u8>, r: nat, i: nat)
    requires
        r <= i,
    ensures
        row_min(a, b, r, b.len()) <= row_min(a, b, i, b.len()),
    decreases i - r,
{
    if r < i {
        lemma_row_min_monotone(a, b, r, (i - 1) as nat);
        lemma_row_min_ge_previous_row(a, b, i, b.len());
    }
}

proof fn lemma_distance_at_least_length_gap(a: Seq<u8>, b: Seq<u8>, i: nat, j: nat)
    ensures
        edit_distance_prefix(a, b, i, j) >= abs_diff(i, j),
    decreases i + j,
{
    if i > 0 && j > 0 {
        lemma_distance_at_least_length_gap(a, b, (i - 1) as nat, (j - 1) as nat);
        lemma_distance_at_least_length_gap(a, b, (i - 1) as nat, j);
        lemma_distance_at_least_length_gap(a, b, i, (j - 1) as nat);
    }
}

proof fn lemma_distance_to_self(a: Seq<u8>, i: nat)
    requires
        i <= a.len(),
    ensures
        edit_distance_prefix(a, a, i, i) == 0,
    decreases i,
{
    if i > 0 {
        lemma_distance_to_self(a, (i - 1) as nat);
    }
}

/// The bounded distance tells exactly whether two byte strings are within `max`
/// edits of each other, and equals their edit distance whenever they are.
pub proof fn law_bounded_distance_is_exact_within_bound(a: Seq<u8>, b: Seq<u8>, max: nat)
    ensures
        edit_distance(a, b) <= max ==> bounded_edit_distance(a, b, max) == edit_distance(a, b),
        edit_distance(a, b) > max ==> bounded_edit_distance(a, b, max) > max,
{
    lemma_distance_at_least_length_gap(a, b, a.len(), b.len());
    if a == b {
        lemma_distance_to_self(a, a.len());
    }
    if edit_distance(a, b) <= max && some_row_exceeds(a, b, max) {
        let i = choose|i: nat| 1 <= i <= a.len() && #[trigger] row_min(a, b, i, b.len()) > max;
        lemma_row_min_monotone(a, b, i, a.len());
        lemma_row_min_le_entry(a, b, a.len(), b.len(), b.len());
    }
}

/// The distance between a string and itself is zero.
pub proof fn law_distance_to_self_is_zero(a: Seq<u8>, max: nat)
    ensures
        edit_distance(a, a) == 0,
        bounded_edit_distance(a, a, max) == 0,
{
    lemma_distance_to_self(a, a.len());
}


/// Bounded Levenshtein distance between the UTF-8 bytes of `a` and `b`:
/// the edit distance when it is at most `max`, and a value above `max`
/// (`max + 1` once the table shows it) otherwise.
pub fn levenshtein(a: &str, b: &str, max: usize) -> (d: usize)
    requires
        max < usize::MAX,
        encode_utf8(a@).len() < usize::MAX,
        encode_utf8(b@).len() < usize::MAX,
    ensures
        d == bounded_edit_distance(encode_utf8(a@), encode_utf8(b@), max as nat),
{
    levenshtein_bytes(a.as_bytes(), b.as_bytes(), max)
}

// ─── Tokenizer ──────────────────────────────────────────────────────

/// A run of mixed-language text.
pub enum Token {
    /// Consecutive ASCII letters.
    EnglishWord(String),
    /// Everything else (CJK, digits, punctuation, whitespace).
    Other(String),
}

impl Token {
    pub open spec fn text(self) -> Seq<char> {
        match self {
            Token::EnglishWord(s) => s@,
            Token::Other(s) => s@,
        }
    }

    pub open spec fn is_word(self) -> bool {
        self is EnglishWord
    }
}

/// Splits `s` into maximal runs of characters that agree on being ASCII letters.
pub open spec fn segments(s: Seq<char>) -> Seq<Seq<char>>
    decreases s.len(),
{
    if s.len() == 0 {
        Seq::empty()
    } else {
        let p = segments(s.drop_last());
        let c = s.last();
        if p.len() > 0 && p.last().len() > 0 && is_ascii_alpha(p.last().last()) == is_ascii_alpha(c) {
            p.update(p.len() - 1, p.last().push(c))
        } else {
            p.push(seq![c])
        }
    }
}

/// Every run is non-empty, the runs put together give back `s`, all
/// characters of a run agree on being ASCII letters, and neighbouring runs
/// differ in that.
pub open spec fn is_run_split(s: Seq<char>, runs: Seq<Seq<char>>) -> bool {
    &&& runs.flatten() == s
    &&& forall|i: int| 0 <= i < runs.len() ==> (#[trigger] runs[i]).len() > 0
    &&& forall|i: int, k: int|
        0 <= i < runs.len() && 0 <= k < runs[i].len() ==> is_ascii_alpha(#[trigger] runs[i][k])
            == is_ascii_alpha(runs[i][0])
    &&& forall|i: int|
        0 <= i < runs.len() - 1 ==> is_ascii_alpha((#[trigger] runs[i])[0]) != is_ascii_alpha(
            runs[i + 1][0],
        )
}

proof fn lemma_flatten_push(p: Seq<Seq<char>>, x: Seq<char>)
    ensures
        p.push(x).flatten() == p.flatten() + x,
{
    p.lemma_flatten_and_flatten_alt_are_equivalent();
    p.push(x).lemma_flatten_and_flatten_alt_are_equivalent();
    assert(p.push(x).drop_last() =~= p);
}

/// Tokenization loses nothing and cuts exactly where the text switches
/// between ASCII letters and other characters.
pub proof fn law_segments_split_text(s: Seq<char>)
    ensures
        is_run_split(s, segments(s)),
    decreases s.len(),
{
    if s.len() > 0 {
        let q = s.drop_last();
        law_segments_split_text(q);
        let p = segments(q);
        let c = s.last();
        assert(s =~= q.push(c));
        if p.len() > 0 && p.last().len() > 0 && is_ascii_alpha(p.last().last()) == is_ascii_alpha(c) {
            let r = p.update(p.len() - 1, p.last().push(c));
            let init = p.drop_last();
            assert(p =~= init.push(p.last()));
            assert(r =~= init.push(p.last().push(c)));
            lemma_flatten_push(init, p.last());
            lemma_flatten_push(init, p.last().push(c));
            assert(r.flatten() =~= s);
            assert forall|i: int, k: int|
                0 <= i < r.len() && 0 <= k < r[i].len() implies is_ascii_alpha(#[trigger] r[i][k])
                == is_ascii_alpha(r[i][0]) by {
                if i == r.len() - 1 && k == r[i].len() - 1 {
                    assert(p.last()[p.last().len() - 1] == p.last().last());
                }
            }
        } else {
            let r = p.push(seq![c]);
            lemma_flatten_push(p, seq![c]);
            assert(r.flatten() =~= s);
            if p.len() > 0 {
                let l = p.last();
                assert(is_ascii_alpha(l[l.len() - 1]) == is_ascii_alpha(l[0]));
            }
        }
    } else {
        assert(segments(s) =~= Seq::<Seq<char>>::empty());
        assert(segments(s).flatten() =~= s);
    }
}

proof fn lemma_run_split_tail(s: Seq<char>, a: Seq<Seq<char>>)
    requires
        is_run_split(s, a),
        a.len() > 0,
    ensures
        s == a[0] + a.drop_first().flatten(),
        is_run_split(a.drop_first().flatten(), a.drop_first()),
{
    let t = a.drop_first();
    assert forall|i: int, k: int| 0 <= i < t.len() && 0 <= k < t[i].len() implies is_ascii_alpha(
        #[trigger] t[i][k],
    ) == is_ascii_alpha(t[i][0]) by {
        assert(t[i] == a[i + 1]);
        assert(is_ascii_alpha(a[i + 1][k]) == is_ascii_alpha(a[i + 1][0]));
    }
    assert forall|i: int| 0 <= i < t.len() implies (#[trigger] t[i]).len() > 0 by {
        assert(t[i] == a[i + 1]);
    }
    assert forall|i: int| 0 <= i < t.len() - 1 implies is_ascii_alpha((#[trigger] t[i])[0]) != is_ascii_alpha(
        t[i + 1][0],
    ) by {
        assert(t[i] == a[i + 1] && t[i + 1] == a[i + 2]);
    }
}

/// A text splits into runs in one way only.
proof fn lemma_run_split_unique(s: Seq<char>, a: Seq<Seq<char>>, b: Seq<Seq<char>>)
    requires
        is_run_split(s, a),
        is_run_split(s, b),
    ensures
        a == b,
    decreases a.len(),
{
    if a.len() == 0 {
        if b.len() > 0 {
            lemma_run_split_tail(s, b);
            assert(b[0].len() > 0);
        }
        assert(a =~= b);
    } else {
        lemma_run_split_tail(s, a);
        assert(a[0].len() > 0);
        if b.len() == 0 {
            assert(s.len() == 0);
        }
        lemma_run_split_tail(s, b);
        let x = a[0];
        let y = b[0];
        let ta = a.drop_first();
        let tb = b.drop_first();
        if x.len() < y.len() {
            if ta.len() == 0 {
                assert(s.len() == x.len());
            }
            lemma_run_split_tail(ta.flatten(), ta);
            assert(ta[0].len() > 0);
            assert(s[x.len() as int] == ta[0][0]);
            assert(s[x.len() as int] == y[x.len() as int]);
            assert(is_ascii_alpha(y[x.len() as int]) == is_ascii_alpha(y[0]));
            assert(ta[0] == a[1]);
            assert(is_ascii_alpha(a[0][0]) != is_ascii_alpha(a[1][0]));
            assert(s[0] == x[0] && s[0] == y[0]);
            assert(false);
        }
        if y.len() < x.len() {
            if tb.len() == 0 {
                assert(s.len() == y.len());
            }
            lemma_run_split_tail(tb.flatten(), tb);
            assert(tb[0].len() > 0);
            assert(s[y.len() as int] == tb[0][0]);
            assert(s[y.len() as int] == x[y.len() as int]);
            assert(is_ascii_alpha(x[y.len() as int]) == is_ascii_alpha(x[0]));
            assert(tb[0] == b[1]);
            assert(is_ascii_alpha(b[0][0]) != is_ascii_alpha(b[1][0]));
            assert(s[0] == x[0] && s[0] == y[0]);
            assert(false);
        }
        assert(x =~= s.take(x.len() as int));
        assert(y =~= s.take(y.len() as int));
        assert(ta.flatten() =~= s.skip(x.len() as int));
        assert(tb.flatten() =~= s.skip(y.len() as int));
        lemma_run_split_unique(ta.flatten(), ta, tb);
        assert(a =~= seq![x] + ta);
        assert(b =~= seq![y] + tb);
    }
}

/// Splits mixed Chinese-English text into alternating runs of ASCII letters
/// and of other characters.
pub fn tokenize(text: &str) -> (tokens: Vec<Token>)
    ensures
        tokens@.len() == segments(text@).len(),
        forall|i: int|
            0 <= i < tokens@.len() ==> (#[trigger] tokens@[i]).text() == segments(text@)[i] && (
            tokens@[i].is_word() <==> is_ascii_alpha(segments(text@)[i][0])),
{
    let v = chars_of(text);
    let mut tokens: Vec<Token> = Vec::new();
    let mut cur: Vec<char> = Vec::new();
    let mut in_english = false;
    let mut k: usize = 0;
    while k < v.len()
        invariant
            0 <= k <= v@.len(),
            v@ == text@,
            ({
                let segs = segments(v@.take(k as int));
                let n = tokens@.len();
                &&& segs.len() == n + if cur@.len() > 0 { 1int } else { 0 }
                &&& forall|i: int|
                    0 <= i < n ==> (#[trigger] tokens@[i]).text() == segs[i] && (tokens@[i].is_word()
                        <==> is_ascii_alpha(segs[i][0]))
                &&& cur@.len() > 0 ==> segs[n as int] == cur@ && in_english == is_ascii_alpha(cur@[0])
                    && is_ascii_alpha(cur@.last()) == in_english
                &&& cur@.len() == 0 ==> k == 0
                &&& forall|i: int| 0 <= i < segs.len() ==> (#[trigger] segs[i]).len() > 0
            }),
        decreases v@.len() - k,
    {
        let ch = v[k];
        let is_alpha = ascii_alpha(ch);
        let ghost prev = v@.take(k as int);
        assert(v@.take(k + 1).drop_last() =~= prev);
        proof {
            law_segments_split_text(prev);
        }
        if cur.len() > 0 && is_alpha != in_english {
            let seg = string_from_chars(cur.as_slice());
            if in_english {
                tokens.push(Token::EnglishWord(seg));
            } else {
                tokens.push(Token::Other(seg));
            }
            cur = Vec::new();
        }
        if cur.len() == 0 {
            in_english = is_alpha;
        }
        cur.push(ch);
        k = k + 1;
    }
    assert(v@.take(v@.len() as int) =~= v@);
    if cur.len() > 0 {
        let seg = string_from_chars(cur.as_slice());
        if in_english {
            tokens.push(Token::EnglishWord(seg));
        } else {
            tokens.push(Token::Other(seg));
        }
    }
    tokens
}

// ─── Case preservation ──────────────────────────────────────────────

/// The casing of `original` carried over to `corrected`: all capitals stay all
/// capitals, a capitalised word stays capitalised, anything else keeps the
/// dictionary form.
pub open spec fn case_pattern(original: Seq<char>, corrected: Seq<char>) -> Seq<char> {
    if forall|i: int| 0 <= i < original.len() ==> is_ascii_upper(#[trigger] original[i]) {
        uppercase_of(corrected)
    } else if original.len() > 0 && is_ascii_upper(original[0]) && forall|i: int|
        1 <= i < original.len() ==> is_ascii_lower(#[trigger] original[i]) {
        if corrected.len() == 0 {
            corrected
        } else {
            char_uppercase_of(corrected[0]) + corrected.drop_first()
        }
    } else {
        corrected
    }
}

/// Applies the casing pattern of `original` to `corrected`.
pub fn apply_case_pattern(original: &str, corrected: &str) -> (r: String)
    ensures
        r@ == case_pattern(original@, corrected@),
{
    let o = chars_of(original);
    let n = o.len();
    let mut all_upper = true;
    let mut k: usize = 0;
    while k < n
        invariant
            0 <= k <= n == o@.len(),
            all_upper == forall|i: int| 0 <= i < k ==> is_ascii_upper(#[trigger] o@[i]),
        decreases n - k,
    {
        if !ascii_upper(o[k]) {
            all_upper = false;
        }
        k = k + 1;
    }
    if all_upper {
        return to_uppercase(corrected);
    }
    let mut title = n > 0 && ascii_upper(o[0]);
    let mut k: usize = 1;
    while k < n
        invariant
            1 <= k <= n || n == 0,
            n == o@.len(),
            title == (n > 0 && is_ascii_upper(o@[0]) && forall|i: int|
                1 <= i < k ==> is_ascii_lower(#[trigger] o@[i])),
        decreases n - k,
    {
        if !ascii_lower(o[k]) {
            title = false;
        }
        k = k + 1;
    }
    if title {
        let c = chars_of(corrected);
        if c.len() == 0 {
            copy_str(corrected)
        } else {
            let mut r = char_to_uppercase(c[0]);
            let rest = string_from_range(c.as_slice(), 1, c.len());
            push_str(&mut r, rest.as_str());
            assert(c@.subrange(1, c@.len() as int) =~= c@.drop_first());
            r
        }
    } else {
        copy_str(corrected)
    }
}

// ─── Spell fixer ────────────────────────────────────────────────────

/// Configuration for the spell fixer. Distance ratios are given in percent.
pub struct SpellFixConfig {
    /// Minimum word length (in bytes) to attempt correction.
    pub min_word_length: usize,
    /// Maximum edit distance as a percentage of the word length.
    pub max_distance_percent: usize,
    /// Absolute maximum edit distance.
    pub max_distance_cap: usize,
    /// Maximum edit distance for dictionary (hotword) matching, in percent of the word length.
    pub hotword_max_distance_percent: usize,
    /// Absolute maximum edit distance for dictionary (hotword) matching.
    pub hotword_max_distance_cap: usize,
}

impl SpellFixConfig {
    /// The standard settings: words of 3 letters or more, 30% (at most 3)
    /// edits for the word list, 40% (at most 5) for dictionary entries.
    pub fn default_config() -> (c: SpellFixConfig)
        ensures
            c.min_word_length == 3,
            c.max_distance_percent == 30,
            c.max_distance_cap == 3,
            c.hotword_max_distance_percent == 40,
            c.hotword_max_distance_cap == 5,
    {
        SpellFixConfig {
            min_word_length: 3,
            max_distance_percent: 30,
            max_distance_cap: 3,
            hotword_max_distance_percent: 40,
            hotword_max_distance_cap: 5,
        }
    }
}

impl Default for SpellFixConfig {
    fn default() -> (c: SpellFixConfig)
        ensures
            c.min_word_length == 3,
            c.max_distance_percent == 30,
            c.max_distance_cap == 3,
            c.hotword_max_distance_percent == 40,
            c.hotword_max_distance_cap == 5,
    {
        SpellFixConfig::default_config()
    }
}

/// The largest number of edits allowed for a word of `len` bytes:
/// `len * percent / 100`, at least one, at most `cap`.
pub open spec fn distance_limit(len: nat, percent: nat, cap: nat) -> nat {
    let by_ratio = len * percent / 100;
    let at_least_one: nat = if by_ratio >= 1 { by_ratio } else { 1 };
    min_nat(at_least_one, cap)
}

pub fn distance_limit_for(len: usize, percent: usize, cap: usize) -> (r: usize)
    ensures
        r == distance_limit(len as nat, percent as nat, cap as nat),
{
    let l = len as u128;
    let p = percent as u128;
    assert(l * p <= 0xffff_ffff_ffff_ffffu128 * 0xffff_ffff_ffff_ffffu128) by (nonlinear_arith)
        requires
            l <= 0xffff_ffff_ffff_ffffu128,
            p <= 0xffff_ffff_ffff_ffffu128,
    ;
    let by_ratio = l * p / 100;
    let at_least_one = if by_ratio >= 1 { by_ratio } else { 1 };
    if at_least_one <= cap as u128 {
        at_least_one as usize
    } else {
        cap
    }
}

pub open spec fn bytes_of(s: Seq<char>) -> Seq<u8> {
    encode_utf8(s)
}

/// A word-list entry usable as a correction target.
pub open spec fn usable_word(w: Seq<char>) -> bool {
    w.len() > 0 && bytes_of(w).len() < usize::MAX
}

/// `cand` is looked at for `word`: same first byte, lengths within `max`.
pub open spec fn considered(word: Seq<u8>, cand: Seq<u8>, max: nat) -> bool {
    cand.len() > 0 && word.len() > 0 && cand[0] == word[0] && abs_diff(word.len(), cand.len()) <= max
}

/// `cand` is close enough to `word`.
pub open spec fn within(word: Seq<u8>, cand: Seq<u8>, max: nat) -> bool {
    considered(word, cand, max) && bounded_edit_distance(word, cand, max) <= max
}

/// Candidates are ranked by distance, then by length (shorter first).
pub open spec fn ranks_no_worse(word: Seq<u8>, c1: Seq<u8>, c2: Seq<u8>, max: nat) -> bool {
    let d1 = bounded_edit_distance(word, c1, max);
    let d2 = bounded_edit_distance(word, c2, max);
    d1 < d2 || (d1 == d2 && c1.len() <= c2.len())
}

pub open spec fn same_rank(word: Seq<u8>, c1: Seq<u8>, c2: Seq<u8>, max: nat) -> bool {
    bounded_edit_distance(word, c1, max) == bounded_edit_distance(word, c2, max) && c1.len()
        == c2.len()
}

/// `words[i]` is a best correction for `word`: within reach, ranked no
/// worse than any other, and every other word of the same rank is the same word.
pub open spec fn is_best_word(word: Seq<u8>, words: Seq<Seq<char>>, max: nat, i: int) -> bool {
    &&& 0 <= i < words.len()
    &&& within(word, bytes_of(words[i]), max)
    &&& forall|k: int|
        0 <= k < words.len() && within(word, bytes_of(#[trigger] words[k]), max) ==> ranks_no_worse(
            word,
            bytes_of(words[i]),
            bytes_of(words[k]),
            max,
        )
    &&& forall|k: int|
        0 <= k < words.len() && within(word, bytes_of(#[trigger] words[k]), max) && same_rank(
            word,
            bytes_of(words[i]),
            bytes_of(words[k]),
            max,
        ) ==> words[k] == words[i]
}

/// The general word-list correction of `word`: the unique best candidate, or
/// nothing when there is none or two different words tie.
pub open spec fn best_word_match(word: Seq<u8>, words: Seq<Seq<char>>, max: nat) -> Option<
    Seq<char>,
> {
    if exists|i: int| is_best_word(word, words, max, i) {
        Some(words[choose|i: int| is_best_word(word, words, max, i)])
    } else {
        None
    }
}

/// `lowers[i]` is the first best dictionary match for `word`.
pub open spec fn is_best_hotword(word: Seq<u8>, lowers: Seq<Seq<char>>, max: nat, i: int) -> bool {
    &&& 0 <= i < lowers.len()
    &&& within(word, bytes_of(lowers[i]), max)
    &&& forall|k: int|
        0 <= k < lowers.len() && within(word, bytes_of(#[trigger] lowers[k]), max)
            ==> ranks_no_worse(word, bytes_of(lowers[i]), bytes_of(lowers[k]), max)
    &&& forall|k: int|
        0 <= k < i && within(word, bytes_of(#[trigger] lowers[k]), max) ==> !same_rank(
            word,
            bytes_of(lowers[i]),
            bytes_of(lowers[k]),
            max,
        )
}

pub open spec fn hotword_lowers(hot: Seq<(Seq<char>, Seq<char>)>) -> Seq<Seq<char>> {
    hot.map_values(|h: (Seq<char>, Seq<char>)| h.0)
}

/// The dictionary correction of `word`: the original casing of the first
/// best-ranked entry.
pub open spec fn best_hotword_match(word: Seq<u8>, hot: Seq<(Seq<char>, Seq<char>)>, max: nat) -> Option<
    Seq<char>,
> {
    let lowers = hotword_lowers(hot);
    if exists|i: int| is_best_hotword(word, lowers, max, i) {
        Some(hot[choose|i: int| is_best_hotword(word, lowers, max, i)].1)
    } else {
        None
    }
}

/// Dictionary-based English spell corrector for mixed Chinese-English ASR output.
pub struct SpellFixer {
    word_list: Vec<String>,
    /// Dictionary entries: (lowercase, original casing).
    hotwords: Vec<(String, String)>,
    config: SpellFixConfig,
}

/// A dictionary entry usable as a hotword: its lowercase form is non-empty
/// and made of ASCII letters only.
pub open spec fn usable_hotword(lower: Seq<char>) -> bool {
    lower.len() > 0 && all_ascii_alpha(lower) && lower.len() < usize::MAX
}

/// The hotwords taken from a user dictionary: (lowercase, trimmed original).
pub open spec fn dictionary_hotwords(dict: Seq<Seq<char>>) -> Seq<(Seq<char>, Seq<char>)>
    decreases dict.len(),
{
    if dict.len() == 0 {
        Seq::empty()
    } else {
        let rest = dictionary_hotwords(dict.drop_last());
        let t = trim(dict.last());
        let l = lowercase_of(t);
        if usable_hotword(l) { rest.push((l, t)) } else { rest }
    }
}

impl SpellFixer {
    pub closed spec fn words(&self) -> Seq<Seq<char>> {
        self.word_list@.map_values(|w: String| w@)
    }

    pub closed spec fn hot(&self) -> Seq<(Seq<char>, Seq<char>)> {
        self.hotwords@.map_values(|h: (String, String)| (h.0@, h.1@))
    }

    pub closed spec fn min_word_length(&self) -> nat {
        self.config.min_word_length as nat
    }

    pub closed spec fn limits(&self) -> (nat, nat, nat, nat) {
        (
            self.config.max_distance_percent as nat,
            self.config.max_distance_cap as nat,
            self.config.hotword_max_distance_percent as nat,
            self.config.hotword_max_distance_cap as nat,
        )
    }

    #[verifier::type_invariant]
    spec fn well_formed(&self) -> bool {
        &&& forall|i: int| 0 <= i < self.word_list@.len() ==> usable_word(#[trigger] self.word_list@[i]@)
        &&& forall|i: int|
            0 <= i < self.hotwords@.len() ==> usable_hotword(#[trigger] self.hotwords@[i].0@)
    }
}


/// Kept words of a list of lines: each line trimmed, empty results dropped.
pub open spec fn kept_words(lines: Seq<Seq<char>>) -> Seq<Seq<char>>
    decreases lines.len(),
{
    if lines.len() == 0 {
        Seq::empty()
    } else {
        let rest = kept_words(lines.drop_last());
        let t = trim(lines.last());
        if usable_word(t) { rest.push(t) } else { rest }
    }
}

/// The correction targets of a word list: its lines, trimmed, without the
/// empty ones. (No string in memory reaches `usize::MAX` bytes, so the
/// length bound in `usable_word` keeps every non-empty line.)
pub open spec fn word_list_words(text: Seq<char>) -> Seq<Seq<char>> {
    kept_words(lines_of(text))
}

/// Whether `t` can be a correction target, checked at run time.
fn check_usable_word(t: &String) -> (r: bool)
    ensures
        r == usable_word(t@),
{
    let b = t.as_str().as_bytes();
    proof {
        vstd::slice::axiom_spec_len(b);
    }
    let n = chars_of(t.as_str()).len();
    n > 0 && b.len() < usize::MAX
}

/// The words of a word list, one per line.
pub fn parse_word_list(text: &str) -> (words: Vec<String>)
    ensures
        words@.map_values(|w: String| w@) == word_list_words(text@),
{
    let lines = split_lines(text);
    let ghost ls = lines_of(text@);
    let mut words: Vec<String> = Vec::new();
    let mut i: usize = 0;
    while i < lines.len()
        invariant
            0 <= i <= lines@.len() == ls.len(),
            forall|j: int| 0 <= j < lines@.len() ==> #[trigger] lines@[j]@ == ls[j],
            words@.map_values(|w: String| w@) == kept_words(ls.take(i as int)),
        decreases lines@.len() - i,
    {
        let line = &lines[i];
        let (a, b) = trim_bounds(line.as_slice());
        let t = string_from_range(line.as_slice(), a, b);
        assert(ls.take(i + 1).drop_last() =~= ls.take(i as int));
        assert(ls.take(i + 1).last() == ls[i as int]);
        if check_usable_word(&t) {
            words.push(t);
        }
        assert(words@.map_values(|w: String| w@) =~= kept_words(ls.take(i + 1)));
        i = i + 1;
    }
    assert(ls.take(lines@.len() as int) =~= ls);
    words
}

impl SpellFixer {
    /// Creates a spell fixer whose correction targets are the words of `word_list`
    /// (one word per line).
    pub fn new(config: SpellFixConfig, word_list: &str) -> (f: SpellFixer)
        ensures
            f.words() == word_list_words(word_list@),
            f.hot() == Seq::<(Seq<char>, Seq<char>)>::empty(),
            f.min_word_length() == config.min_word_length,
            f.limits() == (
                config.max_distance_percent as nat,
                config.max_distance_cap as nat,
                config.hotword_max_distance_percent as nat,
                config.hotword_max_distance_cap as nat,
            ),
    {
        let words = parse_word_list(word_list);
        proof {
            lemma_kept_words_usable(lines_of(word_list@));
            assert forall|i: int| 0 <= i < words@.len() implies usable_word(#[trigger] words@[i]@) by {
                assert(words@.map_values(|w: String| w@)[i] == words@[i]@);
            }
        }
        let f = SpellFixer { word_list: words, hotwords: Vec::new(), config };
        assert(f.hot() =~= Seq::<(Seq<char>, Seq<char>)>::empty());
        f
    }

    /// Creates a spell fixer that also treats user dictionary entries as known
    /// words and as preferred correction targets, keeping their casing.
    pub fn new_with_user_dict(config: SpellFixConfig, word_list: &str, user_dict: &[String]) -> (f: SpellFixer)
        ensures
            f.hot() == dictionary_hotwords(user_dict@.map_values(|e: String| e@)),
            f.words() == word_list_words(word_list@) + hotword_lowers(f.hot()),
            f.min_word_length() == config.min_word_length,
            f.limits() == (
                config.max_distance_percent as nat,
                config.max_distance_cap as nat,
                config.hotword_max_distance_percent as nat,
                config.hotword_max_distance_cap as nat,
            ),
    {
        let mut words = parse_word_list(word_list);
        let ghost base = words@.map_values(|w: String| w@);
        proof {
            lemma_kept_words_usable(lines_of(word_list@));
        }
        let ghost dict = user_dict@.map_values(|e: String| e@);
        let mut hotwords: Vec<(String, String)> = Vec::new();
        let mut i: usize = 0;
        while i < user_dict.len()
            invariant
                0 <= i <= user_dict@.len() == dict.len(),
                dict == user_dict@.map_values(|e: String| e@),
                base == word_list_words(word_list@),
                forall|j: int| 0 <= j < base.len() ==> usable_word(#[trigger] base[j]),
                hotwords@.map_values(|h: (String, String)| (h.0@, h.1@)) == dictionary_hotwords(
                    dict.take(i as int),
                ),
                words@.map_values(|w: String| w@) == base + hotword_lowers(
                    dictionary_hotwords(dict.take(i as int)),
                ),
                forall|j: int| 0 <= j < hotwords@.len() ==> usable_hotword(#[trigger] hotwords@[j].0@),
            decreases user_dict@.len() - i,
        {
            let trimmed = trimmed(user_dict[i].as_str());
            let lower = to_lowercase(trimmed.as_str());
            let lc = chars_of(lower.as_str());
            let mut ok = lc.len() > 0 && lc.len() < usize::MAX;
            let mut k: usize = 0;
            while k < lc.len()
                invariant
                    0 <= k <= lc@.len(),
                    ok == (lc@.len() > 0 && lc@.len() < usize::MAX && forall|t: int|
                        0 <= t < k ==> is_ascii_alpha(#[trigger] lc@[t])),
                decreases lc@.len() - k,
            {
                if !ascii_alpha(lc[k]) {
                    ok = false;
                }
                k = k + 1;
            }
            let ghost prev_hot = dictionary_hotwords(dict.take(i as int));
            assert(dict.take(i + 1).drop_last() =~= dict.take(i as int));
            assert(dict.take(i + 1).last() == user_dict@[i as int]@);
            let ghost old_words = words@.map_values(|w: String| w@);
            if ok {
                let lower2 = copy_string(&lower);
                words.push(lower);
                hotwords.push((lower2, trimmed));
                proof {
                    let nh = prev_hot.push((lc@, trim(user_dict@[i as int]@)));
                    assert(hotword_lowers(nh) =~= hotword_lowers(prev_hot).push(lc@));
                    assert(hotwords@.map_values(|h: (String, String)| (h.0@, h.1@)) =~= nh);
                    assert(words@.map_values(|w: String| w@) =~= old_words.push(lc@));
                    assert(base + hotword_lowers(prev_hot).push(lc@) =~= (base + hotword_lowers(prev_hot)).push(lc@));
                }
            }
            i = i + 1;
        }
        assert(dict.take(user_dict@.len() as int) =~= dict);
        proof {
            let all = words@.map_values(|w: String| w@);
            let hl = hotword_lowers(dictionary_hotwords(dict));
            assert forall|j: int| 0 <= j < words@.len() implies usable_word(#[trigger] words@[j]@) by {
                assert(all[j] == words@[j]@);
                if j < base.len() {
                    assert(all[j] == base[j]);
                } else {
                    let h = j - base.len();
                    assert(all[j] == hl[h]);
                    assert(hotwords@.map_values(|h: (String, String)| (h.0@, h.1@))[h].0 == hotwords@[h].0@);
                    lemma_ascii_word_bytes(hotwords@[h].0@);
                }
            }
        }
        let f = SpellFixer { word_list: words, hotwords, config };
        f
    }

    /// Whether `w` is a known word.
    fn contains_word(&self, w: &String) -> (r: bool)
        ensures
            r == self.words().contains(w@),
    {
        let mut k: usize = 0;
        while k < self.word_list.len()
            invariant
                0 <= k <= self.word_list@.len(),
                forall|t: int| 0 <= t < k ==> self.word_list@[t]@ != w@,
            decreases self.word_list@.len() - k,
        {
            if self.word_list[k] == *w {
                proof {
                    assert(self.words()[k as int] == w@);
                }
                return true;
            }
            k = k + 1;
        }
        proof {
            if self.words().contains(w@) {
                let t = choose|t: int| 0 <= t < self.words().len() && self.words()[t] == w@;
                assert(self.words()[t] == self.word_list@[t]@);
            }
        }
        false
    }
}

proof fn lemma_kept_words_usable(lines: Seq<Seq<char>>)
    ensures
        forall|j: int| 0 <= j < kept_words(lines).len() ==> usable_word(#[trigger] kept_words(lines)[j]),
    decreases lines.len(),
{
    if lines.len() > 0 {
        lemma_kept_words_usable(lines.drop_last());
        let rest = kept_words(lines.drop_last());
        let t = trim(lines.last());
        if usable_word(t) {
            assert forall|j: int| 0 <= j < rest.push(t).len() implies usable_word(#[trigger] rest.push(t)[j]) by {
                if j < rest.len() {
                    assert(rest.push(t)[j] == rest[j]);
                }
            }
        }
    }
}

/// An ASCII-letter word has one byte per character.
proof fn lemma_ascii_word_bytes(w: Seq<char>)
    requires
        all_ascii_alpha(w),
    ensures
        bytes_of(w).len() == w.len(),
        forall|i: int| 0 <= i < w.len() ==> bytes_of(w)[i] == w[i] as u8,
{
    assert(vstd::utf8::is_ascii_chars(w));
    vstd::utf8::is_ascii_chars_encode_utf8(w);
}


/// Near the top of the range the limit makes no difference: every distance
/// between strings shorter than `usize::MAX` is below it.
proof fn lemma_distance_near_top(w: Seq<u8>, c: Seq<u8>)
    requires
        w.len() < usize::MAX,
        c.len() < usize::MAX,
    ensures
        within(w, c, usize::MAX as nat) == within(w, c, (usize::MAX - 1) as nat),
        bounded_edit_distance(w, c, usize::MAX as nat) == bounded_edit_distance(
            w,
            c,
            (usize::MAX - 1) as nat,
        ),
{
    lemma_prefix_bound(w, c, w.len(), c.len());
    law_bounded_distance_is_exact_within_bound(w, c, usize::MAX as nat);
    law_bounded_distance_is_exact_within_bound(w, c, (usize::MAX - 1) as nat);
}

proof fn lemma_best_word_saturated(w: Seq<u8>, words: Seq<Seq<char>>)
    requires
        w.len() < usize::MAX,
        forall|k: int| 0 <= k < words.len() ==> bytes_of(#[trigger] words[k]).len() < usize::MAX,
    ensures
        best_word_match(w, words, usize::MAX as nat) == best_word_match(w, words, (usize::MAX - 1) as nat),
{
    let hi = usize::MAX as nat;
    let lo = (usize::MAX - 1) as nat;
    assert forall|k: int| 0 <= k < words.len() implies {
        &&& within(w, bytes_of(#[trigger] words[k]), hi) == within(w, bytes_of(words[k]), lo)
        &&& bounded_edit_distance(w, bytes_of(words[k]), hi) == bounded_edit_distance(w, bytes_of(words[k]), lo)
    } by {
        lemma_distance_near_top(w, bytes_of(words[k]));
    }
    assert forall|i: int| #[trigger] is_best_word(w, words, hi, i) == is_best_word(w, words, lo, i) by {
        if 0 <= i < words.len() {
            assert forall|k: int| 0 <= k < words.len() implies (ranks_no_worse(
                w,
                bytes_of(words[i]),
                bytes_of(#[trigger] words[k]),
                hi,
            ) == ranks_no_worse(w, bytes_of(words[i]), bytes_of(words[k]), lo) && same_rank(
                w,
                bytes_of(words[i]),
                bytes_of(words[k]),
                hi,
            ) == same_rank(w, bytes_of(words[i]), bytes_of(words[k]), lo)) by {}
        }
    }
    if exists|i: int| is_best_word(w, words, hi, i) {
        let i1 = choose|i: int| is_best_word(w, words, hi, i);
        let i2 = choose|i: int| is_best_word(w, words, lo, i);
        assert(is_best_word(w, words, lo, i1));
        assert(ranks_no_worse(w, bytes_of(words[i1]), bytes_of(words[i2]), lo));
        assert(ranks_no_worse(w, bytes_of(words[i2]), bytes_of(words[i1]), lo));
        assert(same_rank(w, bytes_of(words[i1]), bytes_of(words[i2]), lo));
    } else {
        assert forall|i: int| !is_best_word(w, words, lo, i) by {
            assert(is_best_word(w, words, hi, i) == is_best_word(w, words, lo, i));
        }
    }
}

proof fn lemma_best_hotword_saturated(w: Seq<u8>, hot: Seq<(Seq<char>, Seq<char>)>)
    requires
        w.len() < usize::MAX,
        forall|k: int| 0 <= k < hotword_lowers(hot).len() ==> bytes_of(#[trigger] hotword_lowers(hot)[k]).len()
            < usize::MAX,
    ensures
        best_hotword_match(w, hot, usize::MAX as nat) == best_hotword_match(w, hot, (usize::MAX - 1) as nat),
{
    let hi = usize::MAX as nat;
    let lo = (usize::MAX - 1) as nat;
    let words = hotword_lowers(hot);
    assert forall|k: int| 0 <= k < words.len() implies {
        &&& within(w, bytes_of(#[trigger] words[k]), hi) == within(w, bytes_of(words[k]), lo)
        &&& bounded_edit_distance(w, bytes_of(words[k]), hi) == bounded_edit_distance(w, bytes_of(words[k]), lo)
    } by {
        lemma_distance_near_top(w, bytes_of(words[k]));
    }
    assert forall|i: int| #[trigger] is_best_hotword(w, words, hi, i) == is_best_hotword(w, words, lo, i) by {
        if 0 <= i < words.len() {
            assert forall|k: int| 0 <= k < words.len() implies (ranks_no_worse(
                w,
                bytes_of(words[i]),
                bytes_of(#[trigger] words[k]),
                hi,
            ) == ranks_no_worse(w, bytes_of(words[i]), bytes_of(words[k]), lo) && same_rank(
                w,
                bytes_of(words[i]),
                bytes_of(words[k]),
                hi,
            ) == same_rank(w, bytes_of(words[i]), bytes_of(words[k]), lo)) by {}
        }
    }
    if exists|i: int| is_best_hotword(w, words, hi, i) {
        let i1 = choose|i: int| is_best_hotword(w, words, hi, i);
        let i2 = choose|i: int| is_best_hotword(w, words, lo, i);
        assert(is_best_hotword(w, words, lo, i1));
        assert(ranks_no_worse(w, bytes_of(words[i1]), bytes_of(words[i2]), lo));
        assert(ranks_no_worse(w, bytes_of(words[i2]), bytes_of(words[i1]), lo));
        if i1 < i2 {
            assert(same_rank(w, bytes_of(words[i2]), bytes_of(words[i1]), lo));
        }
        if i2 < i1 {
            assert(same_rank(w, bytes_of(words[i1]), bytes_of(words[i2]), lo));
        }
    } else {
        assert forall|i: int| !is_best_hotword(w, words, lo, i) by {
            assert(is_best_hotword(w, words, hi, i) == is_best_hotword(w, words, lo, i));
        }
    }
}

impl SpellFixer {
    /// Maximum allowed edit distance for the general word list.
    pub open spec fn word_limit(&self, len: nat) -> nat {
        distance_limit(len, self.limits().0, self.limits().1)
    }

    /// Maximum allowed edit distance for dictionary entries.
    pub open spec fn hotword_limit(&self, len: nat) -> nat {
        distance_limit(len, self.limits().2, self.limits().3)
    }

    fn max_distance_for(&self, word_len: usize) -> (r: usize)
        ensures
            r == self.word_limit(word_len as nat),
    {
        distance_limit_for(word_len, self.config.max_distance_percent, self.config.max_distance_cap)
    }

    fn hotword_max_distance_for(&self, word_len: usize) -> (r: usize)
        ensures
            r == self.hotword_limit(word_len as nat),
    {
        distance_limit_for(
            word_len,
            self.config.hotword_max_distance_percent,
            self.config.hotword_max_distance_cap,
        )
    }

    /// Best general word-list correction for a misspelled lowercase word.
    /// When candidates tie on distance the shorter one wins; two different
    /// words that tie on both give no correction.
    fn find_best_match(&self, word: &String) -> (r: Option<String>)
        requires
            word@.len() > 0,
            bytes_of(word@).len() < usize::MAX,
        ensures
            r matches Some(c) ==> best_word_match(
                bytes_of(word@),
                self.words(),
                self.word_limit(bytes_of(word@).len()),
            ) == Some(c@),
            r is None ==> best_word_match(
                bytes_of(word@),
                self.words(),
                self.word_limit(bytes_of(word@).len()),
            ) is None,
    {
        proof {
            use_type_invariant(self);
        }
        let wb = word.as_str().as_bytes();
        proof {
            vstd::slice::axiom_spec_len(wb);
            lemma_nonempty_bytes(word@);
        }
        let limit = self.max_distance_for(wb.len());
        // Every distance here is below `usize::MAX`, so a limit of
        // `usize::MAX` selects the same words as one just below it.
        let max_dist = if limit == usize::MAX { limit - 1 } else { limit };
        proof {
            if limit == usize::MAX {
                assert forall|k: int| 0 <= k < self.words().len() implies bytes_of(#[trigger] self.words()[k]).len()
                    < usize::MAX by {
                    assert(self.words()[k] == self.word_list@[k]@);
                }
                lemma_best_word_saturated(wb@, self.words());
            }
        }
        let first = wb[0];
        let ghost ws = wb@;
        let ghost words = self.words();
        let ghost maxn = max_dist as nat;
        let mut best: Option<usize> = None;
        let mut best_dist: usize = max_dist + 1;
        let mut best_len: usize = usize::MAX;
        let mut ambiguous = false;
        let ghost mut has_low = false;
        let mut idx: usize = 0;
        while idx < self.word_list.len()
            invariant
                0 <= idx <= self.word_list@.len() == words.len(),
                words == self.words(),
                ws == wb@,
                ws == bytes_of(word@),
                ws.len() > 0,
                first == ws[0],
                ws.len() < usize::MAX,
                max_dist < usize::MAX,
                maxn == max_dist,
                forall|i: int| 0 <= i < self.word_list@.len() ==> usable_word(#[trigger] self.word_list@[i]@),
                !has_low ==> best_dist == max_dist + 1,
                !has_low ==> forall|k: int| 0 <= k < idx ==> !within(ws, bytes_of(#[trigger] words[k]), maxn),
                best matches Some(b) ==> b < idx && best_len == bytes_of(words[b as int]).len(),
                has_low ==> ({
                    &&& best matches Some(b)
                    &&& within(ws, bytes_of(words[b as int]), maxn)
                    &&& best_dist == bounded_edit_distance(ws, bytes_of(words[b as int]), maxn)
                    &&& forall|k: int|
                        0 <= k < idx && within(ws, bytes_of(#[trigger] words[k]), maxn)
                            ==> ranks_no_worse(ws, bytes_of(words[b as int]), bytes_of(words[k]), maxn)
                    &&& ambiguous == !(forall|k: int|
                        0 <= k < idx && within(ws, bytes_of(#[trigger] words[k]), maxn) && same_rank(
                            ws,
                            bytes_of(words[b as int]),
                            bytes_of(words[k]),
                            maxn,
                        ) ==> words[k] == words[b as int])
                }),
            decreases self.word_list@.len() - idx,
        {
            let cand = self.word_list[idx].as_str().as_bytes();
            proof {
                vstd::slice::axiom_spec_len(cand);
                assert(words[idx as int] == self.word_list@[idx as int]@);
                lemma_nonempty_bytes(words[idx as int]);
            }
            let ghost cb = cand@;
            let n = wb.len();
            let m = cand.len();
            let len_diff = if n >= m { n - m } else { m - n };
            if cand[0] == first && len_diff <= max_dist {
                let dist = levenshtein_bytes(wb, cand, max_dist);
                if dist < best_dist || (dist == best_dist && m < best_len) {
                    proof {
                        if has_low && dist <= max_dist {
                            let b = best->0 as int;
                            assert forall|k: int|
                                0 <= k < idx + 1 && within(ws, bytes_of(#[trigger] words[k]), maxn) implies ranks_no_worse(
                                ws,
                                cb,
                                bytes_of(words[k]),
                                maxn,
                            ) by {
                                if k < idx {
                                    assert(ranks_no_worse(ws, bytes_of(words[b]), bytes_of(words[k]), maxn));
                                }
                            }
                        }
                    }
                    best_dist = dist;
                    best_len = m;
                    best = Some(idx);
                    ambiguous = false;
                    proof {
                        if dist <= max_dist {
                            has_low = true;
                        }
                    }
                } else if dist == best_dist && m == best_len && best.is_some()
                    && self.word_list[best.unwrap()] != self.word_list[idx] {
                    ambiguous = true;
                    proof {
                        let b = best->0 as int;
                        assert(words[b] == self.word_list@[b]@);
                    }
                } else {
                    proof {
                        if has_low {
                            let b = best->0 as int;
                            assert(words[b] == self.word_list@[b]@);
                        }
                    }
                }
            }
            idx = idx + 1;
        }
        if ambiguous || best_dist > max_dist {
            proof {
                if exists|i: int| is_best_word(ws, words, maxn, i) {
                    let i = choose|i: int| is_best_word(ws, words, maxn, i);
                    let b = best->0 as int;
                    if ambiguous {
                        let k = choose|k: int|
                            !(0 <= k < words.len() && within(ws, bytes_of(#[trigger] words[k]), maxn)
                                && same_rank(ws, bytes_of(words[b]), bytes_of(words[k]), maxn) ==> words[k]
                                == words[b]);
                        assert(ranks_no_worse(ws, bytes_of(words[b]), bytes_of(words[i]), maxn));
                        assert(ranks_no_worse(ws, bytes_of(words[i]), bytes_of(words[b]), maxn));
                        assert(words[b] == words[i]);
                        assert(words[k] == words[i]);
                    }
                }
            }
            None
        } else {
            let b = best.unwrap();
            proof {
                assert(is_best_word(ws, words, maxn, b as int));
                let i = choose|i: int| is_best_word(ws, words, maxn, i);
                assert(ranks_no_worse(ws, bytes_of(words[b as int]), bytes_of(words[i]), maxn));
                assert(ranks_no_worse(ws, bytes_of(words[i]), bytes_of(words[b as int]), maxn));
                assert(words[b as int] == words[i]);
                assert(words[b as int] == self.word_list@[b as int]@);
            }
            Some(copy_string(&self.word_list[b]))
        }
    }

    /// Best dictionary (hotword) match for a misspelled lowercase word, in the
    /// casing the dictionary gives it.
    fn find_hotword_match(&self, word: &String) -> (r: Option<String>)
        requires
            word@.len() > 0,
            bytes_of(word@).len() < usize::MAX,
        ensures
            r matches Some(c) ==> best_hotword_match(
                bytes_of(word@),
                self.hot(),
                self.hotword_limit(bytes_of(word@).len()),
            ) == Some(c@),
            r is None ==> best_hotword_match(
                bytes_of(word@),
                self.hot(),
                self.hotword_limit(bytes_of(word@).len()),
            ) is None,
    {
        proof {
            use_type_invariant(self);
        }
        let ghost lowers = hotword_lowers(self.hot());
        assert forall|k: int| 0 <= k < self.hotwords@.len() implies #[trigger] lowers[k]
            == self.hotwords@[k].0@ by {
            assert(self.hot()[k] == (self.hotwords@[k].0@, self.hotwords@[k].1@));
        }
        if self.hotwords.len() == 0 {
            return None;
        }
        let wb = word.as_str().as_bytes();
        proof {
            vstd::slice::axiom_spec_len(wb);
            lemma_nonempty_bytes(word@);
        }
        let limit = self.hotword_max_distance_for(wb.len());
        // As for the word list: a limit of `usize::MAX` selects the same
        // entry as one just below it.
        let max_dist = if limit == usize::MAX { limit - 1 } else { limit };
        proof {
            if limit == usize::MAX {
                assert forall|k: int| 0 <= k < lowers.len() implies bytes_of(#[trigger] lowers[k]).len()
                    < usize::MAX by {
                    lemma_ascii_word_bytes(self.hotwords@[k].0@);
                }
                lemma_best_hotword_saturated(wb@, self.hot());
            }
        }
        let first = wb[0];
        let ghost ws = wb@;
        let ghost maxn = max_dist as nat;
        let mut best: Option<usize> = None;
        let mut best_dist: usize = max_dist + 1;
        let mut best_len: usize = usize::MAX;
        let ghost mut has_low = false;
        let mut idx: usize = 0;
        while idx < self.hotwords.len()
            invariant
                0 <= idx <= self.hotwords@.len() == lowers.len(),
                lowers == hotword_lowers(self.hot()),
                forall|k: int| 0 <= k < self.hotwords@.len() ==> #[trigger] lowers[k] == self.hotwords@[k].0@,
                ws == wb@,
                ws == bytes_of(word@),
                ws.len() > 0,
                first == ws[0],
                ws.len() < usize::MAX,
                max_dist < usize::MAX,
                maxn == max_dist,
                forall|i: int|
                    0 <= i < self.hotwords@.len() ==> usable_hotword(#[trigger] self.hotwords@[i].0@),
                !has_low ==> best_dist == max_dist + 1,
                !has_low ==> forall|k: int| 0 <= k < idx ==> !within(ws, bytes_of(#[trigger] lowers[k]), maxn),
                best matches Some(b) ==> b < idx && best_len == bytes_of(lowers[b as int]).len(),
                has_low ==> ({
                    &&& best matches Some(b)
                    &&& within(ws, bytes_of(lowers[b as int]), maxn)
                    &&& best_dist == bounded_edit_distance(ws, bytes_of(lowers[b as int]), maxn)
                    &&& forall|k: int|
                        0 <= k < idx && within(ws, bytes_of(#[trigger] lowers[k]), maxn)
                            ==> ranks_no_worse(ws, bytes_of(lowers[b as int]), bytes_of(lowers[k]), maxn)
                    &&& forall|k: int|
                        0 <= k < b && within(ws, bytes_of(#[trigger] lowers[k]), maxn) ==> !same_rank(
                            ws,
                            bytes_of(lowers[b as int]),
                            bytes_of(lowers[k]),
                            maxn,
                        )
                }),
            decreases self.hotwords@.len() - idx,
        {
            let cand = self.hotwords[idx].0.as_str().as_bytes();
            proof {
                vstd::slice::axiom_spec_len(cand);
                lemma_ascii_word_bytes(self.hotwords@[idx as int].0@);
            }
            let ghost cb = cand@;
            let n = wb.len();
            let m = cand.len();
            let len_diff = if n >= m { n - m } else { m - n };
            if cand[0] == first && len_diff <= max_dist {
                let dist = levenshtein_bytes(wb, cand, max_dist);
                if dist < best_dist || (dist == best_dist && m < best_len) {
                    proof {
                        if has_low && dist <= max_dist {
                            let b = best->0 as int;
                            assert forall|k: int|
                                0 <= k < idx + 1 && within(ws, bytes_of(#[trigger] lowers[k]), maxn) implies ranks_no_worse(
                                ws,
                                cb,
                                bytes_of(lowers[k]),
                                maxn,
                            ) by {
                                if k < idx {
                                    assert(ranks_no_worse(ws, bytes_of(lowers[b]), bytes_of(lowers[k]), maxn));
                                }
                            }
                            assert forall|k: int|
                                0 <= k < idx && within(ws, bytes_of(#[trigger] lowers[k]), maxn) implies !same_rank(
                                ws,
                                cb,
                                bytes_of(lowers[k]),
                                maxn,
                            ) by {
                                assert(ranks_no_worse(ws, bytes_of(lowers[b]), bytes_of(lowers[k]), maxn));
                            }
                        }
                    }
                    best_dist = dist;
                    best_len = m;
                    best = Some(idx);
                    proof {
                        if dist <= max_dist {
                            has_low = true;
                        }
                    }
                }
            }
            idx = idx + 1;
        }
        if best_dist > max_dist {
            return None;
        }
        let b = best.unwrap();
        // The first entry with the matched lowercase form gives the casing.
        let mut j: usize = 0;
        while j < b && self.hotwords[j].0 != self.hotwords[b].0
            invariant
                0 <= j <= b < self.hotwords@.len(),
                forall|t: int| 0 <= t < j ==> self.hotwords@[t].0@ != self.hotwords@[b as int].0@,
            decreases b - j,
        {
            j = j + 1;
        }
        proof {
            assert(is_best_hotword(ws, lowers, maxn, b as int));
            if j < b {
                assert(lowers[j as int] == lowers[b as int]);
                assert(same_rank(ws, bytes_of(lowers[b as int]), bytes_of(lowers[j as int]), maxn));
            }
            let i = choose|i: int| is_best_hotword(ws, lowers, maxn, i);
            assert(ranks_no_worse(ws, bytes_of(lowers[b as int]), bytes_of(lowers[i]), maxn));
            assert(ranks_no_worse(ws, bytes_of(lowers[i]), bytes_of(lowers[b as int]), maxn));
            if i < b {
                assert(same_rank(ws, bytes_of(lowers[b as int]), bytes_of(lowers[i]), maxn));
            }
            if b < i {
                assert(same_rank(ws, bytes_of(lowers[i]), bytes_of(lowers[b as int]), maxn));
            }
            assert(self.hot()[b as int].1 == self.hotwords@[b as int].1@);
        }
        Some(copy_string(&self.hotwords[j].1))
    }
}

proof fn lemma_nonempty_bytes(w: Seq<char>)
    requires
        w.len() > 0,
    ensures
        bytes_of(w).len() > 0,
{
    assert(encode_utf8(w) == vstd::utf8::encode_scalar(w[0] as u32) + encode_utf8(w.drop_first()));
}


proof fn lemma_run_len_le(runs: Seq<Seq<char>>, i: int)
    requires
        0 <= i < runs.len(),
    ensures
        runs[i].len() <= runs.flatten().len(),
    decreases runs.len(),
{
    if i > 0 {
        lemma_run_len_le(runs.drop_first(), i - 1);
        assert(runs.drop_first()[i - 1] == runs[i]);
    }
}

impl SpellFixer {
    /// The correction of one run of ASCII letters, if it gets one.
    pub open spec fn fix_word(&self, w: Seq<char>) -> Option<Seq<char>> {
        if w.len() < self.min_word_length() {
            None
        } else {
            let l = ascii_lowercase(w);
            if self.words().contains(l) {
                None
            } else {
                let lb = bytes_of(l);
                match best_hotword_match(lb, self.hot(), self.hotword_limit(lb.len())) {
                    Some(h) => Some(h),
                    None => match best_word_match(lb, self.words(), self.word_limit(lb.len())) {
                        Some(c) => Some(case_pattern(w, c)),
                        None => None,
                    },
                }
            }
        }
    }

    /// The corrected text and the number of corrections for a sequence of runs.
    pub open spec fn corrected_runs(&self, runs: Seq<Seq<char>>) -> (Seq<char>, nat)
        decreases runs.len(),
    {
        if runs.len() == 0 {
            (Seq::empty(), 0)
        } else {
            let (t, n) = self.corrected_runs(runs.drop_last());
            let r = runs.last();
            if r.len() > 0 && is_ascii_alpha(r[0]) {
                match self.fix_word(r) {
                    Some(f) => (t + f, n + 1),
                    None => (t + r, n),
                }
            } else {
                (t + r, n)
            }
        }
    }

    /// Corrects English words in mixed Chinese-English text. Returns the
    /// corrected text and the number of corrections made.
    ///
    /// For each unknown word, dictionary entries are tried first with the
    /// more lenient limits and keep the dictionary's casing; otherwise the
    /// general word list is used and the word's casing pattern is kept.
    pub fn correct_text(&self, text: &str) -> (r: (String, usize))
        requires
            text@.len() < usize::MAX,
        ensures
            (r.0@, r.1 as nat) == self.corrected_runs(segments(text@)),
    {
        proof {
            use_type_invariant(self);
        }
        let tokens = tokenize(text);
        let ghost segs = segments(text@);
        proof {
            law_segments_split_text(text@);
        }
        let mut result = String::new();
        let mut corrections: usize = 0;
        let mut i: usize = 0;
        while i < tokens.len()
            invariant
                0 <= i <= tokens@.len() == segs.len(),
                segs == segments(text@),
                is_run_split(text@, segs),
                text@.len() < usize::MAX,
                forall|k: int|
                    0 <= k < tokens@.len() ==> (#[trigger] tokens@[k]).text() == segs[k] && (
                    tokens@[k].is_word() <==> is_ascii_alpha(segs[k][0])),
                corrections <= i,
                (result@, corrections as nat) == self.corrected_runs(segs.take(i as int)),
            decreases tokens@.len() - i,
        {
            let ghost run = segs[i as int];
            assert(segs.take(i + 1).drop_last() =~= segs.take(i as int));
            assert(segs.take(i + 1).last() == run);
            assert(run.len() > 0);
            match &tokens[i] {
                Token::Other(s) => {
                    push_str(&mut result, s.as_str());
                },
                Token::EnglishWord(word) => {
                    let wc = chars_of(word.as_str());
                    proof {
                        assert forall|t: int| 0 <= t < run.len() implies is_ascii_alpha(#[trigger] run[t]) by {
                            assert(is_ascii_alpha(segs[i as int][t]) == is_ascii_alpha(segs[i as int][0]));
                        }
                        lemma_run_len_le(segs, i as int);
                    }
                    if wc.len() < self.config.min_word_length {
                        push_str(&mut result, word.as_str());
                    } else {
                        let lower = ascii_lowercase_of(wc.as_slice());
                        proof {
                            assert forall|t: int| 0 <= t < lower@.len() implies is_ascii_alpha(
                                #[trigger] lower@[t],
                            ) by {
                                assert(is_ascii_alpha(run[t]));
                            }
                            lemma_ascii_word_bytes(lower@);
                        }
                        if self.contains_word(&lower) {
                            push_str(&mut result, word.as_str());
                        } else {
                            match self.find_hotword_match(&lower) {
                                Some(h) => {
                                    push_str(&mut result, h.as_str());
                                    corrections = corrections + 1;
                                },
                                None => match self.find_best_match(&lower) {
                                    Some(c) => {
                                        let cased = apply_case_pattern(word.as_str(), c.as_str());
                                        push_str(&mut result, cased.as_str());
                                        corrections = corrections + 1;
                                    },
                                    None => {
                                        push_str(&mut result, word.as_str());
                                    },
                                },
                            }
                        }
                    }
                },
            }
            i = i + 1;
        }
        assert(segs.take(tokens@.len() as int) =~= segs);
        (result, corrections)
    }
}


proof fn lemma_ascii_small_letter(ch: char)
    requires
        is_ascii_lower(ch),
    ensures
        is_ascii_alpha(ch),
        ascii_lower_char(ch) == ch,
        is_ascii_upper(ascii_upper_char(ch)),
        is_ascii_alpha(ascii_upper_char(ch)),
        ascii_lower_char(ascii_upper_char(ch)) == ch,
        is_ascii_char(ch),
{
    let u = ((ch as u32) - 32) as char;
    assert(u as u32 == (ch as u32) - 32);
    assert((((u as u32) + 32) as char) as u32 == ch as u32);
}

/// Casing a word of small ASCII letters gives ASCII letters that lower back to it.
proof fn lemma_case_pattern_ascii(w: Seq<char>, c: Seq<char>)
    requires
        forall|k: int| 0 <= k < c.len() ==> is_ascii_lower(#[trigger] c[k]),
    ensures
        case_pattern(w, c).len() == c.len(),
        all_ascii_alpha(case_pattern(w, c)),
        ascii_lowercase(case_pattern(w, c)) == c,
{
    assert forall|k: int| 0 <= k < c.len() implies is_ascii_char(#[trigger] c[k]) by {
        lemma_ascii_small_letter(c[k]);
    }
    let p = case_pattern(w, c);
    assert forall|k: int| 0 <= k < p.len() implies is_ascii_alpha(#[trigger] p[k]) && ascii_lower_char(p[k])
        == c[k] by {
        lemma_ascii_small_letter(c[k]);
    }
    assert(ascii_lowercase(p) =~= c);
}

impl SpellFixer {
    /// Every known word is made of small ASCII letters, and every dictionary
    /// entry is spelled in ASCII letters, lowers to its key, and is known.
    pub open spec fn ascii_vocabulary(&self) -> bool {
        &&& forall|i: int, k: int|
            0 <= i < self.words().len() && 0 <= k < self.words()[i].len() ==> is_ascii_lower(
                #[trigger] self.words()[i][k],
            )
        &&& forall|i: int|
            0 <= i < self.hot().len() ==> {
                &&& all_ascii_alpha(#[trigger] self.hot()[i].1)
                &&& ascii_lowercase(self.hot()[i].1) == self.hot()[i].0
                &&& self.words().contains(self.hot()[i].0)
            }
    }

    /// What correction makes of one run: a word run becomes its correction
    /// when it gets one; everything else stays.
    pub open spec fn fix_run(&self, r: Seq<char>) -> Seq<char> {
        if r.len() > 0 && is_ascii_alpha(r[0]) {
            match self.fix_word(r) {
                Some(x) => x,
                None => r,
            }
        } else {
            r
        }
    }

    pub open spec fn fixed_runs(&self, runs: Seq<Seq<char>>) -> Seq<Seq<char>> {
        runs.map_values(|r: Seq<char>| self.fix_run(r))
    }
}

/// The number of positions at which two sequences of runs differ.
pub open spec fn differing(a: Seq<Seq<char>>, b: Seq<Seq<char>>) -> nat
    decreases a.len(),
{
    if a.len() == 0 {
        0
    } else {
        differing(a.drop_last(), b.drop_last()) + if a.last() != b.last() { 1nat } else { 0nat }
    }
}

proof fn lemma_differing_zero(a: Seq<Seq<char>>, b: Seq<Seq<char>>)
    requires
        a.len() == b.len(),
    ensures
        differing(a, b) == 0 <==> a == b,
    decreases a.len(),
{
    if a.len() > 0 {
        lemma_differing_zero(a.drop_last(), b.drop_last());
        if a == b {
            assert(a.drop_last() == b.drop_last());
        }
        if differing(a, b) == 0 {
            assert(a =~= a.drop_last().push(a.last()));
            assert(b =~= b.drop_last().push(b.last()));
        }
    } else {
        assert(a =~= b);
    }
}

proof fn lemma_empty_bytes(w: Seq<char>)
    requires
        bytes_of(w).len() > 0,
    ensures
        w.len() > 0,
{
    if w.len() == 0 {
        assert(w =~= Seq::<char>::empty());
    }
}

/// With an ASCII vocabulary, a correction is a non-empty run of ASCII letters
/// that differs from the word it replaces and is itself known, so it is
/// never corrected again.
proof fn lemma_fix_word_result(f: &SpellFixer, w: Seq<char>)
    requires
        f.ascii_vocabulary(),
        f.fix_word(w) is Some,
    ensures
        f.fix_word(w)->0.len() > 0,
        all_ascii_alpha(f.fix_word(w)->0),
        f.fix_word(w)->0 != w,
        f.fix_word(f.fix_word(w)->0) is None,
{
    let l = ascii_lowercase(w);
    let lb = bytes_of(l);
    let x = f.fix_word(w)->0;
    let hot = f.hot();
    let lowers = hotword_lowers(hot);
    let hl = f.hotword_limit(lb.len());
    if best_hotword_match(lb, hot, hl) is Some {
        let i = choose|i: int| is_best_hotword(lb, lowers, hl, i);
        assert(x == hot[i].1);
        assert(lowers[i] == hot[i].0);
        lemma_empty_bytes(lowers[i]);
        assert(ascii_lowercase(x) == hot[i].0);
        assert(f.words().contains(ascii_lowercase(x)));
    } else {
        let words = f.words();
        let wl = f.word_limit(lb.len());
        let j = choose|i: int| is_best_word(lb, words, wl, i);
        let c = words[j];
        assert(x == case_pattern(w, c));
        assert forall|k: int| 0 <= k < c.len() implies is_ascii_lower(#[trigger] c[k]) by {
            assert(is_ascii_lower(words[j][k]));
        }
        lemma_case_pattern_ascii(w, c);
        lemma_empty_bytes(c);
        assert(words.contains(ascii_lowercase(x))) by {
            assert(words[j] == ascii_lowercase(x));
        }
    }
}

proof fn lemma_corrected_runs_fixed(f: &SpellFixer, runs: Seq<Seq<char>>)
    requires
        f.ascii_vocabulary(),
    ensures
        f.corrected_runs(runs) == (f.fixed_runs(runs).flatten_alt(), differing(runs, f.fixed_runs(runs))),
    decreases runs.len(),
{
    if runs.len() > 0 {
        let init = runs.drop_last();
        lemma_corrected_runs_fixed(f, init);
        assert(f.fixed_runs(runs).drop_last() =~= f.fixed_runs(init));
        let r = runs.last();
        assert(f.fixed_runs(runs).last() == f.fix_run(r));
        if r.len() > 0 && is_ascii_alpha(r[0]) && f.fix_word(r) is Some {
            lemma_fix_word_result(f, r);
        }
    }
}

proof fn lemma_unfixed_runs_unchanged(f: &SpellFixer, runs: Seq<Seq<char>>)
    requires
        forall|i: int|
            0 <= i < runs.len() && (#[trigger] runs[i]).len() > 0 && is_ascii_alpha(runs[i][0])
                ==> f.fix_word(runs[i]) is None,
    ensures
        f.corrected_runs(runs) == (runs.flatten_alt(), 0nat),
    decreases runs.len(),
{
    if runs.len() > 0 {
        let init = runs.drop_last();
        assert forall|i: int|
            0 <= i < init.len() && (#[trigger] init[i]).len() > 0 && is_ascii_alpha(init[i][0]) implies f.fix_word(
            init[i],
        ) is None by {
            assert(init[i] == runs[i]);
        }
        lemma_unfixed_runs_unchanged(f, init);
        assert(runs.last() == runs[runs.len() - 1]);
    }
}

/// The corrected runs split the corrected text the way the original runs
/// split the original: same kinds, word runs replaced by runs of ASCII letters.
proof fn lemma_fixed_runs_split(f: &SpellFixer, s: Seq<char>, runs: Seq<Seq<char>>)
    requires
        f.ascii_vocabulary(),
        is_run_split(s, runs),
    ensures
        is_run_split(f.fixed_runs(runs).flatten(), f.fixed_runs(runs)),
        forall|i: int|
            0 <= i < runs.len() ==> is_ascii_alpha((#[trigger] f.fixed_runs(runs)[i])[0]) == is_ascii_alpha(
                runs[i][0],
            ),
        forall|i: int|
            0 <= i < runs.len() && !is_ascii_alpha(runs[i][0]) ==> #[trigger] f.fixed_runs(runs)[i]
                == runs[i],
        forall|i: int|
            0 <= i < runs.len() && is_ascii_alpha(runs[i][0]) ==> f.fix_word(
                #[trigger] f.fixed_runs(runs)[i],
            ) is None,
{
    let fr = f.fixed_runs(runs);
    assert forall|i: int| 0 <= i < runs.len() implies {
        &&& (#[trigger] fr[i]).len() > 0
        &&& is_ascii_alpha(fr[i][0]) == is_ascii_alpha(runs[i][0])
        &&& forall|k: int| 0 <= k < fr[i].len() ==> is_ascii_alpha(#[trigger] fr[i][k]) == is_ascii_alpha(fr[i][0])
        &&& (is_ascii_alpha(runs[i][0]) ==> f.fix_word(fr[i]) is None)
    } by {
        let r = runs[i];
        assert(r.len() > 0);
        assert(fr[i] == f.fix_run(r));
        if is_ascii_alpha(r[0]) && f.fix_word(r) is Some {
            lemma_fix_word_result(f, r);
            let x = f.fix_word(r)->0;
            assert(is_ascii_alpha(x[0]));
        }
    }
}

/// Correction keeps the shape of the text: the corrected text splits into as
/// many runs as the original, of the same kinds; runs that are not English
/// words are copied as they are; the count is the number of runs that
/// changed, so it is zero exactly when the text comes back unchanged. This
/// holds for a vocabulary of ASCII words (small letters in the word list,
/// ASCII letters in the dictionary).
pub proof fn law_correction_keeps_runs(f: &SpellFixer, text: Seq<char>)
    requires
        f.ascii_vocabulary(),
    ensures
        segments(f.corrected_runs(segments(text)).0).len() == segments(text).len(),
        forall|i: int|
            0 <= i < segments(text).len() ==> is_ascii_alpha(
                (#[trigger] segments(f.corrected_runs(segments(text)).0)[i])[0],
            ) == is_ascii_alpha(segments(text)[i][0]),
        forall|i: int|
            0 <= i < segments(text).len() && !is_ascii_alpha(segments(text)[i][0]) ==> #[trigger] segments(
                f.corrected_runs(segments(text)).0,
            )[i] == segments(text)[i],
        f.corrected_runs(segments(text)).1 == differing(
            segments(text),
            segments(f.corrected_runs(segments(text)).0),
        ),
        f.corrected_runs(segments(text)).1 == 0 <==> f.corrected_runs(segments(text)).0 == text,
{
    let runs = segments(text);
    let fr = f.fixed_runs(runs);
    law_segments_split_text(text);
    lemma_fixed_runs_split(f, text, runs);
    lemma_corrected_runs_fixed(f, runs);
    fr.lemma_flatten_and_flatten_alt_are_equivalent();
    let r = f.corrected_runs(runs).0;
    law_segments_split_text(r);
    lemma_run_split_unique(r, segments(r), fr);
    lemma_differing_zero(runs, fr);
    if r == text {
        assert(fr == runs);
    }
}

/// Correcting text that has already been corrected changes nothing and
/// counts no correction (for a vocabulary of ASCII words, as above).
pub proof fn law_correction_is_idempotent(f: &SpellFixer, text: Seq<char>)
    requires
        f.ascii_vocabulary(),
    ensures
        f.corrected_runs(segments(f.corrected_runs(segments(text)).0)) == (
            f.corrected_runs(segments(text)).0,
            0nat,
        ),
{
    let runs = segments(text);
    let fr = f.fixed_runs(runs);
    law_segments_split_text(text);
    lemma_fixed_runs_split(f, text, runs);
    lemma_corrected_runs_fixed(f, runs);
    fr.lemma_flatten_and_flatten_alt_are_equivalent();
    let r = f.corrected_runs(runs).0;
    law_segments_split_text(r);
    lemma_run_split_unique(r, segments(r), fr);
    assert forall|i: int|
        0 <= i < fr.len() && (#[trigger] fr[i]).len() > 0 && is_ascii_alpha(fr[i][0]) implies f.fix_word(
        fr[i],
    ) is None by {
        assert(is_ascii_alpha(runs[i][0]));
    }
    lemma_unfixed_runs_unchanged(f, fr);
}

proof fn lemma_ascii_letter_lowered(ch: char)
    requires
        is_ascii_char(ch),
        is_ascii_alpha(ascii_lower_char(ch)),
    ensures
        is_ascii_alpha(ch),
        is_ascii_lower(ascii_lower_char(ch)),
{
    if is_ascii_upper(ch) {
        let u = ((ch as u32) + 32) as char;
        assert(u as u32 == (ch as u32) + 32);
    }
}

/// The hotwords taken from an ASCII dictionary: each is spelled in ASCII
/// letters and keyed by its small-letter form.
proof fn lemma_ascii_dictionary_hotwords(dict: Seq<Seq<char>>)
    requires
        forall|i: int| 0 <= i < dict.len() ==> all_ascii(#[trigger] dict[i]),
    ensures
        forall|j: int| 0 <= j < dictionary_hotwords(dict).len() ==> {
            let h = #[trigger] dictionary_hotwords(dict)[j];
            &&& all_ascii_alpha(h.1)
            &&& ascii_lowercase(h.1) == h.0
            &&& forall|k: int| 0 <= k < h.0.len() ==> is_ascii_lower(#[trigger] h.0[k])
        },
    decreases dict.len(),
{
    if dict.len() > 0 {
        let init = dict.drop_last();
        assert forall|i: int| 0 <= i < init.len() implies all_ascii(#[trigger] init[i]) by {
            assert(init[i] == dict[i]);
        }
        lemma_ascii_dictionary_hotwords(init);
        let t = trim(dict.last());
        assert(dict.last() == dict[dict.len() - 1]);
        lemma_trim_keeps_ascii(dict.last());
        let l = lowercase_of(t);
        if usable_hotword(l) {
            assert forall|k: int| 0 <= k < t.len() implies is_ascii_alpha(#[trigger] t[k]) && is_ascii_lower(
                l[k],
            ) by {
                assert(is_ascii_alpha(l[k]));
                lemma_ascii_letter_lowered(t[k]);
            }
            let hot = dictionary_hotwords(dict);
            let prev = dictionary_hotwords(init);
            assert(hot == prev.push((l, t)));
            assert forall|j: int| 0 <= j < hot.len() implies {
                let h = #[trigger] hot[j];
                &&& all_ascii_alpha(h.1)
                &&& ascii_lowercase(h.1) == h.0
                &&& forall|k: int| 0 <= k < h.0.len() ==> is_ascii_lower(#[trigger] h.0[k])
            } by {
                if j < prev.len() {
                    assert(hot[j] == prev[j]);
                }
            }
        } else {
            assert(dictionary_hotwords(dict) == dictionary_hotwords(init));
        }
    }
}

/// A spell fixer built from a word list of small ASCII letters and a
/// dictionary of ASCII entries has an ASCII vocabulary, so the laws on
/// correcting corrected text apply to it.
pub proof fn law_ascii_lists_give_ascii_vocabulary(f: &SpellFixer, word_list: Seq<char>, dict: Seq<Seq<char>>)
    requires
        f.hot() == dictionary_hotwords(dict),
        f.words() == word_list_words(word_list) + hotword_lowers(f.hot()),
        forall|i: int, k: int|
            0 <= i < word_list_words(word_list).len() && 0 <= k < word_list_words(word_list)[i].len()
                ==> is_ascii_lower(#[trigger] word_list_words(word_list)[i][k]),
        forall|i: int| 0 <= i < dict.len() ==> all_ascii(#[trigger] dict[i]),
    ensures
        f.ascii_vocabulary(),
{
    let wl = word_list_words(word_list);
    let hot = f.hot();
    lemma_ascii_dictionary_hotwords(dict);
    assert forall|i: int, k: int|
        0 <= i < f.words().len() && 0 <= k < f.words()[i].len() implies is_ascii_lower(
        #[trigger] f.words()[i][k],
    ) by {
        if i < wl.len() {
            assert(f.words()[i] == wl[i]);
        } else {
            assert(f.words()[i] == hot[i - wl.len()].0);
        }
    }
    assert forall|i: int| 0 <= i < hot.len() implies f.words().contains(#[trigger] hot[i].0) by {
        assert(f.words()[wl.len() + i] == hot[i].0);
    }
}

/// Every correction stays within the limit of the list it comes from: a
/// dictionary entry is at most `hotword_max_distance_percent` of the word's
/// length (capped by `hotword_max_distance_cap`, at least one) edits away;
/// a word-list entry is at most `max_distance_percent` of it (capped by
/// `max_distance_cap`, at least one) edits away, and keeps the word's casing.
/// Distances are over the UTF-8 bytes of the lowercased word.
pub proof fn law_corrections_within_configured_limits(f: &SpellFixer, w: Seq<char>)
    ensures
        f.fix_word(w) matches Some(x) ==> {
            let lb = bytes_of(ascii_lowercase(w));
            ||| exists|i: int|
                0 <= i < f.hot().len() && x == #[trigger] f.hot()[i].1 && edit_distance(
                    lb,
                    bytes_of(f.hot()[i].0),
                ) <= distance_limit(lb.len(), f.limits().2, f.limits().3)
            ||| exists|c: Seq<char>|
                #[trigger] f.words().contains(c) && x == case_pattern(w, c) && edit_distance(
                    lb,
                    bytes_of(c),
                ) <= distance_limit(lb.len(), f.limits().0, f.limits().1)
        },
{
    if f.fix_word(w) is Some {
        let x = f.fix_word(w)->0;
        let l = ascii_lowercase(w);
        let lb = bytes_of(l);
        let hot = f.hot();
        let lowers = hotword_lowers(hot);
        let hl = f.hotword_limit(lb.len());
        if best_hotword_match(lb, hot, hl) is Some {
            let i = choose|i: int| is_best_hotword(lb, lowers, hl, i);
            assert(x == hot[i].1);
            assert(lowers[i] == hot[i].0);
            law_bounded_distance_is_exact_within_bound(lb, bytes_of(lowers[i]), hl);
        } else {
            let words = f.words();
            let wl = f.word_limit(lb.len());
            let j = choose|i: int| is_best_word(lb, words, wl, i);
            let c = words[j];
            law_bounded_distance_is_exact_within_bound(lb, bytes_of(c), wl);
            assert(words.contains(c));
        }
    }
}

proof fn lemma_known_runs_unchanged(f: &SpellFixer, runs: Seq<Seq<char>>)
    requires
        forall|i: int|
            0 <= i < runs.len() && (#[trigger] runs[i]).len() > 0 && is_ascii_alpha(runs[i][0]) ==> (
            runs[i].len() < f.min_word_length() || f.words().contains(ascii_lowercase(runs[i]))),
    ensures
        f.corrected_runs(runs) == (runs.flatten_alt(), 0nat),
    decreases runs.len(),
{
    if runs.len() > 0 {
        let init = runs.drop_last();
        assert forall|i: int|
            0 <= i < init.len() && (#[trigger] init[i]).len() > 0 && is_ascii_alpha(init[i][0]) implies (
            init[i].len() < f.min_word_length() || f.words().contains(ascii_lowercase(init[i]))) by {
            assert(init[i] == runs[i]);
        }
        lemma_known_runs_unchanged(f, init);
        assert(runs.last() == runs[runs.len() - 1]);
    }
}

/// Text whose English words are all known (or too short to correct) comes
/// back unchanged, with no corrections counted.
pub proof fn law_known_words_unchanged(f: &SpellFixer, text: Seq<char>)
    requires
        forall|i: int|
            0 <= i < segments(text).len() && is_ascii_alpha((#[trigger] segments(text)[i])[0]) ==> (
            segments(text)[i].len() < f.min_word_length() || f.words().contains(
                ascii_lowercase(segments(text)[i]),
            )),
    ensures
        f.corrected_runs(segments(text)) == (text, 0nat),
{
    let runs = segments(text);
    law_segments_split_text(text);
    lemma_known_runs_unchanged(f, runs);
    runs.lemma_flatten_and_flatten_alt_are_equivalent();
}

/// Runs that are not English words are copied as they are, and each
/// correction changes exactly one run: the count never exceeds the number of runs.
pub proof fn law_corrections_bounded(f: &SpellFixer, runs: Seq<Seq<char>>)
    ensures
        f.corrected_runs(runs).1 <= runs.len(),
    decreases runs.len(),
{
    if runs.len() > 0 {
        law_corrections_bounded(f, runs.drop_last());
    }
}

/// Every dictionary entry given to `new_with_user_dict` that becomes a hotword
/// is also a known word, so it is never corrected itself.
pub proof fn law_hotwords_are_known_words(f: &SpellFixer, word_list: Seq<char>, i: int)
    requires
        f.words() == word_list_words(word_list) + hotword_lowers(f.hot()),
        0 <= i < f.hot().len(),
    ensures
        f.words().contains(f.hot()[i].0),
{
    let wl = word_list_words(word_list);
    assert(f.words()[wl.len() + i] == hotword_lowers(f.hot())[i]);
}

} // verus!
