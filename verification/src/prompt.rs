use vstd::prelude::*;
use vstd::utf8::encode_utf8;
use crate::text::{
    chars_of, copy_str, strings_view, copy_string, push_char, push_str, to_lowercase, trim, trimmed,
    unicode_lowercase,
};

verus! {

broadcast use vstd::string::group_string_axioms;

// ─── Placeholder substitution ───────────────────────────────────────

/// `s` with every non-overlapping occurrence of `pat`, scanned from the left,
/// replaced by `rep` (`str::replace` for a non-empty pattern).
pub open spec fn replace_all(s: Seq<char>, pat: Seq<char>, rep: Seq<char>) -> Seq<char>
    decreases s.len(),
{
    if pat.len() == 0 || s.len() < pat.len() {
        s
    } else if s.take(pat.len() as int) == pat {
        rep + replace_all(s.skip(pat.len() as int), pat, rep)
    } else {
        seq![s[0]] + replace_all(s.drop_first(), pat, rep)
    }
}

fn starts_with_at(v: &[char], i: usize, pat: &[char]) -> (r: bool)
    requires
        i <= v@.len(),
    ensures
        r == (v@.len() - i >= pat@.len() && v@.skip(i as int).take(pat@.len() as int) == pat@),
{
    if v.len() - i < pat.len() {
        return false;
    }
    let mut k: usize = 0;
    while k < pat.len()
        invariant
            i <= v@.len(),
            v@.len() - i >= pat@.len(),
            v@.len() <= usize::MAX,
            0 <= k <= pat@.len(),
            forall|t: int| 0 <= t < k ==> v@[i + t] == pat@[t],
        decreases pat@.len() - k,
    {
        if v[i + k] != pat[k] {
            assert(v@.skip(i as int).take(pat@.len() as int)[k as int] == v@[i + k]);
            return false;
        }
        k = k + 1;
    }
    assert(v@.skip(i as int).take(pat@.len() as int) =~= pat@);
    true
}

/// Replaces every occurrence of `pat` in `s` by `rep`.
pub fn replace_str(s: &str, pat: &str, rep: &str) -> (r: String)
    requires
        pat@.len() > 0,
    ensures
        r@ == replace_all(s@, pat@, rep@),
{
    let v = chars_of(s);
    let p = chars_of(pat);
    let mut out = String::new();
    let mut i: usize = 0;
    assert(v@.skip(0) =~= v@);
    while i < v.len()
        invariant
            0 <= i <= v@.len(),
            v@ == s@,
            p@ == pat@,
            p@.len() > 0,
            out@ + replace_all(v@.skip(i as int), p@, rep@) == replace_all(v@, p@, rep@),
        decreases v@.len() - i,
    {
        let ghost rest = v@.skip(i as int);
        if starts_with_at(v.as_slice(), i, p.as_slice()) {
            assert(rest.skip(p@.len() as int) =~= v@.skip(i + p@.len()));
            push_str(&mut out, rep);
            i = i + p.len();
            assert(out@ + replace_all(v@.skip(i as int), p@, rep@) =~= replace_all(v@, p@, rep@));
        } else {
            assert(rest.drop_first() =~= v@.skip(i + 1));
            assert(rest[0] == v@[i as int]);
            push_char(&mut out, v[i]);
            i = i + 1;
            assert(out@ + replace_all(v@.skip(i as int), p@, rep@) =~= replace_all(v@, p@, rep@));
        }
    }
    assert(v@.skip(i as int) =~= Seq::<char>::empty());
    assert(out@ =~= replace_all(v@, p@, rep@));
    out
}

/// The entries joined with `sep` between consecutive ones.
pub open spec fn join(entries: Seq<Seq<char>>, sep: Seq<char>) -> Seq<char>
    decreases entries.len(),
{
    if entries.len() == 0 {
        Seq::empty()
    } else if entries.len() == 1 {
        entries[0]
    } else {
        join(entries.drop_last(), sep) + sep + entries.last()
    }
}

pub fn join_strings(entries: &[String], sep: &str) -> (r: String)
    ensures
        r@ == join(entries@.map_values(|e: String| e@), sep@),
{
    let ghost es = entries@.map_values(|e: String| e@);
    let mut out = String::new();
    let mut i: usize = 0;
    while i < entries.len()
        invariant
            0 <= i <= entries@.len() == es.len(),
            es == entries@.map_values(|e: String| e@),
            out@ == join(es.take(i as int), sep@),
        decreases entries@.len() - i,
    {
        assert(es.take(i + 1).drop_last() =~= es.take(i as int));
        assert(es[i as int] == entries@[i as int]@);
        if i > 0 {
            push_str(&mut out, sep);
        } else {
            assert(out@ == Seq::<char>::empty());
        }
        push_str(&mut out, entries[i].as_str());
        assert(out@ =~= join(es.take(i + 1), sep@));
        i = i + 1;
    }
    assert(es.take(entries@.len() as int) =~= es);
    out
}

pub const ASR_TEXT_PLACEHOLDER: &'static str = "{{asr_text}}";

pub const DICTIONARY_PLACEHOLDER: &'static str = "{{dictionary_entries}}";

/// Shown in place of the dictionary when it has no entries.
pub const NO_ENTRIES: &'static str = "（无）";

/// What stands in for the dictionary placeholder.
pub open spec fn dictionary_text(entries: Seq<Seq<char>>) -> Seq<char> {
    if entries.len() == 0 {
        NO_ENTRIES@
    } else {
        join(entries, seq!['\n'])
    }
}

/// The user prompt: the template with `{{asr_text}}` replaced by the
/// transcript, then `{{dictionary_entries}}` replaced by the dictionary.
pub open spec fn rendered_prompt(template: Seq<char>, asr_text: Seq<char>, entries: Seq<Seq<char>>) -> Seq<char> {
    replace_all(
        replace_all(template, ASR_TEXT_PLACEHOLDER@, asr_text),
        DICTIONARY_PLACEHOLDER@,
        dictionary_text(entries),
    )
}

/// Renders the user prompt by replacing the placeholders in the template.
pub fn render_user_prompt(template: &str, asr_text: &str, dictionary_entries: &[String]) -> (r: String)
    ensures
        r@ == rendered_prompt(template@, asr_text@, dictionary_entries@.map_values(|e: String| e@)),
{
    proof {
        reveal_strlit("{{asr_text}}");
        reveal_strlit("{{dictionary_entries}}");
    }
    let dict_str = if dictionary_entries.len() == 0 {
        copy_str(NO_ENTRIES)
    } else {
        join_strings(dictionary_entries, "\n")
    };
    proof {
        reveal_strlit("\n");
        assert("\n"@ =~= seq!['\n']);
    }
    let with_text = replace_str(template, ASR_TEXT_PLACEHOLDER, asr_text);
    replace_str(with_text.as_str(), DICTIONARY_PLACEHOLDER, dict_str.as_str())
}

// ─── Built-in prompts ───────────────────────────────────────────────

pub const DEFAULT_SYSTEM_PROMPT: &'static str = "You are a speech-to-text post-processor for a software developer. Your task is to apply minimal corrections to ASR output that may contain a mix of Chinese and English, with frequent technical terminology.\n\
         \n\
         Rules:\n\
         1. Preserve the original meaning. Do not expand, summarize, or restyle.\n\
         2. Mixed Chinese-English is intentional. Keep the speaker's language choices as-is. Do not translate Chinese to English or vice versa.\n\
         3. Capitalization: fix English words to their correct casing. This is especially important for technical terms:\n\
         - Programming languages: Python, JavaScript, TypeScript, Rust, Go, Java, C++, Ruby, Swift, Kotlin\n\
         - Brands/services: GitHub, GitLab, Cloudflare, AWS, GCP, Azure, Docker, Kubernetes, Redis, PostgreSQL, MySQL, MongoDB, Nginx, Node.js, Next.js, Vercel, Supabase, Firebase, Terraform, Ansible\n\
         - Protocols/formats: HTTP, HTTPS, SSH, TCP, UDP, DNS, API, REST, GraphQL, gRPC, JSON, YAML, TOML, XML, HTML, CSS, SQL, WebSocket\n\
         - Tools/concepts: CLI, SDK, IDE, CI/CD, DevOps, macOS, iOS, Linux, Ubuntu, npm, pip, cargo, Git, VS Code, Xcode, Vim, Neovim\n\
         - Acronyms: URL, URI, CDN, VPN, LLM, ASR, TTS, OCR, NLP, AI, ML, GPU, CPU, RAM, SSD, IP, OAuth, JWT, CORS\n\
         - Always capitalize the first letter of sentences.\n\
         4. Spacing: insert a half-width space between Chinese and English/numbers (e.g. \"使用Python\" -> \"使用 Python\", \"有3个\" -> \"有 3 个\"). No space between English words and Chinese punctuation.\n\
         5. Punctuation: use Chinese punctuation in Chinese context (，。！？：；) and English punctuation in English context. Do not mix. Use \"……\" instead of \"...\". Chinese sentences must end with punctuation.\n\
         6. Prefer terms, proper nouns, and spellings from the user dictionary when provided. The dictionary takes highest priority.\n\
         7. Remove filler words that carry no semantic meaning, such as 嗯, 啊, 哦, 呃, 这个, 那个, 就是, well, like, you know, um, uh, so basically.\n\
         8. Do not remove words that are clearly names, terms, titles, quoted content, or fixed expressions.\n\
         9. Code-related terms should keep their conventional form: e.g. \"main 函数\" not \"mian 函数\", \"npm install\" not \"NPM install\", \"git push\" not \"Git Push\" (subcommands stay lowercase).\n\
         10. Output only the corrected text. No explanations, no JSON, no quotation marks.";

pub const DEFAULT_USER_PROMPT_TEMPLATE: &'static str = "ASR transcript:\n{{asr_text}}\n\nUser dictionary:\n{{dictionary_entries}}\n\nOutput the corrected text only.";

/// The built-in system prompt.
pub fn build_default_system_prompt() -> (r: String)
    ensures
        r@ == DEFAULT_SYSTEM_PROMPT@,
{
    copy_str(DEFAULT_SYSTEM_PROMPT)
}

/// The built-in user prompt template.
pub fn build_default_user_prompt_template() -> (r: String)
    ensures
        r@ == DEFAULT_USER_PROMPT_TEMPLATE@,
{
    copy_str(DEFAULT_USER_PROMPT_TEMPLATE)
}

/// The prompt a file provides: its trimmed content, or `default` when the
/// file could not be read (`None`) or holds only whitespace.
pub open spec fn prompt_or_default(content: Option<Seq<char>>, default: Seq<char>) -> Seq<char> {
    match content {
        Some(c) => if trim(c).len() == 0 { default } else { trim(c) },
        None => default,
    }
}

/// The system prompt given the content of the system prompt file, if it
/// could be read.
pub fn system_prompt_from(content: Option<&str>) -> (r: String)
    ensures
        r@ == prompt_or_default(
            match content { Some(c) => Some(c@), None => None },
            DEFAULT_SYSTEM_PROMPT@,
        ),
{
    match content {
        Some(c) => {
            let t = trimmed(c);
            if chars_of(t.as_str()).len() == 0 {
                build_default_system_prompt()
            } else {
                t
            }
        },
        None => build_default_system_prompt(),
    }
}

/// The user prompt template given the content of the template file, if it
/// could be read.
pub fn user_prompt_template_from(content: Option<&str>) -> (r: String)
    ensures
        r@ == prompt_or_default(
            match content { Some(c) => Some(c@), None => None },
            DEFAULT_USER_PROMPT_TEMPLATE@,
        ),
{
    match content {
        Some(c) => {
            let t = trimmed(c);
            if chars_of(t.as_str()).len() == 0 {
                build_default_user_prompt_template()
            } else {
                t
            }
        },
        None => build_default_user_prompt_template(),
    }
}


// ─── Dictionary candidate selection ─────────────────────────────────

/// `p` occurs in `s` as a contiguous part (the empty sequence occurs everywhere).
pub open spec fn contains_run(s: Seq<char>, p: Seq<char>) -> bool {
    exists|i: int| 0 <= i <= s.len() - p.len() && #[trigger] s.subrange(i, i + p.len()) == p
}

/// How many characters of `entry` (counted with repetition) occur in `text`.
pub open spec fn char_overlap(entry: Seq<char>, text: Seq<char>) -> nat
    decreases entry.len(),
{
    if entry.len() == 0 {
        0
    } else {
        char_overlap(entry.drop_last(), text) + if text.contains(entry.last()) { 1nat } else { 0nat }
    }
}

/// Relevance of a dictionary entry to a transcript (given in lowercase):
/// shared characters, plus ten points per byte of the entry when one of the
/// two contains the other.
pub open spec fn candidate_score(entry: Seq<char>, asr_lower: Seq<char>) -> nat {
    let el = unicode_lowercase(entry);
    char_overlap(el, asr_lower) + if contains_run(asr_lower, el) || contains_run(el, asr_lower) {
        encode_utf8(entry).len() * 10
    } else {
        0
    }
}

pub open spec fn candidate_scores(dict: Seq<Seq<char>>, asr_text: Seq<char>) -> Seq<nat> {
    dict.map_values(|e: Seq<char>| candidate_score(e, unicode_lowercase(asr_text)))
}

/// The entry shares at least one character with the transcript (given in lowercase).
pub open spec fn has_overlap(entry: Seq<char>, asr_lower: Seq<char>) -> bool {
    char_overlap(unicode_lowercase(entry), asr_lower) > 0
}

/// The indices of `order` whose entries share a character with the transcript, in order.
pub open spec fn overlapping(order: Seq<int>, dict: Seq<Seq<char>>, asr_lower: Seq<char>) -> Seq<int>
    decreases order.len(),
{
    if order.len() == 0 {
        Seq::empty()
    } else {
        let rest = overlapping(order.drop_last(), dict, asr_lower);
        if has_overlap(dict[order.last()], asr_lower) { rest.push(order.last()) } else { rest }
    }
}

/// The entries kept from a ranking: those sharing a character with the
/// transcript, best first, at most `max`.
pub open spec fn kept_entries(order: Seq<int>, dict: Seq<Seq<char>>, asr_text: Seq<char>, max: nat) -> Seq<
    Seq<char>,
> {
    let idx = overlapping(order, dict, unicode_lowercase(asr_text));
    let kept = if idx.len() > max { idx.take(max as int) } else { idx };
    kept.map_values(|i: int| dict[i])
}

proof fn lemma_overlapping_members(order: Seq<int>, dict: Seq<Seq<char>>, asr_lower: Seq<char>)
    ensures
        overlapping(order, dict, asr_lower).len() <= order.len(),
        forall|k: int| 0 <= k < overlapping(order, dict, asr_lower).len() ==> {
            let i = #[trigger] overlapping(order, dict, asr_lower)[k];
            &&& has_overlap(dict[i], asr_lower)
            &&& order.contains(i)
        },
    decreases order.len(),
{
    if order.len() > 0 {
        let rest = order.drop_last();
        lemma_overlapping_members(rest, dict, asr_lower);
        assert forall|k: int| 0 <= k < overlapping(order, dict, asr_lower).len() implies {
            let i = #[trigger] overlapping(order, dict, asr_lower)[k];
            &&& has_overlap(dict[i], asr_lower)
            &&& order.contains(i)
        } by {
            let prev = overlapping(rest, dict, asr_lower);
            if k < prev.len() {
                let i = prev[k];
                let w = choose|w: int| 0 <= w < rest.len() && rest[w] == i;
                assert(order[w] == i);
            } else {
                assert(order[order.len() - 1] == order.last());
            }
        }
    }
}

/// What the filter keeps of a large dictionary: at most `max` entries, each
/// an entry of the dictionary that shares a character with the transcript.
pub proof fn law_filter_keeps_only_related_entries(
    order: Seq<int>,
    dict: Seq<Seq<char>>,
    asr_text: Seq<char>,
    max: nat,
)
    requires
        is_ranking(candidate_scores(dict, asr_text), order),
    ensures
        kept_entries(order, dict, asr_text, max).len() <= max,
        forall|k: int| 0 <= k < kept_entries(order, dict, asr_text, max).len() ==> {
            let e = #[trigger] kept_entries(order, dict, asr_text, max)[k];
            &&& dict.contains(e)
            &&& has_overlap(e, unicode_lowercase(asr_text))
        },
{
    let al = unicode_lowercase(asr_text);
    let idx = overlapping(order, dict, al);
    lemma_overlapping_members(order, dict, al);
    let kept = if idx.len() > max { idx.take(max as int) } else { idx };
    assert forall|k: int| 0 <= k < kept_entries(order, dict, asr_text, max).len() implies {
        let e = #[trigger] kept_entries(order, dict, asr_text, max)[k];
        &&& dict.contains(e)
        &&& has_overlap(e, al)
    } by {
        let i = idx[k];
        assert(kept[k] == i);
        let w = choose|w: int| 0 <= w < order.len() && order[w] == i;
        assert(0 <= order[w] < candidate_scores(dict, asr_text).len());
        assert(dict[i] == kept_entries(order, dict, asr_text, max)[k]);
    }
}

/// Entry `i` comes before entry `j`: higher score, or same score and earlier.
pub open spec fn ranks_before(scores: Seq<nat>, i: int, j: int) -> bool {
    scores[i] > scores[j] || (scores[i] == scores[j] && i < j)
}

/// `order` lists every entry once, best first (a stable sort by descending score).
pub open spec fn is_ranking(scores: Seq<nat>, order: Seq<int>) -> bool {
    &&& order.len() == scores.len()
    &&& forall|a: int| 0 <= a < order.len() ==> 0 <= #[trigger] order[a] < scores.len()
    &&& forall|a: int, b: int|
        0 <= a < b < order.len() ==> ranks_before(scores, #[trigger] order[a], #[trigger] order[b])
}

pub fn contains_at_some_position(s: &[char], p: &[char]) -> (r: bool)
    ensures
        r == contains_run(s@, p@),
{
    if p.len() > s.len() {
        return false;
    }
    let last = s.len() - p.len();
    let mut i: usize = 0;
    loop
        invariant
            last == s@.len() - p@.len(),
            0 <= i <= last,
            forall|t: int| 0 <= t < i ==> #[trigger] s@.subrange(t, t + p@.len()) != p@,
        decreases last - i,
    {
        assert(s@.skip(i as int).take(p@.len() as int) =~= s@.subrange(i as int, i + p@.len()));
        if starts_with_at(s, i, p) {
            return true;
        }
        if i == last {
            return false;
        }
        i = i + 1;
    }
}

fn char_in(s: &[char], c: char) -> (r: bool)
    ensures
        r == s@.contains(c),
{
    let mut k: usize = 0;
    while k < s.len()
        invariant
            0 <= k <= s@.len(),
            forall|t: int| 0 <= t < k ==> s@[t] != c,
        decreases s@.len() - k,
    {
        if s[k] == c {
            return true;
        }
        k = k + 1;
    }
    false
}

fn score_entry(entry: &String, asr_lower: &[char]) -> (r: (u128, bool))
    ensures
        r.0 == candidate_score(entry@, asr_lower@),
        r.1 == has_overlap(entry@, asr_lower@),
{
    let lower = to_lowercase(entry.as_str());
    let el = chars_of(lower.as_str());
    let mut overlap: usize = 0;
    let mut k: usize = 0;
    while k < el.len()
        invariant
            0 <= k <= el@.len(),
            overlap <= k,
            overlap == char_overlap(el@.take(k as int), asr_lower@),
        decreases el@.len() - k,
    {
        assert(el@.take(k + 1).drop_last() =~= el@.take(k as int));
        if char_in(asr_lower, el[k]) {
            overlap = overlap + 1;
        }
        k = k + 1;
    }
    assert(el@.take(el@.len() as int) =~= el@);
    let bonus: u128 = if contains_at_some_position(asr_lower, el.as_slice())
        || contains_at_some_position(el.as_slice(), asr_lower) {
        let b = entry.as_str().as_bytes();
        proof {
            vstd::slice::axiom_spec_len(b);
        }
        (b.len() as u128) * 10
    } else {
        0
    };
    (overlap as u128 + bonus, overlap > 0)
}

/// Keeps the dictionary small enough for the prompt. When it has more than
/// `max_candidates` entries, only entries sharing characters with the
/// transcript are kept: the most related first (ties keep dictionary order),
/// at most `max_candidates` of them.
pub fn filter_dictionary_candidates(dictionary: &[String], asr_text: &str, max_candidates: usize) -> (r: Vec<String>)
    ensures
        dictionary@.len() <= max_candidates ==> r@.map_values(|e: String| e@)
            == dictionary@.map_values(|e: String| e@),
        dictionary@.len() > max_candidates ==> exists|order: Seq<int>|
            #![trigger is_ranking(candidate_scores(strings_view(dictionary@), asr_text@), order)]
            is_ranking(candidate_scores(strings_view(dictionary@), asr_text@), order) && strings_view(
                r@,
            ) == kept_entries(order, strings_view(dictionary@), asr_text@, max_candidates as nat),
{
    if dictionary.len() <= max_candidates {
        let mut out: Vec<String> = Vec::new();
        let mut i: usize = 0;
        while i < dictionary.len()
            invariant
                0 <= i <= dictionary@.len(),
                out@.len() == i,
                forall|t: int| 0 <= t < i ==> (#[trigger] out@[t])@ == dictionary@[t]@,
            decreases dictionary@.len() - i,
        {
            out.push(copy_string(&dictionary[i]));
            i = i + 1;
        }
        assert(out@.map_values(|e: String| e@) =~= dictionary@.map_values(|e: String| e@));
        return out;
    }
    let asr_lower = to_lowercase(asr_text);
    let al = chars_of(asr_lower.as_str());
    let ghost dict = strings_view(dictionary@);
    let ghost sc = candidate_scores(dict, asr_text@);
    let n = dictionary.len();
    let mut scores: Vec<u128> = Vec::new();
    let mut overlaps: Vec<bool> = Vec::new();
    let mut i: usize = 0;
    while i < n
        invariant
            n == dictionary@.len() == dict.len() == sc.len(),
            dict == dictionary@.map_values(|e: String| e@),
            sc == candidate_scores(dict, asr_text@),
            al@ == unicode_lowercase(asr_text@),
            0 <= i <= n,
            scores@.len() == i,
            overlaps@.len() == i,
            forall|t: int| 0 <= t < i ==> #[trigger] scores@[t] == sc[t],
            forall|t: int| 0 <= t < i ==> #[trigger] overlaps@[t] == has_overlap(dict[t], al@),
        decreases n - i,
    {
        let (s, o) = score_entry(&dictionary[i], al.as_slice());
        proof {
            assert(dict[i as int] == dictionary@[i as int]@);
        }
        scores.push(s);
        overlaps.push(o);
        i = i + 1;
    }
    // Insertion sort of the entry indices, best first; equal scores keep
    // their dictionary order.
    let mut order: Vec<usize> = Vec::new();
    let mut i: usize = 0;
    while i < n
        invariant
            n == sc.len() == scores@.len(),
            forall|t: int| 0 <= t < n ==> #[trigger] scores@[t] == sc[t],
            0 <= i <= n,
            order@.len() == i,
            forall|a: int| 0 <= a < order@.len() ==> #[trigger] order@[a] < i,
            forall|a: int, b: int|
                0 <= a < b < order@.len() ==> ranks_before(sc, #[trigger] order@[a] as int, #[trigger] order@[b] as int),
        decreases n - i,
    {
        let si = scores[i];
        let mut p: usize = 0;
        while p < order.len() && scores[order[p]] >= si
            invariant
                0 <= p <= order@.len(),
                order@.len() == i,
                i < n,
                si == sc[i as int],
                n == sc.len() == scores@.len(),
                forall|a: int| 0 <= a < order@.len() ==> #[trigger] order@[a] < i,
                forall|t: int| 0 <= t < n ==> #[trigger] scores@[t] == sc[t],
                forall|a: int| 0 <= a < p ==> sc[#[trigger] order@[a] as int] >= sc[i as int],
            decreases order@.len() - p,
        {
            p = p + 1;
        }
        let ghost old_order = order@;
        order.insert(p, i);
        proof {
            assert forall|a: int, b: int|
                0 <= a < b < order@.len() implies ranks_before(sc, #[trigger] order@[a] as int, #[trigger] order@[b] as int) by {
                if b < p {
                    assert(order@[a] == old_order[a] && order@[b] == old_order[b]);
                } else if b == p {
                    assert(order@[a] == old_order[a]);
                } else if a == p {
                    assert(order@[b] == old_order[b - 1]);
                    assert(ranks_before(sc, old_order[p as int] as int, old_order[b - 1] as int) || b - 1 == p);
                } else if a < p {
                    assert(order@[a] == old_order[a] && order@[b] == old_order[b - 1]);
                } else {
                    assert(order@[a] == old_order[a - 1] && order@[b] == old_order[b - 1]);
                }
            }
        }
        i = i + 1;
    }
    let ghost ord = order@.map_values(|x: usize| x as int);
    proof {
        assert forall|a: int, b: int| 0 <= a < b < ord.len() implies ranks_before(sc, #[trigger] ord[a], #[trigger] ord[b]) by {
            assert(ord[a] == order@[a] as int && ord[b] == order@[b] as int);
        }
        assert(is_ranking(sc, ord));
    }
    // Walk the ranking and keep the entries that share a character with
    // the transcript, up to the limit.
    let mut out: Vec<String> = Vec::new();
    let mut t: usize = 0;
    while t < n
        invariant
            max_candidates < n == order@.len() == dictionary@.len() == dict.len() == overlaps@.len(),
            dict == dictionary@.map_values(|e: String| e@),
            ord == order@.map_values(|x: usize| x as int),
            forall|a: int| 0 <= a < order@.len() ==> #[trigger] order@[a] < n,
            forall|k: int| 0 <= k < n ==> #[trigger] overlaps@[k] == has_overlap(dict[k], al@),
            0 <= t <= n,
            out@.len() <= max_candidates,
            out@.len() == overlapping(ord.take(t as int), dict, al@).len() || out@.len() == max_candidates,
            out@.len() <= overlapping(ord.take(t as int), dict, al@).len(),
            forall|k: int| 0 <= k < out@.len() ==> (#[trigger] out@[k])@ == dict[overlapping(ord.take(t as int), dict, al@)[k]],
        decreases n - t,
    {
        let ghost before = overlapping(ord.take(t as int), dict, al@);
        proof {
            assert(ord.take(t + 1).drop_last() =~= ord.take(t as int));
            assert(ord.take(t + 1).last() == order@[t as int] as int);
        }
        let k = order[t];
        if overlaps[k] && out.len() < max_candidates {
            out.push(copy_string(&dictionary[k]));
        }
        proof {
            let after = overlapping(ord.take(t + 1), dict, al@);
            assert(after == if has_overlap(dict[k as int], al@) { before.push(k as int) } else { before });
        }
        t = t + 1;
    }
    proof {
        assert(ord.take(n as int) =~= ord);
        let idx = overlapping(ord, dict, unicode_lowercase(asr_text@));
        let kept = if idx.len() > max_candidates { idx.take(max_candidates as int) } else { idx };
        assert(strings_view(out@) =~= kept.map_values(|i: int| dict[i]));
    }
    out
}

} // verus!
