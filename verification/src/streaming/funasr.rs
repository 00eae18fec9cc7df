//! The FunASR WebSocket protocol: a JSON configuration message, binary PCM
//! frames, a JSON end-of-speech message, and JSON recognition results.

use vstd::prelude::*;
use crate::codec::{json_bool_member, json_member_bool, json_member_str, json_str_member};
use crate::codec::json_quoted;
use crate::json::{json_bool, push_json_bool, push_json_string};
use crate::streaming::{AsrConfig, AsrError, AsrEvent};
use crate::text::{
    chars_of, copy_str, copy_string, decimal, push_str, str_equal, strings_view, u64_to_decimal,
};

verus! {

broadcast use vstd::string::group_string_axioms;

// ─── Ordering of strings ────────────────────────────────────────────

/// `a` sorts strictly before `b`, comparing characters by code point (the
/// order of `String`).
pub open spec fn lex_lt(a: Seq<char>, b: Seq<char>) -> bool
    decreases a.len(),
{
    if a.len() == 0 {
        b.len() > 0
    } else if b.len() == 0 {
        false
    } else if a[0] != b[0] {
        a[0] < b[0]
    } else {
        lex_lt(a.drop_first(), b.drop_first())
    }
}

proof fn lemma_lex_irreflexive(a: Seq<char>)
    ensures
        !lex_lt(a, a),
    decreases a.len(),
{
    if a.len() > 0 {
        lemma_lex_irreflexive(a.drop_first());
    }
}

proof fn lemma_lex_transitive(a: Seq<char>, b: Seq<char>, c: Seq<char>)
    requires
        lex_lt(a, b),
        lex_lt(b, c),
    ensures
        lex_lt(a, c),
    decreases a.len(),
{
    if a.len() > 0 && b.len() > 0 && c.len() > 0 && a[0] == b[0] && b[0] == c[0] {
        lemma_lex_transitive(a.drop_first(), b.drop_first(), c.drop_first());
    }
}

proof fn lemma_lex_total(a: Seq<char>, b: Seq<char>)
    ensures
        a == b || lex_lt(a, b) || lex_lt(b, a),
    decreases a.len(),
{
    if a.len() > 0 && b.len() > 0 && a[0] == b[0] {
        lemma_lex_total(a.drop_first(), b.drop_first());
        if a.drop_first() == b.drop_first() {
            assert(a =~= seq![a[0]] + a.drop_first());
            assert(b =~= seq![b[0]] + b.drop_first());
        }
    } else if a.len() == 0 && b.len() == 0 {
        assert(a =~= b);
    }
}

fn lex_less(a: &[char], b: &[char]) -> (r: bool)
    ensures
        r == lex_lt(a@, b@),
{
    let mut k: usize = 0;
    assert(a@.skip(0) =~= a@ && b@.skip(0) =~= b@);
    while k < a.len() && k < b.len() && a[k] == b[k]
        invariant
            0 <= k <= a@.len(),
            k <= b@.len(),
            lex_lt(a@, b@) == lex_lt(a@.skip(k as int), b@.skip(k as int)),
        decreases a@.len() - k,
    {
        assert(a@.skip(k as int).drop_first() =~= a@.skip(k + 1));
        assert(b@.skip(k as int).drop_first() =~= b@.skip(k + 1));
        k = k + 1;
    }
    if k == a.len() {
        k < b.len()
    } else if k == b.len() {
        false
    } else {
        a[k] < b[k]
    }
}

/// `keys` is strictly increasing.
pub open spec fn strictly_sorted(keys: Seq<Seq<char>>) -> bool {
    forall|i: int, j: int| 0 <= i < j < keys.len() ==> lex_lt(#[trigger] keys[i], #[trigger] keys[j])
}

// ─── Messages ───────────────────────────────────────────────────────

pub open spec fn weight_items(keys: Seq<Seq<char>>) -> Seq<char>
    decreases keys.len(),
{
    if keys.len() == 0 {
        Seq::empty()
    } else if keys.len() == 1 {
        json_quoted(keys[0]) + ":20"@
    } else {
        weight_items(keys.drop_last()) + ","@ + json_quoted(keys.last()) + ":20"@
    }
}

/// The hotword table FunASR expects: a JSON object giving every hotword the
/// weight 20, keys sorted and each once; empty text without hotwords.
pub open spec fn is_hotword_table(hotwords: Seq<Seq<char>>, table: Seq<char>) -> bool {
    if hotwords.len() == 0 {
        table == Seq::<char>::empty()
    } else {
        exists|keys: Seq<Seq<char>>|
            #![trigger weight_items(keys)]
            strictly_sorted(keys) && keys.to_set() == hotwords.to_set() && table == "{"@
                + weight_items(keys) + "}"@
    }
}

proof fn lemma_push_to_set(s: Seq<Seq<char>>, x: Seq<char>)
    ensures
        s.push(x).to_set() == s.to_set().insert(x),
{
    assert forall|y: Seq<char>| s.push(x).to_set().contains(y) <==> s.to_set().insert(x).contains(y) by {
        if s.push(x).contains(y) && y != x {
            let j = choose|j: int| 0 <= j < s.push(x).len() && s.push(x)[j] == y;
            assert(s[j] == y);
        }
        if s.contains(y) {
            let j = choose|j: int| 0 <= j < s.len() && s[j] == y;
            assert(s.push(x)[j] == y);
        }
        if y == x {
            assert(s.push(x)[s.len() as int] == y);
        }
    }
    assert(s.push(x).to_set() =~= s.to_set().insert(x));
}

/// Inserts `w` into the strictly sorted `keys`, unless it is there already.
fn insert_sorted(keys: &mut Vec<Vec<char>>, w: Vec<char>)
    requires
        strictly_sorted(old(keys)@.map_values(|k: Vec<char>| k@)),
    ensures
        strictly_sorted(final(keys)@.map_values(|k: Vec<char>| k@)),
        final(keys)@.map_values(|k: Vec<char>| k@).to_set() == old(keys)@.map_values(
            |k: Vec<char>| k@,
        ).to_set().insert(w@),
{
    let ghost ks = keys@.map_values(|k: Vec<char>| k@);
    let mut p: usize = 0;
    while p < keys.len() && lex_less(keys[p].as_slice(), w.as_slice())
        invariant
            0 <= p <= keys@.len(),
            ks == keys@.map_values(|k: Vec<char>| k@),
            forall|a: int| 0 <= a < p ==> lex_lt(#[trigger] ks[a], w@),
        decreases keys@.len() - p,
    {
        p = p + 1;
    }
    if p < keys.len() && crate::text::chars_equal(keys[p].as_slice(), w.as_slice()) {
        assert(ks[p as int] == w@);
        assert(ks.to_set().contains(w@));
        assert(ks.to_set().insert(w@) =~= ks.to_set());
        return;
    }
    proof {
        if p < keys.len() {
            lemma_lex_total(ks[p as int], w@);
        }
    }
    let ghost wv = w@;
    keys.insert(p, w);
    let ghost nk = keys@.map_values(|k: Vec<char>| k@);
    assert(nk =~= ks.insert(p as int, wv));
    assert forall|a: int, b: int| 0 <= a < b < nk.len() implies lex_lt(#[trigger] nk[a], #[trigger] nk[b]) by {
        if b < p {
            assert(nk[a] == ks[a] && nk[b] == ks[b]);
        } else if b == p {
            assert(nk[a] == ks[a]);
        } else if a == p {
            assert(nk[b] == ks[b - 1]);
            if b - 1 > p {
                lemma_lex_transitive(wv, ks[p as int], ks[b - 1]);
            }
        } else if a < p {
            assert(nk[a] == ks[a] && nk[b] == ks[b - 1]);
        } else {
            assert(nk[a] == ks[a - 1] && nk[b] == ks[b - 1]);
        }
    }
    assert forall|x: Seq<char>| nk.to_set().contains(x) <==> ks.to_set().insert(wv).contains(x) by {
        if nk.contains(x) {
            let j = choose|j: int| 0 <= j < nk.len() && nk[j] == x;
            if j < p {
                assert(ks[j] == x);
            } else if j > p {
                assert(ks[j - 1] == x);
            }
        }
        if ks.contains(x) {
            let j = choose|j: int| 0 <= j < ks.len() && ks[j] == x;
            if j < p {
                assert(nk[j] == x);
            } else {
                assert(nk[j + 1] == x);
            }
        }
        if x == wv {
            assert(nk[p as int] == x);
        }
    }
    assert(nk.to_set() =~= ks.to_set().insert(wv));
}

/// The keys of the table, sorted and each once.
fn sorted_keys(hotwords: &[String]) -> (keys: Vec<Vec<char>>)
    ensures
        strictly_sorted(keys@.map_values(|k: Vec<char>| k@)),
        keys@.map_values(|k: Vec<char>| k@).to_set() == strings_view(hotwords@).to_set(),
{
    let ghost hw = strings_view(hotwords@);
    let mut keys: Vec<Vec<char>> = Vec::new();
    assert(keys@.map_values(|k: Vec<char>| k@).to_set() =~= hw.take(0).to_set());
    let mut i: usize = 0;
    while i < hotwords.len()
        invariant
            0 <= i <= hotwords@.len() == hw.len(),
            hw == strings_view(hotwords@),
            strictly_sorted(keys@.map_values(|k: Vec<char>| k@)),
            keys@.map_values(|k: Vec<char>| k@).to_set() == hw.take(i as int).to_set(),
        decreases hotwords@.len() - i,
    {
        let w = chars_of(hotwords[i].as_str());
        assert(hw[i as int] == w@);
        assert(hw.take(i + 1) =~= hw.take(i as int).push(w@));
        proof {
            lemma_push_to_set(hw.take(i as int), w@);
        }
        insert_sorted(&mut keys, w);
        i = i + 1;
    }
    assert(hw.take(hotwords@.len() as int) =~= hw);
    keys
}

/// Builds the hotword table.
pub fn hotword_table(hotwords: &[String]) -> (t: String)
    ensures
        is_hotword_table(strings_view(hotwords@), t@),
{
    if hotwords.len() == 0 {
        assert(strings_view(hotwords@).len() == 0);
        return String::new();
    }
    let keys = sorted_keys(hotwords);
    let ghost ks = keys@.map_values(|k: Vec<char>| k@);
    let mut t = String::new();
    push_str(&mut t, "{");
    let mut j: usize = 0;
    while j < keys.len()
        invariant
            0 <= j <= keys@.len() == ks.len(),
            ks == keys@.map_values(|k: Vec<char>| k@),
            t@ == "{"@ + weight_items(ks.take(j as int)),
        decreases keys@.len() - j,
    {
        assert(ks.take(j + 1).drop_last() =~= ks.take(j as int));
        assert(ks.take(j + 1).last() == keys@[j as int]@);
        if j > 0 {
            push_str(&mut t, ",");
        }
        let key = crate::text::string_from_chars(keys[j].as_slice());
        push_json_string(&mut t, key.as_str());
        push_str(&mut t, ":20");
        assert(t@ =~= "{"@ + weight_items(ks.take(j + 1)));
        j = j + 1;
    }
    assert(ks.take(keys@.len() as int) =~= ks);
    push_str(&mut t, "}");
    t
}

pub open spec fn number_items(v: Seq<u32>) -> Seq<char>
    decreases v.len(),
{
    if v.len() == 0 {
        Seq::empty()
    } else if v.len() == 1 {
        decimal(v[0] as nat)
    } else {
        number_items(v.drop_last()) + ","@ + decimal(v.last() as nat)
    }
}

/// The configuration message opening a FunASR session (serde_json's compact
/// form: keys sorted, no spaces). The hotword table travels as a string.
pub open spec fn init_message(
    rate: u32,
    chunk_size: Seq<u32>,
    hotword_table: Seq<char>,
    itn: bool,
    mode: Seq<char>,
) -> Seq<char> {
    "{\"audio_fs\":"@ + decimal(rate as nat) + ",\"chunk_size\":["@ + number_items(chunk_size)
        + "],\"hotwords\":"@ + json_quoted(hotword_table) + ",\"is_speaking\":true,\"itn\":"@
        + json_bool(itn) + ",\"mode\":"@ + json_quoted(mode)
        + ",\"wav_format\":\"pcm\",\"wav_name\":\"koe\"}"@
}

/// Builds the configuration message for `config`.
pub fn build_init_message(config: &AsrConfig) -> (m: String)
    ensures
        exists|table: Seq<char>|
            #![trigger is_hotword_table(strings_view(config.hotwords@), table)]
            is_hotword_table(strings_view(config.hotwords@), table) && m@ == init_message(
                config.sample_rate_hz,
                config.chunk_size@,
                table,
                config.enable_itn,
                config.mode@,
            ),
{
    let table = hotword_table(config.hotwords.as_slice());
    let mut m = String::new();
    push_str(&mut m, "{\"audio_fs\":");
    let rate = u64_to_decimal(config.sample_rate_hz as u64);
    push_str(&mut m, rate.as_str());
    push_str(&mut m, ",\"chunk_size\":[");
    let ghost start = m@;
    let ghost cs = config.chunk_size@;
    let mut i: usize = 0;
    while i < config.chunk_size.len()
        invariant
            0 <= i <= cs.len(),
            cs == config.chunk_size@,
            m@ == start + number_items(cs.take(i as int)),
        decreases cs.len() - i,
    {
        assert(cs.take(i + 1).drop_last() =~= cs.take(i as int));
        assert(cs.take(i + 1).last() == cs[i as int]);
        if i > 0 {
            push_str(&mut m, ",");
        }
        let d = u64_to_decimal(config.chunk_size[i] as u64);
        push_str(&mut m, d.as_str());
        assert(m@ =~= start + number_items(cs.take(i + 1)));
        i = i + 1;
    }
    assert(cs.take(cs.len() as int) =~= cs);
    push_str(&mut m, "],\"hotwords\":");
    push_json_string(&mut m, table.as_str());
    push_str(&mut m, ",\"is_speaking\":true,\"itn\":");
    push_json_bool(&mut m, config.enable_itn);
    push_str(&mut m, ",\"mode\":");
    push_json_string(&mut m, config.mode.as_str());
    push_str(&mut m, ",\"wav_format\":\"pcm\",\"wav_name\":\"koe\"}");
    m
}

pub const END_OF_SPEECH: &'static str = "{\"is_speaking\":false}";

/// The message telling FunASR that speech has ended.
pub fn build_finish_message() -> (m: String)
    ensures
        m@ == END_OF_SPEECH@,
{
    copy_str(END_OF_SPEECH)
}


/// What the FunASR WebSocket delivered.
pub enum FunAsrIncoming {
    Text(String),
    Close,
    /// A binary, ping or pong frame.
    Other,
    /// The transport failed, with its message.
    Failed(String),
    /// The stream ended.
    Ended,
}

pub open spec fn is_offline_mode(mode: Seq<char>) -> bool {
    mode == "2pass-offline"@ || mode == "offline"@
}

pub open spec fn text_or_empty(t: Option<Seq<char>>) -> Seq<char> {
    match t {
        Some(x) => x,
        None => Seq::empty(),
    }
}

/// The `mode` and `text` strings and the `is_final` boolean of a recognition
/// message: `None` when reading any of them finds that the text is not JSON.
pub open spec fn recognition_fields(text: Seq<char>) -> Option<
    (Option<Seq<char>>, Option<Seq<char>>, Option<bool>),
> {
    match (
        json_member_str(text, "mode"@),
        json_member_str(text, "text"@),
        json_member_bool(text, "is_final"@),
    ) {
        (Some(m), Some(t), Some(b)) => Some((m, t, b)),
        _ => None,
    }
}

/// The event a recognition result stands for: the final text when
/// `is_final`, confirmed text from the offline pass, partial text otherwise.
pub open spec fn result_event(
    fields: (Option<Seq<char>>, Option<Seq<char>>, Option<bool>),
    r: Result<AsrEvent, AsrError>,
) -> bool {
    let mode = text_or_empty(fields.0);
    let text = text_or_empty(fields.1);
    let is_final = match fields.2 {
        Some(b) => b,
        None => false,
    };
    if is_final {
        r matches Ok(AsrEvent::Final(t)) && t@ == text
    } else if is_offline_mode(mode) {
        r matches Ok(AsrEvent::Definite(t)) && t@ == text
    } else {
        r matches Ok(AsrEvent::Interim(t)) && t@ == text
    }
}

/// How a recognition message is reported: `is_final` gives the final text;
/// otherwise a streaming pass (`online`, `2pass-online`) gives interim text,
/// an offline pass (`offline`, `2pass-offline`) gives confirmed text, and any
/// other or missing mode gives interim text. A missing text counts as empty.
pub proof fn law_recognition_event_kinds(
    mode: Option<Seq<char>>,
    text: Option<Seq<char>>,
    is_final: Option<bool>,
    r: Result<AsrEvent, AsrError>,
)
    requires
        result_event((mode, text, is_final), r),
    ensures
        ({
            let t = match text {
                Some(x) => x,
                None => Seq::empty(),
            };
            &&& is_final == Some(true) ==> (r matches Ok(AsrEvent::Final(e)) && e@ == t)
            &&& is_final != Some(true) && (mode == Some("online"@) || mode == Some("2pass-online"@))
                ==> (r matches Ok(AsrEvent::Interim(e)) && e@ == t)
            &&& is_final != Some(true) && (mode == Some("offline"@) || mode == Some("2pass-offline"@))
                ==> (r matches Ok(AsrEvent::Definite(e)) && e@ == t)
            &&& is_final != Some(true) && mode != Some("offline"@) && mode != Some("2pass-offline"@)
                ==> (r matches Ok(AsrEvent::Interim(e)) && e@ == t)
        }),
{
    reveal_strlit("online");
    reveal_strlit("2pass-online");
    reveal_strlit("offline");
    reveal_strlit("2pass-offline");
    assert("online"@ != "offline"@) by {
        assert("online"@[1] != "offline"@[1]);
    }
    assert("online"@.len() != "2pass-offline"@.len());
    assert("2pass-online"@.len() != "offline"@.len());
    assert("2pass-online"@ != "2pass-offline"@) by {
        assert("2pass-online"@[7] != "2pass-offline"@[7]);
    }
}

/// The state of a FunASR session: whether the server has finished.
pub struct FunAsrSession {
    pub closed: bool,
}

impl FunAsrSession {
    pub fn new() -> (s: FunAsrSession)
        ensures
            !s.closed,
    {
        FunAsrSession { closed: false }
    }

    /// Decides what a message from the server means. `None` stands for a
    /// session that is not connected. A closed session only reports `Closed`.
    pub fn on_message(&mut self, msg: Option<FunAsrIncoming>) -> (r: Result<AsrEvent, AsrError>)
        ensures
            old(self).closed ==> (r matches Ok(AsrEvent::Closed)) && final(self).closed,
            !old(self).closed ==> match msg {
                None => (r matches Err(AsrError::Connection(m)) && m@ == "not connected"@)
                    && !final(self).closed,
                Some(FunAsrIncoming::Text(text)) => match recognition_fields(text@) {
                    None => (r matches Err(AsrError::Protocol(m)) && "parse JSON: "@.is_prefix_of(m@))
                        && !final(self).closed,
                    Some(f) => result_event(f, r) && final(self).closed == (f.2 == Some(true)),
                },
                Some(FunAsrIncoming::Close) => (r matches Ok(AsrEvent::Closed)) && final(self).closed,
                Some(FunAsrIncoming::Other) => (r matches Ok(AsrEvent::Interim(t)) && t@.len() == 0)
                    && !final(self).closed,
                Some(FunAsrIncoming::Failed(e)) => (r matches Err(AsrError::Protocol(m)) && m@ == e@)
                    && !final(self).closed,
                Some(FunAsrIncoming::Ended) => (r matches Ok(AsrEvent::Closed)) && final(self).closed,
            },
    {
        if self.closed {
            return Ok(AsrEvent::Closed);
        }
        match msg {
            None => Err(AsrError::Connection(copy_str("not connected"))),
            Some(FunAsrIncoming::Text(text)) => {
                let fields = match json_str_member(text.as_str(), "mode") {
                    Err(e) => Err(e),
                    Ok(mode) => match json_str_member(text.as_str(), "text") {
                        Err(e) => Err(e),
                        Ok(t) => match json_bool_member(text.as_str(), "is_final") {
                            Err(e) => Err(e),
                            Ok(f) => Ok((mode, t, f)),
                        },
                    },
                };
                match fields {
                    Err(e) => {
                        let mut m = String::new();
                        push_str(&mut m, "parse JSON: ");
                        push_str(&mut m, e.as_str());
                        Err(AsrError::Protocol(m))
                    },
                    Ok((mode, t, is_final)) => {
                        let text = match t {
                            Some(x) => x,
                            None => String::new(),
                        };
                        let fin = match is_final {
                            Some(b) => b,
                            None => false,
                        };
                        if fin {
                            self.closed = true;
                            return Ok(AsrEvent::Final(text));
                        }
                        proof {
                            reveal_strlit("2pass-online");
                            reveal_strlit("online");
                            reveal_strlit("2pass-offline");
                            reveal_strlit("offline");
                        }
                        let mode_str = match mode {
                            Some(x) => x,
                            None => String::new(),
                        };
                        if str_equal(mode_str.as_str(), "2pass-online") || str_equal(
                            mode_str.as_str(),
                            "online",
                        ) {
                            assert(!is_offline_mode(mode_str@)) by {
                                assert("2pass-online"@[7] != "2pass-offline"@[7]);
                                assert("2pass-online"@.len() != "offline"@.len());
                                assert("online"@.len() != "2pass-offline"@.len());
                                assert("online"@[1] != "offline"@[1]);
                            }
                            Ok(AsrEvent::Interim(text))
                        } else if str_equal(mode_str.as_str(), "2pass-offline") || str_equal(
                            mode_str.as_str(),
                            "offline",
                        ) {
                            Ok(AsrEvent::Definite(text))
                        } else {
                            Ok(AsrEvent::Interim(text))
                        }
                    },
                }
            },
            Some(FunAsrIncoming::Close) => {
                self.closed = true;
                Ok(AsrEvent::Closed)
            },
            Some(FunAsrIncoming::Other) => Ok(AsrEvent::Interim(String::new())),
            Some(FunAsrIncoming::Failed(e)) => Err(AsrError::Protocol(e)),
            Some(FunAsrIncoming::Ended) => {
                self.closed = true;
                Ok(AsrEvent::Closed)
            },
        }
    }

    /// Marks the session closed.
    pub fn close(&mut self)
        ensures
            final(self).closed,
    {
        self.closed = true;
    }
}

} // verus!
