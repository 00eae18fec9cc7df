//! Local (sherpa-onnx) recognition: choosing model files in a model
//! directory, and turning recognizer output into session events.

use vstd::prelude::*;
use crate::prompt::{contains_at_some_position, contains_run};
use crate::streaming::{AsrError, AsrEvent};
use crate::text::{
    chars_of, chars_equal, copy_str, copy_string, push_char, push_str, strings_view, to_lowercase,
    trim, trimmed, unicode_lowercase,
};

verus! {

broadcast use vstd::string::group_string_axioms;

// ─── Model files ────────────────────────────────────────────────────

pub open spec fn ends_with(s: Seq<char>, suffix: Seq<char>) -> bool {
    s.len() >= suffix.len() && s.skip(s.len() - suffix.len()) == suffix
}

fn ends_with_chars(s: &[char], suffix: &[char]) -> (r: bool)
    ensures
        r == ends_with(s@, suffix@),
{
    if s.len() < suffix.len() {
        return false;
    }
    let off = s.len() - suffix.len();
    let mut k: usize = 0;
    while k < suffix.len()
        invariant
            off == s@.len() - suffix@.len(),
            s@.len() <= usize::MAX,
            0 <= k <= suffix@.len(),
            forall|t: int| 0 <= t < k ==> s@[off + t] == suffix@[t],
        decreases suffix@.len() - k,
    {
        if s[off + k] != suffix[k] {
            assert(s@.skip(off as int)[k as int] == s@[off + k]);
            return false;
        }
        k = k + 1;
    }
    assert(s@.skip(off as int) =~= suffix@);
    true
}

/// How a file in a model directory is recognised by its name.
pub enum NamePattern {
    /// The name ends with the text.
    Suffix(&'static str),
    /// The name is exactly the text.
    Exact(&'static str),
    /// The lowercase name contains the keyword and ends with `.int8.onnx`.
    Int8Model(&'static str),
    /// The lowercase name contains the keyword and ends with `.onnx` but not `.int8.onnx`.
    FullModel(&'static str),
}

pub open spec fn pattern_holds(p: NamePattern, name: Seq<char>) -> bool {
    match p {
        NamePattern::Suffix(s) => ends_with(name, s@),
        NamePattern::Exact(s) => name == s@,
        NamePattern::Int8Model(k) => {
            let l = unicode_lowercase(name);
            contains_run(l, k@) && ends_with(l, ".int8.onnx"@)
        },
        NamePattern::FullModel(k) => {
            let l = unicode_lowercase(name);
            contains_run(l, k@) && ends_with(l, ".onnx"@) && !ends_with(l, ".int8.onnx"@)
        },
    }
}

fn pattern_test(p: &NamePattern, name: &String) -> (r: bool)
    ensures
        r == pattern_holds(*p, name@),
{
    match p {
        NamePattern::Suffix(s) => {
            let n = chars_of(name.as_str());
            let x = chars_of(s);
            ends_with_chars(n.as_slice(), x.as_slice())
        },
        NamePattern::Exact(s) => {
            let n = chars_of(name.as_str());
            let x = chars_of(s);
            chars_equal(n.as_slice(), x.as_slice())
        },
        NamePattern::Int8Model(k) => {
            let l = chars_of(to_lowercase(name.as_str()).as_str());
            let kc = chars_of(k);
            let int8 = chars_of(".int8.onnx");
            contains_at_some_position(l.as_slice(), kc.as_slice()) && ends_with_chars(
                l.as_slice(),
                int8.as_slice(),
            )
        },
        NamePattern::FullModel(k) => {
            let l = chars_of(to_lowercase(name.as_str()).as_str());
            let kc = chars_of(k);
            let onnx = chars_of(".onnx");
            let int8 = chars_of(".int8.onnx");
            contains_at_some_position(l.as_slice(), kc.as_slice()) && ends_with_chars(
                l.as_slice(),
                onnx.as_slice(),
            ) && !ends_with_chars(l.as_slice(), int8.as_slice())
        },
    }
}

/// The first of `names` that fits `p`.
pub open spec fn first_fitting(names: Seq<Seq<char>>, p: NamePattern) -> Option<int>
    decreases names.len(),
{
    if names.len() == 0 {
        None
    } else if pattern_holds(p, names[0]) {
        Some(0)
    } else {
        match first_fitting(names.drop_first(), p) {
            Some(i) => Some(i + 1),
            None => None,
        }
    }
}

/// Directory entries: (file name, full path), in the order the directory lists them.
pub open spec fn entry_names(entries: Seq<(String, String)>) -> Seq<Seq<char>> {
    entries.map_values(|e: (String, String)| e.0@)
}

pub open spec fn entry_paths(entries: Seq<(String, String)>) -> Seq<Seq<char>> {
    entries.map_values(|e: (String, String)| e.1@)
}

/// The path of the first entry whose name fits `p`.
pub fn find_entry(entries: &[(String, String)], p: &NamePattern) -> (r: Option<String>)
    ensures
        match first_fitting(entry_names(entries@), *p) {
            Some(i) => r matches Some(s) && 0 <= i < entries@.len() && s@ == entries@[i].1@,
            None => r is None,
        },
{
    let ghost names = entry_names(entries@);
    let mut k: usize = 0;
    assert(names.skip(0) =~= names);
    while k < entries.len()
        invariant
            0 <= k <= entries@.len() == names.len(),
            names == entry_names(entries@),
            first_fitting(names, *p) == match first_fitting(names.skip(k as int), *p) {
                Some(i) => Some(i + k),
                None => None::<int>,
            },
        decreases entries@.len() - k,
    {
        assert(names.skip(k as int)[0] == entries@[k as int].0@);
        assert(names.skip(k as int).drop_first() =~= names.skip(k + 1));
        if pattern_test(p, &entries[k].0) {
            return Some(copy_string(&entries[k].1));
        }
        k = k + 1;
    }
    assert(names.skip(k as int).len() == 0);
    None
}

fn connection_error(prefix: &str, dir: &str) -> (e: AsrError)
    ensures
        e matches AsrError::Connection(m) && m@ == prefix@ + dir@,
{
    let mut m = String::new();
    push_str(&mut m, prefix);
    push_str(&mut m, dir);
    AsrError::Connection(m)
}

pub open spec fn fitting_path(entries: Seq<(String, String)>, p: NamePattern) -> Option<Seq<char>> {
    match first_fitting(entry_names(entries), p) {
        Some(i) => Some(entries[i].1@),
        None => None,
    }
}

/// The SenseVoice model: the first `*.int8.onnx` file, else the first `*.onnx` file.
pub open spec fn sense_voice_model(entries: Seq<(String, String)>) -> Option<Seq<char>> {
    match fitting_path(entries, NamePattern::Suffix(".int8.onnx")) {
        Some(p) => Some(p),
        None => fitting_path(entries, NamePattern::Suffix(".onnx")),
    }
}


/// Finds the SenseVoice model file and the tokens file among the entries of
/// the model directory `model_dir`. Returns (model, tokens) paths.
pub fn find_model_files(entries: &[(String, String)], model_dir: &str) -> (r: Result<(String, String), AsrError>)
    ensures
        match (sense_voice_model(entries@), fitting_path(entries@, NamePattern::Exact("tokens.txt"))) {
            (None, _) => r matches Err(AsrError::Connection(m)) && m@ == "no .onnx model found in "@
                + model_dir@,
            (Some(_), None) => r matches Err(AsrError::Connection(m)) && m@ == "no tokens.txt found in "@
                + model_dir@,
            (Some(model), Some(tokens)) => r matches Ok((a, b)) && a@ == model && b@ == tokens,
        },
{
    let model = match find_entry(entries, &NamePattern::Suffix(".int8.onnx")) {
        Some(p) => Some(p),
        None => find_entry(entries, &NamePattern::Suffix(".onnx")),
    };
    let model = match model {
        Some(m) => m,
        None => {
            return Err(connection_error("no .onnx model found in ", model_dir));
        },
    };
    let tokens = match find_entry(entries, &NamePattern::Exact("tokens.txt")) {
        Some(t) => t,
        None => {
            return Err(connection_error("no tokens.txt found in ", model_dir));
        },
    };
    Ok((model, tokens))
}

/// The model files of a streaming sherpa-onnx model.
pub struct ModelFiles {
    pub encoder: String,
    pub decoder: String,
    /// Only transducer (Zipformer) models have a joiner; Paraformer models do not.
    pub joiner: Option<String>,
    pub tokens: String,
    pub bpe_vocab: Option<String>,
}

/// The `*<keyword>*.onnx` model: the int8 variant if there is one, else the full one.
pub open spec fn keyword_model(entries: Seq<(String, String)>, keyword: &'static str) -> Option<Seq<char>> {
    match fitting_path(entries, NamePattern::Int8Model(keyword)) {
        Some(p) => Some(p),
        None => fitting_path(entries, NamePattern::FullModel(keyword)),
    }
}

fn find_keyword_model(entries: &[(String, String)], keyword: &'static str) -> (r: Option<String>)
    ensures
        match keyword_model(entries@, keyword) {
            Some(p) => r matches Some(s) && s@ == p,
            None => r is None,
        },
{
    match find_entry(entries, &NamePattern::Int8Model(keyword)) {
        Some(p) => Some(p),
        None => find_entry(entries, &NamePattern::FullModel(keyword)),
    }
}

pub open spec fn opt_view(o: Option<String>) -> Option<Seq<char>> {
    match o {
        Some(s) => Some(s@),
        None => None,
    }
}

/// Discovers the ONNX model files among the entries of the model directory
/// `model_dir`: encoder, decoder, joiner (none for Paraformer models),
/// tokens and BPE vocabulary (optional).
pub fn discover_model_files(entries: &[(String, String)], model_dir: &str) -> (r: Result<ModelFiles, AsrError>)
    ensures
        match (
            keyword_model(entries@, "encoder"),
            keyword_model(entries@, "decoder"),
            fitting_path(entries@, NamePattern::Exact("tokens.txt")),
        ) {
            (None, _, _) => r matches Err(AsrError::Connection(m)) && m@ == "no encoder model found in "@
                + model_dir@,
            (Some(_), None, _) => r matches Err(AsrError::Connection(m)) && m@
                == "no decoder model found in "@ + model_dir@,
            (Some(_), Some(_), None) => r matches Err(AsrError::Connection(m)) && m@
                == "no tokens.txt found in "@ + model_dir@,
            (Some(e), Some(d), Some(t)) => r matches Ok(f) && f.encoder@ == e && f.decoder@ == d
                && f.tokens@ == t && opt_view(f.joiner) == keyword_model(entries@, "joiner") && opt_view(
                f.bpe_vocab,
            ) == fitting_path(entries@, NamePattern::Exact("bpe.vocab")),
        },
{
    let encoder = match find_keyword_model(entries, "encoder") {
        Some(e) => e,
        None => {
            return Err(connection_error("no encoder model found in ", model_dir));
        },
    };
    let decoder = match find_keyword_model(entries, "decoder") {
        Some(d) => d,
        None => {
            return Err(connection_error("no decoder model found in ", model_dir));
        },
    };
    let joiner = find_keyword_model(entries, "joiner");
    let tokens = match find_entry(entries, &NamePattern::Exact("tokens.txt")) {
        Some(t) => t,
        None => {
            return Err(connection_error("no tokens.txt found in ", model_dir));
        },
    };
    let bpe_vocab = find_entry(entries, &NamePattern::Exact("bpe.vocab"));
    Ok(ModelFiles { encoder, decoder, joiner, tokens, bpe_vocab })
}


// ─── Recognizer setup ───────────────────────────────────────────────

/// How the streaming recognizer is set up.
pub struct RecognizerPlan {
    /// A transducer (encoder, decoder, joiner) rather than a Paraformer model.
    pub transducer: bool,
    /// Whether hotwords are given to the recognizer.
    pub use_hotwords: bool,
    pub decoding_method: String,
    /// BPE vocabulary and modeling unit, set when hotwords are used and the
    /// model directory has a vocabulary.
    pub bpe_vocab: Option<String>,
    pub modeling_unit: Option<String>,
}

/// Plans the recognizer: hotwords need a transducer model and
/// modified beam search; otherwise greedy search is used.
pub fn plan_recognizer(files: &ModelFiles, has_hotwords: bool) -> (p: RecognizerPlan)
    ensures
        p.transducer == files.joiner is Some,
        p.use_hotwords == (has_hotwords && files.joiner is Some),
        p.decoding_method@ == if p.use_hotwords { "modified_beam_search"@ } else { "greedy_search"@ },
        p.use_hotwords ==> opt_view(p.bpe_vocab) == opt_view(files.bpe_vocab),
        !p.use_hotwords ==> p.bpe_vocab is None,
        p.modeling_unit is Some <==> p.bpe_vocab is Some,
        p.modeling_unit matches Some(u) ==> u@ == "cjkchar+bpe"@,
{
    let transducer = files.joiner.is_some();
    let use_hotwords = has_hotwords && transducer;
    if use_hotwords {
        let (bpe_vocab, modeling_unit) = match &files.bpe_vocab {
            Some(b) => (Some(copy_string(b)), Some(copy_str("cjkchar+bpe"))),
            None => (None, None),
        };
        RecognizerPlan {
            transducer,
            use_hotwords,
            decoding_method: copy_str("modified_beam_search"),
            bpe_vocab,
            modeling_unit,
        }
    } else {
        RecognizerPlan {
            transducer,
            use_hotwords,
            decoding_method: copy_str("greedy_search"),
            bpe_vocab: None,
            modeling_unit: None,
        }
    }
}

// ─── Transcript accumulation ────────────────────────────────────────

/// `acc` extended by the segment `t`, separated by a space.
pub open spec fn joined(acc: Seq<char>, t: Seq<char>) -> Seq<char> {
    if t.len() == 0 {
        acc
    } else if acc.len() == 0 {
        t
    } else {
        acc + seq![' '] + t
    }
}

pub open spec fn result_text(r: Option<String>) -> Seq<char> {
    match r {
        Some(s) => trim(s@),
        None => Seq::empty(),
    }
}

fn trimmed_result(r: Option<String>) -> (t: String)
    ensures
        t@ == result_text(r),
{
    match r {
        Some(s) => trimmed(s.as_str()),
        None => String::new(),
    }
}

fn join_text(acc: &String, t: &String) -> (r: String)
    ensures
        r@ == joined(acc@, t@),
{
    if t.as_str().is_empty() {
        copy_string(acc)
    } else if acc.as_str().is_empty() {
        copy_string(t)
    } else {
        let mut r = copy_string(acc);
        push_char(&mut r, ' ');
        push_str(&mut r, t.as_str());
        r
    }
}

/// Text state of a streaming session: the text of finished utterance
/// segments, and the last interim text reported (to skip repeats).
pub struct StreamingText {
    pub accumulated: String,
    pub last_interim: String,
}

impl StreamingText {
    pub fn new() -> (s: StreamingText)
        ensures
            s.accumulated@.len() == 0,
            s.last_interim@.len() == 0,
    {
        StreamingText { accumulated: String::new(), last_interim: String::new() }
    }

    /// An utterance segment ended with recognizer result `result`: its text,
    /// if any, joins the accumulated text, which is reported as definite.
    pub fn on_endpoint(&mut self, result: Option<String>) -> (e: Option<AsrEvent>)
        ensures
            final(self).accumulated@ == joined(old(self).accumulated@, result_text(result)),
            final(self).last_interim@.len() == 0,
            result_text(result).len() > 0 ==> (e matches Some(AsrEvent::Definite(t)) && t@
                == final(self).accumulated@),
            result_text(result).len() == 0 ==> e is None,
    {
        let t = trimmed_result(result);
        let event = if !t.as_str().is_empty() {
            self.accumulated = join_text(&self.accumulated, &t);
            Some(AsrEvent::Definite(copy_string(&self.accumulated)))
        } else {
            None
        };
        self.last_interim = String::new();
        event
    }

    /// The recognizer's partial result for the current segment is `result`:
    /// the accumulated text with it is reported as interim when it is new.
    pub fn on_partial(&mut self, result: Option<String>) -> (e: Option<AsrEvent>)
        ensures
            final(self).accumulated@ == old(self).accumulated@,
            ({
                let full = joined(old(self).accumulated@, result_text(result));
                if full.len() > 0 && full != old(self).last_interim@ {
                    (e matches Some(AsrEvent::Interim(t)) && t@ == full) && final(self).last_interim@
                        == full
                } else {
                    e is None && final(self).last_interim@ == old(self).last_interim@
                }
            }),
    {
        let p = trimmed_result(result);
        let full = join_text(&self.accumulated, &p);
        if !full.as_str().is_empty() && !(full == self.last_interim) {
            self.last_interim = copy_string(&full);
            Some(AsrEvent::Interim(full))
        } else {
            None
        }
    }

    /// Input finished and the recognizer's last result is `result`: the
    /// whole text is final, or the session closes without text.
    pub fn on_finish(&mut self, result: Option<String>) -> (e: AsrEvent)
        ensures
            final(self).accumulated@ == joined(old(self).accumulated@, result_text(result)),
            final(self).accumulated@.len() > 0 ==> (e matches AsrEvent::Final(t) && t@
                == final(self).accumulated@),
            final(self).accumulated@.len() == 0 ==> e is Closed,
    {
        let t = trimmed_result(result);
        self.accumulated = join_text(&self.accumulated, &t);
        if !self.accumulated.as_str().is_empty() {
            AsrEvent::Final(copy_string(&self.accumulated))
        } else {
            AsrEvent::Closed
        }
    }
}

/// The event of an offline (SenseVoice) decoding: nothing was recorded, or
/// the trimmed result text is final, or the session closes without text.
pub fn offline_result_event(audio_empty: bool, result: Option<String>) -> (e: AsrEvent)
    ensures
        audio_empty ==> e is Closed,
        !audio_empty && result_text(result).len() > 0 ==> (e matches AsrEvent::Final(t) && t@
            == result_text(result)),
        !audio_empty && result_text(result).len() == 0 ==> e is Closed,
{
    if audio_empty {
        return AsrEvent::Closed;
    }
    let t = trimmed_result(result);
    if !t.as_str().is_empty() {
        AsrEvent::Final(t)
    } else {
        AsrEvent::Closed
    }
}

/// Accumulated text only grows: each endpoint or finish keeps what was
/// there as a prefix.
pub proof fn law_accumulated_text_grows(acc: Seq<char>, t: Seq<char>)
    ensures
        acc.is_prefix_of(joined(acc, t)),
        t.len() > 0 ==> joined(acc, t).len() > acc.len(),
{
    if t.len() > 0 && acc.len() > 0 {
        assert(joined(acc, t).subrange(0, acc.len() as int) =~= acc);
    } else if t.len() > 0 {
        assert(acc =~= Seq::<char>::empty());
    }
}

} // verus!
