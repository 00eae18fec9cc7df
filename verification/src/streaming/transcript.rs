use vstd::prelude::*;
use crate::text::{copy_str, copy_string, str_equal, strings_view};

verus! {

/// The interim history after recording `text`: appended, unless it repeats
/// the latest entry.
pub open spec fn after_interim(history: Seq<Seq<char>>, text: Seq<char>) -> Seq<Seq<char>> {
    if history.len() > 0 && history.last() == text {
        history
    } else {
        history.push(text)
    }
}

/// Collects the texts a recognition session reports and picks the best one:
/// the final result if there is one, else the latest definite text, else the
/// latest interim text.
pub struct TranscriptAggregator {
    interim: Vec<String>,
    definite: Option<String>,
    final_text: Option<String>,
}

pub open spec fn opt_view(o: Option<String>) -> Option<Seq<char>> {
    match o {
        Some(s) => Some(s@),
        None => None,
    }
}

/// The best text of a session state.
pub open spec fn best_of(
    history: Seq<Seq<char>>,
    definite: Option<Seq<char>>,
    final_text: Option<Seq<char>>,
) -> Seq<char> {
    match final_text {
        Some(f) => f,
        None => match definite {
            Some(d) => d,
            None => if history.len() > 0 { history.last() } else { Seq::empty() },
        },
    }
}

impl TranscriptAggregator {
    /// Interim texts received, oldest first, without consecutive repeats.
    pub closed spec fn history(&self) -> Seq<Seq<char>> {
        strings_view(self.interim@)
    }

    pub closed spec fn definite_text(&self) -> Option<Seq<char>> {
        opt_view(self.definite)
    }

    pub closed spec fn final_result(&self) -> Option<Seq<char>> {
        opt_view(self.final_text)
    }

    pub open spec fn best(&self) -> Seq<char> {
        best_of(self.history(), self.definite_text(), self.final_result())
    }

    pub fn new() -> (a: TranscriptAggregator)
        ensures
            a.history() == Seq::<Seq<char>>::empty(),
            a.definite_text() is None,
            a.final_result() is None,
    {
        let a = TranscriptAggregator { interim: Vec::new(), definite: None, final_text: None };
        assert(a.history() =~= Seq::<Seq<char>>::empty());
        a
    }

    /// Records a partial result.
    pub fn update_interim(&mut self, text: &str)
        ensures
            final(self).history() == after_interim(old(self).history(), text@),
            final(self).definite_text() == old(self).definite_text(),
            final(self).final_result() == old(self).final_result(),
    {
        let n = self.interim.len();
        if n > 0 && str_equal(self.interim[n - 1].as_str(), text) {
            assert(self.history().last() == self.interim@[n - 1]@);
            return;
        }
        let ghost before = self.history();
        self.interim.push(copy_str(text));
        assert(self.history() =~= before.push(text@));
        proof {
            if n > 0 {
                assert(before.last() == self.interim@[n - 1]@);
            }
        }
    }

    /// Records the text of a confirmed segment.
    pub fn update_definite(&mut self, text: &str)
        ensures
            final(self).history() == old(self).history(),
            final(self).definite_text() == Some(text@),
            final(self).final_result() == old(self).final_result(),
    {
        self.definite = Some(copy_str(text));
    }

    /// Records the final result of the session.
    pub fn update_final(&mut self, text: &str)
        ensures
            final(self).history() == old(self).history(),
            final(self).definite_text() == old(self).definite_text(),
            final(self).final_result() == Some(text@),
    {
        self.final_text = Some(copy_str(text));
    }

    /// The best text so far.
    pub fn best_text(&self) -> (s: String)
        ensures
            s@ == self.best(),
    {
        match &self.final_text {
            Some(f) => copy_string(f),
            None => match &self.definite {
                Some(d) => copy_string(d),
                None => {
                    let n = self.interim.len();
                    if n > 0 {
                        copy_string(&self.interim[n - 1])
                    } else {
                        String::new()
                    }
                },
            },
        }
    }

    /// Whether any text at all is known.
    pub fn has_any_text(&self) -> (r: bool)
        ensures
            r == (self.best().len() > 0),
    {
        let b = self.best_text();
        !b.as_str().is_empty()
    }

    /// Whether the final result arrived.
    pub fn has_final_result(&self) -> (r: bool)
        ensures
            r == self.final_result() is Some,
    {
        self.final_text.is_some()
    }

    /// The latest `n` interim texts (fewer if fewer were received), oldest first.
    pub fn interim_history(&self, n: usize) -> (h: Vec<String>)
        ensures
            strings_view(h@) == if n >= self.history().len() {
                self.history()
            } else {
                self.history().skip(self.history().len() - n)
            },
    {
        let len = self.interim.len();
        let start = if n >= len { 0 } else { len - n };
        let mut h: Vec<String> = Vec::new();
        let mut k: usize = start;
        while k < len
            invariant
                start <= k <= len == self.interim@.len(),
                strings_view(h@) == strings_view(self.interim@).subrange(start as int, k as int),
            decreases len - k,
        {
            let ghost prev = strings_view(h@);
            h.push(copy_string(&self.interim[k]));
            assert(strings_view(h@) =~= prev.push(self.interim@[k as int]@));
            assert(strings_view(self.interim@)[k as int] == self.interim@[k as int]@);
            assert(strings_view(h@) =~= strings_view(self.interim@).subrange(start as int, k + 1));
            k = k + 1;
        }
        assert(strings_view(self.interim@).subrange(start as int, len as int) =~= if n >= len {
            self.history()
        } else {
            self.history().skip(self.history().len() - n)
        });
        h
    }
}

/// The interim history never holds the same text twice in a row.
pub proof fn law_history_has_no_consecutive_repeats(history: Seq<Seq<char>>, text: Seq<char>)
    requires
        forall|i: int| 0 <= i < history.len() - 1 ==> #[trigger] history[i] != history[i + 1],
    ensures
        forall|i: int|
            0 <= i < after_interim(history, text).len() - 1 ==> #[trigger] after_interim(history, text)[i]
                != after_interim(history, text)[i + 1],
{
    let h = after_interim(history, text);
    assert forall|i: int| 0 <= i < h.len() - 1 implies #[trigger] h[i] != h[i + 1] by {
        if !(history.len() > 0 && history.last() == text) && i == history.len() - 1 {
            assert(h[i] == history.last());
        } else {
            assert(h[i] == history[i] && h[i + 1] == history[i + 1]);
        }
    }
}

/// The final result, once known, is the best text whatever else arrives;
/// without it, a definite text wins over any interim text.
pub proof fn law_best_text_priority(
    history: Seq<Seq<char>>,
    definite: Option<Seq<char>>,
    final_text: Option<Seq<char>>,
)
    ensures
        final_text matches Some(f) ==> best_of(history, definite, final_text) == f,
        final_text is None ==> (definite matches Some(d) ==> best_of(history, definite, final_text) == d),
        final_text is None && definite is None && history.len() > 0 ==> best_of(
            history,
            definite,
            final_text,
        ) == history.last(),
{
}

} // verus!
