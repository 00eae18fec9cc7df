use vstd::prelude::*;
use crate::text::{chars_of, lines_of, split_lines, string_from_range, strings_view, trim, trim_bounds};

verus! {

/// A dictionary line worth keeping: not blank, not a `#` comment.
pub open spec fn is_entry(t: Seq<char>) -> bool {
    t.len() > 0 && t[0] != '#'
}

/// The entries of the given lines: trimmed, blank lines and comments
/// skipped, each entry kept once at its first occurrence.
pub open spec fn entries_of_lines(lines: Seq<Seq<char>>) -> Seq<Seq<char>>
    decreases lines.len(),
{
    if lines.len() == 0 {
        Seq::empty()
    } else {
        let rest = entries_of_lines(lines.drop_last());
        let t = trim(lines.last());
        if is_entry(t) && !rest.contains(t) { rest.push(t) } else { rest }
    }
}

/// The entries of a dictionary file's content.
pub open spec fn dictionary_entries(content: Seq<char>) -> Seq<Seq<char>> {
    entries_of_lines(lines_of(content))
}

fn contains_entry(v: &Vec<String>, t: &String) -> (r: bool)
    ensures
        r == strings_view(v@).contains(t@),
{
    let mut k: usize = 0;
    while k < v.len()
        invariant
            0 <= k <= v@.len(),
            forall|j: int| 0 <= j < k ==> v@[j]@ != t@,
        decreases v@.len() - k,
    {
        if v[k] == *t {
            assert(strings_view(v@)[k as int] == t@);
            return true;
        }
        k = k + 1;
    }
    proof {
        if strings_view(v@).contains(t@) {
            let j = choose|j: int| 0 <= j < strings_view(v@).len() && strings_view(v@)[j] == t@;
            assert(strings_view(v@)[j] == v@[j]@);
        }
    }
    false
}

/// Parses the content of a dictionary file: one term per line, lines
/// starting with `#` are comments, blank lines are skipped, and repeated
/// terms are kept once, in order of first appearance.
pub fn parse_dictionary(content: &str) -> (entries: Vec<String>)
    ensures
        strings_view(entries@) == dictionary_entries(content@),
{
    let lines = split_lines(content);
    let ghost ls = lines_of(content@);
    let mut entries: Vec<String> = Vec::new();
    let mut i: usize = 0;
    while i < lines.len()
        invariant
            0 <= i <= lines@.len() == ls.len(),
            forall|j: int| 0 <= j < lines@.len() ==> #[trigger] lines@[j]@ == ls[j],
            strings_view(entries@) == entries_of_lines(ls.take(i as int)),
        decreases lines@.len() - i,
    {
        let (a, b) = trim_bounds(lines[i].as_slice());
        let t = string_from_range(lines[i].as_slice(), a, b);
        assert(ls.take(i + 1).drop_last() =~= ls.take(i as int));
        assert(ls.take(i + 1).last() == ls[i as int]);
        let tc = chars_of(t.as_str());
        let keep = tc.len() > 0 && tc[0] != '#' && !contains_entry(&entries, &t);
        if keep {
            entries.push(t);
        }
        assert(strings_view(entries@) =~= entries_of_lines(ls.take(i + 1)));
        i = i + 1;
    }
    assert(ls.take(lines@.len() as int) =~= ls);
    entries
}

/// Parsed dictionaries never repeat an entry, and hold no blank lines or comments.
pub proof fn law_dictionary_entries_distinct(lines: Seq<Seq<char>>)
    ensures
        entries_of_lines(lines).no_duplicates(),
        forall|i: int|
            0 <= i < entries_of_lines(lines).len() ==> is_entry(#[trigger] entries_of_lines(lines)[i]),
    decreases lines.len(),
{
    if lines.len() > 0 {
        law_dictionary_entries_distinct(lines.drop_last());
        let rest = entries_of_lines(lines.drop_last());
        let t = trim(lines.last());
        if is_entry(t) && !rest.contains(t) {
            let r = rest.push(t);
            assert forall|i: int, j: int| 0 <= i < r.len() && 0 <= j < r.len() && i != j implies r[i] != r[j] by {
                if i < rest.len() && j < rest.len() {
                } else if i == rest.len() {
                    assert(r[j] == rest[j]);
                } else {
                    assert(r[i] == rest[i]);
                }
            }
            assert forall|i: int| 0 <= i < r.len() implies is_entry(#[trigger] r[i]) by {
                if i < rest.len() {
                    assert(r[i] == rest[i]);
                }
            }
        }
    }
}


proof fn lemma_entries_cover_lines(lines: Seq<Seq<char>>)
    ensures
        forall|i: int|
            0 <= i < lines.len() && trim(#[trigger] lines[i]).len() > 0 && trim(lines[i])[0] != '#'
                ==> entries_of_lines(lines).contains(trim(lines[i])),
        forall|k: int|
            0 <= k < entries_of_lines(lines).len() ==> exists|i: int|
                0 <= i < lines.len() && #[trigger] entries_of_lines(lines)[k] == trim(lines[i]),
    decreases lines.len(),
{
    if lines.len() > 0 {
        let init = lines.drop_last();
        lemma_entries_cover_lines(init);
        let rest = entries_of_lines(init);
        let t = trim(lines.last());
        let all = entries_of_lines(lines);
        assert forall|i: int|
            0 <= i < lines.len() && trim(#[trigger] lines[i]).len() > 0 && trim(lines[i])[0] != '#'
                implies all.contains(trim(lines[i])) by {
            if i < init.len() {
                assert(init[i] == lines[i]);
                let j = choose|j: int| 0 <= j < rest.len() && rest[j] == trim(init[i]);
                if all != rest {
                    assert(all[j] == rest[j]);
                }
            } else {
                assert(lines[i] == lines.last());
                if rest.contains(t) {
                } else {
                    assert(all[rest.len() as int] == t);
                }
            }
        }
        assert forall|k: int| 0 <= k < all.len() implies exists|i: int|
            0 <= i < lines.len() && #[trigger] all[k] == trim(lines[i]) by {
            if k < rest.len() {
                assert(all[k] == rest[k]);
                let i = choose|i: int| 0 <= i < init.len() && rest[k] == trim(init[i]);
                assert(init[i] == lines[i]);
            } else {
                assert(all[k] == t);
                assert(lines[lines.len() - 1] == lines.last());
            }
        }
    }
}

/// What the dictionary keeps: every line whose trimmed text is non-empty and
/// does not start with `#` gives an entry (so terms such as `C#` are kept),
/// and every entry is such a trimmed line.
pub proof fn law_dictionary_keeps_every_term(content: Seq<char>)
    ensures
        forall|i: int|
            0 <= i < lines_of(content).len() && trim(#[trigger] lines_of(content)[i]).len() > 0
                && trim(lines_of(content)[i])[0] != '#' ==> dictionary_entries(content).contains(
                trim(lines_of(content)[i]),
            ),
        forall|k: int|
            0 <= k < dictionary_entries(content).len() ==> {
                let e = #[trigger] dictionary_entries(content)[k];
                &&& e.len() > 0
                &&& e[0] != '#'
                &&& exists|i: int| 0 <= i < lines_of(content).len() && e == trim(lines_of(content)[i])
            },
{
    let lines = lines_of(content);
    lemma_entries_cover_lines(lines);
    law_dictionary_entries_distinct(lines);
}

} // verus!
