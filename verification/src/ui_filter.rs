//! Fuzzy filtering of the picker lists.
//!
//! Scoring is delegated to the `fuzzy_matcher` crate; for its default
//! configuration the score is a function of the two strings alone, so
//! it is given a name and the filtered orderings are pinned down
//! exactly: matching entries, sorted by score, best first, ties in list
//! order.

use vstd::prelude::*;
use vstd::string::*;
use fuzzy_matcher::FuzzyMatcher;
use crate::ui_state::UiState;

verus! {

/// The score the default skim matcher assigns, or `None` for a
/// non-match.
pub uninterp spec fn fuzzy_score_of(text: Seq<char>, pattern: Seq<char>) -> Option<i64>;

/// Relies on `fuzzy_matcher::skim::SkimMatcherV2::fuzzy_match` with the
/// default configuration: the score depends on the two strings alone.
#[verifier::external_body]
fn fuzzy_match(text: &str, pattern: &str) -> (r: Option<i64>)
    ensures
        r == fuzzy_score_of(text@, pattern@),
{
    fuzzy_matcher::skim::SkimMatcherV2::default().fuzzy_match(text, pattern)
}

/// The indices that match the pattern, paired with their scores, in
/// list order.
pub open spec fn spec_matches(texts: Seq<String>, pattern: Seq<char>) -> Seq<(usize, i64)>
    decreases texts.len(),
{
    if texts.len() == 0 {
        Seq::empty()
    } else {
        let prev = spec_matches(texts.drop_last(), pattern);
        match fuzzy_score_of(texts.last()@, pattern) {
            Some(sc) => prev.push((((texts.len() - 1) as usize), sc)),
            None => prev,
        }
    }
}

/// Inserts an entry into a score-descending list, after every entry
/// scoring at least as much.
pub open spec fn insert_desc(s: Seq<(usize, i64)>, x: (usize, i64)) -> Seq<(usize, i64)>
    decreases s.len(),
{
    if s.len() == 0 {
        seq![x]
    } else if s.first().1 < x.1 {
        seq![x] + s
    } else {
        seq![s.first()] + insert_desc(s.drop_first(), x)
    }
}

/// Sorts entries by score, best first, keeping list order among equal
/// scores.
pub open spec fn sort_desc(s: Seq<(usize, i64)>) -> Seq<(usize, i64)>
    decreases s.len(),
{
    if s.len() == 0 {
        Seq::empty()
    } else {
        insert_desc(sort_desc(s.drop_last()), s.last())
    }
}

/// The filtered ordering of a list under a search pattern: everything
/// in list order for an empty pattern, else the matching indices by
/// descending score.
pub open spec fn spec_filtered(texts: Seq<String>, pattern: Seq<char>) -> Seq<usize> {
    if pattern.len() == 0 {
        Seq::new(texts.len(), |i: int| i as usize)
    } else {
        sort_desc(spec_matches(texts, pattern)).map(|i: int, p: (usize, i64)| p.0)
    }
}

proof fn lemma_insert_desc_at(s: Seq<(usize, i64)>, x: (usize, i64), pos: int)
    requires
        0 <= pos <= s.len(),
        forall|k: int| 0 <= k < pos ==> (#[trigger] s[k]).1 >= x.1,
        pos < s.len() ==> s[pos].1 < x.1,
    ensures
        insert_desc(s, x) == s.take(pos) + seq![x] + s.skip(pos),
    decreases pos,
{
    if pos == 0 {
        if s.len() == 0 {
            assert(insert_desc(s, x) =~= s.take(0) + seq![x] + s.skip(0));
        } else {
            assert(s.first().1 < x.1);
            assert(insert_desc(s, x) =~= s.take(0) + seq![x] + s.skip(0));
        }
    } else {
        assert(s[0].1 >= x.1);
        assert(!(s.first().1 < x.1));
        assert(forall|k: int| 0 <= k < pos - 1 ==> (#[trigger] s.drop_first()[k]).1 == s[k + 1].1
            && s[k + 1].1 >= x.1);
        lemma_insert_desc_at(s.drop_first(), x, pos - 1);
        assert(insert_desc(s, x) =~= s.take(pos) + seq![x] + s.skip(pos));
    }
}

/// Inserts an entry into a score-descending vector.
#[verifier::loop_isolation(false)]
fn insert_sorted(r: &mut Vec<(usize, i64)>, x: (usize, i64))
    ensures
        final(r)@ == insert_desc(old(r)@, x),
{
    let n = r.len();
    let mut pos: usize = 0;
    while pos < n
        invariant
            pos <= n,
            forall|k: int| 0 <= k < pos ==> (#[trigger] r@[k]).1 >= x.1,
        decreases n - pos,
    {
        let e: &(usize, i64) = &r[pos];
        if e.1 < x.1 {
            break;
        }
        pos = pos + 1;
    }
    proof {
        lemma_insert_desc_at(r@, x, pos as int);
    }
    r.insert(pos, x);
    proof {
        assert(r@ =~= old(r)@.take(pos as int) + seq![x] + old(r)@.skip(pos as int));
    }
}

/// The indices of `texts` that the pattern keeps, sorted by descending
/// score, ties in list order; everything in list order when the
/// pattern is empty.
#[verifier::loop_isolation(false)]
pub fn filtered_indices(texts: &Vec<String>, pattern: &str) -> (r: Vec<usize>)
    ensures
        r@ == spec_filtered(texts@, pattern@),
{
    if pattern.unicode_len() == 0 {
        let mut r: Vec<usize> = Vec::new();
        let n = texts.len();
        let mut i: usize = 0;
        while i < n
            invariant
                i <= n,
                r@ == Seq::new(i as nat, |k: int| k as usize),
            decreases n - i,
        {
            r.push(i);
            i = i + 1;
            proof {
                assert(r@ =~= Seq::new(i as nat, |k: int| k as usize));
            }
        }
        proof {
            assert(r@ =~= spec_filtered(texts@, pattern@));
        }
        return r;
    }
    let mut entries: Vec<(usize, i64)> = Vec::new();
    let n = texts.len();
    let mut i: usize = 0;
    proof {
        assert(texts@.take(0) =~= Seq::<String>::empty());
        assert(spec_matches(texts@.take(0), pattern@) =~= Seq::<(usize, i64)>::empty());
    }
    while i < n
        invariant
            i <= n,
            entries@ == spec_matches(texts@.take(i as int), pattern@),
        decreases n - i,
    {
        let t: &String = &texts[i];
        let ghost prev = entries@;
        match fuzzy_match(t.as_str(), pattern) {
            Some(sc) => {
                entries.push((i, sc));
            },
            None => {},
        }
        proof {
            assert(texts@.take(i + 1).drop_last() =~= texts@.take(i as int));
            assert(texts@.take(i + 1).last() == texts@[i as int]);
            match fuzzy_score_of(texts@[i as int]@, pattern@) {
                Some(sc) => {
                    assert(entries@ =~= prev.push((i, sc)));
                },
                None => {},
            }
        }
        i = i + 1;
    }
    proof {
        assert(texts@.take(n as int) =~= texts@);
    }
    let mut sorted: Vec<(usize, i64)> = Vec::new();
    let m = entries.len();
    let mut j: usize = 0;
    proof {
        assert(entries@.take(0) =~= Seq::<(usize, i64)>::empty());
        assert(sort_desc(entries@.take(0)) =~= Seq::<(usize, i64)>::empty());
    }
    while j < m
        invariant
            j <= m,
            sorted@ == sort_desc(entries@.take(j as int)),
        decreases m - j,
    {
        let e: (usize, i64) = entries[j];
        insert_sorted(&mut sorted, e);
        proof {
            assert(entries@.take(j + 1).drop_last() =~= entries@.take(j as int));
            assert(entries@.take(j + 1).last() == entries@[j as int]);
        }
        j = j + 1;
    }
    proof {
        assert(entries@.take(m as int) =~= entries@);
    }
    let mut r: Vec<usize> = Vec::new();
    let k_end = sorted.len();
    let mut k: usize = 0;
    while k < k_end
        invariant
            k <= k_end,
            k_end == sorted@.len(),
            r@ == sorted@.map(|i2: int, p: (usize, i64)| p.0).take(k as int),
        decreases k_end - k,
    {
        let e: &(usize, i64) = &sorted[k];
        r.push(e.0);
        k = k + 1;
        proof {
            assert(r@ =~= sorted@.map(|i2: int, p: (usize, i64)| p.0).take(k as int));
        }
    }
    proof {
        assert(sorted@.map(|i2: int, p: (usize, i64)| p.0).take(k_end as int) =~= sorted@.map(
            |i2: int, p: (usize, i64)| p.0,
        ));
        assert(r@ =~= spec_filtered(texts@, pattern@));
    }
    r
}

/// The files list as currently filtered by the search input.
pub fn filtered_files(state: &UiState) -> (r: Vec<usize>)
    ensures
        r@ == spec_filtered(state.item_display@, state.search_input@),
{
    filtered_indices(&state.item_display, state.search_input.as_str())
}

/// The extensions list as currently filtered by the extension search.
#[verifier::loop_isolation(false)]
pub fn filtered_exts(state: &UiState) -> (r: Vec<usize>)
    ensures
        r@ == spec_filtered(
            state.extension_items@.map(|i: int, p: (String, bool)| p.0),
            state.extension_search@,
        ),
{
    let mut names: Vec<String> = Vec::new();
    let n = state.extension_items.len();
    let mut i: usize = 0;
    while i < n
        invariant
            i <= n,
            names@ == state.extension_items@.map(|k: int, p: (String, bool)| p.0).take(i as int),
        decreases n - i,
    {
        let e: &(String, bool) = &state.extension_items[i];
        names.push(e.0.clone());
        i = i + 1;
        proof {
            assert(names@ =~= state.extension_items@.map(|k: int, p: (String, bool)| p.0).take(
                i as int,
            ));
        }
    }
    proof {
        assert(state.extension_items@.map(|k: int, p: (String, bool)| p.0).take(n as int)
            =~= state.extension_items@.map(|k: int, p: (String, bool)| p.0));
    }
    filtered_indices(&names, state.extension_search.as_str())
}

} // verus!
