//! State of the interactive file picker that the terminal front end
//! drives: list positions, search inputs, and the checkbox states.  The
//! front end owns the event loop and the drawing; every decision about
//! the state itself is made here.

use vstd::prelude::*;
use vstd::string::*;
use crate::strutil::string_from_chars;
use crate::xmlesc::{file_name, file_name_of};

verus! {

/// Shared picker state.
#[derive(Debug)]
pub struct UiState {
    pub items: Vec<(String, bool)>,
    pub item_display: Vec<String>,
    pub ext_counts: Vec<(String, usize)>,
    pub search_input: String,
    pub extension_mode: bool,
    pub extension_items: Vec<(String, bool)>,
    pub extension_search: String,
    pub ext_selected_idx: usize,
    pub ext_scroll_offset: usize,
    pub reset_ext_on_toggle: bool,
    pub saved_search_input: String,
    pub selected_idx: usize,
    pub scroll_offset: usize,
}

/// The paths whose checkbox is set, in list order.
pub open spec fn spec_selected(items: Seq<(String, bool)>) -> Seq<String>
    decreases items.len(),
{
    if items.len() == 0 {
        Seq::empty()
    } else {
        let rest = spec_selected(items.drop_first());
        if items.first().1 {
            seq![items.first().0] + rest
        } else {
            rest
        }
    }
}

pub proof fn lemma_spec_selected_push(items: Seq<(String, bool)>, x: (String, bool))
    ensures
        spec_selected(items.push(x)) == if x.1 {
            spec_selected(items).push(x.0)
        } else {
            spec_selected(items)
        },
    decreases items.len(),
{
    if items.len() == 0 {
        assert(items.push(x).drop_first() =~= Seq::<(String, bool)>::empty());
        assert(items.push(x).first() == x);
        assert(spec_selected(Seq::<(String, bool)>::empty()) =~= Seq::<String>::empty());
        assert(spec_selected(items) =~= Seq::<String>::empty());
        if x.1 {
            assert(spec_selected(items.push(x)) =~= spec_selected(items).push(x.0));
        } else {
            assert(spec_selected(items.push(x)) =~= spec_selected(items));
        }
    } else {
        assert(items.push(x).drop_first() =~= items.drop_first().push(x));
        assert(items.push(x).first() == items.first());
        lemma_spec_selected_push(items.drop_first(), x);
        if x.1 {
            assert(spec_selected(items.push(x)) =~= spec_selected(items).push(x.0));
        } else {
            assert(spec_selected(items.push(x)) =~= spec_selected(items));
        }
    }
}

/// Strict lexicographic order on character sequences, by scalar value.
pub open spec fn lex_lt(a: Seq<char>, b: Seq<char>) -> bool
    decreases a.len(),
{
    if b.len() == 0 {
        false
    } else if a.len() == 0 {
        true
    } else if a.first() != b.first() {
        (a.first() as int) < (b.first() as int)
    } else {
        lex_lt(a.drop_first(), b.drop_first())
    }
}

proof fn lemma_lex_lt_step(a: Seq<char>, b: Seq<char>, i: int)
    requires
        0 <= i <= a.len(),
        i <= b.len(),
        forall|k: int| 0 <= k < i ==> a[k] == b[k],
    ensures
        lex_lt(a, b) == lex_lt(a.skip(i), b.skip(i)),
    decreases i,
{
    if i > 0 {
        assert(a.len() > 0 && b.len() > 0);
        assert(a.first() == b.first());
        assert(a.drop_first() =~= a.skip(1));
        assert(b.drop_first() =~= b.skip(1));
        assert(forall|k: int| 0 <= k < i - 1 ==> a.skip(1)[k] == b.skip(1)[k]);
        lemma_lex_lt_step(a.skip(1), b.skip(1), i - 1);
        assert(a.skip(1).skip(i - 1) =~= a.skip(i));
        assert(b.skip(1).skip(i - 1) =~= b.skip(i));
    } else {
        assert(a.skip(0) =~= a);
        assert(b.skip(0) =~= b);
    }
}

/// Whether `a` orders strictly before `b`, by scalar value.
pub fn str_lt(a: &str, b: &str) -> (r: bool)
    ensures
        r == lex_lt(a@, b@),
{
    let na: usize = a.unicode_len();
    let nb: usize = b.unicode_len();
    let mut i: usize = 0;
    while i < na && i < nb
        invariant
            i <= na,
            i <= nb,
            na == a@.len(),
            nb == b@.len(),
            forall|k: int| 0 <= k < i ==> a@[k] == b@[k],
        decreases na - i,
    {
        let ca = a.get_char(i);
        let cb = b.get_char(i);
        if ca != cb {
            proof {
                lemma_lex_lt_step(a@, b@, i as int);
                assert(a@.skip(i as int).first() == a@[i as int]);
                assert(b@.skip(i as int).first() == b@[i as int]);
            }
            return (ca as u32) < (cb as u32);
        }
        i = i + 1;
    }
    proof {
        lemma_lex_lt_step(a@, b@, i as int);
        if i == na {
            assert(a@.skip(i as int).len() == 0);
        } else {
            assert(b@.skip(i as int).len() == 0);
        }
    }
    na < nb
}

/// The position of the last `.` in a file name, or `-1` if none.
pub open spec fn last_dot_pos(name: Seq<char>) -> int
    decreases name.len(),
{
    if name.len() == 0 {
        -1
    } else if name.last() == '.' {
        name.len() - 1
    } else {
        last_dot_pos(name.drop_last())
    }
}

/// The extension of a file name: the part after the last `.`, absent
/// for names without one or hidden names whose only `.` leads.
pub open spec fn ext_of(name: Seq<char>) -> Option<Seq<char>> {
    let k = last_dot_pos(name);
    if k <= 0 {
        None
    } else {
        Some(name.subrange(k + 1, name.len() as int))
    }
}

/// The displayed form of a path's extension: a leading dot plus the
/// extension of its file name.
pub open spec fn ext_display_of(path: Seq<char>) -> Option<Seq<char>> {
    match ext_of(file_name_of(path)) {
        Some(e) => Some(seq!['.'] + e),
        None => None,
    }
}

proof fn lemma_last_dot_bounds(name: Seq<char>)
    ensures
        -1 <= last_dot_pos(name) < name.len(),
    decreases name.len(),
{
    if name.len() > 0 && name.last() != '.' {
        lemma_last_dot_bounds(name.drop_last());
    }
}

proof fn lemma_last_dot_take(name: Seq<char>, i: int)
    requires
        0 <= i < name.len(),
    ensures
        last_dot_pos(name.take(i + 1)) == if name[i] == '.' {
            i
        } else {
            last_dot_pos(name.take(i))
        },
{
    let t = name.take(i + 1);
    assert(t.last() == name[i]);
    if name[i] != '.' {
        assert(t.drop_last() =~= name.take(i));
    }
}

/// The displayed extension of a path, when its file name has one.
pub fn ext_display(path: &str) -> (r: Option<String>)
    ensures
        r matches Some(s) ==> ext_display_of(path@) == Some(s@),
        r is None <==> ext_display_of(path@) is None,
{
    let name = file_name(path);
    let n: usize = name.as_str().unicode_len();
    let mut last_dot: usize = 0;
    let mut has_dot = false;
    let mut i: usize = 0;
    proof {
        assert(name@.take(0) =~= Seq::<char>::empty());
    }
    while i < n
        invariant
            i <= n,
            n == name@.len(),
            has_dot ==> last_dot as int == last_dot_pos(name@.take(i as int)) && last_dot
                < i,
            !has_dot ==> last_dot_pos(name@.take(i as int)) == -1,
        decreases n - i,
    {
        let c = name.as_str().get_char(i);
        proof {
            lemma_last_dot_take(name@, i as int);
        }
        if c == '.' {
            last_dot = i;
            has_dot = true;
        }
        i = i + 1;
    }
    proof {
        assert(name@.take(n as int) =~= name@);
    }
    if !has_dot || last_dot == 0 {
        None
    } else {
        let k = last_dot as usize;
        let ext = name.as_str().substring_char(k + 1, n);
        let mut v: Vec<char> = Vec::new();
        v.push('.');
        crate::strutil::append_str(&mut v, ext);
        let s = string_from_chars(&v);
        proof {
            assert(s@ =~= seq!['.'] + name@.subrange(k + 1, n as int));
        }
        Some(s)
    }
}

/// The first entry whose key is `key`, if any.
pub open spec fn assoc_find(m: Seq<(Seq<char>, usize)>, key: Seq<char>) -> Option<int>
    decreases m.len(),
{
    if m.len() == 0 {
        None
    } else if m.first().0 == key {
        Some(0)
    } else {
        match assoc_find(m.drop_first(), key) {
            Some(i) => Some(i + 1),
            None => None,
        }
    }
}

proof fn lemma_assoc_find_bounds(m: Seq<(Seq<char>, usize)>, key: Seq<char>)
    ensures
        match assoc_find(m, key) {
            Some(i) => 0 <= i < m.len() && m[i].0 == key,
            None => forall|i: int| 0 <= i < m.len() ==> (#[trigger] m[i]).0 != key,
        },
    decreases m.len(),
{
    if m.len() > 0 && m.first().0 != key {
        lemma_assoc_find_bounds(m.drop_first(), key);
        match assoc_find(m.drop_first(), key) {
            Some(_) => {},
            None => {
                assert(forall|i: int| 1 <= i < m.len() ==> m.drop_first()[i - 1] == (#[trigger] m[i]));
            },
        }
    }
}

proof fn lemma_assoc_find_push(m: Seq<(Seq<char>, usize)>, x: (Seq<char>, usize), key: Seq<char>)
    ensures
        assoc_find(m.push(x), key) == match assoc_find(m, key) {
            Some(i) => Some(i),
            None => if x.0 == key {
                Some(m.len() as int)
            } else {
                None
            },
        },
    decreases m.len(),
{
    if m.len() == 0 {
        assert(m.push(x).drop_first() =~= Seq::<(Seq<char>, usize)>::empty());
        assert(m.push(x).first() == x);
    } else {
        assert(m.push(x).drop_first() =~= m.drop_first().push(x));
        assert(m.push(x).first() == m.first());
        lemma_assoc_find_push(m.drop_first(), x, key);
    }
}

/// Addition capped at `usize::MAX`.
pub open spec fn count_bump(c: nat) -> nat {
    if c + 1 > usize::MAX as nat {
        usize::MAX as nat
    } else {
        c + 1
    }
}

/// Counts one occurrence of an extension display.
pub open spec fn bump(m: Seq<(Seq<char>, usize)>, key: Seq<char>) -> Seq<(Seq<char>, usize)> {
    match assoc_find(m, key) {
        Some(i) => m.update(i, (m[i].0, count_bump(m[i].1 as nat) as usize)),
        None => m.push((key, 1)),
    }
}

/// The extension tallies of the given paths, in first-seen order.
pub open spec fn ext_counts_of(paths: Seq<String>, i: int) -> Seq<(Seq<char>, usize)>
    decreases i,
{
    if i <= 0 {
        Seq::empty()
    } else {
        let prev = ext_counts_of(paths, i - 1);
        match ext_display_of(paths[i - 1]@) {
            Some(e) => bump(prev, e),
            None => prev,
        }
    }
}

/// Whether one of the strings reads as `x`.
pub open spec fn contains_str(ss: Seq<String>, x: Seq<char>) -> bool {
    exists|i: int| 0 <= i < ss.len() && ss[i]@ == x
}

/// Whether `x` goes before `y` in the extensions list: higher count
/// first, ties by name.
pub open spec fn ext_before(x: (Seq<char>, usize), y: (Seq<char>, usize)) -> bool {
    x.1 > y.1 || (x.1 == y.1 && lex_lt(x.0, y.0))
}

/// Inserts an entry into a list ordered by `ext_before`.
pub open spec fn insert_ext(s: Seq<(Seq<char>, usize)>, x: (Seq<char>, usize)) -> Seq<
    (Seq<char>, usize),
>
    decreases s.len(),
{
    if s.len() == 0 {
        seq![x]
    } else if ext_before(x, s.first()) {
        seq![x] + s
    } else {
        seq![s.first()] + insert_ext(s.drop_first(), x)
    }
}

/// Sorts extension entries by count, highest first, ties by name.
pub open spec fn sort_ext(s: Seq<(Seq<char>, usize)>) -> Seq<(Seq<char>, usize)>
    decreases s.len(),
{
    if s.len() == 0 {
        Seq::empty()
    } else {
        insert_ext(sort_ext(s.drop_last()), s.last())
    }
}

/// The views of a tally vector.
pub open spec fn pairs_view(s: Seq<(String, usize)>) -> Seq<(Seq<char>, usize)> {
    s.map(|i: int, p: (String, usize)| (p.0@, p.1))
}

proof fn lemma_insert_ext_at(s: Seq<(Seq<char>, usize)>, x: (Seq<char>, usize), pos: int)
    requires
        0 <= pos <= s.len(),
        forall|k: int| 0 <= k < pos ==> !ext_before(x, #[trigger] s[k]),
        pos < s.len() ==> ext_before(x, s[pos]),
    ensures
        insert_ext(s, x) == s.take(pos) + seq![x] + s.skip(pos),
    decreases pos,
{
    if pos == 0 {
        if s.len() == 0 {
            assert(insert_ext(s, x) =~= s.take(0) + seq![x] + s.skip(0));
        } else {
            assert(insert_ext(s, x) =~= s.take(0) + seq![x] + s.skip(0));
        }
    } else {
        assert(!ext_before(x, s[0]));
        assert(forall|k: int| 0 <= k < pos - 1 ==> s.drop_first()[k] == (#[trigger] s[k + 1]));
        lemma_insert_ext_at(s.drop_first(), x, pos - 1);
        assert(insert_ext(s, x) =~= s.take(pos) + seq![x] + s.skip(pos));
    }
}

/// Whether `x` goes before `y` in the extensions list.
fn ext_before_exec(x: &(String, usize), y: &(String, usize)) -> (r: bool)
    ensures
        r == ext_before((x.0@, x.1), (y.0@, y.1)),
{
    if x.1 > y.1 {
        true
    } else if x.1 == y.1 {
        str_lt(x.0.as_str(), y.0.as_str())
    } else {
        false
    }
}

/// Inserts a tally into a vector ordered by `ext_before`.
#[verifier::loop_isolation(false)]
fn insert_ext_sorted(r: &mut Vec<(String, usize)>, x: (String, usize))
    ensures
        pairs_view(final(r)@) == insert_ext(pairs_view(old(r)@), (x.0@, x.1)),
{
    let ghost xv = (x.0@, x.1);
    let n = r.len();
    let mut pos: usize = 0;
    while pos < n
        invariant
            pos <= n,
            forall|k: int| 0 <= k < pos ==> !ext_before(xv, #[trigger] pairs_view(r@)[k]),
        decreases n - pos,
    {
        let e: &(String, usize) = &r[pos];
        if ext_before_exec(&x, e) {
            proof {
                assert(pairs_view(r@)[pos as int] == (e.0@, e.1));
            }
            break;
        }
        proof {
            assert(pairs_view(r@)[pos as int] == (e.0@, e.1));
        }
        pos = pos + 1;
    }
    proof {
        lemma_insert_ext_at(pairs_view(r@), xv, pos as int);
    }
    r.insert(pos, x);
    proof {
        assert(pairs_view(r@) =~~= pairs_view(old(r)@).take(pos as int) + seq![xv] + pairs_view(
            old(r)@,
        ).skip(pos as int));
    }
}

proof fn lemma_assoc_find_first(m: Seq<(Seq<char>, usize)>, key: Seq<char>, i: int)
    requires
        0 <= i < m.len(),
        m[i].0 == key,
        forall|k: int| 0 <= k < i ==> (#[trigger] m[k]).0 != key,
    ensures
        assoc_find(m, key) == Some(i),
    decreases m.len(),
{
    if i > 0 {
        assert(m.first().0 != key);
        assert(forall|k: int| 0 <= k < i - 1 ==> m.drop_first()[k] == (#[trigger] m[k + 1]));
        assert(m.drop_first()[i - 1] == m[i]);
        lemma_assoc_find_first(m.drop_first(), key, i - 1);
    }
}

proof fn lemma_assoc_find_none(m: Seq<(Seq<char>, usize)>, key: Seq<char>)
    requires
        forall|k: int| 0 <= k < m.len() ==> (#[trigger] m[k]).0 != key,
    ensures
        assoc_find(m, key) is None,
    decreases m.len(),
{
    if m.len() > 0 {
        assert(forall|k: int| 0 <= k < m.len() - 1 ==> m.drop_first()[k] == (#[trigger] m[k + 1]));
        lemma_assoc_find_none(m.drop_first(), key);
    }
}

impl UiState {
    /// Builds the picker state: one checkbox per candidate path, set
    /// exactly for the preselected ones; extension tallies in
    /// first-seen order; and the extensions list sorted by count,
    /// highest first, ties by name.  The display strings come from the
    /// caller, which knows the working directory.
    #[verifier::loop_isolation(false)]
    #[verifier::rlimit(60)]
    pub fn new(paths: Vec<String>, item_display: Vec<String>, preselected: &Vec<String>) -> (s:
        UiState)
        ensures
            s.items@.len() == paths@.len(),
            forall|i: int|
                0 <= i < paths@.len() ==> (#[trigger] s.items@[i]).0 == paths@[i]
                    && s.items@[i].1 == contains_str(preselected@, paths@[i]@),
            s.item_display == item_display,
            pairs_view(s.ext_counts@) == ext_counts_of(paths@, paths@.len() as int),
            s.extension_items@.map(|i: int, p: (String, bool)| p.0@) == sort_ext(
                ext_counts_of(paths@, paths@.len() as int),
            ).map(|i: int, q: (Seq<char>, usize)| q.0),
            forall|i: int|
                0 <= i < s.extension_items@.len() ==> !(#[trigger] s.extension_items@[i]).1,
            s.search_input@ == Seq::<char>::empty(),
            s.extension_search@ == Seq::<char>::empty(),
            s.saved_search_input@ == Seq::<char>::empty(),
            !s.extension_mode,
            s.ext_selected_idx == 0,
            s.ext_scroll_offset == 0,
            s.reset_ext_on_toggle,
            s.selected_idx == 0,
            s.scroll_offset == 0,
    {
        let n = paths.len();
        let mut items: Vec<(String, bool)> = Vec::new();
        let mut i: usize = 0;
        while i < n
            invariant
                i <= n,
                items@.len() == i,
                forall|k: int|
                    0 <= k < i ==> (#[trigger] items@[k]).0 == paths@[k] && items@[k].1
                        == contains_str(preselected@, paths@[k]@),
            decreases n - i,
        {
            let p: &String = &paths[i];
            let m = preselected.len();
            let mut j: usize = 0;
            let mut hit = false;
            while j < m
                invariant
                    j <= m,
                    hit == exists|k: int| 0 <= k < j && (#[trigger] preselected@[k])@ == p@,
                decreases m - j,
            {
                let q: &String = &preselected[j];
                if !hit && *q == *p {
                    hit = true;
                }
                j = j + 1;
            }
            proof {
                assert(hit == contains_str(preselected@, p@));
            }
            items.push((p.clone(), hit));
            i = i + 1;
        }
        let mut ext_counts: Vec<(String, usize)> = Vec::new();
        let mut i2: usize = 0;
        proof {
            assert(pairs_view(ext_counts@) =~~= ext_counts_of(paths@, 0));
        }
        while i2 < n
            invariant
                i2 <= n,
                pairs_view(ext_counts@) == ext_counts_of(paths@, i2 as int),
            decreases n - i2,
        {
            let p: &String = &paths[i2];
            let ghost prev = pairs_view(ext_counts@);
            match ext_display(p.as_str()) {
                Some(e) => {
                    let m = ext_counts.len();
                    let mut j: usize = 0;
                    let mut found: Option<usize> = None;
                    while j < m
                        invariant
                            j <= m,
                            m == ext_counts@.len(),
                            prev == pairs_view(ext_counts@),
                            match found {
                                None => forall|k: int|
                                    0 <= k < j ==> (#[trigger] prev[k]).0 != e@,
                                Some(fi) => fi < j && prev[fi as int].0 == e@ && (forall|k: int|
                                    0 <= k < fi ==> (#[trigger] prev[k]).0 != e@),
                            },
                        decreases m - j,
                    {
                        let q: &(String, usize) = &ext_counts[j];
                        proof {
                            assert(prev[j as int] == (q.0@, q.1));
                        }
                        if found.is_none() && q.0 == e {
                            found = Some(j);
                        }
                        j = j + 1;
                    }
                    match found {
                        Some(fi) => {
                            proof {
                                lemma_assoc_find_first(prev, e@, fi as int);
                            }
                            let entry = ext_counts.remove(fi);
                            let bumped = entry.1.saturating_add(1);
                            ext_counts.insert(fi, (entry.0, bumped));
                            proof {
                                assert(pairs_view(ext_counts@) =~~= bump(prev, e@));
                            }
                        },
                        None => {
                            proof {
                                lemma_assoc_find_none(prev, e@);
                            }
                            ext_counts.push((e, 1));
                            proof {
                                assert(pairs_view(ext_counts@) =~~= bump(prev, e@));
                            }
                        },
                    }
                },
                None => {},
            }
            proof {
                assert(paths@[i2 as int] == p);
            }
            i2 = i2 + 1;
        }
        proof {
            assert(pairs_view(ext_counts@) == ext_counts_of(paths@, n as int));
        }
        let ghost tallies = pairs_view(ext_counts@);
        let mut sorted: Vec<(String, usize)> = Vec::new();
        let m2 = ext_counts.len();
        let mut j2: usize = 0;
        proof {
            assert(tallies.take(0) =~= Seq::<(Seq<char>, usize)>::empty());
            assert(sort_ext(tallies.take(0)) =~= Seq::<(Seq<char>, usize)>::empty());
            assert(pairs_view(sorted@) =~~= sort_ext(tallies.take(0)));
        }
        while j2 < m2
            invariant
                j2 <= m2,
                m2 == ext_counts@.len(),
                tallies == pairs_view(ext_counts@),
                pairs_view(sorted@) == sort_ext(tallies.take(j2 as int)),
            decreases m2 - j2,
        {
            let q: &(String, usize) = &ext_counts[j2];
            insert_ext_sorted(&mut sorted, (q.0.clone(), q.1));
            proof {
                assert(tallies[j2 as int] == (q.0@, q.1));
                assert(tallies.take(j2 + 1).drop_last() =~= tallies.take(j2 as int));
                assert(tallies.take(j2 + 1).last() == tallies[j2 as int]);
            }
            j2 = j2 + 1;
        }
        proof {
            assert(tallies.take(m2 as int) =~= tallies);
        }
        let mut extension_items: Vec<(String, bool)> = Vec::new();
        let m3 = sorted.len();
        let mut k: usize = 0;
        while k < m3
            invariant
                k <= m3,
                m3 == sorted@.len(),
                extension_items@.len() == k,
                forall|t: int|
                    0 <= t < k ==> (#[trigger] extension_items@[t]).0@ == pairs_view(
                        sorted@,
                    )[t].0 && !extension_items@[t].1,
            decreases m3 - k,
        {
            let q: &(String, usize) = &sorted[k];
            proof {
                assert(pairs_view(sorted@)[k as int] == (q.0@, q.1));
            }
            extension_items.push((q.0.clone(), false));
            k = k + 1;
        }
        let s = UiState {
            items,
            item_display,
            ext_counts,
            search_input: String::new(),
            extension_mode: false,
            extension_items,
            extension_search: String::new(),
            ext_selected_idx: 0,
            ext_scroll_offset: 0,
            reset_ext_on_toggle: true,
            saved_search_input: String::new(),
            selected_idx: 0,
            scroll_offset: 0,
        };
        proof {
            assert(s.extension_items@.map(|i: int, p: (String, bool)| p.0@) =~= sort_ext(
                ext_counts_of(paths@, paths@.len() as int),
            ).map(|i: int, q: (Seq<char>, usize)| q.0));
        }
        s
    }

    /// Returns the checked paths.
    pub fn selected_paths(&self) -> (r: Vec<String>)
        ensures
            r@ == spec_selected(self.items@),
    {
        let mut r: Vec<String> = Vec::new();
        let n = self.items.len();
        let mut i: usize = 0;
        proof {
            assert(self.items@.take(0) =~= Seq::<(String, bool)>::empty());
        }
        while i < n
            invariant
                i <= n,
                n == self.items@.len(),
                r@ == spec_selected(self.items@.take(i as int)),
            decreases n - i,
        {
            let it: &(String, bool) = &self.items[i];
            if it.1 {
                r.push(it.0.clone());
            }
            proof {
                lemma_spec_selected_push(self.items@.take(i as int), self.items@[i as int]);
                assert(self.items@.take(i as int).push(self.items@[i as int]) =~= self.items@.take(
                    i + 1,
                ));
            }
            i = i + 1;
        }
        proof {
            assert(self.items@.take(n as int) =~= self.items@);
        }
        r
    }
}

/// Keeps the selection and scroll offset inside a list of the given
/// length: the selection is clamped to the last entry and the offset
/// never lies past the selection.
pub fn clamp_selection(selected_idx: &mut usize, scroll_offset: &mut usize, list_len: usize)
    ensures
        list_len == 0 ==> *final(selected_idx) == 0 && *final(scroll_offset) == 0,
        list_len > 0 ==> *final(selected_idx) == (if *old(selected_idx) < list_len {
            *old(selected_idx)
        } else {
            (list_len - 1) as usize
        }),
        list_len > 0 ==> *final(scroll_offset) == (if *old(scroll_offset) < *final(selected_idx) {
            *old(scroll_offset)
        } else {
            *final(selected_idx)
        }),
{
    if list_len == 0 {
        *selected_idx = 0;
        *scroll_offset = 0;
    } else {
        if *selected_idx > list_len - 1 {
            *selected_idx = list_len - 1;
        }
        if *scroll_offset > *selected_idx {
            *scroll_offset = *selected_idx;
        }
    }
}

/// Moves the scroll offset so the selection stays visible in a window
/// of `max_lines` rows, and returns the visible range within a list of
/// `data_len` entries.
pub fn adjust_scroll_and_slice(
    selected_idx: &mut usize,
    scroll_offset: &mut usize,
    max_lines: usize,
    data_len: usize,
) -> (r: (usize, usize))
    ensures
        *final(selected_idx) == *old(selected_idx),
        *final(scroll_offset) as int == (if *old(selected_idx) < *old(scroll_offset) {
            *old(selected_idx) as int
        } else if *old(selected_idx) as int >= *old(scroll_offset) as int + max_lines as int {
            vstd::math::min(*old(selected_idx) as int - max_lines as int + 1, usize::MAX as int)
        } else {
            *old(scroll_offset) as int
        }),
        r.0 == *final(scroll_offset),
        r.1 as int == vstd::math::min(
            *final(scroll_offset) as int + max_lines as int,
            data_len as int,
        ),
{
    if *selected_idx < *scroll_offset {
        *scroll_offset = *selected_idx;
    } else {
        let past = match scroll_offset.checked_add(max_lines) {
            Some(limit) => *selected_idx >= limit,
            None => false,
        };
        if past {
            *scroll_offset = selected_idx.saturating_sub(max_lines).saturating_add(1);
        }
    }
    let end_idx = match scroll_offset.checked_add(max_lines) {
        Some(e) => if e < data_len {
            e
        } else {
            data_len
        },
        None => data_len,
    };
    (*scroll_offset, end_idx)
}

} // verus!
