//! Escaping of text and attribute values for the delimited containers.
//!
//! Body text is escaped only when escaping is switched on; attribute
//! values are additionally escaped whenever they contain a character that
//! would break the container, so the output stays well-formed even with
//! escaping off.

use vstd::prelude::*;
use vstd::string::*;
use crate::strutil::string_from_chars;

verus! {

/// The replacement sequence for one character.  Quotes are replaced only
/// in attribute position (`q` set).
pub open spec fn esc_char(c: char, q: bool) -> Seq<char> {
    if c == '&' {
        seq!['&', 'a', 'm', 'p', ';']
    } else if c == '<' {
        seq!['&', 'l', 't', ';']
    } else if c == '>' {
        seq!['&', 'g', 't', ';']
    } else if c == '"' && q {
        seq!['&', 'q', 'u', 'o', 't', ';']
    } else if c == '\'' && q {
        seq!['&', 'a', 'p', 'o', 's', ';']
    } else {
        seq![c]
    }
}

/// Character-wise escaping of a whole text.
pub open spec fn esc_text(s: Seq<char>, q: bool) -> Seq<char>
    decreases s.len(),
{
    if s.len() == 0 {
        Seq::empty()
    } else {
        esc_char(s.first(), q) + esc_text(s.drop_first(), q)
    }
}

pub proof fn lemma_esc_text_push(s: Seq<char>, c: char, q: bool)
    ensures
        esc_text(s.push(c), q) == esc_text(s, q) + esc_char(c, q),
    decreases s.len(),
{
    if s.len() == 0 {
        assert(s.push(c).drop_first() =~= Seq::<char>::empty());
        assert(s.push(c).first() == c);
        assert(esc_text(s.push(c), q) == esc_char(c, q) + esc_text(Seq::<char>::empty(), q));
        assert(esc_text(s.push(c), q) =~= esc_text(s, q) + esc_char(c, q));
    } else {
        assert(s.push(c).drop_first() =~= s.drop_first().push(c));
        assert(s.push(c).first() == s.first());
        lemma_esc_text_push(s.drop_first(), c, q);
        assert(esc_text(s.push(c), q) =~= esc_text(s, q) + esc_char(c, q));
    }
}

pub proof fn lemma_esc_text_len(s: Seq<char>, q: bool)
    ensures
        esc_text(s, q).len() <= 6 * s.len(),
    decreases s.len(),
{
    if s.len() > 0 {
        lemma_esc_text_len(s.drop_first(), q);
    }
}

/// Whether `c` would break an attribute value.
pub open spec fn is_attr_special(c: char) -> bool {
    c == '&' || c == '<' || c == '>' || c == '"' || c == '\''
}

/// Whether an attribute value needs escaping even with escaping off.
pub open spec fn spec_needs_escape_attr(s: Seq<char>) -> bool {
    exists|i: int| 0 <= i < s.len() && is_attr_special(s[i])
}

/// Attribute rendering: escaped when asked for, or when the raw value
/// would break the container.
pub open spec fn attr_of(s: Seq<char>, escape_xml: bool) -> Seq<char> {
    if escape_xml || spec_needs_escape_attr(s) {
        esc_text(s, true)
    } else {
        s
    }
}

/// Body-text rendering: escaped only when asked for.
pub open spec fn text_of(s: Seq<char>, escape_xml: bool) -> Seq<char> {
    if escape_xml {
        esc_text(s, false)
    } else {
        s
    }
}

fn push_esc_char(v: &mut Vec<char>, c: char, q: bool)
    ensures
        final(v)@ == old(v)@ + esc_char(c, q),
{
    if c == '&' {
        v.push('&');
        v.push('a');
        v.push('m');
        v.push('p');
        v.push(';');
    } else if c == '<' {
        v.push('&');
        v.push('l');
        v.push('t');
        v.push(';');
    } else if c == '>' {
        v.push('&');
        v.push('g');
        v.push('t');
        v.push(';');
    } else if c == '"' && q {
        v.push('&');
        v.push('q');
        v.push('u');
        v.push('o');
        v.push('t');
        v.push(';');
    } else if c == '\'' && q {
        v.push('&');
        v.push('a');
        v.push('p');
        v.push('o');
        v.push('s');
        v.push(';');
    } else {
        v.push(c);
    }
    assert(v@ =~= old(v)@ + esc_char(c, q));
}

/// Escapes every character of `s`, quoting also `"` and `'` when `q` is
/// set.
pub fn escape_chars(s: &str, q: bool) -> (v: Vec<char>)
    ensures
        v@ == esc_text(s@, q),
{
    let n: usize = s.unicode_len();
    let mut v: Vec<char> = Vec::new();
    let mut i: usize = 0;
    proof {
        assert(s@.take(0) =~= Seq::<char>::empty());
    }
    while i < n
        invariant
            i <= n,
            n == s@.len(),
            v@ == esc_text(s@.take(i as int), q),
        decreases n - i,
    {
        let c = s.get_char(i);
        push_esc_char(&mut v, c, q);
        proof {
            lemma_esc_text_push(s@.take(i as int), c, q);
            assert(s@.take(i as int).push(c) =~= s@.take(i + 1));
        }
        i = i + 1;
    }
    proof {
        assert(s@.take(n as int) =~= s@);
    }
    v
}

fn is_attr_special_exec(c: char) -> (r: bool)
    ensures
        r == is_attr_special(c),
{
    c == '&' || c == '<' || c == '>' || c == '"' || c == '\''
}

/// Whether the raw attribute value would break the container.
pub fn needs_escape_attr(s: &str) -> (r: bool)
    ensures
        r == spec_needs_escape_attr(s@),
{
    let n: usize = s.unicode_len();
    let mut i: usize = 0;
    while i < n
        invariant
            i <= n,
            n == s@.len(),
            forall|j: int| 0 <= j < i ==> !is_attr_special(s@[j]),
        decreases n - i,
    {
        if is_attr_special_exec(s.get_char(i)) {
            return true;
        }
        i = i + 1;
    }
    false
}

/// Renders body text, escaped only when `escape_xml` is set.
pub fn maybe_escape_text(s: &str, escape_xml: bool) -> (r: String)
    ensures
        r@ == text_of(s@, escape_xml),
{
    if escape_xml {
        let v = escape_chars(s, false);
        string_from_chars(&v)
    } else {
        s.to_owned()
    }
}

/// Renders an attribute value, escaped when asked for or when needed to
/// keep the container well-formed.
pub fn maybe_escape_attr(s: &str, escape_xml: bool) -> (r: String)
    ensures
        r@ == attr_of(s@, escape_xml),
{
    if escape_xml || needs_escape_attr(s) {
        let v = escape_chars(s, true);
        string_from_chars(&v)
    } else {
        s.to_owned()
    }
}

/// The position right after the last `/` in `p`, or `0` if none.
pub open spec fn after_last_slash(p: Seq<char>) -> int
    decreases p.len(),
{
    if p.len() == 0 {
        0
    } else if p.last() == '/' {
        p.len() as int
    } else {
        after_last_slash(p.drop_last())
    }
}

/// The file-name component of a slash-separated path: everything after
/// the last `/`, or the whole path when it has no `/`.
pub open spec fn file_name_of(p: Seq<char>) -> Seq<char> {
    p.subrange(after_last_slash(p), p.len() as int)
}

pub proof fn lemma_after_last_slash_bounds(p: Seq<char>)
    ensures
        0 <= after_last_slash(p) <= p.len(),
    decreases p.len(),
{
    if p.len() > 0 && p.last() != '/' {
        lemma_after_last_slash_bounds(p.drop_last());
    }
}

proof fn lemma_after_last_slash_take(p: Seq<char>, i: int)
    requires
        0 <= i < p.len(),
    ensures
        after_last_slash(p.take(i + 1)) == if p[i] == '/' {
            i + 1
        } else {
            after_last_slash(p.take(i))
        },
{
    let t = p.take(i + 1);
    assert(t.last() == p[i]);
    if p[i] != '/' {
        assert(t.drop_last() =~= p.take(i));
    }
}

/// The file-name component of a slash-separated path.
pub fn file_name(p: &str) -> (r: String)
    ensures
        r@ == file_name_of(p@),
{
    let n: usize = p.unicode_len();
    let mut start: usize = 0;
    let mut i: usize = 0;
    proof {
        assert(p@.take(0) =~= Seq::<char>::empty());
    }
    while i < n
        invariant
            i <= n,
            n == p@.len(),
            start as int == after_last_slash(p@.take(i as int)),
            start <= i,
        decreases n - i,
    {
        let c = p.get_char(i);
        proof {
            lemma_after_last_slash_take(p@, i as int);
        }
        i = i + 1;
        if c == '/' {
            start = i;
        }
    }
    proof {
        assert(p@.take(n as int) =~= p@);
    }
    let s = p.substring_char(start, n);
    s.to_owned()
}

} // verus!
