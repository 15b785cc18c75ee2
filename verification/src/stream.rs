//! Decisions of the interactive delivery loops: which files a fetch
//! request selects, how a served file is wrapped, and which chunk comes
//! next.  The surrounding read-print loops live with the caller.

use vstd::prelude::*;
use vstd::string::*;
use crate::globext::{glob_ok, glob_match_of};
use crate::pipeline::slashify;
use crate::types::FileContents;
use crate::xmlesc::{attr_of, text_of, file_name_of, maybe_escape_attr, maybe_escape_text, file_name};
use crate::strutil::{dec_string, spec_dec};

verus! {

/// The indices of the files whose slash-normalised path the pattern
/// matches, in order; `None` when the pattern does not compile.
pub open spec fn spec_glob_selection(paths: Seq<Seq<char>>, pattern: Seq<char>) -> Seq<int>
    decreases paths.len(),
{
    if paths.len() == 0 {
        Seq::empty()
    } else {
        let prev = spec_glob_selection(paths.drop_last(), pattern);
        if glob_match_of(pattern, slashify(paths.last())) {
            prev.push(paths.len() - 1)
        } else {
            prev
        }
    }
}

/// Selects the files a glob fetch request names.
///
/// Returns `None` when the pattern does not compile; otherwise the
/// indices of the matching files, in order.
#[verifier::loop_isolation(false)]
pub fn select_by_glob(files: &Vec<FileContents>, pattern: &str) -> (r: Option<Vec<usize>>)
    ensures
        r is Some <==> glob_ok(slashify(pattern@)),
        r matches Some(ids) ==> ids@.map_values(|u: usize| u as int) == spec_glob_selection(
            Seq::new(files@.len(), |i: int| files@[i].path@),
            slashify(pattern@),
        ),
{
    let ghost pv = Seq::new(files@.len(), |i: int| files@[i].path@);
    let pat = crate::pipeline::to_slashes(pattern);
    if !crate::globext::glob_is_valid(pat.as_str()) {
        return None;
    }
    let mut ids: Vec<usize> = Vec::new();
    let n = files.len();
    let mut i: usize = 0;
    proof {
        assert(pv.take(0) =~= Seq::<Seq<char>>::empty());
        assert(spec_glob_selection(pv.take(0), pat@) =~= Seq::<int>::empty());
        assert(ids@.map_values(|u: usize| u as int) =~= Seq::<int>::empty());
    }
    while i < n
        invariant
            i <= n,
            n == files@.len(),
            ids@.map_values(|u: usize| u as int) == spec_glob_selection(pv.take(i as int), pat@),
        decreases n - i,
    {
        let f: &FileContents = &files[i];
        let p = crate::pipeline::to_slashes(f.path.as_str());
        let m = crate::globext::glob_match_path(pat.as_str(), p.as_str());
        let hit = match m {
            Some(b) => b,
            None => false,
        };
        let ghost prev = ids@;
        if hit {
            ids.push(i);
        }
        proof {
            assert(pv[i as int] == files@[i as int].path@);
            assert(pv.take(i + 1).drop_last() =~= pv.take(i as int));
            assert(pv.take(i + 1).last() == pv[i as int]);
            if hit {
                assert(ids@.map_values(|u: usize| u as int) =~= prev.map_values(
                    |u: usize| u as int,
                ).push(i as int));
                assert(spec_glob_selection(pv.take(i + 1), pat@) == spec_glob_selection(
                    pv.take(i as int),
                    pat@,
                ).push(i as int));
            } else {
                assert(ids@.map_values(|u: usize| u as int) =~= prev.map_values(
                    |u: usize| u as int,
                ));
                assert(spec_glob_selection(pv.take(i + 1), pat@) == spec_glob_selection(
                    pv.take(i as int),
                    pat@,
                ));
            }
        }
        i = i + 1;
    }
    proof {
        assert(pv.take(n as int) =~= pv);
    }
    Some(ids)
}

/// The served form of one file in multi-step mode.
pub open spec fn file_snippet_of(id: nat, f: crate::types::FileModel, esc: bool) -> Seq<char> {
    "<file-contents id=\""@ + spec_dec(id) + "\" path=\""@ + attr_of(f.path, esc) + "\" name=\""@
        + attr_of(file_name_of(f.path), esc) + "\">\n"@ + text_of(f.contents, esc)
        + "\n</file-contents>\n"@
}

/// Wraps one file for on-demand delivery.
pub fn format_file_snippet(id: usize, f: &FileContents, escape_xml: bool) -> (r: String)
    ensures
        r@ == file_snippet_of(id as nat, f@, escape_xml),
{
    let mut s = String::new();
    s.append("<file-contents id=\"");
    let d = dec_string(id);
    s.append(d.as_str());
    s.append("\" path=\"");
    let pa = maybe_escape_attr(f.path.as_str(), escape_xml);
    s.append(pa.as_str());
    s.append("\" name=\"");
    let name = file_name(f.path.as_str());
    let na = maybe_escape_attr(name.as_str(), escape_xml);
    s.append(na.as_str());
    s.append("\">\n");
    let body = maybe_escape_text(f.contents.as_str(), escape_xml);
    s.append(body.as_str());
    s.append("\n</file-contents>\n");
    proof {
        assert(s@ =~= file_snippet_of(id as nat, f@, escape_xml));
    }
    s
}

/// The chunk shown after `idx` when the browser steps forward: the next
/// one, wrapping around past the last.
pub fn next_chunk_index(idx: usize, total: usize) -> (r: usize)
    requires
        total >= 1,
        idx < total,
    ensures
        r == if idx + 1 < total {
            idx + 1
        } else {
            0
        },
{
    if idx + 1 < total {
        idx + 1
    } else {
        0
    }
}

} // verus!
