//! The manifest header: chunk index 0.
//!
//! The header advertises the total chunk count, the configured budget, a
//! generation timestamp, one manifest row per file, an instructions
//! block, and an optional repository section.  Repository facts and the
//! timestamp are plain values supplied by the caller; the header builder
//! itself is pure.

use vstd::prelude::*;
use vstd::string::*;
use crate::chunker::{FileMeta, MetaModel, metas_view};
use crate::strutil::{concat_all, dec_string, spec_dec};
use crate::xmlesc::{attr_of, text_of, maybe_escape_attr, maybe_escape_text};

verus! {

/// What is known about the enclosing repository, gathered by the caller.
pub enum GitStatus {
    /// Repository information was not asked for.
    Disabled,
    /// The working directory is not inside a repository.
    Unavailable,
    /// Repository facts: current branch if known, recent commit
    /// subjects, changed file paths, and whether the change listing
    /// itself succeeded.
    Available { branch: Option<String>, commits: Vec<String>, changed: Vec<String>, diff_ok: bool },
}

/// One manifest row.
pub open spec fn file_row(m: MetaModel, esc: bool) -> Seq<char> {
    "    <file id=\""@ + spec_dec(m.id) + "\" path=\""@ + attr_of(m.path, esc) + "\" tokens=\""@
        + spec_dec(m.tokens) + "\" parts=\""@ + spec_dec(m.parts) + "\"/>\n"@
}

/// All manifest rows, in order.
pub open spec fn file_rows(metas: Seq<MetaModel>, esc: bool) -> Seq<char> {
    concat_all(metas.map(|i: int, m: MetaModel| file_row(m, esc)))
}

/// The instructions block, which differs between multi-step mode (files
/// fetched on demand) and chunked mode (chunks reviewed in order).
pub open spec fn instructions_of(total_chunks: nat, total_files: nat, multi_step: bool) -> Seq<
    char,
> {
    if multi_step {
        "  <instructions>\n    This header lists "@ + spec_dec(total_files)
            + " files available for context retrieval. To fetch file contents, enter one or more file ids (e.g., '2'), file paths (e.g., 'src/main.rs'), or glob patterns (e.g., '*.rs'), and the tool will return their contents in the next message.\n  </instructions>\n"@
    } else {
        "  <instructions>\n    The shared context is split into "@ + spec_dec(total_chunks)
            + " chunks (including this header). Review each chunk carefully. Acknowledge that you've studied this each chunk. After reading the final chunk, reply \"READY\" to confirm you have understood the context.\n  </instructions>\n"@
    }
}

/// One commit row.
pub open spec fn commit_row(c: Seq<char>, esc: bool) -> Seq<char> {
    "    <commit>"@ + text_of(c, esc) + "</commit>\n"@
}

/// One changed-file row.
pub open spec fn changed_row(p: Seq<char>, esc: bool) -> Seq<char> {
    "    <file>"@ + text_of(p, esc) + "</file>\n"@
}

/// The branch-and-commits section.
pub open spec fn git_info_of(g: GitStatus, esc: bool) -> Seq<char> {
    match g {
        GitStatus::Disabled => Seq::empty(),
        GitStatus::Unavailable => "  <!-- git info unavailable -->\n"@,
        GitStatus::Available { branch, commits, changed, diff_ok } => match branch {
            Some(b) => "  <git-info branch=\""@ + attr_of(b@, esc) + "\">\n"@ + concat_all(
                commits@.map(|i: int, c: String| commit_row(c@, esc)),
            ) + "  </git-info>\n"@,
            None => "  <!-- git info unavailable -->\n"@,
        },
    }
}

/// The changed-files section.
pub open spec fn diff_xml_of(g: GitStatus, esc: bool) -> Seq<char> {
    match g {
        GitStatus::Disabled => Seq::empty(),
        GitStatus::Unavailable => "  <!-- git diff unavailable -->\n"@,
        GitStatus::Available { branch, commits, changed, diff_ok } => if changed@.len() > 0 {
            "  <changed-files diffed-against=\"origin/main\">\n"@ + concat_all(
                changed@.map(|i: int, p: String| changed_row(p@, esc)),
            ) + "  </changed-files>\n"@
        } else if !diff_ok {
            "  <!-- git diff unavailable -->\n"@
        } else {
            Seq::empty()
        },
    }
}

/// The whole header text.
pub open spec fn header_of(
    total_chunks: nat,
    limit: nat,
    metas: Seq<MetaModel>,
    multi_step: bool,
    esc: bool,
    git: GitStatus,
    ts: Seq<char>,
) -> Seq<char> {
    "<shared-context-header version=\"1\" total-chunks=\""@ + spec_dec(total_chunks)
        + "\" chunk-size=\""@ + spec_dec(limit) + "\" generated-at=\""@ + ts
        + "\">\n  <file-map total-files=\""@ + spec_dec(metas.len()) + "\">\n"@ + file_rows(
        metas,
        esc,
    ) + "  </file-map>\n"@ + instructions_of(total_chunks, metas.len(), multi_step) + git_info_of(
        git,
        esc,
    ) + diff_xml_of(git, esc) + "</shared-context-header>\n"@
}

/// Builds the manifest header for chunk index 0.
#[verifier::loop_isolation(false)]
#[verifier::rlimit(60)]
pub fn make_header(
    total_chunks: usize,
    limit: usize,
    files: &Vec<FileMeta>,
    multi_step: bool,
    escape_xml: bool,
    git: &GitStatus,
    generated_at: &str,
) -> (r: String)
    ensures
        r@ == header_of(
            total_chunks as nat,
            limit as nat,
            metas_view(files@),
            multi_step,
            escape_xml,
            *git,
            generated_at@,
        ),
{
    let ghost mv = metas_view(files@);
    let mut s = String::new();
    s.append("<shared-context-header version=\"1\" total-chunks=\"");
    let d_tc = dec_string(total_chunks);
    s.append(d_tc.as_str());
    s.append("\" chunk-size=\"");
    let d_l = dec_string(limit);
    s.append(d_l.as_str());
    s.append("\" generated-at=\"");
    s.append(generated_at);
    s.append("\">\n  <file-map total-files=\"");
    let d_n = dec_string(files.len());
    s.append(d_n.as_str());
    s.append("\">\n");
    let ghost rows = mv.map(|i: int, m: MetaModel| file_row(m, escape_xml));
    let ghost s_before_rows = s@;
    let n = files.len();
    let mut i: usize = 0;
    proof {
        assert(rows.take(0) =~= Seq::<Seq<char>>::empty());
    }
    while i < n
        invariant
            i <= n,
            s@ == s_before_rows + concat_all(rows.take(i as int)),
        decreases n - i,
    {
        let f: &FileMeta = &files[i];
        proof {
            assert(mv[i as int] == files@[i as int]@);
        }
        s.append("    <file id=\"");
        let d_id = dec_string(f.id);
        s.append(d_id.as_str());
        s.append("\" path=\"");
        let pa = maybe_escape_attr(f.path.as_str(), escape_xml);
        s.append(pa.as_str());
        s.append("\" tokens=\"");
        let d_t = dec_string(f.tokens);
        s.append(d_t.as_str());
        s.append("\" parts=\"");
        let d_p = dec_string(f.parts);
        s.append(d_p.as_str());
        s.append("\"/>\n");
        proof {
            crate::strutil::lemma_concat_all_push(rows.take(i as int), rows[i as int]);
            assert(rows.take(i as int).push(rows[i as int]) =~= rows.take(i + 1));
            assert(s@ =~= s_before_rows + concat_all(rows.take(i + 1)));
        }
        i = i + 1;
    }
    proof {
        assert(rows.take(n as int) =~= rows);
    }
    s.append("  </file-map>\n");
    if multi_step {
        s.append("  <instructions>\n    This header lists ");
        let d = dec_string(files.len());
        s.append(d.as_str());
        s.append(
            " files available for context retrieval. To fetch file contents, enter one or more file ids (e.g., '2'), file paths (e.g., 'src/main.rs'), or glob patterns (e.g., '*.rs'), and the tool will return their contents in the next message.\n  </instructions>\n",
        );
    } else {
        s.append("  <instructions>\n    The shared context is split into ");
        let d = dec_string(total_chunks);
        s.append(d.as_str());
        s.append(
            " chunks (including this header). Review each chunk carefully. Acknowledge that you've studied this each chunk. After reading the final chunk, reply \"READY\" to confirm you have understood the context.\n  </instructions>\n",
        );
    }
    append_git_info(&mut s, git, escape_xml);
    append_diff_xml(&mut s, git, escape_xml);
    s.append("</shared-context-header>\n");
    proof {
        assert(s@ =~= header_of(
            total_chunks as nat,
            limit as nat,
            mv,
            multi_step,
            escape_xml,
            *git,
            generated_at@,
        ));
    }
    s
}

/// Builds the manifest header stamped with the current clock reading.
pub fn make_header_now(
    total_chunks: usize,
    limit: usize,
    files: &Vec<FileMeta>,
    multi_step: bool,
    escape_xml: bool,
    git: &GitStatus,
) -> (r: String)
    ensures
        exists|ts: Seq<char>|
            r@ == header_of(
                total_chunks as nat,
                limit as nat,
                metas_view(files@),
                multi_step,
                escape_xml,
                *git,
                ts,
            ),
{
    let ts = crate::timeutil::now_rfc3339();
    let r = make_header(total_chunks, limit, files, multi_step, escape_xml, git, ts.as_str());
    proof {
        assert(r@ == header_of(
            total_chunks as nat,
            limit as nat,
            metas_view(files@),
            multi_step,
            escape_xml,
            *git,
            ts@,
        ));
    }
    r
}

#[verifier::loop_isolation(false)]
fn append_git_info(s: &mut String, git: &GitStatus, escape_xml: bool)
    ensures
        final(s)@ == old(s)@ + git_info_of(*git, escape_xml),
{
    match git {
        GitStatus::Disabled => {
            proof {
                assert(s@ =~= old(s)@ + git_info_of(*git, escape_xml));
            }
        },
        GitStatus::Unavailable => {
            s.append("  <!-- git info unavailable -->\n");
        },
        GitStatus::Available { branch, commits, changed, diff_ok } => {
            match branch {
                Some(b) => {
                    s.append("  <git-info branch=\"");
                    let ba = maybe_escape_attr(b.as_str(), escape_xml);
                    s.append(ba.as_str());
                    s.append("\">\n");
                    let ghost rows = commits@.map(
                        |i: int, c: String| commit_row(c@, escape_xml),
                    );
                    let ghost s_before = s@;
                    let n = commits.len();
                    let mut i: usize = 0;
                    proof {
                        assert(rows.take(0) =~= Seq::<Seq<char>>::empty());
                    }
                    while i < n
                        invariant
                            i <= n,
                            s@ == s_before + concat_all(rows.take(i as int)),
                        decreases n - i,
                    {
                        let c: &String = &commits[i];
                        s.append("    <commit>");
                        let ct = maybe_escape_text(c.as_str(), escape_xml);
                        s.append(ct.as_str());
                        s.append("</commit>\n");
                        proof {
                            crate::strutil::lemma_concat_all_push(
                                rows.take(i as int),
                                rows[i as int],
                            );
                            assert(rows.take(i as int).push(rows[i as int]) =~= rows.take(i + 1));
                            assert(s@ =~= s_before + concat_all(rows.take(i + 1)));
                        }
                        i = i + 1;
                    }
                    proof {
                        assert(rows.take(n as int) =~= rows);
                    }
                    s.append("  </git-info>\n");
                    proof {
                        assert(s@ =~= old(s)@ + git_info_of(*git, escape_xml));
                    }
                },
                None => {
                    s.append("  <!-- git info unavailable -->\n");
                },
            }
        },
    }
}

#[verifier::loop_isolation(false)]
fn append_diff_xml(s: &mut String, git: &GitStatus, escape_xml: bool)
    ensures
        final(s)@ == old(s)@ + diff_xml_of(*git, escape_xml),
{
    match git {
        GitStatus::Disabled => {
            proof {
                assert(s@ =~= old(s)@ + diff_xml_of(*git, escape_xml));
            }
        },
        GitStatus::Unavailable => {
            s.append("  <!-- git diff unavailable -->\n");
        },
        GitStatus::Available { branch, commits, changed, diff_ok } => {
            if changed.len() > 0 {
                s.append("  <changed-files diffed-against=\"origin/main\">\n");
                let ghost rows = changed@.map(|i: int, p: String| changed_row(p@, escape_xml));
                let ghost s_before = s@;
                let n = changed.len();
                let mut i: usize = 0;
                proof {
                    assert(rows.take(0) =~= Seq::<Seq<char>>::empty());
                }
                while i < n
                    invariant
                        i <= n,
                        s@ == s_before + concat_all(rows.take(i as int)),
                    decreases n - i,
                {
                    let p: &String = &changed[i];
                    s.append("    <file>");
                    let pt = maybe_escape_text(p.as_str(), escape_xml);
                    s.append(pt.as_str());
                    s.append("</file>\n");
                    proof {
                        crate::strutil::lemma_concat_all_push(rows.take(i as int), rows[i as int]);
                        assert(rows.take(i as int).push(rows[i as int]) =~= rows.take(i + 1));
                        assert(s@ =~= s_before + concat_all(rows.take(i + 1)));
                    }
                    i = i + 1;
                }
                proof {
                    assert(rows.take(n as int) =~= rows);
                }
                s.append("  </changed-files>\n");
                proof {
                    assert(s@ =~= old(s)@ + diff_xml_of(*git, escape_xml));
                }
            } else if !*diff_ok {
                s.append("  <!-- git diff unavailable -->\n");
            } else {
                proof {
                    assert(s@ =~= old(s)@ + diff_xml_of(*git, escape_xml));
                }
            }
        },
    }
}

} // verus!
