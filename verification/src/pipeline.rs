//! The assembly pipeline: candidate filtering, preselection, and the
//! convergence loop that fits chunks and their boundary markers into the
//! token budget together.
//!
//! The pipeline works on plain slash-separated path strings and
//! in-memory file contents; walking the filesystem, expanding the
//! command line and gathering repository facts are the caller's work.

use vstd::prelude::*;
use vstd::string::*;
use crate::chunker::{
    Chunk, FileMeta, ChunkBody, Block, BodyModel, ChunkModel, MetaModel, bodies_view, metas_view,
    chunks_view, blocks_xml, blocks_view, whole_file_metas, packed_bodies, packed_metas,
    files_fit, sat_add, build_chunk_bodies, build_file_meta, body_to_chunk,
};
use crate::types::{files_view, FileModel};
use crate::globext::{glob_ok, glob_match_of, glob_is_valid, glob_match_path};
use crate::header::{GitStatus, make_header, header_of};
use crate::output::{format_chunk_snippet, snippet_of};
use crate::strutil::{string_from_chars, concat_all};
use crate::types::FileContents;
use crate::xml_output::{build_xml_with_escape, spec_build_xml};
use crate::tokenizer::{Tokenizer, token_count_of};

verus! {

/// Error: every exclusion pattern was rejected.
#[derive(Debug)]
pub struct InvalidExcludePatterns {
    pub patterns: Vec<String>,
}

/// Pipeline for gathering and assembling context outputs.
pub struct Pipeline {
    pub root: String,
    pub user_paths_canon: Vec<String>,
    pub candidate_files: Vec<String>,
    pub preselected_paths: Vec<String>,
    pub file_data: Vec<FileContents>,
    pub xml_output: Option<String>,
    pub chunks: Vec<Chunk>,
    pub metas: Vec<FileMeta>,
}

/// Whether `q` names `p` itself or a directory that `p` lies under, on
/// slash-separated paths.
pub open spec fn is_path_prefix(p: Seq<char>, q: Seq<char>) -> bool {
    &&& q.len() <= p.len()
    &&& p.take(q.len() as int) == q
    &&& (p.len() == q.len() || p[q.len() as int] == '/')
}

/// Whether a candidate lies under one of the user-given paths.
pub open spec fn spec_preselected(cand: Seq<char>, ups: Seq<String>) -> bool {
    exists|i: int| 0 <= i < ups.len() && is_path_prefix(cand, ups[i]@)
}

/// The candidates that lie under a user-given path, in order.
pub open spec fn spec_preselected_of(cands: Seq<String>, ups: Seq<String>) -> Seq<String>
    decreases cands.len(),
{
    if cands.len() == 0 {
        Seq::empty()
    } else {
        let rest = spec_preselected_of(cands.drop_first(), ups);
        if spec_preselected(cands.first()@, ups) {
            seq![cands.first()] + rest
        } else {
            rest
        }
    }
}

pub proof fn lemma_spec_preselected_of_push(cands: Seq<String>, x: String, ups: Seq<String>)
    ensures
        spec_preselected_of(cands.push(x), ups) == if spec_preselected(x@, ups) {
            spec_preselected_of(cands, ups).push(x)
        } else {
            spec_preselected_of(cands, ups)
        },
    decreases cands.len(),
{
    if cands.len() == 0 {
        assert(cands.push(x).drop_first() =~= Seq::<String>::empty());
        assert(cands.push(x).first() == x);
        assert(spec_preselected_of(Seq::<String>::empty(), ups) =~= Seq::<String>::empty());
        assert(spec_preselected_of(cands, ups) =~= Seq::<String>::empty());
        if spec_preselected(x@, ups) {
            assert(spec_preselected_of(cands.push(x), ups) =~= spec_preselected_of(
                cands,
                ups,
            ).push(x));
        } else {
            assert(spec_preselected_of(cands.push(x), ups) =~= spec_preselected_of(cands, ups));
        }
    } else {
        assert(cands.push(x).drop_first() =~= cands.drop_first().push(x));
        assert(cands.push(x).first() == cands.first());
        lemma_spec_preselected_of_push(cands.drop_first(), x, ups);
        if spec_preselected(x@, ups) {
            assert(spec_preselected_of(cands.push(x), ups) =~= spec_preselected_of(
                cands,
                ups,
            ).push(x));
        } else {
            assert(spec_preselected_of(cands.push(x), ups) =~= spec_preselected_of(cands, ups));
        }
    }
}

/// Whether `q` names `p` or a directory above it.
pub fn path_starts_with(p: &str, q: &str) -> (r: bool)
    ensures
        r == is_path_prefix(p@, q@),
{
    let np: usize = p.unicode_len();
    let nq: usize = q.unicode_len();
    if nq > np {
        return false;
    }
    let mut i: usize = 0;
    while i < nq
        invariant
            i <= nq,
            nq == q@.len(),
            nq <= np,
            np == p@.len(),
            forall|j: int| 0 <= j < i ==> p@[j] == q@[j],
        decreases nq - i,
    {
        if p.get_char(i) != q.get_char(i) {
            proof {
                assert(p@.take(nq as int)[i as int] != q@[i as int]);
            }
            return false;
        }
        i = i + 1;
    }
    proof {
        assert(p@.take(nq as int) =~= q@ ==> p@.take(nq as int) == q@);
        assert(p@.take(nq as int) =~= q@);
    }
    if np == nq {
        true
    } else {
        p.get_char(nq) == '/'
    }
}

/// The path with every backslash replaced by a slash.
pub open spec fn slashify(s: Seq<char>) -> Seq<char> {
    s.map(
        |i: int, c: char|
            if c == '\\' {
                '/'
            } else {
                c
            },
    )
}

/// Replaces every backslash by a slash.
pub fn to_slashes(s: &str) -> (r: String)
    ensures
        r@ == slashify(s@),
        forall|i: int| 0 <= i < r@.len() ==> r@[i] != '\\',
{
    let n: usize = s.unicode_len();
    let mut v: Vec<char> = Vec::new();
    let mut i: usize = 0;
    while i < n
        invariant
            i <= n,
            n == s@.len(),
            v@ == slashify(s@).take(i as int),
        decreases n - i,
    {
        let c = s.get_char(i);
        if c == '\\' {
            v.push('/');
        } else {
            v.push(c);
        }
        proof {
            assert(v@ =~= slashify(s@).take(i + 1));
        }
        i = i + 1;
    }
    proof {
        assert(slashify(s@).take(n as int) =~= slashify(s@));
    }
    let r = string_from_chars(&v);
    proof {
        assert(forall|i: int| 0 <= i < r@.len() ==> r@[i] != '\\');
    }
    r
}

/// The path relative to the root, when the root lies above it; the path
/// itself otherwise.
pub open spec fn rel_of(path: Seq<char>, root: Seq<char>) -> Seq<char> {
    if is_path_prefix(path, root) {
        if path.len() == root.len() {
            Seq::empty()
        } else {
            path.subrange(root.len() as int + 1, path.len() as int)
        }
    } else {
        path
    }
}

/// The path relative to the root.
fn relative_to(path: &str, root: &str) -> (r: String)
    ensures
        r@ == rel_of(path@, root@),
{
    if path_starts_with(path, root) {
        let np: usize = path.unicode_len();
        let nr: usize = root.unicode_len();
        if np == nr {
            String::new()
        } else {
            let s = path.substring_char(nr + 1, np);
            s.to_owned()
        }
    } else {
        path.to_owned()
    }
}

/// Whether one of the valid patterns matches the candidate, against its
/// root-relative or absolute slash-normalised form.
pub open spec fn spec_excluded(path: Seq<char>, root: Seq<char>, pats: Seq<Seq<char>>) -> bool {
    exists|i: int|
        0 <= i < pats.len() && (glob_match_of(pats[i], slashify(rel_of(path, root)))
            || glob_match_of(pats[i], slashify(path)))
}

/// The slash-normalised forms of the given patterns.
pub open spec fn spec_slashified(pats: Seq<String>) -> Seq<Seq<char>> {
    pats.map(|i: int, p: String| slashify(p@))
}

/// The patterns that compile, in order.
pub open spec fn spec_valid_pats(pats: Seq<Seq<char>>) -> Seq<Seq<char>>
    decreases pats.len(),
{
    if pats.len() == 0 {
        Seq::empty()
    } else {
        let rest = spec_valid_pats(pats.drop_first());
        if glob_ok(pats.first()) {
            seq![pats.first()] + rest
        } else {
            rest
        }
    }
}

pub proof fn lemma_spec_valid_pats_push(pats: Seq<Seq<char>>, x: Seq<char>)
    ensures
        spec_valid_pats(pats.push(x)) == if glob_ok(x) {
            spec_valid_pats(pats).push(x)
        } else {
            spec_valid_pats(pats)
        },
    decreases pats.len(),
{
    if pats.len() == 0 {
        assert(pats.push(x).drop_first() =~= Seq::<Seq<char>>::empty());
        assert(pats.push(x).first() == x);
        assert(spec_valid_pats(Seq::<Seq<char>>::empty()) =~= Seq::<Seq<char>>::empty());
        assert(spec_valid_pats(pats) =~= Seq::<Seq<char>>::empty());
        if glob_ok(x) {
            assert(spec_valid_pats(pats.push(x)) =~= spec_valid_pats(pats).push(x));
        } else {
            assert(spec_valid_pats(pats.push(x)) =~= spec_valid_pats(pats));
        }
    } else {
        assert(pats.push(x).drop_first() =~= pats.drop_first().push(x));
        assert(pats.push(x).first() == pats.first());
        lemma_spec_valid_pats_push(pats.drop_first(), x);
        if glob_ok(x) {
            assert(spec_valid_pats(pats.push(x)) =~= spec_valid_pats(pats).push(x));
        } else {
            assert(spec_valid_pats(pats.push(x)) =~= spec_valid_pats(pats));
        }
    }
}

/// The candidates that no valid pattern excludes, in order.
pub open spec fn spec_kept(cands: Seq<String>, root: Seq<char>, pats: Seq<Seq<char>>) -> Seq<
    String,
>
    decreases cands.len(),
{
    if cands.len() == 0 {
        Seq::empty()
    } else {
        let rest = spec_kept(cands.drop_first(), root, pats);
        if !spec_excluded(cands.first()@, root, pats) {
            seq![cands.first()] + rest
        } else {
            rest
        }
    }
}

pub proof fn lemma_spec_kept_push(cands: Seq<String>, x: String, root: Seq<char>, pats: Seq<
    Seq<char>,
>)
    ensures
        spec_kept(cands.push(x), root, pats) == if !spec_excluded(x@, root, pats) {
            spec_kept(cands, root, pats).push(x)
        } else {
            spec_kept(cands, root, pats)
        },
    decreases cands.len(),
{
    if cands.len() == 0 {
        assert(cands.push(x).drop_first() =~= Seq::<String>::empty());
        assert(cands.push(x).first() == x);
        assert(spec_kept(Seq::<String>::empty(), root, pats) =~= Seq::<String>::empty());
        assert(spec_kept(cands, root, pats) =~= Seq::<String>::empty());
        if !spec_excluded(x@, root, pats) {
            assert(spec_kept(cands.push(x), root, pats) =~= spec_kept(cands, root, pats).push(x));
        } else {
            assert(spec_kept(cands.push(x), root, pats) =~= spec_kept(cands, root, pats));
        }
    } else {
        assert(cands.push(x).drop_first() =~= cands.drop_first().push(x));
        assert(cands.push(x).first() == cands.first());
        lemma_spec_kept_push(cands.drop_first(), x, root, pats);
        if !spec_excluded(x@, root, pats) {
            assert(spec_kept(cands.push(x), root, pats) =~= spec_kept(cands, root, pats).push(x));
        } else {
            assert(spec_kept(cands.push(x), root, pats) =~= spec_kept(cands, root, pats));
        }
    }
}

/// Whether one of the valid patterns matches the given slash-normalised
/// candidate forms.
fn matches_any(pats: &Vec<String>, rel: &str, abs: &str) -> (r: bool)
    requires
        forall|i: int| 0 <= i < pats@.len() ==> glob_ok(#[trigger] pats@[i]@),
        forall|i: int, j: int|
            0 <= i < pats@.len() && 0 <= j < pats@[i]@.len() ==> #[trigger] pats@[i]@[j]
                != '\\',
        forall|i: int| 0 <= i < rel@.len() ==> rel@[i] != '\\',
        forall|i: int| 0 <= i < abs@.len() ==> abs@[i] != '\\',
    ensures
        r == exists|i: int|
            0 <= i < pats@.len() && (glob_match_of(#[trigger] pats@[i]@, rel@) || glob_match_of(
                pats@[i]@,
                abs@,
            )),
{
    let n = pats.len();
    let mut i: usize = 0;
    while i < n
        invariant
            i <= n,
            n == pats@.len(),
            forall|k: int| 0 <= k < pats@.len() ==> glob_ok(#[trigger] pats@[k]@),
            forall|k: int, j: int|
                0 <= k < pats@.len() && 0 <= j < pats@[k]@.len() ==> #[trigger] pats@[k]@[j]
                    != '\\',
            forall|k: int| 0 <= k < rel@.len() ==> rel@[k] != '\\',
            forall|k: int| 0 <= k < abs@.len() ==> abs@[k] != '\\',
            forall|k: int|
                0 <= k < i ==> !(glob_match_of(#[trigger] pats@[k]@, rel@) || glob_match_of(
                    pats@[k]@,
                    abs@,
                )),
        decreases n - i,
    {
        let p: &String = &pats[i];
        let m1 = glob_match_path(p.as_str(), rel);
        let m2 = glob_match_path(p.as_str(), abs);
        let hit = match m1 {
            Some(b) => b,
            None => false,
        } || match m2 {
            Some(b) => b,
            None => false,
        };
        if hit {
            return true;
        }
        i = i + 1;
    }
    false
}

impl Pipeline {
    /// An empty pipeline.
    pub fn new() -> (p: Pipeline)
        ensures
            p.root@ == Seq::<char>::empty(),
            p.user_paths_canon@ == Seq::<String>::empty(),
            p.candidate_files@ == Seq::<String>::empty(),
            p.preselected_paths@ == Seq::<String>::empty(),
            p.file_data@ == Seq::<FileContents>::empty(),
            p.xml_output is None,
            p.chunks@ == Seq::<Chunk>::empty(),
            p.metas@ == Seq::<FileMeta>::empty(),
    {
        Pipeline {
            root: String::new(),
            user_paths_canon: Vec::new(),
            candidate_files: Vec::new(),
            preselected_paths: Vec::new(),
            file_data: Vec::new(),
            xml_output: None,
            chunks: Vec::new(),
            metas: Vec::new(),
        }
    }

    /// Records the expanded and canonicalised user paths and the root,
    /// as the caller resolved them.
    pub fn set_expanded_paths(&mut self, root: String, user_paths_canon: Vec<String>)
        ensures
            final(self).root == root,
            final(self).user_paths_canon == user_paths_canon,
            final(self).candidate_files == old(self).candidate_files,
            final(self).preselected_paths == old(self).preselected_paths,
            final(self).file_data == old(self).file_data,
            final(self).xml_output == old(self).xml_output,
            final(self).chunks == old(self).chunks,
            final(self).metas == old(self).metas,
    {
        self.root = root;
        self.user_paths_canon = user_paths_canon;
    }

    /// Replaces the candidate file list.
    pub fn set_candidate_files(&mut self, files: Vec<String>)
        ensures
            final(self).candidate_files == files,
            final(self).root == old(self).root,
            final(self).user_paths_canon == old(self).user_paths_canon,
            final(self).preselected_paths == old(self).preselected_paths,
            final(self).file_data == old(self).file_data,
            final(self).xml_output == old(self).xml_output,
            final(self).chunks == old(self).chunks,
            final(self).metas == old(self).metas,
    {
        self.candidate_files = files;
    }

    /// Records the file contents the caller read in.
    pub fn set_file_data(&mut self, files: Vec<FileContents>)
        ensures
            final(self).file_data == files,
            final(self).root == old(self).root,
            final(self).user_paths_canon == old(self).user_paths_canon,
            final(self).candidate_files == old(self).candidate_files,
            final(self).preselected_paths == old(self).preselected_paths,
            final(self).xml_output == old(self).xml_output,
            final(self).chunks == old(self).chunks,
            final(self).metas == old(self).metas,
    {
        self.file_data = files;
    }

    /// The candidate files.
    pub fn candidate_files(&self) -> (r: &Vec<String>)
        ensures
            r == &self.candidate_files,
    {
        &self.candidate_files
    }

    /// The candidates that lie under a user-given path.
    pub fn preselected_paths(&self) -> (r: &Vec<String>)
        ensures
            r == &self.preselected_paths,
    {
        &self.preselected_paths
    }

    /// The file contents read in.
    pub fn file_data(&self) -> (r: &Vec<FileContents>)
        ensures
            r == &self.file_data,
    {
        &self.file_data
    }

    /// The single-document output, once built.
    pub fn xml_output(&self) -> (r: Option<&String>)
        ensures
            r == match self.xml_output {
                Some(ref s) => Some(s),
                None => None::<&String>,
            },
    {
        self.xml_output.as_ref()
    }

    /// The chunks, once built.
    pub fn chunks(&self) -> (r: &Vec<Chunk>)
        ensures
            r == &self.chunks,
    {
        &self.chunks
    }

    /// The per-file metadata, once built.
    pub fn metas(&self) -> (r: &Vec<FileMeta>)
        ensures
            r == &self.metas,
    {
        &self.metas
    }

    /// Computes which candidates are preselected: those lying under a
    /// user-given path.
    #[verifier::loop_isolation(false)]
    pub fn compute_preselected(&mut self)
        ensures
            final(self).preselected_paths@ == spec_preselected_of(
                old(self).candidate_files@,
                old(self).user_paths_canon@,
            ),
            final(self).root == old(self).root,
            final(self).user_paths_canon == old(self).user_paths_canon,
            final(self).candidate_files == old(self).candidate_files,
            final(self).file_data == old(self).file_data,
            final(self).xml_output == old(self).xml_output,
            final(self).chunks == old(self).chunks,
            final(self).metas == old(self).metas,
    {
        let ghost cands = self.candidate_files@;
        let ghost ups = self.user_paths_canon@;
        let mut sel: Vec<String> = Vec::new();
        let n = self.candidate_files.len();
        let mut i: usize = 0;
        proof {
            assert(cands.take(0) =~= Seq::<String>::empty());
        }
        while i < n
            invariant
                i <= n,
                n == cands.len(),
                sel@ == spec_preselected_of(cands.take(i as int), ups),
            decreases n - i,
        {
            let cand: &String = &self.candidate_files[i];
            let m = self.user_paths_canon.len();
            let mut j: usize = 0;
            let mut hit = false;
            while j < m
                invariant
                    j <= m,
                    m == ups.len(),
                    hit == exists|k: int| 0 <= k < j && is_path_prefix(cand@, ups[k]@),
                decreases m - j,
            {
                let up: &String = &self.user_paths_canon[j];
                if !hit && path_starts_with(cand.as_str(), up.as_str()) {
                    hit = true;
                }
                j = j + 1;
            }
            if hit {
                sel.push(cand.clone());
            }
            proof {
                lemma_spec_preselected_of_push(cands.take(i as int), cands[i as int], ups);
                assert(cands.take(i as int).push(cands[i as int]) =~= cands.take(i + 1));
            }
            i = i + 1;
        }
        proof {
            assert(cands.take(n as int) =~= cands);
        }
        self.preselected_paths = sel;
    }

    /// Removes from the candidates every file that a valid exclusion
    /// pattern matches, against its root-relative or absolute form.
    /// Fails exactly when patterns were given and none of them compiles.
    #[verifier::loop_isolation(false)]
    pub fn apply_excludes(&mut self, exclude: &Vec<String>) -> (r: Result<
        (),
        InvalidExcludePatterns,
    >)
        ensures
            r is Err <==> (exclude@.len() > 0 && spec_valid_pats(spec_slashified(exclude@)).len()
                == 0),
            r is Err ==> *final(self) == *old(self),
            r matches Err(e) ==> e.patterns@.len() == exclude@.len() && (forall|k: int|
                0 <= k < exclude@.len() ==> (#[trigger] e.patterns@[k])@ == slashify(
                    exclude@[k]@,
                )),
            r is Ok && spec_valid_pats(spec_slashified(exclude@)).len() == 0 ==> *final(self)
                == *old(self),
            r is Ok && spec_valid_pats(spec_slashified(exclude@)).len() > 0 ==> final(
                self).candidate_files@ == spec_kept(
                old(self).candidate_files@,
                old(self).root@,
                spec_valid_pats(spec_slashified(exclude@)),
            ),
            final(self).root == old(self).root,
            final(self).user_paths_canon == old(self).user_paths_canon,
            final(self).preselected_paths == old(self).preselected_paths,
            final(self).file_data == old(self).file_data,
            final(self).xml_output == old(self).xml_output,
            final(self).chunks == old(self).chunks,
            final(self).metas == old(self).metas,
    {
        let ghost raw = spec_slashified(exclude@);
        let ghost vp = spec_valid_pats(raw);
        let n = exclude.len();
        let mut raw_patterns: Vec<String> = Vec::new();
        let mut valid_pats: Vec<String> = Vec::new();
        let mut i: usize = 0;
        proof {
            assert(raw.take(0) =~= Seq::<Seq<char>>::empty());
            assert(spec_valid_pats(raw.take(0)) =~= Seq::<Seq<char>>::empty());
        }
        while i < n
            invariant
                i <= n,
                n == exclude@.len(),
                raw_patterns@.len() == i,
                forall|k: int| 0 <= k < i ==> #[trigger] raw_patterns@[k]@ == raw[k],
                forall|k: int| 0 <= k < valid_pats@.len() ==> glob_ok(#[trigger] valid_pats@[k]@),
                forall|k: int, j: int|
                    0 <= k < valid_pats@.len() && 0 <= j < valid_pats@[k]@.len()
                        ==> #[trigger] valid_pats@[k]@[j] != '\\',
                spec_valid_pats(raw.take(i as int)).len() == valid_pats@.len(),
                forall|k: int|
                    0 <= k < valid_pats@.len() ==> #[trigger] valid_pats@[k]@ == spec_valid_pats(
                        raw.take(i as int),
                    )[k],
            decreases n - i,
        {
            let e: &String = &exclude[i];
            let p = to_slashes(e.as_str());
            proof {
                assert(raw[i as int] == slashify(exclude@[i as int]@));
            }
            let ghost prev_raw = raw_patterns@;
            let ghost prev_valid = valid_pats@;
            if glob_is_valid(p.as_str()) {
                valid_pats.push(p.clone());
            }
            raw_patterns.push(p);
            proof {
                lemma_spec_valid_pats_push(raw.take(i as int), raw[i as int]);
                assert(raw.take(i as int).push(raw[i as int]) =~= raw.take(i + 1));
            }
            i = i + 1;
        }
        proof {
            assert(raw.take(n as int) =~= raw);
        }
        if n > 0 && valid_pats.len() == 0 {
            proof {
                assert(forall|k: int| 0 <= k < n ==> #[trigger] raw[k] == slashify(
                    exclude@[k]@,
                ));
            }
            return Err(InvalidExcludePatterns { patterns: raw_patterns });
        }
        if valid_pats.len() == 0 {
            return Ok(());
        }
        proof {
            assert(forall|k: int| 0 <= k < vp.len() ==> #[trigger] vp[k] == valid_pats@[k]@) by {
                assert(forall|k: int|
                    0 <= k < vp.len() ==> #[trigger] valid_pats@[k]@ == spec_valid_pats(
                        raw.take(n as int),
                    )[k]);
            }
            assert(forall|k: int| 0 <= k < vp.len() ==> glob_ok(#[trigger] vp[k]));
        }
        let ghost cands = self.candidate_files@;
        let ghost root = self.root@;
        let mut kept: Vec<String> = Vec::new();
        let m = self.candidate_files.len();
        let mut j: usize = 0;
        proof {
            assert(cands.take(0) =~= Seq::<String>::empty());
            assert(spec_kept(cands.take(0), root, vp) =~= Seq::<String>::empty());
        }
        while j < m
            invariant
                j <= m,
                m == cands.len(),
                kept@ == spec_kept(cands.take(j as int), root, vp),
                valid_pats@.len() == vp.len(),
                forall|k: int| 0 <= k < vp.len() ==> #[trigger] vp[k] == valid_pats@[k]@,
                forall|k: int| 0 <= k < vp.len() ==> glob_ok(#[trigger] vp[k]),
                forall|k: int, j: int|
                    0 <= k < valid_pats@.len() && 0 <= j < valid_pats@[k]@.len()
                        ==> #[trigger] valid_pats@[k]@[j] != '\\',
            decreases m - j,
        {
            let cand: &String = &self.candidate_files[j];
            let rel = relative_to(cand.as_str(), self.root.as_str());
            let rel_slash = to_slashes(rel.as_str());
            let abs_slash = to_slashes(cand.as_str());
            let matched = matches_any(&valid_pats, rel_slash.as_str(), abs_slash.as_str());
            proof {
                assert(rel_slash@ == slashify(rel_of(cand@, root)));
                assert(abs_slash@ == slashify(cand@));
                assert(matched == spec_excluded(cand@, root, vp));
            }
            if !matched {
                kept.push(cand.clone());
            }
            proof {
                lemma_spec_kept_push(cands.take(j as int), cands[j as int], root, vp);
                assert(cands.take(j as int).push(cands[j as int]) =~= cands.take(j + 1));
            }
            j = j + 1;
        }
        proof {
            assert(cands.take(m as int) =~= cands);
        }
        self.candidate_files = kept;
        Ok(())
    }

    /// Builds the single-document output for non-chunked mode.
    pub fn build_xml(&mut self, escape_xml: bool, tok: &Tokenizer)
        ensures
            final(self).xml_output matches Some(x) && x@ == spec_build_xml(
                files_view(old(self).file_data@),
                escape_xml,
            ),
            final(self).root == old(self).root,
            final(self).user_paths_canon == old(self).user_paths_canon,
            final(self).candidate_files == old(self).candidate_files,
            final(self).preselected_paths == old(self).preselected_paths,
            final(self).file_data == old(self).file_data,
            final(self).chunks == old(self).chunks,
            final(self).metas == old(self).metas,
    {
        let xml = build_xml_with_escape(&self.file_data, escape_xml, tok);
        self.xml_output = Some(xml);
    }

    /// Builds chunked output with a manifest header.
    ///
    /// In multi-step mode the header alone is emitted.  Otherwise the
    /// files are packed at an effective budget, every chunk's on-wire
    /// snippet is measured, an oversize chunk of several blocks sheds
    /// its last block into a new chunk, an oversize single-block chunk
    /// shrinks the effective budget for a full repacking pass, and the
    /// whole dance is bounded; past either ceiling the last attempt is
    /// kept and the non-convergence warning raised, so the build never
    /// aborts.  The returned flags say which fidelity warnings the
    /// caller should raise.
    #[verifier::loop_isolation(false)]
    #[verifier::rlimit(100)]
    pub fn build_chunks_with_header(
        &mut self,
        chunk_limit: usize,
        escape_xml: bool,
        multi_step: bool,
        git: &GitStatus,
        generated_at: &str,
        tok: &Tokenizer,
    ) -> (r: ChunkWarnings)
        requires
            multi_step || chunk_limit >= 1,
            files_fit(files_view(old(self).file_data@)),
        ensures
            final(self).root == old(self).root,
            final(self).user_paths_canon == old(self).user_paths_canon,
            final(self).candidate_files == old(self).candidate_files,
            final(self).preselected_paths == old(self).preselected_paths,
            final(self).file_data == old(self).file_data,
            final(self).xml_output == old(self).xml_output,
            multi_step ==> ({
                let hm = whole_file_metas(files_view(old(self).file_data@), escape_xml);
                let hx = header_chunk_xml(1, chunk_limit as nat, hm, true, escape_xml, *git,
                    generated_at@);
                &&& r == (ChunkWarnings {
                    header_oversize: false,
                    oversize_chunks: false,
                    non_convergence: false,
                })
                &&& chunks_view(final(self).chunks@) == seq![
                    ChunkModel { index: 0, xml: hx, tokens: token_count_of(hx) },
                ]
                &&& metas_view(final(self).metas@) == hm
            }),
            !multi_step ==> ({
                let out = spec_converge(
                    files_view(old(self).file_data@),
                    chunk_limit as nat,
                    escape_xml,
                    *git,
                    generated_at@,
                );
                &&& chunks_view(final(self).chunks@) == final_chunks(out.bodies, out.metas,
                    chunk_limit as nat, escape_xml, *git, generated_at@)
                &&& metas_view(final(self).metas@) == out.metas
                &&& r == (ChunkWarnings {
                    header_oversize: header_flag(out.bodies, out.metas, chunk_limit as nat,
                        escape_xml, *git, generated_at@),
                    oversize_chunks: oversize_flag(out.bodies, out.metas, chunk_limit as nat,
                        escape_xml, *git, generated_at@),
                    non_convergence: out.non_convergence,
                })
            }),
    {
        let ghost fv = files_view(self.file_data@);
        if multi_step {
            let metas = build_file_meta(&self.file_data, escape_xml, tok);
            let hdr = make_header(1, chunk_limit, &metas, true, escape_xml, git, generated_at);
            let mut header_xml = String::new();
            header_xml.append("<shared-context>\n");
            header_xml.append(hdr.as_str());
            header_xml.append("\n");
            let header_tokens = tok.count(header_xml.as_str());
            let mut cs: Vec<Chunk> = Vec::new();
            cs.push(Chunk { index: 0, xml: header_xml, tokens: header_tokens });
            proof {
                let hm = whole_file_metas(fv, escape_xml);
                let hx = header_chunk_xml(1, chunk_limit as nat, hm, true, escape_xml, *git,
                    generated_at@);
                assert(chunks_view(cs@) =~~= seq![
                    ChunkModel { index: 0, xml: hx, tokens: token_count_of(hx) },
                ]);
            }
            self.chunks = cs;
            self.metas = metas;
            return ChunkWarnings {
                header_oversize: false,
                oversize_chunks: false,
                non_convergence: false,
            };
        }
        let mut eff: usize = chunk_limit;
        let mut attempt: usize = 0;
        loop
            invariant
                chunk_limit >= 1,
                eff >= 1,
                attempt <= 7,
                self.root == old(self).root,
                self.user_paths_canon == old(self).user_paths_canon,
                self.candidate_files == old(self).candidate_files,
                self.preselected_paths == old(self).preselected_paths,
                self.file_data == old(self).file_data,
                self.xml_output == old(self).xml_output,
                self.chunks == old(self).chunks,
                self.metas == old(self).metas,
                fv == files_view(self.file_data@),
                spec_converge(fv, chunk_limit as nat, escape_xml, *git, generated_at@)
                    == outer_rec(fv, chunk_limit as nat, escape_xml, *git, generated_at@,
                    eff as nat, attempt as nat),
            decreases 8 - attempt,
        {
            let (bodies, metas) = build_chunk_bodies(&self.file_data, eff, escape_xml, tok);
            let max_blocks = total_blocks_exec(&bodies);
            let can_shrink = attempt < 7;
            match converge_once(bodies, &metas, chunk_limit, eff, escape_xml, git, generated_at,
                max_blocks, can_shrink, tok) {
                AttemptOutcome::Shrunk(l) => {
                    proof {
                        if attempt >= 7 {
                            lemma_inner_no_shrink(
                                packed_bodies(fv, eff as nat, escape_xml),
                                packed_metas(fv, eff as nat, escape_xml),
                                chunk_limit as nat,
                                eff as nat,
                                escape_xml,
                                *git,
                                generated_at@,
                                0,
                                total_blocks_from(
                                    packed_bodies(fv, eff as nat, escape_xml),
                                    0,
                                    0,
                                ),
                            );
                        }
                    }
                    attempt = attempt + 1;
                    eff = l;
                },
                AttemptOutcome::Done(fin, h, o, nc) => {
                    self.chunks = fin;
                    self.metas = metas;
                    return ChunkWarnings {
                        header_oversize: h,
                        oversize_chunks: o,
                        non_convergence: nc,
                    };
                },
            }
        }
    }
}

/// Warnings the caller should raise after a chunk build: an oversize
/// header, oversize single-block chunks, and a convergence loop that
/// hit its ceiling and kept its last attempt.
#[derive(Debug, Clone, Copy, PartialEq, Eq, Structural)]
pub struct ChunkWarnings {
    pub header_oversize: bool,
    pub oversize_chunks: bool,
    pub non_convergence: bool,
}

/// The chunk holding the manifest header.
pub open spec fn header_chunk_xml(
    total_chunks: nat,
    limit: nat,
    metas: Seq<MetaModel>,
    multi_step: bool,
    esc: bool,
    git: GitStatus,
    ts: Seq<char>,
) -> Seq<char> {
    "<shared-context>\n"@ + header_of(total_chunks, limit, metas, multi_step, esc, git, ts)
        + "\n"@
}

/// Subtraction floored at zero, mirroring saturating subtraction.
pub open spec fn sat_sub(a: nat, b: nat) -> nat {
    if a > b {
        (a - b) as nat
    } else {
        0
    }
}

/// The chunk list of one convergence pass: the header chunk, then one
/// chunk per body.  Token counts are the packer's sums; the snippets are
/// measured separately.
pub open spec fn pass_chunks(
    bodies: Seq<BodyModel>,
    metas: Seq<MetaModel>,
    cfg: nat,
    esc: bool,
    git: GitStatus,
    ts: Seq<char>,
) -> Seq<ChunkModel> {
    Seq::new(
        bodies.len() + 1,
        |i: int|
            if i == 0 {
                ChunkModel {
                    index: 0,
                    xml: header_chunk_xml(sat_add(bodies.len(), 1), cfg, metas, false, esc, git,
                        ts),
                    tokens: 0,
                }
            } else {
                ChunkModel {
                    index: i as nat,
                    xml: concat_all(blocks_xml(bodies[i - 1].blocks)),
                    tokens: bodies[i - 1].tokens,
                }
            },
    )
}

/// The measured token count of the snippet at `i`.
pub open spec fn snip_tok(chunks: Seq<ChunkModel>, i: int) -> nat {
    token_count_of(snippet_of(chunks, i))
}

/// Whether the chunk at `i` is over budget and can shed a block.
pub open spec fn splittable_at(
    chunks: Seq<ChunkModel>,
    bodies: Seq<BodyModel>,
    cfg: nat,
    i: int,
) -> bool {
    1 <= i < chunks.len() && snip_tok(chunks, i) > cfg && bodies[i - 1].blocks.len() > 1
}

/// Whether the chunk at `i` is over budget but holds a single block.
pub open spec fn oversize_single_at(
    chunks: Seq<ChunkModel>,
    bodies: Seq<BodyModel>,
    cfg: nat,
    i: int,
) -> bool {
    1 <= i < chunks.len() && snip_tok(chunks, i) > cfg && bodies[i - 1].blocks.len() == 1
}

/// The first splittable chunk at or after `i`, as a body index.
pub open spec fn first_splittable_from(
    chunks: Seq<ChunkModel>,
    bodies: Seq<BodyModel>,
    cfg: nat,
    i: int,
) -> Option<int>
    decreases chunks.len() - i,
{
    if i < 0 || i >= chunks.len() {
        None
    } else if splittable_at(chunks, bodies, cfg, i) {
        Some(i - 1)
    } else {
        first_splittable_from(chunks, bodies, cfg, i + 1)
    }
}

pub proof fn lemma_first_splittable_bounds(
    chunks: Seq<ChunkModel>,
    bodies: Seq<BodyModel>,
    cfg: nat,
    i: int,
)
    requires
        0 <= i,
        first_splittable_from(chunks, bodies, cfg, i) is Some,
    ensures
        ({
            let b = first_splittable_from(chunks, bodies, cfg, i).unwrap();
            &&& 0 <= b
            &&& b + 1 < chunks.len()
            &&& splittable_at(chunks, bodies, cfg, b + 1)
        }),
    decreases chunks.len() - i,
{
    if i < chunks.len() && !splittable_at(chunks, bodies, cfg, i) {
        lemma_first_splittable_bounds(chunks, bodies, cfg, i + 1);
    }
}

/// Folds the shrunken budget a single-block oversize chunk at `i` asks
/// for into the running minimum.
pub open spec fn req_update(
    chunks: Seq<ChunkModel>,
    bodies: Seq<BodyModel>,
    cfg: nat,
    i: int,
    acc: Option<nat>,
) -> Option<nat> {
    if oversize_single_at(chunks, bodies, cfg, i) {
        let ov = sat_sub(snip_tok(chunks, i), bodies[i - 1].blocks[0].tokens);
        let l = sat_sub(cfg, ov);
        match acc {
            None => Some(l),
            Some(p) => Some(
                if p < l {
                    p
                } else {
                    l
                },
            ),
        }
    } else {
        acc
    }
}

/// The smallest budget any single-block oversize chunk below `i` asks
/// for.
pub open spec fn req_upto(chunks: Seq<ChunkModel>, bodies: Seq<BodyModel>, cfg: nat, i: int) -> Option<
    nat,
>
    decreases i,
{
    if i <= 0 {
        None
    } else {
        req_update(chunks, bodies, cfg, i - 1, req_upto(chunks, bodies, cfg, i - 1))
    }
}

/// Whether any chunk below `i` is a single-block chunk over budget.
pub open spec fn any_oversize_upto(
    chunks: Seq<ChunkModel>,
    bodies: Seq<BodyModel>,
    cfg: nat,
    i: int,
) -> bool
    decreases i,
{
    if i <= 0 {
        false
    } else {
        any_oversize_upto(chunks, bodies, cfg, i - 1) || oversize_single_at(chunks, bodies, cfg, i
            - 1)
    }
}

/// What one pass over the current bodies decides.
pub enum PassDecision {
    Split(int),
    Shrink(nat),
    Done(bool, bool),
}

/// Scans the snippets of one pass: the first over-budget multi-block
/// chunk is split; else the budget shrinks if a single-block chunk asks
/// for less than the effective budget; else the pass stands, with the
/// header-oversize and chunk-oversize warning flags.
pub open spec fn pass_decision(
    bodies: Seq<BodyModel>,
    metas: Seq<MetaModel>,
    cfg: nat,
    eff: nat,
    esc: bool,
    git: GitStatus,
    ts: Seq<char>,
) -> PassDecision {
    let chunks = pass_chunks(bodies, metas, cfg, esc, git, ts);
    match first_splittable_from(chunks, bodies, cfg, 0) {
        Some(b) => PassDecision::Split(b),
        None => {
            let req = req_upto(chunks, bodies, cfg, chunks.len() as int);
            let done = PassDecision::Done(
                snip_tok(chunks, 0) > cfg,
                any_oversize_upto(chunks, bodies, cfg, chunks.len() as int),
            );
            match req {
                Some(l) => if l > 0 && l < eff {
                    PassDecision::Shrink(l)
                } else {
                    done
                },
                None => done,
            }
        },
    }
}

/// Detaches the last block of body `b` into a body of its own.
pub open spec fn do_split(bodies: Seq<BodyModel>, b: int) -> Seq<BodyModel> {
    let blocks = bodies[b].blocks;
    let last = blocks.last();
    bodies.update(
        b,
        BodyModel { blocks: blocks.drop_last(), tokens: sat_sub(bodies[b].tokens, last.tokens) },
    ).insert(b + 1, BodyModel { blocks: seq![last], tokens: last.tokens })
}

/// The total block count from body `i` on, saturating.
pub open spec fn total_blocks_from(bodies: Seq<BodyModel>, i: int, acc: nat) -> nat
    decreases bodies.len() - i,
{
    if i < 0 || i >= bodies.len() {
        acc
    } else {
        total_blocks_from(bodies, i + 1, sat_add(acc, bodies[i].blocks.len()))
    }
}

/// How one attempt at a fixed effective budget ends.
/// The header-oversize warning of one pass: whether the header chunk's
/// delivered snippet exceeds the configured limit.
pub open spec fn header_flag(
    bodies: Seq<BodyModel>,
    metas: Seq<MetaModel>,
    cfg: nat,
    esc: bool,
    git: GitStatus,
    ts: Seq<char>,
) -> bool {
    snip_tok(pass_chunks(bodies, metas, cfg, esc, git, ts), 0) > cfg
}

/// The oversize-chunk warning of one pass: whether some single-block
/// chunk's delivered snippet exceeds the configured limit.
pub open spec fn oversize_flag(
    bodies: Seq<BodyModel>,
    metas: Seq<MetaModel>,
    cfg: nat,
    esc: bool,
    git: GitStatus,
    ts: Seq<char>,
) -> bool {
    let cs = pass_chunks(bodies, metas, cfg, esc, git, ts);
    any_oversize_upto(cs, bodies, cfg, cs.len() as int)
}

/// How one attempt at a fixed effective budget ends: the bodies it
/// settles on, with the non-convergence flag, or a request to shrink.
pub enum InnerOutcome {
    Settled(Seq<BodyModel>, bool),
    Shrunk(nat),
}

/// Runs passes at a fixed effective budget: every split is one step.
/// More splits than there were blocks at the start, or a shrink request
/// when no attempts remain, settle on the current bodies with the
/// non-convergence flag raised — degrading gracefully rather than
/// aborting.
pub open spec fn inner_rec(
    bodies: Seq<BodyModel>,
    metas: Seq<MetaModel>,
    cfg: nat,
    eff: nat,
    esc: bool,
    git: GitStatus,
    ts: Seq<char>,
    splits: nat,
    max_blocks: nat,
    can_shrink: bool,
) -> InnerOutcome
    decreases max_blocks - splits,
        when splits <= max_blocks
{
    match pass_decision(bodies, metas, cfg, eff, esc, git, ts) {
        PassDecision::Split(b) => {
            if splits + 1 > max_blocks {
                InnerOutcome::Settled(bodies, true)
            } else {
                inner_rec(do_split(bodies, b), metas, cfg, eff, esc, git, ts, splits + 1,
                    max_blocks, can_shrink)
            }
        },
        PassDecision::Shrink(l) => {
            if can_shrink {
                InnerOutcome::Shrunk(l)
            } else {
                InnerOutcome::Settled(bodies, true)
            }
        },
        PassDecision::Done(h, o) => InnerOutcome::Settled(bodies, false),
    }
}

/// What the convergence loop settles on: the final bodies and per-file
/// metadata, the effective budget of the attempt that settled, and
/// whether a ceiling was hit on the way.
#[verifier::ext_equal]
pub struct ConvergedModel {
    pub bodies: Seq<BodyModel>,
    pub metas: Seq<MetaModel>,
    pub eff: nat,
    pub non_convergence: bool,
}

/// Repacks at ever smaller effective budgets, up to eight attempts; the
/// eighth may no longer shrink and settles on its last packing.
pub open spec fn outer_rec(
    files: Seq<FileModel>,
    cfg: nat,
    esc: bool,
    git: GitStatus,
    ts: Seq<char>,
    eff: nat,
    attempt: nat,
) -> ConvergedModel
    decreases 8 - attempt,
        when attempt <= 7
{
    let bodies = packed_bodies(files, eff, esc);
    let metas = packed_metas(files, eff, esc);
    let mb = total_blocks_from(bodies, 0, 0);
    match inner_rec(bodies, metas, cfg, eff, esc, git, ts, 0, mb, attempt < 7) {
        InnerOutcome::Settled(bs, nc) => ConvergedModel {
            bodies: bs,
            metas,
            eff,
            non_convergence: nc,
        },
        InnerOutcome::Shrunk(l) => {
            if attempt < 7 {
                outer_rec(files, cfg, esc, git, ts, l, attempt + 1)
            } else {
                ConvergedModel { bodies, metas, eff, non_convergence: true }
            }
        },
    }
}

/// What the convergence loop produces for the given files, budget and
/// header inputs.
pub open spec fn spec_converge(
    files: Seq<FileModel>,
    cfg: nat,
    esc: bool,
    git: GitStatus,
    ts: Seq<char>,
) -> ConvergedModel {
    outer_rec(files, cfg, esc, git, ts, cfg, 0)
}

/// A shrink request can only come out of an attempt that may shrink.
pub proof fn lemma_inner_no_shrink(
    bodies: Seq<BodyModel>,
    metas: Seq<MetaModel>,
    cfg: nat,
    eff: nat,
    esc: bool,
    git: GitStatus,
    ts: Seq<char>,
    splits: nat,
    max_blocks: nat,
)
    requires
        splits <= max_blocks,
    ensures
        !(inner_rec(bodies, metas, cfg, eff, esc, git, ts, splits, max_blocks, false)
            is Shrunk),
    decreases max_blocks - splits,
{
    match pass_decision(bodies, metas, cfg, eff, esc, git, ts) {
        PassDecision::Split(b) => {
            if splits + 1 <= max_blocks {
                lemma_inner_no_shrink(do_split(bodies, b), metas, cfg, eff, esc, git, ts, splits
                    + 1, max_blocks);
            }
        },
        PassDecision::Shrink(_) => {},
        PassDecision::Done(_, _) => {},
    }
}

/// The delivered chunks of a converged pass: the pass's chunk texts,
/// each carrying its measured snippet token count.
pub open spec fn final_chunks(
    bodies: Seq<BodyModel>,
    metas: Seq<MetaModel>,
    cfg: nat,
    esc: bool,
    git: GitStatus,
    ts: Seq<char>,
) -> Seq<ChunkModel> {
    let cs = pass_chunks(bodies, metas, cfg, esc, git, ts);
    Seq::new(
        cs.len(),
        |i: int| ChunkModel { index: i as nat, xml: cs[i].xml, tokens: snip_tok(cs, i) },
    )
}

/// The total block count of the given bodies.
fn total_blocks_exec(bodies: &Vec<ChunkBody>) -> (r: usize)
    ensures
        r as nat == total_blocks_from(bodies_view(bodies@), 0, 0),
{
    let ghost bv = bodies_view(bodies@);
    let n = bodies.len();
    let mut acc: usize = 0;
    let mut i: usize = 0;
    while i < n
        invariant
            i <= n,
            n == bodies@.len(),
            bv == bodies_view(bodies@),
            total_blocks_from(bv, 0, 0) == total_blocks_from(bv, i as int, acc as nat),
        decreases n - i,
    {
        let b: &ChunkBody = &bodies[i];
        proof {
            assert(bv[i as int] == bodies@[i as int]@);
        }
        acc = acc.saturating_add(b.blocks.len());
        i = i + 1;
    }
    acc
}

/// Builds the chunk list of one pass: the header chunk, then the bodies.
#[verifier::loop_isolation(false)]
fn build_pass_chunks(
    bodies: &Vec<ChunkBody>,
    metas: &Vec<FileMeta>,
    chunk_limit: usize,
    escape_xml: bool,
    git: &GitStatus,
    generated_at: &str,
) -> (cs: Vec<Chunk>)
    ensures
        chunks_view(cs@) == pass_chunks(
            bodies_view(bodies@),
            metas_view(metas@),
            chunk_limit as nat,
            escape_xml,
            *git,
            generated_at@,
        ),
        cs@.len() == bodies@.len() + 1,
{
    let ghost bv = bodies_view(bodies@);
    let ghost pc = pass_chunks(bv, metas_view(metas@), chunk_limit as nat, escape_xml, *git,
        generated_at@);
    let total_chunks = bodies.len().saturating_add(1);
    let hdr = make_header(total_chunks, chunk_limit, metas, false, escape_xml, git, generated_at);
    let mut header_xml = String::new();
    header_xml.append("<shared-context>\n");
    header_xml.append(hdr.as_str());
    header_xml.append("\n");
    let mut cs: Vec<Chunk> = Vec::new();
    cs.push(Chunk { index: 0, xml: header_xml, tokens: 0 });
    proof {
        assert(chunks_view(cs@) =~~= pc.take(1));
    }
    let n = bodies.len();
    let mut i: usize = 0;
    while i < n
        invariant
            i <= n,
            cs@.len() == i + 1,
            chunks_view(cs@) == pc.take(i + 1),
        decreases n - i,
    {
        let c = body_to_chunk(&bodies[i], i + 1);
        cs.push(c);
        i = i + 1;
        proof {
            assert(bodies@[i - 1]@ == bv[i - 1]);
            assert(chunks_view(cs@) =~~= pc.take(i + 1));
        }
    }
    proof {
        assert(pc.take(n + 1) =~~= pc);
    }
    cs
}

/// What the scan of one pass found.
enum ScanOutcome {
    FoundSplit(usize),
    NeedShrink(usize),
    Finished(bool, bool, Vec<usize>),
}

/// The view of an optional shrunken budget.
pub open spec fn opt_nat_view(o: Option<usize>) -> Option<nat> {
    match o {
        Some(l) => Some(l as nat),
        None => None,
    }
}

/// Measures every snippet of the pass and finds the first splittable
/// over-budget chunk, the smallest budget a single-block chunk asks for,
/// and the warning flags.
#[verifier::loop_isolation(false)]
#[verifier::rlimit(60)]
fn scan_chunks(
    chunks: &Vec<Chunk>,
    bodies: &Vec<ChunkBody>,
    chunk_limit: usize,
    eff: usize,
    tok: &Tokenizer,
) -> (r: ScanOutcome)
    requires
        chunk_limit >= 1,
        chunks@.len() == bodies@.len() + 1,
    ensures
        ({
            let cv = chunks_view(chunks@);
            let bv = bodies_view(bodies@);
            let cfg = chunk_limit as nat;
            match r {
                ScanOutcome::FoundSplit(b) => first_splittable_from(cv, bv, cfg, 0) == Some(
                    b as int,
                ),
                ScanOutcome::NeedShrink(l) => {
                    &&& first_splittable_from(cv, bv, cfg, 0) is None
                    &&& req_upto(cv, bv, cfg, cv.len() as int) == Some(l as nat)
                    &&& l > 0
                    &&& (l as nat) < eff as nat
                },
                ScanOutcome::Finished(h, o, toks) => {
                    &&& first_splittable_from(cv, bv, cfg, 0) is None
                    &&& !(match req_upto(cv, bv, cfg, cv.len() as int) {
                        Some(l) => l > 0 && l < eff as nat,
                        None => false,
                    })
                    &&& h == (snip_tok(cv, 0) > cfg)
                    &&& o == any_oversize_upto(cv, bv, cfg, cv.len() as int)
                    &&& toks@.len() == cv.len()
                    &&& (forall|k: int| 0 <= k < cv.len() ==> toks@[k] as nat == snip_tok(cv, k))
                },
            }
        }),
{
    let ghost cv = chunks_view(chunks@);
    let ghost bv = bodies_view(bodies@);
    let ghost cfg = chunk_limit as nat;
    let total = chunks.len();
    let mut toks: Vec<usize> = Vec::new();
    let mut header_over = false;
    let mut any_over = false;
    let mut req: Option<usize> = None;
    let mut idx: usize = 0;
    while idx < total
        invariant
            idx <= total,
            total == cv.len(),
            toks@.len() == idx,
            forall|k: int| 0 <= k < idx ==> toks@[k] as nat == snip_tok(cv, k),
            first_splittable_from(cv, bv, cfg, 0) == first_splittable_from(cv, bv, cfg, idx as int),
            header_over == (idx > 0 && snip_tok(cv, 0) > cfg),
            any_over == any_oversize_upto(cv, bv, cfg, idx as int),
            opt_nat_view(req) == req_upto(cv, bv, cfg, idx as int),
        decreases total - idx,
    {
        let snippet = format_chunk_snippet(chunks, idx);
        let t = tok.count(snippet.as_str());
        toks.push(t);
        proof {
            assert(t as nat == snip_tok(cv, idx as int));
        }
        if t > chunk_limit {
            if idx == 0 {
                header_over = true;
            } else {
                let body: &ChunkBody = &bodies[idx - 1];
                proof {
                    assert(bv[idx - 1] == bodies@[idx - 1]@);
                }
                if body.blocks.len() > 1 {
                    proof {
                        assert(splittable_at(cv, bv, cfg, idx as int));
                    }
                    return ScanOutcome::FoundSplit(idx - 1);
                } else if body.blocks.len() == 1 {
                    any_over = true;
                    let block: &Block = &body.blocks[0];
                    let overhead = t.saturating_sub(block.tokens);
                    let l = chunk_limit.saturating_sub(overhead);
                    proof {
                        assert(block@ == bv[idx - 1].blocks[0]);
                    }
                    req = match req {
                        Some(p) => if p < l {
                            Some(p)
                        } else {
                            Some(l)
                        },
                        None => Some(l),
                    };
                }
            }
        }
        idx = idx + 1;
    }
    let req_small = match req {
        Some(l) => l > 0 && l < eff,
        None => false,
    };
    if req_small {
        let l = match req {
            Some(l) => l,
            None => 0,
        };
        ScanOutcome::NeedShrink(l)
    } else {
        ScanOutcome::Finished(header_over, any_over, toks)
    }
}

/// Detaches the last block of body `b` into a new body right after it.
fn apply_split(bodies: &mut Vec<ChunkBody>, b: usize)
    requires
        b < old(bodies)@.len(),
        old(bodies)@[b as int]@.blocks.len() > 1,
    ensures
        bodies_view(final(bodies)@) == do_split(bodies_view(old(bodies)@), b as int),
        final(bodies)@.len() == old(bodies)@.len() + 1,
{
    let ghost bv0 = bodies_view(old(bodies)@);
    let n0 = bodies.len();
    let mut body = bodies.remove(b);
    let last = body.blocks.pop().unwrap();
    let ghost last_m = last@;
    body.tokens = body.tokens.saturating_sub(last.tokens);
    let last_tokens = last.tokens;
    bodies.insert(b, body);
    let mut nb_blocks: Vec<Block> = Vec::new();
    nb_blocks.push(last);
    bodies.insert(b + 1, ChunkBody { blocks: nb_blocks, tokens: last_tokens });
    proof {
        assert(blocks_view(nb_blocks@) =~~= seq![last_m]);
        assert(bodies_view(bodies@) =~~= do_split(bv0, b as int));
    }
}

/// How one attempt at a fixed effective budget ended: settled chunks
/// with the warning flags (header oversize, oversize chunks,
/// non-convergence), or a request to shrink the budget.
enum AttemptOutcome {
    Shrunk(usize),
    Done(Vec<Chunk>, bool, bool, bool),
}

/// Measures every snippet of the pass and emits the delivered chunks —
/// the pass's texts with their measured snippet token counts — together
/// with the header-oversize and oversize-single-block flags.
#[verifier::loop_isolation(false)]
#[verifier::rlimit(60)]
fn finalize_pass(
    chunks: &Vec<Chunk>,
    bodies: &Vec<ChunkBody>,
    chunk_limit: usize,
    tok: &Tokenizer,
) -> (r: (Vec<Chunk>, bool, bool))
    requires
        chunk_limit >= 1,
        chunks@.len() == bodies@.len() + 1,
    ensures
        ({
            let cv = chunks_view(chunks@);
            let bv = bodies_view(bodies@);
            let cfg = chunk_limit as nat;
            &&& chunks_view(r.0@) == Seq::new(
                cv.len(),
                |i: int| ChunkModel { index: i as nat, xml: cv[i].xml, tokens: snip_tok(cv, i) },
            )
            &&& r.1 == (snip_tok(cv, 0) > cfg)
            &&& r.2 == any_oversize_upto(cv, bv, cfg, cv.len() as int)
        }),
{
    let ghost cv = chunks_view(chunks@);
    let ghost bv = bodies_view(bodies@);
    let ghost cfg = chunk_limit as nat;
    let ghost fc = Seq::new(
        cv.len(),
        |i: int| ChunkModel { index: i as nat, xml: cv[i].xml, tokens: snip_tok(cv, i) },
    );
    let total = chunks.len();
    let mut fin: Vec<Chunk> = Vec::new();
    let mut header_over = false;
    let mut any_over = false;
    let mut idx: usize = 0;
    while idx < total
        invariant
            idx <= total,
            total == cv.len(),
            fin@.len() == idx,
            chunks_view(fin@) == fc.take(idx as int),
            header_over == (idx > 0 && snip_tok(cv, 0) > cfg),
            any_over == any_oversize_upto(cv, bv, cfg, idx as int),
        decreases total - idx,
    {
        let snippet = format_chunk_snippet(chunks, idx);
        let t = tok.count(snippet.as_str());
        proof {
            assert(t as nat == snip_tok(cv, idx as int));
        }
        if t > chunk_limit {
            if idx == 0 {
                header_over = true;
            } else {
                let body: &ChunkBody = &bodies[idx - 1];
                proof {
                    assert(bv[idx - 1] == bodies@[idx - 1]@);
                }
                if body.blocks.len() == 1 {
                    any_over = true;
                }
            }
        }
        let c: &Chunk = &chunks[idx];
        fin.push(Chunk { index: idx, xml: c.xml.clone(), tokens: t });
        idx = idx + 1;
        proof {
            assert(chunks_view(chunks@)[idx - 1] == chunks@[idx - 1]@);
            assert(chunks_view(fin@) =~~= fc.take(idx as int));
        }
    }
    proof {
        assert(fc.take(total as int) =~~= fc);
    }
    (fin, header_over, any_over)
}

/// Runs passes at a fixed effective budget until the pass stands, the
/// budget must shrink, or a ceiling is hit — in which case the current
/// pass is emitted with the non-convergence flag.
#[verifier::loop_isolation(false)]
#[verifier::rlimit(60)]
fn converge_once(
    bodies: Vec<ChunkBody>,
    metas: &Vec<FileMeta>,
    chunk_limit: usize,
    eff: usize,
    escape_xml: bool,
    git: &GitStatus,
    generated_at: &str,
    max_blocks: usize,
    can_shrink: bool,
    tok: &Tokenizer,
) -> (r: AttemptOutcome)
    requires
        chunk_limit >= 1,
    ensures
        ({
            let mv = metas_view(metas@);
            let cfg = chunk_limit as nat;
            let outcome = inner_rec(
                bodies_view(bodies@),
                mv,
                cfg,
                eff as nat,
                escape_xml,
                *git,
                generated_at@,
                0,
                max_blocks as nat,
                can_shrink,
            );
            match r {
                AttemptOutcome::Shrunk(l) => outcome == InnerOutcome::Shrunk(l as nat) && l >= 1,
                AttemptOutcome::Done(fin, h, o, nc) => {
                    &&& (outcome matches InnerOutcome::Settled(bs, nc0) ==> chunks_view(fin@)
                        == final_chunks(bs, mv, cfg, escape_xml, *git, generated_at@) && h
                        == header_flag(bs, mv, cfg, escape_xml, *git, generated_at@) && o
                        == oversize_flag(bs, mv, cfg, escape_xml, *git, generated_at@) && nc
                        == nc0)
                    &&& outcome is Settled
                },
            }
        }),
{
    let ghost mv = metas_view(metas@);
    let ghost cfg = chunk_limit as nat;
    let ghost outcome = inner_rec(bodies_view(bodies@), mv, cfg, eff as nat, escape_xml, *git,
        generated_at@, 0, max_blocks as nat, can_shrink);
    let mut bodies = bodies;
    let mut splits: usize = 0;
    loop
        invariant
            splits <= max_blocks,
            inner_rec(bodies_view(bodies@), mv, cfg, eff as nat, escape_xml, *git, generated_at@,
                splits as nat, max_blocks as nat, can_shrink) == outcome,
        decreases max_blocks - splits,
    {
        let ghost bv = bodies_view(bodies@);
        let ghost pc = pass_chunks(bv, mv, cfg, escape_xml, *git, generated_at@);
        let chunks = build_pass_chunks(&bodies, metas, chunk_limit, escape_xml, git, generated_at);
        match scan_chunks(&chunks, &bodies, chunk_limit, eff, tok) {
            ScanOutcome::FoundSplit(b) => {
                proof {
                    lemma_first_splittable_bounds(pc, bv, cfg, 0);
                    assert(pass_decision(bv, mv, cfg, eff as nat, escape_xml, *git, generated_at@)
                        == PassDecision::Split(b as int));
                    assert(0 <= b as int && (b as int) + 1 < pc.len());
                    assert(bodies@[b as int]@.blocks.len() > 1);
                }
                if splits >= max_blocks {
                    let (fin, h, o) = finalize_pass(&chunks, &bodies, chunk_limit, tok);
                    proof {
                        assert(outcome == InnerOutcome::Settled(bv, true));
                        assert(chunks_view(fin@) =~~= final_chunks(bv, mv, cfg, escape_xml, *git,
                            generated_at@));
                    }
                    return AttemptOutcome::Done(fin, h, o, true);
                }
                splits = splits + 1;
                apply_split(&mut bodies, b);
            },
            ScanOutcome::NeedShrink(l) => {
                proof {
                    assert(pass_decision(bv, mv, cfg, eff as nat, escape_xml, *git, generated_at@)
                        == PassDecision::Shrink(l as nat));
                }
                if can_shrink {
                    return AttemptOutcome::Shrunk(l);
                }
                let (fin, h, o) = finalize_pass(&chunks, &bodies, chunk_limit, tok);
                proof {
                    assert(outcome == InnerOutcome::Settled(bv, true));
                    assert(chunks_view(fin@) =~~= final_chunks(bv, mv, cfg, escape_xml, *git,
                        generated_at@));
                }
                return AttemptOutcome::Done(fin, h, o, true);
            },
            ScanOutcome::Finished(h, o, toks) => {
                proof {
                    assert(pass_decision(bv, mv, cfg, eff as nat, escape_xml, *git, generated_at@)
                        == PassDecision::Done(h, o));
                    assert(outcome == InnerOutcome::Settled(bv, false));
                }
                let n = chunks.len();
                let mut fin: Vec<Chunk> = Vec::new();
                let mut i: usize = 0;
                let ghost fc = final_chunks(bv, mv, cfg, escape_xml, *git, generated_at@);
                while i < n
                    invariant
                        i <= n,
                        fin@.len() == i,
                        chunks_view(fin@) == fc.take(i as int),
                    decreases n - i,
                {
                    let c: &Chunk = &chunks[i];
                    let t = toks[i];
                    fin.push(Chunk { index: i, xml: c.xml.clone(), tokens: t });
                    i = i + 1;
                    proof {
                        assert(chunks_view(chunks@)[i - 1] == chunks@[i - 1]@);
                        assert(chunks_view(fin@) =~~= fc.take(i as int));
                    }
                }
                proof {
                    assert(fc.take(n as int) =~~= fc);
                }
                return AttemptOutcome::Done(fin, h, o, false);
            },
        }
    }
}

} // verus!
