//! Token-bounded chunk packing.
//!
//! Every packing decision is mirrored by a spec function over
//! `token_count_of`, so the exact output of the packer is pinned down as
//! a function of its inputs.

use vstd::prelude::*;
use vstd::string::*;
use crate::strutil::{concat_all, dec_string, spec_dec, string_from_chars, append_str};
use crate::tokenizer::{token_count_of, Tokenizer};
use crate::types::{FileContents, FileModel, files_view};
use crate::xmlesc::{
    attr_of, text_of, file_name_of, maybe_escape_attr, maybe_escape_text, file_name,
};

verus! {

/// Metadata for each file in the context header.
#[derive(Debug, Clone)]
pub struct FileMeta {
    pub id: usize,
    pub path: String,
    pub tokens: usize,
    pub parts: usize,
}

/// Ghost model of a `FileMeta`.
#[verifier::ext_equal]
pub struct MetaModel {
    pub id: nat,
    pub path: Seq<char>,
    pub tokens: nat,
    pub parts: nat,
}

impl View for FileMeta {
    type V = MetaModel;

    open spec fn view(&self) -> MetaModel {
        MetaModel {
            id: self.id as nat,
            path: self.path@,
            tokens: self.tokens as nat,
            parts: self.parts as nat,
        }
    }
}

/// One rendered block: a whole file, or one part of a split file.
#[derive(Debug, Clone)]
pub struct Block {
    pub xml: String,
    pub tokens: usize,
}

/// Ghost model of a `Block`.
#[verifier::ext_equal]
pub struct BlockModel {
    pub xml: Seq<char>,
    pub tokens: nat,
}

impl View for Block {
    type V = BlockModel;

    open spec fn view(&self) -> BlockModel {
        BlockModel { xml: self.xml@, tokens: self.tokens as nat }
    }
}

/// The blocks grouped into one chunk, with their summed token count.
#[derive(Debug)]
pub struct ChunkBody {
    pub blocks: Vec<Block>,
    pub tokens: usize,
}

/// Ghost model of a `ChunkBody`.
#[verifier::ext_equal]
pub struct BodyModel {
    pub blocks: Seq<BlockModel>,
    pub tokens: nat,
}

impl View for ChunkBody {
    type V = BodyModel;

    open spec fn view(&self) -> BodyModel {
        BodyModel {
            blocks: self.blocks@.map(|i: int, b: Block| b@),
            tokens: self.tokens as nat,
        }
    }
}

/// One chunk of rendered output.
#[derive(Debug, Clone)]
pub struct Chunk {
    pub index: usize,
    pub xml: String,
    pub tokens: usize,
}

/// Ghost model of a `Chunk`.
#[verifier::ext_equal]
pub struct ChunkModel {
    pub index: nat,
    pub xml: Seq<char>,
    pub tokens: nat,
}

impl View for Chunk {
    type V = ChunkModel;

    open spec fn view(&self) -> ChunkModel {
        ChunkModel { index: self.index as nat, xml: self.xml@, tokens: self.tokens as nat }
    }
}

/// The views of a sequence of strings.
pub open spec fn strs_view(ss: Seq<String>) -> Seq<Seq<char>> {
    ss.map(|i: int, s: String| s@)
}

/// Addition capped at `usize::MAX`, mirroring saturating addition.
pub open spec fn sat_add(a: nat, b: nat) -> nat {
    if a + b > usize::MAX as nat {
        usize::MAX as nat
    } else {
        a + b
    }
}

/// The rendered block wrapping one whole file.
pub open spec fn whole_block_of(path: Seq<char>, contents: Seq<char>, esc: bool) -> Seq<char> {
    "    <file-contents path=\""@ + attr_of(path, esc) + "\" name=\""@ + attr_of(
        file_name_of(path),
        esc,
    ) + "\">\n"@ + text_of(contents, esc) + "\n    </file-contents>\n"@
}

/// The rendered block wrapping one part of a split file.
pub open spec fn part_block_of(
    path: Seq<char>,
    idx: nat,
    total: nat,
    body: Seq<char>,
    esc: bool,
) -> Seq<char> {
    "    <file-contents path=\""@ + attr_of(path, esc) + "\" name=\""@ + attr_of(
        file_name_of(path),
        esc,
    ) + "\" part=\""@ + spec_dec(idx) + "/"@ + spec_dec(total) + "\">\n"@ + body
        + "    </file-contents>\n"@
}

/// Renders the block for one whole file.
pub(crate) fn render_whole_block(path: &str, contents: &str, escape_xml: bool) -> (r: String)
    ensures
        r@ == whole_block_of(path@, contents@, escape_xml),
{
    let mut s = String::new();
    s.append("    <file-contents path=\"");
    let pa = maybe_escape_attr(path, escape_xml);
    s.append(pa.as_str());
    s.append("\" name=\"");
    let name = file_name(path);
    let na = maybe_escape_attr(name.as_str(), escape_xml);
    s.append(na.as_str());
    s.append("\">\n");
    let body = maybe_escape_text(contents, escape_xml);
    s.append(body.as_str());
    s.append("\n    </file-contents>\n");
    proof {
        assert(s@ =~= whole_block_of(path@, contents@, escape_xml));
    }
    s
}

/// Wraps one part of a split file in its own block.
pub(crate) fn wrap_part(
    path: &str,
    idx: usize,
    total: usize,
    body: &str,
    escape_xml: bool,
) -> (r: String)
    ensures
        r@ == part_block_of(path@, idx as nat, total as nat, body@, escape_xml),
{
    let mut s = String::new();
    s.append("    <file-contents path=\"");
    let pa = maybe_escape_attr(path, escape_xml);
    s.append(pa.as_str());
    s.append("\" name=\"");
    let name = file_name(path);
    let na = maybe_escape_attr(name.as_str(), escape_xml);
    s.append(na.as_str());
    s.append("\" part=\"");
    let idx_s = dec_string(idx);
    s.append(idx_s.as_str());
    s.append("/");
    let total_s = dec_string(total);
    s.append(total_s.as_str());
    s.append("\">\n");
    s.append(body);
    s.append("    </file-contents>\n");
    proof {
        assert(s@ =~= part_block_of(path@, idx as nat, total as nat, body@, escape_xml));
    }
    s
}

/// Splitting a text at `'\n'`, collecting the current line as we go.
pub open spec fn split_lines_rec(s: Seq<char>, i: int, cur: Seq<char>) -> Seq<Seq<char>>
    decreases s.len() - i,
{
    if i < 0 || i >= s.len() {
        seq![cur]
    } else if s[i] == '\n' {
        seq![cur] + split_lines_rec(s, i + 1, Seq::empty())
    } else {
        split_lines_rec(s, i + 1, cur.push(s[i]))
    }
}

/// The lines of a text, split at `'\n'`; always at least one element.
pub open spec fn split_lines_s(s: Seq<char>) -> Seq<Seq<char>> {
    split_lines_rec(s, 0, Seq::empty())
}

/// Splits a text into its lines.
pub fn split_lines(s: &str) -> (lines: Vec<String>)
    ensures
        strs_view(lines@) == split_lines_s(s@),
{
    let n: usize = s.unicode_len();
    let mut lines: Vec<String> = Vec::new();
    let mut cur: Vec<char> = Vec::new();
    let mut i: usize = 0;
    while i < n
        invariant
            i <= n,
            n == s@.len(),
            split_lines_s(s@) == strs_view(lines@) + split_lines_rec(s@, i as int, cur@),
        decreases n - i,
    {
        let c = s.get_char(i);
        let ghost prev_lines = strs_view(lines@);
        let ghost prev_cur = cur@;
        if c == '\n' {
            let line = string_from_chars(&cur);
            lines.push(line);
            cur = Vec::new();
            proof {
                assert(strs_view(lines@) =~= prev_lines.push(prev_cur));
                assert(split_lines_rec(s@, i as int, prev_cur) == seq![prev_cur]
                    + split_lines_rec(s@, i + 1, Seq::empty()));
                assert(strs_view(lines@) + split_lines_rec(s@, i + 1, cur@) =~= prev_lines + (seq![
                    prev_cur,
                ] + split_lines_rec(s@, i + 1, Seq::empty())));
            }
        } else {
            cur.push(c);
            proof {
                assert(cur@ =~= prev_cur.push(s@[i as int]));
            }
        }
        i = i + 1;
    }
    let last = string_from_chars(&cur);
    let ghost prev_lines = strs_view(lines@);
    let ghost prev_cur = cur@;
    lines.push(last);
    proof {
        assert(strs_view(lines@) =~= prev_lines.push(prev_cur));
        assert(split_lines_rec(s@, n as int, prev_cur) == seq![prev_cur]);
        assert(strs_view(lines@) =~= prev_lines + seq![prev_cur]);
    }
    lines
}

pub proof fn lemma_split_lines_count(s: Seq<char>, i: int, cur: Seq<char>)
    requires
        0 <= i <= s.len(),
    ensures
        split_lines_rec(s, i, cur).len() <= s.len() - i + 1,
        split_lines_rec(s, i, cur).len() >= 1,
    decreases s.len() - i,
{
    if 0 <= i && i < s.len() {
        if s[i] == '\n' {
            lemma_split_lines_count(s, i + 1, Seq::empty());
        } else {
            lemma_split_lines_count(s, i + 1, cur.push(s[i]));
        }
    }
}

/// The token cost the packer charges for one line: its own count plus
/// one for the newline, capped at `usize::MAX`.
pub open spec fn line_tok(l: Seq<char>) -> nat {
    sat_add(token_count_of(l), 1)
}

/// The token cost of the wrapper text around an empty part.
pub open spec fn overhead_of(path: Seq<char>, idx: nat, total: nat, esc: bool) -> nat {
    token_count_of(part_block_of(path, idx, total, Seq::empty(), esc))
}

/// Greedy grouping of lines into parts: a part is closed as soon as the
/// next line, together with the wrapper overhead of the part being
/// built, would push it over the budget.  A part is never left empty, so
/// a single oversize line still becomes a (oversize) part of its own.
pub open spec fn split_parts_rec(
    lines: Seq<Seq<char>>,
    i: int,
    cur: Seq<char>,
    cur_tok: nat,
    idx: nat,
    path: Seq<char>,
    total: nat,
    max: nat,
    esc: bool,
) -> Seq<Seq<char>>
    decreases lines.len() - i,
{
    if i < 0 || i >= lines.len() {
        if cur.len() == 0 {
            Seq::empty()
        } else {
            seq![cur]
        }
    } else {
        let lt = line_tok(lines[i]);
        if cur.len() > 0 && cur_tok + lt + overhead_of(path, idx, total, esc) > max {
            seq![cur] + split_parts_rec(
                lines,
                i + 1,
                lines[i] + seq!['\n'],
                lt,
                idx + 1,
                path,
                total,
                max,
                esc,
            )
        } else {
            split_parts_rec(
                lines,
                i + 1,
                cur + lines[i] + seq!['\n'],
                cur_tok + lt,
                idx,
                path,
                total,
                max,
                esc,
            )
        }
    }
}

/// The parts of a file's lines under a declared part total.
pub open spec fn split_parts(
    lines: Seq<Seq<char>>,
    path: Seq<char>,
    total: nat,
    max: nat,
    esc: bool,
) -> Seq<Seq<char>> {
    split_parts_rec(lines, 0, Seq::empty(), 0, 1, path, total, max, esc)
}

/// `a + b + c > max`, computed without overflow.
fn exceeds3(a: usize, b: usize, c: usize, max: usize) -> (r: bool)
    ensures
        r == (a as nat + b as nat + c as nat > max as nat),
{
    match a.checked_add(b) {
        None => true,
        Some(x) => match x.checked_add(c) {
            None => true,
            Some(y) => y > max,
        },
    }
}

/// Splits a file's lines into contiguous parts under the budget, for a
/// declared part total.
pub(crate) fn split_oversize_parts(
    lines: &Vec<String>,
    path: &str,
    total_parts: usize,
    max_tokens: usize,
    escape_xml: bool,
    tok: &Tokenizer,
) -> (parts: Vec<String>)
    requires
        lines@.len() < usize::MAX,
    ensures
        strs_view(parts@) == split_parts(
            strs_view(lines@),
            path@,
            total_parts as nat,
            max_tokens as nat,
            escape_xml,
        ),
{
    let ghost ls = strs_view(lines@);
    let ghost t = total_parts as nat;
    let ghost m = max_tokens as nat;
    let n = lines.len();
    let mut parts: Vec<String> = Vec::new();
    let mut cur: Vec<char> = Vec::new();
    let mut cur_tok: usize = 0;
    let mut idx: usize = 1;
    let w = wrap_part(path, idx, total_parts, "", escape_xml);
    proof {
        reveal_strlit("");
        assert(""@ =~= Seq::<char>::empty());
    }
    let mut overhead: usize = tok.count(w.as_str());
    let mut j: usize = 0;
    while j < n
        invariant
            j <= n,
            n == lines@.len(),
            n < usize::MAX,
            ls == strs_view(lines@),
            t == total_parts as nat,
            m == max_tokens as nat,
            1 <= idx,
            idx as int <= j + 1,
            overhead as nat == overhead_of(path@, idx as nat, t, escape_xml),
            cur@.len() == 0 ==> cur_tok == 0,
            split_parts(ls, path@, t, m, escape_xml) == strs_view(parts@) + split_parts_rec(
                ls,
                j as int,
                cur@,
                cur_tok as nat,
                idx as nat,
                path@,
                t,
                m,
                escape_xml,
            ),
        decreases n - j,
    {
        let line: &String = &lines[j];
        let ltok = tok.count(line.as_str());
        let lt = ltok.saturating_add(1);
        proof {
            assert(ls[j as int] == line@);
            assert(lt as nat == line_tok(ls[j as int]));
        }
        let over = if cur.len() > 0 {
            exceeds3(cur_tok, lt, overhead, max_tokens)
        } else {
            false
        };
        let ghost prev_parts = strs_view(parts@);
        let ghost prev_cur = cur@;
        let ghost prev_tok = cur_tok as nat;
        let ghost prev_idx = idx as nat;
        if over {
            let part = string_from_chars(&cur);
            parts.push(part);
            cur = Vec::new();
            append_str(&mut cur, line.as_str());
            cur.push('\n');
            cur_tok = lt;
            idx = idx + 1;
            let w2 = wrap_part(path, idx, total_parts, "", escape_xml);
            overhead = tok.count(w2.as_str());
            proof {
                reveal_strlit("");
                assert(""@ =~= Seq::<char>::empty());
                assert(cur@ =~= ls[j as int] + seq!['\n']);
                assert(strs_view(parts@) =~= prev_parts.push(prev_cur));
                assert(split_parts_rec(ls, j as int, prev_cur, prev_tok, prev_idx, path@, t, m,
                    escape_xml) == seq![prev_cur] + split_parts_rec(ls, j + 1, cur@,
                    cur_tok as nat, idx as nat, path@, t, m, escape_xml));
                assert(strs_view(parts@) + split_parts_rec(ls, j + 1, cur@, cur_tok as nat,
                    idx as nat, path@, t, m, escape_xml) =~= prev_parts + (seq![prev_cur]
                    + split_parts_rec(ls, j + 1, cur@, cur_tok as nat, idx as nat, path@, t, m,
                    escape_xml)));
            }
        } else {
            proof {
                if prev_cur.len() > 0 {
                    assert(prev_tok + line_tok(ls[j as int]) + overhead_of(path@, prev_idx, t,
                        escape_xml) <= m);
                }
                assert(prev_tok + lt as nat <= usize::MAX as nat);
            }
            append_str(&mut cur, line.as_str());
            cur.push('\n');
            cur_tok = cur_tok + lt;
            proof {
                assert(cur@ =~= prev_cur + ls[j as int] + seq!['\n']);
                assert(split_parts_rec(ls, j as int, prev_cur, prev_tok, prev_idx, path@, t, m,
                    escape_xml) == split_parts_rec(ls, j + 1, cur@, cur_tok as nat, idx as nat,
                    path@, t, m, escape_xml));
            }
        }
        j = j + 1;
    }
    let ghost prev_parts = strs_view(parts@);
    let ghost prev_cur = cur@;
    if cur.len() > 0 {
        let part = string_from_chars(&cur);
        parts.push(part);
        proof {
            assert(strs_view(parts@) =~= prev_parts.push(prev_cur));
            assert(split_parts_rec(ls, n as int, prev_cur, cur_tok as nat, idx as nat, path@, t, m,
                escape_xml) == seq![prev_cur]);
            assert(strs_view(parts@) =~= prev_parts + seq![prev_cur]);
        }
    } else {
        proof {
            assert(split_parts_rec(ls, n as int, prev_cur, cur_tok as nat, idx as nat, path@, t, m,
                escape_xml) == Seq::<Seq<char>>::empty());
            assert(strs_view(parts@) + Seq::<Seq<char>>::empty() =~= strs_view(parts@));
        }
    }
    parts
}

/// The bounded fixed-point iteration on the declared part total: split
/// under a guessed total, observe the actual part count, and retry with
/// it until the guess is confirmed or the attempt budget runs out.
pub open spec fn split_fix(
    lines: Seq<Seq<char>>,
    path: Seq<char>,
    max: nat,
    esc: bool,
    target: nat,
    fuel: nat,
) -> Seq<Seq<char>>
    decreases fuel,
{
    let parts = split_parts(lines, path, target, max, esc);
    let actual: nat = if parts.len() == 0 {
        1
    } else {
        parts.len()
    };
    if actual == target || fuel == 0 {
        parts
    } else {
        split_fix(lines, path, max, esc, actual, (fuel - 1) as nat)
    }
}

/// How many attempts the fixed-point iteration on a part total may make.
pub open spec fn split_attempt_budget() -> nat {
    16
}

/// The parts an oversize file is finally split into.
pub open spec fn file_parts(lines: Seq<Seq<char>>, path: Seq<char>, max: nat, esc: bool) -> Seq<
    Seq<char>,
> {
    split_fix(lines, path, max, esc, 1, split_attempt_budget())
}

/// Splits an oversize file's lines, resolving the declared part total by
/// the bounded fixed-point iteration.
pub(crate) fn split_file_fixed(
    lines: &Vec<String>,
    path: &str,
    max_tokens: usize,
    escape_xml: bool,
    tok: &Tokenizer,
) -> (parts: Vec<String>)
    requires
        lines@.len() < usize::MAX,
    ensures
        strs_view(parts@) == file_parts(
            strs_view(lines@),
            path@,
            max_tokens as nat,
            escape_xml,
        ),
{
    let ghost ls = strs_view(lines@);
    let ghost m = max_tokens as nat;
    let mut target: usize = 1;
    let mut fuel: usize = 16;
    loop
        invariant
            lines@.len() < usize::MAX,
            ls == strs_view(lines@),
            m == max_tokens as nat,
            file_parts(ls, path@, m, escape_xml) == split_fix(
                ls,
                path@,
                m,
                escape_xml,
                target as nat,
                fuel as nat,
            ),
        decreases fuel,
    {
        let parts = split_oversize_parts(lines, path, target, max_tokens, escape_xml, tok);
        let actual: usize = if parts.len() == 0 {
            1
        } else {
            parts.len()
        };
        if actual == target || fuel == 0 {
            return parts;
        }
        target = actual;
        fuel = fuel - 1;
    }
}

/// Machine limit on one input file: even fully escaped, its text and the
/// line count derived from it must stay clear of `usize::MAX`.
pub open spec fn file_fits(f: FileModel) -> bool {
    6 * f.contents.len() + 16 < usize::MAX as nat
}

/// Machine limit on the input files.
pub open spec fn files_fit(files: Seq<FileModel>) -> bool {
    forall|i: int| 0 <= i < files.len() ==> file_fits(#[trigger] files[i])
}

/// Tests the machine limit on the input files, so a caller can
/// establish it before packing.
pub fn files_within_limit(files: &Vec<FileContents>) -> (r: bool)
    ensures
        r == files_fit(files_view(files@)),
{
    let bound: usize = (usize::MAX - 16) / 6;
    let n = files.len();
    let mut i: usize = 0;
    while i < n
        invariant
            i <= n,
            n == files@.len(),
            bound == (usize::MAX - 16) / 6,
            forall|k: int| 0 <= k < i ==> file_fits(#[trigger] files_view(files@)[k]),
        decreases n - i,
    {
        let f = &files[i];
        let len = f.contents.as_str().unicode_len();
        if len > bound {
            proof {
                assert(files_view(files@)[i as int] == files@[i as int]@);
                assert(!file_fits(files_view(files@)[i as int]));
            }
            return false;
        }
        proof {
            assert(files_view(files@)[i as int] == files@[i as int]@);
            assert(6 * (len as nat) + 16 < usize::MAX as nat) by (nonlinear_arith)
                requires
                    len <= (usize::MAX - 16) / 6,
                    len as nat == files@[i as int]@.contents.len(),
            ;
            assert(file_fits(files_view(files@)[i as int]));
        }
        i = i + 1;
    }
    true
}

/// The views of a sequence of blocks.
pub open spec fn blocks_view(bs: Seq<Block>) -> Seq<BlockModel> {
    bs.map(|i: int, b: Block| b@)
}

/// The views of a sequence of chunk bodies.
pub open spec fn bodies_view(bs: Seq<ChunkBody>) -> Seq<BodyModel> {
    bs.map(|i: int, b: ChunkBody| b@)
}

/// The views of a sequence of file metadata records.
pub open spec fn metas_view(ms: Seq<FileMeta>) -> Seq<MetaModel> {
    ms.map(|i: int, m: FileMeta| m@)
}

/// The views of a sequence of chunks.
pub open spec fn chunks_view(cs: Seq<Chunk>) -> Seq<ChunkModel> {
    cs.map(|i: int, c: Chunk| c@)
}

/// The wrapped part blocks of a split file, under its final part total.
pub open spec fn wrapped_parts_of(
    path: Seq<char>,
    parts: Seq<Seq<char>>,
    pc: nat,
    esc: bool,
) -> Seq<BlockModel> {
    Seq::new(
        parts.len(),
        |j: int|
            BlockModel {
                xml: part_block_of(path, (j + 1) as nat, pc, parts[j], esc),
                tokens: token_count_of(part_block_of(path, (j + 1) as nat, pc, parts[j], esc)),
            },
    )
}

/// Left-to-right saturating sum of block token counts, from `i` on.
pub open spec fn sat_sum_tokens(bs: Seq<BlockModel>, i: int, acc: nat) -> nat
    decreases bs.len() - i,
{
    if i < 0 || i >= bs.len() {
        acc
    } else {
        sat_sum_tokens(bs, i + 1, sat_add(acc, bs[i].tokens))
    }
}

/// Ghost state of the packer: finished bodies, per-file metadata, and
/// the body currently being filled.
#[verifier::ext_equal]
pub struct PackModel {
    pub bodies: Seq<BodyModel>,
    pub metas: Seq<MetaModel>,
    pub cur: Seq<BlockModel>,
    pub cur_tok: nat,
}

/// Closes the body currently being filled, unless it is empty.
pub open spec fn close_cur(st: PackModel) -> Seq<BodyModel> {
    if st.cur.len() > 0 {
        st.bodies.push(BodyModel { blocks: st.cur, tokens: st.cur_tok })
    } else {
        st.bodies
    }
}

/// One packing step: how one file changes the packer state.
pub open spec fn pack_step(st: PackModel, f: FileModel, max: nat, esc: bool) -> PackModel {
    let block = whole_block_of(f.path, f.contents, esc);
    let btok = token_count_of(block);
    let bm = BlockModel { xml: block, tokens: btok };
    if st.cur_tok + btok <= max {
        PackModel {
            bodies: st.bodies,
            metas: st.metas.push(
                MetaModel { id: st.metas.len(), path: f.path, tokens: btok, parts: 1 },
            ),
            cur: st.cur.push(bm),
            cur_tok: st.cur_tok + btok,
        }
    } else if btok <= max {
        PackModel {
            bodies: close_cur(st),
            metas: st.metas.push(
                MetaModel { id: st.metas.len(), path: f.path, tokens: btok, parts: 1 },
            ),
            cur: seq![bm],
            cur_tok: btok,
        }
    } else {
        let lines = split_lines_s(text_of(f.contents, esc));
        let parts = file_parts(lines, f.path, max, esc);
        let pc: nat = if parts.len() == 0 {
            1
        } else {
            parts.len()
        };
        let ws = wrapped_parts_of(f.path, parts, pc, esc);
        let meta = MetaModel {
            id: st.metas.len(),
            path: f.path,
            tokens: sat_sum_tokens(ws, 0, 0),
            parts: pc,
        };
        if ws.len() == 0 {
            PackModel {
                bodies: st.bodies,
                metas: st.metas.push(meta),
                cur: st.cur,
                cur_tok: st.cur_tok,
            }
        } else {
            PackModel {
                bodies: close_cur(st) + Seq::new(
                    (ws.len() - 1) as nat,
                    |j: int| BodyModel { blocks: seq![ws[j]], tokens: ws[j].tokens },
                ),
                metas: st.metas.push(meta),
                cur: seq![ws[(ws.len() - 1) as int]],
                cur_tok: ws[(ws.len() - 1) as int].tokens,
            }
        }
    }
}

/// The packer state after the first `i` files.
pub open spec fn pack_files_rec(files: Seq<FileModel>, i: int, max: nat, esc: bool) -> PackModel
    decreases i,
{
    if i <= 0 {
        PackModel { bodies: Seq::empty(), metas: Seq::empty(), cur: Seq::empty(), cur_tok: 0 }
    } else {
        pack_step(pack_files_rec(files, i - 1, max, esc), files[i - 1], max, esc)
    }
}

/// The finished chunk bodies for the given files and budget.
pub open spec fn packed_bodies(files: Seq<FileModel>, max: nat, esc: bool) -> Seq<BodyModel> {
    close_cur(pack_files_rec(files, files.len() as int, max, esc))
}

/// The file metadata for the given files and budget.
pub open spec fn packed_metas(files: Seq<FileModel>, max: nat, esc: bool) -> Seq<MetaModel> {
    pack_files_rec(files, files.len() as int, max, esc).metas
}

/// `a + b <= max`, computed without overflow.
fn add_le(a: usize, b: usize, max: usize) -> (r: bool)
    ensures
        r == (a as nat + b as nat <= max as nat),
{
    match a.checked_add(b) {
        None => false,
        Some(x) => x <= max,
    }
}

/// Partitions the files into token-bounded chunk bodies and emits one
/// metadata record per file.
///
/// A file whose whole block fits the budget is appended to the body
/// being filled, or opens a new one; a file whose block alone exceeds
/// the budget is split into parts, each of which closes the body being
/// filled and opens its own.
#[verifier::loop_isolation(false)]
#[verifier::rlimit(100)]
pub fn build_chunk_bodies(
    files: &Vec<FileContents>,
    max_tokens: usize,
    escape_xml: bool,
    tok: &Tokenizer,
) -> (r: (Vec<ChunkBody>, Vec<FileMeta>))
    requires
        max_tokens >= 1,
        files_fit(files_view(files@)),
    ensures
        bodies_view(r.0@) == packed_bodies(files_view(files@), max_tokens as nat, escape_xml),
        metas_view(r.1@) == packed_metas(files_view(files@), max_tokens as nat, escape_xml),
{
    let ghost fv = files_view(files@);
    let ghost m = max_tokens as nat;
    let n = files.len();
    let mut bodies: Vec<ChunkBody> = Vec::new();
    let mut metas: Vec<FileMeta> = Vec::new();
    let mut cur: Vec<Block> = Vec::new();
    let mut cur_tok: usize = 0;
    let mut i: usize = 0;
    proof {
        assert(bodies_view(bodies@) =~= pack_files_rec(fv, 0, m, escape_xml).bodies);
        assert(metas_view(metas@) =~= pack_files_rec(fv, 0, m, escape_xml).metas);
        assert(blocks_view(cur@) =~= pack_files_rec(fv, 0, m, escape_xml).cur);
    }
    while i < n
        invariant
            i <= n,
            n == files@.len(),
            fv == files_view(files@),
            m == max_tokens as nat,
            max_tokens >= 1,
            files_fit(fv),
            bodies_view(bodies@) == pack_files_rec(fv, i as int, m, escape_xml).bodies,
            metas_view(metas@) == pack_files_rec(fv, i as int, m, escape_xml).metas,
            blocks_view(cur@) == pack_files_rec(fv, i as int, m, escape_xml).cur,
            cur_tok as nat == pack_files_rec(fv, i as int, m, escape_xml).cur_tok,
        decreases n - i,
    {
        let ghost st = pack_files_rec(fv, i as int, m, escape_xml);
        let ghost fm = fv[i as int];
        proof {
            assert(fm == files@[i as int]@);
        }
        let f = &files[i];
        let block = render_whole_block(f.path.as_str(), f.contents.as_str(), escape_xml);
        let btok = tok.count(block.as_str());
        proof {
            assert(block@ == whole_block_of(fm.path, fm.contents, escape_xml));
        }
        let id = metas.len();
        if add_le(cur_tok, btok, max_tokens) {
            metas.push(FileMeta { id, path: f.path.clone(), tokens: btok, parts: 1 });
            cur.push(Block { xml: block, tokens: btok });
            cur_tok = cur_tok + btok;
            proof {
                let st2 = pack_step(st, fm, m, escape_xml);
                assert(metas_view(metas@) =~~= st2.metas);
                assert(blocks_view(cur@) =~~= st2.cur);
            }
        } else if btok <= max_tokens {
            if cur.len() > 0 {
                let done = cur;
                bodies.push(ChunkBody { blocks: done, tokens: cur_tok });
                cur = Vec::new();
            }
            metas.push(FileMeta { id, path: f.path.clone(), tokens: btok, parts: 1 });
            cur.push(Block { xml: block, tokens: btok });
            cur_tok = btok;
            proof {
                let st2 = pack_step(st, fm, m, escape_xml);
                assert(bodies_view(bodies@) =~~= st2.bodies);
                assert(metas_view(metas@) =~~= st2.metas);
                assert(blocks_view(cur@) =~~= st2.cur);
            }
        } else {
            let esc_contents = maybe_escape_text(f.contents.as_str(), escape_xml);
            let lines = split_lines(esc_contents.as_str());
            proof {
                assert(file_fits(fm));
                crate::xmlesc::lemma_esc_text_len(fm.contents, false);
                lemma_split_lines_count(esc_contents@, 0, Seq::empty());
                assert(strs_view(lines@).len() == lines@.len());
                assert(lines@.len() < usize::MAX);
            }
            let parts = split_file_fixed(&lines, f.path.as_str(), max_tokens, escape_xml, tok);
            let pc: usize = if parts.len() == 0 {
                1
            } else {
                parts.len()
            };
            let ghost ws = wrapped_parts_of(fm.path, strs_view(parts@), pc as nat, escape_xml);
            let ghost bodies0 = bodies_view(bodies@);
            let ghost close0 = close_cur(st);
            let ghost cur0 = blocks_view(cur@);
            let ghost cur_tok0 = cur_tok as nat;
            let mut ftot: usize = 0;
            let mut j: usize = 0;
            proof {
                assert(ws.len() == parts@.len());
            }
            while j < parts.len()
                invariant
                    j <= parts@.len(),
                    ws.len() == parts@.len(),
                    ws == wrapped_parts_of(fm.path, strs_view(parts@), pc as nat, escape_xml),
                    pc as nat == if parts@.len() == 0 {
                        1nat
                    } else {
                        parts@.len()
                    },
                    sat_sum_tokens(ws, 0, 0) == sat_sum_tokens(ws, j as int, ftot as nat),
                    close0 == close_cur(
                        PackModel {
                            bodies: bodies0,
                            metas: metas_view(metas@),
                            cur: cur0,
                            cur_tok: cur_tok0,
                        },
                    ),
                    j == 0 ==> bodies_view(bodies@) == bodies0 && blocks_view(cur@) == cur0
                        && cur_tok as nat == cur_tok0,
                    j > 0 ==> bodies_view(bodies@) == close0 + Seq::new(
                        (j - 1) as nat,
                        |k: int| BodyModel { blocks: seq![ws[k]], tokens: ws[k].tokens },
                    ) && blocks_view(cur@) == seq![ws[j - 1]] && cur_tok as nat == ws[j
                        - 1].tokens,
                decreases parts@.len() - j,
            {
                let part: &String = &parts[j];
                let wrapped = wrap_part(f.path.as_str(), j + 1, pc, part.as_str(), escape_xml);
                let wtok = tok.count(wrapped.as_str());
                proof {
                    assert(strs_view(parts@)[j as int] == part@);
                    assert(wrapped@ == ws[j as int].xml);
                    assert(wtok as nat == ws[j as int].tokens);
                }
                let ghost bodies_pre = bodies_view(bodies@);
                let ghost cur_pre = blocks_view(cur@);
                let ghost cur_tok_pre = cur_tok as nat;
                if cur.len() > 0 {
                    let done = cur;
                    bodies.push(ChunkBody { blocks: done, tokens: cur_tok });
                    cur = Vec::new();
                    proof {
                        assert(bodies_view(bodies@) =~~= bodies_pre.push(
                            BodyModel { blocks: cur_pre, tokens: cur_tok_pre },
                        ));
                    }
                }
                cur.push(Block { xml: wrapped, tokens: wtok });
                cur_tok = wtok;
                ftot = ftot.saturating_add(wtok);
                proof {
                    assert(blocks_view(cur@) =~~= seq![ws[j as int]]);
                    if j == 0 {
                        if cur0.len() > 0 {
                            assert(bodies_view(bodies@) =~~= close0);
                        } else {
                            assert(bodies_view(bodies@) =~~= close0);
                        }
                        assert(bodies_view(bodies@) =~~= close0 + Seq::new(
                            0nat,
                            |k: int| BodyModel { blocks: seq![ws[k]], tokens: ws[k].tokens },
                        ));
                    } else {
                        assert(cur_pre =~~= seq![ws[j - 1]]);
                        assert(cur_pre.len() > 0);
                        assert(bodies_view(bodies@) =~~= (close0 + Seq::new(
                            (j - 1) as nat,
                            |k: int| BodyModel { blocks: seq![ws[k]], tokens: ws[k].tokens },
                        )).push(BodyModel { blocks: seq![ws[j - 1]], tokens: ws[j - 1].tokens }));
                        assert(bodies_view(bodies@) =~~= close0 + Seq::new(
                            j as nat,
                            |k: int| BodyModel { blocks: seq![ws[k]], tokens: ws[k].tokens },
                        ));
                    }
                }
                j = j + 1;
            }
            metas.push(FileMeta { id, path: f.path.clone(), tokens: ftot, parts: pc });
            proof {
                let st2 = pack_step(st, fm, m, escape_xml);
                assert(text_of(fm.contents, escape_xml) == esc_contents@);
                assert(strs_view(lines@) == split_lines_s(text_of(fm.contents, escape_xml)));
                assert(strs_view(parts@) == file_parts(
                    split_lines_s(text_of(fm.contents, escape_xml)),
                    fm.path,
                    m,
                    escape_xml,
                ));
                assert(ftot as nat == sat_sum_tokens(ws, 0, 0));
                assert(metas_view(metas@) =~~= st2.metas);
                if parts.len() == 0 {
                    assert(bodies_view(bodies@) =~~= st2.bodies);
                    assert(blocks_view(cur@) =~~= st2.cur);
                } else {
                    assert(ws.len() > 0);
                    assert(bodies_view(bodies@) =~~= close0 + Seq::new(
                        (ws.len() - 1) as nat,
                        |k: int| BodyModel { blocks: seq![ws[k]], tokens: ws[k].tokens },
                    ));
                    assert(bodies_view(bodies@) =~~= st2.bodies);
                    assert(blocks_view(cur@) =~~= st2.cur);
                }
            }
        }
        i = i + 1;
        proof {
            assert(pack_files_rec(fv, i as int, m, escape_xml) == pack_step(st, fm, m, escape_xml));
        }
    }
    let ghost st_final = pack_files_rec(fv, n as int, m, escape_xml);
    if cur.len() > 0 {
        let done = cur;
        bodies.push(ChunkBody { blocks: done, tokens: cur_tok });
        proof {
            assert(bodies_view(bodies@) =~~= close_cur(st_final));
        }
    } else {
        proof {
            assert(bodies_view(bodies@) =~~= close_cur(st_final));
        }
    }
    (bodies, metas)
}

/// The whole-file blocks of all files, in order.
pub open spec fn all_blocks_xml(files: Seq<FileModel>, esc: bool) -> Seq<Seq<char>> {
    Seq::new(files.len(), |i: int| whole_block_of(files[i].path, files[i].contents, esc))
}

/// The single chunk body emitted when chunking is disabled.
pub open spec fn zero_chunk_xml(files: Seq<FileModel>, esc: bool) -> Seq<char> {
    concat_all(all_blocks_xml(files, esc))
}

/// The per-file metadata when no file is split: one part each, the
/// whole-block token count.
pub open spec fn whole_file_metas(files: Seq<FileModel>, esc: bool) -> Seq<MetaModel> {
    Seq::new(
        files.len(),
        |i: int|
            MetaModel {
                id: i as nat,
                path: files[i].path,
                tokens: token_count_of(whole_block_of(files[i].path, files[i].contents, esc)),
                parts: 1,
            },
    )
}

/// The block texts of a body's blocks.
pub open spec fn blocks_xml(bs: Seq<BlockModel>) -> Seq<Seq<char>> {
    bs.map(|i: int, b: BlockModel| b.xml)
}

/// The chunks formed from finished bodies: each chunk's text is the
/// concatenation of its body's blocks, its token count the body's sum.
pub open spec fn body_chunks_of(bodies: Seq<BodyModel>) -> Seq<ChunkModel> {
    Seq::new(
        bodies.len(),
        |i: int|
            ChunkModel {
                index: i as nat,
                xml: concat_all(blocks_xml(bodies[i].blocks)),
                tokens: bodies[i].tokens,
            },
    )
}

/// The chunks that `build_chunks` returns.
pub open spec fn spec_chunks(files: Seq<FileModel>, max: nat, esc: bool) -> Seq<ChunkModel> {
    if max == 0 {
        seq![
            ChunkModel {
                index: 0,
                xml: zero_chunk_xml(files, esc),
                tokens: token_count_of(zero_chunk_xml(files, esc)),
            },
        ]
    } else {
        body_chunks_of(packed_bodies(files, max, esc))
    }
}

/// The metadata that `build_chunks` returns.
pub open spec fn spec_metas(files: Seq<FileModel>, max: nat, esc: bool) -> Seq<MetaModel> {
    if max == 0 {
        whole_file_metas(files, esc)
    } else {
        packed_metas(files, max, esc)
    }
}

/// Builds the per-file metadata without any packing, as the multi-step
/// header needs it: every file one part, with its whole-block count.
pub fn build_file_meta(files: &Vec<FileContents>, escape_xml: bool, tok: &Tokenizer) -> (metas:
    Vec<FileMeta>)
    ensures
        metas_view(metas@) == whole_file_metas(files_view(files@), escape_xml),
{
    let ghost fv = files_view(files@);
    let n = files.len();
    let mut metas: Vec<FileMeta> = Vec::new();
    let mut i: usize = 0;
    while i < n
        invariant
            i <= n,
            n == files@.len(),
            fv == files_view(files@),
            metas_view(metas@) == whole_file_metas(fv, escape_xml).take(i as int),
        decreases n - i,
    {
        let f = &files[i];
        proof {
            assert(fv[i as int] == files@[i as int]@);
        }
        let block = render_whole_block(f.path.as_str(), f.contents.as_str(), escape_xml);
        let file_tok = tok.count(block.as_str());
        let ghost prev = metas@;
        metas.push(FileMeta { id: i, path: f.path.clone(), tokens: file_tok, parts: 1 });
        i = i + 1;
        proof {
            let wm = whole_file_metas(fv, escape_xml);
            assert(metas_view(prev).len() == prev.len());
            assert(metas_view(prev) == wm.take(i - 1));
            assert(prev.len() == i - 1);
            assert(metas@.len() == i);
            assert(metas@[i - 1]@ =~~= wm[i - 1]);
            assert(forall|k: int| 0 <= k < i - 1 ==> metas@[k] == prev[k]);
            assert(forall|k: int|
                0 <= k < i - 1 ==> #[trigger] metas_view(metas@)[k] == metas_view(prev)[k]);
            assert(metas_view(metas@) =~~= whole_file_metas(fv, escape_xml).take(i as int));
        }
    }
    proof {
        assert(whole_file_metas(fv, escape_xml).take(n as int) =~~= whole_file_metas(
            fv,
            escape_xml,
        ));
    }
    metas
}

/// Turns one finished body into a chunk at the given index.
pub(crate) fn body_to_chunk(body: &ChunkBody, index: usize) -> (c: Chunk)
    ensures
        c@ == (ChunkModel {
            index: index as nat,
            xml: concat_all(blocks_xml(body@.blocks)),
            tokens: body@.tokens,
        }),
{
    let mut s = String::new();
    let nb = body.blocks.len();
    let mut j: usize = 0;
    proof {
        assert(blocks_xml(body@.blocks).take(0) =~= Seq::<Seq<char>>::empty());
    }
    while j < nb
        invariant
            j <= nb,
            nb == body.blocks@.len(),
            s@ == concat_all(blocks_xml(body@.blocks).take(j as int)),
        decreases nb - j,
    {
        let b: &Block = &body.blocks[j];
        s.append(b.xml.as_str());
        proof {
            crate::strutil::lemma_concat_all_push(
                blocks_xml(body@.blocks).take(j as int),
                body@.blocks[j as int].xml,
            );
            assert(blocks_xml(body@.blocks).take(j as int).push(body@.blocks[j as int].xml)
                =~= blocks_xml(body@.blocks).take(j + 1));
        }
        j = j + 1;
    }
    proof {
        assert(blocks_xml(body@.blocks).take(nb as int) =~= blocks_xml(body@.blocks));
    }
    Chunk { index, xml: s, tokens: body.tokens }
}

/// Builds the chunks and per-file metadata for the given files.
///
/// With `max_tokens == 0`, chunking is disabled: one chunk holds every
/// file's block and nothing is split.  Otherwise blocks are packed
/// greedily into token-bounded bodies and oversize files are split.
#[verifier::loop_isolation(false)]
pub fn build_chunks(
    files: &Vec<FileContents>,
    max_tokens: usize,
    escape_xml: bool,
    tok: &Tokenizer,
) -> (r: (Vec<Chunk>, Vec<FileMeta>))
    requires
        files_fit(files_view(files@)),
    ensures
        chunks_view(r.0@) == spec_chunks(files_view(files@), max_tokens as nat, escape_xml),
        metas_view(r.1@) == spec_metas(files_view(files@), max_tokens as nat, escape_xml),
{
    let ghost fv = files_view(files@);
    if max_tokens == 0 {
        let metas = build_file_meta(files, escape_xml, tok);
        let n = files.len();
        let mut xml_all = String::new();
        let mut i: usize = 0;
        proof {
            assert(all_blocks_xml(fv, escape_xml).take(0) =~= Seq::<Seq<char>>::empty());
        }
        while i < n
            invariant
                i <= n,
                n == files@.len(),
                xml_all@ == concat_all(all_blocks_xml(fv, escape_xml).take(i as int)),
            decreases n - i,
        {
            let f = &files[i];
            let block = render_whole_block(f.path.as_str(), f.contents.as_str(), escape_xml);
            xml_all.append(block.as_str());
            proof {
                crate::strutil::lemma_concat_all_push(
                    all_blocks_xml(fv, escape_xml).take(i as int),
                    all_blocks_xml(fv, escape_xml)[i as int],
                );
                assert(all_blocks_xml(fv, escape_xml).take(i as int).push(
                    all_blocks_xml(fv, escape_xml)[i as int],
                ) =~= all_blocks_xml(fv, escape_xml).take(i + 1));
            }
            i = i + 1;
        }
        proof {
            assert(all_blocks_xml(fv, escape_xml).take(n as int) =~= all_blocks_xml(
                fv,
                escape_xml,
            ));
        }
        let total_toks = tok.count(xml_all.as_str());
        let chunk = Chunk { index: 0, xml: xml_all, tokens: total_toks };
        let chunks = vec![chunk];
        proof {
            assert(chunks_view(chunks@) =~~= spec_chunks(fv, 0, escape_xml));
        }
        return (chunks, metas);
    }
    let (bodies, metas) = build_chunk_bodies(files, max_tokens, escape_xml, tok);
    let ghost bm = packed_bodies(fv, max_tokens as nat, escape_xml);
    let mut chunks: Vec<Chunk> = Vec::new();
    let nb = bodies.len();
    let mut i: usize = 0;
    while i < nb
        invariant
            i <= nb,
            nb == bodies@.len(),
            chunks_view(chunks@) == body_chunks_of(bm).take(i as int),
        decreases nb - i,
    {
        let c = body_to_chunk(&bodies[i], i);
        chunks.push(c);
        i = i + 1;
        proof {
            assert(bodies@[i - 1]@ == bm[i - 1]);
            assert(chunks_view(chunks@) =~~= body_chunks_of(bm).take(i as int));
        }
    }
    proof {
        assert(body_chunks_of(bm).take(nb as int) =~~= body_chunks_of(bm));
    }
    (chunks, metas)
}

} // verus!
