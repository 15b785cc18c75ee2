//! The library's global guarantees, stated and proved over the packer's
//! spec model: reassembly, budget, parts accounting, idempotence, and
//! the disabled-chunking shape.

use vstd::prelude::*;
use crate::chunker::{
    BlockModel, BodyModel, ChunkModel, MetaModel, PackModel, pack_files_rec, pack_step,
    packed_bodies, packed_metas, close_cur, whole_block_of, file_parts, split_fix, split_parts,
    split_parts_rec, split_lines_s, split_lines_rec, wrapped_parts_of, blocks_xml, body_chunks_of,
    spec_chunks, spec_metas, zero_chunk_xml, line_tok, overhead_of,
};
use crate::header::GitStatus;
use crate::pipeline::{
    first_splittable_from, splittable_at, oversize_single_at, any_oversize_upto, pass_decision,
    PassDecision, inner_rec, InnerOutcome, outer_rec, ConvergedModel, spec_converge,
    final_chunks, pass_chunks, do_split, total_blocks_from, snip_tok, header_flag, oversize_flag,
    sat_sub, lemma_first_splittable_bounds,
};
use crate::strutil::concat_all;
use crate::tokenizer::token_count_of;
use crate::types::FileModel;
use crate::xmlesc::text_of;

verus! {

pub proof fn lemma_concat_all_append(a: Seq<Seq<char>>, b: Seq<Seq<char>>)
    ensures
        concat_all(a + b) == concat_all(a) + concat_all(b),
    decreases a.len(),
{
    if a.len() == 0 {
        assert(a + b =~= b);
        assert(concat_all(a) + concat_all(b) =~= concat_all(b));
    } else {
        assert((a + b).drop_first() =~= a.drop_first() + b);
        assert((a + b).first() == a.first());
        lemma_concat_all_append(a.drop_first(), b);
        assert(concat_all(a + b) =~= concat_all(a) + concat_all(b));
    }
}

/// The concatenation of each line followed by a newline, from line `i`
/// on.
pub open spec fn joined_from(lines: Seq<Seq<char>>, i: int) -> Seq<char>
    decreases lines.len() - i,
{
    if i < 0 || i >= lines.len() {
        Seq::empty()
    } else {
        lines[i] + seq!['\n'] + joined_from(lines, i + 1)
    }
}

proof fn lemma_split_parts_rec_reassemble(
    lines: Seq<Seq<char>>,
    i: int,
    cur: Seq<char>,
    cur_tok: nat,
    idx: nat,
    path: Seq<char>,
    total: nat,
    max: nat,
    esc: bool,
)
    requires
        0 <= i <= lines.len(),
    ensures
        concat_all(split_parts_rec(lines, i, cur, cur_tok, idx, path, total, max, esc)) == cur
            + joined_from(lines, i),
    decreases lines.len() - i,
{
    if i >= lines.len() {
        if cur.len() == 0 {
            assert(concat_all(split_parts_rec(lines, i, cur, cur_tok, idx, path, total, max, esc))
                =~= cur + joined_from(lines, i));
        } else {
            assert(concat_all(Seq::<Seq<char>>::empty()) =~= Seq::<char>::empty());
            assert(seq![cur].drop_first() =~= Seq::<Seq<char>>::empty());
            assert(concat_all(seq![cur]) =~= cur);
            assert(concat_all(split_parts_rec(lines, i, cur, cur_tok, idx, path, total, max, esc))
                =~= cur + joined_from(lines, i));
        }
    } else {
        let lt = line_tok(lines[i]);
        if cur.len() > 0 && cur_tok + lt + overhead_of(path, idx, total, esc) > max {
            lemma_split_parts_rec_reassemble(
                lines,
                i + 1,
                lines[i] + seq!['\n'],
                lt,
                idx + 1,
                path,
                total,
                max,
                esc,
            );
            let rest = split_parts_rec(
                lines,
                i + 1,
                lines[i] + seq!['\n'],
                lt,
                idx + 1,
                path,
                total,
                max,
                esc,
            );
            lemma_concat_all_append(seq![cur], rest);
            assert(seq![cur] + rest =~= split_parts_rec(lines, i, cur, cur_tok, idx, path, total,
                max, esc));
            assert(concat_all(Seq::<Seq<char>>::empty()) =~= Seq::<char>::empty());
            assert(seq![cur].drop_first() =~= Seq::<Seq<char>>::empty());
            assert(concat_all(seq![cur]) =~= cur);
            assert(concat_all(split_parts_rec(lines, i, cur, cur_tok, idx, path, total, max, esc))
                =~= cur + joined_from(lines, i));
        } else {
            lemma_split_parts_rec_reassemble(
                lines,
                i + 1,
                cur + lines[i] + seq!['\n'],
                cur_tok + lt,
                idx,
                path,
                total,
                max,
                esc,
            );
            assert(concat_all(split_parts_rec(lines, i, cur, cur_tok, idx, path, total, max, esc))
                =~= cur + joined_from(lines, i));
        }
    }
}

/// The bodies of a file's parts, under any declared total, concatenate
/// to its lines, each closed by a newline.
pub proof fn lemma_split_parts_reassemble(
    lines: Seq<Seq<char>>,
    path: Seq<char>,
    total: nat,
    max: nat,
    esc: bool,
)
    ensures
        concat_all(split_parts(lines, path, total, max, esc)) == joined_from(lines, 0),
{
    lemma_split_parts_rec_reassemble(lines, 0, Seq::empty(), 0, 1, path, total, max, esc);
    assert(Seq::<char>::empty() + joined_from(lines, 0) =~= joined_from(lines, 0));
}

proof fn lemma_split_fix_reassemble(
    lines: Seq<Seq<char>>,
    path: Seq<char>,
    max: nat,
    esc: bool,
    target: nat,
    fuel: nat,
)
    ensures
        concat_all(split_fix(lines, path, max, esc, target, fuel)) == joined_from(lines, 0),
    decreases fuel,
{
    let parts = split_parts(lines, path, target, max, esc);
    let actual: nat = if parts.len() == 0 {
        1
    } else {
        parts.len()
    };
    if actual == target || fuel == 0 {
        lemma_split_parts_reassemble(lines, path, target, max, esc);
    } else {
        lemma_split_fix_reassemble(lines, path, max, esc, actual, (fuel - 1) as nat);
    }
}

proof fn lemma_split_lines_join(s: Seq<char>, i: int, cur: Seq<char>)
    requires
        0 <= i <= s.len(),
    ensures
        joined_from(split_lines_rec(s, i, cur), 0) == cur + s.subrange(i, s.len() as int) + seq![
            '\n',
        ],
    decreases s.len() - i,
{
    if i >= s.len() {
        assert(split_lines_rec(s, i, cur) =~= seq![cur]);
        assert(joined_from(seq![cur], 1) =~= Seq::<char>::empty());
        assert(joined_from(seq![cur], 0) =~= cur + seq!['\n']);
        assert(s.subrange(i, s.len() as int) =~= Seq::<char>::empty());
        assert(joined_from(split_lines_rec(s, i, cur), 0) =~= cur + s.subrange(i, s.len() as int)
            + seq!['\n']);
    } else if s[i] == '\n' {
        lemma_split_lines_join(s, i + 1, Seq::empty());
        let rest = split_lines_rec(s, i + 1, Seq::empty());
        assert(split_lines_rec(s, i, cur) =~= seq![cur] + rest);
        lemma_joined_from_cons(cur, rest);
        assert(s.subrange(i, s.len() as int) =~= seq!['\n'] + s.subrange(i + 1, s.len() as int));
        assert(joined_from(split_lines_rec(s, i, cur), 0) =~= cur + s.subrange(i, s.len() as int)
            + seq!['\n']);
    } else {
        lemma_split_lines_join(s, i + 1, cur.push(s[i]));
        assert(cur.push(s[i]) + s.subrange(i + 1, s.len() as int) =~= cur + s.subrange(
            i,
            s.len() as int,
        ));
        assert(joined_from(split_lines_rec(s, i, cur), 0) =~= cur + s.subrange(i, s.len() as int)
            + seq!['\n']);
    }
}

proof fn lemma_joined_from_cons(x: Seq<char>, rest: Seq<Seq<char>>)
    ensures
        joined_from(seq![x] + rest, 0) == x + seq!['\n'] + joined_from(rest, 0),
    decreases rest.len(),
{
    let whole = seq![x] + rest;
    assert(whole[0] == x);
    assert(joined_from(whole, 0) == x + seq!['\n'] + joined_from(whole, 1));
    lemma_joined_from_shift(whole, rest, 1);
}

proof fn lemma_joined_from_shift(whole: Seq<Seq<char>>, rest: Seq<Seq<char>>, k: int)
    requires
        0 <= k,
        whole.len() == rest.len() + k,
        forall|j: int| 0 <= j < rest.len() ==> whole[j + k] == rest[j],
    ensures
        joined_from(whole, k) == joined_from(rest, 0),
    decreases rest.len(),
{
    if rest.len() == 0 {
    } else {
        assert(whole[k] == rest[0]);
        assert(forall|j: int| 0 <= j < rest.drop_first().len() ==> whole[j + (k + 1)]
            == rest.drop_first()[j]);
        lemma_joined_from_shift(whole, rest.drop_first(), k + 1);
        lemma_joined_from_shift(rest, rest.drop_first(), 1);
        assert(joined_from(whole, k) =~= joined_from(rest, 0));
    }
}

/// Reassembly, at the level of one split file: the bodies of the parts
/// a file is finally split into concatenate to the file's rendered
/// text followed by one newline — no line is dropped, duplicated or
/// reordered.
pub proof fn lemma_file_parts_reassemble(text: Seq<char>, path: Seq<char>, max: nat, esc: bool)
    ensures
        concat_all(file_parts(split_lines_s(text), path, max, esc)) == text + seq!['\n'],
{
    lemma_split_fix_reassemble(split_lines_s(text), path, max, esc, 1, 16);
    lemma_split_lines_join(text, 0, Seq::empty());
    assert(text.subrange(0, text.len() as int) =~= text);
    assert(Seq::<char>::empty() + text + seq!['\n'] =~= text + seq!['\n']);
}

/// The blocks the packer emits for one file: its whole block when that
/// fits the budget, else one wrapped block per part.
pub open spec fn file_blocks(f: FileModel, max: nat, esc: bool) -> Seq<BlockModel> {
    let block = whole_block_of(f.path, f.contents, esc);
    let btok = token_count_of(block);
    if btok <= max {
        seq![BlockModel { xml: block, tokens: btok }]
    } else {
        let lines = split_lines_s(text_of(f.contents, esc));
        let parts = file_parts(lines, f.path, max, esc);
        let pc: nat = if parts.len() == 0 {
            1
        } else {
            parts.len()
        };
        wrapped_parts_of(f.path, parts, pc, esc)
    }
}

/// All blocks of the given bodies, in order.
pub open spec fn bodies_blocks(bodies: Seq<BodyModel>) -> Seq<BlockModel>
    decreases bodies.len(),
{
    if bodies.len() == 0 {
        Seq::empty()
    } else {
        bodies.first().blocks + bodies_blocks(bodies.drop_first())
    }
}

proof fn lemma_bodies_blocks_push(bodies: Seq<BodyModel>, b: BodyModel)
    ensures
        bodies_blocks(bodies.push(b)) == bodies_blocks(bodies) + b.blocks,
    decreases bodies.len(),
{
    if bodies.len() == 0 {
        assert(bodies.push(b).drop_first() =~= Seq::<BodyModel>::empty());
        assert(bodies.push(b).first() == b);
        assert(bodies_blocks(Seq::<BodyModel>::empty()) =~= Seq::<BlockModel>::empty());
        assert(bodies_blocks(bodies) =~= Seq::<BlockModel>::empty());
        assert(bodies_blocks(bodies.push(b)) =~= bodies_blocks(bodies) + b.blocks);
    } else {
        assert(bodies.push(b).drop_first() =~= bodies.drop_first().push(b));
        assert(bodies.push(b).first() == bodies.first());
        lemma_bodies_blocks_push(bodies.drop_first(), b);
        assert(bodies_blocks(bodies.push(b)) =~= bodies_blocks(bodies) + b.blocks);
    }
}

/// All blocks of a packer state: the closed bodies' blocks, then the
/// open body's.
pub open spec fn state_blocks(st: PackModel) -> Seq<BlockModel> {
    bodies_blocks(st.bodies) + st.cur
}

/// The blocks of all files, in order.
pub open spec fn all_file_blocks(files: Seq<FileModel>, max: nat, esc: bool) -> Seq<BlockModel>
    decreases files.len(),
{
    if files.len() == 0 {
        Seq::empty()
    } else {
        all_file_blocks(files.drop_last(), max, esc) + file_blocks(files.last(), max, esc)
    }
}

proof fn lemma_singles_blocks(ws: Seq<BlockModel>, k: int)
    requires
        0 <= k <= ws.len(),
    ensures
        bodies_blocks(
            Seq::new(k as nat, |j: int| BodyModel { blocks: seq![ws[j]], tokens: ws[j].tokens }),
        ) == ws.take(k),
    decreases k,
{
    let singles = Seq::new(k as nat, |j: int| BodyModel { blocks: seq![ws[j]], tokens: ws[j].tokens });
    if k == 0 {
        assert(bodies_blocks(singles) =~= ws.take(0));
    } else {
        let prev = Seq::new(
            (k - 1) as nat,
            |j: int| BodyModel { blocks: seq![ws[j]], tokens: ws[j].tokens },
        );
        lemma_singles_blocks(ws, k - 1);
        assert(singles =~= prev.push(BodyModel { blocks: seq![ws[k - 1]], tokens: ws[k - 1].tokens }));
        lemma_bodies_blocks_push(
            prev,
            BodyModel { blocks: seq![ws[k - 1]], tokens: ws[k - 1].tokens },
        );
        assert(bodies_blocks(singles) =~= ws.take(k));
    }
}

proof fn lemma_pack_step_blocks(st: PackModel, f: FileModel, max: nat, esc: bool)
    ensures
        state_blocks(pack_step(st, f, max, esc)) == state_blocks(st) + file_blocks(f, max, esc),
{
    let st2 = pack_step(st, f, max, esc);
    let block = whole_block_of(f.path, f.contents, esc);
    let btok = token_count_of(block);
    let bm = BlockModel { xml: block, tokens: btok };
    if st.cur_tok + btok <= max {
        assert(state_blocks(st2) =~= state_blocks(st) + file_blocks(f, max, esc));
    } else if btok <= max {
        if st.cur.len() > 0 {
            lemma_bodies_blocks_push(st.bodies, BodyModel { blocks: st.cur, tokens: st.cur_tok });
        }
        assert(state_blocks(st2) =~= state_blocks(st) + file_blocks(f, max, esc));
    } else {
        let lines = split_lines_s(text_of(f.contents, esc));
        let parts = file_parts(lines, f.path, max, esc);
        let pc: nat = if parts.len() == 0 {
            1
        } else {
            parts.len()
        };
        let ws = wrapped_parts_of(f.path, parts, pc, esc);
        if ws.len() == 0 {
            assert(file_blocks(f, max, esc) =~= Seq::<BlockModel>::empty());
            assert(state_blocks(st2) =~= state_blocks(st) + file_blocks(f, max, esc));
        } else {
            let singles = Seq::new(
                (ws.len() - 1) as nat,
                |j: int| BodyModel { blocks: seq![ws[j]], tokens: ws[j].tokens },
            );
            if st.cur.len() > 0 {
                lemma_bodies_blocks_push(
                    st.bodies,
                    BodyModel { blocks: st.cur, tokens: st.cur_tok },
                );
            }
            lemma_bodies_blocks_concat(close_cur(st), singles);
            lemma_singles_blocks(ws, ws.len() as int - 1);
            assert(ws.take(ws.len() - 1).push(ws[ws.len() - 1]) =~= ws);
            assert(state_blocks(st2) =~= state_blocks(st) + ws);
            assert(file_blocks(f, max, esc) == ws);
        }
    }
}

proof fn lemma_bodies_blocks_concat(a: Seq<BodyModel>, b: Seq<BodyModel>)
    ensures
        bodies_blocks(a + b) == bodies_blocks(a) + bodies_blocks(b),
    decreases a.len(),
{
    if a.len() == 0 {
        assert(a + b =~= b);
        assert(bodies_blocks(a) + bodies_blocks(b) =~= bodies_blocks(b));
    } else {
        assert((a + b).drop_first() =~= a.drop_first() + b);
        assert((a + b).first() == a.first());
        lemma_bodies_blocks_concat(a.drop_first(), b);
        assert(bodies_blocks(a + b) =~= bodies_blocks(a) + bodies_blocks(b));
    }
}

proof fn lemma_pack_blocks_rec(files: Seq<FileModel>, i: int, max: nat, esc: bool)
    requires
        0 <= i <= files.len(),
    ensures
        state_blocks(pack_files_rec(files, i, max, esc)) == all_file_blocks(
            files.take(i),
            max,
            esc,
        ),
    decreases i,
{
    if i == 0 {
        assert(state_blocks(pack_files_rec(files, 0, max, esc)) =~= Seq::<BlockModel>::empty());
        assert(all_file_blocks(files.take(0), max, esc) =~= Seq::<BlockModel>::empty());
    } else {
        lemma_pack_blocks_rec(files, i - 1, max, esc);
        lemma_pack_step_blocks(pack_files_rec(files, i - 1, max, esc), files[i - 1], max, esc);
        assert(files.take(i).drop_last() =~= files.take(i - 1));
        assert(files.take(i).last() == files[i - 1]);
        assert(all_file_blocks(files.take(i), max, esc) == all_file_blocks(files.take(i - 1), max,
            esc) + file_blocks(files[i - 1], max, esc));
    }
}

/// Parts accounting and block attribution: the packer emits exactly the
/// blocks of each file, in file order; each file's metadata records the
/// number of blocks emitted for it; and every part block of a split
/// file declares its one-based position over that same recorded total.
pub proof fn lemma_parts_accounting(files: Seq<FileModel>, max: nat, esc: bool)
    ensures
        bodies_blocks(packed_bodies(files, max, esc)) == all_file_blocks(files, max, esc),
        packed_metas(files, max, esc).len() == files.len(),
        forall|i: int|
            0 <= i < files.len() ==> {
                let m = #[trigger] packed_metas(files, max, esc)[i];
                let f = files[i];
                &&& m.id == i
                &&& m.path == f.path
                &&& m.parts == (if token_count_of(whole_block_of(f.path, f.contents, esc)) <= max {
                    1nat
                } else {
                    let parts = file_parts(split_lines_s(text_of(f.contents, esc)), f.path, max,
                        esc);
                    if parts.len() == 0 {
                        1nat
                    } else {
                        parts.len()
                    }
                })
                &&& (token_count_of(whole_block_of(f.path, f.contents, esc)) > max ==> file_blocks(
                    f,
                    max,
                    esc,
                ) == wrapped_parts_of(
                    f.path,
                    file_parts(split_lines_s(text_of(f.contents, esc)), f.path, max, esc),
                    m.parts,
                    esc,
                ))
            },
    decreases files.len(),
{
    lemma_pack_blocks_rec(files, files.len() as int, max, esc);
    assert(files.take(files.len() as int) =~= files);
    let st = pack_files_rec(files, files.len() as int, max, esc);
    if st.cur.len() > 0 {
        lemma_bodies_blocks_push(st.bodies, BodyModel { blocks: st.cur, tokens: st.cur_tok });
        assert(bodies_blocks(packed_bodies(files, max, esc)) =~= state_blocks(st));
    } else {
        assert(bodies_blocks(packed_bodies(files, max, esc)) =~= state_blocks(st));
    }
    lemma_packed_metas_shape(files, files.len() as int, max, esc);
}

proof fn lemma_packed_metas_shape(files: Seq<FileModel>, i: int, max: nat, esc: bool)
    requires
        0 <= i <= files.len(),
    ensures
        pack_files_rec(files, i, max, esc).metas.len() == i,
        forall|k: int|
            0 <= k < i ==> {
                let m = #[trigger] pack_files_rec(files, i, max, esc).metas[k];
                let f = files[k];
                &&& m.id == k
                &&& m.path == f.path
                &&& m.parts == (if token_count_of(whole_block_of(f.path, f.contents, esc)) <= max {
                    1nat
                } else {
                    let parts = file_parts(split_lines_s(text_of(f.contents, esc)), f.path, max,
                        esc);
                    if parts.len() == 0 {
                        1nat
                    } else {
                        parts.len()
                    }
                })
            },
    decreases i,
{
    if i > 0 {
        lemma_packed_metas_shape(files, i - 1, max, esc);
    }
}

/// Budget, at the packer level: every chunk body that holds more than
/// one block stays within the budget; only a single-block body may
/// exceed it.
pub proof fn lemma_budget(files: Seq<FileModel>, max: nat, esc: bool)
    ensures
        forall|i: int|
            0 <= i < packed_bodies(files, max, esc).len() ==> (#[trigger] packed_bodies(
                files,
                max,
                esc,
            )[i]).tokens <= max || packed_bodies(files, max, esc)[i].blocks.len() == 1,
{
    lemma_budget_rec(files, files.len() as int, max, esc);
    let st = pack_files_rec(files, files.len() as int, max, esc);
    assert(forall|i: int|
        0 <= i < close_cur(st).len() ==> (#[trigger] close_cur(st)[i]).tokens <= max || close_cur(
            st,
        )[i].blocks.len() == 1);
}

proof fn lemma_budget_rec(files: Seq<FileModel>, i: int, max: nat, esc: bool)
    requires
        0 <= i <= files.len(),
    ensures
        ({
            let st = pack_files_rec(files, i, max, esc);
            &&& (forall|k: int|
                0 <= k < st.bodies.len() ==> (#[trigger] st.bodies[k]).tokens <= max
                    || st.bodies[k].blocks.len() == 1)
            &&& (st.cur.len() >= 2 ==> st.cur_tok <= max)
            &&& (st.cur.len() == 0 ==> st.cur_tok == 0)
        }),
    decreases i,
{
    if i > 0 {
        lemma_budget_rec(files, i - 1, max, esc);
    }
}

/// The texts of a chunk list.
pub open spec fn chunk_xmls(chunks: Seq<ChunkModel>) -> Seq<Seq<char>> {
    chunks.map(|i: int, c: ChunkModel| c.xml)
}

proof fn lemma_blocks_xml_concat(a: Seq<BlockModel>, b: Seq<BlockModel>)
    ensures
        blocks_xml(a + b) == blocks_xml(a) + blocks_xml(b),
{
    assert(blocks_xml(a + b) =~= blocks_xml(a) + blocks_xml(b));
}

proof fn lemma_bodies_xml(bodies: Seq<BodyModel>)
    ensures
        concat_all(chunk_xmls(body_chunks_of(bodies))) == concat_all(
            blocks_xml(bodies_blocks(bodies)),
        ),
    decreases bodies.len(),
{
    if bodies.len() == 0 {
        assert(chunk_xmls(body_chunks_of(bodies)) =~= Seq::<Seq<char>>::empty());
        assert(blocks_xml(bodies_blocks(bodies)) =~= Seq::<Seq<char>>::empty());
    } else {
        let rest = bodies.drop_last();
        let last = bodies.last();
        lemma_bodies_xml(rest);
        assert(chunk_xmls(body_chunks_of(bodies)) =~= chunk_xmls(body_chunks_of(rest)).push(
            concat_all(blocks_xml(last.blocks)),
        ));
        crate::strutil::lemma_concat_all_push(
            chunk_xmls(body_chunks_of(rest)),
            concat_all(blocks_xml(last.blocks)),
        );
        assert(rest.push(last) =~= bodies);
        lemma_bodies_blocks_push(rest, last);
        lemma_blocks_xml_concat(bodies_blocks(rest), last.blocks);
        lemma_concat_all_append(blocks_xml(bodies_blocks(rest)), blocks_xml(last.blocks));
        assert(concat_all(chunk_xmls(body_chunks_of(bodies))) =~= concat_all(
            blocks_xml(bodies_blocks(bodies)),
        ));
    }
}

/// Reassembly, at the chunk level: with a positive budget, the chunk
/// texts concatenate to the rendered blocks of all files, in file and
/// part order — nothing is dropped, duplicated or reordered between
/// chunks.
pub proof fn lemma_chunk_reassembly(files: Seq<FileModel>, max: nat, esc: bool)
    requires
        max >= 1,
    ensures
        concat_all(chunk_xmls(spec_chunks(files, max, esc))) == concat_all(
            blocks_xml(all_file_blocks(files, max, esc)),
        ),
{
    lemma_bodies_xml(packed_bodies(files, max, esc));
    lemma_parts_accounting(files, max, esc);
}

/// Idempotence: two runs over identical inputs and limit yield
/// identical chunk lists and identical metadata.
pub proof fn lemma_idempotent(
    files: Seq<FileModel>,
    max: nat,
    esc: bool,
    chunks1: Seq<ChunkModel>,
    metas1: Seq<MetaModel>,
    chunks2: Seq<ChunkModel>,
    metas2: Seq<MetaModel>,
)
    requires
        chunks1 == spec_chunks(files, max, esc),
        metas1 == spec_metas(files, max, esc),
        chunks2 == spec_chunks(files, max, esc),
        metas2 == spec_metas(files, max, esc),
    ensures
        chunks1 == chunks2,
        metas1 == metas2,
{
}

proof fn lemma_no_splittable(
    chunks: Seq<ChunkModel>,
    bodies: Seq<BodyModel>,
    cfg: nat,
    i: int,
    j: int,
)
    requires
        0 <= i <= j,
        first_splittable_from(chunks, bodies, cfg, i) is None,
    ensures
        !splittable_at(chunks, bodies, cfg, j),
    decreases j - i,
{
    if i < j {
        if i < chunks.len() {
            lemma_no_splittable(chunks, bodies, cfg, i + 1, j);
        }
    }
}

proof fn lemma_any_oversize_exists(
    chunks: Seq<ChunkModel>,
    bodies: Seq<BodyModel>,
    cfg: nat,
    i: int,
)
    requires
        0 <= i,
    ensures
        any_oversize_upto(chunks, bodies, cfg, i) == exists|k: int|
            0 <= k < i && oversize_single_at(chunks, bodies, cfg, k),
    decreases i,
{
    if i > 0 {
        lemma_any_oversize_exists(chunks, bodies, cfg, i - 1);
    }
}

proof fn lemma_inner_settled(
    bodies: Seq<BodyModel>,
    metas: Seq<MetaModel>,
    cfg: nat,
    eff: nat,
    esc: bool,
    git: GitStatus,
    ts: Seq<char>,
    splits: nat,
    max_blocks: nat,
    can_shrink: bool,
    bs: Seq<BodyModel>,
)
    requires
        splits <= max_blocks,
        inner_rec(bodies, metas, cfg, eff, esc, git, ts, splits, max_blocks, can_shrink)
            == InnerOutcome::Settled(bs, false),
    ensures
        pass_decision(bs, metas, cfg, eff, esc, git, ts) == PassDecision::Done(
            header_flag(bs, metas, cfg, esc, git, ts),
            oversize_flag(bs, metas, cfg, esc, git, ts),
        ),
    decreases max_blocks - splits,
{
    match pass_decision(bodies, metas, cfg, eff, esc, git, ts) {
        PassDecision::Split(b) => {
            if splits + 1 <= max_blocks {
                lemma_inner_settled(
                    do_split(bodies, b),
                    metas,
                    cfg,
                    eff,
                    esc,
                    git,
                    ts,
                    splits + 1,
                    max_blocks,
                    can_shrink,
                    bs,
                );
            }
        },
        PassDecision::Shrink(_) => {},
        PassDecision::Done(_, _) => {},
    }
}

proof fn lemma_outer_settled(
    files: Seq<FileModel>,
    cfg: nat,
    esc: bool,
    git: GitStatus,
    ts: Seq<char>,
    eff: nat,
    attempt: nat,
)
    requires
        attempt <= 7,
    ensures
        ({
            let out = outer_rec(files, cfg, esc, git, ts, eff, attempt);
            !out.non_convergence ==> pass_decision(out.bodies, out.metas, cfg, out.eff, esc, git,
                ts) == PassDecision::Done(
                header_flag(out.bodies, out.metas, cfg, esc, git, ts),
                oversize_flag(out.bodies, out.metas, cfg, esc, git, ts),
            )
        }),
    decreases 8 - attempt,
{
    let bodies = packed_bodies(files, eff, esc);
    let metas = packed_metas(files, eff, esc);
    let mb = total_blocks_from(bodies, 0, 0);
    match inner_rec(bodies, metas, cfg, eff, esc, git, ts, 0, mb, attempt < 7) {
        InnerOutcome::Settled(bs2, nc2) => {
            if !nc2 {
                lemma_inner_settled(bodies, metas, cfg, eff, esc, git, ts, 0, mb, attempt < 7,
                    bs2);
            }
        },
        InnerOutcome::Shrunk(l) => {
            if attempt < 7 {
                lemma_outer_settled(files, cfg, esc, git, ts, l, attempt + 1);
            }
        },
    }
}

/// Budget, at the delivered level: when the convergence loop settles
/// without hitting a ceiling, no delivered snippet of a chunk holding
/// several blocks exceeds the configured limit; a chunk may exceed it
/// only when it holds a single indivisible block, and then the
/// oversize warning flag is raised; an oversize header raises the
/// header warning flag; and hitting a ceiling raises the
/// non-convergence flag in the returned warnings.
pub proof fn lemma_budget_delivered(
    files: Seq<FileModel>,
    cfg: nat,
    esc: bool,
    git: GitStatus,
    ts: Seq<char>,
)
    ensures
        ({
            let out = spec_converge(files, cfg, esc, git, ts);
            let cs = final_chunks(out.bodies, out.metas, cfg, esc, git, ts);
            &&& (!out.non_convergence ==> forall|i: int|
                1 <= i < cs.len() ==> (#[trigger] cs[i]).tokens <= cfg
                    || out.bodies[i - 1].blocks.len() <= 1)
            &&& ((exists|i: int|
                1 <= i < cs.len() && (#[trigger] cs[i]).tokens > cfg && out.bodies[i
                    - 1].blocks.len() == 1) ==> oversize_flag(out.bodies, out.metas, cfg, esc,
                git, ts))
            &&& header_flag(out.bodies, out.metas, cfg, esc, git, ts) == (cs[0].tokens > cfg)
        }),
{
    lemma_outer_settled(files, cfg, esc, git, ts, cfg, 0);
    let out = spec_converge(files, cfg, esc, git, ts);
    let pc = pass_chunks(out.bodies, out.metas, cfg, esc, git, ts);
    let cs = final_chunks(out.bodies, out.metas, cfg, esc, git, ts);
    assert(cs.len() == pc.len());
    if !out.non_convergence {
        assert(pass_decision(out.bodies, out.metas, cfg, out.eff, esc, git, ts)
            == PassDecision::Done(
            header_flag(out.bodies, out.metas, cfg, esc, git, ts),
            oversize_flag(out.bodies, out.metas, cfg, esc, git, ts),
        ));
        assert(first_splittable_from(pc, out.bodies, cfg, 0) is None);
        assert forall|i: int| 1 <= i < cs.len() implies (#[trigger] cs[i]).tokens <= cfg
            || out.bodies[i - 1].blocks.len() <= 1 by {
            lemma_no_splittable(pc, out.bodies, cfg, 0, i);
            assert(cs[i].tokens == snip_tok(pc, i));
        }
    }
    lemma_any_oversize_exists(pc, out.bodies, cfg, pc.len() as int);
    assert forall|i: int|
        1 <= i < cs.len() && (#[trigger] cs[i]).tokens > cfg && out.bodies[i - 1].blocks.len()
            == 1 implies oversize_flag(out.bodies, out.metas, cfg, esc, git, ts) by {
        assert(cs[i].tokens == snip_tok(pc, i));
        assert(oversize_single_at(pc, out.bodies, cfg, i));
    }
    assert(cs[0].tokens == snip_tok(pc, 0));
}

proof fn lemma_bodies_blocks_single(b: BodyModel)
    ensures
        bodies_blocks(seq![b]) == b.blocks,
{
    assert(seq![b].drop_first() =~= Seq::<BodyModel>::empty());
    assert(bodies_blocks(Seq::<BodyModel>::empty()) =~= Seq::<BlockModel>::empty());
    assert(bodies_blocks(seq![b]) =~= b.blocks);
}

/// Detaching a body's last block into a body of its own moves no block:
/// the flattened block sequence is unchanged.
pub proof fn lemma_do_split_blocks(bodies: Seq<BodyModel>, b: int)
    requires
        0 <= b < bodies.len(),
        bodies[b].blocks.len() >= 1,
    ensures
        bodies_blocks(do_split(bodies, b)) == bodies_blocks(bodies),
{
    let pre = bodies.take(b);
    let mid = bodies[b];
    let suf = bodies.skip(b + 1);
    let last = mid.blocks.last();
    let upd = BodyModel {
        blocks: mid.blocks.drop_last(),
        tokens: sat_sub(mid.tokens, last.tokens),
    };
    let single = BodyModel { blocks: seq![last], tokens: last.tokens };
    assert(bodies =~= pre + seq![mid] + suf);
    assert(do_split(bodies, b) =~~= pre + seq![upd] + seq![single] + suf);
    lemma_bodies_blocks_concat(pre + seq![mid], suf);
    lemma_bodies_blocks_concat(pre, seq![mid]);
    lemma_bodies_blocks_single(mid);
    lemma_bodies_blocks_concat(pre + seq![upd] + seq![single], suf);
    lemma_bodies_blocks_concat(pre + seq![upd], seq![single]);
    lemma_bodies_blocks_concat(pre, seq![upd]);
    lemma_bodies_blocks_single(upd);
    lemma_bodies_blocks_single(single);
    assert(upd.blocks + single.blocks =~= mid.blocks);
    assert(bodies_blocks(do_split(bodies, b)) =~= bodies_blocks(bodies));
}

proof fn lemma_inner_blocks(
    bodies: Seq<BodyModel>,
    metas: Seq<MetaModel>,
    cfg: nat,
    eff: nat,
    esc: bool,
    git: GitStatus,
    ts: Seq<char>,
    splits: nat,
    max_blocks: nat,
    can_shrink: bool,
    bs: Seq<BodyModel>,
    nc: bool,
)
    requires
        splits <= max_blocks,
        inner_rec(bodies, metas, cfg, eff, esc, git, ts, splits, max_blocks, can_shrink)
            == InnerOutcome::Settled(bs, nc),
    ensures
        bodies_blocks(bs) == bodies_blocks(bodies),
    decreases max_blocks - splits,
{
    match pass_decision(bodies, metas, cfg, eff, esc, git, ts) {
        PassDecision::Split(b) => {
            if splits + 1 <= max_blocks {
                let pc = pass_chunks(bodies, metas, cfg, esc, git, ts);
                lemma_first_splittable_bounds(pc, bodies, cfg, 0);
                lemma_do_split_blocks(bodies, b);
                lemma_inner_blocks(
                    do_split(bodies, b),
                    metas,
                    cfg,
                    eff,
                    esc,
                    git,
                    ts,
                    splits + 1,
                    max_blocks,
                    can_shrink,
                    bs,
                    nc,
                );
            }
        },
        PassDecision::Shrink(_) => {},
        PassDecision::Done(_, _) => {},
    }
}

proof fn lemma_outer_blocks(
    files: Seq<FileModel>,
    cfg: nat,
    esc: bool,
    git: GitStatus,
    ts: Seq<char>,
    eff: nat,
    attempt: nat,
)
    requires
        attempt <= 7,
    ensures
        ({
            let out = outer_rec(files, cfg, esc, git, ts, eff, attempt);
            bodies_blocks(out.bodies) == all_file_blocks(files, out.eff, esc)
        }),
    decreases 8 - attempt,
{
    let bodies = packed_bodies(files, eff, esc);
    let metas = packed_metas(files, eff, esc);
    let mb = total_blocks_from(bodies, 0, 0);
    match inner_rec(bodies, metas, cfg, eff, esc, git, ts, 0, mb, attempt < 7) {
        InnerOutcome::Settled(bs, nc) => {
            lemma_inner_blocks(bodies, metas, cfg, eff, esc, git, ts, 0, mb, attempt < 7, bs, nc);
            lemma_parts_accounting(files, eff, esc);
        },
        InnerOutcome::Shrunk(l) => {
            if attempt < 7 {
                lemma_outer_blocks(files, cfg, esc, git, ts, l, attempt + 1);
            } else {
                lemma_parts_accounting(files, eff, esc);
            }
        },
    }
}

/// Reassembly, at the delivered level: the chunks the convergence loop
/// settles on carry, past the header chunk, exactly the blocks of every
/// file under the settled effective budget, in file and part order —
/// splitting a chunk never drops, duplicates or reorders a block, even
/// when a ceiling is hit.
pub proof fn lemma_delivered_reassembly(
    files: Seq<FileModel>,
    cfg: nat,
    esc: bool,
    git: GitStatus,
    ts: Seq<char>,
)
    ensures
        ({
            let out = spec_converge(files, cfg, esc, git, ts);
            &&& bodies_blocks(out.bodies) == all_file_blocks(files, out.eff, esc)
            &&& concat_all(
                chunk_xmls(final_chunks(out.bodies, out.metas, cfg, esc, git, ts)).skip(1),
            ) == concat_all(blocks_xml(all_file_blocks(files, out.eff, esc)))
        }),
{
    lemma_outer_blocks(files, cfg, esc, git, ts, cfg, 0);
    let out = spec_converge(files, cfg, esc, git, ts);
    let cs = final_chunks(out.bodies, out.metas, cfg, esc, git, ts);
    assert(chunk_xmls(cs).skip(1) =~= chunk_xmls(body_chunks_of(out.bodies)));
    lemma_bodies_xml(out.bodies);
}

/// Disabled chunking: with a budget of zero there is exactly one chunk,
/// holding every file's whole block in order, and every file counts one
/// part.
pub proof fn lemma_disabled_chunking(files: Seq<FileModel>, esc: bool)
    ensures
        spec_chunks(files, 0, esc).len() == 1,
        spec_chunks(files, 0, esc)[0].xml == zero_chunk_xml(files, esc),
        spec_metas(files, 0, esc).len() == files.len(),
        forall|i: int| 0 <= i < files.len() ==> (#[trigger] spec_metas(files, 0, esc)[i]).parts
            == 1,
{
}

} // verus!
