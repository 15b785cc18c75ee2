//! On-wire snippet assembly: the boundary markers wrapped around each
//! chunk before it is delivered.

use vstd::prelude::*;
use vstd::string::*;
use crate::chunker::{Chunk, ChunkModel, chunks_view};
use crate::strutil::{dec_string, spec_dec};

verus! {

/// The continuation marker emitted after every chunk but the last.
pub open spec fn more_marker(rem: nat) -> Seq<char> {
    "<more remaining=\""@ + spec_dec(rem) + "\"/>\n"@
}

/// The on-wire snippet of the chunk at `idx`: the header chunk is
/// emitted as stored; a body chunk is wrapped in its `context-chunk`
/// container; the last snippet closes the shared context, every other
/// one carries the continuation marker.
pub open spec fn snippet_of(chunks: Seq<ChunkModel>, idx: int) -> Seq<char> {
    let total = chunks.len() as int;
    let rem = if total >= idx + 1 {
        total - idx - 1
    } else {
        0
    };
    if idx == 0 {
        if rem > 0 {
            chunks[0].xml + more_marker(rem as nat)
        } else {
            chunks[0].xml + "</shared-context>\n"@
        }
    } else {
        let open = "<context-chunk id=\""@ + spec_dec(idx as nat) + "/"@ + spec_dec(total as nat)
            + "\">\n"@;
        if rem > 0 {
            open + chunks[idx].xml + "</context-chunk>\n"@ + more_marker(rem as nat)
        } else {
            open + chunks[idx].xml + "</context-chunk>\n</shared-context>\n"@
        }
    }
}

/// The snippet of the header chunk alone, without a closing tag: what
/// multi-step mode hands out first.
pub open spec fn header_snippet_of(chunks: Seq<ChunkModel>) -> Seq<char> {
    if chunks.len() == 0 {
        Seq::empty()
    } else if chunks.len() > 1 {
        chunks[0].xml + more_marker((chunks.len() - 1) as nat)
    } else {
        chunks[0].xml
    }
}

fn append_more_marker(s: &mut String, rem: usize)
    ensures
        final(s)@ == old(s)@ + more_marker(rem as nat),
{
    s.append("<more remaining=\"");
    let d = dec_string(rem);
    s.append(d.as_str());
    s.append("\"/>\n");
    proof {
        assert(s@ =~= old(s)@ + more_marker(rem as nat));
    }
}

/// Formats the header chunk for delivery without closing the shared
/// context.
pub fn format_header_snippet(chunks: &Vec<Chunk>) -> (r: String)
    ensures
        r@ == header_snippet_of(chunks_view(chunks@)),
{
    if chunks.len() == 0 {
        let r = String::new();
        proof {
            assert(r@ =~= header_snippet_of(chunks_view(chunks@)));
        }
        return r;
    }
    let first: &Chunk = &chunks[0];
    let mut s = first.xml.clone();
    proof {
        assert(chunks_view(chunks@)[0] == chunks@[0]@);
    }
    let rem = chunks.len() - 1;
    if rem > 0 {
        append_more_marker(&mut s, rem);
    }
    proof {
        assert(s@ =~= header_snippet_of(chunks_view(chunks@)));
    }
    s
}

/// Formats the chunk at `idx` for delivery, with its boundary markers.
pub fn format_chunk_snippet(chunks: &Vec<Chunk>, idx: usize) -> (r: String)
    requires
        idx < chunks@.len(),
    ensures
        r@ == snippet_of(chunks_view(chunks@), idx as int),
{
    let ghost cv = chunks_view(chunks@);
    let total = chunks.len();
    let rem = total - idx - 1;
    proof {
        assert(cv[idx as int] == chunks@[idx as int]@);
        assert(cv[0] == chunks@[0]@);
    }
    if idx == 0 {
        let c0: &Chunk = &chunks[0];
        let mut s = c0.xml.clone();
        if rem > 0 {
            append_more_marker(&mut s, rem);
        } else {
            s.append("</shared-context>\n");
        }
        proof {
            assert(s@ =~= snippet_of(cv, idx as int));
        }
        s
    } else {
        let mut s = String::new();
        s.append("<context-chunk id=\"");
        let d_idx = dec_string(idx);
        s.append(d_idx.as_str());
        s.append("/");
        let d_total = dec_string(total);
        s.append(d_total.as_str());
        s.append("\">\n");
        let c: &Chunk = &chunks[idx];
        s.append(c.xml.as_str());
        if rem > 0 {
            s.append("</context-chunk>\n");
            append_more_marker(&mut s, rem);
        } else {
            s.append("</context-chunk>\n</shared-context>\n");
        }
        proof {
            assert(s@ =~= snippet_of(cv, idx as int));
        }
        s
    }
}

} // verus!
