use context_gather::chunker::Chunk;
use context_gather::output::{format_chunk_snippet, format_header_snippet};

fn two_chunks() -> Vec<Chunk> {
    vec![
        Chunk {
            index: 0,
            xml: "HDR\n".to_string(),
            tokens: 5,
        },
        Chunk {
            index: 1,
            xml: "BODY\n".to_string(),
            tokens: 3,
        },
    ]
}

// A middle header snippet carries the continuation marker with the
// exact remaining count.
#[test]
fn header_snippet_with_remainder() {
    let chunks = two_chunks();
    let s = format_header_snippet(&chunks);
    assert_eq!(s, "HDR\n<more remaining=\"1\"/>\n");
}

// A lone header snippet is the chunk text itself, unclosed.
#[test]
fn header_snippet_alone() {
    let chunks = vec![Chunk {
        index: 0,
        xml: "HDR\n".to_string(),
        tokens: 5,
    }];
    let s = format_header_snippet(&chunks);
    assert_eq!(s, "HDR\n");
}

#[test]
fn header_snippet_empty() {
    let chunks: Vec<Chunk> = vec![];
    let s = format_header_snippet(&chunks);
    assert_eq!(s, "");
}

// The first chunk's full snippet closes the context when it is alone,
// and carries the marker otherwise.
#[test]
fn chunk_snippet_header_cases() {
    let chunks = two_chunks();
    let s = format_chunk_snippet(&chunks, 0);
    assert_eq!(s, "HDR\n<more remaining=\"1\"/>\n");
    let only = vec![Chunk {
        index: 0,
        xml: "HDR\n".to_string(),
        tokens: 5,
    }];
    let s = format_chunk_snippet(&only, 0);
    assert_eq!(s, "HDR\n</shared-context>\n");
}

// A body chunk is wrapped in its container with its one-based position
// over the total, and the last one closes the context.
#[test]
fn chunk_snippet_body_cases() {
    let chunks = two_chunks();
    let s = format_chunk_snippet(&chunks, 1);
    assert_eq!(
        s,
        "<context-chunk id=\"1/2\">\nBODY\n</context-chunk>\n</shared-context>\n"
    );
    let mut three = two_chunks();
    three.push(Chunk {
        index: 2,
        xml: "TAIL\n".to_string(),
        tokens: 2,
    });
    let s = format_chunk_snippet(&three, 1);
    assert_eq!(
        s,
        "<context-chunk id=\"1/3\">\nBODY\n</context-chunk>\n<more remaining=\"1\"/>\n"
    );
}
