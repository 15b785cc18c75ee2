use context_gather::chunker::build_chunks;
use context_gather::tokenizer::Tokenizer;
use context_gather::types::FileContents;

fn tok() -> Tokenizer {
    Tokenizer::new().expect("tokenizer")
}

fn make_file(id: usize, repeat: usize) -> FileContents {
    FileContents {
        folder: ".".to_string(),
        path: format!("file{id}.txt"),
        contents: "tok ".repeat(repeat),
    }
}

#[test]
fn chunker_header_token_math() {
    let tok = tok();
    let files = vec![FileContents {
        folder: String::new(),
        path: "dummy.txt".to_string(),
        contents: "hello world\n".repeat(10),
    }];
    let (chunks, metas) = build_chunks(&files, 1000, false, &tok);
    let xml_all: String = chunks.iter().map(|c| c.xml.clone()).collect();
    let total_tokens = tok.count(&xml_all);
    let sum_meta: usize = metas.iter().map(|m| m.tokens).sum();
    assert!(
        sum_meta <= total_tokens,
        "Sum of file.tokens should be <= total tokens ({sum_meta} <= {total_tokens})"
    );
}

#[test]
fn no_limit_yields_single_chunk() {
    let tok = tok();
    let files = vec![make_file(0, 10), make_file(1, 5)];
    let (chunks, meta) = build_chunks(&files, 0, false, &tok);
    assert_eq!(chunks.len(), 1);
    assert_eq!(meta.len(), 2);
    assert!(chunks[0].tokens >= 15);
}

#[test]
fn split_across_two_chunks() {
    let tok = tok();
    let path = "file0.txt".to_string();
    let name = "file0.txt";
    let contents = "x\n".repeat(200);
    let file_block = format!(
        "    <file-contents path=\"{}\" name=\"{}\">\n{}\n    </file-contents>\n",
        path, name, contents
    );
    let file_tok = tok.count(&file_block);
    let limit = (file_tok / 4).max(1);
    let file = FileContents {
        folder: ".".to_string(),
        path,
        contents,
    };
    let (chunks, meta) = build_chunks(&vec![file], limit, false, &tok);
    assert!(chunks.len() >= 2);
    assert!(meta[0].parts >= 2);
}

#[test]
fn oversize_file_line_split_keeps_order() {
    let tok = tok();
    let content = (1..=30).map(|n| format!("line{n}\n")).collect::<String>();
    let f = FileContents {
        folder: ".".to_string(),
        path: "big.txt".to_string(),
        contents: content.clone(),
    };
    let (chunks, _) = build_chunks(&vec![f], 50, false, &tok);
    let joined: String = chunks.iter().map(|c| c.xml.clone()).collect();
    for n in 1..=30 {
        assert!(joined.contains(&format!("line{n}")), "missing line{n}");
    }
}

#[test]
fn part_counts_match_output() {
    let tok = tok();
    let content = "line\n".repeat(200);
    let f = FileContents {
        folder: ".".to_string(),
        path: "big.txt".to_string(),
        contents: content,
    };
    let (chunks, meta) = build_chunks(&vec![f], 50, false, &tok);
    let joined: String = chunks.iter().map(|c| c.xml.clone()).collect();
    let mut parts: Vec<(usize, usize)> = Vec::new();
    for segment in joined.split("part=\"").skip(1) {
        if let Some(raw) = segment.split('"').next() {
            let mut iter = raw.split('/');
            if let (Some(idx), Some(total)) = (iter.next(), iter.next()) {
                if let (Ok(idx), Ok(total)) = (idx.parse::<usize>(), total.parse::<usize>()) {
                    parts.push((idx, total));
                }
            }
        }
    }
    assert!(!parts.is_empty(), "expected split parts to be present");
    let total = parts[0].1;
    assert!(parts.iter().all(|(_, t)| *t == total));
    let max_idx = parts.iter().map(|(i, _)| *i).max().unwrap();
    assert_eq!(max_idx, total);
    assert_eq!(meta[0].parts, total);
}

// Two small files under a generous budget end up in one chunk body,
// each counting a single part.
#[test]
fn two_small_files_share_one_chunk() {
    let tok = tok();
    let files = vec![make_file(0, 10), make_file(1, 5)];
    let (chunks, metas) = build_chunks(&files, 1000, false, &tok);
    assert_eq!(chunks.len(), 1);
    assert_eq!(metas.len(), 2);
    assert_eq!(metas[0].parts, 1);
    assert_eq!(metas[1].parts, 1);
}

// A file whose block alone exceeds the budget is split; every part
// carries the same declared total, the metadata records it, and the
// part chunks stay within the budget.
#[test]
fn oversize_file_splits_within_budget() {
    let tok = tok();
    let content = "tok tok tok tok tok tok tok tok\n".repeat(20);
    let f = FileContents {
        folder: ".".to_string(),
        path: "big.txt".to_string(),
        contents: content,
    };
    let limit = 60;
    let (chunks, metas) = build_chunks(&vec![f], limit, false, &tok);
    assert!(metas[0].parts >= 2, "expected a split, got {}", metas[0].parts);
    assert_eq!(chunks.len(), metas[0].parts);
    for c in &chunks {
        assert!(
            c.tokens <= limit,
            "part chunk exceeded the budget: {} > {limit}",
            c.tokens
        );
    }
}

// Reassembly: with chunking disabled and no escaping, the single
// chunk's text carries each file's contents verbatim, in order.
#[test]
fn disabled_chunking_reassembles_contents() {
    let tok = tok();
    let files = vec![
        FileContents {
            folder: "a".to_string(),
            path: "a/x.txt".to_string(),
            contents: "alpha beta\ngamma".to_string(),
        },
        FileContents {
            folder: "b".to_string(),
            path: "b/y.txt".to_string(),
            contents: "delta".to_string(),
        },
    ];
    let (chunks, metas) = build_chunks(&files, 0, false, &tok);
    assert_eq!(chunks.len(), 1);
    assert_eq!(metas.len(), 2);
    assert!(metas.iter().all(|m| m.parts == 1));
    let xml = &chunks[0].xml;
    let pos_a = xml.find("alpha beta\ngamma").expect("first file present");
    let pos_b = xml.find("delta").expect("second file present");
    assert!(pos_a < pos_b, "file order must be kept");
    assert!(!xml.contains("part=\""), "no split with chunking disabled");
}

// Reassembly across a split: concatenating all chunk texts and
// stripping the wrappers yields the original lines in order with
// nothing dropped or duplicated.  Each line, including the final empty
// one, is closed by a newline, so the stripped body is the text plus
// one trailing newline.
#[test]
fn split_reassembles_exactly() {
    let tok = tok();
    let content: String = (1..=40).map(|n| format!("ln{n:03}\n")).collect();
    let f = FileContents {
        folder: ".".to_string(),
        path: "big.txt".to_string(),
        contents: content.clone(),
    };
    let (chunks, _) = build_chunks(&vec![f], 40, false, &tok);
    let joined: String = chunks.iter().map(|c| c.xml.clone()).collect();
    let mut body = String::new();
    for piece in joined.split("\">\n").skip(1) {
        let end = piece.find("    </file-contents>").expect("closing tag");
        body.push_str(&piece[..end]);
    }
    assert_eq!(body, format!("{content}\n"));
}

// Idempotence: identical inputs and limit produce identical chunks and
// metadata across repeated runs.
#[test]
fn repeated_runs_are_identical() {
    let tok = tok();
    let files = vec![
        make_file(0, 12),
        FileContents {
            folder: ".".to_string(),
            path: "big.txt".to_string(),
            contents: "word word word word\n".repeat(15),
        },
    ];
    let (c1, m1) = build_chunks(&files, 70, false, &tok);
    let (c2, m2) = build_chunks(&files, 70, false, &tok);
    assert_eq!(c1.len(), c2.len());
    for (a, b) in c1.iter().zip(c2.iter()) {
        assert_eq!(a.index, b.index);
        assert_eq!(a.xml, b.xml);
        assert_eq!(a.tokens, b.tokens);
    }
    assert_eq!(m1.len(), m2.len());
    for (a, b) in m1.iter().zip(m2.iter()) {
        assert_eq!((a.id, &a.path, a.tokens, a.parts), (b.id, &b.path, b.tokens, b.parts));
    }
}
