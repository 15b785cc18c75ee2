use context_gather::header::GitStatus;
use context_gather::output::format_chunk_snippet;
use context_gather::pipeline::Pipeline;
use context_gather::tokenizer::{count_tokens, Tokenizer};
use context_gather::types::FileContents;

const TS: &str = "2024-01-02T03:04:05Z";

fn tok() -> Tokenizer {
    Tokenizer::new().expect("tokenizer")
}

#[test]
fn gather_token_count_is_stable() {
    let tok = tok();
    let n = count_tokens(&tok, "hello world");
    assert_eq!(n, 2);
}

// Zero input files with chunking enabled: exactly one chunk, whose
// snippet closes the shared context and holds no body chunk and no
// file block.
#[test]
fn zero_files_header_only() {
    let tok = tok();
    let mut p = Pipeline::new();
    p.set_file_data(vec![]);
    let w = p.build_chunks_with_header(50, false, false, &GitStatus::Disabled, TS, &tok);
    assert!(!w.non_convergence);
    assert_eq!(p.chunks().len(), 1);
    let snippet = format_chunk_snippet(p.chunks(), 0);
    assert!(snippet.ends_with("</shared-context>\n"));
    assert!(!snippet.contains("<context-chunk id="));
    assert!(!snippet.contains("<file-contents"));
}

// Every emitted body snippet stays within the configured budget when
// the blocks are splittable.
#[test]
fn chunked_snippets_respect_budget() {
    let tok = tok();
    let mut p = Pipeline::new();
    let files: Vec<FileContents> = (0..6)
        .map(|i| FileContents {
            folder: ".".to_string(),
            path: format!("f{i}.txt"),
            contents: "tok tok tok tok\n".repeat(8),
        })
        .collect();
    p.set_file_data(files);
    let limit = 120;
    let warnings = p.build_chunks_with_header(limit, false, false, &GitStatus::Disabled, TS, &tok);
    assert!(!warnings.non_convergence);
    assert!(p.chunks().len() >= 2);
    for idx in 1..p.chunks().len() {
        let snippet = format_chunk_snippet(p.chunks(), idx);
        let t = tok.count(&snippet);
        assert!(
            warnings.oversize_chunks || t <= limit,
            "snippet {idx} exceeded the budget without a warning: {t} > {limit}"
        );
    }
}

// Multi-step mode emits the header chunk alone.
#[test]
fn multi_step_emits_header_only() {
    let tok = tok();
    let mut p = Pipeline::new();
    p.set_file_data(vec![FileContents {
        folder: ".".to_string(),
        path: "a.txt".to_string(),
        contents: "hello".to_string(),
    }]);
    let w = p.build_chunks_with_header(0, false, true, &GitStatus::Disabled, TS, &tok);
    assert!(!w.header_oversize && !w.oversize_chunks && !w.non_convergence);
    assert_eq!(p.chunks().len(), 1);
    assert!(p.chunks()[0].xml.contains("available for context retrieval"));
    assert_eq!(p.metas().len(), 1);
    assert_eq!(p.metas()[0].parts, 1);
}

// Exclusion patterns: a matching pattern removes the file; an invalid
// lone pattern is an error; an invalid pattern beside a valid one is
// ignored.
#[test]
fn exclude_patterns() {
    let mut p = Pipeline::new();
    p.set_expanded_paths(String::new(), vec![]);
    p.set_candidate_files(vec!["a.txt".to_string(), "b.rs".to_string()]);
    let r = p.apply_excludes(&vec!["*.txt".to_string()]);
    assert!(r.is_ok());
    assert_eq!(p.candidate_files(), &vec!["b.rs".to_string()]);

    let mut p = Pipeline::new();
    p.set_candidate_files(vec!["a.txt".to_string()]);
    let r = p.apply_excludes(&vec!["[".to_string()]);
    let err = r.expect_err("lone invalid pattern must fail");
    assert_eq!(err.patterns, vec!["[".to_string()]);
    assert_eq!(p.candidate_files(), &vec!["a.txt".to_string()]);

    // The reported patterns are the slash-normalised inputs, in order.
    let mut p = Pipeline::new();
    p.set_candidate_files(vec!["a.txt".to_string()]);
    let r = p.apply_excludes(&vec!["[a\\b".to_string(), "[".to_string()]);
    let err = r.expect_err("no pattern compiles");
    assert_eq!(err.patterns, vec!["[a/b".to_string(), "[".to_string()]);

    let mut p = Pipeline::new();
    p.set_candidate_files(vec!["a.txt".to_string(), "b.rs".to_string()]);
    let r = p.apply_excludes(&vec!["[".to_string(), "*.rs".to_string()]);
    assert!(r.is_ok());
    assert_eq!(p.candidate_files(), &vec!["a.txt".to_string()]);
}

// Exclusion matches the root-relative form of a candidate.
#[test]
fn exclude_relative_to_root() {
    let mut p = Pipeline::new();
    p.set_expanded_paths("/repo".to_string(), vec![]);
    p.set_candidate_files(vec![
        "/repo/target/out.txt".to_string(),
        "/repo/src/a.rs".to_string(),
    ]);
    let r = p.apply_excludes(&vec!["target/*".to_string()]);
    assert!(r.is_ok());
    assert_eq!(p.candidate_files(), &vec!["/repo/src/a.rs".to_string()]);
}

// Preselection keeps exactly the candidates lying under a user path,
// including exact matches.
#[test]
fn preselection_by_user_paths() {
    let mut p = Pipeline::new();
    p.set_expanded_paths("/r".to_string(), vec!["/r/src".to_string()]);
    p.set_candidate_files(vec![
        "/r/src/a.rs".to_string(),
        "/r/other/b.rs".to_string(),
        "/r/src".to_string(),
        "/r/srcx/c.rs".to_string(),
    ]);
    p.compute_preselected();
    assert_eq!(
        p.preselected_paths(),
        &vec!["/r/src/a.rs".to_string(), "/r/src".to_string()]
    );
}

// The single-document output is stored by the pipeline.
#[test]
fn pipeline_builds_xml() {
    let tok = tok();
    let mut p = Pipeline::new();
    p.set_file_data(vec![FileContents {
        folder: ".".to_string(),
        path: "a.txt".to_string(),
        contents: "payload".to_string(),
    }]);
    p.build_xml(false, &tok);
    let xml = p.xml_output().expect("xml built");
    assert!(xml.contains("payload"));
    assert!(xml.starts_with("<shared-context>\n"));
}
