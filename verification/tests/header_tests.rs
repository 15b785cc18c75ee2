use context_gather::chunker::FileMeta;
use context_gather::header::{make_header, make_header_now, GitStatus};

const TS: &str = "2024-01-02T03:04:05Z";

#[test]
fn header_header_reports_totals_correctly() {
    let metas = vec![
        FileMeta {
            id: 0,
            path: "a.rs".to_string(),
            tokens: 10,
            parts: 1,
        },
        FileMeta {
            id: 1,
            path: "b.rs".to_string(),
            tokens: 20,
            parts: 2,
        },
    ];
    let hdr = make_header(5, 40000, &metas, false, false, &GitStatus::Disabled, TS);
    assert!(hdr.contains(r#"total-chunks="5""#));
    assert!(hdr.contains(r#"total-files="2""#));
    assert!(hdr.contains(r#"id="1" path="b.rs" tokens="20" parts="2""#));
}

#[test]
fn test_git_info_included() {
    let metas = vec![FileMeta {
        id: 0,
        path: "a.rs".to_string(),
        tokens: 10,
        parts: 1,
    }];
    let git = GitStatus::Available {
        branch: Some("main".to_string()),
        commits: vec!["add feature".to_string(), "fix bug".to_string()],
        changed: vec![],
        diff_ok: true,
    };
    let hdr = make_header(1, 100, &metas, false, false, &git, TS);
    assert!(
        hdr.contains("<git-info branch=\""),
        "git-info branch tag missing"
    );
    assert!(hdr.contains("</git-info>"), "git-info closing tag missing");
    let commit_count = hdr.matches("<commit>").count();
    assert!(
        commit_count >= 1,
        "Expected at least one <commit> entry, got {}",
        commit_count
    );
}

// The multi-step header advertises on-demand retrieval; the chunked
// header asks for a READY acknowledgement.
#[test]
fn instructions_differ_by_mode() {
    let metas: Vec<FileMeta> = vec![];
    let multi = make_header(1, 0, &metas, true, false, &GitStatus::Disabled, TS);
    assert!(multi.contains("available for context retrieval"));
    let chunked = make_header(3, 50, &metas, false, false, &GitStatus::Disabled, TS);
    assert!(chunked.contains("reply \"READY\""));
    assert!(chunked.contains("split into 3 chunks"));
}

// The timestamp handed in is inserted verbatim.
#[test]
fn generated_at_is_verbatim() {
    let metas: Vec<FileMeta> = vec![];
    let hdr = make_header(1, 10, &metas, false, false, &GitStatus::Disabled, TS);
    assert!(hdr.contains(r#"generated-at="2024-01-02T03:04:05Z""#));
}

// An unavailable repository leaves placeholder comments; a disabled one
// leaves nothing.
#[test]
fn git_placeholders() {
    let metas: Vec<FileMeta> = vec![];
    let off = make_header(1, 10, &metas, false, false, &GitStatus::Disabled, TS);
    assert!(!off.contains("git"));
    let unavailable = make_header(1, 10, &metas, false, false, &GitStatus::Unavailable, TS);
    assert!(unavailable.contains("<!-- git info unavailable -->"));
    assert!(unavailable.contains("<!-- git diff unavailable -->"));
}

// Changed files are listed under the diff section.
#[test]
fn changed_files_listed() {
    let metas: Vec<FileMeta> = vec![];
    let git = GitStatus::Available {
        branch: Some("dev".to_string()),
        commits: vec![],
        changed: vec!["src/a.rs".to_string()],
        diff_ok: true,
    };
    let hdr = make_header(1, 10, &metas, false, false, &git, TS);
    assert!(hdr.contains("<changed-files diffed-against=\"origin/main\">"));
    assert!(hdr.contains("    <file>src/a.rs</file>"));
}

// The self-stamping variant carries a generated-at attribute from the
// clock.
#[test]
fn header_now_carries_timestamp() {
    let metas: Vec<FileMeta> = vec![];
    let hdr = make_header_now(1, 10, &metas, false, false, &GitStatus::Disabled);
    assert!(hdr.contains("generated-at=\""));
    assert!(!hdr.contains("generated-at=\"\""));
}
