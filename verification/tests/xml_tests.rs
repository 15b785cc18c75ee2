use context_gather::tokenizer::Tokenizer;
use context_gather::types::FileContents;
use context_gather::xml_output::{build_xml, build_xml_with_escape};

fn tok() -> Tokenizer {
    Tokenizer::new().expect("tokenizer")
}

#[test]
fn groups_by_folder_and_contains_contents() {
    let tok = tok();
    let files = vec![
        FileContents {
            folder: "src".to_string(),
            path: "src/main.rs".to_string(),
            contents: "fn main(){}".to_string(),
        },
        FileContents {
            folder: "tests".to_string(),
            path: "tests/foo.rs".to_string(),
            contents: "assert!(true);".to_string(),
        },
    ];
    let xml = build_xml(&files, &tok);
    assert!(xml.contains(r#"<folder path="src">"#));
    assert!(xml.contains(r#"<folder path="tests">"#));
    assert!(xml.contains("fn main(){}"));
    assert!(xml.contains("assert!(true);"));
}

#[test]
fn escape_xml_rewrites_special_chars() {
    let tok = tok();
    let files = vec![FileContents {
        folder: "src".to_string(),
        path: "src/main.rs".to_string(),
        contents: "if a < b && b > c { println!(\"&\"); }".to_string(),
    }];
    let xml = build_xml_with_escape(&files, true, &tok);
    assert!(xml.contains("&lt;"));
    assert!(xml.contains("&gt;"));
    assert!(xml.contains("&amp;"));
    assert!(!xml.contains("if a < b && b > c"));
}

// The empty folder is displayed as `.`, and consecutive files of one
// folder share one group.
#[test]
fn empty_folder_shows_as_dot() {
    let tok = tok();
    let files = vec![
        FileContents {
            folder: String::new(),
            path: "a.txt".to_string(),
            contents: "one".to_string(),
        },
        FileContents {
            folder: String::new(),
            path: "b.txt".to_string(),
            contents: "two".to_string(),
        },
    ];
    let xml = build_xml(&files, &tok);
    assert!(xml.contains(r#"<folder path=".">"#));
    assert_eq!(xml.matches("<folder path=").count(), 1);
    assert_eq!(xml.matches("</folder>").count(), 1);
}

// An attribute value holding a quote is escaped even with escaping off,
// so the container stays well-formed; the body is left raw.
#[test]
fn attribute_with_quote_is_escaped_without_escaping() {
    let tok = tok();
    let files = vec![FileContents {
        folder: "d".to_string(),
        path: "d/we\"ird.txt".to_string(),
        contents: "raw < body".to_string(),
    }];
    let xml = build_xml(&files, &tok);
    assert!(xml.contains("we&quot;ird.txt"));
    assert!(xml.contains("raw < body"));
}

// The document frame is exact: opening tag, file map with the file
// count, and the closing tag at the end.
#[test]
fn document_frame_is_exact() {
    let tok = tok();
    let files = vec![FileContents {
        folder: "f".to_string(),
        path: "f/a.txt".to_string(),
        contents: "hi".to_string(),
    }];
    let xml = build_xml(&files, &tok);
    assert!(xml.starts_with("<shared-context>\n  <file-map total-files=\"1\">\n"));
    assert!(xml.ends_with("</shared-context>\n"));
    assert!(xml.contains(r#"    <file id="0" path="f/a.txt" tokens="1" parts="1"/>"#));
}
