use context_gather::config::{Cli, Config, DEFAULT_MODEL_CONTEXT};
use context_gather::stream::{format_file_snippet, next_chunk_index, select_by_glob};
use context_gather::tokenizer::Tokenizer;
use context_gather::types::FileContents;
use context_gather::ui_filter::filtered_files;
use context_gather::ui_state::{adjust_scroll_and_slice, clamp_selection, UiState};

fn base_cli() -> Cli {
    Cli {
        paths: vec![".".to_string()],
        interactive: false,
        no_clipboard: true,
        stdout: true,
        max_size: 1024,
        exclude: vec![],
        model_context: None,
        no_model_context: false,
        tokenizer_model: None,
        chunk_size: None,
        chunk_index: None,
        multi_step: false,
        git_info: false,
        escape_xml: false,
    }
}

// A negative chunk index means none; the model context falls back to
// its default and can be switched off.
#[test]
fn config_mappings() {
    let mut cli = base_cli();
    cli.chunk_index = Some(-1);
    let c = Config::from_cli(cli);
    assert_eq!(c.chunk_index, None);
    assert_eq!(c.model_context, Some(DEFAULT_MODEL_CONTEXT));

    let mut cli = base_cli();
    cli.chunk_index = Some(2);
    cli.model_context = Some(1000);
    let c = Config::from_cli(cli);
    assert_eq!(c.chunk_index, Some(2));
    assert_eq!(c.model_context, Some(1000));

    let mut cli = base_cli();
    cli.no_model_context = true;
    cli.model_context = Some(1000);
    let c = Config::from_cli(cli);
    assert_eq!(c.model_context, None);
}

#[test]
fn clamp_selection_cases() {
    let mut sel: usize = 5;
    let mut off: usize = 3;
    clamp_selection(&mut sel, &mut off, 0);
    assert_eq!((sel, off), (0, 0));

    let mut sel: usize = 10;
    let mut off: usize = 9;
    clamp_selection(&mut sel, &mut off, 4);
    assert_eq!((sel, off), (3, 3));

    let mut sel: usize = 1;
    let mut off: usize = 0;
    clamp_selection(&mut sel, &mut off, 4);
    assert_eq!((sel, off), (1, 0));
}

#[test]
fn adjust_scroll_cases() {
    // Selection above the window scrolls up.
    let mut sel: usize = 2;
    let mut off: usize = 5;
    let (start, end) = adjust_scroll_and_slice(&mut sel, &mut off, 3, 10);
    assert_eq!((start, end), (2, 5));

    // Selection below the window scrolls down just enough.
    let mut sel: usize = 7;
    let mut off: usize = 0;
    let (start, end) = adjust_scroll_and_slice(&mut sel, &mut off, 3, 10);
    assert_eq!((start, end), (5, 8));

    // The visible range is clipped to the data length.
    let mut sel: usize = 1;
    let mut off: usize = 0;
    let (start, end) = adjust_scroll_and_slice(&mut sel, &mut off, 10, 4);
    assert_eq!((start, end), (0, 4));
}

#[test]
fn selected_paths_keeps_checked_in_order() {
    let state = UiState {
        items: vec![
            ("a".to_string(), true),
            ("b".to_string(), false),
            ("c".to_string(), true),
        ],
        item_display: vec![],
        ext_counts: vec![],
        search_input: String::new(),
        extension_mode: false,
        extension_items: vec![],
        extension_search: String::new(),
        ext_selected_idx: 0,
        ext_scroll_offset: 0,
        reset_ext_on_toggle: false,
        saved_search_input: String::new(),
        selected_idx: 0,
        scroll_offset: 0,
    };
    assert_eq!(
        state.selected_paths(),
        vec!["a".to_string(), "c".to_string()]
    );
}

#[test]
fn glob_selection_picks_matching_files() {
    let files = vec![
        FileContents {
            folder: "src".to_string(),
            path: "src/a.rs".to_string(),
            contents: String::new(),
        },
        FileContents {
            folder: ".".to_string(),
            path: "b.txt".to_string(),
            contents: String::new(),
        },
    ];
    let ids = select_by_glob(&files, "*.txt").expect("valid pattern");
    assert_eq!(ids, vec![1]);
    let ids = select_by_glob(&files, "src/*.rs").expect("valid pattern");
    assert_eq!(ids, vec![0]);
    assert!(select_by_glob(&files, "[").is_none());
}

#[test]
fn file_snippet_is_exact() {
    let f = FileContents {
        folder: "d".to_string(),
        path: "d/a.txt".to_string(),
        contents: "body".to_string(),
    };
    let s = format_file_snippet(3, &f, false);
    assert_eq!(
        s,
        "<file-contents id=\"3\" path=\"d/a.txt\" name=\"a.txt\">\nbody\n</file-contents>\n"
    );
}

#[test]
fn next_chunk_wraps_around() {
    assert_eq!(next_chunk_index(0, 3), 1);
    assert_eq!(next_chunk_index(2, 3), 0);
}

// The token counter assigns zero tokens to the empty text and a
// positive count to real text; identical text counts identically.
#[test]
fn token_counter_basics() {
    let tok = Tokenizer::new().expect("tokenizer");
    assert_eq!(tok.count(""), 0);
    let a = tok.count("some text to count");
    let b = tok.count("some text to count");
    assert_eq!(a, b);
    assert!(a >= 1);
}

// Fuzzy filtering: an empty search keeps everything in list order; a
// real search keeps only matching entries.
#[test]
fn fuzzy_filtering_behaviour() {
    let mut state = UiState {
        items: vec![],
        item_display: vec![
            "src/alpha.rs".to_string(),
            "notes.txt".to_string(),
            "src/beta.rs".to_string(),
        ],
        ext_counts: vec![],
        search_input: String::new(),
        extension_mode: false,
        extension_items: vec![],
        extension_search: String::new(),
        ext_selected_idx: 0,
        ext_scroll_offset: 0,
        reset_ext_on_toggle: false,
        saved_search_input: String::new(),
        selected_idx: 0,
        scroll_offset: 0,
    };
    assert_eq!(filtered_files(&state), vec![0, 1, 2]);
    state.search_input = "alpha".to_string();
    let hits = filtered_files(&state);
    assert!(hits.contains(&0), "alpha entry must match");
    assert!(!hits.contains(&1), "notes.txt must not match 'alpha'");
}

// The picker constructor checks preselected paths, tallies extensions
// in first-seen order, and sorts the extensions list by count, highest
// first, ties by name; extensionless and hidden names count nothing.
#[test]
fn ui_state_new_builds_state() {
    let paths: Vec<String> = vec![
        "src/a.rs".to_string(),
        "src/b.rs".to_string(),
        "notes.txt".to_string(),
        "x.md".to_string(),
        "README".to_string(),
        ".hidden".to_string(),
    ];
    let display = paths.clone();
    let pre = vec!["src/b.rs".to_string()];
    let s = UiState::new(paths, display, &pre);
    let checked: Vec<bool> = s.items.iter().map(|(_, c)| *c).collect();
    assert_eq!(checked, vec![false, true, false, false, false, false]);
    assert_eq!(
        s.ext_counts,
        vec![
            (".rs".to_string(), 2),
            (".txt".to_string(), 1),
            (".md".to_string(), 1),
        ]
    );
    let exts: Vec<String> = s.extension_items.iter().map(|(e, _)| e.clone()).collect();
    assert_eq!(
        exts,
        vec![".rs".to_string(), ".md".to_string(), ".txt".to_string()]
    );
    assert!(s.extension_items.iter().all(|(_, on)| !on));
    assert!(s.reset_ext_on_toggle);
}
