use book_renewer::book::{
    build_format_prompt, integrate_page, is_skip_page, page_count, parse_first_h1,
    strip_markdown_fence, Episode,
};
use book_renewer::document::{CHAPTER_IMPORT, MAIN_TYP_BOILERPLATE};
use book_renewer::document::{chapter_text, include_directive, main_typ_text, validation_source};
use book_renewer::document::VALIDATION_BOILERPLATE;

#[test]
fn episode_file_name_is_zero_padded() {
    assert_eq!(Episode::new(7, "a".to_string()).file_name(), "episode_007.typ");
    assert_eq!(Episode::new(0, "a".to_string()).file_name(), "episode_000.typ");
    assert_eq!(Episode::new(42, "a".to_string()).file_name(), "episode_042.typ");
    assert_eq!(Episode::new(1234, "a".to_string()).file_name(), "episode_1234.typ");
}

#[test]
fn new_episode_is_empty() {
    let e = Episode::new(3, "בראשית".to_string());
    assert_eq!(e.name, "בראשית");
    assert_eq!(e.content, "");
    assert!(e.pages.is_empty());
    assert_eq!(e.index, 3);
}

#[test]
fn append_page_trims_joins_and_records_pages_once() {
    let mut e = Episode::new(1, "n".to_string());
    e.append_page(4, "  first \n");
    assert_eq!(e.content, "first");
    assert_eq!(e.pages, vec![4]);
    e.append_page(4, "\tsecond");
    assert_eq!(e.content, "first\n\nsecond");
    assert_eq!(e.pages, vec![4]);
    e.append_page(5, " \u{3000}\n ");
    assert_eq!(e.content, "first\n\nsecond");
    assert_eq!(e.pages, vec![4]);
    e.append_page(5, "third\u{a0}");
    assert_eq!(e.content, "first\n\nsecond\n\nthird");
    assert_eq!(e.pages, vec![4, 5]);
}

#[test]
fn episode_file_text_lists_pages() {
    let mut e = Episode::new(1, "n".to_string());
    e.append_page(3, "a");
    e.append_page(10, "b");
    assert_eq!(
        e.file_text(),
        format!("{CHAPTER_IMPORT}// pdf-pages: 3, 10\n\na\n\nb")
    );
    let empty = Episode::new(2, "m".to_string());
    assert_eq!(empty.file_text(), format!("{CHAPTER_IMPORT}// pdf-pages: \n\n"));
}

#[test]
fn strip_markdown_fence_cases() {
    assert_eq!(strip_markdown_fence("```typst\n= A\nbody\n```".to_string()), "= A\nbody");
    assert_eq!(strip_markdown_fence("  ```typst\nbody".to_string()), "body");
    assert_eq!(
        strip_markdown_fence("Here you go:\n```typst\n= A\n```\nthanks".to_string()),
        "= A"
    );
    assert_eq!(strip_markdown_fence("prefix ```typst body".to_string()), "body");
    assert_eq!(strip_markdown_fence("  plain text \n".to_string()), "plain text");
    assert_eq!(strip_markdown_fence("```typst a ``` b ```".to_string()), "a ``` b");
}

#[test]
fn parse_first_h1_cases() {
    assert_eq!(parse_first_h1("intro\n= בראשית \nmore\n= נח"), Some("בראשית".to_string()));
    assert_eq!(parse_first_h1("== sub\ntext"), None);
    assert_eq!(parse_first_h1("=x\n"), None);
    assert_eq!(parse_first_h1("= \r\n"), Some("".to_string()));
    assert_eq!(parse_first_h1("a\r\n= Noah\r\n"), Some("Noah".to_string()));
    assert_eq!(parse_first_h1(""), None);
}

#[test]
fn build_format_prompt_first_page() {
    assert_eq!(
        build_format_prompt("RAW", None, "ignored"),
        "Here is raw text extracted from a book. Please format it as Typst code according to the style guide in your instructions. Do not include any other commentary, only the Typst code.\n\nRAW"
    );
}

#[test]
fn build_format_prompt_mid_episode() {
    assert_eq!(
        build_format_prompt("RAW", Some("NAME"), "TYP"),
        "You are currently mid-episode ('NAME'). Here is the Typst content accumulated so far for this episode:\n\n```typst\nTYP\n```\n\nHere is the raw text from the next page. Determine whether it continues the current episode or begins a new one, and format accordingly per your instructions. If the page is blank or irrelevant, output only `// SKIP`.\n\nRaw text:\n\nRAW"
    );
}

#[test]
fn skip_pages() {
    assert!(is_skip_page("  // SKIP"));
    assert!(is_skip_page("// SKIP blank page"));
    assert!(!is_skip_page("text\n// SKIP"));
    assert!(!is_skip_page(""));
}

#[test]
fn page_count_from_pdfinfo() {
    let info = "Title:          Book\nPages:          42\nEncrypted:      no\n";
    assert_eq!(page_count(info), 42);
    assert_eq!(page_count("Pages: 7\r\n"), 7);
    assert_eq!(page_count("Title: x\n"), 0);
    assert_eq!(page_count("Pages:\n"), 0);
    assert_eq!(page_count("Pages: many\n"), 0);
    assert_eq!(page_count("Pages: +9"), 9);
    assert_eq!(page_count("Pages: 99999999999999999999999"), 0);
    assert_eq!(page_count("Size: 1\nPages: 3\nPages: 5"), 3);
}

struct Run {
    counter: usize,
    current: Option<Episode>,
    completed: Vec<Episode>,
}

impl Run {
    fn new() -> Run {
        Run { counter: 0, current: None, completed: Vec::new() }
    }
    fn page(&mut self, page: usize, content: &str) {
        integrate_page(page, content, &mut self.counter, &mut self.current, &mut self.completed);
    }
}

#[test]
fn integrate_starts_and_continues_episodes() {
    let mut run = Run::new();
    run.page(1, "= בראשית\nfirst page");
    assert_eq!(run.counter, 1);
    let cur = run.current.as_ref().unwrap();
    assert_eq!(cur.name, "בראשית");
    assert_eq!(cur.index, 1);
    assert_eq!(cur.pages, vec![1]);
    run.page(2, "more text");
    assert_eq!(run.current.as_ref().unwrap().content, "= בראשית\nfirst page\n\nmore text");
    assert_eq!(run.current.as_ref().unwrap().pages, vec![1, 2]);
    // the same heading again continues the episode
    run.page(3, "= בראשית\nagain");
    assert_eq!(run.counter, 1);
    assert!(run.completed.is_empty());
    // another heading starts a new episode and completes the old one
    run.page(4, "= נח\nnoah");
    assert_eq!(run.counter, 2);
    assert_eq!(run.completed.len(), 1);
    assert_eq!(run.completed[0].name, "בראשית");
    assert_eq!(run.completed[0].pages, vec![1, 2, 3]);
    assert_eq!(run.current.as_ref().unwrap().name, "נח");
    assert_eq!(run.current.as_ref().unwrap().index, 2);
}

#[test]
fn integrate_drops_text_without_heading_or_episode() {
    let mut run = Run::new();
    run.page(1, "no heading here");
    assert_eq!(run.counter, 0);
    assert!(run.current.is_none());
    assert!(run.completed.is_empty());
}

#[test]
fn integrate_splits_at_end_marker() {
    let mut run = Run::new();
    run.page(1, "= A\nend of a\n// END_EPISODE<A>\n= B\nstart of b");
    assert_eq!(run.counter, 2);
    assert_eq!(run.completed.len(), 1);
    assert_eq!(run.completed[0].name, "A");
    assert_eq!(run.completed[0].content, "= A\nend of a");
    assert_eq!(run.completed[0].file_name(), "episode_001.typ");
    let cur = run.current.as_ref().unwrap();
    assert_eq!(cur.name, "B");
    assert_eq!(cur.content, "= B\nstart of b");
    assert_eq!(cur.index, 2);
}

#[test]
fn integrate_marker_without_heading_uses_page_name() {
    let mut run = Run::new();
    run.page(5, "tail text\n// END_EPISODE<x>");
    assert_eq!(run.counter, 1);
    assert!(run.current.is_none());
    assert_eq!(run.completed.len(), 1);
    assert_eq!(run.completed[0].name, "פרק 5");
    assert_eq!(run.completed[0].content, "tail text");
    assert_eq!(run.completed[0].pages, vec![5]);
}

#[test]
fn integrate_marker_completes_current_episode() {
    let mut run = Run::new();
    run.page(1, "= A\nbody");
    run.page(2, "// END_EPISODE<A>");
    assert_eq!(run.counter, 1);
    assert!(run.current.is_none());
    assert_eq!(run.completed.len(), 1);
    assert_eq!(run.completed[0].pages, vec![1]);
    run.page(3, "x // END_EPISODE<> y\n// END_EPISODE<z>\nrest");
    // "x" completes a fallback episode; "rest" has no heading and no episode
    assert_eq!(run.counter, 2);
    assert_eq!(run.completed.len(), 2);
    assert_eq!(run.completed[1].name, "פרק 3");
    assert_eq!(run.completed[1].content, "x");
    assert!(run.current.is_none());
}

#[test]
fn main_typ_includes_episode_files() {
    let files = vec!["episode_001.typ".to_string(), "episode_002.typ".to_string()];
    let lines: Vec<String> = files.iter().map(|f| include_directive(f)).collect();
    assert_eq!(lines[0], "#include \"typst/episode_001.typ\"");
    assert_eq!(
        main_typ_text(&lines),
        format!(
            "{MAIN_TYP_BOILERPLATE}#include \"typst/episode_001.typ\"\n#include \"typst/episode_002.typ\"\n"
        )
    );
    assert_eq!(main_typ_text(&Vec::new()), format!("{MAIN_TYP_BOILERPLATE}\n"));
}

#[test]
fn chapter_and_validation_sources() {
    assert_eq!(chapter_text("= A"), format!("{CHAPTER_IMPORT}= A"));
    assert!(CHAPTER_IMPORT.starts_with("#import \"../utils.typ\": q"));
    assert_eq!(validation_source("= A"), format!("{VALIDATION_BOILERPLATE}\n= A"));
}
