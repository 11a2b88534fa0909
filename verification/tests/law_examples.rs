use book_renewer::book::{integrate_page, strip_markdown_fence, Episode};
use book_renewer::organizer::{fix_json_escaping, is_completed, mark_completed, StatusCache};
use book_renewer::text::{chars_of, decimal_exec, parse_usize_exec, zero_padded_decimal};
use std::collections::HashSet;

#[test]
fn episode_file_names_never_collide() {
    let names: HashSet<String> = (0..2000).map(|i| Episode::new(i, String::new()).file_name()).collect();
    assert_eq!(names.len(), 2000);
}

#[test]
fn decimal_reads_back() {
    for n in [0usize, 1, 9, 10, 99, 100, 12345, usize::MAX] {
        assert_eq!(parse_usize_exec(&decimal_exec(n)), Some(n));
        assert_eq!(parse_usize_exec(&zero_padded_decimal(n, 3)), Some(n));
    }
}

#[test]
fn appending_trimmed_text_is_appending_text() {
    let mut a = Episode::new(1, "n".to_string());
    let mut b = Episode::new(1, "n".to_string());
    a.append_page(2, "  text\n");
    b.append_page(2, "text");
    assert_eq!(a.content, b.content);
    assert_eq!(a.pages, b.pages);
}

#[test]
fn unfenced_reply_is_trimmed() {
    for reply in ["```typst\n  a  \n```", " x ```typst\tb\n``` y", "  c \n"] {
        let r = strip_markdown_fence(reply.to_string());
        assert_eq!(r.trim(), r);
    }
}

#[test]
fn marked_episode_reads_back_completed() {
    let mut cache = StatusCache::new();
    mark_completed(&mut cache, "other", 1, vec![]);
    mark_completed(&mut cache, "A", 2, vec!["p".to_string()]);
    assert!(is_completed(&cache, "A"));
    assert!(is_completed(&cache, "other"));
    assert_eq!(cache.get("other").unwrap().index, 1);
}

#[test]
fn fixing_json_twice_changes_nothing_more() {
    for s in ["{\"k\": \"a\nb\\\\\"}", "\"\\", "[\"\t\r\n\"]\n\t"] {
        let once = fix_json_escaping(s);
        assert_eq!(fix_json_escaping(&once), once);
    }
}

#[test]
fn integration_numbers_episodes_consecutively_and_keeps_completed() {
    let mut counter = 0usize;
    let mut current = None;
    let mut completed: Vec<Episode> = Vec::new();
    let pages = [
        "= A\na",
        "= B\nb // END_EPISODE<B>\n= C\nc",
        "more c",
        "// END_EPISODE<C>\n= D\nd\n// END_EPISODE<D>",
    ];
    for (i, p) in pages.iter().enumerate() {
        let before = completed.len();
        let old_counter = counter;
        integrate_page(i + 1, p, &mut counter, &mut current, &mut completed);
        assert!(completed.len() >= before);
        assert!(counter >= old_counter);
        assert!(counter <= old_counter + chars_of(p).len());
    }
    let indices: Vec<usize> = completed.iter().map(|e| e.index).collect();
    assert_eq!(indices, vec![1, 2, 3]);
    // text before an end marker joins the episode in progress
    let names: Vec<&str> = completed.iter().map(|e| e.name.as_str()).collect();
    assert_eq!(names, vec!["A", "C", "D"]);
    assert_eq!(completed[0].content, "= A\na\n\n= B\nb");
    assert_eq!(completed[1].pages, vec![2, 3]);
    assert!(current.is_none());
    assert_eq!(counter, 3);
}

#[test]
fn numbering_continues_from_a_current_episode_with_the_counter_index() {
    let mut counter = 5usize;
    let mut e = Episode::new(5, "A".to_string());
    e.append_page(9, "= A\ntext");
    let mut current = Some(e);
    let mut completed: Vec<Episode> = Vec::new();
    integrate_page(10, "end // END_EPISODE<A>\n= B\nb\n// END_EPISODE<B>\n= C\nc", &mut counter, &mut current, &mut completed);
    let indices: Vec<usize> = completed.iter().map(|e| e.index).collect();
    assert_eq!(indices, vec![5, 6]);
    assert_eq!(current.as_ref().unwrap().index, 7);
    assert_eq!(counter, 7);
}

#[test]
fn appends_keep_nonblank_texts_and_first_seen_pages() {
    let mut e = Episode::new(1, "n".to_string());
    for (p, t) in [(3usize, " a "), (2, "  "), (2, "b\n"), (3, "\tc"), (4, "")] {
        e.append_page(p, t);
    }
    assert_eq!(e.content, "a\n\nb\n\nc");
    assert_eq!(e.content.trim(), e.content);
    assert_eq!(e.pages, vec![3, 2]);
}
