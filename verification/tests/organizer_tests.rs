use book_renewer::organizer::{
    actions_json, fix_json_escaping, is_completed, mark_completed, resume_index, strip_fences,
    Episode, EpisodeAction, EpisodeStatusEntry, EpisodeStatusKind, GroupingState, OrganizerError,
    StatusCache, next_actions_attempt, ActionsAttempt, ACTION_RETRIES,
};

fn entry(name: &str, status: EpisodeStatusKind, index: usize) -> EpisodeStatusEntry {
    EpisodeStatusEntry { episode_name: name.to_string(), status, index, pages: vec![] }
}

fn new_episode(name: &str, data: &str, topics: &[&str]) -> EpisodeAction {
    EpisodeAction::NewEpisode {
        name: name.to_string(),
        data: data.to_string(),
        new_topics: topics.iter().map(|t| t.to_string()).collect(),
    }
}

fn append(data: &str, topics: &[&str]) -> EpisodeAction {
    EpisodeAction::AppendLastEpisode {
        name: String::new(),
        data: data.to_string(),
        new_topics: topics.iter().map(|t| t.to_string()).collect(),
    }
}

#[test]
fn status_cache_insert_and_get() {
    let mut cache = StatusCache::new();
    assert_eq!(cache.len(), 0);
    cache.insert("A".to_string(), entry("A", EpisodeStatusKind::InProgress, 1));
    cache.insert("B".to_string(), entry("B", EpisodeStatusKind::Completed, 2));
    assert_eq!(cache.len(), 2);
    cache.insert("A".to_string(), entry("A2", EpisodeStatusKind::Completed, 5));
    assert_eq!(cache.len(), 2);
    assert_eq!(cache.get("A").unwrap().episode_name, "A2");
    assert_eq!(cache.get("A").unwrap().index, 5);
    assert!(cache.get("C").is_none());
    assert_eq!(cache.entries().len(), 2);
}

#[test]
fn completion_status() {
    let mut cache = StatusCache::new();
    cache.insert("A".to_string(), entry("A", EpisodeStatusKind::InProgress, 1));
    assert!(!is_completed(&cache, "A"));
    assert!(!is_completed(&cache, "B"));
    mark_completed(&mut cache, "A", 4, vec!["page_1.txt".to_string()]);
    assert!(is_completed(&cache, "A"));
    let e = cache.get("A").unwrap();
    assert_eq!(e.index, 4);
    assert_eq!(e.pages, vec!["page_1.txt".to_string()]);
    assert_eq!(e.status, EpisodeStatusKind::Completed);
    mark_completed(&mut cache, "B", 5, vec![]);
    assert!(is_completed(&cache, "B"));
    assert_eq!(cache.get("B").unwrap().episode_name, "B");
}

#[test]
fn mark_completed_keeps_the_stored_name() {
    let mut cache = StatusCache::new();
    cache.insert("key".to_string(), entry("stored", EpisodeStatusKind::InProgress, 1));
    mark_completed(&mut cache, "key", 2, vec![]);
    assert_eq!(cache.get("key").unwrap().episode_name, "stored");
}

#[test]
fn resume_index_is_highest_completed() {
    let mut cache = StatusCache::new();
    assert_eq!(resume_index(&cache), 0);
    cache.insert("A".to_string(), entry("A", EpisodeStatusKind::Completed, 3));
    cache.insert("B".to_string(), entry("B", EpisodeStatusKind::InProgress, 9));
    cache.insert("C".to_string(), entry("C", EpisodeStatusKind::Completed, 7));
    cache.insert("D".to_string(), entry("D", EpisodeStatusKind::Completed, 2));
    assert_eq!(resume_index(&cache), 7);
}

#[test]
fn strip_fences_cases() {
    assert_eq!(strip_fences("```json\n[1]\n```").ok().unwrap(), "[1]");
    assert_eq!(strip_fences("text ```json [2] ``` more").ok().unwrap(), "[2]");
    assert_eq!(strip_fences("```json [3]").ok().unwrap(), "[3]");
    match strip_fences("  [4]  ") {
        Err(OrganizerError::MissingJsonFence { response }) => assert_eq!(response, "[4]"),
        _ => panic!("expected an error"),
    }
}

#[test]
fn error_messages() {
    let e = OrganizerError::MissingJsonFence { response: "x".to_string() };
    assert_eq!(e.message(), "Response does not contain ```json code fences: x");
    assert_eq!(
        OrganizerError::NoCurrentEpisode.message(),
        "AppendLastEpisode called but no current episode exists"
    );
}

#[test]
fn fix_json_escaping_cases() {
    assert_eq!(fix_json_escaping("{\"a\": \"x\ny\"}"), "{\"a\": \"x\\ny\"}");
    assert_eq!(fix_json_escaping("{\"a\": \"x\ty\r\"}"), "{\"a\": \"x\\ty\\r\"}");
    assert_eq!(fix_json_escaping("[\n1,\t2\n]"), "[\n1,\t2\n]");
    assert_eq!(fix_json_escaping("{\"a\": \"q\\\"\n\"}"), "{\"a\": \"q\\\"\\n\"}");
    assert_eq!(fix_json_escaping("{\"a\": \"x\\ny\"}"), "{\"a\": \"x\\ny\"}");
    assert_eq!(fix_json_escaping(""), "");
}

#[test]
fn fix_json_escaping_is_idempotent_on_example() {
    let once = fix_json_escaping("[{\"data\": \"line one\nline\ttwo \\\" q\r\"}]\n");
    assert_eq!(fix_json_escaping(&once), once);
}

#[test]
fn actions_json_strips_and_fixes() {
    let reply = "```json\n[{\"type\": \"new_episode\", \"data\": \"a\nb\"}]\n```";
    assert_eq!(
        actions_json(reply).ok().unwrap(),
        "[{\"type\": \"new_episode\", \"data\": \"a\\nb\"}]"
    );
    assert!(actions_json("no fence").is_err());
}

#[test]
fn grouping_writes_episodes_in_order() {
    let mut st = GroupingState::new(StatusCache::new());
    assert_eq!(st.episode_counter, 0);
    let input = st.organizer_input("raw".to_string());
    assert!(input.current_episode.is_none());
    assert_eq!(input.new_raw_text, "raw");

    assert!(st.apply_action("page_1.txt", new_episode("A", "a1", &["t1"])).ok().unwrap().is_none());
    assert!(st.apply_action("page_2.txt", append("a2", &["t2"])).ok().unwrap().is_none());
    let cur = st.current_episode.as_ref().unwrap();
    assert_eq!(cur.content, "a1a2");
    assert_eq!(cur.sub_headers, vec!["t1".to_string(), "t2".to_string()]);
    assert_eq!(st.current_episode_pages, vec!["page_1.txt".to_string(), "page_2.txt".to_string()]);
    let input = st.organizer_input("next".to_string());
    assert_eq!(input.current_episode.as_ref().unwrap().content, "a1a2");

    let done = st.apply_action("page_3.txt", new_episode("B", "b1", &[])).ok().unwrap().unwrap();
    assert_eq!(done.index, 1);
    assert_eq!(done.episode.name, "A");
    assert_eq!(st.episode_counter, 1);
    assert!(is_completed(&st.status_cache, "A"));
    let e = st.status_cache.get("A").unwrap();
    assert_eq!(e.index, 1);
    assert_eq!(
        e.pages,
        vec!["page_1.txt".to_string(), "page_2.txt".to_string(), "page_3.txt".to_string()]
    );
    assert_eq!(st.current_episode_pages, vec!["page_3.txt".to_string()]);

    let last = st.finish().unwrap();
    assert_eq!(last.index, 2);
    assert_eq!(last.episode.name, "B");
    assert_eq!(last.episode.content, "b1");
    assert!(st.current_episode.is_none());
    assert!(is_completed(&st.status_cache, "B"));
}

#[test]
fn grouping_skips_completed_episodes() {
    let mut cache = StatusCache::new();
    cache.insert("A".to_string(), entry("A", EpisodeStatusKind::Completed, 4));
    let mut st = GroupingState::new(cache);
    assert_eq!(st.episode_counter, 4);
    assert!(st.apply_action("p1", new_episode("A", "data", &["x"])).ok().unwrap().is_none());
    assert!(st.current_episode_already_completed);
    assert_eq!(st.current_episode.as_ref().unwrap().content, "");
    assert!(st.apply_action("p2", append("more", &[])).ok().unwrap().is_none());
    assert_eq!(st.current_episode.as_ref().unwrap().content, "");
    // the completed episode is not written when the next one starts
    assert!(st.apply_action("p3", new_episode("B", "b", &[])).ok().unwrap().is_none());
    assert_eq!(st.episode_counter, 4);
    let last = st.finish().unwrap();
    assert_eq!(last.index, 5);
    assert_eq!(last.episode.name, "B");
}

#[test]
fn grouping_append_without_episode_fails() {
    let mut st = GroupingState::new(StatusCache::new());
    assert!(matches!(
        st.apply_action("p1", append("x", &[])),
        Err(OrganizerError::NoCurrentEpisode)
    ));
    assert!(st.finish().is_none());
}

#[test]
fn grouping_same_name_again_is_skipped() {
    let mut st = GroupingState::new(StatusCache::new());
    st.apply_action("p1", new_episode("A", "a", &[])).ok().unwrap();
    let done = st.apply_action("p2", new_episode("A", "again", &[])).ok().unwrap().unwrap();
    assert_eq!(done.index, 1);
    assert!(st.current_episode_already_completed);
    assert!(st.finish().is_none());
    assert_eq!(st.episode_counter, 1);
}

#[test]
fn duplicate_copies_episode() {
    let e = Episode { name: "n".to_string(), content: "c".to_string(), sub_headers: vec!["s".to_string()] };
    let d = e.duplicate();
    assert_eq!(d.name, "n");
    assert_eq!(d.content, "c");
    assert_eq!(d.sub_headers, vec!["s".to_string()]);
}

#[test]
fn actions_are_requested_at_most_six_times() {
    assert_eq!(ACTION_RETRIES, 5);
    assert!(matches!(next_actions_attempt(0, false), ActionsAttempt::Done));
    assert!(matches!(next_actions_attempt(5, false), ActionsAttempt::Done));
    assert!(matches!(next_actions_attempt(0, true), ActionsAttempt::Retry));
    assert!(matches!(next_actions_attempt(4, true), ActionsAttempt::Retry));
    assert!(matches!(next_actions_attempt(5, true), ActionsAttempt::GiveUp));
}
