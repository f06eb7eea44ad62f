use tazk::watch::{
    compile_patterns, matches_any, parent_dir, watch_dirs, FileEventKind, WatchError,
    WatcherState,
};

fn strings(v: &[&str]) -> Vec<String> {
    v.iter().map(|s| s.to_string()).collect()
}

#[test]
fn glob_matching_distinguishes_paths() {
    let pats = compile_patterns(&strings(&["src/*.txt"])).unwrap();
    assert!(matches_any(&pats, "src/notes.txt"));
    assert!(!matches_any(&pats, "src/notes.rs"));
    assert!(!matches_any(&pats, "other/notes.txt"));
}

#[test]
fn bad_pattern_is_rejected_at_setup() {
    let r = compile_patterns(&strings(&["src/*.txt", "a["]));
    match r {
        Err(WatchError::BadPattern(p)) => assert_eq!(p, "a["),
        Ok(_) => panic!("an unclosed character class must not compile"),
    }
}

#[test]
fn parent_dirs_are_derived_from_patterns() {
    assert_eq!(parent_dir("src/*.txt"), "src");
    assert_eq!(parent_dir("*.md"), ".");
    assert_eq!(parent_dir("src/sub/*.rs"), "src/sub");
    assert_eq!(parent_dir("/abs/*.c"), "/abs");
    assert_eq!(parent_dir("/top.c"), "/");
    assert_eq!(parent_dir("src/"), ".");
    assert_eq!(parent_dir("a//b"), "a");
}

#[test]
fn watched_directories_are_distinct_in_first_appearance_order() {
    let dirs = watch_dirs(&strings(&["src/*.txt", "*.md", "src/*.rs", "src/x/*.rs"]));
    assert_eq!(dirs, strings(&["src", ".", "src/x"]));
}

#[test]
fn debounce_accepts_first_drops_close_accepts_late() {
    let pats = compile_patterns(&strings(&["src/*.txt"])).unwrap();
    let mut st = WatcherState::new(500);
    // First matching change triggers.
    assert!(st.on_event(&FileEventKind::Modify, "src/a.txt", &pats, 0));
    // A second change 100 ms later is inside the debounce interval.
    assert!(!st.on_event(&FileEventKind::Modify, "src/a.txt", &pats, 100));
    // A third change 600 ms after the first trigger is accepted again.
    assert!(st.on_event(&FileEventKind::Modify, "src/a.txt", &pats, 600));
}

#[test]
fn irrelevant_kinds_and_foreign_paths_never_trigger() {
    let pats = compile_patterns(&strings(&["src/*.txt"])).unwrap();
    let mut st = WatcherState::new(500);
    assert!(!st.on_event(&FileEventKind::Other, "src/a.txt", &pats, 0));
    assert!(!st.on_event(&FileEventKind::Modify, "doc/a.txt", &pats, 0));
    // Neither dropped event consumed the debounce: a real one still fires.
    assert!(st.on_event(&FileEventKind::Create, "src/a.txt", &pats, 0));
    // Removal is a relevant kind too.
    assert!(st.on_event(&FileEventKind::Remove, "src/a.txt", &pats, 1000));
}
