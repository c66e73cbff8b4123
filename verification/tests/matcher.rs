use mcli_core::errors::McliError;
use mcli_core::matcher::{CatalogInput, CommandMatcher};

fn input(id: &str, desc: &str, exe: &str) -> CatalogInput {
    CatalogInput {
        id: id.to_string(),
        description: desc.to_string(),
        executable: exe.to_string(),
        args: Vec::new(),
    }
}

fn git_catalog() -> Vec<CatalogInput> {
    vec![
        input("git-status", "show git working tree status", "/usr/bin/git"),
        input("git-commit", "record changes to the repository", "/usr/bin/git"),
    ]
}

#[test]
fn query_ranks_the_right_command_first() {
    let mut m = CommandMatcher::new();
    m.load_catalog(&git_catalog()).unwrap();
    let r = m.query("show status of repo", 1, 0);
    assert_eq!(r.len(), 1);
    assert_eq!(r[0].id, "git-status");
    assert_eq!(r[0].rank, 1);
    assert!(r[0].score > 0);
}

#[test]
fn query_is_deterministic() {
    let mut m = CommandMatcher::new();
    m.load_catalog(&git_catalog()).unwrap();
    let a = m.query("show status of repo", 10, 0);
    let b = m.query("show status of repo", 10, 0);
    assert_eq!(a, b);
}

#[test]
fn ties_break_by_identifier() {
    let mut m = CommandMatcher::new();
    m.load_catalog(&vec![
        input("zeta", "list directory contents", "/bin/ls"),
        input("alpha", "list directory contents", "/bin/ls"),
    ])
    .unwrap();
    let r = m.query("list directory contents", 10, 0);
    assert_eq!(r.len(), 2);
    assert_eq!(r[0].score, r[1].score);
    assert_eq!(r[0].id, "alpha");
    assert_eq!(r[1].id, "zeta");
    assert_eq!(r[0].rank, 1);
    assert_eq!(r[1].rank, 2);
}

#[test]
fn min_score_filters_and_top_k_truncates() {
    let mut m = CommandMatcher::new();
    m.load_catalog(&git_catalog()).unwrap();
    let none = m.query("show status", 10, u64::MAX);
    assert!(none.is_empty());
    let one = m.query("git", 1, 0);
    assert!(one.len() <= 1);
}

#[test]
fn empty_catalog_returns_empty_not_error() {
    let m = CommandMatcher::new();
    let r = m.query("anything at all", 5, 0);
    assert!(r.is_empty());
}

#[test]
fn empty_query_matches_nothing_above_zero() {
    let mut m = CommandMatcher::new();
    m.load_catalog(&git_catalog()).unwrap();
    let r = m.query("", 5, 1);
    assert!(r.is_empty());
}

#[test]
fn missing_identifier_is_invalid_input() {
    let mut m = CommandMatcher::new();
    m.load_catalog(&git_catalog()).unwrap();
    let g = m.generation();
    let err = m.load_catalog(&vec![input("", "nameless", "/bin/true")]);
    assert_eq!(err, Err(McliError::InvalidInput));
    // The failed re-index left the previous index untouched.
    assert_eq!(m.generation(), g);
    let r = m.query("show status of repo", 1, 0);
    assert_eq!(r[0].id, "git-status");
}

#[test]
fn load_replaces_and_apply_changes_incrementally() {
    let mut m = CommandMatcher::new();
    assert_eq!(m.generation(), 0);
    m.load_catalog(&git_catalog()).unwrap();
    assert_eq!(m.generation(), 1);
    assert_eq!(m.len(), 2);

    // Add one entry and remove one.
    m.apply_change(
        &vec![input("git-log", "show commit logs and history", "/usr/bin/git")],
        &vec!["git-commit".to_string()],
    )
    .unwrap();
    assert_eq!(m.generation(), 2);
    assert_eq!(m.len(), 2);
    let r = m.query("record changes", 5, 1);
    assert!(r.iter().all(|x| x.id != "git-commit"));
    let r = m.query("commit history", 5, 1);
    assert_eq!(r[0].id, "git-log");
}

#[test]
fn modified_entry_is_revectorized() {
    let mut m = CommandMatcher::new();
    m.load_catalog(&git_catalog()).unwrap();
    m.apply_change(
        &vec![input("git-status", "completely different words now", "/usr/bin/git")],
        &Vec::new(),
    )
    .unwrap();
    assert_eq!(m.len(), 2);
    let r = m.query("different words", 1, 1);
    assert_eq!(r[0].id, "git-status");
}

#[test]
fn untouched_entries_survive_apply_change() {
    let mut m = CommandMatcher::new();
    m.load_catalog(&git_catalog()).unwrap();
    let before = m.query("record changes to the repository", 1, 0);
    m.apply_change(
        &vec![input("new-cmd", "something wholly unrelated", "/bin/true")],
        &Vec::new(),
    )
    .unwrap();
    let after = m.query("record changes to the repository", 1, 0);
    // The untouched entry still matches first under the grown vocabulary.
    assert_eq!(before[0].id, after[0].id);
    assert_eq!(after[0].id, "git-commit");
}

#[test]
fn describe_names_every_error() {
    assert!(!McliError::InvalidInput.describe().is_empty());
    assert!(!McliError::NotFound.describe().is_empty());
    assert!(!McliError::InvalidState.describe().is_empty());
    let e = McliError::SpawnFailure { cause: "no such file".to_string() };
    assert!(!e.describe().is_empty());
}

#[test]
fn matcher_stopwords_do_not_match() {
    let mut m = CommandMatcher::with_stopwords(vec![b"the".to_vec(), b"of".to_vec()]);
    m.load_catalog(&git_catalog()).unwrap();
    // A query made only of stopwords vectorizes to zero and matches nothing.
    let r = m.query("the of the", 5, 1);
    assert!(r.is_empty());
}
