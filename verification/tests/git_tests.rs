//! Tests of history enrichment against a real repository built in a
//! temporary directory.

use fossil::git::blame_line;
use fossil::git::enrich_markers_batch;
use fossil::git::enrich_with_git_info;
use fossil::git::get_repository;
use fossil::models::DebtMarker;
use tempfile::TempDir;

fn create_test_repo() -> TempDir {
    let temp_dir = TempDir::new().unwrap();
    let repo = git2::Repository::init(temp_dir.path()).unwrap();

    let mut config = repo.config().unwrap();
    config.set_str("user.name", "Test User").unwrap();
    config.set_str("user.email", "test@example.com").unwrap();

    let blob = repo
        .blob(b"// First line\n// TODO: test marker\n// Third line\n")
        .unwrap();
    let mut builder = repo.treebuilder(None).unwrap();
    builder.insert("test.rs", blob, 0o100644).unwrap();
    let tree_id = builder.write().unwrap();
    let tree = repo.find_tree(tree_id).unwrap();
    let sig = git2::Signature::now("Test User", "test@example.com").unwrap();
    repo.commit(Some("HEAD"), &sig, &sig, "Initial commit", &tree, &[])
        .unwrap();
    let mut checkout = git2::build::CheckoutBuilder::new();
    checkout.force();
    repo.checkout_head(Some(&mut checkout)).unwrap();

    temp_dir
}

fn test_marker(path: &str, line: usize) -> DebtMarker {
    DebtMarker {
        marker_type: "TODO".to_string(),
        file_path: path.to_string(),
        line_number: line,
        line_content: "// TODO: test marker".to_string(),
        context_before: vec![],
        context_after: vec![],
        git_info: None,
    }
}

#[test]
fn test_get_repository() {
    let temp_dir = create_test_repo();
    let repo = get_repository(temp_dir.path().to_str().unwrap()).unwrap();
    assert!(repo.is_some());

    let non_git = TempDir::new().unwrap();
    let no_repo = get_repository(non_git.path().to_str().unwrap()).unwrap();
    assert!(no_repo.is_none());
}

#[test]
fn test_blame_line() {
    let temp_dir = create_test_repo();
    let repo = git2::Repository::open(temp_dir.path()).unwrap();
    let file_path = temp_dir.path().join("test.rs");

    let info = blame_line(&repo, file_path.to_str().unwrap(), 2).unwrap();
    assert!(info.is_some());

    let git_info = info.unwrap();
    assert_eq!(git_info.author, "Test User");
    assert_eq!(git_info.author_email, "test@example.com");
    assert!(git_info.commit_hash.len() == 7);
    assert!(git_info.age_days >= 0);
}

#[test]
fn test_enrich_with_git_info() {
    let temp_dir = create_test_repo();
    let repo = git2::Repository::open(temp_dir.path()).unwrap();
    let file_path = temp_dir.path().join("test.rs");

    let info = enrich_with_git_info(Some(&repo), file_path.to_str().unwrap(), 2);
    assert!(info.is_some());

    let git_info = info.unwrap();
    assert_eq!(git_info.author, "Test User");

    let no_info = enrich_with_git_info(None, file_path.to_str().unwrap(), 2);
    assert!(no_info.is_none());
}

#[test]
fn test_enrich_without_repository() {
    let mut markers = vec![test_marker("somewhere.rs", 1)];
    let result = enrich_markers_batch(&mut markers, None);
    assert!(result.is_ok());
    assert_eq!(markers.len(), 1);
    assert!(markers[0].git_info.is_none());
    assert_eq!(markers[0].line_number, 1);
    assert_eq!(markers[0].marker_type, "TODO");
}

#[test]
fn test_enrich_batch_same_commit() {
    let temp_dir = create_test_repo();
    let repo = git2::Repository::open(temp_dir.path()).unwrap();
    let file_path = temp_dir.path().join("test.rs");
    let path_str = file_path.to_str().unwrap();

    let mut markers = vec![test_marker(path_str, 2), test_marker(path_str, 3)];
    enrich_markers_batch(&mut markers, Some(&repo)).unwrap();

    let first = markers[0].git_info.as_ref().expect("first marker enriched");
    let second = markers[1].git_info.as_ref().expect("second marker enriched");
    assert_eq!(first.author, "Test User");
    assert_eq!(first.commit_hash, second.commit_hash);
    assert_eq!(first.commit_hash.len(), 7);
}

#[test]
fn test_enrich_batch_same_line_same_record() {
    let temp_dir = create_test_repo();
    let repo = git2::Repository::open(temp_dir.path()).unwrap();
    let file_path = temp_dir.path().join("test.rs");
    let path_str = file_path.to_str().unwrap();

    let mut markers = vec![test_marker(path_str, 2), test_marker(path_str, 2)];
    enrich_markers_batch(&mut markers, Some(&repo)).unwrap();
    let first = markers[0].git_info.as_ref().unwrap();
    let second = markers[1].git_info.as_ref().unwrap();
    assert_eq!(first.commit_hash, second.commit_hash);
    assert_eq!(first.age_days, second.age_days);
    assert_eq!(first.commit_time, second.commit_time);
}

#[test]
fn test_enrich_untracked_file() {
    let temp_dir = create_test_repo();
    let repo = git2::Repository::open(temp_dir.path()).unwrap();
    let missing = temp_dir.path().join("missing.rs");

    let mut markers = vec![test_marker(missing.to_str().unwrap(), 1)];
    enrich_markers_batch(&mut markers, Some(&repo)).unwrap();
    assert!(markers[0].git_info.is_none());
}

#[test]
fn test_enrichment_order_independent() {
    let temp_dir = create_test_repo();
    let repo = git2::Repository::open(temp_dir.path()).unwrap();
    let file_path = temp_dir.path().join("test.rs");
    let path_str = file_path.to_str().unwrap();

    let mut forward = vec![test_marker(path_str, 2), test_marker(path_str, 3)];
    let mut backward = vec![test_marker(path_str, 3), test_marker(path_str, 2)];
    enrich_markers_batch(&mut forward, Some(&repo)).unwrap();
    enrich_markers_batch(&mut backward, Some(&repo)).unwrap();

    let by_line = |ms: &Vec<fossil::models::DebtMarker>, line: usize| -> String {
        let m = ms.iter().find(|m| m.line_number == line).unwrap();
        let g = m.git_info.as_ref().unwrap();
        format!("{}|{}|{}|{}", g.author, g.author_email, g.commit_hash, g.commit_time)
    };
    assert_eq!(by_line(&forward, 2), by_line(&backward, 2));
    assert_eq!(by_line(&forward, 3), by_line(&backward, 3));
}

#[test]
fn test_enrich_bare_repository() {
    let temp_dir = TempDir::new().unwrap();
    let _created = git2::Repository::init_bare(temp_dir.path()).unwrap();
    let repo = git2::Repository::open(temp_dir.path()).unwrap();
    let mut markers = vec![test_marker("test.rs", 1)];
    let result = enrich_markers_batch(&mut markers, Some(&repo));
    assert!(result.is_err());
    assert!(markers[0].git_info.is_none());
}

#[test]
fn test_blame_line_bad_path() {
    let temp_dir = create_test_repo();
    let repo = git2::Repository::open(temp_dir.path()).unwrap();
    let missing = temp_dir.path().join("no-such-file.rs");
    let result = blame_line(&repo, missing.to_str().unwrap(), 1);
    assert!(result.is_err());
}
