use std::path::PathBuf;

use chunklog::repo::{format_file, format_supported, object_from_read, RepoError};
use chunklog::staging::{stage_chunk_file, stage_removals, ChangeSet};
use chunklog::store::StoreError;
use chunklog::{LogEntry, MemoryStore, Object, ObjectStore, Repository, World};

fn world(chunk: (i32, i32), data: u8) -> World {
    let mut world = World::new();
    world.insert(chunk, vec![data]);
    world
}

#[test]
fn repository_works_with_any_object_store() {
    let mut repo = Repository::init_with(MemoryStore::new(), PathBuf::from("repo"));
    let mut world = World::new();
    world.insert((0, 0), vec![1, 2, 3]);
    world.insert((-4, 7), vec![4, 5, 6]);
    let hash = repo.commit(&world, "in memory").unwrap();

    assert_eq!(repo.head(), Some(hash));
    let log = repo.log().unwrap();
    assert_eq!(log.len(), 1);
    assert_eq!(log[0].hash, hash);
}

fn chunks() -> World {
    let mut chunks = World::new();
    chunks.insert((0, 0), vec![1, 2, 3]);
    chunks.insert((-4, 7), vec![9, 9, 9]);
    chunks
}

fn read_commit(repo: &Repository<MemoryStore>, h: chunklog::hash::Hash) -> chunklog::Commit {
    match Object::from_bytes(&repo.store().read(h).unwrap()).unwrap() {
        Object::Commit(c) => c,
        other => panic!("{other:?} is not a commit"),
    }
}

/// Reopens the repository from a copy of its objects and the text of its
/// `HEAD` file, as the command line does with the files on disk.
fn reopen(repo: &Repository<MemoryStore>) -> Repository<MemoryStore> {
    let mut copy = MemoryStore::new();
    for h in repo.store().list().unwrap() {
        copy.write(&repo.store().read(h).unwrap()).unwrap();
    }
    let head = repo.head().map(|h| h.to_hex()).unwrap_or_default();
    Repository::open_with(copy, repo.root().clone(), &format!("{head}\n")).unwrap()
}

#[test]
fn init_commit_and_log() {
    let mut repo = Repository::init_with(MemoryStore::new(), PathBuf::from("r"));
    assert_eq!(repo.head(), None);
    assert!(repo.log().unwrap().is_empty());
    let hash = repo.commit(&chunks(), "first save").unwrap();
    assert_eq!(repo.head(), Some(hash));
    let log = repo.log().unwrap();
    assert_eq!(log.len(), 1);
    assert_eq!(log[0].hash, hash);
    assert_eq!(log[0].message, "first save");
    assert_eq!(
        log,
        vec![LogEntry { hash, message: "first save".to_string() }]
    );
}

#[test]
fn commit_chains_history() {
    let mut repo = Repository::init_with(MemoryStore::new(), PathBuf::from("r"));
    let mut world = chunks();
    let first = repo.commit(&world, "first").unwrap();
    world.insert((1, 1), vec![2]);
    let second = repo.commit(&world, "second").unwrap();
    let log = repo.log().unwrap();
    assert_eq!(log.len(), 2);
    assert_eq!(log[0].hash, second);
    assert_eq!(log[0].message, "second");
    assert_eq!(log[1].hash, first);
    assert_eq!(log[1].message, "first");
    assert_eq!(read_commit(&repo, second).parent, Some(first));
    assert_eq!(read_commit(&repo, first).parent, None);
}

#[test]
fn commit_at_records_the_given_time() {
    let mut repo = Repository::init_with(MemoryStore::new(), PathBuf::from("r"));
    let first = repo.commit_at(&chunks(), "first", 10).unwrap();
    let second = repo.commit_at(&chunks(), "second", 20).unwrap();
    let c = read_commit(&repo, second);
    assert_eq!(c.parent, Some(first));
    assert_eq!(c.timestamp, 20);
    assert_eq!(c.message, "second");
    assert_eq!(read_commit(&repo, first).timestamp, 10);
}

#[test]
fn repository_persists_across_open() {
    let mut repo = Repository::init_with(MemoryStore::new(), PathBuf::from("r"));
    let hash = repo.commit(&chunks(), "persisted").unwrap();
    let reopened = reopen(&repo);
    assert!(reopened.head().is_some());
    assert_eq!(reopened.head(), Some(hash));
    assert_eq!(reopened.log().unwrap().len(), 1);
}

#[test]
fn log_after_open_walks_parent_chain() {
    let mut repo = Repository::init_with(MemoryStore::new(), PathBuf::from("r"));
    repo.commit(&chunks(), "a").unwrap();
    repo.commit(&chunks(), "b").unwrap();
    let reopened = reopen(&repo);
    let log = reopened.log().unwrap();
    assert_eq!(log.iter().map(|e| e.message.as_str()).collect::<Vec<_>>(), ["b", "a"]);
}

#[test]
fn reopening_a_new_repository_gives_an_empty_log() {
    let repo = Repository::init_with(MemoryStore::new(), PathBuf::from("r"));
    let reopened = reopen(&repo);
    assert_eq!(reopened.head(), None);
    assert_eq!(reopened.log(), Ok(vec![]));
}

#[test]
fn identical_worlds_share_tree_and_blobs() {
    let mut repo = Repository::init_with(MemoryStore::new(), PathBuf::from("r"));
    let first = repo.commit(&chunks(), "first").unwrap();
    let count = repo.store().list().unwrap().len();
    assert_eq!(count, 4);
    let second = repo.commit(&chunks(), "second").unwrap();
    assert_ne!(first, second);
    assert_eq!(repo.store().list().unwrap().len(), count + 1);
    let c1 = read_commit(&repo, first);
    let c2 = read_commit(&repo, second);
    assert_eq!(c1.tree, c2.tree);
    assert_eq!(c2.parent, Some(first));
    let t1 = Object::from_bytes(&repo.store().read(c1.tree).unwrap()).unwrap();
    let t2 = Object::from_bytes(&repo.store().read(c2.tree).unwrap()).unwrap();
    assert!(matches!(t1, Object::Tree(_)));
    assert_eq!(t1, t2);
}

#[test]
fn open_reads_the_head_file() {
    let h = chunklog::hash::Hash([0xab, 0xcd, 0xef, 0, 1, 2, 3, 4]);
    let repo = Repository::open_with(MemoryStore::new(), PathBuf::from("r"), " abcdef0001020304\n")
        .unwrap();
    assert_eq!(repo.head(), Some(h));
    let empty = Repository::open_with(MemoryStore::new(), PathBuf::from("r"), "  \n").unwrap();
    assert_eq!(empty.head(), None);
    assert!(matches!(
        Repository::open_with(MemoryStore::new(), PathBuf::from("r"), "xyz"),
        Err(RepoError::BadHead(_))
    ));
    assert_eq!(repo.root(), &PathBuf::from("r"));
}

#[test]
fn log_reports_a_missing_commit() {
    let h = chunklog::hash::Hash([1; 8]);
    let repo =
        Repository::open_with(MemoryStore::new(), PathBuf::from("r"), &h.to_hex()).unwrap();
    assert_eq!(
        repo.log(),
        Err(RepoError::Store(StoreError::NotFound(h)))
    );
}

#[test]
fn log_rejects_a_head_that_is_not_a_commit() {
    let mut store = MemoryStore::new();
    let blob = store.write(&Object::Blob(vec![1]).to_bytes()).unwrap();
    let repo = Repository::open_with(store, PathBuf::from("r"), &blob.to_hex()).unwrap();
    assert_eq!(repo.log(), Err(RepoError::NotACommit(blob)));
}

#[test]
fn log_rejects_bytes_that_are_not_an_object() {
    let mut store = MemoryStore::new();
    let junk = store.write(b"junk").unwrap();
    let repo = Repository::open_with(store, PathBuf::from("r"), &junk.to_hex()).unwrap();
    assert_eq!(repo.log(), Err(RepoError::Corrupt(junk)));
}

#[test]
fn set_head_restores_a_previous_head() {
    let mut repo = Repository::init_with(MemoryStore::new(), PathBuf::from("r"));
    let h = repo.commit_at(&world((0, 0), 1), "one", 5).unwrap();
    repo.set_head(None);
    assert_eq!(repo.head(), None);
    repo.set_head(Some(h));
    assert_eq!(repo.log().unwrap().len(), 1);
}

#[test]
fn object_from_read_decodes_checks_and_forwards() {
    let bytes = Object::Blob(vec![1, 2]).to_bytes();
    let h = chunklog::hash::Hash::digest(&bytes);
    assert_eq!(object_from_read(h, Ok(bytes.clone())), Ok(Object::Blob(vec![1, 2])));
    let other = chunklog::hash::Hash::digest(b"other");
    assert_eq!(object_from_read(other, Ok(bytes)), Err(RepoError::Corrupt(other)));
    let junk = chunklog::hash::Hash::digest(b"junk");
    assert_eq!(object_from_read(junk, Ok(b"junk".to_vec())), Err(RepoError::Corrupt(junk)));
    assert_eq!(
        object_from_read(h, Err(StoreError::NotFound(h))),
        Err(RepoError::Store(StoreError::NotFound(h)))
    );
}

#[test]
fn checked_log_matches_the_log() {
    let mut repo = Repository::init_with(MemoryStore::new(), PathBuf::from("r"));
    assert_eq!(repo.log_checked(), Ok(vec![]));
    let first = repo.commit_at(&chunks(), "first", 1).unwrap();
    let second = repo.commit_at(&world((2, 2), 5), "second", 2).unwrap();
    let log = repo.log_checked().unwrap();
    assert_eq!(
        log,
        vec![
            LogEntry { hash: second, message: "second".to_string() },
            LogEntry { hash: first, message: "first".to_string() },
        ]
    );
    assert_eq!(repo.log(), Ok(log));
}

#[test]
fn checked_log_reports_broken_history() {
    let h = chunklog::hash::Hash([1; 8]);
    let repo =
        Repository::open_with(MemoryStore::new(), PathBuf::from("r"), &h.to_hex()).unwrap();
    assert_eq!(repo.log_checked(), Err(RepoError::Store(StoreError::NotFound(h))));
    let mut store = MemoryStore::new();
    let blob = store.write(&Object::Blob(vec![1]).to_bytes()).unwrap();
    let repo = Repository::open_with(store, PathBuf::from("r"), &blob.to_hex()).unwrap();
    assert_eq!(repo.log_checked(), Err(RepoError::NotACommit(blob)));
}

#[test]
fn head_world_reads_back_the_committed_world() {
    let mut repo = Repository::init_with(MemoryStore::new(), PathBuf::from("r"));
    assert_eq!(repo.head_world(), Ok(World::new()));
    repo.commit_at(&chunks(), "first", 1).unwrap();
    assert_eq!(repo.head_world(), Ok(chunks()));
    let reopened = reopen(&repo);
    assert_eq!(reopened.head_world(), Ok(chunks()));
}

#[test]
fn head_world_rejects_a_blob_head() {
    let mut store = MemoryStore::new();
    let blob = store.write(&Object::Blob(vec![1]).to_bytes()).unwrap();
    let repo = Repository::open_with(store, PathBuf::from("r"), &blob.to_hex()).unwrap();
    assert_eq!(repo.head_world(), Err(RepoError::NotACommit(blob)));
}

#[test]
fn staged_changes_patch_the_head_world() {
    let mut repo = Repository::init_with(MemoryStore::new(), PathBuf::from("r"));
    let first = repo.commit_at(&chunks(), "first", 1).unwrap();
    let mut changes = ChangeSet::new();
    assert_eq!(stage_chunk_file(&mut changes, "1,1", vec![2]), Ok(true));
    assert_eq!(stage_chunk_file(&mut changes, "0,0", vec![7, 7]), Ok(true));
    stage_removals(&mut changes, "-4,7\n").unwrap();
    let second = repo.commit_changes(&changes, "patch").unwrap();
    assert_eq!(repo.head(), Some(second));
    assert_eq!(read_commit(&repo, second).parent, Some(first));
    let mut expected = World::new();
    expected.insert((0, 0), vec![7, 7]);
    expected.insert((1, 1), vec![2]);
    assert_eq!(repo.head_world(), Ok(expected));
    let log = repo.log().unwrap();
    assert_eq!(log.len(), 2);
    assert_eq!(log[0].message, "patch");
}

#[test]
fn patching_a_new_repository_starts_from_an_empty_world() {
    let mut repo = Repository::init_with(MemoryStore::new(), PathBuf::from("r"));
    let mut changes = ChangeSet::new();
    assert_eq!(stage_chunk_file(&mut changes, "3,-3", vec![9]), Ok(true));
    repo.commit_changes(&changes, "start").unwrap();
    assert_eq!(repo.head_world(), Ok(world((3, -3), 9)));
}

#[test]
fn format_file_names_format_two() {
    assert_eq!(format_file(), b"2\n".to_vec());
    assert!(format_supported(&format_file()));
    assert!(format_supported(b"2\n"));
    assert!(!format_supported(b"1\n"));
    assert!(!format_supported(b"999\n"));
    assert!(!format_supported(b"2"));
    assert!(!format_supported(b""));
}
