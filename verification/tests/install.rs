use candid::Nat;
use dfx::chunks::MAX_CHUNK_SIZE;
use dfx::install::{
    post_install_store_assets, Install, InstallError, RETRY_PAUSE_SECONDS, RETRY_TIMEOUT_SECONDS,
};
use dfx::locations::WalkedEntry;
use dfx::protocol::{
    AssetDetails, BatchOperationKind, CreateBatchResponse, CreateChunkResponse,
};
use std::collections::BTreeMap;

#[derive(Clone, Debug, PartialEq)]
struct Stored {
    content_type: String,
    encodings: BTreeMap<String, (Vec<u8>, Option<Vec<u8>>)>,
}

/// An asset canister and a disk. What fails, and how often, is set beforehand.
#[derive(Default)]
struct World {
    files: BTreeMap<String, Vec<u8>>,
    store: BTreeMap<String, Stored>,
    chunks: BTreeMap<Nat, Vec<u8>>,
    batches: u64,
    calls: Vec<String>,
    printed: Vec<String>,
    chunk_failures: u64,
    waits_left: u64,
    fail: Option<&'static str>,
    late: Option<&'static str>,
}

impl World {
    fn outcome<T>(&self, what: &str, value: T) -> Result<T, String> {
        if self.fail == Some(what) {
            Err(format!("{} failed", what))
        } else {
            Ok(value)
        }
    }

    fn list(&self) -> Vec<AssetDetails> {
        self.store
            .iter()
            .map(|(key, asset)| AssetDetails {
                key: key.clone(),
                encodings: vec![],
                content_type: asset.content_type.clone(),
            })
            .collect()
    }

    fn apply(&mut self, operation: &BatchOperationKind) {
        match operation {
            BatchOperationKind::CreateAsset(args) => {
                let stored =
                    Stored { content_type: args.content_type.clone(), encodings: BTreeMap::new() };
                assert!(self.store.insert(args.key.clone(), stored).is_none());
            }
            BatchOperationKind::SetAssetContent(args) => {
                let mut content = vec![];
                for id in &args.chunk_ids {
                    content.extend_from_slice(&self.chunks[id]);
                }
                self.store
                    .get_mut(&args.key)
                    .unwrap()
                    .encodings
                    .insert(args.content_encoding.clone(), (content, args.sha256.clone()));
            }
            BatchOperationKind::DeleteAsset(args) => {
                self.store.remove(&args.key);
            }
            _ => panic!("unexpected operation"),
        }
    }

    fn run(&mut self, root: &str) -> Result<(), InstallError<String>> {
        let walked: Vec<Option<WalkedEntry>> = self
            .files
            .keys()
            .map(|path| Some(WalkedEntry { is_file: true, path: path.clone() }))
            .collect();
        let paths: Vec<String> = self.files.keys().cloned().collect();
        let mut state: Install<String> = post_install_store_assets(&walked, root).unwrap();
        loop {
            state = match state {
                Install::List(listing) => {
                    self.calls.push("list".to_string());
                    listing.list_assets(self.outcome("list", self.list()))
                }
                Install::CreateBatch(creating) => {
                    self.calls.push("create_batch".to_string());
                    self.batches += 1;
                    if let Some(key) = self.late {
                        self.store.insert(key.to_string(), stale());
                    }
                    let batch_id = Nat::from(1000 + self.batches);
                    creating.create_batch(
                        self.outcome("create_batch", CreateBatchResponse { batch_id }),
                    )
                }
                Install::ReadSource(reading) => {
                    let path = paths[reading.location().entry].clone();
                    assert_eq!(path, reading.location().source);
                    self.calls.push(format!("read {}", path));
                    reading.make_chunked_asset(self.outcome("read", self.files[&path].clone()))
                }
                Install::EncodeChunk(encoding) => {
                    self.printed.push(encoding.announcement());
                    let request = encoding.request();
                    assert_eq!(request.batch_id, Nat::from(1000 + self.batches));
                    let id = Nat::from(self.chunks.len() as u64);
                    self.chunks.insert(id, request.content.to_vec());
                    encoding.encoded(self.outcome("encode", ()))
                }
                Install::CallCreateChunk(creating) => {
                    self.calls.push("create_chunk".to_string());
                    let request = creating.request();
                    assert_eq!(request.batch_id, Nat::from(1000 + self.batches));
                    let id = Nat::from(self.chunks.len() as u64 - 1);
                    assert_eq!(request.content, self.chunks[&id]);
                    if self.chunk_failures > 0 {
                        self.chunk_failures -= 1;
                        creating.create_chunk(Err(format!("attempt {}", self.chunk_failures)))
                    } else {
                        let chunk_id = Nat::from(self.chunks.len() as u64 - 1);
                        creating.create_chunk(Ok(CreateChunkResponse { chunk_id }))
                    }
                }
                Install::Wait(waiting) => {
                    let time_left = self.waits_left > 0;
                    if time_left {
                        self.waits_left -= 1;
                    }
                    waiting.wait(time_left)
                }
                Install::Commit(committing) => {
                    self.calls.push("commit_batch".to_string());
                    let arguments = committing.arguments();
                    assert_eq!(*arguments.batch_id, Nat::from(1000 + self.batches));
                    if self.fail != Some("commit") {
                        for operation in arguments.operations {
                            self.apply(operation);
                        }
                    }
                    committing.commit_batch(self.outcome("commit", ()))
                }
                Install::Finished(result) => return result,
            };
        }
    }

    fn with_files(files: &[(&str, Vec<u8>)]) -> World {
        World {
            files: files.iter().map(|(path, c)| (path.to_string(), c.clone())).collect(),
            ..World::default()
        }
    }

    fn content(&self, key: &str) -> &Vec<u8> {
        &self.store[key].encodings["identity"].0
    }
}

fn error_of(result: Result<(), InstallError<String>>) -> String {
    match result {
        Ok(()) => panic!("no error"),
        Err(InstallError::Failed(error)) => error,
        Err(InstallError::UnknownContentType(unknown)) => unknown.message(),
    }
}

fn stale() -> Stored {
    Stored { content_type: "text/plain".to_string(), encodings: BTreeMap::new() }
}

#[test]
fn the_canister_holds_the_files_and_nothing_else() {
    let large: Vec<u8> = (0..2 * MAX_CHUNK_SIZE + 5).map(|i| (i % 253) as u8).collect();
    let mut world = World::with_files(&[
        ("dist/empty.txt", vec![]),
        ("dist/img/large.png", large.clone()),
        ("dist/index.html", b"<html>".to_vec()),
    ]);
    world.store.insert("/old.txt".to_string(), stale());
    world.store.insert("/index.html".to_string(), stale());
    assert!(world.run("dist").is_ok());
    let keys: Vec<&str> = world.store.keys().map(|key| key.as_str()).collect();
    assert_eq!(keys, vec!["/empty.txt", "/img/large.png", "/index.html"]);
    assert_eq!(world.store["/empty.txt"].content_type, "text/plain");
    assert_eq!(world.store["/img/large.png"].content_type, "image/png");
    assert_eq!(world.store["/index.html"].content_type, "text/html");
    assert_eq!(world.content("/empty.txt"), &Vec::<u8>::new());
    assert_eq!(world.content("/img/large.png"), &large);
    assert_eq!(world.content("/index.html"), &b"<html>".to_vec());
    assert_eq!(
        world.printed,
        vec![
            "  /empty.txt 1/1 (0 bytes)",
            "  /img/large.png 1/3 (1900000 bytes)",
            "  /img/large.png 2/3 (1900000 bytes)",
            "  /img/large.png 3/3 (5 bytes)",
            "  /index.html 1/1 (6 bytes)",
        ]
    );
}

#[test]
fn digests_are_those_of_the_content() {
    let mut world = World::with_files(&[("dist/empty.txt", vec![]), ("dist/abc.txt", b"abc".to_vec())]);
    assert!(world.run("dist").is_ok());
    let digest = |key: &str| world.store[key].encodings["identity"].1.clone().unwrap();
    assert_eq!(digest("/empty.txt")[..4], [0xe3, 0xb0, 0xc4, 0x42]);
    assert_eq!(digest("/abc.txt")[..4], [0xba, 0x78, 0x16, 0xbf]);
    assert_eq!(digest("/abc.txt").len(), 32);
}

#[test]
fn everything_is_done_in_order() {
    let mut world = World::with_files(&[("d/a.css", b"a".to_vec()), ("d/b.css", b"b".to_vec())]);
    assert!(world.run("d").is_ok());
    assert_eq!(
        world.calls,
        vec![
            "list",
            "create_batch",
            "read d/a.css",
            "create_chunk",
            "read d/b.css",
            "create_chunk",
            "commit_batch",
        ]
    );
}

#[test]
fn without_files_the_canister_is_emptied() {
    let mut world = World::default();
    world.store.insert("/old.txt".to_string(), stale());
    assert!(world.run("d").is_ok());
    assert!(world.store.is_empty());
    assert_eq!(world.calls, vec!["list", "create_batch", "commit_batch"]);
}

#[test]
fn what_came_after_the_listing_is_left_alone_unless_a_file_replaces_it() {
    let mut world = World::with_files(&[("d/a.css", b"a".to_vec())]);
    world.late = Some("/late.txt");
    assert!(world.run("d").is_ok());
    assert_eq!(world.store["/late.txt"], stale());
    assert_eq!(world.content("/a.css"), &b"a".to_vec());

    let mut world = World::with_files(&[("d/a.css", b"a".to_vec())]);
    world.late = Some("/a.css");
    assert!(world.run("d").is_ok());
    assert_eq!(world.store.len(), 1);
    assert_eq!(world.store["/a.css"].content_type, "text/css");
    assert_eq!(world.content("/a.css"), &b"a".to_vec());
}

#[test]
fn it_ends_well_only_when_the_commit_was_done() {
    let mut world = World::with_files(&[("d/a.css", b"a".to_vec())]);
    assert!(world.run("d").is_ok());
    assert_eq!(world.calls.last().unwrap(), "commit_batch");
    world.fail = Some("commit");
    assert_eq!(error_of(world.run("d")), "commit failed");
}

#[test]
fn installing_again_changes_nothing() {
    let mut world = World::with_files(&[("d/a.css", b"a".to_vec())]);
    assert!(world.run("d").is_ok());
    let first = world.store.clone();
    assert!(world.run("d").is_ok());
    assert_eq!(world.store, first);
}

#[test]
fn a_chunk_is_sent_again_while_there_is_time() {
    let mut world = World::with_files(&[("d/a.css", b"a".to_vec())]);
    world.chunk_failures = 3;
    world.waits_left = 3;
    assert!(world.run("d").is_ok());
    assert_eq!(world.calls.iter().filter(|call| *call == "create_chunk").count(), 4);
    assert_eq!(world.printed.len(), 1);
    assert_eq!(world.content("/a.css"), &b"a".to_vec());
}

#[test]
fn without_time_left_the_last_error_counts() {
    let mut world = World::with_files(&[("d/a.css", b"a".to_vec())]);
    world.chunk_failures = 5;
    world.waits_left = 2;
    assert_eq!(error_of(world.run("d")), "attempt 2");
    assert!(!world.calls.contains(&"commit_batch".to_string()));
}

#[test]
fn an_unwritable_request_is_not_tried_again() {
    let mut world = World::with_files(&[("d/a.css", b"a".to_vec())]);
    world.fail = Some("encode");
    world.waits_left = 9;
    assert_eq!(error_of(world.run("d")), "encode failed");
    assert!(!world.calls.contains(&"create_chunk".to_string()));
    assert_eq!(world.waits_left, 9);
}

#[test]
fn each_failure_ends_the_installation() {
    for (what, calls) in [("list", 1), ("create_batch", 2), ("read", 3), ("commit", 5)] {
        let mut world = World::with_files(&[("d/a.css", b"a".to_vec())]);
        world.store.insert("/old.txt".to_string(), stale());
        world.fail = Some(what);
        assert_eq!(error_of(world.run("d")), format!("{} failed", what));
        assert_eq!(world.calls.len(), calls);
        assert_eq!(world.store.len(), 1);
    }
}

#[test]
fn a_file_of_unknown_type_ends_the_installation() {
    let mut world =
        World::with_files(&[("d/LICENSE", b"free".to_vec()), ("d/a.css", b"a".to_vec())]);
    assert_eq!(
        error_of(world.run("d")),
        "Unable to determine content type for 'd/LICENSE'."
    );
    assert_eq!(world.calls, vec!["list", "create_batch", "read d/LICENSE"]);
}

#[test]
fn the_content_is_read_before_its_type_is_guessed() {
    let mut world = World::with_files(&[("d/LICENSE", b"free".to_vec())]);
    world.fail = Some("read");
    assert_eq!(error_of(world.run("d")), "read failed");
}

fn reading(root: &str, path: &str) -> Install<String> {
    let walked = vec![Some(WalkedEntry { is_file: true, path: path.to_string() })];
    let start: Install<String> = post_install_store_assets(&walked, root).unwrap();
    let listed: Install<String> = match start {
        Install::List(listing) => listing.list_assets(Ok(vec![])),
        _ => panic!("not listing"),
    };
    match listed {
        Install::CreateBatch(creating) => {
            creating.create_batch(Ok(CreateBatchResponse { batch_id: Nat::from(1u64) }))
        }
        _ => panic!("not creating a batch"),
    }
}

#[test]
fn a_guess_decides_how_a_file_is_uploaded() {
    match reading("d", "d/x.bin") {
        Install::ReadSource(state) => {
            match state.with_media_type::<String>(b"x".to_vec(), Some("a/b".to_string())) {
                Install::EncodeChunk(encoding) => {
                    assert_eq!(encoding.announcement(), "  /x.bin 1/1 (1 bytes)");
                    assert_eq!(encoding.request().content, b"x");
                }
                _ => panic!("not uploading"),
            }
        }
        _ => panic!("not reading"),
    }
    match reading("d", "d/x.css") {
        Install::ReadSource(state) => match state.with_media_type::<String>(vec![], None) {
            Install::Finished(Err(InstallError::UnknownContentType(unknown))) => {
                assert_eq!(unknown.source, "d/x.css");
            }
            _ => panic!("not finished"),
        },
        _ => panic!("not reading"),
    }
}

#[test]
fn a_file_outside_the_directory_starts_nothing() {
    let walked = vec![Some(WalkedEntry { is_file: true, path: "e/a.css".to_string() })];
    let start: Option<Install<String>> = post_install_store_assets(&walked, "d");
    assert!(start.is_none());
}

#[test]
fn chunks_are_sent_again_every_second_for_half_a_minute() {
    assert_eq!(RETRY_TIMEOUT_SECONDS, 30);
    assert_eq!(RETRY_PAUSE_SECONDS, 1);
}
