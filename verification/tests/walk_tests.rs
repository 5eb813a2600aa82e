use rsync::apply::process_ops;
use rsync::blocks::build_block_map;
use rsync::delta::check_map;
use rsync::meta::FileMeta;
use rsync::walk::{next, plan_update, start, Outcome, Reply, Request, Update};
use std::collections::BTreeMap;

/// A directory tree in memory: each path with its contents and modification
/// time, or with nothing where it is a directory.
struct Tree {
    nodes: BTreeMap<String, Option<(Vec<u8>, i128)>>,
}

impl Tree {
    fn new() -> Tree {
        let mut nodes = BTreeMap::new();
        nodes.insert(String::new(), None);
        Tree { nodes }
    }

    fn write(&mut self, path: &str, content: &[u8], modified: i128) {
        self.nodes.insert(path.to_string(), Some((content.to_vec(), modified)));
    }

    fn make_dir(&mut self, path: &str) {
        self.nodes.insert(path.to_string(), None);
    }

    fn content(&self, path: &str) -> &[u8] {
        &self.nodes[path].as_ref().unwrap().0
    }

    fn meta(&self, path: &str) -> FileMeta {
        let (content, modified) = self.nodes[path].as_ref().unwrap();
        FileMeta { len: content.len() as u64, modified: Some(*modified) }
    }
}

fn parent(path: &str) -> Option<&str> {
    if path.is_empty() {
        None
    } else {
        Some(path.rsplit_once('/').map_or("", |(parent, _)| parent))
    }
}

/// Runs the requests for one entry, at the time `now`.
fn visit_entry(src: &Tree, dst: &mut Tree, path: &str, now: i128) -> Outcome {
    let is_dir = src.nodes[path].is_none();
    let mut map = Default::default();
    let mut ops = Vec::new();
    let mut temporary = Vec::new();
    let mut request = start(false, is_dir);
    loop {
        let reply = match request {
            Request::Resolve { directory } => {
                assert_eq!(directory, is_dir);
                Reply::Done
            }
            Request::ProbeDirectory | Request::ProbeFile => {
                Reply::Exists { exists: dst.nodes.contains_key(path) }
            }
            Request::CreateDirectory => {
                dst.make_dir(path);
                Reply::Done
            }
            Request::ProbeParent => match parent(path) {
                Some(parent) => Reply::Exists { exists: dst.nodes.contains_key(parent) },
                None => Reply::NoParent,
            },
            Request::CreateParent => {
                dst.make_dir(parent(path).unwrap());
                Reply::Done
            }
            Request::ReadSourceMeta { .. } => Reply::Meta { meta: src.meta(path) },
            Request::ReadTargetMeta { .. } => Reply::Meta { meta: dst.meta(path) },
            Request::MapBlocks { update } => {
                map = build_block_map(dst.content(path), update.block_size);
                Reply::Done
            }
            Request::ComputeDelta { update } => {
                let blocks = std::mem::take(&mut map);
                ops = check_map(blocks, src.content(path), update.block_size);
                Reply::Done
            }
            Request::WriteTemporary { update } => {
                let delta = std::mem::take(&mut ops);
                temporary = process_ops(delta, dst.content(path), update.block_size);
                Reply::Done
            }
            Request::SyncTemporary { .. } => Reply::Done,
            Request::ReplaceTarget { .. } => {
                dst.write(path, &temporary, now);
                Reply::Done
            }
            Request::CopyFile => {
                let content = src.content(path).to_vec();
                dst.write(path, &content, now);
                Reply::Copied { bytes: content.len() as u64 }
            }
            Request::CopyMetadata { .. } => {
                let modified = src.meta(path).modified.unwrap();
                let content = dst.content(path).to_vec();
                dst.write(path, &content, modified);
                Reply::Done
            }
            Request::RemoveTemporary => Reply::Done,
            Request::Finished { outcome } => return outcome,
        };
        request = next(request, reply).unwrap();
    }
}

fn visit_dirs(src: &Tree, dst: &mut Tree, now: i128) -> Vec<Outcome> {
    let paths: Vec<String> = src.nodes.keys().cloned().collect();
    paths.iter().map(|path| visit_entry(src, dst, path, now)).collect()
}

#[test]
fn test_empty_file_sync() {
    let mut src = Tree::new();
    let mut dst = Tree::new();
    src.write("empty.txt", b"", 1);

    let outcomes = visit_dirs(&src, &mut dst, 2);

    assert_eq!(outcomes[1], Outcome::Copied { bytes: 0, metadata: true });
    assert_eq!(dst.meta("empty.txt").len, 0);
}

#[test]
fn test_small_file_sync() {
    let mut src = Tree::new();
    let mut dst = Tree::new();
    src.write("small.txt", b"Hello, World!", 1);

    visit_dirs(&src, &mut dst, 2);

    assert_eq!(dst.content("small.txt"), b"Hello, World!");
}

#[test]
fn test_large_file_sync() {
    let mut src = Tree::new();
    let mut dst = Tree::new();
    let content = vec![0xAB; 1024 * 1024];
    src.write("large.bin", &content, 1);

    visit_dirs(&src, &mut dst, 2);

    assert_eq!(src.content("large.bin"), dst.content("large.bin"));
}

#[test]
fn test_file_update_with_changes() {
    let mut src = Tree::new();
    let mut dst = Tree::new();

    src.write("update.txt", b"Original content", 1);
    visit_dirs(&src, &mut dst, 2);
    assert_eq!(src.content("update.txt"), dst.content("update.txt"));

    src.write("update.txt", b"Updated content", 100);
    let outcomes = visit_dirs(&src, &mut dst, 101);

    assert_eq!(outcomes[1], Outcome::Updated { metadata: true });
    assert_eq!(src.content("update.txt"), dst.content("update.txt"));
    assert_eq!(dst.content("update.txt"), b"Updated content");
}

#[test]
fn test_partial_block_matching() {
    let mut src = Tree::new();
    let mut dst = Tree::new();

    let original = vec![b'A'; 10 * 1024];
    src.write("partial.txt", &original, 1);
    visit_dirs(&src, &mut dst, 2);

    let mut updated = original.clone();
    updated.extend_from_slice(b"APPENDED DATA");
    src.write("partial.txt", &updated, 100);
    visit_dirs(&src, &mut dst, 101);

    assert_eq!(src.content("partial.txt"), dst.content("partial.txt"));
}

#[test]
fn test_nested_directory_creation() {
    let mut src = Tree::new();
    let mut dst = Tree::new();
    src.make_dir("level1");
    src.make_dir("level1/level2");
    src.make_dir("level1/level2/level3");
    src.write("level1/level2/level3/deep.txt", b"Deep file", 1);

    let outcomes = visit_dirs(&src, &mut dst, 2);

    assert_eq!(outcomes[0], Outcome::DirectoryPresent);
    assert_eq!(outcomes[1], Outcome::DirectoryCreated);
    assert!(dst.nodes["level1/level2/level3"].is_none());
    assert_eq!(dst.content("level1/level2/level3/deep.txt"), b"Deep file");
}

#[test]
fn test_metadata_preservation() {
    let mut src = Tree::new();
    let mut dst = Tree::new();
    src.write("meta.txt", b"Test content", 12);

    visit_dirs(&src, &mut dst, 5000);

    assert_eq!(src.meta("meta.txt"), dst.meta("meta.txt"));
}

#[test]
fn test_no_update_when_identical() {
    let mut src = Tree::new();
    let mut dst = Tree::new();
    src.write("same.txt", b"Same content", 1);
    visit_dirs(&src, &mut dst, 2);
    let first = dst.meta("same.txt");

    let outcomes = visit_dirs(&src, &mut dst, 100);

    assert_eq!(outcomes[1], Outcome::Unchanged);
    assert_eq!(dst.meta("same.txt"), first);
}

#[test]
fn emptied_and_refilled_file_is_updated() {
    let mut src = Tree::new();
    let mut dst = Tree::new();
    src.write("file.txt", b"", 1);
    visit_dirs(&src, &mut dst, 2);

    src.write("file.txt", b"no longer empty", 3);
    visit_dirs(&src, &mut dst, 4);
    assert_eq!(dst.content("file.txt"), b"no longer empty");

    src.write("file.txt", b"", 5);
    visit_dirs(&src, &mut dst, 6);
    assert_eq!(dst.content("file.txt"), b"");
}

#[test]
fn older_source_of_one_size_is_not_copied() {
    let mut src = Tree::new();
    let mut dst = Tree::new();
    src.write("file.txt", b"older", 1);
    dst.write("file.txt", b"newer", 2);

    let outcomes = visit_dirs(&src, &mut dst, 3);

    assert_eq!(outcomes[1], Outcome::Unchanged);
    assert_eq!(dst.content("file.txt"), b"newer");
}

#[test]
fn missing_parent_is_created() {
    let mut src = Tree::new();
    let mut dst = Tree::new();
    src.write("dir/file.txt", b"content", 1);

    visit_dirs(&src, &mut dst, 2);

    assert!(dst.nodes["dir"].is_none());
    assert_eq!(dst.content("dir/file.txt"), b"content");
}

#[test]
fn files_that_only_the_destination_has_stay() {
    let mut src = Tree::new();
    let mut dst = Tree::new();
    src.write("new.txt", b"new", 1);
    dst.write("old.txt", b"old", 1);

    visit_dirs(&src, &mut dst, 2);

    assert_eq!(dst.content("old.txt"), b"old");
    assert_eq!(dst.content("new.txt"), b"new");
}

#[test]
fn symbolic_links_are_skipped() {
    let skipped = Request::Finished { outcome: Outcome::Skipped };
    assert_eq!(start(true, false), skipped);
    assert_eq!(start(true, true), skipped);
    assert_eq!(start(false, true), Request::Resolve { directory: true });
    assert_eq!(start(false, false), Request::Resolve { directory: false });
}

fn sample_update() -> Update {
    Update {
        src: FileMeta { len: 9000, modified: Some(2) },
        dst: FileMeta { len: 10_000, modified: Some(1) },
        block_size: 8192,
    }
}

#[test]
fn update_is_planned_for_a_change() {
    let update = sample_update();
    assert_eq!(plan_update(update.src, update.dst), Some(update));
    assert_eq!(plan_update(update.src, update.src), None);
}

#[test]
fn every_failure_ends_the_entry() {
    let update = sample_update();
    let failures = [
        (Request::Resolve { directory: true }, Outcome::OutsideSource),
        (Request::CreateDirectory, Outcome::DirectoryFailed),
        (Request::CreateParent, Outcome::ParentFailed),
        (Request::ReadSourceMeta { exists: true }, Outcome::SourceMetaFailed),
        (Request::ReadSourceMeta { exists: false }, Outcome::SourceMetaFailed),
        (Request::ReadTargetMeta { src: update.src }, Outcome::TargetMetaFailed),
        (Request::MapBlocks { update }, Outcome::MapFailed),
        (Request::ComputeDelta { update }, Outcome::DeltaFailed),
        (Request::RemoveTemporary, Outcome::ApplyFailed),
        (Request::CopyFile, Outcome::CopyFailed),
        (Request::CopyMetadata { copied: None }, Outcome::Updated { metadata: false }),
        (
            Request::CopyMetadata { copied: Some(3) },
            Outcome::Copied { bytes: 3, metadata: false },
        ),
    ];
    for (request, outcome) in failures {
        assert_eq!(next(request, Reply::Failed), Some(Request::Finished { outcome }));
    }
    assert_eq!(
        next(Request::ProbeParent, Reply::NoParent),
        Some(Request::Finished { outcome: Outcome::NoParent })
    );
}

#[test]
fn failed_update_is_cleaned_up() {
    let update = sample_update();
    for phase in [
        Request::WriteTemporary { update },
        Request::SyncTemporary { update },
        Request::ReplaceTarget { update },
    ] {
        assert_eq!(next(phase, Reply::Failed), Some(Request::RemoveTemporary));
    }
    for reply in [Reply::Done, Reply::Failed] {
        assert_eq!(
            next(Request::RemoveTemporary, reply),
            Some(Request::Finished { outcome: Outcome::ApplyFailed })
        );
    }
}

#[test]
fn replacement_follows_write_and_sync() {
    let update = sample_update();
    let mut request = Request::ComputeDelta { update };
    for expected in [
        Request::WriteTemporary { update },
        Request::SyncTemporary { update },
        Request::ReplaceTarget { update },
        Request::CopyMetadata { copied: None },
        Request::Finished { outcome: Outcome::Updated { metadata: true } },
    ] {
        request = next(request, Reply::Done).unwrap();
        assert_eq!(request, expected);
    }
}

#[test]
fn directory_is_created_exactly_where_it_is_missing() {
    let probed = |exists| next(Request::ProbeDirectory, Reply::Exists { exists });
    assert_eq!(probed(false), Some(Request::CreateDirectory));
    assert_eq!(probed(true), Some(Request::Finished { outcome: Outcome::DirectoryPresent }));
    assert_eq!(
        next(Request::CreateDirectory, Reply::Done),
        Some(Request::Finished { outcome: Outcome::DirectoryCreated })
    );
}

#[test]
fn parent_is_created_exactly_where_it_is_missing() {
    let probed = |exists| next(Request::ProbeParent, Reply::Exists { exists });
    assert_eq!(probed(false), Some(Request::CreateParent));
    assert_eq!(probed(true), Some(Request::ProbeFile));
}

#[test]
fn wrong_replies_are_no_answers() {
    assert_eq!(next(Request::ProbeFile, Reply::Done), None);
    assert_eq!(next(Request::CopyFile, Reply::Done), None);
    assert_eq!(next(Request::CreateParent, Reply::Exists { exists: true }), None);
    assert_eq!(next(Request::Finished { outcome: Outcome::Skipped }, Reply::Done), None);
}
