//! The decisions for one entry of the source tree: what to ask of the file
//! system next, given what it answered so far.

use crate::meta::{block_size_for, changed, file_changed, get_block_size, FileMeta};
use vstd::prelude::*;

verus! {

/// An update of a destination file that has to be made.
#[derive(Clone, Copy, Debug, PartialEq, Eq)]
pub struct Update {
    /// Metadata of the source file.
    pub src: FileMeta,
    /// Metadata of the destination file.
    pub dst: FileMeta,
    /// The block size to divide the destination file by.
    pub block_size: usize,
}

/// What became of an entry.
#[derive(Clone, Copy, Debug, PartialEq, Eq)]
pub enum Outcome {
    /// A symbolic link, left out.
    Skipped,
    /// The entry does not lie below the source root.
    OutsideSource,
    /// The destination directory is there already.
    DirectoryPresent,
    /// The destination directory was created.
    DirectoryCreated,
    /// The destination directory could not be created.
    DirectoryFailed,
    /// The destination path has no parent.
    NoParent,
    /// The parent directory could not be created.
    ParentFailed,
    /// The metadata of the source file could not be read.
    SourceMetaFailed,
    /// The metadata of the destination file could not be read.
    TargetMetaFailed,
    /// The destination file is up to date.
    Unchanged,
    /// The blocks of the destination file could not be read.
    MapFailed,
    /// The source file could not be compared.
    DeltaFailed,
    /// The updated file could not be written or put in place.
    ApplyFailed,
    /// The destination file was updated; `metadata` tells whether its metadata
    /// was set as well.
    Updated { metadata: bool },
    /// The source file was copied, all of its `bytes`; `metadata` tells whether
    /// the metadata was set as well.
    Copied { bytes: u64, metadata: bool },
    /// The source file could not be copied.
    CopyFailed,
}

/// What to ask of the file system next.
#[derive(Clone, Copy, Debug, PartialEq, Eq)]
pub enum Request {
    /// Find the path of the entry below the source root, and with it the
    /// destination path.
    Resolve { directory: bool },
    /// See whether the destination directory exists.
    ProbeDirectory,
    /// Create the destination directory.
    CreateDirectory,
    /// See whether the destination path has a parent, and whether that exists.
    ProbeParent,
    /// Create the parent directory.
    CreateParent,
    /// See whether the destination file exists.
    ProbeFile,
    /// Read the metadata of the source file.
    ReadSourceMeta { exists: bool },
    /// Read the metadata of the destination file.
    ReadTargetMeta { src: FileMeta },
    /// Map the blocks of the destination file.
    MapBlocks { update: Update },
    /// Compute the delta for the source file.
    ComputeDelta { update: Update },
    /// Apply the delta and write the updated file, the whole of it, to a
    /// temporary file beside the destination file.
    WriteTemporary { update: Update },
    /// Make sure that the temporary file is on disk.
    SyncTemporary { update: Update },
    /// Rename the temporary file to the destination file, which it replaces.
    ReplaceTarget { update: Update },
    /// Remove what a failed update left beside the destination file.
    RemoveTemporary,
    /// Copy the whole source file.
    CopyFile,
    /// Set the metadata of the destination file to that of the source file. The
    /// contents were copied whole, that many bytes, or updated.
    CopyMetadata { copied: Option<u64> },
    /// Nothing: the entry is done.
    Finished { outcome: Outcome },
}

/// What the file system answered.
#[derive(Clone, Copy, Debug, PartialEq, Eq)]
pub enum Reply {
    /// It was done.
    Done,
    /// It failed.
    Failed,
    /// The path exists, or does not.
    Exists { exists: bool },
    /// The path has no parent.
    NoParent,
    /// The metadata that was read.
    Meta { meta: FileMeta },
    /// That many bytes were copied.
    Copied { bytes: u64 },
}

/// The first request for an entry.
pub open spec fn first_request(is_symlink: bool, is_dir: bool) -> Request {
    if is_symlink {
        Request::Finished { outcome: Outcome::Skipped }
    } else {
        Request::Resolve { directory: is_dir }
    }
}

/// The request that follows `request` when it was answered by `reply`; nothing
/// where that is no answer to it.
pub open spec fn following(request: Request, reply: Reply) -> Option<Request> {
    match (request, reply) {
        (Request::Resolve { directory }, Reply::Done) => Some(
            if directory {
                Request::ProbeDirectory
            } else {
                Request::ProbeParent
            },
        ),
        (Request::Resolve { .. }, Reply::Failed) => finished(Outcome::OutsideSource),
        (Request::ProbeDirectory, Reply::Exists { exists }) => if exists {
            finished(Outcome::DirectoryPresent)
        } else {
            Some(Request::CreateDirectory)
        },
        (Request::CreateDirectory, Reply::Done) => finished(Outcome::DirectoryCreated),
        (Request::CreateDirectory, Reply::Failed) => finished(Outcome::DirectoryFailed),
        (Request::ProbeParent, Reply::Exists { exists }) => Some(
            if exists {
                Request::ProbeFile
            } else {
                Request::CreateParent
            },
        ),
        (Request::ProbeParent, Reply::NoParent) => finished(Outcome::NoParent),
        (Request::CreateParent, Reply::Done) => Some(Request::ProbeFile),
        (Request::CreateParent, Reply::Failed) => finished(Outcome::ParentFailed),
        (Request::ProbeFile, Reply::Exists { exists }) => Some(Request::ReadSourceMeta { exists }),
        (Request::ReadSourceMeta { exists }, Reply::Meta { meta }) => Some(
            if exists {
                Request::ReadTargetMeta { src: meta }
            } else {
                Request::CopyFile
            },
        ),
        (Request::ReadSourceMeta { .. }, Reply::Failed) => finished(Outcome::SourceMetaFailed),
        (Request::ReadTargetMeta { src }, Reply::Meta { meta }) => if changed(src, meta) {
            let block_size = block_size_for(meta.len as nat) as usize;
            Some(Request::MapBlocks { update: Update { src, dst: meta, block_size } })
        } else {
            finished(Outcome::Unchanged)
        },
        (Request::ReadTargetMeta { .. }, Reply::Failed) => finished(Outcome::TargetMetaFailed),
        (Request::MapBlocks { update }, Reply::Done) => Some(Request::ComputeDelta { update }),
        (Request::MapBlocks { .. }, Reply::Failed) => finished(Outcome::MapFailed),
        (Request::ComputeDelta { update }, Reply::Done) => Some(
            Request::WriteTemporary { update },
        ),
        (Request::ComputeDelta { .. }, Reply::Failed) => finished(Outcome::DeltaFailed),
        (Request::WriteTemporary { update }, Reply::Done) => Some(
            Request::SyncTemporary { update },
        ),
        (Request::WriteTemporary { .. }, Reply::Failed) => Some(Request::RemoveTemporary),
        (Request::SyncTemporary { update }, Reply::Done) => Some(
            Request::ReplaceTarget { update },
        ),
        (Request::SyncTemporary { .. }, Reply::Failed) => Some(Request::RemoveTemporary),
        (Request::ReplaceTarget { .. }, Reply::Done) => Some(
            Request::CopyMetadata { copied: None },
        ),
        (Request::ReplaceTarget { .. }, Reply::Failed) => Some(Request::RemoveTemporary),
        (Request::RemoveTemporary, Reply::Done) => finished(Outcome::ApplyFailed),
        (Request::RemoveTemporary, Reply::Failed) => finished(Outcome::ApplyFailed),
        (Request::CopyFile, Reply::Copied { bytes }) => Some(
            Request::CopyMetadata { copied: Some(bytes) },
        ),
        (Request::CopyFile, Reply::Failed) => finished(Outcome::CopyFailed),
        (Request::CopyMetadata { copied }, Reply::Done) => finished(contents_written(copied, true)),
        (Request::CopyMetadata { copied }, Reply::Failed) => finished(
            contents_written(copied, false),
        ),
        _ => None,
    }
}

/// The entry is done, with the given outcome.
pub open spec fn finished(outcome: Outcome) -> Option<Request> {
    Some(Request::Finished { outcome })
}

/// The outcome for a file whose contents were copied whole, or else updated.
pub open spec fn contents_written(copied: Option<u64>, metadata: bool) -> Outcome {
    match copied {
        Some(bytes) => Outcome::Copied { bytes, metadata },
        None => Outcome::Updated { metadata },
    }
}

/// The first request for an entry of the source tree.
pub fn start(is_symlink: bool, is_dir: bool) -> (r: Request)
    ensures
        r == first_request(is_symlink, is_dir),
{
    if is_symlink {
        Request::Finished { outcome: Outcome::Skipped }
    } else {
        Request::Resolve { directory: is_dir }
    }
}

/// Decides between an update and nothing, once the metadata of both files is
/// known.
pub fn plan_update(src: FileMeta, dst: FileMeta) -> (r: Option<Update>)
    ensures
        changed(src, dst) ==> r == Some(
            Update { src, dst, block_size: block_size_for(dst.len as nat) as usize },
        ),
        !changed(src, dst) ==> r is None,
{
    if file_changed(&src, &dst) {
        let block_size: usize = get_block_size(&dst);
        Some(Update { src, dst, block_size })
    } else {
        None
    }
}

/// The request that follows `request` when it was answered by `reply`; nothing
/// where that is no answer to it.
pub fn next(request: Request, reply: Reply) -> (r: Option<Request>)
    ensures
        r == following(request, reply),
{
    let outcome = match (request, reply) {
        (Request::Resolve { directory }, Reply::Done) => {
            return Some(
                if directory {
                    Request::ProbeDirectory
                } else {
                    Request::ProbeParent
                },
            );
        },
        (Request::Resolve { .. }, Reply::Failed) => Outcome::OutsideSource,
        (Request::ProbeDirectory, Reply::Exists { exists }) => {
            if !exists {
                return Some(Request::CreateDirectory);
            }
            Outcome::DirectoryPresent
        },
        (Request::CreateDirectory, Reply::Done) => Outcome::DirectoryCreated,
        (Request::CreateDirectory, Reply::Failed) => Outcome::DirectoryFailed,
        (Request::ProbeParent, Reply::Exists { exists }) => {
            return Some(
                if exists {
                    Request::ProbeFile
                } else {
                    Request::CreateParent
                },
            );
        },
        (Request::ProbeParent, Reply::NoParent) => Outcome::NoParent,
        (Request::CreateParent, Reply::Done) => {
            return Some(Request::ProbeFile);
        },
        (Request::CreateParent, Reply::Failed) => Outcome::ParentFailed,
        (Request::ProbeFile, Reply::Exists { exists }) => {
            return Some(Request::ReadSourceMeta { exists });
        },
        (Request::ReadSourceMeta { exists }, Reply::Meta { meta }) => {
            return Some(
                if exists {
                    Request::ReadTargetMeta { src: meta }
                } else {
                    Request::CopyFile
                },
            );
        },
        (Request::ReadSourceMeta { .. }, Reply::Failed) => Outcome::SourceMetaFailed,
        (Request::ReadTargetMeta { src }, Reply::Meta { meta }) => match plan_update(src, meta) {
            Some(update) => {
                return Some(Request::MapBlocks { update });
            },
            None => Outcome::Unchanged,
        },
        (Request::ReadTargetMeta { .. }, Reply::Failed) => Outcome::TargetMetaFailed,
        (Request::MapBlocks { update }, Reply::Done) => {
            return Some(Request::ComputeDelta { update });
        },
        (Request::MapBlocks { .. }, Reply::Failed) => Outcome::MapFailed,
        (Request::ComputeDelta { update }, Reply::Done) => {
            return Some(Request::WriteTemporary { update });
        },
        (Request::ComputeDelta { .. }, Reply::Failed) => Outcome::DeltaFailed,
        (Request::WriteTemporary { update }, Reply::Done) => {
            return Some(Request::SyncTemporary { update });
        },
        (Request::WriteTemporary { .. }, Reply::Failed) => {
            return Some(Request::RemoveTemporary);
        },
        (Request::SyncTemporary { update }, Reply::Done) => {
            return Some(Request::ReplaceTarget { update });
        },
        (Request::SyncTemporary { .. }, Reply::Failed) => {
            return Some(Request::RemoveTemporary);
        },
        (Request::ReplaceTarget { .. }, Reply::Done) => {
            return Some(Request::CopyMetadata { copied: None });
        },
        (Request::ReplaceTarget { .. }, Reply::Failed) => {
            return Some(Request::RemoveTemporary);
        },
        (Request::RemoveTemporary, Reply::Done) => Outcome::ApplyFailed,
        (Request::RemoveTemporary, Reply::Failed) => Outcome::ApplyFailed,
        (Request::CopyFile, Reply::Copied { bytes }) => {
            return Some(Request::CopyMetadata { copied: Some(bytes) });
        },
        (Request::CopyFile, Reply::Failed) => Outcome::CopyFailed,
        (Request::CopyMetadata { copied }, Reply::Done) => match copied {
            Some(bytes) => Outcome::Copied { bytes, metadata: true },
            None => Outcome::Updated { metadata: true },
        },
        (Request::CopyMetadata { copied }, Reply::Failed) => match copied {
            Some(bytes) => Outcome::Copied { bytes, metadata: false },
            None => Outcome::Updated { metadata: false },
        },
        _ => {
            return None;
        },
    };
    Some(Request::Finished { outcome })
}

/// How many requests can follow at most.
pub open spec fn requests_left(request: Request) -> nat {
    match request {
        Request::Resolve { .. } => 12,
        Request::ProbeParent => 11,
        Request::CreateParent => 10,
        Request::ProbeFile => 9,
        Request::ReadSourceMeta { .. } => 8,
        Request::ReadTargetMeta { .. } => 7,
        Request::MapBlocks { .. } => 6,
        Request::ComputeDelta { .. } => 5,
        Request::WriteTemporary { .. } => 4,
        Request::SyncTemporary { .. } => 3,
        Request::ReplaceTarget { .. } => 2,
        Request::CopyFile => 2,
        Request::ProbeDirectory => 2,
        Request::CreateDirectory => 1,
        Request::RemoveTemporary => 1,
        Request::CopyMetadata { .. } => 1,
        Request::Finished { .. } => 0,
    }
}

/// The requests made for one entry, each one but the last with its reply.
pub open spec fn is_run(
    is_symlink: bool,
    is_dir: bool,
    requests: Seq<Request>,
    replies: Seq<Reply>,
) -> bool {
    &&& requests.len() == replies.len() + 1
    &&& requests[0] == first_request(is_symlink, is_dir)
    &&& forall|i: int|
        0 <= i < replies.len() ==> following(#[trigger] requests[i], replies[i]) == Some(
            requests[i + 1],
        )
}

/// The request is for a step of the update `update`.
pub open spec fn step_of(request: Request, update: Update) -> bool {
    ||| request == (Request::MapBlocks { update })
    ||| request == (Request::ComputeDelta { update })
    ||| request == (Request::WriteTemporary { update })
    ||| request == (Request::SyncTemporary { update })
    ||| request == (Request::ReplaceTarget { update })
}

/// The request writes the temporary file, syncs it, or puts it in place.
pub open spec fn commits(request: Request) -> bool {
    request is WriteTemporary || request is SyncTemporary || request is ReplaceTarget
}

/// The request changes the destination file, its contents or its metadata.
pub open spec fn changes_file(request: Request) -> bool {
    request is ReplaceTarget || request is CopyFile || request is CopyMetadata
}

/// Later requests of a run have fewer requests left than earlier ones.
proof fn lemma_run_descends(
    is_symlink: bool,
    is_dir: bool,
    requests: Seq<Request>,
    replies: Seq<Reply>,
    i: int,
    j: int,
)
    requires
        is_run(is_symlink, is_dir, requests, replies),
        0 <= i <= j < requests.len(),
    ensures
        requests_left(requests[j]) + (j - i) <= requests_left(requests[i]),
    decreases j - i,
{
    if i < j {
        lemma_run_descends(is_symlink, is_dir, requests, replies, i, j - 1);
        assert(following(requests[j - 1], replies[j - 1]) == Some(requests[j - 1 + 1]));
    }
}

/// Every entry comes to an end: whatever the replies, after at most thirteen
/// requests, the last of which says that it is done. Until then some reply is
/// an answer, and a failure is one to every request that does something.
pub proof fn lemma_run_ends(
    is_symlink: bool,
    is_dir: bool,
    requests: Seq<Request>,
    replies: Seq<Reply>,
)
    requires
        is_run(is_symlink, is_dir, requests, replies),
    ensures
        requests.len() <= 13,
        requests.len() == 13 ==> requests.last() is Finished,
        requests.last() is Finished <==> forall|reply: Reply|
            #[trigger] following(requests.last(), reply) is None,
        !(requests.last() is Finished || requests.last() is ProbeDirectory
            || requests.last() is ProbeParent || requests.last() is ProbeFile) ==> following(
            requests.last(),
            Reply::Failed,
        ) is Some,
{
    lemma_run_descends(is_symlink, is_dir, requests, replies, 0, requests.len() - 1);
    let last = requests.last();
    if !(last is Finished) {
        assert(following(last, Reply::Failed) is Some || following(
            last,
            Reply::Exists { exists: true },
        ) is Some);
    }
}

/// Symbolic links are left out: nothing is asked for them.
pub proof fn lemma_symlink_is_skipped(is_dir: bool, requests: Seq<Request>, replies: Seq<Reply>)
    requires
        is_run(true, is_dir, requests, replies),
    ensures
        requests == seq![Request::Finished { outcome: Outcome::Skipped }],
{
    if replies.len() > 0 {
        assert(following(requests[0], replies[0]) == Some(requests[1]));
    }
    assert(requests =~= seq![Request::Finished { outcome: Outcome::Skipped }]);
}

/// Only a changed file is updated: where a run asks for a step of an update,
/// it has read the metadata of both files, they show a change, and the block
/// size is the one for the destination file.
pub proof fn lemma_only_changed_file_is_updated(
    is_symlink: bool,
    is_dir: bool,
    requests: Seq<Request>,
    replies: Seq<Reply>,
    i: int,
    update: Update,
)
    requires
        is_run(is_symlink, is_dir, requests, replies),
        0 <= i < requests.len(),
        step_of(requests[i], update),
    ensures
        changed(update.src, update.dst),
        update.block_size == block_size_for(update.dst.len as nat),
        exists|j: int|
            {
                &&& 0 <= j
                &&& j + 1 < i
                &&& #[trigger] requests[j] == (Request::ReadSourceMeta { exists: true })
                &&& replies[j] == (Reply::Meta { meta: update.src })
                &&& requests[j + 1] == (Request::ReadTargetMeta { src: update.src })
                &&& replies[j + 1] == (Reply::Meta { meta: update.dst })
            },
    decreases i,
{
    assert(i > 0);
    assert(following(requests[i - 1], replies[i - 1]) == Some(requests[i - 1 + 1]));
    if requests[i] is MapBlocks {
        assert(requests[i - 1] == (Request::ReadTargetMeta { src: update.src }));
        assert(i - 1 > 0);
        assert(following(requests[i - 2], replies[i - 2]) == Some(requests[i - 2 + 1]));
        assert(requests[i - 2] == (Request::ReadSourceMeta { exists: true }));
        assert(block_size_for(update.dst.len as nat) <= 262144);
    } else {
        lemma_only_changed_file_is_updated(
            is_symlink,
            is_dir,
            requests,
            replies,
            i - 1,
            update,
        );
    }
}

/// An unchanged file is left alone: where the metadata shows no change, the run
/// ends there, and nothing before it touched the destination file.
pub proof fn lemma_unchanged_file_is_left_alone(
    is_symlink: bool,
    is_dir: bool,
    requests: Seq<Request>,
    replies: Seq<Reply>,
    i: int,
    src: FileMeta,
    dst: FileMeta,
)
    requires
        is_run(is_symlink, is_dir, requests, replies),
        0 <= i < replies.len(),
        requests[i] == (Request::ReadTargetMeta { src }),
        replies[i] == (Reply::Meta { meta: dst }),
        !changed(src, dst),
    ensures
        requests.len() == i + 2,
        requests.last() == (Request::Finished { outcome: Outcome::Unchanged }),
        forall|j: int| 0 <= j < requests.len() ==> !changes_file(#[trigger] requests[j]),
{
    assert(following(requests[i], replies[i]) == Some(requests[i + 1]));
    if replies.len() > i + 1 {
        assert(following(requests[i + 1], replies[i + 1]) == Some(requests[i + 1 + 1]));
    }
    assert forall|j: int| 0 <= j < requests.len() implies !changes_file(
        #[trigger] requests[j],
    ) by {
        if j <= i {
            lemma_run_descends(is_symlink, is_dir, requests, replies, j, i);
        }
    }
}

/// An update is a two-phase commit: the destination file is replaced only right
/// after the temporary file was synced, which is done only right after the whole
/// of it was written, all for one update. Each phase follows the success of the
/// one before it.
pub proof fn lemma_replacement_follows_sync(
    is_symlink: bool,
    is_dir: bool,
    requests: Seq<Request>,
    replies: Seq<Reply>,
    i: int,
    update: Update,
)
    requires
        is_run(is_symlink, is_dir, requests, replies),
        0 <= i < requests.len(),
    ensures
        requests[i] == (Request::ReplaceTarget { update }) <==> i > 0 && requests[i - 1] == (
        Request::SyncTemporary { update }) && replies[i - 1] is Done,
        requests[i] == (Request::SyncTemporary { update }) <==> i > 0 && requests[i - 1] == (
        Request::WriteTemporary { update }) && replies[i - 1] is Done,
        requests[i] == (Request::ReplaceTarget { update }) ==> i > 1 && requests[i - 2] == (
        Request::WriteTemporary { update }) && replies[i - 2] is Done,
{
    if i > 0 {
        assert(following(requests[i - 1], replies[i - 1]) == Some(requests[i - 1 + 1]));
        if i > 1 {
            assert(following(requests[i - 2], replies[i - 2]) == Some(requests[i - 2 + 1]));
        }
    }
}

/// A failed update leaves nothing behind: the temporary file is removed after a
/// failed phase of an update, and only then.
pub proof fn lemma_failed_update_is_cleaned_up(
    is_symlink: bool,
    is_dir: bool,
    requests: Seq<Request>,
    replies: Seq<Reply>,
    i: int,
)
    requires
        is_run(is_symlink, is_dir, requests, replies),
        0 <= i < replies.len(),
    ensures
        commits(requests[i]) && replies[i] is Failed <==> requests[i + 1] is RemoveTemporary,
{
    assert(following(requests[i], replies[i]) == Some(requests[i + 1]));
}

/// A failed update leaves the destination file as it was: where a phase of an
/// update fails, no other request of the run changes that file, the temporary
/// file is removed, and then the run is over.
pub proof fn lemma_failed_update_changes_nothing(
    is_symlink: bool,
    is_dir: bool,
    requests: Seq<Request>,
    replies: Seq<Reply>,
    i: int,
)
    requires
        is_run(is_symlink, is_dir, requests, replies),
        0 <= i < replies.len(),
        commits(requests[i]),
        replies[i] is Failed,
    ensures
        forall|j: int|
            0 <= j < requests.len() && j != i ==> !changes_file(#[trigger] requests[j]),
        requests.len() <= i + 3,
        requests[i + 1] is RemoveTemporary,
        requests.len() == i + 3 ==> requests.last() == (Request::Finished {
            outcome: Outcome::ApplyFailed,
        }),
{
    assert(following(requests[i], replies[i]) == Some(requests[i + 1]));
    if replies.len() > i + 1 {
        assert(following(requests[i + 1], replies[i + 1]) == Some(requests[i + 1 + 1]));
    }
    if replies.len() > i + 2 {
        assert(following(requests[i + 2], replies[i + 2]) == Some(requests[i + 2 + 1]));
    }
    assert forall|j: int| 0 <= j < requests.len() && j != i implies !changes_file(
        #[trigger] requests[j],
    ) by {
        if j < i {
            lemma_run_descends(is_symlink, is_dir, requests, replies, j, i);
        }
    }
}

/// Metadata follows contents: it is copied after a successful update or copy,
/// and only then.
pub proof fn lemma_metadata_follows_contents(
    is_symlink: bool,
    is_dir: bool,
    requests: Seq<Request>,
    replies: Seq<Reply>,
    i: int,
)
    requires
        is_run(is_symlink, is_dir, requests, replies),
        0 <= i < replies.len(),
    ensures
        requests[i + 1] is CopyMetadata <==> {
            ||| requests[i] is ReplaceTarget && replies[i] is Done
            ||| requests[i] is CopyFile && replies[i] is Copied
        },
{
    assert(following(requests[i], replies[i]) == Some(requests[i + 1]));
}

/// A whole copy never overwrites: it is asked for only where the destination
/// file was found missing, and an update only where it was found.
pub proof fn lemma_copy_never_overwrites(
    is_symlink: bool,
    is_dir: bool,
    requests: Seq<Request>,
    replies: Seq<Reply>,
    i: int,
)
    requires
        is_run(is_symlink, is_dir, requests, replies),
        0 <= i < requests.len(),
        requests[i] is CopyFile || commits(requests[i]),
    ensures
        exists|j: int|
            {
                &&& 0 <= j < i
                &&& #[trigger] requests[j] is ProbeFile
                &&& replies[j] == (Reply::Exists { exists: commits(requests[i]) })
            },
{
    if commits(requests[i]) {
        let update = match requests[i] {
            Request::WriteTemporary { update } => update,
            Request::SyncTemporary { update } => update,
            Request::ReplaceTarget { update } => update,
            _ => arbitrary(),
        };
        lemma_only_changed_file_is_updated(is_symlink, is_dir, requests, replies, i, update);
        let j = choose|j: int|
            {
                &&& 0 <= j
                &&& j + 1 < i
                &&& #[trigger] requests[j] == (Request::ReadSourceMeta { exists: true })
                &&& replies[j] == (Reply::Meta { meta: update.src })
                &&& requests[j + 1] == (Request::ReadTargetMeta { src: update.src })
                &&& replies[j + 1] == (Reply::Meta { meta: update.dst })
            };
        lemma_missing_file_is_copied(is_symlink, is_dir, requests, replies, j);
        assert(requests[j - 1] is ProbeFile);
    } else {
        assert(i > 0);
        lemma_missing_file_is_copied(is_symlink, is_dir, requests, replies, i - 1);
        assert(requests[i - 2] is ProbeFile);
    }
}

/// The parent directory comes first: a destination file is changed only after
/// its parent was found or created.
pub proof fn lemma_parent_comes_first(
    is_symlink: bool,
    is_dir: bool,
    requests: Seq<Request>,
    replies: Seq<Reply>,
    i: int,
)
    requires
        is_run(is_symlink, is_dir, requests, replies),
        0 <= i < requests.len(),
        changes_file(requests[i]),
    ensures
        exists|j: int|
            {
                &&& 0 <= j < i
                &&& (#[trigger] requests[j] is ProbeParent && replies[j] == (Reply::Exists {
                    exists: true,
                })) || (requests[j] is CreateParent && replies[j] is Done)
            },
    decreases i,
{
    assert(following(requests[i - 1], replies[i - 1]) == Some(requests[i - 1 + 1]));
    if requests[i] is CopyMetadata {
        lemma_parent_comes_first(is_symlink, is_dir, requests, replies, i - 1);
    } else {
        lemma_copy_never_overwrites(is_symlink, is_dir, requests, replies, i);
        let j = choose|j: int|
            {
                &&& 0 <= j < i
                &&& #[trigger] requests[j] is ProbeFile
                &&& replies[j] == (Reply::Exists { exists: commits(requests[i]) })
            };
        assert(following(requests[j - 1], replies[j - 1]) == Some(requests[j - 1 + 1]));
    }
}

/// A missing parent directory is created, and only a missing one.
pub proof fn lemma_missing_parent_is_created(
    is_symlink: bool,
    is_dir: bool,
    requests: Seq<Request>,
    replies: Seq<Reply>,
    i: int,
)
    requires
        is_run(is_symlink, is_dir, requests, replies),
        0 <= i < replies.len(),
    ensures
        requests[i + 1] is CreateParent <==> requests[i] is ProbeParent && replies[i] == (
        Reply::Exists { exists: false }),
{
    assert(following(requests[i], replies[i]) == Some(requests[i + 1]));
}

/// A changed file is updated, and only a changed one: where the metadata of both
/// files was read, an update with the block size for the destination file
/// follows exactly where they show a change.
pub proof fn lemma_changed_file_is_updated(
    is_symlink: bool,
    is_dir: bool,
    requests: Seq<Request>,
    replies: Seq<Reply>,
    i: int,
    src: FileMeta,
    dst: FileMeta,
)
    requires
        is_run(is_symlink, is_dir, requests, replies),
        0 <= i < replies.len(),
        requests[i] == (Request::ReadTargetMeta { src }),
        replies[i] == (Reply::Meta { meta: dst }),
    ensures
        changed(src, dst) <==> requests[i + 1] is MapBlocks,
        requests[i + 1] matches Request::MapBlocks { update } ==> update.src == src && update.dst
            == dst && update.block_size == block_size_for(dst.len as nat),
{
    assert(following(requests[i], replies[i]) == Some(requests[i + 1]));
    assert(block_size_for(dst.len as nat) <= 262144);
}

/// A missing file is copied whole, and only a missing one: once the metadata of
/// the source file is read, a whole copy follows exactly where the destination
/// file was found missing.
pub proof fn lemma_missing_file_is_copied(
    is_symlink: bool,
    is_dir: bool,
    requests: Seq<Request>,
    replies: Seq<Reply>,
    i: int,
)
    requires
        is_run(is_symlink, is_dir, requests, replies),
        0 <= i < replies.len(),
    ensures
        requests[i + 1] is CopyFile <==> requests[i] == (Request::ReadSourceMeta { exists: false })
            && replies[i] is Meta,
        requests[i] matches Request::ReadSourceMeta { exists } ==> i > 0 && requests[i
            - 1] is ProbeFile && replies[i - 1] == (Reply::Exists { exists }),
{
    assert(following(requests[i], replies[i]) == Some(requests[i + 1]));
    if i > 0 {
        assert(following(requests[i - 1], replies[i - 1]) == Some(requests[i - 1 + 1]));
    }
}

/// A directory is created where it is missing, and only there: it is asked for
/// exactly after the destination directory was found missing. Where it was found
/// the entry is done. A directory is not treated as a file: its run asks for
/// nothing else.
pub proof fn lemma_directory_is_created(requests: Seq<Request>, replies: Seq<Reply>, i: int)
    requires
        is_run(false, true, requests, replies),
        0 <= i < requests.len(),
    ensures
        requests[i] is Resolve || requests[i] is ProbeDirectory || requests[i] is CreateDirectory
            || requests[i] is Finished,
        requests[i] is CreateDirectory <==> i > 0 && requests[i - 1] is ProbeDirectory && replies[i
            - 1] == (Reply::Exists { exists: false }),
        i < replies.len() && requests[i] is ProbeDirectory && replies[i] == (Reply::Exists {
            exists: true,
        }) ==> requests.len() == i + 2 && requests.last() == (Request::Finished {
            outcome: Outcome::DirectoryPresent,
        }),
        i < replies.len() && requests[i] is CreateDirectory ==> requests.len() == i + 2
            && requests.last() == (Request::Finished {
            outcome: if replies[i] is Done {
                Outcome::DirectoryCreated
            } else {
                Outcome::DirectoryFailed
            },
        }),
    decreases i,
{
    if i > 0 {
        lemma_directory_is_created(requests, replies, i - 1);
        assert(following(requests[i - 1], replies[i - 1]) == Some(requests[i - 1 + 1]));
    }
    if i < replies.len() {
        assert(following(requests[i], replies[i]) == Some(requests[i + 1]));
        if i + 1 < replies.len() {
            assert(following(requests[i + 1], replies[i + 1]) == Some(requests[i + 1 + 1]));
        }
    }
}

} // verus!
