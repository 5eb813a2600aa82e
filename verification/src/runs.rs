//! What the runs of entries look like, from the first request to the outcome.

use crate::meta::{
    block_size_for, lemma_block_size_range, lemma_later_time_is_a_change,
    lemma_other_size_is_a_change, FileMeta,
};
use crate::walk::{following, is_run, Outcome, Reply, Request, Update};
use vstd::prelude::*;

verus! {

/// Requests that do something are answered by success or failure, probes by
/// what was found, and requests for metadata or a copy by what was read or
/// copied, whatever that is, or by failure. Nothing else is an answer, and an
/// entry that is done takes none.
pub proof fn lemma_answers(request: Request, reply: Reply)
    ensures
        following(request, reply) is Some <==> match reply {
            Reply::Done => {
                ||| request is Resolve
                ||| request is CreateDirectory
                ||| request is CreateParent
                ||| request is MapBlocks
                ||| request is ComputeDelta
                ||| request is WriteTemporary
                ||| request is SyncTemporary
                ||| request is ReplaceTarget
                ||| request is RemoveTemporary
                ||| request is CopyMetadata
            },
            Reply::Failed => !(request is ProbeDirectory || request is ProbeParent
                || request is ProbeFile || request is Finished),
            Reply::Exists { .. } => request is ProbeDirectory || request is ProbeParent
                || request is ProbeFile,
            Reply::NoParent => request is ProbeParent,
            Reply::Meta { .. } => request is ReadSourceMeta || request is ReadTargetMeta,
            Reply::Copied { .. } => request is CopyFile,
        },
{
}

/// The replies decide a run: two runs of one entry in which the same replies
/// came make the same requests.
pub proof fn lemma_replies_decide_run(
    is_symlink: bool,
    is_dir: bool,
    x: Seq<Request>,
    y: Seq<Request>,
    replies: Seq<Reply>,
)
    requires
        is_run(is_symlink, is_dir, x, replies),
        is_run(is_symlink, is_dir, y, replies),
    ensures
        x == y,
{
    assert forall|i: int| 0 <= i < x.len() implies #[trigger] x[i] == y[i] by {
        lemma_same_replies_same_request(is_symlink, is_dir, x, y, replies, i);
    }
}

/// The same replies lead to the same request.
proof fn lemma_same_replies_same_request(
    is_symlink: bool,
    is_dir: bool,
    x: Seq<Request>,
    y: Seq<Request>,
    replies: Seq<Reply>,
    i: int,
)
    requires
        is_run(is_symlink, is_dir, x, replies),
        is_run(is_symlink, is_dir, y, replies),
        0 <= i < x.len(),
    ensures
        x[i] == y[i],
    decreases i,
{
    if i > 0 {
        lemma_same_replies_same_request(is_symlink, is_dir, x, y, replies, i - 1);
        assert(following(x[i - 1], replies[i - 1]) == Some(x[i - 1 + 1]));
        assert(following(y[i - 1], replies[i - 1]) == Some(y[i - 1 + 1]));
    }
}

/// The requests up to the one that looks for the destination file, where its
/// parent directory was found or was missing.
pub open spec fn requests_to_file(parent: bool) -> Seq<Request> {
    if parent {
        seq![Request::Resolve { directory: false }, Request::ProbeParent, Request::ProbeFile]
    } else {
        seq![
            Request::Resolve { directory: false },
            Request::ProbeParent,
            Request::CreateParent,
            Request::ProbeFile,
        ]
    }
}

/// The replies to these requests but the last, all of them successes.
pub open spec fn replies_to_file(parent: bool) -> Seq<Reply> {
    if parent {
        seq![Reply::Done, Reply::Exists { exists: true }]
    } else {
        seq![Reply::Done, Reply::Exists { exists: false }, Reply::Done]
    }
}

/// A run that goes on behind another one.
proof fn lemma_run_goes_on(
    is_dir: bool,
    requests: Seq<Request>,
    replies: Seq<Reply>,
    more_requests: Seq<Request>,
    more_replies: Seq<Reply>,
)
    requires
        is_run(false, is_dir, requests, replies),
        more_requests.len() == more_replies.len() > 0,
        following(requests.last(), more_replies[0]) == Some(more_requests[0]),
        forall|i: int|
            0 <= i < more_replies.len() - 1 ==> following(
                #[trigger] more_requests[i],
                more_replies[i + 1],
            ) == Some(more_requests[i + 1]),
    ensures
        is_run(false, is_dir, requests + more_requests, replies + more_replies),
{
    let all = requests + more_requests;
    let answers = replies + more_replies;
    let n = replies.len() as int;
    assert forall|i: int| 0 <= i < answers.len() implies following(
        #[trigger] all[i],
        answers[i],
    ) == Some(all[i + 1]) by {
        if i < n {
            assert(following(requests[i], replies[i]) == Some(requests[i + 1]));
        } else if i > n {
            let k = i - n - 1;
            assert(following(more_requests[k], more_replies[k + 1]) == Some(more_requests[k + 1]));
        }
    }
}

/// A regular file comes to where the destination file is looked for.
proof fn lemma_run_to_file(parent: bool)
    ensures
        is_run(false, false, requests_to_file(parent), replies_to_file(parent)),
{
}

/// A changed file is brought up to date: where the destination file exists, its
/// size differs from that of the source or the source is newer, and all goes
/// well, the run compares the metadata that was read, maps, computes, writes,
/// syncs and replaces for these two files, and ends with the update. Whether the
/// metadata could be copied is told, and undoes nothing. A missing parent
/// directory is created first and changes nothing else.
pub proof fn lemma_run_of_changed_file(parent: bool, src: FileMeta, dst: FileMeta, metadata: bool)
    requires
        src.len != dst.len || match (src.modified, dst.modified) {
            (Some(s), Some(d)) => s > d,
            (Some(s), None) => s > 0,
            (None, Some(d)) => 0 > d,
            (None, None) => false,
        },
    ensures
        block_size_for(dst.len as nat) <= usize::MAX,
        ({
            let update = Update { src, dst, block_size: block_size_for(dst.len as nat) as usize };
            is_run(
                false,
                false,
                requests_to_file(parent) + seq![
                    Request::ReadSourceMeta { exists: true },
                    Request::ReadTargetMeta { src },
                    Request::MapBlocks { update },
                    Request::ComputeDelta { update },
                    Request::WriteTemporary { update },
                    Request::SyncTemporary { update },
                    Request::ReplaceTarget { update },
                    Request::CopyMetadata { copied: None },
                    Request::Finished { outcome: Outcome::Updated { metadata } },
                ],
                replies_to_file(parent) + seq![
                    Reply::Exists { exists: true },
                    Reply::Meta { meta: src },
                    Reply::Meta { meta: dst },
                    Reply::Done,
                    Reply::Done,
                    Reply::Done,
                    Reply::Done,
                    Reply::Done,
                    if metadata {
                        Reply::Done
                    } else {
                        Reply::Failed
                    },
                ],
            )
        }),
{
    let update = Update { src, dst, block_size: block_size_for(dst.len as nat) as usize };
    if src.len != dst.len {
        lemma_other_size_is_a_change(src, dst);
    } else {
        lemma_later_time_is_a_change(src, dst);
    }
    lemma_block_size_range(dst.len as nat);
    lemma_run_to_file(parent);
    let requests = seq![
        Request::ReadSourceMeta { exists: true },
        Request::ReadTargetMeta { src },
        Request::MapBlocks { update },
        Request::ComputeDelta { update },
        Request::WriteTemporary { update },
        Request::SyncTemporary { update },
        Request::ReplaceTarget { update },
        Request::CopyMetadata { copied: None },
        Request::Finished { outcome: Outcome::Updated { metadata } },
    ];
    let replies = seq![
        Reply::Exists { exists: true },
        Reply::Meta { meta: src },
        Reply::Meta { meta: dst },
        Reply::Done,
        Reply::Done,
        Reply::Done,
        Reply::Done,
        Reply::Done,
        if metadata {
            Reply::Done
        } else {
            Reply::Failed
        },
    ];
    lemma_run_goes_on(
        false,
        requests_to_file(parent),
        replies_to_file(parent),
        requests,
        replies,
    );
}

/// An unchanged file ends the run with its metadata: where the destination file
/// has the size of the source and the source is not newer, nothing is asked for
/// behind the metadata of both.
pub proof fn lemma_run_of_unchanged_file(parent: bool, src: FileMeta, dst: FileMeta)
    requires
        src.len == dst.len,
        match (src.modified, dst.modified) {
            (Some(s), Some(d)) => s <= d,
            (Some(s), None) => s <= 0,
            (None, Some(d)) => 0 <= d,
            (None, None) => true,
        },
    ensures
        is_run(
            false,
            false,
            requests_to_file(parent) + seq![
                Request::ReadSourceMeta { exists: true },
                Request::ReadTargetMeta { src },
                Request::Finished { outcome: Outcome::Unchanged },
            ],
            replies_to_file(parent) + seq![
                Reply::Exists { exists: true },
                Reply::Meta { meta: src },
                Reply::Meta { meta: dst },
            ],
        ),
{
    lemma_later_time_is_a_change(src, dst);
    lemma_run_to_file(parent);
    lemma_run_goes_on(
        false,
        requests_to_file(parent),
        replies_to_file(parent),
        seq![
            Request::ReadSourceMeta { exists: true },
            Request::ReadTargetMeta { src },
            Request::Finished { outcome: Outcome::Unchanged },
        ],
        seq![
            Reply::Exists { exists: true },
            Reply::Meta { meta: src },
            Reply::Meta { meta: dst },
        ],
    );
}

/// A missing file is copied whole, whatever the metadata of the source, and the
/// run ends with the number of bytes that the copy gave.
pub proof fn lemma_run_of_missing_file(parent: bool, src: FileMeta, bytes: u64, metadata: bool)
    ensures
        is_run(
            false,
            false,
            requests_to_file(parent) + seq![
                Request::ReadSourceMeta { exists: false },
                Request::CopyFile,
                Request::CopyMetadata { copied: Some(bytes) },
                Request::Finished { outcome: Outcome::Copied { bytes, metadata } },
            ],
            replies_to_file(parent) + seq![
                Reply::Exists { exists: false },
                Reply::Meta { meta: src },
                Reply::Copied { bytes },
                if metadata {
                    Reply::Done
                } else {
                    Reply::Failed
                },
            ],
        ),
{
    let requests = seq![
        Request::ReadSourceMeta { exists: false },
        Request::CopyFile,
        Request::CopyMetadata { copied: Some(bytes) },
        Request::Finished { outcome: Outcome::Copied { bytes, metadata } },
    ];
    let replies = seq![
        Reply::Exists { exists: false },
        Reply::Meta { meta: src },
        Reply::Copied { bytes },
        if metadata {
            Reply::Done
        } else {
            Reply::Failed
        },
    ];
    lemma_run_to_file(parent);
    assert(following(requests[0], replies[1]) == Some(requests[1]));
    assert(following(requests[1], replies[2]) == Some(requests[2]));
    assert(following(requests[2], replies[3]) == Some(requests[3]));
    lemma_run_goes_on(
        false,
        requests_to_file(parent),
        replies_to_file(parent),
        requests,
        replies,
    );
}

/// A directory is looked for and created where it is missing.
pub proof fn lemma_run_of_directory(created: bool)
    ensures
        is_run(
            false,
            true,
            seq![
                Request::Resolve { directory: true },
                Request::ProbeDirectory,
                Request::Finished { outcome: Outcome::DirectoryPresent },
            ],
            seq![Reply::Done, Reply::Exists { exists: true }],
        ),
        is_run(
            false,
            true,
            seq![
                Request::Resolve { directory: true },
                Request::ProbeDirectory,
                Request::CreateDirectory,
                Request::Finished {
                    outcome: if created {
                        Outcome::DirectoryCreated
                    } else {
                        Outcome::DirectoryFailed
                    },
                },
            ],
            seq![
                Reply::Done,
                Reply::Exists { exists: false },
                if created {
                    Reply::Done
                } else {
                    Reply::Failed
                },
            ],
        ),
{
}

/// The two files that are compared are the two that were read: where the
/// destination file exists, the metadata of the source, whatever it is, goes into
/// the request for that of the destination, and nothing else leads there.
pub proof fn lemma_source_metadata_is_kept(
    is_symlink: bool,
    is_dir: bool,
    requests: Seq<Request>,
    replies: Seq<Reply>,
    i: int,
    src: FileMeta,
)
    requires
        is_run(is_symlink, is_dir, requests, replies),
        0 <= i < replies.len(),
    ensures
        requests[i + 1] == (Request::ReadTargetMeta { src }) <==> requests[i] == (
        Request::ReadSourceMeta { exists: true }) && replies[i] == (Reply::Meta { meta: src }),
{
    assert(following(requests[i], replies[i]) == Some(requests[i + 1]));
}

/// What became of the contents is kept while the metadata is copied: the number
/// of bytes that a whole copy gave, exactly where there was one, and nothing
/// exactly where the destination file was replaced.
pub proof fn lemma_copied_bytes_are_kept(
    is_symlink: bool,
    is_dir: bool,
    requests: Seq<Request>,
    replies: Seq<Reply>,
    i: int,
    bytes: u64,
)
    requires
        is_run(is_symlink, is_dir, requests, replies),
        0 <= i < replies.len(),
    ensures
        requests[i + 1] == (Request::CopyMetadata { copied: Some(bytes) }) <==> requests[i] == (
        Request::CopyFile) && replies[i] == (Reply::Copied { bytes }),
        requests[i + 1] == (Request::CopyMetadata { copied: None }) <==> requests[i]
            is ReplaceTarget && replies[i] is Done,
{
    assert(following(requests[i], replies[i]) == Some(requests[i + 1]));
}

/// An update goes through its phases unchanged: each one that succeeds hands the
/// update on to the next as it is.
pub proof fn lemma_update_is_handed_on(update: Update)
    ensures
        following(Request::MapBlocks { update }, Reply::Done) == Some(
            Request::ComputeDelta { update },
        ),
        following(Request::ComputeDelta { update }, Reply::Done) == Some(
            Request::WriteTemporary { update },
        ),
        following(Request::WriteTemporary { update }, Reply::Done) == Some(
            Request::SyncTemporary { update },
        ),
        following(Request::SyncTemporary { update }, Reply::Done) == Some(
            Request::ReplaceTarget { update },
        ),
        following(Request::ReplaceTarget { update }, Reply::Done) == Some(
            Request::CopyMetadata { copied: None },
        ),
{
}

/// A failure is told as what it is: behind a failed request the run ends with the
/// outcome for it. Only a phase of an update that has a temporary file removes
/// that file first, and metadata that could not be copied leaves the outcome for
/// the contents as it is.
pub proof fn lemma_failure_is_told(
    is_symlink: bool,
    is_dir: bool,
    requests: Seq<Request>,
    replies: Seq<Reply>,
    i: int,
)
    requires
        is_run(is_symlink, is_dir, requests, replies),
        0 <= i < replies.len(),
        replies[i] is Failed || replies[i] is NoParent || requests[i] is RemoveTemporary,
    ensures
        requests[i + 1] == match requests[i] {
            Request::WriteTemporary { .. } => Request::RemoveTemporary,
            Request::SyncTemporary { .. } => Request::RemoveTemporary,
            Request::ReplaceTarget { .. } => Request::RemoveTemporary,
            _ => Request::Finished {
                outcome: match requests[i] {
                    Request::Resolve { .. } => Outcome::OutsideSource,
                    Request::CreateDirectory => Outcome::DirectoryFailed,
                    Request::ProbeParent => Outcome::NoParent,
                    Request::CreateParent => Outcome::ParentFailed,
                    Request::ReadSourceMeta { .. } => Outcome::SourceMetaFailed,
                    Request::ReadTargetMeta { .. } => Outcome::TargetMetaFailed,
                    Request::MapBlocks { .. } => Outcome::MapFailed,
                    Request::ComputeDelta { .. } => Outcome::DeltaFailed,
                    Request::CopyFile => Outcome::CopyFailed,
                    Request::CopyMetadata { copied: Some(bytes) } => Outcome::Copied {
                        bytes,
                        metadata: false,
                    },
                    Request::CopyMetadata { copied: None } => Outcome::Updated {
                        metadata: false,
                    },
                    _ => Outcome::ApplyFailed,
                },
            },
        },
{
    assert(following(requests[i], replies[i]) == Some(requests[i + 1]));
}

/// Every outcome has its cause: a run of an entry that is no symbolic link ends
/// with an outcome only right after the reply that it stands for. It is unchanged
/// only where both files were read, have one size, and the source is not newer;
/// it is updated only where the destination file was replaced; it is copied, with
/// a number of bytes, only where a whole copy gave that number; and the metadata
/// counts as copied only where it was.
pub proof fn lemma_outcome_has_cause(
    is_dir: bool,
    requests: Seq<Request>,
    replies: Seq<Reply>,
    outcome: Outcome,
)
    requires
        is_run(false, is_dir, requests, replies),
        requests.last() == (Request::Finished { outcome }),
    ensures
        replies.len() > 0,
        ({
            let i = replies.len() - 1;
            let request = requests[i];
            let reply = replies[i];
            match outcome {
                Outcome::Skipped => false,
                Outcome::OutsideSource => request is Resolve && reply is Failed,
                Outcome::DirectoryPresent => request is ProbeDirectory && reply == (Reply::Exists {
                    exists: true,
                }),
                Outcome::DirectoryCreated => request is CreateDirectory && reply is Done,
                Outcome::DirectoryFailed => request is CreateDirectory && reply is Failed,
                Outcome::NoParent => request is ProbeParent && reply is NoParent,
                Outcome::ParentFailed => request is CreateParent && reply is Failed,
                Outcome::SourceMetaFailed => request is ReadSourceMeta && reply is Failed,
                Outcome::TargetMetaFailed => request is ReadTargetMeta && reply is Failed,
                Outcome::Unchanged => request matches Request::ReadTargetMeta { src }
                    && reply matches Reply::Meta { meta: dst } && src.len == dst.len && match (
                    src.modified,
                    dst.modified,
                ) {
                    (Some(s), Some(d)) => s <= d,
                    (Some(s), None) => s <= 0,
                    (None, Some(d)) => 0 <= d,
                    (None, None) => true,
                },
                Outcome::MapFailed => request is MapBlocks && reply is Failed,
                Outcome::DeltaFailed => request is ComputeDelta && reply is Failed,
                Outcome::ApplyFailed => {
                    &&& i > 0
                    &&& request is RemoveTemporary
                    &&& requests[i - 1] is WriteTemporary || requests[i - 1] is SyncTemporary
                        || requests[i - 1] is ReplaceTarget
                    &&& replies[i - 1] is Failed
                },
                Outcome::Updated { metadata } => {
                    &&& i > 0
                    &&& requests[i - 1] is ReplaceTarget
                    &&& replies[i - 1] is Done
                    &&& request == (Request::CopyMetadata { copied: None })
                    &&& metadata <==> reply is Done
                },
                Outcome::Copied { bytes, metadata } => {
                    &&& i > 0
                    &&& requests[i - 1] is CopyFile
                    &&& replies[i - 1] == (Reply::Copied { bytes })
                    &&& request == (Request::CopyMetadata { copied: Some(bytes) })
                    &&& metadata <==> reply is Done
                },
                Outcome::CopyFailed => request is CopyFile && reply is Failed,
            }
        }),
{
    let i = replies.len() - 1;
    assert(i >= 0);
    assert(following(requests[i], replies[i]) == Some(requests[i + 1]));
    if i > 0 {
        assert(following(requests[i - 1], replies[i - 1]) == Some(requests[i - 1 + 1]));
    }
}

} // verus!
