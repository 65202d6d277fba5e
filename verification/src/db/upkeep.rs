//! Background upkeep: pruning expired entries and reclaiming blob files that
//! nothing references.

use vstd::prelude::*;
use vstd::string::*;

use super::blob;
use super::PRUNE_BATCH;
use crate::hexa;

verus! {

/// Turn the time since the unix epoch, in microseconds, into a timestamp.
///
/// Fails where the clock is set before the epoch, for the reason given.
pub fn unix_micros(since_epoch: Result<u128, String>) -> (micros: Result<i64, String>)
    ensures
        micros == match since_epoch {
            Ok(since) => Ok::<i64, String>(since as i64),
            Err(reason) => Err(reason),
        },
{
    match since_epoch {
        Ok(since) => Ok(
            #[verifier::truncate]
            (since as i64),
        ),
        Err(reason) => Err(reason),
    }
}

/// The paths of blob files.
pub open spec fn paths_text(paths: Seq<Vec<String>>) -> Seq<Seq<Seq<char>>> {
    paths.map_values(|p: Vec<String>| blob::path_text(p@))
}

/// Where the blobs with the given ids lie.
pub open spec fn blob_paths(ids: Seq<[u8; 32]>) -> Seq<Seq<Seq<char>>> {
    ids.map_values(|id: [u8; 32]| blob::blob_path(id@))
}

/// Paths of the blob files that lost their last reference, to be removed as far
/// as that succeeds.
pub fn released_paths(ids: &[[u8; 32]]) -> (paths: Vec<Vec<String>>)
    ensures
        paths_text(paths@) == blob_paths(ids@),
{
    let mut paths: Vec<Vec<String>> = Vec::new();
    for i in 0..ids.len()
        invariant
            paths@.len() == i,
            forall|j: int|
                0 <= j < i ==> blob::path_text(#[trigger] paths@[j]@) == blob::blob_path(ids@[j]@),
    {
        paths.push(blob::id_path(&ids[i]));
    }
    assert(paths_text(paths@) =~= blob_paths(ids@));
    paths
}

/// What the prune task learns.
pub enum PruneEvent {
    /// The clock was read, or is set before the epoch.
    Clock(Result<i64, String>),
    /// A batch was pruned: how many entries went, and which blobs with them.
    Pruned(usize, Vec<[u8; 32]>),
    /// A batch could not be pruned.
    Failed,
}

/// What the prune task does next.
pub enum PruneStep {
    /// Prune up to `limit` entries that expired before `now`.
    Batch {
        /// timestamp that expirations are compared with
        now: i64,
        /// maximum count of entries
        limit: i64,
    },
    /// Remove blob files, then go on with the backlog, or wait.
    Remove {
        /// files to be removed, as far as that succeeds
        paths: Vec<Vec<String>>,
        /// may there be more to prune right away?
        again: bool,
    },
    /// Wait for the next pass.
    Wait,
}

/// Decide the next step of the prune task.
///
/// A backlog is drained a batch at a time before the task waits, so that a large
/// number of simultaneous expirations does not take a whole interval per batch.
pub fn prune_step(event: PruneEvent) -> (step: PruneStep)
    ensures
        match event {
            PruneEvent::Clock(Ok(now)) => step == (PruneStep::Batch { now, limit: PRUNE_BATCH }),
            PruneEvent::Clock(Err(_)) => step is Wait,
            PruneEvent::Failed => step is Wait,
            PruneEvent::Pruned(count, ids) => {
                &&& step is Remove
                &&& paths_text(step->paths@) == blob_paths(ids@)
                &&& step->again == (count >= PRUNE_BATCH)
            },
        },
{
    match event {
        PruneEvent::Clock(Ok(now)) => PruneStep::Batch { now, limit: PRUNE_BATCH },
        PruneEvent::Clock(Err(_)) => PruneStep::Wait,
        PruneEvent::Failed => PruneStep::Wait,
        PruneEvent::Pruned(count, ids) => PruneStep::Remove {
            paths: released_paths(ids.as_slice()),
            again: count >= PRUNE_BATCH as usize,
        },
    }
}

/// What the cleanup task does about one item of a directory.
pub enum CleanupStep {
    /// Leave it alone.
    Skip,
    /// Clean up below it, then remove the directory where it is left empty and
    /// `remove_after` holds.
    Descend {
        /// has the directory gone untouched for long enough?
        remove_after: bool,
    },
    /// Remove the file unless a row references the blob with this id.
    Check([u8; 32]),
}

/// Has an item gone untouched since the cutoff? One without a known time of
/// modification counts as touched.
pub open spec fn stale(modified: Option<i128>, cutoff: i128) -> bool {
    modified is Some && modified->0 <= cutoff
}

/// Is this what the cleanup task does about an item with the given name in the
/// given directory below the root?
pub open spec fn cleanup_decides(
    dir: Seq<Seq<char>>,
    name: Seq<char>,
    is_dir: bool,
    is_stale: bool,
    step: CleanupStep,
) -> bool {
    let own = hexa::hex_decoded32(name);
    if is_dir {
        if dir.len() < blob::SHARD_DEPTH && blob::shard_name(name) {
            step == (CleanupStep::Descend { remove_after: is_stale })
        } else {
            step is Skip
        }
    } else if dir.len() == blob::SHARD_DEPTH && is_stale && own is Some && blob::blob_path(own->0)
        == dir.push(name) {
        step is Check && step->Check_0@ == own->0
    } else {
        step is Skip
    }
}

/// Decide what the cleanup task does about one item of the directory `dir`.
///
/// Only the layout of the blobs is walked, never anything else that happens to
/// live below the root, and nothing is touched that may be a write in flight.
/// Times are in nanoseconds since the unix epoch.
pub fn cleanup_step(
    dir: &[String],
    name: &str,
    is_dir: bool,
    modified: Option<i128>,
    cutoff: i128,
) -> (step: CleanupStep)
    ensures
        cleanup_decides(blob::path_text(dir@), name@, is_dir, stale(modified, cutoff), step),
{
    let is_stale: bool = match modified {
        Some(t) => t <= cutoff,
        None => false,
    };
    assert(blob::path_text(dir@).len() == dir@.len());
    if is_dir {
        if dir.len() >= blob::SHARD_DEPTH || !blob::is_shard_name(name) {
            return CleanupStep::Skip;
        }
        return CleanupStep::Descend { remove_after: is_stale };
    }
    if dir.len() == blob::SHARD_DEPTH && is_stale {
        match blob::parse_name(name) {
            None => CleanupStep::Skip,
            Some(id) => {
                let mut path = super::clone_path(dir);
                path.push(name.to_owned());
                assert(blob::path_text(path@) =~= blob::path_text(dir@).push(name@)) by {
                    let short = path@.drop_last();
                    assert(blob::path_text(path@).drop_last() =~= blob::path_text(short));
                }
                if blob::is_own_path(&id, path.as_slice()) {
                    CleanupStep::Check(id)
                } else {
                    CleanupStep::Skip
                }
            },
        }
    } else {
        CleanupStep::Skip
    }
}

/// Whether a file that was checked is removed, given whether a row references its
/// blob, or why that could not be looked up.
pub open spec fn lookup_decides(referenced: Result<bool, String>) -> Result<bool, String> {
    match referenced {
        Ok(referenced) => Ok(!referenced),
        Err(reason) => Err(reason),
    }
}

/// Decide whether to remove a file that was checked, given whether a row
/// references its blob. Where that could not be looked up the pass ends.
pub fn after_lookup(referenced: Result<bool, String>) -> (remove: Result<bool, String>)
    ensures
        remove == lookup_decides(referenced),
{
    match referenced {
        Ok(referenced) => Ok(!referenced),
        Err(reason) => Err(reason),
    }
}

/// Whatever a blob file's name is not made of is left alone: an item whose name
/// holds a character that is no hexadecimal digit, such as the database file
/// itself, is neither entered nor removed.
pub proof fn lemma_cleanup_spares(
    dir: Seq<Seq<char>>,
    name: Seq<char>,
    is_dir: bool,
    is_stale: bool,
    step: CleanupStep,
)
    requires
        exists|i: int| 0 <= i < name.len() && hexa::hex_value(#[trigger] name[i]) is None,
        cleanup_decides(dir, name, is_dir, is_stale, step),
    ensures
        step is Skip,
{
}

/// A file that was touched after the cutoff is never removed: it may be a write
/// in flight whose row is not committed yet.
pub proof fn lemma_cleanup_grace(
    dir: Seq<Seq<char>>,
    name: Seq<char>,
    modified: Option<i128>,
    cutoff: i128,
    step: CleanupStep,
)
    requires
        !stale(modified, cutoff),
        cleanup_decides(dir, name, false, stale(modified, cutoff), step),
    ensures
        step is Skip,
{
}

/// The cleanup task reaches every blob: it enters each directory on the way and
/// checks the file under the id that it was written for.
pub proof fn lemma_cleanup_reaches(id: Seq<u8>, level: int, is_stale: bool, step: CleanupStep)
    requires
        id.len() == 32,
        0 <= level <= blob::SHARD_DEPTH,
        cleanup_decides(
            blob::blob_path(id).take(level),
            blob::blob_path(id)[level],
            level < blob::SHARD_DEPTH,
            is_stale,
            step,
        ),
    ensures
        level < blob::SHARD_DEPTH ==> step == (CleanupStep::Descend { remove_after: is_stale }),
        level == blob::SHARD_DEPTH && is_stale ==> step is Check && step->Check_0@ == id,
{
    blob::lemma_name_round_trip(id);
    let path = blob::blob_path(id);
    assert(path.len() == 4);
    assert(path.take(3).push(path[3]) =~= path);
    assert(path[3] == path.last());
}

/// Expired entries are pruned 256 at a time. After a batch the blob files that lost
/// their last reference are removed, each at the path where its identifier belongs,
/// and there may be more to prune where the batch was full. Where the clock or the
/// database failed the task waits.
pub proof fn lemma_pruned_in_batches(event: PruneEvent, step: PruneStep)
    requires
        call_ensures(prune_step, (event,), step),
    ensures
        match event {
            PruneEvent::Clock(Ok(now)) => step is Batch && step->now == now && step->limit == 256,
            PruneEvent::Clock(Err(_)) => step is Wait,
            PruneEvent::Failed => step is Wait,
            PruneEvent::Pruned(count, ids) => {
                &&& step is Remove
                &&& step->again <==> count >= 256
                &&& step->paths@.len() == ids@.len()
            },
        },
{
    if event is Pruned {
        let ids = event->Pruned_1@;
        assert(paths_text(step->paths@).len() == step->paths@.len());
        assert(blob_paths(ids).len() == ids.len());
    }
}

/// The files that are removed after a batch are just those of the identifiers that
/// came with it.
pub proof fn lemma_pruned_files(
    count: usize,
    ids: Vec<[u8; 32]>,
    step: PruneStep,
    i: int,
    slice: &[String],
    own: bool,
)
    requires
        call_ensures(prune_step, (PruneEvent::Pruned(count, ids),), step),
        0 <= i < ids@.len(),
        step is Remove && step->paths@.len() == ids@.len() ==> slice@ == step->paths@[i]@,
        call_ensures(blob::is_own_path, (&ids@[i], slice), own),
    ensures
        step is Remove && step->paths@.len() == ids@.len(),
        own,
{
    let (a, b) = (paths_text(step->paths@), blob_paths(ids@));
    assert(a.len() == step->paths@.len() && b.len() == ids@.len());
    assert(a[i] == b[i]);
}

/// The cleanup task looks at a file exactly where it lies at the path of the blob
/// that it is named by, and has gone untouched since the cutoff. It walks down three
/// levels of directories with names of four hexadecimal digits, and removes those
/// behind itself that have gone untouched as long. It leaves all else alone.
pub proof fn lemma_cleanup_walks(
    dir: &[String],
    name: &str,
    is_dir: bool,
    modified: Option<i128>,
    cutoff: i128,
    step: CleanupStep,
    shard: bool,
    id: Option<[u8; 32]>,
    path: &[String],
    own: bool,
)
    requires
        call_ensures(cleanup_step, (dir, name, is_dir, modified, cutoff), step),
        call_ensures(blob::is_shard_name, (name,), shard),
        call_ensures(blob::parse_name, (name,), id),
        path@.len() == dir@.len() + 1,
        forall|i: int| 0 <= i < dir@.len() ==> (#[trigger] path@[i])@ == dir@[i]@,
        path@.last()@ == name@,
        id is Some ==> call_ensures(blob::is_own_path, (&id->0, path), own),
    ensures
        step is Descend <==> is_dir && dir@.len() < 3 && shard,
        step is Descend ==> (step->remove_after <==> modified is Some && modified->0 <= cutoff),
        step is Check <==> {
            &&& !is_dir && dir@.len() == 3
            &&& modified is Some && modified->0 <= cutoff
            &&& id is Some && own
        },
        step is Check ==> step->Check_0@ == id->0@,
{
    let (d, p) = (blob::path_text(dir@), blob::path_text(path@));
    assert(d.len() == dir@.len() && p.len() == path@.len());
    assert(p =~= d.push(name@)) by {
        assert forall|i: int| 0 <= i < p.len() implies p[i] == d.push(name@)[i] by {
            if i < dir@.len() {
                assert(p[i] == path@[i]@);
            }
        }
    }
}

/// A file that was checked goes exactly where no row references its blob.
pub proof fn lemma_unreferenced_goes(
    referenced: Result<bool, String>,
    remove: Result<bool, String>,
)
    requires
        call_ensures(after_lookup, (referenced,), remove),
    ensures
        referenced == Ok::<bool, String>(true) ==> remove == Ok::<bool, String>(false),
        referenced == Ok::<bool, String>(false) ==> remove == Ok::<bool, String>(true),
        referenced is Err ==> remove == referenced,
{
}

} // verus!
