//! Synchronous replication of the metadata log: nothing is committed until
//! every disk of the group holds it durably.

use crate::disk::{self, Disk, DiskError};
use crate::proto::{DiskId, MetaGroup};
use vstd::prelude::*;

verus! {

pub struct MetaReplicator<D: Disk> {
    group: MetaGroup,
    primary_disk: D,
    backup_disk: Option<D>,
}

#[derive(Debug)]
pub enum CommitError {
    /// The backup failed. The group can go on without it, once it is fenced.
    BackupUnavailable(DiskError),
    /// The primary failed. The group cannot be served any more.
    PrimaryUnavailable(DiskError),
}

/// `data` was written at `offset` and everything written so far is durable.
pub open spec fn committed<D: Disk>(before: D, after: D, offset: u64, data: Seq<u8>) -> bool {
    &&& after.contents() == disk::written(before.contents(), offset as int, data)
    &&& after.durable() == after.contents()
    &&& offset + data.len() <= u64::MAX
}

/// At most the `n` bytes from `offset` on were touched.
pub open spec fn torn<D: Disk>(before: D, after: D, offset: u64, n: nat) -> bool {
    disk::same_outside(before.contents(), after.contents(), offset as int, n)
}

/// The group once its backup is dropped.
pub open spec fn fenced(group: MetaGroup) -> MetaGroup {
    MetaGroup { primary: group.primary, backup: None, epoch: (group.epoch + 1) as u64 }
}

/// The group with this backup.
pub open spec fn promoted(group: MetaGroup, backup: DiskId) -> MetaGroup {
    MetaGroup { primary: group.primary, backup: Some(backup), epoch: (group.epoch + 1) as u64 }
}

/// Writes `data` and makes it durable. Fails where the disk does, with the
/// disk's own failure.
fn write_through<D: Disk>(disk: &mut D, offset: u64, data: &[u8]) -> (r: Result<(), DiskError>)
    ensures
        r is Ok ==> committed(*old(disk), *final(disk), offset, data@),
        torn(*old(disk), *final(disk), offset, data@.len()),
        disk::reported(old(disk).faults(), final(disk).faults(), r),
{
    match disk.write_at(offset, data) {
        Ok(()) => disk.sync(),
        Err(e) => Err(e),
    }
}

impl<D: Disk> MetaReplicator<D> {
    pub closed spec fn primary(self) -> D {
        self.primary_disk
    }

    pub closed spec fn backup(self) -> Option<D> {
        self.backup_disk
    }

    pub closed spec fn members(self) -> MetaGroup {
        self.group
    }

    pub fn new(group: MetaGroup, primary_disk: D, backup_disk: Option<D>) -> (m: Self)
        ensures
            m.members() == group,
            m.primary() == primary_disk,
            m.backup() == backup_disk,
    {
        MetaReplicator { group, primary_disk, backup_disk }
    }

    pub fn group(&self) -> (g: MetaGroup)
        ensures
            g == self.members(),
    {
        self.group
    }

    /// Commits one encoded operation at `offset` of the log: first on the
    /// primary, then on the backup, if there is one. Success means that both
    /// hold it durably. A failure of the primary leaves the backup untouched;
    /// a failure of the backup leaves the operation durable on the primary.
    /// The failure is the one that the disk reported.
    pub fn commit(&mut self, encoded_op: &[u8], offset: u64) -> (r: Result<(), CommitError>)
        ensures
            final(self).members() == old(self).members(),
            final(self).backup() is Some == old(self).backup() is Some,
            match r {
                Ok(()) => {
                    &&& committed(
                        old(self).primary(),
                        final(self).primary(),
                        offset,
                        encoded_op@,
                    )
                    &&& final(self).primary().faults() == old(self).primary().faults()
                    &&& old(self).backup() matches Some(backup) ==> committed(
                        backup,
                        final(self).backup()->Some_0,
                        offset,
                        encoded_op@,
                    ) && final(self).backup()->Some_0.faults() == backup.faults()
                },
                Err(CommitError::PrimaryUnavailable(e)) => {
                    &&& final(self).primary().faults() == old(self).primary().faults().push(e@)
                    &&& torn(
                        old(self).primary(),
                        final(self).primary(),
                        offset,
                        encoded_op@.len(),
                    )
                    &&& final(self).backup() == old(self).backup()
                },
                Err(CommitError::BackupUnavailable(e)) => {
                    &&& committed(
                        old(self).primary(),
                        final(self).primary(),
                        offset,
                        encoded_op@,
                    )
                    &&& final(self).primary().faults() == old(self).primary().faults()
                    &&& old(self).backup() matches Some(backup) && torn(
                        backup,
                        final(self).backup()->Some_0,
                        offset,
                        encoded_op@.len(),
                    ) && final(self).backup()->Some_0.faults() == backup.faults().push(e@)
                },
            },
    {
        match write_through(&mut self.primary_disk, offset, encoded_op) {
            Ok(()) => {},
            Err(e) => {
                return Err(CommitError::PrimaryUnavailable(e));
            },
        }
        if let Some(backup) = &mut self.backup_disk {
            match write_through(backup, offset, encoded_op) {
                Ok(()) => {},
                Err(e) => {
                    return Err(CommitError::BackupUnavailable(e));
                },
            }
        }
        Ok(())
    }

    /// Drops the backup from the group. The epoch grows, so that a stale
    /// backup that comes back is never taken for a current one.
    pub fn fence_backup(&mut self)
        requires
            old(self).members().epoch < u64::MAX,
        ensures
            final(self).members() == fenced(old(self).members()),
            final(self).primary() == old(self).primary(),
            final(self).backup() is None,
    {
        self.group.backup = None;
        self.group.epoch = self.group.epoch + 1;
        self.backup_disk = None;
    }

    /// Adds or replaces the backup, once it holds everything that the primary
    /// does. The epoch grows.
    pub fn promote_new_backup(&mut self, disk_id: DiskId, disk: D)
        requires
            old(self).members().epoch < u64::MAX,
        ensures
            final(self).members() == promoted(old(self).members(), disk_id),
            final(self).primary() == old(self).primary(),
            final(self).backup() == Some(disk),
    {
        self.group.backup = Some(disk_id);
        self.group.epoch = self.group.epoch + 1;
        self.backup_disk = Some(disk);
    }
}

// ---------------------------------------------------------------------
// Laws

/// Each change of the group leaves the primary and takes the group to an epoch
/// that it never had, so that a stale backup is never taken for a current one.
pub proof fn epochs_never_come_again(group: MetaGroup, backup: DiskId)
    requires
        group.epoch < u64::MAX,
    ensures
        fenced(group).epoch > group.epoch,
        promoted(group, backup).epoch > group.epoch,
        fenced(group).backup is None,
        promoted(group, backup).backup == Some(backup),
        fenced(group).primary == group.primary,
        promoted(group, backup).primary == group.primary,
        group.epoch < u64::MAX - 1 ==> promoted(fenced(group), backup).epoch == group.epoch + 2,
{
}

/// What was committed is on the disk for good, at its place, and nothing else
/// changed; what was torn changed nothing elsewhere.
pub proof fn commits_are_there_for_good<D: Disk>(
    before: D,
    after: D,
    offset: u64,
    data: Seq<u8>,
    i: int,
)
    ensures
        committed(before, after, offset, data) ==> {
            &&& after.durable() == after.contents()
            &&& after.contents().len() >= offset + data.len()
            &&& 0 <= i < data.len() ==> after.contents()[offset + i] == data[i]
            &&& 0 <= i < before.contents().len() && (i < offset || offset + data.len() <= i)
                ==> after.contents()[i] == before.contents()[i]
        },
        torn(before, after, offset, data.len()) && 0 <= i < before.contents().len() && (i < offset
            || offset + data.len() <= i) ==> after.contents()[i] == before.contents()[i],
{
}

} // verus!
