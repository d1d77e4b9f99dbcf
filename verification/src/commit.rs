//! Putting a finished part in its place.
//!
//! A part is written under a temporary name and gets its own only when it is on disk in full. This
//! module says in which order that happens; the caller does it.
use vstd::prelude::*;
use crate::frames;
use crate::frames::{EventView, PartMeta, MAX_RECORD_BYTES};

verus! {

/// One step of putting a finished part in its place.
#[derive(Debug, Clone, Copy, PartialEq, Eq, Structural)]
pub enum CommitStep {
    /// Hand every byte that is still buffered to the temporary file.
    Flush,
    /// Make the bytes of the temporary file durable.
    SyncFile,
    /// Give the temporary file the name of the part.
    Rename,
    /// Make the name durable.
    SyncDir,
    /// Write the sidecar.
    Sidecar,
}

/// The steps that commit a part, in order. The bytes are durable before the part has its name: a part
/// that looks committed is never cut short. The sidecar comes last: the part is the source of truth,
/// and a sidecar without one would mislead.
pub open spec fn commit_order() -> Seq<CommitStep> {
    seq![
        CommitStep::Flush,
        CommitStep::SyncFile,
        CommitStep::Rename,
        CommitStep::SyncDir,
        CommitStep::Sidecar,
    ]
}

/// The steps that commit a part, in order.
pub fn commit_steps() -> (steps: Vec<CommitStep>)
    ensures
        steps@ == commit_order(),
{
    let steps = vec![
        CommitStep::Flush,
        CommitStep::SyncFile,
        CommitStep::Rename,
        CommitStep::SyncDir,
        CommitStep::Sidecar,
    ];
    assert(steps@ =~= commit_order());
    steps
}

/// What is on disk of a part: the bytes under the temporary name and under its own, whether the bytes
/// and the name are durable, and the sidecar.
pub struct PartOnDisk {
    pub temp: Option<Seq<u8>>,
    pub part: Option<Seq<u8>>,
    pub bytes_durable: bool,
    pub name_durable: bool,
    pub meta: Option<PartMeta>,
}

/// What is on disk once a step is done, of a part whose whole content is `whole` and whose writer
/// counted that many records.
pub open spec fn after_step(
    disk: PartOnDisk,
    step: CommitStep,
    whole: Seq<u8>,
    records: nat,
) -> PartOnDisk {
    match step {
        CommitStep::Flush => PartOnDisk { temp: Some(whole), ..disk },
        CommitStep::SyncFile => PartOnDisk { bytes_durable: true, ..disk },
        CommitStep::Rename => PartOnDisk { temp: None, part: disk.temp, ..disk },
        CommitStep::SyncDir => PartOnDisk { name_durable: true, ..disk },
        CommitStep::Sidecar => PartOnDisk {
            meta: Some(PartMeta { records: records as u64, bytes: whole.len() as u64 }),
            ..disk
        },
    }
}

/// What is on disk once the first `done` steps of a commit are.
pub open spec fn after_steps(disk: PartOnDisk, done: nat, whole: Seq<u8>, records: nat) -> PartOnDisk
    decreases done,
{
    if done == 0 {
        disk
    } else {
        let before = after_steps(disk, (done - 1) as nat, whole, records);
        after_step(before, commit_order()[done - 1], whole, records)
    }
}

/// The records that a writer takes of those that are offered to it.
pub open spec fn taken(offered: Seq<Seq<u8>>) -> Seq<Seq<u8>>
    decreases offered.len(),
{
    if offered.len() == 0 {
        Seq::empty()
    } else if offered.last().len() <= MAX_RECORD_BYTES {
        taken(offered.drop_last()).push(offered.last())
    } else {
        taken(offered.drop_last())
    }
}

/// The bytes that a writer has handed out under that header, once the records were offered to it.
pub open spec fn handed_out(header: Seq<u8>, offered: Seq<Seq<u8>>) -> Seq<u8>
    decreases offered.len(),
{
    if offered.len() == 0 {
        frames::preamble(header)
    } else if offered.last().len() <= MAX_RECORD_BYTES {
        handed_out(header, offered.drop_last()) + frames::frame(offered.last())
    } else {
        handed_out(header, offered.drop_last())
    }
}

proof fn lemma_frames_push(records: Seq<Seq<u8>>, last: Seq<u8>)
    ensures
        frames::frames(records.push(last)) == frames::frames(records) + frames::frame(last),
    decreases records.len(),
{
    let all = records.push(last);
    if records.len() == 0 {
        assert(all.skip(1) =~= Seq::empty());
        assert(frames::frames(all.skip(1)) =~= Seq::empty());
        assert(frames::frames(all) =~= frames::frames(records) + frames::frame(last));
    } else {
        assert(all.skip(1) =~= records.skip(1).push(last));
        assert(all[0] == records[0]);
        lemma_frames_push(records.skip(1), last);
        assert(frames::frames(all) =~= frames::frames(records) + frames::frame(last));
    }
}

/// What a writer hands out is the head of the part and the records that it took, in order; behind the
/// head exactly those are read back, and the reading ends cleanly.
pub proof fn a_writer_hands_out_what_it_takes(header: Seq<u8>, offered: Seq<Seq<u8>>)
    ensures
        handed_out(header, offered) == frames::preamble(header) + frames::frames(taken(offered)),
        frames::read_all(frames::frames(taken(offered))) == (taken(offered), EventView::End),
    decreases offered.len(),
{
    let records = taken(offered);
    if offered.len() == 0 {
        assert(handed_out(header, offered) =~= frames::preamble(header) + frames::frames(records));
    } else {
        let fewer = taken(offered.drop_last());
        a_writer_hands_out_what_it_takes(header, offered.drop_last());
        if offered.last().len() <= MAX_RECORD_BYTES {
            lemma_frames_push(fewer, offered.last());
            assert(handed_out(header, offered) =~= frames::preamble(header) + frames::frames(records));
        }
    }
    lemma_taken_fit(offered);
    frames::records_read_back(records);
}

proof fn lemma_taken_fit(offered: Seq<Seq<u8>>)
    ensures
        forall|i: int|
            0 <= i < taken(offered).len() ==> (#[trigger] taken(offered)[i]).len()
                <= MAX_RECORD_BYTES,
    decreases offered.len(),
{
    if offered.len() > 0 {
        let fewer = taken(offered.drop_last());
        lemma_taken_fit(offered.drop_last());
        assert forall|i: int| 0 <= i < taken(offered).len() implies (
        #[trigger] taken(offered)[i]).len() <= MAX_RECORD_BYTES by {
            if i < fewer.len() {
                assert(taken(offered)[i] == fewer[i]);
            }
        }
    }
}

/// A part is whole or absent: wherever a commit is cut off, a file that has the part's name holds the
/// head and every record that the writer took, durably, and a sidecar is there only beside it and
/// states its records and its size. A commit that is not cut off leaves the part and its sidecar, and
/// no temporary file.
pub proof fn a_part_is_whole_or_absent(
    header: Seq<u8>,
    offered: Seq<Seq<u8>>,
    disk: PartOnDisk,
    done: nat,
)
    requires
        disk.part is None,
        disk.meta is None,
        done <= commit_order().len(),
        taken(offered).len() <= u64::MAX,
        handed_out(header, offered).len() <= u64::MAX,
    ensures
        ({
            let whole = handed_out(header, offered);
            let records = taken(offered);
            let after = after_steps(disk, done, whole, records.len());
            &&& after.part matches Some(held) ==> held == frames::preamble(header) + frames::frames(records)
                && after.bytes_durable && frames::read_all(held.skip(frames::preamble(header).len() as int)) == (
                records,
                EventView::End,
            )
            &&& after.meta matches Some(meta) ==> after.part is Some && after.name_durable
                && meta.records == records.len() && meta.bytes == whole.len()
            &&& done == commit_order().len() ==> after.part is Some && after.meta is Some
                && after.temp is None
        }),
{
    let whole = handed_out(header, offered);
    let records = taken(offered);
    a_writer_hands_out_what_it_takes(header, offered);
    assert((frames::preamble(header) + frames::frames(records)).skip(frames::preamble(header).len() as int) =~= frames::frames(
        records,
    ));
    reveal_with_fuel(after_steps, 6);
}

/// Whether a writer that goes away removes its temporary file: one that was committed has none left
/// to remove.
pub fn removes_temp(committed: bool, temp_exists: bool) -> (removes: bool)
    ensures
        removes == (!committed && temp_exists),
{
    !committed && temp_exists
}

/// What is on disk once the writer is gone.
pub open spec fn after_drop(disk: PartOnDisk, committed: bool) -> PartOnDisk {
    if !committed && disk.temp is Some {
        PartOnDisk { temp: None, ..disk }
    } else {
        disk
    }
}

/// A writer that goes away before the part has its name leaves nothing behind: no part, no sidecar
/// and no temporary file.
pub proof fn a_dropped_part_leaves_nothing(disk: PartOnDisk, done: nat, whole: Seq<u8>, records: nat)
    requires
        disk.part is None,
        disk.meta is None,
        done <= 2,
    ensures
        ({
            let left = after_drop(after_steps(disk, done, whole, records), false);
            &&& left.part is None
            &&& left.meta is None
            &&& left.temp is None
        }),
{
    reveal_with_fuel(after_steps, 3);
}

} // verus!
