//! The red pixels of a whole multi-frame file: one count per frame, and
//! their sum as the record of the file.

use crate::error::ProcessError;
use crate::frame::{count_red_pixels, red_count, Frame};
use vstd::prelude::*;
use vstd::string::*;

verus! {

/// The outcome of one processed file: its name and the red pixels of all
/// its frames together.
#[derive(Clone, Debug, PartialEq, Eq)]
pub struct FileRecord {
    pub file_name: String,
    pub total_red_dot_count: u128,
}

/// Sum of a list of counts.
pub open spec fn sum_of(counts: Seq<nat>) -> nat
    decreases counts.len(),
{
    if counts.len() == 0 {
        0
    } else {
        sum_of(counts.drop_last()) + counts.last()
    }
}

/// The red pixels of each frame, in the order of the frames.
pub open spec fn frame_counts_of(frames: Seq<Frame>) -> Seq<nat> {
    Seq::new(frames.len(), |i: int| red_count(frames[i].pixels()))
}

/// Every frame has the layout that the colour rule can read.
pub open spec fn all_have_hsv_layout(frames: Seq<Frame>) -> bool {
    forall|i: int| 0 <= i < frames.len() ==> (#[trigger] frames[i]).has_hsv_layout()
}

/// What processing the frames of a file comes to: an error for a file
/// without frames or with a frame of the wrong layout, else one count per
/// frame.
pub open spec fn counted(frames: Seq<Frame>) -> Result<Seq<nat>, ProcessError> {
    if frames.len() == 0 {
        Err(ProcessError::Decode)
    } else if !all_have_hsv_layout(frames) {
        Err(ProcessError::Conversion)
    } else {
        Ok(frame_counts_of(frames))
    }
}

/// The counts as natural numbers.
pub open spec fn as_nats(counts: Seq<u64>) -> Seq<nat> {
    counts.map_values(|c: u64| c as nat)
}

/// Counts the red pixels of every frame of a decoded file.
///
/// A file that decoded to no frame at all is a decoding failure, not a file
/// without red pixels. A frame of the wrong layout fails the whole file.
pub fn count_frames(frames: &Vec<Frame>) -> (outcome: Result<Vec<u64>, ProcessError>)
    ensures
        match outcome {
            Ok(counts) => counted(frames@) == Ok::<Seq<nat>, ProcessError>(as_nats(counts@)),
            Err(e) => counted(frames@) == Err::<Seq<nat>, ProcessError>(e),
        },
        frames@.len() == 0 ==> outcome == Err::<Vec<u64>, ProcessError>(ProcessError::Decode),
{
    if frames.len() == 0 {
        return Err(ProcessError::Decode);
    }
    let mut counts: Vec<u64> = Vec::new();
    let mut i: usize = 0;
    while i < frames.len()
        invariant
            i <= frames.len(),
            counts@.len() == i,
            forall|k: int| 0 <= k < i ==> (#[trigger] frames@[k]).has_hsv_layout(),
            forall|k: int| 0 <= k < i ==> #[trigger] counts@[k] == red_count(frames@[k].pixels()),
        decreases frames.len() - i,
    {
        match count_red_pixels(&frames[i]) {
            Ok(n) => {
                counts.push(n);
            },
            Err(_) => {
                assert(!frames@[i as int].has_hsv_layout());
                return Err(ProcessError::Conversion);
            },
        }
        i += 1;
    }
    assert(as_nats(counts@) =~= frame_counts_of(frames@));
    Ok(counts)
}

/// Adds up the counts of the frames of a file.
pub fn total_count(counts: &Vec<u64>) -> (total: u128)
    ensures
        total == sum_of(as_nats(counts@)),
{
    let ghost all = as_nats(counts@);
    let mut total: u128 = 0;
    let mut i: usize = 0;
    while i < counts.len()
        invariant
            i <= counts.len(),
            all == as_nats(counts@),
            total == sum_of(all.take(i as int)),
            total <= i * u64::MAX,
        decreases counts.len() - i,
    {
        proof {
            assert(all.take(i + 1).drop_last() =~= all.take(i as int));
            assert(all.take(i + 1).last() == counts@[i as int] as nat);
        }
        total = total + counts[i] as u128;
        i += 1;
    }
    assert(all.take(counts@.len() as int) =~= all);
    total
}

/// Processes one file from its decoded frames: counts the red pixels of
/// each frame and records their sum under the name of the file.
///
/// The total of the record is exactly the sum of the counts of the frames.
/// A file without frames gives a decoding error and no record; so a failed
/// read never looks like a file without red pixels.
pub fn process_file(file_name: &str, frames: &Vec<Frame>) -> (outcome: Result<
    FileRecord,
    ProcessError,
>)
    ensures
        match outcome {
            Ok(record) => {
                &&& counted(frames@) is Ok
                &&& record.file_name@ == file_name@
                &&& record.total_red_dot_count == sum_of(frame_counts_of(frames@))
            },
            Err(e) => counted(frames@) == Err::<Seq<nat>, ProcessError>(e),
        },
        frames@.len() == 0 ==> outcome == Err::<FileRecord, ProcessError>(ProcessError::Decode),
{
    match count_frames(frames) {
        Ok(counts) => {
            let total = total_count(&counts);
            Ok(FileRecord { file_name: file_name.to_owned(), total_red_dot_count: total })
        },
        Err(e) => Err(e),
    }
}

} // verus!
