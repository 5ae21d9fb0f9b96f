use vstd::prelude::*;

verus! {

/// Why a frame layout cannot be made.
#[derive(Clone, Copy, Debug, PartialEq, Eq)]
pub enum FramingError {
    /// The frame size or the hop size is zero.
    NonPositiveSize,
}

impl FramingError {
    /// The message reported for this error.
    pub fn message(&self) -> (text: String)
        ensures
            text@ == "Frame size and hop size must be positive"@,
    {
        match self {
            FramingError::NonPositiveSize => "Frame size and hop size must be positive".to_owned(),
        }
    }
}

/// The start offsets of the analysis frames over `sample_count` samples: one
/// every `hop_size` samples from 0, as long as a whole frame still fits; none
/// when the audio is shorter than one frame.
pub open spec fn frame_starts(sample_count: int, frame_size: int, hop_size: int) -> Seq<usize> {
    if sample_count < frame_size {
        Seq::empty()
    } else {
        Seq::new(
            ((sample_count - frame_size) / hop_size + 1) as nat,
            |k: int| (k * hop_size) as usize,
        )
    }
}

/// The frame layout over `sample_count` samples: the start offset of every
/// frame of `frame_size` samples, one every `hop_size` samples from the start,
/// as long as the frame fits. Both sizes must be positive.
pub fn frames(sample_count: usize, frame_size: usize, hop_size: usize) -> (layout: Result<
    Vec<usize>,
    FramingError,
>)
    ensures
        layout is Err <==> frame_size == 0 || hop_size == 0,
        layout matches Ok(starts) ==> starts@ == frame_starts(
            sample_count as int,
            frame_size as int,
            hop_size as int,
        ),
{
    if frame_size == 0 || hop_size == 0 {
        return Err(FramingError::NonPositiveSize);
    }
    let mut starts: Vec<usize> = Vec::new();
    if sample_count < frame_size {
        assert(starts@ =~= frame_starts(sample_count as int, frame_size as int, hop_size as int));
        return Ok(starts);
    }
    let last = sample_count - frame_size;
    let count = last / hop_size + 1;
    let mut k: usize = 0;
    let mut start: usize = 0;
    while k < count
        invariant
            hop_size > 0,
            count == last / hop_size + 1,
            k <= count,
            k < count ==> start == k * hop_size,
            starts@.len() == k,
            forall|j: int| 0 <= j < k ==> #[trigger] starts@[j] == j * hop_size,
        decreases count - k,
    {
        starts.push(start);
        proof {
            assert(k * hop_size <= last) by (nonlinear_arith)
                requires
                    k < count,
                    count == last / hop_size + 1,
                    hop_size > 0;
        }
        k = k + 1;
        if k < count {
            proof {
                assert(k * hop_size <= last) by (nonlinear_arith)
                    requires
                        k < count,
                        count == last / hop_size + 1,
                        hop_size > 0;
                assert(k * hop_size == start + hop_size) by (nonlinear_arith)
                    requires
                        start == (k - 1) * hop_size;
            }
            start = start + hop_size;
        }
    }
    assert(starts@ =~= frame_starts(sample_count as int, frame_size as int, hop_size as int));
    Ok(starts)
}

/// Every frame of the layout lies within the samples, frames follow each other
/// by exactly one hop, and no further frame would fit.
pub proof fn lemma_frames_cover(sample_count: int, frame_size: int, hop_size: int)
    requires
        frame_size > 0,
        hop_size > 0,
        0 <= sample_count <= usize::MAX,
    ensures
        forall|k: int|
            0 <= k < frame_starts(sample_count, frame_size, hop_size).len() ==> #[trigger] frame_starts(
                sample_count,
                frame_size,
                hop_size,
            )[k] + frame_size <= sample_count,
        forall|k: int|
            0 < k < frame_starts(sample_count, frame_size, hop_size).len() ==> #[trigger] frame_starts(
                sample_count,
                frame_size,
                hop_size,
            )[k] == frame_starts(sample_count, frame_size, hop_size)[k - 1] + hop_size,
        frame_starts(sample_count, frame_size, hop_size).len() * hop_size + frame_size
            > sample_count,
{
    let s = frame_starts(sample_count, frame_size, hop_size);
    if sample_count >= frame_size {
        let last = sample_count - frame_size;
        let count = last / hop_size + 1;
        assert forall|k: int| 0 <= k < s.len() implies #[trigger] s[k] + frame_size <= sample_count by {
            assert(k * hop_size <= last) by (nonlinear_arith)
                requires
                    0 <= k < count,
                    count == last / hop_size + 1,
                    hop_size > 0;
            assert(0 <= k * hop_size) by (nonlinear_arith)
                requires
                    0 <= k,
                    hop_size > 0;
        }
        assert forall|k: int| 0 < k < s.len() implies #[trigger] s[k] == s[k - 1] + hop_size by {
            assert(k * hop_size <= last) by (nonlinear_arith)
                requires
                    0 <= k < count,
                    count == last / hop_size + 1,
                    hop_size > 0;
            assert(0 <= (k - 1) * hop_size <= k * hop_size) by (nonlinear_arith)
                requires
                    1 <= k,
                    hop_size > 0;
            assert(k * hop_size == (k - 1) * hop_size + hop_size) by (nonlinear_arith);
            assert(s[k] == k * hop_size);
            assert(s[k - 1] == (k - 1) * hop_size);
        }
        assert(count * hop_size > last) by (nonlinear_arith)
            requires
                count == last / hop_size + 1,
                hop_size > 0;
    }
}

} // verus!
