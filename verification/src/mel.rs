//! Frames and layout of log-mel features.

use crate::tensor::{at, filled_vec, flat, lemma_at, lemma_place};
use vstd::prelude::*;

verus! {

/// The length of a frame.
pub const N_FFT: usize = 400;

/// The distance between frames.
pub const HOP_LENGTH: usize = 160;

/// The number of mel bins.
pub const MEL_BINS: usize = 128;

/// The number of frequency bins of a frame.
pub const FREQ_BINS: usize = 201;

/// Why no features can be made of a waveform.
#[derive(Debug, Clone, Copy, PartialEq, Eq, Structural)]
pub enum MelError {
    /// The waveform is not longer than a frame.
    TooShort { samples: usize },
    /// The waveform is not longer than the padding that is reflected.
    PadTooLong { samples: usize, pad: usize },
}

/// The number of frames of a waveform.
pub fn frame_count(samples: usize) -> (r: Result<usize, MelError>)
    ensures
        r == (if samples <= N_FFT {
            Err(MelError::TooShort { samples })
        } else {
            Ok((samples / HOP_LENGTH) as usize)
        }),
{
    if samples <= N_FFT {
        return Err(MelError::TooShort { samples });
    }
    Ok(samples / HOP_LENGTH)
}

/// The place in a waveform of `len` samples that a place before, in or after it is
/// reflected to.
pub open spec fn reflected(i: int, len: int) -> int {
    if i < 0 {
        -i
    } else if i >= len {
        2 * len - 2 - i
    } else {
        i
    }
}

/// A waveform with `pad` samples reflected at either end.
pub fn reflect_pad<T: Copy>(waveform: &[T], pad: usize) -> (r: Result<Vec<T>, MelError>)
    requires
        waveform@.len() + 2 * pad <= isize::MAX,
    ensures
        match r {
            Ok(out) => {
                &&& waveform@.len() > pad
                &&& out@.len() == waveform@.len() + 2 * pad
                &&& forall|i: int|
                    0 <= i < out@.len() ==> #[trigger] out@[i] == waveform@[reflected(
                        i - pad,
                        waveform@.len() as int,
                    )]
                &&& forall|i: int|
                    0 <= i < waveform@.len() ==> out@[pad + i] == #[trigger] waveform@[i]
                &&& forall|i: int| 0 < i <= pad ==> out@[pad - i] == #[trigger] waveform@[i]
                &&& forall|i: int|
                    0 <= waveform@.len() - 1 - i <= pad ==> out@[pad + 2 * (waveform@.len() - 1) - i]
                        == #[trigger] waveform@[i]
            },
            Err(e) => waveform@.len() <= pad && e == (MelError::PadTooLong {
                samples: waveform@.len() as usize,
                pad,
            }),
        },
{
    let len: usize = waveform.len();
    if len <= pad {
        return Err(MelError::PadTooLong { samples: len, pad });
    }
    let total: usize = len + 2 * pad;
    let mut out: Vec<T> = Vec::with_capacity(total);
    for k in 0..total
        invariant
            len == waveform@.len(),
            pad < len,
            total == len + 2 * pad,
            total <= isize::MAX,
            out@.len() == k,
            forall|i: int|
                0 <= i < k ==> #[trigger] out@[i] == waveform@[reflected(i - pad, len as int)],
    {
        let source: usize = if k < pad {
            pad - k
        } else if k - pad >= len {
            2 * len - 2 - (k - pad)
        } else {
            k - pad
        };
        out.push(waveform[source]);
    }
    Ok(out)
}

/// Every frame lies within the padded waveform.
pub proof fn lemma_frames_fit(samples: int, frame: int)
    requires
        samples > N_FFT,
        0 <= frame < samples / (HOP_LENGTH as int),
    ensures
        frame * HOP_LENGTH + N_FFT <= samples + 2 * (N_FFT / 2),
{
}

/// Log-mel features: a row for every bin, a column for every frame.
pub struct LogMelFeatures<T> {
    pub values: Vec<T>,
    pub mel_bins: usize,
    pub frames: usize,
    pub attention_mask: Vec<i32>,
}

impl<T> LogMelFeatures<T> {
    pub open spec fn well_formed(self) -> bool {
        &&& self.mel_bins == MEL_BINS
        &&& self.values@.len() == MEL_BINS * self.frames
        &&& self.attention_mask@.len() == self.frames
        &&& forall|i: int| 0 <= i < self.frames ==> #[trigger] self.attention_mask@[i] == 1
    }
}

/// Brings the bins of one frame after the other into rows, one for every bin.
pub fn features_from_frames<T: Copy>(by_frame: &[T], frames: usize) -> (f: LogMelFeatures<T>)
    requires
        by_frame@.len() == frames * MEL_BINS,
    ensures
        f.well_formed(),
        f.frames == frames,
        forall|bin: int, frame: int|
            0 <= bin < MEL_BINS && 0 <= frame < frames ==> #[trigger] f.values@[at(
                frames as int,
                bin,
                frame,
            )] == by_frame@[at(MEL_BINS as int, frame, bin)],
{
    let total: usize = by_frame.len();
    let bins: usize = MEL_BINS;
    let mut values: Vec<T> = Vec::with_capacity(total);
    for k in 0..total
        invariant
            bins == MEL_BINS,
            total == by_frame@.len() == frames * bins,
            total == bins * frames,
            values@.len() == k,
            forall|p: int|
                0 <= p < k ==> #[trigger] values@[p] == by_frame@[at(
                    bins as int,
                    p % (frames as int),
                    p / (frames as int),
                )],
    {
        proof {
            lemma_place(bins as int, frames as int, k as int);
            lemma_at(
                frames as int,
                bins as int,
                k as int % frames as int,
                k as int / frames as int,
            );
        }
        let bin: usize = k / frames;
        let frame: usize = k % frames;
        values.push(by_frame[flat(bins, frame, bin, Ghost(total as int))]);
    }
    proof {
        assert forall|bin: int, frame: int|
            0 <= bin < MEL_BINS && 0 <= frame < frames implies #[trigger] values@[at(
            frames as int,
            bin,
            frame,
        )] == by_frame@[at(MEL_BINS as int, frame, bin)] by {
            lemma_at(MEL_BINS as int, frames as int, bin, frame);
        }
    }
    LogMelFeatures { values, mel_bins: MEL_BINS, frames, attention_mask: filled_vec(1, frames) }
}

/// Places in a waveform stay, and those at either side of it are mirrored at its first and
/// at its last sample, which are not repeated.
pub proof fn lemma_places_are_mirrored(i: int, len: int)
    requires
        0 <= i < len,
    ensures
        reflected(i, len) == i,
        reflected(-i, len) == i,
        reflected(len - 1 + i, len) == len - 1 - i,
{
}

} // verus!
