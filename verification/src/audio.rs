//! Wave files: sample formats and downmixing.

use vstd::arithmetic::div_mod::{lemma_fundamental_div_mod, lemma_fundamental_div_mod_converse};
use vstd::arithmetic::power2::{lemma_pow2_strictly_increases, pow2};
use vstd::prelude::*;

verus! {

/// The sample rate that the features are made for.
pub const SAMPLE_RATE: u32 = 16_000;

/// The greatest integer that is not above the quotient.
pub open spec fn floor_quotient(value: int, divisor: int) -> int {
    if divisor > 0 {
        value / divisor
    } else {
        (-value) / (-divisor)
    }
}

proof fn lemma_floor_negative(v: int, d: int)
    requires
        v < 0,
        d > 0,
    ensures
        v / d == -((-v - 1) / d) - 1,
{
    let q = (-v - 1) / d;
    let r = (-v - 1) % d;
    lemma_fundamental_div_mod(-v - 1, d);
    // v = -(d q + r) - 1 = d (-q - 1) + (d - 1 - r)
    assert(v == (-q - 1) * d + (d - 1 - r)) by (nonlinear_arith)
        requires
            -v - 1 == d * q + r,
    ;
    lemma_fundamental_div_mod_converse(v, d, -q - 1, d - 1 - r);
}

proof fn lemma_quotient_size(v: int, d: int)
    requires
        d > 0,
    ensures
        v >= 0 ==> 0 <= v / d <= v,
        v >= 0 && d >= 2 ==> 2 * (v / d) <= v,
        v < 0 ==> v <= v / d < 0,
{
    lemma_fundamental_div_mod(v, d);
    let q = v / d;
    let r = v % d;
    assert((v >= 0 ==> 0 <= q <= v) && (v >= 0 && d >= 2 ==> 2 * q <= v) && (v < 0 ==> v <= q < 0))
        by (nonlinear_arith)
        requires
            v == d * q + r,
            0 <= r < d,
            d > 0,
    {
        if v >= 0 {
            assert(q >= 0);
            assert(d * q >= q);
            if d >= 2 {
                assert(d * q >= 2 * q);
            }
        } else {
            assert(q < 0);
            assert(d * q + r >= q * d);
            assert((q + 1) * d > v);
            if q < v {
                assert((q + 1) * d <= v * d);
                assert(v * d <= v);
            }
        }
    }
}

/// The quotient times the divisor reaches the value, and one more would go beyond it.
pub proof fn lemma_floor_is_greatest(value: int, divisor: int)
    requires
        divisor != 0,
    ensures
        divisor > 0 ==> floor_quotient(value, divisor) * divisor <= value < (floor_quotient(
            value,
            divisor,
        ) + 1) * divisor,
        divisor < 0 ==> (floor_quotient(value, divisor) + 1) * divisor < value <= floor_quotient(
            value,
            divisor,
        ) * divisor,
{
    let q = floor_quotient(value, divisor);
    if divisor > 0 {
        lemma_fundamental_div_mod(value, divisor);
        let r = value % divisor;
        assert(q * divisor <= value < (q + 1) * divisor) by (nonlinear_arith)
            requires
                value == divisor * q + r,
                0 <= r < divisor,
        ;
    } else {
        lemma_fundamental_div_mod(-value, -divisor);
        let r = (-value) % (-divisor);
        assert((q + 1) * divisor < value <= q * divisor) by (nonlinear_arith)
            requires
                -value == (-divisor) * q + r,
                0 <= r < -divisor,
        ;
    }
}

/// Division that rounds down.
pub fn floor_div(value: i64, divisor: i64) -> (q: i64)
    requires
        divisor != 0,
        value != i64::MIN || divisor != -1,
    ensures
        q == floor_quotient(value as int, divisor as int),
        divisor > 0 ==> q * divisor <= value < (q + 1) * divisor,
        divisor < 0 ==> (q + 1) * divisor < value <= q * divisor,
{
    proof {
        lemma_floor_is_greatest(value as int, divisor as int);
    }
    let (v, d): (i128, i128) = if divisor > 0 {
        (value as i128, divisor as i128)
    } else {
        (-(value as i128), -(divisor as i128))
    };
    proof {
        lemma_quotient_size(v as int, d as int);
        if v < 0 {
            lemma_floor_negative(v as int, d as int);
        }
    }
    let q: i128 = if v >= 0 {
        v / d
    } else {
        -((-v - 1) / d) - 1
    };
    q as i64
}

/// The sum of a list of samples.
pub open spec fn total(samples: Seq<i32>) -> int
    decreases samples.len(),
{
    if samples.len() == 0 {
        0
    } else {
        total(samples.drop_last()) + samples.last()
    }
}

/// Frame `i` of interleaved samples of `channels` channels.
pub open spec fn frame(samples: Seq<i32>, channels: int, i: int) -> Seq<i32> {
    samples.subrange(i * channels, i * channels + channels)
}

/// The samples of one channel: the sum of every frame, divided by the number of
/// channels and rounded down. An incomplete last frame is dropped.
pub open spec fn mono(samples: Seq<i32>, channels: int) -> Seq<int> {
    Seq::new(
        (samples.len() as int / channels) as nat,
        |i: int| total(frame(samples, channels, i)) / channels,
    )
}

/// The list's sum, added up from the front.
pub open spec fn added_up(samples: Seq<i32>) -> int {
    samples.fold_left(0int, |sum: int, sample: i32| sum + sample)
}

proof fn lemma_total_is_added_up(samples: Seq<i32>)
    ensures
        total(samples) == added_up(samples),
    decreases samples.len(),
{
    reveal_with_fuel(Seq::fold_left, 2);
    if samples.len() > 0 {
        lemma_total_is_added_up(samples.drop_last());
    }
}

/// One sample of the result stands for every complete frame, and it is the mean
/// of the frame's samples, rounded down: as many times it as there are channels do
/// not exceed their sum, and one more would. Of two channels, twice the sample is
/// the sum of the pair, or one less.
pub proof fn lemma_mono_is_mean(samples: Seq<i32>, channels: int, i: int)
    requires
        channels > 0,
        0 <= i < mono(samples, channels).len(),
    ensures
        mono(samples, channels).len() * channels <= samples.len() < (mono(samples, channels).len()
            + 1) * channels,
        mono(samples, channels)[i] * channels <= samples.subrange(
            i * channels,
            i * channels + channels,
        ).fold_left(0int, |sum: int, sample: i32| sum + sample) < (mono(samples, channels)[i] + 1)
            * channels,
        channels == 2 ==> 2 * mono(samples, channels)[i] <= samples[2 * i] + samples[2 * i + 1] <= 2
            * mono(samples, channels)[i] + 1,
{
    let f = samples.subrange(i * channels, i * channels + channels);
    let q = mono(samples, channels)[i];
    lemma_total_is_added_up(f);
    lemma_floor_is_greatest(total(f), channels);
    lemma_floor_is_greatest(samples.len() as int, channels);
    assert(q == floor_quotient(total(f), channels));
    if channels == 2 {
        let n = samples.len() as int / channels;
        assert(n * 2 <= samples.len()) by (nonlinear_arith)
            requires
                n * channels <= samples.len(),
                channels == 2,
        ;
        assert(i + 1 <= n);
        assert(i * channels == i * 2);
        assert(f.len() == 2 && f[0] == samples[2 * i] && f[1] == samples[2 * i + 1]);
        reveal_with_fuel(total, 3);
        assert(f.drop_last().drop_last().len() == 0);
        assert(total(f) == samples[2 * i] + samples[2 * i + 1]);
        assert(q * 2 <= total(f) < (q + 1) * 2);
    }
}

/// Samples that follow complete frames do not change the means of those frames,
/// and the means of a later part are those of the part by itself.
pub proof fn lemma_mono_of_parts(first: Seq<i32>, second: Seq<i32>, channels: int)
    requires
        channels > 0,
        first.len() % channels as nat == 0,
    ensures
        mono(first + second, channels) == mono(first, channels) + mono(second, channels),
{
    let n = first.len() as int / channels;
    lemma_fundamental_div_mod(first.len() as int, channels);
    lemma_fundamental_div_mod(second.len() as int, channels);
    let m = second.len() as int / channels;
    let r = second.len() as int % channels;
    assert(first.len() == n * channels) by (nonlinear_arith)
        requires
            first.len() == channels * n,
    ;
    assert((first + second).len() == (n + m) * channels + r) by (nonlinear_arith)
        requires
            first.len() == n * channels,
            second.len() == channels * m + r,
            (first + second).len() == first.len() + second.len(),
    ;
    lemma_fundamental_div_mod_converse((first + second).len() as int, channels, n + m, r);
    assert forall|i: int| 0 <= i < n + m implies #[trigger] mono(first + second, channels)[i] == (
    mono(first, channels) + mono(second, channels))[i] by {
        if i < n {
            crate::tensor::lemma_row_within(n, channels, i);
            assert(frame(first + second, channels, i) =~= frame(first, channels, i));
        } else {
            assert(i * channels == n * channels + (i - n) * channels) by (nonlinear_arith);
            crate::tensor::lemma_row_within(m, channels, i - n);
            assert(m * channels <= second.len()) by (nonlinear_arith)
                requires
                    second.len() == channels * m + r,
                    r >= 0,
            ;
            assert(frame(first + second, channels, i) =~= frame(second, channels, i - n));
        }
    }
    assert(mono(first + second, channels) =~= mono(first, channels) + mono(second, channels));
}

/// Brings interleaved integer samples down to one channel.
pub fn downmix(samples: &[i32], channels: u16) -> (out: Vec<i64>)
    requires
        channels > 0,
    ensures
        out@.map_values(|x: i64| x as int) == mono(samples@, channels as int),
        out@.len() == samples@.len() / channels as nat,
        forall|i: int|
            0 <= i < out@.len() ==> #[trigger] out@[i] * channels <= added_up(
                samples@.subrange(i * channels, i * channels + channels),
            ) < (out@[i] + 1) * channels,
        channels == 2 ==> forall|i: int|
            0 <= i < out@.len() ==> 2 * #[trigger] out@[i] <= samples@[2 * i] + samples@[2 * i + 1]
                <= 2 * out@[i] + 1,
{
    let n: usize = samples.len();
    let width: usize = channels as usize;
    let frames: usize = n / width;
    let mut out: Vec<i64> = Vec::with_capacity(frames);
    proof {
        lemma_fundamental_div_mod(n as int, width as int);
        assert(width * frames == frames * width) by (nonlinear_arith);
    }
    for i in 0..frames
        invariant
            n == samples@.len(),
            width == channels,
            channels > 0,
            frames * width <= n,
            out@.len() == i,
            forall|k: int|
                0 <= k < i ==> #[trigger] out@[k] == total(frame(samples@, width as int, k))
                    / (width as int),
    {
        proof {
            crate::tensor::lemma_row_within(frames as int, width as int, i as int);
        }
        let base: usize = i * width;
        let ghost f = frame(samples@, width as int, i as int);
        let mut sum: i64 = 0;
        assert(f.take(0) =~= Seq::empty());
        for j in 0..width
            invariant
                width == channels,
                base == i * width,
                base + width <= n == samples@.len(),
                f == frame(samples@, width as int, i as int),
                sum == total(f.take(j as int)),
                -(j as int) * 0x8000_0000 <= sum <= j as int * 0x7fff_ffff,
        {
            proof {
                let longer = f.take(j + 1);
                assert(longer.drop_last() =~= f.take(j as int));
                assert(longer.last() == samples@[base + j]);
            }
            sum = sum + samples[base + j] as i64;
        }
        assert(f.take(width as int) =~= f);
        out.push(floor_div(sum, channels as i64));
    }
    proof {
        let m = mono(samples@, channels as int);
        assert(out@.map_values(|x: i64| x as int) =~= m);
        assert forall|i: int| 0 <= i < out@.len() implies #[trigger] out@[i] * channels <= added_up(
            samples@.subrange(i * channels, i * channels + channels),
        ) < (out@[i] + 1) * channels && (channels == 2 ==> 2 * out@[i] <= samples@[2 * i]
            + samples@[2 * i + 1] <= 2 * out@[i] + 1) by {
            assert(out@[i] == m[i]);
            lemma_mono_is_mean(samples@, channels as int, i);
        }
    }
    out
}

/// One channel stays as it is.
pub proof fn lemma_mono_of_one(samples: Seq<i32>)
    ensures
        mono(samples, 1) == samples.map_values(|x: i32| x as int),
{
    assert forall|i: int| 0 <= i < samples.len() implies #[trigger] mono(samples, 1)[i]
        == samples[i] by {
        let f = frame(samples, 1, i);
        assert(f =~= seq![samples[i]]);
        assert(f.drop_last() =~= Seq::empty());
        assert(total(f.drop_last()) == 0);
    }
    assert(mono(samples, 1) =~= samples.map_values(|x: i32| x as int));
}

/// How samples are stored.
#[derive(Debug, Clone, Copy, PartialEq, Eq, Structural)]
pub enum SampleFormat {
    Float,
    Int,
}

/// How samples are to be read.
#[derive(Debug, Clone, Copy, PartialEq, Eq, Structural)]
pub enum Decoding {
    /// Floating-point samples, taken as they are.
    Float,
    /// Integers of at most 16 bits, divided by `2^15`.
    Short,
    /// Integers of at most 32 bits, divided by two to this power.
    Long { shift: u16 },
}

/// Why a wave file cannot be read.
#[derive(Debug, Clone, Copy, PartialEq, Eq, Structural)]
pub enum AudioError {
    NoChannels,
    UnsupportedFormat { format: SampleFormat, bits: u16 },
}

/// How the samples of a wave file are to be read.
pub open spec fn decoding_of(channels: u16, format: SampleFormat, bits: u16) -> Result<
    Decoding,
    AudioError,
> {
    if channels == 0 {
        Err(AudioError::NoChannels)
    } else {
        match format {
            SampleFormat::Float => Ok(Decoding::Float),
            SampleFormat::Int => if bits <= 16 {
                Ok(Decoding::Short)
            } else if bits <= 32 {
                Ok(Decoding::Long { shift: (bits - 1) as u16 })
            } else {
                Err(AudioError::UnsupportedFormat { format, bits })
            },
        }
    }
}

/// Decides how the samples of a wave file are to be read.
pub fn decoding(channels: u16, format: SampleFormat, bits: u16) -> (r: Result<
    Decoding,
    AudioError,
>)
    ensures
        r == decoding_of(channels, format, bits),
        r == Err::<Decoding, AudioError>(AudioError::NoChannels) <==> channels == 0,
        channels > 0 && format == SampleFormat::Float ==> r == Ok::<Decoding, AudioError>(
            Decoding::Float,
        ),
        channels > 0 && format == SampleFormat::Int && bits <= 16 ==> r == Ok::<
            Decoding,
            AudioError,
        >(Decoding::Short),
        channels > 0 && format == SampleFormat::Int && 16 < bits <= 32 ==> (r matches Ok(
            Decoding::Long { shift },
        ) && shift + 1 == bits),
        channels > 0 && format == SampleFormat::Int && bits > 32 ==> r == Err::<
            Decoding,
            AudioError,
        >(AudioError::UnsupportedFormat { format, bits }),
{
    if channels == 0 {
        return Err(AudioError::NoChannels);
    }
    match format {
        SampleFormat::Float => Ok(Decoding::Float),
        SampleFormat::Int => if bits <= 16 {
            Ok(Decoding::Short)
        } else if bits <= 32 {
            Ok(Decoding::Long { shift: bits - 1 })
        } else {
            Err(AudioError::UnsupportedFormat { format, bits })
        },
    }
}

/// Every format of integers with at most 32 bits can be read, and dividing its samples as
/// decided brings them to at least -1 and below 1; samples of more than 16 bits fill that
/// range. Floating-point samples can be read whatever their size, and nothing can be read
/// without channels.
pub proof fn lemma_samples_fit_unit_range(channels: u16, bits: u16, sample: int)
    requires
        channels > 0,
        bits > 0,
        -pow2((bits - 1) as nat) <= sample < pow2((bits - 1) as nat),
    ensures
        match decoding_of(channels, SampleFormat::Int, bits) {
            Ok(Decoding::Short) => bits <= 16 && -pow2(15) <= sample < pow2(15),
            Ok(Decoding::Long { shift }) => 16 < bits <= 32 && -pow2(shift as nat) <= sample < pow2(
                shift as nat,
            ) && pow2(shift as nat) == pow2((bits - 1) as nat),
            Ok(Decoding::Float) => false,
            Err(e) => bits > 32 && e == (AudioError::UnsupportedFormat {
                format: SampleFormat::Int,
                bits,
            }),
        },
        decoding_of(channels, SampleFormat::Float, bits) == Ok::<Decoding, AudioError>(
            Decoding::Float,
        ),
        decoding_of(0, SampleFormat::Float, bits) == Err::<Decoding, AudioError>(
            AudioError::NoChannels,
        ),
        decoding_of(0, SampleFormat::Int, bits) == Err::<Decoding, AudioError>(
            AudioError::NoChannels,
        ),
{
    if bits < 16 {
        lemma_pow2_strictly_increases((bits - 1) as nat, 15);
    }
}

} // verus!
