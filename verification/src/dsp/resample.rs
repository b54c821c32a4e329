//! The integer plan of the polyphase sample rate converter: when a
//! conversion is needed, how its filter bank is shaped, and how many frames
//! a block of input yields.
use vstd::prelude::*;

verus! {

/// Quality settings for the sample rate converter.
#[derive(Debug, Clone, Copy, PartialEq, Eq, Structural)]
pub enum SrcQuality {
    /// 8 taps, 8 phases.
    Fast,
    /// 32 taps, 32 phases.
    Medium,
    /// 64 taps, 64 phases.
    High,
    /// 128 taps, 128 phases.
    VeryHigh,
}

impl SrcQuality {
    /// The level of the setting: 8, 32, 64 or 128.
    pub open spec fn level(self) -> nat {
        match self {
            SrcQuality::Fast => 8,
            SrcQuality::Medium => 32,
            SrcQuality::High => 64,
            SrcQuality::VeryHigh => 128,
        }
    }

    /// The number of polyphase branches: the level of the setting.
    pub fn num_phases(&self) -> (n: usize)
        ensures
            n == self.level(),
    {
        match self {
            SrcQuality::Fast => 8,
            SrcQuality::Medium => 32,
            SrcQuality::High => 64,
            SrcQuality::VeryHigh => 128,
        }
    }

    /// The taps of each branch: the level of the setting, at least 8.
    pub fn taps_per_phase(&self) -> (n: usize)
        ensures
            n == if self.level() < 8 {
                8
            } else {
                self.level()
            },
    {
        let q = self.num_phases();
        if q < 8 {
            8
        } else {
            q
        }
    }
}

/// The shape of a sample rate conversion.
#[derive(Debug, Clone, Copy, PartialEq, Eq, Structural)]
pub struct SrcPlan {
    pub input_rate: u32,
    pub output_rate: u32,
    /// Number of polyphase branches.
    pub num_phases: usize,
    /// Taps per branch; also the length of the delay line.
    pub taps_per_phase: usize,
}

/// Plan a conversion from `input_rate` to `output_rate`. There is none
/// (`None`) where either rate is zero or the rates are equal, so that the
/// audio passes through unchanged.
pub fn plan_resampling(input_rate: u32, output_rate: u32, quality: SrcQuality) -> (r: Option<
    SrcPlan,
>)
    ensures
        r is None <==> (input_rate == 0 || output_rate == 0 || input_rate == output_rate),
        r matches Some(p) ==> p.input_rate == input_rate && p.output_rate == output_rate
            && p.num_phases == quality.level() && p.taps_per_phase == quality.level(),
{
    if input_rate == 0 || output_rate == 0 {
        return None;
    }
    if input_rate == output_rate {
        return None;
    }
    Some(
        SrcPlan {
            input_rate,
            output_rate,
            num_phases: quality.num_phases(),
            taps_per_phase: quality.taps_per_phase(),
        },
    )
}

/// Frames produced from `input_frames` frames: `input_frames * output_rate
/// / input_rate`, rounded up.
pub open spec fn resampled_frames(input_frames: int, input_rate: int, output_rate: int) -> int {
    (input_frames * output_rate + input_rate - 1) / input_rate
}

impl SrcPlan {
    /// Frames of output for a block of `input_frames` frames of input.
    pub fn output_frames(&self, input_frames: usize) -> (n: usize)
        requires
            self.input_rate > 0,
            input_frames * self.output_rate + self.input_rate <= u64::MAX,
            resampled_frames(input_frames as int, self.input_rate as int, self.output_rate as int)
                <= usize::MAX,
        ensures
            n == resampled_frames(input_frames as int, self.input_rate as int, self.output_rate as int),
    {
        let frames = input_frames as u64;
        assert(frames * self.output_rate <= u64::MAX) by (nonlinear_arith)
            requires
                frames == input_frames,
                input_frames * self.output_rate + self.input_rate <= u64::MAX,
                self.input_rate > 0,
        ;
        let total: u64 = frames * self.output_rate as u64 + (self.input_rate as u64 - 1);
        (total / self.input_rate as u64) as usize
    }
}

} // verus!
