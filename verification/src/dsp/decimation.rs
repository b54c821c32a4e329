//! The stage plan of the multi-stage decimation filter: the total
//! decimation `dsd_rate / target_rate` is taken apart into stages of 4 and
//! 2, with any odd rest as a last stage.
use vstd::prelude::*;

verus! {

/// One stage of a decimation cascade.
#[derive(Debug, Clone, Copy, PartialEq, Eq, Structural)]
pub struct DecimationStage {
    /// The factor by which the stage lowers the rate.
    pub decimation: u32,
    /// The rate the stage reads, in Hz.
    pub input_rate: u32,
    /// The rate the stage writes, `input_rate / decimation`, in Hz.
    pub output_rate: u32,
}

/// The factor of the next stage when `r` remains to be decimated: 4 where
/// `r` is a multiple of 4, else 2 where it is even, else all of `r`.
pub open spec fn stage_factor(r: nat) -> nat {
    if r >= 4 && r % 4 == 0 {
        4
    } else if r >= 2 && r % 2 == 0 {
        2
    } else {
        r
    }
}

/// The stage factors for a total decimation of `r`, first stage first.
pub open spec fn stage_factors(r: nat) -> Seq<nat>
    decreases r,
{
    if r <= 1 {
        seq![]
    } else {
        proof {
            lemma_stage_factor_shrinks(r);
        }
        seq![stage_factor(r)].add(stage_factors(r / stage_factor(r)))
    }
}

/// The product of a sequence of factors.
pub open spec fn product(s: Seq<nat>) -> nat
    decreases s.len(),
{
    if s.len() == 0 {
        1
    } else {
        s[0] * product(s.drop_first())
    }
}

/// A stage factor is at least 2 and divides what remains, which shrinks.
pub proof fn lemma_stage_factor_shrinks(r: nat)
    requires
        r > 1,
    ensures
        stage_factor(r) >= 2,
        r / stage_factor(r) < r,
        stage_factor(r) * (r / stage_factor(r)) == r,
{
    let f = stage_factor(r);
    if f == r {
        vstd::arithmetic::div_mod::lemma_div_by_self(r as int);
    } else {
        vstd::arithmetic::div_mod::lemma_fundamental_div_mod(r as int, f as int);
        vstd::arithmetic::div_mod::lemma_div_decreases(r as int, f as int);
    }
}

/// The stages multiply up to the total decimation: the cascade lowers the
/// rate by exactly `dsd_rate / target_rate` (where that is at least 1).
pub proof fn lemma_stage_factors_multiply(r: nat)
    requires
        r >= 1,
    ensures
        product(stage_factors(r)) == r,
        forall|i: int|
            0 <= i < stage_factors(r).len() ==> #[trigger] stage_factors(r)[i] >= 2,
    decreases r,
{
    if r > 1 {
        lemma_stage_factor_shrinks(r);
        let f = stage_factor(r);
        let rest = stage_factors(r / f);
        lemma_stage_factors_multiply(r / f);
        assert(stage_factors(r).drop_first() =~= rest);
        assert forall|i: int| 0 <= i < stage_factors(r).len() implies #[trigger] stage_factors(
            r,
        )[i] >= 2 by {
            if i > 0 {
                assert(stage_factors(r)[i] == rest[i - 1]);
            }
        }
    }
}

/// Plan the stages of the decimation filter from `dsd_rate` down to
/// `target_rate`: one stage per factor of `stage_factors(dsd_rate /
/// target_rate)`, each running at the rate the one before it left.
pub fn decimation_stages(dsd_rate: u32, target_rate: u32) -> (stages: Vec<DecimationStage>)
    requires
        target_rate > 0,
    ensures
        stages@.len() == stage_factors((dsd_rate / target_rate) as nat).len(),
        forall|i: int|
            0 <= i < stages@.len() ==> (#[trigger] stages@[i]).decimation == stage_factors(
                (dsd_rate / target_rate) as nat,
            )[i],
        stages@.len() > 0 ==> stages@[0].input_rate == dsd_rate,
        forall|i: int|
            0 <= i < stages@.len() ==> (#[trigger] stages@[i]).output_rate == stages@[i].input_rate
                / stages@[i].decimation,
        forall|i: int| 0 < i < stages@.len() ==> (#[trigger] stages@[i]).input_rate == stages@[i
            - 1].output_rate,
{
    let total_decimation = dsd_rate / target_rate;
    let mut stages: Vec<DecimationStage> = Vec::new();
    let mut remaining: u32 = total_decimation;
    let mut current_rate: u32 = dsd_rate;
    let ghost total = total_decimation as nat;
    while remaining > 1
        invariant
            stage_factors(total) =~= stages@.map_values(|s: DecimationStage| s.decimation as nat)
                + stage_factors(remaining as nat),
            stages@.len() > 0 ==> stages@[0].input_rate == dsd_rate,
            stages@.len() == 0 ==> current_rate == dsd_rate,
            stages@.len() > 0 ==> current_rate == stages@.last().output_rate,
            forall|i: int|
                0 <= i < stages@.len() ==> (#[trigger] stages@[i]).output_rate
                    == stages@[i].input_rate / stages@[i].decimation,
            forall|i: int|
                0 < i < stages@.len() ==> (#[trigger] stages@[i]).input_rate == stages@[i
                    - 1].output_rate,
            forall|i: int| 0 <= i < stages@.len() ==> (#[trigger] stages@[i]).decimation >= 2,
        decreases remaining,
    {
        proof {
            lemma_stage_factor_shrinks(remaining as nat);
        }
        let stage_dec: u32 = if remaining >= 4 && remaining % 4 == 0 {
            4
        } else if remaining >= 2 && remaining % 2 == 0 {
            2
        } else {
            remaining
        };
        let stage_target = current_rate / stage_dec;
        let ghost before = stages@;
        stages.push(
            DecimationStage { decimation: stage_dec, input_rate: current_rate, output_rate: stage_target },
        );
        proof {
            let dec = |s: DecimationStage| s.decimation as nat;
            assert(stages@.map_values(dec) =~= before.map_values(dec).push(stage_dec as nat));
            assert(stage_factors(remaining as nat) =~= seq![stage_dec as nat].add(
                stage_factors((remaining / stage_dec) as nat),
            ));
        }
        current_rate = stage_target;
        remaining = remaining / stage_dec;
    }
    proof {
        assert(stage_factors(remaining as nat) =~= seq![]);
        assert forall|i: int| 0 <= i < stages@.len() implies (#[trigger] stages@[i]).decimation
            == stage_factors(total)[i] by {
            assert(stage_factors(total)[i] == stages@.map_values(
                |s: DecimationStage| s.decimation as nat,
            )[i]);
        }
    }
    stages
}

} // verus!
