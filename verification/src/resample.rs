//! Which resampler sits where in the decode chain.
//!
//! Every block is resampled on its own and flushed at its end: no resampler
//! state survives from one block to the next, and it is block overlap that
//! hides the resulting edge transients.

use crate::accuracy::within_power;
use crate::binary64::{lemma_assembled, lemma_units_sign, unit_scale, Binary64};
use crate::block::positive;
use crate::rounding::{
    lemma_binade_unique, lemma_mantissa_range, lemma_pow2_add, lemma_round_representable,
    lemma_round_short, lemma_units_increase, magnitude_units, round_ratio, INFINITY_BITS,
};
use crate::soxr::{
    binary_places, exact_ratio_pair, law_numerator_is_whole_and_lowest,
    law_pair_reproduces_the_ratio, SoxrRecipe,
};
use vstd::arithmetic::div_mod::*;
use vstd::arithmetic::mul::*;
use vstd::arithmetic::power2::*;
use vstd::prelude::*;

verus! {

/// Which link of the decode chain a resampler sits in. Below the `High`
/// preset each stage gets a recipe of its own, so the stage travels with
/// the quality setting.
#[derive(Clone, Copy, Debug, PartialEq, Eq, Structural)]
pub enum ResamplerStage {
    /// RF to IF; the quadrature path never resamples RF.
    If,
    /// Demodulated audio to the intermediate rate.
    Audio,
    /// Intermediate rate to the final output rate.
    AudioFinal,
}

/// The resampler quality presets.
#[derive(Clone, Copy, Debug, PartialEq, Eq, Structural)]
pub enum ResamplerQuality {
    High,
    Medium,
    Low,
}

impl ResamplerQuality {
    /// The libsoxr recipe of each preset and stage.
    pub open spec fn recipe_of(self, stage: ResamplerStage) -> SoxrRecipe {
        match (self, stage) {
            (ResamplerQuality::High, _) => SoxrRecipe::Vhq,
            (ResamplerQuality::Medium, ResamplerStage::If) => SoxrRecipe::Lq,
            (ResamplerQuality::Medium, ResamplerStage::Audio) => SoxrRecipe::Mq,
            (ResamplerQuality::Medium, ResamplerStage::AudioFinal) => SoxrRecipe::Hq,
            (ResamplerQuality::Low, _) => SoxrRecipe::Lq,
        }
    }

    /// The libsoxr recipe for this preset in `stage`.
    pub fn recipe(self, stage: ResamplerStage) -> (recipe: SoxrRecipe)
        ensures
            recipe == self.recipe_of(stage),
    {
        match self {
            ResamplerQuality::High => SoxrRecipe::Vhq,
            ResamplerQuality::Medium => match stage {
                ResamplerStage::If => SoxrRecipe::Lq,
                ResamplerStage::Audio => SoxrRecipe::Mq,
                ResamplerStage::AudioFinal => SoxrRecipe::Hq,
            },
            ResamplerQuality::Low => SoxrRecipe::Lq,
        }
    }
}

/// The settings of a one-shot block resampler. The rates need only be
/// proportionally correct: their ratio is reduced to its exact numerator
/// and denominator before libsoxr sees it.
#[derive(Clone, Copy, Debug, PartialEq, Eq, Structural)]
pub struct BlockResampler {
    /// libsoxr's input rate: the denominator of the ratio.
    pub soxr_in_rate: Binary64,
    /// libsoxr's output rate: the numerator of the ratio.
    pub soxr_out_rate: Binary64,
    pub recipe: SoxrRecipe,
}

impl BlockResampler {
    /// Both rates above zero, with a ratio that is a positive finite number.
    pub open spec fn accepts(input_rate: Binary64, output_rate: Binary64) -> bool {
        let zero = Binary64 { bits: 0 };
        &&& Binary64::below(zero, input_rate)
        &&& Binary64::below(zero, output_rate)
        &&& positive(Binary64::quotient(output_rate, input_rate))
    }

    /// Whether this is the resampler from `input_rate` to `output_rate` for
    /// this preset and stage: their ratio as its exact numerator and
    /// denominator, and the preset's recipe.
    pub open spec fn converts(
        self,
        input_rate: Binary64,
        output_rate: Binary64,
        quality: ResamplerQuality,
        stage: ResamplerStage,
    ) -> bool {
        let ratio = Binary64::quotient(output_rate, input_rate);
        let places = binary_places(ratio.units(), 1074);
        &&& self.recipe == quality.recipe_of(stage)
        &&& positive(self.soxr_out_rate)
        &&& self.soxr_out_rate.units() == ratio.units() * pow2(places)
        &&& self.soxr_in_rate == Binary64::nearest(pow2(places) as int, 1)
    }

    /// Whether `new` takes these rates.
    pub fn takes(input_rate: Binary64, output_rate: Binary64) -> (b: bool)
        ensures
            b == BlockResampler::accepts(input_rate, output_rate),
    {
        let zero = Binary64::from_bits(0);
        zero.less_than(input_rate) && zero.less_than(output_rate) && output_rate.divided_by(
            input_rate,
        ).is_positive_finite()
    }

    /// The resampler from `input_rate` to `output_rate` for this stage.
    pub fn new(
        input_rate: Binary64,
        output_rate: Binary64,
        quality: ResamplerQuality,
        stage: ResamplerStage,
    ) -> (r: BlockResampler)
        requires
            BlockResampler::accepts(input_rate, output_rate),
        ensures
            r.converts(input_rate, output_rate, quality, stage),
    {
        let (numerator, denominator) = exact_ratio_pair(output_rate.divided_by(input_rate));
        BlockResampler {
            soxr_in_rate: denominator,
            soxr_out_rate: numerator,
            recipe: quality.recipe(stage),
        }
    }
}

/// The rates need only be proportionally correct: resamplers between rates
/// of the same ratio are the same.
pub proof fn law_only_the_ratio_matters(
    a: BlockResampler,
    input_rate: Binary64,
    output_rate: Binary64,
    b: BlockResampler,
    other_input_rate: Binary64,
    other_output_rate: Binary64,
    quality: ResamplerQuality,
    stage: ResamplerStage,
)
    requires
        a.converts(input_rate, output_rate, quality, stage),
        b.converts(other_input_rate, other_output_rate, quality, stage),
        Binary64::quotient(output_rate, input_rate) == Binary64::quotient(
            other_output_rate,
            other_input_rate,
        ),
    ensures
        a == b,
{
    let x = a.soxr_out_rate.magnitude();
    let y = b.soxr_out_rate.magnitude();
    if x < y {
        lemma_units_increase(x, y);
    } else if y < x {
        lemma_units_increase(y, x);
    }
}

/// What libsoxr is handed is the ratio of the output rate to the input rate:
/// output over input gives it back exactly, and both are whole numbers, the
/// input rate a power of two.
pub proof fn law_resampler_keeps_the_ratio(
    r: BlockResampler,
    input_rate: Binary64,
    output_rate: Binary64,
    quality: ResamplerQuality,
    stage: ResamplerStage,
)
    requires
        BlockResampler::accepts(input_rate, output_rate),
        r.converts(input_rate, output_rate, quality, stage),
        r.soxr_in_rate.finite(),
    ensures
        Binary64::quotient(r.soxr_out_rate, r.soxr_in_rate) == Binary64::quotient(
            output_rate,
            input_rate,
        ),
        r.soxr_out_rate.units() % unit_scale() == 0,
        r.soxr_in_rate.units() % unit_scale() == 0,
{
    let ratio = Binary64::quotient(output_rate, input_rate);
    let places = binary_places(ratio.units(), 1074);
    lemma_units_sign(ratio);
    lemma_pow2_pos(1074);
    law_numerator_is_whole_and_lowest(ratio.units(), 1074);
    lemma_power_is_exact(places, r.soxr_in_rate);
    law_pair_reproduces_the_ratio(ratio, r.soxr_out_rate, r.soxr_in_rate);
    lemma_mod_multiples_basic(pow2(places) as int, unit_scale());
}

/// What libsoxr is handed is in lowest terms: the output rate is odd wherever
/// the input rate, a power of two, is not 1.
pub proof fn law_resampler_rates_are_in_lowest_terms(
    r: BlockResampler,
    input_rate: Binary64,
    output_rate: Binary64,
    quality: ResamplerQuality,
    stage: ResamplerStage,
)
    requires
        BlockResampler::accepts(input_rate, output_rate),
        r.converts(input_rate, output_rate, quality, stage),
        r.soxr_in_rate.finite(),
    ensures
        exists|places: nat| r.soxr_in_rate.units() == #[trigger] pow2(places) * unit_scale(),
        r.soxr_in_rate.units() == unit_scale() || r.soxr_out_rate.units() % (2 * unit_scale())
            != 0,
{
    let u = Binary64::quotient(output_rate, input_rate).units();
    let places = binary_places(u, 1074);
    let one = unit_scale();
    lemma_units_sign(Binary64::quotient(output_rate, input_rate));
    lemma_pow2_pos(1074);
    law_numerator_is_whole_and_lowest(u, 1074);
    lemma_power_is_exact(places, r.soxr_in_rate);
    if places == 0 {
        lemma2_to64();
        lemma_mul_basics(one);
    } else {
        lemma_pow2_unfold(places);
        let h = u * pow2((places - 1) as nat);
        let n = r.soxr_out_rate.units();
        assert(n == 2 * h) by (nonlinear_arith)
            requires
                n == u * pow2(places),
                pow2(places) == 2 * pow2((places - 1) as nat),
                h == u * pow2((places - 1) as nat),
        ;
        if n % (2 * one) == 0 {
            lemma_fundamental_div_mod(n, 2 * one);
            let f = n / (2 * one);
            assert(h == f * one) by (nonlinear_arith)
                requires
                    2 * h == (2 * one) * f,
            ;
            lemma_mod_multiples_basic(f, one);
        }
    }
}

/// Wherever the ratio is moderate, both rates that libsoxr is handed are finite.
pub proof fn law_resampler_rates_are_finite(
    r: BlockResampler,
    input_rate: Binary64,
    output_rate: Binary64,
    quality: ResamplerQuality,
    stage: ResamplerStage,
)
    requires
        r.converts(input_rate, output_rate, quality, stage),
        within_power(Binary64::quotient(output_rate, input_rate), 900),
    ensures
        r.soxr_in_rate.finite(),
        r.soxr_out_rate.finite(),
{
    let ratio = Binary64::quotient(output_rate, input_rate);
    let bits = ratio.magnitude();
    let u = ratio.units();
    let places = binary_places(u, 1074);
    lemma2_to64_rest();
    lemma_pow2_pos(1074);
    lemma_units_sign(ratio);
    law_numerator_is_whole_and_lowest(u, 1074);
    // The ratio is a multiple of 2^51 units.
    let low: int = 0x340_0000_0000_0000;
    assert(magnitude_units(low) == pow2(103)) by {
        assert(low / 0x10_0000_0000_0000 == 52 && low % 0x10_0000_0000_0000 == 0);
        assert((low / 0x10_0000_0000_0000 - 1) as nat == 51);
        lemma_pow2_add(52, 51);
    }
    lemma_pow2_strictly_increases(103, 174);
    if bits < low {
        lemma_units_increase(bits, low);
    }
    let k = (bits / 0x10_0000_0000_0000 - 1) as nat;
    let m = 0x10_0000_0000_0000 + bits % 0x10_0000_0000_0000;
    assert(k >= 51);
    if places >= 1024 {
        let e = (places - 1) as nat;
        let rest = (k + e - 1074) as nat;
        lemma_pow2_add(k, e);
        lemma_pow2_add(rest, 1074);
        let c = m * pow2(rest);
        assert(u * pow2(e) == c * pow2(1074)) by (nonlinear_arith)
            requires
                u == m * pow2(k),
                pow2(k + e) == pow2(k) * pow2(e),
                pow2(k + e) == pow2(rest) * pow2(1074),
                c == m * pow2(rest),
        ;
        lemma_mod_multiples_basic(c, pow2(1074) as int);
    }
    lemma_power_is_finite(places);
}

/// A power of two within the exponent range is finite.
proof fn lemma_power_is_finite(places: nat)
    requires
        places < 1024,
    ensures
        Binary64::nearest(pow2(places) as int, 1).finite(),
{
    let p = pow2(places) * unit_scale();
    lemma_pow2_add(places, 1074);
    lemma2_to64_rest();
    lemma_pow2_add(52, (places + 1022) as nat);
    let bits: int = (places as int + 1023) * 0x10_0000_0000_0000;
    assert(bits / 0x10_0000_0000_0000 == places + 1023);
    assert(bits % 0x10_0000_0000_0000 == 0);
    assert((bits / 0x10_0000_0000_0000 - 1) as nat == places + 1022);
    assert(magnitude_units(bits) == p);
    lemma_round_representable(bits);
    lemma_assembled(false, bits);
}

/// A power of two that is not infinite is exact.
proof fn lemma_power_is_exact(places: nat, x: Binary64)
    requires
        places <= 1074,
        x == Binary64::nearest(pow2(places) as int, 1),
        x.finite(),
    ensures
        positive(x),
        x.units() == pow2(places) * unit_scale(),
{
    let p = pow2(places) * unit_scale();
    lemma_pow2_pos(places);
    lemma_pow2_pos(1074);
    lemma_mul_strictly_positive(pow2(places) as int, unit_scale());
    lemma_pow2_add(places, 1074);
    lemma_mul_basics(p);
    lemma_mantissa_range(p, 1);
    lemma_assembled(false, round_ratio(p, 1));
    if places <= 970 {
        lemma_round_short(1, (places + 1074) as nat);
    } else {
        lemma_power_bits(places, p);
    }
    lemma_units_sign(x);
}

proof fn lemma_power_bits(places: nat, p: int)
    requires
        970 < places <= 1074,
        p == pow2(places + 1074),
        round_ratio(p, 1) < INFINITY_BITS,
    ensures
        magnitude_units(round_ratio(p, 1)) == p,
{
    lemma2_to64_rest();
    lemma_pow2_add(52, (places + 1022) as nat);
    let bits: int = (places as int + 1023) * 0x10_0000_0000_0000;
    assert(bits / 0x10_0000_0000_0000 == places + 1023);
    assert(bits % 0x10_0000_0000_0000 == 0);
    assert((bits / 0x10_0000_0000_0000 - 1) as nat == places + 1022);
    assert(magnitude_units(bits) == p);
    if bits <= INFINITY_BITS {
        lemma_round_representable(bits);
    } else {
        let k = (places + 1022) as nat;
        lemma_pow2_pos(k);
        lemma_mul_basics(pow2(k) as int);
        lemma_binade_unique(p, 1, k);
        lemma_mantissa_range(p, 1);
    }
}

/// Rates above zero are taken wherever their ratio is a positive number, and
/// nowhere else.
pub proof fn law_rates_with_a_ratio_are_taken(input_rate: Binary64, output_rate: Binary64)
    ensures
        BlockResampler::accepts(input_rate, output_rate) <==> {
            let ratio = Binary64::quotient(output_rate, input_rate);
            &&& !input_rate.nan() && input_rate.signed_units() > 0
            &&& !output_rate.nan() && output_rate.signed_units() > 0
            &&& ratio.finite() && ratio.signed_units() > 0
        },
{
    lemma_units_sign(Binary64 { bits: 0 });
    lemma_units_sign(Binary64::quotient(output_rate, input_rate));
}

/// A resampler has the recipe of its own preset and stage.
pub proof fn law_resampler_has_its_recipe(
    r: BlockResampler,
    input_rate: Binary64,
    output_rate: Binary64,
    quality: ResamplerQuality,
    stage: ResamplerStage,
)
    requires
        r.converts(input_rate, output_rate, quality, stage),
    ensures
        r.recipe == SoxrRecipe::Vhq <==> quality == ResamplerQuality::High,
        r.recipe == SoxrRecipe::Hq <==> quality == ResamplerQuality::Medium && stage
            == ResamplerStage::AudioFinal,
        r.recipe == SoxrRecipe::Mq <==> quality == ResamplerQuality::Medium && stage
            == ResamplerStage::Audio,
        r.recipe == SoxrRecipe::Lq <==> quality == ResamplerQuality::Low || (quality
            == ResamplerQuality::Medium && stage == ResamplerStage::If),
{
}

/// The high preset asks for the best recipe in every stage and the low one for
/// the lowest; the medium one asks for more from stage to stage.
pub proof fn law_recipes_of_the_presets(stage: ResamplerStage)
    ensures
        ResamplerQuality::High.recipe_of(stage) == SoxrRecipe::Vhq,
        ResamplerQuality::Low.recipe_of(stage) == SoxrRecipe::Lq,
        ResamplerQuality::Medium.recipe_of(ResamplerStage::If) == SoxrRecipe::Lq,
        ResamplerQuality::Medium.recipe_of(ResamplerStage::Audio) == SoxrRecipe::Mq,
        ResamplerQuality::Medium.recipe_of(ResamplerStage::AudioFinal) == SoxrRecipe::Hq,
{
}

} // verus!
