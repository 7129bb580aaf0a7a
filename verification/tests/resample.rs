use hifi_decode::binary64::Binary64;
use hifi_decode::resample::{BlockResampler, ResamplerQuality, ResamplerStage};
use hifi_decode::soxr::SoxrRecipe;

fn b(x: f64) -> Binary64 {
    Binary64::from_bits(x.to_bits())
}

#[test]
fn quality_presets_match_pythons_per_stage_recipes() {
    for stage in [ResamplerStage::If, ResamplerStage::Audio, ResamplerStage::AudioFinal] {
        assert_eq!(ResamplerQuality::High.recipe(stage), SoxrRecipe::Vhq);
        assert_eq!(ResamplerQuality::Low.recipe(stage), SoxrRecipe::Lq);
    }
    assert_eq!(ResamplerQuality::Medium.recipe(ResamplerStage::If), SoxrRecipe::Lq);
    assert_eq!(ResamplerQuality::Medium.recipe(ResamplerStage::Audio), SoxrRecipe::Mq);
    assert_eq!(ResamplerQuality::Medium.recipe(ResamplerStage::AudioFinal), SoxrRecipe::Hq);
}

#[test]
fn a_resampler_holds_the_exact_pair_of_its_ratio() {
    let r = BlockResampler::new(
        b(28_636_363.0),
        b(192_000.0),
        ResamplerQuality::High,
        ResamplerStage::Audio,
    );
    assert_eq!(f64::from_bits(r.soxr_out_rate.bits), 1932516088761993.0);
    assert_eq!(f64::from_bits(r.soxr_in_rate.bits), 288230376151711744.0);
    assert_eq!(r.recipe, SoxrRecipe::Vhq);
    let r = BlockResampler::new(
        b(192_000.0),
        b(48_000.0),
        ResamplerQuality::Medium,
        ResamplerStage::AudioFinal,
    );
    assert_eq!(f64::from_bits(r.soxr_out_rate.bits), 1.0);
    assert_eq!(f64::from_bits(r.soxr_in_rate.bits), 4.0);
    assert_eq!(r.recipe, SoxrRecipe::Hq);
}

#[test]
fn only_the_ratio_of_the_rates_matters() {
    let quality = ResamplerQuality::Low;
    let stage = ResamplerStage::AudioFinal;
    let a = BlockResampler::new(b(192_000.0), b(48_000.0), quality, stage);
    let c = BlockResampler::new(b(4.0), b(1.0), quality, stage);
    assert_eq!(a, c);
}

#[test]
fn rates_that_make_no_ratio_are_told_in_advance() {
    assert!(BlockResampler::takes(b(192_000.0), b(48_000.0)));
    assert!(!BlockResampler::takes(b(0.0), b(48_000.0)));
    assert!(!BlockResampler::takes(b(192_000.0), b(-1.0)));
    assert!(!BlockResampler::takes(b(f64::NAN), b(1.0)));
    assert!(!BlockResampler::takes(b(1.0), b(f64::INFINITY)));
    assert!(!BlockResampler::takes(b(1.0e-300), b(1.0e300)));
    assert!(!BlockResampler::takes(b(1.0e300), b(1.0e-300)));
}
