use hifi_decode::binary64::Binary64;
use hifi_decode::block::{Block, BlockLayout};
use hifi_decode::pipeline::{
    audio_rate_intermediate, chunk_steps, dc_trim, queue_depth, stage_resampler, stage_takes,
    trim_block_output, ChunkStep, DemodType, DocMode, ExpanderPriming, PostChain, Stage,
    StageOptions,
};
use hifi_decode::resample::{BlockResampler, ResamplerQuality, ResamplerStage};
use hifi_decode::soxr::SoxrRecipe;

fn b(x: f64) -> Binary64 {
    Binary64::from_bits(x.to_bits())
}

fn options(doc_mode: DocMode, head_switching: bool, audio_final_rate: f64) -> StageOptions {
    StageOptions {
        demod_type: DemodType::Quadrature,
        doc_mode,
        head_switching_interpolation: head_switching,
        audio_final_rate: b(audio_final_rate),
    }
}

#[test]
fn the_intermediate_rate_is_192_khz() {
    assert_eq!(f64::from_bits(audio_rate_intermediate().bits), 192_000.0);
}

#[test]
fn every_stage_runs_when_everything_is_on() {
    assert_eq!(
        options(DocMode::Full, true, 48_000.0).stages(),
        vec![
            Stage::Filter,
            Stage::Demodulate(DemodType::Quadrature),
            Stage::ResampleToIntermediate,
            Stage::TrimDc,
            Stage::CompensateDropouts { mute: false },
            Stage::RemoveHeadSwitchNoise,
            Stage::ResampleToFinal,
            Stage::Mix,
        ]
    );
}

#[test]
fn optional_stages_are_left_out() {
    assert_eq!(
        options(DocMode::Disabled, false, 192_000.0).stages(),
        vec![
            Stage::Filter,
            Stage::Demodulate(DemodType::Quadrature),
            Stage::ResampleToIntermediate,
            Stage::TrimDc,
            Stage::Mix,
        ]
    );
    let muted = options(DocMode::Mute, false, 192_000.0).stages();
    assert_eq!(muted[4], Stage::CompensateDropouts { mute: true });
    assert_eq!(muted.len(), 6);
}

#[test]
fn the_dc_trim_leaves_something_to_measure() {
    assert_eq!(dc_trim(0), 0);
    assert_eq!(dc_trim(1), 0);
    assert_eq!(dc_trim(2), 0);
    assert_eq!(dc_trim(3), 1);
    assert_eq!(dc_trim(2_000), 999);
    assert_eq!(dc_trim(2_001), 1_000);
    assert_eq!(dc_trim(96_000), 1_000);
}

#[test]
fn a_block_keeps_its_own_span_of_the_output() {
    let layout = BlockLayout::new(b(28_636_363.0), b(192_000.0), b(48_000.0));
    let block = layout.middle_block(1);
    let decoded: Vec<f32> = (0..24_000).map(|i| i as f32).collect();
    let kept = trim_block_output(&decoded, &block);
    assert_eq!(kept.len(), 23_475);
    assert_eq!((kept[0], kept[23_474]), (262.0, 23_736.0));
}

#[test]
fn a_short_output_is_kept_as_far_as_it_goes() {
    let block = Block {
        index: 0,
        read_start: 0,
        read_end: 0,
        prepend_duplicate: 0,
        append_pad: 0,
        buffer_len: 0,
        emit_len: 4,
        audio_final_overlap: 2,
        is_last: true,
    };
    assert_eq!(trim_block_output(&[1, 2, 3, 4, 5, 6, 7], &block), vec![2, 3, 4, 5]);
    assert_eq!(trim_block_output(&[1, 2, 3], &block), vec![1, 2, 3]);
    assert_eq!(trim_block_output(&Vec::<i32>::new(), &block), Vec::<i32>::new());
}

#[test]
fn queues_hold_two_blocks_per_worker() {
    assert_eq!(queue_depth(0), 2);
    assert_eq!(queue_depth(1), 2);
    assert_eq!(queue_depth(8), 16);
}

#[test]
fn only_the_first_chunk_primes_the_expander() {
    let mut priming = ExpanderPriming::new();
    assert_eq!(priming.prime_len(23_212), Some(23_212));
    assert_eq!(priming.prime_len(23_475), None);
    assert_eq!(priming.prime_len(23_475), None);
}

#[test]
fn chunks_are_finished_step_by_step() {
    let mut priming = ExpanderPriming::new();
    assert_eq!(
        chunk_steps(&mut priming, b(2.0), 100),
        vec![
            ChunkStep::ReportBias,
            ChunkStep::ApplyGain,
            ChunkStep::BlockDc,
            ChunkStep::PostProcess { prime_len: Some(100) },
            ChunkStep::RecordProgress,
            ChunkStep::Emit,
        ]
    );
    assert_eq!(
        chunk_steps(&mut priming, b(1.0), 100),
        vec![
            ChunkStep::ReportBias,
            ChunkStep::BlockDc,
            ChunkStep::PostProcess { prime_len: None },
            ChunkStep::RecordProgress,
            ChunkStep::Emit,
        ]
    );
}

#[test]
fn each_resampling_stage_has_its_own_rates_and_recipe() {
    let (input, last) = (b(28_636_363.0), b(48_000.0));
    let quality = ResamplerQuality::Medium;
    let audio = stage_resampler(Stage::ResampleToIntermediate, input, last, quality).unwrap();
    assert_eq!(
        audio,
        BlockResampler::new(input, b(192_000.0), quality, ResamplerStage::Audio)
    );
    assert_eq!(audio.recipe, SoxrRecipe::Mq);
    assert_eq!(f64::from_bits(audio.soxr_out_rate.bits), 1932516088761993.0);
    let end = stage_resampler(Stage::ResampleToFinal, input, last, quality).unwrap();
    assert_eq!(
        end,
        BlockResampler::new(b(192_000.0), last, quality, ResamplerStage::AudioFinal)
    );
    assert_eq!(end.recipe, SoxrRecipe::Hq);
    assert_eq!(f64::from_bits(end.soxr_in_rate.bits), 4.0);
}

#[test]
fn other_stages_have_no_resampler() {
    for stage in [
        Stage::Filter,
        Stage::Demodulate(DemodType::Quadrature),
        Stage::TrimDc,
        Stage::CompensateDropouts { mute: true },
        Stage::RemoveHeadSwitchNoise,
        Stage::Mix,
    ] {
        assert!(stage_takes(stage, b(0.0), b(0.0)));
        assert_eq!(stage_resampler(stage, b(0.0), b(0.0), ResamplerQuality::High), None);
    }
}

#[test]
fn a_stage_looks_at_its_own_rates() {
    assert!(stage_takes(Stage::ResampleToIntermediate, b(40.0e6), b(0.0)));
    assert!(!stage_takes(Stage::ResampleToFinal, b(40.0e6), b(0.0)));
    assert!(!stage_takes(Stage::ResampleToIntermediate, b(0.0), b(48_000.0)));
    assert!(stage_takes(Stage::ResampleToFinal, b(0.0), b(48_000.0)));
}

#[test]
fn eight_millimetre_tapes_have_a_chain_of_their_own() {
    assert_eq!(PostChain::new(true), PostChain::EightMm);
    assert_eq!(PostChain::new(false), PostChain::Vhs);
}

#[test]
fn every_chunk_is_emitted_once_and_last() {
    let mut priming = ExpanderPriming::new();
    for gain in [1.0, 2.0, 0.5] {
        let steps = chunk_steps(&mut priming, b(gain), 10);
        assert_eq!(steps.iter().filter(|&&step| step == ChunkStep::Emit).count(), 1);
        assert_eq!(steps.last(), Some(&ChunkStep::Emit));
    }
}
