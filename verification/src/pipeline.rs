//! The decisions of the decode pipeline: which stages a block goes through,
//! which slice of its output survives, and what happens to each chunk of
//! audio once it is next in line.
//!
//! The stages themselves work on sample values and stand elsewhere.

use crate::binary64::{lemma_nearest_whole, lemma_units_sign, unit_scale, Binary64};
use crate::block::{append_range, at_least, at_most, Block, BlockLayout};
use crate::delivery::{
    arrivals_of, first_failure, law_first_failure_ends_the_delivery, lemma_first_failure, outcome,
    Delivery,
};
use crate::resample::{BlockResampler, ResamplerQuality, ResamplerStage};
use crate::rounding::{lemma_pow2_add, lemma_units_increase};
use crate::stream::block_count;
use vstd::arithmetic::div_mod::*;
use vstd::arithmetic::power2::*;
use vstd::prelude::*;

verus! {

/// Samples trimmed from each end of a block's audio before its DC offset is
/// measured.
pub const PRE_TRIM: usize = 1000;

/// The intermediate audio rate, 192000.0 Hz.
pub open spec fn intermediate_rate() -> Binary64 {
    Binary64 { bits: 0x4107_7000_0000_0000 }
}

/// The intermediate audio rate, 192 kHz.
pub fn audio_rate_intermediate() -> (rate: Binary64)
    ensures
        rate == intermediate_rate(),
{
    Binary64::from_bits(0x4107_7000_0000_0000)
}

/// The FM demodulators there are.
#[derive(Clone, Copy, Debug, PartialEq, Eq, Structural)]
pub enum DemodType {
    Quadrature,
}

/// What to do about dropouts.
#[derive(Clone, Copy, Debug, PartialEq, Eq, Structural)]
pub enum DocMode {
    /// Fill them in.
    Full,
    /// Mute them.
    Mute,
    /// Leave them alone.
    Disabled,
}

/// One stage of decoding a block.
#[derive(Clone, Copy, Debug, PartialEq, Eq, Structural)]
pub enum Stage {
    /// Bandpass around each carrier.
    Filter,
    /// RF to audio by this demodulator.
    Demodulate(DemodType),
    /// To the intermediate rate.
    ResampleToIntermediate,
    /// Measure and remove the DC offset, after trimming both ends by
    /// `dc_trim` of the channel's length.
    TrimDc,
    CompensateDropouts { mute: bool },
    RemoveHeadSwitchNoise,
    /// From the intermediate to the final rate.
    ResampleToFinal,
    /// To the channels that the decode mode asks for.
    Mix,
}

/// The settings that decide which stages a block goes through.
#[derive(Clone, Copy, Debug, PartialEq, Eq, Structural)]
pub struct StageOptions {
    pub demod_type: DemodType,
    pub doc_mode: DocMode,
    pub head_switching_interpolation: bool,
    pub audio_final_rate: Binary64,
}

/// `stage` if `wanted`.
pub open spec fn optional(wanted: bool, stage: Stage) -> Seq<Stage> {
    if wanted {
        seq![stage]
    } else {
        Seq::empty()
    }
}

impl StageOptions {
    /// The stages of a block, in order.
    pub open spec fn stage_plan(self) -> Seq<Stage> {
        seq![
            Stage::Filter,
            Stage::Demodulate(self.demod_type),
            Stage::ResampleToIntermediate,
            Stage::TrimDc,
        ] + optional(
            self.doc_mode != DocMode::Disabled,
            Stage::CompensateDropouts { mute: self.doc_mode == DocMode::Mute },
        ) + optional(self.head_switching_interpolation, Stage::RemoveHeadSwitchNoise) + optional(
            self.audio_final_rate != intermediate_rate(),
            Stage::ResampleToFinal,
        ) + seq![Stage::Mix]
    }

    /// The stages a block goes through, in order. Nothing carries over from
    /// one block to the next, so blocks can be decoded in any order.
    pub fn stages(&self) -> (plan: Vec<Stage>)
        ensures
            plan@ == self.stage_plan(),
    {
        let mut plan: Vec<Stage> = Vec::new();
        plan.push(Stage::Filter);
        plan.push(Stage::Demodulate(self.demod_type));
        plan.push(Stage::ResampleToIntermediate);
        plan.push(Stage::TrimDc);
        if self.doc_mode != DocMode::Disabled {
            plan.push(Stage::CompensateDropouts { mute: self.doc_mode == DocMode::Mute });
        }
        if self.head_switching_interpolation {
            plan.push(Stage::RemoveHeadSwitchNoise);
        }
        if self.audio_final_rate != audio_rate_intermediate() {
            plan.push(Stage::ResampleToFinal);
        }
        plan.push(Stage::Mix);
        assert(plan@ =~= self.stage_plan());
        plan
    }
}

/// The rates that a resampling stage converts between, and its place in the
/// chain; nothing for a stage that does not resample.
pub open spec fn conversion(
    stage: Stage,
    input_rate: Binary64,
    audio_final_rate: Binary64,
) -> Option<(Binary64, Binary64, ResamplerStage)> {
    match stage {
        Stage::ResampleToIntermediate => Some(
            (input_rate, intermediate_rate(), ResamplerStage::Audio),
        ),
        Stage::ResampleToFinal => Some(
            (intermediate_rate(), audio_final_rate, ResamplerStage::AudioFinal),
        ),
        _ => None,
    }
}

/// Whether the rates of a stage can be converted, if it converts any.
pub open spec fn convertible(
    stage: Stage,
    input_rate: Binary64,
    audio_final_rate: Binary64,
) -> bool {
    conversion(stage, input_rate, audio_final_rate) matches Some((from, to, _))
        ==> BlockResampler::accepts(from, to)
}

/// Whether `stage_resampler` takes these rates.
pub fn stage_takes(stage: Stage, input_rate: Binary64, audio_final_rate: Binary64) -> (b: bool)
    ensures
        b == convertible(stage, input_rate, audio_final_rate),
{
    match stage {
        Stage::ResampleToIntermediate => BlockResampler::takes(
            input_rate,
            audio_rate_intermediate(),
        ),
        Stage::ResampleToFinal => BlockResampler::takes(
            audio_rate_intermediate(),
            audio_final_rate,
        ),
        _ => true,
    }
}

/// The resampler of a stage: from the input rate to the intermediate one, or
/// from that to the final one, each with its own recipe of the preset. A
/// stage that does not resample has none.
pub fn stage_resampler(
    stage: Stage,
    input_rate: Binary64,
    audio_final_rate: Binary64,
    quality: ResamplerQuality,
) -> (r: Option<BlockResampler>)
    requires
        convertible(stage, input_rate, audio_final_rate),
    ensures
        match stage {
            Stage::ResampleToIntermediate => r matches Some(x) && x.converts(
                input_rate,
                intermediate_rate(),
                quality,
                ResamplerStage::Audio,
            ),
            Stage::ResampleToFinal => r matches Some(x) && x.converts(
                intermediate_rate(),
                audio_final_rate,
                quality,
                ResamplerStage::AudioFinal,
            ),
            _ => r is None,
        },
{
    match stage {
        Stage::ResampleToIntermediate => Some(
            BlockResampler::new(
                input_rate,
                audio_rate_intermediate(),
                quality,
                ResamplerStage::Audio,
            ),
        ),
        Stage::ResampleToFinal => Some(
            BlockResampler::new(
                audio_rate_intermediate(),
                audio_final_rate,
                quality,
                ResamplerStage::AudioFinal,
            ),
        ),
        _ => None,
    }
}

/// How much to trim from each end of a channel of `len` samples before its
/// DC offset is measured: the usual trim, or less where that would leave
/// nothing. Zero means that the offset is not measured and counts as zero.
pub fn dc_trim(len: usize) -> (trim: usize)
    ensures
        trim == at_most(PRE_TRIM as int, at_least(len - 1, 0) / 2),
        len > 0 ==> 2 * trim < len,
        trim == 0 <==> len < 3,
        trim <= 1000,
        trim == 1000 || len <= 2 * trim + 2,
{
    let most = len.saturating_sub(1) / 2;
    if most < PRE_TRIM {
        most
    } else {
        PRE_TRIM
    }
}

/// The slice of a block's decoded output that survives.
pub fn trim_block_output<T: Copy>(block_output: &[T], block: &Block) -> (kept: Vec<T>)
    requires
        block.is_last ==> block.emit_len + block.audio_final_overlap <= usize::MAX,
    ensures
        ({
            let len = block_output@.len() as int;
            let skip = at_most(block.skipped(len), len);
            let take = at_most(block.emit_len as int, len - skip);
            kept@ == block_output@.subrange(skip, skip + take)
        }),
{
    let (skip, take) = block.output_span(block_output.len());
    let mut kept: Vec<T> = Vec::with_capacity(take);
    append_range(&mut kept, block_output, skip, skip + take);
    assert(kept@ =~= block_output@.subrange(skip as int, skip + take));
    kept
}

/// How many blocks may queue for `worker_count` workers: enough that none
/// starves, without letting the reader race far ahead.
pub fn queue_depth(worker_count: usize) -> (depth: usize)
    requires
        2 * worker_count <= usize::MAX,
    ensures
        depth == at_least(2 * worker_count, 2),
        worker_count > 0 ==> depth == worker_count + worker_count,
        worker_count == 0 ==> depth == 2,
{
    if worker_count < 1 {
        2
    } else {
        worker_count * 2
    }
}

/// Primes the expander on the very first chunk, over exactly that chunk's
/// length, and never again.
#[derive(Clone, Copy, Debug, PartialEq, Eq, Structural)]
pub struct ExpanderPriming {
    pub is_first_chunk: bool,
}

impl ExpanderPriming {
    pub fn new() -> (p: ExpanderPriming)
        ensures
            p.is_first_chunk,
    {
        ExpanderPriming { is_first_chunk: true }
    }

    /// Over how many samples to prime for the next chunk, if at all.
    pub fn prime_len(&mut self, chunk_len: usize) -> (len: Option<usize>)
        ensures
            len == if old(self).is_first_chunk {
                Some(chunk_len)
            } else {
                None
            },
            !final(self).is_first_chunk,
    {
        let len = if self.is_first_chunk {
            Some(chunk_len)
        } else {
            None
        };
        self.is_first_chunk = false;
        len
    }
}

/// The post-processing chains there are; they differ in the order of their
/// stages.
#[derive(Clone, Copy, Debug, PartialEq, Eq, Structural)]
pub enum PostChain {
    Vhs,
    EightMm,
}

impl PostChain {
    /// The chain of a tape format: one of its own for 8 mm tapes, that of VHS
    /// for all others.
    pub fn new(is_8mm: bool) -> (chain: PostChain)
        ensures
            chain == if is_8mm {
                PostChain::EightMm
            } else {
                PostChain::Vhs
            },
    {
        if is_8mm {
            PostChain::EightMm
        } else {
            PostChain::Vhs
        }
    }
}

/// One step in finishing a chunk of audio.
#[derive(Clone, Copy, Debug, PartialEq, Eq, Structural)]
pub enum ChunkStep {
    ReportBias,
    ApplyGain,
    BlockDc,
    /// De-emphasis and expansion, the expander primed over this many samples
    /// first.
    PostProcess { prime_len: Option<usize> },
    RecordProgress,
    /// Hand the chunk to whoever asked for the audio. No other step can fail,
    /// so the answer to this one is that of the chunk.
    Emit,
}

/// Whether there is any gain to apply.
pub open spec fn scales(gain: Binary64) -> bool {
    gain != (Binary64 { bits: 0x3FF0_0000_0000_0000 })
}

/// The steps that finish a chunk, in order.
pub open spec fn chunk_plan(gain: Binary64, prime_len: Option<usize>) -> Seq<ChunkStep> {
    seq![ChunkStep::ReportBias] + (if scales(gain) {
        seq![ChunkStep::ApplyGain]
    } else {
        Seq::empty()
    }) + seq![
        ChunkStep::BlockDc,
        ChunkStep::PostProcess { prime_len },
        ChunkStep::RecordProgress,
        ChunkStep::Emit,
    ]
}

/// The steps that finish a chunk of `chunk_len` samples, in order. They
/// carry state from chunk to chunk, so chunks go through them one by one.
pub fn chunk_steps(priming: &mut ExpanderPriming, gain: Binary64, chunk_len: usize) -> (steps: Vec<
    ChunkStep,
>)
    ensures
        steps@ == chunk_plan(
            gain,
            if old(priming).is_first_chunk {
                Some(chunk_len)
            } else {
                None
            },
        ),
        !final(priming).is_first_chunk,
{
    let prime_len = priming.prime_len(chunk_len);
    let mut steps: Vec<ChunkStep> = Vec::new();
    steps.push(ChunkStep::ReportBias);
    if gain != Binary64::from_bits(0x3FF0_0000_0000_0000) {
        steps.push(ChunkStep::ApplyGain);
    }
    steps.push(ChunkStep::BlockDc);
    steps.push(ChunkStep::PostProcess { prime_len });
    steps.push(ChunkStep::RecordProgress);
    steps.push(ChunkStep::Emit);
    assert(steps@ =~= chunk_plan(gain, prime_len));
    steps
}

/// How many of `steps` emit.
pub open spec fn emissions(steps: Seq<ChunkStep>) -> nat
    decreases steps.len(),
{
    if steps.len() == 0 {
        0
    } else {
        emissions(steps.drop_last()) + (if steps.last() == ChunkStep::Emit {
            1nat
        } else {
            0
        })
    }
}

proof fn lemma_nothing_emitted(steps: Seq<ChunkStep>)
    requires
        forall|i: int| 0 <= i < steps.len() ==> #[trigger] steps[i] != ChunkStep::Emit,
    ensures
        emissions(steps) == 0,
    decreases steps.len(),
{
    if steps.len() > 0 {
        let head = steps.drop_last();
        assert forall|i: int| 0 <= i < head.len() implies #[trigger] head[i] != ChunkStep::Emit by {
            assert(head[i] == steps[i]);
        }
        assert(steps[steps.len() - 1] != ChunkStep::Emit);
        lemma_nothing_emitted(head);
    }
}

/// Every chunk is emitted exactly once, after everything else has been done
/// to it.
pub proof fn law_chunk_is_emitted_once_and_last(gain: Binary64, prime_len: Option<usize>)
    ensures
        emissions(chunk_plan(gain, prime_len)) == 1,
        chunk_plan(gain, prime_len).last() == ChunkStep::Emit,
{
    let plan = chunk_plan(gain, prime_len);
    lemma_nothing_emitted(plan.drop_last());
}

/// How often the steps of several chunks emit.
pub open spec fn total_emissions(plans: Seq<Seq<ChunkStep>>) -> nat
    decreases plans.len(),
{
    if plans.len() == 0 {
        0
    } else {
        total_emissions(plans.drop_last()) + emissions(plans.last())
    }
}

/// The steps of several chunks, the expander primed over `prime_lens`.
pub open spec fn chunk_plans(gain: Binary64, prime_lens: Seq<Option<usize>>) -> Seq<Seq<ChunkStep>> {
    Seq::new(prime_lens.len(), |i: int| chunk_plan(gain, prime_lens[i]))
}

proof fn lemma_one_emission_each(gain: Binary64, prime_lens: Seq<Option<usize>>)
    ensures
        total_emissions(chunk_plans(gain, prime_lens)) == prime_lens.len(),
    decreases prime_lens.len(),
{
    if prime_lens.len() > 0 {
        let head = prime_lens.drop_last();
        lemma_one_emission_each(gain, head);
        assert(chunk_plans(gain, prime_lens).drop_last() =~= chunk_plans(gain, head));
        law_chunk_is_emitted_once_and_last(gain, prime_lens.last());
    }
}

/// A whole decode of an input of `total` samples, whose chunks are answered
/// by `verdicts`, that of block `i` by the `i`-th. Where none is a failure,
/// there is one emission per block, none for an input without samples, and
/// the decode succeeds. Where the first failure is the `k`-th, counted from
/// zero, there are `k + 1` emissions and the decode comes to that very
/// failure. Either way what is emitted is the first results, in input order.
pub proof fn law_decode_emits_each_block_once<R, E>(
    layout: BlockLayout,
    total: int,
    d: Delivery<R, E>,
    results: Seq<R>,
    verdicts: Seq<Result<(), E>>,
    gain: Binary64,
    prime_lens: Seq<Option<usize>>,
)
    requires
        layout.stride > 0,
        0 <= total,
        results.len() == block_count(layout, total) < usize::MAX,
        d.valid(),
        d.idle(),
        !d.asking(),
        arrivals_of(d.arrivals(), results),
        verdicts.len() == results.len(),
        d.answers() == verdicts.take(d.answers().len() as int),
        prime_lens.len() == d.handed().len(),
    ensures
        d.handed() == results.take(d.handed().len() as int),
        outcome(d.answers()) == outcome(verdicts),
        first_failure(verdicts) == verdicts.len() ==> total_emissions(chunk_plans(gain, prime_lens))
            == block_count(layout, total) && outcome(d.answers()) == Ok::<(), E>(()),
        first_failure(verdicts) < verdicts.len() ==> total_emissions(chunk_plans(gain, prime_lens))
            == first_failure(verdicts) + 1 && outcome(d.answers()) == verdicts[first_failure(
            verdicts,
        ) as int],
        total == 0 ==> total_emissions(chunk_plans(gain, prime_lens)) == 0,
{
    law_first_failure_ends_the_delivery(d, results, verdicts);
    lemma_first_failure(verdicts);
    lemma_one_emission_each(gain, prime_lens);
    assert(results.take(results.len() as int) =~= results);
    if total == 0 {
        lemma_small_mod(0, layout.stride as nat);
        lemma_basic_div(0, layout.stride as int);
    }
}

/// A resampling stage needs a ratio between its own two rates, the
/// intermediate one of 192 kHz among them; no other stage needs any.
pub proof fn law_stages_need_their_rates(
    stage: Stage,
    input_rate: Binary64,
    audio_final_rate: Binary64,
    intermediate: Binary64,
)
    requires
        !intermediate.nan(),
        intermediate.signed_units() == 192_000 * unit_scale(),
    ensures
        stage == Stage::ResampleToIntermediate ==> (convertible(
            stage,
            input_rate,
            audio_final_rate,
        ) <==> BlockResampler::accepts(input_rate, intermediate)),
        stage == Stage::ResampleToFinal ==> (convertible(stage, input_rate, audio_final_rate)
            <==> BlockResampler::accepts(intermediate, audio_final_rate)),
        stage != Stage::ResampleToIntermediate && stage != Stage::ResampleToFinal ==> convertible(
            stage,
            input_rate,
            audio_final_rate,
        ),
        conversion(stage, input_rate, audio_final_rate) is Some <==> stage
            == Stage::ResampleToIntermediate || stage == Stage::ResampleToFinal,
{
    lemma_only_one_intermediate_rate(intermediate);
}

/// Each optional stage is there exactly where its own setting asks for it,
/// whatever the others are, and every other stage always is.
pub proof fn law_each_setting_decides_its_own_stage(options: StageOptions)
    ensures
        ({
            let plan = options.stage_plan();
            let rate = options.audio_final_rate;
            let stays = !rate.nan() && rate.signed_units() == 192_000 * unit_scale();
            &&& plan.contains(Stage::Filter)
            &&& plan.contains(Stage::Demodulate(options.demod_type))
            &&& plan.contains(Stage::ResampleToIntermediate)
            &&& plan.contains(Stage::TrimDc)
            &&& plan.contains(Stage::CompensateDropouts { mute: false }) <==> options.doc_mode
                == DocMode::Full
            &&& plan.contains(Stage::CompensateDropouts { mute: true }) <==> options.doc_mode
                == DocMode::Mute
            &&& plan.contains(Stage::RemoveHeadSwitchNoise)
                <==> options.head_switching_interpolation
            &&& plan.contains(Stage::ResampleToFinal) <==> !stays
            &&& plan.contains(Stage::Mix)
        }),
{
    let plan = options.stage_plan();
    let n = plan.len() as int;
    let doc: int = if options.doc_mode == DocMode::Disabled {
        0
    } else {
        1
    };
    let head: int = if options.head_switching_interpolation {
        1
    } else {
        0
    };
    lemma_only_one_intermediate_rate(options.audio_final_rate);
    assert(plan[0] == Stage::Filter);
    assert(plan[1] == Stage::Demodulate(options.demod_type));
    assert(plan[2] == Stage::ResampleToIntermediate);
    assert(plan[3] == Stage::TrimDc);
    assert(plan[n - 1] == Stage::Mix);
    if doc == 1 {
        assert(plan[4] == Stage::CompensateDropouts { mute: options.doc_mode == DocMode::Mute });
    }
    if head == 1 {
        assert(plan[4 + doc] == Stage::RemoveHeadSwitchNoise);
    }
    if options.audio_final_rate != intermediate_rate() {
        assert(plan[4 + doc + head] == Stage::ResampleToFinal);
    }
}

/// 192000.0 is the only binary64 of its value.
proof fn lemma_only_one_intermediate_rate(rate: Binary64)
    ensures
        rate == intermediate_rate() <==> !rate.nan() && rate.signed_units() == 192_000
            * unit_scale(),
{
    let target = intermediate_rate();
    lemma_nearest_whole(192_000);
    lemma2_to64();
    lemma2_to64_rest();
    // 192000 is 375 * 2^9.
    lemma_pow2_add(44, 1039);
    lemma_pow2_add(9, 1074);
    assert(target.magnitude() / 0x10_0000_0000_0000 - 1 == 1039);
    assert(target.magnitude() % 0x10_0000_0000_0000 == 0x7_7000_0000_0000);
    let low = pow2(1039) as int;
    assert(0x17_7000_0000_0000 * low == 375 * (0x1000_0000_0000 * low)) by (nonlinear_arith);
    assert(pow2(44) == 0x1000_0000_0000);
    assert(pow2(9) == 512);
    assert(target.units() == 192_000 * unit_scale());
    lemma_same_value(rate, target);
}

/// Two numbers above zero of one value are the same.
proof fn lemma_same_value(a: Binary64, b: Binary64)
    requires
        !b.nan(),
        b.signed_units() > 0,
    ensures
        a == b <==> !a.nan() && a.signed_units() == b.signed_units(),
{
    lemma_units_sign(a);
    lemma_units_sign(b);
    if a.magnitude() < b.magnitude() {
        lemma_units_increase(a.magnitude(), b.magnitude());
    } else if b.magnitude() < a.magnitude() {
        lemma_units_increase(b.magnitude(), a.magnitude());
    }
}

/// Where each stage may stand: the place of a stage in the chain.
pub open spec fn place(stage: Stage) -> int {
    match stage {
        Stage::Filter => 0,
        Stage::Demodulate(_) => 1,
        Stage::ResampleToIntermediate => 2,
        Stage::TrimDc => 3,
        Stage::CompensateDropouts { .. } => 4,
        Stage::RemoveHeadSwitchNoise => 5,
        Stage::ResampleToFinal => 6,
        Stage::Mix => 7,
    }
}

/// The stages stand in the order of the chain, none of them twice.
pub proof fn law_stages_stand_in_order(options: StageOptions)
    ensures
        forall|i: int, j: int|
            0 <= i < j < options.stage_plan().len() ==> place(#[trigger] options.stage_plan()[i])
                < place(#[trigger] options.stage_plan()[j]),
        options.stage_plan()[0] == Stage::Filter,
        options.stage_plan()[1] == Stage::Demodulate(options.demod_type),
        options.stage_plan()[2] == Stage::ResampleToIntermediate,
        options.stage_plan()[3] == Stage::TrimDc,
        options.stage_plan().last() == Stage::Mix,
        forall|i: int, j: int|
            0 <= i < options.stage_plan().len() && 0 <= j < options.stage_plan().len()
                && #[trigger] options.stage_plan()[i] is CompensateDropouts && (
            #[trigger] options.stage_plan()[j] is RemoveHeadSwitchNoise
                || options.stage_plan()[j] is ResampleToFinal) ==> i < j,
        forall|i: int, j: int|
            0 <= i < options.stage_plan().len() && 0 <= j < options.stage_plan().len()
                && #[trigger] options.stage_plan()[i] is RemoveHeadSwitchNoise
                && #[trigger] options.stage_plan()[j] is ResampleToFinal ==> i < j,
{
}

/// A gain is applied exactly where it is not 1, below as well as above, and
/// whatever else is done: once, after the bias was reported and before
/// anything is done to the audio.
pub proof fn law_gain_is_applied_unless_it_is_one(gain: Binary64, prime_len: Option<usize>)
    ensures
        ({
            let plan = chunk_plan(gain, prime_len);
            let unity = !gain.nan() && gain.signed_units() == unit_scale();
            &&& plan[0] == ChunkStep::ReportBias
            &&& !unity ==> plan[1] == ChunkStep::ApplyGain && plan.len() == 6
            &&& unity ==> !plan.contains(ChunkStep::ApplyGain) && plan.len() == 5
            &&& plan[plan.len() - 4] == ChunkStep::BlockDc
            &&& plan[plan.len() - 3] == ChunkStep::PostProcess { prime_len }
            &&& plan[plan.len() - 2] == ChunkStep::RecordProgress
            &&& plan[plan.len() - 1] == ChunkStep::Emit
            &&& forall|i: int, j: int|
                0 <= i < j < plan.len() ==> #[trigger] plan[i] != #[trigger] plan[j]
        }),
{
    let one = Binary64 { bits: 0x3FF0_0000_0000_0000 };
    lemma2_to64();
    lemma2_to64_rest();
    lemma_pow2_add(52, 1022);
    lemma_pow2_pos(1074);
    assert(one.magnitude() / 0x10_0000_0000_0000 - 1 == 1022);
    assert(one.magnitude() % 0x10_0000_0000_0000 == 0);
    assert(one.units() == 0x10_0000_0000_0000 * pow2(1022));
    assert(one.units() == unit_scale());
    lemma_same_value(gain, one);
}

} // verus!
