use hifi_decode::binary64::Binary64;
use hifi_decode::block::{gcd, rates_divide_evenly, Block, BlockLayout, MIN_EMIT};

fn b(x: f64) -> Binary64 {
    Binary64::from_bits(x.to_bits())
}

fn layout(input_rate: f64, audio_rate: f64, audio_final_rate: f64) -> BlockLayout {
    BlockLayout::try_new(b(input_rate), b(audio_rate), b(audio_final_rate)).unwrap()
}

/// The 8fsc / 48kHz configuration.
fn pal_8fsc() -> BlockLayout {
    BlockLayout::new(b(28_636_363.0), b(192_000.0), b(48_000.0))
}

#[test]
fn sizing_matches_instrumented_python_run() {
    let layout = pal_8fsc();
    assert_eq!(layout.block_size, 14_318_182);
    assert_eq!(layout.block_overlap, 156_903);
    assert_eq!(layout.block_read_overlap, 313_806);
    assert_eq!(layout.block_audio_final_overlap, 263);
    assert_eq!(layout.stride, 14_004_376);
}

#[test]
fn audio_size_is_re_derived_from_the_integer_buffer_length() {
    let layout = pal_8fsc();
    assert_eq!(layout.block_audio_final_size(layout.block_size), 24_001);
    assert_eq!(layout.emit_len(layout.block_size), 23_475);
}

#[test]
fn first_block_fakes_its_left_overlap_and_gets_its_own_audio_size() {
    let layout = pal_8fsc();
    let block = layout.first_block(layout.stride, false);
    assert_eq!(block.prepend_duplicate, 156_903);
    assert_eq!(block.buffer_len, 14_161_279);
    assert_eq!(layout.block_audio_final_size(block.buffer_len), 23_738);
    assert_eq!(block.emit_len, 23_212);
}

#[test]
fn middle_blocks_overlap_by_the_read_overlap_without_gaps() {
    let layout = pal_8fsc();
    let a = layout.middle_block(1);
    let b = layout.middle_block(2);
    assert_eq!(a.read_end - a.read_start, layout.block_size);
    assert_eq!(b.read_start - a.read_start, layout.stride);
    assert_eq!(a.read_end - b.read_start, layout.block_read_overlap);
    assert_eq!(a.read_start, layout.stride - layout.block_read_overlap);
}

#[test]
fn output_span_rounds_halves_to_even_like_python() {
    let layout = pal_8fsc();
    let block = layout.middle_block(1);
    let (skip, take) = block.output_span(24_000);
    assert_eq!((skip, take), (262, 23_475));
}

#[test]
fn last_block_keeps_the_tail_ending_one_overlap_early() {
    let layout = pal_8fsc();
    let block = layout.last_block(24, 24 * layout.stride + 7_531_339, 7_531_339);
    assert_eq!(block.buffer_len, layout.block_size);
    assert_eq!(block.append_pad, layout.block_overlap);
    assert_eq!(block.emit_len, 12_887);
    let (skip, take) = block.output_span(24_000);
    assert_eq!((skip, take), (10_850, 12_887));
    assert_eq!(skip + take, 24_000 - layout.block_audio_final_overlap);
}

#[test]
fn assemble_duplicates_the_head_and_pads_the_tail() {
    let layout = BlockLayout::new(b(8_000_000.0), b(192_000.0), b(48_000.0));
    let block = Block {
        index: 0,
        read_start: 0,
        read_end: 4,
        prepend_duplicate: 2,
        append_pad: 3,
        buffer_len: 9,
        emit_len: 50,
        audio_final_overlap: layout.block_audio_final_overlap,
        is_last: true,
    };
    let buffer = layout.assemble(&block, &[1.0f32, 2.0, 3.0, 4.0], 0.0f32);
    assert_eq!(buffer, vec![1.0, 2.0, 1.0, 2.0, 3.0, 4.0, 0.0, 0.0, 0.0]);
}

/// The same sizing done with the machine's own floating point.
fn machine_sizes(input_rate: f64, audio_rate: f64, audio_final_rate: f64) -> Option<[u64; 4]> {
    fn divisor(a: u64, b: u64) -> u64 {
        if b == 0 {
            a
        } else {
            divisor(b, a % b)
        }
    }
    let block_size = (input_rate * 0.5).ceil() as u64;
    let audio_size = (audio_rate * 0.5).ceil() as u64;
    let audio_final_size = (audio_final_rate * 0.5).ceil() as u64;
    let common = divisor(block_size, audio_final_size);
    let step = if common > 5 { audio_size / common } else { 1 };
    let least = (1050.0 / audio_rate * audio_final_rate).ceil() as u64;
    let seed = ((least as f64 / step as f64).ceil() as u64).checked_mul(step)?;
    let seconds = seed as f64 / audio_final_rate;
    let overlap = (input_rate * seconds).round_ties_even() as u64;
    let audio_overlap = (audio_final_rate * seconds).round_ties_even() as u64;
    let stride = block_size.checked_sub(overlap.checked_mul(2)?)?;
    Some([block_size, overlap, audio_overlap, stride])
}

#[test]
fn sizing_agrees_with_machine_arithmetic_over_many_rates() {
    let mut rates = vec![
        28_636_363.636_363_6,
        35_468_950.0,
        17_734_475.0,
        14_318_181.8,
        40_000_000.0,
        20_000_000.0,
        10_000_000.0,
        2_000.0,
        1.0,
        0.0,
        f64::NAN,
        f64::INFINITY,
        -5.0,
    ];
    let mut rate = 1_000.5;
    while rate < 1.0e9 {
        rates.push(rate);
        rate = rate * 1.37 + 0.1;
    }
    for &input_rate in &rates {
        for final_rate in [44_100.0, 48_000.0, 96_000.0, 192_000.0, 11_025.0, 47_999.9] {
            let got = BlockLayout::try_new(b(input_rate), b(192_000.0), b(final_rate));
            let want = machine_sizes(input_rate, 192_000.0, final_rate);
            match (got, want) {
                (Some(layout), Some(sizes)) => {
                    assert_eq!(layout.block_size as u64, sizes[0]);
                    assert_eq!(layout.block_overlap as u64, sizes[1]);
                    assert_eq!(layout.block_audio_final_overlap as u64, sizes[2]);
                    assert_eq!(layout.stride as u64, sizes[3]);
                    assert_eq!(layout.block_read_overlap, 2 * layout.block_overlap);
                    assert_eq!(layout.pre_trim, 1000);
                }
                (None, None) => {}
                _ => panic!("{input_rate} at {final_rate}"),
            }
        }
    }
}

#[test]
fn rates_without_room_for_the_overlap_make_no_layout() {
    // 8 samples per block, and an overlap of about 5.5 ms on each side.
    assert!(BlockLayout::try_new(b(16.0), b(192_000.0), b(1.0)).is_none());
    assert!(BlockLayout::try_new(b(2_000.0), b(192_000.0), b(48_000.0)).is_some());
}

#[test]
fn uneven_rates_are_told_apart() {
    assert!(!rates_divide_evenly(b(28_636_363.0), b(48_000.0)));
    assert!(rates_divide_evenly(b(40_000_000.0), b(48_000.0)));
    assert!(rates_divide_evenly(b(2_000.0), b(48_000.0)));
}

#[test]
fn gcd_is_the_greatest_common_divisor() {
    assert_eq!(gcd(14_318_182, 24_000), 2);
    assert_eq!(gcd(1_000, 24_000), 1_000);
    assert_eq!(gcd(17, 0), 17);
    assert_eq!(gcd(0, 17), 17);
    assert_eq!(gcd(0, 0), 0);
    for a in 1u64..60 {
        for c in 1u64..60 {
            let g = gcd(a, c);
            assert_eq!((a % g, c % g), (0, 0));
            for d in 1..=a {
                if a % d == 0 && c % d == 0 {
                    assert_eq!(g % d, 0);
                }
            }
        }
    }
}

#[test]
fn overlap_covers_what_the_resampler_needs() {
    // 1050 samples at 192 kHz are 262.5 at 48 kHz.
    assert_eq!(pal_8fsc().block_audio_final_overlap, 263);
    // 2 kHz shares a divisor of 1000, so the overlap comes in steps of 96.
    assert_eq!(layout(2_000.0, 192_000.0, 48_000.0).block_audio_final_overlap, 288);
    assert_eq!(layout(2_000.0, 192_000.0, 48_000.0).block_overlap, 12);
}

#[test]
fn one_block_emits_a_sample_more_than_its_stride_is_worth() {
    let layout = pal_8fsc();
    let emitted = layout.emit_len(layout.block_size) as f64;
    let worth = layout.stride as f64 * 48_000.0 / 28_636_363.0;
    assert!((worth - 23_474.001_7).abs() < 1e-3);
    assert!(((emitted / worth - 1.0) * 1.0e6 - 42.5).abs() < 0.1);
}

#[test]
fn spans_are_held_to_what_was_decoded() {
    let layout = pal_8fsc();
    let middle = layout.middle_block(1);
    assert_eq!(middle.output_span(0), (0, 0));
    assert_eq!(middle.output_span(23_475), (0, 23_475));
    assert_eq!(middle.output_span(23_476), (0, 23_475));
    assert_eq!(middle.output_span(23_477), (1, 23_475));
    assert_eq!(middle.output_span(23_478), (2, 23_475));
    assert_eq!(middle.output_span(100), (0, 100));
    assert_eq!(middle.output_skip(24_000), 262);
    let last = layout.last_block(24, 24 * layout.stride + 7_531_339, 7_531_339);
    assert_eq!(last.output_span(0), (0, 0));
    assert_eq!(last.output_span(100), (0, 100));
    assert_eq!(last.output_skip(13_150), 0);
    assert_eq!(last.output_skip(13_151), 1);
}

#[test]
fn no_block_emits_less_than_the_minimum() {
    let layout = layout(2_000.0, 192_000.0, 48_000.0);
    assert_eq!(layout.emit_len(1), MIN_EMIT);
    let tiny = layout.first_block(1, true);
    assert_eq!(tiny.buffer_len, 2);
    assert_eq!(tiny.emit_len, layout.last_emit_len(2, 1));
    assert!(tiny.emit_len >= MIN_EMIT);
}

#[test]
fn a_short_first_block_duplicates_no_more_than_it_has() {
    let layout = layout(2_000.0, 192_000.0, 48_000.0);
    let block = layout.first_block(5, true);
    assert_eq!((block.prepend_duplicate, block.buffer_len, block.append_pad), (5, 10, 0));
    assert!(block.is_last);
    assert_eq!((block.read_start, block.read_end), (0, 5));
}

#[test]
fn a_last_block_near_the_start_reads_what_there_is() {
    let layout = layout(2_000.0, 192_000.0, 48_000.0);
    let block = layout.last_block(1, 980, 4);
    assert_eq!((block.read_start, block.read_end), (0, 980));
    assert_eq!(block.buffer_len, 992);
    assert_eq!(block.append_pad, 12);
}

#[test]
fn longer_buffers_are_worth_at_least_as_much_audio() {
    let layout = pal_8fsc();
    let mut before = 0;
    for len in (0..layout.block_size).step_by(99_991) {
        let size = layout.block_audio_final_size(len);
        assert!(size >= before);
        assert_eq!(size, (48_000.0 * (len as f64 / 28_636_363.0)).ceil() as usize);
        before = size;
    }
}

#[test]
fn room_for_a_block_is_told_in_advance() {
    let layout = pal_8fsc();
    assert!(layout.has_room_for_first(layout.stride, false));
    assert!(layout.has_room_for_first(7, true));
    assert!(!layout.has_room_for_first(usize::MAX, false));
    assert!(layout.has_room_for_middle(1));
    assert!(!layout.has_room_for_middle(usize::MAX));
    assert!(layout.has_room_for_last(100_000_000, 17));
}

#[test]
fn fresh_reads_follow_one_another() {
    let layout = pal_8fsc();
    assert_eq!(layout.fresh_read_start(0), 0);
    assert_eq!(layout.fresh_read_start(3), 3 * 14_004_376);
}

#[test]
fn assembling_cuts_what_does_not_fit() {
    let layout = pal_8fsc();
    let block = Block {
        index: 0,
        read_start: 10,
        read_end: 13,
        prepend_duplicate: 1,
        append_pad: 0,
        buffer_len: 2,
        emit_len: 50,
        audio_final_overlap: 0,
        is_last: false,
    };
    assert_eq!(layout.assemble(&block, &[7u8, 8, 9], 0u8), vec![7, 7]);
}

#[test]
fn the_audio_overlap_is_the_number_its_time_came_from() {
    // Uneven rates step by single samples from the minimum: 1050 samples at
    // the intermediate rate.
    for final_rate in [44_100.0, 47_999.9, 32_000.0] {
        let layout = layout(28_636_363.0, 192_000.0, final_rate);
        assert!(!rates_divide_evenly(b(28_636_363.0), b(final_rate)));
        let least = (1050.0f64 / 192_000.0 * final_rate).ceil() as usize;
        assert_eq!(layout.block_audio_final_overlap, least);
    }
}

#[test]
fn the_audio_overlap_is_the_least_multiple_that_covers_the_minimum() {
    for (input_rate, final_rate) in
        [(2_000.0, 48_000.0), (40_000_000.0, 48_000.0), (28_636_363.0, 44_100.0), (96_000.0, 32_000.0)]
    {
        let half = (final_rate * 0.5f64).ceil() as u64;
        let common = gcd((input_rate * 0.5f64).ceil() as u64, half);
        let divisor = if common > 5 { 96_000 / common } else { 1 };
        let least = (1050.0f64 / 192_000.0 * final_rate).ceil() as u64;
        let overlap = match BlockLayout::try_new(b(input_rate), b(192_000.0), b(final_rate)) {
            Some(layout) => layout.block_audio_final_overlap as u64,
            None => continue,
        };
        assert_eq!(overlap % divisor, 0);
        assert!(least <= overlap && overlap < least + divisor);
    }
}

#[test]
fn the_rf_overlap_is_rounded_as_binary64_rounds_it() {
    // 28636363 * 263 / 48000 is 156903.4...
    assert_eq!(pal_8fsc().block_overlap, 156_903);
    // 1183 * 50 / 9100 is 6.5, but 50 / 9100 is no binary64 and its nearest
    // one lies above it.
    assert_eq!(layout(1_183.0, 192_000.0, 9_100.0).block_audio_final_overlap, 50);
    assert_eq!(layout(1_183.0, 192_000.0, 9_100.0).block_overlap, 7);
    assert_eq!((1_183.0f64 * (50.0 / 9_100.0)).round_ties_even(), 7.0);
}
