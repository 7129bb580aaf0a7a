use hifi_decode::binary64::Binary64;
use hifi_decode::block::{Block, BlockLayout};
use hifi_decode::stream::{NextBlock, StreamingBlocks, READ_CHUNK};

fn b(x: f64) -> Binary64 {
    Binary64::from_bits(x.to_bits())
}

/// Runs a stream over `samples`, read `chunk` at a time.
fn run(samples: &[f32], layout: BlockLayout, chunk: usize) -> Vec<(Block, Vec<f32>)> {
    let mut stream = StreamingBlocks::new(layout);
    let mut read = 0;
    let mut out = Vec::new();
    loop {
        assert!(stream.can_advance());
        match stream.next_block(0.0f32) {
            NextBlock::NeedInput => {
                let end = (read + chunk).min(samples.len());
                stream.supply(&samples[read..end]);
                read = end;
            }
            NextBlock::Ready(block, buffer) => out.push((block, buffer)),
            NextBlock::Finished => break,
        }
    }
    // Nothing comes after the end.
    assert!(stream.can_advance());
    assert!(matches!(stream.next_block(0.0f32), NextBlock::Finished));
    out
}

fn stream_blocks(total_len: usize, layout: BlockLayout) -> Vec<(Block, Vec<f32>)> {
    let samples: Vec<f32> = (0..total_len).map(|i| i as f32).collect();
    run(&samples, layout, READ_CHUNK)
}

/// A small synthetic layout so a test can span several blocks cheaply.
fn tiny_layout() -> BlockLayout {
    BlockLayout::new(b(2_000.0), b(192_000.0), b(48_000.0))
}

#[test]
fn every_block_buffer_has_the_length_its_metadata_claims() {
    let layout = tiny_layout();
    let blocks = stream_blocks(layout.stride * 4 + 17, layout);
    assert!(blocks.len() >= 4, "expected several blocks, got {}", blocks.len());
    for (block, buffer) in &blocks {
        assert_eq!(buffer.len(), block.buffer_len, "block {} buffer length", block.index);
    }
}

#[test]
fn exactly_the_final_block_is_flagged_last() {
    let layout = tiny_layout();
    let total = layout.stride * 4 + 17;
    let blocks = stream_blocks(total, layout);
    let (last_block, _) = blocks.last().unwrap();
    assert!(last_block.is_last);
    assert_eq!(last_block.read_end, total);
    for (block, _) in &blocks[..blocks.len() - 1] {
        assert!(!block.is_last, "block {} wrongly flagged last", block.index);
    }
}

#[test]
fn first_block_buffer_starts_with_a_copy_of_its_own_head() {
    let layout = tiny_layout();
    let blocks = stream_blocks(layout.stride * 3, layout);
    let (block, buffer) = &blocks[0];
    let dup = block.prepend_duplicate;
    assert!(dup > 0);
    assert_eq!(buffer[..dup], buffer[dup..dup * 2]);
    assert_eq!(buffer[dup], 0.0, "real data should start at the duplicate's end");
}

#[test]
fn consecutive_blocks_advance_by_stride_without_gaps() {
    let layout = tiny_layout();
    let blocks = stream_blocks(layout.stride * 5, layout);
    for pair in blocks.windows(2) {
        let (a, b) = (&pair[0].0, &pair[1].0);
        if b.is_last {
            continue; // the last block deliberately slides further back
        }
        assert!(b.read_start < a.read_end, "gap between blocks {a:?} {b:?}");
    }
}

#[test]
fn whole_strides_make_no_block_that_is_flagged_last() {
    let layout = tiny_layout();
    let blocks = stream_blocks(layout.stride * 3, layout);
    assert_eq!(blocks.len(), 3);
    assert!(blocks.iter().all(|(block, _)| !block.is_last));
    assert_eq!(blocks[2].0.read_end, layout.stride * 3);
}

#[test]
fn an_empty_input_makes_no_block() {
    assert!(stream_blocks(0, tiny_layout()).is_empty());
}

#[test]
fn an_input_within_the_first_stride_makes_one_last_block() {
    let layout = tiny_layout();
    let blocks = stream_blocks(5, layout);
    assert_eq!(blocks.len(), 1);
    assert!(blocks[0].0.is_last);
    assert_eq!(blocks[0].1, vec![0.0, 1.0, 2.0, 3.0, 4.0, 0.0, 1.0, 2.0, 3.0, 4.0]);
}

#[test]
fn blocks_do_not_depend_on_how_the_input_is_read() {
    let layout = tiny_layout();
    let samples: Vec<f32> = (0..layout.stride * 3 + 123).map(|i| (i * 7 % 1001) as f32).collect();
    let whole = run(&samples, layout, samples.len());
    for chunk in [1, 10, 977, 5_000] {
        let pieces = run(&samples, layout, chunk);
        assert_eq!(pieces, whole);
    }
}

#[test]
fn every_sample_is_in_the_block_of_its_stride() {
    let layout = tiny_layout();
    let total = layout.stride * 4 + 17;
    let blocks = stream_blocks(total, layout);
    for sample in 0..total {
        let block = &blocks[sample / layout.stride].0;
        assert!(block.read_start <= sample && sample < block.read_end);
    }
}

#[test]
fn the_last_buffer_ends_in_one_overlap_of_filler() {
    let layout = tiny_layout();
    let total = layout.stride * 2 + 17;
    let blocks = stream_blocks(total, layout);
    let (block, buffer) = blocks.last().unwrap();
    assert_eq!(block.append_pad, layout.block_overlap);
    assert_eq!(buffer.len(), layout.block_size);
    let real = buffer.len() - layout.block_overlap;
    assert_eq!(buffer[real - 1], (total - 1) as f32);
    assert!(buffer[real..].iter().all(|&s| s == 0.0));
    assert_eq!(buffer[0], block.read_start as f32);
}

#[test]
fn earlier_blocks_stay_the_same_as_the_input_grows() {
    let layout = tiny_layout();
    let short = stream_blocks(layout.stride * 3 + 1, layout);
    let long = stream_blocks(layout.stride * 6, layout);
    assert_eq!(short[..3], long[..3]);
}

#[test]
fn only_the_ends_are_patched() {
    let layout = tiny_layout();
    let blocks = stream_blocks(layout.stride * 4 + 17, layout);
    let n = blocks.len();
    for (i, (block, _)) in blocks.iter().enumerate() {
        assert_eq!(block.index, i);
        assert_eq!(block.prepend_duplicate > 0, i == 0);
        assert_eq!(block.append_pad > 0, i == n - 1);
        if i > 0 {
            assert_eq!(block.buffer_len, layout.block_size);
        }
    }
}

#[test]
fn every_block_emits_the_minimum() {
    let layout = tiny_layout();
    for total in [1, 2, layout.stride, layout.stride + 1, layout.stride * 3 + 5] {
        for (block, _) in stream_blocks(total, layout) {
            assert!(block.emit_len >= 50);
        }
    }
}

#[test]
fn block_counts_round_up() {
    let layout = tiny_layout();
    let stride = layout.stride;
    for (total, count) in [(0, 0), (1, 1), (stride, 1), (stride + 1, 2), (stride * 7, 7), (stride * 7 + 1, 8)] {
        assert_eq!(stream_blocks(total, layout).len(), count);
    }
}
