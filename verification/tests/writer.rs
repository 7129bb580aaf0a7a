use hifi_decode::writer::{
    check_write, frame_count, frames_to_write, output_format, setup_commands, FrameBuffer, SetupCommand, ShortWrite,
};

#[test]
fn wav_gets_16_bits_and_flac_24() {
    assert_eq!(output_format(true), 0x01_0000 | 0x0002);
    assert_eq!(output_format(false), 0x17_0000 | 0x0003);
}

#[test]
fn only_flac_gets_a_compression_level() {
    assert_eq!(setup_commands(true), vec![SetupCommand::SetClipping]);
    assert_eq!(
        setup_commands(false),
        vec![SetupCommand::SetClipping, SetupCommand::SetCompressionLevel]
    );
}

#[test]
fn a_refused_compression_level_is_an_error() {
    assert!(SetupCommand::SetCompressionLevel.accepts(1));
    assert!(!SetupCommand::SetCompressionLevel.accepts(0));
    assert!(SetupCommand::SetClipping.accepts(1));
    assert!(SetupCommand::SetClipping.accepts(0));
}

#[test]
fn stereo_chunks_are_interleaved() {
    let mut buffer = FrameBuffer::new(2);
    buffer.load(&[1.0f32, 2.0, 3.0], Some(&[-1.0f32, -2.0, -3.0]));
    assert_eq!(buffer.interleaved, vec![1.0, -1.0, 2.0, -2.0, 3.0, -3.0]);
    assert_eq!(frame_count(buffer.interleaved.len(), buffer.channels), 3);
    // The next chunk replaces it.
    buffer.load(&[9.0f32], Some(&[8.0f32]));
    assert_eq!(buffer.interleaved, vec![9.0, 8.0]);
}

#[test]
fn mono_chunks_are_taken_as_they_are() {
    let mut buffer = FrameBuffer::new(1);
    buffer.load(&[1.0f32, 2.0, 3.0], None);
    assert_eq!(buffer.interleaved, vec![1.0, 2.0, 3.0]);
    assert_eq!(frame_count(3, 1), 3);
    buffer.load(&[], None);
    assert!(buffer.interleaved.is_empty());
    assert_eq!(frame_count(0, 1), 0);
}

#[test]
fn interleaving_keeps_both_channels() {
    let left: Vec<u32> = (0..100).collect();
    let right: Vec<u32> = (1000..1100).collect();
    let mut buffer = FrameBuffer::new(2);
    buffer.load(&left, Some(&right));
    let even: Vec<u32> = buffer.interleaved.iter().copied().step_by(2).collect();
    let odd: Vec<u32> = buffer.interleaved.iter().copied().skip(1).step_by(2).collect();
    assert_eq!((even, odd), (left, right));
}

#[test]
fn short_writes_are_errors() {
    assert_eq!(check_write(7, 7), Ok(()));
    assert_eq!(check_write(6, 7), Err(ShortWrite { written: 6, frames: 7 }));
    assert_eq!(check_write(-1, 7), Err(ShortWrite { written: -1, frames: 7 }));
}

#[test]
fn nothing_is_written_where_there_are_no_frames() {
    assert_eq!(frames_to_write(0, 2), None);
    assert_eq!(frames_to_write(0, 1), None);
    assert_eq!(frames_to_write(6, 2), Some(3));
    assert_eq!(frames_to_write(6, 1), Some(6));
    assert_eq!(frames_to_write(2, 2), Some(1));
}
