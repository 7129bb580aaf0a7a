//! Audio output: the container each file gets, the interleaving of channels
//! and the accounting of frames. Samples are handed to libsndfile as they
//! are; it does the conversion to integers.

use crate::block::append_range;
use vstd::arithmetic::div_mod::*;
use vstd::prelude::*;

verus! {

/// libsndfile's numbers for the containers and encodings in use.
pub const SF_FORMAT_WAV: i32 = 0x01_0000;

pub const SF_FORMAT_FLAC: i32 = 0x17_0000;

pub const SF_FORMAT_PCM_16: i32 = 0x0002;

pub const SF_FORMAT_PCM_24: i32 = 0x0003;

/// libsndfile's `SF_TRUE`.
pub const SF_TRUE: i32 = 1;

/// 16-bit PCM for WAV, 24-bit for FLAC.
pub fn output_format(is_wav: bool) -> (format: i32)
    ensures
        is_wav ==> format == SF_FORMAT_WAV + SF_FORMAT_PCM_16,
        !is_wav ==> format == SF_FORMAT_FLAC + SF_FORMAT_PCM_24,
        is_wav ==> format == 0x01_0002,
        !is_wav ==> format == 0x17_0003,
{
    if is_wav {
        SF_FORMAT_WAV + SF_FORMAT_PCM_16
    } else {
        SF_FORMAT_FLAC + SF_FORMAT_PCM_24
    }
}

/// A setting to make on a file that has just been opened for writing.
#[derive(Clone, Copy, Debug, PartialEq, Eq, Structural)]
pub enum SetupCommand {
    /// Out-of-range samples saturate instead of wrapping.
    SetClipping,
    SetCompressionLevel,
}

/// The settings to make on a new file, in order: clipping always, the
/// compression level for FLAC only.
pub open spec fn setup_plan(is_wav: bool) -> Seq<SetupCommand> {
    if is_wav {
        seq![SetupCommand::SetClipping]
    } else {
        seq![SetupCommand::SetClipping, SetupCommand::SetCompressionLevel]
    }
}

/// The settings to make on a new file, in order.
pub fn setup_commands(is_wav: bool) -> (commands: Vec<SetupCommand>)
    ensures
        commands@ == setup_plan(is_wav),
{
    let mut commands: Vec<SetupCommand> = Vec::new();
    commands.push(SetupCommand::SetClipping);
    if !is_wav {
        commands.push(SetupCommand::SetCompressionLevel);
    }
    assert(commands@ =~= setup_plan(is_wav));
    commands
}

impl SetupCommand {
    /// Whether the file can be used after the setting returned `status`. What
    /// setting the clipping returns does not matter.
    pub fn accepts(self, status: i32) -> (ok: bool)
        ensures
            ok == (self == SetupCommand::SetClipping || status == SF_TRUE),
            !ok <==> self == SetupCommand::SetCompressionLevel && status != 1,
    {
        match self {
            SetupCommand::SetClipping => true,
            SetupCommand::SetCompressionLevel => status == SF_TRUE,
        }
    }
}

/// Fewer frames reached the file than were handed over.
#[derive(Clone, Copy, Debug, PartialEq, Eq, Structural)]
pub struct ShortWrite {
    pub written: i64,
    pub frames: i64,
}

/// The number of frames in `samples` interleaved samples.
pub fn frame_count(samples: usize, channels: usize) -> (frames: usize)
    requires
        channels > 0,
        samples % channels == 0,
    ensures
        frames * channels == samples,
        frames == samples / channels,
{
    proof {
        lemma_fundamental_div_mod(samples as int, channels as int);
        vstd::arithmetic::mul::lemma_mul_is_commutative(
            channels as int,
            samples as int / channels as int,
        );
    }
    samples / channels
}

/// How many frames of `samples` interleaved samples there are to write. Where
/// there are none, nothing is written and nothing can go wrong.
pub fn frames_to_write(samples: usize, channels: usize) -> (frames: Option<usize>)
    requires
        channels > 0,
        samples % channels == 0,
    ensures
        frames is None <==> samples / channels == 0,
        frames matches Some(n) ==> n == samples / channels,
{
    let frames = frame_count(samples, channels);
    if frames == 0 {
        None
    } else {
        Some(frames)
    }
}

/// Whether a write that reported `written` frames took all of `frames`.
pub fn check_write(written: i64, frames: i64) -> (r: Result<(), ShortWrite>)
    ensures
        r is Ok <==> written == frames,
        r matches Err(e) ==> e == (ShortWrite { written, frames }),
{
    if written != frames {
        Err(ShortWrite { written, frames })
    } else {
        Ok(())
    }
}

/// Left and right samples in turn.
pub open spec fn interleaved<T>(left: Seq<T>, right: Seq<T>) -> Seq<T> {
    Seq::new(
        2 * left.len(),
        |i: int|
            if i % 2 == 0 {
                left[i / 2]
            } else {
                right[i / 2]
            },
    )
}

/// The samples of a chunk as a file of its channels takes them.
pub open spec fn frames_of<T>(left: Seq<T>, right: Option<Seq<T>>) -> Seq<T> {
    match right {
        Some(right) => interleaved(left, right),
        None => left,
    }
}

/// A buffer for interleaved samples, reused from chunk to chunk.
pub struct FrameBuffer<T> {
    pub channels: usize,
    pub interleaved: Vec<T>,
}

impl<T: Copy> FrameBuffer<T> {
    pub fn new(channels: usize) -> (b: FrameBuffer<T>)
        ensures
            b.channels == channels,
            b.interleaved@ == Seq::<T>::empty(),
    {
        FrameBuffer { channels, interleaved: Vec::new() }
    }

    /// Replaces the buffer's content by one chunk: stereo where there is a
    /// right channel, mono where there is none. The chunk has to suit the
    /// file's number of channels.
    pub fn load(&mut self, left: &[T], right: Option<&[T]>)
        requires
            match right {
                Some(right) => {
                    &&& left@.len() == right@.len()
                    &&& old(self).channels == 2
                    &&& 2 * left@.len() <= usize::MAX
                },
                None => old(self).channels == 1,
            },
        ensures
            final(self).channels == old(self).channels,
            final(self).interleaved@ == frames_of(
                left@,
                match right {
                    Some(right) => Some(right@),
                    None => None,
                },
            ),
            final(self).interleaved@.len() == left@.len() * final(self).channels,
    {
        self.interleaved.clear();
        match right {
            Some(right) => {
                let n = left.len();
                let mut i: usize = 0;
                while i < n
                    invariant
                        i <= n,
                        n == left@.len(),
                        n == right@.len(),
                        self.channels == old(self).channels,
                        self.interleaved@.len() == 2 * i,
                        forall|k: int|
                            0 <= k < 2 * i ==> #[trigger] self.interleaved@[k] == interleaved(
                                left@,
                                right@,
                            )[k],
                    decreases n - i,
                {
                    self.interleaved.push(left[i]);
                    self.interleaved.push(right[i]);
                    i = i + 1;
                }
                assert(self.interleaved@ =~= interleaved(left@, right@));
            },
            None => {
                append_range(&mut self.interleaved, left, 0, left.len());
                assert(self.interleaved@ =~= left@);
            },
        }
    }
}

/// Taking every second sample gives the channels back.
pub proof fn law_interleaving_keeps_both_channels<T>(left: Seq<T>, right: Seq<T>)
    requires
        left.len() == right.len(),
    ensures
        interleaved(left, right).len() == 2 * left.len(),
        forall|i: int|
            0 <= i < left.len() ==> #[trigger] left[i] == interleaved(left, right)[2 * i],
        forall|i: int|
            0 <= i < right.len() ==> #[trigger] right[i] == interleaved(left, right)[2 * i + 1],
{
}

/// A stereo chunk is written left and right in turn, a mono chunk as it is.
pub proof fn law_frames_of_a_chunk<T>(left: Seq<T>, right: Seq<T>, i: int)
    requires
        left.len() == right.len(),
        0 <= i < left.len(),
    ensures
        frames_of(left, Some(right)).len() == left.len() + right.len(),
        frames_of(left, Some(right))[2 * i] == left[i],
        frames_of(left, Some(right))[2 * i + 1] == right[i],
        frames_of(left, None) == left,
{
}

/// Every file clips, and only FLAC gets a compression level, after that.
pub proof fn law_every_file_clips()
    ensures
        forall|is_wav: bool| (#[trigger] setup_plan(is_wav))[0] == SetupCommand::SetClipping,
        setup_plan(true).len() == 1,
        setup_plan(false).len() == 2,
        setup_plan(false)[1] == SetupCommand::SetCompressionLevel,
{
}

} // verus!
