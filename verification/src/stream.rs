//! Bounded-memory RF block source: one fresh `stride`-sample read per block,
//! with each block's buffer completed from the samples its predecessor
//! already read, without knowing the input's total length upfront and
//! without ever holding more than a couple of blocks' worth of RF samples.
//!
//! The source does no reading of its own. It says when it needs input, and
//! whoever drives it hands over what a read brought, an empty read at the
//! end.

use crate::block::{
    append_range, at_least, at_most, lemma_moderate_emit_fits, Block, BlockLayout, MIN_EMIT,
};
use vstd::arithmetic::div_mod::*;
use vstd::arithmetic::mul::*;
use vstd::prelude::*;

verus! {

/// How many samples to ask of the input per read.
pub const READ_CHUNK: usize = 0x10_0000;

/// What the next block of a stream has to wait for, or is.
pub enum NextBlock<T> {
    /// The block is not covered yet: read on.
    NeedInput,
    /// The block and its assembled decode buffer.
    Ready(Block, Vec<T>),
    /// There is nothing left to emit.
    Finished,
}

/// How many fresh samples block `index` gets of an input of `total` samples.
pub open spec fn fresh_frames(layout: BlockLayout, total: int, index: int) -> int {
    at_most(total - index * layout.stride, layout.stride as int)
}

/// Block `index` of an input of `total` samples, which reach past the start
/// of its fresh read.
pub open spec fn block_of(layout: BlockLayout, total: int, index: int) -> Block {
    let frames = fresh_frames(layout, total, index);
    if index == 0 {
        layout.first(frames, frames < layout.stride)
    } else if frames < layout.stride {
        layout.last(index, total, frames)
    } else {
        layout.middle(index)
    }
}

/// Whether that block can be built with the machine's integers.
pub open spec fn block_fits(layout: BlockLayout, total: int, index: int) -> bool {
    let frames = fresh_frames(layout, total, index);
    if index == 0 {
        layout.first_fits(frames, frames < layout.stride)
    } else if frames < layout.stride {
        layout.last_fits(total, frames)
    } else {
        layout.middle_fits(index)
    }
}

/// Takes RF samples in as they are read and yields one block (plus its
/// assembled decode buffer) at a time, in order.
pub struct StreamingBlocks<T> {
    layout: BlockLayout,
    /// RF samples currently buffered, covering
    /// `[window_start, window_start + window.len())`.
    window: Vec<T>,
    window_start: usize,
    eof: bool,
    next_index: usize,
    done: bool,
    /// Everything received so far.
    input: Ghost<Seq<T>>,
}

impl<T: Copy> StreamingBlocks<T> {
    pub closed spec fn layout(self) -> BlockLayout {
        self.layout
    }

    /// Everything received so far.
    pub closed spec fn received(self) -> Seq<T> {
        self.input@
    }

    /// The samples currently held.
    pub closed spec fn held(self) -> Seq<T> {
        self.window@
    }

    /// Whether the input has ended.
    pub closed spec fn ended(self) -> bool {
        self.eof
    }

    /// The index of the next block.
    pub closed spec fn position(self) -> int {
        self.next_index as int
    }

    /// Whether everything has been emitted.
    pub closed spec fn finished(self) -> bool {
        self.done
    }

    pub closed spec fn valid(self) -> bool {
        &&& self.layout.consistent()
        &&& self.window_start <= self.input@.len() <= usize::MAX
        &&& self.window@ == self.input@.subrange(self.window_start as int, self.input@.len() as int)
        &&& self.window_start <= at_least(
            self.next_index * self.layout.stride - self.layout.block_size,
            0,
        )
        &&& self.window_start >= (self.next_index - 1) * self.layout.stride - self.layout.block_size
        &&& !self.done ==> self.next_index * self.layout.stride <= self.input@.len()
        &&& self.done && self.layout.stride > 0 ==> self.eof && (self.next_index - 1)
            * self.layout.stride < self.input@.len() <= self.next_index * self.layout.stride
        &&& self.layout.stride == 0 ==> self.input@.len() == 0
    }

    /// Whether the next block is waiting for input.
    pub open spec fn waiting(self) -> bool {
        &&& !self.finished()
        &&& !self.ended()
        &&& self.received().len() < (self.position() + 1) * self.layout().stride
    }

    /// Whether the next block is there to be emitted.
    pub open spec fn ready(self) -> bool {
        &&& !self.finished()
        &&& !self.waiting()
        &&& self.received().len() > self.position() * self.layout().stride
    }

    /// Whether the next step stays within the machine's integers.
    pub open spec fn advanceable(self) -> bool {
        &&& !self.finished() ==> (self.position() + 1) * self.layout().stride <= usize::MAX
        &&& self.ready() ==> block_fits(
            self.layout(),
            self.received().len() as int,
            self.position(),
        )
    }

    /// A stream of blocks of this layout, with nothing received yet.
    pub fn new(layout: BlockLayout) -> (s: StreamingBlocks<T>)
        requires
            layout.consistent(),
        ensures
            s.valid(),
            s.layout() == layout,
            s.received() == Seq::<T>::empty(),
            s.held() == Seq::<T>::empty(),
            s.position() == 0,
            !s.ended(),
            !s.finished(),
    {
        proof {
            lemma_mul_basics(layout.stride as int);
        }
        let s = StreamingBlocks {
            layout,
            window: Vec::new(),
            window_start: 0,
            eof: false,
            next_index: 0,
            done: false,
            input: Ghost(Seq::empty()),
        };
        assert(s.window@ =~= s.input@.subrange(0, 0));
        s
    }

    /// Takes in what one read brought; an empty read ends the input.
    pub fn supply(&mut self, samples: &[T])
        requires
            old(self).valid(),
            old(self).waiting(),
            old(self).received().len() + samples@.len() <= usize::MAX,
        ensures
            final(self).valid(),
            final(self).layout() == old(self).layout(),
            final(self).received() == old(self).received() + samples@,
            final(self).held() == old(self).held() + samples@,
            final(self).ended() == (samples@.len() == 0),
            final(self).position() == old(self).position(),
            !final(self).finished(),
    {
        if samples.len() == 0 {
            self.eof = true;
            assert(self.input@ + samples@ =~= self.input@);
            assert(self.window@ + samples@ =~= self.window@);
        } else {
            let ghost before = self.input@;
            append_range(&mut self.window, samples, 0, samples.len());
            assert(samples@.subrange(0, samples@.len() as int) =~= samples@);
            self.input = Ghost(before + samples@);
            assert(self.window@ =~= self.input@.subrange(
                self.window_start as int,
                self.input@.len() as int,
            ));
            proof {
                if self.layout.stride == 0 {
                    assert((self.next_index + 1) * self.layout.stride == 0) by (nonlinear_arith)
                        requires
                            self.layout.stride == 0,
                    ;
                }
            }
        }
    }

    /// Drops buffered samples before `keep_from`, which no later block can
    /// still need.
    fn discard_before(&mut self, keep_from: usize)
        requires
            old(self).valid(),
            keep_from <= at_least(
                old(self).next_index * old(self).layout.stride - old(self).layout.block_size,
                0,
            ),
        ensures
            final(self).valid(),
            final(self).layout() == old(self).layout(),
            final(self).received() == old(self).received(),
            final(self).ended() == old(self).ended(),
            final(self).position() == old(self).position(),
            final(self).finished() == old(self).finished(),
            final(self).held().len() <= old(self).held().len(),
            final(self).window_start == at_least(
                old(self).window_start as int,
                at_most(keep_from as int, old(self).received().len() as int),
            ),
    {
        if keep_from > self.window_start {
            let mut drop = keep_from - self.window_start;
            if drop > self.window.len() {
                drop = self.window.len();
            }
            self.window = self.window.split_off(drop);
            self.window_start = self.window_start + drop;
            assert(self.window@ =~= self.input@.subrange(
                self.window_start as int,
                self.input@.len() as int,
            ));
        }
    }

    /// The buffered samples `[start, end)`.
    fn slice(&self, start: usize, end: usize) -> (samples: Vec<T>)
        requires
            self.valid(),
            self.window_start <= start <= end <= self.received().len(),
        ensures
            samples@ == self.received().subrange(start as int, end as int),
    {
        let mut samples: Vec<T> = Vec::with_capacity(end - start);
        append_range(
            &mut samples,
            self.window.as_slice(),
            start - self.window_start,
            end - self.window_start,
        );
        assert(samples@ =~= self.received().subrange(start as int, end as int));
        samples
    }

    /// The next block and its decode buffer, cut from the samples held.
    fn cut_block(&self, filler: T) -> (r: (Block, Vec<T>))
        requires
            self.valid(),
            self.ready(),
            self.advanceable(),
        ensures
            r.0 == block_of(self.layout(), self.received().len() as int, self.position()),
            r.0.consistent(),
            r.0.read_end <= self.received().len(),
            r.0.is_last == (self.received().len() < (self.position() + 1) * self.layout().stride),
            r.1@ == BlockLayout::assembled(
                r.0,
                self.received().subrange(r.0.read_start as int, r.0.read_end as int),
                filler,
            ),
            r.1@.len() == r.0.buffer_len,
    {
        let index = self.next_index;
        let layout = self.layout;
        proof {
            lemma_mul_is_distributive_add_other_way(layout.stride as int, index as int, 1);
            lemma_mul_basics(layout.stride as int);
        }
        let fresh_start = layout.fresh_read_start(index);
        let fresh_end = fresh_start + layout.stride;
        let available_end = self.window_start + self.window.len();
        let frames_read = if available_end < fresh_end {
            available_end - fresh_start
        } else {
            layout.stride
        };
        let is_last = frames_read < layout.stride;
        let block = if index == 0 {
            layout.first_block(frames_read, is_last)
        } else if is_last {
            layout.last_block(index, available_end, frames_read)
        } else {
            layout.middle_block(index)
        };
        let read = self.slice(block.read_start, block.read_end);
        let buffer = layout.assemble(&block, read.as_slice(), filler);
        (block, buffer)
    }

    /// The next block's metadata and decode buffer, or what stands in its
    /// way. Samples that the block leaves open are `filler`.
    pub fn next_block(&mut self, filler: T) -> (next: NextBlock<T>)
        requires
            old(self).valid(),
            old(self).advanceable(),
        ensures
            final(self).valid(),
            final(self).layout() == old(self).layout(),
            final(self).received() == old(self).received(),
            final(self).held().len() <= old(self).held().len(),
            final(self).ended() == old(self).ended(),
            match next {
                NextBlock::NeedInput => {
                    &&& old(self).waiting()
                    &&& final(self).waiting()
                    &&& final(self).position() == old(self).position()
                    &&& final(self).held().len() < old(self).layout().block_size + old(
                        self,
                    ).layout().stride
                },
                NextBlock::Ready(block, buffer) => {
                    &&& old(self).ready()
                    &&& block == block_of(
                        old(self).layout(),
                        old(self).received().len() as int,
                        old(self).position(),
                    )
                    &&& block.consistent()
                    &&& block.read_end <= old(self).received().len()
                    &&& buffer@ == BlockLayout::assembled(
                        block,
                        old(self).received().subrange(
                            block.read_start as int,
                            block.read_end as int,
                        ),
                        filler,
                    )
                    &&& buffer@.len() == block.buffer_len
                    &&& final(self).position() == old(self).position() + 1
                    &&& final(self).finished() == block.is_last
                },
                NextBlock::Finished => {
                    &&& !old(self).waiting()
                    &&& !old(self).ready()
                    &&& final(self).finished()
                    &&& final(self).position() == old(self).position()
                },
            },
    {
        if self.done {
            return NextBlock::Finished;
        }
        let index = self.next_index;
        let layout = self.layout;
        let ghost i = index as int;
        let ghost stride = layout.stride as int;
        proof {
            lemma_mul_is_distributive_add_other_way(stride, i, 1);
            lemma_mul_is_distributive_sub_other_way(stride, i, 1);
            lemma_mul_basics(stride);
        }
        let fresh_start = layout.fresh_read_start(index);
        let fresh_end = fresh_start + layout.stride;

        // A block needs history back to its buffer's start; a whole
        // `block_size` before the fresh read covers the last block too.
        self.discard_before(fresh_start.saturating_sub(layout.block_size));

        let available_end = self.window_start + self.window.len();
        if !self.eof && available_end < fresh_end {
            return NextBlock::NeedInput;
        }
        if available_end <= fresh_start {
            self.done = true;
            return NextBlock::Finished;
        }
        let (block, buffer) = self.cut_block(filler);
        proof {
            assert(i <= i * stride) by (nonlinear_arith)
                requires
                    stride >= 1,
                    i >= 0,
            ;
        }
        self.next_index = index + 1;
        self.done = block.is_last;
        NextBlock::Ready(block, buffer)
    }

    /// Whether the next block can be built with the machine's integers.
    pub fn can_advance(&self) -> (fits: bool)
        requires
            self.valid(),
        ensures
            fits == self.advanceable(),
    {
        if self.done {
            return true;
        }
        let index = self.next_index;
        let layout = self.layout;
        proof {
            let stride = layout.stride as int;
            lemma_mul_is_distributive_add_other_way(stride, index as int, 1);
            lemma_mul_basics(stride);
        }
        let fresh_start = layout.fresh_read_start(index);
        if fresh_start > usize::MAX - layout.stride {
            return false;
        }
        let fresh_end = fresh_start + layout.stride;
        let available_end = self.window_start + self.window.len();
        if (!self.eof && available_end < fresh_end) || available_end <= fresh_start {
            return true;
        }
        let frames_read = if available_end < fresh_end {
            available_end - fresh_start
        } else {
            layout.stride
        };
        let is_last = frames_read < layout.stride;
        if index == 0 {
            layout.has_room_for_first(frames_read, is_last)
        } else if is_last {
            layout.has_room_for_last(available_end, frames_read)
        } else {
            layout.has_room_for_middle(index)
        }
    }
}

/// What every stream keeps to, whatever has happened to it: its layout's
/// sizes agree, its position and input are within the machine's integers, it
/// holds the tail of its input, and the blocks emitted so far lie within that.
pub proof fn law_valid_stream<T: Copy>(stream: StreamingBlocks<T>)
    requires
        stream.valid(),
    ensures
        stream.layout().consistent(),
        0 <= stream.position() <= usize::MAX,
        stream.received().len() <= usize::MAX,
        stream.held().len() <= stream.received().len(),
        stream.held() == stream.received().skip(stream.received().len() - stream.held().len()),
        !stream.finished() ==> stream.position() * stream.layout().stride <= stream.received().len(),
{
}

/// A stream that waits for input holds no more than a couple of blocks' worth
/// of samples, however long the input is.
pub proof fn law_memory_is_bounded<T: Copy>(stream: StreamingBlocks<T>)
    requires
        stream.valid(),
        stream.waiting(),
    ensures
        stream.held().len() < stream.layout().block_size + 2 * stream.layout().stride,
{
    let stride = stream.layout().stride as int;
    let i = stream.position();
    assert((i + 1) * stride == (i - 1) * stride + 2 * stride) by (nonlinear_arith);
}

/// How many blocks an input of `total` samples makes.
pub open spec fn block_count(layout: BlockLayout, total: int) -> int {
    if total % (layout.stride as int) == 0 {
        total / (layout.stride as int)
    } else {
        total / (layout.stride as int) + 1
    }
}

/// Ordinary blocks are contiguous RF windows that step by `stride` while
/// spanning `block_size`, so each re-reads its predecessor's last
/// `block_read_overlap` samples.
pub proof fn law_ordinary_blocks_step_by_stride(layout: BlockLayout, index: int)
    requires
        layout.consistent(),
        index > 0,
        layout.middle_fits(index),
        layout.middle_fits(index + 1),
    ensures
        layout.middle(index).read_end - layout.middle(index).read_start == layout.block_size,
        layout.middle(index + 1).read_start - layout.middle(index).read_start == layout.stride,
        layout.middle(index).read_end - layout.middle(index + 1).read_start
            == layout.block_read_overlap,
{
    lemma_mul_is_distributive_add_other_way(layout.stride as int, index, 1);
    lemma_mul_basics(layout.stride as int);
}

/// The places of a stream's blocks in its input: each ends where its fresh
/// read does, and starts no later than that.
pub proof fn lemma_block_places(layout: BlockLayout, total: int, index: int)
    requires
        layout.consistent(),
        0 <= index,
        index * layout.stride < total <= usize::MAX,
        block_fits(layout, total, index),
    ensures
        block_of(layout, total, index).consistent(),
        block_of(layout, total, index).read_end == at_most((index + 1) * layout.stride, total),
        block_of(layout, total, index).read_start <= index * layout.stride,
        block_of(layout, total, index).is_last == (total < (index + 1) * layout.stride),
{
    lemma_mul_is_distributive_add_other_way(layout.stride as int, index, 1);
    lemma_mul_basics(layout.stride as int);
}

/// Only block 0 has a duplicated head, only a later block that fell short has
/// filler, and every buffer in between is a whole block; so is that of the
/// last block, once there is enough input behind it.
pub proof fn law_only_the_ends_are_patched(layout: BlockLayout, total: int, index: int)
    requires
        layout.consistent(),
        0 <= index <= usize::MAX,
        index * layout.stride < total <= usize::MAX,
        block_fits(layout, total, index),
    ensures
        ({
            let block = block_of(layout, total, index);
            &&& block.index == index
            &&& block.prepend_duplicate > 0 ==> index == 0
            &&& block.append_pad > 0 ==> index > 0 && block.is_last
            &&& index > 0 && !block.is_last ==> block.buffer_len == layout.block_size
            &&& index > 0 && block.is_last && total >= layout.block_size - layout.block_overlap
                ==> block.buffer_len == layout.block_size
        }),
{
}

/// Every block contributes at least the minimum.
pub proof fn law_every_block_emits_the_minimum(layout: BlockLayout, total: int, index: int)
    requires
        0 <= index,
        index * layout.stride < total <= usize::MAX,
        block_fits(layout, total, index),
    ensures
        block_of(layout, total, index).emit_len >= MIN_EMIT,
{
}

/// What each block of a stream contributes: one that got its whole stride the
/// audio of an ordinary block, one that fell short that of the samples it got.
pub proof fn law_blocks_contribute_what_they_got(layout: BlockLayout, total: int, index: int)
    requires
        layout.consistent(),
        0 <= index <= usize::MAX,
        index * layout.stride < total <= usize::MAX,
        block_fits(layout, total, index),
    ensures
        ({
            let block = block_of(layout, total, index);
            let got = total - index * layout.stride;
            &&& got >= layout.stride ==> block.emit_len == layout.ordinary_emit(
                block.buffer_len as int,
            )
            &&& got < layout.stride ==> block.emit_len == layout.last_emit(
                block.buffer_len as int,
                got,
            )
            &&& block.audio_final_overlap == layout.block_audio_final_overlap
        }),
{
}

/// The buffers that a stream cuts from its input. That of an ordinary block is
/// the input from one read overlap before its fresh read to the end of it;
/// block 0 has its fresh read behind a copy of its head; the last block has
/// the end of the input in front of one overlap of filler.
pub proof fn law_buffers_are_cut_from_the_input<T>(
    layout: BlockLayout,
    input: Seq<T>,
    index: int,
    filler: T,
)
    requires
        layout.consistent(),
        0 <= index <= usize::MAX,
        index * layout.stride < input.len() <= usize::MAX,
        block_fits(layout, input.len() as int, index),
    ensures
        ({
            let total = input.len() as int;
            let stride = layout.stride as int;
            let overlap = layout.block_overlap as int;
            let end = if (index + 1) * stride < total {
                (index + 1) * stride
            } else {
                total
            };
            let block = block_of(layout, total, index);
            let buffer = BlockLayout::assembled(
                block,
                input.subrange(block.read_start as int, block.read_end as int),
                filler,
            );
            if index == 0 {
                let copied = if overlap < end {
                    overlap
                } else {
                    end
                };
                &&& buffer.len() == copied + end
                &&& forall|i: int| 0 <= i < copied ==> #[trigger] buffer[i] == input[i]
                &&& forall|i: int| copied <= i < copied + end ==> #[trigger] buffer[i] == input[i
                    - copied]
            } else if (index + 1) * stride <= total {
                buffer == input.subrange(index * stride - 2 * overlap, (index + 1) * stride)
            } else {
                let read = buffer.len() - overlap;
                &&& buffer.len() == layout.block_size || read == total
                &&& buffer.len() <= layout.block_size
                &&& forall|i: int| 0 <= i < read ==> #[trigger] buffer[i] == input[total - read + i]
                &&& forall|i: int| read <= i < buffer.len() ==> #[trigger] buffer[i] == filler
            }
        }),
{
    let stride = layout.stride as int;
    let total = input.len() as int;
    lemma_mul_is_distributive_add_other_way(stride, index, 1);
    lemma_mul_basics(stride);
    lemma_block_places(layout, total, index);
    let block = block_of(layout, total, index);
    let read = input.subrange(block.read_start as int, block.read_end as int);
    let buffer = BlockLayout::assembled(block, read, filler);
    if index > 0 && (index + 1) * stride <= total {
        assert(buffer =~= input.subrange(
            index * stride - 2 * layout.block_overlap,
            (index + 1) * stride,
        ));
    }
}

/// A stream waits for input exactly until the next block's fresh read is
/// there or the input has ended.
pub proof fn law_stream_waits_for_its_stride<T: Copy>(stream: StreamingBlocks<T>)
    requires
        stream.valid(),
        !stream.finished(),
        !stream.ended(),
    ensures
        stream.waiting() <==> stream.received().len() < stream.position() * stream.layout().stride
            + stream.layout().stride,
        !stream.waiting() && stream.layout().stride > 0 ==> stream.ready(),
{
    let stride = stream.layout().stride as int;
    lemma_mul_is_distributive_add_other_way(stride, stream.position(), 1);
    lemma_mul_basics(stride);
}

/// No RF sample is ever skipped: each lies in the read of the block that its
/// position divided by the stride gives.
pub proof fn law_every_sample_is_read(layout: BlockLayout, total: int, sample: int)
    requires
        layout.consistent(),
        layout.stride > 0,
        0 <= sample < total <= usize::MAX,
        block_fits(layout, total, sample / (layout.stride as int)),
    ensures
        ({
            let block = block_of(layout, total, sample / (layout.stride as int));
            block.read_start <= sample < block.read_end
        }),
{
    let stride = layout.stride as int;
    let index = sample / stride;
    lemma_fundamental_div_mod(sample, stride);
    lemma_mod_bound(sample, stride);
    lemma_div_pos_is_pos(sample, stride);
    lemma_mul_is_commutative(stride, index);
    lemma_mul_is_distributive_add_other_way(stride, index, 1);
    lemma_mul_basics(stride);
    lemma_block_places(layout, total, index);
}

/// Consecutive blocks leave no gap: each starts at or before its
/// predecessor's end, and an ordinary one exactly one read overlap before it.
pub proof fn law_consecutive_blocks_leave_no_gap(layout: BlockLayout, total: int, index: int)
    requires
        layout.consistent(),
        0 <= index,
        (index + 1) * layout.stride < total <= usize::MAX,
        block_fits(layout, total, index),
        block_fits(layout, total, index + 1),
    ensures
        ({
            let a = block_of(layout, total, index);
            let b = block_of(layout, total, index + 1);
            &&& !a.is_last
            &&& b.read_start <= a.read_end
            &&& !b.is_last ==> a.read_end - b.read_start == layout.block_read_overlap
        }),
{
    let stride = layout.stride as int;
    lemma_mul_is_distributive_add_other_way(stride, index, 1);
    lemma_mul_is_distributive_add_other_way(stride, index + 1, 1);
    lemma_mul_basics(stride);
    lemma_block_places(layout, total, index);
    lemma_block_places(layout, total, index + 1);
}

/// The indices that get a block are those below the block count.
pub proof fn law_block_count(layout: BlockLayout, total: int, index: int)
    requires
        layout.stride > 0,
        total >= 0,
        index >= 0,
    ensures
        index < block_count(layout, total) <==> index * layout.stride < total,
{
    let stride = layout.stride as int;
    let whole = total / stride;
    lemma_fundamental_div_mod(total, stride);
    lemma_mod_bound(total, stride);
    if index < whole {
        assert(index * stride < total) by (nonlinear_arith)
            requires
                index < whole,
                stride > 0,
                total >= stride * whole,
        ;
    } else if index > whole {
        assert(index * stride >= total) by (nonlinear_arith)
            requires
                index >= whole + 1,
                stride > 0,
                total < stride * whole + stride,
        ;
    } else {
        lemma_mul_is_commutative(stride, whole);
    }
}

/// A stream that has nothing left to emit has emitted every block of its
/// input.
pub proof fn law_finished_stream_has_emitted_every_block<T: Copy>(stream: StreamingBlocks<T>)
    requires
        stream.valid(),
        stream.finished(),
        stream.layout().stride > 0,
    ensures
        stream.ended(),
        stream.position() == block_count(stream.layout(), stream.received().len() as int),
{
    let total = stream.received().len() as int;
    let count = stream.position();
    law_block_count(stream.layout(), total, count);
    if count > 0 {
        law_block_count(stream.layout(), total, count - 1);
    } else {
        lemma_mul_basics(stream.layout().stride as int);
        lemma_small_mod(0, stream.layout().stride as nat);
        lemma_basic_div(0, stream.layout().stride as int);
    }
}

/// Exactly the final block is flagged last, and it reaches the end of the
/// input; an input of whole strides has no block that fell short, and so
/// none that is flagged.
pub proof fn law_only_the_final_block_is_last(layout: BlockLayout, total: int, index: int)
    requires
        layout.consistent(),
        layout.stride > 0,
        0 <= total <= usize::MAX,
        0 <= index < block_count(layout, total),
        block_fits(layout, total, index),
    ensures
        block_of(layout, total, index).is_last <==> index == block_count(layout, total) - 1 && total
            % (layout.stride as int) != 0,
        index == block_count(layout, total) - 1 ==> block_of(layout, total, index).read_end
            == total,
{
    let stride = layout.stride as int;
    let whole = total / stride;
    law_block_count(layout, total, index);
    law_block_count(layout, total, index + 1);
    lemma_block_places(layout, total, index);
    lemma_fundamental_div_mod(total, stride);
    lemma_mod_bound(total, stride);
    lemma_mul_is_commutative(stride, whole);
}

/// A block that got its whole fresh read does not depend on how the input
/// goes on.
pub proof fn law_blocks_do_not_depend_on_later_input(
    layout: BlockLayout,
    total: int,
    longer: int,
    index: int,
)
    requires
        0 <= index,
        (index + 1) * layout.stride <= total <= longer,
    ensures
        block_of(layout, total, index) == block_of(layout, longer, index),
{
    lemma_mul_is_distributive_add_other_way(layout.stride as int, index, 1);
    lemma_mul_basics(layout.stride as int);
}

/// A moderate layout never stops a stream: whatever the input's length,
/// every block of it can be built.
pub proof fn law_moderate_layout_always_advances(layout: BlockLayout, total: int, index: int)
    requires
        layout.moderate(),
        0 <= index,
        index * layout.stride < total,
        total + layout.block_size <= usize::MAX,
    ensures
        block_fits(layout, total, index),
{
    let stride = layout.stride as int;
    let frames = fresh_frames(layout, total, index);
    lemma_mul_nonnegative(index, stride);
    if index == 0 {
        let buffer_len = frames + at_most(layout.block_overlap as int, frames);
        if frames > 0 {
            lemma_moderate_emit_fits(layout, buffer_len, frames);
        }
    } else {
        assert(stride <= index * stride) by (nonlinear_arith)
            requires
                index >= 1,
                stride >= 0,
        ;
        if frames < stride {
            let buffer_len = layout.last_read_len(total) + layout.block_overlap;
            lemma_moderate_emit_fits(layout, buffer_len, frames);
        }
    }
}

/// A stream of a moderate layout can always take its next step, as long as its
/// input has room for one more block.
pub proof fn law_moderate_stream_always_advances<T: Copy>(stream: StreamingBlocks<T>)
    requires
        stream.valid(),
        stream.layout().moderate(),
        stream.received().len() + stream.layout().block_size <= usize::MAX,
        (stream.position() + 1) * stream.layout().stride <= usize::MAX,
    ensures
        stream.advanceable(),
{
    if stream.ready() {
        law_moderate_layout_always_advances(
            stream.layout(),
            stream.received().len() as int,
            stream.position(),
        );
    }
}

} // verus!
