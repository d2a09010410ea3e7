//! The block writer and the block reader.
use crate::codec::Compressor;
use crate::error::PipelineError;
use crate::format::{
    blocks, encoded_blocks, frame, frame_complete, frame_end, frame_payload, frames, read_frames,
    stream,
};
use crate::length::{push_length, read_length};
use vstd::prelude::*;

verus! {

/// Past the first block, the stream of a buffer is the frame of its first
/// block followed by the stream of the rest.
proof fn lemma_stream_step<C: Compressor>(data: Seq<u8>, s: nat, lower: int, upper: int)
    requires
        s > 0,
        0 <= lower < upper <= data.len(),
        upper == if lower + s >= data.len() {
            data.len() as int
        } else {
            lower + s
        },
    ensures
        stream::<C>(data.skip(lower), s) == frame(C::encoding(data.subrange(lower, upper)))
            + stream::<C>(data.skip(upper), s),
{
    let d = data.skip(lower);
    let e = encoded_blocks::<C>(d, s);
    if d.len() <= s {
        assert(d =~= data.subrange(lower, upper));
        assert(data.skip(upper) =~= Seq::<u8>::empty());
        assert(e.drop_first() =~= Seq::<Seq<u8>>::empty());
        assert(frames(e.drop_first()) =~= Seq::<u8>::empty());
        assert(stream::<C>(data.skip(upper), s) =~= Seq::<u8>::empty());
        assert(frames(e) =~= frame(e[0]) + Seq::<u8>::empty());
    } else {
        assert(d.take(s as int) =~= data.subrange(lower, upper));
        assert(d.skip(s as int) =~= data.skip(upper));
        assert(e.drop_first() =~= encoded_blocks::<C>(data.skip(upper), s));
    }
}

/// Past the first block, the blocks of a buffer are its first block followed
/// by the blocks of the rest.
proof fn lemma_blocks_step(data: Seq<u8>, s: nat, lower: int, upper: int)
    requires
        s > 0,
        0 <= lower < upper <= data.len(),
        upper == if lower + s >= data.len() {
            data.len() as int
        } else {
            lower + s
        },
    ensures
        blocks(data.skip(lower), s) == seq![data.subrange(lower, upper)] + blocks(
            data.skip(upper),
            s,
        ),
{
    let d = data.skip(lower);
    if d.len() <= s {
        assert(d =~= data.subrange(lower, upper));
        assert(data.skip(upper) =~= Seq::<u8>::empty());
        assert(seq![d] + Seq::<Seq<u8>>::empty() =~= seq![d]);
    } else {
        assert(d.take(s as int) =~= data.subrange(lower, upper));
        assert(d.skip(s as int) =~= data.skip(upper));
    }
}

/// The frames of the payloads from index `i` on are the frame of payload `i`
/// followed by the frames of those after it.
proof fn lemma_frames_step(payloads: Seq<Seq<u8>>, i: int)
    requires
        0 <= i < payloads.len(),
    ensures
        frames(payloads.skip(i)) == frame(payloads[i]) + frames(payloads.skip(i + 1)),
{
    assert(payloads.skip(i).drop_first() =~= payloads.skip(i + 1));
}

/// Cuts `data` into blocks of `block_size` bytes, the last one holding what
/// is left. A block size of zero is refused.
pub fn split_blocks(data: &[u8], block_size: usize) -> (r: Result<Vec<Vec<u8>>, PipelineError>)
    ensures
        r is Err <==> block_size == 0,
        r is Err ==> r == Err::<Vec<Vec<u8>>, PipelineError>(PipelineError::InvalidConfiguration),
        r matches Ok(v) ==> v@.map_values(|b: Vec<u8>| b@) == blocks(data@, block_size as nat),
{
    let s = block_size;
    if s == 0 {
        return Err(PipelineError::InvalidConfiguration);
    }
    let n = data.len();
    let mut out: Vec<Vec<u8>> = Vec::new();
    let mut lower: usize = 0;
    assert(data@.skip(0) =~= data@);
    assert(out@.map_values(|b: Vec<u8>| b@) + blocks(data@, s as nat) =~= blocks(data@, s as nat));
    while lower < n
        invariant
            s > 0,
            n == data@.len(),
            lower <= n,
            out@.map_values(|b: Vec<u8>| b@) + blocks(data@.skip(lower as int), s as nat) == blocks(
                data@,
                s as nat,
            ),
        decreases n - lower,
    {
        let upper: usize = if s >= n - lower {
            n
        } else {
            lower + s
        };
        let chunk = vstd::slice::slice_to_vec(vstd::slice::slice_subrange(data, lower, upper));
        let ghost before = out@;
        out.push(chunk);
        proof {
            lemma_blocks_step(data@, s as nat, lower as int, upper as int);
            assert(out@.map_values(|b: Vec<u8>| b@) =~= before.map_values(|b: Vec<u8>| b@) + seq![
                data@.subrange(lower as int, upper as int),
            ]);
            assert(before.map_values(|b: Vec<u8>| b@) + blocks(data@.skip(lower as int), s as nat)
                =~= out@.map_values(|b: Vec<u8>| b@) + blocks(data@.skip(upper as int), s as nat));
        }
        lower = upper;
    }
    assert(data@.skip(n as int) =~= Seq::<u8>::empty());
    assert(out@.map_values(|b: Vec<u8>| b@) + Seq::<Seq<u8>>::empty() =~= out@.map_values(
        |b: Vec<u8>| b@,
    ));
    Ok(out)
}

/// Appends one frame to `dest`: the length of `payload`, then `payload`.
pub fn push_frame(payload: &[u8], dest: &mut Vec<u8>)
    ensures
        final(dest)@ == old(dest)@ + frame(payload@),
{
    let ghost start = dest@;
    push_length(payload.len() as u64, dest);
    let mut bytes = vstd::slice::slice_to_vec(payload);
    dest.append(&mut bytes);
    assert(dest@ =~= start + frame(payload@));
}

/// Appends to `dest` the frames of `payloads`, in order.
pub fn write_frames(payloads: &Vec<Vec<u8>>, dest: &mut Vec<u8>)
    ensures
        final(dest)@ == old(dest)@ + frames(payloads@.map_values(|b: Vec<u8>| b@)),
{
    let ghost ps = payloads@.map_values(|b: Vec<u8>| b@);
    let mut i: usize = 0;
    assert(ps.skip(0) =~= ps);
    while i < payloads.len()
        invariant
            i <= payloads@.len(),
            ps == payloads@.map_values(|b: Vec<u8>| b@),
            old(dest)@ + frames(ps) == dest@ + frames(ps.skip(i as int)),
        decreases payloads@.len() - i,
    {
        let ghost before = dest@;
        push_frame(payloads[i].as_slice(), dest);
        proof {
            lemma_frames_step(ps, i as int);
            assert(before + frames(ps.skip(i as int)) =~= dest@ + frames(ps.skip(i + 1)));
        }
        i = i + 1;
    }
    assert(ps.skip(i as int) =~= Seq::<Seq<u8>>::empty());
    assert(dest@ + frames(Seq::<Seq<u8>>::empty()) =~= dest@);
}

/// Writes a buffer as a stream of framed, independently compressed blocks.
pub struct BlockCompressor<C: Compressor> {
    pub compressor: C,
    pub block_size: usize,
}

impl<C: Compressor> BlockCompressor<C> {
    pub fn new(compressor: C, block_size: usize) -> (r: BlockCompressor<C>)
        ensures
            r.compressor == compressor,
            r.block_size == block_size,
    {
        BlockCompressor { compressor, block_size }
    }

    /// Appends to `dest` one frame for each block of `data`, in order: the
    /// length of the compressed block, then the compressed block. A block
    /// size of zero is refused before anything is written.
    pub fn compress(&mut self, data: &[u8], dest: &mut Vec<u8>) -> (r: Result<(), PipelineError>)
        ensures
            final(self).block_size == old(self).block_size,
            r is Err <==> old(self).block_size == 0,
            r is Err ==> r == Err::<(), PipelineError>(PipelineError::InvalidConfiguration)
                && final(dest)@ == old(dest)@,
            r is Ok ==> final(dest)@ == old(dest)@ + stream::<C>(
                data@,
                old(self).block_size as nat,
            ),
    {
        let s = self.block_size;
        if s == 0 {
            return Err(PipelineError::InvalidConfiguration);
        }
        let n = data.len();
        let mut lower: usize = 0;
        assert(data@.skip(0) =~= data@);
        while lower < n
            invariant
                s == self.block_size,
                s > 0,
                n == data@.len(),
                lower <= n,
                old(dest)@ + stream::<C>(data@, s as nat) == dest@ + stream::<C>(
                    data@.skip(lower as int),
                    s as nat,
                ),
            decreases n - lower,
        {
            let upper: usize = if s >= n - lower {
                n
            } else {
                lower + s
            };
            let chunk = vstd::slice::slice_subrange(data, lower, upper);
            let compressed = self.compressor.compress(chunk);
            let ghost before = dest@;
            push_frame(compressed.as_slice(), dest);
            proof {
                lemma_stream_step::<C>(data@, s as nat, lower as int, upper as int);
                assert(before + stream::<C>(data@.skip(lower as int), s as nat) =~= dest@
                    + stream::<C>(data@.skip(upper as int), s as nat));
            }
            lower = upper;
        }
        assert(data@.skip(n as int) =~= Seq::<u8>::empty());
        assert(dest@ + stream::<C>(Seq::<u8>::empty(), s as nat) =~= dest@);
        Ok(())
    }

    /// A reader of a stream that this writer's codec produced.
    pub fn get_block_decompressor<'a, 'b>(&'a mut self, source: &'b [u8]) -> (r:
        BlockDecompressor<'a, 'b, C>)
        ensures
            r.remaining() == source@,
    {
        BlockDecompressor::new(&mut self.compressor, source)
    }
}

/// Reads the frames of a stream one at a time, without decoding them.
pub struct FrameReader<'b> {
    source: &'b [u8],
    pos: usize,
}

impl<'b> FrameReader<'b> {
    /// The part of the stream that has not been read yet.
    pub closed spec fn remaining(&self) -> Seq<u8> {
        if self.pos <= self.source@.len() {
            self.source@.skip(self.pos as int)
        } else {
            Seq::empty()
        }
    }

    pub fn new(source: &'b [u8]) -> (r: FrameReader<'b>)
        ensures
            r.remaining() == source@,
    {
        let r = FrameReader { source, pos: 0 };
        assert(source@.skip(0) =~= source@);
        r
    }

    /// Reads the next frame and returns its payload. At the end of the
    /// stream, where no byte is left, there is no next frame. A frame cut
    /// short is an error, after which nothing is left to read.
    pub fn next_frame(&mut self) -> (r: Result<Option<Vec<u8>>, PipelineError>)
        ensures
            old(self).remaining().len() == 0 ==> r == Ok::<Option<Vec<u8>>, PipelineError>(None)
                && final(self).remaining().len() == 0,
            old(self).remaining().len() > 0 && !frame_complete(old(self).remaining()) ==> r
                == Err::<Option<Vec<u8>>, PipelineError>(PipelineError::TruncatedStream)
                && final(self).remaining().len() == 0,
            frame_complete(old(self).remaining()) ==> (r matches Ok(Some(v)) && v@ == frame_payload(
                old(self).remaining(),
            )) && final(self).remaining() == old(self).remaining().skip(
                frame_end(old(self).remaining()),
            ),
    {
        let len = self.source.len();
        if self.pos >= len {
            self.pos = len;
            return Ok(None);
        }
        let ghost rest = self.source@.skip(self.pos as int);
        let avail = len - self.pos;
        if avail < 8 {
            self.pos = len;
            return Err(PipelineError::TruncatedStream);
        }
        let size = read_length(self.source, self.pos);
        assert(self.source@.subrange(self.pos as int, self.pos + 8) =~= rest.take(8));
        if size > (avail - 8) as u64 {
            self.pos = len;
            return Err(PipelineError::TruncatedStream);
        }
        let start = self.pos + 8;
        let end = start + size as usize;
        let payload = vstd::slice::slice_to_vec(vstd::slice::slice_subrange(self.source, start, end));
        assert(payload@ =~= frame_payload(rest));
        self.pos = end;
        assert(self.source@.skip(end as int) =~= rest.skip(frame_end(rest)));
        Ok(Some(payload))
    }

    /// Marks the whole stream as read.
    fn exhaust(&mut self)
        ensures
            final(self).remaining().len() == 0,
    {
        self.pos = self.source.len();
    }
}

/// Reads a stream back one block at a time.
pub struct BlockDecompressor<'a, 'b, C: Compressor> {
    compressor: &'a mut C,
    frames: FrameReader<'b>,
}

impl<'a, 'b, C: Compressor> BlockDecompressor<'a, 'b, C> {
    /// The part of the stream that has not been read yet.
    pub closed spec fn remaining(&self) -> Seq<u8> {
        self.frames.remaining()
    }

    pub fn new(compressor: &'a mut C, source: &'b [u8]) -> (r: BlockDecompressor<'a, 'b, C>)
        ensures
            r.remaining() == source@,
    {
        BlockDecompressor { compressor, frames: FrameReader::new(source) }
    }

    /// Reads the next frame and decompresses its payload. At the end of the
    /// stream, where no byte is left, there is no next block. A frame cut
    /// short is an error, as is a payload that the codec cannot decode;
    /// after an error nothing is left to read.
    pub fn next_block(&mut self) -> (r: Result<Option<Vec<u8>>, PipelineError>)
        ensures
            old(self).remaining().len() == 0 ==> r == Ok::<Option<Vec<u8>>, PipelineError>(None)
                && final(self).remaining().len() == 0,
            old(self).remaining().len() > 0 && !frame_complete(old(self).remaining()) ==> r
                == Err::<Option<Vec<u8>>, PipelineError>(PipelineError::TruncatedStream)
                && final(self).remaining().len() == 0,
            frame_complete(old(self).remaining()) && C::decoding(
                frame_payload(old(self).remaining()),
            ) is None ==> r == Err::<Option<Vec<u8>>, PipelineError>(PipelineError::CorruptData)
                && final(self).remaining().len() == 0,
            frame_complete(old(self).remaining()) && C::decoding(
                frame_payload(old(self).remaining()),
            ) is Some ==> (r matches Ok(Some(v)) && Some(v@) == C::decoding(
                frame_payload(old(self).remaining()),
            )) && final(self).remaining() == old(self).remaining().skip(
                frame_end(old(self).remaining()),
            ),
    {
        match self.frames.next_frame() {
            Ok(Some(payload)) => {
                let decoded = self.compressor.decompress(payload.as_slice());
                if decoded.is_err() {
                    self.frames.exhaust();
                }
                match decoded {
                    Ok(v) => Ok(Some(v)),
                    Err(e) => Err(e),
                }
            },
            Ok(None) => Ok(None),
            Err(e) => Err(e),
        }
    }

    /// Reads every block that is left and joins them in order, or stops at
    /// the first error.
    pub fn read_to_end(&mut self) -> (r: Result<Vec<u8>, PipelineError>)
        ensures
            read_frames::<C>(old(self).remaining()) matches Ok(bs) ==> (r matches Ok(v) && v@
                == bs.flatten()),
            read_frames::<C>(old(self).remaining()) matches Err(e) ==> r == Err::<
                Vec<u8>,
                PipelineError,
            >(e),
            final(self).remaining().len() == 0,
    {
        let mut out: Vec<u8> = Vec::new();
        let ghost done: Seq<Seq<u8>> = Seq::empty();
        let ghost start = self.remaining();
        assert(done + Seq::<Seq<u8>>::empty() =~= done);
        loop
            invariant
                start == old(self).remaining(),
                out@ == done.flatten(),
                read_frames::<C>(self.remaining()) matches Ok(bs) ==> read_frames::<C>(start)
                    == Ok::<Seq<Seq<u8>>, PipelineError>(done + bs),
                read_frames::<C>(self.remaining()) matches Err(e) ==> read_frames::<C>(start)
                    == Err::<Seq<Seq<u8>>, PipelineError>(e),
            decreases self.remaining().len(),
        {
            let ghost before = self.remaining();
            match self.next_block() {
                Ok(Some(block)) => {
                    let ghost b = block@;
                    let mut block = block;
                    out.append(&mut block);
                    proof {
                        let after = self.remaining();
                        assert(read_frames::<C>(before) == match read_frames::<C>(after) {
                            Ok(bs) => Ok(seq![b] + bs),
                            Err(e) => Err(e),
                        });
                        if let Ok(bs) = read_frames::<C>(after) {
                            assert(done + (seq![b] + bs) =~= done.push(b) + bs);
                        }
                        done.lemma_flatten_push(b);
                        done = done.push(b);
                    }
                },
                Ok(None) => {
                    assert(done + Seq::<Seq<u8>>::empty() =~= done);
                    return Ok(out);
                },
                Err(e) => {
                    return Err(e);
                },
            }
        }
    }
}

} // verus!
