//! The stream format as mathematics: how a buffer is cut into blocks, how a
//! payload is framed, how a stream is parsed back into payloads, and the laws
//! that tie these together.
use crate::codec::Compressor;
use crate::error::PipelineError;
use crate::length::{length_bytes, length_value, lemma_length_round_trip};
use vstd::arithmetic::div_mod::{
    lemma_div_plus_one, lemma_fundamental_div_mod_converse, lemma_mod_sub_multiples_vanish,
};
use vstd::prelude::*;

verus! {

/// The blocks of `data` for block size `s`, left to right: each holds `s`
/// bytes but the last, which holds what is left.
pub open spec fn blocks(data: Seq<u8>, s: nat) -> Seq<Seq<u8>>
    decreases data.len(),
{
    if s == 0 || data.len() == 0 {
        Seq::empty()
    } else if data.len() <= s {
        seq![data]
    } else {
        seq![data.take(s as int)] + blocks(data.skip(s as int), s)
    }
}

/// What a codec makes of each block of `data`.
pub open spec fn encoded_blocks<C: Compressor>(data: Seq<u8>, s: nat) -> Seq<Seq<u8>> {
    encode_all::<C>(blocks(data, s))
}

/// One frame: the length field, then the payload.
pub open spec fn frame(payload: Seq<u8>) -> Seq<u8> {
    length_bytes(payload.len() as u64) + payload
}

/// The frames of `payloads`, back to back.
pub open spec fn frames(payloads: Seq<Seq<u8>>) -> Seq<u8>
    decreases payloads.len(),
{
    if payloads.len() == 0 {
        Seq::empty()
    } else {
        frame(payloads[0]) + frames(payloads.drop_first())
    }
}

/// The stream that a writer with codec `C` and block size `s` makes of `data`.
pub open spec fn stream<C: Compressor>(data: Seq<u8>, s: nat) -> Seq<u8> {
    frames(encoded_blocks::<C>(data, s))
}

/// Every payload's length can be written in the length field.
pub open spec fn payloads_fit(payloads: Seq<Seq<u8>>) -> bool {
    forall|i: int| 0 <= i < payloads.len() ==> #[trigger] payloads[i].len() <= u64::MAX
}

/// `st` starts with a whole frame: a length field and as many bytes as it says.
pub open spec fn frame_complete(st: Seq<u8>) -> bool {
    st.len() >= 8 && st.len() - 8 >= length_value(st.take(8))
}

/// Where the frame at the start of `st` ends.
pub open spec fn frame_end(st: Seq<u8>) -> int {
    8 + length_value(st.take(8))
}

/// The payload of the frame at the start of `st`.
pub open spec fn frame_payload(st: Seq<u8>) -> Seq<u8> {
    st.subrange(8, frame_end(st))
}

/// The payloads of the frames of `st`, or `None` where `st` stops inside a
/// frame.
pub open spec fn parse_frames(st: Seq<u8>) -> Option<Seq<Seq<u8>>>
    decreases st.len(),
{
    if st.len() == 0 {
        Some(Seq::empty())
    } else if !frame_complete(st) {
        None
    } else {
        match parse_frames(st.skip(frame_end(st))) {
            Some(ps) => Some(seq![frame_payload(st)] + ps),
            None => None,
        }
    }
}

/// What a reader with codec `C` yields when drained over `st`: the decoded
/// blocks in order, or the error at which it stops.
pub open spec fn read_frames<C: Compressor>(st: Seq<u8>) -> Result<Seq<Seq<u8>>, PipelineError>
    decreases st.len(),
{
    if st.len() == 0 {
        Ok(Seq::empty())
    } else if !frame_complete(st) {
        Err(PipelineError::TruncatedStream)
    } else {
        match C::decoding(frame_payload(st)) {
            None => Err(PipelineError::CorruptData),
            Some(b) => match read_frames::<C>(st.skip(frame_end(st))) {
                Ok(bs) => Ok(seq![b] + bs),
                Err(e) => Err(e),
            },
        }
    }
}

/// What codec `C` makes of each of `bs`.
pub open spec fn encode_all<C: Compressor>(bs: Seq<Seq<u8>>) -> Seq<Seq<u8>> {
    bs.map_values(|b: Seq<u8>| C::encoding(b))
}

/// The offsets at which a frame of `payloads` starts or the stream ends.
pub open spec fn frame_boundary(payloads: Seq<Seq<u8>>, k: int) -> bool {
    exists|i: int| 0 <= i <= payloads.len() && k == #[trigger] frames(payloads.take(i)).len()
}

/// A stream starts with its first frame, and the parse of that frame reads
/// back the first payload.
proof fn lemma_first_frame(payloads: Seq<Seq<u8>>)
    requires
        payloads.len() > 0,
        payloads[0].len() <= u64::MAX,
    ensures
        frame_complete(frames(payloads)),
        frame_end(frames(payloads)) == 8 + payloads[0].len(),
        frame_payload(frames(payloads)) == payloads[0],
        frames(payloads).skip(frame_end(frames(payloads))) == frames(payloads.drop_first()),
{
    let st = frames(payloads);
    let p = payloads[0];
    lemma_length_round_trip(p.len() as u64);
    assert(st.take(8) =~= length_bytes(p.len() as u64));
    assert(frame_payload(st) =~= p);
    assert(st.skip(8 + p.len() as int) =~= frames(payloads.drop_first()));
}

/// Parsing the frames of a sequence of payloads gives back those payloads.
pub proof fn lemma_parse_frames(payloads: Seq<Seq<u8>>)
    requires
        payloads_fit(payloads),
    ensures
        parse_frames(frames(payloads)) == Some(payloads),
    decreases payloads.len(),
{
    if payloads.len() > 0 {
        lemma_fit_rest(payloads);
        lemma_first_frame(payloads);
        let rest = payloads.drop_first();
        lemma_parse_frames(rest);
        assert(seq![payloads[0]] + rest =~= payloads);
    } else {
        assert(frames(payloads) =~= Seq::<u8>::empty());
    }
}

proof fn lemma_fit_rest(payloads: Seq<Seq<u8>>)
    requires
        payloads.len() > 0,
        payloads_fit(payloads),
    ensures
        payloads[0].len() <= u64::MAX,
        payloads_fit(payloads.drop_first()),
{
    assert(payloads[0].len() <= u64::MAX);
    let rest = payloads.drop_first();
    assert forall|i: int| 0 <= i < rest.len() implies #[trigger] rest[i].len() <= u64::MAX by {
        assert(rest[i] == payloads[i + 1]);
    }
}

/// Draining a reader over the frames of encoded blocks yields those blocks.
pub proof fn lemma_read_frames<C: Compressor>(bs: Seq<Seq<u8>>)
    requires
        payloads_fit(encode_all::<C>(bs)),
    ensures
        read_frames::<C>(frames(encode_all::<C>(bs))) == Ok::<Seq<Seq<u8>>, PipelineError>(bs),
    decreases bs.len(),
{
    let ps = encode_all::<C>(bs);
    if bs.len() > 0 {
        let st = frames(ps);
        lemma_fit_rest(ps);
        lemma_first_frame(ps);
        assert(ps[0] == C::encoding(bs[0]));
        C::lemma_lossless(bs[0]);
        assert(C::decoding(frame_payload(st)) == Some(bs[0]));
        assert(ps.drop_first() =~= encode_all::<C>(bs.drop_first()));
        lemma_read_frames::<C>(bs.drop_first());
        assert(read_frames::<C>(st.skip(frame_end(st))) == Ok::<Seq<Seq<u8>>, PipelineError>(
            bs.drop_first(),
        ));
        assert(seq![bs[0]] + bs.drop_first() =~= bs);
    } else {
        assert(frames(ps) =~= Seq::<u8>::empty());
        assert(bs =~= Seq::<Seq<u8>>::empty());
    }
}

/// Joining the blocks of `data` in order gives `data`.
pub proof fn lemma_blocks_flatten(data: Seq<u8>, s: nat)
    requires
        s > 0,
    ensures
        blocks(data, s).flatten() == data,
    decreases data.len(),
{
    if data.len() == 0 {
        assert(blocks(data, s).flatten() =~= data);
    } else if data.len() <= s {
        blocks(data, s).lemma_flatten_one_element();
    } else {
        let bs = blocks(data, s);
        lemma_blocks_flatten(data.skip(s as int), s);
        assert(bs.drop_first() =~= blocks(data.skip(s as int), s));
        assert(data.take(s as int) + data.skip(s as int) =~= data);
    }
}

/// Round trip: for every codec and every positive block size, a reader
/// drained over the stream written from `data` yields the blocks of `data`
/// in order, and those blocks joined in order are `data` again.
pub proof fn lemma_round_trip<C: Compressor>(data: Seq<u8>, s: nat)
    requires
        s > 0,
        payloads_fit(encoded_blocks::<C>(data, s)),
    ensures
        read_frames::<C>(stream::<C>(data, s)) == Ok::<Seq<Seq<u8>>, PipelineError>(
            blocks(data, s),
        ),
        blocks(data, s).flatten() == data,
{
    lemma_read_frames::<C>(blocks(data, s));
    lemma_blocks_flatten(data, s);
}

/// How many blocks a buffer of `n` bytes makes for block size `s`: `n / s`
/// rounded up.
pub open spec fn block_count(n: nat, s: nat) -> nat {
    if n == 0 {
        0
    } else {
        ((n + s - 1) as int / s as int) as nat
    }
}

/// Where block `i` of a buffer of `n` bytes ends for block size `s`.
pub open spec fn block_end(n: int, s: int, i: int) -> int {
    if (i + 1) * s <= n {
        (i + 1) * s
    } else {
        n
    }
}

/// A buffer makes `len / s` blocks, rounded up; an empty one makes none. So
/// does the stream written from it make that many frames.
pub proof fn lemma_block_count<C: Compressor>(data: Seq<u8>, s: nat)
    requires
        s > 0,
        payloads_fit(encoded_blocks::<C>(data, s)),
    ensures
        blocks(data, s).len() == block_count(data.len(), s),
        read_frames::<C>(stream::<C>(data, s)) matches Ok(bs) && bs.len() == block_count(
            data.len(),
            s,
        ),
{
    lemma_blocks_len(data, s);
    lemma_round_trip::<C>(data, s);
}

proof fn lemma_blocks_len(data: Seq<u8>, s: nat)
    requires
        s > 0,
    ensures
        blocks(data, s).len() == block_count(data.len(), s),
    decreases data.len(),
{
    let n = data.len() as int;
    if n == 0 {
    } else if n <= s {
        lemma_fundamental_div_mod_converse(n + s - 1, s as int, 1, n - 1);
    } else {
        lemma_blocks_len(data.skip(s as int), s);
        lemma_div_plus_one(n - 1, s as int);
        assert(s + (n - 1) == n + s - 1);
    }
}

/// Every block but the last holds exactly `s` bytes; the last holds
/// `len % s` bytes, or `s` where `s` divides the length.
pub proof fn lemma_block_sizes(data: Seq<u8>, s: nat)
    requires
        s > 0,
    ensures
        forall|i: int|
            0 <= i < blocks(data, s).len() - 1 ==> #[trigger] blocks(data, s)[i].len() == s,
        blocks(data, s).len() > 0 ==> blocks(data, s).last().len() == if data.len() % s == 0 {
            s
        } else {
            data.len() % s
        },
    decreases data.len(),
{
    let n = data.len() as int;
    let bs = blocks(data, s);
    if n == 0 {
    } else if n <= s {
        if n < s {
            lemma_fundamental_div_mod_converse(n, s as int, 0, n);
        } else {
            lemma_fundamental_div_mod_converse(n, s as int, 1, 0);
        }
    } else {
        let rest = data.skip(s as int);
        lemma_block_sizes(rest, s);
        lemma_blocks_len(rest, s);
        lemma_mod_sub_multiples_vanish(n, s as int);
        assert(-(s as int) + n == rest.len());
        assert forall|i: int| 0 <= i < bs.len() - 1 implies #[trigger] bs[i].len() == s by {
            if i > 0 {
                assert(bs[i] == blocks(rest, s)[i - 1]);
            }
        }
        assert(bs.last() == blocks(rest, s).last());
    }
}

proof fn lemma_block_position(data: Seq<u8>, s: nat, i: int)
    requires
        s > 0,
        0 <= i < blocks(data, s).len(),
    ensures
        i * s < data.len(),
        blocks(data, s)[i] == data.subrange(i * s, block_end(data.len() as int, s as int, i)),
    decreases data.len(),
{
    let n = data.len() as int;
    let bs = blocks(data, s);
    if i == 0 {
        assert((0 + 1) * s == s && 0 * s == 0) by (nonlinear_arith);
        if n <= s {
            assert(bs[0] =~= data.subrange(0, n));
        } else {
            assert(bs[0] =~= data.subrange(0, s as int));
        }
    } else {
        let rest = data.skip(s as int);
        let j = i - 1;
        assert(n > s);
        assert(bs[i] == blocks(rest, s)[j]);
        lemma_block_position(rest, s, j);
        assert(j * s + s == i * s && (j + 1) * s + s == (i + 1) * s) by (nonlinear_arith)
            requires
                j == i - 1,
        ;
        assert(blocks(rest, s)[j] =~= data.subrange(i * s, block_end(n, s as int, i)));
    }
}

/// Block `i` covers bytes `i * s` up to `(i + 1) * s` of `data`, or up to
/// its end where that comes first.
pub proof fn lemma_block_positions(data: Seq<u8>, s: nat)
    requires
        s > 0,
    ensures
        forall|i: int|
            0 <= i < blocks(data, s).len() ==> #[trigger] blocks(data, s)[i] == data.subrange(
                i * s,
                block_end(data.len() as int, s as int, i),
            ),
{
    assert forall|i: int| 0 <= i < blocks(data, s).len() implies #[trigger] blocks(data, s)[i]
        == data.subrange(i * s, block_end(data.len() as int, s as int, i)) by {
        lemma_block_position(data, s, i);
    }
}

/// Cutting the frames of encoded blocks anywhere but at a frame boundary
/// makes a reader stop with a truncated stream.
proof fn lemma_cut_frames<C: Compressor>(bs: Seq<Seq<u8>>, k: int)
    requires
        payloads_fit(encode_all::<C>(bs)),
        0 <= k <= frames(encode_all::<C>(bs)).len(),
        !frame_boundary(encode_all::<C>(bs), k),
    ensures
        read_frames::<C>(frames(encode_all::<C>(bs)).take(k)) == Err::<Seq<Seq<u8>>, PipelineError>(
            PipelineError::TruncatedStream,
        ),
    decreases bs.len(),
{
    let payloads = encode_all::<C>(bs);
    assert(frames(payloads.take(0)).len() == 0) by {
        assert(payloads.take(0) =~= Seq::<Seq<u8>>::empty());
    }
    if payloads.len() == 0 || k == 0 {
        assert(frame_boundary(payloads, 0));
        assert(k == 0 || frames(payloads).len() == 0);
        assert(false);
    } else {
        let st = frames(payloads);
        let t = st.take(k);
        let p = payloads[0];
        let rest = payloads.drop_first();
        let f: int = 8 + p.len() as int;
        lemma_fit_rest(payloads);
        lemma_first_frame(payloads);
        if k >= 8 {
            assert(t.take(8) =~= st.take(8));
        }
        if k == f {
            assert(payloads.take(1) =~= seq![p]);
            assert(payloads.take(1).drop_first() =~= Seq::<Seq<u8>>::empty());
            lemma_length_round_trip(p.len() as u64);
            assert(frames(payloads.take(1).drop_first()) =~= Seq::<u8>::empty());
            assert(frames(payloads.take(1)) =~= frame(p));
            assert(frame_boundary(payloads, 1));
        } else if k > f {
            if frame_boundary(rest, k - f) {
                let j = choose|j: int|
                    0 <= j <= rest.len() && k - f == #[trigger] frames(rest.take(j)).len();
                assert(payloads.take(j + 1).drop_first() =~= rest.take(j));
                assert(frames(payloads.take(j + 1)).len() == k);
                assert(frame_boundary(payloads, j + 1));
            }
            assert(t.skip(f) =~= frames(rest).take(k - f));
            assert(frame_payload(t) =~= p);
            C::lemma_lossless(bs[0]);
            assert(rest =~= encode_all::<C>(bs.drop_first()));
            lemma_cut_frames::<C>(bs.drop_first(), k - f);
        }
    }
}

/// Truncation: a stream cut at any offset that is no frame boundary makes the
/// reader fail rather than yield a short block.
pub proof fn lemma_truncation_detected<C: Compressor>(data: Seq<u8>, s: nat, k: int)
    requires
        s > 0,
        payloads_fit(encoded_blocks::<C>(data, s)),
        0 <= k <= stream::<C>(data, s).len(),
        !frame_boundary(encoded_blocks::<C>(data, s), k),
    ensures
        read_frames::<C>(stream::<C>(data, s).take(k)) == Err::<Seq<Seq<u8>>, PipelineError>(
            PipelineError::TruncatedStream,
        ),
{
    lemma_cut_frames::<C>(blocks(data, s), k);
}

} // verus!
