//! The codec abstraction: a pair of transforms on byte sequences, with the
//! round-trip guarantee that every block the pipeline relies on.
use crate::error::PipelineError;
use vstd::prelude::*;

verus! {

/// A compression strategy, chosen by the caller when a pipeline is built.
///
/// `encoding` and `decoding` say what the two operations compute. An
/// implementation promises that decoding the encoding of any block gives that
/// block back.
pub trait Compressor {
    /// The bytes that `compress` produces from `data`.
    spec fn encoding(data: Seq<u8>) -> Seq<u8>;

    /// The block that `decompress` recovers from `data`, or `None` where `data`
    /// is no valid encoding.
    spec fn decoding(data: Seq<u8>) -> Option<Seq<u8>>;

    /// Decoding the encoding of a block gives that block back.
    proof fn lemma_lossless(data: Seq<u8>)
        ensures
            Self::decoding(Self::encoding(data)) == Some(data),
    ;

    fn compress(&mut self, data: &[u8]) -> (r: Vec<u8>)
        ensures
            r@ == Self::encoding(data@),
    ;

    fn decompress(&mut self, data: &[u8]) -> (r: Result<Vec<u8>, PipelineError>)
        ensures
            match Self::decoding(data@) {
                Some(x) => r matches Ok(v) && v@ == x,
                None => r == Err::<Vec<u8>, PipelineError>(PipelineError::CorruptData),
            },
    ;
}

/// The passthrough codec: both operations are the identity.
pub struct NoCompression;

impl NoCompression {
    pub fn new() -> (r: NoCompression) {
        NoCompression
    }
}

impl Compressor for NoCompression {
    open spec fn encoding(data: Seq<u8>) -> Seq<u8> {
        data
    }

    open spec fn decoding(data: Seq<u8>) -> Option<Seq<u8>> {
        Some(data)
    }

    proof fn lemma_lossless(data: Seq<u8>) {
    }

    fn compress(&mut self, data: &[u8]) -> (r: Vec<u8>) {
        vstd::slice::slice_to_vec(data)
    }

    fn decompress(&mut self, data: &[u8]) -> (r: Result<Vec<u8>, PipelineError>) {
        Ok(vstd::slice::slice_to_vec(data))
    }
}

} // verus!
