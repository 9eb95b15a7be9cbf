//! One streaming parser of any kind behind a single interface: the
//! single-byte parser, or a general one with default or custom newlines.

use vstd::prelude::*;

use crate::base::simd_index::Violation;
use crate::strategy::general::owned_rows_view;
use crate::strategy::general_streaming::{GeneralStream, GeneralStreamingParser, GeneralStreamingParserNewlines};
use crate::strategy::streaming::{BufferOverflow, StreamingParser};

verus! {

/// A streaming parser of one of the three kinds.
pub enum StreamingParserEnum {
    SingleByte(StreamingParser),
    General(GeneralStreamingParser),
    GeneralNewlines(GeneralStreamingParserNewlines),
}

impl StreamingParserEnum {
    /// The parser inside is well formed.
    pub open spec fn wf(&self) -> bool {
        match self {
            StreamingParserEnum::SingleByte(p) => p.wf(),
            StreamingParserEnum::General(p) => p.state().wf(),
            StreamingParserEnum::GeneralNewlines(p) => p.state().wf(),
        }
    }

    /// Rows waiting to be taken.
    pub open spec fn pending(&self) -> Seq<Seq<Seq<u8>>> {
        match self {
            StreamingParserEnum::SingleByte(p) => p.pending(),
            StreamingParserEnum::General(p) => p.state().pending(),
            StreamingParserEnum::GeneralNewlines(p) => p.state().pending(),
        }
    }

    /// Feed a chunk to the parser inside.
    pub fn feed(&mut self, chunk: &[u8]) -> (r: Result<(), BufferOverflow>)
        requires
            old(self).wf(),
            *old(self) matches StreamingParserEnum::SingleByte(p) ==> p.fed().len() + chunk@.len() <= usize::MAX,
        ensures
            match (*old(self), *final(self)) {
                (StreamingParserEnum::SingleByte(a), StreamingParserEnum::SingleByte(b)) => StreamingParser::feed_post(a, b, chunk@, r),
                (StreamingParserEnum::General(a), StreamingParserEnum::General(b)) => GeneralStream::feed_post(
                    a.state(),
                    b.state(),
                    chunk@,
                    r,
                ),
                (StreamingParserEnum::GeneralNewlines(a), StreamingParserEnum::GeneralNewlines(b)) => GeneralStream::feed_post(
                    a.state(),
                    b.state(),
                    chunk@,
                    r,
                ),
                _ => false,
            },
    {
        match self {
            StreamingParserEnum::SingleByte(p) => p.feed(chunk),
            StreamingParserEnum::General(p) => p.feed(chunk),
            StreamingParserEnum::GeneralNewlines(p) => p.feed(chunk),
        }
    }

    /// Set the cap on buffered bytes of the parser inside.
    pub fn set_max_buffer_size(&mut self, max: usize)
        requires
            old(self).wf(),
        ensures
            match (*old(self), *final(self)) {
                (StreamingParserEnum::SingleByte(a), StreamingParserEnum::SingleByte(b)) => StreamingParser::set_max_post(a, b, max),
                (StreamingParserEnum::General(a), StreamingParserEnum::General(b)) => GeneralStream::set_max_post(
                    a.state(),
                    b.state(),
                    max,
                ),
                (StreamingParserEnum::GeneralNewlines(a), StreamingParserEnum::GeneralNewlines(b)) => GeneralStream::set_max_post(
                    a.state(),
                    b.state(),
                    max,
                ),
                _ => false,
            },
    {
        match self {
            StreamingParserEnum::SingleByte(p) => p.set_max_buffer_size(max),
            StreamingParserEnum::General(p) => p.set_max_buffer_size(max),
            StreamingParserEnum::GeneralNewlines(p) => p.set_max_buffer_size(max),
        }
    }

    /// Take up to `max` complete rows from the parser inside.
    pub fn take_rows(&mut self, max: usize) -> (r: Vec<Vec<Vec<u8>>>)
        requires
            old(self).wf(),
        ensures
            match (*old(self), *final(self)) {
                (StreamingParserEnum::SingleByte(a), StreamingParserEnum::SingleByte(b)) => StreamingParser::take_post(
                    a,
                    b,
                    max,
                    owned_rows_view(r@),
                ),
                (StreamingParserEnum::General(a), StreamingParserEnum::General(b)) => GeneralStream::take_post(
                    a.state(),
                    b.state(),
                    max,
                    owned_rows_view(r@),
                ),
                (StreamingParserEnum::GeneralNewlines(a), StreamingParserEnum::GeneralNewlines(b)) => GeneralStream::take_post(
                    a.state(),
                    b.state(),
                    max,
                    owned_rows_view(r@),
                ),
                _ => false,
            },
    {
        match self {
            StreamingParserEnum::SingleByte(p) => p.take_rows(max),
            StreamingParserEnum::General(p) => p.take_rows(max),
            StreamingParserEnum::GeneralNewlines(p) => p.take_rows(max),
        }
    }

    /// Number of complete rows waiting to be taken.
    pub fn available_rows(&self) -> (r: usize)
        ensures
            r == self.pending().len(),
    {
        match self {
            StreamingParserEnum::SingleByte(p) => p.available_rows(),
            StreamingParserEnum::General(p) => p.available_rows(),
            StreamingParserEnum::GeneralNewlines(p) => p.available_rows(),
        }
    }

    /// Whether the parser inside holds bytes of an unfinished row.
    pub fn has_partial(&self) -> (r: bool)
        requires
            self.wf(),
        ensures
            r == match self {
                StreamingParserEnum::SingleByte(p) => p.scan_state().2 < p.fed().len(),
                StreamingParserEnum::General(p) => p.state().row_start() < p.state().fed().len(),
                StreamingParserEnum::GeneralNewlines(p) => p.state().row_start() < p.state().fed().len(),
            },
    {
        match self {
            StreamingParserEnum::SingleByte(p) => p.has_partial(),
            StreamingParserEnum::General(p) => p.has_partial(),
            StreamingParserEnum::GeneralNewlines(p) => p.has_partial(),
        }
    }

    /// Number of bytes the parser inside buffers.
    pub fn buffer_size(&self) -> (r: usize)
        requires
            self.wf(),
        ensures
            r == match self {
                StreamingParserEnum::SingleByte(p) => p.buffered(),
                StreamingParserEnum::General(p) => p.state().buffered(),
                StreamingParserEnum::GeneralNewlines(p) => p.state().buffered(),
            },
    {
        match self {
            StreamingParserEnum::SingleByte(p) => p.buffer_size(),
            StreamingParserEnum::General(p) => p.buffer_size(),
            StreamingParserEnum::GeneralNewlines(p) => p.buffer_size(),
        }
    }

    /// The first quoting violation seen so far; only the single-byte parser
    /// checks quoting.
    pub fn violation(&self) -> (r: Option<Violation>)
        requires
            self.wf(),
        ensures
            r == match self {
                StreamingParserEnum::SingleByte(p) => p.current_violation(),
                _ => None,
            },
    {
        match self {
            StreamingParserEnum::SingleByte(p) => p.violation(),
            _ => None,
        }
    }

    /// End of input for the parser inside.
    pub fn finalize(&mut self) -> (r: Vec<Vec<Vec<u8>>>)
        requires
            old(self).wf(),
        ensures
            match (*old(self), *final(self)) {
                (StreamingParserEnum::SingleByte(a), StreamingParserEnum::SingleByte(b)) => StreamingParser::finalize_post(
                    a,
                    b,
                    owned_rows_view(r@),
                ),
                (StreamingParserEnum::General(a), StreamingParserEnum::General(b)) => GeneralStream::finalize_post(
                    a.state(),
                    b.state(),
                    owned_rows_view(r@),
                ),
                (StreamingParserEnum::GeneralNewlines(a), StreamingParserEnum::GeneralNewlines(b)) => GeneralStream::finalize_post(
                    a.state(),
                    b.state(),
                    owned_rows_view(r@),
                ),
                _ => false,
            },
    {
        match self {
            StreamingParserEnum::SingleByte(p) => p.finalize(),
            StreamingParserEnum::General(p) => p.finalize(),
            StreamingParserEnum::GeneralNewlines(p) => p.finalize(),
        }
    }
}

} // verus!
