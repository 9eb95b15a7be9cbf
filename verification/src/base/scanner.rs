//! Byte-level helpers: separator membership, and the quote state machine the
//! streaming parsers carry across chunks.

use vstd::prelude::*;

use super::simd_index::Violation;

verus! {

/// Quote state of a byte-at-a-time scan, with the first violation of the
/// quoting rules seen so far.
#[derive(Copy, Clone)]
pub struct QuoteState {
    pub in_quotes: bool,
    pub at_field_start: bool,
    pub after_closing_quote: bool,
    pub violation: Option<Violation>,
}

/// The state after an escape at `pos`; `doubled` (meaningful only inside
/// quotes) means a second escape follows, which keeps the field quoted.
pub open spec fn on_escape_spec(q: QuoteState, pos: usize, doubled: bool) -> QuoteState {
    if q.in_quotes {
        if doubled {
            q
        } else {
            QuoteState { in_quotes: false, after_closing_quote: true, ..q }
        }
    } else {
        QuoteState {
            in_quotes: true,
            at_field_start: false,
            after_closing_quote: false,
            violation: if !q.at_field_start && q.violation is None {
                Some(Violation::UnexpectedQuote(pos))
            } else {
                q.violation
            },
        }
    }
}

/// The state after a separator or row terminator.
pub open spec fn on_delimiter_spec(q: QuoteState) -> QuoteState {
    QuoteState { at_field_start: true, after_closing_quote: false, ..q }
}

/// The state after an ordinary data byte at `pos`.
pub open spec fn on_data_spec(q: QuoteState, pos: usize) -> QuoteState {
    QuoteState {
        at_field_start: false,
        after_closing_quote: false,
        violation: if q.after_closing_quote && q.violation is None {
            Some(Violation::TrailingGarbage(pos))
        } else {
            q.violation
        },
        ..q
    }
}

/// The violation at the end of input `end`: an open quote there is one.
pub open spec fn finish_spec(q: QuoteState, end: usize) -> Option<Violation> {
    if q.in_quotes && q.violation is None {
        Some(Violation::UnterminatedQuote(end))
    } else {
        q.violation
    }
}

/// The state at the start of input.
pub open spec fn initial_quote_state() -> QuoteState {
    QuoteState { in_quotes: false, at_field_start: true, after_closing_quote: false, violation: None }
}

impl QuoteState {
    /// The state at the start of input: not quoted, at a field start.
    pub fn new() -> (r: Self)
        ensures
            r == initial_quote_state(),
    {
        QuoteState { in_quotes: false, at_field_start: true, after_closing_quote: false, violation: None }
    }

    /// Inside a quoted field.
    pub fn in_quotes(self) -> (r: bool)
        ensures
            r == self.in_quotes,
    {
        self.in_quotes
    }

    /// First violation seen so far.
    pub fn violation(self) -> (r: Option<Violation>)
        ensures
            r == self.violation,
    {
        self.violation
    }

    /// Consume an escape at `pos`.
    pub fn on_escape(&mut self, pos: usize, doubled: bool)
        ensures
            *final(self) == on_escape_spec(*old(self), pos, doubled),
    {
        if self.in_quotes {
            if !doubled {
                self.in_quotes = false;
                self.after_closing_quote = true;
            }
        } else {
            if !self.at_field_start && self.violation.is_none() {
                self.violation = Some(Violation::UnexpectedQuote(pos));
            }
            self.in_quotes = true;
            self.at_field_start = false;
            self.after_closing_quote = false;
        }
    }

    /// Consume a separator or row terminator.
    pub fn on_delimiter(&mut self)
        ensures
            *final(self) == on_delimiter_spec(*old(self)),
    {
        self.at_field_start = true;
        self.after_closing_quote = false;
    }

    /// Consume a data byte at `pos`.
    pub fn on_data(&mut self, pos: usize)
        ensures
            *final(self) == on_data_spec(*old(self), pos),
    {
        if self.after_closing_quote && self.violation.is_none() {
            self.violation = Some(Violation::TrailingGarbage(pos));
        }
        self.at_field_start = false;
        self.after_closing_quote = false;
    }

    /// The violation of an input that ends at `end` in this state.
    pub fn finish(self, end: usize) -> (r: Option<Violation>)
        ensures
            r == finish_spec(self, end),
    {
        if self.in_quotes && self.violation.is_none() {
            Some(Violation::UnterminatedQuote(end))
        } else {
            self.violation
        }
    }
}

/// Whether `byte` is one of `separators`.
pub fn is_separator(byte: u8, separators: &[u8]) -> (r: bool)
    ensures
        r == separators@.contains(byte),
{
    let n = separators.len();
    if n == 0 {
        false
    } else if n == 1 {
        byte == separators[0]
    } else if n == 2 {
        byte == separators[0] || byte == separators[1]
    } else if n == 3 {
        byte == separators[0] || byte == separators[1] || byte == separators[2]
    } else {
        let mut i: usize = 0;
        while i < n
            invariant
                n == separators@.len(),
                0 <= i <= n,
                forall|k: int| 0 <= k < i ==> separators@[k] != byte,
            decreases n - i,
        {
            if separators[i] == byte {
                assert(separators@[i as int] == byte);
                return true;
            }
            i += 1;
        }
        false
    }
}

} // verus!
