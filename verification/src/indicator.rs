//! The progress indicator as the row manager sees it: a display line, a row
//! slot, and a handful of flags the manager reads and rewrites.  Producing
//! the line (percentages, rates, formatting) is the caller's business; the
//! manager only asks whether the indicator is finished and where it stands.

use crate::writer::Writer;
use vstd::prelude::*;

verus! {

/// The mathematical model of an [`Indicator`].
#[verifier::ext_equal]
pub ghost struct IndicatorV {
    /// The row slot the indicator occupies while drawn.
    pub position: u16,
    /// True while the indicator is not drawn.
    pub disable: bool,
    /// Whether the finished line stays in the scroll-back on completion.
    pub leave: bool,
    /// Whether the indicator has finished.
    pub done: bool,
    /// The current display line.
    pub text: Seq<u8>,
    /// The sink the indicator draws to.
    pub writer: Writer,
}

/// One tracked progress indicator.
///
/// The fields are deliberately open: the manager's correctness depends on
/// rewriting `position` and `disable` directly, and the caller mutates
/// `done` and `text` as its work advances before calling
/// [`notify`](crate::RowManager::notify).
pub struct Indicator {
    /// The row slot the indicator occupies while drawn; stale once hidden.
    pub position: u16,
    /// True while the indicator is not drawn.
    pub disable: bool,
    /// Whether the finished line stays in the scroll-back on completion.
    pub leave: bool,
    /// Whether the indicator has finished.
    pub done: bool,
    /// The current display line, as the bytes to draw.
    pub text: Vec<u8>,
    /// The sink the indicator draws to.
    pub writer: Writer,
}

impl View for Indicator {
    type V = IndicatorV;

    open spec fn view(&self) -> IndicatorV {
        IndicatorV {
            position: self.position,
            disable: self.disable,
            leave: self.leave,
            done: self.done,
            text: self.text@,
            writer: self.writer,
        }
    }
}

impl Indicator {
    /// A fresh, unfinished indicator drawing `text` to `writer`, kept in the
    /// scroll-back on completion when `leave` is set.
    pub fn new(writer: Writer, leave: bool, text: Vec<u8>) -> (r: Indicator)
        ensures
            r@.position == 0,
            !r@.disable,
            r@.leave == leave,
            !r@.done,
            r@.text == text@,
            r@.writer == writer,
    {
        Indicator { position: 0, disable: false, leave, done: false, text, writer }
    }

    /// Whether the indicator has finished; a pure predicate.
    pub fn completed(&self) -> (r: bool)
        ensures
            r == self@.done,
    {
        self.done
    }

    /// The current display line.
    pub fn render(&self) -> (r: Vec<u8>)
        ensures
            r@ == self@.text,
    {
        let mut out: Vec<u8> = Vec::new();
        let n = self.text.len();
        for i in 0..n
            invariant
                n == self.text@.len(),
                out@ == self.text@.subrange(0, i as int),
        {
            out.push(self.text[i]);
            assert(out@ =~= self.text@.subrange(0, i + 1));
        }
        assert(out@ =~= self.text@);
        out
    }

    /// Erases the indicator's current line: draws the erase-line escape
    /// sequence `ESC [ 2 K` at the indicator's position.
    pub fn clear(&self) -> (r: Result<(), std::io::Error>)
        ensures
            self@.writer == Writer::Tty ==> r is Err,
    {
        let mut b: Vec<u8> = Vec::new();
        b.push(27);
        b.push(91);
        b.push(50);
        b.push(75);
        self.writer.print_at(self.position, b.as_slice())
    }

    /// Redraws the indicator's current line at its current position.
    pub fn refresh(&self) -> (r: Result<(), std::io::Error>)
        ensures
            self@.writer == Writer::Tty ==> r is Err,
    {
        self.writer.print_at(self.position, self.text.as_slice())
    }
}

} // verus!
