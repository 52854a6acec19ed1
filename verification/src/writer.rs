//! Delivery of raw bytes to a terminal stream, with cursor positioning done
//! through self-contained escape sequences: no cursor state is retained
//! between calls.

use vstd::prelude::*;

verus! {

/// The terminal sink that receives the emitted bytes, chosen once at
/// construction of the surrounding value and immutable thereafter.
#[derive(Clone, Copy, PartialEq, Eq, Structural, Debug)]
pub enum Writer {
    Stderr,
    Stdout,
    Tty,
}

/// `std::io::Error`, carried through as an opaque value: every rendering
/// operation reports failure with the error the stream handed back.
#[verifier::external_type_specification]
#[verifier::external_body]
pub struct ExIoError(std::io::Error);

/// The decimal digits of `n`, most significant first, as ASCII bytes.
pub open spec fn dec_digits(n: nat) -> Seq<u8>
    decreases n,
{
    if n < 10 {
        seq![(48 + n) as u8]
    } else {
        dec_digits(n / 10).push((48 + n % 10) as u8)
    }
}

/// The cursor-up escape sequence `ESC [ n A`, which moves the cursor up by
/// `n` lines.
pub open spec fn cursor_up_bytes(n: nat) -> Seq<u8> {
    seq![27u8, 91u8] + dec_digits(n) + seq![65u8]
}

/// The exact bytes that `print_at` emits for a given row offset and payload:
/// at offset zero, a carriage return followed by the payload; below the
/// current line, `position` newlines, the payload, and a cursor-up sequence
/// restoring the cursor to its original line.
pub open spec fn print_at_bytes(position: u16, buf: Seq<u8>) -> Seq<u8> {
    if position == 0 {
        seq![13u8] + buf
    } else {
        Seq::new(position as nat, |i: int| 10u8) + buf + cursor_up_bytes(position as nat)
    }
}

/// Appends the decimal rendering of `n` to `out`.
fn push_dec_digits(n: u16, out: &mut Vec<u8>)
    ensures
        final(out)@ == old(out)@ + dec_digits(n as nat),
    decreases n,
{
    if n < 10 {
        out.push(48 + n as u8);
        assert(out@ =~= old(out)@ + dec_digits(n as nat));
    } else {
        push_dec_digits(n / 10, out);
        out.push(48 + (n % 10) as u8);
        assert(out@ =~= old(out)@ + dec_digits(n as nat));
    }
}

/// Appends the whole of `buf` to `out`.
pub(crate) fn append_bytes(out: &mut Vec<u8>, buf: &[u8])
    ensures
        final(out)@ == old(out)@ + buf@,
{
    let n = buf.len();
    for i in 0..n
        invariant
            n == buf@.len(),
            out@ == old(out)@ + buf@.subrange(0, i as int),
    {
        out.push(buf[i]);
        assert(out@ =~= old(out)@ + buf@.subrange(0, i + 1));
    }
    assert(out@ =~= old(out)@ + buf@);
}

/// Builds the byte sequence that positions output `position` rows below the
/// cursor and restores it, per `print_at_bytes`.
pub fn encode_print_at(position: u16, buf: &[u8]) -> (r: Vec<u8>)
    ensures
        r@ == print_at_bytes(position, buf@),
{
    let mut out: Vec<u8> = Vec::new();
    if position == 0 {
        out.push(13);
        append_bytes(&mut out, buf);
        assert(out@ =~= print_at_bytes(position, buf@));
    } else {
        for i in 0..position
            invariant
                out@ == Seq::new(i as nat, |k: int| 10u8),
        {
            out.push(10);
            assert(out@ =~= Seq::new(i as nat + 1, |k: int| 10u8));
        }
        append_bytes(&mut out, buf);
        out.push(27);
        out.push(91);
        push_dec_digits(position, &mut out);
        out.push(65);
        assert(out@ =~= print_at_bytes(position, buf@));
    }
    out
}

/// Relies on `std::io::Write::write_all` on the standard error stream: writes
/// the whole buffer or reports the stream's error.
#[verifier::external_body]
fn stderr_write_all(buf: &[u8]) -> (r: Result<(), std::io::Error>) {
    std::io::Write::write_all(&mut std::io::stderr(), buf)
}

/// Relies on `std::io::Write::flush` on the standard error stream.
#[verifier::external_body]
fn stderr_flush() -> (r: Result<(), std::io::Error>) {
    std::io::Write::flush(&mut std::io::stderr())
}

/// Relies on `std::io::Write::write_all` on the standard output stream:
/// writes the whole buffer or reports the stream's error.
#[verifier::external_body]
fn stdout_write_all(buf: &[u8]) -> (r: Result<(), std::io::Error>) {
    std::io::Write::write_all(&mut std::io::stdout(), buf)
}

/// Relies on `std::io::Write::flush` on the standard output stream.
#[verifier::external_body]
fn stdout_flush() -> (r: Result<(), std::io::Error>) {
    std::io::Write::flush(&mut std::io::stdout())
}

/// Relies on `std::io::Error::from` to build the error reported when the
/// chosen sink cannot be served.
#[verifier::external_body]
fn unsupported_sink_error() -> (r: std::io::Error) {
    std::io::Error::from(std::io::ErrorKind::Unsupported)
}

impl Writer {
    /// Writes the whole buffer to the chosen sink, then flushes it.
    ///
    /// Opening the controlling terminal device takes facilities this verified
    /// core keeps out; a `Tty` writer therefore always reports an error here,
    /// and the surrounding application serves that device itself.
    pub fn print(&self, buf: &[u8]) -> (r: Result<(), std::io::Error>)
        ensures
            *self == Writer::Tty ==> r is Err,
    {
        match self {
            Writer::Stderr => {
                match stderr_write_all(buf) {
                    Ok(()) => stderr_flush(),
                    Err(e) => Err(e),
                }
            },
            Writer::Stdout => {
                match stdout_write_all(buf) {
                    Ok(()) => stdout_flush(),
                    Err(e) => Err(e),
                }
            },
            Writer::Tty => Err(unsupported_sink_error()),
        }
    }

    /// Writes `buf` at `position` rows below the current cursor line and
    /// restores the cursor, emitting exactly the bytes of `print_at_bytes`.
    pub fn print_at(&self, position: u16, buf: &[u8]) -> (r: Result<(), std::io::Error>)
        ensures
            *self == Writer::Tty ==> r is Err,
    {
        let bytes = encode_print_at(position, buf);
        self.print(bytes.as_slice())
    }
}

} // verus!
