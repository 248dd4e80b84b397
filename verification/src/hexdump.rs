//! A classic hex dump: sixteen bytes per line, each line carrying its
//! decimal byte offset, the bytes in upper-case hexadecimal, and their
//! printable characters, with a dot for anything unprintable.
use vstd::prelude::*;

verus! {

/// The digit character of a value below sixteen, upper case.
pub open spec fn spec_hex_digit(n: u8) -> u8 {
    if n < 10 {
        (48 + n) as u8
    } else {
        (55 + n) as u8
    }
}

/// The decimal digit characters of `n`, most significant first; empty for
/// zero.
pub open spec fn dec_digits(n: nat) -> Seq<u8>
    decreases n,
{
    if n == 0 {
        Seq::empty()
    } else {
        dec_digits(n / 10).push((48 + n % 10) as u8)
    }
}

/// The decimal field of a line: the offset, zero-padded to four digits.
pub open spec fn padded_offset(n: nat) -> Seq<u8> {
    let d = if n == 0 {
        seq![48u8]
    } else {
        dec_digits(n)
    };
    if d.len() >= 4 {
        d
    } else {
        Seq::new((4 - d.len()) as nat, |i: int| 48u8) + d
    }
}

/// The hexadecimal field: two digits and a space for each byte.
pub open spec fn hex_bytes(part: Seq<u8>) -> Seq<u8>
    decreases part.len(),
{
    if part.len() == 0 {
        Seq::empty()
    } else {
        hex_bytes(part.drop_last()) + seq![
            spec_hex_digit(part.last() / 16),
            spec_hex_digit(part.last() % 16),
            32u8,
        ]
    }
}

/// The character field: each byte as itself when printable, a dot
/// otherwise.
pub open spec fn ascii_view(part: Seq<u8>) -> Seq<u8> {
    part.map_values(
        |b: u8|
            if 33 <= b <= 126 {
                b
            } else {
                46u8
            },
    )
}

/// One full line for the bytes `part` at line number `line`: the offset,
/// a colon, the hexadecimal field padded out to sixteen slots, and the
/// character field.
pub open spec fn hex_line(line: nat, part: Seq<u8>) -> Seq<u8> {
    padded_offset(line * 16) + seq![58u8, 32u8] + hex_bytes(part) + Seq::new(
        (3 * (16 - part.len())) as nat,
        |i: int| 32u8,
    ) + seq![32u8] + ascii_view(part)
}

/// The bytes of line `i`: the `i`-th sixteen-byte chunk of the buffer.
pub open spec fn chunk(buf: Seq<u8>, i: nat) -> Seq<u8> {
    buf.subrange(
        16 * i as int,
        if 16 * i + 16 <= buf.len() {
            16 * i as int + 16
        } else {
            buf.len() as int
        },
    )
}

/// Number of lines a buffer fills.
pub open spec fn num_chunks(buf: Seq<u8>) -> nat {
    ((buf.len() + 15) / 16) as nat
}

/// The first `upto` lines of the dump of `buf`, joined by newlines.
pub open spec fn hexdump_view(buf: Seq<u8>, upto: nat) -> Seq<u8>
    decreases upto,
{
    if upto == 0 {
        Seq::empty()
    } else {
        hexdump_view(buf, (upto - 1) as nat) + (if upto > 1 {
            seq![10u8]
        } else {
            Seq::empty()
        }) + hex_line((upto - 1) as nat, chunk(buf, (upto - 1) as nat))
    }
}

/// The digit character of a value below sixteen.
fn hex_digit(n: u8) -> (r: u8)
    requires
        n < 16,
    ensures
        r == spec_hex_digit(n),
{
    if n < 10 {
        48 + n
    } else {
        55 + n
    }
}

/// Append the decimal digits of `n`.
fn push_dec(out: &mut Vec<u8>, n: usize)
    ensures
        final(out)@ == old(out)@ + dec_digits(n as nat),
    decreases n,
{
    if n == 0 {
        proof {
            assert(final(out)@ =~= old(out)@ + dec_digits(0));
        }
    } else {
        push_dec(out, n / 10);
        out.push(48 + (n % 10) as u8);
    }
}

/// How many decimal digits `n` takes; zero takes none.
fn dec_len(n: usize) -> (r: usize)
    ensures
        r == dec_digits(n as nat).len(),
        r <= n,
    decreases n,
{
    if n == 0 {
        0
    } else {
        1 + dec_len(n / 10)
    }
}

/// Render at most `max_lines_opt` lines — all of them when none is given —
/// of the hex dump of `buffer`.
#[verifier::rlimit(100)]
#[verifier::spinoff_prover]
pub fn hexdumpm(buffer: &[u8], max_lines_opt: Option<usize>) -> (r: Vec<u8>)
    requires
        buffer@.len() + 16 <= usize::MAX,
    ensures
        r@ == hexdump_view(
            buffer@,
            match max_lines_opt {
                Some(max) => if max <= num_chunks(buffer@) {
                    max as nat
                } else {
                    num_chunks(buffer@)
                },
                None => num_chunks(buffer@),
            },
        ),
{
    let total = buffer.len();
    let chunks: usize = (total + 15) / 16;
    let lines: usize = match max_lines_opt {
        Some(max) => if max <= chunks {
            max
        } else {
            chunks
        },
        None => chunks,
    };
    let mut out: Vec<u8> = Vec::new();
    let mut line: usize = 0;
    while line < lines
        invariant
            lines <= chunks,
            chunks == num_chunks(buffer@),
            total == buffer@.len(),
            total + 16 <= usize::MAX,
            line <= lines,
            out@ == hexdump_view(buffer@, line as nat),
        decreases lines - line,
    {
        if line > 0 {
            out.push(10);
        }
        let ghost line_start = out@;
        proof {
            assert(16 * line + 16 <= total + 30) by (nonlinear_arith)
                requires
                    line < chunks,
                    chunks == (total + 15) / 16,
            ;
        }
        // the offset, zero-padded to four digits
        let offset = line * 16;
        let dl = if offset == 0 {
            1
        } else {
            dec_len(offset)
        };
        let mut z: usize = if dl >= 4 {
            0
        } else {
            4 - dl
        };
        let ghost zeros = z;
        while z > 0
            invariant
                z <= zeros,
                out@ == line_start + Seq::new((zeros - z) as nat, |i: int| 48u8),
            decreases z,
        {
            out.push(48);
            proof {
                assert(out@ =~= line_start + Seq::new((zeros - (z - 1)) as nat, |i: int| 48u8));
            }
            z = z - 1;
        }
        if offset == 0 {
            out.push(48);
        } else {
            push_dec(&mut out, offset);
        }
        proof {
            assert(out@ =~= line_start + padded_offset((line * 16) as nat));
        }
        out.push(58);
        out.push(32);
        // the sixteen-byte chunk of this line
        let start = offset;
        let end = if start + 16 <= total {
            start + 16
        } else {
            total
        };
        proof {
            assert(start < total) by (nonlinear_arith)
                requires
                    line < chunks,
                    chunks == (total + 15) / 16,
                    start == 16 * line,
            ;
        }
        let ghost part = chunk(buffer@, line as nat);
        let ghost hex_start = out@;
        let mut i: usize = start;
        while i < end
            invariant
                start <= i <= end <= total,
                total == buffer@.len(),
                start == 16 * line,
                part == chunk(buffer@, line as nat),
                end - start == part.len(),
                forall|k: int| 0 <= k < part.len() ==> part[k] == buffer@[start + k],
                out@ == hex_start + hex_bytes(part.subrange(0, i - start)),
            decreases end - i,
        {
            let b = buffer[i];
            out.push(hex_digit(b / 16));
            out.push(hex_digit(b % 16));
            out.push(32);
            proof {
                let done = part.subrange(0, i + 1 - start);
                assert(done.drop_last() =~= part.subrange(0, i - start));
                assert(done.last() == b);
                assert(out@ =~= hex_start + hex_bytes(done));
            }
            i = i + 1;
        }
        proof {
            assert(part.subrange(0, end - start) =~= part);
        }
        // blank slots up to sixteen
        let ghost blank_start = out@;
        let mut pad: usize = end - start;
        while pad < 16
            invariant
                end - start <= pad <= 16,
                out@ == blank_start + Seq::new((3 * (pad - (end - start))) as nat, |i: int| 32u8),
            decreases 16 - pad,
        {
            out.push(32);
            out.push(32);
            out.push(32);
            proof {
                assert(out@ =~= blank_start + Seq::new(
                    (3 * (pad + 1 - (end - start))) as nat,
                    |i: int| 32u8,
                ));
            }
            pad = pad + 1;
        }
        out.push(32);
        // the printable view
        let ghost ascii_start = out@;
        let mut j: usize = start;
        while j < end
            invariant
                start <= j <= end <= total,
                total == buffer@.len(),
                start == 16 * line,
                part == chunk(buffer@, line as nat),
                end - start == part.len(),
                forall|k: int| 0 <= k < part.len() ==> part[k] == buffer@[start + k],
                out@ == ascii_start + ascii_view(part.subrange(0, j - start)),
            decreases end - j,
        {
            let b = buffer[j];
            if 33 <= b && b <= 126 {
                out.push(b);
            } else {
                out.push(46);
            }
            proof {
                assert(out@ =~= ascii_start + ascii_view(part.subrange(0, j + 1 - start)));
            }
            j = j + 1;
        }
        proof {
            assert(part.subrange(0, end - start) =~= part);
            assert(out@ =~= line_start + hex_line(line as nat, part));
            assert(out@ =~= hexdump_view(buffer@, (line + 1) as nat));
        }
        line = line + 1;
    }
    out
}

} // verus!
