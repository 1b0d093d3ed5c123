//! Result reporting: one output line per hashed file.
//!
//! A line holds the checksum as 8 uppercase hexadecimal digits (or a
//! `????????` placeholder when hashing failed), the path when the
//! invocation covers several files, and a match marker: `OK` when the checksum
//! embedded in the name matches the computed one, `BAD <computed> !=
//! <embedded>` when it does not, `ERR <message>` when hashing failed,
//! nothing when the name carries no token.

use vstd::prelude::*;
use crate::extract::{find_crc_spec, find_crc_in_name};
use crate::hex::{hex8, crc_hex_upper};

verus! {

/// What hashing one byte source produced: its checksum, or the
/// diagnostic text of the I/O failure.
#[derive(Debug, PartialEq, Eq)]
pub enum HashOutcome {
    Hashed(u32),
    Failed(Vec<u8>),
}

/// Eight `?` bytes standing in for a checksum that could not be computed.
pub open spec fn placeholder() -> Seq<u8> {
    Seq::new(8, |i: int| 63u8)
}

/// `\tOK`
pub open spec fn tab_ok() -> Seq<u8> {
    seq![9u8, 79u8, 75u8]
}

/// `\tBAD `
pub open spec fn tab_bad() -> Seq<u8> {
    seq![9u8, 66u8, 65u8, 68u8, 32u8]
}

/// ` != `
pub open spec fn neq_sep() -> Seq<u8> {
    seq![32u8, 33u8, 61u8, 32u8]
}

/// `\tERR `
pub open spec fn tab_err() -> Seq<u8> {
    seq![9u8, 69u8, 82u8, 82u8, 32u8]
}

/// The verdict appended when hashing succeeded: empty without a
/// name-embedded token, `\tOK` on a match, `\tBAD <computed> != <embedded>`
/// on a mismatch.
pub open spec fn verdict_spec(path: Seq<u8>, crc: u32) -> Seq<u8> {
    match find_crc_spec(path) {
        Option::None => Seq::<u8>::empty(),
        Option::Some(t) => if crc == t {
            tab_ok()
        } else {
            tab_bad() + hex8(crc) + neq_sep() + hex8(t)
        },
    }
}

/// The leading checksum field of a line.
pub open spec fn head_spec(outcome: HashOutcome) -> Seq<u8> {
    match outcome {
        HashOutcome::Hashed(c) => hex8(c),
        HashOutcome::Failed(_) => placeholder(),
    }
}

/// The optional tab-separated path field.
pub open spec fn path_field_spec(path: Seq<u8>, with_path: bool) -> Seq<u8> {
    if with_path {
        seq![9u8] + path
    } else {
        Seq::<u8>::empty()
    }
}

/// The trailing verdict or error field.
pub open spec fn tail_spec(path: Seq<u8>, outcome: HashOutcome) -> Seq<u8> {
    match outcome {
        HashOutcome::Hashed(c) => verdict_spec(path, c),
        HashOutcome::Failed(e) => tab_err() + e@,
    }
}

/// One whole report line (without the line terminator).
pub open spec fn report_line_spec(path: Seq<u8>, outcome: HashOutcome, with_path: bool) -> Seq<u8> {
    head_spec(outcome) + path_field_spec(path, with_path) + tail_spec(path, outcome)
}

fn push_all(out: &mut Vec<u8>, src: &[u8])
    ensures
        final(out)@ == old(out)@ + src@,
{
    let mut k: usize = 0;
    while k < src.len()
        invariant
            k <= src@.len(),
            out@ =~= old(out)@ + src@.take(k as int),
        decreases src@.len() - k,
    {
        out.push(src[k]);
        proof {
            assert(out@ =~= old(out)@ + src@.take(k as int + 1));
        }
        k = k + 1;
    }
    proof {
        assert(src@.take(src@.len() as int) =~= src@);
    }
}

/// Format the line reporting one job's outcome, exactly as specified by
/// `report_line_spec`.
pub fn report_line(path: &[u8], outcome: &HashOutcome, with_path: bool) -> (r: Vec<u8>)
    ensures
        r@ == report_line_spec(path@, *outcome, with_path),
{
    let mut out: Vec<u8> = Vec::new();
    match outcome {
        HashOutcome::Hashed(c) => {
            let h = crc_hex_upper(*c);
            push_all(&mut out, h.as_slice());
        },
        HashOutcome::Failed(_) => {
            let mut q: usize = 0;
            while q < 8
                invariant
                    q <= 8,
                    out@ =~= placeholder().take(q as int),
                decreases 8 - q,
            {
                out.push(63u8);
                proof {
                    assert(out@ =~= placeholder().take(q as int + 1));
                }
                q = q + 1;
            }
            proof {
                assert(placeholder().take(8) =~= placeholder());
            }
        },
    }
    proof {
        assert(out@ =~= head_spec(*outcome));
    }
    if with_path {
        out.push(9u8);
        push_all(&mut out, path);
    }
    proof {
        assert(out@ =~= head_spec(*outcome) + path_field_spec(path@, with_path));
    }
    match outcome {
        HashOutcome::Hashed(c) => {
            match find_crc_in_name(path) {
                Option::None => {},
                Option::Some(t) => {
                    if *c == t {
                        out.push(9u8);
                        out.push(79u8);
                        out.push(75u8);
                    } else {
                        out.push(9u8);
                        out.push(66u8);
                        out.push(65u8);
                        out.push(68u8);
                        out.push(32u8);
                        let h1 = crc_hex_upper(*c);
                        push_all(&mut out, h1.as_slice());
                        out.push(32u8);
                        out.push(33u8);
                        out.push(61u8);
                        out.push(32u8);
                        let h2 = crc_hex_upper(t);
                        push_all(&mut out, h2.as_slice());
                    }
                },
            }
        },
        HashOutcome::Failed(e) => {
            out.push(9u8);
            out.push(69u8);
            out.push(82u8);
            out.push(82u8);
            out.push(32u8);
            push_all(&mut out, e.as_slice());
        },
    }
    proof {
        assert(out@ =~= report_line_spec(path@, *outcome, with_path));
    }
    out
}

/// Format every job's line, in the order the jobs were given.
pub fn report_all(paths: &Vec<Vec<u8>>, outcomes: &Vec<HashOutcome>) -> (r: Vec<Vec<u8>>)
    requires
        paths@.len() == outcomes@.len(),
    ensures
        r@.len() == paths@.len(),
        forall|i: int|
            0 <= i < r@.len() ==> #[trigger] r@[i]@ == report_line_spec(
                paths@[i]@,
                outcomes@[i],
                true,
            ),
{
    let mut out: Vec<Vec<u8>> = Vec::new();
    let mut i: usize = 0;
    while i < paths.len()
        invariant
            paths@.len() == outcomes@.len(),
            i <= paths@.len(),
            out@.len() == i,
            forall|j: int|
                0 <= j < i ==> #[trigger] out@[j]@ == report_line_spec(
                    paths@[j]@,
                    outcomes@[j],
                    true,
                ),
        decreases paths@.len() - i,
    {
        let line = report_line(paths[i].as_slice(), &outcomes[i], true);
        out.push(line);
        i = i + 1;
    }
    out
}

} // verus!
