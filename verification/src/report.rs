//! The summary report: the origin and compressed sizes and the elapsed
//! time, rendered as human-readable text. The builder refuses to finish
//! before both sizes have been recorded.

use vstd::prelude::*;
use vstd::string::*;

use crate::error::MyError;

verus! {

/// The decimal digit character for `d`.
pub open spec fn digit_char(d: nat) -> char {
    if d == 0 {
        '0'
    } else if d == 1 {
        '1'
    } else if d == 2 {
        '2'
    } else if d == 3 {
        '3'
    } else if d == 4 {
        '4'
    } else if d == 5 {
        '5'
    } else if d == 6 {
        '6'
    } else if d == 7 {
        '7'
    } else if d == 8 {
        '8'
    } else {
        '9'
    }
}

/// The decimal rendering of `n`, most significant digit first, with no
/// leading zeroes.
pub open spec fn dec_of(n: nat) -> Seq<char>
    decreases n,
{
    if n < 10 {
        seq![digit_char(n)]
    } else {
        dec_of(n / 10) + seq![digit_char(n % 10)]
    }
}

/// The compression ratio, compressed over origin, in thousandths and
/// rounded down; 0 when the origin size is 0.
pub open spec fn ratio_milli(compressed: nat, origin: nat) -> nat {
    if origin == 0 {
        0
    } else {
        compressed * 1000 / origin
    }
}

/// A value in thousandths rendered as a fixed-point number with three
/// fractional digits.
pub open spec fn milli_text(m: nat) -> Seq<char> {
    let frac = m % 1000;
    dec_of(m / 1000) + seq![
        '.',
        digit_char(frac / 100),
        digit_char(frac / 10 % 10),
        digit_char(frac % 10),
    ]
}

/// The whole report text for the given sizes and elapsed time.
pub open spec fn report_text(origin: nat, compressed: nat, elapsed_ms: nat) -> Seq<char> {
    "Compressed/Origin = "@ + dec_of(compressed) + " / "@ + dec_of(origin)
        + "\nCompression rate: "@ + milli_text(ratio_milli(compressed, origin))
        + "\nTime to work: "@ + dec_of(elapsed_ms) + " ms"@
}

/// The one-character string for a decimal digit.
fn digit_str(d: u64) -> (r: &'static str)
    requires
        d < 10,
    ensures
        r@ == seq![digit_char(d as nat)],
{
    proof {
        reveal_strlit("0");
        reveal_strlit("1");
        reveal_strlit("2");
        reveal_strlit("3");
        reveal_strlit("4");
        reveal_strlit("5");
        reveal_strlit("6");
        reveal_strlit("7");
        reveal_strlit("8");
        reveal_strlit("9");
    }
    let r = match d {
        0 => "0",
        1 => "1",
        2 => "2",
        3 => "3",
        4 => "4",
        5 => "5",
        6 => "6",
        7 => "7",
        8 => "8",
        _ => "9",
    };
    proof {
        assert(r@ =~= seq![digit_char(d as nat)]);
    }
    r
}

/// Renders a number in decimal.
fn dec_string(n: u128) -> (s: String)
    ensures
        s@ == dec_of(n as nat),
    decreases n,
{
    if n < 10 {
        String::from_str(digit_str(n as u64))
    } else {
        let mut s = dec_string(n / 10);
        s.append(digit_str((n % 10) as u64));
        s
    }
}

/// A finished report, ready to be rendered.
pub struct Report {
    origin: u64,
    compressed: u64,
    elapsed_ms: u64,
}

impl Report {
    pub closed spec fn spec_origin(&self) -> u64 {
        self.origin
    }

    pub closed spec fn spec_compressed(&self) -> u64 {
        self.compressed
    }

    pub closed spec fn spec_elapsed_ms(&self) -> u64 {
        self.elapsed_ms
    }

    /// The human-readable summary: both sizes, the compression rate as
    /// compressed over origin with three decimals, and the elapsed time.
    pub fn finalize(&self) -> (r: String)
        ensures
            r@ == report_text(
                self.spec_origin() as nat,
                self.spec_compressed() as nat,
                self.spec_elapsed_ms() as nat,
            ),
    {
        let milli: u128 = if self.origin == 0 {
            0
        } else {
            (self.compressed as u128) * 1000 / (self.origin as u128)
        };
        proof {
            assert(milli == ratio_milli(self.compressed as nat, self.origin as nat));
        }
        let frac: u64 = (milli % 1000) as u64;
        let mut s = String::from_str("Compressed/Origin = ");
        s.append(dec_string(self.compressed as u128).as_str());
        s.append(" / ");
        s.append(dec_string(self.origin as u128).as_str());
        s.append("\nCompression rate: ");
        s.append(dec_string(milli / 1000).as_str());
        s.append(".");
        s.append(digit_str(frac / 100));
        s.append(digit_str(frac / 10 % 10));
        s.append(digit_str(frac % 10));
        s.append("\nTime to work: ");
        s.append(dec_string(self.elapsed_ms as u128).as_str());
        s.append(" ms");
        proof {
            reveal_strlit(".");
            assert(s@ =~= report_text(
                self.spec_origin() as nat,
                self.spec_compressed() as nat,
                self.spec_elapsed_ms() as nat,
            ));
        }
        s
    }
}

/// Collects the two sizes for a report; the elapsed time is measured by
/// the caller and handed in at the end.
pub struct ReportBuilder {
    origin: Option<u64>,
    compressed: Option<u64>,
}

impl ReportBuilder {
    pub closed spec fn spec_origin(&self) -> Option<u64> {
        self.origin
    }

    pub closed spec fn spec_compressed(&self) -> Option<u64> {
        self.compressed
    }

    /// A fresh builder with no sizes recorded yet.
    pub fn new() -> (r: ReportBuilder)
        ensures
            r.spec_origin() is None,
            r.spec_compressed() is None,
    {
        ReportBuilder { origin: None, compressed: None }
    }

    /// Records the size of the original data.
    pub fn set_origin(&mut self, origin: u64)
        ensures
            final(self).spec_origin() == Some(origin),
            final(self).spec_compressed() == old(self).spec_compressed(),
    {
        self.origin = Some(origin);
    }

    /// Records the size of the compressed data.
    pub fn set_compressed(&mut self, compressed: u64)
        ensures
            final(self).spec_compressed() == Some(compressed),
            final(self).spec_origin() == old(self).spec_origin(),
    {
        self.compressed = Some(compressed);
    }

    /// Finishes the report. Both sizes must have been recorded first:
    /// otherwise nothing meaningful can be reported and the result is
    /// `ReportIncomplete`.
    pub fn finalize(self, elapsed_ms: u64) -> (r: Result<Report, MyError>)
        ensures
            match (self.spec_origin(), self.spec_compressed()) {
                (Some(o), Some(c)) => r matches Ok(rep) && rep.spec_origin() == o
                    && rep.spec_compressed() == c && rep.spec_elapsed_ms() == elapsed_ms,
                _ => r == Err::<Report, MyError>(MyError::ReportIncomplete),
            },
    {
        match (self.origin, self.compressed) {
            (Some(o), Some(c)) => Ok(Report { origin: o, compressed: c, elapsed_ms }),
            _ => Err(MyError::ReportIncomplete),
        }
    }
}

} // verus!
