//! Configuration of the sources of IQ samples.

use crate::rf::error::{
    decimal, decimal_text, law_decimal_is_read_back, number_in, RfError, RfResult,
};
use crate::rf::format::SampleFormat;
use vstd::prelude::*;
use vstd::string::StringExecFns;

verus! {

/// Configuration shared by all sources. Frequencies are in millihertz.
#[derive(Debug, Clone, Copy, PartialEq, Eq, Structural)]
pub struct RfConfig {
    /// Centre frequency of the reception.
    pub center_freq_mhz: i64,
    /// Sample rate.
    pub sample_rate_mhz: i64,
    /// Gain in thousandths of a dB; the source chooses it if there is none.
    pub gain_mdb: Option<i64>,
    /// Format of the samples.
    pub format: SampleFormat,
}

impl Default for RfConfig {
    /// GPS L1 C/A at 2.048 million samples per second of 8 bits.
    fn default() -> (config: Self)
        ensures
            config.center_freq_mhz == 1_575_420_000_000,
            config.sample_rate_mhz == 2_048_000_000,
            config.gain_mdb is None,
            config.format == SampleFormat::I8,
    {
        RfConfig {
            center_freq_mhz: 1_575_420_000_000,
            sample_rate_mhz: 2_048_000_000,
            gain_mdb: None,
            format: SampleFormat::I8,
        }
    }
}

/// A number of thousandths below 1000 behind the decimal point, without zeros at
/// the end; nothing for zero.
pub open spec fn fraction(thousandths: nat) -> Seq<char> {
    if thousandths == 0 {
        Seq::empty()
    } else if thousandths % 100 == 0 {
        "."@ + decimal(thousandths / 100)
    } else if thousandths % 10 == 0 {
        "."@ + decimal(thousandths / 100) + decimal(thousandths / 10 % 10)
    } else {
        "."@ + decimal(thousandths / 100) + decimal(thousandths / 10 % 10) + decimal(
            thousandths % 10,
        )
    }
}

/// A number of thousandths in decimal: sign, whole part and fraction.
pub open spec fn millis_decimal(n: int) -> Seq<char> {
    let size = if n < 0 {
        (-n) as nat
    } else {
        n as nat
    };
    let digits = decimal(size / 1000) + fraction(size % 1000);
    if n < 0 {
        "-"@ + digits
    } else {
        digits
    }
}

/// The fraction as text.
fn fraction_text(thousandths: u64) -> (text: String)
    requires
        thousandths < 1000,
    ensures
        text@ == fraction(thousandths as nat),
{
    let tenths: u64 = thousandths / 100;
    let hundredths: u64 = thousandths / 10 % 10;
    let rest: u64 = thousandths % 10;
    if thousandths == 0 {
        String::new()
    } else if thousandths % 100 == 0 {
        String::from_str(".").concat(decimal_text(tenths).as_str())
    } else if rest == 0 {
        String::from_str(".").concat(decimal_text(tenths).as_str()).concat(
            decimal_text(hundredths).as_str(),
        )
    } else {
        String::from_str(".").concat(decimal_text(tenths).as_str()).concat(
            decimal_text(hundredths).as_str(),
        ).concat(decimal_text(rest).as_str())
    }
}

/// A number of thousandths in decimal.
fn millis_text(n: i64) -> (text: String)
    ensures
        text@ == millis_decimal(n as int),
{
    let size: u64 = if n < 0 {
        (-(n as i128)) as u64
    } else {
        n as u64
    };
    let digits = decimal_text(size / 1000).concat(fraction_text(size % 1000).as_str());
    if n < 0 {
        String::from_str("-").concat(digits.as_str())
    } else {
        digits
    }
}

/// Number of whole samples in a time: none at a negative rate, and no more than
/// can be counted.
pub open spec fn samples_during(sample_rate_mhz: int, duration_ns: int) -> int {
    let n = sample_rate_mhz * duration_ns / 1_000_000_000_000;
    if sample_rate_mhz <= 0 {
        0
    } else if n <= usize::MAX {
        n
    } else {
        usize::MAX as int
    }
}

impl RfConfig {
    /// Bandwidth by Nyquist, half the sample rate, rounded down.
    pub fn bandwidth_mhz(&self) -> (bandwidth: i64)
        ensures
            bandwidth == self.sample_rate_mhz as int / 2,
            2 * bandwidth <= self.sample_rate_mhz <= 2 * bandwidth + 1,
    {
        match self.sample_rate_mhz.checked_div_euclid(2) {
            Some(half) => half,
            None => 0,
        }
    }

    /// Number of whole samples in `duration_ns` nanoseconds.
    pub fn samples_in(&self, duration_ns: u64) -> (n: usize)
        ensures
            n == samples_during(self.sample_rate_mhz as int, duration_ns as int),
            self.sample_rate_mhz <= 0 ==> n == 0,
            self.sample_rate_mhz > 0 ==> n * 1_000_000_000_000 <= self.sample_rate_mhz
                * duration_ns,
            self.sample_rate_mhz > 0 && n < usize::MAX ==> self.sample_rate_mhz * duration_ns < (n
                + 1) * 1_000_000_000_000,
    {
        if self.sample_rate_mhz <= 0 {
            return 0;
        }
        let rate: u128 = self.sample_rate_mhz as u128;
        let duration: u128 = duration_ns as u128;
        assert(rate * duration <= 0x7FFF_FFFF_FFFF_FFFF * 0xFFFF_FFFF_FFFF_FFFF)
            by (nonlinear_arith)
            requires
                0 <= rate <= 0x7FFF_FFFF_FFFF_FFFF,
                0 <= duration <= 0xFFFF_FFFF_FFFF_FFFF,
        ;
        let samples: u128 = rate * duration / 1_000_000_000_000;
        if samples <= usize::MAX as u128 {
            samples as usize
        } else {
            usize::MAX
        }
    }

    /// Duration of a number of samples in nanoseconds, rounded down.
    pub fn duration_ns(&self, samples: u64) -> (ns: u128)
        requires
            self.sample_rate_mhz > 0,
        ensures
            ns == samples * 1_000_000_000_000 / (self.sample_rate_mhz as int),
            ns * self.sample_rate_mhz <= samples * 1_000_000_000_000 < (ns + 1)
                * self.sample_rate_mhz,
    {
        proof {
            let rate = self.sample_rate_mhz as int;
            let x = samples * 1_000_000_000_000;
            vstd::arithmetic::div_mod::lemma_fundamental_div_mod(x, rate);
            vstd::arithmetic::div_mod::lemma_mod_bound(x, rate);
            let q = x / rate;
            assert(q * rate == rate * q && (q + 1) * rate == rate * q + rate) by (nonlinear_arith);
        }
        samples as u128 * 1_000_000_000_000 / self.sample_rate_mhz as u128
    }

    /// Checks that both frequencies are positive, the sample rate first.
    pub fn validate(&self) -> (verdict: RfResult<()>)
        ensures
            verdict is Ok <==> self.sample_rate_mhz > 0 && self.center_freq_mhz > 0,
            verdict matches Err(e) ==> e is Config && e->Config_0@ == if self.sample_rate_mhz
                <= 0 {
                "sample_rate_hz must be positive, got "@ + millis_decimal(
                    self.sample_rate_mhz as int,
                )
            } else {
                "center_freq_hz must be positive, got "@ + millis_decimal(
                    self.center_freq_mhz as int,
                )
            },
    {
        if self.sample_rate_mhz <= 0 {
            return Err(
                RfError::Config(
                    String::from_str("sample_rate_hz must be positive, got ").concat(
                        millis_text(self.sample_rate_mhz).as_str(),
                    ),
                ),
            );
        }
        if self.center_freq_mhz <= 0 {
            return Err(
                RfError::Config(
                    String::from_str("center_freq_hz must be positive, got ").concat(
                        millis_text(self.center_freq_mhz).as_str(),
                    ),
                ),
            );
        }
        Ok(())
    }
}

/// Thousandths behind the decimal point are read back: a point and one to three
/// digits, the last of which is no zero, or nothing at all for zero.
pub proof fn law_fraction_is_read_back(thousandths: nat)
    requires
        0 < thousandths < 1000,
    ensures
        ({
            let text = fraction(thousandths);
            let digits = text.skip(1);
            let number = number_in(digits);
            &&& text[0] == '.'
            &&& 1 <= digits.len() <= 3
            &&& digits.last() != '0'
            &&& digits.len() == 1 ==> number * 100 == thousandths
            &&& digits.len() == 2 ==> number * 10 == thousandths
            &&& digits.len() == 3 ==> number == thousandths
        }),
        fraction(0).len() == 0,
{
    reveal_strlit(".");
    let a = thousandths / 100;
    let b = thousandths / 10 % 10;
    let c = thousandths % 10;
    let text = fraction(thousandths);
    let digits = text.skip(1);
    lemma_digits(a, b, c);
    if thousandths % 100 == 0 {
        assert(digits =~= decimal(a));
    } else if thousandths % 10 == 0 {
        assert(digits =~= decimal(a) + decimal(b));
    } else {
        assert(digits =~= decimal(a) + decimal(b) + decimal(c));
    }
}

/// Up to three digits in a row.
proof fn lemma_digits(a: nat, b: nat, c: nat)
    requires
        a < 10,
        b < 10,
        c < 10,
    ensures
        decimal(a).len() == 1 && decimal(b).len() == 1 && decimal(c).len() == 1,
        number_in(decimal(a)) == a,
        number_in(decimal(a) + decimal(b)) == 10 * a + b,
        number_in(decimal(a) + decimal(b) + decimal(c)) == 100 * a + 10 * b + c,
        decimal(a)[0] == '0' <==> a == 0,
        decimal(b)[0] == '0' <==> b == 0,
        decimal(c)[0] == '0' <==> c == 0,
{
    law_decimal_is_read_back(a);
    law_decimal_is_read_back(b);
    law_decimal_is_read_back(c);
    let two = decimal(a) + decimal(b);
    let three = two + decimal(c);
    assert(two.drop_last() =~= decimal(a));
    assert(three.drop_last() =~= two);
    assert(decimal(b).drop_last() =~= Seq::<char>::empty());
    assert(decimal(c).drop_last() =~= Seq::<char>::empty());
    assert(number_in(Seq::<char>::empty()) == 0);
    assert(decimal(b).last() as int - 48 == b);
    assert(decimal(c).last() as int - 48 == c);
    assert(number_in(two) == 10 * number_in(decimal(a)) + (two.last() as int - 48));
    assert(number_in(three) == 10 * number_in(two) + (three.last() as int - 48));
}

/// The opposite of a number is written with a minus sign before it; a whole number of
/// units is written without a point.
pub proof fn law_sign_and_whole_part(n: int, units: nat)
    requires
        n > 0,
    ensures
        millis_decimal(-n) == seq!['-'] + millis_decimal(n),
        millis_decimal(1000 * units as int) == decimal(units),
        millis_decimal(n) == decimal((n / 1000) as nat) + fraction((n % 1000) as nat),
{
    reveal_strlit("-");
    assert("-"@ =~= seq!['-']);
    assert(decimal(units) + fraction(0) =~= decimal(units));
}

} // verus!
