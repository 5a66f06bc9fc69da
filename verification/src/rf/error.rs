//! Errors of the sources of IQ samples.

use vstd::prelude::*;
use vstd::string::StringExecFns;

verus! {

/// What can go wrong with a source of IQ samples.
#[derive(Debug, Clone, PartialEq, Eq)]
pub enum RfError {
    /// Reading failed.
    Io(String),
    /// No samples are left.
    EndOfFile,
    /// Unknown sample format.
    UnsupportedFormat(String),
    /// A ring buffer was full.
    BufferOverflow {
        /// Number of samples dropped.
        dropped: usize,
    },
    /// Samples are missing in a stream.
    StreamInterrupted {
        /// Time without samples, in nanoseconds.
        gap_ns: u64,
    },
    /// A receiver failed.
    Sdr(String),
    /// The configuration is invalid.
    Config(String),
}

/// The decimal digit of a number below ten.
pub open spec fn digit_char(d: nat) -> char {
    if d == 0 {
        '0'
    } else if d == 1 {
        '1'
    } else if d == 2 {
        '2'
    } else if d == 3 {
        '3'
    } else if d == 4 {
        '4'
    } else if d == 5 {
        '5'
    } else if d == 6 {
        '6'
    } else if d == 7 {
        '7'
    } else if d == 8 {
        '8'
    } else {
        '9'
    }
}

/// A number written in decimal.
pub open spec fn decimal(n: nat) -> Seq<char>
    decreases n,
{
    if n < 10 {
        seq![digit_char(n)]
    } else {
        decimal(n / 10).push(digit_char(n % 10))
    }
}

/// The digit of a number below ten, as text.
fn digit_text(d: u64) -> (text: &'static str)
    requires
        d < 10,
    ensures
        text@ == seq![digit_char(d as nat)],
{
    proof {
        reveal_strlit("0");
        reveal_strlit("1");
        reveal_strlit("2");
        reveal_strlit("3");
        reveal_strlit("4");
        reveal_strlit("5");
        reveal_strlit("6");
        reveal_strlit("7");
        reveal_strlit("8");
        reveal_strlit("9");
    }
    let text = if d == 0 {
        "0"
    } else if d == 1 {
        "1"
    } else if d == 2 {
        "2"
    } else if d == 3 {
        "3"
    } else if d == 4 {
        "4"
    } else if d == 5 {
        "5"
    } else if d == 6 {
        "6"
    } else if d == 7 {
        "7"
    } else if d == 8 {
        "8"
    } else {
        "9"
    };
    assert(text@ =~= seq![digit_char(d as nat)]);
    text
}

/// A number written in decimal.
pub fn decimal_text(n: u64) -> (text: String)
    ensures
        text@ == decimal(n as nat),
    decreases n,
{
    if n < 10 {
        String::from_str(digit_text(n))
    } else {
        let mut text = decimal_text(n / 10);
        text.append(digit_text(n % 10));
        assert(text@ =~= decimal(n as nat));
        text
    }
}

/// The text that the standard library gives for a duration.
pub uninterp spec fn duration_text(nanos: u64) -> Seq<char>;

/// The `Debug` text of the `std::time::Duration` of `nanos` nanoseconds.
#[verifier::external_body]
fn duration_debug(nanos: u64) -> (text: String)
    ensures
        text@ == duration_text(nanos),
{
    format!("{:?}", std::time::Duration::from_nanos(nanos))
}

/// The message of an error.
pub open spec fn message_of(e: RfError) -> Seq<char> {
    match e {
        RfError::Io(err) => "I/O error: "@ + err@,
        RfError::EndOfFile => "end of IQ file reached"@,
        RfError::UnsupportedFormat(name) => "unsupported sample format: "@ + name@,
        RfError::BufferOverflow { dropped } => "ring buffer overflow — "@ + decimal(dropped as nat)
            + " samples dropped"@,
        RfError::StreamInterrupted { gap_ns } => "stream interrupted after "@ + duration_text(gap_ns)
            + " gap"@,
        RfError::Sdr(err) => "SDR error: "@ + err@,
        RfError::Config(err) => "invalid configuration: "@ + err@,
    }
}

impl RfError {
    /// The message of the error.
    pub fn message(&self) -> (text: String)
        ensures
            text@ == message_of(*self),
    {
        match self {
            RfError::Io(err) => String::from_str("I/O error: ").concat(err.as_str()),
            RfError::EndOfFile => String::from_str("end of IQ file reached"),
            RfError::UnsupportedFormat(name) => String::from_str(
                "unsupported sample format: ",
            ).concat(name.as_str()),
            RfError::BufferOverflow { dropped } => String::from_str(
                "ring buffer overflow — ",
            ).concat(decimal_text(*dropped as u64).as_str()).concat(" samples dropped"),
            RfError::StreamInterrupted { gap_ns } => String::from_str(
                "stream interrupted after ",
            ).concat(duration_debug(*gap_ns).as_str()).concat(" gap"),
            RfError::Sdr(err) => String::from_str("SDR error: ").concat(err.as_str()),
            RfError::Config(err) => String::from_str("invalid configuration: ").concat(
                err.as_str(),
            ),
        }
    }
}

/// Result of an operation on a source.
pub type RfResult<T> = Result<T, RfError>;

/// The number that decimal digits are written as.
pub open spec fn number_in(digits: Seq<char>) -> int
    decreases digits.len(),
{
    if digits.len() == 0 {
        0
    } else {
        10 * number_in(digits.drop_last()) + (digits.last() as int - 48)
    }
}

/// A number written in decimal is read back as the number, all of its characters are
/// digits, and it begins with no zero but where it is zero.
pub proof fn law_decimal_is_read_back(n: nat)
    ensures
        number_in(decimal(n)) == n,
        decimal(n).len() > 0,
        forall|i: int| 0 <= i < decimal(n).len() ==> '0' <= #[trigger] decimal(n)[i] <= '9',
        decimal(n)[0] == '0' <==> n == 0,
    decreases n,
{
    let text = decimal(n);
    if n < 10 {
        assert(text.drop_last() =~= Seq::<char>::empty());
        assert(number_in(Seq::<char>::empty()) == 0);
    } else {
        law_decimal_is_read_back(n / 10);
        assert(text.drop_last() =~= decimal(n / 10));
        assert(text[0] == decimal(n / 10)[0]);
        assert forall|i: int| 0 <= i < text.len() implies '0' <= #[trigger] text[i] <= '9' by {
            if i < decimal(n / 10).len() {
                assert(text[i] == decimal(n / 10)[i]);
            }
        }
    }
}

/// The message of an error ends in what the error carries, where that is a text.
pub proof fn law_message_ends_in_its_detail(e: RfError)
    ensures
        ({
            let text = message_of(e);
            let detail = match e {
                RfError::Io(err) => err@,
                RfError::UnsupportedFormat(name) => name@,
                RfError::Sdr(err) => err@,
                RfError::Config(err) => err@,
                _ => Seq::empty(),
            };
            &&& detail.len() <= text.len()
            &&& text.skip(text.len() - detail.len()) == detail
        }),
{
    let text = message_of(e);
    match e {
        RfError::Io(err) => {
            assert(text.skip(text.len() - err@.len()) =~= err@);
        },
        RfError::UnsupportedFormat(name) => {
            assert(text.skip(text.len() - name@.len()) =~= name@);
        },
        RfError::Sdr(err) => {
            assert(text.skip(text.len() - err@.len()) =~= err@);
        },
        RfError::Config(err) => {
            assert(text.skip(text.len() - err@.len()) =~= err@);
        },
        _ => {
            assert(text.skip(text.len() as int) =~= Seq::empty());
        },
    }
}

} // verus!
