// The public error type for the crate.

use vstd::prelude::*;

verus! {

/// Errors returned when decoding or encoding a FLAC stream.
#[derive(Debug, Clone, PartialEq, Eq)]
pub enum FlacError {
    /// The input does not begin with the `fLaC` stream marker.
    NotFlac,
    /// The stream ended in the middle of a field that was still being read.
    Truncated,
    /// A structural value in the stream is impossible or out of range. The
    /// string names the specific fault.
    CorruptStream(String),
    /// The stream uses a feature this crate does not implement.
    Unsupported(String),
    /// A computed CRC (or the sample MD5) did not match the stored value.
    CrcMismatch,
    /// The stream is valid but asks for more than a decoder safety limit allows.
    LimitExceeded(String),
    /// The samples handed to the encoder are inconsistent.
    InvalidInput(String),
}

/// The mathematical view of a [`FlacError`]: the variant and its message as a
/// sequence of characters.
pub enum ErrorView {
    NotFlac,
    Truncated,
    CorruptStream(Seq<char>),
    Unsupported(Seq<char>),
    CrcMismatch,
    LimitExceeded(Seq<char>),
    InvalidInput(Seq<char>),
}

impl View for FlacError {
    type V = ErrorView;

    open spec fn view(&self) -> ErrorView {
        match self {
            FlacError::NotFlac => ErrorView::NotFlac,
            FlacError::Truncated => ErrorView::Truncated,
            FlacError::CorruptStream(s) => ErrorView::CorruptStream(s@),
            FlacError::Unsupported(s) => ErrorView::Unsupported(s@),
            FlacError::CrcMismatch => ErrorView::CrcMismatch,
            FlacError::LimitExceeded(s) => ErrorView::LimitExceeded(s@),
            FlacError::InvalidInput(s) => ErrorView::InvalidInput(s@),
        }
    }
}

/// The outcome of a specification-level read: a value and the position just
/// past it, or the error the read fails with.
pub type SpecResult<T> = Result<(T, int), ErrorView>;

/// True when an executable outcome `r` agrees with the specification outcome
/// `s` on the value and on the error; positions are compared by the caller.
pub open spec fn agrees<T>(r: Result<T, FlacError>, s: SpecResult<T>) -> bool {
    match s {
        Ok((v, _)) => r == Ok::<T, FlacError>(v),
        Err(e) => r is Err && r->Err_0@ == e,
    }
}

/// Build a [`FlacError::CorruptStream`] with the given message.
pub fn corrupt(why: &str) -> (e: FlacError)
    ensures
        e@ == ErrorView::CorruptStream(why@),
{
    FlacError::CorruptStream(why.to_owned())
}

/// Build a [`FlacError::LimitExceeded`] with the given message.
pub fn limit_exceeded(what: &str) -> (e: FlacError)
    ensures
        e@ == ErrorView::LimitExceeded(what@),
{
    FlacError::LimitExceeded(what.to_owned())
}

/// Build a [`FlacError::InvalidInput`] with the given message.
pub fn invalid_input(why: &str) -> (e: FlacError)
    ensures
        e@ == ErrorView::InvalidInput(why@),
{
    FlacError::InvalidInput(why.to_owned())
}

/// The character of a decimal digit.
pub open spec fn digit_char(d: nat) -> char {
    if d == 0 {
        '0'
    } else if d == 1 {
        '1'
    } else if d == 2 {
        '2'
    } else if d == 3 {
        '3'
    } else if d == 4 {
        '4'
    } else if d == 5 {
        '5'
    } else if d == 6 {
        '6'
    } else if d == 7 {
        '7'
    } else if d == 8 {
        '8'
    } else {
        '9'
    }
}

/// `n` in decimal: its digits, most significant first, without leading
/// zeros.
pub open spec fn decimal(n: nat) -> Seq<char>
    decreases n,
{
    if n < 10 {
        seq![digit_char(n)]
    } else {
        decimal(n / 10).push(digit_char(n % 10))
    }
}

/// The one-character string of a decimal digit.
fn digit_str(d: u64) -> (s: &'static str)
    requires
        d < 10,
    ensures
        s@ == seq![digit_char(d as nat)],
{
    if d == 0 {
        proof {
            reveal_strlit("0");
        }
        assert("0"@ =~= seq!['0']);
        "0"
    } else if d == 1 {
        proof {
            reveal_strlit("1");
        }
        assert("1"@ =~= seq!['1']);
        "1"
    } else if d == 2 {
        proof {
            reveal_strlit("2");
        }
        assert("2"@ =~= seq!['2']);
        "2"
    } else if d == 3 {
        proof {
            reveal_strlit("3");
        }
        assert("3"@ =~= seq!['3']);
        "3"
    } else if d == 4 {
        proof {
            reveal_strlit("4");
        }
        assert("4"@ =~= seq!['4']);
        "4"
    } else if d == 5 {
        proof {
            reveal_strlit("5");
        }
        assert("5"@ =~= seq!['5']);
        "5"
    } else if d == 6 {
        proof {
            reveal_strlit("6");
        }
        assert("6"@ =~= seq!['6']);
        "6"
    } else if d == 7 {
        proof {
            reveal_strlit("7");
        }
        assert("7"@ =~= seq!['7']);
        "7"
    } else if d == 8 {
        proof {
            reveal_strlit("8");
        }
        assert("8"@ =~= seq!['8']);
        "8"
    } else {
        proof {
            reveal_strlit("9");
        }
        assert("9"@ =~= seq!['9']);
        "9"
    }
}

/// Append `n` in decimal to a message.
pub fn push_number(msg: &mut String, n: u64)
    ensures
        final(msg)@ == old(msg)@ + decimal(n as nat),
    decreases n,
{
    let ghost before = msg@;
    if n >= 10 {
        push_number(msg, n / 10);
    }
    msg.append(digit_str(n % 10));
    assert(msg@ =~= before + decimal(n as nat));
}

/// A message made of `prefix`, `n` in decimal, and `suffix`.
pub fn numbered(prefix: &str, n: u64, suffix: &str) -> (s: String)
    ensures
        s@ == prefix@ + decimal(n as nat) + suffix@,
{
    let mut s = prefix.to_owned();
    push_number(&mut s, n);
    s.append(suffix);
    s
}

impl FlacError {
    /// A human-readable description of the error; the detail string of the
    /// parameterised variants is carried through.
    pub fn message(&self) -> (s: String)
        ensures
            self matches FlacError::CorruptStream(why) ==> s@ == "corrupt FLAC stream: "@ + why@,
            self matches FlacError::Unsupported(what) ==> s@ == "unsupported FLAC feature: "@ + what@,
            self matches FlacError::LimitExceeded(what) ==> s@
                == "FLAC stream exceeds a decoder safety limit: "@ + what@,
            self matches FlacError::InvalidInput(why) ==> s@ == "invalid input to the FLAC encoder: "@ + why@,
            self is NotFlac ==> s@ == "input is not a FLAC stream (missing fLaC marker)"@,
            self is Truncated ==> s@ == "FLAC stream ended unexpectedly"@,
            self is CrcMismatch ==> s@ == "FLAC CRC check failed; the data is damaged"@,
    {
        match self {
            FlacError::NotFlac => "input is not a FLAC stream (missing fLaC marker)".to_owned(),
            FlacError::Truncated => "FLAC stream ended unexpectedly".to_owned(),
            FlacError::CorruptStream(why) => {
                let mut s = "corrupt FLAC stream: ".to_owned();
                s.append(why.as_str());
                s
            },
            FlacError::Unsupported(what) => {
                let mut s = "unsupported FLAC feature: ".to_owned();
                s.append(what.as_str());
                s
            },
            FlacError::CrcMismatch => "FLAC CRC check failed; the data is damaged".to_owned(),
            FlacError::LimitExceeded(what) => {
                let mut s = "FLAC stream exceeds a decoder safety limit: ".to_owned();
                s.append(what.as_str());
                s
            },
            FlacError::InvalidInput(why) => {
                let mut s = "invalid input to the FLAC encoder: ".to_owned();
                s.append(why.as_str());
                s
            },
        }
    }
}

} // verus!
