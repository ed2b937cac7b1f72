//! The closed set of failures the driver reports.

use crate::line::Fault;
use vstd::prelude::*;
use vstd::std_specs::convert::FromSpecImpl;
use vstd::string::StringExecFns;

verus! {

/// Everything that can go wrong on the bus or while decoding what came off it.
///
/// No variant carries recovery state: every one of them is answered by the
/// caller with a fresh bus reset, if at all.
#[derive(Clone, Copy, Debug, PartialEq, Eq, Structural)]
pub enum Error {
    /// The configuration register holds no defined resolution.
    ConfigurationRegister,
    /// The bus was not pulled high while it was expected to be idle.
    NotHigh,
    /// The pin behind the data line reported a fault.
    Pin,
    /// The family code of an identifier is not the expected one.
    MismatchedFamilyCode,
    /// No device answered.
    NoAttachedDevices,
    /// A checksum over received bytes left a non-zero residue.
    MismatchedCrc { crc8: u8 },
    /// A bounded wait ran out.
    Timeout,
    /// A device answered with something the protocol does not allow.
    UnexpectedResponse,
}

impl From<Fault> for Error {
    /// A fault of the pin is the pin error.
    fn from(fault: Fault) -> (error: Error) {
        Error::Pin
    }
}

impl FromSpecImpl<Fault> for Error {
    open spec fn obeys_from_spec() -> bool {
        true
    }

    open spec fn from_spec(fault: Fault) -> Error {
        Error::Pin
    }
}

/// The decimal digit `d` as text.
pub open spec fn digit_text(d: nat) -> Seq<char>
    recommends
        d < 10,
{
    if d == 0 {
        "0"@
    } else if d == 1 {
        "1"@
    } else if d == 2 {
        "2"@
    } else if d == 3 {
        "3"@
    } else if d == 4 {
        "4"@
    } else if d == 5 {
        "5"@
    } else if d == 6 {
        "6"@
    } else if d == 7 {
        "7"@
    } else if d == 8 {
        "8"@
    } else {
        "9"@
    }
}

/// `n` in decimal, without leading zeros.
pub open spec fn decimal_text(n: nat) -> Seq<char>
    decreases n,
{
    if n < 10 {
        digit_text(n)
    } else {
        decimal_text(n / 10) + digit_text(n % 10)
    }
}

fn digit_str(d: u8) -> (s: &'static str)
    requires
        d < 10,
    ensures
        s@ == digit_text(d as nat),
{
    if d == 0 {
        "0"
    } else if d == 1 {
        "1"
    } else if d == 2 {
        "2"
    } else if d == 3 {
        "3"
    } else if d == 4 {
        "4"
    } else if d == 5 {
        "5"
    } else if d == 6 {
        "6"
    } else if d == 7 {
        "7"
    } else if d == 8 {
        "8"
    } else {
        "9"
    }
}

fn append_decimal(text: &mut String, n: u8)
    ensures
        final(text)@ == old(text)@ + decimal_text(n as nat),
{
    let ghost before = text@;
    if n >= 100 {
        text.append(digit_str(n / 100));
        text.append(digit_str((n / 10) % 10));
        text.append(digit_str(n % 10));
        proof {
            let h = (n / 100) as nat;
            let t = ((n / 10) % 10) as nat;
            let o = (n % 10) as nat;
            assert(decimal_text(h) == digit_text(h));
            assert((n as nat / 10) / 10 == h);
            assert(decimal_text(n as nat / 10) == decimal_text(h) + digit_text(t));
            assert(decimal_text(n as nat) == decimal_text(n as nat / 10) + digit_text(o));
            assert(text@ =~= before + decimal_text(n as nat));
        }
    } else if n >= 10 {
        text.append(digit_str(n / 10));
        text.append(digit_str(n % 10));
        proof {
            assert(decimal_text(n as nat / 10) == digit_text(n as nat / 10));
            assert(text@ =~= before + decimal_text(n as nat));
        }
    } else {
        text.append(digit_str(n));
    }
}

/// What there is to say when the bus is not high.
pub const NOT_HIGH: &'static str =
    "the bus was expected to be pulled high by a ~5K ohm pull-up resistor, but it wasn't";

impl Error {
    /// The text of [`Error::message`].
    pub open spec fn spec_message(self) -> Seq<char> {
        match self {
            Error::ConfigurationRegister => "invalid configuration register (resolution)"@,
            Error::NotHigh => NOT_HIGH@,
            Error::Pin => "pin error"@,
            Error::MismatchedFamilyCode => "family code mismatch"@,
            Error::NoAttachedDevices => "there are no devices attached to the 1-Wire bus"@,
            Error::MismatchedCrc { crc8 } => "CRC mismatch { crc8="@ + decimal_text(crc8 as nat)
                + " }"@,
            Error::Timeout => "timeout expired"@,
            Error::UnexpectedResponse => "unexpected response"@,
        }
    }

    /// A human-readable description of the failure.
    pub fn message(&self) -> (text: String)
        ensures
            text@ == self.spec_message(),
    {
        match self {
            Error::ConfigurationRegister => String::from_str(
                "invalid configuration register (resolution)",
            ),
            Error::NotHigh => String::from_str(NOT_HIGH),
            Error::Pin => String::from_str("pin error"),
            Error::MismatchedFamilyCode => String::from_str("family code mismatch"),
            Error::NoAttachedDevices => String::from_str(
                "there are no devices attached to the 1-Wire bus",
            ),
            Error::MismatchedCrc { crc8 } => {
                let mut text = String::from_str("CRC mismatch { crc8=");
                append_decimal(&mut text, *crc8);
                text.append(" }");
                text
            },
            Error::Timeout => String::from_str("timeout expired"),
            Error::UnexpectedResponse => String::from_str("unexpected response"),
        }
    }
}

} // verus!
