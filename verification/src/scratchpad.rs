//! The part of a device's volatile register block that the driver reads and
//! writes: the two temperature triggers and the configuration register.

use crate::crc8::{check, checked};
use crate::error::Error;
use vstd::prelude::*;

verus! {

/// The bit width of a temperature conversion.
#[derive(Clone, Copy, Debug, PartialEq, Eq, Structural)]
pub enum Resolution {
    Bits9,
    Bits10,
    Bits11,
    Bits12,
}

impl Resolution {
    /// The configuration register that selects this resolution.
    pub open spec fn register(self) -> u8 {
        match self {
            Resolution::Bits9 => 0x1F,
            Resolution::Bits10 => 0x3F,
            Resolution::Bits11 => 0x5F,
            Resolution::Bits12 => 0x7F,
        }
    }

    /// The resolution that a configuration register selects, if it selects
    /// one of the defined settings.
    pub open spec fn decode(register: u8) -> Option<Resolution> {
        if register == 0x1F {
            Some(Resolution::Bits9)
        } else if register == 0x3F {
            Some(Resolution::Bits10)
        } else if register == 0x5F {
            Some(Resolution::Bits11)
        } else if register == 0x7F {
            Some(Resolution::Bits12)
        } else {
            None
        }
    }

    /// The configuration register that selects this resolution.
    pub fn to_register(self) -> (register: u8)
        ensures
            register == self.register(),
    {
        match self {
            Resolution::Bits9 => 0x1F,
            Resolution::Bits10 => 0x3F,
            Resolution::Bits11 => 0x5F,
            Resolution::Bits12 => 0x7F,
        }
    }

    /// Decodes a configuration register; anything but the four defined
    /// settings is a configuration error.
    pub fn from_register(register: u8) -> (result: Result<Resolution, Error>)
        ensures
            match Resolution::decode(register) {
                Some(resolution) => result == Ok::<Resolution, Error>(resolution),
                None => result == Err::<Resolution, Error>(Error::ConfigurationRegister),
            },
    {
        if register == 0x1F {
            Ok(Resolution::Bits9)
        } else if register == 0x3F {
            Ok(Resolution::Bits10)
        } else if register == 0x5F {
            Ok(Resolution::Bits11)
        } else if register == 0x7F {
            Ok(Resolution::Bits12)
        } else {
            Err(Error::ConfigurationRegister)
        }
    }

    /// The number of bits of a conversion at this resolution.
    pub fn bits(self) -> (bits: u8)
        ensures
            bits == match self {
                Resolution::Bits9 => 9u8,
                Resolution::Bits10 => 10u8,
                Resolution::Bits11 => 11u8,
                Resolution::Bits12 => 12u8,
            },
    {
        match self {
            Resolution::Bits9 => 9,
            Resolution::Bits10 => 10,
            Resolution::Bits11 => 11,
            Resolution::Bits12 => 12,
        }
    }
}

impl Default for Resolution {
    /// The resolution a device has when it leaves the factory.
    fn default() -> (resolution: Resolution)
        ensures
            resolution == Resolution::Bits12,
    {
        Resolution::Bits12
    }
}

/// Every defined setting survives being written to the register and read
/// back, and no two settings share a register value.
pub proof fn lemma_resolution_round_trip(resolution: Resolution)
    ensures
        Resolution::decode(resolution.register()) == Some(resolution),
{
}

/// The byte that stands for a signed trigger value on the wire: its two's
/// complement.
pub open spec fn unsigned(value: i8) -> u8 {
    if value >= 0 {
        value as u8
    } else {
        (value + 256) as u8
    }
}

/// The signed trigger value that a byte on the wire stands for.
pub open spec fn signed(byte: u8) -> i8 {
    if byte < 128 {
        byte as i8
    } else {
        (byte - 256) as i8
    }
}

fn to_unsigned(value: i8) -> (byte: u8)
    ensures
        byte == unsigned(value),
{
    if value >= 0 {
        value as u8
    } else {
        (value as i16 + 256) as u8
    }
}

fn to_signed(byte: u8) -> (value: i8)
    ensures
        value == signed(byte),
{
    if byte < 128 {
        byte as i8
    } else {
        (byte as i16 - 256) as i8
    }
}

/// A trigger value and its byte on the wire stand for each other.
pub proof fn lemma_signed_round_trip(value: i8, byte: u8)
    ensures
        signed(unsigned(value)) == value,
        unsigned(signed(byte)) == byte,
{
}

/// The alarm thresholds, in whole degrees.
#[derive(Clone, Copy, Debug, PartialEq, Eq, Structural)]
pub struct Triggers {
    pub high: i8,
    pub low: i8,
}

impl Default for Triggers {
    fn default() -> (triggers: Triggers)
        ensures
            triggers == (Triggers { high: 0, low: 0 }),
    {
        Triggers { high: 0, low: 0 }
    }
}

/// The decoded configuration register.
#[derive(Clone, Copy, Debug, PartialEq, Eq, Structural)]
pub struct Configuration {
    pub resolution: Resolution,
}

impl Default for Configuration {
    fn default() -> (configuration: Configuration)
        ensures
            configuration == (Configuration { resolution: Resolution::Bits12 }),
    {
        Configuration { resolution: Resolution::Bits12 }
    }
}

/// What the driver keeps of a device's scratchpad.
///
/// It is either decoded from the nine bytes a device sends, after their CRC
/// was validated, or put together by the caller to be written.
#[derive(Clone, Copy, Debug, PartialEq, Eq, Structural)]
pub struct Scratchpad {
    pub triggers: Triggers,
    pub configuration: Configuration,
}

impl Default for Scratchpad {
    fn default() -> (scratchpad: Scratchpad)
        ensures
            scratchpad == (Scratchpad {
                triggers: Triggers { high: 0, low: 0 },
                configuration: Configuration { resolution: Resolution::Bits12 },
            }),
    {
        Scratchpad {
            triggers: Triggers { high: 0, low: 0 },
            configuration: Configuration { resolution: Resolution::Bits12 },
        }
    }
}

/// Where the high trigger stands in the nine bytes read from a device.
pub const TRIGGER_HIGH_OFFSET: usize = 2;

/// Where the low trigger stands in the nine bytes read from a device.
pub const TRIGGER_LOW_OFFSET: usize = 3;

/// Where the configuration register stands in the nine bytes read from a
/// device.
pub const CONFIGURATION_OFFSET: usize = 4;

impl Scratchpad {
    /// What the nine bytes read from a device decode to: nothing but the CRC
    /// mismatch unless they check out, then nothing but the configuration
    /// error unless the configuration register holds a defined resolution.
    pub open spec fn parse(bytes: Seq<u8>) -> Result<Scratchpad, Error>
        recommends
            bytes.len() == 9,
    {
        match checked(bytes) {
            Err(e) => Err(e),
            Ok(()) => match Resolution::decode(bytes[4]) {
                None => Err(Error::ConfigurationRegister),
                Some(resolution) => Ok(
                    Scratchpad {
                        triggers: Triggers { high: signed(bytes[2]), low: signed(bytes[3]) },
                        configuration: Configuration { resolution },
                    },
                ),
            },
        }
    }

    /// The three bytes that are sent when the scratchpad is written: high
    /// trigger, low trigger, configuration register.
    pub open spec fn written(self) -> Seq<u8> {
        seq![
            unsigned(self.triggers.high),
            unsigned(self.triggers.low),
            self.configuration.resolution.register(),
        ]
    }

    /// Decodes the nine bytes read from a device: eight of data and the CRC
    /// over them.
    ///
    /// The CRC is validated first; bytes that fail it are never decoded.
    pub fn from_bytes(bytes: [u8; 9]) -> (result: Result<Scratchpad, Error>)
        ensures
            result == Scratchpad::parse(bytes@),
    {
        match check(&bytes) {
            Ok(()) => {},
            Err(e) => {
                return Err(e);
            },
        }
        let resolution = match Resolution::from_register(bytes[CONFIGURATION_OFFSET]) {
            Ok(resolution) => resolution,
            Err(e) => {
                return Err(e);
            },
        };
        Ok(
            Scratchpad {
                triggers: Triggers {
                    high: to_signed(bytes[TRIGGER_HIGH_OFFSET]),
                    low: to_signed(bytes[TRIGGER_LOW_OFFSET]),
                },
                configuration: Configuration { resolution },
            },
        )
    }

    /// The three bytes to send when writing the scratchpad.
    pub fn to_bytes(&self) -> (bytes: [u8; 3])
        ensures
            bytes@ == self.written(),
    {
        let bytes = [
            to_unsigned(self.triggers.high),
            to_unsigned(self.triggers.low),
            self.configuration.resolution.to_register(),
        ];
        assert(bytes@ =~= self.written());
        bytes
    }
}

/// Nine bytes whose trailing byte does not fit the eight before it are
/// rejected with the CRC mismatch, whatever else they hold: no scratchpad
/// comes of them.
pub proof fn lemma_mismatch_rejected(bytes: Seq<u8>)
    requires
        crate::crc8::checksum(bytes) != 0,
    ensures
        Scratchpad::parse(bytes) == Err::<Scratchpad, Error>(
            Error::MismatchedCrc { crc8: crate::crc8::checksum(bytes) },
        ),
{
}

} // verus!
