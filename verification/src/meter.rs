//! The loudness meter of ebur128.

use vstd::prelude::*;

verus! {

/// A loudness meter of ebur128.
#[verifier::external_type_specification]
#[verifier::external_body]
pub struct ExEbuR128(ebur128::EbuR128);

/// What a meter is to measure.
#[derive(Debug, Clone, Copy, PartialEq, Eq, Structural)]
pub enum Measure {
    /// Loudness, loudness range and true peak.
    Everything,
    /// Loudness.
    Loudness,
}

/// What goes wrong with a meter.
#[derive(Debug, Clone, Copy, PartialEq, Eq, Structural)]
pub enum MeterError {
    NoMem,
    InvalidMode,
    InvalidChannelIndex,
}

impl MeterError {
    /// The error in words.
    pub open spec fn words(self) -> Seq<char> {
        match self {
            MeterError::NoMem => "Lautheitsmessung: NoMem"@,
            MeterError::InvalidMode => "Lautheitsmessung: InvalidMode"@,
            MeterError::InvalidChannelIndex => "Lautheitsmessung: InvalidChannelIndex"@,
        }
    }

    /// The error in words.
    pub fn text(&self) -> (r: String)
        ensures
            r@ == self.words(),
    {
        match *self {
            MeterError::NoMem => "Lautheitsmessung: NoMem".to_string(),
            MeterError::InvalidMode => "Lautheitsmessung: InvalidMode".to_string(),
            MeterError::InvalidChannelIndex => "Lautheitsmessung: InvalidChannelIndex".to_string(),
        }
    }
}

/// Channels and sample rates that can be metered.
pub open spec fn meterable(channels: int, rate: int) -> bool {
    1 <= channels <= 64 && 16 <= rate <= 2_822_400
}

/// Whether the buffers of a meter can be addressed on this machine.
pub open spec fn addressable_rate(rate: int) -> bool {
    usize::BITS == 64 || rate <= 1_000_000
}

/// What a meter was made for.
pub struct Range {
    pub channels: u32,
    pub rate: u32,
    pub measures: Measure,
}

/// A loudness meter, with the record of what it was made for.
pub struct Meter {
    meter: ebur128::EbuR128,
    range: Ghost<Range>,
}

impl Meter {
    /// What the meter was made for.
    pub closed spec fn range(&self) -> Range {
        self.range@
    }

    /// The meter of ebur128.
    pub closed spec fn inner(&self) -> ebur128::EbuR128 {
        self.meter
    }

    /// `ebur128::EbuR128::new` makes a meter for up to 64 channels and rates
    /// from 16 to 2,822,400 Hz; for anything else it reports a lack of memory.
    #[verifier::external_body]
    pub(crate) fn new(channels: u32, rate: u32, what: Measure) -> (r: Result<Meter, MeterError>)
        requires
            addressable_rate(rate as int),
        ensures
            match r {
                Ok(m) => meterable(channels as int, rate as int) && m.range() == (Range { channels, rate, measures: what }),
                Err(e) => !meterable(channels as int, rate as int) && e == MeterError::NoMem,
            },
    {
        let mode = match what {
            Measure::Everything => ebur128::Mode::I | ebur128::Mode::LRA | ebur128::Mode::TRUE_PEAK,
            Measure::Loudness => ebur128::Mode::I,
        };
        let made = ebur128::EbuR128::new(channels, rate, mode);
        made.map(|meter| Meter { meter, range: Ghost(Range { channels, rate, measures: what }) }).map_err(|e| match e {
            ebur128::Error::NoMem => MeterError::NoMem,
            ebur128::Error::InvalidMode => MeterError::InvalidMode,
            ebur128::Error::InvalidChannelIndex => MeterError::InvalidChannelIndex,
        })
    }

    /// The meter of ebur128.
    pub fn into_meter(self) -> (r: ebur128::EbuR128)
        ensures
            r == self.inner(),
    {
        self.meter
    }
}

} // verus!
