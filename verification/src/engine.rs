//! The encoder and the loudness meter: how they are set up for a file.

use vstd::prelude::*;

use crate::audio::{lowered_rates_are_encodable, lowering};
use crate::lame::{lame_version, rate_taken, BitRate, Care, ChannelMode, Coder, Draft, Made, Variation};
use crate::meter::{addressable_rate, meterable, Measure, Meter, Range};

verus! {

// ------------------------------------------------------------------ the encoder

/// Why there is no encoder.
#[derive(Debug, Clone, Copy, PartialEq, Eq, Structural)]
pub enum EncoderError {
    Unavailable,
    Setting,
}

impl EncoderError {
    /// The reason in words.
    pub open spec fn words(self) -> Seq<char> {
        match self {
            EncoderError::Unavailable => "MP3-Encoder nicht verfügbar"@,
            EncoderError::Setting => "MP3-Encoder: Einstellung nicht möglich"@,
        }
    }

    /// The reason in words.
    pub fn text(&self) -> (r: String)
        ensures
            r@ == self.words(),
    {
        match *self {
            EncoderError::Unavailable => "MP3-Encoder nicht verfügbar".to_string(),
            EncoderError::Setting => lame_err(()),
        }
    }
}

/// What is said where LAME refuses a setting, whatever it refused.
pub fn lame_err<E>(_refused: E) -> (r: String)
    ensures
        r@ == "MP3-Encoder: Einstellung nicht möglich"@,
{
    "MP3-Encoder: Einstellung nicht möglich".to_string()
}

/// How the channels of a file are encoded.
pub fn channel_mode(channels: u8) -> (r: ChannelMode)
    ensures
        r == if channels == 1 {
            ChannelMode::Mono
        } else {
            ChannelMode::JointStereo
        },
{
    if channels == 1 {
        ChannelMode::Mono
    } else {
        ChannelMode::JointStereo
    }
}

/// The settings of an encoder.
#[derive(Debug, Clone, Copy, PartialEq, Eq, Structural)]
pub struct Settings {
    pub channels: u8,
    pub rate: u32,
    pub variation: Variation,
    pub bit_rate: BitRate,
    pub care: Care,
    pub mode: ChannelMode,
    pub vbr_tag: bool,
}

/// The settings for so many channels at a sample rate: constant bit rate of
/// 192 kbit/s, near best quality, without a tag for variable bit rates.
pub open spec fn wanted(channels: u8, rate: u32) -> Settings {
    Settings {
        channels,
        rate,
        variation: Variation::Constant,
        bit_rate: BitRate::Kbps192,
        care: Care::NearBest,
        mode: if channels == 1 {
            ChannelMode::Mono
        } else {
            ChannelMode::JointStereo
        },
        vbr_tag: false,
    }
}

/// The settings for so many channels at a sample rate.
pub fn settings_for(channels: u8, rate: u32) -> (r: Settings)
    ensures
        r == wanted(channels, rate),
{
    Settings {
        channels,
        rate,
        variation: Variation::Constant,
        bit_rate: BitRate::Kbps192,
        care: Care::NearBest,
        mode: channel_mode(channels),
        vbr_tag: false,
    }
}

/// Whether an encoder accepts each of the settings by itself.
pub open spec fn acceptable(s: Settings) -> bool {
    1 <= s.channels <= 2 && s.rate > 0
}

/// What is set of an encoder by these settings, on top of what was set before.
pub open spec fn with_settings(m: Made, s: Settings) -> Made {
    Made {
        channels: Some(s.channels),
        rate: Some(rate_taken(s.rate)),
        variation: Some(s.variation),
        bit_rate: Some(s.bit_rate),
        care: Some(s.care),
        mode: Some(s.mode),
        vbr_tag: Some(s.vbr_tag),
        ..m
    }
}

/// Makes the settings of an encoder; says whether all of them were accepted.
pub fn apply(d: &mut Draft, s: &Settings) -> (r: bool)
    ensures
        r == acceptable(*s),
        r ==> final(d).made() == with_settings(old(d).made(), *s),
{
    d.set_channels(s.channels) && d.set_rate(s.rate) && d.set_variation(s.variation) && d.set_bit_rate(s.bit_rate) && d.set_care(s.care)
        && d.set_mode(s.mode) && d.set_vbr_tag(s.vbr_tag)
}

/// Whether this was set of an encoder: the settings for its channels and sample
/// rate, and the title and the target loudness in its tag.
pub open spec fn set_up(m: Made, channels: u8, rate: u32, title: Seq<char>) -> bool {
    &&& m == with_settings(m, wanted(channels, rate))
    &&& m.title == Some(title)
    &&& m.comment == Some("PrepareAudio: -16 LUFS"@)
}

/// Sets up an encoder from a draft: there is one exactly where there is a draft
/// and the settings are acceptable.
pub fn open_with(draft: Option<Draft>, channels: u8, rate: u32, title: &str) -> (r: Result<Coder, EncoderError>)
    ensures
        r is Ok <==> draft is Some && acceptable(wanted(channels, rate)),
        match r {
            Ok(c) => set_up(c.made(), channels, rate, title@),
            Err(e) => e == if draft is None {
                EncoderError::Unavailable
            } else {
                EncoderError::Setting
            },
        },
{
    let mut d = match draft {
        Some(d) => d,
        None => {
            return Err(EncoderError::Unavailable);
        },
    };
    let s = settings_for(channels, rate);
    proof {
        reveal_strlit("PrepareAudio: -16 LUFS");
    }
    if !apply(&mut d, &s) || !d.set_tag(title, "PrepareAudio: -16 LUFS") {
        return Err(EncoderError::Setting);
    }
    match d.build() {
        Some(c) => Ok(c),
        None => Err(EncoderError::Setting),
    }
}

/// Sets up an encoder for a file, with a title. Settings that are not acceptable
/// are always refused, and others only where memory is too short for an encoder.
pub fn open_encoder(channels: u8, rate: u32, title: &str) -> (r: Result<Coder, EncoderError>)
    ensures
        match r {
            Ok(c) => acceptable(wanted(channels, rate)) && set_up(c.made(), channels, rate, title@),
            Err(e) => e == EncoderError::Setting ==> !acceptable(wanted(channels, rate)),
        },
{
    open_with(Draft::new(), channels, rate, title)
}

// ------------------------------------------------------------------ the meter

/// Sets up a meter.
pub fn open_meter(channels: u32, rate: u32, what: Measure) -> (r: Result<Meter, String>)
    requires
        addressable_rate(rate as int),
    ensures
        match r {
            Ok(m) => meterable(channels as int, rate as int) && m.range() == (Range { channels, rate, measures: what }),
            Err(e) => !meterable(channels as int, rate as int) && e@ == "Lautheitsmessung: NoMem"@,
        },
{
    match Meter::new(channels, rate, what) {
        Ok(m) => Ok(m),
        Err(e) => Err(e.text()),
    }
}

// ------------------------------------------------------------------ the label

/// What does the work, with a version of LAME.
pub fn label_with(version: &str) -> (r: String)
    ensures
        r@ == "Symphonia · ebur128 · LAME "@ + version@,
{
    let mut s = "Symphonia · ebur128 · LAME ".to_string();
    s.append(version);
    s
}

/// What does the work, with the version of LAME that is built in.
pub fn engine_label() -> (r: String)
    ensures
        r@ == "Symphonia · ebur128 · LAME 3.100"@,
{
    let v = lame_version();
    let r = label_with(v.as_str());
    proof {
        reveal_strlit("Symphonia · ebur128 · LAME ");
        reveal_strlit("3.100");
        reveal_strlit("Symphonia · ebur128 · LAME 3.100");
    }
    r
}

/// What can be planned can be encoded: for one or two channels, at the sample
/// rate that a source is lowered to, the settings are acceptable, and the result
/// can be metered. One channel is mono, two are joint stereo.
pub proof fn what_is_planned_can_be_encoded(channels: u8, rate: int)
    requires
        1 <= channels <= 2,
        lowering(rate) is Some,
    ensures
        ({
            let to = (lowering(rate)->0).0;
            &&& acceptable(wanted(channels, to as u32))
            &&& meterable(channels as int, to)
            &&& rate_taken(to as u32) == to
            &&& wanted(channels, to as u32).rate == to && wanted(channels, to as u32).channels == channels
            &&& wanted(channels, to as u32).mode == ChannelMode::Mono <==> channels == 1
            &&& wanted(channels, to as u32).bit_rate == BitRate::Kbps192 && !wanted(channels, to as u32).vbr_tag
        }),
        !acceptable(wanted(0, rate as u32)),
        !acceptable(wanted(3, rate as u32)),
{
    lowered_rates_are_encodable(rate);
}

} // verus!
