//! LAME's encoder: what is set of one, and what one was built with.

use vstd::prelude::*;

verus! {

/// The settings of an MP3 encoder of LAME.
#[verifier::external_type_specification]
#[verifier::external_body]
pub struct ExBuilder(mp3lame_encoder::Builder);

/// An MP3 encoder of LAME.
#[verifier::external_type_specification]
#[verifier::external_body]
pub struct ExEncoder(mp3lame_encoder::Encoder);

/// How channels are encoded.
#[derive(Debug, Clone, Copy, PartialEq, Eq, Structural)]
pub enum ChannelMode {
    Mono,
    JointStereo,
}

/// Bit rates of results.
#[derive(Debug, Clone, Copy, PartialEq, Eq, Structural)]
pub enum BitRate {
    Kbps192,
}

/// How a bit rate varies.
#[derive(Debug, Clone, Copy, PartialEq, Eq, Structural)]
pub enum Variation {
    Constant,
}

/// How carefully is encoded.
#[derive(Debug, Clone, Copy, PartialEq, Eq, Structural)]
pub enum Care {
    NearBest,
}

/// What was set of an encoder. What is missing is as LAME has it; title and
/// comment are as they were handed over.
pub struct Made {
    pub channels: Option<u8>,
    pub rate: Option<u32>,
    pub variation: Option<Variation>,
    pub bit_rate: Option<BitRate>,
    pub care: Option<Care>,
    pub mode: Option<ChannelMode>,
    pub vbr_tag: Option<bool>,
    pub title: Option<Seq<char>>,
    pub comment: Option<Seq<char>>,
}

/// Nothing was set.
pub open spec fn untouched() -> Made {
    Made {
        channels: None,
        rate: None,
        variation: None,
        bit_rate: None,
        care: None,
        mode: None,
        vbr_tag: None,
        title: None,
        comment: None,
    }
}

/// The sample rate that LAME takes for this one: it counts up to 2,147,483,647 Hz.
pub open spec fn rate_taken(rate: u32) -> u32 {
    if rate > 2_147_483_647 {
        2_147_483_647
    } else {
        rate
    }
}

/// An encoder that is not built yet. Only the functions below touch its
/// settings, and each keeps the record of what was set.
pub struct Draft {
    builder: mp3lame_encoder::Builder,
    made: Ghost<Made>,
}

/// An encoder that is built, with the record of what was set of it.
pub struct Coder {
    encoder: mp3lame_encoder::Encoder,
    made: Ghost<Made>,
}

impl Draft {
    /// What was set.
    pub closed spec fn made(&self) -> Made {
        self.made@
    }

    /// `mp3lame_encoder::Builder::new`: an encoder of which nothing is set, or
    /// nothing where memory is short.
    #[verifier::external_body]
    pub(crate) fn new() -> (r: Option<Draft>)
        ensures
            r matches Some(d) ==> d.made() == untouched(),
    {
        mp3lame_encoder::Builder::new().map(|builder| Draft { builder, made: Ghost(untouched()) })
    }

    /// `Builder::set_num_channels` sets the number of channels where it is one
    /// or two, and refuses any other.
    #[verifier::external_body]
    pub(crate) fn set_channels(&mut self, n: u8) -> (r: bool)
        ensures
            r == (1 <= n <= 2),
            final(self).made() == if r {
                (Made { channels: Some(n), ..old(self).made() })
            } else {
                old(self).made()
            },
    {
        self.builder.set_num_channels(n).is_ok()
    }

    /// `Builder::set_sample_rate` sets any rate but zero, a larger one than LAME
    /// counts as the largest; whether the rate can be encoded shows when the
    /// encoder is built.
    #[verifier::external_body]
    pub(crate) fn set_rate(&mut self, rate: u32) -> (r: bool)
        ensures
            r == (rate > 0),
            final(self).made() == if r {
                (Made { rate: Some(rate_taken(rate)), ..old(self).made() })
            } else {
                old(self).made()
            },
    {
        self.builder.set_sample_rate(rate).is_ok()
    }

    /// `Builder::set_vbr_mode` sets every mode that it names.
    #[verifier::external_body]
    pub(crate) fn set_variation(&mut self, v: Variation) -> (r: bool)
        ensures
            r,
            final(self).made() == (Made { variation: Some(v), ..old(self).made() }),
    {
        let mode = match v {
            Variation::Constant => mp3lame_encoder::VbrMode::Off,
        };
        self.builder.set_vbr_mode(mode).is_ok()
    }

    /// `Builder::set_brate` sets every bit rate that it names.
    #[verifier::external_body]
    pub(crate) fn set_bit_rate(&mut self, v: BitRate) -> (r: bool)
        ensures
            r,
            final(self).made() == (Made { bit_rate: Some(v), ..old(self).made() }),
    {
        let rate = match v {
            BitRate::Kbps192 => mp3lame_encoder::Bitrate::Kbps192,
        };
        self.builder.set_brate(rate).is_ok()
    }

    /// `Builder::set_quality` sets every quality that it names.
    #[verifier::external_body]
    pub(crate) fn set_care(&mut self, v: Care) -> (r: bool)
        ensures
            r,
            final(self).made() == (Made { care: Some(v), ..old(self).made() }),
    {
        let quality = match v {
            Care::NearBest => mp3lame_encoder::Quality::NearBest,
        };
        self.builder.set_quality(quality).is_ok()
    }

    /// `Builder::set_mode` sets every mode that it names.
    #[verifier::external_body]
    pub(crate) fn set_mode(&mut self, v: ChannelMode) -> (r: bool)
        ensures
            r,
            final(self).made() == (Made { mode: Some(v), ..old(self).made() }),
    {
        let mode = match v {
            ChannelMode::Mono => mp3lame_encoder::Mode::Mono,
            ChannelMode::JointStereo => mp3lame_encoder::Mode::JointStereo,
        };
        self.builder.set_mode(mode).is_ok()
    }

    /// `Builder::set_to_write_vbr_tag` sets both values.
    #[verifier::external_body]
    pub(crate) fn set_vbr_tag(&mut self, v: bool) -> (r: bool)
        ensures
            r,
            final(self).made() == (Made { vbr_tag: Some(v), ..old(self).made() }),
    {
        self.builder.set_to_write_vbr_tag(v).is_ok()
    }

    /// `Builder::set_id3_tag` starts a new tag and sets any title and comment (of
    /// which it takes the first 250 bytes, and none of an empty one), unless it is
    /// handed nothing at all; only album art can be too large for it.
    #[verifier::external_body]
    pub(crate) fn set_tag(&mut self, title: &str, comment: &str) -> (r: bool)
        requires
            comment@.len() > 0,
        ensures
            r,
            final(self).made() == (Made { title: Some(title@), comment: Some(comment@), ..old(self).made() }),
    {
        let (title, comment) = (title.as_bytes(), comment.as_bytes());
        let id3 = mp3lame_encoder::Id3Tag { title, artist: &[], album: &[], album_art: &[], year: &[], comment };
        self.builder.set_id3_tag(id3).is_ok()
    }

    /// `Builder::build`: an encoder with the settings made. LAME looks at the
    /// number of channels and the sample rate only, and takes all that can be set
    /// of them.
    #[verifier::external_body]
    pub(crate) fn build(self) -> (r: Option<Coder>)
        ensures
            self.made().channels is Some && self.made().rate is Some ==> r is Some,
            r matches Some(c) ==> c.made() == self.made(),
    {
        let made = self.made;
        self.builder.build().ok().map(|encoder| Coder { encoder, made })
    }
}

impl Coder {
    /// What was set.
    pub closed spec fn made(&self) -> Made {
        self.made@
    }

    /// LAME's encoder.
    pub closed spec fn inner(&self) -> mp3lame_encoder::Encoder {
        self.encoder
    }

    /// LAME's encoder.
    pub fn into_encoder(self) -> (r: mp3lame_encoder::Encoder)
        ensures
            r == self.inner(),
    {
        self.encoder
    }
}

/// `mp3lame_encoder::mp3lame_version`: the version of LAME that is built in,
/// which is 3.100.
#[verifier::external_body]
pub(crate) fn lame_version() -> (r: String)
    ensures
        r@ == "3.100"@,
{
    mp3lame_encoder::mp3lame_version().into_owned()
}

} // verus!
