//! Reading audio files packet by packet: what is done with each packet, and
//! when a file ends.

use vstd::prelude::*;

use crate::text::same;

verus! {

/// What asking a file for its next packet gave.
#[derive(Debug)]
pub enum Packet {
    /// A packet of a track.
    Of { track: u32 },
    /// The file ended.
    End,
    /// The tracks of the file change from here on.
    Reset,
    /// Reading failed.
    Failed { text: String },
}

/// What decoding a packet gave.
#[derive(Debug)]
pub enum Decoded {
    /// So many frames.
    Frames { count: usize },
    /// The packet is damaged.
    Damaged,
    /// Decoding failed.
    Failed { text: String },
}

/// What is done next.
#[derive(Debug)]
pub enum Next {
    /// Decode the packet.
    Decode,
    /// Ask for another packet.
    Skip,
    /// Hand the frames out.
    Give,
    /// Nothing follows.
    End,
    /// Give up.
    Fail { text: String },
}

/// What is done with a packet: those of other tracks are passed over; where the
/// file ends or its tracks change, nothing follows.
pub fn after_packet(p: &Packet, track: u32) -> (r: Next)
    ensures
        match *p {
            Packet::Of { track: t } => if t == track {
                r is Decode
            } else {
                r is Skip
            },
            Packet::End => r is End,
            Packet::Reset => r is End,
            Packet::Failed { text } => r matches Next::Fail { text: s } && s@ == "Lesefehler: "@ + text@,
        },
{
    match p {
        Packet::Of { track: t } => if *t == track {
            Next::Decode
        } else {
            Next::Skip
        },
        Packet::End => Next::End,
        Packet::Reset => Next::End,
        Packet::Failed { text } => {
            let mut s = "Lesefehler: ".to_string();
            s.append(text.as_str());
            Next::Fail { text: s }
        },
    }
}

/// What is done with a decoded packet: empty and damaged ones are passed over.
pub fn after_decoding(d: &Decoded) -> (r: Next)
    ensures
        match *d {
            Decoded::Frames { count } => if count > 0 {
                r is Give
            } else {
                r is Skip
            },
            Decoded::Damaged => r is Skip,
            Decoded::Failed { text } => r matches Next::Fail { text: s } && s@ == "Dekodierfehler: "@ + text@,
        },
{
    match d {
        Decoded::Frames { count } => if *count > 0 {
            Next::Give
        } else {
            Next::Skip
        },
        Decoded::Damaged => Next::Skip,
        Decoded::Failed { text } => {
            let mut s = "Dekodierfehler: ".to_string();
            s.append(text.as_str());
            Next::Fail { text: s }
        },
    }
}

/// Where a reader stands: whether its first frames are still to be handed out,
/// and whether the file has ended.
#[derive(Debug, Clone, Copy, PartialEq, Eq, Structural)]
pub struct Position {
    pub pending: bool,
    pub done: bool,
}

/// What a reader does when it is asked for frames.
#[derive(Debug, Clone, Copy, PartialEq, Eq, Structural)]
pub enum Source {
    /// Hand out the first frames, which were decoded when the file was opened.
    Pending,
    /// Decode.
    File,
    /// There is nothing left.
    Nothing,
}

impl Position {
    /// A file was opened and its first packet decoded; `more` tells whether there
    /// was one.
    pub fn opened(more: bool) -> (r: Position)
        ensures
            r.pending == more,
            r.done == !more,
    {
        Position { pending: more, done: !more }
    }

    /// Where the next frames come from.
    pub fn ask(&mut self) -> (r: Source)
        ensures
            r == if old(self).pending {
                Source::Pending
            } else if old(self).done {
                Source::Nothing
            } else {
                Source::File
            },
            !final(self).pending,
            final(self).done == old(self).done,
    {
        if self.pending {
            self.pending = false;
            Source::Pending
        } else if self.done {
            Source::Nothing
        } else {
            Source::File
        }
    }

    /// Takes in whether decoding gave frames.
    pub fn decoded(&mut self, more: bool)
        ensures
            final(self).pending == old(self).pending,
            final(self).done == !more,
    {
        self.done = !more;
    }
}

/// Whether a file is read as WAV first.
pub fn reads_wav(ext: &str) -> (r: bool)
    ensures
        r == (ext@ == "wav"@ || ext@ == "wave"@),
{
    same(ext, "wav") || same(ext, "wave")
}

/// Whether a file that was opened has audio to read; the reason if not.
pub fn has_audio(channels: usize, rate: u32) -> (r: Result<(), String>)
    ensures
        r is Ok <==> channels > 0 && rate > 0,
        r matches Err(e) ==> e@ == "enthält keine Audiodaten"@,
{
    if channels == 0 || rate == 0 {
        return Err("enthält keine Audiodaten".to_string());
    }
    Ok(())
}

/// How many of `len` samples make up whole frames.
pub fn whole_samples(len: usize, channels: usize) -> (r: usize)
    requires
        channels > 0,
    ensures
        r == len / channels * channels,
        r <= len,
        len - r < channels,
        r % channels == 0,
{
    proof {
        vstd::arithmetic::div_mod::lemma_fundamental_div_mod(len as int, channels as int);
        vstd::arithmetic::div_mod::lemma_mod_bound(len as int, channels as int);
        vstd::arithmetic::div_mod::lemma_mod_multiples_basic(len as int / channels as int, channels as int);
        assert(len / channels * channels == channels * (len / channels)) by (nonlinear_arith);
    }
    len - len % channels
}

} // verus!
