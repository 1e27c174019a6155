//! What the user asks for: which requests are refused, and how often progress
//! is shown.

use vstd::prelude::*;

use crate::text::{starts_with, has_prefix, to_chars};

verus! {

/// What `char::is_whitespace` says of a character.
pub uninterp spec fn whitespace(c: char) -> bool;

/// `char::is_whitespace` of std tells by the Unicode tables whether a character
/// is white space: its answer depends on the character alone. The space, the tab
/// and the ends of lines are white space, and no letter, digit or punctuation mark of ASCII is.
pub assume_specification[ char::is_whitespace ](c: char) -> (r: bool)
    ensures
        r == whitespace(c),
        c == ' ' || c == '\t' || c == '\n' || c == '\r' ==> r,
        '!' <= c && c <= '~' ==> !r,
;

/// Whether a text holds white space.
pub open spec fn has_whitespace(s: Seq<char>) -> bool {
    exists|i: int| 0 <= i < s.len() && whitespace(#[trigger] s[i])
}

/// Whether a text holds white space only.
pub open spec fn is_blank(s: Seq<char>) -> bool {
    forall|i: int| 0 <= i < s.len() ==> whitespace(#[trigger] s[i])
}

/// Whether a link may be opened: secure links without white space only.
pub fn may_open(url: &str) -> (r: bool)
    ensures
        r == (has_prefix(url@, "https://"@) && !has_whitespace(url@)),
        r ==> forall|i: int| 0 <= i < url@.len() ==> !whitespace(#[trigger] url@[i]),
{
    if !starts_with(url, "https://") {
        return false;
    }
    let v = to_chars(url);
    let mut i: usize = 0;
    while i < v.len()
        invariant
            i <= v.len(),
            v@ == url@,
            forall|k: int| 0 <= k < i ==> !whitespace(#[trigger] v@[k]),
        decreases v.len() - i,
    {
        if v[i].is_whitespace() {
            assert(whitespace(url@[i as int]));
            return false;
        }
        i = i + 1;
    }
    true
}

/// Whether a text holds white space only.
fn blank(s: &str) -> (r: bool)
    ensures
        r == is_blank(s@),
{
    let v = to_chars(s);
    let mut i: usize = 0;
    while i < v.len()
        invariant
            i <= v.len(),
            v@ == s@,
            forall|k: int| 0 <= k < i ==> whitespace(#[trigger] v@[k]),
        decreases v.len() - i,
    {
        if !v[i].is_whitespace() {
            return false;
        }
        i = i + 1;
    }
    true
}

/// What is written.
#[derive(Debug, Clone, Copy, PartialEq, Eq, Structural)]
pub enum Goal {
    Merge,
    Synchronise,
    Master,
}

/// Why a request to write is refused.
#[derive(Debug, Clone, Copy, PartialEq, Eq, Structural)]
pub enum Refusal {
    /// Nothing was looked at before.
    NoPlan { goal: Goal },
    /// Nothing was chosen.
    NothingChosen { goal: Goal },
    NoFolder,
    Busy,
}

impl Refusal {
    /// The reason in words.
    pub open spec fn words(self) -> Seq<char> {
        match self {
            Refusal::NoPlan { goal: Goal::Merge } => "Bitte zuerst einen Ordner scannen."@,
            Refusal::NoPlan { goal: Goal::Synchronise } => "Bitte zuerst Tracks analysieren."@,
            Refusal::NoPlan { goal: Goal::Master } => "Bitte zuerst Dateien analysieren."@,
            Refusal::NothingChosen { goal: Goal::Merge } => "Keine Aufnahmen ausgewählt."@,
            Refusal::NothingChosen { goal: Goal::Synchronise } => "Keine Abschnitte ausgewählt."@,
            Refusal::NothingChosen { goal: Goal::Master } => "Keine Dateien ausgewählt."@,
            Refusal::NoFolder => "Kein Zielordner angegeben."@,
            Refusal::Busy => "Es läuft bereits ein Vorgang."@,
        }
    }

    /// The reason in words.
    pub fn text(&self) -> (r: &'static str)
        ensures
            r@ == self.words(),
    {
        match *self {
            Refusal::NoPlan { goal: Goal::Merge } => "Bitte zuerst einen Ordner scannen.",
            Refusal::NoPlan { goal: Goal::Synchronise } => "Bitte zuerst Tracks analysieren.",
            Refusal::NoPlan { goal: Goal::Master } => "Bitte zuerst Dateien analysieren.",
            Refusal::NothingChosen { goal: Goal::Merge } => "Keine Aufnahmen ausgewählt.",
            Refusal::NothingChosen { goal: Goal::Synchronise } => "Keine Abschnitte ausgewählt.",
            Refusal::NothingChosen { goal: Goal::Master } => "Keine Dateien ausgewählt.",
            Refusal::NoFolder => "Kein Zielordner angegeben.",
            Refusal::Busy => "Es läuft bereits ein Vorgang.",
        }
    }
}

/// Why a request to write so many files to a folder is refused, if so. `busy`
/// tells whether something is going on already.
pub fn refusal(goal: Goal, planned: bool, chosen: usize, folder: &str, busy: bool) -> (r: Option<Refusal>)
    ensures
        r is None <==> planned && chosen > 0 && !busy && (exists|i: int| 0 <= i < folder@.len() && !whitespace(#[trigger] folder@[i])),
        r is Some && planned && chosen > 0 && !busy ==> r == Some(Refusal::NoFolder),
        r == if !planned {
            Some(Refusal::NoPlan { goal })
        } else if chosen == 0 {
            Some(Refusal::NothingChosen { goal })
        } else if is_blank(folder@) {
            Some(Refusal::NoFolder)
        } else if busy {
            Some(Refusal::Busy)
        } else {
            None
        },
{
    if !planned {
        Some(Refusal::NoPlan { goal })
    } else if chosen == 0 {
        Some(Refusal::NothingChosen { goal })
    } else if blank(folder) {
        Some(Refusal::NoFolder)
    } else if busy {
        Some(Refusal::Busy)
    } else {
        None
    }
}

/// Whether progress is shown: always at milestones, otherwise not more often
/// than every `pause` milliseconds. `since` is the time since it was shown last.
pub fn shows(milestone: bool, since: Option<u64>, pause: u64) -> (r: bool)
    ensures
        r == (milestone || (match since {
            Some(ms) => ms >= pause,
            None => true,
        })),
        milestone || since is None ==> r,
        !r ==> (since matches Some(ms) && ms < pause),
{
    milestone || match since {
        Some(ms) => ms >= pause,
        None => true,
    }
}

} // verus!
