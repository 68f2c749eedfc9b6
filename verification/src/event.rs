//! Reversible move-log entries.
//!
//! An `Event` records exactly one atomic board transition, carrying enough
//! data (including the ko restriction that held before it) to be applied and
//! later exactly reversed. `Events` is the append/pop-only committed history.

use vstd::prelude::*;
use crate::Piece;
use crate::board::Pos;

verus! {

/// An event in a go game.
#[derive(Debug)]
pub enum Event {
    /// A stone placed with no resulting capture.
    Play { pos: Pos, color: Piece, prev_ko: Option<Pos> },
    /// A stone placed that removes one or more opposing stones.
    Capture { pos: Pos, color: Piece, captured: Vec<Pos>, prev_ko: Option<Pos> },
    /// A direct board edit outside normal play, kept for setup and editing.
    Edit { pos: Pos, from: Piece, to: Piece },
    /// A composite of other events, applied in order and reversed in
    /// reverse order.
    Edits(Vec<Event>),
    /// No board change; advances the turn and clears ko.
    Pass { color: Piece, prev_ko: Option<Pos> },
}

impl Event {
    /// The acting position of a `Play` or `Capture`, none for the others.
    pub open spec fn play_pos_spec(&self) -> Option<Pos> {
        match self {
            Event::Play { pos, .. } => Option::Some(*pos),
            Event::Capture { pos, .. } => Option::Some(*pos),
            _ => Option::None,
        }
    }

    /// The acting color of a `Play` or `Capture`, none for the others.
    pub open spec fn play_color_spec(&self) -> Option<Piece> {
        match self {
            Event::Play { color, .. } => Option::Some(*color),
            Event::Capture { color, .. } => Option::Some(*color),
            _ => Option::None,
        }
    }

    /// Whether this is a `Pass` entry.
    pub open spec fn is_pass(&self) -> bool {
        match self {
            Event::Pass { .. } => true,
            _ => false,
        }
    }

    pub fn play_pos(&self) -> (r: Option<Pos>)
        ensures
            r == self.play_pos_spec(),
    {
        match self {
            Event::Play { pos, .. } => Option::Some(*pos),
            Event::Capture { pos, .. } => Option::Some(*pos),
            _ => Option::None,
        }
    }

    pub fn play_color(&self) -> (r: Option<Piece>)
        ensures
            r == self.play_color_spec(),
    {
        match self {
            Event::Play { color, .. } => Option::Some(*color),
            Event::Capture { color, .. } => Option::Some(*color),
            _ => Option::None,
        }
    }
}

/// The committed history: a stack of events, newest last.
#[derive(Debug)]
pub struct Events(Vec<Event>);

impl Events {
    /// The logged events, oldest first.
    pub closed spec fn entries(&self) -> Seq<Event> {
        self.0@
    }

    pub fn new() -> (r: Self)
        ensures
            r.entries() == Seq::<Event>::empty(),
    {
        Events(Vec::new())
    }

    pub fn push(&mut self, evt: Event)
        ensures
            final(self).entries() == old(self).entries().push(evt),
    {
        self.0.push(evt);
    }

    pub fn pop(&mut self) -> (r: Option<Event>)
        ensures
            old(self).entries().len() == 0 ==> r == Option::<Event>::None && final(self).entries()
                == old(self).entries(),
            old(self).entries().len() > 0 ==> r == Option::Some(old(self).entries().last())
                && final(self).entries() == old(self).entries().drop_last(),
    {
        self.0.pop()
    }

    /// The newest entry, none if the log is empty.
    pub fn last(&self) -> (r: Option<&Event>)
        ensures
            match r {
                Option::None => self.entries().len() == 0,
                Option::Some(e) => self.entries().len() > 0 && *e == self.entries().last(),
            },
    {
        if self.0.len() == 0 {
            Option::None
        } else {
            Option::Some(&self.0[self.0.len() - 1])
        }
    }

    /// Where the newest entry placed a stone, none if the log is empty or
    /// its newest entry placed none.
    pub fn last_played_pos(&self) -> (r: Option<Pos>)
        ensures
            self.entries().len() == 0 ==> r == Option::<Pos>::None,
            self.entries().len() > 0 ==> r == self.entries().last().play_pos_spec(),
    {
        match self.last() {
            Option::Some(e) => e.play_pos(),
            Option::None => Option::None,
        }
    }

    /// Whether the newest entry is a pass.
    pub fn last_was_pass(&self) -> (r: bool)
        ensures
            r == (self.entries().len() > 0 && self.entries().last().is_pass()),
    {
        match self.last() {
            Option::Some(e) => matches!(e, Event::Pass { .. }),
            Option::None => false,
        }
    }
}

impl Default for Events {
    fn default() -> (r: Self)
        ensures
            r.entries() == Seq::<Event>::empty(),
    {
        Self::new()
    }
}

} // verus!
