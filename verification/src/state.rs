//! The mathematical model of a game state and of event application.
//!
//! `StateV` abstracts a game as its grid contents, side to move and ko
//! restriction. `apply_event` and `reverse_event` give the meaning of each
//! `Event`; `reversible` states when an event can be undone exactly, and the
//! round-trip lemma proves that reversing an applied event restores the
//! state bit for bit.

use vstd::prelude::*;
use crate::Piece;
use crate::board::{Pos, enc, in_grid, lemma_enc_in_bounds, lemma_enc_injective};
use crate::event::Event;

verus! {

/// The abstract state of a game: grid contents in row-major order, the side
/// to move, and the point (if any) where immediate recapture is forbidden.
#[verifier::ext_equal]
pub struct StateV {
    pub side: int,
    pub grid: Seq<Piece>,
    pub turn: Piece,
    pub ko: Option<Pos>,
}

impl StateV {
    /// The grid really is a square of the stated side length.
    pub open spec fn wf(&self) -> bool {
        &&& 0 < self.side
        &&& self.side * self.side <= u32::MAX
        &&& self.grid.len() == self.side * self.side
    }
}

/// Whether row-major index `i` belongs to one of the positions in `caps`.
pub open spec fn covers(side: int, caps: Seq<Pos>, i: int) -> bool {
    exists|j: int| 0 <= j < caps.len() && enc(side, #[trigger] caps[j]) == i
}

/// Every coordinate the event touches lies on a board of side `side`.
pub open spec fn event_wf(e: Event, side: int) -> bool
    decreases e,
{
    match e {
        Event::Play { pos, .. } => in_grid(side, pos),
        Event::Capture { pos, captured, .. } => in_grid(side, pos) && forall|j: int|
            0 <= j < captured@.len() ==> in_grid(side, #[trigger] captured@[j]),
        Event::Edit { pos, .. } => in_grid(side, pos),
        Event::Edits(edits) => events_wf(edits@, side),
        Event::Pass { .. } => true,
    }
}

/// Every coordinate any of the events touches lies on the board.
pub open spec fn events_wf(evs: Seq<Event>, side: int) -> bool
    decreases evs,
{
    forall|j: int| 0 <= j < evs.len() ==> event_wf(#[trigger] evs[j], side)
}

/// The state after committing `e`: stones placed and captures emptied, the
/// turn flipped, and ko set exactly when a single stone was captured.
pub open spec fn apply_event(s: StateV, e: Event) -> StateV
    decreases e,
{
    match e {
        Event::Play { pos, color, .. } => StateV {
            grid: s.grid.update(enc(s.side, pos), color),
            turn: s.turn.opposing_spec(),
            ko: Option::None,
            ..s
        },
        Event::Capture { pos, color, captured, .. } => StateV {
            grid: Seq::new(
                s.grid.len(),
                |i: int|
                    if covers(s.side, captured@, i) {
                        Piece::Empty
                    } else if i == enc(s.side, pos) {
                        color
                    } else {
                        s.grid[i]
                    },
            ),
            turn: s.turn.opposing_spec(),
            ko: if captured@.len() == 1 {
                Option::Some(captured@[0])
            } else {
                Option::None
            },
            ..s
        },
        Event::Edit { pos, to, .. } => StateV { grid: s.grid.update(enc(s.side, pos), to), ..s },
        Event::Edits(edits) => apply_events(s, edits@),
        Event::Pass { .. } => StateV { turn: s.turn.opposing_spec(), ko: Option::None, ..s },
    }
}

/// The state after committing a sequence of events in order.
pub open spec fn apply_events(s: StateV, evs: Seq<Event>) -> StateV
    decreases evs,
{
    if evs.len() == 0 {
        s
    } else {
        apply_event(apply_events(s, evs.drop_last()), evs.last())
    }
}

/// The state after reversing `e`: placed stones removed, captured stones
/// restored to the opposing color, the turn flipped back and the prior ko
/// restriction reinstated.
pub open spec fn reverse_event(s: StateV, e: Event) -> StateV
    decreases e,
{
    match e {
        Event::Play { pos, prev_ko, .. } => StateV {
            grid: s.grid.update(enc(s.side, pos), Piece::Empty),
            turn: s.turn.opposing_spec(),
            ko: prev_ko,
            ..s
        },
        Event::Capture { pos, color, captured, prev_ko } => StateV {
            grid: Seq::new(
                s.grid.len(),
                |i: int|
                    if covers(s.side, captured@, i) {
                        color.opposing_spec()
                    } else if i == enc(s.side, pos) {
                        Piece::Empty
                    } else {
                        s.grid[i]
                    },
            ),
            turn: s.turn.opposing_spec(),
            ko: prev_ko,
            ..s
        },
        Event::Edit { pos, from, .. } => StateV {
            grid: s.grid.update(enc(s.side, pos), from),
            ..s
        },
        Event::Edits(edits) => reverse_events(s, edits@),
        Event::Pass { prev_ko, .. } => StateV { turn: s.turn.opposing_spec(), ko: prev_ko, ..s },
    }
}

/// The state after reversing a sequence of events, newest first.
pub open spec fn reverse_events(s: StateV, evs: Seq<Event>) -> StateV
    decreases evs,
{
    if evs.len() == 0 {
        s
    } else {
        reverse_events(reverse_event(s, evs.last()), evs.drop_last())
    }
}

/// When reversing `e` after applying it restores the state exactly: the
/// played point was empty, each captured stone stood on board in the
/// opposing color and away from the played point, and the recorded prior ko
/// is the current one.
pub open spec fn reversible(s: StateV, e: Event) -> bool
    decreases e,
{
    match e {
        Event::Play { pos, color, prev_ko } => in_grid(s.side, pos) && s.grid[enc(s.side, pos)]
            == Piece::Empty && prev_ko == s.ko,
        Event::Capture { pos, color, captured, prev_ko } => in_grid(s.side, pos) && s.grid[enc(
            s.side,
            pos,
        )] == Piece::Empty && prev_ko == s.ko && forall|j: int|
            0 <= j < captured@.len() ==> in_grid(s.side, #[trigger] captured@[j]) && s.grid[enc(
                s.side,
                captured@[j],
            )] == color.opposing_spec() && captured@[j] != pos,
        Event::Edit { pos, from, .. } => in_grid(s.side, pos) && s.grid[enc(s.side, pos)] == from,
        Event::Edits(edits) => reversible_events(s, edits@),
        Event::Pass { prev_ko, .. } => prev_ko == s.ko,
    }
}

/// Each event of the sequence is reversible in the state reached by
/// applying the ones before it.
pub open spec fn reversible_events(s: StateV, evs: Seq<Event>) -> bool
    decreases evs,
{
    evs.len() == 0 || (reversible_events(s, evs.drop_last()) && reversible(
        apply_events(s, evs.drop_last()),
        evs.last(),
    ))
}

/// Applying any event preserves the shape of the state.
pub proof fn lemma_apply_keeps_wf(s: StateV, e: Event)
    requires
        s.wf(),
        reversible(s, e) || event_wf(e, s.side),
    ensures
        apply_event(s, e).wf(),
        apply_event(s, e).side == s.side,
        apply_event(s, e).grid.len() == s.grid.len(),
    decreases e,
{
    match e {
        Event::Edits(edits) => {
            lemma_apply_seq_keeps_wf(s, edits@);
        },
        Event::Play { pos, .. } => {
            lemma_enc_in_bounds(s.side, pos);
        },
        Event::Edit { pos, .. } => {
            lemma_enc_in_bounds(s.side, pos);
        },
        _ => {},
    }
}

/// Applying any event sequence preserves the shape of the state.
pub proof fn lemma_apply_seq_keeps_wf(s: StateV, evs: Seq<Event>)
    requires
        s.wf(),
        reversible_events(s, evs) || events_wf(evs, s.side),
    ensures
        apply_events(s, evs).wf(),
        apply_events(s, evs).side == s.side,
        apply_events(s, evs).grid.len() == s.grid.len(),
    decreases evs,
{
    if evs.len() > 0 {
        lemma_apply_seq_keeps_wf(s, evs.drop_last());
        if events_wf(evs, s.side) {
            assert(event_wf(evs.last(), s.side));
        }
        lemma_apply_keeps_wf(apply_events(s, evs.drop_last()), evs.last());
    }
}

/// Reversing any event preserves the shape of the state.
pub proof fn lemma_reverse_keeps_wf(s: StateV, e: Event)
    requires
        s.wf(),
        event_wf(e, s.side),
    ensures
        reverse_event(s, e).wf(),
        reverse_event(s, e).side == s.side,
        reverse_event(s, e).grid.len() == s.grid.len(),
    decreases e,
{
    match e {
        Event::Edits(edits) => {
            lemma_reverse_seq_keeps_wf(s, edits@);
        },
        Event::Play { pos, .. } => {
            lemma_enc_in_bounds(s.side, pos);
        },
        Event::Edit { pos, .. } => {
            lemma_enc_in_bounds(s.side, pos);
        },
        _ => {},
    }
}

/// Reversing any event sequence preserves the shape of the state.
pub proof fn lemma_reverse_seq_keeps_wf(s: StateV, evs: Seq<Event>)
    requires
        s.wf(),
        events_wf(evs, s.side),
    ensures
        reverse_events(s, evs).wf(),
        reverse_events(s, evs).side == s.side,
        reverse_events(s, evs).grid.len() == s.grid.len(),
    decreases evs,
{
    if evs.len() > 0 {
        assert(event_wf(evs.last(), s.side));
        lemma_reverse_keeps_wf(s, evs.last());
        let s1 = reverse_event(s, evs.last());
        assert forall|j: int| 0 <= j < evs.drop_last().len() implies event_wf(
            #[trigger] evs.drop_last()[j],
            s1.side,
        ) by {
            assert(event_wf(evs[j], s.side));
        }
        lemma_reverse_seq_keeps_wf(s1, evs.drop_last());
    }
}

/// Committing a reversible event and immediately reversing it restores the
/// grid, the side to move and the ko restriction exactly.
pub proof fn lemma_apply_then_reverse(s: StateV, e: Event)
    requires
        s.wf(),
        reversible(s, e),
    ensures
        reverse_event(apply_event(s, e), e) == s,
    decreases e,
{
    let s1 = apply_event(s, e);
    match e {
        Event::Play { pos, color, prev_ko } => {
            lemma_enc_in_bounds(s.side, pos);
            assert(reverse_event(s1, e).grid =~= s.grid);
            assert(reverse_event(s1, e) =~= s);
        },
        Event::Capture { pos, color, captured, prev_ko } => {
            lemma_enc_in_bounds(s.side, pos);
            let s2 = reverse_event(s1, e);
            assert forall|i: int| 0 <= i < s.grid.len() implies s2.grid[i] == s.grid[i] by {
                if covers(s.side, captured@, i) {
                    let j = choose|j: int|
                        0 <= j < captured@.len() && enc(s.side, #[trigger] captured@[j]) == i;
                    assert(s.grid[i] == color.opposing_spec());
                } else if i == enc(s.side, pos) {
                    assert(s.grid[i] == Piece::Empty);
                }
            }
            assert(s2.grid =~= s.grid);
            assert(s2 =~= s);
        },
        Event::Edit { pos, from, to } => {
            lemma_enc_in_bounds(s.side, pos);
            assert(reverse_event(s1, e).grid =~= s.grid);
            assert(reverse_event(s1, e) =~= s);
        },
        Event::Edits(edits) => {
            lemma_apply_then_reverse_seq(s, edits@);
        },
        Event::Pass { color, prev_ko } => {
            assert(reverse_event(s1, e) =~= s);
        },
    }
}

/// Committing a reversible event sequence and reversing it, newest first,
/// restores the state exactly.
pub proof fn lemma_apply_then_reverse_seq(s: StateV, evs: Seq<Event>)
    requires
        s.wf(),
        reversible_events(s, evs),
    ensures
        reverse_events(apply_events(s, evs), evs) == s,
    decreases evs,
{
    if evs.len() > 0 {
        let s0 = apply_events(s, evs.drop_last());
        lemma_apply_seq_keeps_wf(s, evs.drop_last());
        lemma_apply_then_reverse(s0, evs.last());
        lemma_apply_then_reverse_seq(s, evs.drop_last());
    }
}

} // verus!
