//! A rules engine for the board game Go.
//!
//! The engine tracks the board, enforces move legality (occupancy, turn
//! order, self-capture, simple ko), computes captures through connected-group
//! liberty analysis, and keeps a reversible log of committed moves so that
//! any play can be undone exactly.
#![verifier::loop_isolation(false)]

use vstd::prelude::*;

mod board;
mod event;
mod state;

pub use board::{Board, Pos, adj, in_grid, enc, at, is_stone_path, connected, group_of,
    liberty_set, no_liberties, capture_set_around, closed_under_adj, lemma_connected_refl,
    lemma_connected_in_grid, lemma_connected_step, lemma_connected_sym, lemma_connected_trans,
    lemma_group_in_closed, lemma_group_eq, lemma_enc_in_bounds, lemma_enc_injective,
    lemma_distinct_in_grid_len};
pub use event::{Event, Events};
pub use state::{StateV, apply_event, apply_events, reverse_event, reverse_events, reversible,
    reversible_events, event_wf, events_wf, covers, lemma_apply_then_reverse,
    lemma_apply_then_reverse_seq, lemma_apply_keeps_wf, lemma_apply_seq_keeps_wf,
    lemma_reverse_keeps_wf, lemma_reverse_seq_keeps_wf};

verus! {

/// A stone of either player's color, or no stone at all.
#[derive(Debug, Clone, Copy, PartialEq, Eq, Structural)]
pub enum Piece {
    Empty,
    Black,
    White,
}

impl Piece {
    /// The color of the opponent: Black and White swap, Empty stays Empty.
    pub open spec fn opposing_spec(&self) -> Piece {
        match self {
            Piece::Empty => Piece::Empty,
            Piece::Black => Piece::White,
            Piece::White => Piece::Black,
        }
    }

    #[verifier::when_used_as_spec(opposing_spec)]
    pub fn opposing(&self) -> (r: Self)
        ensures
            r == self.opposing_spec(),
    {
        match self {
            Self::Empty => Self::Empty,
            Self::Black => Self::White,
            Self::White => Self::Black,
        }
    }
}

/// Caller intent: place a stone, or pass.
#[derive(Debug, Clone, Copy, PartialEq, Eq, Structural)]
pub enum Move {
    Place { pos: Pos, color: Piece },
    Pass,
}

/// Why a proposed move was rejected. The board, turn and ko restriction are
/// unchanged on every rejection.
#[derive(Debug, Clone, Copy, PartialEq, Eq, Structural)]
pub enum GoError {
    /// A move cannot be played because there is already a stone
    /// in that position.
    NotEmpty { move_: Move },
    /// The move made was for a player whose turn was not next.
    WrongTurn { move_: Move },
    /// Illegal self-capture.
    SelfCapture { move_: Move },
    /// Illegal ko capture.
    IllegalKo { move_: Move },
}

/// The grid after a stone of `color` is put down at `pos`.
pub open spec fn placed_grid(s: StateV, pos: Pos, color: Piece) -> Seq<Piece> {
    s.grid.update(enc(s.side, pos), color)
}

/// What a stone of `color` placed at `pos` captures: every opposing group
/// adjacent to `pos` that the placement leaves without liberties.
pub open spec fn place_captures(s: StateV, pos: Pos, color: Piece) -> Set<Pos> {
    capture_set_around(placed_grid(s, pos, color), s.side, pos, color.opposing_spec())
}

/// The placement captures nothing and its own group ends up with no
/// liberty: the move is an illegal self-capture.
pub open spec fn place_self_capture(s: StateV, pos: Pos, color: Piece) -> bool {
    place_captures(s, pos, color) == Set::<Pos>::empty() && no_liberties(
        placed_grid(s, pos, color),
        s.side,
        pos,
    )
}

/// The placement captures exactly one stone while standing on the point
/// protected by the simple-ko rule.
pub open spec fn place_illegal_ko(s: StateV, pos: Pos, color: Piece) -> bool {
    &&& place_captures(s, pos, color).finite()
    &&& place_captures(s, pos, color).len() == 1
    &&& s.ko == Option::Some(pos)
}

/// The event a legal placement commits: a bare `Play` when it captures
/// nothing, otherwise a `Capture` listing each captured stone exactly once.
pub open spec fn event_for_place(s: StateV, pos: Pos, color: Piece, e: Event) -> bool {
    if place_captures(s, pos, color) == Set::<Pos>::empty() {
        e == (Event::Play { pos, color, prev_ko: s.ko })
    } else {
        match e {
            Event::Capture { pos: p2, color: c2, captured, prev_ko } => p2 == pos && c2 == color
                && prev_ko == s.ko && captured@.no_duplicates() && captured@.to_set()
                == place_captures(s, pos, color) && captured@.len() >= 1,
            _ => false,
        }
    }
}

/// Ko bookkeeping: committing a placement leaves the ko restriction on the
/// captured point exactly when the placement captured a single stone; a
/// placement that captures nothing, or two or more stones, clears it.
/// (A committed pass clears it as well, directly by `apply_event`.)
pub proof fn lemma_ko_restriction(s: StateV, pos: Pos, color: Piece, e: Event)
    requires
        event_for_place(s, pos, color, e),
    ensures
        ({
            let caps = place_captures(s, pos, color);
            &&& (caps.finite() && caps.len() == 1 ==> (apply_event(s, e).ko matches Option::Some(c)
                && caps.contains(c)))
            &&& (!(caps.finite() && caps.len() == 1) ==> apply_event(s, e).ko == Option::<
                Pos,
            >::None)
        }),
{
    let caps = place_captures(s, pos, color);
    if caps == Set::<Pos>::empty() {
        assert(caps.finite() && caps.len() == 0);
        assert(apply_event(s, e).ko == Option::<Pos>::None);
    } else {
        match e {
            Event::Capture { captured, .. } => {
                vstd::seq_lib::seq_to_set_is_finite::<Pos>(captured@);
                captured@.unique_seq_to_set();
                assert(caps.finite() && caps.len() == captured@.len());
                if captured@.len() == 1 {
                    assert(captured@.contains(captured@[0]));
                    assert(captured@.to_set().contains(captured@[0]));
                    assert(apply_event(s, e).ko == Option::Some(captured@[0]));
                } else {
                    assert(apply_event(s, e).ko == Option::<Pos>::None);
                }
            },
            _ => {
                assert(false);
            },
        }
    }
}

/// Capture correctness, liberty half: a placement that is not a
/// self-capture leaves the placed stone on the resulting board with at
/// least one liberty for its group — either the placement itself kept a
/// liberty, or a captured adjacent group vacated one.
pub proof fn lemma_placed_group_keeps_liberty(s: StateV, pos: Pos, color: Piece, e: Event)
    requires
        s.wf(),
        in_grid(s.side, pos),
        color != Piece::Empty,
        event_for_place(s, pos, color, e),
        !place_self_capture(s, pos, color),
    ensures
        at(apply_event(s, e).grid, s.side, pos) == color,
        liberty_set(apply_event(s, e).grid, s.side, pos) != Set::<Pos>::empty(),
{
    let sd = s.side;
    let placed = placed_grid(s, pos, color);
    let caps = place_captures(s, pos, color);
    let g2 = apply_event(s, e).grid;
    lemma_enc_in_bounds(sd, pos);
    if caps == Set::<Pos>::empty() {
        assert(e == (Event::Play { pos, color, prev_ko: s.ko }));
        assert(g2 == placed);
        assert(at(g2, sd, pos) == color);
        assert(!no_liberties(placed, sd, pos));
    } else {
        assert(exists|a: Pos| caps.contains(a)) by {
            if !(exists|a: Pos| caps.contains(a)) {
                assert(caps =~= Set::<Pos>::empty());
            }
        }
        let c0 = choose|a: Pos| caps.contains(a);
        assert(caps.contains(c0));
        let q = choose|q: Pos|
            #[trigger] adj(pos, q) && in_grid(sd, q) && at(placed, sd, q)
                == color.opposing_spec() && no_liberties(placed, sd, q) && group_of(
                placed,
                sd,
                q,
            ).contains(c0);
        lemma_connected_refl(placed, sd, q);
        assert(caps.contains(q));
        let captured = choose|captured: Vec<Pos>|
            e == (Event::Capture { pos, color, captured, prev_ko: s.ko });
        assert(e matches Event::Capture { captured: cv, .. } && cv == captured) by {
            match e {
                Event::Capture { pos: p2, color: c2, captured: cv, prev_ko } => {
                    assert(e == (Event::Capture { pos, color, captured: cv, prev_ko: s.ko }));
                },
                _ => {
                    assert(false);
                },
            }
        }
        assert(captured@.to_set() == caps);
        assert(captured@.contains(q));
        let jq = choose|j: int| 0 <= j < captured@.len() && captured@[j] == q;
        lemma_enc_in_bounds(sd, q);
        assert(covers(sd, captured@, enc(sd, q)));
        assert(at(g2, sd, q) == Piece::Empty);
        assert(!covers(sd, captured@, enc(sd, pos))) by {
            if covers(sd, captured@, enc(sd, pos)) {
                let j = choose|j: int|
                    0 <= j < captured@.len() && enc(sd, #[trigger] captured@[j]) == enc(sd, pos);
                let c = captured@[j];
                assert(captured@.contains(c));
                assert(captured@.to_set().contains(c));
                assert(caps.contains(c));
                let q2 = choose|q2: Pos|
                    #[trigger] adj(pos, q2) && in_grid(sd, q2) && at(placed, sd, q2)
                        == color.opposing_spec() && no_liberties(placed, sd, q2) && group_of(
                        placed,
                        sd,
                        q2,
                    ).contains(c);
                lemma_connected_in_grid(placed, sd, q2, c);
                assert(at(placed, sd, c) == color.opposing_spec());
                assert(at(placed, sd, pos) == color);
                assert(c != pos);
                lemma_enc_injective(sd, c, pos);
                assert(false);
            }
        }
        assert(at(g2, sd, pos) == color);
        lemma_connected_refl(g2, sd, pos);
        assert(group_of(g2, sd, pos).contains(pos));
        assert(liberty_set(g2, sd, pos).contains(q));
    }
}

/// An on-board stone of color `enemy` whose group has no liberty left.
spec fn dead_at(grid: Seq<Piece>, side: int, q: Pos, enemy: Piece) -> bool {
    in_grid(side, q) && at(grid, side, q) == enemy && no_liberties(grid, side, q)
}

/// The orchestrator: one board, the side to move, the current simple-ko
/// restriction, and the committed history.
#[derive(Debug)]
pub struct Game {
    /// Storage of current board state.
    board: Board,
    /// The color of the next player to move. Never `Piece::Empty`.
    turn: Piece,
    /// The point, if any, where immediate recapture is forbidden.
    ko_coord: Option<Pos>,
    /// The committed history, a stack of events.
    events: Events,
}

impl Game {
    /// The abstract state: grid, side to move and ko restriction.
    pub closed spec fn sview(&self) -> StateV {
        StateV {
            side: self.board.side_len(),
            grid: self.board.grid(),
            turn: self.turn,
            ko: self.ko_coord,
        }
    }

    /// The committed events, oldest first.
    pub closed spec fn history(&self) -> Seq<Event> {
        self.events.entries()
    }

    /// The board is square, a player is to move, and every logged event
    /// touches only on-board points.
    pub open spec fn wf(&self) -> bool {
        &&& self.sview().wf()
        &&& self.sview().turn != Piece::Empty
        &&& events_wf(self.history(), self.sview().side)
    }

    /// A new game on a `side` x `side` board: all points empty, Black to
    /// move, no ko restriction, empty history.
    pub fn new(side: u32) -> (r: Self)
        requires
            0 < side,
            side * side <= u32::MAX,
        ensures
            r.wf(),
            r.sview().side == side,
            r.sview().turn == Piece::Black,
            r.sview().ko == Option::<Pos>::None,
            r.history() == Seq::<Event>::empty(),
            forall|p: Pos| in_grid(side as int, p) ==> at(r.sview().grid, side as int, p)
                == Piece::Empty,
    {
        let board = Board::new(side);
        proof {
            assert forall|p: Pos| in_grid(side as int, p) implies at(
                board.grid(),
                side as int,
                p,
            ) == Piece::Empty by {
                assert(board.contains_pos(p));
                assert(board.piece_at(p) == Piece::Empty);
            }
        }
        Game { board, turn: Piece::Black, ko_coord: Option::None, events: Events::new() }
    }

    /// Reference to the board, for read-only queries.
    pub fn board(&self) -> (r: &Board)
        ensures
            r.grid() == self.sview().grid,
            r.side_len() == self.sview().side,
    {
        &self.board
    }

    /// Changes turn.
    pub fn next_turn(&mut self)
        ensures
            final(self).sview() == (StateV {
                turn: old(self).sview().turn.opposing_spec(),
                ..old(self).sview()
            }),
            final(self).history() == old(self).history(),
    {
        self.turn = self.turn.opposing();
    }

    /// Changes turn back.
    pub fn prev_turn(&mut self)
        ensures
            final(self).sview() == (StateV {
                turn: old(self).sview().turn.opposing_spec(),
                ..old(self).sview()
            }),
            final(self).history() == old(self).history(),
    {
        self.turn = self.turn.opposing();
    }

    /// The piece color of the next player to play.
    pub fn next_to_play(&self) -> (r: Piece)
        ensures
            r == self.sview().turn,
    {
        self.turn
    }

    /// The number of points across one side of the go board.
    pub fn board_size(&self) -> (r: u32)
        ensures
            r == self.sview().side,
    {
        self.board.board_size()
    }

    /// The last played position if the last committed event placed a
    /// stone; none on an empty history or after a pass.
    pub fn last_played_pos(&self) -> (r: Option<Pos>)
        ensures
            self.history().len() == 0 ==> r == Option::<Pos>::None,
            self.history().len() > 0 ==> r == self.history().last().play_pos_spec(),
    {
        self.events.last_played_pos()
    }

    /// Whether the most recent committed event is a pass.
    pub fn last_was_pass(&self) -> (r: bool)
        ensures
            r == (self.history().len() > 0 && self.history().last().is_pass()),
    {
        self.events.last_was_pass()
    }

    /// Apply an event to board, turn and ko without validating it against
    /// the rules; the history is left alone.
    pub fn apply_event_unchecked(&mut self, event: &Event)
        requires
            old(self).wf(),
            event_wf(*event, old(self).sview().side),
        ensures
            final(self).wf(),
            final(self).sview() == apply_event(old(self).sview(), *event),
            final(self).history() == old(self).history(),
        decreases *event,
    {
        let ghost s0: StateV = self.sview();
        let ghost sd: int = self.sview().side;
        match event {
            Event::Play { pos, color, .. } => {
                self.board.set(pos.x, pos.y, *color);
                self.ko_coord = Option::None;
                self.next_turn();
                proof {
                    assert(self.sview() =~= apply_event(s0, *event));
                }
            },
            Event::Capture { pos, color, captured, .. } => {
                self.board.set(pos.x, pos.y, *color);
                let ghost grid1: Seq<Piece> = self.board.grid();
                let mut k: usize = 0;
                while k < captured.len()
                    invariant
                        k <= captured@.len(),
                        self.board.wf(),
                        self.board.side_len() == sd,
                        self.board.grid().len() == grid1.len(),
                        self.turn == s0.turn,
                        self.ko_coord == s0.ko,
                        self.events.entries() == old(self).history(),
                        forall|i: int|
                            0 <= i < grid1.len() ==> self.board.grid()[i] == (
                            if covers(sd, captured@.subrange(0, k as int), i) {
                                Piece::Empty
                            } else {
                                grid1[i]
                            }),
                    decreases captured@.len() - k,
                {
                    let c = captured[k];
                    let ghost gprev: Seq<Piece> = self.board.grid();
                    self.board.remove(c.x, c.y);
                    proof {
                        let kk: int = k as int;
                        lemma_enc_in_bounds(sd, c);
                        assert forall|i: int| 0 <= i < grid1.len() implies self.board.grid()[i]
                            == (
                        if covers(sd, captured@.subrange(0, kk + 1), i) {
                            Piece::Empty
                        } else {
                            grid1[i]
                        }) by {
                            if i == enc(sd, c) {
                                assert(captured@.subrange(0, kk + 1)[kk] == c);
                                assert(covers(sd, captured@.subrange(0, kk + 1), i));
                            } else {
                                assert(self.board.grid()[i] == gprev[i]);
                                if covers(sd, captured@.subrange(0, kk + 1), i) {
                                    let j = choose|j: int|
                                        0 <= j < kk + 1 && enc(
                                            sd,
                                            #[trigger] captured@.subrange(0, kk + 1)[j],
                                        ) == i;
                                    assert(j < kk);
                                    assert(captured@.subrange(0, kk)[j] == captured@.subrange(
                                        0,
                                        kk + 1,
                                    )[j]);
                                    assert(covers(sd, captured@.subrange(0, kk), i));
                                } else {
                                    if covers(sd, captured@.subrange(0, kk), i) {
                                        let j = choose|j: int|
                                            0 <= j < kk && enc(
                                                sd,
                                                #[trigger] captured@.subrange(0, kk)[j],
                                            ) == i;
                                        assert(captured@.subrange(0, kk + 1)[j]
                                            == captured@.subrange(0, kk)[j]);
                                        assert(covers(sd, captured@.subrange(0, kk + 1), i));
                                    }
                                }
                            }
                        }
                    }
                    k += 1;
                }
                if captured.len() == 1 {
                    self.ko_coord = Option::Some(captured[0]);
                } else {
                    self.ko_coord = Option::None;
                }
                self.next_turn();
                proof {
                    assert(captured@.subrange(0, captured@.len() as int) == captured@);
                    let target = apply_event(s0, *event);
                    assert forall|i: int| 0 <= i < grid1.len() implies self.board.grid()[i]
                        == target.grid[i] by {
                        lemma_enc_in_bounds(sd, *pos);
                        if !covers(sd, captured@, i) {
                            assert(grid1[i] == (
                            if i == enc(sd, *pos) {
                                *color
                            } else {
                                s0.grid[i]
                            }));
                        }
                    }
                    assert(self.sview().grid =~= target.grid);
                    assert(self.sview() =~= target);
                }
            },
            Event::Edit { pos, to, .. } => {
                self.board.set(pos.x, pos.y, *to);
                proof {
                    assert(self.sview() =~= apply_event(s0, *event));
                }
            },
            Event::Edits(edits) => {
                let mut k: usize = 0;
                while k < edits.len()
                    invariant
                        k <= edits@.len(),
                        self.wf(),
                        self.sview().side == sd,
                        self.sview() == apply_events(s0, edits@.subrange(0, k as int)),
                        self.history() == old(self).history(),
                    decreases edits@.len() - k,
                {
                    proof {
                        assert(event_wf(edits@[k as int], sd));
                    }
                    let ghost scur: StateV = self.sview();
                    self.apply_event_unchecked(&edits[k]);
                    proof {
                        let kk: int = k as int;
                        lemma_apply_keeps_wf(scur, edits@[kk]);
                        assert(edits@.subrange(0, kk + 1).drop_last() =~= edits@.subrange(0, kk));
                        assert(edits@.subrange(0, kk + 1).last() == edits@[kk]);
                    }
                    k += 1;
                }
                proof {
                    assert(edits@.subrange(0, edits@.len() as int) == edits@);
                }
            },
            Event::Pass { .. } => {
                self.ko_coord = Option::None;
                self.next_turn();
                proof {
                    assert(self.sview() =~= apply_event(s0, *event));
                }
            },
        }
    }

    /// Derive, without mutating anything, the event that committing `move_`
    /// against the board as it currently stands would produce. For a
    /// placement the caller puts the stone down first, so liberties are
    /// computed as if the new stone were already played.
    #[verifier::rlimit(60)]
    pub fn construct_event(&self, move_: Move) -> (e: Event)
        requires
            self.wf(),
            move_ matches Move::Place { pos, color } ==> in_grid(self.sview().side, pos),
        ensures
            ({
                let s = self.sview();
                match move_ {
                    Move::Pass => e == (Event::Pass { color: s.turn, prev_ko: s.ko }),
                    Move::Place { pos, color } => {
                        let caps = capture_set_around(s.grid, s.side, pos, s.turn.opposing_spec());
                        &&& caps.finite()
                        &&& caps.len() <= u32::MAX
                        &&& (caps == Set::<Pos>::empty() ==> e == (Event::Play {
                            pos,
                            color,
                            prev_ko: s.ko,
                        }))
                        &&& (caps != Set::<Pos>::empty() ==> (e matches Event::Capture {
                            pos: p2,
                            color: c2,
                            captured,
                            prev_ko,
                        } && p2 == pos && c2 == color && prev_ko == s.ko
                            && captured@.no_duplicates() && captured@.to_set() == caps && 1
                            <= captured@.len() && captured@.len() == caps.len()))
                        &&& event_wf(e, s.side)
                    },
                }
            }),
    {
        let pos = match move_ {
            Move::Pass => {
                return Event::Pass { color: self.next_to_play(), prev_ko: self.ko_coord };
            },
            Move::Place { pos, .. } => pos,
        };
        let color = match move_ {
            Move::Place { color, .. } => color,
            Move::Pass => Piece::Empty,
        };
        let ghost g: Seq<Piece> = self.sview().grid;
        let ghost sd: int = self.sview().side;
        let ghost enemy_s: Piece = self.sview().turn.opposing_spec();
        let ghost caps: Set<Pos> = capture_set_around(g, sd, pos, enemy_s);
        let enemy = self.next_to_play().opposing();
        let sur = self.board.surround(pos.x, pos.y);
        let mut captured: Vec<Pos> = Vec::new();
        let mut j: usize = 0;
        while j < sur.len()
            invariant
                j <= sur@.len(),
                captured@.no_duplicates(),
                forall|c: Pos| #[trigger]
                    captured@.contains(c) ==> exists|i: int|
                        0 <= i < j && #[trigger] group_of(g, sd, sur@[i]).contains(c) && dead_at(
                            g,
                            sd,
                            sur@[i],
                            enemy_s,
                        ),
                forall|i: int, c: Pos| #![trigger group_of(g, sd, sur@[i]).contains(c)]
                    0 <= i < j && dead_at(g, sd, sur@[i], enemy_s) && group_of(
                        g,
                        sd,
                        sur@[i],
                    ).contains(c) ==> captured@.contains(c),
            decreases sur@.len() - j,
        {
            let ghost jj: int = j as int;
            let q = sur[j];
            proof {
                assert(sur@[jj] == q);
                assert(sur@.contains(q));
            }
            if self.board.get(q.x, q.y) == enemy {
                if !crate::board::vec_has_pos(&captured, q) {
                    let libs = self.board.liberties(q.x, q.y);
                    let n = libs.unwrap();
                    if n == 0 {
                        proof {
                            liberty_set(g, sd, q).lemma_len0_is_empty();
                            assert(no_liberties(g, sd, q));
                            assert(dead_at(g, sd, q, enemy_s));
                        }
                        let grp_opt = self.board.capture_(q.x, q.y);
                        let mut grp = grp_opt.unwrap();
                        let ghost cap0: Seq<Pos> = captured@;
                        let ghost grp0: Seq<Pos> = grp@;
                        proof {
                            assert forall|ii: int, kk: int|
                                0 <= ii < cap0.len() && 0 <= kk < grp0.len()
                                implies cap0[ii] != grp0[kk] by {
                                let c = grp0[kk];
                                assert(grp0.contains(c));
                                assert(grp0.to_set().contains(c));
                                assert(group_of(g, sd, q).contains(c));
                                if cap0[ii] == c {
                                    assert(cap0.contains(c));
                                    let i = choose|i: int|
                                        0 <= i < jj && #[trigger] group_of(
                                            g,
                                            sd,
                                            sur@[i],
                                        ).contains(c) && dead_at(g, sd, sur@[i], enemy_s);
                                    lemma_connected_sym(g, sd, q, c);
                                    lemma_connected_trans(g, sd, sur@[i], c, q);
                                    assert(group_of(g, sd, sur@[i]).contains(q));
                                    assert(captured@.contains(q));
                                    assert(false);
                                }
                            }
                        }
                        captured.append(&mut grp);
                        proof {
                            vstd::seq_lib::lemma_no_dup_in_concat(cap0, grp0);
                            assert(captured@ == cap0 + grp0);
                            assert forall|c: Pos| #[trigger] captured@.contains(c)
                                implies exists|i: int|
                                0 <= i < jj + 1 && #[trigger] group_of(g, sd, sur@[i]).contains(c)
                                    && dead_at(g, sd, sur@[i], enemy_s) by {
                                let ix = choose|ix: int|
                                    0 <= ix < captured@.len() && captured@[ix] == c;
                                if ix < cap0.len() {
                                    assert(cap0[ix] == c);
                                    assert(cap0.contains(c));
                                } else {
                                    assert(grp0[ix - cap0.len()] == c);
                                    assert(grp0.contains(c));
                                    assert(grp0.to_set().contains(c));
                                    assert(group_of(g, sd, sur@[jj]).contains(c));
                                }
                            }
                            assert forall|i: int, c: Pos|
                                0 <= i < jj + 1 && dead_at(g, sd, sur@[i], enemy_s)
                                    && #[trigger] group_of(g, sd, sur@[i]).contains(c)
                                implies captured@.contains(c) by {
                                if i < jj {
                                    assert(cap0.contains(c));
                                    let ix = choose|ix: int|
                                        0 <= ix < cap0.len() && cap0[ix] == c;
                                    assert(captured@[ix] == c);
                                } else {
                                    assert(group_of(g, sd, q).contains(c));
                                    assert(grp0.to_set().contains(c));
                                    assert(grp0.contains(c));
                                    let ix = choose|ix: int|
                                        0 <= ix < grp0.len() && grp0[ix] == c;
                                    assert(captured@[cap0.len() + ix] == c);
                                }
                            }
                        }
                    } else {
                        proof {
                            assert(!no_liberties(g, sd, q)) by {
                                if no_liberties(g, sd, q) {
                                    assert(liberty_set(g, sd, q) == Set::<Pos>::empty());
                                    assert(liberty_set(g, sd, q).len() == 0);
                                }
                            }
                        }
                    }
                } else {
                    proof {
                        let i = choose|i: int|
                            0 <= i < jj && #[trigger] group_of(g, sd, sur@[i]).contains(q)
                                && dead_at(g, sd, sur@[i], enemy_s);
                        assert forall|c: Pos|
                            dead_at(g, sd, q, enemy_s) && #[trigger] group_of(g, sd, q).contains(
                                c,
                            ) implies captured@.contains(c) by {
                            lemma_connected_trans(g, sd, sur@[i], q, c);
                            assert(group_of(g, sd, sur@[i]).contains(c));
                        }
                    }
                }
            } else {
                proof {
                    assert(!dead_at(g, sd, q, enemy_s));
                }
            }
            j += 1;
        }
        proof {
            assert forall|c: Pos| #[trigger] captured@.contains(c) implies caps.contains(c) by {
                let i = choose|i: int|
                    0 <= i < sur@.len() && #[trigger] group_of(g, sd, sur@[i]).contains(c)
                        && dead_at(g, sd, sur@[i], enemy_s);
                assert(sur@.contains(sur@[i]));
                assert(adj(pos, sur@[i]) && in_grid(sd, sur@[i]));
            }
            assert forall|c: Pos| #[trigger] caps.contains(c) implies captured@.contains(c) by {
                let q = choose|q: Pos|
                    #[trigger] adj(pos, q) && in_grid(sd, q) && at(g, sd, q) == enemy_s
                        && no_liberties(g, sd, q) && group_of(g, sd, q).contains(c);
                assert(sur@.contains(q));
                let i = choose|i: int| 0 <= i < sur@.len() && sur@[i] == q;
                assert(dead_at(g, sd, sur@[i], enemy_s));
                assert(group_of(g, sd, sur@[i]).contains(c));
            }
            assert(captured@.to_set() =~= caps);
            vstd::seq_lib::seq_to_set_is_finite::<Pos>(captured@);
            captured@.unique_seq_to_set();
            assert forall|ix: int| 0 <= ix < captured@.len() implies in_grid(
                sd,
                #[trigger] captured@[ix],
            ) by {
                assert(captured@.contains(captured@[ix]));
                let i = choose|i: int|
                    0 <= i < sur@.len() && #[trigger] group_of(g, sd, sur@[i]).contains(
                        captured@[ix],
                    ) && dead_at(g, sd, sur@[i], enemy_s);
                lemma_connected_in_grid(g, sd, sur@[i], captured@[ix]);
            }
            lemma_distinct_in_grid_len(captured@, sd);
        }
        if captured.len() > 0 {
            proof {
                assert(captured@.contains(captured@[0]));
                assert(caps.contains(captured@[0]));
                assert(caps != Set::<Pos>::empty());
            }
            Event::Capture { pos, color, captured, prev_ko: self.ko_coord }
        } else {
            proof {
                assert forall|c: Pos| !(#[trigger] caps.contains(c)) by {
                    if caps.contains(c) {
                        assert(captured@.contains(c));
                    }
                }
                assert(caps =~= Set::<Pos>::empty());
            }
            Event::Play { pos, color, prev_ko: self.ko_coord }
        }
    }

    /// Play a move: the full validation pipeline. On success exactly one
    /// event is committed; on any rejection the board, the side to move,
    /// the ko restriction and the history are left exactly as they were.
    ///
    /// Rejections, in the order they are checked: `NotEmpty` when the
    /// target point is occupied, `WrongTurn` when the color is not the side
    /// to move, `SelfCapture` when the placement captures nothing and
    /// leaves its own group without liberties, and `IllegalKo` when it
    /// recaptures a single stone on the point the simple-ko rule protects.
    #[verifier::rlimit(60)]
    pub fn play_(&mut self, move_: Move) -> (r: Result<(), GoError>)
        requires
            old(self).wf(),
            move_ matches Move::Place { pos, color } ==> in_grid(old(self).sview().side, pos),
        ensures
            final(self).wf(),
            final(self).sview().side == old(self).sview().side,
            ({
                let s = old(self).sview();
                match move_ {
                    Move::Pass => {
                        let e = Event::Pass { color: s.turn, prev_ko: s.ko };
                        &&& r == Result::<(), GoError>::Ok(())
                        &&& final(self).sview() == apply_event(s, e)
                        &&& final(self).history() == old(self).history().push(e)
                        &&& reversible(s, e)
                    },
                    Move::Place { pos, color } => {
                        if s.grid[enc(s.side, pos)] != Piece::Empty {
                            &&& r == Result::<(), GoError>::Err(GoError::NotEmpty { move_ })
                            &&& final(self).sview() == s
                            &&& final(self).history() == old(self).history()
                        } else if color != s.turn {
                            &&& r == Result::<(), GoError>::Err(GoError::WrongTurn { move_ })
                            &&& final(self).sview() == s
                            &&& final(self).history() == old(self).history()
                        } else if place_self_capture(s, pos, color) {
                            &&& r == Result::<(), GoError>::Err(GoError::SelfCapture { move_ })
                            &&& final(self).sview() == s
                            &&& final(self).history() == old(self).history()
                        } else if place_illegal_ko(s, pos, color) {
                            &&& r == Result::<(), GoError>::Err(GoError::IllegalKo { move_ })
                            &&& final(self).sview() == s
                            &&& final(self).history() == old(self).history()
                        } else {
                            &&& r == Result::<(), GoError>::Ok(())
                            &&& exists|e: Event|
                                #[trigger] event_for_place(s, pos, color, e) && final(self).sview()
                                    == apply_event(s, e) && final(self).history() == old(
                                    self,
                                ).history().push(e) && reversible(s, e)
                        }
                    },
                }
            }),
    {
        let ghost s: StateV = self.sview();
        if let Move::Place { pos, color } = move_ {
            if self.board.get(pos.x, pos.y) != Piece::Empty {
                return Result::Err(GoError::NotEmpty { move_ });
            }
            if self.next_to_play() != color {
                return Result::Err(GoError::WrongTurn { move_ });
            }
            // Provisional placement, so that captures and liberties are
            // computed as if the stone were already on the board.
            self.board.set(pos.x, pos.y, color);
            proof {
                lemma_enc_in_bounds(s.side, pos);
            }
        }
        let event = self.construct_event(move_);
        // Self-capture check: a bare play whose own group ends up with no
        // liberty is rejected, with the provisional stone retracted.
        if let Event::Play { pos: ppos, .. } = &event {
            let n = self.board.liberties(ppos.x, ppos.y).unwrap();
            let ghost placed: Seq<Piece> = self.sview().grid;
            if n == 0 {
                proof {
                    liberty_set(placed, s.side, *ppos).lemma_len0_is_empty();
                }
                self.board.remove(ppos.x, ppos.y);
                proof {
                    assert(self.sview().grid =~= s.grid);
                    assert(self.sview() =~= s);
                }
                return Result::Err(GoError::SelfCapture { move_ });
            }
            proof {
                assert(!no_liberties(placed, s.side, *ppos)) by {
                    if no_liberties(placed, s.side, *ppos) {
                        assert(liberty_set(placed, s.side, *ppos).len() == 0);
                    }
                }
            }
        }
        // Retract the provisional stone: the apply step below re-places it
        // canonically whatever path was taken.
        if let Move::Place { pos, .. } = move_ {
            self.board.remove(pos.x, pos.y);
            proof {
                assert(self.sview().grid =~= s.grid);
            }
        }
        proof {
            assert(self.sview() =~= s);
        }
        // Simple-ko check: a capture of exactly one stone at the protected
        // point is rejected.
        if let Event::Capture { pos: cpos, captured, .. } = &event {
            if captured.len() == 1 {
                let ko_hit = match self.ko_coord {
                    Option::Some(k) => k == *cpos,
                    Option::None => false,
                };
                if ko_hit {
                    return Result::Err(GoError::IllegalKo { move_ });
                }
            }
        }
        proof {
            if let Move::Place { pos, color } = move_ {
                let placed = placed_grid(s, pos, color);
                let caps = place_captures(s, pos, color);
                if let Event::Capture { pos: cpos, color: ccol, captured, prev_ko } = &event {
                    assert forall|jx: int| 0 <= jx < captured@.len() implies in_grid(
                        s.side,
                        #[trigger] captured@[jx],
                    ) && s.grid[enc(s.side, captured@[jx])] == color.opposing_spec()
                        && captured@[jx] != pos by {
                        let c = captured@[jx];
                        assert(captured@.contains(c));
                        assert(captured@.to_set().contains(c));
                        assert(caps.contains(c));
                        let q = choose|q: Pos|
                            #[trigger] adj(pos, q) && in_grid(s.side, q) && at(placed, s.side, q)
                                == color.opposing_spec() && no_liberties(placed, s.side, q)
                                && group_of(placed, s.side, q).contains(c);
                        lemma_connected_in_grid(placed, s.side, q, c);
                        lemma_enc_in_bounds(s.side, pos);
                        lemma_enc_in_bounds(s.side, c);
                        assert(at(placed, s.side, pos) == color);
                        assert(c != pos);
                        lemma_enc_injective(s.side, c, pos);
                        assert(s.grid[enc(s.side, c)] == placed[enc(s.side, c)]);
                    }
                }
                assert(reversible(s, event));
            }
        }
        self.apply_event_unchecked(&event);
        proof {
            if let Move::Place { pos, color } = move_ {
                assert(event_for_place(s, pos, color, event));
            }
        }
        self.events.push(event);
        Result::Ok(())
    }

    /// Pop the most recent committed event and reverse it, restoring board,
    /// turn and ko to their values before that ply. A no-op on an empty
    /// history.
    pub fn undo(&mut self)
        requires
            old(self).wf(),
        ensures
            final(self).wf(),
            old(self).history().len() == 0 ==> final(self).sview() == old(self).sview()
                && final(self).history() == old(self).history(),
            old(self).history().len() > 0 ==> final(self).history()
                == old(self).history().drop_last() && final(self).sview() == reverse_event(
                old(self).sview(),
                old(self).history().last(),
            ),
    {
        let last_opt = self.events.pop();
        match last_opt {
            Option::None => {},
            Option::Some(last) => {
                proof {
                    let h = old(self).history();
                    assert(event_wf(h[h.len() - 1], self.sview().side));
                    assert forall|j: int| 0 <= j < self.history().len() implies event_wf(
                        #[trigger] self.history()[j],
                        self.sview().side,
                    ) by {
                        assert(self.history()[j] == h[j]);
                        assert(event_wf(h[j], self.sview().side));
                    }
                }
                self.reverse_event_unchecked(&last);
            },
        }
    }

    /// Reverse an event on board, turn and ko without validating it; the
    /// history is left alone. Composite events are reversed newest first.
    pub fn reverse_event_unchecked(&mut self, event: &Event)
        requires
            old(self).wf(),
            event_wf(*event, old(self).sview().side),
        ensures
            final(self).wf(),
            final(self).sview() == reverse_event(old(self).sview(), *event),
            final(self).history() == old(self).history(),
        decreases *event,
    {
        let ghost s0: StateV = self.sview();
        let ghost sd: int = self.sview().side;
        match event {
            Event::Play { pos, prev_ko, .. } => {
                self.board.set(pos.x, pos.y, Piece::Empty);
                self.ko_coord = *prev_ko;
                self.prev_turn();
                proof {
                    assert(self.sview() =~= reverse_event(s0, *event));
                }
            },
            Event::Capture { pos, color, captured, prev_ko } => {
                self.board.set(pos.x, pos.y, Piece::Empty);
                let ghost grid1: Seq<Piece> = self.board.grid();
                let back = color.opposing();
                let mut k: usize = 0;
                while k < captured.len()
                    invariant
                        k <= captured@.len(),
                        self.board.wf(),
                        self.board.side_len() == sd,
                        self.board.grid().len() == grid1.len(),
                        self.turn == s0.turn,
                        self.ko_coord == s0.ko,
                        self.events.entries() == old(self).history(),
                        back == color.opposing_spec(),
                        forall|i: int|
                            0 <= i < grid1.len() ==> self.board.grid()[i] == (
                            if covers(sd, captured@.subrange(0, k as int), i) {
                                color.opposing_spec()
                            } else {
                                grid1[i]
                            }),
                    decreases captured@.len() - k,
                {
                    let c = captured[k];
                    let ghost gprev: Seq<Piece> = self.board.grid();
                    self.board.set(c.x, c.y, back);
                    proof {
                        let kk: int = k as int;
                        lemma_enc_in_bounds(sd, c);
                        assert forall|i: int| 0 <= i < grid1.len() implies self.board.grid()[i]
                            == (
                        if covers(sd, captured@.subrange(0, kk + 1), i) {
                            color.opposing_spec()
                        } else {
                            grid1[i]
                        }) by {
                            if i == enc(sd, c) {
                                assert(captured@.subrange(0, kk + 1)[kk] == c);
                                assert(covers(sd, captured@.subrange(0, kk + 1), i));
                            } else {
                                assert(self.board.grid()[i] == gprev[i]);
                                if covers(sd, captured@.subrange(0, kk + 1), i) {
                                    let j = choose|j: int|
                                        0 <= j < kk + 1 && enc(
                                            sd,
                                            #[trigger] captured@.subrange(0, kk + 1)[j],
                                        ) == i;
                                    assert(j < kk);
                                    assert(captured@.subrange(0, kk)[j] == captured@.subrange(
                                        0,
                                        kk + 1,
                                    )[j]);
                                    assert(covers(sd, captured@.subrange(0, kk), i));
                                } else {
                                    if covers(sd, captured@.subrange(0, kk), i) {
                                        let j = choose|j: int|
                                            0 <= j < kk && enc(
                                                sd,
                                                #[trigger] captured@.subrange(0, kk)[j],
                                            ) == i;
                                        assert(captured@.subrange(0, kk + 1)[j]
                                            == captured@.subrange(0, kk)[j]);
                                        assert(covers(sd, captured@.subrange(0, kk + 1), i));
                                    }
                                }
                            }
                        }
                    }
                    k += 1;
                }
                self.ko_coord = *prev_ko;
                self.prev_turn();
                proof {
                    assert(captured@.subrange(0, captured@.len() as int) == captured@);
                    let target = reverse_event(s0, *event);
                    assert forall|i: int| 0 <= i < grid1.len() implies self.board.grid()[i]
                        == target.grid[i] by {
                        lemma_enc_in_bounds(sd, *pos);
                        if !covers(sd, captured@, i) {
                            assert(grid1[i] == (
                            if i == enc(sd, *pos) {
                                Piece::Empty
                            } else {
                                s0.grid[i]
                            }));
                        }
                    }
                    assert(self.sview().grid =~= target.grid);
                    assert(self.sview() =~= target);
                }
            },
            Event::Edit { pos, from, .. } => {
                self.board.set(pos.x, pos.y, *from);
                proof {
                    assert(self.sview() =~= reverse_event(s0, *event));
                }
            },
            Event::Edits(edits) => {
                proof {
                    assert(edits@.subrange(0, edits@.len() as int) =~= edits@);
                }
                let mut k: usize = edits.len();
                while k > 0
                    invariant
                        k <= edits@.len(),
                        self.wf(),
                        self.sview().side == sd,
                        reverse_events(s0, edits@) == reverse_events(
                            self.sview(),
                            edits@.subrange(0, k as int),
                        ),
                        self.history() == old(self).history(),
                    decreases k,
                {
                    proof {
                        assert(event_wf(edits@[k - 1], sd));
                    }
                    let ghost scur: StateV = self.sview();
                    self.reverse_event_unchecked(&edits[k - 1]);
                    proof {
                        let kk: int = k as int;
                        lemma_reverse_keeps_wf(scur, edits@[kk - 1]);
                        assert(edits@.subrange(0, kk).drop_last() =~= edits@.subrange(0, kk - 1));
                        assert(edits@.subrange(0, kk).last() == edits@[kk - 1]);
                        assert(reverse_events(scur, edits@.subrange(0, kk)) == reverse_events(
                            self.sview(),
                            edits@.subrange(0, kk - 1),
                        ));
                    }
                    k -= 1;
                }
                proof {
                    assert(edits@.subrange(0, edits@.len() as int) == edits@);
                    assert(reverse_events(self.sview(), edits@.subrange(0, 0)) == self.sview());
                }
            },
            Event::Pass { prev_ko, .. } => {
                self.ko_coord = *prev_ko;
                self.prev_turn();
                proof {
                    assert(self.sview() =~= reverse_event(s0, *event));
                }
            },
        }
    }
}

} // verus!
