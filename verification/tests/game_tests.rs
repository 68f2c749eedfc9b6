use emi_go::{Event, Events, Game, GoError, Move, Piece, Pos};

fn pos(x: u32, y: u32) -> Pos {
    Pos { x, y }
}

fn place(x: u32, y: u32, color: Piece) -> Move {
    Move::Place { pos: pos(x, y), color }
}

fn must_play(g: &mut Game, x: u32, y: u32, color: Piece) {
    let r = g.play_(place(x, y, color));
    assert!(r.is_ok());
}

#[test]
fn opposing_swaps_colors() {
    assert_eq!(Piece::Black.opposing(), Piece::White);
    assert_eq!(Piece::White.opposing(), Piece::Black);
    assert_eq!(Piece::Empty.opposing(), Piece::Empty);
}

#[test]
fn new_game_state() {
    let g = Game::new(9);
    assert_eq!(g.board_size(), 9);
    assert_eq!(g.next_to_play(), Piece::Black);
    assert_eq!(g.last_played_pos(), None);
    assert!(!g.last_was_pass());
    for x in 0..9 {
        for y in 0..9 {
            assert_eq!(g.board().get(x, y), Piece::Empty);
        }
    }
}

#[test]
fn play_alternates_turns() {
    let mut g = Game::new(9);
    must_play(&mut g, 4, 4, Piece::Black);
    assert_eq!(g.next_to_play(), Piece::White);
    assert_eq!(g.board().get(4, 4), Piece::Black);
    assert_eq!(g.last_played_pos(), Some(pos(4, 4)));
    must_play(&mut g, 4, 3, Piece::White);
    assert_eq!(g.next_to_play(), Piece::Black);
    assert_eq!(g.last_played_pos(), Some(pos(4, 3)));
}

#[test]
fn pass_changes_turn_and_leaves_board() {
    let mut g = Game::new(9);
    must_play(&mut g, 4, 4, Piece::Black);
    assert!(g.play_(Move::Pass).is_ok());
    assert_eq!(g.next_to_play(), Piece::Black);
    assert!(g.last_was_pass());
    assert_eq!(g.last_played_pos(), None);
    assert_eq!(g.board().get(4, 4), Piece::Black);
}

#[test]
fn rejects_occupied_point() {
    let mut g = Game::new(9);
    must_play(&mut g, 4, 4, Piece::Black);
    let m = place(4, 4, Piece::White);
    assert_eq!(g.play_(m), Err(GoError::NotEmpty { move_: m }));
    // Rejection changes nothing.
    assert_eq!(g.board().get(4, 4), Piece::Black);
    assert_eq!(g.next_to_play(), Piece::White);
}

#[test]
fn rejects_wrong_turn() {
    let mut g = Game::new(9);
    let m = place(3, 3, Piece::White);
    assert_eq!(g.play_(m), Err(GoError::WrongTurn { move_: m }));
    assert_eq!(g.board().get(3, 3), Piece::Empty);
    assert_eq!(g.next_to_play(), Piece::Black);
}

#[test]
fn rejects_self_capture() {
    let mut g = Game::new(9);
    must_play(&mut g, 5, 5, Piece::Black);
    must_play(&mut g, 1, 0, Piece::White);
    must_play(&mut g, 5, 6, Piece::Black);
    must_play(&mut g, 0, 1, Piece::White);
    let m = place(0, 0, Piece::Black);
    assert_eq!(g.play_(m), Err(GoError::SelfCapture { move_: m }));
    assert_eq!(g.board().get(0, 0), Piece::Empty);
    assert_eq!(g.next_to_play(), Piece::Black);
}

#[test]
fn capture_takes_priority_over_self_capture() {
    // Black fills the last liberty of a white stone from a point that
    // would itself have no liberty: legal, because the capture resolves
    // first and vacates a liberty.
    let mut g = Game::new(9);
    must_play(&mut g, 1, 0, Piece::Black);
    must_play(&mut g, 0, 1, Piece::White);
    must_play(&mut g, 1, 1, Piece::Black);
    must_play(&mut g, 5, 5, Piece::White);
    must_play(&mut g, 0, 2, Piece::Black);
    must_play(&mut g, 5, 6, Piece::White);
    // White at (0,1) now has its only liberty at (0,0).
    must_play(&mut g, 0, 0, Piece::Black);
    assert_eq!(g.board().get(0, 1), Piece::Empty);
    assert_eq!(g.board().get(0, 0), Piece::Black);
}

#[test]
fn single_capture_removes_exactly_that_stone() {
    let mut g = Game::new(9);
    // Surround the white stone at (1,0) on the edge.
    must_play(&mut g, 0, 0, Piece::Black);
    must_play(&mut g, 1, 0, Piece::White);
    must_play(&mut g, 2, 0, Piece::Black);
    must_play(&mut g, 6, 6, Piece::White);
    must_play(&mut g, 1, 1, Piece::Black);
    assert_eq!(g.board().get(1, 0), Piece::Empty);
    // Nothing else moved.
    assert_eq!(g.board().get(0, 0), Piece::Black);
    assert_eq!(g.board().get(2, 0), Piece::Black);
    assert_eq!(g.board().get(1, 1), Piece::Black);
    assert_eq!(g.board().get(6, 6), Piece::White);
}

#[test]
fn group_capture_removes_every_stone_of_the_group() {
    let mut g = Game::new(9);
    must_play(&mut g, 0, 0, Piece::Black);
    must_play(&mut g, 1, 0, Piece::White);
    must_play(&mut g, 1, 1, Piece::Black);
    must_play(&mut g, 2, 0, Piece::White);
    must_play(&mut g, 2, 1, Piece::Black);
    must_play(&mut g, 7, 7, Piece::White);
    // The white group (1,0)-(2,0) has one liberty left at (3,0).
    must_play(&mut g, 3, 0, Piece::Black);
    assert_eq!(g.board().get(1, 0), Piece::Empty);
    assert_eq!(g.board().get(2, 0), Piece::Empty);
    assert_eq!(g.board().get(0, 0), Piece::Black);
    assert_eq!(g.board().get(3, 0), Piece::Black);
    assert_eq!(g.board().get(1, 1), Piece::Black);
    assert_eq!(g.board().get(2, 1), Piece::Black);
}

/// Builds the classic ko shape and lets Black take the ko:
/// Black (1,0),(0,1),(1,2); White (2,0),(3,1),(2,2),(1,1);
/// Black plays (2,1) and captures the single white stone at (1,1).
fn game_with_ko_taken() -> Game {
    let mut g = Game::new(9);
    must_play(&mut g, 1, 0, Piece::Black);
    must_play(&mut g, 2, 0, Piece::White);
    must_play(&mut g, 0, 1, Piece::Black);
    must_play(&mut g, 3, 1, Piece::White);
    must_play(&mut g, 1, 2, Piece::Black);
    must_play(&mut g, 2, 2, Piece::White);
    must_play(&mut g, 7, 7, Piece::Black);
    must_play(&mut g, 1, 1, Piece::White);
    must_play(&mut g, 2, 1, Piece::Black);
    assert_eq!(g.board().get(1, 1), Piece::Empty);
    assert_eq!(g.board().get(2, 1), Piece::Black);
    g
}

#[test]
fn ko_recapture_is_rejected() {
    let mut g = game_with_ko_taken();
    let m = place(1, 1, Piece::White);
    assert_eq!(g.play_(m), Err(GoError::IllegalKo { move_: m }));
    assert_eq!(g.board().get(1, 1), Piece::Empty);
    assert_eq!(g.board().get(2, 1), Piece::Black);
    assert_eq!(g.next_to_play(), Piece::White);
}

#[test]
fn ko_cleared_by_any_other_move() {
    let mut g = game_with_ko_taken();
    must_play(&mut g, 6, 6, Piece::White);
    must_play(&mut g, 7, 6, Piece::Black);
    // The restriction is gone: retaking the ko is legal now.
    must_play(&mut g, 1, 1, Piece::White);
    assert_eq!(g.board().get(2, 1), Piece::Empty);
    assert_eq!(g.board().get(1, 1), Piece::White);
}

#[test]
fn ko_cleared_by_pass() {
    let mut g = game_with_ko_taken();
    assert!(g.play_(Move::Pass).is_ok());
    assert!(g.play_(Move::Pass).is_ok());
    must_play(&mut g, 1, 1, Piece::White);
    assert_eq!(g.board().get(2, 1), Piece::Empty);
}

#[test]
fn undo_after_rejection_target_unchanged() {
    let mut g = game_with_ko_taken();
    let m = place(1, 1, Piece::White);
    assert_eq!(g.play_(m), Err(GoError::IllegalKo { move_: m }));
    // Undo removes the last committed ply (Black's capture), not the
    // rejected attempt.
    g.undo();
    assert_eq!(g.board().get(1, 1), Piece::White);
    assert_eq!(g.board().get(2, 1), Piece::Empty);
    assert_eq!(g.next_to_play(), Piece::Black);
}

#[test]
fn undo_restores_play_exactly() {
    let mut g = Game::new(9);
    must_play(&mut g, 4, 4, Piece::Black);
    g.undo();
    assert_eq!(g.board().get(4, 4), Piece::Empty);
    assert_eq!(g.next_to_play(), Piece::Black);
    assert_eq!(g.last_played_pos(), None);
}

#[test]
fn undo_restores_captured_stones() {
    let mut g = game_with_ko_taken();
    g.undo();
    // The white stone is back and it is Black's move again.
    assert_eq!(g.board().get(1, 1), Piece::White);
    assert_eq!(g.board().get(2, 1), Piece::Empty);
    assert_eq!(g.next_to_play(), Piece::Black);
    // The ko restriction of the undone state is restored as well: the
    // same capture can be taken again, and the recapture is again illegal.
    must_play(&mut g, 2, 1, Piece::Black);
    let m = place(1, 1, Piece::White);
    assert_eq!(g.play_(m), Err(GoError::IllegalKo { move_: m }));
}

#[test]
fn undo_on_empty_history_is_a_noop() {
    let mut g = Game::new(9);
    g.undo();
    assert_eq!(g.next_to_play(), Piece::Black);
    for x in 0..9 {
        for y in 0..9 {
            assert_eq!(g.board().get(x, y), Piece::Empty);
        }
    }
}

#[test]
fn pass_then_undo_scenario() {
    // 9x9: Black plays (4,4); White plays (4,3); Black passes.
    let mut g = Game::new(9);
    must_play(&mut g, 4, 4, Piece::Black);
    must_play(&mut g, 4, 3, Piece::White);
    assert!(g.play_(Move::Pass).is_ok());
    assert!(g.last_was_pass());
    // Undoing removes only the pass.
    g.undo();
    assert_eq!(g.next_to_play(), Piece::Black);
    assert_eq!(g.board().get(4, 4), Piece::Black);
    assert_eq!(g.board().get(4, 3), Piece::White);
    assert!(!g.last_was_pass());
    assert_eq!(g.last_played_pos(), Some(pos(4, 3)));
}

#[test]
fn stone_with_remaining_liberty_is_not_captured() {
    // Black (0,0), White (0,1), Black (1,1) is legal and captures
    // nothing: the white stone keeps a liberty at (0,2).
    let mut g = Game::new(9);
    must_play(&mut g, 0, 0, Piece::Black);
    must_play(&mut g, 0, 1, Piece::White);
    must_play(&mut g, 1, 1, Piece::Black);
    assert_eq!(g.board().get(0, 1), Piece::White);
}

#[test]
fn capture_set_and_removal_of_one_surrounded_stone() {
    // White at (1,0) surrounded by Black at (0,0), (2,0) and (1,1): the
    // capture set is exactly that one stone, and filling its last liberty
    // removes it from the grid.
    let mut g = Game::new(9);
    must_play(&mut g, 0, 0, Piece::Black);
    must_play(&mut g, 1, 0, Piece::White);
    must_play(&mut g, 2, 0, Piece::Black);
    must_play(&mut g, 6, 6, Piece::White);
    let set = g.board().capture_(1, 0).unwrap();
    assert_eq!(set, vec![pos(1, 0)]);
    must_play(&mut g, 1, 1, Piece::Black);
    assert_eq!(g.board().get(1, 0), Piece::Empty);
}

#[test]
fn event_accessors() {
    let play = Event::Play { pos: pos(2, 3), color: Piece::Black, prev_ko: None };
    assert_eq!(play.play_pos(), Some(pos(2, 3)));
    assert_eq!(play.play_color(), Some(Piece::Black));
    let cap = Event::Capture {
        pos: pos(1, 1),
        color: Piece::White,
        captured: vec![pos(0, 1)],
        prev_ko: None,
    };
    assert_eq!(cap.play_pos(), Some(pos(1, 1)));
    assert_eq!(cap.play_color(), Some(Piece::White));
    let pass = Event::Pass { color: Piece::Black, prev_ko: None };
    assert_eq!(pass.play_pos(), None);
    assert_eq!(pass.play_color(), None);
    let edit = Event::Edit { pos: pos(0, 0), from: Piece::Empty, to: Piece::Black };
    assert_eq!(edit.play_pos(), None);
    assert_eq!(edit.play_color(), None);
}

#[test]
fn events_stack_discipline() {
    let mut log = Events::new();
    assert!(log.last().is_none());
    assert_eq!(log.last_played_pos(), None);
    assert!(!log.last_was_pass());
    log.push(Event::Play { pos: pos(4, 4), color: Piece::Black, prev_ko: None });
    assert_eq!(log.last_played_pos(), Some(pos(4, 4)));
    log.push(Event::Pass { color: Piece::White, prev_ko: None });
    assert!(log.last_was_pass());
    assert_eq!(log.last_played_pos(), None);
    let top = log.pop();
    assert!(matches!(top, Some(Event::Pass { .. })));
    assert_eq!(log.last_played_pos(), Some(pos(4, 4)));
    log.pop();
    assert!(log.pop().is_none());
}

#[test]
fn edit_events_apply_and_reverse() {
    let mut g = Game::new(9);
    let edit = Event::Edit { pos: pos(3, 3), from: Piece::Empty, to: Piece::White };
    g.apply_event_unchecked(&edit);
    assert_eq!(g.board().get(3, 3), Piece::White);
    // An edit does not advance the turn.
    assert_eq!(g.next_to_play(), Piece::Black);
    g.reverse_event_unchecked(&edit);
    assert_eq!(g.board().get(3, 3), Piece::Empty);
}

#[test]
fn composite_edits_apply_in_order_and_reverse_in_reverse_order() {
    let mut g = Game::new(9);
    let steps = vec![
        Event::Edit { pos: pos(0, 0), from: Piece::Empty, to: Piece::Black },
        Event::Edit { pos: pos(0, 0), from: Piece::Black, to: Piece::White },
        Event::Edit { pos: pos(1, 0), from: Piece::Empty, to: Piece::Black },
    ];
    let composite = Event::Edits(steps);
    g.apply_event_unchecked(&composite);
    // Applied first to last: (0,0) ends up White.
    assert_eq!(g.board().get(0, 0), Piece::White);
    assert_eq!(g.board().get(1, 0), Piece::Black);
    g.reverse_event_unchecked(&composite);
    assert_eq!(g.board().get(0, 0), Piece::Empty);
    assert_eq!(g.board().get(1, 0), Piece::Empty);
}

#[test]
fn undo_round_trip_is_exact_after_every_ply() {
    // A sequence with plays, a capture and a pass; after each committed ply
    // the snapshot taken right before it is restored exactly by one undo.
    let moves = [
        place(0, 0, Piece::Black),
        place(1, 0, Piece::White),
        place(2, 0, Piece::Black),
        Move::Pass,
        place(1, 1, Piece::Black), // captures the white stone at (1,0)
        place(5, 5, Piece::White),
        Move::Pass,
    ];
    let mut g = Game::new(9);
    let mut boards = Vec::new();
    let mut turns = Vec::new();
    for m in moves {
        boards.push(g.board().clone());
        turns.push(g.next_to_play());
        assert!(g.play_(m).is_ok());
    }
    while let (Some(b), Some(t)) = (boards.pop(), turns.pop()) {
        g.undo();
        assert_eq!(*g.board(), b);
        assert_eq!(g.next_to_play(), t);
    }
    assert_eq!(g.last_played_pos(), None);
    assert_eq!(g.next_to_play(), Piece::Black);
}

#[test]
fn mutating_capture_matches_capture_set() {
    let mut g = Game::new(9);
    must_play(&mut g, 0, 0, Piece::Black);
    must_play(&mut g, 1, 0, Piece::White);
    must_play(&mut g, 2, 0, Piece::Black);
    must_play(&mut g, 1, 1, Piece::White);
    // Snapshot the board and take the mutating capture path directly.
    let mut b = g.board().clone();
    let set = b.capture_(1, 0).unwrap();
    assert_eq!(b.capture(1, 0), Some(set.len() as u32));
    for p in &set {
        assert_eq!(b.get(p.x, p.y), Piece::Empty);
    }
    assert_eq!(b.get(0, 0), Piece::Black);
    assert_eq!(b.get(2, 0), Piece::Black);
}

#[test]
fn construct_event_describes_without_mutating() {
    let mut g = Game::new(9);
    must_play(&mut g, 0, 0, Piece::Black);
    must_play(&mut g, 1, 0, Piece::White);
    must_play(&mut g, 2, 0, Piece::Black);
    must_play(&mut g, 6, 6, Piece::White);
    // A pass event carries the current color.
    let e = g.construct_event(Move::Pass);
    assert!(matches!(e, Event::Pass { color: Piece::Black, .. }));
    assert_eq!(g.board().get(6, 6), Piece::White);
}
