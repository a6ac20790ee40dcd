use vstd::prelude::*;
use crate::game::SquareGame;

verus! {

/// Who plays the first seat: the computer, or a person at the board.
#[derive(Clone, Copy, Debug)]
pub enum GameMode {
    Autoplay,
    Game,
}

/// The rule-based player `id` (0 or 1) plays one of its best moves.
pub fn play_ia(game: &mut SquareGame, id: usize) -> (r: bool)
    requires
        old(game).wf(),
        !old(game).is_over_spec(),
        id < 2,
    ensures
        final(game).wf(),
        final(game).size == old(game).size,
        exists|x: int, y: int|
            {
                &&& #[trigger] old(game).is_best_move(x, y)
                &&& final(game).board@ == old(game).board_after(x, y, (id + 1) as u8)
                &&& final(game).score_spec(id as int) == old(game).score_spec(id as int) + old(
                    game,
                ).gain(x, y)
                &&& final(game).score_spec(1 - id) == old(game).score_spec(1 - id)
                &&& r == (old(game).gain(x, y) > 0)
            },
{
    let e = match game.best_move() {
        Some(e) => e,
        None => {
            return false;
        },
    };
    let ghost before = *game;
    let p: u8 = if id == 0 { 1 } else { 2 };
    let r = game.make_move_id(e, p);
    assert(before.is_best_move(e@[0] as int, e@[1] as int));
    r
}

/// The player to move after `player` has played: the same one after closing a box.
pub fn next_player(player: usize, has_closed: bool) -> (r: usize)
    requires
        player < 2,
    ensures
        r == if has_closed { player as int } else { 1 - player },
{
    if has_closed {
        player
    } else {
        1 - player
    }
}

/// The edge under a click, given in fifths of a cell from the board's corner:
/// a click on a vertical or horizontal line between two dots; `None` elsewhere.
pub fn click_to_edge(x: usize, y: usize) -> (r: Option<[usize; 2]>)
    ensures
        r == if x % 5 != 0 && y % 5 == 0 {
            Some([(x / 5 * 2 + 1) as usize, (y / 5 * 2) as usize])
        } else if x % 5 == 0 && y % 5 != 0 {
            Some([(x / 5 * 2) as usize, (y / 5 * 2 + 1) as usize])
        } else {
            None
        },
{
    let edge_x = x / 5 * 2;
    let edge_y = y / 5 * 2;
    if x % 5 != 0 && y % 5 == 0 {
        Some([edge_x + 1, edge_y])
    } else if x % 5 == 0 && y % 5 != 0 {
        Some([edge_x, edge_y + 1])
    } else {
        None
    }
}

/// Whether `player` is the person at the board in `mode`.
pub open spec fn human_turn(mode: GameMode, player: int) -> bool {
    mode is Game && player == 0
}

/// Whether the turn of `player` waits for the person at the board.
pub fn human_move_needed(mode: GameMode, player: usize) -> (r: bool)
    ensures
        r == human_turn(mode, player as int),
{
    match mode {
        GameMode::Game => player == 0,
        GameMode::Autoplay => false,
    }
}

/// One turn of a game. The person at the board (first seat in `Game` mode)
/// plays `human_move` if it is an open edge, and otherwise the turn waits
/// with nothing changed; every other turn the rule-based player moves.
/// Returns the player to move next.
pub fn play(game: &mut SquareGame, mode: GameMode, player: usize, human_move: Option<[usize; 2]>) -> (r: usize)
    requires
        old(game).wf(),
        !old(game).is_over_spec(),
        player < 2,
    ensures
        final(game).wf(),
        final(game).size == old(game).size,
        r < 2,
        human_turn(mode, player as int) ==> match human_move {
            Some(e) => if old(game).is_open_edge(e@[0] as int, e@[1] as int) {
                &&& final(game).board@ == old(game).board_after(e@[0] as int, e@[1] as int, 1)
                &&& final(game).score_spec(0) == old(game).score_spec(0) + old(game).gain(e@[0] as int, e@[1] as int)
                &&& final(game).score_spec(1) == old(game).score_spec(1)
                &&& r == if old(game).gain(e@[0] as int, e@[1] as int) > 0 { 0usize } else { 1usize }
            } else {
                *final(game) == *old(game) && r == player
            },
            None => *final(game) == *old(game) && r == player,
        },
        !human_turn(mode, player as int) ==> exists|x: int, y: int|
            {
                &&& #[trigger] old(game).is_best_move(x, y)
                &&& final(game).board@ == old(game).board_after(x, y, (player + 1) as u8)
                &&& final(game).score_spec(player as int) == old(game).score_spec(player as int)
                    + old(game).gain(x, y)
                &&& final(game).score_spec(1 - player) == old(game).score_spec(1 - player)
                &&& r == if old(game).gain(x, y) > 0 { player as int } else { 1 - player }
            },
{
    if human_move_needed(mode, player) {
        match human_move {
            Some(e) => {
                if game.is_remaining(e) {
                    let closed = game.make_move_id(e, 1);
                    next_player(player, closed)
                } else {
                    player
                }
            },
            None => player,
        }
    } else {
        let closed = play_ia(game, player);
        next_player(player, closed)
    }
}

} // verus!
