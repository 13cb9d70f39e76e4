//! The move tree: every position a game has reached, stored in an arena and
//! keyed by a monotonically assigned identifier.
//!
//! Position 0 is the root (the empty or handicap-seeded board). Playing a
//! stone from any position derives exactly one new position, appended to the
//! arena and recorded as one more child of the position it was played from;
//! siblings of an existing child are the variations.

use vstd::prelude::*;

use crate::board::board_eq;
use crate::board::capture_ok;
use crate::board::cell;
use crate::board::gidx;
use crate::board::in_bounds;
use crate::board::lemma_cell_update;
use crate::board::numbers_recorded;
use crate::board::Board;
use crate::Color;
use crate::Error;
use crate::Intersection;
use crate::Move;
use crate::PointState;

verus! {

/// One instruction of a recorded game, in the order the engine consumes
/// them. Size and metadata declarations take effect before any placement;
/// placements drive the tree.
#[derive(Debug)]
pub enum GameEvent {
    /// Resets the root to an n x n empty board; valid before any placement.
    DeclareSize(u32),
    SetPlayerName { color: Color, name: String },
    SetPlayerRank { color: Color, rank: String },
    /// A Black setup stone on the root position, carrying no move number.
    PlaceHandicapStone(Intersection),
    /// A numbered move against the current tree cursor.
    PlayMove(Intersection, Color),
}

/// A recorded game as a tree: the events of one node sequence, then the
/// recorded continuations that branch from that sequence's final position.
#[derive(Debug)]
pub struct GameTree {
    pub events: Vec<GameEvent>,
    pub variations: Vec<GameTree>,
}

/// How many numbered moves an event list plays.
pub open spec fn count_events(es: Seq<GameEvent>) -> nat
    decreases es.len(),
{
    if es.len() == 0 {
        0nat
    } else {
        (if es[0] is PlayMove {
            1nat
        } else {
            0nat
        }) + count_events(es.skip(1))
    }
}

/// How many numbered moves a whole tree plays, variations included.
pub open spec fn count_play_moves(t: GameTree) -> nat
    decreases t,
{
    count_events(t.events@) + count_subtrees(t.variations@)
}

/// How many numbered moves a list of subtrees plays.
pub open spec fn count_subtrees(ts: Seq<GameTree>) -> nat
    decreases ts,
{
    if ts.len() == 0 {
        0nat
    } else {
        count_play_moves(ts[0]) + count_subtrees(ts.skip(1))
    }
}

/// Whether the event places a stone on the board.
pub open spec fn is_placement(e: GameEvent) -> bool {
    e is PlaceHandicapStone || e is PlayMove
}

/// Whether any event of the list places a stone.
pub open spec fn events_have_placements(es: Seq<GameEvent>) -> bool {
    exists|k: int| 0 <= k < es.len() && is_placement(#[trigger] es[k])
}

/// Whether any event anywhere in the tree places a stone.
pub open spec fn tree_has_placements(t: GameTree) -> bool
    decreases t,
{
    events_have_placements(t.events@) || subtrees_have_placements(t.variations@)
}

/// Whether any event of any of the subtrees places a stone.
pub open spec fn subtrees_have_placements(ts: Seq<GameTree>) -> bool
    decreases ts,
{
    if ts.len() == 0 {
        false
    } else {
        tree_has_placements(ts[0]) || subtrees_have_placements(ts.skip(1))
    }
}

/// The edge length the event list declares: the last declaration wins; a
/// list declaring none leaves size 0, on which every placement is out of
/// range.
pub open spec fn last_declared_size(es: Seq<GameEvent>) -> u32
    decreases es.len(),
{
    if es.len() == 0 {
        0u32
    } else {
        match es.last() {
            GameEvent::DeclareSize(n) => n,
            _ => last_declared_size(es.drop_last()),
        }
    }
}

/// The last name the event list sets for the given colour; empty if none.
pub open spec fn last_player_name(es: Seq<GameEvent>, color: Color) -> Seq<char>
    decreases es.len(),
{
    if es.len() == 0 {
        Seq::empty()
    } else {
        match es.last() {
            GameEvent::SetPlayerName { color: c2, name } => if c2 == color {
                name@
            } else {
                last_player_name(es.drop_last(), color)
            },
            _ => last_player_name(es.drop_last(), color),
        }
    }
}

/// The last rank the event list sets for the given colour; empty if none.
pub open spec fn last_player_rank(es: Seq<GameEvent>, color: Color) -> Seq<char>
    decreases es.len(),
{
    if es.len() == 0 {
        Seq::empty()
    } else {
        match es.last() {
            GameEvent::SetPlayerRank { color: c2, rank } => if c2 == color {
                rank@
            } else {
                last_player_rank(es.drop_last(), color)
            },
            _ => last_player_rank(es.drop_last(), color),
        }
    }
}

/// A subtree that places stones makes the whole list place stones.
proof fn lemma_subtree_placements(ts: Seq<GameTree>, k: int)
    requires
        0 <= k < ts.len(),
        tree_has_placements(ts[k]),
    ensures
        subtrees_have_placements(ts),
    decreases ts.len(),
{
    if k == 0 {
    } else {
        assert(ts.skip(1)[k - 1] == ts[k]);
        lemma_subtree_placements(ts.skip(1), k - 1);
    }
}

/// A whole game: its metadata and the arena of every position reached.
#[derive(Debug, Clone)]
pub struct Game {
    board_size: u32,
    player_black: String,
    player_white: String,
    rank_black: String,
    rank_white: String,
    board_positions: Vec<Board>,
    board_number: u32,
}

impl Game {
    /// The edge length shared by every position of this game.
    pub closed spec fn spec_board_size(self) -> u32 {
        self.board_size
    }

    /// The arena of positions; the identifier of a position is its index.
    pub closed spec fn positions(self) -> Seq<Board> {
        self.board_positions@
    }

    /// The highest position identifier assigned so far; also the number of
    /// stones played as numbered moves anywhere in the tree.
    pub closed spec fn spec_board_number(self) -> u32 {
        self.board_number
    }

    pub closed spec fn spec_player_black(self) -> Seq<char> {
        self.player_black@
    }

    pub closed spec fn spec_player_white(self) -> Seq<char> {
        self.player_white@
    }

    pub closed spec fn spec_rank_black(self) -> Seq<char> {
        self.rank_black@
    }

    pub closed spec fn spec_rank_white(self) -> Seq<char> {
        self.rank_white@
    }

    /// Structural soundness of the whole tree: the arena holds exactly the
    /// root plus one position per move ever played, every board is sound and
    /// shares the game's size, move numbers never outrun position
    /// identifiers, and every tree link names a position that exists --
    /// children strictly later than their parent, parents strictly earlier
    /// than their children.
    pub open spec fn wf(self) -> bool {
        &&& self.positions().len() == self.spec_board_number() + 1
        &&& forall|k: int| 0 <= k < self.positions().len() ==> (#[trigger] self.positions()[k]).wf()
        &&& forall|k: int|
            0 <= k < self.positions().len() ==> (#[trigger] self.positions()[k]).spec_size()
                == self.spec_board_size()
        &&& forall|k: int|
            0 <= k < self.positions().len() ==> (#[trigger] self.positions()[k]).spec_move_number() <= k
        &&& forall|k: int|
            0 <= k < self.positions().len() ==> (#[trigger] self.positions()[k]).nexts().len()
                <= self.spec_board_number()
        &&& forall|k: int, j: int|
            0 <= k < self.positions().len() && 0 <= j < self.positions()[k].nexts().len() ==> k < (
            #[trigger] self.positions()[k].nexts()[j]) && self.positions()[k].nexts()[j]
                <= self.spec_board_number()
        &&& forall|k: int|
            1 <= k < self.positions().len() ==> (#[trigger] self.positions()[k]).spec_prev() < k
        &&& self.positions()[0].spec_prev() == 0
        &&& forall|k: int|
            0 <= k < self.positions().len() ==> numbers_recorded(
                (#[trigger] self.positions()[k]).grid(),
                self.spec_board_size() as int,
                self.positions()[k].spec_move_number() as int,
            )
    }

    /// A fresh game: one empty root position, no moves, no metadata.
    pub fn new(board_size: u32) -> (g: Game)
        requires
            (board_size as int) * (board_size as int) <= usize::MAX as int,
        ensures
            g.wf(),
            g.spec_board_size() == board_size,
            g.spec_board_number() == 0,
            g.positions().len() == 1,
            g.positions()[0].spec_move_number() == 0,
            g.positions()[0].nexts().len() == 0,
            g.positions()[0].spec_moves().len() == 0,
            forall|r: int, c: int|
                in_bounds(board_size as int, r, c) ==> #[trigger] cell(
                    g.positions()[0].grid(),
                    board_size as int,
                    r,
                    c,
                ) is Empty,
            g.spec_player_black() == Seq::<char>::empty(),
            g.spec_player_white() == Seq::<char>::empty(),
            g.spec_rank_black() == Seq::<char>::empty(),
            g.spec_rank_white() == Seq::<char>::empty(),
    {
        let root = Board::new(board_size);
        let mut board_positions: Vec<Board> = Vec::new();
        board_positions.push(root);
        let g = Game {
            board_size,
            player_black: String::new(),
            player_white: String::new(),
            rank_black: String::new(),
            rank_white: String::new(),
            board_positions,
            board_number: 0,
        };
        g
    }

    /// Builds a game from a recorded event tree: applies the size and
    /// player declarations of the root sequence first (the last declaration
    /// of each kind wins), then replays every placement depth-first, so that
    /// sibling variations all attach as children of the same branch
    /// position.
    ///
    /// A successful build is a faithful replay: the result stands in the
    /// replay relation to the declared initial game, and its final move
    /// number is the number of recorded moves. A failed build is a refused
    /// placement: the depth-first replay from the declared initial game
    /// reaches a placement the engine refuses, and the result carries that
    /// placement's own error, unchanged. The two branches cannot trade
    /// places: every game satisfying `initial_game_ok` has the same
    /// observable state, and the replay relations are determined by the
    /// observables alone, so a tree either replays in full or has a first
    /// refused placement -- never both.
    pub fn from_game_tree(tree: &GameTree) -> (res: Result<Game, Error>)
        requires
            (last_declared_size(tree.events@) as int) * (last_declared_size(tree.events@) as int)
                <= usize::MAX as int,
            count_play_moves(*tree) < u32::MAX,
        ensures
            match res {
                Ok(game) => {
                    &&& game.wf()
                    &&& game.spec_board_size() == last_declared_size(tree.events@)
                    &&& game.spec_player_black() == last_player_name(tree.events@, Color::Black)
                    &&& game.spec_player_white() == last_player_name(tree.events@, Color::White)
                    &&& game.spec_rank_black() == last_player_rank(tree.events@, Color::Black)
                    &&& game.spec_rank_white() == last_player_rank(tree.events@, Color::White)
                    &&& game.spec_board_number() == count_play_moves(*tree)
                    &&& exists|g0: Game|
                        #[trigger] initial_game_ok(g0, tree.events@) && replay_tree_rel(g0, *tree, 0, game)
                },
                Err(e) => {
                    &&& (e == Error::OutOfRange || e == Error::PointOccupied)
                    &&& exists|g0: Game|
                        #[trigger] initial_game_ok(g0, tree.events@) && replay_tree_fails(g0, *tree, 0, e)
                },
            },
            !tree_has_placements(*tree) ==> res is Ok,
    {
        let ghost es = tree.events@;
        let mut size: u32 = 0;
        let mut player_black = String::new();
        let mut player_white = String::new();
        let mut rank_black = String::new();
        let mut rank_white = String::new();
        let mut idx: usize = 0;
        proof {
            assert(es.take(0) =~= Seq::<GameEvent>::empty());
        }
        while idx < tree.events.len()
            invariant
                es == tree.events@,
                idx <= es.len(),
                size == last_declared_size(es.take(idx as int)),
                player_black@ == last_player_name(es.take(idx as int), Color::Black),
                player_white@ == last_player_name(es.take(idx as int), Color::White),
                rank_black@ == last_player_rank(es.take(idx as int), Color::Black),
                rank_white@ == last_player_rank(es.take(idx as int), Color::White),
            decreases es.len() - idx,
        {
            match &tree.events[idx] {
                GameEvent::DeclareSize(n) => {
                    size = *n;
                },
                GameEvent::SetPlayerName { color: Color::Black, name } => {
                    player_black = name.clone();
                },
                GameEvent::SetPlayerName { color: Color::White, name } => {
                    player_white = name.clone();
                },
                GameEvent::SetPlayerRank { color: Color::Black, rank } => {
                    rank_black = rank.clone();
                },
                GameEvent::SetPlayerRank { color: Color::White, rank } => {
                    rank_white = rank.clone();
                },
                _ => {},
            }
            proof {
                assert(es.take(idx as int + 1).drop_last() =~= es.take(idx as int));
                assert(es.take(idx as int + 1).last() == es[idx as int]);
            }
            idx = idx + 1;
        }
        proof {
            assert(es.take(es.len() as int) =~= es);
        }
        let mut game = Game::new(size);
        game.player_black = player_black;
        game.player_white = player_white;
        game.rank_black = rank_black;
        game.rank_white = rank_white;
        let ghost g0 = game;
        proof {
            assert(initial_game_ok(g0, tree.events@));
        }
        match game.add_moves(tree, 0) {
            Err(e) => {
                proof {
                    assert(replay_tree_fails(g0, *tree, 0, e));
                }
                Err(e)
            },
            Ok(()) => {
                proof {
                    assert(replay_tree_rel(g0, *tree, 0, game));
                }
                Ok(game)
            },
        }
    }

    /// Replays one node sequence against the cursor board_number, then each
    /// recorded variation against the position where that sequence ended, so
    /// sibling variations become siblings in the tree. On success the whole
    /// subtree stands in the replay relation; on failure the first refused
    /// placement is reached by the replay and its error is returned
    /// unchanged.
    fn add_moves(&mut self, tree: &GameTree, board_number: u32) -> (res: Result<(), Error>)
        requires
            old(self).wf(),
            board_number <= old(self).spec_board_number(),
            old(self).spec_board_number() + count_play_moves(*tree) < u32::MAX,
        ensures
            final(self).wf(),
            final(self).spec_board_size() == old(self).spec_board_size(),
            final(self).spec_player_black() == old(self).spec_player_black(),
            final(self).spec_player_white() == old(self).spec_player_white(),
            final(self).spec_rank_black() == old(self).spec_rank_black(),
            final(self).spec_rank_white() == old(self).spec_rank_white(),
            final(self).spec_board_number() >= old(self).spec_board_number(),
            res is Ok ==> final(self).spec_board_number() == old(self).spec_board_number() + count_play_moves(
                *tree,
            ),
            res is Ok ==> replay_tree_rel(*old(self), *tree, board_number, *final(self)),
            res is Err ==> (res == Err::<(), Error>(Error::OutOfRange) || res == Err::<(), Error>(
                Error::PointOccupied,
            )),
            res matches Err(e) ==> replay_tree_fails(*old(self), *tree, board_number, e),
            !tree_has_placements(*tree) ==> res is Ok,
        decreases *tree,
    {
        let ghost es = tree.events@;
        let ghost vars = tree.variations@;
        let ghost bn0 = self.spec_board_number();
        let mut bn = board_number;
        let mut idx: usize = 0;
        let ghost mut echain: Seq<(Game, u32)> = seq![(*self, bn)];
        proof {
            assert(es.skip(0) =~= es);
        }
        while idx < tree.events.len()
            invariant
                self.wf(),
                es == tree.events@,
                vars == tree.variations@,
                idx <= es.len(),
                bn <= self.spec_board_number(),
                bn0 == old(self).spec_board_number(),
                self.spec_board_number() >= bn0,
                echain.len() == idx + 1,
                echain[0] == (*old(self), board_number),
                echain.last() == (*self, bn),
                forall|k: int|
                    0 <= k < idx ==> #[trigger] replay_event_rel(
                        echain[k].0,
                        es[k],
                        echain[k].1,
                        echain[k + 1].0,
                        echain[k + 1].1,
                    ),
                self.spec_board_size() == old(self).spec_board_size(),
                self.spec_player_black() == old(self).spec_player_black(),
                self.spec_player_white() == old(self).spec_player_white(),
                self.spec_rank_black() == old(self).spec_rank_black(),
                self.spec_rank_white() == old(self).spec_rank_white(),
                self.spec_board_number() + count_events(es.skip(idx as int)) + count_subtrees(vars) == bn0
                    + count_play_moves(*tree),
                bn0 + count_play_moves(*tree) < u32::MAX,
            decreases es.len() - idx,
        {
            let ghost rest = es.skip(idx as int);
            let ghost g_before = *self;
            let ghost bn_before = bn;
            proof {
                assert(rest[0] == es[idx as int]);
                assert(rest.skip(1) =~= es.skip(idx as int + 1));
            }
            match &tree.events[idx] {
                GameEvent::PlaceHandicapStone(i) => {
                    match self.place_handicap_stone(*i) {
                        Err(e) => {
                            proof {
                                assert(is_placement(es[idx as int]));
                                assert(events_have_placements(es));
                                assert(handicap_fails(g_before, *i, e));
                                lemma_replay_fail_at_event(
                                    *old(self),
                                    es,
                                    board_number,
                                    idx as int,
                                    g_before,
                                    bn_before,
                                    echain,
                                    e,
                                );
                            }
                            return Err(e);
                        },
                        Ok(()) => {},
                    }
                },
                GameEvent::PlayMove(i, color) => {
                    match self.place_stone(*i, *color, bn) {
                        Err(e) => {
                            proof {
                                assert(is_placement(es[idx as int]));
                                assert(events_have_placements(es));
                                assert(place_fails(g_before, *i, bn_before, e));
                                lemma_replay_fail_at_event(
                                    *old(self),
                                    es,
                                    board_number,
                                    idx as int,
                                    g_before,
                                    bn_before,
                                    echain,
                                    e,
                                );
                            }
                            return Err(e);
                        },
                        Ok(()) => {
                            bn = self.board_number;
                        },
                    }
                },
                _ => {},
            }
            proof {
                // One more event has been replayed: extend the chain of
                // intermediate states by the state it produced.
                let ec0 = echain;
                assert(replay_event_rel(g_before, es[idx as int], bn_before, *self, bn));
                echain = echain.push((*self, bn));
                assert forall|k: int| 0 <= k < idx as int + 1 implies #[trigger] replay_event_rel(
                    echain[k].0,
                    es[k],
                    echain[k].1,
                    echain[k + 1].0,
                    echain[k + 1].1,
                ) by {
                    if k < idx as int {
                        assert(echain[k] == ec0[k]);
                        assert(echain[k + 1] == ec0[k + 1]);
                    } else {
                        assert(echain[k] == ec0.last());
                        assert(echain[k + 1] == (*self, bn));
                    }
                }
            }
            idx = idx + 1;
        }
        proof {
            assert(es.skip(es.len() as int) =~= Seq::<GameEvent>::empty());
            assert(replay_events_rel(*old(self), es, board_number, *self, bn)) by {
                assert(echain.len() == es.len() + 1);
            }
        }
        let ghost mid_game = *self;
        let ghost mid_cursor = bn;
        let bn2 = self.board_number;
        let mut v: usize = 0;
        let ghost mut tchain: Seq<Game> = seq![*self];
        proof {
            assert(vars.skip(0) =~= vars);
        }
        while v < tree.variations.len()
            invariant
                self.wf(),
                es == tree.events@,
                vars == tree.variations@,
                v <= vars.len(),
                bn2 <= self.spec_board_number(),
                bn0 == old(self).spec_board_number(),
                self.spec_board_number() >= bn0,
                replay_events_rel(*old(self), es, board_number, mid_game, mid_cursor),
                bn2 == mid_game.spec_board_number(),
                tchain.len() == v + 1,
                tchain[0] == mid_game,
                tchain.last() == *self,
                forall|k: int|
                    0 <= k < v ==> #[trigger] replay_tree_rel(tchain[k], vars[k], bn2, tchain[k + 1]),
                self.spec_board_size() == old(self).spec_board_size(),
                self.spec_player_black() == old(self).spec_player_black(),
                self.spec_player_white() == old(self).spec_player_white(),
                self.spec_rank_black() == old(self).spec_rank_black(),
                self.spec_rank_white() == old(self).spec_rank_white(),
                self.spec_board_number() + count_subtrees(vars.skip(v as int)) == bn0 + count_play_moves(
                    *tree,
                ),
                bn0 + count_play_moves(*tree) < u32::MAX,
            decreases vars.len() - v,
        {
            let ghost rest = vars.skip(v as int);
            let ghost g_before = *self;
            proof {
                assert(rest[0] == vars[v as int]);
                assert(rest.skip(1) =~= vars.skip(v as int + 1));
                assert(decreases_to!(*tree => tree.variations));
                assert(decreases_to!(tree.variations => tree.variations@));
                assert(decreases_to!(tree.variations@ => tree.variations@[v as int]));
            }
            match self.add_moves(&tree.variations[v], bn2) {
                Err(e) => {
                    proof {
                        assert(tree_has_placements(vars[v as int]));
                        lemma_subtree_placements(vars, v as int);
                        assert(replay_tree_fails(tchain.last(), tree.variations@[v as int], mid_game.spec_board_number(), e));
                        assert forall|k: int| 0 <= k < v as int implies replay_tree_rel(
                            #[trigger] tchain[k],
                            tree.variations@[k],
                            mid_game.spec_board_number(),
                            tchain[k + 1],
                        ) by {
                            assert(replay_tree_rel(tchain[k], vars[k], bn2, tchain[k + 1]));
                        }
                        lemma_replay_tree_fails_intro(
                            *old(self),
                            *tree,
                            board_number,
                            mid_game,
                            mid_cursor,
                            v as int,
                            tchain,
                            e,
                        );
                    }
                    return Err(e);
                },
                Ok(()) => {},
            }
            proof {
                // One more variation has been replayed against the branch
                // point: extend the chain by the state it produced.
                let tc0 = tchain;
                assert(replay_tree_rel(g_before, vars[v as int], bn2, *self));
                tchain = tchain.push(*self);
                assert forall|k: int| 0 <= k < v as int + 1 implies #[trigger] replay_tree_rel(
                    tchain[k],
                    vars[k],
                    bn2,
                    tchain[k + 1],
                ) by {
                    if k < v as int {
                        assert(tchain[k] == tc0[k]);
                        assert(tchain[k + 1] == tc0[k + 1]);
                    } else {
                        assert(tchain[k] == tc0.last());
                        assert(tchain[k + 1] == *self);
                    }
                }
            }
            v = v + 1;
        }
        proof {
            assert forall|k: int| 0 <= k < tree.variations@.len() implies replay_tree_rel(
                #[trigger] tchain[k],
                tree.variations@[k],
                mid_game.spec_board_number(),
                tchain[k + 1],
            ) by {
                assert(replay_tree_rel(tchain[k], vars[k], bn2, tchain[k + 1]));
            }
            lemma_replay_tree_intro(*old(self), *tree, board_number, mid_game, mid_cursor, *self, tchain);
        }
        Ok(())
    }

    pub fn get_board_size(&self) -> (s: u32)
        ensures
            s == self.spec_board_size(),
    {
        self.board_size
    }

    /// The number of the last move played anywhere in the tree, which is
    /// also the highest position identifier.
    pub fn get_final_move_number(&self) -> (n: u32)
        ensures
            n == self.spec_board_number(),
    {
        self.board_number
    }

    pub fn get_player_black(&self) -> (s: String)
        ensures
            s@ == self.spec_player_black(),
    {
        self.player_black.clone()
    }

    pub fn get_player_white(&self) -> (s: String)
        ensures
            s@ == self.spec_player_white(),
    {
        self.player_white.clone()
    }

    pub fn get_rank_black(&self) -> (s: String)
        ensures
            s@ == self.spec_rank_black(),
    {
        self.rank_black.clone()
    }

    pub fn get_rank_white(&self) -> (s: String)
        ensures
            s@ == self.spec_rank_white(),
    {
        self.rank_white.clone()
    }

    /// A snapshot of the position with the given identifier, or
    /// `UnknownPosition` if no such position exists. The snapshot is a copy:
    /// mutating it never touches the tree.
    pub fn get_board(&self, board_number: u32) -> (res: Result<Board, Error>)
        requires
            self.wf(),
        ensures
            match res {
                Ok(b) => {
                    &&& board_number <= self.spec_board_number()
                    &&& board_eq(b, self.positions()[board_number as int])
                    &&& b.wf()
                },
                Err(e) => e == Error::UnknownPosition && board_number > self.spec_board_number(),
            },
    {
        if board_number <= self.board_number {
            let b = self.board_positions[board_number as usize].clone_board();
            Ok(b)
        } else {
            Err(Error::UnknownPosition)
        }
    }

    /// Plays a stone of the given colour from the position named by
    /// board_number: derives one new position from it, applies the capture
    /// pass, and records the new position as that position's next child.
    /// On any failure the game is left exactly as it was: no position is
    /// created, no link recorded, no identifier consumed.
    pub fn place_stone(&mut self, intersection: Intersection, color: Color, board_number: u32) -> (res: Result<
        (),
        Error,
    >)
        requires
            old(self).wf(),
            old(self).spec_board_number() < u32::MAX,
        ensures
            final(self).wf(),
            final(self).spec_board_size() == old(self).spec_board_size(),
            final(self).spec_player_black() == old(self).spec_player_black(),
            final(self).spec_player_white() == old(self).spec_player_white(),
            final(self).spec_rank_black() == old(self).spec_rank_black(),
            final(self).spec_rank_white() == old(self).spec_rank_white(),
            match res {
                Ok(()) => place_stone_ok(*old(self), intersection, color, board_number, *final(self)),
                Err(e) => *final(self) == *old(self) && match e {
                    Error::UnknownPosition => board_number > old(self).spec_board_number(),
                    Error::OutOfRange => board_number <= old(self).spec_board_number() && !in_bounds(
                        old(self).spec_board_size() as int,
                        intersection.row as int,
                        intersection.col as int,
                    ),
                    Error::PointOccupied => board_number <= old(self).spec_board_number() && in_bounds(
                        old(self).spec_board_size() as int,
                        intersection.row as int,
                        intersection.col as int,
                    ) && cell(
                        old(self).positions()[board_number as int].grid(),
                        old(self).spec_board_size() as int,
                        intersection.row as int,
                        intersection.col as int,
                    ) is Filled,
                },
            },
    {
        if board_number > self.board_number {
            return Err(Error::UnknownPosition);
        }
        let src_idx = board_number as usize;
        let mut new_board = self.board_positions[src_idx].clone_board();
        new_board.clear_next();
        new_board.set_prev(board_number);
        match new_board.place_stone(intersection, color) {
            Err(e) => Err(e),
            Ok(()) => {
                let new_id = self.board_number + 1;
                let mut src_mod = self.board_positions[src_idx].clone_board();
                src_mod.add_next(new_id);
                self.board_positions.set(src_idx, src_mod);
                self.board_positions.push(new_board);
                self.board_number = new_id;
                proof {
                    let pre = *old(self);
                    let post = *self;
                    assert forall|k: int| 0 <= k < post.positions().len() implies (#[trigger] post.positions()[k]).wf()
                        && post.positions()[k].spec_size() == post.spec_board_size()
                        && post.positions()[k].spec_move_number() <= k
                        && post.positions()[k].nexts().len() <= post.spec_board_number() by {
                        if k < pre.positions().len() {
                            assert(pre.positions()[k].wf());
                        }
                    }
                    assert forall|k: int, j: int|
                        0 <= k < post.positions().len() && 0 <= j < post.positions()[k].nexts().len() implies k < (
                    #[trigger] post.positions()[k].nexts()[j]) && post.positions()[k].nexts()[j]
                        <= post.spec_board_number() by {
                        if k < pre.positions().len() && k != board_number as int {
                            assert(post.positions()[k] == pre.positions()[k]);
                            assert(0 <= j < pre.positions()[k].nexts().len());
                        }
                    }
                    assert forall|k: int| 1 <= k < post.positions().len() implies (#[trigger] post.positions()[k]).spec_prev()
                        < k by {
                        if k < pre.positions().len() && k != board_number as int {
                            assert(post.positions()[k] == pre.positions()[k]);
                        }
                    }
                    let s = pre.spec_board_size() as int;
                    let src_b = pre.positions()[board_number as int];
                    let number = (src_b.spec_move_number() + 1) as u32;
                    let stone = PointState::Filled { move_number: number, stone_color: color };
                    assert forall|k: int| 0 <= k < post.positions().len() implies numbers_recorded(
                        (#[trigger] post.positions()[k]).grid(),
                        post.spec_board_size() as int,
                        post.positions()[k].spec_move_number() as int,
                    ) by {
                        if k < pre.positions().len() {
                            assert(pre.positions()[k].wf());
                            if k != board_number as int {
                                assert(post.positions()[k] == pre.positions()[k]);
                            }
                        } else {
                            // The appended position: its grid is the source
                            // grid with the stone placed and the capture pass
                            // applied; the stone carries the new move number,
                            // every surviving stone a smaller one.
                            let nb = post.positions()[k];
                            assert forall|r: int, c: int|
                                in_bounds(s, r, c) implies ((#[trigger] cell(nb.grid(), s, r, c))
                                matches PointState::Filled { move_number, .. } ==> move_number == 0
                                || move_number <= nb.spec_move_number()) by {
                                lemma_cell_update(
                                    src_b.grid(),
                                    s,
                                    intersection.row as int,
                                    intersection.col as int,
                                    stone,
                                    r,
                                    c,
                                );
                            }
                        }
                    }
                }
                Ok(())
            },
        }
    }

    /// Places a Black handicap stone directly on the root position. No new
    /// position is created and no move number is assigned; the capture pass
    /// still runs, as a setup stone too can capture. On failure the game is
    /// left exactly as it was.
    pub fn place_handicap_stone(&mut self, intersection: Intersection) -> (res: Result<(), Error>)
        requires
            old(self).wf(),
        ensures
            final(self).wf(),
            final(self).spec_board_size() == old(self).spec_board_size(),
            final(self).spec_board_number() == old(self).spec_board_number(),
            final(self).spec_player_black() == old(self).spec_player_black(),
            final(self).spec_player_white() == old(self).spec_player_white(),
            final(self).spec_rank_black() == old(self).spec_rank_black(),
            final(self).spec_rank_white() == old(self).spec_rank_white(),
            final(self).positions().len() == old(self).positions().len(),
            forall|k: int|
                1 <= k < old(self).positions().len() ==> #[trigger] final(self).positions()[k] == old(
                    self,
                ).positions()[k],
            match res {
                Ok(()) => handicap_ok(*old(self), intersection, *final(self)),
                Err(e) => *final(self) == *old(self) && match e {
                    Error::OutOfRange => !in_bounds(
                        old(self).spec_board_size() as int,
                        intersection.row as int,
                        intersection.col as int,
                    ),
                    Error::PointOccupied => in_bounds(
                        old(self).spec_board_size() as int,
                        intersection.row as int,
                        intersection.col as int,
                    ) && cell(
                        old(self).positions()[0].grid(),
                        old(self).spec_board_size() as int,
                        intersection.row as int,
                        intersection.col as int,
                    ) is Filled,
                    _ => false,
                },
            },
    {
        let mut b0 = self.board_positions[0].clone_board();
        match b0.add_stone(intersection, Color::Black) {
            Err(e) => Err(e),
            Ok(()) => {
                self.board_positions.set(0, b0);
                proof {
                    let pre = *old(self);
                    let post = *self;
                    let s = pre.spec_board_size() as int;
                    let stone = PointState::Filled { move_number: 0, stone_color: Color::Black };
                    assert forall|k: int| 0 <= k < post.positions().len() implies numbers_recorded(
                        (#[trigger] post.positions()[k]).grid(),
                        post.spec_board_size() as int,
                        post.positions()[k].spec_move_number() as int,
                    ) by {
                        assert(pre.positions()[k].wf());
                        if k != 0 {
                            assert(post.positions()[k] == pre.positions()[k]);
                        } else {
                            // The root keeps its move number; the setup stone
                            // carries number 0, every surviving stone its old
                            // number.
                            assert forall|r: int, c: int|
                                in_bounds(s, r, c) implies ((#[trigger] cell(post.positions()[0].grid(), s, r, c))
                                matches PointState::Filled { move_number, .. } ==> move_number == 0
                                || move_number <= post.positions()[0].spec_move_number()) by {
                                lemma_cell_update(
                                    pre.positions()[0].grid(),
                                    s,
                                    intersection.row as int,
                                    intersection.col as int,
                                    stone,
                                    r,
                                    c,
                                );
                            }
                        }
                    }
                }
                Ok(())
            },
        }
    }
}

/// What one successful handicap placement does: the root position's grid
/// gains a Black setup stone with the capture pass applied; the root's
/// links and move record, every other position, and the game's counters and
/// metadata are untouched.
pub open spec fn handicap_ok(pre: Game, intersection: Intersection, post: Game) -> bool {
    let s = pre.spec_board_size() as int;
    &&& post.spec_board_size() == pre.spec_board_size()
    &&& post.spec_board_number() == pre.spec_board_number()
    &&& post.spec_player_black() == pre.spec_player_black()
    &&& post.spec_player_white() == pre.spec_player_white()
    &&& post.spec_rank_black() == pre.spec_rank_black()
    &&& post.spec_rank_white() == pre.spec_rank_white()
    &&& post.positions().len() == pre.positions().len()
    &&& forall|k: int| 1 <= k < pre.positions().len() ==> #[trigger] post.positions()[k] == pre.positions()[k]
    &&& in_bounds(s, intersection.row as int, intersection.col as int)
    &&& cell(pre.positions()[0].grid(), s, intersection.row as int, intersection.col as int) is Empty
    &&& capture_ok(
        pre.positions()[0].grid().update(
            gidx(s, intersection.row as int, intersection.col as int),
            PointState::Filled { move_number: 0, stone_color: Color::Black },
        ),
        post.positions()[0].grid(),
        s,
        Color::Black,
    )
    &&& cell(post.positions()[0].grid(), s, intersection.row as int, intersection.col as int) == (PointState::Filled {
        move_number: 0,
        stone_color: Color::Black,
    })
    &&& post.positions()[0].spec_prev() == pre.positions()[0].spec_prev()
    &&& post.positions()[0].nexts() == pre.positions()[0].nexts()
    &&& post.positions()[0].spec_move_number() == pre.positions()[0].spec_move_number()
    &&& post.positions()[0].spec_moves() == pre.positions()[0].spec_moves()
    &&& post.positions()[0].spec_size() == pre.positions()[0].spec_size()
}

/// What replaying one event against the cursor does: a numbered move plays
/// from the cursor position and moves the cursor to the fresh position, a
/// handicap placement seeds the root, and a declaration leaves the tree
/// untouched.
pub open spec fn replay_event_rel(pre: Game, e: GameEvent, cursor: u32, post: Game, post_cursor: u32) -> bool {
    match e {
        GameEvent::PlayMove(i, color) => place_stone_ok(pre, i, color, cursor, post) && post_cursor
            == (pre.spec_board_number() + 1) as u32,
        GameEvent::PlaceHandicapStone(i) => handicap_ok(pre, i, post) && post_cursor == cursor,
        _ => post == pre && post_cursor == cursor,
    }
}

/// What replaying a whole event list does: some chain of intermediate
/// games and cursors joins the starting state to the final one, one replayed
/// event per link.
pub open spec fn replay_events_rel(pre: Game, es: Seq<GameEvent>, cursor: u32, post: Game, post_cursor: u32) -> bool {
    exists|chain: Seq<(Game, u32)>|
        {
            &&& #[trigger] chain.len() == es.len() + 1
            &&& chain[0] == (pre, cursor)
            &&& chain.last() == (post, post_cursor)
            &&& forall|k: int|
                0 <= k < es.len() ==> #[trigger] replay_event_rel(
                    chain[k].0,
                    es[k],
                    chain[k].1,
                    chain[k + 1].0,
                    chain[k + 1].1,
                )
        }
}

/// What replaying a recorded tree does: its event list is replayed first,
/// then each recorded variation in order, every variation branching from the
/// position that was newest when the event list had been replayed -- so
/// sibling variations share one branch point.
pub open spec fn replay_tree_rel(pre: Game, t: GameTree, cursor: u32, post: Game) -> bool
    decreases t,
{
    exists|mid: Game, mid_cursor: u32, chain: Seq<Game>|
        #![trigger replay_events_rel(pre, t.events@, cursor, mid, mid_cursor), chain.len()]
        {
            &&& replay_events_rel(pre, t.events@, cursor, mid, mid_cursor)
            &&& chain.len() == t.variations@.len() + 1
            &&& chain[0] == mid
            &&& chain.last() == post
            &&& forall|k: int|
                0 <= k < t.variations@.len() ==> replay_tree_rel(
                    #[trigger] chain[k],
                    t.variations@[k],
                    mid.spec_board_number(),
                    chain[k + 1],
                )
        }
}

/// Packages a replayed event list and a chain of replayed variations into
/// the whole-tree replay relation.
proof fn lemma_replay_tree_intro(pre: Game, t: GameTree, cursor: u32, mid: Game, mc: u32, post: Game, chain: Seq<Game>)
    requires
        replay_events_rel(pre, t.events@, cursor, mid, mc),
        chain.len() == t.variations@.len() + 1,
        chain[0] == mid,
        chain.last() == post,
        forall|k: int|
            0 <= k < t.variations@.len() ==> replay_tree_rel(
                #[trigger] chain[k],
                t.variations@[k],
                mid.spec_board_number(),
                chain[k + 1],
            ),
    ensures
        replay_tree_rel(pre, t, cursor, post),
{
}

/// Whether the engine refuses to play a stone at i from the source position
/// src of g, and with which error; the exact mirror of the error side of
/// [`Game::place_stone`]'s contract.
pub open spec fn place_fails(g: Game, i: Intersection, src: u32, err: Error) -> bool {
    let s = g.spec_board_size() as int;
    ||| err == Error::UnknownPosition && src > g.spec_board_number()
    ||| err == Error::OutOfRange && src <= g.spec_board_number() && !in_bounds(s, i.row as int, i.col as int)
    ||| err == Error::PointOccupied && src <= g.spec_board_number() && in_bounds(s, i.row as int, i.col as int)
        && cell(g.positions()[src as int].grid(), s, i.row as int, i.col as int) is Filled
}

/// Whether the engine refuses to seed the root of g with a handicap stone
/// at i, and with which error; the exact mirror of the error side of
/// [`Game::place_handicap_stone`]'s contract.
pub open spec fn handicap_fails(g: Game, i: Intersection, err: Error) -> bool {
    let s = g.spec_board_size() as int;
    ||| err == Error::OutOfRange && !in_bounds(s, i.row as int, i.col as int)
    ||| err == Error::PointOccupied && in_bounds(s, i.row as int, i.col as int) && cell(
        g.positions()[0].grid(),
        s,
        i.row as int,
        i.col as int,
    ) is Filled
}

/// Whether replaying one event against the cursor is refused, and with which
/// error. Declarations are never refused.
pub open spec fn event_fails(g: Game, e: GameEvent, cursor: u32, err: Error) -> bool {
    match e {
        GameEvent::PlayMove(i, color) => place_fails(g, i, cursor, err),
        GameEvent::PlaceHandicapStone(i) => handicap_fails(g, i, err),
        _ => false,
    }
}

/// Whether replaying an event list is refused with the given error: some
/// prefix of the list replays, and the event after that prefix is the first
/// one the engine refuses.
pub open spec fn replay_events_fail(pre: Game, es: Seq<GameEvent>, cursor: u32, err: Error) -> bool {
    exists|n: int, mid: Game, mid_cursor: u32|
        0 <= n < es.len() && #[trigger] replay_events_rel(pre, es.take(n), cursor, mid, mid_cursor) && event_fails(
            mid,
            es[n],
            mid_cursor,
            err,
        )
}

/// Whether replaying a recorded tree is refused with the given error: the
/// depth-first replay reaches a placement the engine refuses, either within
/// the tree's own event list, or -- after that list and some earlier
/// variations have replayed -- inside a later variation.
pub open spec fn replay_tree_fails(pre: Game, t: GameTree, cursor: u32, err: Error) -> bool
    decreases t,
{
    ||| replay_events_fail(pre, t.events@, cursor, err)
    ||| exists|mid: Game, mid_cursor: u32, n: int, chain: Seq<Game>|
        #![trigger replay_events_rel(pre, t.events@, cursor, mid, mid_cursor), chain.len(), t.variations@[n]]
        {
            &&& replay_events_rel(pre, t.events@, cursor, mid, mid_cursor)
            &&& 0 <= n < t.variations@.len()
            &&& chain.len() == n + 1
            &&& chain[0] == mid
            &&& forall|k: int|
                0 <= k < n ==> replay_tree_rel(
                    #[trigger] chain[k],
                    t.variations@[k],
                    mid.spec_board_number(),
                    chain[k + 1],
                )
            &&& replay_tree_fails(chain.last(), t.variations@[n], mid.spec_board_number(), err)
        }
}

/// Packages a replayed prefix of variations and a refused later variation
/// into the whole-tree failure relation.
proof fn lemma_replay_tree_fails_intro(
    pre: Game,
    t: GameTree,
    cursor: u32,
    mid: Game,
    mc: u32,
    n: int,
    chain: Seq<Game>,
    err: Error,
)
    requires
        replay_events_rel(pre, t.events@, cursor, mid, mc),
        0 <= n < t.variations@.len(),
        chain.len() == n + 1,
        chain[0] == mid,
        forall|k: int|
            0 <= k < n ==> replay_tree_rel(
                #[trigger] chain[k],
                t.variations@[k],
                mid.spec_board_number(),
                chain[k + 1],
            ),
        replay_tree_fails(chain.last(), t.variations@[n], mid.spec_board_number(), err),
    ensures
        replay_tree_fails(pre, t, cursor, err),
{
}

/// Packages a replayed chain of events and a refused next event into the
/// event-list failure relation, and hence into the whole-tree one.
proof fn lemma_replay_fail_at_event(
    pre: Game,
    es: Seq<GameEvent>,
    cursor: u32,
    n: int,
    mid: Game,
    mid_cursor: u32,
    echain: Seq<(Game, u32)>,
    err: Error,
)
    requires
        0 <= n < es.len(),
        echain.len() == n + 1,
        echain[0] == (pre, cursor),
        echain.last() == (mid, mid_cursor),
        forall|k: int|
            0 <= k < n ==> #[trigger] replay_event_rel(
                echain[k].0,
                es[k],
                echain[k].1,
                echain[k + 1].0,
                echain[k + 1].1,
            ),
        event_fails(mid, es[n], mid_cursor, err),
    ensures
        replay_events_fail(pre, es, cursor, err),
{
    assert(replay_events_rel(pre, es.take(n), cursor, mid, mid_cursor)) by {
        assert(echain.len() == es.take(n).len() + 1);
        assert forall|k: int| 0 <= k < es.take(n).len() implies #[trigger] replay_event_rel(
            echain[k].0,
            es.take(n)[k],
            echain[k].1,
            echain[k + 1].0,
            echain[k + 1].1,
        ) by {
            assert(es.take(n)[k] == es[k]);
            assert(replay_event_rel(echain[k].0, es[k], echain[k].1, echain[k + 1].0, echain[k + 1].1));
        }
    }
}

/// The game the builder starts from: one empty root position of the
/// declared size, carrying the declared player metadata and no moves.
pub open spec fn initial_game_ok(g: Game, es: Seq<GameEvent>) -> bool {
    &&& g.wf()
    &&& g.spec_board_size() == last_declared_size(es)
    &&& g.spec_board_number() == 0
    &&& g.positions().len() == 1
    &&& g.positions()[0].spec_move_number() == 0
    &&& g.positions()[0].nexts().len() == 0
    &&& g.positions()[0].spec_moves().len() == 0
    &&& forall|r: int, c: int|
        in_bounds(last_declared_size(es) as int, r, c) ==> #[trigger] cell(
            g.positions()[0].grid(),
            last_declared_size(es) as int,
            r,
            c,
        ) is Empty
    &&& g.spec_player_black() == last_player_name(es, Color::Black)
    &&& g.spec_player_white() == last_player_name(es, Color::White)
    &&& g.spec_rank_black() == last_player_rank(es, Color::Black)
    &&& g.spec_rank_white() == last_player_rank(es, Color::White)
}

/// What one successful placement does to the tree: the source position gains
/// the fresh identifier as one more child, one new position is appended
/// whose grid is the source grid with the stone placed and the capture pass
/// applied, and nothing else changes.
pub open spec fn place_stone_ok(pre: Game, intersection: Intersection, color: Color, src: u32, post: Game) -> bool {
    let s = pre.spec_board_size() as int;
    let src_b = pre.positions()[src as int];
    let new_id = pre.spec_board_number() + 1;
    let number = (src_b.spec_move_number() + 1) as u32;
    let nb = post.positions()[new_id as int];
    &&& src <= pre.spec_board_number()
    &&& in_bounds(s, intersection.row as int, intersection.col as int)
    &&& cell(src_b.grid(), s, intersection.row as int, intersection.col as int) is Empty
    &&& post.spec_board_number() == new_id
    &&& post.positions().len() == pre.positions().len() + 1
    &&& post.positions()[src as int].nexts() == src_b.nexts().push(new_id as u32)
    &&& post.positions()[src as int].grid() == src_b.grid()
    &&& post.positions()[src as int].spec_prev() == src_b.spec_prev()
    &&& post.positions()[src as int].spec_move_number() == src_b.spec_move_number()
    &&& post.positions()[src as int].spec_moves() == src_b.spec_moves()
    &&& post.positions()[src as int].spec_size() == src_b.spec_size()
    &&& forall|k: int|
        0 <= k < pre.positions().len() && k != src as int ==> #[trigger] post.positions()[k] == pre.positions()[k]
    &&& nb.spec_prev() == src
    &&& nb.nexts().len() == 0
    &&& nb.spec_move_number() == number
    &&& nb.spec_moves() == src_b.spec_moves().push(Move { move_number: number, intersection, color })
    &&& nb.spec_size() == pre.spec_board_size()
    &&& capture_ok(
        src_b.grid().update(
            gidx(s, intersection.row as int, intersection.col as int),
            PointState::Filled { move_number: number, stone_color: color },
        ),
        nb.grid(),
        s,
        color,
    )
    &&& cell(nb.grid(), s, intersection.row as int, intersection.col as int) == (PointState::Filled {
        move_number: number,
        stone_color: color,
    })
}

/// Variation law: two stones played from the same source position become
/// two sibling continuations. Afterwards the source position records exactly
/// two children, in play order; the two identifiers are distinct positions
/// that both exist in the tree, and each names the source as its
/// predecessor. The variation count a caller reads is the length of that
/// child list.
pub proof fn lemma_variations_from_same_source(
    g0: Game,
    g1: Game,
    g2: Game,
    i1: Intersection,
    c1: Color,
    i2: Intersection,
    c2: Color,
    src: u32,
)
    requires
        g0.wf(),
        place_stone_ok(g0, i1, c1, src, g1),
        place_stone_ok(g1, i2, c2, src, g2),
        g0.positions()[src as int].nexts().len() == 0,
    ensures
        g2.positions()[src as int].nexts().len() == 2,
        g2.positions()[src as int].nexts()[0] == g0.spec_board_number() + 1,
        g2.positions()[src as int].nexts()[1] == g0.spec_board_number() + 2,
        g2.positions()[src as int].nexts()[0] != g2.positions()[src as int].nexts()[1],
        g2.positions()[src as int].nexts()[0] <= g2.spec_board_number(),
        g2.positions()[src as int].nexts()[1] <= g2.spec_board_number(),
        g2.positions()[g2.positions()[src as int].nexts()[0] as int].spec_prev() == src,
        g2.positions()[g2.positions()[src as int].nexts()[1] as int].spec_prev() == src,
{
    let id1 = (g0.spec_board_number() + 1) as u32;
    let id2 = (g1.spec_board_number() + 1) as u32;
    assert(g1.positions()[src as int].nexts() == g0.positions()[src as int].nexts().push(id1));
    assert(g2.positions()[src as int].nexts() == g1.positions()[src as int].nexts().push(id2));
    assert(g2.positions()[src as int].nexts()[0] == id1);
    assert(g2.positions()[src as int].nexts()[1] == id2);
    // The first new position is untouched by the second placement: only the
    // source position changes and one fresh position is appended.
    assert(id1 as int != src as int);
    assert(g2.positions()[id1 as int] == g1.positions()[id1 as int]);
    assert(g1.positions()[id1 as int].spec_prev() == src);
    assert(g2.positions()[id2 as int].spec_prev() == src);
}

} // verus!
