//! The phases of a game and the two-step protocol for making a call.
use crate::dice::DiceCall;
use crate::game::{CallOutcome, LiarsDiceGame, PlayerId};
use crate::players::{
    dice_lost, face_count, has_id, holder_set, is_snapshot, is_tally, lemma_faces_cover_dice, player_of, same_ids,
    tally_total, total_dice, valid_hand,
};
use vstd::prelude::*;

verus! {

/// The phase a game is in.
#[derive(Debug)]
pub enum LiarsDiceState {
    PlayerTurn(PlayerTurnState),
    GameComplete(GameCompleteState),
    Start(GameStartState),
}

/// It is `player_id`'s turn.
#[derive(Debug)]
pub struct PlayerTurnState {
    pub player_id: PlayerId,
}

/// The game is over: only `winner_id` holds dice.
#[derive(Debug)]
pub struct GameCompleteState {
    pub winner_id: PlayerId,
}

/// No game has been dealt yet.
#[derive(Debug)]
pub struct GameStartState {}

} // verus!

verus! {

/// Why a proposed call was refused.
#[derive(Debug, Clone, Copy, PartialEq, Eq, Structural)]
pub enum CallError {
    /// A round opens with an `Increase`.
    FirstCallMustBeIncrease,
    /// An `Increase` must name a higher count than the open one.
    CountMustIncrease,
}

impl CallError {
    /// The reason, in words, for showing to the player.
    pub fn reason(&self) -> (r: &'static str)
        ensures
            *self == CallError::FirstCallMustBeIncrease ==> r@ == "First call must be an increase"@,
            *self == CallError::CountMustIncrease ==> r@ == "New count must be higher than previous"@,
    {
        match self {
            CallError::FirstCallMustBeIncrease => "First call must be an increase",
            CallError::CountMustIncrease => "New count must be higher than previous",
        }
    }
}

/// Whether `call` may follow the open call `open`, and if not, why.
/// Recorded calls are always increases, so the last arm is never taken.
pub open spec fn check_call(open: Option<DiceCall>, call: DiceCall) -> Option<CallError> {
    match open {
        None => if call is Increase {
            None
        } else {
            Some(CallError::FirstCallMustBeIncrease)
        },
        Some(DiceCall::Increase { count: prev, .. }) => match call {
            DiceCall::Increase { count, .. } => if count > prev {
                None
            } else {
                Some(CallError::CountMustIncrease)
            },
            _ => None,
        },
        Some(_) => None,
    }
}

/// The count of the open `Increase`.
pub open spec fn open_count(game: LiarsDiceGame) -> usize {
    match game.open_call() {
        Some(DiceCall::Increase { count, .. }) => count,
        _ => 0,
    }
}

/// The face of the open `Increase`.
pub open spec fn open_face(game: LiarsDiceGame) -> u8 {
    match game.open_call() {
        Some(DiceCall::Increase { value, .. }) => value.0,
        _ => 0,
    }
}

/// A call that was checked against the game and waits to be committed.
pub struct ConfirmChoice(DiceCall);

impl ConfirmChoice {
    pub closed spec fn call(&self) -> DiceCall {
        self.0
    }
}

impl GameStartState {
    /// Deals the first game: every player gets a full hand, drawn in order
    /// of id; every player becomes active, in order of id; the starting
    /// player is drawn from them.
    pub fn initialise_game(self, game: &mut LiarsDiceGame)
        requires
            old(game).wf(),
            old(game).current() is None,
        ensures
            final(game).in_play(),
            same_ids(old(game).players_view(), final(game).players_view()),
            forall|i: int| 0 <= i < final(game).players_view().len() ==> {
                let q = #[trigger] final(game).players_view()[i];
                valid_hand(q.dice@, final(game).dice_per_player() as nat) && q.last_call is None
            },
            final(game).roster().len() == final(game).players_view().len(),
            forall|k: int| 0 <= k < final(game).roster().len()
                ==> #[trigger] final(game).roster()[k] == final(game).players_view()[k].id,
            forall|a: int, b: int| 0 <= a < b < final(game).roster().len()
                ==> final(game).roster()[a] < final(game).roster()[b],
            forall|id: PlayerId| #[trigger] final(game).roster().contains(id) <==> old(game).original_order().contains(id),
            total_dice(final(game).players_view()) == old(game).original_order().len() * final(game).dice_per_player(),
            final(game).original_order() == old(game).original_order(),
            final(game).dice_per_player() == old(game).dice_per_player(),
    {
        game.initialise();
        proof {
            assert forall|id: PlayerId| #[trigger] game.roster().contains(id) <==> old(game).original_order().contains(id) by {
                if game.roster().contains(id) {
                    let k = choose|k: int| 0 <= k < game.roster().len() && game.roster()[k] == id;
                    assert(game.players_view()[k].id == id);
                }
                if old(game).original_order().contains(id) {
                    assert(has_id(game.players_view(), id));
                    let i = choose|i: int| 0 <= i < game.players_view().len() && game.players_view()[i].id == id;
                    assert(game.roster()[i] == id);
                }
            }
        }
    }
}

impl PlayerTurnState {
    /// Checks `call` against the open call of the round. Only an `Increase`
    /// opens a round; an `Increase` must name a higher count than the open
    /// one, whatever its face; a challenge may answer any open `Increase`.
    pub fn propose_choice(&self, game: &LiarsDiceGame, call: DiceCall) -> (r: Result<ConfirmChoice, CallError>)
        requires
            game.turn_of(self.player_id),
            call.valid(),
        ensures
            match check_call(game.open_call(), call) {
                None => r matches Ok(c) && c.call() == call,
                Some(e) => r == Err::<ConfirmChoice, CallError>(e),
            },
    {
        proof {
            game.lemma_roster_is_holders();
        }
        let previous_calls = game.previous_calls();
        let previous = previous_calls[0].2;
        match previous {
            None => match call {
                DiceCall::Increase { .. } => Ok(ConfirmChoice(call)),
                _ => Err(CallError::FirstCallMustBeIncrease),
            },
            Some(DiceCall::Increase { count: prev_count, .. }) => match call {
                DiceCall::Increase { count, .. } => {
                    if count > prev_count {
                        Ok(ConfirmChoice(call))
                    } else {
                        Err(CallError::CountMustIncrease)
                    }
                },
                _ => Ok(ConfirmChoice(call)),
            },
            Some(_) => Ok(ConfirmChoice(call)),
        }
    }
}

impl ConfirmChoice {
    /// Commits the call for the player whose turn it is.
    ///
    /// An `Increase` becomes that player's last call and the turn passes on;
    /// nothing is reported. A challenge is settled against the count of the
    /// open call's face over all dice. `Bullshit` is right when fewer dice
    /// show it than claimed: then the claimant loses a die, else the
    /// challenger does. `SpotOn` is right when exactly as many show it: then
    /// every other active player loses a die and the challenger keeps the
    /// turn, else the challenger loses a die. Unless the challenger keeps the
    /// turn, the turn goes to the challenger if still active, else to the
    /// player now at its old roster position. A new round starts. The dice
    /// and the tally at the challenge are reported, with the verdict.
    pub fn confirm(self, state: PlayerTurnState, game: &mut LiarsDiceGame) -> (r: Option<CallOutcome>)
        requires
            old(game).turn_of(state.player_id),
            check_call(old(game).open_call(), self.call()) is None,
            self.call().valid(),
        ensures
            final(game).in_play(),
            final(game).original_order() == old(game).original_order(),
            final(game).dice_per_player() == old(game).dice_per_player(),
            self.call() is Increase ==> {
                &&& r is None
                &&& same_ids(old(game).players_view(), final(game).players_view())
                &&& forall|i: int| 0 <= i < final(game).players_view().len() ==> {
                    let p = old(game).players_view()[i];
                    let q = #[trigger] final(game).players_view()[i];
                    q.dice@ == p.dice@ && q.last_call == if p.id == state.player_id { Some(self.call()) } else { p.last_call }
                }
                &&& final(game).roster() == old(game).roster()
                &&& final(game).current() == Some(old(game).roster()[(old(game).turn_index() + 1) % (old(game).roster().len() as int)])
            },
            !(self.call() is Increase) ==> (r matches Some(o) && {
                let ps = old(game).players_view();
                let actual = face_count(ps, open_face(*old(game)));
                let claimed = open_count(*old(game));
                &&& is_snapshot(o.player_dices@, ps)
                &&& is_tally(o.tally@, ps)
                &&& tally_total(o.tally@) == total_dice(ps)
                &&& o.correct_call == if self.call() is Bullshit { actual < claimed } else { actual == claimed }
                &&& forall|i: int| 0 <= i < final(game).players_view().len() && final(game).roster().contains(final(game).players_view()[i].id)
                    ==> (#[trigger] final(game).players_view()[i]).last_call is None
                        && valid_hand(final(game).players_view()[i].dice@, final(game).players_view()[i].dice@.len())
                &&& forall|x: PlayerId| #[trigger] final(game).roster().contains(x)
                    <==> holder_set(final(game).players_view()).contains(x)
                &&& if self.call() is SpotOn && o.correct_call {
                    &&& dice_lost(ps, final(game).players_view(),
                        |x: PlayerId| old(game).roster().contains(x) && x != state.player_id)
                    &&& final(game).current() == Some(state.player_id)
                } else {
                    let loser = if self.call() is Bullshit && o.correct_call { old(game).open_caller() } else { state.player_id };
                    &&& dice_lost(ps, final(game).players_view(), |x: PlayerId| x == loser)
                    &&& final(game).roster() == if player_of(ps, loser).dice@.len() == 1 {
                        old(game).roster().filter(|x: PlayerId| x != loser)
                    } else {
                        old(game).roster()
                    }
                    &&& final(game).current() == Some(if final(game).roster().contains(state.player_id) {
                        state.player_id
                    } else {
                        final(game).roster()[old(game).turn_index() % (final(game).roster().len() as int)]
                    })
                }
            }),
    {
        match self.0 {
            DiceCall::Increase { .. } => {
                game.commit_increase(self.0);
                None
            },
            call => {
                proof {
                    game.lemma_roster_is_holders();
                    game.lemma_recorded_calls();
                }
                let (player_dices, tally) = game.challenge_inputs();
                proof {
                    lemma_faces_cover_dice(game.players_view());
                    assert(tally@[0].1 == face_count(game.players_view(), 1));
                    assert(tally@[1].1 == face_count(game.players_view(), 2));
                    assert(tally@[2].1 == face_count(game.players_view(), 3));
                    assert(tally@[3].1 == face_count(game.players_view(), 4));
                    assert(tally@[4].1 == face_count(game.players_view(), 5));
                    assert(tally@[5].1 == face_count(game.players_view(), 6));
                }
                let previous_calls = game.previous_calls();
                let (prev_id, _, previous_call) = previous_calls[0];
                proof {
                    let n = game.roster().len() as int;
                    let k = game.turn_index();
                    assert(0 <= (k + n - 1 - 0) % n < n) by (nonlinear_arith)
                        requires n > 0;
                    assert(game.roster().contains(prev_id));
                    game.lemma_roster_members(prev_id);
                }
                let (prev_count, prev_val) = match previous_call {
                    Some(DiceCall::Increase { count, value }) => (count, value),
                    _ => vstd::pervasive::unreached(),
                };
                let actual_count = LiarsDiceGame::tally_get(&tally, prev_val);
                let current_player_id = state.player_id;
                let correct_call = match call {
                    DiceCall::Bullshit => {
                        let correct_call = actual_count < prev_count;
                        if correct_call {
                            game.settle_one_loser(prev_id);
                        } else {
                            game.settle_one_loser(current_player_id);
                        }
                        correct_call
                    },
                    _ => {
                        let correct_call = actual_count == prev_count;
                        if correct_call {
                            game.settle_all_but_current();
                        } else {
                            game.settle_one_loser(current_player_id);
                        }
                        correct_call
                    },
                };
                proof {
                    game.lemma_roster_is_holders();
                }
                Some(CallOutcome { player_dices, tally, correct_call })
            },
        }
    }
}

impl LiarsDiceState {
    /// The start phase, or the state itself back.
    pub fn expect_start(self) -> (r: Result<GameStartState, LiarsDiceState>)
        ensures
            r is Ok <==> self is Start,
    {
        match self {
            LiarsDiceState::Start(ss) => Ok(ss),
            _ => Err(self),
        }
    }

    /// The player-turn phase, or the state itself back.
    pub fn expect_player_turn(self) -> (r: Result<PlayerTurnState, LiarsDiceState>)
        ensures
            r is Ok <==> self is PlayerTurn,
            r matches Ok(t) ==> self == LiarsDiceState::PlayerTurn(t),
    {
        match self {
            LiarsDiceState::PlayerTurn(pt) => Ok(pt),
            _ => Err(self),
        }
    }

    /// The completed phase, or the state itself back.
    pub fn expect_complete(self) -> (r: Result<GameCompleteState, LiarsDiceState>)
        ensures
            r is Ok <==> self is GameComplete,
            r matches Ok(c) ==> self == LiarsDiceState::GameComplete(c),
    {
        match self {
            LiarsDiceState::GameComplete(gc) => Ok(gc),
            _ => Err(self),
        }
    }
}

} // verus!
