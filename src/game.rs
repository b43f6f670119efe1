//! The game engine: roster, dice, turn pointer and random source.
use crate::dice::{Dice, DiceCall};
use crate::players::{
    by_recency, dice_lost, dice_showing, face_count, valid_hand, has_id, holder_count, holder_set,
    is_snapshot, is_tally, lemma_dice_prefix_bound, lemma_face_count_bound, lemma_holder_count,
    lemma_index_of_unique, lemma_player_index, lemma_same_holders, lemma_same_ids, lemma_total_full, minus_one,
    player_index, player_of, same_ids, setup_ok, sorted_by_id, tally_of, total_dice,
};
use crate::random::choose_id;
use crate::state::{GameCompleteState, GameStartState, LiarsDiceState, PlayerTurnState};
use rand_chacha::ChaCha12Rng;
use vstd::prelude::*;

verus! {

/// A player's identity: the 128-bit value of its UUID, whose order is the
/// order of the UUID's bytes.
pub type PlayerId = u128;

/// Per-player state: identity, the dice still held and the last call made
/// this round.
#[derive(Debug)]
pub struct LiarsDicePlayer {
    pub id: PlayerId,
    pub dice: Vec<Dice>,
    pub last_call: Option<DiceCall>,
}

/// Why a game could not be set up.
#[derive(Debug, Clone, Copy, PartialEq, Eq, Structural)]
pub enum SetupError {
    NoStartingDice,
    TooFewPlayers,
    DuplicatePlayer,
}

/// The authoritative game state.
///
/// `players` is kept sorted by id, ids strictly increasing, so it plays the
/// part of an ordered map from id to player record.
#[derive(Debug)]
pub struct LiarsDiceGame {
    rng: ChaCha12Rng,
    starting_dice: u8,
    original_player_order: Vec<PlayerId>,
    current_players: Vec<PlayerId>,
    current_player: Option<PlayerId>,
    players: Vec<LiarsDicePlayer>,
}

/// A turn pointer placed by position, for when the player it names may have
/// left the active roster.
pub struct RollerOrNext {
    pub index: usize,
    pub player_id: PlayerId,
}

impl RollerOrNext {
    /// Makes `player_id` the current player if it is still active; otherwise
    /// the player now at `index`, taken modulo the roster's length.
    pub fn set_correct_player(self, game: &mut LiarsDiceGame)
        requires
            old(game).wf(),
            old(game).current() is Some,
            old(game).roster().len() > 0,
        ensures
            final(game).in_play(),
            final(game).current() == Some(if old(game).roster().contains(self.player_id) {
                self.player_id
            } else {
                old(game).roster()[self.index as int % old(game).roster().len() as int]
            }),
            final(game).players_view() == old(game).players_view(),
            final(game).roster() == old(game).roster(),
            final(game).original_order() == old(game).original_order(),
            final(game).dice_per_player() == old(game).dice_per_player(),
    {
        if game.roster_contains(self.player_id) {
            game.current_player = Some(self.player_id);
        } else {
            let index = self.index % game.current_players.len();
            game.current_player = Some(game.current_players[index]);
        }
    }
}


fn copy_dice(d: &Vec<Dice>) -> (r: Vec<Dice>)
    ensures
        r@ == d@,
{
    let mut r: Vec<Dice> = Vec::new();
    let mut k: usize = 0;
    while k < d.len()
        invariant
            k <= d@.len(),
            r@ == d@.subrange(0, k as int),
        decreases d@.len() - k,
    {
        r.push(d[k]);
        k = k + 1;
        proof {
            assert(r@ =~= d@.subrange(0, k as int));
        }
    }
    r
}

fn copy_ids(d: &Vec<PlayerId>) -> (r: Vec<PlayerId>)
    ensures
        r@ == d@,
{
    let mut r: Vec<PlayerId> = Vec::new();
    let mut k: usize = 0;
    while k < d.len()
        invariant
            k <= d@.len(),
            r@ == d@.subrange(0, k as int),
        decreases d@.len() - k,
    {
        r.push(d[k]);
        k = k + 1;
        proof {
            assert(r@ =~= d@.subrange(0, k as int));
        }
    }
    proof {
        assert(r@ =~= d@);
    }
    r
}


/// What a challenge reports: the dice and the tally as they stood when it
/// was resolved, and whether the challenger was right.
pub struct CallOutcome {
    pub player_dices: Vec<(PlayerId, Vec<Dice>)>,
    pub tally: Vec<(Dice, usize)>,
    pub correct_call: bool,
}


/// Rolls `n` dice, one draw each, in order.
fn roll_dice(rng: &mut ChaCha12Rng, n: u8) -> (r: Vec<Dice>)
    ensures
        valid_hand(r@, n as nat),
{
    let mut r: Vec<Dice> = Vec::new();
    let mut k: u8 = 0;
    while k < n
        invariant
            k <= n,
            valid_hand(r@, k as nat),
        decreases n - k,
    {
        r.push(Dice::roll(rng));
        k = k + 1;
    }
    r
}

impl LiarsDiceGame {
    /// The players, sorted by id.
    pub closed spec fn players_view(&self) -> Seq<LiarsDicePlayer> {
        self.players@
    }

    /// The active roster, in turn order.
    pub closed spec fn roster(&self) -> Seq<PlayerId> {
        self.current_players@
    }

    /// The roster as it was given at construction.
    pub closed spec fn original_order(&self) -> Seq<PlayerId> {
        self.original_player_order@
    }

    /// The player whose turn it is, if a game is running.
    pub closed spec fn current(&self) -> Option<PlayerId> {
        self.current_player
    }

    pub closed spec fn dice_per_player(&self) -> u8 {
        self.starting_dice
    }

    /// The well-formedness of a game.
    pub open spec fn wf(&self) -> bool {
        &&& self.wf_players()
        &&& self.current() is Some ==> holder_set(self.players_view()) == self.roster().to_set()
    }

    /// Everything of well-formedness but the agreement of the active roster
    /// with the players holding dice: players sorted by id and exactly the
    /// ids of the original roster; a roster of distinct players; valid faces;
    /// recorded calls that are valid increases.
    pub open spec fn wf_players(&self) -> bool {
        let ps = self.players_view();
        &&& self.dice_per_player() > 0
        &&& ps.len() >= 2
        &&& ps.len() * self.dice_per_player() <= usize::MAX
        &&& sorted_by_id(ps)
        &&& self.original_order().len() == ps.len()
        &&& self.original_order().no_duplicates()
        &&& forall|id: PlayerId| #[trigger] self.original_order().contains(id) <==> has_id(ps, id)
        &&& self.roster().no_duplicates()
        &&& forall|k: int| 0 <= k < self.roster().len()
            ==> has_id(ps, #[trigger] self.roster()[k])
        &&& forall|i: int| 0 <= i < ps.len() ==> (#[trigger] ps[i]).dice@.len() <= self.dice_per_player()
        &&& forall|i: int, k: int| 0 <= i < ps.len() && 0 <= k < ps[i].dice@.len()
            ==> (#[trigger] ps[i].dice@[k]).valid()
        &&& forall|i: int| 0 <= i < ps.len() ==> match (#[trigger] ps[i]).last_call {
            None => true,
            Some(c) => c is Increase && c.valid(),
        }
    }

    /// A well-formed game with a turn pointer inside the active roster.
    pub open spec fn in_play(&self) -> bool {
        &&& self.wf()
        &&& self.current() matches Some(p)
        &&& self.roster().contains(p)
    }

    /// Sets up a game in which the player at position `k` of `player_ids`
    /// holds the hand at position `k` of `hands`. No turn pointer is set yet.
    pub fn try_new_with_hands(
        rng: ChaCha12Rng,
        starting_dice: u8,
        player_ids: &[PlayerId],
        hands: &Vec<Vec<Dice>>,
    ) -> (r: Result<Self, SetupError>)
        requires
            player_ids@.len() * starting_dice <= usize::MAX,
            hands@.len() == player_ids@.len(),
            forall|k: int| 0 <= k < hands@.len() ==> valid_hand((#[trigger] hands@[k])@, starting_dice as nat),
        ensures
            r is Ok <==> setup_ok(starting_dice, player_ids@),
            starting_dice == 0 ==> r == Err::<Self, SetupError>(SetupError::NoStartingDice),
            starting_dice > 0 && player_ids@.len() < 2 ==> r == Err::<Self, SetupError>(SetupError::TooFewPlayers),
            starting_dice > 0 && player_ids@.len() >= 2 && !player_ids@.no_duplicates()
                ==> r == Err::<Self, SetupError>(SetupError::DuplicatePlayer),
            r matches Ok(g) ==> {
                &&& g.wf()
                &&& g.current() is None
                &&& g.roster().len() == 0
                &&& g.original_order() == player_ids@
                &&& g.dice_per_player() == starting_dice
                &&& forall|id: PlayerId| #[trigger] has_id(g.players_view(), id) <==> player_ids@.contains(id)
                &&& forall|i: int| 0 <= i < g.players_view().len() ==> {
                    &&& valid_hand((#[trigger] g.players_view()[i]).dice@, starting_dice as nat)
                    &&& g.players_view()[i].last_call is None
                    &&& g.players_view()[i].dice@ == hands@[player_ids@.index_of(g.players_view()[i].id)]@
                }
            },
    {
        if starting_dice == 0 {
            return Err(SetupError::NoStartingDice);
        }
        if player_ids.len() < 2 {
            return Err(SetupError::TooFewPlayers);
        }
        let mut players: Vec<LiarsDicePlayer> = Vec::new();
        let mut order: Vec<PlayerId> = Vec::new();
        let n = player_ids.len();
        let mut k: usize = 0;
        while k < n
            invariant
                n == player_ids@.len(),
                k <= n,
                starting_dice > 0,
                order@ == player_ids@.subrange(0, k as int),
                order@.no_duplicates(),
                players@.len() == k,
                sorted_by_id(players@),
                forall|id: PlayerId| #[trigger] has_id(players@, id) <==> order@.contains(id),
                hands@.len() == n,
                forall|j: int| 0 <= j < n ==> valid_hand((#[trigger] hands@[j])@, starting_dice as nat),
                forall|i: int| 0 <= i < players@.len() ==> {
                    &&& valid_hand((#[trigger] players@[i]).dice@, starting_dice as nat)
                    &&& players@[i].last_call is None
                    &&& players@[i].dice@ == hands@[order@.index_of(players@[i].id)]@
                },
            decreases n - k,
        {
            let id = player_ids[k];
            let dice = copy_dice(&hands[k]);
            let mut pos: usize = 0;
            while pos < players.len() && players[pos].id < id
                invariant
                    pos <= players@.len(),
                    forall|i: int| 0 <= i < pos ==> (#[trigger] players@[i]).id < id,
                decreases players@.len() - pos,
            {
                pos = pos + 1;
            }
            if pos < players.len() && players[pos].id == id {
                proof {
                    assert(has_id(players@, id));
                    assert(player_ids@[k as int] == id);
                    let j = choose|j: int| 0 <= j < order@.len() && order@[j] == id;
                    assert(player_ids@[j] == id);
                }
                return Err(SetupError::DuplicatePlayer);
            }
            proof {
                assert forall|i: int| pos <= i < players@.len() implies id < (#[trigger] players@[i]).id by {
                    if i > pos {
                        assert(players@[pos as int].id < players@[i].id);
                    }
                }
                if order@.contains(id) {
                    assert(has_id(players@, id));
                    let i = choose|i: int| 0 <= i < players@.len() && players@[i].id == id;
                    assert(players@[i].id != id);
                }
            }
            let ghost old_players = players@;
            let ghost old_order = order@;
            players.insert(pos, LiarsDicePlayer { id, dice, last_call: None });
            order.push(id);
            proof {
                assert(order@ =~= player_ids@.subrange(0, k + 1));
                assert forall|x: PlayerId| #[trigger] has_id(players@, x) <==> order@.contains(x) by {
                    if has_id(players@, x) {
                        let i = choose|i: int| 0 <= i < players@.len() && players@[i].id == x;
                        if x != id {
                            if i < pos {
                                assert(old_players[i].id == x);
                            } else {
                                assert(old_players[i - 1].id == x);
                            }
                            assert(has_id(old_players, x));
                            let j = choose|j: int| 0 <= j < old_order.len() && old_order[j] == x;
                            assert(order@[j] == x);
                        } else {
                            assert(order@[order@.len() - 1] == x);
                        }
                    }
                    if order@.contains(x) {
                        if x == id {
                            assert(players@[pos as int].id == x);
                        } else {
                            let j = choose|j: int| 0 <= j < order@.len() && order@[j] == x;
                            assert(old_order[j] == x);
                            assert(has_id(old_players, x));
                            let i = choose|i: int| 0 <= i < old_players.len() && old_players[i].id == x;
                            if i < pos {
                                assert(players@[i].id == x);
                            } else {
                                assert(players@[i + 1].id == x);
                            }
                        }
                    }
                }
            }
            proof {
                assert forall|i: int| 0 <= i < players@.len() implies
                    (#[trigger] players@[i]).dice@ == hands@[order@.index_of(players@[i].id)]@ by {
                    let x = players@[i].id;
                    let oi = if i < pos { i } else if i > pos { i - 1 } else { 0 };
                    if i != pos {
                        assert(old_players[oi] == players@[i]);
                        assert(old_order.contains(x)) by {
                            assert(has_id(old_players, x));
                        }
                        let j = old_order.index_of(x);
                        assert(0 <= j < old_order.len() && old_order[j] == x);
                        assert(order@[j] == x);
                        lemma_index_of_unique(order@, j);
                    } else {
                        assert(order@[k as int] == id);
                        lemma_index_of_unique(order@, k as int);
                    }
                }
            }
            k = k + 1;
        }
        proof {
            assert(order@ =~= player_ids@);
        }
        Ok(LiarsDiceGame {
            rng,
            starting_dice,
            original_player_order: order,
            current_players: Vec::new(),
            current_player: None,
            players,
        })
    }

    /// Sets up a game; every player is dealt `starting_dice` dice. The hands
    /// are drawn one after the other, player by player in the order given,
    /// and handed to `try_new_with_hands`. No turn pointer is set yet.
    pub fn try_new(rng: ChaCha12Rng, starting_dice: u8, player_ids: &[PlayerId]) -> (r: Result<Self, SetupError>)
        requires
            player_ids@.len() * starting_dice <= usize::MAX,
        ensures
            r is Ok <==> setup_ok(starting_dice, player_ids@),
            starting_dice == 0 ==> r == Err::<Self, SetupError>(SetupError::NoStartingDice),
            starting_dice > 0 && player_ids@.len() < 2 ==> r == Err::<Self, SetupError>(SetupError::TooFewPlayers),
            starting_dice > 0 && player_ids@.len() >= 2 && !player_ids@.no_duplicates()
                ==> r == Err::<Self, SetupError>(SetupError::DuplicatePlayer),
            r matches Ok(g) ==> {
                &&& g.wf()
                &&& g.current() is None
                &&& g.roster().len() == 0
                &&& g.original_order() == player_ids@
                &&& g.dice_per_player() == starting_dice
                &&& forall|id: PlayerId| #[trigger] has_id(g.players_view(), id) <==> player_ids@.contains(id)
                &&& forall|i: int| 0 <= i < g.players_view().len() ==> {
                    &&& valid_hand((#[trigger] g.players_view()[i]).dice@, starting_dice as nat)
                    &&& g.players_view()[i].last_call is None
                }
            },
    {
        let mut rng = rng;
        let n = player_ids.len();
        let mut hands: Vec<Vec<Dice>> = Vec::new();
        let mut k: usize = 0;
        while k < n
            invariant
                n == player_ids@.len(),
                k <= n,
                hands@.len() == k,
                forall|j: int| 0 <= j < k ==> valid_hand((#[trigger] hands@[j])@, starting_dice as nat),
            decreases n - k,
        {
            hands.push(roll_dice(&mut rng, starting_dice));
            k = k + 1;
        }
        Self::try_new_with_hands(rng, starting_dice, player_ids, &hands)
    }

    /// Sets up a game as `try_new` does, on arguments that are known to be
    /// acceptable.
    pub fn new(rng: ChaCha12Rng, starting_dice: u8, player_ids: &[PlayerId]) -> (g: Self)
        requires
            setup_ok(starting_dice, player_ids@),
            player_ids@.len() * starting_dice <= usize::MAX,
        ensures
            g.wf(),
            g.current() is None,
            g.roster().len() == 0,
            g.original_order() == player_ids@,
            g.dice_per_player() == starting_dice,
            forall|id: PlayerId| #[trigger] has_id(g.players_view(), id) <==> player_ids@.contains(id),
            forall|i: int| 0 <= i < g.players_view().len() ==> {
                &&& valid_hand((#[trigger] g.players_view()[i]).dice@, starting_dice as nat)
                &&& g.players_view()[i].last_call is None
            },
    {
        match Self::try_new(rng, starting_dice, player_ids) {
            Ok(g) => g,
            Err(_) => vstd::pervasive::unreached(),
        }
    }

    /// While a game runs, the players holding dice are exactly the active
    /// roster, so their number is the roster's length.
    pub proof fn lemma_roster_is_holders(&self)
        requires
            self.wf(),
            self.current() is Some,
        ensures
            holder_count(self.players_view()) == self.roster().len(),
            forall|id: PlayerId| #[trigger] holder_set(self.players_view()).contains(id) <==> self.roster().contains(id),
    {
        lemma_holder_count(self.players@);
        self.current_players@.unique_seq_to_set();
    }

    /// The position of the player with this id.
    fn find_player(&self, id: PlayerId) -> (i: usize)
        requires
            sorted_by_id(self.players@),
            has_id(self.players@, id),
        ensures
            i < self.players@.len(),
            self.players@[i as int].id == id,
    {
        let mut i: usize = 0;
        while i < self.players.len()
            invariant
                i <= self.players@.len(),
                forall|j: int| 0 <= j < i ==> (#[trigger] self.players@[j]).id != id,
            decreases self.players@.len() - i,
        {
            if self.players[i].id == id {
                return i;
            }
            i = i + 1;
        }
        proof {
            let j = choose|j: int| 0 <= j < self.players@.len() && self.players@[j].id == id;
        }
        vstd::pervasive::unreached()
    }

    /// Takes one die from the named player. A player left with no dice leaves
    /// the active roster; the original roster keeps it.
    pub fn remove_dice_from_player(&mut self, player_id: &PlayerId)
        requires
            old(self).wf(),
            has_id(old(self).players_view(), *player_id),
        ensures
            final(self).wf(),
            final(self).players_view().len() == old(self).players_view().len(),
            forall|i: int| 0 <= i < final(self).players_view().len() ==> {
                let p = old(self).players_view()[i];
                let q = #[trigger] final(self).players_view()[i];
                &&& q.id == p.id
                &&& q.last_call == p.last_call
                &&& q.dice@ == if p.id == *player_id { minus_one(p.dice@) } else { p.dice@ }
            },
            final(self).roster() == if old(self).players_view().len() > 0 && exists|i: int| 0 <= i < old(self).players_view().len()
                && old(self).players_view()[i].id == *player_id && old(self).players_view()[i].dice@.len() <= 1 {
                old(self).roster().filter(|x: PlayerId| x != *player_id)
            } else {
                old(self).roster()
            },
            final(self).current() == old(self).current(),
            final(self).original_order() == old(self).original_order(),
            final(self).dice_per_player() == old(self).dice_per_player(),
    {
        let id = *player_id;
        let i = self.find_player(id);
        let ghost old_ps = self.players@;
        let ghost old_roster = self.current_players@;
        self.players[i].dice.pop();
        proof {
            assert forall|j: int| 0 <= j < self.players@.len() && j != i implies self.players@[j] == old_ps[j] by {}
            assert(self.players@[i as int].dice@ == minus_one(old_ps[i as int].dice@));
        }
        if self.players[i].dice.len() == 0 {
            let mut kept: Vec<PlayerId> = Vec::new();
            let mut k: usize = 0;
            while k < self.current_players.len()
                invariant
                    self.current_players@ == old_roster,
                    k <= old_roster.len(),
                    kept@ == old_roster.subrange(0, k as int).filter(|x: PlayerId| x != id),
                    old_roster.no_duplicates(),
                    kept@.no_duplicates(),
                    forall|y: PlayerId| #[trigger] kept@.contains(y) ==> old_roster.subrange(0, k as int).contains(y),
                decreases old_roster.len() - k,
            {
                let x = self.current_players[k];
                proof {
                    reveal(Seq::filter);
                    assert(old_roster.subrange(0, k + 1).drop_last() =~= old_roster.subrange(0, k as int));
                }
                if x != id {
                    proof {
                        if kept@.contains(x) {
                            let j = choose|j: int| 0 <= j < k && old_roster.subrange(0, k as int)[j] == x;
                            assert(old_roster[j] == old_roster[k as int]);
                        }
                    }
                    let ghost prev = kept@;
                    kept.push(x);
                    proof {
                        assert forall|y: PlayerId| #[trigger] kept@.contains(y) implies old_roster.subrange(0, k + 1).contains(y) by {
                            let j = choose|j: int| 0 <= j < kept@.len() && kept@[j] == y;
                            if j < kept@.len() - 1 {
                                assert(prev[j] == y);
                                assert(prev.contains(y));
                                let m = choose|m: int| 0 <= m < k && old_roster.subrange(0, k as int)[m] == y;
                                assert(old_roster[m] == y);
                                assert(old_roster.subrange(0, k + 1)[m] == y);
                            } else {
                                assert(old_roster.subrange(0, k + 1)[k as int] == y);
                            }
                        }
                    }
                } else {
                    proof {
                        assert forall|y: PlayerId| #[trigger] kept@.contains(y) implies old_roster.subrange(0, k + 1).contains(y) by {
                            let m = choose|m: int| 0 <= m < k && old_roster.subrange(0, k as int)[m] == y;
                            assert(old_roster.subrange(0, k + 1)[m] == y);
                        }
                    }
                }
                k = k + 1;
            }
            proof {
                assert(old_roster.subrange(0, k as int) =~= old_roster);
                assert forall|x: PlayerId| #[trigger] kept@.contains(x) <==> (old_roster.contains(x) && x != id) by {
                    let pred = |y: PlayerId| y != id;
                    if kept@.contains(x) {
                        let j = choose|j: int| 0 <= j < kept@.len() && kept@[j] == x;
                        old_roster.lemma_filter_pred(pred, j);
                        old_roster.lemma_filter_contains_rev(pred, x);
                    }
                    if old_roster.contains(x) && x != id {
                        let j = choose|j: int| 0 <= j < old_roster.len() && old_roster[j] == x;
                        old_roster.lemma_filter_contains(pred, j);
                    }
                }
            }
            self.current_players = kept;
            proof {
                assert forall|x: PlayerId| holder_set(self.players@).contains(x) <==> (holder_set(old_ps).contains(x) && x != id) by {
                    if holder_set(self.players@).contains(x) {
                        let j = choose|j: int| 0 <= j < self.players@.len() && self.players@[j].id == x && self.players@[j].dice@.len() > 0;
                        assert(old_ps[j].dice@.len() > 0);
                    }
                    if holder_set(old_ps).contains(x) && x != id {
                        let j = choose|j: int| 0 <= j < old_ps.len() && old_ps[j].id == x && old_ps[j].dice@.len() > 0;
                        assert(j != i);
                        assert(self.players@[j].dice@.len() > 0);
                    }
                }
                if self.current_player is Some {
                    assert forall|x: PlayerId| holder_set(self.players@).contains(x) <==> self.current_players@.to_set().contains(x) by {
                        assert(holder_set(old_ps).contains(x) <==> old_roster.to_set().contains(x));
                        assert(old_roster.to_set().contains(x) <==> old_roster.contains(x));
                        assert(kept@.to_set().contains(x) <==> kept@.contains(x));
                    }
                    assert(holder_set(self.players@) =~= self.current_players@.to_set());
                }
                assert forall|y: PlayerId| #[trigger] self.current_players@.contains(y) implies old_roster.contains(y) by {}
                assert(exists|j: int| 0 <= j < old_ps.len() && old_ps[j].id == id && old_ps[j].dice@.len() <= 1) by {
                    assert(old_ps[i as int].id == id);
                }
            }
        } else {
            proof {
                assert(holder_set(self.players@) =~= holder_set(old_ps)) by {
                    assert forall|x: PlayerId| holder_set(self.players@).contains(x) implies holder_set(old_ps).contains(x) by {
                        let j = choose|j: int| 0 <= j < self.players@.len() && self.players@[j].id == x && self.players@[j].dice@.len() > 0;
                        assert(old_ps[j].dice@.len() > 0);
                    }
                    assert forall|x: PlayerId| holder_set(old_ps).contains(x) implies holder_set(self.players@).contains(x) by {
                        let j = choose|j: int| 0 <= j < old_ps.len() && old_ps[j].id == x && old_ps[j].dice@.len() > 0;
                        assert(self.players@[j].dice@.len() > 0);
                    }
                }
                if exists|j: int| 0 <= j < old_ps.len() && old_ps[j].id == id && old_ps[j].dice@.len() <= 1 {
                    let j = choose|j: int| 0 <= j < old_ps.len() && old_ps[j].id == id && old_ps[j].dice@.len() <= 1;
                    assert(old_ps[j].id < old_ps[i as int].id || old_ps[i as int].id < old_ps[j].id || j == i);
                }
                assert forall|y: PlayerId| #[trigger] self.current_players@.contains(y) implies old_roster.contains(y) by {}
            }
        }
        proof {
            assert forall|x: PlayerId| has_id(self.players@, x) <==> has_id(old_ps, x) by {
                if has_id(self.players@, x) {
                    let j = choose|j: int| 0 <= j < self.players@.len() && self.players@[j].id == x;
                    assert(old_ps[j].id == x);
                }
                if has_id(old_ps, x) {
                    let j = choose|j: int| 0 <= j < old_ps.len() && old_ps[j].id == x;
                    assert(self.players@[j].id == x);
                }
            }
            assert forall|j: int, k: int| 0 <= j < self.players@.len() && 0 <= k < self.players@[j].dice@.len()
                implies (#[trigger] self.players@[j].dice@[k]).valid() by {
                assert(self.players@[j].dice@[k] == old_ps[j].dice@[k]);
            }
            assert forall|k: int| 0 <= k < self.current_players@.len() implies has_id(self.players@, #[trigger] self.current_players@[k]) by {
                let x = self.current_players@[k];
                assert(self.current_players@.contains(x));
                assert(old_roster.contains(x));
                let m = choose|m: int| 0 <= m < old_roster.len() && old_roster[m] == x;
                assert(has_id(old_ps, old_roster[m]));
            }
            assert(sorted_by_id(self.players@));
            assert(forall|x: PlayerId| #[trigger] self.original_player_order@.contains(x) <==> has_id(self.players@, x));
            assert(forall|j: int| 0 <= j < self.players@.len() ==> (#[trigger] self.players@[j]).dice@.len() <= self.starting_dice);
            assert(forall|j: int| 0 <= j < self.players@.len() ==> match (#[trigger] self.players@[j]).last_call {
                None => true,
                Some(c) => c is Increase && c.valid(),
            });
        }
    }

    fn roster_contains(&self, id: PlayerId) -> (r: bool)
        ensures
            r == self.current_players@.contains(id),
    {
        let mut k: usize = 0;
        while k < self.current_players.len()
            invariant
                k <= self.current_players@.len(),
                forall|j: int| 0 <= j < k ==> self.current_players@[j] != id,
            decreases self.current_players@.len() - k,
        {
            if self.current_players[k] == id {
                return true;
            }
            k = k + 1;
        }
        false
    }

    /// The position of `id` in the active roster.
    fn roster_index(&self, id: PlayerId) -> (k: usize)
        requires
            self.current_players@.no_duplicates(),
            self.current_players@.contains(id),
        ensures
            k < self.current_players@.len(),
            self.current_players@[k as int] == id,
            k == self.current_players@.index_of(id),
    {
        let mut k: usize = 0;
        while k < self.current_players.len()
            invariant
                self.current_players@.no_duplicates(),
                k <= self.current_players@.len(),
                forall|j: int| 0 <= j < k ==> self.current_players@[j] != id,
            decreases self.current_players@.len() - k,
        {
            if self.current_players[k] == id {
                proof {
                    let j = self.current_players@.index_of(id);
                    assert(0 <= j < self.current_players@.len() && self.current_players@[j] == id);
                    if j != k {
                        assert(self.current_players@[j] != self.current_players@[k as int]);
                    }
                }
                return k;
            }
            k = k + 1;
        }
        vstd::pervasive::unreached()
    }

    /// The roster position of `who`, kept so that the turn can be placed after
    /// `who` may have left the roster.
    pub fn pick_roller_or_next(&self, who: &PlayerId) -> (r: RollerOrNext)
        requires
            self.wf(),
            self.roster().contains(*who),
        ensures
            r.player_id == *who,
            r.index == self.roster().index_of(*who),
    {
        let index = self.roster_index(*who);
        RollerOrNext { index, player_id: *who }
    }

    /// Passes the turn to the next player of the active roster, cyclically.
    pub fn rotate_player(&mut self)
        requires
            old(self).in_play(),
        ensures
            final(self).in_play(),
            final(self).current() == Some(old(self).roster()[
                (old(self).roster().index_of(old(self).current().unwrap()) + 1) % (old(self).roster().len() as int)]),
            old(self).current() == Some(old(self).roster().last()) ==> final(self).current() == Some(old(self).roster()[0]),
            final(self).players_view() == old(self).players_view(),
            final(self).roster() == old(self).roster(),
            final(self).original_order() == old(self).original_order(),
            final(self).dice_per_player() == old(self).dice_per_player(),
    {
        let player_id = self.current_player.unwrap();
        let index = self.roster_index(player_id);
        let n = self.current_players.len();
        let next_index = if index + 1 < n { index + 1 } else { 0 };
        proof {
            if self.current_player == Some(self.current_players@.last()) {
                assert(self.current_players@[n - 1] == self.current_players@[index as int]);
            }
        }
        proof {
            if index + 1 < n {
                assert((index + 1) % (n as int) == index + 1) by (nonlinear_arith)
                    requires 0 <= index + 1 < n;
            } else {
                assert((index + 1) % (n as int) == 0) by (nonlinear_arith)
                    requires index + 1 == n, n > 0;
            }
        }
        self.current_player = Some(self.current_players[next_index]);
    }

    /// For every active player, from the one who called last to the current
    /// player: its id, how many dice it holds and its last call this round.
    /// The first entry holds the call open for challenge, if any.
    pub fn previous_calls(&self) -> (r: Vec<(PlayerId, usize, Option<DiceCall>)>)
        requires
            self.in_play(),
        ensures
            r@.len() == self.roster().len(),
            forall|j: int| 0 <= j < r@.len() ==> {
                let id = by_recency(self.roster(), self.roster().index_of(self.current().unwrap()), j);
                let p = player_of(self.players_view(), id);
                #[trigger] r@[j] == (id, p.dice@.len() as usize, p.last_call)
            },
    {
        let n = self.current_players.len();
        let k = self.roster_index(self.current_player.unwrap());
        let mut r: Vec<(PlayerId, usize, Option<DiceCall>)> = Vec::new();
        let mut j: usize = 0;
        while j < n
            invariant
                self.in_play(),
                n == self.roster().len(),
                k == self.roster().index_of(self.current().unwrap()),
                k < n,
                j <= n,
                r@.len() == j,
                forall|m: int| 0 <= m < j ==> {
                    let id = by_recency(self.roster(), k as int, m);
                    let p = player_of(self.players_view(), id);
                    #[trigger] r@[m] == (id, p.dice@.len() as usize, p.last_call)
                },
            decreases n - j,
        {
            let back = n - 1 - j;
            let pos = if back <= n - 1 - k { k + back } else { k - (n - back) };
            proof {
                if back <= n - 1 - k {
                    assert((k + back) % (n as int) == k + back) by (nonlinear_arith)
                        requires 0 <= k + back < n;
                } else {
                    assert((k + back) % (n as int) == k + back - n) by (nonlinear_arith)
                        requires n <= k + back < 2 * n;
                }
                assert(pos == (k + n - 1 - j) % (n as int));
            }
            let id = self.current_players[pos];
            proof {
                assert(has_id(self.players@, self.current_players@[pos as int]));
            }
            let i = self.find_player(id);
            proof {
                lemma_player_index(self.players@, i as int);
            }
            r.push((id, self.players[i].dice.len(), self.players[i].last_call));
            j = j + 1;
        }
        r
    }

    /// Every player's id with a copy of its dice, in order of id.
    pub fn player_dices(&self) -> (r: Vec<(PlayerId, Vec<Dice>)>)
        ensures
            r@.len() == self.players_view().len(),
            forall|i: int| 0 <= i < r@.len() ==> (#[trigger] r@[i]).0 == self.players_view()[i].id
                && r@[i].1@ == self.players_view()[i].dice@,
    {
        let mut r: Vec<(PlayerId, Vec<Dice>)> = Vec::new();
        let mut i: usize = 0;
        while i < self.players.len()
            invariant
                i <= self.players@.len(),
                r@.len() == i,
                forall|m: int| 0 <= m < i ==> (#[trigger] r@[m]).0 == self.players@[m].id
                    && r@[m].1@ == self.players@[m].dice@,
            decreases self.players@.len() - i,
        {
            let p = &self.players[i];
            r.push((p.id, copy_dice(&p.dice)));
            i = i + 1;
        }
        r
    }

    /// Starts a new round with the given hands: the hand at position `k` of
    /// `hands` goes to the player at position `k` of the active roster, and
    /// the calls of active players are cleared. Players outside the roster,
    /// the roster and the turn stay.
    pub fn reroll_with(&mut self, hands: &Vec<Vec<Dice>>)
        requires
            old(self).wf(),
            hands@.len() == old(self).roster().len(),
            forall|k: int| 0 <= k < hands@.len() ==> valid_hand((#[trigger] hands@[k])@,
                player_of(old(self).players_view(), old(self).roster()[k]).dice@.len()),
        ensures
            final(self).wf(),
            same_ids(old(self).players_view(), final(self).players_view()),
            forall|i: int| 0 <= i < final(self).players_view().len() ==> {
                let p = old(self).players_view()[i];
                let q = #[trigger] final(self).players_view()[i];
                if old(self).roster().contains(p.id) {
                    q.dice@ == hands@[old(self).roster().index_of(p.id)]@ && q.last_call is None
                } else {
                    q.dice@ == p.dice@ && q.last_call == p.last_call
                }
            },
            final(self).roster() == old(self).roster(),
            final(self).current() == old(self).current(),
            final(self).original_order() == old(self).original_order(),
            final(self).dice_per_player() == old(self).dice_per_player(),
    {
        let ghost old_ps = self.players@;
        let n = self.current_players.len();
        let mut k: usize = 0;
        while k < n
            invariant
                n == self.current_players@.len(),
                k <= n,
                self.wf_players(),
                self.current_players@.no_duplicates(),
                same_ids(old_ps, self.players@),
                self.current_player is Some ==> holder_set(old_ps) == self.current_players@.to_set(),
                self.starting_dice == old(self).starting_dice,
                self.current_players@ == old(self).current_players@,
                self.current_player == old(self).current_player,
                self.original_player_order@ == old(self).original_player_order@,
                sorted_by_id(old_ps),
                hands@.len() == n,
                forall|j: int| 0 <= j < n ==> valid_hand((#[trigger] hands@[j])@,
                    player_of(old_ps, self.current_players@[j]).dice@.len()),
                forall|i: int| 0 <= i < self.players@.len() ==> {
                    let p = old_ps[i];
                    let q = #[trigger] self.players@[i];
                    if self.current_players@.subrange(0, k as int).contains(p.id) {
                        q.dice@ == hands@[self.current_players@.index_of(p.id)]@ && q.last_call is None
                    } else {
                        q.dice@ == p.dice@ && q.last_call == p.last_call
                    }
                },
            decreases n - k,
        {
            let id = self.current_players[k];
            let i = self.find_player(id);
            let dice = copy_dice(&hands[k]);
            let ghost before = self.players@;
            proof {
                lemma_player_index(old_ps, i as int);
                let j = self.current_players@.index_of(id);
                if j != k {
                    assert(self.current_players@[j] != self.current_players@[k as int]);
                }
                assert(valid_hand(hands@[k as int]@, old_ps[i as int].dice@.len()));
            }
            self.players[i].dice = dice;
            self.players[i].last_call = None;
            proof {
                assert forall|m: int| 0 <= m < self.players@.len() && m != i implies self.players@[m] == before[m] by {}
                assert(same_ids(old_ps, self.players@));
                lemma_same_ids(old_ps, self.players@);
                assert forall|m: int| 0 <= m < self.players@.len() implies {
                    let p = old_ps[m];
                    let q = #[trigger] self.players@[m];
                    if self.current_players@.subrange(0, k + 1).contains(p.id) {
                        q.dice@ == hands@[self.current_players@.index_of(p.id)]@ && q.last_call is None
                    } else {
                        q.dice@ == p.dice@ && q.last_call == p.last_call
                    }
                } by {
                    let p = old_ps[m];
                    if m == i {
                        assert(self.current_players@.subrange(0, k + 1)[k as int] == id);
                    } else {
                        assert(p.id != id);
                        let s1 = self.current_players@.subrange(0, k + 1);
                        let s0 = self.current_players@.subrange(0, k as int);
                        if s1.contains(p.id) {
                            let t = choose|t: int| 0 <= t < s1.len() && s1[t] == p.id;
                            assert(s0[t] == p.id);
                        } else {
                            if s0.contains(p.id) {
                                let t = choose|t: int| 0 <= t < s0.len() && s0[t] == p.id;
                                assert(s1[t] == p.id);
                            }
                        }
                    }
                }
                assert forall|m: int, t: int| 0 <= m < self.players@.len() && 0 <= t < self.players@[m].dice@.len()
                    implies (#[trigger] self.players@[m].dice@[t]).valid() by {
                    if m != i {
                        assert(self.players@[m] == before[m]);
                    }
                }
                assert forall|m: int| 0 <= m < self.players@.len() implies (#[trigger] self.players@[m]).dice@.len() <= self.starting_dice by {
                    if m != i {
                        assert(self.players@[m] == before[m]);
                    }
                }
            }
            k = k + 1;
        }
        proof {
            assert(self.current_players@.subrange(0, n as int) =~= self.current_players@);
            lemma_same_holders(old_ps, self.players@);
        }
    }

    /// Rerolls the dice of every active player and clears their calls. The
    /// hands are drawn one after the other in roster order, each as many dice
    /// as the player holds, and handed to `reroll_with`.
    pub fn start_next_round(&mut self)
        requires
            old(self).wf(),
        ensures
            final(self).wf(),
            same_ids(old(self).players_view(), final(self).players_view()),
            forall|i: int| 0 <= i < final(self).players_view().len() ==> {
                let p = old(self).players_view()[i];
                let q = #[trigger] final(self).players_view()[i];
                if old(self).roster().contains(p.id) {
                    valid_hand(q.dice@, p.dice@.len()) && q.last_call is None
                } else {
                    q.dice@ == p.dice@ && q.last_call == p.last_call
                }
            },
            final(self).roster() == old(self).roster(),
            final(self).current() == old(self).current(),
            final(self).original_order() == old(self).original_order(),
            final(self).dice_per_player() == old(self).dice_per_player(),
    {
        let n = self.current_players.len();
        let mut hands: Vec<Vec<Dice>> = Vec::new();
        let mut k: usize = 0;
        while k < n
            invariant
                k <= n,
                n == self.current_players@.len(),
                self.wf(),
                self.players@ == old(self).players@,
                self.starting_dice == old(self).starting_dice,
                self.current_players@ == old(self).current_players@,
                self.current_player == old(self).current_player,
                self.original_player_order@ == old(self).original_player_order@,
                hands@.len() == k,
                forall|j: int| 0 <= j < k ==> valid_hand((#[trigger] hands@[j])@,
                    player_of(self.players@, self.current_players@[j]).dice@.len()),
            decreases n - k,
        {
            let id = self.current_players[k];
            proof {
                assert(has_id(self.players@, self.current_players@[k as int]));
            }
            let i = self.find_player(id);
            proof {
                lemma_player_index(self.players@, i as int);
            }
            let count = self.players[i].dice.len() as u8;
            hands.push(roll_dice(&mut self.rng, count));
            k = k + 1;
        }
        self.reroll_with(&hands);
        proof {
            assert forall|i: int| 0 <= i < self.players@.len() && old(self).current_players@.contains(old(self).players@[i].id)
                implies valid_hand((#[trigger] self.players@[i]).dice@, old(self).players@[i].dice@.len()) by {
                let id = old(self).players@[i].id;
                let j = old(self).current_players@.index_of(id);
                assert(0 <= j < n && old(self).current_players@[j] == id);
                lemma_player_index(old(self).players@, i);
                assert(valid_hand(hands@[j]@, player_of(old(self).players@, old(self).current_players@[j]).dice@.len()));
            }
        }
    }

    /// Gives player `i`, in order of id, the hand `hands[i]`, and clears
    /// every call.
    pub fn deal_with(&mut self, hands: &Vec<Vec<Dice>>)
        requires
            old(self).wf_players(),
            hands@.len() == old(self).players_view().len(),
            forall|i: int| 0 <= i < hands@.len() ==> valid_hand((#[trigger] hands@[i])@, old(self).dice_per_player() as nat),
        ensures
            final(self).wf_players(),
            same_ids(old(self).players_view(), final(self).players_view()),
            forall|i: int| 0 <= i < final(self).players_view().len() ==> {
                let q = #[trigger] final(self).players_view()[i];
                q.dice@ == hands@[i]@ && q.last_call is None
            },
            final(self).roster() == old(self).roster(),
            final(self).current() == old(self).current(),
            final(self).original_order() == old(self).original_order(),
            final(self).dice_per_player() == old(self).dice_per_player(),
    {
        let ghost old_ps = self.players@;
        let n = self.players.len();
        let mut i: usize = 0;
        while i < n
            invariant
                n == self.players@.len(),
                i <= n,
                self.wf_players(),
                same_ids(old_ps, self.players@),
                self.starting_dice == old(self).starting_dice,
                self.current_players@ == old(self).current_players@,
                self.current_player == old(self).current_player,
                self.original_player_order@ == old(self).original_player_order@,
                hands@.len() == n,
                forall|m: int| 0 <= m < n ==> valid_hand((#[trigger] hands@[m])@, self.starting_dice as nat),
                forall|m: int| 0 <= m < i ==> {
                    let q = #[trigger] self.players@[m];
                    q.dice@ == hands@[m]@ && q.last_call is None
                },
            decreases n - i,
        {
            let dice = copy_dice(&hands[i]);
            let ghost before = self.players@;
            self.players[i].dice = dice;
            self.players[i].last_call = None;
            proof {
                assert forall|m: int| 0 <= m < self.players@.len() && m != i implies self.players@[m] == before[m] by {}
                lemma_same_ids(old_ps, self.players@);
                assert forall|m: int, t: int| 0 <= m < self.players@.len() && 0 <= t < self.players@[m].dice@.len()
                    implies (#[trigger] self.players@[m].dice@[t]).valid() by {
                    if m != i {
                        assert(self.players@[m] == before[m]);
                    } else {
                        assert(valid_hand(hands@[m]@, self.starting_dice as nat));
                    }
                }
            }
            i = i + 1;
        }
    }

    /// Deals every player a full hand: the hands are drawn one after the
    /// other, player by player in order of id, and every call is cleared.
    fn deal_all(&mut self)
        requires
            old(self).wf_players(),
        ensures
            final(self).wf_players(),
            same_ids(old(self).players_view(), final(self).players_view()),
            forall|i: int| 0 <= i < final(self).players_view().len() ==> {
                let q = #[trigger] final(self).players_view()[i];
                valid_hand(q.dice@, final(self).dice_per_player() as nat) && q.last_call is None
            },
            final(self).roster() == old(self).roster(),
            final(self).current() == old(self).current(),
            final(self).original_order() == old(self).original_order(),
            final(self).dice_per_player() == old(self).dice_per_player(),
    {
        let n = self.players.len();
        let mut hands: Vec<Vec<Dice>> = Vec::new();
        let mut i: usize = 0;
        while i < n
            invariant
                i <= n,
                n == self.players@.len(),
                self.wf_players(),
                self.players@ == old(self).players@,
                self.starting_dice == old(self).starting_dice,
                self.current_players@ == old(self).current_players@,
                self.current_player == old(self).current_player,
                self.original_player_order@ == old(self).original_player_order@,
                hands@.len() == i,
                forall|m: int| 0 <= m < i ==> valid_hand((#[trigger] hands@[m])@, self.starting_dice as nat),
            decreases n - i,
        {
            hands.push(roll_dice(&mut self.rng, self.starting_dice));
            i = i + 1;
        }
        self.deal_with(&hands);
    }

    /// Gives every player of the original roster a full hand again, makes the
    /// original roster active in its original order, and draws the player to
    /// start.
    pub fn return_all_dice_for_new_game(&mut self)
        requires
            old(self).wf(),
        ensures
            final(self).in_play(),
            same_ids(old(self).players_view(), final(self).players_view()),
            forall|i: int| 0 <= i < final(self).players_view().len() ==> {
                let q = #[trigger] final(self).players_view()[i];
                valid_hand(q.dice@, final(self).dice_per_player() as nat) && q.last_call is None
            },
            final(self).roster() == old(self).original_order(),
            final(self).original_order() == old(self).original_order(),
            final(self).dice_per_player() == old(self).dice_per_player(),
    {
        self.deal_all();
        self.current_players = copy_ids(&self.original_player_order);
        let chosen = choose_id(&self.current_players, &mut self.rng);
        match chosen {
            Some(p) => {
                self.current_player = Some(p);
            },
            None => {
                proof {
                    assert(self.original_player_order@.len() >= 2);
                }
            },
        }
        proof {
            assert forall|k: int| 0 <= k < self.current_players@.len() implies has_id(self.players@, #[trigger] self.current_players@[k]) by {
                assert(self.original_player_order@.contains(self.current_players@[k]));
            }
            assert forall|i: int| 0 <= i < self.players@.len() implies (#[trigger] self.players@[i]).dice@.len() > 0 by {
                assert(valid_hand(self.players@[i].dice@, self.starting_dice as nat));
            }
            self.lemma_full_hands();
        }
    }

    /// With every player holding dice and the roster made of exactly their ids,
    /// the roster agrees with the holders.
    proof fn lemma_full_hands(&self)
        requires
            self.wf_players(),
            forall|i: int| 0 <= i < self.players@.len() ==> (#[trigger] self.players@[i]).dice@.len() > 0,
            forall|id: PlayerId| #[trigger] self.current_players@.contains(id) <==> has_id(self.players@, id),
        ensures
            holder_set(self.players@) == self.current_players@.to_set(),
    {
        assert forall|x: PlayerId| holder_set(self.players@).contains(x) <==> self.current_players@.to_set().contains(x) by {
            if has_id(self.players@, x) {
                let i = choose|i: int| 0 <= i < self.players@.len() && self.players@[i].id == x;
                assert(self.players@[i].dice@.len() > 0);
            }
        }
        assert(holder_set(self.players@) =~= self.current_players@.to_set());
    }

    /// How many dice over all players show `face`.
    fn count_face(&self, face: u8) -> (r: usize)
        requires
            self.wf_players(),
        ensures
            r == face_count(self.players@, face),
    {
        let ps = &self.players;
        let mut c: usize = 0;
        let mut i: usize = 0;
        while i < ps.len()
            invariant
                self.wf_players(),
                ps@ == self.players@,
                i <= ps@.len(),
                c == face_count(ps@.subrange(0, i as int), face),
            decreases ps@.len() - i,
        {
            let d = &ps[i].dice;
            let mut t: usize = 0;
            let mut e: usize = 0;
            proof {
                assert(ps@.subrange(0, i + 1).drop_last() =~= ps@.subrange(0, i as int));
                assert forall|m: int| 0 <= m < ps@.subrange(0, i + 1).len() implies (#[trigger] ps@.subrange(0, i + 1)[m]).dice@.len() <= self.starting_dice by {
                    assert(ps@.subrange(0, i + 1)[m] == ps@[m]);
                }
                lemma_face_count_bound(ps@.subrange(0, i + 1), face, self.starting_dice as nat);
                assert((i + 1) * self.starting_dice <= ps@.len() * self.starting_dice) by (nonlinear_arith)
                    requires i + 1 <= ps@.len();
            }
            while t < d.len()
                invariant
                    d@ == ps@[i as int].dice@,
                    t <= d@.len(),
                    e == dice_showing(d@.subrange(0, t as int), face),
                    c + dice_showing(d@, face) <= usize::MAX,
                    c == face_count(ps@.subrange(0, i as int), face),
                decreases d@.len() - t,
            {
                proof {
                    assert(d@.subrange(0, t + 1).drop_last() =~= d@.subrange(0, t as int));
                    assert(d@.subrange(0, t + 1).last() == d@[t as int]);
                    lemma_dice_prefix_bound(d@, face, t + 1);
                }
                if d[t].0 == face {
                    e = e + 1;
                }
                t = t + 1;
            }
            proof {
                assert(d@.subrange(0, t as int) =~= d@);
                assert(ps@.subrange(0, i + 1).last() == ps@[i as int]);
            }
            c = c + e;
            i = i + 1;
        }
        proof {
            assert(ps@.subrange(0, i as int) =~= ps@);
        }
        c
    }

    /// The count of every face from 1 to 6 over all players' dice.
    fn tally(&self) -> (r: Vec<(Dice, usize)>)
        requires
            self.wf_players(),
        ensures
            is_tally(r@, self.players_view()),
    {
        let mut r: Vec<(Dice, usize)> = Vec::new();
        let mut f: u8 = 1;
        while f <= 6
            invariant
                self.wf_players(),
                1 <= f <= 7,
                r@.len() == f - 1,
                forall|g: int| 0 <= g < f - 1 ==> (#[trigger] r@[g]).0 == Dice((g + 1) as u8)
                    && r@[g].1 == face_count(self.players@, (g + 1) as u8),
            decreases 7 - f,
        {
            let c = self.count_face(f);
            r.push((Dice(f), c));
            f = f + 1;
        }
        r
    }

    /// How many players hold at least one die.
    fn count_holders(&self) -> (r: usize)
        ensures
            r == holder_count(self.players@),
    {
        let ps = &self.players;
        let mut c: usize = 0;
        let mut i: usize = 0;
        while i < ps.len()
            invariant
                ps@ == self.players@,
                i <= ps@.len(),
                c == holder_count(ps@.subrange(0, i as int)),
                c <= i,
            decreases ps@.len() - i,
        {
            proof {
                assert(ps@.subrange(0, i + 1).drop_last() =~= ps@.subrange(0, i as int));
                assert(ps@.subrange(0, i + 1).last() == ps@[i as int]);
            }
            if ps[i].dice.len() > 0 {
                c = c + 1;
            }
            i = i + 1;
        }
        proof {
            assert(ps@.subrange(0, i as int) =~= ps@);
        }
        c
    }

    /// The phase the game is in: not started; won by the one player left
    /// with dice; or some player's turn.
    pub fn get_state(&self) -> (r: LiarsDiceState)
        requires
            self.wf(),
            self.current() is Some ==> self.in_play(),
        ensures
            self.current() is None <==> r is Start,
            r matches LiarsDiceState::GameComplete(c) ==> self.game_won_by(c.winner_id),
            r matches LiarsDiceState::PlayerTurn(t) ==> self.turn_of(t.player_id),
            self.current() is Some ==> (r is GameComplete <==> holder_count(self.players_view()) == 1),
    {
        match self.current_player {
            None => LiarsDiceState::Start(GameStartState {}),
            Some(player_id) => {
                let c = self.count_holders();
                proof {
                    self.lemma_roster_is_holders();
                }
                if c == 1 {
                    let winner_id = self.current_players[0];
                    proof {
                        assert(self.current_players@.contains(winner_id));
                        assert(holder_set(self.players@).contains(winner_id));
                    }
                    LiarsDiceState::GameComplete(GameCompleteState { winner_id })
                } else {
                    proof {
                        assert(self.current_players@.contains(player_id));
                    }
                    LiarsDiceState::PlayerTurn(PlayerTurnState { player_id })
                }
            },
        }
    }

    /// A game is running and exactly one player, `winner`, holds dice.
    pub open spec fn game_won_by(&self, winner: PlayerId) -> bool {
        &&& self.in_play()
        &&& holder_count(self.players_view()) == 1
        &&& holder_set(self.players_view()).contains(winner)
    }

    /// A game is running, at least two players hold dice, and it is `id`'s turn.
    pub open spec fn turn_of(&self, id: PlayerId) -> bool {
        &&& self.in_play()
        &&& holder_count(self.players_view()) >= 2
        &&& self.current() == Some(id)
    }

    /// The position of the current player in the active roster.
    pub open spec fn turn_index(&self) -> int {
        self.roster().index_of(self.current().unwrap())
    }

    /// The call open for challenge or escalation: the last call of the player
    /// just before the current one.
    pub open spec fn open_call(&self) -> Option<DiceCall> {
        player_of(self.players_view(), by_recency(self.roster(), self.turn_index(), 0)).last_call
    }

    /// The player who made the open call.
    pub open spec fn open_caller(&self) -> PlayerId {
        by_recency(self.roster(), self.turn_index(), 0)
    }

    /// Every call on record is a valid `Increase`.
    pub proof fn lemma_recorded_calls(&self)
        requires
            self.wf(),
        ensures
            forall|i: int| 0 <= i < self.players_view().len() ==> match (#[trigger] self.players_view()[i]).last_call {
                None => true,
                Some(c) => c is Increase && c.valid(),
            },
    {
    }

    /// Every member of the active roster is a player of the game.
    pub proof fn lemma_roster_members(&self, id: PlayerId)
        requires
            self.wf(),
            self.roster().contains(id),
        ensures
            has_id(self.players_view(), id),
            0 <= player_index(self.players_view(), id) < self.players_view().len(),
            self.players_view()[player_index(self.players_view(), id)].id == id,
    {
        let k = choose|k: int| 0 <= k < self.current_players@.len() && self.current_players@[k] == id;
        assert(has_id(self.players@, self.current_players@[k]));
    }

    /// Deals the first game: every player gets a full hand, drawn player by
    /// player in order of id; the roster becomes all players in order of id;
    /// the starting player is drawn from it.
    pub(crate) fn initialise(&mut self)
        requires
            old(self).wf(),
            old(self).current() is None,
        ensures
            final(self).in_play(),
            same_ids(old(self).players_view(), final(self).players_view()),
            forall|i: int| 0 <= i < final(self).players_view().len() ==> {
                let q = #[trigger] final(self).players_view()[i];
                valid_hand(q.dice@, final(self).dice_per_player() as nat) && q.last_call is None
            },
            final(self).roster().len() == final(self).players_view().len(),
            forall|k: int| 0 <= k < final(self).roster().len()
                ==> #[trigger] final(self).roster()[k] == final(self).players_view()[k].id,
            total_dice(final(self).players_view()) == final(self).players_view().len() * final(self).dice_per_player(),
            final(self).original_order() == old(self).original_order(),
            final(self).dice_per_player() == old(self).dice_per_player(),
    {
        self.deal_all();
        let mut roster: Vec<PlayerId> = Vec::new();
        let mut i: usize = 0;
        while i < self.players.len()
            invariant
                sorted_by_id(self.players@),
                i <= self.players@.len(),
                roster@.len() == i,
                forall|k: int| 0 <= k < i ==> #[trigger] roster@[k] == self.players@[k].id,
            decreases self.players@.len() - i,
        {
            roster.push(self.players[i].id);
            i = i + 1;
        }
        self.current_players = roster;
        proof {
            assert forall|a: int, b: int| 0 <= a < self.current_players@.len() && 0 <= b < self.current_players@.len() && a != b
                implies self.current_players@[a] != self.current_players@[b] by {
                if a < b {
                    assert(self.players@[a].id < self.players@[b].id);
                } else {
                    assert(self.players@[b].id < self.players@[a].id);
                }
            }
            assert forall|id: PlayerId| #[trigger] self.current_players@.contains(id) <==> has_id(self.players@, id) by {
                if has_id(self.players@, id) {
                    let m = choose|m: int| 0 <= m < self.players@.len() && self.players@[m].id == id;
                    assert(self.current_players@[m] == id);
                }
            }
            assert forall|k: int| 0 <= k < self.current_players@.len() implies has_id(self.players@, #[trigger] self.current_players@[k]) by {
                assert(self.players@[k].id == self.current_players@[k]);
            }
            assert forall|m: int| 0 <= m < self.players@.len() implies (#[trigger] self.players@[m]).dice@.len() > 0 by {
                assert(valid_hand(self.players@[m].dice@, self.starting_dice as nat));
            }
            assert forall|m: int| 0 <= m < self.players@.len() implies (#[trigger] self.players@[m]).dice@.len() == self.starting_dice by {
                assert(valid_hand(self.players@[m].dice@, self.starting_dice as nat));
            }
            lemma_total_full(self.players@, self.starting_dice as nat);
        }
        let chosen = choose_id(&self.current_players, &mut self.rng);
        match chosen {
            Some(p) => {
                self.current_player = Some(p);
            },
            None => {},
        }
        proof {
            self.lemma_full_hands();
        }
    }

    /// Records an `Increase` as the current player's last call.
    fn record_call(&mut self, call: DiceCall)
        requires
            old(self).in_play(),
            call is Increase,
            call.valid(),
        ensures
            final(self).in_play(),
            same_ids(old(self).players_view(), final(self).players_view()),
            forall|i: int| 0 <= i < final(self).players_view().len() ==> {
                let p = old(self).players_view()[i];
                let q = #[trigger] final(self).players_view()[i];
                q.dice@ == p.dice@ && q.last_call == if p.id == old(self).current().unwrap() { Some(call) } else { p.last_call }
            },
            final(self).roster() == old(self).roster(),
            final(self).current() == old(self).current(),
            final(self).original_order() == old(self).original_order(),
            final(self).dice_per_player() == old(self).dice_per_player(),
    {
        let ghost old_ps = self.players@;
        let cur = self.current_player.unwrap();
        proof {
            self.lemma_roster_members(cur);
        }
        let i = self.find_player(cur);
        self.players[i].last_call = Some(call);
        proof {
            assert forall|m: int| 0 <= m < self.players@.len() && m != i implies self.players@[m] == old_ps[m] by {}
            assert forall|m: int| 0 <= m < self.players@.len() && m != i implies self.players@[m].id != cur by {
                if m < i {
                    assert(old_ps[m].id < old_ps[i as int].id);
                } else {
                    assert(old_ps[i as int].id < old_ps[m].id);
                }
            }
            lemma_same_ids(old_ps, self.players@);
            lemma_same_holders(old_ps, self.players@);
            assert forall|m: int, t: int| 0 <= m < self.players@.len() && 0 <= t < self.players@[m].dice@.len()
                implies (#[trigger] self.players@[m].dice@[t]).valid() by {
                assert(self.players@[m].dice@ == old_ps[m].dice@);
            }
            assert forall|m: int| 0 <= m < self.players@.len() implies (#[trigger] self.players@[m]).dice@.len() <= self.starting_dice by {
                assert(self.players@[m].dice@ == old_ps[m].dice@);
            }
        }
    }

    /// Commits an `Increase`: it becomes the current player's last call and
    /// the turn passes on.
    pub(crate) fn commit_increase(&mut self, call: DiceCall)
        requires
            old(self).in_play(),
            call is Increase,
            call.valid(),
        ensures
            final(self).in_play(),
            same_ids(old(self).players_view(), final(self).players_view()),
            forall|i: int| 0 <= i < final(self).players_view().len() ==> {
                let p = old(self).players_view()[i];
                let q = #[trigger] final(self).players_view()[i];
                q.dice@ == p.dice@ && q.last_call == if p.id == old(self).current().unwrap() { Some(call) } else { p.last_call }
            },
            final(self).roster() == old(self).roster(),
            final(self).current() == Some(old(self).roster()[(old(self).turn_index() + 1) % (old(self).roster().len() as int)]),
            final(self).original_order() == old(self).original_order(),
            final(self).dice_per_player() == old(self).dice_per_player(),
    {
        self.record_call(call);
        self.rotate_player();
    }

    /// One player, `loser`, gives up a die; the turn is placed from the
    /// current player's position before the loss; a new round starts.
    pub(crate) fn settle_one_loser(&mut self, loser: PlayerId)
        requires
            old(self).in_play(),
            holder_count(old(self).players_view()) >= 2,
            old(self).roster().contains(loser),
        ensures
            final(self).in_play(),
            dice_lost(old(self).players_view(), final(self).players_view(), |x: PlayerId| x == loser),
            final(self).roster() == if player_of(old(self).players_view(), loser).dice@.len() == 1 {
                old(self).roster().filter(|x: PlayerId| x != loser)
            } else {
                old(self).roster()
            },
            final(self).current() == Some(if final(self).roster().contains(old(self).current().unwrap()) {
                old(self).current().unwrap()
            } else {
                final(self).roster()[old(self).turn_index() % (final(self).roster().len() as int)]
            }),
            forall|i: int| 0 <= i < final(self).players_view().len() && final(self).roster().contains(final(self).players_view()[i].id)
                ==> (#[trigger] final(self).players_view()[i]).last_call is None,
            final(self).original_order() == old(self).original_order(),
            final(self).dice_per_player() == old(self).dice_per_player(),
    {
        let ghost old_ps = self.players@;
        let ghost old_roster = self.current_players@;
        let cur = self.current_player.unwrap();
        proof {
            self.lemma_roster_is_holders();
            self.lemma_roster_members(loser);
            lemma_player_index(old_ps, player_index(old_ps, loser));
        }
        let next = self.pick_roller_or_next(&cur);
        self.remove_dice_from_player(&loser);
        let ghost mid_ps = self.players@;
        proof {
            let li = player_index(old_ps, loser);
            assert(holder_set(old_ps).contains(loser));
            let w = choose|w: int| 0 <= w < old_ps.len() && old_ps[w].id == loser && old_ps[w].dice@.len() > 0;
            lemma_player_index(old_ps, w);
            if player_of(old_ps, loser).dice@.len() == 1 {
                assert(exists|j: int| 0 <= j < old_ps.len() && old_ps[j].id == loser && old_ps[j].dice@.len() <= 1);
            } else {
                if exists|j: int| 0 <= j < old_ps.len() && old_ps[j].id == loser && old_ps[j].dice@.len() <= 1 {
                    let j = choose|j: int| 0 <= j < old_ps.len() && old_ps[j].id == loser && old_ps[j].dice@.len() <= 1;
                    lemma_player_index(old_ps, j);
                }
            }
            // Another player than the loser stays active.
            let other = if old_roster[0] == loser { old_roster[1] } else { old_roster[0] };
            assert(old_roster.len() >= 2);
            assert(old_roster.contains(other) && other != loser) by {
                if old_roster[0] == loser {
                    assert(old_roster[1] != old_roster[0]);
                    assert(old_roster[1] == other);
                } else {
                    assert(old_roster[0] == other);
                }
            }
            let pred = |x: PlayerId| x != loser;
            let oi = choose|oi: int| 0 <= oi < old_roster.len() && old_roster[oi] == other;
            old_roster.lemma_filter_contains(pred, oi);
            assert(self.current_players@.contains(other));
        }
        next.set_correct_player(self);
        let ghost set_roster = self.current_players@;
        let ghost set_current = self.current_player;
        self.start_next_round();
        proof {
            assert forall|i: int| 0 <= i < self.players@.len() implies (#[trigger] self.players@[i]).dice@.len()
                == old_ps[i].dice@.len() - if old_ps[i].id == loser { 1int } else { 0int } by {
                let w = choose|w: int| 0 <= w < old_ps.len() && old_ps[w].id == loser && old_ps[w].dice@.len() > 0;
                if old_ps[i].id == loser {
                    lemma_player_index(old_ps, i);
                    lemma_player_index(old_ps, w);
                }
            }
            assert forall|i: int| 0 <= i < self.players@.len() && self.current_players@.contains(self.players@[i].id)
                implies (#[trigger] self.players@[i]).last_call is None by {
                assert(mid_ps[i].id == self.players@[i].id);
            }
            assert(same_ids(old_ps, self.players@));
        }
    }

    /// Every active player but the current one gives up a die, in roster
    /// order; the current player keeps the turn; a new round starts.
    pub(crate) fn settle_all_but_current(&mut self)
        requires
            old(self).in_play(),
        ensures
            final(self).in_play(),
            dice_lost(old(self).players_view(), final(self).players_view(),
                |x: PlayerId| old(self).roster().contains(x) && x != old(self).current().unwrap()),
            final(self).current() == old(self).current(),
            forall|i: int| 0 <= i < final(self).players_view().len() && final(self).roster().contains(final(self).players_view()[i].id)
                ==> (#[trigger] final(self).players_view()[i]).last_call is None,
            final(self).original_order() == old(self).original_order(),
            final(self).dice_per_player() == old(self).dice_per_player(),
    {
        let ghost old_ps = self.players@;
        let ghost old_roster = self.current_players@;
        let cur = self.current_player.unwrap();
        proof {
            self.lemma_roster_is_holders();
        }
        let mut others: Vec<PlayerId> = Vec::new();
        let mut k: usize = 0;
        while k < self.current_players.len()
            invariant
                self.current_players@ == old_roster,
                old_roster.no_duplicates(),
                k <= old_roster.len(),
                others@.no_duplicates(),
                forall|x: PlayerId| #[trigger] others@.contains(x) <==> (old_roster.subrange(0, k as int).contains(x) && x != cur),
            decreases old_roster.len() - k,
        {
            let x = self.current_players[k];
            proof {
                let s0 = old_roster.subrange(0, k as int);
                let s1 = old_roster.subrange(0, k + 1);
                assert(s1[k as int] == x);
                assert forall|y: PlayerId| s1.contains(y) <==> (s0.contains(y) || y == x) by {
                    if s1.contains(y) {
                        let t = choose|t: int| 0 <= t < s1.len() && s1[t] == y;
                        if t < k {
                            assert(s0[t] == y);
                        }
                    }
                    if s0.contains(y) {
                        let t = choose|t: int| 0 <= t < s0.len() && s0[t] == y;
                        assert(s1[t] == y);
                    }
                }
                if s0.contains(x) {
                    let t = choose|t: int| 0 <= t < s0.len() && s0[t] == x;
                    assert(old_roster[t] == old_roster[k as int]);
                }
            }
            if x != cur {
                let ghost prev = others@;
                proof {
                    assert(!prev.contains(x));
                }
                others.push(x);
                proof {
                    assert forall|y: PlayerId| #[trigger] others@.contains(y) <==> (prev.contains(y) || y == x) by {
                        if others@.contains(y) {
                            let t = choose|t: int| 0 <= t < others@.len() && others@[t] == y;
                            if t < prev.len() {
                                assert(prev[t] == y);
                            }
                        }
                        if prev.contains(y) {
                            let t = choose|t: int| 0 <= t < prev.len() && prev[t] == y;
                            assert(others@[t] == y);
                        }
                        if y == x {
                            assert(others@[prev.len() as int] == y);
                        }
                    }
                }
            }
            k = k + 1;
        }
        proof {
            assert(old_roster.subrange(0, k as int) =~= old_roster);
        }
        let n = others.len();
        let mut j: usize = 0;
        while j < n
            invariant
                n == others@.len(),
                j <= n,
                others@.no_duplicates(),
                forall|x: PlayerId| #[trigger] others@.contains(x) <==> (old_roster.contains(x) && x != cur),
                self.in_play(),
                self.current() == Some(cur),
                self.original_player_order@ == old(self).original_player_order@,
                self.starting_dice == old(self).starting_dice,
                same_ids(old_ps, self.players@),
                sorted_by_id(old_ps),
                holder_set(old_ps) == old_roster.to_set(),
                old_roster.contains(cur),
                forall|i: int| 0 <= i < self.players@.len() ==> (#[trigger] self.players@[i]).dice@.len()
                    == old_ps[i].dice@.len() - if others@.subrange(0, j as int).contains(old_ps[i].id) { 1int } else { 0int },
            decreases n - j,
        {
            let x = others[j];
            proof {
                assert(others@.contains(x));
                lemma_same_ids(old_ps, self.players@);
                assert(old_roster.to_set().contains(x));
                let w = choose|w: int| 0 <= w < old_ps.len() && old_ps[w].id == x && old_ps[w].dice@.len() > 0;
                assert(self.players@[w].id == x);
                assert(!others@.subrange(0, j as int).contains(x)) by {
                    if others@.subrange(0, j as int).contains(x) {
                        let t = choose|t: int| 0 <= t < j && others@.subrange(0, j as int)[t] == x;
                        assert(others@[t] == others@[j as int]);
                    }
                }
            }
            let ghost before = self.players@;
            self.remove_dice_from_player(&x);
            proof {
                let s0 = others@.subrange(0, j as int);
                let s1 = others@.subrange(0, j + 1);
                assert forall|y: PlayerId| s1.contains(y) <==> (s0.contains(y) || y == x) by {
                    if s1.contains(y) {
                        let t = choose|t: int| 0 <= t < s1.len() && s1[t] == y;
                        if t < j {
                            assert(s0[t] == y);
                        }
                    }
                    if s0.contains(y) {
                        let t = choose|t: int| 0 <= t < s0.len() && s0[t] == y;
                        assert(s1[t] == y);
                    }
                    if y == x {
                        assert(s1[j as int] == y);
                    }
                }
                assert forall|i: int| 0 <= i < self.players@.len() implies (#[trigger] self.players@[i]).dice@.len()
                    == old_ps[i].dice@.len() - if s1.contains(old_ps[i].id) { 1int } else { 0int } by {
                    if old_ps[i].id == x {
                        let w = choose|w: int| 0 <= w < old_ps.len() && old_ps[w].id == x && old_ps[w].dice@.len() > 0;
                        if w != i {
                            if w < i {
                                assert(old_ps[w].id < old_ps[i].id);
                            } else {
                                assert(old_ps[i].id < old_ps[w].id);
                            }
                        }
                        assert(before[i].dice@.len() == old_ps[i].dice@.len());
                    }
                }
                // The current player keeps its dice, so it stays active.
                assert(old_roster.to_set().contains(cur));
                let c = choose|c: int| 0 <= c < old_ps.len() && old_ps[c].id == cur && old_ps[c].dice@.len() > 0;
                assert(!s1.contains(cur)) by {
                    if s1.contains(cur) {
                        let t = choose|t: int| 0 <= t < s1.len() && s1[t] == cur;
                        assert(others@[t] == cur);
                        assert(others@.contains(cur));
                    }
                }
                assert(self.players@[c].dice@.len() > 0);
                assert(holder_set(self.players@).contains(cur));
                self.lemma_roster_is_holders();
            }
            j = j + 1;
        }
        proof {
            assert(others@.subrange(0, n as int) =~= others@);
        }
        let ghost mid_ps = self.players@;
        self.start_next_round();
        proof {
            assert forall|i: int| 0 <= i < self.players@.len() && self.current_players@.contains(self.players@[i].id)
                implies (#[trigger] self.players@[i]).last_call is None by {
                assert(mid_ps[i].id == self.players@[i].id);
            }
        }
    }

    /// The snapshot of every player's dice and the tally of faces that a
    /// challenge reports.
    pub(crate) fn challenge_inputs(&self) -> (r: (Vec<(PlayerId, Vec<Dice>)>, Vec<(Dice, usize)>))
        requires
            self.wf(),
        ensures
            is_snapshot(r.0@, self.players_view()),
            is_tally(r.1@, self.players_view()),
    {
        (self.player_dices(), self.tally())
    }

    /// The face count of `value` read from a tally.
    pub(crate) fn tally_get(tally: &Vec<(Dice, usize)>, value: Dice) -> (r: usize)
        requires
            tally@.len() == 6,
            value.valid(),
        ensures
            r == tally_of(tally@, value.0),
    {
        tally[(value.0 - 1) as usize].1
    }

    /// The active roster, in turn order.
    pub fn current_players(&self) -> (r: &Vec<PlayerId>)
        ensures
            r@ == self.roster(),
    {
        &self.current_players
    }

    /// The player whose turn it is, if a game is running.
    pub fn current_player(&self) -> (r: Option<PlayerId>)
        ensures
            r == self.current(),
    {
        self.current_player
    }

    /// A player left without dice is out of the active roster, and so has no
    /// entry among the previous calls.
    pub proof fn lemma_no_dice_not_active(&self, id: PlayerId)
        requires
            self.in_play(),
            has_id(self.players_view(), id),
            player_of(self.players_view(), id).dice@.len() == 0,
        ensures
            !self.roster().contains(id),
            forall|j: int| 0 <= j < self.roster().len() ==> by_recency(self.roster(), self.turn_index(), j) != id,
    {
        self.lemma_roster_is_holders();
        if self.roster().contains(id) {
            assert(holder_set(self.players@).contains(id));
            let i = choose|i: int| 0 <= i < self.players@.len() && self.players@[i].id == id && self.players@[i].dice@.len() > 0;
            lemma_player_index(self.players@, i);
        }
        assert forall|j: int| 0 <= j < self.roster().len() implies by_recency(self.roster(), self.turn_index(), j) != id by {
            let n = self.roster().len() as int;
            let k = self.turn_index();
            assert(0 <= (k + n - 1 - j) % n < n) by (nonlinear_arith)
                requires n > 0;
            assert(self.roster().contains(self.roster()[(k + n - 1 - j) % n]));
        }
    }
}

} // verus!
