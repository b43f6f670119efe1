//! Facts about a list of player records: ids, holders of dice, counts.
use crate::dice::Dice;
use crate::game::{LiarsDicePlayer, PlayerId};
use vstd::prelude::*;

verus! {

/// Players sorted by strictly increasing id.
pub open spec fn sorted_by_id(ps: Seq<LiarsDicePlayer>) -> bool {
    forall|i: int, j: int| 0 <= i < j < ps.len() ==> ps[i].id < ps[j].id
}

pub open spec fn has_id(ps: Seq<LiarsDicePlayer>, id: PlayerId) -> bool {
    exists|i: int| 0 <= i < ps.len() && ps[i].id == id
}

/// The ids of the players who still hold at least one die.
pub open spec fn holder_set(ps: Seq<LiarsDicePlayer>) -> Set<PlayerId> {
    Set::new(|id: PlayerId| exists|i: int| 0 <= i < ps.len() && ps[i].id == id && ps[i].dice@.len() > 0)
}

/// How many players still hold at least one die.
pub open spec fn holder_count(ps: Seq<LiarsDicePlayer>) -> nat
    decreases ps.len(),
{
    if ps.len() == 0 {
        0
    } else {
        holder_count(ps.drop_last()) + if ps.last().dice@.len() > 0 { 1nat } else { 0nat }
    }
}

/// How many dice all players hold together.
pub open spec fn total_dice(ps: Seq<LiarsDicePlayer>) -> nat
    decreases ps.len(),
{
    if ps.len() == 0 {
        0
    } else {
        total_dice(ps.drop_last()) + ps.last().dice@.len()
    }
}

/// How many of the dice `d` show `face`.
pub open spec fn dice_showing(d: Seq<Dice>, face: u8) -> nat
    decreases d.len(),
{
    if d.len() == 0 {
        0
    } else {
        dice_showing(d.drop_last(), face) + if d.last().0 == face { 1nat } else { 0nat }
    }
}

/// How many dice, over all players, show `face`.
pub open spec fn face_count(ps: Seq<LiarsDicePlayer>, face: u8) -> nat
    decreases ps.len(),
{
    if ps.len() == 0 {
        0
    } else {
        face_count(ps.drop_last(), face) + dice_showing(ps.last().dice@, face)
    }
}

/// Whether construction with these arguments succeeds.
pub open spec fn setup_ok(starting_dice: u8, ids: Seq<PlayerId>) -> bool {
    starting_dice > 0 && ids.len() >= 2 && ids.no_duplicates()
}

/// A hand of `n` dice, each showing a face from 1 to 6.
pub open spec fn valid_hand(d: Seq<Dice>, n: nat) -> bool {
    d.len() == n && forall|k: int| 0 <= k < d.len() ==> (#[trigger] d[k]).valid()
}


/// The dice left after one is taken away; none are taken from an empty hand.
pub open spec fn minus_one(d: Seq<Dice>) -> Seq<Dice> {
    if d.len() == 0 {
        d
    } else {
        d.drop_last()
    }
}

/// Among players with distinct ids, the number of players holding dice is the
/// size of the set of their ids.
pub(crate) proof fn lemma_holder_count(ps: Seq<LiarsDicePlayer>)
    requires
        sorted_by_id(ps),
    ensures
        holder_set(ps).finite(),
        holder_set(ps).len() == holder_count(ps),
    decreases ps.len(),
{
    if ps.len() == 0 {
        assert(holder_set(ps) =~= Set::empty());
    } else {
        let rest = ps.drop_last();
        lemma_holder_count(rest);
        let l = ps.last();
        if l.dice@.len() > 0 {
            assert(holder_set(ps) =~= holder_set(rest).insert(l.id)) by {
                assert(ps[ps.len() - 1] == l);
                assert forall|x: PlayerId| holder_set(ps).contains(x) implies holder_set(rest).insert(l.id).contains(x) by {
                    let i = choose|i: int| 0 <= i < ps.len() && ps[i].id == x && ps[i].dice@.len() > 0;
                    if i < ps.len() - 1 {
                        assert(rest[i] == ps[i]);
                    }
                }
                assert forall|x: PlayerId| holder_set(rest).contains(x) implies holder_set(ps).contains(x) by {
                    let i = choose|i: int| 0 <= i < rest.len() && rest[i].id == x && rest[i].dice@.len() > 0;
                    assert(ps[i] == rest[i]);
                }
            }
            if holder_set(rest).contains(l.id) {
                let i = choose|i: int| 0 <= i < rest.len() && rest[i].id == l.id && rest[i].dice@.len() > 0;
                assert(ps[i].id < ps[ps.len() - 1].id);
            }
        } else {
            assert(holder_set(ps) =~= holder_set(rest)) by {
                assert forall|x: PlayerId| holder_set(ps).contains(x) implies holder_set(rest).contains(x) by {
                    let i = choose|i: int| 0 <= i < ps.len() && ps[i].id == x && ps[i].dice@.len() > 0;
                    assert(i < ps.len() - 1);
                    assert(rest[i] == ps[i]);
                }
                assert forall|x: PlayerId| holder_set(rest).contains(x) implies holder_set(ps).contains(x) by {
                    let i = choose|i: int| 0 <= i < rest.len() && rest[i].id == x && rest[i].dice@.len() > 0;
                    assert(ps[i] == rest[i]);
                }
            }
        }
    }
}


/// The position of the player with this id.
pub open spec fn player_index(ps: Seq<LiarsDicePlayer>, id: PlayerId) -> int {
    choose|i: int| 0 <= i < ps.len() && ps[i].id == id
}

/// The record of the player with this id.
pub open spec fn player_of(ps: Seq<LiarsDicePlayer>, id: PlayerId) -> LiarsDicePlayer {
    ps[player_index(ps, id)]
}

/// The player `j` places back from the newest call, in a roster of `n`
/// players whose turn is at position `k`: place `n - 1` is the player at `k`,
/// place 0 the one just before it.
pub open spec fn by_recency(roster: Seq<PlayerId>, k: int, j: int) -> PlayerId {
    roster[(k + roster.len() - 1 - j) % (roster.len() as int)]
}

pub(crate) proof fn lemma_player_index(ps: Seq<LiarsDicePlayer>, i: int)
    requires
        sorted_by_id(ps),
        0 <= i < ps.len(),
    ensures
        player_index(ps, ps[i].id) == i,
{
    let j = player_index(ps, ps[i].id);
    assert(0 <= j < ps.len() && ps[j].id == ps[i].id);
    if j < i {
        assert(ps[j].id < ps[i].id);
    } else if j > i {
        assert(ps[i].id < ps[j].id);
    }
}

/// Two player lists with the same ids, in which the same players hold dice,
/// have the same holders.
pub(crate) proof fn lemma_same_holders(a: Seq<LiarsDicePlayer>, b: Seq<LiarsDicePlayer>)
    requires
        a.len() == b.len(),
        forall|i: int| 0 <= i < a.len() ==> (#[trigger] a[i]).id == b[i].id && (a[i].dice@.len() > 0) == (b[i].dice@.len() > 0),
    ensures
        holder_set(a) == holder_set(b),
{
    assert forall|x: PlayerId| holder_set(a).contains(x) implies holder_set(b).contains(x) by {
        let i = choose|i: int| 0 <= i < a.len() && a[i].id == x && a[i].dice@.len() > 0;
        assert(b[i].id == x);
    }
    assert forall|x: PlayerId| holder_set(b).contains(x) implies holder_set(a).contains(x) by {
        let i = choose|i: int| 0 <= i < b.len() && b[i].id == x && b[i].dice@.len() > 0;
        assert(a[i].id == x);
    }
    assert(holder_set(a) =~= holder_set(b));
}

/// Two player lists with the same ids in the same places.
pub open spec fn same_ids(a: Seq<LiarsDicePlayer>, b: Seq<LiarsDicePlayer>) -> bool {
    a.len() == b.len() && forall|i: int| 0 <= i < a.len() ==> (#[trigger] a[i]).id == b[i].id
}

pub(crate) proof fn lemma_same_ids(a: Seq<LiarsDicePlayer>, b: Seq<LiarsDicePlayer>)
    requires
        same_ids(a, b),
    ensures
        sorted_by_id(a) ==> sorted_by_id(b),
        forall|x: PlayerId| has_id(a, x) <==> has_id(b, x),
{
    assert forall|x: PlayerId| has_id(a, x) implies has_id(b, x) by {
        let i = choose|i: int| 0 <= i < a.len() && a[i].id == x;
        assert(b[i].id == x);
    }
    assert forall|x: PlayerId| has_id(b, x) implies has_id(a, x) by {
        let i = choose|i: int| 0 <= i < b.len() && b[i].id == x;
        assert(a[i].id == x);
    }
    if sorted_by_id(a) {
        assert forall|i: int, j: int| 0 <= i < j < b.len() implies b[i].id < b[j].id by {
            assert(a[i].id < a[j].id);
        }
    }
}

pub(crate) proof fn lemma_dice_showing_bound(d: Seq<Dice>, face: u8)
    ensures
        dice_showing(d, face) <= d.len(),
    decreases d.len(),
{
    if d.len() > 0 {
        lemma_dice_showing_bound(d.drop_last(), face);
    }
}

pub(crate) proof fn lemma_dice_prefix_bound(d: Seq<Dice>, face: u8, t: int)
    requires
        0 <= t <= d.len(),
    ensures
        dice_showing(d.subrange(0, t), face) <= dice_showing(d, face),
    decreases d.len(),
{
    if t < d.len() {
        assert(d.drop_last().subrange(0, t) =~= d.subrange(0, t));
        lemma_dice_prefix_bound(d.drop_last(), face, t);
    } else {
        assert(d.subrange(0, t) =~= d);
    }
}

pub(crate) proof fn lemma_face_count_bound(ps: Seq<LiarsDicePlayer>, face: u8, s: nat)
    requires
        forall|i: int| 0 <= i < ps.len() ==> (#[trigger] ps[i]).dice@.len() <= s,
    ensures
        face_count(ps, face) <= ps.len() * s,
    decreases ps.len(),
{
    if ps.len() > 0 {
        let rest = ps.drop_last();
        assert forall|i: int| 0 <= i < rest.len() implies (#[trigger] rest[i]).dice@.len() <= s by {
            assert(rest[i] == ps[i]);
        }
        lemma_face_count_bound(rest, face, s);
        lemma_dice_showing_bound(ps.last().dice@, face);
        assert(ps[ps.len() - 1] == ps.last());
        assert((ps.len() - 1) * s + s == ps.len() * s) by (nonlinear_arith);
    }
}

/// The count of one face over the dice of a set of players, read off a
/// tally: the entry for `face`.
pub open spec fn tally_of(tally: Seq<(Dice, usize)>, face: u8) -> int {
    tally[face - 1].1 as int
}

/// A tally of every face from 1 to 6 over the dice of `ps`, in order of face.
pub open spec fn is_tally(tally: Seq<(Dice, usize)>, ps: Seq<LiarsDicePlayer>) -> bool {
    &&& tally.len() == 6
    &&& forall|f: int| 0 <= f < 6 ==> (#[trigger] tally[f]).0 == Dice((f + 1) as u8)
        && tally[f].1 == face_count(ps, (f + 1) as u8)
}

/// A snapshot of every player's id and dice, in order of id.
pub open spec fn is_snapshot(snap: Seq<(PlayerId, Vec<Dice>)>, ps: Seq<LiarsDicePlayer>) -> bool {
    &&& snap.len() == ps.len()
    &&& forall|i: int| 0 <= i < snap.len() ==> (#[trigger] snap[i]).0 == ps[i].id && snap[i].1@ == ps[i].dice@
}

/// `after` holds the players of `before`, each with one die less where
/// `loses` says so, and as many as before elsewhere.
pub open spec fn dice_lost(before: Seq<LiarsDicePlayer>, after: Seq<LiarsDicePlayer>, loses: spec_fn(PlayerId) -> bool) -> bool {
    &&& same_ids(before, after)
    &&& forall|i: int| 0 <= i < after.len() ==> (#[trigger] after[i]).dice@.len()
        == before[i].dice@.len() - if loses(before[i].id) { 1int } else { 0int }
}

pub(crate) proof fn lemma_total_full(ps: Seq<LiarsDicePlayer>, s: nat)
    requires
        forall|i: int| 0 <= i < ps.len() ==> (#[trigger] ps[i]).dice@.len() == s,
    ensures
        total_dice(ps) == ps.len() * s,
    decreases ps.len(),
{
    if ps.len() > 0 {
        let rest = ps.drop_last();
        assert forall|i: int| 0 <= i < rest.len() implies (#[trigger] rest[i]).dice@.len() == s by {
            assert(rest[i] == ps[i]);
        }
        lemma_total_full(rest, s);
        assert(ps[ps.len() - 1] == ps.last());
        assert((ps.len() - 1) * s + s == ps.len() * s) by (nonlinear_arith);
    }
}

/// The sum of the six counts of a tally.
pub open spec fn tally_total(tally: Seq<(Dice, usize)>) -> int {
    tally[0].1 + tally[1].1 + tally[2].1 + tally[3].1 + tally[4].1 + tally[5].1
}

/// The number of dice of `d` showing each face, summed over the six faces.
pub open spec fn faces_sum(d: Seq<Dice>) -> nat {
    dice_showing(d, 1) + dice_showing(d, 2) + dice_showing(d, 3) + dice_showing(d, 4)
        + dice_showing(d, 5) + dice_showing(d, 6)
}

pub(crate) proof fn lemma_hand_faces(d: Seq<Dice>)
    requires
        forall|k: int| 0 <= k < d.len() ==> (#[trigger] d[k]).valid(),
    ensures
        faces_sum(d) == d.len(),
    decreases d.len(),
{
    if d.len() > 0 {
        let rest = d.drop_last();
        assert forall|k: int| 0 <= k < rest.len() implies (#[trigger] rest[k]).valid() by {
            assert(rest[k] == d[k]);
        }
        lemma_hand_faces(rest);
        assert(d[d.len() - 1] == d.last());
    }
}

/// When every die shows a face from 1 to 6, the six face counts add up to
/// the number of dice.
pub proof fn lemma_faces_cover_dice(ps: Seq<LiarsDicePlayer>)
    requires
        forall|i: int, k: int| 0 <= i < ps.len() && 0 <= k < ps[i].dice@.len() ==> (#[trigger] ps[i].dice@[k]).valid(),
    ensures
        face_count(ps, 1) + face_count(ps, 2) + face_count(ps, 3) + face_count(ps, 4) + face_count(ps, 5)
            + face_count(ps, 6) == total_dice(ps),
    decreases ps.len(),
{
    if ps.len() > 0 {
        let rest = ps.drop_last();
        assert forall|i: int, k: int| 0 <= i < rest.len() && 0 <= k < rest[i].dice@.len() implies (#[trigger] rest[i].dice@[k]).valid() by {
            assert(rest[i] == ps[i]);
        }
        lemma_faces_cover_dice(rest);
        let l = ps.last();
        assert(ps[ps.len() - 1] == l);
        assert forall|k: int| 0 <= k < l.dice@.len() implies (#[trigger] l.dice@[k]).valid() by {
            assert(ps[ps.len() - 1].dice@[k] == l.dice@[k]);
        }
        lemma_hand_faces(l.dice@);
    }
}

/// In a sequence without duplicates, `index_of` finds the one position of an
/// element.
pub(crate) proof fn lemma_index_of_unique(s: Seq<PlayerId>, j: int)
    requires
        s.no_duplicates(),
        0 <= j < s.len(),
    ensures
        s.index_of(s[j]) == j,
{
    assert(s.contains(s[j]));
    let i = s.index_of(s[j]);
    if i != j {
        assert(s[i] != s[j]);
    }
}

} // verus!
