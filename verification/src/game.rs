use vstd::prelude::*;

use crate::card::Card;
use crate::card::PackOfCards;
use crate::card::lemma_sum_bounds;
use crate::card::rank_count;
use crate::card::sum_spec;
use crate::card::wf_cards;

verus! {

broadcast use crate::card::lemma_wf_cards_push, crate::card::lemma_wf_cards_drop_last;

/// The two reported errors of the game: drawing from an empty shoe, and
/// asking for insurance when it is not on offer.
#[derive(Clone, Copy, Debug, PartialEq, Eq)]
pub enum GameError {
    EmptyShoe,
    InsuranceNotAvailable,
}

/// The four actions a player may request, each with a fixed slot index
/// used by the value table.
#[derive(Clone, Copy, Debug, Eq, Hash, PartialEq)]
pub enum Action {
    Draw,
    Stand,
    Double,
    Insurance,
}

impl Action {
    /// The fixed slot of each action: Draw 0, Stand 1, Double 2, Insurance 3.
    pub open spec fn index_spec(&self) -> int {
        match self {
            Action::Draw => 0,
            Action::Stand => 1,
            Action::Double => 2,
            Action::Insurance => 3,
        }
    }

    pub fn into_index(&self) -> (r: usize)
        ensures
            r == self.index_spec(),
    {
        match self {
            Action::Draw => 0,
            Action::Stand => 1,
            Action::Double => 2,
            Action::Insurance => 3,
        }
    }
}

/// One round of Blackjack: the two hands, the shoe, the discard record,
/// and the round's flags.
pub struct GameState {
    pub continue_game: bool,
    pub player_cards: PackOfCards,
    pub croupier_cards: PackOfCards,
    pub packet: PackOfCards,
    pub discard: PackOfCards,
    pub insurance: bool,
    pub double: bool,
}

impl GameState {
    /// Every card in play has a rank in 1..=10, the hands stay small
    /// enough for their totals to be computed, and while the round is
    /// active the player's total is below 21.
    pub open spec fn wf(&self) -> bool {
        &&& wf_cards(self.player_cards@)
        &&& wf_cards(self.croupier_cards@)
        &&& wf_cards(self.packet@)
        &&& wf_cards(self.discard@)
        &&& self.player_cards@.len() <= 22
        &&& self.croupier_cards@.len() <= 22
        &&& (self.continue_game ==> sum_spec(self.player_cards@) < 21)
    }

    /// Insurance is on offer while the dealer's face-up card is an ace
    /// and insurance has not been taken yet.
    pub open spec fn insurance_available(&self) -> bool {
        self.croupier_cards@.len() > 0 && self.croupier_cards@[0].rank_spec() == 1
            && !self.insurance
    }

    /// A fresh round: empty hands, a full shuffled shoe, no flags set.
    pub fn new() -> (r: GameState)
        ensures
            r.wf(),
            r.continue_game,
            r.player_cards@.len() == 0,
            r.croupier_cards@.len() == 0,
            r.discard@.len() == 0,
            r.packet@.len() == 144,
            forall|rk: u8| 1 <= rk <= 9 ==> rank_count(r.packet@.to_multiset(), rk) == 12,
            rank_count(r.packet@.to_multiset(), 10) == 36,
            !r.insurance,
            !r.double,
    {
        GameState {
            continue_game: true,
            player_cards: PackOfCards::new(),
            croupier_cards: PackOfCards::new(),
            packet: PackOfCards::init(),
            discard: PackOfCards::new(),
            insurance: false,
            double: false,
        }
    }

    /// An owned copy of a round's state.
    pub fn from(other: &GameState) -> (r: GameState)
        ensures
            r.continue_game == other.continue_game,
            r.player_cards@ == other.player_cards@,
            r.croupier_cards@ == other.croupier_cards@,
            r.packet@ == other.packet@,
            r.discard@ == other.discard@,
            r.insurance == other.insurance,
            r.double == other.double,
    {
        GameState {
            continue_game: other.continue_game,
            player_cards: other.player_cards.clone(),
            croupier_cards: other.croupier_cards.clone(),
            packet: other.packet.clone(),
            discard: other.discard.clone(),
            insurance: other.insurance,
            double: other.double,
        }
    }

    pub fn get_player_cards(&self) -> (r: &PackOfCards)
        ensures
            r@ == self.player_cards@,
    {
        &self.player_cards
    }

    pub fn as_mut_ref(&mut self) -> (r: &mut Self) {
        self
    }

    pub fn get_croupier_first_card(&self) -> (r: Option<&Card>)
        ensures
            self.croupier_cards@.len() > 0 ==> (r matches Some(c) && *c
                == self.croupier_cards@[0]),
            self.croupier_cards@.len() == 0 ==> r is None,
    {
        self.croupier_cards.get_card(0)
    }

    pub fn get_insurance(&self) -> (r: bool)
        ensures
            r == self.insurance,
    {
        self.insurance
    }

    /// What a successful transition leaves behind, for each action.
    pub open spec fn play_ok_post(pre: GameState, post: GameState, action: Action) -> bool {
        match action {
            Action::Draw => {
                let c = pre.packet@.last();
                &&& pre.packet@.len() > 0
                &&& post.player_cards@ == pre.player_cards@.push(c)
                &&& post.croupier_cards@ == pre.croupier_cards@
                &&& post.packet@ == pre.packet@.drop_last()
                &&& post.discard@ == pre.discard@.push(c)
                &&& post.insurance == pre.insurance
                &&& post.double == pre.double
                &&& post.continue_game == (sum_spec(post.player_cards@) < 21)
            },
            Action::Stand => {
                &&& post.player_cards@ == pre.player_cards@
                &&& post.croupier_cards@ == pre.croupier_cards@
                &&& post.packet@ == pre.packet@
                &&& post.discard@ == pre.discard@
                &&& post.insurance == pre.insurance
                &&& post.double == pre.double
                &&& !post.continue_game
            },
            Action::Double => {
                let c = pre.packet@.last();
                &&& pre.packet@.len() > 0
                &&& post.player_cards@ == pre.player_cards@.push(c)
                &&& post.croupier_cards@ == pre.croupier_cards@
                &&& post.packet@ == pre.packet@.drop_last()
                &&& post.discard@ == pre.discard@.push(c)
                &&& post.insurance == pre.insurance
                &&& post.double
                &&& !post.continue_game
            },
            Action::Insurance => {
                &&& post.player_cards@ == pre.player_cards@
                &&& post.croupier_cards@ == pre.croupier_cards@
                &&& post.packet@ == pre.packet@
                &&& post.discard@ == pre.discard@
                &&& post.insurance
                &&& post.double == pre.double
                &&& post.continue_game == pre.continue_game
            },
        }
    }

    /// One transition of the state machine, on an active round.
    ///
    /// Draw moves the top card of the shoe to the player's hand and ends
    /// the round when the total reaches 21; Stand ends the round; Double
    /// draws one card, marks the doubled flag and ends the round;
    /// Insurance succeeds exactly when it is on offer and only sets the
    /// insurance flag. Draw and Double fail with `EmptyShoe` on an empty
    /// shoe; Insurance fails with `InsuranceNotAvailable` when it is not
    /// on offer.
    pub fn play(&self, action: Action) -> (r: Result<GameState, GameError>)
        requires
            self.wf(),
            self.continue_game,
            action is Insurance ==> self.croupier_cards@.len() > 0,
        ensures
            r matches Ok(ns) ==> ns.wf() && GameState::play_ok_post(*self, ns, action),
            (action is Draw || action is Double) ==> (r is Ok <==> self.packet@.len() > 0),
            action is Stand ==> r is Ok,
            action is Insurance ==> (r is Ok <==> self.insurance_available()),
            r is Err ==> (if action is Insurance {
                r == Err::<GameState, GameError>(GameError::InsuranceNotAvailable)
            } else {
                r == Err::<GameState, GameError>(GameError::EmptyShoe)
            }),
    {
        let mut new_state = GameState::from(self);
        match action {
            Action::Draw => {
                match new_state.packet.pick() {
                    Ok(card) => {
                        new_state.player_cards.add_card(card);
                        new_state.discard.add_card(card);
                    },
                    Err(e) => {
                        return Err(e);
                    },
                }
            },
            Action::Stand => {
                new_state.continue_game = false;
            },
            Action::Double => {
                match new_state.packet.pick() {
                    Ok(card) => {
                        new_state.player_cards.add_card(card);
                        new_state.discard.add_card(card);
                        new_state.continue_game = false;
                        new_state.double = true;
                    },
                    Err(e) => {
                        return Err(e);
                    },
                }
            },
            Action::Insurance => {
                match self.croupier_cards.get_card(0) {
                    Some(c) => {
                        if *c.unwrap() == 1 && !new_state.insurance {
                            new_state.insurance = true;
                        } else {
                            return Err(GameError::InsuranceNotAvailable);
                        }
                    },
                    None => {
                        return Err(GameError::InsuranceNotAvailable);
                    },
                }
            },
        }
        proof {
            lemma_sum_bounds(self.player_cards@);
        }
        if new_state.player_cards.sum() >= 21 {
            new_state.continue_game = false;
        }
        Ok(new_state)
    }

    /// The round's payout, in half-bet units (so one bet is 2 units, a
    /// natural 21 pays 3 units, a doubled win 4). The rules are an
    /// ordered list and the first match wins; the insurance side bet is
    /// settled first and added to the main outcome.
    pub open spec fn payout_units_spec(
        insurance: bool,
        dealer: int,
        player: int,
        doubled: bool,
    ) -> int {
        let ins: int = if insurance {
            if dealer == 21 {
                1
            } else {
                -1
            }
        } else {
            0
        };
        let main: int = if player == 21 && doubled {
            6
        } else if player == 21 {
            3
        } else if player > 21 && doubled {
            -4
        } else if player > 21 {
            -2
        } else if dealer > 21 && doubled {
            4
        } else if dealer > 21 {
            2
        } else if dealer > player && doubled {
            -4
        } else if dealer < player && doubled {
            4
        } else if dealer > player {
            -2
        } else if dealer < player {
            2
        } else {
            0
        };
        ins + main
    }

    /// The payout of the round as it stands, in half-bet units.
    pub fn results(&self) -> (r: i64)
        requires
            self.wf(),
        ensures
            r == GameState::payout_units_spec(
                self.insurance,
                sum_spec(self.croupier_cards@),
                sum_spec(self.player_cards@),
                self.double,
            ),
    {
        let dealer = self.croupier_cards.sum();
        let player = self.player_cards.sum();
        let mut total: i64 = 0;
        if self.insurance {
            if dealer == 21 {
                total = total + 1;
            } else {
                total = total - 1;
            }
        }
        if player == 21 && self.double {
            total = total + 6;
        } else if player == 21 {
            total = total + 3;
        } else if player > 21 && self.double {
            total = total - 4;
        } else if player > 21 {
            total = total - 2;
        } else if dealer > 21 && self.double {
            total = total + 4;
        } else if dealer > 21 {
            total = total + 2;
        } else if dealer > player && self.double {
            total = total - 4;
        } else if dealer < player && self.double {
            total = total + 4;
        } else if dealer > player {
            total = total - 2;
        } else if dealer < player {
            total = total + 2;
        }
        total
    }
}

/// The dealer's hand after the terminal follow-up: the first `k` cards
/// off the top of the shoe have moved, in drawing order, to the
/// dealer's hand and to the discard record.
pub open spec fn croupier_drawn(pre: GameState, post: GameState, k: int) -> bool {
    let n = pre.packet@.len() - k;
    &&& 0 <= k <= pre.packet@.len()
    &&& post.packet@ == pre.packet@.take(n)
    &&& post.croupier_cards@ == pre.croupier_cards@ + pre.packet@.skip(n).reverse()
    &&& post.discard@ == pre.discard@ + pre.packet@.skip(n).reverse()
}

/// The terminal follow-up of a round: the dealer draws from the shoe
/// while its total is below 17. Fails with `EmptyShoe` when the shoe
/// runs out first.
pub fn run_croupier(game_state: &mut GameState) -> (r: Result<(), GameError>)
    requires
        old(game_state).wf(),
    ensures
        final(game_state).wf(),
        final(game_state).player_cards@ == old(game_state).player_cards@,
        final(game_state).insurance == old(game_state).insurance,
        final(game_state).double == old(game_state).double,
        final(game_state).continue_game == old(game_state).continue_game,
        exists|k: int| croupier_drawn(*old(game_state), *final(game_state), k),
        forall|j: int|
            old(game_state).croupier_cards@.len() <= j < final(game_state).croupier_cards@.len()
                ==> sum_spec(#[trigger] final(game_state).croupier_cards@.take(j)) < 17,
        r is Ok ==> sum_spec(final(game_state).croupier_cards@) >= 17,
        old(game_state).croupier_cards@.len() + old(game_state).packet@.len() >= 17 ==> r is Ok,
        r is Err ==> r == Err::<(), GameError>(GameError::EmptyShoe)
            && final(game_state).packet@.len() == 0
            && sum_spec(final(game_state).croupier_cards@) < 17,
{
    let ghost pre = *game_state;
    let ghost mut k: int = 0;
    proof {
        assert(pre.packet@.take(pre.packet@.len() as int) =~= pre.packet@);
        assert(pre.packet@.skip(pre.packet@.len() as int).reverse() =~= Seq::<Card>::empty());
        assert(pre.croupier_cards@ + Seq::<Card>::empty() =~= pre.croupier_cards@);
        assert(pre.discard@ + Seq::<Card>::empty() =~= pre.discard@);
    }
    loop
        invariant
            pre == *old(game_state),
            game_state.wf(),
            pre.wf(),
            game_state.player_cards@ == pre.player_cards@,
            game_state.insurance == pre.insurance,
            game_state.double == pre.double,
            game_state.continue_game == pre.continue_game,
            croupier_drawn(pre, *game_state, k),
            forall|j: int|
                pre.croupier_cards@.len() <= j < game_state.croupier_cards@.len() ==> sum_spec(
                    #[trigger] game_state.croupier_cards@.take(j),
                ) < 17,
        ensures
            croupier_drawn(pre, *game_state, k),
            forall|j: int|
                pre.croupier_cards@.len() <= j < game_state.croupier_cards@.len() ==> sum_spec(
                    #[trigger] game_state.croupier_cards@.take(j),
                ) < 17,
            game_state.wf(),
            game_state.player_cards@ == pre.player_cards@,
            game_state.insurance == pre.insurance,
            game_state.double == pre.double,
            game_state.continue_game == pre.continue_game,
            sum_spec(game_state.croupier_cards@) >= 17 || game_state.packet@.len() == 0,
            sum_spec(game_state.croupier_cards@) < 17 ==> game_state.packet@.len() == 0,
        decreases game_state.packet@.len(),
    {
        if game_state.croupier_cards.sum() >= 17 {
            break ;
        }
        proof {
            lemma_sum_bounds(game_state.croupier_cards@);
        }
        match game_state.packet.pick() {
            Ok(card) => {
                let ghost before = *game_state;
                game_state.croupier_cards.add_card(card);
                game_state.discard.add_card(card);
                proof {
                    let n = pre.packet@.len() - k - 1;
                    assert(pre.packet@.skip(n) =~= seq![pre.packet@[n]] + pre.packet@.skip(n + 1));
                    assert(pre.packet@.skip(n).reverse() =~= pre.packet@.skip(n + 1).reverse().push(
                        pre.packet@[n],
                    ));
                    assert(game_state.croupier_cards@ =~= pre.croupier_cards@ + pre.packet@.skip(
                        n,
                    ).reverse());
                    assert(game_state.discard@ =~= pre.discard@ + pre.packet@.skip(n).reverse());
                    assert(game_state.packet@ =~= pre.packet@.take(n));
                    k = k + 1;
                    assert forall|j: int|
                        pre.croupier_cards@.len() <= j < game_state.croupier_cards@.len() implies sum_spec(
                        #[trigger] game_state.croupier_cards@.take(j),
                    ) < 17 by {
                        if j < before.croupier_cards@.len() {
                            assert(game_state.croupier_cards@.take(j)
                                =~= before.croupier_cards@.take(j));
                        } else {
                            assert(game_state.croupier_cards@.take(j) =~= before.croupier_cards@);
                        }
                    }
                }
            },
            Err(_) => {
                proof {
                    assert(croupier_drawn(pre, *game_state, k));
                    assert(game_state.packet@.len() == pre.packet@.len() - k);
                    assert(k == pre.packet@.len());
                    assert(game_state.croupier_cards@.len() == pre.croupier_cards@.len()
                        + pre.packet@.len());
                }
                return Err(GameError::EmptyShoe);
            },
        }
    }
    if game_state.croupier_cards.sum() >= 17 {
        Ok(())
    } else {
        proof {
            lemma_sum_bounds(game_state.croupier_cards@);
            assert(game_state.packet@.len() == pre.packet@.len() - k);
            assert(k == pre.packet@.len());
            assert(game_state.croupier_cards@.len() == pre.croupier_cards@.len()
                + pre.packet@.len());
        }
        Err(GameError::EmptyShoe)
    }
}

/// The opening deal of a round: two cards to the player, then two to
/// the dealer, all recorded in the discard pile; the round stays active
/// unless the opening total already reaches 21. On a short shoe it
/// fails with `EmptyShoe`, with every remaining card dealt in order.
pub fn deal_opening(game_state: &mut GameState) -> (r: Result<(), GameError>)
    requires
        old(game_state).wf(),
        old(game_state).continue_game,
        old(game_state).player_cards@.len() == 0,
        old(game_state).croupier_cards@.len() == 0,
    ensures
        final(game_state).wf(),
        final(game_state).insurance == old(game_state).insurance,
        final(game_state).double == old(game_state).double,
        r is Ok <==> old(game_state).packet@.len() >= 4,
        r is Ok ==> {
            let p = old(game_state).packet@;
            let n = p.len() as int;
            &&& final(game_state).player_cards@ == seq![p[n - 1], p[n - 2]]
            &&& final(game_state).croupier_cards@ == seq![p[n - 3], p[n - 4]]
            &&& final(game_state).packet@ == p.take(n - 4)
            &&& final(game_state).discard@ == old(game_state).discard@ + seq![
                p[n - 1],
                p[n - 2],
                p[n - 3],
                p[n - 4],
            ]
            &&& final(game_state).continue_game == (sum_spec(final(game_state).player_cards@) < 21)
        },
        r is Err ==> r == Err::<(), GameError>(GameError::EmptyShoe),
        r is Err ==> {
            let p = old(game_state).packet@;
            let n = p.len() as int;
            &&& final(game_state).packet@.len() == 0
            &&& final(game_state).player_cards@ == (if n < 1 {
                Seq::<Card>::empty()
            } else if n < 2 {
                seq![p[n - 1]]
            } else {
                seq![p[n - 1], p[n - 2]]
            })
            &&& final(game_state).croupier_cards@ == (if n < 3 {
                Seq::<Card>::empty()
            } else {
                seq![p[n - 3]]
            })
            &&& final(game_state).discard@ == old(game_state).discard@ + p.reverse()
            &&& final(game_state).continue_game == (sum_spec(final(game_state).player_cards@) < 21)
        },
{
    let c1 = match game_state.packet.pick() {
        Ok(c) => c,
        Err(e) => {
            proof {
                assert(game_state.player_cards@ =~= Seq::<Card>::empty());
                assert(game_state.croupier_cards@ =~= Seq::<Card>::empty());
                assert(old(game_state).packet@.reverse() =~= Seq::<Card>::empty());
                assert(game_state.discard@ =~= old(game_state).discard@ + old(
                    game_state,
                ).packet@.reverse());
            }
            return Err(e);
        },
    };
    game_state.player_cards.add_card(c1);
    game_state.discard.add_card(c1);
    let c2 = match game_state.packet.pick() {
        Ok(c) => c,
        Err(e) => {
            proof {
                lemma_sum_bounds(game_state.player_cards@);
                let p = old(game_state).packet@;
                assert(game_state.player_cards@ =~= seq![p[p.len() - 1]]);
                assert(game_state.croupier_cards@ =~= Seq::<Card>::empty());
                assert(p.reverse() =~= seq![p[p.len() - 1]]);
                assert(game_state.discard@ =~= old(game_state).discard@ + p.reverse());
            }
            return Err(e);
        },
    };
    game_state.player_cards.add_card(c2);
    game_state.discard.add_card(c2);
    if game_state.player_cards.sum() >= 21 {
        game_state.continue_game = false;
    }
    let c3 = match game_state.packet.pick() {
        Ok(c) => c,
        Err(e) => {
            proof {
                let p = old(game_state).packet@;
                assert(game_state.player_cards@ =~= seq![p[p.len() - 1], p[p.len() - 2]]);
                assert(game_state.croupier_cards@ =~= Seq::<Card>::empty());
                assert(p.reverse() =~= seq![p[p.len() - 1], p[p.len() - 2]]);
                assert(game_state.discard@ =~= old(game_state).discard@ + p.reverse());
            }
            return Err(e);
        },
    };
    game_state.croupier_cards.add_card(c3);
    game_state.discard.add_card(c3);
    let c4 = match game_state.packet.pick() {
        Ok(c) => c,
        Err(e) => {
            proof {
                let p = old(game_state).packet@;
                assert(game_state.player_cards@ =~= seq![p[p.len() - 1], p[p.len() - 2]]);
                assert(game_state.croupier_cards@ =~= seq![p[p.len() - 3]]);
                assert(p.reverse() =~= seq![
                    p[p.len() - 1],
                    p[p.len() - 2],
                    p[p.len() - 3],
                ]);
                assert(game_state.discard@ =~= old(game_state).discard@ + p.reverse());
            }
            return Err(e);
        },
    };
    game_state.croupier_cards.add_card(c4);
    game_state.discard.add_card(c4);
    proof {
        let p = old(game_state).packet@;
        let n = p.len() as int;
        assert(game_state.player_cards@ =~= seq![p[n - 1], p[n - 2]]);
        assert(game_state.croupier_cards@ =~= seq![p[n - 3], p[n - 4]]);
        assert(game_state.packet@ =~= p.take(n - 4));
        assert(game_state.discard@ =~= old(game_state).discard@ + seq![
            p[n - 1],
            p[n - 2],
            p[n - 3],
            p[n - 4],
        ]);
    }
    Ok(())
}

} // verus!
