use vstd::multiset::Multiset;
use vstd::prelude::*;

use crate::game::GameError;

verus! {

broadcast use vstd::seq_lib::group_to_multiset_ensures, vstd::multiset::group_multiset_axioms;

/// A playing card: one of four suits carrying a rank.
/// Ranks 11 and 12 are folded into rank 10 when a pack is built,
/// so a well-formed card has a rank in 1..=10.
#[derive(Clone, Copy, Debug, PartialEq, Eq)]
pub enum Card {
    Coeur(u8),
    Pique(u8),
    Carreau(u8),
    Trefle(u8),
}

impl Card {
    /// The rank carried by the card, whatever its suit.
    pub open spec fn rank_spec(&self) -> u8 {
        match self {
            Card::Coeur(v) => *v,
            Card::Pique(v) => *v,
            Card::Carreau(v) => *v,
            Card::Trefle(v) => *v,
        }
    }

    /// A card is well formed when its rank lies in 1..=10.
    pub open spec fn wf(&self) -> bool {
        1 <= self.rank_spec() <= 10
    }

    pub fn unwrap(&self) -> (r: &u8)
        ensures
            *r == self.rank_spec(),
    {
        match self {
            Card::Coeur(v) => v,
            Card::Pique(v) => v,
            Card::Carreau(v) => v,
            Card::Trefle(v) => v,
        }
    }
}

/// Every card of the sequence is well formed.
pub open spec fn wf_cards(s: Seq<Card>) -> bool {
    forall|i: int| 0 <= i < s.len() ==> (#[trigger] s[i]).wf()
}

/// What one card adds to a running Blackjack total `t`:
/// an ace (rank 1) adds 11 while that still keeps the total at 21 or
/// below, otherwise 1; every other rank adds its face value.
pub open spec fn card_points(c: Card, t: int) -> int {
    if c.rank_spec() == 1 {
        if t + 11 <= 21 {
            11
        } else {
            1
        }
    } else {
        c.rank_spec() as int
    }
}

/// The sequential greedy Blackjack total: cards are added in the order
/// they entered the hand, and an earlier ace is never re-counted.
pub open spec fn sum_spec(s: Seq<Card>) -> int
    decreases s.len(),
{
    if s.len() == 0 {
        0
    } else {
        sum_spec(s.drop_last()) + card_points(s.last(), sum_spec(s.drop_last()))
    }
}

/// How many cards of rank `r` a multiset of cards holds, all suits together.
pub open spec fn rank_count(m: Multiset<Card>, r: u8) -> int {
    m.count(Card::Coeur(r)) as int + m.count(Card::Pique(r)) as int + m.count(Card::Carreau(r))
        as int + m.count(Card::Trefle(r)) as int
}

/// An ordered pack of cards, drawn from the top (the end of the sequence).
#[derive(Debug)]
pub struct PackOfCards {
    pack_cards: Vec<Card>,
}

impl Clone for PackOfCards {
    fn clone(&self) -> (r: Self)
        ensures
            r@ == self@,
    {
        let mut cards: Vec<Card> = Vec::new();
        let mut i: usize = 0;
        while i < self.pack_cards.len()
            invariant
                i <= self@.len(),
                cards@ == self@.take(i as int),
            decreases self@.len() - i,
        {
            cards.push(self.pack_cards[i]);
            proof {
                assert(self@.take(i as int + 1) =~= self@.take(i as int).push(self@[i as int]));
            }
            i = i + 1;
        }
        proof {
            assert(self@.take(self@.len() as int) =~= self@);
        }
        PackOfCards { pack_cards: cards }
    }
}

impl View for PackOfCards {
    type V = Seq<Card>;

    closed spec fn view(&self) -> Seq<Card> {
        self.pack_cards@
    }
}

pub proof fn lemma_wf_from_multiset(a: Seq<Card>, b: Seq<Card>)
    requires
        a.to_multiset() == b.to_multiset(),
        wf_cards(a),
    ensures
        wf_cards(b),
{
    assert forall|i: int| 0 <= i < b.len() implies (#[trigger] b[i]).wf() by {
        assert(b.contains(b[i]));
        assert(b.to_multiset().count(b[i]) > 0);
        assert(a.contains(b[i]));
        let j = choose|j: int| 0 <= j < a.len() && a[j] == b[i];
        assert(a[j].wf());
    }
}

pub broadcast proof fn lemma_wf_cards_push(s: Seq<Card>, c: Card)
    requires
        wf_cards(s),
        c.wf(),
    ensures
        #[trigger] wf_cards(s.push(c)),
{
    assert forall|i: int| 0 <= i < s.push(c).len() implies (#[trigger] s.push(c)[i]).wf() by {
        if i < s.len() {
            assert(s.push(c)[i] == s[i]);
        } else {
            assert(s.push(c)[i] == c);
        }
    }
}

pub broadcast proof fn lemma_wf_cards_drop_last(s: Seq<Card>)
    requires
        wf_cards(s),
        s.len() > 0,
    ensures
        #[trigger] wf_cards(s.drop_last()),
{
    assert forall|i: int| 0 <= i < s.drop_last().len() implies (#[trigger] s.drop_last()[i]).wf()
        by {
        assert(s.drop_last()[i] == s[i]);
    }
}

/// The running total never exceeds 11 per card, and each well-formed
/// card contributes at least 1.
pub proof fn lemma_sum_bounds(s: Seq<Card>)
    requires
        wf_cards(s),
    ensures
        s.len() <= sum_spec(s) <= 11 * s.len(),
    decreases s.len(),
{
    if s.len() > 0 {
        assert(wf_cards(s.drop_last()));
        lemma_sum_bounds(s.drop_last());
        assert(s.last().wf());
    }
}

impl PackOfCards {
    /// An empty pack.
    pub fn new() -> (r: PackOfCards)
        ensures
            r@ == Seq::<Card>::empty(),
    {
        PackOfCards { pack_cards: Vec::new() }
    }

    /// A fresh shoe: three repetitions of a 12-slot rank cycle over the
    /// four suits (ranks 11 and 12 collapsed to 10), then shuffled.
    /// It holds 144 cards: 12 of each rank 1..=9 and 36 of rank 10.
    pub fn init() -> (r: PackOfCards)
        ensures
            r@.len() == 144,
            wf_cards(r@),
            forall|rk: u8| 1 <= rk <= 9 ==> rank_count(r@.to_multiset(), rk) == 12,
            rank_count(r@.to_multiset(), 10) == 36,
    {
        let mut pack = PackOfCards { pack_cards: Vec::new() };
        let mut rep: usize = 0;
        while rep < 3
            invariant
                rep <= 3,
                pack@.len() == 48 * rep,
                wf_cards(pack@),
                forall|rk: u8| 1 <= rk <= 9 ==> rank_count(pack@.to_multiset(), rk) == 4 * rep,
                rank_count(pack@.to_multiset(), 10) == 12 * rep,
            decreases 3 - rep,
        {
            let mut n: u8 = 1;
            while n < 13
                invariant
                    rep < 3,
                    1 <= n <= 13,
                    pack@.len() == 48 * rep + 4 * (n - 1),
                    wf_cards(pack@),
                    forall|rk: u8| 1 <= rk <= 9 ==> rank_count(pack@.to_multiset(), rk) == 4 * rep
                        + (if n > rk {
                            4int
                        } else {
                            0int
                        }),
                    rank_count(pack@.to_multiset(), 10) == 12 * rep + (if n > 10 {
                        4 * ((n - 10) as int)
                    } else {
                        0int
                    }),
                decreases 13 - n,
            {
                let v: u8 = if n >= 10 {
                    10
                } else {
                    n
                };
                let ghost pre = pack@;
                pack.pack_cards.push(Card::Coeur(v));
                pack.pack_cards.push(Card::Pique(v));
                pack.pack_cards.push(Card::Carreau(v));
                pack.pack_cards.push(Card::Trefle(v));
                proof {
                    let m0 = pre.to_multiset();
                    let m4 = pack@.to_multiset();
                    assert(m4 =~= m0.insert(Card::Coeur(v)).insert(Card::Pique(v)).insert(
                        Card::Carreau(v),
                    ).insert(Card::Trefle(v)));
                    assert forall|rk: u8|
                        rank_count(m4, rk) == rank_count(m0, rk) + (if rk == v {
                            4int
                        } else {
                            0int
                        }) by {
                        assert(m4.count(Card::Coeur(rk)) == m0.count(Card::Coeur(rk)) + (if rk == v {
                            1int
                        } else {
                            0int
                        }));
                        assert(m4.count(Card::Pique(rk)) == m0.count(Card::Pique(rk)) + (if rk == v {
                            1int
                        } else {
                            0int
                        }));
                        assert(m4.count(Card::Carreau(rk)) == m0.count(Card::Carreau(rk)) + (if rk
                            == v {
                            1int
                        } else {
                            0int
                        }));
                        assert(m4.count(Card::Trefle(rk)) == m0.count(Card::Trefle(rk)) + (if rk
                            == v {
                            1int
                        } else {
                            0int
                        }));
                    }
                }
                n = n + 1;
            }
            rep = rep + 1;
        }
        let ghost unshuffled = pack@;
        pack.shuffle();
        proof {
            lemma_wf_from_multiset(unshuffled, pack@);
        }
        pack
    }

    pub fn iterator(&self) -> (r: &Vec<Card>)
        ensures
            r@ == self@,
    {
        &self.pack_cards
    }

    pub fn get_card(&self, index: usize) -> (r: Option<&Card>)
        ensures
            index < self@.len() ==> (r matches Some(c) && *c == self@[index as int]),
            index >= self@.len() ==> r is None,
    {
        if index < self.pack_cards.len() {
            Some(&self.pack_cards[index])
        } else {
            None
        }
    }

    pub fn add_card(&mut self, card: Card)
        ensures
            final(self)@ == old(self)@.push(card),
    {
        self.pack_cards.push(card);
    }

    /// Relies on rand's `SliceRandom::shuffle`: it permutes the slice in
    /// place, so the cards it holds are preserved as a multiset.
    #[verifier::external_body]
    pub fn shuffle(&mut self)
        ensures
            final(self)@.to_multiset() == old(self)@.to_multiset(),
            final(self)@.len() == old(self)@.len(),
    {
        let mut rng = rand::thread_rng();
        rand::seq::SliceRandom::shuffle(self.pack_cards.as_mut_slice(), &mut rng);
    }

    /// Draw the top card; fails with `EmptyShoe` when no cards remain.
    pub fn pick(&mut self) -> (r: Result<Card, GameError>)
        ensures
            old(self)@.len() > 0 ==> r == Ok::<Card, GameError>(old(self)@.last()) && final(self)@
                == old(self)@.drop_last(),
            old(self)@.len() == 0 ==> r == Err::<Card, GameError>(GameError::EmptyShoe)
                && final(self)@ == old(self)@,
    {
        match self.pack_cards.pop() {
            Some(card) => Ok(card),
            None => Err(GameError::EmptyShoe),
        }
    }

    /// The sequential greedy Blackjack total of the pack.
    pub fn sum(&self) -> (r: u8)
        requires
            wf_cards(self@),
            self@.len() <= 22,
        ensures
            r == sum_spec(self@),
    {
        let mut total: u8 = 0;
        let mut i: usize = 0;
        while i < self.pack_cards.len()
            invariant
                wf_cards(self@),
                self@.len() <= 22,
                i <= self@.len(),
                total == sum_spec(self@.take(i as int)),
                total <= 11 * i,
            decreases self@.len() - i,
        {
            proof {
                assert(self@.take(i as int + 1).drop_last() =~= self@.take(i as int));
                assert(self@.take(i as int + 1).last() == self@[i as int]);
                assert(self@[i as int].wf());
            }
            let card = self.pack_cards[i];
            let v = *card.unwrap();
            if v == 1 {
                if total > 10 {
                    total = total + 1;
                } else {
                    total = total + 11;
                }
            } else {
                total = total + v;
            }
            i = i + 1;
        }
        proof {
            assert(self@.take(self@.len() as int) =~= self@);
        }
        total
    }
}

} // verus!
