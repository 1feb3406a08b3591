use vstd::pervasive::VecAdditionalExecFns;
use vstd::prelude::*;
use vstd::relations::sorted_by;
use vstd::relations::total_ordering;
use vstd::seq_lib::lemma_sorted_unique;

use crate::card::Card;
use crate::card::lemma_sum_bounds;
use crate::card::sum_spec;
use crate::game::Action;
use crate::game::GameError;
use crate::game::GameState;
use crate::game::deal_opening;
use crate::game::run_croupier;

verus! {

broadcast use vstd::seq_lib::group_to_multiset_ensures, vstd::multiset::group_multiset_axioms;

/// The order used on player card ranks inside an RL state key.
pub open spec fn u8_le() -> spec_fn(u8, u8) -> bool {
    |a: u8, b: u8| a <= b
}

pub proof fn lemma_u8_le_total()
    ensures
        total_ordering(u8_le()),
{
    assert(vstd::relations::reflexive(u8_le()));
    assert(vstd::relations::antisymmetric(u8_le()));
    assert(vstd::relations::transitive(u8_le()));
    assert(vstd::relations::strongly_connected(u8_le()));
}

/// The ranks of a hand, in hand order.
pub open spec fn ranks_of(s: Seq<Card>) -> Seq<u8> {
    s.map_values(|c: Card| c.rank_spec())
}

/// The canonical RL state key of a round: the player's card ranks sorted
/// ascending, the dealer's face-up rank, and the insurance flag.
pub open spec fn rl_key(gs: GameState) -> (Seq<u8>, u8, bool) {
    (ranks_of(gs.player_cards@).sort_by(u8_le()), gs.croupier_cards@[0].rank_spec(), gs.insurance)
}

/// Sorts the vector ascending; the values are kept as a multiset.
fn sort_ranks(v: &mut Vec<u8>)
    ensures
        sorted_by(final(v)@, u8_le()),
        final(v)@.to_multiset() == old(v)@.to_multiset(),
        final(v)@.len() == old(v)@.len(),
{
    let n = v.len();
    let mut i: usize = 0;
    while i < n
        invariant
            n == v@.len(),
            i <= n,
            v@.to_multiset() == old(v)@.to_multiset(),
            forall|a: int, b: int| 0 <= a < b < i ==> v@[a] <= v@[b],
            forall|a: int, b: int| 0 <= a < i <= b < n ==> v@[a] <= v@[b],
        decreases n - i,
    {
        let mut m: usize = i;
        let mut j: usize = i + 1;
        while j < n
            invariant
                n == v@.len(),
                i <= m < j <= n,
                forall|t: int| i <= t < j ==> v@[m as int] <= v@[t],
            decreases n - j,
        {
            if v[j] < v[m] {
                m = j;
            }
            j = j + 1;
        }
        let ghost before = v@;
        let vi = v[i];
        let vm = v[m];
        v.set(i, vm);
        v.set(m, vi);
        proof {
            lemma_swap_multiset(before, i as int, m as int);
            if i == m {
                assert(v@ =~= before);
            }
        }
        i = i + 1;
    }
    proof {
        assert(sorted_by(v@, u8_le()));
    }
}

proof fn lemma_swap_multiset(s: Seq<u8>, i: int, j: int)
    requires
        0 <= i < s.len(),
        0 <= j < s.len(),
    ensures
        s.update(i, s[j]).update(j, s[i]).to_multiset() == s.to_multiset(),
{
    let s1 = s.update(i, s[j]);
    let s2 = s1.update(j, s[i]);
    vstd::seq_lib::to_multiset_update(s, i, s[j]);
    vstd::seq_lib::to_multiset_update(s1, j, s[i]);
    if i == j {
        assert(s2 =~= s);
    } else {
        assert(s1[j] == s[j]);
        assert(s2.to_multiset() =~= s.to_multiset());
    }
}

/// The per-iteration exploration rate, in thousandths: it decays
/// linearly from 1000 over the first twentieth of the run, then sits at
/// a floor of 20.
pub open spec fn epsilon_permille_spec(iteration: u64, total: u64) -> int {
    if iteration < total / 20 {
        1000 - ((iteration * 1000) as int / total as int)
    } else {
        20
    }
}

/// The canonical, hashable RL state: the player's card ranks sorted
/// ascending, the dealer's face-up rank, and the insurance flag.
#[derive(Debug, PartialEq, Eq, Hash)]
pub struct State {
    player_cards: Vec<u8>,
    croupier_first_card: u8,
    insurance: bool,
}

impl View for State {
    type V = (Seq<u8>, u8, bool);

    closed spec fn view(&self) -> (Seq<u8>, u8, bool) {
        (self.player_cards@, self.croupier_first_card, self.insurance)
    }
}

impl Clone for State {
    fn clone(&self) -> (r: Self)
        ensures
            r@ == self@,
    {
        let mut player_cards: Vec<u8> = Vec::new();
        let mut i: usize = 0;
        while i < self.player_cards.len()
            invariant
                i <= self.player_cards@.len(),
                player_cards@ == self.player_cards@.take(i as int),
            decreases self.player_cards@.len() - i,
        {
            player_cards.push(self.player_cards[i]);
            proof {
                assert(self.player_cards@.take(i as int + 1) =~= self.player_cards@.take(
                    i as int,
                ).push(self.player_cards@[i as int]));
            }
            i = i + 1;
        }
        proof {
            assert(self.player_cards@.take(self.player_cards@.len() as int)
                =~= self.player_cards@);
        }
        State {
            player_cards,
            croupier_first_card: self.croupier_first_card,
            insurance: self.insurance,
        }
    }
}

impl State {
    /// Projects a round onto its RL state key.
    pub fn from(game_state: &GameState) -> (r: State)
        requires
            game_state.croupier_cards@.len() > 0,
        ensures
            r@ == rl_key(*game_state),
            r@.0.len() == game_state.player_cards@.len(),
    {
        let mut player_cards: Vec<u8> = Vec::new();
        let cards = game_state.get_player_cards().iterator();
        let mut i: usize = 0;
        while i < cards.len()
            invariant
                cards@ == game_state.player_cards@,
                i <= cards@.len(),
                player_cards@ == ranks_of(cards@.take(i as int)),
            decreases cards@.len() - i,
        {
            let c = cards[i];
            player_cards.push(*c.unwrap());
            proof {
                assert(ranks_of(cards@.take(i as int + 1)) =~= ranks_of(cards@.take(i as int)).push(
                    cards@[i as int].rank_spec(),
                ));
            }
            i = i + 1;
        }
        proof {
            assert(cards@.take(cards@.len() as int) =~= cards@);
        }
        let ghost unsorted = player_cards@;
        sort_ranks(&mut player_cards);
        proof {
            lemma_u8_le_total();
            unsorted.lemma_sort_by_ensures(u8_le());
            lemma_sorted_unique(player_cards@, unsorted.sort_by(u8_le()), u8_le());
        }
        let first = game_state.get_croupier_first_card().unwrap();
        State {
            player_cards,
            croupier_first_card: *first.unwrap(),
            insurance: game_state.get_insurance(),
        }
    }
}

pub fn epsilon_permille(iteration: u64, total: u64) -> (r: u32)
    requires
        0 < total <= 0xffff_ffff_ffff,
        iteration < total,
    ensures
        r == epsilon_permille_spec(iteration, total),
        20 <= r <= 1000,
{
    if iteration < total / 20 {
        let scaled = iteration * 1000;
        let frac = scaled / total;
        proof {
            assert(20 * (total / 20) <= total) by (nonlinear_arith)
                requires
                    total > 0,
            ;
            assert(20 * iteration < total);
            assert((scaled as int) / (total as int) < 50) by (nonlinear_arith)
                requires
                    scaled == iteration * 1000,
                    0 < total,
                    20 * iteration < total,
            ;
        }
        1000 - (frac as u32)
    } else {
        20
    }
}

/// Rewards handed to the table are bounded by this (in thousandths of a
/// bet, far above any payout the game can produce).
pub const REWARD_BOUND: i64 = 1_000_000_000_000;

/// Stored action values stay within twice the reward bound.
pub const Q_BOUND: i64 = 2_000_000_000_000;

/// How many action slots a key gets when it is first registered: 4 when
/// insurance is legal there (dealer shows an ace, the player holds
/// exactly 2 cards, insurance not yet taken), else 3.
pub open spec fn insurance_slots(k: (Seq<u8>, u8, bool)) -> int {
    if k.1 == 1 && k.0.len() == 2 && !k.2 {
        4
    } else {
        3
    }
}

/// A registered entry: its length matches the insurance-legality test of
/// its key, and its values are bounded.
pub open spec fn entry_wf(v: Seq<i64>, k: (Seq<u8>, u8, bool)) -> bool {
    &&& v.len() == insurance_slots(k)
    &&& forall|i: int| 0 <= i < v.len() ==> -Q_BOUND <= #[trigger] v[i] <= Q_BOUND
}

pub open spec fn zero_values(n: int) -> Seq<i64> {
    Seq::new(n as nat, |i: int| 0i64)
}

/// Integer division by 10 that rounds toward zero, as the learning-rate
/// step of one tenth.
pub open spec fn div10_toward_zero(d: int) -> int {
    if d >= 0 {
        d / 10
    } else {
        -((-d) / 10)
    }
}

/// Integer halving that rounds toward zero, as the discount of one half.
pub open spec fn half_toward_zero(m: int) -> int {
    if m >= 0 {
        m / 2
    } else {
        -((-m) / 2)
    }
}

/// One temporal-difference step: the stored value moves one tenth of the
/// way toward the target.
pub open spec fn td_step_spec(q: i64, target: i64) -> int {
    q + div10_toward_zero(target - q)
}

/// The value vector after a temporal-difference step on one slot; out of
/// bounds, nothing changes.
pub open spec fn apply_td_spec(v: Seq<i64>, idx: int, target: i64) -> Seq<i64> {
    if 0 <= idx < v.len() && -Q_BOUND <= v[idx] <= Q_BOUND && -Q_BOUND <= target <= Q_BOUND {
        v.update(idx, td_step_spec(v[idx], target) as i64)
    } else {
        v
    }
}

proof fn lemma_td_step_bounds(q: i64, target: i64)
    requires
        -Q_BOUND <= q <= Q_BOUND,
        -Q_BOUND <= target <= Q_BOUND,
    ensures
        q <= target ==> q <= td_step_spec(q, target) <= target,
        target <= q ==> target <= td_step_spec(q, target) <= q,
        -Q_BOUND <= td_step_spec(q, target) <= Q_BOUND,
{
    let d = target - q;
    if d >= 0 {
        assert(0 <= d / 10 <= d) by (nonlinear_arith)
            requires
                d >= 0,
        ;
    } else {
        assert(0 <= (-d) / 10 <= -d) by (nonlinear_arith)
            requires
                -d >= 0,
        ;
    }
}

/// Applies one temporal-difference step to one slot of a value vector.
/// Total: an out-of-range slot or value leaves the vector unchanged.
pub(crate) fn apply_td(v: Vec<i64>, idx: usize, target: i64) -> (r: Vec<i64>)
    ensures
        r@ == apply_td_spec(v@, idx as int, target),
{
    let mut v = v;
    if idx < v.len() {
        let q = v[idx];
        if -Q_BOUND <= q && q <= Q_BOUND && -Q_BOUND <= target && target <= Q_BOUND {
            let d = target - q;
            let step: i64 = if d >= 0 {
                ((d as u64) / 10) as i64
            } else {
                -((((-d) as u64) / 10) as i64)
            };
            proof {
                lemma_td_step_bounds(q, target);
            }
            let nq = q + step;
            v.set(idx, nq);
        }
    }
    v
}

/// The greatest value the sequence holds.
pub open spec fn max_val(v: Seq<i64>) -> int
    decreases v.len(),
{
    if v.len() <= 1 {
        v[0] as int
    } else if v.last() as int > max_val(v.drop_last()) {
        v.last() as int
    } else {
        max_val(v.drop_last())
    }
}

proof fn lemma_max_val(v: Seq<i64>)
    requires
        v.len() > 0,
    ensures
        forall|i: int| 0 <= i < v.len() ==> v[i] <= max_val(v),
        exists|i: int| 0 <= i < v.len() && v[i] == max_val(v),
    decreases v.len(),
{
    if v.len() == 1 {
        assert(v[0] == max_val(v));
    } else {
        lemma_max_val(v.drop_last());
        assert(forall|i: int| 0 <= i < v.len() - 1 ==> v[i] == #[trigger] v.drop_last()[i]);
        if v.last() as int > max_val(v.drop_last()) {
            assert(v[v.len() - 1] == max_val(v));
        } else {
            let i = choose|i: int|
                0 <= i < v.drop_last().len() && v.drop_last()[i] == max_val(v.drop_last());
            assert(v[i] == max_val(v));
        }
        assert forall|i: int| 0 <= i < v.len() implies v[i] <= max_val(v) by {
            if i < v.len() - 1 {
                assert(v.drop_last()[i] <= max_val(v.drop_last()));
            }
        }
    }
}

/// The first slot holding the greatest value: ties go to the smallest
/// index.
pub open spec fn first_max_slot(v: Seq<i64>) -> int
    decreases v.len(),
{
    if v.len() <= 1 {
        0
    } else {
        let r = first_max_slot(v.drop_last());
        if v.last() as int > v[r] as int {
            v.len() - 1
        } else {
            r
        }
    }
}

proof fn lemma_first_max_slot(v: Seq<i64>)
    requires
        v.len() > 0,
    ensures
        0 <= first_max_slot(v) < v.len(),
        forall|j: int| 0 <= j < v.len() ==> #[trigger] v[j] <= v[first_max_slot(v)],
        forall|j: int| 0 <= j < first_max_slot(v) ==> #[trigger] v[j] < v[first_max_slot(v)],
    decreases v.len(),
{
    if v.len() > 1 {
        let d = v.drop_last();
        lemma_first_max_slot(d);
        let rd = first_max_slot(d);
        assert(forall|j: int| 0 <= j < v.len() - 1 ==> v[j] == #[trigger] d[j]);
        let f = first_max_slot(v);
        assert forall|j: int| 0 <= j < v.len() implies #[trigger] v[j] <= v[f] by {
            if j < v.len() - 1 {
                assert(d[j] <= d[rd]);
            }
        }
        assert forall|j: int| 0 <= j < f implies #[trigger] v[j] < v[f] by {
            if v.last() as int > v[rd] as int {
                assert(d[j] <= d[rd]);
            } else {
                assert(d[j] < d[rd]);
            }
        }
    }
}

/// The first slot holding the greatest value: every value is at most
/// `v[r]`, and every earlier slot is strictly below it.
pub fn best_slot(v: &Vec<i64>) -> (r: usize)
    requires
        v@.len() > 0,
    ensures
        r < v@.len(),
        forall|j: int| 0 <= j < v@.len() ==> v@[j] <= v@[r as int],
        forall|j: int| 0 <= j < r ==> v@[j] < v@[r as int],
        v@[r as int] == max_val(v@),
        r == first_max_slot(v@),
{
    let mut best: usize = 0;
    let mut j: usize = 1;
    while j < v.len()
        invariant
            best < j <= v@.len(),
            forall|t: int| 0 <= t < j ==> v@[t] <= v@[best as int],
            forall|t: int| 0 <= t < best ==> v@[t] < v@[best as int],
        decreases v@.len() - j,
    {
        if v[j] > v[best] {
            best = j;
        }
        j = j + 1;
    }
    proof {
        lemma_max_val(v@);
        let i = choose|i: int| 0 <= i < v@.len() && v@[i] == max_val(v@);
        assert(v@[best as int] <= max_val(v@));
        lemma_first_max_slot(v@);
        let f = first_max_slot(v@);
        if f < best {
            assert(v@[f] < v@[best as int]);
            assert(v@[best as int] <= v@[f]);
        } else if best < f {
            assert(v@[best as int] < v@[f]);
            assert(v@[f] <= v@[best as int]);
        }
    }
    best
}

/// The action sitting at a value-table slot.
pub fn action_from_index(i: usize) -> (a: Action)
    requires
        i < 4,
    ensures
        a.index_spec() == i,
{
    match i {
        0 => Action::Draw,
        1 => Action::Stand,
        2 => Action::Double,
        _ => Action::Insurance,
    }
}

#[verifier::external_type_specification]
#[verifier::external_body]
#[verifier::reject_recursive_types(K)]
#[verifier::reject_recursive_types(V)]
#[verifier::reject_recursive_types(S)]
pub struct ExDashMap<K, V, S>(dashmap::DashMap<K, V, S>);

/// The concurrent table type the value table is built on.
pub type StateTable = dashmap::DashMap<State, Vec<i64>>;

/// What the concurrent table holds, as a map from state keys to value
/// vectors. States with equal views are equal under State's derived
/// `Eq`/`Hash`, so the view key identifies the entry.
pub uninterp spec fn table_contents(m: StateTable) -> Map<(Seq<u8>, u8, bool), Seq<i64>>;

/// A table with nothing registered.
pub open spec fn empty_contents() -> Map<(Seq<u8>, u8, bool), Seq<i64>> {
    Map::empty()
}

/// Relies on dashmap::DashMap::new: a fresh map holds no entries.
#[verifier::external_body]
fn table_new() -> (r: StateTable)
    ensures
        table_contents(r) == empty_contents(),
{
    dashmap::DashMap::new()
}

/// Relies on dashmap::DashMap::len: how many entries the map holds.
#[verifier::external_body]
fn table_len(m: &StateTable) -> (r: usize)
    ensures
        r == table_contents(*m).dom().len(),
{
    m.len()
}

/// Relies on dashmap::DashMap::contains_key.
#[verifier::external_body]
fn table_contains(m: &StateTable, s: &State) -> (r: bool)
    ensures
        r == table_contents(*m).dom().contains(s@),
{
    m.contains_key(s)
}

/// Relies on dashmap::DashMap::get: the value stored under the key,
/// cloned out of the guard.
#[verifier::external_body]
fn table_get(m: &StateTable, s: &State) -> (r: Option<Vec<i64>>)
    ensures
        match r {
            Some(v) => table_contents(*m).dom().contains(s@) && v@ == table_contents(*m)[s@],
            None => !table_contents(*m).dom().contains(s@),
        },
{
    m.get(s).map(|e| e.value().clone())
}

/// Relies on dashmap::DashMap::insert: the entry under the key is set.
#[verifier::external_body]
fn table_insert(m: &mut StateTable, s: State, v: Vec<i64>)
    ensures
        table_contents(*final(m)) == table_contents(*old(m)).insert(s@, v@),
{
    m.insert(s, v);
}

/// Relies on dashmap::DashMap::alter: the closure runs on the entry
/// under the key while that key's shard lock is held, so the read and
/// the write of one step are atomic per key; an absent key is left
/// alone. The closure only calls the library's own verified `apply_td`.
#[verifier::external_body]
fn table_alter_td(m: &mut StateTable, s: &State, idx: usize, target: i64)
    ensures
        table_contents(*final(m)) == if table_contents(*old(m)).dom().contains(s@) {
            table_contents(*old(m)).insert(
                s@,
                apply_td_spec(table_contents(*old(m))[s@], idx as int, target),
            )
        } else {
            table_contents(*old(m))
        },
{
    m.alter(s, |_, v| apply_td(v, idx, target));
}

/// Relies on dashmap::DashMap::iter: over a map no other thread is
/// touching it yields each entry exactly once, in no fixed order.
#[verifier::external_body]
fn table_entries(m: &StateTable) -> (r: Vec<(State, Vec<i64>)>)
    ensures
        r@.len() == table_contents(*m).dom().len(),
        forall|i: int|
            0 <= i < r@.len() ==> table_contents(*m).dom().contains(#[trigger] r@[i].0@)
                && r@[i].1@ == table_contents(*m)[r@[i].0@],
        forall|i: int, j: int| 0 <= i < j < r@.len() ==> r@[i].0@ != r@[j].0@,
{
    let mut out = Vec::new();
    for entry in m.iter() {
        out.push((entry.key().clone(), entry.value().clone()));
    }
    out
}

/// Relies on rand's thread_rng and Rng::gen_range: a value below the
/// bound; nothing is assumed of its distribution.
#[verifier::external_body]
fn rand_below(bound: u32) -> (r: u32)
    requires
        bound > 0,
    ensures
        r < bound,
{
    rand::Rng::gen_range(&mut rand::thread_rng(), 0..bound)
}

/// The shared action-value table: a concurrent map from RL states to
/// vectors of fixed-point action values (thousandths of a bet).
pub struct QTable {
    pub states: StateTable,
}

impl QTable {
    pub open spec fn contents(&self) -> Map<(Seq<u8>, u8, bool), Seq<i64>> {
        table_contents(self.states)
    }

    /// Every registered entry has the slot count fixed by its key's
    /// insurance-legality test, and bounded values.
    pub open spec fn wf(&self) -> bool {
        forall|k: (Seq<u8>, u8, bool)|
            #[trigger] self.contents().dom().contains(k) ==> entry_wf(self.contents()[k], k)
    }

    pub fn new() -> (r: QTable)
        ensures
            r.contents() == empty_contents(),
            r.wf(),
    {
        QTable { states: table_new() }
    }

    pub fn len(&self) -> (r: usize)
        ensures
            r == self.contents().dom().len(),
    {
        table_len(&self.states)
    }

    pub fn from(other: QTable) -> (r: QTable)
        ensures
            r.contents() == other.contents(),
    {
        QTable { states: other.states }
    }

    /// Idempotent lazy registration: an absent key is given a
    /// zero-initialized vector of 4 slots exactly when insurance is
    /// legal for that key, else 3; a present key is left alone.
    pub fn add_state(&mut self, state: State)
        requires
            old(self).wf(),
        ensures
            final(self).wf(),
            final(self).contents() == if old(self).contents().dom().contains(state@) {
                old(self).contents()
            } else {
                old(self).contents().insert(state@, zero_values(insurance_slots(state@)))
            },
    {
        if table_contains(&self.states, &state) {
            return ;
        }
        let actions: Vec<i64> = if state.croupier_first_card == 1 && state.player_cards.len() == 2
            && !state.insurance {
            vec![0i64, 0i64, 0i64, 0i64]
        } else {
            vec![0i64, 0i64, 0i64]
        };
        proof {
            assert(actions@ =~= zero_values(insurance_slots(state@)));
        }
        let ghost pre = self.contents();
        table_insert(&mut self.states, state, actions);
        proof {
            let ghost now = self.contents();
            assert forall|k: (Seq<u8>, u8, bool)| now.dom().contains(k) implies entry_wf(
                now[k],
                k,
            ) by {
                if k == state@ {
                    assert(now[k] == zero_values(insurance_slots(state@)));
                    assert forall|i: int| 0 <= i < now[k].len() implies -Q_BOUND <= #[trigger] now[k][i]
                        <= Q_BOUND by {
                        assert(now[k][i] == 0i64);
                    }
                } else {
                    assert(pre.dom().contains(k) && pre[k] == now[k]);
                }
            }
        }
    }

    /// Epsilon-greedy selection: with probability epsilon (in
    /// thousandths) a uniformly random slot among the key's legal ones,
    /// otherwise the first slot holding the greatest value. Registers
    /// the key first if it was never seen.
    pub fn get_best_action(&mut self, state: &State, epsilon_permille: u32) -> (a: Action)
        requires
            old(self).wf(),
        ensures
            final(self).wf(),
            final(self).contents() == if old(self).contents().dom().contains(state@) {
                old(self).contents()
            } else {
                old(self).contents().insert(state@, zero_values(insurance_slots(state@)))
            },
            final(self).contents().dom().contains(state@),
            a.index_spec() < insurance_slots(state@),
            epsilon_permille == 0 ==> a.index_spec() == first_max_slot(
                final(self).contents()[state@],
            ),
    {
        let rd = rand_below(1000);
        if !table_contains(&self.states, state) {
            self.add_state(state.clone());
        }
        if rd < epsilon_permille && state.croupier_first_card == 1 && state.player_cards.len() == 2
            && !state.insurance {
            let pick = rand_below(4);
            action_from_index(pick as usize)
        } else if rd < epsilon_permille {
            let pick = rand_below(3);
            action_from_index(pick as usize)
        } else {
            let values = match table_get(&self.states, state) {
                Some(v) => v,
                None => {
                    proof {
                        assert(false);
                    }
                    Vec::new()
                },
            };
            proof {
                assert(self.contents().dom().contains(state@));
                assert(entry_wf(self.contents()[state@], state@));
            }
            let bi = best_slot(&values);
            action_from_index(bi)
        }
    }

    /// One temporal-difference update toward the single terminal reward:
    /// a zero reward is an explicit no-op; otherwise exactly the acted
    /// slot of the state's vector moves one tenth of the way toward
    /// `reward` plus, when the episode went on, half the best value of
    /// the successor state.
    pub fn update(
        &mut self,
        state: &State,
        next_state: &State,
        action: &Action,
        next_action: &Option<Action>,
        reward: i64,
    )
        requires
            old(self).wf(),
            -REWARD_BOUND <= reward <= REWARD_BOUND,
            old(self).contents().dom().contains(state@),
            action.index_spec() < old(self).contents()[state@].len(),
            next_action is Some ==> old(self).contents().dom().contains(next_state@),
        ensures
            final(self).wf(),
            reward == 0 ==> final(self).contents() == old(self).contents(),
            reward != 0 ==> final(self).contents() == old(self).contents().insert(
                state@,
                apply_td_spec(
                    old(self).contents()[state@],
                    action.index_spec(),
                    td_target(old(self).contents(), next_state@, *next_action, reward) as i64,
                ),
            ),
    {
        if reward == 0 {
            return ;
        }
        let target: i64 = match next_action {
            Some(_) => {
                let next_values = match table_get(&self.states, next_state) {
                    Some(v) => v,
                    None => {
                        proof {
                            assert(false);
                        }
                        Vec::new()
                    },
                };
                let bi = best_slot(&next_values);
                let mx = next_values[bi];
                let half: i64 = if mx >= 0 {
                    ((mx as u64) / 2) as i64
                } else {
                    -((((-mx) as u64) / 2) as i64)
                };
                reward + half
            },
            None => reward,
        };
        let idx = action.into_index();
        let ghost pre = self.contents();
        table_alter_td(&mut self.states, state, idx, target);
        proof {
            lemma_td_step_bounds(pre[state@][action.index_spec()] as i64, target);
            let nv = apply_td_spec(pre[state@], action.index_spec(), target);
            assert(entry_wf(nv, state@)) by {
                assert forall|i: int| 0 <= i < nv.len() implies -Q_BOUND <= #[trigger] nv[i]
                    <= Q_BOUND by {
                    if i != action.index_spec() {
                        assert(nv[i] == pre[state@][i]);
                    }
                }
            }
        }
    }

    /// Drives one simulated round end-to-end: deals the opening hands,
    /// selects actions epsilon-greedily while the round is active,
    /// records the visited (state, action) trajectory, runs the dealer's
    /// draw-to-17 rule, then walks the trajectory in step order and
    /// updates every step toward the single terminal reward, which it
    /// returns. The reward is the payout in half-bet units scaled by
    /// `half_bet_millis` (the half-bet in thousandths of a bet). Fails
    /// with `EmptyShoe` when the shoe runs out mid-round.
    #[verifier::rlimit(50)]
    pub fn trainnig_q(
        &mut self,
        game_state: &mut GameState,
        half_bet_millis: i64,
        epsilon_permille: u32,
    ) -> (r: Result<i64, GameError>)
        requires
            old(self).wf(),
            old(game_state).wf(),
            old(game_state).continue_game,
            old(game_state).player_cards@.len() == 0,
            old(game_state).croupier_cards@.len() == 0,
            0 <= half_bet_millis <= 100_000_000,
        ensures
            final(self).wf(),
            final(game_state).wf(),
            forall|k: (Seq<u8>, u8, bool)|
                #[trigger] old(self).contents().dom().contains(k)
                    ==> final(self).contents().dom().contains(k),
            old(game_state).packet@.len() < 4 ==> r is Err,
            old(game_state).packet@.len() >= 40 ==> r is Ok,
            r matches Ok(reward) ==> episode_post(
                old(self).contents(),
                final(self).contents(),
                *final(game_state),
                half_bet_millis,
                reward,
            ),
            r is Err ==> r == Err::<i64, GameError>(GameError::EmptyShoe),
    {
        match deal_opening(game_state) {
            Ok(u) => u,
            Err(e) => {
                return Err(e);
            },
        };
        let mut trajectory: Vec<(State, Option<Action>)> = Vec::new();
        let ghost mut tkeys: Seq<((Seq<u8>, u8, bool), Option<Action>)> = Seq::empty();
        while game_state.continue_game
            invariant
                self.wf(),
                game_state.wf(),
                game_state.croupier_cards@.len() == 2,
                game_state.player_cards@.len() <= 21,
                game_state.player_cards@.len() + game_state.packet@.len() + 2 == old(
                    game_state,
                ).packet@.len(),
                tkeys.len() == trajectory@.len(),
                forall|i: int|
                    0 <= i < tkeys.len() ==> #[trigger] tkeys[i] == (
                        trajectory@[i].0@,
                        trajectory@[i].1,
                    ),
                self.contents() == register_keys(old(self).contents(), tkeys, tkeys.len() as int),
                forall|t: int|
                    0 <= t < trajectory@.len() ==> self.contents().dom().contains(
                        #[trigger] trajectory@[t].0@,
                    ),
                forall|t: int|
                    0 <= t < trajectory@.len() ==> ((#[trigger] trajectory@[t].1) matches Some(act)
                        && act.index_spec() < insurance_slots(trajectory@[t].0@)),
                forall|k: (Seq<u8>, u8, bool)|
                    #[trigger] old(self).contents().dom().contains(k)
                        ==> self.contents().dom().contains(k),
            decreases
                    (if game_state.continue_game {
                        1int
                    } else {
                        0int
                    }),
                    game_state.packet@.len(),
                    (if game_state.insurance {
                        0int
                    } else {
                        1int
                    }),
        {
            proof {
                lemma_sum_bounds(game_state.player_cards@);
            }
            let state = State::from(game_state);
            let action = self.get_best_action(&state, epsilon_permille);
            let ghost key = state@;
            trajectory.push((state, Some(action)));
            proof {
                let prev = tkeys;
                tkeys = tkeys.push((key, Some(action)));
                lemma_register_keys_prefix(old(self).contents(), tkeys, prev, prev.len() as int);
                assert(self.contents() == register_keys(
                    old(self).contents(),
                    tkeys,
                    tkeys.len() as int,
                ));
            }
            match game_state.play(action) {
                Ok(new_state) => {
                    proof {
                        if action is Insurance {
                            assert(insurance_slots(key) == 4);
                        }
                    }
                    *game_state = new_state;
                },
                Err(e) => {
                    proof {
                        if action is Insurance {
                            assert(insurance_slots(key) == 4);
                            assert(game_state.insurance_available());
                            assert(false);
                        }
                        if old(game_state).packet@.len() >= 40 {
                            assert(game_state.packet@.len() > 0);
                            assert(false);
                        }
                    }
                    return Err(e);
                },
            }
        }
        let state = State::from(game_state);
        let ghost terminal_key = state@;
        self.add_state(state.clone());
        trajectory.push((state, None));
        proof {
            let prev = tkeys;
            tkeys = tkeys.push((terminal_key, None));
            lemma_register_keys_prefix(old(self).contents(), tkeys, prev, prev.len() as int);
            assert(self.contents() == register_keys(
                old(self).contents(),
                tkeys,
                tkeys.len() as int,
            ));
        }
        match run_croupier(game_state) {
            Ok(u) => u,
            Err(e) => {
                proof {
                    if old(game_state).packet@.len() >= 40 {
                        assert(false);
                    }
                }
                return Err(e);
            },
        };
        proof {
            assert(rl_key(*game_state) == terminal_key);
        }
        let units = game_state.results();
        proof {
            assert(-5 <= units <= 7);
            assert(-700_000_000 <= units * half_bet_millis <= 700_000_000) by (nonlinear_arith)
                requires
                    -5 <= units <= 7,
                    0 <= half_bet_millis <= 100_000_000,
            ;
        }
        let reward = units * half_bet_millis;
        let ghost registered = self.contents();
        let mut t: usize = 0;
        while t < trajectory.len() - 1
            invariant
                self.wf(),
                trajectory@.len() >= 1,
                t <= trajectory@.len() - 1,
                -REWARD_BOUND <= reward <= REWARD_BOUND,
                tkeys.len() == trajectory@.len(),
                forall|i: int|
                    0 <= i < tkeys.len() ==> #[trigger] tkeys[i] == (
                        trajectory@[i].0@,
                        trajectory@[i].1,
                    ),
                trajectory@[trajectory@.len() - 1].1 is None,
                trajectory@[trajectory@.len() - 1].0@ == terminal_key,
                self.contents() == td_updates(registered, tkeys, t as int, reward),
                forall|u: int|
                    0 <= u < trajectory@.len() ==> self.contents().dom().contains(
                        #[trigger] trajectory@[u].0@,
                    ),
                forall|u: int|
                    0 <= u < trajectory@.len() - 1 ==> ((#[trigger] trajectory@[u].1) matches Some(
                    act) && act.index_spec() < insurance_slots(trajectory@[u].0@)),
                forall|k: (Seq<u8>, u8, bool)|
                    #[trigger] old(self).contents().dom().contains(k)
                        ==> self.contents().dom().contains(k),
                self.contents().dom().contains(terminal_key),
            decreases trajectory@.len() - t,
        {
            let action = match &trajectory[t].1 {
                Some(a) => *a,
                None => {
                    proof {
                        assert(false);
                    }
                    Action::Stand
                },
            };
            proof {
                assert(self.contents().dom().contains(trajectory@[t as int].0@));
                assert(entry_wf(self.contents()[trajectory@[t as int].0@], trajectory@[t as int].0@));
            }
            self.update(
                &trajectory[t].0,
                &trajectory[t + 1].0,
                &action,
                &trajectory[t + 1].1,
                reward,
            );
            proof {
                if reward != 0 {
                    assert(tkeys[t as int].0 == trajectory@[t as int].0@);
                    assert(step_action_index(tkeys[t as int].1) == action.index_spec());
                    assert(tkeys[t as int + 1] == (
                        trajectory@[t as int + 1].0@,
                        trajectory@[t as int + 1].1,
                    ));
                }
                assert(self.contents() == td_updates(registered, tkeys, t as int + 1, reward));
            }
            t = t + 1;
        }
        proof {
            assert(trajectory_wf(tkeys));
            assert(tkeys.last().0 == rl_key(*game_state));
            assert(episode_applied(
                old(self).contents(),
                self.contents(),
                rl_key(*game_state),
                tkeys,
                reward,
            ));
            assert(episode_post(
                old(self).contents(),
                self.contents(),
                *game_state,
                half_bet_millis,
                reward,
            ));
        }
        Ok(reward)
    }

    /// A point-in-time copy of every entry, in no fixed order.
    pub fn snapshot(&self) -> (r: Vec<(State, Vec<i64>)>)
        ensures
            r@.len() == self.contents().dom().len(),
            forall|i: int|
                0 <= i < r@.len() ==> self.contents().dom().contains(#[trigger] r@[i].0@)
                    && r@[i].1@ == self.contents()[r@[i].0@],
            forall|i: int, j: int| 0 <= i < j < r@.len() ==> r@[i].0@ != r@[j].0@,
    {
        table_entries(&self.states)
    }
}

/// A non-trivial temporal-difference step touches exactly the acted
/// slot, moving it by one tenth of its gap to the target; every other
/// slot and the vector's length are left as they were.
pub proof fn lemma_apply_td_one_slot(v: Seq<i64>, idx: int, target: i64)
    requires
        0 <= idx < v.len(),
        -Q_BOUND <= v[idx] <= Q_BOUND,
        -Q_BOUND <= target <= Q_BOUND,
    ensures
        apply_td_spec(v, idx, target).len() == v.len(),
        forall|j: int|
            0 <= j < v.len() && j != idx ==> apply_td_spec(v, idx, target)[j] == v[j],
        apply_td_spec(v, idx, target)[idx] == v[idx] + div10_toward_zero(target - v[idx]),
{
    lemma_td_step_bounds(v[idx], target);
}

/// The target of one update: the terminal reward, plus half the best
/// value of the successor state while the episode went on.
pub open spec fn td_target(
    contents: Map<(Seq<u8>, u8, bool), Seq<i64>>,
    next_key: (Seq<u8>, u8, bool),
    next_action: Option<Action>,
    reward: i64,
) -> int {
    if next_action is Some {
        reward + half_toward_zero(max_val(contents[next_key]))
    } else {
        reward as int
    }
}

/// The table slot an episode step acted on; the terminal endpoint
/// carries no action and no step reads this of it.
pub open spec fn step_action_index(a: Option<Action>) -> int {
    match a {
        Some(act) => act.index_spec(),
        None => 0,
    }
}

/// A recorded episode: action-bearing steps, then one terminal endpoint
/// that carries no action.
pub open spec fn trajectory_wf(traj: Seq<((Seq<u8>, u8, bool), Option<Action>)>) -> bool {
    &&& traj.len() >= 1
    &&& traj.last().1 is None
    &&& forall|i: int| 0 <= i < traj.len() - 1 ==> (#[trigger] traj[i].1) is Some
}

/// The table after the first `i` keys of the trajectory are lazily
/// registered, in step order.
pub open spec fn register_keys(
    m: Map<(Seq<u8>, u8, bool), Seq<i64>>,
    traj: Seq<((Seq<u8>, u8, bool), Option<Action>)>,
    i: int,
) -> Map<(Seq<u8>, u8, bool), Seq<i64>>
    decreases i,
{
    if i <= 0 {
        m
    } else {
        let m1 = register_keys(m, traj, i - 1);
        let k = traj[i - 1].0;
        if m1.dom().contains(k) {
            m1
        } else {
            m1.insert(k, zero_values(insurance_slots(k)))
        }
    }
}

proof fn lemma_register_keys_prefix(
    m: Map<(Seq<u8>, u8, bool), Seq<i64>>,
    t1: Seq<((Seq<u8>, u8, bool), Option<Action>)>,
    t2: Seq<((Seq<u8>, u8, bool), Option<Action>)>,
    i: int,
)
    requires
        forall|j: int| 0 <= j < i ==> #[trigger] t1[j] == t2[j],
    ensures
        register_keys(m, t1, i) == register_keys(m, t2, i),
    decreases i,
{
    if i > 0 {
        lemma_register_keys_prefix(m, t1, t2, i - 1);
    }
}

/// The table after the first `i` transitions of the trajectory are
/// updated, in forward step order, each toward the single terminal
/// reward; a zero reward updates nothing.
pub open spec fn td_updates(
    m: Map<(Seq<u8>, u8, bool), Seq<i64>>,
    traj: Seq<((Seq<u8>, u8, bool), Option<Action>)>,
    i: int,
    reward: i64,
) -> Map<(Seq<u8>, u8, bool), Seq<i64>>
    decreases i,
{
    if i <= 0 || reward == 0 {
        m
    } else {
        let m1 = td_updates(m, traj, i - 1, reward);
        let s = traj[i - 1];
        let n = traj[i];
        m1.insert(
            s.0,
            apply_td_spec(m1[s.0], step_action_index(s.1), td_target(m1, n.0, n.1, reward) as i64),
        )
    }
}

/// A finished training round: the game ended, the dealer drew to 17,
/// the returned reward is the final payout in half-bet units scaled by
/// the half-bet, and some recorded trajectory, ending at the terminal
/// state's key, was registered and updated into the table.
pub open spec fn episode_post(
    pre: Map<(Seq<u8>, u8, bool), Seq<i64>>,
    post: Map<(Seq<u8>, u8, bool), Seq<i64>>,
    gs: GameState,
    half_bet_millis: i64,
    reward: i64,
) -> bool {
    &&& !gs.continue_game
    &&& gs.croupier_cards@.len() > 0
    &&& post.dom().contains(rl_key(gs))
    &&& sum_spec(gs.croupier_cards@) >= 17
    &&& reward == GameState::payout_units_spec(
        gs.insurance,
        sum_spec(gs.croupier_cards@),
        sum_spec(gs.player_cards@),
        gs.double,
    ) * half_bet_millis
    &&& exists|traj: Seq<((Seq<u8>, u8, bool), Option<Action>)>|
        episode_applied(pre, post, rl_key(gs), traj, reward)
}

/// One episode's whole effect on the table: the trajectory's keys were
/// registered lazily in step order, then every transition was updated
/// exactly once, in forward step order, toward the one terminal reward;
/// the endpoint holds the terminal state's key and no action.
pub open spec fn episode_applied(
    pre: Map<(Seq<u8>, u8, bool), Seq<i64>>,
    post: Map<(Seq<u8>, u8, bool), Seq<i64>>,
    terminal: (Seq<u8>, u8, bool),
    traj: Seq<((Seq<u8>, u8, bool), Option<Action>)>,
    reward: i64,
) -> bool {
    &&& trajectory_wf(traj)
    &&& traj.last().0 == terminal
    &&& post == td_updates(
        register_keys(pre, traj, traj.len() as int),
        traj,
        traj.len() as int - 1,
        reward,
    )
}

} // verus!
