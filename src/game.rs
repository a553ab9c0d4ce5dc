//! The state machine of one round: `Forming` while cards are issued, `Active`
//! while numbers are called, `Finished` once a winner is recorded or every
//! number has been called. Winners are found only through players' claims: a
//! tick never scans the cards, and the first successful claim ends the round.
//! Entropy is fetched by the caller before an operation and handed in as bytes,
//! so that each operation reads, checks and commits the state in one step.

use std::collections::HashSet;
use vstd::prelude::*;

use crate::card::{
    card_from_entropy, create_random_card, domain_seq, in_domain, lemma_domain_distinct,
    lemma_issued_card_valid, valid_card_grid, Card, CardView, PlayerId, MAX_NUMBER,
};
use crate::error::GameError;
use crate::shuffle::{lemma_shuffle_keeps_distinct_values, shuffle_with_entropy, shuffled};
use crate::win::{has_bingo, is_winner};

verus! {

broadcast use vstd::std_specs::hash::group_hash_axioms;

/// Number of players whose registration starts a round.
pub const REQUIRED_PLAYERS: usize = 2;

/// The lifecycle of a round.
#[derive(Clone, Copy, Debug, PartialEq, Eq, Structural)]
pub enum RoundState {
    /// Cards are being issued; no number has been called.
    Forming,
    /// Numbers are being called; no card can be issued or replaced.
    Active,
    /// A winner was recorded or every number was called.
    Finished,
}

/// The outcome of one tick of the number-calling loop.
#[derive(Clone, Copy, Debug, PartialEq, Eq, Structural)]
pub enum Tick {
    /// The round is not active: nothing happened.
    Idle,
    /// This number was called.
    Drawn(u32),
    /// Every number had been called: the round is now finished.
    Exhausted,
}

/// What a game is: the cards in order of issue, the called numbers, the round's
/// state, the winners in order, and the quorum.
pub struct GameModel {
    pub cards: Seq<CardView>,
    pub called: Set<u32>,
    pub round: RoundState,
    pub winners: Seq<Seq<u8>>,
    pub quorum: nat,
}

/// Whether some card belongs to `p`.
pub open spec fn holds_card(cards: Seq<CardView>, p: Seq<u8>) -> bool {
    exists|i: int| 0 <= i < cards.len() && (#[trigger] cards[i]).owner == p
}

/// The card that belongs to `p` (meaningful where `holds_card(cards, p)`).
pub open spec fn card_of(cards: Seq<CardView>, p: Seq<u8>) -> CardView {
    cards[choose|i: int| 0 <= i < cards.len() && (#[trigger] cards[i]).owner == p]
}

/// The invariant of every game: one card per player, each well formed; every
/// called number in the domain; nothing called and no winner while forming.
pub open spec fn model_wf(m: GameModel) -> bool {
    &&& forall|i: int, j: int|
        0 <= i < j < m.cards.len() ==> (#[trigger] m.cards[i]).owner != (#[trigger] m.cards[j]).owner
    &&& forall|i: int| 0 <= i < m.cards.len() ==> valid_card_grid((#[trigger] m.cards[i]).grid)
    &&& m.called.finite()
    &&& forall|x: u32| #[trigger] m.called.contains(x) ==> in_domain(x)
    &&& m.round == RoundState::Forming ==> m.called.is_empty() && m.winners.len() == 0
}

/// A game before any card is issued.
pub open spec fn fresh_model(quorum: nat) -> GameModel {
    GameModel {
        cards: Seq::empty(),
        called: Set::empty(),
        round: RoundState::Forming,
        winners: Seq::empty(),
        quorum,
    }
}

/// The game once its round has started.
pub open spec fn started(m: GameModel) -> GameModel {
    GameModel { round: RoundState::Active, called: Set::empty(), winners: Seq::empty(), ..m }
}

/// Registration of `p` with entropy `e`: the new game and the outcome.
pub open spec fn register_step(m: GameModel, p: Seq<u8>, e: Seq<u8>) -> (GameModel, Result<CardView, GameError>) {
    if e.len() == 0 {
        (m, Err(GameError::EntropyUnavailable))
    } else if m.round != RoundState::Forming {
        (m, Err(GameError::AlreadyActive))
    } else if holds_card(m.cards, p) {
        (m, Err(GameError::AlreadyRegistered))
    } else {
        let card = card_from_entropy(p, e);
        let joined = GameModel { cards: m.cards.push(card), ..m };
        (if joined.cards.len() >= joined.quorum { started(joined) } else { joined }, Ok(card))
    }
}

/// The cards with `card` in place of its owner's card, or added when its owner has none.
pub open spec fn replace_or_add(cards: Seq<CardView>, card: CardView) -> Seq<CardView> {
    if holds_card(cards, card.owner) {
        Seq::new(cards.len(), |i: int| if cards[i].owner == card.owner { card } else { cards[i] })
    } else {
        cards.push(card)
    }
}

/// Replacement of the card of `p` with entropy `e`: the new game and the outcome.
pub open spec fn reset_step(m: GameModel, p: Seq<u8>, e: Seq<u8>) -> (GameModel, Result<CardView, GameError>) {
    if e.len() == 0 {
        (m, Err(GameError::EntropyUnavailable))
    } else if m.round != RoundState::Forming {
        (m, Err(GameError::AlreadyActive))
    } else {
        let card = card_from_entropy(p, e);
        (GameModel { cards: replace_or_add(m.cards, card), ..m }, Ok(card))
    }
}

/// The numbers from 1 to `n` not yet called, in increasing order.
pub open spec fn remaining_upto(called: Set<u32>, n: nat) -> Seq<u32>
    decreases n,
{
    if n == 0 {
        Seq::empty()
    } else {
        let prev = remaining_upto(called, (n - 1) as nat);
        if called.contains(n as u32) {
            prev
        } else {
            prev.push(n as u32)
        }
    }
}

/// The numbers of the domain not yet called, in increasing order.
pub open spec fn remaining_numbers(called: Set<u32>) -> Seq<u32> {
    remaining_upto(called, MAX_NUMBER as nat)
}

/// The number that a tick calls: the first of the remaining numbers once shuffled with `e`.
pub open spec fn next_draw(called: Set<u32>, e: Seq<u8>) -> u32 {
    shuffled(remaining_numbers(called), e)[0]
}

proof fn lemma_remaining_upto(called: Set<u32>, n: nat)
    requires
        n <= MAX_NUMBER,
    ensures
        remaining_upto(called, n).no_duplicates(),
        forall|x: u32|
            #[trigger] remaining_upto(called, n).contains(x) <==> (1 <= x <= n && !called.contains(x)),
    decreases n,
{
    if n > 0 {
        lemma_remaining_upto(called, (n - 1) as nat);
        let prev = remaining_upto(called, (n - 1) as nat);
        assert((n as u32) as int == n);
        if !called.contains(n as u32) {
            let q = prev.push(n as u32);
            assert forall|x: u32| #[trigger] q.contains(x) <==> (1 <= x <= n && !called.contains(x)) by {
                if q.contains(x) {
                    let k = choose|k: int| 0 <= k < q.len() && #[trigger] q[k] == x;
                    if k < prev.len() {
                        assert(prev[k] == x);
                        assert(prev.contains(x));
                    }
                }
                if 1 <= x <= n && !called.contains(x) {
                    if x as int == n {
                        assert(q[prev.len() as int] == x);
                    } else {
                        assert(prev.contains(x));
                        let k = choose|k: int| 0 <= k < prev.len() && #[trigger] prev[k] == x;
                        assert(q[k] == x);
                    }
                }
            }
            assert forall|i: int, j: int|
                0 <= i < prev.len() + 1 && 0 <= j < prev.len() + 1 && i != j implies #[trigger] prev.push(
                n as u32,
            )[i] != #[trigger] prev.push(n as u32)[j] by {
                if i == prev.len() {
                    assert(prev.contains(prev[j]));
                } else if j == prev.len() {
                    assert(prev.contains(prev[i]));
                }
            }
        } else {
            assert forall|x: u32| #[trigger] prev.contains(x) <==> (1 <= x <= n && !called.contains(x)) by {
                if x as int == n {
                    assert(!(1 <= x <= n - 1));
                }
            }
        }
    }
}

/// The remaining numbers are exactly the uncalled numbers of the domain, once each;
/// a tick's draw is one of them.
pub proof fn lemma_remaining_numbers(called: Set<u32>, e: Seq<u8>)
    ensures
        remaining_numbers(called).no_duplicates(),
        forall|x: u32|
            #[trigger] remaining_numbers(called).contains(x) <==> (in_domain(x) && !called.contains(x)),
        e.len() > 0 && remaining_numbers(called).len() > 0 ==> in_domain(next_draw(called, e))
            && !called.contains(next_draw(called, e)),
{
    lemma_remaining_upto(called, MAX_NUMBER as nat);
    let rem = remaining_numbers(called);
    if e.len() > 0 && rem.len() > 0 {
        lemma_shuffle_keeps_distinct_values(rem, e);
        assert(shuffled(rem, e).contains(shuffled(rem, e)[0]));
        assert(rem.contains(next_draw(called, e)));
    }
}

/// The game with `n` recorded as called.
pub open spec fn with_call(m: GameModel, n: u32) -> GameModel {
    GameModel { called: m.called.insert(n), ..m }
}

/// Manual start: the new game and the outcome.
pub open spec fn start_step(m: GameModel) -> (GameModel, Result<(), GameError>) {
    if m.round != RoundState::Forming {
        (m, Err(GameError::AlreadyActive))
    } else if m.cards.len() < m.quorum {
        (m, Err(GameError::QuorumNotMet))
    } else {
        (started(m), Ok(()))
    }
}

/// Recording `n` as called: the new game and whether it was recorded.
pub open spec fn call_step(m: GameModel, n: u32) -> (GameModel, bool) {
    if m.round == RoundState::Active && in_domain(n) && !m.called.contains(n) {
        (with_call(m, n), true)
    } else {
        (m, false)
    }
}

/// One tick of the number-calling loop with entropy `e`: the new game and the outcome.
pub open spec fn advance_step(m: GameModel, e: Seq<u8>) -> (GameModel, Result<Tick, GameError>) {
    if m.round != RoundState::Active {
        (m, Ok(Tick::Idle))
    } else if remaining_numbers(m.called).len() == 0 {
        (GameModel { round: RoundState::Finished, ..m }, Ok(Tick::Exhausted))
    } else if e.len() == 0 {
        (m, Err(GameError::EntropyUnavailable))
    } else {
        (with_call(m, next_draw(m.called, e)), Ok(Tick::Drawn(next_draw(m.called, e))))
    }
}

/// A win claim by `p`: the new game and the outcome.
pub open spec fn claim_step(m: GameModel, p: Seq<u8>) -> (GameModel, Result<bool, GameError>) {
    if !holds_card(m.cards, p) {
        (m, Err(GameError::PlayerNotFound))
    } else if m.round == RoundState::Active && has_bingo(card_of(m.cards, p).grid, m.called) {
        (GameModel { winners: m.winners.push(p), round: RoundState::Finished, ..m }, Ok(true))
    } else {
        (m, Ok(false))
    }
}

/// Registers each player of `players` in turn, with the entropy block of the same index.
pub open spec fn register_all(m: GameModel, players: Seq<Seq<u8>>, blocks: Seq<Seq<u8>>) -> GameModel
    decreases players.len(),
{
    if players.len() == 0 {
        m
    } else {
        register_step(
            register_all(m, players.drop_last(), blocks.drop_last()),
            players.last(),
            blocks.last(),
        ).0
    }
}

proof fn lemma_register_prefix(quorum: nat, players: Seq<Seq<u8>>, blocks: Seq<Seq<u8>>, k: nat)
    requires
        k <= players.len(),
        k <= quorum,
        players.len() == blocks.len(),
        players.no_duplicates(),
        forall|i: int| 0 <= i < blocks.len() ==> (#[trigger] blocks[i]).len() > 0,
    ensures
        ({
            let m = register_all(fresh_model(quorum), players.take(k as int), blocks.take(k as int));
            &&& m.round == (if k == quorum && k > 0 { RoundState::Active } else { RoundState::Forming })
            &&& m.cards.len() == k
            &&& m.quorum == quorum
            &&& forall|i: int| 0 <= i < k ==> (#[trigger] m.cards[i]).owner == players[i]
        }),
    decreases k,
{
    if k > 0 {
        lemma_register_prefix(quorum, players, blocks, (k - 1) as nat);
        let ps = players.take(k as int);
        let bs = blocks.take(k as int);
        assert(ps.drop_last() =~= players.take(k - 1));
        assert(bs.drop_last() =~= blocks.take(k - 1));
        let prev = register_all(fresh_model(quorum), players.take(k - 1), blocks.take(k - 1));
        assert(!holds_card(prev.cards, players[k - 1])) by {
            if holds_card(prev.cards, players[k - 1]) {
                let i = choose|i: int| 0 <= i < prev.cards.len() && (#[trigger] prev.cards[i]).owner == players[k - 1];
                assert(players[i] == players[k - 1]);
            }
        }
        assert(blocks[k - 1].len() > 0);
        let m = register_all(fresh_model(quorum), ps, bs);
        assert(m == register_step(prev, players[k - 1], blocks[k - 1]).0);
        assert forall|i: int| 0 <= i < k implies (#[trigger] m.cards[i]).owner == players[i] by {
            if i < k - 1 {
                assert(m.cards[i] == prev.cards[i]);
            }
        }
    } else {
        assert(players.take(0).len() == 0);
    }
}

/// The quorum rule: with a quorum of `quorum` players, registering `quorum`
/// distinct players one after another succeeds each time, keeps the round
/// forming until the last of them, and the last starts it; a further
/// registration is refused with `AlreadyActive`.
pub proof fn lemma_quorum_starts_round_once(
    quorum: nat,
    players: Seq<Seq<u8>>,
    blocks: Seq<Seq<u8>>,
    late: Seq<u8>,
    late_block: Seq<u8>,
)
    requires
        quorum >= 1,
        players.len() == quorum,
        blocks.len() == quorum,
        players.no_duplicates(),
        forall|i: int| 0 <= i < blocks.len() ==> (#[trigger] blocks[i]).len() > 0,
        late_block.len() > 0,
    ensures
        forall|k: int|
            0 <= k < quorum ==> {
                let before = #[trigger] register_all(fresh_model(quorum), players.take(k), blocks.take(k));
                &&& before.round == RoundState::Forming
                &&& register_step(before, players[k], blocks[k]).1 == Ok::<CardView, GameError>(
                    card_from_entropy(players[k], blocks[k]),
                )
            },
        register_all(fresh_model(quorum), players, blocks).round == RoundState::Active,
        register_step(register_all(fresh_model(quorum), players, blocks), late, late_block).1
            == Err::<CardView, GameError>(GameError::AlreadyActive),
{
    assert forall|k: int| 0 <= k < quorum implies {
        let before = #[trigger] register_all(fresh_model(quorum), players.take(k), blocks.take(k));
        &&& before.round == RoundState::Forming
        &&& register_step(before, players[k], blocks[k]).1 == Ok::<CardView, GameError>(
            card_from_entropy(players[k], blocks[k]),
        )
    } by {
        lemma_register_prefix(quorum, players, blocks, k as nat);
        let before = register_all(fresh_model(quorum), players.take(k), blocks.take(k));
        assert(!holds_card(before.cards, players[k])) by {
            if holds_card(before.cards, players[k]) {
                let i = choose|i: int| 0 <= i < before.cards.len() && (#[trigger] before.cards[i]).owner == players[k];
                assert(players[i] == players[k]);
            }
        }
        assert(blocks[k].len() > 0);
    }
    lemma_register_prefix(quorum, players, blocks, quorum);
    assert(players.take(quorum as int) =~= players);
    assert(blocks.take(quorum as int) =~= blocks);
}

/// Called numbers stay within the domain: no number is called twice, so there are
/// never more than `MAX_NUMBER` of them, and a tick that draws calls a number
/// that had not been called before.
pub proof fn lemma_called_numbers_bounded(m: GameModel, e: Seq<u8>)
    requires
        model_wf(m),
    ensures
        m.called.len() <= MAX_NUMBER,
        advance_step(m, e).1 matches Ok(Tick::Drawn(n)) ==> !m.called.contains(n) && in_domain(n)
            && advance_step(m, e).0.called.len() == m.called.len() + 1,
{
    lemma_domain_distinct();
    let dom = domain_seq().to_set();
    domain_seq().unique_seq_to_set();
    assert(m.called.subset_of(dom)) by {
        assert forall|x: u32| m.called.contains(x) implies dom.contains(x) by {
            assert(domain_seq().contains(x));
        }
    }
    vstd::set_lib::lemma_len_subset(m.called, dom);
    lemma_remaining_numbers(m.called, e);
}

/// A finished round is frozen: no operation changes its cards, its called
/// numbers, its winners or its state.
pub proof fn lemma_finished_is_frozen(m: GameModel, p: Seq<u8>, e: Seq<u8>, n: u32)
    requires
        m.round == RoundState::Finished,
    ensures
        register_step(m, p, e).0 == m,
        reset_step(m, p, e).0 == m,
        start_step(m).0 == m,
        call_step(m, n).0 == m,
        advance_step(m, e).0 == m,
        claim_step(m, p).0 == m,
{
}

/// No operation removes a player: the number of cards never decreases.
pub proof fn lemma_player_count_never_decreases(m: GameModel, p: Seq<u8>, e: Seq<u8>, n: u32)
    ensures
        register_step(m, p, e).0.cards.len() >= m.cards.len(),
        reset_step(m, p, e).0.cards.len() >= m.cards.len(),
        start_step(m).0.cards.len() == m.cards.len(),
        call_step(m, n).0.cards.len() == m.cards.len(),
        advance_step(m, e).0.cards.len() == m.cards.len(),
        claim_step(m, p).0.cards.len() == m.cards.len(),
{
}

pub open spec fn card_result_view(r: Result<Card, GameError>) -> Result<CardView, GameError> {
    match r {
        Ok(c) => Ok(c@),
        Err(e) => Err(e),
    }
}

/// The state of one game: the single owner of all shared data.
pub struct GameState {
    cards: Vec<Card>,
    called_numbers: HashSet<u32>,
    round: RoundState,
    winners: Vec<PlayerId>,
    quorum: usize,
}

impl View for GameState {
    type V = GameModel;

    closed spec fn view(&self) -> GameModel {
        GameModel {
            cards: self.cards@.map_values(|c: Card| c@),
            called: self.called_numbers@,
            round: self.round,
            winners: self.winners@.map_values(|p: PlayerId| p@),
            quorum: self.quorum as nat,
        }
    }
}

impl GameState {
    pub open spec fn wf(&self) -> bool {
        model_wf(self@)
    }

    /// A game whose round starts once `REQUIRED_PLAYERS` players hold a card.
    pub fn new() -> (g: GameState)
        ensures
            g@ == fresh_model(REQUIRED_PLAYERS as nat),
            g.wf(),
    {
        GameState::with_quorum(REQUIRED_PLAYERS)
    }

    /// A game whose round starts once `quorum` players hold a card.
    pub fn with_quorum(quorum: usize) -> (g: GameState)
        ensures
            g@ == fresh_model(quorum as nat),
            g.wf(),
    {
        let g = GameState {
            cards: Vec::new(),
            called_numbers: HashSet::new(),
            round: RoundState::Forming,
            winners: Vec::new(),
            quorum,
        };
        assert(g@.cards =~= Seq::<CardView>::empty());
        assert(g@.winners =~= Seq::<Seq<u8>>::empty());
        g
    }

    pub fn round(&self) -> (r: RoundState)
        ensures
            r == self@.round,
    {
        self.round
    }

    pub fn quorum(&self) -> (q: usize)
        ensures
            q == self@.quorum,
    {
        self.quorum
    }

    pub fn player_count(&self) -> (n: usize)
        ensures
            n == self@.cards.len(),
    {
        self.cards.len()
    }

    /// Registrations still needed to reach the quorum; 0 once it is reached.
    pub fn remaining_slots(&self) -> (n: usize)
        ensures
            n == (if self@.cards.len() >= self@.quorum { 0 } else { self@.quorum - self@.cards.len() }),
    {
        if self.cards.len() >= self.quorum {
            0
        } else {
            self.quorum - self.cards.len()
        }
    }

    pub fn cards(&self) -> (r: &Vec<Card>)
        ensures
            r@.map_values(|c: Card| c@) == self@.cards,
    {
        &self.cards
    }

    pub fn called_numbers(&self) -> (r: &HashSet<u32>)
        ensures
            r@ == self@.called,
    {
        &self.called_numbers
    }

    pub fn winners(&self) -> (r: &Vec<PlayerId>)
        ensures
            r@.map_values(|p: PlayerId| p@) == self@.winners,
    {
        &self.winners
    }

    /// Index of the card of `p`, if `p` holds one.
    fn position_of(&self, p: &PlayerId) -> (r: Option<usize>)
        ensures
            match r {
                Some(i) => i < self@.cards.len() && self@.cards[i as int].owner == p@,
                None => !holds_card(self@.cards, p@),
            },
    {
        let mut i: usize = 0;
        while i < self.cards.len()
            invariant
                i <= self.cards.len(),
                forall|k: int| 0 <= k < i ==> self@.cards[k].owner != p@,
            decreases self.cards.len() - i,
        {
            if self.cards[i].owner.same_as(p) {
                return Some(i);
            }
            i += 1;
        }
        None
    }

    /// A copy of the card of `p`, if `p` holds one.
    pub fn get_card(&self, p: &PlayerId) -> (r: Option<Card>)
        requires
            self.wf(),
        ensures
            r is Some <==> holds_card(self@.cards, p@),
            r matches Some(c) ==> c@ == card_of(self@.cards, p@),
    {
        match self.position_of(p) {
            Some(i) => {
                proof { self.lemma_card_of_at(p@, i as int); }
                Some(self.cards[i].duplicate())
            },
            None => None,
        }
    }

    proof fn lemma_card_of_at(&self, p: Seq<u8>, i: int)
        requires
            self.wf(),
            0 <= i < self@.cards.len(),
            self@.cards[i].owner == p,
        ensures
            card_of(self@.cards, p) == self@.cards[i],
    {
        let j = choose|j: int| 0 <= j < self@.cards.len() && (#[trigger] self@.cards[j]).owner == p;
        assert(0 <= j < self@.cards.len() && self@.cards[j].owner == p);
        if i < j {
            assert(self@.cards[i].owner != self@.cards[j].owner);
        } else if j < i {
            assert(self@.cards[j].owner != self@.cards[i].owner);
        }
    }

    /// Starts the round by hand: refused unless the round is forming and the
    /// quorum holds cards. Starting clears the called numbers and the winners.
    pub fn start_round(&mut self) -> (r: Result<(), GameError>)
        requires
            old(self).wf(),
        ensures
            final(self).wf(),
            (final(self)@, r) == start_step(old(self)@),
    {
        if self.round != RoundState::Forming {
            return Err(GameError::AlreadyActive);
        }
        if self.cards.len() < self.quorum {
            return Err(GameError::QuorumNotMet);
        }
        self.round = RoundState::Active;
        self.called_numbers.clear();
        self.winners.clear();
        assert(self@.winners =~= Seq::<Seq<u8>>::empty());
        assert(self@ == started(old(self)@));
        Ok(())
    }

    /// Issues a card to `p` while the round is forming, if `p` holds none yet.
    /// The registration that brings the number of cards to the quorum starts the round.
    pub fn register_card(&mut self, p: PlayerId, entropy: &Vec<u8>) -> (r: Result<Card, GameError>)
        requires
            old(self).wf(),
        ensures
            final(self).wf(),
            (final(self)@, card_result_view(r)) == register_step(old(self)@, p@, entropy@),
    {
        if entropy.len() == 0 {
            return Err(GameError::EntropyUnavailable);
        }
        if self.round != RoundState::Forming {
            return Err(GameError::AlreadyActive);
        }
        if self.position_of(&p).is_some() {
            return Err(GameError::AlreadyRegistered);
        }
        let ghost p_view = p@;
        let card = match create_random_card(p, entropy) {
            Ok(c) => c,
            Err(e) => return Err(e),
        };
        proof { lemma_issued_card_valid(p_view, entropy@); }
        let issued = card.duplicate();
        let ghost before = self@;
        self.cards.push(card);
        assert(self@.cards =~= before.cards.push(issued@));
        if self.cards.len() >= self.quorum {
            let started = self.start_round();
            assert(started is Ok);
        }
        Ok(issued)
    }
    /// Replaces the card of `p`, or issues one if `p` holds none, while the round is forming.
    pub fn reset_card(&mut self, p: PlayerId, entropy: &Vec<u8>) -> (r: Result<Card, GameError>)
        requires
            old(self).wf(),
        ensures
            final(self).wf(),
            (final(self)@, card_result_view(r)) == reset_step(old(self)@, p@, entropy@),
    {
        if entropy.len() == 0 {
            return Err(GameError::EntropyUnavailable);
        }
        if self.round != RoundState::Forming {
            return Err(GameError::AlreadyActive);
        }
        let ghost p_view = p@;
        let position = self.position_of(&p);
        let card = match create_random_card(p, entropy) {
            Ok(c) => c,
            Err(e) => return Err(e),
        };
        proof { lemma_issued_card_valid(p_view, entropy@); }
        let issued = card.duplicate();
        let ghost before = self@;
        match position {
            Some(i) => {
                self.cards.set(i, card);
                proof {
                    assert forall|k: int| 0 <= k < before.cards.len() implies
                        (before.cards[k].owner == p_view) == (k == i as int) by {
                        if k < i as int {
                            assert(before.cards[k].owner != before.cards[i as int].owner);
                        } else if k > i as int {
                            assert(before.cards[i as int].owner != before.cards[k].owner);
                        }
                    }
                    assert(self@.cards =~= replace_or_add(before.cards, issued@));
                }
            },
            None => {
                self.cards.push(card);
                assert(self@.cards =~= before.cards.push(issued@));
            },
        }
        Ok(issued)
    }

    /// Records `n` as called. Only an uncalled number of the domain is recorded,
    /// and only while the round is active; the result says whether it was.
    pub fn call_number(&mut self, n: u32) -> (recorded: bool)
        requires
            old(self).wf(),
        ensures
            final(self).wf(),
            (final(self)@, recorded) == call_step(old(self)@, n),
    {
        if self.round != RoundState::Active || n < 1 || n > MAX_NUMBER || self.called_numbers.contains(&n) {
            return false;
        }
        let ghost before = self@;
        self.called_numbers.insert(n);
        assert(self@.cards == before.cards);
        assert(self@ == with_call(before, n));
        true
    }

    /// The numbers of the domain that have not been called, in increasing order.
    pub fn remaining_numbers(&self) -> (r: Vec<u32>)
        ensures
            r@ == remaining_numbers(self@.called),
    {
        let mut r: Vec<u32> = Vec::new();
        let mut n: u32 = 1;
        while n <= MAX_NUMBER
            invariant
                1 <= n <= MAX_NUMBER + 1,
                r@ == remaining_upto(self@.called, (n - 1) as nat),
            decreases MAX_NUMBER + 1 - n,
        {
            if !self.called_numbers.contains(&n) {
                r.push(n);
            }
            n += 1;
        }
        r
    }

    /// One tick of the number-calling loop. Outside an active round nothing
    /// happens. When every number has been called the round finishes. Otherwise
    /// the remaining numbers are shuffled with `entropy` and the first is called.
    pub fn advance_round(&mut self, entropy: &Vec<u8>) -> (r: Result<Tick, GameError>)
        requires
            old(self).wf(),
        ensures
            final(self).wf(),
            (final(self)@, r) == advance_step(old(self)@, entropy@),
    {
        if self.round != RoundState::Active {
            return Ok(Tick::Idle);
        }
        let mut sequence = self.remaining_numbers();
        if sequence.len() == 0 {
            let ghost before = self@;
            self.round = RoundState::Finished;
            assert(self@.cards == before.cards);
            return Ok(Tick::Exhausted);
        }
        if entropy.len() == 0 {
            return Err(GameError::EntropyUnavailable);
        }
        proof { lemma_remaining_numbers(self@.called, entropy@); }
        shuffle_with_entropy(&mut sequence, entropy);
        proof { lemma_shuffle_keeps_distinct_values(remaining_numbers(self@.called), entropy@); }
        let n = sequence[0];
        let recorded = self.call_number(n);
        assert(recorded);
        Ok(Tick::Drawn(n))
    }

    /// A win claim by `p`: it succeeds while the round is active and the card of `p`
    /// shows bingo. Success records `p` as a winner and finishes the round.
    pub fn claim_win(&mut self, p: &PlayerId) -> (r: Result<bool, GameError>)
        requires
            old(self).wf(),
        ensures
            final(self).wf(),
            (final(self)@, r) == claim_step(old(self)@, p@),
    {
        let i = match self.position_of(p) {
            Some(i) => i,
            None => return Err(GameError::PlayerNotFound),
        };
        proof { self.lemma_card_of_at(p@, i as int); }
        if self.round != RoundState::Active {
            return Ok(false);
        }
        assert(valid_card_grid(self@.cards[i as int].grid));
        if is_winner(&self.cards[i].numbers, &self.called_numbers) {
            let ghost before = self@;
            self.winners.push(p.duplicate());
            assert(self@.winners =~= before.winners.push(p@));
            self.round = RoundState::Finished;
            Ok(true)
        } else {
            Ok(false)
        }
    }
}

} // verus!
