use vstd::prelude::*;

use crate::error::GameError;
use crate::shuffle::{lemma_shuffle_keeps_distinct_values, shuffle_with_entropy, shuffled};
use crate::win::{grid_shape, grid_view, is_free_cell, CARD_SIZE, FREE_INDEX};

verus! {

/// Numbers on cards and calls run from 1 to this value.
pub const MAX_NUMBER: u32 = 99;

/// Row-major position of the free cell.
pub const FREE_POSITION: usize = 12;

pub open spec fn in_domain(x: u32) -> bool {
    1 <= x <= MAX_NUMBER
}

/// The numbers 1 to `MAX_NUMBER` in increasing order.
pub open spec fn domain_seq() -> Seq<u32> {
    Seq::new(MAX_NUMBER as nat, |i: int| (i + 1) as u32)
}

/// The identity of a player: the bytes of the caller's principal.
#[derive(Debug)]
pub struct PlayerId {
    bytes: Vec<u8>,
}

impl View for PlayerId {
    type V = Seq<u8>;

    closed spec fn view(&self) -> Seq<u8> {
        self.bytes@
    }
}

fn copy_bytes(v: &Vec<u8>) -> (r: Vec<u8>)
    ensures
        r@ == v@,
{
    let mut r: Vec<u8> = Vec::new();
    let mut i: usize = 0;
    while i < v.len()
        invariant
            i <= v.len(),
            r@ == v@.take(i as int),
        decreases v.len() - i,
    {
        r.push(v[i]);
        i += 1;
        assert(r@ =~= v@.take(i as int));
    }
    assert(v@.take(v.len() as int) =~= v@);
    r
}

impl PlayerId {
    pub fn new(bytes: Vec<u8>) -> (p: PlayerId)
        ensures
            p@ == bytes@,
    {
        PlayerId { bytes }
    }

    pub fn as_bytes(&self) -> (r: &Vec<u8>)
        ensures
            r@ == self@,
    {
        &self.bytes
    }

    /// Whether both identities are the same principal.
    pub fn same_as(&self, other: &PlayerId) -> (r: bool)
        ensures
            r == (self@ == other@),
    {
        if self.bytes.len() != other.bytes.len() {
            return false;
        }
        let mut i: usize = 0;
        while i < self.bytes.len()
            invariant
                self.bytes.len() == other.bytes.len(),
                i <= self.bytes.len(),
                forall|k: int| 0 <= k < i ==> self@[k] == other@[k],
            decreases self.bytes.len() - i,
        {
            if self.bytes[i] != other.bytes[i] {
                return false;
            }
            i += 1;
        }
        assert(self@ =~= other@);
        true
    }

    /// An identity equal to this one.
    pub fn duplicate(&self) -> (r: PlayerId)
        ensures
            r@ == self@,
    {
        PlayerId { bytes: copy_bytes(&self.bytes) }
    }
}

/// What a card is: its owner and its grid of rows.
pub struct CardView {
    pub owner: Seq<u8>,
    pub grid: Seq<Seq<u32>>,
}

/// A player's card: `CARD_SIZE` rows of `CARD_SIZE` numbers; the free centre cell holds 0.
#[derive(Debug)]
pub struct Card {
    pub numbers: Vec<Vec<u32>>,
    pub owner: PlayerId,
}

impl View for Card {
    type V = CardView;

    open spec fn view(&self) -> CardView {
        CardView { owner: self.owner@, grid: grid_view(self.numbers@) }
    }
}

/// The number placed at row `r`, column `c` when the values of `s` are laid out
/// row by row, passing over the free cell without using a value for it.
pub open spec fn layout_cell(s: Seq<u32>, r: int, c: int) -> u32 {
    let pos = r * CARD_SIZE + c;
    if is_free_cell(r, c) {
        0
    } else if pos < FREE_POSITION {
        s[pos]
    } else {
        s[pos - 1]
    }
}

pub open spec fn card_layout(s: Seq<u32>) -> Seq<Seq<u32>> {
    Seq::new(CARD_SIZE as nat, |r: int| Seq::new(CARD_SIZE as nat, |c: int| layout_cell(s, r, c)))
}

/// A well-formed card grid: the right shape, the free cell empty, every other cell
/// a number of the domain, and no number twice.
pub open spec fn valid_card_grid(g: Seq<Seq<u32>>) -> bool {
    &&& grid_shape(g)
    &&& g[FREE_INDEX as int][FREE_INDEX as int] == 0
    &&& forall|r: int, c: int|
        0 <= r < CARD_SIZE && 0 <= c < CARD_SIZE && !is_free_cell(r, c) ==> in_domain(
            #[trigger] g[r][c],
        )
    &&& forall|r1: int, c1: int, r2: int, c2: int|
        0 <= r1 < CARD_SIZE && 0 <= c1 < CARD_SIZE && 0 <= r2 < CARD_SIZE && 0 <= c2 < CARD_SIZE
            && !is_free_cell(r1, c1) && !is_free_cell(r2, c2) && (r1 != r2 || c1 != c2)
            ==> #[trigger] g[r1][c1] != #[trigger] g[r2][c2]
}

/// The card that `owner` receives from the entropy block `e`.
pub open spec fn card_from_entropy(owner: Seq<u8>, e: Seq<u8>) -> CardView {
    CardView { owner, grid: card_layout(shuffled(domain_seq(), e)) }
}

/// The domain lists each of the numbers 1 to `MAX_NUMBER` once.
pub proof fn lemma_domain_distinct()
    ensures
        domain_seq().len() == MAX_NUMBER,
        domain_seq().no_duplicates(),
        forall|x: u32| domain_seq().contains(x) <==> in_domain(x),
{
    assert forall|x: u32| in_domain(x) implies domain_seq().contains(x) by {
        assert(domain_seq()[x - 1] == x);
    }
}

/// Every card issued from a non-empty entropy block is well formed: its numbers
/// are pairwise distinct and lie between 1 and `MAX_NUMBER`.
pub proof fn lemma_issued_card_valid(owner: Seq<u8>, e: Seq<u8>)
    requires
        e.len() > 0,
    ensures
        valid_card_grid(card_from_entropy(owner, e).grid),
{
    lemma_domain_distinct();
    lemma_shuffle_keeps_distinct_values(domain_seq(), e);
    let s = shuffled(domain_seq(), e);
    let g = card_from_entropy(owner, e).grid;
    assert forall|r: int, c: int|
        0 <= r < CARD_SIZE && 0 <= c < CARD_SIZE && !is_free_cell(r, c) implies in_domain(
        #[trigger] g[r][c],
    ) by {
        let pos = r * CARD_SIZE + c;
        let k = if pos < FREE_POSITION { pos } else { pos - 1 };
        assert(s.contains(s[k]));
    }
}

/// The numbers of the domain, in increasing order.
pub fn number_domain() -> (r: Vec<u32>)
    ensures
        r@ == domain_seq(),
{
    let mut r: Vec<u32> = Vec::new();
    let mut n: u32 = 1;
    while n <= MAX_NUMBER
        invariant
            1 <= n <= MAX_NUMBER + 1,
            r@ =~= domain_seq().take(n - 1),
        decreases MAX_NUMBER + 1 - n,
    {
        r.push(n);
        n += 1;
        assert(r@ =~= domain_seq().take(n - 1));
    }
    assert(domain_seq().take(MAX_NUMBER as int) =~= domain_seq());
    r
}

/// Lays out the first values of `seq` row by row, leaving the free cell at 0.
pub fn fill_grid(seq: &Vec<u32>) -> (g: Vec<Vec<u32>>)
    requires
        seq.len() >= CARD_SIZE * CARD_SIZE - 1,
    ensures
        grid_view(g@) == card_layout(seq@),
{
    let mut g: Vec<Vec<u32>> = Vec::new();
    let mut r: usize = 0;
    while r < CARD_SIZE
        invariant
            seq.len() >= CARD_SIZE * CARD_SIZE - 1,
            r <= CARD_SIZE,
            grid_view(g@) =~= card_layout(seq@).take(r as int),
        decreases CARD_SIZE - r,
    {
        let mut row: Vec<u32> = Vec::new();
        let mut c: usize = 0;
        while c < CARD_SIZE
            invariant
                seq.len() >= CARD_SIZE * CARD_SIZE - 1,
                r < CARD_SIZE,
                c <= CARD_SIZE,
                row@ =~= card_layout(seq@)[r as int].take(c as int),
            decreases CARD_SIZE - c,
        {
            let pos = r * CARD_SIZE + c;
            let v = if r == FREE_INDEX && c == FREE_INDEX {
                0
            } else if pos < FREE_POSITION {
                seq[pos]
            } else {
                seq[pos - 1]
            };
            row.push(v);
            c += 1;
            assert(row@ =~= card_layout(seq@)[r as int].take(c as int));
        }
        assert(card_layout(seq@)[r as int].take(CARD_SIZE as int) =~= card_layout(seq@)[r as int]);
        let ghost before = grid_view(g@);
        g.push(row);
        assert(grid_view(g@) =~= before.push(card_layout(seq@)[r as int]));
        r += 1;
        assert(grid_view(g@) =~= card_layout(seq@).take(r as int));
    }
    assert(card_layout(seq@).take(CARD_SIZE as int) =~= card_layout(seq@));
    g
}

/// Issues a card for `owner`: shuffles the whole domain with `entropy` and lays
/// out the first values of the result. An empty entropy block is refused.
pub fn create_random_card(owner: PlayerId, entropy: &Vec<u8>) -> (r: Result<Card, GameError>)
    ensures
        entropy@.len() == 0 ==> r == Err::<Card, GameError>(GameError::EntropyUnavailable),
        entropy@.len() > 0 ==> (r matches Ok(card) && card@ == card_from_entropy(owner@, entropy@)),
        r matches Ok(card) ==> valid_card_grid(card@.grid),
{
    if entropy.len() == 0 {
        return Err(GameError::EntropyUnavailable);
    }
    let mut sequence = number_domain();
    shuffle_with_entropy(&mut sequence, entropy);
    proof {
        lemma_issued_card_valid(owner@, entropy@);
        lemma_shuffle_keeps_distinct_values(domain_seq(), entropy@);
        lemma_domain_distinct();
    }
    let numbers = fill_grid(&sequence);
    Ok(Card { numbers, owner })
}

fn copy_row(v: &Vec<u32>) -> (r: Vec<u32>)
    ensures
        r@ == v@,
{
    let mut r: Vec<u32> = Vec::new();
    let mut i: usize = 0;
    while i < v.len()
        invariant
            i <= v.len(),
            r@ == v@.take(i as int),
        decreases v.len() - i,
    {
        r.push(v[i]);
        i += 1;
        assert(r@ =~= v@.take(i as int));
    }
    assert(v@.take(v.len() as int) =~= v@);
    r
}

impl Card {
    /// A card equal to this one.
    pub fn duplicate(&self) -> (r: Card)
        ensures
            r@ == self@,
    {
        let mut numbers: Vec<Vec<u32>> = Vec::new();
        let mut i: usize = 0;
        while i < self.numbers.len()
            invariant
                i <= self.numbers.len(),
                grid_view(numbers@) =~= grid_view(self.numbers@).take(i as int),
            decreases self.numbers.len() - i,
        {
            let ghost before = grid_view(numbers@);
            numbers.push(copy_row(&self.numbers[i]));
            assert(grid_view(numbers@) =~= before.push(grid_view(self.numbers@)[i as int]));
            i += 1;
            assert(grid_view(numbers@) =~= grid_view(self.numbers@).take(i as int));
        }
        assert(grid_view(self.numbers@).take(i as int) =~= grid_view(self.numbers@));
        Card { numbers, owner: self.owner.duplicate() }
    }
}

} // verus!
