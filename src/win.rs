use std::collections::HashSet;
use vstd::prelude::*;

verus! {

/// Number of rows and of columns on a card.
pub const CARD_SIZE: usize = 5;

/// Row and column of the free cell at the centre of a card.
pub const FREE_INDEX: usize = 2;

/// The grid of a card as a sequence of rows.
pub open spec fn grid_view(g: Seq<Vec<u32>>) -> Seq<Seq<u32>> {
    g.map_values(|row: Vec<u32>| row@)
}

/// A grid of `CARD_SIZE` rows of `CARD_SIZE` cells each.
pub open spec fn grid_shape(g: Seq<Seq<u32>>) -> bool {
    &&& g.len() == CARD_SIZE
    &&& forall|r: int| 0 <= r < CARD_SIZE ==> (#[trigger] g[r]).len() == CARD_SIZE
}

pub open spec fn is_free_cell(r: int, c: int) -> bool {
    r == FREE_INDEX && c == FREE_INDEX
}

/// A cell counts as covered when it is the free cell or its number has been called.
pub open spec fn covered(g: Seq<Seq<u32>>, called: Set<u32>, r: int, c: int) -> bool {
    is_free_cell(r, c) || called.contains(g[r][c])
}

pub open spec fn row_complete(g: Seq<Seq<u32>>, called: Set<u32>, r: int) -> bool {
    forall|c: int| 0 <= c < CARD_SIZE ==> #[trigger] covered(g, called, r, c)
}

pub open spec fn column_complete(g: Seq<Seq<u32>>, called: Set<u32>, c: int) -> bool {
    forall|r: int| 0 <= r < CARD_SIZE ==> #[trigger] covered(g, called, r, c)
}

pub open spec fn diagonal_complete(g: Seq<Seq<u32>>, called: Set<u32>) -> bool {
    forall|i: int| 0 <= i < CARD_SIZE ==> #[trigger] covered(g, called, i, i)
}

pub open spec fn anti_diagonal_complete(g: Seq<Seq<u32>>, called: Set<u32>) -> bool {
    forall|i: int| 0 <= i < CARD_SIZE ==> #[trigger] covered(g, called, i, CARD_SIZE - 1 - i)
}

/// Bingo: some full row, some full column, or either diagonal is covered.
pub open spec fn has_bingo(g: Seq<Seq<u32>>, called: Set<u32>) -> bool {
    ||| exists|r: int| 0 <= r < CARD_SIZE && #[trigger] row_complete(g, called, r)
    ||| exists|c: int| 0 <= c < CARD_SIZE && #[trigger] column_complete(g, called, c)
    ||| diagonal_complete(g, called)
    ||| anti_diagonal_complete(g, called)
}

fn cell_covered(card: &Vec<Vec<u32>>, called: &HashSet<u32>, r: usize, c: usize) -> (b: bool)
    requires
        grid_shape(grid_view(card@)),
        r < CARD_SIZE,
        c < CARD_SIZE,
    ensures
        b == covered(grid_view(card@), called@, r as int, c as int),
{
    broadcast use vstd::std_specs::hash::group_hash_axioms;

    if r == FREE_INDEX && c == FREE_INDEX {
        true
    } else {
        assert(card@[r as int]@ == grid_view(card@)[r as int]);
        called.contains(&card[r][c])
    }
}

fn row_done(card: &Vec<Vec<u32>>, called: &HashSet<u32>, r: usize) -> (b: bool)
    requires
        grid_shape(grid_view(card@)),
        r < CARD_SIZE,
    ensures
        b == row_complete(grid_view(card@), called@, r as int),
{
    let mut c: usize = 0;
    while c < CARD_SIZE
        invariant
            grid_shape(grid_view(card@)),
            r < CARD_SIZE,
            c <= CARD_SIZE,
            forall|k: int| 0 <= k < c ==> #[trigger] covered(grid_view(card@), called@, r as int, k),
        decreases CARD_SIZE - c,
    {
        if !cell_covered(card, called, r, c) {
            return false;
        }
        c += 1;
    }
    true
}

fn column_done(card: &Vec<Vec<u32>>, called: &HashSet<u32>, c: usize) -> (b: bool)
    requires
        grid_shape(grid_view(card@)),
        c < CARD_SIZE,
    ensures
        b == column_complete(grid_view(card@), called@, c as int),
{
    let mut r: usize = 0;
    while r < CARD_SIZE
        invariant
            grid_shape(grid_view(card@)),
            r <= CARD_SIZE,
            c < CARD_SIZE,
            forall|k: int| 0 <= k < r ==> #[trigger] covered(grid_view(card@), called@, k, c as int),
        decreases CARD_SIZE - r,
    {
        if !cell_covered(card, called, r, c) {
            return false;
        }
        r += 1;
    }
    true
}

fn diagonal_done(card: &Vec<Vec<u32>>, called: &HashSet<u32>) -> (b: bool)
    requires
        grid_shape(grid_view(card@)),
    ensures
        b == diagonal_complete(grid_view(card@), called@),
{
    let mut i: usize = 0;
    while i < CARD_SIZE
        invariant
            grid_shape(grid_view(card@)),
            i <= CARD_SIZE,
            forall|k: int| 0 <= k < i ==> #[trigger] covered(grid_view(card@), called@, k, k),
        decreases CARD_SIZE - i,
    {
        if !cell_covered(card, called, i, i) {
            return false;
        }
        i += 1;
    }
    true
}

fn anti_diagonal_done(card: &Vec<Vec<u32>>, called: &HashSet<u32>) -> (b: bool)
    requires
        grid_shape(grid_view(card@)),
    ensures
        b == anti_diagonal_complete(grid_view(card@), called@),
{
    let mut i: usize = 0;
    while i < CARD_SIZE
        invariant
            grid_shape(grid_view(card@)),
            i <= CARD_SIZE,
            forall|k: int|
                0 <= k < i ==> #[trigger] covered(grid_view(card@), called@, k, CARD_SIZE - 1 - k),
        decreases CARD_SIZE - i,
    {
        if !cell_covered(card, called, i, CARD_SIZE - 1 - i) {
            return false;
        }
        i += 1;
    }
    true
}

/// Decides whether a card shows bingo against the numbers called so far.
/// The free centre cell counts as covered on every line through it.
pub fn is_winner(card_numbers: &Vec<Vec<u32>>, called_numbers: &HashSet<u32>) -> (won: bool)
    requires
        grid_shape(grid_view(card_numbers@)),
    ensures
        won == has_bingo(grid_view(card_numbers@), called_numbers@),
{
    let mut r: usize = 0;
    while r < CARD_SIZE
        invariant
            grid_shape(grid_view(card_numbers@)),
            r <= CARD_SIZE,
            forall|k: int|
                0 <= k < r ==> !#[trigger] row_complete(grid_view(card_numbers@), called_numbers@, k),
        decreases CARD_SIZE - r,
    {
        if row_done(card_numbers, called_numbers, r) {
            return true;
        }
        r += 1;
    }
    let mut c: usize = 0;
    while c < CARD_SIZE
        invariant
            grid_shape(grid_view(card_numbers@)),
            c <= CARD_SIZE,
            forall|k: int|
                0 <= k < CARD_SIZE ==> !#[trigger] row_complete(grid_view(card_numbers@), called_numbers@, k),
            forall|k: int|
                0 <= k < c ==> !#[trigger] column_complete(grid_view(card_numbers@), called_numbers@, k),
        decreases CARD_SIZE - c,
    {
        if column_done(card_numbers, called_numbers, c) {
            return true;
        }
        c += 1;
    }
    diagonal_done(card_numbers, called_numbers) || anti_diagonal_done(card_numbers, called_numbers)
}

} // verus!
