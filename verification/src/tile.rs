use vstd::prelude::*;
use crate::sweeper::Position;

verus! {

/// Classification of a single tile: a bomb, a safe tile adjacent to
/// `n` bombs (`1 <= n <= 8`), or an empty tile with no adjacent bombs.
#[derive(Clone, Copy, PartialEq, Eq, Structural, Debug)]
pub enum TileKind {
    Safe(u8),
    Bomb,
    Empty,
}

/// A `Safe` tile always carries an adjacency count between 1 and 8;
/// a count of zero is represented by `Empty`.
pub open spec fn kind_valid(k: TileKind) -> bool {
    k matches TileKind::Safe(n) ==> 1 <= n && n <= 8
}

/// The kind a non-bomb tile takes once its adjacent bombs are counted:
/// `Empty` for zero, `Safe(n)` otherwise. Bombs keep their kind.
pub open spec fn classified_kind(k: TileKind, adjacent: int) -> TileKind {
    if k == TileKind::Bomb {
        TileKind::Bomb
    } else if adjacent == 0 {
        TileKind::Empty
    } else {
        TileKind::Safe(adjacent as u8)
    }
}

/// One tile of the board: its classification, the player-visible flags,
/// and its fixed position, which identifies it in neighbour lookups.
#[derive(Clone, Copy, PartialEq, Eq, Structural, Debug)]
pub struct Tile {
    pub kind: TileKind,
    pub revealed: bool,
    pub flagged: bool,
    pub selected: bool,
    pub position: Position,
}

impl Tile {
    fn new(kind: TileKind, position: Position) -> (t: Tile)
        ensures
            t == (Tile {
                kind,
                revealed: false,
                flagged: false,
                selected: false,
                position,
            }),
    {
        Tile { kind, revealed: false, flagged: false, selected: false, position }
    }

    pub fn new_empty(position: Position) -> (t: Tile)
        ensures
            t == (Tile {
                kind: TileKind::Empty,
                revealed: false,
                flagged: false,
                selected: false,
                position,
            }),
    {
        Tile::new(TileKind::Empty, position)
    }

    pub fn new_safe(position: Position, adjacent_bombs: u8) -> (t: Tile)
        requires
            1 <= adjacent_bombs <= 8,
        ensures
            t == (Tile {
                kind: TileKind::Safe(adjacent_bombs),
                revealed: false,
                flagged: false,
                selected: false,
                position,
            }),
    {
        Tile::new(TileKind::Safe(adjacent_bombs), position)
    }

    pub fn new_bomb(position: Position) -> (t: Tile)
        ensures
            t == (Tile {
                kind: TileKind::Bomb,
                revealed: false,
                flagged: false,
                selected: false,
                position,
            }),
    {
        Tile::new(TileKind::Bomb, position)
    }

    /// Reclassifies this tile against the number of bombs adjacent to it.
    /// Bombs are left as they are; other tiles become `Empty` or `Safe(n)`.
    pub fn set_neighbours(&self, adjacent_bombs: u8) -> (t: Tile)
        requires
            adjacent_bombs <= 8,
        ensures
            t == (Tile { kind: classified_kind(self.kind, adjacent_bombs as int), ..*self }),
    {
        if self.is_bomb() {
            *self
        } else if adjacent_bombs == 0 {
            Tile { kind: TileKind::Empty, ..*self }
        } else {
            Tile { kind: TileKind::Safe(adjacent_bombs), ..*self }
        }
    }

    pub fn uncover(&self) -> (t: Tile)
        ensures
            t == (Tile { revealed: true, ..*self }),
    {
        Tile { revealed: true, ..*self }
    }

    pub fn flag(&self) -> (t: Tile)
        ensures
            t == (Tile { flagged: true, ..*self }),
    {
        Tile { flagged: true, ..*self }
    }

    pub fn unflag(&self) -> (t: Tile)
        ensures
            t == (Tile { flagged: false, ..*self }),
    {
        Tile { flagged: false, ..*self }
    }

    pub fn select(&self) -> (t: Tile)
        ensures
            t == (Tile { selected: true, ..*self }),
    {
        Tile { selected: true, ..*self }
    }

    pub fn deselect(&self) -> (t: Tile)
        ensures
            t == (Tile { selected: false, ..*self }),
    {
        Tile { selected: false, ..*self }
    }

    pub fn is_empty(&self) -> (r: bool)
        ensures
            r == (self.kind == TileKind::Empty),
    {
        self.kind == TileKind::Empty
    }

    pub fn is_safe(&self) -> (r: bool)
        ensures
            r == (self.kind matches TileKind::Safe(_)),
    {
        match self.kind {
            TileKind::Safe(_) => true,
            _ => false,
        }
    }

    pub fn is_bomb(&self) -> (r: bool)
        ensures
            r == (self.kind == TileKind::Bomb),
    {
        self.kind == TileKind::Bomb
    }
}

} // verus!
