use vstd::prelude::*;
use crate::sweeper::{Position, UnsafePosition};
use crate::tile::{classified_kind, kind_valid, Tile, TileKind};
use rand::Rng;

verus! {

/// The board is stored row-major: one inner vector per row.
pub type TileMatrix = Vec<Vec<Tile>>;

/// A configuration the board cannot be built from, reported before any
/// play begins.
#[derive(Clone, Copy, PartialEq, Eq, Structural, Debug)]
pub enum ConfigError {
    /// The board has no rows or no columns.
    ZeroDimensions,
    /// `rows * cols` does not fit in `usize`.
    GridTooLarge,
    /// The bomb target cannot be met while keeping a first-click safe
    /// zone free of bombs.
    TooManyBombs,
    /// A custom difficulty was asked for without custom parameters.
    MissingCustomParameters,
}

/// The tile a freshly created board holds at row `r`, column `c`.
pub open spec fn blank_tile(r: int, c: int) -> Tile {
    Tile {
        kind: TileKind::Empty,
        revealed: false,
        flagged: false,
        selected: false,
        position: Position(r as usize, c as usize),
    }
}

/// 1 if the tile is a bomb, else 0.
pub open spec fn bomb1(t: Tile) -> int {
    if t.kind == TileKind::Bomb {
        1
    } else {
        0
    }
}

/// Number of bombs in one row.
pub open spec fn row_bombs(s: Seq<Tile>) -> int
    decreases s.len(),
{
    if s.len() <= 0 {
        0
    } else {
        row_bombs(s.drop_last()) + bomb1(s.last())
    }
}

/// Number of bombs in the whole matrix.
pub open spec fn matrix_bombs(m: Seq<Vec<Tile>>) -> int
    decreases m.len(),
{
    if m.len() <= 0 {
        0
    } else {
        matrix_bombs(m.drop_last()) + row_bombs(m.last()@)
    }
}

/// Whether `(r, c)` lies in the 3-by-3 block centred at `p`.
pub open spec fn is_near(p: Position, r: int, c: int) -> bool {
    &&& p.0 - 1 <= r <= p.0 + 1
    &&& p.1 - 1 <= c <= p.1 + 1
}

/// The largest size a first-click safe zone can take on a
/// `rows`-by-`cols` board: a full 3-by-3 block, clipped by the board.
pub open spec fn max_zone_size(rows: int, cols: int) -> int {
    (if rows < 3 {
        rows
    } else {
        3
    }) * (if cols < 3 {
        cols
    } else {
        3
    })
}

/// The upper bound of a reveal at `p`: a tile this call newly revealed
/// is `p` itself, a neighbour of `p` (a chord), or borders some newly
/// revealed tile that stands empty afterwards — a reveal cannot touch
/// tiles away from the click and the opened empty area.
pub open spec fn reveal_from(pre: Field, post: Field, p: Position) -> bool {
    forall|r: int, c: int|
        #![trigger post.tile_at(r, c)]
        post.in_bounds(r, c) && post.tile_at(r, c).revealed && !pre.tile_at(r, c).revealed ==> {
            ||| (r == p.0 && c == p.1)
            ||| is_neighbour(p, r, c)
            ||| exists|r2: int, c2: int|
                adjacent(r, c, r2, c2) && post.in_bounds(r2, c2) && (#[trigger] post.tile_at(
                    r2,
                    c2,
                )).revealed && !pre.tile_at(r2, c2).revealed && post.tile_at(r2, c2).kind
                    == TileKind::Empty
        }
}

/// The playing board: fixed dimensions, a fixed bomb target, and the
/// row-major matrix of tiles.
#[derive(Clone, Debug)]
pub struct Field {
    pub rows: usize,
    pub cols: usize,
    pub bombs: usize,
    pub tile_matrix: TileMatrix,
}

impl Field {
    /// The number of bombs the generator is asked to place.
    pub open spec fn bomb_count(self) -> int {
        self.bombs as int
    }

    pub open spec fn in_bounds(self, r: int, c: int) -> bool {
        0 <= r < self.rows && 0 <= c < self.cols
    }

    pub open spec fn tile_at(self, r: int, c: int) -> Tile {
        self.tile_matrix@[r]@[c]
    }

    /// Well-formedness: a non-empty rectangular matrix whose tiles carry
    /// their own coordinates and valid kinds.
    pub open spec fn wf(self) -> bool {
        &&& 1 <= self.rows
        &&& 1 <= self.cols
        &&& self.rows * self.cols <= usize::MAX
        &&& self.tile_matrix@.len() == self.rows
        &&& forall|r: int|
            0 <= r < self.rows ==> (#[trigger] self.tile_matrix@[r])@.len() == self.cols
        &&& forall|r: int, c: int|
            self.in_bounds(r, c) ==> (#[trigger] self.tile_at(r, c)).position == Position(
                r as usize,
                c as usize,
            )
        &&& forall|r: int, c: int|
            self.in_bounds(r, c) ==> kind_valid((#[trigger] self.tile_at(r, c)).kind)
    }

    /// The bomb target leaves room for a bomb-free safe zone wherever the
    /// first reveal lands.
    pub open spec fn placeable(self) -> bool {
        self.bomb_count() + max_zone_size(self.rows as int, self.cols as int) <= self.rows
            * self.cols
    }

    pub open spec fn total_bombs(self) -> int {
        matrix_bombs(self.tile_matrix@)
    }

    pub open spec fn is_bomb_at(self, r: int, c: int) -> bool {
        self.in_bounds(r, c) && self.tile_at(r, c).kind == TileKind::Bomb
    }

    pub open spec fn bomb_ind(self, r: int, c: int) -> int {
        if self.is_bomb_at(r, c) {
            1
        } else {
            0
        }
    }

    /// The true number of bombs among the up-to-8 neighbours of `(r, c)`.
    pub open spec fn adj_bombs(self, r: int, c: int) -> int {
        self.bomb_ind(r - 1, c - 1) + self.bomb_ind(r - 1, c) + self.bomb_ind(r - 1, c + 1)
            + self.bomb_ind(r, c - 1) + self.bomb_ind(r, c + 1) + self.bomb_ind(r + 1, c - 1)
            + self.bomb_ind(r + 1, c) + self.bomb_ind(r + 1, c + 1)
    }

    /// Every tile's kind agrees with the bombs around it: bombs stay
    /// bombs, and every other tile is `Empty` or `Safe(n)` exactly as its
    /// true adjacent-bomb count says.
    pub open spec fn classified(self) -> bool {
        forall|r: int, c: int|
            self.in_bounds(r, c) ==> self.tile_at(r, c).kind == classified_kind(
                self.tile_at(r, c).kind,
                #[trigger] self.adj_bombs(r, c),
            )
    }

    /// No bomb sits on `p` or on any existing neighbour of `p`.
    pub open spec fn safe_zone_clear(self, p: Position) -> bool {
        forall|r: int, c: int|
            self.in_bounds(r, c) && is_near(p, r, c) ==> (#[trigger] self.tile_at(r, c)).kind
                != TileKind::Bomb
    }

    pub open spec fn all_hidden(self) -> bool {
        forall|r: int, c: int|
            self.in_bounds(r, c) ==> {
                &&& !(#[trigger] self.tile_at(r, c)).revealed
                &&& !self.tile_at(r, c).flagged
                &&& !self.tile_at(r, c).selected
            }
    }

    pub open spec fn blank(self) -> bool {
        forall|r: int, c: int|
            self.in_bounds(r, c) ==> #[trigger] self.tile_at(r, c) == blank_tile(r, c)
    }

    /// The winning configuration: every non-bomb tile is revealed.
    pub open spec fn all_safe_revealed(self) -> bool {
        forall|r: int, c: int|
            self.in_bounds(r, c) && (#[trigger] self.tile_at(r, c)).kind != TileKind::Bomb
                ==> self.tile_at(r, c).revealed
    }

    /// The end-of-game display configuration: everything revealed,
    /// nothing flagged.
    pub open spec fn all_revealed_unflagged(self) -> bool {
        forall|r: int, c: int|
            self.in_bounds(r, c) ==> (#[trigger] self.tile_at(r, c)).revealed && !self.tile_at(
                r,
                c,
            ).flagged
    }

    /// Creates an unpopulated board. Succeeds exactly when both dimensions
    /// are positive, the cell count fits in `usize`, and the bomb target
    /// leaves room for a bomb-free first-click safe zone.
    pub fn create(rows: usize, cols: usize, bombs: usize) -> (res: Result<Field, ConfigError>)
        ensures
            rows == 0 || cols == 0 ==> res == Err::<Field, ConfigError>(
                ConfigError::ZeroDimensions,
            ),
            rows >= 1 && cols >= 1 && rows * cols > usize::MAX ==> res == Err::<Field, ConfigError>(
                ConfigError::GridTooLarge,
            ),
            rows >= 1 && cols >= 1 && rows * cols <= usize::MAX && bombs + max_zone_size(
                rows as int,
                cols as int,
            ) > rows * cols ==> res == Err::<Field, ConfigError>(ConfigError::TooManyBombs),
            rows >= 1 && cols >= 1 && rows * cols <= usize::MAX && bombs + max_zone_size(
                rows as int,
                cols as int,
            ) <= rows * cols ==> (res matches Ok(f) && {
                &&& f.wf()
                &&& f.placeable()
                &&& f.rows == rows
                &&& f.cols == cols
                &&& f.bomb_count() == bombs
                &&& f.blank()
                &&& f.total_bombs() == 0
            }),
    {
        if rows == 0 || cols == 0 {
            return Err(ConfigError::ZeroDimensions);
        }
        if rows > usize::MAX / cols {
            proof {
                lemma_mul_gt_from_div(rows as int, cols as int, usize::MAX as int);
            }
            return Err(ConfigError::GridTooLarge);
        }
        proof {
            lemma_mul_le_from_div(rows as int, cols as int, usize::MAX as int);
        }
        let mr: usize = if rows < 3 {
            rows
        } else {
            3
        };
        let mc: usize = if cols < 3 {
            cols
        } else {
            3
        };
        proof {
            lemma_mul_pair_le(mr as int, mc as int, rows as int, cols as int);
        }
        let zone: usize = mr * mc;
        let cells: usize = rows * cols;
        if bombs > cells - zone {
            return Err(ConfigError::TooManyBombs);
        }
        let tile_matrix = create_matrix(rows, cols);
        Ok(Field { rows, cols, bombs, tile_matrix })
    }

    /// The tiles among the up-to-8 neighbours of `(r, c)` that exist on
    /// the board, in row-major order.
    pub open spec fn nb_opt(self, r: int, c: int) -> Seq<Tile> {
        if self.in_bounds(r, c) {
            seq![self.tile_at(r, c)]
        } else {
            Seq::empty()
        }
    }

    pub open spec fn neighbours_seq(self, r: int, c: int) -> Seq<Tile> {
        self.nb_opt(r - 1, c - 1) + self.nb_opt(r - 1, c) + self.nb_opt(r - 1, c + 1) + self.nb_opt(
            r,
            c - 1,
        ) + self.nb_opt(r, c + 1) + self.nb_opt(r + 1, c - 1) + self.nb_opt(r + 1, c)
            + self.nb_opt(r + 1, c + 1)
    }

    /// Looks a tile up by a possibly out-of-range coordinate; absence
    /// means "no such tile", never an error.
    pub fn get_tile(&self, position: UnsafePosition) -> (res: Option<Tile>)
        requires
            self.wf(),
        ensures
            self.in_bounds(position.0 as int, position.1 as int) ==> res == Some(
                self.tile_at(position.0 as int, position.1 as int),
            ),
            !self.in_bounds(position.0 as int, position.1 as int) ==> res == None::<Tile>,
    {
        if position.0 < 0 || position.1 < 0 {
            return None;
        }
        let r = position.0 as usize;
        let c = position.1 as usize;
        if r < self.rows && c < self.cols {
            Some(self.tile_matrix[r][c])
        } else {
            None
        }
    }

    /// Pushes the tile at `(r, c)` if that coordinate exists on the board.
    fn push_neighbour(&self, v: &mut Vec<Tile>, r: i64, c: i64)
        requires
            self.wf(),
            -0x8000_0002 <= r <= 0x8000_0002,
            -0x8000_0002 <= c <= 0x8000_0002,
        ensures
            final(v)@ == old(v)@ + self.nb_opt(r as int, c as int),
    {
        if r < 0 || c < 0 {
            assert(v@ =~= old(v)@ + self.nb_opt(r as int, c as int));
            return ;
        }
        let ru = r as usize;
        let cu = c as usize;
        if ru < self.rows && cu < self.cols {
            v.push(self.tile_matrix[ru][cu]);
            assert(v@ =~= old(v)@ + self.nb_opt(r as int, c as int));
        } else {
            assert(v@ =~= old(v)@ + self.nb_opt(r as int, c as int));
        }
    }

    /// Every existing tile among the 8 Moore-adjacent coordinates,
    /// omitting any coordinate that falls outside the board.
    pub fn get_neighbours(&self, position: UnsafePosition) -> (res: Vec<Tile>)
        requires
            self.wf(),
        ensures
            res@ == self.neighbours_seq(position.0 as int, position.1 as int),
    {
        let r: i64 = position.0 as i64;
        let c: i64 = position.1 as i64;
        let mut v: Vec<Tile> = Vec::new();
        self.push_neighbour(&mut v, r - 1, c - 1);
        self.push_neighbour(&mut v, r - 1, c);
        self.push_neighbour(&mut v, r - 1, c + 1);
        self.push_neighbour(&mut v, r, c - 1);
        self.push_neighbour(&mut v, r, c + 1);
        self.push_neighbour(&mut v, r + 1, c - 1);
        self.push_neighbour(&mut v, r + 1, c);
        self.push_neighbour(&mut v, r + 1, c + 1);
        proof {
            assert(v@ =~= self.neighbours_seq(position.0 as int, position.1 as int));
        }
        v
    }

    /// The tile `(r, c)` holds after `apply_on_tile(tile_position, op, rest)`.
    pub open spec fn applied_tile(
        self,
        tile_position: Position,
        op: TileOp,
        rest: Option<TileOp>,
        r: int,
        c: int,
    ) -> Tile {
        if r == tile_position.0 && c == tile_position.1 {
            apply_op(op, self.tile_at(r, c))
        } else {
            match rest {
                Some(op2) => apply_op(op2, self.tile_at(r, c)),
                None => self.tile_at(r, c),
            }
        }
    }

    /// Maps `op` over the tile at `tile_position` and, when `rest` is
    /// given, its operation over every other tile.
    pub fn apply_on_tile(&self, tile_position: Position, op: TileOp, rest: Option<TileOp>) -> (m:
        TileMatrix)
        requires
            self.wf(),
        ensures
            m@.len() == self.rows,
            forall|r: int| 0 <= r < self.rows ==> (#[trigger] m@[r])@.len() == self.cols,
            forall|r: int, c: int|
                self.in_bounds(r, c) ==> (#[trigger] m@[r]@[c]) == self.applied_tile(
                    tile_position,
                    op,
                    rest,
                    r,
                    c,
                ),
    {
        let mut m: TileMatrix = Vec::new();
        let mut r: usize = 0;
        while r < self.rows
            invariant
                self.wf(),
                r <= self.rows,
                m@.len() == r,
                forall|i: int| 0 <= i < r ==> (#[trigger] m@[i])@.len() == self.cols,
                forall|i: int, j: int|
                    0 <= i < r && 0 <= j < self.cols ==> (#[trigger] m@[i]@[j])
                        == self.applied_tile(tile_position, op, rest, i, j),
            decreases self.rows - r,
        {
            let mut row: Vec<Tile> = Vec::new();
            let mut c: usize = 0;
            while c < self.cols
                invariant
                    self.wf(),
                    r < self.rows,
                    c <= self.cols,
                    row@.len() == c,
                    forall|j: int|
                        0 <= j < c ==> (#[trigger] row@[j]) == self.applied_tile(
                            tile_position,
                            op,
                            rest,
                            r as int,
                            j,
                        ),
                decreases self.cols - c,
            {
                let tile = self.tile_matrix[r][c];
                let mapped = if r == tile_position.0 && c == tile_position.1 {
                    apply_op_exec(op, tile)
                } else {
                    match rest {
                        Some(op2) => apply_op_exec(op2, tile),
                        None => tile,
                    }
                };
                row.push(mapped);
                c += 1;
            }
            m.push(row);
            r += 1;
        }
        m
    }

    /// Marks the tile at `tile_position` selected and every other tile
    /// deselected.
    pub fn select(&self, tile_position: Position) -> (f: Field)
        requires
            self.wf(),
        ensures
            f.wf(),
            f.rows == self.rows,
            f.cols == self.cols,
            f.bombs == self.bombs,
            forall|r: int, c: int|
                self.in_bounds(r, c) ==> #[trigger] f.tile_at(r, c) == (Tile {
                    selected: r == tile_position.0 && c == tile_position.1,
                    ..self.tile_at(r, c)
                }),
    {
        let tile_matrix = self.apply_on_tile(tile_position, TileOp::Select, Some(TileOp::Deselect));
        let f = Field { rows: self.rows, cols: self.cols, bombs: self.bombs, tile_matrix };
        f
    }

    /// Flips the flag on a hidden tile; a revealed tile is left as it is.
    pub fn toggle_flag(&self, tile_position: &Position) -> (f: Field)
        requires
            self.wf(),
        ensures
            f.wf(),
            toggle_rel(*self, f, *tile_position),
    {
        let tile_matrix = self.apply_on_tile(*tile_position, TileOp::ToggleFlag, None);
        let f = Field { rows: self.rows, cols: self.cols, bombs: self.bombs, tile_matrix };
        f
    }

    /// Reveals a hidden, unflagged tile; any other tile is left as it is.
    pub fn uncover(&self, tile_position: &Position) -> (f: Field)
        requires
            self.wf(),
        ensures
            f.wf(),
            uncover_rel(*self, f, *tile_position),
    {
        let tile_matrix = self.apply_on_tile(*tile_position, TileOp::Uncover, None);
        let f = Field { rows: self.rows, cols: self.cols, bombs: self.bombs, tile_matrix };
        f
    }

    /// The end-of-game board: every tile revealed and unflagged, for
    /// display after a loss.
    pub fn game_over(&self) -> (f: Field)
        requires
            self.wf(),
        ensures
            f.wf(),
            f.rows == self.rows,
            f.cols == self.cols,
            f.bombs == self.bombs,
            forall|r: int, c: int|
                self.in_bounds(r, c) ==> #[trigger] f.tile_at(r, c) == (Tile {
                    revealed: true,
                    flagged: false,
                    ..self.tile_at(r, c)
                }),
            f.all_revealed_unflagged(),
    {
        let mut m: TileMatrix = Vec::new();
        let mut r: usize = 0;
        while r < self.rows
            invariant
                self.wf(),
                r <= self.rows,
                m@.len() == r,
                forall|i: int| 0 <= i < r ==> (#[trigger] m@[i])@.len() == self.cols,
                forall|i: int, j: int|
                    0 <= i < r && 0 <= j < self.cols ==> (#[trigger] m@[i]@[j]) == (Tile {
                        revealed: true,
                        flagged: false,
                        ..self.tile_at(i, j)
                    }),
            decreases self.rows - r,
        {
            let mut row: Vec<Tile> = Vec::new();
            let mut c: usize = 0;
            while c < self.cols
                invariant
                    self.wf(),
                    r < self.rows,
                    c <= self.cols,
                    row@.len() == c,
                    forall|j: int|
                        0 <= j < c ==> (#[trigger] row@[j]) == (Tile {
                            revealed: true,
                            flagged: false,
                            ..self.tile_at(r as int, j)
                        }),
                decreases self.cols - c,
            {
                let t = self.tile_matrix[r][c];
                row.push(t.unflag().uncover());
                c += 1;
            }
            m.push(row);
            r += 1;
        }
        let f = Field { rows: self.rows, cols: self.cols, bombs: self.bombs, tile_matrix: m };
        f
    }

    fn bomb_at(&self, r: usize, c: usize) -> (b: bool)
        requires
            self.wf(),
            self.in_bounds(r as int, c as int),
        ensures
            b == self.is_bomb_at(r as int, c as int),
    {
        self.tile_matrix[r][c].is_bomb()
    }

    /// Counts the bombs among the existing neighbours of `(r, c)`.
    pub fn count_adjacent_bombs(&self, r: usize, c: usize) -> (n: u8)
        requires
            self.wf(),
            self.in_bounds(r as int, c as int),
        ensures
            n as int == self.adj_bombs(r as int, c as int),
    {
        let mut n: u8 = 0;
        if r > 0 && c > 0 && self.bomb_at(r - 1, c - 1) {
            n += 1;
        }
        if r > 0 && self.bomb_at(r - 1, c) {
            n += 1;
        }
        if r > 0 && c + 1 < self.cols && self.bomb_at(r - 1, c + 1) {
            n += 1;
        }
        if c > 0 && self.bomb_at(r, c - 1) {
            n += 1;
        }
        if c + 1 < self.cols && self.bomb_at(r, c + 1) {
            n += 1;
        }
        if r + 1 < self.rows && c > 0 && self.bomb_at(r + 1, c - 1) {
            n += 1;
        }
        if r + 1 < self.rows && self.bomb_at(r + 1, c) {
            n += 1;
        }
        if r + 1 < self.rows && c + 1 < self.cols && self.bomb_at(r + 1, c + 1) {
            n += 1;
        }
        n
    }

    pub open spec fn flag_ind(self, r: int, c: int) -> int {
        if self.in_bounds(r, c) && self.tile_at(r, c).flagged {
            1
        } else {
            0
        }
    }

    /// The number of flagged tiles among the existing neighbours of `(r, c)`.
    pub open spec fn adj_flags(self, r: int, c: int) -> int {
        self.flag_ind(r - 1, c - 1) + self.flag_ind(r - 1, c) + self.flag_ind(r - 1, c + 1)
            + self.flag_ind(r, c - 1) + self.flag_ind(r, c + 1) + self.flag_ind(r + 1, c - 1)
            + self.flag_ind(r + 1, c) + self.flag_ind(r + 1, c + 1)
    }

    fn flagged_at(&self, r: usize, c: usize) -> (b: bool)
        requires
            self.wf(),
            self.in_bounds(r as int, c as int),
        ensures
            b == self.tile_at(r as int, c as int).flagged,
    {
        self.tile_matrix[r][c].flagged
    }

    /// Counts the flagged tiles among the existing neighbours of `(r, c)`.
    pub fn count_flagged_neighbours(&self, r: usize, c: usize) -> (n: u8)
        requires
            self.wf(),
            self.in_bounds(r as int, c as int),
        ensures
            n as int == self.adj_flags(r as int, c as int),
    {
        let mut n: u8 = 0;
        if r > 0 && c > 0 && self.flagged_at(r - 1, c - 1) {
            n += 1;
        }
        if r > 0 && self.flagged_at(r - 1, c) {
            n += 1;
        }
        if r > 0 && c + 1 < self.cols && self.flagged_at(r - 1, c + 1) {
            n += 1;
        }
        if c > 0 && self.flagged_at(r, c - 1) {
            n += 1;
        }
        if c + 1 < self.cols && self.flagged_at(r, c + 1) {
            n += 1;
        }
        if r + 1 < self.rows && c > 0 && self.flagged_at(r + 1, c - 1) {
            n += 1;
        }
        if r + 1 < self.rows && self.flagged_at(r + 1, c) {
            n += 1;
        }
        if r + 1 < self.rows && c + 1 < self.cols && self.flagged_at(r + 1, c + 1) {
            n += 1;
        }
        n
    }

    /// Whether every non-bomb tile is revealed.
    pub fn is_cleared(&self) -> (b: bool)
        requires
            self.wf(),
        ensures
            b == self.all_safe_revealed(),
    {
        let mut r: usize = 0;
        while r < self.rows
            invariant
                self.wf(),
                r <= self.rows,
                forall|i: int, j: int|
                    0 <= i < r && 0 <= j < self.cols && (#[trigger] self.tile_at(i, j)).kind
                        != TileKind::Bomb ==> self.tile_at(i, j).revealed,
            decreases self.rows - r,
        {
            let mut c: usize = 0;
            while c < self.cols
                invariant
                    self.wf(),
                    r < self.rows,
                    c <= self.cols,
                    forall|j: int|
                        0 <= j < c && (#[trigger] self.tile_at(r as int, j)).kind != TileKind::Bomb
                            ==> self.tile_at(r as int, j).revealed,
                decreases self.cols - c,
            {
                let t = self.tile_matrix[r][c];
                if !t.is_bomb() && !t.revealed {
                    proof {
                        assert(self.tile_at(r as int, c as int) == t);
                        assert(!self.all_safe_revealed());
                    }
                    return false;
                }
                c += 1;
            }
            r += 1;
        }
        true
    }
}

/// Relies on rand::Rng::gen_range over `0..n` on rand::thread_rng: the
/// range is non-empty, so the call does not panic and returns a value
/// drawn from within the range.
#[verifier::external_body]
fn random_below(n: usize) -> (r: usize)
    requires
        n > 0,
    ensures
        r < n,
{
    rand::thread_rng().gen_range(0..n)
}

/// Replaces the tile at `(r, c)`, leaving every other tile as it was.
fn set_tile(m: &mut Vec<Vec<Tile>>, r: usize, c: usize, t: Tile)
    requires
        r < old(m)@.len(),
        c < old(m)@[r as int]@.len(),
    ensures
        final(m)@.len() == old(m)@.len(),
        final(m)@[r as int]@ == old(m)@[r as int]@.update(c as int, t),
        forall|i: int| 0 <= i < old(m)@.len() && i != r ==> final(m)@[i] == old(m)@[i],
{
    m[r][c] = t;
}

impl Field {
    pub open spec fn z_r_lo(self, p: Position) -> int {
        if p.0 >= 1 {
            p.0 - 1
        } else {
            0
        }
    }

    pub open spec fn z_r_hi(self, p: Position) -> int {
        if p.0 + 1 <= self.rows - 1 {
            p.0 + 1
        } else {
            self.rows - 1
        }
    }

    pub open spec fn z_c_lo(self, p: Position) -> int {
        if p.1 >= 1 {
            p.1 - 1
        } else {
            0
        }
    }

    pub open spec fn z_c_hi(self, p: Position) -> int {
        if p.1 + 1 <= self.cols - 1 {
            p.1 + 1
        } else {
            self.cols - 1
        }
    }

    /// How many cells of the board lie in the safe zone around `p`.
    pub open spec fn zone_size(self, p: Position) -> int {
        (self.z_r_hi(p) - self.z_r_lo(p) + 1) * (self.z_c_hi(p) - self.z_c_lo(p) + 1)
    }

    /// How many cells are eligible to hold a bomb when the first reveal
    /// lands on `p`: every cell outside the safe zone around `p`.
    pub open spec fn eligible_count(self, p: Position) -> int {
        self.rows * self.cols - self.zone_size(p)
    }

    /// How many rows before row `i` meet the safe zone around `p`.
    spec fn zone_rows_before(self, p: Position, i: int) -> int {
        if i <= self.z_r_lo(p) {
            0
        } else if i <= self.z_r_hi(p) + 1 {
            i - self.z_r_lo(p)
        } else {
            self.z_r_hi(p) + 1 - self.z_r_lo(p)
        }
    }

    /// How many columns before column `j` meet the safe zone around `p`.
    spec fn zone_cols_before(self, p: Position, j: int) -> int {
        if j <= self.z_c_lo(p) {
            0
        } else if j <= self.z_c_hi(p) + 1 {
            j - self.z_c_lo(p)
        } else {
            self.z_c_hi(p) + 1 - self.z_c_lo(p)
        }
    }

    /// How many cells in row-major order before `(i, j)` lie in the safe
    /// zone around `p`.
    spec fn zone_cells_before(self, p: Position, i: int, j: int) -> int {
        self.zone_rows_before(p, i) * (self.z_c_hi(p) - self.z_c_lo(p) + 1) + (if self.z_r_lo(p)
            <= i <= self.z_r_hi(p) {
            self.zone_cols_before(p, j)
        } else {
            0
        })
    }
}

/// Bomb indicators at one coordinate agree between two boards whose
/// tiles agree on where the bombs are.
proof fn lemma_bomb_ind_eq(f1: Field, f2: Field, r: int, c: int)
    requires
        f1.rows == f2.rows,
        f1.cols == f2.cols,
        forall|i: int, j: int|
            f1.in_bounds(i, j) ==> ((#[trigger] f1.tile_at(i, j)).kind == TileKind::Bomb) == (
            f2.tile_at(i, j).kind == TileKind::Bomb),
    ensures
        f1.bomb_ind(r, c) == f2.bomb_ind(r, c),
{
    if f1.in_bounds(r, c) {
        assert((f1.tile_at(r, c).kind == TileKind::Bomb) == (f2.tile_at(r, c).kind
            == TileKind::Bomb));
    }
}

/// Adjacent-bomb counts agree between two boards whose tiles agree on
/// where the bombs are.
proof fn lemma_adj_bombs_eq(f1: Field, f2: Field, r: int, c: int)
    requires
        f1.rows == f2.rows,
        f1.cols == f2.cols,
        forall|i: int, j: int|
            f1.in_bounds(i, j) ==> ((#[trigger] f1.tile_at(i, j)).kind == TileKind::Bomb) == (
            f2.tile_at(i, j).kind == TileKind::Bomb),
    ensures
        f1.adj_bombs(r, c) == f2.adj_bombs(r, c),
{
    lemma_bomb_ind_eq(f1, f2, r - 1, c - 1);
    lemma_bomb_ind_eq(f1, f2, r - 1, c);
    lemma_bomb_ind_eq(f1, f2, r - 1, c + 1);
    lemma_bomb_ind_eq(f1, f2, r, c - 1);
    lemma_bomb_ind_eq(f1, f2, r, c + 1);
    lemma_bomb_ind_eq(f1, f2, r + 1, c - 1);
    lemma_bomb_ind_eq(f1, f2, r + 1, c);
    lemma_bomb_ind_eq(f1, f2, r + 1, c + 1);
}

/// On a well-formed board whose bomb target fits beside a worst-case
/// safe zone, the target fits beside the actual safe zone of any
/// starting point.
pub proof fn lemma_placeable_any_start(f: Field, p: Position)
    requires
        f.wf(),
        f.placeable(),
        f.in_bounds(p.0 as int, p.1 as int),
    ensures
        f.bomb_count() <= f.eligible_count(p),
{
    let rs = f.z_r_hi(p) - f.z_r_lo(p) + 1;
    let cs = f.z_c_hi(p) - f.z_c_lo(p) + 1;
    let mr: int = if (f.rows as int) < 3 {
        f.rows as int
    } else {
        3
    };
    let mc: int = if (f.cols as int) < 3 {
        f.cols as int
    } else {
        3
    };
    assert(1 <= rs <= mr);
    assert(1 <= cs <= mc);
    lemma_mul_pair_le(rs, cs, mr, mc);
}

impl Field {
    /// Populates a board of this board's dimensions and bomb target:
    /// exactly `bombs` bombs land uniformly at random on cells outside
    /// the safe zone around `starting_point`, and every non-bomb tile is
    /// classified by its true adjacent-bomb count. Fails exactly when the
    /// bomb target exceeds the number of eligible cells.
    pub fn populate(&self, starting_point: &Position) -> (res: Result<Field, ConfigError>)
        requires
            self.wf(),
            self.in_bounds(starting_point.0 as int, starting_point.1 as int),
        ensures
            self.bomb_count() > self.eligible_count(*starting_point) ==> res == Err::<
                Field,
                ConfigError,
            >(ConfigError::TooManyBombs),
            self.bomb_count() <= self.eligible_count(*starting_point) ==> (res matches Ok(f) && {
                &&& f.wf()
                &&& f.rows == self.rows
                &&& f.cols == self.cols
                &&& f.bombs == self.bombs
                &&& f.total_bombs() == f.bomb_count()
                &&& f.classified()
                &&& f.safe_zone_clear(*starting_point)
                &&& f.all_hidden()
            }),
    {
        let p = *starting_point;
        let lo_r: usize = if p.0 >= 1 {
            p.0 - 1
        } else {
            0
        };
        let hi_r: usize = if p.0 + 1 <= self.rows - 1 {
            p.0 + 1
        } else {
            self.rows - 1
        };
        let lo_c: usize = if p.1 >= 1 {
            p.1 - 1
        } else {
            0
        };
        let hi_c: usize = if p.1 + 1 <= self.cols - 1 {
            p.1 + 1
        } else {
            self.cols - 1
        };
        assert(lo_r == self.z_r_lo(p) && hi_r == self.z_r_hi(p));
        assert(lo_c == self.z_c_lo(p) && hi_c == self.z_c_hi(p));

        // Collect the eligible cells: everything outside the safe zone,
        // in row-major order (so the list holds no duplicates).
        let mut elig: Vec<Position> = Vec::new();
        let mut i: usize = 0;
        while i < self.rows
            invariant
                self.wf(),
                self.in_bounds(p.0 as int, p.1 as int),
                lo_r == self.z_r_lo(p),
                hi_r == self.z_r_hi(p),
                lo_c == self.z_c_lo(p),
                hi_c == self.z_c_hi(p),
                i <= self.rows,
                elig@.len() == i * self.cols - self.zone_cells_before(p, i as int, 0),
                forall|k: int|
                    0 <= k < elig@.len() ==> {
                        &&& self.in_bounds((#[trigger] elig@[k]).0 as int, elig@[k].1 as int)
                        &&& !is_near(p, elig@[k].0 as int, elig@[k].1 as int)
                        &&& (elig@[k].0 as int) < i
                    },
                forall|k1: int, k2: int|
                    0 <= k1 < k2 < elig@.len() ==> #[trigger] elig@[k1] != #[trigger] elig@[k2],
            decreases self.rows - i,
        {
            let mut j: usize = 0;
            while j < self.cols
                invariant
                    self.wf(),
                    self.in_bounds(p.0 as int, p.1 as int),
                    lo_r == self.z_r_lo(p),
                    hi_r == self.z_r_hi(p),
                    lo_c == self.z_c_lo(p),
                    hi_c == self.z_c_hi(p),
                    i < self.rows,
                    j <= self.cols,
                    elig@.len() == i * self.cols + j - self.zone_cells_before(
                        p,
                        i as int,
                        j as int,
                    ),
                    forall|k: int|
                        0 <= k < elig@.len() ==> {
                            &&& self.in_bounds((#[trigger] elig@[k]).0 as int, elig@[k].1 as int)
                            &&& !is_near(p, elig@[k].0 as int, elig@[k].1 as int)
                            &&& ((elig@[k].0 as int) < i || ((elig@[k].0 as int) == i && (
                            elig@[k].1 as int) < j))
                        },
                    forall|k1: int, k2: int|
                        0 <= k1 < k2 < elig@.len() ==> #[trigger] elig@[k1] != #[trigger] elig@[k2],
                decreases self.cols - j,
            {
                let in_zone = i >= lo_r && i <= hi_r && j >= lo_c && j <= hi_c;
                if !in_zone {
                    elig.push(Position(i, j));
                }
                j += 1;
            }
            proof {
                let a = self.zone_rows_before(p, i as int);
                let s = self.z_c_hi(p) - self.z_c_lo(p) + 1;
                assert((a + 1) * s == a * s + s) by (nonlinear_arith);
                assert((i + 1) * self.cols == i * self.cols + self.cols) by (nonlinear_arith);
            }
            i += 1;
        }
        proof {
            assert(self.zone_rows_before(p, self.rows as int) == self.z_r_hi(p) - self.z_r_lo(p)
                + 1);
            assert(elig@.len() == self.eligible_count(p));
        }

        if self.bombs > elig.len() {
            return Err(ConfigError::TooManyBombs);
        }

        // Place exactly `bombs` bombs: draw a random eligible cell, make
        // it a bomb, and retire that cell from the eligible list.
        let ghost elig0_len = elig@.len() as int;
        let mut f = Field {
            rows: self.rows,
            cols: self.cols,
            bombs: self.bombs,
            tile_matrix: create_matrix(self.rows, self.cols),
        };
        let mut placed: usize = 0;
        while placed < self.bombs
            invariant
                self.wf(),
                self.in_bounds(p.0 as int, p.1 as int),
                f.wf(),
                f.rows == self.rows,
                f.cols == self.cols,
                f.bombs == self.bombs,
                placed <= self.bombs,
                self.bombs <= elig0_len,
                f.total_bombs() == placed,
                elig@.len() == elig0_len - placed,
                forall|k: int|
                    0 <= k < elig@.len() ==> {
                        &&& f.in_bounds((#[trigger] elig@[k]).0 as int, elig@[k].1 as int)
                        &&& !is_near(p, elig@[k].0 as int, elig@[k].1 as int)
                        &&& !f.is_bomb_at(elig@[k].0 as int, elig@[k].1 as int)
                    },
                forall|k1: int, k2: int|
                    0 <= k1 < k2 < elig@.len() ==> #[trigger] elig@[k1] != #[trigger] elig@[k2],
                f.safe_zone_clear(p),
                f.all_hidden(),
                forall|r: int, c: int|
                    f.in_bounds(r, c) ==> ((#[trigger] f.tile_at(r, c)).kind == TileKind::Empty
                        || f.tile_at(r, c).kind == TileKind::Bomb),
            decreases self.bombs - placed,
        {
            let idx = random_below(elig.len());
            let pos = elig[idx];
            let ghost old_f = f;
            let ghost old_elig = elig@;
            let t = Tile::new_bomb(pos);
            let ghost old_row = f.tile_matrix@[pos.0 as int];
            set_tile(&mut f.tile_matrix, pos.0, pos.1, t);
            proof {
                assert forall|a: int, b: int| f.in_bounds(a, b) implies #[trigger] f.tile_at(a, b)
                    == (if a == pos.0 && b == pos.1 {
                    t
                } else {
                    old_f.tile_at(a, b)
                }) by {
                    if a == pos.0 as int {
                        assert(f.tile_matrix@[a]@ == old_f.tile_matrix@[a]@.update(
                            pos.1 as int,
                            t,
                        ));
                    } else {
                        assert(f.tile_matrix@[a] == old_f.tile_matrix@[a]);
                    }
                }
                assert(f.tile_matrix@ =~= old_f.tile_matrix@.update(
                    pos.0 as int,
                    f.tile_matrix@[pos.0 as int],
                ));
                lemma_matrix_bombs_update(
                    old_f.tile_matrix@,
                    pos.0 as int,
                    f.tile_matrix@[pos.0 as int],
                );
                lemma_row_bombs_update(old_row@, pos.1 as int, t);
                assert(f.total_bombs() == old_f.total_bombs() + 1);
            }
            elig.swap_remove(idx);
            placed += 1;
            proof {
                assert forall|k: int| 0 <= k < elig@.len() implies {
                    &&& f.in_bounds((#[trigger] elig@[k]).0 as int, elig@[k].1 as int)
                    &&& !is_near(p, elig@[k].0 as int, elig@[k].1 as int)
                    &&& !f.is_bomb_at(elig@[k].0 as int, elig@[k].1 as int)
                } by {
                    let e = elig@[k];
                    if k == idx {
                        assert(e == old_elig[old_elig.len() - 1]);
                        assert(e != pos);
                    } else {
                        assert(e == old_elig[k]);
                        assert(e != pos);
                    }
                    assert(e.0 != pos.0 || e.1 != pos.1);
                }
                assert forall|k1: int, k2: int| 0 <= k1 < k2 < elig@.len() implies #[trigger] elig@[k1]
                    != #[trigger] elig@[k2] by {
                    if k1 == idx {
                        assert(elig@[k1] == old_elig[old_elig.len() - 1]);
                        assert(elig@[k2] == old_elig[k2]);
                    } else if k2 == idx {
                        assert(elig@[k2] == old_elig[old_elig.len() - 1]);
                        assert(elig@[k1] == old_elig[k1]);
                    } else {
                        assert(elig@[k1] == old_elig[k1]);
                        assert(elig@[k2] == old_elig[k2]);
                    }
                }
            }
        }

        // Classify every non-bomb tile by its true adjacent-bomb count.
        let ghost g0 = f;
        let mut r: usize = 0;
        while r < self.rows
            invariant
                g0.wf(),
                f.wf(),
                f.rows == g0.rows,
                f.cols == g0.cols,
                f.bombs == g0.bombs,
                g0.rows == self.rows,
                g0.cols == self.cols,
                g0.bombs == self.bombs,
                r <= self.rows,
                f.total_bombs() == g0.total_bombs(),
                g0.total_bombs() == g0.bombs,
                g0.safe_zone_clear(p),
                self.in_bounds(p.0 as int, p.1 as int),
                forall|a: int, b: int|
                    f.in_bounds(a, b) ==> ((#[trigger] f.tile_at(a, b)).kind == TileKind::Bomb) == (
                    g0.tile_at(a, b).kind == TileKind::Bomb),
                forall|a: int, b: int|
                    f.in_bounds(a, b) && (a < r || (a == r && b < 0)) ==> #[trigger] f.tile_at(a, b)
                        == (Tile {
                        kind: classified_kind(g0.tile_at(a, b).kind, g0.adj_bombs(a, b)),
                        ..g0.tile_at(a, b)
                    }),
                forall|a: int, b: int|
                    f.in_bounds(a, b) && a >= r ==> #[trigger] f.tile_at(a, b) == g0.tile_at(a, b),
                g0.all_hidden(),
            decreases self.rows - r,
        {
            let mut c: usize = 0;
            while c < self.cols
                invariant
                    g0.wf(),
                    f.wf(),
                    f.rows == g0.rows,
                    f.cols == g0.cols,
                    f.bombs == g0.bombs,
                    g0.rows == self.rows,
                    g0.cols == self.cols,
                    g0.bombs == self.bombs,
                    r < self.rows,
                    c <= self.cols,
                    f.total_bombs() == g0.total_bombs(),
                    g0.total_bombs() == g0.bombs,
                    g0.safe_zone_clear(p),
                    self.in_bounds(p.0 as int, p.1 as int),
                    forall|a: int, b: int|
                        f.in_bounds(a, b) ==> ((#[trigger] f.tile_at(a, b)).kind == TileKind::Bomb)
                            == (g0.tile_at(a, b).kind == TileKind::Bomb),
                    forall|a: int, b: int|
                        f.in_bounds(a, b) && (a < r || (a == r && b < c)) ==> #[trigger] f.tile_at(
                            a,
                            b,
                        ) == (Tile {
                            kind: classified_kind(g0.tile_at(a, b).kind, g0.adj_bombs(a, b)),
                            ..g0.tile_at(a, b)
                        }),
                    forall|a: int, b: int|
                        f.in_bounds(a, b) && (a > r || (a == r && b >= c)) ==> #[trigger] f.tile_at(
                            a,
                            b,
                        ) == g0.tile_at(a, b),
                    g0.all_hidden(),
                decreases self.cols - c,
            {
                let t = f.tile_matrix[r][c];
                if !t.is_bomb() {
                    let n = f.count_adjacent_bombs(r, c);
                    proof {
                        lemma_adj_bombs_eq(f, g0, r as int, c as int);
                        assert(n <= 8);
                    }
                    let t2 = t.set_neighbours(n);
                    let ghost before = f;
                    let ghost old_row = f.tile_matrix@[r as int];
                    set_tile(&mut f.tile_matrix, r, c, t2);
                    proof {
                        assert forall|a: int, b: int| f.in_bounds(a, b) implies #[trigger] f.tile_at(
                            a,
                            b,
                        ) == (if a == r && b == c {
                            t2
                        } else {
                            before.tile_at(a, b)
                        }) by {
                            if a == r as int {
                                assert(f.tile_matrix@[a]@ == before.tile_matrix@[a]@.update(
                                    c as int,
                                    t2,
                                ));
                            } else {
                                assert(f.tile_matrix@[a] == before.tile_matrix@[a]);
                            }
                        }
                        assert(f.tile_matrix@ =~= before.tile_matrix@.update(
                            r as int,
                            f.tile_matrix@[r as int],
                        ));
                        lemma_matrix_bombs_update(
                            before.tile_matrix@,
                            r as int,
                            f.tile_matrix@[r as int],
                        );
                        lemma_row_bombs_update(old_row@, c as int, t2);
                        assert(bomb1(t2) == bomb1(t));
                        assert(f.total_bombs() == before.total_bombs());
                    }
                } else {
                    proof {
                        assert(f.tile_at(r as int, c as int) == (Tile {
                            kind: classified_kind(
                                g0.tile_at(r as int, c as int).kind,
                                g0.adj_bombs(r as int, c as int),
                            ),
                            ..g0.tile_at(r as int, c as int)
                        }));
                    }
                }
                c += 1;
            }
            r += 1;
        }
        proof {
            assert forall|a: int, b: int| f.in_bounds(a, b) implies (#[trigger] f.tile_at(a, b)).kind
                == classified_kind(f.tile_at(a, b).kind, f.adj_bombs(a, b)) by {
                lemma_adj_bombs_eq(f, g0, a, b);
                assert(f.tile_at(a, b) == (Tile {
                    kind: classified_kind(g0.tile_at(a, b).kind, g0.adj_bombs(a, b)),
                    ..g0.tile_at(a, b)
                }));
            }
            assert(f.classified());
            assert forall|a: int, b: int| f.in_bounds(a, b) && is_near(p, a, b) implies (
            #[trigger] f.tile_at(a, b)).kind != TileKind::Bomb by {
                assert(g0.tile_at(a, b).kind != TileKind::Bomb);
            }
            assert forall|a: int, b: int| f.in_bounds(a, b) implies {
                &&& !(#[trigger] f.tile_at(a, b)).revealed
                &&& !f.tile_at(a, b).flagged
                &&& !f.tile_at(a, b).selected
            } by {
                assert(f.tile_at(a, b) == (Tile {
                    kind: classified_kind(g0.tile_at(a, b).kind, g0.adj_bombs(a, b)),
                    ..g0.tile_at(a, b)
                }));
                assert(!g0.tile_at(a, b).revealed && !g0.tile_at(a, b).flagged && !g0.tile_at(
                    a,
                    b,
                ).selected);
            }
        }
        Ok(f)
    }
}

/// What one `TileOp` does to one tile.
#[derive(Clone, Copy, PartialEq, Eq, Structural, Debug)]
pub enum TileOp {
    Select,
    Deselect,
    ToggleFlag,
    Uncover,
}

pub open spec fn apply_op(op: TileOp, t: Tile) -> Tile {
    match op {
        TileOp::Select => Tile { selected: true, ..t },
        TileOp::Deselect => Tile { selected: false, ..t },
        TileOp::ToggleFlag => if t.revealed {
            t
        } else {
            Tile { flagged: !t.flagged, ..t }
        },
        TileOp::Uncover => if t.revealed || t.flagged {
            t
        } else {
            Tile { revealed: true, ..t }
        },
    }
}

fn apply_op_exec(op: TileOp, t: Tile) -> (r: Tile)
    ensures
        r == apply_op(op, t),
{
    match op {
        TileOp::Select => t.select(),
        TileOp::Deselect => t.deselect(),
        TileOp::ToggleFlag => {
            if t.revealed {
                t
            } else if t.flagged {
                t.unflag()
            } else {
                t.flag()
            }
        },
        TileOp::Uncover => {
            if t.revealed || t.flagged {
                t
            } else {
                t.uncover()
            }
        },
    }
}

/// How `toggle_flag` relates the board after the call to the board
/// before it: only the addressed tile changes, and only when hidden.
pub open spec fn toggle_rel(pre: Field, post: Field, p: Position) -> bool {
    &&& post.rows == pre.rows
    &&& post.cols == pre.cols
    &&& post.bombs == pre.bombs
    &&& forall|r: int, c: int|
        pre.in_bounds(r, c) ==> #[trigger] post.tile_at(r, c) == (if r == p.0 && c == p.1
            && !pre.tile_at(r, c).revealed {
            Tile { flagged: !pre.tile_at(r, c).flagged, ..pre.tile_at(r, c) }
        } else {
            pre.tile_at(r, c)
        })
}

/// How `uncover` relates the board after the call to the board before
/// it: only the addressed tile changes, and only when hidden and
/// unflagged.
pub open spec fn uncover_rel(pre: Field, post: Field, p: Position) -> bool {
    &&& post.rows == pre.rows
    &&& post.cols == pre.cols
    &&& post.bombs == pre.bombs
    &&& forall|r: int, c: int|
        pre.in_bounds(r, c) ==> #[trigger] post.tile_at(r, c) == (if r == p.0 && c == p.1
            && !pre.tile_at(r, c).revealed && !pre.tile_at(r, c).flagged {
            Tile { revealed: true, ..pre.tile_at(r, c) }
        } else {
            pre.tile_at(r, c)
        })
}

/// Law: toggling the flag of the same tile twice returns every tile,
/// and in particular the addressed one, to its original state.
pub proof fn lemma_toggle_flag_twice(f1: Field, f2: Field, f3: Field, p: Position)
    requires
        toggle_rel(f1, f2, p),
        toggle_rel(f2, f3, p),
    ensures
        f3.rows == f1.rows,
        f3.cols == f1.cols,
        forall|r: int, c: int| f1.in_bounds(r, c) ==> #[trigger] f3.tile_at(r, c) == f1.tile_at(
            r,
            c,
        ),
{
    assert forall|r: int, c: int| f1.in_bounds(r, c) implies #[trigger] f3.tile_at(r, c)
        == f1.tile_at(r, c) by {
        assert(f2.tile_at(r, c) == (if r == p.0 && c == p.1 && !f1.tile_at(r, c).revealed {
            Tile { flagged: !f1.tile_at(r, c).flagged, ..f1.tile_at(r, c) }
        } else {
            f1.tile_at(r, c)
        }));
    }
}

/// `a <= m / b` implies `a * b <= m` (for positive `b`).
proof fn lemma_mul_le_from_div(a: int, b: int, m: int)
    requires
        b >= 1,
        0 <= m,
        0 <= a <= m / b,
    ensures
        a * b <= m,
{
    assert(a * b <= m) by (nonlinear_arith)
        requires
            b >= 1,
            0 <= m,
            0 <= a <= m / b,
    ;
}

/// `a > m / b` implies `a * b > m` (for positive `b`).
proof fn lemma_mul_gt_from_div(a: int, b: int, m: int)
    requires
        b >= 1,
        0 <= m,
        a > m / b,
    ensures
        a * b > m,
{
    assert(a * b > m) by (nonlinear_arith)
        requires
            b >= 1,
            0 <= m,
            a > m / b,
    ;
}

/// Multiplication is monotonic in both non-negative factors.
proof fn lemma_mul_pair_le(a: int, b: int, x: int, y: int)
    requires
        0 <= a <= x,
        0 <= b <= y,
    ensures
        a * b <= x * y,
{
    assert(a * b <= x * y) by (nonlinear_arith)
        requires
            0 <= a <= x,
            0 <= b <= y,
    ;
}

/// `row_bombs` counted after appending one tile.
proof fn lemma_row_bombs_push(s: Seq<Tile>, t: Tile)
    ensures
        row_bombs(s.push(t)) == row_bombs(s) + bomb1(t),
{
    assert(s.push(t).drop_last() =~= s);
}

/// `matrix_bombs` counted after appending one row.
proof fn lemma_matrix_bombs_push(m: Seq<Vec<Tile>>, v: Vec<Tile>)
    ensures
        matrix_bombs(m.push(v)) == matrix_bombs(m) + row_bombs(v@),
{
    assert(m.push(v).drop_last() =~= m);
}

/// Replacing one tile changes `row_bombs` by the difference of the two
/// tiles' bomb indicators.
proof fn lemma_row_bombs_update(s: Seq<Tile>, k: int, t: Tile)
    requires
        0 <= k < s.len(),
    ensures
        row_bombs(s.update(k, t)) == row_bombs(s) - bomb1(s[k]) + bomb1(t),
    decreases s.len(),
{
    if k == s.len() - 1 {
        assert(s.update(k, t).drop_last() =~= s.drop_last());
        assert(s.update(k, t).last() == t);
    } else {
        assert(s.update(k, t).drop_last() =~= s.drop_last().update(k, t));
        assert(s.update(k, t).last() == s.last());
        lemma_row_bombs_update(s.drop_last(), k, t);
    }
}

/// Replacing one row changes `matrix_bombs` by the difference of the two
/// rows' bomb counts.
proof fn lemma_matrix_bombs_update(m: Seq<Vec<Tile>>, k: int, v: Vec<Tile>)
    requires
        0 <= k < m.len(),
    ensures
        matrix_bombs(m.update(k, v)) == matrix_bombs(m) - row_bombs(m[k]@) + row_bombs(v@),
    decreases m.len(),
{
    if k == m.len() - 1 {
        assert(m.update(k, v).drop_last() =~= m.drop_last());
        assert(m.update(k, v).last() == v);
    } else {
        assert(m.update(k, v).drop_last() =~= m.drop_last().update(k, v));
        assert(m.update(k, v).last() == m.last());
        lemma_matrix_bombs_update(m.drop_last(), k, v);
    }
}

/// Builds the all-blank `rows`-by-`cols` matrix.
fn create_matrix(rows: usize, cols: usize) -> (m: TileMatrix)
    requires
        1 <= rows,
        1 <= cols,
    ensures
        m@.len() == rows,
        forall|r: int| 0 <= r < rows ==> (#[trigger] m@[r])@.len() == cols,
        forall|r: int, c: int|
            0 <= r < rows && 0 <= c < cols ==> (#[trigger] m@[r]@[c]) == blank_tile(r, c),
        matrix_bombs(m@) == 0,
{
    let mut m: TileMatrix = Vec::new();
    let mut r: usize = 0;
    while r < rows
        invariant
            r <= rows,
            m@.len() == r,
            forall|i: int| 0 <= i < r ==> (#[trigger] m@[i])@.len() == cols,
            forall|i: int, j: int|
                0 <= i < r && 0 <= j < cols ==> (#[trigger] m@[i]@[j]) == blank_tile(i, j),
            matrix_bombs(m@) == 0,
        decreases rows - r,
    {
        let mut row: Vec<Tile> = Vec::new();
        let mut c: usize = 0;
        while c < cols
            invariant
                c <= cols,
                row@.len() == c,
                forall|j: int| 0 <= j < c ==> (#[trigger] row@[j]) == blank_tile(r as int, j),
                row_bombs(row@) == 0,
            decreases cols - c,
        {
            let t = Tile::new_empty(Position(r, c));
            proof {
                lemma_row_bombs_push(row@, t);
            }
            row.push(t);
            c += 1;
        }
        proof {
            lemma_matrix_bombs_push(m@, row);
        }
        m.push(row);
        r += 1;
    }
    m
}

/// Whether `(r, c)` is one of the up-to-8 Moore neighbours of `p`.
pub open spec fn is_neighbour(p: Position, r: int, c: int) -> bool {
    adjacent(p.0 as int, p.1 as int, r, c)
}

/// Whether `(r1, c1)` and `(r2, c2)` are distinct Moore-adjacent cells.
pub open spec fn adjacent(r1: int, c1: int, r2: int, c2: int) -> bool {
    &&& r1 - 1 <= r2 <= r1 + 1
    &&& c1 - 1 <= c2 <= c1 + 1
    &&& !(r1 == r2 && c1 == c2)
}

/// The flood-fill guarantee of a reveal: every tile the call newly
/// revealed that stands empty afterwards has every existing, unflagged
/// neighbour revealed as well. Together with monotonicity this closes
/// the revealed region outward through empty tiles, up to flags: a body
/// that reveals an empty tile without cascading cannot satisfy it.
pub open spec fn flood_closed(pre: Field, post: Field) -> bool {
    forall|r: int, c: int, r2: int, c2: int|
        #![trigger post.tile_at(r, c), post.tile_at(r2, c2)]
        post.in_bounds(r, c) && !pre.tile_at(r, c).revealed && post.tile_at(r, c).revealed
            && post.tile_at(r, c).kind == TileKind::Empty && adjacent(r, c, r2, c2)
            && post.in_bounds(r2, c2) && !post.tile_at(r2, c2).flagged ==> post.tile_at(
            r2,
            c2,
        ).revealed
}

/// The tiles keep their kind, position and selection mark.
pub open spec fn kinds_preserved(pre: Field, post: Field) -> bool {
    forall|r: int, c: int|
        pre.in_bounds(r, c) ==> {
            &&& (#[trigger] post.tile_at(r, c)).kind == pre.tile_at(r, c).kind
            &&& post.tile_at(r, c).position == pre.tile_at(r, c).position
            &&& post.tile_at(r, c).selected == pre.tile_at(r, c).selected
        }
}

/// No revealed tile goes back to hidden.
pub open spec fn revealed_monotone(pre: Field, post: Field) -> bool {
    forall|r: int, c: int|
        pre.in_bounds(r, c) && (#[trigger] pre.tile_at(r, c)).revealed ==> post.tile_at(
            r,
            c,
        ).revealed
}

/// Every flag stays where it was, and flagged tiles are wholly untouched.
pub open spec fn flags_preserved(pre: Field, post: Field) -> bool {
    forall|r: int, c: int|
        pre.in_bounds(r, c) ==> {
            &&& (#[trigger] post.tile_at(r, c)).flagged == pre.tile_at(r, c).flagged
            &&& (pre.tile_at(r, c).flagged ==> post.tile_at(r, c) == pre.tile_at(r, c))
        }
}

/// Dimensions and the bomb target are unchanged.
pub open spec fn same_shape(pre: Field, post: Field) -> bool {
    &&& post.rows == pre.rows
    &&& post.cols == pre.cols
    &&& post.bombs == pre.bombs
}

/// Two rows with bombs in the same places hold the same number of bombs.
proof fn lemma_row_bombs_pointwise(s1: Seq<Tile>, s2: Seq<Tile>)
    requires
        s1.len() == s2.len(),
        forall|j: int| 0 <= j < s1.len() ==> bomb1(#[trigger] s1[j]) == bomb1(#[trigger] s2[j]),
    ensures
        row_bombs(s1) == row_bombs(s2),
    decreases s1.len(),
{
    if s1.len() > 0 {
        assert(bomb1(s1.last()) == bomb1(s2.last()));
        assert(forall|j: int|
            0 <= j < s1.drop_last().len() ==> bomb1(#[trigger] s1.drop_last()[j]) == bomb1(
                #[trigger] s2.drop_last()[j],
            ));
        lemma_row_bombs_pointwise(s1.drop_last(), s2.drop_last());
    }
}

/// Two matrices with bombs in the same places hold the same number of
/// bombs.
proof fn lemma_matrix_bombs_pointwise(m1: Seq<Vec<Tile>>, m2: Seq<Vec<Tile>>)
    requires
        m1.len() == m2.len(),
        forall|i: int| 0 <= i < m1.len() ==> (#[trigger] m1[i])@.len() == (#[trigger] m2[i])@.len(),
        forall|i: int, j: int|
            0 <= i < m1.len() && 0 <= j < m1[i]@.len() ==> bomb1(#[trigger] m1[i]@[j]) == bomb1(
                m2[i]@[j],
            ),
    ensures
        matrix_bombs(m1) == matrix_bombs(m2),
    decreases m1.len(),
{
    if m1.len() > 0 {
        lemma_row_bombs_pointwise(m1.last()@, m2.last()@);
        lemma_matrix_bombs_pointwise(m1.drop_last(), m2.drop_last());
    }
}

/// What carries over between two boards whose tiles hold their kinds in
/// the same places: the bomb total, the classification invariant, and
/// every safe zone.
pub proof fn lemma_kinds_agree_transfer(f1: Field, f2: Field)
    requires
        f1.wf(),
        f2.rows == f1.rows,
        f2.cols == f1.cols,
        f2.tile_matrix@.len() == f1.tile_matrix@.len(),
        forall|r: int|
            0 <= r < f1.rows ==> (#[trigger] f2.tile_matrix@[r])@.len()
                == f1.tile_matrix@[r]@.len(),
        forall|r: int, c: int|
            f1.in_bounds(r, c) ==> (#[trigger] f2.tile_at(r, c)).kind == f1.tile_at(r, c).kind,
    ensures
        f2.total_bombs() == f1.total_bombs(),
        f1.classified() ==> f2.classified(),
        forall|p: Position| f1.safe_zone_clear(p) ==> #[trigger] f2.safe_zone_clear(p),
{
    assert forall|i: int, j: int|
        0 <= i < f1.tile_matrix@.len() && 0 <= j < f1.tile_matrix@[i]@.len() implies bomb1(
        #[trigger] f1.tile_matrix@[i]@[j],
    ) == bomb1(f2.tile_matrix@[i]@[j]) by {
        assert(f1.in_bounds(i, j));
        assert(f2.tile_at(i, j).kind == f1.tile_at(i, j).kind);
    }
    lemma_matrix_bombs_pointwise(f1.tile_matrix@, f2.tile_matrix@);
    if f1.classified() {
        assert forall|r: int, c: int| f2.in_bounds(r, c) implies (#[trigger] f2.tile_at(r, c)).kind
            == classified_kind(f2.tile_at(r, c).kind, f2.adj_bombs(r, c)) by {
            lemma_adj_bombs_eq(f2, f1, r, c);
            assert(f1.tile_at(r, c).kind == classified_kind(
                f1.tile_at(r, c).kind,
                f1.adj_bombs(r, c),
            ));
        }
    }
    assert forall|p: Position| f1.safe_zone_clear(p) implies #[trigger] f2.safe_zone_clear(p) by {
        assert forall|r: int, c: int| f2.in_bounds(r, c) && is_near(p, r, c) implies (
        #[trigger] f2.tile_at(r, c)).kind != TileKind::Bomb by {
            assert(f1.tile_at(r, c).kind != TileKind::Bomb);
        }
    }
}

} // verus!
