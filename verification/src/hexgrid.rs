//! Positions on the hex grid and the chunked, lazily generated cell store.

use vstd::prelude::*;
use vstd::std_specs::ops::{AddSpecImpl, MulSpecImpl};
use std::collections::HashMap;

pub mod area;
pub mod geometry;
pub mod matrix;
pub mod search;

pub use area::{neighbors, v_mul_reduce, weighted_sum, weighted_sum_fits, within};
pub use geometry::{
    adjacent, ascending, cube_distance, cube_of, cube_span, disc, disc_listing, distance, half_up,
    hex_distance, kept, lemma_adjacent_by_offsets, lemma_ascending_unique, lemma_disc,
    lemma_disc_in_square, lemma_distance_symmetric, lemma_distance_zero, lemma_neighbor_symmetry,
    lemma_ring, lemma_ring_by_offsets, lex_less, offset_neighbor, ring, ring_listing,
    wide_distance, xy_to_cube, XYZCont,
};
pub use search::{
    accepts, chain, decides, get_connected, lemma_closed_set_holds_reachable, linked, listed,
};

verus! {

/// Number of cells along each side of a chunk.
pub const CHUNK_SIZE: usize = 0x100;

/// Mask selecting the part of a coordinate that addresses a cell inside its chunk.
pub const INDEX_MASK: i32 = 0xFF;

/// Mask selecting the part of a coordinate that names the chunk.
pub const CHUNK_MASK: i32 = !INDEX_MASK;

/// A pair of coordinates.
#[derive(Debug, Clone, Copy, PartialEq, Eq, Hash)]
pub struct XYCont<C> {
    pub x: C,
    pub y: C,
}

/// A position on the grid.
pub type Pos = XYCont<i32>;

/// The board of a game: a grid of cell states.
pub type Board<C> = Hexgrid<crate::celldata::CellState, C>;

/// The offset of coordinate `v` inside its chunk, between 0 and `CHUNK_SIZE - 1`.
pub open spec fn chunk_offset(v: int) -> int {
    v % 256
}

/// The chunk-aligned coordinate at or below `v`.
pub open spec fn chunk_base(v: int) -> int {
    v - v % 256
}

/// The key of the chunk that holds `p`: `p` with both coordinates aligned down.
pub open spec fn chunk_key_of(p: Pos) -> Pos {
    XYCont { x: chunk_base(p.x as int) as i32, y: chunk_base(p.y as int) as i32 }
}

proof fn lemma_mask_split(v: i32)
    ensures
        (v & INDEX_MASK) as int == chunk_offset(v as int),
        (v & CHUNK_MASK) as int == chunk_base(v as int),
        0 <= (v & INDEX_MASK) < 256,
{
    assert(v & 0xFFi32 == v % 256 && 0 <= (v & 0xFFi32) < 256 && (v & !0xFFi32) == v - v % 256)
        by (bit_vector);
}

/// Splits a position into the key of its chunk and the index inside the chunk.
pub fn to_chunk_keys(p: Pos) -> (r: (XYCont<i32>, XYCont<usize>))
    ensures
        r.0 == chunk_key_of(p),
        r.1.x == chunk_offset(p.x as int),
        r.1.y == chunk_offset(p.y as int),
        r.1.x < CHUNK_SIZE,
        r.1.y < CHUNK_SIZE,
{
    proof {
        lemma_mask_split(p.x);
        lemma_mask_split(p.y);
    }
    let chunk_key = XYCont { x: p.x & CHUNK_MASK, y: p.y & CHUNK_MASK };
    let in_chunk_key = XYCont { x: (p.x & INDEX_MASK) as usize, y: (p.y & INDEX_MASK) as usize };
    (chunk_key, in_chunk_key)
}

impl core::ops::Mul<XYCont<i32>> for XYCont<i32> {
    type Output = XYCont<i32>;

    fn mul(self, rhs: XYCont<i32>) -> (r: XYCont<i32>) {
        XYCont { x: self.x * rhs.x, y: self.y * rhs.y }
    }
}

impl MulSpecImpl<XYCont<i32>> for XYCont<i32> {
    open spec fn obeys_mul_spec() -> bool {
        true
    }

    open spec fn mul_req(self, rhs: XYCont<i32>) -> bool {
        &&& i32::MIN <= self.x * rhs.x <= i32::MAX
        &&& i32::MIN <= self.y * rhs.y <= i32::MAX
    }

    open spec fn mul_spec(self, rhs: XYCont<i32>) -> XYCont<i32> {
        XYCont { x: (self.x * rhs.x) as i32, y: (self.y * rhs.y) as i32 }
    }
}

impl core::ops::Mul<i32> for XYCont<i32> {
    type Output = XYCont<i32>;

    fn mul(self, rhs: i32) -> (r: XYCont<i32>) {
        XYCont { x: self.x * rhs, y: self.y * rhs }
    }
}

impl MulSpecImpl<i32> for XYCont<i32> {
    open spec fn obeys_mul_spec() -> bool {
        true
    }

    open spec fn mul_req(self, rhs: i32) -> bool {
        &&& i32::MIN <= self.x * rhs <= i32::MAX
        &&& i32::MIN <= self.y * rhs <= i32::MAX
    }

    open spec fn mul_spec(self, rhs: i32) -> XYCont<i32> {
        XYCont { x: (self.x * rhs) as i32, y: (self.y * rhs) as i32 }
    }
}

impl core::ops::Mul<XYCont<i32>> for i32 {
    type Output = XYCont<i32>;

    fn mul(self, rhs: XYCont<i32>) -> (r: XYCont<i32>) {
        XYCont { x: rhs.x * self, y: rhs.y * self }
    }
}

impl MulSpecImpl<XYCont<i32>> for i32 {
    open spec fn obeys_mul_spec() -> bool {
        true
    }

    open spec fn mul_req(self, rhs: XYCont<i32>) -> bool {
        &&& i32::MIN <= rhs.x * self <= i32::MAX
        &&& i32::MIN <= rhs.y * self <= i32::MAX
    }

    open spec fn mul_spec(self, rhs: XYCont<i32>) -> XYCont<i32> {
        XYCont { x: (rhs.x * self) as i32, y: (rhs.y * self) as i32 }
    }
}

impl core::ops::Add<XYCont<i32>> for XYCont<i32> {
    type Output = XYCont<i32>;

    fn add(self, rhs: XYCont<i32>) -> (r: XYCont<i32>) {
        XYCont { x: rhs.x + self.x, y: rhs.y + self.y }
    }
}

impl AddSpecImpl<XYCont<i32>> for XYCont<i32> {
    open spec fn obeys_add_spec() -> bool {
        true
    }

    open spec fn add_req(self, rhs: XYCont<i32>) -> bool {
        &&& i32::MIN <= rhs.x + self.x <= i32::MAX
        &&& i32::MIN <= rhs.y + self.y <= i32::MAX
    }

    open spec fn add_spec(self, rhs: XYCont<i32>) -> XYCont<i32> {
        XYCont { x: (rhs.x + self.x) as i32, y: (rhs.y + self.y) as i32 }
    }
}

/// Whether `p` lies in one of the four corners of its chunk.
pub fn is_chunk_corner(p: Pos) -> (r: bool)
    ensures
        r == ((chunk_offset(p.x as int) == 0 || chunk_offset(p.x as int) == 255) && (chunk_offset(
            p.y as int,
        ) == 0 || chunk_offset(p.y as int) == 255)),
{
    proof {
        lemma_mask_split(p.x);
        lemma_mask_split(p.y);
    }
    let x = p.x & INDEX_MASK;
    let y = p.y & INDEX_MASK;
    ((x == 0) || (x == INDEX_MASK)) && (y == 0 || (y == INDEX_MASK))
}

/// The flat index inside its chunk of the cell at `p`.
pub open spec fn chunk_cell_index(p: Pos) -> int {
    chunk_offset(p.x as int) * 256 + chunk_offset(p.y as int)
}

/// A chunk of the grid: `CHUNK_SIZE` rows of `CHUNK_SIZE` cells.
pub struct Chunk<T> {
    table: matrix::Matrix<T>,
}

impl<T> Chunk<T> {
    #[verifier::type_invariant]
    closed spec fn shaped(&self) -> bool {
        &&& self.table.size_y() == CHUNK_SIZE
        &&& self.table.cells().len() == CHUNK_SIZE * CHUNK_SIZE
    }

    /// The cells of the chunk, row after row.
    pub closed spec fn cells(&self) -> Seq<T> {
        self.table.cells()
    }

    /// Accepts a table as a chunk if it has the measures of one.
    pub fn from_matrix(table: matrix::Matrix<T>) -> (r: Option<Chunk<T>>)
        ensures
            r.is_some() <==> (table.size_y() == CHUNK_SIZE && table.cells().len() == CHUNK_SIZE
                * CHUNK_SIZE),
            r matches Some(chunk) ==> chunk.cells() == table.cells(),
    {
        if table.row_len() == CHUNK_SIZE && table.cell_count() == CHUNK_SIZE * CHUNK_SIZE {
            Some(Chunk { table })
        } else {
            None
        }
    }

    /// The cell with in-chunk index `at`.
    fn cell(&self, at: XYCont<usize>) -> (r: &T)
        requires
            at.x < CHUNK_SIZE,
            at.y < CHUNK_SIZE,
        ensures
            *r == self.cells()[at.x * 256 + at.y],
            self.cells().len() == CHUNK_SIZE * CHUNK_SIZE,
    {
        proof {
            use_type_invariant(self);
        }
        let found = matrix::get(&self.table, at);
        found.unwrap()
    }

    /// Replaces the cell with in-chunk index `at`.
    fn put(&mut self, at: XYCont<usize>, cell: T)
        requires
            at.x < CHUNK_SIZE,
            at.y < CHUNK_SIZE,
        ensures
            final(self).cells() == old(self).cells().update(at.x * 256 + at.y, cell),
            old(self).cells().len() == CHUNK_SIZE * CHUNK_SIZE,
    {
        proof {
            use_type_invariant(&*self);
        }
        matrix::set(&mut self.table, cell, at);
    }
}

/// A generator of cells, run by the grid the first time a chunk is needed.
///
/// An implementation promises that the cells of a chunk are a function of the
/// context and the position alone, and that running it leaves that function
/// as it was, whatever else it does to the context. The grid relies on this
/// promise and cannot check it: for an implementation that is not verified,
/// what the grid's contracts say of generated cells holds only as far as the
/// implementation keeps it. `generated` is named in contracts alone and never
/// run; an implementation in plain Rust gives it a body that is never reached.
pub trait CellGen<C>: Sized {
    /// The cell that the generator places at `p` when run with context `c`.
    spec fn generated(c: C, p: Pos) -> Self;

    /// Generates the chunk that holds `p`.
    fn new_chunk(p: Pos, c: &mut C) -> (chunk: Chunk<Self>)
        ensures
            forall|q: Pos|
                chunk_key_of(q) == chunk_key_of(p) ==> chunk.cells()[chunk_cell_index(q)]
                    == #[trigger] Self::generated(*old(c), q),
            forall|q: Pos| #[trigger] Self::generated(*final(c), q) == Self::generated(*old(c), q),
    ;
}

/// Context for generators that need none.
#[derive(Debug, Clone)]
pub enum EmptyContext {
    Nothing,
}

/// What a grid holds: the cell at every position, the positions whose chunk
/// has been generated, and the cell reported for the others by a read that
/// does not generate.
pub struct GridView<T> {
    pub values: Map<Pos, T>,
    pub realized: Set<Pos>,
    pub sentinel: T,
}

impl<T> GridView<T> {
    /// What a read that does not generate reports at `p`.
    pub open spec fn peek(self, p: Pos) -> T {
        if self.realized.contains(p) {
            self.values[p]
        } else {
            self.sentinel
        }
    }

    /// The grid once the chunk of `p` has been generated.
    pub open spec fn touched(self, p: Pos) -> GridView<T> {
        GridView {
            realized: Set::new(
                |q: Pos| self.realized.contains(q) || chunk_key_of(q) == chunk_key_of(p),
            ),
            ..self
        }
    }

    /// The grid once the chunks of all of `ps` have been generated.
    pub open spec fn touched_all(self, ps: Seq<Pos>) -> GridView<T>
        decreases ps.len(),
    {
        if ps.len() == 0 {
            self
        } else {
            self.touched_all(ps.drop_last()).touched(ps.last())
        }
    }

    /// The grid once `c` has been written at `p`.
    pub open spec fn put(self, p: Pos, c: T) -> GridView<T> {
        GridView { values: self.values.insert(p, c), ..self.touched(p) }
    }

    /// `other` is this grid with more chunks generated and nothing else changed.
    pub open spec fn grown_to(self, other: GridView<T>) -> bool {
        exists|ps: Seq<Pos>| other == #[trigger] self.touched_all(ps)
    }
}

/// A number that stands for the position `key`: different positions have
/// different numbers. The table of chunks is keyed by the numbers of the chunk
/// keys.
pub open spec fn pos_code(key: Pos) -> u64 {
    ((key.x + 0x8000_0000) * 0x1_0000_0000 + (key.y + 0x8000_0000)) as u64
}

pub(crate) fn pack_key(key: Pos) -> (k: u64)
    ensures
        k == pos_code(key),
{
    let hi: u64 = (key.x as i64 + 0x8000_0000) as u64;
    let lo: u64 = (key.y as i64 + 0x8000_0000) as u64;
    hi * 0x1_0000_0000 + lo
}

pub(crate) proof fn lemma_pos_code_injective(a: Pos, b: Pos)
    requires
        pos_code(a) == pos_code(b),
    ensures
        a == b,
{
}

proof fn lemma_chunk_key_idempotent(p: Pos)
    ensures
        chunk_key_of(chunk_key_of(p)) == chunk_key_of(p),
        0 <= chunk_cell_index(p) < 0x10000,
{
}

/// An unbounded grid of cells, stored in chunks that are generated when first
/// needed.
pub struct Hexgrid<T: CellGen<C>, C> {
    chunks: HashMap<u64, Chunk<T>>,
    gen_context: C,
    out_of_bounds: T,
}

impl<T: CellGen<C>, C> Hexgrid<T, C> {
    /// The generator context as it stands.
    pub closed spec fn context(&self) -> C {
        self.gen_context
    }
}

impl<T: CellGen<C>, C> View for Hexgrid<T, C> {
    type V = GridView<T>;

    closed spec fn view(&self) -> GridView<T> {
        GridView {
            values: Map::total(
                |p: Pos|
                    if self.chunks@.contains_key(pos_code(chunk_key_of(p))) {
                        self.chunks@[pos_code(chunk_key_of(p))].cells()[chunk_cell_index(p)]
                    } else {
                        T::generated(self.gen_context, p)
                    },
            ),
            realized: Set::new(|p: Pos| self.chunks@.contains_key(pos_code(chunk_key_of(p)))),
            sentinel: self.out_of_bounds,
        }
    }
}

/// An empty grid: no chunk generated yet.
pub fn new<T: CellGen<C>, C>(gen_context: C, out_of_bounds: T) -> (m: Hexgrid<T, C>)
    ensures
        m@.realized == Set::<Pos>::empty(),
        m@.sentinel == out_of_bounds,
        m@.values == Map::total(|p: Pos| T::generated(gen_context, p)),
        m.context() == gen_context,
{
    broadcast use vstd::std_specs::hash::group_hash_axioms;

    let m = Hexgrid { chunks: HashMap::new(), gen_context, out_of_bounds };
    assert(m@.realized =~= Set::<Pos>::empty());
    assert(m@.values =~= Map::total(|p: Pos| T::generated(gen_context, p)));
    m
}

/// What a fresh grid holds depends on the generator context alone: two grids
/// that were made with the same context and in which nothing has been written
/// hold the same cell at every position, which is the cell that the generator
/// makes there, whatever chunks either has generated since.
pub proof fn lemma_fresh_grids_agree<T: CellGen<C>, C>(
    a: GridView<T>,
    b: GridView<T>,
    context: C,
    reads_a: Seq<Pos>,
    reads_b: Seq<Pos>,
    p: Pos,
)
    requires
        a.values == Map::total(|q: Pos| T::generated(context, q)),
        b.values == Map::total(|q: Pos| T::generated(context, q)),
    ensures
        a.touched_all(reads_a).values[p] == T::generated(context, p),
        b.touched_all(reads_b).values[p] == T::generated(context, p),
        a.touched_all(reads_a).touched(p).peek(p) == b.touched_all(reads_b).touched(p).peek(p),
{
    a.lemma_touched_all_keeps_cells(reads_a);
    b.lemma_touched_all_keeps_cells(reads_b);
}

/// `cell` is a clone of a clone of `example`.
pub open spec fn copy_of<T: Clone>(example: T, cell: T) -> bool {
    exists|mid: T| cloned(example, mid) && cloned(mid, cell)
}

/// A chunk in which every cell is a copy of `example`.
pub fn chunk_from_example<T: Clone>(example: T) -> (chunk: Chunk<T>)
    ensures
        chunk.cells().len() == CHUNK_SIZE * CHUNK_SIZE,
        forall|i: int| 0 <= i < CHUNK_SIZE * CHUNK_SIZE ==> copy_of(example, #[trigger] chunk.cells()[i]),
{
    let mut ret: Vec<Vec<T>> = Vec::new();
    let mut x: usize = 0;
    while x < CHUNK_SIZE
        invariant
            x <= CHUNK_SIZE,
            ret@.len() == x,
            forall|i: int| 0 <= i < x ==> (#[trigger] ret@[i]).len() == CHUNK_SIZE,
            forall|i: int, j: int|
                0 <= i < x && 0 <= j < CHUNK_SIZE ==> cloned(example, #[trigger] ret@[i]@[j]),
        decreases CHUNK_SIZE - x,
    {
        let mut row: Vec<T> = Vec::new();
        let mut y: usize = 0;
        while y < CHUNK_SIZE
            invariant
                y <= CHUNK_SIZE,
                row@.len() == y,
                forall|j: int| 0 <= j < y ==> cloned(example, #[trigger] row@[j]),
            decreases CHUNK_SIZE - y,
        {
            row.push(example.clone());
            y = y + 1;
        }
        ret.push(row);
        x = x + 1;
    }
    let ghost rows = ret@;
    let table = matrix::new(CHUNK_SIZE, CHUNK_SIZE, ret);
    proof {
        assert forall|i: int| 0 <= i < CHUNK_SIZE * CHUNK_SIZE implies copy_of(
            example,
            #[trigger] table.cells()[i],
        ) by {
            let cx = i / 256;
            let cy = i % 256;
            assert(table.slot(cx, cy) == i);
            assert(cloned(example, rows[cx]@[cy]));
            assert(cloned(rows[cx]@[cy], table.cells()[table.slot(cx, cy)]));
        }
    }
    let chunk = Chunk::from_matrix(table);
    chunk.unwrap()
}

/// Generates the chunk of `p` unless the grid holds it already.
fn realize<T: CellGen<C>, C>(key: Pos, k: u64, m: &mut Hexgrid<T, C>)
    requires
        key == chunk_key_of(key),
        k == pos_code(key),
    ensures
        final(m)@ == old(m)@.touched(key),
        final(m).chunks@.contains_key(k),
        forall|q: Pos| #[trigger]
            T::generated(final(m).context(), q) == T::generated(old(m).context(), q),
{
    broadcast use vstd::std_specs::hash::group_hash_axioms;

    if !m.chunks.contains_key(&k) {
        let ghost before = *m;
        let chunk = T::new_chunk(key, &mut m.gen_context);
        m.chunks.insert(k, chunk);
        proof {
            assert forall|q: Pos| #[trigger] m@.values[q] == before@.values[q] by {
                lemma_chunk_key_idempotent(q);
                if pos_code(chunk_key_of(q)) == k {
                    lemma_pos_code_injective(chunk_key_of(q), key);
                    assert(chunk.cells()[chunk_cell_index(q)] == T::generated(
                        before.gen_context,
                        q,
                    ));
                } else {
                    assert(T::generated(m.gen_context, q) == T::generated(before.gen_context, q));
                }
            }
            assert(m@.values =~= before@.values);
            assert forall|q: Pos|
                m@.realized.contains(q) <==> before@.touched(key).realized.contains(q) by {
                if chunk_key_of(q) == key {
                } else if pos_code(chunk_key_of(q)) == k {
                    lemma_pos_code_injective(chunk_key_of(q), key);
                }
            }
            assert(m@.realized =~= before@.touched(key).realized);
        }
    } else {
        proof {
            assert forall|q: Pos|
                m@.realized.contains(q) <==> m@.touched(key).realized.contains(q) by {
                if chunk_key_of(q) == key {
                }
            }
            assert(m@.realized =~= m@.touched(key).realized);
        }
    }
}

/// Writes `new_cell` at `p`, generating the chunk first if need be.
pub fn set<T: CellGen<C>, C>(p: Pos, new_cell: T, m: &mut Hexgrid<T, C>)
    ensures
        final(m)@ == old(m)@.put(p, new_cell),
        forall|q: Pos| #[trigger]
            T::generated(final(m).context(), q) == T::generated(old(m).context(), q),
{
    broadcast use vstd::std_specs::hash::group_hash_axioms;

    let (chunk_key, in_chunk_key) = to_chunk_keys(p);
    let k = pack_key(chunk_key);
    proof {
        lemma_chunk_key_idempotent(p);
    }
    realize(chunk_key, k, m);
    let ghost mid = *m;
    let taken = m.chunks.remove(&k);
    let mut chunk = taken.unwrap();
    chunk.put(in_chunk_key, new_cell);
    m.chunks.insert(k, chunk);
    proof {
        assert(m.context() == mid.context());
        assert(m.chunks@.dom() =~= mid.chunks@.dom());
        assert forall|q: Pos| #[trigger] m@.values[q] == mid@.values.insert(p, new_cell)[q] by {
            lemma_chunk_key_idempotent(q);
            if pos_code(chunk_key_of(q)) == k {
                lemma_pos_code_injective(chunk_key_of(q), chunk_key);
                if q != p {
                    assert(chunk_cell_index(q) != chunk_cell_index(p));
                }
            }
        }
        assert(m@.values =~= mid@.values.insert(p, new_cell));
        assert(m@.realized =~= mid@.realized);
        assert(old(m)@.touched(chunk_key).realized =~= old(m)@.touched(p).realized);
    }
}

/// Reads the cell at `p`, generating the chunk first if need be.
pub fn get<T: Clone + CellGen<C>, C>(p: Pos, m: &mut Hexgrid<T, C>) -> (r: T)
    ensures
        final(m)@ == old(m)@.touched(p),
        cloned(old(m)@.values[p], r),
        forall|q: Pos| #[trigger]
            T::generated(final(m).context(), q) == T::generated(old(m).context(), q),
{
    broadcast use vstd::std_specs::hash::group_hash_axioms;

    let (chunk_key, in_chunk_key) = to_chunk_keys(p);
    let k = pack_key(chunk_key);
    proof {
        lemma_chunk_key_idempotent(p);
    }
    realize(chunk_key, k, m);
    proof {
        assert(old(m)@.touched(chunk_key).realized =~= old(m)@.touched(p).realized);
    }
    let found = m.chunks.get(&k);
    let chunk = found.unwrap();
    chunk.cell(in_chunk_key).clone()
}

/// Reads the cell at `p` without generating anything: where the chunk has not
/// been generated, the grid's out-of-bounds cell is reported.
pub fn unsafe_get<T: Clone + CellGen<C>, C>(p: Pos, m: &Hexgrid<T, C>) -> (r: T)
    ensures
        cloned(m@.peek(p), r),
{
    broadcast use vstd::std_specs::hash::group_hash_axioms;

    let (chunk_key, in_chunk_key) = to_chunk_keys(p);
    let k = pack_key(chunk_key);
    proof {
        lemma_chunk_key_idempotent(p);
    }
    match m.chunks.get(&k) {
        Some(chunk) => chunk.cell(in_chunk_key).clone(),
        None => m.out_of_bounds.clone(),
    }
}

impl<T> GridView<T> {
    /// A grid has grown to itself, and growing twice is growing.
    pub proof fn lemma_grown_chain(self, mid: GridView<T>, end: GridView<T>)
        ensures
            self.grown_to(self),
            self.grown_to(mid) && mid.grown_to(end) ==> self.grown_to(end),
            self.grown_to(mid) ==> mid.values == self.values && mid.sentinel == self.sentinel,
    {
        assert(self == self.touched_all(Seq::<Pos>::empty()));
        if self.grown_to(mid) {
            let a = choose|ps: Seq<Pos>| mid == #[trigger] self.touched_all(ps);
            self.lemma_touched_all_keeps_cells(a);
            if mid.grown_to(end) {
                let b = choose|ps: Seq<Pos>| end == #[trigger] mid.touched_all(ps);
                self.lemma_touched_all_joined(a, b);
                assert(end == self.touched_all(a + b));
            }
        }
    }

    /// Generating chunks changes neither a cell nor the out-of-bounds cell.
    pub proof fn lemma_touched_all_keeps_cells(self, ps: Seq<Pos>)
        ensures
            self.touched_all(ps).values == self.values,
            self.touched_all(ps).sentinel == self.sentinel,
            forall|q: Pos| self.realized.contains(q) ==> self.touched_all(ps).realized.contains(q),
            forall|i: int| 0 <= i < ps.len() ==> self.touched_all(ps).realized.contains(ps[i]),
        decreases ps.len(),
    {
        if ps.len() > 0 {
            self.lemma_touched_all_keeps_cells(ps.drop_last());
            assert forall|i: int| 0 <= i < ps.len() implies self.touched_all(ps).realized.contains(
                ps[i],
            ) by {
                if i < ps.len() - 1 {
                    assert(ps.drop_last()[i] == ps[i]);
                }
            }
        }
    }

    /// Generating for one list of positions and then for another is generating
    /// for the two lists joined.
    pub proof fn lemma_touched_all_joined(self, a: Seq<Pos>, b: Seq<Pos>)
        ensures
            self.touched_all(a).touched_all(b) == self.touched_all(a + b),
        decreases b.len(),
    {
        if b.len() == 0 {
            assert(a + b =~= a);
        } else {
            self.lemma_touched_all_joined(a, b.drop_last());
            assert((a + b).drop_last() =~= a + b.drop_last());
            assert((a + b).last() == b.last());
        }
    }
}

/// The positions of a list of cells with their positions.
pub open spec fn positions_of<T>(s: Seq<(Pos, T)>) -> Seq<Pos> {
    s.map_values(|e: (Pos, T)| e.0)
}

/// Reads the cells at the positions `pos`, in their order.
pub fn pos_iter_to_cells<T: Clone + CellGen<C>, C>(pos: &Vec<Pos>, m: &mut Hexgrid<T, C>) -> (r:
    Vec<(Pos, T)>)
    ensures
        positions_of(r@) == pos@,
        forall|i: int| 0 <= i < r.len() ==> cloned(old(m)@.values[pos[i]], (#[trigger] r[i]).1),
        final(m)@ == old(m)@.touched_all(pos@),
{
    let mut ret: Vec<(Pos, T)> = Vec::new();
    let mut i: usize = 0;
    while i < pos.len()
        invariant
            i <= pos.len(),
            ret.len() == i,
            forall|j: int| 0 <= j < i ==> (#[trigger] ret[j]).0 == pos[j],
            forall|j: int| 0 <= j < i ==> cloned(old(m)@.values[pos[j]], (#[trigger] ret[j]).1),
            m@ == old(m)@.touched_all(pos@.take(i as int)),
        decreases pos.len() - i,
    {
        proof {
            old(m)@.lemma_touched_all_keeps_cells(pos@.take(i as int));
            assert(pos@.take(i + 1).drop_last() =~= pos@.take(i as int));
        }
        let p = pos[i];
        let cell = get(p, m);
        ret.push((p, cell));
        i = i + 1;
    }
    proof {
        assert(pos@.take(i as int) =~= pos@);
        assert(positions_of(ret@) =~= pos@);
    }
    ret
}

/// The number of rows or columns that an extent of `extra` beyond the first spans.
pub open spec fn span_of(extra: int) -> int {
    if extra >= 0 {
        extra + 1
    } else {
        0
    }
}

/// The cells of the block whose corner is `top` and which reaches `height_extra`
/// columns and `width_extra` rows further, as the grid reports them without
/// generating anything. One inner list for each value of `x`.
pub fn view_port<T: Clone + CellGen<C>, C>(
    source: &Hexgrid<T, C>,
    top: XYCont<i32>,
    height_extra: i32,
    width_extra: i32,
) -> (r: Vec<Vec<T>>)
    requires
        height_extra >= 0 && width_extra >= 0 ==> top.x + height_extra <= i32::MAX && top.y
            + width_extra <= i32::MAX,
    ensures
        r.len() == span_of(height_extra as int),
        forall|dx: int| 0 <= dx < r.len() ==> (#[trigger] r[dx]).len() == span_of(width_extra as int),
        forall|dx: int, dy: int|
            0 <= dx < r.len() && 0 <= dy < span_of(width_extra as int) ==> cloned(
                source@.peek(XYCont { x: (top.x + dx) as i32, y: (top.y + dy) as i32 }),
                #[trigger] r[dx][dy],
            ),
{
    let mut ret: Vec<Vec<T>> = Vec::new();
    let mut dx: i64 = 0;
    let ghost rows = span_of(width_extra as int);
    while dx <= height_extra as i64
        invariant
            0 <= dx <= span_of(height_extra as int),
            rows == span_of(width_extra as int),
            height_extra >= 0 && width_extra >= 0 ==> top.x + height_extra <= i32::MAX && top.y
                + width_extra <= i32::MAX,
            ret.len() == dx,
            forall|i: int| 0 <= i < ret.len() ==> (#[trigger] ret[i]).len() == rows,
            forall|i: int, j: int|
                0 <= i < ret.len() && 0 <= j < rows ==> cloned(
                    source@.peek(XYCont { x: (top.x + i) as i32, y: (top.y + j) as i32 }),
                    #[trigger] ret[i][j],
                ),
        decreases height_extra - dx + 1,
    {
        let mut y_buff: Vec<T> = Vec::new();
        let mut dy: i64 = 0;
        while dy <= width_extra as i64
            invariant
                0 <= dx <= height_extra,
                0 <= dy <= rows,
                rows == span_of(width_extra as int),
                width_extra >= 0 ==> top.x + height_extra <= i32::MAX && top.y + width_extra
                    <= i32::MAX,
                y_buff.len() == dy,
                forall|j: int|
                    0 <= j < y_buff.len() ==> cloned(
                        source@.peek(XYCont { x: (top.x + dx) as i32, y: (top.y + j) as i32 }),
                        #[trigger] y_buff[j],
                    ),
            decreases width_extra - dy + 1,
        {
            let at = XYCont { x: (top.x as i64 + dx) as i32, y: (top.y as i64 + dy) as i32 };
            let new = unsafe_get(at, source);
            y_buff.push(new);
            dy = dy + 1;
        }
        let ghost had = ret@;
        ret.push(y_buff);
        proof {
            assert forall|i: int, j: int| 0 <= i < ret.len() && 0 <= j < rows implies cloned(
                source@.peek(XYCont { x: (top.x + i) as i32, y: (top.y + j) as i32 }),
                #[trigger] ret[i][j],
            ) by {
                if i < had.len() {
                    assert(ret[i] == had[i]);
                }
            }
        }
        dx = dx + 1;
    }
    ret
}

impl<T> GridView<T> {
    /// The grid once the chunks of the first `rows` cells of column `x`, counted
    /// from row `y`, have been generated.
    pub open spec fn touched_column(self, x: int, y: int, rows: int) -> GridView<T>
        decreases rows,
    {
        if rows <= 0 {
            self
        } else {
            self.touched_column(x, y, rows - 1).touched(
                XYCont { x: x as i32, y: (y + rows - 1) as i32 },
            )
        }
    }

    /// The grid once the chunks of a block of `columns` columns of `rows` cells
    /// each, with corner `top`, have been generated column after column.
    pub open spec fn touched_block(self, top: Pos, columns: int, rows: int) -> GridView<T>
        decreases columns,
    {
        if columns <= 0 {
            self
        } else {
            self.touched_block(top, columns - 1, rows).touched_column(
                top.x + columns - 1,
                top.y as int,
                rows,
            )
        }
    }

    /// Generating a column of chunks changes no cell.
    pub proof fn lemma_touched_column_keeps_cells(self, x: int, y: int, rows: int)
        ensures
            self.touched_column(x, y, rows).values == self.values,
            self.touched_column(x, y, rows).sentinel == self.sentinel,
        decreases rows,
    {
        if rows > 0 {
            self.lemma_touched_column_keeps_cells(x, y, rows - 1);
        }
    }

    /// Generating a block of chunks changes no cell.
    pub proof fn lemma_touched_block_keeps_cells(self, top: Pos, columns: int, rows: int)
        ensures
            self.touched_block(top, columns, rows).values == self.values,
            self.touched_block(top, columns, rows).sentinel == self.sentinel,
        decreases columns,
    {
        if columns > 0 {
            self.lemma_touched_block_keeps_cells(top, columns - 1, rows);
            self.touched_block(top, columns - 1, rows).lemma_touched_column_keeps_cells(
                top.x + columns - 1,
                top.y as int,
                rows,
            );
        }
    }
}

/// Reads the cells of the block whose corner is `top` and which reaches
/// `height_extra` columns and `width_extra` rows further, generating every chunk
/// that the block meets. One inner list for each value of `x`.
pub fn touch_all_chunks<T: Clone + CellGen<C>, C>(
    source: &mut Hexgrid<T, C>,
    top: XYCont<i32>,
    height_extra: i32,
    width_extra: i32,
) -> (r: Vec<Vec<T>>)
    requires
        height_extra >= 0 && width_extra >= 0 ==> top.x + height_extra <= i32::MAX && top.y
            + width_extra <= i32::MAX,
    ensures
        r.len() == span_of(height_extra as int),
        forall|dx: int| 0 <= dx < r.len() ==> (#[trigger] r[dx]).len() == span_of(width_extra as int),
        forall|dx: int, dy: int|
            0 <= dx < r.len() && 0 <= dy < span_of(width_extra as int) ==> cloned(
                old(source)@.values[XYCont { x: (top.x + dx) as i32, y: (top.y + dy) as i32 }],
                #[trigger] r[dx][dy],
            ),
        final(source)@ == old(source)@.touched_block(
            top,
            span_of(height_extra as int),
            span_of(width_extra as int),
        ),
{
    let mut ret: Vec<Vec<T>> = Vec::new();
    let mut dx: i64 = 0;
    let ghost rows = span_of(width_extra as int);
    while dx <= height_extra as i64
        invariant
            0 <= dx <= span_of(height_extra as int),
            rows == span_of(width_extra as int),
            height_extra >= 0 && width_extra >= 0 ==> top.x + height_extra <= i32::MAX && top.y
                + width_extra <= i32::MAX,
            ret.len() == dx,
            forall|i: int| 0 <= i < ret.len() ==> (#[trigger] ret[i]).len() == rows,
            forall|i: int, j: int|
                0 <= i < ret.len() && 0 <= j < rows ==> cloned(
                    old(source)@.values[XYCont { x: (top.x + i) as i32, y: (top.y + j) as i32 }],
                    #[trigger] ret[i][j],
                ),
            source@ == old(source)@.touched_block(top, dx as int, rows),
        decreases height_extra - dx + 1,
    {
        let mut y_buff: Vec<T> = Vec::new();
        let mut dy: i64 = 0;
        let ghost column_start = source@;
        proof {
            old(source)@.lemma_touched_block_keeps_cells(top, dx as int, rows);
        }
        while dy <= width_extra as i64
            invariant
                0 <= dx <= height_extra,
                0 <= dy <= rows,
                rows == span_of(width_extra as int),
                width_extra >= 0 ==> top.x + height_extra <= i32::MAX && top.y + width_extra
                    <= i32::MAX,
                y_buff.len() == dy,
                column_start.values == old(source)@.values,
                forall|j: int|
                    0 <= j < y_buff.len() ==> cloned(
                        old(source)@.values[XYCont {
                            x: (top.x + dx) as i32,
                            y: (top.y + j) as i32,
                        }],
                        #[trigger] y_buff[j],
                    ),
                source@ == column_start.touched_column(top.x + dx, top.y as int, dy as int),
            decreases width_extra - dy + 1,
        {
            proof {
                column_start.lemma_touched_column_keeps_cells(top.x + dx, top.y as int, dy as int);
            }
            let at = XYCont { x: (top.x as i64 + dx) as i32, y: (top.y as i64 + dy) as i32 };
            let new = get(at, source);
            y_buff.push(new);
            dy = dy + 1;
        }
        let ghost had = ret@;
        ret.push(y_buff);
        proof {
            assert forall|i: int, j: int| 0 <= i < ret.len() && 0 <= j < rows implies cloned(
                old(source)@.values[XYCont { x: (top.x + i) as i32, y: (top.y + j) as i32 }],
                #[trigger] ret[i][j],
            ) by {
                if i < had.len() {
                    assert(ret[i] == had[i]);
                }
            }
        }
        dx = dx + 1;
    }
    ret
}

/// Reads the cell at `p` as it is, generating the chunk first if need be.
pub(crate) fn read_copy<T: Copy + CellGen<C>, C>(p: Pos, m: &mut Hexgrid<T, C>) -> (r: T)
    ensures
        final(m)@ == old(m)@.touched(p),
        r == old(m)@.values[p],
{
    broadcast use vstd::std_specs::hash::group_hash_axioms;

    let (chunk_key, in_chunk_key) = to_chunk_keys(p);
    let k = pack_key(chunk_key);
    proof {
        lemma_chunk_key_idempotent(p);
    }
    realize(chunk_key, k, m);
    proof {
        assert(old(m)@.touched(chunk_key).realized =~= old(m)@.touched(p).realized);
    }
    let found = m.chunks.get(&k);
    let chunk = found.unwrap();
    *chunk.cell(in_chunk_key)
}

} // verus!
