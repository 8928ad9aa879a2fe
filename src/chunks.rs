use vstd::prelude::*;
use std::collections::HashMap;
use crate::geom::{Point, Aabb, pair_key, in_i32, cell_of, div_down, div_up, lemma_pair_key, lemma_cell_split};
use crate::matrix::{Matrix, Dims};
use crate::canvas::{Rgba, Pixel, Update, transparent, draw};
use crate::autosave::{AutoSaved, CacheModel, Housekeeping};

verus! {

broadcast use vstd::std_specs::hash::group_hash_axioms;

/// Edge of a persisted chunk, in pixels.
pub const CHUNK_SIZE: i32 = 256;


/// Why a chunk read from storage was refused.
#[derive(Clone, Copy, Debug, PartialEq, Eq, Structural)]
pub enum StoreError {
    /// The stored grid does not have the store's chunk edge on both sides.
    WrongChunkSize,
}

/// The key of the chunk that holds `p`, in a store with chunk edge `n`.
pub open spec fn chunk_key(p: Point, n: int) -> u64 {
    pair_key(p.x as int / n, p.y as int / n) as u64
}

/// The key of the chunk at chunk coordinates `c`.
pub open spec fn cell_key(c: Point) -> u64 {
    pair_key(c.x as int, c.y as int) as u64
}

/// The point that the cell `(i, j)` of a snapshot of `rect` stands for.
pub open spec fn snapshot_point(rect: Aabb, i: int, j: int) -> Point {
    Point { x: (rect.x_min + i) as i32, y: (rect.y_min + j) as i32 }
}

/// The color that a chunk grid gives to `p`.
pub open spec fn chunk_pixel(m: Matrix<Rgba>, p: Point, n: int) -> Rgba {
    m.at(p.x as int % n, p.y as int % n)
}

/// The infinite canvas partitioned into square chunks, each one a write-behind cache
/// entry. The store does no input or output: its owner loads the chunks that
/// [`Infinite::needs_load`] names, and writes out the grids that the periodic check
/// and [`Infinite::flush_all`] hand back.
pub struct Infinite {
    chunk_size: i32,
    chunks: HashMap<u64, AutoSaved<Matrix<Rgba>>>,
    order: Vec<Point>,
}

impl Infinite {
    pub closed spec fn size(&self) -> int {
        self.chunk_size as int
    }

    /// The cache entries, by chunk key.
    pub closed spec fn entries(&self) -> Map<u64, CacheModel<Matrix<Rgba>>> {
        self.chunks@.map_values(|e: AutoSaved<Matrix<Rgba>>| e@)
    }

    /// The chunk coordinates of the entries, in order of creation.
    pub closed spec fn cells(&self) -> Seq<Point> {
        self.order@
    }

    pub open spec fn grid_ok(&self, m: Matrix<Rgba>) -> bool {
        m.wf() && m.rows() == self.size() && m.cols() == self.size()
    }

    pub open spec fn entry_ok(&self, e: CacheModel<Matrix<Rgba>>) -> bool {
        &&& e.wf()
        &&& e.held is Some ==> self.grid_ok(e.held->0)
        &&& e.stored is Some ==> self.grid_ok(e.stored->0)
    }

    pub open spec fn wf(&self) -> bool {
        &&& 0 < self.size()
        &&& self.size() * self.size() <= usize::MAX
        &&& forall|k: u64| #[trigger]
            self.entries().contains_key(k) ==> self.entry_ok(self.entries()[k])
        &&& forall|i: int|
            0 <= i < self.cells().len() ==> self.entries().contains_key(
                #[trigger] cell_key(self.cells()[i]),
            )
        &&& forall|k: u64| #[trigger]
            self.entries().contains_key(k) ==> exists|i: int|
                0 <= i < self.cells().len() && cell_key(self.cells()[i]) == k
        &&& forall|i: int, j: int|
            0 <= i < j < self.cells().len() ==> self.cells()[i] != self.cells()[j]
    }

    /// The color at `p`: its chunk's pixel, where the chunk has content; else transparent.
    pub open spec fn color(&self, p: Point) -> Rgba {
        let k = chunk_key(p, self.size());
        if self.entries().contains_key(k) && self.entries()[k].content() is Some {
            chunk_pixel(self.entries()[k].content()->0, p, self.size())
        } else {
            transparent()
        }
    }

    /// The chunk at chunk coordinates `c` is in memory.
    pub open spec fn resident(&self, c: Point) -> bool {
        self.entries().contains_key(cell_key(c)) && self.entries()[cell_key(c)].held is Some
    }

    /// The chunk at chunk coordinates `c` can be read without a load: it is in
    /// memory, or it has never been created.
    pub open spec fn readable(&self, c: Point) -> bool {
        !self.entries().contains_key(cell_key(c)) || self.entries()[cell_key(c)].held is Some
    }

    /// The chunk coordinates of the chunk that holds `p`.
    pub open spec fn cell(&self, p: Point) -> Point {
        Point { x: (p.x as int / self.size()) as i32, y: (p.y as int / self.size()) as i32 }
    }
}

impl View for Infinite {
    type V = Map<Point, Rgba>;

    open spec fn view(&self) -> Map<Point, Rgba> {
        Map::total(|p: Point| self.color(p))
    }
}

proof fn lemma_cell_key(p: Point, n: int)
    requires
        n > 0,
    ensures
        in_i32(p.x as int / n),
        in_i32(p.y as int / n),
        cell_key(Point { x: (p.x as int / n) as i32, y: (p.y as int / n) as i32 }) == chunk_key(
            p,
            n,
        ),
{
    lemma_cell_split(p.x as int, n);
    lemma_cell_split(p.y as int, n);
}

/// Points in one chunk with the same offset in it are the same point; points whose
/// chunk keys differ lie in distinct chunks.
proof fn lemma_same_chunk(p: Point, q: Point, n: int)
    requires
        n > 0,
    ensures
        chunk_key(p, n) == chunk_key(q, n) <==> (p.x as int / n == q.x as int / n && p.y as int
            / n == q.y as int / n),
        (chunk_key(p, n) == chunk_key(q, n) && p.x as int % n == q.x as int % n && p.y as int % n
            == q.y as int % n) ==> p == q,
{
    lemma_cell_split(p.x as int, n);
    lemma_cell_split(p.y as int, n);
    lemma_cell_split(q.x as int, n);
    lemma_cell_split(q.y as int, n);
    lemma_pair_key(p.x as int / n, p.y as int / n, q.x as int / n, q.y as int / n);
}

impl Infinite {
    /// An empty store whose chunks have edge `chunk_size`.
    pub fn new(chunk_size: i32) -> (r: Infinite)
        requires
            0 < chunk_size,
            chunk_size * chunk_size <= usize::MAX,
        ensures
            r.wf(),
            r.size() == chunk_size,
            r.entries() == Map::<u64, CacheModel<Matrix<Rgba>>>::empty(),
            forall|p: Point| #[trigger] r@[p] == transparent(),
    {
        let r = Infinite { chunk_size, chunks: HashMap::new(), order: Vec::new() };
        assert(r.entries() =~= Map::<u64, CacheModel<Matrix<Rgba>>>::empty());
        r
    }

    pub fn chunk_size(&self) -> (r: i32)
        ensures
            r == self.size(),
    {
        self.chunk_size
    }

    /// The chunk coordinates of the chunk that holds `p`.
    pub fn chunk_of(&self, p: Point) -> (r: Point)
        requires
            self.wf(),
        ensures
            r == self.cell(p),
            cell_key(r) == chunk_key(p, self.size()),
    {
        proof {
            lemma_cell_key(p, self.size());
        }
        cell_of(p, self.chunk_size)
    }

    /// Whether the chunk at chunk coordinates `c` is not in memory.
    pub fn needs_load(&self, c: Point) -> (r: bool)
        ensures
            r == !self.resident(c),
    {
        proof {
            lemma_pair_key(c.x as int, c.y as int, c.x as int, c.y as int);
        }
        let k = c.key();
        match self.chunks.get(&k) {
            Some(e) => e.needs_load(),
            None => true,
        }
    }

    /// Whether an entry exists for the chunk at chunk coordinates `c`, in memory or not.
    pub fn has_chunk(&self, c: Point) -> (r: bool)
        ensures
            r == self.entries().contains_key(cell_key(c)),
    {
        proof {
            lemma_pair_key(c.x as int, c.y as int, c.x as int, c.y as int);
        }
        let k = c.key();
        self.chunks.contains_key(&k)
    }

    /// Puts in memory the chunk at chunk coordinates `c`, as storage yields it: its
    /// record `stored`, or, where there is none, a transparent chunk. A record whose
    /// grid is not `chunk_size` on both sides is refused, and nothing changes.
    pub fn provide(&mut self, c: Point, stored: Option<Matrix<Rgba>>, now: u64) -> (r: Result<
        (),
        StoreError,
    >)
        requires
            old(self).wf(),
            !old(self).resident(c),
            stored is Some ==> stored->0.wf(),
        ensures
            final(self).wf(),
            final(self).size() == old(self).size(),
            r is Err <==> (stored is Some && !old(self).grid_ok(stored->0)),
            r is Err ==> *final(self) == *old(self),
            r is Ok ==> {
                &&& final(self).resident(c)
                &&& forall|c2: Point| c2 != c ==> #[trigger] final(self).resident(c2) == old(
                    self,
                ).resident(c2)
                &&& forall|p: Point| #[trigger]
                    final(self)@[p] == if old(self).cell(p) == c {
                        match stored {
                            Some(m) => chunk_pixel(m, p, old(self).size()),
                            None => transparent(),
                        }
                    } else {
                        old(self)@[p]
                    }
            },
    {
        let n = self.chunk_size;
        let grid = match stored {
            Some(m) => {
                let d = m.size();
                if d.x != n as usize || d.y != n as usize {
                    return Err(StoreError::WrongChunkSize);
                }
                m
            },
            None => {
                assert((n as usize) * (n as usize) <= usize::MAX);
                Matrix::filled_with(Dims { x: n as usize, y: n as usize }, Rgba::transparent_black())
            },
        };
        proof {
            lemma_pair_key(c.x as int, c.y as int, c.x as int, c.y as int);
        }
        let k = c.key();
        let ghost old_entries = self.entries();
        let ghost old_cells = self.cells();
        let mut e = match self.chunks.remove(&k) {
            Some(e) => {
                assert(old_entries.contains_key(k) && old_entries[k] == e@);
                e
            },
            None => {
                self.order.push(c);
                AutoSaved::new(now)
            },
        };
        e.load(grid);
        self.chunks.insert(k, e);
        proof {
            assert(self.entries() =~= old_entries.insert(k, e@));
            assert forall|k2: u64| #[trigger]
                self.entries().contains_key(k2) implies exists|i: int|
                0 <= i < self.cells().len() && cell_key(self.cells()[i]) == k2 by {
                if !old_entries.contains_key(k2) {
                    assert(cell_key(self.cells()[self.cells().len() - 1]) == k2);
                } else {
                    let i = choose|i: int|
                        0 <= i < old_cells.len() && cell_key(old_cells[i]) == k2;
                    assert(cell_key(self.cells()[i]) == k2);
                }
            }
            assert forall|i: int, j: int|
                0 <= i < j < self.cells().len() implies self.cells()[i] != self.cells()[j] by {
                if j == old_cells.len() && !old_entries.contains_key(k) {
                    lemma_pair_key(
                        c.x as int,
                        c.y as int,
                        self.cells()[i].x as int,
                        self.cells()[i].y as int,
                    );
                }
            }
            assert forall|c2: Point| c2 != c implies #[trigger] self.resident(c2) == old(
                self,
            ).resident(c2) by {
                lemma_pair_key(c.x as int, c.y as int, c2.x as int, c2.y as int);
            }
            assert forall|p: Point| #[trigger]
                self@[p] == if old(self).cell(p) == c {
                    match stored {
                        Some(m) => chunk_pixel(m, p, old(self).size()),
                        None => transparent(),
                    }
                } else {
                    old(self)@[p]
                } by {
                lemma_cell_key(p, n as int);
                lemma_cell_split(p.x as int, n as int);
                lemma_cell_split(p.y as int, n as int);
                let cp = old(self).cell(p);
                lemma_pair_key(c.x as int, c.y as int, cp.x as int, cp.y as int);
            }
        }
        Ok(())
    }

    fn paint(&mut self, px: Pixel, now: u64)
        requires
            old(self).wf(),
            old(self).resident(old(self).cell(px.position)),
        ensures
            final(self).wf(),
            final(self).size() == old(self).size(),
            final(self)@ == old(self)@.insert(px.position, px.color),
            forall|c: Point| #[trigger] final(self).resident(c) == old(self).resident(c),
            final(self).entries().dom() == old(self).entries().dom(),
            final(self).entries()[chunk_key(px.position, old(self).size())].mutated,
            final(self).entries()[chunk_key(px.position, old(self).size())].stored == old(
                self,
            ).entries()[chunk_key(px.position, old(self).size())].stored,
            forall|k: u64|
                k != chunk_key(px.position, old(self).size())
                    ==> #[trigger] final(self).entries()[k] == old(self).entries()[k],
    {
        let n = self.chunk_size;
        let c = self.chunk_of(px.position);
        proof {
            lemma_pair_key(c.x as int, c.y as int, c.x as int, c.y as int);
            lemma_cell_split(px.position.x as int, n as int);
            lemma_cell_split(px.position.y as int, n as int);
        }
        let k = c.key();
        let lx = (px.position.x as i64 - c.x as i64 * n as i64) as usize;
        let ly = (px.position.y as i64 - c.y as i64 * n as i64) as usize;
        let ghost old_entries = self.entries();
        let mut e = self.chunks.remove(&k).unwrap();
        assert(old_entries.contains_key(k) && old_entries[k] == e@);
        let m = e.write(now);
        m.set(lx, ly, px.color);
        self.chunks.insert(k, e);
        proof {
            assert(self.entries() =~= old_entries.insert(k, e@));
            assert forall|k2: u64| #[trigger]
                self.entries().contains_key(k2) implies exists|i: int|
                0 <= i < self.cells().len() && cell_key(self.cells()[i]) == k2 by {
                assert(old_entries.contains_key(k2));
                let i = choose|i: int|
                    0 <= i < old(self).cells().len() && cell_key(old(self).cells()[i]) == k2;
                assert(cell_key(self.cells()[i]) == k2);
            }
            assert forall|c2: Point| #[trigger] self.resident(c2) == old(self).resident(c2) by {
                lemma_pair_key(c.x as int, c.y as int, c2.x as int, c2.y as int);
            }
            assert forall|p: Point| #[trigger]
                self.color(p) == old(self)@.insert(px.position, px.color)[p] by {
                lemma_same_chunk(p, px.position, n as int);
                lemma_cell_split(p.x as int, n as int);
                lemma_cell_split(p.y as int, n as int);
            }
            assert(self@ =~= old(self)@.insert(px.position, px.color));
        }
    }

    /// Paints the pixels of `update` in order, marking their chunks dirty at `now`.
    /// Every chunk that the pixels fall in must be in memory.
    pub fn update(&mut self, update: Update, now: u64)
        requires
            old(self).wf(),
            forall|i: int|
                0 <= i < update.pixels().len() ==> old(self).resident(
                    old(self).cell(#[trigger] update.pixels()[i].position),
                ),
        ensures
            final(self).wf(),
            final(self).size() == old(self).size(),
            final(self)@ == draw(old(self)@, update.pixels()),
            forall|c: Point| #[trigger] final(self).resident(c) == old(self).resident(c),
            final(self).entries().dom() == old(self).entries().dom(),
            forall|i: int|
                0 <= i < update.pixels().len() ==> {
                    let k = chunk_key(#[trigger] update.pixels()[i].position, old(self).size());
                    &&& final(self).entries()[k].mutated
                    &&& final(self).entries()[k].stored == old(self).entries()[k].stored
                },
            forall|k: u64|
                (forall|i: int|
                    0 <= i < update.pixels().len() ==> chunk_key(
                        #[trigger] update.pixels()[i].position,
                        old(self).size(),
                    ) != k) ==> #[trigger] final(self).entries()[k] == old(self).entries()[k],
    {
        let ghost upx = update.pixels();
        match update {
            Update::Draw(pixels) => {
                let ghost start = *self;
                assert(pixels@ == upx);
                let mut i: usize = 0;
                while i < pixels.len()
                    invariant
                        i <= pixels@.len(),
                        self.wf(),
                        self.size() == start.size(),
                        self@ == draw(start@, pixels@.take(i as int)),
                        forall|c: Point| #[trigger] self.resident(c) == start.resident(c),
                        self.entries().dom() == start.entries().dom(),
                        forall|j: int|
                            0 <= j < i ==> {
                                let k = chunk_key(#[trigger] pixels@[j].position, start.size());
                                &&& self.entries()[k].mutated
                                &&& self.entries()[k].stored == start.entries()[k].stored
                            },
                        forall|k: u64|
                            (forall|j: int|
                                0 <= j < i ==> chunk_key(#[trigger] pixels@[j].position, start.size())
                                    != k) ==> #[trigger] self.entries()[k] == start.entries()[k],
                        forall|j: int|
                            0 <= j < pixels@.len() ==> start.resident(
                                start.cell(#[trigger] pixels@[j].position),
                            ),
                    decreases pixels@.len() - i,
                {
                    let ghost mid = self.entries();
                    self.paint(pixels[i], now);
                    proof {
                        let ki = chunk_key(pixels@[i as int].position, start.size());
                        assert forall|j: int| 0 <= j < i + 1 implies {
                            let k = chunk_key(#[trigger] pixels@[j].position, start.size());
                            &&& self.entries()[k].mutated
                            &&& self.entries()[k].stored == start.entries()[k].stored
                        } by {
                            let k = chunk_key(pixels@[j].position, start.size());
                            if k != ki && j < i {
                                assert(self.entries()[k] == mid[k]);
                            }
                            if k == ki && !(exists|m: int| 0 <= m < i && chunk_key(pixels@[m].position, start.size()) == ki) {
                                assert(mid[ki] == start.entries()[ki]);
                            }
                            if k == ki && (exists|m: int| 0 <= m < i && chunk_key(pixels@[m].position, start.size()) == ki) {
                                let m = choose|m: int| 0 <= m < i && chunk_key(pixels@[m].position, start.size()) == ki;
                                assert(mid[chunk_key(pixels@[m].position, start.size())].stored == start.entries()[ki].stored);
                            }
                        }
                        assert forall|k: u64|
                            (forall|j: int|
                                0 <= j < i + 1 ==> chunk_key(#[trigger] pixels@[j].position, start.size())
                                    != k) implies #[trigger] self.entries()[k] == start.entries()[k] by {
                            assert(chunk_key(pixels@[i as int].position, start.size()) != k);
                            assert forall|j: int| 0 <= j < i implies chunk_key(#[trigger] pixels@[j].position, start.size()) != k by {}
                        }
                        assert(pixels@.take(i + 1).drop_last() =~= pixels@.take(i as int));
                    }
                    i = i + 1;
                }
                assert(pixels@.take(i as int) =~= pixels@);
            },
        }
    }

    /// The color at `p`, read from its chunk.
    pub fn color_at(&self, p: Point) -> (r: Rgba)
        requires
            self.wf(),
            self.readable(self.cell(p)),
        ensures
            r == self@[p],
    {
        let n = self.chunk_size;
        let c = self.chunk_of(p);
        proof {
            lemma_pair_key(c.x as int, c.y as int, c.x as int, c.y as int);
            lemma_cell_split(p.x as int, n as int);
            lemma_cell_split(p.y as int, n as int);
        }
        let k = c.key();
        match self.chunks.get(&k) {
            Some(e) => {
                if e.needs_load() {
                    Rgba::transparent_black()
                } else {
                    let lx = (p.x as i64 - c.x as i64 * n as i64) as usize;
                    let ly = (p.y as i64 - c.y as i64 * n as i64) as usize;
                    assert(self.entries().contains_key(k) && self.entries()[k] == e@);
                    *e.value().get(lx, ly)
                }
            },
            None => Rgba::transparent_black(),
        }
    }

    /// Copies into `result`, a snapshot of `rect`, the part of `rect` that the chunk at
    /// chunk coordinates `c` covers, where that chunk is readable.
    fn copy_chunk(&self, result: &mut Matrix<Rgba>, rect: Aabb, c: Point)
        requires
            self.wf(),
            rect.wf(),
            old(result).wf(),
            old(result).rows() == rect.width(),
            old(result).cols() == rect.height(),
            forall|a: int, b: int|
                0 <= a < rect.width() && 0 <= b < rect.height() && self.cell(
                    snapshot_point(rect, a, b),
                ) == c ==> #[trigger] old(result).at(a, b) == transparent(),
        ensures
            final(result).wf(),
            final(result).rows() == rect.width(),
            final(result).cols() == rect.height(),
            forall|a: int, b: int|
                0 <= a < rect.width() && 0 <= b < rect.height() ==> #[trigger] final(result).at(
                    a,
                    b,
                ) == if self.cell(snapshot_point(rect, a, b)) == c && self.readable(c) {
                    self@[snapshot_point(rect, a, b)]
                } else {
                    old(result).at(a, b)
                },
    {
        let n = self.chunk_size as i64;
        let ghost nn = self.size();
        proof {
            lemma_pair_key(c.x as int, c.y as int, c.x as int, c.y as int);
            assert forall|a: int, b: int|
                0 <= a < rect.width() && 0 <= b < rect.height() && self.cell(
                    snapshot_point(rect, a, b),
                ) == c implies chunk_key(snapshot_point(rect, a, b), nn) == cell_key(c) by {
                lemma_cell_key(snapshot_point(rect, a, b), nn);
            }
        }
        let k = c.key();
        let e = match self.chunks.get(&k) {
            Some(e) => e,
            None => {
                return;
            },
        };
        assert(self.entries().contains_key(k) && self.entries()[k] == e@);
        if e.needs_load() {
            return;
        }
        let m = e.value();
        assert(-0x8000_0000 * 0x8000_0000 <= c.x * n <= 0x8000_0000 * 0x8000_0000) by (nonlinear_arith)
            requires
                0 < n <= i32::MAX,
                i32::MIN <= c.x <= i32::MAX,
        ;
        assert(-0x8000_0000 * 0x8000_0000 <= c.y * n <= 0x8000_0000 * 0x8000_0000) by (nonlinear_arith)
            requires
                0 < n <= i32::MAX,
                i32::MIN <= c.y <= i32::MAX,
        ;
        let base_x = c.x as i64 * n;
        let base_y = c.y as i64 * n;
        let lx_lo = if rect.x_min as i64 - base_x > 0 { rect.x_min as i64 - base_x } else { 0 };
        let lx_hi = if rect.x_max as i64 - base_x < n { rect.x_max as i64 - base_x } else { n };
        let ly_lo = if rect.y_min as i64 - base_y > 0 { rect.y_min as i64 - base_y } else { 0 };
        let ly_hi = if rect.y_max as i64 - base_y < n { rect.y_max as i64 - base_y } else { n };
        let ghost start = *result;
        proof {
            assert forall|a: int, b: int|
                0 <= a < rect.width() && 0 <= b < rect.height() && self.cell(
                    snapshot_point(rect, a, b),
                ) == c implies {
                let p = snapshot_point(rect, a, b);
                &&& lx_lo <= p.x - base_x < lx_hi
                &&& ly_lo <= p.y - base_y < ly_hi
                &&& p.x as int % nn == p.x - base_x
                &&& p.y as int % nn == p.y - base_y
            } by {
                let p = snapshot_point(rect, a, b);
                lemma_cell_split(p.x as int, nn);
                lemma_cell_split(p.y as int, nn);
            }
        }
        let mut lx = lx_lo;
        while lx < lx_hi
            invariant
                self.wf(),
                rect.wf(),
                n == nn,
                nn == self.size(),
                0 < nn,
                self.entries().contains_key(k),
                self.entries()[k].held == Some(*m),
                k == cell_key(c),
                base_x == c.x * nn,
                base_y == c.y * nn,
                lx_lo <= lx,
                forall|a: int, b: int|
                    0 <= a < rect.width() && 0 <= b < rect.height() && self.cell(
                        #[trigger] snapshot_point(rect, a, b),
                    ) == c ==> {
                        let p = snapshot_point(rect, a, b);
                        &&& lx_lo <= p.x - base_x < lx_hi
                        &&& ly_lo <= p.y - base_y < ly_hi
                    },
                0 <= lx_lo,
                lx_hi <= nn,
                0 <= ly_lo,
                ly_hi <= nn,
                lx_lo == (if rect.x_min - base_x > 0 { rect.x_min - base_x } else { 0 }),
                lx_hi == (if rect.x_max - base_x < nn { rect.x_max - base_x } else { nn }),
                ly_lo == (if rect.y_min - base_y > 0 { rect.y_min - base_y } else { 0 }),
                ly_hi == (if rect.y_max - base_y < nn { rect.y_max - base_y } else { nn }),
                result.wf(),
                result.rows() == rect.width(),
                result.cols() == rect.height(),
                forall|a: int, b: int|
                    0 <= a < rect.width() && 0 <= b < rect.height() ==> #[trigger] result.at(a, b)
                        == if self.cell(snapshot_point(rect, a, b)) == c
                        && snapshot_point(rect, a, b).x - base_x < lx {
                        self@[snapshot_point(rect, a, b)]
                    } else {
                        start.at(a, b)
                    },
            decreases lx_hi - lx,
        {
            let mut ly = ly_lo;
            while ly < ly_hi
                invariant
                    self.wf(),
                    rect.wf(),
                    n == nn,
                    nn == self.size(),
                    0 < nn,
                    self.entries().contains_key(k),
                    self.entries()[k].held == Some(*m),
                    k == cell_key(c),
                    base_x == c.x * nn,
                    base_y == c.y * nn,
                    lx_lo <= lx < lx_hi,
                    ly_lo <= ly,
                forall|a: int, b: int|
                        0 <= a < rect.width() && 0 <= b < rect.height() && self.cell(
                            #[trigger] snapshot_point(rect, a, b),
                        ) == c ==> {
                            let p = snapshot_point(rect, a, b);
                            &&& lx_lo <= p.x - base_x < lx_hi
                            &&& ly_lo <= p.y - base_y < ly_hi
                        },

                    0 <= lx_lo,
                    lx_hi <= nn,
                    0 <= ly_lo,
                    ly_hi <= nn,
                    lx_lo == (if rect.x_min - base_x > 0 { rect.x_min - base_x } else { 0 }),
                    lx_hi == (if rect.x_max - base_x < nn { rect.x_max - base_x } else { nn }),
                    ly_lo == (if rect.y_min - base_y > 0 { rect.y_min - base_y } else { 0 }),
                    ly_hi == (if rect.y_max - base_y < nn { rect.y_max - base_y } else { nn }),
                    result.wf(),
                    result.rows() == rect.width(),
                    result.cols() == rect.height(),
                    forall|a: int, b: int|
                        0 <= a < rect.width() && 0 <= b < rect.height() ==> #[trigger] result.at(
                            a,
                            b,
                        ) == if self.cell(snapshot_point(rect, a, b)) == c && (snapshot_point(
                            rect,
                            a,
                            b,
                        ).x - base_x < lx || (snapshot_point(rect, a, b).x - base_x == lx
                            && snapshot_point(rect, a, b).y - base_y < ly)) {
                            self@[snapshot_point(rect, a, b)]
                        } else {
                            start.at(a, b)
                        },
                decreases ly_hi - ly,
            {
                let i = (base_x + lx - rect.x_min as i64) as usize;
                let j = (base_y + ly - rect.y_min as i64) as usize;
                let ghost q = snapshot_point(rect, i as int, j as int);
                proof {
                    assert(q.x == base_x + lx);
                    assert(q.y == base_y + ly);
                    vstd::arithmetic::div_mod::lemma_fundamental_div_mod_converse(
                        q.x as int,
                        nn,
                        c.x as int,
                        lx as int,
                    );
                    vstd::arithmetic::div_mod::lemma_fundamental_div_mod_converse(
                        q.y as int,
                        nn,
                        c.y as int,
                        ly as int,
                    );
                    lemma_cell_key(q, nn);
                    assert(self.cell(q) == c);
                    assert(self@[q] == m.at(lx as int, ly as int));
                }
                let color = *m.get(lx as usize, ly as usize);
                let ghost before = *result;
                result.set(i, j, color);
                proof {
                    assert forall|a: int, b: int|
                        0 <= a < rect.width() && 0 <= b < rect.height() implies #[trigger] result.at(
                            a,
                            b,
                        ) == if self.cell(snapshot_point(rect, a, b)) == c && (snapshot_point(
                            rect,
                            a,
                            b,
                        ).x - base_x < lx || (snapshot_point(rect, a, b).x - base_x == lx
                            && snapshot_point(rect, a, b).y - base_y < ly + 1)) {
                            self@[snapshot_point(rect, a, b)]
                        } else {
                            start.at(a, b)
                        } by {
                        if (a, b) != (i as int, j as int) {
                            assert(result.at(a, b) == before.at(a, b));
                        }
                    }
                }
                ly = ly + 1;
            }
            proof {
                assert forall|a: int, b: int|
                    0 <= a < rect.width() && 0 <= b < rect.height() implies #[trigger] result.at(a, b)
                        == if self.cell(snapshot_point(rect, a, b)) == c
                        && snapshot_point(rect, a, b).x - base_x < lx + 1 {
                        self@[snapshot_point(rect, a, b)]
                    } else {
                        start.at(a, b)
                    } by {
                    let p = snapshot_point(rect, a, b);
                    lemma_cell_split(p.x as int, nn);
                    lemma_cell_split(p.y as int, nn);
                }
            }
            lx = lx + 1;
        }
        proof {
            assert forall|a: int, b: int|
                0 <= a < rect.width() && 0 <= b < rect.height() implies #[trigger] result.at(a, b)
                    == if self.cell(snapshot_point(rect, a, b)) == c && self.readable(c) {
                    self@[snapshot_point(rect, a, b)]
                } else {
                    start.at(a, b)
                } by {
                let p = snapshot_point(rect, a, b);
                lemma_cell_split(p.x as int, nn);
                lemma_cell_split(p.y as int, nn);
            }
        }
    }

    /// The colors of `rect`: the cell `(i, j)` of the result holds the color at
    /// `(x_min + i, y_min + j)`. Each chunk that `rect` meets is visited once and the
    /// part of it inside `rect` copied. Every such chunk must be readable; none is
    /// created, and one that was never created reads as transparent.
    pub fn get(&self, rect: Aabb) -> (r: Matrix<Rgba>)
        requires
            self.wf(),
            rect.wf(),
            rect.width() * rect.height() <= usize::MAX,
            forall|p: Point| rect.contains(p) ==> #[trigger] self.readable(self.cell(p)),
        ensures
            r.wf(),
            r.rows() == rect.width(),
            r.cols() == rect.height(),
            forall|i: int, j: int|
                0 <= i < rect.width() && 0 <= j < rect.height() ==> #[trigger] r.at(i, j)
                    == self@[Point { x: (rect.x_min + i) as i32, y: (rect.y_min + j) as i32 }],
    {
        let n = self.chunk_size;
        let ghost nn = self.size();
        let w = (rect.x_max as i64 - rect.x_min as i64) as usize;
        let h = (rect.y_max as i64 - rect.y_min as i64) as usize;
        let mut result = Matrix::filled_with(Dims { x: w, y: h }, Rgba::transparent_black());
        if w == 0 || h == 0 {
            return result;
        }
        let x_lo = div_down(rect.x_min, n);
        let x_hi = div_up(rect.x_max, n);
        let y_lo = div_down(rect.y_min, n);
        let y_hi = div_up(rect.y_max, n);
        proof {
            assert forall|a: int, b: int|
                0 <= a < rect.width() && 0 <= b < rect.height() implies {
                let cp = self.cell(#[trigger] snapshot_point(rect, a, b));
                &&& x_lo <= cp.x < x_hi
                &&& y_lo <= cp.y < y_hi
                &&& rect.contains(snapshot_point(rect, a, b))
            } by {
                let p = snapshot_point(rect, a, b);
                lemma_cell_split(p.x as int, nn);
                lemma_cell_split(p.y as int, nn);
                vstd::arithmetic::div_mod::lemma_div_is_ordered(rect.x_min as int, p.x as int, nn);
                vstd::arithmetic::div_mod::lemma_div_is_ordered(rect.y_min as int, p.y as int, nn);
                vstd::arithmetic::div_mod::lemma_div_is_ordered(p.x as int + nn, rect.x_max as int + nn - 1, nn);
                vstd::arithmetic::div_mod::lemma_div_is_ordered(p.y as int + nn, rect.y_max as int + nn - 1, nn);
                assert((p.x as int + nn) / nn == p.x as int / nn + 1) by (nonlinear_arith)
                    requires
                        nn > 0,
                ;
                assert((p.y as int + nn) / nn == p.y as int / nn + 1) by (nonlinear_arith)
                    requires
                        nn > 0,
                ;
            }
        }
        let mut cx = x_lo;
        while cx < x_hi
            invariant
                self.wf(),
                rect.wf(),
                nn == self.size(),
                forall|p: Point| rect.contains(p) ==> #[trigger] self.readable(self.cell(p)),
                forall|a: int, b: int|
                    0 <= a < rect.width() && 0 <= b < rect.height() ==> {
                        let cp = self.cell(#[trigger] snapshot_point(rect, a, b));
                        &&& x_lo <= cp.x < x_hi
                        &&& y_lo <= cp.y < y_hi
                        &&& rect.contains(snapshot_point(rect, a, b))
                    },
                result.wf(),
                result.rows() == rect.width(),
                result.cols() == rect.height(),
                forall|a: int, b: int|
                    0 <= a < rect.width() && 0 <= b < rect.height() ==> #[trigger] result.at(a, b)
                        == if self.cell(snapshot_point(rect, a, b)).x < cx {
                        self@[snapshot_point(rect, a, b)]
                    } else {
                        transparent()
                    },
            decreases x_hi - cx,
        {
            let mut cy = y_lo;
            while cy < y_hi
                invariant
                    self.wf(),
                    rect.wf(),
                    nn == self.size(),
                    cx < x_hi,
                    forall|p: Point| rect.contains(p) ==> #[trigger] self.readable(self.cell(p)),
                    forall|a: int, b: int|
                        0 <= a < rect.width() && 0 <= b < rect.height() ==> {
                            let cp = self.cell(#[trigger] snapshot_point(rect, a, b));
                            &&& x_lo <= cp.x < x_hi
                            &&& y_lo <= cp.y < y_hi
                            &&& rect.contains(snapshot_point(rect, a, b))
                        },
                    result.wf(),
                    result.rows() == rect.width(),
                    result.cols() == rect.height(),
                    forall|a: int, b: int|
                        0 <= a < rect.width() && 0 <= b < rect.height() ==> #[trigger] result.at(
                            a,
                            b,
                        ) == if self.cell(snapshot_point(rect, a, b)).x < cx || (self.cell(
                            snapshot_point(rect, a, b),
                        ).x == cx && self.cell(snapshot_point(rect, a, b)).y < cy) {
                            self@[snapshot_point(rect, a, b)]
                        } else {
                            transparent()
                        },
                decreases y_hi - cy,
            {
                let c = Point { x: cx, y: cy };
                let ghost before = result;
                self.copy_chunk(&mut result, rect, c);
                proof {
                    assert forall|a: int, b: int|
                        0 <= a < rect.width() && 0 <= b < rect.height() implies #[trigger] result.at(
                            a,
                            b,
                        ) == if self.cell(snapshot_point(rect, a, b)).x < cx || (self.cell(
                            snapshot_point(rect, a, b),
                        ).x == cx && self.cell(snapshot_point(rect, a, b)).y < cy + 1) {
                            self@[snapshot_point(rect, a, b)]
                        } else {
                            transparent()
                        } by {
                        let p = snapshot_point(rect, a, b);
                        assert(before.at(a, b) == result.at(a, b) || self.cell(p) == c);
                        if self.cell(p) == c {
                            assert(self.readable(self.cell(p)));
                        }
                    }
                }
                cy = cy + 1;
            }
            cx = cx + 1;
        }
        proof {
            assert forall|i: int, j: int|
                0 <= i < rect.width() && 0 <= j < rect.height() implies #[trigger] result.at(i, j)
                    == self@[Point { x: (rect.x_min + i) as i32, y: (rect.y_min + j) as i32 }] by {
                assert(snapshot_point(rect, i, j) == Point {
                    x: (rect.x_min + i) as i32,
                    y: (rect.y_min + j) as i32,
                });
            }
        }
        result
    }

    /// Records an access at `now` to the chunk at chunk coordinates `c`, if it exists;
    /// nothing that the store shows changes.
    pub fn touch_chunk(&mut self, c: Point, now: u64)
        requires
            old(self).wf(),
        ensures
            final(self).wf(),
            final(self).size() == old(self).size(),
            final(self)@ == old(self)@,
            final(self).entries() == if old(self).entries().contains_key(cell_key(c)) {
                old(self).entries().insert(
                    cell_key(c),
                    old(self).entries()[cell_key(c)].touched(now),
                )
            } else {
                old(self).entries()
            },
            forall|c2: Point| #[trigger] final(self).resident(c2) == old(self).resident(c2),
            forall|c2: Point| #[trigger] final(self).readable(c2) == old(self).readable(c2),
    {
        proof {
            lemma_pair_key(c.x as int, c.y as int, c.x as int, c.y as int);
        }
        let k = c.key();
        let ghost before = self.entries();
        if !self.chunks.contains_key(&k) {
            return;
        }
        match self.chunks.remove(&k) {
            Some(mut e) => {
                assert(before.contains_key(k) && before[k] == e@);
                e.touch(now);
                self.chunks.insert(k, e);
                proof {
                    assert(self.entries() =~= before.insert(k, e@));
                    assert forall|k2: u64| #[trigger]
                        self.entries().contains_key(k2) implies exists|i: int|
                        0 <= i < self.cells().len() && cell_key(self.cells()[i]) == k2 by {
                        assert(before.contains_key(k2));
                        let i = choose|i: int|
                            0 <= i < old(self).cells().len() && cell_key(old(self).cells()[i]) == k2;
                        assert(cell_key(self.cells()[i]) == k2);
                    }
                    assert forall|k2: u64| #[trigger]
                        self.entries().contains_key(k2) implies self.entry_ok(self.entries()[k2]) by {
                        assert(before.contains_key(k2));
                        if k2 != k {
                            assert(self.entries()[k2] == before[k2]);
                        }
                    }
                    assert forall|i: int|
                        0 <= i < self.cells().len() implies self.entries().contains_key(
                        #[trigger] cell_key(self.cells()[i]),
                    ) by {
                        assert(before.contains_key(cell_key(self.cells()[i])));
                    }
                    assert forall|p: Point| #[trigger] self.color(p) == old(self).color(p) by {}
                    assert(self@ =~= old(self)@);
                }
            },
            None => {
                assert(self.entries() =~= before);
            },
        }
    }

    /// Runs the periodic check of every chunk at `now`, and returns the grids that the
    /// caller must write to storage, each with its chunk coordinates. Idle chunks are
    /// released from memory; what the store shows does not change.
    #[verifier::rlimit(100)]
    pub fn periodic_check(&mut self, now: u64) -> (saves: Vec<(Point, Matrix<Rgba>)>)
        requires
            old(self).wf(),
        ensures
            final(self).wf(),
            final(self).size() == old(self).size(),
            final(self)@ == old(self)@,
            final(self).entries().dom() == old(self).entries().dom(),
            forall|k: u64| #[trigger]
                final(self).entries().contains_key(k) ==> final(self).entries()[k] == old(
                    self,
                ).entries()[k].checked(now),
            forall|k: u64| #[trigger]
                old(self).entries().contains_key(k) && (old(self).entries()[k].mutated && (old(self).entries()[k].flush_due(now) || old(self).entries()[k].idle(now))) ==> exists|i: int|
                    0 <= i < saves@.len() && cell_key(saves@[i].0) == k,
            forall|i: int|
                0 <= i < saves@.len() ==> old(self).entries().contains_key(cell_key(#[trigger] saves@[i].0))
                    && (old(self).entries()[cell_key(saves@[i].0)].mutated && (old(self).entries()[cell_key(saves@[i].0)].flush_due(now) || old(self).entries()[cell_key(saves@[i].0)].idle(now))),
            forall|i: int, j: int| 0 <= i < j < saves@.len() ==> saves@[i].0 != saves@[j].0,
            forall|i: int|
                0 <= i < saves@.len() ==> {
                    let k = cell_key(#[trigger] saves@[i].0);
                    &&& final(self).entries().contains_key(k)
                    &&& final(self).entries()[k].stored is Some
                    &&& saves@[i].1.same_cells(&final(self).entries()[k].stored->0)
                },
    {
        let ghost start = *self;
        let mut saves: Vec<(Point, Matrix<Rgba>)> = Vec::new();
        let mut i: usize = 0;
        while i < self.order.len()
            invariant
                start.wf(),
                self.wf(),
                self.size() == start.size(),
                self.cells() == start.cells(),
                i <= self.cells().len(),
                self.entries().dom() == start.entries().dom(),
                forall|k: u64| #[trigger]
                    self.entries().contains_key(k) ==> self.entries()[k].content()
                        == start.entries()[k].content(),
                forall|k: u64| #[trigger]
                    self.entries().contains_key(k) ==> (self.entries()[k] == if exists|j: int|
                        0 <= j < i && cell_key(self.cells()[j]) == k {
                        start.entries()[k].checked(now)
                    } else {
                        start.entries()[k]
                    }),
                forall|j: int|
                    0 <= j < i && (start.entries()[cell_key(#[trigger] self.cells()[j])].mutated && (start.entries()[cell_key(#[trigger] self.cells()[j])].flush_due(now) || start.entries()[cell_key(#[trigger] self.cells()[j])].idle(now))) ==> exists|m: int|
                        0 <= m < saves@.len() && saves@[m].0 == self.cells()[j],
                forall|m: int|
                    0 <= m < saves@.len() ==> start.entries().contains_key(cell_key(#[trigger] saves@[m].0))
                        && (start.entries()[cell_key(saves@[m].0)].mutated && (start.entries()[cell_key(saves@[m].0)].flush_due(now) || start.entries()[cell_key(saves@[m].0)].idle(now))),
                forall|m1: int, m2: int| 0 <= m1 < m2 < saves@.len() ==> saves@[m1].0 != saves@[m2].0,
                forall|m: int|
                    0 <= m < saves@.len() ==> exists|j: int|
                        0 <= j < i && self.cells()[j] == #[trigger] saves@[m].0,
                forall|m: int|
                    0 <= m < saves@.len() ==> {
                        let k = cell_key(#[trigger] saves@[m].0);
                        &&& self.entries().contains_key(k)
                        &&& self.entries()[k].stored is Some
                        &&& saves@[m].1.same_cells(&self.entries()[k].stored->0)
                    },
            decreases self.cells().len() - i,
        {
            let c = self.order[i];
            proof {
                lemma_pair_key(c.x as int, c.y as int, c.x as int, c.y as int);
            }
            let k = c.key();
            assert(c == self.cells()[i as int]);
            assert(k == cell_key(c));
            assert(self.chunks@.contains_key(k)) by {
                assert(self.entries().contains_key(cell_key(self.cells()[i as int])));
            }
            let ghost before = self.entries();
            let ghost saves_before = saves@;
            let mut e = self.chunks.remove(&k).unwrap();
            assert(before.contains_key(k) && before[k] == e@);
            let ghost e0 = e@;
            let outcome = e.periodic_check(now);
            match outcome {
                Housekeeping::Idle => {},
                Housekeeping::SaveHeld => {
                    let copy = e.value().copied();
                    saves.push((c, copy));
                },
                Housekeeping::SaveReleased(m) => {
                    saves.push((c, m));
                },
            }
            self.chunks.insert(k, e);
            proof {
                assert(self.entries() =~= before.insert(k, e@));
                assert forall|j: int|
                    0 <= j < i implies cell_key(self.cells()[j]) != k by {
                    lemma_pair_key(
                        c.x as int,
                        c.y as int,
                        self.cells()[j].x as int,
                        self.cells()[j].y as int,
                    );
                }
                assert(e0 == start.entries()[k]);
                assert forall|k2: u64| #[trigger]
                    self.entries().contains_key(k2) implies (self.entries()[k2] == if exists|j: int|
                        0 <= j < i + 1 && cell_key(self.cells()[j]) == k2 {
                        start.entries()[k2].checked(now)
                    } else {
                        start.entries()[k2]
                    }) by {
                    if k2 == k {
                        assert(cell_key(self.cells()[i as int]) == k2);
                    } else {
                        if exists|j: int| 0 <= j < i + 1 && cell_key(self.cells()[j]) == k2 {
                            let j = choose|j: int| 0 <= j < i + 1 && cell_key(self.cells()[j]) == k2;
                            assert(j < i);
                        }
                    }
                }
                assert forall|k2: u64| #[trigger]
                    self.entries().contains_key(k2) implies exists|j: int|
                    0 <= j < self.cells().len() && cell_key(self.cells()[j]) == k2 by {
                    assert(before.contains_key(k2));
                }
                assert forall|m: int|
                    0 <= m < saves@.len() implies {
                        let k3 = cell_key(#[trigger] saves@[m].0);
                        &&& self.entries().contains_key(k3)
                        &&& self.entries()[k3].stored is Some
                        &&& saves@[m].1.same_cells(&self.entries()[k3].stored->0)
                    } by {
                    if m < saves_before.len() {
                        assert(saves@[m] == saves_before[m]);
                        let k3 = cell_key(saves@[m].0);
                        let j = choose|j: int| 0 <= j < i && self.cells()[j] == saves_before[m].0;
                        lemma_pair_key(
                            c.x as int,
                            c.y as int,
                            self.cells()[j].x as int,
                            self.cells()[j].y as int,
                        );
                    } else {
                        let mm = saves@[m].1;
                        assert(mm.same_cells(&self.entries()[k].stored->0));
                    }
                }
                assert forall|j: int|
                    0 <= j < i + 1 && (start.entries()[cell_key(#[trigger] self.cells()[j])].mutated && (start.entries()[cell_key(#[trigger] self.cells()[j])].flush_due(now) || start.entries()[cell_key(#[trigger] self.cells()[j])].idle(now))) implies exists|m: int|
                        0 <= m < saves@.len() && saves@[m].0 == self.cells()[j] by {
                    if j < i {
                        let m = choose|m: int| 0 <= m < saves_before.len() && saves_before[m].0 == self.cells()[j];
                        assert(saves@[m] == saves_before[m]);
                    } else {
                        assert(saves@[saves@.len() - 1].0 == self.cells()[j]);
                    }
                }
                assert forall|m: int|
                    0 <= m < saves@.len() implies start.entries().contains_key(cell_key(#[trigger] saves@[m].0))
                        && (start.entries()[cell_key(saves@[m].0)].mutated && (start.entries()[cell_key(saves@[m].0)].flush_due(now) || start.entries()[cell_key(saves@[m].0)].idle(now))) by {
                    if m < saves_before.len() {
                        assert(saves@[m] == saves_before[m]);
                    } else {
                        assert(saves@[m].0 == c);
                    }
                }
                assert forall|m1: int, m2: int| 0 <= m1 < m2 < saves@.len() implies saves@[m1].0 != saves@[m2].0 by {
                    assert(saves@[m1] == saves_before[m1]);
                    if m2 < saves_before.len() {
                        assert(saves@[m2] == saves_before[m2]);
                    } else {
                        let j = choose|j: int| 0 <= j < i && self.cells()[j] == saves_before[m1].0;
                        assert(self.cells()[j] != self.cells()[i as int]);
                    }
                }
                assert forall|m: int|
                    0 <= m < saves@.len() implies exists|j: int|
                        0 <= j < i + 1 && self.cells()[j] == #[trigger] saves@[m].0 by {
                    if m < saves_before.len() {
                        assert(saves@[m] == saves_before[m]);
                    } else {
                        assert(self.cells()[i as int] == saves@[m].0);
                    }
                }
            }
            i = i + 1;
        }
        proof {
            assert forall|k: u64| #[trigger]
                self.entries().contains_key(k) implies self.entries()[k] == start.entries()[k].checked(now) by {
                let j = choose|j: int| 0 <= j < self.cells().len() && cell_key(self.cells()[j]) == k;
                assert(exists|j: int| 0 <= j < i && cell_key(self.cells()[j]) == k);
            }
            assert forall|k: u64| #[trigger]
                start.entries().contains_key(k) && (start.entries()[k].mutated && (start.entries()[k].flush_due(now) || start.entries()[k].idle(now))) implies exists|m: int|
                    0 <= m < saves@.len() && cell_key(saves@[m].0) == k by {
                let j = choose|j: int| 0 <= j < self.cells().len() && cell_key(self.cells()[j]) == k;
                let m = choose|m: int| 0 <= m < saves@.len() && saves@[m].0 == self.cells()[j];
            }
            assert forall|p: Point| #[trigger] self.color(p) == start.color(p) by {}
            assert(self@ =~= start@);
        }
        saves
    }

    /// Lets go of every chunk at `now`, as when the store shuts down, and returns the
    /// grids that the caller must write to storage, each with its chunk coordinates:
    /// afterwards what storage yields for each chunk is what the store showed.
    #[verifier::rlimit(100)]
    pub fn flush_all(&mut self, now: u64) -> (saves: Vec<(Point, Matrix<Rgba>)>)
        requires
            old(self).wf(),
        ensures
            final(self).wf(),
            final(self).size() == old(self).size(),
            final(self)@ == old(self)@,
            final(self).entries().dom() == old(self).entries().dom(),
            forall|k: u64| #[trigger]
                final(self).entries().contains_key(k) ==> final(self).entries()[k].stored == old(
                    self,
                ).entries()[k].content(),
            forall|k: u64| #[trigger]
                final(self).entries().contains_key(k) ==> final(self).entries()[k] == old(
                    self,
                ).entries()[k].finished(now),
            forall|k: u64| #[trigger]
                old(self).entries().contains_key(k) && old(self).entries()[k].mutated ==> exists|i: int|
                    0 <= i < saves@.len() && cell_key(saves@[i].0) == k,
            forall|i: int|
                0 <= i < saves@.len() ==> old(self).entries().contains_key(cell_key(#[trigger] saves@[i].0))
                    && old(self).entries()[cell_key(saves@[i].0)].mutated,
            forall|i: int, j: int| 0 <= i < j < saves@.len() ==> saves@[i].0 != saves@[j].0,
            forall|i: int|
                0 <= i < saves@.len() ==> {
                    let k = cell_key(#[trigger] saves@[i].0);
                    &&& final(self).entries().contains_key(k)
                    &&& final(self).entries()[k].stored is Some
                    &&& saves@[i].1.same_cells(&final(self).entries()[k].stored->0)
                },
    {
        let ghost start = *self;
        let mut saves: Vec<(Point, Matrix<Rgba>)> = Vec::new();
        let mut i: usize = 0;
        while i < self.order.len()
            invariant
                start.wf(),
                self.wf(),
                self.size() == start.size(),
                self.cells() == start.cells(),
                i <= self.cells().len(),
                self.entries().dom() == start.entries().dom(),
                forall|k: u64| #[trigger]
                    self.entries().contains_key(k) ==> self.entries()[k].content()
                        == start.entries()[k].content(),
                forall|k: u64| #[trigger]
                    self.entries().contains_key(k) ==> (self.entries()[k] == if exists|j: int|
                        0 <= j < i && cell_key(self.cells()[j]) == k {
                        start.entries()[k].finished(now)
                    } else {
                        start.entries()[k]
                    }),
                forall|j: int|
                    0 <= j < i && start.entries()[cell_key(#[trigger] self.cells()[j])].mutated ==> exists|m: int|
                        0 <= m < saves@.len() && saves@[m].0 == self.cells()[j],
                forall|m: int|
                    0 <= m < saves@.len() ==> start.entries().contains_key(cell_key(#[trigger] saves@[m].0))
                        && start.entries()[cell_key(saves@[m].0)].mutated,
                forall|m1: int, m2: int| 0 <= m1 < m2 < saves@.len() ==> saves@[m1].0 != saves@[m2].0,
                forall|m: int|
                    0 <= m < saves@.len() ==> exists|j: int|
                        0 <= j < i && self.cells()[j] == #[trigger] saves@[m].0,
                forall|m: int|
                    0 <= m < saves@.len() ==> {
                        let k = cell_key(#[trigger] saves@[m].0);
                        &&& self.entries().contains_key(k)
                        &&& self.entries()[k].stored is Some
                        &&& saves@[m].1.same_cells(&self.entries()[k].stored->0)
                    },
            decreases self.cells().len() - i,
        {
            let c = self.order[i];
            proof {
                lemma_pair_key(c.x as int, c.y as int, c.x as int, c.y as int);
            }
            let k = c.key();
            assert(c == self.cells()[i as int]);
            assert(k == cell_key(c));
            assert(self.chunks@.contains_key(k)) by {
                assert(self.entries().contains_key(cell_key(self.cells()[i as int])));
            }
            let ghost before = self.entries();
            let ghost saves_before = saves@;
            let mut e = self.chunks.remove(&k).unwrap();
            assert(before.contains_key(k) && before[k] == e@);
            let ghost e0 = e@;
            if e.finish(now) {
                let copy = e.value().copied();
                saves.push((c, copy));
            }
            self.chunks.insert(k, e);
            proof {
                assert(self.entries() =~= before.insert(k, e@));
                assert forall|j: int|
                    0 <= j < i implies cell_key(self.cells()[j]) != k by {
                    lemma_pair_key(
                        c.x as int,
                        c.y as int,
                        self.cells()[j].x as int,
                        self.cells()[j].y as int,
                    );
                }
                assert(e0 == start.entries()[k]);
                assert forall|k2: u64| #[trigger]
                    self.entries().contains_key(k2) implies (self.entries()[k2] == if exists|j: int|
                        0 <= j < i + 1 && cell_key(self.cells()[j]) == k2 {
                        start.entries()[k2].finished(now)
                    } else {
                        start.entries()[k2]
                    }) by {
                    if k2 == k {
                        assert(cell_key(self.cells()[i as int]) == k2);
                    } else {
                        if exists|j: int| 0 <= j < i + 1 && cell_key(self.cells()[j]) == k2 {
                            let j = choose|j: int| 0 <= j < i + 1 && cell_key(self.cells()[j]) == k2;
                            assert(j < i);
                        }
                    }
                }
                assert forall|k2: u64| #[trigger]
                    self.entries().contains_key(k2) implies exists|j: int|
                    0 <= j < self.cells().len() && cell_key(self.cells()[j]) == k2 by {
                    assert(before.contains_key(k2));
                }
                assert forall|m: int|
                    0 <= m < saves@.len() implies {
                        let k3 = cell_key(#[trigger] saves@[m].0);
                        &&& self.entries().contains_key(k3)
                        &&& self.entries()[k3].stored is Some
                        &&& saves@[m].1.same_cells(&self.entries()[k3].stored->0)
                    } by {
                    if m < saves_before.len() {
                        assert(saves@[m] == saves_before[m]);
                        let k3 = cell_key(saves@[m].0);
                        let j = choose|j: int| 0 <= j < i && self.cells()[j] == saves_before[m].0;
                        lemma_pair_key(
                            c.x as int,
                            c.y as int,
                            self.cells()[j].x as int,
                            self.cells()[j].y as int,
                        );
                    } else {
                        let mm = saves@[m].1;
                        assert(mm.same_cells(&self.entries()[k].stored->0));
                    }
                }
                assert forall|j: int|
                    0 <= j < i + 1 && start.entries()[cell_key(#[trigger] self.cells()[j])].mutated implies exists|m: int|
                        0 <= m < saves@.len() && saves@[m].0 == self.cells()[j] by {
                    if j < i {
                        let m = choose|m: int| 0 <= m < saves_before.len() && saves_before[m].0 == self.cells()[j];
                        assert(saves@[m] == saves_before[m]);
                    } else {
                        assert(saves@[saves@.len() - 1].0 == self.cells()[j]);
                    }
                }
                assert forall|m: int|
                    0 <= m < saves@.len() implies start.entries().contains_key(cell_key(#[trigger] saves@[m].0))
                        && start.entries()[cell_key(saves@[m].0)].mutated by {
                    if m < saves_before.len() {
                        assert(saves@[m] == saves_before[m]);
                    } else {
                        assert(saves@[m].0 == c);
                    }
                }
                assert forall|m1: int, m2: int| 0 <= m1 < m2 < saves@.len() implies saves@[m1].0 != saves@[m2].0 by {
                    assert(saves@[m1] == saves_before[m1]);
                    if m2 < saves_before.len() {
                        assert(saves@[m2] == saves_before[m2]);
                    } else {
                        let j = choose|j: int| 0 <= j < i && self.cells()[j] == saves_before[m1].0;
                        assert(self.cells()[j] != self.cells()[i as int]);
                    }
                }
                assert forall|m: int|
                    0 <= m < saves@.len() implies exists|j: int|
                        0 <= j < i + 1 && self.cells()[j] == #[trigger] saves@[m].0 by {
                    if m < saves_before.len() {
                        assert(saves@[m] == saves_before[m]);
                    } else {
                        assert(self.cells()[i as int] == saves@[m].0);
                    }
                }
            }
            i = i + 1;
        }
        proof {
            assert forall|k: u64| #[trigger]
                self.entries().contains_key(k) implies self.entries()[k] == start.entries()[k].finished(now) by {
                let j = choose|j: int| 0 <= j < self.cells().len() && cell_key(self.cells()[j]) == k;
                assert(exists|j: int| 0 <= j < i && cell_key(self.cells()[j]) == k);
            }
            assert forall|k: u64| #[trigger]
                start.entries().contains_key(k) && start.entries()[k].mutated implies exists|m: int|
                    0 <= m < saves@.len() && cell_key(saves@[m].0) == k by {
                let j = choose|j: int| 0 <= j < self.cells().len() && cell_key(self.cells()[j]) == k;
                let m = choose|m: int| 0 <= m < saves@.len() && saves@[m].0 == self.cells()[j];
            }
            assert forall|p: Point| #[trigger] self.color(p) == start.color(p) by {}
            assert(self@ =~= start@);
        }
        saves
    }

    /// The chunk coordinates of the chunk of each pixel of `update`, in order.
    pub fn chunks_of_update(&self, update: &Update) -> (r: Vec<Point>)
        requires
            self.wf(),
        ensures
            r@.len() == update.pixels().len(),
            forall|i: int|
                0 <= i < r@.len() ==> #[trigger] r@[i] == self.cell(update.pixels()[i].position),
    {
        let mut r: Vec<Point> = Vec::new();
        match update {
            Update::Draw(pixels) => {
                let mut i: usize = 0;
                while i < pixels.len()
                    invariant
                        self.wf(),
                        i <= pixels@.len(),
                        pixels@ == update.pixels(),
                        r@.len() == i,
                        forall|j: int|
                            0 <= j < i ==> #[trigger] r@[j] == self.cell(pixels@[j].position),
                    decreases pixels@.len() - i,
                {
                    let c = self.chunk_of(pixels[i].position);
                    r.push(c);
                    i = i + 1;
                }
            },
        }
        r
    }

    /// The chunk coordinates of every chunk that `rect` meets: x from the floor of
    /// `x_min / chunk_size` up to, not including, the ceiling of `x_max / chunk_size`,
    /// and the same for y.
    pub fn chunks_in(&self, rect: Aabb) -> (r: Vec<Point>)
        requires
            self.wf(),
            rect.wf(),
        ensures
            forall|p: Point| rect.contains(p) ==> r@.contains(#[trigger] self.cell(p)),
            forall|i: int|
                0 <= i < r@.len() ==> {
                    &&& rect.x_min as int / self.size() <= #[trigger] r@[i].x
                    &&& r@[i].x < (rect.x_max as int + self.size() - 1) / self.size()
                    &&& rect.y_min as int / self.size() <= r@[i].y
                    &&& r@[i].y < (rect.y_max as int + self.size() - 1) / self.size()
                },
    {
        let n = self.chunk_size;
        let x_lo = div_down(rect.x_min, n);
        let x_hi = div_up(rect.x_max, n);
        let y_lo = div_down(rect.y_min, n);
        let y_hi = div_up(rect.y_max, n);
        let mut r: Vec<Point> = Vec::new();
        let mut cx: i32 = x_lo;
        while cx < x_hi
            invariant
                x_lo <= cx <= x_hi || (cx == x_lo && x_hi < x_lo),
                forall|q: Point|
                    x_lo <= q.x < cx && y_lo <= q.y < y_hi ==> #[trigger] r@.contains(q),
                forall|i: int|
                    0 <= i < r@.len() ==> x_lo <= #[trigger] r@[i].x < x_hi && y_lo <= r@[i].y
                        < y_hi,
            decreases x_hi - cx,
        {
            let mut cy: i32 = y_lo;
            while cy < y_hi
                invariant
                    x_lo <= cx < x_hi,
                    y_lo <= cy <= y_hi || (cy == y_lo && y_hi < y_lo),
                    forall|q: Point|
                        (x_lo <= q.x < cx && y_lo <= q.y < y_hi) || (q.x == cx && y_lo <= q.y < cy)
                            ==> #[trigger] r@.contains(q),
                    forall|i: int|
                        0 <= i < r@.len() ==> x_lo <= #[trigger] r@[i].x < x_hi && y_lo <= r@[i].y
                            < y_hi,
                decreases y_hi - cy,
            {
                let ghost before = r@;
                let c = Point { x: cx, y: cy };
                r.push(c);
                proof {
                    assert forall|q: Point|
                        (x_lo <= q.x < cx && y_lo <= q.y < y_hi) || (q.x == cx && y_lo <= q.y < cy
                            + 1) implies #[trigger] r@.contains(q) by {
                        if q == c {
                            assert(r@[before.len() as int] == q);
                        } else {
                            assert(before.contains(q));
                            let j = choose|j: int| 0 <= j < before.len() && before[j] == q;
                            assert(r@[j] == q);
                        }
                    }
                    assert forall|i: int| 0 <= i < r@.len() implies x_lo <= #[trigger] r@[i].x
                        < x_hi && y_lo <= r@[i].y < y_hi by {
                        if i < before.len() {
                            assert(r@[i] == before[i]);
                        }
                    }
                }
                cy = cy + 1;
            }
            cx = cx + 1;
        }
        proof {
            assert forall|p: Point| rect.contains(p) implies r@.contains(#[trigger] self.cell(p)) by {
                let nn = n as int;
                lemma_cell_split(p.x as int, nn);
                lemma_cell_split(p.y as int, nn);
                vstd::arithmetic::div_mod::lemma_div_is_ordered(rect.x_min as int, p.x as int, nn);
                vstd::arithmetic::div_mod::lemma_div_is_ordered(rect.y_min as int, p.y as int, nn);
                vstd::arithmetic::div_mod::lemma_div_is_ordered(p.x as int + nn, rect.x_max as int + nn - 1, nn);
                vstd::arithmetic::div_mod::lemma_div_is_ordered(p.y as int + nn, rect.y_max as int + nn - 1, nn);
                assert((p.x as int + nn) / nn == p.x as int / nn + 1) by (nonlinear_arith)
                    requires
                        nn > 0,
                ;
                assert((p.y as int + nn) / nn == p.y as int / nn + 1) by (nonlinear_arith)
                    requires
                        nn > 0,
                ;
            }
        }
        r
    }
}

} // verus!
