use vstd::prelude::*;
use std::collections::HashMap;
use crate::geom::{Point, Aabb, point_key, lemma_point_key_injective};
use crate::matrix::Matrix;

verus! {

broadcast use vstd::std_specs::hash::group_hash_axioms;

/// A color with 8-bit red, green, blue and alpha channels.
#[derive(Clone, Copy, Debug, PartialEq, Eq, Structural)]
pub struct Rgba {
    pub r: u8,
    pub g: u8,
    pub b: u8,
    pub a: u8,
}

/// The color of every place that was never painted.
pub open spec fn transparent() -> Rgba {
    Rgba { r: 0, g: 0, b: 0, a: 0 }
}

impl Rgba {
    pub fn transparent_black() -> (r: Rgba)
        ensures
            r == transparent(),
    {
        Rgba { r: 0, g: 0, b: 0, a: 0 }
    }
}

/// One painted place.
#[derive(Clone, Copy, Debug, PartialEq, Eq, Structural)]
pub struct Pixel {
    pub position: Point,
    pub color: Rgba,
}

/// An edit of the canvas.
#[derive(Clone, Debug, PartialEq, Eq)]
pub enum Update {
    /// Paint each pixel in turn; a later pixel at the same place wins.
    Draw(Vec<Pixel>),
}

/// Identity that a client gives to each of its own edits.
pub type UpdateId = u64;

/// What a client sends to the server.
#[derive(Clone, Debug, PartialEq, Eq)]
pub enum ClientMessage {
    /// Ask for the colors of a rectangle.
    Download { area: Aabb },
    /// Apply an edit, to be acknowledged under `id`.
    Update { id: UpdateId, update: Update },
}

/// What the server sends to a client.
#[derive(Debug)]
pub enum ServerMessage {
    /// The whole canvas, once, at connection.
    Initial(Texture),
    /// The colors of a rectangle whose corner with the smallest coordinates is `position`.
    Download { position: Point, data: Matrix<Rgba> },
    /// An edit in the server's order; `your_id` is set for the client that made it.
    Update { your_id: Option<UpdateId>, update: Update },
}

/// The infinite canvas as a mathematical object: a color for every point.
pub open spec fn blank() -> Map<Point, Rgba> {
    Map::total(|p: Point| transparent())
}

pub open spec fn is_total(c: Map<Point, Rgba>) -> bool {
    forall|p: Point| #[trigger] c.contains_key(p)
}

/// The canvas `c` after painting `px` in order.
pub open spec fn draw(c: Map<Point, Rgba>, px: Seq<Pixel>) -> Map<Point, Rgba>
    decreases px.len(),
{
    if px.len() == 0 {
        c
    } else {
        draw(c, px.drop_last()).insert(px.last().position, px.last().color)
    }
}

/// The color that the last pixel of `px` at `p` paints, if any pixel is at `p`.
pub open spec fn last_write(px: Seq<Pixel>, p: Point) -> Option<Rgba>
    decreases px.len(),
{
    if px.len() == 0 {
        None
    } else if px.last().position == p {
        Some(px.last().color)
    } else {
        last_write(px.drop_last(), p)
    }
}

/// The edit that gives back to each place that `px` paints the color it had in `c`.
pub open spec fn inverse(c: Map<Point, Rgba>, px: Seq<Pixel>) -> Seq<Pixel> {
    Seq::new(px.len(), |i: int| Pixel { position: px[i].position, color: c[px[i].position] })
}

/// A place keeps its color unless a pixel paints it, and then takes the last such color.
pub proof fn lemma_draw_at(c: Map<Point, Rgba>, px: Seq<Pixel>, p: Point)
    ensures
        draw(c, px).contains_key(p) == (c.contains_key(p) || last_write(px, p) is Some),
        draw(c, px)[p] == match last_write(px, p) {
            Some(col) => col,
            None => c[p],
        },
    decreases px.len(),
{
    if px.len() > 0 {
        lemma_draw_at(c, px.drop_last(), p);
    }
}

/// The inverse edit paints exactly the places that the edit paints.
pub proof fn lemma_inverse_last_write(c: Map<Point, Rgba>, px: Seq<Pixel>, p: Point)
    ensures
        last_write(inverse(c, px), p) == match last_write(px, p) {
            Some(_) => Some(c[p]),
            None => None,
        },
    decreases px.len(),
{
    if px.len() > 0 {
        assert(inverse(c, px).drop_last() =~= inverse(c, px.drop_last()));
        lemma_inverse_last_write(c, px.drop_last(), p);
    }
}

/// Painting an edit and then its inverse, taken on the canvas before the edit,
/// gives back that canvas exactly.
pub proof fn lemma_inverse_restores(c: Map<Point, Rgba>, px: Seq<Pixel>)
    requires
        is_total(c),
    ensures
        draw(draw(c, px), inverse(c, px)) == c,
{
    let d = draw(draw(c, px), inverse(c, px));
    assert forall|p: Point| #[trigger] d.contains_key(p) == c.contains_key(p) && d[p] == c[p] by {
        lemma_draw_at(c, px, p);
        lemma_draw_at(draw(c, px), inverse(c, px), p);
        lemma_inverse_last_write(c, px, p);
    }
    assert(d =~= c);
}

/// Painting the same edit twice in a row gives the canvas that painting it once gives.
pub proof fn lemma_draw_idempotent(c: Map<Point, Rgba>, px: Seq<Pixel>)
    ensures
        draw(draw(c, px), px) == draw(c, px),
{
    let once = draw(c, px);
    let twice = draw(once, px);
    assert forall|p: Point| #[trigger] twice.contains_key(p) == once.contains_key(p) && twice[p]
        == once[p] by {
        lemma_draw_at(c, px, p);
        lemma_draw_at(once, px, p);
    }
    assert(twice =~= once);
}

impl Update {
    /// The pixels of the edit, in order.
    pub open spec fn pixels(&self) -> Seq<Pixel> {
        match self {
            Update::Draw(v) => v@,
        }
    }

    /// A copy of the edit.
    pub fn copied(&self) -> (r: Update)
        ensures
            r.pixels() == self.pixels(),
    {
        match self {
            Update::Draw(v) => {
                let mut out: Vec<Pixel> = Vec::with_capacity(v.len());
                let mut i: usize = 0;
                while i < v.len()
                    invariant
                        i <= v@.len(),
                        out@ == v@.take(i as int),
                    decreases v@.len() - i,
                {
                    out.push(v[i]);
                    i = i + 1;
                    assert(out@ =~= v@.take(i as int));
                }
                assert(out@ =~= v@);
                Update::Draw(out)
            },
        }
    }
}

/// The color that a map from point keys holds for `p`, transparent where it holds none.
pub open spec fn color_in(m: Map<u64, Rgba>, p: Point) -> Rgba {
    if m.contains_key(point_key(p) as u64) {
        m[point_key(p) as u64]
    } else {
        transparent()
    }
}

/// A whole canvas held as a map from point keys to colors.
#[derive(Debug)]
pub struct Texture {
    pixels: HashMap<u64, Rgba>,
    painted: Vec<Point>,
}

impl View for Texture {
    type V = Map<Point, Rgba>;

    closed spec fn view(&self) -> Map<Point, Rgba> {
        Map::total(|p: Point| color_in(self.pixels@, p))
    }
}

proof fn lemma_key_fits(p: Point)
    ensures
        (point_key(p) as u64) as int == point_key(p),
{
    lemma_point_key_injective(p, p);
}

proof fn lemma_u64_keys_distinct(p: Point, q: Point)
    requires
        p != q,
    ensures
        point_key(p) as u64 != point_key(q) as u64,
{
    lemma_point_key_injective(p, q);
}

/// The canvas that a texture shows has a color for every point.
pub proof fn lemma_texture_total(t: &Texture)
    ensures
        is_total(t@),
{
}

impl Texture {
    /// The places painted at least once, each once, in order of first painting.
    pub closed spec fn painted(&self) -> Seq<Point> {
        self.painted@
    }

    pub closed spec fn wf(&self) -> bool {
        &&& forall|i: int|
            0 <= i < self.painted@.len() ==> self.pixels@.contains_key(
                #[trigger] (point_key(self.painted@[i]) as u64),
            )
        &&& forall|k: u64| #[trigger]
            self.pixels@.contains_key(k) ==> exists|i: int|
                0 <= i < self.painted@.len() && point_key(self.painted@[i]) as u64 == k
        &&& self.painted@.no_duplicates()
    }

    /// The blank canvas.
    pub fn new() -> (r: Texture)
        ensures
            r.wf(),
            r@ == blank(),
    {
        let r = Texture { pixels: HashMap::new(), painted: Vec::new() };
        assert(r@ =~= blank());
        r
    }

    /// The color at `p`.
    pub fn get(&self, p: Point) -> (r: Rgba)
        ensures
            r == self@[p],
    {
        let k = p.key();
        proof {
            lemma_key_fits(p);
        }
        match self.pixels.get(&k) {
            Some(c) => *c,
            None => Rgba::transparent_black(),
        }
    }

    fn paint(&mut self, px: Pixel)
        requires
            old(self).wf(),
        ensures
            final(self).wf(),
            final(self)@ == old(self)@.insert(px.position, px.color),
    {
        let k = px.position.key();
        proof {
            lemma_key_fits(px.position);
        }
        let ghost old_painted = self.painted@;
        if !self.pixels.contains_key(&k) {
            proof {
                assert forall|i: int| 0 <= i < old_painted.len() implies old_painted[i]
                    != px.position by {
                    assert(self.pixels@.contains_key(point_key(old_painted[i]) as u64));
                }
            }
            self.painted.push(px.position);
        }
        self.pixels.insert(k, px.color);
        proof {
            assert forall|k2: u64| #[trigger]
                self.pixels@.contains_key(k2) implies exists|i: int|
                0 <= i < self.painted@.len() && point_key(self.painted@[i]) as u64 == k2 by {
                if k2 == k {
                    if !old(self).pixels@.contains_key(k) {
                        assert(point_key(self.painted@[self.painted@.len() - 1]) as u64 == k2);
                    } else {
                        let i = choose|i: int|
                            0 <= i < old_painted.len() && point_key(old_painted[i]) as u64 == k2;
                        assert(point_key(self.painted@[i]) as u64 == k2);
                    }
                } else {
                    assert(old(self).pixels@.contains_key(k2));
                    let i = choose|i: int|
                        0 <= i < old_painted.len() && point_key(old_painted[i]) as u64 == k2;
                    assert(point_key(self.painted@[i]) as u64 == k2);
                }
            }
            assert forall|i: int|
                0 <= i < self.painted@.len() implies self.pixels@.contains_key(
                #[trigger] (point_key(self.painted@[i]) as u64),
            ) by {
                if i < old_painted.len() {
                    assert(self.painted@[i] == old_painted[i]);
                }
            }
            assert forall|q: Point| #[trigger] color_in(self.pixels@, q) == old(
                self,
            )@.insert(px.position, px.color)[q] by {
                if q != px.position {
                    lemma_u64_keys_distinct(q, px.position);
                }
            }
            assert(self@ =~= old(self)@.insert(px.position, px.color));
        }
    }

    /// Paints the pixels of `update` in order.
    pub fn update(&mut self, update: Update)
        requires
            old(self).wf(),
        ensures
            final(self).wf(),
            final(self)@ == draw(old(self)@, update.pixels()),
    {
        match update {
            Update::Draw(pixels) => {
                let ghost start = self@;
                let mut i: usize = 0;
                while i < pixels.len()
                    invariant
                        i <= pixels@.len(),
                        self.wf(),
                        self@ == draw(start, pixels@.take(i as int)),
                    decreases pixels@.len() - i,
                {
                    self.paint(pixels[i]);
                    proof {
                        assert(pixels@.take(i + 1).drop_last() =~= pixels@.take(i as int));
                    }
                    i = i + 1;
                }
                assert(pixels@.take(i as int) =~= pixels@);
            },
        }
    }

    /// Paints the pixels of `update` in order, and returns the edit that undoes it:
    /// each place it paints, with the color that place had before.
    pub fn apply(&mut self, update: Update) -> (back: Update)
        requires
            old(self).wf(),
        ensures
            final(self).wf(),
            final(self)@ == draw(old(self)@, update.pixels()),
            back.pixels() == inverse(old(self)@, update.pixels()),
    {
        let mut reverse: Vec<Pixel> = Vec::new();
        match &update {
            Update::Draw(pixels) => {
                let mut i: usize = 0;
                while i < pixels.len()
                    invariant
                        i <= pixels@.len(),
                        self.wf(),
                        reverse@ == inverse(self@, pixels@).take(i as int),
                    decreases pixels@.len() - i,
                {
                    let position = pixels[i].position;
                    let color = self.get(position);
                    reverse.push(Pixel { position, color });
                    i = i + 1;
                    assert(reverse@ =~= inverse(self@, pixels@).take(i as int));
                }
                assert(reverse@ =~= inverse(self@, pixels@));
            },
        }
        self.update(update);
        Update::Draw(reverse)
    }

    /// Every place painted at least once, each once with its color, in order of first
    /// painting; every place that is not transparent is among them.
    pub fn to_pixels(&self) -> (r: Vec<Pixel>)
        requires
            self.wf(),
        ensures
            r@.len() == self.painted().len(),
            forall|i: int|
                0 <= i < r@.len() ==> #[trigger] r@[i] == (Pixel {
                    position: self.painted()[i],
                    color: self@[self.painted()[i]],
                }),
            forall|p: Point| #[trigger]
                self@[p] != transparent() ==> exists|i: int|
                    0 <= i < r@.len() && r@[i].position == p,
    {
        let mut r: Vec<Pixel> = Vec::new();
        let mut i: usize = 0;
        while i < self.painted.len()
            invariant
                i <= self.painted@.len(),
                r@.len() == i,
                forall|j: int|
                    0 <= j < i ==> #[trigger] r@[j] == (Pixel {
                        position: self.painted@[j],
                        color: self@[self.painted@[j]],
                    }),
            decreases self.painted@.len() - i,
        {
            let p = self.painted[i];
            r.push(Pixel { position: p, color: self.get(p) });
            i = i + 1;
        }
        proof {
            assert forall|p: Point| #[trigger]
                self@[p] != transparent() implies exists|i: int|
                0 <= i < r@.len() && r@[i].position == p by {
                lemma_key_fits(p);
                let k = point_key(p) as u64;
                assert(self.pixels@.contains_key(k));
                let j = choose|j: int|
                    0 <= j < self.painted@.len() && point_key(self.painted@[j]) as u64 == k;
                lemma_point_key_injective(self.painted@[j], p);
                assert(r@[j].position == p);
            }
        }
        r
    }
}

} // verus!
