//! Tiles, tile sets, and the search for the tile nearest to a signature.

use vstd::prelude::*;
use crate::color::Signature;

verus! {

/// A candidate image: where it is stored, and its colour signature.
#[derive(Clone)]
pub struct Tile<T> {
    pub path_buf: String,
    pub colors: T,
}

impl<T> Tile<T> {
    pub fn new(path_buf: String, colors: T) -> (tile: Tile<T>)
        ensures
            tile.path_buf == path_buf,
            tile.colors == colors,
    {
        Tile { path_buf, colors }
    }

    pub fn path(&self) -> (path: &str)
        ensures
            path@ == self.path_buf@,
    {
        self.path_buf.as_str()
    }

    pub fn colors(&self) -> (colors: &T)
        ensures
            *colors == self.colors,
    {
        &self.colors
    }
}

/// `rand::rngs::StdRng`: a generator of random numbers that its owner
/// seeds. Nothing inside it is seen here.
#[verifier::external_type_specification]
#[verifier::external_body]
pub struct ExStdRng(rand::rngs::StdRng);

/// `SeedableRng::seed_from_u64` for `StdRng`: a generator made from a seed.
/// Nothing is claimed of it.
#[verifier::external_body]
fn seed_generator(seed: u64) -> rand::rngs::StdRng {
    rand::SeedableRng::seed_from_u64(seed)
}

/// `Rng::gen_range(0, bound)`: a number from 0 up to, not including,
/// `bound`. It panics on an empty range, which `requires` leaves out.
#[verifier::external_body]
fn draw_below(generator: &mut rand::rngs::StdRng, bound: usize) -> (drawn: usize)
    requires
        bound > 0,
    ensures
        drawn < bound,
{
    rand::Rng::gen_range(generator, 0, bound)
}

/// The generator that picks tiles at random. Whoever renders owns it and
/// seeds it: no generator is shared behind the scenes.
pub struct TileRng {
    generator: rand::rngs::StdRng,
}

impl TileRng {
    /// A generator started from `seed`.
    pub fn seeded(seed: u64) -> TileRng {
        TileRng { generator: seed_generator(seed) }
    }

    /// A number below `bound`.
    pub fn below(&mut self, bound: usize) -> (drawn: usize)
        requires
            bound > 0,
        ensures
            drawn < bound,
    {
        draw_below(&mut self.generator, bound)
    }
}

/// The tiles of one corpus, all with signatures of one shape.
#[derive(Clone)]
pub struct TileSet<T> {
    pub tiles: Vec<Tile<T>>,
}

impl<T> View for TileSet<T> {
    type V = Seq<Tile<T>>;

    open spec fn view(&self) -> Seq<Tile<T>> {
        self.tiles@
    }
}

impl<T> TileSet<T> {
    pub fn new() -> (set: TileSet<T>)
        ensures
            set@ == Seq::<Tile<T>>::empty(),
    {
        TileSet { tiles: Vec::new() }
    }

    pub fn push(&mut self, tile: Tile<T>)
        ensures
            final(self)@ == old(self)@.push(tile),
    {
        self.tiles.push(tile);
    }

    pub fn len(&self) -> (n: usize)
        ensures
            n == self@.len(),
    {
        self.tiles.len()
    }

    pub fn is_empty(&self) -> (empty: bool)
        ensures
            empty <==> self@.len() == 0,
    {
        self.tiles.len() == 0
    }

    /// The tile at place `i`, in insertion order.
    pub fn tile(&self, i: usize) -> (tile: &Tile<T>)
        requires
            i < self@.len(),
        ensures
            *tile == self@[i as int],
    {
        &self.tiles[i]
    }

    /// The place of a tile picked at random: whichever the generator draws.
    pub fn random_index(&self, rng: &mut TileRng) -> (i: usize)
        requires
            self@.len() > 0,
        ensures
            i < self@.len(),
    {
        rng.below(self.tiles.len())
    }

    /// A tile of the set, picked at random.
    pub fn random_tile(&self, rng: &mut TileRng) -> (tile: &Tile<T>)
        requires
            self@.len() > 0,
        ensures
            self@.contains(*tile),
    {
        let i = self.random_index(rng);
        &self.tiles[i]
    }
}

/// Tile `i` is at least as near to `query` as every tile of the set.
pub open spec fn is_nearest<T: Signature>(tiles: Seq<Tile<T>>, query: T, i: int) -> bool {
    &&& 0 <= i < tiles.len()
    &&& forall|j: int|
        0 <= j < tiles.len() ==> tiles[i].colors.distance(&query)
            <= #[trigger] tiles[j].colors.distance(&query)
}

/// Tile `i` is nearest to `query`, and every tile before it is farther.
pub open spec fn is_first_nearest<T: Signature>(tiles: Seq<Tile<T>>, query: T, i: int) -> bool {
    &&& is_nearest(tiles, query, i)
    &&& forall|j: int|
        0 <= j < i ==> tiles[i].colors.distance(&query) < #[trigger] tiles[j].colors.distance(
            &query,
        )
}

impl<T: Signature> TileSet<T> {
    /// Linear scan: the place of the tile nearest to `query` and its
    /// distance. Among tiles equally near, the first one inserted wins.
    pub fn nearest(&self, query: &T) -> (found: (usize, u32))
        requires
            self@.len() > 0,
        ensures
            is_first_nearest(self@, *query, found.0 as int),
            found.1 == self@[found.0 as int].colors.distance(query),
    {
        let mut best: usize = 0;
        let mut least: u32 = self.tiles[0].colors.measure(query);
        let mut i: usize = 1;
        while i < self.tiles.len()
            invariant
                1 <= i <= self.tiles@.len(),
                best < i,
                least == self.tiles@[best as int].colors.distance(query),
                forall|j: int|
                    0 <= j < i ==> least <= #[trigger] self.tiles@[j].colors.distance(query),
                forall|j: int|
                    0 <= j < best ==> least < #[trigger] self.tiles@[j].colors.distance(query),
            decreases self.tiles@.len() - i,
        {
            let d = self.tiles[i].colors.measure(query);
            if d < least {
                best = i;
                least = d;
            }
            i += 1;
        }
        (best, least)
    }

    /// Linear scan: the tile nearest to `query`, the first of those equally
    /// near.
    pub fn nearest_tile(&self, query: &T) -> (tile: &Tile<T>)
        requires
            self@.len() > 0,
        ensures
            exists|i: int| is_first_nearest(self@, *query, i) && *tile == self@[i],
    {
        let found = self.nearest(query);
        &self.tiles[found.0]
    }
}

/// Only one tile can be the first of the nearest.
pub proof fn lemma_first_nearest_unique<T: Signature>(
    tiles: Seq<Tile<T>>,
    query: T,
    i: int,
    j: int,
)
    requires
        is_first_nearest(tiles, query, i),
        is_first_nearest(tiles, query, j),
    ensures
        i == j,
{
    if i < j {
        assert(tiles[j].colors.distance(&query) < tiles[i].colors.distance(&query));
        assert(tiles[i].colors.distance(&query) <= tiles[j].colors.distance(&query));
    } else if j < i {
        assert(tiles[i].colors.distance(&query) < tiles[j].colors.distance(&query));
        assert(tiles[j].colors.distance(&query) <= tiles[i].colors.distance(&query));
    }
}

/// Where some tile of the set has the query's own signature, the nearest
/// tile is at distance zero.
pub proof fn lemma_exact_match<T: Signature>(tiles: Seq<Tile<T>>, query: T, i: int, k: int)
    requires
        is_nearest(tiles, query, i),
        0 <= k < tiles.len(),
        tiles[k].colors == query,
    ensures
        tiles[i].colors.distance(&query) == 0,
{
    T::lemma_distance(&query, &query);
    T::lemma_distance(&tiles[i].colors, &query);
    assert(tiles[i].colors.distance(&query) <= tiles[k].colors.distance(&query));
}

/// Two tiles that are both nearest to a query are equally far from it:
/// whichever strategy found them, they agree on the distance.
pub proof fn lemma_nearest_agree<T: Signature>(tiles: Seq<Tile<T>>, query: T, i: int, j: int)
    requires
        is_nearest(tiles, query, i),
        is_nearest(tiles, query, j),
    ensures
        tiles[i].colors.distance(&query) == tiles[j].colors.distance(&query),
{
    assert(tiles[i].colors.distance(&query) <= tiles[j].colors.distance(&query));
    assert(tiles[j].colors.distance(&query) <= tiles[i].colors.distance(&query));
}

} // verus!
