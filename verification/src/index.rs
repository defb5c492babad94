//! Nearest-tile search through a k-d tree.
//!
//! The tree measures plain squared Euclidean distance between points with
//! whole-number coordinates. Each channel of a signature is one coordinate,
//! scaled beforehand by the square root of its weight in fixed point. The
//! scale is large enough that the rounding of the square roots can never
//! change which of two tiles is nearer: the tree and the linear scan
//! minimise the same metric.

use vstd::prelude::*;
use crate::color::{quad_distance, square, weighted_distance, SerializableRgb, Signature};
use crate::tile::{is_nearest, Tile, TileSet};

verus! {

/// The fixed-point unit: distances in the tree are the weighted distance
/// times this, less a rounding loss that stays below it.
pub const UNIT: i128 = 281_474_976_710_656;

/// The square root of `30 * UNIT`, rounded down.
pub const SCALE_RED: i128 = 91_892_596;

/// The square root of `59 * UNIT`, rounded down.
pub const SCALE_GREEN: i128 = 128_868_241;

/// The square root of `11 * UNIT`, rounded down.
pub const SCALE_BLUE: i128 = 55_643_730;

/// No coordinate of a scaled signature is larger than this.
pub const COORDINATE_LIMIT: i128 = 1_099_511_627_776;

/// The coordinates of a colour in the tree.
pub open spec fn laid_out(c: SerializableRgb) -> Seq<i128> {
    seq![
        (SCALE_RED * c.0) as i128,
        (SCALE_GREEN * c.1) as i128,
        (SCALE_BLUE * c.2) as i128,
    ]
}

/// The coordinates of a signature of four colours: those of its colours,
/// one after the other.
pub open spec fn laid_out_quad(q: [SerializableRgb; 4]) -> Seq<i128> {
    laid_out(q[0]) + laid_out(q[1]) + laid_out(q[2]) + laid_out(q[3])
}

/// The sum of the squared differences of the first `n` coordinates.
pub open spec fn euclid_upto(a: Seq<i128>, b: Seq<i128>, n: int) -> int
    decreases n,
{
    if n <= 0 {
        0
    } else {
        euclid_upto(a, b, n - 1) + square(a[n - 1] - b[n - 1])
    }
}

/// Squared Euclidean distance between two points.
pub open spec fn euclid(a: Seq<i128>, b: Seq<i128>) -> int {
    euclid_upto(a, b, a.len() as int)
}

/// Every coordinate of the point is within the limit.
pub open spec fn within_limit(point: Seq<i128>) -> bool {
    forall|k: int|
        0 <= k < point.len() ==> -COORDINATE_LIMIT <= #[trigger] point[k] <= COORDINATE_LIMIT
}

/// What the scaling loses between two colours: the tree's distance is
/// `UNIT * weighted_distance - rounding_loss`.
pub open spec fn rounding_loss(a: SerializableRgb, b: SerializableRgb) -> int {
    101_700_464 * square(a.0 - b.0) + 87_494_623 * square(a.1 - b.1) + 55_504_316 * square(
        a.2 - b.2,
    )
}

/// The largest value of `rounding_loss`.
pub open spec fn loss_limit() -> int {
    15_911_578_680_075
}

proof fn lemma_scaled_square(scale: int, x: int, y: int)
    ensures
        square(scale * x - scale * y) == (scale * scale) * square(x - y),
{
    assert((scale * x - scale * y) * (scale * x - scale * y) == (scale * scale) * ((x - y) * (x
        - y))) by (nonlinear_arith);
}

proof fn lemma_byte_square(x: int, y: int)
    requires
        0 <= x <= 255,
        0 <= y <= 255,
    ensures
        0 <= square(x - y) <= 65025,
{
    assert(0 <= (x - y) * (x - y) <= 65025) by (nonlinear_arith)
        requires
            -255 <= x - y <= 255,
    ;
}

/// Between two colours, the tree's distance is the weighted distance in
/// units, less a loss below a fifteenth of a unit.
pub proof fn lemma_mono_gap(a: SerializableRgb, b: SerializableRgb)
    ensures
        euclid(laid_out(a), laid_out(b)) == UNIT * weighted_distance(a, b) - rounding_loss(a, b),
        0 <= rounding_loss(a, b) <= loss_limit(),
        within_limit(laid_out(a)),
        laid_out(a).len() == 3,
{
    reveal_with_fuel(euclid_upto, 4);
    lemma_scaled_square(SCALE_RED as int, a.0 as int, b.0 as int);
    lemma_scaled_square(SCALE_GREEN as int, a.1 as int, b.1 as int);
    lemma_scaled_square(SCALE_BLUE as int, a.2 as int, b.2 as int);
    lemma_byte_square(a.0 as int, b.0 as int);
    lemma_byte_square(a.1 as int, b.1 as int);
    lemma_byte_square(a.2 as int, b.2 as int);
    assert(SCALE_RED * SCALE_RED == 30 * UNIT - 101_700_464);
    assert(SCALE_GREEN * SCALE_GREEN == 59 * UNIT - 87_494_623);
    assert(SCALE_BLUE * SCALE_BLUE == 11 * UNIT - 55_504_316);
    let (dr, dg, db) = (square(a.0 - b.0), square(a.1 - b.1), square(a.2 - b.2));
    assert((30 * UNIT - 101_700_464) * dr == UNIT * (30 * dr) - 101_700_464 * dr)
        by (nonlinear_arith);
    assert((59 * UNIT - 87_494_623) * dg == UNIT * (59 * dg) - 87_494_623 * dg)
        by (nonlinear_arith);
    assert((11 * UNIT - 55_504_316) * db == UNIT * (11 * db) - 55_504_316 * db)
        by (nonlinear_arith);
    assert(UNIT * (30 * dr + 59 * dg + 11 * db) == UNIT * (30 * dr) + UNIT * (59 * dg) + UNIT * (
        11 * db)) by (nonlinear_arith);
}

/// Where the tree finds one colour no farther from the query than another,
/// so does the weighted metric.
pub proof fn lemma_mono_order(x: SerializableRgb, y: SerializableRgb, query: SerializableRgb)
    requires
        euclid(laid_out(x), laid_out(query)) <= euclid(laid_out(y), laid_out(query)),
    ensures
        weighted_distance(x, query) <= weighted_distance(y, query),
{
    lemma_mono_gap(x, query);
    lemma_mono_gap(y, query);
    let (dx, dy) = (weighted_distance(x, query), weighted_distance(y, query));
    if dx > dy {
        assert(UNIT * dx >= UNIT * dy + UNIT) by (nonlinear_arith)
            requires
                dx >= dy + 1,
        ;
    }
}

/// The distance between two points made of two parts each is the sum of
/// the distances between the parts.
pub proof fn lemma_euclid_concat(a1: Seq<i128>, a2: Seq<i128>, b1: Seq<i128>, b2: Seq<i128>)
    requires
        a1.len() == b1.len(),
        a2.len() == b2.len(),
    ensures
        euclid(a1 + a2, b1 + b2) == euclid(a1, b1) + euclid(a2, b2),
{
    lemma_euclid_head(a1, a2, b1, b2, a1.len() as int);
    lemma_euclid_tail(a1, a2, b1, b2, a2.len() as int);
}

proof fn lemma_euclid_head(a1: Seq<i128>, a2: Seq<i128>, b1: Seq<i128>, b2: Seq<i128>, n: int)
    requires
        a1.len() == b1.len(),
        0 <= n <= a1.len(),
    ensures
        euclid_upto(a1 + a2, b1 + b2, n) == euclid_upto(a1, b1, n),
    decreases n,
{
    if n > 0 {
        lemma_euclid_head(a1, a2, b1, b2, n - 1);
    }
}

proof fn lemma_euclid_tail(a1: Seq<i128>, a2: Seq<i128>, b1: Seq<i128>, b2: Seq<i128>, k: int)
    requires
        a1.len() == b1.len(),
        a2.len() == b2.len(),
        0 <= k <= a2.len(),
    ensures
        euclid_upto(a1 + a2, b1 + b2, a1.len() + k) == euclid(a1, b1) + euclid_upto(a2, b2, k),
    decreases k,
{
    if k > 0 {
        lemma_euclid_tail(a1, a2, b1, b2, k - 1);
        assert((a1 + a2)[a1.len() + k - 1] == a2[k - 1]);
        assert((b1 + b2)[a1.len() + k - 1] == b2[k - 1]);
    } else {
        lemma_euclid_head(a1, a2, b1, b2, a1.len() as int);
    }
}

/// What the scaling loses between two signatures of four colours.
pub open spec fn rounding_loss_quad(a: [SerializableRgb; 4], b: [SerializableRgb; 4]) -> int {
    rounding_loss(a[0], b[0]) + rounding_loss(a[1], b[1]) + rounding_loss(a[2], b[2])
        + rounding_loss(a[3], b[3])
}

/// Between two signatures of four colours, the tree's distance is the
/// weighted distance in units, less a loss below a quarter of a unit.
pub proof fn lemma_quad_gap(a: [SerializableRgb; 4], b: [SerializableRgb; 4])
    ensures
        euclid(laid_out_quad(a), laid_out_quad(b)) == UNIT * quad_distance(a, b)
            - rounding_loss_quad(a, b),
        0 <= rounding_loss_quad(a, b) <= 4 * loss_limit(),
        within_limit(laid_out_quad(a)),
        laid_out_quad(a).len() == 12,
{
    lemma_mono_gap(a[0], b[0]);
    lemma_mono_gap(a[1], b[1]);
    lemma_mono_gap(a[2], b[2]);
    lemma_mono_gap(a[3], b[3]);
    lemma_mono_gap(b[0], b[0]);
    lemma_mono_gap(b[1], b[1]);
    lemma_mono_gap(b[2], b[2]);
    lemma_mono_gap(b[3], b[3]);
    let a01 = laid_out(a[0]) + laid_out(a[1]);
    let b01 = laid_out(b[0]) + laid_out(b[1]);
    lemma_euclid_concat(laid_out(a[0]), laid_out(a[1]), laid_out(b[0]), laid_out(b[1]));
    lemma_euclid_concat(a01, laid_out(a[2]), b01, laid_out(b[2]));
    lemma_euclid_concat(
        a01 + laid_out(a[2]),
        laid_out(a[3]),
        b01 + laid_out(b[2]),
        laid_out(b[3]),
    );
    let (d0, d1, d2, d3) = (
        weighted_distance(a[0], b[0]),
        weighted_distance(a[1], b[1]),
        weighted_distance(a[2], b[2]),
        weighted_distance(a[3], b[3]),
    );
    assert(UNIT * (d0 + d1 + d2 + d3) == UNIT * d0 + UNIT * d1 + UNIT * d2 + UNIT * d3)
        by (nonlinear_arith);
    assert forall|k: int| 0 <= k < laid_out_quad(a).len() implies -COORDINATE_LIMIT
        <= #[trigger] laid_out_quad(a)[k] <= COORDINATE_LIMIT by {
        let j = k / 3;
        assert(laid_out_quad(a)[k] == laid_out(a[j])[k - 3 * j]);
    }
}

/// Where the tree finds one signature no farther from the query than
/// another, so does the weighted metric.
pub proof fn lemma_quad_order(
    x: [SerializableRgb; 4],
    y: [SerializableRgb; 4],
    query: [SerializableRgb; 4],
)
    requires
        euclid(laid_out_quad(x), laid_out_quad(query)) <= euclid(
            laid_out_quad(y),
            laid_out_quad(query),
        ),
    ensures
        quad_distance(x, query) <= quad_distance(y, query),
{
    lemma_quad_gap(x, query);
    lemma_quad_gap(y, query);
    let (dx, dy) = (quad_distance(x, query), quad_distance(y, query));
    if dx > dy {
        assert(UNIT * dx >= UNIT * dy + UNIT) by (nonlinear_arith)
            requires
                dx >= dy + 1,
        ;
    }
}

/// The coordinates of a colour.
pub fn lay_out(c: &SerializableRgb) -> (point: [i128; 3])
    ensures
        point@ == laid_out(*c),
{
    let point: [i128; 3] = [
        SCALE_RED * (c.0 as i128),
        SCALE_GREEN * (c.1 as i128),
        SCALE_BLUE * (c.2 as i128),
    ];
    assert(point@ =~= laid_out(*c));
    point
}

/// The coordinates of a signature of four colours.
pub fn lay_out_quad(q: &[SerializableRgb; 4]) -> (point: [i128; 12])
    ensures
        point@ == laid_out_quad(*q),
{
    let p0 = lay_out(&q[0]);
    let p1 = lay_out(&q[1]);
    let p2 = lay_out(&q[2]);
    let p3 = lay_out(&q[3]);
    let point: [i128; 12] = [
        p0[0],
        p0[1],
        p0[2],
        p1[0],
        p1[1],
        p1[2],
        p2[0],
        p2[1],
        p2[2],
        p3[0],
        p3[1],
        p3[2],
    ];
    assert(point@ =~= laid_out_quad(*q));
    point
}

/// A k-d tree over points of three coordinates, each with the place of its
/// tile.
#[verifier::external_body]
pub struct MonoTree {
    tree: kd_tree::KdTree<([i128; 3], usize)>,
}

/// A k-d tree over points of twelve coordinates, each with the place of its
/// tile.
#[verifier::external_body]
pub struct QuadTree {
    tree: kd_tree::KdTree<([i128; 12], usize)>,
}

/// The points that a tree of three coordinates holds.
pub uninterp spec fn mono_points(tree: &MonoTree) -> Set<(Seq<i128>, usize)>;

/// The points that a tree of twelve coordinates holds.
pub uninterp spec fn quad_points(tree: &QuadTree) -> Set<(Seq<i128>, usize)>;

/// The set of the points in a list, each with the place that it carries.
pub open spec fn listed<const N: usize>(points: Seq<([i128; N], usize)>) -> Set<
    (Seq<i128>, usize),
> {
    Set::new(
        |p: (Seq<i128>, usize)|
            exists|k: int|
                0 <= k < points.len() && (#[trigger] points[k]).0@ == p.0 && points[k].1 == p.1,
    )
}

/// `KdTree::build`: the tree holds the points it was given, those and no
/// others.
#[verifier::external_body]
fn build_mono(points: Vec<([i128; 3], usize)>) -> (tree: MonoTree)
    ensures
        mono_points(&tree) == listed(points@),
{
    MonoTree { tree: kd_tree::KdTree::build(points) }
}

/// `KdTree::build`: the tree holds the points it was given, those and no
/// others.
#[verifier::external_body]
fn build_quad(points: Vec<([i128; 12], usize)>) -> (tree: QuadTree)
    ensures
        quad_points(&tree) == listed(points@),
{
    QuadTree { tree: kd_tree::KdTree::build(points) }
}

/// `KdSlice::nearest`: `None` for an empty tree, else a point of the tree
/// that is no farther from the query, in squared Euclidean distance, than
/// any other. The crate computes in `i128` and would overflow on huge
/// coordinates, which `requires` leaves out.
#[verifier::external_body]
fn nearest_mono(tree: &MonoTree, query: &[i128; 3]) -> (found: Option<([i128; 3], usize)>)
    requires
        within_limit(query@),
        forall|p: (Seq<i128>, usize)| #[trigger]
            mono_points(tree).contains(p) ==> p.0.len() == 3 && within_limit(p.0),
    ensures
        found.is_none() <==> forall|p: (Seq<i128>, usize)| !mono_points(tree).contains(p),
        found matches Some(hit) ==> {
            &&& mono_points(tree).contains((hit.0@, hit.1))
            &&& forall|p: (Seq<i128>, usize)| #[trigger]
                mono_points(tree).contains(p) ==> euclid(hit.0@, query@) <= euclid(p.0, query@)
        },
{
    tree.tree.nearest(query).map(|hit| *hit.item)
}

/// `KdSlice::nearest`: `None` for an empty tree, else a point of the tree
/// that is no farther from the query, in squared Euclidean distance, than
/// any other. The crate computes in `i128` and would overflow on huge
/// coordinates, which `requires` leaves out.
#[verifier::external_body]
fn nearest_quad(tree: &QuadTree, query: &[i128; 12]) -> (found: Option<([i128; 12], usize)>)
    requires
        within_limit(query@),
        forall|p: (Seq<i128>, usize)| #[trigger]
            quad_points(tree).contains(p) ==> p.0.len() == 12 && within_limit(p.0),
    ensures
        found.is_none() <==> forall|p: (Seq<i128>, usize)| !quad_points(tree).contains(p),
        found matches Some(hit) ==> {
            &&& quad_points(tree).contains((hit.0@, hit.1))
            &&& forall|p: (Seq<i128>, usize)| #[trigger]
                quad_points(tree).contains(p) ==> euclid(hit.0@, query@) <= euclid(p.0, query@)
        },
{
    tree.tree.nearest(query).map(|hit| *hit.item)
}

/// A k-d tree over the tiles of a set with one colour each. It is built
/// once and answers for the tiles that the set held then.
pub struct MonoIndex {
    tree: MonoTree,
    tiles: Ghost<Seq<Tile<SerializableRgb>>>,
}

impl MonoIndex {
    #[verifier::type_invariant]
    pub closed spec fn well_formed(&self) -> bool {
        &&& self.tiles@.len() <= usize::MAX
        &&& forall|p: (Seq<i128>, usize)|
            mono_points(&self.tree).contains(p) <==> p.1 < self.tiles@.len() && p.0 == laid_out(
                self.tiles@[p.1 as int].colors,
            )
    }

    /// The tiles that the index was built over, in the set's order.
    pub closed spec fn tiles(&self) -> Seq<Tile<SerializableRgb>> {
        self.tiles@
    }

    pub fn build(set: &TileSet<SerializableRgb>) -> (index: MonoIndex)
        ensures
            index.tiles() == set@,
    {
        let mut points: Vec<([i128; 3], usize)> = Vec::new();
        let mut i: usize = 0;
        while i < set.tiles.len()
            invariant
                i <= set.tiles@.len(),
                points@.len() == i,
                forall|k: int|
                    0 <= k < i ==> (#[trigger] points@[k]).0@ == laid_out(set.tiles@[k].colors)
                        && points@[k].1 == k,
            decreases set.tiles@.len() - i,
        {
            points.push((lay_out(&set.tiles[i].colors), i));
            i += 1;
        }
        let tree = build_mono(points);
        proof {
            assert forall|p: (Seq<i128>, usize)|
                mono_points(&tree).contains(p) <==> p.1 < set@.len() && p.0 == laid_out(
                    set@[p.1 as int].colors,
                ) by {
                if p.1 < set@.len() && p.0 == laid_out(set@[p.1 as int].colors) {
                    assert(points@[p.1 as int].0@ == p.0 && points@[p.1 as int].1 == p.1);
                }
            }
        }
        MonoIndex { tree, tiles: Ghost(set@) }
    }

    /// The place of a tile nearest to `query`: no tile of the set is
    /// nearer under the weighted metric.
    pub fn nearest(&self, query: &SerializableRgb) -> (i: usize)
        requires
            self.tiles().len() > 0,
        ensures
            is_nearest(self.tiles(), *query, i as int),
    {
        let point = lay_out(query);
        proof {
            use_type_invariant(self);
            lemma_mono_gap(*query, *query);
            assert forall|p: (Seq<i128>, usize)| #[trigger]
                mono_points(&self.tree).contains(p) implies p.0.len() == 3 && within_limit(
                p.0,
            ) by {
                lemma_mono_gap(self.tiles@[p.1 as int].colors, *query);
            }
            assert(mono_points(&self.tree).contains((laid_out(self.tiles@[0].colors), 0usize)));
        }
        match nearest_mono(&self.tree, &point) {
            Some(hit) => {
                proof {
                    let tiles = self.tiles@;
                    let found = tiles[hit.1 as int].colors;
                    assert forall|j: int| 0 <= j < tiles.len() implies found.distance(query)
                        <= #[trigger] tiles[j].colors.distance(query) by {
                        let other = (laid_out(tiles[j].colors), j as usize);
                        assert(mono_points(&self.tree).contains(other));
                        lemma_mono_order(tiles[hit.1 as int].colors, tiles[j].colors, *query);
                    }
                }
                hit.1
            },
            None => 0,
        }
    }
}

/// A k-d tree over the tiles of a set with four colours each. It is built
/// once and answers for the tiles that the set held then.
pub struct QuadIndex {
    tree: QuadTree,
    tiles: Ghost<Seq<Tile<[SerializableRgb; 4]>>>,
}

impl QuadIndex {
    #[verifier::type_invariant]
    pub closed spec fn well_formed(&self) -> bool {
        &&& self.tiles@.len() <= usize::MAX
        &&& forall|p: (Seq<i128>, usize)|
            quad_points(&self.tree).contains(p) <==> p.1 < self.tiles@.len() && p.0
                == laid_out_quad(self.tiles@[p.1 as int].colors)
    }

    /// The tiles that the index was built over, in the set's order.
    pub closed spec fn tiles(&self) -> Seq<Tile<[SerializableRgb; 4]>> {
        self.tiles@
    }

    pub fn build(set: &TileSet<[SerializableRgb; 4]>) -> (index: QuadIndex)
        ensures
            index.tiles() == set@,
    {
        let mut points: Vec<([i128; 12], usize)> = Vec::new();
        let mut i: usize = 0;
        while i < set.tiles.len()
            invariant
                i <= set.tiles@.len(),
                points@.len() == i,
                forall|k: int|
                    0 <= k < i ==> (#[trigger] points@[k]).0@ == laid_out_quad(
                        set.tiles@[k].colors,
                    ) && points@[k].1 == k,
            decreases set.tiles@.len() - i,
        {
            points.push((lay_out_quad(&set.tiles[i].colors), i));
            i += 1;
        }
        let tree = build_quad(points);
        proof {
            assert forall|p: (Seq<i128>, usize)|
                quad_points(&tree).contains(p) <==> p.1 < set@.len() && p.0 == laid_out_quad(
                    set@[p.1 as int].colors,
                ) by {
                if p.1 < set@.len() && p.0 == laid_out_quad(set@[p.1 as int].colors) {
                    assert(points@[p.1 as int].0@ == p.0 && points@[p.1 as int].1 == p.1);
                }
            }
        }
        QuadIndex { tree, tiles: Ghost(set@) }
    }

    /// The place of a tile nearest to `query`: no tile of the set is
    /// nearer under the weighted metric.
    pub fn nearest(&self, query: &[SerializableRgb; 4]) -> (i: usize)
        requires
            self.tiles().len() > 0,
        ensures
            is_nearest(self.tiles(), *query, i as int),
    {
        let point = lay_out_quad(query);
        proof {
            use_type_invariant(self);
            lemma_quad_gap(*query, *query);
            assert forall|p: (Seq<i128>, usize)| #[trigger]
                quad_points(&self.tree).contains(p) implies p.0.len() == 12 && within_limit(
                p.0,
            ) by {
                lemma_quad_gap(self.tiles@[p.1 as int].colors, *query);
            }
            assert(quad_points(&self.tree).contains(
                (laid_out_quad(self.tiles@[0].colors), 0usize),
            ));
        }
        match nearest_quad(&self.tree, &point) {
            Some(hit) => {
                proof {
                    let tiles = self.tiles@;
                    let found = tiles[hit.1 as int].colors;
                    assert forall|j: int| 0 <= j < tiles.len() implies found.distance(query)
                        <= #[trigger] tiles[j].colors.distance(query) by {
                        let other = (laid_out_quad(tiles[j].colors), j as usize);
                        assert(quad_points(&self.tree).contains(other));
                        lemma_quad_order(tiles[hit.1 as int].colors, tiles[j].colors, *query);
                    }
                }
                hit.1
            },
            None => 0,
        }
    }
}

} // verus!
