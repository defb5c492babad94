use emosaic::color::{compare, SerializableRgb, Signature};
use emosaic::index::{lay_out, lay_out_quad, MonoIndex, QuadIndex};
use emosaic::tile::{Tile, TileRng, TileSet};

fn mono_set(colours: &[(u8, u8, u8)]) -> TileSet<SerializableRgb> {
    let mut set = TileSet::new();
    for (i, c) in colours.iter().enumerate() {
        set.push(Tile::new(format!("tile{}.png", i), SerializableRgb::new(c.0, c.1, c.2)));
    }
    set
}

fn next(state: &mut u64) -> u8 {
    *state = state.wrapping_mul(6364136223846793005).wrapping_add(1442695040888963407);
    (*state >> 56) as u8
}

#[test]
fn a_tile_keeps_its_path_and_colours() {
    let tile = Tile::new(String::from("a/b.png"), SerializableRgb::new(1, 2, 3));
    assert_eq!(tile.path(), "a/b.png");
    assert_eq!(*tile.colors(), SerializableRgb::new(1, 2, 3));
}

#[test]
fn a_tile_set_grows_by_push() {
    let mut set: TileSet<()> = TileSet::new();
    assert!(set.is_empty());
    assert_eq!(set.len(), 0);
    set.push(Tile::new(String::from("x"), ()));
    set.push(Tile::new(String::from("y"), ()));
    assert!(!set.is_empty());
    assert_eq!(set.len(), 2);
    assert_eq!(set.tile(0).path(), "x");
    assert_eq!(set.tile(1).path(), "y");
}

#[test]
fn linear_scan_returns_the_minimum() {
    let set = mono_set(&[(0, 0, 0), (255, 255, 255), (100, 100, 100), (90, 110, 100)]);
    let query = SerializableRgb::new(95, 105, 100);
    let (i, d) = set.nearest(&query);
    for k in 0..set.len() {
        assert!(d <= compare(set.tile(k).colors(), &query));
    }
    assert_eq!(d, compare(set.tile(i).colors(), &query));
    assert_eq!((i, d), (2, 30 * 25 + 59 * 25));
}

#[test]
fn linear_scan_breaks_ties_by_insertion_order() {
    let set = mono_set(&[(50, 0, 0), (10, 0, 0), (30, 0, 0), (10, 0, 0)]);
    assert_eq!(set.nearest(&SerializableRgb::new(20, 0, 0)), (1, 3000));
    assert_eq!(set.nearest_tile(&SerializableRgb::new(20, 0, 0)).path(), "tile1.png");
    assert_eq!(set.nearest_tile(&SerializableRgb::new(40, 0, 0)).path(), "tile0.png");
}

#[test]
fn an_exact_match_is_at_distance_zero() {
    let set = mono_set(&[(1, 2, 3), (200, 100, 0), (9, 9, 9)]);
    assert_eq!(set.nearest(&SerializableRgb::new(200, 100, 0)), (1, 0));
    let index = MonoIndex::build(&set);
    assert_eq!(index.nearest(&SerializableRgb::new(200, 100, 0)), 1);
    assert_eq!(index.nearest(&SerializableRgb::new(9, 9, 9)), 2);
}

#[test]
fn the_tree_weighs_the_channels_as_the_metric_does() {
    // Plain Euclidean distance would pick the first tile; the weighted
    // metric picks the second.
    let set = mono_set(&[(0, 10, 0), (14, 0, 0)]);
    let query = SerializableRgb::new(0, 0, 0);
    assert_eq!(compare(set.tile(0).colors(), &query), 5900);
    assert_eq!(compare(set.tile(1).colors(), &query), 5880);
    assert_eq!(set.nearest(&query).0, 1);
    assert_eq!(MonoIndex::build(&set).nearest(&query), 1);
}

#[test]
fn tree_and_linear_scan_agree_on_the_distance() {
    let mut state = 7u64;
    let mut colours = Vec::new();
    for _ in 0..300 {
        colours.push((next(&mut state), next(&mut state), next(&mut state)));
    }
    let set = mono_set(&colours);
    let index = MonoIndex::build(&set);
    for _ in 0..500 {
        let query = SerializableRgb::new(next(&mut state), next(&mut state), next(&mut state));
        let (_, least) = set.nearest(&query);
        let found = index.nearest(&query);
        assert!(found < set.len());
        assert_eq!(compare(set.tile(found).colors(), &query), least);
    }
}

#[test]
fn quad_tree_and_linear_scan_agree_on_the_distance() {
    let mut state = 99u64;
    let mut set: TileSet<[SerializableRgb; 4]> = TileSet::new();
    for i in 0..200 {
        let mut q = [SerializableRgb::new(0, 0, 0); 4];
        for c in q.iter_mut() {
            *c = SerializableRgb::new(next(&mut state), next(&mut state), next(&mut state));
        }
        set.push(Tile::new(format!("q{}", i), q));
    }
    let index = QuadIndex::build(&set);
    for _ in 0..300 {
        let mut query = [SerializableRgb::new(0, 0, 0); 4];
        for c in query.iter_mut() {
            *c = SerializableRgb::new(next(&mut state), next(&mut state), next(&mut state));
        }
        let (_, least) = set.nearest(&query);
        let found = index.nearest(&query);
        assert_eq!(set.tile(found).colors().measure(&query), least);
    }
    let own = *set.tile(17).colors();
    assert_eq!(set.tile(index.nearest(&own)).colors().measure(&own), 0);
}

#[test]
fn coordinates_are_the_channels_scaled() {
    assert_eq!(lay_out(&SerializableRgb::new(0, 0, 0)), [0, 0, 0]);
    assert_eq!(lay_out(&SerializableRgb::new(1, 1, 1)), [91_892_596, 128_868_241, 55_643_730]);
    assert_eq!(
        lay_out(&SerializableRgb::new(2, 0, 255)),
        [183_785_192, 0, 14_189_151_150]
    );
    let quad = lay_out_quad(&[
        SerializableRgb::new(1, 0, 0),
        SerializableRgb::new(0, 1, 0),
        SerializableRgb::new(0, 0, 1),
        SerializableRgb::new(1, 1, 1),
    ]);
    assert_eq!(
        quad,
        [
            91_892_596,
            0,
            0,
            0,
            128_868_241,
            0,
            0,
            0,
            55_643_730,
            91_892_596,
            128_868_241,
            55_643_730
        ]
    );
}

#[test]
fn random_tiles_come_from_the_set() {
    let set = mono_set(&[(1, 1, 1), (2, 2, 2), (3, 3, 3)]);
    let mut rng = TileRng::seeded(42);
    let mut seen = [false; 3];
    for _ in 0..200 {
        let i = set.random_index(&mut rng);
        assert!(i < 3);
        seen[i] = true;
        let tile = set.random_tile(&mut rng);
        assert!(tile.path().starts_with("tile"));
    }
    assert_eq!(seen, [true, true, true]);
}

#[test]
fn a_seeded_generator_repeats_itself() {
    let mut first = TileRng::seeded(5);
    let mut second = TileRng::seeded(5);
    for _ in 0..50 {
        assert_eq!(first.below(1000), second.below(1000));
    }
    let mut single = TileRng::seeded(1);
    for _ in 0..10 {
        assert_eq!(single.below(1), 0);
    }
}
