use pumpkin_core::climate::{distance_to, NoiseHypercube, NoiseValuePoint, ParameterRange};
use pumpkin_core::search::{QueryCache, SearchTree};

fn mix(state: &mut u64) -> i32 {
    *state = state.wrapping_mul(6364136223846793005).wrapping_add(1442695040888963407);
    ((*state >> 33) % 40001) as i32 - 20000
}

fn some_range(state: &mut u64) -> ParameterRange {
    let min = mix(state);
    ParameterRange { min, max: min + mix(state).rem_euclid(3000) }
}

fn some_point(state: &mut u64) -> NoiseValuePoint {
    NoiseValuePoint {
        temperature: mix(state),
        erosion: mix(state),
        depth: mix(state),
        continents: mix(state),
        weirdness: mix(state),
        humidity: mix(state),
    }
}

#[test]
fn a_registry_of_full_size_is_built_and_searched() {
    let mut state = 12345u64;
    let mut entries = Vec::new();
    for i in 0..7593u32 {
        let cube = NoiseHypercube {
            temperature: some_range(&mut state),
            erosion: some_range(&mut state),
            depth: some_range(&mut state),
            continentalness: some_range(&mut state),
            weirdness: some_range(&mut state),
            humidity: some_range(&mut state),
            offset: mix(&mut state),
        };
        entries.push((cube, i % 64));
    }
    let tree = SearchTree::create(entries.clone()).expect("the registry is not empty");

    let mut cache = QueryCache::new();
    for _ in 0..200 {
        let point = some_point(&mut state);
        let mut best = 0;
        for i in 1..entries.len() {
            let to_this = distance_to(&entries[i].0.to_parameters(), &point);
            if to_this < distance_to(&entries[best].0.to_parameters(), &point) {
                best = i;
            }
        }
        cache.clear();
        assert_eq!(tree.get(&point, &mut cache), entries[best].1);
        assert_eq!(cache.last.map(|leaf| leaf.rank), Some(best));
    }
    assert_eq!(cache.descents, 200);
}

#[test]
fn a_walk_through_climate_space_is_mostly_answered_by_the_cache() {
    let mut state = 99u64;
    let mut entries = Vec::new();
    // A grid of cells, forty by forty, each of its own label.
    for row in 0..40i32 {
        for column in 0..40i32 {
            let flat = ParameterRange { min: 0, max: 0 };
            let cube = NoiseHypercube {
                temperature: ParameterRange { min: 1000 * row, max: 1000 * row + 999 },
                erosion: flat,
                depth: flat,
                continentalness: flat,
                weirdness: flat,
                humidity: ParameterRange { min: 1000 * column, max: 1000 * column + 999 },
                offset: 0,
            };
            entries.push((cube, (40 * row + column) as u32));
        }
    }
    let tree = SearchTree::create(entries).expect("the registry is not empty");
    let mut cache = QueryCache::new();
    let (mut temperature, mut humidity) = (20_000, 20_000);
    for _ in 0..10_000 {
        temperature = (temperature + mix(&mut state) % 50).clamp(0, 39_999);
        humidity = (humidity + mix(&mut state) % 50).clamp(0, 39_999);
        let point = NoiseValuePoint {
            temperature,
            erosion: 0,
            depth: 0,
            continents: 0,
            weirdness: 0,
            humidity,
        };
        let expected = (40 * (temperature / 1000) + humidity / 1000) as u32;
        assert_eq!(tree.get(&point, &mut cache), expected);
    }
    assert!(cache.descents >= 1);
    assert!(cache.descents < 2_000, "the tree was searched {} times", cache.descents);
}
