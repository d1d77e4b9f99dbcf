//! Routing.
use shard_builder::config::{CollectionConfig, LoadedConfig, ShardingMethod, VectorParams};
use shard_builder::dense_codec::VectorStorageDatatype;
use shard_builder::names::NameMap;
use shard_builder::records::PointId;
use shard_builder::ring::{id_name, measure_distribution, sample_id, ShardRouter};

/// A loaded config with the given dense vectors and one sparse vector.
fn loaded(vectors: &[(&str, u64, Option<VectorStorageDatatype>)], shards: u32) -> LoadedConfig {
    let mut dense = NameMap::new();
    for (name, size, datatype) in vectors {
        dense.insert(name.to_string(), VectorParams { size: *size, datatype: *datatype });
    }
    let mut sparse_vectors = NameMap::new();
    sparse_vectors.insert("sparse".to_string(), ());
    LoadedConfig {
        config: CollectionConfig {
            shard_number: shards,
            sharding_method: Some(ShardingMethod::Auto),
            hash_ring_shard_scale: 100,
            vectors: dense,
            sparse_vectors,
            max_segment_size: Some(5_000_000),
            default_segment_number: 8,
            indexing_threshold_kb: 10_000,
            memmap_threshold_kb: u64::MAX,
            deferred_points_threshold_bytes: None,
            payload_storage_on_disk: true,
            dense_resolution: NameMap::new(),
            sparse_resolution: NameMap::new(),
        },
        fingerprint: "f".repeat(64),
        part_fingerprint: "a".repeat(64),
    }
}

fn mixed(mut x: u64) -> u64 {
    x = x.wrapping_add(0x9e37_79b9_7f4a_7c15);
    x = (x ^ (x >> 30)).wrapping_mul(0xbf58_476d_1ce4_e5b9);
    x = (x ^ (x >> 27)).wrapping_mul(0x94d0_49bb_1331_11eb);
    x ^ (x >> 31)
}

/// A consistent hash ring over the members that a router names.
struct Ring {
    nodes: Vec<(u64, u32)>,
}

impl Ring {
    fn of(router: &ShardRouter) -> Self {
        let mut nodes = Vec::new();
        for member in router.ring_members() {
            for node in 0..router.scale {
                nodes.push((mixed((u64::from(member) << 32) | u64::from(node)), member));
            }
        }
        nodes.sort_unstable();
        Ring { nodes }
    }

    fn placed(&self, id: PointId) -> Vec<u32> {
        let key = match id {
            PointId::NumId(n) => mixed(n),
            PointId::Uuid(n) => mixed((n >> 64) as u64 ^ n as u64),
        };
        let at = self.nodes.partition_point(|node| node.0 < key) % self.nodes.len();
        vec![self.nodes[at].1]
    }
}

fn router_with_shards(shards: u32) -> ShardRouter {
    ShardRouter::new(&loaded(&[("dense", 768, None)], shards)).unwrap()
}

fn router_with_scale(scale: u32) -> ShardRouter {
    let mut config = loaded(&[("dense", 768, None)], 8);
    config.config.hash_ring_shard_scale = scale;
    ShardRouter::new(&config).unwrap()
}

fn shard_of(router: &ShardRouter, ring: &Ring, id: PointId) -> Result<u32, String> {
    router.shard_of(id, |id| ring.placed(id))
}

#[test]
fn places_every_point_in_exactly_one_shard() {
    let router = router_with_shards(8);
    let ring = Ring::of(&router);
    for n in 0..10_000 {
        let shard = shard_of(&router, &ring, PointId::NumId(n)).expect("every point must route");
        assert!(shard < 8, "shard {shard} out of range for an 8-shard collection");
    }
}

#[test]
fn routing_is_deterministic_across_router_instances() {
    let a = router_with_shards(6);
    let b = router_with_shards(6);
    let (ring_a, ring_b) = (Ring::of(&a), Ring::of(&b));
    for n in 0..5_000 {
        assert_eq!(
            shard_of(&a, &ring_a, PointId::NumId(n)).unwrap(),
            shard_of(&b, &ring_b, PointId::NumId(n)).unwrap(),
            "routing for point {n} differs between router instances",
        );
    }
}

#[test]
fn routing_covers_all_shards() {
    let shard_count = 8;
    let router = router_with_shards(shard_count);
    let ring = Ring::of(&router);
    let mut seen = vec![false; shard_count as usize];
    for n in 0..20_000 {
        seen[shard_of(&router, &ring, PointId::NumId(n)).unwrap() as usize] = true;
    }
    for (shard, hit) in seen.iter().enumerate() {
        assert!(hit, "no point routed to shard {shard}");
    }
    assert_eq!(router.ring_members(), vec![0, 1, 2, 3, 4, 5, 6, 7]);
}

#[test]
fn uuid_and_numeric_ids_both_route() {
    let router = router_with_shards(4);
    let ring = Ring::of(&router);
    assert!(shard_of(&router, &ring, PointId::NumId(42)).unwrap() < 4);
    let uuid = PointId::Uuid(0x550e8400_e29b_41d4_a716_446655440000);
    assert!(shard_of(&router, &ring, uuid).unwrap() < 4);
}

#[test]
fn changing_shard_count_changes_routing() {
    let four = router_with_shards(4);
    let eight = router_with_shards(8);
    let (ring_four, ring_eight) = (Ring::of(&four), Ring::of(&eight));
    let disagreements = (0..2_000)
        .filter(|&n| {
            shard_of(&four, &ring_four, PointId::NumId(n)).unwrap()
                != shard_of(&eight, &ring_eight, PointId::NumId(n)).unwrap()
        })
        .count();
    assert!(disagreements > 500, "expected most points to move, only {disagreements} did");
}

#[test]
fn changing_ring_scale_changes_routing() {
    let default_scale = router_with_scale(100);
    let raised = router_with_scale(1_000);
    let (ring_default, ring_raised) = (Ring::of(&default_scale), Ring::of(&raised));
    let disagreements = (0..2_000)
        .filter(|&n| {
            shard_of(&default_scale, &ring_default, PointId::NumId(n)).unwrap()
                != shard_of(&raised, &ring_raised, PointId::NumId(n)).unwrap()
        })
        .count();
    assert!(disagreements > 200, "expected a material fraction to move, {disagreements} did");
}

#[test]
fn rejects_custom_sharding() {
    let mut config = loaded(&[("dense", 768, None)], 4);
    config.config.sharding_method = Some(ShardingMethod::Custom);
    let err = ShardRouter::new(&config).unwrap_err();
    assert!(err.contains("custom"), "error should explain the restriction, got: {err}");
}

#[test]
fn single_shard_routes_everything_to_zero() {
    let router = router_with_shards(1);
    let ring = Ring::of(&router);
    for n in 0..1_000 {
        assert_eq!(shard_of(&router, &ring, PointId::NumId(n)).unwrap(), 0);
    }
}

#[test]
fn an_id_in_no_shard_or_in_several_is_refused() {
    let router = router_with_shards(4);
    let err = router.shard_of(PointId::NumId(7), |_| vec![]).unwrap_err();
    assert!(err.contains("7"), "{err}");
    let err = router.shard_of(PointId::NumId(7), |_| vec![1, 2]).unwrap_err();
    assert!(err.contains("7"), "{err}");
}

#[test]
fn a_distribution_counts_every_sample_once() {
    let router = router_with_shards(4);
    let ring = Ring::of(&router);
    let counts = measure_distribution(&router, 20_000, |id| ring.placed(id)).unwrap();
    assert_eq!(counts.len(), 4);
    assert_eq!(counts.iter().sum::<u64>(), 20_000);
    let mut expected = vec![0; 4];
    for n in 0..20_000 {
        expected[shard_of(&router, &ring, sample_id(n)).unwrap() as usize] += 1;
    }
    assert_eq!(counts, expected);
}

/// The first sample that the ring does not place in one shard ends a measurement.
#[test]
fn the_first_sample_that_is_not_placed_is_reported() {
    let router = router_with_shards(4);
    let ring = |id: PointId| {
        if id == sample_id(3) {
            vec![]
        } else if id == sample_id(2) || id == sample_id(5) {
            vec![1, 2]
        } else {
            vec![0]
        }
    };
    assert_eq!(
        measure_distribution(&router, 10, ring).unwrap_err(),
        format!(
            "hash ring placed point {} in 2 shards; offline builds cannot target a resharding \
             collection",
            id_name(sample_id(2)),
        ),
    );
    assert_eq!(measure_distribution(&router, 2, ring).unwrap(), [2, 0, 0, 0]);
}

/// Configs that agree on the ring have one router, whatever else is retuned.
#[test]
fn routing_depends_on_the_ring_alone() {
    let config = loaded(&[("dense", 768, None)], 4);
    let mut retuned = loaded(&[("other", 4, None)], 4);
    retuned.config.max_segment_size = None;
    retuned.config.sharding_method = None;
    assert_eq!(ShardRouter::new(&config), ShardRouter::new(&retuned));
    retuned.config.hash_ring_shard_scale = 101;
    assert_ne!(ShardRouter::new(&config), ShardRouter::new(&retuned));
}

/// The spread between the fullest and the emptiest shard.
fn spread(scale: u32) -> f64 {
    let router = router_with_scale(scale);
    let ring = Ring::of(&router);
    let counts = measure_distribution(&router, 200_000, |id| ring.placed(id)).unwrap();
    let max = *counts.iter().max().unwrap() as f64;
    let min = *counts.iter().min().unwrap() as f64;
    max / min
}

#[test]
fn raising_the_ring_scale_reduces_skew() {
    let coarse = spread(100);
    let fine = spread(10_000);
    assert!(fine < coarse, "more virtual nodes should be more even: {fine:.3} vs {coarse:.3}");
    assert!(fine < 1.1, "at 10_000 vnodes/shard the spread should be under 10%, got {fine:.3}x");
}

#[test]
fn ids_are_written_as_numbers_and_uuids() {
    assert_eq!(id_name(PointId::NumId(42)), "42");
    assert_eq!(
        id_name(PointId::Uuid(0x550e8400_e29b_41d4_a716_446655440000)),
        "550e8400-e29b-41d4-a716-446655440000",
    );
}

#[test]
fn distribution_skew_is_material_and_data_independent() {
    let router = router_with_shards(4);
    let ring = Ring::of(&router);
    let fractions = |samples: u64| -> Vec<f64> {
        measure_distribution(&router, samples, |id| ring.placed(id))
            .unwrap()
            .iter()
            .map(|&count| count as f64 / samples as f64)
            .collect()
    };
    let coarse = fractions(200_000);
    let fine = fractions(800_000);

    let even = 1.0 / f64::from(router.shard_count());
    let max = coarse.iter().copied().fold(f64::MIN, f64::max);
    let min = coarse.iter().copied().fold(f64::MAX, f64::min);
    assert!(
        (coarse.iter().sum::<f64>() - 1.0).abs() < 1e-9,
        "the fractions must account for every point",
    );
    assert!(max / even > 1.05, "expected to be materially uneven; got {:.3}", max / even);
    assert!(max / min < 2.0, "but not catastrophically so; got a {:.2}x spread", max / min);
    for (a, b) in coarse.iter().zip(&fine) {
        assert!((a - b).abs() < 0.005, "skew must converge: {a:.4} vs {b:.4}");
    }
}
