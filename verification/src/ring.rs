//! Shard routing for the offline builder.
//!
//! Which shard a point belongs to is fixed by the serving cluster's hash ring. The ring is not built
//! here: whoever routes hands in the ring's own answers, and this module says which ring it must be
//! and what its answers mean.
use vstd::prelude::*;
use vstd::string::*;
use crate::config;
use crate::config::{CollectionConfig, LoadedConfig, ShardingMethod};
use crate::ids;
use crate::records::PointId;
use crate::text;

verus! {

/// Routes points to shards by the hash ring of a collection.
#[derive(Debug, Clone, Copy, PartialEq, Eq, Structural)]
pub struct ShardRouter {
    pub shard_count: u32,
    /// Virtual nodes per shard on the ring.
    pub scale: u32,
}

/// What is said of a collection that does not route by point id.
pub open spec fn custom_text() -> Seq<char> {
    "sharding_method Custom is not supported yet; only `auto` routes by point id. Supporting custom sharding requires a shard-key-to-partition mapping and a guarantee that point ids do not repeat across keys (duplicates across shards are never deduplicated)."@
}

/// A point id for a reader.
pub open spec fn id_text(id: PointId) -> Seq<char> {
    match id {
        PointId::NumId(n) => text::decimal_text(n as nat),
        PointId::Uuid(uuid) => ids::uuid_text(uuid),
    }
}

/// Prints a point id for a reader.
pub fn id_name(id: PointId) -> (name: String)
    ensures
        name@ == id_text(id),
{
    match id {
        PointId::NumId(n) => text::decimal(n as u128),
        PointId::Uuid(uuid) => ids::uuid_name(uuid),
    }
}

/// The shard that a ring's answer names, or what is wrong with the answer.
pub open spec fn placed_in(id: PointId, shards: Seq<u32>) -> Result<u32, Seq<char>> {
    if shards.len() == 1 {
        Ok(shards[0])
    } else if shards.len() == 0 {
        Err(
            "hash ring placed point "@ + id_text(id)
                + " in no shard; ring is empty or corrupt"@,
        )
    } else {
        Err(
            "hash ring placed point "@ + id_text(id) + " in "@ + text::decimal_text(shards.len())
                + " shards; offline builds cannot target a resharding collection"@,
        )
    }
}

/// The router for a collection config, or why there is none.
pub open spec fn router_for(config: CollectionConfig) -> Result<ShardRouter, Seq<char>> {
    match config::sharding_of(config.sharding_method) {
        ShardingMethod::Auto => Ok(
            ShardRouter {
                shard_count: config.shard_number,
                scale: config.hash_ring_shard_scale,
            },
        ),
        ShardingMethod::Custom => Err(custom_text()),
    }
}

/// Points route alike under configs that agree on the number of shards, the scale of the ring and
/// the sharding method, whatever else is retuned: such configs have one router, or are refused
/// alike. The converse holds too, so a config that moves points never passes for one that does not.
pub proof fn routing_depends_on_the_ring_alone(a: CollectionConfig, b: CollectionConfig)
    ensures
        a.shard_number == b.shard_number && a.hash_ring_shard_scale == b.hash_ring_shard_scale
            && config::sharding_of(a.sharding_method) == config::sharding_of(b.sharding_method)
            ==> router_for(a) == router_for(b),
        router_for(a) == router_for(b) && router_for(a) is Ok ==> a.shard_number == b.shard_number
            && a.hash_ring_shard_scale == b.hash_ring_shard_scale,
{
}

/// A point belongs to a shard exactly where the ring names one for it alone, and then to that one:
/// to one of the shards on the ring, and to the first where there is no other.
pub proof fn a_placed_point_has_one_shard(id: PointId, shards: Seq<u32>, count: u32)
    requires
        forall|k: int| 0 <= k < shards.len() ==> #[trigger] shards[k] < count,
    ensures
        placed_in(id, shards) is Ok <==> shards.len() == 1,
        placed_in(id, shards) matches Ok(shard) ==> shard == shards[0] && shard < count && (count
            == 1 ==> shard == 0),
{
    if shards.len() == 1 {
        assert(shards[0] < count);
    }
}

/// Routing is the same wherever a point is routed: under configs that agree on the ring, a point that
/// the ring places in one of its shards belongs to that shard, and to the first where there is no
/// other. `ring` is what the ring of a router answers; that it answers one shard is the ring's own.
pub proof fn routing_is_the_same_everywhere(
    a: CollectionConfig,
    b: CollectionConfig,
    ring: spec_fn(ShardRouter, PointId) -> Seq<u32>,
    id: PointId,
)
    requires
        config::sharding_of(a.sharding_method) == ShardingMethod::Auto,
        config::sharding_of(b.sharding_method) == ShardingMethod::Auto,
        a.shard_number == b.shard_number,
        a.hash_ring_shard_scale == b.hash_ring_shard_scale,
        router_for(a) matches Ok(router) ==> ring(router, id).len() == 1 && ring(router, id)[0]
            < router.shard_count,
    ensures
        router_for(a) is Ok,
        router_for(b) is Ok,
        ({
            let first = router_for(a)->Ok_0;
            let second = router_for(b)->Ok_0;
            &&& placed_in(id, ring(first, id)) is Ok
            &&& placed_in(id, ring(first, id)) == placed_in(id, ring(second, id))
            &&& placed_in(id, ring(first, id))->Ok_0 < a.shard_number
            &&& a.shard_number == 1 ==> placed_in(id, ring(first, id))->Ok_0 == 0
        }),
{
}

impl ShardRouter {
    /// The router for a collection config. A collection that routes by shard key is refused.
    pub fn new(config: &LoadedConfig) -> (router: Result<Self, String>)
        ensures
            match router {
                Ok(router) => router_for(config.config) == Ok::<ShardRouter, Seq<char>>(router),
                Err(message) => router_for(config.config) == Err::<ShardRouter, Seq<char>>(
                    message@,
                ),
            },
    {
        if config.sharding_method() != ShardingMethod::Auto {
            return Err(
                "sharding_method Custom is not supported yet; only `auto` routes by point id. Supporting custom sharding requires a shard-key-to-partition mapping and a guarantee that point ids do not repeat across keys (duplicates across shards are never deduplicated).".to_owned(),
            );
        }
        Ok(
            ShardRouter {
                shard_count: config.shard_number(),
                scale: config.hash_ring_shard_scale(),
            },
        )
    }

    /// The shards to put on the ring, in order.
    pub fn ring_members(&self) -> (members: Vec<u32>)
        ensures
            members@ == Seq::new(self.shard_count as nat, |i: int| i as u32),
    {
        let mut members: Vec<u32> = Vec::new();
        let mut id: u32 = 0;
        while id < self.shard_count
            invariant
                id <= self.shard_count,
                members@ == Seq::new(id as nat, |i: int| i as u32),
            decreases self.shard_count - id,
        {
            members.push(id);
            assert(members@ =~= Seq::new((id + 1) as nat, |i: int| i as u32));
            id = id + 1;
        }
        members
    }

    /// The shard that a point belongs to. `ring` is the ring's own answer. A point that the ring
    /// places in no shard, or in several, is an error: sent to some shard regardless, it could not
    /// be retrieved.
    pub fn shard_of<F: Fn(PointId) -> Vec<u32> + Copy>(&self, id: PointId, ring: F) -> (shard: Result<
        u32,
        String,
    >)
        requires
            ring.requires((id,)),
        ensures
            exists|placed: Vec<u32>| #[trigger]
                ring.ensures((id,), placed) && (match shard {
                    Ok(shard) => placed_in(id, placed@) == Ok::<u32, Seq<char>>(shard),
                    Err(message) => placed_in(id, placed@) == Err::<u32, Seq<char>>(message@),
                }),
    {
        let shards = ring(id);
        assert(ring.ensures((id,), shards));
        if shards.len() == 1 {
            return Ok(shards[0]);
        }
        if shards.len() == 0 {
            return Err(
                text::cat3(
                    "hash ring placed point ",
                    id_name(id).as_str(),
                    " in no shard; ring is empty or corrupt",
                ),
            );
        }
        Err(
            text::cat5(
                "hash ring placed point ",
                id_name(id).as_str(),
                " in ",
                text::decimal(shards.len() as u128).as_str(),
                " shards; offline builds cannot target a resharding collection",
            ),
        )
    }

    pub fn shard_count(&self) -> (n: u32)
        ensures
            n == self.shard_count,
    {
        self.shard_count
    }
}

/// The id of a sample: a fixed multiplicative sequence over the UUID space.
pub open spec fn sample(n: u64) -> PointId {
    PointId::Uuid((n as u128).wrapping_mul(0x9E37_79B9_7F4A_7C15_F39C_C060_5CED_C835))
}

/// The id of a sample.
pub fn sample_id(n: u64) -> (id: PointId)
    ensures
        id == sample(n),
{
    PointId::Uuid((n as u128).wrapping_mul(0x9E37_79B9_7F4A_7C15_F39C_C060_5CED_C835))
}

/// How many of the placements name a shard.
pub open spec fn hits(placements: Seq<u32>, shard: u32) -> nat
    decreases placements.len(),
{
    if placements.len() == 0 {
        0
    } else {
        hits(placements.drop_last(), shard) + (if placements.last() == shard {
            1nat
        } else {
            0
        })
    }
}

/// Whether a ring places a sample in that shard and in no other.
pub open spec fn places_sample<F: Fn(PointId) -> Vec<u32>>(ring: F, n: u64, shard: u32) -> bool {
    exists|placed: Vec<u32>| #[trigger]
        ring.ensures((sample(n),), placed) && placed_in(sample(n), placed@) == Ok::<
            u32,
            Seq<char>,
        >(shard)
}

/// Whether these are the shards in which a ring places the first samples, each in exactly one.
pub open spec fn places_samples<F: Fn(PointId) -> Vec<u32>>(ring: F, placements: Seq<u32>) -> bool {
    forall|n: int|
        0 <= n < placements.len() ==> places_sample(ring, n as u64, #[trigger] placements[n])
}

/// Whether a ring places every sample before that one, each in exactly one shard.
pub open spec fn places_all_before<F: Fn(PointId) -> Vec<u32>>(ring: F, n: u64) -> bool {
    exists|placements: Seq<u32>| #[trigger] places_samples(ring, placements) && placements.len() == n
}

/// How many of the first `samples` ids each shard receives. How uneven a ring is depends on its
/// scale and its number of shards alone, so it can be measured before any data is there.
pub fn measure_distribution<F: Fn(PointId) -> Vec<u32> + Copy>(
    router: &ShardRouter,
    samples: u64,
    ring: F,
) -> (counts: Result<Vec<u64>, String>)
    requires
        forall|id: PointId| #[trigger] ring.requires((id,)),
        forall|id: PointId, placed: Vec<u32>, k: int| #[trigger]
            ring.ensures((id,), placed) && 0 <= k < placed@.len() ==> #[trigger] placed@[k]
                < router.shard_count,
        router.shard_count <= usize::MAX,
    ensures
        match counts {
            Ok(counts) => exists|placements: Seq<u32>| #[trigger]
                places_samples(ring, placements) && placements.len() == samples && counts@.len()
                    == router.shard_count && (forall|s: int|
                    0 <= s < counts@.len() ==> #[trigger] counts@[s] == hits(placements, s as u32)),
            Err(message) => exists|n: u64, placed: Vec<u32>| #[trigger]
                ring.ensures((sample(n),), placed) && n < samples && placed_in(sample(n), placed@)
                    == Err::<u32, Seq<char>>(message@) && places_all_before(ring, n),
        },
{
    let shards: usize = router.shard_count() as usize;
    let mut counts: Vec<u64> = Vec::new();
    while counts.len() < shards
        invariant
            counts.len() <= shards,
            forall|s: int| 0 <= s < counts@.len() ==> #[trigger] counts@[s] == 0,
        decreases shards - counts.len(),
    {
        counts.push(0);
    }
    let ghost mut placements: Seq<u32> = Seq::empty();
    let mut n: u64 = 0;
    while n < samples
        invariant
            n <= samples,
            shards == router.shard_count,
            counts@.len() == shards,
            forall|id: PointId| #[trigger] ring.requires((id,)),
            forall|id: PointId, placed: Vec<u32>, k: int| #[trigger]
                ring.ensures((id,), placed) && 0 <= k < placed@.len() ==> #[trigger] placed@[k]
                    < router.shard_count,
            placements.len() == n,
            places_samples(ring, placements),
            forall|s: int|
                0 <= s < counts@.len() ==> #[trigger] counts@[s] == hits(placements, s as u32)
                    && counts@[s] <= n,
        decreases samples - n,
    {
        let id = sample_id(n);
        let shard: u32 = match router.shard_of(id, ring) {
            Ok(shard) => shard,
            Err(message) => {
                assert(places_all_before(ring, n)) by {
                    assert(places_samples(ring, placements) && placements.len() == n);
                }
                return Err(message);
            },
        };
        let ghost was = placements;
        let ghost before = counts@;
        proof {
            let placed = choose|placed: Vec<u32>| #[trigger]
                ring.ensures((id,), placed) && placed_in(id, placed@) == Ok::<u32, Seq<char>>(
                    shard,
                );
            assert(placed@[0] == shard);
            placements = was.push(shard);
            assert(placements.drop_last() =~= was);
            assert(places_samples(ring, placements)) by {
                assert forall|k: int| 0 <= k < placements.len() implies places_sample(
                    ring,
                    k as u64,
                    #[trigger] placements[k],
                ) by {
                    if k < was.len() {
                        assert(placements[k] == was[k]);
                    } else {
                        assert(ring.ensures((sample(k as u64),), placed));
                    }
                }
            }
        }
        counts.set(shard as usize, counts[shard as usize] + 1);
        assert forall|s: int| 0 <= s < counts@.len() implies #[trigger] counts@[s] == hits(
            placements,
            s as u32,
        ) && counts@[s] <= n + 1 by {
            assert(before[s] == hits(was, s as u32));
        }
        n = n + 1;
    }
    Ok(counts)
}

/// Every sample is counted in exactly one shard: the counts add up to the number of samples.
pub proof fn counts_add_up(placements: Seq<u32>, shards: nat)
    requires
        forall|n: int| 0 <= n < placements.len() ==> #[trigger] placements[n] < shards,
        shards <= u32::MAX,
    ensures
        total_hits(placements, shards) == placements.len(),
    decreases placements.len(),
{
    if placements.len() == 0 {
        lemma_no_hits(shards);
        assert(placements =~= Seq::empty());
    } else {
        let rest = placements.drop_last();
        assert forall|n: int| 0 <= n < rest.len() implies #[trigger] rest[n] < shards by {
            assert(rest[n] == placements[n]);
        }
        counts_add_up(rest, shards);
        assert(placements.last() == placements[placements.len() - 1]);
        lemma_one_more(placements, shards);
    }
}

/// The hits of the first shards together.
pub open spec fn total_hits(placements: Seq<u32>, shards: nat) -> nat
    decreases shards,
{
    if shards == 0 {
        0
    } else {
        total_hits(placements, (shards - 1) as nat) + hits(placements, (shards - 1) as u32)
    }
}

proof fn lemma_no_hits(shards: nat)
    ensures
        total_hits(Seq::empty(), shards) == 0,
    decreases shards,
{
    if shards > 0 {
        lemma_no_hits((shards - 1) as nat);
    }
}

proof fn lemma_one_more(placements: Seq<u32>, shards: nat)
    requires
        placements.len() > 0,
        shards <= u32::MAX,
    ensures
        total_hits(placements, shards) == total_hits(placements.drop_last(), shards) + (if placements.last()
            < shards {
            1nat
        } else {
            0
        }),
    decreases shards,
{
    if shards > 0 {
        lemma_one_more(placements, (shards - 1) as nat);
    }
}

/// A collection is routed exactly where it does not ask for custom sharding, and the ring then has
/// the config's number of shards at the config's scale.
pub proof fn the_ring_is_as_the_config_states(config: CollectionConfig)
    ensures
        router_for(config) is Ok <==> config.sharding_method != Some(ShardingMethod::Custom),
        router_for(config) matches Ok(router) ==> router.shard_count == config.shard_number
            && router.scale == config.hash_ring_shard_scale,
{
}

/// The count of a shard is the number of samples that were placed in it.
pub proof fn a_count_is_of_the_samples_in_the_shard(placements: Seq<u32>, shard: u32)
    ensures
        hits(placements, shard) == placements.filter(|placed: u32| placed == shard).len(),
    decreases placements.len(),
{
    reveal(Seq::filter);
    if placements.len() > 0 {
        a_count_is_of_the_samples_in_the_shard(placements.drop_last(), shard);
    }
}

/// The samples are apart by one odd step that is close to the golden section of the UUID space, so
/// that they spread over it evenly.
pub proof fn samples_are_one_step_apart(n: u64, a: u128, b: u128)
    requires
        n < u64::MAX,
        sample(n) == PointId::Uuid(a),
        sample((n + 1) as u64) == PointId::Uuid(b),
    ensures
        n == 0 ==> a == 0,
        b == a + 0x9E37_79B9_7F4A_7C15_F39C_C060_5CED_C835 || b == a
            + 0x9E37_79B9_7F4A_7C15_F39C_C060_5CED_C835
            - u128::MAX - 1,
{
    let step: int = 0x9E37_79B9_7F4A_7C15_F39C_C060_5CED_C835;
    let range: int = u128::MAX + 1;
    assert(a == (n * step) % range);
    assert(b == ((n + 1) * step) % range);
    assert((n + 1) * step == n * step + step) by (nonlinear_arith);
    let q = (n * step) / range;
    assert(n * step == q * range + a);
}

} // verus!
