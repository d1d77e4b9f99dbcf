//! Building the planned segments.
use vstd::prelude::*;
use vstd::string::*;
use vstd::multiset::Multiset;
use crate::assemble::DirEntry;
use crate::cli;
use crate::config::{LoadedConfig, VectorParams};
use crate::dense_codec::VectorStorageDatatype;
use crate::ids;
use crate::names;
use crate::names::NameMap;
use crate::parquet_source::ParquetMapping;
use crate::partfile::WantedFields;
use crate::plan;
use crate::plan::{PartSlice, SegmentPlan, ShardPlan, SliceView};
use crate::records::{PartRecord, SparseVector};
use crate::text;

verus! {

/// The file in a shard directory that holds the fingerprints it was built under.
pub const BUILD_FINGERPRINT_FILE: &'static str = ".sb-build-fingerprint";

/// The two fingerprints that a build stamps on a shard. `full` covers placements, and assembly
/// checks it. `part` covers routing alone, and retargeting checks it.
#[derive(Debug)]
pub struct BuildFingerprint {
    pub full: String,
    pub part: String,
}

impl BuildFingerprint {
    /// The fingerprints in a file body. `parsed` is what the body holds where it is a document; a
    /// bare text is the full fingerprint of an older build, which says nothing of routing.
    pub fn parse(body: &str, parsed: Option<BuildFingerprint>) -> (fingerprint: Self)
        ensures
            match parsed {
                Some(given) => fingerprint == given,
                None => fingerprint.full@ == text::trimmed(body@) && fingerprint.part@.len() == 0,
            },
    {
        match parsed {
            Some(given) => given,
            None => BuildFingerprint { full: text::trim(body).to_owned(), part: String::new() },
        }
    }
}

/// How a segment is built.
#[derive(Debug, Clone, Copy, PartialEq, Eq, Structural)]
pub enum BuildRoute {
    /// Feed the storages directly, then build indexes once.
    Bulk,
    /// Upsert into a staging shard and let its optimizers produce the segment.
    Edge,
}

/// Outcome of a build run.
#[derive(Debug, Clone, Copy, PartialEq, Eq, Structural)]
pub struct BuildStats {
    pub segments_built: u64,
    pub segments_skipped: u64,
    pub points: u64,
}

/// The items of a list at the positions that leave remainder `index` when divided by `total`.
pub open spec fn stride<T>(list: Seq<T>, index: int, total: int) -> Seq<T>
    decreases list.len(),
{
    if list.len() == 0 {
        Seq::empty()
    } else {
        let front = stride(list.drop_last(), index, total);
        if (list.len() - 1) % total == index {
            front.push(list.last())
        } else {
            front
        }
    }
}

/// What is said of a slice that is empty.
pub open spec fn empty_slice_text(index: nat, total: nat, what: Seq<char>) -> Seq<char> {
    "slice "@ + text::decimal_text(index) + "/"@ + text::decimal_text(total) + " covers no "@ + what
        + "; there are fewer "@ + (what + " than slices, so use a smaller N"@)
}

/// Take one machine's share of the work, every `total`-th item from position `index` on. `what`
/// names the items in a complaint.
///
/// Striding rather than splitting, because items of one shard stand side by side and shards are not
/// of one size. Every machine derives the same list, so their shares are disjoint without
/// coordination, and a share can be run again alone.
pub fn take_share<T>(work: Vec<T>, index: usize, total: usize, what: &str) -> (mine: Result<
    Vec<T>,
    String,
>)
    ensures
        match mine {
            Ok(mine) => {
                &&& index < total
                &&& mine@ == stride(work@, index as int, total as int)
                &&& mine@.len() > 0
            },
            Err(message) => if index >= total {
                message@ == cli::slice_range_text(index as nat, total as nat)
            } else {
                &&& stride(work@, index as int, total as int).len() == 0
                &&& message@ == empty_slice_text(index as nat, total as nat, what@)
            },
        },
{
    if total == 0 || index >= total {
        return Err(cli::slice_range_message(index, total));
    }
    let ghost all = work@;
    let mut rest = work;
    let mut backwards: Vec<T> = Vec::new();
    assert(all.take(all.len() as int) =~= all);
    assert(stride(all, index as int, total as int) =~= stride(all, index as int, total as int)
        + backwards@.reverse());
    while rest.len() > 0
        invariant
            index < total,
            rest@.len() <= all.len(),
            rest@ == all.take(rest@.len() as int),
            stride(all, index as int, total as int) == stride(rest@, index as int, total as int)
                + backwards@.reverse(),
        decreases rest.len(),
    {
        let position: usize = rest.len() - 1;
        let ghost before = rest@;
        let ghost kept = backwards@;
        match rest.pop() {
            Some(item) => {
                assert(rest@ =~= before.drop_last());
                assert(rest@ =~= all.take(rest@.len() as int));
                if position % total == index {
                    backwards.push(item);
                    assert(backwards@.reverse() =~= seq![item] + kept.reverse());
                    assert(stride(before, index as int, total as int) == stride(
                        rest@,
                        index as int,
                        total as int,
                    ).push(item));
                    assert(stride(before, index as int, total as int) + kept.reverse() =~= stride(
                        rest@,
                        index as int,
                        total as int,
                    ) + backwards@.reverse());
                }
            },
            None => {},
        }
    }
    assert(stride(all, index as int, total as int) =~= backwards@.reverse());
    let ghost reversed = backwards@;
    let mut mine: Vec<T> = Vec::new();
    while backwards.len() > 0
        invariant
            backwards@.len() + mine@.len() == reversed.len(),
            backwards@ == reversed.take(backwards@.len() as int),
            mine@ == reversed.reverse().take(mine@.len() as int),
        decreases backwards.len(),
    {
        let ghost before = backwards@;
        let ghost taken = mine@;
        match backwards.pop() {
            Some(item) => {
                assert(backwards@ =~= before.drop_last());
                assert(backwards@ =~= reversed.take(backwards@.len() as int));
                assert(item == reversed[before.len() - 1]);
                assert(reversed.reverse()[taken.len() as int] == item);
                mine.push(item);
                assert(mine@ =~= reversed.reverse().take(mine@.len() as int));
            },
            None => {},
        }
    }
    assert(mine@ =~= reversed.reverse());
    if mine.len() == 0 {
        let mut message = text::cat7(
            "slice ",
            text::decimal(index as u128).as_str(),
            "/",
            text::decimal(total as u128).as_str(),
            " covers no ",
            what,
            "; there are fewer ",
        );
        message.append(text::cat2(what, " than slices, so use a smaller N").as_str());
        return Err(message);
    }
    Ok(mine)
}

/// Take one machine's share of the segment work.
pub fn take_slice<T>(work: Vec<T>, index: usize, total: usize) -> (mine: Result<Vec<T>, String>)
    ensures
        match mine {
            Ok(mine) => {
                &&& index < total
                &&& mine@ == stride(work@, index as int, total as int)
                &&& mine@.len() > 0
            },
            Err(message) => if index >= total {
                message@ == cli::slice_range_text(index as nat, total as nat)
            } else {
                &&& stride(work@, index as int, total as int).len() == 0
                &&& message@ == empty_slice_text(index as nat, total as nat, "segments"@)
            },
        },
{
    take_share(work, index, total, "segments")
}

/// What the first `n` of `total` slices hold together.
pub open spec fn slices_together<T>(list: Seq<T>, total: int, n: nat) -> Multiset<T>
    decreases n,
{
    if n == 0 {
        Multiset::empty()
    } else {
        slices_together(list, total, (n - 1) as nat).add(
            stride(list, n - 1, total).to_multiset(),
        )
    }
}

proof fn lemma_slices_step<T>(list: Seq<T>, total: int, n: nat)
    requires
        list.len() > 0,
        total > 0,
    ensures
        slices_together(list, total, n) =~= (if (list.len() - 1) % total < n {
            slices_together(list.drop_last(), total, n).insert(list.last())
        } else {
            slices_together(list.drop_last(), total, n)
        }),
    decreases n,
{
    broadcast use vstd::seq_lib::group_to_multiset_ensures;

    let r = (list.len() - 1) % total;
    assert(0 <= r) by {
        vstd::arithmetic::div_mod::lemma_mod_bound(list.len() - 1, total);
    }
    if n > 0 {
        lemma_slices_step(list, total, (n - 1) as nat);
    }
}

/// The slices of all machines together hold every item exactly as often as the list does: nothing is
/// built twice, and nothing is left out.
pub proof fn slices_cover_the_work_once<T>(list: Seq<T>, total: nat)
    requires
        total > 0,
    ensures
        slices_together(list, total as int, total) =~= list.to_multiset(),
    decreases list.len(),
{
    broadcast use vstd::seq_lib::group_to_multiset_ensures;

    if list.len() == 0 {
        lemma_no_slices::<T>(list, total as int, total);
        assert(list =~= Seq::empty());
    } else {
        slices_cover_the_work_once(list.drop_last(), total);
        lemma_slices_step(list, total as int, total);
        vstd::arithmetic::div_mod::lemma_mod_bound(list.len() - 1, total as int);
        assert(list =~= list.drop_last().push(list.last()));
    }
}

proof fn lemma_no_slices<T>(list: Seq<T>, total: int, n: nat)
    requires
        list.len() == 0,
    ensures
        slices_together(list, total, n) =~= Multiset::<T>::empty(),
    decreases n,
{
    broadcast use vstd::seq_lib::group_to_multiset_ensures;

    if n > 0 {
        lemma_no_slices(list, total, (n - 1) as nat);
        assert(stride(list, n - 1, total) =~= Seq::empty());
    }
}

/// Which positions a slice takes: the item at a position is in the slice of its remainder, at the
/// place of its quotient.
pub proof fn slices_stride<T>(list: Seq<T>, total: nat, position: int)
    requires
        total > 0,
        0 <= position < list.len(),
    ensures
        ({
            let slice = stride(list, position % total as int, total as int);
            let place = position / total as int;
            0 <= place < slice.len() && slice[place] == list[position]
        }),
    decreases list.len(),
{
    let t = total as int;
    let i = position % t;
    let place = position / t;
    let rest = list.drop_last();
    vstd::arithmetic::div_mod::lemma_mod_bound(position, t);
    vstd::arithmetic::div_mod::lemma_div_pos_is_pos(position, t);
    if position < rest.len() {
        slices_stride(rest, total, position);
        assert(rest[position] == list[position]);
    } else {
        lemma_stride_len(rest, i, t);
        assert(rest.len() == position);
    }
}

/// How many items a slice has.
proof fn lemma_stride_len<T>(list: Seq<T>, index: int, total: int)
    requires
        0 <= index < total,
    ensures
        stride(list, index, total).len() == list.len() as int / total + (if list.len() as int
            % total > index {
            1int
        } else {
            0
        }),
    decreases list.len(),
{
    if list.len() == 0 {
        assert(0int / total == 0 && 0int % total == 0) by (nonlinear_arith)
            requires
                total > 0,
        ;
    } else {
        lemma_stride_len(list.drop_last(), index, total);
        lemma_next_quotient(list.len() - 1, total);
    }
}

proof fn lemma_next_quotient(n: int, total: int)
    requires
        0 <= n,
        total > 0,
    ensures
        0 <= n % total < total,
        n % total + 1 < total ==> (n + 1) / total == n / total && (n + 1) % total == n % total + 1,
        n % total + 1 == total ==> (n + 1) / total == n / total + 1 && (n + 1) % total == 0,
{
    vstd::arithmetic::div_mod::lemma_fundamental_div_mod(n, total);
    vstd::arithmetic::div_mod::lemma_mod_bound(n, total);
    let q = n / total;
    let r = n % total;
    if r + 1 < total {
        assert(n + 1 == q * total + (r + 1)) by (nonlinear_arith)
            requires
                n == total * q + r,
        ;
        vstd::arithmetic::div_mod::lemma_fundamental_div_mod_converse(n + 1, total, q, r + 1);
    } else {
        assert(n + 1 == (q + 1) * total + 0) by (nonlinear_arith)
            requires
                n == total * q + r,
                r + 1 == total,
        ;
        vstd::arithmetic::div_mod::lemma_fundamental_div_mod_converse(n + 1, total, q + 1, 0);
    }
}

/// The directory of a shard's artifact, in the output directory.
pub fn shard_dir_name(shard_id: u32) -> (name: String)
    ensures
        name@ == "shard_"@ + text::decimal_text(shard_id as nat),
{
    text::cat2("shard_", text::decimal(shard_id as u128).as_str())
}

/// The directory in which a segment is put together, in the staging directory.
pub fn staging_dir_name(shard_id: u32, uuid: u128) -> (name: String)
    ensures
        name@ == "shard_"@ + text::decimal_text(shard_id as nat) + "__segment_"@ + ids::uuid_text(
            uuid,
        ),
{
    text::cat4(
        "shard_",
        text::decimal(shard_id as u128).as_str(),
        "__segment_",
        ids::uuid_name(uuid).as_str(),
    )
}

/// The fingerprints to stamp on a shard that is built under a config.
pub fn build_stamp(config: &LoadedConfig) -> (stamp: BuildFingerprint)
    ensures
        stamp.full@ == config.fingerprint@,
        stamp.part@ == config.part_fingerprint@,
{
    BuildFingerprint {
        full: config.fingerprint.clone(),
        part: config.part_fingerprint.clone(),
    }
}

/// Whether a table of texts holds what another does.
pub open spec fn same_texts(a: Seq<(Seq<char>, String)>, b: Seq<(Seq<char>, Seq<char>)>) -> bool {
    &&& a.len() == b.len()
    &&& forall|i: int| 0 <= i < a.len() ==> (#[trigger] a[i]).0 == b[i].0 && a[i].1@ == b[i].1
}

/// The source column of each dense vector of a mapping.
pub open spec fn dense_sources(mapping: ParquetMapping) -> Seq<(Seq<char>, Seq<char>)> {
    Seq::new(
        mapping.dense_vectors@.len(),
        |i: int| (mapping.dense_vectors@[i].0, mapping.dense_vectors@[i].1@),
    )
}

/// The source column of each sparse vector of a mapping.
pub open spec fn sparse_sources(mapping: ParquetMapping) -> Seq<(Seq<char>, Seq<char>)> {
    Seq::new(
        mapping.sparse_vectors@.len(),
        |i: int| (mapping.sparse_vectors@[i].0, mapping.sparse_vectors@[i].1.column@),
    )
}

/// What this build requires every part file to supply.
///
/// The config names the vectors that must reach the segment; the mapping names the payload columns
/// and the source column that each vector should have come from. A part may carry more than this,
/// never less.
pub fn wanted_fields(config: &LoadedConfig, mapping: Option<&ParquetMapping>) -> (wanted:
    WantedFields)
    ensures
        wanted.dense@ == Seq::new(
            config.config.vectors@.len(),
            |i: int|
                (config.config.vectors@[i].0, config.config.vectors@[i].1.size as usize),
        ),
        wanted.sparse@ == config.config.sparse_vectors@,
        match mapping {
            Some(mapping) => {
                &&& match wanted.payload {
                    Some(keys) => names::key_set(keys@) == text::texts(
                        mapping.payload_columns@,
                    ).to_set(),
                    None => false,
                }
                &&& same_texts(wanted.dense_sources@, dense_sources(*mapping))
                &&& same_texts(wanted.sparse_sources@, sparse_sources(*mapping))
            },
            None => wanted.payload is None && wanted.dense_sources@.len() == 0
                && wanted.sparse_sources@.len() == 0,
        },
{
    let vectors = &config.config.vectors;
    let mut dense: NameMap<usize> = NameMap::new();
    let mut i: usize = 0;
    while i < vectors.len()
        invariant
            i <= vectors@.len(),
            names::sorted_keys(vectors@) || i == 0,
            dense@ == Seq::new(
                i as nat,
                |k: int| (vectors@[k].0, vectors@[k].1.size as usize),
            ),
        decreases vectors@.len() - i,
    {
        let name = vectors.name_at(i).clone();
        let size: usize = #[verifier::truncate] (vectors.value_at(i).size as usize);
        proof {
            if i > 0 {
                assert(text::text_lt(vectors@[i - 1].0, vectors@[i as int].0));
            }
        }
        dense.append(name, size);
        assert(dense@ =~= Seq::new(
            (i + 1) as nat,
            |k: int| (vectors@[k].0, vectors@[k].1.size as usize),
        ));
        i = i + 1;
    }
    let sparse = config.config.sparse_vectors.copy();
    match mapping {
        Some(mapping) => {
            let columns = &mapping.dense_vectors;
            let mut dense_sources: NameMap<String> = NameMap::new();
            let mut i: usize = 0;
            while i < columns.len()
                invariant
                    i <= columns@.len(),
                    names::sorted_keys(columns@) || i == 0,
                    dense_sources@.len() == i,
                    forall|k: int|
                        0 <= k < i ==> (#[trigger] dense_sources@[k]).0 == columns@[k].0
                            && dense_sources@[k].1@ == columns@[k].1@,
                decreases columns@.len() - i,
            {
                let name = columns.name_at(i).clone();
                proof {
                    if i > 0 {
                        assert(text::text_lt(columns@[i - 1].0, columns@[i as int].0));
                        assert(dense_sources@[i - 1].0 == columns@[i - 1].0);
                    }
                }
                dense_sources.append(name, columns.value_at(i).clone());
                i = i + 1;
            }
            let columns = &mapping.sparse_vectors;
            let mut sparse_sources: NameMap<String> = NameMap::new();
            let mut i: usize = 0;
            while i < columns.len()
                invariant
                    i <= columns@.len(),
                    names::sorted_keys(columns@) || i == 0,
                    sparse_sources@.len() == i,
                    forall|k: int|
                        0 <= k < i ==> (#[trigger] sparse_sources@[k]).0 == columns@[k].0
                            && sparse_sources@[k].1@ == columns@[k].1.column@,
                decreases columns@.len() - i,
            {
                let name = columns.name_at(i).clone();
                proof {
                    if i > 0 {
                        assert(text::text_lt(columns@[i - 1].0, columns@[i as int].0));
                        assert(sparse_sources@[i - 1].0 == columns@[i - 1].0);
                    }
                }
                sparse_sources.append(name, columns.value_at(i).column.clone());
                i = i + 1;
            }
            WantedFields {
                dense,
                sparse,
                payload: Some(names::name_set(&mapping.payload_columns)),
                dense_sources,
                sparse_sources,
            }
        },
        None => WantedFields {
            dense,
            sparse,
            payload: None,
            dense_sources: NameMap::new(),
            sparse_sources: NameMap::new(),
        },
    }
}

/// What is said of an element type that no storage holds.
pub open spec fn turbo_text() -> Seq<char> {
    "the turbo4 storage datatype is not wired up in Qdrant yet"@
}

/// Bytes of one element in storage.
pub open spec fn stored_element(datatype: Option<VectorStorageDatatype>) -> Option<nat> {
    match datatype {
        None | Some(VectorStorageDatatype::Float32) => Some(4),
        Some(VectorStorageDatatype::Float16) => Some(2),
        Some(VectorStorageDatatype::Uint8) => Some(1),
        Some(VectorStorageDatatype::Turbo4) => None,
    }
}

/// Bytes one element of a configured dense vector occupies in storage.
pub fn dense_element_size(datatype: Option<VectorStorageDatatype>) -> (size: Result<usize, String>)
    ensures
        match size {
            Ok(size) => stored_element(datatype) == Some(size as nat) && size <= 4,
            Err(message) => stored_element(datatype) is None && message@ == turbo_text(),
        },
{
    match datatype {
        None | Some(VectorStorageDatatype::Float32) => Ok(4),
        Some(VectorStorageDatatype::Float16) => Ok(2),
        Some(VectorStorageDatatype::Uint8) => Ok(1),
        Some(VectorStorageDatatype::Turbo4) => Err(
            "the turbo4 storage datatype is not wired up in Qdrant yet".to_owned(),
        ),
    }
}

/// The largest single dense vector storage of so many points, up to the first vector that has none.
pub open spec fn largest_storage(
    vectors: Seq<(Seq<char>, VectorParams)>,
    points: nat,
) -> Result<nat, Seq<char>>
    decreases vectors.len(),
{
    if vectors.len() == 0 {
        Ok(0)
    } else {
        match largest_storage(vectors.drop_last(), points) {
            Err(message) => Err(message),
            Ok(largest) => {
                let (name, params) = vectors.last();
                match stored_element(params.datatype) {
                    None => Err("dense vector '"@ + name + "': "@ + turbo_text()),
                    Some(element) => {
                        let bytes = points * params.size as nat * element;
                        if bytes > usize::MAX {
                            Err("vector '"@ + name + "' storage size overflows usize"@)
                        } else if bytes > largest {
                            Ok(bytes)
                        } else {
                            Ok(largest)
                        }
                    },
                }
            },
        }
    }
}

proof fn lemma_storage_fault(
    vectors: Seq<(Seq<char>, VectorParams)>,
    n: int,
    points: nat,
    message: Seq<char>,
)
    requires
        0 <= n <= vectors.len(),
        largest_storage(vectors.take(n), points) == Err::<nat, Seq<char>>(message),
    ensures
        largest_storage(vectors, points) == Err::<nat, Seq<char>>(message),
    decreases vectors.len(),
{
    if n == vectors.len() {
        assert(vectors.take(n) =~= vectors);
    } else {
        assert(vectors.drop_last().take(n) =~= vectors.take(n));
        lemma_storage_fault(vectors.drop_last(), n, points, message);
    }
}

/// The largest single dense vector storage, or why there is none.
pub open spec fn storage_size(vectors: Seq<(Seq<char>, VectorParams)>, points: nat) -> Result<
    nat,
    Seq<char>,
> {
    if largest_storage(vectors, points) == Ok::<nat, Seq<char>>(0) {
        Err("collection configures no dense vectors; nothing to size a segment from"@)
    } else {
        largest_storage(vectors, points)
    }
}

/// The largest single dense vector storage a segment of this size holds: the maximum over the
/// vectors, not the sum, because that is what the optimizer compares its thresholds against.
pub fn dense_storage_bytes(config: &LoadedConfig, points: u64) -> (bytes: Result<usize, String>)
    ensures
        match bytes {
            Ok(bytes) => bytes > 0 && storage_size(config.config.vectors@, points as nat) == Ok::<
                nat,
                Seq<char>,
            >(bytes as nat),
            Err(message) => storage_size(config.config.vectors@, points as nat) == Err::<
                nat,
                Seq<char>,
            >(message@),
        },
{
    let vectors = &config.config.vectors;
    let mut largest: usize = 0;
    let mut i: usize = 0;
    assert(vectors@.take(0) =~= Seq::empty());
    while i < vectors.len()
        invariant
            i <= vectors@.len(),
            *vectors == config.config.vectors,
            largest_storage(vectors@.take(i as int), points as nat) == Ok::<nat, Seq<char>>(
                largest as nat,
            ),
        decreases vectors@.len() - i,
    {
        let ghost longer = vectors@.take(i + 1);
        assert(longer.drop_last() =~= vectors@.take(i as int));
        let params: VectorParams = *vectors.value_at(i);
        let element: usize = match dense_element_size(params.datatype) {
            Ok(element) => element,
            Err(why) => {
                let message = text::cat4(
                    "dense vector '",
                    vectors.name_at(i).as_str(),
                    "': ",
                    why.as_str(),
                );
                proof {
                    lemma_storage_fault(vectors@, i + 1, points as nat, message@);
                }
                return Err(message);
            },
        };
        assert(points * params.size <= u128::MAX) by (nonlinear_arith)
            requires
                points <= 0xffff_ffff_ffff_ffff,
                params.size <= 0xffff_ffff_ffff_ffff,
        ;
        let product: u128 = points as u128 * params.size as u128;
        assert(product <= usize::MAX ==> product * element <= 4 * usize::MAX) by (nonlinear_arith)
            requires
                element <= 4,
        ;
        let fits: bool = product <= usize::MAX as u128 && product * (element as u128)
            <= usize::MAX as u128;
        if !fits {
            let message = text::cat3(
                "vector '",
                vectors.name_at(i).as_str(),
                "' storage size overflows usize",
            );
            proof {
                let bytes = points as nat * params.size as nat * element as nat;
                assert(bytes > usize::MAX) by (nonlinear_arith)
                    requires
                        bytes == points * params.size * element,
                        product == points * params.size,
                        element >= 1,
                        product > usize::MAX || product * element > usize::MAX,
                ;
                lemma_storage_fault(vectors@, i + 1, points as nat, message@);
            }
            return Err(message);
        }
        let bytes: usize = (product * (element as u128)) as usize;
        assert(bytes == points as nat * params.size as nat * element as nat);
        if bytes > largest {
            largest = bytes;
        }
        i = i + 1;
    }
    assert(vectors@.take(vectors@.len() as int) =~= vectors@);
    if largest == 0 {
        return Err(
            "collection configures no dense vectors; nothing to size a segment from".to_owned(),
        );
    }
    Ok(largest)
}

/// The number of terms that the sparse vectors of a record have together.
pub open spec fn sparse_terms(sparse: Seq<(Seq<char>, SparseVector)>) -> nat
    decreases sparse.len(),
{
    if sparse.len() == 0 {
        0
    } else {
        sparse_terms(sparse.drop_last()) + sparse.last().1.indices@.len()
    }
}

/// Some first vectors of a record have no more terms than all.
proof fn lemma_terms_grow(sparse: Seq<(Seq<char>, SparseVector)>, n: int)
    requires
        0 <= n <= sparse.len(),
    ensures
        sparse_terms(sparse.take(n)) <= sparse_terms(sparse),
    decreases sparse.len() - n,
{
    if n < sparse.len() {
        lemma_terms_grow(sparse, n + 1);
        assert(sparse.take(n + 1).drop_last() =~= sparse.take(n));
    } else {
        assert(sparse.take(n) =~= sparse);
    }
}

/// The size of a segment's sparse vectors once a record is added, at that many bytes a term: the way
/// the index of a segment measures it. `None` where it is out of range.
pub fn add_sparse_bytes(so_far: usize, record: &PartRecord, term_bytes: usize) -> (total: Option<
    usize,
>)
    ensures
        match total {
            Some(n) => n == so_far + sparse_terms(record.sparse@) * term_bytes,
            None => so_far + sparse_terms(record.sparse@) * term_bytes > usize::MAX,
        },
{
    let ghost sparse = record.sparse@;
    let mut total: usize = so_far;
    let count: usize = record.sparse.len();
    let mut i: usize = 0;
    assert(sparse.take(0) =~= Seq::empty());
    assert(0 * term_bytes == 0) by (nonlinear_arith);
    while i < count
        invariant
            i <= count,
            count == sparse.len(),
            sparse == record.sparse@,
            total == so_far + sparse_terms(sparse.take(i as int)) * term_bytes,
        decreases count - i,
    {
        let terms: usize = record.sparse.value_at(i).indices.len();
        let ghost done = sparse_terms(sparse.take(i as int));
        let ghost all = sparse_terms(sparse);
        proof {
            assert(sparse.take(i + 1).drop_last() =~= sparse.take(i as int));
            assert(sparse_terms(sparse.take(i + 1)) == done + terms);
            lemma_terms_grow(sparse, i + 1);
            assert((done + terms) * term_bytes == done * term_bytes + terms * term_bytes)
                by (nonlinear_arith);
            assert((done + terms) * term_bytes <= all * term_bytes) by (nonlinear_arith)
                requires
                    done + terms <= all,
                    term_bytes >= 0,
            ;
            assert(done * term_bytes >= 0) by (nonlinear_arith)
                requires
                    done >= 0,
                    term_bytes >= 0,
            ;
        }
        let added: usize = match terms.checked_mul(term_bytes) {
            Some(added) => added,
            None => {
                return None;
            },
        };
        total = match total.checked_add(added) {
            Some(total) => total,
            None => {
                return None;
            },
        };
        i = i + 1;
    }
    assert(sparse.take(count as int) =~= sparse);
    Some(total)
}

/// A threshold in bytes, as far as a machine word counts.
pub open spec fn threshold_bytes(kb: u64) -> nat {
    if kb * 1024 > usize::MAX {
        usize::MAX as nat
    } else {
        (kb * 1024) as nat
    }
}

/// Whether sparse vectors cross a threshold that the dense vectors do not.
pub open spec fn crosses(kb: u64, dense_bytes: nat, sparse_bytes: nat) -> bool {
    dense_bytes < threshold_bytes(kb) <= sparse_bytes
}

/// What is said of a segment whose config was resolved from the wrong size.
pub open spec fn crossing_text(
    sparse_bytes: nat,
    points: nat,
    name: Seq<char>,
    kb: u64,
    dense_bytes: nat,
) -> Seq<char> {
    "this segment's sparse vectors ("@ + text::decimal_text(sparse_bytes) + " bytes over "@
        + text::decimal_text(points) + " points) cross the "@ + name + " of "@ + (
    text::decimal_text(threshold_bytes(kb)) + " bytes but its dense vectors ("@
        + text::decimal_text(dense_bytes)
        + " bytes) do not, so the segment config was resolved from the wrong size.\n\nThe bulk build route sizes a segment from its dense vectors, which is exact at production segment sizes but not for a segment this small. Either plan larger segments, or build this run with --route edge."@)
}

fn crossing_message(
    sparse_bytes: usize,
    points: u64,
    name: &str,
    kb: u64,
    dense_bytes: usize,
    threshold: usize,
) -> (message: String)
    requires
        threshold == threshold_bytes(kb),
    ensures
        message@ == crossing_text(
            sparse_bytes as nat,
            points as nat,
            name@,
            kb,
            dense_bytes as nat,
        ),
{
    let mut message = text::cat7(
        "this segment's sparse vectors (",
        text::decimal(sparse_bytes as u128).as_str(),
        " bytes over ",
        text::decimal(points as u128).as_str(),
        " points) cross the ",
        name,
        " of ",
    );
    let tail = text::cat4(
        text::decimal(threshold as u128).as_str(),
        " bytes but its dense vectors (",
        text::decimal(dense_bytes as u128).as_str(),
        " bytes) do not, so the segment config was resolved from the wrong size.\n\nThe bulk build route sizes a segment from its dense vectors, which is exact at production segment sizes but not for a segment this small. Either plan larger segments, or build this run with --route edge.",
    );
    message.append(tail.as_str());
    message
}

fn threshold_of(kb: u64) -> (bytes: usize)
    ensures
        bytes == threshold_bytes(kb),
{
    let bytes: u128 = kb as u128 * 1024;
    if bytes > usize::MAX as u128 {
        usize::MAX
    } else {
        bytes as usize
    }
}

/// Refuse a segment whose sparse vectors would have changed the config decision. The decision is
/// taken by the dense vectors; it is the wrong one where the sparse ones alone cross a threshold.
pub fn check_sparse_size_assumption(
    config: &LoadedConfig,
    points: u64,
    dense_bytes: usize,
    sparse_bytes: usize,
) -> (outcome: Result<(), String>)
    ensures
        ({
            let indexing = config.config.indexing_threshold_kb;
            let memmap = config.config.memmap_threshold_kb;
            match outcome {
                Ok(()) => !crosses(indexing, dense_bytes as nat, sparse_bytes as nat) && !crosses(
                    memmap,
                    dense_bytes as nat,
                    sparse_bytes as nat,
                ),
                Err(message) => if crosses(indexing, dense_bytes as nat, sparse_bytes as nat) {
                    message@ == crossing_text(
                        sparse_bytes as nat,
                        points as nat,
                        "indexing_threshold"@,
                        indexing,
                        dense_bytes as nat,
                    )
                } else {
                    crosses(memmap, dense_bytes as nat, sparse_bytes as nat) && message@
                        == crossing_text(
                        sparse_bytes as nat,
                        points as nat,
                        "memmap_threshold"@,
                        memmap,
                        dense_bytes as nat,
                    )
                },
            }
        }),
{
    if sparse_bytes <= dense_bytes {
        return Ok(());
    }
    let indexing: usize = threshold_of(config.config.indexing_threshold_kb);
    if dense_bytes < indexing && sparse_bytes >= indexing {
        return Err(
            crossing_message(
                sparse_bytes,
                points,
                "indexing_threshold",
                config.config.indexing_threshold_kb,
                dense_bytes,
                indexing,
            ),
        );
    }
    let memmap: usize = threshold_of(config.config.memmap_threshold_kb);
    if dense_bytes < memmap && sparse_bytes >= memmap {
        return Err(
            crossing_message(
                sparse_bytes,
                points,
                "memmap_threshold",
                config.config.memmap_threshold_kb,
                dense_bytes,
                memmap,
            ),
        );
    }
    Ok(())
}

/// Cores that a single segment build keeps busy, on average.
pub const OBSERVED_CORES_PER_BUILD: usize = 2;

/// Default concurrency: enough concurrent builds to keep the machine busy, and at least one.
pub fn default_concurrency(cores: usize) -> (builds: usize)
    ensures
        builds == (if cores < OBSERVED_CORES_PER_BUILD {
            1
        } else {
            cores / OBSERVED_CORES_PER_BUILD
        }),
        builds >= 1,
{
    if cores < OBSERVED_CORES_PER_BUILD {
        1
    } else {
        cores / OBSERVED_CORES_PER_BUILD
    }
}

/// Threads that one segment's index build may use: as given, or as the document resolves to.
pub fn indexing_threads(given: Option<usize>, resolved: usize) -> (threads: Result<usize, String>)
    ensures
        match threads {
            Ok(threads) => match given {
                Some(n) => 0 < n <= u32::MAX && threads == n,
                None => threads == (if resolved == 0 {
                    1
                } else {
                    resolved
                }),
            },
            Err(message) => match given {
                Some(n) => (n == 0 && message@ == "--indexing-threads must be at least 1"@) || (n
                    > u32::MAX && message@ == "--indexing-threads is implausibly large"@),
                None => false,
            },
        },
{
    match given {
        Some(n) => if n == 0 {
            Err("--indexing-threads must be at least 1".to_owned())
        } else if n as u128 > u32::MAX as u128 {
            Err("--indexing-threads is implausibly large".to_owned())
        } else {
            Ok(n)
        },
        None => if resolved == 0 {
            Ok(1)
        } else {
            Ok(resolved)
        },
    }
}

/// What is said of a plan that was made under another config.
pub open spec fn stale_plan_text(shard_id: u32, planned: Seq<char>, current: Seq<char>) -> Seq<char> {
    "plan for shard "@ + text::decimal_text(shard_id as nat)
        + " was made under a different collection config\n  plan:    "@ + planned
        + "\n  current: "@ + current
        + "\n\nThe config is frozen at `plan` time. If you changed it deliberately \u{2014} tuning `hnsw_config`, `quantization_config` or `max_segment_size`, say \u{2014} re-run `plan` and build again; the scatter output stays valid and is not re-read.\n\nIf you did not change it, one node is reading a different document than the others, and building on would leave this shard with mismatched segments."@
}

/// The check that freezes the config: a plan records the full fingerprint, so once planning is done
/// every machine that builds is pinned to one config.
pub fn check_plan(plan: &ShardPlan, config: &LoadedConfig) -> (outcome: Result<(), String>)
    ensures
        match outcome {
            Ok(()) => plan.config_fingerprint@ == config.fingerprint@,
            Err(message) => plan.config_fingerprint@ != config.fingerprint@ && message@
                == stale_plan_text(
                plan.shard_id,
                plan.config_fingerprint@,
                config.fingerprint@,
            ),
        },
{
    if !text::same(plan.config_fingerprint.as_str(), config.fingerprint.as_str()) {
        return Err(
            text::cat7(
                "plan for shard ",
                text::decimal(plan.shard_id as u128).as_str(),
                " was made under a different collection config\n  plan:    ",
                plan.config_fingerprint.as_str(),
                "\n  current: ",
                config.fingerprint.as_str(),
                "\n\nThe config is frozen at `plan` time. If you changed it deliberately \u{2014} tuning `hnsw_config`, `quantization_config` or `max_segment_size`, say \u{2014} re-run `plan` and build again; the scatter output stays valid and is not re-read.\n\nIf you did not change it, one node is reading a different document than the others, and building on would leave this shard with mismatched segments.",
            ),
        );
    }
    Ok(())
}

/// The directory names of a plan's segments.
pub open spec fn planned_names(segments: Seq<SegmentPlan>) -> Seq<Seq<char>> {
    Seq::new(segments.len(), |i: int| ids::uuid_text(segments[i].uuid))
}

/// Whether an entry of the output directory is a segment of another plan: a directory named by a
/// UUID that is not one of this plan's. What is hidden, or not named by a UUID, is left alone.
pub open spec fn is_orphan(entry: DirEntry, expected: Set<Seq<char>>) -> bool {
    entry.is_dir && !text::begins(entry.name@, "."@) && ids::uuid_in(entry.name@) is Some
        && !expected.contains(entry.name@)
}

/// The segments of another plan among the entries.
pub open spec fn orphans(entries: Seq<DirEntry>, expected: Set<Seq<char>>) -> Seq<Seq<char>>
    decreases entries.len(),
{
    if entries.len() == 0 {
        Seq::empty()
    } else {
        let front = orphans(entries.drop_last(), expected);
        if is_orphan(entries.last(), expected) {
            front.push(entries.last().name@)
        } else {
            front
        }
    }
}

/// The first names of a list, for a message.
pub open spec fn first_few(list: Seq<Seq<char>>) -> Seq<char> {
    if list.len() > 3 {
        text::joined(list.take(3), ", "@) + ", ..."@
    } else {
        text::joined(list, ", "@)
    }
}

/// What is said of an output directory that holds segments of another plan.
pub open spec fn orphan_text(shard_id: u32, dir: Seq<char>, orphans: Seq<Seq<char>>) -> Seq<char> {
    "shard "@ + text::decimal_text(shard_id as nat) + " output directory "@ + dir + " holds "@
        + text::decimal_text(orphans.len()) + " segment director"@ + ((if orphans.len() == 1 {
        "y"@
    } else {
        "ies"@
    }) + " from a different plan ("@ + first_few(orphans)
        + "). Inputs were re-scattered or the config was retuned since these were built; building on would ship a shard mixing two plans. Build into a fresh --out, or remove the stale segment directories."@)
}

fn some_names(list: &Vec<String>) -> (text: String)
    ensures
        text@ == first_few(text::texts(list@)),
{
    if list.len() > 3 {
        let mut few: Vec<String> = Vec::new();
        few.push(list[0].clone());
        few.push(list[1].clone());
        few.push(list[2].clone());
        assert(text::texts(few@) =~= text::texts(list@).take(3));
        text::cat2(text::join(&few, ", ").as_str(), ", ...")
    } else {
        text::join(list, ", ")
    }
}

/// Refuse to build into a directory that holds segments of another plan. Segments are named by their
/// content, so resuming a plan finds exactly its own; any other would be shipped along with them.
pub fn check_orphans(plan: &ShardPlan, dir: &str, entries: &Vec<DirEntry>) -> (outcome: Result<
    (),
    String,
>)
    ensures
        ({
            let found = orphans(entries@, planned_names(plan.segments@).to_set());
            match outcome {
                Ok(()) => found.len() == 0,
                Err(message) => exists|sorted: Seq<Seq<char>>| #[trigger]
                    text::sorted_texts(sorted) && sorted.to_multiset() == found.to_multiset()
                        && sorted.len() > 0 && message@ == orphan_text(plan.shard_id, dir@, sorted),
            }
        }),
{
    let mut expected: Vec<String> = Vec::new();
    let mut i: usize = 0;
    while i < plan.segments.len()
        invariant
            i <= plan.segments.len(),
            text::texts(expected@) == planned_names(plan.segments@).take(i as int),
        decreases plan.segments.len() - i,
    {
        let ghost was = text::texts(expected@);
        expected.push(ids::uuid_name(plan.segments[i].uuid));
        assert(text::texts(expected@) =~= was.push(planned_names(plan.segments@)[i as int]));
        assert(text::texts(expected@) =~= planned_names(plan.segments@).take(i + 1));
        i = i + 1;
    }
    assert(text::texts(expected@) =~= planned_names(plan.segments@));
    let known = names::name_set(&expected);
    let ghost set = planned_names(plan.segments@).to_set();
    let mut found: Vec<String> = Vec::new();
    let mut i: usize = 0;
    assert(entries@.take(0) =~= Seq::empty());
    assert(text::texts(found@) =~= Seq::empty());
    while i < entries.len()
        invariant
            i <= entries.len(),
            names::key_set(known@) == set,
            text::texts(found@) == orphans(entries@.take(i as int), set),
        decreases entries.len() - i,
    {
        assert(entries@.take(i + 1).drop_last() =~= entries@.take(i as int));
        let entry = &entries[i];
        assert(set.contains(entry.name@) == names::has_key(known@, entry.name@)) by {
            assert(names::key_set(known@).contains(entry.name@) == names::has_key(
                known@,
                entry.name@,
            ));
        }
        if entry.is_dir && !text::starts_with(entry.name.as_str(), ".") && ids::parse_uuid(
            entry.name.as_str(),
        ).is_ok() && !known.contains(entry.name.as_str()) {
            let ghost was = text::texts(found@);
            found.push(entry.name.clone());
            assert(text::texts(found@) =~= was.push(entry.name@));
        }
        i = i + 1;
    }
    assert(entries@.take(entries@.len() as int) =~= entries@);
    assert(text::texts(found@).len() == found@.len());
    if found.len() == 0 {
        return Ok(());
    }
    let ghost listed = text::texts(found@);
    let sorted = text::sort_names(found);
    proof {
        broadcast use vstd::seq_lib::group_to_multiset_ensures;

        assert(text::texts(sorted@).to_multiset().len() == text::texts(sorted@).len());
        assert(listed.to_multiset().len() == listed.len());
    }
    assert(text::texts(sorted@).len() == sorted@.len());
    let ending: &str = if sorted.len() == 1 {
        "y"
    } else {
        "ies"
    };
    let mut message = text::cat7(
        "shard ",
        text::decimal(plan.shard_id as u128).as_str(),
        " output directory ",
        dir,
        " holds ",
        text::decimal(sorted.len() as u128).as_str(),
        " segment director",
    );
    let tail = text::cat4(
        ending,
        " from a different plan (",
        some_names(&sorted).as_str(),
        "). Inputs were re-scattered or the config was retuned since these were built; building on would ship a shard mixing two plans. Build into a fresh --out, or remove the stale segment directories.",
    );
    message.append(tail.as_str());
    assert(message@ == orphan_text(plan.shard_id, dir@, text::texts(sorted@)));
    Err(message)
}

/// A segment directory of this plan is never refused as another's.
pub proof fn own_segments_are_no_orphans(segments: Seq<SegmentPlan>, k: int, entry: DirEntry)
    requires
        0 <= k < segments.len(),
        entry.name@ == ids::uuid_text(segments[k].uuid),
    ensures
        !is_orphan(entry, planned_names(segments).to_set()),
{
    assert(planned_names(segments)[k] == entry.name@);
}

/// The segments of one shard as work items: plan and place.
pub open spec fn shard_work(plan: int, segments: nat) -> Seq<(int, int)> {
    Seq::new(segments, |k: int| (plan, k))
}

/// Every segment of every shard, shard by shard and in order.
pub open spec fn all_work(plans: Seq<ShardPlan>) -> Seq<(int, int)>
    decreases plans.len(),
{
    if plans.len() == 0 {
        Seq::empty()
    } else {
        all_work(plans.drop_last()) + shard_work(plans.len() - 1, plans.last().segments@.len())
    }
}

/// What a work list names.
pub open spec fn work_view(work: Seq<(usize, usize)>) -> Seq<(int, int)> {
    Seq::new(work.len(), |i: int| (work[i].0 as int, work[i].1 as int))
}

/// Every segment of every shard as one flat list, each by the position of its plan and its own. The
/// list depends on the plans alone, so several machines can take disjoint strides of it.
pub fn work_list(plans: &Vec<ShardPlan>) -> (work: Vec<(usize, usize)>)
    ensures
        work_view(work@) == all_work(plans@),
{
    let mut work: Vec<(usize, usize)> = Vec::new();
    let mut p: usize = 0;
    assert(plans@.take(0) =~= Seq::empty());
    assert(work_view(work@) =~= Seq::empty());
    while p < plans.len()
        invariant
            p <= plans.len(),
            work_view(work@) == all_work(plans@.take(p as int)),
        decreases plans.len() - p,
    {
        let ghost before = work_view(work@);
        let count: usize = plans[p].segments.len();
        let mut k: usize = 0;
        assert(before + shard_work(p as int, 0) =~= before);
        while k < count
            invariant
                k <= count,
                work_view(work@) == before + shard_work(p as int, k as nat),
            decreases count - k,
        {
            let ghost was = work_view(work@);
            work.push((p, k));
            assert(work_view(work@) =~= was.push((p as int, k as int)));
            assert(work_view(work@) =~= before + shard_work(p as int, (k + 1) as nat));
            k = k + 1;
        }
        assert(plans@.take(p + 1).drop_last() =~= plans@.take(p as int));
        p = p + 1;
    }
    assert(plans@.take(plans@.len() as int) =~= plans@);
    work
}

/// The name under which a finished segment is copied before it is renamed into place. Hidden, so
/// that neither the server nor assembly takes it for a segment, and different for every attempt.
pub open spec fn incomplete_text(name: Seq<char>, pid: nat, attempt: nat) -> Seq<char> {
    "."@ + name + "."@ + text::decimal_text(pid) + "."@ + text::decimal_text(attempt)
        + ".incomplete"@
}

/// The name under which a finished segment is copied before it is renamed into place.
pub fn incomplete_temp_name(name: &str, pid: u32, attempt: u64) -> (temp: String)
    ensures
        temp@ == incomplete_text(name@, pid as nat, attempt as nat),
{
    text::cat7(
        ".",
        name,
        ".",
        text::decimal(pid as u128).as_str(),
        ".",
        text::decimal(attempt as u128).as_str(),
        ".incomplete",
    )
}

/// Whether a name is left of an interrupted copy of that segment.
pub open spec fn is_incomplete(name: Seq<char>, uuid: u128) -> bool {
    text::begins(name, "."@ + ids::uuid_text(uuid) + "."@) && text::ends(name, ".incomplete"@)
}

/// Whether a name is left of an interrupted copy of that segment.
pub fn is_incomplete_for(name: &str, uuid: u128) -> (left: bool)
    ensures
        left == is_incomplete(name@, uuid),
{
    let prefix = text::cat3(".", ids::uuid_name(uuid).as_str(), ".");
    text::starts_with(name, prefix.as_str()) && text::ends_with(name, ".incomplete")
}

/// What a copy of a segment leaves behind is recognised as left of that segment, and is hidden.
pub proof fn incomplete_copies_are_recognised(uuid: u128, pid: nat, attempt: nat)
    ensures
        is_incomplete(incomplete_text(ids::uuid_text(uuid), pid, attempt), uuid),
        text::begins(incomplete_text(ids::uuid_text(uuid), pid, attempt), "."@),
{
    let name = ids::uuid_text(uuid);
    let temp = incomplete_text(name, pid, attempt);
    let prefix = "."@ + name + "."@;
    let middle = text::decimal_text(pid) + "."@ + text::decimal_text(attempt);
    assert(temp =~= prefix + middle + ".incomplete"@);
    assert(temp.take(prefix.len() as int) =~= prefix);
    assert(temp.skip(temp.len() - ".incomplete"@.len()) =~= ".incomplete"@);
    assert(temp.take("."@.len() as int) =~= "."@);
}

/// Two attempts to publish one segment never share a name, whichever processes make them.
pub proof fn incomplete_copies_are_distinct(
    name: Seq<char>,
    pid_a: nat,
    attempt_a: nat,
    pid_b: nat,
    attempt_b: nat,
)
    requires
        incomplete_text(name, pid_a, attempt_a) == incomplete_text(name, pid_b, attempt_b),
    ensures
        pid_a == pid_b,
        attempt_a == attempt_b,
{
    let prefix = "."@ + name + "."@;
    let ta = ".incomplete"@;
    let ma = "."@ + (text::decimal_text(attempt_a) + ta);
    let mb = "."@ + (text::decimal_text(attempt_b) + ta);
    let a = incomplete_text(name, pid_a, attempt_a);
    let b = incomplete_text(name, pid_b, attempt_b);
    assert(a =~= prefix + (text::decimal_text(pid_a) + ma));
    assert(b =~= prefix + (text::decimal_text(pid_b) + mb));
    assert(a.skip(prefix.len() as int) =~= text::decimal_text(pid_a) + ma);
    assert(b.skip(prefix.len() as int) =~= text::decimal_text(pid_b) + mb);
    reveal_strlit(".");
    reveal_strlit(".incomplete");
    text::decimal_then(pid_a, ma, pid_b, mb);
    assert(ma.skip(1) =~= text::decimal_text(attempt_a) + ta);
    assert(mb.skip(1) =~= text::decimal_text(attempt_b) + ta);
    text::decimal_then(attempt_a, ta, attempt_b, ta);
}

/// All slices of a shard's segments, in order.
pub open spec fn all_slices(segments: Seq<SegmentPlan>) -> Seq<SliceView>
    decreases segments.len(),
{
    if segments.len() == 0 {
        Seq::empty()
    } else {
        all_slices(segments.drop_last()) + plan::slices_view(segments.last().parts@)
    }
}

/// Where the last slice of a part ends, where the part is planned at all.
pub open spec fn planned_end(slices: Seq<SliceView>, part: Seq<char>) -> Option<nat>
    decreases slices.len(),
{
    if slices.len() == 0 {
        None
    } else {
        let front = planned_end(slices.drop_last(), part);
        let last = slices.last();
        if last.part == part {
            match front {
                Some(end) => if end > last.skip + last.take {
                    front
                } else {
                    Some(last.skip + last.take)
                },
                None => Some(last.skip + last.take),
            }
        } else {
            front
        }
    }
}

/// Whether the end of every slice can be counted.
pub open spec fn ends_fit(segments: Seq<SegmentPlan>) -> bool {
    forall|s: int, k: int|
        0 <= s < segments.len() && 0 <= k < segments[s].parts@.len() ==> (
        #[trigger] segments[s].parts@[k]).skip + segments[s].parts@[k].take <= u64::MAX
}

/// Whether a table holds the planned end of every part.
pub open spec fn holds_ends(ends: Seq<(Seq<char>, u64)>, slices: Seq<SliceView>) -> bool {
    forall|part: Seq<char>|
        (match #[trigger] names::value_of(ends, part) {
            Some(end) => planned_end(slices, part) == Some(end as nat),
            None => planned_end(slices, part) is None,
        })
}

/// Where each part named in the shard's plan is planned to end. The slices of a part follow one
/// another from its first record, so this is the number of records that the plan expects it to hold.
pub fn part_planned_ends(plan: &ShardPlan) -> (ends: NameMap<u64>)
    requires
        ends_fit(plan.segments@),
    ensures
        holds_ends(ends@, all_slices(plan.segments@)),
{
    let mut ends: NameMap<u64> = NameMap::new();
    let mut s: usize = 0;
    assert(plan.segments@.take(0) =~= Seq::empty());
    while s < plan.segments.len()
        invariant
            s <= plan.segments.len(),
            ends_fit(plan.segments@),
            holds_ends(ends@, all_slices(plan.segments@.take(s as int))),
        decreases plan.segments.len() - s,
    {
        let ghost before = all_slices(plan.segments@.take(s as int));
        let ghost own = plan::slices_view(plan.segments@[s as int].parts@);
        let parts = &plan.segments[s].parts;
        let mut k: usize = 0;
        assert(before + own.take(0) =~= before);
        while k < parts.len()
            invariant
                k <= parts.len(),
                s < plan.segments.len(),
                *parts == plan.segments@[s as int].parts,
                own == plan::slices_view(parts@),
                ends_fit(plan.segments@),
                holds_ends(ends@, before + own.take(k as int)),
            decreases parts.len() - k,
        {
            let slice = &parts[k];
            assert(plan.segments@[s as int].parts@[k as int].skip
                + plan.segments@[s as int].parts@[k as int].take <= u64::MAX);
            let end: u64 = slice.skip + slice.take;
            let ghost shorter = before + own.take(k as int);
            let ghost longer = before + own.take(k + 1);
            let ghost was = ends@;
            proof {
                assert(longer.drop_last() =~= shorter);
                assert(longer.last() == slice@);
                assert(match names::value_of(was, slice.part@) {
                    Some(end) => planned_end(shorter, slice.part@) == Some(end as nat),
                    None => planned_end(shorter, slice.part@) is None,
                });
            }
            let known: u64 = match ends.get(slice.part.as_str()) {
                Some(known) => *known,
                None => 0,
            };
            let last: u64 = if known > end {
                known
            } else {
                end
            };
            ends.insert(slice.part.clone(), last);
            assert(holds_ends(ends@, longer)) by {
                assert forall|part: Seq<char>|
                    (match #[trigger] names::value_of(ends@, part) {
                        Some(end) => planned_end(longer, part) == Some(end as nat),
                        None => planned_end(longer, part) is None,
                    }) by {
                    assert(match names::value_of(was, part) {
                        Some(end) => planned_end(shorter, part) == Some(end as nat),
                        None => planned_end(shorter, part) is None,
                    });
                }
            }
            k = k + 1;
        }
        assert(own.take(own.len() as int) =~= own);
        assert(plan.segments@.take(s + 1).drop_last() =~= plan.segments@.take(s as int));
        s = s + 1;
    }
    assert(plan.segments@.take(plan.segments@.len() as int) =~= plan.segments@);
    ends
}

/// What has to be read next of a slice.
#[derive(Debug, Clone, Copy, PartialEq, Eq, Structural)]
pub enum SliceNeed {
    /// A record that belongs to an earlier segment.
    Skip,
    /// A record of the slice.
    Record,
    /// The end of the part.
    End,
    /// Nothing.
    Nothing,
}

/// A slice of a part while it is read. The part is read from its first record: records vary in
/// length, so there is nothing to jump with.
#[derive(Debug)]
pub struct SliceReader {
    /// The part file, for a complaint.
    pub path: String,
    /// What the records are read for, which decides how a short part is spoken of.
    pub route: BuildRoute,
    pub skip: u64,
    pub take: u64,
    /// Where the part is planned to end, where this is its last slice.
    pub terminal: Option<u64>,
    /// Records read of the part.
    pub position: u64,
    /// Whether the end of the part was seen.
    pub ended: bool,
}

/// What is said of a part that has become shorter while records of an earlier segment are skipped.
pub open spec fn short_skip_text(
    route: BuildRoute,
    path: Seq<char>,
    position: nat,
    skip: nat,
) -> Seq<char> {
    match route {
        BuildRoute::Bulk => path + ": ended after skipping "@ + text::decimal_text(position)
            + " of "@ + text::decimal_text(skip)
            + " records of the plan's slice; the scatter output changed since planning. Re-run the plan phase."@,
        BuildRoute::Edge => path + ": ended while skipping to record "@ + text::decimal_text(skip)
            + " of the plan's slice; the scatter output changed since planning. Re-run the plan phase."@,
    }
}

/// What is said of a part that has become shorter than its slice, of which `read` records of `take`
/// were there.
pub open spec fn short_read_text(
    route: BuildRoute,
    path: Seq<char>,
    read: nat,
    take: nat,
) -> Seq<char> {
    match route {
        BuildRoute::Bulk => path + ": ended with "@ + text::decimal_text((take - read) as nat)
            + " planned record(s) unread; the scatter output changed since planning. Re-run the plan phase."@,
        BuildRoute::Edge => path + ": ended after "@ + text::decimal_text(read) + " of "@
            + text::decimal_text(take)
            + " planned records; the scatter output changed since planning. Re-run the plan phase."@,
    }
}

/// What is said of a part that has become longer.
pub open spec fn grown_text(path: Seq<char>, end: nat) -> Seq<char> {
    path + ": has more than the "@ + text::decimal_text(end)
        + " record(s) planned across all segments; the scatter output grew since planning \u{2014} an input was likely re-scattered without re-running `plan`, so the extra records belong to no segment. Re-run the plan phase."@
}

/// Whether a reader stands at the beginning of a slice. It looks for the end of the part where the
/// slice ends where the part is planned to.
pub open spec fn opened_on(
    reader: SliceReader,
    slice: SliceView,
    ends: Seq<(Seq<char>, u64)>,
) -> bool {
    &&& reader.valid()
    &&& reader.skip == slice.skip
    &&& reader.take == slice.take
    &&& reader.position == 0
    &&& !reader.ended
    &&& reader.terminal == (if names::value_of(ends, slice.part) == Some(
        (slice.skip + slice.take) as u64,
    ) {
        Some((slice.skip + slice.take) as u64)
    } else {
        None
    })
}

impl SliceReader {
    /// Whether the reader has not run past its slice.
    pub open spec fn valid(self) -> bool {
        &&& self.skip + self.take <= u64::MAX
        &&& self.position <= self.skip + self.take
        &&& self.ended ==> self.position == self.skip + self.take
    }

    /// What has to be read next.
    pub open spec fn next_need(self) -> SliceNeed {
        if self.position < self.skip {
            SliceNeed::Skip
        } else if self.position < self.skip + self.take {
            SliceNeed::Record
        } else if self.terminal is Some && !self.ended {
            SliceNeed::End
        } else {
            SliceNeed::Nothing
        }
    }

    /// The reader after a read that fits the plan: a record where one is needed, none at the end.
    pub open spec fn after(self, found: bool) -> Option<SliceReader> {
        match (self.next_need(), found) {
            (SliceNeed::Skip, true) | (SliceNeed::Record, true) => Some(
                SliceReader { position: (self.position + 1) as u64, ..self },
            ),
            (SliceNeed::End, false) => Some(SliceReader { ended: true, ..self }),
            _ => None,
        }
    }

    /// What is said of a read that does not fit the plan.
    pub open spec fn refusal(self) -> Seq<char> {
        match self.next_need() {
            SliceNeed::Skip => short_skip_text(
                self.route,
                self.path@,
                self.position as nat,
                self.skip as nat,
            ),
            SliceNeed::Record => short_read_text(
                self.route,
                self.path@,
                (self.position - self.skip) as nat,
                self.take as nat,
            ),
            _ => grown_text(self.path@, self.terminal.unwrap() as nat),
        }
    }

    /// Open a slice of a plan. `ends` are the planned ends of the shard's parts.
    pub fn open(path: &str, route: BuildRoute, slice: &PartSlice, ends: &NameMap<u64>) -> (reader:
        Self)
        requires
            slice.skip + slice.take <= u64::MAX,
        ensures
            reader.path@ == path@,
            reader.route == route,
            opened_on(reader, slice@, ends@),
    {
        let end: u64 = slice.skip + slice.take;
        let terminal: Option<u64> = match ends.get(slice.part.as_str()) {
            Some(planned) => if *planned == end {
                Some(end)
            } else {
                None
            },
            None => None,
        };
        SliceReader {
            path: path.to_owned(),
            route,
            skip: slice.skip,
            take: slice.take,
            terminal,
            position: 0,
            ended: false,
        }
    }

    /// What has to be read next.
    pub fn need(&self) -> (need: SliceNeed)
        requires
            self.valid(),
        ensures
            need == self.next_need(),
    {
        if self.position < self.skip {
            SliceNeed::Skip
        } else if self.position < self.skip + self.take {
            SliceNeed::Record
        } else if self.terminal.is_some() && !self.ended {
            SliceNeed::End
        } else {
            SliceNeed::Nothing
        }
    }

    /// Take the outcome of a read: whether there was a record. Says whether the record belongs to
    /// the slice. A part that ends too early or too late has changed since it was planned.
    pub fn feed(&mut self, found: bool) -> (outcome: Result<bool, String>)
        requires
            old(self).valid(),
            old(self).next_need() != SliceNeed::Nothing,
        ensures
            final(self).valid(),
            match (old(self).after(found), outcome) {
                (Some(next), Ok(own)) => *final(self) == next && own == (old(self).next_need()
                    == SliceNeed::Record),
                (None, Err(message)) => *final(self) == *old(self) && message@
                    == old(self).refusal(),
                _ => false,
            },
    {
        if self.position < self.skip {
            if !found {
                return Err(self.short_skip());
            }
            self.position = self.position + 1;
            return Ok(false);
        }
        if self.position < self.skip + self.take {
            if !found {
                return Err(self.short_read());
            }
            self.position = self.position + 1;
            return Ok(true);
        }
        if found {
            let end: u64 = match self.terminal {
                Some(end) => end,
                None => 0,
            };
            return Err(
                text::cat4(
                    self.path.as_str(),
                    ": has more than the ",
                    text::decimal(end as u128).as_str(),
                    " record(s) planned across all segments; the scatter output grew since planning \u{2014} an input was likely re-scattered without re-running `plan`, so the extra records belong to no segment. Re-run the plan phase.",
                ),
            );
        }
        self.ended = true;
        Ok(false)
    }

    fn short_skip(&self) -> (message: String)
        ensures
            message@ == short_skip_text(
                self.route,
                self.path@,
                self.position as nat,
                self.skip as nat,
            ),
    {
        match self.route {
            BuildRoute::Bulk => text::cat6(
                self.path.as_str(),
                ": ended after skipping ",
                text::decimal(self.position as u128).as_str(),
                " of ",
                text::decimal(self.skip as u128).as_str(),
                " records of the plan's slice; the scatter output changed since planning. Re-run the plan phase.",
            ),
            BuildRoute::Edge => text::cat4(
                self.path.as_str(),
                ": ended while skipping to record ",
                text::decimal(self.skip as u128).as_str(),
                " of the plan's slice; the scatter output changed since planning. Re-run the plan phase.",
            ),
        }
    }

    fn short_read(&self) -> (message: String)
        requires
            self.valid(),
            self.skip <= self.position,
        ensures
            message@ == short_read_text(
                self.route,
                self.path@,
                (self.position - self.skip) as nat,
                self.take as nat,
            ),
    {
        let read: u64 = self.position - self.skip;
        match self.route {
            BuildRoute::Bulk => text::cat4(
                self.path.as_str(),
                ": ended with ",
                text::decimal((self.take - read) as u128).as_str(),
                " planned record(s) unread; the scatter output changed since planning. Re-run the plan phase.",
            ),
            BuildRoute::Edge => text::cat6(
                self.path.as_str(),
                ": ended after ",
                text::decimal(read as u128).as_str(),
                " of ",
                text::decimal(self.take as u128).as_str(),
                " planned records; the scatter output changed since planning. Re-run the plan phase.",
            ),
        }
    }
}

/// The positions of the records that a reader hands out of a part of `records` records, read to its
/// end or to the first read that does not fit the plan.
pub open spec fn handed_out(reader: SliceReader, records: nat) -> Seq<nat>
    decreases reader.skip + reader.take - reader.position, !reader.ended as int,
    when reader.valid()
{
    if reader.next_need() == SliceNeed::Nothing {
        Seq::empty()
    } else {
        match reader.after(reader.position < records) {
            Some(next) => if reader.next_need() == SliceNeed::Record {
                seq![reader.position as nat] + handed_out(next, records)
            } else {
                handed_out(next, records)
            },
            None => Seq::empty(),
        }
    }
}

/// The complaint that reading a part of `records` records ends with, where it does.
pub open spec fn complaint_of(reader: SliceReader, records: nat) -> Option<Seq<char>>
    decreases reader.skip + reader.take - reader.position, !reader.ended as int,
    when reader.valid()
{
    if reader.next_need() == SliceNeed::Nothing {
        None
    } else {
        match reader.after(reader.position < records) {
            Some(next) => complaint_of(next, records),
            None => Some(reader.refusal()),
        }
    }
}

/// How reading a part of `records` records through a slice ends: all is read, or the first thing
/// wrong.
pub open spec fn slice_outcome(reader: SliceReader, records: nat) -> Option<Seq<char>> {
    if records < reader.skip {
        Some(short_skip_text(reader.route, reader.path@, records, reader.skip as nat))
    } else if records < reader.skip + reader.take {
        Some(
            short_read_text(
                reader.route,
                reader.path@,
                (records - reader.skip) as nat,
                reader.take as nat,
            ),
        )
    } else if reader.terminal is Some && records > reader.skip + reader.take {
        Some(grown_text(reader.path@, reader.terminal.unwrap() as nat))
    } else {
        None
    }
}

/// The positions from `from` up to `to`.
pub open spec fn positions(from: nat, to: nat) -> Seq<nat> {
    Seq::new(if from < to { (to - from) as nat } else { 0 }, |i: int| (from + i) as nat)
}

/// Reading a part through a slice of it hands out the records of the slice that the part has, each
/// once and in order, and no others. It is refused exactly where the part lacks a record that the
/// slice needs or, at the part's last slice, has one more than planned.
pub proof fn a_slice_reads_its_own_records(reader: SliceReader, records: nat)
    requires
        reader.valid(),
        reader.position == 0,
        !reader.ended,
    ensures
        handed_out(reader, records) == positions(
            reader.skip as nat,
            if records < reader.skip + reader.take {
                records
            } else {
                (reader.skip + reader.take) as nat
            },
        ),
        complaint_of(reader, records) == slice_outcome(reader, records),
{
    lemma_slice_read_from(reader, records);
}

proof fn lemma_slice_read_from(reader: SliceReader, records: nat)
    requires
        reader.valid(),
        reader.position <= records,
        !reader.ended,
    ensures
        handed_out(reader, records) == positions(
            if reader.position < reader.skip {
                reader.skip as nat
            } else {
                reader.position as nat
            },
            if records < reader.skip + reader.take {
                records
            } else {
                (reader.skip + reader.take) as nat
            },
        ),
        complaint_of(reader, records) == slice_outcome(reader, records),
    decreases reader.skip + reader.take - reader.position,
{
    let end = if records < reader.skip + reader.take {
        records
    } else {
        (reader.skip + reader.take) as nat
    };
    if reader.position < reader.skip + reader.take && reader.position < records {
        let next = SliceReader { position: (reader.position + 1) as u64, ..reader };
        assert(reader.after(true) == Some(next));
        lemma_slice_read_from(next, records);
        if reader.skip <= reader.position {
            assert(positions(reader.position as nat, end) =~= seq![reader.position as nat]
                + positions((reader.position + 1) as nat, end));
        }
    } else if reader.next_need() == SliceNeed::End && records == reader.position {
        let next = SliceReader { ended: true, ..reader };
        assert(reader.after(false) == Some(next));
        assert(next.next_need() == SliceNeed::Nothing);
        assert(handed_out(next, records) =~= Seq::empty());
        assert(complaint_of(next, records) is None);
        assert(handed_out(reader, records) =~= positions(reader.position as nat, end));
    } else {
        assert(handed_out(reader, records) =~= positions(
            if reader.position < reader.skip {
                reader.skip as nat
            } else {
                reader.position as nat
            },
            end,
        ));
    }
}

/// The version of the record behind so many others: one per batch, from one on, so that records of
/// one batch tie and those of a later batch win.
pub fn record_version(records: u64, batch_points: usize) -> (version: u64)
    requires
        batch_points > 0,
        records < u64::MAX,
    ensures
        version == records as nat / batch_points as nat + 1,
{
    let batches: u64 = records / (batch_points as u64);
    assert(batches <= records) by (nonlinear_arith)
        requires
            batches == records / (batch_points as u64),
            batch_points > 0,
    ;
    batches + 1
}

/// A build without points per batch cannot start.
pub fn check_batch_points(batch_points: usize) -> (outcome: Result<(), String>)
    ensures
        match outcome {
            Ok(()) => batch_points > 0,
            Err(message) => batch_points == 0 && message@ == "--batch-points must be at least 1"@,
        },
{
    if batch_points == 0 {
        return Err("--batch-points must be at least 1".to_owned());
    }
    Ok(())
}

/// A segment that was fed another number of records than planned is refused.
pub fn check_ingested(planned: u64, ingested: u64) -> (outcome: Result<(), String>)
    ensures
        match outcome {
            Ok(()) => planned == ingested,
            Err(message) => planned != ingested && message@ == "planned "@ + text::decimal_text(
                planned as nat,
            ) + " points but ingested "@ + text::decimal_text(ingested as nat)
                + "; the scatter output changed since planning. Re-run the plan phase."@,
        },
{
    if planned != ingested {
        return Err(
            text::cat5(
                "planned ",
                text::decimal(planned as u128).as_str(),
                " points but ingested ",
                text::decimal(ingested as u128).as_str(),
                "; the scatter output changed since planning. Re-run the plan phase.",
            ),
        );
    }
    Ok(())
}

/// How many point ids were stored over: records fed in beyond the points that a segment holds.
pub fn collapsed(ingested: u64, stored: u64) -> (duplicates: u64)
    ensures
        duplicates == (if ingested > stored {
            ingested - stored
        } else {
            0
        }),
{
    if ingested > stored {
        ingested - stored
    } else {
        0
    }
}

/// A segment that a staging shard holds.
#[derive(Debug)]
pub struct StagedSegment {
    pub path: String,
    /// Whether it takes new points.
    pub appendable: bool,
    /// Whether an operation was ever applied to it.
    pub versioned: bool,
}

/// The segments that the optimizers finished.
pub open spec fn finished(segments: Seq<StagedSegment>) -> Seq<Seq<char>>
    decreases segments.len(),
{
    if segments.len() == 0 {
        Seq::empty()
    } else {
        let front = finished(segments.drop_last());
        if !segments.last().appendable {
            front.push(segments.last().path@)
        } else {
            front
        }
    }
}

/// The segments that still take points and had some operation applied.
pub open spec fn written(segments: Seq<StagedSegment>) -> Seq<Seq<char>>
    decreases segments.len(),
{
    if segments.len() == 0 {
        Seq::empty()
    } else {
        let front = written(segments.drop_last());
        if segments.last().appendable && segments.last().versioned {
            front.push(segments.last().path@)
        } else {
            front
        }
    }
}

/// The segments that hold the points of a staging shard: the finished ones or, where the data was
/// too little for the optimizers to act, the one it was written to.
pub open spec fn with_points(segments: Seq<StagedSegment>) -> Seq<Seq<char>> {
    if finished(segments).len() > 0 {
        finished(segments)
    } else {
        written(segments)
    }
}

/// The one segment that holds this build's points. `dir` is the directory of the staged segments in
/// a complaint. Picking one of several would drop points, so that is refused.
pub fn built_segment_dir(segments: &Vec<StagedSegment>, dir: &str) -> (built: Result<String, String>)
    ensures
        ({
            let found = with_points(segments@);
            match built {
                Ok(path) => found.len() == 1 && path@ == found[0],
                Err(message) => if found.len() == 0 {
                    message@ == "staging shard produced no segment holding points under "@ + dir@
                        + ". The parts may have been empty."@
                } else {
                    found.len() > 1 && message@ == "staging shard produced "@ + text::decimal_text(
                        found.len(),
                    ) + " segments with points under "@ + dir@ + ", expected 1: "@
                        + text::debug_texts(found)
                        + "\n\nA plan entry must map to exactly one segment. If the segment exceeded max_segment_size the optimizers may have split it; lower the points per segment and re-run the plan phase."@
                },
            }
        }),
{
    let mut built: Vec<String> = Vec::new();
    let mut versioned: Vec<String> = Vec::new();
    let mut i: usize = 0;
    assert(segments@.take(0) =~= Seq::empty());
    assert(text::texts(built@) =~= Seq::empty());
    assert(text::texts(versioned@) =~= Seq::empty());
    while i < segments.len()
        invariant
            i <= segments.len(),
            text::texts(built@) == finished(segments@.take(i as int)),
            text::texts(versioned@) == written(segments@.take(i as int)),
        decreases segments.len() - i,
    {
        assert(segments@.take(i + 1).drop_last() =~= segments@.take(i as int));
        let segment = &segments[i];
        if !segment.appendable {
            let ghost was = text::texts(built@);
            built.push(segment.path.clone());
            assert(text::texts(built@) =~= was.push(segment.path@));
        } else if segment.versioned {
            let ghost was = text::texts(versioned@);
            versioned.push(segment.path.clone());
            assert(text::texts(versioned@) =~= was.push(segment.path@));
        }
        i = i + 1;
    }
    assert(segments@.take(segments@.len() as int) =~= segments@);
    assert(text::texts(built@).len() == built@.len());
    let found = if built.len() > 0 {
        built
    } else {
        versioned
    };
    assert(text::texts(found@) == with_points(segments@));
    assert(text::texts(found@).len() == found@.len());
    if found.len() == 1 {
        assert(text::texts(found@)[0] == found@[0]@);
        return Ok(found[0].clone());
    }
    if found.len() == 0 {
        return Err(
            text::cat3(
                "staging shard produced no segment holding points under ",
                dir,
                ". The parts may have been empty.",
            ),
        );
    }
    Err(
        text::cat7(
            "staging shard produced ",
            text::decimal(found.len() as u128).as_str(),
            " segments with points under ",
            dir,
            ", expected 1: ",
            text::debug_list(&found).as_str(),
            "\n\nA plan entry must map to exactly one segment. If the segment exceeded max_segment_size the optimizers may have split it; lower the points per segment and re-run the plan phase.",
        ),
    )
}

/// The records of the parts before a position.
spec fn offset(parts: Seq<(Seq<char>, nat)>, p: int) -> nat {
    plan::total_records(parts.take(p))
}

/// Whether no two parts share a name.
pub open spec fn distinct_parts(parts: Seq<(Seq<char>, nat)>) -> bool {
    forall|i: int, j: int|
        0 <= i < j < parts.len() ==> (#[trigger] parts[i]).0 != (#[trigger] parts[j]).0
}

/// The end that a run of records up to `hi` reaches in a part of `records` records that begins behind
/// `before` others.
spec fn reached(before: nat, records: nat, hi: nat) -> nat {
    if plan::less(hi, before) < records {
        plan::less(hi, before)
    } else {
        records
    }
}

/// The later of two ends.
spec fn later(a: Option<nat>, b: Option<nat>) -> Option<nat> {
    match (a, b) {
        (Some(x), Some(y)) => if x > y {
            Some(x)
        } else {
            Some(y)
        },
        (Some(x), None) => Some(x),
        (None, y) => y,
    }
}

proof fn lemma_end_of_both(a: Seq<SliceView>, b: Seq<SliceView>, part: Seq<char>)
    ensures
        planned_end(a + b, part) == later(planned_end(a, part), planned_end(b, part)),
    decreases b.len(),
{
    if b.len() == 0 {
        assert(a + b =~= a);
    } else {
        assert((a + b).drop_last() =~= a + b.drop_last());
        assert((a + b).last() == b.last());
        lemma_end_of_both(a, b.drop_last(), part);
    }
}

proof fn lemma_end_of_one(slice: SliceView, part: Seq<char>)
    ensures
        planned_end(seq![slice], part) == (if slice.part == part {
            Some(slice.skip + slice.take)
        } else {
            None
        }),
{
    assert(seq![slice].drop_last() =~= Seq::empty());
    assert(planned_end(seq![slice].drop_last(), part) is None);
}

/// Slices of parts that do not have a name do not reach into the part of that name.
proof fn lemma_no_end(parts: Seq<(Seq<char>, nat)>, lo: nat, hi: nat, name: Seq<char>)
    requires
        forall|i: int| 0 <= i < parts.len() ==> (#[trigger] parts[i]).0 != name,
    ensures
        planned_end(plan::cut(parts, lo, hi), name) is None,
    decreases parts.len(),
{
    if parts.len() > 0 {
        let (first_name, records) = parts[0];
        let rest = parts.skip(1);
        assert forall|i: int| 0 <= i < rest.len() implies (#[trigger] rest[i]).0 != name by {
            assert(rest[i] == parts[i + 1]);
        }
        let tail = plan::cut(rest, plan::less(lo, records), plan::less(hi, records));
        lemma_no_end(rest, plan::less(lo, records), plan::less(hi, records), name);
        let end = if hi < records {
            hi
        } else {
            records
        };
        if lo < end {
            let slice = SliceView { part: first_name, skip: lo, take: (end - lo) as nat };
            lemma_end_of_both(seq![slice], tail, name);
            lemma_end_of_one(slice, name);
            assert(plan::cut(parts, lo, hi) == seq![slice] + tail);
        } else {
            assert(Seq::empty() + tail =~= tail);
            assert(plan::cut(parts, lo, hi) == tail);
        }
    }
}

/// Where a run of records ends in one of the parts.
proof fn lemma_end_in_cut(parts: Seq<(Seq<char>, nat)>, p: int, lo: nat, hi: nat)
    requires
        distinct_parts(parts),
        0 <= p < parts.len(),
    ensures
        planned_end(plan::cut(parts, lo, hi), parts[p].0) == (if plan::less(lo, offset(parts, p))
            < reached(offset(parts, p), parts[p].1, hi) {
            Some(reached(offset(parts, p), parts[p].1, hi))
        } else {
            None
        }),
    decreases parts.len(),
{
    let (first_name, records) = parts[0];
    let rest = parts.skip(1);
    let name = parts[p].0;
    let tail = plan::cut(rest, plan::less(lo, records), plan::less(hi, records));
    let end = if hi < records {
        hi
    } else {
        records
    };
    let slice = SliceView { part: first_name, skip: lo, take: (end - lo) as nat };
    assert forall|i: int, j: int| 0 <= i < j < rest.len() implies (#[trigger] rest[i]).0 != (
    #[trigger] rest[j]).0 by {
        assert(rest[i] == parts[i + 1] && rest[j] == parts[j + 1]);
    }
    lemma_end_of_one(slice, name);
    if p == 0 {
        assert(parts.take(0) =~= Seq::empty());
        assert forall|i: int| 0 <= i < rest.len() implies (#[trigger] rest[i]).0 != name by {
            assert(rest[i] == parts[i + 1]);
        }
        lemma_no_end(rest, plan::less(lo, records), plan::less(hi, records), name);
    } else {
        assert(rest[p - 1] == parts[p]);
        lemma_end_in_cut(rest, p - 1, plan::less(lo, records), plan::less(hi, records));
        assert(parts.take(p).skip(1) =~= rest.take(p - 1));
        assert(parts.take(p)[0] == parts[0]);
        assert(offset(parts, p) == records + offset(rest, p - 1));
        assert(parts[0].0 != parts[p].0);
    }
    if lo < end {
        lemma_end_of_both(seq![slice], tail, name);
        assert(plan::cut(parts, lo, hi) == seq![slice] + tail);
    } else {
        assert(Seq::empty() + tail =~= tail);
        assert(plan::cut(parts, lo, hi) == tail);
    }
}

proof fn lemma_planned_ends(
    segments: Seq<SegmentPlan>,
    parts: Seq<(Seq<char>, nat)>,
    p: int,
    k: nat,
)
    requires
        distinct_parts(parts),
        0 <= p < parts.len(),
        k <= segments.len(),
        forall|i: int|
            0 <= i < segments.len() ==> plan::slices_view((#[trigger] segments[i]).parts@)
                == plan::cut(
                parts,
                plan::segment_start(plan::total_records(parts), segments.len(), i as nat),
                plan::segment_start(plan::total_records(parts), segments.len(), i as nat + 1),
            ),
        segments.len() > 0,
    ensures
        ({
            let start = plan::segment_start(plan::total_records(parts), segments.len(), k);
            planned_end(all_slices(segments.take(k as int)), parts[p].0) == (if reached(
                offset(parts, p),
                parts[p].1,
                start,
            ) > 0 {
                Some(reached(offset(parts, p), parts[p].1, start))
            } else {
                None
            })
        }),
    decreases k,
{
    let total = plan::total_records(parts);
    let count = segments.len();
    if k == 0 {
        assert(segments.take(0) =~= Seq::empty());
        plan::lemma_segment_start(total, count, 0);
    } else {
        let j = (k - 1) as nat;
        lemma_planned_ends(segments, parts, p, j);
        plan::lemma_segment_start(total, count, j);
        assert(segments.take(k as int).drop_last() =~= segments.take(j as int));
        assert(segments.take(k as int).last() == segments[j as int]);
        let own = plan::slices_view(segments[j as int].parts@);
        lemma_end_of_both(all_slices(segments.take(j as int)), own, parts[p].0);
        lemma_end_in_cut(
            parts,
            p,
            plan::segment_start(total, count, j),
            plan::segment_start(total, count, k),
        );
    }
}

proof fn lemma_offset_within(parts: Seq<(Seq<char>, nat)>, p: int)
    requires
        0 <= p < parts.len(),
    ensures
        offset(parts, p) + parts[p].1 <= plan::total_records(parts),
    decreases parts.len(),
{
    if p == 0 {
        assert(parts.take(0) =~= Seq::empty());
    } else {
        let rest = parts.skip(1);
        lemma_offset_within(rest, p - 1);
        assert(rest[p - 1] == parts[p]);
        assert(parts.take(p).skip(1) =~= rest.take(p - 1));
        assert(parts.take(p)[0] == parts[0]);
    }
}

/// The slices of a planned part follow one another from its first record to its last, so the planned
/// end of a part is the number of its records: a part that has grown since it was planned is always
/// found out at its last slice.
pub proof fn planned_ends_are_record_counts(
    segments: Seq<SegmentPlan>,
    parts: Seq<(Seq<char>, nat)>,
    points_per_segment: nat,
    bytes_per_point: nat,
    shard_id: u32,
    config_fingerprint: Seq<char>,
    p: int,
)
    requires
        points_per_segment > 0,
        plan::is_grouping(
            segments,
            parts,
            points_per_segment,
            bytes_per_point,
            shard_id,
            config_fingerprint,
        ),
        distinct_parts(parts),
        0 <= p < parts.len(),
        parts[p].1 > 0,
    ensures
        planned_end(all_slices(segments), parts[p].0) == Some(parts[p].1),
{
    plan::lemma_segment_count(plan::total_records(parts), points_per_segment);
    lemma_offset_within(parts, p);
    assert(segments.len() > 0);
    lemma_planned_end_of(segments, parts, p);
}

proof fn lemma_planned_end_of(segments: Seq<SegmentPlan>, parts: Seq<(Seq<char>, nat)>, p: int)
    requires
        distinct_parts(parts),
        0 <= p < parts.len(),
        forall|i: int|
            0 <= i < segments.len() ==> plan::slices_view((#[trigger] segments[i]).parts@)
                == plan::cut(
                parts,
                plan::segment_start(plan::total_records(parts), segments.len(), i as nat),
                plan::segment_start(plan::total_records(parts), segments.len(), i as nat + 1),
            ),
        segments.len() > 0,
    ensures
        planned_end(all_slices(segments), parts[p].0) == (if parts[p].1 > 0 {
            Some(parts[p].1)
        } else {
            None
        }),
{
    let total = plan::total_records(parts);
    let count = segments.len();
    lemma_offset_within(parts, p);
    plan::lemma_segment_start(total, count, count);
    lemma_planned_ends(segments, parts, p, count);
    assert(segments.take(count as int) =~= segments);
}

proof fn lemma_end_covers(slices: Seq<SliceView>, n: int)
    requires
        0 <= n < slices.len(),
    ensures
        planned_end(slices, slices[n].part) is Some,
        slices[n].skip + slices[n].take <= planned_end(slices, slices[n].part).unwrap(),
    decreases slices.len(),
{
    if n < slices.len() - 1 {
        lemma_end_covers(slices.drop_last(), n);
        assert(slices.drop_last()[n] == slices[n]);
    }
}

proof fn lemma_end_is_a_slice(slices: Seq<SliceView>, part: Seq<char>) -> (n: int)
    requires
        planned_end(slices, part) is Some,
    ensures
        0 <= n < slices.len(),
        slices[n].part == part,
        slices[n].skip + slices[n].take == planned_end(slices, part).unwrap(),
    decreases slices.len(),
{
    let last = slices.last();
    if last.part == part && planned_end(slices, part) == Some(last.skip + last.take) {
        slices.len() - 1
    } else {
        let n = lemma_end_is_a_slice(slices.drop_last(), part);
        assert(slices.drop_last()[n] == slices[n]);
        n
    }
}

/// While the parts of a shard have the records that they were planned with, every slice of the plan
/// is read to its end without a complaint, and gives the records that it was planned to give.
pub proof fn unchanged_parts_are_read_as_planned(
    segments: Seq<SegmentPlan>,
    parts: Seq<(Seq<char>, nat)>,
    points_per_segment: nat,
    bytes_per_point: nat,
    shard_id: u32,
    config_fingerprint: Seq<char>,
    ends: Seq<(Seq<char>, u64)>,
    n: int,
    p: int,
    reader: SliceReader,
)
    requires
        points_per_segment > 0,
        plan::is_grouping(
            segments,
            parts,
            points_per_segment,
            bytes_per_point,
            shard_id,
            config_fingerprint,
        ),
        distinct_parts(parts),
        holds_ends(ends, all_slices(segments)),
        0 <= n < all_slices(segments).len(),
        0 <= p < parts.len(),
        parts[p].0 == all_slices(segments)[n].part,
        opened_on(reader, all_slices(segments)[n], ends),
    ensures
        complaint_of(reader, parts[p].1) is None,
        handed_out(reader, parts[p].1) == positions(
            reader.skip as nat,
            (reader.skip + reader.take) as nat,
        ),
{
    let slices = all_slices(segments);
    assert(segments.len() > 0);
    lemma_planned_end_of(segments, parts, p);
    lemma_end_covers(slices, n);
    a_slice_reads_its_own_records(reader, parts[p].1);
    assert(match names::value_of(ends, parts[p].0) {
        Some(end) => planned_end(slices, parts[p].0) == Some(end as nat),
        None => planned_end(slices, parts[p].0) is None,
    });
}

/// A part that has another number of records than it was planned with, more or fewer, is refused: at
/// the latest at the slice `n` of the plan that was to read it to its end.
pub proof fn a_changed_part_is_refused(
    segments: Seq<SegmentPlan>,
    parts: Seq<(Seq<char>, nat)>,
    points_per_segment: nat,
    bytes_per_point: nat,
    shard_id: u32,
    config_fingerprint: Seq<char>,
    ends: Seq<(Seq<char>, u64)>,
    p: int,
    records: nat,
) -> (n: int)
    requires
        points_per_segment > 0,
        plan::is_grouping(
            segments,
            parts,
            points_per_segment,
            bytes_per_point,
            shard_id,
            config_fingerprint,
        ),
        distinct_parts(parts),
        holds_ends(ends, all_slices(segments)),
        0 <= p < parts.len(),
        parts[p].1 > 0,
        records != parts[p].1,
    ensures
        0 <= n < all_slices(segments).len(),
        all_slices(segments)[n].part == parts[p].0,
        forall|reader: SliceReader|
            opened_on(reader, all_slices(segments)[n], ends) ==> #[trigger] complaint_of(
                reader,
                records,
            ) is Some,
{
    let slices = all_slices(segments);
    planned_ends_are_record_counts(
        segments,
        parts,
        points_per_segment,
        bytes_per_point,
        shard_id,
        config_fingerprint,
        p,
    );
    let n = lemma_end_is_a_slice(slices, parts[p].0);
    assert(match names::value_of(ends, parts[p].0) {
        Some(end) => planned_end(slices, parts[p].0) == Some(end as nat),
        None => planned_end(slices, parts[p].0) is None,
    });
    assert forall|reader: SliceReader| opened_on(reader, slices[n], ends) implies (
    #[trigger] complaint_of(reader, records)) is Some by {
        a_slice_reads_its_own_records(reader, records);
    }
    n
}

/// Bytes of one dense vector for so many points; none of a type that no storage holds.
pub open spec fn bytes_for_all_points(params: VectorParams, points: nat) -> Option<int> {
    match params.datatype {
        Some(VectorStorageDatatype::Float32) | None => Some(points * params.size * 4),
        Some(VectorStorageDatatype::Float16) => Some(points * params.size * 2),
        Some(VectorStorageDatatype::Uint8) => Some(points * params.size),
        Some(VectorStorageDatatype::Turbo4) => None,
    }
}

/// A segment is sized by its largest dense vector storage: no vector's is larger, and some vector's
/// is as large. It can be sized exactly where every vector's storage can be held and counted, and
/// some is not empty.
pub proof fn a_segment_is_sized_by_its_largest_storage(
    vectors: Seq<(Seq<char>, VectorParams)>,
    points: nat,
)
    ensures
        storage_size(vectors, points) is Ok <==> {
            &&& forall|i: int|
                0 <= i < vectors.len() ==> (bytes_for_all_points(
                    (#[trigger] vectors[i]).1,
                    points,
                ) matches Some(bytes) && bytes <= usize::MAX)
            &&& exists|i: int|
                0 <= i < vectors.len() && (bytes_for_all_points(
                    (#[trigger] vectors[i]).1,
                    points,
                ) matches Some(bytes) && bytes > 0)
        },
        storage_size(vectors, points) matches Ok(largest) ==> {
            &&& forall|i: int|
                0 <= i < vectors.len() ==> bytes_for_all_points(
                    (#[trigger] vectors[i]).1,
                    points,
                )->0 <= largest
            &&& exists|i: int|
                0 <= i < vectors.len() && bytes_for_all_points(
                    (#[trigger] vectors[i]).1,
                    points,
                ) == Some(largest as int)
        },
{
    lemma_largest_storage(vectors, points);
    if largest_storage(vectors, points) is Ok {
        let largest = largest_storage(vectors, points)->Ok_0;
        if largest > 0 {
            let i = choose|i: int|
                0 <= i < vectors.len() && bytes_for_all_points(
                    (#[trigger] vectors[i]).1,
                    points,
                ) == Some(largest as int);
            assert(bytes_for_all_points(vectors[i].1, points) == Some(largest as int));
        }
    }
}

proof fn lemma_largest_storage(vectors: Seq<(Seq<char>, VectorParams)>, points: nat)
    ensures
        largest_storage(vectors, points) is Ok <==> forall|i: int|
            0 <= i < vectors.len() ==> (bytes_for_all_points(
                (#[trigger] vectors[i]).1,
                points,
            ) matches Some(bytes) && bytes <= usize::MAX),
        largest_storage(vectors, points) matches Ok(largest) ==> {
            &&& forall|i: int|
                0 <= i < vectors.len() ==> bytes_for_all_points(
                    (#[trigger] vectors[i]).1,
                    points,
                )->0 <= largest
            &&& largest == 0 || exists|i: int|
                0 <= i < vectors.len() && bytes_for_all_points(
                    (#[trigger] vectors[i]).1,
                    points,
                ) == Some(largest as int)
        },
    decreases vectors.len(),
{
    if vectors.len() > 0 {
        let rest = vectors.drop_last();
        let last = vectors.last();
        lemma_largest_storage(rest, points);
        assert(vectors[vectors.len() - 1] == last);
        assert forall|i: int| 0 <= i < rest.len() implies #[trigger] rest[i] == vectors[i] by {}
        match stored_element(last.1.datatype) {
            Some(element) => {
                let each = points * last.1.size as nat;
                assert(each * element == bytes_for_all_points(last.1, points)->0);
            },
            None => {},
        }
        if largest_storage(vectors, points) is Ok {
            let before = largest_storage(rest, points)->Ok_0;
            let largest = largest_storage(vectors, points)->Ok_0;
            assert forall|i: int| 0 <= i < vectors.len() implies (bytes_for_all_points(
                (#[trigger] vectors[i]).1,
                points,
            ) matches Some(bytes) && bytes <= usize::MAX && bytes <= largest) by {
                if i < rest.len() {
                    assert(rest[i] == vectors[i]);
                }
            }
            if largest == before && largest > 0 {
                let i = choose|i: int|
                    0 <= i < rest.len() && bytes_for_all_points(
                        (#[trigger] rest[i]).1,
                        points,
                    ) == Some(largest as int);
                assert(vectors[i] == rest[i]);
            }
        }
        if forall|i: int|
            0 <= i < vectors.len() ==> (bytes_for_all_points(
                (#[trigger] vectors[i]).1,
                points,
            ) matches Some(bytes) && bytes <= usize::MAX) {
            assert forall|i: int| 0 <= i < rest.len() implies (bytes_for_all_points(
                (#[trigger] rest[i]).1,
                points,
            ) matches Some(bytes) && bytes <= usize::MAX) by {
                assert(rest[i] == vectors[i]);
            }
        }
    }
}

/// The terms of a record's sparse vectors add up, vector by vector.
pub proof fn sparse_terms_add_up(
    front: Seq<(Seq<char>, SparseVector)>,
    name: Seq<char>,
    vector: SparseVector,
)
    ensures
        sparse_terms(front.push((name, vector))) == sparse_terms(front) + vector.indices@.len(),
        sparse_terms(Seq::empty()) == 0,
{
    assert(front.push((name, vector)).drop_last() =~= front);
}

/// The size that the config decision goes by is wrong exactly where a threshold, stated in kilobytes,
/// lies above the dense vectors and not above the sparse ones, as far as a machine word counts.
pub proof fn a_threshold_is_crossed_between_the_sizes(
    kb: u64,
    dense_bytes: usize,
    sparse_bytes: usize,
)
    ensures
        kb * 1024 <= usize::MAX ==> (crosses(kb, dense_bytes as nat, sparse_bytes as nat)
            <==> dense_bytes < kb * 1024 && kb * 1024 <= sparse_bytes),
        kb * 1024 > usize::MAX ==> (crosses(kb, dense_bytes as nat, sparse_bytes as nat)
            <==> dense_bytes < usize::MAX && sparse_bytes == usize::MAX),
        sparse_bytes <= dense_bytes ==> !crosses(kb, dense_bytes as nat, sparse_bytes as nat),
{
}

/// The segments of another plan are exactly the directories that are not hidden, are named by a UUID,
/// and are not named by one of this plan's.
pub proof fn every_foreign_segment_is_an_orphan(
    entries: Seq<DirEntry>,
    segments: Seq<SegmentPlan>,
    name: Seq<char>,
)
    ensures
        orphans(entries, planned_names(segments).to_set()).contains(name) <==> {
            &&& exists|i: int|
                0 <= i < entries.len() && (#[trigger] entries[i]).is_dir && entries[i].name@ == name
            &&& name.len() == 0 || name[0] != '.'
            &&& ids::uuid_in(name) is Some
            &&& forall|k: int|
                0 <= k < segments.len() ==> ids::uuid_text((#[trigger] segments[k]).uuid) != name
        },
{
    let expected = planned_names(segments).to_set();
    assert(expected.contains(name) <==> exists|k: int|
        0 <= k < segments.len() && ids::uuid_text((#[trigger] segments[k]).uuid) == name) by {
        let planned = planned_names(segments);
        if planned.contains(name) {
            let k = planned.index_of(name);
            assert(ids::uuid_text(segments[k].uuid) == name);
        }
        if exists|k: int|
            0 <= k < segments.len() && ids::uuid_text((#[trigger] segments[k]).uuid) == name {
            let k = choose|k: int|
                0 <= k < segments.len() && ids::uuid_text((#[trigger] segments[k]).uuid) == name;
            assert(planned[k] == name);
        }
    }
    lemma_orphans(entries, expected, name);
}

proof fn lemma_orphans(entries: Seq<DirEntry>, expected: Set<Seq<char>>, name: Seq<char>)
    ensures
        orphans(entries, expected).contains(name) <==> {
            &&& exists|i: int|
                0 <= i < entries.len() && (#[trigger] entries[i]).is_dir && entries[i].name@ == name
            &&& name.len() == 0 || name[0] != '.'
            &&& ids::uuid_in(name) is Some
            &&& !expected.contains(name)
        },
    decreases entries.len(),
{
    reveal_strlit(".");
    let all = orphans(entries, expected);
    if entries.len() > 0 {
        let rest = entries.drop_last();
        let front = orphans(rest, expected);
        let last = entries.last();
        lemma_orphans(rest, expected, name);
        assert(last == entries[entries.len() - 1]);
        if exists|i: int|
            0 <= i < rest.len() && (#[trigger] rest[i]).is_dir && rest[i].name@ == name {
            let i = choose|i: int|
                0 <= i < rest.len() && (#[trigger] rest[i]).is_dir && rest[i].name@ == name;
            assert(entries[i].is_dir && entries[i].name@ == name);
        }
        if exists|i: int|
            0 <= i < entries.len() && (#[trigger] entries[i]).is_dir && entries[i].name@ == name {
            let i = choose|i: int|
                0 <= i < entries.len() && (#[trigger] entries[i]).is_dir && entries[i].name@
                    == name;
            if i < rest.len() {
                assert(rest[i].is_dir && rest[i].name@ == name);
            }
        }
        if front.contains(name) {
            let k = front.index_of(name);
            assert(all[k] == name);
        }
        let hidden = last.name@.len() > 0 && last.name@[0] == '.';
        assert(text::begins(last.name@, "."@) == hidden) by {
            if last.name@.len() > 0 {
                assert(last.name@.take(1)[0] == last.name@[0]);
                if hidden {
                    assert(last.name@.take(1) =~= "."@);
                }
            }
        }
        if is_orphan(last, expected) {
            assert(all[all.len() - 1] == last.name@);
            if all.contains(name) && name != last.name@ {
                let k = all.index_of(name);
                assert(front[k] == name);
            }
        }
    }
}

/// The work of a build is every segment of every plan, each once.
pub proof fn every_planned_segment_is_work_once(plans: Seq<ShardPlan>, plan: int, segment: int)
    ensures
        all_work(plans).contains((plan, segment)) <==> 0 <= plan < plans.len() && 0 <= segment
            < plans[plan].segments@.len(),
        all_work(plans).no_duplicates(),
    decreases plans.len(),
{
    if plans.len() > 0 {
        let rest = plans.drop_last();
        let n = plans.len() - 1;
        let front = all_work(rest);
        let own = shard_work(n, plans.last().segments@.len());
        let all = all_work(plans);
        every_planned_segment_is_work_once(rest, plan, segment);
        assert(plans[n] == plans.last());
        if front.contains((plan, segment)) {
            let i = front.index_of((plan, segment));
            assert(all[i] == (plan, segment));
        }
        if plan == n && 0 <= segment < own.len() {
            assert(own[segment] == (plan, segment));
            assert(all[front.len() + segment] == (plan, segment));
        }
        if all.contains((plan, segment)) {
            let i = all.index_of((plan, segment));
            if i < front.len() {
                assert(front[i] == (plan, segment));
            } else {
                assert(own[i - front.len()] == (plan, segment));
            }
        }
        assert forall|i: int, j: int| 0 <= i < j < all.len() implies all[i] != all[j] by {
            if j >= front.len() {
                assert(all[j] == own[j - front.len()]);
                if i >= front.len() {
                    assert(all[i] == own[i - front.len()]);
                } else {
                    let item = front[i];
                    assert(all[i] == item);
                    assert(front.contains(item));
                    every_planned_segment_is_work_once(rest, item.0, item.1);
                }
            } else {
                assert(all[i] == front[i] && all[j] == front[j]);
            }
        }
    }
}

/// The segments that hold the points of a staging shard are those that the optimizers finished or,
/// where they finished none, those that take points and had an operation applied; each counts once.
pub proof fn finished_segments_hold_the_points(segments: Seq<StagedSegment>)
    ensures
        with_points(segments).len() == (if exists|i: int|
            0 <= i < segments.len() && !(#[trigger] segments[i]).appendable {
            segments.filter(|s: StagedSegment| !s.appendable).len()
        } else {
            segments.filter(|s: StagedSegment| s.appendable && s.versioned).len()
        }),
        forall|k: int|
            0 <= k < with_points(segments).len() ==> exists|i: int|
                0 <= i < segments.len() && (#[trigger] segments[i]).path@ == #[trigger] with_points(
                    segments,
                )[k] && (!segments[i].appendable || (segments[i].versioned && forall|j: int|
                    0 <= j < segments.len() ==> (#[trigger] segments[j]).appendable)),
{
    lemma_finished(segments);
    lemma_written(segments);
    assert forall|k: int| 0 <= k < with_points(segments).len() implies exists|i: int|
        0 <= i < segments.len() && (#[trigger] segments[i]).path@ == #[trigger] with_points(
            segments,
        )[k] && (!segments[i].appendable || (segments[i].versioned && forall|j: int|
            0 <= j < segments.len() ==> (#[trigger] segments[j]).appendable)) by {
        if finished(segments).len() > 0 {
            assert(with_points(segments)[k] == finished(segments)[k]);
        } else {
            assert(with_points(segments)[k] == written(segments)[k]);
        }
    }
}

proof fn lemma_finished(segments: Seq<StagedSegment>)
    ensures
        finished(segments).len() == segments.filter(|s: StagedSegment| !s.appendable).len(),
        finished(segments).len() > 0 <==> exists|i: int|
            0 <= i < segments.len() && !(#[trigger] segments[i]).appendable,
        forall|k: int|
            0 <= k < finished(segments).len() ==> exists|i: int|
                0 <= i < segments.len() && (#[trigger] segments[i]).path@ == #[trigger] finished(
                    segments,
                )[k] && !segments[i].appendable,
    decreases segments.len(),
{
    reveal(Seq::filter);
    if segments.len() > 0 {
        let rest = segments.drop_last();
        lemma_finished(rest);
        assert(segments[segments.len() - 1] == segments.last());
        assert forall|i: int| 0 <= i < rest.len() implies #[trigger] rest[i] == segments[i] by {}
        assert forall|k: int| 0 <= k < finished(segments).len() implies exists|i: int|
            0 <= i < segments.len() && (#[trigger] segments[i]).path@ == #[trigger] finished(
                segments,
            )[k] && !segments[i].appendable by {
            if k < finished(rest).len() {
                assert(finished(segments)[k] == finished(rest)[k]);
                let i = choose|i: int|
                    0 <= i < rest.len() && (#[trigger] rest[i]).path@ == finished(rest)[k]
                        && !rest[i].appendable;
                assert(segments[i] == rest[i]);
            } else {
                assert(finished(segments)[k] == segments[segments.len() - 1].path@);
            }
        }
        if finished(rest).len() > 0 {
            let i = choose|i: int| 0 <= i < rest.len() && !(#[trigger] rest[i]).appendable;
            assert(segments[i] == rest[i]);
        }
        if exists|i: int| 0 <= i < segments.len() && !(#[trigger] segments[i]).appendable {
            let i = choose|i: int| 0 <= i < segments.len() && !(#[trigger] segments[i]).appendable;
            if i < rest.len() {
                assert(rest[i] == segments[i]);
            }
        }
    }
}

proof fn lemma_written(segments: Seq<StagedSegment>)
    ensures
        written(segments).len() == segments.filter(
            |s: StagedSegment| s.appendable && s.versioned,
        ).len(),
        forall|k: int|
            0 <= k < written(segments).len() ==> exists|i: int|
                0 <= i < segments.len() && (#[trigger] segments[i]).path@ == #[trigger] written(
                    segments,
                )[k] && segments[i].appendable && segments[i].versioned,
    decreases segments.len(),
{
    reveal(Seq::filter);
    if segments.len() > 0 {
        let rest = segments.drop_last();
        lemma_written(rest);
        assert(segments[segments.len() - 1] == segments.last());
        assert forall|k: int| 0 <= k < written(segments).len() implies exists|i: int|
            0 <= i < segments.len() && (#[trigger] segments[i]).path@ == #[trigger] written(
                segments,
            )[k] && segments[i].appendable && segments[i].versioned by {
            if k < written(rest).len() {
                assert(written(segments)[k] == written(rest)[k]);
                let i = choose|i: int|
                    0 <= i < rest.len() && (#[trigger] rest[i]).path@ == written(rest)[k]
                        && rest[i].appendable && rest[i].versioned;
                assert(segments[i] == rest[i]);
            } else {
                assert(written(segments)[k] == segments[segments.len() - 1].path@);
            }
        }
    }
}

/// A list of at most three names is told in full, and of a longer one the first three.
pub proof fn a_few_names_are_told(list: Seq<Seq<char>>)
    ensures
        list.len() <= 3 ==> first_few(list) == text::joined(list, ", "@),
        list.len() > 3 ==> first_few(list) == text::joined(seq![list[0], list[1], list[2]], ", "@)
            + ", ..."@,
{
    if list.len() > 3 {
        assert(list.take(3) =~= seq![list[0], list[1], list[2]]);
    }
}

} // verus!
