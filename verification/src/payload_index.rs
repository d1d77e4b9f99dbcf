//! Payload field indexes, built offline instead of at load.
//!
//! Declaring indexes on the collection and letting shards build them when they load costs a full
//! pass over every point on the serving filesystem. Building them here costs almost nothing, because
//! the points are in memory on the way through.
use vstd::prelude::*;
use vstd::string::*;
use crate::config::Memory;
use crate::json;
use crate::json::{Json, JsonValue};
use crate::names;
use crate::names::NameMap;

verus! {

/// One field index.
pub struct FieldSchema {
    /// The definition as the document states it.
    pub definition: Json,
    /// The definition with every parameter written out.
    pub expanded: Json,
    /// The placement that its spellings resolve to.
    pub placement: Memory,
}

/// The payload index schema for a collection: field name to index definition.
pub struct PayloadIndexSchema {
    pub schema: NameMap<FieldSchema>,
}

/// An index whose expanded parameters are not an object.
#[derive(Debug)]
pub struct NotAnObject {
    pub field: String,
}

/// The operation that creates one field index.
pub struct CreateIndex {
    pub field_name: String,
    pub field_schema: Json,
}

/// The parameters of a definition with its placement resolved: neither spelling is left of those
/// that were stated, and `memory` states the placement behind everything else, which stays as it is.
pub open spec fn canonical_members(
    parameters: Seq<(Seq<char>, JsonValue)>,
    placement: Memory,
) -> Seq<(Seq<char>, JsonValue)> {
    json::without_member(json::without_member(parameters, "on_disk"@), "memory"@).push(
        ("memory"@, JsonValue::Text(placement.name())),
    )
}

/// A definition with its placement resolved.
pub open spec fn canonical_definition(field: FieldSchema) -> Option<JsonValue> {
    match field.expanded@ {
        JsonValue::Object(members) => Some(
            JsonValue::Object(canonical_members(members, field.placement)),
        ),
        _ => None,
    }
}

/// The first field from position `from` whose expanded parameters are not an object.
pub open spec fn first_odd_field(schema: Seq<(Seq<char>, FieldSchema)>, from: int) -> Option<
    Seq<char>,
>
    decreases schema.len() - from,
{
    if from < 0 || from >= schema.len() {
        None
    } else if canonical_definition(schema[from].1) is None {
        Some(schema[from].0)
    } else {
        first_odd_field(schema, from + 1)
    }
}

/// Whether `fields` are the definitions of `schema`, each in canonical form.
pub open spec fn is_canonical(
    fields: Seq<(Seq<char>, Json)>,
    schema: Seq<(Seq<char>, FieldSchema)>,
) -> bool {
    &&& fields.len() == schema.len()
    &&& forall|i: int|
        0 <= i < fields.len() ==> (#[trigger] fields[i]).0 == schema[i].0 && Some(fields[i].1@)
            == canonical_definition(schema[i].1)
}

impl PayloadIndexSchema {
    /// The number of indexes.
    pub fn len(&self) -> (n: usize)
        ensures
            n == self.schema@.len(),
    {
        self.schema.len()
    }

    /// Build from an already-parsed field map.
    pub fn from_fields(schema: NameMap<FieldSchema>) -> (all: Self)
        ensures
            all.schema == schema,
    {
        PayloadIndexSchema { schema }
    }

    /// The indexed field names.
    pub fn fields(&self) -> (fields: Vec<String>)
        ensures
            crate::text::texts(fields@) == names::keys(self.schema@),
    {
        self.schema.names()
    }

    /// The schema with every placement spelling resolved, for hashing and diffing.
    ///
    /// `on_disk: true` and `memory: "cold"` are one placement in two spellings, and the server
    /// does not rebuild an index over the spelling. Everything else in the parameters stays raw,
    /// because any other difference is a real rebuild.
    pub fn canonical_fields(&self) -> (fields: Result<NameMap<Json>, NotAnObject>)
        ensures
            match fields {
                Ok(table) => first_odd_field(self.schema@, 0) is None && is_canonical(
                    table@,
                    self.schema@,
                ),
                Err(err) => first_odd_field(self.schema@, 0) == Some(err.field@),
            },
    {
        let mut table: NameMap<Json> = NameMap::new();
        let count: usize = self.schema.len();
        let mut i: usize = 0;
        while i < count
            invariant
                i <= count,
                count == self.schema@.len(),
                names::sorted_keys(self.schema@),
                first_odd_field(self.schema@, 0) == first_odd_field(self.schema@, i as int),
                table@.len() == i,
                forall|k: int|
                    0 <= k < i ==> (#[trigger] table@[k]).0 == self.schema@[k].0 && Some(
                        table@[k].1@,
                    ) == canonical_definition(self.schema@[k].1),
            decreases count - i,
        {
            let name = self.schema.name_at(i);
            let field = self.schema.value_at(i);
            match &field.expanded {
                Json::Object(members) => {
                    let mut resolved = json::copy_members(members);
                    json::remove_member(&mut resolved, "on_disk");
                    json::remove_member(&mut resolved, "memory");
                    let ghost others = resolved@;
                    resolved.push(
                        (
                            "memory".to_owned(),
                            Json::Text(field.placement.document_name().to_owned()),
                        ),
                    );
                    assert(resolved@.drop_last() =~= others);
                    assert(resolved@.last().1@ == JsonValue::Text(field.placement.name()));
                    assert(json::members_view(resolved@) =~= canonical_members(
                        json::members_view(members@),
                        field.placement,
                    ));
                    table.append(name.clone(), Json::Object(resolved));
                },
                _ => {
                    return Err(NotAnObject { field: name.clone() });
                },
            }
            i = i + 1;
        }
        Ok(table)
    }

    /// The operations that create these indexes, in the order of their fields.
    pub fn create_operations(&self) -> (operations: Vec<CreateIndex>)
        ensures
            operations@.len() == self.schema@.len(),
            forall|i: int|
                0 <= i < operations@.len() ==> (#[trigger] operations@[i]).field_name@
                    == self.schema@[i].0 && operations@[i].field_schema@
                    == self.schema@[i].1.definition@,
    {
        let mut operations: Vec<CreateIndex> = Vec::new();
        let count: usize = self.schema.len();
        let mut i: usize = 0;
        while i < count
            invariant
                i <= count,
                count == self.schema@.len(),
                operations@.len() == i,
                forall|k: int|
                    0 <= k < i ==> (#[trigger] operations@[k]).field_name@ == self.schema@[k].0
                        && operations@[k].field_schema@ == self.schema@[k].1.definition@,
            decreases count - i,
        {
            operations.push(
                CreateIndex {
                    field_name: self.schema.name_at(i).clone(),
                    field_schema: self.schema.value_at(i).definition.copy(),
                },
            );
            i = i + 1;
        }
        operations
    }
}

/// How a placement is spelled does not matter: parameters that state it by the deprecated flag, by
/// `memory`, by both or not at all, each wherever it stands among the others, have one canonical
/// form, which states what they resolve to.
pub proof fn placement_spellings_agree(
    parameters: Seq<(Seq<char>, JsonValue)>,
    flag: JsonValue,
    flag_at: int,
    memory: JsonValue,
    memory_at: int,
    placement: Memory,
)
    requires
        0 <= flag_at <= parameters.len(),
        0 <= memory_at <= parameters.len(),
        !json::has_member(parameters, "on_disk"@),
        !json::has_member(parameters, "memory"@),
    ensures
        ({
            let by_flag = parameters.insert(flag_at, ("on_disk"@, flag));
            let by_memory = parameters.insert(memory_at, ("memory"@, memory));
            let canonical = parameters.push(("memory"@, JsonValue::Text(placement.name())));
            &&& canonical_members(parameters, placement) == canonical
            &&& canonical_members(by_flag, placement) == canonical
            &&& canonical_members(by_memory, placement) == canonical
            &&& canonical_members(
                by_memory.insert(flag_at, ("on_disk"@, flag)),
                placement,
            ) == canonical
            &&& canonical_members(
                by_flag.insert(memory_at, ("memory"@, memory)),
                placement,
            ) == canonical
        }),
{
    reveal_strlit("on_disk");
    reveal_strlit("memory");
    assert("on_disk"@[0] != "memory"@[0]);
    let by_flag = parameters.insert(flag_at, ("on_disk"@, flag));
    let by_memory = parameters.insert(memory_at, ("memory"@, memory));
    json::lemma_without_absent(parameters, "on_disk"@);
    json::lemma_without_absent(parameters, "memory"@);
    json::lemma_without_inserted(parameters, "on_disk"@, flag, flag_at);
    json::lemma_without_both(parameters, "on_disk"@, "memory"@, memory, memory_at);
    json::lemma_without_inserted(by_memory, "on_disk"@, flag, flag_at);
    json::lemma_without_both(by_flag, "on_disk"@, "memory"@, memory, memory_at);
}

/// The definitions have a canonical form exactly where each of them expands to an object.
pub proof fn every_definition_has_to_be_an_object(schema: Seq<(Seq<char>, FieldSchema)>)
    ensures
        first_odd_field(schema, 0) is None <==> forall|i: int|
            0 <= i < schema.len() ==> (#[trigger] schema[i]).1.expanded@ is Object,
{
    lemma_odd_field(schema, 0);
}

proof fn lemma_odd_field(schema: Seq<(Seq<char>, FieldSchema)>, from: int)
    requires
        0 <= from,
    ensures
        first_odd_field(schema, from) is None <==> forall|i: int|
            from <= i < schema.len() ==> (#[trigger] schema[i]).1.expanded@ is Object,
    decreases schema.len() - from,
{
    if from < schema.len() {
        lemma_odd_field(schema, from + 1);
        if first_odd_field(schema, from) is None {
            assert forall|i: int| from <= i < schema.len() implies (
            #[trigger] schema[i]).1.expanded@ is Object by {}
        } else {
            assert(schema[from].0 == schema[from].0);
        }
    }
}

/// Resolving the placement leaves every other parameter as it is: under any name but those of the two
/// spellings the same value stands, the deprecated one is gone, and `memory` states the placement.
pub proof fn resolving_a_placement_leaves_other_parameters(field: FieldSchema, name: Seq<char>)
    requires
        field.expanded@ is Object,
    ensures
        canonical_definition(field) is Some,
        name != "on_disk"@ && name != "memory"@ ==> json::get_member(
            canonical_definition(field)->0,
            name,
        ) == json::get_member(field.expanded@, name),
        json::get_member(canonical_definition(field)->0, "on_disk"@) is None,
        json::get_member(canonical_definition(field)->0, "memory"@) == Some(
            JsonValue::Text(
                match field.placement {
                    Memory::Cold => "cold"@,
                    Memory::Cached => "cached"@,
                    Memory::Pinned => "pinned"@,
                },
            ),
        ),
{
    reveal_strlit("on_disk");
    reveal_strlit("memory");
    assert("on_disk"@[0] != "memory"@[0]);
    let members = field.expanded@->Object_0;
    let once = json::without_member(members, "on_disk"@);
    let twice = json::without_member(once, "memory"@);
    json::removing_a_member_leaves_the_others(members, "on_disk"@, name);
    json::removing_a_member_leaves_the_others(once, "memory"@, name);
    json::removing_a_member_leaves_the_others(members, "on_disk"@, "on_disk"@);
    json::removing_a_member_leaves_the_others(once, "memory"@, "on_disk"@);
    json::removing_a_member_leaves_the_others(once, "memory"@, "memory"@);
    let stated = ("memory"@, JsonValue::Text(field.placement.name()));
    json::lemma_member_behind(twice, stated, name);
    json::lemma_member_behind(twice, stated, "on_disk"@);
    json::lemma_member_behind(twice, stated, "memory"@);
}

} // verus!
