//! The single input document every command reads: the collection config, how columns map to points,
//! and the payload indexes. They are kept together because they have to agree.
use vstd::prelude::*;
use vstd::string::*;
use crate::config;
use crate::config::LoadedConfig;
use crate::gates;
use crate::gates::{ConfigFault, ParseOutcome};
use crate::json;
use crate::json::{Json, JsonValue};
use crate::names;
use crate::names::NameMap;
use crate::parquet_source::ParquetMapping;
use crate::payload_index;
use crate::payload_index::{FieldSchema, NotAnObject, PayloadIndexSchema};
use crate::text;

verus! {

/// The parsed input document.
pub struct Document {
    pub config: LoadedConfig,
    pub mapping: Option<ParquetMapping>,
    pub payload_index: Option<PayloadIndexSchema>,
}

/// Whether a text that is no document is a bare collection config.
pub open spec fn is_bare_config(value: Option<JsonValue>) -> bool {
    match value {
        Some(value) => json::get_member(value, "collection"@) is None && json::get_member(
            value,
            "params"@,
        ) is Some,
        None => false,
    }
}

/// What is said of a text that does not parse as a document.
pub open spec fn unreadable_text(value: Option<JsonValue>, why: Seq<char>) -> Seq<char> {
    if is_bare_config(value) {
        "this looks like a bare collection config. The input is now a single document with the collection nested under a \"collection\" key, alongside \"mapping\" and an optional \"payload_index\":\n\n{\n  \"collection\": { ... this file ... },\n  \"mapping\": { ... },\n  \"payload_index\": { ... }\n}"@
    } else {
        why
    }
}

/// Why a document is refused.
pub enum DocumentFault {
    /// The text is not a document of the known sections.
    Unreadable(String),
    /// The collection section did not pass its gates.
    Collection(ConfigFault),
    /// The mapping cannot be read with.
    Mapping(String),
    /// The payload index section declares no fields.
    EmptyIndex,
    /// An index definition is not an object.
    OddIndex(NotAnObject),
    /// Two sections do not agree.
    Disagreement(String),
}

impl DocumentFault {
    pub open spec fn text(self) -> Seq<char> {
        match self {
            DocumentFault::Unreadable(why) => why@,
            DocumentFault::Collection(fault) => "in the \"collection\" section: "@ + fault.text(),
            DocumentFault::Mapping(why) => "in the \"mapping\" section: "@ + why@,
            DocumentFault::EmptyIndex => "the \"payload_index\" section is empty; omit it entirely rather than declaring no fields"@,
            DocumentFault::OddIndex(_) => "expanded payload index params must be an object"@,
            DocumentFault::Disagreement(why) => why@,
        }
    }

    /// The message for the operator.
    pub fn message(&self) -> (message: String)
        ensures
            message@ == self.text(),
    {
        match self {
            DocumentFault::Unreadable(why) => why.clone(),
            DocumentFault::Collection(fault) => text::cat2(
                "in the \"collection\" section: ",
                fault.message().as_str(),
            ),
            DocumentFault::Mapping(why) => text::cat2(
                "in the \"mapping\" section: ",
                why.as_str(),
            ),
            DocumentFault::EmptyIndex => "the \"payload_index\" section is empty; omit it entirely rather than declaring no fields".to_owned(),
            DocumentFault::OddIndex(_) => "expanded payload index params must be an object".to_owned(),
            DocumentFault::Disagreement(why) => why.clone(),
        }
    }
}

/// The first disagreement between a mapping and the collection or the payload indexes: a vector that
/// only one of them has, or an index over a field that is never stored.
pub open spec fn disagreement(
    config: config::CollectionConfig,
    mapping: ParquetMapping,
    payload_index: Option<PayloadIndexSchema>,
) -> Option<Seq<char>> {
    let dense = names::keys(config.vectors@);
    let mapped_dense = names::keys(mapping.dense_vectors@);
    let sparse = names::keys(config.sparse_vectors@);
    let mapped_sparse = names::keys(mapping.sparse_vectors@);
    let unmapped_dense = names::left_out(dense, names::key_set(mapping.dense_vectors@));
    let undeclared_dense = names::left_out(mapped_dense, names::key_set(config.vectors@));
    let unmapped_sparse = names::left_out(sparse, names::key_set(mapping.sparse_vectors@));
    let undeclared_sparse = names::left_out(mapped_sparse, names::key_set(config.sparse_vectors@));
    let unstored = match payload_index {
        Some(schema) => names::left_out(
            names::keys(schema.schema@),
            text::texts(mapping.payload_columns@).to_set(),
        ),
        None => Seq::empty(),
    };
    if unmapped_dense.len() > 0 {
        Some(
            "the collection declares dense vector '"@ + unmapped_dense[0]
                + "' but the mapping has no column for it; points would be built without it"@,
        )
    } else if undeclared_dense.len() > 0 {
        Some(
            "the mapping produces dense vector '"@ + undeclared_dense[0]
                + "' but the collection does not declare it"@,
        )
    } else if unmapped_sparse.len() > 0 {
        Some(
            "the collection declares sparse vector '"@ + unmapped_sparse[0]
                + "' but the mapping has no column for it"@,
        )
    } else if undeclared_sparse.len() > 0 {
        Some(
            "the mapping produces sparse vector '"@ + undeclared_sparse[0]
                + "' but the collection does not declare it"@,
        )
    } else if unstored.len() > 0 {
        Some(
            "the payload index declares field '"@ + unstored[0]
                + "' but the mapping does not carry it into the payload; the index would be built over nothing"@,
        )
    } else {
        None
    }
}

impl Document {
    /// What the sections do not agree on. Without a mapping there is nothing to agree with.
    pub open spec fn fault(self) -> Option<Seq<char>> {
        match self.mapping {
            Some(mapping) => disagreement(self.config.config, mapping, self.payload_index),
            None => None,
        }
    }

    /// Cross-checks between sections, which is the reason for keeping them in one file.
    pub fn check_sections_agree(&self) -> (outcome: Result<(), String>)
        ensures
            match outcome {
                Ok(()) => self.fault() is None,
                Err(message) => self.fault() == Some(message@),
            },
    {
        let mapping = match &self.mapping {
            Some(mapping) => mapping,
            None => {
                return Ok(());
            },
        };
        let config = &self.config.config;
        match names::first_left_out(&config.vectors, &mapping.dense_vectors) {
            Some(name) => {
                return Err(
                    text::cat3(
                        "the collection declares dense vector '",
                        name.as_str(),
                        "' but the mapping has no column for it; points would be built without it",
                    ),
                );
            },
            None => {},
        }
        match names::first_left_out(&mapping.dense_vectors, &config.vectors) {
            Some(name) => {
                return Err(
                    text::cat3(
                        "the mapping produces dense vector '",
                        name.as_str(),
                        "' but the collection does not declare it",
                    ),
                );
            },
            None => {},
        }
        match names::first_left_out(&config.sparse_vectors, &mapping.sparse_vectors) {
            Some(name) => {
                return Err(
                    text::cat3(
                        "the collection declares sparse vector '",
                        name.as_str(),
                        "' but the mapping has no column for it",
                    ),
                );
            },
            None => {},
        }
        match names::first_left_out(&mapping.sparse_vectors, &config.sparse_vectors) {
            Some(name) => {
                return Err(
                    text::cat3(
                        "the mapping produces sparse vector '",
                        name.as_str(),
                        "' but the collection does not declare it",
                    ),
                );
            },
            None => {},
        }
        match &self.payload_index {
            Some(schema) => {
                let stored = names::name_set(&mapping.payload_columns);
                match names::first_left_out(&schema.schema, &stored) {
                    Some(name) => {
                        return Err(
                            text::cat3(
                                "the payload index declares field '",
                                name.as_str(),
                                "' but the mapping does not carry it into the payload; the index would be built over nothing",
                            ),
                        );
                    },
                    None => {},
                }
            },
            None => {},
        }
        Ok(())
    }
}

/// Whether a collection section passes its gates.
pub open spec fn collection_loads(collection: JsonValue, parsed: ParseOutcome) -> bool {
    exists|loaded: LoadedConfig| #[trigger]
        gates::loads(collection, parsed, Ok::<LoadedConfig, ConfigFault>(loaded))
}

/// Whether a mapping section, where there is one, can be read with.
pub open spec fn mapping_reads(mapping: Option<ParquetMapping>) -> bool {
    mapping matches Some(m) ==> m.complaint() is None
}

/// Whether a payload index section, where there is one, declares fields and each by an object.
pub open spec fn index_reads(fields: Option<NameMap<FieldSchema>>) -> bool {
    fields matches Some(f) ==> f@.len() > 0 && payload_index::first_odd_field(f@, 0) is None
}

/// Whether that is what becomes of the sections of a document: the first fault in the order of the
/// sections, then a disagreement between them, or the document.
///
/// Both fingerprints are those of the whole document: the part fingerprint covers the mapping's id
/// column and format, the full one the payload indexes.
pub open spec fn reads(
    collection: JsonValue,
    parsed: ParseOutcome,
    mapping: Option<ParquetMapping>,
    fields: Option<NameMap<FieldSchema>>,
    document: Result<Document, DocumentFault>,
) -> bool {
    match document {
        Ok(d) => {
            &&& exists|loaded: LoadedConfig| #[trigger]
                gates::loads(collection, parsed, Ok::<LoadedConfig, ConfigFault>(loaded))
                    && d.config.config == loaded.config
            &&& mapping_reads(mapping)
            &&& index_reads(fields)
            &&& d.mapping == mapping
            &&& d.payload_index == (match fields {
                Some(schema) => Some(PayloadIndexSchema { schema }),
                None => None,
            })
            &&& d.config.fingerprint@ == config::fingerprint_of(
                config::full_surface(d.config.config, d.payload_index),
            )
            &&& d.config.part_fingerprint@ == config::fingerprint_of(
                config::part_surface(config::routing_of(d.config.config, mapping)),
            )
            &&& d.fault() is None
        },
        Err(DocumentFault::Unreadable(_)) => false,
        Err(DocumentFault::Collection(fault)) => gates::loads(
            collection,
            parsed,
            Err::<LoadedConfig, ConfigFault>(fault),
        ),
        Err(DocumentFault::Mapping(why)) => {
            &&& collection_loads(collection, parsed)
            &&& match mapping {
                Some(m) => m.complaint() == Some(why@),
                None => false,
            }
        },
        Err(DocumentFault::EmptyIndex) => {
            &&& collection_loads(collection, parsed)
            &&& mapping_reads(mapping)
            &&& match fields {
                Some(f) => f@.len() == 0,
                None => false,
            }
        },
        Err(DocumentFault::OddIndex(err)) => {
            &&& collection_loads(collection, parsed)
            &&& mapping_reads(mapping)
            &&& match fields {
                Some(f) => f@.len() > 0 && payload_index::first_odd_field(f@, 0) == Some(
                    err.field@,
                ),
                None => false,
            }
        },
        Err(DocumentFault::Disagreement(why)) => {
            &&& mapping_reads(mapping)
            &&& index_reads(fields)
            &&& exists|loaded: LoadedConfig| #[trigger]
                gates::loads(collection, parsed, Ok::<LoadedConfig, ConfigFault>(loaded)) && (
                match mapping {
                    Some(m) => disagreement(
                        loaded.config,
                        m,
                        match fields {
                            Some(schema) => Some(PayloadIndexSchema { schema }),
                            None => None,
                        },
                    ) == Some(why@),
                    None => false,
                })
        },
    }
}

/// Put a document together from its sections: `collection` as it is stated, what the collection's
/// own parser made of it, and the two sections that are read as they are.
pub fn from_sections(
    collection: &Json,
    parsed: ParseOutcome,
    mapping: Option<ParquetMapping>,
    fields: Option<NameMap<FieldSchema>>,
) -> (document: Result<Document, DocumentFault>)
    ensures
        reads(collection@, parsed, mapping, fields, document),
{
    let loaded = match gates::from_value(collection, parsed) {
        Ok(loaded) => loaded,
        Err(fault) => {
            return Err(DocumentFault::Collection(fault));
        },
    };
    assert(gates::loads(collection@, parsed, Ok::<LoadedConfig, ConfigFault>(loaded)));
    match &mapping {
        Some(mapping) => match mapping.validate() {
            Ok(()) => {},
            Err(why) => {
                return Err(DocumentFault::Mapping(why));
            },
        },
        None => {},
    }
    let payload_index = match fields {
        Some(schema) => {
            if schema.len() == 0 {
                return Err(DocumentFault::EmptyIndex);
            }
            Some(PayloadIndexSchema::from_fields(schema))
        },
        None => None,
    };
    let part_fingerprint = config::part_fingerprint(&loaded.config, mapping.as_ref());
    let fingerprint = match config::fingerprint(&loaded.config, payload_index.as_ref()) {
        Ok(fingerprint) => fingerprint,
        Err(err) => {
            return Err(DocumentFault::OddIndex(err));
        },
    };
    let document = Document {
        config: LoadedConfig { config: loaded.config, fingerprint, part_fingerprint },
        mapping,
        payload_index,
    };
    match document.check_sections_agree() {
        Ok(()) => {},
        Err(why) => {
            return Err(DocumentFault::Disagreement(why));
        },
    }
    Ok(document)
}

/// The sections of a document beside the collection as it is stated.
pub struct Sections {
    /// What the collection's own parser and validator made of the collection section.
    pub parsed: ParseOutcome,
    pub mapping: Option<ParquetMapping>,
    pub fields: Option<NameMap<FieldSchema>>,
}

/// The collection section of a text.
pub open spec fn collection_in(s: Seq<char>) -> Option<JsonValue> {
    match json::json_in(s) {
        Ok(JsonValue::Object(members)) => json::member(members, "collection"@),
        _ => None,
    }
}

/// Read a document from its text. `sections` is what is read of the text by its known sections, or
/// why it cannot be read so.
///
/// The likeliest mistake is to pass a bare collection config, which is named as such.
pub fn from_str(s: &str, sections: Result<Sections, String>) -> (document: Result<
    Document,
    DocumentFault,
>)
    ensures
        match (sections, collection_in(s@)) {
            (Ok(sections), Some(collection)) => reads(
                collection,
                sections.parsed,
                sections.mapping,
                sections.fields,
                document,
            ),
            (Ok(_), None) => document matches Err(DocumentFault::Unreadable(message)) && message@
                == "missing field `collection`"@,
            (Err(why), _) => document matches Err(DocumentFault::Unreadable(message)) && message@
                == unreadable_text(
                match json::json_in(s@) {
                    Ok(value) => Some(value),
                    Err(_) => None,
                },
                why@,
            ),
        },
{
    let value = json::parse(s);
    let sections = match sections {
        Ok(sections) => sections,
        Err(why) => {
            let bare: bool = match &value {
                Ok(value) => value.get("collection").is_none() && value.get("params").is_some(),
                Err(_) => false,
            };
            if bare {
                return Err(
                    DocumentFault::Unreadable(
                        "this looks like a bare collection config. The input is now a single document with the collection nested under a \"collection\" key, alongside \"mapping\" and an optional \"payload_index\":\n\n{\n  \"collection\": { ... this file ... },\n  \"mapping\": { ... },\n  \"payload_index\": { ... }\n}".to_owned(),
                    ),
                );
            }
            return Err(DocumentFault::Unreadable(why));
        },
    };
    let collection = match &value {
        Ok(value) => value.get("collection"),
        Err(_) => None,
    };
    match collection {
        Some(collection) => from_sections(
            collection,
            sections.parsed,
            sections.mapping,
            sections.fields,
        ),
        None => Err(DocumentFault::Unreadable("missing field `collection`".to_owned())),
    }
}

/// The sections of a document agree exactly where the mapping has a column for every vector of the
/// collection, dense and sparse, and produces no other, and every indexed field is among the payload
/// columns.
pub proof fn sections_agree_on_vectors_and_fields(
    config: config::CollectionConfig,
    mapping: ParquetMapping,
    payload_index: Option<PayloadIndexSchema>,
)
    ensures
        disagreement(config, mapping, payload_index) is None <==> {
            &&& forall|name: Seq<char>| #[trigger]
                names::has_key(config.vectors@, name) <==> names::has_key(
                    mapping.dense_vectors@,
                    name,
                )
            &&& forall|name: Seq<char>| #[trigger]
                names::has_key(config.sparse_vectors@, name) <==> names::has_key(
                    mapping.sparse_vectors@,
                    name,
                )
            &&& payload_index matches Some(schema) ==> forall|i: int|
                0 <= i < schema.schema@.len() ==> text::texts(mapping.payload_columns@).contains(
                    (#[trigger] schema.schema@[i]).0,
                )
        },
{
    names::lemma_same_names(config.vectors@, mapping.dense_vectors@);
    names::lemma_same_names(config.sparse_vectors@, mapping.sparse_vectors@);
    match payload_index {
        Some(schema) => {
            let fields = names::keys(schema.schema@);
            let columns = text::texts(mapping.payload_columns@);
            let unstored = names::left_out(fields, columns.to_set());
            names::lemma_left_out(fields, columns.to_set());
            if unstored.len() > 0 {
                assert(unstored.contains(unstored[0]));
                let i = fields.index_of(unstored[0]);
                assert(schema.schema@[i].0 == unstored[0]);
            } else {
                assert forall|i: int| 0 <= i < schema.schema@.len() implies columns.contains(
                    (#[trigger] schema.schema@[i]).0,
                ) by {
                    assert(fields[i] == schema.schema@[i].0);
                    assert(fields.contains(fields[i]));
                    assert(!unstored.contains(fields[i]));
                }
            }
        },
        None => {},
    }
}

/// A document is read exactly where its collection passes every gate, its mapping has a vector and
/// reads some rows at a time, its payload index declares fields and each by an object, and its
/// sections agree. It then holds its sections as they are, under fingerprints of the whole document.
pub proof fn a_document_is_read_where_every_section_is(
    collection: JsonValue,
    parsed: ParseOutcome,
    mapping: Option<ParquetMapping>,
    fields: Option<NameMap<FieldSchema>>,
    document: Result<Document, DocumentFault>,
)
    requires
        reads(collection, parsed, mapping, fields, document),
    ensures
        ({
            let indexes = match fields {
                Some(schema) => Some(PayloadIndexSchema { schema }),
                None => None,
            };
            let gated = {
                &&& gates::missing_lines(collection, gates::required_fields()).len() == 0
                &&& parsed matches ParseOutcome::Parsed { config, round_tripped }
                    && gates::impossible_lines(config).len() == 0 && gates::unknown_keys(
                    collection,
                    round_tripped@,
                    Seq::empty(),
                ).len() == 0
            };
            let mapped = mapping matches Some(m) ==> (m.dense_vectors@.len() > 0
                || m.sparse_vectors@.len() > 0) && m.batch_size >= 1;
            let indexed = fields matches Some(f) ==> f@.len() > 0 && forall|i: int|
                0 <= i < f@.len() ==> (#[trigger] f@[i]).1.expanded@ is Object;
            let agreed = mapping matches Some(m) ==> (parsed matches ParseOutcome::Parsed {
                config,
                ..
            } ==> disagreement(config, m, indexes) is None);
            &&& document is Ok <==> gated && mapped && indexed && agreed
            &&& document matches Ok(d) ==> (parsed matches ParseOutcome::Parsed { config, .. } && {
                &&& d.config.config == config
                &&& d.mapping == mapping
                &&& d.payload_index == indexes
                &&& d.config.fingerprint@ == config::fingerprint_of(
                    config::full_surface(config, indexes),
                )
                &&& d.config.part_fingerprint@ == config::fingerprint_of(
                    config::part_surface(config::routing_of(config, mapping)),
                )
            })
        }),
{
    match fields {
        Some(f) => payload_index::every_definition_has_to_be_an_object(f@),
        None => {},
    }
}

/// The collection section is what stands first under its name, and a text without one has none.
pub proof fn the_collection_stands_under_its_name(
    s: Seq<char>,
    before: Seq<(Seq<char>, JsonValue)>,
    collection: JsonValue,
    after: Seq<(Seq<char>, JsonValue)>,
)
    requires
        forall|i: int| 0 <= i < before.len() ==> (#[trigger] before[i]).0 != "collection"@,
    ensures
        json::json_in(s) == Ok::<JsonValue, Seq<char>>(
            JsonValue::Object(before + seq![("collection"@, collection)] + after),
        ) ==> collection_in(s) == Some(collection),
        json::json_in(s) == Ok::<JsonValue, Seq<char>>(JsonValue::Object(before))
            ==> collection_in(s) is None,
        is_bare_config(Some(JsonValue::Object(before))) <==> json::member(
            before,
            "params"@,
        ) is Some,
        !is_bare_config(
            Some(JsonValue::Object(before + seq![("collection"@, collection)] + after)),
        ),
        !is_bare_config(None),
    decreases before.len(),
{
    lemma_first_member(before, ("collection"@, collection), after);
}

proof fn lemma_first_member(
    before: Seq<(Seq<char>, JsonValue)>,
    entry: (Seq<char>, JsonValue),
    after: Seq<(Seq<char>, JsonValue)>,
)
    requires
        forall|i: int| 0 <= i < before.len() ==> (#[trigger] before[i]).0 != entry.0,
    ensures
        json::member(before + seq![entry] + after, entry.0) == Some(entry.1),
        json::member(before, entry.0) is None,
    decreases before.len(),
{
    let all = before + seq![entry] + after;
    if before.len() == 0 {
        assert(all[0] == entry);
    } else {
        assert(all[0] == before[0]);
        let rest = before.skip(1);
        assert forall|i: int| 0 <= i < rest.len() implies (#[trigger] rest[i]).0 != entry.0 by {
            assert(rest[i] == before[i + 1]);
        }
        assert(all.skip(1) =~= rest + seq![entry] + after);
        lemma_first_member(rest, entry, after);
    }
}

} // verus!
