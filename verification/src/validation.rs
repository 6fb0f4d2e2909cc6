//! The way back and forth between a staging log and a validated OCEL log:
//! re-staging an existing log (`StagingLog::from_ocel`) and the validation
//! step (`StagingLog::into_ocel`), both described over a model of what an
//! OCEL log holds.

use vstd::prelude::*;
use vstd::utf8::encode_utf8;

use ocel::{Ocel, Violation};
use ocel_etl::StagingLog;

use crate::counts::bytes_less;
use crate::models::Timestamp;
use crate::staging::{apply_ops, staged, AttrKind, EventRecord, Schema, StagingOp, StagingView};

verus! {

#[verifier::external_type_specification]
#[verifier::external_body]
pub struct ExViolation(Violation);

/// An event of an OCEL log. An attribute value is its text when it is a
/// string, `None` when it is of another kind.
pub struct OcelEventRecord {
    pub id: Seq<char>,
    pub event_type: Seq<char>,
    pub time: Timestamp,
    pub attributes: Seq<(Seq<char>, Option<Seq<char>>)>,
    pub relations: Seq<(Seq<char>, Seq<char>)>,
}

/// An object of an OCEL log, with its dynamic attributes as (name, value,
/// time) and its `O2O` targets as (object id, qualifier).
pub struct OcelObjectRecord {
    pub id: Seq<char>,
    pub object_type: Seq<char>,
    pub attributes: Seq<(Seq<char>, Option<Seq<char>>, Timestamp)>,
    pub relations: Seq<(Seq<char>, Seq<char>)>,
}

/// What an OCEL log holds: event and object type declarations (name with
/// attribute names and kinds), events and objects, each in order.
pub struct OcelView {
    pub event_types: Seq<(Seq<char>, Seq<(Seq<char>, AttrKind)>)>,
    pub object_types: Seq<(Seq<char>, Seq<(Seq<char>, AttrKind)>)>,
    pub events: Seq<OcelEventRecord>,
    pub objects: Seq<OcelObjectRecord>,
}

/// The contents of an OCEL log.
pub uninterp spec fn ocel_view(log: Ocel) -> OcelView;

/// The attributes declared for type `name` by its last declaration among
/// `types`, none when it is not declared.
pub open spec fn declared_attributes(
    types: Seq<(Seq<char>, Seq<(Seq<char>, AttrKind)>)>,
    name: Seq<char>,
) -> Seq<(Seq<char>, AttrKind)>
    decreases types.len(),
{
    if types.len() == 0 {
        Seq::empty()
    } else if types.last().0 == name {
        types.last().1
    } else {
        declared_attributes(types.drop_last(), name)
    }
}

/// Whether type `name` is declared among `types`.
pub open spec fn type_declared(types: Seq<(Seq<char>, Seq<(Seq<char>, AttrKind)>)>, name: Seq<char>) -> bool {
    exists|i: int| 0 <= i < types.len() && types[i].0 == name
}

/// Whether attribute `attribute` is declared for type `name`.
pub open spec fn attribute_declared(
    types: Seq<(Seq<char>, Seq<(Seq<char>, AttrKind)>)>,
    name: Seq<char>,
    attribute: Seq<char>,
) -> bool {
    exists|j: int| 0 <= j < declared_attributes(types, name).len() && declared_attributes(types, name)[j].0 == attribute
}

/// Whether the log holds an object with id `id`.
pub open spec fn object_exists(v: OcelView, id: Seq<char>) -> bool {
    exists|i: int| 0 <= i < v.objects.len() && v.objects[i].id == id
}

/// What `Ocel::validate` accepts: object ids and event ids each unique;
/// every event and object of a declared type, with only attributes declared
/// for that type; every `E2O` and `O2O` target an object of the log.
pub open spec fn ocel_valid(v: OcelView) -> bool {
    &&& forall|i: int, j: int| 0 <= i < j < v.objects.len() ==> (#[trigger] v.objects[i]).id != (#[trigger] v.objects[j]).id
    &&& forall|i: int, j: int| 0 <= i < j < v.events.len() ==> (#[trigger] v.events[i]).id != (#[trigger] v.events[j]).id
    &&& forall|i: int| 0 <= i < v.events.len() ==> {
        &&& type_declared(v.event_types, (#[trigger] v.events[i]).event_type)
        &&& forall|a: int| 0 <= a < v.events[i].attributes.len() ==> attribute_declared(v.event_types, v.events[i].event_type, (#[trigger] v.events[i].attributes[a]).0)
        &&& forall|r: int| 0 <= r < v.events[i].relations.len() ==> object_exists(v, (#[trigger] v.events[i].relations[r]).0)
    }
    &&& forall|i: int| 0 <= i < v.objects.len() ==> {
        &&& type_declared(v.object_types, (#[trigger] v.objects[i]).object_type)
        &&& forall|a: int| 0 <= a < v.objects[i].attributes.len() ==> attribute_declared(v.object_types, v.objects[i].object_type, (#[trigger] v.objects[i].attributes[a]).0)
        &&& forall|r: int| 0 <= r < v.objects[i].relations.len() ==> object_exists(v, (#[trigger] v.objects[i].relations[r]).0)
    }
}

/// Whether every attribute value of the log is a string.
pub open spec fn all_text(v: OcelView) -> bool {
    &&& forall|i: int, j: int|
        0 <= i < v.events.len() && 0 <= j < v.events[i].attributes.len() ==> (#[trigger] v.events[i].attributes[j]).1 is Some
    &&& forall|i: int, j: int|
        0 <= i < v.objects.len() && 0 <= j < v.objects[i].attributes.len() ==> (#[trigger] v.objects[i].attributes[j]).1 is Some
}

// ---------------------------------------------------------------------------
// Re-staging.
// ---------------------------------------------------------------------------

/// Attribute kinds by name from declarations (a later declaration of a name wins).
pub open spec fn seed(defs: Seq<(Seq<char>, AttrKind)>) -> Map<Seq<char>, AttrKind>
    decreases defs.len(),
{
    if defs.len() == 0 {
        Map::empty()
    } else {
        seed(defs.drop_last()).insert(defs.last().0, defs.last().1)
    }
}

/// A schema seeded from type declarations (a later declaration of a type wins).
pub open spec fn seed_schema(types: Seq<(Seq<char>, Seq<(Seq<char>, AttrKind)>)>) -> Schema
    decreases types.len(),
{
    if types.len() == 0 {
        Map::empty()
    } else {
        seed_schema(types.drop_last()).insert(types.last().0, seed(types.last().1))
    }
}

/// The staging calls that re-stage one object: its type, its attribute
/// observations, then its links, in order.
pub open spec fn restage_object_ops(o: OcelObjectRecord) -> Seq<StagingOp> {
    seq![StagingOp::Upsert { id: o.id, object_type: o.object_type }] + o.attributes.map_values(
        |a: (Seq<char>, Option<Seq<char>>, Timestamp)|
            StagingOp::Attribute { id: o.id, name: a.0, value: a.1.unwrap(), time: a.2 },
    ) + o.relations.map_values(
        |r: (Seq<char>, Seq<char>)| StagingOp::Link { source: o.id, target: r.0, qualifier: r.1 },
    )
}

/// The staging calls that re-stage objects, in order.
pub open spec fn restage_objects_ops(objects: Seq<OcelObjectRecord>) -> Seq<StagingOp>
    decreases objects.len(),
{
    if objects.len() == 0 {
        Seq::empty()
    } else {
        restage_objects_ops(objects.drop_last()) + restage_object_ops(objects.last())
    }
}

/// An OCEL event as a staged event with string values.
pub open spec fn restaged_event(e: OcelEventRecord) -> EventRecord {
    EventRecord {
        id: e.id,
        event_type: e.event_type,
        time: e.time,
        attributes: e.attributes.map_values(|a: (Seq<char>, Option<Seq<char>>)| (a.0, a.1.unwrap())),
        relations: e.relations,
    }
}

/// The staging calls that re-stage events, in order.
pub open spec fn restage_events_ops(events: Seq<OcelEventRecord>) -> Seq<StagingOp> {
    events.map_values(|e: OcelEventRecord| StagingOp::Event { event: restaged_event(e) })
}

/// A staging log re-staged from a log whose values are all strings:
/// schemas seeded from the declarations, then every object, then every event.
pub open spec fn restaged(v: OcelView) -> StagingView {
    apply_ops(
        StagingView {
            events: Seq::empty(),
            objects: Seq::empty(),
            event_schema: seed_schema(v.event_types),
            object_schema: seed_schema(v.object_types),
            texts_only: true,
        },
        restage_objects_ops(v.objects) + restage_events_ops(v.events),
    )
}

/// `StagingLog::from_ocel`: re-stage a log so further data can merge into it.
/// For a log whose attribute values are all strings the result is exactly
/// `restaged`; for another log it is only known to hold other values.
#[verifier::external_body]
pub fn restage(log: Ocel) -> (s: StagingLog)
    ensures
        all_text(ocel_view(log)) ==> staged(s) == restaged(ocel_view(log)),
        !all_text(ocel_view(log)) ==> !staged(s).texts_only,
{
    StagingLog::from_ocel(log)
}

// ---------------------------------------------------------------------------
// validation.
// ---------------------------------------------------------------------------

/// Whether names are in strictly increasing byte order (the order of
/// `String` keys in a `BTreeMap`).
pub open spec fn names_in_order(names: Seq<Seq<char>>) -> bool {
    forall|i: int, j: int| 0 <= i < j < names.len() ==> bytes_less(encode_utf8(#[trigger] names[i]), encode_utf8(#[trigger] names[j]))
}

/// The keys of a map in byte order.
pub open spec fn sorted_names<V>(m: Map<Seq<char>, V>) -> Seq<Seq<char>> {
    choose|names: Seq<Seq<char>>| names_in_order(names) && names.to_set() == m.dom()
}

/// Type declarations from a schema: types in name order, each with its
/// attributes in name order.
pub open spec fn declarations(schema: Schema) -> Seq<(Seq<char>, Seq<(Seq<char>, AttrKind)>)> {
    sorted_names(schema).map_values(
        |t: Seq<char>| (t, sorted_names(schema[t]).map_values(|a: Seq<char>| (a, schema[t][a]))),
    )
}

/// Whether observation `a` sorts strictly before `b`: by time, then by name.
pub open spec fn observed_before(a: (Seq<char>, Option<Seq<char>>, Timestamp), b: (Seq<char>, Option<Seq<char>>, Timestamp)) -> bool {
    !a.2.spec_at_or_after(b.2) || (a.2 == b.2 && bytes_less(encode_utf8(a.0), encode_utf8(b.0)))
}

/// `sorted` (in order) with `x` placed after every observation that does not
/// sort after it: one step of a stable sort.
pub open spec fn insert_observation(
    sorted: Seq<(Seq<char>, Option<Seq<char>>, Timestamp)>,
    x: (Seq<char>, Option<Seq<char>>, Timestamp),
) -> Seq<(Seq<char>, Option<Seq<char>>, Timestamp)> {
    let p = sorted.filter(|y: (Seq<char>, Option<Seq<char>>, Timestamp)| !observed_before(x, y)).len() as int;
    sorted.take(p).push(x) + sorted.skip(p)
}

/// Observations stably sorted by time, then name.
pub open spec fn sort_observations(s: Seq<(Seq<char>, Option<Seq<char>>, Timestamp)>) -> Seq<(Seq<char>, Option<Seq<char>>, Timestamp)>
    decreases s.len(),
{
    if s.len() == 0 {
        s
    } else {
        insert_observation(sort_observations(s.drop_last()), s.last())
    }
}

/// Observations without repeats, each kept where it first occurs.
pub open spec fn first_occurrences(s: Seq<(Seq<char>, Seq<char>, Timestamp)>) -> Seq<(Seq<char>, Seq<char>, Timestamp)>
    decreases s.len(),
{
    if s.len() == 0 {
        s
    } else {
        let d = first_occurrences(s.drop_last());
        if d.contains(s.last()) {
            d
        } else {
            d.push(s.last())
        }
    }
}

/// Whether link `a` sorts strictly before `b`: by target, then qualifier.
pub open spec fn link_before(a: (Seq<char>, Seq<char>), b: (Seq<char>, Seq<char>)) -> bool {
    bytes_less(encode_utf8(a.0), encode_utf8(b.0)) || (a.0 == b.0 && bytes_less(encode_utf8(a.1), encode_utf8(b.1)))
}

/// The links of `links` in order, each once.
pub open spec fn sorted_links(links: Seq<(Seq<char>, Seq<char>)>) -> Seq<(Seq<char>, Seq<char>)> {
    choose|r: Seq<(Seq<char>, Seq<char>)>|
        (forall|i: int, j: int| 0 <= i < j < r.len() ==> link_before(#[trigger] r[i], #[trigger] r[j]))
            && r.to_set() == links.to_set()
}

/// A staged event as validation writes it (string values stay as they are).
pub open spec fn built_event(e: EventRecord) -> OcelEventRecord {
    OcelEventRecord {
        id: e.id,
        event_type: e.event_type,
        time: e.time,
        attributes: e.attributes.map_values(|a: (Seq<char>, Seq<char>)| (a.0, Some(a.1))),
        relations: e.relations,
    }
}

/// A staged object as validation writes it: repeated observations dropped,
/// observations sorted by time then name, links sorted and each kept once.
pub open spec fn built_object(o: crate::staging::ObjectRecord) -> OcelObjectRecord {
    OcelObjectRecord {
        id: o.id,
        object_type: o.object_type,
        attributes: sort_observations(
            first_occurrences(o.attributes).map_values(
                |a: (Seq<char>, Seq<char>, Timestamp)| (a.0, Some(a.1), a.2),
            ),
        ),
        relations: sorted_links(o.relations),
    }
}

/// The log validation builds from a staging log holding only string values.
pub open spec fn built_log(v: StagingView) -> OcelView {
    OcelView {
        event_types: declarations(v.event_schema),
        object_types: declarations(v.object_schema),
        events: v.events.map_values(|e: EventRecord| built_event(e)),
        objects: v.objects.map_values(|o: crate::staging::ObjectRecord| built_object(o)),
    }
}

/// `StagingLog::into_ocel`, validation. For a log holding only
/// string values it builds exactly `built_log` and succeeds exactly when
/// `Ocel::validate` accepts that; which violations it reports is not stated.
#[verifier::external_body]
pub fn into_valid_log(staging: StagingLog) -> (result: Result<Ocel, Vec<Violation>>)
    ensures
        staged(staging).texts_only ==> (result is Ok <==> ocel_valid(built_log(staged(staging)))),
        staged(staging).texts_only ==> (result matches Ok(log) ==> ocel_view(log) == built_log(staged(staging))),
{
    staging.into_ocel()
}

} // verus!
