//! The staging log of `ocel_etl`, seen through a model of what it holds.
//!
//! `StagingLog` keeps its events in insertion order, its objects in the order
//! their ids were first seen (one slot per id), and, per event type and per
//! object type, the attribute names observed with their declared kind. Every
//! value this library stages is a string, so an observation declares the
//! attribute as a string.

use vstd::prelude::*;

use chrono::DateTime;
use ocel::AttrValue;
use ocel_etl::{StagingEvent, StagingLog};

use crate::models::Timestamp;

verus! {

#[verifier::external_type_specification]
#[verifier::external_body]
pub struct ExStagingLog(StagingLog);

/// The declared kind of an attribute (the variants of `ocel::AttrType`).
pub enum AttrKind {
    String,
    Integer,
    Float,
    Boolean,
    Time,
}

/// A staged event: id, type, time, attribute name/value pairs and `E2O`
/// targets as (object id, qualifier).
pub struct EventRecord {
    pub id: Seq<char>,
    pub event_type: Seq<char>,
    pub time: Timestamp,
    pub attributes: Seq<(Seq<char>, Seq<char>)>,
    pub relations: Seq<(Seq<char>, Seq<char>)>,
}

/// A staged object: id, type (empty for a placeholder), attribute
/// observations as (name, value, time) and `O2O` targets as (object id, qualifier).
pub struct ObjectRecord {
    pub id: Seq<char>,
    pub object_type: Seq<char>,
    pub attributes: Seq<(Seq<char>, Seq<char>, Timestamp)>,
    pub relations: Seq<(Seq<char>, Seq<char>)>,
}

/// Attribute names and kinds observed per event or object type.
pub type Schema = Map<Seq<char>, Map<Seq<char>, AttrKind>>;

/// What a staging log holds.
pub struct StagingView {
    pub events: Seq<EventRecord>,
    pub objects: Seq<ObjectRecord>,
    pub event_schema: Schema,
    pub object_schema: Schema,
    /// Whether every attribute value in the log is a string (the values above
    /// are their text; a log holding other values is not fully described).
    pub texts_only: bool,
}

/// The contents of a staging log.
pub uninterp spec fn staged(log: StagingLog) -> StagingView;

/// One call on a staging log.
pub enum StagingOp {
    /// `upsert_object(id, object_type)`
    Upsert { id: Seq<char>, object_type: Seq<char> },
    /// `add_object_attribute(id, name, value, time)` with a string value
    Attribute { id: Seq<char>, name: Seq<char>, value: Seq<char>, time: Timestamp },
    /// `add_o2o(source, target, qualifier)`
    Link { source: Seq<char>, target: Seq<char>, qualifier: Seq<char> },
    /// `add_event(event)` with string attribute values
    Event { event: EventRecord },
}

/// The log holding nothing.
pub open spec fn empty_view() -> StagingView {
    StagingView {
        events: Seq::empty(),
        objects: Seq::empty(),
        event_schema: Map::empty(),
        object_schema: Map::empty(),
        texts_only: true,
    }
}

/// Whether an object with id `id` is staged.
pub open spec fn has_object(objects: Seq<ObjectRecord>, id: Seq<char>) -> bool {
    exists|i: int| 0 <= i < objects.len() && objects[i].id == id
}

/// The slot of object `id`.
pub open spec fn slot(objects: Seq<ObjectRecord>, id: Seq<char>) -> int {
    choose|i: int| 0 <= i < objects.len() && objects[i].id == id
}

/// The objects after making sure `id` has a slot (a typeless placeholder at
/// the end when it had none).
pub open spec fn with_slot(objects: Seq<ObjectRecord>, id: Seq<char>) -> Seq<ObjectRecord> {
    if has_object(objects, id) {
        objects
    } else {
        objects.push(
            ObjectRecord { id, object_type: Seq::empty(), attributes: Seq::empty(), relations: Seq::empty() },
        )
    }
}

/// The attribute kinds declared for `key`, none when it is absent.
pub open spec fn schema_of(schema: Schema, key: Seq<char>) -> Map<Seq<char>, AttrKind> {
    if schema.contains_key(key) {
        schema[key]
    } else {
        Map::empty()
    }
}

/// Whether some attribute in `attributes` is named `name`.
pub open spec fn names_attribute(attributes: Seq<(Seq<char>, Seq<char>)>, name: Seq<char>) -> bool {
    exists|i: int| 0 <= i < attributes.len() && attributes[i].0 == name
}

/// `kinds` after observing the string attributes `attributes`.
pub open spec fn observe_strings(
    kinds: Map<Seq<char>, AttrKind>,
    attributes: Seq<(Seq<char>, Seq<char>)>,
) -> Map<Seq<char>, AttrKind> {
    Map::new(
        |name: Seq<char>| kinds.contains_key(name) || names_attribute(attributes, name),
        |name: Seq<char>|
            if names_attribute(attributes, name) {
                AttrKind::String
            } else {
                kinds[name]
            },
    )
}

/// The log after one call.
pub open spec fn apply_op(v: StagingView, op: StagingOp) -> StagingView {
    match op {
        StagingOp::Upsert { id, object_type } => {
            let objects = with_slot(v.objects, id);
            let i = slot(objects, id);
            let object = objects[i];
            let typed = if object.object_type.len() == 0 {
                ObjectRecord { object_type, ..object }
            } else {
                object
            };
            StagingView {
                objects: objects.update(i, typed),
                object_schema: if v.object_schema.contains_key(object_type) {
                    v.object_schema
                } else {
                    v.object_schema.insert(object_type, Map::empty())
                },
                ..v
            }
        },
        StagingOp::Attribute { id, name, value, time } => {
            let objects = with_slot(v.objects, id);
            let i = slot(objects, id);
            let object = objects[i];
            let object_type = object.object_type;
            StagingView {
                objects: objects.update(
                    i,
                    ObjectRecord { attributes: object.attributes.push((name, value, time)), ..object },
                ),
                object_schema: if object_type.len() > 0 {
                    v.object_schema.insert(
                        object_type,
                        schema_of(v.object_schema, object_type).insert(name, AttrKind::String),
                    )
                } else {
                    v.object_schema
                },
                ..v
            }
        },
        StagingOp::Link { source, target, qualifier } => {
            let objects = with_slot(v.objects, source);
            let i = slot(objects, source);
            let object = objects[i];
            StagingView {
                objects: objects.update(
                    i,
                    ObjectRecord { relations: object.relations.push((target, qualifier)), ..object },
                ),
                ..v
            }
        },
        StagingOp::Event { event } => StagingView {
            events: v.events.push(event),
            event_schema: v.event_schema.insert(
                event.event_type,
                observe_strings(schema_of(v.event_schema, event.event_type), event.attributes),
            ),
            ..v
        },
    }
}

/// The log after a sequence of calls, in order.
pub open spec fn apply_ops(v: StagingView, ops: Seq<StagingOp>) -> StagingView
    decreases ops.len(),
{
    if ops.len() == 0 {
        v
    } else {
        apply_op(apply_ops(v, ops.drop_last()), ops.last())
    }
}

/// Applying `a` then `b` is applying `a + b`.
pub proof fn lemma_apply_ops_append(v: StagingView, a: Seq<StagingOp>, b: Seq<StagingOp>)
    ensures
        apply_ops(apply_ops(v, a), b) == apply_ops(v, a + b),
    decreases b.len(),
{
    if b.len() == 0 {
        assert(a + b == a);
    } else {
        lemma_apply_ops_append(v, a, b.drop_last());
        assert((a + b).drop_last() == a + b.drop_last());
        assert((a + b).last() == b.last());
    }
}

/// Applying `ops` then `op` is applying `ops.push(op)`.
pub proof fn lemma_apply_ops_push(v: StagingView, ops: Seq<StagingOp>, op: StagingOp)
    ensures
        apply_op(apply_ops(v, ops), op) == apply_ops(v, ops.push(op)),
{
    assert(ops.push(op).drop_last() == ops);
}

/// Applying nothing changes nothing.
pub proof fn lemma_apply_none(v: StagingView)
    ensures
        apply_ops(v, Seq::empty()) == v,
{
}

/// Applying one call.
pub proof fn lemma_apply_one(v: StagingView, a: StagingOp)
    ensures
        apply_ops(v, seq![a]) == apply_op(v, a),
{
    let s = seq![a];
    assert(s.drop_last() == Seq::<StagingOp>::empty());
    assert(s.last() == a);
    assert(apply_ops(v, s.drop_last()) == v);
}

/// Applying two calls.
pub proof fn lemma_apply_two(v: StagingView, a: StagingOp, b: StagingOp)
    ensures
        apply_ops(v, seq![a, b]) == apply_op(apply_op(v, a), b),
{
    lemma_apply_one(v, a);
    let s = seq![a, b];
    assert(s.drop_last() == seq![a]);
    assert(s.last() == b);
}

/// An event to stage, with string attribute values.
pub struct StagedEvent {
    pub id: String,
    pub event_type: String,
    pub time: Timestamp,
    pub attributes: Vec<(String, String)>,
    pub relations: Vec<(String, String)>,
}

/// The text of each side of string pairs.
pub open spec fn pair_texts(pairs: Seq<(String, String)>) -> Seq<(Seq<char>, Seq<char>)> {
    pairs.map_values(|p: (String, String)| (p.0@, p.1@))
}

impl View for StagedEvent {
    type V = EventRecord;

    open spec fn view(&self) -> EventRecord {
        EventRecord {
            id: self.id@,
            event_type: self.event_type@,
            time: self.time,
            attributes: pair_texts(self.attributes@),
            relations: pair_texts(self.relations@),
        }
    }
}

/// `StagingLog::new`: a log that holds nothing.
#[verifier::external_body]
pub fn new_log() -> (log: StagingLog)
    ensures
        staged(log) == empty_view(),
{
    StagingLog::new()
}

/// `StagingLog::upsert_object`: gives `id` a slot if it has none, sets the
/// object's type if it has none yet, and declares the object type.
#[verifier::external_body]
pub fn upsert_object(log: &mut StagingLog, id: &str, object_type: &str)
    ensures
        staged(*final(log)) == apply_op(
            staged(*old(log)),
            StagingOp::Upsert { id: id@, object_type: object_type@ },
        ),
{
    log.upsert_object(id, object_type);
}

/// `StagingLog::add_object_attribute` with a string value: appends the
/// observation to the object (a placeholder when unseen) and, for a typed
/// object, declares the attribute as a string.
#[verifier::external_body]
pub fn add_object_attribute(log: &mut StagingLog, id: &str, name: &str, value: String, time: Timestamp)
    ensures
        staged(*final(log)) == apply_op(
            staged(*old(log)),
            StagingOp::Attribute { id: id@, name: name@, value: value@, time },
        ),
{
    let time = DateTime::from_timestamp(time.secs(), time.nanos()).unwrap_or_default();
    log.add_object_attribute(id, name, AttrValue::String(value), time);
}

/// `StagingLog::add_o2o`: appends the relation to the source object (a
/// placeholder when unseen).
#[verifier::external_body]
pub fn add_o2o(log: &mut StagingLog, source: &str, target: &str, qualifier: &str)
    ensures
        staged(*final(log)) == apply_op(
            staged(*old(log)),
            StagingOp::Link { source: source@, target: target@, qualifier: qualifier@ },
        ),
{
    log.add_o2o(source, target, qualifier);
}

/// `StagingLog::add_event` with string attribute values: appends the event
/// and declares its attributes as strings under its type.
#[verifier::external_body]
pub fn add_event(log: &mut StagingLog, event: StagedEvent)
    ensures
        staged(*final(log)) == apply_op(staged(*old(log)), StagingOp::Event { event: event@ }),
{
    log.add_event(StagingEvent {
        id: event.id,
        event_type: event.event_type,
        time: DateTime::from_timestamp(event.time.secs(), event.time.nanos()).unwrap_or_default(),
        attributes: event.attributes.into_iter().map(|(n, v)| (n, AttrValue::String(v))).collect(),
        relations: event.relations,
    });
}

} // verus!
