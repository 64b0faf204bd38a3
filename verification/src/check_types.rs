//! Noticing a file that holds another kind of content than the one asked for
//! (vehicle positions, trip updates or alerts), so that the reader can be
//! told where to find it.

use crate::model::{FeedMessage, SpecFeedMessage};
use vstd::prelude::*;

verus! {

/// The kinds of content a feed is read for.
#[derive(Debug, PartialEq, Eq, Structural, Clone, Copy)]
pub enum MessageType {
    Positions,
    Updates,
    Alerts,
}

pub open spec fn message_type_text(t: MessageType) -> Seq<char> {
    match t {
        MessageType::Positions => "vehicle positions."@,
        MessageType::Updates => "trip updates."@,
        MessageType::Alerts => "alerts."@,
    }
}

impl MessageType {
    /// How the kind is named in a message.
    pub fn to_text(&self) -> (r: &'static str)
        ensures
            r@ == message_type_text(*self),
    {
        match self {
            MessageType::Positions => "vehicle positions.",
            MessageType::Updates => "trip updates.",
            MessageType::Alerts => "alerts.",
        }
    }
}

pub open spec fn has_positions(m: SpecFeedMessage) -> bool {
    exists|i: int| 0 <= i < m.entity.len() && (#[trigger] m.entity[i]).vehicle is Some
}

pub open spec fn has_updates(m: SpecFeedMessage) -> bool {
    exists|i: int| 0 <= i < m.entity.len() && (#[trigger] m.entity[i]).trip_update is Some
}

pub open spec fn has_alerts(m: SpecFeedMessage) -> bool {
    exists|i: int| 0 <= i < m.entity.len() && (#[trigger] m.entity[i]).alert is Some
}

/// The kinds of content other than `expected` that `m` holds, in the order
/// positions, updates, alerts.
pub open spec fn unexpected_types(m: SpecFeedMessage, expected: MessageType) -> Seq<MessageType> {
    (if expected != MessageType::Positions && has_positions(m) {
        seq![MessageType::Positions]
    } else {
        Seq::empty()
    }) + (if expected != MessageType::Updates && has_updates(m) {
        seq![MessageType::Updates]
    } else {
        Seq::empty()
    }) + (if expected != MessageType::Alerts && has_alerts(m) {
        seq![MessageType::Alerts]
    } else {
        Seq::empty()
    })
}

/// The kinds of content other than `expected_type` that `msg` holds, each of
/// which the reader is to be told of.
pub fn check_types(msg: &FeedMessage, expected_type: MessageType) -> (r: Vec<MessageType>)
    ensures
        r@ == unexpected_types(msg.deep_view(), expected_type),
{
    let es = &msg.entity;
    let ghost m = msg.deep_view();
    let mut positions = false;
    let mut updates = false;
    let mut alerts = false;
    let mut i: usize = 0;
    while i < es.len()
        invariant
            0 <= i <= es@.len(),
            m == msg.deep_view(),
            es == &msg.entity,
            positions == exists|k: int| 0 <= k < i && (#[trigger] m.entity[k]).vehicle is Some,
            updates == exists|k: int| 0 <= k < i && (#[trigger] m.entity[k]).trip_update is Some,
            alerts == exists|k: int| 0 <= k < i && (#[trigger] m.entity[k]).alert is Some,
        decreases es@.len() - i,
    {
        assert(m.entity[i as int] == es@[i as int].deep_view());
        if es[i].vehicle.is_some() {
            positions = true;
        }
        if es[i].trip_update.is_some() {
            updates = true;
        }
        if es[i].alert.is_some() {
            alerts = true;
        }
        i += 1;
    }
    let mut r: Vec<MessageType> = Vec::new();
    if expected_type != MessageType::Positions && positions {
        r.push(MessageType::Positions);
    }
    if expected_type != MessageType::Updates && updates {
        r.push(MessageType::Updates);
    }
    if expected_type != MessageType::Alerts && alerts {
        r.push(MessageType::Alerts);
    }
    assert(r@ =~= unexpected_types(m, expected_type));
    r
}

/// Whether one of the entities of `m` holds content of kind `t`.
pub open spec fn holds_kind(m: SpecFeedMessage, t: MessageType) -> bool {
    exists|i: int|
        0 <= i < m.entity.len() && match t {
            MessageType::Positions => (#[trigger] m.entity[i]).vehicle is Some,
            MessageType::Updates => m.entity[i].trip_update is Some,
            MessageType::Alerts => m.entity[i].alert is Some,
        }
}

/// The kinds reported are exactly those other than the one asked for that
/// some entity of the feed holds, each once.
pub proof fn lemma_unexpected_types(m: SpecFeedMessage, expected: MessageType)
    ensures
        unexpected_types(m, expected).no_duplicates(),
        forall|t: MessageType|
            #[trigger] unexpected_types(m, expected).contains(t) <==> (t != expected && holds_kind(m, t)),
{
    let r = unexpected_types(m, expected);
    assert forall|t: MessageType| #[trigger] r.contains(t) <==> (t != expected && holds_kind(m, t)) by {
        if r.contains(t) {
            let k = choose|k: int| 0 <= k < r.len() && r[k] == t;
        }
        match t {
            MessageType::Positions => {
                if t != expected && holds_kind(m, t) {
                    assert(has_positions(m));
                    assert(r[0] == t);
                }
            },
            MessageType::Updates => {
                if t != expected && holds_kind(m, t) {
                    assert(has_updates(m));
                    let p = if expected != MessageType::Positions && has_positions(m) { 1int } else { 0int };
                    assert(r[p] == t);
                }
            },
            MessageType::Alerts => {
                if t != expected && holds_kind(m, t) {
                    assert(has_alerts(m));
                    assert(r[r.len() - 1] == t);
                }
            },
        }
    }
}

} // verus!
