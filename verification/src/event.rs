//! The event record and its mathematical view.

use vstd::prelude::*;

verus! {

/// One forensic record.  Every field is optional; a field that was missing
/// or unreadable in the source row is `None`.
#[derive(Debug, Clone, PartialEq, Eq, Hash)]
pub struct ChainsawEvent {
    pub timestamp: Option<String>,
    pub detections: Option<String>,
    pub path: Option<String>,
    pub event_id: Option<u32>,
    pub record_id: Option<u32>,
    pub computer: Option<String>,
    pub user: Option<String>,
    pub user_sid: Option<String>,
    pub member_sid: Option<String>,
}

/// What an event is to the contracts: each text field as a sequence of
/// characters.
pub struct EventView {
    pub timestamp: Option<Seq<char>>,
    pub detections: Option<Seq<char>>,
    pub path: Option<Seq<char>>,
    pub event_id: Option<u32>,
    pub record_id: Option<u32>,
    pub computer: Option<Seq<char>>,
    pub user: Option<Seq<char>>,
    pub user_sid: Option<Seq<char>>,
    pub member_sid: Option<Seq<char>>,
}

/// The characters of an optional text.
pub open spec fn text_of(field: Option<String>) -> Option<Seq<char>> {
    match field {
        Some(s) => Some(s@),
        None => None,
    }
}

impl View for ChainsawEvent {
    type V = EventView;

    open spec fn view(&self) -> EventView {
        EventView {
            timestamp: text_of(self.timestamp),
            detections: text_of(self.detections),
            path: text_of(self.path),
            event_id: self.event_id,
            record_id: self.record_id,
            computer: text_of(self.computer),
            user: text_of(self.user),
            user_sid: text_of(self.user_sid),
            member_sid: text_of(self.member_sid),
        }
    }
}

/// The views of a list of events, in order.
pub open spec fn views(events: Seq<ChainsawEvent>) -> Seq<EventView> {
    Seq::new(events.len(), |i: int| events[i]@)
}

/// The text fields of an event that a search looks into.
#[derive(Debug, Clone, Copy, PartialEq, Eq, Structural)]
pub enum Field {
    Timestamp,
    Detections,
    Path,
    Computer,
    User,
    UserSid,
    MemberSid,
}

/// The number of searchable fields.
pub const SEARCHABLE_FIELDS: usize = 7;

/// The searchable fields, in the order in which a search visits them.
pub open spec fn searchable() -> Seq<Field> {
    seq![
        Field::Timestamp,
        Field::Detections,
        Field::Path,
        Field::Computer,
        Field::User,
        Field::UserSid,
        Field::MemberSid,
    ]
}

/// The `i`-th searchable field.
pub fn searchable_field(i: usize) -> (field: Field)
    requires
        i < SEARCHABLE_FIELDS,
    ensures
        field == searchable()[i as int],
{
    if i == 0 {
        Field::Timestamp
    } else if i == 1 {
        Field::Detections
    } else if i == 2 {
        Field::Path
    } else if i == 3 {
        Field::Computer
    } else if i == 4 {
        Field::User
    } else if i == 5 {
        Field::UserSid
    } else {
        Field::MemberSid
    }
}

/// The value of a text field, if the event has it.
pub open spec fn field_of(ev: EventView, field: Field) -> Option<Seq<char>> {
    match field {
        Field::Timestamp => ev.timestamp,
        Field::Detections => ev.detections,
        Field::Path => ev.path,
        Field::Computer => ev.computer,
        Field::User => ev.user,
        Field::UserSid => ev.user_sid,
        Field::MemberSid => ev.member_sid,
    }
}

/// A field as a search reads it: an absent field is the empty text.
pub open spec fn shown(field: Option<Seq<char>>) -> Seq<char> {
    match field {
        Some(s) => s,
        None => Seq::empty(),
    }
}

/// A copy of an optional text.
pub fn copy_text(field: &Option<String>) -> (out: Option<String>)
    ensures
        out == *field,
{
    match field {
        Some(s) => Some(s.clone()),
        None => None,
    }
}

impl ChainsawEvent {
    /// An event with no field set.
    pub fn empty() -> (ev: ChainsawEvent)
        ensures
            ev@ == (EventView {
                timestamp: None,
                detections: None,
                path: None,
                event_id: None,
                record_id: None,
                computer: None,
                user: None,
                user_sid: None,
                member_sid: None,
            }),
    {
        ChainsawEvent {
            timestamp: None,
            detections: None,
            path: None,
            event_id: None,
            record_id: None,
            computer: None,
            user: None,
            user_sid: None,
            member_sid: None,
        }
    }

    /// The stored value of a text field.
    pub fn text(&self, field: Field) -> (out: &Option<String>)
        ensures
            text_of(*out) == field_of(self@, field),
    {
        match field {
            Field::Timestamp => &self.timestamp,
            Field::Detections => &self.detections,
            Field::Path => &self.path,
            Field::Computer => &self.computer,
            Field::User => &self.user,
            Field::UserSid => &self.user_sid,
            Field::MemberSid => &self.member_sid,
        }
    }

    /// A copy of the event, field by field.
    pub fn duplicate(&self) -> (out: ChainsawEvent)
        ensures
            out == *self,
    {
        ChainsawEvent {
            timestamp: copy_text(&self.timestamp),
            detections: copy_text(&self.detections),
            path: copy_text(&self.path),
            event_id: self.event_id,
            record_id: self.record_id,
            computer: copy_text(&self.computer),
            user: copy_text(&self.user),
            user_sid: copy_text(&self.user_sid),
            member_sid: copy_text(&self.member_sid),
        }
    }
}

/// A copy of a list of events.
pub fn copy_events(events: &[ChainsawEvent]) -> (out: Vec<ChainsawEvent>)
    ensures
        out@ == events@,
{
    let mut out: Vec<ChainsawEvent> = Vec::new();
    let mut i: usize = 0;
    while i < events.len()
        invariant
            i <= events.len(),
            out@ == events@.take(i as int),
        decreases events.len() - i,
    {
        out.push(events[i].duplicate());
        proof {
            assert(events@.take(i + 1) =~= events@.take(i as int).push(events@[i as int]));
        }
        i += 1;
    }
    assert(events@.take(events.len() as int) =~= events@);
    out
}

} // verus!
