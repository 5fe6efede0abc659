//! Reading events out of a calendar document.
use vstd::prelude::*;

use crate::clock::{parse_wall_clock, wall_clock_seconds_of};

verus! {

/// Why a document could not be turned into day files.
#[derive(Clone, Copy, Debug, PartialEq, Eq, Structural)]
pub enum CalendarError {
    /// The document holds no line at all, so no calendar container.
    NoCalendar,
    /// The document does not open with a calendar container, or the first
    /// one does not parse.
    MalformedCalendar,
    /// A `DTSTART` or `DTEND` value is not a `YYYYMMDDTHHMMSS` timestamp.
    BadTimestamp,
    /// An instant has no calendar date.
    DayOutOfRange,
}

/// One `NAME:value` line of an event block.
#[derive(Clone, Debug)]
pub struct RawProperty {
    pub name: String,
    pub value: Option<String>,
}

impl View for RawProperty {
    type V = (Seq<char>, Option<Seq<char>>);

    open spec fn view(&self) -> (Seq<char>, Option<Seq<char>>) {
        (self.name@, opt_text_view(self.value))
    }
}

pub open spec fn opt_text_view(v: Option<String>) -> Option<Seq<char>> {
    match v {
        Some(s) => Some(s@),
        None => None,
    }
}

/// The property lines of each event block of a document's first calendar.
pub open spec fn blocks_view(blocks: Seq<Vec<RawProperty>>) -> Seq<Seq<(Seq<char>, Option<Seq<char>>)>> {
    blocks.map_values(|b: Vec<RawProperty>| b@.map_values(|p: RawProperty| p@))
}

pub open spec fn document_view(r: Result<Vec<Vec<RawProperty>>, CalendarError>) -> Result<
    Seq<Seq<(Seq<char>, Option<Seq<char>>)>>,
    CalendarError,
> {
    match r {
        Ok(b) => Ok(blocks_view(b@)),
        Err(e) => Err(e),
    }
}

/// The event blocks of the first calendar of a document, each as its property
/// lines, or why there is none.
pub uninterp spec fn first_calendar_of(doc: Seq<u8>) -> Result<
    Seq<Seq<(Seq<char>, Option<Seq<char>>)>>,
    CalendarError,
>;

/// Relies on ical's `IcalParser` (its first item, from `next`): `None` when
/// the document holds no line, an error when it does not open with a
/// calendar or that calendar does not parse, else the calendar's events with
/// their properties' names and values, in document order.
#[verifier::external_body]
pub(crate) fn read_first_calendar(doc: &[u8]) -> (r: Result<Vec<Vec<RawProperty>>, CalendarError>)
    ensures
        document_view(r) == first_calendar_of(doc@),
        r matches Err(e) ==> (e == CalendarError::NoCalendar || e == CalendarError::MalformedCalendar),
{
    match ical::IcalParser::new(doc).next() {
        None => Err(CalendarError::NoCalendar),
        Some(Err(_)) => Err(CalendarError::MalformedCalendar),
        Some(Ok(cal)) => Ok(cal.events.into_iter().map(|e| e.properties.into_iter().map(|p|
            RawProperty { name: p.name, value: p.value }).collect()).collect()),
    }
}

/// One calendar entry. Times are seconds since the Unix epoch, in UTC.
#[derive(Clone, Debug)]
pub struct Event {
    pub name: String,
    pub start_time: u64,
    pub end_time: u64,
    pub description: String,
    pub status: String,
}

impl Event {
    /// A field-by-field copy of the event.
    pub fn duplicate(&self) -> (r: Event)
        ensures
            r@ == self@,
    {
        Event {
            name: self.name.clone(),
            start_time: self.start_time,
            end_time: self.end_time,
            description: self.description.clone(),
            status: self.status.clone(),
        }
    }
}

pub struct EventView {
    pub name: Seq<char>,
    pub start_time: u64,
    pub end_time: u64,
    pub description: Seq<char>,
    pub status: Seq<char>,
}

impl View for Event {
    type V = EventView;

    open spec fn view(&self) -> EventView {
        EventView {
            name: self.name@,
            start_time: self.start_time,
            end_time: self.end_time,
            description: self.description@,
            status: self.status@,
        }
    }
}

/// An event with every field empty or zero.
pub open spec fn blank_event() -> EventView {
    EventView {
        name: Seq::empty(),
        start_time: 0,
        end_time: 0,
        description: Seq::empty(),
        status: Seq::empty(),
    }
}

/// The text of a property value; a property without one counts as empty.
pub open spec fn text_or_empty(v: Option<Seq<char>>) -> Seq<char> {
    match v {
        Some(s) => s,
        None => Seq::empty(),
    }
}

/// The epoch seconds of a timestamp property value, stored as unsigned.
pub open spec fn instant_of(v: Option<Seq<char>>) -> Option<u64> {
    match v {
        Some(s) => match wall_clock_seconds_of(s) {
            Some(t) => Some(t as u64),
            None => None,
        },
        None => None,
    }
}

/// The effect of one property line on the event being read.
pub open spec fn apply_property(ev: EventView, p: (Seq<char>, Option<Seq<char>>)) -> Result<
    EventView,
    CalendarError,
> {
    if p.0 == "SUMMARY"@ {
        Ok(EventView { name: text_or_empty(p.1), ..ev })
    } else if p.0 == "DTSTART"@ {
        match instant_of(p.1) {
            Some(t) => Ok(EventView { start_time: t, ..ev }),
            None => Err(CalendarError::BadTimestamp),
        }
    } else if p.0 == "DTEND"@ {
        match instant_of(p.1) {
            Some(t) => Ok(EventView { end_time: t, ..ev }),
            None => Err(CalendarError::BadTimestamp),
        }
    } else if p.0 == "STATUS"@ {
        Ok(EventView { status: text_or_empty(p.1), ..ev })
    } else if p.0 == "DESCRIPTION"@ {
        Ok(EventView { description: text_or_empty(p.1), ..ev })
    } else {
        Ok(ev)
    }
}

/// The event that an event block describes: its lines are applied in order,
/// a later line of a name overriding an earlier one, and the first bad
/// timestamp fails the block.
pub open spec fn event_of(props: Seq<(Seq<char>, Option<Seq<char>>)>) -> Result<EventView, CalendarError>
    decreases props.len(),
{
    if props.len() == 0 {
        Ok(blank_event())
    } else {
        match event_of(props.drop_last()) {
            Ok(ev) => apply_property(ev, props.last()),
            Err(e) => Err(e),
        }
    }
}

proof fn lemma_error_persists(props: Seq<(Seq<char>, Option<Seq<char>>)>, k: int)
    requires
        0 <= k <= props.len(),
        event_of(props.take(k)) is Err,
    ensures
        event_of(props) == event_of(props.take(k)),
    decreases props.len() - k,
{
    if k < props.len() {
        assert(props.take(k + 1).drop_last() == props.take(k));
        lemma_error_persists(props, k + 1);
    } else {
        assert(props.take(k) == props);
    }
}

fn text_is(a: &String, b: &str) -> (r: bool)
    ensures
        r == (a@ == b@),
{
    let t = String::from_str(b);
    a.eq(&t)
}

fn value_text(v: &Option<String>) -> (r: String)
    ensures
        r@ == text_or_empty(opt_text_view(*v)),
{
    match v {
        Some(s) => s.clone(),
        None => String::new(),
    }
}

fn value_instant(v: &Option<String>) -> (r: Option<u64>)
    ensures
        r == instant_of(opt_text_view(*v)),
{
    match v {
        Some(s) => match parse_wall_clock(s.as_str()) {
            Some(t) => Some(t as u64),
            None => None,
        },
        None => None,
    }
}

/// Reads one event block.
pub fn event_from_properties(props: &Vec<RawProperty>) -> (r: Result<Event, CalendarError>)
    ensures
        match r {
            Ok(ev) => event_of(props@.map_values(|p: RawProperty| p@)) == Ok::<EventView, CalendarError>(ev@),
            Err(e) => event_of(props@.map_values(|p: RawProperty| p@)) == Err::<EventView, CalendarError>(e),
        },
{
    let ghost pv = props@.map_values(|p: RawProperty| p@);
    let mut ev = Event {
        name: String::new(),
        start_time: 0,
        end_time: 0,
        description: String::new(),
        status: String::new(),
    };
    let mut i: usize = 0;
    while i < props.len()
        invariant
            i <= props@.len(),
            pv == props@.map_values(|p: RawProperty| p@),
            event_of(pv.take(i as int)) == Ok::<EventView, CalendarError>(ev@),
        decreases props@.len() - i,
    {
        let p = &props[i];
        assert(pv.take(i + 1).drop_last() == pv.take(i as int));
        assert(pv.take(i + 1).last() == p@);
        if text_is(&p.name, "SUMMARY") {
            ev.name = value_text(&p.value);
        } else if text_is(&p.name, "DTSTART") {
            match value_instant(&p.value) {
                Some(t) => ev.start_time = t,
                None => {
                    proof {
                        lemma_error_persists(pv, i + 1);
                    }
                    return Err(CalendarError::BadTimestamp);
                },
            }
        } else if text_is(&p.name, "DTEND") {
            match value_instant(&p.value) {
                Some(t) => ev.end_time = t,
                None => {
                    proof {
                        lemma_error_persists(pv, i + 1);
                    }
                    return Err(CalendarError::BadTimestamp);
                },
            }
        } else if text_is(&p.name, "STATUS") {
            ev.status = value_text(&p.value);
        } else if text_is(&p.name, "DESCRIPTION") {
            ev.description = value_text(&p.value);
        }
        i = i + 1;
    }
    assert(pv.take(props@.len() as int) == pv);
    Ok(ev)
}

/// The events of a sequence of event blocks, in order; the first block that
/// fails to read fails the whole sequence.
pub open spec fn events_of(blocks: Seq<Seq<(Seq<char>, Option<Seq<char>>)>>) -> Result<
    Seq<EventView>,
    CalendarError,
>
    decreases blocks.len(),
{
    if blocks.len() == 0 {
        Ok(Seq::empty())
    } else {
        match events_of(blocks.drop_last()) {
            Ok(es) => match event_of(blocks.last()) {
                Ok(e) => Ok(es.push(e)),
                Err(e) => Err(e),
            },
            Err(e) => Err(e),
        }
    }
}

/// The events of a document: those of its first calendar.
pub open spec fn document_events(doc: Seq<u8>) -> Result<Seq<EventView>, CalendarError> {
    match first_calendar_of(doc) {
        Ok(blocks) => events_of(blocks),
        Err(e) => Err(e),
    }
}

pub open spec fn events_view(evs: Seq<Event>) -> Seq<EventView> {
    evs.map_values(|e: Event| e@)
}

proof fn lemma_events_error_persists(blocks: Seq<Seq<(Seq<char>, Option<Seq<char>>)>>, k: int)
    requires
        0 <= k <= blocks.len(),
        events_of(blocks.take(k)) is Err,
    ensures
        events_of(blocks) == events_of(blocks.take(k)),
    decreases blocks.len() - k,
{
    if k < blocks.len() {
        assert(blocks.take(k + 1).drop_last() == blocks.take(k));
        lemma_events_error_persists(blocks, k + 1);
    } else {
        assert(blocks.take(k) == blocks);
    }
}

/// Reads the events of the first calendar of a document, in document order.
pub fn read_events(doc: &[u8]) -> (r: Result<Vec<Event>, CalendarError>)
    ensures
        match r {
            Ok(evs) => document_events(doc@) == Ok::<Seq<EventView>, CalendarError>(events_view(evs@)),
            Err(e) => document_events(doc@) == Err::<Seq<EventView>, CalendarError>(e),
        },
{
    let blocks = match read_first_calendar(doc) {
        Ok(b) => b,
        Err(e) => return Err(e),
    };
    let ghost bv = blocks_view(blocks@);
    let mut evs: Vec<Event> = Vec::new();
    assert(events_view(evs@) =~= Seq::<EventView>::empty());
    assert(bv.take(0) =~= Seq::<Seq<(Seq<char>, Option<Seq<char>>)>>::empty());
    let mut i: usize = 0;
    while i < blocks.len()
        invariant
            i <= blocks@.len(),
            bv == blocks_view(blocks@),
            first_calendar_of(doc@) == Ok::<Seq<Seq<(Seq<char>, Option<Seq<char>>)>>, CalendarError>(bv),
            events_of(bv.take(i as int)) == Ok::<Seq<EventView>, CalendarError>(events_view(evs@)),
        decreases blocks@.len() - i,
    {
        assert(bv.take(i + 1).drop_last() == bv.take(i as int));
        assert(bv.take(i + 1).last() == blocks@[i as int]@.map_values(|p: RawProperty| p@));
        match event_from_properties(&blocks[i]) {
            Ok(ev) => {
                let ghost before = evs@;
                evs.push(ev);
                assert(events_view(evs@) =~= events_view(before).push(ev@));
            },
            Err(e) => {
                proof {
                    assert(events_of(bv.take(i + 1)) == Err::<Seq<EventView>, CalendarError>(e));
                    lemma_events_error_persists(bv, i + 1);
                }
                return Err(e);
            },
        }
        i = i + 1;
    }
    assert(bv.take(blocks@.len() as int) == bv);
    Ok(evs)
}

} // verus!
