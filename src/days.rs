//! Grouping events into calendar days.
use vstd::prelude::*;

use crate::clock::{day_key, day_key_of};
use crate::document::{events_view, CalendarError, Event, EventView};

verus! {

/// The events of one calendar day, in document order, with the start of the
/// first of them, which stands for the day when days are ordered.
#[derive(Clone, Debug)]
pub struct DayBucket {
    pub key: String,
    pub first_start: u64,
    pub events: Vec<Event>,
}

pub struct BucketView {
    pub key: Seq<char>,
    pub first_start: u64,
    pub events: Seq<EventView>,
}

impl View for DayBucket {
    type V = BucketView;

    open spec fn view(&self) -> BucketView {
        BucketView { key: self.key@, first_start: self.first_start, events: events_view(self.events@) }
    }
}

pub open spec fn buckets_view(bs: Seq<DayBucket>) -> Seq<BucketView> {
    bs.map_values(|b: DayBucket| b@)
}

/// The position of the first bucket with the given key, or -1.
pub open spec fn find_day(bs: Seq<BucketView>, key: Seq<char>) -> int
    decreases bs.len(),
{
    if bs.len() == 0 {
        -1
    } else {
        let j = find_day(bs.drop_last(), key);
        if j >= 0 {
            j
        } else if bs.last().key == key {
            bs.len() - 1
        } else {
            -1
        }
    }
}

/// Files one event: into the bucket of its day where there is one, else into
/// a new bucket at the end, which the event's start then stands for.
pub open spec fn add_event(bs: Seq<BucketView>, e: EventView) -> Result<Seq<BucketView>, CalendarError> {
    match day_key_of(e.start_time) {
        None => Err(CalendarError::DayOutOfRange),
        Some(k) => {
            let j = find_day(bs, k);
            if j >= 0 {
                Ok(bs.update(j, BucketView { events: bs[j].events.push(e), ..bs[j] }))
            } else {
                Ok(bs.push(BucketView { key: k, first_start: e.start_time, events: seq![e] }))
            }
        },
    }
}

/// The day buckets of a sequence of events, filed in order.
pub open spec fn days_of(evs: Seq<EventView>) -> Result<Seq<BucketView>, CalendarError>
    decreases evs.len(),
{
    if evs.len() == 0 {
        Ok(Seq::empty())
    } else {
        match days_of(evs.drop_last()) {
            Ok(bs) => add_event(bs, evs.last()),
            Err(e) => Err(e),
        }
    }
}

proof fn lemma_find_day_absent(bs: Seq<BucketView>, key: Seq<char>)
    requires
        forall|k: int| 0 <= k < bs.len() ==> bs[k].key != key,
    ensures
        find_day(bs, key) == -1,
    decreases bs.len(),
{
    if bs.len() > 0 {
        lemma_find_day_absent(bs.drop_last(), key);
    }
}

proof fn lemma_find_day_at(bs: Seq<BucketView>, key: Seq<char>, j: int)
    requires
        0 <= j < bs.len(),
        bs[j].key == key,
        forall|k: int| 0 <= k < j ==> bs[k].key != key,
    ensures
        find_day(bs, key) == j,
    decreases bs.len(),
{
    if j < bs.len() - 1 {
        lemma_find_day_at(bs.drop_last(), key, j);
    } else {
        lemma_find_day_absent(bs.drop_last(), key);
    }
}

proof fn lemma_days_error_persists(evs: Seq<EventView>, k: int)
    requires
        0 <= k <= evs.len(),
        days_of(evs.take(k)) is Err,
    ensures
        days_of(evs) == days_of(evs.take(k)),
    decreases evs.len() - k,
{
    if k < evs.len() {
        assert(evs.take(k + 1).drop_last() == evs.take(k));
        lemma_days_error_persists(evs, k + 1);
    } else {
        assert(evs.take(k) == evs);
    }
}

/// Groups events by the UTC day of their start, keeping document order within
/// each day and the order in which days first appear.
pub fn group_by_day(events: &Vec<Event>) -> (r: Result<Vec<DayBucket>, CalendarError>)
    ensures
        match r {
            Ok(bs) => days_of(events_view(events@)) == Ok::<Seq<BucketView>, CalendarError>(buckets_view(bs@)),
            Err(e) => days_of(events_view(events@)) == Err::<Seq<BucketView>, CalendarError>(e),
        },
{
    let ghost ev = events_view(events@);
    let mut buckets: Vec<DayBucket> = Vec::new();
    assert(buckets_view(buckets@) =~= Seq::<BucketView>::empty());
    assert(ev.take(0) =~= Seq::<EventView>::empty());
    let mut i: usize = 0;
    while i < events.len()
        invariant
            i <= events@.len(),
            ev == events_view(events@),
            days_of(ev.take(i as int)) == Ok::<Seq<BucketView>, CalendarError>(buckets_view(buckets@)),
        decreases events@.len() - i,
    {
        let e = &events[i];
        assert(ev.take(i + 1).drop_last() == ev.take(i as int));
        assert(ev.take(i + 1).last() == e@);
        let key = match day_key(e.start_time) {
            Some(k) => k,
            None => {
                proof {
                    assert(days_of(ev.take(i + 1)) == Err::<Seq<BucketView>, CalendarError>(CalendarError::DayOutOfRange));
                    lemma_days_error_persists(ev, i + 1);
                }
                return Err(CalendarError::DayOutOfRange);
            },
        };
        let ghost bv = buckets_view(buckets@);
        let mut j: usize = 0;
        while j < buckets.len()
            invariant
                j <= buckets@.len(),
                bv == buckets_view(buckets@),
                forall|k: int| 0 <= k < j ==> bv[k].key != key@,
            ensures
                j <= buckets@.len(),
                forall|k: int| 0 <= k < j ==> bv[k].key != key@,
                j < buckets@.len() ==> bv[j as int].key == key@,
            decreases buckets@.len() - j,
        {
            if buckets[j].key.eq(&key) {
                break;
            }
            j = j + 1;
        }
        if j < buckets.len() {
            proof {
                lemma_find_day_at(bv, key@, j as int);
            }
            let mut b = buckets.remove(j);
            b.events.push(e.duplicate());
            assert(events_view(b.events@) =~= bv[j as int].events.push(e@));
            buckets.insert(j, b);
            assert(buckets_view(buckets@) =~= bv.update(j as int, BucketView { events: bv[j as int].events.push(e@), ..bv[j as int] }));
        } else {
            proof {
                lemma_find_day_absent(bv, key@);
            }
            let mut first: Vec<Event> = Vec::new();
            first.push(e.duplicate());
            assert(events_view(first@) =~= seq![e@]);
            buckets.push(DayBucket { key, first_start: e.start_time, events: first });
            assert(buckets_view(buckets@) =~= bv.push(BucketView { key: key@, first_start: e@.start_time, events: seq![e@] }));
        }
        i = i + 1;
    }
    assert(ev.take(events@.len() as int) == ev);
    Ok(buckets)
}

/// The day keys of a sequence of buckets, in order.
pub open spec fn keys_of(bs: Seq<BucketView>) -> Seq<Seq<char>> {
    bs.map_values(|b: BucketView| b.key)
}

/// The distinct `DD.MM.YYYY` keys of the days on which events start.
pub open spec fn event_days(evs: Seq<EventView>) -> Set<Seq<char>> {
    Set::new(|k: Seq<char>| exists|i: int| 0 <= i < evs.len() && day_key_of(#[trigger] evs[i].start_time) == Some(k))
}

/// What holds of every bucket list that filing events builds.
pub open spec fn well_formed_days(bs: Seq<BucketView>) -> bool {
    &&& keys_of(bs).no_duplicates()
    &&& forall|k: int| 0 <= k < bs.len() ==> day_key_of(#[trigger] bs[k].first_start) == Some(bs[k].key)
    &&& forall|k: int| 0 <= k < bs.len() ==> (#[trigger] bs[k].events).len() > 0
}

proof fn lemma_find_day_result(bs: Seq<BucketView>, key: Seq<char>)
    ensures
        -1 <= find_day(bs, key) < bs.len(),
        find_day(bs, key) >= 0 ==> bs[find_day(bs, key)].key == key,
        find_day(bs, key) == -1 ==> forall|k: int| 0 <= k < bs.len() ==> bs[k].key != key,
    decreases bs.len(),
{
    if bs.len() > 0 {
        lemma_find_day_result(bs.drop_last(), key);
        if find_day(bs, key) == -1 {
            assert forall|k: int| 0 <= k < bs.len() implies bs[k].key != key by {
                if k < bs.len() - 1 {
                    assert(bs.drop_last()[k] == bs[k]);
                }
            }
        }
    }
}

/// Filing keeps one bucket per day, keyed by the day of its first start,
/// and no bucket empty; the keys are those of the events' days.
pub proof fn lemma_days_well_formed(evs: Seq<EventView>)
    requires
        days_of(evs) is Ok,
    ensures
        well_formed_days(days_of(evs)->Ok_0),
        keys_of(days_of(evs)->Ok_0).to_set() == event_days(evs),
    decreases evs.len(),
{
    if evs.len() == 0 {
        assert(keys_of(days_of(evs)->Ok_0).to_set() =~= event_days(evs));
    } else {
        let pre = evs.drop_last();
        let e = evs.last();
        lemma_days_well_formed(pre);
        let bs = days_of(pre)->Ok_0;
        let k = day_key_of(e.start_time)->Some_0;
        let nbs = days_of(evs)->Ok_0;
        lemma_find_day_result(bs, k);
        let j = find_day(bs, k);
        assert forall|x: Seq<char>| event_days(evs).contains(x) <==> event_days(pre).insert(k).contains(x) by {
            if event_days(evs).contains(x) {
                let i = choose|i: int| 0 <= i < evs.len() && day_key_of(#[trigger] evs[i].start_time) == Some(x);
                if i < pre.len() {
                    assert(pre[i] == evs[i]);
                }
            }
            if event_days(pre).contains(x) {
                let i = choose|i: int| 0 <= i < pre.len() && day_key_of(#[trigger] pre[i].start_time) == Some(x);
                assert(evs[i] == pre[i]);
            }
            if x == k {
                assert(evs[evs.len() - 1] == e);
            }
        }
        assert(event_days(evs) =~= event_days(pre).insert(k));
        if j >= 0 {
            assert(keys_of(nbs) =~= keys_of(bs));
            assert(keys_of(bs).contains(k)) by {
                assert(keys_of(bs)[j] == k);
            }
            assert(keys_of(nbs).to_set() =~= event_days(evs));
        } else {
            assert(keys_of(nbs) =~= keys_of(bs).push(k));
            assert forall|a: int, b: int| 0 <= a < b < keys_of(nbs).len() implies keys_of(nbs)[a] != keys_of(nbs)[b] by {
                if b == bs.len() {
                    assert(bs[a].key != k);
                }
            }
            keys_of(bs).lemma_push_to_set_commute(k);
        }
    }
}

/// Every day on which an event starts gets exactly one bucket: there are as
/// many buckets as distinct day keys among the events' starts.
pub proof fn lemma_one_bucket_per_day(evs: Seq<EventView>)
    requires
        days_of(evs) is Ok,
    ensures
        days_of(evs)->Ok_0.len() == event_days(evs).len(),
        keys_of(days_of(evs)->Ok_0).to_set() == event_days(evs),
{
    lemma_days_well_formed(evs);
    keys_of(days_of(evs)->Ok_0).unique_seq_to_set();
}

/// Whether an event starts on the day with the given key.
pub open spec fn starts_on(key: Seq<char>) -> spec_fn(EventView) -> bool {
    |e: EventView| day_key_of(e.start_time) == Some(key)
}

/// Each day's bucket holds exactly the events that start on that day, in
/// document order, and the day stands for the start of the first of them.
pub proof fn lemma_bucket_contents(evs: Seq<EventView>, k: int)
    requires
        days_of(evs) is Ok,
        0 <= k < days_of(evs)->Ok_0.len(),
    ensures
        days_of(evs)->Ok_0[k].events == evs.filter(starts_on(days_of(evs)->Ok_0[k].key)),
        days_of(evs)->Ok_0[k].first_start == days_of(evs)->Ok_0[k].events[0].start_time,
    decreases evs.len(),
{
    let pre = evs.drop_last();
    let e = evs.last();
    let bs = days_of(pre)->Ok_0;
    let nbs = days_of(evs)->Ok_0;
    let ek = day_key_of(e.start_time)->Some_0;
    let key = nbs[k].key;
    let p = starts_on(key);
    assert(evs == pre.push(e));
    pre.lemma_filter_push(e, p);
    lemma_days_well_formed(pre);
    lemma_find_day_result(bs, ek);
    let j = find_day(bs, ek);
    if k < bs.len() {
        lemma_bucket_contents(pre, k);
        if j == k {
            assert(key == ek);
        } else if j >= 0 {
            assert(keys_of(bs)[j] != keys_of(bs)[k]);
            assert(nbs[k] == bs[k]);
        } else {
            assert(nbs[k] == bs[k]);
        }
    } else {
        assert(j == -1);
        assert(key == ek);
        if pre.filter(p).len() > 0 {
            let x = pre.filter(p)[0];
            pre.lemma_filter_pred(p, 0);
            pre.lemma_filter_contains_rev(p, x);
            let i = choose|i: int| 0 <= i < pre.len() && pre[i] == x;
            assert(event_days(pre).contains(ek));
            assert(keys_of(bs).contains(ek));
            let m = choose|m: int| 0 <= m < keys_of(bs).len() && keys_of(bs)[m] == ek;
            assert(bs[m].key == ek);
        }
        assert(pre.filter(p) =~= Seq::<EventView>::empty());
        assert(nbs[k].events =~= evs.filter(p));
    }
}

} // verus!
