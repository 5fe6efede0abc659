//! Deciding which files to write and which to delete.
use vstd::prelude::*;

use crate::clock::{day_key, day_key_of};
use crate::days::{buckets_view, BucketView, DayBucket};
use crate::document::{events_view, CalendarError, Event, EventView};
use crate::order::{sort_instants, sorted_instants};

verus! {

/// The character of a decimal digit.
pub open spec fn digit_char(d: int) -> char {
    seq!['0', '1', '2', '3', '4', '5', '6', '7', '8', '9'][d]
}

/// The decimal digits of a natural number, without leading zeros.
pub open spec fn decimal_of(n: nat) -> Seq<char>
    decreases n,
{
    if n < 10 {
        seq![digit_char(n as int)]
    } else {
        decimal_of(n / 10).push(digit_char((n % 10) as int))
    }
}

/// Relies on std's `to_string` of a `u64` (its `Display`): the number's
/// decimal digits, with no sign and no leading zeros.
#[verifier::external_body]
fn decimal_text(n: u64) -> (r: String)
    ensures
        r@ == decimal_of(n as nat),
{
    n.to_string()
}

/// The index file: one decimal line per instant, in the order given.
pub open spec fn index_text_of(vals: Seq<u64>) -> Seq<char>
    decreases vals.len(),
{
    if vals.len() == 0 {
        Seq::empty()
    } else {
        index_text_of(vals.drop_last()) + decimal_of(vals.last() as nat) + seq!['\n']
    }
}

/// Renders instants as the index file's text.
pub fn index_text(vals: &Vec<u64>) -> (r: String)
    ensures
        r@ == index_text_of(vals@),
{
    let mut text = String::new();
    let mut i: usize = 0;
    while i < vals.len()
        invariant
            i <= vals@.len(),
            text@ == index_text_of(vals@.take(i as int)),
        decreases vals@.len() - i,
    {
        assert(vals@.take(i + 1).drop_last() == vals@.take(i as int));
        let d = decimal_text(vals[i]);
        text.append(d.as_str());
        proof {
            reveal_strlit("\n");
        }
        text.append("\n");
        i = i + 1;
    }
    assert(vals@.take(vals@.len() as int) == vals@);
    text
}

fn join_path(dir: &String, name: &str) -> (r: String)
    ensures
        r@ == dir@ + name@,
{
    let mut p = dir.clone();
    p.append(name);
    p
}

/// A day file to write: where, and the day's events.
#[derive(Clone, Debug)]
pub struct DayFile {
    pub path: String,
    pub key: String,
    pub events: Vec<Event>,
}

pub struct DayFileView {
    pub path: Seq<char>,
    pub key: Seq<char>,
    pub events: Seq<EventView>,
}

impl View for DayFile {
    type V = DayFileView;

    open spec fn view(&self) -> DayFileView {
        DayFileView { path: self.path@, key: self.key@, events: events_view(self.events@) }
    }
}

/// What a run does to the output directory: write every day file, delete
/// the files of the days past the retention limit, and write the index of
/// the retained days.
#[derive(Clone, Debug)]
pub struct Plan {
    pub writes: Vec<DayFile>,
    pub deletions: Vec<String>,
    pub kept: Vec<u64>,
    pub index_path: String,
    pub index: String,
}

pub struct PlanView {
    pub writes: Seq<DayFileView>,
    pub deletions: Seq<Seq<char>>,
    pub kept: Seq<u64>,
    pub index_path: Seq<char>,
    pub index: Seq<char>,
}

impl View for Plan {
    type V = PlanView;

    open spec fn view(&self) -> PlanView {
        PlanView {
            writes: self.writes@.map_values(|f: DayFile| f@),
            deletions: self.deletions@.map_values(|s: String| s@),
            kept: self.kept@,
            index_path: self.index_path@,
            index: self.index@,
        }
    }
}

/// The instant that stands for each day, in bucket order.
pub open spec fn representatives(bs: Seq<BucketView>) -> Seq<u64> {
    bs.map_values(|b: BucketView| b.first_start)
}

/// How many days are retained: the limit, or all days where there are fewer.
pub open spec fn retained_count(n: nat, limit: nat) -> nat {
    if limit < n {
        limit
    } else {
        n
    }
}

/// The retained days' instants: the earliest ones, up to the limit, ascending.
pub open spec fn retained(bs: Seq<BucketView>, limit: nat) -> Seq<u64> {
    sorted_instants(representatives(bs)).take(retained_count(bs.len(), limit) as int)
}

/// The instants of the days past the limit, ascending.
pub open spec fn expired(bs: Seq<BucketView>, limit: nat) -> Seq<u64> {
    sorted_instants(representatives(bs)).skip(retained_count(bs.len(), limit) as int)
}

pub open spec fn all_dated(ts: Seq<u64>) -> bool {
    forall|i: int| 0 <= i < ts.len() ==> (#[trigger] day_key_of(ts[i])) is Some
}

/// The file of an expired day, found again from its instant's UTC date. Day
/// files are named by the UTC date of their first start, so both names are
/// one date as long as keys and deletions are formatted alike.
pub open spec fn deletion_paths(dir: Seq<char>, ts: Seq<u64>) -> Seq<Seq<char>> {
    ts.map_values(|t: u64| dir + day_key_of(t)->Some_0)
}

pub open spec fn day_file_of(dir: Seq<char>, b: BucketView) -> DayFileView {
    DayFileView { path: dir + b.key, key: b.key, events: b.events }
}

pub open spec fn index_name() -> Seq<char> {
    seq!['i', 'n', 'd', 'e', 'x', '.', 't', 'x', 't']
}

/// The plan for a list of day buckets, an output directory (ending in its
/// separator) and a retention limit.
pub open spec fn plan_of(bs: Seq<BucketView>, dir: Seq<char>, limit: nat) -> Result<PlanView, CalendarError> {
    if all_dated(expired(bs, limit)) {
        Ok(
            PlanView {
                writes: bs.map_values(|b: BucketView| day_file_of(dir, b)),
                deletions: deletion_paths(dir, expired(bs, limit)),
                kept: retained(bs, limit),
                index_path: dir + index_name(),
                index: index_text_of(retained(bs, limit)),
            },
        )
    } else {
        Err(CalendarError::DayOutOfRange)
    }
}

fn copy_events(evs: &Vec<Event>) -> (r: Vec<Event>)
    ensures
        events_view(r@) == events_view(evs@),
{
    let mut r: Vec<Event> = Vec::new();
    let mut i: usize = 0;
    while i < evs.len()
        invariant
            i <= evs@.len(),
            events_view(r@) == events_view(evs@.take(i as int)),
        decreases evs@.len() - i,
    {
        let ghost r0 = r@;
        r.push(evs[i].duplicate());
        assert(events_view(r@) =~= events_view(r0).push(evs@[i as int]@));
        assert(evs@.take(i + 1) =~= evs@.take(i as int).push(evs@[i as int]));
        assert(events_view(evs@.take(i + 1)) =~= events_view(evs@.take(i as int)).push(evs@[i as int]@));
        i = i + 1;
    }
    assert(evs@.take(evs@.len() as int) == evs@);
    r
}

/// Plans the output for the day buckets: every day is written, the days past
/// the `limit_days` earliest are deleted, and the retained days are indexed.
pub fn plan_output(buckets: &Vec<DayBucket>, output_dir: &String, limit_days: usize) -> (r: Result<Plan, CalendarError>)
    ensures
        match r {
            Ok(p) => plan_of(buckets_view(buckets@), output_dir@, limit_days as nat) == Ok::<PlanView, CalendarError>(p@),
            Err(e) => plan_of(buckets_view(buckets@), output_dir@, limit_days as nat) == Err::<PlanView, CalendarError>(e),
        },
{
    let ghost bv = buckets_view(buckets@);
    let mut writes: Vec<DayFile> = Vec::new();
    let mut reps: Vec<u64> = Vec::new();
    let mut i: usize = 0;
    while i < buckets.len()
        invariant
            i <= buckets@.len(),
            bv == buckets_view(buckets@),
            writes@.map_values(|f: DayFile| f@) == bv.take(i as int).map_values(|b: BucketView| day_file_of(output_dir@, b)),
            reps@ == representatives(bv.take(i as int)),
        decreases buckets@.len() - i,
    {
        let b = &buckets[i];
        let path = join_path(output_dir, b.key.as_str());
        let f = DayFile { path, key: b.key.clone(), events: copy_events(&b.events) };
        assert(f@ == day_file_of(output_dir@, bv[i as int]));
        let ghost w0 = writes@;
        writes.push(f);
        reps.push(b.first_start);
        assert(writes@.map_values(|f: DayFile| f@) =~= w0.map_values(|f: DayFile| f@).push(f@));
        assert(bv.take(i + 1) =~= bv.take(i as int).push(bv[i as int]));
        assert(writes@.map_values(|f: DayFile| f@) =~= bv.take(i + 1).map_values(|b: BucketView| day_file_of(output_dir@, b)));
        assert(reps@ =~= representatives(bv.take(i + 1)));
        i = i + 1;
    }
    assert(bv.take(buckets@.len() as int) == bv);
    let sorted = sort_instants(&reps);
    let n = sorted.len();
    let lim: usize = if limit_days < n { limit_days } else { n };
    assert(lim == retained_count(bv.len(), limit_days as nat));
    assert(sorted@ == sorted_instants(representatives(bv)));
    let mut kept: Vec<u64> = Vec::new();
    let mut k: usize = 0;
    while k < lim
        invariant
            k <= lim <= sorted@.len(),
            kept@ == sorted@.take(k as int),
        decreases lim - k,
    {
        kept.push(sorted[k]);
        assert(kept@ =~= sorted@.take(k + 1));
        k = k + 1;
    }
    let mut deletions: Vec<String> = Vec::new();
    let mut d: usize = lim;
    while d < n
        invariant
            lim <= d <= n,
            n == sorted@.len(),
            lim == retained_count(bv.len(), limit_days as nat),
            sorted@ == sorted_instants(representatives(bv)),
            bv == buckets_view(buckets@),
            all_dated(sorted@.subrange(lim as int, d as int)),
            deletions@.map_values(|s: String| s@) == deletion_paths(output_dir@, sorted@.subrange(lim as int, d as int)),
        decreases n - d,
    {
        let key = match day_key(sorted[d]) {
            Some(key) => key,
            None => {
                assert(sorted@.skip(lim as int)[d - lim] == sorted@[d as int]);
                return Err(CalendarError::DayOutOfRange);
            },
        };
        let ghost d0 = deletions@;
        let path = join_path(output_dir, key.as_str());
        assert(path@ == output_dir@ + day_key_of(sorted@[d as int])->Some_0);
        deletions.push(path);
        assert(deletions@.map_values(|s: String| s@) =~= d0.map_values(|s: String| s@).push(path@));
        assert(sorted@.subrange(lim as int, d + 1) =~= sorted@.subrange(lim as int, d as int).push(sorted@[d as int]));
        assert(deletions@.map_values(|s: String| s@) =~= deletion_paths(output_dir@, sorted@.subrange(lim as int, d + 1)));
        d = d + 1;
    }
    assert(sorted@.subrange(lim as int, n as int) =~= sorted@.skip(lim as int));
    let index = index_text(&kept);
    proof {
        reveal_strlit("index.txt");
    }
    let index_path = join_path(output_dir, "index.txt");
    assert("index.txt"@ =~= index_name());
    let p = Plan { writes, deletions, kept, index_path, index };
    assert(p@.writes =~= bv.map_values(|b: BucketView| day_file_of(output_dir@, b)));
    Ok(p)
}

} // verus!
