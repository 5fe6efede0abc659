//! The whole run, from a document's bytes to the plan of file changes.
use vstd::prelude::*;

use crate::days::{days_of, event_days, group_by_day, keys_of, lemma_days_well_formed, lemma_one_bucket_per_day};
use crate::document::{document_events, read_events, CalendarError};
use crate::order::{ascending, sorted_instants};
use crate::plan::{index_text_of, plan_of, plan_output, representatives, Plan, PlanView};

verus! {

/// What a run is asked to do.
#[derive(Clone, Debug)]
pub struct Args {
    /// The calendar document to read; without one nothing is done.
    pub path: Option<String>,
    /// The output directory, ending in its separator.
    pub output_dir: String,
    /// How many of the earliest days stay on the device.
    pub limit_days: usize,
}

/// The plan of a run on a document's bytes.
pub open spec fn pipeline_of(doc: Seq<u8>, dir: Seq<char>, limit: nat) -> Result<PlanView, CalendarError> {
    match document_events(doc) {
        Ok(evs) => match days_of(evs) {
            Ok(bs) => plan_of(bs, dir, limit),
            Err(e) => Err(e),
        },
        Err(e) => Err(e),
    }
}

/// Reads the document, groups its events by day and plans the output files.
pub fn parse_ical(buf: &[u8], args: &Args) -> (r: Result<Plan, CalendarError>)
    ensures
        match r {
            Ok(p) => pipeline_of(buf@, args.output_dir@, args.limit_days as nat) == Ok::<PlanView, CalendarError>(p@),
            Err(e) => pipeline_of(buf@, args.output_dir@, args.limit_days as nat) == Err::<PlanView, CalendarError>(e),
        },
{
    let events = match read_events(buf) {
        Ok(evs) => evs,
        Err(e) => return Err(e),
    };
    let buckets = match group_by_day(&events) {
        Ok(bs) => bs,
        Err(e) => return Err(e),
    };
    plan_output(&buckets, &args.output_dir, args.limit_days)
}

/// Every day on which an event of the document starts gets its own file,
/// whatever the retention limit: there are as many day files as distinct
/// `DD.MM.YYYY` keys of the events' starts.
pub proof fn lemma_one_file_per_day(doc: Seq<u8>, dir: Seq<char>, limit: nat)
    requires
        pipeline_of(doc, dir, limit) is Ok,
    ensures
        pipeline_of(doc, dir, limit)->Ok_0.writes.len() == event_days(document_events(doc)->Ok_0).len(),
{
    let evs = document_events(doc)->Ok_0;
    lemma_one_bucket_per_day(evs);
}

/// The index lists at most `limit` instants, strictly ascending, one line
/// each: the earliest of the days' representative instants.
pub proof fn lemma_index_is_nearest_days(doc: Seq<u8>, dir: Seq<char>, limit: nat)
    requires
        pipeline_of(doc, dir, limit) is Ok,
    ensures
        ({
            let p = pipeline_of(doc, dir, limit)->Ok_0;
            let bs = days_of(document_events(doc)->Ok_0)->Ok_0;
            &&& p.kept.len() <= limit
            &&& forall|i: int, j: int| 0 <= i < j < p.kept.len() ==> p.kept[i] < p.kept[j]
            &&& p.kept == sorted_instants(representatives(bs)).take(p.kept.len() as int)
            &&& p.index == index_text_of(p.kept)
        }),
{
    let evs = document_events(doc)->Ok_0;
    let bs = days_of(evs)->Ok_0;
    lemma_days_well_formed(evs);
    let reps = representatives(bs);
    assert(reps.no_duplicates()) by {
        assert forall|a: int, b: int| 0 <= a < reps.len() && 0 <= b < reps.len() && a != b implies reps[a] != reps[b] by {
            assert(keys_of(bs)[a] != keys_of(bs)[b]);
        }
    }
    let s = sorted_instants(reps);
    reps.lemma_sort_by_ensures(ascending());
    reps.lemma_multiset_has_no_duplicates();
    s.lemma_multiset_has_no_duplicates_conv();
    reps.to_multiset_ensures();
    s.to_multiset_ensures();
    assert(s.len() == reps.len());
    let kept = pipeline_of(doc, dir, limit)->Ok_0.kept;
    assert(kept.len() <= s.len());
    assert forall|i: int, j: int| 0 <= i < j < kept.len() implies kept[i] < kept[j] by {
        assert(kept[i] == s[i] && kept[j] == s[j]);
        assert((ascending())(s[i], s[j]));
        assert(s[i] != s[j]);
    }
}

/// Planning is a function of its inputs: two runs on the same document,
/// directory and limit plan the same files with the same contents.
pub proof fn lemma_runs_agree(doc: Seq<u8>, dir: Seq<char>, limit: nat, first: PlanView, second: PlanView)
    requires
        pipeline_of(doc, dir, limit) == Ok::<PlanView, CalendarError>(first),
        pipeline_of(doc, dir, limit) == Ok::<PlanView, CalendarError>(second),
    ensures
        first == second,
{
}

} // verus!
