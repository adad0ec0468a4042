//! The two reports: the delays of each carrier on one route, and the worst
//! airport by average departure delay and by average arrival delay.

use vstd::prelude::*;
use crate::ranking::{is_worst, lemma_worst_is_unique, rankable, worst_of};
use crate::record::{FlightRecord, FlightRecordView};
use crate::route::{is_valid_flight, matches_route, normalize, on_route};
use crate::summary::{
    accumulator_views, fold_record, keys_of, lemma_group_facts, record_views, summarize,
    summary_of, AccumulatorView, DelayAccumulator, GroupBy, Metric,
};
use crate::text::uppercase;

verus! {

/// What the carrier report holds for a route whose two names are already in
/// upper case: the arrival delays of the records on the route, by carrier.
pub open spec fn carrier_summary(
    records: Seq<FlightRecordView>,
    origin: Seq<char>,
    destination: Seq<char>,
) -> Seq<AccumulatorView> {
    summary_of(on_route(records, origin, destination), GroupBy::Carrier, Metric::Arrival)
}

/// The worst entry of a summary, or `None` for the summary of no records.
pub open spec fn worst_in(summary: Seq<AccumulatorView>, worst: Option<AccumulatorView>) -> bool {
    match worst {
        Some(a) => exists|i: int| is_worst(summary, i) && summary[i] == a,
        None => summary.len() == 0,
    }
}

/// The worst airport under each of the two metrics.
#[derive(Debug)]
pub struct WorstAirports {
    pub departure: Option<DelayAccumulator>,
    pub arrival: Option<DelayAccumulator>,
}

/// The value of an accumulator that may be missing.
pub open spec fn optional_view(a: Option<DelayAccumulator>) -> Option<AccumulatorView> {
    match a {
        Some(acc) => Some(acc@),
        None => None,
    }
}

/// Every entry of a summary has an average.
pub proof fn lemma_summary_rankable(records: Seq<FlightRecordView>, by: GroupBy, metric: Metric)
    ensures
        forall|i: int|
            0 <= i < summary_of(records, by, metric).len() ==> rankable(
                #[trigger] summary_of(records, by, metric)[i],
            ),
{
    assert forall|i: int| 0 <= i < summary_of(records, by, metric).len() implies rankable(
        #[trigger] summary_of(records, by, metric)[i],
    ) by {
        let key = keys_of(records, by)[i];
        lemma_group_facts(records, by, metric, key);
    }
}

/// The carrier report for a route whose two names are already in upper
/// case: every record on the route is folded into the accumulator of its
/// carrier, by its arrival delay.
pub fn carrier_delays(records: &Vec<FlightRecord>, origin: &str, destination: &str) -> (r: Vec<
    DelayAccumulator,
>)
    ensures
        accumulator_views(r@) == carrier_summary(record_views(records@), origin@, destination@),
{
    let mut accumulators: Vec<DelayAccumulator> = Vec::new();
    let ghost all = record_views(records@);
    let ghost on = |r: FlightRecordView| matches_route(r, origin@, destination@);
    let mut i: usize = 0;
    proof {
        reveal(Seq::filter);
        assert(all.take(0).filter(on) =~= Seq::<FlightRecordView>::empty());
        assert(accumulator_views(accumulators@) =~= carrier_summary(
            all.take(0),
            origin@,
            destination@,
        ));
    }
    while i < records.len()
        invariant
            i <= records.len(),
            all == record_views(records@),
            on == |r: FlightRecordView| matches_route(r, origin@, destination@),
            accumulator_views(accumulators@) == carrier_summary(
                all.take(i as int),
                origin@,
                destination@,
            ),
        decreases records.len() - i,
    {
        proof {
            assert(all.take(i as int).push(records[i as int]@) =~= all.take(i + 1));
            all.take(i as int).lemma_filter_push(records[i as int]@, on);
            all.take(i as int).lemma_filter_len(on);
        }
        if is_valid_flight(&records[i], origin, destination) {
            fold_record(
                &mut accumulators,
                &records[i],
                GroupBy::Carrier,
                Metric::Arrival,
                Ghost(all.take(i as int).filter(on)),
            );
        }
        i = i + 1;
    }
    proof {
        assert(all.take(i as int) =~= all);
    }
    accumulators
}

/// The carrier report for a requested route: the two names are brought to
/// upper case, and the records that fly the route are summarized by carrier
/// and arrival delay.
pub fn delays_by_airline(records: &Vec<FlightRecord>, origin: &str, destination: &str) -> (r: Vec<
    DelayAccumulator,
>)
    ensures
        accumulator_views(r@) == carrier_summary(
            record_views(records@),
            uppercase(origin@),
            uppercase(destination@),
        ),
{
    let origin = normalize(origin);
    let destination = normalize(destination);
    carrier_delays(records, origin.as_str(), destination.as_str())
}

/// The worst entry of a summary, copied out of it.
pub fn worst_entry(summary: &Vec<DelayAccumulator>) -> (r: Option<DelayAccumulator>)
    requires
        forall|i: int| 0 <= i < summary.len() ==> rankable(#[trigger] summary[i]@),
    ensures
        worst_in(accumulator_views(summary@), optional_view(r)),
{
    match worst_of(summary) {
        Some(i) => {
            let worst = summary[i].clone();
            proof {
                assert(accumulator_views(summary@)[i as int] == summary[i as int]@);
            }
            Some(worst)
        },
        None => None,
    }
}

/// The airport report. Both summaries group every record by its origin: the
/// first by departure delay, the second by arrival delay. Each gives its
/// worst entry, and none where there is no record.
pub fn worst_airports(records: &Vec<FlightRecord>) -> (r: WorstAirports)
    ensures
        worst_in(
            summary_of(record_views(records@), GroupBy::Origin, Metric::Departure),
            optional_view(r.departure),
        ),
        worst_in(
            summary_of(record_views(records@), GroupBy::Origin, Metric::Arrival),
            optional_view(r.arrival),
        ),
{
    let departures = summarize(records, GroupBy::Origin, Metric::Departure);
    let arrivals = summarize(records, GroupBy::Origin, Metric::Arrival);
    proof {
        lemma_summary_rankable(record_views(records@), GroupBy::Origin, Metric::Departure);
        lemma_summary_rankable(record_views(records@), GroupBy::Origin, Metric::Arrival);
        assert forall|i: int| 0 <= i < departures.len() implies rankable(
            #[trigger] departures[i]@,
        ) by {
            assert(accumulator_views(departures@)[i] == departures[i]@);
        }
        assert forall|i: int| 0 <= i < arrivals.len() implies rankable(#[trigger] arrivals[i]@) by {
            assert(accumulator_views(arrivals@)[i] == arrivals[i]@);
        }
    }
    WorstAirports { departure: worst_entry(&departures), arrival: worst_entry(&arrivals) }
}

/// A route that no record flies has an empty carrier report.
pub proof fn lemma_no_match_no_carrier(
    records: Seq<FlightRecordView>,
    origin: Seq<char>,
    destination: Seq<char>,
)
    requires
        forall|i: int|
            0 <= i < records.len() ==> !matches_route(#[trigger] records[i], origin, destination),
    ensures
        on_route(records, origin, destination).len() == 0,
        carrier_summary(records, origin, destination).len() == 0,
    decreases records.len(),
{
    reveal(Seq::filter);
    if records.len() > 0 {
        let rest = records.drop_last();
        assert forall|i: int| 0 <= i < rest.len() implies !matches_route(
            #[trigger] rest[i],
            origin,
            destination,
        ) by {
            assert(rest[i] == records[i]);
        }
        lemma_no_match_no_carrier(rest, origin, destination);
        assert(!matches_route(records[records.len() - 1], origin, destination));
    }
}

/// Summarizing is repeatable: two summaries of one record set have the same
/// entries in the same order, each with the same key, count, total and
/// maximum.
pub proof fn lemma_summary_repeatable(
    first: Seq<DelayAccumulator>,
    second: Seq<DelayAccumulator>,
    records: Seq<FlightRecordView>,
    by: GroupBy,
    metric: Metric,
)
    requires
        accumulator_views(first) == summary_of(records, by, metric),
        accumulator_views(second) == summary_of(records, by, metric),
    ensures
        first.len() == second.len(),
        forall|i: int|
            0 <= i < first.len() ==> {
                &&& (#[trigger] first[i]).key@ == second[i].key@
                &&& first[i].count == second[i].count
                &&& first[i].total == second[i].total
                &&& first[i].max == second[i].max
            },
{
    assert(accumulator_views(first).len() == first.len());
    assert(accumulator_views(second).len() == second.len());
    assert forall|i: int| 0 <= i < first.len() implies (#[trigger] first[i])@ == second[i]@ by {
        assert(accumulator_views(first)[i] == first[i]@);
        assert(accumulator_views(second)[i] == second[i]@);
    }
}

/// Selecting the worst is repeatable: two selections from one summary agree.
pub proof fn lemma_worst_repeatable(
    summary: Seq<AccumulatorView>,
    first: Option<AccumulatorView>,
    second: Option<AccumulatorView>,
)
    requires
        worst_in(summary, first),
        worst_in(summary, second),
    ensures
        first == second,
{
    if summary.len() > 0 {
        let i = choose|i: int| is_worst(summary, i) && summary[i] == first.unwrap();
        let j = choose|j: int| is_worst(summary, j) && summary[j] == second.unwrap();
        lemma_worst_is_unique(summary, i, j);
    }
}

} // verus!
