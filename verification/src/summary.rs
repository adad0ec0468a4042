//! Grouping records by a key and reducing each group to the count, the total
//! and the maximum of one of its delays.

use vstd::prelude::*;
use crate::record::{FlightRecord, FlightRecordView};
use crate::text::same_text;

verus! {

/// The field by which records are grouped.
#[derive(Clone, Copy, Debug)]
pub enum GroupBy {
    Carrier,
    Origin,
}

/// The delay that is accumulated.
#[derive(Clone, Copy, Debug)]
pub enum Metric {
    Departure,
    Arrival,
}

/// The key of a record under a grouping.
pub open spec fn key_of(r: FlightRecordView, by: GroupBy) -> Seq<char> {
    match by {
        GroupBy::Carrier => r.carrier,
        GroupBy::Origin => r.origin,
    }
}

/// What a delay counts for in a total: a delay that was not reported counts
/// as zero minutes.
pub open spec fn delay_value(delay: Option<i32>) -> int {
    match delay {
        Some(d) => d as int,
        None => 0,
    }
}

/// The delay of a record under a metric, a missing one taken as zero.
pub open spec fn delay_of(r: FlightRecordView, metric: Metric) -> int {
    match metric {
        Metric::Departure => delay_value(r.departure_delay),
        Metric::Arrival => delay_value(r.arrival_delay),
    }
}

/// The mathematical value of a [`DelayAccumulator`].
pub struct AccumulatorView {
    pub key: Seq<char>,
    pub count: nat,
    pub total: int,
    pub max: int,
}

impl AccumulatorView {
    /// The accumulator of a key before any record has contributed. It has no
    /// maximum yet: the field holds zero until the first delay replaces it.
    pub open spec fn empty(key: Seq<char>) -> AccumulatorView {
        AccumulatorView { key, count: 0, total: 0, max: 0 }
    }

    /// The accumulator after one more delay of `delay` minutes. The first
    /// delay becomes the maximum; a later one raises it.
    pub open spec fn observe(self, delay: int) -> AccumulatorView {
        AccumulatorView {
            key: self.key,
            count: self.count + 1,
            total: self.total + delay,
            max: if self.count == 0 || delay > self.max { delay } else { self.max },
        }
    }

    /// The total lies between the least and the greatest that `count` delays
    /// of 32 bits can add up to.
    pub open spec fn wf(self) -> bool {
        -0x8000_0000 * self.count <= self.total <= 0x7fff_ffff * self.count
    }
}

/// The distinct keys of `records`, each at the place of its first record.
pub open spec fn keys_of(records: Seq<FlightRecordView>, by: GroupBy) -> Seq<Seq<char>>
    decreases records.len(),
{
    if records.len() == 0 {
        Seq::empty()
    } else {
        let before = keys_of(records.drop_last(), by);
        let key = key_of(records.last(), by);
        if before.contains(key) {
            before
        } else {
            before.push(key)
        }
    }
}

/// The accumulator of one key: every record of `records` with that key has
/// contributed its delay, in order, and no other record has.
pub open spec fn group_of(
    records: Seq<FlightRecordView>,
    by: GroupBy,
    metric: Metric,
    key: Seq<char>,
) -> AccumulatorView
    decreases records.len(),
{
    if records.len() == 0 {
        AccumulatorView::empty(key)
    } else {
        let before = group_of(records.drop_last(), by, metric, key);
        if key_of(records.last(), by) == key {
            before.observe(delay_of(records.last(), metric))
        } else {
            before
        }
    }
}

/// The summary of a record set: one accumulator for each distinct key, in the
/// order in which the keys first occur.
pub open spec fn summary_of(records: Seq<FlightRecordView>, by: GroupBy, metric: Metric) -> Seq<
    AccumulatorView,
> {
    keys_of(records, by).map_values(|key: Seq<char>| group_of(records, by, metric, key))
}

/// The values of a sequence of records.
pub open spec fn record_views(records: Seq<FlightRecord>) -> Seq<FlightRecordView> {
    records.map_values(|r: FlightRecord| r@)
}

/// The values of a sequence of accumulators.
pub open spec fn accumulator_views(accumulators: Seq<DelayAccumulator>) -> Seq<AccumulatorView> {
    accumulators.map_values(|a: DelayAccumulator| a@)
}

/// The count, total and maximum of the delays of one group. The maximum is
/// the largest delay folded in so far, negative where every flight was early;
/// it means nothing while the count is zero.
#[derive(Debug)]
pub struct DelayAccumulator {
    pub key: String,
    pub count: usize,
    pub total: i128,
    pub max: i32,
}

impl View for DelayAccumulator {
    type V = AccumulatorView;

    open spec fn view(&self) -> AccumulatorView {
        AccumulatorView {
            key: self.key@,
            count: self.count as nat,
            total: self.total as int,
            max: self.max as int,
        }
    }
}

impl Clone for DelayAccumulator {
    fn clone(&self) -> (r: DelayAccumulator)
        ensures
            r@ == self@,
    {
        DelayAccumulator {
            key: self.key.clone(),
            count: self.count,
            total: self.total,
            max: self.max,
        }
    }
}

impl DelayAccumulator {
    /// The accumulator of `key` before any record has contributed.
    pub fn empty(key: String) -> (r: DelayAccumulator)
        ensures
            r@ == AccumulatorView::empty(key@),
            r@.wf(),
    {
        DelayAccumulator { key, count: 0, total: 0, max: 0 }
    }

    /// Folds one delay in: one more in the count, the delay (zero when it is
    /// missing) more in the total, and the maximum set to it if it is the
    /// first delay or exceeds the maximum so far.
    pub fn observe(&mut self, delay: Option<i32>)
        requires
            old(self)@.wf(),
            old(self).count < usize::MAX,
        ensures
            final(self)@ == old(self)@.observe(delay_value(delay)),
            final(self)@.wf(),
    {
        let minutes: i32 = match delay {
            Some(d) => d,
            None => 0,
        };
        proof {
            lemma_total_fits(self@);
            lemma_observe_wf(self@, minutes as int);
        }
        if self.count == 0 || minutes > self.max {
            self.max = minutes;
        }
        self.count = self.count + 1;
        self.total = self.total + (minutes as i128);
    }
}

/// A well-formed accumulator whose count fits 64 bits has a total well
/// inside 128 bits.
pub proof fn lemma_total_fits(a: AccumulatorView)
    requires
        a.wf(),
        a.count <= 0xffff_ffff_ffff_ffff,
    ensures
        -0x8000_0000_0000_0000_0000_0000 <= a.total <= 0x8000_0000_0000_0000_0000_0000,
{
    assert(0x7fff_ffff * a.count <= 0x7fff_ffff * 0xffff_ffff_ffff_ffff) by (nonlinear_arith)
        requires
            a.count <= 0xffff_ffff_ffff_ffff,
    ;
    assert(-0x8000_0000 * a.count >= -0x8000_0000 * 0xffff_ffff_ffff_ffff) by (nonlinear_arith)
        requires
            a.count <= 0xffff_ffff_ffff_ffff,
    ;
}

/// Folding a delay of 32 bits into a well-formed accumulator leaves it
/// well-formed.
pub proof fn lemma_observe_wf(a: AccumulatorView, delay: int)
    requires
        a.wf(),
        -0x8000_0000 <= delay <= 0x7fff_ffff,
    ensures
        a.observe(delay).wf(),
{
    assert(0x7fff_ffff * (a.count + 1) == 0x7fff_ffff * a.count + 0x7fff_ffff) by (nonlinear_arith);
    assert(-0x8000_0000 * (a.count + 1) == -0x8000_0000 * a.count - 0x8000_0000)
        by (nonlinear_arith);
}

/// One more record adds its key to the keys unless the key is there already.
pub proof fn lemma_keys_push(records: Seq<FlightRecordView>, r: FlightRecordView, by: GroupBy)
    ensures
        keys_of(records.push(r), by) == if keys_of(records, by).contains(key_of(r, by)) {
            keys_of(records, by)
        } else {
            keys_of(records, by).push(key_of(r, by))
        },
{
    assert(records.push(r).drop_last() =~= records);
}

/// One more record contributes to the group of its own key and to no other.
pub proof fn lemma_group_push(
    records: Seq<FlightRecordView>,
    r: FlightRecordView,
    by: GroupBy,
    metric: Metric,
    key: Seq<char>,
)
    ensures
        group_of(records.push(r), by, metric, key) == if key_of(r, by) == key {
            group_of(records, by, metric, key).observe(delay_of(r, metric))
        } else {
            group_of(records, by, metric, key)
        },
{
    assert(records.push(r).drop_last() =~= records);
}

/// No key occurs twice among the keys of a record set.
pub proof fn lemma_keys_distinct(records: Seq<FlightRecordView>, by: GroupBy)
    ensures
        keys_of(records, by).no_duplicates(),
    decreases records.len(),
{
    if records.len() > 0 {
        lemma_keys_distinct(records.drop_last(), by);
    }
}

/// A key is among the keys of a record set exactly when some record has it.
pub proof fn lemma_keys_are_record_keys(records: Seq<FlightRecordView>, by: GroupBy, key: Seq<char>)
    ensures
        keys_of(records, by).contains(key) <==> exists|i: int|
            0 <= i < records.len() && key_of(#[trigger] records[i], by) == key,
    decreases records.len(),
{
    if records.len() > 0 {
        let rest = records.drop_last();
        let before = keys_of(rest, by);
        let last_key = key_of(records.last(), by);
        lemma_keys_are_record_keys(rest, by, key);
        if before.contains(key) {
            let i = choose|i: int| 0 <= i < rest.len() && key_of(#[trigger] rest[i], by) == key;
            assert(key_of(records[i], by) == key);
            if !before.contains(last_key) {
                let j = choose|j: int| 0 <= j < before.len() && before[j] == key;
                assert(before.push(last_key)[j] == key);
            }
        } else if last_key == key {
            assert(key_of(records[records.len() - 1], by) == key);
            assert(before.push(last_key)[before.len() as int] == key);
        } else {
            assert forall|i: int| 0 <= i < records.len() implies key_of(
                #[trigger] records[i],
                by,
            ) != key by {
                if i < rest.len() {
                    assert(rest[i] == records[i]);
                }
            }
            if keys_of(records, by).contains(key) {
                let j = choose|j: int|
                    0 <= j < keys_of(records, by).len() && keys_of(records, by)[j] == key;
                if before.contains(last_key) {
                } else {
                    assert(before[j] == key);
                }
            }
        }
    }
}

/// The group of a key is well-formed and carries that key; it has counted at
/// most every record, at least one if the key occurs, and nothing at all if
/// the key does not occur.
pub proof fn lemma_group_facts(
    records: Seq<FlightRecordView>,
    by: GroupBy,
    metric: Metric,
    key: Seq<char>,
)
    ensures
        group_of(records, by, metric, key).wf(),
        group_of(records, by, metric, key).key == key,
        group_of(records, by, metric, key).count <= records.len(),
        keys_of(records, by).contains(key) ==> group_of(records, by, metric, key).count >= 1,
        !keys_of(records, by).contains(key) ==> group_of(records, by, metric, key)
            == AccumulatorView::empty(key),
    decreases records.len(),
{
    if records.len() > 0 {
        let rest = records.drop_last();
        let before = keys_of(rest, by);
        let last_key = key_of(records.last(), by);
        lemma_group_facts(rest, by, metric, key);
        lemma_observe_wf(group_of(rest, by, metric, key), delay_of(records.last(), metric));
        if !before.contains(last_key) {
            assert(before.push(last_key)[before.len() as int] == last_key);
            if before.contains(key) {
                let j = choose|j: int| 0 <= j < before.len() && before[j] == key;
                assert(before.push(last_key)[j] == key);
            }
        }
    }
}

/// The records of `records` that have the key `key`, in their order.
pub open spec fn members_of(records: Seq<FlightRecordView>, by: GroupBy, key: Seq<char>) -> Seq<
    FlightRecordView,
> {
    records.filter(|r: FlightRecordView| key_of(r, by) == key)
}

/// The count of a group is the number of records that have its key.
pub proof fn lemma_group_count(
    records: Seq<FlightRecordView>,
    by: GroupBy,
    metric: Metric,
    key: Seq<char>,
)
    ensures
        group_of(records, by, metric, key).count == members_of(records, by, key).len(),
    decreases records.len(),
{
    reveal(Seq::filter);
    if records.len() > 0 {
        lemma_group_count(records.drop_last(), by, metric, key);
    }
}

/// The sum of the `metric` delays of `records`, a missing one taken as zero.
pub open spec fn total_delay(records: Seq<FlightRecordView>, metric: Metric) -> int {
    records.fold_left(0int, |sum: int, r: FlightRecordView| sum + delay_of(r, metric))
}

/// The total of a group is the sum of the delays of the records that have
/// its key.
pub proof fn lemma_group_total(
    records: Seq<FlightRecordView>,
    by: GroupBy,
    metric: Metric,
    key: Seq<char>,
)
    ensures
        group_of(records, by, metric, key).total == total_delay(
            members_of(records, by, key),
            metric,
        ),
    decreases records.len(),
{
    reveal(Seq::filter);
    if records.len() > 0 {
        let rest = records.drop_last();
        lemma_group_total(rest, by, metric, key);
        if key_of(records.last(), by) == key {
            let members = members_of(rest, by, key);
            assert(members.push(records.last()).drop_last() =~= members);
        }
    }
}

/// The maximum of a group is the largest delay among the records with its
/// key: none of them has a greater delay, and where there is such a record at
/// all, one of them has exactly that delay.
pub proof fn lemma_group_max(
    records: Seq<FlightRecordView>,
    by: GroupBy,
    metric: Metric,
    key: Seq<char>,
)
    ensures
        forall|i: int|
            0 <= i < records.len() && key_of(#[trigger] records[i], by) == key ==> {
                &&& group_of(records, by, metric, key).count >= 1
                &&& delay_of(records[i], metric) <= group_of(records, by, metric, key).max
            },
        group_of(records, by, metric, key).count >= 1 ==> exists|i: int|
            0 <= i < records.len() && key_of(#[trigger] records[i], by) == key && delay_of(
                records[i],
                metric,
            ) == group_of(records, by, metric, key).max,
    decreases records.len(),
{
    if records.len() > 0 {
        let rest = records.drop_last();
        let last = records.len() - 1;
        let group = group_of(records, by, metric, key);
        let before = group_of(rest, by, metric, key);
        lemma_group_max(rest, by, metric, key);
        assert forall|i: int|
            0 <= i < records.len() && key_of(#[trigger] records[i], by) == key implies group.count
            >= 1 && delay_of(records[i], metric) <= group.max by {
            if i < last {
                assert(rest[i] == records[i]);
            }
        }
        if group.count >= 1 {
            if key_of(records[last], by) == key && delay_of(records[last], metric) == group.max {
            } else {
                assert(before.count >= 1 && before.max == group.max);
                let i = choose|i: int|
                    0 <= i < rest.len() && key_of(#[trigger] rest[i], by) == key && delay_of(
                        rest[i],
                        metric,
                    ) == before.max;
                assert(records[i] == rest[i]);
            }
        }
    }
}

/// What one record does to the group of `key`: it is folded in if it has
/// the key, and changes nothing if it has not.
pub open spec fn with_record(
    group: AccumulatorView,
    r: FlightRecordView,
    by: GroupBy,
    metric: Metric,
    key: Seq<char>,
) -> AccumulatorView {
    if key_of(r, by) == key {
        group.observe(delay_of(r, metric))
    } else {
        group
    }
}

/// The group of a key is the group of the other records with any one record
/// folded in last, wherever that record stands.
pub proof fn lemma_group_remove(
    records: Seq<FlightRecordView>,
    by: GroupBy,
    metric: Metric,
    key: Seq<char>,
    at: int,
)
    requires
        0 <= at < records.len(),
    ensures
        group_of(records, by, metric, key) == with_record(
            group_of(records.remove(at), by, metric, key),
            records[at],
            by,
            metric,
            key,
        ),
    decreases records.len(),
{
    let rest = records.drop_last();
    if at == records.len() - 1 {
        assert(records.remove(at) =~= rest);
    } else {
        lemma_group_remove(rest, by, metric, key, at);
        assert(records.remove(at).drop_last() =~= rest.remove(at));
        assert(records.remove(at).last() == records.last());
        assert(rest[at] == records[at]);
    }
}

/// The group of a key does not depend on the order of the records: two
/// record sets that hold the same records, each as often, give the same
/// count, total and maximum.
pub proof fn lemma_group_order_free(
    first: Seq<FlightRecordView>,
    second: Seq<FlightRecordView>,
    by: GroupBy,
    metric: Metric,
    key: Seq<char>,
)
    requires
        first.to_multiset() == second.to_multiset(),
    ensures
        group_of(first, by, metric, key) == group_of(second, by, metric, key),
    decreases first.len(),
{
    first.to_multiset_ensures();
    second.to_multiset_ensures();
    if first.len() > 0 {
        let last = first.len() - 1;
        let r = first[last];
        assert(first.contains(r));
        assert(first.to_multiset().count(r) > 0);
        assert(second.to_multiset().count(r) > 0);
        assert(second.contains(r));
        let at = choose|at: int| 0 <= at < second.len() && second[at] == r;
        assert(first.remove(last).to_multiset() =~= first.to_multiset().remove(r));
        assert(second.remove(at).to_multiset() =~= second.to_multiset().remove(r));
        lemma_group_order_free(first.remove(last), second.remove(at), by, metric, key);
        lemma_group_remove(first, by, metric, key, last);
        lemma_group_remove(second, by, metric, key, at);
    }
}

/// The keys of a record set do not depend on the order of the records but
/// for their own order: two record sets that hold the same records, each as
/// often, have the same keys.
pub proof fn lemma_keys_order_free(
    first: Seq<FlightRecordView>,
    second: Seq<FlightRecordView>,
    by: GroupBy,
    key: Seq<char>,
)
    requires
        first.to_multiset() == second.to_multiset(),
    ensures
        keys_of(first, by).contains(key) <==> keys_of(second, by).contains(key),
{
    first.to_multiset_ensures();
    second.to_multiset_ensures();
    lemma_keys_are_record_keys(first, by, key);
    lemma_keys_are_record_keys(second, by, key);
    if keys_of(first, by).contains(key) {
        let i = choose|i: int| 0 <= i < first.len() && key_of(#[trigger] first[i], by) == key;
        assert(first.contains(first[i]));
        assert(first.to_multiset().count(first[i]) > 0);
        assert(second.to_multiset().count(first[i]) > 0);
        assert(second.contains(first[i]));
        let j = choose|j: int| 0 <= j < second.len() && second[j] == first[i];
        assert(key_of(second[j], by) == key);
    }
    if keys_of(second, by).contains(key) {
        let i = choose|i: int| 0 <= i < second.len() && key_of(#[trigger] second[i], by) == key;
        assert(second.contains(second[i]));
        assert(second.to_multiset().count(second[i]) > 0);
        assert(first.to_multiset().count(second[i]) > 0);
        assert(first.contains(second[i]));
        let j = choose|j: int| 0 <= j < first.len() && first[j] == second[i];
        assert(key_of(first[j], by) == key);
    }
}

/// No entry occurs twice in a summary: each has a key of its own.
pub proof fn lemma_summary_distinct(records: Seq<FlightRecordView>, by: GroupBy, metric: Metric)
    ensures
        summary_of(records, by, metric).no_duplicates(),
{
    let keys = keys_of(records, by);
    let summary = summary_of(records, by, metric);
    lemma_keys_distinct(records, by);
    assert forall|i: int, j: int|
        0 <= i < summary.len() && 0 <= j < summary.len() && i != j implies summary[i]
        != summary[j] by {
        lemma_group_facts(records, by, metric, keys[i]);
        lemma_group_facts(records, by, metric, keys[j]);
        assert(summary[i].key == keys[i]);
        assert(summary[j].key == keys[j]);
    }
}

/// An entry of the summary of some records is an entry of the summary of
/// the same records in any other order.
pub proof fn lemma_summary_entry_order_free(
    first: Seq<FlightRecordView>,
    second: Seq<FlightRecordView>,
    by: GroupBy,
    metric: Metric,
    entry: AccumulatorView,
)
    requires
        first.to_multiset() == second.to_multiset(),
        summary_of(first, by, metric).contains(entry),
    ensures
        summary_of(second, by, metric).contains(entry),
{
    let i = choose|i: int|
        0 <= i < summary_of(first, by, metric).len() && summary_of(first, by, metric)[i] == entry;
    let key = keys_of(first, by)[i];
    assert(keys_of(first, by).contains(key));
    lemma_keys_order_free(first, second, by, key);
    lemma_group_order_free(first, second, by, metric, key);
    let j = choose|j: int| 0 <= j < keys_of(second, by).len() && keys_of(second, by)[j] == key;
    assert(summary_of(second, by, metric)[j] == entry);
}

/// A summary does not depend on the order of the records but for the order
/// of its entries: two record sets that hold the same records, each as
/// often, have summaries that hold the same entries, each once.
pub proof fn lemma_summary_order_free(
    first: Seq<FlightRecordView>,
    second: Seq<FlightRecordView>,
    by: GroupBy,
    metric: Metric,
)
    requires
        first.to_multiset() == second.to_multiset(),
    ensures
        summary_of(first, by, metric).to_multiset() == summary_of(second, by, metric).to_multiset(),
{
    let one = summary_of(first, by, metric);
    let other = summary_of(second, by, metric);
    lemma_summary_distinct(first, by, metric);
    lemma_summary_distinct(second, by, metric);
    one.lemma_multiset_has_no_duplicates();
    other.lemma_multiset_has_no_duplicates();
    one.to_multiset_ensures();
    other.to_multiset_ensures();
    assert forall|entry: AccumulatorView|
        one.to_multiset().count(entry) == other.to_multiset().count(entry) by {
        if one.contains(entry) {
            lemma_summary_entry_order_free(first, second, by, metric, entry);
        }
        if other.contains(entry) {
            lemma_summary_entry_order_free(second, first, by, metric, entry);
        }
        assert(one.to_multiset().contains(entry) <==> one.to_multiset().count(entry) > 0);
        assert(other.to_multiset().contains(entry) <==> other.to_multiset().count(entry) > 0);
    }
    assert(one.to_multiset() =~= other.to_multiset());
}

/// The place of `key` among the accumulators: the first with that key, if
/// any has it.
fn position(accumulators: &Vec<DelayAccumulator>, key: &str) -> (r: Option<usize>)
    ensures
        match r {
            Some(i) => i < accumulators.len() && accumulators[i as int].key@ == key@,
            None => forall|j: int|
                0 <= j < accumulators.len() ==> (#[trigger] accumulators[j]).key@ != key@,
        },
{
    let mut i: usize = 0;
    while i < accumulators.len()
        invariant
            i <= accumulators.len(),
            forall|j: int| 0 <= j < i ==> (#[trigger] accumulators[j]).key@ != key@,
        decreases accumulators.len() - i,
    {
        if same_text(accumulators[i].key.as_str(), key) {
            return Some(i);
        }
        i = i + 1;
    }
    None
}

/// Folds one record into a summary of the records seen before it.
pub(crate) fn fold_record(
    accumulators: &mut Vec<DelayAccumulator>,
    record: &FlightRecord,
    by: GroupBy,
    metric: Metric,
    Ghost(seen): Ghost<Seq<FlightRecordView>>,
)
    requires
        accumulator_views(old(accumulators)@) == summary_of(seen, by, metric),
        seen.len() < usize::MAX,
    ensures
        accumulator_views(final(accumulators)@) == summary_of(seen.push(record@), by, metric),
{
    let key: &str = match by {
        GroupBy::Carrier => record.carrier(),
        GroupBy::Origin => record.origin(),
    };
    let delay: Option<i32> = match metric {
        Metric::Departure => record.departure_delay(),
        Metric::Arrival => record.arrival_delay(),
    };
    let ghost keys = keys_of(seen, by);
    let ghost after = seen.push(record@);
    proof {
        lemma_keys_push(seen, record@, by);
        lemma_keys_distinct(seen, by);
        lemma_group_facts(seen, by, metric, key@);
        assert forall|q: Seq<char>|
            #[trigger] group_of(after, by, metric, q) == if key@ == q {
                group_of(seen, by, metric, q).observe(delay_value(delay))
            } else {
                group_of(seen, by, metric, q)
            } by {
            lemma_group_push(seen, record@, by, metric, q);
        }
        assert(accumulator_views(accumulators@).len() == accumulators.len());
        assert(summary_of(seen, by, metric).len() == keys.len());
        assert forall|j: int| 0 <= j < keys.len() implies (#[trigger] accumulators[j]).key@
            == keys[j] by {
            lemma_group_facts(seen, by, metric, keys[j]);
            assert(accumulator_views(accumulators@)[j] == accumulators[j]@);
        }
    }
    match position(accumulators, key) {
        Some(i) => {
            proof {
                assert(keys[i as int] == key@);
                assert(accumulator_views(accumulators@)[i as int] == accumulators[i as int]@);
            }
            accumulators[i].observe(delay);
            proof {
                assert forall|j: int| 0 <= j < keys.len() implies accumulator_views(
                    accumulators@,
                )[j] == summary_of(after, by, metric)[j] by {
                    assert(accumulator_views(old(accumulators)@)[j] == old(accumulators)[j]@);
                    if j != i {
                        assert(keys[j] != keys[i as int]);
                    }
                }
                assert(accumulator_views(accumulators@) =~= summary_of(after, by, metric));
            }
        },
        None => {
            proof {
                if keys.contains(key@) {
                    let j = choose|j: int| 0 <= j < keys.len() && keys[j] == key@;
                    assert(accumulators[j].key@ == key@);
                }
            }
            let mut fresh = DelayAccumulator::empty(key.to_owned());
            fresh.observe(delay);
            accumulators.push(fresh);
            proof {
                assert forall|j: int| 0 <= j < keys.len() + 1 implies accumulator_views(
                    accumulators@,
                )[j] == summary_of(after, by, metric)[j] by {
                    if j < keys.len() {
                        assert(accumulator_views(old(accumulators)@)[j] == old(accumulators)[j]@);
                        assert(keys[j] != key@);
                    }
                }
                assert(accumulator_views(accumulators@) =~= summary_of(after, by, metric));
            }
        },
    }
}

/// Summarizes a record set: groups the records by `by` and reduces each
/// group to the count, total and maximum of its `metric` delays. Every
/// record takes part, and a record without the delay counts with zero
/// minutes. The groups come in the order in which their keys first occur.
pub fn summarize(records: &Vec<FlightRecord>, by: GroupBy, metric: Metric) -> (r: Vec<
    DelayAccumulator,
>)
    ensures
        accumulator_views(r@) == summary_of(record_views(records@), by, metric),
{
    let mut accumulators: Vec<DelayAccumulator> = Vec::new();
    let ghost all = record_views(records@);
    let mut i: usize = 0;
    proof {
        assert(accumulator_views(accumulators@) =~= summary_of(all.take(0), by, metric));
    }
    while i < records.len()
        invariant
            i <= records.len(),
            all == record_views(records@),
            accumulator_views(accumulators@) == summary_of(all.take(i as int), by, metric),
        decreases records.len() - i,
    {
        fold_record(&mut accumulators, &records[i], by, metric, Ghost(all.take(i as int)));
        proof {
            assert(all.take(i as int).push(records[i as int]@) =~= all.take(i + 1));
        }
        i = i + 1;
    }
    proof {
        assert(all.take(i as int) =~= all);
    }
    accumulators
}

} // verus!
