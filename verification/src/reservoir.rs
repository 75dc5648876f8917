//! The replay reservoir: the last games played, from which training
//! positions are drawn.

use std::collections::VecDeque;
use vstd::prelude::*;
use vstd::string::StringExecFns;
use crate::record::Record;
use crate::sample::uniform_below;

verus! {

/// A bounded queue of game records. Beside each record it keeps the record's
/// learning targets, which is all that drawing looks at.
pub struct Reservoir {
    pub records: VecDeque<Record>,
    pub learning_targets: VecDeque<Vec<usize>>,
    pub json_path: String,
    pub max_size: usize,
}

/// The records after `record` has been pushed: where the queue holds
/// `max_size` records the oldest one leaves first.
pub open spec fn pushed(records: Seq<Record>, record: Record, max_size: int) -> Seq<Record> {
    if records.len() == max_size && records.len() > 0 {
        records.drop_first().push(record)
    } else {
        records.push(record)
    }
}

/// The records after each of `more` has been pushed in turn.
pub open spec fn pushed_all(records: Seq<Record>, more: Seq<Record>, max_size: int) -> Seq<Record>
    decreases more.len(),
{
    if more.len() == 0 {
        records
    } else {
        pushed(pushed_all(records, more.drop_last(), max_size), more.last(), max_size)
    }
}

/// The last `count` of `records`, or all of them where there are fewer.
pub open spec fn last_of(records: Seq<Record>, count: int) -> Seq<Record> {
    if records.len() <= count {
        records
    } else {
        records.subrange(records.len() - count, records.len() as int)
    }
}

/// FIFO eviction: a reservoir for `max_size` records, at least one, that
/// holds no more than that holds, after any number of pushes, the last
/// `max_size` of the records it held and the records pushed, in the order in
/// which they came.
pub proof fn lemma_fifo(records: Seq<Record>, more: Seq<Record>, max_size: int)
    requires
        max_size > 0,
        records.len() <= max_size,
    ensures
        pushed_all(records, more, max_size) == last_of(records + more, max_size),
    decreases more.len(),
{
    if more.len() > 0 {
        let rest = more.drop_last();
        lemma_fifo(records, rest, max_size);
        let held = last_of(records + rest, max_size);
        assert((records + rest).push(more.last()) =~= records + more);
        assert(pushed(held, more.last(), max_size) =~= last_of(records + more, max_size));
    } else {
        assert(records + more =~= records);
    }
}

/// The number of learning targets in `targets`.
pub open spec fn target_total(targets: Seq<Vec<usize>>) -> nat
    decreases targets.len(),
{
    if targets.len() == 0 {
        0
    } else {
        target_total(targets.drop_last()) + targets.last()@.len()
    }
}

/// The number of learning targets in the first `count` of `targets`.
pub open spec fn targets_before(targets: Seq<Vec<usize>>, count: int) -> nat {
    target_total(targets.subrange(0, count))
}

/// The `draw`-th learning target, counted through all records, belongs to
/// the record `record` and names the ply `ply`.
pub open spec fn located(targets: Seq<Vec<usize>>, draw: int, record: int, ply: int) -> bool {
    &&& 0 <= record < targets.len()
    &&& targets_before(targets, record) <= draw < targets_before(targets, record + 1)
    &&& ply == targets[record]@[draw - targets_before(targets, record)]
}

/// More records do not hold fewer learning targets.
pub proof fn lemma_targets_monotone(targets: Seq<Vec<usize>>, i: int, j: int)
    requires
        0 <= i <= j <= targets.len(),
    ensures
        targets_before(targets, i) <= targets_before(targets, j),
        targets_before(targets, j) <= target_total(targets),
    decreases targets.len() - i,
{
    if i < j {
        lemma_targets_monotone(targets, i + 1, j);
        lemma_targets_step(targets, i);
    } else if j < targets.len() {
        lemma_targets_monotone(targets, j + 1, targets.len() as int);
        lemma_targets_step(targets, j);
        assert(targets.subrange(0, targets.len() as int) =~= targets);
    } else {
        assert(targets.subrange(0, targets.len() as int) =~= targets);
    }
}

/// The targets before record `i + 1` are those before record `i` and those
/// of record `i`.
pub proof fn lemma_targets_step(targets: Seq<Vec<usize>>, i: int)
    requires
        0 <= i < targets.len(),
    ensures
        targets_before(targets, i + 1) == targets_before(targets, i) + targets[i]@.len(),
{
    assert(targets.subrange(0, i + 1).drop_last() =~= targets.subrange(0, i));
}

/// Sampler uniformity, as far as it is a matter of counting: each learning
/// target of each record is hit by one draw below the number of all targets.
pub proof fn lemma_target_has_draw(targets: Seq<Vec<usize>>, record: int, slot: int)
    requires
        0 <= record < targets.len(),
        0 <= slot < targets[record]@.len(),
    ensures
        targets_before(targets, record) + slot < target_total(targets),
        located(
            targets,
            targets_before(targets, record) + slot,
            record,
            targets[record]@[slot] as int,
        ),
{
    lemma_targets_step(targets, record);
    lemma_targets_monotone(targets, record + 1, targets.len() as int);
}

/// Sampler uniformity, the other half: a draw hits the learning targets of
/// one record only, and one of them only.
pub proof fn lemma_draw_has_target(
    targets: Seq<Vec<usize>>,
    draw: int,
    record: int,
    ply: int,
    other_record: int,
    other_ply: int,
)
    requires
        located(targets, draw, record, ply),
        located(targets, draw, other_record, other_ply),
    ensures
        record == other_record,
        ply == other_ply,
{
    if record < other_record {
        lemma_targets_monotone(targets, record + 1, other_record);
    } else if other_record < record {
        lemma_targets_monotone(targets, other_record + 1, record);
    }
}

/// Sorts the draws with `sort` of std's slices. The contract claims what the
/// documentation of `sort` says: the result holds the same numbers, in
/// ascending order.
#[verifier::external_body]
pub(crate) fn sort_draws(draws: &mut Vec<u64>)
    ensures
        final(draws)@.to_multiset() == old(draws)@.to_multiset(),
        forall|i: int, j: int|
            0 <= i <= j < final(draws)@.len() ==> final(draws)@[i] <= final(draws)@[j],
{
    draws.sort();
}

/// The line of the log that holds a record: its text and the end of the line.
pub open spec fn line_of(record_json: Seq<char>) -> Seq<char> {
    record_json.push('\n')
}

/// Returns the line of the log that holds a record.
pub fn log_line(record_json: &str) -> (line: String)
    ensures
        line@ == line_of(record_json@),
{
    let mut line = record_json.to_owned();
    line.append("\n");
    proof {
        reveal_strlit("\n");
        assert("\n"@ =~= seq!['\n']);
        assert(line@ =~= record_json@.push('\n'));
    }
    line
}

impl Reservoir {
    /// Beside each record stand its learning targets.
    pub open spec fn wf(&self) -> bool {
        &&& self.records@.len() == self.learning_targets@.len()
        &&& forall|i: int|
            0 <= i < self.records@.len() ==> (#[trigger] self.learning_targets@[i])@
                == self.records@[i].learning_target_plys@
    }

    /// The number of learning targets of all records.
    pub open spec fn total(&self) -> nat {
        target_total(self.learning_targets@)
    }

    /// Makes an empty reservoir for `max_size` records, with the path of the
    /// log that records are appended to.
    pub fn new(json_path: &str, max_size: usize) -> (r: Reservoir)
        ensures
            r.wf(),
            r.records@.len() == 0,
            r.max_size == max_size,
            r.json_path@ == json_path@,
    {
        Reservoir {
            records: VecDeque::new(),
            learning_targets: VecDeque::new(),
            json_path: json_path.to_owned(),
            max_size: max_size,
        }
    }

    /// Returns the number of records held.
    pub fn len(&self) -> (r: usize)
        ensures
            r == self.records@.len(),
    {
        self.records.len()
    }

    /// Puts `record` at the end of the queue; where the queue is full, the
    /// oldest record leaves first.
    fn enqueue(&mut self, record: Record)
        requires
            old(self).wf(),
        ensures
            final(self).wf(),
            final(self).records@ == pushed(old(self).records@, record, old(self).max_size as int),
            final(self).max_size == old(self).max_size,
            final(self).json_path == old(self).json_path,
    {
        if self.records.len() == self.max_size {
            let _ = self.records.pop_front();
            let _ = self.learning_targets.pop_front();
        }
        let targets = record.targets();
        self.records.push_back(record);
        self.learning_targets.push_back(targets);
        proof {
            let before = old(self).records@;
            if before.len() == old(self).max_size && before.len() > 0 {
                assert(before.subrange(1, before.len() as int) =~= before.drop_first());
            }
            assert(self.wf());
        }
    }

    /// Puts `record` at the end of the queue; where the queue is full, the
    /// oldest record leaves first. `record_json` is the text that the record
    /// was read from. With `log`, returns the line that is to be appended to
    /// the log.
    pub fn push_with_option(&mut self, record: Record, record_json: &str, log: bool) -> (line:
        Option<String>)
        requires
            old(self).wf(),
        ensures
            final(self).wf(),
            final(self).records@ == pushed(old(self).records@, record, old(self).max_size as int),
            final(self).max_size == old(self).max_size,
            final(self).json_path == old(self).json_path,
            log ==> line is Some && line->0@ == line_of(record_json@),
            !log ==> line is None,
    {
        self.enqueue(record);
        if log {
            Some(log_line(record_json))
        } else {
            None
        }
    }

    /// Puts `record` at the end of the queue and returns the line that is to
    /// be appended to the log.
    pub fn push(&mut self, record: Record, record_json: &str) -> (line: Option<String>)
        requires
            old(self).wf(),
        ensures
            final(self).wf(),
            final(self).records@ == pushed(old(self).records@, record, old(self).max_size as int),
            final(self).max_size == old(self).max_size,
            final(self).json_path == old(self).json_path,
            line is Some && line->0@ == line_of(record_json@),
    {
        self.push_with_option(record, record_json, true)
    }

    /// Puts the records of a log into the queue, in their order. Nothing of
    /// it is to be appended to the log again.
    pub fn load(&mut self, records: VecDeque<Record>)
        requires
            old(self).wf(),
        ensures
            final(self).wf(),
            final(self).records@ == pushed_all(
                old(self).records@,
                records@,
                old(self).max_size as int,
            ),
            final(self).max_size == old(self).max_size,
            final(self).json_path == old(self).json_path,
    {
        let mut rest = records;
        let ghost done: Seq<Record> = Seq::empty();
        assert(done + rest@ =~= records@);
        while rest.len() > 0
            invariant
                self.wf(),
                self.max_size == old(self).max_size,
                self.json_path == old(self).json_path,
                done + rest@ == records@,
                self.records@ == pushed_all(old(self).records@, done, old(self).max_size as int),
            decreases rest@.len(),
        {
            let ghost before = rest@;
            let record = rest.pop_front().unwrap();
            proof {
                assert(done.push(record).drop_last() =~= done);
                assert(done.push(record) + rest@ =~= done + before);
                done = done.push(record);
            }
            self.enqueue(record);
        }
        assert(done =~= records@);
    }

    /// Returns the running sums of the numbers of learning targets: the
    /// entry `i` counts the targets of the records before record `i`.
    /// Returns `None` where a sum does not fit.
    pub fn cumulative_plys(&self) -> (r: Option<Vec<u64>>)
        requires
            self.wf(),
        ensures
            r is None <==> self.total() > u64::MAX,
            r matches Some(sums) ==> sums@.len() == self.learning_targets@.len() + 1 && forall|
                i: int,
            |
                0 <= i < sums@.len() ==> #[trigger] sums@[i] == targets_before(
                    self.learning_targets@,
                    i,
                ),
    {
        let ghost targets = self.learning_targets@;
        let mut sums: Vec<u64> = Vec::new();
        sums.push(0);
        let mut i: usize = 0;
        assert(targets.subrange(0, 0) =~= Seq::<Vec<usize>>::empty());
        while i < self.learning_targets.len()
            invariant
                targets == self.learning_targets@,
                i <= targets.len(),
                sums@.len() == i + 1,
                forall|a: int|
                    0 <= a <= i ==> #[trigger] sums@[a] == targets_before(targets, a),
            decreases targets.len() - i,
        {
            let count: usize = self.learning_targets[i].len();
            let so_far: u64 = sums[i];
            proof {
                lemma_targets_step(targets, i as int);
            }
            if count as u64 > u64::MAX - so_far {
                proof {
                    lemma_targets_monotone(targets, 0, i as int + 1);
                }
                return None;
            }
            sums.push(so_far + count as u64);
            i += 1;
        }
        proof {
            assert(targets.subrange(0, targets.len() as int) =~= targets);
            assert(sums@[targets.len() as int] == targets_before(targets, targets.len() as int));
        }
        Some(sums)
    }

    /// Returns, for each of `draws`, the record that the draw falls into and
    /// the ply that it names there. The draws come in ascending order.
    #[verifier::rlimit(60)]
    pub fn locate(&self, draws: &Vec<u64>) -> (r: Vec<(usize, usize)>)
        requires
            self.wf(),
            self.total() <= u64::MAX,
            forall|k: int| 0 <= k < draws@.len() ==> #[trigger] draws@[k] < self.total(),
            forall|i: int, j: int| 0 <= i <= j < draws@.len() ==> draws@[i] <= draws@[j],
        ensures
            r@.len() == draws@.len(),
            forall|k: int|
                0 <= k < draws@.len() ==> located(
                    self.learning_targets@,
                    draws@[k] as int,
                    (#[trigger] r@[k]).0 as int,
                    r@[k].1 as int,
                ),
    {
        let ghost targets = self.learning_targets@;
        let sums = self.cumulative_plys().unwrap();
        let mut found: Vec<(usize, usize)> = Vec::new();
        let mut lo: usize = 0;
        let mut k: usize = 0;
        assert(targets.subrange(0, targets.len() as int) =~= targets);
        while k < draws.len()
            invariant
                self.wf(),
                targets == self.learning_targets@,
                sums@.len() == targets.len() + 1,
                forall|i: int|
                    0 <= i < sums@.len() ==> #[trigger] sums@[i] == targets_before(targets, i),
                sums@[targets.len() as int] == target_total(targets),
                forall|a: int| 0 <= a < draws@.len() ==> #[trigger] draws@[a] <
                    target_total(targets),
                forall|i: int, j: int| 0 <= i <= j < draws@.len() ==> draws@[i] <= draws@[j],
                k <= draws@.len(),
                found@.len() == k,
                lo <= targets.len(),
                k < draws@.len() ==> sums@[lo as int] <= draws@[k as int],
                forall|a: int|
                    0 <= a < k ==> located(
                        targets,
                        draws@[a] as int,
                        (#[trigger] found@[a]).0 as int,
                        found@[a].1 as int,
                    ),
            decreases draws@.len() - k,
        {
            let index: u64 = draws[k];
            let mut ok: usize = lo;
            let mut ng: usize = sums.len();
            while ng - ok > 1
                invariant
                    sums@.len() == targets.len() + 1,
                    ok < ng <= sums@.len(),
                    sums@[ok as int] <= index,
                    ng < sums@.len() ==> index < sums@[ng as int],
                decreases ng - ok,
            {
                let mid: usize = ok + (ng - ok) / 2;
                if index >= sums[mid] {
                    ok = mid;
                } else {
                    ng = mid;
                }
            }
            assert(ok < targets.len());
            proof {
                lemma_targets_step(targets, ok as int);
                assert(sums@[ok as int] == targets_before(targets, ok as int));
                assert(sums@[ok as int + 1] == targets_before(targets, ok as int + 1));
                assert(index - sums@[ok as int] < targets[ok as int]@.len());
            }
            let offset: u64 = index - sums[ok];
            let count: usize = self.learning_targets[ok].len();
            assert(offset < count);
            let slot: usize = offset as usize;
            let ply: usize = self.learning_targets[ok][slot];
            let ghost before = found@;
            found.push((ok, ply));
            proof {
                assert(slot == index - sums@[ok as int]);
                assert(ply == targets[ok as int]@[slot as int]);
                assert(targets_before(targets, ok as int) <= index < targets_before(
                    targets,
                    ok as int + 1,
                ));
                assert(index == draws@[k as int]);
                assert(located(targets, draws@[k as int] as int, ok as int, ply as int));
                assert forall|a: int| 0 <= a < k + 1 implies located(
                    targets,
                    draws@[a] as int,
                    (#[trigger] found@[a]).0 as int,
                    found@[a].1 as int,
                ) by {
                    if a < k {
                        assert(found@[a] == before[a]);
                    }
                }
                if k + 1 < draws@.len() {
                    assert(draws@[k as int] <= draws@[k as int + 1]);
                }
            }
            lo = ok;
            k += 1;
        }
        found
    }

    /// Draws `mini_batch_size` learning targets, each with the same chance,
    /// and returns for each the record that holds it and the ply that it
    /// names, in the order of the records. Returns `None` where the
    /// reservoir holds no learning target, or more than can be counted.
    #[verifier::rlimit(60)]
    pub fn sample(&self, mini_batch_size: usize) -> (r: Option<Vec<(usize, usize)>>)
        requires
            self.wf(),
        ensures
            r is None <==> self.total() == 0 || self.total() > u64::MAX,
            r matches Some(found) ==> found@.len() == mini_batch_size && exists|draws: Seq<u64>|
                #![trigger draws.len()]
                {
                    &&& draws.len() == mini_batch_size
                    &&& forall|i: int, j: int| 0 <= i <= j < draws.len() ==> draws[i] <= draws[j]
                    &&& forall|k: int|
                        0 <= k < draws.len() ==> draws[k] < self.total() && located(
                            self.learning_targets@,
                            draws[k] as int,
                            (#[trigger] found@[k]).0 as int,
                            found@[k].1 as int,
                        )
                },
    {
        let total: u64 = match self.cumulative_plys() {
            None => {
                return None;
            },
            Some(sums) => {
                assert(self.learning_targets@.subrange(0, self.learning_targets@.len() as int)
                    =~= self.learning_targets@);
                sums[sums.len() - 1]
            },
        };
        if total == 0 {
            return None;
        }
        let mut draws: Vec<u64> = Vec::new();
        let mut k: usize = 0;
        while k < mini_batch_size
            invariant
                k <= mini_batch_size,
                total > 0,
                draws@.len() == k,
                forall|a: int| 0 <= a < k ==> #[trigger] draws@[a] < total,
            decreases mini_batch_size - k,
        {
            draws.push(uniform_below(total));
            k += 1;
        }
        let ghost unsorted = draws@;
        sort_draws(&mut draws);
        proof {
            unsorted.to_multiset_ensures();
            draws@.to_multiset_ensures();
            assert forall|a: int| 0 <= a < draws@.len() implies #[trigger] draws@[a] < total by {
                assert(draws@.contains(draws@[a]));
                assert(draws@.to_multiset().count(draws@[a]) > 0);
                assert(unsorted.contains(draws@[a]));
                let b = choose|b: int| 0 <= b < unsorted.len() && unsorted[b] == draws@[a];
                assert(unsorted[b] < total);
            }
        }
        let found = self.locate(&draws);
        Some(found)
    }
}

} // verus!
