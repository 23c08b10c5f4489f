//! Applying a file of operations: which reads, writes and deletes it asks for, in
//! what order, and the tally of what came of them.

use vstd::prelude::*;
use crate::schema::{ConfigFile, Entry, EntryContent, Operation};
use crate::text::{chars_of, concat_chars, decimal, decimal_chars, string_of};

verus! {

broadcast use vstd::string::group_string_axioms;

/// One read, write or delete of an entry; `value` is the value to write, for a
/// write, and `None` otherwise.
#[derive(Debug)]
pub struct ApplyStep {
    pub operation: Operation,
    pub component: String,
    pub version: u64,
    pub key: String,
    pub value: Option<String>,
}

/// An `ApplyStep` as values.
pub struct StepView {
    pub operation: Operation,
    pub component: Seq<char>,
    pub version: u64,
    pub key: Seq<char>,
    pub value: Option<Seq<char>>,
}

impl View for ApplyStep {
    type V = StepView;

    open spec fn view(&self) -> StepView {
        StepView {
            operation: self.operation,
            component: self.component@,
            version: self.version,
            key: self.key@,
            value: match self.value {
                Some(v) => Some(v@),
                None => None,
            },
        }
    }
}

/// The views of a sequence of steps.
pub open spec fn step_views(s: Seq<ApplyStep>) -> Seq<StepView> {
    s.map_values(|x: ApplyStep| x@)
}

/// The write of `value` to entry `key` of an operation on `component`, `version`.
pub open spec fn write_step(component: Seq<char>, version: u64, kv: (String, String)) -> StepView {
    StepView { operation: Operation::Write, component, version, key: kv.0@, value: Some(kv.1@) }
}

/// The read or delete of entry `key` of an operation on `component`, `version`.
pub open spec fn key_step(operation: Operation, component: Seq<char>, version: u64, key: String) -> StepView {
    StepView { operation, component, version, key: key@, value: None }
}

/// The steps one entry of the file asks for, one per named entry in the order
/// given; `None` where the operation and the form of its entries do not go
/// together (a write with a list of names, a read or delete with values).
pub open spec fn entry_steps(e: Entry) -> Option<Seq<StepView>> {
    match (e.operation, e.entries) {
        (Operation::Write, EntryContent::WriteEntries(kvs)) => Some(
            kvs@.map_values(|kv: (String, String)| write_step(e.component@, e.version, kv)),
        ),
        (Operation::Read, EntryContent::ReadDeleteEntries(keys)) => Some(
            keys@.map_values(|k: String| key_step(Operation::Read, e.component@, e.version, k)),
        ),
        (Operation::Delete, EntryContent::ReadDeleteEntries(keys)) => Some(
            keys@.map_values(|k: String| key_step(Operation::Delete, e.component@, e.version, k)),
        ),
        _ => None,
    }
}

/// The steps of a list of entries, taken in order, and whether an entry whose
/// operation and entries do not go together stopped it there.
pub open spec fn apply_plan(entries: Seq<Entry>) -> (Seq<StepView>, bool)
    decreases entries.len(),
{
    if entries.len() == 0 {
        (Seq::empty(), false)
    } else {
        let (steps, stopped) = apply_plan(entries.drop_last());
        if stopped {
            (steps, true)
        } else {
            match entry_steps(entries.last()) {
                Some(s) => (steps + s, false),
                None => (steps, true),
            }
        }
    }
}

fn entry_steps_exec(e: &Entry) -> (r: Option<Vec<ApplyStep>>)
    ensures
        match r {
            Some(v) => entry_steps(*e) == Some(step_views(v@)),
            None => entry_steps(*e) is None,
        },
{
    match (&e.operation, &e.entries) {
        (Operation::Write, EntryContent::WriteEntries(kvs)) => {
            let mut v: Vec<ApplyStep> = Vec::new();
            let mut i: usize = 0;
            while i < kvs.len()
                invariant
                    i <= kvs.len(),
                    step_views(v@) == kvs@.take(i as int).map_values(
                        |kv: (String, String)| write_step(e.component@, e.version, kv),
                    ),
                decreases kvs.len() - i,
            {
                let ghost before = v@;
                let (k, x) = &kvs[i];
                v.push(
                    ApplyStep {
                        operation: Operation::Write,
                        component: e.component.clone(),
                        version: e.version,
                        key: k.clone(),
                        value: Some(x.clone()),
                    },
                );
                assert(kvs@.take(i + 1) =~= kvs@.take(i as int).push(kvs@[i as int]));
                assert(step_views(v@) =~= step_views(before).push(
                    write_step(e.component@, e.version, kvs@[i as int]),
                ));
                i = i + 1;
            }
            assert(kvs@.take(kvs.len() as int) == kvs@);
            Some(v)
        },
        (Operation::Read, EntryContent::ReadDeleteEntries(keys)) => {
            Some(key_steps(Operation::Read, e, keys))
        },
        (Operation::Delete, EntryContent::ReadDeleteEntries(keys)) => {
            Some(key_steps(Operation::Delete, e, keys))
        },
        _ => None,
    }
}

fn key_steps(operation: Operation, e: &Entry, keys: &Vec<String>) -> (v: Vec<ApplyStep>)
    ensures
        step_views(v@) == keys@.map_values(
            |k: String| key_step(operation, e.component@, e.version, k),
        ),
{
    let mut v: Vec<ApplyStep> = Vec::new();
    let mut i: usize = 0;
    while i < keys.len()
        invariant
            i <= keys.len(),
            step_views(v@) == keys@.take(i as int).map_values(
                |k: String| key_step(operation, e.component@, e.version, k),
            ),
        decreases keys.len() - i,
    {
        let ghost before = v@;
        v.push(
            ApplyStep {
                operation,
                component: e.component.clone(),
                version: e.version,
                key: keys[i].clone(),
                value: None,
            },
        );
        assert(keys@.take(i + 1) =~= keys@.take(i as int).push(keys@[i as int]));
        assert(step_views(v@) =~= step_views(before).push(
            key_step(operation, e.component@, e.version, keys@[i as int]),
        ));
        i = i + 1;
    }
    assert(keys@.take(keys.len() as int) == keys@);
    v
}

/// The steps that applying `config` takes, in order, and whether it stops at an
/// entry whose operation and entries do not go together (the steps before that
/// entry are still taken; none after it).
pub fn plan_apply(config: &ConfigFile) -> (r: (Vec<ApplyStep>, bool))
    ensures
        step_views(r.0@) == apply_plan(config.operations@).0,
        r.1 == apply_plan(config.operations@).1,
{
    let ops = &config.operations;
    let mut steps: Vec<ApplyStep> = Vec::new();
    let mut i: usize = 0;
    assert(ops@.take(0) =~= Seq::<Entry>::empty());
    assert(step_views(steps@) =~= Seq::<StepView>::empty());
    while i < ops.len()
        invariant
            ops@ == config.operations@,
            i <= ops.len(),
            apply_plan(ops@.take(i as int)) == (step_views(steps@), false),
        decreases ops.len() - i,
    {
        assert(ops@.take(i + 1).drop_last() =~= ops@.take(i as int));
        assert(ops@.take(i + 1).last() == ops@[i as int]);
        match entry_steps_exec(&ops[i]) {
            None => {
                proof {
                    assert(apply_plan(ops@.take(i + 1)) == (step_views(steps@), true));
                    lemma_plan_stays_stopped(ops@, i as int + 1);
                }
                return (steps, true);
            },
            Some(more) => {
                let mut more = more;
                let ghost before = steps@;
                let ghost added = more@;
                steps.append(&mut more);
                assert(step_views(steps@) =~= step_views(before) + step_views(added));
                i = i + 1;
            },
        }
    }
    assert(ops@.take(ops.len() as int) == ops@);
    (steps, false)
}

/// An entry asks for one step per entry it names, in the order given, each
/// with the entry's operation, component and version; a write carries the value
/// given for its name, a read or delete none. An operation whose entries do not
/// go with it asks for nothing and stops the plan.
pub proof fn lemma_entry_steps_per_name(e: Entry)
    ensures
        match (e.operation, e.entries) {
            (Operation::Write, EntryContent::WriteEntries(kvs)) => {
                &&& entry_steps(e) is Some
                &&& entry_steps(e)->0.len() == kvs.len()
                &&& forall|k: int|
                    0 <= k < kvs.len() ==> (#[trigger] entry_steps(e)->0[k]) == (StepView {
                        operation: Operation::Write,
                        component: e.component@,
                        version: e.version,
                        key: kvs@[k].0@,
                        value: Some(kvs@[k].1@),
                    })
            },
            (Operation::Write, EntryContent::ReadDeleteEntries(_)) => entry_steps(e) is None,
            (_, EntryContent::WriteEntries(_)) => entry_steps(e) is None,
            (op, EntryContent::ReadDeleteEntries(keys)) => {
                &&& entry_steps(e) is Some
                &&& entry_steps(e)->0.len() == keys.len()
                &&& forall|k: int|
                    0 <= k < keys.len() ==> (#[trigger] entry_steps(e)->0[k]) == (StepView {
                        operation: op,
                        component: e.component@,
                        version: e.version,
                        key: keys@[k]@,
                        value: None,
                    })
            },
        },
{
}

/// A plan of one entry takes that entry's steps, and stops exactly where the
/// entry's operation and entries do not go together.
pub proof fn lemma_plan_single(e: Entry)
    ensures
        apply_plan(seq![e]) == match entry_steps(e) {
            Some(s) => (s, false),
            None => (Seq::<StepView>::empty(), true),
        },
{
    let es = seq![e];
    assert(es.drop_last() =~= Seq::<Entry>::empty());
    assert(es.last() == e);
    assert(apply_plan(es.drop_last()) == (Seq::<StepView>::empty(), false));
    match entry_steps(e) {
        Some(s) => {
            assert(Seq::<StepView>::empty() + s =~= s);
        },
        None => {},
    }
}

/// Applying `a` then `b`: where `a` runs through, the steps of `b` follow those
/// of `a` and `b` decides whether the whole stops; where `a` stops, nothing of
/// `b` is taken.
pub proof fn lemma_plan_concat(a: Seq<Entry>, b: Seq<Entry>)
    ensures
        !apply_plan(a).1 ==> apply_plan(a + b) == (apply_plan(a).0 + apply_plan(b).0, apply_plan(b).1),
        apply_plan(a).1 ==> apply_plan(a + b) == apply_plan(a),
    decreases b.len(),
{
    if b.len() == 0 {
        assert(a + b =~= a);
        assert(apply_plan(a).0 + Seq::<StepView>::empty() =~= apply_plan(a).0);
    } else {
        lemma_plan_concat(a, b.drop_last());
        assert((a + b).drop_last() =~= a + b.drop_last());
        assert((a + b).last() == b.last());
        if !apply_plan(a).1 {
            let pa = apply_plan(a).0;
            let pb = apply_plan(b.drop_last()).0;
            match entry_steps(b.last()) {
                Some(s) => {
                    assert(pa + pb + s =~= pa + (pb + s));
                },
                None => {},
            }
        }
    }
}

proof fn lemma_plan_stays_stopped(entries: Seq<Entry>, k: int)
    requires
        0 < k <= entries.len(),
        apply_plan(entries.take(k)).1,
    ensures
        apply_plan(entries) == apply_plan(entries.take(k)),
    decreases entries.len() - k,
{
    if k < entries.len() {
        assert(entries.take(k + 1).drop_last() =~= entries.take(k));
        lemma_plan_stays_stopped(entries, k + 1);
    } else {
        assert(entries.take(k) =~= entries);
    }
}

/// What came of one step: it was done; it was a write of the value the entry
/// already held; or it failed.
#[derive(Clone, Copy, Debug, PartialEq, Eq, Structural)]
pub enum StepResult {
    Done,
    Unchanged,
    Failed,
}

/// The counts that applying a file reports.
#[derive(Clone, Copy, Debug, PartialEq, Eq, Structural)]
pub struct ApplyTally {
    pub writes: u64,
    pub reads: u64,
    pub deletes: u64,
    pub skipped: u64,
}

/// The tally after one more step: a step done counts as a write, read or delete
/// by its operation; a write that changed nothing, and a failed step, count as
/// skipped.
pub open spec fn tally_after(t: ApplyTally, operation: Operation, result: StepResult) -> ApplyTally {
    match result {
        StepResult::Done => match operation {
            Operation::Write => ApplyTally { writes: (t.writes + 1) as u64, ..t },
            Operation::Read => ApplyTally { reads: (t.reads + 1) as u64, ..t },
            Operation::Delete => ApplyTally { deletes: (t.deletes + 1) as u64, ..t },
        },
        _ => ApplyTally { skipped: (t.skipped + 1) as u64, ..t },
    }
}

/// A step counts under its operation only when it was done, and as skipped
/// otherwise; one count goes up by one and the others stay.
pub proof fn lemma_tally_counts_by_result(t: ApplyTally, operation: Operation, result: StepResult)
    requires
        t.writes + t.reads + t.deletes + t.skipped < u64::MAX,
    ensures
        !(result is Done) ==> tally_after(t, operation, result) == (ApplyTally {
            skipped: (t.skipped + 1) as u64,
            ..t
        }),
        result is Done ==> tally_after(t, operation, result).skipped == t.skipped,
        result is Done ==> tally_after(t, operation, result).writes + tally_after(
            t,
            operation,
            result,
        ).reads + tally_after(t, operation, result).deletes == t.writes + t.reads + t.deletes + 1,
        result is Done && operation is Write ==> tally_after(t, operation, result).writes == t.writes + 1,
        result is Done && operation is Read ==> tally_after(t, operation, result).reads == t.reads + 1,
        result is Done && operation is Delete ==> tally_after(t, operation, result).deletes == t.deletes + 1,
{
}

impl ApplyTally {
    /// The number of steps counted.
    pub open spec fn total(self) -> int {
        self.writes + self.reads + self.deletes + self.skipped
    }

    /// A tally of nothing.
    pub fn new() -> (t: ApplyTally)
        ensures
            t == (ApplyTally { writes: 0, reads: 0, deletes: 0, skipped: 0 }),
    {
        ApplyTally { writes: 0, reads: 0, deletes: 0, skipped: 0 }
    }

    /// Counts one more step.
    pub fn record(&mut self, operation: Operation, result: StepResult)
        requires
            old(self).total() < u64::MAX,
        ensures
            *final(self) == tally_after(*old(self), operation, result),
            final(self).total() == old(self).total() + 1,
    {
        match result {
            StepResult::Done => match operation {
                Operation::Write => self.writes = self.writes + 1,
                Operation::Read => self.reads = self.reads + 1,
                Operation::Delete => self.deletes = self.deletes + 1,
            },
            _ => self.skipped = self.skipped + 1,
        }
    }

    /// The closing line of an apply.
    pub fn summary(&self) -> (m: String)
        ensures
            m@ == "Operations completed successfully. "@ + decimal(self.writes as nat)
                + " writes, "@ + decimal(self.reads as nat) + " reads, "@ + decimal(
                self.deletes as nat,
            ) + " deletes, "@ + decimal(self.skipped as nat) + " entries skipped."@,
    {
        let mut m = chars_of("Operations completed successfully. ");
        m = concat_chars(&m, &decimal_chars(self.writes));
        m = concat_chars(&m, &chars_of(" writes, "));
        m = concat_chars(&m, &decimal_chars(self.reads));
        m = concat_chars(&m, &chars_of(" reads, "));
        m = concat_chars(&m, &decimal_chars(self.deletes));
        m = concat_chars(&m, &chars_of(" deletes, "));
        m = concat_chars(&m, &decimal_chars(self.skipped));
        m = concat_chars(&m, &chars_of(" entries skipped."));
        string_of(&m)
    }
}

} // verus!
