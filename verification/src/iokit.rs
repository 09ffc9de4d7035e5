//! The use of the graphics processors, as the I/O registry tells it.

use vstd::prelude::*;

verus! {

/// The statistics of an accelerator.
#[derive(Debug, Clone, Copy, PartialEq, Eq, Structural)]
pub struct PerformanceStatistics {
    /// How busy the device is, in percent.
    pub device_utilization: u8,
}

/// What was read of one accelerator.
#[derive(Debug)]
pub struct IOKitResult {
    pub io_class: String,
    pub performance_statistics: PerformanceStatistics,
}

/// The call into the I/O registry that is due.
#[derive(Debug, Clone, Copy, PartialEq, Eq, Structural)]
pub enum PollStep {
    /// Look for accelerators.
    MatchServices,
    /// Give back the description of what was looked for.
    ReleaseMatching,
    /// Step to the next accelerator.
    NextEntry,
    /// Ask for the properties of the accelerator.
    CreateProperties,
    /// Find the statistics among the properties.
    FindStatistics,
    /// Find the utilization among the statistics.
    FindUtilization,
    /// Read the utilization as a number.
    ReadUtilization,
    /// Give back the properties.
    ReleaseProperties,
    /// Give back the accelerator.
    ReleaseEntry,
    /// Give back the row of accelerators.
    ReleaseIterator,
    /// Nothing is left to do.
    Done,
}

/// How a call into the I/O registry ended.
#[derive(Debug, Clone, Copy, PartialEq, Eq, Structural)]
pub enum PollReply {
    /// It failed, or there was nothing to be found.
    Failed,
    /// It succeeded.
    Succeeded,
    /// It succeeded and read this number.
    Utilization(u8),
}

/// The step that follows `step` when it ended in `reply`.
pub open spec fn step_after(step: PollStep, reply: PollReply) -> PollStep {
    let ok = reply !is Failed;
    match step {
        PollStep::MatchServices => if ok {
            PollStep::NextEntry
        } else {
            PollStep::ReleaseMatching
        },
        PollStep::ReleaseMatching => PollStep::Done,
        PollStep::NextEntry => if ok {
            PollStep::CreateProperties
        } else {
            PollStep::ReleaseIterator
        },
        PollStep::CreateProperties => if ok {
            PollStep::FindStatistics
        } else {
            PollStep::ReleaseEntry
        },
        PollStep::FindStatistics => if ok {
            PollStep::FindUtilization
        } else {
            PollStep::ReleaseProperties
        },
        PollStep::FindUtilization => if ok {
            PollStep::ReadUtilization
        } else {
            PollStep::ReleaseProperties
        },
        PollStep::ReadUtilization => PollStep::ReleaseProperties,
        PollStep::ReleaseProperties => PollStep::ReleaseEntry,
        PollStep::ReleaseEntry => PollStep::NextEntry,
        PollStep::ReleaseIterator => PollStep::Done,
        PollStep::Done => PollStep::Done,
    }
}

/// The readings after `step` ended in `reply`.
pub open spec fn readings_after(readings: Seq<u8>, step: PollStep, reply: PollReply) -> Seq<u8> {
    match (step, reply) {
        (PollStep::ReadUtilization, PollReply::Utilization(v)) => readings.push(v),
        _ => readings,
    }
}

/// The largest of `readings`, or zero where there is none.
pub open spec fn largest(readings: Seq<u8>) -> u8
    decreases readings.len(),
{
    if readings.len() == 0 {
        0
    } else {
        let before = largest(readings.drop_last());
        if readings.last() > before {
            readings.last()
        } else {
            before
        }
    }
}

/// The utilization of each result.
pub open spec fn utilizations(results: Seq<IOKitResult>) -> Seq<u8> {
    Seq::new(results.len(), |i: int| results[i].performance_statistics.device_utilization)
}

/// What the last poll of the I/O registry has found.
#[derive(Debug)]
pub struct IOKitRegistry {
    last_result: Vec<IOKitResult>,
    step: PollStep,
}

impl IOKitRegistry {
    /// What has been read since the last poll began.
    pub closed spec fn results(&self) -> Seq<IOKitResult> {
        self.last_result@
    }

    /// The utilizations that have been read since the last poll began.
    pub open spec fn readings(&self) -> Seq<u8> {
        utilizations(self.results())
    }

    /// The call that is due.
    pub closed spec fn due(&self) -> PollStep {
        self.step
    }

    /// No result names its class.
    pub open spec fn wf(&self) -> bool {
        forall|i: int|
            0 <= i < self.results().len() ==> (#[trigger] self.results()[i]).io_class@.len() == 0
    }

    /// A registry that has not been polled.
    pub fn new() -> (r: IOKitRegistry)
        ensures
            r.wf(),
            r.results().len() == 0,
            r.due() == PollStep::Done,
    {
        IOKitRegistry { last_result: Vec::new(), step: PollStep::Done }
    }

    /// Begins a poll: forgets what the last one found. The caller makes the
    /// call that is due and tells `advance` how it ended, until nothing is due.
    pub fn poll(&mut self) -> (r: PollStep)
        ensures
            final(self).wf(),
            final(self).results().len() == 0,
            final(self).due() == PollStep::MatchServices,
            r == final(self).due(),
    {
        self.last_result.clear();
        self.step = PollStep::MatchServices;
        self.step
    }

    /// Goes on with a poll after the call that was due ended in `reply`.
    pub fn advance(&mut self, reply: PollReply) -> (r: PollStep)
        requires
            old(self).wf(),
        ensures
            final(self).wf(),
            final(self).readings() == readings_after(old(self).readings(), old(self).due(), reply),
            final(self).due() == step_after(old(self).due(), reply),
            r == final(self).due(),
    {
        let ok: bool = match reply {
            PollReply::Failed => false,
            _ => true,
        };
        let next = match self.step {
            PollStep::MatchServices => if ok {
                PollStep::NextEntry
            } else {
                PollStep::ReleaseMatching
            },
            PollStep::ReleaseMatching => PollStep::Done,
            PollStep::NextEntry => if ok {
                PollStep::CreateProperties
            } else {
                PollStep::ReleaseIterator
            },
            PollStep::CreateProperties => if ok {
                PollStep::FindStatistics
            } else {
                PollStep::ReleaseEntry
            },
            PollStep::FindStatistics => if ok {
                PollStep::FindUtilization
            } else {
                PollStep::ReleaseProperties
            },
            PollStep::FindUtilization => if ok {
                PollStep::ReadUtilization
            } else {
                PollStep::ReleaseProperties
            },
            PollStep::ReadUtilization => {
                if let PollReply::Utilization(device_utilization) = reply {
                    self.last_result.push(
                        IOKitResult {
                            io_class: String::new(),
                            performance_statistics: PerformanceStatistics { device_utilization },
                        },
                    );
                }
                PollStep::ReleaseProperties
            },
            PollStep::ReleaseProperties => PollStep::ReleaseEntry,
            PollStep::ReleaseEntry => PollStep::NextEntry,
            PollStep::ReleaseIterator => PollStep::Done,
            PollStep::Done => PollStep::Done,
        };
        self.step = next;
        assert(self.readings() =~= readings_after(old(self).readings(), old(self).due(), reply));
        next
    }

    /// The use of the busiest accelerator, in percent.
    pub fn sys_gpu_usage(&self) -> (r: u8)
        ensures
            r == largest(self.readings()),
    {
        let mut max: u8 = 0;
        let mut i: usize = 0;
        assert(self.readings().take(0) =~= Seq::empty());
        while i < self.last_result.len()
            invariant
                i <= self.last_result@.len(),
                self.results() == self.last_result@,
                max == largest(self.readings().take(i as int)),
            decreases self.last_result.len() - i,
        {
            let v: u8 = self.last_result[i].performance_statistics.device_utilization;
            assert(self.readings().take(i + 1).drop_last() =~= self.readings().take(i as int));
            assert(self.readings().take(i + 1).last() == v);
            if v > max {
                max = v;
            }
            i += 1;
        }
        assert(self.readings().take(self.readings().len() as int) =~= self.readings());
        max
    }
}

// ---------------------------------------------------------------------------
// Laws
// ---------------------------------------------------------------------------

/// The use of the busiest accelerator is that of one of them, and no other is
/// busier; it is zero where there is none.
pub proof fn law_largest(readings: Seq<u8>)
    ensures
        forall|i: int| 0 <= i < readings.len() ==> readings[i] <= largest(readings),
        readings.len() > 0 ==> readings.contains(largest(readings)),
        readings.len() == 0 ==> largest(readings) == 0,
    decreases readings.len(),
{
    if readings.len() > 0 {
        let before = readings.drop_last();
        law_largest(before);
        assert forall|i: int| 0 <= i < readings.len() implies readings[i] <= largest(
            readings,
        ) by {
            if i < before.len() {
                assert(readings[i] == before[i]);
            }
        }
        if readings.last() >= largest(before) {
            assert(readings[readings.len() - 1] == largest(readings));
        } else {
            let i = choose|i: int| 0 <= i < before.len() && before[i] == largest(before);
            assert(readings[i] == largest(readings));
        }
    }
}

/// The objects of the I/O registry that the caller holds.
pub struct Held {
    /// The description of what is looked for.
    pub matching: bool,
    /// The row of accelerators.
    pub iterator: bool,
    /// An accelerator.
    pub entry: bool,
    /// Its properties.
    pub properties: bool,
}

/// What is held when `step` is due.
pub open spec fn held(step: PollStep) -> Held {
    Held {
        matching: step is MatchServices || step is ReleaseMatching,
        iterator: !(step is MatchServices || step is ReleaseMatching || step is Done),
        entry: step is CreateProperties || step is FindStatistics || step is FindUtilization
            || step is ReadUtilization || step is ReleaseProperties || step is ReleaseEntry,
        properties: step is FindStatistics || step is FindUtilization || step is ReadUtilization
            || step is ReleaseProperties,
    }
}

/// What is held once `step` has ended in `reply`, with `before` held until
/// then. Looking for accelerators uses up the description if it succeeds.
pub open spec fn held_after(before: Held, step: PollStep, reply: PollReply) -> Held {
    let ok = reply !is Failed;
    match step {
        PollStep::MatchServices => if ok {
            Held { matching: false, iterator: true, ..before }
        } else {
            before
        },
        PollStep::ReleaseMatching => Held { matching: false, ..before },
        PollStep::NextEntry => Held { entry: before.entry || ok, ..before },
        PollStep::CreateProperties => Held { properties: before.properties || ok, ..before },
        PollStep::ReleaseProperties => Held { properties: false, ..before },
        PollStep::ReleaseEntry => Held { entry: false, ..before },
        PollStep::ReleaseIterator => Held { iterator: false, ..before },
        _ => before,
    }
}

/// What is held is known from the step that is due, whatever the calls came
/// to. No object is asked for while another of its kind is held, none is given
/// back that is not held, and none is held when nothing is left to do.
pub proof fn law_poll_holds_what_it_must(step: PollStep, reply: PollReply)
    ensures
        held(step_after(step, reply)) == held_after(held(step), step, reply),
        step is NextEntry ==> held(step).iterator && !held(step).entry && !held(step).properties,
        step is CreateProperties ==> held(step).entry && !held(step).properties,
        step is FindStatistics || step is FindUtilization || step is ReadUtilization ==> held(
            step,
        ).properties,
        step is ReleaseMatching ==> held(step).matching,
        step is ReleaseProperties ==> held(step).properties,
        step is ReleaseEntry ==> held(step).entry && !held(step).properties,
        step is ReleaseIterator ==> held(step).iterator && !held(step).entry && !held(
            step,
        ).properties,
        held(PollStep::Done) == (Held {
            matching: false,
            iterator: false,
            entry: false,
            properties: false,
        }),
{
}

/// An accelerator, by what the calls about it come to.
pub enum Accelerator {
    /// Its properties cannot be had.
    NoProperties,
    /// Its properties hold no statistics.
    NoStatistics,
    /// Its statistics hold no utilization.
    NoUtilization,
    /// Its utilization is not a number.
    NotANumber,
    /// Its utilization.
    Busy(u8),
}

/// How the calls about one accelerator end, from the step to it until it has
/// been given back.
pub open spec fn replies_of(a: Accelerator) -> Seq<PollReply> {
    let yes = PollReply::Succeeded;
    let no = PollReply::Failed;
    match a {
        Accelerator::NoProperties => seq![yes, no, yes],
        Accelerator::NoStatistics => seq![yes, yes, no, yes, yes],
        Accelerator::NoUtilization => seq![yes, yes, yes, no, yes, yes],
        Accelerator::NotANumber => seq![yes, yes, yes, yes, no, yes, yes],
        Accelerator::Busy(v) => seq![yes, yes, yes, yes, PollReply::Utilization(v), yes, yes],
    }
}

/// How the calls of a poll end on a machine with `accelerators`.
pub open spec fn replies_of_all(accelerators: Seq<Accelerator>) -> Seq<PollReply>
    decreases accelerators.len(),
{
    if accelerators.len() == 0 {
        seq![PollReply::Succeeded]
    } else {
        replies_of_all(accelerators.drop_last()) + replies_of(accelerators.last())
    }
}

/// The utilizations of those accelerators that tell theirs.
pub open spec fn busy(accelerators: Seq<Accelerator>) -> Seq<u8>
    decreases accelerators.len(),
{
    if accelerators.len() == 0 {
        Seq::empty()
    } else {
        let before = busy(accelerators.drop_last());
        match accelerators.last() {
            Accelerator::Busy(v) => before.push(v),
            _ => before,
        }
    }
}

/// The step that is due after a poll has been given all of `replies`.
pub open spec fn step_after_all(replies: Seq<PollReply>) -> PollStep
    decreases replies.len(),
{
    if replies.len() == 0 {
        PollStep::MatchServices
    } else {
        step_after(step_after_all(replies.drop_last()), replies.last())
    }
}

/// The readings after a poll has been given all of `replies`.
pub open spec fn readings_after_all(replies: Seq<PollReply>) -> Seq<u8>
    decreases replies.len(),
{
    if replies.len() == 0 {
        Seq::empty()
    } else {
        readings_after(
            readings_after_all(replies.drop_last()),
            step_after_all(replies.drop_last()),
            replies.last(),
        )
    }
}

proof fn lemma_one_more(replies: Seq<PollReply>, reply: PollReply)
    ensures
        step_after_all(replies.push(reply)) == step_after(step_after_all(replies), reply),
        readings_after_all(replies.push(reply)) == readings_after(
            readings_after_all(replies),
            step_after_all(replies),
            reply,
        ),
{
    assert(replies.push(reply).drop_last() =~= replies);
}

proof fn lemma_one_accelerator(before: Seq<PollReply>, a: Accelerator)
    requires
        step_after_all(before) == PollStep::NextEntry,
    ensures
        step_after_all(before + replies_of(a)) == PollStep::NextEntry,
        readings_after_all(before + replies_of(a)) == match a {
            Accelerator::Busy(v) => readings_after_all(before).push(v),
            _ => readings_after_all(before),
        },
{
    let r = replies_of(a);
    let r1 = before.push(r[0]);
    lemma_one_more(before, r[0]);
    let r2 = r1.push(r[1]);
    lemma_one_more(r1, r[1]);
    let r3 = r2.push(r[2]);
    lemma_one_more(r2, r[2]);
    if a is NoProperties {
        assert(before + r =~= r3);
    } else {
        let r4 = r3.push(r[3]);
        lemma_one_more(r3, r[3]);
        let r5 = r4.push(r[4]);
        lemma_one_more(r4, r[4]);
        if a is NoStatistics {
            assert(before + r =~= r5);
        } else {
            let r6 = r5.push(r[5]);
            lemma_one_more(r5, r[5]);
            if a is NoUtilization {
                assert(before + r =~= r6);
            } else {
                let r7 = r6.push(r[6]);
                lemma_one_more(r6, r[6]);
                assert(before + r =~= r7);
            }
        }
    }
}

proof fn lemma_all_accelerators(accelerators: Seq<Accelerator>)
    ensures
        step_after_all(replies_of_all(accelerators)) == PollStep::NextEntry,
        readings_after_all(replies_of_all(accelerators)) == busy(accelerators),
    decreases accelerators.len(),
{
    if accelerators.len() == 0 {
        lemma_one_more(Seq::empty(), PollReply::Succeeded);
        assert(Seq::empty().push(PollReply::Succeeded) =~= seq![PollReply::Succeeded]);
        assert(readings_after_all(Seq::<PollReply>::empty()) =~= Seq::empty());
    } else {
        lemma_all_accelerators(accelerators.drop_last());
        lemma_one_accelerator(replies_of_all(accelerators.drop_last()), accelerators.last());
    }
}

/// A poll finds the utilization of every accelerator that tells its own, in
/// the order of the accelerators, and then comes to its end.
pub proof fn law_poll_reads_every_accelerator(accelerators: Seq<Accelerator>)
    ensures
        ({
            let replies = replies_of_all(accelerators).push(PollReply::Failed).push(
                PollReply::Succeeded,
            );
            &&& step_after_all(replies) == PollStep::Done
            &&& readings_after_all(replies) == busy(accelerators)
        }),
{
    let all = replies_of_all(accelerators);
    lemma_all_accelerators(accelerators);
    lemma_one_more(all, PollReply::Failed);
    lemma_one_more(all.push(PollReply::Failed), PollReply::Succeeded);
}

/// A poll that cannot look for accelerators finds nothing and comes to its
/// end.
pub proof fn law_poll_without_services(reply: PollReply)
    ensures
        step_after_all(seq![PollReply::Failed, reply]) == PollStep::Done,
        readings_after_all(seq![PollReply::Failed, reply]).len() == 0,
{
    lemma_one_more(Seq::empty(), PollReply::Failed);
    lemma_one_more(seq![PollReply::Failed], reply);
    assert(Seq::empty().push(PollReply::Failed) =~= seq![PollReply::Failed]);
    assert(seq![PollReply::Failed].push(reply) =~= seq![PollReply::Failed, reply]);
}

/// Two rows of accelerators tell what the one tells and then what the other
/// tells. One tells its utilization if it can be read, and nothing if not.
pub proof fn law_busy_adds_up(a: Seq<Accelerator>, b: Seq<Accelerator>, one: Accelerator)
    ensures
        busy(Seq::empty()) == Seq::<u8>::empty(),
        busy(seq![one]) == match one {
            Accelerator::Busy(v) => seq![v],
            _ => Seq::empty(),
        },
        busy(a + b) == busy(a) + busy(b),
    decreases b.len(),
{
    reveal_with_fuel(busy, 2);
    assert(seq![one].drop_last() =~= Seq::empty());
    assert(busy(seq![one]) =~= match one {
        Accelerator::Busy(v) => seq![v],
        _ => Seq::empty(),
    });
    if b.len() == 0 {
        assert(a + b =~= a);
        assert(busy(a) + busy(b) =~= busy(a));
    } else {
        law_busy_adds_up(a, b.drop_last(), one);
        assert((a + b).drop_last() =~= a + b.drop_last());
        assert((a + b).last() == b.last());
        assert(busy(a + b) =~= busy(a) + busy(b));
    }
}

/// Every result has its utilization among the readings, in its place.
pub proof fn law_readings_are_the_results(registry: &IOKitRegistry)
    ensures
        registry.readings().len() == registry.results().len(),
        forall|i: int|
            0 <= i < registry.results().len() ==> #[trigger] registry.readings()[i]
                == registry.results()[i].performance_statistics.device_utilization,
{
}

/// A number read as a utilization is kept, whatever it is; nothing else is, and
/// nothing that was kept is lost.
pub proof fn law_every_reading_is_kept(
    readings: Seq<u8>,
    step: PollStep,
    reply: PollReply,
    v: u8,
)
    ensures
        readings_after(readings, PollStep::ReadUtilization, PollReply::Utilization(v))
            == readings + seq![v],
        step != PollStep::ReadUtilization ==> readings_after(readings, step, reply) == readings,
        reply == PollReply::Failed || reply == PollReply::Succeeded ==> readings_after(
            readings,
            step,
            reply,
        ) == readings,
{
    assert(readings.push(v) =~= readings + seq![v]);
}

/// A number counts as success. What follows a release, or the reading itself,
/// does not depend on how it ended, and a poll that is done stays done.
pub proof fn law_poll_goes_on(step: PollStep, reply: PollReply, v: u8)
    ensures
        step_after(step, PollReply::Utilization(v)) == step_after(step, PollReply::Succeeded),
        step is ReleaseMatching || step is ReleaseIterator || step is Done ==> step_after(
            step,
            reply,
        ) == PollStep::Done,
        step is ReadUtilization ==> step_after(step, reply) == PollStep::ReleaseProperties,
        step is ReleaseProperties ==> step_after(step, reply) == PollStep::ReleaseEntry,
        step is ReleaseEntry ==> step_after(step, reply) == PollStep::NextEntry,
{
}

} // verus!
