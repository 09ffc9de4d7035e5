//! The figures gathered from helper commands, per tracked process.

use vstd::prelude::*;

use crate::power::PowerMetricsResult;
use crate::power::ProcessorInfo;
use crate::power::Real32;
use crate::Pid;

verus! {

/// What is known of one process. A helper command sends one of these with the
/// counts it has just seen; the source keeps one for each tracked process.
#[derive(Debug, Clone, Copy)]
pub struct ProcessCommandResult {
    pub pid: Pid,
    pub bytes_in: u32,
    pub bytes_in_per_sec: u32,
    pub bytes_out: u32,
    pub bytes_out_per_sec: u32,
    pub frame: u32,
    pub frame_per_sec: Real32,
    pub mach_ports: u32,
}

impl ProcessCommandResult {
    /// The record of `pid` with every figure zero.
    pub open spec fn blank(pid: Pid) -> ProcessCommandResult {
        ProcessCommandResult {
            pid,
            bytes_in: 0,
            bytes_in_per_sec: 0,
            bytes_out: 0,
            bytes_out_per_sec: 0,
            frame: 0,
            frame_per_sec: Real32 { bits: 0 },
            mach_ports: 0,
        }
    }

    /// The record of `pid` with every figure zero.
    pub fn of(pid: Pid) -> (r: ProcessCommandResult)
        ensures
            r == ProcessCommandResult::blank(pid),
    {
        ProcessCommandResult {
            pid,
            bytes_in: 0,
            bytes_in_per_sec: 0,
            bytes_out: 0,
            bytes_out_per_sec: 0,
            frame: 0,
            frame_per_sec: Real32 { bits: 0 },
            mach_ports: 0,
        }
    }

    /// The counts since the last update are all zero.
    pub open spec fn at_rest(self) -> bool {
        self.bytes_in == 0 && self.bytes_out == 0 && self.frame == 0
    }
}

impl Default for ProcessCommandResult {
    fn default() -> (r: Self)
        ensures
            r == ProcessCommandResult::blank(0),
    {
        ProcessCommandResult::of(0)
    }
}

// ---------------------------------------------------------------------------
// What a batch of results says of one process
// ---------------------------------------------------------------------------

/// What `received` reports for `pid`, added up; `count` says what is counted.
pub open spec fn total(
    received: Seq<ProcessCommandResult>,
    pid: Pid,
    count: spec_fn(ProcessCommandResult) -> nat,
) -> nat
    decreases received.len(),
{
    if received.len() == 0 {
        0
    } else {
        total(received.drop_last(), pid, count) + if received.last().pid == pid {
            count(received.last())
        } else {
            0
        }
    }
}

/// The bytes that `received` reports as read by `pid`.
pub open spec fn total_bytes_in(received: Seq<ProcessCommandResult>, pid: Pid) -> nat {
    total(received, pid, |p: ProcessCommandResult| p.bytes_in as nat)
}

/// The bytes that `received` reports as written by `pid`.
pub open spec fn total_bytes_out(received: Seq<ProcessCommandResult>, pid: Pid) -> nat {
    total(received, pid, |p: ProcessCommandResult| p.bytes_out as nat)
}

/// The frames that `received` reports for `pid`.
pub open spec fn total_frames(received: Seq<ProcessCommandResult>, pid: Pid) -> nat {
    total(received, pid, |p: ProcessCommandResult| p.frame as nat)
}

/// The number of Mach ports in the latest result for `pid`, or `before` where
/// there is none.
pub open spec fn latest_mach_ports(
    received: Seq<ProcessCommandResult>,
    pid: Pid,
    before: u32,
) -> u32
    decreases received.len(),
{
    if received.len() == 0 {
        before
    } else if received.last().pid == pid {
        received.last().mach_ports
    } else {
        latest_mach_ports(received.drop_last(), pid, before)
    }
}

/// No total of `received` for `pid` is too large for its counter.
pub open spec fn totals_fit(received: Seq<ProcessCommandResult>, pid: Pid) -> bool {
    &&& total_bytes_in(received, pid) <= u32::MAX
    &&& total_bytes_out(received, pid) <= u32::MAX
    &&& total_frames(received, pid) <= u32::MAX
}

// ---------------------------------------------------------------------------
// The records of the tracked processes
// ---------------------------------------------------------------------------

/// The first record of `pid`.
pub open spec fn lookup(records: Seq<ProcessCommandResult>, pid: Pid) -> Option<
    ProcessCommandResult,
>
    decreases records.len(),
{
    if records.len() == 0 {
        None
    } else if records[0].pid == pid {
        Some(records[0])
    } else {
        lookup(records.drop_first(), pid)
    }
}

/// The record at `i` is the first one of its process.
pub open spec fn is_first(records: Seq<ProcessCommandResult>, i: int) -> bool {
    forall|j: int| 0 <= j < i ==> (#[trigger] records[j]).pid != records[i].pid
}

/// The record at `i` once the counts of `received` have been added. They go to
/// the first record of the process alone.
pub open spec fn absorbed(
    records: Seq<ProcessCommandResult>,
    received: Seq<ProcessCommandResult>,
    i: int,
) -> ProcessCommandResult {
    let p = records[i];
    if is_first(records, i) {
        ProcessCommandResult {
            bytes_in: total_bytes_in(received, p.pid) as u32,
            bytes_out: total_bytes_out(received, p.pid) as u32,
            frame: total_frames(received, p.pid) as u32,
            mach_ports: latest_mach_ports(received, p.pid, p.mach_ports),
            ..p
        }
    } else {
        p
    }
}

/// `after` is what the records `before` become in an update with `received`:
/// the counts of each process are turned into rates by `per_sec` and
/// `frames_per_sec`, and are zero again.
pub open spec fn refreshes<P: Fn(u32) -> u32, Q: Fn(u32) -> Real32>(
    before: Seq<ProcessCommandResult>,
    received: Seq<ProcessCommandResult>,
    after: Seq<ProcessCommandResult>,
    per_sec: P,
    frames_per_sec: Q,
) -> bool {
    &&& after.len() == before.len()
    &&& forall|i: int|
        0 <= i < before.len() ==> {
            let counted = absorbed(before, received, i);
            let p = #[trigger] after[i];
            &&& p.pid == before[i].pid
            &&& p.at_rest()
            &&& call_ensures(per_sec, (counted.bytes_in,), p.bytes_in_per_sec)
            &&& call_ensures(per_sec, (counted.bytes_out,), p.bytes_out_per_sec)
            &&& call_ensures(frames_per_sec, (counted.frame,), p.frame_per_sec)
            &&& p.mach_ports == counted.mach_ports
        }
}

/// What one more result adds to the figures of `pid`.
proof fn lemma_absorb_one(
    received: Seq<ProcessCommandResult>,
    k: int,
    pid: Pid,
    before: u32,
)
    requires
        0 <= k < received.len(),
    ensures
        total_bytes_in(received.take(k + 1), pid) == total_bytes_in(received.take(k), pid)
            + if received[k].pid == pid {
            received[k].bytes_in as nat
        } else {
            0
        },
        total_bytes_out(received.take(k + 1), pid) == total_bytes_out(received.take(k), pid)
            + if received[k].pid == pid {
            received[k].bytes_out as nat
        } else {
            0
        },
        total_frames(received.take(k + 1), pid) == total_frames(received.take(k), pid)
            + if received[k].pid == pid {
            received[k].frame as nat
        } else {
            0
        },
        totals_fit(received, pid) ==> totals_fit(received.take(k + 1), pid),
        latest_mach_ports(received.take(k + 1), pid, before) == if received[k].pid == pid {
            received[k].mach_ports
        } else {
            latest_mach_ports(received.take(k), pid, before)
        },
{
    assert(received.take(k + 1).drop_last() =~= received.take(k));
    assert(received.take(k + 1).last() == received[k]);
    lemma_total_grows(received, k + 1, pid, |p: ProcessCommandResult| p.bytes_in as nat);
    lemma_total_grows(received, k + 1, pid, |p: ProcessCommandResult| p.bytes_out as nat);
    lemma_total_grows(received, k + 1, pid, |p: ProcessCommandResult| p.frame as nat);
}

proof fn lemma_total_grows(
    received: Seq<ProcessCommandResult>,
    k: int,
    pid: Pid,
    count: spec_fn(ProcessCommandResult) -> nat,
)
    requires
        0 <= k <= received.len(),
    ensures
        total(received.take(k), pid, count) <= total(received, pid, count),
    decreases received.len() - k,
{
    if k == received.len() {
        assert(received.take(k) =~= received);
    } else {
        lemma_total_grows(received, k + 1, pid, count);
        assert(received.take(k + 1).drop_last() =~= received.take(k));
    }
}

/// The place of the first record of `pid`.
fn position(records: &Vec<ProcessCommandResult>, pid: Pid) -> (r: Option<usize>)
    ensures
        match r {
            Some(at) => {
                &&& at < records@.len()
                &&& records@[at as int].pid == pid
                &&& forall|j: int| 0 <= j < at ==> (#[trigger] records@[j]).pid != pid
                &&& lookup(records@, pid) == Some(records@[at as int])
            },
            None => {
                &&& forall|j: int| 0 <= j < records@.len() ==> (#[trigger] records@[j]).pid != pid
                &&& lookup(records@, pid) is None
            },
        },
{
    let mut i: usize = 0;
    assert(records@.skip(0) =~= records@);
    while i < records.len()
        invariant
            i <= records.len(),
            forall|j: int| 0 <= j < i ==> (#[trigger] records@[j]).pid != pid,
            lookup(records@, pid) == lookup(records@.skip(i as int), pid),
        decreases records.len() - i,
    {
        if records[i].pid == pid {
            return Some(i);
        }
        assert(records@.skip(i as int).drop_first() =~= records@.skip(i + 1));
        i += 1;
    }
    None
}

/// Whether the totals of `received` for `pid` fit their counters.
fn fits(received: &Vec<ProcessCommandResult>, pid: Pid) -> (r: bool)
    ensures
        r == totals_fit(received@, pid),
{
    let mut bytes_in: u128 = 0;
    let mut bytes_out: u128 = 0;
    let mut frames: u128 = 0;
    let mut k: usize = 0;
    assert(received@.take(0) =~= Seq::empty());
    while k < received.len()
        invariant
            k <= received.len(),
            bytes_in == total_bytes_in(received@.take(k as int), pid),
            bytes_out == total_bytes_out(received@.take(k as int), pid),
            frames == total_frames(received@.take(k as int), pid),
            bytes_in <= k * 0xffff_ffff,
            bytes_out <= k * 0xffff_ffff,
            frames <= k * 0xffff_ffff,
        decreases received.len() - k,
    {
        let r = received[k];
        proof {
            lemma_absorb_one(received@, k as int, pid, 0);
        }
        if r.pid == pid {
            bytes_in = bytes_in + r.bytes_in as u128;
            bytes_out = bytes_out + r.bytes_out as u128;
            frames = frames + r.frame as u128;
        }
        k += 1;
    }
    assert(received@.take(received@.len() as int) =~= received@);
    bytes_in <= 0xffff_ffff && bytes_out <= 0xffff_ffff && frames <= 0xffff_ffff
}

/// The bytes per second that `pid` has read, as `records` has it.
pub open spec fn net_traffic_in_of(records: Seq<ProcessCommandResult>, pid: Pid) -> Option<u32> {
    match lookup(records, pid) {
        Some(p) => Some(p.bytes_in_per_sec),
        None => None,
    }
}

/// The bytes per second that `pid` has written, as `records` has it.
pub open spec fn net_traffic_out_of(records: Seq<ProcessCommandResult>, pid: Pid) -> Option<u32> {
    match lookup(records, pid) {
        Some(p) => Some(p.bytes_out_per_sec),
        None => None,
    }
}

/// The frames per second that `pid` has shown, as `records` has it.
pub open spec fn frame_per_sec_of(records: Seq<ProcessCommandResult>, pid: Pid) -> Option<Real32> {
    match lookup(records, pid) {
        Some(p) => Some(p.frame_per_sec),
        None => None,
    }
}

/// The number of Mach ports of `pid`, as `records` has it.
pub open spec fn mach_ports_of(records: Seq<ProcessCommandResult>, pid: Pid) -> Option<u32> {
    match lookup(records, pid) {
        Some(p) => Some(p.mach_ports),
        None => None,
    }
}

/// The records of `pids` before anything is known of them.
pub open spec fn first_records(pids: Seq<Pid>) -> Seq<ProcessCommandResult> {
    Seq::new(pids.len(), |i: int| ProcessCommandResult::blank(pids[i]))
}

/// The helper commands to start for `pids`, of those asked for.
pub open spec fn runners_for(
    pids: Seq<Pid>,
    net_traffic: bool,
    frame_rate: bool,
    top: bool,
) -> Runners {
    Runners {
        net_traffic: net_traffic && pids.len() > 0,
        frame_rate: frame_rate && pids.len() > 0,
        top: top && pids.len() > 0,
    }
}

/// `out` holds what `to_mhz` gives for each of `hz`, in its place.
pub open spec fn converted<M: Fn(Real32) -> Real32>(
    hz: Seq<Real32>,
    to_mhz: M,
    out: Seq<Real32>,
) -> bool {
    &&& out.len() == hz.len()
    &&& forall|i: int| 0 <= i < out.len() ==> call_ensures(to_mhz, (hz[i],), #[trigger] out[i])
}

/// Which helper commands are to be started.
#[derive(Debug, Clone, Copy, PartialEq, Eq, Structural)]
pub struct Runners {
    pub net_traffic: bool,
    pub frame_rate: bool,
    pub top: bool,
}

/// The figures of the tracked processes and of the processors.
#[derive(Debug)]
pub struct CommandSource {
    power_metrics_result: PowerMetricsResult,
    process_command_result: Vec<ProcessCommandResult>,
}

impl CommandSource {
    /// The records of the tracked processes.
    pub closed spec fn records(&self) -> Seq<ProcessCommandResult> {
        self.process_command_result@
    }

    /// The latest report of `powermetrics`.
    pub closed spec fn power_metrics(&self) -> PowerMetricsResult {
        self.power_metrics_result
    }

    /// Between updates every count is zero.
    pub open spec fn wf(&self) -> bool {
        forall|i: int| 0 <= i < self.records().len() ==> (#[trigger] self.records()[i]).at_rest()
    }

    /// The totals of `received` fit the counters of every tracked process.
    pub open spec fn can_count(&self, received: Seq<ProcessCommandResult>) -> bool {
        forall|i: int|
            0 <= i < self.records().len() ==> totals_fit(
                received,
                (#[trigger] self.records()[i]).pid,
            )
    }

    /// Starts to track `pids`, with a blank record for each of them, and says
    /// which helper commands are to be started: those asked for, if there is a
    /// process to watch.
    pub fn new(pids: &Vec<Pid>, net_traffic: bool, frame_rate: bool, top: bool) -> (r: (
        CommandSource,
        Runners,
    ))
        ensures
            r.0.wf(),
            r.0.records() == Seq::new(
                pids@.len(),
                |i: int| ProcessCommandResult::blank(pids@[i]),
            ),
            r.0.power_metrics().tasks@.len() == 0,
            r.0.power_metrics().processor.clusters@.len() == 0,
            r.0.power_metrics().processor.packages@.len() == 0,
            r.1.net_traffic == (net_traffic && pids@.len() > 0),
            r.1.frame_rate == (frame_rate && pids@.len() > 0),
            r.1.top == (top && pids@.len() > 0),
            r.0.records() == first_records(pids@),
            r.1 == runners_for(pids@, net_traffic, frame_rate, top),
    {
        let mut records: Vec<ProcessCommandResult> = Vec::new();
        let mut i: usize = 0;
        while i < pids.len()
            invariant
                i <= pids.len(),
                records@.len() == i,
                forall|j: int|
                    0 <= j < i ==> #[trigger] records@[j] == ProcessCommandResult::blank(pids@[j]),
            decreases pids.len() - i,
        {
            records.push(ProcessCommandResult::of(pids[i]));
            i += 1;
        }
        let some: bool = pids.len() > 0;
        let source = CommandSource {
            power_metrics_result: PowerMetricsResult {
                tasks: Vec::new(),
                processor: ProcessorInfo { clusters: Vec::new(), packages: Vec::new() },
            },
            process_command_result: records,
        };
        assert(source.records() =~= Seq::new(
            pids@.len(),
            |i: int| ProcessCommandResult::blank(pids@[i]),
        ));
        (
            source,
            Runners { net_traffic: net_traffic && some, frame_rate: frame_rate && some, top: top
                && some },
        )
    }

    /// Whether the totals of `received` fit the counters.
    pub fn accepts(&self, received: &Vec<ProcessCommandResult>) -> (r: bool)
        ensures
            r == self.can_count(received@),
    {
        let mut i: usize = 0;
        while i < self.process_command_result.len()
            invariant
                i <= self.records().len(),
                self.records() == self.process_command_result@,
                forall|j: int|
                    0 <= j < i ==> totals_fit(received@, (#[trigger] self.records()[j]).pid),
            decreases self.process_command_result.len() - i,
        {
            let pid = self.process_command_result[i].pid;
            if !fits(received, pid) {
                assert(!totals_fit(received@, self.records()[i as int].pid));
                return false;
            }
            i += 1;
        }
        true
    }

    /// Adds up the results received since the last update and turns the counts
    /// of each process into rates. `per_sec` and `frames_per_sec` divide a
    /// count by the time since the last update.
    pub fn update<P: Fn(u32) -> u32, Q: Fn(u32) -> Real32>(
        &mut self,
        received: &Vec<ProcessCommandResult>,
        per_sec: P,
        frames_per_sec: Q,
    )
        requires
            old(self).wf(),
            old(self).can_count(received@),
            forall|n: u32| call_requires(per_sec, (n,)),
            forall|n: u32| call_requires(frames_per_sec, (n,)),
        ensures
            final(self).wf(),
            refreshes(
                old(self).records(),
                received@,
                final(self).records(),
                per_sec,
                frames_per_sec,
            ),
            final(self).power_metrics() == old(self).power_metrics(),
    {
        let ghost before = self.records();
        let mut k: usize = 0;
        assert(received@.take(0) =~= Seq::empty());
        while k < received.len()
            invariant
                k <= received.len(),
                before == old(self).records(),
                old(self).wf(),
                old(self).can_count(received@),
                self.power_metrics() == old(self).power_metrics(),
                self.process_command_result@.len() == before.len(),
                forall|i: int|
                    0 <= i < before.len() ==> #[trigger] self.process_command_result@[i]
                        == absorbed(before, received@.take(k as int), i),
            decreases received.len() - k,
        {
            let r = received[k];
            let ghost taken = self.process_command_result@;
            match position(&self.process_command_result, r.pid) {
                Some(at) => {
                    let mut p = self.process_command_result[at];
                    proof {
                        assert(before[at as int].pid == r.pid);
                        assert(is_first(before, at as int)) by {
                            assert forall|j: int| 0 <= j < at implies (#[trigger] before[j]).pid
                                != before[at as int].pid by {
                                assert(taken[j].pid == before[j].pid);
                            }
                        }
                        assert(totals_fit(received@, before[at as int].pid));
                        lemma_absorb_one(received@, k as int, r.pid, before[at as int].mach_ports);
                    }
                    p.bytes_in = p.bytes_in + r.bytes_in;
                    p.bytes_out = p.bytes_out + r.bytes_out;
                    p.frame = p.frame + r.frame;
                    p.mach_ports = r.mach_ports;
                    self.process_command_result.set(at, p);
                },
                None => {},
            }
            proof {
                assert forall|i: int| 0 <= i < before.len() implies
                    #[trigger] self.process_command_result@[i] == absorbed(
                    before,
                    received@.take(k + 1),
                    i,
                ) by {
                    assert(taken[i].pid == before[i].pid);
                    assert(totals_fit(received@, before[i].pid));
                    lemma_absorb_one(received@, k as int, before[i].pid, before[i].mach_ports);
                }
            }
            k += 1;
        }
        assert(received@.take(received@.len() as int) =~= received@);
        let ghost counted = self.process_command_result@;
        let mut i: usize = 0;
        while i < self.process_command_result.len()
            invariant
                i <= self.process_command_result.len(),
                self.process_command_result@.len() == before.len(),
                counted.len() == before.len(),
                forall|n: u32| call_requires(per_sec, (n,)),
                forall|n: u32| call_requires(frames_per_sec, (n,)),
                self.power_metrics() == old(self).power_metrics(),
                forall|j: int|
                    i <= j < before.len() ==> #[trigger] self.process_command_result@[j]
                        == counted[j],
                forall|j: int|
                    0 <= j < before.len() ==> #[trigger] counted[j] == absorbed(
                        before,
                        received@,
                        j,
                    ),
                forall|j: int|
                    0 <= j < i ==> {
                        let c = absorbed(before, received@, j);
                        let p = #[trigger] self.process_command_result@[j];
                        &&& p.pid == before[j].pid
                        &&& p.at_rest()
                        &&& call_ensures(per_sec, (c.bytes_in,), p.bytes_in_per_sec)
                        &&& call_ensures(per_sec, (c.bytes_out,), p.bytes_out_per_sec)
                        &&& call_ensures(frames_per_sec, (c.frame,), p.frame_per_sec)
                        &&& p.mach_ports == c.mach_ports
                    },
            decreases self.process_command_result.len() - i,
        {
            let mut p = self.process_command_result[i];
            assert(p == counted[i as int]);
            p.bytes_in_per_sec = per_sec(p.bytes_in);
            p.bytes_out_per_sec = per_sec(p.bytes_out);
            p.bytes_in = 0;
            p.bytes_out = 0;
            p.frame_per_sec = frames_per_sec(p.frame);
            p.frame = 0;
            self.process_command_result.set(i, p);
            i += 1;
        }
    }

    /// Takes over a new report of `powermetrics`.
    pub fn update_power_metrics_data(&mut self, result: PowerMetricsResult)
        ensures
            final(self).power_metrics() == result,
            final(self).records() == old(self).records(),
    {
        self.power_metrics_result = result;
    }

    /// The frequency of every processor, as `to_mhz` gives it.
    pub fn cpu_frequency<M: Fn(Real32) -> Real32>(&self, to_mhz: M) -> (r: Vec<Real32>)
        requires
            forall|hz: Real32| call_requires(to_mhz, (hz,)),
        ensures
            r@.len() == self.power_metrics().processor.hz().len(),
            forall|i: int|
                0 <= i < r@.len() ==> call_ensures(
                    to_mhz,
                    (self.power_metrics().processor.hz()[i],),
                    #[trigger] r@[i],
                ),
            converted(self.power_metrics().processor.hz(), to_mhz, r@),
    {
        let all = self.power_metrics_result.processor.frequencies();
        let mut out: Vec<Real32> = Vec::new();
        let mut i: usize = 0;
        while i < all.len()
            invariant
                i <= all.len(),
                all@ == self.power_metrics().processor.hz(),
                out@.len() == i,
                forall|hz: Real32| call_requires(to_mhz, (hz,)),
                forall|j: int|
                    0 <= j < i ==> call_ensures(to_mhz, (all@[j],), #[trigger] out@[j]),
            decreases all.len() - i,
        {
            out.push(to_mhz(all[i]));
            i += 1;
        }
        out
    }

    /// The bytes per second that `pid` has read.
    pub fn process_net_traffic_in(&self, pid: Pid) -> (r: Option<u32>)
        ensures
            r == match lookup(self.records(), pid) {
                Some(p) => Some(p.bytes_in_per_sec),
                None => None,
            },
            r == net_traffic_in_of(self.records(), pid),
    {
        match position(&self.process_command_result, pid) {
            Some(at) => Some(self.process_command_result[at].bytes_in_per_sec),
            None => None,
        }
    }

    /// The bytes per second that `pid` has written.
    pub fn process_net_traffic_out(&self, pid: Pid) -> (r: Option<u32>)
        ensures
            r == match lookup(self.records(), pid) {
                Some(p) => Some(p.bytes_out_per_sec),
                None => None,
            },
            r == net_traffic_out_of(self.records(), pid),
    {
        match position(&self.process_command_result, pid) {
            Some(at) => Some(self.process_command_result[at].bytes_out_per_sec),
            None => None,
        }
    }

    /// The frames per second that `pid` has shown.
    pub fn process_frame_per_sec(&self, pid: Pid) -> (r: Option<Real32>)
        ensures
            r == match lookup(self.records(), pid) {
                Some(p) => Some(p.frame_per_sec),
                None => None,
            },
            r == frame_per_sec_of(self.records(), pid),
    {
        match position(&self.process_command_result, pid) {
            Some(at) => Some(self.process_command_result[at].frame_per_sec),
            None => None,
        }
    }

    /// The number of Mach ports of `pid`.
    pub fn process_mach_ports(&self, pid: Pid) -> (r: Option<u32>)
        ensures
            r == match lookup(self.records(), pid) {
                Some(p) => Some(p.mach_ports),
                None => None,
            },
            r == mach_ports_of(self.records(), pid),
    {
        match position(&self.process_command_result, pid) {
            Some(at) => Some(self.process_command_result[at].mach_ports),
            None => None,
        }
    }
}

// ---------------------------------------------------------------------------
// Laws
// ---------------------------------------------------------------------------

/// The place of the record that `lookup` finds.
spec fn first_place(records: Seq<ProcessCommandResult>, pid: Pid) -> int
    decreases records.len(),
{
    if records.len() == 0 || records[0].pid == pid {
        0
    } else {
        1 + first_place(records.drop_first(), pid)
    }
}

proof fn lemma_first_place(records: Seq<ProcessCommandResult>, pid: Pid)
    ensures
        0 <= first_place(records, pid) <= records.len(),
        forall|j: int| 0 <= j < first_place(records, pid) ==> (#[trigger] records[j]).pid != pid,
        match lookup(records, pid) {
            Some(p) => {
                &&& first_place(records, pid) < records.len()
                &&& records[first_place(records, pid)] == p
                &&& p.pid == pid
            },
            None => first_place(records, pid) == records.len(),
        },
    decreases records.len(),
{
    if records.len() > 0 && records[0].pid != pid {
        let rest = records.drop_first();
        lemma_first_place(rest, pid);
        assert forall|j: int| 0 <= j < first_place(records, pid) implies (
        #[trigger] records[j]).pid != pid by {
            if j > 0 {
                assert(records[j] == rest[j - 1]);
            }
        }
    }
}

/// Two lists of records of the same processes have their first record of a
/// process in the same place.
proof fn lemma_same_place(
    a: Seq<ProcessCommandResult>,
    b: Seq<ProcessCommandResult>,
    pid: Pid,
)
    requires
        a.len() == b.len(),
        forall|i: int| 0 <= i < a.len() ==> (#[trigger] a[i]).pid == b[i].pid,
    ensures
        first_place(a, pid) == first_place(b, pid),
    decreases a.len(),
{
    if a.len() > 0 {
        assert(a[0].pid == b[0].pid);
        assert forall|i: int| 0 <= i < a.drop_first().len() implies (
        #[trigger] a.drop_first()[i]).pid == b.drop_first()[i].pid by {
            assert(a[i + 1].pid == b[i + 1].pid);
        }
        lemma_same_place(a.drop_first(), b.drop_first(), pid);
    }
}

/// After an update the figures of a tracked process are the rates of what the
/// received results say of it, added up, and the latest number of Mach ports.
pub proof fn law_update_reports_totals<P: Fn(u32) -> u32, Q: Fn(u32) -> Real32>(
    before: Seq<ProcessCommandResult>,
    received: Seq<ProcessCommandResult>,
    after: Seq<ProcessCommandResult>,
    per_sec: P,
    frames_per_sec: Q,
    pid: Pid,
)
    requires
        refreshes(before, received, after, per_sec, frames_per_sec),
        lookup(before, pid) is Some,
    ensures
        lookup(after, pid) matches Some(p) && {
            &&& call_ensures(
                per_sec,
                (total_bytes_in(received, pid) as u32,),
                p.bytes_in_per_sec,
            )
            &&& call_ensures(
                per_sec,
                (total_bytes_out(received, pid) as u32,),
                p.bytes_out_per_sec,
            )
            &&& call_ensures(
                frames_per_sec,
                (total_frames(received, pid) as u32,),
                p.frame_per_sec,
            )
            &&& p.mach_ports == latest_mach_ports(
                received,
                pid,
                lookup(before, pid)->Some_0.mach_ports,
            )
        },
{
    lemma_first_place(before, pid);
    lemma_first_place(after, pid);
    assert forall|i: int| 0 <= i < after.len() implies (#[trigger] after[i]).pid
        == before[i].pid by {}
    lemma_same_place(after, before, pid);
    let at = first_place(before, pid);
    assert(is_first(before, at));
    assert(after[at].pid == before[at].pid);
}

/// An update neither starts nor stops the tracking of a process.
pub proof fn law_update_keeps_tracked<P: Fn(u32) -> u32, Q: Fn(u32) -> Real32>(
    before: Seq<ProcessCommandResult>,
    received: Seq<ProcessCommandResult>,
    after: Seq<ProcessCommandResult>,
    per_sec: P,
    frames_per_sec: Q,
    pid: Pid,
)
    requires
        refreshes(before, received, after, per_sec, frames_per_sec),
    ensures
        lookup(after, pid) is Some <==> lookup(before, pid) is Some,
        after.len() == before.len(),
        forall|i: int| 0 <= i < after.len() ==> (#[trigger] after[i]).pid == before[i].pid,
{
    lemma_first_place(before, pid);
    lemma_first_place(after, pid);
    assert forall|i: int| 0 <= i < after.len() implies (#[trigger] after[i]).pid
        == before[i].pid by {}
    lemma_same_place(after, before, pid);
}

/// Nothing carries over to an update without results: where a count of zero
/// gives a rate of zero, every rate of a tracked process is then zero, whatever
/// it was. The process keeps its number of Mach ports.
pub proof fn law_update_without_results_is_quiet<P: Fn(u32) -> u32, Q: Fn(u32) -> Real32>(
    before: Seq<ProcessCommandResult>,
    after: Seq<ProcessCommandResult>,
    per_sec: P,
    frames_per_sec: Q,
    pid: Pid,
)
    requires
        refreshes(before, Seq::empty(), after, per_sec, frames_per_sec),
        forall|rate: u32| call_ensures(per_sec, (0u32,), rate) ==> rate == 0,
        forall|rate: Real32|
            call_ensures(frames_per_sec, (0u32,), rate) ==> rate == (Real32 { bits: 0 }),
        lookup(before, pid) is Some,
    ensures
        lookup(after, pid) == Some(
            ProcessCommandResult {
                mach_ports: lookup(before, pid)->Some_0.mach_ports,
                ..ProcessCommandResult::blank(pid)
            },
        ),
{
    law_update_reports_totals(before, Seq::empty(), after, per_sec, frames_per_sec, pid);
    lemma_first_place(after, pid);
    assert(after[first_place(after, pid)].at_rest());
    let none: Seq<ProcessCommandResult> = Seq::empty();
    assert(total_bytes_in(none, pid) == 0);
    assert(total_bytes_out(none, pid) == 0);
    assert(total_frames(none, pid) == 0);
}

/// Leaving out results, but none of `pid`, changes nothing for `pid`.
proof fn lemma_filter_keeps(
    received: Seq<ProcessCommandResult>,
    pid: Pid,
    count: spec_fn(ProcessCommandResult) -> nat,
    before: u32,
    keep: spec_fn(ProcessCommandResult) -> bool,
)
    requires
        forall|m: ProcessCommandResult| m.pid == pid ==> #[trigger] keep(m),
    ensures
        total(received.filter(keep), pid, count) == total(received, pid, count),
        latest_mach_ports(received.filter(keep), pid, before) == latest_mach_ports(
            received,
            pid,
            before,
        ),
    decreases received.len(),
{
    reveal(Seq::filter);
    let kept = received.filter(keep);
    if received.len() > 0 {
        let rest = received.drop_last().filter(keep);
        lemma_filter_keeps(received.drop_last(), pid, count, before, keep);
        if keep(received.last()) {
            assert(kept == rest.push(received.last()));
            assert(kept.drop_last() =~= rest);
        } else {
            assert(kept == rest);
        }
    }
}

/// Results of other processes do not count for `pid`.
pub proof fn law_foreign_results_do_not_count(
    received: Seq<ProcessCommandResult>,
    pid: Pid,
    count: spec_fn(ProcessCommandResult) -> nat,
    before: u32,
)
    ensures
        ({
            let own = received.filter(|p: ProcessCommandResult| p.pid == pid);
            &&& total(own, pid, count) == total(received, pid, count)
            &&& latest_mach_ports(own, pid, before) == latest_mach_ports(received, pid, before)
        }),
{
    lemma_filter_keeps(received, pid, count, before, |p: ProcessCommandResult| p.pid == pid);
}

/// The results of those processes that have a record.
pub open spec fn tracked_only(
    records: Seq<ProcessCommandResult>,
    received: Seq<ProcessCommandResult>,
) -> Seq<ProcessCommandResult> {
    received.filter(|m: ProcessCommandResult| lookup(records, m.pid) is Some)
}

proof fn lemma_tracked_only(
    records: Seq<ProcessCommandResult>,
    received: Seq<ProcessCommandResult>,
    i: int,
)
    requires
        0 <= i < records.len(),
    ensures
        absorbed(records, tracked_only(records, received), i) == absorbed(records, received, i),
        totals_fit(tracked_only(records, received), records[i].pid) == totals_fit(
            received,
            records[i].pid,
        ),
{
    let p = records[i];
    let keep = |m: ProcessCommandResult| lookup(records, m.pid) is Some;
    lemma_first_place(records, p.pid);
    assert(lookup(records, p.pid) is Some);
    lemma_filter_keeps(
        received,
        p.pid,
        |p: ProcessCommandResult| p.bytes_in as nat,
        p.mach_ports,
        keep,
    );
    lemma_filter_keeps(
        received,
        p.pid,
        |p: ProcessCommandResult| p.bytes_out as nat,
        p.mach_ports,
        keep,
    );
    lemma_filter_keeps(
        received,
        p.pid,
        |p: ProcessCommandResult| p.frame as nat,
        p.mach_ports,
        keep,
    );
}

/// Leaving out the results of all processes that are not tracked makes no
/// difference to an update: it can be made if and only if it could be made with
/// them, and comes to the same.
pub proof fn law_untracked_results_change_nothing<P: Fn(u32) -> u32, Q: Fn(u32) -> Real32>(
    before: Seq<ProcessCommandResult>,
    received: Seq<ProcessCommandResult>,
    after: Seq<ProcessCommandResult>,
    per_sec: P,
    frames_per_sec: Q,
)
    ensures
        refreshes(before, tracked_only(before, received), after, per_sec, frames_per_sec)
            <==> refreshes(before, received, after, per_sec, frames_per_sec),
        forall|i: int|
            0 <= i < before.len() ==> (totals_fit(
                tracked_only(before, received),
                (#[trigger] before[i]).pid,
            ) <==> totals_fit(received, before[i].pid)),
{
    assert forall|i: int| 0 <= i < before.len() implies (totals_fit(
        tracked_only(before, received),
        (#[trigger] before[i]).pid,
    ) <==> totals_fit(received, before[i].pid)) by {
        lemma_tracked_only(before, received, i);
    }
    let own = tracked_only(before, received);
    if refreshes(before, own, after, per_sec, frames_per_sec) {
        assert forall|i: int| 0 <= i < before.len() implies {
            let counted = absorbed(before, received, i);
            let p = #[trigger] after[i];
            &&& p.pid == before[i].pid
            &&& p.at_rest()
            &&& call_ensures(per_sec, (counted.bytes_in,), p.bytes_in_per_sec)
            &&& call_ensures(per_sec, (counted.bytes_out,), p.bytes_out_per_sec)
            &&& call_ensures(frames_per_sec, (counted.frame,), p.frame_per_sec)
            &&& p.mach_ports == counted.mach_ports
        } by {
            lemma_tracked_only(before, received, i);
        }
    }
    if refreshes(before, received, after, per_sec, frames_per_sec) {
        assert forall|i: int| 0 <= i < before.len() implies {
            let counted = absorbed(before, own, i);
            let p = #[trigger] after[i];
            &&& p.pid == before[i].pid
            &&& p.at_rest()
            &&& call_ensures(per_sec, (counted.bytes_in,), p.bytes_in_per_sec)
            &&& call_ensures(per_sec, (counted.bytes_out,), p.bytes_out_per_sec)
            &&& call_ensures(frames_per_sec, (counted.frame,), p.frame_per_sec)
            &&& p.mach_ports == counted.mach_ports
        } by {
            lemma_tracked_only(before, received, i);
        }
    }
}

/// `rate` gives one rate for one count.
pub open spec fn is_function<R, F: Fn(u32) -> R>(rate: F) -> bool {
    forall|n: u32, a: R, b: R|
        #[trigger] call_ensures(rate, (n,), a) && #[trigger] call_ensures(rate, (n,), b) ==> a == b
}

/// Two updates of the same records, by the same rates, end in the same records
/// where the one is given what the other is given without the results of
/// processes that are not tracked.
pub proof fn law_untracked_results_leave_no_trace<P: Fn(u32) -> u32, Q: Fn(u32) -> Real32>(
    before: Seq<ProcessCommandResult>,
    received: Seq<ProcessCommandResult>,
    after: Seq<ProcessCommandResult>,
    other: Seq<ProcessCommandResult>,
    per_sec: P,
    frames_per_sec: Q,
)
    requires
        refreshes(before, received, after, per_sec, frames_per_sec),
        refreshes(before, tracked_only(before, received), other, per_sec, frames_per_sec),
        is_function(per_sec),
        is_function(frames_per_sec),
    ensures
        after == other,
{
    law_untracked_results_change_nothing(before, received, other, per_sec, frames_per_sec);
    assert forall|i: int| 0 <= i < after.len() implies #[trigger] after[i] == other[i] by {
        assert(other[i].pid == before[i].pid);
    }
    assert(after =~= other);
}

/// Taking one result out of a batch takes its count out of the total.
proof fn lemma_total_remove(
    received: Seq<ProcessCommandResult>,
    at: int,
    pid: Pid,
    count: spec_fn(ProcessCommandResult) -> nat,
)
    requires
        0 <= at < received.len(),
    ensures
        total(received, pid, count) == total(received.remove(at), pid, count)
            + if received[at].pid == pid {
            count(received[at])
        } else {
            0
        },
{
    let head = received.take(at);
    let tail = received.skip(at + 1);
    let one = head.push(received[at]);
    assert(received =~= one + tail);
    assert(received.remove(at) =~= head + tail);
    lemma_total_concat(one, tail, pid, count);
    lemma_total_concat(head, tail, pid, count);
    assert(one.drop_last() =~= head);
}

/// The total does not depend on the order of the results.
pub proof fn law_order_does_not_matter(
    a: Seq<ProcessCommandResult>,
    b: Seq<ProcessCommandResult>,
    pid: Pid,
    count: spec_fn(ProcessCommandResult) -> nat,
)
    requires
        a.to_multiset() == b.to_multiset(),
    ensures
        total(a, pid, count) == total(b, pid, count),
    decreases a.len(),
{
    broadcast use vstd::seq_lib::group_to_multiset_ensures;

    assert(a.to_multiset().len() == a.len() && b.to_multiset().len() == b.len());
    if a.len() > 0 {
        let last = a.len() - 1;
        let x = a[last];
        assert(a.contains(x));
        assert(a.to_multiset().count(x) > 0);
        assert(b.contains(x));
        let at = choose|k: int| 0 <= k < b.len() && b[k] == x;
        assert(a.remove(last) =~= a.drop_last());
        assert(a.drop_last().to_multiset() =~= b.remove(at).to_multiset());
        law_order_does_not_matter(a.drop_last(), b.remove(at), pid, count);
        lemma_total_remove(b, at, pid, count);
    }
}

/// Two updates of the same records, by the same rates, give every process the
/// same rates where the one is given the results of the other in another order.
pub proof fn law_order_leaves_rates<P: Fn(u32) -> u32, Q: Fn(u32) -> Real32>(
    before: Seq<ProcessCommandResult>,
    received: Seq<ProcessCommandResult>,
    after: Seq<ProcessCommandResult>,
    reordered: Seq<ProcessCommandResult>,
    other: Seq<ProcessCommandResult>,
    per_sec: P,
    frames_per_sec: Q,
    pid: Pid,
)
    requires
        received.to_multiset() == reordered.to_multiset(),
        refreshes(before, received, after, per_sec, frames_per_sec),
        refreshes(before, reordered, other, per_sec, frames_per_sec),
        is_function(per_sec),
        is_function(frames_per_sec),
    ensures
        match (lookup(after, pid), lookup(other, pid)) {
            (Some(p), Some(q)) => q == (ProcessCommandResult { mach_ports: q.mach_ports, ..p }),
            (None, None) => true,
            _ => false,
        },
        totals_fit(received, pid) <==> totals_fit(reordered, pid),
{
    law_order_does_not_matter(
        received,
        reordered,
        pid,
        |p: ProcessCommandResult| p.bytes_in as nat,
    );
    law_order_does_not_matter(
        received,
        reordered,
        pid,
        |p: ProcessCommandResult| p.bytes_out as nat,
    );
    law_order_does_not_matter(
        received,
        reordered,
        pid,
        |p: ProcessCommandResult| p.frame as nat,
    );
    law_update_keeps_tracked(before, received, after, per_sec, frames_per_sec, pid);
    law_update_keeps_tracked(before, reordered, other, per_sec, frames_per_sec, pid);
    if lookup(before, pid) is Some {
        law_update_reports_totals(before, received, after, per_sec, frames_per_sec, pid);
        law_update_reports_totals(before, reordered, other, per_sec, frames_per_sec, pid);
        lemma_first_place(after, pid);
        lemma_first_place(other, pid);
        assert(after[first_place(after, pid)].at_rest());
        assert(other[first_place(other, pid)].at_rest());
    }
}

/// What two batches report together is the sum of what each reports.
pub proof fn law_totals_add_up(
    a: Seq<ProcessCommandResult>,
    b: Seq<ProcessCommandResult>,
    pid: Pid,
    count: spec_fn(ProcessCommandResult) -> nat,
)
    ensures
        total(a + b, pid, count) == total(a, pid, count) + total(b, pid, count),
        total(a + b, pid, count) == total(b + a, pid, count),
{
    lemma_total_concat(a, b, pid, count);
    lemma_total_concat(b, a, pid, count);
}

proof fn lemma_total_concat(
    a: Seq<ProcessCommandResult>,
    b: Seq<ProcessCommandResult>,
    pid: Pid,
    count: spec_fn(ProcessCommandResult) -> nat,
)
    ensures
        total(a + b, pid, count) == total(a, pid, count) + total(b, pid, count),
    decreases b.len(),
{
    if b.len() == 0 {
        assert(a + b =~= a);
    } else {
        lemma_total_concat(a, b.drop_last(), pid, count);
        assert((a + b).drop_last() =~= a + b.drop_last());
        assert((a + b).last() == b.last());
    }
}

/// A process is found by its first record, whatever its number.
pub proof fn law_lookup_finds_first(records: Seq<ProcessCommandResult>, i: int)
    requires
        0 <= i < records.len(),
        forall|j: int| 0 <= j < i ==> (#[trigger] records[j]).pid != records[i].pid,
    ensures
        lookup(records, records[i].pid) == Some(records[i]),
{
    lemma_first_place(records, records[i].pid);
    let at = first_place(records, records[i].pid);
    assert(at <= i);
    assert(at < i ==> records[at].pid != records[i].pid);
}

/// A process without a record is not found.
pub proof fn law_lookup_finds_nothing_else(records: Seq<ProcessCommandResult>, pid: Pid)
    requires
        forall|j: int| 0 <= j < records.len() ==> (#[trigger] records[j]).pid != pid,
    ensures
        lookup(records, pid) is None,
{
    lemma_first_place(records, pid);
}

/// A blank record has its process and nothing but zeros.
pub proof fn law_blank_is_zero(pid: Pid)
    ensures
        ({
            let r = ProcessCommandResult::blank(pid);
            &&& r.pid == pid
            &&& r.bytes_in == 0 && r.bytes_out == 0 && r.frame == 0 && r.mach_ports == 0
            &&& r.bytes_in_per_sec == 0 && r.bytes_out_per_sec == 0 && r.frame_per_sec.bits == 0
        }),
{
}

/// One result counts in full for its own process and for no other; the bytes
/// and frames of two batches are those of the one and those of the other.
pub proof fn law_every_result_counts(
    a: Seq<ProcessCommandResult>,
    b: Seq<ProcessCommandResult>,
    m: ProcessCommandResult,
    pid: Pid,
)
    ensures
        total_bytes_in(Seq::empty(), pid) == 0,
        total_bytes_out(Seq::empty(), pid) == 0,
        total_frames(Seq::empty(), pid) == 0,
        total_bytes_in(seq![m], m.pid) == m.bytes_in,
        total_bytes_out(seq![m], m.pid) == m.bytes_out,
        total_frames(seq![m], m.pid) == m.frame,
        m.pid != pid ==> total_bytes_in(seq![m], pid) == 0,
        m.pid != pid ==> total_bytes_out(seq![m], pid) == 0,
        m.pid != pid ==> total_frames(seq![m], pid) == 0,
        total_bytes_in(a + b, pid) == total_bytes_in(a, pid) + total_bytes_in(b, pid),
        total_bytes_out(a + b, pid) == total_bytes_out(a, pid) + total_bytes_out(b, pid),
        total_frames(a + b, pid) == total_frames(a, pid) + total_frames(b, pid),
{
    reveal_with_fuel(total, 2);
    assert(seq![m].drop_last() =~= Seq::empty());
    lemma_total_concat(a, b, pid, |p: ProcessCommandResult| p.bytes_in as nat);
    lemma_total_concat(a, b, pid, |p: ProcessCommandResult| p.bytes_out as nat);
    lemma_total_concat(a, b, pid, |p: ProcessCommandResult| p.frame as nat);
}

/// The number of Mach ports is that of the last result of the process, and
/// stays where there is none.
pub proof fn law_last_mach_ports_hold(
    a: Seq<ProcessCommandResult>,
    m: ProcessCommandResult,
    b: Seq<ProcessCommandResult>,
    before: u32,
)
    requires
        forall|j: int| 0 <= j < b.len() ==> (#[trigger] b[j]).pid != m.pid,
    ensures
        latest_mach_ports(a.push(m) + b, m.pid, before) == m.mach_ports,
        latest_mach_ports(b, m.pid, before) == before,
    decreases b.len(),
{
    let all = a.push(m) + b;
    if b.len() == 0 {
        assert(all =~= a.push(m));
    } else {
        let b0 = b.drop_last();
        assert(b[b.len() - 1].pid != m.pid);
        assert forall|j: int| 0 <= j < b0.len() implies (#[trigger] b0[j]).pid != m.pid by {
            assert(b0[j] == b[j]);
        }
        law_last_mach_ports_hold(a, m, b0, before);
        assert(all.drop_last() =~= a.push(m) + b0);
        assert(all.last() == b.last());
    }
}

/// Results can be counted if and only if no process that is tracked has a total
/// of more than 32 bits; one result alone can always be counted.
pub proof fn law_what_can_be_counted(
    source: &CommandSource,
    received: Seq<ProcessCommandResult>,
    m: ProcessCommandResult,
)
    ensures
        source.can_count(received) <==> forall|i: int|
            #![trigger source.records()[i]]
            0 <= i < source.records().len() ==> {
                let pid = source.records()[i].pid;
                &&& total_bytes_in(received, pid) <= 0xffff_ffff
                &&& total_bytes_out(received, pid) <= 0xffff_ffff
                &&& total_frames(received, pid) <= 0xffff_ffff
            },
        source.can_count(seq![m]),
{
    assert forall|i: int| 0 <= i < source.records().len() implies totals_fit(
        seq![m],
        (#[trigger] source.records()[i]).pid,
    ) by {
        law_every_result_counts(Seq::empty(), Seq::empty(), m, source.records()[i].pid);
    }
}

/// A source is sound if and only if no record of it holds a count.
pub proof fn law_sound_source_holds_no_count(source: &CommandSource)
    ensures
        source.wf() <==> forall|i: int|
            #![trigger source.records()[i]]
            0 <= i < source.records().len() ==> source.records()[i].bytes_in == 0
                && source.records()[i].bytes_out == 0 && source.records()[i].frame == 0,
{
}

/// In an update the first record of a process gets the rates of all that was
/// received for it, a later one those of zero. Every count is zero then.
pub proof fn law_update_of_each_record<P: Fn(u32) -> u32, Q: Fn(u32) -> Real32>(
    before: Seq<ProcessCommandResult>,
    received: Seq<ProcessCommandResult>,
    after: Seq<ProcessCommandResult>,
    per_sec: P,
    frames_per_sec: Q,
    i: int,
    bytes_in: u32,
    bytes_out: u32,
    frames: u32,
)
    requires
        refreshes(before, received, after, per_sec, frames_per_sec),
        0 <= i < before.len(),
        before[i].bytes_in == 0 && before[i].bytes_out == 0 && before[i].frame == 0,
        bytes_in == total_bytes_in(received, before[i].pid),
        bytes_out == total_bytes_out(received, before[i].pid),
        frames == total_frames(received, before[i].pid),
    ensures
        after.len() == before.len(),
        after[i].pid == before[i].pid,
        after[i].bytes_in == 0 && after[i].bytes_out == 0 && after[i].frame == 0,
        (forall|j: int| 0 <= j < i ==> (#[trigger] before[j]).pid != before[i].pid) ==> {
            &&& call_ensures(per_sec, (bytes_in,), after[i].bytes_in_per_sec)
            &&& call_ensures(per_sec, (bytes_out,), after[i].bytes_out_per_sec)
            &&& call_ensures(frames_per_sec, (frames,), after[i].frame_per_sec)
            &&& after[i].mach_ports == latest_mach_ports(
                received,
                before[i].pid,
                before[i].mach_ports,
            )
        },
        (exists|j: int| 0 <= j < i && (#[trigger] before[j]).pid == before[i].pid) ==> {
            &&& call_ensures(per_sec, (0u32,), after[i].bytes_in_per_sec)
            &&& call_ensures(per_sec, (0u32,), after[i].bytes_out_per_sec)
            &&& call_ensures(frames_per_sec, (0u32,), after[i].frame_per_sec)
            &&& after[i].mach_ports == before[i].mach_ports
        },
{
    assert(after[i].pid == before[i].pid);
}

/// Every figure of a process is that of its first record, and a process without
/// a record has none.
pub proof fn law_figures_are_those_of_the_record(
    records: Seq<ProcessCommandResult>,
    i: int,
    other: Pid,
)
    requires
        0 <= i < records.len(),
        forall|j: int| 0 <= j < i ==> (#[trigger] records[j]).pid != records[i].pid,
        forall|j: int| 0 <= j < records.len() ==> (#[trigger] records[j]).pid != other,
    ensures
        net_traffic_in_of(records, records[i].pid) == Some(records[i].bytes_in_per_sec),
        net_traffic_out_of(records, records[i].pid) == Some(records[i].bytes_out_per_sec),
        frame_per_sec_of(records, records[i].pid) == Some(records[i].frame_per_sec),
        mach_ports_of(records, records[i].pid) == Some(records[i].mach_ports),
        net_traffic_in_of(records, other) is None,
        net_traffic_out_of(records, other) is None,
        frame_per_sec_of(records, other) is None,
        mach_ports_of(records, other) is None,
{
    law_lookup_finds_first(records, i);
    law_lookup_finds_nothing_else(records, other);
}

/// Every process that is given is tracked, in its place, with all figures zero,
/// and no other is.
pub proof fn law_new_source_tracks_what_it_is_given(pids: Seq<Pid>, pid: Pid)
    ensures
        first_records(pids).len() == pids.len(),
        forall|i: int|
            0 <= i < pids.len() ==> (#[trigger] first_records(pids)[i]).pid == pids[i],
        pids.contains(pid) ==> {
            &&& net_traffic_in_of(first_records(pids), pid) == Some(0u32)
            &&& net_traffic_out_of(first_records(pids), pid) == Some(0u32)
            &&& frame_per_sec_of(first_records(pids), pid) == Some(Real32 { bits: 0 })
            &&& mach_ports_of(first_records(pids), pid) == Some(0u32)
        },
        !pids.contains(pid) ==> net_traffic_in_of(first_records(pids), pid) is None,
{
    let records = first_records(pids);
    lemma_first_place(records, pid);
    let at = first_place(records, pid);
    if pids.contains(pid) {
        let k = choose|k: int| 0 <= k < pids.len() && pids[k] == pid;
        assert(records[k].pid == pid);
        assert(at <= k);
        assert(records[at] == ProcessCommandResult::blank(pids[at]));
    } else if at < records.len() {
        assert(records[at].pid == pids[at]);
        assert(pids.contains(pids[at]));
    }
}

/// With a process to watch, just the helper commands asked for are started;
/// without one, none is.
pub proof fn law_runners_are_those_asked_for(pids: Seq<Pid>, pid: Pid, a: bool, b: bool, c: bool)
    ensures
        runners_for(pids.push(pid), a, b, c) == (Runners { net_traffic: a, frame_rate: b, top: c }),
        runners_for(Seq::empty(), a, b, c) == (Runners {
            net_traffic: false,
            frame_rate: false,
            top: false,
        }),
{
}

/// What is read after an update are the rates of what was received before it.
pub proof fn law_update_is_read_back<P: Fn(u32) -> u32, Q: Fn(u32) -> Real32>(
    before: Seq<ProcessCommandResult>,
    received: Seq<ProcessCommandResult>,
    after: Seq<ProcessCommandResult>,
    per_sec: P,
    frames_per_sec: Q,
    i: int,
    bytes_in: u32,
    bytes_out: u32,
    frames: u32,
)
    requires
        refreshes(before, received, after, per_sec, frames_per_sec),
        0 <= i < before.len(),
        forall|j: int| 0 <= j < i ==> (#[trigger] before[j]).pid != before[i].pid,
        before[i].bytes_in == 0 && before[i].bytes_out == 0 && before[i].frame == 0,
        bytes_in == total_bytes_in(received, before[i].pid),
        bytes_out == total_bytes_out(received, before[i].pid),
        frames == total_frames(received, before[i].pid),
    ensures
        ({
            let pid = before[i].pid;
            &&& net_traffic_in_of(after, pid) matches Some(r) && call_ensures(
                per_sec,
                (bytes_in,),
                r,
            )
            &&& net_traffic_out_of(after, pid) matches Some(r) && call_ensures(
                per_sec,
                (bytes_out,),
                r,
            )
            &&& frame_per_sec_of(after, pid) matches Some(r) && call_ensures(
                frames_per_sec,
                (frames,),
                r,
            )
            &&& mach_ports_of(after, pid) == Some(
                latest_mach_ports(received, pid, before[i].mach_ports),
            )
        }),
{
    law_update_of_each_record(
        before,
        received,
        after,
        per_sec,
        frames_per_sec,
        i,
        bytes_in,
        bytes_out,
        frames,
    );
    assert forall|j: int| 0 <= j < i implies (#[trigger] after[j]).pid != after[i].pid by {
        assert(after[j].pid == before[j].pid);
        assert(before[j].pid != before[i].pid);
    }
    law_lookup_finds_first(after, i);
}

/// The frequencies of two lots of processors are converted apart: those of the
/// first come first, and each is what `to_mhz` gives for its processor.
pub proof fn law_each_frequency_is_converted<M: Fn(Real32) -> Real32>(
    before: Seq<Real32>,
    one: Real32,
    after: Seq<Real32>,
    to_mhz: M,
    out: Seq<Real32>,
)
    requires
        converted(before + seq![one] + after, to_mhz, out),
    ensures
        out.len() == before.len() + 1 + after.len(),
        call_ensures(to_mhz, (one,), out[before.len() as int]),
        converted(before, to_mhz, out.take(before.len() as int)),
        converted(after, to_mhz, out.skip((before.len() + 1) as int)),
{
    let all = before + seq![one] + after;
    let n: int = before.len() as int;
    assert(all[n] == one);
    assert(call_ensures(to_mhz, (all[n],), out[n]));
    let front = out.take(n);
    assert forall|i: int| 0 <= i < front.len() implies call_ensures(
        to_mhz,
        (before[i],),
        #[trigger] front[i],
    ) by {
        assert(all[i] == before[i]);
        assert(front[i] == out[i]);
    }
    let back = out.skip(n + 1);
    assert forall|i: int| 0 <= i < back.len() implies call_ensures(
        to_mhz,
        (after[i],),
        #[trigger] back[i],
    ) by {
        assert(all[n + 1 + i] == after[i]);
        assert(back[i] == out[n + 1 + i]);
    }
}

} // verus!
