use precord_core::power::Cluster;
use precord_core::power::Core;
use precord_core::power::Cpu;
use precord_core::power::Package;
use precord_core::power::PowerMetricsResult;
use precord_core::power::ProcessorInfo;
use precord_core::power::Real32;
use precord_core::power::Task;
use precord_core::source::CommandSource;
use precord_core::source::ProcessCommandResult;
use precord_core::source::Runners;

fn traffic(pid: u32, bytes_in: u32, bytes_out: u32) -> ProcessCommandResult {
    let mut r = ProcessCommandResult::of(pid);
    r.bytes_in = bytes_in;
    r.bytes_out = bytes_out;
    r
}

fn frame(pid: u32) -> ProcessCommandResult {
    let mut r = ProcessCommandResult::of(pid);
    r.frame = 1;
    r
}

fn ports(pid: u32, n: u32) -> ProcessCommandResult {
    let mut r = ProcessCommandResult::of(pid);
    r.mach_ports = n;
    r
}

fn update(source: &mut CommandSource, received: Vec<ProcessCommandResult>, d: f32) {
    assert!(source.accepts(&received));
    source.update(
        &received,
        |n| (n as f32 / d) as u32,
        |n| Real32 { bits: (n as f32 / d).to_bits() },
    );
}

fn fps(source: &CommandSource, pid: u32) -> Option<f32> {
    source.process_frame_per_sec(pid).map(|r| f32::from_bits(r.bits))
}

fn cpu(mhz: f32) -> Cpu {
    Cpu { freq_hz: Real32 { bits: (mhz * 1_000_000.0).to_bits() } }
}

fn mhz(source: &CommandSource) -> Vec<f32> {
    source
        .cpu_frequency(|hz| Real32 { bits: (f32::from_bits(hz.bits) / 1_000_000.0).to_bits() })
        .into_iter()
        .map(|r| f32::from_bits(r.bits))
        .collect()
}

#[test]
fn new_source_tracks_its_processes_from_zero() {
    let (source, runners) = CommandSource::new(&vec![3, 5], true, false, true);
    assert_eq!(runners, Runners { net_traffic: true, frame_rate: false, top: true });
    for pid in [3, 5] {
        assert_eq!(source.process_net_traffic_in(pid), Some(0));
        assert_eq!(source.process_net_traffic_out(pid), Some(0));
        assert_eq!(fps(&source, pid), Some(0.0));
        assert_eq!(source.process_mach_ports(pid), Some(0));
    }
    assert_eq!(source.process_net_traffic_in(4), None);
    assert_eq!(source.process_net_traffic_out(4), None);
    assert_eq!(fps(&source, 4), None);
    assert_eq!(source.process_mach_ports(4), None);
    assert!(mhz(&source).is_empty());
}

#[test]
fn no_helper_runs_without_a_process() {
    let (_, runners) = CommandSource::new(&vec![], true, true, true);
    assert_eq!(runners, Runners { net_traffic: false, frame_rate: false, top: false });
}

#[test]
fn default_result_is_blank() {
    let r = ProcessCommandResult::default();
    assert_eq!((r.pid, r.bytes_in, r.bytes_out, r.frame, r.mach_ports), (0, 0, 0, 0, 0));
    assert_eq!((r.bytes_in_per_sec, r.bytes_out_per_sec, r.frame_per_sec.bits), (0, 0, 0));
}

#[test]
fn update_turns_totals_into_rates() {
    let (mut source, _) = CommandSource::new(&vec![3, 5], true, true, false);
    update(
        &mut source,
        vec![traffic(3, 100, 7), frame(5), traffic(3, 51, 0), frame(5), frame(5), traffic(9, 1, 1)],
        2.0,
    );
    assert_eq!(source.process_net_traffic_in(3), Some(75));
    assert_eq!(source.process_net_traffic_out(3), Some(3));
    assert_eq!(fps(&source, 3), Some(0.0));
    assert_eq!(source.process_net_traffic_in(5), Some(0));
    assert_eq!(fps(&source, 5), Some(1.5));
    assert_eq!(source.process_net_traffic_in(9), None);
}

#[test]
fn counts_start_again_after_an_update() {
    let (mut source, _) = CommandSource::new(&vec![3], true, true, false);
    update(&mut source, vec![traffic(3, 100, 100), frame(3)], 1.0);
    update(&mut source, vec![traffic(3, 10, 0)], 1.0);
    assert_eq!(source.process_net_traffic_in(3), Some(10));
    assert_eq!(source.process_net_traffic_out(3), Some(0));
    assert_eq!(fps(&source, 3), Some(0.0));
    update(&mut source, vec![], 1.0);
    assert_eq!(source.process_net_traffic_in(3), Some(0));
}

#[test]
fn latest_mach_ports_stay() {
    let (mut source, _) = CommandSource::new(&vec![3, 5], false, false, true);
    update(&mut source, vec![ports(3, 4), ports(5, 8), ports(3, 6)], 1.0);
    assert_eq!(source.process_mach_ports(3), Some(6));
    assert_eq!(source.process_mach_ports(5), Some(8));
    update(&mut source, vec![], 1.0);
    assert_eq!(source.process_mach_ports(3), Some(6));
    // Every result carries its own number of ports.
    update(&mut source, vec![frame(3)], 1.0);
    assert_eq!(source.process_mach_ports(3), Some(0));
    assert_eq!(source.process_mach_ports(5), Some(8));
}

#[test]
fn order_of_results_does_not_matter_for_totals() {
    let a = vec![traffic(3, 1, 2), frame(3)];
    let b = vec![traffic(5, 10, 20), traffic(3, 30, 40)];
    let mut ab = a.clone();
    ab.extend(b.iter().copied());
    let mut ba = b;
    ba.extend(a);
    let (mut one, _) = CommandSource::new(&vec![3, 5], true, true, true);
    let (mut two, _) = CommandSource::new(&vec![3, 5], true, true, true);
    update(&mut one, ab, 1.0);
    update(&mut two, ba, 1.0);
    for pid in [3, 5] {
        assert_eq!(one.process_net_traffic_in(pid), two.process_net_traffic_in(pid));
        assert_eq!(one.process_net_traffic_out(pid), two.process_net_traffic_out(pid));
        assert_eq!(fps(&one, pid), fps(&two, pid));
    }
    assert_eq!(one.process_net_traffic_out(3), Some(42));
}

#[test]
fn process_given_twice_counts_once() {
    let (mut source, _) = CommandSource::new(&vec![3, 3], true, false, false);
    update(&mut source, vec![traffic(3, 8, 8)], 1.0);
    assert_eq!(source.process_net_traffic_in(3), Some(8));
}

#[test]
fn rates_saturate_when_no_time_has_passed() {
    let (mut source, _) = CommandSource::new(&vec![3], true, true, false);
    update(&mut source, vec![traffic(3, 1, 0)], 0.0);
    assert_eq!(source.process_net_traffic_in(3), Some(u32::MAX));
    assert_eq!(source.process_net_traffic_out(3), Some(0));
}

#[test]
fn totals_beyond_the_counters_are_not_accepted() {
    let (source, _) = CommandSource::new(&vec![3], true, true, true);
    assert!(source.accepts(&vec![traffic(3, u32::MAX, u32::MAX)]));
    assert!(!source.accepts(&vec![traffic(3, u32::MAX, 0), traffic(3, 1, 0)]));
    assert!(!source.accepts(&vec![traffic(3, 0, u32::MAX), traffic(3, 0, 1)]));
    let mut many = frame(3);
    many.frame = u32::MAX;
    assert!(!source.accepts(&vec![many, frame(3)]));
    assert!(source.accepts(&vec![traffic(4, u32::MAX, 0), traffic(4, 1, 0)]));
}

#[test]
fn clusters_come_before_packages() {
    let (mut source, _) = CommandSource::new(&vec![3], false, false, false);
    let packages = || {
        vec![
            Package { cores: vec![Core { cpus: vec![cpu(3000.0), cpu(3100.0)] }] },
            Package { cores: vec![Core { cpus: vec![] }, Core { cpus: vec![cpu(3200.0)] }] },
        ]
    };
    source.update_power_metrics_data(PowerMetricsResult {
        tasks: vec![Task { pid: 3, gputime_ms_per_s: Real32 { bits: 0 } }],
        processor: ProcessorInfo { clusters: vec![], packages: packages() },
    });
    assert_eq!(mhz(&source), [3000.0, 3100.0, 3200.0]);
    source.update_power_metrics_data(PowerMetricsResult {
        tasks: vec![],
        processor: ProcessorInfo {
            clusters: vec![
                Cluster { cpus: vec![cpu(600.0), cpu(972.0)] },
                Cluster { cpus: vec![cpu(3228.0)] },
            ],
            packages: packages(),
        },
    });
    assert_eq!(mhz(&source), [600.0, 972.0, 3228.0]);
    assert_eq!(source.process_net_traffic_in(3), Some(0));
}

#[test]
fn update_without_results_clears_rates_and_keeps_ports() {
    let (mut source, _) = CommandSource::new(&vec![3, 5], true, true, true);
    update(&mut source, vec![traffic(3, 9, 8), frame(5), ports(3, 4)], 0.5);
    assert_eq!(source.process_net_traffic_in(3), Some(18));
    assert_eq!(fps(&source, 5), Some(2.0));
    update(&mut source, vec![], 0.5);
    for (pid, n) in [(3, 4), (5, 0)] {
        assert_eq!(source.process_net_traffic_in(pid), Some(0));
        assert_eq!(source.process_net_traffic_out(pid), Some(0));
        assert_eq!(fps(&source, pid), Some(0.0));
        assert_eq!(source.process_mach_ports(pid), Some(n));
    }
}

#[test]
fn untracked_results_leave_no_trace() {
    let all = vec![traffic(9, 5, 5), traffic(3, 10, 20), ports(8, 2), ports(3, 6), frame(9)];
    let own: Vec<_> = all.iter().copied().filter(|r| r.pid == 3).collect();
    let (mut one, _) = CommandSource::new(&vec![3], true, true, true);
    let (mut two, _) = CommandSource::new(&vec![3], true, true, true);
    update(&mut one, all, 2.0);
    update(&mut two, own, 2.0);
    assert_eq!(one.process_net_traffic_in(3), Some(5));
    for pid in [3, 8, 9] {
        assert_eq!(one.process_net_traffic_in(pid), two.process_net_traffic_in(pid));
        assert_eq!(one.process_net_traffic_out(pid), two.process_net_traffic_out(pid));
        assert_eq!(fps(&one, pid), fps(&two, pid));
        assert_eq!(one.process_mach_ports(pid), two.process_mach_ports(pid));
    }
}

#[test]
fn reordered_results_give_the_same_rates() {
    let a = [ports(3, 1), traffic(3, 1, 2), frame(5), traffic(5, 3, 4), ports(3, 2)];
    for order in [[4, 3, 2, 1, 0], [2, 0, 4, 1, 3], [1, 4, 0, 3, 2]] {
        let b: Vec<_> = order.iter().map(|i| a[*i]).collect();
        let (mut one, _) = CommandSource::new(&vec![3, 5], true, true, true);
        let (mut two, _) = CommandSource::new(&vec![3, 5], true, true, true);
        update(&mut one, a.to_vec(), 1.0);
        update(&mut two, b, 1.0);
        for pid in [3, 5] {
            assert_eq!(one.process_net_traffic_in(pid), two.process_net_traffic_in(pid));
            assert_eq!(one.process_net_traffic_out(pid), two.process_net_traffic_out(pid));
            assert_eq!(fps(&one, pid), fps(&two, pid));
        }
        assert_eq!(two.process_net_traffic_in(5), Some(3));
    }
}
