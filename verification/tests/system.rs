use precord_core::iokit::IOKitRegistry;
use precord_core::iokit::PollReply;
use precord_core::iokit::PollStep;
use precord_core::kernel::csr_allow_unrestricted_dtrace;
use precord_core::kernel::proc_fds;
use precord_core::kernel::proc_is_translated;
use precord_core::kernel::FdStep;
use precord_core::kernel::FD_BUFFER_SIZE;

#[test]
fn unrestricted_dtrace_needs_its_bit() {
    assert!(csr_allow_unrestricted_dtrace(0, 1 << 5));
    assert!(csr_allow_unrestricted_dtrace(0, 0x7f));
    assert!(!csr_allow_unrestricted_dtrace(0, 0x5f));
    assert!(!csr_allow_unrestricted_dtrace(0, 0));
    assert!(!csr_allow_unrestricted_dtrace(-1, 1 << 5));
    assert!(!csr_allow_unrestricted_dtrace(1, u32::MAX));
}

#[test]
fn translated_process_has_its_flag() {
    assert!(proc_is_translated(0, 648, 648, 0x20004, 0x20000));
    assert!(!proc_is_translated(0, 648, 648, 0x4, 0x20000));
    assert!(!proc_is_translated(0, 647, 648, 0x20000, 0x20000));
    assert!(!proc_is_translated(-1, 648, 648, 0x20000, 0x20000));
}

#[test]
fn open_files_are_counted_or_asked_for_again() {
    assert_eq!(FD_BUFFER_SIZE, 512);
    assert_eq!(proc_fds(-1, 512), FdStep::Failed);
    assert_eq!(proc_fds(0, 512), FdStep::Count(0));
    assert_eq!(proc_fds(24, 512), FdStep::Count(3));
    assert_eq!(proc_fds(511, 512), FdStep::Count(63));
    assert_eq!(proc_fds(512, 512), FdStep::Grow(1024));
    assert_eq!(proc_fds(i32::MAX, 512), FdStep::Grow(1024));
    assert_eq!(proc_fds(i32::MAX, i32::MAX as usize + 1), FdStep::Count(268435455));
}

#[test]
fn listed_files_are_counted_if_they_leave_room() {
    for n in [0u32, 1, 63, 64, 65, 1000, 268435455] {
        for capacity in [512usize, 513, 1024, 8001] {
            let needed = 8 * n as usize;
            let actual = needed.min(capacity);
            let expected = if needed < capacity {
                FdStep::Count(n)
            } else {
                FdStep::Grow(2 * capacity)
            };
            assert_eq!(proc_fds(actual as i32, capacity), expected);
        }
    }
}

#[test]
fn room_for_open_files_grows_to_an_end() {
    let mut capacity = FD_BUFFER_SIZE;
    let mut asked = 1;
    while let FdStep::Grow(n) = proc_fds(i32::MAX, capacity) {
        assert_eq!(n, 2 * capacity);
        capacity = n;
        asked += 1;
    }
    assert_eq!(asked, 23);
}

enum Gpu {
    NoProperties,
    NoStatistics,
    NoUtilization,
    NotANumber,
    Busy(u8),
}

fn run(registry: &mut IOKitRegistry, gpus: Option<&[Gpu]>) {
    let mut next = 0;
    let (mut matching, mut iterator, mut entry, mut properties) = (1, 0, 0, 0);
    let reply = |ok: bool| if ok { PollReply::Succeeded } else { PollReply::Failed };
    let mut step = registry.poll();
    while step != PollStep::Done {
        let gpu = |n: usize| &gpus.unwrap()[n - 1];
        let answer = match step {
            PollStep::MatchServices => {
                if gpus.is_some() {
                    matching -= 1;
                    iterator += 1;
                }
                reply(gpus.is_some())
            }
            PollStep::ReleaseMatching => {
                matching -= 1;
                reply(true)
            }
            PollStep::NextEntry => {
                next += 1;
                let ok = next <= gpus.unwrap().len();
                entry += i32::from(ok);
                reply(ok)
            }
            PollStep::CreateProperties => {
                let ok = !matches!(gpu(next), Gpu::NoProperties);
                properties += i32::from(ok);
                reply(ok)
            }
            PollStep::FindStatistics => reply(!matches!(gpu(next), Gpu::NoStatistics)),
            PollStep::FindUtilization => reply(!matches!(gpu(next), Gpu::NoUtilization)),
            PollStep::ReadUtilization => match gpu(next) {
                Gpu::NotANumber => PollReply::Failed,
                Gpu::Busy(v) => PollReply::Utilization(*v),
                _ => unreachable!(),
            },
            PollStep::ReleaseProperties => {
                properties -= 1;
                reply(true)
            }
            PollStep::ReleaseEntry => {
                entry -= 1;
                reply(true)
            }
            PollStep::ReleaseIterator => {
                iterator -= 1;
                reply(true)
            }
            PollStep::Done => unreachable!(),
        };
        step = registry.advance(answer);
    }
    assert_eq!((matching, iterator, entry, properties), (0, 0, 0, 0));
}

#[test]
fn poll_finds_the_busiest_accelerator() {
    let mut registry = IOKitRegistry::new();
    assert_eq!(registry.sys_gpu_usage(), 0);
    let gpus = [
        Gpu::Busy(12),
        Gpu::NoProperties,
        Gpu::Busy(97),
        Gpu::NoStatistics,
        Gpu::NoUtilization,
        Gpu::NotANumber,
        Gpu::Busy(3),
    ];
    run(&mut registry, Some(&gpus));
    assert_eq!(registry.sys_gpu_usage(), 97);
    run(&mut registry, Some(&gpus[6..]));
    assert_eq!(registry.sys_gpu_usage(), 3);
    run(&mut registry, Some(&[]));
    assert_eq!(registry.sys_gpu_usage(), 0);
}

#[test]
fn failed_poll_forgets_the_last_one() {
    let mut registry = IOKitRegistry::new();
    run(&mut registry, Some(&[Gpu::Busy(50)]));
    assert_eq!(registry.sys_gpu_usage(), 50);
    run(&mut registry, None);
    assert_eq!(registry.sys_gpu_usage(), 0);
}

#[test]
fn finished_poll_stays_finished() {
    let mut registry = IOKitRegistry::new();
    assert_eq!(registry.advance(PollReply::Utilization(9)), PollStep::Done);
    assert_eq!(registry.sys_gpu_usage(), 0);
}
