use precord_core::frame_rate::needs_entitlements;
use precord_core::frame_rate::select_traceable;
use precord_core::frame_rate::Candidate;
use precord_core::frame_rate::FrameRateRunner;
use precord_core::entitlements::Entitlements;
use precord_core::lines::LineOutcome;
use precord_core::nettop::NetTopRunner;
use precord_core::power::powermetrics_args;
use precord_core::power::succeeded;

fn begun_nettop() -> NetTopRunner {
    let mut runner = NetTopRunner::new();
    assert!(matches!(runner.read(",bytes_in,bytes_out,\r\n"), LineOutcome::Skipped));
    assert!(matches!(runner.read(",bytes_in,bytes_out,\r\n"), LineOutcome::Skipped));
    runner
}

fn figures(outcome: LineOutcome) -> (u32, u32, u32, u32) {
    match outcome {
        LineOutcome::Figures(r) => (r.pid, r.bytes_in, r.bytes_out, r.frame),
        other => panic!("{other:?}"),
    }
}

#[test]
fn nettop_arguments_name_each_process() {
    assert_eq!(
        NetTopRunner::args(&vec![1, 4294967295]),
        [
            "-q", "/dev/null", "nettop", "-P", "-d", "-L", "0", "-J", "bytes_in,bytes_out", "-p",
            "1", "-p", "4294967295",
        ],
    );
    assert_eq!(NetTopRunner::args(&vec![]).len(), 9);
}

#[test]
fn nettop_figures_count_from_the_second_round() {
    let mut runner = NetTopRunner::new();
    let row = "Safari.123,10,20,\r\n";
    assert!(matches!(runner.read(row), LineOutcome::Skipped));
    assert!(matches!(runner.read(",bytes_in,bytes_out,\r\n"), LineOutcome::Skipped));
    assert!(matches!(runner.read(row), LineOutcome::Skipped));
    assert!(matches!(runner.read("unreadable.x,y,z,"), LineOutcome::Skipped));
    assert!(matches!(runner.read(",bytes_in,bytes_out,\r\n"), LineOutcome::Skipped));
    assert_eq!(figures(runner.read(row)), (123, 10, 20, 0));
    assert!(matches!(runner.read(",bytes_in,bytes_out,\r\n"), LineOutcome::Skipped));
    assert_eq!(figures(runner.read(row)), (123, 10, 20, 0));
}

#[test]
fn nettop_rows_are_read_back() {
    let mut runner = begun_nettop();
    for name in ["a", "", "com.apple.WebKi", "Caf\u{e9} x", ".", "a.7"] {
        for (pid, i, o) in [(0, 0, 0), (77, 1, 4294967295), (4294967295, 12, 34)] {
            let line = format!("{name}.{pid},{i},{o},more,of it\r\n");
            assert_eq!(figures(runner.read(&line)), (pid, i, o, 0));
        }
    }
}

#[test]
fn nettop_rows_of_no_process_are_skipped() {
    let mut runner = begun_nettop();
    for line in ["", "\r\n", "a.1", "a.1,2", "a,1,2,\r\n", ",,\n"] {
        assert!(matches!(runner.read(line), LineOutcome::Skipped), "{line:?}");
    }
}

#[test]
fn nettop_rows_that_cannot_be_read_are_malformed() {
    let mut runner = begun_nettop();
    for line in
        ["a.,1,2,", "a.x,1,2,", "a.1,,2,", "a.1,-1,2,", "a.1,1,2\n", "a.1,1,4294967296,", "a.1b,1,2,"]
    {
        assert!(matches!(runner.read(line), LineOutcome::Malformed), "{line:?}");
    }
}

#[test]
fn frame_script_has_two_probes_for_each_process() {
    let args = FrameRateRunner::args(&vec![12, 7]).unwrap();
    assert_eq!(args[..5], ["-q", "/dev/null", "dtrace", "-Z", "-n"]);
    assert_eq!(
        args[5],
        "objc12:CAMetalLayer:-nextDrawable:entry,\
         pid12:QuartzCore:CA??Render??Surface??finalize():entry,\
         objc7:CAMetalLayer:-nextDrawable:entry,\
         pid7:QuartzCore:CA??Render??Surface??finalize():entry{trace(pid)}",
    );
    assert_eq!(args.len(), 6);
    assert!(FrameRateRunner::args(&vec![]).is_none());
}

#[test]
fn frames_count_after_the_header() {
    let mut runner = FrameRateRunner::new();
    let row = "  0  5832      -nextDrawable:entry      321\r\n";
    assert!(matches!(runner.read(row), LineOutcome::Skipped));
    assert!(matches!(runner.read("CPU     ID      FUNCTION:NAME\r\n"), LineOutcome::Skipped));
    assert_eq!(figures(runner.read(row)), (321, 0, 0, 1));
    assert!(matches!(runner.read("CPU     ID      FUNCTION:NAME\r\n"), LineOutcome::Skipped));
    assert_eq!(figures(runner.read(row)), (321, 0, 0, 1));
    assert_eq!(figures(runner.read("a\tb\u{a0}c\u{2003}9 10 11")), (9, 0, 0, 1));
}

#[test]
fn frame_rows_are_skipped_or_malformed() {
    let mut runner = FrameRateRunner::new();
    runner.read("CPU");
    for line in ["", "\n", "1 2 3", " 1 2 3 \n"] {
        assert!(matches!(runner.read(line), LineOutcome::Skipped), "{line:?}");
    }
    for line in ["1 2 3 x", "1 2 3 -4", "1 2 3 4294967296", "1 2 3 4,"] {
        assert!(matches!(runner.read(line), LineOutcome::Malformed), "{line:?}");
    }
}

fn candidate(pid: u32, translated: bool, allow: Option<bool>) -> Candidate {
    Candidate {
        pid,
        translated,
        entitlements: allow.map(|get_task_allow| Entitlements { get_task_allow }),
    }
}

#[test]
fn restricted_tracing_heeds_entitlements() {
    let all = vec![
        candidate(1, false, Some(true)),
        candidate(2, false, Some(false)),
        candidate(3, false, None),
        candidate(4, true, Some(true)),
        candidate(5, true, None),
    ];
    assert_eq!(select_traceable(&all, false), [1, 3]);
    assert_eq!(select_traceable(&all, true), [1, 2, 3]);
    assert!(select_traceable(&vec![], false).is_empty());
    assert!(needs_entitlements(false, false));
    assert!(!needs_entitlements(true, false));
    assert!(!needs_entitlements(false, true));
    assert!(!needs_entitlements(true, true));
}

#[test]
fn powermetrics_takes_one_sample() {
    assert_eq!(
        powermetrics_args(),
        ["--samplers", "tasks,cpu_power", "--show-process-gpu", "-n1", "-i1000", "-f", "plist"],
    );
    assert!(succeeded(Some(0)));
    assert!(!succeeded(Some(1)));
    assert!(!succeeded(None));
}

#[test]
fn whole_nettop_output_gives_its_counted_rows() {
    let mut runner = NetTopRunner::new();
    let output = [
        "a.1,1,1,\r\n",
        ",bytes_in,bytes_out,\r\n",
        "a.1,2,2,\r\n",
        ",bytes_in,bytes_out,\r\n",
        "a.1,3,4,\r\n",
        "no process,5,6,\r\n",
        "b.2,7,8,\r\n",
        ",bytes_in,bytes_out,\r\n",
        "a.1,9,10,\r\n",
    ];
    let mut rows = Vec::new();
    for line in output {
        if let LineOutcome::Figures(r) = runner.read(line) {
            rows.push((r.pid, r.bytes_in, r.bytes_out));
        }
    }
    assert_eq!(rows, [(1, 3, 4), (2, 7, 8), (1, 9, 10)]);
}

#[test]
fn whole_dtrace_output_gives_its_counted_rows() {
    let mut runner = FrameRateRunner::new();
    let output = ["1 2 3 4\n", "CPU ID\n", "1 2 3 5\n", "\n", "1 2 3 6 7\n", "CPU\n", "1 2 3 5"];
    let mut rows = Vec::new();
    for line in output {
        if let LineOutcome::Figures(r) = runner.read(line) {
            rows.push((r.pid, r.frame));
        }
    }
    assert_eq!(rows, [(5, 1), (6, 1), (5, 1)]);
}
