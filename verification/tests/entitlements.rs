use precord_core::entitlements::codesign_args;
use precord_core::entitlements::get_entitlements_for_pid;
use precord_core::entitlements::read_signature;
use precord_core::entitlements::Entitlements;
use precord_core::entitlements::SignatureReport;

const YES: Entitlements = Entitlements { get_task_allow: true };
const NO: Entitlements = Entitlements { get_task_allow: false };

fn read(bytes: &[u8]) -> SignatureReport {
    read_signature(&Some(bytes.to_vec()))
}

fn list(report: &SignatureReport) -> Option<&[u8]> {
    match report {
        SignatureReport::PropertyList(bytes) => Some(bytes),
        SignatureReport::Known(_) => None,
    }
}

fn known(report: &SignatureReport) -> bool {
    matches!(report, SignatureReport::Known(Some(e)) if !e.get_task_allow)
}

#[test]
fn codesign_is_given_the_process() {
    assert_eq!(
        codesign_args(501),
        ["-q", "/dev/null", "codesign", "--display", "--entitlements", "-", "--xml", "+501"],
    );
}

#[test]
fn command_that_cannot_run_entitles_to_nothing() {
    let report = read_signature(&None);
    assert!(known(&report));
    assert_eq!(get_entitlements_for_pid(&report, Some(YES)), Some(NO));
}

#[test]
fn unsigned_programs_have_no_entitlements() {
    let report = read(b"/bin/x: code object is not signed at all\r\n<plist>");
    assert!(matches!(report, SignatureReport::Known(None)));
    assert_eq!(get_entitlements_for_pid(&report, Some(YES)), None);
    // Only the first line tells.
    let report = read(b"Executable=/bin/x\ncode object is not signed at all\n");
    assert_eq!(list(&report), Some(&b"code object is not signed at all\n"[..]));
}

#[test]
fn second_line_is_the_property_list() {
    let report = read(b"Executable=/bin/x\r\n<plist></plist>\r\nmore\n");
    assert_eq!(list(&report), Some(&b"<plist></plist>\r\n"[..]));
    assert_eq!(get_entitlements_for_pid(&report, Some(YES)), Some(YES));
    assert_eq!(get_entitlements_for_pid(&report, Some(NO)), Some(NO));
    assert_eq!(get_entitlements_for_pid(&report, None), Some(NO));
    let report = read("caf\u{e9}\n\u{4e2d}".as_bytes());
    assert_eq!(list(&report), Some("\u{4e2d}".as_bytes()));
    assert_eq!(list(&read(b"\n\n")), Some(&b"\n"[..]));
}

#[test]
fn output_without_two_lines_of_text_entitles_to_nothing() {
    assert!(known(&read(b"")));
    assert!(known(&read(b"one line")));
    assert!(known(&read(b"one line\n")));
    assert!(known(&read(b"\xff\n<plist></plist>\n")));
    assert!(known(&read(b"\xff code object is not signed at all\n<plist></plist>\n")));
    assert!(known(&read(b"line\n\xc3\n")));
    assert!(known(&read(b"line\n\xed\xa0\x80\n")));
}
