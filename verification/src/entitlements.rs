//! The entitlements of a process, as `codesign` shows them.

use vstd::prelude::*;
use vstd::utf8::decode_utf8;
use vstd::utf8::valid_utf8;

use crate::text::chars_of;
use crate::text::contains;
use crate::text::decimal;
use crate::text::has_substring;
use crate::text::law_decimal_holds_digits;
use crate::text::law_numeral_of_decimal;
use crate::text::law_substring;
use crate::text::numeral;
use crate::text::push_decimal;
use crate::text::push_text;
use crate::text::texts_of;
use crate::Pid;

verus! {

/// What a signed program is entitled to.
#[derive(Debug, Clone, Copy, PartialEq, Eq, Structural)]
pub struct Entitlements {
    /// Other processes may take hold of its task port.
    pub get_task_allow: bool,
}

/// What the output of `codesign` comes to.
#[derive(Debug)]
pub enum SignatureReport {
    /// The answer is known: the entitlements, or `None` for a program that is
    /// not signed at all.
    Known(Option<Entitlements>),
    /// The entitlements stand in this property list.
    PropertyList(Vec<u8>),
}

/// The answer where nothing else is known: signed, and entitled to nothing.
pub open spec fn no_entitlements() -> Option<Entitlements> {
    Some(Entitlements { get_task_allow: false })
}

/// What `codesign` says of a program that is not signed.
pub open spec fn unsigned_notice() -> Seq<char> {
    "code object is not signed at all"@
}

/// The length of the first line of `s`, its newline counted.
pub open spec fn line_len(s: Seq<u8>) -> nat
    decreases s.len(),
{
    if s.len() == 0 {
        0
    } else if s[0] == 10 {
        1
    } else {
        1 + line_len(s.drop_first())
    }
}

/// The first line of `s`, with its newline.
pub open spec fn first_line(s: Seq<u8>) -> Seq<u8> {
    s.take(line_len(s) as int)
}

/// What follows the first line of `s`.
pub open spec fn after_first_line(s: Seq<u8>) -> Seq<u8> {
    s.skip(line_len(s) as int)
}

/// `s` is text, and there is some of it.
pub open spec fn is_text(s: Seq<u8>) -> bool {
    s.len() > 0 && valid_utf8(s)
}

/// `report` is what the output `stdout` comes to; `None` stands for a command
/// that could not be run. The first line tells whether the program is signed;
/// the second is the property list.
pub open spec fn reports(stdout: Option<Seq<u8>>, report: SignatureReport) -> bool {
    match stdout {
        None => report == SignatureReport::Known(no_entitlements()),
        Some(s) => {
            let first = first_line(s);
            let second = first_line(after_first_line(s));
            if !is_text(first) {
                report == SignatureReport::Known(no_entitlements())
            } else if has_substring(decode_utf8(first), unsigned_notice()) {
                report == SignatureReport::Known(None)
            } else if !is_text(second) {
                report == SignatureReport::Known(no_entitlements())
            } else {
                report matches SignatureReport::PropertyList(list) && list@ == second
            }
        },
    }
}

/// What `report` says outright, or else what its property list says, read as
/// `parsed`. One that cannot be read entitles to nothing.
pub open spec fn entitlements_of(report: SignatureReport, parsed: Option<Entitlements>) -> Option<
    Entitlements,
> {
    match report {
        SignatureReport::Known(known) => known,
        SignatureReport::PropertyList(_) => match parsed {
            Some(e) => Some(e),
            None => no_entitlements(),
        },
    }
}

/// The arguments for `pid`.
pub open spec fn codesign_arguments(pid: Pid) -> Seq<Seq<char>> {
    seq![
        "-q"@,
        "/dev/null"@,
        "codesign"@,
        "--display"@,
        "--entitlements"@,
        "-"@,
        "--xml"@,
        "+"@ + decimal(pid as nat),
    ]
}

/// The place just behind the line that starts at `from`.
fn line_end(bytes: &Vec<u8>, from: usize) -> (r: usize)
    requires
        from <= bytes.len(),
    ensures
        r == from + line_len(bytes@.skip(from as int)),
        r <= bytes.len(),
{
    let mut i: usize = from;
    while i < bytes.len()
        invariant
            from <= i <= bytes.len(),
            line_len(bytes@.skip(from as int)) == i - from + line_len(bytes@.skip(i as int)),
        decreases bytes.len() - i,
    {
        assert(bytes@.skip(i as int)[0] == bytes@[i as int]);
        if bytes[i] == 10 {
            return i + 1;
        }
        assert(bytes@.skip(i as int).drop_first() =~= bytes@.skip(i + 1));
        i += 1;
    }
    i
}

/// A copy of the bytes in `from..to`.
fn copy_range(bytes: &Vec<u8>, from: usize, to: usize) -> (r: Vec<u8>)
    requires
        from <= to <= bytes.len(),
    ensures
        r@ == bytes@.subrange(from as int, to as int),
{
    let mut out: Vec<u8> = Vec::new();
    let mut i: usize = from;
    while i < to
        invariant
            from <= i <= to <= bytes.len(),
            out@ == bytes@.subrange(from as int, i as int),
        decreases to - i,
    {
        out.push(bytes[i]);
        assert(bytes@.subrange(from as int, i + 1) =~= bytes@.subrange(from as int, i as int).push(
            bytes@[i as int],
        ));
        i += 1;
    }
    out
}

/// `std::str::from_utf8`: the bytes as text, if and only if they are valid
/// UTF-8; the characters of the text are those that the bytes encode.
#[verifier::external_body]
fn text_of(bytes: &[u8]) -> (r: Option<&str>)
    ensures
        r is Some <==> valid_utf8(bytes@),
        r matches Some(text) ==> text@ == decode_utf8(bytes@),
{
    std::str::from_utf8(bytes).ok()
}

/// The arguments of the `script` command that runs `codesign` on `pid`.
pub fn codesign_args(pid: Pid) -> (r: Vec<String>)
    ensures
        texts_of(r@) == codesign_arguments(pid),
{
    let mut args: Vec<String> = Vec::new();
    push_text(&mut args, "-q");
    push_text(&mut args, "/dev/null");
    push_text(&mut args, "codesign");
    push_text(&mut args, "--display");
    push_text(&mut args, "--entitlements");
    push_text(&mut args, "-");
    push_text(&mut args, "--xml");
    let mut target = "+".to_owned();
    push_decimal(&mut target, pid);
    push_text(&mut args, target.as_str());
    assert(texts_of(args@) =~= codesign_arguments(pid));
    args
}

/// Reads the output of `codesign`; `None` where it could not be run.
pub fn read_signature(stdout: &Option<Vec<u8>>) -> (r: SignatureReport)
    ensures
        reports(
            match stdout {
                Some(bytes) => Some(bytes@),
                None => None,
            },
            r,
        ),
{
    let denied = SignatureReport::Known(Some(Entitlements { get_task_allow: false }));
    let bytes = match stdout {
        Some(bytes) => bytes,
        None => {
            return denied;
        },
    };
    assert(bytes@.skip(0) =~= bytes@);
    let end = line_end(bytes, 0);
    let first = copy_range(bytes, 0, end);
    assert(first@ =~= first_line(bytes@));
    if first.len() == 0 {
        return denied;
    }
    match text_of(first.as_slice()) {
        None => {
            return denied;
        },
        Some(line) => {
            if contains(&chars_of(line), &chars_of("code object is not signed at all")) {
                return SignatureReport::Known(None);
            }
        },
    }
    let stop = line_end(bytes, end);
    let second = copy_range(bytes, end, stop);
    assert(second@ =~= first_line(after_first_line(bytes@)));
    if second.len() == 0 {
        return denied;
    }
    match text_of(second.as_slice()) {
        None => denied,
        Some(_) => SignatureReport::PropertyList(second),
    }
}

/// The entitlements of a process: what the output of `codesign` says outright,
/// or else what its property list says. `parsed` is the property list as it
/// was read; one that cannot be read entitles to nothing.
pub fn get_entitlements_for_pid(report: &SignatureReport, parsed: Option<Entitlements>) -> (r:
    Option<Entitlements>)
    ensures
        r == entitlements_of(*report, parsed),
{
    match report {
        SignatureReport::Known(known) => *known,
        SignatureReport::PropertyList(_) => match parsed {
            Some(e) => Some(e),
            None => Some(Entitlements { get_task_allow: false }),
        },
    }
}

// ---------------------------------------------------------------------------
// Laws
// ---------------------------------------------------------------------------

/// The first line and what follows it are the whole. The first line has no
/// newline but at its end, and has one there if anything follows.
pub proof fn law_first_line_ends_at_newline(s: Seq<u8>)
    ensures
        first_line(s) + after_first_line(s) == s,
        s.len() > 0 ==> first_line(s).len() > 0,
        forall|k: int| 0 <= k < first_line(s).len() - 1 ==> #[trigger] first_line(s)[k] != 10,
        after_first_line(s).len() > 0 ==> first_line(s).last() == 10,
{
    lemma_line_len(s);
    assert(first_line(s) + after_first_line(s) =~= s);
}

proof fn lemma_line_len(s: Seq<u8>)
    ensures
        line_len(s) <= s.len(),
        s.len() > 0 ==> line_len(s) > 0,
        forall|k: int| 0 <= k < line_len(s) - 1 ==> s[k] != 10,
        line_len(s) < s.len() ==> s[line_len(s) - 1] == 10,
    decreases s.len(),
{
    if s.len() > 0 && s[0] != 10 {
        let rest = s.drop_first();
        lemma_line_len(rest);
        assert forall|k: int| 0 <= k < line_len(s) - 1 implies s[k] != 10 by {
            if k > 0 {
                assert(s[k] == rest[k - 1]);
            }
        }
        if line_len(s) < s.len() {
            assert(s[line_len(s) - 1] == rest[line_len(rest) - 1]);
        }
    }
}

/// A program counts as unsigned only where the first line of the output says
/// so.
pub proof fn law_unsigned_only_by_notice(
    stdout: Option<Seq<u8>>,
    report: SignatureReport,
    parsed: Option<Entitlements>,
)
    requires
        reports(stdout, report),
    ensures
        entitlements_of(report, parsed) is None <==> (stdout matches Some(s) && is_text(
            first_line(s),
        ) && has_substring(decode_utf8(first_line(s)), unsigned_notice())),
{
}

/// A program is entitled to `get-task-allow` only by a property list that was
/// read and grants it.
pub proof fn law_entitled_only_by_property_list(
    stdout: Option<Seq<u8>>,
    report: SignatureReport,
    parsed: Option<Entitlements>,
)
    requires
        reports(stdout, report),
        entitlements_of(report, parsed) == Some(Entitlements { get_task_allow: true }),
    ensures
        report is PropertyList,
        parsed == Some(Entitlements { get_task_allow: true }),
        stdout matches Some(s) && is_text(first_line(after_first_line(s))),
{
}

proof fn lemma_line_len_of(line: Seq<u8>, rest: Seq<u8>)
    requires
        forall|k: int| 0 <= k < line.len() - 1 ==> #[trigger] line[k] != 10,
        rest.len() > 0 ==> line.len() > 0 && line.last() == 10,
    ensures
        line_len(line + rest) == line.len(),
    decreases line.len(),
{
    let whole = line + rest;
    if line.len() == 0 {
        assert(whole =~= Seq::empty());
    } else if line.len() == 1 {
        assert(whole[0] == line[0]);
        if line[0] != 10 {
            assert(whole.drop_first() =~= Seq::empty());
            assert(line_len(whole.drop_first()) == 0);
        }
    } else {
        let tail = line.drop_first();
        assert(line[0] != 10);
        assert forall|k: int| 0 <= k < tail.len() - 1 implies #[trigger] tail[k] != 10 by {
            assert(tail[k] == line[k + 1]);
        }
        lemma_line_len_of(tail, rest);
        assert(whole.drop_first() =~= tail + rest);
        assert(whole[0] == line[0]);
    }
}

/// What an output of `codesign` comes to, from its lines alone. `first` and
/// `second` are its first two lines, each with its newline where it has one,
/// and `tail` is what follows them.
///
/// Where the first line is text without the notice and the second line is
/// text, the report is the second line, byte for byte, and what is read from it
/// are the entitlements. A program with the notice has none. In all other cases
/// the program is entitled to nothing.
pub proof fn law_lines_decide_entitlements(
    first: Seq<u8>,
    second: Seq<u8>,
    tail: Seq<u8>,
    report: SignatureReport,
    parsed: Entitlements,
)
    requires
        forall|k: int| 0 <= k < first.len() - 1 ==> #[trigger] first[k] != 10,
        forall|k: int| 0 <= k < second.len() - 1 ==> #[trigger] second[k] != 10,
        second.len() > 0 ==> first.len() > 0 && first.last() == 10,
        tail.len() > 0 ==> second.len() > 0 && second.last() == 10,
        reports(Some(first + second + tail), report),
    ensures
        ({
            let denied = Some(Entitlements { get_task_allow: false });
            let noticed = exists|before: Seq<char>, after: Seq<char>|
                decode_utf8(first) == #[trigger] (before + "code object is not signed at all"@
                    + after);
            if first.len() == 0 || !valid_utf8(first) {
                &&& report == SignatureReport::Known(denied)
                &&& entitlements_of(report, Some(parsed)) == denied
                &&& entitlements_of(report, None) == denied
            } else if noticed {
                &&& report == SignatureReport::Known(None)
                &&& entitlements_of(report, Some(parsed)) is None
                &&& entitlements_of(report, None) is None
            } else if second.len() == 0 || !valid_utf8(second) {
                &&& report == SignatureReport::Known(denied)
                &&& entitlements_of(report, Some(parsed)) == denied
                &&& entitlements_of(report, None) == denied
            } else {
                &&& report matches SignatureReport::PropertyList(list)
                &&& list@ == second
                &&& entitlements_of(report, Some(parsed)) == Some(parsed)
                &&& entitlements_of(report, None) == denied
            }
        }),
{
    let whole = first + second + tail;
    assert(whole =~= first + (second + tail));
    lemma_line_len_of(first, second + tail);
    assert(first_line(whole) =~= first);
    assert(after_first_line(whole) =~= second + tail);
    lemma_line_len_of(second, tail);
    assert(first_line(second + tail) =~= second);
    law_substring(decode_utf8(first), "code object is not signed at all"@);
}

/// A command that could not be run entitles to nothing.
pub proof fn law_failed_command_entitles_to_nothing(
    report: SignatureReport,
    parsed: Option<Entitlements>,
)
    requires
        reports(None, report),
    ensures
        entitlements_of(report, parsed) == Some(Entitlements { get_task_allow: false }),
{
}

/// `codesign` is asked about the process and no other: its last argument is a
/// plus sign and then a text that reads back as the number of the process. The
/// other seven arguments are the same for all.
pub proof fn law_codesign_is_asked_about_the_process(pid: Pid)
    ensures
        codesign_arguments(pid).len() == 8,
        codesign_arguments(pid).take(7) == seq![
            "-q"@,
            "/dev/null"@,
            "codesign"@,
            "--display"@,
            "--entitlements"@,
            "-"@,
            "--xml"@,
        ],
        codesign_arguments(pid)[7] == seq!['+'] + decimal(pid as nat),
        codesign_arguments(pid)[7].len() > 1,
        codesign_arguments(pid)[7][0] == '+',
        codesign_arguments(pid)[7][1] != '+',
        numeral(codesign_arguments(pid)[7].skip(1)) == Some(pid),
{
    reveal_strlit("+");
    law_numeral_of_decimal(pid);
    law_decimal_holds_digits(pid as nat);
    let last = codesign_arguments(pid)[7];
    assert(last =~= seq!['+'] + decimal(pid as nat));
    assert(last.skip(1) =~= decimal(pid as nat));
    assert(last[1] == decimal(pid as nat)[0]);
    assert(codesign_arguments(pid).take(7) =~= seq![
        "-q"@,
        "/dev/null"@,
        "codesign"@,
        "--display"@,
        "--entitlements"@,
        "-"@,
        "--xml"@,
    ]);
}

} // verus!
