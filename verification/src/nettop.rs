//! The network traffic of processes, as `nettop` prints it.

use vstd::prelude::*;

use crate::lines::all_figures;
use crate::lines::begun_after;
use crate::lines::begun_after_all;
use crate::lines::counted;
use crate::lines::header_count;
use crate::lines::law_figures_are_the_counted_lines;
use crate::lines::law_sessions_are_headers;
use crate::lines::LineOutcome;
use crate::power::Real32;
use crate::source::ProcessCommandResult;
use crate::text::chars_of;
use crate::text::decimal;
use crate::text::has_prefix;
use crate::text::law_decimal_holds_digits;
use crate::text::law_numeral_of_decimal;
use crate::text::law_prefix;
use crate::text::lemma_split_concat;
use crate::text::lemma_split_nonempty;
use crate::text::lemma_split_single;
use crate::text::numeral;
use crate::text::parse_u32;
use crate::text::pieces_of;
use crate::text::push_decimal;
use crate::text::push_text;
use crate::text::split;
use crate::text::split_at_each;
use crate::text::starts_with;
use crate::text::texts_of;
use crate::Pid;

verus! {

/// The header that `nettop` prints before each round of figures.
pub open spec fn nettop_header() -> Seq<char> {
    ",bytes_in,bytes_out,"@
}

/// The number of the round from which on the figures count: the first round
/// covers the time before `nettop` was started.
pub const FIRST_ROUND: u8 = 2;

/// What a row of figures comes to: `name.pid,bytes_in,bytes_out,...`. A row
/// with fewer than three fields, or without a dot in its first field, is not
/// one of a process.
pub open spec fn nettop_row(line: Seq<char>) -> LineOutcome {
    let fields = split(line, ',');
    if fields.len() < 3 {
        LineOutcome::Skipped
    } else {
        let process = split(fields[0], '.');
        if process.len() < 2 {
            LineOutcome::Skipped
        } else {
            match (numeral(process.last()), numeral(fields[1]), numeral(fields[2])) {
                (Some(pid), Some(bytes_in), Some(bytes_out)) => LineOutcome::Figures(
                    ProcessCommandResult {
                        bytes_in,
                        bytes_out,
                        ..ProcessCommandResult::blank(pid)
                    },
                ),
                _ => LineOutcome::Malformed,
            }
        }
    }
}

/// What `line` comes to in the round `begun`.
pub open spec fn nettop_outcome(begun: nat, line: Seq<char>) -> LineOutcome {
    if has_prefix(line, nettop_header()) || begun < FIRST_ROUND {
        LineOutcome::Skipped
    } else {
        nettop_row(line)
    }
}

/// The arguments that come before those of the processes.
pub open spec fn nettop_options() -> Seq<Seq<char>> {
    seq![
        "-q"@,
        "/dev/null"@,
        "nettop"@,
        "-P"@,
        "-d"@,
        "-L"@,
        "0"@,
        "-J"@,
        "bytes_in,bytes_out"@,
    ]
}

/// The arguments for `pids`: the options, and then `-p` and the number of each
/// process.
pub open spec fn nettop_arguments(pids: Seq<Pid>) -> Seq<Seq<char>>
    decreases pids.len(),
{
    if pids.len() == 0 {
        nettop_options()
    } else {
        nettop_arguments(pids.drop_last()).push("-p"@).push(decimal(pids.last() as nat))
    }
}

/// Reads the output of `nettop` line by line.
#[derive(Debug)]
pub struct NetTopRunner {
    session_index: u8,
}

impl NetTopRunner {
    /// The number of rounds begun, as far as they are counted.
    pub closed spec fn begun(&self) -> nat {
        self.session_index as nat
    }

    /// A reader that has not seen a line yet.
    pub fn new() -> (r: NetTopRunner)
        ensures
            r.begun() == 0,
    {
        NetTopRunner { session_index: 0 }
    }

    /// The arguments of the `script` command that runs `nettop` on `pids`.
    pub fn args(pids: &Vec<Pid>) -> (r: Vec<String>)
        ensures
            texts_of(r@) == nettop_arguments(pids@),
    {
        let mut args: Vec<String> = Vec::new();
        push_text(&mut args, "-q");
        push_text(&mut args, "/dev/null");
        push_text(&mut args, "nettop");
        push_text(&mut args, "-P");
        push_text(&mut args, "-d");
        push_text(&mut args, "-L");
        push_text(&mut args, "0");
        push_text(&mut args, "-J");
        push_text(&mut args, "bytes_in,bytes_out");
        assert(texts_of(args@) =~= nettop_options());
        let mut i: usize = 0;
        assert(pids@.take(0) =~= Seq::empty());
        while i < pids.len()
            invariant
                i <= pids.len(),
                texts_of(args@) == nettop_arguments(pids@.take(i as int)),
            decreases pids.len() - i,
        {
            push_text(&mut args, "-p");
            let mut number = String::new();
            push_decimal(&mut number, pids[i]);
            assert(number@ =~= decimal(pids@[i as int] as nat));
            push_text(&mut args, number.as_str());
            assert(pids@.take(i + 1).drop_last() =~= pids@.take(i as int));
            i += 1;
        }
        assert(pids@.take(pids@.len() as int) =~= pids@);
        args
    }

    /// Reads one line of the output.
    pub fn read(&mut self, line: &str) -> (r: LineOutcome)
        ensures
            final(self).begun() == begun_after(
                old(self).begun(),
                line@,
                nettop_header(),
                FIRST_ROUND as nat,
            ),
            r == nettop_outcome(old(self).begun(), line@),
    {
        let chars = chars_of(line);
        let header = chars_of(",bytes_in,bytes_out,");
        if starts_with(&chars, &header) {
            if self.session_index < FIRST_ROUND {
                self.session_index = self.session_index + 1;
            }
            return LineOutcome::Skipped;
        }
        if self.session_index < FIRST_ROUND {
            return LineOutcome::Skipped;
        }
        let data = split_at_each(&chars, ',');
        let ghost fields = split(line@, ',');
        assert(pieces_of(data@).len() == data@.len());
        if data.len() < 3 {
            return LineOutcome::Skipped;
        }
        assert(fields[0] == data@[0]@ && fields[1] == data@[1]@ && fields[2] == data@[2]@);
        let process = split_at_each(&data[0], '.');
        assert(pieces_of(process@).len() == process@.len());
        if process.len() < 2 {
            return LineOutcome::Skipped;
        }
        assert(pieces_of(process@).last() == process@[process@.len() - 1]@);
        match (
            parse_u32(&process[process.len() - 1]),
            parse_u32(&data[1]),
            parse_u32(&data[2]),
        ) {
            (Some(pid), Some(bytes_in), Some(bytes_out)) => {
                let mut figures = ProcessCommandResult::of(pid);
                figures.bytes_in = bytes_in;
                figures.bytes_out = bytes_out;
                LineOutcome::Figures(figures)
            },
            _ => LineOutcome::Malformed,
        }
    }
}

// ---------------------------------------------------------------------------
// Laws
// ---------------------------------------------------------------------------

/// `line` has the fields of a row: three at least, the first with a dot in it.
pub open spec fn nettop_has_fields(line: Seq<char>) -> bool {
    split(line, ',').len() >= 3 && split(split(line, ',')[0], '.').len() >= 2
}

/// What each line of a whole output of `nettop` comes to.
pub open spec fn nettop_outcomes(lines: Seq<Seq<char>>) -> Seq<LineOutcome> {
    Seq::new(
        lines.len(),
        |i: int|
            nettop_outcome(
                begun_after_all(lines.take(i), nettop_header(), FIRST_ROUND as nat),
                lines[i],
            ),
    )
}

/// The figures that a whole output of `nettop` gives; `None` where it cannot be
/// read.
pub open spec fn nettop_figures(lines: Seq<Seq<char>>) -> Option<Seq<ProcessCommandResult>> {
    all_figures(nettop_outcomes(lines))
}

/// Reading one more line goes on from where the lines before it have led.
pub proof fn law_nettop_reads_line_by_line(lines: Seq<Seq<char>>, line: Seq<char>)
    ensures
        ({
            let begun = begun_after_all(lines, nettop_header(), FIRST_ROUND as nat);
            let more = lines.push(line);
            &&& begun_after_all(more, nettop_header(), FIRST_ROUND as nat) == begun_after(
                begun,
                line,
                nettop_header(),
                FIRST_ROUND as nat,
            )
            &&& nettop_outcomes(more) == nettop_outcomes(lines).push(nettop_outcome(begun, line))
        }),
{
    let more = lines.push(line);
    assert(more.drop_last() =~= lines);
    assert(more.take(lines.len() as int) =~= lines);
    assert forall|i: int| 0 <= i < lines.len() implies #[trigger] nettop_outcomes(more)[i]
        == nettop_outcomes(lines)[i] by {
        assert(more.take(i) =~= lines.take(i));
    }
    assert(nettop_outcomes(more) =~= nettop_outcomes(lines).push(
        nettop_outcome(begun_after_all(lines, nettop_header(), FIRST_ROUND as nat), line),
    ));
}

/// A line of a whole output counts exactly if two headers have come before it, it is no
/// header itself, and it has the fields of a row; it then comes to what the row
/// says.
pub proof fn law_nettop_counts_rows(lines: Seq<Seq<char>>, i: int)
    requires
        0 <= i < lines.len(),
    ensures
        ({
            let counts = header_count(lines.take(i), nettop_header()) >= FIRST_ROUND && !has_prefix(
                lines[i],
                nettop_header(),
            ) && nettop_has_fields(lines[i]);
            nettop_outcomes(lines)[i] == if counts {
                nettop_row(lines[i])
            } else {
                LineOutcome::Skipped
            }
        }),
        nettop_has_fields(lines[i]) <==> !(nettop_row(lines[i]) is Skipped),
{
    law_sessions_are_headers(lines.take(i), nettop_header(), FIRST_ROUND as nat);
}

/// The figures of a whole output of `nettop` are those of its rows that count,
/// in the order of the lines.
pub proof fn law_nettop_figures_are_its_rows(lines: Seq<Seq<char>>, i: int)
    requires
        nettop_figures(lines) is Some,
        0 <= i < lines.len(),
        header_count(lines.take(i), nettop_header()) >= FIRST_ROUND,
        !has_prefix(lines[i], nettop_header()),
        nettop_has_fields(lines[i]),
    ensures
        ({
            let figures = nettop_figures(lines)->Some_0;
            let at = counted(nettop_outcomes(lines).take(i));
            &&& figures.len() == counted(nettop_outcomes(lines))
            &&& at < figures.len()
            &&& nettop_row(lines[i]) == LineOutcome::Figures(figures[at as int])
        }),
{
    law_nettop_counts_rows(lines, i);
    law_figures_are_the_counted_lines(nettop_outcomes(lines));
    assert(!(nettop_outcomes(lines)[i] is Skipped));
}

/// A line counts only if two header lines have come before it.
pub proof fn law_nettop_skips_first_round(earlier: Seq<Seq<char>>, line: Seq<char>)
    requires
        header_count(earlier, nettop_header()) < 2,
    ensures
        nettop_outcome(begun_after_all(earlier, nettop_header(), FIRST_ROUND as nat), line)
            == LineOutcome::Skipped,
{
    law_sessions_are_headers(earlier, nettop_header(), FIRST_ROUND as nat);
}

/// A row that gives a process by name and number, and its traffic in decimal,
/// is read as just that. The name may hold anything but a comma.
pub proof fn law_nettop_reads_back(
    name: Seq<char>,
    pid: Pid,
    bytes_in: u32,
    bytes_out: u32,
    rest: Seq<char>,
)
    requires
        !name.contains(','),
    ensures
        ({
            let line = (name.push('.') + decimal(pid as nat)).push(',') + (decimal(
                bytes_in as nat,
            ).push(',') + (decimal(bytes_out as nat).push(',') + rest));
            nettop_outcome(FIRST_ROUND as nat, line) == LineOutcome::Figures(
                ProcessCommandResult {
                    bytes_in,
                    bytes_out,
                    ..ProcessCommandResult::blank(pid)
                },
            )
        }),
{
    let number = decimal(pid as nat);
    let ins = decimal(bytes_in as nat);
    let outs = decimal(bytes_out as nat);
    let first = name.push('.') + number;
    let third = outs.push(',') + rest;
    let second = ins.push(',') + third;
    let line = first.push(',') + second;

    law_decimal_holds_digits(pid as nat);
    law_decimal_holds_digits(bytes_in as nat);
    law_decimal_holds_digits(bytes_out as nat);
    law_numeral_of_decimal(pid);
    law_numeral_of_decimal(bytes_in);
    law_numeral_of_decimal(bytes_out);

    assert forall|k: int| 0 <= k < first.len() implies first[k] != ',' by {
        if k < name.len() {
            assert(first[k] == name[k]);
        } else if k > name.len() {
            assert(first[k] == number[k - name.len() - 1]);
        }
    }
    lemma_split_single(first, ',');
    lemma_split_single(ins, ',');
    lemma_split_single(outs, ',');
    lemma_split_concat(outs, ',', rest);
    lemma_split_concat(ins, ',', third);
    lemma_split_concat(first, ',', second);
    lemma_split_nonempty(rest, ',');
    let fields = split(line, ',');
    assert(fields =~= seq![first, ins, outs] + split(rest, ','));

    lemma_split_single(number, '.');
    lemma_split_concat(name, '.', number);
    lemma_split_nonempty(name, '.');
    let process = split(first, '.');
    assert(process =~= split(name, '.') + seq![number]);
    assert(process.last() == number);

    assert(!has_prefix(line, nettop_header())) by {
        reveal_strlit(",bytes_in,bytes_out,");
        if has_prefix(line, nettop_header()) {
            assert(line.subrange(0, nettop_header().len() as int)[0] == ',');
            assert(line[0] == first[0]);
        }
    }
}

/// Every process is watched: behind the nine options stand, for each process in
/// turn, `-p` and its number in decimal, and nothing else.
pub proof fn law_nettop_watches_every_process(pids: Seq<Pid>, i: int)
    ensures
        nettop_arguments(pids).len() == 9 + 2 * pids.len(),
        nettop_arguments(pids).take(9) == seq![
            "-q"@,
            "/dev/null"@,
            "nettop"@,
            "-P"@,
            "-d"@,
            "-L"@,
            "0"@,
            "-J"@,
            "bytes_in,bytes_out"@,
        ],
        0 <= i < pids.len() ==> {
            &&& nettop_arguments(pids)[9 + 2 * i] == "-p"@
            &&& nettop_arguments(pids)[10 + 2 * i] == decimal(pids[i] as nat)
            &&& numeral(nettop_arguments(pids)[10 + 2 * i]) == Some(pids[i])
        },
    decreases pids.len(),
{
    let args = nettop_arguments(pids);
    if pids.len() == 0 {
        assert(args.take(9) =~= nettop_options());
    } else {
        let before = nettop_arguments(pids.drop_last());
        law_nettop_watches_every_process(pids.drop_last(), i);
        law_numeral_of_decimal(pids.last());
        assert(args.take(9) =~= before.take(9));
        if 0 <= i < pids.len() - 1 {
            assert(args[9 + 2 * i] == before[9 + 2 * i]);
            assert(args[10 + 2 * i] == before[10 + 2 * i]);
        }
    }
}

/// A line that begins with the header is skipped and begins a round; two rounds
/// are counted. Any other line begins none, and is skipped before the second.
pub proof fn law_nettop_rounds(begun: nat, line: Seq<char>)
    ensures
        (exists|rest: Seq<char>| line == #[trigger] (",bytes_in,bytes_out,"@ + rest)) ==> {
            &&& nettop_outcome(begun, line) == LineOutcome::Skipped
            &&& begun_after(begun, line, nettop_header(), FIRST_ROUND as nat) == if begun < 2 {
                begun + 1
            } else {
                begun
            }
        },
        !(exists|rest: Seq<char>| line == #[trigger] (",bytes_in,bytes_out,"@ + rest)) ==> {
            &&& begun < 2 ==> nettop_outcome(begun, line) == LineOutcome::Skipped
            &&& begun_after(begun, line, nettop_header(), FIRST_ROUND as nat) == begun
        },
{
    law_prefix(line, ",bytes_in,bytes_out,"@);
}

/// From the second round on, a row `name.number,in,out`, with or without more
/// fields, gives its figures if the three numbers can be read, and cannot be
/// read if not.
pub proof fn law_nettop_row_gives_its_figures(
    begun: nat,
    name: Seq<char>,
    number: Seq<char>,
    ins: Seq<char>,
    outs: Seq<char>,
    more: Option<Seq<char>>,
)
    requires
        begun >= 2,
        !name.contains(','),
        !number.contains(',') && !number.contains('.'),
        !ins.contains(','),
        !outs.contains(','),
    ensures
        ({
            let end = match more {
                Some(rest) => seq![','] + rest,
                None => Seq::empty(),
            };
            let line = name + seq!['.'] + number + seq![','] + ins + seq![','] + outs + end;
            nettop_outcome(begun, line) == match (numeral(number), numeral(ins), numeral(outs)) {
                (Some(pid), Some(bytes_in), Some(bytes_out)) => LineOutcome::Figures(
                    ProcessCommandResult {
                        pid,
                        bytes_in,
                        bytes_in_per_sec: 0,
                        bytes_out,
                        bytes_out_per_sec: 0,
                        frame: 0,
                        frame_per_sec: Real32 { bits: 0 },
                        mach_ports: 0,
                    },
                ),
                _ => LineOutcome::Malformed,
            }
        }),
{
    let end = match more {
        Some(rest) => seq![','] + rest,
        None => Seq::empty(),
    };
    let line = name + seq!['.'] + number + seq![','] + ins + seq![','] + outs + end;
    let first = name.push('.') + number;
    let third = match more {
        Some(rest) => outs.push(',') + rest,
        None => outs,
    };
    let second = ins.push(',') + third;
    assert(line =~= first.push(',') + second);
    assert forall|k: int| 0 <= k < first.len() implies first[k] != ',' by {
        if k < name.len() {
            assert(first[k] == name[k]);
        } else if k > name.len() {
            assert(first[k] == number[k - name.len() - 1]);
        }
    }
    lemma_split_single(first, ',');
    lemma_split_single(ins, ',');
    lemma_split_single(outs, ',');
    lemma_split_concat(ins, ',', third);
    lemma_split_concat(first, ',', second);
    if more is Some {
        lemma_split_concat(outs, ',', more->Some_0);
        lemma_split_nonempty(more->Some_0, ',');
    }
    let fields = split(line, ',');
    assert(fields.len() >= 3);
    assert(fields[0] == first && fields[1] == ins && fields[2] == outs);

    lemma_split_single(number, '.');
    lemma_split_concat(name, '.', number);
    lemma_split_nonempty(name, '.');
    assert(split(first, '.').last() == number);

    assert(!has_prefix(line, nettop_header())) by {
        reveal_strlit(",bytes_in,bytes_out,");
        if has_prefix(line, nettop_header()) {
            assert(line.subrange(0, nettop_header().len() as int)[0] == ',');
            assert(line[0] == first[0]);
        }
    }
}

/// A line with fewer than two commas, or without a dot before its first comma,
/// is skipped.
pub proof fn law_nettop_skips_other_lines(
    begun: nat,
    a: Seq<char>,
    b: Seq<char>,
    rest: Seq<char>,
)
    requires
        !a.contains(','),
        !b.contains(','),
    ensures
        nettop_outcome(begun, a) == LineOutcome::Skipped,
        nettop_outcome(begun, a + seq![','] + b) == LineOutcome::Skipped,
        !a.contains('.') ==> nettop_outcome(begun, a + seq![','] + rest) == LineOutcome::Skipped,
{
    lemma_split_single(a, ',');
    lemma_split_single(b, ',');
    lemma_split_concat(a, ',', b);
    lemma_split_concat(a, ',', rest);
    assert(a + seq![','] + b =~= a.push(',') + b);
    assert(a + seq![','] + rest =~= a.push(',') + rest);
    if !a.contains('.') {
        lemma_split_single(a, '.');
        assert(split(a.push(',') + rest, ',')[0] == a);
    }
}

} // verus!
