//! The frames that processes show, as a `dtrace` script prints them.

use vstd::prelude::*;
use vstd::string::StringExecFns;

use crate::entitlements::Entitlements;
use crate::lines::all_figures;
use crate::lines::begun_after;
use crate::lines::begun_after_all;
use crate::lines::counted;
use crate::lines::header_count;
use crate::lines::law_figures_are_the_counted_lines;
use crate::lines::law_sessions_are_headers;
use crate::lines::LineOutcome;
use crate::power::Real32;
use crate::source::ProcessCommandResult;
use crate::text::chars_of;
use crate::text::decimal;
use crate::text::has_prefix;
use crate::text::join;
use crate::text::law_decimal_holds_digits;
use crate::text::law_numeral_of_decimal;
use crate::text::law_prefix;
use crate::text::law_split_join;
use crate::text::lemma_words_concat;
use crate::text::lemma_words_single;
use crate::text::numeral;
use crate::text::parse_u32;
use crate::text::pieces_of;
use crate::text::push_decimal;
use crate::text::push_text;
use crate::text::split;
use crate::text::split_white_space;
use crate::text::starts_with;
use crate::text::texts_of;
use crate::text::white_space;
use crate::text::words;
use crate::Pid;

verus! {

// ---------------------------------------------------------------------------
// Which processes can be traced
// ---------------------------------------------------------------------------

/// What is known of a process that may be traced. Its entitlements are `None`
/// where it is not signed; they matter only if `needs_entitlements` says so.
#[derive(Debug, Clone, Copy)]
pub struct Candidate {
    pub pid: Pid,
    pub translated: bool,
    pub entitlements: Option<Entitlements>,
}

/// A process can be traced if it does not run translated and if tracing is not
/// restricted, or the process is not signed, or its signature allows it.
pub open spec fn traceable(c: Candidate, unrestricted: bool) -> bool {
    !c.translated && (unrestricted || match c.entitlements {
        Some(e) => e.get_task_allow,
        None => true,
    })
}

/// The processes that can be traced, in the order given.
pub open spec fn traceable_pids(candidates: Seq<Candidate>, unrestricted: bool) -> Seq<Pid> {
    candidates.filter(|c: Candidate| traceable(c, unrestricted)).map_values(|c: Candidate| c.pid)
}

/// The entitlements of a process have to be known to tell if it can be traced.
pub open spec fn entitlements_needed(translated: bool, unrestricted: bool) -> bool {
    !translated && !unrestricted
}

/// Whether the entitlements of a process have to be known to tell if it can be
/// traced.
pub fn needs_entitlements(translated: bool, unrestricted: bool) -> (r: bool)
    ensures
        r == (!translated && !unrestricted),
        r == entitlements_needed(translated, unrestricted),
{
    !translated && !unrestricted
}

/// The processes that can be traced.
pub fn select_traceable(candidates: &Vec<Candidate>, unrestricted: bool) -> (r: Vec<Pid>)
    ensures
        r@ == traceable_pids(candidates@, unrestricted),
{
    let mut out: Vec<Pid> = Vec::new();
    let mut i: usize = 0;
    proof {
        reveal(Seq::filter);
        assert(candidates@.take(0) =~= Seq::empty());
        assert(out@ =~= traceable_pids(candidates@.take(0), unrestricted));
    }
    while i < candidates.len()
        invariant
            i <= candidates.len(),
            out@ == traceable_pids(candidates@.take(i as int), unrestricted),
        decreases candidates.len() - i,
    {
        let c = candidates[i];
        let keep: bool = !c.translated && (unrestricted || match c.entitlements {
            Some(e) => e.get_task_allow,
            None => true,
        });
        proof {
            reveal(Seq::filter);
            assert(candidates@.take(i + 1).drop_last() =~= candidates@.take(i as int));
            assert(candidates@.take(i + 1).last() == c);
        }
        if keep {
            out.push(c.pid);
        }
        assert(out@ =~= traceable_pids(candidates@.take(i + 1), unrestricted));
        i += 1;
    }
    assert(candidates@.take(candidates@.len() as int) =~= candidates@);
    out
}

// ---------------------------------------------------------------------------
// The script
// ---------------------------------------------------------------------------

/// The probe that fires when `pid` asks for its next Metal drawable.
pub open spec fn metal_probe(pid: Pid) -> Seq<char> {
    "objc"@ + decimal(pid as nat) + ":CAMetalLayer:-nextDrawable:entry"@
}

/// The probe that fires when `pid` is done with a Core Animation surface.
pub open spec fn surface_probe(pid: Pid) -> Seq<char> {
    "pid"@ + decimal(pid as nat) + ":QuartzCore:CA??Render??Surface??finalize():entry"@
}

/// The probes of all of `pids`, two for each.
pub open spec fn probes(pids: Seq<Pid>) -> Seq<Seq<char>>
    decreases pids.len(),
{
    if pids.len() == 0 {
        Seq::empty()
    } else {
        probes(pids.drop_last()).push(metal_probe(pids.last())).push(surface_probe(pids.last()))
    }
}

/// The script: every probe, with commas between them, prints its process.
pub open spec fn frame_script(pids: Seq<Pid>) -> Seq<char> {
    join(probes(pids), ","@) + "{trace(pid)}"@
}

/// The arguments for `pids`.
pub open spec fn frame_arguments(pids: Seq<Pid>) -> Seq<Seq<char>> {
    seq!["-q"@, "/dev/null"@, "dtrace"@, "-Z"@, "-n"@, frame_script(pids)]
}

/// The command that traces `pids`, if there is anything to trace.
pub open spec fn frame_command(pids: Seq<Pid>) -> Option<Seq<Seq<char>>> {
    if pids.len() == 0 {
        None
    } else {
        Some(frame_arguments(pids))
    }
}

proof fn lemma_probes_len(pids: Seq<Pid>)
    ensures
        probes(pids).len() == 2 * pids.len(),
    decreases pids.len(),
{
    if pids.len() > 0 {
        lemma_probes_len(pids.drop_last());
    }
}

/// The script that watches `pids`.
fn script_for(pids: &Vec<Pid>) -> (r: String)
    ensures
        r@ == frame_script(pids@),
{
    let mut script = String::new();
    let mut i: usize = 0;
    assert(pids@.take(0) =~= Seq::empty());
    while i < pids.len()
        invariant
            i <= pids.len(),
            script@ == join(probes(pids@.take(i as int)), ","@),
        decreases pids.len() - i,
    {
        let ghost before = probes(pids@.take(i as int));
        let ghost now = probes(pids@.take(i + 1));
        let ghost pid = pids@[i as int];
        proof {
            lemma_probes_len(pids@.take(i as int));
            assert(pids@.take(i + 1).drop_last() =~= pids@.take(i as int));
            assert(now.drop_last() =~= before.push(metal_probe(pid)));
            assert(now.drop_last().drop_last() =~= before);
        }
        if i > 0 {
            script.append(",");
        }
        script.append("objc");
        push_decimal(&mut script, pids[i]);
        script.append(":CAMetalLayer:-nextDrawable:entry");
        assert(script@ =~= join(before.push(metal_probe(pid)), ","@));
        script.append(",");
        script.append("pid");
        push_decimal(&mut script, pids[i]);
        script.append(":QuartzCore:CA??Render??Surface??finalize():entry");
        assert(script@ =~= join(now, ","@));
        i += 1;
    }
    assert(pids@.take(pids@.len() as int) =~= pids@);
    script.append("{trace(pid)}");
    script
}

// ---------------------------------------------------------------------------
// The output
// ---------------------------------------------------------------------------

/// How `dtrace` begins the header of its output.
pub open spec fn frame_header() -> Seq<char> {
    "CPU"@
}

/// The number of headers after which rows count.
pub const HEADERS: u8 = 1;

/// What a row comes to: one frame of the process whose number is the fourth
/// word.
pub open spec fn frame_row(line: Seq<char>) -> LineOutcome {
    let data = words(line);
    if data.len() < 4 {
        LineOutcome::Skipped
    } else {
        match numeral(data[3]) {
            Some(pid) => LineOutcome::Figures(
                ProcessCommandResult { frame: 1, ..ProcessCommandResult::blank(pid) },
            ),
            None => LineOutcome::Malformed,
        }
    }
}

/// What `line` comes to after `begun` headers.
pub open spec fn frame_outcome(begun: nat, line: Seq<char>) -> LineOutcome {
    if has_prefix(line, frame_header()) || begun < HEADERS {
        LineOutcome::Skipped
    } else {
        frame_row(line)
    }
}

/// Reads the output of the script line by line.
#[derive(Debug)]
pub struct FrameRateRunner {
    session_index: u8,
}

impl FrameRateRunner {
    /// The number of headers seen, as far as they are counted.
    pub closed spec fn begun(&self) -> nat {
        self.session_index as nat
    }

    /// A reader that has not seen a line yet.
    pub fn new() -> (r: FrameRateRunner)
        ensures
            r.begun() == 0,
    {
        FrameRateRunner { session_index: 0 }
    }

    /// The arguments of the `script` command that runs `dtrace` on `pids`;
    /// `None` where there is nothing to trace.
    pub fn args(pids: &Vec<Pid>) -> (r: Option<Vec<String>>)
        ensures
            r is None <==> pids@.len() == 0,
            r matches Some(args) ==> texts_of(args@) == frame_arguments(pids@),
            frame_command(pids@) == match r {
                Some(args) => Some(texts_of(args@)),
                None => None,
            },
    {
        if pids.len() == 0 {
            return None;
        }
        let mut args: Vec<String> = Vec::new();
        push_text(&mut args, "-q");
        push_text(&mut args, "/dev/null");
        push_text(&mut args, "dtrace");
        push_text(&mut args, "-Z");
        push_text(&mut args, "-n");
        let script = script_for(pids);
        push_text(&mut args, script.as_str());
        assert(texts_of(args@) =~= frame_arguments(pids@));
        Some(args)
    }

    /// Reads one line of the output.
    pub fn read(&mut self, line: &str) -> (r: LineOutcome)
        ensures
            final(self).begun() == begun_after(
                old(self).begun(),
                line@,
                frame_header(),
                HEADERS as nat,
            ),
            r == frame_outcome(old(self).begun(), line@),
    {
        let chars = chars_of(line);
        let header = chars_of("CPU");
        if starts_with(&chars, &header) {
            if self.session_index < HEADERS {
                self.session_index = self.session_index + 1;
            }
            return LineOutcome::Skipped;
        }
        if self.session_index < HEADERS {
            return LineOutcome::Skipped;
        }
        let data = split_white_space(&chars);
        assert(pieces_of(data@).len() == data@.len());
        if data.len() < 4 {
            return LineOutcome::Skipped;
        }
        assert(words(line@)[3] == data@[3]@);
        match parse_u32(&data[3]) {
            Some(pid) => {
                let mut figures = ProcessCommandResult::of(pid);
                figures.frame = 1;
                LineOutcome::Figures(figures)
            },
            None => LineOutcome::Malformed,
        }
    }
}

// ---------------------------------------------------------------------------
// Laws
// ---------------------------------------------------------------------------

/// A process that is traced does not run translated; where tracing is
/// restricted, it is unsigned or its signature allows it.
pub proof fn law_traced_pids_are_traceable(
    candidates: Seq<Candidate>,
    unrestricted: bool,
    i: int,
)
    requires
        0 <= i < traceable_pids(candidates, unrestricted).len(),
    ensures
        exists|c: Candidate|
            candidates.contains(c) && c.pid == traceable_pids(candidates, unrestricted)[i]
                && !c.translated && (unrestricted || c.entitlements is None
                || c.entitlements->Some_0.get_task_allow),
{
    let allowed = |c: Candidate| traceable(c, unrestricted);
    let c = candidates.filter(allowed)[i];
    assert(candidates.filter(allowed).contains(c));
    candidates.lemma_filter_contains_rev(allowed, c);
    candidates.lemma_filter_pred(allowed, i);
    assert(traceable(c, unrestricted));
}

/// Every process that can be traced is traced.
pub proof fn law_traceable_pids_are_traced(
    candidates: Seq<Candidate>,
    unrestricted: bool,
    i: int,
)
    requires
        0 <= i < candidates.len(),
        traceable(candidates[i], unrestricted),
    ensures
        traceable_pids(candidates, unrestricted).contains(candidates[i].pid),
{
    let allowed = |c: Candidate| traceable(c, unrestricted);
    let kept = candidates.filter(allowed);
    candidates.lemma_filter_contains(allowed, i);
    let k = choose|k: int| 0 <= k < kept.len() && kept[k] == candidates[i];
    assert(traceable_pids(candidates, unrestricted)[k] == candidates[i].pid);
}

/// Where the entitlements of a process need not be known, they make no
/// difference.
pub proof fn law_entitlements_matter_only_if_needed(
    c: Candidate,
    other: Option<Entitlements>,
    unrestricted: bool,
)
    requires
        c.translated || unrestricted,
    ensures
        traceable(c, unrestricted) == traceable(
            Candidate { entitlements: other, ..c },
            unrestricted,
        ),
{
}

/// `line` has the words of a row: four at least.
pub open spec fn frame_has_fields(line: Seq<char>) -> bool {
    words(line).len() >= 4
}

/// What each line of a whole output of `dtrace` comes to.
pub open spec fn frame_outcomes(lines: Seq<Seq<char>>) -> Seq<LineOutcome> {
    Seq::new(
        lines.len(),
        |i: int|
            frame_outcome(
                begun_after_all(lines.take(i), frame_header(), HEADERS as nat),
                lines[i],
            ),
    )
}

/// The figures that a whole output of `dtrace` gives; `None` where it cannot be
/// read.
pub open spec fn frame_figures(lines: Seq<Seq<char>>) -> Option<Seq<ProcessCommandResult>> {
    all_figures(frame_outcomes(lines))
}

/// Reading one more line goes on from where the lines before it have led.
pub proof fn law_frame_reads_line_by_line(lines: Seq<Seq<char>>, line: Seq<char>)
    ensures
        ({
            let begun = begun_after_all(lines, frame_header(), HEADERS as nat);
            let more = lines.push(line);
            &&& begun_after_all(more, frame_header(), HEADERS as nat) == begun_after(
                begun,
                line,
                frame_header(),
                HEADERS as nat,
            )
            &&& frame_outcomes(more) == frame_outcomes(lines).push(frame_outcome(begun, line))
        }),
{
    let more = lines.push(line);
    assert(more.drop_last() =~= lines);
    assert(more.take(lines.len() as int) =~= lines);
    assert forall|i: int| 0 <= i < lines.len() implies #[trigger] frame_outcomes(more)[i]
        == frame_outcomes(lines)[i] by {
        assert(more.take(i) =~= lines.take(i));
    }
    assert(frame_outcomes(more) =~= frame_outcomes(lines).push(
        frame_outcome(begun_after_all(lines, frame_header(), HEADERS as nat), line),
    ));
}

/// A line of a whole output counts exactly if a header has come before it, it is no
/// header itself, and it has the fields of a row; it then comes to what the row
/// says.
pub proof fn law_frame_counts_rows(lines: Seq<Seq<char>>, i: int)
    requires
        0 <= i < lines.len(),
    ensures
        ({
            let counts = header_count(lines.take(i), frame_header()) >= HEADERS && !has_prefix(
                lines[i],
                frame_header(),
            ) && frame_has_fields(lines[i]);
            frame_outcomes(lines)[i] == if counts {
                frame_row(lines[i])
            } else {
                LineOutcome::Skipped
            }
        }),
        frame_has_fields(lines[i]) <==> !(frame_row(lines[i]) is Skipped),
{
    law_sessions_are_headers(lines.take(i), frame_header(), HEADERS as nat);
}

/// The figures of a whole output of `dtrace` are those of its rows that count,
/// in the order of the lines.
pub proof fn law_frame_figures_are_its_rows(lines: Seq<Seq<char>>, i: int)
    requires
        frame_figures(lines) is Some,
        0 <= i < lines.len(),
        header_count(lines.take(i), frame_header()) >= HEADERS,
        !has_prefix(lines[i], frame_header()),
        frame_has_fields(lines[i]),
    ensures
        ({
            let figures = frame_figures(lines)->Some_0;
            let at = counted(frame_outcomes(lines).take(i));
            &&& figures.len() == counted(frame_outcomes(lines))
            &&& at < figures.len()
            &&& frame_row(lines[i]) == LineOutcome::Figures(figures[at as int])
        }),
{
    law_frame_counts_rows(lines, i);
    law_figures_are_the_counted_lines(frame_outcomes(lines));
    assert(!(frame_outcomes(lines)[i] is Skipped));
}

/// A line counts only if a header line has come before it.
pub proof fn law_frames_need_a_header(earlier: Seq<Seq<char>>, line: Seq<char>)
    requires
        header_count(earlier, frame_header()) < 1,
    ensures
        frame_outcome(begun_after_all(earlier, frame_header(), HEADERS as nat), line)
            == LineOutcome::Skipped,
{
    law_sessions_are_headers(earlier, frame_header(), HEADERS as nat);
}

/// A row whose fourth word is a process number in decimal is read as one frame
/// of that process, whatever follows.
pub proof fn law_frame_reads_back(before: Seq<char>, gap: char, pid: Pid, tail: Seq<char>)
    requires
        words(before).len() == 3,
        white_space(gap),
        tail.len() > 0 ==> white_space(tail[0]),
        !has_prefix(before.push(gap) + decimal(pid as nat) + tail, frame_header()),
    ensures
        frame_outcome(HEADERS as nat, before.push(gap) + decimal(pid as nat) + tail)
            == LineOutcome::Figures(
            ProcessCommandResult { frame: 1, ..ProcessCommandResult::blank(pid) },
        ),
{
    let number = decimal(pid as nat);
    let head = before.push(gap) + number;
    law_decimal_holds_digits(pid as nat);
    law_numeral_of_decimal(pid);
    lemma_words_single(number);
    lemma_words_concat(before, gap, number);
    assert(words(head) =~= words(before).push(number));
    if tail.len() == 0 {
        assert(head + tail =~= head);
    } else {
        assert(head + tail =~= head.push(tail[0]) + tail.skip(1));
        lemma_words_concat(head, tail[0], tail.skip(1));
    }
    assert(words(head + tail)[3] == number);
}

/// A candidate that does not run translated has its process chosen, in its
/// place and once, if tracing is unrestricted, or the process is not signed, or
/// its signature allows it. No other candidate adds anything.
pub proof fn law_each_candidate_is_decided(
    candidates: Seq<Candidate>,
    unrestricted: bool,
    i: int,
)
    requires
        0 <= i < candidates.len(),
    ensures
        ({
            let c = candidates[i];
            let chosen = traceable_pids(candidates, unrestricted);
            let before = traceable_pids(candidates.take(i), unrestricted);
            let after = traceable_pids(candidates.skip(i + 1), unrestricted);
            if c.translated == false && (unrestricted || c.entitlements == None::<Entitlements>
                || c.entitlements == Some(Entitlements { get_task_allow: true })) {
                chosen == before + seq![c.pid] + after
            } else {
                chosen == before + after
            }
        }),
{
    let head = candidates.take(i);
    let tail = candidates.skip(i + 1);
    let one = seq![candidates[i]];
    assert(candidates =~= head + one + tail);
    law_choices_add_up(head + one, tail, candidates[i], unrestricted);
    law_choices_add_up(head, one, candidates[i], unrestricted);
    let chosen = traceable_pids(candidates, unrestricted);
    let before = traceable_pids(head, unrestricted);
    let after = traceable_pids(tail, unrestricted);
    assert(before + Seq::empty() + after =~= before + after);
}

/// Two rows of candidates have chosen what the one has and then what the other
/// has. One candidate has its process chosen or nothing, by its fields alone.
pub proof fn law_choices_add_up(
    a: Seq<Candidate>,
    b: Seq<Candidate>,
    one: Candidate,
    unrestricted: bool,
)
    ensures
        traceable_pids(Seq::empty(), unrestricted) == Seq::<Pid>::empty(),
        traceable_pids(seq![one], unrestricted) == if one.translated == false && (unrestricted
            || one.entitlements == None::<Entitlements> || one.entitlements == Some(
            Entitlements { get_task_allow: true },
        )) {
            seq![one.pid]
        } else {
            Seq::empty()
        },
        traceable_pids(a + b, unrestricted) == traceable_pids(a, unrestricted) + traceable_pids(
            b,
            unrestricted,
        ),
    decreases b.len(),
{
    reveal_with_fuel(Seq::filter, 2);
    let allowed = |c: Candidate| traceable(c, unrestricted);
    assert(traceable_pids(Seq::empty(), unrestricted) =~= Seq::<Pid>::empty());
    assert(seq![one].drop_last() =~= Seq::empty());
    assert(traceable_pids(seq![one], unrestricted) =~= if traceable(one, unrestricted) {
        seq![one.pid]
    } else {
        Seq::empty()
    });
    if b.len() == 0 {
        assert(a + b =~= a);
        assert(traceable_pids(a, unrestricted) + Seq::empty() =~= traceable_pids(a, unrestricted));
        assert(b =~= Seq::empty());
    } else {
        law_choices_add_up(a, b.drop_last(), one, unrestricted);
        assert((a + b).drop_last() =~= a + b.drop_last());
        assert((a + b).last() == b.last());
        let left = traceable_pids(a, unrestricted);
        let right = traceable_pids(b.drop_last(), unrestricted);
        if traceable(b.last(), unrestricted) {
            assert(traceable_pids(b, unrestricted) =~= right.push(b.last().pid));
            assert(traceable_pids(a + b, unrestricted) =~= (left + right).push(b.last().pid));
            assert((left + right).push(b.last().pid) =~= left + right.push(b.last().pid));
        } else {
            assert(traceable_pids(b, unrestricted) =~= right);
            assert(traceable_pids(a + b, unrestricted) =~= left + right);
        }
    }
}

/// What stands around the number in a probe holds no comma.
proof fn lemma_no_commas()
    ensures
        !("objc"@).contains(','),
        !("pid"@).contains(','),
        !(":CAMetalLayer:-nextDrawable:entry"@).contains(','),
        !(":QuartzCore:CA??Render??Surface??finalize():entry"@).contains(','),
        !("{trace(pid)}"@).contains(','),
        ","@ == seq![','],
        ("objc"@).len() == 4,
        ("pid"@).len() == 3,
        ":CAMetalLayer:-nextDrawable:entry"@[0] == ':',
        ":QuartzCore:CA??Render??Surface??finalize():entry"@[0] == ':',
        (":CAMetalLayer:-nextDrawable:entry"@).len() > 0,
        (":QuartzCore:CA??Render??Surface??finalize():entry"@).len() > 0,
{
    reveal_strlit("objc");
    reveal_strlit("pid");
    reveal_strlit(":CAMetalLayer:-nextDrawable:entry");
    reveal_strlit(":QuartzCore:CA??Render??Surface??finalize():entry");
    reveal_strlit("{trace(pid)}");
    reveal_strlit(",");
    assert(","@ =~= seq![',']);
}

proof fn lemma_concat_holds_no_comma(a: Seq<char>, b: Seq<char>)
    requires
        !a.contains(','),
        !b.contains(','),
    ensures
        !(a + b).contains(','),
{
    assert forall|k: int| 0 <= k < (a + b).len() implies (a + b)[k] != ',' by {
        if k < a.len() {
            assert((a + b)[k] == a[k]);
        } else {
            assert((a + b)[k] == b[k - a.len()]);
        }
    }
}

proof fn lemma_probe_holds_no_comma(pid: Pid)
    ensures
        !metal_probe(pid).contains(','),
        !surface_probe(pid).contains(','),
        !(surface_probe(pid) + "{trace(pid)}"@).contains(','),
{
    let number = decimal(pid as nat);
    lemma_no_commas();
    law_decimal_holds_digits(pid as nat);
    assert(!number.contains(','));
    lemma_concat_holds_no_comma("objc"@, number);
    lemma_concat_holds_no_comma("objc"@ + number, ":CAMetalLayer:-nextDrawable:entry"@);
    lemma_concat_holds_no_comma("pid"@, number);
    lemma_concat_holds_no_comma(
        "pid"@ + number,
        ":QuartzCore:CA??Render??Surface??finalize():entry"@,
    );
    lemma_concat_holds_no_comma(surface_probe(pid), "{trace(pid)}"@);
}

proof fn lemma_probe_places(pids: Seq<Pid>, i: int)
    requires
        0 <= i < pids.len(),
    ensures
        probes(pids).len() == 2 * pids.len(),
        probes(pids)[2 * i] == metal_probe(pids[i]),
        probes(pids)[2 * i + 1] == surface_probe(pids[i]),
    decreases pids.len(),
{
    let before = probes(pids.drop_last());
    lemma_probes_len(pids.drop_last());
    if i < pids.len() - 1 {
        lemma_probe_places(pids.drop_last(), i);
        assert(probes(pids)[2 * i] == before[2 * i]);
        assert(probes(pids)[2 * i + 1] == before[2 * i + 1]);
    }
}

/// The script watches every process: cut at its commas it has two pieces for
/// each process in turn, a probe of `objc` and a probe of `pid`, both with the
/// number of the process in decimal, and nothing else but the action behind the
/// last.
pub proof fn law_script_watches_every_process(pids: Seq<Pid>, i: int)
    requires
        0 <= i < pids.len(),
    ensures
        ({
            let pieces = split(frame_script(pids), ',');
            let number = decimal(pids[i] as nat);
            let action = if i == pids.len() - 1 {
                "{trace(pid)}"@
            } else {
                Seq::empty()
            };
            &&& pieces.len() == 2 * pids.len()
            &&& pieces[2 * i] == "objc"@ + number + ":CAMetalLayer:-nextDrawable:entry"@
            &&& pieces[2 * i + 1] == "pid"@ + number
                + ":QuartzCore:CA??Render??Surface??finalize():entry"@ + action
        }),
{
    let all = probes(pids);
    let action = "{trace(pid)}"@;
    lemma_probes_len(pids);
    lemma_no_commas();
    let ended = all.drop_last().push(all.last() + action);
    assert(ended.drop_last() =~= all.drop_last());
    assert(join(all, seq![',']) + action =~= join(ended, seq![',']));
    assert(frame_script(pids) == join(ended, seq![',']));
    assert forall|k: int| 0 <= k < ended.len() implies !(#[trigger] ended[k]).contains(',') by {
        let j = k / 2;
        lemma_probe_places(pids, j);
        lemma_probe_holds_no_comma(pids[j]);
        assert(k == 2 * j || k == 2 * j + 1);
        if k == ended.len() - 1 {
            assert(all.last() == all[2 * j + 1]);
        } else {
            assert(ended[k] == all[k]);
        }
    }
    law_split_join(ended, ',');
    lemma_probe_places(pids, i);
    if i == pids.len() - 1 {
        assert(all.last() == all[2 * i + 1]);
    } else {
        assert(surface_probe(pids[i]) + Seq::empty() =~= surface_probe(pids[i]));
    }
}

/// In each piece of the script the text between the name of the provider and
/// the first colon reads back as the number of the process.
pub proof fn law_script_names_every_process(pids: Seq<Pid>, i: int)
    requires
        0 <= i < pids.len(),
    ensures
        ({
            let metal = split(frame_script(pids), ',')[2 * i];
            let surface = split(frame_script(pids), ',')[2 * i + 1];
            let n = decimal(pids[i] as nat).len();
            &&& metal.take(4) == "objc"@
            &&& surface.take(3) == "pid"@
            &&& metal.len() > 4 + n && metal[4 + n as int] == ':'
            &&& surface.len() > 3 + n && surface[3 + n as int] == ':'
            &&& !metal.subrange(4, 4 + n as int).contains(':')
            &&& !surface.subrange(3, 3 + n as int).contains(':')
            &&& numeral(metal.subrange(4, 4 + n as int)) == Some(pids[i])
            &&& numeral(surface.subrange(3, 3 + n as int)) == Some(pids[i])
        }),
{
    law_script_watches_every_process(pids, i);
    lemma_no_commas();
    law_decimal_holds_digits(pids[i] as nat);
    law_numeral_of_decimal(pids[i]);
    let number = decimal(pids[i] as nat);
    let n = number.len() as int;
    let metal = split(frame_script(pids), ',')[2 * i];
    let surface = split(frame_script(pids), ',')[2 * i + 1];
    assert(metal.take(4) =~= "objc"@);
    assert(surface.take(3) =~= "pid"@);
    assert(metal.subrange(4, 4 + n) =~= number);
    assert(surface.subrange(3, 3 + n) =~= number);
    assert(!number.contains(':'));
    assert(metal[4 + n] == ":CAMetalLayer:-nextDrawable:entry"@[0]);
    assert(surface[3 + n] == ":QuartzCore:CA??Render??Surface??finalize():entry"@[0]);
}

/// Two different processes never have the same probe.
pub proof fn law_probes_tell_processes_apart(a: Pid, b: Pid)
    requires
        metal_probe(a) == metal_probe(b) || surface_probe(a) == surface_probe(b),
    ensures
        a == b,
{
    law_script_names_every_process(seq![a], 0);
    law_script_names_every_process(seq![b], 0);
    law_script_watches_every_process(seq![a], 0);
    law_script_watches_every_process(seq![b], 0);
    lemma_no_commas();
    let x = decimal(a as nat);
    let y = decimal(b as nat);
    law_decimal_holds_digits(a as nat);
    law_decimal_holds_digits(b as nat);
    law_numeral_of_decimal(a);
    law_numeral_of_decimal(b);
    if metal_probe(a) == metal_probe(b) {
        let tail = ":CAMetalLayer:-nextDrawable:entry"@;
        assert(x.len() == y.len()) by {
            assert(metal_probe(a).len() == 4 + x.len() + tail.len());
            assert(metal_probe(b).len() == 4 + y.len() + tail.len());
        }
        assert(metal_probe(a).subrange(4, 4 + x.len() as int) =~= x);
        assert(metal_probe(b).subrange(4, 4 + y.len() as int) =~= y);
    } else {
        let tail = ":QuartzCore:CA??Render??Surface??finalize():entry"@;
        assert(x.len() == y.len()) by {
            assert(surface_probe(a).len() == 3 + x.len() + tail.len());
            assert(surface_probe(b).len() == 3 + y.len() + tail.len());
        }
        assert(surface_probe(a).subrange(3, 3 + x.len() as int) =~= x);
        assert(surface_probe(b).subrange(3, 3 + y.len() as int) =~= y);
    }
}

/// The script is the last of six arguments; the others are the same for all.
pub proof fn law_script_is_the_last_argument(pids: Seq<Pid>)
    ensures
        frame_arguments(pids) == seq!["-q"@, "/dev/null"@, "dtrace"@, "-Z"@, "-n"@] + seq![
            frame_script(pids),
        ],
{
    assert(frame_arguments(pids) =~= seq!["-q"@, "/dev/null"@, "dtrace"@, "-Z"@, "-n"@] + seq![
        frame_script(pids),
    ]);
}

/// A line that begins with `CPU` is skipped and is a header; one header is
/// counted. Any other line is none, and is skipped before the first.
pub proof fn law_frame_headers(begun: nat, line: Seq<char>)
    ensures
        (exists|rest: Seq<char>| line == #[trigger] ("CPU"@ + rest)) ==> {
            &&& frame_outcome(begun, line) == LineOutcome::Skipped
            &&& begun_after(begun, line, frame_header(), HEADERS as nat) == if begun < 1 {
                begun + 1
            } else {
                begun
            }
        },
        !(exists|rest: Seq<char>| line == #[trigger] ("CPU"@ + rest)) ==> {
            &&& begun < 1 ==> frame_outcome(begun, line) == LineOutcome::Skipped
            &&& begun_after(begun, line, frame_header(), HEADERS as nat) == begun
        },
{
    law_prefix(line, "CPU"@);
}

/// After the header, a line that is none gives one frame of the process that
/// its fourth word names, and cannot be read if that word is no number.
pub proof fn law_frame_row_gives_one_frame(
    begun: nat,
    before: Seq<char>,
    gap: char,
    word: Seq<char>,
    tail: Seq<char>,
)
    requires
        begun >= 1,
        words(before).len() == 3,
        white_space(gap),
        word.len() > 0,
        forall|k: int| 0 <= k < word.len() ==> !white_space(#[trigger] word[k]),
        tail.len() > 0 ==> white_space(tail[0]),
        !(exists|rest: Seq<char>| before + seq![gap] + word + tail == #[trigger] ("CPU"@ + rest)),
    ensures
        frame_outcome(begun, before + seq![gap] + word + tail) == match numeral(word) {
            Some(pid) => LineOutcome::Figures(
                ProcessCommandResult {
                    pid,
                    bytes_in: 0,
                    bytes_in_per_sec: 0,
                    bytes_out: 0,
                    bytes_out_per_sec: 0,
                    frame: 1,
                    frame_per_sec: Real32 { bits: 0 },
                    mach_ports: 0,
                },
            ),
            None => LineOutcome::Malformed,
        },
{
    let line = before + seq![gap] + word + tail;
    let head = before.push(gap) + word;
    law_prefix(line, "CPU"@);
    lemma_words_single(word);
    lemma_words_concat(before, gap, word);
    assert(words(head) =~= words(before).push(word));
    if tail.len() == 0 {
        assert(line =~= head);
    } else {
        assert(line =~= head.push(tail[0]) + tail.skip(1));
        lemma_words_concat(head, tail[0], tail.skip(1));
    }
    assert(words(line)[3] == word);
}

/// A line with fewer than four words is skipped.
pub proof fn law_frame_skips_short_lines(begun: nat, line: Seq<char>)
    requires
        words(line).len() < 4,
    ensures
        frame_outcome(begun, line) == LineOutcome::Skipped,
{
}

/// Entitlements are asked for if and only if they can make a difference: what
/// is chosen of one candidate then depends on them, and else it does not.
pub proof fn law_entitlements_are_asked_for_if_they_decide(
    pid: Pid,
    translated: bool,
    unrestricted: bool,
    a: Option<Entitlements>,
    b: Option<Entitlements>,
)
    ensures
        ({
            let chosen = |e: Option<Entitlements>|
                traceable_pids(
                    seq![Candidate { pid, translated, entitlements: e }],
                    unrestricted,
                );
            let yes = chosen(Some(Entitlements { get_task_allow: true }));
            let no = chosen(Some(Entitlements { get_task_allow: false }));
            &&& entitlements_needed(translated, unrestricted) <==> yes != no
            &&& !entitlements_needed(translated, unrestricted) ==> chosen(a) == chosen(b)
        }),
{
    let with = |e: Option<Entitlements>| Candidate { pid, translated, entitlements: e };
    let none = Seq::<Candidate>::empty();
    let yes = Some(Entitlements { get_task_allow: true });
    let no = Some(Entitlements { get_task_allow: false });
    law_choices_add_up(none, none, with(yes), unrestricted);
    law_choices_add_up(none, none, with(no), unrestricted);
    law_choices_add_up(none, none, with(a), unrestricted);
    law_choices_add_up(none, none, with(b), unrestricted);
    assert(seq![pid] != Seq::<Pid>::empty()) by {
        assert(seq![pid].len() == 1);
    }
}

/// One process or more are traced by a command, however many they are; without
/// a process there is no command.
pub proof fn law_any_process_is_traced(pids: Seq<Pid>, pid: Pid)
    ensures
        frame_command(Seq::empty()) is None,
        frame_command(pids.push(pid)) == Some(
            seq!["-q"@, "/dev/null"@, "dtrace"@, "-Z"@, "-n"@] + seq![frame_script(pids.push(pid))],
        ),
{
    law_script_is_the_last_argument(pids.push(pid));
}

} // verus!
