//! Rows of figures that a helper command prints, one line at a time.

use vstd::prelude::*;

use crate::source::ProcessCommandResult;
use crate::text::has_prefix;
use crate::text::law_prefix;

verus! {

/// What a line of a helper command's output comes to.
#[derive(Debug, Clone, Copy)]
pub enum LineOutcome {
    /// The line holds no figures that count.
    Skipped,
    /// The figures of one process.
    Figures(ProcessCommandResult),
    /// A row of figures that cannot be read.
    Malformed,
}

/// The number of sessions begun after `line`, with `begun` before it. A header
/// line begins a session; beyond `limit` they are not counted.
pub open spec fn begun_after(begun: nat, line: Seq<char>, header: Seq<char>, limit: nat) -> nat {
    if has_prefix(line, header) && begun < limit {
        begun + 1
    } else {
        begun
    }
}

/// The number of sessions begun after all of `lines`.
pub open spec fn begun_after_all(lines: Seq<Seq<char>>, header: Seq<char>, limit: nat) -> nat
    decreases lines.len(),
{
    if lines.len() == 0 {
        0
    } else {
        begun_after(begun_after_all(lines.drop_last(), header, limit), lines.last(), header, limit)
    }
}

/// The number of header lines among `lines`.
pub open spec fn header_count(lines: Seq<Seq<char>>, header: Seq<char>) -> nat
    decreases lines.len(),
{
    if lines.len() == 0 {
        0
    } else {
        header_count(lines.drop_last(), header) + if has_prefix(lines.last(), header) {
            1nat
        } else {
            0
        }
    }
}

/// The sessions begun are the header lines seen, up to the limit.
pub proof fn law_sessions_are_headers(lines: Seq<Seq<char>>, header: Seq<char>, limit: nat)
    ensures
        begun_after_all(lines, header, limit) == if header_count(lines, header) < limit {
            header_count(lines, header)
        } else {
            limit
        },
    decreases lines.len(),
{
    if lines.len() > 0 {
        law_sessions_are_headers(lines.drop_last(), header, limit);
    }
}

// ---------------------------------------------------------------------------
// Whole outputs
// ---------------------------------------------------------------------------

/// The number of lines that count: those that are not skipped.
pub open spec fn counted(outcomes: Seq<LineOutcome>) -> nat
    decreases outcomes.len(),
{
    if outcomes.len() == 0 {
        0
    } else {
        counted(outcomes.drop_last()) + if outcomes.last() is Skipped {
            0
        } else {
            1nat
        }
    }
}

/// The figures of a whole output, in the order of its lines; `None` where a
/// line that counts cannot be read.
pub open spec fn all_figures(outcomes: Seq<LineOutcome>) -> Option<Seq<ProcessCommandResult>>
    decreases outcomes.len(),
{
    if outcomes.len() == 0 {
        Some(Seq::empty())
    } else {
        match (all_figures(outcomes.drop_last()), outcomes.last()) {
            (Some(before), LineOutcome::Skipped) => Some(before),
            (Some(before), LineOutcome::Figures(r)) => Some(before.push(r)),
            _ => None,
        }
    }
}

/// A whole output can be read if and only if each of its lines can be. It then
/// has one set of figures for each line that counts, in the order of the lines.
pub proof fn law_figures_are_the_counted_lines(outcomes: Seq<LineOutcome>)
    ensures
        all_figures(outcomes) is None <==> exists|i: int|
            0 <= i < outcomes.len() && #[trigger] outcomes[i] is Malformed,
        all_figures(outcomes) matches Some(figures) ==> {
            &&& figures.len() == counted(outcomes)
            &&& forall|i: int|
                0 <= i < outcomes.len() && !(#[trigger] outcomes[i] is Skipped) ==> {
                    &&& counted(outcomes.take(i)) < figures.len()
                    &&& outcomes[i] == LineOutcome::Figures(
                        figures[counted(outcomes.take(i)) as int],
                    )
                }
        },
    decreases outcomes.len(),
{
    if outcomes.len() > 0 {
        let rest = outcomes.drop_last();
        let last = outcomes.len() - 1;
        law_figures_are_the_counted_lines(rest);
        assert(outcomes.take(last) =~= rest);
        assert(outcomes[last] == outcomes.last());
        if all_figures(outcomes) is None {
            if all_figures(rest) is None {
                let i = choose|i: int| 0 <= i < rest.len() && #[trigger] rest[i] is Malformed;
                assert(outcomes[i] is Malformed);
            }
        } else {
            let figures = all_figures(outcomes)->Some_0;
            let before = all_figures(rest)->Some_0;
            assert forall|i: int| 0 <= i < outcomes.len() implies !(
            #[trigger] outcomes[i] is Malformed) by {
                if i < last {
                    assert(rest[i] == outcomes[i]);
                }
            }
            assert forall|i: int|
                0 <= i < outcomes.len() && !(#[trigger] outcomes[i] is Skipped) implies counted(
                outcomes.take(i),
            ) < figures.len() && outcomes[i] == LineOutcome::Figures(
                figures[counted(outcomes.take(i)) as int],
            ) by {
                if i < last {
                    assert(rest[i] == outcomes[i]);
                    assert(rest.take(i) =~= outcomes.take(i));
                    assert(before[counted(rest.take(i)) as int] == figures[counted(
                        rest.take(i),
                    ) as int]);
                }
            }
        }
    }
}

// ---------------------------------------------------------------------------
// Outputs in parts
// ---------------------------------------------------------------------------

/// The header lines of two parts of an output are those of the one and those of
/// the other. A line is a header if and only if it begins as one.
pub proof fn law_headers_add_up(
    a: Seq<Seq<char>>,
    b: Seq<Seq<char>>,
    line: Seq<char>,
    header: Seq<char>,
)
    ensures
        header_count(Seq::empty(), header) == 0,
        header_count(seq![line], header) == if exists|rest: Seq<char>|
            line == #[trigger] (header + rest) {
            1nat
        } else {
            0
        },
        header_count(a + b, header) == header_count(a, header) + header_count(b, header),
    decreases b.len(),
{
    law_prefix(line, header);
    reveal_with_fuel(header_count, 2);
    assert(seq![line].drop_last() =~= Seq::empty());
    if b.len() == 0 {
        assert(a + b =~= a);
    } else {
        law_headers_add_up(a, b.drop_last(), line, header);
        assert((a + b).drop_last() =~= a + b.drop_last());
        assert((a + b).last() == b.last());
    }
}

/// The lines that count in two parts of an output are those of the one and
/// those of the other.
pub proof fn law_counted_adds_up(a: Seq<LineOutcome>, b: Seq<LineOutcome>, outcome: LineOutcome)
    ensures
        counted(Seq::empty()) == 0,
        counted(seq![outcome]) == match outcome {
            LineOutcome::Skipped => 0nat,
            _ => 1nat,
        },
        counted(a + b) == counted(a) + counted(b),
    decreases b.len(),
{
    reveal_with_fuel(counted, 2);
    assert(seq![outcome].drop_last() =~= Seq::empty());
    if b.len() == 0 {
        assert(a + b =~= a);
    } else {
        law_counted_adds_up(a, b.drop_last(), outcome);
        assert((a + b).drop_last() =~= a + b.drop_last());
        assert((a + b).last() == b.last());
    }
}

/// The figures of two parts of an output are those of the one and then those of
/// the other; there are none if one part cannot be read.
pub proof fn law_figures_add_up(a: Seq<LineOutcome>, b: Seq<LineOutcome>, outcome: LineOutcome)
    ensures
        all_figures(Seq::empty()) == Some(Seq::<ProcessCommandResult>::empty()),
        all_figures(seq![outcome]) == match outcome {
            LineOutcome::Skipped => Some(Seq::empty()),
            LineOutcome::Figures(r) => Some(seq![r]),
            LineOutcome::Malformed => None,
        },
        all_figures(a + b) == match (all_figures(a), all_figures(b)) {
            (Some(x), Some(y)) => Some(x + y),
            _ => None,
        },
    decreases b.len(),
{
    reveal_with_fuel(all_figures, 2);
    assert(seq![outcome].drop_last() =~= Seq::empty());
    if outcome is Figures {
        assert(Seq::empty().push(outcome->Figures_0) =~= seq![outcome->Figures_0]);
    }
    if b.len() == 0 {
        assert(a + b =~= a);
        if all_figures(a) is Some {
            assert(all_figures(a)->Some_0 + Seq::empty() =~= all_figures(a)->Some_0);
        }
    } else {
        law_figures_add_up(a, b.drop_last(), outcome);
        assert((a + b).drop_last() =~= a + b.drop_last());
        assert((a + b).last() == b.last());
        if all_figures(a) is Some && all_figures(b) is Some && b.last() is Figures {
            let x = all_figures(a)->Some_0;
            let y = all_figures(b.drop_last())->Some_0;
            assert((x + y).push(b.last()->Figures_0) =~= x + y.push(b.last()->Figures_0));
        }
    }
}

} // verus!
