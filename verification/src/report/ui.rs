//! The terminal report: a results table, a progress bar, a score and the list of primes.
//! Each function here gives the text; the program writes it out.

use vstd::prelude::*;
use vstd::string::{StrSliceExecFns, StringExecFns};

use crate::report::machine::{cores_text, describe_cores};
use crate::report::paint::{painted, Paint};
use crate::report::text::{
    decimal, decimal_string, group, grouped, pad_left, pad_right, padded_left, padded_right,
    push_char,
};

verus! {

/// Width of the first column, holding variant names in the table and progress bar.
pub const LABEL_WIDTH: usize = 21;

/// Width of the progress bar, in characters.
pub const BAR_WIDTH: usize = 30;

/// `text` indented by two spaces, as every line of the report is.
pub open spec fn indented(text: Seq<char>) -> Seq<char> {
    seq![' ', ' '] + text
}

/// `n` copies of `c`.
pub open spec fn repeated(c: char, n: nat) -> Seq<char> {
    Seq::new(n, |i: int| c)
}

/// What the report shows of a finished run of one variant.
pub struct RunOutcome {
    /// the variant's name
    pub label: String,
    /// sieve passes completed across all threads
    pub passes: usize,
    /// primes counted by one of the sieves
    pub count: usize,
    /// whether `count` matches the known result, if there is one for this limit
    pub valid: Option<bool>,
}

/// Where output goes and how it's styled, detected once at startup.
#[derive(Clone, Copy)]
pub struct Ui {
    /// styling for stdout, which gets the results
    out: Paint,
    /// styling for stderr, which gets the progress bar
    err: Paint,
    /// whether stderr can show a live progress bar
    live: bool,
}

/// The column headings of the results table.
pub open spec fn headings() -> Seq<char> {
    pad_right("VARIANT"@, 21) + pad_left("PASSES"@, 13) + pad_left("PASSES/S"@, 13) + pad_left(
        "PASS TIME"@,
        12,
    ) + pad_left("PRIMES"@, 11)
}

/// The mark beside a prime count: whether it matches the known result.
pub open spec fn check_mark(on: bool, valid: Option<bool>) -> Seq<char> {
    match valid {
        Some(true) => painted(on, seq!['3', '2'], seq!['✓']),
        Some(false) => painted(on, seq!['3', '1'], seq!['✗']),
        None => painted(on, seq!['3', '3'], seq!['?']),
    }
}

/// A row of the results table.
pub open spec fn row_text(
    on: bool,
    label: Seq<char>,
    passes: nat,
    rate: nat,
    pass_time: Seq<char>,
    count: nat,
    valid: Option<bool>,
) -> Seq<char> {
    indented(
        pad_right(label, 21) + pad_left(grouped(passes), 13) + painted(
            on,
            seq!['1'],
            pad_left(grouped(rate), 13),
        ) + pad_left(pass_time, 12) + pad_left(grouped(count), 11) + seq![' '] + check_mark(
            on,
            valid,
        ),
    )
}

/// Some run has a different variant from run `best`.
pub open spec fn mixed_variants(runs: Seq<RunOutcome>, best: int) -> bool {
    exists|i: int| 0 <= i < runs.len() && #[trigger] runs[i].label@ != runs[best].label@
}

/// Some run counted the wrong number of primes.
pub open spec fn some_wrong(runs: Seq<RunOutcome>) -> bool {
    exists|i: int| 0 <= i < runs.len() && #[trigger] runs[i].valid == Some(false)
}

/// Some run's count could not be checked.
pub open spec fn some_unchecked(runs: Seq<RunOutcome>) -> bool {
    exists|i: int| 0 <= i < runs.len() && #[trigger] runs[i].valid == None::<bool>
}

/// The detail beside the score: the rate per thread, after the best variant's name when
/// several variants ran.
pub open spec fn score_detail(runs: Seq<RunOutcome>, best: int, per_thread: nat) -> Seq<char> {
    if mixed_variants(runs, best) {
        runs[best].label@ + " · "@ + grouped(per_thread) + " per thread"@
    } else {
        grouped(per_thread) + " per thread"@
    }
}

/// The lines of the summary: the fastest run as a headline score, plus notes on any
/// unchecked or wrong counts, between empty lines.
pub open spec fn summary_lines(
    on: bool,
    runs: Seq<RunOutcome>,
    best: int,
    best_rate: nat,
    per_thread: nat,
) -> Seq<Seq<char>> {
    let score = indented(
        painted(on, seq!['1'], "Score"@) + seq![' ', ' '] + painted(
            on,
            seq!['3', '2'],
            painted(on, seq!['1'], grouped(best_rate) + " passes/s"@),
        ) + seq![' ', ' '] + painted(
            on,
            seq!['2'],
            seq!['('] + score_detail(runs, best, per_thread) + seq![')'],
        ),
    );
    let wrong = if some_wrong(runs) {
        seq![
            indented(
                painted(on, seq!['3', '1'], "✗ some runs counted the wrong number of primes"@),
            ),
        ]
    } else {
        Seq::empty()
    };
    let unchecked = if some_unchecked(runs) {
        seq![
            indented(
                painted(
                    on,
                    seq!['3', '3'],
                    "? prime counts are only checked when the limit is a power of 10"@,
                ),
            ),
        ]
    } else {
        Seq::empty()
    };
    seq![Seq::empty(), score] + wrong + unchecked + seq![Seq::empty()]
}

/// The progress bar of a variant, `filled` of its cells done, with the time run so far
/// (`elapsed`, already written out) and the whole run's seconds.
pub open spec fn progress_text(
    on: bool,
    label: Seq<char>,
    filled: nat,
    elapsed: Seq<char>,
    total_secs: nat,
) -> Seq<char> {
    seq!['\r', ' ', ' '] + pad_right(label, 21) + painted(on, seq!['3', '6'], repeated('━', filled))
        + painted(on, seq!['2'], repeated('─', (30 - filled) as nat)) + seq![' ', ' '] + painted(
        on,
        seq!['2'],
        elapsed + " / "@ + decimal(total_secs) + " s"@,
    )
}

/// The primes as right-aligned columns of `width` characters each, one after another.
pub open spec fn columns(primes: Seq<usize>, width: nat) -> Seq<char>
    decreases primes.len(),
{
    if primes.len() == 0 {
        Seq::empty()
    } else {
        columns(primes.drop_last(), width) + pad_left(decimal(primes.last() as nat), width)
    }
}

/// The primes in lines of `per_line` columns of `width` characters.
pub open spec fn prime_rows(primes: Seq<usize>, per_line: nat, width: nat) -> Seq<char>
    decreases primes.len(),
{
    if primes.len() == 0 || per_line == 0 {
        Seq::empty()
    } else if primes.len() <= per_line {
        columns(primes, width).push('\n')
    } else {
        columns(primes.take(per_line as int), width).push('\n') + prime_rows(
            primes.skip(per_line as int),
            per_line,
            width,
        )
    }
}

/// The width of a column: the digits of the last prime, and two spaces between columns,
/// which also indent the first one.
pub open spec fn column_width(primes: Seq<usize>) -> nat {
    (if primes.len() == 0 {
        1
    } else {
        decimal(primes.last() as nat).len()
    }) + 2
}

/// As many columns as fit in 78 characters, but at least one and at most ten.
pub open spec fn columns_per_line(width: nat) -> nat {
    let fit = 78nat / width;
    if fit < 1 {
        1
    } else if fit > 10 {
        10
    } else {
        fit
    }
}

/// Every prime found, under a title, in right-aligned columns, and an empty line after.
pub open spec fn primes_listing(on: bool, limit: nat, primes: Seq<usize>) -> Seq<char> {
    let title = grouped(primes.len()) + " primes up to "@ + grouped(limit);
    let width = column_width(primes);
    indented(painted(on, seq!['1'], title)) + seq!['\n'] + prime_rows(
        primes,
        columns_per_line(width),
        width,
    ) + seq!['\n']
}

/// What the header says of the machine.
pub struct Machine {
    /// the CPU's model name, or the architecture when it isn't known
    pub cpu: String,
    /// CPU threads this program can use
    pub logical: usize,
    /// physical cores
    pub physical: usize,
    /// performance and efficiency cores, where the system reports them
    pub core_types: Option<(usize, usize)>,
}

/// A line of the header: a dimmed name in a column of 8, then its value.
pub open spec fn field_text(on: bool, name: Seq<char>, value: Seq<char>) -> Seq<char> {
    indented(painted(on, seq!['2'], pad_right(name, 8)) + seq![' ', ' '] + value)
}

/// The thread count, and with an automatic one what it follows: one per CPU thread when
/// cores run several, else one per core.
pub open spec fn threads_text(on: bool, threads: nat, auto_threads: bool, logical: nat, physical: nat) -> Seq<
    char,
> {
    if auto_threads {
        decimal(threads) + painted(
            on,
            seq!['2'],
            ", one per "@ + if logical > physical {
                "CPU thread"@
            } else {
                "core"@
            },
        )
    } else {
        decimal(threads)
    }
}

/// The header: a title, followed by the machine and the benchmark settings, between
/// empty lines. The number of runs only shows when there are several, and a debug
/// build gets a warning.
pub open spec fn header_lines(
    on: bool,
    machine: Machine,
    threads: nat,
    auto_threads: bool,
    limit: nat,
    run_secs: nat,
    repetitions: nat,
    debug_build: bool,
) -> Seq<Seq<char>> {
    let title = indented(painted(on, seq!['1'], "Eratos"@) + seq![' ', ' '] + painted(
        on,
        seq!['2'],
        "prime sieve benchmark"@,
    ));
    let fields = seq![
        field_text(on, "CPU"@, machine.cpu@),
        field_text(
            on,
            "Cores"@,
            cores_text(machine.logical as nat, machine.physical as nat, machine.core_types),
        ),
        field_text(
            on,
            "Threads"@,
            threads_text(
                on,
                threads,
                auto_threads,
                machine.logical as nat,
                machine.physical as nat,
            ),
        ),
        field_text(on, "Sieve"@, "primes up to "@ + grouped(limit)),
        field_text(on, "Duration"@, decimal(run_secs) + " s per run"@),
    ];
    let runs = if repetitions > 1 {
        seq![field_text(on, "Runs"@, decimal(repetitions) + " per variant"@)]
    } else {
        Seq::empty()
    };
    let build = if debug_build {
        seq![
            field_text(
                on,
                "Build"@,
                painted(on, seq!['3', '3'], "debug, so expect far lower numbers than with --release"@),
            ),
        ]
    } else {
        Seq::empty()
    };
    seq![Seq::empty(), title, Seq::empty()] + fields + runs + build + seq![Seq::empty()]
}

/// The header's Threads line gives the thread count and, when the count was chosen
/// automatically, what it follows: one per CPU thread when the cores run more than one
/// thread each, one per core otherwise. A count given on the command line stands alone.
pub proof fn lemma_threads_line(
    on: bool,
    machine: Machine,
    threads: nat,
    auto_threads: bool,
    limit: nat,
    run_secs: nat,
    repetitions: nat,
    debug_build: bool,
)
    ensures
        ({
            let lines = header_lines(
                on,
                machine,
                threads,
                auto_threads,
                limit,
                run_secs,
                repetitions,
                debug_build,
            );
            let line = |value: Seq<char>| field_text(on, "Threads"@, decimal(threads) + value);
            &&& lines.len() > 5
            &&& auto_threads && machine.logical > machine.physical ==> lines[5] == line(
                painted(on, seq!['2'], ", one per "@ + "CPU thread"@),
            )
            &&& auto_threads && machine.logical <= machine.physical ==> lines[5] == line(
                painted(on, seq!['2'], ", one per "@ + "core"@),
            )
            &&& !auto_threads ==> lines[5] == field_text(on, "Threads"@, decimal(threads))
        }),
{
    let lines = header_lines(
        on,
        machine,
        threads,
        auto_threads,
        limit,
        run_secs,
        repetitions,
        debug_build,
    );
    assert(lines[5] == field_text(
        on,
        "Threads"@,
        threads_text(on, threads, auto_threads, machine.logical as nat, machine.physical as nat),
    ));
}

/// The header lists the CPU, the cores, the threads, the sieve's limit and the duration of
/// a run, in that order, after the title; then the runs per variant only when there are
/// several, and a warning only for a debug build.
pub proof fn lemma_header_fields(
    on: bool,
    machine: Machine,
    threads: nat,
    auto_threads: bool,
    limit: nat,
    run_secs: nat,
    repetitions: nat,
    debug_build: bool,
)
    ensures
        ({
            let lines = header_lines(
                on,
                machine,
                threads,
                auto_threads,
                limit,
                run_secs,
                repetitions,
                debug_build,
            );
            let runs_line = field_text(on, "Runs"@, decimal(repetitions) + " per variant"@);
            let build_line = field_text(
                on,
                "Build"@,
                painted(on, seq!['3', '3'], "debug, so expect far lower numbers than with --release"@),
            );
            &&& lines.len() == 9 + (if repetitions > 1 { 1int } else { 0 }) + (if debug_build {
                1int
            } else {
                0
            })
            &&& lines[0].len() == 0 && lines[2].len() == 0 && lines.last().len() == 0
            &&& lines[3] == field_text(on, "CPU"@, machine.cpu@)
            &&& lines[4] == field_text(
                on,
                "Cores"@,
                cores_text(machine.logical as nat, machine.physical as nat, machine.core_types),
            )
            &&& lines[6] == field_text(on, "Sieve"@, "primes up to "@ + grouped(limit))
            &&& lines[7] == field_text(on, "Duration"@, decimal(run_secs) + " s per run"@)
            &&& repetitions > 1 ==> lines[8] == runs_line
            &&& debug_build ==> lines[lines.len() - 2] == build_line
        }),
{
}

/// The score line of the summary names the best run's variant, before its rate per
/// thread, exactly when some run, before or after the best one, ran another variant.
pub proof fn lemma_score_line(
    on: bool,
    runs: Seq<RunOutcome>,
    best: int,
    best_rate: nat,
    per_thread: nat,
)
    requires
        0 <= best < runs.len(),
    ensures
        ({
            let lines = summary_lines(on, runs, best, best_rate, per_thread);
            let score = |detail: Seq<char>|
                indented(
                    painted(on, seq!['1'], "Score"@) + seq![' ', ' '] + painted(
                        on,
                        seq!['3', '2'],
                        painted(on, seq!['1'], grouped(best_rate) + " passes/s"@),
                    ) + seq![' ', ' '] + painted(on, seq!['2'], seq!['('] + detail + seq![')']),
                );
            let per = grouped(per_thread) + " per thread"@;
            &&& lines.len() > 1
            &&& (exists|i: int| 0 <= i < runs.len() && #[trigger] runs[i].label@
                != runs[best].label@) ==> lines[1] == score(runs[best].label@ + " · "@ + per)
            &&& (forall|i: int| 0 <= i < runs.len() ==> #[trigger] runs[i].label@
                == runs[best].label@) ==> lines[1] == score(per)
        }),
{
}

/// The summary is the score line between empty lines, with a note after it when some run
/// counted the wrong number of primes, and then one when some count could not be checked.
pub proof fn lemma_summary_notes(
    on: bool,
    runs: Seq<RunOutcome>,
    best: int,
    best_rate: nat,
    per_thread: nat,
)
    ensures
        ({
            let lines = summary_lines(on, runs, best, best_rate, per_thread);
            let wrong = exists|i: int| 0 <= i < runs.len() && #[trigger] runs[i].valid == Some(false);
            let unchecked = exists|i: int|
                0 <= i < runs.len() && #[trigger] runs[i].valid == None::<bool>;
            let wrong_note = indented(
                painted(on, seq!['3', '1'], "✗ some runs counted the wrong number of primes"@),
            );
            let unchecked_note = indented(
                painted(
                    on,
                    seq!['3', '3'],
                    "? prime counts are only checked when the limit is a power of 10"@,
                ),
            );
            &&& lines.len() == 3 + (if wrong { 1int } else { 0 }) + (if unchecked { 1int } else { 0 })
            &&& lines[0].len() == 0
            &&& lines.last().len() == 0
            &&& wrong ==> lines[2] == wrong_note
            &&& unchecked ==> lines[lines.len() - 2] == unchecked_note
        }),
{
}

impl Ui {
    /// Whether stdout gets colours and bold text.
    pub closed spec fn styles_out(self) -> bool {
        self.out.styled()
    }

    /// Whether stderr gets colours and bold text.
    pub closed spec fn styles_err(self) -> bool {
        self.err.styled()
    }

    /// Whether stderr can show a live progress bar.
    pub closed spec fn live(self) -> bool {
        self.live
    }

    /// The report's styling from what is known of the streams and the environment: colours
    /// on each stream that is a terminal, unless `NO_COLOR` asks for none, the old Windows
    /// console would print the codes as text, or the terminal is dumb; and a live progress
    /// bar when stderr is a terminal that isn't dumb.
    pub fn detect(
        stdout_is_terminal: bool,
        stderr_is_terminal: bool,
        no_color: bool,
        legacy_console: bool,
        dumb_terminal: bool,
    ) -> (ui: Ui)
        ensures
            ui.styles_out() == (stdout_is_terminal && !no_color && !legacy_console
                && !dumb_terminal),
            ui.styles_err() == (stderr_is_terminal && !no_color && !legacy_console
                && !dumb_terminal),
            ui.live() == (stderr_is_terminal && !dumb_terminal),
    {
        Ui {
            out: Paint::for_stream(stdout_is_terminal, no_color, legacy_console, dumb_terminal),
            err: Paint::for_stream(stderr_is_terminal, no_color, legacy_console, dumb_terminal),
            live: stderr_is_terminal && !dumb_terminal,
        }
    }

    /// Whether stderr can show a live progress bar.
    pub fn is_live(&self) -> (live: bool)
        ensures
            live == self.live(),
    {
        self.live
    }

    /// Column headings for the results table.
    pub fn table_header(&self) -> (line: String)
        ensures
            line@ == indented(painted(self.styles_out(), seq!['2'], headings())),
    {
        proof {
            reveal_strlit("VARIANT");
            reveal_strlit("PASSES");
            reveal_strlit("PASSES/S");
            reveal_strlit("PASS TIME");
            reveal_strlit("PRIMES");
            reveal_strlit("  ");
        }
        let mut titles = padded_right("VARIANT", LABEL_WIDTH);
        titles.append(padded_left("PASSES", 13).as_str());
        titles.append(padded_left("PASSES/S", 13).as_str());
        titles.append(padded_left("PASS TIME", 12).as_str());
        titles.append(padded_left("PRIMES", 11).as_str());
        let mut line = String::from_str("  ");
        line.append(self.out.dim(titles.as_str()).as_str());
        assert(line@ =~= indented(painted(self.styles_out(), seq!['2'], headings())));
        line
    }

    /// A finished run, as a row of the results table. `rate` is its passes per second,
    /// rounded, and `pass_time` the time one thread took per pass, written out.
    pub fn row(&self, run: &RunOutcome, rate: usize, pass_time: &str) -> (line: String)
        ensures
            line@ == row_text(
                self.styles_out(),
                run.label@,
                run.passes as nat,
                rate as nat,
                pass_time@,
                run.count as nat,
                run.valid,
            ),
    {
        proof {
            reveal_strlit("✓");
            reveal_strlit("✗");
            reveal_strlit("?");
            reveal_strlit("  ");
            reveal_strlit(" ");
        }
        let p = self.out;
        let check = match run.valid {
            Some(true) => p.green("✓"),
            Some(false) => p.red("✗"),
            None => p.yellow("?"),
        };
        let mut line = String::from_str("  ");
        line.append(padded_right(run.label.as_str(), LABEL_WIDTH).as_str());
        line.append(padded_left(group(run.passes).as_str(), 13).as_str());
        line.append(p.bold(padded_left(group(rate).as_str(), 13).as_str()).as_str());
        line.append(padded_left(pass_time, 12).as_str());
        line.append(padded_left(group(run.count).as_str(), 11).as_str());
        line.append(" ");
        line.append(check.as_str());
        assert(line@ =~= row_text(
            self.styles_out(),
            run.label@,
            run.passes as nat,
            rate as nat,
            pass_time@,
            run.count as nat,
            run.valid,
        ));
        line
    }

    /// The progress bar of a variant, as a line that starts by returning the cursor to
    /// the start of the line. `filled` of its cells are done; `elapsed` is the time run so far,
    /// written out, and `total_secs` the seconds the run takes.
    pub fn progress(&self, label: &str, filled: usize, elapsed: &str, total_secs: usize) -> (line:
        String)
        requires
            filled <= BAR_WIDTH,
        ensures
            line@ == progress_text(self.styles_err(), label@, filled as nat, elapsed@, total_secs as nat),
    {
        proof {
            reveal_strlit("\r  ");
            reveal_strlit("  ");
            reveal_strlit(" / ");
            reveal_strlit(" s");
        }
        let p = self.err;
        let mut done = String::new();
        let mut i: usize = 0;
        while i < filled
            invariant
                i <= filled,
                done@ == repeated('━', i as nat),
            decreases filled - i,
        {
            push_char(&mut done, '━');
            i = i + 1;
            assert(done@ =~= repeated('━', i as nat));
        }
        let mut left = String::new();
        let mut j: usize = filled;
        while j < BAR_WIDTH
            invariant
                filled <= j <= BAR_WIDTH,
                left@ == repeated('─', (j - filled) as nat),
            decreases BAR_WIDTH - j,
        {
            push_char(&mut left, '─');
            j = j + 1;
            assert(left@ =~= repeated('─', (j - filled) as nat));
        }
        let mut time = String::from_str(elapsed);
        time.append(" / ");
        time.append(decimal_string(total_secs).as_str());
        time.append(" s");
        let mut line = String::from_str("\r  ");
        line.append(padded_right(label, LABEL_WIDTH).as_str());
        line.append(p.cyan(done.as_str()).as_str());
        line.append(p.dim(left.as_str()).as_str());
        line.append("  ");
        line.append(p.dim(time.as_str()).as_str());
        assert(line@ =~= progress_text(
            self.styles_err(),
            label@,
            filled as nat,
            elapsed@,
            total_secs as nat,
        ));
        line
    }

    /// The lines of the summary, with `runs[best]` the fastest run.
    fn score_lines(&self, runs: &[RunOutcome], best: usize, best_rate: usize, per_thread: usize) -> (lines:
        Vec<String>)
        requires
            best < runs@.len(),
        ensures
            lines@.map_values(|line: String| line@) == summary_lines(
                self.styles_out(),
                runs@,
                best as int,
                best_rate as nat,
                per_thread as nat,
            ),
    {
        proof {
            reveal_strlit(" per thread");
            reveal_strlit(" · ");
            reveal_strlit("Score");
            reveal_strlit(" passes/s");
            reveal_strlit("  ");
            reveal_strlit("(");
            reveal_strlit(")");
            reveal_strlit("✗ some runs counted the wrong number of primes");
            reveal_strlit("? prime counts are only checked when the limit is a power of 10");
        }
        let p = self.out;
        let mut mixed = false;
        let mut wrong = false;
        let mut unchecked = false;
        let mut i: usize = 0;
        while i < runs.len()
            invariant
                best < runs@.len(),
                i <= runs@.len(),
                mixed == exists|j: int| 0 <= j < i && #[trigger] runs@[j].label@ != runs@[best as int].label@,
                wrong == exists|j: int| 0 <= j < i && #[trigger] runs@[j].valid == Some(false),
                unchecked == exists|j: int| 0 <= j < i && #[trigger] runs@[j].valid == None::<bool>,
            decreases runs@.len() - i,
        {
            if !(runs[i].label == runs[best].label) {
                mixed = true;
            }
            match runs[i].valid {
                Some(false) => {
                    wrong = true;
                },
                None => {
                    unchecked = true;
                },
                Some(true) => {},
            }
            i = i + 1;
        }
        let mut detail = group(per_thread);
        detail.append(" per thread");
        if mixed {
            let mut named = String::from_str(runs[best].label.as_str());
            named.append(" · ");
            named.append(detail.as_str());
            detail = named;
        }
        let mut rate = group(best_rate);
        rate.append(" passes/s");
        let mut bracketed = String::from_str("(");
        bracketed.append(detail.as_str());
        bracketed.append(")");
        let mut score = String::from_str("  ");
        score.append(p.bold("Score").as_str());
        score.append("  ");
        score.append(p.green(p.bold(rate.as_str()).as_str()).as_str());
        score.append("  ");
        score.append(p.dim(bracketed.as_str()).as_str());
        let ghost on = self.styles_out();
        assert(score@ == indented(
            painted(on, seq!['1'], "Score"@) + seq![' ', ' '] + painted(
                on,
                seq!['3', '2'],
                painted(on, seq!['1'], grouped(best_rate as nat) + " passes/s"@),
            ) + seq![' ', ' '] + painted(
                on,
                seq!['2'],
                seq!['('] + score_detail(runs@, best as int, per_thread as nat) + seq![')'],
            ),
        ));
        let ghost wrong_lines = if wrong {
            seq![
                indented(
                    painted(on, seq!['3', '1'], "✗ some runs counted the wrong number of primes"@),
                ),
            ]
        } else {
            Seq::<Seq<char>>::empty()
        };
        let ghost unchecked_lines = if unchecked {
            seq![
                indented(
                    painted(
                        on,
                        seq!['3', '3'],
                        "? prime counts are only checked when the limit is a power of 10"@,
                    ),
                ),
            ]
        } else {
            Seq::<Seq<char>>::empty()
        };
        let mut lines: Vec<String> = Vec::new();
        lines.push(String::new());
        lines.push(score);
        assert(lines@.map_values(|line: String| line@) =~= seq![Seq::<char>::empty(), score@]);
        if wrong {
            let mut note = String::from_str("  ");
            note.append(p.red("✗ some runs counted the wrong number of primes").as_str());
            assert(note@ =~= wrong_lines[0]);
            let ghost before = lines@;
            lines.push(note);
            assert(lines@.map_values(|line: String| line@) =~= before.map_values(
                |line: String| line@,
            ).push(note@));
        }
        assert(lines@.map_values(|line: String| line@) =~= seq![Seq::<char>::empty(), score@]
            + wrong_lines);
        if unchecked {
            let mut note = String::from_str("  ");
            note.append(
                p.yellow("? prime counts are only checked when the limit is a power of 10").as_str(),
            );
            assert(note@ =~= unchecked_lines[0]);
            let ghost before = lines@;
            lines.push(note);
            assert(lines@.map_values(|line: String| line@) =~= before.map_values(
                |line: String| line@,
            ).push(note@));
        }
        assert(lines@.map_values(|line: String| line@) =~= seq![Seq::<char>::empty(), score@]
            + wrong_lines + unchecked_lines);
        lines.push(String::new());
        assert(lines@.map_values(|line: String| line@) =~= summary_lines(
            self.styles_out(),
            runs@,
            best as int,
            best_rate as nat,
            per_thread as nat,
        ));
        lines
    }

    /// Every prime found, in right-aligned columns.
    pub fn write_primes(&self, limit: usize, primes: &[usize]) -> (text: String)
        ensures
            text@ == primes_listing(self.styles_out(), limit as nat, primes@),
    {
        proof {
            reveal_strlit(" primes up to ");
            reveal_strlit("  ");
        }
        let len = primes.len();
        let mut title = group(len);
        title.append(" primes up to ");
        title.append(group(limit).as_str());
        let mut text = String::from_str("  ");
        text.append(self.out.bold(title.as_str()).as_str());
        push_char(&mut text, '\n');
        let ghost head = text@;
        // two spaces between columns, which also indent the first one
        let digits = if len == 0 {
            1
        } else {
            proof {
                crate::report::text::lemma_usize_decimal_len(primes@[len - 1]);
            }
            decimal_string(primes[len - 1]).as_str().unicode_len()
        };
        let width = digits + 2;
        let fit = 78 / width;
        let per_line = if fit < 1 {
            1
        } else if fit > 10 {
            10
        } else {
            fit
        };
        assert(width == column_width(primes@));
        assert(per_line == columns_per_line(width as nat));
        let mut start: usize = 0;
        assert(primes@.skip(0) =~= primes@);
        while start < len
            invariant
                len == primes@.len(),
                start <= len,
                1 <= per_line <= 10,
                width <= 22,
                head + prime_rows(primes@, per_line as nat, width as nat) == text@ + prime_rows(
                    primes@.skip(start as int),
                    per_line as nat,
                    width as nat,
                ),
            decreases len - start,
        {
            let end = if len - start <= per_line {
                len
            } else {
                start + per_line
            };
            let ghost before = text@;
            let mut k = start;
            while k < end
                invariant
                    start <= k <= end <= len == primes@.len(),
                    width <= 22,
                    text@ == before + columns(primes@.subrange(start as int, k as int), width as nat),
                decreases end - k,
            {
                let number = decimal_string(primes[k]);
                text.append(padded_left(number.as_str(), width).as_str());
                assert(primes@.subrange(start as int, k + 1).drop_last() =~= primes@.subrange(
                    start as int,
                    k as int,
                ));
                k = k + 1;
            }
            push_char(&mut text, '\n');
            proof {
                let rest = primes@.skip(start as int);
                if len - start <= per_line {
                    assert(rest =~= primes@.subrange(start as int, end as int));
                    assert(primes@.skip(end as int) =~= Seq::<usize>::empty());
                } else {
                    assert(rest.take(per_line as int) =~= primes@.subrange(start as int, end as int));
                    assert(rest.skip(per_line as int) =~= primes@.skip(end as int));
                }
            }
            start = end;
        }
        assert(primes@.skip(len as int) =~= Seq::<usize>::empty());
        push_char(&mut text, '\n');
        assert(text@ =~= primes_listing(self.styles_out(), limit as nat, primes@));
        text
    }

    /// A line of the header: a dimmed name in a column of 8, then its value.
    fn field(&self, name: &str, value: &str) -> (line: String)
        ensures
            line@ == field_text(self.styles_out(), name@, value@),
    {
        proof {
            reveal_strlit("  ");
        }
        let mut line = String::from_str("  ");
        line.append(self.out.dim(padded_right(name, 8).as_str()).as_str());
        line.append("  ");
        line.append(value);
        assert(line@ =~= field_text(self.styles_out(), name@, value@));
        line
    }

    /// Title, followed by the machine and the benchmark settings: the lines to print.
    pub fn header(
        &self,
        machine: &Machine,
        threads: usize,
        auto_threads: bool,
        limit: usize,
        run_secs: usize,
        repetitions: usize,
        debug_build: bool,
    ) -> (lines: Vec<String>)
        ensures
            lines@.map_values(|line: String| line@) == header_lines(
                self.styles_out(),
                *machine,
                threads as nat,
                auto_threads,
                limit as nat,
                run_secs as nat,
                repetitions as nat,
                debug_build,
            ),
    {
        proof {
            reveal_strlit("Eratos");
            reveal_strlit("  ");
            reveal_strlit("prime sieve benchmark");
            reveal_strlit(", one per ");
            reveal_strlit("CPU thread");
            reveal_strlit("core");
            reveal_strlit("primes up to ");
            reveal_strlit(" s per run");
            reveal_strlit(" per variant");
        }
        let p = self.out;
        let ghost on = self.styles_out();
        let mut title = String::from_str("  ");
        title.append(p.bold("Eratos").as_str());
        title.append("  ");
        title.append(p.dim("prime sieve benchmark").as_str());
        let cores = describe_cores(machine.logical, machine.physical, machine.core_types);
        let mut thread_count = decimal_string(threads);
        if auto_threads {
            let mut per = String::from_str(", one per ");
            if machine.logical > machine.physical {
                per.append("CPU thread");
            } else {
                per.append("core");
            }
            thread_count.append(p.dim(per.as_str()).as_str());
        }
        assert(thread_count@ =~= threads_text(
            on,
            threads as nat,
            auto_threads,
            machine.logical as nat,
            machine.physical as nat,
        ));
        let mut sieve = String::from_str("primes up to ");
        sieve.append(group(limit).as_str());
        let mut duration = decimal_string(run_secs);
        duration.append(" s per run");
        assert(title@ =~= indented(painted(on, seq!['1'], "Eratos"@) + seq![' ', ' '] + painted(
            on,
            seq!['2'],
            "prime sieve benchmark"@,
        )));
        let cpu_line = self.field("CPU", machine.cpu.as_str());
        let cores_line = self.field("Cores", cores.as_str());
        let threads_line = self.field("Threads", thread_count.as_str());
        let sieve_line = self.field("Sieve", sieve.as_str());
        let duration_line = self.field("Duration", duration.as_str());
        let ghost title_text = title@;
        let ghost field_texts = seq![
            cpu_line@,
            cores_line@,
            threads_line@,
            sieve_line@,
            duration_line@,
        ];
        let mut lines: Vec<String> = Vec::new();
        lines.push(String::new());
        lines.push(title);
        lines.push(String::new());
        lines.push(cpu_line);
        lines.push(cores_line);
        lines.push(threads_line);
        lines.push(sieve_line);
        lines.push(duration_line);
        assert(lines@.map_values(|line: String| line@) =~= seq![
            Seq::<char>::empty(),
            title_text,
            Seq::<char>::empty(),
        ] + field_texts);
        let ghost fixed = lines@.map_values(|line: String| line@);
        let ghost runs_lines = if repetitions > 1 {
            seq![field_text(on, "Runs"@, decimal(repetitions as nat) + " per variant"@)]
        } else {
            Seq::<Seq<char>>::empty()
        };
        let ghost build_lines = if debug_build {
            seq![
                field_text(
                    on,
                    "Build"@,
                    painted(
                        on,
                        seq!['3', '3'],
                        "debug, so expect far lower numbers than with --release"@,
                    ),
                ),
            ]
        } else {
            Seq::<Seq<char>>::empty()
        };
        if repetitions > 1 {
            let mut runs = decimal_string(repetitions);
            runs.append(" per variant");
            let line = self.field("Runs", runs.as_str());
            assert(line@ =~= runs_lines[0]);
            lines.push(line);
            assert(lines@.map_values(|line: String| line@) =~= fixed.push(runs_lines[0]));
        }
        let ghost with_runs = lines@.map_values(|line: String| line@);
        assert(with_runs =~= fixed + runs_lines);
        if debug_build {
            let warning = p.yellow("debug, so expect far lower numbers than with --release");
            let line = self.field("Build", warning.as_str());
            assert(line@ =~= build_lines[0]);
            lines.push(line);
            assert(lines@.map_values(|line: String| line@) =~= with_runs.push(build_lines[0]));
        }
        let ghost with_build = lines@.map_values(|line: String| line@);
        assert(with_build =~= fixed + runs_lines + build_lines);
        lines.push(String::new());
        proof {
            let expected = header_lines(
                on,
                *machine,
                threads as nat,
                auto_threads,
                limit as nat,
                run_secs as nat,
                repetitions as nat,
                debug_build,
            );
            assert(lines@.map_values(|line: String| line@) =~= with_build.push(Seq::empty()));
            assert(lines@.map_values(|line: String| line@) =~= expected);
        }
        lines
    }
    /// The fastest run, `runs[b]` for `best == Some(b)`, as a headline score, plus notes on
    /// any unchecked or wrong counts: the lines to print, between empty ones. `best_rate` is
    /// that run's passes per second and `per_thread` the same per thread, both rounded.
    /// With no runs there is no best one (`None`), and nothing to print.
    pub fn summary(
        &self,
        runs: &[RunOutcome],
        best: Option<usize>,
        best_rate: usize,
        per_thread: usize,
    ) -> (lines: Vec<String>)
        requires
            best matches Some(b) ==> b < runs@.len(),
        ensures
            lines@.map_values(|line: String| line@) == match best {
                Some(b) => summary_lines(
                    self.styles_out(),
                    runs@,
                    b as int,
                    best_rate as nat,
                    per_thread as nat,
                ),
                None => Seq::empty(),
            },
    {
        match best {
            Some(b) => self.score_lines(runs, b, best_rate, per_thread),
            None => {
                let lines: Vec<String> = Vec::new();
                assert(lines@.map_values(|line: String| line@) =~= Seq::<Seq<char>>::empty());
                lines
            },
        }
    }
}

} // verus!

verus! {

/// Line `j` of a listing with `per_line` primes to a line: primes `j * per_line` up to
/// `j * per_line + per_line`, fewer on the last line, each right-aligned in `width`
/// characters, then a line feed.
pub open spec fn listing_line(primes: Seq<usize>, per_line: nat, width: nat, j: int) -> Seq<char> {
    let start = j * per_line;
    let end = if start + per_line <= primes.len() {
        start + per_line
    } else {
        primes.len() as int
    };
    columns(primes.subrange(start, end), width).push('\n')
}

/// How many lines `len` primes take at `per_line` to a line.
pub open spec fn line_count(len: nat, per_line: nat) -> nat {
    ((len + per_line - 1) / (per_line as int)) as nat
}

/// The rows of a listing are its lines one after another: as many as `len / per_line`
/// rounded up, line `j` holding primes `j * per_line` up to `j * per_line + per_line`.
pub proof fn lemma_rows_are_lines(primes: Seq<usize>, per_line: nat, width: nat)
    requires
        per_line >= 1,
    ensures
        prime_rows(primes, per_line, width) == Seq::new(
            line_count(primes.len(), per_line),
            |j: int| listing_line(primes, per_line, width, j),
        ).flatten(),
    decreases primes.len(),
{
    let k = per_line as int;
    let len = primes.len() as int;
    let lines = Seq::new(line_count(primes.len(), per_line), |j: int| listing_line(primes, per_line, width, j));
    if len == 0 {
        assert(line_count(0, per_line) == 0) by {
            vstd::arithmetic::div_mod::lemma_basic_div((k - 1) as int, k);
        }
        assert(lines =~= Seq::<Seq<char>>::empty());
    } else if len <= k {
        assert(line_count(primes.len(), per_line) == 1) by {
            vstd::arithmetic::div_mod::lemma_fundamental_div_mod_converse(len + k - 1, k, 1, len - 1);
        }
        assert(primes.subrange(0, len) =~= primes);
        assert(0 * k == 0);
        assert(lines.drop_first() =~= Seq::<Seq<char>>::empty());
        assert(lines[0] + lines.drop_first().flatten() =~= lines[0]);
    } else {
        let rest = primes.skip(k);
        lemma_rows_are_lines(rest, per_line, width);
        let count = line_count(rest.len(), per_line);
        assert(line_count(primes.len(), per_line) == count + 1) by {
            let q = (len - k + k - 1) / k;
            let r = (len - k + k - 1) % k;
            vstd::arithmetic::div_mod::lemma_fundamental_div_mod(len - k + k - 1, k);
            assert(len + k - 1 == (q + 1) * k + r) by (nonlinear_arith)
                requires
                    len - k + k - 1 == k * q + r,
            ;
            vstd::arithmetic::div_mod::lemma_fundamental_div_mod_converse(len + k - 1, k, q + 1, r);
        }
        let rest_lines = Seq::new(count, |j: int| listing_line(rest, per_line, width, j));
        assert forall|j: int| 0 <= j < count implies #[trigger] lines.drop_first()[j] == rest_lines[j] by {
            assert((j + 1) * k == j * k + k) by (nonlinear_arith);
            assert(j * k >= 0) by (nonlinear_arith)
                requires
                    j >= 0,
                    k >= 1,
            ;
            assert(j < count);
            let start = j * k;
            let end = if start + k <= rest.len() {
                start + k
            } else {
                rest.len() as int
            };
            assert(start <= rest.len()) by (nonlinear_arith)
                requires
                    j < count,
                    count == (rest.len() + k - 1) / k,
                    k >= 1,
                    start == j * k,
                    j >= 0,
            ;
            assert(rest.subrange(start, end) =~= primes.subrange(start + k, end + k));
        }
        assert(lines.drop_first() =~= rest_lines);
        assert(0 * k == 0);
        assert(lines[0] == columns(primes.take(k), width).push('\n')) by {
            assert(primes.subrange(0, k) =~= primes.take(k));
        }
    }
}

} // verus!
