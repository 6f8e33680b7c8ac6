//! The simulator's command line: what it is asked to do, and what it says.
//!
//! A bug report is one integer. When a batch fails, the seed it failed on is printed, and that
//! seed replays the run identically.
use crate::fault::{fault_name, menu, menu_is_complete, menu_place, names_are_distinct, Fault};
use crate::invariants::{violation_line, violation_views, Violation, ViolationView};
use crate::text::{
    a_written_number_reads_back, chars_of, decimal, hexadecimal, number_within, parse_number,
    push_decimal, push_hex, push_signed_padded, signed_padded, string_of_range, zero_padded,
};
use crate::trace::{joined, Trace};
use vstd::prelude::*;
use vstd::string::*;

verus! {

/// How many steps of simulated time one run covers: a fortnight of device life.
pub const STEPS_PER_RUN: u32 = 20_160;

/// How many seeds a batch runs when nothing else is asked for.
pub const DEFAULT_SEEDS: u64 = 1_000;

/// How many violations a report prints.
pub const REPORTED: usize = 20;

/// The first place of `flag` among some arguments: their number if it is not there.
pub open spec fn first_place(args: Seq<Seq<char>>, flag: Seq<char>) -> int
    decreases args.len(),
{
    if args.len() == 0 || args[0] == flag {
        0
    } else {
        1 + first_place(args.drop_first(), flag)
    }
}

/// The arguments, as sequences of characters.
pub open spec fn texts(args: Seq<String>) -> Seq<Seq<char>> {
    args.map_values(|a: String| a@)
}

proof fn first_place_is(args: Seq<Seq<char>>, flag: Seq<char>, n: int)
    requires
        0 <= n <= args.len(),
        n < args.len() ==> args[n] == flag,
        forall|i: int| 0 <= i < n ==> #[trigger] args[i] != flag,
    ensures
        first_place(args, flag) == n,
    decreases args.len(),
{
    if n > 0 {
        assert(args[0] != flag);
        let rest = args.drop_first();
        assert forall|i: int| 0 <= i < n - 1 implies #[trigger] rest[i] != flag by {
            assert(args[i + 1] != flag);
        }
        first_place_is(rest, flag, n - 1);
    }
}

fn place_of(args: &Vec<String>, flag: &str) -> (n: usize)
    ensures
        n == first_place(texts(args@), flag@),
        n <= args@.len(),
{
    let ghost all = texts(args@);
    let wanted: String = flag.to_owned();
    let mut i: usize = 0;
    while i < args.len()
        invariant
            i <= args@.len(),
            wanted@ == flag@,
            all == texts(args@),
            forall|j: int| 0 <= j < i ==> #[trigger] all[j] != flag@,
        decreases args@.len() - i,
    {
        assert(all[i as int] == args@[i as int]@);
        if args[i] == wanted {
            proof {
                first_place_is(all, flag@, i as int);
            }
            return i;
        }
        i = i + 1;
    }
    proof {
        first_place_is(all, flag@, i as int);
    }
    i
}

/// The value after a flag, if both are there.
pub open spec fn value_after(args: Seq<Seq<char>>, flag: Seq<char>) -> Option<Seq<char>> {
    let i = first_place(args, flag);
    if i + 1 < args.len() {
        Some(args[i + 1])
    } else {
        None
    }
}

/// The value after `flag`, if present.
pub fn flag_value(args: &Vec<String>, flag: &str) -> (v: Option<String>)
    ensures
        match v {
            Some(s) => value_after(texts(args@), flag@) == Some(s@),
            None => value_after(texts(args@), flag@) is None,
        },
{
    let i: usize = place_of(args, flag);
    if i < args.len() && i + 1 < args.len() {
        assert(texts(args@)[i + 1] == args@[i + 1]@);
        Some(args[i + 1].clone())
    } else {
        None
    }
}

/// The seed that a text writes: in decimal, or in hexadecimal behind `0x`.
pub open spec fn seed_of(v: Seq<char>) -> Option<nat> {
    if v.len() >= 2 && v[0] == '0' && v[1] == 'x' {
        number_within(v.skip(2), 16, u64::MAX as nat)
    } else {
        number_within(v, 10, u64::MAX as nat)
    }
}

fn parse_u64(v: &str, radix: u32) -> (n: Option<u64>)
    requires
        2 <= radix <= 36,
    ensures
        match n {
            Some(x) => number_within(v@, radix as nat, u64::MAX as nat) == Some(x as nat),
            None => number_within(v@, radix as nat, u64::MAX as nat) is None,
        },
{
    match parse_number(v, radix, u64::MAX as u128) {
        Some(x) => Some(x as u64),
        None => None,
    }
}

/// Parses a seed, decimal or `0x`-prefixed: reports carry the hexadecimal form while a batch
/// counts in decimal.
pub fn parse_seed(v: &str) -> (seed: Option<u64>)
    ensures
        match seed {
            Some(x) => seed_of(v@) == Some(x as nat),
            None => seed_of(v@) is None,
        },
{
    let chars: Vec<char> = chars_of(v);
    let n: usize = chars.len();
    if n >= 2 && chars[0] == '0' && chars[1] == 'x' {
        let rest: String = string_of_range(&chars, 2, n);
        assert(rest@ =~= v@.skip(2));
        parse_u64(rest.as_str(), 16)
    } else {
        parse_u64(v, 10)
    }
}

/// What the simulator is asked to do.
#[derive(Debug, Clone, Copy, PartialEq, Eq, Structural)]
pub enum Invocation {
    /// Say how it is used.
    Help,
    /// Run one seed, and perhaps print its trace.
    One { seed: u64, trace: bool },
    /// Nothing: the seed is no number.
    BadSeed,
    /// Run the seeds below a number.
    Batch { seeds: u64 },
}

/// Whether a flag is among some arguments.
pub open spec fn is_given(args: Seq<Seq<char>>, flag: Seq<char>) -> bool {
    first_place(args, flag) < args.len()
}

/// What some arguments ask for.
pub open spec fn asked_for(args: Seq<Seq<char>>) -> Invocation {
    if is_given(args, "--help"@) || is_given(args, "-h"@) {
        Invocation::Help
    } else {
        match value_after(args, "--seed"@) {
            Some(v) => match seed_of(v) {
                Some(seed) => Invocation::One {
                    seed: seed as u64,
                    trace: is_given(args, "--trace"@),
                },
                None => Invocation::BadSeed,
            },
            None => {
                let seeds = match value_after(args, "--seeds"@) {
                    Some(v) => number_within(v, 10, u64::MAX as nat),
                    None => None,
                };
                Invocation::Batch {
                    seeds: match seeds {
                        Some(n) => n as u64,
                        None => DEFAULT_SEEDS,
                    },
                }
            },
        }
    }
}

/// Reads the arguments.
pub fn read_args(args: &Vec<String>) -> (asked: Invocation)
    ensures
        asked == asked_for(texts(args@)),
{
    let n: usize = args.len();
    if place_of(args, "--help") < n || place_of(args, "-h") < n {
        return Invocation::Help;
    }
    let trace: bool = place_of(args, "--trace") < n;
    if let Some(v) = flag_value(args, "--seed") {
        return match parse_seed(v.as_str()) {
            Some(seed) => Invocation::One { seed, trace },
            None => Invocation::BadSeed,
        };
    }
    let seeds: Option<u64> = match flag_value(args, "--seeds") {
        Some(v) => parse_u64(v.as_str(), 10),
        None => None,
    };
    match seeds {
        Some(seeds) => Invocation::Batch { seeds },
        None => Invocation::Batch { seeds: DEFAULT_SEEDS },
    }
}

/// `ms` divided by `unit`, rounded toward zero.
pub open spec fn whole_units(ms: int, unit: int) -> int {
    if ms >= 0 {
        ms / unit
    } else {
        -((-ms) / unit)
    }
}

/// A duration in whole days, or in whole hours if there is no whole day.
pub open spec fn duration_text(ms: int) -> Seq<char> {
    let days = whole_units(ms, 86_400_000);
    if days > 0 {
        signed_padded(days, 0) + "d"@
    } else {
        signed_padded(whole_units(ms, 3_600_000), 0) + "h"@
    }
}

fn units_of(ms: i64, unit: i64) -> (n: i64)
    requires
        unit > 1,
    ensures
        n == whole_units(ms as int, unit as int),
{
    if ms >= 0 {
        ms / unit
    } else if ms == i64::MIN {
        let n: i128 = 0x8000_0000_0000_0000 / (unit as i128);
        proof {
            let d = unit as int;
            assert(0 <= 0x8000_0000_0000_0000int / d <= 0x4000_0000_0000_0000) by (nonlinear_arith)
                requires
                    d >= 2,
            ;
        }
        -(n as i64)
    } else {
        -((-ms) / unit)
    }
}

/// Renders milliseconds as something a person can judge at a glance.
pub fn human_duration(ms: i64) -> (text: String)
    ensures
        text@ == duration_text(ms as int),
{
    let mut text: String = String::new();
    let days: i64 = units_of(ms, 86_400_000);
    if days > 0 {
        push_signed_padded(&mut text, days, 0);
        text.append("d");
    } else {
        push_signed_padded(&mut text, units_of(ms, 3_600_000), 0);
        text.append("h");
    }
    assert(text@ =~= duration_text(ms as int));
    text
}

/// The line that sums up one run.
pub open spec fn summary_of(seed: u64, devices: usize, elapsed_ms: i64, coverage: Seq<char>) -> Seq<
    char,
> {
    "seed 0x"@ + zero_padded(hexadecimal(seed as nat), 16) + "  devices="@ + decimal(
        devices as nat,
    ) + "  simulated="@ + duration_text(elapsed_ms as int) + "  "@ + coverage
}

/// The line that sums up one run.
pub fn summary(seed: u64, devices: usize, elapsed_ms: i64, coverage: &str) -> (line: String)
    ensures
        line@ == summary_of(seed, devices, elapsed_ms, coverage@),
{
    let mut line: String = "seed 0x".to_owned();
    push_hex(&mut line, seed, 16);
    line.append("  devices=");
    push_decimal(&mut line, devices as u64);
    line.append("  simulated=");
    line.append(human_duration(elapsed_ms).as_str());
    line.append("  ");
    line.append(coverage);
    line
}

/// The lines of the violations among the first `n`, indented.
pub open spec fn indented(violations: Seq<ViolationView>, n: nat) -> Seq<Seq<char>>
    decreases n,
{
    if n == 0 {
        seq![]
    } else {
        indented(violations, (n - 1) as nat).push("  "@ + violation_line(violations[n - 1]))
    }
}

/// A report of violations. The seed is the whole reproduction, so it goes at the top, and again at
/// the bottom as a command.
pub open spec fn report_of(seed: u64, violations: Seq<ViolationView>) -> Seq<Seq<char>> {
    let shown = if violations.len() < REPORTED {
        violations.len()
    } else {
        REPORTED as nat
    };
    let more = if violations.len() > REPORTED {
        seq!["  ... and "@ + decimal((violations.len() - REPORTED) as nat) + " more"@]
    } else {
        seq![]
    };
    seq![""@, "FAILED at seed 0x"@ + zero_padded(hexadecimal(seed as nat), 16)] + indented(
        violations,
        shown,
    ) + more + seq![
        ""@,
        "replay it exactly:"@,
        "  cargo run --release -p credsync-sim -- --seed 0x"@ + hexadecimal(seed as nat) + " --trace"@,
    ]
}

/// Reports some violations, line by line.
pub fn report(seed: u64, violations: &Vec<Violation>) -> (lines: Vec<String>)
    ensures
        texts(lines@) == report_of(seed, violation_views(violations@)),
{
    let ghost views = violation_views(violations@);
    let total: usize = violations.len();
    let shown: usize = if total < REPORTED {
        total
    } else {
        REPORTED
    };
    let mut title: String = "FAILED at seed 0x".to_owned();
    push_hex(&mut title, seed, 16);
    let mut lines: Vec<String> = Vec::new();
    let ghost head = seq![""@, title@];
    lines.push("".to_owned());
    lines.push(title);
    assert(texts(lines@) =~= head + indented(views, 0));
    let mut i: usize = 0;
    while i < shown
        invariant
            i <= shown <= violations@.len(),
            views == violation_views(violations@),
            texts(lines@) == head + indented(views, i as nat),
        decreases shown - i,
    {
        let mut line: String = "  ".to_owned();
        line.append(violations[i].message().as_str());
        let ghost before = texts(lines@);
        let ghost one = line@;
        lines.push(line);
        i = i + 1;
        assert(texts(lines@) =~= before.push(one));
        assert(texts(lines@) =~= head + indented(views, i as nat));
    }
    let ghost so_far = texts(lines@);
    let ghost mut more: Seq<Seq<char>> = seq![];
    if total > REPORTED {
        let mut line: String = "  ... and ".to_owned();
        push_decimal(&mut line, (total - REPORTED) as u64);
        line.append(" more");
        proof {
            more = seq![line@];
        }
        lines.push(line);
    }
    assert(texts(lines@) =~= so_far + more);
    let mut replay: String = "  cargo run --release -p credsync-sim -- --seed 0x".to_owned();
    push_hex(&mut replay, seed, 0);
    replay.append(" --trace");
    let ghost tail = seq![""@, "replay it exactly:"@, replay@];
    lines.push("".to_owned());
    lines.push("replay it exactly:".to_owned());
    lines.push(replay);
    assert(texts(lines@) =~= so_far + more + tail);
    lines
}

/// What a batch adds up to.
#[derive(Debug)]
pub struct Totals {
    /// How often each fault of the menu fired.
    pub counts: [u64; 13],
    /// How much time was simulated.
    pub simulated_ms: i64,
}

impl Totals {
    /// Nothing yet.
    pub fn new() -> (t: Self)
        ensures
            t.counts@ == Seq::new(13, |i: int| 0u64),
            t.simulated_ms == 0,
    {
        let counts: [u64; 13] = [0; 13];
        assert(counts@ =~= Seq::new(13, |i: int| 0u64));
        Totals { counts, simulated_ms: 0 }
    }

    /// Adds one run.
    pub fn add_run(&mut self, trace: &Trace, elapsed_ms: i64)
        requires
            i64::MIN <= old(self).simulated_ms + elapsed_ms <= i64::MAX,
            forall|f: Fault|
                old(self).counts@[menu_place(f)] + #[trigger] trace@.count(f) <= u64::MAX,
        ensures
            final(self).simulated_ms == old(self).simulated_ms + elapsed_ms,
            forall|f: Fault|
                final(self).counts@[menu_place(f)] == old(self).counts@[menu_place(f)]
                    + #[trigger] trace@.count(f),
    {
        self.simulated_ms = self.simulated_ms + elapsed_ms;
        let faults: Vec<Fault> = Fault::all();
        let ghost before = self.counts@;
        let mut i: usize = 0;
        while i < 13
            invariant
                i <= 13,
                faults@ == menu(),
                before.len() == 13,
                before == old(self).counts@,
                self.simulated_ms == old(self).simulated_ms + elapsed_ms,
                forall|f: Fault| before[menu_place(f)] + #[trigger] trace@.count(f) <= u64::MAX,
                forall|j: int|
                    0 <= j < 13 ==> #[trigger] self.counts@[j] == if j < i {
                        (before[j] + trace@.count(menu()[j])) as u64
                    } else {
                        before[j]
                    },
            decreases 13 - i,
        {
            let f: Fault = faults[i];
            proof {
                menu_is_complete(f);
                assert(menu_place(menu()[i as int]) == i);
                assert(before[menu_place(f)] + trace@.count(f) <= u64::MAX);
            }
            let n: u64 = self.counts[i];
            self.counts[i] = n + trace.fault_count(f);
            i = i + 1;
        }
        assert forall|f: Fault|
            self.counts@[menu_place(f)] == before[menu_place(f)] + #[trigger] trace@.count(f) by {
            menu_is_complete(f);
            assert(self.counts@[menu_place(f)] == (before[menu_place(f)] + trace@.count(
                menu()[menu_place(f)],
            )) as u64);
        }
    }

    /// The faults that never fired, among the first `n` of the menu.
    pub open spec fn silent_among(&self, n: nat) -> Seq<Seq<char>>
        decreases n,
    {
        if n == 0 {
            seq![]
        } else {
            let before = self.silent_among((n - 1) as nat);
            if self.counts@[n - 1] == 0 {
                before.push(fault_name(menu()[n - 1]))
            } else {
                before
            }
        }
    }

    /// The faults that never fired: faults that this simulator does not have.
    pub fn silent(&self) -> (names: Vec<String>)
        ensures
            texts(names@) == self.silent_among(13),
    {
        let faults: Vec<Fault> = Fault::all();
        let mut names: Vec<String> = Vec::new();
        let mut i: usize = 0;
        assert(texts(names@) =~= self.silent_among(0));
        while i < 13
            invariant
                i <= 13,
                faults@ == menu(),
                texts(names@) == self.silent_among(i as nat),
            decreases 13 - i,
        {
            if self.counts[i] == 0 {
                let ghost before = texts(names@);
                let name: String = faults[i].name().to_owned();
                let ghost one = name@;
                names.push(name);
                assert(texts(names@) =~= before.push(one));
            }
            i = i + 1;
            assert(texts(names@) =~= self.silent_among(i as nat));
        }
        names
    }
}

/// A text with spaces behind it, to at least `width` characters.
pub open spec fn space_padded(s: Seq<char>, width: nat) -> Seq<char> {
    if s.len() >= width {
        s
    } else {
        s + Seq::new((width - s.len()) as nat, |i: int| ' ')
    }
}

/// A line of the coverage report.
pub open spec fn coverage_line(f: Fault, n: u64) -> Seq<char> {
    "  "@ + space_padded(fault_name(f), 32) + " "@ + decimal(n as nat)
}

fn push_space_padded(line: &mut String, text: &str, width: usize)
    ensures
        final(line)@ == old(line)@ + space_padded(text@, width as nat),
{
    line.append(text);
    let mut n: usize = chars_of(text).len();
    let ghost start = n;
    let ghost base = line@;
    assert(line@ =~= base + Seq::new(0, |i: int| ' '));
    while n < width
        invariant
            start <= n,
            start <= width ==> n <= width,
            start > width ==> n == start,
            line@ == base + Seq::new((n - start) as nat, |i: int| ' '),
        decreases width - n,
    {
        line.append(" ");
        n = n + 1;
        proof {
            reveal_strlit(" ");
            assert(line@ =~= base + Seq::new((n - start) as nat, |i: int| ' '));
        }
    }
    assert(line@ =~= old(line)@ + space_padded(text@, width as nat));
}

/// What is said of faults that never fired: nothing, if every fault did.
pub open spec fn warning_of(silent: Seq<Seq<char>>) -> Seq<Seq<char>> {
    if silent.len() == 0 {
        seq![]
    } else {
        seq![
            ""@,
            "warning: "@ + decimal(silent.len()) + " fault(s) never fired: "@ + joined(
                silent,
                ", "@,
            ),
            "a fault that never fires is a fault this simulator does not have."@,
        ]
    }
}

impl Totals {
    /// How often each fault fired, in the order of the menu, line by line.
    pub fn coverage_lines(&self) -> (lines: Vec<String>)
        ensures
            texts(lines@) == Seq::new(
                13,
                |i: int| coverage_line(menu()[i], self.counts@[i]),
            ),
    {
        let faults: Vec<Fault> = Fault::all();
        let mut lines: Vec<String> = Vec::new();
        let mut i: usize = 0;
        while i < 13
            invariant
                i <= 13,
                faults@ == menu(),
                lines@.len() == i,
                forall|j: int|
                    0 <= j < i ==> (#[trigger] lines@[j])@ == coverage_line(
                        menu()[j],
                        self.counts@[j],
                    ),
            decreases 13 - i,
        {
            let mut line: String = "  ".to_owned();
            push_space_padded(&mut line, faults[i].name(), 32);
            line.append(" ");
            push_decimal(&mut line, self.counts[i]);
            lines.push(line);
            i = i + 1;
        }
        assert(texts(lines@) =~= Seq::new(
            13,
            |i: int| coverage_line(menu()[i], self.counts@[i]),
        ));
        lines
    }

    /// A warning about the faults that never fired, line by line. That is no failure of what was
    /// simulated, but of the simulator.
    pub fn warning(&self) -> (lines: Vec<String>)
        ensures
            texts(lines@) == warning_of(self.silent_among(13)),
    {
        let silent: Vec<String> = self.silent();
        let ghost names = texts(silent@);
        let mut lines: Vec<String> = Vec::new();
        if silent.len() > 0 {
            let mut line: String = "warning: ".to_owned();
            push_decimal(&mut line, silent.len() as u64);
            line.append(" fault(s) never fired: ");
            let ghost base = line@;
            let mut i: usize = 0;
            assert(names.take(0) =~= seq![]);
            assert(line@ =~= base + joined(names.take(0), ", "@));
            while i < silent.len()
                invariant
                    i <= silent@.len(),
                    names == texts(silent@),
                    line@ == base + joined(names.take(i as int), ", "@),
                decreases silent@.len() - i,
            {
                let ghost next = names.take(i + 1);
                proof {
                    assert(next.drop_last() =~= names.take(i as int));
                    assert(next.last() == silent@[i as int]@);
                }
                if i > 0 {
                    line.append(", ");
                }
                line.append(silent[i].as_str());
                i = i + 1;
                assert(line@ =~= base + joined(next, ", "@));
            }
            assert(names.take(names.len() as int) =~= names);
            let ghost second = line@;
            lines.push("".to_owned());
            lines.push(line);
            lines.push(
                "a fault that never fires is a fault this simulator does not have.".to_owned(),
            );
            assert(texts(lines@) =~= seq![
                ""@,
                second,
                "a fault that never fires is a fault this simulator does not have."@,
            ]);
        } else {
            assert(texts(lines@) =~= seq![]);
        }
        lines
    }
}

/// Argument `i` is the first of that name.
pub open spec fn first_at(args: Seq<Seq<char>>, flag: Seq<char>, i: int) -> bool {
    0 <= i < args.len() && args[i] == flag && forall|j: int|
        0 <= j < i ==> #[trigger] args[j] != flag
}

/// No argument has that name.
pub open spec fn not_given(args: Seq<Seq<char>>, flag: Seq<char>) -> bool {
    forall|j: int| 0 <= j < args.len() ==> #[trigger] args[j] != flag
}

/// What the arguments ask for. Help goes before everything. Otherwise a seed that comes with its
/// number, in decimal or behind `0x` in hexadecimal, is that one run, with its trace exactly where
/// that is asked for, and one that is no number is refused; without a seed a batch is run, of as
/// many seeds as are asked for.
pub proof fn the_arguments_are_what_is_run(args: Seq<Seq<char>>, i: int, n: nat)
    ensures
        !not_given(args, "--help"@) || !not_given(args, "-h"@) <==> asked_for(args) is Help,
        not_given(args, "--help"@) && not_given(args, "-h"@) && first_at(args, "--seed"@, i) && i
            + 1 < args.len() ==> {
            let text = args[i + 1];
            &&& n <= u64::MAX && (text == decimal(n) || text == "0x"@ + hexadecimal(n))
                ==> asked_for(args) == (Invocation::One {
                seed: n as u64,
                trace: !not_given(args, "--trace"@),
            })
            &&& asked_for(args) is One || asked_for(args) is BadSeed
            &&& text.len() == 0 ==> asked_for(args) is BadSeed
        },
        not_given(args, "--help"@) && not_given(args, "-h"@) && not_given(args, "--seed"@) ==> {
            &&& asked_for(args) is Batch
            &&& not_given(args, "--seeds"@) ==> asked_for(args) == (Invocation::Batch {
                seeds: 1_000,
            })
            &&& first_at(args, "--seeds"@, i) && i + 1 < args.len() && args[i + 1] == decimal(n) && n
                <= u64::MAX ==> asked_for(args) == (Invocation::Batch { seeds: n as u64 })
        },
{
    places(args, "--help"@);
    places(args, "-h"@);
    places(args, "--seed"@);
    places(args, "--seeds"@);
    places(args, "--trace"@);
    if first_at(args, "--seed"@, i) {
        first_place_is(args, "--seed"@, i);
    }
    if first_at(args, "--seeds"@, i) {
        first_place_is(args, "--seeds"@, i);
    }
    a_written_number_reads_back(n, 0);
    a_printed_seed_is_read_back(n);
}

proof fn places(args: Seq<Seq<char>>, flag: Seq<char>)
    ensures
        0 <= first_place(args, flag) <= args.len(),
        not_given(args, flag) <==> first_place(args, flag) == args.len(),
    decreases args.len(),
{
    if args.len() > 0 {
        let rest = args.drop_first();
        places(rest, flag);
        if args[0] != flag {
            if not_given(rest, flag) {
                assert forall|j: int| 0 <= j < args.len() implies #[trigger] args[j] != flag by {
                    if j > 0 {
                        assert(rest[j - 1] == args[j]);
                    }
                }
            }
            if not_given(args, flag) {
                assert forall|j: int| 0 <= j < rest.len() implies #[trigger] rest[j] != flag by {
                    assert(rest[j] == args[j + 1]);
                }
            }
        } else {
            assert(!not_given(args, flag)) by {
                if not_given(args, flag) {
                    assert(args[0] != flag);
                }
            }
        }
    }
}

/// A seed that is printed reads back, in either of the forms that a report prints it in and in
/// decimal: a bug report is one integer.
pub proof fn a_printed_seed_is_read_back(seed: nat)
    ensures
        seed <= u64::MAX ==> seed_of(decimal(seed)) == Some(seed),
        seed <= u64::MAX ==> seed_of("0x"@ + hexadecimal(seed)) == Some(seed),
        seed <= u64::MAX ==> seed_of("0x"@ + zero_padded(hexadecimal(seed), 16)) == Some(seed),
{
    reveal_strlit("0x");
    a_written_number_reads_back(seed, 16);
    assert(("0x"@ + hexadecimal(seed)).skip(2) =~= hexadecimal(seed));
    assert(("0x"@ + zero_padded(hexadecimal(seed), 16)).skip(2) =~= zero_padded(
        hexadecimal(seed),
        16,
    ));
    decimals_have_no_x(seed);
}

proof fn decimals_have_no_x(n: nat)
    ensures
        forall|i: int| 0 <= i < decimal(n).len() ==> #[trigger] decimal(n)[i] != 'x',
    decreases n,
{
    if n >= 10 {
        decimals_have_no_x(n / 10);
        let before = decimal(n / 10);
        assert forall|i: int| 0 <= i < decimal(n).len() implies #[trigger] decimal(n)[i] != 'x' by {
            if i < before.len() {
                assert(decimal(n)[i] == before[i]);
            }
        }
    }
}

proof fn indented_lines(violations: Seq<ViolationView>, n: nat)
    requires
        n <= violations.len(),
    ensures
        indented(violations, n).len() == n,
        forall|i: int|
            0 <= i < n ==> #[trigger] indented(violations, n)[i] == "  "@ + violation_line(
                violations[i],
            ),
    decreases n,
{
    if n > 0 {
        indented_lines(violations, (n - 1) as nat);
    }
}

/// A report names the seed at the top and prints the command that replays it at the bottom; between
/// them stand the violations, the first twenty of them line by line in their order, and how many
/// more there are where there are more.
pub proof fn a_report_shows_the_seed_and_what_broke(seed: u64, violations: Seq<ViolationView>)
    ensures
        ({
            let lines = report_of(seed, violations);
            let shown = if violations.len() < 20 {
                violations.len() as int
            } else {
                20
            };
            let extra = if violations.len() > 20 {
                1int
            } else {
                0
            };
            &&& lines.len() == 5 + shown + extra
            &&& lines[1] == "FAILED at seed 0x"@ + zero_padded(hexadecimal(seed as nat), 16)
            &&& forall|i: int|
                0 <= i < shown ==> lines[i + 2] == "  "@ + violation_line(#[trigger] violations[i])
            &&& violations.len() > 20 ==> lines[22] == "  ... and "@ + decimal(
                (violations.len() - 20) as nat,
            ) + " more"@
            &&& lines.last() == "  cargo run --release -p credsync-sim -- --seed 0x"@ + hexadecimal(
                seed as nat,
            ) + " --trace"@
        }),
{
    let shown = if violations.len() < 20 {
        violations.len()
    } else {
        20
    };
    indented_lines(violations, shown);
    let lines = report_of(seed, violations);
    assert forall|i: int| 0 <= i < shown implies lines[i + 2] == "  "@ + violation_line(
        #[trigger] violations[i],
    ) by {
        assert(lines[i + 2] == indented(violations, shown)[i]);
    }
}

/// A duration is shown in whole days, or in whole hours where it is less than a day.
pub proof fn a_duration_is_shown_in_whole_units(ms: int)
    requires
        ms >= 0,
    ensures
        ms >= 86_400_000 ==> duration_text(ms) == decimal((ms / 86_400_000) as nat) + "d"@,
        ms < 86_400_000 ==> duration_text(ms) == decimal((ms / 3_600_000) as nat) + "h"@,
{
}

proof fn silent_is(t: Totals, n: nat, f: Fault)
    requires
        n <= 13,
    ensures
        t.silent_among(n).contains(fault_name(f)) <==> menu_place(f) < n && t.counts@[menu_place(
            f,
        )] == 0,
    decreases n,
{
    menu_is_complete(f);
    if n > 0 {
        silent_is(t, (n - 1) as nat, f);
        let g = menu()[n - 1];
        menu_is_complete(g);
        let before = t.silent_among((n - 1) as nat);
        let all = t.silent_among(n);
        if before.contains(fault_name(f)) {
            let k = choose|k: int| 0 <= k < before.len() && before[k] == fault_name(f);
            assert(all[k] == fault_name(f));
        }
        if t.counts@[n - 1] == 0 {
            assert(all[before.len() as int] == fault_name(g));
        }
        if all.contains(fault_name(f)) && !before.contains(fault_name(f)) {
            let k = choose|k: int| 0 <= k < all.len() && all[k] == fault_name(f);
            if k < before.len() {
                assert(before[k] == fault_name(f));
            }
            names_are_distinct(f, g);
        }
        assert(menu()[menu_place(f)] == f);
    }
}

/// A fault is warned of exactly when it never fired, and there is no warning exactly when every one
/// did.
pub proof fn only_silent_faults_are_warned_of(t: Totals, f: Fault)
    ensures
        t.silent_among(13).contains(fault_name(f)) <==> t.counts@[menu_place(f)] == 0,
        t.counts@[menu_place(f)] == 0 ==> warning_of(t.silent_among(13)).len() > 0,
        warning_of(t.silent_among(13)).len() == 0 <==> t.silent_among(13).len() == 0,
{
    menu_is_complete(f);
    silent_is(t, 13, f);
}

} // verus!
