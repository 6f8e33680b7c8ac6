//! What a run did, recorded so two runs can be compared byte for byte.
//!
//! Every line is stable by construction: simulated time, a device, and a fixed word.
use crate::fault::{fault_name, menu, menu_is_complete, menu_place, names_are_distinct, Fault};
use crate::text::{
    decimal, push_decimal, push_padded, push_signed_padded, signed_padded, zero_padded,
};
use vstd::prelude::*;
use vstd::string::*;

verus! {

/// The record of one simulation run.
#[derive(Debug)]
pub struct Trace {
    lines: Vec<String>,
    /// How often each fault of the menu fired.
    counts: [u64; 13],
    /// Off by default: lines are kept only when someone asked to see them.
    recording: bool,
}

/// The line for an event: the time in 12 places, the device in 2, and what happened.
pub open spec fn line_of(at_ms: i64, device: usize, what: Seq<char>) -> Seq<char> {
    signed_padded(at_ms as int, 12) + " d"@ + zero_padded(decimal(device as nat), 2) + " "@ + what
}

/// Lines with a separator between them.
pub open spec fn joined(lines: Seq<Seq<char>>, separator: Seq<char>) -> Seq<char>
    decreases lines.len(),
{
    if lines.len() == 0 {
        seq![]
    } else if lines.len() == 1 {
        lines[0]
    } else {
        joined(lines.drop_last(), separator) + separator + lines.last()
    }
}

/// The faults in the order of their names.
pub open spec fn by_name() -> Seq<Fault> {
    seq![
        Fault::DeviceRestarted,
        Fault::Dropped,
        Fault::Duplicated,
        Fault::Flap,
        Fault::Malformed,
        Fault::Overloaded,
        Fault::ProtocolViolation,
        Fault::Reordered,
        Fault::ServerRestarted,
        Fault::Severed,
        Fault::SlowCommit,
        Fault::StorageCommittedThenKilled,
        Fault::StorageFailed,
    ]
}

/// The entry of the coverage report for a fault: its name, an equals sign, and the count.
pub open spec fn coverage_entry(f: Fault, n: u64) -> Seq<char> {
    fault_name(f) + "="@ + decimal(n as nat)
}

/// What a trace holds: the lines, how often each fault of the menu fired, and whether lines are
/// kept.
#[verifier::ext_equal]
pub struct TraceView {
    pub lines: Seq<Seq<char>>,
    pub counts: Seq<u64>,
    pub keeps: bool,
}

impl TraceView {
    /// How often a fault fired.
    pub open spec fn count(self, f: Fault) -> u64 {
        self.counts[menu_place(f)]
    }

    /// The trace with one more event: a line, if lines are kept.
    pub open spec fn with_event(self, at_ms: i64, device: usize, what: Seq<char>) -> TraceView {
        TraceView {
            lines: if self.keeps {
                self.lines.push(line_of(at_ms, device, what))
            } else {
                self.lines
            },
            ..self
        }
    }

    /// The trace with one more fault: a count, and an event of its name.
    pub open spec fn with_fault(self, at_ms: i64, device: usize, f: Fault) -> TraceView {
        TraceView {
            counts: self.counts.update(menu_place(f), (self.counts[menu_place(f)] + 1) as u64),
            ..self
        }.with_event(at_ms, device, fault_name(f))
    }
}

/// A trace with nothing in it.
pub open spec fn empty_trace(keeps: bool) -> TraceView {
    TraceView { lines: Seq::empty(), counts: Seq::new(13, |i: int| 0u64), keeps }
}

impl View for Trace {
    type V = TraceView;

    closed spec fn view(&self) -> TraceView {
        TraceView {
            lines: self.lines@.map_values(|l: String| l@),
            counts: self.counts@,
            keeps: self.recording,
        }
    }
}

impl Trace {
    /// There is one count for each fault of the menu.
    pub proof fn counts_the_menu(&self)
        ensures
            self@.counts.len() == 13,
    {
    }

    /// The faults that fired, with their counts, among the first `n` of the order of names.
    pub open spec fn fired(&self, n: nat) -> Seq<(Seq<char>, u64)>
        decreases n,
    {
        if n == 0 {
            seq![]
        } else {
            let f = by_name()[n - 1];
            let before = self.fired((n - 1) as nat);
            if self@.count(f) > 0 {
                before.push((fault_name(f), self@.count(f)))
            } else {
                before
            }
        }
    }

    /// The entries of the coverage report, in the order of the menu.
    pub open spec fn coverage_entries(&self) -> Seq<Seq<char>> {
        menu().map_values(|f: Fault| coverage_entry(f, self@.count(f)))
    }

    fn fresh(recording: bool) -> (t: Self)
        ensures
            t@ == empty_trace(recording),
    {
        let counts: [u64; 13] = [0; 13];
        let t = Trace { lines: Vec::new(), counts, recording };
        assert(t@ =~= empty_trace(recording));
        t
    }

    /// A trace that counts faults but keeps no lines.
    #[must_use]
    pub fn counting() -> (t: Self)
        ensures
            t@ == empty_trace(false),
    {
        Trace::fresh(false)
    }

    /// A trace that keeps every line.
    #[must_use]
    pub fn recording() -> (t: Self)
        ensures
            t@ == empty_trace(true),
    {
        Trace::fresh(true)
    }

    /// Records one event at a simulated instant.
    pub fn event(&mut self, at_ms: i64, device: usize, what: &str)
        ensures
            final(self)@ == old(self)@.with_event(at_ms, device, what@),
    {
        if self.recording {
            let mut line: String = String::new();
            push_signed_padded(&mut line, at_ms, 12);
            line.append(" d");
            push_padded(&mut line, device as u64, 2);
            line.append(" ");
            line.append(what);
            let ghost text = line@;
            assert(text == line_of(at_ms, device, what@));
            self.lines.push(line);
            assert(self@.lines =~= old(self)@.lines.push(text));
        }
    }

    /// Records a fault, both as a line and in the coverage counts.
    pub fn fault(&mut self, at_ms: i64, device: usize, fault: Fault)
        requires
            old(self)@.count(fault) < u64::MAX,
        ensures
            final(self)@ == old(self)@.with_fault(at_ms, device, fault),
    {
        proof {
            menu_is_complete(fault);
        }
        let place: usize = fault.place();
        let n: u64 = self.counts[place];
        self.counts[place] = n + 1;
        self.event(at_ms, device, fault.name());
    }

    /// How many times each fault fired: those that did, in the order of their names.
    #[must_use]
    pub fn faults(&self) -> (fired: Vec<(&'static str, u64)>)
        ensures
            fired@.map_values(|e: (&'static str, u64)| (e.0@, e.1)) == self.fired(13),
    {
        let order: Vec<Fault> = vec![
            Fault::DeviceRestarted,
            Fault::Dropped,
            Fault::Duplicated,
            Fault::Flap,
            Fault::Malformed,
            Fault::Overloaded,
            Fault::ProtocolViolation,
            Fault::Reordered,
            Fault::ServerRestarted,
            Fault::Severed,
            Fault::SlowCommit,
            Fault::StorageCommittedThenKilled,
            Fault::StorageFailed,
        ];
        assert(order@ =~= by_name());
        let mut fired: Vec<(&'static str, u64)> = Vec::new();
        let mut i: usize = 0;
        assert(fired@.map_values(|e: (&'static str, u64)| (e.0@, e.1)) =~= self.fired(0));
        while i < order.len()
            invariant
                i <= order@.len(),
                order@ == by_name(),
                fired@.map_values(|e: (&'static str, u64)| (e.0@, e.1)) == self.fired(i as nat),
            decreases order@.len() - i,
        {
            let fault: Fault = order[i];
            proof {
                menu_is_complete(fault);
            }
            let n: u64 = self.counts[fault.place()];
            if n > 0 {
                let ghost before = fired@;
                fired.push((fault.name(), n));
                assert(fired@.map_values(|e: (&'static str, u64)| (e.0@, e.1))
                    =~= before.map_values(|e: (&'static str, u64)| (e.0@, e.1)).push(
                    (fault_name(fault), n),
                ));
            }
            i = i + 1;
        }
        fired
    }

    /// How many times one fault fired.
    #[must_use]
    pub fn fault_count(&self, fault: Fault) -> (n: u64)
        ensures
            n == self@.count(fault),
    {
        proof {
            menu_is_complete(fault);
        }
        self.counts[fault.place()]
    }

    /// How many lines were recorded.
    #[must_use]
    pub fn len(&self) -> (n: usize)
        ensures
            n == self@.lines.len(),
    {
        self.lines.len()
    }

    /// Whether anything was recorded.
    #[must_use]
    pub fn is_empty(&self) -> (r: bool)
        ensures
            r == (self@.lines.len() == 0),
    {
        self.lines.len() == 0
    }

    /// The whole trace as bytes, for comparing two runs.
    #[must_use]
    pub fn to_bytes(&self) -> (bytes: Vec<u8>)
        ensures
            bytes@ == vstd::utf8::encode_utf8(joined(self@.lines, "\n"@)),
    {
        self.render().as_str().as_bytes_vec()
    }

    /// The trace as text.
    #[must_use]
    pub fn render(&self) -> (text: String)
        ensures
            text@ == joined(self@.lines, "\n"@),
    {
        let ghost all = self@.lines;
        let mut text: String = String::new();
        let mut i: usize = 0;
        assert(joined(all.take(0), "\n"@) =~= text@);
        while i < self.lines.len()
            invariant
                i <= self.lines@.len(),
                all == self@.lines,
                all.len() == self.lines@.len(),
                text@ == joined(all.take(i as int), "\n"@),
            decreases self.lines@.len() - i,
        {
            let ghost next = all.take(i + 1);
            proof {
                assert(next.drop_last() =~= all.take(i as int));
                assert(next.last() == self.lines@[i as int]@);
            }
            if i > 0 {
                text.append("\n");
            }
            text.append(self.lines[i].as_str());
            assert(text@ =~= joined(next, "\n"@));
            i = i + 1;
        }
        assert(all.take(i as int) =~= all);
        text
    }

    /// A one-line summary of how often each fault fired.
    #[must_use]
    pub fn coverage(&self) -> (text: String)
        ensures
            text@ == joined(self.coverage_entries(), " "@),
    {
        let faults: Vec<Fault> = Fault::all();
        let ghost all = self.coverage_entries();
        let mut text: String = String::new();
        let mut i: usize = 0;
        assert(joined(all.take(0), " "@) =~= text@);
        while i < faults.len()
            invariant
                i <= faults@.len(),
                faults@ == menu(),
                all == self.coverage_entries(),
                all.len() == faults@.len(),
                text@ == joined(all.take(i as int), " "@),
            decreases faults@.len() - i,
        {
            let fault: Fault = faults[i];
            proof {
                menu_is_complete(fault);
            }
            let ghost next = all.take(i + 1);
            let ghost before = text@;
            proof {
                assert(next.drop_last() =~= all.take(i as int));
                assert(next.last() == coverage_entry(fault, self@.count(fault)));
            }
            if i > 0 {
                text.append(" ");
            }
            text.append(fault.name());
            text.append("=");
            push_decimal(&mut text, self.counts[fault.place()]);
            assert(text@ =~= joined(next, " "@));
            i = i + 1;
        }
        assert(all.take(i as int) =~= all);
        text
    }
}

impl Default for Trace {
    fn default() -> (t: Self)
        ensures
            t@ == empty_trace(false),
    {
        Trace::counting()
    }
}

/// Putting a fault on record counts that fault once and no other, and adds a line of its name where
/// lines are kept; an event adds its line and counts nothing.
pub proof fn a_fault_is_counted_once(t: TraceView, at_ms: i64, device: usize, f: Fault, other: Fault)
    requires
        t.counts.len() == menu().len(),
        t.count(f) < u64::MAX,
    ensures
        t.with_fault(at_ms, device, f).count(f) == t.count(f) + 1,
        other != f ==> t.with_fault(at_ms, device, f).count(other) == t.count(other),
        t.with_event(at_ms, device, fault_name(f)).counts == t.counts,
        t.with_fault(at_ms, device, f).lines == t.with_event(at_ms, device, fault_name(f)).lines,
        t.keeps ==> t.with_fault(at_ms, device, f).lines.len() == t.lines.len() + 1,
        t.keeps ==> t.with_fault(at_ms, device, f).lines.drop_last() == t.lines,
        !t.keeps ==> t.with_fault(at_ms, device, f).lines == t.lines,
        t.with_fault(at_ms, device, f).keeps == t.keeps,
{
    menu_is_complete(f);
    menu_is_complete(other);
    if t.keeps {
        assert(t.with_fault(at_ms, device, f).lines.drop_last() =~= t.lines);
    }
}

/// Joining two runs of lines is joining each, with the separator between them, and every line is
/// there whole.
pub proof fn joining_keeps_every_line(a: Seq<Seq<char>>, b: Seq<Seq<char>>, separator: Seq<char>)
    requires
        a.len() > 0,
        b.len() > 0,
    ensures
        joined(a + b, separator) == joined(a, separator) + separator + joined(b, separator),
        joined(seq![a[0]], separator) == a[0],
        joined(Seq::<Seq<char>>::empty(), separator).len() == 0,
    decreases b.len(),
{
    let all = a + b;
    assert(all.drop_last() =~= a + b.drop_last());
    assert(all.last() == b.last());
    if b.len() == 1 {
        assert(all.drop_last() =~= a);
    } else {
        joining_keeps_every_line(a, b.drop_last(), separator);
    }
    assert(joined(all, separator) =~= joined(a, separator) + separator + joined(b, separator));
}

/// Every fault has one place in the order of names.
proof fn named_places(f: Fault) -> (i: int)
    ensures
        0 <= i < 13,
        by_name()[i] == f,
        by_name().len() == 13,
        forall|j: int| 0 <= j < 13 && #[trigger] by_name()[j] == f ==> j == i,
{
    match f {
        Fault::DeviceRestarted => 0,
        Fault::Dropped => 1,
        Fault::Duplicated => 2,
        Fault::Flap => 3,
        Fault::Malformed => 4,
        Fault::Overloaded => 5,
        Fault::ProtocolViolation => 6,
        Fault::Reordered => 7,
        Fault::ServerRestarted => 8,
        Fault::Severed => 9,
        Fault::SlowCommit => 10,
        Fault::StorageCommittedThenKilled => 11,
        Fault::StorageFailed => 12,
    }
}

proof fn fired_among(t: Trace, n: nat, f: Fault, i: int)
    requires
        n <= 13,
        0 <= i < 13,
        by_name()[i] == f,
        forall|j: int| 0 <= j < 13 && #[trigger] by_name()[j] == f ==> j == i,
    ensures
        forall|c: u64| #[trigger]
            t.fired(n).contains((fault_name(f), c)) <==> i < n && c > 0 && c == t@.count(f),
    decreases n,
{
    if n > 0 {
        fired_among(t, (n - 1) as nat, f, i);
        let g = by_name()[n - 1];
        let before = t.fired((n - 1) as nat);
        let all = t.fired(n);
        assert forall|c: u64| #[trigger] all.contains((fault_name(f), c)) <==> i < n && c > 0 && c
            == t@.count(f) by {
            let e = (fault_name(f), c);
            if before.contains(e) {
                let k = choose|k: int| 0 <= k < before.len() && before[k] == e;
                assert(all[k] == e);
            }
            if t@.count(g) > 0 {
                assert(all[before.len() as int] == (fault_name(g), t@.count(g)));
            }
            if all.contains(e) && !before.contains(e) {
                let k = choose|k: int| 0 <= k < all.len() && all[k] == e;
                if k < before.len() {
                    assert(before[k] == e);
                }
                names_are_distinct(f, g);
            }
        }
    }
}

/// The faults of a run are those that fired, by name and with how often they did, and no others.
pub proof fn what_fired_is_listed(t: Trace, f: Fault, c: u64)
    ensures
        t.fired(13).contains((fault_name(f), c)) <==> c > 0 && c == t@.count(f),
{
    let i = named_places(f);
    fired_among(t, 13, f, i);
}

} // verus!
