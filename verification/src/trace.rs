//! Traces of work across processes, and the report that merges them.
use vstd::prelude::*;
use crate::text::{decimal, pad_left, pad_left_to, push_decimal};

verus! {

/// System clock time, in nanoseconds.
pub type Timestamp = u64;

/// A point in time, in nanoseconds.
#[derive(Debug, Clone, Copy)]
pub struct SysTime(pub u64);

/// One traced piece of work.
#[derive(Debug, Clone)]
pub struct Trace {
    pub timestamp: Timestamp,
    pub proc_name: String,
    pub label: String,
    pub parent: Option<Timestamp>,
}

/// A labelled point in time.
#[derive(Debug, Clone)]
pub struct Event {
    label: String,
    time: SysTime,
}

/// A trace starts a new tree when it has no parent, or parent 0.
pub open spec fn orphan(t: Trace) -> bool {
    t.parent is None || t.parent == Some(0u64)
}

impl Trace {
    /// A trace of `label` under `parent`, at `timestamp`, or at `now` when
    /// that is `None`; the process name is "xi-rpc" until the traces are
    /// processed.
    pub fn at(label: String, parent: Option<Timestamp>, timestamp: Option<Timestamp>, now: Timestamp) -> (r: Self)
        ensures
            r.label == label,
            r.parent == parent,
            r.proc_name@ == "xi-rpc"@,
            r.timestamp == match timestamp {
                Some(t) => t,
                None => now,
            },
    {
        let timestamp = match timestamp {
            Some(t) => t,
            None => now,
        };
        let proc_name = String::from_str("xi-rpc");
        Trace { timestamp, proc_name, label, parent }
    }

    /// Whether this trace starts a new tree.
    pub fn is_orphan(&self) -> (r: bool)
        ensures
            r == orphan(*self),
    {
        match self.parent {
            None => true,
            Some(p) => p == 0,
        }
    }
}

/// The parts of a split duration add up to it, and each part below seconds
/// stays under a thousand.
pub proof fn law_duration_parts(d: u64)
    ensures
        ({
            let secs = d / 1_000_000_000;
            let millis = d % 1_000_000_000 / 1_000_000;
            let micros = d % 1_000_000 / 1_000;
            let nanos = d % 1_000;
            &&& secs * 1_000_000_000 + millis * 1_000_000 + micros * 1_000 + nanos == d
            &&& millis < 1_000 && micros < 1_000 && nanos < 1_000
        }),
{
    let secs = d / 1_000_000_000;
    let millis = d % 1_000_000_000 / 1_000_000;
    let micros = d % 1_000_000 / 1_000;
    let nanos = d % 1_000;
    assert(secs * 1_000_000_000 + millis * 1_000_000 + micros * 1_000 + nanos == d) by (nonlinear_arith)
        requires
            secs == d / 1_000_000_000,
            millis == d % 1_000_000_000 / 1_000_000,
            micros == d % 1_000_000 / 1_000,
            nanos == d % 1_000,
    ;
}

/// A duration split into seconds, and the milli-, micro- and nanoseconds
/// left over.
pub struct PrettyDuration {
    pub secs: u64,
    pub millis: u64,
    pub micros: u64,
    pub nanos: u64,
}

impl PrettyDuration {
    /// Splits `d` nanoseconds.
    pub fn from_nanos(d: u64) -> (r: Self)
        ensures
            r.secs == d / 1_000_000_000,
            r.millis == d % 1_000_000_000 / 1_000_000,
            r.micros == d % 1_000_000 / 1_000,
            r.nanos == d % 1_000,
    {
        let secs = d / 1_000_000_000;
        let d1 = d - secs * 1_000_000_000;
        let millis = d1 / 1_000_000;
        let d2 = d1 - millis * 1_000_000;
        let micros = d2 / 1_000;
        let nanos = d2 - micros * 1_000;
        proof {
            assert(d1 == d % 1_000_000_000);
            assert(d2 == d % 1_000_000) by (nonlinear_arith)
                requires
                    d1 == d % 1_000_000_000,
                    millis == d1 / 1_000_000,
                    d2 == d1 - millis * 1_000_000,
            ;
            assert(nanos == d % 1_000) by (nonlinear_arith)
                requires
                    d2 == d % 1_000_000,
                    micros == d2 / 1_000,
                    nanos == d2 - micros * 1_000,
            ;
        }
        PrettyDuration { secs, millis, micros, nanos }
    }

    /// The duration as text: with one decimal in the largest unit that is
    /// not zero among s and ms, whole for µs and ns.
    pub fn to_text(&self) -> (r: String)
        ensures
            r@ == duration_text(*self),
    {
        let mut s = String::new();
        proof {
            reveal_strlit(".");
            reveal_strlit("s");
            reveal_strlit("ms");
            reveal_strlit("µs");
            reveal_strlit("ns");
        }
        if self.secs > 0 {
            push_decimal(&mut s, self.secs);
            s.append(".");
            push_decimal(&mut s, self.millis / 100);
            s.append("s");
        } else if self.millis > 0 {
            push_decimal(&mut s, self.millis);
            s.append(".");
            push_decimal(&mut s, self.micros / 100);
            s.append("ms");
        } else if self.micros > 0 {
            push_decimal(&mut s, self.micros);
            s.append("µs");
        } else {
            push_decimal(&mut s, self.nanos);
            s.append("ns");
        }
        s
    }
}

/// The text of a split duration.
pub open spec fn duration_text(p: PrettyDuration) -> Seq<char> {
    if p.secs > 0 {
        decimal(p.secs as nat) + seq!['.'] + decimal((p.millis / 100) as nat) + seq!['s']
    } else if p.millis > 0 {
        decimal(p.millis as nat) + seq!['.'] + decimal((p.micros / 100) as nat) + seq!['m', 's']
    } else if p.micros > 0 {
        decimal(p.micros as nat) + seq!['µ', 's']
    } else {
        decimal(p.nanos as nat) + seq!['n', 's']
    }
}

/// The text of `d` nanoseconds.
pub open spec fn nanos_text(d: u64) -> Seq<char> {
    duration_text(
        PrettyDuration {
            secs: d / 1_000_000_000,
            millis: d % 1_000_000_000 / 1_000_000,
            micros: d % 1_000_000 / 1_000,
            nanos: d % 1_000,
        },
    )
}

// ---------------------------------------------------------------------------
//  Merging traces
// ---------------------------------------------------------------------------

/// The traces of `s` stamped `t`, in their order in `s`.
pub open spec fn at_time(s: Seq<Trace>, t: u64) -> Seq<Trace>
    decreases s.len(),
{
    if s.len() == 0 {
        Seq::empty()
    } else {
        let r = at_time(s.drop_last(), t);
        if s.last().timestamp == t {
            r.push(s.last())
        } else {
            r
        }
    }
}

/// Timestamps never decrease along `s`.
pub open spec fn sorted_by_time(s: Seq<Trace>) -> bool {
    forall|i: int, j: int| 0 <= i <= j < s.len() ==> s[i].timestamp <= s[j].timestamp
}

/// `r` is `s` sorted by timestamp, traces with equal timestamps in the order
/// they have in `s`.
pub open spec fn stably_sorted(r: Seq<Trace>, s: Seq<Trace>) -> bool {
    &&& r.len() == s.len()
    &&& sorted_by_time(r)
    &&& forall|t: u64| #[trigger] at_time(r, t) == at_time(s, t)
}

/// The traces of all the lists, one list after the other.
pub open spec fn all_traces(ts: Seq<Vec<Trace>>) -> Seq<Trace>
    decreases ts.len(),
{
    if ts.len() == 0 {
        Seq::empty()
    } else {
        all_traces(ts.drop_last()) + ts.last()@
    }
}

/// The timestamp that trace `i` of `all` is measured from: that of the last
/// orphan at or before it, or of the first trace when there is none.
pub open spec fn tree_start(all: Seq<Trace>, i: int) -> u64
    decreases i + 1,
{
    if i < 0 {
        if all.len() > 0 {
            all[0].timestamp
        } else {
            0
        }
    } else if orphan(all[i]) {
        all[i].timestamp
    } else {
        tree_start(all, i - 1)
    }
}

/// The line that announces a new tree.
pub open spec fn new_tree_line() -> Seq<char> {
    seq!['\n', '#', '#', '#', ' ', 'n', 'e', 'w', ' ', 't', 'r', 'e', 'e', ' ', '#', '#', '#']
}

/// The line of trace `t`, `d` nanoseconds into its tree.
pub open spec fn trace_line(t: Trace, d: u64) -> Seq<char> {
    pad_left(nanos_text(d), 5) + seq![' '] + t.proc_name@ + seq!['.'] + t.label@
}

/// The report on the first `n` traces of `all`: each trace on a line of its
/// own, preceded by the new-tree line when it is an orphan.
pub open spec fn report_lines(all: Seq<Trace>, n: int) -> Seq<Seq<char>>
    decreases n,
{
    if n <= 0 {
        Seq::empty()
    } else {
        let prev = report_lines(all, n - 1);
        let t = all[n - 1];
        let head = if orphan(t) {
            prev.push(new_tree_line())
        } else {
            prev
        };
        head.push(trace_line(t, (t.timestamp - tree_start(all, n - 1)) as u64))
    }
}

/// The text of each string.
pub open spec fn texts(v: Seq<String>) -> Seq<Seq<char>> {
    v.map_values(|s: String| s@)
}

proof fn lemma_at_time_add(a: Seq<Trace>, b: Seq<Trace>, t: u64)
    ensures
        at_time(a + b, t) == at_time(a, t) + at_time(b, t),
    decreases b.len(),
{
    if b.len() == 0 {
        assert(a + b =~= a);
        assert(at_time(a, t) + Seq::empty() =~= at_time(a, t));
    } else {
        lemma_at_time_add(a, b.drop_last(), t);
        assert((a + b).drop_last() =~= a + b.drop_last());
        assert((a + b).last() == b.last());
        if b.last().timestamp == t {
            assert(at_time(a, t) + at_time(b.drop_last(), t).push(b.last()) =~= (at_time(a, t) + at_time(
                b.drop_last(),
                t,
            )).push(b.last()));
        }
    }
}

proof fn lemma_at_time_none(s: Seq<Trace>, t: u64)
    requires
        forall|i: int| 0 <= i < s.len() ==> #[trigger] s[i].timestamp != t,
    ensures
        at_time(s, t) == Seq::<Trace>::empty(),
    decreases s.len(),
{
    if s.len() > 0 {
        assert(s.last() == s[s.len() - 1]);
        lemma_at_time_none(s.drop_last(), t);
    }
}

proof fn lemma_all_traces_add(a: Seq<Vec<Trace>>, b: Seq<Vec<Trace>>)
    ensures
        all_traces(a + b) == all_traces(a) + all_traces(b),
    decreases b.len(),
{
    if b.len() == 0 {
        assert(a + b =~= a);
        assert(all_traces(a) + Seq::empty() =~= all_traces(a));
    } else {
        lemma_all_traces_add(a, b.drop_last());
        assert((a + b).drop_last() =~= a + b.drop_last());
        assert((a + b).last() == b.last());
        assert(all_traces(a) + all_traces(b.drop_last()) + b.last()@ =~= all_traces(a) + (all_traces(
            b.drop_last(),
        ) + b.last()@));
    }
}

/// Inserting `x` after every trace that is not later than it, and before the
/// later ones, keeps the order by time and puts `x` last among its equals.
proof fn lemma_insert_stable(r: Seq<Trace>, x: Trace, p: int)
    requires
        sorted_by_time(r),
        0 <= p <= r.len(),
        forall|q: int| 0 <= q < p ==> #[trigger] r[q].timestamp <= x.timestamp,
        forall|q: int| p <= q < r.len() ==> #[trigger] r[q].timestamp > x.timestamp,
    ensures
        sorted_by_time(r.insert(p, x)),
        forall|t: u64|
            #[trigger] at_time(r.insert(p, x), t) == if x.timestamp == t {
                at_time(r, t).push(x)
            } else {
                at_time(r, t)
            },
{
    let n = r.insert(p, x);
    assert(n =~= r.take(p) + seq![x] + r.skip(p));
    assert(r =~= r.take(p) + r.skip(p));
    assert forall|i: int, j: int| 0 <= i <= j < n.len() implies n[i].timestamp <= n[j].timestamp by {
        if i < p && j > p {
            assert(n[j] == r[j - 1]);
        } else if i > p {
            assert(n[i] == r[i - 1] && n[j] == r[j - 1]);
        } else if j < p {
            assert(n[i] == r[i] && n[j] == r[j]);
        }
    }
    assert forall|t: u64| #[trigger] at_time(n, t) == if x.timestamp == t {
        at_time(r, t).push(x)
    } else {
        at_time(r, t)
    } by {
        lemma_at_time_add(r.take(p) + seq![x], r.skip(p), t);
        lemma_at_time_add(r.take(p), seq![x], t);
        lemma_at_time_add(r.take(p), r.skip(p), t);
        assert(seq![x].drop_last() =~= Seq::<Trace>::empty());
        assert(at_time(Seq::<Trace>::empty(), t) == Seq::<Trace>::empty());
        assert(seq![x].last() == x);
        if x.timestamp == t {
            assert forall|i: int| 0 <= i < r.skip(p).len() implies #[trigger] r.skip(p)[i].timestamp != t by {
                assert(r.skip(p)[i] == r[p + i]);
            }
            lemma_at_time_none(r.skip(p), t);
            assert(at_time(r.take(p), t) + seq![x] =~= at_time(r.take(p), t).push(x));
            assert(at_time(r.take(p), t) + Seq::empty() =~= at_time(r.take(p), t));
            assert(at_time(r.take(p), t).push(x) + Seq::empty() =~= at_time(r.take(p), t).push(x));
        } else {
            assert(at_time(r.take(p), t) + Seq::empty() =~= at_time(r.take(p), t));
        }
    }
}

/// All the traces of `traces`, sorted by timestamp; traces with equal
/// timestamps keep the order they had (list by list, then within a list).
pub fn sort_traces(traces: Vec<Vec<Trace>>) -> (r: Vec<Trace>)
    ensures
        stably_sorted(r@, all_traces(traces@)),
{
    let ghost lists = traces@;
    let mut traces = traces;
    let mut all: Vec<Trace> = Vec::new();
    let ghost mut k: int = 0;
    proof {
        assert(lists.take(0) =~= Seq::<Vec<Trace>>::empty());
    }
    while traces.len() > 0
        invariant
            0 <= k <= lists.len(),
            traces@ == lists.skip(k),
            all@ == all_traces(lists.take(k)),
        decreases traces@.len(),
    {
        let mut t = traces.remove(0);
        proof {
            assert(t == lists[k]);
            assert(lists.take(k + 1).drop_last() =~= lists.take(k));
        }
        all.append(&mut t);
        proof {
            k = k + 1;
            assert(traces@ =~= lists.skip(k));
        }
    }
    proof {
        assert(lists.take(k) =~= lists);
    }
    let ghost src = all@;
    let mut sorted: Vec<Trace> = Vec::new();
    let ghost mut m: int = 0;
    proof {
        assert(src.take(0) =~= Seq::<Trace>::empty());
    }
    while all.len() > 0
        invariant
            0 <= m <= src.len(),
            all@ == src.skip(m),
            stably_sorted(sorted@, src.take(m)),
        decreases all@.len(),
    {
        let x = all.remove(0);
        let mut p: usize = 0;
        while p < sorted.len() && sorted[p].timestamp <= x.timestamp
            invariant
                p <= sorted@.len(),
                forall|q: int| 0 <= q < p ==> #[trigger] sorted@[q].timestamp <= x.timestamp,
            decreases sorted@.len() - p,
        {
            p += 1;
        }
        let ghost before = sorted@;
        proof {
            assert forall|q: int| p <= q < before.len() implies #[trigger] before[q].timestamp > x.timestamp by {
                assert(before[p as int].timestamp > x.timestamp);
                assert(before[p as int].timestamp <= before[q].timestamp);
            }
            lemma_insert_stable(before, x, p as int);
        }
        sorted.insert(p, x);
        proof {
            assert(x == src[m]);
            assert(src.take(m + 1).drop_last() =~= src.take(m));
            m = m + 1;
            assert(all@ =~= src.skip(m));
            assert forall|t: u64| #[trigger] at_time(sorted@, t) == at_time(src.take(m), t) by {
                assert(src.take(m).last() == x);
            }
        }
    }
    proof {
        assert(src.take(m) =~= src);
    }
    sorted
}

/// `tree_start(all, i)` is the timestamp of a trace at or before `i`.
proof fn lemma_tree_start(all: Seq<Trace>, i: int) -> (idx: int)
    requires
        all.len() > 0,
        i < all.len(),
    ensures
        0 <= idx <= (if i < 0 {
            0
        } else {
            i
        }),
        tree_start(all, i) == all[idx].timestamp,
    decreases i + 1,
{
    if i < 0 {
        0
    } else if orphan(all[i]) {
        i
    } else {
        lemma_tree_start(all, i - 1)
    }
}

/// In traces sorted by time, each trace is measured from a start that is not
/// later than it, so the time since the start of its tree is never negative.
pub proof fn law_tree_start_not_later(all: Seq<Trace>, i: int)
    requires
        sorted_by_time(all),
        0 <= i < all.len(),
    ensures
        tree_start(all, i) <= all[i].timestamp,
{
    let idx = lemma_tree_start(all, i);
}

proof fn lemma_tree_start_is(all: Seq<Trace>, i: int, j: int)
    requires
        0 <= j <= i < all.len(),
        orphan(all[j]),
        forall|k: int| j < k <= i ==> !orphan(#[trigger] all[k]),
    ensures
        tree_start(all, i) == all[j].timestamp,
    decreases i - j,
{
    if i > j {
        lemma_tree_start_is(all, i - 1, j);
    }
}

proof fn lemma_tree_start_first(all: Seq<Trace>, i: int)
    requires
        0 <= i < all.len(),
        forall|k: int| 0 <= k <= i ==> !orphan(#[trigger] all[k]),
    ensures
        tree_start(all, i) == all[0].timestamp,
    decreases i + 1,
{
    if i >= 0 {
        if i > 0 {
            lemma_tree_start_first(all, i - 1);
        } else {
            assert(!orphan(all[0]));
            assert(tree_start(all, -1) == all[0].timestamp);
        }
    }
}

/// In the report on the first `n` traces, the line of the last one is
/// measured from the last orphan at or before it (itself, when it is one),
/// not from the trace just before it; with no orphan, from the first trace.
/// An orphan's line follows a new-tree line.
pub proof fn law_report_line_from_tree_start(all: Seq<Trace>, n: int)
    requires
        1 <= n <= all.len(),
    ensures
        forall|j: int|
            0 <= j < n && orphan(#[trigger] all[j]) && (forall|k: int| j < k < n ==> !orphan(#[trigger] all[k]))
                ==> report_lines(all, n).last() == trace_line(
                all[n - 1],
                (all[n - 1].timestamp - all[j].timestamp) as u64,
            ),
        (forall|k: int| 0 <= k < n ==> !orphan(#[trigger] all[k])) ==> report_lines(all, n).last()
            == trace_line(all[n - 1], (all[n - 1].timestamp - all[0].timestamp) as u64),
        orphan(all[n - 1]) ==> report_lines(all, n).len() >= 2 && report_lines(all, n)[report_lines(
            all,
            n,
        ).len() - 2] == new_tree_line(),
{
    assert forall|j: int|
        0 <= j < n && orphan(#[trigger] all[j]) && (forall|k: int| j < k < n ==> !orphan(#[trigger] all[k]))
            implies report_lines(all, n).last() == trace_line(
            all[n - 1],
            (all[n - 1].timestamp - all[j].timestamp) as u64,
        ) by {
        lemma_tree_start_is(all, n - 1, j);
    }
    if forall|k: int| 0 <= k < n ==> !orphan(#[trigger] all[k]) {
        lemma_tree_start_first(all, n - 1);
    }
}

/// A duration reads in the largest unit that is not zero: whole seconds and
/// tenths from one second on, whole milliseconds and tenths from one
/// millisecond on, whole microseconds from one microsecond on, otherwise
/// nanoseconds.
pub proof fn law_duration_text_units(d: u64)
    ensures
        d >= 1_000_000_000 ==> nanos_text(d) == decimal((d / 1_000_000_000) as nat) + seq!['.'] + decimal(
            ((d % 1_000_000_000) / 100_000_000) as nat,
        ) + seq!['s'],
        1_000_000 <= d < 1_000_000_000 ==> nanos_text(d) == decimal((d / 1_000_000) as nat) + seq!['.']
            + decimal(((d % 1_000_000) / 100_000) as nat) + seq!['m', 's'],
        1_000 <= d < 1_000_000 ==> nanos_text(d) == decimal((d / 1_000) as nat) + seq!['µ', 's'],
        d < 1_000 ==> nanos_text(d) == decimal(d as nat) + seq!['n', 's'],
{
    let millis = d % 1_000_000_000 / 1_000_000;
    let micros = d % 1_000_000 / 1_000;
    assert(millis / 100 == (d % 1_000_000_000) / 100_000_000) by (nonlinear_arith)
        requires
            millis == d % 1_000_000_000 / 1_000_000,
    ;
    assert(micros / 100 == (d % 1_000_000) / 100_000) by (nonlinear_arith)
        requires
            micros == d % 1_000_000 / 1_000,
    ;
}

/// The report on `all`, sorted by time: each trace on a line of its own,
/// with the time since the start of its tree, its process and its label; a
/// new-tree line precedes each orphan.
pub fn trace_report(all: &Vec<Trace>) -> (r: Vec<String>)
    requires
        sorted_by_time(all@),
    ensures
        texts(r@) == report_lines(all@, all@.len() as int),
{
    let mut base_t: u64 = if all.len() > 0 {
        all[0].timestamp
    } else {
        0
    };
    let mut lines: Vec<String> = Vec::new();
    let mut i: usize = 0;
    proof {
        reveal_strlit("\n### new tree ###");
        reveal_strlit(" ");
        reveal_strlit(".");
        assert(texts(lines@) =~= Seq::<Seq<char>>::empty());
    }
    while i < all.len()
        invariant
            i <= all@.len(),
            sorted_by_time(all@),
            all@.len() > 0 ==> base_t == tree_start(all@, i - 1),
            texts(lines@) == report_lines(all@, i as int),
        decreases all@.len() - i,
    {
        let t = &all[i];
        let ghost before = lines@;
        proof {
            reveal_strlit("\n### new tree ###");
            reveal_strlit(" ");
            reveal_strlit(".");
        }
        if t.is_orphan() {
            base_t = t.timestamp;
            let header = String::from_str("\n### new tree ###");
            assert(header@ =~= new_tree_line());
            lines.push(header);
            assert(texts(lines@) =~= texts(before).push(new_tree_line()));
        }
        proof {
            let idx = lemma_tree_start(all@, i as int);
            assert(all@[idx].timestamp <= all@[i as int].timestamp);
        }
        assert(base_t == tree_start(all@, i as int));
        let d = PrettyDuration::from_nanos(t.timestamp - base_t);
        let text = d.to_text();
        assert(text@ == nanos_text((t.timestamp - base_t) as u64));
        let mut line = pad_left_to(&text, 5);
        line.append(" ");
        line.append(t.proc_name.as_str());
        line.append(".");
        line.append(t.label.as_str());
        let ghost mid = lines@;
        lines.push(line);
        proof {
            assert(line@ =~= trace_line(*t, (t.timestamp - base_t) as u64));
            assert(texts(lines@) =~= texts(mid).push(line@));
            if orphan(*t) {
                assert(texts(mid) =~= texts(before).push(new_tree_line()));
            }
        }
        i += 1;
    }
    lines
}

} // verus!
