//! Durable event records and the text framing of the append-only log.
//!
//! A log is plain text: each record is a blank-line-separated block whose
//! first non-blank line is the event name and whose following non-blank
//! lines are the data fields, every line taken trimmed.

use vstd::prelude::*;
use crate::text::trim_spec;
use crate::text::trim;

verus! {

/// One durable log record: a name and its ordered data fields.
pub struct Event {
    pub name: String,
    pub data: Vec<String>,
}

/// Mathematical model of an `Event`.
pub ghost struct EventView {
    pub name: Seq<char>,
    pub data: Seq<Seq<char>>,
}

impl View for Event {
    type V = EventView;

    open spec fn view(&self) -> EventView {
        EventView { name: self.name@, data: self.data.deep_view() }
    }
}

impl DeepView for Event {
    type V = EventView;

    open spec fn deep_view(&self) -> EventView {
        self@
    }
}

impl Event {
    /// An empty, not yet valid record.
    pub fn new() -> (r: Self)
        ensures
            r@.name == Seq::<char>::empty(),
            r@.data == Seq::<Seq<char>>::empty(),
    {
        let r = Event { name: String::new(), data: Vec::new() };
        proof {
            assert(r@.data =~= Seq::<Seq<char>>::empty());
        }
        r
    }

    /// A record is valid exactly when its name is non-empty.
    pub fn valid(self: &Self) -> (r: bool)
        ensures
            r == (self@.name.len() > 0),
    {
        !self.name.as_str().is_empty()
    }
}

/// Index of the first newline in `s`, or `s.len()` if there is none.
pub open spec fn first_nl(s: Seq<char>) -> nat
    decreases s.len(),
{
    if s.len() == 0 {
        0
    } else if s[0] == '\n' {
        0
    } else {
        1 + first_nl(s.drop_first())
    }
}

/// The lines of `s`, split on newline; a trailing newline does not open
/// a final empty line, matching line-by-line reading of a file.
pub open spec fn split_lines(s: Seq<char>) -> Seq<Seq<char>>
    decreases s.len(),
{
    if s.len() == 0 {
        Seq::empty()
    } else {
        let i = first_nl(s) as int;
        if i >= s.len() {
            seq![s]
        } else {
            seq![s.subrange(0, i)] + split_lines(s.subrange(i + 1, s.len() as int))
        }
    }
}

proof fn lemma_first_nl_at(s: Seq<char>, k: int)
    requires
        0 <= k <= s.len(),
        forall|j: int| 0 <= j < k ==> s[j] != '\n',
        k == s.len() || s[k] == '\n',
    ensures
        first_nl(s) == k,
    decreases s.len(),
{
    if s.len() == 0 {
    } else if k == 0 {
    } else {
        let t = s.drop_first();
        assert(forall|j: int| 0 <= j < k - 1 ==> t[j] != '\n');
        lemma_first_nl_at(t, k - 1);
    }
}

/// State of a left-to-right scan of the log's lines: records already
/// finished, and the record currently being gathered, if any.
pub ghost struct ScanState {
    pub done: Seq<EventView>,
    pub cur: Option<EventView>,
}

/// One line's effect on the scan: a blank line closes the open record,
/// a non-blank line opens a record or extends the open one with a data
/// field; blank lines between records are skipped.
pub open spec fn scan_line(st: ScanState, line: Seq<char>) -> ScanState {
    let t = trim_spec(line);
    match st.cur {
        Option::None => {
            if t.len() == 0 {
                st
            } else {
                ScanState { done: st.done, cur: Some(EventView { name: t, data: Seq::empty() }) }
            }
        },
        Option::Some(ev) => {
            if t.len() == 0 {
                ScanState { done: st.done.push(ev), cur: Option::None }
            } else {
                ScanState {
                    done: st.done,
                    cur: Some(EventView { name: ev.name, data: ev.data.push(t) }),
                }
            }
        },
    }
}

pub open spec fn scan_lines(st: ScanState, lines: Seq<Seq<char>>) -> ScanState
    decreases lines.len(),
{
    if lines.len() == 0 {
        st
    } else {
        scan_lines(scan_line(st, lines[0]), lines.drop_first())
    }
}

/// The records denoted by log text `s`: scan its lines, then close a
/// record still open at end of input.
pub open spec fn parse_log_spec(s: Seq<char>) -> Seq<EventView> {
    let st = scan_lines(
        ScanState { done: Seq::empty(), cur: Option::None },
        split_lines(s),
    );
    match st.cur {
        Option::Some(ev) => st.done.push(ev),
        Option::None => st.done,
    }
}

proof fn lemma_scan_cons(st: ScanState, x: Seq<char>, rest: Seq<Seq<char>>)
    ensures
        scan_lines(st, seq![x] + rest) == scan_lines(scan_line(st, x), rest),
{
    let lines = seq![x] + rest;
    assert(lines[0] == x);
    assert(lines.drop_first() =~= rest);
}

/// Spec-level view of the record under construction.
pub open spec fn cur_view(cur: &Option<Event>) -> Option<EventView> {
    match cur {
        Option::Some(ev) => Some(ev@),
        Option::None => Option::None,
    }
}

/// Decode log text into the records it holds. Lines are trimmed; blank
/// lines separate records; the first non-blank line of a record is its
/// name and the rest are its data fields; a record never starts on a
/// blank line, so every decoded record has a non-empty name.
pub fn read_text(text: &str) -> (events: Vec<Event>)
    ensures
        events.deep_view() == parse_log_spec(text@),
{
    let n = text.unicode_len();
    let mut events: Vec<Event> = Vec::new();
    let mut cur: Option<Event> = Option::None;
    let mut pos: usize = 0;
    let ghost init = ScanState { done: Seq::empty(), cur: Option::None };
    let ghost target = scan_lines(init, split_lines(text@));
    proof {
        assert(text@.subrange(0, n as int) =~= text@);
        assert(events.deep_view() =~= Seq::<EventView>::empty());
        assert(ScanState { done: events.deep_view(), cur: cur_view(&cur) } == init);
    }
    while pos < n
        invariant
            pos <= n,
            n == text@.len(),
            scan_lines(
                ScanState { done: events.deep_view(), cur: cur_view(&cur) },
                split_lines(text@.subrange(pos as int, n as int)),
            ) == target,
        decreases n - pos,
    {
        let ghost st0 = ScanState { done: events.deep_view(), cur: cur_view(&cur) };
        let mut e: usize = pos;
        while e < n && !(text.get_char(e) == '\n')
            invariant
                pos <= e <= n,
                n == text@.len(),
                forall|j: int| pos <= j < e ==> text@[j] != '\n',
            decreases n - e,
        {
            e = e + 1;
        }
        let line = text.substring_char(pos, e);
        proof {
            let rem = text@.subrange(pos as int, n as int);
            assert(forall|j: int| 0 <= j < e - pos ==> rem[j] != '\n');
            if e < n {
                assert(rem[e - pos] == '\n');
            }
            lemma_first_nl_at(rem, e - pos);
            if e < n {
                assert(rem.subrange(0, e - pos) =~= line@);
                assert(rem.subrange(e - pos + 1, rem.len() as int) =~= text@.subrange(
                    e as int + 1,
                    n as int,
                ));
                assert(split_lines(rem) == seq![line@] + split_lines(
                    text@.subrange(e as int + 1, n as int),
                ));
                lemma_scan_cons(st0, line@, split_lines(text@.subrange(e as int + 1, n as int)));
            } else {
                assert(rem =~= line@);
                assert(split_lines(rem) == seq![line@]);
                lemma_scan_cons(st0, line@, Seq::empty());
                assert(seq![line@] + Seq::<Seq<char>>::empty() =~= seq![line@]);
                assert(text@.subrange(n as int, n as int) =~= Seq::<char>::empty());
            }
        }
        let t = trim(line);
        let prev = cur;
        cur = Option::None;
        match prev {
            Option::None => {
                if !t.is_empty() {
                    let ev = Event { name: t.to_owned(), data: Vec::new() };
                    proof {
                        assert(ev@.data =~= Seq::<Seq<char>>::empty());
                    }
                    cur = Some(ev);
                }
            },
            Option::Some(ev) => {
                if t.is_empty() {
                    events.push(ev);
                    proof {
                        assert(events.deep_view() =~= st0.done.push(ev@));
                    }
                } else {
                    let mut ev2 = ev;
                    let ghost ev_v = ev2@;
                    ev2.data.push(t.to_owned());
                    proof {
                        assert(ev2@.data =~= ev_v.data.push(t@));
                    }
                    cur = Some(ev2);
                }
            },
        }
        proof {
            assert(ScanState { done: events.deep_view(), cur: cur_view(&cur) } == scan_line(
                st0,
                line@,
            ));
        }
        if e < n {
            pos = e + 1;
        } else {
            pos = n;
        }
    }
    proof {
        assert(text@.subrange(n as int, n as int) =~= Seq::<char>::empty());
    }
    if let Option::Some(ev) = cur {
        events.push(ev);
        proof {
            assert(events.deep_view() =~= target.done.push(ev@));
        }
    }
    events
}

/// The wire form of one record: a blank line, the name line, then one
/// line per data field.
pub open spec fn serialize_event_spec(e: EventView) -> Seq<char> {
    seq!['\n'] + e.name + seq!['\n'] + serialize_data_spec(e.data)
}

pub open spec fn serialize_data_spec(data: Seq<Seq<char>>) -> Seq<char>
    decreases data.len(),
{
    if data.len() == 0 {
        Seq::empty()
    } else {
        serialize_data_spec(data.drop_last()) + data.last() + seq!['\n']
    }
}

/// The wire form of a batch of records, in order.
pub open spec fn serialize_events_spec(events: Seq<EventView>) -> Seq<char>
    decreases events.len(),
{
    if events.len() == 0 {
        Seq::empty()
    } else {
        serialize_events_spec(events.drop_last()) + serialize_event_spec(events.last())
    }
}

/// Encode a batch of records as log text, ready to be appended to the
/// log file in one write.
pub fn serialize_events(events: &Vec<Event>) -> (r: String)
    ensures
        r@ == serialize_events_spec(events.deep_view()),
{
    let ghost hv = events.deep_view();
    let mut buffer = String::new();
    proof {
        reveal_strlit("\n");
        assert("\n"@ =~= seq!['\n']);
        assert(hv.subrange(0, 0) =~= Seq::<EventView>::empty());
    }
    let mut i: usize = 0;
    while i < events.len()
        invariant
            i <= events@.len(),
            hv == events.deep_view(),
            hv.len() == events@.len(),
            "\n"@ =~= seq!['\n'],
            buffer@ == serialize_events_spec(hv.subrange(0, i as int)),
        decreases events@.len() - i,
    {
        let ev = &events[i];
        let ghost pre = buffer@;
        buffer.append("\n");
        buffer.append(ev.name.as_str());
        buffer.append("\n");
        proof {
            assert(ev@ == hv[i as int]);
            assert(hv[i as int].data.subrange(0, 0) =~= Seq::<Seq<char>>::empty());
        }
        let mut j: usize = 0;
        while j < ev.data.len()
            invariant
                j <= ev.data@.len(),
                ev@ == hv[i as int],
                "\n"@ =~= seq!['\n'],
                buffer@ == pre + seq!['\n'] + hv[i as int].name + seq!['\n'] + serialize_data_spec(
                    hv[i as int].data.subrange(0, j as int),
                ),
            decreases ev.data@.len() - j,
        {
            buffer.append(ev.data[j].as_str());
            buffer.append("\n");
            proof {
                let dv = hv[i as int].data;
                assert(dv.subrange(0, j as int + 1).drop_last() =~= dv.subrange(0, j as int));
                assert(dv.subrange(0, j as int + 1).last() == dv[j as int]);
                assert(ev.data@[j as int]@ == dv[j as int]);
                assert(buffer@ =~= pre + seq!['\n'] + hv[i as int].name + seq!['\n']
                    + serialize_data_spec(dv.subrange(0, j as int + 1)));
            }
            j = j + 1;
        }
        proof {
            let dv = hv[i as int].data;
            assert(dv.subrange(0, dv.len() as int) =~= dv);
            assert(hv.subrange(0, i as int + 1).drop_last() =~= hv.subrange(0, i as int));
            assert(hv.subrange(0, i as int + 1).last() == hv[i as int]);
            assert(buffer@ =~= serialize_events_spec(hv.subrange(0, i as int))
                + serialize_event_spec(hv[i as int]));
        }
        i = i + 1;
    }
    proof {
        assert(hv.subrange(0, hv.len() as int) =~= hv);
    }
    buffer
}

/// A line the framing keeps intact: non-blank, already trimmed, and
/// holding no newline.
pub open spec fn framed_line(l: Seq<char>) -> bool {
    l.len() > 0 && trim_spec(l) == l && (forall|j: int| 0 <= j < l.len() ==> l[j] != '\n')
}

/// A record the framing can round-trip: its name and every data field
/// are framed lines.
pub open spec fn framed_event(e: EventView) -> bool {
    framed_line(e.name) && (forall|j: int|
        0 <= j < e.data.len() ==> framed_line(#[trigger] e.data[j]))
}

proof fn lemma_first_nl_facts(s: Seq<char>)
    ensures
        first_nl(s) <= s.len(),
        forall|j: int| 0 <= j < first_nl(s) ==> s[j] != '\n',
        first_nl(s) < s.len() ==> s[first_nl(s) as int] == '\n',
    decreases s.len(),
{
    if s.len() == 0 {
    } else if s[0] == '\n' {
    } else {
        let t = s.drop_first();
        lemma_first_nl_facts(t);
        assert(forall|j: int| 1 <= j < first_nl(s) ==> s[j] == t[j - 1]);
    }
}

proof fn lemma_split_concat(a: Seq<char>, b: Seq<char>)
    requires
        a.len() > 0,
        a.last() == '\n',
    ensures
        split_lines(a + b) =~= split_lines(a) + split_lines(b),
    decreases a.len(),
{
    lemma_first_nl_facts(a);
    let i = first_nl(a) as int;
    assert(i < a.len());
    let c = a + b;
    assert(forall|j: int| 0 <= j < i ==> c[j] != '\n');
    assert(c[i] == '\n');
    lemma_first_nl_at(c, i);
    assert(c.subrange(0, i) =~= a.subrange(0, i));
    let a2 = a.subrange(i + 1, a.len() as int);
    assert(c.subrange(i + 1, c.len() as int) =~= a2 + b);
    if a2.len() == 0 {
        assert(a2 + b =~= b);
        assert(split_lines(a) =~= seq![a.subrange(0, i)]);
    } else {
        assert(a2.last() == a.last());
        lemma_split_concat(a2, b);
    }
}

proof fn lemma_scan_append(st: ScanState, xs: Seq<Seq<char>>, ys: Seq<Seq<char>>)
    ensures
        scan_lines(st, xs + ys) == scan_lines(scan_lines(st, xs), ys),
    decreases xs.len(),
{
    if xs.len() == 0 {
        assert(xs + ys =~= ys);
    } else {
        assert((xs + ys)[0] == xs[0]);
        assert((xs + ys).drop_first() =~= xs.drop_first() + ys);
        lemma_scan_append(scan_line(st, xs[0]), xs.drop_first(), ys);
    }
}

proof fn lemma_split_ser_data(data: Seq<Seq<char>>)
    requires
        forall|j: int| 0 <= j < data.len() ==> framed_line(#[trigger] data[j]),
    ensures
        split_lines(serialize_data_spec(data)) =~= data,
        serialize_data_spec(data).len() > 0 ==> serialize_data_spec(data).last() == '\n',
        serialize_data_spec(data).len() == 0 ==> data.len() == 0,
    decreases data.len(),
{
    if data.len() == 0 {
    } else {
        let pre = data.drop_last();
        lemma_split_ser_data(pre);
        let d = data.last();
        let chunk = d + seq!['\n'];
        assert(forall|j: int| 0 <= j < d.len() ==> chunk[j] != '\n');
        assert(chunk[d.len() as int] == '\n');
        lemma_first_nl_at(chunk, d.len() as int);
        assert(chunk.subrange(0, d.len() as int) =~= d);
        assert(chunk.subrange(d.len() as int + 1, chunk.len() as int) =~= Seq::<char>::empty());
        assert(split_lines(chunk.subrange(d.len() as int + 1, chunk.len() as int)) =~= Seq::<
            Seq<char>,
        >::empty());
        assert(split_lines(chunk) =~= seq![d]);
        let a = serialize_data_spec(pre);
        assert(serialize_data_spec(data) =~= a + chunk);
        if pre.len() == 0 {
            assert(a + chunk =~= chunk);
            assert(data =~= seq![d]);
        } else {
            assert(a.len() > 0);
            lemma_split_concat(a, chunk);
            assert(split_lines(a) + split_lines(chunk) =~= data);
        }
        assert(serialize_data_spec(data).last() == '\n');
    }
}

proof fn lemma_split_ser_event(e: EventView)
    requires
        framed_event(e),
    ensures
        split_lines(serialize_event_spec(e)) =~= seq![Seq::<char>::empty()] + seq![e.name]
            + e.data,
        serialize_event_spec(e).len() > 0,
        serialize_event_spec(e).last() == '\n',
{
    let nl = seq!['\n'];
    let head = e.name + nl;
    let tail = serialize_data_spec(e.data);
    lemma_split_ser_data(e.data);
    let ser = serialize_event_spec(e);
    assert(ser =~= nl + (head + tail));
    assert(split_lines(nl) =~= seq![Seq::<char>::empty()]) by {
        assert(nl.subrange(0, 0) =~= Seq::<char>::empty());
        assert(nl.subrange(1, 1) =~= Seq::<char>::empty());
        assert(split_lines(nl.subrange(1, 1)) =~= Seq::<Seq<char>>::empty());
    }
    lemma_split_concat(nl, head + tail);
    assert(forall|j: int| 0 <= j < e.name.len() ==> head[j] != '\n');
    assert(head[e.name.len() as int] == '\n');
    lemma_first_nl_at(head, e.name.len() as int);
    assert(head.subrange(0, e.name.len() as int) =~= e.name);
    assert(head.subrange(e.name.len() as int + 1, head.len() as int) =~= Seq::<char>::empty());
    assert(split_lines(head.subrange(e.name.len() as int + 1, head.len() as int)) =~= Seq::<
        Seq<char>,
    >::empty());
    assert(split_lines(head) =~= seq![e.name]);
    assert(head.last() == '\n');
    lemma_split_concat(head, tail);
    assert(split_lines(ser) =~= seq![Seq::<char>::empty()] + (seq![e.name] + split_lines(tail)));
    if tail.len() == 0 {
        assert(e.data.len() == 0);
        assert(ser.last() == head.last());
    } else {
        assert(ser.last() == tail.last());
    }
}

proof fn lemma_scan_data_lines(st: ScanState, ev: EventView, data: Seq<Seq<char>>)
    requires
        st.cur == Some(ev),
        forall|j: int| 0 <= j < data.len() ==> framed_line(#[trigger] data[j]),
    ensures
        scan_lines(st, data) == (ScanState {
            done: st.done,
            cur: Some(EventView { name: ev.name, data: ev.data + data }),
        }),
    decreases data.len(),
{
    if data.len() == 0 {
        assert(ev.data + data =~= ev.data);
        assert(EventView { name: ev.name, data: ev.data + data } == ev);
    } else {
        let d0 = data[0];
        assert(framed_line(d0));
        let ev2 = EventView { name: ev.name, data: ev.data.push(d0) };
        assert(scan_line(st, d0) == ScanState { done: st.done, cur: Some(ev2) });
        lemma_scan_data_lines(
            ScanState { done: st.done, cur: Some(ev2) },
            ev2,
            data.drop_first(),
        );
        assert(ev.data.push(d0) + data.drop_first() =~= ev.data + data);
    }
}

proof fn lemma_scan_event_lines(st: ScanState, e: EventView)
    requires
        framed_event(e),
    ensures
        scan_lines(st, seq![Seq::<char>::empty()] + seq![e.name] + e.data) == (ScanState {
            done: match st.cur {
                Option::Some(p) => st.done.push(p),
                Option::None => st.done,
            },
            cur: Some(e),
        }),
{
    let blank = Seq::<char>::empty();
    let lines = seq![blank] + seq![e.name] + e.data;
    assert(trim_spec(blank).len() == 0);
    let st1 = scan_line(st, blank);
    let opened = EventView { name: e.name, data: Seq::empty() };
    let st2 = scan_line(st1, e.name);
    assert(st2 == ScanState { done: st1.done, cur: Some(opened) });
    lemma_scan_data_lines(st2, opened, e.data);
    assert(Seq::<Seq<char>>::empty() + e.data =~= e.data);
    assert(EventView { name: e.name, data: Seq::<Seq<char>>::empty() + e.data } == e);
    assert(lines =~= seq![blank] + (seq![e.name] + e.data));
    lemma_scan_cons(st, blank, seq![e.name] + e.data);
    lemma_scan_cons(st1, e.name, e.data);
}

proof fn lemma_scan_ser_events(events: Seq<EventView>)
    requires
        forall|k: int| 0 <= k < events.len() ==> framed_event(#[trigger] events[k]),
    ensures
        scan_lines(
            ScanState { done: Seq::empty(), cur: Option::None },
            split_lines(serialize_events_spec(events)),
        ) == (if events.len() == 0 {
            (ScanState { done: Seq::<EventView>::empty(), cur: Option::<EventView>::None })
        } else {
            (ScanState { done: events.drop_last(), cur: Some(events.last()) })
        }),
        events.len() > 0 ==> serialize_events_spec(events).len() > 0,
        events.len() > 0 ==> serialize_events_spec(events).last() == '\n',
    decreases events.len(),
{
    let init = ScanState { done: Seq::<EventView>::empty(), cur: Option::<EventView>::None };
    if events.len() == 0 {
        assert(split_lines(serialize_events_spec(events)) =~= Seq::<Seq<char>>::empty());
    } else {
        let pre = events.drop_last();
        lemma_scan_ser_events(pre);
        let e = events.last();
        assert(framed_event(e));
        lemma_split_ser_event(e);
        let a = serialize_events_spec(pre);
        let c = serialize_event_spec(e);
        assert(serialize_events_spec(events) == a + c);
        if pre.len() == 0 {
            assert(a + c =~= c);
            lemma_scan_event_lines(init, e);
            assert(pre =~= Seq::<EventView>::empty());
        } else {
            lemma_split_concat(a, c);
            lemma_scan_append(init, split_lines(a), split_lines(c));
            let mid = scan_lines(init, split_lines(a));
            lemma_scan_event_lines(mid, e);
            assert(pre.drop_last().push(pre.last()) =~= pre);
        }
        assert(serialize_events_spec(events).last() == c.last());
    }
}

/// Durability round trip: a batch of framed records, written by the
/// serializer, is read back verbatim by the log parser.
pub proof fn lemma_log_round_trip(events: Seq<EventView>)
    requires
        forall|k: int| 0 <= k < events.len() ==> framed_event(#[trigger] events[k]),
    ensures
        parse_log_spec(serialize_events_spec(events)) == events,
{
    lemma_scan_ser_events(events);
    if events.len() == 0 {
        assert(parse_log_spec(serialize_events_spec(events)) =~= events);
    } else {
        assert(events.drop_last().push(events.last()) =~= events);
    }
}

} // verus!
