//! The interactive layer's logic: the line parser, the event codec,
//! replay of a log into a fresh state, and the per-command step of the
//! read-eval loop.

use vstd::prelude::*;
use crate::application::AppCmd;
use crate::application::AppCmdView;
use crate::domain::DomainCmd;
use crate::domain::DomainCmdView;
use crate::domain::TodoDomain;
use crate::domain::TodoItemView;
use crate::domain::apply_cmd;
use crate::infra::Event;
use crate::infra::EventView;
use crate::text::dec_digits;
use crate::text::dec_parses;
use crate::text::num_parses;
use crate::text::num_val;
use crate::text::plus_stripped;
use crate::text::is_digit_char;
use crate::text::is_space_char;
use crate::text::lemma_dec_digits_are_digits;
use crate::text::lemma_dec_val_of_digits;
use crate::text::parse_dec;
use crate::text::str_eq;
use crate::text::to_dec_string;
use crate::text::trim;
use crate::text::trim_spec;
use crate::text::trim_start_spec;
use crate::text::trim_end_spec;

verus! {

/// Whether `s` opens with the two-character prefix `c` then `:`.
pub open spec fn has_prefix(s: Seq<char>, c: char) -> bool {
    s.len() >= 2 && s[0] == c && s[1] == ':'
}

/// What one raw input line means. A `q:`/`Q:` line quits whatever
/// follows; `a:` adds its trimmed remainder, which must be non-empty;
/// `t:` removes the index its trimmed remainder denotes in base 10;
/// anything else is no command.
pub open spec fn parse_command_spec(s: Seq<char>) -> AppCmdView {
    if has_prefix(s, 'q') || has_prefix(s, 'Q') {
        AppCmdView::Quit
    } else if has_prefix(s, 'a') {
        let t = trim_spec(s.subrange(2, s.len() as int));
        if t.len() > 0 {
            AppCmdView::Add(t)
        } else {
            AppCmdView::AddMissingText
        }
    } else if has_prefix(s, 't') {
        let t = trim_spec(s.subrange(2, s.len() as int));
        if num_parses(t) {
            AppCmdView::Toggle(num_val(t))
        } else {
            AppCmdView::ToggleMissingIndex
        }
    } else {
        AppCmdView::NoCommand
    }
}

/// Map one raw input line to its command; total, never fails.
pub fn parse_command(input: &String) -> (r: AppCmd)
    ensures
        r@ == parse_command_spec(input@),
{
    let s = input.as_str();
    let n = s.unicode_len();
    if n < 2 {
        return AppCmd::NoCommand;
    }
    let c0 = s.get_char(0);
    let c1 = s.get_char(1);
    if c1 != ':' {
        return AppCmd::NoCommand;
    }
    if c0 == 'q' || c0 == 'Q' {
        AppCmd::Quit
    } else if c0 == 'a' {
        let rest = s.substring_char(2, n);
        let t = trim(rest);
        if t.is_empty() {
            AppCmd::AddMissingText
        } else {
            AppCmd::Add(t.to_owned())
        }
    } else if c0 == 't' {
        let rest = s.substring_char(2, n);
        let t = trim(rest);
        match parse_dec(t) {
            Some(i) => AppCmd::Toggle(i),
            Option::None => AppCmd::ToggleMissingIndex,
        }
    } else {
        AppCmd::NoCommand
    }
}

/// What one log record means on replay: the command it decodes to, or
/// no command for an unknown name, missing data, or an unparseable
/// index, so that a corrupt record never halts replay.
pub open spec fn parse_event_spec(e: EventView) -> AppCmdView {
    if e.name == "AddV1"@ {
        if e.data.len() > 0 {
            AppCmdView::Add(e.data[0])
        } else {
            AppCmdView::NoCommand
        }
    } else if e.name == "ToggleV1"@ {
        if e.data.len() > 0 && num_parses(e.data[0]) {
            AppCmdView::Toggle(num_val(e.data[0]))
        } else {
            AppCmdView::NoCommand
        }
    } else {
        AppCmdView::NoCommand
    }
}

/// Decode one log record; total, never fails.
pub fn parse_event(event: &Event) -> (r: AppCmd)
    ensures
        r@ == parse_event_spec(event@),
{
    if str_eq(event.name.as_str(), "AddV1") {
        if event.data.len() > 0 {
            AppCmd::Add(event.data[0].clone())
        } else {
            AppCmd::NoCommand
        }
    } else if str_eq(event.name.as_str(), "ToggleV1") {
        if event.data.len() > 0 {
            match parse_dec(event.data[0].as_str()) {
                Some(i) => AppCmd::Toggle(i),
                Option::None => AppCmd::NoCommand,
            }
        } else {
            AppCmd::NoCommand
        }
    } else {
        AppCmd::NoCommand
    }
}

/// The wire record for a command: `Add` becomes an `AddV1` record
/// carrying the text, `Toggle` a `ToggleV1` record carrying the decimal
/// index.
pub open spec fn encode_cmd_spec(c: DomainCmdView) -> EventView {
    match c {
        DomainCmdView::Add(t) => EventView { name: "AddV1"@, data: seq![t] },
        DomainCmdView::Toggle(i) => EventView {
            name: "ToggleV1"@,
            data: seq![dec_digits(i as nat)],
        },
    }
}

/// Encode a command as the log record that persists it.
pub fn encode_event(cmd: &DomainCmd) -> (e: Event)
    ensures
        e@ == encode_cmd_spec(cmd@),
{
    match cmd {
        DomainCmd::Add(t) => {
            let mut data: Vec<String> = Vec::new();
            data.push(t.clone());
            let e = Event { name: String::from_str("AddV1"), data };
            proof {
                assert(e@.data =~= seq![t@]);
            }
            e
        },
        DomainCmd::Toggle(i) => {
            let mut data: Vec<String> = Vec::new();
            data.push(to_dec_string(*i));
            let e = Event { name: String::from_str("ToggleV1"), data };
            proof {
                assert(e@.data =~= seq![dec_digits(*i as nat)]);
            }
            e
        },
    }
}

/// One record's effect on the list during replay: apply the decoded
/// command, or leave the list alone when the record decodes to nothing.
pub open spec fn step_event(items: Seq<TodoItemView>, e: EventView) -> Seq<TodoItemView> {
    match parse_event_spec(e) {
        AppCmdView::Add(t) => apply_cmd(items, DomainCmdView::Add(t)),
        AppCmdView::Toggle(i) => apply_cmd(items, DomainCmdView::Toggle(i)),
        _ => items,
    }
}

/// The state reached by replaying a log from the empty list.
pub open spec fn replay_spec(events: Seq<EventView>) -> Seq<TodoItemView>
    decreases events.len(),
{
    if events.len() == 0 {
        Seq::empty()
    } else {
        step_event(replay_spec(events.drop_last()), events.last())
    }
}

/// Rebuild the state from a history of records, skipping records that
/// decode to nothing.
pub fn replay(history: &Vec<Event>) -> (d: TodoDomain)
    ensures
        d@ == replay_spec(history.deep_view()),
{
    let ghost hv = history.deep_view();
    let mut domain = TodoDomain::new();
    proof {
        assert(hv.subrange(0, 0) =~= Seq::<EventView>::empty());
    }
    let mut idx: usize = 0;
    while idx < history.len()
        invariant
            idx <= history@.len(),
            hv == history.deep_view(),
            hv.len() == history@.len(),
            domain@ == replay_spec(hv.subrange(0, idx as int)),
        decreases history@.len() - idx,
    {
        let cmd = parse_event(&history[idx]);
        proof {
            assert(history@[idx as int]@ == hv[idx as int]);
            assert(hv.subrange(0, idx as int + 1).drop_last() =~= hv.subrange(0, idx as int));
            assert(hv.subrange(0, idx as int + 1).last() == hv[idx as int]);
        }
        match cmd {
            AppCmd::Add(t) => {
                domain = domain.command(DomainCmd::Add(t));
            },
            AppCmd::Toggle(i) => {
                domain = domain.command(DomainCmd::Toggle(i));
            },
            _ => {},
        }
        idx = idx + 1;
    }
    proof {
        assert(hv.subrange(0, hv.len() as int) =~= hv);
    }
    domain
}

/// Spec-level view of an optional record.
pub open spec fn opt_event_view(o: Option<Event>) -> Option<EventView> {
    match o {
        Option::Some(e) => Some(e@),
        Option::None => Option::None,
    }
}

/// What the running loop owes for one parsed command: `Add` and
/// `Toggle` advance the state and yield the record to persist; every
/// other command leaves state and log alone.
pub open spec fn advance_post(
    items: Seq<TodoItemView>,
    c: AppCmdView,
    r_items: Seq<TodoItemView>,
    r_ev: Option<EventView>,
) -> bool {
    match c {
        AppCmdView::Add(t) => r_items == apply_cmd(items, DomainCmdView::Add(t)) && r_ev == Some(
            encode_cmd_spec(DomainCmdView::Add(t)),
        ),
        AppCmdView::Toggle(i) => r_items == apply_cmd(items, DomainCmdView::Toggle(i)) && r_ev
            == Some(encode_cmd_spec(DomainCmdView::Toggle(i))),
        _ => r_items == items && r_ev is None,
    }
}

/// The decision step of the running loop: given the current state and a
/// parsed command, the next state and the record to append before the
/// state is adopted. Rendering, reading input and writing the file stay
/// with the caller.
pub fn advance(domain: TodoDomain, cmd: AppCmd) -> (r: (TodoDomain, Option<Event>))
    ensures
        advance_post(domain@, cmd@, r.0@, opt_event_view(r.1)),
{
    match cmd {
        AppCmd::Add(t) => {
            let dc = DomainCmd::Add(t);
            let ev = encode_event(&dc);
            (domain.command(dc), Some(ev))
        },
        AppCmd::Toggle(i) => {
            let dc = DomainCmd::Toggle(i);
            let ev = encode_event(&dc);
            (domain.command(dc), Some(ev))
        },
        _ => (domain, Option::None),
    }
}

/// An `a:` line adds exactly its trimmed remainder, and is rejected as
/// missing text exactly when that remainder trims to nothing.
pub proof fn lemma_parse_add(t: Seq<char>)
    ensures
        trim_spec(t).len() > 0 ==> parse_command_spec(seq!['a', ':'] + t) == AppCmdView::Add(
            trim_spec(t),
        ),
        trim_spec(t).len() == 0 ==> parse_command_spec(seq!['a', ':'] + t)
            == AppCmdView::AddMissingText,
{
    let s = seq!['a', ':'] + t;
    assert(s[0] == 'a' && s[1] == ':');
    assert(s.subrange(2, s.len() as int) =~= t);
}

/// A `t:` line of one space and the decimal rendering of any index
/// toggles exactly that index.
pub proof fn lemma_parse_toggle(i: usize)
    ensures
        parse_command_spec(seq!['t', ':', ' '] + dec_digits(i as nat)) == AppCmdView::Toggle(
            i as int,
        ),
{
    let d = dec_digits(i as nat);
    lemma_dec_digits_are_digits(i as nat);
    lemma_dec_val_of_digits(i as nat);
    let s = seq!['t', ':', ' '] + d;
    assert(s[0] == 't' && s[1] == ':');
    let u = s.subrange(2, s.len() as int);
    assert(u =~= seq![' '] + d);
    assert(is_space_char(u[0]));
    assert(u.drop_first() =~= d);
    assert(is_digit_char(d[0]));
    assert(!is_space_char(d[0]));
    assert(trim_start_spec(u) == trim_start_spec(d));
    assert(trim_start_spec(d) == d);
    assert(is_digit_char(d.last()));
    assert(!is_space_char(d.last()));
    assert(trim_end_spec(d) == d);
    assert(trim_spec(u) == d);
    assert(d[0] != '+');
    assert(plus_stripped(d) == d);
    assert(dec_parses(d));
}

/// A `q:` or `Q:` line quits, whatever follows the prefix.
pub proof fn lemma_parse_quit(t: Seq<char>)
    ensures
        parse_command_spec(seq!['q', ':'] + t) == AppCmdView::Quit,
        parse_command_spec(seq!['Q', ':'] + t) == AppCmdView::Quit,
{
    let s = seq!['q', ':'] + t;
    assert(s[0] == 'q' && s[1] == ':');
    let s2 = seq!['Q', ':'] + t;
    assert(s2[0] == 'Q' && s2[1] == ':');
}

/// Round trip of the codec: a command encoded for the log decodes back
/// to the same command on replay, for `Add` and for `Toggle` of any
/// index a state can hold.
pub proof fn lemma_codec_round_trip(c: DomainCmdView)
    requires
        c matches DomainCmdView::Toggle(i) ==> 0 <= i <= usize::MAX as int,
    ensures
        c matches DomainCmdView::Add(t) ==> parse_event_spec(encode_cmd_spec(c))
            == AppCmdView::Add(t),
        c matches DomainCmdView::Toggle(i) ==> parse_event_spec(encode_cmd_spec(c))
            == AppCmdView::Toggle(i),
{
    reveal_strlit("AddV1");
    reveal_strlit("ToggleV1");
    assert("AddV1"@.len() == 5);
    assert("ToggleV1"@.len() == 8);
    match c {
        DomainCmdView::Add(t) => {
            let e = encode_cmd_spec(c);
            assert(e.data[0] == t);
        },
        DomainCmdView::Toggle(i) => {
            let e = encode_cmd_spec(c);
            assert(e.name != "AddV1"@);
            let d = dec_digits(i as nat);
            lemma_dec_digits_are_digits(i as nat);
            lemma_dec_val_of_digits(i as nat);
            assert(e.data[0] == d);
            assert(d[0] != '+');
            assert(plus_stripped(d) == d);
            assert(dec_parses(d));
        },
    }
}

/// Records the codec writes are framed, so the log round trip holds of
/// them: always for `Toggle`, and for `Add` whenever the text itself is
/// a framed line (non-blank, trimmed, newline-free), which is what the
/// parser hands over.
pub proof fn lemma_encode_framed(c: DomainCmdView)
    requires
        c matches DomainCmdView::Add(t) ==> crate::infra::framed_line(t),
        c matches DomainCmdView::Toggle(i) ==> 0 <= i,
    ensures
        crate::infra::framed_event(encode_cmd_spec(c)),
{
    reveal_strlit("AddV1");
    reveal_strlit("ToggleV1");
    match c {
        DomainCmdView::Add(t) => {
            let name = "AddV1"@;
            assert(!is_space_char(name[0]));
            assert(!is_space_char(name.last()));
            assert(trim_start_spec(name) == name);
            assert(trim_end_spec(name) == name);
            assert(forall|j: int| 0 <= j < name.len() ==> name[j] != '\n');
        },
        DomainCmdView::Toggle(i) => {
            let name = "ToggleV1"@;
            assert(!is_space_char(name[0]));
            assert(!is_space_char(name.last()));
            assert(trim_start_spec(name) == name);
            assert(trim_end_spec(name) == name);
            assert(forall|j: int| 0 <= j < name.len() ==> name[j] != '\n');
            let d = dec_digits(i as nat);
            lemma_dec_digits_are_digits(i as nat);
            assert(is_digit_char(d[0]));
            assert(!is_space_char(d[0]));
            assert(is_digit_char(d.last()));
            assert(!is_space_char(d.last()));
            assert(trim_start_spec(d) == d);
            assert(trim_end_spec(d) == d);
            assert(forall|j: int| 0 <= j < d.len() ==> d[j] != '\n');
        },
    }
}

/// Whether a record decodes to a state-changing command.
pub open spec fn decodes_ok(e: EventView) -> bool {
    parse_event_spec(e) is Add || parse_event_spec(e) is Toggle
}

/// The command a valid record decodes to; arbitrary on a record that
/// decodes to nothing.
pub open spec fn event_cmd(e: EventView) -> DomainCmdView
    recommends
        decodes_ok(e),
{
    match parse_event_spec(e) {
        AppCmdView::Add(t) => DomainCmdView::Add(t),
        AppCmdView::Toggle(i) => DomainCmdView::Toggle(i),
        _ => DomainCmdView::Toggle(-1),
    }
}

/// Commands applied directly in sequence, oldest first.
pub open spec fn apply_all(items: Seq<TodoItemView>, cmds: Seq<DomainCmdView>) -> Seq<
    TodoItemView,
>
    decreases cmds.len(),
{
    if cmds.len() == 0 {
        items
    } else {
        apply_cmd(apply_all(items, cmds.drop_last()), cmds.last())
    }
}

/// Replay idempotence: replaying a log of valid records from the empty
/// state yields exactly the state reached by applying the decoded
/// commands directly in sequence to the empty state.
pub proof fn lemma_replay_is_direct_apply(events: Seq<EventView>)
    requires
        forall|k: int| 0 <= k < events.len() ==> decodes_ok(#[trigger] events[k]),
    ensures
        replay_spec(events) == apply_all(
            Seq::<TodoItemView>::empty(),
            events.map_values(|e: EventView| event_cmd(e)),
        ),
    decreases events.len(),
{
    let f = |e: EventView| event_cmd(e);
    if events.len() == 0 {
        assert(events.map_values(f) =~= Seq::<DomainCmdView>::empty());
    } else {
        let pre = events.drop_last();
        lemma_replay_is_direct_apply(pre);
        assert(pre.map_values(f) =~= events.map_values(f).drop_last());
        assert(events.map_values(f).last() == event_cmd(events.last()));
        assert(step_event(replay_spec(pre), events.last()) == apply_cmd(
            replay_spec(pre),
            event_cmd(events.last()),
        ));
    }
}

} // verus!
