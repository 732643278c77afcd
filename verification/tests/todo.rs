use console_todo::application::AppCmd;
use console_todo::domain::DomainCmd;
use console_todo::domain::TodoDomain;
use console_todo::infra::read_text;
use console_todo::infra::serialize_events;
use console_todo::infra::Event;
use console_todo::ui::advance;
use console_todo::ui::encode_event;
use console_todo::ui::parse_command;
use console_todo::ui::parse_event;
use console_todo::ui::replay;

#[test]
fn test_two() {
    assert!(true);
}

#[test]
fn parse_command_quit() {
    assert_eq!(parse_command(&String::from("q:")), AppCmd::Quit);
    assert_eq!(parse_command(&String::from("q:goddammend")), AppCmd::Quit);
    assert_eq!(parse_command(&String::from("q: !!!  ")), AppCmd::Quit);
    assert_eq!(parse_command(&String::from("Q: !!!  ")), AppCmd::Quit);
}

#[test]
fn parse_command_add() {
    assert_eq!(parse_command(&String::from("a:")), AppCmd::AddMissingText);
    assert_eq!(parse_command(&String::from("a:    ")), AppCmd::AddMissingText);
    assert_eq!(
        parse_command(&String::from("a:123ABC")),
        AppCmd::Add(String::from("123ABC"))
    );
    assert_eq!(parse_command(&String::from("123ABC")), AppCmd::NoCommand);
    assert_eq!(
        parse_command(&String::from("a:    123ABC   ")),
        AppCmd::Add(String::from("123ABC"))
    );
}

#[test]
fn parse_command_toggle() {
    assert_eq!(
        parse_command(&String::from("t:")),
        AppCmd::ToggleMissingIndex
    );
    assert_eq!(
        parse_command(&String::from("t:    ")),
        AppCmd::ToggleMissingIndex
    );
    assert_eq!(
        parse_command(&String::from("t: abc")),
        AppCmd::ToggleMissingIndex
    );
    assert_eq!(parse_command(&String::from("t:0")), AppCmd::Toggle(0));
    assert_eq!(parse_command(&String::from("t: 0")), AppCmd::Toggle(0));
    assert_eq!(parse_command(&String::from("t: 21")), AppCmd::Toggle(21));
    assert_eq!(parse_command(&String::from("t: 21 ")), AppCmd::Toggle(21));
}

#[test]
fn parse_command_unicode_text() {
    assert_eq!(
        parse_command(&String::from("a:  zum Wohl 🎈  ")),
        AppCmd::Add(String::from("zum Wohl 🎈"))
    );
}

#[test]
fn parse_command_index_bounds() {
    assert_eq!(
        parse_command(&String::from("t: 18446744073709551615")),
        AppCmd::Toggle(usize::MAX)
    );
    assert_eq!(
        parse_command(&String::from("t: 18446744073709551616")),
        AppCmd::ToggleMissingIndex
    );
    assert_eq!(
        parse_command(&String::from("t: -1")),
        AppCmd::ToggleMissingIndex
    );
    assert_eq!(parse_command(&String::from("t: +21")), AppCmd::Toggle(21));
    assert_eq!(
        parse_command(&String::from("t: ++21")),
        AppCmd::ToggleMissingIndex
    );
    assert_eq!(
        parse_command(&String::from("t: +")),
        AppCmd::ToggleMissingIndex
    );
    assert_eq!(
        parse_command(&String::from("t: 1.5")),
        AppCmd::ToggleMissingIndex
    );
}

#[test]
fn codec_round_trip_add() {
    let cmd = DomainCmd::Add(String::from("buy milk"));
    let event = encode_event(&cmd);
    assert_eq!(event.name, "AddV1");
    assert_eq!(event.data, vec![String::from("buy milk")]);
    assert_eq!(
        parse_event(&event),
        AppCmd::Add(String::from("buy milk"))
    );
}

#[test]
fn codec_round_trip_toggle() {
    let cmd = DomainCmd::Toggle(21);
    let event = encode_event(&cmd);
    assert_eq!(event.name, "ToggleV1");
    assert_eq!(event.data, vec![String::from("21")]);
    assert_eq!(parse_event(&event), AppCmd::Toggle(21));
}

#[test]
fn event_validity() {
    let fresh = Event::new();
    assert!(!fresh.valid());
    let named = Event {
        name: String::from("AddV1"),
        data: Vec::new(),
    };
    assert!(named.valid());
}

#[test]
fn decode_rejects_malformed() {
    let no_data = Event {
        name: String::from("AddV1"),
        data: Vec::new(),
    };
    assert_eq!(parse_event(&no_data), AppCmd::NoCommand);
    let bad_index = Event {
        name: String::from("ToggleV1"),
        data: vec![String::from("notanumber")],
    };
    assert_eq!(parse_event(&bad_index), AppCmd::NoCommand);
    let unknown = Event {
        name: String::from("RenameV7"),
        data: vec![String::from("x")],
    };
    assert_eq!(parse_event(&unknown), AppCmd::NoCommand);
}

fn texts(domain: &TodoDomain) -> Vec<String> {
    let mut out = Vec::new();
    let mut i = 0;
    while i < domain.len() {
        out.push(domain.item(i).text().clone());
        i += 1;
    }
    out
}

#[test]
fn toggle_removes_item() {
    let domain = TodoDomain::new()
        .command(DomainCmd::Add(String::from("A")))
        .command(DomainCmd::Add(String::from("B")))
        .command(DomainCmd::Add(String::from("C")));
    let domain = domain.command(DomainCmd::Toggle(1));
    assert_eq!(texts(&domain), vec![String::from("A"), String::from("C")]);
}

#[test]
fn toggle_out_of_range_is_noop() {
    let domain = TodoDomain::new()
        .command(DomainCmd::Add(String::from("A")))
        .command(DomainCmd::Add(String::from("B")))
        .command(DomainCmd::Add(String::from("C")));
    let domain = domain.command(DomainCmd::Toggle(5));
    assert_eq!(
        texts(&domain),
        vec![String::from("A"), String::from("B"), String::from("C")]
    );
}

#[test]
fn replay_scenario() {
    let history = vec![
        Event {
            name: String::from("AddV1"),
            data: vec![String::from("buy milk")],
        },
        Event {
            name: String::from("AddV1"),
            data: vec![String::from("walk dog")],
        },
        Event {
            name: String::from("ToggleV1"),
            data: vec![String::from("0")],
        },
    ];
    let domain = replay(&history);
    assert_eq!(domain.len(), 1);
    assert_eq!(domain.item(0).text(), "walk dog");
    assert!(!domain.item(0).done());
}

#[test]
fn replay_skips_unparseable_record() {
    let history = vec![
        Event {
            name: String::from("AddV1"),
            data: vec![String::from("first")],
        },
        Event {
            name: String::from("ToggleV1"),
            data: vec![String::from("notanumber")],
        },
        Event {
            name: String::from("AddV1"),
            data: vec![String::from("second")],
        },
        Event {
            name: String::from("ToggleV1"),
            data: vec![String::from("0")],
        },
    ];
    let domain = replay(&history);
    assert_eq!(texts(&domain), vec![String::from("second")]);
}

#[test]
fn replay_matches_direct_application() {
    let history = vec![
        Event {
            name: String::from("AddV1"),
            data: vec![String::from("x")],
        },
        Event {
            name: String::from("AddV1"),
            data: vec![String::from("y")],
        },
        Event {
            name: String::from("ToggleV1"),
            data: vec![String::from("1")],
        },
    ];
    let replayed = replay(&history);
    let direct = TodoDomain::new()
        .command(DomainCmd::Add(String::from("x")))
        .command(DomainCmd::Add(String::from("y")))
        .command(DomainCmd::Toggle(1));
    assert_eq!(texts(&replayed), texts(&direct));
}

#[test]
fn read_text_records() {
    let text = "\nAddV1\nbuy milk\n\nToggleV1\n0\n";
    let events = read_text(text);
    assert_eq!(events.len(), 2);
    assert_eq!(events[0].name, "AddV1");
    assert_eq!(events[0].data, vec![String::from("buy milk")]);
    assert_eq!(events[1].name, "ToggleV1");
    assert_eq!(events[1].data, vec![String::from("0")]);
}

#[test]
fn read_text_empty_and_blank() {
    assert_eq!(read_text("").len(), 0);
    assert_eq!(read_text("   \n\t\n  \n").len(), 0);
}

#[test]
fn read_text_record_without_data() {
    let events = read_text("\nPingV1\n\n");
    assert_eq!(events.len(), 1);
    assert_eq!(events[0].name, "PingV1");
    assert!(events[0].data.is_empty());
}

#[test]
fn read_text_record_at_end_of_input() {
    let events = read_text("AddV1\nlast item");
    assert_eq!(events.len(), 1);
    assert_eq!(events[0].name, "AddV1");
    assert_eq!(events[0].data, vec![String::from("last item")]);
}

#[test]
fn read_text_trims_lines() {
    let events = read_text("  AddV1  \n  padded field  \n");
    assert_eq!(events.len(), 1);
    assert_eq!(events[0].name, "AddV1");
    assert_eq!(events[0].data, vec![String::from("padded field")]);
}

#[test]
fn serialize_exact_form() {
    let events = vec![Event {
        name: String::from("AddV1"),
        data: vec![String::from("x")],
    }];
    assert_eq!(serialize_events(&events), "\nAddV1\nx\n");
}

#[test]
fn serialize_then_read_back() {
    let events = vec![
        Event {
            name: String::from("AddV1"),
            data: vec![String::from("buy milk"), String::from("extra")],
        },
        Event {
            name: String::from("PingV1"),
            data: Vec::new(),
        },
        Event {
            name: String::from("ToggleV1"),
            data: vec![String::from("0")],
        },
    ];
    let text = serialize_events(&events);
    let back = read_text(text.as_str());
    assert_eq!(back.len(), events.len());
    for (a, b) in back.iter().zip(events.iter()) {
        assert_eq!(a.name, b.name);
        assert_eq!(a.data, b.data);
    }
}

#[test]
fn render_rows() {
    let domain = TodoDomain::new()
        .command(DomainCmd::Add(String::from("buy milk")))
        .command(DomainCmd::Add(String::from("walk dog")));
    assert_eq!(
        domain.render(),
        "[0]\t[false]\tbuy milk\n[1]\t[false]\twalk dog\n"
    );
}

#[test]
fn advance_applies_and_persists() {
    let domain = TodoDomain::new();
    let (domain, event) = advance(domain, AppCmd::Add(String::from("buy milk")));
    let event = event.expect("an add must yield a record");
    assert_eq!(event.name, "AddV1");
    assert_eq!(event.data, vec![String::from("buy milk")]);
    assert_eq!(texts(&domain), vec![String::from("buy milk")]);
    let (domain, event) = advance(domain, AppCmd::Toggle(0));
    let event = event.expect("a toggle must yield a record");
    assert_eq!(event.name, "ToggleV1");
    assert_eq!(event.data, vec![String::from("0")]);
    assert_eq!(domain.len(), 0);
}

#[test]
fn advance_rejections_change_nothing() {
    let domain = TodoDomain::new().command(DomainCmd::Add(String::from("A")));
    let (domain, event) = advance(domain, AppCmd::Quit);
    assert!(event.is_none());
    let (domain, event) = advance(domain, AppCmd::NoCommand);
    assert!(event.is_none());
    let (domain, event) = advance(domain, AppCmd::AddMissingText);
    assert!(event.is_none());
    let (domain, event) = advance(domain, AppCmd::ToggleMissingIndex);
    assert!(event.is_none());
    assert_eq!(texts(&domain), vec![String::from("A")]);
}

#[test]
fn render_empty_list() {
    assert_eq!(TodoDomain::new().render(), "");
}

#[test]
fn copy_preserves_items() {
    let domain = TodoDomain::new()
        .command(DomainCmd::Add(String::from("A")))
        .command(DomainCmd::Add(String::from("B")));
    let copy = domain._copy();
    assert_eq!(texts(&copy), texts(&domain));
}
