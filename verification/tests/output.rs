use vndf::client::output::{Frame, Status};
use vndf::client::player_output::{Output, PlayerOutput};
use vndf::client::screen::{Cell, Color, Screen};
use vndf::protocol::percept::Broadcast;

fn row(screen: &Screen, y: usize) -> String {
    let text: String = (0..screen.width()).map(|x| screen.cell(x, y).c).collect();
    text.trim_end().to_string()
}

fn frame() -> Frame {
    Frame {
        self_id: "ABC-12345".to_string(),
        input: "bro".to_string(),
        status: Status::Notice("All is well.".to_string()),
        commands: vec!["broadcast".to_string()],
        broadcasts: vec![
            Broadcast { sender: "XYZ-00001".to_string(), message: "first".to_string() },
            Broadcast { sender: "XYZ-00002".to_string(), message: "second".to_string() },
        ],
    }
}

#[test]
fn a_frame_is_laid_out_from_top_to_bottom() {
    let mut output = PlayerOutput::new();
    output.render(&frame());
    let screen = output.screen();
    let rows: Vec<String> = (0..12).map(|y| row(screen, y)).collect();
    assert_eq!(
        rows,
        vec![
            "SHIP INFO",
            "    Comm ID: ABC-12345",
            "",
            "BROADCASTS",
            "    XYZ-00001: first",
            "    XYZ-00002: second",
            "",
            "COMMANDS",
            "    broadcast",
            "",
            "",
            "All is well.",
        ]
    );
    assert_eq!(row(screen, 12), "Enter command: broadcast");
    assert_eq!(screen.cursor(), (18, 12));
    assert_eq!(screen.cell(17, 12), Cell { c: 'o', bold: true, color: Color::Default });
    assert_eq!(screen.cell(18, 12), Cell { c: 'a', bold: true, color: Color::Black });
    assert_eq!(screen.cell(0, 13), Cell { c: ' ', bold: false, color: Color::Default });
    assert_eq!((screen.width(), screen.height()), (80, 24));
}

#[test]
fn an_empty_frame_says_none() {
    let mut output = PlayerOutput::new();
    output.render(&frame());
    output.render(&Frame::new());
    let screen = output.screen();
    let rows: Vec<String> = (0..11).map(|y| row(screen, y)).collect();
    assert_eq!(
        rows,
        vec![
            "SHIP INFO",
            "    Comm ID:",
            "",
            "BROADCASTS",
            "    none",
            "",
            "COMMANDS",
            "    none",
            "",
            "",
            "",
        ]
    );
    assert_eq!(row(screen, 11), "Enter command:");
    assert_eq!(screen.cursor(), (15, 11));
}

#[test]
fn commands_stand_side_by_side_and_are_cut() {
    let mut shown = Frame::new();
    shown.commands = vec![
        "broadcast".to_string(),
        "stop-broadcast".to_string(),
        "a-command-with-a-long-name".to_string(),
        "help".to_string(),
    ];
    let mut output = PlayerOutput::new();
    output.render(&shown);
    assert_eq!(
        row(output.screen(), 7),
        "    broadcast    stop-broadcast    a-command-with-               help"
    );
}

#[test]
fn what_does_not_fit_on_the_screen_is_left_out() {
    let mut shown = frame();
    shown.broadcasts = (0..30)
        .map(|i| Broadcast { sender: format!("S{}", i), message: "x".repeat(100) })
        .collect();
    let mut output = PlayerOutput::new();
    output.render(&shown);
    let screen = output.screen();
    assert_eq!(row(screen, 4), format!("    S0: {}", "x".repeat(72)));
    assert_eq!(row(screen, 23), format!("    S19: {}", "x".repeat(71)));
    assert_eq!(screen.cursor(), (18, 24));
}

#[test]
fn a_screen_takes_text_within_its_bounds() {
    let mut screen = Screen::new(5, 2);
    screen.write(3, 1, 10, "abc");
    screen.write(0, 0, 2, "xyz");
    screen.write(0, 2, 5, "below");
    screen.write(5, 0, 5, "right");
    assert_eq!(row(&screen, 0), "xy");
    assert_eq!(row(&screen, 1), "   ab");
    assert!(!screen.set_bold(true));
    assert_eq!(screen.set_color(Color::Black), Color::Default);
    screen.write(1, 0, 1, "ß");
    assert_eq!(screen.cell(1, 0), Cell { c: 'ß', bold: true, color: Color::Black });
    screen.set_cursor(4, 1);
    assert_eq!(screen.cursor(), (4, 1));
}

#[test]
fn the_hint_is_the_rest_of_the_only_command() {
    let mut shown = frame();
    assert_eq!(shown.hint(), "adcast");
    assert_eq!(shown.input_line(), "Enter command: bro");
    assert_eq!(shown.status.text(), "All is well.");
    shown.input = "broadcast and more".to_string();
    assert_eq!(shown.hint(), "");
    shown.input = "b".to_string();
    shown.commands.push("bye".to_string());
    assert_eq!(shown.hint(), "");
    shown.status = Status::Empty;
    assert_eq!(shown.status.text(), "");
    shown.status = Status::Error("no".to_string());
    assert_eq!(shown.status.text(), "no");
}
