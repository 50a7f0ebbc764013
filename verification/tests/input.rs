use vndf::client::action_assembler::ActionAssembler;
use vndf::client::input::command::{Command, CommandError, CommandKinds};
use vndf::client::input::reader::InputReader;
use vndf::client::output::{Frame, Status};
use vndf::client::platform::Input;
use vndf::client::run::apply_result;
use vndf::client::ui::{BroadcastForm, CommTab, Direction, List, ProcessInput, TextField};
use vndf::protocol::step::Step;

/// A headless client without a server: what is typed goes through the line
/// editor, and the results go to the frame and to the assembler.
struct Client {
    reader: InputReader,
    frame: Frame,
    assembler: ActionAssembler,
}

impl Client {
    /// The port is that of the server, which this client does without.
    fn start(_port: u16) -> Client {
        let mut client = Client {
            reader: InputReader::new(),
            frame: Frame::new(),
            assembler: ActionAssembler::new(),
        };
        client.partial_command("");
        client
    }

    fn partial_command(&mut self, input: &str) {
        let chars: Vec<char> = input.chars().collect();
        for result in self.reader.input(&chars) {
            apply_result(&mut self.frame, &mut self.assembler, result);
        }
    }

    fn command(&mut self, input: &str) {
        self.partial_command(input);
        self.partial_command("\n");
    }

    fn broadcast(&mut self, text: &str) {
        self.command(&format!("broadcast {}", text));
    }
}

#[test]
fn it_should_display_typed_input_to_the_user() {
    let mut client = Client::start(34481);

    let input = "I'm typing, but not submitting yet, a command";
    client.partial_command(input);

    assert_eq!(client.frame.input.as_str(), input);
}

#[test]
fn it_should_ignore_control_characters() {
    let mut client = Client::start(34481);

    let input = "abc\x11\x12\x13\x14";
    client.partial_command(input);

    assert_eq!(client.frame.input.len(), 3);
}

#[test]
fn it_should_remove_the_last_character_with_backspace() {
    let mut client = Client::start(34481);

    client.partial_command("abc\x7f");
    assert_eq!(client.frame.input.as_str(), "ab");

    client.partial_command("\x7f\x7f\x7f\x7f");
    assert_eq!(client.frame.input.as_str(), "");
}

#[test]
fn it_should_display_an_error_when_entering_an_invalid_command() {
    let mut client = Client::start(34481);

    client.command("invalid-command");
    assert!(client.frame.status.is_error());
}

#[test]
fn it_should_reset_the_error_after_a_successful_command() {
    let mut client = Client::start(34481);

    client.command("invalid-command");
    assert!(client.frame.status.is_error());

    client.broadcast("This is a broadcast.");
    assert!(client.frame.status.is_none());
}

#[test]
fn it_should_show_applicable_commands_depending_on_input() {
    let mut client = Client::start(34481);

    let commands = client.frame.commands.clone();
    assert!(commands.contains(&"broadcast".to_string()));
    assert!(commands.contains(&"stop-broadcast".to_string()));

    client.partial_command("bro");
    assert!(!client.frame.commands.contains(&"stop-broadcast".to_string()));
    assert!(commands.contains(&"broadcast".to_string()));
    assert!(client.frame.commands.contains(&"broadcast".to_string()));
}

#[test]
fn it_should_autocomplete_on_tab() {
    let mut client = Client::start(34481);

    client.partial_command("broadcas");
    assert_eq!(client.frame.input, "broadcas".to_string());

    client.partial_command("\x09");
    assert_eq!(client.frame.input, "broadcast ".to_string());
}

#[test]
fn tab_does_nothing_where_several_commands_apply() {
    let mut client = Client::start(34481);
    client.partial_command("\x09");
    assert_eq!(client.frame.input, "");
    client.partial_command("x\x09");
    assert_eq!(client.frame.input, "x");
    assert!(client.frame.commands.is_empty());
}

#[test]
fn a_broadcast_command_queues_a_step() {
    let mut client = Client::start(34481);
    client.broadcast("hello out there");
    assert_eq!(client.assembler.pending_len(), 1);
    let action = client.assembler.assemble();
    assert_eq!(action.steps, vec![Step::Broadcast("hello out there".to_string())]);
    client.command("stop-broadcast");
    assert_eq!(client.assembler.pending_len(), 2);
}

#[test]
fn the_status_names_the_word_that_is_no_command() {
    let mut client = Client::start(34481);
    client.command("fly away");
    assert_eq!(
        client.frame.status,
        Status::Error("\"fly\": Unknown command".to_string())
    );
    assert!(!client.frame.status.is_notice());
    assert!(!client.frame.status.is_none());
}

#[test]
fn help_explains_a_command() {
    let mut client = Client::start(34481);
    client.command("help stop-broadcast");
    assert!(client.frame.status.is_notice());
    assert_eq!(
        client.frame.status,
        Status::Notice("stop-broadcast: stop sending your text".to_string())
    );
    client.command("help nothing");
    assert_eq!(
        client.frame.status,
        Status::Error("\"nothing\": Unknown command".to_string())
    );
}

#[test]
fn several_lines_in_one_tick_give_several_results() {
    let mut reader = InputReader::new();
    let chars: Vec<char> = "broadcast a b\nstop-broadcast\nnope\nbr".chars().collect();
    let results = reader.input(&chars);
    assert_eq!(results.len(), 4);
    assert_eq!(results[0], Ok(Command::Broadcast("a b".to_string())));
    assert_eq!(results[1], Ok(Command::StopBroadcast));
    assert_eq!(
        results[2],
        Err(CommandError::Invalid("Unknown command", "nope".to_string()))
    );
    assert_eq!(
        results[3],
        Err(CommandError::Incomplete(
            "br".to_string(),
            vec!["broadcast".to_string()]
        ))
    );
}

#[test]
fn a_line_is_read_as_a_command() {
    let kinds = CommandKinds::new();
    assert_eq!(
        Command::parse(&kinds, "broadcast".to_string()),
        Ok(Command::Broadcast(String::new()))
    );
    assert_eq!(
        Command::parse(&kinds, "broadcast  x".to_string()),
        Ok(Command::Broadcast(" x".to_string()))
    );
    assert_eq!(
        Command::parse(&kinds, "".to_string()),
        Err(CommandError::Invalid("Unknown command", String::new()))
    );
    assert_eq!(kinds.start_with("").len(), 3);
    assert_eq!(kinds.start_with("stop").len(), 1);
    assert!(kinds.find("help").is_some());
    assert!(kinds.find("hel").is_none());
}

#[test]
fn unicode_is_typed_and_erased_by_character() {
    let mut client = Client::start(34481);
    client.partial_command("grüße\x7f\x7f");
    assert_eq!(client.frame.input, "grü");
}

#[test]
fn new_input_broadcasts_nothing() {
    let input = Input::new();
    assert_eq!(input.broadcast, None);
    assert_eq!(input.clone(), input);
}

#[test]
fn a_text_field_takes_characters_and_backspace() {
    let mut field = TextField { text: String::new() };
    field.process_char('a');
    field.process_char('b');
    field.process_char('\x7f');
    field.process_cursor(Direction::Left);
    assert_eq!(field.text, "a");
    field.process_char('\x7f');
    field.process_char('\x7f');
    assert_eq!(field.text, "");
}

#[test]
fn the_comm_tab_switches_between_selecting_and_editing() {
    let mut tab = CommTab {
        element_active: false,
        selected_index: 0,
        broadcast_form: BroadcastForm { text_field: TextField { text: "old".to_string() } },
        broadcast_list: List {},
    };
    tab.process_char('x');
    assert_eq!(tab.broadcast_form.text_field.text, "old");
    tab.process_cursor(Direction::Right);
    assert_eq!(tab.selected_index, 0);
    tab.process_cursor(Direction::Up);
    assert_eq!(tab.selected_index, u32::MAX);
    tab.process_cursor(Direction::Down);
    assert_eq!(tab.selected_index, u32::MAX - 1);
    tab.process_char('\n');
    assert!(tab.element_active);
    assert_eq!(tab.broadcast_form.text_field.text, "");
    tab.process_char('h');
    tab.process_char('i');
    tab.process_cursor(Direction::Up);
    assert_eq!(tab.selected_index, u32::MAX - 1);
    assert_eq!(tab.broadcast_form.text_field.text, "hi");
    tab.process_char('\n');
    assert!(!tab.element_active);
    assert_eq!(tab.broadcast_form.text_field.text, "hi");
}
