use vndf::protocol::action::Action;
use vndf::protocol::decode::DecodeError;
use vndf::protocol::percept::Percept;
use vndf::protocol::perception::Perception;
use vndf::protocol::step::Step;
use vndf::server::address::Address;
use vndf::server::clients::Clients;
use vndf::server::network::{send_perceptions, Datagram};
use vndf::server::receiver::Receiver;

/// A game service without sockets: datagrams go in, datagrams come out.
struct GameService {
    clients: Clients,
    receiver: Receiver,
    now_ms: u64,
}

impl GameService {
    fn start() -> GameService {
        GameService { clients: Clients::new(), receiver: Receiver::new(), now_ms: 1_000 }
    }

    /// One tick: what came in is taken, and everybody is sent perceptions.
    fn tick(&mut self) -> Vec<Datagram> {
        self.now_ms += 20;
        self.receiver.receive(&mut self.clients, self.now_ms);
        send_perceptions(&self.clients)
    }
}

/// A client that talks to the service directly.
struct MockClient {
    address: Address,
}

impl MockClient {
    fn start(port: u16) -> MockClient {
        MockClient { address: Address { ip: 0x7f00_0001, port } }
    }

    fn send_data(&self, service: &mut GameService, data: &[u8]) {
        service.receiver.push(Datagram { address: self.address, bytes: data.to_vec() });
    }

    fn login(&self, service: &mut GameService, seq: u64) {
        let action = Action { seq, steps: vec![Step::Login] };
        self.send_data(service, &action.encode().unwrap());
    }

    fn expect_perception(&self, sent: &[Datagram]) -> Option<Perception<String, Percept>> {
        sent.iter()
            .find(|datagram| datagram.address == self.address)
            .map(|datagram| Perception::decode(&datagram.bytes).unwrap())
    }
}

#[test]
fn it_should_confirm_received_actions() {
    let mut game_service = GameService::start();
    let client = MockClient::start(34481);

    let seq = 512;
    client.login(&mut game_service, seq);

    let sent = game_service.tick();
    let perception = client.expect_perception(&sent).unwrap();
    assert_eq!(seq, perception.header.confirm_action);
}

#[test]
fn it_should_disconnect_clients_sending_invalid_utf8() {
    let invalid_utf8 = [0x80u8];

    let mut game_service = GameService::start();
    let client_1 = MockClient::start(40001);

    client_1.login(&mut game_service, 0);
    let sent = game_service.tick();
    assert!(client_1.expect_perception(&sent).is_some());
    client_1.send_data(&mut game_service, &invalid_utf8);
    let sent = game_service.tick();

    // We should no longer receive any perceptions.
    assert!(client_1.expect_perception(&sent).is_none());
    let sent = game_service.tick();
    assert!(client_1.expect_perception(&sent).is_none());

    // But the game service shouldn't have crashed either.
    let client_2 = MockClient::start(40002);
    client_2.login(&mut game_service, 0);
    let sent = game_service.tick();
    assert!(client_2.expect_perception(&sent).is_some());
    assert!(client_1.expect_perception(&sent).is_none());
}

#[test]
fn a_bad_datagram_closes_only_the_session_of_its_sender() {
    let mut game_service = GameService::start();
    let client_1 = MockClient::start(1);
    let client_2 = MockClient::start(2);
    client_1.login(&mut game_service, 3);
    client_2.login(&mut game_service, 4);
    game_service.tick();
    assert_eq!(game_service.clients.len(), 2);

    client_1.send_data(&mut game_service, b"HEADER 5\nDESTROY LOGIN\n");
    let results = {
        game_service.now_ms += 20;
        game_service.receiver.receive(&mut game_service.clients, game_service.now_ms)
    };
    assert_eq!(results, vec![Err(DecodeError::UnknownDirective(b"DESTROY".to_vec()))]);
    assert_eq!(game_service.clients.len(), 1);
    assert!(game_service.clients.get(client_1.address).is_none());
    assert_eq!(game_service.clients.get(client_2.address).unwrap().last_action, 4);
}
