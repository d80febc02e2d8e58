use keeper::serial::{Action, Command, ConnectResponse, Serial, SerialClient, SerialError};

#[test]
fn client_queues_commands_in_the_order_issued() {
    let mut client = SerialClient::new();
    client.connect_device("/dev/ttyUSB0");
    client.connect_stub();
    client.register_circle("lamp", 0xABCD);
    client.switch_on("lamp");
    client.switch_off("lamp");
    client.hangup();
    assert_eq!(
        client.take_commands(),
        vec![
            Command::ConnectDevice("/dev/ttyUSB0".to_string()),
            Command::ConnectStub,
            Command::RegisterCircle("lamp".to_string(), 0xABCD),
            Command::SwitchOn("lamp".to_string()),
            Command::SwitchOff("lamp".to_string()),
            Command::Hangup,
        ]
    );
}

#[test]
fn client_is_empty_after_its_commands_were_taken() {
    let mut client = SerialClient::new();
    assert_eq!(client.take_commands(), vec![]);
    client.connect_stub();
    assert_eq!(client.take_commands().len(), 1);
    assert_eq!(client.take_commands(), vec![]);
}

#[test]
fn connect_result_maps_the_answer() {
    assert_eq!(SerialClient::connect_result(ConnectResponse::Connected), Ok(()));
    assert_eq!(
        SerialClient::connect_result(ConnectResponse::ConnectionFailed("no such device".to_string())),
        Err(SerialError::ConnectError("no such device".to_string()))
    );
}

#[test]
fn connect_response_maps_the_outcome() {
    assert_eq!(Serial::connect_response(Ok(())), ConnectResponse::Connected);
    assert_eq!(
        Serial::connect_response(Err("busy".to_string())),
        ConnectResponse::ConnectionFailed("busy".to_string())
    );
}

#[test]
fn gateway_registers_only_when_open() {
    let mut serial = Serial::new();
    assert_eq!(
        serial.action_for(Command::RegisterCircle("lamp".to_string(), 1)),
        Action::Nothing
    );
    let open = serial.action_for(Command::ConnectStub);
    assert_eq!(open, Action::OpenSimulator);
    serial.completed(open, true);
    assert_eq!(
        serial.action_for(Command::RegisterCircle("lamp".to_string(), 1)),
        Action::CreateCircle("lamp".to_string(), 1)
    );
}

#[test]
fn gateway_stays_closed_when_opening_fails() {
    let mut serial = Serial::new();
    let open = serial.action_for(Command::ConnectDevice("/dev/null".to_string()));
    assert_eq!(open, Action::Open("/dev/null".to_string()));
    serial.completed(open, false);
    assert_eq!(
        serial.action_for(Command::RegisterCircle("lamp".to_string(), 1)),
        Action::Nothing
    );
}

#[test]
fn gateway_switches_only_registered_circles() {
    let mut serial = Serial::new();
    serial.completed(Action::OpenSimulator, true);
    assert_eq!(serial.action_for(Command::SwitchOn("lamp".to_string())), Action::Nothing);
    assert_eq!(serial.action_for(Command::SwitchOff("lamp".to_string())), Action::Nothing);
    serial.completed(Action::CreateCircle("lamp".to_string(), 9), true);
    assert!(serial.knows(&"lamp".to_string()));
    assert!(!serial.knows(&"fan".to_string()));
    assert_eq!(
        serial.action_for(Command::SwitchOn("lamp".to_string())),
        Action::SwitchOn("lamp".to_string())
    );
    assert_eq!(
        serial.action_for(Command::SwitchOff("lamp".to_string())),
        Action::SwitchOff("lamp".to_string())
    );
    assert_eq!(serial.action_for(Command::SwitchOn("fan".to_string())), Action::Nothing);
}

#[test]
fn gateway_does_not_register_a_circle_that_failed() {
    let mut serial = Serial::new();
    serial.completed(Action::OpenSimulator, true);
    serial.completed(Action::CreateCircle("lamp".to_string(), 9), false);
    assert!(!serial.knows(&"lamp".to_string()));
}

#[test]
fn gateway_hangup_stops() {
    let serial = Serial::new();
    assert_eq!(serial.action_for(Command::Hangup), Action::Stop);
}

#[test]
fn serial_error_description() {
    assert_eq!(SerialError::ConnectError("busy".to_string()).description(), "busy");
}
