//! The gateway side: the commands a supervisor issues to the serial
//! gateway, the client that queues them, and the rules by which the owner
//! of the gateway carries them out.

use vstd::prelude::*;

verus! {

/// Why a gateway connection could not be made.
#[derive(Debug, PartialEq, Eq)]
pub enum SerialError {
    ConnectError(String),
}

impl SerialError {
    /// Why the connection could not be made, in the words of the gateway.
    pub fn description(&self) -> (text: String)
        ensures
            self matches SerialError::ConnectError(words) && text@ == words@,
    {
        match self {
            SerialError::ConnectError(words) => words.clone(),
        }
    }
}

/// A request to the gateway.
#[derive(Debug, PartialEq, Eq)]
pub enum Command {
    ConnectDevice(String),
    ConnectStub,
    Hangup,
    RegisterCircle(String, u64),
    SwitchOn(String),
    SwitchOff(String),
}

/// A `Command` with its strings as sequences of characters.
pub enum CommandView {
    ConnectDevice(Seq<char>),
    ConnectStub,
    Hangup,
    RegisterCircle(Seq<char>, u64),
    SwitchOn(Seq<char>),
    SwitchOff(Seq<char>),
}

impl View for Command {
    type V = CommandView;

    open spec fn view(&self) -> CommandView {
        match *self {
            Command::ConnectDevice(d) => CommandView::ConnectDevice(d@),
            Command::ConnectStub => CommandView::ConnectStub,
            Command::Hangup => CommandView::Hangup,
            Command::RegisterCircle(a, m) => CommandView::RegisterCircle(a@, m),
            Command::SwitchOn(a) => CommandView::SwitchOn(a@),
            Command::SwitchOff(a) => CommandView::SwitchOff(a@),
        }
    }
}

/// The answer of the gateway to `Command::ConnectDevice`.
#[derive(Debug, PartialEq, Eq)]
pub enum ConnectResponse {
    Connected,
    ConnectionFailed(String),
}

/// Queues the commands of its owner in the order they were issued, until
/// the owner of the gateway takes them over.
pub struct SerialClient {
    outbox: Vec<Command>,
}

impl View for SerialClient {
    type V = Seq<CommandView>;

    closed spec fn view(&self) -> Seq<CommandView> {
        self.outbox@.map_values(|c: Command| c@)
    }
}

impl SerialClient {
    pub fn new() -> (client: SerialClient)
        ensures
            client@ == Seq::<CommandView>::empty(),
    {
        let client = SerialClient { outbox: Vec::new() };
        assert(client@ =~= Seq::<CommandView>::empty());
        client
    }

    fn issue(&mut self, command: Command)
        ensures
            final(self)@ == old(self)@.push(command@),
    {
        self.outbox.push(command);
        assert(self@ =~= old(self)@.push(command@));
    }

    /// Asks for the simulated gateway.
    pub fn connect_stub(&mut self)
        ensures
            final(self)@ == old(self)@.push(CommandView::ConnectStub),
    {
        self.issue(Command::ConnectStub);
    }

    /// Asks for the gateway on the serial device `device`. The gateway's
    /// answer is read with `connect_result`.
    pub fn connect_device(&mut self, device: &str)
        ensures
            final(self)@ == old(self)@.push(CommandView::ConnectDevice(device@)),
    {
        self.issue(Command::ConnectDevice(device.to_owned()));
    }

    /// What the answer to a `connect_device` means to the caller.
    pub fn connect_result(response: ConnectResponse) -> (r: Result<(), SerialError>)
        ensures
            response is Connected <==> r is Ok,
            response matches ConnectResponse::ConnectionFailed(why) ==> r matches Err(
                SerialError::ConnectError(e),
            ) && e@ == why@,
    {
        match response {
            ConnectResponse::Connected => Ok(()),
            ConnectResponse::ConnectionFailed(why) => Err(SerialError::ConnectError(why)),
        }
    }

    pub fn hangup(&mut self)
        ensures
            final(self)@ == old(self)@.push(CommandView::Hangup),
    {
        self.issue(Command::Hangup);
    }

    pub fn register_circle(&mut self, alias: &str, mac: u64)
        ensures
            final(self)@ == old(self)@.push(CommandView::RegisterCircle(alias@, mac)),
    {
        self.issue(Command::RegisterCircle(alias.to_owned(), mac));
    }

    pub fn switch_on(&mut self, alias: &str)
        ensures
            final(self)@ == old(self)@.push(CommandView::SwitchOn(alias@)),
    {
        self.issue(Command::SwitchOn(alias.to_owned()));
    }

    pub fn switch_off(&mut self, alias: &str)
        ensures
            final(self)@ == old(self)@.push(CommandView::SwitchOff(alias@)),
    {
        self.issue(Command::SwitchOff(alias.to_owned()));
    }

    /// Hands over the queued commands, oldest first, and leaves the queue
    /// empty.
    pub fn take_commands(&mut self) -> (commands: Vec<Command>)
        ensures
            commands@.map_values(|c: Command| c@) == old(self)@,
            final(self)@ == Seq::<CommandView>::empty(),
    {
        let mut commands: Vec<Command> = Vec::new();
        std::mem::swap(&mut self.outbox, &mut commands);
        assert(self@ =~= Seq::<CommandView>::empty());
        commands
    }
}

/// What the owner of the gateway has to do for a command.
#[derive(Debug, PartialEq, Eq)]
pub enum Action {
    /// Open the gateway on this serial device, and answer the client.
    Open(String),
    /// Open the simulated gateway.
    OpenSimulator,
    /// Make the circle with this address known under this name.
    CreateCircle(String, u64),
    /// Switch the circle of this name on.
    SwitchOn(String),
    /// Switch the circle of this name off.
    SwitchOff(String),
    /// Leave the loop.
    Stop,
    /// Nothing: the command asks for what cannot be done.
    Nothing,
}

/// An `Action` with its strings as sequences of characters.
pub enum ActionView {
    Open(Seq<char>),
    OpenSimulator,
    CreateCircle(Seq<char>, u64),
    SwitchOn(Seq<char>),
    SwitchOff(Seq<char>),
    Stop,
    Nothing,
}

impl View for Action {
    type V = ActionView;

    open spec fn view(&self) -> ActionView {
        match *self {
            Action::Open(d) => ActionView::Open(d@),
            Action::OpenSimulator => ActionView::OpenSimulator,
            Action::CreateCircle(a, m) => ActionView::CreateCircle(a@, m),
            Action::SwitchOn(a) => ActionView::SwitchOn(a@),
            Action::SwitchOff(a) => ActionView::SwitchOff(a@),
            Action::Stop => ActionView::Stop,
            Action::Nothing => ActionView::Nothing,
        }
    }
}

/// What the owner of the gateway knows: whether a gateway is open, and the
/// names under which circles were made known.
pub struct SerialView {
    pub connected: bool,
    pub circles: Set<Seq<char>>,
}

impl SerialView {
    /// What is to be done for `command`. A circle is registered only on an
    /// open gateway, and switched only if it is registered.
    pub open spec fn action(self, command: CommandView) -> ActionView {
        match command {
            CommandView::ConnectDevice(device) => ActionView::Open(device),
            CommandView::ConnectStub => ActionView::OpenSimulator,
            CommandView::Hangup => ActionView::Stop,
            CommandView::RegisterCircle(alias, mac) => if self.connected {
                ActionView::CreateCircle(alias, mac)
            } else {
                ActionView::Nothing
            },
            CommandView::SwitchOn(alias) => if self.circles.contains(alias) {
                ActionView::SwitchOn(alias)
            } else {
                ActionView::Nothing
            },
            CommandView::SwitchOff(alias) => if self.circles.contains(alias) {
                ActionView::SwitchOff(alias)
            } else {
                ActionView::Nothing
            },
        }
    }

    /// What is known after `action` was carried out, and succeeded or not.
    /// Only success changes anything: an opened gateway is open, a created
    /// circle is registered.
    pub open spec fn completed(self, action: ActionView, succeeded: bool) -> SerialView {
        if !succeeded {
            self
        } else {
            match action {
                ActionView::Open(_) => SerialView { connected: true, ..self },
                ActionView::OpenSimulator => SerialView { connected: true, ..self },
                ActionView::CreateCircle(alias, _) => SerialView {
                    circles: self.circles.insert(alias),
                    ..self
                },
                _ => self,
            }
        }
    }
}

/// The state of the owner of the gateway.
pub struct Serial {
    connected: bool,
    circles: Vec<String>,
}

impl View for Serial {
    type V = SerialView;

    closed spec fn view(&self) -> SerialView {
        SerialView {
            connected: self.connected,
            circles: self.circles@.map_values(|a: String| a@).to_set(),
        }
    }
}

impl Serial {
    /// No gateway is open and no circle is registered.
    pub fn new() -> (serial: Serial)
        ensures
            serial@ == (SerialView { connected: false, circles: Set::empty() }),
    {
        let serial = Serial { connected: false, circles: Vec::new() };
        assert(serial@.circles =~= Set::<Seq<char>>::empty());
        serial
    }

    /// A circle was registered under the name `alias`.
    pub fn knows(&self, alias: &String) -> (known: bool)
        ensures
            known == self@.circles.contains(alias@),
    {
        let ghost names = self.circles@.map_values(|a: String| a@);
        let mut i: usize = 0;
        while i < self.circles.len()
            invariant
                names == self.circles@.map_values(|a: String| a@),
                i <= self.circles@.len(),
                forall|k: int| 0 <= k < i ==> (#[trigger] names[k]) != alias@,
            decreases self.circles@.len() - i,
        {
            if self.circles[i] == *alias {
                assert(names[i as int] == alias@);
                return true;
            }
            i += 1;
        }
        false
    }

    /// Decides what is to be done for `command`.
    pub fn action_for(&self, command: Command) -> (action: Action)
        ensures
            action@ == self@.action(command@),
    {
        match command {
            Command::ConnectDevice(device) => Action::Open(device),
            Command::ConnectStub => Action::OpenSimulator,
            Command::Hangup => Action::Stop,
            Command::RegisterCircle(alias, mac) => {
                if self.connected {
                    Action::CreateCircle(alias, mac)
                } else {
                    Action::Nothing
                }
            },
            Command::SwitchOn(alias) => {
                if self.knows(&alias) {
                    Action::SwitchOn(alias)
                } else {
                    Action::Nothing
                }
            },
            Command::SwitchOff(alias) => {
                if self.knows(&alias) {
                    Action::SwitchOff(alias)
                } else {
                    Action::Nothing
                }
            },
        }
    }

    /// Takes note of how `action` went.
    pub fn completed(&mut self, action: Action, succeeded: bool)
        ensures
            final(self)@ == old(self)@.completed(action@, succeeded),
    {
        if succeeded {
            match action {
                Action::Open(_) => {
                    self.connected = true;
                },
                Action::OpenSimulator => {
                    self.connected = true;
                },
                Action::CreateCircle(alias, _) => {
                    let ghost before = self.circles@.map_values(|a: String| a@);
                    let ghost name = alias@;
                    self.circles.push(alias);
                    proof {
                        let after = self.circles@.map_values(|a: String| a@);
                        assert(after =~= before.push(name));
                        assert forall|a: Seq<char>| after.to_set().contains(a)
                            <==> before.to_set().insert(name).contains(a) by {
                            if after.contains(a) {
                                let i = choose|i: int| 0 <= i < after.len() && after[i] == a;
                                if i < before.len() {
                                    assert(before[i] == a);
                                }
                            }
                            if before.contains(a) {
                                let i = choose|i: int| 0 <= i < before.len() && before[i] == a;
                                assert(after[i] == a);
                            }
                            if a == name {
                                assert(after[before.len() as int] == a);
                            }
                        }
                        assert(after.to_set() =~= before.to_set().insert(name));
                    }
                },
                _ => {},
            }
        }
    }

    /// The answer to the client that asked for a gateway on a serial device:
    /// `Connected`, or why the gateway could not be opened.
    pub fn connect_response(outcome: Result<(), String>) -> (response: ConnectResponse)
        ensures
            outcome is Ok <==> response is Connected,
            outcome matches Err(why) ==> response matches ConnectResponse::ConnectionFailed(w)
                && w@ == why@,
    {
        match outcome {
            Ok(()) => ConnectResponse::Connected,
            Err(why) => ConnectResponse::ConnectionFailed(why),
        }
    }
}

} // verus!
