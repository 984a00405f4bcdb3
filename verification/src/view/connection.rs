//! The connection as the user sees it.

use vstd::prelude::*;
use crate::symbols::text_view;
use crate::text::{put, string_of};

verus! {

/// The connection: whether a bus thread runs, and whether it has not reported yet.
#[derive(Debug)]
pub struct Connection {
    pub open: bool,
    pub connecting: bool,
    pub name: Option<String>,
}

/// What a connection says.
pub ghost struct ConnectionModel {
    pub open: bool,
    pub connecting: bool,
    pub name: Option<Seq<char>>,
}

impl View for Connection {
    type V = ConnectionModel;

    open spec fn view(&self) -> ConnectionModel {
        ConnectionModel {
            open: self.open,
            connecting: self.connecting,
            name: text_view(self.name),
        }
    }
}

/// No connection.
pub open spec fn offline() -> ConnectionModel {
    ConnectionModel { open: false, connecting: false, name: None }
}

/// A short message to the user.
#[derive(Debug)]
pub struct Notice {
    pub text: String,
    pub error: bool,
}

impl ConnectionModel {
    /// Whether frames can be sent.
    pub open spec fn ready(self) -> bool {
        self.open && !self.connecting
    }

    /// The connection once it was asked for.
    pub open spec fn asked_for(self) -> ConnectionModel {
        ConnectionModel { open: true, connecting: true, name: self.name }
    }

    /// The connection once the answer has come: the name of the interface, or none.
    pub open spec fn told(self, name: Option<Seq<char>>) -> ConnectionModel {
        match name {
            Some(n) => ConnectionModel { open: self.open, connecting: false, name: Some(n) },
            None => ConnectionModel { open: false, connecting: false, name: self.name },
        }
    }

    /// Whether the bus thread has ended on its own.
    pub open spec fn is_lost(self, alive: bool) -> bool {
        !alive && self.ready()
    }

    /// Milliseconds until the views are drawn again.
    pub open spec fn pause_ms(self) -> int {
        if self.open {
            33
        } else {
            250
        }
    }

    /// Whether the connect button can be pressed.
    pub open spec fn can_press(self) -> bool {
        !self.connecting
    }
}

impl Connection {
    /// Only an open connection can be connecting.
    pub open spec fn wf(self) -> bool {
        self.connecting ==> self.open
    }

    /// No connection.
    pub fn new() -> (r: Self)
        ensures
            r@ == offline(),
            r.wf(),
    {
        Connection { open: false, connecting: false, name: None }
    }

    /// Whether frames can be sent.
    pub fn is_connected(&self) -> (r: bool)
        ensures
            r == self@.ready(),
    {
        self.open && !self.connecting
    }

    /// The bus thread was started.
    pub fn connect(&mut self)
        ensures
            final(self)@ == (ConnectionModel { open: true, connecting: true, ..old(self)@ }),
            final(self)@ == old(self)@.asked_for(),
            final(self).wf(),
    {
        self.open = true;
        self.connecting = true;
    }

    /// The bus thread was stopped.
    pub fn disconnect(&mut self)
        ensures
            final(self)@ == offline(),
            final(self).wf(),
    {
        self.open = false;
        self.connecting = false;
        self.name = None;
    }

    /// The bus thread reported the interface's name, or why it could not connect. The notice
    /// is for the user.
    pub fn result(&mut self, r: Result<String, String>) -> (n: Notice)
        ensures
            final(self).wf(),
            final(self)@ == old(self)@.told(match r {
                Ok(name) => Some(name@),
                Err(_) => None,
            }),
            match r {
                Ok(name) => {
                    &&& final(self)@ == (ConnectionModel {
                        connecting: false,
                        name: Some(name@),
                        ..old(self)@
                    })
                    &&& n.text@ == "Connected: "@ + name@
                    &&& !n.error
                },
                Err(e) => {
                    &&& final(self)@ == (ConnectionModel {
                        open: false,
                        connecting: false,
                        ..old(self)@
                    })
                    &&& n.text@ == "Connect failed: "@ + e@
                    &&& n.error
                },
            },
    {
        self.connecting = false;
        let mut t: Vec<char> = Vec::new();
        match r {
            Ok(name) => {
                put(&mut t, "Connected: ");
                put(&mut t, name.as_str());
                assert(t@ =~= "Connected: "@ + name@);
                self.name = Some(name);
                Notice { text: string_of(t.as_slice()), error: false }
            },
            Err(e) => {
                self.open = false;
                put(&mut t, "Connect failed: ");
                put(&mut t, e.as_str());
                assert(t@ =~= "Connect failed: "@ + e@);
                Notice { text: string_of(t.as_slice()), error: true }
            },
        }
    }

    /// Whether the bus thread has ended on its own; `alive` is what it reports of itself.
    pub fn lost(&self, alive: bool) -> (r: bool)
        ensures
            r == (self@.ready() && !alive),
            r == self@.is_lost(alive),
    {
        self.open && !self.connecting && !alive
    }

    /// Label of the connect button, and whether it can be pressed.
    pub fn button(&self) -> (r: (&'static str, bool))
        ensures
            r.0@ == (if self.connecting {
                "Connecting..."@
            } else if self.open {
                "⏹ Disconnect"@
            } else {
                "▶ Connect"@
            }),
            r.1 == !self.connecting,
            r.1 == self@.can_press(),
    {
        if self.connecting {
            ("Connecting...", false)
        } else if self.open {
            ("⏹ Disconnect", true)
        } else {
            ("▶ Connect", true)
        }
    }

    /// Milliseconds until the views are drawn again.
    pub fn repaint_ms(&self) -> (r: u64)
        ensures
            r == (if self.open {
                33u64
            } else {
                250u64
            }),
            r == self@.pause_ms(),
    {
        if self.open {
            33
        } else {
            250
        }
    }
}

/// A connection is ready once it was asked for and the interface has answered with its name.
/// An answer without one, like disconnecting, leaves it closed. Only a connection that is
/// ready can get lost. While the answer is out the button waits. Views are drawn more often
/// while a connection is open.
pub proof fn law_connection(c: ConnectionModel, name: Seq<char>)
    ensures
        !c.asked_for().ready() && !c.asked_for().can_press(),
        c.asked_for().told(Some(name)).ready(),
        c.asked_for().told(Some(name)).name == Some(name),
        !c.told(None).open && !c.told(None).ready() && c.told(None).can_press(),
        c.told(Some(name)).can_press(),
        !offline().open && !offline().ready() && offline().can_press() && offline().name is None,
        c.is_lost(false) == (c.open && !c.connecting),
        !c.is_lost(true),
        !offline().is_lost(false) && !c.asked_for().is_lost(false),
        c.asked_for().pause_ms() == 33 && offline().pause_ms() == 250,
        c.told(None).pause_ms() == 250,
{
}

} // verus!
