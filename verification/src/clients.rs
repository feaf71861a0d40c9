//! When a profile server tells its state-change callback that clients came or
//! went: the number of connected clients, and whether a callback is installed.
use vstd::prelude::*;

verus! {

/// The clients of a profile server, as its state-change callback sees them. While
/// a callback is installed, what it was last told is whether there are clients: it
/// hears of every change, and only of changes.
pub struct ClientsState {
    num_clients: usize,
    callback_installed: bool,
    /// What the installed callback was last told: whether there are clients.
    told: Ghost<bool>,
}

impl ClientsState {
    /// An installed callback always knows whether there are clients.
    #[verifier::type_invariant]
    spec fn callback_knows(self) -> bool {
        self.callback_installed ==> self.told@ == (self.num_clients > 0)
    }

    /// The number of connected clients.
    pub closed spec fn spec_num_clients(&self) -> nat {
        self.num_clients as nat
    }

    /// Whether a callback is installed.
    pub closed spec fn spec_installed(&self) -> bool {
        self.callback_installed
    }

    /// What the installed callback was last told.
    pub closed spec fn spec_told(&self) -> bool {
        self.told@
    }

    /// No clients and no callback.
    pub fn new() -> (r: Self)
        ensures
            r.spec_num_clients() == 0,
            !r.spec_installed(),
    {
        ClientsState { num_clients: 0, callback_installed: false, told: Ghost(false) }
    }

    /// The number of connected clients.
    pub fn num_clients(&self) -> (r: usize)
        ensures
            r == self.spec_num_clients(),
    {
        self.num_clients
    }

    /// A client connected. Returns what to tell the callback: that there are clients,
    /// when this is the first one and a callback is installed.
    pub fn on_client_connected(&mut self) -> (r: Option<bool>)
        requires
            old(self).spec_num_clients() < usize::MAX,
        ensures
            final(self).spec_num_clients() == old(self).spec_num_clients() + 1,
            final(self).spec_installed() == old(self).spec_installed(),
            r == if old(self).spec_num_clients() == 0 && old(self).spec_installed() {
                Some(true)
            } else {
                None::<bool>
            },
            r matches Some(b) ==> b != old(self).spec_told() && final(self).spec_told() == b,
            final(self).spec_installed() ==> final(self).spec_told() == (final(self).spec_num_clients() > 0),
    {
        proof {
            use_type_invariant(&*self);
        }
        let first = self.num_clients == 0;
        let notify = if first && self.callback_installed {
            Some(true)
        } else {
            None
        };
        let ghost told = if self.callback_installed {
            true
        } else {
            self.told@
        };
        *self = ClientsState {
            num_clients: self.num_clients + 1,
            callback_installed: self.callback_installed,
            told: Ghost(told),
        };
        notify
    }

    /// `num_disconnected` clients disconnected. Returns what to tell the callback:
    /// that there are no clients, when these were the last ones and a callback is
    /// installed.
    pub fn on_clients_disconnected(&mut self, num_disconnected: usize) -> (r: Option<bool>)
        requires
            num_disconnected <= old(self).spec_num_clients(),
        ensures
            final(self).spec_num_clients() == old(self).spec_num_clients() - num_disconnected,
            final(self).spec_installed() == old(self).spec_installed(),
            r == if num_disconnected > 0 && old(self).spec_num_clients() == num_disconnected
                && old(self).spec_installed() {
                Some(false)
            } else {
                None::<bool>
            },
            r matches Some(b) ==> b != old(self).spec_told() && final(self).spec_told() == b,
            final(self).spec_installed() ==> final(self).spec_told() == (final(self).spec_num_clients() > 0),
    {
        proof {
            use_type_invariant(&*self);
        }
        if num_disconnected == 0 {
            return None;
        }
        let last = self.num_clients == num_disconnected;
        let notify = if last && self.callback_installed {
            Some(false)
        } else {
            None
        };
        let ghost told = if self.callback_installed {
            !last
        } else {
            self.told@
        };
        *self = ClientsState {
            num_clients: self.num_clients - num_disconnected,
            callback_installed: self.callback_installed,
            told: Ghost(told),
        };
        notify
    }

    /// Installs a callback (`install`) or removes it. Returns what to tell a newly
    /// installed callback (whether there are clients, when none was installed
    /// before), and whether there are clients.
    pub fn replace_callback(&mut self, install: bool) -> (r: (Option<bool>, bool))
        ensures
            final(self).spec_num_clients() == old(self).spec_num_clients(),
            final(self).spec_installed() == install,
            r.1 == (old(self).spec_num_clients() > 0),
            r.0 == if install && !old(self).spec_installed() {
                Some(old(self).spec_num_clients() > 0)
            } else {
                None::<bool>
            },
            r.0 matches Some(b) ==> final(self).spec_told() == b,
            final(self).spec_installed() ==> final(self).spec_told() == (final(self).spec_num_clients() > 0),
    {
        proof {
            use_type_invariant(&*self);
        }
        let has_clients = self.num_clients > 0;
        let notify = if install && !self.callback_installed {
            Some(has_clients)
        } else {
            None
        };
        let ghost told = if install {
            has_clients
        } else {
            self.told@
        };
        *self = ClientsState { num_clients: self.num_clients, callback_installed: install, told: Ghost(told) };
        (notify, has_clients)
    }
}

} // verus!
