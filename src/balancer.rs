use vstd::prelude::*;

verus! {

/// Hands out backend addresses in turn, round robin.
pub struct ServerManager {
    servers: Vec<String>,
    idx: usize,
}

impl ServerManager {
    pub closed spec fn servers(&self) -> Seq<String> {
        self.servers@
    }

    /// The turn counter: the next address is the one at this position,
    /// taken modulo the number of addresses.
    pub closed spec fn turn(&self) -> nat {
        self.idx as nat
    }

    pub fn new(servers: Vec<String>) -> (r: Self)
        ensures
            r.servers() == servers@,
            r.turn() == 0,
    {
        ServerManager { servers, idx: 0 }
    }

    /// The address whose turn it is; the turn moves on by one.
    pub fn get_next_server(&mut self) -> (r: String)
        requires
            old(self).servers().len() > 0,
        ensures
            r == old(self).servers()[(old(self).turn() % old(self).servers().len()) as int],
            final(self).servers() == old(self).servers(),
            final(self).turn() == old(self).turn() % old(self).servers().len() + 1,
    {
        self.idx = self.idx % self.servers.len();
        let s = self.servers[self.idx].clone();
        self.idx = self.idx + 1;
        s
    }
}

} // verus!
