use vstd::prelude::*;

verus! {

/// Round-robin choice among a fixed set of backend servers: each call
/// hands out the next address, wrapping around at the end of the list.
pub struct RoundRobinLoadBalancer {
    servers: Vec<String>,
    current: usize,
}

impl RoundRobinLoadBalancer {
    /// The backend addresses, in rotation order.
    pub closed spec fn servers_view(&self) -> Seq<Seq<char>> {
        self.servers.deep_view()
    }

    /// The index of the server the next call hands out.
    pub closed spec fn current_view(&self) -> int {
        self.current as int
    }

    /// The rotation has at least one server and stands inside the list.
    pub closed spec fn wf(&self) -> bool {
        self.servers@.len() > 0 && (self.current as int) < self.servers@.len()
    }

    pub fn new(servers: Vec<String>) -> (r: RoundRobinLoadBalancer)
        ensures
            r.servers_view() == servers.deep_view(),
            r.current_view() == 0,
            servers@.len() > 0 ==> r.wf(),
    {
        RoundRobinLoadBalancer { servers, current: 0 }
    }

    /// Hands out the server under the rotation index and advances the
    /// index cyclically.
    pub fn next_server(&mut self) -> (r: String)
        requires
            old(self).wf(),
        ensures
            final(self).wf(),
            final(self).servers_view() == old(self).servers_view(),
            r@ == old(self).servers_view()[old(self).current_view()],
            final(self).current_view() == (old(self).current_view() + 1) % (
            old(self).servers_view().len() as int),
    {
        let n = self.servers.len();
        let server = self.servers[self.current].clone();
        self.current = (self.current + 1) % n;
        server
    }
}

} // verus!
