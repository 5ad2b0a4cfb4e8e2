//! Fetching partitions from the servers that have them.
use vstd::prelude::*;

verus! {

/// One partition to fetch.
#[derive(Clone, Copy, Debug, PartialEq, Eq, Structural)]
pub struct TicketRef {
    pub attempt: u64,
    pub partition_ref_id: u64,
}

/// A connection to a server.
pub struct ServerClient<C> {
    pub address: String,
    pub client: C,
}

/// The connections to all servers, one for each.
pub struct FlightClientManager<C> {
    pub clients: Vec<ServerClient<C>>,
}

/// How many of `n` partitions the requests before the `k`th have asked for.
pub open spec fn asked_before(n: nat, max: nat, k: int) -> int {
    if k * max < n { k * max } else { n as int }
}

/// How many requests it takes to ask for `n` partitions. There is always one.
pub open spec fn request_count(n: nat, max: nat) -> int {
    if n <= max { 1 } else { (n + max - 1) / max as int }
}

/// The requests for partitions of one server, in order and one after the other. A request names
/// no more than `max`.
pub fn ticket_chunks(refs: &Vec<TicketRef>, max: usize) -> (chunks: Vec<Vec<TicketRef>>)
    requires
        max > 0,
    ensures
        chunks@.len() == request_count(refs@.len(), max as nat),
        forall|k: int|
            0 <= k < chunks@.len() ==> (#[trigger] chunks@[k])@ == refs@.subrange(
                asked_before(refs@.len(), max as nat, k),
                asked_before(refs@.len(), max as nat, k + 1),
            ),
{
    let n: usize = refs.len();
    let mut chunks: Vec<Vec<TicketRef>> = Vec::new();
    let mut start: usize = 0;
    let mut first: bool = true;
    while first || start < n
        invariant
            max > 0,
            n == refs@.len(),
            start <= n,
            first ==> chunks@.len() == 0,
            !first ==> chunks@.len() > 0,
            start == asked_before(n as nat, max as nat, chunks@.len() as int),
            !first && start < n ==> start == chunks@.len() * max,
            !first && start >= n ==> (chunks@.len() - 1) * max < n || chunks@.len() == 1,
            forall|k: int|
                0 <= k < chunks@.len() ==> (#[trigger] chunks@[k])@ == refs@.subrange(
                    asked_before(refs@.len(), max as nat, k),
                    asked_before(refs@.len(), max as nat, k + 1),
                ),
        decreases n - start, (if first {
            1int
        } else {
            0int
        }),
    {
        let end: usize = if n - start > max {
            start + max
        } else {
            n
        };
        let ghost count = chunks@.len() as int;
        proof {
            assert((count + 1) * max == count * max + max) by (nonlinear_arith);
            if first {
                assert(0 * max == 0) by (nonlinear_arith);
            }
        }
        let mut chunk: Vec<TicketRef> = Vec::new();
        let mut i: usize = start;
        while i < end
            invariant
                start <= i <= end <= n == refs@.len(),
                chunk@ == refs@.subrange(start as int, i as int),
            decreases end - i,
        {
            chunk.push(refs[i]);
            i = i + 1;
            assert(chunk@ =~= refs@.subrange(start as int, i as int));
        }
        assert(chunk@ =~= refs@.subrange(start as int, end as int));
        chunks.push(chunk);
        start = end;
        first = false;
    }
    proof {
        let c = chunks@.len() as int;
        if n > max {
            assert(c == (n + max - 1) / max as int) by (nonlinear_arith)
                requires
                    c * max >= n,
                    (c - 1) * max < n,
                    max > 0,
            ;
        } else {
            assert(c == 1) by (nonlinear_arith)
                requires
                    c >= 1,
                    (c - 1) * max < n || c == 1,
                    n <= max,
                    max > 0,
            ;
        }
    }
    chunks
}

/// How partitions are fetched from a server.
#[derive(Debug)]
pub struct FetchPlan {
    /// Which connection is used; none, where there is none yet.
    pub client: Option<usize>,
    pub requests: Vec<Vec<TicketRef>>,
}

impl<C> FlightClientManager<C> {
    /// No server has two connections.
    pub open spec fn wf(&self) -> bool {
        forall|i: int, j: int|
            #![trigger self.clients@[i], self.clients@[j]]
            0 <= i < j < self.clients@.len() ==> self.clients@[i].address@
                != self.clients@[j].address@
    }

    /// Whether there is a connection to a server.
    pub open spec fn connected(&self, address: Seq<char>) -> bool {
        exists|i: int| 0 <= i < self.clients@.len() && (#[trigger] self.clients@[i]).address@ == address
    }

    /// No connections.
    pub fn new() -> (m: FlightClientManager<C>)
        ensures
            m.wf(),
            m.clients@.len() == 0,
    {
        FlightClientManager { clients: Vec::new() }
    }

    /// How partitions are fetched from a server.
    pub fn fetch_partition(
        &self,
        server_address: &String,
        refs: &Vec<TicketRef>,
        max_ticket_refs: usize,
    ) -> (p: FetchPlan)
        requires
            max_ticket_refs > 0,
        ensures
            p.client is Some <==> self.connected(server_address@),
            p.client matches Some(i) ==> i < self.clients@.len()
                && self.clients@[i as int].address@ == server_address@,
            p.requests@.len() == request_count(refs@.len(), max_ticket_refs as nat),
            forall|k: int|
                0 <= k < p.requests@.len() ==> (#[trigger] p.requests@[k])@ == refs@.subrange(
                    asked_before(refs@.len(), max_ticket_refs as nat, k),
                    asked_before(refs@.len(), max_ticket_refs as nat, k + 1),
                ),
    {
        let mut client: Option<usize> = None;
        let mut i: usize = 0;
        while i < self.clients.len() && client.is_none()
            invariant
                i <= self.clients@.len(),
                client is None ==> forall|k: int|
                    0 <= k < i ==> (#[trigger] self.clients@[k]).address@ != server_address@,
                client matches Some(c) ==> c < self.clients@.len()
                    && self.clients@[c as int].address@ == server_address@,
            decreases self.clients@.len() - i,
        {
            if self.clients[i].address == *server_address {
                client = Some(i);
            }
            i = i + 1;
        }
        FetchPlan { client, requests: ticket_chunks(refs, max_ticket_refs) }
    }

    /// Keeps a new connection.
    pub fn connect(&mut self, server_address: String, client: C)
        requires
            old(self).wf(),
            !old(self).connected(server_address@),
        ensures
            final(self).wf(),
            final(self).clients@ == old(self).clients@.push(
                ServerClient { address: server_address, client },
            ),
            final(self).connected(server_address@),
    {
        let ghost before = self.clients@;
        let ghost address = server_address@;
        self.clients.push(ServerClient { address: server_address, client });
        proof {
            let after = self.clients@;
            assert forall|i: int, j: int|
                #![trigger after[i], after[j]]
                0 <= i < j < after.len() implies after[i].address@ != after[j].address@ by {
                assert(after[i] == before[i]);
                if j < before.len() {
                    assert(after[j] == before[j]);
                }
            }
            assert(after[before.len() as int].address@ == address);
        }
    }
}

/// The requests together ask for every partition once, in order: each begins where the one
/// before it ended, the first at the beginning and the last up to the end.
pub proof fn requests_cover_all(n: nat, max: nat, k: int)
    requires
        max > 0,
        0 <= k < request_count(n, max),
    ensures
        asked_before(n, max, 0) == 0,
        asked_before(n, max, request_count(n, max)) == n,
        asked_before(n, max, k) <= asked_before(n, max, k + 1),
        asked_before(n, max, k + 1) - asked_before(n, max, k) <= max,
{
    let c = request_count(n, max);
    assert(0 * max == 0) by (nonlinear_arith);
    assert(k * max <= (k + 1) * max && (k + 1) * max - k * max == max) by (nonlinear_arith);
    if n > max {
        assert(((n + max - 1) / max as int) * max >= n) by (nonlinear_arith)
            requires
                max > 0,
        ;
    } else {
        assert(1 * max == max) by (nonlinear_arith);
    }
}

/// There are no more requests than it takes: all but the last name as many partitions as one
/// may, and there is one even where no partition is asked for.
pub proof fn requests_are_as_few_as_can_be(n: nat, max: nat, k: int)
    requires
        max > 0,
    ensures
        n == 0 ==> request_count(n, max) == 1,
        n > 0 ==> (request_count(n, max) - 1) * max < n <= request_count(n, max) * max,
        0 <= k < request_count(n, max) - 1 ==> asked_before(n, max, k + 1) - asked_before(n, max, k)
            == max,
{
    let c = request_count(n, max);
    if n <= max {
        assert(0 * max == 0) by (nonlinear_arith);
        assert(1 * max == max) by (nonlinear_arith);
    } else {
        let x = n + max - 1;
        assert((c - 1) * max < n <= c * max) by (nonlinear_arith)
            requires
                max > 0,
                x == n + max - 1,
                c == x / max as int,
        ;
    }
    if 0 <= k < c - 1 {
        assert((k + 1) * max == k * max + max) by (nonlinear_arith);
        assert((k + 1) * max <= (c - 1) * max) by (nonlinear_arith)
            requires
                k + 1 <= c - 1,
                max > 0,
        ;
    }
}

/// There is a connection to a server exactly where one of the connections has its address; and
/// there is at most one.
pub proof fn servers_have_one_connection<C>(m: FlightClientManager<C>, address: Seq<char>, i: int, j: int)
    requires
        m.wf(),
    ensures
        0 <= i < m.clients@.len() && m.clients@[i].address@ == address ==> m.connected(address),
        m.connected(address) ==> exists|k: int|
            0 <= k < m.clients@.len() && (#[trigger] m.clients@[k]).address@ == address,
        0 <= i < m.clients@.len() && 0 <= j < m.clients@.len() && m.clients@[i].address@
            == m.clients@[j].address@ ==> i == j,
{
    if 0 <= i < m.clients@.len() && 0 <= j < m.clients@.len() {
        if i < j {
            assert(m.clients@[i].address@ != m.clients@[j].address@);
        } else if j < i {
            assert(m.clients@[j].address@ != m.clients@[i].address@);
        }
    }
}

} // verus!
