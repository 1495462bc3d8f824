//! The course of a connection, and the servers behind each listener.
//!
//! A connection is either collecting a request or sending an answer. What goes on
//! at the sockets is told to it; it tells when there is something to send, what has
//! to be done first, and when to close.

use vstd::prelude::*;
use vstd::slice::{slice_subrange, slice_to_vec};

use crate::config;
use crate::config::{ServerConfig, ServerView};
use crate::framing;
use crate::handlers;
use crate::handlers::{Effect, EffectView, Handler, HandlerView, Reply, Step, StepView, Task, TaskView};
use crate::http;
use crate::http::{Outcome, ParseStatus, Request, RequestView, Response, ResponseView};
use crate::strmap::StrMap;
use crate::text;

verus! {

/// Idle connections are dropped after this long, in nanoseconds; connections with a
/// half-received request get a 408 first.
pub const TIMEOUT: u64 = 15 * 1_000_000_000;

/// Absolute cap while reading, before the per-server limit applies.
pub const HARD_BODY_CAP: usize = 512 * 1024 * 1024;

/// A body over the limit of its server is cut off right away if it is announced
/// to be larger than this.
pub const EARLY_CUTOFF: usize = 64 * 1024 * 1024;

// --------------------------------------------------------------------- listeners

/// The servers that answer on one address, in configuration order.
pub struct Group {
    pub host: String,
    pub port: u16,
    pub servers: Vec<usize>,
}

/// The servers that answer on one address.
#[verifier::ext_equal]
pub struct GroupView {
    pub host: Seq<char>,
    pub port: u16,
    pub servers: Seq<usize>,
}

impl View for Group {
    type V = GroupView;

    open spec fn view(&self) -> GroupView {
        GroupView { host: self.host@, port: self.port, servers: self.servers@ }
    }
}

/// What each group says.
pub open spec fn views(groups: Seq<Group>) -> Seq<GroupView> {
    Seq::new(groups.len(), |i: int| groups[i]@)
}

/// The groups with a server more on an address: in the group of that address, or in
/// a new one behind the others.
pub open spec fn with_server(
    groups: Seq<GroupView>,
    host: Seq<char>,
    port: u16,
    index: usize,
) -> Seq<GroupView>
    decreases groups.len(),
{
    if groups.len() == 0 {
        seq![GroupView { host, port, servers: seq![index] }]
    } else if groups[0].host == host && groups[0].port == port {
        groups.update(0, GroupView { servers: groups[0].servers.push(index), ..groups[0] })
    } else {
        seq![groups[0]] + with_server(groups.skip(1), host, port, index)
    }
}

/// The groups with a server more on each of its addresses.
pub open spec fn with_ports(
    groups: Seq<GroupView>,
    host: Seq<char>,
    ports: Seq<u16>,
    index: usize,
) -> Seq<GroupView>
    decreases ports.len(),
{
    if ports.len() == 0 {
        groups
    } else {
        with_server(with_ports(groups, host, ports.drop_last(), index), host, ports.last(), index)
    }
}

/// The servers grouped by address; the first server of a group is its default.
pub open spec fn grouped(servers: Seq<ServerView>) -> Seq<GroupView>
    decreases servers.len(),
{
    if servers.len() == 0 {
        seq![]
    } else {
        with_ports(
            grouped(servers.drop_last()),
            servers.last().host,
            servers.last().ports,
            (servers.len() - 1) as usize,
        )
    }
}

/// Adds a server to the group of an address.
fn add_server(groups: &mut Vec<Group>, host: &str, port: u16, index: usize)
    ensures
        views(final(groups)@) == with_server(views(old(groups)@), host@, port, index),
{
    let ghost start = views(groups@);
    let mut i: usize = 0;
    proof {
        assert(start.skip(0) =~= start);
        assert(start.take(0) + with_server(start, host@, port, index) =~= with_server(
            start,
            host@,
            port,
            index,
        ));
    }
    while i < groups.len()
        invariant
            i <= groups@.len(),
            start == views(groups@),
            with_server(start, host@, port, index) == start.take(i as int) + with_server(
                start.skip(i as int),
                host@,
                port,
                index,
            ),
        ensures
            i <= groups@.len(),
            start == views(groups@),
            with_server(start, host@, port, index) == start.take(i as int) + with_server(
                start.skip(i as int),
                host@,
                port,
                index,
            ),
            i < groups@.len() ==> start[i as int].host == host@ && start[i as int].port == port,
        decreases groups@.len() - i,
    {
        assert(start[i as int] == groups@[i as int]@);
        if groups[i].port == port && text::same_text(groups[i].host.as_str(), host) {
            break;
        }
        proof {
            let rest = start.skip(i as int);
            assert(rest.skip(1) =~= start.skip(i + 1));
            assert(rest[0] == start[i as int]);
            let tail = with_server(start.skip(i + 1), host@, port, index);
            assert(start.take(i as int) + (seq![rest[0]] + tail) =~= start.take(i + 1) + tail);
        }
        i += 1;
    }
    if i < groups.len() {
        let mut group: Group = groups.remove(i);
        let ghost before = group@;
        group.servers.push(index);
        let ghost after = group@;
        groups.insert(i, group);
        proof {
            let rest = start.skip(i as int);
            assert(rest[0] == before);
            assert(after == (GroupView { servers: before.servers.push(index), ..before }));
            assert(views(groups@) =~= start.take(i as int) + rest.update(0, after));
        }
    } else {
        let mut servers: Vec<usize> = Vec::new();
        servers.push(index);
        let group: Group = Group { host: host.to_owned(), port, servers };
        let ghost added = group@;
        groups.push(group);
        proof {
            assert(start.take(i as int) =~= start);
            assert(added.servers =~= seq![index]);
            assert(views(groups@) =~= start.push(added));
            assert(start.skip(i as int) =~= seq![]);
            assert(start.push(added) =~= start + seq![added]);
        }
    }
}

/// Groups servers by address; the first server of a group is its default.
pub fn group_servers(servers: &Vec<ServerConfig>) -> (groups: Vec<Group>)
    ensures
        views(groups@) == grouped(config::server_views(servers@)),
{
    let ghost all = config::server_views(servers@);
    let mut groups: Vec<Group> = Vec::new();
    let mut index: usize = 0;
    assert(views(groups@) =~= grouped(all.take(0)));
    while index < servers.len()
        invariant
            index <= servers@.len(),
            all == config::server_views(servers@),
            views(groups@) == grouped(all.take(index as int)),
        decreases servers@.len() - index,
    {
        let server: &ServerConfig = &servers[index];
        let ghost before = views(groups@);
        let mut k: usize = 0;
        assert(server.ports@.take(0) =~= seq![]);
        while k < server.ports.len()
            invariant
                k <= server.ports@.len(),
                views(groups@) == with_ports(
                    before,
                    server.host@,
                    server.ports@.take(k as int),
                    index,
                ),
            decreases server.ports@.len() - k,
        {
            add_server(&mut groups, server.host.as_str(), server.ports[k], index);
            assert(server.ports@.take(k + 1).drop_last() =~= server.ports@.take(k as int));
            k += 1;
        }
        proof {
            assert(server.ports@.take(k as int) =~= server.ports@);
            let upto = all.take(index + 1);
            assert(upto.drop_last() =~= all.take(index as int));
            assert(upto.last() == server@);
        }
        index += 1;
    }
    assert(all.take(index as int) =~= all);
    groups
}

/// The groups are for different addresses, each has a server, and every server in
/// one answers on its address.
pub open spec fn well_grouped(servers: Seq<ServerView>, groups: Seq<GroupView>) -> bool {
    &&& forall|i: int, j: int|
        0 <= i < j < groups.len() ==> (#[trigger] groups[i]).host != (#[trigger] groups[j]).host
            || groups[i].port != groups[j].port
    &&& forall|i: int| 0 <= i < groups.len() ==> (#[trigger] groups[i]).servers.len() > 0
    &&& forall|i: int, k: int|
        0 <= i < groups.len() && 0 <= k < groups[i].servers.len() ==> {
            let s = #[trigger] groups[i].servers[k];
            s < servers.len() && servers[s as int].host == groups[i].host
                && servers[s as int].ports.contains(groups[i].port)
        }
}

/// The server is in the group of the address.
pub open spec fn reachable(groups: Seq<GroupView>, host: Seq<char>, port: u16, index: usize) -> bool {
    exists|i: int|
        0 <= i < groups.len() && (#[trigger] groups[i]).host == host && groups[i].port == port
            && groups[i].servers.contains(index)
}

proof fn lemma_with_server(
    servers: Seq<ServerView>,
    groups: Seq<GroupView>,
    host: Seq<char>,
    port: u16,
    index: usize,
)
    requires
        well_grouped(servers, groups),
        index < servers.len(),
        servers[index as int].host == host,
        servers[index as int].ports.contains(port),
    ensures
        well_grouped(servers, with_server(groups, host, port, index)),
        reachable(with_server(groups, host, port, index), host, port, index),
        forall|h: Seq<char>, p: u16, s: usize|
            reachable(groups, h, p, s) ==> #[trigger] reachable(
                with_server(groups, host, port, index),
                h,
                p,
                s,
            ),
        forall|i: int|
            0 <= i < with_server(groups, host, port, index).len() ==> {
                let g = #[trigger] with_server(groups, host, port, index)[i];
                ||| g.host == host && g.port == port
                ||| exists|j: int| 0 <= j < groups.len() && groups[j] == g
            },
    decreases groups.len(),
{
    let all = with_server(groups, host, port, index);
    if groups.len() == 0 {
        assert(all[0].servers[0] == index);
        assert(all[0].servers.contains(index));
        assert(reachable(all, host, port, index));
    } else if groups[0].host == host && groups[0].port == port {
        let g = groups[0].servers;
        assert(all[0].servers[g.len() as int] == index);
        assert(all[0].servers.contains(index));
        assert(reachable(all, host, port, index));
        assert forall|i: int, k: int|
            0 <= i < all.len() && 0 <= k < all[i].servers.len() implies {
            let s = #[trigger] all[i].servers[k];
            s < servers.len() && servers[s as int].host == all[i].host
                && servers[s as int].ports.contains(all[i].port)
        } by {
            if i > 0 {
                assert(groups[i].servers[k] == all[i].servers[k]);
            } else if k < g.len() {
                assert(groups[0].servers[k] == all[0].servers[k]);
            }
        }
        assert forall|i: int, j: int| 0 <= i < j < all.len() implies (#[trigger] all[i]).host != (
        #[trigger] all[j]).host || all[i].port != all[j].port by {
            assert(groups[i].host != groups[j].host || groups[i].port != groups[j].port);
        }
        assert forall|i: int| 0 <= i < all.len() implies (#[trigger] all[i]).servers.len() > 0 by {
            assert(groups[i].servers.len() > 0);
        }
        assert forall|h: Seq<char>, p: u16, s: usize| reachable(groups, h, p, s) implies #[trigger] reachable(
            all,
            h,
            p,
            s,
        ) by {
            let i = choose|i: int|
                0 <= i < groups.len() && (#[trigger] groups[i]).host == h && groups[i].port == p
                    && groups[i].servers.contains(s);
            let k = choose|k: int| 0 <= k < groups[i].servers.len() && groups[i].servers[k] == s;
            assert(all[i].servers[k] == s);
            assert(all[i].host == h && all[i].port == p && all[i].servers.contains(s));
        }
        assert forall|i: int| 0 <= i < all.len() implies {
            let g = #[trigger] all[i];
            ||| g.host == host && g.port == port
            ||| exists|j: int| 0 <= j < groups.len() && groups[j] == g
        } by {
            if i > 0 {
                assert(groups[i] == all[i]);
            }
        }
    } else {
        let rest = groups.skip(1);
        assert forall|i: int, j: int| 0 <= i < j < rest.len() implies (#[trigger] rest[i]).host != (
        #[trigger] rest[j]).host || rest[i].port != rest[j].port by {
            assert(groups[i + 1].host != groups[j + 1].host || groups[i + 1].port != groups[j
                + 1].port);
        }
        assert forall|i: int| 0 <= i < rest.len() implies (#[trigger] rest[i]).servers.len() > 0 by {
            assert(groups[i + 1].servers.len() > 0);
        }
        assert forall|i: int, k: int|
            0 <= i < rest.len() && 0 <= k < rest[i].servers.len() implies {
            let s = #[trigger] rest[i].servers[k];
            s < servers.len() && servers[s as int].host == rest[i].host
                && servers[s as int].ports.contains(rest[i].port)
        } by {
            assert(groups[i + 1].servers[k] == rest[i].servers[k]);
        }
        lemma_with_server(servers, rest, host, port, index);
        let tail = with_server(rest, host, port, index);
        assert forall|i: int, j: int| 0 <= i < j < all.len() implies (#[trigger] all[i]).host != (
        #[trigger] all[j]).host || all[i].port != all[j].port by {
            assert(all[j] == tail[j - 1]);
            if i > 0 {
                assert(all[i] == tail[i - 1]);
            } else {
                let g = tail[j - 1];
                if !(g.host == host && g.port == port) {
                    let m = choose|m: int| 0 <= m < rest.len() && rest[m] == g;
                    assert(groups[m + 1] == g);
                    assert(groups[0].host != groups[m + 1].host || groups[0].port != groups[m
                        + 1].port);
                }
            }
        }
        assert forall|i: int| 0 <= i < all.len() implies (#[trigger] all[i]).servers.len() > 0 by {
            if i > 0 {
                assert(all[i] == tail[i - 1]);
            } else {
                assert(groups[0].servers.len() > 0);
            }
        }
        assert forall|i: int, k: int|
            0 <= i < all.len() && 0 <= k < all[i].servers.len() implies {
            let s = #[trigger] all[i].servers[k];
            s < servers.len() && servers[s as int].host == all[i].host
                && servers[s as int].ports.contains(all[i].port)
        } by {
            if i > 0 {
                assert(all[i] == tail[i - 1]);
                assert(tail[i - 1].servers[k] == all[i].servers[k]);
            } else {
                assert(groups[0].servers[k] == all[0].servers[k]);
            }
        }
        assert forall|h: Seq<char>, p: u16, s: usize| reachable(tail, h, p, s) implies #[trigger] reachable(
            all,
            h,
            p,
            s,
        ) by {
            let i = choose|i: int|
                0 <= i < tail.len() && (#[trigger] tail[i]).host == h && tail[i].port == p
                    && tail[i].servers.contains(s);
            assert(all[i + 1] == tail[i]);
        }
        assert forall|h: Seq<char>, p: u16, s: usize| reachable(groups, h, p, s) implies #[trigger] reachable(
            all,
            h,
            p,
            s,
        ) by {
            let i = choose|i: int|
                0 <= i < groups.len() && (#[trigger] groups[i]).host == h && groups[i].port == p
                    && groups[i].servers.contains(s);
            if i == 0 {
                assert(all[0] == groups[0]);
            } else {
                assert(rest[i - 1] == groups[i]);
                assert(reachable(rest, h, p, s));
                assert(reachable(tail, h, p, s));
            }
        }
        assert forall|i: int| 0 <= i < all.len() implies {
            let g = #[trigger] all[i];
            ||| g.host == host && g.port == port
            ||| exists|j: int| 0 <= j < groups.len() && groups[j] == g
        } by {
            if i == 0 {
                assert(groups[0] == all[0]);
            } else {
                let g = tail[i - 1];
                assert(all[i] == g);
                if !(g.host == host && g.port == port) {
                    let m = choose|m: int| 0 <= m < rest.len() && rest[m] == g;
                    assert(groups[m + 1] == g);
                }
            }
        }
    }
}

proof fn lemma_with_ports(
    servers: Seq<ServerView>,
    groups: Seq<GroupView>,
    ports: Seq<u16>,
    index: usize,
)
    requires
        well_grouped(servers, groups),
        index < servers.len(),
        forall|k: int| 0 <= k < ports.len() ==> servers[index as int].ports.contains(#[trigger] ports[k]),
    ensures
        ({
            let all = with_ports(groups, servers[index as int].host, ports, index);
            &&& well_grouped(servers, all)
            &&& forall|k: int|
                0 <= k < ports.len() ==> reachable(
                    all,
                    servers[index as int].host,
                    #[trigger] ports[k],
                    index,
                )
            &&& forall|h: Seq<char>, p: u16, s: usize|
                reachable(groups, h, p, s) ==> #[trigger] reachable(all, h, p, s)
        }),
    decreases ports.len(),
{
    if ports.len() > 0 {
        let host = servers[index as int].host;
        let front = ports.drop_last();
        assert forall|k: int| 0 <= k < front.len() implies servers[index as int].ports.contains(
            #[trigger] front[k],
        ) by {
            assert(front[k] == ports[k]);
        }
        lemma_with_ports(servers, groups, front, index);
        let before = with_ports(groups, host, front, index);
        assert(servers[index as int].ports.contains(ports[ports.len() - 1]));
        lemma_with_server(servers, before, host, ports.last(), index);
        let all = with_ports(groups, host, ports, index);
        assert forall|k: int| 0 <= k < ports.len() implies reachable(
            all,
            host,
            #[trigger] ports[k],
            index,
        ) by {
            if k < front.len() {
                assert(reachable(before, host, front[k], index));
            }
        }
        assert forall|h: Seq<char>, p: u16, s: usize| reachable(groups, h, p, s) implies #[trigger] reachable(
            all,
            h,
            p,
            s,
        ) by {
            assert(reachable(before, h, p, s));
        }
    }
}

proof fn lemma_well_grouped_more(servers: Seq<ServerView>, more: ServerView, groups: Seq<GroupView>)
    requires
        well_grouped(servers, groups),
    ensures
        well_grouped(servers.push(more), groups),
{
    let all = servers.push(more);
    assert forall|i: int, k: int|
        0 <= i < groups.len() && 0 <= k < groups[i].servers.len() implies {
        let s = #[trigger] groups[i].servers[k];
        s < all.len() && all[s as int].host == groups[i].host && all[s as int].ports.contains(
            groups[i].port,
        )
    } by {
        let s = groups[i].servers[k];
        assert(all[s as int] == servers[s as int]);
    }
}

/// Every server is behind a listener on each of its addresses, and a listener has
/// servers of its own address only, at least one.
pub proof fn every_server_is_reachable(servers: Seq<ServerView>)
    requires
        servers.len() <= usize::MAX,
    ensures
        well_grouped(servers, grouped(servers)),
        forall|s: int, k: int|
            0 <= s < servers.len() && 0 <= k < servers[s].ports.len() ==> reachable(
                grouped(servers),
                servers[s].host,
                #[trigger] servers[s].ports[k],
                s as usize,
            ),
    decreases servers.len(),
{
    if servers.len() > 0 {
        let front = servers.drop_last();
        let last = servers.last();
        let index = (servers.len() - 1) as usize;
        every_server_is_reachable(front);
        assert(servers =~= front.push(last));
        lemma_well_grouped_more(front, last, grouped(front));
        lemma_with_ports(servers, grouped(front), last.ports, index);
        assert forall|s: int, k: int|
            0 <= s < servers.len() && 0 <= k < servers[s].ports.len() implies reachable(
            grouped(servers),
            servers[s].host,
            #[trigger] servers[s].ports[k],
            s as usize,
        ) by {
            if s < front.len() {
                assert(front[s] == servers[s]);
                assert(reachable(grouped(front), front[s].host, front[s].ports[k], s as usize));
            } else {
                assert(last.ports[k] == servers[s].ports[k]);
            }
        }
    }
}

/// The servers in each group come in order, up to `last`.
pub open spec fn in_config_order(groups: Seq<GroupView>, last: usize) -> bool {
    forall|i: int, k: int, l: int|
        0 <= i < groups.len() && 0 <= k <= l < groups[i].servers.len()
            ==> #[trigger] groups[i].servers[k] <= #[trigger] groups[i].servers[l] <= last
}

proof fn lemma_order_kept(groups: Seq<GroupView>, host: Seq<char>, port: u16, index: usize)
    requires
        in_config_order(groups, index),
    ensures
        in_config_order(with_server(groups, host, port, index), index),
    decreases groups.len(),
{
    let all = with_server(groups, host, port, index);
    if groups.len() == 0 {
    } else if groups[0].host == host && groups[0].port == port {
        let n = groups[0].servers.len() as int;
        assert forall|i: int, k: int, l: int|
            0 <= i < all.len() && 0 <= k <= l
                < all[i].servers.len() implies #[trigger] all[i].servers[k]
            <= #[trigger] all[i].servers[l] <= index by {
            if i > 0 || l < n {
                assert(groups[i].servers[k] <= groups[i].servers[l] <= index);
            } else if k < n {
                assert(groups[i].servers[k] <= groups[i].servers[k] <= index);
            }
        }
    } else {
        let rest = groups.skip(1);
        assert forall|i: int, k: int, l: int|
            0 <= i < rest.len() && 0 <= k <= l
                < rest[i].servers.len() implies #[trigger] rest[i].servers[k]
            <= #[trigger] rest[i].servers[l] <= index by {
            assert(groups[i + 1].servers[k] <= groups[i + 1].servers[l] <= index);
        }
        lemma_order_kept(rest, host, port, index);
        let tail = with_server(rest, host, port, index);
        assert forall|i: int, k: int, l: int|
            0 <= i < all.len() && 0 <= k <= l
                < all[i].servers.len() implies #[trigger] all[i].servers[k]
            <= #[trigger] all[i].servers[l] <= index by {
            if i > 0 {
                assert(all[i] == tail[i - 1]);
                assert(tail[i - 1].servers[k] <= tail[i - 1].servers[l] <= index);
            } else {
                assert(groups[0].servers[k] <= groups[0].servers[l] <= index);
            }
        }
    }
}

proof fn lemma_order_kept_on_ports(
    groups: Seq<GroupView>,
    host: Seq<char>,
    ports: Seq<u16>,
    index: usize,
)
    requires
        in_config_order(groups, index),
    ensures
        in_config_order(with_ports(groups, host, ports, index), index),
    decreases ports.len(),
{
    if ports.len() > 0 {
        lemma_order_kept_on_ports(groups, host, ports.drop_last(), index);
        lemma_order_kept(
            with_ports(groups, host, ports.drop_last(), index),
            host,
            ports.last(),
            index,
        );
    }
}

/// The servers behind a listener come in configuration order, so the default one
/// is the first that was configured for the address.
pub proof fn default_server_is_the_first_configured(servers: Seq<ServerView>)
    requires
        servers.len() <= usize::MAX,
    ensures
        servers.len() > 0 ==> in_config_order(grouped(servers), (servers.len() - 1) as usize),
    decreases servers.len(),
{
    if servers.len() > 0 {
        let front = servers.drop_last();
        let index = (servers.len() - 1) as usize;
        default_server_is_the_first_configured(front);
        assert(in_config_order(grouped(front), index)) by {
            let groups = grouped(front);
            assert forall|i: int, k: int, l: int|
                0 <= i < groups.len() && 0 <= k <= l
                    < groups[i].servers.len() implies #[trigger] groups[i].servers[k]
                <= #[trigger] groups[i].servers[l] <= index by {
                assert(groups[i].servers[k] <= groups[i].servers[l] <= (front.len()
                    - 1) as usize);
            }
        }
        lemma_order_kept_on_ports(
            grouped(front),
            servers.last().host,
            servers.last().ports,
            index,
        );
    }
}

/// A handler can answer behind every listener whose servers are such a group.
pub proof fn every_listener_is_served(
    servers: Seq<ServerView>,
    groups: Seq<GroupView>,
    handler: HandlerView,
    listener: int,
    i: int,
)
    requires
        well_grouped(servers, groups),
        handler.servers == servers,
        0 <= listener < handler.groups.len(),
        0 <= i < groups.len(),
        handler.groups[listener] == groups[i].servers,
    ensures
        handler.serves(listener),
{
    assert(groups[i].servers.len() > 0);
    assert forall|k: int|
        0 <= k < handler.groups[listener].len() implies (#[trigger] handler.groups[listener][k])
        < servers.len() by {
        assert(groups[i].servers[k] < servers.len());
    }
}

// -------------------------------------------------------------------- connections

/// What a connection is doing.
#[derive(Debug, Clone, Copy, PartialEq, Eq, Structural)]
pub enum Phase {
    Reading,
    Writing,
}

/// A client and how far its current request has come.
pub struct Connection {
    listener: usize,
    read_buffer: Vec<u8>,
    write_buffer: Vec<u8>,
    written: usize,
    phase: Phase,
    keep_alive: bool,
    last_active: u64,
    /// A request has been partially received.
    request_pending: bool,
    /// A 408 has already been queued; the next sweep closes the socket.
    timed_out: bool,
}

/// How far a client's current request has come.
#[verifier::ext_equal]
pub struct ConnectionView {
    /// The listener that the client came through.
    pub listener: int,
    /// What was received and is not yet used up.
    pub received: Seq<u8>,
    /// The answer that is being sent.
    pub outgoing: Seq<u8>,
    /// How much of it has been sent.
    pub written: int,
    pub phase: Phase,
    /// The connection stays open behind the answer.
    pub keep_alive: bool,
    /// When something last happened.
    pub last_active: u64,
    pub request_pending: bool,
    pub timed_out: bool,
}

impl View for Connection {
    type V = ConnectionView;

    closed spec fn view(&self) -> ConnectionView {
        ConnectionView {
            listener: self.listener as int,
            received: self.read_buffer@,
            outgoing: self.write_buffer@,
            written: self.written as int,
            phase: self.phase,
            keep_alive: self.keep_alive,
            last_active: self.last_active,
            request_pending: self.request_pending,
            timed_out: self.timed_out,
        }
    }
}

/// A request whose answer waits for an effect.
pub struct Job {
    request: Request,
    keep_alive: bool,
    task: Task,
}

/// A request whose answer waits for an effect.
#[verifier::ext_equal]
pub struct JobView {
    pub request: RequestView,
    pub keep_alive: bool,
    pub task: TaskView,
}

impl Job {
    /// The request that the answer is for.
    pub fn request(&self) -> (request: &Request)
        ensures
            request@ == self@.request,
    {
        &self.request
    }
}

impl View for Job {
    type V = JobView;

    closed spec fn view(&self) -> JobView {
        JobView { request: self.request@, keep_alive: self.keep_alive, task: self.task@ }
    }
}

/// What a connection needs next.
pub enum Turn {
    /// Nothing but more bytes.
    Wait,
    /// Its answer has to be sent.
    Send,
    /// An effect, before its answer can be given.
    Perform { job: Job, effect: Effect },
}

/// What a connection needs next.
#[verifier::ext_equal]
pub enum TurnView {
    Wait,
    Send,
    Perform { job: JobView, effect: EffectView },
}

impl View for Turn {
    type V = TurnView;

    open spec fn view(&self) -> TurnView {
        match self {
            Turn::Wait => TurnView::Wait,
            Turn::Send => TurnView::Send,
            Turn::Perform { job, effect } => TurnView::Perform { job: job@, effect: effect@ },
        }
    }
}

/// What a read from the socket of a client came to.
pub enum SocketRead<'a> {
    /// The client closed the connection.
    Closed,
    /// Some bytes came.
    Data(&'a [u8]),
    /// There was nothing to read after all.
    NotReady,
    /// The read failed.
    Failed,
}

/// What a write to the socket of a client came to.
pub enum SocketWrite {
    /// The client closed the connection.
    Closed,
    /// Some bytes were taken.
    Sent(usize),
    /// There was no room after all.
    NotReady,
    /// The write failed.
    Failed,
}

/// What becomes of a connection.
pub enum Fate {
    /// It is dropped.
    Drop,
    /// It stays, and needs this next.
    Keep(Turn),
}

/// What becomes of a connection of which some bytes were sent.
#[derive(Debug, Clone, Copy, PartialEq, Eq, Structural)]
pub enum AfterWrite {
    /// There is more to send.
    More,
    /// The answer is sent, and the connection is done with.
    Close,
    /// The answer is sent, and the next request can come.
    Next,
}

/// What becomes of a connection that was looked at for a timeout.
pub enum Swept {
    /// It stays.
    Keep,
    /// It is closed.
    Close,
    /// It is told that its time is up.
    Told(Turn),
}

impl ConnectionView {
    /// No more has been sent than there was.
    pub open spec fn sound(self) -> bool {
        0 <= self.written <= self.outgoing.len()
    }

    /// What is still to be sent.
    pub open spec fn unsent(self) -> Seq<u8> {
        self.outgoing.skip(self.written)
    }

    /// The connection with an answer to send.
    pub open spec fn answering(self, answer: Seq<u8>, keep_alive: bool) -> ConnectionView {
        ConnectionView {
            outgoing: answer,
            written: 0,
            keep_alive,
            phase: Phase::Writing,
            ..self
        }
    }

    /// The connection when some bytes of its answer were sent, and what becomes of
    /// it: it is done with when the answer is sent as a whole, unless it stays open
    /// for the next request.
    pub open spec fn after_sending(self, count: int) -> (AfterWrite, ConnectionView) {
        let c = ConnectionView { written: self.written + count, ..self };
        if c.written < c.outgoing.len() {
            (AfterWrite::More, c)
        } else if !c.keep_alive {
            (AfterWrite::Close, c)
        } else {
            (
                AfterWrite::Next,
                ConnectionView { outgoing: seq![], written: 0, phase: Phase::Reading, ..c },
            )
        }
    }

    /// What is due at a look for timeouts. A client that has left a request half
    /// sent is told, but once only, and not while an answer is on its way.
    pub open spec fn verdict(self, now: u64) -> Verdict {
        if now - self.last_active < TIMEOUT {
            Verdict::Keep
        } else if self.phase == Phase::Reading && self.request_pending && !self.timed_out {
            Verdict::Tell
        } else {
            Verdict::Close
        }
    }
}

/// What is due at a look for timeouts.
pub enum Verdict {
    Keep,
    Tell,
    Close,
}

/// A client that is told that its time is up is dropped at the next look, whether
/// or not it takes the answer, unless something happens in between.
pub proof fn told_client_is_dropped_next(
    c: ConnectionView,
    now: u64,
    answer: Seq<u8>,
    later: u64,
)
    requires
        c.verdict(now) == Verdict::Tell,
        now <= later,
    ensures
        (ConnectionView { timed_out: true, ..c }).verdict(later) == Verdict::Close,
        (ConnectionView { timed_out: true, ..c }).answering(answer, false).verdict(later)
            == Verdict::Close,
{
}

/// A client that stays idle does not stay for ever: at the latest when it has been
/// idle for the time limit it is told or dropped.
pub proof fn idle_client_does_not_stay(c: ConnectionView, now: u64)
    requires
        now - c.last_active >= TIMEOUT,
    ensures
        c.verdict(now) != Verdict::Keep,
        c.phase == Phase::Writing ==> c.verdict(now) == Verdict::Close,
{
}

/// A request that says nothing, for answers to what could not be read.
pub open spec fn blank() -> RequestView {
    RequestView {
        method: seq![],
        path: seq![],
        query: seq![],
        version: seq![],
        headers: Map::empty(),
        body: seq![],
    }
}

fn blank_request() -> (request: Request)
    ensures
        request@ == blank(),
{
    let request: Request = Request {
        method: String::new(),
        path: String::new(),
        query: String::new(),
        version: String::new(),
        headers: StrMap::new(),
        body: Vec::new(),
    };
    assert(request@ =~= blank());
    request
}

/// A step of an answer leads from one state of the connection to the other: an
/// answer that is there is queued, dated with the current time, and one that waits
/// is handed out.
pub open spec fn took_step(
    before: ConnectionView,
    step: StepView,
    request: RequestView,
    keep_alive: bool,
    after: ConnectionView,
    turn: TurnView,
) -> bool {
    match step {
        StepView::Done(response) => {
            &&& turn == TurnView::Send
            &&& exists|secs: u64|
                after == before.answering(
                    #[trigger] response.serialized(keep_alive, secs as int),
                    keep_alive,
                )
        },
        StepView::Await { task, effect } => {
            &&& after == before
            &&& turn == (TurnView::Perform { job: JobView { request, keep_alive, task }, effect })
        },
    }
}

/// The error answer to what a client has sent so far.
pub open spec fn error_for(handler: HandlerView, c: ConnectionView, status: u16) -> StepView {
    handlers::failing(
        handler.servers,
        handlers::plain_case(
            handler.server_index(c.listener, handlers::raw_host_of(c.received)) as int,
        ),
        status,
        None,
    )
}

/// The body that is announced is over the limit of its server and so large that it
/// is not waited for.
pub open spec fn cut_off_early(handler: HandlerView, c: ConnectionView) -> bool {
    match http::announced_length(c.received) {
        Some(declared) => {
            let server = handler.servers[handler.server_index(
                c.listener,
                handlers::raw_host_of(c.received),
            ) as int];
            declared > server.max_body_size && declared > EARLY_CUTOFF
        },
        None => false,
    }
}

/// A client is told that its time is up.
pub open spec fn told(
    handler: HandlerView,
    c: ConnectionView,
    d: ConnectionView,
    turn: TurnView,
) -> bool {
    took_step(
        ConnectionView { timed_out: true, ..c },
        error_for(handler, c, 408),
        blank(),
        false,
        d,
        turn,
    )
}

/// The answer to a client that has sent more than is ever taken.
pub open spec fn flooded() -> StepView {
    StepView::Done(ResponseView::html(413, "<h1>413 Payload Too Large</h1>"@))
}

/// What a connection does with what it has received.
pub open spec fn processed(
    before: HandlerView,
    c: ConnectionView,
    fresh: Seq<u8>,
    now: u64,
    after: HandlerView,
    d: ConnectionView,
    turn: TurnView,
) -> bool {
    let p = ConnectionView { request_pending: c.received.len() > 0, ..c };
    if c.phase != Phase::Reading {
        after == before && d == c && turn == TurnView::Wait
    } else if c.received.len() > HARD_BODY_CAP {
        after == before && took_step(p, flooded(), blank(), false, d, turn)
    } else {
        match http::read_request(c.received) {
            Outcome::NeedMoreHeaders => after == before && d == p && turn == TurnView::Wait,
            Outcome::NeedMoreBody => if cut_off_early(before, c) {
                after == before && took_step(p, error_for(before, c, 413), blank(), false, d, turn)
            } else {
                after == before && d == p && turn == TurnView::Wait
            },
            Outcome::Bad(_) => {
                after == before && took_step(p, error_for(before, c, 400), blank(), false, d, turn)
            },
            Outcome::Complete { request, used } => {
                let q = ConnectionView {
                    received: c.received.skip(used),
                    request_pending: false,
                    ..c
                };
                exists|step: StepView| #[trigger]
                    handlers::handled(before, request, c.listener, fresh, now, after, step)
                        && took_step(q, step, request, request.keeps_alive(), d, turn)
            },
        }
    }
}

proof fn lemma_processed(
    before: HandlerView,
    c: ConnectionView,
    fresh: Seq<u8>,
    now: u64,
    after: HandlerView,
    d: ConnectionView,
    turn: TurnView,
    step: StepView,
)
    requires
        c.phase == Phase::Reading,
        c.received.len() <= HARD_BODY_CAP,
        http::read_request(c.received) is Complete,
        ({
            let request = http::read_request(c.received)->Complete_request;
            let used = http::read_request(c.received)->Complete_used;
            let q = ConnectionView {
                received: c.received.skip(used),
                request_pending: false,
                ..c
            };
            &&& handlers::handled(before, request, c.listener, fresh, now, after, step)
            &&& took_step(q, step, request, request.keeps_alive(), d, turn)
        }),
    ensures
        processed(before, c, fresh, now, after, d, turn),
{
}

/// A request that comes in two pieces is answered as one that comes at once: the
/// first piece is kept and nothing else happens, and with the second piece the
/// connection does what it would have done with the whole.
///
/// Left out are a head that is too long and not yet finished, and a body that is
/// not waited for.
pub proof fn request_in_pieces_is_answered_as_one(
    before: HandlerView,
    c: ConnectionView,
    n: int,
    fresh: Seq<u8>,
    now: u64,
    after: HandlerView,
    d: ConnectionView,
    turn: TurnView,
)
    requires
        c.phase == Phase::Reading,
        c.received.len() <= HARD_BODY_CAP,
        http::read_request(c.received) is Complete,
        0 <= n < http::read_request(c.received)->Complete_used,
        n <= http::MAX_HEAD || text::first_index(c.received, text::blank_line())->0 + 4 <= n,
        !cut_off_early(before, ConnectionView { received: c.received.take(n), ..c }),
        processed(
            before,
            ConnectionView { received: c.received.take(n), ..c },
            fresh,
            now,
            after,
            d,
            turn,
        ),
    ensures
        after == before,
        turn == TurnView::Wait,
        d == (ConnectionView { received: c.received.take(n), request_pending: n > 0, ..c }),
        forall|
            fresh2: Seq<u8>,
            now2: u64,
            after2: HandlerView,
            d2: ConnectionView,
            turn2: TurnView,
        | #[trigger]
            processed(before, c, fresh2, now2, after2, d2, turn2) == processed(
                before,
                ConnectionView { received: d.received + c.received.skip(n), ..d },
                fresh2,
                now2,
                after2,
                d2,
                turn2,
            ),
{
    framing::lemma_complete(c.received);
    framing::missing_part_is_asked_for(c.received, n);
    assert(c.received.take(n) + c.received.skip(n) =~= c.received);
}

impl HandlerView {
    /// An effect that a connection needs can be answered with any fitting reply.
    pub open spec fn can_take_up(self, turn: TurnView) -> bool {
        turn matches TurnView::Perform { job, effect } ==> self.can_resume(
            StepView::Await { task: job.task, effect },
        )
    }
}

impl Connection {
    /// A client that just came through a listener.
    pub fn new(listener: usize, now: u64) -> (connection: Connection)
        ensures
            connection@ == (ConnectionView {
                listener: listener as int,
                received: seq![],
                outgoing: seq![],
                written: 0,
                phase: Phase::Reading,
                keep_alive: true,
                last_active: now,
                request_pending: false,
                timed_out: false,
            }),
            connection@.sound(),
    {
        let connection: Connection = Connection {
            listener,
            read_buffer: Vec::new(),
            write_buffer: Vec::new(),
            written: 0,
            phase: Phase::Reading,
            keep_alive: true,
            last_active: now,
            request_pending: false,
            timed_out: false,
        };
        assert(connection@.received =~= seq![]);
        assert(connection@.outgoing =~= seq![]);
        connection
    }

    /// What the connection is doing.
    pub fn phase(&self) -> (phase: Phase)
        ensures
            phase == self@.phase,
    {
        self.phase
    }

    /// Whether something was received that is not yet used up.
    pub fn has_input(&self) -> (b: bool)
        ensures
            b == (self@.received.len() > 0),
    {
        self.read_buffer.len() > 0
    }

    /// Something happened at the socket.
    pub fn active(&mut self, now: u64)
        ensures
            final(self)@ == (ConnectionView { last_active: now, ..old(self)@ }),
    {
        self.last_active = now;
    }

    /// Bytes came in.
    pub fn receive(&mut self, data: &[u8])
        ensures
            final(self)@ == (ConnectionView {
                received: old(self)@.received + data@,
                ..old(self)@
            }),
    {
        let ghost before = self@.received;
        self.read_buffer.extend_from_slice(data);
        assert(self@.received =~= before + data@);
    }

    /// What is still to be sent.
    pub fn pending_output(&self) -> (data: &[u8])
        requires
            self@.sound(),
        ensures
            data@ == self@.unsent(),
    {
        let data: &[u8] = slice_subrange(
            self.write_buffer.as_slice(),
            self.written,
            self.write_buffer.len(),
        );
        assert(data@ =~= self@.unsent());
        data
    }

    /// Queues an answer.
    pub fn respond(&mut self, response: &Response, keep_alive: bool)
        ensures
            exists|secs: u64|
                final(self)@ == old(self)@.answering(
                    #[trigger] response@.serialized(keep_alive, secs as int),
                    keep_alive,
                ),
            final(self)@.sound(),
    {
        self.write_buffer = response.serialize(keep_alive);
        self.written = 0;
        self.keep_alive = keep_alive;
        self.phase = Phase::Writing;
    }

    /// Queues an answer that is there, and hands out one that waits.
    fn advance(&mut self, step: Step, request: Request, keep_alive: bool) -> (turn: Turn)
        requires
            old(self)@.sound(),
        ensures
            took_step(old(self)@, step@, request@, keep_alive, final(self)@, turn@),
            final(self)@.sound(),
    {
        match step {
            Step::Done(response) => {
                self.respond(&response, keep_alive);
                Turn::Send
            },
            Step::Await { task, effect } => Turn::Perform {
                job: Job { request, keep_alive, task },
                effect,
            },
        }
    }

    /// Parse and answer whatever is already in the read buffer. This performs no
    /// I/O at all, so it can safely run outside a readiness event.
    pub fn process_buffer(&mut self, handler: &mut Handler, fresh: &[u8; 16], now: u64) -> (turn:
        Turn)
        requires
            old(self)@.sound(),
            old(handler)@.serves(old(self)@.listener),
        ensures
            processed(
                old(handler)@,
                old(self)@,
                fresh@,
                now,
                final(handler)@,
                final(self)@,
                turn@,
            ),
            final(self)@.sound(),
            final(handler)@.can_take_up(turn@),
    {
        if self.phase != Phase::Reading {
            return Turn::Wait;
        }
        self.request_pending = self.read_buffer.len() > 0;
        if self.read_buffer.len() > HARD_BODY_CAP {
            let response: Response = Response::html(
                413,
                "<h1>413 Payload Too Large</h1>".to_owned(),
            );
            return self.advance(Step::Done(response), blank_request(), false);
        }
        let ghost c = old(self)@;
        let ghost p = self@;
        let ghost before = handler@;
        match http::try_parse(self.read_buffer.as_slice()) {
            ParseStatus::NeedMoreHeaders => Turn::Wait,
            ParseStatus::NeedMoreBody => {
                if self.over_the_top(handler) {
                    self.refuse(handler, 413)
                } else {
                    Turn::Wait
                }
            },
            ParseStatus::Bad(_) => self.refuse(handler, 400),
            ParseStatus::Complete { request, used } => {
                let ghost r = request@;
                assert(http::read_request(c.received) == (Outcome::Complete {
                    request: r,
                    used: used as int,
                }));
                let turn: Turn = self.answer_request(handler, request, used, fresh, now);
                proof {
                    let q = ConnectionView {
                        received: p.received.skip(used as int),
                        request_pending: false,
                        ..p
                    };
                    let step = choose|step: StepView| #[trigger]
                        handlers::handled(before, r, p.listener, fresh@, now, handler@, step)
                            && took_step(q, step, r, r.keeps_alive(), self@, turn@);
                    lemma_processed(before, c, fresh@, now, handler@, self@, turn@, step);
                }
                turn
            },
        }
    }

    /// Bodies moderately over the limit are read and discarded so the client
    /// cleanly receives its 413 (sent by the handler); only absurdly large declared
    /// bodies are cut off right away.
    fn over_the_top(&self, handler: &Handler) -> (b: bool)
        requires
            handler@.serves(self@.listener),
        ensures
            b == cut_off_early(handler@, self@),
    {
        match http::declared_body_size(self.read_buffer.as_slice()) {
            Some(declared) => {
                let limit: usize = handler.body_limit(self.read_buffer.as_slice(), self.listener);
                declared > limit && declared > EARLY_CUTOFF
            },
            None => false,
        }
    }

    /// Answers what was received with an error, and closes the connection then.
    fn refuse(&mut self, handler: &Handler, status: u16) -> (turn: Turn)
        requires
            old(self)@.sound(),
            handler@.serves(old(self)@.listener),
        ensures
            took_step(
                old(self)@,
                error_for(handler@, old(self)@, status),
                blank(),
                false,
                final(self)@,
                turn@,
            ),
            final(self)@.sound(),
            handler@.can_take_up(turn@),
    {
        let step: Step = handler.error_response(
            status,
            self.listener,
            self.read_buffer.as_slice(),
        );
        self.advance(step, blank_request(), false)
    }

    /// Answers the request at the front of the read buffer.
    fn answer_request(
        &mut self,
        handler: &mut Handler,
        request: Request,
        used: usize,
        fresh: &[u8; 16],
        now: u64,
    ) -> (turn: Turn)
        requires
            old(self)@.sound(),
            old(handler)@.serves(old(self)@.listener),
            used <= old(self)@.received.len(),
        ensures
            exists|step: StepView| #[trigger]
                handlers::handled(
                    old(handler)@,
                    request@,
                    old(self)@.listener,
                    fresh@,
                    now,
                    final(handler)@,
                    step,
                ) && took_step(
                    ConnectionView {
                        received: old(self)@.received.skip(used as int),
                        request_pending: false,
                        ..old(self)@
                    },
                    step,
                    request@,
                    request@.keeps_alive(),
                    final(self)@,
                    turn@,
                ),
            final(self)@.sound(),
            final(handler)@.can_take_up(turn@),
    {
        let ghost before = self@;
        // What is behind this request is the next one.
        let rest: Vec<u8> = slice_to_vec(
            slice_subrange(self.read_buffer.as_slice(), used, self.read_buffer.len()),
        );
        assert(rest@ =~= before.received.skip(used as int));
        self.read_buffer = rest;
        self.request_pending = false;
        let keep_alive: bool = request.keep_alive();
        let step: Step = handler.handle(&request, self.listener, fresh, now);
        self.advance(step, request, keep_alive)
    }

    /// Goes on with an answer that waited for this reply.
    pub fn resume(&mut self, handler: &Handler, job: Job, reply: Reply) -> (turn: Turn)
        requires
            old(self)@.sound(),
            handler@.knows(job@.task),
            job@.task.stage.takes(reply@),
        ensures
            took_step(
                old(self)@,
                handlers::resumed(handler@.servers, job@.request, job@.task, reply@),
                job@.request,
                job@.keep_alive,
                final(self)@,
                turn@,
            ),
            final(self)@.sound(),
            handler@.can_take_up(turn@),
    {
        let Job { request, keep_alive, task } = job;
        let step: Step = handler.resume(&request, task, reply);
        self.advance(step, request, keep_alive)
    }

    /// Gives up on an effect that broke down: the client is told that it is the
    /// server's fault.
    pub fn abandon(&mut self, handler: &Handler, job: Job) -> (turn: Turn)
        requires
            old(self)@.sound(),
            handler@.serves(old(self)@.listener),
        ensures
            took_step(
                old(self)@,
                handlers::failing(
                    handler@.servers,
                    handlers::plain_case(
                        handler@.server_index(
                            old(self)@.listener,
                            job@.request.host_name(),
                        ) as int,
                    ),
                    500,
                    None,
                ),
                job@.request,
                job@.keep_alive,
                final(self)@,
                turn@,
            ),
            final(self)@.sound(),
            handler@.can_take_up(turn@),
    {
        let Job { request, keep_alive, task: _ } = job;
        let step: Step = handler.error_response_for(500, &request, self.listener);
        self.advance(step, request, keep_alive)
    }

    /// Bytes of the answer were sent.
    pub fn sent(&mut self, count: usize) -> (next: AfterWrite)
        requires
            old(self)@.sound(),
            old(self)@.phase == Phase::Writing,
            count <= old(self)@.unsent().len(),
        ensures
            (next, final(self)@) == old(self)@.after_sending(count as int),
            final(self)@.sound(),
    {
        let total: usize = self.write_buffer.len();
        assert(self.written + count <= total);
        self.written = self.written + count;
        if self.written < self.write_buffer.len() {
            return AfterWrite::More;
        }
        if !self.keep_alive {
            return AfterWrite::Close;
        }
        // Back to reading the next request on this connection.
        self.write_buffer = Vec::new();
        self.written = 0;
        self.phase = Phase::Reading;
        assert(self@.outgoing =~= seq![]);
        AfterWrite::Next
    }

    /// A read from the socket, of which there is one for each readiness event.
    pub fn on_readable(
        &mut self,
        event: SocketRead,
        handler: &mut Handler,
        fresh: &[u8; 16],
        now: u64,
    ) -> (fate: Fate)
        requires
            old(self)@.sound(),
            old(self)@.phase == Phase::Reading,
            old(handler)@.serves(old(self)@.listener),
        ensures
            match event {
                SocketRead::Data(data) => {
                    &&& fate matches Fate::Keep(turn) && processed(
                        old(handler)@,
                        ConnectionView { received: old(self)@.received + data@, ..old(self)@ },
                        fresh@,
                        now,
                        final(handler)@,
                        final(self)@,
                        turn@,
                    ) && final(handler)@.can_take_up(turn@)
                },
                SocketRead::NotReady => {
                    &&& fate matches Fate::Keep(turn) && turn@ == TurnView::Wait
                    &&& final(self)@ == old(self)@
                    &&& final(handler)@ == old(handler)@
                },
                _ => {
                    &&& fate is Drop
                    &&& final(self)@ == old(self)@
                    &&& final(handler)@ == old(handler)@
                },
            },
            final(self)@.sound(),
    {
        match event {
            SocketRead::Data(data) => {
                self.receive(data);
                Fate::Keep(self.process_buffer(handler, fresh, now))
            },
            SocketRead::NotReady => Fate::Keep(Turn::Wait),
            SocketRead::Closed => Fate::Drop,
            SocketRead::Failed => Fate::Drop,
        }
    }

    /// A write to the socket, of which there is one for each readiness event.
    ///
    /// The client may have sent a second request along with the first. It is already
    /// in the buffer, so it is answered as soon as the first answer is sent, rather
    /// than waiting for a read event that will never come.
    pub fn on_writable(
        &mut self,
        event: SocketWrite,
        handler: &mut Handler,
        fresh: &[u8; 16],
        now: u64,
    ) -> (fate: Fate)
        requires
            old(self)@.sound(),
            old(self)@.phase == Phase::Writing,
            event matches SocketWrite::Sent(count) ==> count <= old(self)@.unsent().len(),
            old(handler)@.serves(old(self)@.listener),
        ensures
            match event {
                SocketWrite::Sent(count) => {
                    let (next, c) = old(self)@.after_sending(count as int);
                    if next == AfterWrite::Next && c.received.len() > 0 {
                        fate matches Fate::Keep(turn) && processed(
                            old(handler)@,
                            c,
                            fresh@,
                            now,
                            final(handler)@,
                            final(self)@,
                            turn@,
                        ) && final(handler)@.can_take_up(turn@)
                    } else {
                        &&& final(self)@ == c
                        &&& final(handler)@ == old(handler)@
                        &&& if next == AfterWrite::Close {
                            fate is Drop
                        } else {
                            fate matches Fate::Keep(turn) && turn@ == TurnView::Wait
                        }
                    }
                },
                SocketWrite::NotReady => {
                    &&& fate matches Fate::Keep(turn) && turn@ == TurnView::Wait
                    &&& final(self)@ == old(self)@
                    &&& final(handler)@ == old(handler)@
                },
                _ => {
                    &&& fate is Drop
                    &&& final(self)@ == old(self)@
                    &&& final(handler)@ == old(handler)@
                },
            },
            final(self)@.sound(),
    {
        match event {
            SocketWrite::Sent(count) => match self.sent(count) {
                AfterWrite::More => Fate::Keep(Turn::Wait),
                AfterWrite::Close => Fate::Drop,
                AfterWrite::Next => {
                    if self.has_input() {
                        Fate::Keep(self.process_buffer(handler, fresh, now))
                    } else {
                        Fate::Keep(Turn::Wait)
                    }
                },
            },
            SocketWrite::NotReady => Fate::Keep(Turn::Wait),
            SocketWrite::Closed => Fate::Drop,
            SocketWrite::Failed => Fate::Drop,
        }
    }

    /// Looks whether the connection has been idle for too long.
    ///
    /// A client that started a request but never finished it is told so. Only while
    /// still reading: a connection that is already sending an answer (a 400 to a
    /// client that then stopped reading, say) must not have that half-sent answer
    /// overwritten by a 408.
    pub fn sweep(&mut self, handler: &Handler, now: u64) -> (swept: Swept)
        requires
            old(self)@.sound(),
            handler@.serves(old(self)@.listener),
        ensures
            ({
                let c = old(self)@;
                match c.verdict(now) {
                    Verdict::Keep => swept is Keep && final(self)@ == c,
                    Verdict::Tell => swept matches Swept::Told(turn) && told(
                        handler@,
                        c,
                        final(self)@,
                        turn@,
                    ) && handler@.can_take_up(turn@),
                    Verdict::Close => swept is Close && final(self)@ == c,
                }
            }),
            final(self)@.sound(),
    {
        if now < self.last_active || now - self.last_active < TIMEOUT {
            return Swept::Keep;
        }
        if self.phase == Phase::Reading && self.request_pending && !self.timed_out {
            self.timed_out = true;
            return Swept::Told(self.refuse(handler, 408));
        }
        Swept::Close
    }
}

} // verus!
