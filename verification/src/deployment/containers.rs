//! What a fleet of containers is asked for, said of its services.

use vstd::prelude::*;

use super::docker::{
    backing_container, bound_to, collision, containers_of, left_behind, not_removed, pairs, ports,
    proxy_command, proxy_container, published_on, tcp, BindingsModel, ProxyAnchorModel, RemovalModel,
};
use crate::fleet::ServiceModel;
use crate::plan::entry_of;
use crate::protocol::Direction;
use crate::text::{decimal, number};

verus! {

/// Whether an argument has the proxy listen for a service on its port, and lead to
/// its container on the same.
pub open spec fn leads_to(argument: Seq<char>, service: ServiceModel) -> bool {
    let port = decimal(service.port as nat);
    argument == service.name + "=0.0.0.0:"@ + port + "="@ + (service.name + "-"@ + "actual"@) + ":"@
        + port
}

/// Whether a command line says of a service, as the `k`th, where it is led to.
pub open spec fn told_of(command: Seq<Seq<char>>, k: int, service: ServiceModel) -> bool {
    command[2 * k] == "--pair"@ && leads_to(command[2 * k + 1], service)
}

proof fn lemma_pairs(services: Seq<ServiceModel>)
    ensures
        pairs(services).len() == 2 * services.len(),
        forall|k: int|
            0 <= k < services.len() ==> told_of(pairs(services), k, #[trigger] services[k]),
    decreases services.len(),
{
    if services.len() > 0 {
        let fewer = services.drop_last();
        lemma_pairs(fewer);
        assert forall|k: int| 0 <= k < services.len() implies told_of(
            pairs(services),
            k,
            #[trigger] services[k],
        ) by {
            if k < fewer.len() {
                assert(fewer[k] == services[k]);
                assert(pairs(services)[2 * k] == pairs(fewer)[2 * k]);
                assert(pairs(services)[2 * k + 1] == pairs(fewer)[2 * k + 1]);
            }
        }
    }
}

/// The proxy is told of every service, in order, and then of where to hold the
/// fleet, if anywhere: at which service, which way, and after how many packets.
pub proof fn lemma_proxy_is_told(services: Seq<ServiceModel>, anchor: Option<ProxyAnchorModel>)
    ensures
        ({
            let command = proxy_command(services, anchor);
            let n = 2 * services.len() as int;
            &&& forall|k: int|
                0 <= k < services.len() ==> told_of(command, k, #[trigger] services[k])
            &&& anchor is None ==> command.len() == n
            &&& anchor matches Some(at) ==> {
                &&& command.len() == n + 2
                &&& command[n] == "--freeze-at"@
                &&& command[n + 1] == at.service + "="@ + (if at.direction
                    == Direction::ClientToUpstream {
                    "c2u"@
                } else {
                    "u2c"@
                }) + "="@ + decimal(at.k as nat)
            }
        }),
{
    lemma_pairs(services);
    let command = proxy_command(services, anchor);
    assert forall|k: int| 0 <= k < services.len() implies told_of(
        command,
        k,
        #[trigger] services[k],
    ) by {
        assert(told_of(pairs(services), k, services[k]));
        assert(command[2 * k] == pairs(services)[2 * k]);
        assert(command[2 * k + 1] == pairs(services)[2 * k + 1]);
    }
}

/// The proxy answers to the name of every service on that service's port, which is
/// published to the host. A service's own container answers only to the name the
/// proxy leads to, and is published nowhere. Nothing else of it is settled that the
/// service does not say.
pub proof fn lemma_fronted_by_the_proxy(
    network: Seq<char>,
    services: Seq<ServiceModel>,
    anchor: Option<ProxyAnchorModel>,
    k: int,
)
    requires
        0 <= k < services.len(),
    ensures
        ({
            let proxy = proxy_container(network, services, anchor);
            let own = backing_container(network, services[k]);
            &&& proxy.name == network + "-"@ + "proxy"@
            &&& proxy.network == network
            &&& proxy.aliases.len() == services.len()
            &&& proxy.aliases[k] == services[k].name
            &&& proxy.exposed_ports.len() == services.len()
            &&& proxy.exposed_ports[k] == decimal(services[k].port as nat) + "/tcp"@
            &&& proxy.publish_all_ports == Some(true)
            &&& proxy.cmd == Some(proxy_command(services, anchor))
            &&& own.name == network + "-"@ + (services[k].name + "-"@ + "actual"@)
            &&& own.image == services[k].image
            &&& own.network == network
            &&& own.aliases == seq![services[k].name + "-"@ + "actual"@]
            &&& own.exposed_ports == seq![decimal(services[k].port as nat) + "/tcp"@]
            &&& own.publish_all_ports is None
            &&& own.cmd is None
            &&& services[k].env.len() > 0 ==> own.env == Some(services[k].env)
            &&& services[k].env.len() == 0 ==> own.env is None
            &&& services[k].healthcheck.len() > 0 ==> own.healthcheck is Some
                && own.healthcheck->0.test == services[k].healthcheck
            &&& services[k].healthcheck.len() == 0 ==> own.healthcheck is None
            &&& containers_of(network, services).len() == services.len() + 1
            &&& containers_of(network, services)[k] == own.name
            &&& containers_of(network, services)[services.len() as int] == proxy.name
        }),
{
}

/// What teardown leaves behind is each container that could not be removed, with
/// why, in order, and the network where that could not be. What was not there to
/// be removed is not left behind.
pub proof fn lemma_left_behind(
    removals: Seq<(Seq<char>, RemovalModel)>,
    network: RemovalModel,
)
    ensures
        ({
            let left = left_behind(removals, network);
            let failed = removals.filter(
                |removal: (Seq<char>, RemovalModel)| removal.1 is Failed,
            );
            &&& left.containers.len() == failed.len()
            &&& forall|k: int|
                0 <= k < failed.len() ==> (#[trigger] left.containers[k]).0 == failed[k].0
                    && RemovalModel::Failed(left.containers[k].1) == failed[k].1
            &&& left.network is Some <==> network is Failed
            &&& left.network matches Some(why) ==> network == RemovalModel::Failed(why)
        }),
{
    lemma_not_removed(removals);
}

proof fn lemma_not_removed(removals: Seq<(Seq<char>, RemovalModel)>)
    ensures
        ({
            let failed = removals.filter(
                |removal: (Seq<char>, RemovalModel)| removal.1 is Failed,
            );
            &&& not_removed(removals).len() == failed.len()
            &&& forall|k: int|
                0 <= k < failed.len() ==> (#[trigger] not_removed(removals)[k]).0 == failed[k].0
                    && RemovalModel::Failed(not_removed(removals)[k].1) == failed[k].1
        }),
    decreases removals.len(),
{
    reveal(Seq::filter);
    if removals.len() > 0 {
        lemma_not_removed(removals.drop_last());
    }
}

/// A service is reached on the port it was last published on.
pub proof fn lemma_published(endpoints: Seq<(Seq<char>, u16)>, name: Seq<char>)
    ensures
        published_on(endpoints, name) is None <==> forall|k: int|
            0 <= k < endpoints.len() ==> (#[trigger] endpoints[k]).0 != name,
        forall|k: int|
            #![trigger endpoints[k]]
            0 <= k < endpoints.len() && endpoints[k].0 == name && (forall|h: int|
                k < h < endpoints.len() ==> (#[trigger] endpoints[h]).0 != name) ==> published_on(
                endpoints,
                name,
            ) == Some(endpoints[k].1),
    decreases endpoints.len(),
{
    if endpoints.len() > 0 {
        let fewer = endpoints.drop_last();
        let n = endpoints.len() - 1;
        assert(endpoints[n] == endpoints.last());
        lemma_published(fewer, name);
        assert forall|k: int|
            #![trigger endpoints[k]]
            0 <= k < endpoints.len() && endpoints[k].0 == name && (forall|h: int|
                k < h < endpoints.len() ==> (
                #[trigger] endpoints[h]).0 != name) implies published_on(endpoints, name) == Some(
            endpoints[k].1,
        ) by {
            if k < n {
                assert(endpoints[n].0 != name);
                assert(fewer[k] == endpoints[k]);
                assert forall|h: int| k < h < fewer.len() implies (
                #[trigger] fewer[h]).0 != name by {
                    assert(fewer[h] == endpoints[h]);
                }
            }
        }
        if published_on(endpoints, name) is None {
            assert forall|k: int| 0 <= k < endpoints.len() implies (
            #[trigger] endpoints[k]).0 != name by {
                if k < n {
                    assert(fewer[k] == endpoints[k]);
                }
            }
        }
        if forall|k: int| 0 <= k < endpoints.len() ==> (#[trigger] endpoints[k]).0 != name {
            assert forall|k: int| 0 <= k < fewer.len() implies (
            #[trigger] fewer[k]).0 != name by {
                assert(fewer[k] == endpoints[k]);
            }
        }
    }
}

/// A fleet is refused for a port exactly where two of its services ask for the
/// same one, and the port is that of the first service to ask for one already
/// asked for.
pub proof fn lemma_port_asked_twice(services: Seq<ServiceModel>)
    ensures
        collision(services) is None <==> forall|i: int, k: int|
            0 <= i < k < services.len() ==> (#[trigger] services[i]).port != (
            #[trigger] services[k]).port,
        collision(services) matches Some(port) ==> exists|k: int|
            0 <= k < services.len() && #[trigger] asks_again(services, k) && services[k].port
                == port && forall|h: int| 0 <= h < k ==> !#[trigger] asks_again(services, h),
    decreases services.len(),
{
    if services.len() > 0 {
        let fewer = services.drop_last();
        let n = services.len() - 1;
        lemma_port_asked_twice(fewer);
        assert forall|h: int| 0 <= h < n implies #[trigger] asks_again(fewer, h) == asks_again(
            services,
            h,
        ) by {
            if asks_again(services, h) {
                let i = choose|i: int| 0 <= i < h && (#[trigger] services[i]).port == services[h].port;
                assert(fewer[i].port == fewer[h].port);
            }
            if asks_again(fewer, h) {
                let i = choose|i: int| 0 <= i < h && (#[trigger] fewer[i]).port == fewer[h].port;
                assert(services[i].port == services[h].port);
            }
        }
        if ports(fewer).contains(services.last().port) {
            let i = choose|i: int| 0 <= i < n && ports(fewer)[i] == services.last().port;
            assert(services[i].port == services[n].port);
            assert(asks_again(services, n));
        }
        if asks_again(services, n) {
            let i = choose|i: int| 0 <= i < n && (#[trigger] services[i]).port == services[n].port;
            assert(ports(fewer)[i] == services.last().port);
        }
        if let Some(port) = collision(fewer) {
            let k = choose|k: int|
                0 <= k < n && #[trigger] asks_again(fewer, k) && fewer[k].port == port && forall|
                    h: int,
                |
                    0 <= h < k ==> !#[trigger] asks_again(fewer, h);
            assert(asks_again(services, k));
            assert forall|h: int| 0 <= h < k implies !#[trigger] asks_again(services, h) by {
                assert(!asks_again(fewer, h));
            }
            let i = choose|i: int| 0 <= i < k && (#[trigger] services[i]).port == services[k].port;
            assert(services[i].port == services[k].port);
        } else {
            assert forall|h: int| 0 <= h < n implies !#[trigger] asks_again(services, h) by {
                if asks_again(services, h) {
                    let i = choose|i: int|
                        0 <= i < h && (#[trigger] services[i]).port == services[h].port;
                    assert(fewer[i].port == fewer[h].port);
                }
            }
            if collision(services) is None {
                assert forall|i: int, k: int| 0 <= i < k < services.len() implies (
                #[trigger] services[i]).port != (#[trigger] services[k]).port by {
                    if k < n {
                        assert(fewer[i].port != fewer[k].port);
                    } else {
                        assert(ports(fewer)[i] == services[i].port);
                    }
                }
            }
        }
    }
}

/// Whether a service asks for a port that one before it asks for.
pub open spec fn asks_again(services: Seq<ServiceModel>, k: int) -> bool {
    exists|i: int| 0 <= i < k && (#[trigger] services[i]).port == services[k].port
}

/// Whether a port's bindings begin with that host port, in digits.
pub open spec fn begins_with(hosts: Option<Seq<Option<Seq<char>>>>, host: u16) -> bool {
    &&& hosts matches Some(hosts)
    &&& hosts.len() > 0
    &&& hosts[0] matches Some(digits)
    &&& number(digits) == Some(host as u32)
}

/// A service is found on a host port exactly where the first that the daemon says
/// of its port over TCP begins with that host port.
pub proof fn lemma_bound(bindings: BindingsModel, port: u16, host: u16)
    ensures
        bound_to(bindings, port) == Some(host) <==> exists|k: int|
            0 <= k < bindings.len() && (#[trigger] bindings[k]).0 == decimal(port as nat) + "/tcp"@
                && begins_with(bindings[k].1, host) && forall|h: int|
                0 <= h < k ==> (#[trigger] bindings[h]).0 != decimal(port as nat) + "/tcp"@,
{
    lemma_first_under(bindings, tcp(port));
    let key = decimal(port as nat) + "/tcp"@;
    assert(tcp(port) == key);
    if bound_to(bindings, port) == Some(host) {
        let k = choose|k: int|
            0 <= k < bindings.len() && (#[trigger] bindings[k]).0 == key && forall|h: int|
                0 <= h < k ==> (#[trigger] bindings[h]).0 != key;
        assert(begins_with(bindings[k].1, host));
    }
}

/// What stands under a key is what its first entry holds.
pub(crate) proof fn lemma_first_under<T>(entries: Seq<(Seq<char>, T)>, key: Seq<char>)
    ensures
        entry_of(entries, key) is None ==> forall|k: int|
            0 <= k < entries.len() ==> (#[trigger] entries[k]).0 != key,
        entry_of(entries, key) is Some ==> exists|k: int|
            0 <= k < entries.len() && (#[trigger] entries[k]).0 == key && forall|h: int|
                0 <= h < k ==> (#[trigger] entries[h]).0 != key,
        forall|k: int|
            #![trigger entries[k]]
            0 <= k < entries.len() && entries[k].0 == key && (forall|h: int|
                0 <= h < k ==> (#[trigger] entries[h]).0 != key) ==> entry_of(entries, key)
                == Some(entries[k].1),
    decreases entries.len(),
{
    if entries.len() > 0 && entries[0].0 != key {
        let rest = entries.skip(1);
        lemma_first_under(rest, key);
        assert forall|k: int| 1 <= k < entries.len() implies entries[k] == rest[k - 1] by {}
        assert forall|k: int| 0 <= k < rest.len() implies rest[k] == entries[k + 1] by {}
        if entry_of(entries, key) is Some {
            let k = choose|k: int|
                0 <= k < rest.len() && (#[trigger] rest[k]).0 == key && forall|h: int|
                    0 <= h < k ==> (#[trigger] rest[h]).0 != key;
            assert(entries[k + 1].0 == key);
            assert forall|h: int| 0 <= h < k + 1 implies (#[trigger] entries[h]).0 != key by {
                if h > 0 {
                    assert(rest[h - 1].0 != key);
                }
            }
        } else {
            assert forall|k: int| 0 <= k < entries.len() implies (#[trigger] entries[k]).0
                != key by {
                if k > 0 {
                    assert(rest[k - 1].0 != key);
                }
            }
        }
        assert forall|k: int|
            #![trigger entries[k]]
            0 <= k < entries.len() && entries[k].0 == key && (forall|h: int|
                0 <= h < k ==> (#[trigger] entries[h]).0 != key) implies entry_of(entries, key)
            == Some(entries[k].1) by {
            assert(rest[k - 1].0 == key);
            assert forall|h: int| 0 <= h < k - 1 implies (#[trigger] rest[h]).0 != key by {
                assert(entries[h + 1].0 != key);
            }
        }
    }
}

} // verus!
