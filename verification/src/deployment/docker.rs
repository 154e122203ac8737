//! What the Docker deployment asks of the daemon, and what it makes of the
//! daemon's answers.

use vstd::prelude::*;

use vstd::string::*;

use crate::fleet::{service_named, Fleet, Service, ServiceModel};
use crate::protocol::Direction;
use crate::text::{around, clone_texts, decimal, digit, join, joined, number, read_number, same, spell};
use crate::time::Duration;

verus! {

/// A fault anchor to arm the proxy with at fleet startup: freeze the fleet once
/// `service` has forwarded `k` packets on `direction`. Passed on the proxy
/// command line so it counts in-process, with no runtime control channel.
#[derive(Debug, PartialEq, Eq)]
pub struct ProxyAnchor {
    pub service: String,
    pub direction: Direction,
    pub k: u32,
}

/// What a [`ProxyAnchor`] holds.
#[verifier::ext_equal]
pub struct ProxyAnchorModel {
    pub service: Seq<char>,
    pub direction: Direction,
    pub k: u32,
}

impl DeepView for ProxyAnchor {
    type V = ProxyAnchorModel;

    open spec fn deep_view(&self) -> ProxyAnchorModel {
        ProxyAnchorModel { service: self.service@, direction: self.direction, k: self.k }
    }
}

/// How long a container may take to become ready.
pub open spec fn longest_wait() -> Duration {
    Duration::of_secs(60)
}

/// How long a container may take to become ready.
pub fn readiness_timeout() -> (r: Duration)
    ensures
        r == longest_wait(),
        r@ == 60_000_000_000,
{
    Duration::from_secs(60)
}

/// How long to leave a container that is not ready before looking again.
pub fn readiness_poll() -> (r: Duration)
    ensures
        r == Duration::of_millis(500),
        r@ == 500_000_000,
{
    Duration::from_millis(500)
}

/// How long a fleet may take to heal.
pub fn heal_budget() -> (r: Duration)
    ensures
        r == Duration::of_secs(15),
        r@ == 15_000_000_000,
{
    Duration::from_secs(15)
}

/// Items teardown could not remove, paired with the daemon's reason.
#[derive(Debug, PartialEq, Eq)]
pub struct TeardownFailures {
    containers: Vec<(String, String)>,
    network: Option<String>,
}

/// What a [`TeardownFailures`] holds.
#[verifier::ext_equal]
pub struct FailuresModel {
    pub containers: Seq<(Seq<char>, Seq<char>)>,
    pub network: Option<Seq<char>>,
}

impl DeepView for TeardownFailures {
    type V = FailuresModel;

    closed spec fn deep_view(&self) -> FailuresModel {
        FailuresModel {
            containers: self.containers.deep_view(),
            network: self.network.deep_view(),
        }
    }
}

impl FailuresModel {
    /// Nothing left behind.
    pub open spec fn none() -> FailuresModel {
        FailuresModel { containers: Seq::empty(), network: None }
    }

    /// One part per item left behind, the containers first.
    pub open spec fn parts(self) -> Seq<Seq<char>> {
        let containers = Seq::new(
            self.containers.len(),
            |i: int| "container `"@ + self.containers[i].0 + "`: "@ + self.containers[i].1,
        );
        match self.network {
            Some(reason) => containers.push("network: "@ + reason),
            None => containers,
        }
    }

    /// The items left behind, as a report names them.
    pub open spec fn spelling(self) -> Seq<char> {
        joined(self.parts(), "; "@)
    }
}

impl Default for TeardownFailures {
    fn default() -> (r: TeardownFailures)
        ensures
            r.deep_view() == FailuresModel::none(),
    {
        let r = TeardownFailures { containers: Vec::new(), network: None };
        assert(r.deep_view() =~= FailuresModel::none());
        r
    }
}

impl TeardownFailures {
    pub fn new() -> (r: TeardownFailures)
        ensures
            r.deep_view() == FailuresModel::none(),
    {
        TeardownFailures::default()
    }

    pub fn append_container(&mut self, name: &str, reason: &str)
        ensures
            final(self).deep_view() == (FailuresModel {
                containers: old(self).deep_view().containers.push((name@, reason@)),
                ..old(self).deep_view()
            }),
    {
        let ghost before = self.containers.deep_view();
        self.containers.push((name.to_owned(), reason.to_owned()));
        assert(self.containers.deep_view() =~= before.push((name@, reason@)));
    }

    pub fn set_network(&mut self, reason: &str)
        ensures
            final(self).deep_view() == (FailuresModel {
                network: Some(reason@),
                ..old(self).deep_view()
            }),
    {
        self.network = Some(reason.to_owned());
    }

    pub fn is_empty(&self) -> (r: bool)
        ensures
            r == (self.deep_view() == FailuresModel::none()),
    {
        let r = self.containers.len() == 0 && self.network.is_none();
        proof {
            if r {
                assert(self.deep_view() =~= FailuresModel::none());
            } else if self.network.is_none() {
                assert(self.deep_view().containers.len() > 0);
            }
        }
        r
    }

    pub fn containers(&self) -> (r: &[(String, String)])
        ensures
            r.deep_view() == self.deep_view().containers,
    {
        let r = self.containers.as_slice();
        assert(r.deep_view() =~= self.containers.deep_view());
        r
    }

    pub fn network(&self) -> (r: Option<&str>)
        ensures
            r.deep_view() == self.deep_view().network,
    {
        match &self.network {
            Some(reason) => Some(reason.as_str()),
            None => None,
        }
    }

    /// The items left behind, as a report names them.
    pub fn spell(&self) -> (r: String)
        ensures
            r@ == self.deep_view().spelling(),
    {
        let ghost model = self.deep_view();
        let mut parts: Vec<String> = Vec::new();
        for i in 0..self.containers.len()
            invariant
                model == self.deep_view(),
                parts@.len() == i,
                forall|j: int|
                    0 <= j < i ==> (#[trigger] parts@[j])@ == "container `"@
                        + model.containers[j].0 + "`: "@ + model.containers[j].1,
        {
            let (name, reason) = &self.containers[i];
            let mut part = around("container `", name.as_str(), "`: ");
            part.append(reason.as_str());
            parts.push(part);
        }
        if let Some(reason) = &self.network {
            let mut part = "network: ".to_owned();
            part.append(reason.as_str());
            parts.push(part);
        }
        assert(parts.deep_view() =~= model.parts());
        join(parts.as_slice(), "; ")
    }
}

/// Why a fleet could not be brought up, reached or taken down, apart from the
/// daemon itself failing.
#[derive(Debug, PartialEq, Eq)]
pub enum Error {
    MissingPort { name: String, port: u16 },
    ReadinessTimeout { name: String, timeout: Duration },
    TeardownIncomplete(TeardownFailures),
    UnknownService(String),
    EndpointMissing(String),
    /// The single-container proxy would need to remap the port and rewrite the
    /// consumer's endpoint, which is not wired.
    PortCollision(u16),
}

/// What an [`Error`] says.
pub enum ErrorModel {
    MissingPort { name: Seq<char>, port: u16 },
    ReadinessTimeout { name: Seq<char>, timeout: Duration },
    TeardownIncomplete(FailuresModel),
    UnknownService(Seq<char>),
    EndpointMissing(Seq<char>),
    PortCollision(u16),
}

impl DeepView for Error {
    type V = ErrorModel;

    open spec fn deep_view(&self) -> ErrorModel {
        match self {
            Error::MissingPort { name, port } => ErrorModel::MissingPort {
                name: name@,
                port: *port,
            },
            Error::ReadinessTimeout { name, timeout } => ErrorModel::ReadinessTimeout {
                name: name@,
                timeout: *timeout,
            },
            Error::TeardownIncomplete(failures) => ErrorModel::TeardownIncomplete(
                failures.deep_view(),
            ),
            Error::UnknownService(name) => ErrorModel::UnknownService(name@),
            Error::EndpointMissing(name) => ErrorModel::EndpointMissing(name@),
            Error::PortCollision(port) => ErrorModel::PortCollision(*port),
        }
    }
}

impl ErrorModel {
    /// The error as a report words it.
    pub open spec fn spelling(self) -> Seq<char> {
        match self {
            ErrorModel::MissingPort { name, port } => "service `"@ + name
                + "` did not publish port "@ + decimal(port as nat),
            ErrorModel::ReadinessTimeout { name, timeout } => "service `"@ + name
                + "` at 127.0.0.1:0 did not become ready within "@ + timeout.spelling(),
            ErrorModel::TeardownIncomplete(failures) => "teardown incomplete: "@
                + failures.spelling(),
            ErrorModel::UnknownService(name) => "unknown service `"@ + name + "`"@,
            ErrorModel::EndpointMissing(name) => "service `"@ + name
                + "` has no published endpoint after setup"@,
            ErrorModel::PortCollision(port) => "two services share port "@ + decimal(port as nat)
                + "; the single-container proxy would need to remap it and rewrite the consumer's endpoint, which is not wired yet"@,
        }
    }
}

impl Error {
    /// The error as a report words it.
    pub fn spell(&self) -> (r: String)
        ensures
            r@ == self.deep_view().spelling(),
    {
        match self {
            Error::MissingPort { name, port } => {
                let mut out = around("service `", name.as_str(), "` did not publish port ");
                let port = spell(*port as u128);
                out.append(port.as_str());
                out
            },
            Error::ReadinessTimeout { name, timeout } => {
                let mut out = around(
                    "service `",
                    name.as_str(),
                    "` at 127.0.0.1:0 did not become ready within ",
                );
                let timeout = timeout.spell();
                out.append(timeout.as_str());
                out
            },
            Error::TeardownIncomplete(failures) => {
                let mut out = "teardown incomplete: ".to_owned();
                let failures = failures.spell();
                out.append(failures.as_str());
                out
            },
            Error::UnknownService(name) => around("unknown service `", name.as_str(), "`"),
            Error::EndpointMissing(name) => around(
                "service `",
                name.as_str(),
                "` has no published endpoint after setup",
            ),
            Error::PortCollision(port) => {
                let port = spell(*port as u128);
                around(
                    "two services share port ",
                    port.as_str(),
                    "; the single-container proxy would need to remap it and rewrite the consumer's endpoint, which is not wired yet",
                )
            },
        }
    }
}

/// How a container is probed for health.
#[derive(Debug, PartialEq, Eq)]
pub struct Healthcheck {
    pub test: Vec<String>,
    pub interval_ns: i64,
    pub start_period_ns: i64,
}

/// What a [`Healthcheck`] holds.
#[verifier::ext_equal]
pub struct HealthcheckModel {
    pub test: Seq<Seq<char>>,
    pub interval_ns: i64,
    pub start_period_ns: i64,
}

impl DeepView for Healthcheck {
    type V = HealthcheckModel;

    open spec fn deep_view(&self) -> HealthcheckModel {
        HealthcheckModel {
            test: self.test.deep_view(),
            interval_ns: self.interval_ns,
            start_period_ns: self.start_period_ns,
        }
    }
}

/// A container to ask the daemon for. `None` leaves a setting to the daemon.
#[derive(Debug, PartialEq, Eq)]
pub struct Container {
    pub name: String,
    pub image: String,
    pub cmd: Option<Vec<String>>,
    pub exposed_ports: Vec<String>,
    pub env: Option<Vec<String>>,
    pub healthcheck: Option<Healthcheck>,
    /// The network the container joins, and the names it answers to there.
    pub network: String,
    pub aliases: Vec<String>,
    pub publish_all_ports: Option<bool>,
}

/// What a [`Container`] holds.
#[verifier::ext_equal]
pub struct ContainerModel {
    pub name: Seq<char>,
    pub image: Seq<char>,
    pub cmd: Option<Seq<Seq<char>>>,
    pub exposed_ports: Seq<Seq<char>>,
    pub env: Option<Seq<Seq<char>>>,
    pub healthcheck: Option<HealthcheckModel>,
    pub network: Seq<char>,
    pub aliases: Seq<Seq<char>>,
    pub publish_all_ports: Option<bool>,
}

impl DeepView for Container {
    type V = ContainerModel;

    open spec fn deep_view(&self) -> ContainerModel {
        ContainerModel {
            name: self.name@,
            image: self.image@,
            cmd: self.cmd.deep_view(),
            exposed_ports: self.exposed_ports.deep_view(),
            env: self.env.deep_view(),
            healthcheck: self.healthcheck.deep_view(),
            network: self.network@,
            aliases: self.aliases.deep_view(),
            publish_all_ports: self.publish_all_ports,
        }
    }
}

/// What became of something teardown asked the daemon to remove.
#[derive(Debug, PartialEq, Eq)]
pub enum Removal {
    Removed,
    /// There was nothing there to remove.
    Missing,
    Failed(String),
}

/// What a [`Removal`] says.
pub enum RemovalModel {
    Removed,
    Missing,
    Failed(Seq<char>),
}

impl DeepView for Removal {
    type V = RemovalModel;

    open spec fn deep_view(&self) -> RemovalModel {
        match self {
            Removal::Removed => RemovalModel::Removed,
            Removal::Missing => RemovalModel::Missing,
            Removal::Failed(reason) => RemovalModel::Failed(reason@),
        }
    }
}

/// Whether an answer of this status says there was no such thing.
pub fn is_not_found(status_code: Option<u16>) -> (r: bool)
    ensures
        r == (status_code == Some(404u16)),
{
    match status_code {
        Some(code) => code == 404,
        None => false,
    }
}

impl Removal {
    /// What became of a removal the daemon refused: the status it answered with,
    /// if it answered at all, and what it said.
    pub fn refused(status_code: Option<u16>, reason: String) -> (r: Removal)
        ensures
            r.deep_view() == (if status_code == Some(404u16) {
                RemovalModel::Missing
            } else {
                RemovalModel::Failed(reason@)
            }),
    {
        if is_not_found(status_code) {
            Removal::Missing
        } else {
            Removal::Failed(reason)
        }
    }
}

/// The containers that could not be removed, with the daemon's reasons.
pub open spec fn not_removed(removals: Seq<(Seq<char>, RemovalModel)>) -> Seq<
    (Seq<char>, Seq<char>),
>
    decreases removals.len(),
{
    if removals.len() == 0 {
        Seq::empty()
    } else {
        let rest = not_removed(removals.drop_last());
        match removals.last().1 {
            RemovalModel::Failed(reason) => rest.push((removals.last().0, reason)),
            _ => rest,
        }
    }
}

/// What teardown left behind.
pub open spec fn left_behind(
    removals: Seq<(Seq<char>, RemovalModel)>,
    network: RemovalModel,
) -> FailuresModel {
    FailuresModel {
        containers: not_removed(removals),
        network: match network {
            RemovalModel::Failed(reason) => Some(reason),
            _ => None,
        },
    }
}

/// The network of a worker.
pub open spec fn network_of(worker_id: u32) -> Seq<char> {
    "crucible-"@ + decimal(worker_id as nat)
}

/// In-network alias a backing container is reached by (via the proxy).
pub open spec fn alias_of(service: ServiceModel) -> Seq<char> {
    service.name + "-"@ + "actual"@
}

/// Network-scoped name of a service's backing container: its in-network
/// alias prefixed with the per-worker network.
pub open spec fn backing_of(network: Seq<char>, service: ServiceModel) -> Seq<char> {
    network + "-"@ + alias_of(service)
}

/// The single proxy container that fronts every service in the fleet.
pub open spec fn proxy_of(network: Seq<char>) -> Seq<char> {
    network + "-"@ + "proxy"@
}

/// Every container of a fleet: one per service, and then the proxy.
pub open spec fn containers_of(network: Seq<char>, services: Seq<ServiceModel>) -> Seq<Seq<char>> {
    Seq::new(services.len(), |i: int| backing_of(network, services[i])).push(proxy_of(network))
}

/// How a container's port is named to the daemon.
pub open spec fn tcp(port: u16) -> Seq<char> {
    decimal(port as nat) + "/tcp"@
}

/// What starting a service's backing container asks for. It is reached only
/// through the proxy, so it publishes no host port.
pub open spec fn backing_container(network: Seq<char>, service: ServiceModel) -> ContainerModel {
    ContainerModel {
        name: backing_of(network, service),
        image: service.image,
        cmd: None,
        exposed_ports: seq![tcp(service.port)],
        env: if service.env.len() > 0 {
            Some(service.env)
        } else {
            None
        },
        healthcheck: if service.healthcheck.len() > 0 {
            Some(
                HealthcheckModel {
                    test: service.healthcheck,
                    interval_ns: 1_000_000_000,
                    start_period_ns: 30_000_000_000,
                },
            )
        } else {
            None
        },
        network,
        aliases: seq![alias_of(service)],
        publish_all_ports: None,
    }
}

/// The listener the proxy binds for a service, and where it leads.
pub open spec fn pair_of(service: ServiceModel) -> Seq<char> {
    service.name + "=0.0.0.0:"@ + decimal(service.port as nat) + "="@ + alias_of(service) + ":"@
        + decimal(service.port as nat)
}

/// The proxy's arguments for its pairs.
pub open spec fn pairs(services: Seq<ServiceModel>) -> Seq<Seq<char>>
    decreases services.len(),
{
    if services.len() == 0 {
        Seq::empty()
    } else {
        pairs(services.drop_last()).push("--pair"@).push(pair_of(services.last()))
    }
}

/// How the proxy is told a direction.
pub open spec fn direction_argument(direction: Direction) -> Seq<char> {
    match direction {
        Direction::ClientToUpstream => "c2u"@,
        Direction::UpstreamToClient => "u2c"@,
    }
}

/// The proxy's whole command line.
pub open spec fn proxy_command(
    services: Seq<ServiceModel>,
    anchor: Option<ProxyAnchorModel>,
) -> Seq<Seq<char>> {
    match anchor {
        None => pairs(services),
        Some(anchor) => pairs(services).push("--freeze-at"@).push(
            anchor.service + "="@ + direction_argument(anchor.direction) + "="@ + decimal(
                anchor.k as nat,
            ),
        ),
    }
}

/// The port of the first service to reuse one.
pub open spec fn collision(services: Seq<ServiceModel>) -> Option<u16>
    decreases services.len(),
{
    if services.len() == 0 {
        None
    } else {
        match collision(services.drop_last()) {
            Some(port) => Some(port),
            None => if ports(services.drop_last()).contains(services.last().port) {
                Some(services.last().port)
            } else {
                None
            },
        }
    }
}

/// The services' ports.
pub open spec fn ports(services: Seq<ServiceModel>) -> Seq<u16> {
    Seq::new(services.len(), |i: int| services[i].port)
}

/// What starting the single proxy container fronting the whole fleet asks for:
/// one pair per service, every service name as a network alias, and all ports
/// published to the host.
pub open spec fn proxy_container(
    network: Seq<char>,
    services: Seq<ServiceModel>,
    anchor: Option<ProxyAnchorModel>,
) -> ContainerModel {
    ContainerModel {
        name: proxy_of(network),
        image: "crucible-proxy:0.1"@,
        cmd: Some(proxy_command(services, anchor)),
        exposed_ports: Seq::new(services.len(), |i: int| tcp(services[i].port)),
        env: None,
        healthcheck: None,
        network,
        aliases: Seq::new(services.len(), |i: int| services[i].name),
        publish_all_ports: Some(true),
    }
}

/// The port a service was last published on.
pub open spec fn published_on(endpoints: Seq<(Seq<char>, u16)>, name: Seq<char>) -> Option<u16>
    decreases endpoints.len(),
{
    if endpoints.len() == 0 {
        None
    } else if endpoints.last().0 == name {
        Some(endpoints.last().1)
    } else {
        published_on(endpoints.drop_last(), name)
    }
}

/// A per-worker deployment: what it is called, what it runs, and where that has
/// been published.
pub struct Docker {
    network: String,
    fleet: Fleet,
    /// The host ports services are published on, on the loopback address.
    endpoints: Vec<(String, u16)>,
    anchor: Option<ProxyAnchor>,
}

/// What a [`Docker`] holds.
#[verifier::ext_equal]
pub struct DockerModel {
    pub network: Seq<char>,
    pub services: Seq<ServiceModel>,
    pub endpoints: Seq<(Seq<char>, u16)>,
    pub anchor: Option<ProxyAnchorModel>,
}

impl DeepView for Docker {
    type V = DockerModel;

    closed spec fn deep_view(&self) -> DockerModel {
        DockerModel {
            network: self.network@,
            services: self.fleet.deep_view(),
            endpoints: self.endpoints.deep_view(),
            anchor: self.anchor.deep_view(),
        }
    }
}

/// The name of a service's container in its network.
fn backing_alias(service: &Service) -> (r: String)
    ensures
        r@ == alias_of(service.deep_view()),
{
    around(service.name.as_str(), "-", "actual")
}

/// How a container's port is named to the daemon.
fn tcp_port(port: u16) -> (r: String)
    ensures
        r@ == tcp(port),
{
    let mut out = spell(port as u128);
    out.append("/tcp");
    out
}

/// A span in the nanoseconds the daemon counts in.
fn nanos(d: Duration) -> (r: i64)
    requires
        d@ <= i64::MAX,
    ensures
        r == d@,
{
    d.as_nanos() as i64
}

impl Docker {
    /// A per-worker deployment of which nothing is up yet.
    pub fn new(worker_id: u32, fleet: Fleet, anchor: Option<ProxyAnchor>) -> (r: Docker)
        ensures
            r.deep_view() == (DockerModel {
                network: network_of(worker_id),
                services: fleet.deep_view(),
                endpoints: Seq::empty(),
                anchor: anchor.deep_view(),
            }),
    {
        let mut network = "crucible-".to_owned();
        let id = spell(worker_id as u128);
        network.append(id.as_str());
        let r = Docker { network, fleet, endpoints: Vec::new(), anchor };
        assert(r.endpoints.deep_view() =~= Seq::empty());
        r
    }

    pub fn network(&self) -> (r: &str)
        ensures
            r@ == self.deep_view().network,
    {
        self.network.as_str()
    }

    /// The services to bring up, in order.
    pub fn services(&self) -> (r: &[Service])
        ensures
            r.deep_view() == self.deep_view().services,
    {
        let r = self.fleet.services.as_slice();
        assert(r.deep_view() =~= self.fleet.services.deep_view());
        r
    }

    /// The service of that name, or that there is none.
    pub fn service_by_name(&self, name: &str) -> (r: Result<&Service, Error>)
        ensures
            match service_named(self.deep_view().services, name@) {
                Some(service) => r matches Ok(found) && found.deep_view() == service,
                None => r matches Err(e) && e.deep_view() == ErrorModel::UnknownService(name@),
            },
    {
        match self.fleet.service(name) {
            Some(service) => Ok(service),
            None => Err(Error::UnknownService(name.to_owned())),
        }
    }

    /// Network-scoped name of a service's backing container.
    pub fn backing_container_name(&self, service: &Service) -> (r: String)
        ensures
            r@ == backing_of(self.deep_view().network, service.deep_view()),
    {
        let alias = backing_alias(service);
        around(self.network.as_str(), "-", alias.as_str())
    }

    /// The single proxy container that fronts every service in the fleet.
    pub fn proxy_container_name(&self) -> (r: String)
        ensures
            r@ == proxy_of(self.deep_view().network),
    {
        around(self.network.as_str(), "-", "proxy")
    }

    /// Every container of the fleet, which are the ones to wait for and the ones
    /// to remove: one per service, and then the proxy.
    pub fn container_names(&self) -> (r: Vec<String>)
        ensures
            r.deep_view() == containers_of(self.deep_view().network, self.deep_view().services),
    {
        let ghost model = self.deep_view();
        let mut names: Vec<String> = Vec::new();
        for i in 0..self.fleet.services.len()
            invariant
                model == self.deep_view(),
                names@.len() == i,
                forall|j: int|
                    0 <= j < i ==> (#[trigger] names@[j])@ == backing_of(
                        model.network,
                        model.services[j],
                    ),
        {
            names.push(self.backing_container_name(&self.fleet.services[i]));
        }
        names.push(self.proxy_container_name());
        assert(names.deep_view() =~= containers_of(model.network, model.services));
        names
    }

    /// What to ask the daemon for to start a service's backing container. It is
    /// reached only through the proxy (via its `service-actual` network alias),
    /// so it publishes no host port.
    pub fn start_service(&self, service: &Service) -> (r: Container)
        ensures
            r.deep_view() == backing_container(self.deep_view().network, service.deep_view()),
    {
        let healthcheck = if service.healthcheck.len() > 0 {
            Some(
                Healthcheck {
                    test: clone_texts(service.healthcheck.as_slice()),
                    interval_ns: nanos(Duration::from_secs(1)),
                    start_period_ns: nanos(Duration::from_secs(30)),
                },
            )
        } else {
            None
        };
        let env = if service.env.len() > 0 {
            Some(clone_texts(service.env.as_slice()))
        } else {
            None
        };
        let exposed_ports = vec![tcp_port(service.port)];
        let aliases = vec![backing_alias(service)];
        let r = Container {
            name: self.backing_container_name(service),
            image: service.image.clone(),
            cmd: None,
            exposed_ports,
            env,
            healthcheck,
            network: self.network.clone(),
            aliases,
            publish_all_ports: None,
        };
        proof {
            let model = backing_container(self.deep_view().network, service.deep_view());
            assert(r.exposed_ports.deep_view() =~= model.exposed_ports);
            assert(r.aliases.deep_view() =~= model.aliases);
        }
        r
    }

    /// The port that two services share, if any do. The proxy binds one
    /// listener per service port. Distinct ports map through unchanged; a shared
    /// port cannot be disambiguated on the single container IP.
    fn port_collision(&self) -> (r: Option<u16>)
        ensures
            r == collision(self.deep_view().services),
    {
        let ghost services = self.deep_view().services;
        for i in 0..self.fleet.services.len()
            invariant
                services == self.deep_view().services,
                collision(services.take(i as int)) is None,
        {
            let port = self.fleet.services[i].port;
            proof {
                assert(services.take(i + 1).drop_last() =~= services.take(i as int));
                assert(services[i as int] == self.fleet.services@[i as int].deep_view());
            }
            for j in 0..i
                invariant
                    i < self.fleet.services@.len(),
                    services == self.deep_view().services,
                    port == services[i as int].port,
                    services.take(i + 1).drop_last() == services.take(i as int),
                    collision(services.take(i as int)) is None,
                    forall|k: int| 0 <= k < j ==> (#[trigger] services[k]).port != port,
            {
                assert(services[j as int] == self.fleet.services@[j as int].deep_view());
                if self.fleet.services[j].port == port {
                    proof {
                        assert(ports(services.take(i as int))[j as int] == port);
                        assert(collision(services.take(i + 1)) == Some(port));
                        lemma_collision_stays(services, i + 1);
                    }
                    return Some(port);
                }
            }
            assert(!ports(services.take(i as int)).contains(port));
        }
        assert(services.take(services.len() as int) =~= services);
        None
    }

    /// What to ask the daemon for to start the single proxy container fronting
    /// the whole fleet: one pair per service
    /// (`service=0.0.0.0:port=service-actual:port`), every service name as a
    /// network alias, and all ports published to the host. Every pair shares one
    /// process-wide pause gate, so a single signal freezes the whole fleet
    /// atomically.
    ///
    /// # Errors
    /// Errors if two services share a port, rather than misroute.
    pub fn start_proxy(&self) -> (r: Result<Container, Error>)
        ensures
            match collision(self.deep_view().services) {
                Some(port) => r matches Err(e) && e.deep_view() == ErrorModel::PortCollision(port),
                None => r matches Ok(container) && container.deep_view() == proxy_container(
                    self.deep_view().network,
                    self.deep_view().services,
                    self.deep_view().anchor,
                ),
            },
    {
        if let Some(port) = self.port_collision() {
            return Err(Error::PortCollision(port));
        }
        let ghost model = self.deep_view();
        let ghost services = model.services;
        let mut cmd: Vec<String> = Vec::new();
        let mut exposed_ports: Vec<String> = Vec::new();
        let mut aliases: Vec<String> = Vec::new();
        assert(cmd.deep_view() =~= pairs(services.take(0)));
        for i in 0..self.fleet.services.len()
            invariant
                model == self.deep_view(),
                services == model.services,
                cmd.deep_view() == pairs(services.take(i as int)),
                exposed_ports@.len() == i,
                aliases@.len() == i,
                forall|j: int|
                    0 <= j < i ==> (#[trigger] exposed_ports@[j])@ == tcp(services[j].port),
                forall|j: int| 0 <= j < i ==> (#[trigger] aliases@[j])@ == services[j].name,
        {
            let service = &self.fleet.services[i];
            proof {
                assert(services[i as int] == service.deep_view());
                assert(services.take(i + 1).drop_last() =~= services.take(i as int));
            }
            let ghost before = cmd.deep_view();
            cmd.push("--pair".to_owned());
            assert(cmd.deep_view() =~= before.push("--pair"@));
            let port = spell(service.port as u128);
            let alias = backing_alias(service);
            let mut pair = around(service.name.as_str(), "=0.0.0.0:", port.as_str());
            pair.append("=");
            pair.append(alias.as_str());
            pair.append(":");
            pair.append(port.as_str());
            let ghost said = pair@;
            let ghost before = cmd.deep_view();
            cmd.push(pair);
            assert(cmd.deep_view() =~= before.push(said));
            exposed_ports.push(tcp_port(service.port));
            aliases.push(service.name.clone());
        }
        assert(services.take(services.len() as int) =~= services);
        if let Some(anchor) = &self.anchor {
            let direction = match anchor.direction {
                Direction::ClientToUpstream => "c2u",
                Direction::UpstreamToClient => "u2c",
            };
            let ghost before = cmd.deep_view();
            cmd.push("--freeze-at".to_owned());
            assert(cmd.deep_view() =~= before.push("--freeze-at"@));
            let k = spell(anchor.k as u128);
            let mut at = around(anchor.service.as_str(), "=", direction);
            at.append("=");
            at.append(k.as_str());
            let ghost said = at@;
            let ghost before = cmd.deep_view();
            cmd.push(at);
            assert(cmd.deep_view() =~= before.push(said));
        }
        let r = Container {
            name: self.proxy_container_name(),
            image: "crucible-proxy:0.1".to_owned(),
            cmd: Some(cmd),
            exposed_ports,
            env: None,
            healthcheck: None,
            network: self.network.clone(),
            aliases,
            publish_all_ports: Some(true),
        };
        proof {
            let asked = proxy_container(model.network, services, model.anchor);
            assert(r.exposed_ports.deep_view() =~= asked.exposed_ports);
            assert(r.aliases.deep_view() =~= asked.aliases);
        }
        Ok(r)
    }

    /// Services have been published on these host ports.
    pub fn published(&mut self, endpoints: Vec<(String, u16)>)
        ensures
            final(self).deep_view() == (DockerModel {
                endpoints: old(self).deep_view().endpoints + endpoints.deep_view(),
                ..old(self).deep_view()
            }),
    {
        let mut endpoints = endpoints;
        let ghost before = self.endpoints.deep_view();
        let ghost more = endpoints.deep_view();
        self.endpoints.append(&mut endpoints);
        assert(self.endpoints.deep_view() =~= before + more);
    }

    /// The host port a service is published on, on the loopback address.
    pub fn endpoint(&self, name: &str) -> (r: Option<u16>)
        ensures
            r == published_on(self.deep_view().endpoints, name@),
    {
        let ghost model = self.endpoints.deep_view();
        let mut i: usize = self.endpoints.len();
        assert(model.take(model.len() as int) =~= model);
        while i > 0
            invariant
                i <= self.endpoints@.len(),
                model == self.endpoints.deep_view(),
                model == self.deep_view().endpoints,
                published_on(model, name@) == published_on(model.take(i as int), name@),
            decreases i,
        {
            i = i - 1;
            proof {
                assert(model[i as int] == self.endpoints@[i as int].deep_view());
                assert(model.take(i + 1).drop_last() =~= model.take(i as int));
            }
            if same(self.endpoints[i].0.as_str(), name) {
                return Some(self.endpoints[i].1);
            }
        }
        None
    }

    /// What teardown comes to, once every container and then the network has
    /// been asked to go. Nothing is published any longer.
    ///
    /// # Errors
    /// Errors if anything that was there could not be removed.
    pub fn teardown(&mut self, removals: Vec<(String, Removal)>, network: Removal) -> (r: Result<
        (),
        Error,
    >)
        ensures
            final(self).deep_view() == (DockerModel {
                endpoints: Seq::empty(),
                ..old(self).deep_view()
            }),
            ({
                let left = left_behind(removals.deep_view(), network.deep_view());
                match r {
                    Ok(_) => left == FailuresModel::none(),
                    Err(e) => left != FailuresModel::none() && e.deep_view()
                        == ErrorModel::TeardownIncomplete(left),
                }
            }),
    {
        let mut failures = TeardownFailures::new();
        let ghost model = removals.deep_view();
        assert(failures.deep_view().containers =~= not_removed(model.take(0)));
        for i in 0..removals.len()
            invariant
                model == removals.deep_view(),
                failures.deep_view() == (FailuresModel {
                    containers: not_removed(model.take(i as int)),
                    network: None,
                }),
        {
            proof {
                assert(model[i as int] == removals@[i as int].deep_view());
                assert(model.take(i + 1).drop_last() =~= model.take(i as int));
            }
            let (name, removal) = &removals[i];
            if let Removal::Failed(reason) = removal {
                failures.append_container(name.as_str(), reason.as_str());
            }
        }
        assert(model.take(model.len() as int) =~= model);
        self.endpoints = Vec::new();
        assert(self.endpoints.deep_view() =~= Seq::empty());
        if let Removal::Failed(reason) = &network {
            failures.set_network(reason.as_str());
        }
        assert(failures.deep_view() =~= left_behind(model, network.deep_view()));
        if failures.is_empty() {
            Ok(())
        } else {
            Err(Error::TeardownIncomplete(failures))
        }
    }
}

/// Whether a container can be used: it says it is healthy, or, where it says
/// nothing of its health, it is running.
pub fn container_ready(healthy: Option<bool>, running: Option<bool>) -> (r: bool)
    ensures
        r == (match healthy {
            Some(healthy) => healthy,
            None => running == Some(true),
        }),
{
    match healthy {
        Some(healthy) => healthy,
        None => match running {
            Some(running) => running,
            None => false,
        },
    }
}

/// Whether to look at a container once more, having waited that long for it.
///
/// # Errors
/// Errors once the container has had all the time it may have.
pub fn keep_waiting(container: &str, waited: &Duration) -> (r: Result<(), Error>)
    ensures
        match r {
            Ok(_) => waited@ < longest_wait()@,
            Err(e) => waited@ >= longest_wait()@ && e.deep_view()
                == (ErrorModel::ReadinessTimeout { name: container@, timeout: longest_wait() }),
        },
{
    let timeout = readiness_timeout();
    if waited.shorter(&timeout) {
        Ok(())
    } else {
        Err(Error::ReadinessTimeout { name: container.to_owned(), timeout })
    }
}

/// What the daemon says a container's ports are bound to: by port, the host
/// ports, where it has any.
pub type Bindings = Vec<(String, Option<Vec<Option<String>>>)>;

/// What [`Bindings`] say.
pub type BindingsModel = Seq<(Seq<char>, Option<Seq<Option<Seq<char>>>>)>;

/// The host port the first binding of a port names.
pub open spec fn bound_to(bindings: BindingsModel, port: u16) -> Option<u16> {
    match crate::plan::entry_of(bindings, tcp(port)) {
        Some(Some(hosts)) => if hosts.len() > 0 {
            match hosts[0] {
                Some(host) => match number(host) {
                    Some(n) => if n <= u16::MAX {
                        Some(n as u16)
                    } else {
                        None
                    },
                    None => None,
                },
                None => None,
            }
        } else {
            None
        },
        _ => None,
    }
}

/// The first entry under that key.
fn binding_of<'a>(bindings: &'a Bindings, key: &str) -> (r: Option<
    &'a Option<Vec<Option<String>>>,
>)
    ensures
        r.deep_view() == crate::plan::entry_of(bindings.deep_view(), key@),
{
    let ghost model = bindings.deep_view();
    assert(model.skip(0) =~= model);
    for i in 0..bindings.len()
        invariant
            model == bindings.deep_view(),
            crate::plan::entry_of(model, key@) == crate::plan::entry_of(model.skip(i as int), key@),
    {
        proof {
            assert(model[i as int] == bindings@[i as int].deep_view());
            assert(model.skip(i as int)[0] == model[i as int]);
            assert(model.skip(i as int).skip(1) =~= model.skip(i + 1));
        }
        if same(bindings[i].0.as_str(), key) {
            return Some(&bindings[i].1);
        }
    }
    None
}

/// The host port a container's port was published on, going by what the daemon
/// says of its ports, if it says anything.
///
/// # Errors
/// Errors if the port was not published.
pub fn published_port(container: &str, port: u16, bindings: &Option<Bindings>) -> (r: Result<
    u16,
    Error,
>)
    ensures
        match r {
            Ok(host) => bindings.deep_view() matches Some(bindings) && bound_to(bindings, port)
                == Some(host),
            Err(e) => (bindings.deep_view() matches Some(bindings) ==> bound_to(bindings, port)
                is None) && e.deep_view() == (ErrorModel::MissingPort { name: container@, port }),
        },
{
    if let Some(bindings) = bindings {
        let key = tcp_port(port);
        if let Some(Some(hosts)) = binding_of(bindings, key.as_str()) {
            let ghost model = hosts.deep_view();
            if hosts.len() > 0 {
                assert(model[0] == hosts@[0].deep_view());
                if let Some(host) = &hosts[0] {
                    if let Some(n) = read_number(host.as_str()) {
                        if n <= u16::MAX as u32 {
                            return Ok(n as u16);
                        }
                    }
                }
            }
        }
    }
    Err(Error::MissingPort { name: container.to_owned(), port })
}

/// A port two services share is shared whatever other services there are.
proof fn lemma_collision_stays(services: Seq<ServiceModel>, n: int)
    requires
        0 <= n <= services.len(),
        collision(services.take(n)) is Some,
    ensures
        collision(services) == collision(services.take(n)),
    decreases services.len() - n,
{
    if n < services.len() {
        assert(services.take(n + 1).drop_last() =~= services.take(n));
        lemma_collision_stays(services, n + 1);
    } else {
        assert(services.take(n) =~= services);
    }
}

/// A fleet's proxy can be started exactly where no two services share a port.
pub proof fn lemma_collision_is_a_shared_port(services: Seq<ServiceModel>)
    ensures
        collision(services) is None <==> ports(services).no_duplicates(),
        collision(services) matches Some(port) ==> ports(services).contains(port),
    decreases services.len(),
{
    if services.len() > 0 {
        let rest = services.drop_last();
        lemma_collision_is_a_shared_port(rest);
        let all = ports(services);
        let few = ports(rest);
        assert(all.drop_last() =~= few);
        assert(all.last() == services.last().port);
        if collision(services) is None {
            assert forall|i: int, j: int| 0 <= i < all.len() && 0 <= j < all.len() && i
                != j implies all[i] != all[j] by {
                if i < few.len() && j < few.len() {
                    assert(few[i] == all[i] && few[j] == all[j]);
                } else if i < few.len() {
                    assert(few[i] == all[i]);
                } else {
                    assert(few[j] == all[j]);
                }
            }
        } else if collision(rest) is Some {
            let port = collision(rest)->0;
            let k = few.index_of(port);
            assert(all[k] == port);
            assert(!few.no_duplicates());
            let (i, j) = choose|i: int, j: int|
                0 <= i < few.len() && 0 <= j < few.len() && i != j && few[i] == few[j];
            assert(all[i] == all[j]);
        } else {
            let k = few.index_of(services.last().port);
            assert(all[k] == all.last());
        }
    }
}

/// Two numbers spelled alike are one number.
proof fn lemma_decimal_injective(a: nat, b: nat)
    requires
        decimal(a) == decimal(b),
    ensures
        a == b,
    decreases a,
{
    let x = decimal(a);
    let y = decimal(b);
    assert(x.last() == digit(a % 10) && y.last() == digit(b % 10));
    assert(digit(a % 10) as int == 48 + a % 10 && digit(b % 10) as int == 48 + b % 10);
    assert(x.drop_last() =~= if a < 10 {
        Seq::empty()
    } else {
        decimal(a / 10)
    });
    assert(y.drop_last() =~= if b < 10 {
        Seq::empty()
    } else {
        decimal(b / 10)
    });
    assert(decimal(a / 10).len() > 0 && decimal(b / 10).len() > 0);
    if a >= 10 && b >= 10 {
        lemma_decimal_injective(a / 10, b / 10);
    }
}

/// No two workers share a network, so what one leaves behind can be told from
/// what another is running by its worker's id alone.
pub proof fn lemma_workers_do_not_share_a_network(a: u32, b: u32)
    ensures
        network_of(a) == network_of(b) <==> a == b,
{
    if network_of(a) == network_of(b) {
        let n = "crucible-"@.len() as int;
        assert(network_of(a).skip(n) =~= decimal(a as nat));
        assert(network_of(b).skip(n) =~= decimal(b as nat));
        lemma_decimal_injective(a as nat, b as nat);
    }
}

} // verus!
