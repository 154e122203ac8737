//! What the Docker deployment asks for and makes of the answers.

use crucible::deployment::docker::{
    container_ready, is_not_found, keep_waiting, published_port, Docker, Error, ProxyAnchor,
    Removal, TeardownFailures,
};
use crucible::fleet::{example, Fleet, Service};
use crucible::plan::Value;
use crucible::protocol::Direction;
use crucible::time::Duration;

#[test]
fn teardown_failures_is_empty_by_default() {
    assert!(TeardownFailures::new().is_empty());
}

#[test]
fn teardown_failures_appended_items_show_up_in_display() {
    let mut failures = TeardownFailures::new();
    failures.append_container("api", "boom");
    failures.append_container("db", "gone");
    failures.set_network("network still has endpoints");
    assert!(!failures.is_empty());
    assert_eq!(
        failures.spell(),
        "container `api`: boom; container `db`: gone; network: network still has endpoints"
    );
}

#[test]
fn teardown_failures_display_with_only_network() {
    let mut failures = TeardownFailures::new();
    failures.set_network("still in use");
    assert_eq!(failures.spell(), "network: still in use");
}

#[test]
fn teardown_failures_display_with_only_containers() {
    let mut failures = TeardownFailures::new();
    failures.append_container("api", "boom");
    assert_eq!(failures.spell(), "container `api`: boom");
}

#[test]
fn teardown_failures_can_be_read_back() {
    let mut failures = TeardownFailures::new();
    failures.append_container("api", "boom");
    assert_eq!(failures.containers(), &[("api".to_string(), "boom".to_string())]);
    assert_eq!(failures.network(), None);
    failures.set_network("busy");
    assert_eq!(failures.network(), Some("busy"));
}

fn service(name: &str, port: u16) -> Service {
    Service {
        name: name.to_string(),
        image: "nginx:alpine".to_string(),
        port,
        env: Vec::new(),
        healthcheck: Vec::new(),
    }
}

fn fleet() -> Fleet {
    Fleet::new(vec![service("web-a", 80), service("cache-b", 6379)])
}

#[test]
fn containers_are_named_after_the_worker() {
    let docker = Docker::new(7, fleet(), None);
    assert_eq!(docker.network(), "crucible-7");
    assert_eq!(
        docker.container_names(),
        vec![
            "crucible-7-web-a-actual".to_string(),
            "crucible-7-cache-b-actual".to_string(),
            "crucible-7-proxy".to_string(),
        ]
    );
    assert_eq!(docker.services().len(), 2);
    assert_eq!(docker.proxy_container_name(), "crucible-7-proxy");
}

#[test]
fn two_workers_do_not_share_a_network() {
    let one = Docker::new(1, fleet(), None);
    let eleven = Docker::new(11, fleet(), None);
    assert_ne!(one.network(), eleven.network());
}

#[test]
fn a_backing_container_is_reached_by_its_alias_alone() {
    let docker = Docker::new(0, fleet(), None);
    let mut probed = service("db", 3306);
    probed.env = vec!["A=b".to_string()];
    probed.healthcheck = vec!["CMD".to_string(), "true".to_string()];
    let container = docker.start_service(&probed);
    assert_eq!(container.name, "crucible-0-db-actual");
    assert_eq!(container.image, "nginx:alpine");
    assert_eq!(container.exposed_ports, vec!["3306/tcp".to_string()]);
    assert_eq!(container.env, Some(vec!["A=b".to_string()]));
    assert_eq!(container.network, "crucible-0");
    assert_eq!(container.aliases, vec!["db-actual".to_string()]);
    assert_eq!(container.publish_all_ports, None);
    assert_eq!(container.cmd, None);
    let healthcheck = container.healthcheck.expect("a probed service has a healthcheck");
    assert_eq!(healthcheck.test, vec!["CMD".to_string(), "true".to_string()]);
    assert_eq!(healthcheck.interval_ns, 1_000_000_000);
    assert_eq!(healthcheck.start_period_ns, 30_000_000_000);

    let bare = docker.start_service(&service("web-a", 80));
    assert_eq!(bare.env, None);
    assert_eq!(bare.healthcheck, None);
}

#[test]
fn the_proxy_fronts_every_service() {
    let anchor = ProxyAnchor {
        service: "cache-b".to_string(),
        direction: Direction::UpstreamToClient,
        k: 3,
    };
    let docker = Docker::new(2, fleet(), Some(anchor));
    let container = docker.start_proxy().expect("ports are distinct");
    assert_eq!(container.name, "crucible-2-proxy");
    assert_eq!(container.image, "crucible-proxy:0.1");
    assert_eq!(
        container.cmd,
        Some(vec![
            "--pair".to_string(),
            "web-a=0.0.0.0:80=web-a-actual:80".to_string(),
            "--pair".to_string(),
            "cache-b=0.0.0.0:6379=cache-b-actual:6379".to_string(),
            "--freeze-at".to_string(),
            "cache-b=u2c=3".to_string(),
        ])
    );
    assert_eq!(
        container.exposed_ports,
        vec!["80/tcp".to_string(), "6379/tcp".to_string()]
    );
    assert_eq!(
        container.aliases,
        vec!["web-a".to_string(), "cache-b".to_string()]
    );
    assert_eq!(container.publish_all_ports, Some(true));

    let counting = ProxyAnchor {
        service: "web-a".to_string(),
        direction: Direction::ClientToUpstream,
        k: 12,
    };
    let docker = Docker::new(2, fleet(), Some(counting));
    let cmd = docker.start_proxy().expect("ports are distinct").cmd;
    assert_eq!(cmd.expect("a command")[5], "web-a=c2u=12");
}

#[test]
fn a_shared_port_is_refused() {
    let shared = Fleet::new(vec![service("a", 80), service("b", 81), service("c", 80)]);
    let docker = Docker::new(0, shared, None);
    let refused = docker.start_proxy().expect_err("a shared port");
    assert_eq!(refused, Error::PortCollision(80));
    assert_eq!(
        refused.spell(),
        "two services share port 80; the single-container proxy would need to remap it and \
         rewrite the consumer's endpoint, which is not wired yet"
    );
}

#[test]
fn an_unknown_service_is_an_error() {
    let docker = Docker::new(0, fleet(), None);
    assert_eq!(docker.service_by_name("web-a").expect("defined").port, 80);
    let unknown = docker.service_by_name("nope").expect_err("undefined");
    assert_eq!(unknown.spell(), "unknown service `nope`");
}

#[test]
fn a_missing_endpoint_is_worded_as_such() {
    assert_eq!(
        Error::EndpointMissing("api".to_string()).spell(),
        "service `api` has no published endpoint after setup"
    );
}

#[test]
fn endpoints_are_cleared_by_teardown() {
    let mut docker = Docker::new(0, fleet(), None);
    assert_eq!(docker.endpoint("web-a"), None);
    docker.published(vec![("web-a".to_string(), 32768), ("cache-b".to_string(), 32769)]);
    assert_eq!(docker.endpoint("web-a"), Some(32768));
    docker.published(vec![("web-a".to_string(), 40000)]);
    assert_eq!(docker.endpoint("web-a"), Some(40000));
    let removals = vec![
        ("crucible-0-web-a-actual".to_string(), Removal::Removed),
        ("crucible-0-cache-b-actual".to_string(), Removal::Missing),
    ];
    assert_eq!(docker.teardown(removals, Removal::Removed), Ok(()));
    assert_eq!(docker.endpoint("web-a"), None);
    assert_eq!(docker.endpoint("cache-b"), None);
}

#[test]
fn what_could_not_be_removed_is_reported() {
    let mut docker = Docker::new(0, fleet(), None);
    let removals = vec![
        ("a".to_string(), Removal::refused(Some(404), "no such container".to_string())),
        ("b".to_string(), Removal::refused(Some(500), "boom".to_string())),
    ];
    let left = docker
        .teardown(removals, Removal::refused(None, "daemon gone".to_string()))
        .expect_err("something was left behind");
    assert_eq!(
        left.spell(),
        "teardown incomplete: container `b`: boom; network: daemon gone"
    );
}

#[test]
fn only_not_found_is_not_found() {
    assert!(is_not_found(Some(404)));
    assert!(!is_not_found(Some(409)));
    assert!(!is_not_found(None));
}

#[test]
fn health_decides_readiness_and_running_stands_in_for_it() {
    assert!(container_ready(Some(true), Some(false)));
    assert!(!container_ready(Some(false), Some(true)));
    assert!(container_ready(None, Some(true)));
    assert!(!container_ready(None, Some(false)));
    assert!(!container_ready(None, None));
}

#[test]
fn a_container_has_a_minute_to_become_ready() {
    assert_eq!(keep_waiting("c", &Duration::from_millis(59_999)), Ok(()));
    let late = keep_waiting("c", &Duration::from_secs(60)).expect_err("out of time");
    assert_eq!(
        late.spell(),
        "service `c` at 127.0.0.1:0 did not become ready within 60s"
    );
}

#[test]
fn a_published_port_is_the_first_binding() {
    let bindings = Some(vec![
        ("80/tcp".to_string(), Some(vec![Some("32768".to_string()), Some("1".to_string())])),
        ("81/tcp".to_string(), None),
        ("82/tcp".to_string(), Some(vec![None])),
        ("83/tcp".to_string(), Some(vec![Some("65536".to_string())])),
        ("84/tcp".to_string(), Some(Vec::new())),
    ]);
    assert_eq!(published_port("c", 80, &bindings), Ok(32768));
    for port in [81, 82, 83, 84, 85] {
        assert_eq!(
            published_port("c", port, &bindings),
            Err(Error::MissingPort { name: "c".to_string(), port })
        );
    }
    assert_eq!(
        published_port("c", 80, &None).expect_err("nothing said").spell(),
        "service `c` did not publish port 80"
    );
}

#[test]
fn a_service_is_found_by_name() {
    let fleet = fleet();
    assert_eq!(fleet.service("cache-b").map(|s| s.port), Some(6379));
    assert_eq!(fleet.service("nope"), None);
    assert_eq!(Fleet::default().services.len(), 0);
}

#[test]
fn the_example_fleet_is_the_orders_fleet() {
    let fleet = example();
    assert_eq!(fleet.name, "orders");
    assert_eq!(fleet.deployment, "docker");
    let names: Vec<&str> = fleet.services.iter().map(|s| s.name.as_str()).collect();
    assert_eq!(names, ["api", "broker", "db", "inventory"]);
    assert_eq!(fleet.services[2].kinds, vec!["mariadb".to_string()]);
    assert_eq!(fleet.services[2].attr("port").and_then(Value::as_int), Some(3306));
    assert_eq!(
        fleet.services[0].attr("env").and_then(Value::as_strs),
        Some(vec![
            "DATABASE_URL=mysql://root@db:3306/orders",
            "BROKER_URL=amqp://broker:5672",
            "RUST_LOG=info",
        ])
    );
    assert_eq!(fleet.services[1].attr("env").and_then(Value::as_strs), Some(Vec::new()));
}
