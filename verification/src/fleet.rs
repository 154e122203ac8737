//! Fleet spec: services the framework brings up, faults, and observes.

use vstd::prelude::*;

use crate::plan::{self, Literal, Value};
use crate::text::{clone_texts, same};

verus! {

/// One service of a fleet replica, as a deployment plugin needs it.
#[derive(Debug, PartialEq, Eq)]
pub struct Service {
    pub name: String,
    pub image: String,
    pub port: u16,
    /// Environment variables passed to the container, one per entry in `KEY=value` form.
    pub env: Vec<String>,
    /// Command to run inside the container as a HEALTHCHECK; empty means the image's
    /// built-in HEALTHCHECK is used.
    pub healthcheck: Vec<String>,
}

/// What a [`Service`] holds.
#[verifier::ext_equal]
pub struct ServiceModel {
    pub name: Seq<char>,
    pub image: Seq<char>,
    pub port: u16,
    pub env: Seq<Seq<char>>,
    pub healthcheck: Seq<Seq<char>>,
}

impl DeepView for Service {
    type V = ServiceModel;

    open spec fn deep_view(&self) -> ServiceModel {
        ServiceModel {
            name: self.name@,
            image: self.image@,
            port: self.port,
            env: self.env.deep_view(),
            healthcheck: self.healthcheck.deep_view(),
        }
    }
}

impl Clone for Service {
    fn clone(&self) -> (r: Service)
        ensures
            r.deep_view() == self.deep_view(),
    {
        Service {
            name: self.name.clone(),
            image: self.image.clone(),
            port: self.port,
            env: clone_texts(self.env.as_slice()),
            healthcheck: clone_texts(self.healthcheck.as_slice()),
        }
    }
}

#[derive(Debug, PartialEq, Eq)]
pub struct Fleet {
    pub services: Vec<Service>,
}

impl DeepView for Fleet {
    type V = Seq<ServiceModel>;

    open spec fn deep_view(&self) -> Seq<ServiceModel> {
        self.services.deep_view()
    }
}

impl Clone for Fleet {
    fn clone(&self) -> (r: Fleet)
        ensures
            r.deep_view() == self.deep_view(),
    {
        let mut services: Vec<Service> = Vec::new();
        for i in 0..self.services.len()
            invariant
                services@.len() == i,
                forall|j: int|
                    0 <= j < i ==> (#[trigger] services@[j]).deep_view()
                        == self.services@[j].deep_view(),
        {
            services.push(self.services[i].clone());
        }
        assert(services.deep_view() =~= self.services.deep_view());
        Fleet { services }
    }
}

impl Default for Fleet {
    fn default() -> (r: Fleet)
        ensures
            r.deep_view() == Seq::<ServiceModel>::empty(),
    {
        let r = Fleet { services: Vec::new() };
        assert(r.deep_view() =~= Seq::empty());
        r
    }
}

/// The first service of that name, where there is one.
pub open spec fn service_named(services: Seq<ServiceModel>, name: Seq<char>) -> Option<ServiceModel>
    decreases services.len(),
{
    if services.len() == 0 {
        None
    } else if services[0].name == name {
        Some(services[0])
    } else {
        service_named(services.skip(1), name)
    }
}

impl Fleet {
    pub fn new(services: Vec<Service>) -> (r: Fleet)
        ensures
            r.deep_view() == services.deep_view(),
    {
        Fleet { services }
    }

    /// The first service of that name, where there is one.
    pub fn service(&self, name: &str) -> (r: Option<&Service>)
        ensures
            r.deep_view() == service_named(self.deep_view(), name@),
    {
        let ghost model = self.deep_view();
        assert(model.skip(0) =~= model);
        for i in 0..self.services.len()
            invariant
                model == self.deep_view(),
                service_named(model, name@) == service_named(model.skip(i as int), name@),
        {
            proof {
                assert(model[i as int] == self.services@[i as int].deep_view());
                assert(model.skip(i as int)[0] == model[i as int]);
                assert(model.skip(i as int).skip(1) =~= model.skip(i + 1));
            }
            if same(self.services[i].name.as_str(), name) {
                return Some(&self.services[i]);
            }
        }
        None
    }
}

/// A list of texts, as a literal.
pub open spec fn texts(values: Seq<Seq<char>>) -> Literal {
    Literal::List(Seq::new(values.len(), |i: int| Literal::Str(values[i])))
}

/// A service of the example fleet.
pub open spec fn example_service(
    name: Seq<char>,
    kinds: Seq<Seq<char>>,
    image: Seq<char>,
    port: i64,
    env: Seq<Seq<char>>,
    healthcheck: Seq<Seq<char>>,
) -> plan::ServiceModel {
    plan::ServiceModel {
        name,
        kinds,
        attrs: seq![
            ("image"@, Literal::Str(image)),
            ("port"@, Literal::Int(port)),
            ("env"@, texts(env)),
            ("healthcheck"@, texts(healthcheck)),
        ],
    }
}

/// The `orders` example fleet: an HTTP API that accepts orders, a rabbitmq
/// broker, a mariadb database, and an inventory consumer that decrements
/// stock in response to `order.created` events.
pub open spec fn orders_fleet() -> plan::FleetModel {
    plan::FleetModel {
        name: "orders"@,
        deployment: "docker"@,
        services: seq![
            example_service(
                "api"@,
                seq!["http"@],
                "crucible-example/orders-api:0.1"@,
                8080,
                seq![
                    "DATABASE_URL=mysql://root@db:3306/orders"@,
                    "BROKER_URL=amqp://broker:5672"@,
                    "RUST_LOG=info"@,
                ],
                seq!["CMD"@, "curl"@, "-fsS"@, "http://127.0.0.1:8080/healthz"@],
            ),
            example_service(
                "broker"@,
                seq!["amqp"@],
                "rabbitmq:3.13-management"@,
                5672,
                seq![],
                seq!["CMD"@, "bash"@, "-c"@, ": < /dev/tcp/127.0.0.1/5672"@],
            ),
            example_service(
                "db"@,
                seq!["mariadb"@],
                "mariadb:11.4"@,
                3306,
                seq!["MARIADB_ALLOW_EMPTY_ROOT_PASSWORD=yes"@, "MARIADB_DATABASE=orders"@],
                seq!["CMD"@, "mariadb-admin"@, "ping"@, "-h"@, "127.0.0.1"@],
            ),
            example_service(
                "inventory"@,
                seq!["amqp"@],
                "crucible-example/orders-inventory:0.1"@,
                8081,
                seq![
                    "DATABASE_URL=mysql://root@db:3306/orders"@,
                    "BROKER_URL=amqp://broker:5672"@,
                    "RUST_LOG=info"@,
                ],
                seq!["CMD"@, "curl"@, "-fsS"@, "http://127.0.0.1:8081/healthz"@],
            ),
        ],
    }
}

/// The `orders` example fleet: an HTTP API that accepts orders, a rabbitmq
/// broker, a mariadb database, and an inventory consumer that decrements
/// stock in response to `order.created` events.
pub fn example() -> (r: plan::Fleet)
    ensures
        r.deep_view() == orders_fleet(),
{
    let api_probe = vec!["CMD", "curl", "-fsS", "http://127.0.0.1:8080/healthz"];
    assert(views(api_probe@) =~= seq!["CMD"@, "curl"@, "-fsS"@, "http://127.0.0.1:8080/healthz"@]);
    let api = service(
        "api",
        "http",
        "crucible-example/orders-api:0.1",
        8080,
        backed(),
        api_probe,
    );
    // Probe the AMQP port rather than run `rabbitmq-diagnostics`. That
    // command starts an Erlang node, and Docker runs healthchecks as the
    // image's default user (root here), so under a slow concurrent boot a
    // probe can create a root-owned /var/lib/rabbitmq/.erlang.cookie before
    // the broker (running as rabbitmq) writes its own; the broker then
    // cannot read the cookie and dies with `.erlang.cookie: eacces`. A bare
    // TCP connect touches no cookie and still gates on the listener.
    let broker_probe = vec!["CMD", "bash", "-c", ": < /dev/tcp/127.0.0.1/5672"];
    assert(views(broker_probe@) =~= seq!["CMD"@, "bash"@, "-c"@, ": < /dev/tcp/127.0.0.1/5672"@]);
    let none: Vec<&str> = Vec::new();
    assert(views(none@) =~= seq![]);
    let broker = service(
        "broker",
        "amqp",
        "rabbitmq:3.13-management",
        5672,
        none,
        broker_probe,
    );
    let db_env = vec!["MARIADB_ALLOW_EMPTY_ROOT_PASSWORD=yes", "MARIADB_DATABASE=orders"];
    assert(views(db_env@) =~= seq!["MARIADB_ALLOW_EMPTY_ROOT_PASSWORD=yes"@, "MARIADB_DATABASE=orders"@]);
    let db_probe = vec!["CMD", "mariadb-admin", "ping", "-h", "127.0.0.1"];
    assert(views(db_probe@) =~= seq!["CMD"@, "mariadb-admin"@, "ping"@, "-h"@, "127.0.0.1"@]);
    let db = service(
        "db",
        "mariadb",
        "mariadb:11.4",
        3306,
        db_env,
        db_probe,
    );
    let inventory_probe = vec!["CMD", "curl", "-fsS", "http://127.0.0.1:8081/healthz"];
    assert(views(inventory_probe@) =~= seq!["CMD"@, "curl"@, "-fsS"@, "http://127.0.0.1:8081/healthz"@]);
    let inventory = service(
        "inventory",
        "amqp",
        "crucible-example/orders-inventory:0.1",
        8081,
        backed(),
        inventory_probe,
    );
    proof {
        let orders = orders_fleet().services;
        assert(api.deep_view() =~= orders[0]);
        assert(broker.deep_view() =~= orders[1]);
        assert(db.deep_view() =~= orders[2]);
        assert(inventory.deep_view() =~= orders[3]);
    }
    let services = vec![api, broker, db, inventory];
    assert(services.deep_view() =~= orders_fleet().services);
    plan::Fleet { name: "orders".to_owned(), deployment: "docker".to_owned(), services }
}

/// The environment of a service that works against the database and the broker.
fn backed() -> (r: Vec<&'static str>)
    ensures
        views(r@) == seq![
            "DATABASE_URL=mysql://root@db:3306/orders"@,
            "BROKER_URL=amqp://broker:5672"@,
            "RUST_LOG=info"@,
        ],
{
    let env = vec![
        "DATABASE_URL=mysql://root@db:3306/orders",
        "BROKER_URL=amqp://broker:5672",
        "RUST_LOG=info",
    ];
    assert(views(env@) =~= seq![
        "DATABASE_URL=mysql://root@db:3306/orders"@,
        "BROKER_URL=amqp://broker:5672"@,
        "RUST_LOG=info"@,
    ]);
    env
}

fn service(
    name: &str,
    kind: &str,
    image: &str,
    port: i64,
    env: Vec<&str>,
    healthcheck: Vec<&str>,
) -> (r: plan::Service)
    ensures
        r.deep_view() == example_service(
            name@,
            seq![kind@],
            image@,
            port,
            views(env@),
            views(healthcheck@),
        ),
{
    let attrs = vec![
        ("image".to_owned(), Value::Str(image.to_owned())),
        ("port".to_owned(), Value::Int(port)),
        ("env".to_owned(), strs(env.as_slice())),
        ("healthcheck".to_owned(), strs(healthcheck.as_slice())),
    ];
    let kinds = vec![kind.to_owned()];
    assert(kinds.deep_view() =~= seq![kind@]);
    let r = plan::Service { name: name.to_owned(), kinds, attrs };
    proof {
        let model = example_service(
            name@,
            kinds.deep_view(),
            image@,
            port,
            views(env@),
            views(healthcheck@),
        );
        assert(r.attrs.deep_view() =~= model.attrs);
    }
    r
}

/// What each text says.
pub open spec fn views(values: Seq<&str>) -> Seq<Seq<char>> {
    Seq::new(values.len(), |i: int| values[i]@)
}

fn strs(values: &[&str]) -> (r: Value)
    ensures
        r.deep_view() == texts(views(values@)),
{
    let mut out: Vec<Value> = Vec::new();
    for i in 0..values.len()
        invariant
            out@.len() == i,
            forall|j: int|
                0 <= j < i ==> (#[trigger] out@[j]).deep_view() == Literal::Str(values@[j]@),
    {
        out.push(Value::Str(values[i].to_owned()));
    }
    proof {
        plan::lemma_list_literal(out);
        assert(out.deep_view() =~= texts(views(values@))->List_0);
    }
    Value::List(out)
}

} // verus!
