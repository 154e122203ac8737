//! L1 session proxy: what a bytes-through TCP forwarder says of its
//! connections, and which of them are open.

use vstd::prelude::*;

use vstd::string::*;

use crate::text::around;

verus! {

pub type ConnId = u64;

/// Something that happened to a connection.
#[derive(Debug, PartialEq, Eq)]
pub struct ConnEvent {
    pub id: ConnId,
    pub kind: ConnEventKind,
}

#[derive(Debug, PartialEq, Eq)]
pub enum ConnEventKind {
    Opened { peer: String },
    Closed { bytes_client_to_upstream: u64, bytes_upstream_to_client: u64 },
    /// Forwarding failed before or during byte transfer.
    Failed { reason: String },
}

/// What a [`ConnEvent`] says.
#[verifier::ext_equal]
pub struct EventModel {
    pub id: ConnId,
    pub kind: KindModel,
}

/// What a [`ConnEventKind`] says.
pub enum KindModel {
    Opened { peer: Seq<char> },
    Closed { bytes_client_to_upstream: u64, bytes_upstream_to_client: u64 },
    Failed { reason: Seq<char> },
}

impl DeepView for ConnEvent {
    type V = EventModel;

    open spec fn deep_view(&self) -> EventModel {
        EventModel { id: self.id, kind: self.kind.deep_view() }
    }
}

impl DeepView for ConnEventKind {
    type V = KindModel;

    open spec fn deep_view(&self) -> KindModel {
        match self {
            ConnEventKind::Opened { peer } => KindModel::Opened { peer: peer@ },
            ConnEventKind::Closed { bytes_client_to_upstream, bytes_upstream_to_client } =>
                KindModel::Closed {
                bytes_client_to_upstream: *bytes_client_to_upstream,
                bytes_upstream_to_client: *bytes_upstream_to_client,
            },
            ConnEventKind::Failed { reason } => KindModel::Failed { reason: reason@ },
        }
    }
}

/// An open connection.
#[derive(Debug, PartialEq, Eq)]
pub struct ConnMeta {
    pub id: ConnId,
    pub peer: String,
    /// When it was opened, in nanoseconds on the proxy's clock.
    pub opened_at: u128,
}

/// What a [`ConnMeta`] holds.
#[verifier::ext_equal]
pub struct MetaModel {
    pub id: ConnId,
    pub peer: Seq<char>,
    pub opened_at: u128,
}

impl DeepView for ConnMeta {
    type V = MetaModel;

    open spec fn deep_view(&self) -> MetaModel {
        MetaModel { id: self.id, peer: self.peer@, opened_at: self.opened_at }
    }
}

impl Clone for ConnMeta {
    fn clone(&self) -> (r: ConnMeta)
        ensures
            r.deep_view() == self.deep_view(),
    {
        ConnMeta { id: self.id, peer: self.peer.clone(), opened_at: self.opened_at }
    }
}

/// How forwarding a connection ended.
pub enum Forwarded {
    /// Both sides are done, with this many bytes carried each way.
    Done { up: u64, down: u64 },
    Failed(String),
}

/// What a [`Forwarded`] says.
pub enum ForwardedModel {
    Done { up: u64, down: u64 },
    Failed(Seq<char>),
}

impl DeepView for Forwarded {
    type V = ForwardedModel;

    open spec fn deep_view(&self) -> ForwardedModel {
        match self {
            Forwarded::Done { up, down } => ForwardedModel::Done { up: *up, down: *down },
            Forwarded::Failed(e) => ForwardedModel::Failed(e@),
        }
    }
}

/// Whether a connection is another than that one.
pub open spec fn other_than(id: ConnId) -> spec_fn(MetaModel) -> bool {
    |meta: MetaModel| meta.id != id
}

/// How a connection's end is told.
pub open spec fn ended(id: ConnId, how: ForwardedModel) -> EventModel {
    EventModel {
        id,
        kind: match how {
            ForwardedModel::Done { up, down } => KindModel::Closed {
                bytes_client_to_upstream: up,
                bytes_upstream_to_client: down,
            },
            ForwardedModel::Failed(e) => KindModel::Failed { reason: "forwarding: "@ + e },
        },
    }
}

/// A forwarder: where it forwards to, which connection comes next, and which
/// are open, each once.
pub struct Proxy {
    upstream: String,
    next_id: ConnId,
    conns: Vec<ConnMeta>,
}

/// What a [`Proxy`] holds.
#[verifier::ext_equal]
pub struct ProxyModel {
    pub upstream: Seq<char>,
    pub next_id: ConnId,
    pub conns: Seq<MetaModel>,
}

impl DeepView for Proxy {
    type V = ProxyModel;

    closed spec fn deep_view(&self) -> ProxyModel {
        ProxyModel {
            upstream: self.upstream@,
            next_id: self.next_id,
            conns: self.conns.deep_view(),
        }
    }
}

impl ProxyModel {
    /// Whether no connection is listed twice.
    pub open spec fn distinct(self) -> bool {
        each_once(self.conns)
    }
}

/// Whether no connection is listed twice.
pub open spec fn each_once(conns: Seq<MetaModel>) -> bool {
    forall|i: int, j: int|
        0 <= i < conns.len() && 0 <= j < conns.len() && i != j ==> (#[trigger] conns[i]).id != (
        #[trigger] conns[j]).id
}

impl Proxy {
    /// Whether no connection is listed twice.
    #[verifier::type_invariant]
    pub open spec fn wf(&self) -> bool {
        self.deep_view().distinct()
    }

    /// A forwarder to `upstream`, with nothing open.
    pub fn new(upstream: &str) -> (r: Proxy)
        ensures
            r.deep_view() == (ProxyModel {
                upstream: upstream@,
                next_id: 0,
                conns: Seq::empty(),
            }),
            r.deep_view().distinct(),
    {
        let conns: Vec<ConnMeta> = Vec::new();
        assert(conns.deep_view() =~= Seq::empty());
        Proxy { upstream: upstream.to_owned(), next_id: 0, conns }
    }

    /// A connection was accepted. Connections are numbered as they come, from
    /// nought again once the numbers run out.
    pub fn accepted(&mut self) -> (r: ConnId)
        ensures
            r == old(self).deep_view().next_id,
            final(self).deep_view() == (ProxyModel {
                next_id: if r == u64::MAX {
                    0
                } else {
                    (r + 1) as u64
                },
                ..old(self).deep_view()
            }),
    {
        proof {
            use_type_invariant(&*self);
        }
        let id: u64 = self.next_id;
        self.next_id = if id == u64::MAX {
            0
        } else {
            id + 1
        };
        id
    }

    /// The upstream of an accepted connection could not be dialled.
    pub fn not_dialled(&self, id: ConnId, e: &str) -> (r: ConnEvent)
        ensures
            r.deep_view() == (EventModel {
                id,
                kind: KindModel::Failed {
                    reason: "dial upstream "@ + self.deep_view().upstream + ": "@ + e@,
                },
            }),
    {
        let mut reason = around("dial upstream ", self.upstream.as_str(), ": ");
        reason.append(e);
        ConnEvent { id, kind: ConnEventKind::Failed { reason } }
    }

    /// The open connections other than that one.
    fn without(&self, id: ConnId) -> (r: Vec<ConnMeta>)
        ensures
            r.deep_view() == self.deep_view().conns.filter(other_than(id)),
    {
        let ghost model = self.conns.deep_view();
        let mut kept: Vec<ConnMeta> = Vec::new();
        assert(kept.deep_view() =~= model.take(0).filter(other_than(id))) by {
            reveal(Seq::filter);
        }
        for i in 0..self.conns.len()
            invariant
                model == self.conns.deep_view(),
                kept.deep_view() == model.take(i as int).filter(other_than(id)),
        {
            proof {
                assert(model[i as int] == self.conns@[i as int].deep_view());
                assert(model.take(i + 1).drop_last() =~= model.take(i as int));
                reveal(Seq::filter);
            }
            if self.conns[i].id != id {
                let ghost before = kept.deep_view();
                kept.push(self.conns[i].clone());
                assert(kept.deep_view() =~= before.push(model[i as int]));
            }
        }
        assert(model.take(model.len() as int) =~= model);
        kept
    }

    /// An accepted connection's upstream was dialled, so it is open.
    pub fn opened(&mut self, id: ConnId, peer: &str, opened_at: u128) -> (r: ConnEvent)
        ensures
            final(self).deep_view() == (ProxyModel {
                conns: old(self).deep_view().conns.filter(other_than(id)).push(
                    MetaModel { id, peer: peer@, opened_at },
                ),
                ..old(self).deep_view()
            }),
            final(self).deep_view().distinct(),
            r.deep_view() == (EventModel { id, kind: KindModel::Opened { peer: peer@ } }),
    {
        proof {
            use_type_invariant(&*self);
            lemma_filter_distinct(self.deep_view().conns, id);
        }
        let mut conns = self.without(id);
        let ghost before = conns.deep_view();
        let meta = ConnMeta { id, peer: peer.to_owned(), opened_at };
        let ghost added = meta.deep_view();
        conns.push(meta);
        assert(conns.deep_view() =~= before.push(added));
        self.conns = conns;
        ConnEvent { id, kind: ConnEventKind::Opened { peer: peer.to_owned() } }
    }

    /// Forwarding an open connection ended, so it is open no longer.
    pub fn closed(&mut self, id: ConnId, how: Forwarded) -> (r: ConnEvent)
        ensures
            final(self).deep_view() == (ProxyModel {
                conns: old(self).deep_view().conns.filter(other_than(id)),
                ..old(self).deep_view()
            }),
            final(self).deep_view().distinct(),
            r.deep_view() == ended(id, how.deep_view()),
    {
        proof {
            use_type_invariant(&*self);
            lemma_filter_distinct(self.deep_view().conns, id);
        }
        self.conns = self.without(id);
        let kind = match how {
            Forwarded::Done { up, down } => ConnEventKind::Closed {
                bytes_client_to_upstream: up,
                bytes_upstream_to_client: down,
            },
            Forwarded::Failed(e) => {
                let mut reason = "forwarding: ".to_owned();
                reason.append(e.as_str());
                ConnEventKind::Failed { reason }
            },
        };
        ConnEvent { id, kind }
    }

    /// A snapshot of the currently-open connections.
    pub fn snapshot(&self) -> (r: Vec<ConnMeta>)
        ensures
            r.deep_view() == self.deep_view().conns,
    {
        let mut out: Vec<ConnMeta> = Vec::new();
        for i in 0..self.conns.len()
            invariant
                out@.len() == i,
                forall|j: int|
                    0 <= j < i ==> (#[trigger] out@[j]).deep_view() == self.conns@[j].deep_view(),
        {
            out.push(self.conns[i].clone());
        }
        assert(out.deep_view() =~= self.conns.deep_view());
        out
    }
}

/// Leaving a connection out of a list leaves none of it, keeps every other
/// connection, and lists nothing twice that was not.
pub proof fn lemma_filter_distinct(conns: Seq<MetaModel>, id: ConnId)
    requires
        each_once(conns),
    ensures
        ({
            let kept = conns.filter(other_than(id));
            &&& each_once(kept)
            &&& forall|i: int| 0 <= i < kept.len() ==> (#[trigger] kept[i]).id != id
            &&& forall|m: MetaModel|
                #[trigger] kept.contains(m) <==> conns.contains(m) && m.id != id
        }),
    decreases conns.len(),
{
    reveal(Seq::filter);
    let kept = conns.filter(other_than(id));
    if conns.len() > 0 {
        let rest = conns.drop_last();
        let last = conns.last();
        assert forall|i: int, j: int|
            0 <= i < rest.len() && 0 <= j < rest.len() && i != j implies (#[trigger] rest[i]).id
            != (#[trigger] rest[j]).id by {
            assert(rest[i] == conns[i] && rest[j] == conns[j]);
        }
        lemma_filter_distinct(rest, id);
        let few = rest.filter(other_than(id));
        assert forall|m: MetaModel| #[trigger] conns.contains(m) <==> rest.contains(m) || m
            == last by {
            if conns.contains(m) {
                let i = conns.index_of(m);
                if i < rest.len() {
                    assert(rest[i] == m);
                }
            }
            if rest.contains(m) {
                let i = rest.index_of(m);
                assert(conns[i] == m);
            }
            assert(conns[conns.len() - 1] == last);
        }
        if last.id != id {
            assert(kept == few.push(last));
            assert forall|i: int| 0 <= i < few.len() implies (#[trigger] few[i]).id != last.id by {
                assert(few.contains(few[i]));
                let k = rest.index_of(few[i]);
                assert(conns[k] == few[i]);
            }
            assert forall|m: MetaModel| #[trigger] kept.contains(m) <==> few.contains(m) || m
                == last by {
                if kept.contains(m) {
                    let i = kept.index_of(m);
                    if i < few.len() {
                        assert(few[i] == m);
                    }
                }
                if few.contains(m) {
                    let i = few.index_of(m);
                    assert(kept[i] == m);
                }
                assert(kept[kept.len() - 1] == last);
            }
        } else {
            assert(kept == few);
        }
    } else {
        assert(kept =~= Seq::empty());
    }
}

/// A connection is listed from when it opens until it ends, whatever becomes of
/// the others meanwhile.
pub proof fn lemma_open_until_it_ends(
    proxy: ProxyModel,
    id: ConnId,
    peer: Seq<char>,
    opened_at: u128,
    other: ConnId,
)
    requires
        proxy.distinct(),
        other != id,
    ensures
        ({
            let meta = MetaModel { id, peer, opened_at };
            let open = proxy.conns.filter(other_than(id)).push(meta);
            &&& open.contains(meta)
            &&& open.filter(other_than(other)).contains(meta)
            &&& !open.filter(other_than(id)).contains(meta)
        }),
{
    let meta = MetaModel { id, peer, opened_at };
    let kept = proxy.conns.filter(other_than(id));
    let open = kept.push(meta);
    lemma_filter_distinct(proxy.conns, id);
    assert(open[open.len() - 1] == meta);
    assert forall|i: int, j: int|
        0 <= i < open.len() && 0 <= j < open.len() && i != j implies (#[trigger] open[i]).id != (
    #[trigger] open[j]).id by {
        if i < kept.len() {
            assert(open[i] == kept[i]);
        }
        if j < kept.len() {
            assert(open[j] == kept[j]);
        }
    }
    lemma_filter_distinct(open, other);
    lemma_filter_distinct(open, id);
}

/// A connection that is done is told with what it carried each way, and one that
/// failed with why.
pub proof fn lemma_end_told(id: ConnId, how: ForwardedModel)
    ensures
        ended(id, how).id == id,
        how matches ForwardedModel::Done { up, down } ==> (ended(
            id,
            how,
        ).kind matches KindModel::Closed { bytes_client_to_upstream, bytes_upstream_to_client }
            && bytes_client_to_upstream == up && bytes_upstream_to_client == down),
        how matches ForwardedModel::Failed(e) ==> (ended(
            id,
            how,
        ).kind matches KindModel::Failed { reason } && reason == "forwarding: "@ + e),
{
}

} // verus!
