//! Orders scenario: POSTs a small sequence of orders and captures the responses.

use vstd::prelude::*;

use vstd::string::*;

use crate::bytes::copy;
use crate::text::around;
use crate::verdict::Ack;

verus! {

/// Whether the service took responsibility, going by the HTTP status it
/// answered with.
pub open spec fn ack_of(status: u16) -> Ack {
    if 200 <= status < 300 {
        Ack::Acked
    } else if 400 <= status < 500 {
        Ack::Rejected
    } else {
        Ack::Unknown
    }
}

/// An HTTP status decides whether the service took responsibility: a success
/// acknowledges the write, a client error refuses it, and a server error leaves
/// the caller unable to tell.
pub fn classify(status: u16) -> (r: Ack)
    ensures
        r == ack_of(status),
{
    if 200 <= status && status < 300 {
        Ack::Acked
    } else if 400 <= status && status < 500 {
        Ack::Rejected
    } else {
        Ack::Unknown
    }
}

/// An order to place.
#[derive(Debug, PartialEq, Eq)]
pub struct OrderRequest {
    pub item: String,
    pub quantity: i32,
}

/// What an [`OrderRequest`] asks for.
#[verifier::ext_equal]
pub struct OrderModel {
    pub item: Seq<char>,
    pub quantity: i32,
}

impl DeepView for OrderRequest {
    type V = OrderModel;

    open spec fn deep_view(&self) -> OrderModel {
        OrderModel { item: self.item@, quantity: self.quantity }
    }
}

/// The orders the scenario places, in order.
pub open spec fn all_orders() -> Seq<OrderModel> {
    seq![
        OrderModel { item: "book"@, quantity: 4 },
        OrderModel { item: "noodles"@, quantity: 10 },
        OrderModel { item: "usb-c cable"@, quantity: 1 },
    ]
}

/// What came of sending a request.
#[derive(Debug, PartialEq, Eq)]
pub enum Answer {
    /// The service answered.
    Response { status: u16, body: Vec<u8> },
    /// The request failed, and whether it failed for want of a connection.
    Failed { connecting: bool, reason: String },
}

/// What an [`Answer`] says.
pub enum AnswerModel {
    Response { status: u16, body: Seq<u8> },
    Failed { connecting: bool, reason: Seq<char> },
}

impl DeepView for Answer {
    type V = AnswerModel;

    open spec fn deep_view(&self) -> AnswerModel {
        match self {
            Answer::Response { status, body } => AnswerModel::Response {
                status: *status,
                body: body@,
            },
            Answer::Failed { connecting, reason } => AnswerModel::Failed {
                connecting: *connecting,
                reason: reason@,
            },
        }
    }
}

/// One operation as it was driven: what was sent, what came back, and whether
/// the service took responsibility for it.
#[derive(Debug, PartialEq, Eq)]
pub struct Exchange {
    pub operation: String,
    pub ack: Ack,
    pub request: Vec<u8>,
    pub response: Vec<u8>,
}

/// What an [`Exchange`] holds.
#[verifier::ext_equal]
pub struct ExchangeModel {
    pub operation: Seq<char>,
    pub ack: Ack,
    pub request: Seq<u8>,
    pub response: Seq<u8>,
}

impl DeepView for Exchange {
    type V = ExchangeModel;

    open spec fn deep_view(&self) -> ExchangeModel {
        ExchangeModel {
            operation: self.operation@,
            ack: self.ack,
            request: self.request@,
            response: self.response@,
        }
    }
}

/// The exchange an order sent as `request` and answered that way made. A refused
/// connection never reached the service, so the write definitively did not
/// happen; anything else leaves it in doubt.
pub open spec fn exchanged(request: Seq<u8>, answer: AnswerModel) -> ExchangeModel {
    ExchangeModel {
        operation: "POST /orders"@,
        ack: match answer {
            AnswerModel::Response { status, .. } => ack_of(status),
            AnswerModel::Failed { connecting, .. } => if connecting {
                Ack::Rejected
            } else {
                Ack::Unknown
            },
        },
        request,
        response: match answer {
            AnswerModel::Response { body, .. } => body,
            AnswerModel::Failed { reason, .. } => vstd::utf8::encode_utf8(reason),
        },
    }
}

/// The orders sequence, part way through.
pub struct Orders {
    exchanges: Vec<Exchange>,
}

impl DeepView for Orders {
    type V = Seq<ExchangeModel>;

    /// What has been exchanged so far.
    closed spec fn deep_view(&self) -> Seq<ExchangeModel> {
        self.exchanges.deep_view()
    }
}

/// Where orders are posted.
pub fn orders_url(api: &str) -> (r: String)
    ensures
        r@ == "http://"@ + api@ + "/orders"@,
{
    around("http://", api, "/orders")
}

impl Orders {
    /// Nothing ordered yet.
    pub fn new() -> (r: Orders)
        ensures
            r.deep_view() == Seq::<ExchangeModel>::empty(),
    {
        let r = Orders { exchanges: Vec::new() };
        assert(r.deep_view() =~= Seq::empty());
        r
    }

    /// The order to place next, until every one has been.
    pub fn next(&self) -> (r: Option<OrderRequest>)
        ensures
            r.deep_view() == (if self.deep_view().len() < all_orders().len() {
                Some(all_orders()[self.deep_view().len() as int])
            } else {
                None
            }),
    {
        match self.exchanges.len() {
            0 => Some(OrderRequest { item: "book".to_owned(), quantity: 4 }),
            1 => Some(OrderRequest { item: "noodles".to_owned(), quantity: 10 }),
            2 => Some(OrderRequest { item: "usb-c cable".to_owned(), quantity: 1 }),
            _ => None,
        }
    }

    /// The order placed next was sent as `request` and answered that way.
    /// Transport failures are recorded rather than aborting the run.
    pub fn answered(&mut self, request: Vec<u8>, answer: Answer)
        ensures
            final(self).deep_view() == old(self).deep_view().push(
                exchanged(request@, answer.deep_view()),
            ),
    {
        let (ack, response) = match &answer {
            Answer::Response { status, body } => {
                let all = body.as_slice();
                assert(all@.subrange(0, all@.len() as int) =~= all@);
                (classify(*status), copy(all, 0, all.len()))
            },
            Answer::Failed { connecting, reason } => {
                let ack = if *connecting {
                    Ack::Rejected
                } else {
                    Ack::Unknown
                };
                let all = reason.as_str().as_bytes();
                assert(all@.subrange(0, all@.len() as int) =~= all@);
                (ack, copy(all, 0, all.len()))
            },
        };
        let ghost before = self.exchanges.deep_view();
        let exchange = Exchange { operation: "POST /orders".to_owned(), ack, request, response };
        let ghost added = exchange.deep_view();
        self.exchanges.push(exchange);
        assert(self.exchanges.deep_view() =~= before.push(added));
    }

    /// What was exchanged.
    pub fn into_exchanges(self) -> (r: Vec<Exchange>)
        ensures
            r.deep_view() == self.deep_view(),
    {
        self.exchanges
    }
}

/// An order is acknowledged exactly where the service answered in the two hundreds,
/// refused exactly where it answered in the four hundreds or was never reached, and
/// in doubt otherwise. The exchange keeps what was sent and what came back.
pub proof fn lemma_exchange(request: Seq<u8>, answer: AnswerModel)
    ensures
        exchanged(request, answer).operation == "POST /orders"@,
        exchanged(request, answer).request == request,
        exchanged(request, answer).ack == Ack::Acked <==> (answer matches AnswerModel::Response {
            status,
            ..
        } && status / 100 == 2),
        exchanged(request, answer).ack == Ack::Rejected <==> match answer {
            AnswerModel::Response { status, .. } => status / 100 == 4,
            AnswerModel::Failed { connecting, .. } => connecting,
        },
        answer matches AnswerModel::Response { body, .. } ==> exchanged(request, answer).response
            == body,
        answer matches AnswerModel::Failed { reason, .. } ==> exchanged(request, answer).response
            == vstd::utf8::encode_utf8(reason),
{
}

} // verus!
