//! The kind plugins compiled into this build, and what they read.
//!
//! Kinds are resolved by name at run time but linked at build time, so what a
//! fleet can be read as is settled when the framework is built. Whatever holds
//! this registry is the only thing that names a protocol; everything else asks
//! for a kind and gets something that can read it.

use vstd::prelude::*;

use crate::amqp::reader::{Carried, CarriedModel, Consuming, ConsumingModel, Reader, ReaderModel};
use crate::amqp::{readers, watched, NAME};
use crate::bytes::copy;
use crate::protocol::Direction;
use crate::text::{number, read_number, same};

verus! {

/// Whether a kind has a plugin that can read it.
pub open spec fn read_kind(kind: Seq<char>) -> bool {
    kind == NAME@
}

/// Whether a kind has a plugin that can read it.
pub fn is_read(kind: &str) -> (r: bool)
    ensures
        r == read_kind(kind@),
{
    same(kind, NAME)
}

/// How many candidate moments must pass before the one `mark` names.
///
/// A kind with a plugin recognises its own moment, so the first candidate it
/// offers is the one. Without a plugin a mark is a count of reads, and the
/// count is kept outside: only the framework knows which of a pair's
/// connections carry the edge it was taken from. A mark that is no count is the
/// first.
pub fn nth(kind: &str, mark: &str) -> (r: u32)
    ensures
        r == if read_kind(kind@) {
            1
        } else {
            match number(mark@) {
                Some(n) => n,
                None => 1,
            }
        },
{
    if is_read(kind) {
        1
    } else {
        match read_number(mark) {
            Some(n) => n,
            None => 1,
        }
    }
}

/// What reads one direction of a connection.
pub enum Reading {
    /// Something that knows the protocol.
    Read(Reader),
    /// Carries bytes it cannot read, offering every read off the wire as a
    /// moment where it is to watch for one.
    ///
    /// One read is the only boundary it can see, which is what an anchor meant
    /// before any protocol could be parsed. It can say nothing about where a
    /// fault should go, so the framework works that out from the traffic it
    /// observed instead.
    Unread { watching: bool },
}

/// What a [`Reading`] is.
pub enum ReadingModel {
    Read(ReaderModel),
    Unread { watching: bool },
}

impl DeepView for Reading {
    type V = ReadingModel;

    open spec fn deep_view(&self) -> ReadingModel {
        match self {
            Reading::Read(reader) => ReadingModel::Read(reader.deep_view()),
            Reading::Unread { watching } => ReadingModel::Unread { watching: *watching },
        }
    }
}

impl ReadingModel {
    /// Whether this can take `more` bytes.
    pub open spec fn takes(self, more: nat) -> bool {
        match self {
            ReadingModel::Read(reader) => reader.wf() && reader.taken + reader.pending.len() + more
                <= usize::MAX,
            ReadingModel::Unread { .. } => true,
        }
    }

    /// What came of carrying `bytes`.
    pub open spec fn carried(
        self,
        consuming: ConsumingModel,
        bytes: Seq<u8>,
        placing: bool,
    ) -> CarriedModel {
        match self {
            ReadingModel::Read(reader) => reader.carrying(consuming, bytes, placing).carried(),
            // One read, which it has to take whole because it cannot see
            // anything smaller, and cannot change either. Whether a fault may be
            // placed here is not its business, and it cannot say where one
            // should go.
            ReadingModel::Unread { watching } => CarriedModel {
                forward: seq![bytes],
                freeze_after: if watching {
                    Some(1)
                } else {
                    None
                },
                found: Seq::empty(),
                did: None,
            },
        }
    }

    /// What is left once `bytes` have been carried.
    pub open spec fn left(
        self,
        consuming: ConsumingModel,
        bytes: Seq<u8>,
        placing: bool,
    ) -> ReadingModel {
        match self {
            ReadingModel::Read(reader) => ReadingModel::Read(
                reader.carrying(consuming, bytes, placing).left(),
            ),
            ReadingModel::Unread { .. } => self,
        }
    }

    /// What the two directions agree on once `bytes` have been carried.
    pub open spec fn agreed(
        self,
        consuming: ConsumingModel,
        bytes: Seq<u8>,
        placing: bool,
    ) -> ConsumingModel {
        match self {
            ReadingModel::Read(reader) => reader.carrying(consuming, bytes, placing).consuming,
            ReadingModel::Unread { .. } => consuming,
        }
    }
}

impl Reading {
    /// Takes what came off the wire, and says what of it goes on, where the
    /// fleet is held, and what moments it offers.
    pub fn carry(&mut self, consuming: &mut Consuming, bytes: &[u8], placing: bool) -> (r: Carried)
        requires
            old(self).deep_view().takes(bytes@.len()),
        ensures
            r.deep_view() == old(self).deep_view().carried(
                old(consuming).deep_view(),
                bytes@,
                placing,
            ),
            final(self).deep_view() == old(self).deep_view().left(
                old(consuming).deep_view(),
                bytes@,
                placing,
            ),
            final(consuming).deep_view() == old(self).deep_view().agreed(
                old(consuming).deep_view(),
                bytes@,
                placing,
            ),
            final(self).deep_view().takes(0),
    {
        match self {
            Reading::Read(reader) => reader.carry(consuming, bytes, placing),
            Reading::Unread { watching } => {
                let whole = copy(bytes, 0, bytes.len());
                let mut forward: Vec<Vec<u8>> = Vec::new();
                let ghost sent = whole@;
                proof {
                    assert(sent =~= bytes@);
                    assert(whole.deep_view() =~= whole@);
                }
                forward.push(whole);
                let r = Carried {
                    forward,
                    freeze_after: if *watching {
                        Some(1)
                    } else {
                        None
                    },
                    found: Vec::new(),
                    did: None,
                };
                proof {
                    assert(r.forward.deep_view() =~= seq![bytes@]);
                    assert(r.found.deep_view() =~= Seq::empty());
                }
                r
            },
        }
    }
}

/// Both directions of one connection, read by things that agree with each
/// other and with no other connection.
pub struct Readers {
    pub client_to_upstream: Reading,
    pub upstream_to_client: Reading,
    /// What the two agree on.
    pub consuming: Consuming,
}

/// What a [`Readers`] is.
pub struct ReadersModel {
    pub client_to_upstream: ReadingModel,
    pub upstream_to_client: ReadingModel,
    pub consuming: ConsumingModel,
}

impl DeepView for Readers {
    type V = ReadersModel;

    open spec fn deep_view(&self) -> ReadersModel {
        ReadersModel {
            client_to_upstream: self.client_to_upstream.deep_view(),
            upstream_to_client: self.upstream_to_client.deep_view(),
            consuming: self.consuming.deep_view(),
        }
    }
}

impl ReadersModel {
    /// What reads that direction.
    pub open spec fn on(self, direction: Direction) -> ReadingModel {
        match direction {
            Direction::ClientToUpstream => self.client_to_upstream,
            Direction::UpstreamToClient => self.upstream_to_client,
        }
    }

    /// The connection once `bytes` have been carried that way.
    pub open spec fn left(self, direction: Direction, bytes: Seq<u8>, placing: bool) -> ReadersModel {
        let reading = self.on(direction);
        let left = reading.left(self.consuming, bytes, placing);
        let consuming = reading.agreed(self.consuming, bytes, placing);
        match direction {
            Direction::ClientToUpstream => ReadersModel {
                client_to_upstream: left,
                consuming,
                ..self
            },
            Direction::UpstreamToClient => ReadersModel {
                upstream_to_client: left,
                consuming,
                ..self
            },
        }
    }
}

impl Readers {
    /// Takes what crossed that way.
    pub fn carry(&mut self, direction: Direction, bytes: &[u8], placing: bool) -> (r: Carried)
        requires
            old(self).deep_view().on(direction).takes(bytes@.len()),
        ensures
            r.deep_view() == old(self).deep_view().on(direction).carried(
                old(self).deep_view().consuming,
                bytes@,
                placing,
            ),
            final(self).deep_view() == old(self).deep_view().left(direction, bytes@, placing),
            final(self).deep_view().on(direction).takes(0),
    {
        match direction {
            Direction::ClientToUpstream => self.client_to_upstream.carry(
                &mut self.consuming,
                bytes,
                placing,
            ),
            Direction::UpstreamToClient => self.upstream_to_client.carry(
                &mut self.consuming,
                bytes,
                placing,
            ),
        }
    }
}

/// What reads one pair's traffic, watching for a moment if a schedule named
/// one.
///
/// The pair's settings, and nothing a connection carries. Readers are made a
/// connection at a time, since what one carries says nothing about where
/// another has got to, and what a connection's two directions agree on is made
/// along with them.
pub struct Kinds {
    pub kind: String,
    /// The moment to watch for, and which way the traffic carrying it runs.
    pub watching: Option<(Direction, String)>,
}

/// What a [`Kinds`] is.
pub struct KindsModel {
    pub kind: Seq<char>,
    pub watching: Option<(Direction, Seq<char>)>,
}

impl DeepView for Kinds {
    type V = KindsModel;

    open spec fn deep_view(&self) -> KindsModel {
        KindsModel { kind: self.kind@, watching: self.watching.deep_view() }
    }
}

impl Clone for Kinds {
    fn clone(&self) -> (r: Kinds)
        ensures
            r.deep_view() == self.deep_view(),
    {
        let watching = match &self.watching {
            Some((way, mark)) => Some((*way, mark.clone())),
            None => None,
        };
        Kinds { kind: self.kind.clone(), watching }
    }
}

impl KindsModel {
    /// What reads that direction of a connection that has carried nothing.
    ///
    /// A mark on an unread kind is a count of reads, so every read is a
    /// candidate and whoever holds the count picks between them.
    pub open spec fn reading(self, direction: Direction) -> ReadingModel {
        if read_kind(self.kind) {
            ReadingModel::Read(ReaderModel::fresh(direction, watched(self.watching, direction)))
        } else {
            ReadingModel::Unread {
                watching: self.watching matches Some((way, _)) && way == direction,
            }
        }
    }
}

impl Kinds {
    /// What reads a pair's traffic of that kind.
    pub fn new(kind: &str, watching: Option<(Direction, String)>) -> (r: Kinds)
        ensures
            r.deep_view() == (KindsModel { kind: kind@, watching: watching.deep_view() }),
    {
        Kinds { kind: kind.to_owned(), watching }
    }

    /// Something to read each direction of one connection with.
    ///
    /// The plugin that can read the kind makes both, since what the two
    /// directions share is its own. A kind nothing reads gets a pair that only
    /// counts what crosses.
    pub fn connection(&self) -> (r: Readers)
        ensures
            forall|direction: Direction|
                #[trigger] r.deep_view().on(direction) == self.deep_view().reading(direction),
            r.deep_view().consuming == ConsumingModel::none(),
            r.deep_view().on(Direction::ClientToUpstream).takes(0),
            r.deep_view().on(Direction::UpstreamToClient).takes(0),
    {
        if is_read(self.kind.as_str()) {
            let (client_to_upstream, upstream_to_client) = readers(&self.watching);
            return Readers {
                client_to_upstream: Reading::Read(client_to_upstream),
                upstream_to_client: Reading::Read(upstream_to_client),
                consuming: Consuming::default(),
            };
        }
        Readers {
            client_to_upstream: Reading::Unread {
                watching: self.watches(Direction::ClientToUpstream),
            },
            upstream_to_client: Reading::Unread {
                watching: self.watches(Direction::UpstreamToClient),
            },
            consuming: Consuming::default(),
        }
    }

    /// Whether the moment to watch for runs that way.
    fn watches(&self, direction: Direction) -> (r: bool)
        ensures
            r == (self.deep_view().watching matches Some((way, _)) && way == direction),
    {
        match &self.watching {
            Some((way, _)) => *way == direction,
            None => false,
        }
    }
}

/// Only the direction a schedule named offers moments of an unread kind; the
/// other way is carried and nothing more.
pub proof fn lemma_other_direction_offers_nothing(
    kinds: KindsModel,
    direction: Direction,
    consuming: ConsumingModel,
    bytes: Seq<u8>,
    placing: bool,
)
    requires
        !read_kind(kinds.kind),
        !(kinds.watching matches Some((way, _)) && way == direction),
    ensures
        kinds.reading(direction).carried(consuming, bytes, placing).freeze_after is None,
        kinds.reading(direction).carried(consuming, bytes, placing).forward == seq![bytes],
        kinds.reading(direction).carried(consuming, bytes, placing).found.len() == 0,
        kinds.reading(direction).left(consuming, bytes, placing) == kinds.reading(direction),
{
}

/// Only one kind is read. Each direction of it is read from the start, and watches
/// for the mark of a schedule that named that direction. Any other kind is carried
/// as it comes, and each read of it is a place to hold the fleet, where a schedule
/// named that direction.
pub proof fn lemma_who_reads(
    kinds: KindsModel,
    direction: Direction,
    consuming: ConsumingModel,
    bytes: Seq<u8>,
    placing: bool,
)
    ensures
        kinds.reading(direction) is Read <==> kinds.kind == "amqp"@,
        kinds.reading(direction) matches ReadingModel::Read(reader) ==> {
            &&& reader.direction == direction
            &&& reader.pending.len() == 0
            &&& reader.frames.len() == 0
            &&& reader.taken == 0
            &&& reader.watching is Some <==> (kinds.watching matches Some((way, _)) && way
                == direction)
            &&& reader.watching is Some ==> (kinds.watching matches Some((_, mark))
                && reader.watching == Some(mark))
        },
        kinds.kind != "amqp"@ ==> {
            let came = kinds.reading(direction).carried(consuming, bytes, placing);
            &&& came.forward == seq![bytes]
            &&& came.freeze_after is Some <==> (kinds.watching matches Some((way, _)) && way
                == direction)
            &&& came.freeze_after matches Some(after) ==> after == 1
            &&& came.did is None
        },
{
}

/// What crosses one way changes how that way is read, and not how the other is.
pub proof fn lemma_ways_apart(
    readers: ReadersModel,
    direction: Direction,
    other: Direction,
    bytes: Seq<u8>,
    placing: bool,
)
    requires
        direction != other,
    ensures
        readers.left(direction, bytes, placing).on(other) == readers.on(other),
        readers.left(direction, bytes, placing).on(direction) == readers.on(direction).left(
            readers.consuming,
            bytes,
            placing,
        ),
        readers.on(Direction::ClientToUpstream) == readers.client_to_upstream,
        readers.on(Direction::UpstreamToClient) == readers.upstream_to_client,
{
}

} // verus!
