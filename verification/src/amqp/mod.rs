//! What the framework understands of AMQP 0-9-1.

use vstd::prelude::*;

use crate::protocol::Direction;
use reader::{Reader, ReaderModel};

pub mod frame;
pub mod framing;
pub mod laws;
pub mod meaning;
pub mod message;
pub mod reader;
pub mod wire;

verus! {

/// The kind a service declares to be read as this.
pub const NAME: &'static str = "amqp";

/// What a reader of that direction watches for.
pub open spec fn watched(
    watching: Option<(Direction, Seq<char>)>,
    direction: Direction,
) -> Option<Seq<char>> {
    match watching {
        Some((way, mark)) => if way == direction {
            Some(mark)
        } else {
            None
        },
        None => None,
    }
}

/// A reader of that direction.
fn reader_of(watching: &Option<(Direction, String)>, direction: Direction) -> (r: Reader)
    ensures
        r.deep_view() == ReaderModel::fresh(direction, watched(watching.deep_view(), direction)),
        r.wf(),
{
    match watching {
        Some((way, mark)) => if *way == direction {
            Reader::watching(direction, mark.clone())
        } else {
            Reader::new(direction)
        },
        None => Reader::new(direction),
    }
}

/// Something to read each direction of one connection with, watching for `mark`
/// on the direction that carries it.
///
/// Made as a pair, because the two directions have to agree: a delivery and the
/// ack cross opposite ways, so neither reader sees both. What they agree on is
/// handed to each of them as it reads.
pub fn readers(watching: &Option<(Direction, String)>) -> (r: (Reader, Reader))
    ensures
        r.0.deep_view() == ReaderModel::fresh(
            Direction::ClientToUpstream,
            watched(watching.deep_view(), Direction::ClientToUpstream),
        ),
        r.1.deep_view() == ReaderModel::fresh(
            Direction::UpstreamToClient,
            watched(watching.deep_view(), Direction::UpstreamToClient),
        ),
        r.0.wf(),
        r.1.wf(),
{
    (
        reader_of(watching, Direction::ClientToUpstream),
        reader_of(watching, Direction::UpstreamToClient),
    )
}

} // verus!
