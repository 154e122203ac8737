//! Where a fault lands, in terms of what the fleet has been observed to do.

use vstd::prelude::*;
use vstd::string::*;

pub use crate::protocol::Primitive;
use crate::protocol::{Direction, Edge, EdgeModel};
use crate::verdict::Invariant;

verus! {

/// What to break and how to drive the operation.
#[derive(Debug, PartialEq, Eq)]
pub enum Fault {
    /// Break the fleet at the anchor and read what survived.
    Durable { anchor: Anchor, by: By },
    /// Have the fleet do the same work twice at the anchor, and read whether
    /// doing it twice left what doing it once would.
    Idempotent { anchor: Anchor, by: By },
    /// Tell the fleet things in an order it was not told them in, and read
    /// whether it settled where it would have anyway.
    Converges { anchor: Anchor, by: By },
    /// Run the whole scenario degraded, then put it back and see whether the
    /// fleet catches up on what it accepted while it was.
    Recovers { by: By },
}

/// What a [`Fault`] says.
pub enum FaultModel {
    Durable { anchor: AnchorModel, by: ByModel },
    Idempotent { anchor: AnchorModel, by: ByModel },
    Converges { anchor: AnchorModel, by: ByModel },
    Recovers { by: ByModel },
}

impl DeepView for Fault {
    type V = FaultModel;

    open spec fn deep_view(&self) -> FaultModel {
        match self {
            Fault::Durable { anchor, by } => FaultModel::Durable {
                anchor: anchor.deep_view(),
                by: by.deep_view(),
            },
            Fault::Idempotent { anchor, by } => FaultModel::Idempotent {
                anchor: anchor.deep_view(),
                by: by.deep_view(),
            },
            Fault::Converges { anchor, by } => FaultModel::Converges {
                anchor: anchor.deep_view(),
                by: by.deep_view(),
            },
            Fault::Recovers { by } => FaultModel::Recovers { by: by.deep_view() },
        }
    }
}

impl Clone for Fault {
    fn clone(&self) -> (r: Fault)
        ensures
            r.deep_view() == self.deep_view(),
    {
        match self {
            Fault::Durable { anchor, by } => Fault::Durable {
                anchor: anchor.clone(),
                by: by.clone(),
            },
            Fault::Idempotent { anchor, by } => Fault::Idempotent {
                anchor: anchor.clone(),
                by: by.clone(),
            },
            Fault::Converges { anchor, by } => Fault::Converges {
                anchor: anchor.clone(),
                by: by.clone(),
            },
            Fault::Recovers { by } => Fault::Recovers { by: by.clone() },
        }
    }
}

/// How a fault drives the fleet, and what it drives. Narrower than
/// [`Primitive`], so nothing downstream has to answer for a fault that could
/// never have been built.
#[derive(Debug, PartialEq, Eq)]
pub enum By {
    /// A service, taken away and brought back. Every edge it holds goes with it;
    /// an anchor only says when.
    Kill(String),
    /// One edge. The services on both ends keep running.
    Cut(Edge),
    /// One edge, carrying a message it already carried, so whoever reads it is
    /// asked to do the same work twice.
    Repeat(Edge),
    /// One edge, carrying its messages in an order the broker did not send
    /// them in, so a fleet relying on that order is asked to do without it.
    Reorder(Edge),
    /// One edge, not carrying a message at all.
    Drop(Edge),
}

/// What a [`By`] says.
pub enum ByModel {
    Kill(Seq<char>),
    Cut(EdgeModel),
    Repeat(EdgeModel),
    Reorder(EdgeModel),
    Drop(EdgeModel),
}

impl DeepView for By {
    type V = ByModel;

    open spec fn deep_view(&self) -> ByModel {
        match self {
            By::Kill(service) => ByModel::Kill(service@),
            By::Cut(edge) => ByModel::Cut(edge.deep_view()),
            By::Repeat(edge) => ByModel::Repeat(edge.deep_view()),
            By::Reorder(edge) => ByModel::Reorder(edge.deep_view()),
            By::Drop(edge) => ByModel::Drop(edge.deep_view()),
        }
    }
}

impl Clone for By {
    fn clone(&self) -> (r: By)
        ensures
            r.deep_view() == self.deep_view(),
    {
        match self {
            By::Kill(service) => By::Kill(service.clone()),
            By::Cut(edge) => By::Cut(edge.clone()),
            By::Repeat(edge) => By::Repeat(edge.clone()),
            By::Reorder(edge) => By::Reorder(edge.clone()),
            By::Drop(edge) => By::Drop(edge.clone()),
        }
    }
}

impl ByModel {
    /// The way of breaking the fleet this is.
    pub open spec fn primitive(self) -> Primitive {
        match self {
            ByModel::Kill(_) => Primitive::Kill,
            ByModel::Cut(_) => Primitive::Cut,
            ByModel::Repeat(_) => Primitive::Redeliver,
            ByModel::Reorder(_) => Primitive::Reorder,
            ByModel::Drop(_) => Primitive::Drop,
        }
    }

    /// What is done to, spelled for a report to name.
    pub open spec fn target(self) -> Seq<char> {
        match self {
            ByModel::Kill(service) => service,
            ByModel::Cut(edge) => edge.spelling(),
            ByModel::Repeat(edge) => edge.spelling(),
            ByModel::Reorder(edge) => edge.spelling(),
            ByModel::Drop(edge) => edge.spelling(),
        }
    }

    /// What is done, as a report says it.
    pub open spec fn spelling(self) -> Seq<char> {
        match self {
            ByModel::Kill(service) => "killing "@ + service,
            ByModel::Cut(edge) => "cutting "@ + edge.spelling(),
            ByModel::Repeat(edge) => "repeating a message on "@ + edge.spelling(),
            ByModel::Reorder(edge) => "reordering messages on "@ + edge.spelling(),
            ByModel::Drop(edge) => "dropping a message on "@ + edge.spelling(),
        }
    }
}

impl By {
    /// The way of breaking the fleet this is.
    pub fn primitive(&self) -> (r: Primitive)
        ensures
            r == self.deep_view().primitive(),
    {
        match self {
            By::Kill(_) => Primitive::Kill,
            By::Cut(_) => Primitive::Cut,
            By::Repeat(_) => Primitive::Redeliver,
            By::Reorder(_) => Primitive::Reorder,
            By::Drop(_) => Primitive::Drop,
        }
    }

    /// What is done to, spelled for a report to name.
    pub fn target(&self) -> (r: String)
        ensures
            r@ == self.deep_view().target(),
    {
        match self {
            By::Kill(service) => service.clone(),
            By::Cut(edge) => edge.spell(),
            By::Repeat(edge) => edge.spell(),
            By::Reorder(edge) => edge.spell(),
            By::Drop(edge) => edge.spell(),
        }
    }

    /// What is done, as a report says it.
    pub fn spell(&self) -> (r: String)
        ensures
            r@ == self.deep_view().spelling(),
    {
        let opening: &str = match self {
            By::Kill(_) => "killing ",
            By::Cut(_) => "cutting ",
            By::Repeat(_) => "repeating a message on ",
            By::Reorder(_) => "reordering messages on ",
            By::Drop(_) => "dropping a message on ",
        };
        let mut out = opening.to_owned();
        out.append(self.target().as_str());
        out
    }
}

/// A way of driving the fleet, before it is aimed at anything. Narrower than
/// [`Primitive`] on the same grounds as [`By`].
#[derive(Clone, Copy, Debug, PartialEq, Eq, Structural)]
pub enum Drive {
    Kill,
    Cut,
    Repeat,
    Reorder,
    Drop,
}

impl Drive {
    /// The way of breaking the fleet this drives.
    pub open spec fn breaks(self) -> Primitive {
        match self {
            Drive::Kill => Primitive::Kill,
            Drive::Cut => Primitive::Cut,
            Drive::Repeat => Primitive::Redeliver,
            Drive::Reorder => Primitive::Reorder,
            Drive::Drop => Primitive::Drop,
        }
    }

    /// The way of driving the fleet that breaks it by `primitive`.
    pub open spec fn breaking(primitive: Primitive) -> Drive {
        match primitive {
            Primitive::Kill => Drive::Kill,
            Primitive::Cut => Drive::Cut,
            Primitive::Redeliver => Drive::Repeat,
            Primitive::Reorder => Drive::Reorder,
            Primitive::Drop => Drive::Drop,
        }
    }

    /// The way of driving the fleet that breaks it by `primitive`. Every one of
    /// them can be aimed at an edge, so this is never `Err`.
    pub fn try_from(primitive: Primitive) -> (r: Result<Drive, Primitive>)
        ensures
            r == Ok::<Drive, Primitive>(Drive::breaking(primitive)),
    {
        match primitive {
            Primitive::Kill => Ok(Drive::Kill),
            Primitive::Cut => Ok(Drive::Cut),
            Primitive::Redeliver => Ok(Drive::Repeat),
            Primitive::Reorder => Ok(Drive::Reorder),
            Primitive::Drop => Ok(Drive::Drop),
        }
    }
}

impl From<Drive> for Primitive {
    fn from(losing: Drive) -> (r: Primitive) {
        match losing {
            Drive::Kill => Primitive::Kill,
            Drive::Cut => Primitive::Cut,
            Drive::Repeat => Primitive::Redeliver,
            Drive::Reorder => Primitive::Reorder,
            Drive::Drop => Primitive::Drop,
        }
    }
}

impl vstd::std_specs::convert::FromSpecImpl<Drive> for Primitive {
    open spec fn obeys_from_spec() -> bool {
        true
    }

    open spec fn from_spec(losing: Drive) -> Primitive {
        losing.breaks()
    }
}

/// Aiming a primitive and reading back what it breaks is where it started, and
/// so the other way round.
pub proof fn lemma_drive_round_trip(drive: Drive, primitive: Primitive)
    ensures
        Drive::breaking(primitive).breaks() == primitive,
        Drive::breaking(drive.breaks()) == drive,
{
}

impl FaultModel {
    /// The invariant this fault is meant to put under pressure.
    pub open spec fn pressed(self) -> Invariant {
        match self {
            FaultModel::Durable { .. } => Invariant::Durable,
            FaultModel::Idempotent { .. } => Invariant::Idempotent,
            FaultModel::Converges { .. } => Invariant::Converges,
            FaultModel::Recovers { .. } => Invariant::Recovers,
        }
    }

    /// Where in the observed traffic the fault lands, for one that lands in it.
    pub open spec fn anchor(self) -> Option<AnchorModel> {
        match self {
            FaultModel::Durable { anchor, .. } => Some(anchor),
            FaultModel::Idempotent { anchor, .. } => Some(anchor),
            FaultModel::Converges { anchor, .. } => Some(anchor),
            FaultModel::Recovers { .. } => None,
        }
    }

    /// What the fault takes away.
    pub open spec fn taking(self) -> ByModel {
        match self {
            FaultModel::Durable { by, .. } => by,
            FaultModel::Idempotent { by, .. } => by,
            FaultModel::Converges { by, .. } => by,
            FaultModel::Recovers { by } => by,
        }
    }

    /// The fault that breaks the fleet by `by` at `anchor`.
    pub open spec fn placed(anchor: AnchorModel, by: ByModel) -> FaultModel {
        match by.primitive() {
            Primitive::Redeliver => FaultModel::Idempotent { anchor, by },
            Primitive::Reorder => FaultModel::Converges { anchor, by },
            _ => FaultModel::Durable { anchor, by },
        }
    }
}

impl Fault {
    /// A fault that breaks the fleet by `by` at `anchor`.
    pub fn at(anchor: Anchor, by: By) -> (r: Fault)
        ensures
            r.deep_view() == FaultModel::placed(anchor.deep_view(), by.deep_view()),
    {
        match by.primitive() {
            Primitive::Redeliver => Fault::Idempotent { anchor, by },
            Primitive::Reorder => Fault::Converges { anchor, by },
            _ => Fault::Durable { anchor, by },
        }
    }

    /// A fault that stands for the whole run.
    pub fn throughout(by: By) -> (r: Fault)
        ensures
            r.deep_view() == (FaultModel::Recovers { by: by.deep_view() }),
    {
        Fault::Recovers { by }
    }

    /// The invariant this fault is meant to put under pressure, whose driver
    /// reads the verdict.
    pub fn pressed(&self) -> (r: Invariant)
        ensures
            r == self.deep_view().pressed(),
    {
        match self {
            Fault::Durable { .. } => Invariant::Durable,
            Fault::Idempotent { .. } => Invariant::Idempotent,
            Fault::Converges { .. } => Invariant::Converges,
            Fault::Recovers { .. } => Invariant::Recovers,
        }
    }

    /// Where in the observed traffic the fault lands.
    pub fn anchor(&self) -> (r: Option<&Anchor>)
        ensures
            r.deep_view() == self.deep_view().anchor(),
    {
        match self {
            Fault::Durable { anchor, .. } => Some(anchor),
            Fault::Idempotent { anchor, .. } => Some(anchor),
            Fault::Converges { anchor, .. } => Some(anchor),
            // Imposed before there is any traffic to land in.
            Fault::Recovers { .. } => None,
        }
    }

    /// What the fault takes away.
    pub fn taking(&self) -> (r: &By)
        ensures
            r.deep_view() == self.deep_view().taking(),
    {
        match self {
            Fault::Durable { by, .. } => by,
            Fault::Idempotent { by, .. } => by,
            Fault::Converges { by, .. } => by,
            Fault::Recovers { by } => by,
        }
    }

    /// What is done to the fleet.
    pub fn primitive(&self) -> (r: Primitive)
        ensures
            r == self.deep_view().taking().primitive(),
    {
        self.taking().primitive()
    }
}

/// A fault built for a moment keeps the moment and what it takes away, and
/// presses an invariant that breaking the fleet that way could show broken.
pub proof fn lemma_placed_fault(anchor: AnchorModel, by: ByModel)
    ensures
        FaultModel::placed(anchor, by).anchor() == Some(anchor),
        FaultModel::placed(anchor, by).taking() == by,
        crate::verdict::shown_by(by.primitive()).contains(FaultModel::placed(anchor, by).pressed()),
{
    let shown = crate::verdict::shown_by(by.primitive());
    assert(shown[0] == FaultModel::placed(anchor, by).pressed());
}

/// A fault at a moment repeats a message exactly where it is meant to break
/// idempotency, reorders messages exactly where it is meant to break convergence, and
/// otherwise takes something away, which durability answers for. It stands where it
/// was put, and a fault of the whole run stands nowhere.
pub proof fn lemma_fault_aims(anchor: AnchorModel, by: ByModel)
    ensures
        ({
            let fault = FaultModel::placed(anchor, by);
            &&& fault.pressed() == Invariant::Idempotent <==> by is Repeat
            &&& fault.pressed() == Invariant::Converges <==> by is Reorder
            &&& fault.pressed() == Invariant::Durable <==> by is Kill || by is Cut || by is Drop
            &&& fault.pressed() != Invariant::Recovers
            &&& fault.anchor() == Some(anchor)
            &&& fault.taking() == by
            &&& (FaultModel::Recovers { by }).anchor() is None
            &&& (FaultModel::Recovers { by }).taking() == by
            &&& (FaultModel::Recovers { by }).pressed() == Invariant::Recovers
        }),
        by.primitive() == Primitive::Kill <==> by is Kill,
        by.primitive() == Primitive::Cut <==> by is Cut,
        by.primitive() == Primitive::Redeliver <==> by is Repeat,
        by.primitive() == Primitive::Reorder <==> by is Reorder,
        by.primitive() == Primitive::Drop <==> by is Drop,
        by matches ByModel::Kill(service) ==> by.target() == service && by.spelling() == "killing "@
            + by.target(),
        by matches ByModel::Cut(edge) ==> by.target() == edge.spelling() && by.spelling()
            == "cutting "@ + by.target(),
        by matches ByModel::Repeat(edge) ==> by.target() == edge.spelling() && by.spelling()
            == "repeating a message on "@ + by.target(),
        by matches ByModel::Reorder(edge) ==> by.target() == edge.spelling() && by.spelling()
            == "reordering messages on "@ + by.target(),
        by matches ByModel::Drop(edge) ==> by.target() == edge.spelling() && by.spelling()
            == "dropping a message on "@ + by.target(),
{
}

/// What reaches the moment a fault is anchored to.
#[derive(Debug, PartialEq, Eq)]
pub enum Reaches {
    /// Traffic crossing an edge.
    Crossing { edge: Edge, direction: Direction },
    /// A service reaching a point inside itself.
    Inside { service: String },
}

/// What a [`Reaches`] says.
pub enum ReachesModel {
    Crossing { edge: EdgeModel, direction: Direction },
    Inside { service: Seq<char> },
}

impl DeepView for Reaches {
    type V = ReachesModel;

    open spec fn deep_view(&self) -> ReachesModel {
        match self {
            Reaches::Crossing { edge, direction } => ReachesModel::Crossing {
                edge: edge.deep_view(),
                direction: *direction,
            },
            Reaches::Inside { service } => ReachesModel::Inside { service: service@ },
        }
    }
}

impl Clone for Reaches {
    fn clone(&self) -> (r: Reaches)
        ensures
            r.deep_view() == self.deep_view(),
    {
        match self {
            Reaches::Crossing { edge, direction } => Reaches::Crossing {
                edge: edge.clone(),
                direction: *direction,
            },
            Reaches::Inside { service } => Reaches::Inside { service: service.clone() },
        }
    }
}

impl ReachesModel {
    /// Which way what reaches the fault goes, where it crosses an edge.
    pub open spec fn direction(self) -> Option<Direction> {
        match self {
            ReachesModel::Crossing { direction, .. } => Some(direction),
            ReachesModel::Inside { .. } => None,
        }
    }
}

impl Reaches {
    /// The way traffic crosses there, for a moment on an edge.
    pub fn direction(&self) -> (r: Option<Direction>)
        ensures
            r == self.deep_view().direction(),
    {
        match self {
            Reaches::Crossing { direction, .. } => Some(*direction),
            Reaches::Inside { .. } => None,
        }
    }

    /// The edge, for a moment on one.
    pub fn edge(&self) -> (r: Option<&Edge>)
        ensures
            r.deep_view() == (match self.deep_view() {
                ReachesModel::Crossing { edge, .. } => Some(edge),
                ReachesModel::Inside { .. } => None,
            }),
    {
        match self {
            Reaches::Crossing { edge, .. } => Some(edge),
            Reaches::Inside { .. } => None,
        }
    }
}

/// Where a fault lands: at the moment `mark` names, on what reaches it.
/// Anchoring to observed traffic rather than a wall clock is what makes a
/// schedule reproducible across replicas.
///
/// What reaches it supplies the moment, not the target. A kill on either end of
/// an edge takes that whole service, every other edge it holds included.
#[derive(Debug, PartialEq, Eq)]
pub struct Anchor {
    pub reaches: Reaches,
    /// The moment to place it at, in the terms of whatever reads this edge. A
    /// plugin names what the moment is; an edge nothing can read counts reads.
    pub mark: String,
    /// What faulting here catches, for a report to say why it was worth doing.
    pub why: String,
}

/// What an [`Anchor`] says.
#[verifier::ext_equal]
pub struct AnchorModel {
    pub reaches: ReachesModel,
    pub mark: Seq<char>,
    pub why: Seq<char>,
}

impl DeepView for Anchor {
    type V = AnchorModel;

    open spec fn deep_view(&self) -> AnchorModel {
        AnchorModel { reaches: self.reaches.deep_view(), mark: self.mark@, why: self.why@ }
    }
}

impl Clone for Anchor {
    fn clone(&self) -> (r: Anchor)
        ensures
            r.deep_view() == self.deep_view(),
    {
        Anchor { reaches: self.reaches.clone(), mark: self.mark.clone(), why: self.why.clone() }
    }
}

impl Anchor {
    /// The moment `mark` names in what crosses `edge`.
    pub fn crossing(edge: Edge, direction: Direction, mark: String, why: String) -> (r: Anchor)
        ensures
            r.deep_view() == (AnchorModel {
                reaches: ReachesModel::Crossing { edge: edge.deep_view(), direction },
                mark: mark@,
                why: why@,
            }),
    {
        Anchor { reaches: Reaches::Crossing { edge, direction }, mark, why }
    }

    /// The moment `mark` names inside `service`.
    pub fn inside(service: String, mark: String, why: String) -> (r: Anchor)
        ensures
            r.deep_view() == (AnchorModel {
                reaches: ReachesModel::Inside { service: service@ },
                mark: mark@,
                why: why@,
            }),
    {
        Anchor { reaches: Reaches::Inside { service }, mark, why }
    }
}

} // verus!
