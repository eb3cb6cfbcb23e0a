use vstd::prelude::*;
use crate::msg::{MAVLinkMessage, MsgView};

verus! {

/// The distribution hub: a bounded fan-out channel of capacity one between
/// the single vehicle-receiver producer and two consumer cursors. It keeps
/// only the most recently offered message (at-most-current-value delivery,
/// not guaranteed delivery), plus a flag per cursor and a closed flag.
///
/// The forward cursor drains whole messages; the heartbeat cursor only ever
/// looks for producer closure, so its side of the hub records no payload,
/// only whether a message it has not yet seen was offered.
pub struct Hub {
    fwd_slot: Option<MAVLinkMessage>,
    hb_pending: bool,
    closed: bool,
}

/// The mathematical state of a `Hub`.
pub struct HubView {
    pub fwd: Option<MsgView>,
    pub hb_pending: bool,
    pub closed: bool,
}

impl View for Hub {
    type V = HubView;

    closed spec fn view(&self) -> HubView {
        HubView {
            fwd: match self.fwd_slot {
                Some(e) => Some(e@),
                None => None,
            },
            hb_pending: self.hb_pending,
            closed: self.closed,
        }
    }
}

/// What the forward cursor sees on a non-blocking drain.
pub enum FwdTake {
    Item(MAVLinkMessage),
    Empty,
    Closed,
}

/// The mathematical value of a `FwdTake`.
pub enum FwdTakeView {
    Item(MsgView),
    Empty,
    Closed,
}

impl View for FwdTake {
    type V = FwdTakeView;

    open spec fn view(&self) -> FwdTakeView {
        match self {
            FwdTake::Item(e) => FwdTakeView::Item(e@),
            FwdTake::Empty => FwdTakeView::Empty,
            FwdTake::Closed => FwdTakeView::Closed,
        }
    }
}

/// What the heartbeat cursor sees on a non-blocking check.
#[derive(Clone, Copy, PartialEq, Eq, Structural, Debug)]
pub enum HbTake {
    Item,
    Empty,
    Closed,
}

/// Offering a message overwrites whatever the cursors had not drained yet.
pub open spec fn spec_offer(h: HubView, e: MsgView) -> HubView {
    HubView { fwd: Some(e), hb_pending: true, closed: h.closed }
}

/// Closing the producer side; pending messages stay drainable.
pub open spec fn spec_close(h: HubView) -> HubView {
    HubView { fwd: h.fwd, hb_pending: h.hb_pending, closed: true }
}

/// A drain on the forward cursor: a pending message is handed out even after
/// closure; otherwise closure is reported; otherwise the hub is empty.
pub open spec fn spec_fwd_take(h: HubView) -> (HubView, FwdTakeView) {
    match h.fwd {
        Some(e) => (HubView { fwd: None, hb_pending: h.hb_pending, closed: h.closed }, FwdTakeView::Item(e)),
        None => if h.closed {
            (h, FwdTakeView::Closed)
        } else {
            (h, FwdTakeView::Empty)
        },
    }
}

/// A check on the heartbeat cursor, with the same precedence as a drain.
pub open spec fn spec_hb_take(h: HubView) -> (HubView, HbTake) {
    if h.hb_pending {
        (HubView { fwd: h.fwd, hb_pending: false, closed: h.closed }, HbTake::Item)
    } else if h.closed {
        (h, HbTake::Closed)
    } else {
        (h, HbTake::Empty)
    }
}

impl Hub {
    /// A fresh hub: nothing buffered, producer open.
    pub fn new() -> (h: Hub)
        ensures
            h@ == (HubView { fwd: None, hb_pending: false, closed: false }),
    {
        Hub { fwd_slot: None, hb_pending: false, closed: false }
    }

    pub fn offer(&mut self, e: MAVLinkMessage)
        ensures
            final(self)@ == spec_offer(old(self)@, e@),
    {
        self.fwd_slot = Some(e);
        self.hb_pending = true;
    }

    pub fn close(&mut self)
        ensures
            final(self)@ == spec_close(old(self)@),
    {
        self.closed = true;
    }

    pub fn fwd_take(&mut self) -> (r: FwdTake)
        ensures
            final(self)@ == spec_fwd_take(old(self)@).0,
            r@ == spec_fwd_take(old(self)@).1,
    {
        match self.fwd_slot.take() {
            Some(e) => FwdTake::Item(e),
            None => {
                if self.closed {
                    FwdTake::Closed
                } else {
                    FwdTake::Empty
                }
            },
        }
    }

    pub fn hb_take(&mut self) -> (r: HbTake)
        ensures
            final(self)@ == spec_hb_take(old(self)@).0,
            r == spec_hb_take(old(self)@).1,
    {
        if self.hb_pending {
            self.hb_pending = false;
            HbTake::Item
        } else if self.closed {
            HbTake::Closed
        } else {
            HbTake::Empty
        }
    }
}

/// A burst of offers with no drain in between.
pub open spec fn spec_offer_all(h: HubView, es: Seq<MsgView>) -> HubView
    decreases es.len(),
{
    if es.len() == 0 {
        h
    } else {
        spec_offer(spec_offer_all(h, es.drop_last()), es.last())
    }
}

/// Hub capacity law: however many messages are offered between two drains,
/// the hub buffers only the most recently offered one, the next drain hands
/// out exactly that message, and afterwards nothing is buffered.
pub proof fn lemma_hub_latest(h: HubView, es: Seq<MsgView>)
    requires
        es.len() > 0,
    ensures
        spec_offer_all(h, es).fwd == Some(es.last()),
        spec_fwd_take(spec_offer_all(h, es)).1 == FwdTakeView::Item(es.last()),
        spec_fwd_take(spec_offer_all(h, es)).0.fwd is None,
{
}

} // verus!
