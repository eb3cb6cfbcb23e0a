use vstd::prelude::*;
use crate::codec::{encode, spec_encode};
use crate::hub::{spec_fwd_take, spec_hb_take, spec_offer, FwdTake, FwdTakeView, HbTake, Hub};
use crate::msg::{heartbeat_message, HeartbeatData, MAVLinkMessage, MavHeader};

verus! {

/// One turn of the vehicle receiver loop, after the blocking read: a message
/// read from the vehicle is offered to the hub; a failed read changes
/// nothing — the loop logs, goes on, and retries.
pub fn receiver_step(hub: &mut Hub, received: Option<MAVLinkMessage>)
    ensures
        match received {
            Some(e) => final(hub)@ == spec_offer(old(hub)@, e@),
            None => final(hub)@ == old(hub)@,
        },
{
    match received {
        Some(e) => hub.offer(e),
        None => {},
    }
}

/// What one turn of the heartbeat generator asks its caller to do.
pub enum HeartbeatStep {
    /// Send this keep-alive to the vehicle, then wait one second.
    Send(MavHeader, HeartbeatData),
    /// The producer side closed: the loop is over.
    Stop,
}

/// One turn of the heartbeat generator: while its hub cursor has not seen
/// the producer close, the fixed keep-alive goes out under the all-zero
/// header; once closure is seen, the loop stops.
pub fn heartbeat_step(hub: &mut Hub) -> (r: HeartbeatStep)
    ensures
        final(hub)@ == spec_hb_take(old(hub)@).0,
        (r matches HeartbeatStep::Stop) <==> spec_hb_take(old(hub)@).1 == HbTake::Closed,
        r matches HeartbeatStep::Send(h, d) ==> h == (MavHeader {
            system_id: 0,
            component_id: 0,
            sequence: 0,
        }) && d == (HeartbeatData {
            custom_mode: 0,
            mavtype: 0,
            autopilot: 0,
            base_mode: 0,
            system_status: 3,
            mavlink_version: 3,
        }),
{
    match hub.hb_take() {
        HbTake::Closed => HeartbeatStep::Stop,
        _ => HeartbeatStep::Send(MavHeader::default(), heartbeat_message()),
    }
}

/// What one turn of the forward loop asks its caller to do.
pub enum PublishStep {
    /// Publish these bytes on the outbound topic.
    Publish(Vec<u8>),
    /// Nothing to drain right now: wait briefly, then come back.
    Idle,
    /// The producer side closed and nothing is left: the loop is over.
    Stop,
}

/// One turn of the forward loop: a drained message goes out encoded, an
/// empty hub means a short pause, and a closed hub ends the loop. The order
/// of published messages is the order the receiver offered them in, up to
/// the hub's at-most-current-value drop policy.
pub fn forward_out_step(hub: &mut Hub) -> (r: PublishStep)
    ensures
        final(hub)@ == spec_fwd_take(old(hub)@).0,
        match spec_fwd_take(old(hub)@).1 {
            FwdTakeView::Item(ev) => r matches PublishStep::Publish(b) && b@ == spec_encode(ev),
            FwdTakeView::Empty => r matches PublishStep::Idle,
            FwdTakeView::Closed => r matches PublishStep::Stop,
        },
{
    match hub.fwd_take() {
        FwdTake::Item(e) => PublishStep::Publish(encode(&e)),
        FwdTake::Empty => PublishStep::Idle,
        FwdTake::Closed => PublishStep::Stop,
    }
}

} // verus!
