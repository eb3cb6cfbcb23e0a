use vstd::prelude::*;

verus! {

/// Identity of the sender of a vehicle message: the wire header that the
/// vehicle protocol puts on every packet.
#[derive(Clone, Copy, PartialEq, Eq, Structural, Debug)]
pub struct MavHeader {
    pub system_id: u8,
    pub component_id: u8,
    pub sequence: u8,
}

impl Default for MavHeader {
    /// The all-zero header, used for keep-alive traffic.
    fn default() -> (h: Self)
        ensures
            h == (MavHeader { system_id: 0, component_id: 0, sequence: 0 }),
    {
        MavHeader { system_id: 0, component_id: 0, sequence: 0 }
    }
}

/// The in-process pairing of a vehicle message header with its typed payload.
/// The payload is carried as the bytes of its text form: the tagged-variant
/// encoding that the vehicle protocol's schema gives each message kind.
#[derive(Debug)]
pub struct MAVLinkMessage {
    pub header: MavHeader,
    pub message: Vec<u8>,
}

/// The mathematical value of a `MAVLinkMessage`: the header and the payload
/// bytes as a sequence.
pub struct MsgView {
    pub header: MavHeader,
    pub message: Seq<u8>,
}

impl View for MAVLinkMessage {
    type V = MsgView;

    open spec fn view(&self) -> MsgView {
        MsgView { header: self.header, message: self.message@ }
    }
}

/// The fixed keep-alive payload, field by field as the vehicle protocol's
/// heartbeat message carries them: generic vehicle type (0), generic
/// autopilot (0), no mode flags set (0), standby system status (3), and
/// protocol version 3.
#[derive(Clone, Copy, PartialEq, Eq, Structural, Debug)]
pub struct HeartbeatData {
    pub custom_mode: u32,
    pub mavtype: u8,
    pub autopilot: u8,
    pub base_mode: u8,
    pub system_status: u8,
    pub mavlink_version: u8,
}

/// Builds the one keep-alive payload the heartbeat loop ever sends.
pub fn heartbeat_message() -> (h: HeartbeatData)
    ensures
        h == (HeartbeatData {
            custom_mode: 0,
            mavtype: 0,
            autopilot: 0,
            base_mode: 0,
            system_status: 3,
            mavlink_version: 3,
        }),
{
    HeartbeatData {
        custom_mode: 0,
        mavtype: 0,
        autopilot: 0,
        base_mode: 0,
        system_status: 3,
        mavlink_version: 3,
    }
}

} // verus!
