use mav_bridge::codec::{decode, encode, parse_direct};
use mav_bridge::msg::{MAVLinkMessage, MavHeader};

fn heartbeat_payload() -> mavlink::ardupilotmega::MavMessage {
    mavlink::ardupilotmega::MavMessage::HEARTBEAT(mavlink::ardupilotmega::HEARTBEAT_DATA {
        custom_mode: 0,
        mavtype: mavlink::ardupilotmega::MavType::MAV_TYPE_GENERIC,
        autopilot: mavlink::ardupilotmega::MavAutopilot::MAV_AUTOPILOT_GENERIC,
        base_mode: mavlink::ardupilotmega::MavModeFlag::empty(),
        system_status: mavlink::ardupilotmega::MavState::MAV_STATE_STANDBY,
        mavlink_version: 3,
    })
}

fn heartbeat_envelope() -> MAVLinkMessage {
    MAVLinkMessage {
        header: MavHeader { system_id: 1, component_id: 1, sequence: 0 },
        message: serde_json::to_vec(&heartbeat_payload()).unwrap(),
    }
}

#[test]
fn round_trip_direct() {
    let env = heartbeat_envelope();
    let text = encode(&env);
    let back = decode(&text).expect("an encoded envelope must decode");
    assert_eq!(back.header, env.header);
    assert_eq!(back.message, env.message);
}

#[test]
fn round_trip_multi_digit_header() {
    let env = MAVLinkMessage {
        header: MavHeader { system_id: 255, component_id: 42, sequence: 7 },
        message: serde_json::to_vec(&heartbeat_payload()).unwrap(),
    };
    let text = encode(&env);
    let back = decode(&text).expect("an encoded envelope must decode");
    assert_eq!(back.header, env.header);
    assert_eq!(back.message, env.message);
}

#[test]
fn scenario_b_outbound_text() {
    let env = heartbeat_envelope();
    let text = encode(&env);
    let expected = format!(
        "{{\"header\":{{\"system_id\":1,\"component_id\":1,\"sequence\":0}},\"message\":{}}}",
        serde_json::to_string(&heartbeat_payload()).unwrap(),
    );
    assert_eq!(String::from_utf8(text).unwrap(), expected);
    assert!(expected.contains("\"type\":\"HEARTBEAT\""));
}

#[test]
fn scenario_c_inbound_direct() {
    let env = heartbeat_envelope();
    let text = encode(&env);
    let back = decode(&text).expect("the published text must decode on the direct path");
    assert_eq!(back.header, MavHeader { system_id: 1, component_id: 1, sequence: 0 });
    let payload: mavlink::ardupilotmega::MavMessage =
        serde_json::from_slice(&back.message).unwrap();
    assert_eq!(payload, heartbeat_payload());
}

#[test]
fn scenario_d_inbound_quoted() {
    let env = heartbeat_envelope();
    let text = encode(&env);
    let quoted = serde_json::to_vec(&String::from_utf8(text).unwrap()).unwrap();
    let back = decode(&quoted).expect("the quoted text must decode on the fallback path");
    assert_eq!(back.header, env.header);
    assert_eq!(back.message, env.message);
}

#[test]
fn drop_plain_garbage() {
    assert!(decode(&b"not a message".to_vec()).is_none());
    assert!(decode(&Vec::new()).is_none());
}

#[test]
fn drop_quoted_garbage() {
    let quoted = serde_json::to_vec(&"hello there").unwrap();
    assert!(decode(&quoted).is_none());
}

#[test]
fn drop_unknown_message_kind() {
    // Structurally a fine envelope, but the schema knows no such message, so
    // the whole text is refused and nothing reaches the vehicle.
    let text = b"{\"header\":{\"system_id\":1,\"component_id\":1,\"sequence\":0},\"message\":{\"type\":\"NO_SUCH_MESSAGE\"}}".to_vec();
    assert!(parse_direct(&text).is_some());
    assert!(decode(&text).is_none());
}

#[test]
fn drop_leading_zero_header_number() {
    let env = heartbeat_envelope();
    let text = String::from_utf8(encode(&env)).unwrap();
    let padded = text.replace("\"system_id\":1,", "\"system_id\":01,");
    assert!(decode(&padded.into_bytes()).is_none());
}
