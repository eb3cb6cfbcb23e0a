use mav_bridge::codec::encode;
use mav_bridge::config::{default_path, in_topic, out_topic, Args};
use mav_bridge::hub::{FwdTake, HbTake, Hub};
use mav_bridge::loops::{forward_out_step, heartbeat_step, receiver_step, HeartbeatStep, PublishStep};
use mav_bridge::msg::{heartbeat_message, HeartbeatData, MAVLinkMessage, MavHeader};

fn envelope(sequence: u8) -> MAVLinkMessage {
    MAVLinkMessage {
        header: MavHeader { system_id: 1, component_id: 1, sequence },
        message: b"{\"type\":\"HEARTBEAT\"}".to_vec(),
    }
}

#[test]
fn scenario_a_topics() {
    assert_eq!(out_topic("drone1"), "drone1/out");
    assert_eq!(in_topic("drone1"), "drone1/in");
    assert_eq!(default_path(), "mavlink");
}

#[test]
fn scenario_a_configuration() {
    let args = Args {
        connect: "tcp:127.0.0.1:5760".to_string(),
        config: None,
        path: "drone1".to_string(),
    };
    assert_eq!(args.connect, "tcp:127.0.0.1:5760");
    assert!(args.config.is_none());
    assert_eq!(out_topic(&args.path), "drone1/out");
    assert_eq!(in_topic(&args.path), "drone1/in");
}

#[test]
fn hub_keeps_latest_only() {
    let mut hub = Hub::new();
    hub.offer(envelope(1));
    hub.offer(envelope(2));
    hub.offer(envelope(3));
    match hub.fwd_take() {
        FwdTake::Item(e) => assert_eq!(e.header.sequence, 3),
        _ => panic!("a drain after offers must hand out the latest message"),
    }
    assert!(matches!(hub.fwd_take(), FwdTake::Empty));
}

#[test]
fn hub_drains_then_reports_closure() {
    let mut hub = Hub::new();
    hub.offer(envelope(9));
    hub.close();
    assert!(matches!(hub.fwd_take(), FwdTake::Item(_)));
    assert!(matches!(hub.fwd_take(), FwdTake::Closed));
    assert!(matches!(hub.hb_take(), HbTake::Item));
    assert!(matches!(hub.hb_take(), HbTake::Closed));
}

#[test]
fn scenario_e_receive_failures_push_nothing() {
    let mut hub = Hub::new();
    receiver_step(&mut hub, None);
    receiver_step(&mut hub, None);
    receiver_step(&mut hub, None);
    assert!(matches!(hub.fwd_take(), FwdTake::Empty));
    receiver_step(&mut hub, Some(envelope(5)));
    match forward_out_step(&mut hub) {
        PublishStep::Publish(bytes) => assert_eq!(bytes, encode(&envelope(5))),
        _ => panic!("an offered message must be published"),
    }
}

#[test]
fn forward_loop_idles_then_stops() {
    let mut hub = Hub::new();
    assert!(matches!(forward_out_step(&mut hub), PublishStep::Idle));
    hub.close();
    assert!(matches!(forward_out_step(&mut hub), PublishStep::Stop));
}

#[test]
fn heartbeat_loop_sends_until_closure() {
    let mut hub = Hub::new();
    match heartbeat_step(&mut hub) {
        HeartbeatStep::Send(header, data) => {
            assert_eq!(header, MavHeader { system_id: 0, component_id: 0, sequence: 0 });
            assert_eq!(data, heartbeat_message());
        },
        HeartbeatStep::Stop => panic!("an open hub must not stop the heartbeat"),
    }
    hub.close();
    assert!(matches!(heartbeat_step(&mut hub), HeartbeatStep::Stop));
}

#[test]
fn heartbeat_message_fields() {
    let expected = HeartbeatData {
        custom_mode: 0,
        mavtype: 0,
        autopilot: 0,
        base_mode: 0,
        system_status: 3,
        mavlink_version: 3,
    };
    assert_eq!(heartbeat_message(), expected);
}
