use mqtt_broker::cache::MetadataCache;
use mqtt_broker::heartbeat::HeartbeatManager;
use mqtt_broker::mqtt5::{Connect, Mqtt5Service, Publish, PushStep, SubscribeFilter};
use mqtt_broker::store::MessageStore;
use mqtt_broker::subscribe::SubscribeManager;
use mqtt_broker::types::{DisconnectReasonCode, LastWill, MqttPacket, PublishPacket, QoS};

fn service() -> Mqtt5Service {
    Mqtt5Service::new(
        MetadataCache::new(),
        SubscribeManager::new(),
        HeartbeatManager::new(),
        MessageStore::new(),
    )
}

fn connect_packet(client_id: &str, clean: bool, keep_alive: u16) -> Connect {
    Connect {
        client_id: client_id.to_string(),
        clean_session: clean,
        keep_alive,
        session_expiry_interval: 0,
    }
}

fn login(s: &mut Mqtt5Service, conn: u64, client_id: &str) -> MqttPacket {
    s.connect(
        conn,
        &connect_packet(client_id, true, 60),
        None,
        Ok(true),
        &"generated".to_string(),
        100,
    )
}

fn filter(path: &str, qos: QoS, nolocal: bool) -> SubscribeFilter {
    SubscribeFilter { path: path.to_string(), qos, nolocal, preserve_retain: false }
}

fn sub(s: &mut Mqtt5Service, conn: u64, f: SubscribeFilter, fresh: &str) -> (MqttPacket, Vec<Option<PublishPacket>>) {
    s.subscribe(conn, 1, &vec![f], None, vec![], &vec![fresh.to_string()])
}

fn publish(topic: &str, payload: &str, qos: QoS, retain: bool, pkid: u16) -> Publish {
    Publish {
        topic: topic.to_string(),
        payload: payload.as_bytes().to_vec(),
        qos,
        retain,
        pkid,
    }
}

fn delivered(step: PushStep) -> (u64, Vec<Option<PublishPacket>>) {
    match step {
        PushStep::Delivered { conn, packets } => (conn, packets),
        _ => panic!("expected a delivery"),
    }
}

#[test]
fn anonymous_connect_gets_generated_id() {
    let mut s = service();
    let r = s.connect(1, &connect_packet("", true, 60), None, Ok(true), &"auto-7".to_string(), 100);
    match r {
        MqttPacket::ConnAck { client_id, session_present, assigned_client_id } => {
            assert_eq!(client_id, "auto-7");
            assert!(!session_present);
            assert!(assigned_client_id);
        }
        _ => panic!("expected CONNACK"),
    }
}

#[test]
fn bad_credentials_are_refused() {
    let mut s = service();
    let r = s.connect(1, &connect_packet("a", true, 60), None, Ok(false), &"g".to_string(), 100);
    assert!(matches!(r, MqttPacket::Disconnect { reason: DisconnectReasonCode::NotAuthorized, .. }));
    let r = s.connect(1, &connect_packet("a", true, 60), None, Err("no plugin".to_string()), &"g".to_string(), 100);
    assert!(matches!(r, MqttPacket::Disconnect { reason: DisconnectReasonCode::NotAuthorized, .. }));
    assert!(matches!(s.ping(1, 101), MqttPacket::Disconnect { reason: DisconnectReasonCode::UseAnotherServer, .. }));
}

#[test]
fn qos0_publish_reaches_subscriber_once() {
    let mut s = service();
    login(&mut s, 1, "reader");
    login(&mut s, 2, "writer");
    let (ack, retained) = sub(&mut s, 1, filter("t/a", QoS::AtMostOnce, false), "topic-1");
    assert!(matches!(ack, MqttPacket::SubAck { pkid: 1, .. }));
    assert_eq!(retained.len(), 1);
    assert!(retained[0].is_none());
    let r = s.publish(2, publish("t/a", "hello", QoS::AtMostOnce, false, 0), vec![], &"topic-2".to_string());
    assert!(r.is_none());
    let (conn, packets) = delivered(s.push_step(&"reader".to_string(), &"t/a".to_string()));
    assert_eq!(conn, 1);
    assert_eq!(packets.len(), 1);
    let p = packets[0].as_ref().unwrap();
    assert_eq!(p.payload, b"hello".to_vec());
    assert_eq!(p.topic, "t/a");
    assert_eq!(p.user_properties, vec![("offset".to_string(), "0".to_string())]);
    assert!(matches!(s.push_step(&"reader".to_string(), &"t/a".to_string()), PushStep::Idle));
}

#[test]
fn qos1_publish_is_acked_and_downgraded() {
    let mut s = service();
    login(&mut s, 1, "reader");
    login(&mut s, 2, "writer");
    sub(&mut s, 1, filter("t/b", QoS::AtMostOnce, false), "topic-b");
    let r = s.publish(
        2,
        publish("t/b", "x", QoS::AtLeastOnce, false, 17),
        vec![("k".to_string(), "v".to_string())],
        &"unused".to_string(),
    );
    match r {
        Some(MqttPacket::PubAck { pkid, user_properties }) => {
            assert_eq!(pkid, 17);
            assert_eq!(
                user_properties,
                vec![("k".to_string(), "v".to_string()), ("offset".to_string(), "0".to_string())]
            );
        }
        _ => panic!("expected PUBACK"),
    }
    let (_, packets) = delivered(s.push_step(&"reader".to_string(), &"t/b".to_string()));
    assert_eq!(packets[0].as_ref().unwrap().qos, QoS::AtMostOnce);
}

#[test]
fn qos2_publish_answers_pubrec() {
    let mut s = service();
    login(&mut s, 2, "writer");
    let r = s.publish(2, publish("t/c", "x", QoS::ExactlyOnce, false, 3), vec![], &"tc".to_string());
    assert!(matches!(r, Some(MqttPacket::PubRec { session_present: false })));
}

#[test]
fn publish_without_connection_fails() {
    let mut s = service();
    let r = s.publish(9, publish("t", "x", QoS::AtMostOnce, false, 0), vec![], &"t1".to_string());
    assert!(matches!(r, Some(MqttPacket::Disconnect { reason: DisconnectReasonCode::UnspecifiedError, .. })));
}

#[test]
fn nolocal_skips_own_messages() {
    let mut s = service();
    login(&mut s, 1, "a");
    sub(&mut s, 1, filter("t/n", QoS::AtLeastOnce, true), "tn");
    s.publish(1, publish("t/n", "mine", QoS::AtMostOnce, false, 0), vec![], &"tn2".to_string());
    let (_, packets) = delivered(s.push_step(&"a".to_string(), &"t/n".to_string()));
    assert_eq!(packets.len(), 1);
    assert!(packets[0].is_none());
    assert!(matches!(s.push_step(&"a".to_string(), &"t/n".to_string()), PushStep::Idle));
}

#[test]
fn idle_connection_is_reaped_and_will_published() {
    let mut s = service();
    login(&mut s, 1, "watcher");
    sub(&mut s, 1, filter("will/t", QoS::AtMostOnce, false), "wt");
    let will = LastWill {
        topic: "will/t".to_string(),
        message: b"bye".to_vec(),
        qos: QoS::AtMostOnce,
        retain: false,
    };
    s.connect(2, &connect_packet("dying", true, 2), Some(will), Ok(true), &"g".to_string(), 100);
    let wills = s.reap(103);
    assert!(wills.is_empty());
    assert!(matches!(s.ping(2, 103), MqttPacket::PingResp));
    let wills = s.reap(107);
    assert_eq!(wills.len(), 1);
    assert!(matches!(s.ping(2, 107), MqttPacket::Disconnect { reason: DisconnectReasonCode::UseAnotherServer, .. }));
    let (client, w) = wills.into_iter().next().unwrap();
    assert_eq!(client, "dying");
    assert!(s.publish_will(&client, w, &"fresh".to_string()).is_ok());
    let (conn, packets) = delivered(s.push_step(&"watcher".to_string(), &"will/t".to_string()));
    assert_eq!(conn, 1);
    assert_eq!(packets[0].as_ref().unwrap().payload, b"bye".to_vec());
}

#[test]
fn reconnect_without_clean_start_resumes_session() {
    let mut s = service();
    s.connect(1, &connect_packet("x", false, 60), None, Ok(true), &"g".to_string(), 100);
    let (r, _) = s.disconnect(1, DisconnectReasonCode::NormalDisconnection);
    assert!(matches!(r, MqttPacket::Disconnect { reason: DisconnectReasonCode::NormalDisconnection, .. }));
    let r = s.connect(2, &connect_packet("x", false, 60), None, Ok(true), &"g".to_string(), 101);
    assert!(matches!(r, MqttPacket::ConnAck { session_present: true, assigned_client_id: false, .. }));
}

#[test]
fn subscribe_then_unsubscribe_stops_delivery() {
    let mut s = service();
    login(&mut s, 1, "r");
    sub(&mut s, 1, filter("t/u", QoS::AtMostOnce, false), "tu");
    assert!(!matches!(s.push_step(&"r".to_string(), &"t/u".to_string()), PushStep::Stop));
    let r = s.un_subscribe(1, 5, &vec!["t/u".to_string()]);
    assert!(matches!(r, MqttPacket::UnsubAck { pkid: 5 }));
    assert!(matches!(s.push_step(&"r".to_string(), &"t/u".to_string()), PushStep::Stop));
}

#[test]
fn retained_message_delivered_then_cleared() {
    let mut s = service();
    login(&mut s, 1, "pub");
    s.publish(1, publish("t/r", "keep", QoS::AtMostOnce, true, 0), vec![], &"tr".to_string());
    login(&mut s, 2, "late");
    let (_, retained) = sub(&mut s, 2, filter("t/r", QoS::AtLeastOnce, false), "unused");
    assert_eq!(retained.len(), 1);
    assert_eq!(retained[0].as_ref().unwrap().payload, b"keep".to_vec());
    s.publish(1, publish("t/r", "", QoS::AtMostOnce, true, 0), vec![], &"unused".to_string());
    login(&mut s, 3, "later");
    let (_, retained) = sub(&mut s, 3, filter("t/r", QoS::AtLeastOnce, false), "unused");
    assert!(retained[0].is_none());
}

#[test]
fn disconnect_drops_subscriptions_and_bindings() {
    let mut s = service();
    login(&mut s, 1, "gone");
    sub(&mut s, 1, filter("t/d", QoS::AtMostOnce, false), "td");
    s.disconnect(1, DisconnectReasonCode::NormalDisconnection);
    assert!(matches!(s.push_step(&"gone".to_string(), &"t/d".to_string()), PushStep::Stop));
    assert!(matches!(s.ping(1, 100), MqttPacket::Disconnect { reason: DisconnectReasonCode::UseAnotherServer, .. }));
}

#[test]
fn abnormal_disconnect_keeps_will() {
    let mut s = service();
    let will = LastWill { topic: "w".to_string(), message: b"m".to_vec(), qos: QoS::AtMostOnce, retain: false };
    s.connect(1, &connect_packet("c", true, 60), Some(will), Ok(true), &"g".to_string(), 100);
    let (_, w) = s.disconnect(1, DisconnectReasonCode::UnspecifiedError);
    assert_eq!(w.unwrap().0, "c");
    let will = LastWill { topic: "w".to_string(), message: b"m".to_vec(), qos: QoS::AtMostOnce, retain: false };
    s.connect(2, &connect_packet("d", true, 60), Some(will), Ok(true), &"g".to_string(), 100);
    let (_, w) = s.disconnect(2, DisconnectReasonCode::NormalDisconnection);
    assert!(w.is_none());
}

#[test]
fn offline_subscriber_waits() {
    let mut s = service();
    login(&mut s, 1, "o");
    sub(&mut s, 1, filter("t/o", QoS::AtMostOnce, false), "to");
    s.publish(1, publish("t/o", "a", QoS::AtMostOnce, false, 0), vec![], &"x".to_string());
    assert!(matches!(s.push_step(&"o".to_string(), &"t/o".to_string()), PushStep::Delivered { .. }));
    s.disconnect(1, DisconnectReasonCode::NormalDisconnection);
    assert!(matches!(s.push_step(&"o".to_string(), &"t/o".to_string()), PushStep::Stop));
}

#[test]
fn push_batches_five_records_in_offset_order() {
    let mut s = service();
    login(&mut s, 1, "r");
    login(&mut s, 2, "w");
    sub(&mut s, 1, filter("t/many", QoS::AtMostOnce, false), "tm");
    for i in 0..7u8 {
        s.publish(2, publish("t/many", &format!("m{}", i), QoS::AtLeastOnce, false, 1), vec![], &"x".to_string());
    }
    let (_, first) = delivered(s.push_step(&"r".to_string(), &"t/many".to_string()));
    assert_eq!(first.len(), 5);
    assert_eq!(first[4].as_ref().unwrap().payload, b"m4".to_vec());
    assert_eq!(first[4].as_ref().unwrap().qos, QoS::AtMostOnce);
    assert_eq!(first[4].as_ref().unwrap().user_properties[0].1, "4");
    let (_, rest) = delivered(s.push_step(&"r".to_string(), &"t/many".to_string()));
    assert_eq!(rest.len(), 2);
    assert_eq!(rest[1].as_ref().unwrap().payload, b"m6".to_vec());
}

#[test]
fn takeover_moves_client_to_new_connection() {
    let mut s = service();
    login(&mut s, 1, "same");
    login(&mut s, 2, "same");
    assert!(matches!(s.ping(1, 100), MqttPacket::Disconnect { .. }));
    assert!(matches!(s.ping(2, 100), MqttPacket::PingResp));
}

#[test]
fn pubrel_completes_with_pubcomp() {
    let mut s = service();
    login(&mut s, 1, "q2");
    assert!(!s.publish_ack(1, 4));
    assert!(matches!(s.publish_rel(1, 4, &"x".to_string()), MqttPacket::PubComp { pkid: 4 }));
}

#[test]
fn qos1_delivery_waits_for_puback_before_commit() {
    let mut s = service();
    login(&mut s, 1, "r");
    login(&mut s, 2, "w");
    sub(&mut s, 1, filter("t/q", QoS::AtLeastOnce, false), "tq");
    s.publish(2, publish("t/q", "first", QoS::AtLeastOnce, false, 1), vec![], &"x".to_string());
    s.publish(2, publish("t/q", "second", QoS::AtLeastOnce, false, 2), vec![], &"x".to_string());
    let (_, packets) = delivered(s.push_step(&"r".to_string(), &"t/q".to_string()));
    assert_eq!(packets.len(), 1);
    assert_eq!(packets[0].as_ref().unwrap().payload, b"first".to_vec());
    assert!(matches!(s.push_step(&"r".to_string(), &"t/q".to_string()), PushStep::Waiting));
    assert!(!s.publish_ack(1, 9));
    assert!(!s.publish_comp(1, 1));
    assert!(s.publish_ack(1, 1));
    let (_, packets) = delivered(s.push_step(&"r".to_string(), &"t/q".to_string()));
    assert_eq!(packets[0].as_ref().unwrap().payload, b"second".to_vec());
    assert!(s.publish_ack(1, 1));
    assert!(matches!(s.push_step(&"r".to_string(), &"t/q".to_string()), PushStep::Idle));
}

#[test]
fn qos2_delivery_settles_on_pubcomp() {
    let mut s = service();
    login(&mut s, 1, "r");
    sub(&mut s, 1, filter("t/e", QoS::ExactlyOnce, false), "te");
    let r = s.publish(1, publish("t/e", "once", QoS::ExactlyOnce, false, 3), vec![], &"x".to_string());
    assert!(matches!(r, Some(MqttPacket::PubRec { .. })));
    assert!(matches!(s.push_step(&"r".to_string(), &"t/e".to_string()), PushStep::Idle));
    assert!(matches!(s.publish_rel(1, 3, &"x".to_string()), MqttPacket::PubComp { pkid: 3 }));
    let (_, packets) = delivered(s.push_step(&"r".to_string(), &"t/e".to_string()));
    assert_eq!(packets[0].as_ref().unwrap().qos, QoS::ExactlyOnce);
    assert!(matches!(s.publish_rec(1, 1), MqttPacket::PubRel { pkid: 1 }));
    assert!(!s.publish_ack(1, 1));
    assert!(s.publish_comp(1, 1));
    assert!(matches!(s.push_step(&"r".to_string(), &"t/e".to_string()), PushStep::Idle));
}

#[test]
fn client_of_reports_binding() {
    let mut s = service();
    login(&mut s, 4, "who");
    assert_eq!(s.client_of(4), Some("who".to_string()));
    assert_eq!(s.client_of(5), None);
}

#[test]
fn login_error_and_missing_connection_carry_text() {
    let mut s = service();
    let r = s.connect(1, &connect_packet("a", true, 60), None, Err("no plugin".to_string()), &"g".to_string(), 100);
    match r {
        MqttPacket::Disconnect { reason: DisconnectReasonCode::NotAuthorized, message } => {
            assert_eq!(message, Some("no plugin".to_string()))
        }
        _ => panic!("expected DISCONNECT"),
    }
    match s.publish(9, publish("t", "x", QoS::AtMostOnce, false, 0), vec![], &"t1".to_string()) {
        Some(MqttPacket::Disconnect { message, .. }) => {
            assert_eq!(message, Some("not found connection in cache".to_string()))
        }
        _ => panic!("expected DISCONNECT"),
    }
}

#[test]
fn suback_grants_each_filter_qos() {
    let mut s = service();
    login(&mut s, 1, "r");
    let filters = vec![filter("a", QoS::AtLeastOnce, false), filter("b", QoS::ExactlyOnce, false)];
    let props = vec![("k".to_string(), "v".to_string())];
    let (ack, retained) = s.subscribe(1, 8, &filters, Some(3), props.clone(), &vec!["ia".to_string(), "ib".to_string()]);
    assert_eq!(retained.len(), 2);
    match ack {
        MqttPacket::SubAck { pkid, reason_codes, user_properties } => {
            assert_eq!(pkid, 8);
            assert_eq!(reason_codes, vec![QoS::AtLeastOnce, QoS::ExactlyOnce]);
            assert_eq!(user_properties, props);
        }
        _ => panic!("expected SUBACK"),
    }
}
