use mqtt_broker::cache::MetadataCache;
use mqtt_broker::heartbeat::{ConnectionLiveTime, HeartbeatManager};
use mqtt_broker::journal::{GrpcEngineService, StorageDataType};
use mqtt_broker::store::{MessageStore, StorageError};
use mqtt_broker::subscribe::{publish_for, Subscriber};
use mqtt_broker::types::{min_qos, offset_property, Message, MqttProtocol, QoS};

fn msg(client: &str, payload: &str, qos: QoS, retain: bool) -> Message {
    Message { client_id: client.to_string(), payload: payload.as_bytes().to_vec(), qos, retain }
}

#[test]
fn min_qos_never_exceeds_either() {
    assert_eq!(min_qos(QoS::ExactlyOnce, QoS::AtMostOnce), QoS::AtMostOnce);
    assert_eq!(min_qos(QoS::AtLeastOnce, QoS::ExactlyOnce), QoS::AtLeastOnce);
    assert_eq!(min_qos(QoS::ExactlyOnce, QoS::ExactlyOnce), QoS::ExactlyOnce);
}

#[test]
fn connection_and_client_bindings_are_inverse() {
    let mut c = MetadataCache::new();
    c.set_client_id(7, &"alpha".to_string());
    assert_eq!(c.get_client_id(7), Some("alpha".to_string()));
    assert_eq!(c.get_connect_id(&"alpha".to_string()), Some(7));
    c.set_client_id(8, &"alpha".to_string());
    assert_eq!(c.get_client_id(7), None);
    assert_eq!(c.get_connect_id(&"alpha".to_string()), Some(8));
    c.remove_connect_id(8);
    assert_eq!(c.get_client_id(8), None);
    assert_eq!(c.get_connect_id(&"alpha".to_string()), None);
}

#[test]
fn commits_never_move_back() {
    let mut st = MessageStore::new();
    let t = "shard".to_string();
    let g = "system_sub_x".to_string();
    st.commit_group_offset(&t, &g, 5);
    assert_eq!(st.committed_offset(&t, &g), 5);
    st.commit_group_offset(&t, &g, 3);
    assert_eq!(st.committed_offset(&t, &g), 5);
    st.commit_group_offset(&t, &g, 9);
    assert_eq!(st.committed_offset(&t, &g), 9);
    assert_eq!(st.committed_offset(&t, &"other".to_string()), 0);
}

#[test]
fn append_needs_a_shard_and_numbers_records() {
    let mut st = MessageStore::new();
    let t = "s".to_string();
    assert_eq!(st.append(&t, msg("c", "a", QoS::AtMostOnce, false)), Err(StorageError::NotFound));
    st.create_shard(&t);
    assert_eq!(st.append(&t, msg("c", "a", QoS::AtMostOnce, false)), Ok(0));
    st.create_shard(&t);
    assert_eq!(st.append(&t, msg("c", "b", QoS::AtMostOnce, false)), Ok(1));
    let g = "g".to_string();
    let r = st.read(&t, &g, 5);
    assert_eq!(r.len(), 2);
    assert_eq!(r[1].0, 1);
    assert_eq!(r[1].1.payload, b"b".to_vec());
    st.commit_group_offset(&t, &g, 1);
    let r = st.read(&t, &g, 5);
    assert_eq!(r.len(), 1);
    assert_eq!(r[0].0, 1);
    assert_eq!(st.read(&t, &g, 0).len(), 0);
}

#[test]
fn retained_and_lastwill_storage() {
    let mut st = MessageStore::new();
    let t = "s".to_string();
    st.save_retain_message(&t, msg("c", "r", QoS::AtMostOnce, true));
    assert_eq!(st.get_retain_message(&t).unwrap().payload, b"r".to_vec());
    st.save_retain_message(&t, msg("c", "", QoS::AtMostOnce, true));
    assert!(st.get_retain_message(&t).is_none());
    let c = "client".to_string();
    assert!(st.take_lastwill(&c).is_none());
}

#[test]
fn heartbeat_expires_after_one_and_a_half_keep_alive() {
    let mut h = HeartbeatManager::new();
    let live = ConnectionLiveTime { protocol: MqttProtocol::Mqtt5, keep_alive: 2, heartbeat: 100 };
    h.report_heartbeat(1, live);
    assert!(h.expired(103).is_empty());
    assert_eq!(h.expired(104), vec![1]);
    h.remove_connect(1);
    assert!(h.expired(200).is_empty());
}

#[test]
fn forwarded_publish_follows_subscription_options() {
    let sub = Subscriber {
        protocol: MqttProtocol::Mqtt5,
        client_id: "me".to_string(),
        topic_name: "a/b".to_string(),
        topic_id: "id".to_string(),
        qos: QoS::AtLeastOnce,
        nolocal: true,
        preserve_retain: true,
        subscription_identifier: Some(42),
        packet_identifier: 9,
    };
    assert!(publish_for(&sub, &msg("me", "x", QoS::ExactlyOnce, true), Some(3)).is_none());
    let p = publish_for(&sub, &msg("you", "x", QoS::ExactlyOnce, true), Some(3)).unwrap();
    assert_eq!(p.qos, QoS::AtLeastOnce);
    assert!(p.retain);
    assert_eq!(p.pkid, 9);
    assert_eq!(p.topic, "a/b");
    assert_eq!(p.subscription_identifiers, vec![42]);
    assert_eq!(p.user_properties, vec![("offset".to_string(), "3".to_string())]);
}

#[test]
fn offset_property_writes_decimal_digits() {
    assert_eq!(offset_property(1234), ("offset".to_string(), "1234".to_string()));
    assert_eq!(offset_property(0).1, "0");
}

#[test]
fn journal_writes_wrap_requests() {
    let svc = GrpcEngineService::new();
    let d = svc.create_shard(vec![1, 2]);
    assert_eq!(d.data_type, StorageDataType::JournalCreateShard);
    assert_eq!(d.value, vec![1, 2]);
    assert_eq!(svc.delete_segment(vec![]).data_type, StorageDataType::JournalDeleteSegment);
    assert!(svc.write_reply(Ok(())).is_ok());
    match svc.write_reply(Err("raft down".to_string())) {
        Err(s) => assert_eq!(s.message, "raft down"),
        Ok(_) => panic!("expected a cancellation"),
    }
    assert!(svc.get_shard().shards.is_empty());
}
