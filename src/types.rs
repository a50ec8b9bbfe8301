use vstd::prelude::*;

verus! {

/// MQTT delivery guarantee of a message or a subscription.
#[derive(Clone, Copy, Debug, PartialEq, Eq, Structural)]
pub enum QoS {
    AtMostOnce,
    AtLeastOnce,
    ExactlyOnce,
}

pub open spec fn qos_level(q: QoS) -> nat {
    match q {
        QoS::AtMostOnce => 0,
        QoS::AtLeastOnce => 1,
        QoS::ExactlyOnce => 2,
    }
}

/// The lower of two delivery guarantees.
pub fn min_qos(a: QoS, b: QoS) -> (r: QoS)
    ensures
        qos_level(r) == if qos_level(a) <= qos_level(b) { qos_level(a) } else { qos_level(b) },
        r == a || r == b,
{
    let la: u8 = match a {
        QoS::AtMostOnce => 0,
        QoS::AtLeastOnce => 1,
        QoS::ExactlyOnce => 2,
    };
    let lb: u8 = match b {
        QoS::AtMostOnce => 0,
        QoS::AtLeastOnce => 1,
        QoS::ExactlyOnce => 2,
    };
    if la <= lb {
        a
    } else {
        b
    }
}

/// The delivery guarantee of a forwarded message never exceeds that of the message
/// nor that of the subscription.
pub proof fn lemma_min_qos_bounded(a: QoS, b: QoS, r: QoS)
    requires
        qos_level(r) == if qos_level(a) <= qos_level(b) { qos_level(a) } else { qos_level(b) },
    ensures
        qos_level(r) <= qos_level(a),
        qos_level(r) <= qos_level(b),
{
}

/// Wire protocol version of a connection.
#[derive(Clone, Copy, Debug, PartialEq, Eq, Structural)]
pub enum MqttProtocol {
    Mqtt4,
    Mqtt5,
}

/// Reason codes carried by a DISCONNECT sent by the broker.
#[derive(Clone, Copy, Debug, PartialEq, Eq, Structural)]
pub enum DisconnectReasonCode {
    NormalDisconnection,
    UnspecifiedError,
    NotAuthorized,
    UseAnotherServer,
    AdministrativeAction,
}

/// Login credentials of a broker user.
pub struct User {
    pub username: String,
    pub password: String,
}

/// A published message as the broker stores and forwards it.
pub struct Message {
    pub client_id: String,
    pub payload: Vec<u8>,
    pub qos: QoS,
    pub retain: bool,
}

pub struct MessageView {
    pub client_id: Seq<char>,
    pub payload: Seq<u8>,
    pub qos: QoS,
    pub retain: bool,
}

impl View for Message {
    type V = MessageView;

    open spec fn view(&self) -> MessageView {
        MessageView {
            client_id: self.client_id@,
            payload: self.payload@,
            qos: self.qos,
            retain: self.retain,
        }
    }
}

impl Message {
    pub fn duplicate(&self) -> (r: Message)
        ensures
            r@ == self@,
    {
        let payload = self.payload.clone();
        assert(payload@ =~= self.payload@);
        Message {
            client_id: self.client_id.clone(),
            payload,
            qos: self.qos,
            retain: self.retain,
        }
    }
}

/// A last-will message registered by CONNECT.
pub struct LastWill {
    pub topic: String,
    pub message: Vec<u8>,
    pub qos: QoS,
    pub retain: bool,
}

/// An outbound PUBLISH packet.
pub struct PublishPacket {
    pub qos: QoS,
    pub pkid: u16,
    pub retain: bool,
    pub topic: String,
    pub payload: Vec<u8>,
    pub subscription_identifiers: Vec<usize>,
    pub user_properties: Vec<(String, String)>,
}

pub open spec fn digit_char(d: nat) -> char {
    if d == 0 {
        '0'
    } else if d == 1 {
        '1'
    } else if d == 2 {
        '2'
    } else if d == 3 {
        '3'
    } else if d == 4 {
        '4'
    } else if d == 5 {
        '5'
    } else if d == 6 {
        '6'
    } else if d == 7 {
        '7'
    } else if d == 8 {
        '8'
    } else {
        '9'
    }
}

/// The decimal digits of a number, most significant first, without leading zeros.
pub open spec fn decimal(n: nat) -> Seq<char>
    decreases n,
{
    if n < 10 {
        seq![digit_char(n)]
    } else {
        decimal(n / 10).push(digit_char(n % 10))
    }
}

/// Relies on the `Display` of `u64` (through `to_string`): it writes the
/// number's decimal digits.
#[verifier::external_body]
pub(crate) fn decimal_text(n: u64) -> (r: String)
    ensures
        r@ == decimal(n as nat),
{
    n.to_string()
}

/// The user property naming a record's log offset.
pub fn offset_property(o: u64) -> (r: (String, String))
    ensures
        r.0@ == offset_key(),
        r.1@ == decimal(o as nat),
{
    proof {
        reveal_strlit("offset");
    }
    (String::from_str("offset"), decimal_text(o))
}

pub open spec fn offset_key() -> Seq<char> {
    seq!['o', 'f', 'f', 's', 'e', 't']
}

/// A packet the broker answers with.
pub enum MqttPacket {
    ConnAck { client_id: String, session_present: bool, assigned_client_id: bool },
    PubAck { pkid: u16, user_properties: Vec<(String, String)> },
    PubRec { session_present: bool },
    PubRel { pkid: u16 },
    PubComp { pkid: u16 },
    SubAck { pkid: u16, reason_codes: Vec<QoS>, user_properties: Vec<(String, String)> },
    UnsubAck { pkid: u16 },
    PingResp,
    Disconnect { reason: DisconnectReasonCode, message: Option<String> },
}

} // verus!
