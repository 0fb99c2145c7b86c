//! The session: connection state, command building, and the interpretation
//! of responses for every command family. The code that owns the stream
//! performs the reads and writes and hands the bytes to these functions.
use vstd::prelude::*;
use vstd::string::StringExecFns;
use crate::error::BoneError;
use crate::serial::decode_body;
use crate::serial::decoded_body;
use crate::serial::encode_body;
use crate::serial::encoded_body;
use crate::value::Model;
use crate::value::Value;
use crate::value::mfield;
use crate::value::mset_field;
use crate::value::lemma_view_pairs;
use crate::value::view_pairs;
use crate::text::is_int_token;
use crate::text::int_token_val;
use crate::wire::encode_frame;
use crate::telemetry::labels_of;

verus! {

/// The life of a connection: created, then connected exactly once, then
/// closed for good. Any frame error closes it.
#[derive(Debug, Clone, Copy, PartialEq, Eq, Structural)]
pub enum ConnState {
    Created,
    Connected,
    Closed,
}

/// The mathematical shape of a session.
#[verifier::ext_equal]
pub struct BoneModel {
    pub ip: Seq<char>,
    pub port: Seq<char>,
    pub msgpack: bool,
    pub ssl: bool,
    pub state: ConnState,
}

/// A session with the device: the address and modes it was built with, and
/// the connection state. The stream itself lives with the caller; the
/// session says what to send and what the answers mean.
#[derive(Debug)]
pub struct Bone {
    ip: String,
    port: String,
    enable_msgpack: bool,
    use_ssl: bool,
    state: ConnState,
}

impl View for Bone {
    type V = BoneModel;

    closed spec fn view(&self) -> BoneModel {
        BoneModel {
            ip: self.ip@,
            port: self.port@,
            msgpack: self.enable_msgpack,
            ssl: self.use_ssl,
            state: self.state,
        }
    }
}

impl Bone {
    /// A fresh, unconnected session.
    pub fn new(ip: &str, port: &str, enable_msgpack: bool, use_ssl: bool) -> (r: Bone)
        ensures
            r@ == (BoneModel {
                ip: ip@,
                port: port@,
                msgpack: enable_msgpack,
                ssl: use_ssl,
                state: ConnState::Created,
            }),
    {
        Bone {
            ip: ip.to_owned(),
            port: port.to_owned(),
            enable_msgpack,
            use_ssl,
            state: ConnState::Created,
        }
    }

    /// The `host:port` string the transport dials.
    pub fn get_connection_string(&self) -> (r: String)
        ensures
            r@ == self@.ip + ":"@ + self@.port,
    {
        let mut connect_str = self.ip.clone();
        connect_str.append(":");
        connect_str.append(self.port.as_str());
        connect_str
    }

    pub fn uses_ssl(&self) -> (r: bool)
        ensures
            r == self@.ssl,
    {
        self.use_ssl
    }

    pub fn msgpack_mode(&self) -> (r: bool)
        ensures
            r == self@.msgpack,
    {
        self.enable_msgpack
    }

    pub fn is_connected(&self) -> (r: bool)
        ensures
            r == (self@.state == ConnState::Connected),
    {
        match self.state {
            ConnState::Connected => true,
            _ => false,
        }
    }

    /// Records that the transport has established the stream. Valid exactly
    /// once, from the created state; anything else is a caller error.
    pub fn set_connected(&mut self) -> (r: Result<(), BoneError>)
        ensures
            old(self)@.state == ConnState::Created ==> (r is Ok && final(self)@ == (
            BoneModel { state: ConnState::Connected, ..old(self)@ })),
            old(self)@.state != ConnState::Created ==> (r matches Err(e) && e matches
                BoneError::Connection(_) && final(self)@ == old(self)@),
    {
        match self.state {
            ConnState::Created => {
                self.state = ConnState::Connected;
                Ok(())
            },
            _ => Err(BoneError::Connection(String::from_str(
                "the connection is already established or closed",
            ))),
        }
    }

    /// Records that the stream is gone or desynchronized: the session must
    /// not be used again.
    pub fn set_closed(&mut self)
        ensures
            final(self)@ == (BoneModel { state: ConnState::Closed, ..old(self)@ }),
    {
        self.state = ConnState::Closed;
    }

    /// The full outbound frame of a command in this session's mode: the
    /// serialized body and the CR LF terminator. `Ok` exactly where the
    /// mode's serialization succeeds, which in JSON mode is always.
    pub fn encode_command(&self, command: &Value) -> (r: Result<Vec<u8>, BoneError>)
        ensures
            r is Ok <==> encoded_body(command@, self@.msgpack) is Some,
            r matches Ok(b) ==> encoded_body(command@, self@.msgpack) matches Some(body)
                && b@ == body + seq![13u8, 10u8],
            !self@.msgpack ==> r is Ok,
            r matches Err(e) ==> e matches BoneError::Serialization(_),
    {
        match encode_body(command, self.enable_msgpack) {
            Ok(b) => Ok(encode_frame(b)),
            Err(e) => Err(e),
        }
    }

    /// The value a response body denotes in this session's mode: `Ok`
    /// exactly where the body denotes one.
    pub fn decode_response(&self, bytes: &[u8]) -> (r: Result<Value, BoneError>)
        ensures
            r is Ok <==> decoded_body(bytes@, self@.msgpack) is Some,
            r matches Ok(v) ==> decoded_body(bytes@, self@.msgpack) == Some(v@),
            r matches Err(e) ==> e matches BoneError::Serialization(_),
    {
        decode_body(bytes, self.enable_msgpack)
    }
}

/// The member of the payload object under `key`, if the value has one.
pub open spec fn payload_field(m: Model, key: Seq<char>) -> Option<Model> {
    match mfield(m, "payload"@) {
        Some(p) => mfield(p, key),
        None => None,
    }
}

/// The first command of the handshake.
pub fn request_token_command() -> (r: Value)
    ensures
        r@ == Model::Obj(seq![("command"@, Model::Str("request_token"@))]),
{
    let mut pairs: Vec<(String, Value)> = Vec::new();
    pairs.push((String::from_str("command"), Value::Str(String::from_str("request_token"))));
    proof {
        lemma_view_pairs(pairs@);
        assert(view_pairs(pairs@) =~= seq![("command"@, Model::Str("request_token"@))]);
    }
    Value::Obj(pairs)
}

/// The second command of the handshake, carrying the signed token.
pub fn auth_command(username: &str, signed_token: String) -> (r: Value)
    ensures
        r@ == Model::Obj(
            seq![
                ("command"@, Model::Str("auth"@)),
                (
                    "payload"@,
                    Model::Obj(
                        seq![
                            ("signed_token"@, Model::Str(signed_token@)),
                            ("username"@, Model::Str(username@)),
                        ],
                    ),
                ),
            ],
        ),
{
    let ghost st = signed_token@;
    let mut payload: Vec<(String, Value)> = Vec::new();
    payload.push((String::from_str("signed_token"), Value::Str(signed_token)));
    payload.push((String::from_str("username"), Value::Str(username.to_owned())));
    proof {
        lemma_view_pairs(payload@);
        assert(view_pairs(payload@).len() == 2);
        assert(view_pairs(payload@)[0] == (payload@[0].0@, crate::value::view_of(
            payload@[0].1,
        )));
        assert(view_pairs(payload@)[1] == (payload@[1].0@, crate::value::view_of(
            payload@[1].1,
        )));
        assert(view_pairs(payload@) =~= seq![
            ("signed_token"@, Model::Str(st)),
            ("username"@, Model::Str(username@)),
        ]);
    }
    let mut pairs: Vec<(String, Value)> = Vec::new();
    pairs.push((String::from_str("command"), Value::Str(String::from_str("auth"))));
    pairs.push((String::from_str("payload"), Value::Obj(payload)));
    proof {
        lemma_view_pairs(pairs@);
        assert(view_pairs(pairs@).len() == 2);
        assert(view_pairs(pairs@)[0] == (pairs@[0].0@, crate::value::view_of(
            pairs@[0].1,
        )));
        assert(view_pairs(pairs@)[1] == (pairs@[1].0@, crate::value::view_of(
            pairs@[1].1,
        )));
        assert(view_pairs(pairs@) =~= seq![
            ("command"@, Model::Str("auth"@)),
            (
                "payload"@,
                Model::Obj(
                    seq![("signed_token"@, Model::Str(st)), ("username"@, Model::Str(username@))],
                ),
            ),
        ]);
    }
    Value::Obj(pairs)
}

/// The token of the first handshake response: `payload.token`, which must be
/// a string; anything else fails the login.
pub fn token_from_response(resp: &Value) -> (r: Result<String, BoneError>)
    ensures
        r is Ok <==> payload_field(resp@, "token"@) matches Some(Model::Str(_)),
        r matches Ok(t) ==> payload_field(resp@, "token"@) == Some(Model::Str(t@)),
        r matches Err(e) ==> e matches BoneError::Auth(_),
{
    match resp.get("payload") {
        None => Err(BoneError::Auth(String::from_str("response carries no payload"))),
        Some(payload) => match payload.get("token") {
            None => Err(BoneError::Auth(String::from_str("payload carries no token"))),
            Some(tok) => match tok.as_str() {
                Some(s) => Ok(s.clone()),
                None => Err(BoneError::Auth(String::from_str("token is no string"))),
            },
        },
    }
}

/// The outcome of the second handshake response: if `payload.error` is a
/// string the login failed with exactly that message, and nothing else in
/// the response matters; otherwise it succeeded with the `payload.username`
/// string, and a response carrying neither is itself malformed.
pub fn login_outcome(resp: &Value) -> (r: Result<String, BoneError>)
    ensures
        payload_field(resp@, "error"@) matches Some(Model::Str(em)) ==> (r matches Err(er)
            && er matches BoneError::Auth(ms) && ms@ == em),
        !(payload_field(resp@, "error"@) matches Some(Model::Str(_))) ==> (payload_field(
            resp@,
            "username"@,
        ) matches Some(Model::Str(u)) ==> (r matches Ok(ru) && ru@ == u)),
        !(payload_field(resp@, "error"@) matches Some(Model::Str(_))) ==> (!(payload_field(
            resp@,
            "username"@,
        ) matches Some(Model::Str(_))) ==> (r matches Err(er) && er matches
            BoneError::Auth(_))),
{
    let err_string: Option<String> = match resp.get("payload") {
        None => None,
        Some(payload) => match payload.get("error") {
            None => None,
            Some(e) => match e.as_str() {
                Some(s) => Some(s.clone()),
                None => None,
            },
        },
    };
    match err_string {
        Some(msg) => Err(BoneError::Auth(msg)),
        None => {
            match resp.get("payload") {
                None => Err(BoneError::Auth(String::from_str(
                    "response carries no username",
                ))),
                Some(payload) => match payload.get("username") {
                    None => Err(BoneError::Auth(String::from_str(
                        "response carries no username",
                    ))),
                    Some(u) => match u.as_str() {
                        Some(s) => Ok(s.clone()),
                        None => Err(BoneError::Auth(String::from_str(
                            "username is no string",
                        ))),
                    },
                },
            }
        },
    }
}

/// The channel index a `ks` command names: `payload.channel` when that is an
/// integer numeral in range, `0` otherwise.
pub open spec fn ks_channel_spec(m: Model) -> int {
    match payload_field(m, "channel"@) {
        Some(Model::Num(b)) => if is_int_token(b) && -0x8000_0000_0000_0000 <= int_token_val(
            b,
        ) <= 0x7fff_ffff_ffff_ffff {
            int_token_val(b)
        } else {
            0
        },
        _ => 0,
    }
}

pub fn ks_channel(command: &Value) -> (r: i64)
    ensures
        r as int == ks_channel_spec(command@),
{
    match command.get("payload") {
        None => 0,
        Some(payload) => match payload.get("channel") {
            None => 0,
            Some(c) => match c.as_i64() {
                Some(n) => n,
                None => 0,
            },
        },
    }
}

/// The payload of a value, `Null` when it has none.
pub open spec fn payload_of(m: Model) -> Model {
    match mfield(m, "payload"@) {
        Some(p) => p,
        None => Model::Null,
    }
}

/// A `ks` command as it goes to the wire: `payload.float` forced to `true`,
/// the rest unchanged.
pub open spec fn ks_prepared(m: Model) -> Model {
    mset_field(m, "payload"@, mset_field(payload_of(m), "float"@, Model::Bool(true)))
}

/// Forces `payload.float = true` on a `ks` command.
pub fn ks_with_float(command: Value) -> (r: Value)
    ensures
        r@ == ks_prepared(command@),
{
    let payload: Value = match command.get("payload") {
        Some(p) => p.deep_clone(),
        None => Value::Null,
    };
    let new_payload = payload.set_field("float", Value::Bool(true));
    command.set_field("payload", new_payload)
}

/// The string contents of an all-string array.
pub open spec fn str_labels(items: Seq<Model>) -> Seq<Seq<char>> {
    Seq::new(items.len(), |j: int| items[j]->Str_0)
}

pub open spec fn all_strings(items: Seq<Model>) -> bool {
    forall|j: int| 0 <= j < items.len() ==> (#[trigger] items[j]) matches Model::Str(_)
}

/// The default split order of a `sync` response body.
pub open spec fn default_filter_labels() -> Seq<Seq<char>> {
    seq!["saw"@, "int2"@, "coe"@, "int"@]
}

/// The filter of a `sync` command: `payload.filter` when that is an array
/// whose members are all strings, else the default order.
pub open spec fn sync_filter_spec(m: Model) -> Seq<Seq<char>> {
    match payload_field(m, "filter"@) {
        Some(Model::Arr(items)) => if all_strings(items) {
            str_labels(items)
        } else {
            default_filter_labels()
        },
        _ => default_filter_labels(),
    }
}

fn default_filter() -> (r: Vec<String>)
    ensures
        labels_of(r@) == default_filter_labels(),
{
    let mut out: Vec<String> = Vec::new();
    out.push(String::from_str("saw"));
    out.push(String::from_str("int2"));
    out.push(String::from_str("coe"));
    out.push(String::from_str("int"));
    proof {
        assert(labels_of(out@) =~= default_filter_labels());
    }
    out
}

/// Reads the filter a `sync` command carries, falling back to the default
/// order when it is absent, no array, or holds a member that is no string.
pub fn sync_filter(command: &Value) -> (r: Vec<String>)
    ensures
        labels_of(r@) == sync_filter_spec(command@),
{
    let filter: &Value = match command.get("payload") {
        None => {
            return default_filter();
        },
        Some(payload) => match payload.get("filter") {
            None => {
                return default_filter();
            },
            Some(f) => f,
        },
    };
    match filter {
        Value::Arr(items) => {
            proof {
                crate::value::lemma_view_list(items@);
            }
            let ghost ms = crate::value::view_list(items@);
            proof {
                assert(payload_field(command@, "filter"@) == Some(Model::Arr(ms)));
            }
            let mut out: Vec<String> = Vec::new();
            let mut j: usize = 0;
            while j < items.len()
                invariant
                    payload_field(command@, "filter"@) == Some(Model::Arr(ms)),
                    ms == crate::value::view_list(items@),
                    ms.len() == items@.len(),
                    forall|t: int|
                        0 <= t < items@.len() ==> ms[t] == crate::value::view_of(
                            #[trigger] items@[t],
                        ),
                    j <= items@.len(),
                    out@.len() == j,
                    forall|t: int| 0 <= t < j ==> (#[trigger] ms[t]) matches Model::Str(_),
                    forall|t: int| 0 <= t < j ==> (#[trigger] out@[t])@ == ms[t]->Str_0,
                decreases items@.len() - j,
            {
                match items[j].as_str() {
                    Some(s) => {
                        out.push(s.clone());
                    },
                    None => {
                        proof {
                            assert(!(ms[j as int] matches Model::Str(_)));
                            assert(!all_strings(ms));
                        }
                        return default_filter();
                    },
                }
                j += 1;
            }
            proof {
                assert(all_strings(ms));
                assert(labels_of(out@) =~= str_labels(ms));
            }
            out
        },
        _ => default_filter(),
    }
}

} // verus!
