use bone_api::auth::get_sha512_string;
use bone_api::auth::get_signed_token;
use bone_api::error::BoneError;
use bone_api::json::from_json;
use bone_api::json::to_json;
use bone_api::serial::decode_body;
use bone_api::serial::encode_body;
use bone_api::session::auth_command;
use bone_api::session::ks_channel;
use bone_api::session::ks_with_float;
use bone_api::session::login_outcome;
use bone_api::session::request_token_command;
use bone_api::session::sync_filter;
use bone_api::session::token_from_response;
use bone_api::session::Bone;
use bone_api::shell::ipv6_link_local_string;
use bone_api::shell::parse_parameters;
use bone_api::shell::parse_shortcuts;
use bone_api::text::parse_int_i64;
use bone_api::value::Value;
use bone_api::wire::parse_cursor;
use bone_api::wire::parse_length_header;

fn obj(pairs: Vec<(&str, Value)>) -> Value {
    Value::Obj(
        pairs
            .into_iter()
            .map(|(k, v)| (k.to_string(), v))
            .collect(),
    )
}

fn s(text: &str) -> Value {
    Value::Str(text.to_string())
}

fn num(text: &str) -> Value {
    Value::Num(text.as_bytes().to_vec())
}

#[test]
fn json_prints_compactly() {
    let cmd = obj(vec![("command", s("request_token"))]);
    assert_eq!(to_json(&cmd), b"{\"command\":\"request_token\"}".to_vec());
}

#[test]
fn json_prints_all_shapes() {
    let v = obj(vec![
        ("a", Value::Null),
        ("b", Value::Bool(true)),
        ("c", Value::Bool(false)),
        ("d", num("-12.5e3")),
        ("e", Value::Arr(vec![num("1"), s("x")])),
    ]);
    assert_eq!(
        to_json(&v),
        b"{\"a\":null,\"b\":true,\"c\":false,\"d\":-12.5e3,\"e\":[1,\"x\"]}".to_vec()
    );
}

#[test]
fn json_escapes_strings() {
    let v = s("a\"b\\c\nd");
    assert_eq!(to_json(&v), b"\"a\\\"b\\\\c\\u000ad\"".to_vec());
}

#[test]
fn json_parses_what_it_prints() {
    let cmd = obj(vec![
        ("command", s("auth")),
        (
            "payload",
            obj(vec![
                ("signed_token", s("abc")),
                ("username", s("u\"se\\r")),
                ("depth", Value::Arr(vec![obj(vec![("x", num("3.5"))])])),
                ("flag", Value::Bool(false)),
                ("nothing", Value::Null),
            ]),
        ),
        ("api", num("2")),
    ]);
    let text = to_json(&cmd);
    let back = from_json(&text).unwrap();
    assert_eq!(back, cmd);
}

#[test]
fn json_parses_whitespace_and_escapes() {
    let text = b" { \"a\" : [ 1 , -2.5e-1, \"\\u0041\\t\" ] , \"b\" : null } ";
    let v = from_json(text).unwrap();
    let expected = obj(vec![
        ("a", Value::Arr(vec![num("1"), num("-2.5e-1"), s("A\t")])),
        ("b", Value::Null),
    ]);
    assert_eq!(v, expected);
}

#[test]
fn json_parses_unicode_escapes() {
    let v = from_json(b"\"\\u00e9\"").unwrap();
    assert_eq!(v, s("\u{e9}"));

    let v = from_json(b"\"\\u20ac\"").unwrap();
    assert_eq!(v, s("\u{20ac}"));

    // a surrogate pair for a code point beyond the basic plane
    let v = from_json(b"\"\\ud834\\udd1e\"").unwrap();
    assert_eq!(v, s("\u{1d11e}"));
}

#[test]
fn json_rejects_lone_surrogates() {
    assert!(from_json(b"\"\\udd1e\"").is_none());
    assert!(from_json(b"\"\\ud834\"").is_none());
    assert!(from_json(b"\"\\ud834x\"").is_none());
    assert!(from_json(b"\"\\ud834\\u0041\"").is_none());
}

#[test]
fn json_rejects_malformed_bodies() {
    assert!(from_json(b"").is_none());
    assert!(from_json(b"{").is_none());
    assert!(from_json(b"{\"a\":}").is_none());
    assert!(from_json(b"[1,]").is_none());
    assert!(from_json(b"true false").is_none());
    assert!(from_json(b"\"unterminated").is_none());
}

#[test]
fn msgpack_round_trip() {
    let cmd = obj(vec![
        ("command", s("sync")),
        (
            "payload",
            obj(vec![("filter", Value::Arr(vec![s("saw"), s("int")]))]),
        ),
        ("api", num("2")),
    ]);
    let bytes = encode_body(&cmd, true).unwrap();
    let back = decode_body(&bytes, true).unwrap();
    assert_eq!(back, cmd);
}

#[test]
fn msgpack_bytes_are_packed() {
    // {"a": 1} packs to a one-member fixmap, not to JSON text
    let cmd = obj(vec![("a", num("1"))]);
    let bytes = encode_body(&cmd, true).unwrap();
    assert_eq!(bytes, vec![0x81, 0xA1, b'a', 0x01]);
}

#[test]
fn msgpack_bytes_unpack() {
    // a one-member fixmap {"a": 1}, written out by hand
    let bytes = vec![0x81u8, 0xA1, b'a', 0x01];
    let v = decode_body(&bytes, true).unwrap();
    assert_eq!(v, obj(vec![("a", num("1"))]));
}

#[test]
fn json_mode_round_trip_through_bodies() {
    let cmd = obj(vec![("command", s("request_token"))]);
    let bytes = encode_body(&cmd, false).unwrap();
    let back = decode_body(&bytes, false).unwrap();
    assert_eq!(back, cmd);
}

#[test]
fn length_header_reads_hexadecimal() {
    assert_eq!(parse_length_header(b"0000000c").unwrap(), 12);
    assert_eq!(parse_length_header(b"000000FF").unwrap(), 255);
    assert_eq!(parse_length_header(b"ffffffff").unwrap(), 0xFFFF_FFFF);
    assert!(matches!(
        parse_length_header(b"0000zz00"),
        Err(BoneError::Framing(_))
    ));
}

#[test]
fn cursor_is_big_endian_signed() {
    assert_eq!(parse_cursor(&[0, 0, 0, 5]), 5);
    assert_eq!(parse_cursor(&[0xFF, 0xFF, 0xFF, 0xFF]), -1);
    assert_eq!(parse_cursor(&[0x80, 0, 0, 0]), i32::MIN);
    assert_eq!(parse_cursor(&[0x12, 0x34, 0x56, 0x78]), 0x1234_5678);
}

#[test]
fn signed_token_vector() {
    assert_eq!(
        get_sha512_string("pw"),
        "be196838736ddfd0007dd8b2e8f46f22d440d4c5959925cb49135abc9cdb01e8\
         4961aa43dd0ddb6ee59975eb649280d9f44088840af37451828a6412b9b574fc"
    );
    assert_eq!(
        get_signed_token("pw", "tok"),
        "4349380b1c14e1334bc767b903bcae2242e50698fc91c5abb88a14478eb9a516\
         537bab202fa55277d03f3ff595b72aa067329e1d84e8e55fedbedc9eacad68ad"
    );
}

#[test]
fn handshake_commands() {
    let first = request_token_command();
    assert_eq!(to_json(&first), b"{\"command\":\"request_token\"}".to_vec());
    let second = auth_command("user", "sig".to_string());
    assert_eq!(
        to_json(&second),
        b"{\"command\":\"auth\",\"payload\":{\"signed_token\":\"sig\",\"username\":\"user\"}}"
            .to_vec()
    );
}

#[test]
fn token_extraction() {
    let resp = obj(vec![("payload", obj(vec![("token", s("tok"))]))]);
    assert_eq!(token_from_response(&resp).unwrap(), "tok");

    let missing = obj(vec![("payload", obj(vec![]))]);
    assert!(matches!(
        token_from_response(&missing),
        Err(BoneError::Auth(_))
    ));

    let not_a_string = obj(vec![("payload", obj(vec![("token", num("1"))]))]);
    assert!(matches!(
        token_from_response(&not_a_string),
        Err(BoneError::Auth(_))
    ));
}

#[test]
fn login_fails_with_server_error_verbatim() {
    let resp = obj(vec![(
        "payload",
        obj(vec![("error", s("bad credentials")), ("username", s("u"))]),
    )]);
    match login_outcome(&resp) {
        Err(BoneError::Auth(msg)) => assert_eq!(msg, "bad credentials"),
        other => panic!("unexpected outcome: {:?}", other),
    }
}

#[test]
fn login_succeeds_with_username() {
    let resp = obj(vec![("payload", obj(vec![("username", s("u"))]))]);
    assert_eq!(login_outcome(&resp).unwrap(), "u");
}

#[test]
fn login_fails_without_username() {
    let bare = obj(vec![("payload", obj(vec![]))]);
    assert!(matches!(login_outcome(&bare), Err(BoneError::Auth(_))));

    let not_a_string = obj(vec![("payload", obj(vec![("username", num("1"))]))]);
    assert!(matches!(
        login_outcome(&not_a_string),
        Err(BoneError::Auth(_))
    ));
}

#[test]
fn ks_channel_reads_payload() {
    let cmd = obj(vec![("payload", obj(vec![("channel", num("3"))]))]);
    assert_eq!(ks_channel(&cmd), 3);

    let none = obj(vec![("command", s("ks"))]);
    assert_eq!(ks_channel(&none), 0);

    let not_numeric = obj(vec![("payload", obj(vec![("channel", s("3"))]))]);
    assert_eq!(ks_channel(&not_numeric), 0);
}

#[test]
fn ks_forces_float_flag() {
    let cmd = obj(vec![
        ("command", s("ks")),
        ("payload", obj(vec![("channel", num("1"))])),
    ]);
    let prepared = ks_with_float(cmd);
    assert_eq!(
        to_json(&prepared),
        b"{\"command\":\"ks\",\"payload\":{\"channel\":1,\"float\":true}}".to_vec()
    );

    let bare = obj(vec![("command", s("ks"))]);
    let prepared = ks_with_float(bare);
    assert_eq!(
        to_json(&prepared),
        b"{\"command\":\"ks\",\"payload\":{\"float\":true}}".to_vec()
    );
}

#[test]
fn sync_filter_reads_labels() {
    let cmd = obj(vec![(
        "payload",
        obj(vec![("filter", Value::Arr(vec![s("saw"), s("coe")]))]),
    )]);
    assert_eq!(sync_filter(&cmd), vec!["saw", "coe"]);
}

#[test]
fn sync_filter_default_order() {
    let cmd = obj(vec![("command", s("sync"))]);
    assert_eq!(sync_filter(&cmd), vec!["saw", "int2", "coe", "int"]);

    let not_array = obj(vec![("payload", obj(vec![("filter", s("saw"))]))]);
    assert_eq!(sync_filter(&not_array), vec!["saw", "int2", "coe", "int"]);
}

#[test]
fn session_state_machine() {
    let mut bone = Bone::new("localhost", "6451", false, true);
    assert_eq!(bone.get_connection_string(), "localhost:6451");
    assert!(bone.uses_ssl());
    assert!(!bone.msgpack_mode());
    assert!(!bone.is_connected());
    assert!(bone.set_connected().is_ok());
    assert!(bone.is_connected());
    assert!(matches!(
        bone.set_connected(),
        Err(BoneError::Connection(_))
    ));
    bone.set_closed();
    assert!(!bone.is_connected());
    assert!(bone.set_connected().is_err());
}

#[test]
fn encode_command_frames_with_terminator() {
    let bone = Bone::new("h", "1", false, false);
    let cmd = obj(vec![("command", s("request_token"))]);
    let frame = bone.encode_command(&cmd).unwrap();
    assert_eq!(frame, b"{\"command\":\"request_token\"}\r\n".to_vec());
}

#[test]
fn decode_response_both_modes() {
    let json_bone = Bone::new("h", "1", false, false);
    let v = json_bone.decode_response(b"{\"payload\":{\"token\":\"t\"}}").unwrap();
    assert_eq!(
        v,
        obj(vec![("payload", obj(vec![("token", s("t"))]))])
    );
    assert!(matches!(
        json_bone.decode_response(b"{oops"),
        Err(BoneError::Serialization(_))
    ));

    let pack_bone = Bone::new("h", "1", true, false);
    let cmd = obj(vec![("command", s("x"))]);
    let bytes = encode_body(&cmd, true).unwrap();
    assert_eq!(pack_bone.decode_response(&bytes).unwrap(), cmd);
    assert!(matches!(
        pack_bone.decode_response(&[0xC1]),
        Err(BoneError::Serialization(_))
    ));
}

#[test]
fn shortcuts_expand() {
    assert_eq!(parse_shortcuts("cd"), "channel_data");
    assert_eq!(parse_shortcuts("ca"), "channel_attributes");
    assert_eq!(parse_shortcuts("sn"), "serial_number");
    assert_eq!(parse_shortcuts("bt"), "board_temp");
    assert_eq!(parse_shortcuts("sync"), "sync");
}

#[test]
fn parameters_expand() {
    let v = parse_parameters("channel_data", "--all", 2);
    assert_eq!(
        to_json(&v),
        b"{\"command\":\"channel_data\",\"payload\":{\"all\":true},\"api\":2}".to_vec()
    );
    let v = parse_parameters("channel_data", "--hidden", 2);
    assert_eq!(
        to_json(&v),
        b"{\"command\":\"channel_data\",\"payload\":{\"all\":true,\"hidden\":true},\"api\":2}"
            .to_vec()
    );
    let v = parse_parameters("channel_attributes", "--list", 2);
    assert_eq!(
        to_json(&v),
        b"{\"command\":\"channel_attributes\",\"payload\":{\"all\":true,\"filter\":[\"\"],\"hidden\":true},\"api\":2}"
            .to_vec()
    );
    let v = parse_parameters("channel_data", "temp1", 2);
    assert_eq!(
        to_json(&v),
        b"{\"command\":\"channel_data\",\"payload\":{\"name\":\"temp1\"},\"api\":2}".to_vec()
    );
    let v = parse_parameters("sync", "coe", 3);
    assert_eq!(
        to_json(&v),
        b"{\"command\":\"sync\",\"payload\":{\"filter\":[\"coe\"]},\"api\":3}".to_vec()
    );
    let v = parse_parameters("board_temp", "anything", 2);
    assert_eq!(to_json(&v), b"{\"command\":\"board_temp\",\"api\":2}".to_vec());
}

#[test]
fn link_local_address_text() {
    assert_eq!(
        ipv6_link_local_string(0x1234, "eth0"),
        "fe80::b5:b1ff:fe12:34%eth0"
    );
    assert_eq!(
        ipv6_link_local_string(7, "enp3s0"),
        "fe80::b5:b1ff:fe00:07%enp3s0"
    );
}

#[test]
fn value_accessors() {
    let v = obj(vec![("a", num("42")), ("b", s("x"))]);
    assert_eq!(v.get("a").unwrap().as_i64().unwrap(), 42);
    assert_eq!(v.get("b").unwrap().as_str().unwrap(), "x");
    assert!(v.get("c").is_none());
    assert!(v.get("b").unwrap().is_string());
    assert!(v.get("a").unwrap().is_number());
    assert!(!v.is_array());

    assert_eq!(num("-7").as_i64().unwrap(), -7);
    assert!(num("1.5").as_i64().is_none());
    assert_eq!(
        parse_int_i64(b"-9223372036854775808").unwrap(),
        i64::MIN
    );
    assert_eq!(parse_int_i64(b"9223372036854775807").unwrap(), i64::MAX);
    assert!(parse_int_i64(b"9223372036854775808").is_none());
    assert!(parse_int_i64(b"-9223372036854775809").is_none());
}

#[test]
fn deep_clone_is_equal() {
    let v = obj(vec![
        ("a", Value::Arr(vec![num("1"), obj(vec![("b", s("c"))])])),
    ]);
    let c = v.deep_clone();
    assert_eq!(c, v);
}
