//! Pure helpers of the interactive front end: command shortcuts, shorthand
//! parameter expansion, and the link-local address derived from a serial
//! number.
use vstd::prelude::*;
use vstd::slice::slice_to_vec;
use vstd::slice::slice_subrange;
use vstd::string::StringExecFns;
use vstd::string::StringSliceAdditionalSpecFns;
use vstd::utf8::encode_utf8;
use vstd::utf8::encode_utf8_decode_utf8;
use vstd::utf8::encode_utf8_valid_utf8;
use crate::text::chars_of_ascii;
use crate::text::dec_bytes;
use crate::text::hex_bytes;
use crate::text::lemma_ascii_chars;
use crate::text::lemma_encode_utf8_concat;
use crate::text::push_dec_u64;
use crate::text::push_hex_u32;
use crate::text::string_from_utf8;
use crate::value::Model;
use crate::value::Value;
use crate::value::lemma_view_list;
use crate::value::lemma_view_pairs;
use crate::value::str_eq;
use crate::value::view_list;
use crate::value::view_pairs;

verus! {

/// The full command name a shell shortcut stands for.
pub open spec fn shortcut_of(c: Seq<char>) -> Seq<char> {
    if c == "cd"@ {
        "channel_data"@
    } else if c == "ca"@ {
        "channel_attributes"@
    } else if c == "sn"@ {
        "serial_number"@
    } else if c == "bt"@ {
        "board_temp"@
    } else {
        c
    }
}

/// Expands a shell shortcut; any other word stands for itself.
pub fn parse_shortcuts<'a>(command: &'a str) -> (r: &'a str)
    ensures
        r@ == shortcut_of(command@),
{
    if str_eq(command, "cd") {
        "channel_data"
    } else if str_eq(command, "ca") {
        "channel_attributes"
    } else if str_eq(command, "sn") {
        "serial_number"
    } else if str_eq(command, "bt") {
        "board_temp"
    } else {
        command
    }
}

/// The number value of an API revision.
pub fn num_of_u32(n: u32) -> (r: Value)
    ensures
        r@ == Model::Num(dec_bytes(n as nat)),
{
    let mut bytes: Vec<u8> = Vec::new();
    push_dec_u64(n as u64, &mut bytes);
    Value::Num(bytes)
}

/// The command a shorthand line expands to.
///
/// `channel_data` and `channel_attributes` take `--all`, `--hidden` and
/// `--list` switches or a channel name; `sync` and `sync_json` wrap the
/// argument as a one-label filter; every other command ignores the argument.
pub open spec fn parameters_model(command: Seq<char>, argument: Seq<char>, api: int) -> Model {
    let api_m = Model::Num(dec_bytes(api as nat));
    if command == "channel_data"@ || command == "channel_attributes"@ {
        if argument == "--all"@ {
            obj3(command, Model::Obj(seq![("all"@, Model::Bool(true))]), api_m)
        } else if argument == "--hidden"@ {
            obj3(
                command,
                Model::Obj(seq![("all"@, Model::Bool(true)), ("hidden"@, Model::Bool(true))]),
                api_m,
            )
        } else if argument == "--list"@ {
            obj3(
                command,
                Model::Obj(
                    seq![
                        ("all"@, Model::Bool(true)),
                        ("filter"@, Model::Arr(seq![Model::Str(""@)])),
                        ("hidden"@, Model::Bool(true)),
                    ],
                ),
                api_m,
            )
        } else {
            obj3(command, Model::Obj(seq![("name"@, Model::Str(argument))]), api_m)
        }
    } else if command == "sync"@ || command == "sync_json"@ {
        obj3(command, Model::Obj(seq![("filter"@, Model::Arr(seq![Model::Str(argument)]))]), api_m)
    } else {
        Model::Obj(seq![("command"@, Model::Str(command)), ("api"@, api_m)])
    }
}

/// A command object with a payload: `command`, `payload`, `api`.
pub open spec fn obj3(command: Seq<char>, payload: Model, api_m: Model) -> Model {
    Model::Obj(
        seq![
            ("command"@, Model::Str(command)),
            ("payload"@, payload),
            ("api"@, api_m),
        ],
    )
}

fn build3(command: &str, payload: Value, api: u32) -> (r: Value)
    ensures
        r@ == obj3(command@, payload@, Model::Num(dec_bytes(api as nat))),
{
    let ghost pm = payload@;
    let mut pairs: Vec<(String, Value)> = Vec::new();
    pairs.push((String::from_str("command"), Value::Str(command.to_owned())));
    pairs.push((String::from_str("payload"), payload));
    pairs.push((String::from_str("api"), num_of_u32(api)));
    proof {
        lemma_view_pairs(pairs@);
        assert(view_pairs(pairs@).len() == 3);
        assert(view_pairs(pairs@)[0] == (pairs@[0].0@, crate::value::view_of(pairs@[0].1)));
        assert(view_pairs(pairs@)[1] == (pairs@[1].0@, crate::value::view_of(pairs@[1].1)));
        assert(view_pairs(pairs@)[2] == (pairs@[2].0@, crate::value::view_of(pairs@[2].1)));
        assert(view_pairs(pairs@) =~= seq![
            ("command"@, Model::Str(command@)),
            ("payload"@, pm),
            ("api"@, Model::Num(dec_bytes(api as nat))),
        ]);
    }
    Value::Obj(pairs)
}

fn obj1(key: &str, v: Value) -> (r: Value)
    ensures
        r@ == Model::Obj(seq![(key@, crate::value::view_of(v))]),
{
    let ghost vm = v@;
    let mut pairs: Vec<(String, Value)> = Vec::new();
    pairs.push((String::from_str(key), v));
    proof {
        lemma_view_pairs(pairs@);
        assert(view_pairs(pairs@) =~= seq![(key@, vm)]);
    }
    Value::Obj(pairs)
}

fn bool_pair(key: &str) -> (r: (String, Value))
    ensures
        r.0@ == key@,
        r.1@ == Model::Bool(true),
{
    (String::from_str(key), Value::Bool(true))
}

/// Builds the command a shorthand line with an argument expands to.
pub fn parse_parameters(command: &str, argument: &str, api: u32) -> (r: Value)
    ensures
        r@ == parameters_model(command@, argument@, api as int),
{
    if str_eq(command, "channel_data") || str_eq(command, "channel_attributes") {
        if str_eq(argument, "--all") {
            let payload = obj1("all", Value::Bool(true));
            build3(command, payload, api)
        } else if str_eq(argument, "--hidden") {
            let mut pairs: Vec<(String, Value)> = Vec::new();
            pairs.push(bool_pair("all"));
            pairs.push(bool_pair("hidden"));
            proof {
                lemma_view_pairs(pairs@);
                assert(view_pairs(pairs@).len() == 2);
                assert(view_pairs(pairs@)[0] == (pairs@[0].0@, crate::value::view_of(
                    pairs@[0].1,
                )));
                assert(view_pairs(pairs@)[1] == (pairs@[1].0@, crate::value::view_of(
                    pairs@[1].1,
                )));
                assert(view_pairs(pairs@) =~= seq![
                    ("all"@, Model::Bool(true)),
                    ("hidden"@, Model::Bool(true)),
                ]);
            }
            build3(command, Value::Obj(pairs), api)
        } else if str_eq(argument, "--list") {
            let mut filter_items: Vec<Value> = Vec::new();
            filter_items.push(Value::Str(String::new()));
            proof {
                lemma_view_list(filter_items@);
                reveal_strlit("");
                assert(""@ =~= Seq::<char>::empty());
                assert(view_list(filter_items@) =~= seq![Model::Str(""@)]);
            }
            let mut pairs: Vec<(String, Value)> = Vec::new();
            pairs.push(bool_pair("all"));
            pairs.push((String::from_str("filter"), Value::Arr(filter_items)));
            pairs.push(bool_pair("hidden"));
            proof {
                lemma_view_pairs(pairs@);
                assert(view_pairs(pairs@).len() == 3);
                assert(view_pairs(pairs@)[0] == (pairs@[0].0@, crate::value::view_of(
                    pairs@[0].1,
                )));
                assert(view_pairs(pairs@)[1] == (pairs@[1].0@, crate::value::view_of(
                    pairs@[1].1,
                )));
                assert(view_pairs(pairs@)[2] == (pairs@[2].0@, crate::value::view_of(
                    pairs@[2].1,
                )));
                assert(view_pairs(pairs@) =~= seq![
                    ("all"@, Model::Bool(true)),
                    ("filter"@, Model::Arr(seq![Model::Str(""@)])),
                    ("hidden"@, Model::Bool(true)),
                ]);
            }
            build3(command, Value::Obj(pairs), api)
        } else {
            let payload = obj1("name", Value::Str(argument.to_owned()));
            build3(command, payload, api)
        }
    } else if str_eq(command, "sync") || str_eq(command, "sync_json") {
        let mut filter_items: Vec<Value> = Vec::new();
        filter_items.push(Value::Str(argument.to_owned()));
        proof {
            lemma_view_list(filter_items@);
            assert(view_list(filter_items@) =~= seq![Model::Str(argument@)]);
        }
        let payload = obj1("filter", Value::Arr(filter_items));
        build3(command, payload, api)
    } else {
        let mut pairs: Vec<(String, Value)> = Vec::new();
        pairs.push((String::from_str("command"), Value::Str(command.to_owned())));
        pairs.push((String::from_str("api"), num_of_u32(api)));
        proof {
            lemma_view_pairs(pairs@);
            assert(view_pairs(pairs@).len() == 2);
            assert(view_pairs(pairs@)[0] == (pairs@[0].0@, crate::value::view_of(
                pairs@[0].1,
            )));
            assert(view_pairs(pairs@)[1] == (pairs@[1].0@, crate::value::view_of(
                pairs@[1].1,
            )));
            assert(view_pairs(pairs@) =~= seq![
                ("command"@, Model::Str(command@)),
                ("api"@, Model::Num(dec_bytes(api as nat))),
            ]);
        }
        Value::Obj(pairs)
    }
}

/// The hexadecimal numeral of `n`, zero-padded to at least four digits.
pub open spec fn hex_min4(n: nat) -> Seq<u8> {
    if n < 0x10 {
        seq![48u8, 48u8, 48u8] + hex_bytes(n)
    } else if n < 0x100 {
        seq![48u8, 48u8] + hex_bytes(n)
    } else if n < 0x1000 {
        seq![48u8] + hex_bytes(n)
    } else {
        hex_bytes(n)
    }
}

/// The characters of the link-local address derived from a serial number:
/// the padded hexadecimal serial split after its second digit, on the given
/// interface.
pub open spec fn ipv6_link_local_chars(serial: nat, interface: Seq<char>) -> Seq<char> {
    "fe80::b5:b1ff:fe"@ + chars_of_ascii(hex_min4(serial).take(2)) + ":"@ + chars_of_ascii(
        hex_min4(serial).skip(2),
    ) + "%"@ + interface
}

pub proof fn lemma_hex_bytes_range(n: nat)
    ensures
        forall|i: int|
            0 <= i < hex_bytes(n).len() ==> ((48 <= #[trigger] hex_bytes(n)[i] <= 57) || (97
                <= hex_bytes(n)[i] <= 102)),
    decreases n,
{
    if n >= 16 {
        lemma_hex_bytes_range(n / 16);
        assert forall|i: int|
            0 <= i < hex_bytes(n).len() implies ((48 <= #[trigger] hex_bytes(n)[i] <= 57) || (
        97 <= hex_bytes(n)[i] <= 102)) by {
            if i < hex_bytes(n).len() - 1 {
                assert(hex_bytes(n)[i] == hex_bytes(n / 16)[i]);
            }
        }
    }
}

pub proof fn lemma_hex_bytes_len(n: nat)
    ensures
        hex_bytes(n).len() >= 1,
        n >= 0x10 ==> hex_bytes(n).len() >= 2,
        n >= 0x100 ==> hex_bytes(n).len() >= 3,
        n >= 0x1000 ==> hex_bytes(n).len() >= 4,
    decreases n,
{
    if n >= 16 {
        lemma_hex_bytes_len(n / 16);
    }
}

/// Builds the link-local address string of a device from its serial number
/// and the interface to reach it on.
pub fn ipv6_link_local_string(serial: u32, interface: &str) -> (r: String)
    ensures
        r@ == ipv6_link_local_chars(serial as nat, interface@),
{
    let mut h: Vec<u8> = Vec::new();
    if serial < 0x10 {
        h.push(48);
        h.push(48);
        h.push(48);
    } else if serial < 0x100 {
        h.push(48);
        h.push(48);
    } else if serial < 0x1000 {
        h.push(48);
    }
    push_hex_u32(serial, &mut h);
    proof {
        assert(h@ =~= hex_min4(serial as nat));
        lemma_hex_bytes_range(serial as nat);
        lemma_hex_bytes_len(serial as nat);
        assert(h@.len() >= 4);
        assert(forall|i: int| 0 <= i < h@.len() ==> #[trigger] h@[i] < 128);
    }
    let left = slice_to_vec(slice_subrange(h.as_slice(), 0, 2));
    let hl = h.len();
    let right = slice_to_vec(slice_subrange(h.as_slice(), 2, hl));
    let mut out: Vec<u8> = slice_to_vec("fe80::b5:b1ff:fe".as_bytes());
    out.extend_from_slice(left.as_slice());
    out.extend_from_slice(":".as_bytes());
    out.extend_from_slice(right.as_slice());
    out.extend_from_slice("%".as_bytes());
    out.extend_from_slice(interface.as_bytes());
    proof {
        let full = ipv6_link_local_chars(serial as nat, interface@);
        lemma_ascii_chars(h@.take(2));
        lemma_ascii_chars(h@.skip(2));
        let e4 = "%"@ + interface@;
        let e3 = chars_of_ascii(h@.skip(2)) + e4;
        let e2 = ":"@ + e3;
        let e1 = chars_of_ascii(h@.take(2)) + e2;
        assert(full =~= "fe80::b5:b1ff:fe"@ + e1);
        lemma_encode_utf8_concat("fe80::b5:b1ff:fe"@, e1);
        lemma_encode_utf8_concat(chars_of_ascii(h@.take(2)), e2);
        lemma_encode_utf8_concat(":"@, e3);
        lemma_encode_utf8_concat(chars_of_ascii(h@.skip(2)), e4);
        lemma_encode_utf8_concat("%"@, interface@);
        assert(encode_utf8(chars_of_ascii(h@.take(2))) == h@.take(2));
        assert(encode_utf8(chars_of_ascii(h@.skip(2))) == h@.skip(2));
        assert(encode_utf8(full) == encode_utf8("fe80::b5:b1ff:fe"@) + (h@.take(2) + (
        encode_utf8(":"@) + (h@.skip(2) + (encode_utf8("%"@) + encode_utf8(
            interface@,
        ))))));
        assert(out@ =~= encode_utf8(full));
        encode_utf8_valid_utf8(full);
        encode_utf8_decode_utf8(full);
    }
    string_from_utf8(out).unwrap()
}

} // verus!
