//! The JSON wire form of a `Value`: a verified printer and parser working on
//! the raw body bytes.
use vstd::prelude::*;
use vstd::slice::slice_subrange;
use vstd::slice::slice_to_vec;
use vstd::utf8::encode_utf8;
use crate::text::hex_digit_byte;
use crate::value::Model;
use crate::value::is_num_byte;
use crate::value::is_num_token;
use crate::value::wf_model;
use crate::text::all_hex_digits;
use crate::text::hex_val;
use vstd::utf8::valid_utf8;
use vstd::utf8::decode_utf8;
use vstd::utf8::encode_scalar;
use vstd::utf8::is_scalar;
use crate::value::Value;
use crate::value::view_list;
use crate::value::view_pairs;
use crate::value::lemma_view_list;
use crate::value::lemma_view_pairs;

verus! {

/// The bytes a single string byte prints as: quote and backslash get a
/// backslash, control bytes become `\u00XX`, all else stands as itself.
pub open spec fn escape_byte(x: u8) -> Seq<u8> {
    if x == 34 {
        seq![92u8, 34u8]
    } else if x == 92 {
        seq![92u8, 92u8]
    } else if x < 32 {
        seq![92u8, 117u8, 48u8, 48u8, hex_digit_byte(x as int / 16), hex_digit_byte(
            x as int % 16,
        )]
    } else {
        seq![x]
    }
}

pub open spec fn escape_bytes(b: Seq<u8>) -> Seq<u8>
    decreases b.len(),
{
    if b.len() == 0 {
        Seq::empty()
    } else {
        escape_byte(b[0]) + escape_bytes(b.drop_first())
    }
}

/// The printed form of a string: its UTF-8 bytes escaped, in quotes.
pub open spec fn jser_string(s: Seq<char>) -> Seq<u8> {
    seq![34u8] + escape_bytes(encode_utf8(s)) + seq![34u8]
}

/// The JSON text of a value, as bytes: compact, with no whitespace.
pub open spec fn jser(m: Model) -> Seq<u8>
    decreases m, 1int,
{
    match m {
        Model::Null => seq![110u8, 117u8, 108u8, 108u8],
        Model::Bool(b) => if b {
            seq![116u8, 114u8, 117u8, 101u8]
        } else {
            seq![102u8, 97u8, 108u8, 115u8, 101u8]
        },
        Model::Num(b) => b,
        Model::Str(s) => jser_string(s),
        Model::Arr(items) => seq![91u8] + jser_list(items) + seq![93u8],
        Model::Obj(pairs) => seq![123u8] + jser_pairs(pairs) + seq![125u8],
    }
}

/// The members of an array body: values separated by commas.
pub open spec fn jser_list(items: Seq<Model>) -> Seq<u8>
    decreases items, 0int,
{
    if items.len() == 0 {
        Seq::empty()
    } else if items.len() == 1 {
        jser(items[0])
    } else {
        jser(items[0]) + seq![44u8] + jser_list(items.drop_first())
    }
}

/// The members of an object body: quoted keys, colons, values, commas.
pub open spec fn jser_pairs(pairs: Seq<(Seq<char>, Model)>) -> Seq<u8>
    decreases pairs, 0int,
{
    if pairs.len() == 0 {
        Seq::empty()
    } else {
        let head = jser_string(pairs[0].0) + seq![58u8] + jser(pairs[0].1);
        if pairs.len() == 1 {
            head
        } else {
            head + seq![44u8] + jser_pairs(pairs.drop_first())
        }
    }
}

fn write_escaped(s: &str, out: &mut Vec<u8>)
    ensures
        final(out)@ == old(out)@ + jser_string(s@),
{
    out.push(34);
    let bs = s.as_bytes();
    let ghost content = encode_utf8(s@);
    let mut i: usize = 0;
    while i < bs.len()
        invariant
            bs@ == content,
            i <= bs@.len(),
            out@ == old(out)@ + seq![34u8] + escape_bytes(content.take(i as int)),
        decreases bs@.len() - i,
    {
        let ghost pre = out@;
        let x = bs[i];
        if x == 34 {
            out.push(92);
            out.push(34);
        } else if x == 92 {
            out.push(92);
            out.push(92);
        } else if x < 32 {
            out.push(92);
            out.push(117);
            out.push(48);
            out.push(48);
            let hi = crate::text::hex_digit_byte_of(x / 16);
            out.push(hi);
            let lo = crate::text::hex_digit_byte_of(x % 16);
            out.push(lo);
        } else {
            out.push(x);
        }
        proof {
            assert(out@ =~= pre + escape_byte(x));
            lemma_escape_bytes_snoc(content, i as int);
            assert(out@ =~= old(out)@ + seq![34u8] + escape_bytes(
                content.take(i as int + 1),
            ));
        }
        i += 1;
    }
    out.push(34);
    proof {
        assert(content.take(content.len() as int) =~= content);
        assert(out@ =~= old(out)@ + jser_string(s@));
    }
}

proof fn lemma_escape_bytes_snoc(b: Seq<u8>, i: int)
    requires
        0 <= i < b.len(),
    ensures
        escape_bytes(b.take(i + 1)) == escape_bytes(b.take(i)) + escape_byte(b[i]),
    decreases i,
{
    if i == 0 {
        assert(b.take(1).drop_first() =~= Seq::<u8>::empty());
        assert(b.take(1)[0] == b[0]);
        assert(escape_bytes(b.take(0)) =~= Seq::<u8>::empty());
        assert(escape_bytes(Seq::<u8>::empty()) =~= Seq::<u8>::empty());
        assert(escape_bytes(b.take(1)) =~= escape_byte(b[0]) + escape_bytes(
            b.take(1).drop_first(),
        ));
        assert(escape_bytes(b.take(1)) =~= escape_byte(b[0]));
    } else {
        lemma_escape_bytes_snoc(b.drop_first(), i - 1);
        assert(b.take(i + 1).drop_first() =~= b.drop_first().take(i));
        assert(b.take(i).drop_first() =~= b.drop_first().take(i - 1));
        assert(b.take(i + 1)[0] == b[0]);
        assert(b.take(i)[0] == b[0]);
        assert(b.drop_first()[i - 1] == b[i]);
        assert(escape_bytes(b.take(i + 1)) =~= escape_byte(b[0]) + escape_bytes(
            b.drop_first().take(i),
        ));
        assert(escape_byte(b[0]) + (escape_bytes(b.drop_first().take(i - 1)) + escape_byte(
            b[i],
        )) =~= (escape_byte(b[0]) + escape_bytes(b.drop_first().take(i - 1))) + escape_byte(
            b[i],
        ));
        assert(escape_bytes(b.take(i)) =~= escape_byte(b[0]) + escape_bytes(
            b.drop_first().take(i - 1),
        ));
    }
}

proof fn lemma_jser_list_snoc(items: Seq<Model>, i: int)
    requires
        0 <= i < items.len(),
    ensures
        jser_list(items.take(i + 1)) == jser_list(items.take(i)) + (if i == 0 {
            jser(items[i])
        } else {
            seq![44u8] + jser(items[i])
        }),
    decreases i,
{
    if i == 0 {
        assert(items.take(1)[0] == items[0]);
        assert(items.take(1).len() == 1);
        assert(jser_list(items.take(0)) =~= Seq::<u8>::empty());
        assert(jser_list(items.take(1)) =~= jser(items[0]));
    } else {
        lemma_jser_list_snoc(items.drop_first(), i - 1);
        assert(items.take(i + 1).drop_first() =~= items.drop_first().take(i));
        assert(items.take(i).drop_first() =~= items.drop_first().take(i - 1));
        assert(items.take(i + 1)[0] == items[0]);
        assert(items.take(i)[0] == items[0]);
        assert(items.drop_first()[i - 1] == items[i]);
        if i == 1 {
            assert(jser_list(items.take(2)) =~= jser(items[0]) + seq![44u8] + jser(
                items[1],
            ));
            assert(jser_list(items.take(1)) =~= jser(items[0]));
            assert(jser_list(items.take(1)) + (seq![44u8] + jser(items[1])) =~= jser_list(
                items.take(2),
            ));
        } else {
            assert(jser_list(items.take(i + 1)) =~= jser(items[0]) + seq![44u8]
                + jser_list(items.drop_first().take(i)));
            assert(jser_list(items.take(i)) =~= jser(items[0]) + seq![44u8] + jser_list(
                items.drop_first().take(i - 1),
            ));
            assert(jser_list(items.take(i)) + (seq![44u8] + jser(items[i])) =~= jser(
                items[0],
            ) + seq![44u8] + (jser_list(items.drop_first().take(i - 1)) + (seq![44u8]
                + jser(items.drop_first()[i - 1]))));
        }
    }
}

proof fn lemma_jser_pairs_snoc(pairs: Seq<(Seq<char>, Model)>, i: int)
    requires
        0 <= i < pairs.len(),
    ensures
        jser_pairs(pairs.take(i + 1)) == jser_pairs(pairs.take(i)) + (if i == 0 {
            jser_string(pairs[i].0) + seq![58u8] + jser(pairs[i].1)
        } else {
            seq![44u8] + (jser_string(pairs[i].0) + seq![58u8] + jser(pairs[i].1))
        }),
    decreases i,
{
    let entry = jser_string(pairs[i].0) + seq![58u8] + jser(pairs[i].1);
    if i == 0 {
        assert(pairs.take(1)[0] == pairs[0]);
        assert(pairs.take(1).len() == 1);
        assert(jser_pairs(pairs.take(0)) =~= Seq::<u8>::empty());
        assert(jser_pairs(pairs.take(1)) =~= entry);
    } else {
        lemma_jser_pairs_snoc(pairs.drop_first(), i - 1);
        assert(pairs.take(i + 1).drop_first() =~= pairs.drop_first().take(i));
        assert(pairs.take(i).drop_first() =~= pairs.drop_first().take(i - 1));
        assert(pairs.take(i + 1)[0] == pairs[0]);
        assert(pairs.take(i)[0] == pairs[0]);
        assert(pairs.drop_first()[i - 1] == pairs[i]);
        let head = jser_string(pairs[0].0) + seq![58u8] + jser(pairs[0].1);
        if i == 1 {
            assert(jser_pairs(pairs.take(2)) =~= head + seq![44u8] + entry);
            assert(jser_pairs(pairs.take(1)) =~= head);
            assert(jser_pairs(pairs.take(1)) + (seq![44u8] + entry) =~= jser_pairs(
                pairs.take(2),
            ));
        } else {
            assert(jser_pairs(pairs.take(i + 1)) =~= head + seq![44u8] + jser_pairs(
                pairs.drop_first().take(i),
            ));
            assert(jser_pairs(pairs.take(i)) =~= head + seq![44u8] + jser_pairs(
                pairs.drop_first().take(i - 1),
            ));
            assert(jser_pairs(pairs.take(i)) + (seq![44u8] + entry) =~= head + seq![44u8]
                + (jser_pairs(pairs.drop_first().take(i - 1)) + (seq![44u8] + (jser_string(
                pairs.drop_first()[i - 1].0,
            ) + seq![58u8] + jser(pairs.drop_first()[i - 1].1)))));
        }
    }
}

/// Appends the JSON text of `v` to `out`.
fn write_value(v: &Value, out: &mut Vec<u8>)
    ensures
        final(out)@ == old(out)@ + jser(v@),
    decreases *v,
{
    match v {
        Value::Null => {
            out.push(110);
            out.push(117);
            out.push(108);
            out.push(108);
            proof {
                assert(out@ =~= old(out)@ + jser(v@));
            }
        },
        Value::Bool(b) => {
            if *b {
                out.push(116);
                out.push(114);
                out.push(117);
                out.push(101);
            } else {
                out.push(102);
                out.push(97);
                out.push(108);
                out.push(115);
                out.push(101);
            }
            proof {
                assert(out@ =~= old(out)@ + jser(v@));
            }
        },
        Value::Num(b) => {
            out.extend_from_slice(b.as_slice());
            proof {
                assert(out@ =~= old(out)@ + jser(v@));
            }
        },
        Value::Str(s) => {
            write_escaped(s.as_str(), out);
            proof {
                assert(out@ =~= old(out)@ + jser(v@));
            }
        },
        Value::Arr(items) => {
            proof {
                lemma_view_list(items@);
            }
            let ghost ms = view_list(items@);
            out.push(91);
            let mut j: usize = 0;
            while j < items.len()
                invariant
                    v == Value::Arr(*items),
                    ms == view_list(items@),
                    ms.len() == items@.len(),
                    forall|t: int|
                        0 <= t < items@.len() ==> ms[t] == view_of_item(items@, t),
                    j <= items@.len(),
                    out@ == old(out)@ + seq![91u8] + jser_list(ms.take(j as int)),
                decreases items@.len() - j,
            {
                let ghost pre = out@;
                if j > 0 {
                    out.push(44);
                }
                proof {
                    assert(*v == Value::Arr(*items));
                    assert(v->Arr_0 == *items);
                    assert(decreases_to!(*v => v->Arr_0));
                    assert(decreases_to!(*items => items@));
                    assert(decreases_to!(items@ => items@[j as int]));
                }
                write_value(&items[j], out);
                proof {
                    lemma_jser_list_snoc(ms, j as int);
                    if j > 0 {
                        assert(out@ =~= pre + (seq![44u8] + jser(ms[j as int])));
                    } else {
                        assert(out@ =~= pre + jser(ms[0]));
                    }
                }
                j += 1;
            }
            out.push(93);
            proof {
                assert(ms.take(ms.len() as int) =~= ms);
                assert(out@ =~= old(out)@ + jser(v@));
            }
        },
        Value::Obj(pairs) => {
            proof {
                lemma_view_pairs(pairs@);
            }
            let ghost ms = view_pairs(pairs@);
            out.push(123);
            let mut j: usize = 0;
            while j < pairs.len()
                invariant
                    v == Value::Obj(*pairs),
                    ms == view_pairs(pairs@),
                    ms.len() == pairs@.len(),
                    forall|t: int|
                        0 <= t < pairs@.len() ==> ms[t] == view_of_pair(pairs@, t),
                    j <= pairs@.len(),
                    out@ == old(out)@ + seq![123u8] + jser_pairs(ms.take(j as int)),
                decreases pairs@.len() - j,
            {
                let ghost pre = out@;
                if j > 0 {
                    out.push(44);
                }
                write_escaped(pairs[j].0.as_str(), out);
                out.push(58);
                proof {
                    assert(*v == Value::Obj(*pairs));
                    assert(v->Obj_0 == *pairs);
                    assert(decreases_to!(*v => v->Obj_0));
                    assert(decreases_to!(*pairs => pairs@));
                    assert(decreases_to!(pairs@ => pairs@[j as int]));
                    assert(decreases_to!(pairs@[j as int] => pairs@[j as int].1));
                }
                write_value(&pairs[j].1, out);
                proof {
                    lemma_jser_pairs_snoc(ms, j as int);
                    let entry = jser_string(ms[j as int].0) + seq![58u8] + jser(
                        ms[j as int].1,
                    );
                    if j > 0 {
                        assert(out@ =~= pre + (seq![44u8] + entry));
                    } else {
                        assert(out@ =~= pre + entry);
                    }
                }
                j += 1;
            }
            out.push(125);
            proof {
                assert(ms.take(ms.len() as int) =~= ms);
                assert(out@ =~= old(out)@ + jser(v@));
            }
        },
    }
}

pub open spec fn view_of_item(items: Seq<Value>, t: int) -> Model {
    crate::value::view_of(items[t])
}

pub open spec fn view_of_pair(pairs: Seq<(String, Value)>, t: int) -> (Seq<char>, Model) {
    (pairs[t].0@, crate::value::view_of(pairs[t].1))
}

/// A JSON whitespace byte.
pub open spec fn is_ws(b: u8) -> bool {
    b == 32 || b == 9 || b == 10 || b == 13
}

/// End of the run of number bytes that begins at `i`.
pub open spec fn scan_num(s: Seq<u8>, i: int) -> int
    decreases s.len() - i,
    when 0 <= i <= s.len()
{
    if i < s.len() && is_num_byte(s[i]) {
        scan_num(s, i + 1)
    } else {
        i
    }
}

/// Content bytes of a string, read after its opening quote: plain bytes, the
/// escapes `\" \\ \/ \b \f \n \r \t`, and `\uXXXX` for any code point, a
/// high surrogate paired with the low surrogate escaped after it. Yields the
/// unescaped bytes, UTF-8-encoded, and the position after the closing quote.
pub open spec fn parse_string_bytes(s: Seq<u8>, i: int) -> Option<(Seq<u8>, int)>
    decreases s.len() - i,
    when 0 <= i <= s.len()
{
    if i >= s.len() {
        None
    } else if s[i] == 34 {
        Some((Seq::empty(), i + 1))
    } else if s[i] == 92 {
        if i + 1 >= s.len() {
            None
        } else if s[i + 1] == 117 {
            if i + 6 <= s.len() && all_hex_digits(s.subrange(i + 2, i + 6)) {
                let code = hex_val(s.subrange(i + 2, i + 6));
                if 0xD800 <= code < 0xDC00 {
                    if i + 12 <= s.len() && s[i + 6] == 92 && s[i + 7] == 117
                        && all_hex_digits(s.subrange(i + 8, i + 12)) && 0xDC00 <= hex_val(
                        s.subrange(i + 8, i + 12),
                    ) < 0xE000 {
                        let low = hex_val(s.subrange(i + 8, i + 12));
                        let scalar = 0x10000 + (code - 0xD800) * 0x400 + (low - 0xDC00);
                        match parse_string_bytes(s, i + 12) {
                            None => None,
                            Some((rest, k)) => Some(
                                (encode_scalar(scalar as u32) + rest, k),
                            ),
                        }
                    } else {
                        None
                    }
                } else if 0xDC00 <= code < 0xE000 {
                    None
                } else {
                    match parse_string_bytes(s, i + 6) {
                        None => None,
                        Some((rest, k)) => Some((encode_scalar(code as u32) + rest, k)),
                    }
                }
            } else {
                None
            }
        } else if unescaped_of(s[i + 1]) is Some {
            match parse_string_bytes(s, i + 2) {
                None => None,
                Some((rest, k)) => Some((seq![unescaped_of(s[i + 1])->0] + rest, k)),
            }
        } else {
            None
        }
    } else {
        match parse_string_bytes(s, i + 1) {
            None => None,
            Some((rest, k)) => Some((seq![s[i]] + rest, k)),
        }
    }
}

/// The byte an escape character stands for.
pub open spec fn unescaped_of(e: u8) -> Option<u8> {
    if e == 34 {
        Some(34u8)
    } else if e == 92 {
        Some(92u8)
    } else if e == 47 {
        Some(47u8)
    } else if e == 98 {
        Some(8u8)
    } else if e == 102 {
        Some(12u8)
    } else if e == 110 {
        Some(10u8)
    } else if e == 114 {
        Some(13u8)
    } else if e == 116 {
        Some(9u8)
    } else {
        None
    }
}

/// Position after the colon that follows a member key, across whitespace.
pub open spec fn expect_colon(s: Seq<u8>, i: int) -> Option<int>
    decreases s.len() - i,
    when 0 <= i <= s.len()
{
    if i >= s.len() {
        None
    } else if is_ws(s[i]) {
        expect_colon(s, i + 1)
    } else if s[i] == 58 {
        Some(i + 1)
    } else {
        None
    }
}

/// The value that begins at `i`, across leading whitespace, and the position
/// after it.
pub open spec fn parse_value(s: Seq<u8>, i: int) -> Option<(Model, int)>
    decreases s.len() - i, 1int,
    when 0 <= i <= s.len()
{
    if i >= s.len() {
        None
    } else if is_ws(s[i]) {
        parse_value(s, i + 1)
    } else if s[i] == 123 {
        match parse_members_first(s, i + 1) {
            None => None,
            Some((pairs, k)) => Some((Model::Obj(pairs), k)),
        }
    } else if s[i] == 91 {
        match parse_elems_first(s, i + 1) {
            None => None,
            Some((items, k)) => Some((Model::Arr(items), k)),
        }
    } else if s[i] == 34 {
        match parse_string_bytes(s, i + 1) {
            None => None,
            Some((bytes, k)) => if valid_utf8(bytes) {
                Some((Model::Str(decode_utf8(bytes)), k))
            } else {
                None
            },
        }
    } else if s[i] == 116 {
        if s.len() - i >= 4 && s[i + 1] == 114 && s[i + 2] == 117 && s[i + 3] == 101 {
            Some((Model::Bool(true), i + 4))
        } else {
            None
        }
    } else if s[i] == 102 {
        if s.len() - i >= 5 && s[i + 1] == 97 && s[i + 2] == 108 && s[i + 3] == 115 && s[i
            + 4] == 101 {
            Some((Model::Bool(false), i + 5))
        } else {
            None
        }
    } else if s[i] == 110 {
        if s.len() - i >= 4 && s[i + 1] == 117 && s[i + 2] == 108 && s[i + 3] == 108 {
            Some((Model::Null, i + 4))
        } else {
            None
        }
    } else if s[i] == 45 || (48 <= s[i] && s[i] <= 57) {
        Some((Model::Num(s.subrange(i, scan_num(s, i))), scan_num(s, i)))
    } else {
        None
    }
}

/// The members of an array read after its `[`: either `]` at once, or a
/// first value followed by the rest.
pub open spec fn parse_elems_first(s: Seq<u8>, i: int) -> Option<(Seq<Model>, int)>
    decreases s.len() - i, 2int,
    when 0 <= i <= s.len()
{
    if i >= s.len() {
        None
    } else if is_ws(s[i]) {
        parse_elems_first(s, i + 1)
    } else if s[i] == 93 {
        Some((Seq::empty(), i + 1))
    } else {
        match parse_value(s, i) {
            None => None,
            Some((v, k)) => if i < k <= s.len() {
                match parse_elems_rest(s, k) {
                    None => None,
                    Some((rest, e)) => Some((seq![v] + rest, e)),
                }
            } else {
                None
            },
        }
    }
}

/// What follows an array member: `]`, or a comma and more members.
pub open spec fn parse_elems_rest(s: Seq<u8>, i: int) -> Option<(Seq<Model>, int)>
    decreases s.len() - i, 2int,
    when 0 <= i <= s.len()
{
    if i >= s.len() {
        None
    } else if is_ws(s[i]) {
        parse_elems_rest(s, i + 1)
    } else if s[i] == 93 {
        Some((Seq::empty(), i + 1))
    } else if s[i] == 44 {
        match parse_value(s, i + 1) {
            None => None,
            Some((v, k)) => if i + 1 < k <= s.len() {
                match parse_elems_rest(s, k) {
                    None => None,
                    Some((rest, e)) => Some((seq![v] + rest, e)),
                }
            } else {
                None
            },
        }
    } else {
        None
    }
}

/// One `key: value` member, across leading whitespace.
pub open spec fn parse_member(s: Seq<u8>, i: int) -> Option<((Seq<char>, Model), int)>
    decreases s.len() - i, 2int,
    when 0 <= i <= s.len()
{
    if i >= s.len() {
        None
    } else if is_ws(s[i]) {
        parse_member(s, i + 1)
    } else if s[i] == 34 {
        match parse_string_bytes(s, i + 1) {
            None => None,
            Some((bytes, k)) => if i + 1 < k <= s.len() && valid_utf8(bytes) {
                match expect_colon(s, k) {
                    None => None,
                    Some(m) => if k < m <= s.len() {
                        match parse_value(s, m) {
                            None => None,
                            Some((v, n)) => if m < n <= s.len() {
                                Some(((decode_utf8(bytes), v), n))
                            } else {
                                None
                            },
                        }
                    } else {
                        None
                    },
                }
            } else {
                None
            },
        }
    } else {
        None
    }
}

/// The members of an object read after its `{`: either `}` at once, or a
/// first member followed by the rest.
pub open spec fn parse_members_first(s: Seq<u8>, i: int) -> Option<
    (Seq<(Seq<char>, Model)>, int),
>
    decreases s.len() - i, 3int,
    when 0 <= i <= s.len()
{
    if i >= s.len() {
        None
    } else if is_ws(s[i]) {
        parse_members_first(s, i + 1)
    } else if s[i] == 125 {
        Some((Seq::empty(), i + 1))
    } else {
        match parse_member(s, i) {
            None => None,
            Some(((key, v), n)) => if i < n <= s.len() {
                match parse_members_rest(s, n) {
                    None => None,
                    Some((rest, e)) => Some((seq![(key, v)] + rest, e)),
                }
            } else {
                None
            },
        }
    }
}

/// What follows an object member: `}`, or a comma and more members.
pub open spec fn parse_members_rest(s: Seq<u8>, i: int) -> Option<
    (Seq<(Seq<char>, Model)>, int),
>
    decreases s.len() - i, 3int,
    when 0 <= i <= s.len()
{
    if i >= s.len() {
        None
    } else if is_ws(s[i]) {
        parse_members_rest(s, i + 1)
    } else if s[i] == 125 {
        Some((Seq::empty(), i + 1))
    } else if s[i] == 44 {
        match parse_member(s, i + 1) {
            None => None,
            Some(((key, v), n)) => if i + 1 < n <= s.len() {
                match parse_members_rest(s, n) {
                    None => None,
                    Some((rest, e)) => Some((seq![(key, v)] + rest, e)),
                }
            } else {
                None
            },
        }
    } else {
        None
    }
}

/// Nothing but whitespace from `i` on.
pub open spec fn only_ws(s: Seq<u8>, i: int) -> bool
    decreases s.len() - i,
    when 0 <= i <= s.len()
{
    if i >= s.len() {
        true
    } else if is_ws(s[i]) {
        only_ws(s, i + 1)
    } else {
        false
    }
}

/// The value a whole JSON body denotes: one value with only whitespace
/// around it.
pub open spec fn parse_json_spec(s: Seq<u8>) -> Option<Model> {
    match parse_value(s, 0) {
        None => None,
        Some((m, k)) => if 0 <= k <= s.len() && only_ws(s, k) {
            Some(m)
        } else {
            None
        },
    }
}

/// The JSON text of a value, as bytes.
pub fn to_json(v: &Value) -> (r: Vec<u8>)
    ensures
        r@ == jser(v@),
{
    let mut out: Vec<u8> = Vec::new();
    write_value(v, &mut out);
    proof {
        assert(out@ =~= jser(v@));
    }
    out
}

fn ws_b(b: u8) -> (r: bool)
    ensures
        r == is_ws(b),
{
    b == 32 || b == 9 || b == 10 || b == 13
}

fn num_byte_b(b: u8) -> (r: bool)
    ensures
        r == is_num_byte(b),
{
    (48 <= b && b <= 57) || b == 45 || b == 43 || b == 46 || b == 101 || b == 69
}

proof fn lemma_scan_num_bounds(s: Seq<u8>, i: int)
    requires
        0 <= i <= s.len(),
    ensures
        i <= scan_num(s, i) <= s.len(),
    decreases s.len() - i,
{
    if i < s.len() && is_num_byte(s[i]) {
        lemma_scan_num_bounds(s, i + 1);
    }
}

fn scan_num_exec(s: &[u8], i: usize) -> (r: usize)
    requires
        i <= s@.len(),
    ensures
        r as int == scan_num(s@, i as int),
        i <= r <= s@.len(),
    decreases s@.len() - i,
{
    if i < s.len() && num_byte_b(s[i]) {
        scan_num_exec(s, i + 1)
    } else {
        i
    }
}

proof fn lemma_view_list_cons(x: Value, t: Seq<Value>)
    ensures
        view_list(seq![x] + t) == seq![crate::value::view_of(x)] + view_list(t),
{
    let s = seq![x] + t;
    assert(s[0] == x);
    assert(s.drop_first() =~= t);
    assert(view_list(s) =~= seq![crate::value::view_of(x)] + view_list(t));
}

proof fn lemma_view_pairs_cons(x: (String, Value), t: Seq<(String, Value)>)
    ensures
        view_pairs(seq![x] + t) == seq![(x.0@, crate::value::view_of(x.1))] + view_pairs(t),
{
    let s = seq![x] + t;
    assert(s[0] == x);
    assert(s.drop_first() =~= t);
    assert(view_pairs(s) =~= seq![(x.0@, crate::value::view_of(x.1))] + view_pairs(t));
}

/// The UTF-8 bytes of one Unicode scalar.
fn encode_scalar_exec(c: u32) -> (r: Vec<u8>)
    requires
        is_scalar(c),
    ensures
        r@ == encode_scalar(c),
{
    let mut out: Vec<u8> = Vec::new();
    if c <= 0x7F {
        out.push((c & 0x7F) as u8);
    } else if c <= 0x7FF {
        out.push(0xC0 | ((c >> 6u32) & 0x1F) as u8);
        out.push(0x80 | (c & 0x3F) as u8);
    } else if c <= 0xFFFF {
        out.push(0xE0 | ((c >> 12u32) & 0x0F) as u8);
        out.push(0x80 | ((c >> 6u32) & 0x3F) as u8);
        out.push(0x80 | (c & 0x3F) as u8);
    } else {
        out.push(0xF0 | ((c >> 18u32) & 0x7) as u8);
        out.push(0x80 | ((c >> 12u32) & 0x3F) as u8);
        out.push(0x80 | ((c >> 6u32) & 0x3F) as u8);
        out.push(0x80 | (c & 0x3F) as u8);
    }
    proof {
        assert(out@ =~= encode_scalar(c));
    }
    out
}

fn p_string(s: &[u8], i: usize) -> (r: Option<(Vec<u8>, usize)>)
    requires
        i <= s@.len(),
    ensures
        r is None ==> parse_string_bytes(s@, i as int) is None,
        r matches Some((b, k)) ==> i < k <= s@.len() && parse_string_bytes(s@, i as int)
            == Some((b@, k as int)),
    decreases s@.len() - i,
{
    if i >= s.len() {
        return None;
    }
    let c = s[i];
    if c == 34 {
        let empty: Vec<u8> = Vec::new();
        proof {
            assert(empty@ =~= Seq::<u8>::empty());
        }
        return Some((empty, i + 1));
    }
    if c == 92 {
        if i + 1 >= s.len() {
            return None;
        }
        let e = s[i + 1];
        if e == 117 {
            if s.len() - i < 6 {
                return None;
            }
            let quad = slice_subrange(s, i + 2, i + 6);
            let h: u32 = match crate::text::parse_hex_u32(quad) {
                None => {
                    return None;
                },
                Some(h) => h,
            };
            proof {
                crate::text::lemma_hex_val_bound(quad@);
                assert(crate::text::pow16(4) == 0x10000) by {
                    reveal_with_fuel(crate::text::pow16, 5);
                }
            }
            if 0xD800 <= h && h < 0xDC00 {
                if s.len() - i < 12 {
                    return None;
                }
                if s[i + 6] != 92 || s[i + 7] != 117 {
                    return None;
                }
                let quad2 = slice_subrange(s, i + 8, i + 12);
                let l: u32 = match crate::text::parse_hex_u32(quad2) {
                    None => {
                        return None;
                    },
                    Some(l) => l,
                };
                if !(0xDC00 <= l && l < 0xE000) {
                    return None;
                }
                let scalar: u32 = 0x10000 + (h - 0xD800) * 0x400 + (l - 0xDC00);
                match p_string(s, i + 12) {
                    None => {
                        return None;
                    },
                    Some((rest, k)) => {
                        let mut out = encode_scalar_exec(scalar);
                        out.extend_from_slice(rest.as_slice());
                        proof {
                            assert(out@ =~= encode_scalar(scalar) + rest@);
                        }
                        return Some((out, k));
                    },
                }
            }
            if 0xDC00 <= h && h < 0xE000 {
                return None;
            }
            match p_string(s, i + 6) {
                None => {
                    return None;
                },
                Some((rest, k)) => {
                    let mut out = encode_scalar_exec(h);
                    out.extend_from_slice(rest.as_slice());
                    proof {
                        assert(out@ =~= encode_scalar(h) + rest@);
                    }
                    return Some((out, k));
                },
            }
        }
        let ok = e == 34 || e == 92 || e == 47 || e == 98 || e == 102 || e == 110 || e
            == 114 || e == 116;
        if !ok {
            return None;
        }
        let d: u8 = if e == 34 {
            34
        } else if e == 92 {
            92
        } else if e == 47 {
            47
        } else if e == 98 {
            8
        } else if e == 102 {
            12
        } else if e == 110 {
            10
        } else if e == 114 {
            13
        } else {
            9
        };
        proof {
            assert(unescaped_of(s@[i as int + 1]) == Some(d));
        }
        match p_string(s, i + 2) {
            None => {
                return None;
            },
            Some((rest, k)) => {
                let mut out: Vec<u8> = Vec::new();
                out.push(d);
                out.extend_from_slice(rest.as_slice());
                proof {
                    assert(out@ =~= seq![d] + rest@);
                }
                return Some((out, k));
            },
        }
    }
    match p_string(s, i + 1) {
        None => None,
        Some((rest, k)) => {
            let mut out: Vec<u8> = Vec::new();
            out.push(c);
            out.extend_from_slice(rest.as_slice());
            proof {
                assert(out@ =~= seq![c] + rest@);
            }
            Some((out, k))
        },
    }
}

fn expect_colon_exec(s: &[u8], i: usize) -> (r: Option<usize>)
    requires
        i <= s@.len(),
    ensures
        r is None ==> expect_colon(s@, i as int) is None,
        r matches Some(m) ==> i < m <= s@.len() && expect_colon(s@, i as int) == Some(
            m as int,
        ),
    decreases s@.len() - i,
{
    if i >= s.len() {
        return None;
    }
    let c = s[i];
    if ws_b(c) {
        return expect_colon_exec(s, i + 1);
    }
    if c == 58 {
        Some(i + 1)
    } else {
        None
    }
}

fn p_value(s: &[u8], i: usize) -> (r: Option<(Value, usize)>)
    requires
        i <= s@.len(),
    ensures
        r is None ==> parse_value(s@, i as int) is None,
        r matches Some((v, k)) ==> i < k <= s@.len() && parse_value(s@, i as int) == Some(
            (v@, k as int),
        ),
    decreases s@.len() - i, 1int,
{
    if i >= s.len() {
        return None;
    }
    let c = s[i];
    if ws_b(c) {
        return p_value(s, i + 1);
    }
    if c == 123 {
        return match p_members_first(s, i + 1) {
            None => None,
            Some((pairs, k)) => Some((Value::Obj(pairs), k)),
        };
    }
    if c == 91 {
        return match p_elems_first(s, i + 1) {
            None => None,
            Some((items, k)) => Some((Value::Arr(items), k)),
        };
    }
    if c == 34 {
        return match p_string(s, i + 1) {
            None => None,
            Some((bytes, k)) => {
                match crate::text::string_from_utf8(bytes) {
                    None => None,
                    Some(st) => Some((Value::Str(st), k)),
                }
            },
        };
    }
    if c == 116 {
        if s.len() - i >= 4 && s[i + 1] == 114 && s[i + 2] == 117 && s[i + 3] == 101 {
            return Some((Value::Bool(true), i + 4));
        }
        return None;
    }
    if c == 102 {
        if s.len() - i >= 5 && s[i + 1] == 97 && s[i + 2] == 108 && s[i + 3] == 115 && s[i
            + 4] == 101 {
            return Some((Value::Bool(false), i + 5));
        }
        return None;
    }
    if c == 110 {
        if s.len() - i >= 4 && s[i + 1] == 117 && s[i + 2] == 108 && s[i + 3] == 108 {
            return Some((Value::Null, i + 4));
        }
        return None;
    }
    if c == 45 || (48 <= c && c <= 57) {
        let e = scan_num_exec(s, i);
        proof {
            lemma_scan_num_bounds(s@, i as int + 1);
            assert(scan_num(s@, i as int) == scan_num(s@, i as int + 1));
        }
        let tok = slice_to_vec(slice_subrange(s, i, e));
        return Some((Value::Num(tok), e));
    }
    None
}

fn p_elems_first(s: &[u8], i: usize) -> (r: Option<(Vec<Value>, usize)>)
    requires
        i <= s@.len(),
    ensures
        r is None ==> parse_elems_first(s@, i as int) is None,
        r matches Some((items, k)) ==> i < k <= s@.len() && parse_elems_first(
            s@,
            i as int,
        ) == Some((view_list(items@), k as int)),
    decreases s@.len() - i, 2int,
{
    if i >= s.len() {
        return None;
    }
    let c = s[i];
    if ws_b(c) {
        return p_elems_first(s, i + 1);
    }
    if c == 93 {
        let out: Vec<Value> = Vec::new();
        proof {
            assert(view_list(out@) =~= Seq::<Model>::empty());
        }
        return Some((out, i + 1));
    }
    match p_value(s, i) {
        None => None,
        Some((v, k)) => {
            match p_elems_rest(s, k) {
                None => None,
                Some((rest, e)) => {
                    let ghost old_rest = rest@;
                    let mut rest = rest;
                    rest.insert(0, v);
                    proof {
                        assert(rest@ =~= seq![v] + old_rest);
                        lemma_view_list_cons(v, old_rest);
                    }
                    Some((rest, e))
                },
            }
        },
    }
}

fn p_elems_rest(s: &[u8], i: usize) -> (r: Option<(Vec<Value>, usize)>)
    requires
        i <= s@.len(),
    ensures
        r is None ==> parse_elems_rest(s@, i as int) is None,
        r matches Some((items, k)) ==> i < k <= s@.len() && parse_elems_rest(s@, i as int)
            == Some((view_list(items@), k as int)),
    decreases s@.len() - i, 2int,
{
    if i >= s.len() {
        return None;
    }
    let c = s[i];
    if ws_b(c) {
        return p_elems_rest(s, i + 1);
    }
    if c == 93 {
        let out: Vec<Value> = Vec::new();
        proof {
            assert(view_list(out@) =~= Seq::<Model>::empty());
        }
        return Some((out, i + 1));
    }
    if c == 44 {
        return match p_value(s, i + 1) {
            None => None,
            Some((v, k)) => {
                match p_elems_rest(s, k) {
                    None => None,
                    Some((rest, e)) => {
                        let ghost old_rest = rest@;
                        let mut rest = rest;
                        rest.insert(0, v);
                        proof {
                            assert(rest@ =~= seq![v] + old_rest);
                            lemma_view_list_cons(v, old_rest);
                        }
                        Some((rest, e))
                    },
                }
            },
        };
    }
    None
}

fn p_member(s: &[u8], i: usize) -> (r: Option<((String, Value), usize)>)
    requires
        i <= s@.len(),
    ensures
        r is None ==> parse_member(s@, i as int) is None,
        r matches Some(((key, v), n)) ==> i < n <= s@.len() && parse_member(s@, i as int)
            == Some(((key@, v@), n as int)),
    decreases s@.len() - i, 2int,
{
    if i >= s.len() {
        return None;
    }
    let c = s[i];
    if ws_b(c) {
        return p_member(s, i + 1);
    }
    if c != 34 {
        return None;
    }
    match p_string(s, i + 1) {
        None => None,
        Some((bytes, k)) => {
            match crate::text::string_from_utf8(bytes) {
                None => None,
                Some(key) => {
                    match expect_colon_exec(s, k) {
                        None => None,
                        Some(m) => {
                            match p_value(s, m) {
                                None => None,
                                Some((v, n)) => Some(((key, v), n)),
                            }
                        },
                    }
                },
            }
        },
    }
}

fn p_members_first(s: &[u8], i: usize) -> (r: Option<(Vec<(String, Value)>, usize)>)
    requires
        i <= s@.len(),
    ensures
        r is None ==> parse_members_first(s@, i as int) is None,
        r matches Some((pairs, k)) ==> i < k <= s@.len() && parse_members_first(
            s@,
            i as int,
        ) == Some((view_pairs(pairs@), k as int)),
    decreases s@.len() - i, 3int,
{
    if i >= s.len() {
        return None;
    }
    let c = s[i];
    if ws_b(c) {
        return p_members_first(s, i + 1);
    }
    if c == 125 {
        let out: Vec<(String, Value)> = Vec::new();
        proof {
            assert(view_pairs(out@) =~= Seq::<(Seq<char>, Model)>::empty());
        }
        return Some((out, i + 1));
    }
    match p_member(s, i) {
        None => None,
        Some(((key, v), n)) => {
            match p_members_rest(s, n) {
                None => None,
                Some((rest, e)) => {
                    let ghost old_rest = rest@;
                    let ghost gk = key@;
                    let ghost gv = v@;
                    let mut rest = rest;
                    rest.insert(0, (key, v));
                    proof {
                        assert(rest@[0].0@ == gk);
                        assert(rest@.drop_first() =~= old_rest);
                        lemma_view_pairs_cons(rest@[0], old_rest);
                        assert(rest@ =~= seq![rest@[0]] + old_rest);
                        assert(view_pairs(rest@) =~= seq![(gk, gv)] + view_pairs(
                            old_rest,
                        ));
                    }
                    Some((rest, e))
                },
            }
        },
    }
}

fn p_members_rest(s: &[u8], i: usize) -> (r: Option<(Vec<(String, Value)>, usize)>)
    requires
        i <= s@.len(),
    ensures
        r is None ==> parse_members_rest(s@, i as int) is None,
        r matches Some((pairs, k)) ==> i < k <= s@.len() && parse_members_rest(
            s@,
            i as int,
        ) == Some((view_pairs(pairs@), k as int)),
    decreases s@.len() - i, 3int,
{
    if i >= s.len() {
        return None;
    }
    let c = s[i];
    if ws_b(c) {
        return p_members_rest(s, i + 1);
    }
    if c == 125 {
        let out: Vec<(String, Value)> = Vec::new();
        proof {
            assert(view_pairs(out@) =~= Seq::<(Seq<char>, Model)>::empty());
        }
        return Some((out, i + 1));
    }
    if c == 44 {
        return match p_member(s, i + 1) {
            None => None,
            Some(((key, v), n)) => {
                match p_members_rest(s, n) {
                    None => None,
                    Some((rest, e)) => {
                        let ghost old_rest = rest@;
                        let ghost gk = key@;
                        let ghost gv = v@;
                        let mut rest = rest;
                        rest.insert(0, (key, v));
                        proof {
                            assert(rest@[0].0@ == gk);
                            assert(rest@.drop_first() =~= old_rest);
                            lemma_view_pairs_cons(rest@[0], old_rest);
                            assert(rest@ =~= seq![rest@[0]] + old_rest);
                            assert(view_pairs(rest@) =~= seq![(gk, gv)] + view_pairs(
                                old_rest,
                            ));
                        }
                        Some((rest, e))
                    },
                }
            },
        };
    }
    None
}

fn only_ws_exec(s: &[u8], i: usize) -> (r: bool)
    requires
        i <= s@.len(),
    ensures
        r == only_ws(s@, i as int),
    decreases s@.len() - i,
{
    if i >= s.len() {
        return true;
    }
    if ws_b(s[i]) {
        only_ws_exec(s, i + 1)
    } else {
        false
    }
}

proof fn lemma_scan_num_run(s: Seq<u8>, i: int, e: int)
    requires
        0 <= i <= e <= s.len(),
        forall|j: int| i <= j < e ==> is_num_byte(#[trigger] s[j]),
        e == s.len() || !is_num_byte(s[e]),
    ensures
        scan_num(s, i) == e,
    decreases e - i,
{
    if i < e {
        lemma_scan_num_run(s, i + 1, e);
    }
}

proof fn lemma_hex_digit_byte_val(d: int)
    requires
        0 <= d < 16,
    ensures
        crate::text::is_hex_digit(hex_digit_byte(d)),
        crate::text::hex_digit_val(hex_digit_byte(d)) == d,
{
}

/// The first byte of a printed value: never whitespace nor a separator.
proof fn lemma_jser_first(m: Model)
    requires
        wf_model(m),
    ensures
        jser(m).len() >= 1,
        !is_ws(jser(m)[0]),
        jser(m)[0] != 93,
        jser(m)[0] != 125,
        jser(m)[0] != 44,
        jser(m)[0] != 58,
{
    match m {
        Model::Null => {},
        Model::Bool(b) => {},
        Model::Num(b) => {},
        Model::Str(s) => {},
        Model::Arr(items) => {},
        Model::Obj(pairs) => {},
    }
}

/// Escaped string content parses back to the content, up to the closing
/// quote that follows it.
proof fn lemma_rt_string(content: Seq<u8>, s: Seq<u8>, i: int)
    requires
        0 <= i,
        i + escape_bytes(content).len() + 1 <= s.len(),
        s.subrange(i, i + escape_bytes(content).len() + 1) == escape_bytes(content) + seq![
            34u8,
        ],
    ensures
        escape_bytes(content).len() >= content.len(),
        parse_string_bytes(s, i) == Some(
            (content, i + escape_bytes(content).len() + 1),
        ),
    decreases content.len(),
{
    let blk = escape_bytes(content) + seq![34u8];
    assert forall|t: int| 0 <= t < blk.len() implies s[i + t] == blk[t] by {
        assert(s.subrange(i, i + blk.len() as int)[t] == s[i + t]);
    }
    if content.len() == 0 {
        assert(escape_bytes(content) =~= Seq::<u8>::empty());
        assert(blk =~= seq![34u8]);
        assert(blk[0] == 34);
        assert(s[i + 0] == blk[0]);
        assert(s[i] == 34);
    } else {
        let c0 = content[0];
        let rest = content.drop_first();
        let eb = escape_byte(c0);
        assert(escape_bytes(content) == eb + escape_bytes(rest));
        assert(eb.len() >= 1);
        assert(escape_bytes(content).len() == eb.len() + escape_bytes(rest).len());
        assert forall|t: int| 0 <= t < eb.len() implies blk[t] == eb[t] by {
            assert(blk[t] == escape_bytes(content)[t]);
            assert(escape_bytes(content)[t] == (eb + escape_bytes(rest))[t]);
        }
        let blk2 = escape_bytes(rest) + seq![34u8];
        assert forall|t: int| 0 <= t < blk2.len() implies blk[eb.len() + t] == blk2[t] by {
            if t < escape_bytes(rest).len() {
                assert(blk[eb.len() + t] == escape_bytes(content)[eb.len() + t]);
                assert(escape_bytes(content)[eb.len() + t] == (eb + escape_bytes(
                    rest,
                ))[eb.len() + t]);
                assert((eb + escape_bytes(rest))[eb.len() + t] == escape_bytes(rest)[t]);
            } else {
                assert(t == escape_bytes(rest).len());
                assert(eb.len() + t == escape_bytes(content).len());
                assert(blk[eb.len() + t] == 34);
                assert(blk2[t] == 34);
            }
        }
        assert(s.subrange(i + eb.len(), i + eb.len() + blk2.len() as int) =~= blk2) by {
            assert forall|t: int|
                0 <= t < blk2.len() implies s.subrange(
                i + eb.len(),
                i + eb.len() + blk2.len() as int,
            )[t] == blk2[t] by {
                assert(s.subrange(i + eb.len(), i + eb.len() + blk2.len() as int)[t] == s[i
                    + eb.len() + t]);
                assert(s[i + eb.len() + t] == blk[eb.len() + t]);
            }
        }
        lemma_rt_string(rest, s, i + eb.len());
        if c0 == 34 {
            assert(s[i + 0] == blk[0] && s[i + 1] == blk[1]);
            assert(s[i] == 92 && s[i + 1] == 34);
            assert(unescaped_of(s[i + 1]) == Some(34u8));
            assert(seq![34u8] + rest =~= content);
        } else if c0 == 92 {
            assert(s[i + 0] == blk[0] && s[i + 1] == blk[1]);
            assert(s[i] == 92 && s[i + 1] == 92);
            assert(unescaped_of(s[i + 1]) == Some(92u8));
            assert(seq![92u8] + rest =~= content);
        } else if c0 < 32 {
            assert(s[i + 0] == blk[0] && s[i + 1] == blk[1]);
            assert(s[i + 2] == blk[2] && s[i + 3] == blk[3]);
            assert(s[i + 4] == blk[4] && s[i + 5] == blk[5]);
            assert(s[i] == 92 && s[i + 1] == 117);
            assert(s[i + 2] == 48 && s[i + 3] == 48);
            assert(s[i + 4] == hex_digit_byte(c0 as int / 16));
            assert(s[i + 5] == hex_digit_byte(c0 as int % 16));
            let quad = s.subrange(i + 2, i + 6);
            assert(quad.len() == 4);
            assert(quad[0] == 48 && quad[1] == 48);
            assert(quad[2] == hex_digit_byte(c0 as int / 16));
            assert(quad[3] == hex_digit_byte(c0 as int % 16));
            lemma_hex_digit_byte_val(c0 as int / 16);
            lemma_hex_digit_byte_val(c0 as int % 16);
            lemma_hex_digit_byte_val(0);
            assert(all_hex_digits(quad)) by {
                assert(crate::text::is_hex_digit(quad[0]));
                assert(crate::text::is_hex_digit(quad[1]));
                assert(crate::text::is_hex_digit(quad[2]));
                assert(crate::text::is_hex_digit(quad[3]));
            }
            assert(hex_val(quad) == c0) by {
                let q3 = seq![48u8, 48u8, hex_digit_byte(c0 as int / 16)];
                let q2 = seq![48u8, 48u8];
                let q1 = seq![48u8];
                assert(quad.drop_last() =~= q3);
                assert(q3.drop_last() =~= q2);
                assert(q2.drop_last() =~= q1);
                assert(q1.drop_last() =~= Seq::<u8>::empty());
                assert(hex_val(Seq::<u8>::empty()) == 0);
                assert(q1.last() == 48);
                assert(hex_val(q1) == 0);
                assert(q2.last() == 48);
                assert(hex_val(q2) == 0);
                assert(q3.last() == hex_digit_byte(c0 as int / 16));
                assert(hex_val(q3) == c0 as int / 16);
                assert(quad.last() == hex_digit_byte(c0 as int % 16));
                assert(hex_val(quad) == (c0 as int / 16) * 16 + c0 as int % 16);
                assert((c0 as int / 16) * 16 + c0 as int % 16 == c0 as int);
            }
            assert(i + 6 <= s.len());
            assert(0 <= hex_val(quad) < 32);
            let code = hex_val(quad) as u32;
            assert(code == c0 as u32);
            assert(vstd::utf8::has_width_1_encoding(code));
            assert((c0 as u32 & 0x7F) as u8 == c0) by (bit_vector)
                requires
                    c0 < 32,
            ;
            assert(vstd::utf8::leading_byte_width_1(code) == c0);
            assert(encode_scalar(code) =~= seq![c0]);
            assert(encode_scalar(code) + rest =~= content);
        } else {
            assert(eb[0] == c0);
            assert(s[i + 0] == blk[0]);
            assert(s[i] == c0);
            assert(s[i] != 34 && s[i] != 92);
            assert(seq![c0] + rest =~= content);
        }
    }
}

/// The body of a printed array after its first member, ending at `]`.
spec fn arr_tail_bytes(rest: Seq<Model>) -> Seq<u8>
    decreases rest,
{
    if rest.len() == 0 {
        seq![93u8]
    } else {
        seq![44u8] + jser(rest[0]) + arr_tail_bytes(rest.drop_first())
    }
}

/// The body of a printed object after its first member, ending at `}`.
spec fn obj_tail_bytes(rest: Seq<(Seq<char>, Model)>) -> Seq<u8>
    decreases rest,
{
    if rest.len() == 0 {
        seq![125u8]
    } else {
        seq![44u8] + member_bytes(rest[0]) + obj_tail_bytes(rest.drop_first())
    }
}

spec fn member_bytes(p: (Seq<char>, Model)) -> Seq<u8> {
    jser_string(p.0) + seq![58u8] + jser(p.1)
}

proof fn lemma_list_bridge(items: Seq<Model>)
    requires
        items.len() >= 1,
    ensures
        jser_list(items) + seq![93u8] == jser(items[0]) + arr_tail_bytes(items.drop_first()),
    decreases items,
{
    if items.len() == 1 {
        assert(items.drop_first().len() == 0);
        assert(jser_list(items) + seq![93u8] =~= jser(items[0]) + arr_tail_bytes(
            items.drop_first(),
        ));
    } else {
        lemma_list_bridge(items.drop_first());
        assert(items.drop_first()[0] == items[1]);
        assert((jser(items[0]) + seq![44u8] + jser_list(items.drop_first())) + seq![93u8]
            =~= jser(items[0]) + (seq![44u8] + (jser_list(items.drop_first()) + seq![
            93u8,
        ])));
        assert(seq![44u8] + (jser(items.drop_first()[0]) + arr_tail_bytes(
            items.drop_first().drop_first(),
        )) =~= seq![44u8] + jser(items.drop_first()[0]) + arr_tail_bytes(
            items.drop_first().drop_first(),
        ));
        assert(jser(items[0]) + (seq![44u8] + (jser_list(items.drop_first()) + seq![93u8]))
            =~= jser(items[0]) + arr_tail_bytes(items.drop_first()));
    }
}

proof fn lemma_pairs_bridge(pairs: Seq<(Seq<char>, Model)>)
    requires
        pairs.len() >= 1,
    ensures
        jser_pairs(pairs) + seq![125u8] == member_bytes(pairs[0]) + obj_tail_bytes(
            pairs.drop_first(),
        ),
    decreases pairs,
{
    if pairs.len() == 1 {
        assert(pairs.drop_first().len() == 0);
        assert(jser_pairs(pairs) + seq![125u8] =~= member_bytes(pairs[0]) + obj_tail_bytes(
            pairs.drop_first(),
        ));
    } else {
        lemma_pairs_bridge(pairs.drop_first());
        let head = jser_string(pairs[0].0) + seq![58u8] + jser(pairs[0].1);
        assert((head + seq![44u8] + jser_pairs(pairs.drop_first())) + seq![125u8] =~= head
            + (seq![44u8] + (jser_pairs(pairs.drop_first()) + seq![125u8])));
        assert(seq![44u8] + (member_bytes(pairs.drop_first()[0]) + obj_tail_bytes(
            pairs.drop_first().drop_first(),
        )) =~= seq![44u8] + member_bytes(pairs.drop_first()[0]) + obj_tail_bytes(
            pairs.drop_first().drop_first(),
        ));
        assert(head + (seq![44u8] + (jser_pairs(pairs.drop_first()) + seq![125u8])) =~= head
            + obj_tail_bytes(pairs.drop_first()));
        assert(member_bytes(pairs[0]) == head);
    }
}

/// A block of bytes that equals a concatenation splits into its parts.
proof fn lemma_sub_split(s: Seq<u8>, i: int, a: Seq<u8>, b: Seq<u8>)
    requires
        0 <= i,
        i + a.len() + b.len() <= s.len(),
        s.subrange(i, i + a.len() + b.len()) == a + b,
    ensures
        s.subrange(i, i + a.len() as int) == a,
        s.subrange(i + a.len(), i + a.len() + b.len()) == b,
{
    assert forall|t: int| 0 <= t < a.len() implies s.subrange(i, i + a.len() as int)[t]
        == a[t] by {
        assert(s.subrange(i, i + a.len() + b.len())[t] == (a + b)[t]);
        assert(s.subrange(i, i + a.len() as int)[t] == s[i + t]);
        assert(s.subrange(i, i + a.len() + b.len())[t] == s[i + t]);
    }
    assert(s.subrange(i, i + a.len() as int) =~= a);
    assert forall|t: int|
        0 <= t < b.len() implies s.subrange(i + a.len(), i + a.len() + b.len())[t] == b[t] by {
        assert(s.subrange(i, i + a.len() + b.len())[a.len() + t] == (a + b)[a.len() + t]);
        assert(s.subrange(i + a.len(), i + a.len() + b.len())[t] == s[i + a.len() + t]);
        assert(s.subrange(i, i + a.len() + b.len())[a.len() + t] == s[i + a.len() + t]);
    }
    assert(s.subrange(i + a.len(), i + a.len() + b.len()) =~= b);
}

/// A printed value parses back to itself wherever it stands, as long as no
/// number byte follows it directly.
#[verifier::rlimit(100)]
proof fn lemma_rt_value(m: Model, s: Seq<u8>, i: int)
    requires
        wf_model(m),
        0 <= i,
        i + jser(m).len() <= s.len(),
        s.subrange(i, i + jser(m).len()) == jser(m),
        i + jser(m).len() == s.len() || !is_num_byte(s[i + jser(m).len()]),
    ensures
        parse_value(s, i) == Some((m, i + jser(m).len())),
    decreases m, 1int,
{
    let w = jser(m);
    assert forall|t: int| 0 <= t < w.len() implies s[i + t] == w[t] by {
        assert(s.subrange(i, i + w.len() as int)[t] == s[i + t]);
    }
    lemma_jser_first(m);
    match m {
        Model::Null => {
            assert(s[i + 0] == 110 && s[i + 1] == 117 && s[i + 2] == 108 && s[i + 3]
                == 108);
        },
        Model::Bool(b) => {
            if b {
                assert(s[i + 0] == 116 && s[i + 1] == 114 && s[i + 2] == 117 && s[i + 3]
                    == 101);
            } else {
                assert(s[i + 0] == 102 && s[i + 1] == 97 && s[i + 2] == 108 && s[i + 3]
                    == 115 && s[i + 4] == 101);
            }
        },
        Model::Num(b) => {
            assert(is_num_token(b));
            assert(s[i + 0] == b[0]);
            assert forall|t: int| i <= t < i + b.len() implies is_num_byte(
                #[trigger] s[t],
            ) by {
                assert(s[i + (t - i)] == b[t - i]);
            }
            lemma_scan_num_run(s, i, i + b.len());
            assert(s.subrange(i, i + b.len() as int) =~= b);
        },
        Model::Str(str) => {
            let esc = escape_bytes(encode_utf8(str));
            assert(w == seq![34u8] + esc + seq![34u8]);
            assert(s[i + 0] == 34);
            assert(w =~= seq![34u8] + (esc + seq![34u8]));
            lemma_sub_split(s, i, seq![34u8], esc + seq![34u8]);
            lemma_rt_string(encode_utf8(str), s, i + 1);
            vstd::utf8::encode_utf8_valid_utf8(str);
            vstd::utf8::encode_utf8_decode_utf8(str);
        },
        Model::Arr(items) => {
            assert(s[i + 0] == 91);
            if items.len() == 0 {
                assert(jser_list(items) =~= Seq::<u8>::empty());
                assert(w.len() == 2);
                assert(s[i + 1] == w[1]);
                assert(w[1] == (seq![91u8] + jser_list(items) + seq![93u8])[1]);
                assert(w[1] == 93);
                assert(parse_elems_first(s, i + 1) == Some((Seq::<Model>::empty(), i + 2)));
                assert(items =~= Seq::<Model>::empty());
                assert(Model::Arr(Seq::<Model>::empty()) == m);
            } else {
                lemma_list_bridge(items);
                let head = jser(items[0]);
                let tail = arr_tail_bytes(items.drop_first());
                assert(w =~= seq![91u8] + (head + tail));
                lemma_sub_split(s, i, seq![91u8], head + tail);
                lemma_sub_split(s, i + 1, head, tail);
                assert(wf_model(items[0]));
                lemma_jser_first(items[0]);
                assert(s[i + 1] == head[0]) by {
                    assert(s.subrange(i + 1, i + 1 + head.len() as int)[0] == s[i + 1]);
                }
                assert(tail.len() >= 1);
                let k = i + 1 + head.len();
                assert(s[k] == tail[0]) by {
                    assert(s.subrange(k, k + tail.len() as int)[0] == s[k]);
                }
                assert(tail[0] == 44 || tail[0] == 93);
                lemma_rt_value(items[0], s, i + 1);
                lemma_rt_arr_tail(items.drop_first(), s, k);
                assert(seq![items[0]] + items.drop_first() =~= items);
                assert(parse_elems_first(s, i + 1) == Some((items, k + tail.len())));
                assert(k + tail.len() == i + w.len());
            }
        },
        Model::Obj(pairs) => {
            assert(s[i + 0] == 123);
            if pairs.len() == 0 {
                assert(jser_pairs(pairs) =~= Seq::<u8>::empty());
                assert(w.len() == 2);
                assert(s[i + 1] == w[1]);
                assert(w[1] == (seq![123u8] + jser_pairs(pairs) + seq![125u8])[1]);
                assert(w[1] == 125);
                assert(parse_members_first(s, i + 1) == Some(
                    (Seq::<(Seq<char>, Model)>::empty(), i + 2),
                ));
                assert(pairs =~= Seq::<(Seq<char>, Model)>::empty());
                assert(Model::Obj(Seq::<(Seq<char>, Model)>::empty()) == m);
            } else {
                lemma_pairs_bridge(pairs);
                let head = member_bytes(pairs[0]);
                let tail = obj_tail_bytes(pairs.drop_first());
                assert(w =~= seq![123u8] + (head + tail));
                lemma_sub_split(s, i, seq![123u8], head + tail);
                lemma_sub_split(s, i + 1, head, tail);
                assert(wf_model(pairs[0].1));
                assert(s[i + 1] == head[0]) by {
                    assert(s.subrange(i + 1, i + 1 + head.len() as int)[0] == s[i + 1]);
                }
                assert(head[0] == 34) by {
                    assert(head == jser_string(pairs[0].0) + seq![58u8] + jser(
                        pairs[0].1,
                    ));
                    assert(head[0] == jser_string(pairs[0].0)[0]);
                }
                let n = i + 1 + head.len();
                assert(tail.len() >= 1);
                assert(s[n] == tail[0]) by {
                    assert(s.subrange(n, n + tail.len() as int)[0] == s[n]);
                }
                assert(tail[0] == 44 || tail[0] == 125);
                lemma_rt_member(pairs[0], s, i + 1);
                lemma_rt_obj_tail(pairs.drop_first(), s, n);
                assert(seq![pairs[0]] + pairs.drop_first() =~= pairs);
                assert(parse_members_first(s, i + 1) == Some((pairs, n + tail.len())));
                assert(n + tail.len() == i + w.len());
            }
        },
    }
}

/// A printed member parses back to its key and value, as long as no number
/// byte follows it directly.
proof fn lemma_rt_member(p: (Seq<char>, Model), s: Seq<u8>, i: int)
    requires
        wf_model(p.1),
        0 <= i,
        i + member_bytes(p).len() <= s.len(),
        s.subrange(i, i + member_bytes(p).len()) == member_bytes(p),
        i + member_bytes(p).len() == s.len() || !is_num_byte(s[i + member_bytes(p).len()]),
    ensures
        parse_member(s, i) == Some(((p.0, p.1), i + member_bytes(p).len())),
    decreases p, 0int,
{
    let w = member_bytes(p);
    let key_bytes = jser_string(p.0);
    let esc = escape_bytes(encode_utf8(p.0));
    assert(w =~= key_bytes + (seq![58u8] + jser(p.1)));
    lemma_sub_split(s, i, key_bytes, seq![58u8] + jser(p.1));
    assert(key_bytes =~= seq![34u8] + (esc + seq![34u8]));
    lemma_sub_split(s, i, seq![34u8], esc + seq![34u8]);
    assert(s.subrange(i, i + 1) =~= seq![34u8]);
    assert(s[i] == 34) by {
        assert(s.subrange(i, i + 1)[0] == s[i]);
    }
    lemma_rt_string(encode_utf8(p.0), s, i + 1);
    vstd::utf8::encode_utf8_valid_utf8(p.0);
    vstd::utf8::encode_utf8_decode_utf8(p.0);
    let k = i + key_bytes.len();
    lemma_sub_split(s, k, seq![58u8], jser(p.1));
    assert(s[k] == 58) by {
        assert(s.subrange(k, k + 1)[0] == s[k]);
    }
    assert(expect_colon(s, k) == Some(k + 1));
    lemma_jser_first(p.1);
    lemma_rt_value(p.1, s, k + 1);
    assert(parse_string_bytes(s, i + 1) == Some((encode_utf8(p.0), k)));
    assert(i + 1 < k <= s.len());
    assert(parse_value(s, k + 1) == Some((p.1, i + w.len())));
}

/// The remainder of a printed array parses back to its remaining members.
proof fn lemma_rt_arr_tail(rest: Seq<Model>, s: Seq<u8>, i: int)
    requires
        forall|t: int| 0 <= t < rest.len() ==> wf_model(#[trigger] rest[t]),
        0 <= i,
        i + arr_tail_bytes(rest).len() <= s.len(),
        s.subrange(i, i + arr_tail_bytes(rest).len()) == arr_tail_bytes(rest),
    ensures
        parse_elems_rest(s, i) == Some((rest, i + arr_tail_bytes(rest).len())),
    decreases rest, 0int,
{
    let w = arr_tail_bytes(rest);
    assert forall|t: int| 0 <= t < w.len() implies s[i + t] == w[t] by {
        assert(s.subrange(i, i + w.len() as int)[t] == s[i + t]);
    }
    if rest.len() == 0 {
        assert(w =~= seq![93u8]);
        assert(w[0] == 93);
        assert(s[i + 0] == 93);
        assert(parse_elems_rest(s, i) == Some((Seq::<Model>::empty(), i + 1)));
        assert(Seq::<Model>::empty() =~= rest);
    } else {
        assert(w[0] == (seq![44u8] + jser(rest[0]) + arr_tail_bytes(rest.drop_first()))[0]);
        assert(w[0] == 44);
        assert(s[i + 0] == 44);
        let head = jser(rest[0]);
        let tail = arr_tail_bytes(rest.drop_first());
        assert(w =~= seq![44u8] + (head + tail));
        lemma_sub_split(s, i, seq![44u8], head + tail);
        lemma_sub_split(s, i + 1, head, tail);
        assert(wf_model(rest[0]));
        lemma_jser_first(rest[0]);
        let k = i + 1 + head.len();
        assert(tail.len() >= 1);
        assert(s[k] == tail[0]) by {
            assert(s.subrange(k, k + tail.len() as int)[0] == s[k]);
        }
        assert(tail[0] == 44 || tail[0] == 93);
        lemma_rt_value(rest[0], s, i + 1);
        assert forall|t: int|
            0 <= t < rest.drop_first().len() implies wf_model(
            #[trigger] rest.drop_first()[t]) by {
            assert(rest.drop_first()[t] == rest[t + 1]);
        }
        lemma_rt_arr_tail(rest.drop_first(), s, k);
        assert(seq![rest[0]] + rest.drop_first() =~= rest);
        assert(k + tail.len() == i + w.len());
    }
}

/// The remainder of a printed object parses back to its remaining members.
proof fn lemma_rt_obj_tail(rest: Seq<(Seq<char>, Model)>, s: Seq<u8>, i: int)
    requires
        forall|t: int| 0 <= t < rest.len() ==> wf_model((#[trigger] rest[t]).1),
        0 <= i,
        i + obj_tail_bytes(rest).len() <= s.len(),
        s.subrange(i, i + obj_tail_bytes(rest).len()) == obj_tail_bytes(rest),
    ensures
        parse_members_rest(s, i) == Some((rest, i + obj_tail_bytes(rest).len())),
    decreases rest, 0int,
{
    let w = obj_tail_bytes(rest);
    assert forall|t: int| 0 <= t < w.len() implies s[i + t] == w[t] by {
        assert(s.subrange(i, i + w.len() as int)[t] == s[i + t]);
    }
    if rest.len() == 0 {
        assert(w =~= seq![125u8]);
        assert(w[0] == 125);
        assert(s[i + 0] == 125);
        assert(parse_members_rest(s, i) == Some(
            (Seq::<(Seq<char>, Model)>::empty(), i + 1),
        ));
        assert(Seq::<(Seq<char>, Model)>::empty() =~= rest);
    } else {
        assert(w[0] == (seq![44u8] + member_bytes(rest[0]) + obj_tail_bytes(
            rest.drop_first(),
        ))[0]);
        assert(w[0] == 44);
        assert(s[i + 0] == 44);
        let head = member_bytes(rest[0]);
        let tail = obj_tail_bytes(rest.drop_first());
        assert(w =~= seq![44u8] + (head + tail));
        lemma_sub_split(s, i, seq![44u8], head + tail);
        lemma_sub_split(s, i + 1, head, tail);
        assert(wf_model(rest[0].1));
        let k = i + 1 + head.len();
        assert(tail.len() >= 1);
        assert(s[k] == tail[0]) by {
            assert(s.subrange(k, k + tail.len() as int)[0] == s[k]);
        }
        assert(tail[0] == 44 || tail[0] == 125);
        lemma_rt_member(rest[0], s, i + 1);
        assert forall|t: int|
            0 <= t < rest.drop_first().len() implies wf_model(
            (#[trigger] rest.drop_first()[t]).1) by {
            assert(rest.drop_first()[t] == rest[t + 1]);
        }
        lemma_rt_obj_tail(rest.drop_first(), s, k);
        assert(seq![rest[0]] + rest.drop_first() =~= rest);
        assert(k + tail.len() == i + w.len());
    }
}

proof fn lemma_scan_num_is_run(s: Seq<u8>, i: int)
    requires
        0 <= i <= s.len(),
    ensures
        i <= scan_num(s, i) <= s.len(),
        forall|j: int| i <= j < scan_num(s, i) ==> is_num_byte(#[trigger] s[j]),
    decreases s.len() - i,
{
    if i < s.len() && is_num_byte(s[i]) {
        lemma_scan_num_is_run(s, i + 1);
    }
}

proof fn lemma_parse_value_wf(s: Seq<u8>, i: int)
    requires
        0 <= i <= s.len(),
    ensures
        parse_value(s, i) matches Some((m, k)) ==> wf_model(m),
    decreases s.len() - i, 1int,
{
    if i >= s.len() {
    } else if is_ws(s[i]) {
        lemma_parse_value_wf(s, i + 1);
    } else if s[i] == 123 {
        lemma_parse_members_first_wf(s, i + 1);
    } else if s[i] == 91 {
        lemma_parse_elems_first_wf(s, i + 1);
    } else if s[i] == 45 || (48 <= s[i] && s[i] <= 57) {
        lemma_scan_num_is_run(s, i);
        assert(is_num_byte(s[i]));
        assert(scan_num(s, i) == scan_num(s, i + 1));
        lemma_scan_num_is_run(s, i + 1);
        let e = scan_num(s, i);
        assert(e > i);
        let tok = s.subrange(i, e);
        assert forall|t: int| 0 <= t < tok.len() implies is_num_byte(
            #[trigger] tok[t],
        ) by {
            assert(tok[t] == s[i + t]);
        }
        assert(tok[0] == s[i]);
        assert(is_num_token(tok));
    }
}

proof fn lemma_parse_elems_first_wf(s: Seq<u8>, i: int)
    requires
        0 <= i <= s.len(),
    ensures
        parse_elems_first(s, i) matches Some((items, k)) ==> forall|t: int|
            0 <= t < items.len() ==> wf_model(#[trigger] items[t]),
    decreases s.len() - i, 2int,
{
    if i >= s.len() {
    } else if is_ws(s[i]) {
        lemma_parse_elems_first_wf(s, i + 1);
    } else if s[i] == 93 {
    } else {
        lemma_parse_value_wf(s, i);
        if let Some((v, k)) = parse_value(s, i) {
            if i < k <= s.len() {
                lemma_parse_elems_rest_wf(s, k);
                if let Some((rest, e)) = parse_elems_rest(s, k) {
                    assert forall|t: int|
                        0 <= t < (seq![v] + rest).len() implies wf_model(
                        #[trigger] (seq![v] + rest)[t]) by {
                        if t > 0 {
                            assert((seq![v] + rest)[t] == rest[t - 1]);
                        }
                    }
                }
            }
        }
    }
}

proof fn lemma_parse_elems_rest_wf(s: Seq<u8>, i: int)
    requires
        0 <= i <= s.len(),
    ensures
        parse_elems_rest(s, i) matches Some((items, k)) ==> forall|t: int|
            0 <= t < items.len() ==> wf_model(#[trigger] items[t]),
    decreases s.len() - i, 2int,
{
    if i >= s.len() {
    } else if is_ws(s[i]) {
        lemma_parse_elems_rest_wf(s, i + 1);
    } else if s[i] == 93 {
    } else if s[i] == 44 {
        lemma_parse_value_wf(s, i + 1);
        if let Some((v, k)) = parse_value(s, i + 1) {
            if i + 1 < k <= s.len() {
                lemma_parse_elems_rest_wf(s, k);
                if let Some((rest, e)) = parse_elems_rest(s, k) {
                    assert forall|t: int|
                        0 <= t < (seq![v] + rest).len() implies wf_model(
                        #[trigger] (seq![v] + rest)[t]) by {
                        if t > 0 {
                            assert((seq![v] + rest)[t] == rest[t - 1]);
                        }
                    }
                }
            }
        }
    }
}

proof fn lemma_parse_member_wf(s: Seq<u8>, i: int)
    requires
        0 <= i <= s.len(),
    ensures
        parse_member(s, i) matches Some(((key, v), k)) ==> wf_model(v),
    decreases s.len() - i, 2int,
{
    if i >= s.len() {
    } else if is_ws(s[i]) {
        lemma_parse_member_wf(s, i + 1);
    } else if s[i] == 34 {
        if let Some((bytes, k)) = parse_string_bytes(s, i + 1) {
            if i + 1 < k <= s.len() && valid_utf8(bytes) {
                if let Some(m) = expect_colon(s, k) {
                    if k < m <= s.len() {
                        lemma_parse_value_wf(s, m);
                    }
                }
            }
        }
    }
}

proof fn lemma_parse_members_first_wf(s: Seq<u8>, i: int)
    requires
        0 <= i <= s.len(),
    ensures
        parse_members_first(s, i) matches Some((pairs, k)) ==> forall|t: int|
            0 <= t < pairs.len() ==> wf_model((#[trigger] pairs[t]).1),
    decreases s.len() - i, 3int,
{
    if i >= s.len() {
    } else if is_ws(s[i]) {
        lemma_parse_members_first_wf(s, i + 1);
    } else if s[i] == 125 {
    } else {
        lemma_parse_member_wf(s, i);
        if let Some(((key, v), n)) = parse_member(s, i) {
            if i < n <= s.len() {
                lemma_parse_members_rest_wf(s, n);
                if let Some((rest, e)) = parse_members_rest(s, n) {
                    assert forall|t: int|
                        0 <= t < (seq![(key, v)] + rest).len() implies wf_model(
                        (#[trigger] (seq![(key, v)] + rest)[t]).1) by {
                        if t > 0 {
                            assert((seq![(key, v)] + rest)[t] == rest[t - 1]);
                        }
                    }
                }
            }
        }
    }
}

proof fn lemma_parse_members_rest_wf(s: Seq<u8>, i: int)
    requires
        0 <= i <= s.len(),
    ensures
        parse_members_rest(s, i) matches Some((pairs, k)) ==> forall|t: int|
            0 <= t < pairs.len() ==> wf_model((#[trigger] pairs[t]).1),
    decreases s.len() - i, 3int,
{
    if i >= s.len() {
    } else if is_ws(s[i]) {
        lemma_parse_members_rest_wf(s, i + 1);
    } else if s[i] == 125 {
    } else if s[i] == 44 {
        lemma_parse_member_wf(s, i + 1);
        if let Some(((key, v), n)) = parse_member(s, i + 1) {
            if i + 1 < n <= s.len() {
                lemma_parse_members_rest_wf(s, n);
                if let Some((rest, e)) = parse_members_rest(s, n) {
                    assert forall|t: int|
                        0 <= t < (seq![(key, v)] + rest).len() implies wf_model(
                        (#[trigger] (seq![(key, v)] + rest)[t]).1) by {
                        if t > 0 {
                            assert((seq![(key, v)] + rest)[t] == rest[t - 1]);
                        }
                    }
                }
            }
        }
    }
}

/// Whatever the parser accepts is well-formed, so it prints again, and the
/// round trip below applies to it.
pub proof fn lemma_parse_json_wf(s: Seq<u8>)
    ensures
        parse_json_spec(s) matches Some(m) ==> wf_model(m),
{
    lemma_parse_value_wf(s, 0);
}

/// The round trip of the JSON form: printing a well-formed value and parsing
/// the printed text yields the value back.
pub proof fn lemma_json_round_trip(m: Model)
    requires
        wf_model(m),
    ensures
        parse_json_spec(jser(m)) == Some(m),
{
    let s = jser(m);
    lemma_jser_first(m);
    assert(s.subrange(0, s.len() as int) =~= s);
    lemma_rt_value(m, s, 0);
    assert(only_ws(s, s.len() as int));
}

/// Parses a whole JSON body into a value. `None` exactly when the bytes are
/// no JSON text of the grammar above.
pub fn from_json(s: &[u8]) -> (r: Option<Value>)
    ensures
        r is None <==> parse_json_spec(s@) is None,
        r matches Some(v) ==> parse_json_spec(s@) == Some(v@),
{
    match p_value(s, 0) {
        None => None,
        Some((v, k)) => {
            if only_ws_exec(s, k) {
                Some(v)
            } else {
                None
            }
        },
    }
}

} // verus!
