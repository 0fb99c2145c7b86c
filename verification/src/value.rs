//! The generic structured value carried by commands and responses.
use vstd::prelude::*;
use vstd::utf8::decode_utf8;
use vstd::utf8::encode_utf8;
use vstd::utf8::encode_utf8_decode_utf8;
use vstd::string::StringSliceAdditionalSpecFns;
use vstd::slice::slice_to_vec;
use crate::text::parse_int_i64;
use crate::text::is_int_token;
use crate::text::int_token_val;

verus! {

/// A structured value: the JSON data model. Numbers are kept as their ASCII
/// numeral bytes, exactly as they stand on the wire, so nothing is lost.
#[derive(Debug, PartialEq)]
pub enum Value {
    Null,
    Bool(bool),
    /// A number, as the bytes of its numeral.
    Num(Vec<u8>),
    Str(String),
    Arr(Vec<Value>),
    Obj(Vec<(String, Value)>),
}

/// The mathematical shape of a `Value`.
#[verifier::ext_equal]
pub enum Model {
    Null,
    Bool(bool),
    Num(Seq<u8>),
    Str(Seq<char>),
    Arr(Seq<Model>),
    Obj(Seq<(Seq<char>, Model)>),
}

pub open spec fn view_list(s: Seq<Value>) -> Seq<Model>
    decreases s,
{
    if s.len() == 0 {
        Seq::empty()
    } else {
        seq![view_of(s[0])] + view_list(s.drop_first())
    }
}

pub open spec fn view_pairs(s: Seq<(String, Value)>) -> Seq<(Seq<char>, Model)>
    decreases s,
{
    if s.len() == 0 {
        Seq::empty()
    } else {
        seq![(s[0].0@, view_of(s[0].1))] + view_pairs(s.drop_first())
    }
}

pub open spec fn view_of(v: Value) -> Model
    decreases v,
{
    match v {
        Value::Null => Model::Null,
        Value::Bool(b) => Model::Bool(b),
        Value::Num(n) => Model::Num(n@),
        Value::Str(s) => Model::Str(s@),
        Value::Arr(items) => Model::Arr(view_list(items@)),
        Value::Obj(pairs) => Model::Obj(view_pairs(pairs@)),
    }
}

impl View for Value {
    type V = Model;

    open spec fn view(&self) -> Model {
        view_of(*self)
    }
}

pub proof fn lemma_view_list(s: Seq<Value>)
    ensures
        view_list(s).len() == s.len(),
        forall|i: int| 0 <= i < s.len() ==> view_list(s)[i] == view_of(#[trigger] s[i]),
    decreases s,
{
    if s.len() > 0 {
        lemma_view_list(s.drop_first());
        assert forall|i: int| 0 <= i < s.len() implies view_list(s)[i] == view_of(
            #[trigger] s[i],
        ) by {
            if i > 0 {
                assert(view_list(s)[i] == view_list(s.drop_first())[i - 1]);
                assert(s.drop_first()[i - 1] == s[i]);
            }
        }
    }
}

pub proof fn lemma_view_pairs(s: Seq<(String, Value)>)
    ensures
        view_pairs(s).len() == s.len(),
        forall|i: int| 0 <= i < s.len() ==> view_pairs(s)[i] == ((#[trigger] s[i]).0@,
        view_of(s[i].1)),
    decreases s,
{
    if s.len() > 0 {
        lemma_view_pairs(s.drop_first());
        assert forall|i: int| 0 <= i < s.len() implies view_pairs(s)[i] == ((
        #[trigger] s[i]).0@, view_of(s[i].1)) by {
            if i > 0 {
                assert(view_pairs(s)[i] == view_pairs(s.drop_first())[i - 1]);
                assert(s.drop_first()[i - 1] == s[i]);
            }
        }
    }
}

/// A byte that may stand in a number token.
pub open spec fn is_num_byte(b: u8) -> bool {
    (48 <= b && b <= 57) || b == 45 || b == 43 || b == 46 || b == 101 || b == 69
}

/// A nonempty run of number bytes that begins with a digit or a minus sign.
pub open spec fn is_num_token(s: Seq<u8>) -> bool {
    &&& s.len() > 0
    &&& forall|i: int| 0 <= i < s.len() ==> is_num_byte(#[trigger] s[i])
    &&& (s[0] == 45 || (48 <= s[0] && s[0] <= 57))
}

/// Well-formedness: every number in the value holds a number token.
pub open spec fn wf_model(m: Model) -> bool
    decreases m,
{
    match m {
        Model::Num(b) => is_num_token(b),
        Model::Arr(items) => forall|i: int|
            0 <= i < items.len() ==> wf_model(#[trigger] items[i]),
        Model::Obj(pairs) => forall|i: int|
            0 <= i < pairs.len() ==> wf_model((#[trigger] pairs[i]).1),
        _ => true,
    }
}

/// First binding of `key` among the members of an object, in member order.
pub open spec fn mlookup(pairs: Seq<(Seq<char>, Model)>, key: Seq<char>) -> Option<Model>
    decreases pairs.len(),
{
    if pairs.len() == 0 {
        None
    } else if pairs[0].0 == key {
        Some(pairs[0].1)
    } else {
        mlookup(pairs.drop_first(), key)
    }
}

/// The member of an object under `key`; `None` for a missing key or for any
/// value that is no object.
pub open spec fn mfield(m: Model, key: Seq<char>) -> Option<Model> {
    match m {
        Model::Obj(pairs) => mlookup(pairs, key),
        _ => None,
    }
}

/// Character-exact string comparison.
pub fn str_eq(a: &str, b: &str) -> (r: bool)
    ensures
        r == (a@ == b@),
{
    let ab = a.as_bytes();
    let bb = b.as_bytes();
    if ab.len() != bb.len() {
        proof {
            if a@ == b@ {
                assert(encode_utf8(a@) == encode_utf8(b@));
            }
        }
        return false;
    }
    let mut i: usize = 0;
    while i < ab.len()
        invariant
            ab@ == a.spec_bytes(),
            bb@ == b.spec_bytes(),
            ab@.len() == bb@.len(),
            i <= ab@.len(),
            forall|j: int| 0 <= j < i ==> ab@[j] == bb@[j],
        decreases ab@.len() - i,
    {
        if ab[i] != bb[i] {
            proof {
                if a@ == b@ {
                    assert(encode_utf8(a@) == encode_utf8(b@));
                }
            }
            return false;
        }
        i += 1;
    }
    proof {
        assert(ab@ =~= bb@);
        encode_utf8_decode_utf8(a@);
        encode_utf8_decode_utf8(b@);
        assert(decode_utf8(encode_utf8(a@)) == decode_utf8(encode_utf8(b@)));
    }
    true
}

impl Value {
    /// The member of this object under `key`, `None` when absent or when
    /// this value is no object.
    pub fn get<'a>(&'a self, key: &str) -> (r: Option<&'a Value>)
        ensures
            r is Some <==> mfield(self@, key@) is Some,
            r matches Some(v) ==> mfield(self@, key@) == Some(v@),
    {
        match self {
            Value::Obj(pairs) => {
                proof {
                    lemma_view_pairs(pairs@);
                }
                let ghost mp = view_pairs(pairs@);
                proof {
                    assert(self@ == Model::Obj(mp));
                    assert(mp.skip(0) =~= mp);
                }
                let mut i: usize = 0;

                while i < pairs.len()
                    invariant
                        i <= pairs@.len(),
                        self@ == Model::Obj(mp),
                        mp == view_pairs(pairs@),
                        mp.len() == pairs@.len(),
                        forall|j: int| 0 <= j < pairs@.len() ==> mp[j] == ((
                        #[trigger] pairs@[j]).0@, view_of(pairs@[j].1)),
                        mlookup(mp, key@) == mlookup(mp.skip(i as int), key@),
                    decreases pairs@.len() - i,
                {
                    let hit = str_eq(pairs[i].0.as_str(), key);
                    proof {
                        assert(mp.skip(i as int)[0] == mp[i as int]);
                        assert(mp.skip(i as int).drop_first() =~= mp.skip(i as int + 1));
                    }
                    if hit {
                        proof {
                            assert(mlookup(mp.skip(i as int), key@) == Some(
                                mp[i as int].1,
                            ));
                            assert(mp[i as int] == (pairs@[i as int].0@, view_of(
                                pairs@[i as int].1,
                            )));
                            assert(mfield(self@, key@) == Some(view_of(
                                pairs@[i as int].1,
                            )));
                        }
                        let out = &pairs[i].1;
                        proof {
                            assert(out@ == view_of(pairs@[i as int].1));
                        }
                        return Some(out);
                    }
                    i += 1;
                }
                proof {
                    assert(mp.skip(pairs@.len() as int).len() == 0);
                }
                None
            },
            _ => None,
        }
    }

    /// The string content when this value is a string.
    pub fn as_str<'a>(&'a self) -> (r: Option<&'a String>)
        ensures
            match *self {
                Value::Str(s) => r == Some(&s),
                _ => r is None,
            },
    {
        match self {
            Value::Str(s) => Some(s),
            _ => None,
        }
    }

    pub fn is_string(&self) -> (r: bool)
        ensures
            r == (*self matches Value::Str(_)),
    {
        match self {
            Value::Str(_) => true,
            _ => false,
        }
    }

    pub fn is_number(&self) -> (r: bool)
        ensures
            r == (*self matches Value::Num(_)),
    {
        match self {
            Value::Num(_) => true,
            _ => false,
        }
    }

    pub fn is_array(&self) -> (r: bool)
        ensures
            r == (*self matches Value::Arr(_)),
    {
        match self {
            Value::Arr(_) => true,
            _ => false,
        }
    }

    /// The integer this value holds, when it is a number whose numeral is a
    /// plain signed decimal numeral that fits an `i64`.
    pub fn as_i64(&self) -> (r: Option<i64>)
        ensures
            r is Some <==> (*self matches Value::Num(b) && is_int_token(b@)
                && -0x8000_0000_0000_0000 <= int_token_val(b@) <= 0x7fff_ffff_ffff_ffff),
            r matches Some(n) ==> (*self matches Value::Num(b) && n as int == int_token_val(
                b@,
            )),
    {
        match self {
            Value::Num(b) => parse_int_i64(b.as_slice()),
            _ => None,
        }
    }

    /// A structurally equal copy.
    pub fn deep_clone(&self) -> (r: Value)
        ensures
            r@ == self@,
        decreases *self,
    {
        match self {
            Value::Null => Value::Null,
            Value::Bool(b) => Value::Bool(*b),
            Value::Num(n) => Value::Num(slice_to_vec(n.as_slice())),
            Value::Str(s) => Value::Str(s.clone()),
            Value::Arr(items) => {
                let mut out: Vec<Value> = Vec::new();
                let mut j: usize = 0;
                while j < items.len()
                    invariant
                        *self == Value::Arr(*items),
                        j <= items@.len(),
                        out@.len() == j,
                        forall|t: int|
                            0 <= t < j ==> view_of(#[trigger] out@[t]) == view_of(
                                items@[t],
                            ),
                    decreases items@.len() - j,
                {
                    proof {
                        assert(self->Arr_0 == *items);
                        assert(decreases_to!(*self => self->Arr_0));
                        assert(decreases_to!(*items => items@));
                        assert(decreases_to!(items@ => items@[j as int]));
                    }
                    let c = items[j].deep_clone();
                    out.push(c);
                    j += 1;
                }
                proof {
                    lemma_view_list(out@);
                    lemma_view_list(items@);
                    assert forall|t: int| 0 <= t < out@.len() implies #[trigger] view_list(
                        out@,
                    )[t] == view_list(items@)[t] by {
                        assert(view_list(out@)[t] == view_of(out@[t]));
                        assert(view_list(items@)[t] == view_of(items@[t]));
                        assert(view_of(out@[t]) == view_of(items@[t]));
                    }
                    assert(view_list(out@) =~= view_list(items@));
                }
                Value::Arr(out)
            },
            Value::Obj(pairs) => {
                let mut out: Vec<(String, Value)> = Vec::new();
                let mut j: usize = 0;
                while j < pairs.len()
                    invariant
                        *self == Value::Obj(*pairs),
                        j <= pairs@.len(),
                        out@.len() == j,
                        forall|t: int|
                            0 <= t < j ==> ((#[trigger] out@[t]).0@ == pairs@[t].0@
                                && view_of(out@[t].1) == view_of(pairs@[t].1)),
                    decreases pairs@.len() - j,
                {
                    proof {
                        assert(self->Obj_0 == *pairs);
                        assert(decreases_to!(*self => self->Obj_0));
                        assert(decreases_to!(*pairs => pairs@));
                        assert(decreases_to!(pairs@ => pairs@[j as int]));
                        assert(decreases_to!(pairs@[j as int] => pairs@[j as int].1));
                    }
                    let k = pairs[j].0.clone();
                    let c = pairs[j].1.deep_clone();
                    out.push((k, c));
                    j += 1;
                }
                proof {
                    lemma_view_pairs(out@);
                    lemma_view_pairs(pairs@);
                    assert forall|t: int|
                        0 <= t < out@.len() implies #[trigger] view_pairs(out@)[t]
                        == view_pairs(pairs@)[t] by {
                        assert(view_pairs(out@)[t] == (out@[t].0@, view_of(out@[t].1)));
                        assert(view_pairs(pairs@)[t] == (pairs@[t].0@, view_of(
                            pairs@[t].1,
                        )));
                        assert(out@[t].0@ == pairs@[t].0@);
                        assert(view_of(out@[t].1) == view_of(pairs@[t].1));
                    }
                    assert(view_pairs(out@) =~= view_pairs(pairs@));
                }
                Value::Obj(out)
            },
        }
    }

    /// Sets a member: an object gains or changes the binding in place; any
    /// other value becomes a fresh one-member object.
    pub fn set_field(self, key: &str, v: Value) -> (r: Value)
        ensures
            r@ == mset_field(self@, key@, v@),
    {
        let ghost gv = v@;
        match self {
            Value::Obj(pairs) => {
                proof {
                    lemma_view_pairs(pairs@);
                }
                let ghost mp = view_pairs(pairs@);
                let mut pairs = pairs;
                let n = pairs.len();
                let mut idx: usize = n;
                let mut j: usize = 0;
                while j < n
                    invariant
                        n == pairs@.len(),
                        mp == view_pairs(pairs@),
                        mp.len() == pairs@.len(),
                        forall|t: int|
                            0 <= t < pairs@.len() ==> mp[t] == ((#[trigger] pairs@[t]).0@,
                            view_of(pairs@[t].1)),
                        j <= n,
                        idx == n || (idx < j && mp[idx as int].0 == key@),
                        idx == n ==> forall|t: int| 0 <= t < j ==> (#[trigger] mp[t]).0
                            != key@,
                        idx < n ==> forall|t: int| 0 <= t < idx ==> (#[trigger] mp[t]).0
                            != key@,
                    decreases n - j,
                {
                    if idx == n {
                        if str_eq(pairs[j].0.as_str(), key) {
                            idx = j;
                        }
                    }
                    j += 1;
                }
                let k = String::from_str(key);
                if idx < n {
                    let ghost before = pairs@;
                    pairs.remove(idx);
                    pairs.insert(idx, (k, v));
                    proof {
                        lemma_mset_found(mp, key@, gv, idx as int);
                        lemma_view_pairs(pairs@);
                        assert(pairs@.len() == before.len());
                        assert forall|t: int| 0 <= t < pairs@.len() implies (
                        #[trigger] view_pairs(pairs@)[t]) == mset(mp, key@, gv)[t] by {
                            if t < idx {
                                assert(pairs@[t] == before[t]);
                                assert(mset(mp, key@, gv)[t] == mp.take(idx as int)[t]);
                            } else if t == idx {
                                assert(pairs@[t].0@ == key@);
                            } else {
                                assert(pairs@[t] == before[t]);
                                assert(mset(mp, key@, gv)[t] == mp.skip(idx as int + 1)[t
                                    - idx - 1]);
                            }
                        }
                        assert(view_pairs(pairs@) =~= mset(mp, key@, gv));
                    }
                    Value::Obj(pairs)
                } else {
                    let ghost before = pairs@;
                    pairs.push((k, v));
                    proof {
                        lemma_mset_missing(mp, key@, gv);
                        lemma_view_pairs(pairs@);
                        assert forall|t: int| 0 <= t < pairs@.len() implies (
                        #[trigger] view_pairs(pairs@)[t]) == mset(mp, key@, gv)[t] by {
                            if t < before.len() {
                                assert(pairs@[t] == before[t]);
                            }
                        }
                        assert(view_pairs(pairs@) =~= mset(mp, key@, gv));
                    }
                    Value::Obj(pairs)
                }
            },
            other => {
                let k = String::from_str(key);
                let mut out: Vec<(String, Value)> = Vec::new();
                out.push((k, v));
                let r = Value::Obj(out);
                proof {
                    lemma_view_pairs(out@);
                    assert(view_pairs(out@) =~= seq![(key@, gv)]);
                }
                r
            },
        }
    }
}

/// Replacing or adding a member: the first binding of `key` changes in
/// place; a missing key is appended at the end.
pub open spec fn mset(pairs: Seq<(Seq<char>, Model)>, key: Seq<char>, v: Model) -> Seq<
    (Seq<char>, Model),
>
    decreases pairs.len(),
{
    if pairs.len() == 0 {
        seq![(key, v)]
    } else if pairs[0].0 == key {
        seq![(key, v)] + pairs.drop_first()
    } else {
        seq![pairs[0]] + mset(pairs.drop_first(), key, v)
    }
}

/// Setting a member of a value: an object gains or changes the binding; any
/// other value becomes a fresh one-member object.
pub open spec fn mset_field(m: Model, key: Seq<char>, v: Model) -> Model {
    match m {
        Model::Obj(pairs) => Model::Obj(mset(pairs, key, v)),
        _ => Model::Obj(seq![(key, v)]),
    }
}

proof fn lemma_mset_found(pairs: Seq<(Seq<char>, Model)>, key: Seq<char>, v: Model, j: int)
    requires
        0 <= j < pairs.len(),
        forall|t: int| 0 <= t < j ==> (#[trigger] pairs[t]).0 != key,
        pairs[j].0 == key,
    ensures
        mset(pairs, key, v) == pairs.take(j) + seq![(key, v)] + pairs.skip(j + 1),
    decreases j,
{
    if j == 0 {
        assert(pairs.take(0) =~= Seq::<(Seq<char>, Model)>::empty());
        assert(pairs.drop_first() =~= pairs.skip(1));
        assert(mset(pairs, key, v) =~= pairs.take(0) + seq![(key, v)] + pairs.skip(1));
    } else {
        assert(pairs.drop_first()[j - 1] == pairs[j]);
        assert forall|t: int| 0 <= t < j - 1 implies (#[trigger] pairs.drop_first()[t]).0
            != key by {
            assert(pairs.drop_first()[t] == pairs[t + 1]);
        }
        lemma_mset_found(pairs.drop_first(), key, v, j - 1);
        assert(pairs.drop_first().take(j - 1) =~= pairs.skip(1).take(j - 1));
        assert(pairs.drop_first().skip(j) =~= pairs.skip(j + 1));
        assert(seq![pairs[0]] + (pairs.drop_first().take(j - 1) + seq![(key, v)]
            + pairs.drop_first().skip(j)) =~= pairs.take(j) + seq![(key, v)] + pairs.skip(
            j + 1,
        ));
    }
}

proof fn lemma_mset_missing(pairs: Seq<(Seq<char>, Model)>, key: Seq<char>, v: Model)
    requires
        forall|t: int| 0 <= t < pairs.len() ==> (#[trigger] pairs[t]).0 != key,
    ensures
        mset(pairs, key, v) == pairs + seq![(key, v)],
    decreases pairs.len(),
{
    if pairs.len() == 0 {
        assert(mset(pairs, key, v) =~= pairs + seq![(key, v)]);
    } else {
        assert forall|t: int|
            0 <= t < pairs.drop_first().len() implies (
        #[trigger] pairs.drop_first()[t]).0 != key by {
            assert(pairs.drop_first()[t] == pairs[t + 1]);
        }
        lemma_mset_missing(pairs.drop_first(), key, v);
        assert(seq![pairs[0]] + (pairs.drop_first() + seq![(key, v)]) =~= pairs + seq![
            (key, v),
        ]);
    }
}

} // verus!
