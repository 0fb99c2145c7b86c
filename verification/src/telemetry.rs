//! Decoders for the fixed binary telemetry formats: pure functions from raw
//! sample bytes to named series of raw 32-bit samples.
//!
//! Samples stay raw integers here; mapping a raw sample to its engineering
//! value is a floating-point step that the caller performs, directed by the
//! series' `Scale`.
use vstd::prelude::*;
use vstd::slice::slice_to_vec;
use vstd::slice::slice_subrange;
use vstd::string::StringExecFns;
use vstd::utf8::encode_utf8_decode_utf8;
use vstd::utf8::encode_utf8_valid_utf8;
use crate::error::BoneError;
use crate::text::all_hex_digits;
use crate::text::dec_bytes_int;
use crate::text::dec_chars_int;
use crate::text::hex_val;
use crate::text::is_hex_digit;
use crate::text::lemma_ascii_chars;
use crate::text::lemma_dec_bytes_int_range;
use crate::text::lemma_encode_utf8_concat;
use crate::text::parse_hex_u32;
use crate::text::push_dec_i64;
use crate::text::string_from_utf8;

verus! {

/// How the raw 32-bit samples of a series map to engineering values.
#[derive(Debug, Clone, Copy, PartialEq, Eq, Structural)]
pub enum Scale {
    /// `raw / 521 * 100`, where `raw` is the top 20 bits of the word.
    SawRuntime,
    /// `(raw / 4096 * 5 - 2.5) * 2`, where `raw` is the low 12 bits.
    SawAmplitude,
    /// The raw word is the bit pattern of an IEEE-754 single-precision float.
    FloatBits,
}

/// A decoded series: a name and its raw samples, with their scale.
#[derive(Debug, PartialEq)]
pub struct RawSeries {
    pub name: String,
    pub scale: Scale,
    pub samples: Vec<u32>,
}

/// The mathematical shape of a series.
#[verifier::ext_equal]
pub struct SeriesModel {
    pub name: Seq<char>,
    pub scale: Scale,
    pub samples: Seq<int>,
}

pub open spec fn ints_of(s: Seq<u32>) -> Seq<int> {
    Seq::new(s.len(), |k: int| s[k] as int)
}

impl View for RawSeries {
    type V = SeriesModel;

    open spec fn view(&self) -> SeriesModel {
        SeriesModel { name: self.name@, scale: self.scale, samples: ints_of(self.samples@) }
    }
}

pub open spec fn models_of(v: Seq<RawSeries>) -> Seq<SeriesModel> {
    Seq::new(v.len(), |k: int| v[k]@)
}

/// The big-endian 32-bit word whose first byte stands at `i`.
pub open spec fn be32_at(b: Seq<u8>, i: int) -> int {
    b[i] * 0x1000000 + b[i + 1] * 0x10000 + b[i + 2] * 0x100 + b[i + 3]
}

/// The float-bits rule: each 4-byte word is one raw sample.
pub open spec fn f32_samples(b: Seq<u8>) -> Seq<int> {
    Seq::new(b.len() / 4, |k: int| be32_at(b, 4 * k))
}

pub open spec fn f32_series(name: Seq<char>, b: Seq<u8>) -> SeriesModel {
    SeriesModel { name, scale: Scale::FloatBits, samples: f32_samples(b) }
}

/// The SAW runtime series: the top 20 bits of each word.
pub open spec fn saw_rt_series(b: Seq<u8>) -> SeriesModel {
    SeriesModel {
        name: "rt"@,
        scale: Scale::SawRuntime,
        samples: Seq::new(b.len() / 4, |k: int| be32_at(b, 4 * k) / 4096),
    }
}

/// The SAW amplitude series: the low 12 bits of each word.
pub open spec fn saw_amp_series(b: Seq<u8>) -> SeriesModel {
    SeriesModel {
        name: "amp"@,
        scale: Scale::SawAmplitude,
        samples: Seq::new(b.len() / 4, |k: int| be32_at(b, 4 * k) % 4096),
    }
}

fn read_be32(b: &[u8], i: usize) -> (r: u32)
    requires
        i + 4 <= b@.len(),
    ensures
        r as int == be32_at(b@, i as int),
{
    (b[i] as u32) * 0x1000000 + (b[i + 1] as u32) * 0x10000 + (b[i + 2] as u32) * 0x100 + (b[i
        + 3] as u32)
}

/// Reads the big-endian words of a buffer whose length is a multiple of 4.
fn collect_words(buffer: &[u8]) -> (r: Vec<u32>)
    requires
        buffer@.len() % 4 == 0,
    ensures
        r@.len() == buffer@.len() as int / 4,
        forall|k: int| 0 <= k < r@.len() ==> #[trigger] r@[k] as int == be32_at(buffer@, 4 * k),
{
    let mut out: Vec<u32> = Vec::new();
    let mut i: usize = 0;
    while i < buffer.len()
        invariant
            buffer@.len() % 4 == 0,
            i % 4 == 0,
            i <= buffer@.len(),
            out@.len() == i as int / 4,
            forall|k: int|
                0 <= k < out@.len() ==> #[trigger] out@[k] as int == be32_at(buffer@, 4 * k),
        decreases buffer@.len() - i,
    {
        let w = read_be32(buffer, i);
        out.push(w);
        proof {
            assert(4 * (i as int / 4) == i as int);
        }
        i += 4;
    }
    out
}

/// Decodes a buffer under the float-bits rule into one series named `name`.
/// Fails exactly when the length is no multiple of the 4-byte record size.
pub fn calc_f32(buffer: &[u8], name: &str) -> (r: Result<RawSeries, BoneError>)
    ensures
        r is Ok <==> buffer@.len() % 4 == 0,
        r matches Ok(s) ==> s@ == f32_series(name@, buffer@),
        r matches Err(e) ==> e matches BoneError::Decode(_),
{
    if buffer.len() % 4 != 0 {
        return Err(BoneError::Decode(String::from_str(
            "sample length is no multiple of the 4-byte record size",
        )));
    }
    let samples = collect_words(buffer);
    let s = RawSeries { name: name.to_owned(), scale: Scale::FloatBits, samples };
    proof {
        assert(s@.samples =~= f32_samples(buffer@));
        assert(s@ =~= f32_series(name@, buffer@));
    }
    Ok(s)
}

/// Decodes a buffer under the SAW rule into the `rt` and `amp` series.
/// Fails exactly when the length is no multiple of the 4-byte record size.
pub fn calc_saw(buffer: &[u8]) -> (r: Result<Vec<RawSeries>, BoneError>)
    ensures
        r is Ok <==> buffer@.len() % 4 == 0,
        r matches Ok(v) ==> models_of(v@) == seq![saw_rt_series(buffer@), saw_amp_series(buffer@)],
        r matches Err(e) ==> e matches BoneError::Decode(_),
{
    if buffer.len() % 4 != 0 {
        return Err(BoneError::Decode(String::from_str(
            "sample length is no multiple of the 4-byte record size",
        )));
    }
    let words = collect_words(buffer);
    let mut rt: Vec<u32> = Vec::new();
    let mut amp: Vec<u32> = Vec::new();
    let mut k: usize = 0;
    while k < words.len()
        invariant
            buffer@.len() % 4 == 0,
            words@.len() == buffer@.len() as int / 4,
            forall|j: int|
                0 <= j < words@.len() ==> #[trigger] words@[j] as int == be32_at(buffer@, 4 * j),
            k <= words@.len(),
            rt@.len() == k,
            amp@.len() == k,
            forall|j: int|
                0 <= j < k ==> #[trigger] rt@[j] as int == be32_at(buffer@, 4 * j) / 4096,
            forall|j: int|
                0 <= j < k ==> #[trigger] amp@[j] as int == be32_at(buffer@, 4 * j) % 4096,
        decreases words@.len() - k,
    {
        let data = words[k];
        let runtime = (data & 0xfffff000) >> 12u32;
        let amplitude = data & 0x00000fff;
        proof {
            assert((data & 0xfffff000) >> 12u32 == data / 4096) by (bit_vector);
            assert(data & 0x00000fff == data % 4096) by (bit_vector);
        }
        rt.push(runtime);
        amp.push(amplitude);
        k += 1;
    }
    let rt_series = RawSeries {
        name: String::from_str("rt"),
        scale: Scale::SawRuntime,
        samples: rt,
    };
    let amp_series = RawSeries {
        name: String::from_str("amp"),
        scale: Scale::SawAmplitude,
        samples: amp,
    };
    let mut out: Vec<RawSeries> = Vec::new();
    out.push(rt_series);
    out.push(amp_series);
    proof {
        assert(out@[0]@.samples =~= saw_rt_series(buffer@).samples);
        assert(out@[1]@.samples =~= saw_amp_series(buffer@).samples);
        assert(out@[0]@ =~= saw_rt_series(buffer@));
        assert(out@[1]@ =~= saw_amp_series(buffer@));
        assert(models_of(out@) =~= seq![saw_rt_series(buffer@), saw_amp_series(buffer@)]);
    }
    Ok(out)
}

/// The samples of one multiplexed channel, in record order.
pub open spec fn ks_channel_samples(b: Seq<u8>, c: u8) -> Seq<int>
    decreases b.len(),
{
    if b.len() < 5 {
        Seq::empty()
    } else if b[0] == c {
        seq![be32_at(b, 1)] + ks_channel_samples(b.skip(5), c)
    } else {
        ks_channel_samples(b.skip(5), c)
    }
}

/// The name of a multiplexed channel's series.
pub open spec fn channel_label_chars(n: int) -> Seq<char> {
    "channel "@ + dec_chars_int(n)
}

/// A multiplexed body is valid when it falls into whole 5-byte records whose
/// channel bytes lie below 8.
pub open spec fn ks_valid(b: Seq<u8>) -> bool {
    &&& b.len() % 5 == 0
    &&& forall|k: int| 0 <= k < b.len() as int / 5 ==> #[trigger] b[5 * k] < 8
}

/// The series of the channels that carry at least one sample, beginning at
/// channel `c`, in channel order.
pub open spec fn ks_models_from(b: Seq<u8>, c: int) -> Seq<SeriesModel>
    decreases 8 - c,
{
    if c < 0 || c >= 8 {
        Seq::empty()
    } else {
        let rest = ks_models_from(b, c + 1);
        if ks_channel_samples(b, c as u8).len() > 0 {
            seq![
                SeriesModel {
                    name: channel_label_chars(c),
                    scale: Scale::FloatBits,
                    samples: ks_channel_samples(b, c as u8),
                },
            ] + rest
        } else {
            rest
        }
    }
}

/// Builds the series name `channel {n}`.
pub fn channel_label(n: i64) -> (r: String)
    ensures
        r@ == channel_label_chars(n as int),
{
    let prefix: &[u8] = "channel ".as_bytes();
    let mut bytes: Vec<u8> = slice_to_vec(prefix);
    push_dec_i64(n, &mut bytes);
    proof {
        lemma_dec_bytes_int_range(n as int);
        lemma_ascii_chars(dec_bytes_int(n as int));
        lemma_encode_utf8_concat("channel "@, dec_chars_int(n as int));
        assert(bytes@ =~= vstd::utf8::encode_utf8(channel_label_chars(n as int)));
        encode_utf8_valid_utf8(channel_label_chars(n as int));
        encode_utf8_decode_utf8(channel_label_chars(n as int));
    }
    string_from_utf8(bytes).unwrap()
}

/// Collects the samples of channel `c` from a multiplexed body.
fn ks_collect(buffer: &[u8], c: u8) -> (r: Vec<u32>)
    requires
        buffer@.len() % 5 == 0,
    ensures
        ints_of(r@) == ks_channel_samples(buffer@, c),
{
    let mut out: Vec<u32> = Vec::new();
    proof {
        assert(buffer@.skip(0) =~= buffer@);
        assert(ints_of(out@) =~= Seq::<int>::empty());
        assert(ints_of(out@) + ks_channel_samples(buffer@, c) =~= ks_channel_samples(
            buffer@,
            c,
        ));
    }
    let mut i: usize = 0;
    while i < buffer.len()
        invariant
            buffer@.len() % 5 == 0,
            i % 5 == 0,
            i <= buffer@.len(),
            ks_channel_samples(buffer@, c) == ints_of(out@) + ks_channel_samples(
                buffer@.skip(i as int),
                c,
            ),
        decreases buffer@.len() - i,
    {
        let ghost pre = out@;
        let rec_ch = buffer[i];
        let w = read_be32(buffer, i + 1);
        if rec_ch == c {
            out.push(w);
        }
        proof {
            let tail = buffer@.skip(i as int);
            assert(tail.len() >= 5);
            assert(tail[0] == buffer@[i as int]);
            assert(tail.skip(5) =~= buffer@.skip(i as int + 5));
            assert(be32_at(tail, 1) == be32_at(buffer@, i as int + 1));
            if rec_ch == c {
                assert(ints_of(out@) =~= ints_of(pre) + seq![w as int]);
                assert(ints_of(pre) + (seq![be32_at(tail, 1)] + ks_channel_samples(
                    tail.skip(5),
                    c,
                )) =~= (ints_of(pre) + seq![be32_at(tail, 1)]) + ks_channel_samples(
                    tail.skip(5),
                    c,
                ));
            } else {
                assert(out@ == pre);
            }
        }
        i += 5;
    }
    proof {
        assert(buffer@.skip(buffer@.len() as int).len() == 0);
        assert(ints_of(out@) + Seq::<int>::empty() =~= ints_of(out@));
    }
    out
}

fn ks_check(buffer: &[u8]) -> (ok: bool)
    requires
        buffer@.len() % 5 == 0,
    ensures
        ok <==> ks_valid(buffer@),
{
    let mut i: usize = 0;
    while i < buffer.len()
        invariant
            buffer@.len() % 5 == 0,
            i % 5 == 0,
            i <= buffer@.len(),
            forall|k: int| 0 <= k < i as int / 5 ==> #[trigger] buffer@[5 * k] < 8,
        decreases buffer@.len() - i,
    {
        if buffer[i] >= 8 {
            proof {
                assert(5 * (i as int / 5) == i as int);
                assert(!ks_valid(buffer@));
            }
            return false;
        }
        proof {
            assert(5 * (i as int / 5) == i as int);
        }
        i += 5;
    }
    true
}

/// Decodes a multiplexed body: 5-byte records of a channel byte and a word.
/// Yields one series per channel that carries samples, in channel order.
/// Fails exactly when the body falls out of whole records or a channel byte
/// lies outside `[0, 8)`.
pub fn calc_f32_ks_sync(buffer: &[u8]) -> (r: Result<Vec<RawSeries>, BoneError>)
    ensures
        r is Ok <==> ks_valid(buffer@),
        r matches Ok(v) ==> models_of(v@) == ks_models_from(buffer@, 0),
        r matches Err(e) ==> e matches BoneError::Decode(_),
{
    if buffer.len() % 5 != 0 {
        return Err(BoneError::Decode(String::from_str(
            "sample length is no multiple of the 5-byte record size",
        )));
    }
    if !ks_check(buffer) {
        return Err(BoneError::Decode(String::from_str("channel byte out of range")));
    }
    let mut out: Vec<RawSeries> = Vec::new();
    let mut c: u8 = 0;
    while c < 8
        invariant
            buffer@.len() % 5 == 0,
            ks_valid(buffer@),
            c <= 8,
            models_of(out@) + ks_models_from(buffer@, c as int) == ks_models_from(buffer@, 0),
        decreases 8 - c,
    {
        let ghost pre = models_of(out@);
        let samples = ks_collect(buffer, c);
        if samples.len() > 0 {
            let name = channel_label(c as i64);
            let s = RawSeries { name, scale: Scale::FloatBits, samples };
            proof {
                assert(ks_channel_samples(buffer@, c).len() > 0);
                assert(s@ =~= SeriesModel {
                    name: channel_label_chars(c as int),
                    scale: Scale::FloatBits,
                    samples: ks_channel_samples(buffer@, c),
                });
            }
            out.push(s);
            proof {
                assert(models_of(out@) =~= pre + seq![s@]);
                assert((pre + seq![s@]) + ks_models_from(buffer@, c as int + 1) =~= pre + (
                seq![s@] + ks_models_from(buffer@, c as int + 1)));
            }
        } else {
            proof {
                assert(ks_channel_samples(buffer@, c).len() == 0);
            }
        }
        c += 1;
    }
    proof {
        assert(models_of(out@) + Seq::<SeriesModel>::empty() =~= models_of(out@));
    }
    Ok(out)
}

/// The raw values of a legacy hex-triplet body, one per 3-character group.
pub open spec fn dv_val(b: Seq<u8>, k: int) -> int {
    hex_val(b.subrange(3 * k, 3 * k + 3))
}

/// Decodes a legacy body of ASCII hex triplets into one flat series of raw
/// values in `[0, 4095]`. Fails exactly when the length is no multiple of 3
/// or a byte is no hexadecimal digit.
pub fn calc_dv(buffer: &[u8]) -> (r: Result<Vec<u32>, BoneError>)
    ensures
        r is Ok <==> (buffer@.len() % 3 == 0 && all_hex_digits(buffer@)),
        r matches Ok(v) ==> v@.len() == buffer@.len() as int / 3 && forall|k: int|
            0 <= k < v@.len() ==> #[trigger] v@[k] as int == dv_val(buffer@, k),
        r matches Err(e) ==> e matches BoneError::Decode(_),
{
    if buffer.len() % 3 != 0 {
        return Err(BoneError::Decode(String::from_str(
            "sample length is no multiple of the 3-character group size",
        )));
    }
    let mut out: Vec<u32> = Vec::new();
    let mut i: usize = 0;
    while i < buffer.len()
        invariant
            buffer@.len() % 3 == 0,
            i % 3 == 0,
            i <= buffer@.len(),
            out@.len() == i as int / 3,
            all_hex_digits(buffer@.take(i as int)),
            forall|k: int|
                0 <= k < out@.len() ==> #[trigger] out@[k] as int == dv_val(buffer@, k),
        decreases buffer@.len() - i,
    {
        let chunk = slice_subrange(buffer, i, i + 3);
        match parse_hex_u32(chunk) {
            None => {
                proof {
                    if all_hex_digits(buffer@) {
                        assert forall|j: int| 0 <= j < 3 implies is_hex_digit(
                            #[trigger] chunk@[j],
                        ) by {
                            assert(chunk@[j] == buffer@[i + j]);
                        }
                        assert(all_hex_digits(chunk@));
                    }
                }
                return Err(BoneError::Decode(String::from_str(
                    "sample byte is no hexadecimal digit",
                )));
            },
            Some(n) => {
                proof {
                    assert(3 * (i as int / 3) == i as int);
                    assert(chunk@ == buffer@.subrange(i as int, i as int + 3));
                    assert forall|j: int| 0 <= j < i + 3 implies is_hex_digit(
                        #[trigger] buffer@.take(i as int + 3)[j],
                    ) by {
                        if j < i {
                            assert(buffer@.take(i as int)[j] == buffer@.take(i as int + 3)[j]);
                            assert(is_hex_digit(buffer@.take(i as int)[j]));
                        } else {
                            assert(buffer@.take(i as int + 3)[j] == chunk@[j - i]);
                        }
                    }
                }
                out.push(n);
                i += 3;
            },
        }
    }
    proof {
        assert(buffer@.take(buffer@.len() as int) =~= buffer@);
    }
    Ok(out)
}

/// The labels of a filter, as character sequences.
pub open spec fn labels_of(f: Seq<String>) -> Seq<Seq<char>> {
    Seq::new(f.len(), |j: int| f[j]@)
}

/// The series of a `sync` body split under a filter: one equal chunk per
/// label in order, the `saw` label under the SAW rule, every other label
/// under the float-bits rule with the label as the series name.
pub open spec fn sync_models(b: Seq<u8>, labels: Seq<Seq<char>>, pos: int, cl: int) -> Seq<
    SeriesModel,
>
    decreases labels.len(),
{
    if labels.len() == 0 {
        Seq::empty()
    } else {
        let chunk = b.subrange(pos, pos + cl);
        (if labels[0] == "saw"@ {
            seq![saw_rt_series(chunk), saw_amp_series(chunk)]
        } else {
            seq![f32_series(labels[0], chunk)]
        }) + sync_models(b, labels.drop_first(), pos + cl, cl)
    }
}

/// Splits a `sync` response body into one equal contiguous chunk per filter
/// label, in byte order, and decodes each chunk under its label's rule.
/// Fails exactly when the filter holds no labels, the body does not divide
/// evenly among them, or a chunk falls out of whole 4-byte words.
pub fn decode_sync_body(buffer: &[u8], filter: &Vec<String>) -> (r: Result<
    Vec<RawSeries>,
    BoneError,
>)
    ensures
        r is Ok <==> (filter@.len() > 0 && buffer@.len() % filter@.len() == 0 && (
        buffer@.len() / filter@.len()) % 4 == 0),
        r matches Ok(v) ==> models_of(v@) == sync_models(
            buffer@,
            labels_of(filter@),
            0,
            buffer@.len() as int / filter@.len() as int,
        ),
        r matches Err(e) ==> e matches BoneError::Decode(_),
{
    if filter.len() == 0 {
        return Err(BoneError::Decode(String::from_str("the filter holds no labels")));
    }
    if buffer.len() % filter.len() != 0 {
        return Err(BoneError::Decode(String::from_str(
            "the body does not divide evenly among the filter labels",
        )));
    }
    let cl = buffer.len() / filter.len();
    if cl % 4 != 0 {
        return Err(BoneError::Decode(String::from_str(
            "a chunk is no multiple of the 4-byte record size",
        )));
    }
    let ghost labels = labels_of(filter@);
    let mut out: Vec<RawSeries> = Vec::new();
    let mut j: usize = 0;
    let mut pos: usize = 0;
    proof {
        assert(labels.skip(0) =~= labels);
        assert(models_of(out@) =~= Seq::<SeriesModel>::empty());
        assert(models_of(out@) + sync_models(buffer@, labels, 0, cl as int) =~= sync_models(
            buffer@,
            labels,
            0,
            cl as int,
        ));
        assert(buffer@.len() as int == filter@.len() as int * (buffer@.len() as int
            / filter@.len() as int)) by (nonlinear_arith)
            requires
                filter@.len() > 0,
                buffer@.len() % filter@.len() == 0,
        ;
    }
    while j < filter.len()
        invariant
            labels == labels_of(filter@),
            labels.len() == filter@.len(),
            filter@.len() > 0,
            buffer@.len() % filter@.len() == 0,
            cl as int == buffer@.len() as int / filter@.len() as int,
            buffer@.len() == filter@.len() * cl,
            cl % 4 == 0,
            j <= filter@.len(),
            pos == j * cl,
            pos <= buffer@.len(),
            models_of(out@) + sync_models(buffer@, labels.skip(j as int), pos as int, cl as int)
                == sync_models(buffer@, labels, 0, cl as int),
        decreases filter@.len() - j,
    {
        proof {
            assert((j + 1) * cl <= filter@.len() * cl) by (nonlinear_arith)
                requires
                    j + 1 <= filter@.len(),
                    cl >= 0,
            ;
            assert((j + 1) * cl == j * cl + cl) by (nonlinear_arith);
            assert(pos + cl <= buffer@.len());
        }
        let blen = buffer.len();
        proof {
            assert(pos + cl <= blen);
        }
        let chunk = slice_subrange(buffer, pos, pos + cl);
        let ghost pre = models_of(out@);
        let ghost tail = labels.skip(j as int);
        proof {
            assert(tail[0] == labels[j as int]);
            assert(labels[j as int] == filter@[j as int]@);
            assert(tail.drop_first() =~= labels.skip(j as int + 1));
            assert(chunk@ == buffer@.subrange(pos as int, pos as int + cl));
        }
        let is_saw = crate::value::str_eq(filter[j].as_str(), "saw");
        if is_saw {
            match calc_saw(chunk) {
                Ok(mut two) => {
                    proof {
                        assert(models_of(two@) == seq![
                            saw_rt_series(chunk@),
                            saw_amp_series(chunk@),
                        ]);
                    }
                    let ghost gtwo = two@;
                    out.append(&mut two);
                    proof {
                        assert forall|t: int|
                            0 <= t < out@.len() implies #[trigger] models_of(out@)[t] == (
                        pre + models_of(gtwo))[t] by {
                            if t < pre.len() {
                            } else {
                                assert(out@[t] == gtwo[t - pre.len()]);
                            }
                        }
                        assert(models_of(out@) =~= pre + models_of(gtwo));
                        assert((pre + models_of(gtwo)) + sync_models(
                            buffer@,
                            labels.skip(j as int + 1),
                            pos as int + cl,
                            cl as int,
                        ) =~= pre + (models_of(gtwo) + sync_models(
                            buffer@,
                            labels.skip(j as int + 1),
                            pos as int + cl,
                            cl as int,
                        )));
                    }
                },
                Err(e) => {
                    proof {
                        assert(chunk@.len() % 4 == 0);
                        assert(false);
                    }
                    return Err(e);
                },
            }
        } else {
            match calc_f32(chunk, filter[j].as_str()) {
                Ok(s) => {
                    proof {
                        assert(s@ == f32_series(filter@[j as int]@, chunk@));
                    }
                    let ghost gs = s@;
                    out.push(s);
                    proof {
                        assert forall|t: int|
                            0 <= t < out@.len() implies #[trigger] models_of(out@)[t] == (
                        pre + seq![gs])[t] by {
                            if t < pre.len() {
                            }
                        }
                        assert(models_of(out@) =~= pre + seq![gs]);
                        assert((pre + seq![gs]) + sync_models(
                            buffer@,
                            labels.skip(j as int + 1),
                            pos as int + cl,
                            cl as int,
                        ) =~= pre + (seq![gs] + sync_models(
                            buffer@,
                            labels.skip(j as int + 1),
                            pos as int + cl,
                            cl as int,
                        )));
                    }
                },
                Err(e) => {
                    proof {
                        assert(chunk@.len() % 4 == 0);
                        assert(false);
                    }
                    return Err(e);
                },
            }
        }
        j += 1;
        pos += cl;
    }
    proof {
        assert(labels.skip(labels.len() as int).len() == 0);
        assert(models_of(out@) + Seq::<SeriesModel>::empty() =~= models_of(out@));
    }
    Ok(out)
}

} // verus!
