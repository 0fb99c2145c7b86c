use bone_api::telemetry::calc_dv;
use bone_api::telemetry::calc_f32;
use bone_api::telemetry::calc_f32_ks_sync;
use bone_api::telemetry::calc_saw;
use bone_api::telemetry::channel_label;
use bone_api::telemetry::decode_sync_body;
use bone_api::telemetry::Scale;
use bone_api::error::BoneError;

fn be_word(w: u32) -> Vec<u8> {
    vec![(w >> 24) as u8, (w >> 16) as u8, (w >> 8) as u8, w as u8]
}

fn saw_rt_value(raw: u32) -> f32 {
    let mut runtime: f32 = raw as f32;
    runtime /= 521.0;
    runtime *= 100.0;
    runtime
}

fn saw_amp_value(raw: u32) -> f32 {
    let mut amplitude: f32 = raw as f32;
    amplitude /= 4096.0;
    amplitude *= 5.0;
    amplitude -= 2.5;
    amplitude *= 2.0;
    amplitude
}

#[test]
fn saw_zero_word() {
    let buffer = be_word(0x0000_0000);
    let series = calc_saw(&buffer).unwrap();
    assert_eq!(series.len(), 2);
    assert_eq!(series[0].name, "rt");
    assert_eq!(series[0].scale, Scale::SawRuntime);
    assert_eq!(series[0].samples, vec![0]);
    assert_eq!(series[1].name, "amp");
    assert_eq!(series[1].scale, Scale::SawAmplitude);
    assert_eq!(series[1].samples, vec![0]);
    assert_eq!(saw_rt_value(series[0].samples[0]), 0.0);
    assert_eq!(saw_amp_value(series[1].samples[0]), -5.0);
}

#[test]
fn saw_all_ones_word() {
    let buffer = be_word(0xFFFF_FFFF);
    let series = calc_saw(&buffer).unwrap();
    assert_eq!(series[0].samples, vec![0xFFFFF]);
    assert_eq!(series[1].samples, vec![0xFFF]);
    assert_eq!(saw_rt_value(series[0].samples[0]), 0xFFFFF as f32 / 521.0 * 100.0);
    assert_eq!(
        saw_amp_value(series[1].samples[0]),
        (0xFFF as f32 / 4096.0 * 5.0 - 2.5) * 2.0
    );
}

#[test]
fn saw_two_words_in_order() {
    let mut buffer = be_word(0x0000_1001);
    buffer.extend_from_slice(&be_word(0x0000_2002));
    let series = calc_saw(&buffer).unwrap();
    assert_eq!(series[0].samples, vec![0x1, 0x2]);
    assert_eq!(series[1].samples, vec![0x001, 0x002]);
}

#[test]
fn saw_rejects_partial_word() {
    let buffer = vec![0, 0, 0];
    assert!(matches!(calc_saw(&buffer), Err(BoneError::Decode(_))));
}

#[test]
fn float_bits_of_one_point_five() {
    let buffer = be_word(0x3FC0_0000);
    let series = calc_f32(&buffer, "int").unwrap();
    assert_eq!(series.name, "int");
    assert_eq!(series.scale, Scale::FloatBits);
    assert_eq!(series.samples, vec![0x3FC0_0000]);
    assert_eq!(f32::from_bits(series.samples[0]), 1.5);
}

#[test]
fn float_bits_rejects_partial_word() {
    let buffer = vec![1, 2, 3, 4, 5];
    assert!(matches!(calc_f32(&buffer, "int"), Err(BoneError::Decode(_))));
}

#[test]
fn multiplexed_two_channels() {
    let mut buffer = vec![0u8];
    buffer.extend_from_slice(&be_word(0x3F80_0000));
    buffer.push(3);
    buffer.extend_from_slice(&be_word(0x4000_0000));
    let series = calc_f32_ks_sync(&buffer).unwrap();
    assert_eq!(series.len(), 2);
    assert_eq!(series[0].name, "channel 0");
    assert_eq!(series[0].samples, vec![0x3F80_0000]);
    assert_eq!(f32::from_bits(series[0].samples[0]), 1.0);
    assert_eq!(series[1].name, "channel 3");
    assert_eq!(series[1].samples, vec![0x4000_0000]);
    assert_eq!(f32::from_bits(series[1].samples[0]), 2.0);
}

#[test]
fn multiplexed_groups_by_channel_in_record_order() {
    let mut buffer = vec![5u8];
    buffer.extend_from_slice(&be_word(1));
    buffer.push(2);
    buffer.extend_from_slice(&be_word(2));
    buffer.push(5);
    buffer.extend_from_slice(&be_word(3));
    let series = calc_f32_ks_sync(&buffer).unwrap();
    assert_eq!(series.len(), 2);
    assert_eq!(series[0].name, "channel 2");
    assert_eq!(series[0].samples, vec![2]);
    assert_eq!(series[1].name, "channel 5");
    assert_eq!(series[1].samples, vec![1, 3]);
}

#[test]
fn multiplexed_rejects_partial_record() {
    let buffer = vec![0, 1, 2, 3];
    assert!(matches!(calc_f32_ks_sync(&buffer), Err(BoneError::Decode(_))));
}

#[test]
fn multiplexed_rejects_channel_out_of_range() {
    let mut buffer = vec![8u8];
    buffer.extend_from_slice(&be_word(0));
    assert!(matches!(calc_f32_ks_sync(&buffer), Err(BoneError::Decode(_))));
}

fn dv_value(raw: u32) -> f32 {
    (raw as f32 - 2048.) / 4096. * 5.
}

#[test]
fn legacy_triplets() {
    let series = calc_dv(b"800").unwrap();
    assert_eq!(series, vec![2048]);
    assert_eq!(dv_value(series[0]), 0.0);

    let series = calc_dv(b"000").unwrap();
    assert_eq!(series, vec![0]);
    assert_eq!(dv_value(series[0]), -2.5);

    let series = calc_dv(b"fff").unwrap();
    assert_eq!(series, vec![4095]);
    assert_eq!(dv_value(series[0]), (4095. - 2048.) / 4096. * 5.);
    assert!((dv_value(series[0]) - 2.4988).abs() < 0.001);
}

#[test]
fn legacy_flat_series_in_order() {
    let series = calc_dv(b"800000fff").unwrap();
    assert_eq!(series, vec![2048, 0, 4095]);
}

#[test]
fn legacy_rejects_partial_group() {
    assert!(matches!(calc_dv(b"80"), Err(BoneError::Decode(_))));
}

#[test]
fn legacy_rejects_non_hex() {
    assert!(matches!(calc_dv(b"80g"), Err(BoneError::Decode(_))));
}

#[test]
fn sync_split_two_labels() {
    let mut body = be_word(0x0000_1001);
    body.extend_from_slice(&be_word(0x3F80_0000));
    let filter = vec!["saw".to_string(), "int".to_string()];
    let series = decode_sync_body(&body, &filter).unwrap();
    assert_eq!(series.len(), 3);
    assert_eq!(series[0].name, "rt");
    assert_eq!(series[0].samples, vec![0x1]);
    assert_eq!(series[1].name, "amp");
    assert_eq!(series[1].samples, vec![0x001]);
    assert_eq!(series[2].name, "int");
    assert_eq!(series[2].samples, vec![0x3F80_0000]);
}

#[test]
fn sync_split_rejects_indivisible_body() {
    let body = vec![0u8; 10];
    let filter = vec![
        "saw".to_string(),
        "int2".to_string(),
        "coe".to_string(),
        "int".to_string(),
    ];
    assert!(matches!(
        decode_sync_body(&body, &filter),
        Err(BoneError::Decode(_))
    ));
}

#[test]
fn sync_split_rejects_empty_filter() {
    let body = vec![0u8; 8];
    let filter: Vec<String> = Vec::new();
    assert!(matches!(
        decode_sync_body(&body, &filter),
        Err(BoneError::Decode(_))
    ));
}

#[test]
fn sync_split_rejects_partial_words() {
    let body = vec![0u8; 6];
    let filter = vec!["a".to_string(), "b".to_string()];
    assert!(matches!(
        decode_sync_body(&body, &filter),
        Err(BoneError::Decode(_))
    ));
}

#[test]
fn channel_label_text() {
    assert_eq!(channel_label(0), "channel 0");
    assert_eq!(channel_label(7), "channel 7");
    assert_eq!(channel_label(42), "channel 42");
    assert_eq!(channel_label(-3), "channel -3");
}
