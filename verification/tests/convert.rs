//! Conversion of checkpoints.

use maolan_generate::convert::archive::{
    read_u16_le, read_u32_le, zip_entries, zip_entry_data, ZipError,
};
use maolan_generate::convert::checkpoint::{
    convert_safetensors, list_safetensors, CheckpointError, ConvertedTensor, FileError,
};
use maolan_generate::convert::decode::{
    bf16_bytes_to_f32, decode_safetensor, decode_torch_storage, f16_bytes_to_f32, f32_bytes_to_vec,
    f64_bytes_to_f32, has_count, DecodeError,
};
use maolan_generate::convert::messages::{list_line, report, shape_text, silence_report};
use maolan_generate::convert::names::Component;
use maolan_generate::convert::torch::{read_raw_silence, read_torch_save, time_major, RawError, TorchError};
use maolan_generate::single::Single;

fn floats(values: &[Single]) -> Vec<f32> {
    values.iter().map(|value| f32::from_bits(value.bits)).collect()
}

fn test_safetensors(tensors: &[(&str, &str, &[usize], &[u8])]) -> Vec<u8> {
    let mut entries = Vec::new();
    let mut offset = 0_usize;
    for (name, dtype, shape, data) in tensors {
        entries.push(format!(
            "\"{name}\":{{\"dtype\":\"{dtype}\",\"shape\":{shape:?},\
             \"data_offsets\":[{offset},{}]}}",
            offset + data.len()
        ));
        offset += data.len();
    }
    let header = format!("{{{}}}", entries.join(","));
    let mut file = (header.len() as u64).to_le_bytes().to_vec();
    file.extend_from_slice(header.as_bytes());
    for (_, _, _, data) in tensors {
        file.extend_from_slice(data);
    }
    file
}

fn build_stored_zip(entries: &[(&str, &[u8])]) -> Vec<u8> {
    let mut out = Vec::new();
    let mut central = Vec::new();
    for (name, data) in entries {
        let offset = out.len() as u32;
        out.extend_from_slice(&0x0403_4b50_u32.to_le_bytes());
        out.extend_from_slice(&20_u16.to_le_bytes());
        out.extend_from_slice(&[0; 12]);
        out.extend_from_slice(&(data.len() as u32).to_le_bytes());
        out.extend_from_slice(&(data.len() as u32).to_le_bytes());
        out.extend_from_slice(&(name.len() as u16).to_le_bytes());
        out.extend_from_slice(&0_u16.to_le_bytes());
        out.extend_from_slice(name.as_bytes());
        out.extend_from_slice(data);

        central.extend_from_slice(&0x0201_4b50_u32.to_le_bytes());
        central.extend_from_slice(&20_u16.to_le_bytes());
        central.extend_from_slice(&20_u16.to_le_bytes());
        central.extend_from_slice(&[0; 12]);
        central.extend_from_slice(&(data.len() as u32).to_le_bytes());
        central.extend_from_slice(&(data.len() as u32).to_le_bytes());
        central.extend_from_slice(&(name.len() as u16).to_le_bytes());
        central.extend_from_slice(&[0; 12]);
        central.extend_from_slice(&offset.to_le_bytes());
        central.extend_from_slice(name.as_bytes());
    }
    let cd_offset = out.len() as u32;
    let cd_size = central.len() as u32;
    out.extend_from_slice(&central);
    out.extend_from_slice(&0x0605_4b50_u32.to_le_bytes());
    out.extend_from_slice(&[0; 4]);
    out.extend_from_slice(&(entries.len() as u16).to_le_bytes());
    out.extend_from_slice(&(entries.len() as u16).to_le_bytes());
    out.extend_from_slice(&cd_size.to_le_bytes());
    out.extend_from_slice(&cd_offset.to_le_bytes());
    out.extend_from_slice(&0_u16.to_le_bytes());
    out
}

fn torch_tensor_pickle() -> Vec<u8> {
    let mut out = Vec::new();
    out.extend_from_slice(b"\x80\x02");
    out.extend_from_slice(b"ctorch._utils\n_rebuild_tensor_v2\n");
    out.extend_from_slice(b"((X\x07\x00\x00\x00storage");
    out.extend_from_slice(b"ctorch\nFloatStorage\n");
    out.extend_from_slice(b"X\x01\x00\x00\x000");
    out.extend_from_slice(b"X\x03\x00\x00\x00cpu");
    out.extend_from_slice(b"K\x06tQK\x00");
    out.extend_from_slice(b"(K\x01K\x02K\x03t");
    out.extend_from_slice(b"(K\x06K\x03K\x01t");
    out.push(0x89);
    out.extend_from_slice(b"ccollections\nOrderedDict\n");
    out.extend_from_slice(b")RtR.");
    out
}

fn single_bytes(values: &[f32]) -> Vec<u8> {
    values.iter().copied().flat_map(f32::to_le_bytes).collect()
}

#[test]
fn bf16_conversion_is_exact() {
    let bytes = [0x80, 0x3F, 0x20, 0xC0, 0x01, 0x7F];
    let values = bf16_bytes_to_f32(&bytes).unwrap();
    assert_eq!(f32::from_bits(values[0].bits), 1.0);
    assert_eq!(f32::from_bits(values[1].bits), -2.5);
    assert_eq!(values[2].bits, 0x7F01_0000);
}

#[test]
fn f16_and_f32_conversion() {
    let f16_bytes = [
        half::f16::from_f32(1.5).to_le_bytes(),
        half::f16::from_f32(-0.25).to_le_bytes(),
    ]
    .concat();
    assert_eq!(floats(&f16_bytes_to_f32(&f16_bytes).unwrap()), vec![1.5, -0.25]);

    let f32_bytes = [1.25_f32.to_le_bytes(), (-3.5_f32).to_le_bytes()].concat();
    assert_eq!(floats(&f32_bytes_to_vec(&f32_bytes).unwrap()), vec![1.25, -3.5]);
}

#[test]
fn decoders_refuse_broken_lengths() {
    assert!(matches!(bf16_bytes_to_f32(&[1]), Err(DecodeError::OddBfloat16)));
    assert!(matches!(f16_bytes_to_f32(&[1, 2, 3]), Err(DecodeError::OddHalf)));
    assert!(matches!(f32_bytes_to_vec(&[1, 2, 3]), Err(DecodeError::NotSingles)));
    assert!(matches!(f64_bytes_to_f32(&[1, 2, 3, 4]), Err(DecodeError::NotDoubles)));
    assert_eq!(DecodeError::OddBfloat16.message(), DecodeError::OddBfloat16.message());
    match decode_safetensor("I64", &[]) {
        Err(DecodeError::UnsupportedDtype(name)) => assert_eq!(name, "I64"),
        _ => panic!("whole numbers are no weights"),
    }
    match decode_torch_storage("LongStorage", &[]) {
        Err(DecodeError::UnsupportedStorage(name)) => assert_eq!(name, "LongStorage"),
        _ => panic!("whole numbers are no latent"),
    }
    assert_eq!(floats(&decode_torch_storage("DoubleStorage", &2.5f64.to_le_bytes()).unwrap()), vec![2.5]);
    assert_eq!(floats(&decode_torch_storage("BFloat16Storage", &[0x80, 0x3f]).unwrap()), vec![1.0]);
    assert_eq!(floats(&decode_torch_storage("HalfStorage", &[0x00, 0x3c]).unwrap()), vec![1.0]);
}

#[test]
fn counts_follow_the_shape() {
    assert!(has_count(&[2, 3, 4], 24));
    assert!(has_count(&[], 1));
    assert!(has_count(&[usize::MAX, 2, 0], 0));
    assert!(!has_count(&[usize::MAX, 2], usize::MAX - 1));
}

#[test]
fn dit_safetensors_roundtrip() {
    let bf16_values = [1.0_f32, -2.5, 0.5, 2.0, 3.25, -1.0];
    let bf16_bytes: Vec<u8> = bf16_values
        .iter()
        .flat_map(|value| ((value.to_bits() >> 16) as u16).to_le_bytes())
        .collect();
    let f32_values = [0.125_f32, -0.5, 4.0, 8.0];
    let f32_bytes = single_bytes(&f32_values);
    let f16_values = [1.5_f32, -0.25];
    let f16_bytes: Vec<u8> = f16_values
        .iter()
        .flat_map(|value| half::f16::from_f32(*value).to_le_bytes())
        .collect();
    let file = test_safetensors(&[
        ("decoder.proj_in.1.weight", "BF16", &[2, 3], &bf16_bytes),
        ("decoder.layers.0.self_attn.q_proj.weight", "F32", &[2, 2], &f32_bytes),
        ("decoder.scale_shift_table", "F16", &[1, 2], &f16_bytes),
        ("encoder.text_projector.weight", "F32", &[2, 2], &f32_bytes),
        ("null_condition_emb", "F32", &[2, 2], &f32_bytes),
    ]);

    let (tensors, skipped) = convert_safetensors(Component::Dit, &vec![file]).unwrap();
    assert_eq!(tensors.len(), 3);
    assert_eq!(
        skipped,
        vec!["encoder.text_projector.weight".to_string(), "null_condition_emb".to_string()]
    );
    let find = |name: &str| -> (Vec<usize>, Vec<f32>) {
        let tensor = tensors.iter().find(|tensor| tensor.name == name).unwrap();
        (tensor.shape.clone(), floats(&tensor.data))
    };
    assert_eq!(find("proj_in.conv.weight"), (vec![2, 3], bf16_values.to_vec()));
    assert_eq!(find("layers.0.self_attn.q_proj.weight"), (vec![2, 2], f32_values.to_vec()));
    assert_eq!(find("scale_shift_table"), (vec![1, 2], f16_values.to_vec()));
}

#[test]
fn text_encoder_roundtrip_via_component() {
    let f32_bytes = single_bytes(&[7.0, -1.0]);
    let file = test_safetensors(&[
        ("model.embed_tokens.weight", "F32", &[1, 2], &f32_bytes),
        ("model.norm.weight", "F32", &[1, 2], &f32_bytes),
        ("lm_head.weight", "F32", &[1, 2], &f32_bytes),
    ]);
    let (tensors, skipped) = convert_safetensors(Component::Lm, &vec![file]).unwrap();
    assert_eq!(skipped, vec!["lm_head.weight".to_string()]);
    let names: Vec<&str> = tensors.iter().map(|tensor| tensor.name.as_str()).collect();
    assert_eq!(names, vec!["embed_tokens.weight", "norm.weight"]);
}

#[test]
fn shards_are_converted_together() {
    let one = single_bytes(&[1.0]);
    let first = test_safetensors(&[("decoder.b", "F32", &[1], &one), ("x", "F32", &[1], &one)]);
    let second = test_safetensors(&[("decoder.a", "F32", &[1], &one), ("x", "F32", &[1], &one)]);
    let (tensors, skipped) = convert_safetensors(Component::Vae, &vec![first, second]).unwrap();
    let names: Vec<&str> = tensors.iter().map(|tensor| tensor.name.as_str()).collect();
    assert_eq!(names, vec!["a", "b"]);
    assert_eq!(skipped, vec!["x", "x"]);
}

#[test]
fn checkpoint_errors() {
    let one = single_bytes(&[1.0]);
    let good = test_safetensors(&[("model.a", "F32", &[1], &one)]);
    assert!(matches!(
        convert_safetensors(Component::Lm, &vec![good.clone(), vec![1, 2, 3]]),
        Err(CheckpointError::Parse(1, _))
    ));
    match convert_safetensors(Component::Lm, &vec![good.clone(), good]) {
        Err(CheckpointError::Collision(name)) => assert_eq!(name, "a"),
        _ => panic!("the same name twice"),
    }
    let whole = test_safetensors(&[("model.a", "I32", &[1], &one)]);
    match convert_safetensors(Component::Lm, &vec![whole]) {
        Err(CheckpointError::Decode(name, DecodeError::UnsupportedDtype(dtype))) => {
            assert_eq!((name.as_str(), dtype.as_str()), ("model.a", "I32"));
        }
        _ => panic!("whole numbers are no weights"),
    }
}

#[test]
fn the_first_reason_is_told() {
    let one = single_bytes(&[1.0]);
    let broken = vec![1, 2, 3];
    let odd = test_safetensors(&[("model.a", "F64", &[1], &[0; 8])]);
    match convert_safetensors(Component::Lm, &vec![odd.clone(), broken.clone()]) {
        Err(CheckpointError::Decode(name, DecodeError::UnsupportedDtype(dtype))) => {
            assert_eq!((name.as_str(), dtype.as_str()), ("model.a", "F64"));
        }
        other => panic!("{other:?}"),
    }
    assert!(matches!(
        convert_safetensors(Component::Lm, &vec![broken, odd]),
        Err(CheckpointError::Parse(0, FileError::Parse(_)))
    ));
    let twice = test_safetensors(&[
        ("model.c", "F32", &[1], &one),
        ("model.b", "F32", &[1], &one),
        ("model.a", "F32", &[1], &one),
    ]);
    let again =
        test_safetensors(&[("model.c", "F32", &[1], &one), ("model.b", "F32", &[1], &one)]);
    match convert_safetensors(Component::Lm, &vec![twice, again]) {
        Err(CheckpointError::Collision(name)) => assert_eq!(name, "b"),
        other => panic!("{other:?}"),
    }
}

#[test]
fn listing_gives_a_line_for_each_tensor() {
    let one = single_bytes(&[1.0, 2.0]);
    let file = test_safetensors(&[("b", "F32", &[1, 2], &one), ("a", "BF16", &[4], &one)]);
    let mut lines = list_safetensors(&file).unwrap();
    lines.sort();
    assert_eq!(lines, vec!["a\tBF16\t[4]", "b\tF32\t[1, 2]"]);
    assert!(matches!(list_safetensors(&[]), Err(CheckpointError::Parse(0, FileError::Parse(_)))));
    let header = br#"{"a":{"dtype":"U8","shape":[18446744073709551615],"data_offsets":[0,18446744073709551615]}}"#;
    let mut file = (header.len() as u64).to_le_bytes().to_vec();
    file.extend_from_slice(header);
    assert!(matches!(
        list_safetensors(&file),
        Err(CheckpointError::Parse(0, FileError::Incomplete))
    ));
    let header = br#"{"a":["U8",[9],[0,9]]}"#;
    let mut file = (header.len() as u64).to_le_bytes().to_vec();
    file.extend_from_slice(header);
    assert!(matches!(list_safetensors(&file), Err(CheckpointError::Parse(0, _))));
}

#[test]
fn torch_save_roundtrip() {
    let values = [0.1_f32, 0.2, 0.3, 0.4, 0.5, 0.6];
    let zip = build_stored_zip(&[
        ("archive/data.pkl", &torch_tensor_pickle()),
        ("archive/data/0", &single_bytes(&values)),
    ]);
    let (spec, data) = read_torch_save(&zip).unwrap();
    assert_eq!(spec.storage_type, "FloatStorage");
    assert_eq!(spec.storage_key, "0");
    assert_eq!(spec.storage_offset, 0);
    assert_eq!(spec.shape, vec![1, 2, 3]);
    assert_eq!(floats(&data), values.to_vec());
}

#[test]
fn compressed_zip_entry_is_a_clear_error() {
    let mut zip = build_stored_zip(&[("archive/data.pkl", &torch_tensor_pickle())]);
    zip[8] = 8;
    let central = zip
        .windows(4)
        .position(|window| window == 0x0201_4b50_u32.to_le_bytes())
        .unwrap();
    zip[central + 10] = 8;
    match read_torch_save(&zip) {
        Err(TorchError::Entry(error)) => assert!(error.message().contains("compressed")),
        _ => panic!("a compressed entry must be refused"),
    }
}

#[test]
fn archive_errors() {
    assert!(matches!(zip_entries(&[]), Err(ZipError::NoEndRecord)));
    assert!(matches!(read_u16_le(&[1], 0), Err(ZipError::UnexpectedEnd(0))));
    assert!(matches!(read_u32_le(&[1, 2, 3, 4], 1), Err(ZipError::UnexpectedEnd(1))));
    assert!(matches!(read_u16_le(&[1, 2], u64::MAX), Err(ZipError::UnexpectedEnd(u64::MAX))));
    assert_eq!(read_u16_le(&[9, 1, 2], 1).unwrap(), 0x0201);
    assert_eq!(read_u32_le(&[1, 2, 3, 4], 0).unwrap(), 0x0403_0201);

    let plain = build_stored_zip(&[("a", b"xyz")]);
    let entries = zip_entries(&plain).unwrap();
    assert_eq!(zip_entry_data(&plain, &entries[0]).unwrap(), b"xyz");
    assert_eq!(entries[0].name, "a");

    let mut broken = plain.clone();
    broken[0] = 0;
    assert!(matches!(
        zip_entry_data(&broken, &zip_entries(&broken).unwrap()[0]),
        Err(ZipError::CorruptLocalHeader(_))
    ));
    let central = plain.len() - 22 - 47;
    let mut directory = plain.clone();
    directory[central] = 0;
    assert!(matches!(zip_entries(&directory), Err(ZipError::CorruptDirectory(_))));
    let mut wide = plain.clone();
    let end = wide.len() - 22;
    wide[end + 10] = 0xff;
    wide[end + 11] = 0xff;
    assert!(matches!(zip_entries(&wide), Err(ZipError::Zip64)));
    let mut long = plain.clone();
    long[central + 28] = 0xff;
    assert!(matches!(zip_entries(&long), Err(ZipError::DirectoryEnd)));
    let mut large = plain;
    large[central + 20] = 0xff;
    large[central + 21] = 0xff;
    assert!(matches!(
        zip_entry_data(&large, &zip_entries(&large).unwrap()[0]),
        Err(ZipError::DataEnd(_))
    ));
}

#[test]
fn entry_names_that_are_no_text_are_repaired() {
    let mut zip = build_stored_zip(&[("ab", b"")]);
    let central = zip.len() - 22 - 48;
    zip[central + 46] = 0xff;
    assert_eq!(zip_entries(&zip).unwrap()[0].name, "\u{fffd}b");
}

#[test]
fn torch_errors() {
    assert!(matches!(read_torch_save(b"nothing"), Err(TorchError::Directory(ZipError::NoEndRecord))));
    let no_pickle = build_stored_zip(&[("archive/version", b"3")]);
    assert!(matches!(read_torch_save(&no_pickle), Err(TorchError::NoPickle)));
    let no_storage = build_stored_zip(&[("archive/data.pkl", &torch_tensor_pickle())]);
    match read_torch_save(&no_storage) {
        Err(TorchError::NoStorage(key)) => assert_eq!(key, "0"),
        _ => panic!("the storage is missing"),
    }
    let number = build_stored_zip(&[("archive/data.pkl", b"K\x01.")]);
    assert!(matches!(read_torch_save(&number), Err(TorchError::NotATensor)));
    let broken = build_stored_zip(&[("archive/data.pkl", b"\x00")]);
    assert!(matches!(read_torch_save(&broken), Err(TorchError::Pickle(_))));
    let short = build_stored_zip(&[
        ("archive/data.pkl", &torch_tensor_pickle()),
        ("archive/data/0", &single_bytes(&[1.0])),
    ]);
    assert!(matches!(read_torch_save(&short), Err(TorchError::WrongCount(..))));
    let odd = build_stored_zip(&[
        ("archive/data.pkl", &torch_tensor_pickle()),
        ("archive/data/0", &[1, 2, 3]),
    ]);
    assert!(matches!(read_torch_save(&odd), Err(TorchError::Decode(_, DecodeError::NotSingles))));
    let mut moved = torch_tensor_pickle();
    let at = moved.windows(3).position(|window| window == b"QK\x00").unwrap();
    moved[at + 2] = 4;
    let zip = build_stored_zip(&[("archive/data.pkl", &moved), ("archive/data/0", &[0; 24])]);
    assert!(matches!(read_torch_save(&zip), Err(TorchError::NonzeroOffset(4))));
}

#[test]
fn silence_raw_conversion() {
    let values = [1.0_f32, 2.0, 3.0, 4.0];
    let latent = read_raw_silence(&single_bytes(&values), vec![1, 2, 2]).unwrap();
    assert_eq!(latent.shape, vec![1, 2, 2]);
    assert_eq!(floats(&latent.data), values.to_vec());
    assert!(matches!(read_raw_silence(&[1], vec![1]), Err(RawError::Decode(DecodeError::NotSingles))));
    assert!(matches!(
        read_raw_silence(&single_bytes(&values), vec![3]),
        Err(RawError::WrongCount(4, _))
    ));
}

#[test]
fn channel_major_latents_are_transposed() {
    let data: Vec<Single> = (0..128u32).map(|i| Single { bits: i }).collect();
    let latent = time_major(vec![1, 64, 2], data);
    assert_eq!(latent.shape, vec![1, 2, 64]);
    for frame in 0..2u32 {
        for channel in 0..64u32 {
            assert_eq!(latent.data[(frame * 64 + channel) as usize].bits, channel * 2 + frame);
        }
    }
    let kept = time_major(vec![1, 2, 64], (0..128u32).map(|i| Single { bits: i }).collect());
    assert_eq!(kept.shape, vec![1, 2, 64]);
    assert_eq!(kept.data[1].bits, 1);
}

#[test]
fn reports_name_what_was_skipped() {
    assert_eq!(shape_text(&[1, 4096, 64]), "[1, 4096, 64]");
    assert_eq!(shape_text(&[]), "[]");
    assert_eq!(list_line("a", "F32", &[2]), "a\tF32\t[2]");
    assert_eq!(
        silence_report(6, "out.bpk"),
        "silence: wrote 1 tensor (6 elements) to out.bpk"
    );
    let tensor = ConvertedTensor { name: "a".to_string(), shape: vec![2], data: vec![Single { bits: 0 }; 2] };
    let text = report(Component::Dit, &vec![tensor], &vec!["x".to_string()], "out.bpk");
    assert!(text.starts_with("dit: converted 1 tensors (2 elements) to out.bpk"));
    assert!(text.contains('x'));
}
