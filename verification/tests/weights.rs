use half::{bf16, f16};
use qwen_forced_aligner::binary16::widen;
use qwen_forced_aligner::weights::{
    decode_elements, decode_tensors, distinct_texts, load_safetensors_file, shard_files, RawTensor,
    WeightError, WeightTensor, Weights,
};

/// An archive of tensors: a header with the places of the tensors, then their bytes.
fn archive(tensors: &[(&str, &str, &str, Vec<u8>)]) -> Vec<u8> {
    let mut entries: Vec<String> = Vec::new();
    let mut data: Vec<u8> = Vec::new();
    for (name, kind, shape, bytes) in tensors {
        let start = data.len();
        data.extend(bytes);
        entries.push(format!(
            "\"{}\":{{\"dtype\":\"{}\",\"shape\":{},\"data_offsets\":[{},{}]}}",
            name,
            kind,
            shape,
            start,
            data.len()
        ));
    }
    let header = format!("{{{}}}", entries.join(","));
    let mut out = (header.len() as u64).to_le_bytes().to_vec();
    out.extend(header.as_bytes());
    out.extend(data);
    out
}

fn singles(values: &[f32]) -> Vec<u8> {
    values.iter().flat_map(|v| v.to_le_bytes()).collect()
}

fn bits(values: &[f32]) -> Vec<u32> {
    values.iter().map(|v| v.to_bits()).collect()
}

#[test]
fn archives_of_all_types() {
    let values = [1.0f32, -2.5, 0.0, 1024.0];
    let brain: Vec<u8> =
        values.iter().flat_map(|v| bf16::from_f32(*v).to_bits().to_le_bytes()).collect();
    let halves: Vec<u8> =
        values.iter().flat_map(|v| f16::from_f32(*v).to_bits().to_le_bytes()).collect();
    let bytes = archive(&[
        ("single", "F32", "[2,2]", singles(&values)),
        ("brain", "BF16", "[4]", brain),
        ("half", "F16", "[1,4]", halves),
    ]);
    let weights = load_safetensors_file(&bytes).unwrap();
    assert_eq!(weights.len(), 3);
    let shapes = [("single", vec![2, 2]), ("brain", vec![4]), ("half", vec![1, 4])];
    for (name, shape) in shapes {
        let tensor = weights.get(name).unwrap();
        assert_eq!(tensor.data, bits(&values));
        assert_eq!(tensor.shape, shape);
    }
    assert!(weights.get("other").is_none());
}

#[test]
fn halves_become_singles() {
    for b in 0..=u16::MAX {
        let expected = f16::from_bits(b).to_f32();
        let found = f32::from_bits(widen(b));
        if expected.is_nan() {
            assert!(found.is_nan());
        } else {
            assert_eq!(found.to_bits(), expected.to_bits());
        }
    }
}

#[test]
fn other_types_are_not_supported() {
    let bytes = archive(&[("steps", "I64", "[1]", vec![0; 8])]);
    match load_safetensors_file(&bytes) {
        Err(WeightError::UnsupportedType { kind, name }) => {
            assert_eq!((kind.as_str(), name.as_str()), ("I64", "steps"));
        },
        _ => panic!("integers are no weights"),
    }
    assert_eq!(decode_elements("I64", &[0; 8]), None);
}

#[test]
fn other_bytes_are_no_archive() {
    assert!(matches!(load_safetensors_file(b"weights"), Err(WeightError::InvalidArchive(_))));
    let short = archive(&[("a", "F32", "[3]", singles(&[1.0]))]);
    assert!(matches!(load_safetensors_file(&short), Err(WeightError::InvalidArchive(_))));
}

#[test]
fn archives_cannot_claim_more_than_an_address_counts() {
    let len = (1u64 << 61) - 1;
    let entries: Vec<String> = (0..8u64)
        .map(|i| {
            format!(
                "\"t{}\":{{\"dtype\":\"U8\",\"shape\":[{}],\"data_offsets\":[{},{}]}}",
                i,
                len,
                i * len,
                (i + 1) * len
            )
        })
        .collect();
    let header = format!("{{{}}}", entries.join(","));
    let mut bytes = (header.len() as u64).to_le_bytes().to_vec();
    bytes.extend(header.as_bytes());
    assert!(matches!(load_safetensors_file(&bytes), Err(WeightError::InvalidArchive(_))));
    // Headers that are longer than the file, or no text, claim nothing.
    assert!(matches!(load_safetensors_file(&[255; 9]), Err(WeightError::InvalidArchive(_))));
    let none = [1, 0, 0, 0, 0, 0, 0, 0, 255];
    assert!(matches!(load_safetensors_file(&none), Err(WeightError::InvalidArchive(_))));
    assert_eq!(load_safetensors_file(&archive(&[])).unwrap().len(), 0);
}

#[test]
fn elements_from_bytes() {
    assert_eq!(decode_elements("F32", &[1, 2, 3, 4, 5]), Some(vec![0x0403_0201]));
    assert_eq!(decode_elements("BF16", &[0x80, 0x3f]), Some(vec![0x3f80_0000]));
    assert_eq!(decode_elements("F16", &[0x00, 0x3c]), Some(vec![0x3f80_0000]));
}

#[test]
fn the_first_unsupported_tensor_is_named() {
    let raw = |name: &str, kind: &str| RawTensor {
        name: name.to_string(),
        kind: kind.to_string(),
        shape: vec![1],
        data: vec![0; 4],
    };
    match decode_tensors(&[raw("a", "F32"), raw("b", "U32"), raw("c", "I32")]) {
        Err(WeightError::UnsupportedType { kind, name }) => {
            assert_eq!((kind.as_str(), name.as_str()), ("U32", "b"));
        },
        _ => panic!("integers are no weights"),
    }
}

#[test]
fn later_weights_count() {
    let mut weights = Weights::new();
    assert_eq!(weights.len(), 0);
    weights.insert("a".to_string(), WeightTensor::new(vec![1], vec![1]));
    weights.insert("b".to_string(), WeightTensor::new(vec![2], vec![1]));
    let mut more = Weights::new();
    more.insert("b".to_string(), WeightTensor::new(vec![3, 4], vec![2]));
    more.insert("c".to_string(), WeightTensor::new(vec![5], vec![1]));
    weights.extend(more);
    assert_eq!(weights.len(), 3);
    assert_eq!(weights.get("a").unwrap().data, vec![1]);
    assert_eq!(weights.get("b").unwrap().data, vec![3, 4]);
    assert_eq!(weights.get("c").unwrap().data, vec![5]);
}

#[test]
fn shards_of_an_index() {
    let index = "{\"metadata\":{\"total_size\":1},\"weight_map\":{\"a\":\"x.safetensors\",\"b\":\"y.safetensors\",\"c\":\"x.safetensors\",\"d\":5}}";
    let mut files = shard_files(index).unwrap();
    files.sort();
    assert_eq!(files, vec!["x.safetensors", "y.safetensors"]);
    assert!(matches!(shard_files("{\"weight_map\":[]}"), Err(WeightError::InvalidIndex)));
    assert!(matches!(shard_files("{}"), Err(WeightError::InvalidIndex)));
    assert!(matches!(shard_files("{"), Err(WeightError::InvalidJson(_))));
}

#[test]
fn texts_of_a_list_once() {
    let text = |s: &str| Some(s.to_string());
    let mut found = distinct_texts(&[text("b"), None, text("a"), text("b")]);
    found.sort();
    assert_eq!(found, vec!["a", "b"]);
    assert!(distinct_texts(&[None]).is_empty());
}
