use nexis_ml::onnx::{attr_int, build_model, node, tensor_proto, value_info_2d, write_mlp, Dense};
use nexis_ml::wire::{f_bytes, f_str, f_varint, put_varint, to_wire};

fn bits(list: &[f32]) -> Vec<u32> {
    list.iter().map(|v| v.to_bits()).collect()
}

/// One field of a message: its number, and its value or its bytes.
enum Part {
    Number(u64, u64),
    Bytes(u64, Vec<u8>),
}

fn read_varint(bytes: &[u8], at: &mut usize) -> u64 {
    let mut value = 0u64;
    let mut shift = 0;
    loop {
        let byte = bytes[*at];
        *at += 1;
        value |= u64::from(byte & 0x7f) << shift;
        if byte < 0x80 {
            return value;
        }
        shift += 7;
    }
}

fn parts(bytes: &[u8]) -> Vec<Part> {
    let mut at = 0;
    let mut out = Vec::new();
    while at < bytes.len() {
        let key = read_varint(bytes, &mut at);
        match key % 8 {
            0 => out.push(Part::Number(key / 8, read_varint(bytes, &mut at))),
            2 => {
                let len = read_varint(bytes, &mut at) as usize;
                out.push(Part::Bytes(key / 8, bytes[at..at + len].to_vec()));
                at += len;
            }
            other => panic!("wire type {other}"),
        }
    }
    out
}

fn bytes_at(message: &[u8], number: u64) -> Vec<Vec<u8>> {
    parts(message)
        .into_iter()
        .filter_map(|p| match p {
            Part::Bytes(n, data) if n == number => Some(data),
            _ => None,
        })
        .collect()
}

fn numbers_at(message: &[u8], number: u64) -> Vec<u64> {
    parts(message)
        .into_iter()
        .filter_map(|p| match p {
            Part::Number(n, value) if n == number => Some(value),
            _ => None,
        })
        .collect()
}

fn texts_at(message: &[u8], number: u64) -> Vec<String> {
    bytes_at(message, number)
        .into_iter()
        .map(|b| String::from_utf8(b).unwrap())
        .collect()
}

fn two_layers() -> Vec<Dense> {
    vec![
        Dense {
            weight: bits(&[1.0, 2.0, 3.0, 4.0, 5.0, 6.0]),
            w_rows: 2,
            w_cols: 3,
            bias: bits(&[0.1, 0.2, 0.3]),
            in_dim: 2,
            out_dim: 3,
        },
        Dense {
            weight: bits(&[1.0, 2.0, 3.0, 4.0, 5.0, 6.0]),
            w_rows: 2,
            w_cols: 3,
            bias: bits(&[0.5, -0.5]),
            in_dim: 3,
            out_dim: 2,
        },
    ]
}

#[test]
fn varint_matches_protobuf_spec() {
    let enc = |v| {
        let mut out = Vec::new();
        put_varint(&mut out, v);
        out
    };
    assert_eq!(enc(0), [0]);
    assert_eq!(enc(127), [127]);
    assert_eq!(enc(128), [0x80, 0x01]);
    assert_eq!(enc(300), [0xAC, 0x02]);
}

#[test]
fn varints_read_back() {
    for v in [0u64, 1, 127, 128, 16_383, 16_384, u64::from(u32::MAX), u64::MAX] {
        let mut out = Vec::new();
        put_varint(&mut out, v);
        assert!(out.len() <= 10);
        let mut at = 0;
        assert_eq!(read_varint(&out, &mut at), v);
        assert_eq!(at, out.len());
    }
    let mut most = Vec::new();
    put_varint(&mut most, u64::MAX);
    assert_eq!(most, [0xff, 0xff, 0xff, 0xff, 0xff, 0xff, 0xff, 0xff, 0xff, 0x01]);
}

#[test]
fn fields_carry_their_number_and_kind() {
    let mut out = Vec::new();
    f_varint(&mut out, 1, 7);
    f_bytes(&mut out, 7, &[1, 2]);
    f_str(&mut out, 2, "é");
    assert_eq!(out, [0x08, 7, 0x3a, 2, 1, 2, 0x12, 2, 0xc3, 0xa9]);
    assert_eq!(to_wire(-1), u64::MAX);
    assert_eq!(to_wire(5), 5);
}

#[test]
fn messages_of_the_graph() {
    assert_eq!(
        attr_int("transB", 1),
        [0x0a, 6, b't', b'r', b'a', b'n', b's', b'B', 0x18, 1, 0xa0, 0x01, 2]
    );
    let t = tensor_proto("m", &[2], &bits(&[1.0, -2.0]));
    assert_eq!(numbers_at(&t, 1), vec![2]);
    assert_eq!(numbers_at(&t, 2), vec![1]);
    assert_eq!(texts_at(&t, 8), vec!["m"]);
    assert_eq!(bytes_at(&t, 9), vec![vec![0, 0, 0x80, 0x3f, 0, 0, 0, 0xc0]]);
    let n = node("Relu", "relu0", &["g0"], &["h0"], &Vec::new());
    assert_eq!(texts_at(&n, 1), vec!["g0"]);
    assert_eq!(texts_at(&n, 2), vec!["h0"]);
    assert_eq!(texts_at(&n, 3), vec!["relu0"]);
    assert_eq!(texts_at(&n, 4), vec!["Relu"]);
    let v = value_info_2d("input", 3);
    assert_eq!(texts_at(&v, 1), vec!["input"]);
}

#[test]
fn build_model_emits_nonempty_proto() {
    // 2->3->2 MLP; just ensure assembly runs and produces bytes.
    let layers = vec![Dense {
        weight: bits(&[0.0; 4]),
        w_rows: 2,
        w_cols: 2,
        bias: bits(&[0.0; 2]),
        in_dim: 2,
        out_dim: 2,
    }];
    let bytes = build_model(2, &bits(&[0.0, 0.0]), &bits(&[1.0, 1.0]), &layers, 2);
    assert!(bytes.len() > 32);
}

#[test]
fn the_model_reads_back() {
    let bytes = build_model(2, &bits(&[0.5, -1.0]), &bits(&[1.0, 2.0]), &two_layers(), 2);
    assert_eq!(numbers_at(&bytes, 1), vec![7]);
    assert_eq!(texts_at(&bytes, 2), vec!["nexis-ml-rs"]);
    let opset = bytes_at(&bytes, 8);
    assert_eq!(numbers_at(&opset[0], 2), vec![13]);
    let graphs = bytes_at(&bytes, 7);
    assert_eq!(graphs.len(), 1);
    let nodes = bytes_at(&graphs[0], 1);
    let ops: Vec<String> = nodes.iter().map(|n| texts_at(n, 4)[0].clone()).collect();
    assert_eq!(ops, vec!["Sub", "Div", "Gemm", "Relu", "Gemm"]);
    let tensors = bytes_at(&graphs[0], 5);
    let names: Vec<String> = tensors.iter().map(|t| texts_at(t, 8)[0].clone()).collect();
    assert_eq!(names, vec!["mean", "std", "W0", "B0", "W1", "B1"]);
    assert_eq!(numbers_at(&tensors[2], 1), vec![2, 3]);
    let mean: Vec<u8> = [0.5f32, -1.0].iter().flat_map(|v| v.to_le_bytes()).collect();
    assert_eq!(bytes_at(&tensors[0], 9), vec![mean]);
}

#[test]
fn the_graph_leads_from_the_input_to_the_output() {
    let bytes = build_model(2, &bits(&[0.0, 0.0]), &bits(&[1.0, 1.0]), &two_layers(), 2);
    let graph = bytes_at(&bytes, 7).remove(0);
    let stored: Vec<String> = bytes_at(&graph, 5).iter().map(|t| texts_at(t, 8)[0].clone()).collect();
    let mut known = stored;
    known.push("input".to_string());
    let mut last = String::new();
    for n in bytes_at(&graph, 1) {
        for input in texts_at(&n, 1) {
            assert!(known.contains(&input), "{input} is used before it is there");
        }
        for output in texts_at(&n, 2) {
            assert!(!known.contains(&output), "{output} is there twice");
            known.push(output.clone());
            last = output;
        }
    }
    assert_eq!(last, "output");
    assert_eq!(texts_at(&bytes_at(&graph, 11)[0], 1), vec!["input"]);
    assert_eq!(texts_at(&bytes_at(&graph, 12)[0], 1), vec!["output"]);
}

#[test]
fn a_weight_that_lies_the_other_way_is_transposed() {
    let bytes = build_model(2, &bits(&[0.0, 0.0]), &bits(&[1.0, 1.0]), &two_layers(), 2);
    let graph = bytes_at(&bytes, 7).remove(0);
    let gemms: Vec<Vec<u8>> =
        bytes_at(&graph, 1).into_iter().filter(|n| texts_at(n, 4)[0] == "Gemm").collect();
    let trans_b = |n: &[u8]| -> Vec<u64> {
        bytes_at(n, 5)
            .iter()
            .filter(|a| texts_at(a, 1)[0] == "transB")
            .flat_map(|a| numbers_at(a, 3))
            .collect()
    };
    assert_eq!(trans_b(&gemms[0]), vec![0]);
    assert_eq!(trans_b(&gemms[1]), vec![1]);
}

#[test]
fn a_model_file_is_written_through_a_temporary_name() {
    let mean = bits(&[0.0, 0.0]);
    let std = bits(&[1.0, 1.0]);
    let file = write_mlp("model.onnx", 2, &mean, &std, &two_layers(), 2);
    assert_eq!(file.name, "model.onnx");
    assert_eq!(file.tmp, "model.onnx.tmp");
    assert_eq!(write_mlp("a.b/model", 2, &mean, &std, &two_layers(), 2).tmp, "a.b/model.onnx.tmp");
    assert_eq!(file.bytes, build_model(2, &mean, &std, &two_layers(), 2));
}
