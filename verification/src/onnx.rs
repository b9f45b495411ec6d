//! The ONNX writer for the tabular model: a graph that standardizes raw
//! features and runs them through a stack of dense layers to class logits.
//!
//! Numbers of the model are carried as the bit patterns of IEEE-754 single
//! precision, which is what the format stores.
use vstd::prelude::*;
use vstd::string::StringExecFns;

use crate::paths;
use crate::text::push_decimal;
use crate::wire;
use crate::wire::{f_bytes, f_repeated, f_str, f_varint, to_dim, to_wire};

verus! {

/// A trained dense layer. The weight is stored row by row with `w_rows` rows of
/// `w_cols` values, either `[in_dim, out_dim]` or `[out_dim, in_dim]`; a square
/// one is taken as the latter. Weights and biases are bit patterns of
/// single-precision numbers.
pub struct Dense {
    pub weight: Vec<u32>,
    pub w_rows: usize,
    pub w_cols: usize,
    pub bias: Vec<u32>,
    pub in_dim: usize,
    pub out_dim: usize,
}

// ---------------------------------------------------------------------------
// The model in mathematical terms.
// ---------------------------------------------------------------------------

/// A named tensor of single-precision numbers.
pub struct Tensor {
    pub name: Seq<char>,
    pub dims: Seq<int>,
    pub data: Seq<u32>,
}

/// A node of the graph.
pub struct Node {
    pub op: Seq<char>,
    pub name: Seq<char>,
    pub inputs: Seq<Seq<char>>,
    pub outputs: Seq<Seq<char>>,
    pub attributes: Seq<(Seq<char>, int)>,
}

/// What a dense layer holds.
pub struct Layer {
    pub weight: Seq<u32>,
    pub w_rows: int,
    pub w_cols: int,
    pub bias: Seq<u32>,
    pub in_dim: int,
    pub out_dim: int,
}

impl View for Dense {
    type V = Layer;

    open spec fn view(&self) -> Layer {
        Layer {
            weight: self.weight@,
            w_rows: self.w_rows as int,
            w_cols: self.w_cols as int,
            bias: self.bias@,
            in_dim: self.in_dim as int,
            out_dim: self.out_dim as int,
        }
    }
}

/// What a stack of dense layers holds.
pub open spec fn layers_of(layers: Seq<Dense>) -> Seq<Layer> {
    Seq::new(layers.len(), |i: int| layers[i]@)
}

/// A prefix followed by a number.
pub open spec fn numbered(prefix: Seq<char>, i: int) -> Seq<char> {
    prefix + crate::text::decimal(i as nat)
}

/// Whether the weight is stored `[out, in]`, so that it has to be transposed.
pub open spec fn transposed(layer: Layer) -> bool {
    layer.w_rows == layer.out_dim && layer.w_cols == layer.in_dim
}

/// The value that layer `i` reads.
pub open spec fn layer_input(i: int) -> Seq<char> {
    if i == 0 {
        "x_std"@
    } else {
        numbered("h"@, i - 1)
    }
}

/// The value that the product of layer `i` of `count` gives.
pub open spec fn layer_output(i: int, count: int) -> Seq<char> {
    if i + 1 == count {
        "output"@
    } else {
        numbered("g"@, i)
    }
}

pub open spec fn gemm_node(layer: Layer, i: int, count: int) -> Node {
    Node {
        op: "Gemm"@,
        name: numbered("gemm"@, i),
        inputs: seq![layer_input(i), numbered("W"@, i), numbered("B"@, i)],
        outputs: seq![layer_output(i, count)],
        attributes: seq![
            (
                "transB"@,
                if transposed(layer) {
                    1
                } else {
                    0
                },
            ),
        ],
    }
}

pub open spec fn relu_node(i: int) -> Node {
    Node {
        op: "Relu"@,
        name: numbered("relu"@, i),
        inputs: seq![numbered("g"@, i)],
        outputs: seq![numbered("h"@, i)],
        attributes: seq![],
    }
}

pub open spec fn sub_node() -> Node {
    Node {
        op: "Sub"@,
        name: "standardize_sub"@,
        inputs: seq!["input"@, "mean"@],
        outputs: seq!["x_centered"@],
        attributes: seq![],
    }
}

pub open spec fn div_node() -> Node {
    Node {
        op: "Div"@,
        name: "standardize_div"@,
        inputs: seq!["x_centered"@, "std"@],
        outputs: seq!["x_std"@],
        attributes: seq![],
    }
}

/// The nodes of the graph, up to layer `k`: the standardization, then for each
/// layer its product, rectified after every layer but the last.
pub open spec fn nodes_upto(layers: Seq<Layer>, k: int) -> Seq<Node>
    decreases k,
{
    if k <= 0 {
        seq![sub_node(), div_node()]
    } else {
        let before = nodes_upto(layers, k - 1).push(
            gemm_node(layers[k - 1], k - 1, layers.len() as int),
        );
        if k == layers.len() {
            before
        } else {
            before.push(relu_node(k - 1))
        }
    }
}

/// The nodes of the graph.
pub open spec fn graph_nodes(layers: Seq<Layer>) -> Seq<Node> {
    nodes_upto(layers, layers.len() as int)
}

pub open spec fn weight_tensor(layer: Layer, i: int) -> Tensor {
    Tensor {
        name: numbered("W"@, i),
        dims: seq![layer.w_rows, layer.w_cols],
        data: layer.weight,
    }
}

pub open spec fn bias_tensor(layer: Layer, i: int) -> Tensor {
    Tensor { name: numbered("B"@, i), dims: seq![layer.out_dim], data: layer.bias }
}

/// The stored tensors of the graph, up to layer `k`: the mean and the deviation
/// of each feature, then the weight and the bias of each layer.
pub open spec fn tensors_upto(
    features: int,
    mean: Seq<u32>,
    std: Seq<u32>,
    layers: Seq<Layer>,
    k: int,
) -> Seq<Tensor>
    decreases k,
{
    if k <= 0 {
        seq![
            Tensor { name: "mean"@, dims: seq![features], data: mean },
            Tensor { name: "std"@, dims: seq![features], data: std },
        ]
    } else {
        tensors_upto(features, mean, std, layers, k - 1).push(
            weight_tensor(layers[k - 1], k - 1),
        ).push(bias_tensor(layers[k - 1], k - 1))
    }
}

/// The stored tensors of the graph.
pub open spec fn graph_tensors(
    features: int,
    mean: Seq<u32>,
    std: Seq<u32>,
    layers: Seq<Layer>,
) -> Seq<Tensor> {
    tensors_upto(features, mean, std, layers, layers.len() as int)
}

// ---------------------------------------------------------------------------
// The messages.
// ---------------------------------------------------------------------------

/// Four bytes, the lowest first.
pub open spec fn little_endian(v: u32) -> Seq<u8> {
    seq![
        (v % 256) as u8,
        (v / 256 % 256) as u8,
        (v / 65536 % 256) as u8,
        (v / 16777216) as u8,
    ]
}

/// The numbers of a tensor as bytes.
pub open spec fn raw_data(data: Seq<u32>) -> Seq<u8>
    decreases data.len(),
{
    if data.len() == 0 {
        Seq::empty()
    } else {
        raw_data(data.drop_last()) + little_endian(data.last())
    }
}

/// `TensorProto`: dims (1), data_type FLOAT (2), name (8), raw_data (9).
pub open spec fn tensor_fields(t: Tensor) -> Seq<wire::Field> {
    Seq::new(
        t.dims.len(),
        |i: int| wire::Field::Varint { number: 1, value: wire::wire_int(t.dims[i]) },
    ) + seq![
        wire::Field::Varint { number: 2, value: 1 },
        wire::text_field(8, t.name),
        wire::Field::Bytes { number: 9, data: raw_data(t.data) },
    ]
}

/// `AttributeProto` of one integer: name (1), i (3), type INT (20).
pub open spec fn attribute_fields(name: Seq<char>, value: int) -> Seq<wire::Field> {
    seq![
        wire::text_field(1, name),
        wire::Field::Varint { number: 3, value: wire::wire_int(value) },
        wire::Field::Varint { number: 20, value: 2 },
    ]
}

/// One text field for each name.
pub open spec fn name_fields(number: nat, names: Seq<Seq<char>>) -> Seq<wire::Field> {
    Seq::new(names.len(), |i: int| wire::text_field(number, names[i]))
}

/// The attributes of a node, each as a message.
pub open spec fn attributes_encoded(attributes: Seq<(Seq<char>, int)>) -> Seq<Seq<u8>> {
    Seq::new(
        attributes.len(),
        |i: int| wire::encode(attribute_fields(attributes[i].0, attributes[i].1)),
    )
}

/// `NodeProto` with its attributes already encoded: input (1), output (2),
/// name (3), op_type (4), attribute (5).
pub open spec fn node_message(
    op: Seq<char>,
    name: Seq<char>,
    inputs: Seq<Seq<char>>,
    outputs: Seq<Seq<char>>,
    attributes: Seq<Seq<u8>>,
) -> Seq<wire::Field> {
    name_fields(1, inputs) + name_fields(2, outputs) + seq![
        wire::text_field(3, name),
        wire::text_field(4, op),
    ] + wire::repeated(5, attributes)
}

/// `NodeProto`.
pub open spec fn node_fields(n: Node) -> Seq<wire::Field> {
    node_message(n.op, n.name, n.inputs, n.outputs, attributes_encoded(n.attributes))
}

/// `TensorShapeProto` of two dimensions: a symbolic `batch`, then a size.
pub open spec fn shape_fields(features: int) -> Seq<wire::Field> {
    seq![
        wire::Field::Bytes {
            number: 1,
            data: wire::encode(seq![wire::text_field(2, "batch"@)]),
        },
        wire::Field::Bytes {
            number: 1,
            data: wire::encode(
                seq![
                    wire::Field::Varint {
                        number: 1,
                        value: wire::wire_int(features),
                    },
                ],
            ),
        },
    ]
}

/// `ValueInfoProto` of a `[batch, features]` tensor: name (1), type (2).
pub open spec fn value_info_fields(name: Seq<char>, features: int) -> Seq<wire::Field> {
    let tensor_type = seq![
        wire::Field::Varint { number: 1, value: 1 },
        wire::Field::Bytes {
            number: 2,
            data: wire::encode(shape_fields(features)),
        },
    ];
    let value_type = seq![
        wire::Field::Bytes { number: 1, data: wire::encode(tensor_type) },
    ];
    seq![
        wire::text_field(1, name),
        wire::Field::Bytes { number: 2, data: wire::encode(value_type) },
    ]
}

pub open spec fn nodes_encoded(nodes: Seq<Node>) -> Seq<Seq<u8>> {
    Seq::new(nodes.len(), |i: int| wire::encode(node_fields(nodes[i])))
}

pub open spec fn tensors_encoded(tensors: Seq<Tensor>) -> Seq<Seq<u8>> {
    Seq::new(tensors.len(), |i: int| wire::encode(tensor_fields(tensors[i])))
}

/// `GraphProto`: node (1), name (2), initializer (5), input (11), output (12).
pub open spec fn graph_fields(
    features: int,
    nodes: Seq<Node>,
    tensors: Seq<Tensor>,
    classes: int,
) -> Seq<wire::Field> {
    wire::repeated(1, nodes_encoded(nodes)) + seq![
        wire::text_field(2, "nexis_mlp"@),
    ] + wire::repeated(5, tensors_encoded(tensors)) + seq![
        wire::Field::Bytes {
            number: 11,
            data: wire::encode(value_info_fields("input"@, features)),
        },
        wire::Field::Bytes {
            number: 12,
            data: wire::encode(value_info_fields("output"@, classes)),
        },
    ]
}

/// `ModelProto`: ir_version 7 (1), producer_name (2), opset_import 13 (8),
/// graph (7).
pub open spec fn model_fields(graph: Seq<wire::Field>) -> Seq<wire::Field> {
    seq![
        wire::Field::Varint { number: 1, value: 7 },
        wire::text_field(2, "nexis-ml-rs"@),
        wire::Field::Bytes {
            number: 8,
            data: wire::encode(seq![wire::Field::Varint { number: 2, value: 13 }]),
        },
        wire::Field::Bytes { number: 7, data: wire::encode(graph) },
    ]
}

/// The whole model.
pub open spec fn mlp_fields(
    features: int,
    mean: Seq<u32>,
    std: Seq<u32>,
    layers: Seq<Layer>,
    classes: int,
) -> Seq<wire::Field> {
    model_fields(
        graph_fields(
            features,
            graph_nodes(layers),
            graph_tensors(features, mean, std, layers),
            classes,
        ),
    )
}


// ---------------------------------------------------------------------------
// Building the messages.
// ---------------------------------------------------------------------------

/// A prefix followed by a number.
fn numbered_name(prefix: &str, i: usize) -> (r: String)
    ensures
        r@ == numbered(prefix@, i as int),
{
    let mut r = prefix.to_string();
    push_decimal(&mut r, i as u64);
    r
}

/// The texts of a list of string slices.
pub open spec fn slices(list: Seq<&str>) -> Seq<Seq<char>> {
    Seq::new(list.len(), |i: int| list[i]@)
}

fn put_u32(out: &mut Vec<u8>, v: u32)
    ensures
        final(out)@ == old(out)@ + little_endian(v),
{
    out.push((v % 256) as u8);
    out.push((v / 256 % 256) as u8);
    out.push((v / 65536 % 256) as u8);
    out.push((v / 16777216) as u8);
    assert(out@ =~= old(out)@ + little_endian(v));
}

/// The numbers of a tensor as bytes.
fn raw_bytes(data: &[u32]) -> (r: Vec<u8>)
    ensures
        r@ == raw_data(data@),
{
    let mut r: Vec<u8> = Vec::new();
    let mut i: usize = 0;
    while i < data.len()
        invariant
            i <= data@.len(),
            r@ == raw_data(data@.take(i as int)),
        decreases data@.len() - i,
    {
        put_u32(&mut r, data[i]);
        i += 1;
        assert(data@.take(i as int).drop_last() =~= data@.take(i - 1));
    }
    assert(data@.take(i as int) =~= data@);
    r
}

/// A tensor of single-precision numbers, as a message.
pub fn tensor_proto(name: &str, dims: &[i64], data: &[u32]) -> (m: Vec<u8>)
    ensures
        m@ == wire::encode(
            tensor_fields(
                Tensor {
                    name: name@,
                    dims: Seq::new(dims@.len(), |i: int| dims@[i] as int),
                    data: data@,
                },
            ),
        ),
{
    let ghost t = Tensor {
        name: name@,
        dims: Seq::new(dims@.len(), |i: int| dims@[i] as int),
        data: data@,
    };
    let ghost all = tensor_fields(t);
    let mut m: Vec<u8> = Vec::new();
    let mut i: usize = 0;
    assert(all.take(0) =~= Seq::<wire::Field>::empty());
    while i < dims.len()
        invariant
            i <= dims@.len(),
            t.dims == Seq::new(dims@.len(), |i: int| dims@[i] as int),
            all == tensor_fields(t),
            m@ == wire::encode(all.take(i as int)),
        decreases dims@.len() - i,
    {
        f_varint(&mut m, 1, to_wire(dims[i]));
        proof {
            wire::lemma_encode_push(all.take(i as int), all[i as int]);
            assert(all.take(i + 1) =~= all.take(i as int).push(all[i as int]));
        }
        i += 1;
    }
    let ghost n = dims@.len() as int;
    f_varint(&mut m, 2, 1);
    f_str(&mut m, 8, name);
    let raw = raw_bytes(data);
    f_bytes(&mut m, 9, raw.as_slice());
    proof {
        wire::lemma_encode_push(all.take(n), all[n]);
        assert(all.take(n + 1) =~= all.take(n).push(all[n]));
        wire::lemma_encode_push(all.take(n + 1), all[n + 1]);
        assert(all.take(n + 2) =~= all.take(n + 1).push(all[n + 1]));
        wire::lemma_encode_push(all.take(n + 2), all[n + 2]);
        assert(all =~= all.take(n + 2).push(all[n + 2]));
    }
    m
}

/// An attribute of one integer, as a message.
pub fn attr_int(name: &str, val: i64) -> (m: Vec<u8>)
    ensures
        m@ == wire::encode(attribute_fields(name@, val as int)),
{
    let ghost all = attribute_fields(name@, val as int);
    let mut m: Vec<u8> = Vec::new();
    f_str(&mut m, 1, name);
    f_varint(&mut m, 3, to_wire(val));
    f_varint(&mut m, 20, 2);
    proof {
        lemma_three(all);
        assert(m@ =~= wire::encode(all));
    }
    m
}

proof fn lemma_two(fields: Seq<wire::Field>)
    requires
        fields.len() == 2,
    ensures
        wire::encode(fields) == wire::encode_field(fields[0]) + wire::encode_field(fields[1]),
{
    wire::lemma_encode_one(fields[0]);
    wire::lemma_encode_push(seq![fields[0]], fields[1]);
    assert(fields =~= seq![fields[0]].push(fields[1]));
}

proof fn lemma_three(fields: Seq<wire::Field>)
    requires
        fields.len() == 3,
    ensures
        wire::encode(fields) == wire::encode_field(fields[0]) + wire::encode_field(fields[1])
            + wire::encode_field(fields[2]),
{
    lemma_two(fields.take(2));
    wire::lemma_encode_push(fields.take(2), fields[2]);
    assert(fields =~= fields.take(2).push(fields[2]));
}

/// Appends one text field for each name.
fn put_names(out: &mut Vec<u8>, field: u32, names: &[&str])
    ensures
        final(out)@ == old(out)@ + wire::encode(name_fields(field as nat, slices(names@))),
{
    let ghost all = name_fields(field as nat, slices(names@));
    let mut i: usize = 0;
    assert(out@ =~= old(out)@ + wire::encode(all.take(0)));
    while i < names.len()
        invariant
            all == name_fields(field as nat, slices(names@)),
            i <= names@.len(),
            out@ == old(out)@ + wire::encode(all.take(i as int)),
        decreases names@.len() - i,
    {
        f_str(out, field, names[i]);
        proof {
            wire::lemma_encode_push(all.take(i as int), all[i as int]);
            assert(all.take(i + 1) =~= all.take(i as int).push(all[i as int]));
        }
        i += 1;
        assert(out@ =~= old(out)@ + wire::encode(all.take(i as int)));
    }
    assert(all.take(i as int) =~= all);
}

/// A node, as a message.
pub fn node(
    op_type: &str,
    name: &str,
    inputs: &[&str],
    outputs: &[&str],
    attrs: &Vec<Vec<u8>>,
) -> (m: Vec<u8>)
    ensures
        m@ == wire::encode(
            node_message(
                op_type@,
                name@,
                slices(inputs@),
                slices(outputs@),
                wire::bytes_of(attrs@),
            ),
        ),
{
    let mut m: Vec<u8> = Vec::new();
    put_names(&mut m, 1, inputs);
    put_names(&mut m, 2, outputs);
    f_str(&mut m, 3, name);
    f_str(&mut m, 4, op_type);
    f_repeated(&mut m, 5, attrs);
    proof {
        let a = name_fields(1, slices(inputs@));
        let b = name_fields(2, slices(outputs@));
        let c = seq![wire::text_field(3, name@), wire::text_field(4, op_type@)];
        let d = wire::repeated(5, wire::bytes_of(attrs@));
        wire::lemma_encode_concat(a, b);
        lemma_two(c);
        wire::lemma_encode_concat(a + b, c);
        wire::lemma_encode_concat(a + b + c, d);
        assert(m@ =~= wire::encode(a + b + c + d));
    }
    m
}

/// The description of a `[batch, features]` tensor of single-precision numbers,
/// as a message. The symbolic batch dimension leaves the count of rows open.
pub fn value_info_2d(name: &str, features: i64) -> (m: Vec<u8>)
    ensures
        m@ == wire::encode(value_info_fields(name@, features as int)),
{
    let ghost shape_all = shape_fields(features as int);
    let mut batch_dim: Vec<u8> = Vec::new();
    f_str(&mut batch_dim, 2, "batch");
    let mut feat_dim: Vec<u8> = Vec::new();
    f_varint(&mut feat_dim, 1, to_wire(features));
    proof {
        wire::lemma_encode_one(wire::text_field(2, "batch"@));
        assert(batch_dim@ =~= wire::encode(seq![wire::text_field(2, "batch"@)]));
        let dim = wire::Field::Varint { number: 1, value: wire::wire_int(features as int) };
        wire::lemma_encode_one(dim);
        assert(feat_dim@ =~= wire::encode(seq![dim]));
    }
    let mut shape: Vec<u8> = Vec::new();
    f_bytes(&mut shape, 1, batch_dim.as_slice());
    f_bytes(&mut shape, 1, feat_dim.as_slice());
    proof {
        lemma_two(shape_all);
        assert(shape@ =~= wire::encode(shape_all));
    }
    let mut tensor_ty: Vec<u8> = Vec::new();
    f_varint(&mut tensor_ty, 1, 1);
    f_bytes(&mut tensor_ty, 2, shape.as_slice());
    let ghost tensor_all = seq![
        wire::Field::Varint { number: 1, value: 1 },
        wire::Field::Bytes { number: 2, data: wire::encode(shape_all) },
    ];
    proof {
        lemma_two(tensor_all);
        assert(tensor_ty@ =~= wire::encode(tensor_all));
    }
    let mut ty: Vec<u8> = Vec::new();
    f_bytes(&mut ty, 1, tensor_ty.as_slice());
    let ghost ty_field = wire::Field::Bytes { number: 1, data: wire::encode(tensor_all) };
    proof {
        wire::lemma_encode_one(ty_field);
        assert(ty@ =~= wire::encode(seq![ty_field]));
    }
    let mut vi: Vec<u8> = Vec::new();
    f_str(&mut vi, 1, name);
    f_bytes(&mut vi, 2, ty.as_slice());
    proof {
        lemma_two(value_info_fields(name@, features as int));
        assert(vi@ =~= wire::encode(value_info_fields(name@, features as int)));
    }
    vi
}

/// The messages of a list of nodes, with one node more.
proof fn lemma_nodes_push(nodes: Seq<Node>, n: Node)
    ensures
        nodes_encoded(nodes.push(n)) == nodes_encoded(nodes).push(wire::encode(node_fields(n))),
{
    assert(nodes_encoded(nodes.push(n)) =~= nodes_encoded(nodes).push(
        wire::encode(node_fields(n)),
    ));
}

/// The messages of a list of tensors, with one tensor more.
proof fn lemma_tensors_push(tensors: Seq<Tensor>, t: Tensor)
    ensures
        tensors_encoded(tensors.push(t)) == tensors_encoded(tensors).push(
            wire::encode(tensor_fields(t)),
        ),
{
    assert(tensors_encoded(tensors.push(t)) =~= tensors_encoded(tensors).push(
        wire::encode(tensor_fields(t)),
    ));
}

/// A tensor of the given dimensions, as a message.
fn tensor_message(name: &str, dims: Vec<usize>, data: &Vec<u32>) -> (m: Vec<u8>)
    ensures
        m@ == wire::encode(
            tensor_fields(
                Tensor {
                    name: name@,
                    dims: Seq::new(dims@.len(), |i: int| dims@[i] as int),
                    data: data@,
                },
            ),
        ),
{
    let mut signed: Vec<i64> = Vec::new();
    let mut i: usize = 0;
    while i < dims.len()
        invariant
            i <= dims@.len(),
            signed@.len() == i,
            forall|j: int| 0 <= j < i ==> wire::wire_int(#[trigger] signed@[j] as int) == dims@[j],
        decreases dims@.len() - i,
    {
        signed.push(to_dim(dims[i]));
        i += 1;
    }
    proof {
        let plain = Tensor {
            name: name@,
            dims: Seq::new(dims@.len(), |i: int| dims@[i] as int),
            data: data@,
        };
        let wrapped = Tensor {
            name: name@,
            dims: Seq::new(signed@.len(), |i: int| signed@[i] as int),
            data: data@,
        };
        assert(tensor_fields(plain) =~= tensor_fields(wrapped));
    }
    tensor_proto(name, signed.as_slice(), data.as_slice())
}

/// A node without attributes, as a message.
fn plain_node(op_type: &str, name: &str, inputs: &[&str], output: &str) -> (m: Vec<u8>)
    ensures
        m@ == wire::encode(
            node_fields(
                Node {
                    op: op_type@,
                    name: name@,
                    inputs: slices(inputs@),
                    outputs: seq![output@],
                    attributes: seq![],
                },
            ),
        ),
{
    let outputs: Vec<&str> = vec![output];
    let attrs: Vec<Vec<u8>> = Vec::new();
    assert(slices(outputs@) =~= seq![output@]);
    assert(wire::bytes_of(attrs@) =~= attributes_encoded(seq![]));
    node(op_type, name, inputs, outputs.as_slice(), &attrs)
}

/// The product of one layer, as a message.
fn gemm_message(layer: &Dense, i: usize, count: usize, prev: &str, output: &str) -> (m: Vec<u8>)
    requires
        prev@ == layer_input(i as int),
        output@ == layer_output(i as int, count as int),
    ensures
        m@ == wire::encode(node_fields(gemm_node(layer@, i as int, count as int))),
{
    let w_name = numbered_name("W", i);
    let b_name = numbered_name("B", i);
    let trans_b: i64 = if layer.w_rows == layer.out_dim && layer.w_cols == layer.in_dim {
        1
    } else {
        0
    };
    let attr = attr_int("transB", trans_b);
    let attrs: Vec<Vec<u8>> = vec![attr];
    let name = numbered_name("gemm", i);
    let inputs: Vec<&str> = vec![prev, w_name.as_str(), b_name.as_str()];
    let outputs: Vec<&str> = vec![output];
    proof {
        let n = gemm_node(layer@, i as int, count as int);
        assert(slices(inputs@) =~= n.inputs);
        assert(slices(outputs@) =~= n.outputs);
        assert(wire::bytes_of(attrs@) =~= attributes_encoded(n.attributes));
    }
    node("Gemm", name.as_str(), inputs.as_slice(), outputs.as_slice(), &attrs)
}

/// The graph around its nodes and its stored tensors, as a message.
fn graph_message(
    features: usize,
    nodes: &Vec<Vec<u8>>,
    inits: &Vec<Vec<u8>>,
    classes: usize,
    Ghost(node_list): Ghost<Seq<Node>>,
    Ghost(tensor_list): Ghost<Seq<Tensor>>,
) -> (graph: Vec<u8>)
    requires
        wire::bytes_of(nodes@) == nodes_encoded(node_list),
        wire::bytes_of(inits@) == tensors_encoded(tensor_list),
    ensures
        graph@ == wire::encode(
            graph_fields(features as int, node_list, tensor_list, classes as int),
        ),
{
    let mut graph: Vec<u8> = Vec::new();
    f_repeated(&mut graph, 1, nodes);
    f_str(&mut graph, 2, "nexis_mlp");
    f_repeated(&mut graph, 5, inits);
    let input_dim = to_dim(features);
    let output_dim = to_dim(classes);
    let input_info = value_info_2d("input", input_dim);
    let output_info = value_info_2d("output", output_dim);
    f_bytes(&mut graph, 11, input_info.as_slice());
    f_bytes(&mut graph, 12, output_info.as_slice());
    proof {
        let a = wire::repeated(1, nodes_encoded(node_list));
        let b = seq![wire::text_field(2, "nexis_mlp"@)];
        let c = wire::repeated(5, tensors_encoded(tensor_list));
        let d = seq![
            wire::Field::Bytes {
                number: 11,
                data: wire::encode(value_info_fields("input"@, features as int)),
            },
            wire::Field::Bytes {
                number: 12,
                data: wire::encode(value_info_fields("output"@, classes as int)),
            },
        ];
        assert(shape_fields(input_dim as int) == shape_fields(features as int));
        assert(shape_fields(output_dim as int) == shape_fields(classes as int));
        wire::lemma_encode_one(b[0]);
        assert(b =~= seq![b[0]]);
        wire::lemma_encode_concat(a, b);
        wire::lemma_encode_concat(a + b, c);
        wire::lemma_encode_concat(a + b + c, d);
        lemma_two(d);
        assert(graph@ =~= wire::encode(a + b + c + d));
    }
    graph
}

/// The model around its graph, as a message.
fn model_message(graph: &Vec<u8>, Ghost(fields): Ghost<Seq<wire::Field>>) -> (model: Vec<u8>)
    requires
        graph@ == wire::encode(fields),
    ensures
        model@ == wire::encode(model_fields(fields)),
{
    let mut opset: Vec<u8> = Vec::new();
    f_varint(&mut opset, 2, 13);
    proof {
        wire::lemma_encode_one(wire::Field::Varint { number: 2, value: 13 });
        assert(opset@ =~= wire::encode(seq![wire::Field::Varint { number: 2, value: 13 }]));
    }
    let mut model: Vec<u8> = Vec::new();
    f_varint(&mut model, 1, 7);
    f_str(&mut model, 2, "nexis-ml-rs");
    f_bytes(&mut model, 8, opset.as_slice());
    f_bytes(&mut model, 7, graph.as_slice());
    proof {
        let all = model_fields(fields);
        lemma_three(all.take(3));
        wire::lemma_encode_push(all.take(3), all[3]);
        assert(all =~= all.take(3).push(all[3]));
        assert(model@ =~= wire::encode(all));
    }
    model
}

/// Builds the complete model `raw input -> standardize -> (Gemm[, Relu])* ->
/// logits` and returns its bytes.
pub fn build_model(
    features: usize,
    mean: &Vec<u32>,
    std: &Vec<u32>,
    layers: &Vec<Dense>,
    classes: usize,
) -> (m: Vec<u8>)
    ensures
        m@ == wire::encode(
            mlp_fields(features as int, mean@, std@, layers_of(layers@), classes as int),
        ),
{
    let ghost all = layers_of(layers@);
    let mut inits: Vec<Vec<u8>> = Vec::new();
    let mean_dims: Vec<usize> = vec![features];
    inits.push(tensor_message("mean", mean_dims, mean));
    let std_dims: Vec<usize> = vec![features];
    inits.push(tensor_message("std", std_dims, std));
    let mut nodes: Vec<Vec<u8>> = Vec::new();
    let sub_inputs: Vec<&str> = vec!["input", "mean"];
    nodes.push(plain_node("Sub", "standardize_sub", sub_inputs.as_slice(), "x_centered"));
    let div_inputs: Vec<&str> = vec!["x_centered", "std"];
    nodes.push(plain_node("Div", "standardize_div", div_inputs.as_slice(), "x_std"));
    proof {
        assert(slices(sub_inputs@) =~= sub_node().inputs);
        assert(slices(div_inputs@) =~= div_node().inputs);
        assert(wire::bytes_of(nodes@) =~= nodes_encoded(nodes_upto(all, 0)));
        let base = tensors_upto(features as int, mean@, std@, all, 0);
        assert(base[0].dims =~= Seq::new(1, |i: int| mean_dims@[i] as int));
        assert(base[1].dims =~= Seq::new(1, |i: int| std_dims@[i] as int));
        assert(wire::bytes_of(inits@) =~= tensors_encoded(base));
    }

    let mut prev = "x_std".to_string();
    let count = layers.len();
    let mut i: usize = 0;
    while i < count
        invariant
            all == layers_of(layers@),
            count == layers@.len(),
            i <= count,
            i < count ==> prev@ == layer_input(i as int),
            wire::bytes_of(nodes@) == nodes_encoded(nodes_upto(all, i as int)),
            wire::bytes_of(inits@) == tensors_encoded(
                tensors_upto(features as int, mean@, std@, all, i as int),
            ),
        decreases count - i,
    {
        let layer = &layers[i];
        let ghost nodes_before = nodes_upto(all, i as int);
        let ghost inits_before = tensors_upto(features as int, mean@, std@, all, i as int);
        let last = i + 1 == count;
        let w_name = numbered_name("W", i);
        let b_name = numbered_name("B", i);
        let w_dims: Vec<usize> = vec![layer.w_rows, layer.w_cols];
        let w_message = tensor_message(w_name.as_str(), w_dims, &layer.weight);
        let b_dims: Vec<usize> = vec![layer.out_dim];
        let b_message = tensor_message(b_name.as_str(), b_dims, &layer.bias);
        proof {
            let w = weight_tensor(all[i as int], i as int);
            let b = bias_tensor(all[i as int], i as int);
            assert(w.dims =~= Seq::new(2, |k: int| w_dims@[k] as int));
            assert(b.dims =~= Seq::new(1, |k: int| b_dims@[k] as int));
            assert(w_message@ == wire::encode(tensor_fields(w)));
            assert(b_message@ == wire::encode(tensor_fields(b)));
            lemma_tensors_push(inits_before, w);
            lemma_tensors_push(inits_before.push(w), b);
            assert(wire::bytes_of(inits@.push(w_message).push(b_message)) =~= wire::bytes_of(
                inits@,
            ).push(w_message@).push(b_message@));
        }
        inits.push(w_message);
        inits.push(b_message);
        let gemm_out = if last {
            "output".to_string()
        } else {
            numbered_name("g", i)
        };
        let gemm = gemm_message(layer, i, count, prev.as_str(), gemm_out.as_str());
        let ghost g = gemm_node(all[i as int], i as int, count as int);
        proof {
            lemma_nodes_push(nodes_before, g);
            assert(wire::bytes_of(nodes@.push(gemm)) =~= wire::bytes_of(nodes@).push(gemm@));
        }
        nodes.push(gemm);
        if !last {
            let relu_out = numbered_name("h", i);
            let relu_name = numbered_name("relu", i);
            let relu_inputs: Vec<&str> = vec![gemm_out.as_str()];
            let relu = plain_node(
                "Relu",
                relu_name.as_str(),
                relu_inputs.as_slice(),
                relu_out.as_str(),
            );
            proof {
                assert(slices(relu_inputs@) =~= relu_node(i as int).inputs);
                lemma_nodes_push(nodes_before.push(g), relu_node(i as int));
                assert(wire::bytes_of(nodes@.push(relu)) =~= wire::bytes_of(nodes@).push(relu@));
            }
            nodes.push(relu);
            prev = relu_out;
        }
        i += 1;
    }

    let ghost node_list = graph_nodes(all);
    let ghost tensor_list = graph_tensors(features as int, mean@, std@, all);
    let graph = graph_message(
        features,
        &nodes,
        &inits,
        classes,
        Ghost(node_list),
        Ghost(tensor_list),
    );
    model_message(
        &graph,
        Ghost(graph_fields(features as int, node_list, tensor_list, classes as int)),
    )
}

/// A model file to be written whole: its bytes go to `tmp`, which is then
/// renamed to `name`.
pub struct ModelWrite {
    pub name: String,
    pub tmp: String,
    pub bytes: Vec<u8>,
}

/// The model as the file `name` of a directory. It takes raw features, named
/// `input`, and returns class logits, named `output`.
pub fn write_mlp(
    name: &str,
    features: usize,
    mean: &Vec<u32>,
    std: &Vec<u32>,
    layers: &Vec<Dense>,
    classes: usize,
) -> (r: ModelWrite)
    ensures
        r.name@ == name@,
        r.tmp@ == paths::with_extension(name@, "onnx.tmp"@),
        r.bytes@ == wire::encode(
            mlp_fields(features as int, mean@, std@, layers_of(layers@), classes as int),
        ),
{
    ModelWrite {
        name: name.to_string(),
        tmp: paths::replace_extension(name, "onnx.tmp"),
        bytes: build_model(features, mean, std, layers, classes),
    }
}

// ---------------------------------------------------------------------------
// Laws of the graph.
// ---------------------------------------------------------------------------

/// The written model reads back as the model that was meant, and so do its
/// graph and every node and stored tensor of it.
pub proof fn law_model_reads_back(
    features: int,
    mean: Seq<u32>,
    std: Seq<u32>,
    layers: Seq<Layer>,
    classes: int,
)
    ensures
        ({
            let nodes = graph_nodes(layers);
            let tensors = graph_tensors(features, mean, std, layers);
            let graph = graph_fields(features, nodes, tensors, classes);
            &&& wire::decode(wire::encode(mlp_fields(features, mean, std, layers, classes)))
                == Some(model_fields(graph))
            &&& wire::decode(wire::encode(graph)) == Some(graph)
            &&& forall|i: int|
                0 <= i < nodes.len() ==> wire::decode(#[trigger] nodes_encoded(nodes)[i]) == Some(
                    node_fields(nodes[i]),
                )
            &&& forall|i: int|
                0 <= i < tensors.len() ==> wire::decode(#[trigger] tensors_encoded(tensors)[i])
                    == Some(tensor_fields(tensors[i]))
        }),
{
    let nodes = graph_nodes(layers);
    let tensors = graph_tensors(features, mean, std, layers);
    let graph = graph_fields(features, nodes, tensors, classes);
    wire::law_message_reads_back(model_fields(graph));
    wire::law_message_reads_back(graph);
    assert forall|i: int| 0 <= i < nodes.len() implies wire::decode(
        #[trigger] nodes_encoded(nodes)[i],
    ) == Some(node_fields(nodes[i])) by {
        wire::law_message_reads_back(node_fields(nodes[i]));
    }
    assert forall|i: int| 0 <= i < tensors.len() implies wire::decode(
        #[trigger] tensors_encoded(tensors)[i],
    ) == Some(tensor_fields(tensors[i])) by {
        wire::law_message_reads_back(tensor_fields(tensors[i]));
    }
}

pub proof fn lemma_nodes_upto(layers: Seq<Layer>, k: int)
    requires
        0 <= k <= layers.len(),
    ensures
        nodes_upto(layers, k).len() == if k > 0 && k == layers.len() {
            2 * k + 1
        } else {
            2 * k + 2
        },
        nodes_upto(layers, k)[0] == sub_node(),
        nodes_upto(layers, k)[1] == div_node(),
        forall|i: int|
            0 <= i < k ==> #[trigger] nodes_upto(layers, k)[2 + 2 * i] == gemm_node(
                layers[i],
                i,
                layers.len() as int,
            ),
        forall|i: int|
            0 <= i < k && i + 1 < layers.len() ==> #[trigger] nodes_upto(layers, k)[3 + 2 * i]
                == relu_node(i),
    decreases k,
{
    if k > 0 {
        lemma_nodes_upto(layers, k - 1);
        let before = nodes_upto(layers, k - 1);
        let now = nodes_upto(layers, k);
        let count = layers.len() as int;
        assert(now[2 + 2 * (k - 1)] == gemm_node(layers[k - 1], k - 1, count));
        assert forall|i: int| 0 <= i < k implies #[trigger] now[2 + 2 * i] == gemm_node(
            layers[i],
            i,
            count,
        ) by {
            if i < k - 1 {
                assert(now[2 + 2 * i] == before[2 + 2 * i]);
            }
        }
        assert forall|i: int| 0 <= i < k && i + 1 < layers.len() implies #[trigger] now[3 + 2 * i]
            == relu_node(i) by {
            if i < k - 1 {
                assert(now[3 + 2 * i] == before[3 + 2 * i]);
            }
        }
    }
}

pub proof fn lemma_tensors_upto(
    features: int,
    mean: Seq<u32>,
    std: Seq<u32>,
    layers: Seq<Layer>,
    k: int,
)
    requires
        0 <= k <= layers.len(),
    ensures
        ({
            let t = tensors_upto(features, mean, std, layers, k);
            &&& t.len() == 2 * k + 2
            &&& t[0] == Tensor { name: "mean"@, dims: seq![features], data: mean }
            &&& t[1] == Tensor { name: "std"@, dims: seq![features], data: std }
            &&& forall|i: int|
                0 <= i < k ==> #[trigger] t[2 + 2 * i] == weight_tensor(layers[i], i)
            &&& forall|i: int| 0 <= i < k ==> #[trigger] t[3 + 2 * i] == bias_tensor(layers[i], i)
        }),
    decreases k,
{
    if k > 0 {
        lemma_tensors_upto(features, mean, std, layers, k - 1);
        let before = tensors_upto(features, mean, std, layers, k - 1);
        let now = tensors_upto(features, mean, std, layers, k);
        assert forall|i: int| 0 <= i < k implies #[trigger] now[2 + 2 * i] == weight_tensor(
            layers[i],
            i,
        ) by {
            if i < k - 1 {
                assert(now[2 + 2 * i] == before[2 + 2 * i]);
            }
        }
        assert forall|i: int| 0 <= i < k implies #[trigger] now[3 + 2 * i] == bias_tensor(
            layers[i],
            i,
        ) by {
            if i < k - 1 {
                assert(now[3 + 2 * i] == before[3 + 2 * i]);
            }
        }
    }
}

/// The graph of at least one layer: the standardization comes first, then a
/// product for each layer and, between two layers, a rectifier; the last node
/// gives the output.
pub proof fn law_graph_shape(layers: Seq<Layer>)
    requires
        layers.len() >= 1,
    ensures
        graph_nodes(layers).len() == 2 * layers.len() + 1,
        graph_nodes(layers)[0] == sub_node(),
        graph_nodes(layers)[1] == div_node(),
        forall|i: int|
            0 <= i < layers.len() ==> #[trigger] graph_nodes(layers)[2 + 2 * i] == gemm_node(
                layers[i],
                i,
                layers.len() as int,
            ),
        forall|i: int|
            0 <= i < layers.len() - 1 ==> #[trigger] graph_nodes(layers)[3 + 2 * i] == relu_node(i),
        graph_nodes(layers).last().outputs == seq!["output"@],
{
    let n = layers.len() as int;
    lemma_nodes_upto(layers, n);
    assert(graph_nodes(layers)[2 + 2 * (n - 1)] == gemm_node(layers[n - 1], n - 1, n));
}

/// The value that a node reads is the model's input, a stored tensor or the
/// output of an earlier node.
pub open spec fn is_defined(
    name: Seq<char>,
    nodes: Seq<Node>,
    before: int,
    tensors: Seq<Tensor>,
) -> bool {
    ||| name == "input"@
    ||| exists|t: int| 0 <= t < tensors.len() && #[trigger] tensors[t].name == name
    ||| exists|m: int| 0 <= m < before && #[trigger] nodes[m].outputs == seq![name]
}

/// Every value that a node reads is defined before it.
pub proof fn law_graph_connected(
    features: int,
    mean: Seq<u32>,
    std: Seq<u32>,
    layers: Seq<Layer>,
)
    ensures
        forall|n: int, j: int|
            0 <= n < graph_nodes(layers).len() && 0 <= j < graph_nodes(layers)[n].inputs.len()
                ==> is_defined(
                #[trigger] graph_nodes(layers)[n].inputs[j],
                graph_nodes(layers),
                n,
                graph_tensors(features, mean, std, layers),
            ),
{
    let nodes = graph_nodes(layers);
    let tensors = graph_tensors(features, mean, std, layers);
    let count = layers.len() as int;
    lemma_nodes_upto(layers, count);
    lemma_tensors_upto(features, mean, std, layers, count);
    assert forall|n: int, j: int|
        0 <= n < nodes.len() && 0 <= j < nodes[n].inputs.len() implies is_defined(
        #[trigger] nodes[n].inputs[j],
        nodes,
        n,
        tensors,
    ) by {
        assert(tensors[0].name == "mean"@);
        assert(tensors[1].name == "std"@);
        if n == 0 {
        } else if n == 1 {
            assert(nodes[0].outputs == seq!["x_centered"@]);
        } else {
            let i = (n - 2) / 2;
            if n % 2 == 0 {
                assert(n == 2 + 2 * i);
                assert(nodes[n] == gemm_node(layers[i], i, count));
                assert(tensors[2 + 2 * i].name == numbered("W"@, i));
                assert(tensors[3 + 2 * i].name == numbered("B"@, i));
                if i == 0 {
                    assert(nodes[1].outputs == seq!["x_std"@]);
                } else {
                    assert(nodes[3 + 2 * (i - 1)] == relu_node(i - 1));
                    assert(nodes[n - 1].outputs == seq![numbered("h"@, i - 1)]);
                }
            } else {
                assert(n == 3 + 2 * i);
                assert(nodes[n] == relu_node(i));
                assert(nodes[2 + 2 * i] == gemm_node(layers[i], i, count));
                assert(nodes[n - 1].outputs == seq![numbered("g"@, i)]);
            }
        }
    }
}

/// Every name that the graph gives a value: the input, the stored tensors and
/// the outputs of the nodes.
pub open spec fn value_names(nodes: Seq<Node>, tensors: Seq<Tensor>) -> Seq<Seq<char>> {
    seq!["input"@] + Seq::new(tensors.len(), |i: int| tensors[i].name) + Seq::new(
        nodes.len(),
        |i: int| nodes[i].outputs[0],
    )
}

/// What tells the names of the graph apart: the first character and, where
/// there is one, the number after it.
spec fn name_key(name: Seq<char>, first: char, number: int) -> bool {
    &&& name.len() >= 1
    &&& name[0] == first
    &&& number >= 0 ==> name == seq![first] + crate::text::decimal(number as nat)
}

proof fn lemma_name_keys(a: Seq<char>, c: char, m: int, b: Seq<char>, d: char, n: int)
    requires
        name_key(a, c, m),
        name_key(b, d, n),
        c != d || (m >= 0 && n >= 0 && m != n),
    ensures
        a != b,
{
    if a == b && c == d {
        let x = crate::text::decimal(m as nat);
        let y = crate::text::decimal(n as nat);
        assert(a.drop_first() =~= x);
        assert(b.drop_first() =~= y);
        crate::text::lemma_decimal_injective(m as nat, n as nat);
    }
}

/// The key of the `i`-th name of the graph.
spec fn value_key(count: int, i: int) -> (char, int) {
    if i == 0 {
        ('i', -1)
    } else if i == 1 {
        ('m', -1)
    } else if i == 2 {
        ('s', -1)
    } else if i < 3 + 2 * count {
        (
            if i % 2 == 1 {
                'W'
            } else {
                'B'
            },
            (i - 3) / 2,
        )
    } else if i < 5 + 2 * count {
        ('x', -1)
    } else if i == 4 * count + 3 {
        ('o', -1)
    } else {
        (
            if (i - 5 - 2 * count) % 2 == 0 {
                'g'
            } else {
                'h'
            },
            (i - 5 - 2 * count) / 2,
        )
    }
}

/// No two values of the graph have the same name.
#[verifier::rlimit(40)]
pub proof fn law_graph_names_distinct(
    features: int,
    mean: Seq<u32>,
    std: Seq<u32>,
    layers: Seq<Layer>,
)
    requires
        layers.len() >= 1,
    ensures
        value_names(
            graph_nodes(layers),
            graph_tensors(features, mean, std, layers),
        ).no_duplicates(),
{
    let nodes = graph_nodes(layers);
    let tensors = graph_tensors(features, mean, std, layers);
    let count = layers.len() as int;
    let names = value_names(nodes, tensors);
    lemma_nodes_upto(layers, count);
    lemma_tensors_upto(features, mean, std, layers, count);
    reveal_strlit("input");
    reveal_strlit("mean");
    reveal_strlit("std");
    reveal_strlit("W");
    reveal_strlit("B");
    reveal_strlit("g");
    reveal_strlit("h");
    reveal_strlit("x_centered");
    reveal_strlit("x_std");
    reveal_strlit("output");
    assert("W"@ =~= seq!['W']);
    assert("B"@ =~= seq!['B']);
    assert("g"@ =~= seq!['g']);
    assert("h"@ =~= seq!['h']);
    assert(names.len() == 4 * count + 4);
    let base = 3 + 2 * count;
    assert forall|i: int| 0 <= i < names.len() implies name_key(
        #[trigger] names[i],
        value_key(count, i).0,
        value_key(count, i).1,
    ) by {
        if 3 <= i < base {
            let k = (i - 3) / 2;
            assert(names[i] == tensors[i - 1].name);
            if i % 2 == 1 {
                assert(tensors[2 + 2 * k] == weight_tensor(layers[k], k));
            } else {
                assert(tensors[3 + 2 * k] == bias_tensor(layers[k], k));
            }
        } else if i >= base {
            let n = i - base;
            assert(names[i] == nodes[n].outputs[0]);
            if n >= 2 {
                let k = (n - 2) / 2;
                if n % 2 == 0 {
                    assert(nodes[2 + 2 * k] == gemm_node(layers[k], k, count));
                } else {
                    assert(nodes[3 + 2 * k] == relu_node(k));
                }
            }
        }
    }
    assert forall|i: int, j: int| 0 <= i < j < names.len() implies names[i] != names[j] by {
        assert(name_key(names[i], value_key(count, i).0, value_key(count, i).1));
        assert(name_key(names[j], value_key(count, j).0, value_key(count, j).1));
        if i == base && j == base + 1 {
            assert(names[i] == "x_centered"@);
            assert(names[j] == "x_std"@);
            assert(names[i].len() != names[j].len());
        } else {
            lemma_name_keys(
                names[i],
                value_key(count, i).0,
                value_key(count, i).1,
                names[j],
                value_key(count, j).0,
                value_key(count, j).1,
            );
        }
    }
}

proof fn lemma_raw_data_len(data: Seq<u32>)
    ensures
        raw_data(data).len() == 4 * data.len(),
    decreases data.len(),
{
    if data.len() > 0 {
        lemma_raw_data_len(data.drop_last());
    }
}

proof fn lemma_little_endian_value(v: u32)
    ensures
        ({
            let s = little_endian(v);
            v == s[0] + 256 * s[1] + 65536 * s[2] + 16777216 * s[3]
        }),
{
    let n = v as int;
    assert(n / 256 / 256 == n / 65536);
    assert(n / 65536 / 256 == n / 16777216);
    assert(n / 16777216 < 256);
}

/// A number is stored with its lowest byte first.
pub proof fn law_lowest_byte_first(v: u32)
    ensures
        little_endian(v).len() == 4,
        v == little_endian(v)[0] + 0x100 * little_endian(v)[1] + 0x1_0000 * little_endian(v)[2]
            + 0x100_0000 * little_endian(v)[3],
{
    lemma_little_endian_value(v);
}

/// The bytes of a tensor determine its numbers, bit for bit.
pub proof fn law_bytes_determine_numbers(a: Seq<u32>, b: Seq<u32>)
    requires
        raw_data(a) == raw_data(b),
    ensures
        a == b,
    decreases a.len(),
{
    lemma_raw_data_len(a);
    lemma_raw_data_len(b);
    if a.len() > 0 {
        let (x, y) = (a.drop_last(), b.drop_last());
        lemma_raw_data_len(x);
        lemma_raw_data_len(y);
        let n = 4 * x.len() as int;
        assert(raw_data(a).take(n) =~= raw_data(x));
        assert(raw_data(b).take(n) =~= raw_data(y));
        assert(raw_data(a).skip(n) =~= little_endian(a.last()));
        assert(raw_data(b).skip(n) =~= little_endian(b.last()));
        law_bytes_determine_numbers(x, y);
        lemma_little_endian_value(a.last());
        lemma_little_endian_value(b.last());
        assert(a =~= x.push(a.last()));
        assert(b =~= y.push(b.last()));
    } else {
        assert(a =~= b);
    }
}

/// A layer is what the trained layer holds.
pub proof fn law_layers_hold_the_weights(layers: Seq<Dense>, i: int)
    requires
        0 <= i < layers.len(),
    ensures
        layers_of(layers).len() == layers.len(),
        layers_of(layers)[i].weight == layers[i].weight@,
        layers_of(layers)[i].bias == layers[i].bias@,
        layers_of(layers)[i].w_rows == layers[i].w_rows,
        layers_of(layers)[i].w_cols == layers[i].w_cols,
        layers_of(layers)[i].in_dim == layers[i].in_dim,
        layers_of(layers)[i].out_dim == layers[i].out_dim,
{
}

/// Every stored tensor has as many numbers as its sizes tell, where the mean and
/// the deviation have one for each feature, a weight one for each cell and a bias
/// one for each output.
pub proof fn law_tensors_have_their_sizes(
    features: int,
    mean: Seq<u32>,
    std: Seq<u32>,
    layers: Seq<Layer>,
)
    requires
        mean.len() == features,
        std.len() == features,
        forall|i: int|
            0 <= i < layers.len() ==> (#[trigger] layers[i]).weight.len() == layers[i].w_rows
                * layers[i].w_cols && layers[i].bias.len() == layers[i].out_dim,
    ensures
        ({
            let tensors = graph_tensors(features, mean, std, layers);
            &&& tensors.len() == 2 * layers.len() + 2
            &&& forall|t: int|
                0 <= t < tensors.len() ==> {
                    let (dims, data) = ((#[trigger] tensors[t]).dims, tensors[t].data);
                    ||| dims.len() == 1 && data.len() == dims[0]
                    ||| dims.len() == 2 && data.len() == dims[0] * dims[1]
                }
            &&& forall|i: int|
                0 <= i < layers.len() ==> (#[trigger] tensors[2 + 2 * i]).dims.len() == 2
            &&& forall|i: int|
                0 <= i < layers.len() ==> (#[trigger] tensors[3 + 2 * i]).dims.len() == 1
        }),
{
    let tensors = graph_tensors(features, mean, std, layers);
    lemma_tensors_upto(features, mean, std, layers, layers.len() as int);
    assert forall|t: int| 0 <= t < tensors.len() implies {
        let (dims, data) = ((#[trigger] tensors[t]).dims, tensors[t].data);
        ||| dims.len() == 1 && data.len() == dims[0]
        ||| dims.len() == 2 && data.len() == dims[0] * dims[1]
    } by {
        if t >= 2 {
            let i = (t - 2) / 2;
            assert(t == 2 + 2 * i || t == 3 + 2 * i);
            assert(tensors[2 + 2 * i] == weight_tensor(layers[i], i));
            assert(tensors[3 + 2 * i] == bias_tensor(layers[i], i));
        }
    }
}

} // verus!
