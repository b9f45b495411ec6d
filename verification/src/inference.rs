//! What an exported model computes: a reader of ONNX files and an interpreter of
//! the graphs that they hold, as far as dense networks need them.
use vstd::prelude::*;

use crate::onnx;
use crate::onnx::{Layer, Node, Tensor};
use crate::wire;
use crate::wire::Field;

verus! {

// ---------------------------------------------------------------------------
// Reading.
// ---------------------------------------------------------------------------

/// The fields of a message.
#[verifier::opaque]
pub open spec fn fields_of(bytes: Seq<u8>) -> Seq<Field> {
    match wire::decode(bytes) {
        Some(fields) => fields,
        None => Seq::empty(),
    }
}

/// What the length-delimited fields of a number hold, in order.
#[verifier::opaque]
pub open spec fn chunks(fields: Seq<Field>, wanted: nat) -> Seq<Seq<u8>>
    decreases fields.len(),
{
    if fields.len() == 0 {
        Seq::empty()
    } else {
        match fields.last() {
            Field::Bytes { number, data } => if number == wanted {
                chunks(fields.drop_last(), wanted).push(data)
            } else {
                chunks(fields.drop_last(), wanted)
            },
            _ => chunks(fields.drop_last(), wanted),
        }
    }
}

/// What the integer fields of a number hold, in order.
#[verifier::opaque]
pub open spec fn integers(fields: Seq<Field>, wanted: nat) -> Seq<int>
    decreases fields.len(),
{
    if fields.len() == 0 {
        Seq::empty()
    } else {
        match fields.last() {
            Field::Varint { number, value } => if number == wanted {
                integers(fields.drop_last(), wanted).push(value as int)
            } else {
                integers(fields.drop_last(), wanted)
            },
            _ => integers(fields.drop_last(), wanted),
        }
    }
}

/// Texts from their bytes.
pub open spec fn texts(list: Seq<Seq<u8>>) -> Seq<Seq<char>> {
    Seq::new(list.len(), |i: int| vstd::utf8::decode_utf8(list[i]))
}

/// `AttributeProto` of one integer: its name and its value.
pub open spec fn read_attribute(bytes: Seq<u8>) -> (Seq<char>, int) {
    let fields = fields_of(bytes);
    (texts(chunks(fields, 1))[0], integers(fields, 3)[0])
}

/// `NodeProto`.
pub open spec fn read_node(bytes: Seq<u8>) -> Node {
    let fields = fields_of(bytes);
    let attributes = chunks(fields, 5);
    Node {
        op: texts(chunks(fields, 4))[0],
        name: texts(chunks(fields, 3))[0],
        inputs: texts(chunks(fields, 1)),
        outputs: texts(chunks(fields, 2)),
        attributes: Seq::new(attributes.len(), |i: int| read_attribute(attributes[i])),
    }
}

/// The numbers of four bytes each, the lowest byte first.
pub open spec fn read_numbers(raw: Seq<u8>) -> Seq<u32> {
    Seq::new(
        raw.len() / 4,
        |i: int|
            (raw[4 * i] + 0x100 * raw[4 * i + 1] + 0x1_0000 * raw[4 * i + 2] + 0x100_0000 * raw[4
                * i + 3]) as u32,
    )
}

/// `TensorProto` of single-precision numbers.
pub open spec fn read_tensor(bytes: Seq<u8>) -> Tensor {
    let fields = fields_of(bytes);
    Tensor {
        name: texts(chunks(fields, 8))[0],
        dims: integers(fields, 1),
        data: read_numbers(chunks(fields, 9)[0]),
    }
}

/// The name in a `ValueInfoProto`.
pub open spec fn read_value_name(bytes: Seq<u8>) -> Seq<char> {
    texts(chunks(fields_of(bytes), 1))[0]
}

/// The graph of a model.
pub struct Graph {
    pub nodes: Seq<Node>,
    pub tensors: Seq<Tensor>,
    pub inputs: Seq<Seq<char>>,
    pub outputs: Seq<Seq<char>>,
}

/// `GraphProto`.
pub open spec fn read_graph(bytes: Seq<u8>) -> Graph {
    let fields = fields_of(bytes);
    let (nodes, tensors) = (chunks(fields, 1), chunks(fields, 5));
    let (inputs, outputs) = (chunks(fields, 11), chunks(fields, 12));
    Graph {
        nodes: Seq::new(nodes.len(), |i: int| read_node(nodes[i])),
        tensors: Seq::new(tensors.len(), |i: int| read_tensor(tensors[i])),
        inputs: Seq::new(inputs.len(), |i: int| read_value_name(inputs[i])),
        outputs: Seq::new(outputs.len(), |i: int| read_value_name(outputs[i])),
    }
}

/// The graph of a `ModelProto`.
pub open spec fn read_model(bytes: Seq<u8>) -> Graph {
    read_graph(chunks(fields_of(bytes), 7)[0])
}

// ---------------------------------------------------------------------------
// Running.
// ---------------------------------------------------------------------------

/// The arithmetic of single-precision numbers, by their bit patterns.
pub struct Arithmetic {
    pub plus: spec_fn(u32, u32) -> u32,
    pub minus: spec_fn(u32, u32) -> u32,
    pub over: spec_fn(u32, u32) -> u32,
    /// The sum of the products of two lists.
    pub dot: spec_fn(Seq<u32>, Seq<u32>) -> u32,
    /// The number, or zero where it is below.
    pub rectify: spec_fn(u32) -> u32,
}

/// A value of a graph: its numbers row by row.
pub struct Matrix {
    pub dims: Seq<int>,
    pub data: Seq<u32>,
}

/// A row of numbers.
pub open spec fn row(data: Seq<u32>) -> Matrix {
    Matrix { dims: seq![data.len() as int], data }
}

/// Whether an attribute of a node is set to 1.
pub open spec fn is_set(node: Node, attribute: Seq<char>) -> bool {
    exists|i: int|
        0 <= i < node.attributes.len() && #[trigger] node.attributes[i] == (attribute, 1int)
}

/// `Gemm`: a row times a matrix, which may be stored transposed, plus a row.
pub open spec fn gemm(a: Matrix, b: Matrix, c: Matrix, transposed: bool, num: Arithmetic) -> Matrix {
    let (rows, columns) = (b.dims[0], b.dims[1]);
    row(
        if transposed {
            Seq::new(
                rows as nat,
                |j: int|
                    (num.plus)(
                        (num.dot)(
                            a.data,
                            Seq::new(columns as nat, |k: int| b.data[j * columns + k]),
                        ),
                        c.data[j],
                    ),
            )
        } else {
            Seq::new(
                columns as nat,
                |j: int|
                    (num.plus)(
                        (num.dot)(
                            a.data,
                            Seq::new(rows as nat, |k: int| b.data[k * columns + j]),
                        ),
                        c.data[j],
                    ),
            )
        },
    )
}

/// What a node gives, where the values are known that it reads.
pub open spec fn result(node: Node, env: Map<Seq<char>, Matrix>, num: Arithmetic) -> Matrix {
    let a = env[node.inputs[0]];
    let b = env[node.inputs[1]];
    if node.op == "Sub"@ {
        row(Seq::new(a.data.len(), |i: int| (num.minus)(a.data[i], b.data[i])))
    } else if node.op == "Div"@ {
        row(Seq::new(a.data.len(), |i: int| (num.over)(a.data[i], b.data[i])))
    } else if node.op == "Relu"@ {
        row(Seq::new(a.data.len(), |i: int| (num.rectify)(a.data[i])))
    } else if node.op == "Gemm"@ {
        gemm(a, b, env[node.inputs[2]], is_set(node, "transB"@), num)
    } else {
        row(Seq::empty())
    }
}

/// The values that are known from the beginning: the first `k` stored tensors.
pub open spec fn stored(tensors: Seq<Tensor>, k: int) -> Map<Seq<char>, Matrix>
    decreases k,
{
    if k <= 0 {
        Map::empty()
    } else {
        let t = tensors[k - 1];
        stored(tensors, k - 1).insert(t.name, Matrix { dims: t.dims, data: t.data })
    }
}

/// The values that are known when the first `k` nodes have run.
pub open spec fn known(graph: Graph, x: Seq<u32>, k: int, num: Arithmetic) -> Map<Seq<char>, Matrix>
    decreases k,
{
    if k <= 0 {
        stored(graph.tensors, graph.tensors.len() as int).insert(graph.inputs[0], row(x))
    } else {
        let env = known(graph, x, k - 1, num);
        let node = graph.nodes[k - 1];
        env.insert(node.outputs[0], result(node, env, num))
    }
}

/// What a graph gives for one row of numbers.
pub open spec fn run(graph: Graph, x: Seq<u32>, num: Arithmetic) -> Seq<u32> {
    known(graph, x, graph.nodes.len() as int, num)[graph.outputs[0]].data
}

// ---------------------------------------------------------------------------
// The network.
// ---------------------------------------------------------------------------

/// A row of features, each less its mean and divided by its deviation.
pub open spec fn standardized(
    x: Seq<u32>,
    mean: Seq<u32>,
    std: Seq<u32>,
    num: Arithmetic,
) -> Seq<u32> {
    Seq::new(x.len(), |i: int| (num.over)((num.minus)(x[i], mean[i]), std[i]))
}

/// The weight that a layer gives input `i` for output `j`.
pub open spec fn weight(layer: Layer, i: int, j: int) -> u32 {
    if layer.w_rows == layer.out_dim && layer.w_cols == layer.in_dim {
        layer.weight[j * layer.in_dim + i]
    } else {
        layer.weight[i * layer.out_dim + j]
    }
}

/// What a dense layer makes of a row.
pub open spec fn dense(layer: Layer, v: Seq<u32>, num: Arithmetic) -> Seq<u32> {
    Seq::new(
        layer.out_dim as nat,
        |j: int|
            (num.plus)(
                (num.dot)(v, Seq::new(layer.in_dim as nat, |i: int| weight(layer, i, j))),
                layer.bias[j],
            ),
    )
}

/// A row with zero for what is below zero.
pub open spec fn rectified(v: Seq<u32>, num: Arithmetic) -> Seq<u32> {
    Seq::new(v.len(), |i: int| (num.rectify)(v[i]))
}

/// What the first `k` layers make of a row: between two layers, what is below zero
/// becomes zero.
pub open spec fn passed(layers: Seq<Layer>, v: Seq<u32>, k: int, num: Arithmetic) -> Seq<u32>
    decreases k,
{
    if k <= 0 {
        v
    } else {
        let before = passed(layers, v, k - 1, num);
        let read = if k == 1 {
            before
        } else {
            rectified(before, num)
        };
        dense(layers[k - 1], read, num)
    }
}

/// Whether layers fit one another, from the features on.
pub open spec fn chained(layers: Seq<Layer>, features: int) -> bool {
    forall|i: int|
        0 <= i < layers.len() ==> {
            let layer = #[trigger] layers[i];
            &&& layer.in_dim >= 0
            &&& layer.out_dim >= 0
            &&& layer.in_dim == if i == 0 {
                features
            } else {
                layers[i - 1].out_dim
            }
            &&& (layer.w_rows == layer.out_dim && layer.w_cols == layer.in_dim) || (layer.w_rows
                == layer.in_dim && layer.w_cols == layer.out_dim)
        }
}

// ---------------------------------------------------------------------------
// What was written is what is read.
// ---------------------------------------------------------------------------

proof fn lemma_fields_of(fields: Seq<Field>)
    ensures
        fields_of(wire::encode(fields)) == fields,
{
    reveal(fields_of);
    wire::law_message_reads_back(fields);
}

proof fn lemma_add(a: Seq<Field>, b: Seq<Field>, wanted: nat)
    ensures
        chunks(a + b, wanted) == chunks(a, wanted) + chunks(b, wanted),
        integers(a + b, wanted) == integers(a, wanted) + integers(b, wanted),
    decreases b.len(),
{
    reveal(chunks);
    reveal(integers);
    if b.len() == 0 {
        assert(a + b =~= a);
        assert(chunks(a, wanted) + chunks(b, wanted) =~= chunks(a, wanted));
        assert(integers(a, wanted) + integers(b, wanted) =~= integers(a, wanted));
    } else {
        lemma_add(a, b.drop_last(), wanted);
        assert((a + b).drop_last() =~= a + b.drop_last());
        assert((a + b).last() == b.last());
        assert(chunks(a + b, wanted) =~= chunks(a, wanted) + chunks(b, wanted));
        assert(integers(a + b, wanted) =~= integers(a, wanted) + integers(b, wanted));
    }
}

proof fn lemma_none(wanted: nat)
    ensures
        chunks(Seq::empty(), wanted) == Seq::<Seq<u8>>::empty(),
        integers(Seq::empty(), wanted) == Seq::<int>::empty(),
{
    reveal(chunks);
    reveal(integers);
}

proof fn lemma_push(fields: Seq<Field>, field: Field, wanted: nat)
    ensures
        chunks(fields.push(field), wanted) == match field {
            Field::Bytes { number, data } => if number == wanted {
                chunks(fields, wanted).push(data)
            } else {
                chunks(fields, wanted)
            },
            _ => chunks(fields, wanted),
        },
        integers(fields.push(field), wanted) == match field {
            Field::Varint { number, value } => if number == wanted {
                integers(fields, wanted).push(value as int)
            } else {
                integers(fields, wanted)
            },
            _ => integers(fields, wanted),
        },
{
    reveal(chunks);
    reveal(integers);
    assert(fields.push(field).drop_last() =~= fields);
}

proof fn lemma_repeated(number: nat, contents: Seq<Seq<u8>>, wanted: nat)
    ensures
        chunks(wire::repeated(number, contents), wanted) == if number == wanted {
            contents
        } else {
            Seq::empty()
        },
        integers(wire::repeated(number, contents), wanted) == Seq::<int>::empty(),
    decreases contents.len(),
{
    reveal(chunks);
    reveal(integers);
    let all = wire::repeated(number, contents);
    if contents.len() == 0 {
        assert(chunks(all, wanted) =~= contents);
    } else {
        let front = contents.drop_last();
        lemma_repeated(number, front, wanted);
        assert(all.drop_last() =~= wire::repeated(number, front));
        assert(front.push(contents.last()) =~= contents);
    }
}

proof fn lemma_texts(number: nat, names: Seq<Seq<char>>, wanted: nat)
    ensures
        texts(chunks(onnx::name_fields(number, names), wanted)) == if number == wanted {
            names
        } else {
            Seq::empty()
        },
        chunks(onnx::name_fields(number, names), wanted).len() == if number == wanted {
            names.len()
        } else {
            0
        },
{
    broadcast use vstd::utf8::encode_utf8_decode_utf8;

    let contents = Seq::new(names.len(), |i: int| vstd::utf8::encode_utf8(names[i]));
    assert(onnx::name_fields(number, names) =~= wire::repeated(number, contents));
    lemma_repeated(number, contents, wanted);
    assert(number == wanted ==> texts(contents) =~= names);
    assert(number != wanted ==> texts(Seq::empty()) =~= Seq::<Seq<char>>::empty());
}

proof fn lemma_attribute(name: Seq<char>, value: int)
    requires
        value >= 0,
    ensures
        read_attribute(wire::encode(onnx::attribute_fields(name, value))) == (name, value),
{
    broadcast use vstd::utf8::encode_utf8_decode_utf8;

    let fields = onnx::attribute_fields(name, value);
    lemma_fields_of(fields);
    lemma_none(1);
    lemma_none(3);
    let none = Seq::<Field>::empty();
    lemma_push(none, fields[0], 1);
    lemma_push(none.push(fields[0]), fields[1], 1);
    lemma_push(none.push(fields[0]).push(fields[1]), fields[2], 1);
    lemma_push(none, fields[0], 3);
    lemma_push(none.push(fields[0]), fields[1], 3);
    lemma_push(none.push(fields[0]).push(fields[1]), fields[2], 3);
    assert(fields =~= none.push(fields[0]).push(fields[1]).push(fields[2]));
    assert(texts(chunks(fields, 1))[0] == name);
}

proof fn lemma_node(n: Node)
    requires
        forall|i: int| 0 <= i < n.attributes.len() ==> (#[trigger] n.attributes[i]).1 >= 0,
    ensures
        read_node(wire::encode(onnx::node_fields(n))) == n,
{
    broadcast use vstd::utf8::encode_utf8_decode_utf8;

    let encoded = onnx::attributes_encoded(n.attributes);
    let all = onnx::node_fields(n);
    lemma_fields_of(all);
    let a = onnx::name_fields(1, n.inputs);
    let b = onnx::name_fields(2, n.outputs);
    let c = seq![wire::text_field(3, n.name), wire::text_field(4, n.op)];
    let d = wire::repeated(5, encoded);
    let none = Seq::<Field>::empty();
    assert(c =~= none.push(c[0]).push(c[1]));
    assert forall|k: nat| 1 <= k <= 5 implies #[trigger] chunks(all, k) == chunks(a, k) + chunks(
        b,
        k,
    ) + chunks(c, k) + chunks(d, k) by {
        lemma_add(a, b, k);
        lemma_add(a + b, c, k);
        lemma_add(a + b + c, d, k);
    }
    assert forall|k: nat| 1 <= k <= 5 implies #[trigger] chunks(c, k) == if k == 3 {
        seq![vstd::utf8::encode_utf8(n.name)]
    } else if k == 4 {
        seq![vstd::utf8::encode_utf8(n.op)]
    } else {
        Seq::empty()
    } by {
        lemma_none(k);
        lemma_push(none, c[0], k);
        lemma_push(none.push(c[0]), c[1], k);
    }
    assert forall|k: nat| 1 <= k <= 5 implies texts(#[trigger] chunks(all, k)) == if k == 1 {
        n.inputs
    } else if k == 2 {
        n.outputs
    } else if k == 3 {
        seq![n.name]
    } else if k == 4 {
        seq![n.op]
    } else {
        texts(encoded)
    } by {
        lemma_texts(1, n.inputs, k);
        lemma_texts(2, n.outputs, k);
        lemma_repeated(5, encoded, k);
        assert(chunks(all, k) =~= if k == 1 {
            chunks(a, k)
        } else if k == 2 {
            chunks(b, k)
        } else if k == 5 {
            chunks(d, k)
        } else {
            chunks(c, k)
        });
        assert(texts(seq![vstd::utf8::encode_utf8(n.name)]) =~= seq![n.name]);
        assert(texts(seq![vstd::utf8::encode_utf8(n.op)]) =~= seq![n.op]);
    }
    lemma_texts(1, n.inputs, 5);
    lemma_texts(2, n.outputs, 5);
    lemma_repeated(5, encoded, 5);
    assert(chunks(all, 5) =~= encoded);
    let r = read_node(wire::encode(all));
    assert(texts(chunks(all, 1)) == n.inputs);
    assert(texts(chunks(all, 2)) == n.outputs);
    assert(texts(chunks(all, 3)) == seq![n.name]);
    assert(texts(chunks(all, 4)) == seq![n.op]);
    assert forall|i: int| 0 <= i < encoded.len() implies #[trigger] read_attribute(encoded[i])
        == n.attributes[i] by {
        lemma_attribute(n.attributes[i].0, n.attributes[i].1);
    }
    assert(r.attributes =~= n.attributes);
}

proof fn lemma_raw(data: Seq<u32>)
    ensures
        onnx::raw_data(data).len() == 4 * data.len(),
        forall|i: int|
            0 <= i < data.len() ==> #[trigger] data[i] == onnx::raw_data(data)[4 * i] + 0x100
                * onnx::raw_data(data)[4 * i + 1] + 0x1_0000 * onnx::raw_data(data)[4 * i + 2]
                + 0x100_0000 * onnx::raw_data(data)[4 * i + 3],
    decreases data.len(),
{
    if data.len() > 0 {
        let front = data.drop_last();
        lemma_raw(front);
        let (all, before) = (onnx::raw_data(data), onnx::raw_data(front));
        let last = onnx::little_endian(data.last());
        onnx::law_lowest_byte_first(data.last());
        assert(all == before + last);
        assert forall|i: int| 0 <= i < data.len() implies #[trigger] data[i] == all[4 * i] + 0x100
            * all[4 * i + 1] + 0x1_0000 * all[4 * i + 2] + 0x100_0000 * all[4 * i + 3] by {
            if i < front.len() {
                assert(data[i] == front[i]);
                assert(all[4 * i] == before[4 * i]);
                assert(all[4 * i + 1] == before[4 * i + 1]);
                assert(all[4 * i + 2] == before[4 * i + 2]);
                assert(all[4 * i + 3] == before[4 * i + 3]);
            } else {
                assert(all[4 * i] == last[0]);
                assert(all[4 * i + 1] == last[1]);
                assert(all[4 * i + 2] == last[2]);
                assert(all[4 * i + 3] == last[3]);
            }
        }
    }
}

proof fn lemma_dims(dims: Seq<int>, wanted: nat)
    requires
        forall|i: int| 0 <= i < dims.len() ==> #[trigger] dims[i] >= 0,
    ensures
        ({
            let fields = Seq::new(
                dims.len(),
                |i: int| Field::Varint { number: 1, value: wire::wire_int(dims[i]) },
            );
            &&& chunks(fields, wanted) == Seq::<Seq<u8>>::empty()
            &&& wanted == 1 ==> integers(fields, wanted) == dims
        }),
    decreases dims.len(),
{
    reveal(chunks);
    reveal(integers);
    let fields = Seq::new(
        dims.len(),
        |i: int| Field::Varint { number: 1, value: wire::wire_int(dims[i]) },
    );
    if dims.len() > 0 {
        let front = dims.drop_last();
        assert forall|i: int| 0 <= i < front.len() implies #[trigger] front[i] >= 0 by {
            assert(front[i] == dims[i]);
        }
        lemma_dims(front, wanted);
        assert(fields.drop_last() =~= Seq::new(
            front.len(),
            |i: int| Field::Varint { number: 1, value: wire::wire_int(front[i]) },
        ));
        assert(dims.last() == dims[dims.len() - 1]);
        assert(front.push(dims.last()) =~= dims);
    } else {
        assert(wanted == 1 ==> integers(fields, wanted) =~= dims);
    }
}

proof fn lemma_tensor(t: Tensor)
    requires
        forall|i: int| 0 <= i < t.dims.len() ==> #[trigger] t.dims[i] >= 0,
    ensures
        read_tensor(wire::encode(onnx::tensor_fields(t))) == t,
{
    broadcast use vstd::utf8::encode_utf8_decode_utf8;

    let all = onnx::tensor_fields(t);
    lemma_fields_of(all);
    let a = Seq::new(
        t.dims.len(),
        |i: int| Field::Varint { number: 1, value: wire::wire_int(t.dims[i]) },
    );
    let b = all.skip(t.dims.len() as int);
    assert(all =~= a + b);
    let none = Seq::<Field>::empty();
    assert(b =~= none.push(b[0]).push(b[1]).push(b[2]));
    let raw = onnx::raw_data(t.data);
    assert(chunks(all, 8) =~= seq![vstd::utf8::encode_utf8(t.name)]) by {
        lemma_add(a, b, 8);
        lemma_dims(t.dims, 8);
        lemma_none(8);
        lemma_push(none, b[0], 8);
        lemma_push(none.push(b[0]), b[1], 8);
        lemma_push(none.push(b[0]).push(b[1]), b[2], 8);
    }
    assert(chunks(all, 9) =~= seq![raw]) by {
        lemma_add(a, b, 9);
        lemma_dims(t.dims, 9);
        lemma_none(9);
        lemma_push(none, b[0], 9);
        lemma_push(none.push(b[0]), b[1], 9);
        lemma_push(none.push(b[0]).push(b[1]), b[2], 9);
    }
    assert(integers(all, 1) =~= t.dims) by {
        lemma_add(a, b, 1);
        lemma_dims(t.dims, 1);
        lemma_none(1);
        lemma_push(none, b[0], 1);
        lemma_push(none.push(b[0]), b[1], 1);
        lemma_push(none.push(b[0]).push(b[1]), b[2], 1);
    }
    assert(texts(chunks(all, 8))[0] == t.name);
    lemma_raw(t.data);
    assert(read_numbers(raw) =~= t.data);
}

proof fn lemma_value_name(name: Seq<char>, size: int)
    ensures
        read_value_name(wire::encode(onnx::value_info_fields(name, size))) == name,
{
    broadcast use vstd::utf8::encode_utf8_decode_utf8;

    let fields = onnx::value_info_fields(name, size);
    lemma_fields_of(fields);
    lemma_none(1);
    let none = Seq::<Field>::empty();
    assert(fields =~= none.push(fields[0]).push(fields[1]));
    lemma_push(none, fields[0], 1);
    lemma_push(none.push(fields[0]), fields[1], 1);
    assert(texts(chunks(fields, 1))[0] == name);
}

/// Whether the sizes of a layer are sizes.
pub open spec fn sized(layers: Seq<Layer>) -> bool {
    forall|i: int|
        0 <= i < layers.len() ==> (#[trigger] layers[i]).w_rows >= 0 && layers[i].w_cols >= 0
            && layers[i].out_dim >= 0
}

proof fn lemma_graph_parts(features: int, nodes: Seq<Node>, tensors: Seq<Tensor>, classes: int)
    ensures
        ({
            let graph = onnx::graph_fields(features, nodes, tensors, classes);
            &&& chunks(graph, 1) == onnx::nodes_encoded(nodes)
            &&& chunks(graph, 5) == onnx::tensors_encoded(tensors)
            &&& chunks(graph, 11) == seq![
                wire::encode(onnx::value_info_fields("input"@, features)),
            ]
            &&& chunks(graph, 12) == seq![
                wire::encode(onnx::value_info_fields("output"@, classes)),
            ]
        }),
{
    let graph = onnx::graph_fields(features, nodes, tensors, classes);
    let none = Seq::<Field>::empty();
    let (en, et) = (onnx::nodes_encoded(nodes), onnx::tensors_encoded(tensors));
    let a = wire::repeated(1, en);
    let b = seq![wire::text_field(2, "nexis_mlp"@)];
    let c = wire::repeated(5, et);
    let input = wire::encode(onnx::value_info_fields("input"@, features));
    let output = wire::encode(onnx::value_info_fields("output"@, classes));
    let d = seq![
        Field::Bytes { number: 11, data: input },
        Field::Bytes { number: 12, data: output },
    ];
    assert(graph =~= a + b + c + d);
    assert(b =~= none.push(b[0]));
    assert(d =~= none.push(d[0]).push(d[1]));
    assert forall|k: nat| k == 1 || k == 5 || k == 11 || k == 12 implies #[trigger] chunks(graph, k)
        == if k == 1 {
        en
    } else if k == 5 {
        et
    } else if k == 11 {
        seq![input]
    } else {
        seq![output]
    } by {
        lemma_add(a, b, k);
        lemma_add(a + b, c, k);
        lemma_add(a + b + c, d, k);
        lemma_repeated(1, en, k);
        lemma_repeated(5, et, k);
        lemma_none(k);
        lemma_push(none, b[0], k);
        lemma_push(none, d[0], k);
        lemma_push(none.push(d[0]), d[1], k);
        assert(chunks(graph, k) =~= if k == 1 {
            en
        } else if k == 5 {
            et
        } else if k == 11 {
            seq![input]
        } else {
            seq![output]
        });
    }
    assert(chunks(graph, 1) == en);
    assert(chunks(graph, 5) == et);
    assert(chunks(graph, 11) == seq![input]);
    assert(chunks(graph, 12) == seq![output]);
}

proof fn lemma_graph(
    features: int,
    mean: Seq<u32>,
    std: Seq<u32>,
    layers: Seq<Layer>,
    classes: int,
)
    requires
        features >= 0,
        sized(layers),
    ensures
        ({
            let g = read_model(
                wire::encode(onnx::mlp_fields(features, mean, std, layers, classes)),
            );
            &&& g.nodes == onnx::graph_nodes(layers)
            &&& g.tensors == onnx::graph_tensors(features, mean, std, layers)
            &&& g.inputs == seq!["input"@]
            &&& g.outputs == seq!["output"@]
        }),
{
    let nodes = onnx::graph_nodes(layers);
    let tensors = onnx::graph_tensors(features, mean, std, layers);
    let graph = onnx::graph_fields(features, nodes, tensors, classes);
    let model = onnx::model_fields(graph);
    lemma_fields_of(model);
    lemma_fields_of(graph);
    let none = Seq::<Field>::empty();
    assert(model =~= none.push(model[0]).push(model[1]).push(model[2]).push(model[3]));
    lemma_none(7);
    lemma_push(none, model[0], 7);
    lemma_push(none.push(model[0]), model[1], 7);
    lemma_push(none.push(model[0]).push(model[1]), model[2], 7);
    lemma_push(none.push(model[0]).push(model[1]).push(model[2]), model[3], 7);
    assert(chunks(model, 7) =~= seq![wire::encode(graph)]);
    let g = read_model(wire::encode(model));
    assert(g == read_graph(wire::encode(graph)));
    let (en, et) = (onnx::nodes_encoded(nodes), onnx::tensors_encoded(tensors));
    let input = wire::encode(onnx::value_info_fields("input"@, features));
    let output = wire::encode(onnx::value_info_fields("output"@, classes));
    lemma_graph_parts(features, nodes, tensors, classes);
    let n = layers.len() as int;
    onnx::lemma_nodes_upto(layers, n);
    onnx::lemma_tensors_upto(features, mean, std, layers, n);
    assert forall|i: int| 0 <= i < nodes.len() implies #[trigger] read_node(en[i]) == nodes[i] by {
        if i >= 2 {
            let k = (i - 2) / 2;
            assert(i == 2 + 2 * k || i == 3 + 2 * k);
            assert(nodes[2 + 2 * k] == onnx::gemm_node(layers[k], k, n));
            if i == 3 + 2 * k {
                assert(nodes[3 + 2 * k] == onnx::relu_node(k));
            }
        }
        lemma_node(nodes[i]);
    }
    assert forall|i: int| 0 <= i < tensors.len() implies #[trigger] read_tensor(et[i])
        == tensors[i] by {
        if i >= 2 {
            let k = (i - 2) / 2;
            assert(i == 2 + 2 * k || i == 3 + 2 * k);
            assert(tensors[2 + 2 * k] == onnx::weight_tensor(layers[k], k));
            assert(tensors[3 + 2 * k] == onnx::bias_tensor(layers[k], k));
        }
        lemma_tensor(tensors[i]);
    }
    lemma_value_name("input"@, features);
    lemma_value_name("output"@, classes);
    assert(g.nodes =~= nodes);
    assert(g.tensors =~= tensors);
    assert(g.inputs =~= seq!["input"@]);
    assert(g.outputs =~= seq!["output"@]);
}

// ---------------------------------------------------------------------------
// What the model computes.
// ---------------------------------------------------------------------------

proof fn lemma_stored(tensors: Seq<Tensor>, k: int, t: int)
    requires
        0 <= t < k <= tensors.len(),
        forall|i: int, j: int|
            0 <= i < j < tensors.len() ==> (#[trigger] tensors[i]).name != (
            #[trigger] tensors[j]).name,
    ensures
        stored(tensors, k)[tensors[t].name] == (Matrix {
            dims: tensors[t].dims,
            data: tensors[t].data,
        }),
    decreases k,
{
    if t < k - 1 {
        lemma_stored(tensors, k - 1, t);
    }
}

/// A graph whose values all have names of their own.
spec fn distinct(g: Graph) -> bool {
    &&& g.inputs.len() >= 1
    &&& forall|i: int, j: int|
        0 <= i < j < g.tensors.len() ==> (#[trigger] g.tensors[i]).name != (
        #[trigger] g.tensors[j]).name
    &&& forall|t: int| 0 <= t < g.tensors.len() ==> (#[trigger] g.tensors[t]).name != g.inputs[0]
    &&& forall|t: int, m: int|
        0 <= t < g.tensors.len() && 0 <= m < g.nodes.len() ==> (#[trigger] g.tensors[t]).name != (
        #[trigger] g.nodes[m]).outputs[0]
}

proof fn lemma_tensor_known(g: Graph, x: Seq<u32>, k: int, t: int, num: Arithmetic)
    requires
        distinct(g),
        0 <= k <= g.nodes.len(),
        0 <= t < g.tensors.len(),
    ensures
        known(g, x, k, num)[g.tensors[t].name] == (Matrix {
            dims: g.tensors[t].dims,
            data: g.tensors[t].data,
        }),
    decreases k,
{
    if k <= 0 {
        lemma_stored(g.tensors, g.tensors.len() as int, t);
    } else {
        lemma_tensor_known(g, x, k - 1, t, num);
        assert(g.tensors[t].name != g.nodes[k - 1].outputs[0]);
    }
}

proof fn lemma_distinct(features: int, mean: Seq<u32>, std: Seq<u32>, layers: Seq<Layer>, g: Graph)
    requires
        layers.len() >= 1,
        g.nodes == onnx::graph_nodes(layers),
        g.tensors == onnx::graph_tensors(features, mean, std, layers),
        g.inputs == seq!["input"@],
    ensures
        distinct(g),
{
    let names = onnx::value_names(g.nodes, g.tensors);
    onnx::law_graph_names_distinct(features, mean, std, layers);
    let n = g.tensors.len() as int;
    assert(names[0] == "input"@);
    assert forall|t: int| 0 <= t < n implies (#[trigger] g.tensors[t]).name == names[1 + t] by {}
    assert forall|m: int| 0 <= m < g.nodes.len() implies (#[trigger] g.nodes[m]).outputs[0]
        == names[1 + n + m] by {}
    assert forall|i: int, j: int| 0 <= i < j < n implies (#[trigger] g.tensors[i]).name != (
    #[trigger] g.tensors[j]).name by {
        assert(names[1 + i] != names[1 + j]);
    }
    assert forall|t: int| 0 <= t < n implies (#[trigger] g.tensors[t]).name != g.inputs[0] by {
        assert(names[0] != names[1 + t]);
    }
    assert forall|t: int, m: int| 0 <= t < n && 0 <= m < g.nodes.len() implies (
    #[trigger] g.tensors[t]).name != (#[trigger] g.nodes[m]).outputs[0] by {
        assert(names[1 + t] != names[1 + n + m]);
    }
}

proof fn lemma_ops()
    ensures
        "Sub"@ != "Div"@,
        "Sub"@ != "Relu"@,
        "Sub"@ != "Gemm"@,
        "Div"@ != "Relu"@,
        "Div"@ != "Gemm"@,
        "Relu"@ != "Gemm"@,
{
    reveal_strlit("Sub");
    reveal_strlit("Div");
    reveal_strlit("Relu");
    reveal_strlit("Gemm");
    assert("Sub"@[0] == 'S' && "Div"@[0] == 'D' && "Relu"@[0] == 'R' && "Gemm"@[0] == 'G');
}

proof fn lemma_passed_len(layers: Seq<Layer>, v: Seq<u32>, k: int, num: Arithmetic)
    requires
        0 < k <= layers.len(),
        layers[k - 1].out_dim >= 0,
    ensures
        passed(layers, v, k, num).len() == layers[k - 1].out_dim,
{
}

proof fn lemma_gemm(
    layer: Layer,
    i: int,
    count: int,
    v: Seq<u32>,
    b: Matrix,
    c: Matrix,
    num: Arithmetic,
)
    requires
        v.len() == layer.in_dim,
        layer.out_dim >= 0,
        (layer.w_rows == layer.out_dim && layer.w_cols == layer.in_dim) || (layer.w_rows
            == layer.in_dim && layer.w_cols == layer.out_dim),
        b == (Matrix { dims: seq![layer.w_rows, layer.w_cols], data: layer.weight }),
        c.data == layer.bias,
    ensures
        gemm(
            row(v),
            b,
            c,
            is_set(onnx::gemm_node(layer, i, count), "transB"@),
            num,
        ).data == dense(layer, v, num),
{
    let node = onnx::gemm_node(layer, i, count);
    let stored_by_output = layer.w_rows == layer.out_dim && layer.w_cols == layer.in_dim;
    assert(is_set(node, "transB"@) == stored_by_output) by {
        if stored_by_output {
            assert(node.attributes[0] == ("transB"@, 1int));
        } else {
            assert(node.attributes.len() == 1);
            assert(node.attributes[0].1 == 0);
        }
    }
    let r = gemm(row(v), b, c, stored_by_output, num).data;
    let d = dense(layer, v, num);
    assert(r.len() == d.len());
    assert forall|j: int| 0 <= j < d.len() implies r[j] == d[j] by {
        let read = if stored_by_output {
            Seq::new(layer.w_cols as nat, |k: int| b.data[j * layer.w_cols + k])
        } else {
            Seq::new(layer.w_rows as nat, |k: int| b.data[k * layer.w_cols + j])
        };
        assert(read =~= Seq::new(layer.in_dim as nat, |k: int| weight(layer, k, j)));
    }
    assert(r =~= d);
}

/// The graph of a network.
spec fn is_graph(
    g: Graph,
    features: int,
    mean: Seq<u32>,
    std: Seq<u32>,
    layers: Seq<Layer>,
) -> bool {
    &&& layers.len() >= 1
    &&& g.nodes == onnx::graph_nodes(layers)
    &&& g.tensors == onnx::graph_tensors(features, mean, std, layers)
    &&& g.inputs == seq!["input"@]
}

proof fn lemma_standardized(
    features: int,
    mean: Seq<u32>,
    std: Seq<u32>,
    layers: Seq<Layer>,
    g: Graph,
    x: Seq<u32>,
    num: Arithmetic,
)
    requires
        is_graph(g, features, mean, std, layers),
    ensures
        known(g, x, 2, num)["x_std"@] == row(standardized(x, mean, std, num)),
{
    let n = layers.len() as int;
    lemma_ops();
    lemma_distinct(features, mean, std, layers, g);
    onnx::lemma_nodes_upto(layers, n);
    onnx::lemma_tensors_upto(features, mean, std, layers, n);
    let env0 = known(g, x, 0, num);
    assert(env0["input"@] == row(x));
    lemma_tensor_known(g, x, 0, 0, num);
    assert(g.nodes[0] == onnx::sub_node());
    let centered = Seq::new(x.len(), |i: int| (num.minus)(x[i], mean[i]));
    let env1 = known(g, x, 1, num);
    assert(env1["x_centered"@].data =~= centered);
    lemma_tensor_known(g, x, 1, 1, num);
    assert(g.nodes[1] == onnx::div_node());
    assert(known(g, x, 2, num)["x_std"@].data =~= standardized(x, mean, std, num));
}

proof fn lemma_rectified(
    features: int,
    mean: Seq<u32>,
    std: Seq<u32>,
    layers: Seq<Layer>,
    g: Graph,
    x: Seq<u32>,
    k: int,
    num: Arithmetic,
)
    requires
        is_graph(g, features, mean, std, layers),
        1 <= k < layers.len(),
    ensures
        known(g, x, 2 + 2 * k, num)[onnx::numbered("h"@, k - 1)] == row(
            rectified(known(g, x, 1 + 2 * k, num)[onnx::numbered("g"@, k - 1)].data, num),
        ),
{
    lemma_ops();
    onnx::lemma_nodes_upto(layers, layers.len() as int);
    assert(g.nodes[3 + 2 * (k - 1)] == onnx::relu_node(k - 1));
    let env = known(g, x, 1 + 2 * k, num);
    let v = env[onnx::numbered("g"@, k - 1)].data;
    assert(g.nodes[1 + 2 * k] == onnx::relu_node(k - 1));
    assert(result(g.nodes[1 + 2 * k], env, num).data =~= rectified(v, num));
}

proof fn lemma_layer(
    features: int,
    mean: Seq<u32>,
    std: Seq<u32>,
    layers: Seq<Layer>,
    g: Graph,
    x: Seq<u32>,
    k: int,
    read: Seq<u32>,
    num: Arithmetic,
)
    requires
        is_graph(g, features, mean, std, layers),
        0 <= k < layers.len(),
        chained(layers, features),
        read.len() == layers[k].in_dim,
        known(g, x, 2 + 2 * k, num)[onnx::layer_input(k)] == row(read),
    ensures
        known(g, x, 3 + 2 * k, num)[onnx::layer_output(k, layers.len() as int)].data == dense(
            layers[k],
            read,
            num,
        ),
{
    let n = layers.len() as int;
    let layer = layers[k];
    lemma_ops();
    lemma_distinct(features, mean, std, layers, g);
    onnx::lemma_nodes_upto(layers, n);
    onnx::lemma_tensors_upto(features, mean, std, layers, n);
    let env = known(g, x, 2 + 2 * k, num);
    assert(g.nodes[2 + 2 * k] == onnx::gemm_node(layer, k, n));
    assert(g.tensors[2 + 2 * k] == onnx::weight_tensor(layer, k));
    assert(g.tensors[3 + 2 * k] == onnx::bias_tensor(layer, k));
    lemma_tensor_known(g, x, 2 + 2 * k, 2 + 2 * k, num);
    lemma_tensor_known(g, x, 2 + 2 * k, 3 + 2 * k, num);
    let (w, b) = (env[onnx::numbered("W"@, k)], env[onnx::numbered("B"@, k)]);
    lemma_gemm(layer, k, n, read, w, b, num);
    assert(result(g.nodes[2 + 2 * k], env, num).data == dense(layer, read, num));
}

/// The values of the nodes, one after the other.
proof fn lemma_values(
    features: int,
    mean: Seq<u32>,
    std: Seq<u32>,
    layers: Seq<Layer>,
    g: Graph,
    x: Seq<u32>,
    k: int,
    num: Arithmetic,
)
    requires
        is_graph(g, features, mean, std, layers),
        0 <= k < layers.len(),
        x.len() == features,
        chained(layers, features),
    ensures
        known(g, x, 3 + 2 * k, num)[onnx::layer_output(k, layers.len() as int)].data == passed(
            layers,
            standardized(x, mean, std, num),
            k + 1,
            num,
        ),
    decreases k,
{
    let z = standardized(x, mean, std, num);
    assert(layers[k].in_dim >= 0);
    if k == 0 {
        lemma_standardized(features, mean, std, layers, g, x, num);
        lemma_layer(features, mean, std, layers, g, x, 0, z, num);
        assert(passed(layers, z, 0, num) == z);
    } else {
        lemma_values(features, mean, std, layers, g, x, k - 1, num);
        lemma_rectified(features, mean, std, layers, g, x, k, num);
        assert(layers[k - 1].out_dim == layers[k].in_dim);
        assert(layers[k - 1].out_dim >= 0);
        let read = rectified(passed(layers, z, k, num), num);
        lemma_passed_len(layers, z, k, num);
        lemma_layer(features, mean, std, layers, g, x, k, read, num);
    }
}

/// An exported file, read and run as ONNX prescribes, computes the network: it
/// takes a row of raw features, subtracts the mean of each and divides by its
/// deviation, and passes the row through the layers, with a rectifier between two
/// of them and none at the end. This holds for every way to compute with numbers.
pub proof fn law_export_computes_the_network(
    features: int,
    mean: Seq<u32>,
    std: Seq<u32>,
    layers: Seq<Layer>,
    classes: int,
    x: Seq<u32>,
    num: Arithmetic,
)
    requires
        layers.len() >= 1,
        x.len() == features,
        chained(layers, features),
    ensures
        run(
            read_model(wire::encode(onnx::mlp_fields(features, mean, std, layers, classes))),
            x,
            num,
        ) == passed(layers, standardized(x, mean, std, num), layers.len() as int, num),
{
    let n = layers.len() as int;
    let g = read_model(wire::encode(onnx::mlp_fields(features, mean, std, layers, classes)));
    assert forall|i: int| 0 <= i < n implies (#[trigger] layers[i]).w_rows >= 0
        && layers[i].w_cols >= 0 && layers[i].out_dim >= 0 by {}
    lemma_graph(features, mean, std, layers, classes);
    onnx::lemma_nodes_upto(layers, n);
    lemma_values(features, mean, std, layers, g, x, n - 1, num);
}

/// The declaration of an input or output: whether its numbers are of single
/// precision, the name of its first dimension, and the size of its second.
pub open spec fn read_declaration(bytes: Seq<u8>) -> (bool, Seq<char>, int) {
    let value_type = fields_of(chunks(fields_of(bytes), 2)[0]);
    let tensor_type = fields_of(chunks(value_type, 1)[0]);
    let shape = chunks(fields_of(chunks(tensor_type, 2)[0]), 1);
    (
        integers(tensor_type, 1) == seq![1int],
        texts(chunks(fields_of(shape[0]), 2))[0],
        integers(fields_of(shape[1]), 1)[0],
    )
}

proof fn lemma_one(field: Field, wanted: nat)
    ensures
        chunks(seq![field], wanted) == match field {
            Field::Bytes { number, data } => if number == wanted {
                seq![data]
            } else {
                Seq::empty()
            },
            _ => Seq::empty(),
        },
        integers(seq![field], wanted) == match field {
            Field::Varint { number, value } => if number == wanted {
                seq![value as int]
            } else {
                Seq::empty()
            },
            _ => Seq::empty(),
        },
{
    reveal(chunks);
    reveal(integers);
    lemma_push(Seq::empty(), field, wanted);
    assert(Seq::empty().push(field) =~= seq![field]);
    assert(chunks(Seq::empty(), wanted) =~= Seq::<Seq<u8>>::empty());
}

proof fn lemma_pair(a: Field, b: Field, wanted: nat)
    ensures
        chunks(seq![a, b], wanted) == chunks(seq![a], wanted) + chunks(seq![b], wanted),
        integers(seq![a, b], wanted) == integers(seq![a], wanted) + integers(seq![b], wanted),
{
    lemma_add(seq![a], seq![b], wanted);
    assert(seq![a] + seq![b] =~= seq![a, b]);
}

proof fn lemma_declaration(name: Seq<char>, size: int)
    requires
        size >= 0,
    ensures
        read_declaration(wire::encode(onnx::value_info_fields(name, size))) == (
            true,
            "batch"@,
            size,
        ),
{
    broadcast use vstd::utf8::encode_utf8_decode_utf8;

    let info = onnx::value_info_fields(name, size);
    lemma_fields_of(info);
    lemma_pair(info[0], info[1], 2);
    lemma_one(info[0], 2);
    lemma_one(info[1], 2);
    assert(info =~= seq![info[0], info[1]]);
    let shape = onnx::shape_fields(size);
    let tensor_type = seq![
        Field::Varint { number: 1, value: 1 },
        Field::Bytes { number: 2, data: wire::encode(shape) },
    ];
    let value_type = seq![Field::Bytes { number: 1, data: wire::encode(tensor_type) }];
    assert(info[1] == (Field::Bytes { number: 2, data: wire::encode(value_type) }));
    assert(chunks(info, 2)[0] == wire::encode(value_type));
    lemma_fields_of(value_type);
    lemma_one(value_type[0], 1);
    assert(chunks(value_type, 1)[0] == wire::encode(tensor_type));
    lemma_fields_of(tensor_type);
    lemma_pair(tensor_type[0], tensor_type[1], 1);
    lemma_pair(tensor_type[0], tensor_type[1], 2);
    lemma_one(tensor_type[0], 1);
    lemma_one(tensor_type[1], 1);
    lemma_one(tensor_type[0], 2);
    lemma_one(tensor_type[1], 2);
    assert(integers(tensor_type, 1) =~= seq![1int]);
    assert(chunks(tensor_type, 2)[0] == wire::encode(shape));
    lemma_fields_of(shape);
    lemma_pair(shape[0], shape[1], 1);
    lemma_one(shape[0], 1);
    lemma_one(shape[1], 1);
    assert(shape =~= seq![shape[0], shape[1]]);
    let batch = seq![wire::text_field(2, "batch"@)];
    let sized = seq![Field::Varint { number: 1, value: wire::wire_int(size) }];
    assert(chunks(shape, 1) =~= seq![wire::encode(batch), wire::encode(sized)]);
    lemma_fields_of(batch);
    lemma_fields_of(sized);
    lemma_one(batch[0], 2);
    lemma_one(sized[0], 1);
    assert(texts(chunks(batch, 2))[0] == "batch"@);
    assert(integers(sized, 1)[0] == size);
}

/// An exported file declares what it is: the versions of the format and of the
/// operators, an input of as many features and an output of as many classes as
/// the network has, for any number of rows, and tensors of single precision.
pub proof fn law_export_declares_its_shape(
    features: int,
    mean: Seq<u32>,
    std: Seq<u32>,
    layers: Seq<Layer>,
    classes: int,
)
    requires
        features >= 0,
        classes >= 0,
    ensures
        ({
            let model = fields_of(
                wire::encode(onnx::mlp_fields(features, mean, std, layers, classes)),
            );
            let graph = fields_of(chunks(model, 7)[0]);
            let tensors = chunks(graph, 5);
            &&& integers(model, 1) == seq![7int]
            &&& chunks(model, 8).len() == 1
            &&& integers(fields_of(chunks(model, 8)[0]), 2) == seq![13int]
            &&& chunks(graph, 11).len() == 1
            &&& read_declaration(chunks(graph, 11)[0]) == (true, "batch"@, features)
            &&& chunks(graph, 12).len() == 1
            &&& read_declaration(chunks(graph, 12)[0]) == (true, "batch"@, classes)
            &&& tensors.len() == 2 * layers.len() + 2
            &&& forall|i: int|
                0 <= i < tensors.len() ==> integers(fields_of(#[trigger] tensors[i]), 2) == seq![
                    1int,
                ]
        }),
{
    let nodes = onnx::graph_nodes(layers);
    let tensors = onnx::graph_tensors(features, mean, std, layers);
    let graph = onnx::graph_fields(features, nodes, tensors, classes);
    let model = onnx::model_fields(graph);
    lemma_fields_of(model);
    lemma_fields_of(graph);
    assert(model =~= seq![model[0], model[1]] + seq![model[2], model[3]]);
    assert forall|k: nat| k == 1 || k == 7 || k == 8 implies #[trigger] chunks(model, k) == if k
        == 7 {
        seq![wire::encode(graph)]
    } else if k == 8 {
        seq![wire::encode(seq![Field::Varint { number: 2, value: 13 }])]
    } else {
        Seq::empty()
    } && integers(model, k) == if k == 1 {
        seq![7int]
    } else {
        Seq::empty()
    } by {
        lemma_add(seq![model[0], model[1]], seq![model[2], model[3]], k);
        lemma_pair(model[0], model[1], k);
        lemma_pair(model[2], model[3], k);
        lemma_one(model[0], k);
        lemma_one(model[1], k);
        lemma_one(model[2], k);
        lemma_one(model[3], k);
        assert(chunks(model, k) =~= if k == 7 {
            seq![wire::encode(graph)]
        } else if k == 8 {
            seq![wire::encode(seq![Field::Varint { number: 2, value: 13 }])]
        } else {
            Seq::empty()
        });
        assert(integers(model, k) =~= if k == 1 {
            seq![7int]
        } else {
            Seq::empty()
        });
    }
    assert(chunks(model, 1).len() == 0);
    assert(chunks(model, 7)[0] == wire::encode(graph));
    assert(chunks(model, 8).len() == 1);
    let versions = seq![Field::Varint { number: 2, value: 13 }];
    lemma_fields_of(versions);
    lemma_one(versions[0], 2);
    lemma_graph_parts(features, nodes, tensors, classes);
    lemma_declaration("input"@, features);
    lemma_declaration("output"@, classes);
    onnx::lemma_tensors_upto(features, mean, std, layers, layers.len() as int);
    let et = onnx::tensors_encoded(tensors);
    assert forall|i: int| 0 <= i < et.len() implies integers(fields_of(#[trigger] et[i]), 2)
        == seq![1int] by {
        let t = tensors[i];
        let all = onnx::tensor_fields(t);
        lemma_fields_of(all);
        let a = Seq::new(
            t.dims.len(),
            |i: int| Field::Varint { number: 1, value: wire::wire_int(t.dims[i]) },
        );
        let b = all.skip(t.dims.len() as int);
        assert(all =~= a + b);
        lemma_add(a, b, 2);
        lemma_no_type(t.dims);
        assert(b =~= seq![b[0]] + seq![b[1], b[2]]);
        lemma_add(seq![b[0]], seq![b[1], b[2]], 2);
        lemma_pair(b[1], b[2], 2);
        lemma_one(b[0], 2);
        lemma_one(b[1], 2);
        lemma_one(b[2], 2);
        assert(integers(all, 2) =~= seq![1int]);
    }
}

proof fn lemma_no_type(dims: Seq<int>)
    ensures
        integers(
            Seq::new(
                dims.len(),
                |i: int| Field::Varint { number: 1, value: wire::wire_int(dims[i]) },
            ),
            2,
        ) == Seq::<int>::empty(),
    decreases dims.len(),
{
    reveal(chunks);
    reveal(integers);
    let fields = Seq::new(
        dims.len(),
        |i: int| Field::Varint { number: 1, value: wire::wire_int(dims[i]) },
    );
    if dims.len() > 0 {
        let front = dims.drop_last();
        lemma_no_type(front);
        assert(fields.drop_last() =~= Seq::new(
            front.len(),
            |i: int| Field::Varint { number: 1, value: wire::wire_int(front[i]) },
        ));
    }
}

/// A node reads back as it was written: its operator, its name, and every input,
/// output and attribute in order.
pub proof fn law_node_reads_back(n: Node)
    requires
        forall|i: int| 0 <= i < n.attributes.len() ==> (#[trigger] n.attributes[i]).1 >= 0,
    ensures
        read_node(wire::encode(onnx::node_fields(n))) == n,
{
    lemma_node(n);
}

/// A tensor reads back as it was written: its name, its sizes and its numbers, bit
/// for bit.
pub proof fn law_tensor_reads_back(t: Tensor)
    requires
        forall|i: int| 0 <= i < t.dims.len() ==> #[trigger] t.dims[i] >= 0,
    ensures
        read_tensor(wire::encode(onnx::tensor_fields(t))) == t,
{
    lemma_tensor(t);
}

/// An attribute and the declaration of an input or output read back as they were
/// written.
pub proof fn law_declarations_read_back(name: Seq<char>, value: int)
    requires
        value >= 0,
    ensures
        read_attribute(wire::encode(onnx::attribute_fields(name, value))) == (name, value),
        read_value_name(wire::encode(onnx::value_info_fields(name, value))) == name,
        read_declaration(wire::encode(onnx::value_info_fields(name, value))) == (
            true,
            "batch"@,
            value,
        ),
{
    lemma_attribute(name, value);
    lemma_value_name(name, value);
    lemma_declaration(name, value);
}

} // verus!
