//! The render graph: nodes, the links between their ports, and their
//! parameters. Parameter values that are doubles are held by their bits.
use vstd::prelude::*;
use crate::media_browser::{
    finite_bits, lemma_insert_sorted_at, lemma_insert_sorted_keeps, lemma_insert_sorted_place, lemma_stable_sorted,
    insert_sorted, sorted_by, stable_sorted, total_key, total_key_exec, total_preorder,
};
use crate::text::{chars_equal, chars_to_string, decimal, lemma_decimal_digits, push_decimal, push_str, to_chars};

verus! {

/// The operation of a node.
#[derive(Debug, Clone, Copy, PartialEq, Eq, Structural)]
pub enum NodeType {
    Input,
    Transform,
    ColorCorrection,
    LUT,
    Blur,
    Sharpen,
    Keying,
    Mask,
    Blend,
    Crop,
    Speed,
    Stabilizer,
    NoiseReduction,
    Output,
}

/// An input port and the node it reads from.
#[derive(Debug, Clone)]
pub struct NodeInput {
    pub name: String,
    pub connected_to: Option<String>,
}

/// An output port and the node it feeds.
#[derive(Debug, Clone)]
pub struct NodeOutput {
    pub name: String,
    pub connected_to: Option<String>,
}

/// The value of a parameter; doubles and singles by their bits.
#[derive(Debug, Clone)]
pub enum ParameterValue {
    Float(u64),
    Int(i32),
    Bool(bool),
    Color(u32, u32, u32, u32),
    Point(u64, u64),
    String(String),
}

/// How a keyframe eases into the next.
#[derive(Debug, Clone, Copy, PartialEq, Eq, Structural)]
pub enum Interpolation {
    Linear,
    EaseIn,
    EaseOut,
    EaseInOut,
    Hold,
    Bezier(u64, u64, u64, u64),
}

/// A value a parameter takes from a time on (the bits of a double, seconds).
#[derive(Debug, Clone)]
pub struct Keyframe {
    pub time: u64,
    pub value: ParameterValue,
    pub interpolation: Interpolation,
}

/// A parameter of a node, with its range and default (bits of doubles).
#[derive(Debug, Clone)]
pub struct Parameter {
    pub name: String,
    pub value: ParameterValue,
    pub min: u64,
    pub max: u64,
    pub default: u64,
    pub keyframes: Vec<Keyframe>,
}

/// A node of the graph.
#[derive(Debug, Clone)]
pub struct Node {
    pub id: String,
    pub node_type: NodeType,
    pub label: String,
    pub inputs: Vec<NodeInput>,
    pub outputs: Vec<NodeOutput>,
    pub parameters: Vec<Parameter>,
    pub enabled: bool,
}

/// The graph: its nodes in the order they were added, and the number the
/// next node's identifier takes.
#[derive(Debug)]
pub struct RenderGraph {
    nodes: Vec<Node>,
    next_id: usize,
}

// ---------------------------------------------------------------------------
// Values
// ---------------------------------------------------------------------------

pub enum ValueView {
    Float(u64),
    Int(i32),
    Bool(bool),
    Color(u32, u32, u32, u32),
    Point(u64, u64),
    Text(Seq<char>),
}

pub open spec fn value_view(v: ParameterValue) -> ValueView {
    match v {
        ParameterValue::Float(x) => ValueView::Float(x),
        ParameterValue::Int(x) => ValueView::Int(x),
        ParameterValue::Bool(x) => ValueView::Bool(x),
        ParameterValue::Color(r, g, b, a) => ValueView::Color(r, g, b, a),
        ParameterValue::Point(x, y) => ValueView::Point(x, y),
        ParameterValue::String(s) => ValueView::Text(s@),
    }
}

impl ParameterValue {
    /// A copy of the value.
    pub fn duplicate(&self) -> (r: ParameterValue)
        ensures
            value_view(r) == value_view(*self),
    {
        match self {
            ParameterValue::Float(x) => ParameterValue::Float(*x),
            ParameterValue::Int(x) => ParameterValue::Int(*x),
            ParameterValue::Bool(x) => ParameterValue::Bool(*x),
            ParameterValue::Color(r, g, b, a) => ParameterValue::Color(*r, *g, *b, *a),
            ParameterValue::Point(x, y) => ParameterValue::Point(*x, *y),
            ParameterValue::String(s) => ParameterValue::String(s.clone()),
        }
    }
}

pub struct KeyframeView {
    pub time: u64,
    pub value: ValueView,
    pub interpolation: Interpolation,
}

pub struct ParameterView {
    pub name: Seq<char>,
    pub value: ValueView,
    pub min: u64,
    pub max: u64,
    pub default: u64,
    pub keyframes: Seq<KeyframeView>,
}

pub open spec fn keyframe_view(k: Keyframe) -> KeyframeView {
    KeyframeView { time: k.time, value: value_view(k.value), interpolation: k.interpolation }
}

pub open spec fn keyframes_view(ks: Seq<Keyframe>) -> Seq<KeyframeView> {
    ks.map_values(|k: Keyframe| keyframe_view(k))
}

pub open spec fn parameter_view(p: Parameter) -> ParameterView {
    ParameterView {
        name: p.name@,
        value: value_view(p.value),
        min: p.min,
        max: p.max,
        default: p.default,
        keyframes: keyframes_view(p.keyframes@),
    }
}

pub open spec fn parameters_view(ps: Seq<Parameter>) -> Seq<ParameterView> {
    ps.map_values(|p: Parameter| parameter_view(p))
}

// ---------------------------------------------------------------------------
// Nodes
// ---------------------------------------------------------------------------

/// A port: its name and the node it is linked to.
pub type PortView = (Seq<char>, Option<Seq<char>>);

pub struct NodeView {
    pub id: Seq<char>,
    pub node_type: NodeType,
    pub label: Seq<char>,
    pub inputs: Seq<PortView>,
    pub outputs: Seq<PortView>,
    pub parameters: Seq<ParameterView>,
    pub enabled: bool,
}

pub open spec fn link_view(o: Option<String>) -> Option<Seq<char>> {
    match o {
        Some(s) => Some(s@),
        None => None,
    }
}

pub open spec fn inputs_view(v: Seq<NodeInput>) -> Seq<PortView> {
    v.map_values(|p: NodeInput| (p.name@, link_view(p.connected_to)))
}

pub open spec fn outputs_view(v: Seq<NodeOutput>) -> Seq<PortView> {
    v.map_values(|p: NodeOutput| (p.name@, link_view(p.connected_to)))
}

pub open spec fn node_view(n: Node) -> NodeView {
    NodeView {
        id: n.id@,
        node_type: n.node_type,
        label: n.label@,
        inputs: inputs_view(n.inputs@),
        outputs: outputs_view(n.outputs@),
        parameters: parameters_view(n.parameters@),
        enabled: n.enabled,
    }
}

pub open spec fn nodes_view(v: Seq<Node>) -> Seq<NodeView> {
    v.map_values(|n: Node| node_view(n))
}

/// The identifier of the `k`-th node added: `node_k`.
pub open spec fn node_id(k: nat) -> Seq<char> {
    "node_"@ + decimal(k)
}

/// A parameter at its default, without keyframes.
pub open spec fn fresh_parameter(name: Seq<char>, default: u64, min: u64, max: u64) -> ParameterView {
    ParameterView {
        name,
        value: ValueView::Float(default),
        min,
        max,
        default,
        keyframes: Seq::empty(),
    }
}

/// The parameters a new node has: position, scale and rotation for a
/// transform; exposure, contrast, saturation and temperature for a colour
/// correction; the radius for a blur; none otherwise. (Bits of doubles:
/// 0, 1, ±1000, 0.01, 10, ±360, ±5, ±1, 3, ±100.)
pub open spec fn default_parameters_of(t: NodeType) -> Seq<ParameterView> {
    match t {
        NodeType::Transform => seq![
            fresh_parameter("position_x"@, 0, 0xc08f_4000_0000_0000, 0x408f_4000_0000_0000),
            fresh_parameter("position_y"@, 0, 0xc08f_4000_0000_0000, 0x408f_4000_0000_0000),
            fresh_parameter("scale"@, 0x3ff0_0000_0000_0000, 0x3f84_7ae1_47ae_147b, 0x4024_0000_0000_0000),
            fresh_parameter("rotation"@, 0, 0xc076_8000_0000_0000, 0x4076_8000_0000_0000),
        ],
        NodeType::ColorCorrection => seq![
            fresh_parameter("exposure"@, 0, 0xc014_0000_0000_0000, 0x4014_0000_0000_0000),
            fresh_parameter("contrast"@, 0, 0xbff0_0000_0000_0000, 0x3ff0_0000_0000_0000),
            fresh_parameter("saturation"@, 0x3ff0_0000_0000_0000, 0, 0x4008_0000_0000_0000),
            fresh_parameter("temperature"@, 0, 0xc059_0000_0000_0000, 0x4059_0000_0000_0000),
        ],
        NodeType::Blur => seq![fresh_parameter("radius"@, 0, 0, 0x4059_0000_0000_0000)],
        _ => Seq::empty(),
    }
}

/// A new node: one `input` port unless it is an input, one `output` port
/// unless it is an output, its default parameters, enabled.
pub open spec fn new_node(id: Seq<char>, t: NodeType, label: Seq<char>) -> NodeView {
    NodeView {
        id,
        node_type: t,
        label,
        inputs: if t == NodeType::Input {
            Seq::empty()
        } else {
            seq![("input"@, None)]
        },
        outputs: if t == NodeType::Output {
            Seq::empty()
        } else {
            seq![("output"@, None)]
        },
        parameters: default_parameters_of(t),
        enabled: true,
    }
}

/// The position of the first node called `id`.
pub open spec fn position_of(nodes: Seq<NodeView>, id: Seq<char>) -> Option<int> {
    if exists|i: int| 0 <= i < nodes.len() && #[trigger] nodes[i].id == id {
        Some(
            choose|i: int|
                0 <= i < nodes.len() && #[trigger] nodes[i].id == id && forall|j: int|
                    0 <= j < i ==> #[trigger] nodes[j].id != id,
        )
    } else {
        None
    }
}

/// A port of node `owner` once node `id` is unlinked: emptied when it
/// belongs to that node or points to it.
pub open spec fn unlinked_port(p: PortView, owner: Seq<char>, id: Seq<char>) -> PortView {
    if owner == id || p.1 == Some(id) {
        (p.0, None)
    } else {
        p
    }
}

pub open spec fn unlinked_node(n: NodeView, id: Seq<char>) -> NodeView {
    NodeView {
        inputs: n.inputs.map_values(|p: PortView| unlinked_port(p, n.id, id)),
        outputs: n.outputs.map_values(|p: PortView| unlinked_port(p, n.id, id)),
        ..n
    }
}

/// Every link to or from node `id` removed.
pub open spec fn unlinked(nodes: Seq<NodeView>, id: Seq<char>) -> Seq<NodeView> {
    nodes.map_values(|n: NodeView| unlinked_node(n, id))
}

// ---------------------------------------------------------------------------
// What every operation keeps
// ---------------------------------------------------------------------------

/// Node `i` feeds node `j`.
pub open spec fn feeds(nodes: Seq<NodeView>, i: int, j: int) -> bool {
    nodes[i].outputs.len() > 0 && nodes[i].outputs[0].1 == Some(nodes[j].id)
}

/// Node `j` reads from node `i`.
pub open spec fn reads_from(nodes: Seq<NodeView>, j: int, i: int) -> bool {
    nodes[j].inputs.len() > 0 && nodes[j].inputs[0].1 == Some(nodes[i].id)
}

/// The identifier a port points to belongs to a node of the graph.
pub open spec fn names_a_node(nodes: Seq<NodeView>, link: Option<Seq<char>>) -> bool {
    match link {
        Some(t) => exists|k: int| 0 <= k < nodes.len() && #[trigger] nodes[k].id == t,
        None => true,
    }
}

/// `id` is `node_k` for some `k` below `next`.
pub open spec fn numbered_below(id: Seq<char>, next: nat) -> bool {
    exists|k: nat| k < next && id == #[trigger] node_id(k)
}

/// A well-formed graph: identifiers are `node_k` for `k` below the next
/// number and never repeat; a node has at most one input and one output
/// port; every link points to a node of the graph, and links come in pairs
/// (a node feeds another exactly when that one reads from it).
pub open spec fn well_formed(nodes: Seq<NodeView>, next: nat) -> bool {
    &&& forall|i: int| 0 <= i < nodes.len() ==> numbered_below(#[trigger] nodes[i].id, next)
    &&& forall|i: int, j: int| 0 <= i < j < nodes.len() ==> #[trigger] nodes[i].id != #[trigger] nodes[j].id
    &&& forall|i: int| 0 <= i < nodes.len() ==> #[trigger] nodes[i].inputs.len() <= 1 && nodes[i].outputs.len() <= 1
    &&& forall|i: int, p: int|
        0 <= i < nodes.len() && 0 <= p < nodes[i].inputs.len() ==> names_a_node(nodes, #[trigger] nodes[i].inputs[p].1)
    &&& forall|i: int, p: int|
        0 <= i < nodes.len() && 0 <= p < nodes[i].outputs.len() ==> names_a_node(nodes, #[trigger] nodes[i].outputs[p].1)
    &&& forall|i: int, j: int|
        0 <= i < nodes.len() && 0 <= j < nodes.len() ==> (#[trigger] feeds(nodes, i, j) <==> #[trigger] reads_from(nodes, j, i))
}


// ---------------------------------------------------------------------------
// Building nodes
// ---------------------------------------------------------------------------

fn same_text(a: &str, b: &str) -> (r: bool)
    ensures
        r == (a@ == b@),
{
    let x = to_chars(a);
    let y = to_chars(b);
    chars_equal(&x, &y)
}

fn text(s: &str) -> (r: String)
    ensures
        r@ == s@,
{
    s.to_string()
}

fn parameter(name: &str, default: u64, min: u64, max: u64) -> (p: Parameter)
    ensures
        parameter_view(p) == fresh_parameter(name@, default, min, max),
{
    let p = Parameter {
        name: text(name),
        value: ParameterValue::Float(default),
        min,
        max,
        default,
        keyframes: Vec::new(),
    };
    assert(keyframes_view(p.keyframes@) =~= Seq::<KeyframeView>::empty());
    p
}

fn default_parameters(t: NodeType) -> (ps: Vec<Parameter>)
    ensures
        parameters_view(ps@) == default_parameters_of(t),
{
    let mut ps: Vec<Parameter> = Vec::new();
    match t {
        NodeType::Transform => {
            ps.push(parameter("position_x", 0, 0xc08f_4000_0000_0000, 0x408f_4000_0000_0000));
            ps.push(parameter("position_y", 0, 0xc08f_4000_0000_0000, 0x408f_4000_0000_0000));
            ps.push(parameter("scale", 0x3ff0_0000_0000_0000, 0x3f84_7ae1_47ae_147b, 0x4024_0000_0000_0000));
            ps.push(parameter("rotation", 0, 0xc076_8000_0000_0000, 0x4076_8000_0000_0000));
        },
        NodeType::ColorCorrection => {
            ps.push(parameter("exposure", 0, 0xc014_0000_0000_0000, 0x4014_0000_0000_0000));
            ps.push(parameter("contrast", 0, 0xbff0_0000_0000_0000, 0x3ff0_0000_0000_0000));
            ps.push(parameter("saturation", 0x3ff0_0000_0000_0000, 0, 0x4008_0000_0000_0000));
            ps.push(parameter("temperature", 0, 0xc059_0000_0000_0000, 0x4059_0000_0000_0000));
        },
        NodeType::Blur => {
            ps.push(parameter("radius", 0, 0, 0x4059_0000_0000_0000));
        },
        _ => {},
    }
    assert(parameters_view(ps@) =~= default_parameters_of(t));
    ps
}

fn build_node(id: String, t: NodeType, label: &str) -> (n: Node)
    ensures
        node_view(n) == new_node(id@, t, label@),
{
    let mut inputs: Vec<NodeInput> = Vec::new();
    if t != NodeType::Input {
        inputs.push(NodeInput { name: text("input"), connected_to: None });
    }
    let mut outputs: Vec<NodeOutput> = Vec::new();
    if t != NodeType::Output {
        outputs.push(NodeOutput { name: text("output"), connected_to: None });
    }
    let n = Node {
        id,
        node_type: t,
        label: text(label),
        inputs,
        outputs,
        parameters: default_parameters(t),
        enabled: true,
    };
    assert(node_view(n).inputs =~= new_node(n.id@, t, label@).inputs);
    assert(node_view(n).outputs =~= new_node(n.id@, t, label@).outputs);
    n
}

/// Different numbers give different identifiers.
proof fn lemma_node_ids_differ(a: nat, b: nat)
    requires
        node_id(a) == node_id(b),
    ensures
        a == b,
{
    let x = node_id(a);
    let n = "node_"@.len();
    assert(x.subrange(n as int, x.len() as int) =~= decimal(a));
    assert(node_id(b).subrange(n as int, x.len() as int) =~= decimal(b));
    lemma_decimal_digits(a);
    lemma_decimal_digits(b);
}

impl RenderGraph {
    /// The nodes, as values.
    pub closed spec fn view_nodes(&self) -> Seq<NodeView> {
        nodes_view(self.nodes@)
    }

    /// The number the next node's identifier takes.
    pub closed spec fn next_number(&self) -> nat {
        self.next_id as nat
    }

    pub open spec fn wf(&self) -> bool {
        well_formed(self.view_nodes(), self.next_number())
    }

    /// An empty graph.
    pub fn new() -> (g: Self)
        ensures
            g.wf(),
            g.view_nodes().len() == 0,
            g.next_number() == 0,
    {
        let g = RenderGraph { nodes: Vec::new(), next_id: 0 };
        assert(g.view_nodes() =~= Seq::<NodeView>::empty());
        g
    }

    /// Adds a node of type `node_type`, named `label`, and returns its
    /// identifier `node_<n>`.
    pub fn add_node(&mut self, node_type: NodeType, label: &str) -> (id: String)
        requires
            old(self).wf(),
            old(self).next_number() < usize::MAX,
        ensures
            final(self).wf(),
            id@ == node_id(old(self).next_number()),
            final(self).next_number() == old(self).next_number() + 1,
            final(self).view_nodes() == old(self).view_nodes().push(new_node(id@, node_type, label@)),
    {
        let ghost before = self.view_nodes();
        let ghost k = self.next_id as nat;
        let mut digits: Vec<char> = Vec::new();
        push_str(&mut digits, "node_");
        push_decimal(&mut digits, self.next_id as u64);
        let id = chars_to_string(&digits);
        assert(id@ == node_id(k));
        self.next_id = self.next_id + 1;
        let node = build_node(chars_to_string(&digits), node_type, label);
        self.nodes.push(node);
        let ghost after = self.view_nodes();
        assert(after =~= before.push(new_node(id@, node_type, label@)));
        proof {
            let n = before.len() as int;
            assert forall|i: int| 0 <= i < n implies #[trigger] after[i].id != id@ by {
                assert(numbered_below(before[i].id, k));
                let j = choose|j: nat| j < k && before[i].id == #[trigger] node_id(j);
                if before[i].id == id@ {
                    lemma_node_ids_differ(j, k);
                }
            }
            assert forall|i: int| 0 <= i < after.len() implies numbered_below(#[trigger] after[i].id, k + 1) by {
                if i < n {
                    assert(numbered_below(before[i].id, k));
                    let j = choose|j: nat| j < k && before[i].id == #[trigger] node_id(j);
                    assert(after[i].id == node_id(j));
                } else {
                    assert(after[i].id == node_id(k));
                }
            }
            assert forall|i: int, j: int| 0 <= i < j < after.len() implies #[trigger] after[i].id != #[trigger] after[j].id by {
                if j < n {
                    assert(before[i].id != before[j].id);
                }
            }
            assert forall|i: int, p: int|
                0 <= i < after.len() && 0 <= p < after[i].inputs.len() implies names_a_node(after, #[trigger] after[i].inputs[p].1) by {
                if i < n {
                    assert(names_a_node(before, before[i].inputs[p].1));
                    if let Some(t) = before[i].inputs[p].1 {
                        let q = choose|q: int| 0 <= q < before.len() && #[trigger] before[q].id == t;
                        assert(after[q].id == t);
                    }
                }
            }
            assert forall|i: int, p: int|
                0 <= i < after.len() && 0 <= p < after[i].outputs.len() implies names_a_node(after, #[trigger] after[i].outputs[p].1) by {
                if i < n {
                    assert(names_a_node(before, before[i].outputs[p].1));
                    if let Some(t) = before[i].outputs[p].1 {
                        let q = choose|q: int| 0 <= q < before.len() && #[trigger] before[q].id == t;
                        assert(after[q].id == t);
                    }
                }
            }
            assert forall|i: int, j: int| 0 <= i < after.len() && 0 <= j < after.len() implies (#[trigger] feeds(after, i, j)
                <==> #[trigger] reads_from(after, j, i)) by {
                if i < n && j < n {
                    assert(feeds(before, i, j) <==> reads_from(before, j, i));
                } else if i < n {
                    // Nothing links to the new node.
                    if feeds(after, i, j) {
                        assert(names_a_node(before, before[i].outputs[0].1));
                        let q = choose|q: int| 0 <= q < before.len() && #[trigger] before[q].id == id@;
                        assert(after[q].id != id@);
                    }
                } else if j < n {
                    if reads_from(after, j, i) {
                        assert(names_a_node(before, before[j].inputs[0].1));
                        let q = choose|q: int| 0 <= q < before.len() && #[trigger] before[q].id == id@;
                        assert(after[q].id != id@);
                    }
                }
            }
        }
        id
    }

    /// The position of the first node called `node_id`.
    fn find(&self, node_id: &str) -> (r: Option<usize>)
        ensures
            r is None <==> position_of(self.view_nodes(), node_id@) is None,
            r matches Some(p) ==> p < self.view_nodes().len() && position_of(self.view_nodes(), node_id@) == Some(
                p as int,
            ),
    {
        let ghost v = self.view_nodes();
        let mut i: usize = 0;
        while i < self.nodes.len()
            invariant
                i <= self.nodes.len(),
                v == self.view_nodes(),
                forall|j: int| 0 <= j < i ==> #[trigger] v[j].id != node_id@,
            decreases self.nodes.len() - i,
        {
            assert(v[i as int] == node_view(self.nodes@[i as int]));
            if same_text(self.nodes[i].id.as_str(), node_id) {
                assert(v[i as int].id == node_id@);
                proof {
                    let w = choose|w: int|
                        0 <= w < v.len() && #[trigger] v[w].id == node_id@ && forall|j: int|
                            0 <= j < w ==> #[trigger] v[j].id != node_id@;
                    if w < i {
                    } else if w > i {
                        assert(v[i as int].id != node_id@);
                    }
                }
                return Some(i);
            }
            i = i + 1;
        }
        None
    }

    /// The node called `node_id`, if any.
    pub fn get_node(&self, node_id: &str) -> (r: Option<&Node>)
        ensures
            match position_of(self.view_nodes(), node_id@) {
                Some(p) => r matches Some(n) && node_view(*n) == self.view_nodes()[p],
                None => r is None,
            },
    {
        match self.find(node_id) {
            Some(p) => Some(&self.nodes[p]),
            None => None,
        }
    }

    /// The node called `node_id`, if any, to change in place.
    pub fn get_node_mut(&mut self, node_id: &str) -> (r: Option<&mut Node>)
        ensures
            final(self).next_number() == old(self).next_number(),
            match position_of(old(self).view_nodes(), node_id@) {
                Some(p) => r matches Some(n) && node_view(*n) == old(self).view_nodes()[p]
                    && final(self).view_nodes() == old(self).view_nodes().update(p, node_view(*final(n))),
                None => r is None && final(self).view_nodes() == old(self).view_nodes(),
            },
    {
        match self.find(node_id) {
            Some(p) => Some(&mut self.nodes[p]),
            None => None,
        }
    }

    /// The nodes, in the order they were added.
    pub fn nodes(&self) -> (r: &[Node])
        ensures
            nodes_view(r@) == self.view_nodes(),
    {
        self.nodes.as_slice()
    }

    /// How many nodes the graph has.
    pub fn node_count(&self) -> (n: usize)
        ensures
            n == self.view_nodes().len(),
    {
        self.nodes.len()
    }
}

impl Default for RenderGraph {
    fn default() -> (g: Self)
        ensures
            g.wf(),
            g.view_nodes().len() == 0,
            g.next_number() == 0,
    {
        RenderGraph::new()
    }
}


// ---------------------------------------------------------------------------
// Unlinking
// ---------------------------------------------------------------------------

/// Unlinking keeps the graph well formed; afterwards no port belongs to or
/// points to the node.
pub proof fn lemma_unlinked_keeps_shape(nodes: Seq<NodeView>, next: nat, id: Seq<char>)
    requires
        well_formed(nodes, next),
    ensures
        well_formed(unlinked(nodes, id), next),
        unlinked(nodes, id).len() == nodes.len(),
        forall|i: int| 0 <= i < nodes.len() ==> (#[trigger] unlinked(nodes, id)[i]).id == nodes[i].id,
        forall|i: int, p: int|
            0 <= i < nodes.len() && 0 <= p < unlinked(nodes, id)[i].inputs.len() ==> #[trigger] unlinked(nodes, id)[i].inputs[p].1
                != Some(id) && (nodes[i].id == id ==> unlinked(nodes, id)[i].inputs[p].1 is None),
        forall|i: int, p: int|
            0 <= i < nodes.len() && 0 <= p < unlinked(nodes, id)[i].outputs.len() ==> #[trigger] unlinked(nodes, id)[i].outputs[p].1
                != Some(id) && (nodes[i].id == id ==> unlinked(nodes, id)[i].outputs[p].1 is None),
{
    let u = unlinked(nodes, id);
    assert forall|i: int| 0 <= i < nodes.len() implies (#[trigger] u[i]).id == nodes[i].id && u[i].inputs.len()
        == nodes[i].inputs.len() && u[i].outputs.len() == nodes[i].outputs.len() by {}
    assert forall|i: int| 0 <= i < u.len() implies numbered_below(#[trigger] u[i].id, next) by {
        assert(numbered_below(nodes[i].id, next));
    }
    assert forall|i: int, j: int| 0 <= i < j < u.len() implies #[trigger] u[i].id != #[trigger] u[j].id by {
        assert(nodes[i].id != nodes[j].id);
    }
    assert forall|i: int| 0 <= i < u.len() implies #[trigger] u[i].inputs.len() <= 1 && u[i].outputs.len() <= 1 by {
        assert(nodes[i].inputs.len() <= 1 && nodes[i].outputs.len() <= 1);
    }
    assert forall|i: int, p: int|
        0 <= i < u.len() && 0 <= p < u[i].inputs.len() implies names_a_node(u, #[trigger] u[i].inputs[p].1) by {
        assert(u[i].inputs[p] == unlinked_port(nodes[i].inputs[p], nodes[i].id, id));
        assert(names_a_node(nodes, nodes[i].inputs[p].1));
        if let Some(t) = u[i].inputs[p].1 {
            let q = choose|q: int| 0 <= q < nodes.len() && #[trigger] nodes[q].id == t;
            assert(u[q].id == t);
        }
    }
    assert forall|i: int, p: int|
        0 <= i < u.len() && 0 <= p < u[i].outputs.len() implies names_a_node(u, #[trigger] u[i].outputs[p].1) by {
        assert(u[i].outputs[p] == unlinked_port(nodes[i].outputs[p], nodes[i].id, id));
        assert(names_a_node(nodes, nodes[i].outputs[p].1));
        if let Some(t) = u[i].outputs[p].1 {
            let q = choose|q: int| 0 <= q < nodes.len() && #[trigger] nodes[q].id == t;
            assert(u[q].id == t);
        }
    }
    assert forall|i: int, j: int| 0 <= i < u.len() && 0 <= j < u.len() implies (#[trigger] feeds(u, i, j)
        <==> #[trigger] reads_from(u, j, i)) by {
        assert(feeds(nodes, i, j) <==> reads_from(nodes, j, i));
        if nodes[i].outputs.len() > 0 {
            assert(u[i].outputs[0] == unlinked_port(nodes[i].outputs[0], nodes[i].id, id));
        }
        if nodes[j].inputs.len() > 0 {
            assert(u[j].inputs[0] == unlinked_port(nodes[j].inputs[0], nodes[j].id, id));
        }
    }
    assert forall|i: int, p: int|
        0 <= i < nodes.len() && 0 <= p < u[i].inputs.len() implies #[trigger] u[i].inputs[p].1 != Some(id) && (
        nodes[i].id == id ==> u[i].inputs[p].1 is None) by {
        assert(u[i].inputs[p] == unlinked_port(nodes[i].inputs[p], nodes[i].id, id));
    }
    assert forall|i: int, p: int|
        0 <= i < nodes.len() && 0 <= p < u[i].outputs.len() implies #[trigger] u[i].outputs[p].1 != Some(id) && (
        nodes[i].id == id ==> u[i].outputs[p].1 is None) by {
        assert(u[i].outputs[p] == unlinked_port(nodes[i].outputs[p], nodes[i].id, id));
    }
    assert(forall|i: int, j: int| 0 <= i < j < u.len() ==> #[trigger] u[i].id != #[trigger] u[j].id);
    assert(forall|i: int| 0 <= i < u.len() ==> #[trigger] u[i].inputs.len() <= 1 && u[i].outputs.len() <= 1);
    assert(forall|i: int, p: int|
        0 <= i < u.len() && 0 <= p < u[i].inputs.len() ==> names_a_node(u, #[trigger] u[i].inputs[p].1));
    assert(forall|i: int, p: int|
        0 <= i < u.len() && 0 <= p < u[i].outputs.len() ==> names_a_node(u, #[trigger] u[i].outputs[p].1));
    assert(forall|i: int, j: int|
        0 <= i < u.len() && 0 <= j < u.len() ==> (#[trigger] feeds(u, i, j) <==> #[trigger] reads_from(u, j, i)));
}

fn points_to(link: &Option<String>, id: &str) -> (b: bool)
    ensures
        b == (link_view(*link) == Some(id@)),
{
    match link {
        Some(t) => same_text(t.as_str(), id),
        None => false,
    }
}

fn unlink_inputs(ports: &mut Vec<NodeInput>, owner: &str, id: &str)
    ensures
        inputs_view(final(ports)@) == inputs_view(old(ports)@).map_values(
            |p: PortView| unlinked_port(p, owner@, id@),
        ),
{
    let owned = same_text(owner, id);
    let ghost before = inputs_view(ports@);
    let mut i: usize = 0;
    while i < ports.len()
        invariant
            i <= ports.len(),
            before.len() == ports@.len(),
            owned == (owner@ == id@),
            forall|k: int| 0 <= k < i ==> #[trigger] inputs_view(ports@)[k] == unlinked_port(before[k], owner@, id@),
            forall|k: int| i <= k < ports@.len() ==> #[trigger] inputs_view(ports@)[k] == before[k],
        decreases ports.len() - i,
    {
        let ghost mid = ports@;
        let port = ports.remove(i);
        let cut = owned || points_to(&port.connected_to, id);
        let fresh = if cut {
            NodeInput { name: port.name, connected_to: None }
        } else {
            port
        };
        ports.insert(i, fresh);
        assert(ports@ == mid.update(i as int, fresh));
        assert(inputs_view(mid)[i as int] == before[i as int]);
        assert(inputs_view(ports@)[i as int] == unlinked_port(before[i as int], owner@, id@));
        assert forall|k: int| 0 <= k < ports@.len() && k != i implies #[trigger] inputs_view(ports@)[k]
            == inputs_view(mid)[k] by {
            assert(ports@[k] == mid[k]);
        }
        i = i + 1;
    }
    assert(inputs_view(ports@) =~= before.map_values(|p: PortView| unlinked_port(p, owner@, id@)));
}

fn unlink_outputs(ports: &mut Vec<NodeOutput>, owner: &str, id: &str)
    ensures
        outputs_view(final(ports)@) == outputs_view(old(ports)@).map_values(
            |p: PortView| unlinked_port(p, owner@, id@),
        ),
{
    let owned = same_text(owner, id);
    let ghost before = outputs_view(ports@);
    let mut i: usize = 0;
    while i < ports.len()
        invariant
            i <= ports.len(),
            before.len() == ports@.len(),
            owned == (owner@ == id@),
            forall|k: int| 0 <= k < i ==> #[trigger] outputs_view(ports@)[k] == unlinked_port(before[k], owner@, id@),
            forall|k: int| i <= k < ports@.len() ==> #[trigger] outputs_view(ports@)[k] == before[k],
        decreases ports.len() - i,
    {
        let ghost mid = ports@;
        let port = ports.remove(i);
        let cut = owned || points_to(&port.connected_to, id);
        let fresh = if cut {
            NodeOutput { name: port.name, connected_to: None }
        } else {
            port
        };
        ports.insert(i, fresh);
        assert(ports@ == mid.update(i as int, fresh));
        assert(outputs_view(mid)[i as int] == before[i as int]);
        assert(outputs_view(ports@)[i as int] == unlinked_port(before[i as int], owner@, id@));
        assert forall|k: int| 0 <= k < ports@.len() && k != i implies #[trigger] outputs_view(ports@)[k]
            == outputs_view(mid)[k] by {
            assert(ports@[k] == mid[k]);
        }
        i = i + 1;
    }
    assert(outputs_view(ports@) =~= before.map_values(|p: PortView| unlinked_port(p, owner@, id@)));
}

fn unlink_node(n: Node, id: &str) -> (r: Node)
    ensures
        node_view(r) == unlinked_node(node_view(n), id@),
{
    let Node { id: nid, node_type, label, mut inputs, mut outputs, parameters, enabled } = n;
    unlink_inputs(&mut inputs, nid.as_str(), id);
    unlink_outputs(&mut outputs, nid.as_str(), id);
    Node { id: nid, node_type, label, inputs, outputs, parameters, enabled }
}

impl RenderGraph {
    fn unlink_all(&mut self, node_id: &str)
        ensures
            final(self).view_nodes() == unlinked(old(self).view_nodes(), node_id@),
            final(self).next_number() == old(self).next_number(),
    {
        let ghost before = self.view_nodes();
        let mut i: usize = 0;
        while i < self.nodes.len()
            invariant
                i <= self.nodes.len(),
                before.len() == self.nodes@.len(),
                self.next_id == old(self).next_id,
                forall|k: int| 0 <= k < i ==> #[trigger] self.view_nodes()[k] == unlinked_node(before[k], node_id@),
                forall|k: int| i <= k < self.nodes@.len() ==> #[trigger] self.view_nodes()[k] == before[k],
            decreases self.nodes.len() - i,
        {
            let ghost mid = self.nodes@;
            assert(self.view_nodes()[i as int] == before[i as int]);
            assert(nodes_view(mid)[i as int] == node_view(mid[i as int]));
            let n = self.nodes.remove(i);
            assert(n == mid[i as int]);
            let r = unlink_node(n, node_id);
            self.nodes.insert(i, r);
            assert(self.nodes@ == mid.update(i as int, r));
            assert forall|k: int| 0 <= k < self.nodes@.len() && k != i implies #[trigger] self.view_nodes()[k]
                == nodes_view(mid)[k] by {
                assert(self.nodes@[k] == mid[k]);
            }
            assert(self.view_nodes()[i as int] == node_view(r));
            i = i + 1;
        }
        assert(self.view_nodes() =~= unlinked(before, node_id@));
    }

    /// Removes every link to or from the node called `node_id`.
    pub fn disconnect(&mut self, node_id: &str) -> (r: Result<(), String>)
        requires
            old(self).wf(),
        ensures
            final(self).wf(),
            final(self).next_number() == old(self).next_number(),
            position_of(old(self).view_nodes(), node_id@) is None ==> (r matches Err(e) && e@ == "Node '"@
                + node_id@ + "' not found"@ && final(self).view_nodes() == old(self).view_nodes()),
            position_of(old(self).view_nodes(), node_id@) is Some ==> r is Ok && final(self).view_nodes() == unlinked(
                old(self).view_nodes(),
                node_id@,
            ),
    {
        if self.find(node_id).is_none() {
            let mut m: Vec<char> = Vec::new();
            push_str(&mut m, "Node '");
            push_str(&mut m, node_id);
            push_str(&mut m, "' not found");
            return Err(chars_to_string(&m));
        }
        proof {
            lemma_unlinked_keeps_shape(self.view_nodes(), self.next_number(), node_id@);
        }
        self.unlink_all(node_id);
        Ok(())
    }
}


// ---------------------------------------------------------------------------
// Linking and removing
// ---------------------------------------------------------------------------

/// Node `i`'s first output port pointed at `target`.
pub open spec fn with_output(n: NodeView, target: Seq<char>) -> NodeView {
    NodeView { outputs: n.outputs.update(0, (n.outputs[0].0, Some(target))), ..n }
}

/// Node `i`'s first input port pointed at `source`.
pub open spec fn with_input(n: NodeView, source: Seq<char>) -> NodeView {
    NodeView { inputs: n.inputs.update(0, (n.inputs[0].0, Some(source))), ..n }
}

/// The graph once node `oi` (called `out_id`) feeds node `ii` (called
/// `in_id`): both unlinked from everything first.
pub open spec fn linked(nodes: Seq<NodeView>, oi: int, ii: int, out_id: Seq<char>, in_id: Seq<char>) -> Seq<NodeView> {
    let u = unlinked(unlinked(nodes, out_id), in_id);
    let a = u.update(oi, with_output(u[oi], in_id));
    a.update(ii, with_input(a[ii], out_id))
}

/// Linking two nodes keeps the graph well formed.
pub proof fn lemma_linked_keeps_shape(nodes: Seq<NodeView>, next: nat, oi: int, ii: int, out_id: Seq<char>, in_id: Seq<char>)
    requires
        well_formed(nodes, next),
        0 <= oi < nodes.len(),
        0 <= ii < nodes.len(),
        nodes[oi].id == out_id,
        nodes[ii].id == in_id,
        out_id != in_id,
        nodes[oi].outputs.len() > 0,
        nodes[ii].inputs.len() > 0,
    ensures
        well_formed(linked(nodes, oi, ii, out_id, in_id), next),
        feeds(linked(nodes, oi, ii, out_id, in_id), oi, ii),
        reads_from(linked(nodes, oi, ii, out_id, in_id), ii, oi),
{
    lemma_unlinked_keeps_shape(nodes, next, out_id);
    let u1 = unlinked(nodes, out_id);
    lemma_unlinked_keeps_shape(u1, next, in_id);
    let u = unlinked(u1, in_id);
    let a = u.update(oi, with_output(u[oi], in_id));
    let l = a.update(ii, with_input(a[ii], out_id));
    assert(l == linked(nodes, oi, ii, out_id, in_id));
    assert(u[oi].id == out_id && u[ii].id == in_id);
    assert forall|i: int| 0 <= i < l.len() implies (#[trigger] l[i]).id == u[i].id && l[i].inputs.len() == u[i].inputs.len()
        && l[i].outputs.len() == u[i].outputs.len() by {}
    // In `u`, no port points to either node.
    assert forall|i: int, p: int| 0 <= i < u.len() && 0 <= p < u[i].inputs.len() implies #[trigger] u[i].inputs[p].1
        != Some(out_id) && u[i].inputs[p].1 != Some(in_id) by {
        assert(u1[i].inputs[p].1 != Some(out_id));
        assert(u[i].inputs[p] == unlinked_port(u1[i].inputs[p], u1[i].id, in_id));
    }
    assert forall|i: int, p: int| 0 <= i < u.len() && 0 <= p < u[i].outputs.len() implies #[trigger] u[i].outputs[p].1
        != Some(out_id) && u[i].outputs[p].1 != Some(in_id) by {
        assert(u1[i].outputs[p].1 != Some(out_id));
        assert(u[i].outputs[p] == unlinked_port(u1[i].outputs[p], u1[i].id, in_id));
    }
    assert forall|i: int| 0 <= i < l.len() implies numbered_below(#[trigger] l[i].id, next) by {
        assert(numbered_below(u[i].id, next));
    }
    assert forall|i: int, j: int| 0 <= i < j < l.len() implies #[trigger] l[i].id != #[trigger] l[j].id by {
        assert(u[i].id != u[j].id);
    }
    assert forall|i: int| 0 <= i < l.len() implies #[trigger] l[i].inputs.len() <= 1 && l[i].outputs.len() <= 1 by {
        assert(u[i].inputs.len() <= 1 && u[i].outputs.len() <= 1);
    }
    assert forall|i: int, p: int|
        0 <= i < l.len() && 0 <= p < l[i].inputs.len() implies names_a_node(l, #[trigger] l[i].inputs[p].1) by {
        if i == ii && p == 0 {
            assert(l[oi].id == out_id);
        } else {
            assert(l[i].inputs[p] == u[i].inputs[p]);
            assert(names_a_node(u, u[i].inputs[p].1));
            if let Some(t) = u[i].inputs[p].1 {
                let q = choose|q: int| 0 <= q < u.len() && #[trigger] u[q].id == t;
                assert(l[q].id == t);
            }
        }
    }
    assert forall|i: int, p: int|
        0 <= i < l.len() && 0 <= p < l[i].outputs.len() implies names_a_node(l, #[trigger] l[i].outputs[p].1) by {
        if i == oi && p == 0 {
            assert(l[ii].id == in_id);
        } else {
            assert(l[i].outputs[p] == u[i].outputs[p]);
            assert(names_a_node(u, u[i].outputs[p].1));
            if let Some(t) = u[i].outputs[p].1 {
                let q = choose|q: int| 0 <= q < u.len() && #[trigger] u[q].id == t;
                assert(l[q].id == t);
            }
        }
    }
    assert forall|i: int, j: int| 0 <= i < l.len() && 0 <= j < l.len() implies (#[trigger] feeds(l, i, j)
        <==> #[trigger] reads_from(l, j, i)) by {
        assert(feeds(u, i, j) <==> reads_from(u, j, i));
        if i == oi {
            if j == ii {
            } else {
                assert(l[j].id != in_id);
                if u[j].inputs.len() > 0 {
                    assert(u[j].inputs[0].1 != Some(out_id));
                }
            }
        } else if j == ii {
            if u[i].outputs.len() > 0 {
                assert(u[i].outputs[0].1 != Some(in_id));
            }
            assert(l[i].id != out_id);
        } else {
            assert(l[i].outputs == u[i].outputs);
            assert(l[j].inputs == u[j].inputs);
        }
    }
}

/// Removing a node nothing links to keeps the graph well formed.
pub proof fn lemma_removal_keeps_shape(nodes: Seq<NodeView>, next: nat, pos: int)
    requires
        well_formed(nodes, next),
        0 <= pos < nodes.len(),
        forall|i: int, p: int| 0 <= i < nodes.len() && 0 <= p < nodes[i].inputs.len() ==> #[trigger] nodes[i].inputs[p].1
            != Some(nodes[pos].id),
        forall|i: int, p: int| 0 <= i < nodes.len() && 0 <= p < nodes[i].outputs.len() ==> #[trigger] nodes[i].outputs[p].1
            != Some(nodes[pos].id),
    ensures
        well_formed(nodes.remove(pos), next),
{
    let r = nodes.remove(pos);
    let old_index = |i: int| if i < pos { i } else { i + 1 };
    assert forall|i: int| 0 <= i < r.len() implies #[trigger] r[i] == nodes[old_index(i)] by {}
    assert forall|i: int| 0 <= i < r.len() implies numbered_below(#[trigger] r[i].id, next) by {
        assert(numbered_below(nodes[old_index(i)].id, next));
    }
    assert forall|i: int, j: int| 0 <= i < j < r.len() implies #[trigger] r[i].id != #[trigger] r[j].id by {
        assert(nodes[old_index(i)].id != nodes[old_index(j)].id);
    }
    assert forall|i: int| 0 <= i < r.len() implies #[trigger] r[i].inputs.len() <= 1 && r[i].outputs.len() <= 1 by {
        assert(nodes[old_index(i)].inputs.len() <= 1);
    }
    assert forall|i: int, p: int|
        0 <= i < r.len() && 0 <= p < r[i].inputs.len() implies names_a_node(r, #[trigger] r[i].inputs[p].1) by {
        let oi = old_index(i);
        assert(names_a_node(nodes, nodes[oi].inputs[p].1));
        if let Some(t) = r[i].inputs[p].1 {
            let q = choose|q: int| 0 <= q < nodes.len() && #[trigger] nodes[q].id == t;
            assert(q != pos);
            let nq = if q < pos { q } else { q - 1 };
            assert(r[nq] == nodes[q]);
        }
    }
    assert forall|i: int, p: int|
        0 <= i < r.len() && 0 <= p < r[i].outputs.len() implies names_a_node(r, #[trigger] r[i].outputs[p].1) by {
        let oi = old_index(i);
        assert(names_a_node(nodes, nodes[oi].outputs[p].1));
        if let Some(t) = r[i].outputs[p].1 {
            let q = choose|q: int| 0 <= q < nodes.len() && #[trigger] nodes[q].id == t;
            assert(q != pos);
            let nq = if q < pos { q } else { q - 1 };
            assert(r[nq] == nodes[q]);
        }
    }
    assert forall|i: int, j: int| 0 <= i < r.len() && 0 <= j < r.len() implies (#[trigger] feeds(r, i, j)
        <==> #[trigger] reads_from(r, j, i)) by {
        assert(feeds(nodes, old_index(i), old_index(j)) <==> reads_from(nodes, old_index(j), old_index(i)));
    }
}

fn link_output(n: Node, target: &str) -> (r: Node)
    requires
        n.outputs@.len() > 0,
    ensures
        node_view(r) == with_output(node_view(n), target@),
{
    let Node { id, node_type, label, inputs, mut outputs, parameters, enabled } = n;
    let ghost before = outputs@;
    let first = outputs.remove(0);
    outputs.insert(0, NodeOutput { name: first.name, connected_to: Some(text(target)) });
    assert(outputs@ == before.update(0, outputs@[0]));
    let r = Node { id, node_type, label, inputs, outputs, parameters, enabled };
    assert(outputs_view(r.outputs@) =~= outputs_view(before).update(0, (outputs_view(before)[0].0, Some(target@))));
    r
}

fn link_input(n: Node, source: &str) -> (r: Node)
    requires
        n.inputs@.len() > 0,
    ensures
        node_view(r) == with_input(node_view(n), source@),
{
    let Node { id, node_type, label, mut inputs, outputs, parameters, enabled } = n;
    let ghost before = inputs@;
    let first = inputs.remove(0);
    inputs.insert(0, NodeInput { name: first.name, connected_to: Some(text(source)) });
    assert(inputs@ == before.update(0, inputs@[0]));
    let r = Node { id, node_type, label, inputs, outputs, parameters, enabled };
    assert(inputs_view(r.inputs@) =~= inputs_view(before).update(0, (inputs_view(before)[0].0, Some(source@))));
    r
}

fn not_found(what: &str, id: &str) -> (s: String)
    ensures
        s@ == what@ + " '"@ + id@ + "' not found"@,
{
    let mut m: Vec<char> = Vec::new();
    push_str(&mut m, what);
    push_str(&mut m, " '");
    push_str(&mut m, id);
    push_str(&mut m, "' not found");
    chars_to_string(&m)
}

impl RenderGraph {
    /// Links the output of node `output_id` to the input of node
    /// `input_id`, after unlinking both from everything else.
    pub fn connect(&mut self, output_id: &str, input_id: &str) -> (r: Result<(), String>)
        requires
            old(self).wf(),
        ensures
            final(self).wf(),
            final(self).next_number() == old(self).next_number(),
            r is Err ==> final(self).view_nodes() == old(self).view_nodes(),
            r matches Err(e) ==> e@ == connect_refusal(old(self).view_nodes(), output_id@, input_id@)->0,
            r is Ok <==> connect_refusal(old(self).view_nodes(), output_id@, input_id@) is None,
            r is Ok ==> final(self).view_nodes() == linked(
                old(self).view_nodes(),
                position_of(old(self).view_nodes(), output_id@)->0,
                position_of(old(self).view_nodes(), input_id@)->0,
                output_id@,
                input_id@,
            ),
    {
        let ghost v = self.view_nodes();
        if same_text(output_id, input_id) {
            return Err(text("A node cannot connect to itself"));
        }
        let oi = match self.find(output_id) {
            Some(p) => p,
            None => {
                return Err(not_found("Output node", output_id));
            },
        };
        let ii = match self.find(input_id) {
            Some(p) => p,
            None => {
                return Err(not_found("Input node", input_id));
            },
        };
        assert(v[oi as int] == node_view(self.nodes@[oi as int]));
        assert(v[ii as int] == node_view(self.nodes@[ii as int]));
        if self.nodes[oi].outputs.len() == 0 {
            return Err(text("Output node has no outputs"));
        }
        if self.nodes[ii].inputs.len() == 0 {
            return Err(text("Input node has no inputs"));
        }
        proof {
            lemma_position_is_id(v, output_id@);
            lemma_position_is_id(v, input_id@);
            lemma_linked_keeps_shape(v, self.next_number(), oi as int, ii as int, output_id@, input_id@);
            lemma_unlinked_keeps_shape(v, self.next_number(), output_id@);
            lemma_unlinked_keeps_shape(unlinked(v, output_id@), self.next_number(), input_id@);
        }
        self.unlink_all(output_id);
        self.unlink_all(input_id);
        let ghost u = self.view_nodes();
        let out_node = self.nodes.remove(oi);
        assert(node_view(out_node) == u[oi as int]);
        let out_node = link_output(out_node, input_id);
        self.nodes.insert(oi, out_node);
        let ghost a = self.view_nodes();
        assert(a =~= u.update(oi as int, with_output(u[oi as int], input_id@)));
        let in_node = self.nodes.remove(ii);
        assert(node_view(in_node) == a[ii as int]);
        let in_node = link_input(in_node, output_id);
        self.nodes.insert(ii, in_node);
        assert(self.view_nodes() =~= a.update(ii as int, with_input(a[ii as int], output_id@)));
        Ok(())
    }

    /// Removes the node called `node_id` (unlinked first) and returns it.
    pub fn remove_node(&mut self, node_id: &str) -> (r: Option<Node>)
        requires
            old(self).wf(),
        ensures
            final(self).wf(),
            final(self).next_number() == old(self).next_number(),
            match position_of(old(self).view_nodes(), node_id@) {
                Some(p) => r matches Some(n) && node_view(n) == unlinked(old(self).view_nodes(), node_id@)[p]
                    && final(self).view_nodes() == unlinked(old(self).view_nodes(), node_id@).remove(p),
                None => r is None && final(self).view_nodes() == old(self).view_nodes(),
            },
    {
        let ghost v = self.view_nodes();
        match self.find(node_id) {
            None => None,
            Some(pos) => {
                proof {
                    lemma_position_is_id(v, node_id@);
                    lemma_unlinked_keeps_shape(v, self.next_number(), node_id@);
                    let u = unlinked(v, node_id@);
                    assert(u[pos as int].id == node_id@);
                    lemma_removal_keeps_shape(u, self.next_number(), pos as int);
                }
                self.unlink_all(node_id);
                let ghost u = self.view_nodes();
                let removed = self.nodes.remove(pos);
                assert(self.view_nodes() =~= u.remove(pos as int));
                Some(removed)
            },
        }
    }
}

/// Why a link is refused, if it is: a node linked to itself, then a missing
/// output node, a missing input node, and nodes without the ports.
pub open spec fn connect_refusal(nodes: Seq<NodeView>, out_id: Seq<char>, in_id: Seq<char>) -> Option<Seq<char>> {
    if out_id == in_id {
        Some("A node cannot connect to itself"@)
    } else if position_of(nodes, out_id) is None {
        Some("Output node"@ + " '"@ + out_id + "' not found"@)
    } else if position_of(nodes, in_id) is None {
        Some("Input node"@ + " '"@ + in_id + "' not found"@)
    } else if nodes[position_of(nodes, out_id)->0].outputs.len() == 0 {
        Some("Output node has no outputs"@)
    } else if nodes[position_of(nodes, in_id)->0].inputs.len() == 0 {
        Some("Input node has no inputs"@)
    } else {
        None
    }
}

/// The position found is that of a node with the identifier.
proof fn lemma_position_is_id(nodes: Seq<NodeView>, id: Seq<char>)
    ensures
        position_of(nodes, id) matches Some(p) ==> 0 <= p < nodes.len() && nodes[p].id == id,
{
    if exists|i: int| 0 <= i < nodes.len() && #[trigger] nodes[i].id == id {
        let w = choose|i: int| 0 <= i < nodes.len() && #[trigger] nodes[i].id == id;
        lemma_first_position(nodes, id, w);
    }
}

/// Some first position exists once any does.
proof fn lemma_first_position(nodes: Seq<NodeView>, id: Seq<char>, w: int)
    requires
        0 <= w < nodes.len(),
        nodes[w].id == id,
    ensures
        exists|i: int|
            0 <= i < nodes.len() && #[trigger] nodes[i].id == id && forall|j: int| 0 <= j < i ==> #[trigger] nodes[j].id != id,
    decreases w,
{
    if exists|j: int| 0 <= j < w && #[trigger] nodes[j].id == id {
        let j = choose|j: int| 0 <= j < w && #[trigger] nodes[j].id == id;
        lemma_first_position(nodes, id, j);
    } else {
        assert(forall|j: int| 0 <= j < w ==> #[trigger] nodes[j].id != id);
    }
}


// ---------------------------------------------------------------------------
// Parameters
// ---------------------------------------------------------------------------

/// The position of the first parameter called `name`.
pub open spec fn parameter_position(ps: Seq<ParameterView>, name: Seq<char>) -> Option<int> {
    if exists|i: int| 0 <= i < ps.len() && #[trigger] ps[i].name == name {
        Some(
            choose|i: int|
                0 <= i < ps.len() && #[trigger] ps[i].name == name && forall|j: int|
                    0 <= j < i ==> #[trigger] ps[j].name != name,
        )
    } else {
        None
    }
}

/// Node `n` with its `q`-th parameter replaced.
pub open spec fn with_parameter(n: NodeView, q: int, p: ParameterView) -> NodeView {
    NodeView { parameters: n.parameters.update(q, p), ..n }
}

/// Keyframes in order of time (`f64::total_cmp`).
pub open spec fn keyframe_order() -> spec_fn(KeyframeView, KeyframeView) -> bool {
    |a: KeyframeView, b: KeyframeView| total_key(a.time) <= total_key(b.time)
}

/// A double is NaN: all exponent bits set and a fraction.
pub open spec fn nan_bits(bits: u64) -> bool {
    (bits / 0x10_0000_0000_0000) % 0x800 == 0x7ff && bits % 0x10_0000_0000_0000 != 0
}

/// A double is zero, of either sign.
pub open spec fn zero_bits(bits: u64) -> bool {
    bits % 0x8000_0000_0000_0000 == 0
}

/// `a <= b` between doubles: false with a NaN; the two zeros are equal;
/// otherwise their total order.
pub open spec fn f64_le(a: u64, b: u64) -> bool {
    !nan_bits(a) && !nan_bits(b) && (total_key(a) <= total_key(b) || (zero_bits(a) && zero_bits(b)))
}

/// How many keyframes, from the first, are at or before `time`.
pub open spec fn reached(ks: Seq<KeyframeView>, time: u64, i: nat) -> nat
    decreases ks.len() - i,
{
    if i < ks.len() && f64_le(ks[i as int].time, time) {
        reached(ks, time, i + 1)
    } else {
        i
    }
}

/// The value of a parameter at `time`: its value without keyframes, else
/// the value of the last keyframe of the leading run at or before `time`
/// (the first keyframe when none is).
pub open spec fn value_at(p: ParameterView, time: u64) -> ValueView {
    if p.keyframes.len() == 0 {
        p.value
    } else {
        let n = reached(p.keyframes, time, 0);
        if n == 0 {
            p.keyframes[0].value
        } else {
            p.keyframes[n - 1].value
        }
    }
}

/// Changing a node's parameters keeps the graph well formed.
proof fn lemma_parameters_keep_shape(nodes: Seq<NodeView>, next: nat, pos: int, n: NodeView)
    requires
        well_formed(nodes, next),
        0 <= pos < nodes.len(),
        n.id == nodes[pos].id,
        n.inputs == nodes[pos].inputs,
        n.outputs == nodes[pos].outputs,
    ensures
        well_formed(nodes.update(pos, n), next),
{
    let m = nodes.update(pos, n);
    assert forall|i: int| 0 <= i < m.len() implies (#[trigger] m[i]).id == nodes[i].id && m[i].inputs == nodes[i].inputs
        && m[i].outputs == nodes[i].outputs by {}
    assert forall|i: int| 0 <= i < m.len() implies numbered_below(#[trigger] m[i].id, next) by {
        assert(numbered_below(nodes[i].id, next));
    }
    assert forall|i: int, j: int| 0 <= i < j < m.len() implies #[trigger] m[i].id != #[trigger] m[j].id by {
        assert(nodes[i].id != nodes[j].id);
    }
    assert forall|i: int| 0 <= i < m.len() implies #[trigger] m[i].inputs.len() <= 1 && m[i].outputs.len() <= 1 by {
        assert(nodes[i].inputs.len() <= 1);
    }
    assert forall|i: int, p: int|
        0 <= i < m.len() && 0 <= p < m[i].inputs.len() implies names_a_node(m, #[trigger] m[i].inputs[p].1) by {
        assert(names_a_node(nodes, nodes[i].inputs[p].1));
        if let Some(t) = m[i].inputs[p].1 {
            let q = choose|q: int| 0 <= q < nodes.len() && #[trigger] nodes[q].id == t;
            assert(m[q].id == t);
        }
    }
    assert forall|i: int, p: int|
        0 <= i < m.len() && 0 <= p < m[i].outputs.len() implies names_a_node(m, #[trigger] m[i].outputs[p].1) by {
        assert(names_a_node(nodes, nodes[i].outputs[p].1));
        if let Some(t) = m[i].outputs[p].1 {
            let q = choose|q: int| 0 <= q < nodes.len() && #[trigger] nodes[q].id == t;
            assert(m[q].id == t);
        }
    }
    assert forall|i: int, j: int| 0 <= i < m.len() && 0 <= j < m.len() implies (#[trigger] feeds(m, i, j)
        <==> #[trigger] reads_from(m, j, i)) by {
        assert(feeds(nodes, i, j) <==> reads_from(nodes, j, i));
    }
}

fn find_parameter(ps: &Vec<Parameter>, name: &str) -> (r: Option<usize>)
    ensures
        r is None <==> parameter_position(parameters_view(ps@), name@) is None,
        r matches Some(q) ==> q < ps@.len() && parameter_position(parameters_view(ps@), name@) == Some(q as int),
{
    let ghost v = parameters_view(ps@);
    let mut i: usize = 0;
    while i < ps.len()
        invariant
            i <= ps.len(),
            v == parameters_view(ps@),
            forall|j: int| 0 <= j < i ==> #[trigger] v[j].name != name@,
        decreases ps.len() - i,
    {
        assert(v[i as int] == parameter_view(ps@[i as int]));
        if same_text(ps[i].name.as_str(), name) {
            assert(v[i as int].name == name@);
            proof {
                let w = choose|w: int|
                    0 <= w < v.len() && #[trigger] v[w].name == name@ && forall|j: int|
                        0 <= j < w ==> #[trigger] v[j].name != name@;
                if w < i {
                } else if w > i {
                    assert(v[i as int].name != name@);
                }
            }
            return Some(i);
        }
        i = i + 1;
    }
    None
}

fn f64_le_exec(a: u64, b: u64) -> (r: bool)
    ensures
        r == f64_le(a, b),
{
    let nan_a = (a / 0x10_0000_0000_0000) % 0x800 == 0x7ff && a % 0x10_0000_0000_0000 != 0;
    let nan_b = (b / 0x10_0000_0000_0000) % 0x800 == 0x7ff && b % 0x10_0000_0000_0000 != 0;
    !nan_a && !nan_b && (total_key_exec(a) <= total_key_exec(b) || (a % 0x8000_0000_0000_0000 == 0 && b
        % 0x8000_0000_0000_0000 == 0))
}

/// The keyframes in order of time (a stable sort).
fn sort_keyframes(ks: Vec<Keyframe>) -> (r: Vec<Keyframe>)
    ensures
        keyframes_view(r@) == stable_sorted(keyframes_view(ks@), keyframe_order()),
{
    let ghost le = keyframe_order();
    let ghost input = ks@;
    let count = ks.len();
    let mut rest = ks;
    let mut reversed: Vec<Keyframe> = Vec::new();
    while rest.len() > 0
        invariant
            input == rest@ + reversed@.reverse(),
        decreases rest.len(),
    {
        let ghost before = rest@;
        let ghost rb = reversed@;
        let x = rest.pop().unwrap();
        reversed.push(x);
        assert(reversed@.reverse() =~= seq![x] + rb.reverse());
        assert(before =~= rest@.push(x));
        assert(input =~= rest@ + reversed@.reverse());
    }
    assert(reversed@.reverse() =~= input);
    let mut out: Vec<Keyframe> = Vec::new();
    let mut k: usize = 0;
    assert(keyframes_view(input).take(0) =~= Seq::<KeyframeView>::empty());
    while reversed.len() > 0
        invariant
            le == keyframe_order(),
            k + reversed@.len() == input.len(),
            input.len() == count,
            reversed@.reverse() == input.skip(k as int),
            keyframes_view(out@) == stable_sorted(keyframes_view(input).take(k as int), le),
        decreases reversed.len(),
    {
        let ghost rb = reversed@;
        let x = reversed.pop().unwrap();
        assert(input[k as int] == x) by {
            assert(rb.reverse()[0] == rb[rb.len() - 1]);
            assert(input.skip(k as int)[0] == input[k as int]);
        }
        assert(reversed@.reverse() =~= rb.reverse().skip(1));
        assert(input.skip(k + 1) =~= input.skip(k as int).skip(1));
        let ghost sv = keyframes_view(out@);
        let key = total_key_exec(x.time);
        let mut p = out.len();
        while p > 0 && total_key_exec(out[p - 1].time) > key
            invariant
                p <= out.len(),
                sv == keyframes_view(out@),
                le == keyframe_order(),
                key == total_key(x.time),
                forall|j: int| p <= j < sv.len() ==> !le(#[trigger] sv[j], keyframe_view(x)),
            decreases p,
        {
            assert(sv[p - 1] == keyframe_view(out@[p - 1]));
            p = p - 1;
        }
        proof {
            if p > 0 {
                assert(sv[p - 1] == keyframe_view(out@[p - 1]));
            }
            lemma_insert_sorted_at(sv, keyframe_view(x), le, p as int);
            assert(keyframes_view(input).take(k + 1).drop_last() =~= keyframes_view(input).take(k as int));
            assert(keyframes_view(input).take(k + 1).last() == keyframe_view(x));
        }
        out.insert(p, x);
        assert(keyframes_view(out@) =~= sv.take(p as int).push(keyframe_view(x)) + sv.skip(p as int));
        k = k + 1;
    }
    assert(keyframes_view(input).take(count as int) =~= keyframes_view(input));
    out
}

/// Why a parameter edit is refused, if it is.
pub open spec fn parameter_refusal(nodes: Seq<NodeView>, node_id: Seq<char>, name: Seq<char>) -> Option<Seq<char>> {
    match position_of(nodes, node_id) {
        None => Some("Node"@ + " '"@ + node_id + "' not found"@),
        Some(p) => match parameter_position(nodes[p].parameters, name) {
            None => Some("Parameter"@ + " '"@ + name + "' not found"@),
            Some(_) => None,
        },
    }
}

impl RenderGraph {
    /// Replaces the `q`-th parameter of the node at `pos` by what `edit`
    /// makes of it.
    fn edit_parameter(&mut self, pos: usize, q: usize, value: Option<ParameterValue>, keyframe: Option<Keyframe>)
        requires
            old(self).wf(),
            pos < old(self).view_nodes().len(),
            q < old(self).view_nodes()[pos as int].parameters.len(),
        ensures
            final(self).wf(),
            final(self).next_number() == old(self).next_number(),
            final(self).view_nodes() == old(self).view_nodes().update(
                pos as int,
                with_parameter(
                    old(self).view_nodes()[pos as int],
                    q as int,
                    edited(old(self).view_nodes()[pos as int].parameters[q as int], value, keyframe),
                ),
            ),
    {
        let ghost v = self.view_nodes();
        let ghost mid = self.nodes@;
        assert(v[pos as int] == node_view(mid[pos as int]));
        let n = self.nodes.remove(pos);
        let Node { id, node_type, label, inputs, outputs, mut parameters, enabled } = n;
        let ghost pv = parameters_view(parameters@);
        assert(pv[q as int] == parameter_view(parameters@[q as int]));
        let ghost rest = parameters@;
        let param = parameters.remove(q);
        let ghost old_param = parameter_view(param);
        let ghost wanted = edited(old_param, value, keyframe);
        let Parameter { name, value: old_value, min, max, default, mut keyframes } = param;
        let new_value = match value {
            Some(x) => x,
            None => old_value,
        };
        let keyframes = match keyframe {
            Some(kf) => {
                let ghost before = keyframes@;
                keyframes.push(kf);
                assert(keyframes_view(keyframes@) =~= keyframes_view(before).push(keyframe_view(kf)));
                sort_keyframes(keyframes)
            },
            None => keyframes,
        };
        let fresh = Parameter { name, value: new_value, min, max, default, keyframes };
        assert(parameter_view(fresh) == wanted);
        parameters.insert(q, fresh);
        assert(parameters_view(parameters@) =~= pv.update(q as int, parameter_view(fresh)));
        let node = Node { id, node_type, label, inputs, outputs, parameters, enabled };
        assert(node_view(node) == with_parameter(v[pos as int], q as int, wanted));
        proof {
            lemma_parameters_keep_shape(v, self.next_number(), pos as int, node_view(node));
        }
        self.nodes.insert(pos, node);
        assert(self.view_nodes() =~= v.update(pos as int, node_view(node)));
    }

    /// Sets the value of parameter `param_name` of node `node_id`.
    pub fn set_parameter(&mut self, node_id: &str, param_name: &str, value: ParameterValue) -> (r: Result<(), String>)
        requires
            old(self).wf(),
        ensures
            final(self).wf(),
            final(self).next_number() == old(self).next_number(),
            r is Ok <==> parameter_refusal(old(self).view_nodes(), node_id@, param_name@) is None,
            r matches Err(e) ==> e@ == parameter_refusal(old(self).view_nodes(), node_id@, param_name@)->0
                && final(self).view_nodes() == old(self).view_nodes(),
            r is Ok ==> {
                let nodes = old(self).view_nodes();
                let p = position_of(nodes, node_id@)->0;
                let q = parameter_position(nodes[p].parameters, param_name@)->0;
                final(self).view_nodes() == nodes.update(
                    p,
                    with_parameter(nodes[p], q, edited(nodes[p].parameters[q], Some(value), None)),
                )
            },
    {
        let ghost v = self.view_nodes();
        let pos = match self.find(node_id) {
            Some(p) => p,
            None => {
                return Err(not_found("Node", node_id));
            },
        };
        assert(v[pos as int] == node_view(self.nodes@[pos as int]));
        let q = match find_parameter(&self.nodes[pos].parameters, param_name) {
            Some(q) => q,
            None => {
                return Err(not_found("Parameter", param_name));
            },
        };
        self.edit_parameter(pos, q, Some(value), None);
        Ok(())
    }

    /// Adds a keyframe (linear) to parameter `param_name` of node
    /// `node_id`; the keyframes stay in order of time.
    pub fn add_keyframe(&mut self, node_id: &str, param_name: &str, time: u64, value: ParameterValue) -> (r: Result<(), String>)
        requires
            old(self).wf(),
        ensures
            final(self).wf(),
            final(self).next_number() == old(self).next_number(),
            r is Ok <==> finite_bits(time) && parameter_refusal(old(self).view_nodes(), node_id@, param_name@) is None,
            r is Err ==> final(self).view_nodes() == old(self).view_nodes(),
            r matches Err(e) ==> e@ == (if !finite_bits(time) {
                "Keyframe time must be finite"@
            } else {
                parameter_refusal(old(self).view_nodes(), node_id@, param_name@)->0
            }),
            r is Ok ==> {
                let nodes = old(self).view_nodes();
                let p = position_of(nodes, node_id@)->0;
                let q = parameter_position(nodes[p].parameters, param_name@)->0;
                final(self).view_nodes() == nodes.update(
                    p,
                    with_parameter(
                        nodes[p],
                        q,
                        edited(
                            nodes[p].parameters[q],
                            None,
                            Some(Keyframe { time, value, interpolation: Interpolation::Linear }),
                        ),
                    ),
                )
            },
    {
        if (time / 0x10_0000_0000_0000) % 0x800 == 0x7ff {
            return Err(text("Keyframe time must be finite"));
        }
        let ghost v = self.view_nodes();
        let pos = match self.find(node_id) {
            Some(p) => p,
            None => {
                return Err(not_found("Node", node_id));
            },
        };
        assert(v[pos as int] == node_view(self.nodes@[pos as int]));
        let q = match find_parameter(&self.nodes[pos].parameters, param_name) {
            Some(q) => q,
            None => {
                return Err(not_found("Parameter", param_name));
            },
        };
        self.edit_parameter(pos, q, None, Some(Keyframe { time, value, interpolation: Interpolation::Linear }));
        Ok(())
    }

    /// The value of parameter `param_name` of node `node_id` at `time`.
    pub fn evaluate_parameter_at(&self, node_id: &str, param_name: &str, time: u64) -> (r: Option<ParameterValue>)
        ensures
            match parameter_refusal(self.view_nodes(), node_id@, param_name@) {
                Some(_) => r is None,
                None => {
                    let nodes = self.view_nodes();
                    let p = position_of(nodes, node_id@)->0;
                    let q = parameter_position(nodes[p].parameters, param_name@)->0;
                    r matches Some(x) && value_view(x) == value_at(nodes[p].parameters[q], time)
                },
            },
    {
        let ghost v = self.view_nodes();
        let pos = match self.find(node_id) {
            Some(p) => p,
            None => {
                return None;
            },
        };
        assert(v[pos as int] == node_view(self.nodes@[pos as int]));
        let params = &self.nodes[pos].parameters;
        let q = match find_parameter(params, param_name) {
            Some(q) => q,
            None => {
                return None;
            },
        };
        let param = &params[q];
        assert(parameters_view(params@)[q as int] == parameter_view(*param));
        let ks = &param.keyframes;
        let ghost kv = keyframes_view(ks@);
        if ks.len() == 0 {
            return Some(param.value.duplicate());
        }
        let mut i: usize = 0;
        while i < ks.len() && f64_le_exec(ks[i].time, time)
            invariant
                i <= ks.len(),
                kv == keyframes_view(ks@),
                reached(kv, time, i as nat) == reached(kv, time, 0),
            decreases ks.len() - i,
        {
            assert(kv[i as int] == keyframe_view(ks@[i as int]));
            i = i + 1;
        }
        proof {
            if i < ks.len() {
                assert(kv[i as int] == keyframe_view(ks@[i as int]));
            }
        }
        let chosen = if i == 0 {
            0
        } else {
            i - 1
        };
        assert(kv[chosen as int] == keyframe_view(ks@[chosen as int]));
        Some(ks[chosen].value.duplicate())
    }
}

/// A parameter with a new value and/or a new keyframe (kept in order of
/// time).
pub open spec fn edited(p: ParameterView, value: Option<ParameterValue>, keyframe: Option<Keyframe>) -> ParameterView {
    ParameterView {
        value: match value {
            Some(x) => value_view(x),
            None => p.value,
        },
        keyframes: match keyframe {
            Some(k) => stable_sorted(p.keyframes.push(keyframe_view(k)), keyframe_order()),
            None => p.keyframes,
        },
        ..p
    }
}


// ---------------------------------------------------------------------------
// What an edit gives back
// ---------------------------------------------------------------------------

/// The parameter `name` of node `node_id`, where neither is missing.
pub open spec fn target(nodes: Seq<NodeView>, node_id: Seq<char>, name: Seq<char>) -> ParameterView {
    let p = position_of(nodes, node_id)->0;
    nodes[p].parameters[parameter_position(nodes[p].parameters, name)->0]
}

/// The nodes once parameter `name` of node `node_id` is edited as
/// `set_parameter` (a value) or `add_keyframe` (a keyframe) edit it.
pub open spec fn after_edit(
    nodes: Seq<NodeView>,
    node_id: Seq<char>,
    name: Seq<char>,
    value: Option<ParameterValue>,
    keyframe: Option<Keyframe>,
) -> Seq<NodeView> {
    let p = position_of(nodes, node_id)->0;
    let q = parameter_position(nodes[p].parameters, name)->0;
    nodes.update(p, with_parameter(nodes[p], q, edited(nodes[p].parameters[q], value, keyframe)))
}

/// Some first parameter position exists once any does.
proof fn lemma_first_parameter(ps: Seq<ParameterView>, name: Seq<char>, w: int)
    requires
        0 <= w < ps.len(),
        ps[w].name == name,
    ensures
        exists|i: int|
            0 <= i < ps.len() && #[trigger] ps[i].name == name && forall|j: int| 0 <= j < i ==> #[trigger] ps[j].name != name,
    decreases w,
{
    if exists|j: int| 0 <= j < w && #[trigger] ps[j].name == name {
        let j = choose|j: int| 0 <= j < w && #[trigger] ps[j].name == name;
        lemma_first_parameter(ps, name, j);
    } else {
        assert(forall|j: int| 0 <= j < w ==> #[trigger] ps[j].name != name);
    }
}

/// Nodes with the same identifiers, position by position, find a node at
/// the same place.
proof fn lemma_same_ids(a: Seq<NodeView>, b: Seq<NodeView>, id: Seq<char>)
    requires
        a.len() == b.len(),
        forall|i: int| 0 <= i < a.len() ==> #[trigger] a[i].id == b[i].id,
    ensures
        position_of(a, id) == position_of(b, id),
{
    if exists|i: int| 0 <= i < a.len() && #[trigger] a[i].id == id {
        let w = choose|i: int| 0 <= i < a.len() && #[trigger] a[i].id == id;
        assert(b[w].id == id);
        lemma_first_position(a, id, w);
        lemma_first_position(b, id, w);
        let x = position_of(a, id)->0;
        let y = position_of(b, id)->0;
        if x < y {
            assert(b[x].id == a[x].id);
        } else if y < x {
            assert(a[y].id == b[y].id);
        }
    } else {
        if exists|i: int| 0 <= i < b.len() && #[trigger] b[i].id == id {
            let w = choose|i: int| 0 <= i < b.len() && #[trigger] b[i].id == id;
            assert(a[w].id == id);
        }
    }
}

/// Parameters with the same names, position by position, find a parameter
/// at the same place.
proof fn lemma_same_names(a: Seq<ParameterView>, b: Seq<ParameterView>, name: Seq<char>)
    requires
        a.len() == b.len(),
        forall|i: int| 0 <= i < a.len() ==> #[trigger] a[i].name == b[i].name,
    ensures
        parameter_position(a, name) == parameter_position(b, name),
{
    if exists|i: int| 0 <= i < a.len() && #[trigger] a[i].name == name {
        let w = choose|i: int| 0 <= i < a.len() && #[trigger] a[i].name == name;
        assert(b[w].name == name);
        lemma_first_parameter(a, name, w);
        lemma_first_parameter(b, name, w);
        let x = parameter_position(a, name)->0;
        let y = parameter_position(b, name)->0;
        if x < y {
            assert(b[x].name == a[x].name);
        } else if y < x {
            assert(a[y].name == b[y].name);
        }
    } else {
        if exists|i: int| 0 <= i < b.len() && #[trigger] b[i].name == name {
            let w = choose|i: int| 0 <= i < b.len() && #[trigger] b[i].name == name;
            assert(a[w].name == name);
        }
    }
}

/// Replacing a node by one with the same identifier finds every node at the
/// same place.
proof fn lemma_update_keeps_positions(nodes: Seq<NodeView>, p: int, n: NodeView, id: Seq<char>)
    requires
        0 <= p < nodes.len(),
        n.id == nodes[p].id,
    ensures
        position_of(nodes.update(p, n), id) == position_of(nodes, id),
{
    let after = nodes.update(p, n);
    assert forall|i: int| 0 <= i < nodes.len() implies #[trigger] nodes[i].id == after[i].id by {}
    lemma_same_ids(nodes, after, id);
}

/// Replacing a parameter by one with the same name finds every parameter at
/// the same place.
proof fn lemma_update_keeps_parameters(ps: Seq<ParameterView>, q: int, x: ParameterView, name: Seq<char>)
    requires
        0 <= q < ps.len(),
        x.name == ps[q].name,
    ensures
        parameter_position(ps.update(q, x), name) == parameter_position(ps, name),
{
    let after = ps.update(q, x);
    assert forall|i: int| 0 <= i < ps.len() implies #[trigger] ps[i].name == after[i].name by {}
    lemma_same_names(ps, after, name);
}

/// The first parameter called `name`, where there is one, is called so.
proof fn lemma_parameter_position_is_name(ps: Seq<ParameterView>, name: Seq<char>)
    ensures
        parameter_position(ps, name) matches Some(q) ==> 0 <= q < ps.len() && ps[q].name == name,
{
    if exists|i: int| 0 <= i < ps.len() && #[trigger] ps[i].name == name {
        let w = choose|i: int| 0 <= i < ps.len() && #[trigger] ps[i].name == name;
        lemma_first_parameter(ps, name, w);
    }
}

/// After an edit the same node and parameter are found, and the parameter
/// is the edited one.
proof fn lemma_edit_found_again(
    nodes: Seq<NodeView>,
    node_id: Seq<char>,
    name: Seq<char>,
    value: Option<ParameterValue>,
    keyframe: Option<Keyframe>,
)
    requires
        parameter_refusal(nodes, node_id, name) is None,
    ensures
        parameter_refusal(after_edit(nodes, node_id, name, value, keyframe), node_id, name) is None,
        target(after_edit(nodes, node_id, name, value, keyframe), node_id, name) == edited(
            target(nodes, node_id, name),
            value,
            keyframe,
        ),
{
    lemma_position_is_id(nodes, node_id);
    let p = position_of(nodes, node_id)->0;
    let ps = nodes[p].parameters;
    lemma_parameter_position_is_name(ps, name);
    let q = parameter_position(ps, name)->0;
    let fresh = edited(ps[q], value, keyframe);
    let n2 = with_parameter(nodes[p], q, fresh);
    lemma_update_keeps_positions(nodes, p, n2, node_id);
    lemma_update_keeps_parameters(ps, q, fresh, name);
    let after = nodes.update(p, n2);
    assert(after == after_edit(nodes, node_id, name, value, keyframe));
    assert(after[p].parameters == ps.update(q, fresh));
}

/// Reading a parameter that has no keyframes, after a new value was set,
/// gives that value, at every time.
pub proof fn lemma_set_value_is_read_back(
    nodes: Seq<NodeView>,
    node_id: Seq<char>,
    name: Seq<char>,
    value: ParameterValue,
    time: u64,
)
    requires
        parameter_refusal(nodes, node_id, name) is None,
        target(nodes, node_id, name).keyframes.len() == 0,
    ensures
        parameter_refusal(after_edit(nodes, node_id, name, Some(value), None), node_id, name) is None,
        value_at(target(after_edit(nodes, node_id, name, Some(value), None), node_id, name), time)
            == value_view(value),
{
    lemma_edit_found_again(nodes, node_id, name, Some(value), None);
}

/// Keyframes in time order form a total preorder.
proof fn lemma_keyframe_order_total()
    ensures
        total_preorder(keyframe_order()),
{
}

/// Adding a keyframe leaves a parameter's keyframes in order of time, and
/// they are the keyframes it had and the new one.
pub proof fn lemma_keyframes_stay_in_order(p: ParameterView, k: Keyframe)
    ensures
        sorted_by(edited(p, None, Some(k)).keyframes, keyframe_order()),
        edited(p, None, Some(k)).keyframes.to_multiset() == p.keyframes.push(keyframe_view(k)).to_multiset(),
{
    lemma_keyframe_order_total();
    lemma_stable_sorted(p.keyframes.push(keyframe_view(k)), keyframe_order());
}

/// How many keyframes lead at or before `time`, when the first `n` do and
/// the next does not.
proof fn lemma_reached_run(ks: Seq<KeyframeView>, time: u64, i: nat, n: nat)
    requires
        i <= n <= ks.len(),
        forall|j: int| i <= j < n ==> f64_le(#[trigger] ks[j].time, time),
        n == ks.len() || !f64_le(ks[n as int].time, time),
    ensures
        reached(ks, time, i) == n,
    decreases n - i,
{
    if i < n {
        lemma_reached_run(ks, time, i + 1, n);
    }
}

/// Reading a parameter at the time of a keyframe just added gives the
/// keyframe's value, where every keyframe time is finite and no keyframe is
/// at `+0` when the new one is at `-0` (the two zeros compare equal).
pub proof fn lemma_keyframe_is_read_back(p: ParameterView, k: Keyframe)
    requires
        finite_bits(k.time),
        forall|i: int| 0 <= i < p.keyframes.len() ==> finite_bits(#[trigger] p.keyframes[i].time),
        k.time == 0x8000_0000_0000_0000 ==> forall|i: int| 0 <= i < p.keyframes.len() ==> #[trigger] p.keyframes[i].time != 0,
    ensures
        value_at(edited(p, None, Some(k)), k.time) == value_view(k.value),
{
    broadcast use vstd::seq_lib::group_to_multiset_ensures;

    let le = keyframe_order();
    let kv = keyframe_view(k);
    let ks = p.keyframes;
    let t = k.time;
    lemma_keyframe_order_total();
    assert(ks.push(kv).drop_last() =~= ks);
    let sorted = stable_sorted(ks, le);
    lemma_stable_sorted(ks, le);
    let r = insert_sorted(sorted, kv, le);
    assert(edited(p, None, Some(k)).keyframes == r);
    let at = lemma_insert_sorted_place(sorted, kv, le);
    lemma_insert_sorted_keeps(sorted, kv, le);
    assert forall|i: int| 0 <= i < r.len() && r[i] != kv implies #[trigger] finite_bits(r[i].time) && (t
        == 0x8000_0000_0000_0000 ==> r[i].time != 0) by {
        assert(r.to_multiset().count(r[i]) > 0);
        assert(sorted.to_multiset().count(r[i]) > 0);
        assert(ks.to_multiset().count(r[i]) > 0);
        let j = choose|j: int| 0 <= j < ks.len() && ks[j] == r[i];
        assert(finite_bits(ks[j].time));
    }
    assert forall|j: int| 0 <= j < at + 1 implies f64_le(#[trigger] r[j].time, t) by {
        if j < at {
            assert(le(r[j], kv));
            if r[j] != kv {
                assert(finite_bits(r[j].time));
            }
        }
    }
    if at + 1 < r.len() {
        let n = r[at + 1];
        assert(!le(n, kv));
        assert(n != kv);
        assert(finite_bits(n.time));
        assert(n.time % 0x8000_0000_0000_0000 == 0 ==> n.time == 0 || n.time == 0x8000_0000_0000_0000);
        assert(t % 0x8000_0000_0000_0000 == 0 ==> t == 0 || t == 0x8000_0000_0000_0000);
    }
    lemma_reached_run(r, t, 0, (at + 1) as nat);
}

/// Reading a parameter at the time of a keyframe that `add_keyframe` just
/// added gives the keyframe's value, under the conditions of
/// `lemma_keyframe_is_read_back`.
pub proof fn lemma_added_keyframe_is_read_back(
    nodes: Seq<NodeView>,
    node_id: Seq<char>,
    name: Seq<char>,
    time: u64,
    value: ParameterValue,
)
    requires
        parameter_refusal(nodes, node_id, name) is None,
        finite_bits(time),
        forall|i: int|
            0 <= i < target(nodes, node_id, name).keyframes.len() ==> finite_bits(
                #[trigger] target(nodes, node_id, name).keyframes[i].time,
            ),
        time == 0x8000_0000_0000_0000 ==> forall|i: int|
            0 <= i < target(nodes, node_id, name).keyframes.len() ==> #[trigger] target(
                nodes,
                node_id,
                name,
            ).keyframes[i].time != 0,
    ensures
        ({
            let k = Keyframe { time, value, interpolation: Interpolation::Linear };
            let after = after_edit(nodes, node_id, name, None, Some(k));
            &&& parameter_refusal(after, node_id, name) is None
            &&& value_at(target(after, node_id, name), time) == value_view(value)
        }),
{
    let k = Keyframe { time, value, interpolation: Interpolation::Linear };
    lemma_edit_found_again(nodes, node_id, name, None, Some(k));
    lemma_keyframe_is_read_back(target(nodes, node_id, name), k);
}

} // verus!
