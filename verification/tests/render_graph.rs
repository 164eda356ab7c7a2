use editorcito::edl::assign_reels;
use editorcito::render_graph::{NodeType, ParameterValue, RenderGraph};

fn float_of(value: &ParameterValue) -> Option<f64> {
    match value {
        ParameterValue::Float(bits) => Some(f64::from_bits(*bits)),
        _ => None,
    }
}

#[test]
fn test_add_node() {
    let mut graph = RenderGraph::new();
    let id = graph.add_node(NodeType::Transform, "Transform 1");
    assert_eq!(graph.node_count(), 1);
    assert!(id.starts_with("node_"));
}

#[test]
fn test_set_parameter() {
    let mut graph = RenderGraph::new();
    let id = graph.add_node(NodeType::Transform, "T1");

    graph.set_parameter(&id, "scale", ParameterValue::Float(2.0f64.to_bits())).unwrap();
    let node = graph.get_node(&id).unwrap();
    let param = node.parameters.iter().find(|p| p.name == "scale").unwrap();
    if let ParameterValue::Float(v) = &param.value {
        assert_eq!(f64::from_bits(*v), 2.0);
    } else {
        panic!("Expected Float");
    }
}

#[test]
fn test_keyframe_evaluation() {
    let mut graph = RenderGraph::new();
    let id = graph.add_node(NodeType::Transform, "T1");

    graph.add_keyframe(&id, "scale", 0.0f64.to_bits(), ParameterValue::Float(1.0f64.to_bits())).unwrap();
    graph.add_keyframe(&id, "scale", 10.0f64.to_bits(), ParameterValue::Float(2.0f64.to_bits())).unwrap();

    let val = graph.evaluate_parameter_at(&id, "scale", 5.0f64.to_bits()).unwrap();
    if let ParameterValue::Float(v) = val {
        assert_eq!(f64::from_bits(v), 1.0);
    }
}

#[test]
fn test_connect_nodes() {
    let mut graph = RenderGraph::new();
    let input = graph.add_node(NodeType::Input, "Input");
    let transform = graph.add_node(NodeType::Transform, "Transform");

    graph.connect(&input, &transform).unwrap();
    let input_node = graph.get_node(&input).unwrap();
    assert!(input_node.outputs[0].connected_to.is_some());
    graph.disconnect(&input).unwrap();
    assert!(graph.get_node(&transform).unwrap().inputs[0].connected_to.is_none());
}

#[test]
fn test_remove_node() {
    let mut graph = RenderGraph::new();
    let id = graph.add_node(NodeType::Blur, "Blur 1");
    assert_eq!(graph.node_count(), 1);

    graph.remove_node(&id);
    assert_eq!(graph.node_count(), 0);
}

#[test]
fn node_identifiers_count_up_and_survive_removals() {
    let mut graph = RenderGraph::default();
    let first = graph.add_node(NodeType::Input, "a");
    let second = graph.add_node(NodeType::Output, "b");
    assert_eq!(first, "node_0");
    assert_eq!(second, "node_1");
    let removed = graph.remove_node(&first).unwrap();
    assert_eq!(removed.id, "node_0");
    assert!(graph.remove_node(&first).is_none());
    let third = graph.add_node(NodeType::Blur, "c");
    assert_eq!(third, "node_2");
    assert_eq!(graph.nodes().len(), 2);
}

#[test]
fn ports_and_parameters_follow_the_node_type() {
    let mut graph = RenderGraph::new();
    let input = graph.add_node(NodeType::Input, "in");
    let output = graph.add_node(NodeType::Output, "out");
    let color = graph.add_node(NodeType::ColorCorrection, "cc");
    let blur = graph.add_node(NodeType::Blur, "blur");
    let lut = graph.add_node(NodeType::LUT, "lut");

    let node = graph.get_node(&input).unwrap();
    assert!(node.inputs.is_empty());
    assert_eq!(node.outputs.len(), 1);
    assert_eq!(node.outputs[0].name, "output");
    let node = graph.get_node(&output).unwrap();
    assert_eq!(node.inputs.len(), 1);
    assert_eq!(node.inputs[0].name, "input");
    assert!(node.outputs.is_empty());
    assert!(node.enabled);
    assert_eq!(node.label, "out");

    let names: Vec<&str> = graph.get_node(&color).unwrap().parameters.iter().map(|p| p.name.as_str()).collect();
    assert_eq!(names, vec!["exposure", "contrast", "saturation", "temperature"]);
    let saturation = &graph.get_node(&color).unwrap().parameters[2];
    assert_eq!(float_of(&saturation.value), Some(1.0));
    assert_eq!(f64::from_bits(saturation.max), 3.0);
    let radius = &graph.get_node(&blur).unwrap().parameters[0];
    assert_eq!(radius.name, "radius");
    assert_eq!(f64::from_bits(radius.max), 100.0);
    let transform = graph.add_node(NodeType::Transform, "t");
    let scale = &graph.get_node(&transform).unwrap().parameters[2];
    assert_eq!(f64::from_bits(scale.min), 0.01);
    assert!(graph.get_node(&lut).unwrap().parameters.is_empty());
}

#[test]
fn connecting_refuses_what_cannot_be_linked() {
    let mut graph = RenderGraph::new();
    let input = graph.add_node(NodeType::Input, "in");
    let output = graph.add_node(NodeType::Output, "out");
    assert_eq!(graph.connect(&input, &input), Err("A node cannot connect to itself".to_string()));
    assert_eq!(graph.connect("node_9", &output), Err("Output node 'node_9' not found".to_string()));
    assert_eq!(graph.connect(&input, "node_9"), Err("Input node 'node_9' not found".to_string()));
    assert_eq!(graph.connect(&output, &input), Err("Output node has no outputs".to_string()));
    let blur = graph.add_node(NodeType::Blur, "blur");
    assert_eq!(graph.connect(&blur, &input), Err("Input node has no inputs".to_string()));
    assert_eq!(graph.disconnect("node_9"), Err("Node 'node_9' not found".to_string()));
}

#[test]
fn a_new_link_replaces_the_old_ones() {
    let mut graph = RenderGraph::new();
    let a = graph.add_node(NodeType::Input, "a");
    let b = graph.add_node(NodeType::Blur, "b");
    let c = graph.add_node(NodeType::Output, "c");
    graph.connect(&a, &b).unwrap();
    graph.connect(&a, &c).unwrap();
    assert_eq!(graph.get_node(&a).unwrap().outputs[0].connected_to.as_deref(), Some(c.as_str()));
    assert_eq!(graph.get_node(&c).unwrap().inputs[0].connected_to.as_deref(), Some(a.as_str()));
    assert!(graph.get_node(&b).unwrap().inputs[0].connected_to.is_none());
    graph.remove_node(&c);
    assert!(graph.get_node(&a).unwrap().outputs[0].connected_to.is_none());
}

#[test]
fn parameter_edits_name_what_is_missing() {
    let mut graph = RenderGraph::new();
    let id = graph.add_node(NodeType::Blur, "b");
    assert_eq!(
        graph.set_parameter("node_7", "radius", ParameterValue::Int(1)),
        Err("Node 'node_7' not found".to_string())
    );
    assert_eq!(
        graph.set_parameter(&id, "scale", ParameterValue::Int(1)),
        Err("Parameter 'scale' not found".to_string())
    );
    assert_eq!(
        graph.add_keyframe(&id, "radius", f64::NAN.to_bits(), ParameterValue::Int(1)),
        Err("Keyframe time must be finite".to_string())
    );
    assert_eq!(
        graph.add_keyframe(&id, "radius", f64::INFINITY.to_bits(), ParameterValue::Int(1)),
        Err("Keyframe time must be finite".to_string())
    );
    assert_eq!(
        graph.add_keyframe(&id, "size", 1.0f64.to_bits(), ParameterValue::Int(1)),
        Err("Parameter 'size' not found".to_string())
    );
    assert!(graph.evaluate_parameter_at(&id, "size", 0).is_none());
    assert!(graph.evaluate_parameter_at("node_7", "radius", 0).is_none());
}

#[test]
fn keyframes_are_read_in_time_order() {
    let mut graph = RenderGraph::new();
    let id = graph.add_node(NodeType::Blur, "b");
    let at = |t: f64| t.to_bits();
    graph.set_parameter(&id, "radius", ParameterValue::Float(7.0f64.to_bits())).unwrap();
    assert_eq!(float_of(&graph.evaluate_parameter_at(&id, "radius", at(3.0)).unwrap()), Some(7.0));

    graph.add_keyframe(&id, "radius", at(10.0), ParameterValue::Float(30.0f64.to_bits())).unwrap();
    graph.add_keyframe(&id, "radius", at(2.0), ParameterValue::Float(20.0f64.to_bits())).unwrap();
    graph.add_keyframe(&id, "radius", at(6.0), ParameterValue::Float(25.0f64.to_bits())).unwrap();
    let times: Vec<f64> = graph.get_node(&id).unwrap().parameters[0]
        .keyframes
        .iter()
        .map(|k| f64::from_bits(k.time))
        .collect();
    assert_eq!(times, vec![2.0, 6.0, 10.0]);

    let read = |g: &RenderGraph, t: f64| float_of(&g.evaluate_parameter_at(&id, "radius", at(t)).unwrap());
    assert_eq!(read(&graph, 0.0), Some(20.0));
    assert_eq!(read(&graph, 2.0), Some(20.0));
    assert_eq!(read(&graph, 5.9), Some(20.0));
    assert_eq!(read(&graph, 6.0), Some(25.0));
    assert_eq!(read(&graph, 100.0), Some(30.0));
    assert_eq!(read(&graph, f64::NAN), Some(20.0));

    graph.add_keyframe(&id, "radius", at(6.0), ParameterValue::Float(26.0f64.to_bits())).unwrap();
    assert_eq!(read(&graph, 6.0), Some(26.0));
}

#[test]
fn a_node_changed_in_place_keeps_its_place() {
    let mut graph = RenderGraph::new();
    let id = graph.add_node(NodeType::Crop, "crop");
    graph.get_node_mut(&id).unwrap().enabled = false;
    assert!(!graph.get_node(&id).unwrap().enabled);
    assert!(graph.get_node_mut("node_5").is_none());
}

#[test]
fn every_medium_gets_one_distinct_reel() {
    let sources = vec![
        "/medios/Entrevista.mov".to_string(),
        "/medios/B roll.mov".to_string(),
        "/medios/Entrevista.mov".to_string(),
        "/otra/ENTREVISTA.wav".to_string(),
        "/medios/Entrevistado largo.mov".to_string(),
        "/medios/---.mov".to_string(),
    ];
    let reels = assign_reels(&sources);
    let pairs: Vec<(&str, &str)> = reels.iter().map(|(s, r)| (s.as_str(), r.as_str())).collect();
    assert_eq!(
        pairs,
        vec![
            ("/medios/Entrevista.mov", "ENTREVI"),
            ("/medios/B roll.mov", "BROLL"),
            ("/otra/ENTREVISTA.wav", "ENTREV2"),
            ("/medios/Entrevistado largo.mov", "ENTREV3"),
            ("/medios/---.mov", "AX"),
        ]
    );
}

#[test]
fn reels_keep_seven_characters_past_the_ninth_collision() {
    let sources: Vec<String> = (0..12).map(|k| format!("/cinta{k}/Entrevista.mov")).collect();
    let reels = assign_reels(&sources);
    let names: Vec<&str> = reels.iter().map(|(_, r)| r.as_str()).collect();
    assert_eq!(
        names,
        vec![
            "ENTREVI", "ENTREV2", "ENTREV3", "ENTREV4", "ENTREV5", "ENTREV6", "ENTREV7", "ENTREV8", "ENTREV9",
            "ENTRE10", "ENTRE11", "ENTRE12",
        ]
    );
    assert!(names.iter().all(|r| r.len() <= 7));
}

#[test]
fn reels_come_from_the_file_stem_not_the_folders() {
    let sources = vec![
        "/medios.v2/Toma".to_string(),
        "/medios/.oculto".to_string(),
        "/medios/plano.final.mov".to_string(),
        "/carpeta larga/Sonido.wav".to_string(),
    ];
    let reels = assign_reels(&sources);
    let names: Vec<&str> = reels.iter().map(|(_, r)| r.as_str()).collect();
    assert_eq!(names, vec!["TOMA", "OCULTO", "PLANOFI", "SONIDO"]);
}
