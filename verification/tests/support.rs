use std::sync::{Arc, Mutex};

use shadow_of_truth::behavior::{from_lua, BehaviorExt};
use shadow_of_truth::collada::{parse_index_list, TriangelIndices, TriangleInput, Triangles};
use shadow_of_truth::config::Config;
use shadow_of_truth::error::MethatronError;
use shadow_of_truth::message::Transform;
use shadow_of_truth::pump::{Pump, Task};
use shadow_of_truth::render::{DrawAttribLocations, MaterialLoc};
use shadow_of_truth::scene::{identity_transform, SceneGraph};
use shadow_of_truth::server::AesKey;
use shadow_of_truth::smap::StrMap;
use shadow_of_truth::tracer;

#[test]
fn string_map_behaves_like_a_map() {
    let mut m: StrMap<u32> = StrMap::new();
    assert_eq!(m.len(), 0);
    assert!(!m.contains_key(&"a".to_string()));
    m.insert("a".to_string(), 1);
    m.insert("b".to_string(), 2);
    m.insert("a".to_string(), 3);
    assert_eq!(m.len(), 2);
    assert_eq!(m.get(&"a".to_string()), Some(&3));
    assert_eq!(m.get(&"b".to_string()), Some(&2));
    m.remove(&"a".to_string());
    assert_eq!(m.get(&"a".to_string()), None);
    assert_eq!(m.take(&"b".to_string()), Some(2));
    assert_eq!(m.len(), 0);
}

#[test]
fn tracer_measures_elapsed_nanoseconds() {
    let mut t = tracer::new();
    t.tracer.start("frame".to_string(), 1_000);
    assert!(t.tracer.is_open(&"frame".to_string()));
    assert_eq!(t.tracer.started_at(&"frame".to_string()), 1_000);
    let elapsed = t.tracer.stop(&"frame".to_string(), 3_500);
    assert_eq!(elapsed, 2_500);
    assert!(!t.tracer.is_open(&"frame".to_string()));
}

struct Append {
    tag: u32,
    log: Arc<Mutex<Vec<u32>>>,
}

impl Task for Append {
    fn call(&mut self) {
        self.log.lock().unwrap().push(self.tag);
    }
}

#[test]
fn pump_runs_jobs_in_order_and_drains() {
    let log = Arc::new(Mutex::new(Vec::new()));
    let mut pump: Pump<Append> = Pump::new();
    pump.exec(Append { tag: 1, log: Arc::clone(&log) });
    pump.exec(Append { tag: 2, log: Arc::clone(&log) });
    assert_eq!(pump.run(), 2);
    assert_eq!(*log.lock().unwrap(), vec![1, 2]);
    assert_eq!(pump.run(), 0);
}

#[test]
fn behaviors_keep_their_identity() {
    let b = from_lua("assets/behave.lua", 5);
    assert_eq!(b.id(), 5);
    b.on_load();
    b.on_update();
}

#[test]
fn errors_carry_their_message() {
    let e = MethatronError::new("drawable not found".to_string());
    assert_eq!(e.message(), "drawable not found");
}

#[test]
fn default_config_matches_the_documented_defaults() {
    let c = Config::default();
    assert_eq!(c.port, 3000);
    assert_eq!(c.private_key, "data/server.key");
}

#[test]
fn aes_key_copies_both_parts() {
    let key: Vec<u8> = (0u8..32).collect();
    let iv: Vec<u8> = (100u8..116).collect();
    let k = AesKey::new(key, iv);
    assert_eq!(k.key[0], 0);
    assert_eq!(k.key[31], 31);
    assert_eq!(k.iv[0], 100);
    assert_eq!(k.iv[15], 115);
}

#[test]
fn index_lists_parse_exactly() {
    assert_eq!(parse_index_list("12 345 0"), Some(vec![12, 345, 0]));
    assert_eq!(parse_index_list("7"), Some(vec![7]));
    assert_eq!(parse_index_list(""), None);
    assert_eq!(parse_index_list("1  2"), None);
    assert_eq!(parse_index_list("1 "), None);
    assert_eq!(parse_index_list("1 x"), None);
    assert_eq!(parse_index_list("184467440737095516160"), None);
}

fn input(semantic: &str, offset: u32) -> TriangleInput {
    TriangleInput {
        semantic: semantic.to_string(),
        source: format!("#{}", semantic),
        offset,
    }
}

#[test]
fn clean_indices_deinterleaves_vertex_and_normal() {
    let tri = Triangles {
        count: 2,
        inputs: vec![input("VERTEX", 0), input("NORMAL", 1), input("TEXCOORD", 2)],
        indices: TriangelIndices { body: "0 1 2 3 4 5".to_string() },
    };
    let clean = tri.clean_indices();
    assert_eq!(clean.len(), 2);
    assert_eq!((clean[0].vertex, clean[0].normal), (0, 1));
    assert_eq!((clean[1].vertex, clean[1].normal), (3, 4));
}

#[test]
fn scene_graph_attaches_and_disposes() {
    let mut g = SceneGraph::new();
    g.add_drawable("cube".to_string(), 11);
    assert_eq!(g.lookup_drawable(&"cube".to_string()), Some(11));
    assert_eq!(g.lookup_drawable(&"slab".to_string()), None);

    let n = g.new_node();
    g.attach(0, n);
    g.set_drawable(n, 11);
    assert!(!g.is_disposed(n));
    let t = g.get_transform(n);
    assert_eq!(t.bits[0], 1.0f32.to_bits());
    assert_eq!(t.bits[1], 0);

    g.set_transform(n, Transform { bits: [9u32; 16] });
    assert_eq!(g.get_transform(n).bits, [9u32; 16]);

    g.dispose(n);
    assert!(g.is_disposed(n));
    g.dispose(n);
    assert!(g.is_disposed(n));
}

#[test]
fn remove_child_detaches_only_a_real_child() {
    let mut g = SceneGraph::new();
    let n = g.new_node();
    let m = g.new_node();
    g.attach(0, n);
    g.attach(n, m);
    // m is not a child of the root: nothing happens.
    g.remove_child(0, m);
    // m is a child of n: it is detached.
    g.remove_child(n, m);
    g.attach(0, m);
}

#[test]
fn identity_transform_is_the_float_identity() {
    let t = identity_transform();
    for (i, b) in t.bits.iter().enumerate() {
        let expected = if i % 5 == 0 { 1.0f32 } else { 0.0f32 };
        assert_eq!(f32::from_bits(*b), expected);
    }
}

#[test]
fn render_locations_hold_their_fields() {
    let loc = DrawAttribLocations {
        material: MaterialLoc { ambient: 1, diffuse: 2, specular: 3, shininess: 4 },
        position: 5,
        normal: 6,
        texcoords: 7,
        t0: 8,
    };
    assert_eq!(loc.material.shininess, 4);
    assert_eq!(loc.t0, 8);
}
