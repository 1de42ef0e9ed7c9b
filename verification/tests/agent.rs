use shadow_of_truth::message::{Message, Transform};
use shadow_of_truth::network::{Network, SpawnError};
use shadow_of_truth::scene::SceneGraph;

fn scene_with_cube() -> SceneGraph {
    let mut g = SceneGraph::new();
    g.add_drawable("cube".to_string(), 7);
    g
}

#[test]
fn generated_ids_are_high_entropy_length() {
    let net = Network::new();
    match net.login_message() {
        Message::Login { id } => {
            assert_eq!(id.chars().count(), 32);
        }
        _ => panic!("login must carry the id"),
    }
}

#[test]
fn two_agents_pick_different_ids() {
    let m1 = Network::new().login_message();
    let m2 = Network::new().login_message();
    match (m1, m2) {
        (Message::Login { id: a }, Message::Login { id: b }) => assert_ne!(a, b),
        _ => panic!("login must carry the id"),
    }
}

#[test]
fn own_spawn_echo_fulfills_the_waiting_caller() {
    let mut net = Network::new();
    let mut g = scene_with_cube();
    let m = net.begin_spawn(&"r1".to_string(), &"cube".to_string(), None);
    let id = match &m {
        Message::Spawn { id, .. } => id.clone(),
        _ => panic!("begin_spawn must build a spawn"),
    };
    assert_eq!(id.chars().count(), 32);
    // Nothing to collect until the echo arrives.
    assert_eq!(net.take_spawn_result(&id), None);

    let (node, is_owner) = net
        .handle_spawn(&mut g, &id, &"r1".to_string(), &"cube".to_string())
        .expect("drawable is registered");
    assert!(is_owner);
    assert!(net.owns(&id));
    assert_eq!(net.synced_node(&id), Some(node));
    // The blocked caller wakes with the very node that was inserted.
    assert_eq!(net.take_spawn_result(&id), Some(node));
    assert_eq!(net.take_spawn_result(&id), None);
}

#[test]
fn someone_elses_spawn_is_mirrored_not_owned() {
    let mut net = Network::new();
    let mut g = scene_with_cube();
    let id = "remote-object".to_string();
    let (node, is_owner) = net
        .handle_spawn(&mut g, &id, &"r1".to_string(), &"cube".to_string())
        .expect("drawable is registered");
    assert!(!is_owner);
    assert!(!net.owns(&id));
    assert_eq!(net.synced_node(&id), Some(node));
}

#[test]
fn missing_drawable_fails_the_spawn() {
    let mut net = Network::new();
    let mut g = SceneGraph::new();
    let m = net.begin_spawn(&"r1".to_string(), &"slab".to_string(), None);
    let id = match &m {
        Message::Spawn { id, .. } => id.clone(),
        _ => panic!("begin_spawn must build a spawn"),
    };
    let before = g.node_count_exec();
    let r = net.handle_spawn(&mut g, &id, &"r1".to_string(), &"slab".to_string());
    assert!(matches!(r, Err(SpawnError::DrawableNotFound)));
    // No half-built node, and the pending request is failed, not leaked.
    assert_eq!(g.node_count_exec(), before);
    assert_eq!(net.take_spawn_result(&id), None);
}

#[test]
fn failed_spawn_is_distinguishable_from_a_pending_one() {
    let mut net = Network::new();
    let mut g = SceneGraph::new();
    let m = net.begin_spawn(&"r1".to_string(), &"slab".to_string(), None);
    let id = match &m {
        Message::Spawn { id, .. } => id.clone(),
        _ => unreachable!(),
    };
    // Still pending before the echo.
    assert!(net.has_pending(&id));
    // The echo fails on the missing drawable: the entry is removed, so a
    // waiter can fail fast instead of sitting out a timeout.
    assert!(net.handle_spawn(&mut g, &id, &"r1".to_string(), &"slab".to_string()).is_err());
    assert!(!net.has_pending(&id));
}

#[test]
fn nodes_ok_spots_a_foreign_graph() {
    let mut net = Network::new();
    let mut g = scene_with_cube();
    let id = "remote-object".to_string();
    net.handle_spawn(&mut g, &id, &"r1".to_string(), &"cube".to_string())
        .unwrap();
    assert!(net.nodes_ok(&g));
    // Against a graph that never held the node, the check fails.
    let other = SceneGraph::new();
    assert!(!net.nodes_ok(&other));
}

#[test]
fn inbound_update_moves_a_mirrored_node() {
    let mut net = Network::new();
    let mut g = scene_with_cube();
    let id = "remote-object".to_string();
    let (node, _) = net
        .handle_spawn(&mut g, &id, &"r1".to_string(), &"cube".to_string())
        .unwrap();
    let bits = [1.0f32.to_bits(); 16];
    net.handle_transform_update(&mut g, &id, Transform { bits });
    assert_eq!(g.get_transform(node).bits, bits);
}

#[test]
fn inbound_update_never_overwrites_an_owned_node() {
    let mut net = Network::new();
    let mut g = scene_with_cube();
    let m = net.begin_spawn(&"r1".to_string(), &"cube".to_string(), None);
    let id = match &m {
        Message::Spawn { id, .. } => id.clone(),
        _ => unreachable!(),
    };
    let (node, _) = net
        .handle_spawn(&mut g, &id, &"r1".to_string(), &"cube".to_string())
        .unwrap();
    let before = g.get_transform(node).bits;
    net.handle_transform_update(&mut g, &id, Transform { bits: [5u32; 16] });
    assert_eq!(g.get_transform(node).bits, before);
}

#[test]
fn update_for_unknown_id_is_dropped() {
    let net = Network::new();
    let mut g = scene_with_cube();
    let before = g.node_count_exec();
    net.handle_transform_update(&mut g, &"never-spawned".to_string(), Transform {
        bits: [3u32; 16],
    });
    assert_eq!(g.node_count_exec(), before);
}

#[test]
fn destroy_disposes_and_forgets_the_node() {
    let mut net = Network::new();
    let mut g = scene_with_cube();
    let id = "remote-object".to_string();
    let (node, _) = net
        .handle_spawn(&mut g, &id, &"r1".to_string(), &"cube".to_string())
        .unwrap();
    net.handle_destroy(&mut g, &id);
    assert_eq!(net.synced_node(&id), None);
    assert!(!net.owns(&id));
    assert!(g.is_disposed(node));
    // A second destroy for the same id is a silent no-op.
    net.handle_destroy(&mut g, &id);
}

#[test]
fn periodic_push_reports_every_owned_transform() {
    let mut net = Network::new();
    let mut g = scene_with_cube();
    let m = net.begin_spawn(&"r1".to_string(), &"cube".to_string(), None);
    let id = match &m {
        Message::Spawn { id, .. } => id.clone(),
        _ => unreachable!(),
    };
    let (node, _) = net
        .handle_spawn(&mut g, &id, &"r1".to_string(), &"cube".to_string())
        .unwrap();
    let bits = [2.5f32.to_bits(); 16];
    g.set_transform(node, Transform { bits });

    assert!(net.nodes_ok(&g));
    let msgs = net.transform_updates(&g);
    assert_eq!(msgs.len(), 1);
    match &msgs[0] {
        Message::TransformUpdate { scene, id: mid, t } => {
            assert_eq!(scene, "r1");
            assert_eq!(mid, &id);
            assert_eq!(t.bits, bits);
        }
        _ => panic!("push must send transform updates"),
    }
}

#[test]
fn explicit_push_reads_the_node() {
    let mut net = Network::new();
    let mut g = scene_with_cube();
    let id = "remote-object".to_string();
    let (node, _) = net
        .handle_spawn(&mut g, &id, &"r1".to_string(), &"cube".to_string())
        .unwrap();
    let bits = [4.0f32.to_bits(); 16];
    g.set_transform(node, shadow_of_truth::message::Transform { bits });
    match net.update_message(&g, &"r1".to_string(), node) {
        Message::TransformUpdate { scene, id: mid, t } => {
            assert_eq!(scene, "r1");
            assert_eq!(mid, id);
            assert_eq!(t.bits, bits);
        }
        _ => panic!("explicit push must build a transform update"),
    }
}

#[test]
fn abort_spawn_clears_the_pending_request() {
    let mut net = Network::new();
    let m = net.begin_spawn(&"r1".to_string(), &"cube".to_string(), None);
    let id = match &m {
        Message::Spawn { id, .. } => id.clone(),
        _ => unreachable!(),
    };
    net.abort_spawn(&id);
    assert_eq!(net.take_spawn_result(&id), None);
}

#[test]
fn retry_backoff_is_linear_and_bounded() {
    assert_eq!(Network::retry_delay(1), Some(10));
    assert_eq!(Network::retry_delay(2), Some(20));
    assert_eq!(Network::retry_delay(3), Some(30));
    assert_eq!(Network::retry_delay(4), None);
}

#[test]
fn shutdown_stops_the_loops() {
    let mut net = Network::new();
    assert!(net.is_running());
    net.shutdown();
    assert!(!net.is_running());
}
