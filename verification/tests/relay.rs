use shadow_of_truth::message::{Message, Transform};
use shadow_of_truth::server::ServerContext;

fn spawn_msg(id: &str, scene: &str, drawable: &str) -> Message {
    Message::Spawn {
        id: id.to_string(),
        scene: scene.to_string(),
        drawable: drawable.to_string(),
        behavior: None,
    }
}

fn login(ctx: &mut ServerContext, conn: usize, id: &str) {
    let out = ctx.handle_message(conn, Message::Login { id: id.to_string() });
    assert!(out.is_empty());
}

fn join(ctx: &mut ServerContext, conn: usize, scene: &str) -> Vec<Message> {
    ctx.handle_message(conn, Message::Join { scene: scene.to_string() })
        .into_iter()
        .map(|o| {
            assert_eq!(o.conn, conn);
            o.msg
        })
        .collect()
}

#[test]
fn spawn_records_ownership_and_replays_to_late_joiner() {
    let mut ctx = ServerContext::new();
    let a = ctx.new_connection();
    login(&mut ctx, a, "A");
    assert!(join(&mut ctx, a, "r1").is_empty());

    let out = ctx.handle_message(a, spawn_msg("o1", "r1", "cube"));
    assert_eq!(out.len(), 1);
    assert_eq!(out[0].conn, a);
    assert!(matches!(&out[0].msg, Message::Spawn { id, .. } if id == "o1"));
    assert!(ctx.conn_owns(a, &"o1".to_string()));

    let b = ctx.new_connection();
    login(&mut ctx, b, "B");
    let replay = join(&mut ctx, b, "r1");
    assert_eq!(replay.len(), 1);
    match &replay[0] {
        Message::Spawn { id, scene, drawable, .. } => {
            assert_eq!(id, "o1");
            assert_eq!(scene, "r1");
            assert_eq!(drawable, "cube");
        }
        _ => panic!("replay must be the cached spawn"),
    }
}

#[test]
fn transform_update_is_relayed_verbatim_to_the_room() {
    let mut ctx = ServerContext::new();
    let a = ctx.new_connection();
    login(&mut ctx, a, "A");
    join(&mut ctx, a, "r1");
    let b = ctx.new_connection();
    login(&mut ctx, b, "B");
    join(&mut ctx, b, "r1");

    let bits = [1.0f32.to_bits(); 16];
    let out = ctx.handle_message(a, Message::TransformUpdate {
        scene: "r1".to_string(),
        id: "o1".to_string(),
        t: Transform { bits },
    });
    assert_eq!(out.len(), 2);
    let mut recipients: Vec<usize> = out.iter().map(|o| o.conn).collect();
    recipients.sort();
    assert_eq!(recipients, vec![a, b]);
    for o in &out {
        assert!(matches!(&o.msg, Message::TransformUpdate { id, t, .. }
            if id == "o1" && t.bits == bits));
    }
}

#[test]
fn destroy_for_unknown_id_is_a_no_op() {
    let mut ctx = ServerContext::new();
    let a = ctx.new_connection();
    login(&mut ctx, a, "A");
    join(&mut ctx, a, "r1");
    ctx.handle_message(a, spawn_msg("o1", "r1", "cube"));

    let out = ctx.handle_message(a, Message::Destroy {
        id: "ghost".to_string(),
        scene: "r1".to_string(),
    });
    // Relayed per the trust model, but nothing of the room's state changes.
    assert_eq!(out.len(), 1);
    assert!(ctx.conn_owns(a, &"o1".to_string()));
    let cached = ctx.send_spawn_cache(&"r1".to_string());
    assert_eq!(cached.len(), 1);
    assert!(matches!(&cached[0], Message::Spawn { id, .. } if id == "o1"));
}

#[test]
fn disconnect_purges_cache_and_tells_the_room() {
    let mut ctx = ServerContext::new();
    let a = ctx.new_connection();
    login(&mut ctx, a, "A");
    join(&mut ctx, a, "r1");
    ctx.handle_message(a, spawn_msg("oa", "r1", "cube"));
    ctx.handle_message(a, spawn_msg("ob", "r1", "cube"));
    let b = ctx.new_connection();
    login(&mut ctx, b, "B");
    assert_eq!(join(&mut ctx, b, "r1").len(), 2);

    let out = ctx.disconnect_client(a);
    // One synthetic destroy per owned object, each to the one remaining member.
    assert_eq!(out.len(), 2);
    let mut destroyed: Vec<String> = out
        .iter()
        .map(|o| {
            assert_eq!(o.conn, b);
            match &o.msg {
                Message::Destroy { id, scene } => {
                    assert_eq!(scene, "r1");
                    id.clone()
                }
                _ => panic!("disconnect must synthesize destroys"),
            }
        })
        .collect();
    destroyed.sort();
    assert_eq!(destroyed, vec!["oa".to_string(), "ob".to_string()]);

    // A client joining afterwards sees an empty world.
    let c = ctx.new_connection();
    login(&mut ctx, c, "C");
    assert!(join(&mut ctx, c, "r1").is_empty());
}

#[test]
fn disconnect_tells_the_room_even_without_a_cache_entry() {
    // A owns objects it spawned naming r2 while belonging to r1, so r1
    // has no spawn-cache entry; its members must still hear the
    // synthetic destroys when A disconnects.
    let mut ctx = ServerContext::new();
    let a = ctx.new_connection();
    login(&mut ctx, a, "A");
    join(&mut ctx, a, "r1");
    ctx.handle_message(a, spawn_msg("ox", "r2", "cube"));
    let b = ctx.new_connection();
    login(&mut ctx, b, "B");
    join(&mut ctx, b, "r1");

    assert!(ctx.conn_owns(a, &"ox".to_string()));
    let out = ctx.disconnect_client(a);
    assert_eq!(out.len(), 1);
    assert_eq!(out[0].conn, b);
    assert!(matches!(&out[0].msg, Message::Destroy { id, scene }
        if id == "ox" && scene == "r1"));
}

#[test]
fn racing_spawns_stay_with_their_spawners() {
    let mut ctx = ServerContext::new();
    let a = ctx.new_connection();
    login(&mut ctx, a, "A");
    join(&mut ctx, a, "r1");
    let b = ctx.new_connection();
    login(&mut ctx, b, "B");
    join(&mut ctx, b, "r1");

    let out_a = ctx.handle_message(a, spawn_msg("oa", "r1", "cube"));
    let out_b = ctx.handle_message(b, spawn_msg("ob", "r1", "cube"));
    // Both broadcasts reached both members.
    assert_eq!(out_a.len(), 2);
    assert_eq!(out_b.len(), 2);
    // Exactly the spawner owns each object.
    assert!(ctx.conn_owns(a, &"oa".to_string()));
    assert!(!ctx.conn_owns(b, &"oa".to_string()));
    assert!(ctx.conn_owns(b, &"ob".to_string()));
    assert!(!ctx.conn_owns(a, &"ob".to_string()));
    // Both live in the cache.
    assert_eq!(ctx.send_spawn_cache(&"r1".to_string()).len(), 2);
}

#[test]
fn destroy_from_a_non_owner_is_relayed_by_design() {
    // The server trusts the sender: it relays the destroy and drops the
    // object from the cache without checking who spawned it. This is the
    // protocol's documented trust boundary for cooperative sessions.
    let mut ctx = ServerContext::new();
    let a = ctx.new_connection();
    login(&mut ctx, a, "A");
    join(&mut ctx, a, "r1");
    ctx.handle_message(a, spawn_msg("oa", "r1", "cube"));
    let b = ctx.new_connection();
    login(&mut ctx, b, "B");
    join(&mut ctx, b, "r1");

    let out = ctx.handle_message(b, Message::Destroy {
        id: "oa".to_string(),
        scene: "r1".to_string(),
    });
    assert_eq!(out.len(), 2);
    for o in &out {
        assert!(matches!(&o.msg, Message::Destroy { id, .. } if id == "oa"));
    }
    // A's ownership record is untouched; the cache entry is gone.
    assert!(ctx.conn_owns(a, &"oa".to_string()));
    assert!(ctx.send_spawn_cache(&"r1".to_string()).is_empty());
}

#[test]
fn later_join_moves_membership() {
    let mut ctx = ServerContext::new();
    let a = ctx.new_connection();
    login(&mut ctx, a, "A");
    join(&mut ctx, a, "r1");
    join(&mut ctx, a, "r2");
    let b = ctx.new_connection();
    login(&mut ctx, b, "B");
    join(&mut ctx, b, "r1");

    // A now belongs to r2 only: traffic in r1 reaches just B.
    let out = ctx.handle_message(b, spawn_msg("ob", "r1", "cube"));
    assert_eq!(out.len(), 1);
    assert_eq!(out[0].conn, b);
}

#[test]
fn leave_is_accepted_and_ignored() {
    let mut ctx = ServerContext::new();
    let a = ctx.new_connection();
    login(&mut ctx, a, "A");
    join(&mut ctx, a, "r1");
    let out = ctx.handle_message(a, Message::Leave { scene: "r1".to_string() });
    assert!(out.is_empty());
}

#[test]
fn relay_to_unknown_room_reaches_nobody() {
    let ctx = ServerContext::new();
    let out = ctx.relay_message(&"nowhere".to_string(), &Message::Join {
        scene: "nowhere".to_string(),
    });
    assert!(out.is_empty());
}
