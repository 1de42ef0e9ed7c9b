use shadow_of_truth::codec::{decode_message, encode_message, frame_message, message_wf};
use shadow_of_truth::message::{Message, Transform};

fn round_trip(m: Message) -> Message {
    assert!(message_wf(&m));
    let bytes = encode_message(&m);
    decode_message(&bytes).expect("a fresh encoding must decode")
}

#[test]
fn login_round_trip() {
    match round_trip(Message::Login { id: "client-1".to_string() }) {
        Message::Login { id } => assert_eq!(id, "client-1"),
        _ => panic!("wrong variant"),
    }
}

#[test]
fn join_round_trip() {
    match round_trip(Message::Join { scene: "r1".to_string() }) {
        Message::Join { scene } => assert_eq!(scene, "r1"),
        _ => panic!("wrong variant"),
    }
}

#[test]
fn leave_round_trip() {
    match round_trip(Message::Leave { scene: "lobby".to_string() }) {
        Message::Leave { scene } => assert_eq!(scene, "lobby"),
        _ => panic!("wrong variant"),
    }
}

#[test]
fn spawn_round_trip_with_behavior() {
    let m = Message::Spawn {
        id: "obj".to_string(),
        scene: "r1".to_string(),
        drawable: "cube".to_string(),
        behavior: Some("assets/behave.lua".to_string()),
    };
    match round_trip(m) {
        Message::Spawn { id, scene, drawable, behavior } => {
            assert_eq!(id, "obj");
            assert_eq!(scene, "r1");
            assert_eq!(drawable, "cube");
            assert_eq!(behavior, Some("assets/behave.lua".to_string()));
        }
        _ => panic!("wrong variant"),
    }
}

#[test]
fn spawn_round_trip_without_behavior() {
    let m = Message::Spawn {
        id: "obj".to_string(),
        scene: "r1".to_string(),
        drawable: "cube".to_string(),
        behavior: None,
    };
    match round_trip(m) {
        Message::Spawn { behavior, .. } => assert_eq!(behavior, None),
        _ => panic!("wrong variant"),
    }
}

#[test]
fn destroy_round_trip() {
    match round_trip(Message::Destroy { id: "obj".to_string(), scene: "r1".to_string() }) {
        Message::Destroy { id, scene } => {
            assert_eq!(id, "obj");
            assert_eq!(scene, "r1");
        }
        _ => panic!("wrong variant"),
    }
}

#[test]
fn transform_update_round_trip() {
    let mut bits = [0u32; 16];
    for (i, b) in bits.iter_mut().enumerate() {
        *b = (i as f32 * 0.5).to_bits();
    }
    let m = Message::TransformUpdate {
        scene: "r1".to_string(),
        id: "obj".to_string(),
        t: Transform { bits },
    };
    match round_trip(m) {
        Message::TransformUpdate { scene, id, t } => {
            assert_eq!(scene, "r1");
            assert_eq!(id, "obj");
            assert_eq!(t.bits, bits);
            assert_eq!(f32::from_bits(t.bits[2]), 1.0);
        }
        _ => panic!("wrong variant"),
    }
}

#[test]
fn unicode_ids_survive() {
    match round_trip(Message::Login { id: "zo\u{eb}-\u{1f600}".to_string() }) {
        Message::Login { id } => assert_eq!(id, "zo\u{eb}-\u{1f600}"),
        _ => panic!("wrong variant"),
    }
}

#[test]
fn login_exact_bytes() {
    let bytes = encode_message(&Message::Login { id: "a".to_string() });
    assert_eq!(bytes, vec![0u8, 1, 0, 0, 0, 97, 0, 0, 0]);
}

#[test]
fn destroy_exact_bytes() {
    let bytes = encode_message(&Message::Destroy { id: "a".to_string(), scene: "b".to_string() });
    assert_eq!(bytes, vec![4u8, 1, 0, 0, 0, 97, 0, 0, 0, 1, 0, 0, 0, 98, 0, 0, 0]);
}

#[test]
fn decode_rejects_empty() {
    assert!(decode_message(&Vec::new()).is_none());
}

#[test]
fn decode_rejects_unknown_tag() {
    assert!(decode_message(&vec![9u8, 0, 0, 0, 0]).is_none());
}

#[test]
fn decode_rejects_truncated_payload() {
    assert!(decode_message(&vec![0u8, 1, 0, 0, 0]).is_none());
}

#[test]
fn decode_rejects_trailing_bytes() {
    assert!(decode_message(&vec![0u8, 0, 0, 0, 0, 99]).is_none());
}

#[test]
fn decode_rejects_surrogate_scalar() {
    assert!(decode_message(&vec![0u8, 1, 0, 0, 0, 0x00, 0xd8, 0, 0]).is_none());
}

#[test]
fn frame_carries_length_prefix() {
    let m = Message::Join { scene: "r".to_string() };
    let payload = encode_message(&m);
    let framed = frame_message(&m).expect("frameable");
    assert_eq!(framed.len(), payload.len() + 4);
    assert_eq!(framed[0] as usize, payload.len());
    assert_eq!(&framed[1..4], &[0u8, 0, 0]);
    assert_eq!(&framed[4..], payload.as_slice());
}
