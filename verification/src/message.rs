//! The tagged message union spoken between clients and the relay server.
//!
//! A transform travels on the wire as the raw bit patterns of its sixteen
//! float components; the replication layer never interprets them, it only
//! stores and forwards them, so they are carried here as plain `u32` words.

use vstd::prelude::*;

verus! {

/// A 4x4 transform as sixteen raw 32-bit words (the bit patterns of the
/// float components, column by column).
#[derive(Clone, Copy)]
pub struct Transform {
    pub bits: [u32; 16],
}

impl View for Transform {
    type V = Seq<u32>;

    open spec fn view(&self) -> Seq<u32> {
        self.bits@
    }
}

/// One protocol message.
pub enum Message {
    Login { id: String },
    Join { scene: String },
    Leave { scene: String },
    Spawn { id: String, scene: String, drawable: String, behavior: Option<String> },
    Destroy { id: String, scene: String },
    TransformUpdate { scene: String, id: String, t: Transform },
}

/// The mathematical shape of a message: every string as its character
/// sequence, the transform as its sixteen words.
pub enum MessageView {
    Login { id: Seq<char> },
    Join { scene: Seq<char> },
    Leave { scene: Seq<char> },
    Spawn { id: Seq<char>, scene: Seq<char>, drawable: Seq<char>, behavior: Option<Seq<char>> },
    Destroy { id: Seq<char>, scene: Seq<char> },
    TransformUpdate { scene: Seq<char>, id: Seq<char>, t: Seq<u32> },
}

impl View for Message {
    type V = MessageView;

    open spec fn view(&self) -> MessageView {
        match self {
            Message::Login { id } => MessageView::Login { id: id@ },
            Message::Join { scene } => MessageView::Join { scene: scene@ },
            Message::Leave { scene } => MessageView::Leave { scene: scene@ },
            Message::Spawn { id, scene, drawable, behavior } => MessageView::Spawn {
                id: id@,
                scene: scene@,
                drawable: drawable@,
                behavior: match behavior {
                    Some(b) => Some(b@),
                    None => None,
                },
            },
            Message::Destroy { id, scene } => MessageView::Destroy { id: id@, scene: scene@ },
            Message::TransformUpdate { scene, id, t } => MessageView::TransformUpdate {
                scene: scene@,
                id: id@,
                t: t@,
            },
        }
    }
}

/// A signed blob, as exchanged by the reserved key handshake: the
/// signature and the bytes it covers.
pub struct Signed {
    pub sign: Vec<u8>,
    pub data: Vec<u8>,
}

/// A control command of the reserved key handshake.
pub enum Command {
    Key { key: Vec<u8>, iv: Vec<u8> },
}

impl Clone for Message {
    fn clone(&self) -> (r: Self)
        ensures
            r@ == self@,
    {
        match self {
            Message::Login { id } => Message::Login { id: id.clone() },
            Message::Join { scene } => Message::Join { scene: scene.clone() },
            Message::Leave { scene } => Message::Leave { scene: scene.clone() },
            Message::Spawn { id, scene, drawable, behavior } => Message::Spawn {
                id: id.clone(),
                scene: scene.clone(),
                drawable: drawable.clone(),
                behavior: match behavior {
                    Some(b) => Some(b.clone()),
                    None => None,
                },
            },
            Message::Destroy { id, scene } => Message::Destroy {
                id: id.clone(),
                scene: scene.clone(),
            },
            Message::TransformUpdate { scene, id, t } => Message::TransformUpdate {
                scene: scene.clone(),
                id: id.clone(),
                t: *t,
            },
        }
    }
}

} // verus!
