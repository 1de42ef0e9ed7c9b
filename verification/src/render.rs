//! Plain records the renderer side fills in and reads back: shader
//! attribute and uniform locations, and the handles of a shadow map pass.
//! The GL calls that produce these values stay outside; the replication
//! core never reads them.

use vstd::prelude::*;

verus! {

/// The uniform locations of one light.
pub struct LightLoc {
    pub position: i32,
    pub ambient: i32,
    pub diffuse: i32,
    pub specular: i32,
}

/// The uniform locations the draw pass binds.
pub struct DrawUniformLocations {
    pub light: LightLoc,
    pub shadow_map: i32,
    pub mvp: i32,
    pub light_mvp: i32,
}

/// The material attribute locations of the draw shader.
#[derive(Clone, Debug)]
pub struct MaterialLoc {
    pub ambient: u32,
    pub diffuse: u32,
    pub specular: u32,
    pub shininess: u32,
}

/// The vertex attribute locations of the draw shader.
#[derive(Clone, Debug)]
pub struct DrawAttribLocations {
    pub material: MaterialLoc,
    pub position: u32,
    pub normal: u32,
    pub texcoords: u32,
    pub t0: u32,
}

/// The framebuffer and depth texture of a shadow map pass, with its size.
pub struct Shadow {
    pub fbo: u32,
    pub depth_map: u32,
    pub width: u32,
    pub height: u32,
}

} // verus!
