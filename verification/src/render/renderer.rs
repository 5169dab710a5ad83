//! Which bindings a draw call needs.
//!
//! Binding a shader or a material's textures is costly, so the renderer
//! remembers what the previous draw bound and binds again only what changed.
//! The driver calls themselves are made by the caller; this module decides.

use vstd::prelude::*;

verus! {

/// What the draws of a queue have bound so far.
#[derive(Clone, Copy, Debug, PartialEq, Eq, Structural)]
pub struct Bound {
    /// The identifier of the shader in use; 0 before the first draw.
    pub shader: u32,
    /// The identifier of the material whose textures are bound; `u32::MAX`
    /// when none are.
    pub material: u32,
}

/// What a draw has to bind before it draws.
#[derive(Clone, Copy, Debug, PartialEq, Eq, Structural)]
pub struct Rebind {
    /// The shader must be put in use and given the view and projection.
    pub shader: bool,
    /// The material's textures must be bound.
    pub textures: bool,
}

/// The material whose textures count as bound once a draw with the given
/// shader has dealt with the shader: putting another shader in use unbinds
/// them.
pub open spec fn material_after_shader(bound: Bound, shader: u32) -> u32 {
    if shader != bound.shader {
        u32::MAX
    } else {
        bound.material
    }
}

pub struct Renderer;

impl Renderer {
    pub fn new() -> (renderer: Renderer) {
        Renderer
    }

    /// Returns what counts as bound when a queue begins: shader 0 and no
    /// material.
    pub fn unbound(&self) -> (bound: Bound)
        ensures
            bound == (Bound { shader: 0, material: u32::MAX }),
    {
        Bound { shader: 0, material: u32::MAX }
    }

    /// Decides what a draw with the given shader and material has to bind,
    /// and records that it has been bound.
    ///
    /// The shader is bound again exactly if it differs from the one in use.
    /// The textures are bound again exactly if the material differs from the
    /// one that counts as bound after that.
    pub fn plan_draw(&self, bound: &mut Bound, shader: u32, material: u32) -> (rebind: Rebind)
        ensures
            rebind.shader == (shader != old(bound).shader),
            rebind.textures == (material != material_after_shader(*old(bound), shader)),
            *final(bound) == (Bound { shader, material }),
    {
        let mut rebind = Rebind { shader: false, textures: false };
        if shader != bound.shader {
            rebind.shader = true;
            bound.shader = shader;
            bound.material = u32::MAX;
        }
        if material != bound.material {
            rebind.textures = true;
            bound.material = material;
        }
        rebind
    }
}

} // verus!
