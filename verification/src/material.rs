use vstd::prelude::*;

verus! {

/// What the tracing core keeps of a surface's material: the handle by which
/// the shading code finds it, and whether the surface emits light.
#[derive(Debug, Clone, Copy)]
pub struct Material {
    pub id: u32,
    pub emissive: bool,
}

impl Material {
    pub fn is_emissive(&self) -> (b: bool)
        ensures
            b == self.emissive,
    {
        self.emissive
    }
}

impl Default for Material {
    fn default() -> (m: Material)
        ensures
            m.id == 0,
            !m.emissive,
    {
        Material { id: 0, emissive: false }
    }
}

} // verus!
