//! The three compute stages and the shader source each one runs.

use vstd::prelude::*;

verus! {

/// Stage one: displaces every base vertex by the noise layers and the crater
/// field and clears its normal accumulator.
pub struct AsteroidHeightComputeShader;

/// Stage two: adds each triangle's fixed-point face normal to its vertices.
pub struct NormalComputeShader;

/// Stage three: turns each accumulator back into a unit normal.
pub struct NormalizeNormalComputeShader;

/// The shape-only variant of stage one, without craters.
pub struct AsteroidShapeComputeShader;

impl AsteroidHeightComputeShader {
    /// Asset path of the stage's shader source.
    pub fn shader() -> (r: &'static str)
        ensures
            r@ == "shaders/compute_asteroid_height.wgsl"@,
    {
        proof {
            reveal_strlit("shaders/compute_asteroid_height.wgsl");
        }
        "shaders/compute_asteroid_height.wgsl"
    }
}

impl NormalComputeShader {
    /// Asset path of the stage's shader source.
    pub fn shader() -> (r: &'static str)
        ensures
            r@ == "shaders/compute_normals.wgsl"@,
    {
        proof {
            reveal_strlit("shaders/compute_normals.wgsl");
        }
        "shaders/compute_normals.wgsl"
    }
}

impl NormalizeNormalComputeShader {
    /// Asset path of the stage's shader source.
    pub fn shader() -> (r: &'static str)
        ensures
            r@ == "shaders/compute_normalize_normals.wgsl"@,
    {
        proof {
            reveal_strlit("shaders/compute_normalize_normals.wgsl");
        }
        "shaders/compute_normalize_normals.wgsl"
    }
}

impl AsteroidShapeComputeShader {
    /// Asset path of the stage's shader source.
    pub fn shader() -> (r: &'static str)
        ensures
            r@ == "shaders/compute_asteroid_shape.wgsl"@,
    {
        proof {
            reveal_strlit("shaders/compute_asteroid_shape.wgsl");
        }
        "shaders/compute_asteroid_shape.wgsl"
    }
}

} // verus!
