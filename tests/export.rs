use asteroid_gen::export::{align_to_multiple_of_four, pad_to_multiple_of_four};
use asteroid_gen::shaders::{
    AsteroidHeightComputeShader, AsteroidShapeComputeShader, NormalComputeShader,
    NormalizeNormalComputeShader,
};

#[test]
fn alignment_rounds_up_to_four() {
    for (n, want) in [(0usize, 0usize), (1, 4), (3, 4), (4, 4), (5, 8), (1234, 1236)] {
        let mut m = n;
        align_to_multiple_of_four(&mut m);
        assert_eq!(m, want);
    }
}

#[test]
fn padding_appends_zeros() {
    let mut bytes = vec![1u8, 2, 3, 4, 5];
    pad_to_multiple_of_four(&mut bytes);
    assert_eq!(bytes, vec![1, 2, 3, 4, 5, 0, 0, 0]);
    let mut exact = vec![9u8; 8];
    pad_to_multiple_of_four(&mut exact);
    assert_eq!(exact, vec![9u8; 8]);
    let mut empty: Vec<u8> = vec![];
    pad_to_multiple_of_four(&mut empty);
    assert!(empty.is_empty());
}

#[test]
fn shader_paths() {
    assert_eq!(AsteroidHeightComputeShader::shader(), "shaders/compute_asteroid_height.wgsl");
    assert_eq!(NormalComputeShader::shader(), "shaders/compute_normals.wgsl");
    assert_eq!(NormalizeNormalComputeShader::shader(), "shaders/compute_normalize_normals.wgsl");
    assert_eq!(AsteroidShapeComputeShader::shader(), "shaders/compute_asteroid_shape.wgsl");
}
