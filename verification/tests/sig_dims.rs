//! Feature-dimension arithmetic of the signature model.

use hft_core::sig::compute_feature_dim;

#[test]
fn test_trunc_signature_dim() {
    let d = 2;
    let trunc = 3;
    let dim = compute_feature_dim(d, trunc);
    assert_eq!(dim, 2 + 4 + 8);
}

#[test]
fn feature_dim_by_truncation_level() {
    assert_eq!(compute_feature_dim(3, 0), 0);
    assert_eq!(compute_feature_dim(3, 1), 3);
    assert_eq!(compute_feature_dim(3, 2), 3 + 9);
    assert_eq!(compute_feature_dim(3, 3), 3 + 9 + 27);
    assert_eq!(compute_feature_dim(1, 2), 2);
    assert_eq!(compute_feature_dim(0, 3), 0);
}
