use switch_bench::{overhead, overhead_unfold};

#[test]
fn loop_and_recursion_agree() {
    assert_eq!(overhead::func(), 134217728);
    assert_eq!(overhead::func0(), 134217728);
    assert_eq!(overhead::func(), overhead::func0());
}

#[test]
fn func_inner_powers() {
    assert_eq!(overhead::func_inner(-1), 1);
    assert_eq!(overhead::func_inner(-5), 1);
    assert_eq!(overhead::func_inner(0), 8);
    assert_eq!(overhead::func_inner(2), 512);
}

#[test]
fn unfolded_variant() {
    assert_eq!(overhead_unfold::func(), 1953125);
    assert_eq!(overhead_unfold::func0(), 1953125);
    assert_eq!(overhead_unfold::func_inner(1), 25);
}
