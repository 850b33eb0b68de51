use raytracer::depth::default_max_depth;

fn by_floating_point(n: usize) -> usize {
    8 + (1.3 * (n as f32).log2()).round() as usize
}

#[test]
fn default_depth_exact_values() {
    assert_eq!(default_max_depth(0), 8);
    assert_eq!(default_max_depth(1), 8);
    assert_eq!(default_max_depth(2), 9);
    assert_eq!(default_max_depth(3), 10);
    assert_eq!(default_max_depth(16), 13);
    assert_eq!(default_max_depth(32), 15);
    assert_eq!(default_max_depth(1000), 21);
    assert_eq!(default_max_depth(1_000_000), 34);
    assert_eq!(default_max_depth(usize::MAX), 8 + 83);
}

#[test]
fn default_depth_agrees_with_the_logarithm() {
    for n in 0..5000usize {
        assert_eq!(default_max_depth(n), by_floating_point(n), "n = {}", n);
    }
    let mut n: usize = 5000;
    while n < 50_000_000 {
        assert_eq!(default_max_depth(n), by_floating_point(n), "n = {}", n);
        n = n + n / 7 + 1;
    }
}
