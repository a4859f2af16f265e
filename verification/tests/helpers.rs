use gdssim::text::push_decimal;
use gdssim::unionfind::UnionFind;

#[test]
fn union_find_joins_sets() {
    let mut uf = UnionFind::new(6);
    for i in 0..6 {
        assert_eq!(uf.find(i), i);
    }
    uf.union(0, 1);
    uf.union(2, 3);
    assert_eq!(uf.find(0), uf.find(1));
    assert_ne!(uf.find(1), uf.find(2));
    uf.union(1, 3);
    assert_eq!(uf.find(0), uf.find(2));
    // Joining what is together changes nothing.
    uf.union(0, 3);
    assert_eq!(uf.find(1), uf.find(2));
    assert_ne!(uf.find(4), uf.find(5));
}

#[test]
fn decimal_text() {
    for n in [0i16, 7, 10, -1, 999, i16::MAX, i16::MIN] {
        let mut s = "n=".to_string();
        push_decimal(&mut s, n);
        assert_eq!(s, format!("n={n}"));
    }
}
