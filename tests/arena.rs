use nbodysim::arena::pair_mut;

#[test]
fn pair_mut_reaches_both_elements() {
    let mut v = vec![1, 2, 3, 4];
    {
        let (a, b) = pair_mut(&mut v, 3, 1);
        assert_eq!((*a, *b), (4, 2));
        *a += 10;
        *b += 20;
    }
    assert_eq!(v, vec![1, 22, 3, 14]);
    {
        let (a, b) = pair_mut(&mut v, 0, 2);
        std::mem::swap(a, b);
    }
    assert_eq!(v, vec![3, 22, 1, 14]);
}
