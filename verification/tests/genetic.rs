use lumindd::genetic::{mutate_permutation, pmx_crossover, pmx_with_segment, random_permutation};
use lumindd::rng::Rng;

fn is_perm(p: &[u32], n: usize) -> bool {
    let mut seen = vec![false; n];
    p.len() == n
        && p.iter().all(|&v| {
            let ok = (v as usize) < n && !seen[v as usize];
            if ok {
                seen[v as usize] = true;
            }
            ok
        })
}

#[test]
fn test_pmx_produces_valid_permutation() {
    let parent_a: Vec<u32> = vec![0, 1, 2, 3, 4];
    let parent_b: Vec<u32> = vec![4, 3, 2, 1, 0];
    let mut rng = Rng::new(123);
    let child = pmx_crossover(&parent_a, &parent_b, 5, &mut rng);

    let mut seen = vec![false; 5];
    for &v in &child {
        assert!((v as usize) < 5, "value out of range: {}", v);
        assert!(!seen[v as usize], "duplicate value: {}", v);
        seen[v as usize] = true;
    }
}

#[test]
fn test_rng_basic() {
    let mut rng = Rng::new(42);
    let a = rng.next_u64();
    let b = rng.next_u64();
    assert_ne!(a, b);
    let f = (rng.next_u64() >> 11) as f64 / (1u64 << 53) as f64;
    assert!(f >= 0.0 && f < 1.0);
    let u = rng.next_usize(10);
    assert!(u < 10);
}

#[test]
fn pmx_textbook_example() {
    let a = vec![0, 1, 2, 3, 4, 5, 6, 7];
    let b = vec![3, 7, 5, 1, 6, 0, 2, 4];
    assert_eq!(pmx_with_segment(&a, &b, 8, 3, 5), vec![1, 7, 0, 3, 4, 5, 2, 6]);
    // the whole segment taken from the first parent gives it back
    assert_eq!(pmx_with_segment(&a, &b, 8, 0, 7), a);
    // equal parents give the parent
    assert_eq!(pmx_with_segment(&b, &b, 8, 2, 4), b);
}

#[test]
fn pmx_many_seeds_give_permutations() {
    for seed in 0..50u64 {
        let mut rng = Rng::new(seed);
        let n = 1 + (seed as usize % 9);
        let a = random_permutation(n, &mut rng);
        let b = random_permutation(n, &mut rng);
        let c = pmx_crossover(&a, &b, n, &mut rng);
        assert!(is_perm(&c, n));
    }
}

#[test]
fn random_permutations() {
    let mut rng = Rng::new(7);
    assert_eq!(random_permutation(0, &mut rng), Vec::<u32>::new());
    assert_eq!(random_permutation(1, &mut rng), vec![0]);
    let p = random_permutation(10, &mut rng);
    assert!(is_perm(&p, 10));
    // the same seed gives the same shuffle
    let mut r1 = Rng::new(99);
    let mut r2 = Rng::new(99);
    assert_eq!(random_permutation(6, &mut r1), random_permutation(6, &mut r2));
    // Fisher-Yates with the generator's draws, written out for n = 3
    let mut r = Rng::new(5);
    let mut expect = vec![0u32, 1, 2];
    let mut i = 2;
    while i >= 1 {
        let j = (r.next_u64() % (i as u64 + 1)) as usize;
        expect.swap(i, j);
        i -= 1;
    }
    assert_eq!(random_permutation(3, &mut Rng::new(5)), expect);
}

#[test]
fn mutation_keeps_permutations() {
    let mut rng = Rng::new(11);
    let mut p = vec![0, 1, 2, 3, 4];
    mutate_permutation(&mut p, 7, &mut rng);
    assert!(is_perm(&p, 5));
    let mut single = vec![0];
    let before = rng.next_u64();
    let mut rng2 = Rng::new(11);
    mutate_permutation(&mut single, 3, &mut rng2);
    assert_eq!(single, vec![0]);
    // no draw was made for a single value
    assert_eq!(rng2.next_u64(), Rng::new(11).next_u64());
    let _ = before;
    // one swap of neighbours at the drawn place
    let mut q = vec![0, 1, 2];
    let mut r = Rng::new(3);
    let pos = (Rng::new(3).next_u64() % 2) as usize;
    mutate_permutation(&mut q, 1, &mut r);
    let mut expect = vec![0, 1, 2];
    expect.swap(pos, pos + 1);
    assert_eq!(q, expect);
}

#[test]
fn test_make_var_groups() {
    let groups = lumindd::reorder::make_var_groups(6, &[(0, 3), (3, 3)]);
    assert_eq!(groups.len(), 2);
    assert_eq!(groups[0].start, 0);
    assert_eq!(groups[0].size, 3);
    assert_eq!(groups[1].start, 3);
    assert_eq!(groups[1].size, 3);
}

#[test]
fn var_groups_fill_and_order() {
    let groups = lumindd::reorder::make_var_groups(6, &[(3, 2), (0, 1)]);
    let pairs: Vec<(usize, usize)> = groups.iter().map(|g| (g.start, g.size)).collect();
    assert_eq!(pairs, vec![(0, 1), (1, 1), (2, 1), (3, 2), (5, 1)]);
    let none = lumindd::reorder::make_var_groups(3, &[]);
    let pairs: Vec<(usize, usize)> = none.iter().map(|g| (g.start, g.size)).collect();
    assert_eq!(pairs, vec![(0, 1), (1, 1), (2, 1)]);
    // an empty group keeps its place among those with the same start
    let groups = lumindd::reorder::make_var_groups(2, &[(1, 0)]);
    let pairs: Vec<(usize, usize)> = groups.iter().map(|g| (g.start, g.size)).collect();
    assert_eq!(pairs, vec![(0, 1), (1, 0), (1, 1)]);
}

#[test]
fn bare_state_generator() {
    let mut s = 42u64;
    let a = lumindd::rng::next_state(&mut s);
    assert_eq!(a, s);
    let mut r = Rng::new(42);
    assert_eq!(r.next_u64(), a);
    let mut t = 42u64;
    let coin = lumindd::rng::next_bool(&mut t);
    assert_eq!(coin, a % 2 == 0);
    assert_eq!(t, a);
}
