use rand::seq::SliceRandom;
use updater::{get_primes, path_to_edges, penalised_step, spanning_picks, verify_tour, TwoEdges, UnionFind, NOEDGE};

#[test]
fn primes_up_to_thirty() {
    let p = get_primes(30);
    let expected: Vec<usize> = vec![2, 3, 5, 7, 11, 13, 17, 19, 23, 29];
    for i in 0..30 {
        assert_eq!(p[i], expected.contains(&i), "entry {}", i);
    }
    assert_eq!(get_primes(2), vec![false, false]);
}

#[test]
fn union_find_joins() {
    let mut uf = UnionFind::new(5);
    for i in 0..5 {
        assert_eq!(uf.get(i), i);
    }
    assert!(uf.join(0, 1));
    assert!(!uf.join(1, 0));
    assert_eq!(uf.get(0), uf.get(1));
    assert_eq!(uf.get(0), 1);
    assert!(uf.join(2, 3));
    assert!(uf.join(1, 3));
    assert_eq!(uf.get(0), uf.get(2));
    assert_eq!(uf.get(0), 3);
    assert_eq!(uf.get(4), 4);
    assert!(!uf.join(2, 0));
}

#[test]
fn verify_tour_cases() {
    assert!(verify_tour(3, &[0, 2, 1, 0]));
    assert!(verify_tour(1, &[0, 0]));
    assert!(!verify_tour(3, &[0, 1, 1, 0]));
    assert!(!verify_tour(3, &[0, 1, 2]));
    assert!(!verify_tour(3, &[1, 0, 2, 1]));
    assert!(!verify_tour(3, &[0, 1, 5, 0]));
    assert!(!verify_tour(0, &[0]));
}

#[test]
fn path_to_edges_slots() {
    let e = path_to_edges(&[0, 2, 1, 3, 0]);
    assert_eq!(e.len(), 4);
    assert_eq!(e[0].edges, [2, 3]);
    assert_eq!(e[2].edges, [0, 1]);
    assert_eq!(e[1].edges, [2, 3]);
    assert_eq!(e[3].edges, [1, 0]);
}

#[test]
fn two_edges_slots() {
    let mut t = TwoEdges::new();
    assert_eq!(t.get(0), None);
    t.add(4);
    t.add(7);
    assert_eq!(t.get(0), Some(4));
    assert_eq!(t.get(1), Some(7));
    assert!(t.has(7));
    t.remove(4);
    assert_eq!(t.edges, [NOEDGE, 7]);
    t.add(9);
    assert_eq!(t.edges, [9, 7]);
    let r = t.rand();
    assert!(r == 9 || r == 7);
}

#[test]
fn crossover_gives_tours() {
    let a = vec![0, 1, 2, 3, 4, 5, 6, 0];
    let b = vec![0, 3, 6, 1, 4, 2, 5, 0];
    let c = updater::erxta(&a, &b).unwrap();
    assert!(verify_tour(7, &c));
    let d = updater::erxt(&a, &b).unwrap();
    assert!(verify_tour(7, &d));
    assert_eq!(updater::erxta(&a, &a), Some(a.clone()));
    assert_eq!(updater::erxt(&b, &b), Some(b.clone()));
}

#[test]
fn spanning_picks_takes_tree_edges() {
    // Square 0-1-2-3 with both diagonals, shortest first.
    let edges = [(0, 1), (1, 2), (0, 2), (2, 3), (1, 3), (0, 3)];
    assert_eq!(spanning_picks(4, &edges), vec![true, true, false, true, false, false]);
    // Stops after n - 1 joins even when later edges would still join sets.
    assert_eq!(spanning_picks(2, &[(0, 1), (1, 0)]), vec![true, false]);
    assert_eq!(spanning_picks(3, &[(0, 0), (2, 1), (1, 2), (0, 2)]), vec![false, true, false, true]);
    assert_eq!(spanning_picks(1, &[]), Vec::<bool>::new());
}

#[test]
fn penalised_steps() {
    let primes = get_primes(12);
    assert!(penalised_step(10, 4, &primes));
    assert!(!penalised_step(10, 7, &primes));
    assert!(!penalised_step(9, 4, &primes));
    assert!(penalised_step(20, 0, &primes));
    // Only every tenth step looks the city up.
    assert!(!penalised_step(3, 100, &primes));
}

#[test]
fn erxt_crossing_a_tour_with_itself() {
    let mut rng = rand::thread_rng();
    for n in 1..30usize {
        let mut t: Vec<usize> = (0..n).collect();
        t[1..].shuffle(&mut rng);
        t.push(0);
        assert_eq!(updater::erxt(&t, &t), Some(t.clone()));
        assert_eq!(updater::erxta(&t, &t), Some(t.clone()));
    }
}
