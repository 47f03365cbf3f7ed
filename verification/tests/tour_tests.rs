use rand::seq::SliceRandom;
use rand::Rng;
use std::iter::FromIterator;
use updater::{dist_offset_slot, get_primes, Piece, Tour};

fn dist(a: (f64, f64), b: (f64, f64)) -> f64 {
    ((a.0 - b.0) * (a.0 - b.0) + (a.1 - b.1) * (a.1 - b.1)).sqrt()
}

fn get_penalty(current_len: f64, cur_pos: usize, cur_node: usize, primes: &[bool]) -> f64 {
    if cur_pos % 10 == 0 && !primes[cur_node] {
        current_len * 0.1
    } else {
        0.0
    }
}

fn calculate_len(nodes: &[(f64, f64)], tour: &[usize], primes: &[bool], offset: usize) -> f64 {
    let mut total_len = 0f64;
    for i in 0..tour.len() - 1 {
        let mut current_len = dist(nodes[tour[i]], nodes[tour[i + 1]]);
        current_len += get_penalty(current_len, i + 1 + offset, tour[i], primes);
        total_len += current_len;
    }
    total_len
}

struct Prefixes {
    lens: Vec<f64>,
    offset: Vec<Vec<f64>>,
    offset_rev: Vec<Vec<f64>>,
}

fn prefixes(nodes: &[(f64, f64)], path: &[usize], primes: &[bool]) -> Prefixes {
    let mut lens = vec![0.0];
    let mut offset = vec![vec![0.0]; 10];
    let mut offset_rev = vec![vec![0.0]; 10];
    for i in 0..path.len() - 1 {
        let current_len = dist(nodes[path[i]], nodes[path[i + 1]]);
        let l = lens[lens.len() - 1] + current_len;
        lens.push(l);
        for j in 0..10 {
            let a = offset[j][offset[j].len() - 1] + get_penalty(current_len, i + 1 + j, path[i], primes);
            offset[j].push(a);
            let b = offset_rev[j][offset_rev[j].len() - 1] + get_penalty(current_len, i + 1 + j, path[i + 1], primes);
            offset_rev[j].push(b);
        }
    }
    Prefixes { lens, offset, offset_rev }
}

fn dist_offset(p: &Prefixes, start: usize, end: usize, offset: usize) -> f64 {
    let slot = dist_offset_slot(start, end, offset);
    if end > start {
        p.lens[end] - p.lens[start] + p.offset[slot][end] - p.offset[slot][start]
    } else {
        -(p.lens[end] - p.lens[start] + p.offset_rev[slot][end] - p.offset_rev[slot][start])
    }
}

fn plan_len(
    pieces: &[Piece],
    pre: &Prefixes,
    nodes: &[(f64, f64)],
    path: &[usize],
    added: &[(usize, usize)],
    primes: &[bool],
) -> f64 {
    let mut total = 0.0f64;
    for piece in pieces {
        match *piece {
            Piece::Stretch { start, end, offset } => total += dist_offset(pre, start, end, offset),
            Piece::Jump { index, from, offset } => {
                let mut current_len = dist(nodes[added[index].0], nodes[added[index].1]);
                current_len += get_penalty(current_len, 1 + offset, path[from], primes);
                total += current_len;
            }
        }
    }
    total
}

/// The cities along a plan's stretches, in order.
fn expand(path: &[usize], pieces: &[Piece]) -> Vec<usize> {
    let mut out = Vec::new();
    for piece in pieces {
        if let Piece::Stretch { start, end, .. } = *piece {
            if start <= end {
                out.extend_from_slice(&path[start..end + 1]);
            } else {
                out.extend(path[end..start + 1].iter().rev());
            }
        }
    }
    out
}

/// Each piece's offset is the number of steps before it, modulo 10; each jump
/// leaves the city it claims to leave, along the added edge it names, to where
/// the next stretch starts.
fn steps_consistent(path: &[usize], added: &[(usize, usize)], pieces: &[Piece]) -> bool {
    let mut count = 0usize;
    for (i, piece) in pieces.iter().enumerate() {
        match *piece {
            Piece::Stretch { start, end, offset } => {
                if offset != count % 10 {
                    return false;
                }
                count += if start <= end { end - start } else { start - end };
            }
            Piece::Jump { index, from, offset } => {
                if offset != count % 10 {
                    return false;
                }
                let (a, b) = added[index];
                let next = match pieces.get(i + 1) {
                    Some(Piece::Stretch { start, .. }) => path[*start],
                    _ => return false,
                };
                if !((a == path[from] && b == next) || (b == path[from] && a == next)) {
                    return false;
                }
                count += 1;
            }
        }
    }
    count == path.len() - 1
}

#[test]
fn test_tour_check() {
    let mut rng = rand::thread_rng();
    let nodes = (0..100).map(|_| (rng.gen_range(-1.0, 1.0), rng.gen_range(-100.0, 100.0))).collect::<Vec<_>>();

    let mut tour_path = Vec::from_iter(0..100);
    tour_path[1..].shuffle(&mut rng);
    tour_path.push(0);

    let primes = get_primes(100);

    let mut tour = Tour::new(tour_path.clone(), nodes.len());
    let pre = prefixes(&nodes, &tour_path, &primes);

    let candidates = (0..100usize).map(|i| (1..100usize).filter(|&j| j != i).collect::<Vec<_>>()).collect::<Vec<_>>();

    for iter in 0..100000 {
        if iter % 1000 == 999 {
            println!("iter {}", iter);
        }
        let start_path_pos = rng.gen_range(1, tour.get_path().len() - 2);
        let start_vertex = tour.get_path()[start_path_pos];
        let start_vertex2 = tour.get_path()[start_path_pos + 1];

        let mut removed = Vec::new();
        removed.push((start_vertex, start_vertex2));
        let mut added = Vec::new();

        let mut current_vertex = start_vertex;
        for _ in 0..5 {
            let next_vertex = *candidates[current_vertex].choose(&mut rng).unwrap();
            added.push((current_vertex, next_vertex));

            loop {
                current_vertex = tour.rand_neighbour(next_vertex);
                if current_vertex != 0 {
                    break;
                }
            }
            removed.push((next_vertex, current_vertex));
        }

        added.push((current_vertex, start_vertex2));
        added.sort();
        removed.sort();

        let slow = tour.test_changes(&added, &removed);
        let fast = tour.test_changes_fast(&added, &removed);
        assert_eq!(slow.is_none(), fast.is_none());
        if let Some(p) = slow {
            if let Some(pieces) = fast {
                assert_eq!(p, expand(tour.get_path(), &pieces));
                assert!(steps_consistent(tour.get_path(), &added, &pieces));
                let slow_len = calculate_len(&nodes, &p, &primes, 0);
                let fast_len = plan_len(&pieces, &pre, &nodes, tour.get_path(), &added, &primes);
                assert!((slow_len - fast_len).abs() < 1.0e-6, "{} vs {}", slow_len, fast_len);
            }
        }
    }
}

fn small_tour() -> Tour {
    Tour::new(vec![0, 1, 2, 3, 4, 5, 0], 6)
}

#[test]
fn tour_positions_and_neighbours() {
    let t = Tour::new(vec![0, 2, 1, 3, 0], 4);
    assert_eq!(t.get_path(), &[0, 2, 1, 3, 0]);
    assert_eq!(t.get_inv(), &[4, 2, 1, 3]);
    assert_eq!(t.neighbours(1), [2, 3]);
    assert_eq!(t.neighbours(0), [2, 3]);
    assert_eq!(t.neighbours(3), [1, 0]);
    for _ in 0..20 {
        let r = t.rand_neighbour(1);
        assert!(r == 2 || r == 3);
    }
}

#[test]
fn check_nodes_edges_gives_path() {
    let t = Tour::new(vec![0, 3, 1, 2, 0], 4);
    assert_eq!(t.check_nodes_edges(), Some(vec![0, 3, 1, 2, 0]));
    let one = Tour::new(vec![0, 0], 1);
    assert_eq!(one.check_nodes_edges(), Some(vec![0, 0]));
}

#[test]
fn test_changes_two_opt() {
    let mut t = small_tour();
    let r = t.test_changes(&[(1, 4), (2, 5)], &[(1, 2), (4, 5)]);
    assert_eq!(r, Some(vec![0, 1, 4, 3, 2, 5, 0]));
    assert_eq!(t.get_path(), &[0, 1, 2, 3, 4, 5, 0]);
}

#[test]
fn test_changes_two_cycles() {
    let mut t = small_tour();
    assert_eq!(t.test_changes(&[(1, 5), (2, 4)], &[(1, 2), (4, 5)]), None);
}

#[test]
fn test_changes_repeated_edge() {
    let mut t = small_tour();
    assert_eq!(t.test_changes(&[(2, 1)], &[(1, 2)]), None);
    assert!(updater::has_repeated_edge(&[(2, 1)], &[(1, 2)]));
    assert!(updater::has_repeated_edge(&[], &[(1, 2), (2, 1)]));
    assert!(!updater::has_repeated_edge(&[(1, 4), (2, 5)], &[(1, 2), (4, 5)]));
}

#[test]
fn changes_fill_slots_cases() {
    let t = small_tour();
    assert!(t.changes_fill_slots(&[(1, 4), (2, 5)], &[(1, 2), (4, 5)]));
    assert!(!t.changes_fill_slots(&[(1, 4)], &[(1, 2), (4, 5)]));
    assert!(!t.changes_fill_slots(&[], &[(1, 3)]));
}

#[test]
fn count_cycles_cases() {
    let t = small_tour();
    let (c, parts) = t.count_cycles(&[(1, 4), (2, 5)], &[(1, 2), (4, 5)]);
    assert_eq!(c, 1);
    assert!(parts.is_empty());
    let (c, parts) = t.count_cycles(&[(1, 5), (2, 4)], &[(1, 2), (4, 5)]);
    assert_eq!(c, 2);
    assert_eq!(parts, vec![vec![(4, 2)]]);
    let (c, parts) = t.count_cycles(&[(2, 1)], &[(1, 2)]);
    assert_eq!(c, 1_000_000_000);
    assert!(parts.is_empty());
    assert_eq!(t.count_cycles_checked(&[(1, 4)], &[]), None);
}

#[test]
fn test_changes_fast_plan() {
    let t = small_tour();
    let plan = t.test_changes_fast(&[(1, 4), (2, 5)], &[(1, 2), (4, 5)]);
    assert_eq!(
        plan,
        Some(vec![
            Piece::Stretch { start: 0, end: 1, offset: 0 },
            Piece::Jump { index: 0, from: 1, offset: 1 },
            Piece::Stretch { start: 4, end: 2, offset: 2 },
            Piece::Jump { index: 1, from: 2, offset: 4 },
            Piece::Stretch { start: 5, end: 6, offset: 5 },
        ])
    );
    assert_eq!(t.test_changes_fast(&[(1, 5), (2, 4)], &[(1, 2), (4, 5)]), None);
    assert_eq!(t.test_changes_fast_checked(&[(1, 9)], &[(1, 2)]), None);
}

#[test]
fn check_duplicates_cases() {
    assert!(updater::check_duplicates(&[(1, 2)], &[(2, 1)]));
    assert!(updater::check_duplicates(&[], &[(3, 4), (3, 4)]));
    assert!(!updater::check_duplicates(&[(0, 2)], &[(2, 0)]));
    assert!(!updater::check_duplicates(&[(1, 3)], &[(2, 1)]));
}

#[test]
fn dist_offset_slot_values() {
    assert_eq!(dist_offset_slot(0, 5, 0), 0);
    assert_eq!(dist_offset_slot(3, 7, 1), 8);
    assert_eq!(dist_offset_slot(7, 3, 1), 1);
    assert_eq!(dist_offset_slot(10, 2, 9), 0);
}

#[test]
fn make_new_and_recompute() {
    let t = small_tour();
    let u = t.make_new(vec![0, 5, 4, 3, 2, 1, 0]);
    assert_eq!(u.get_path(), &[0, 5, 4, 3, 2, 1, 0]);
    let v = u.recompute();
    assert_eq!(v.get_inv(), &[6, 5, 4, 3, 2, 1]);
}

fn random_instance() -> (Vec<(f64, f64)>, Vec<usize>, Vec<bool>) {
    let mut rng = rand::thread_rng();
    let nodes = (0..100).map(|_| (rng.gen_range(-1.0, 1.0), rng.gen_range(-100.0, 100.0))).collect::<Vec<_>>();
    let mut tour_path = Vec::from_iter(0..100);
    tour_path[1..].shuffle(&mut rng);
    tour_path.push(0);
    let primes = get_primes(100);
    (nodes, tour_path, primes)
}

#[test]
fn test_dist() {
    let (nodes, tour_path, primes) = random_instance();
    let tour = Tour::new(tour_path, nodes.len());
    let pre = prefixes(&nodes, tour.get_path(), &primes);

    for end in 0..100 {
        for start in 0..end {
            for offset in 0..10 {
                let slow = calculate_len(&nodes, &tour.get_path()[start..end + 1], &primes, offset);
                let fast = dist_offset(&pre, start, end, offset);
                assert!((slow - fast).abs() < 1.0e-6, "{} vs {}", slow, fast);
            }
        }
    }
}

#[test]
fn test_dist_rev() {
    let (nodes, tour_path, primes) = random_instance();
    println!("{:?}", tour_path);
    let tour = Tour::new(tour_path, nodes.len());
    let pre = prefixes(&nodes, tour.get_path(), &primes);

    for end in 0..100 {
        for start in 0..end {
            for offset in 0..10 {
                let reversed = tour.get_path()[start..end + 1].iter().map(|x| *x).rev().collect::<Vec<_>>();
                let slow = calculate_len(&nodes, &reversed, &primes, offset);
                let fast = dist_offset(&pre, end, start, offset);
                assert!((slow - fast).abs() < 1.0e-6, "{} vs {}", slow, fast);
            }
        }
    }
}

#[test]
fn fast_plan_expands_to_slow_tour() {
    let mut t = Tour::new(vec![0, 1, 2, 3, 4, 5, 6, 7, 0], 8);
    // A 3-opt move: remove three tour edges, reconnect the pieces.
    let added = [(1, 4), (2, 6), (3, 5)];
    let removed = [(1, 2), (3, 4), (5, 6)];
    let slow = t.test_changes(&added, &removed).expect("a single tour");
    let plan = t.test_changes_fast(&added, &removed).expect("a plan");
    assert_eq!(slow, vec![0, 1, 4, 5, 3, 2, 6, 7, 0]);
    assert_eq!(expand(t.get_path(), &plan), slow);
    assert!(steps_consistent(t.get_path(), &added, &plan));
    // Both refuse the move that splits the tour in two.
    let split = [(1, 4), (2, 3)];
    assert_eq!(t.test_changes(&split, &[(1, 2), (3, 4)]), None);
    assert_eq!(t.test_changes_fast(&split, &[(1, 2), (3, 4)]), None);
}

#[test]
fn penalty_steps_every_tenth() {
    let path: Vec<usize> = (0..23).chain(std::iter::once(0)).collect();
    let t = Tour::new(path, 23);
    let primes = get_primes(23);
    assert_eq!(t.penalty_steps(&primes), vec![(9, 10, true), (19, 20, false)]);
    let short = Tour::new(vec![0, 2, 1, 0], 3);
    assert!(short.penalty_steps(&get_primes(3)).is_empty());
}

#[test]
fn test_changes_checked_cases() {
    let mut t = small_tour();
    // A proper 2-opt move.
    assert_eq!(
        t.test_changes_checked(&[(1, 4), (2, 5)], &[(1, 2), (4, 5)]),
        Some(Some(vec![0, 1, 4, 3, 2, 5, 0]))
    );
    // Cities 2, 3 and 4 are cut off; the walk closes early.
    assert_eq!(t.test_changes_checked(&[(1, 5)], &[(1, 2), (4, 5)]), Some(None));
    // The walk reaches a city left with one neighbour.
    assert_eq!(t.test_changes_checked(&[], &[(1, 2)]), None);
    // (1, 3) is no edge of the tour.
    assert_eq!(t.test_changes_checked(&[], &[(1, 3)]), None);
    // A repeated edge.
    assert_eq!(t.test_changes_checked(&[(2, 1)], &[(1, 2)]), Some(None));
    assert_eq!(t.get_path(), &[0, 1, 2, 3, 4, 5, 0]);
}

fn undirected_edges(path: &[usize]) -> Vec<(usize, usize)> {
    let mut e: Vec<(usize, usize)> = path.windows(2).map(|w| (w[0].min(w[1]), w[0].max(w[1]))).collect();
    e.sort();
    e
}

fn rewired_edges(path: &[usize], added: &[(usize, usize)], removed: &[(usize, usize)]) -> Vec<(usize, usize)> {
    let mut e = undirected_edges(path);
    for &(a, b) in removed {
        let k = (a.min(b), a.max(b));
        let i = e.iter().position(|&x| x == k).expect("a removed edge is an edge of the tour");
        e.remove(i);
    }
    for &(a, b) in added {
        e.push((a.min(b), a.max(b)));
    }
    e.sort();
    e
}

fn is_closed_tour(p: &[usize], n: usize) -> bool {
    if p.len() != n + 1 || p[0] != 0 || p[n] != 0 {
        return false;
    }
    let mut seen = vec![false; n];
    for &c in &p[..n] {
        if c >= n || seen[c] {
            return false;
        }
        seen[c] = true;
    }
    true
}

#[test]
fn test_changes_result_is_rewired_tour() {
    let mut rng = rand::thread_rng();
    let n = 40;
    let mut tour_path = Vec::from_iter(0..n);
    tour_path[1..].shuffle(&mut rng);
    tour_path.push(0);
    let mut tour = Tour::new(tour_path.clone(), n);
    let mut accepted = 0;
    for _ in 0..5000 {
        let pos = rng.gen_range(1, n - 1);
        let start = tour_path[pos];
        let start2 = tour_path[pos + 1];
        let mut removed = vec![(start, start2)];
        let mut added = Vec::new();
        let mut cur = start;
        for _ in 0..3 {
            let next = rng.gen_range(1, n);
            added.push((cur, next));
            loop {
                cur = tour.rand_neighbour(next);
                if cur != 0 {
                    break;
                }
            }
            removed.push((next, cur));
        }
        added.push((cur, start2));
        let slow = tour.test_changes(&added, &removed);
        let fast = tour.test_changes_fast(&added, &removed);
        assert_eq!(slow.is_none(), fast.is_none());
        if !updater::has_repeated_edge(&added, &removed) {
            let (count, parts) = tour.count_cycles_checked(&added, &removed).expect("the walks of a sequential move never get stuck");
            let edges = rewired_edges(&tour_path, &added, &removed);
            assert_eq!(count, components(n, &edges));
            assert_eq!(parts.len(), count - 1);
            assert_eq!(count == 1, slow.is_some());
            let comp = component_of(n, &edges);
            for (i, part) in parts.iter().enumerate() {
                for &(a, b) in part {
                    assert_eq!(comp[tour_path[a]], comp[tour_path[b]]);
                    assert_ne!(comp[tour_path[a]], comp[0]);
                    for (i2, part2) in parts.iter().enumerate() {
                        for &(a2, _) in part2 {
                            assert_eq!(comp[tour_path[a]] == comp[tour_path[a2]], i == i2);
                        }
                    }
                }
            }
        }
        if let Some(p) = slow {
            accepted += 1;
            assert!(is_closed_tour(&p, n));
            assert_eq!(undirected_edges(&p), rewired_edges(&tour_path, &added, &removed));
        } else if !updater::has_repeated_edge(&added, &removed) {
            assert!(components(n, &rewired_edges(&tour_path, &added, &removed)) > 1);
        }
    }
    assert!(accepted > 0);
}

fn component_of(n: usize, edges: &[(usize, usize)]) -> Vec<usize> {
    let mut adj = vec![Vec::new(); n];
    for &(a, b) in edges {
        adj[a].push(b);
        adj[b].push(a);
    }
    let mut comp = vec![usize::MAX; n];
    let mut next = 0;
    for v in 0..n {
        if comp[v] != usize::MAX {
            continue;
        }
        let mut stack = vec![v];
        comp[v] = next;
        while let Some(u) = stack.pop() {
            for &w in &adj[u] {
                if comp[w] == usize::MAX {
                    comp[w] = next;
                    stack.push(w);
                }
            }
        }
        next += 1;
    }
    comp
}

fn components(n: usize, edges: &[(usize, usize)]) -> usize {
    let mut adj = vec![Vec::new(); n];
    for &(a, b) in edges {
        adj[a].push(b);
        adj[b].push(a);
    }
    let mut seen = vec![false; n];
    let mut count = 0;
    for v in 0..n {
        if seen[v] {
            continue;
        }
        count += 1;
        let mut stack = vec![v];
        seen[v] = true;
        while let Some(u) = stack.pop() {
            for &w in &adj[u] {
                if !seen[w] {
                    seen[w] = true;
                    stack.push(w);
                }
            }
        }
    }
    count
}

#[test]
fn test_changes_three_opt_edges() {
    let mut t = small_tour();
    let added = [(1, 3), (2, 5), (4, 0)];
    let removed = [(1, 2), (3, 4), (5, 0)];
    let r = t.test_changes(&added, &removed).unwrap();
    assert!(is_closed_tour(&r, 6));
    assert_eq!(undirected_edges(&r), rewired_edges(&[0, 1, 2, 3, 4, 5, 0], &added, &removed));
}

#[test]
fn dist_offset_slot_wrapped_reverse() {
    assert_eq!(dist_offset_slot(5, 2, 34), 0);
    assert_eq!(dist_offset_slot(17, 3, 42), 0);
    assert_eq!(dist_offset_slot(7, 3, 22), 0);
    assert_eq!(dist_offset_slot(7, 3, 21), 1);
}
