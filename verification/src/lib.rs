//! Verified core of a travelling-santa tour optimiser: the prime sieve that
//! decides which cities carry no penalty, a union-find structure, and the
//! integer structure of a closed tour (its path, positions and per-city edges)
//! together with the evaluation of k-opt moves on it.

mod agreement;
mod components;
mod crossover;
mod cycle_count;
mod cycles;
mod edge_moves;
mod primes;
mod random;
mod rewire;
mod spanning;
mod tour;
mod two_edges;
mod union_find;

pub use agreement::{degree, edge_count, is, plan_cities, plan_steps, slot_count, stretch_cities};
pub use crossover::{
    erx_priority, erxa_path, erxa_state, erxt, erxt_path, erxt_pick, erxt_priority, erxt_state, erxta, follow_counts,
    along_tour, erxt_follow_counts, lemma_erxt_follows_an_edge, lemma_erxt_ranks_across_parents, lemma_erxt_prefers_shared, lemma_erxt_ranks_within_parent, lemma_erxt_self,
    lemma_erxt_shared_city_first, lemma_erxt_skips_along_first, lemma_erxta_avoids_used, lemma_erxta_choice, lemma_erxta_self,
    lemma_erxta_skips_along_first, met_flags, step_index, tour_neighbour,
    is_common, neighbour_tables, pair_table, pred_of, pred_table, quad, skip_from, succ_of, succ_table,
    used_neighbours,
};
pub use components::{
    adjacent, connected, cycle_count, is_walk, label_used, leads, lemma_connected_refl, lemma_connected_step,
    lemma_connected_symm, lemma_connected_trans, lemma_cycle_count_by_labels,
};
pub use cycles::{
    added_positions, across, check_duplicates, count_unused, cycle_from, cycle_report, cycles_defined,
    endpoints_within,
    duplicates_spec, endpoint_positions, endpoints_below, extra_cycles, fast_plan, fast_walk,
    fast_walk_report, gap, is_sorted, lemma_single_cycle_iff_plan, plan_defined, main_walk, other_end, sorted_version, touching_from,
    unused_from, Piece,
};
pub use edge_moves::{
    apply_moves, closes_at, lemma_full_slots_walk_ok, link, link_all, pair_of, put_in, slot_full,
    slot_pairs, slots_full, take_out, unlink,
    unlink_all, walk_cities, walk_ok, walk_ok_within, walk_result, walk_state, walk_step,
};
pub use primes::{get_primes, is_prime};
pub use rewire::{
    before, chain_added, chain_city, chain_removed, entries_in_range, lemma_balanced_move_fills, lemma_chain_balanced,
    lemma_degree_permuted, lemma_tour_edge_in_range, lemma_closed_walk_tour, lemma_edge_count_absent,
    lemma_move_keeps_symmetric, lemma_rewired_tour_found, lemma_tour_slot_counts, lemma_tour_slots_symmetric, path_edges, rewired_from, slots_symmetric,
    walk_city,
};
pub use tour::{
    dist_offset_slot, has_repeated_edge, penalised_step, is_tour, lemma_tour_covers, neighbour_pair, position_of, path_to_edges, positions_match, repeats_edge,
    same_edge, slots_match, table_penalises, touches_zero, verify_tour, Tour,
};
pub use spanning::{
    count_taken, edges_within, joined_by, kruskal_state, lemma_spanning_connects, lemma_spanning_forest, spanning_picks, taken_chain, taken_link,
};
pub use two_edges::{holds_pair, TwoEdges, NOEDGE};
pub use union_find::{lemma_merge_classes, links_ranked, merge_classes, root_of, UnionFind};
