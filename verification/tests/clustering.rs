use soma::clustering::{cluster_note_ids, dbscan, dbscan_label, ClusterPoint, Label};

fn points(ids: &[&str], close: &[(usize, usize)]) -> Vec<ClusterPoint> {
    let n = ids.len();
    let mut rows = vec![vec![false; n]; n];
    for &(a, b) in close {
        rows[a][b] = true;
        rows[b][a] = true;
    }
    ids.iter()
        .zip(rows)
        .map(|(id, close_to)| ClusterPoint { note_id: id.to_string(), close_to })
        .collect()
}

#[test]
fn near_points_cluster_together() {
    // Two groups of four mutually close points.
    let mut close = vec![];
    for a in 0..4 {
        for b in (a + 1)..4 {
            close.push((a, b));
            close.push((a + 4, b + 4));
        }
    }
    let pts = points(&["a", "b", "c", "d", "e", "f", "g", "h"], &close);
    let clusters = cluster_note_ids(&pts);
    assert_eq!(clusters.len(), 2);
    assert_eq!(clusters[0], vec!["a", "b", "c", "d"]);
    assert_eq!(clusters[1], vec!["e", "f", "g", "h"]);
}

#[test]
fn single_point_forms_no_cluster() {
    let pts = points(&["a"], &[]);
    assert!(cluster_note_ids(&pts).is_empty());
}

#[test]
fn unlinked_groups_are_separate_clusters() {
    let pts = points(&["a1", "a2", "a3", "b1", "b2", "b3"], &[(0, 1), (0, 2), (1, 2), (3, 4), (3, 5), (4, 5)]);
    let clusters = cluster_note_ids(&pts);
    let a = clusters.iter().find(|c| c.contains(&"a1".to_string())).unwrap();
    let b = clusters.iter().find(|c| c.contains(&"b1".to_string())).unwrap();
    assert_ne!(a, b);
}

#[test]
fn pair_with_one_neighbour_each_is_noise() {
    // Each point has a single neighbour, fewer than MIN_POINTS.
    let pts = points(&["a", "b"], &[(0, 1)]);
    let (labels, count) = dbscan_label(&pts);
    assert_eq!(count, 0);
    assert_eq!(labels, vec![Label::Noise, Label::Noise]);
    assert!(dbscan(&pts).is_empty());
}

#[test]
fn border_point_joins_the_cluster_of_its_core_neighbour() {
    // 0 is core (neighbours 1, 2); 3 is linked to 2 only.
    let pts = points(&["x", "y", "z", "w"], &[(0, 1), (0, 2), (2, 3)]);
    let (labels, count) = dbscan_label(&pts);
    assert_eq!(count, 1);
    assert_eq!(labels, vec![Label::Cluster(0); 4]);
    assert_eq!(dbscan(&pts), vec![vec![0, 1, 2, 3]]);
}

#[test]
fn noise_point_later_reached_becomes_border() {
    // 0 has one neighbour (2) and is visited first as noise; 2 is core with
    // neighbours 0, 1, 3, so 0 joins its cluster.
    let pts = points(&["p", "q", "r", "s"], &[(0, 2), (1, 2), (2, 3)]);
    let (labels, count) = dbscan_label(&pts);
    assert_eq!(count, 1);
    assert_eq!(labels, vec![Label::Cluster(0); 4]);
}

#[test]
fn chunks_of_one_note_repeat_its_id() {
    let pts = points(&["n1", "n1", "n2"], &[(0, 1), (0, 2), (1, 2)]);
    assert_eq!(cluster_note_ids(&pts), vec![vec!["n1", "n1", "n2"]]);
}

#[test]
fn missing_relation_entries_count_as_far() {
    let pts = vec![
        ClusterPoint { note_id: "a".to_string(), close_to: vec![] },
        ClusterPoint { note_id: "b".to_string(), close_to: vec![true] },
        ClusterPoint { note_id: "c".to_string(), close_to: vec![true, true, true] },
    ];
    // Only 2 has two neighbours (0 and 1); 0 and 1 become its border points.
    assert_eq!(dbscan(&pts), vec![vec![0, 1, 2]]);
}

#[test]
fn three_mutually_close_points_form_one_cluster_with_core_points() {
    let pts = points(&["a", "b", "c"], &[(0, 1), (0, 2), (1, 2)]);
    assert_eq!(cluster_note_ids(&pts), vec![vec!["a", "b", "c"]]);
}

#[test]
fn every_cluster_holds_a_point_with_two_neighbours() {
    // A chain: only 1 and 2 have two neighbours each.
    let pts = points(&["a", "b", "c", "d"], &[(0, 1), (1, 2), (2, 3)]);
    let groups = dbscan(&pts);
    assert_eq!(groups.len(), 1);
    assert!(groups[0].iter().any(|&p| pts[p].close_to.iter().filter(|&&c| c).count() >= 2));
}
