use cc_dfs::{dfs, dfs_checked, LabelError};

fn same_partition(a: &[isize], b: &[isize]) -> bool {
    a.len() == b.len()
        && (0..a.len()).all(|i| (0..a.len()).all(|j| (a[i] == a[j]) == (b[i] == b[j])))
}

#[test]
fn no_vertices_give_no_labels() {
    let edges: Vec<(usize, usize, (), usize)> = Vec::new();
    assert_eq!(dfs(0, &edges), Vec::<isize>::new());
}

#[test]
fn length_matches_vertex_count_and_no_label_is_unvisited() {
    let edges: Vec<(usize, usize, &str, usize)> = vec![(6, 2, "a", 0), (1, 5, "b", 1)];
    let x = dfs(7, &edges);
    assert_eq!(x.len(), 7);
    assert!(x.iter().all(|&l| l != -1));
    assert_eq!(x, vec![0, 1, 2, 3, 4, 1, 2]);
}

#[test]
fn every_edge_joins_equal_labels() {
    let edges: Vec<(usize, usize, u8, usize)> =
        vec![(5, 0, 1, 0), (3, 1, 1, 1), (0, 3, 1, 2), (2, 4, 1, 3)];
    let x = dfs(6, &edges);
    for &(u, v, _, _) in &edges {
        assert_eq!(x[u], x[v]);
    }
    assert_eq!(x, vec![0, 0, 1, 0, 1, 0]);
}

#[test]
fn numbering_follows_smallest_vertex_of_each_component() {
    // Components {0, 4}, {1, 3}, {2}: numbered by their smallest vertex.
    let edges: Vec<(usize, usize, i64, usize)> = vec![(4, 0, -3, 0), (3, 1, 9, 1)];
    assert_eq!(dfs(5, &edges), vec![0, 1, 2, 1, 0]);
}

#[test]
fn isolated_vertices_stand_alone() {
    let edges: Vec<(usize, usize, i32, usize)> = vec![(1, 2, 0, 0)];
    let x = dfs(5, &edges);
    assert_eq!(x, vec![0, 1, 1, 2, 3]);
    for i in [0usize, 3, 4] {
        for j in 0..5 {
            if i != j {
                assert_ne!(x[i], x[j]);
            }
        }
    }
}

#[test]
fn duplicate_and_reversed_edges_keep_partition() {
    let base: Vec<(usize, usize, i32, usize)> = vec![(0, 2, 1, 0), (3, 4, 1, 1)];
    let mut dup = base.clone();
    dup.insert(0, (4, 3, 7, 2));
    dup.push((0, 2, 8, 3));
    let a = dfs(5, &base);
    let b = dfs(5, &dup);
    assert!(same_partition(&a, &b));
    assert_eq!(a, vec![0, 1, 0, 2, 2]);
}

#[test]
fn self_loop_merges_nothing() {
    let base: Vec<(usize, usize, i32, usize)> = vec![(1, 2, 1, 0)];
    let mut looped = base.clone();
    looped.push((0, 0, 1, 1));
    looped.push((2, 2, 1, 2));
    let a = dfs(4, &base);
    let b = dfs(4, &looped);
    assert!(same_partition(&a, &b));
    assert_eq!(b, vec![0, 1, 1, 2]);
}

#[test]
fn scenario_two_components_on_five_vertices() {
    let edges: Vec<(usize, usize, (), usize)> = vec![(0, 1, (), 0), (1, 2, (), 1), (3, 4, (), 2)];
    let x = dfs(5, &edges);
    assert!(x[0] == x[1] && x[1] == x[2]);
    assert_eq!(x[3], x[4]);
    assert_ne!(x[0], x[3]);
}

#[test]
fn long_path_labels_one_component() {
    let n = 100_000usize;
    let edges: Vec<(usize, usize, (), usize)> = (0..n - 1).map(|i| (i + 1, i, (), i)).collect();
    let x = dfs(n, &edges);
    assert!(x.iter().all(|&l| l == 0));
}

#[test]
fn checked_accepts_edges_in_range() {
    let edges: Vec<(usize, usize, i32, usize)> = vec![(0, 1, 1, 0), (2, 3, 1, 1), (4, 4, 1, 2)];
    assert_eq!(dfs_checked(6, &edges), Ok(vec![0, 0, 1, 1, 2, 3]));
}

#[test]
fn checked_reports_out_of_range_vertex() {
    let edges: Vec<(usize, usize, i32, usize)> = vec![(0, 100, 1, 0)];
    assert_eq!(
        dfs_checked(5, &edges),
        Err(LabelError::IndexOutOfRange { edge: 0, vertex: 100 })
    );
}

#[test]
fn checked_reports_first_bad_edge_and_its_first_bad_end() {
    let edges: Vec<(usize, usize, i32, usize)> =
        vec![(0, 1, 1, 0), (7, 2, 1, 1), (9, 8, 1, 2), (5, 6, 1, 3)];
    assert_eq!(
        dfs_checked(5, &edges),
        Err(LabelError::IndexOutOfRange { edge: 1, vertex: 7 })
    );
    let edges2: Vec<(usize, usize, i32, usize)> = vec![(0, 1, 1, 0), (2, 5, 1, 1)];
    assert_eq!(
        dfs_checked(5, &edges2),
        Err(LabelError::IndexOutOfRange { edge: 1, vertex: 5 })
    );
}

#[test]
fn checked_with_no_vertices_rejects_any_edge() {
    let edges: Vec<(usize, usize, i32, usize)> = vec![(0, 0, 1, 0)];
    assert_eq!(
        dfs_checked(0, &edges),
        Err(LabelError::IndexOutOfRange { edge: 0, vertex: 0 })
    );
    let none: Vec<(usize, usize, i32, usize)> = Vec::new();
    assert_eq!(dfs_checked(0, &none), Ok(Vec::new()));
}
