use oxidized_navigation::query::find_polygon_path;

fn is_corridor(links: &[Vec<usize>], path: &[usize], start: usize, goal: usize) -> bool {
    path.first() == Some(&start)
        && path.last() == Some(&goal)
        && path.windows(2).all(|w| links[w[0]].contains(&w[1]))
}

#[test]
fn corridor_through_a_strip() {
    // 0 - 1 - 2 - 3, linked both ways.
    let links = vec![vec![1], vec![0, 2], vec![1, 3], vec![2]];
    let path = find_polygon_path(&links, 0, 3).expect("connected");
    assert_eq!(path, vec![0, 1, 2, 3]);
    assert_eq!(find_polygon_path(&links, 3, 1), Some(vec![3, 2, 1]));
}

#[test]
fn start_is_goal() {
    let links = vec![vec![1], vec![0]];
    assert_eq!(find_polygon_path(&links, 1, 1), Some(vec![1]));
}

#[test]
fn wall_between_halves_gives_no_path() {
    // Two halves of a tile: {0, 1, 2} and {3, 4}, with no link across.
    let links = vec![vec![1, 2], vec![0, 2], vec![0, 1], vec![4], vec![3]];
    assert_eq!(find_polygon_path(&links, 0, 4), None);
    assert_eq!(find_polygon_path(&links, 3, 2), None);
    let path = find_polygon_path(&links, 3, 4).expect("same half");
    assert!(is_corridor(&links, &path, 3, 4));
}

#[test]
fn one_way_links_are_followed_forward_only() {
    let links = vec![vec![1], vec![2], vec![]];
    assert_eq!(find_polygon_path(&links, 0, 2), Some(vec![0, 1, 2]));
    assert_eq!(find_polygon_path(&links, 2, 0), None);
}

#[test]
fn breadth_first_takes_the_short_way() {
    // 0 links to 1 and to 4; 1 - 2 - 3 - 4 is the long way round.
    let links = vec![vec![1, 4], vec![2], vec![3], vec![4], vec![]];
    assert_eq!(find_polygon_path(&links, 0, 4), Some(vec![0, 4]));
}
