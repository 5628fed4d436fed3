use asteroid_colonies_logic::direction::Direction;
use asteroid_colonies_logic::transport::{find_multipath, find_path};
use asteroid_colonies_logic::rng::Xor128;

fn within(p: [i32; 2], r: i32) -> bool {
    p[0].abs() <= r && p[1].abs() <= r
}

#[test]
fn find_path_straight_line() {
    assert_eq!(find_path([0, 0], [2, 0], |_| true), Some(vec![[2, 0], [1, 0], [0, 0]]));
}

#[test]
fn find_path_goal_at_start_is_none() {
    assert_eq!(find_path([0, 0], [0, 0], |p| within(p, 1)), None);
}

#[test]
fn find_path_detours_around_a_blocked_tile() {
    let p = find_path([0, 0], [2, 0], |p| p != [1, 0] && within(p, 3)).unwrap();
    assert_eq!(p.len(), 5);
    assert_eq!(p[0], [2, 0]);
    assert_eq!(p[4], [0, 0]);
    assert!(!p.contains(&[1, 0]));
    for w in p.windows(2) {
        assert_eq!((w[0][0] - w[1][0]).abs() + (w[0][1] - w[1][1]).abs(), 1);
    }
}

#[test]
fn find_path_walled_goal_is_none() {
    let wall = |p: [i32; 2]| within(p, 3) && !(p[0] == 2 && p[1].abs() <= 3);
    assert_eq!(find_path([0, 0], [3, 0], wall), None);
}

#[test]
fn find_path_goal_not_passable_is_none() {
    assert_eq!(find_path([0, 0], [1, 0], |p| p != [1, 0] && within(p, 2)), None);
}

#[test]
fn find_multipath_runs_back_to_the_nearest_start() {
    let starts = vec![[0, 0], [5, 0]];
    let r = find_multipath(&starts, |p| p == [4, 0], |_: Option<Direction>, p| within(p, 6));
    assert_eq!(r, Some(vec![[4, 0], [5, 0]]));
}

#[test]
fn find_multipath_without_goal_is_none() {
    let starts = vec![[0, 0]];
    let r = find_multipath(&starts, |p| p == [9, 9], |_: Option<Direction>, p| within(p, 2));
    assert_eq!(r, None);
}

#[test]
fn xorshift_sequence() {

    let mut r = Xor128::new(0);
    assert_eq!(r.x, 723471715);
    assert_eq!(r.nexti(), 2497366906);
    let mut g = Xor128::new(4155235);
    assert_eq!(g.x, 3739318122);
    assert_eq!(g.nexti(), 4052067052);
    assert_eq!(g.x, 4052067052);
}
