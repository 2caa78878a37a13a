use pathforge::algorithms::astar::{astar, AStarConfig};
use pathforge::cache::{astar_with_cache, PathCache};
use pathforge::graphs::grid2d::{DiagonalMode, Grid2D, GridPos};
use pathforge::heuristics::Diagonal;
use pathforge::traits::{PathResult, PathStatus};
use std::time::Duration;

#[test]
fn caches_and_invalidates() {
    let mut cache = PathCache::new(4, Duration::from_secs(60));
    let grid = Grid2D::new(5, 5, DiagonalMode::Always);
    let start = GridPos { x: 0, y: 0 };
    let goal = GridPos { x: 4, y: 4 };

    // miss initially
    assert!(cache.get(&start, &goal).is_none());

    let res1 = astar_with_cache(&grid, &Diagonal::default(), start, goal, AStarConfig::default(), &mut cache);
    assert_eq!(res1.status, PathStatus::Found);
    assert_eq!(cache.len(), 1);

    // hit after insert
    let res2 = cache.get(&GridPos { x: 0, y: 0 }, &GridPos { x: 4, y: 4 });
    assert!(res2.is_some());

    // invalidate anything touching x=2 should drop the cached path
    cache.invalidate_region(|p: &GridPos| p.x == 2);
    assert!(cache.get(&GridPos { x: 0, y: 0 }, &GridPos { x: 4, y: 4 }).is_none());
}

fn found(path: Vec<GridPos>, cost: u64) -> PathResult<GridPos> {
    PathResult { path, cost, nodes_expanded: 1, status: PathStatus::Found }
}

fn p(x: i32, y: i32) -> GridPos {
    GridPos { x, y }
}

#[test]
fn entries_expire_at_the_age_limit() {
    let mut cache: PathCache<GridPos> = PathCache::with_age_limit(4, 1_000);
    cache.insert_at(p(0, 0), p(1, 0), found(vec![p(0, 0), p(1, 0)], 1_000_000), 500);
    assert_eq!(cache.len(), 1);
    assert!(cache.get_at(&p(0, 0), &p(1, 0), 500).is_some());
    assert!(cache.get_at(&p(0, 0), &p(1, 0), 1_499).is_some());
    assert!(cache.get_at(&p(0, 0), &p(1, 0), 1_500).is_none());
    assert!(cache.get_at(&p(0, 0), &p(1, 0), 9_999).is_none());
    // an expired entry is a miss, but stays
    assert_eq!(cache.len(), 1);
    // a clock that reads earlier than the entry counts as no time passed
    assert!(cache.get_at(&p(0, 0), &p(1, 0), 100).is_some());
    assert!(cache.get_at(&p(1, 0), &p(0, 0), 600).is_none());

    let mut stale = PathCache::new(4, Duration::ZERO);
    stale.insert(p(0, 0), p(1, 0), found(vec![p(0, 0), p(1, 0)], 1_000_000));
    assert_eq!(stale.len(), 1);
    assert!(stale.get(&p(0, 0), &p(1, 0)).is_none());
}

#[test]
fn only_found_results_are_stored() {
    let mut cache: PathCache<GridPos> = PathCache::with_age_limit(4, 1_000);
    let mut partial = found(vec![p(0, 0)], 0);
    partial.status = PathStatus::PartialMaxIter;
    cache.insert_at(p(0, 0), p(1, 0), partial, 0);
    cache.insert_at(p(0, 0), p(1, 0), PathResult::not_found(3), 0);
    assert_eq!(cache.len(), 0);
    cache.insert_at(p(0, 0), p(1, 0), found(vec![p(0, 0), p(1, 0)], 7), 0);
    cache.insert_at(p(0, 0), p(1, 0), found(vec![p(0, 0), p(1, 0)], 9), 1);
    assert_eq!(cache.len(), 1);
    assert_eq!(cache.get_at(&p(0, 0), &p(1, 0), 2).unwrap().cost, 9);
    cache.clear();
    assert_eq!(cache.len(), 0);
}

#[test]
fn overflow_evicts_fewest_hits_then_oldest() {
    let mut cache: PathCache<GridPos> = PathCache::with_age_limit(3, 1_000_000);
    cache.insert_at(p(0, 0), p(1, 0), found(vec![p(0, 0), p(1, 0)], 1), 10);
    cache.insert_at(p(0, 0), p(2, 0), found(vec![p(0, 0), p(2, 0)], 2), 20);
    cache.insert_at(p(0, 0), p(3, 0), found(vec![p(0, 0), p(3, 0)], 3), 30);
    // the oldest gets a hit, so the second oldest goes first
    assert!(cache.get_at(&p(0, 0), &p(1, 0), 40).is_some());
    cache.insert_at(p(0, 0), p(4, 0), found(vec![p(0, 0), p(4, 0)], 4), 50);
    assert_eq!(cache.len(), 3);
    assert!(cache.get_at(&p(0, 0), &p(2, 0), 60).is_none());
    assert!(cache.get_at(&p(0, 0), &p(1, 0), 60).is_some());
    assert!(cache.get_at(&p(0, 0), &p(3, 0), 60).is_some());
    assert!(cache.get_at(&p(0, 0), &p(4, 0), 60).is_some());
}

#[test]
fn invalidation_looks_at_start_goal_and_path() {
    let mut cache: PathCache<GridPos> = PathCache::with_age_limit(8, 1_000_000);
    cache.insert_at(p(2, 0), p(5, 0), found(vec![p(2, 0), p(5, 0)], 1), 0);
    cache.insert_at(p(0, 0), p(2, 5), found(vec![p(0, 0), p(2, 5)], 1), 0);
    cache.insert_at(p(0, 0), p(4, 0), found(vec![p(0, 0), p(2, 1), p(4, 0)], 1), 0);
    cache.insert_at(p(0, 0), p(0, 4), found(vec![p(0, 0), p(0, 2), p(0, 4)], 1), 0);
    cache.invalidate_region(|n: &GridPos| n.x == 2);
    assert_eq!(cache.len(), 1);
    assert!(cache.get_at(&p(0, 0), &p(0, 4), 1).is_some());
}

#[test]
fn cached_search_serves_the_stored_result() {
    let mut cache = PathCache::new(4, Duration::from_secs(60));
    let mut grid = Grid2D::new(6, 6, DiagonalMode::Always);
    let heuristic = Diagonal::default();
    let config = AStarConfig::default();
    let first = astar_with_cache(&grid, &heuristic, p(0, 0), p(5, 0), config, &mut cache);
    assert_eq!(first.cost, 5_000_000);
    grid.set_blocked(3, 0, true);
    // the cache knows nothing of the change until it is told
    let again = astar_with_cache(&grid, &heuristic, p(0, 0), p(5, 0), config, &mut cache);
    assert_eq!(again.path, first.path);
    cache.invalidate_region(|n: &GridPos| n.x == 3 && n.y == 0);
    let fresh = astar_with_cache(&grid, &heuristic, p(0, 0), p(5, 0), config, &mut cache);
    assert_eq!(fresh.path, astar(&grid, &heuristic, p(0, 0), p(5, 0), config).path);
    assert!(fresh.cost > first.cost);
    // a search that finds nothing stores nothing
    grid.set_region_blocked((3, 0, 1, 6), true);
    cache.clear();
    let none = astar_with_cache(&grid, &heuristic, p(0, 0), p(5, 0), config, &mut cache);
    assert_eq!(none.status, PathStatus::NotFound);
    assert_eq!(cache.len(), 0);
}

#[test]
fn the_age_limit_is_counted_in_nanoseconds() {
    let mut cache: PathCache<GridPos> = PathCache::new(4, Duration::from_micros(1));
    cache.insert_at(p(0, 0), p(1, 0), found(vec![p(0, 0), p(1, 0)], 1_000_000), 0);
    assert!(cache.get_at(&p(0, 0), &p(1, 0), 999).is_some());
    assert!(cache.get_at(&p(0, 0), &p(1, 0), 1_000).is_none());
}

#[test]
fn invalidation_keeps_the_order_of_the_rest() {
    let mut cache: PathCache<GridPos> = PathCache::with_age_limit(8, 1_000_000);
    for x in 1..6 {
        cache.insert_at(p(0, 0), p(x, 0), found(vec![p(0, 0), p(x, 0)], x as u64), 0);
    }
    cache.invalidate_region(|n: &GridPos| n.x == 2 || n.x == 4);
    assert_eq!(cache.len(), 3);
    // when room is needed, the oldest of the entries that were never served leaves first
    let mut small: PathCache<GridPos> = PathCache::with_age_limit(3, 1_000_000);
    small.insert_at(p(0, 0), p(1, 0), found(vec![p(0, 0), p(1, 0)], 1), 0);
    small.insert_at(p(0, 0), p(2, 0), found(vec![p(0, 0), p(2, 0)], 2), 1);
    small.insert_at(p(0, 0), p(3, 0), found(vec![p(0, 0), p(3, 0)], 3), 2);
    small.invalidate_region(|n: &GridPos| n.x == 1);
    small.insert_at(p(0, 0), p(4, 0), found(vec![p(0, 0), p(4, 0)], 4), 3);
    small.insert_at(p(0, 0), p(5, 0), found(vec![p(0, 0), p(5, 0)], 5), 4);
    assert!(small.get_at(&p(0, 0), &p(2, 0), 5).is_none());
    assert!(small.get_at(&p(0, 0), &p(3, 0), 5).is_some());
    assert!(small.get_at(&p(0, 0), &p(4, 0), 5).is_some());
    assert!(small.get_at(&p(0, 0), &p(5, 0), 5).is_some());
}
