use pathforge::algorithms::astar::{astar, AStarConfig, TieBreaking};
use pathforge::traits::{Graph, Heuristic, Keyed, PathStatus};

#[derive(Clone, Copy, Debug, PartialEq, Eq)]
struct Spot(u32);

// The functions of the three traits that only contracts speak of are never called.
impl Keyed for Spot {
    fn key_of(self) -> u128 {
        unreachable!()
    }

    fn key(&self) -> u128 {
        self.0 as u128
    }

    fn key_is_injective(_a: Self, _b: Self) {
    }
}

struct Net {
    out: Vec<Vec<(Spot, u64)>>,
}

impl Graph for Net {
    type Node = Spot;

    fn well_formed(&self) -> bool {
        unreachable!()
    }

    fn passable(&self, _node: Spot) -> bool {
        unreachable!()
    }

    fn edges(&self, _node: Spot) -> vstd::seq::Seq<(Spot, u64)> {
        unreachable!()
    }

    fn visible(&self, _from: Spot, _to: Spot) -> bool {
        unreachable!()
    }

    fn is_passable(&self, node: &Spot) -> bool {
        (node.0 as usize) < self.out.len()
    }

    fn neighbors(&self, node: &Spot) -> Vec<(Spot, u64)> {
        self.out[node.0 as usize].clone()
    }

    fn can_traverse(&self, _from: &Spot, _to: &Spot) -> bool {
        true
    }
}

struct Guess {
    h: Vec<u64>,
}

impl Heuristic<Spot> for Guess {
    fn estimate_of(&self, _from: Spot, _to: Spot) -> u64 {
        unreachable!()
    }

    fn estimate(&self, from: &Spot, _to: &Spot) -> u64 {
        self.h[from.0 as usize]
    }

    fn admissible(&self) -> bool {
        unreachable!()
    }

    fn is_admissible(&self) -> bool {
        false
    }
}

struct Rng(u64);

impl Rng {
    fn next(&mut self, bound: u64) -> u64 {
        self.0 = self.0.wrapping_mul(6364136223846793005).wrapping_add(1442695040888963407);
        (self.0 >> 33) % bound
    }
}

fn cheapest(net: &Net, from: usize, to: usize) -> Option<u64> {
    let n = net.out.len();
    let mut dist = vec![u64::MAX; n];
    dist[from] = 0;
    for _ in 0..n {
        for a in 0..n {
            if dist[a] == u64::MAX {
                continue;
            }
            for (b, c) in &net.out[a] {
                if dist[a] + c < dist[b.0 as usize] {
                    dist[b.0 as usize] = dist[a] + c;
                }
            }
        }
    }
    if dist[to] == u64::MAX {
        None
    } else {
        Some(dist[to])
    }
}

#[test]
fn reported_cost_is_the_cost_of_the_path_whatever_the_heuristic() {
    let mut rng = Rng(2024);
    let modes = [TieBreaking::NoPreference, TieBreaking::PreferHigherG, TieBreaking::PreferLowerG];
    for round in 0..4000 {
        let n = 3 + rng.next(5) as usize;
        let mut out = vec![Vec::new(); n];
        let edges = n + rng.next(3 * n as u64) as usize;
        for _ in 0..edges {
            let a = rng.next(n as u64) as usize;
            let b = rng.next(n as u64) as u32;
            out[a].push((Spot(b), rng.next(6)));
        }
        let net = Net { out };
        let guess = Guess { h: (0..n).map(|_| rng.next(30)).collect() };
        let config = AStarConfig { max_iterations: None, timeout: None, tie_breaking: modes[round % 3] };
        let goal = (n - 1) as u32;
        let res = astar(&net, &guess, Spot(0), Spot(goal), config);
        let best = cheapest(&net, 0, goal as usize);
        assert_eq!(res.status == PathStatus::Found, best.is_some(), "round {}", round);
        if res.status != PathStatus::Found {
            continue;
        }
        assert_eq!(res.path[0], Spot(0));
        assert_eq!(*res.path.last().unwrap(), Spot(goal));
        // every step is an edge, and the cheapest edges between the steps cost no more than reported
        let mut least = 0;
        for pair in res.path.windows(2) {
            let c = net.out[pair[0].0 as usize].iter().filter(|(b, _)| *b == pair[1]).map(|(_, c)| *c).min();
            least += c.unwrap();
        }
        assert!(least <= res.cost, "round {}", round);
        assert!(best.unwrap() <= res.cost);
        // with a heuristic that never overestimates, the path is a cheapest one
        let exact = Guess { h: (0..n).map(|a| cheapest(&net, a, goal as usize).unwrap_or(0)).collect() };
        let sharp = astar(&net, &exact, Spot(0), Spot(goal), config);
        assert_eq!(sharp.cost, best.unwrap(), "round {}", round);
        let zero = Guess { h: vec![0; n] };
        assert_eq!(astar(&net, &zero, Spot(0), Spot(goal), config).cost, best.unwrap());
    }
}

#[test]
fn reported_cost_is_the_sum_of_the_steps_on_random_graphs() {
    let mut rng = Rng(77);
    for round in 0..20000 {
        let n = 4 + rng.next(4) as usize;
        let mut out = vec![Vec::new(); n];
        let edges = n + rng.next(3 * n as u64) as usize;
        for _ in 0..edges {
            let a = rng.next(n as u64) as usize;
            let b = rng.next(n as u64) as u32;
            if out[a].iter().all(|(t, _): &(Spot, u64)| t.0 != b) {
                out[a].push((Spot(b), rng.next(9)));
            }
        }
        let net = Net { out };
        let guess = Guess { h: (0..n).map(|_| rng.next(40)).collect() };
        let goal = (n - 1) as u32;
        let res = astar(&net, &guess, Spot(0), Spot(goal), AStarConfig::default());
        if res.status != PathStatus::Found {
            continue;
        }
        let mut sum = 0;
        for pair in res.path.windows(2) {
            sum += net.out[pair[0].0 as usize].iter().find(|(b, _)| *b == pair[1]).unwrap().1;
        }
        assert_eq!(sum, res.cost, "round {}", round);
    }
}

#[test]
fn estimates_that_saturate_the_priorities_can_part_cost_and_path() {
    // 0 -> 1 costs 10; the cheaper way 0 -> 2 -> 1 is found after 1 was expanded
    let net = Net {
        out: vec![
            vec![(Spot(1), 10), (Spot(2), 1)],
            vec![(Spot(3), 1)],
            vec![(Spot(1), 1)],
            vec![(Spot(4), 1)],
            vec![],
        ],
    };
    let config = AStarConfig { max_iterations: None, timeout: None, tie_breaking: TieBreaking::NoPreference };
    let wild = Guess { h: vec![0, u64::MAX, u64::MAX, u64::MAX, 0] };
    let res = astar(&net, &wild, Spot(0), Spot(4), config);
    assert_eq!(res.status, PathStatus::Found);
    assert_eq!(res.path, vec![Spot(0), Spot(2), Spot(1), Spot(3), Spot(4)]);
    assert_eq!(res.cost, 12);
    // with bounded estimates the cost is that of the path
    let tame = Guess { h: vec![0, 1_000, 1_000, 1_000, 0] };
    let res = astar(&net, &tame, Spot(0), Spot(4), config);
    assert_eq!(res.status, PathStatus::Found);
    let mut sum = 0;
    for pair in res.path.windows(2) {
        sum += net.out[pair[0].0 as usize].iter().find(|(b, _)| *b == pair[1]).unwrap().1;
    }
    assert_eq!(sum, res.cost);
}
