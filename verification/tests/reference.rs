use rusty_potree_converter::model::bounds::Bounds;
use rusty_potree_converter::model::node::Node;
use rusty_potree_converter::model::vector3::Vector3;
use rusty_potree_converter::potree::Potree;

// A plain octree that adds the buffered points of a splitting leaf again
// through its own insertion, to hold the library against.
struct Plain {
    squared_spacing: u128,
    lower: [i64; 3],
    upper: [i64; 3],
    children: Vec<Option<Box<Plain>>>,
    limit: u32,
    grid: Vec<Vec<Vec<Vector3>>>,
    store: Vec<Vector3>,
    path: Vec<u8>,
}

fn middle(l: i64, u: i64) -> i64 {
    l + (u - l) / 2
}

fn octant(p: &Vector3, lower: &[i64; 3], upper: &[i64; 3]) -> usize {
    let mut index = 0;
    if p.x >= middle(lower[0], upper[0]) {
        index += 4;
    }
    if p.y >= middle(lower[1], upper[1]) {
        index += 2;
    }
    if p.z >= middle(lower[2], upper[2]) {
        index += 1;
    }
    index
}

fn child_cell(lower: &[i64; 3], upper: &[i64; 3], index: usize) -> ([i64; 3], [i64; 3]) {
    let mut l = *lower;
    let mut u = *upper;
    for axis in 0..3 {
        let m = middle(lower[axis], upper[axis]);
        if index & (4 >> axis) == 0 {
            u[axis] = m;
        } else {
            l[axis] = m;
        }
    }
    (l, u)
}

impl Plain {
    fn new(path: Vec<u8>, squared_spacing: u128, lower: [i64; 3], upper: [i64; 3], limit: u32) -> Plain {
        Plain {
            squared_spacing,
            lower,
            upper,
            children: (0..8).map(|_| None).collect(),
            limit,
            grid: vec![vec![Vec::new(); 8]; 8],
            store: Vec::new(),
            path,
        }
    }

    fn is_leaf(&self) -> bool {
        self.children.iter().all(|c| c.is_none())
    }

    fn new_child(&self, index: usize) -> Plain {
        let (l, u) = child_cell(&self.lower, &self.upper, index);
        let mut path = self.path.clone();
        path.push(index as u8);
        Plain::new(path, (self.squared_spacing + 3) / 4, l, u, self.limit)
    }

    fn add_point(&mut self, point: Vector3) {
        if self.is_leaf() {
            self.store.push(point);
            if self.store.len() >= self.limit as usize {
                let index = octant(&point, &self.lower, &self.upper);
                self.children[index] = Some(Box::new(self.new_child(index)));
                for p in self.store.clone() {
                    self.add_point(p);
                }
                self.store = Vec::new();
            }
        } else {
            let outer = octant(&point, &self.lower, &self.upper);
            let (l, u) = child_cell(&self.lower, &self.upper, outer);
            let inner = octant(&point, &l, &u);
            let near = self.grid[outer][inner].iter().any(|q| {
                let d = |a: i64, b: i64| ((a - b) as i128 * (a - b) as i128) as u128;
                d(q.x, point.x) + d(q.y, point.y) + d(q.z, point.z) < self.squared_spacing
            });
            if near {
                if self.children[outer].is_none() {
                    self.children[outer] = Some(Box::new(self.new_child(outer)));
                }
                self.children[outer].as_mut().unwrap().add_point(point);
            } else {
                self.grid[outer][inner].push(point);
            }
        }
    }
}

fn same(plain: &Plain, node: &Node) {
    assert_eq!(plain.path, node.path);
    assert_eq!(plain.squared_spacing, node.squared_spacing);
    assert_eq!(
        Bounds::new(
            plain.upper[0],
            plain.upper[1],
            plain.upper[2],
            plain.lower[0],
            plain.lower[1],
            plain.lower[2]
        ),
        node.bounds
    );
    assert_eq!(plain.store, node.initial_store);
    for o in 0..8 {
        for i in 0..8 {
            assert_eq!(plain.grid[o][i], node.grid[o][i]);
        }
        match (&plain.children[o], &node.children[o]) {
            (Some(a), Some(b)) => same(a, b),
            (None, None) => {}
            _ => panic!("a child in one tree only"),
        }
    }
}

fn clustered_points(count: usize, seed: u64) -> Vec<Vector3> {
    let mut state = seed;
    let mut next = move |modulus: u64| {
        state = state.wrapping_mul(6364136223846793005).wrapping_add(1442695040888963407);
        ((state >> 33) % modulus) as i64
    };
    let mut points = Vec::new();
    for _ in 0..count {
        let spread = [1_000_000, 10_000, 100, 3][next(4) as usize];
        let corner = next(4) * 250_000;
        points.push(Vector3 {
            x: corner + next(spread as u64),
            y: corner / 2 + next(spread as u64),
            z: next(spread as u64) - 500,
        });
    }
    points
}

#[test]
fn trees_match_a_plain_octree() {
    for (seed, limit) in [(1u64, 0u32), (2, 1), (3, 2), (4, 3), (5, 7), (6, 50), (7, 400)] {
        let points = clustered_points(3_000, seed);
        let tree = Potree::new(points.clone(), limit).unwrap();
        let cube = tree.cubic_bounds();
        let mut plain = Plain::new(
            Vec::new(),
            tree.squared_spacing(),
            [cube.lx, cube.ly, cube.lz],
            [cube.ux, cube.uy, cube.uz],
            limit,
        );
        for p in points {
            plain.add_point(p);
        }
        same(&plain, tree.root());
    }
}
