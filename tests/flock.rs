use boids::Flock;

type V = (f32, f32);

#[derive(Clone, Copy, Debug, PartialEq)]
struct Agent {
    pos: V,
    vel: V,
}

fn agent(x: f32, y: f32, vx: f32, vy: f32) -> Agent {
    Agent { pos: (x, y), vel: (vx, vy) }
}

fn diff(a: &Agent, b: &Agent) -> V {
    (b.pos.0 - a.pos.0, b.pos.1 - a.pos.1)
}

fn neg(d: V) -> V {
    (-1.0 * d.0, -1.0 * d.1)
}

fn keep(f: &Flock<Agent, V>, i: usize) -> Agent {
    f.boids()[i]
}

fn drift(a: &Agent) -> Agent {
    Agent { pos: (a.pos.0 + a.vel.0, a.pos.1 + a.vel.1), vel: a.vel }
}

/// Pushes an agent away from every agent closer than 30, one unit per
/// neighbour, reading the displacement cache.
fn push_apart(f: &Flock<Agent, V>, i: usize) -> Agent {
    let mut a = f.boids()[i];
    for j in 0..f.len() {
        let d = f.displacement(i, j).unwrap();
        let len = (d.0 * d.0 + d.1 * d.1).sqrt();
        if len > 0.0 && len < 30.0 {
            a.vel = (a.vel.0 - d.0 / len, a.vel.1 - d.1 / len);
        }
    }
    a
}

#[test]
fn new_has_square_zero_cache() {
    let f: Flock<Agent, V> = Flock::new(vec![agent(1.0, 2.0, 0.0, 0.0); 3], (0.0, 0.0));
    assert_eq!(f.len(), 3);
    assert_eq!(f.cache_len(), 3);
    for i in 0..3 {
        for j in 0..3 {
            assert_eq!(f.displacement(i, j), Some((0.0, 0.0)));
        }
    }
    assert_eq!(f.displacement(3, 0), None);
    assert_eq!(f.displacement(0, 3), None);
}

#[test]
fn add_boid_on_empty_flock() {
    let mut f: Flock<Agent, V> = Flock::new(Vec::new(), (0.0, 0.0));
    f.add_boid(agent(5.0, 5.0, 0.5, -1.0));
    assert_eq!(f.len(), 1);
    assert_eq!(f.boids()[0].pos, (5.0, 5.0));
    let v = f.boids()[0].vel;
    assert!(-1.0 <= v.0 && v.0 <= 1.0 && -1.0 <= v.1 && v.1 <= 1.0);
    // the cache keeps its stale size until the next step
    assert_eq!(f.cache_len(), 0);
    assert_eq!(f.displacement(0, 0), None);
    f.update(&diff, &neg, &keep, &drift);
    assert_eq!(f.cache_len(), 1);
    assert_eq!(f.displacement(0, 0), Some((0.0, 0.0)));
}

#[test]
fn add_boid_keeps_order() {
    let mut f: Flock<Agent, V> = Flock::new(vec![agent(1.0, 1.0, 0.0, 0.0)], (0.0, 0.0));
    f.add_boid(agent(2.0, 2.0, 0.0, 0.0));
    f.add_boid(agent(3.0, 3.0, 0.0, 0.0));
    let xs: Vec<f32> = f.boids().iter().map(|a| a.pos.0).collect();
    assert_eq!(xs, vec![1.0, 2.0, 3.0]);
    assert_eq!(f.cache_len(), 1);
}

#[test]
fn rebuild_two_agents_displacement() {
    let mut f: Flock<Agent, V> =
        Flock::new(vec![agent(0.0, 0.0, 0.0, 0.0), agent(10.0, 0.0, 0.0, 0.0)], (0.0, 0.0));
    f.rebuild_cache(&diff, &neg);
    assert_eq!(f.displacement(0, 1), Some((10.0, 0.0)));
    assert_eq!(f.displacement(1, 0), Some((-10.0, 0.0)));
    assert_eq!(f.displacement(0, 0), Some((0.0, 0.0)));
    assert_eq!(f.displacement(1, 1), Some((0.0, 0.0)));
}

#[test]
fn rebuild_cache_is_antisymmetric() {
    let agents = vec![
        agent(0.0, 0.0, 0.0, 0.0),
        agent(3.5, -2.0, 0.0, 0.0),
        agent(-7.25, 11.0, 0.0, 0.0),
        agent(100.0, 40.0, 0.0, 0.0),
    ];
    let mut f: Flock<Agent, V> = Flock::new(Vec::new(), (9.0, 9.0));
    for a in agents {
        f.add_boid(a);
    }
    f.rebuild_cache(&diff, &neg);
    assert_eq!(f.cache_len(), 4);
    for i in 0..4 {
        assert_eq!(f.displacement(i, i), Some((0.0, 0.0)));
        for j in 0..4 {
            let a = f.displacement(i, j).unwrap();
            let b = f.displacement(j, i).unwrap();
            assert_eq!(a, (-b.0, -b.1));
        }
    }
    assert_eq!(f.displacement(1, 2), Some((-10.75, 13.0)));
    assert_eq!(f.displacement(2, 1), Some((10.75, -13.0)));
}

#[test]
fn two_agents_move_apart() {
    let mut f: Flock<Agent, V> =
        Flock::new(vec![agent(0.0, 0.0, 0.0, 0.0), agent(10.0, 0.0, 0.0, 0.0)], (0.0, 0.0));
    f.update(&diff, &neg, &push_apart, &drift);
    assert_eq!(f.displacement(0, 1), Some((10.0, 0.0)));
    assert_eq!(f.boids()[0].vel, (-1.0, 0.0));
    assert_eq!(f.boids()[1].vel, (1.0, 0.0));
    assert_eq!(f.boids()[0].pos, (-1.0, 0.0));
    assert_eq!(f.boids()[1].pos, (11.0, 0.0));
}

#[test]
fn steering_reads_the_flock_before_the_pass() {
    // every agent takes the velocity of its successor; agent 0 must see the
    // old velocity of agent 1, not the one agent 1 was just given
    let succ = |f: &Flock<Agent, V>, i: usize| {
        let b = f.boids();
        let mut a = b[i];
        a.vel = b[(i + 1) % b.len()].vel;
        a
    };
    let mut f: Flock<Agent, V> = Flock::new(
        vec![agent(0.0, 0.0, 1.0, 0.0), agent(0.0, 0.0, 2.0, 0.0), agent(0.0, 0.0, 3.0, 0.0)],
        (0.0, 0.0),
    );
    f.steer_all(&succ);
    let vx: Vec<f32> = f.boids().iter().map(|a| a.vel.0).collect();
    assert_eq!(vx, vec![2.0, 3.0, 1.0]);
}

#[test]
fn advance_all_moves_each_agent() {
    let mut f: Flock<Agent, V> =
        Flock::new(vec![agent(1.0, 1.0, 0.5, 0.0), agent(2.0, 2.0, 0.0, -0.5)], (0.0, 0.0));
    f.advance_all(&drift);
    assert_eq!(f.boids()[0].pos, (1.5, 1.0));
    assert_eq!(f.boids()[1].pos, (2.0, 1.5));
    assert_eq!(f.cache_len(), 2);
}

#[test]
fn empty_flock_stays_empty() {
    let mut f: Flock<Agent, V> = Flock::new(Vec::new(), (0.0, 0.0));
    for _ in 0..10 {
        f.update(&diff, &neg, &push_apart, &drift);
        assert_eq!(f.len(), 0);
        assert_eq!(f.cache_len(), 0);
    }
}

#[test]
fn lone_agent_moves_in_straight_line() {
    let mut f: Flock<Agent, V> = Flock::new(vec![agent(500.0, 500.0, 0.5, -0.25)], (0.0, 0.0));
    for k in 1..=40 {
        f.update(&diff, &neg, &push_apart, &drift);
        let a = f.boids()[0];
        assert_eq!(a.vel, (0.5, -0.25));
        assert_eq!(a.pos, (500.0 + 0.5 * k as f32, 500.0 - 0.25 * k as f32));
    }
}

#[test]
fn update_is_repeatable_from_equal_states() {
    let start = vec![
        agent(0.0, 0.0, 0.25, 0.0),
        agent(10.0, 0.0, 0.0, 0.5),
        agent(5.0, 20.0, -0.5, 0.0),
    ];
    let mut f: Flock<Agent, V> = Flock::new(start.clone(), (0.0, 0.0));
    let mut g: Flock<Agent, V> = Flock::new(start, (0.0, 0.0));
    for _ in 0..5 {
        f.update(&diff, &neg, &push_apart, &drift);
        g.update(&diff, &neg, &push_apart, &drift);
    }
    assert_eq!(f.boids(), g.boids());
}
