use birth_death::arena::FlatTree;
use birth_death::simulate::{
    conditional_bd, draw_bounds, draws_pair, next_event, other_position, Event, SimError, Simulation,
};
use rand::distributions::Bernoulli;
use rand::rngs::StdRng;
use rand::SeedableRng;

fn leaves(tree: &FlatTree) -> usize {
    tree.nodes.iter().filter(|n| n.left_child.is_none() && n.right_child.is_none()).count()
}

fn path_to_root(tree: &FlatTree, start: usize) -> usize {
    let mut at = start;
    let mut sum = tree.nodes[at].length;
    let mut steps = 0;
    while let Some(p) = tree.nodes[at].parent {
        assert!(p > at && p < tree.nodes.len());
        at = p;
        sum += tree.nodes[at].length;
        steps += 1;
        assert!(steps <= tree.nodes.len());
    }
    assert_eq!(at, tree.root);
    sum
}

fn assert_finished(sim: &Simulation, n_extant: usize) {
    let tree = &sim.tree;
    let size = tree.nodes.len();
    assert!(size >= n_extant);
    assert_eq!(tree.root, size - 1);
    assert_eq!(sim.extant, n_extant);
    assert_eq!(sim.time, size - n_extant + 1);
    assert_eq!(sim.lineages.len(), sim.time);
    assert!(sim.alive.is_empty());
    assert_eq!(2 * leaves(tree), size + 1);
    let mut parentless = 0;
    for (i, node) in tree.nodes.iter().enumerate() {
        assert_eq!(node.name, i.to_string());
        assert_eq!(node.left_child.is_some(), node.right_child.is_some());
        if let (Some(a), Some(b)) = (node.left_child, node.right_child) {
            assert!(a < i && b < i && a != b);
            assert_eq!(tree.nodes[a].parent, Some(i));
            assert_eq!(tree.nodes[b].parent, Some(i));
        }
        if i < n_extant {
            assert!(node.left_child.is_none());
        }
        if node.parent.is_none() {
            parentless += 1;
        }
        assert!(node.length >= 1);
        let made = if i < n_extant { 0 } else { i - n_extant + 1 };
        assert_eq!(node.depth, Some(sim.time - made));
        assert_eq!(path_to_root(tree, i), sim.time - made);
        assert_eq!(sim.branch_ticks(i), Some((made, made + node.length)));
    }
    assert_eq!(parentless, 1);
    assert!(tree.nodes[tree.root].parent.is_none());
    let mut n = n_extant;
    for (k, seen) in sim.lineages.iter().enumerate() {
        assert_eq!(*seen, n);
        assert!(n >= 1);
        if k + 1 < sim.time {
            if tree.nodes[n_extant + k].left_child.is_some() {
                n -= 1;
            } else {
                n += 1;
            }
        }
    }
    assert_eq!(n, 1);
}

#[test]
fn next_event_by_coin_and_lineages() {
    assert_eq!(next_event(true, 2), Event::Fusion);
    assert_eq!(next_event(true, 50), Event::Fusion);
    assert_eq!(next_event(true, 1), Event::Ending);
    assert_eq!(next_event(false, 1), Event::Death);
    assert_eq!(next_event(false, 7), Event::Death);
}

#[test]
fn other_position_skips_the_first() {
    assert_eq!(other_position(0, 0), 1);
    assert_eq!(other_position(2, 0), 0);
    assert_eq!(other_position(2, 1), 1);
    assert_eq!(other_position(2, 2), 3);
    assert_eq!(other_position(2, 5), 6);
    assert_eq!(other_position(7, 6), 6);
}

#[test]
fn start_makes_living_leaves() {
    let sim = Simulation::start(3);
    assert_eq!(sim.tree.len(), 3);
    assert_eq!(sim.alive, vec![0, 1, 2]);
    assert_eq!(sim.time, 0);
    assert_eq!(sim.extant, 3);
    assert!(sim.lineages.is_empty());
    for i in 0..3 {
        let node = sim.tree.node(i);
        assert_eq!(node.name, i.to_string());
        assert_eq!(node.left_child, None);
        assert_eq!(node.right_child, None);
        assert_eq!(node.parent, None);
        assert_eq!(node.depth, Some(0));
        assert_eq!(node.length, 0);
    }
}

#[test]
fn fuse_removes_the_pair_and_adds_the_ancestor() {
    let mut sim = Simulation::start(4);
    sim.fuse(0, 2);
    assert_eq!(sim.alive, vec![3, 1, 4]);
    assert_eq!(sim.time, 1);
    assert_eq!(sim.lineages, vec![4]);
    assert_eq!(sim.tree.len(), 5);
    let top = sim.tree.node(4);
    assert_eq!(top.name, "4");
    assert_eq!(top.left_child, Some(0));
    assert_eq!(top.right_child, Some(2));
    assert_eq!(top.parent, None);
    assert_eq!(top.depth, Some(1));
    assert_eq!(top.length, 0);
    assert_eq!(sim.tree.node(0).parent, Some(4));
    assert_eq!(sim.tree.node(0).length, 1);
    assert_eq!(sim.tree.node(2).parent, Some(4));
    assert_eq!(sim.tree.node(2).length, 1);
    assert_eq!(sim.tree.node(1).parent, None);
    assert_eq!(sim.tree.node(3).parent, None);
}

#[test]
fn fuse_keeps_left_and_right_as_drawn() {
    let mut sim = Simulation::start(4);
    sim.fuse(3, 1);
    assert_eq!(sim.alive, vec![0, 2, 4]);
    assert_eq!(sim.tree.node(4).left_child, Some(3));
    assert_eq!(sim.tree.node(4).right_child, Some(1));
    sim.fuse(2, 0);
    assert_eq!(sim.alive, vec![2, 5]);
    assert_eq!(sim.tree.node(5).left_child, Some(4));
    assert_eq!(sim.tree.node(5).right_child, Some(0));
    assert_eq!(sim.tree.node(5).depth, Some(2));
    assert_eq!(sim.tree.node(4).length, 1);
    assert_eq!(sim.tree.node(0).length, 2);
    assert_eq!(sim.lineages, vec![4, 3]);
}

#[test]
fn sprout_adds_a_living_leaf() {
    let mut sim = Simulation::start(2);
    sim.sprout();
    assert_eq!(sim.alive, vec![0, 1, 2]);
    assert_eq!(sim.time, 1);
    assert_eq!(sim.lineages, vec![2]);
    let leaf = sim.tree.node(2);
    assert_eq!(leaf.name, "2");
    assert_eq!(leaf.left_child, None);
    assert_eq!(leaf.right_child, None);
    assert_eq!(leaf.parent, None);
    assert_eq!(leaf.depth, Some(1));
    assert_eq!(leaf.length, 0);
}

#[test]
fn seal_turns_depths_round() {
    let mut sim = Simulation::start(2);
    sim.sprout();
    sim.fuse(0, 2);
    sim.fuse(1, 0);
    assert_eq!(sim.alive, vec![4]);
    sim.seal();
    assert!(sim.alive.is_empty());
    assert_eq!(sim.time, 4);
    assert_eq!(sim.lineages, vec![2, 3, 2, 1]);
    assert_eq!(sim.tree.root, 4);
    let depths: Vec<Option<usize>> = sim.tree.nodes.iter().map(|n| n.depth).collect();
    assert_eq!(depths, vec![Some(4), Some(4), Some(3), Some(2), Some(1)]);
    let lengths: Vec<usize> = sim.tree.nodes.iter().map(|n| n.length).collect();
    assert_eq!(lengths, vec![2, 3, 1, 1, 1]);
    let parents: Vec<Option<usize>> = sim.tree.nodes.iter().map(|n| n.parent).collect();
    assert_eq!(parents, vec![Some(3), Some(4), Some(3), Some(4), None]);
    assert_eq!(sim.tree.node(4).left_child, Some(3));
    assert_eq!(sim.tree.node(4).right_child, Some(1));
    assert_finished(&sim, 2);
}

#[test]
fn branch_ticks_of_a_finished_tree() {
    let mut sim = Simulation::start(2);
    sim.sprout();
    sim.fuse(0, 2);
    sim.fuse(1, 0);
    sim.seal();
    assert_eq!(sim.branch_ticks(0), Some((0, 2)));
    assert_eq!(sim.branch_ticks(1), Some((0, 3)));
    assert_eq!(sim.branch_ticks(2), Some((1, 2)));
    assert_eq!(sim.branch_ticks(3), Some((2, 3)));
    assert_eq!(sim.branch_ticks(4), Some((3, 4)));
    assert_eq!(sim.branch_ticks(5), None);
}

#[test]
fn branch_ticks_without_depth() {
    let mut sim = Simulation::start(1);
    sim.tree.set_depth(0, None);
    assert_eq!(sim.branch_ticks(0), None);
    sim.tree.set_depth(0, Some(1));
    assert_eq!(sim.branch_ticks(0), None);
}

#[test]
fn single_lineage_ends_at_once() {
    let mut sim = Simulation::start(1);
    sim.seal();
    assert_eq!(sim.tree.len(), 1);
    assert_eq!(sim.tree.root, 0);
    assert_eq!(sim.time, 1);
    assert_eq!(sim.lineages, vec![1]);
    let only = sim.tree.node(0);
    assert_eq!(only.parent, None);
    assert_eq!(only.left_child, None);
    assert_eq!(only.right_child, None);
    assert_eq!(only.length, 1);
    assert_eq!(only.depth, Some(1));
    assert_finished(&sim, 1);
}

#[test]
fn single_lineage_under_pure_birth() {
    let coin = Bernoulli::new(1.0).unwrap();
    let mut rng = StdRng::seed_from_u64(5);
    let sim = conditional_bd(&coin, &mut rng, 1, 100).unwrap();
    assert_eq!(sim.tree.len(), 1);
    assert_eq!(sim.time, 1);
    assert_eq!(sim.tree.node(0).length, 1);
    assert_eq!(leaves(&sim.tree), 1);
    assert_finished(&sim, 1);
}

#[test]
fn pure_birth_of_three_takes_two_fusions() {
    for seed in 0..50 {
        let coin = Bernoulli::new(1.0).unwrap();
        let mut rng = StdRng::seed_from_u64(seed);
        let sim = conditional_bd(&coin, &mut rng, 3, 100).unwrap();
        assert_eq!(sim.tree.len(), 5);
        assert_eq!(leaves(&sim.tree), 3);
        assert_eq!(sim.time, 3);
        assert_eq!(sim.lineages, vec![3, 2, 1]);
        assert_eq!(sim.tree.root, 4);
        assert!(sim.tree.node(3).left_child.is_some());
        assert!(sim.tree.node(4).left_child.is_some());
        let top = sim.tree.node(4);
        assert!(top.left_child == Some(3) || top.right_child == Some(3));
        for i in 0..3 {
            assert_eq!(path_to_root(&sim.tree, i), 3);
        }
        assert_finished(&sim, 3);
    }
}

#[test]
fn pure_birth_has_as_many_leaves_as_lineages() {
    for n in 1..40 {
        let coin = Bernoulli::new(1.0).unwrap();
        let mut rng = StdRng::seed_from_u64(n as u64);
        let sim = conditional_bd(&coin, &mut rng, n, 1000).unwrap();
        assert_eq!(leaves(&sim.tree), n);
        assert_eq!(sim.tree.len(), 2 * n - 1);
        assert_finished(&sim, n);
    }
}

#[test]
fn same_seed_same_tree() {
    let coin = Bernoulli::new(0.7).unwrap();
    let mut first = StdRng::seed_from_u64(99);
    let mut second = StdRng::seed_from_u64(99);
    let a = conditional_bd(&coin, &mut first, 20, 100_000).unwrap();
    let b = conditional_bd(&coin, &mut second, 20, 100_000).unwrap();
    assert_eq!(a.tree.len(), b.tree.len());
    for i in 0..a.tree.len() {
        assert_eq!(a.tree.node(i).left_child, b.tree.node(i).left_child);
        assert_eq!(a.tree.node(i).right_child, b.tree.node(i).right_child);
        assert_eq!(a.tree.node(i).parent, b.tree.node(i).parent);
        assert_eq!(a.tree.node(i).length, b.tree.node(i).length);
    }
}

#[test]
fn births_and_deaths_give_a_finished_tree() {
    let mut with_deaths = 0;
    for seed in 0..200 {
        let coin = Bernoulli::new(0.75).unwrap();
        let mut rng = StdRng::seed_from_u64(seed);
        let n_extant = 1 + (seed as usize % 12);
        match conditional_bd(&coin, &mut rng, n_extant, 1_000_000) {
            Ok(sim) => {
                assert_finished(&sim, n_extant);
                assert!(leaves(&sim.tree) >= n_extant);
                if leaves(&sim.tree) > n_extant {
                    with_deaths += 1;
                }
            }
            Err(e) => panic!("no tree: {:?}", e),
        }
    }
    assert!(with_deaths > 0);
}

#[test]
fn no_lineage_is_refused() {
    let coin = Bernoulli::new(0.5).unwrap();
    let mut rng = StdRng::seed_from_u64(1);
    assert_eq!(conditional_bd(&coin, &mut rng, 0, 10).err(), Some(SimError::NoLineages));
    assert_eq!(conditional_bd(&coin, &mut rng, 0, 0).err(), Some(SimError::NoLineages));
}

#[test]
fn more_lineages_than_the_limit_is_refused() {
    let coin = Bernoulli::new(1.0).unwrap();
    let mut rng = StdRng::seed_from_u64(1);
    assert_eq!(conditional_bd(&coin, &mut rng, 5, 4).err(), Some(SimError::NodeLimit));
}

#[test]
fn pure_birth_needs_room_for_the_inner_nodes() {
    let coin = Bernoulli::new(1.0).unwrap();
    let mut rng = StdRng::seed_from_u64(1);
    assert_eq!(conditional_bd(&coin, &mut rng, 5, 8).err(), Some(SimError::NodeLimit));
    let sim = conditional_bd(&coin, &mut rng, 5, 9).unwrap();
    assert_eq!(sim.tree.len(), 9);
}

#[test]
fn pure_death_runs_into_the_limit() {
    let coin = Bernoulli::new(0.0).unwrap();
    let mut rng = StdRng::seed_from_u64(3);
    assert_eq!(conditional_bd(&coin, &mut rng, 2, 500).err(), Some(SimError::NodeLimit));
}

#[test]
fn draw_bounds_are_all_and_the_others() {
    assert_eq!(draw_bounds(2), (2, 1));
    assert_eq!(draw_bounds(7), (7, 6));
}

#[test]
fn pair_bounds_count_the_living() {
    let mut sim = Simulation::start(4);
    assert_eq!(sim.pair_bounds(), (4, 3));
    sim.fuse(0, 1);
    assert_eq!(sim.pair_bounds(), (3, 2));
    sim.sprout();
    sim.sprout();
    assert_eq!(sim.pair_bounds(), (5, 4));
}

#[test]
fn event_for_counts_the_living() {
    let one = Simulation::start(1);
    assert_eq!(one.event_for(true), Event::Ending);
    assert_eq!(one.event_for(false), Event::Death);
    let mut three = Simulation::start(3);
    assert_eq!(three.event_for(true), Event::Fusion);
    assert_eq!(three.event_for(false), Event::Death);
    three.fuse(0, 1);
    assert_eq!(three.event_for(true), Event::Fusion);
    three.fuse(0, 1);
    assert_eq!(three.event_for(true), Event::Ending);
}

#[test]
fn only_a_fusion_draws_a_pair() {
    assert!(draws_pair(Event::Fusion));
    assert!(!draws_pair(Event::Ending));
    assert!(!draws_pair(Event::Death));
}

#[test]
fn step_fuses_the_pair_drawn() {
    let mut sim = Simulation::start(4);
    assert_eq!(sim.step(Event::Fusion, 2, 2, 100), Ok(false));
    assert_eq!(sim.alive, vec![0, 1, 4]);
    assert_eq!(sim.tree.node(4).left_child, Some(2));
    assert_eq!(sim.tree.node(4).right_child, Some(3));
    assert_eq!(sim.tree.node(2).parent, Some(4));
    assert_eq!(sim.tree.node(3).parent, Some(4));
    assert_eq!(sim.time, 1);
    assert_eq!(sim.lineages, vec![4]);
    assert_eq!(sim.step(Event::Fusion, 2, 0, 100), Ok(false));
    assert_eq!(sim.alive, vec![1, 5]);
    assert_eq!(sim.tree.node(5).left_child, Some(4));
    assert_eq!(sim.tree.node(5).right_child, Some(0));
    assert_eq!(sim.tree.node(4).length, 1);
    assert_eq!(sim.tree.node(0).length, 2);
    assert_eq!(sim.lineages, vec![4, 3]);
}

#[test]
fn step_is_fuse_at_the_other_position() {
    for first in 0..5 {
        for draw in 0..4 {
            let mut by_step = Simulation::start(5);
            let mut by_fuse = Simulation::start(5);
            assert_eq!(by_step.step(Event::Fusion, first, draw, 100), Ok(false));
            by_fuse.fuse(first, other_position(first, draw));
            assert_eq!(by_step.alive, by_fuse.alive);
            assert_eq!(by_step.tree.node(5).left_child, by_fuse.tree.node(5).left_child);
            assert_eq!(by_step.tree.node(5).right_child, by_fuse.tree.node(5).right_child);
            assert_eq!(by_step.tree.node(5).left_child, Some(first));
            assert_ne!(by_step.tree.node(5).right_child, Some(first));
        }
    }
}

#[test]
fn step_adds_a_leaf_on_a_death() {
    let mut sim = Simulation::start(2);
    assert_eq!(sim.step(Event::Death, 9, 9, 3), Ok(false));
    assert_eq!(sim.alive, vec![0, 1, 2]);
    assert_eq!(sim.tree.len(), 3);
    assert_eq!(sim.tree.node(2).left_child, None);
    assert_eq!(sim.tree.node(2).depth, Some(1));
    assert_eq!(sim.lineages, vec![2]);
}

#[test]
fn step_ends_the_run_on_the_last_birth() {
    let mut sim = Simulation::start(2);
    assert_eq!(sim.step(Event::Fusion, 1, 0, 3), Ok(false));
    assert_eq!(sim.step(Event::Ending, 0, 0, 0), Ok(true));
    assert!(sim.alive.is_empty());
    assert_eq!(sim.tree.root, 2);
    assert_eq!(sim.tree.node(2).left_child, Some(1));
    assert_eq!(sim.tree.node(2).right_child, Some(0));
    assert_eq!(sim.lineages, vec![2, 1]);
    assert_finished(&sim, 2);
}

#[test]
fn step_at_the_limit_leaves_the_run_as_it_was() {
    let mut sim = Simulation::start(3);
    assert_eq!(sim.step(Event::Fusion, 0, 0, 3), Err(SimError::NodeLimit));
    assert_eq!(sim.step(Event::Death, 0, 0, 3), Err(SimError::NodeLimit));
    assert_eq!(sim.step(Event::Death, 0, 0, 2), Err(SimError::NodeLimit));
    assert_eq!(sim.alive, vec![0, 1, 2]);
    assert_eq!(sim.tree.len(), 3);
    assert_eq!(sim.time, 0);
    assert!(sim.lineages.is_empty());
    for i in 0..3 {
        assert_eq!(sim.tree.node(i).parent, None);
        assert_eq!(sim.tree.node(i).length, 0);
        assert_eq!(sim.tree.node(i).depth, Some(0));
    }
    assert_eq!(sim.step(Event::Fusion, 0, 0, 4), Ok(false));
    assert_eq!(sim.tree.len(), 4);
}
