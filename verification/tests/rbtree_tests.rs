use interlock::rwcore::index::Endpoint;
use interlock::utils::rbtree::RbTree;

fn ep(pos: usize, is_end: bool) -> Endpoint {
    Endpoint { pos, owner: 0, is_end }
}

fn contents(t: &RbTree<Endpoint>) -> Vec<usize> {
    (0..t.len()).map(|i| t.get(i).pos).collect()
}

#[test]
fn rbtree_starts_empty() {
    let t: RbTree<Endpoint> = RbTree::new();
    assert_eq!(t.len(), 0);
    assert_eq!(t.prefix_sum(0), 0);
}

#[test]
fn rbtree_insert_at_positions() {
    let mut t = RbTree::new();
    t.insert(0, ep(10, false));
    t.insert(1, ep(30, false));
    t.insert(1, ep(20, false));
    t.insert(0, ep(5, false));
    assert_eq!(contents(&t), vec![5, 10, 20, 30]);
    assert_eq!(t.get(2).pos, 20);
}

#[test]
fn rbtree_remove_returns_element() {
    let mut t = RbTree::new();
    for (i, x) in [1usize, 2, 3, 4, 5].iter().enumerate() {
        t.insert(i, ep(*x, false));
    }
    assert_eq!(t.remove(2).pos, 3);
    assert_eq!(t.remove(0).pos, 1);
    assert_eq!(t.remove(2).pos, 5);
    assert_eq!(contents(&t), vec![2, 4]);
    assert_eq!(t.len(), 2);
}

#[test]
fn rbtree_prefix_sums_of_weights() {
    let mut t = RbTree::new();
    // starts weigh +1, ends -1
    let items = [(0, false), (2, false), (3, true), (5, false), (7, true), (9, true)];
    for (i, (pos, is_end)) in items.iter().enumerate() {
        t.insert(i, ep(*pos, *is_end));
    }
    let expected = [0i128, 1, 2, 1, 2, 1, 0];
    for (i, e) in expected.iter().enumerate() {
        assert_eq!(t.prefix_sum(i), *e);
    }
    t.remove(1);
    assert_eq!(t.prefix_sum(5), -1);
}

#[test]
fn rbtree_matches_vector_model() {
    let mut seed: u64 = 0x2545_f491_4f6c_dd1d;
    let mut next = move |bound: usize| -> usize {
        seed ^= seed << 13;
        seed ^= seed >> 7;
        seed ^= seed << 17;
        (seed % (bound as u64)) as usize
    };
    let mut t = RbTree::new();
    let mut model: Vec<(usize, bool)> = Vec::new();
    for step in 0..4000usize {
        if model.is_empty() || next(3) != 0 {
            let i = next(model.len() + 1);
            let is_end = next(2) == 0;
            t.insert(i, ep(step, is_end));
            model.insert(i, (step, is_end));
        } else {
            let i = next(model.len());
            assert_eq!(t.remove(i).pos, model.remove(i).0);
        }
        assert_eq!(t.len(), model.len());
        if step % 97 == 0 {
            assert_eq!(contents(&t), model.iter().map(|x| x.0).collect::<Vec<_>>());
            let k = next(model.len() + 1);
            let sum: i128 = model[..k].iter().map(|x| if x.1 { -1 } else { 1 }).sum();
            assert_eq!(t.prefix_sum(k), sum);
        }
    }
    while !model.is_empty() {
        let i = next(model.len());
        assert_eq!(t.remove(i).pos, model.remove(i).0);
    }
    assert_eq!(t.len(), 0);
}
