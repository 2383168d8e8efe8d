//! RRT, RRT* and RRT-Connect over a shared search tree.
//!
//! The caller supplies the configuration space through three callbacks:
//! `sample` draws a configuration, `extend(from, toward)` steps from one
//! configuration toward another, and `connectable(from, to)` says whether
//! the edge between two configurations is valid.
use crate::tree::{dist, step_cost, Distance, Tree};
use std::hash::Hash;
use vstd::prelude::*;

verus! {

/// `extend` can be called on any pair of configurations.
pub open spec fn callable_extend<T, FE: Fn(&T, &T) -> T>(extend: FE) -> bool {
    forall|a: &T, b: &T| #[trigger] extend.requires((a, b))
}

/// `connectable` can be called on any pair of configurations.
pub open spec fn callable_connectable<T, FC: Fn(&T, &T) -> bool>(connectable: FC) -> bool {
    forall|a: &T, b: &T| #[trigger] connectable.requires((a, b))
}

/// `m` gives, for each pair, the one result that `extend` can return.
pub open spec fn models_extend<T, FE: Fn(&T, &T) -> T>(extend: FE, m: spec_fn(T, T) -> T) -> bool {
    forall|a: &T, b: &T, r: T| #[trigger] extend.ensures((a, b), r) ==> r == m(*a, *b)
}

/// `m` gives, for each pair, the one answer that `connectable` can return.
pub open spec fn models_connectable<T, FC: Fn(&T, &T) -> bool>(
    connectable: FC,
    m: spec_fn(T, T) -> bool,
) -> bool {
    forall|a: &T, b: &T, r: bool| #[trigger] connectable.ensures((a, b), r) ==> r == m(*a, *b)
}

/// The points that RRT-Connect adds when it walks from `cur`, at distance
/// `d` from `s`, toward `s`, where `extend` steps and `connectable` judges
/// edges: it takes steps while each step gets closer to `s` and is
/// connectable, and ends with `s` once `s` can be joined.
pub open spec fn connect_steps<T: Distance>(
    extend: spec_fn(T, T) -> T,
    connectable: spec_fn(T, T) -> bool,
    cur: T,
    s: T,
    d: u64,
) -> Seq<T>
    decreases d,
{
    let next = extend(cur, s);
    let d2 = dist(next, s);
    if d2 >= d || !connectable(cur, next) {
        Seq::empty()
    } else if connectable(next, s) {
        seq![next, s]
    } else {
        seq![next] + connect_steps(extend, connectable, next, s, d2)
    }
}

/// The points that `extend_tree` proposes for the sample `s`, grown from
/// `nearest`, where `extend` steps and `connectable` judges edges.
pub open spec fn extension<T: Distance>(
    extend: spec_fn(T, T) -> T,
    connectable: spec_fn(T, T) -> bool,
    nearest: T,
    s: T,
    use_connect: bool,
) -> Seq<T> {
    if connectable(nearest, s) {
        seq![s]
    } else if use_connect {
        connect_steps(extend, connectable, nearest, s, dist(nearest, s))
    } else if connectable(nearest, extend(nearest, s)) {
        seq![extend(nearest, s)]
    } else {
        Seq::empty()
    }
}

/// Attempts to extend the tree toward `sample`.
///
/// Returns the new points, in the order in which they chain from the
/// nearest node of the tree, together with that nearest node. If
/// `use_connect`, keeps extending until the sample is reached or no
/// further progress can be made.
pub fn extend_tree<T, FE, FC>(
    tree: &Tree<T>,
    sample: T,
    extend: &FE,
    connectable: &FC,
    use_connect: bool,
) -> (r: (Vec<T>, T)) where
    T: Eq + Copy + Hash + Distance,
    FE: Fn(&T, &T) -> T,
    FC: Fn(&T, &T) -> bool,

    requires
        tree.wf(),
        callable_extend(*extend),
        callable_connectable(*connectable),
    ensures
        r.1 == tree.nearest(sample),
        tree.contains(r.1),
        forall|em: spec_fn(T, T) -> T, cm: spec_fn(T, T) -> bool|
            #![trigger models_extend(*extend, em), models_connectable(*connectable, cm)]
            models_extend(*extend, em) && models_connectable(*connectable, cm) ==> r.0@ == extension(
                em,
                cm,
                r.1,
                sample,
                use_connect,
            ),
{
    let nearest = *tree.nearest_neighbor(&sample);
    let mut path: Vec<T> = Vec::new();
    let direct = connectable(&nearest, &sample);
    if direct {
        path.push(sample);
    } else if use_connect {
        let mut current = nearest;
        let mut distance_to_sample = current.distance(&sample);
        let ghost start_d = distance_to_sample;
        loop
            invariant_except_break
                forall|cm: spec_fn(T, T) -> bool|
                    #[trigger] models_connectable(*connectable, cm) ==> !cm(current, sample),
                forall|em: spec_fn(T, T) -> T, cm: spec_fn(T, T) -> bool|
                    #![trigger models_extend(*extend, em), models_connectable(*connectable, cm)]
                    models_extend(*extend, em) && models_connectable(*connectable, cm) ==> path@
                        + connect_steps(em, cm, current, sample, distance_to_sample)
                        == connect_steps(em, cm, nearest, sample, start_d),
            invariant
                callable_extend(*extend),
                callable_connectable(*connectable),
                distance_to_sample == dist(current, sample),
            ensures
                forall|em: spec_fn(T, T) -> T, cm: spec_fn(T, T) -> bool|
                    #![trigger models_extend(*extend, em), models_connectable(*connectable, cm)]
                    models_extend(*extend, em) && models_connectable(*connectable, cm) ==> path@
                        == connect_steps(em, cm, nearest, sample, start_d),
            decreases distance_to_sample,
        {
            let new_point = extend(&current, &sample);
            let new_distance = new_point.distance(&sample);
            let progress = new_distance < distance_to_sample;
            let joined = progress && connectable(&current, &new_point);
            if !joined {
                proof {
                    assert forall|em: spec_fn(T, T) -> T, cm: spec_fn(T, T) -> bool|
                        #![trigger models_extend(*extend, em), models_connectable(*connectable, cm)]
                        models_extend(*extend, em) && models_connectable(*connectable, cm) implies path@
                            == connect_steps(em, cm, nearest, sample, start_d) by {
                        assert(em(current, sample) == new_point);
                        assert(connect_steps(em, cm, current, sample, distance_to_sample) == Seq::<T>::empty());
                        assert(path@ + Seq::<T>::empty() =~= path@);
                    }
                }
                break;
            }
            let arrived = connectable(&new_point, &sample);
            if arrived {
                let ghost before = path@;
                path.push(new_point);
                path.push(sample);
                proof {
                    assert forall|em: spec_fn(T, T) -> T, cm: spec_fn(T, T) -> bool|
                        #![trigger models_extend(*extend, em), models_connectable(*connectable, cm)]
                        models_extend(*extend, em) && models_connectable(*connectable, cm) implies path@
                            == connect_steps(em, cm, nearest, sample, start_d) by {
                        assert(em(current, sample) == new_point);
                        assert(cm(current, new_point));
                        assert(cm(new_point, sample));
                        assert(connect_steps(em, cm, current, sample, distance_to_sample) == seq![new_point, sample]);
                        assert(path@ =~= before + seq![new_point, sample]);
                    }
                }
                break;
            }
            proof {
                assert forall|em: spec_fn(T, T) -> T, cm: spec_fn(T, T) -> bool|
                    #![trigger models_extend(*extend, em), models_connectable(*connectable, cm)]
                    models_extend(*extend, em) && models_connectable(*connectable, cm) implies path@.push(new_point)
                        + connect_steps(em, cm, new_point, sample, new_distance)
                        == connect_steps(em, cm, nearest, sample, start_d) by {
                    assert(em(current, sample) == new_point);
                    assert(cm(current, new_point));
                    assert(!cm(new_point, sample));
                    assert(connect_steps(em, cm, current, sample, distance_to_sample) == seq![new_point]
                        + connect_steps(em, cm, new_point, sample, new_distance));
                    assert(path@.push(new_point) + connect_steps(em, cm, new_point, sample, new_distance)
                        =~= path@ + (seq![new_point] + connect_steps(em, cm, new_point, sample, new_distance)));
                }
            }
            path.push(new_point);
            distance_to_sample = new_distance;
            current = new_point;
        }
    } else {
        let new_point = extend(&nearest, &sample);
        if connectable(&nearest, &new_point) {
            path.push(new_point);
        }
    }
    (path, nearest)
}

} // verus!

verus! {

/// Whether, when rewiring around the node at index `p`, the node at index
/// `i` qualifies for being hung below `p`: it is another node within
/// `radius` of `p`, reaching it through `p` is cheaper than its cost, and
/// `connectable` accepts the edge from `p` to it.
pub open spec fn is_rewire_candidate<T: Eq + Copy + Hash + Distance>(
    tree: Tree<T>,
    connectable: spec_fn(T, T) -> bool,
    p: int,
    radius: u64,
    i: int,
) -> bool {
    let pv = tree.value_at(p);
    let v = tree.value_at(i);
    &&& 0 <= i < tree.spec_size()
    &&& i != p
    &&& dist(pv, v) <= radius
    &&& step_cost(tree.cost_at(p), dist(pv, v)) < tree.cost_at(i)
    &&& connectable(pv, v)
}

/// Whether `next` is `prev` rewired around the node at index `p`, for the
/// nodes below index `upto`: only candidates moved below `p`, and every
/// candidate that was a leaf (and not the root) did.
pub open spec fn rewired_below<T: Eq + Copy + Hash + Distance>(
    prev: Tree<T>,
    next: Tree<T>,
    connectable: spec_fn(T, T) -> bool,
    p: int,
    radius: u64,
    upto: int,
) -> bool {
    &&& forall|i: int|
        0 <= i < upto ==> {
            ||| (#[trigger] next.parent_at(i) == prev.parent_at(i) && next.cost_at(i) == prev.cost_at(i))
            ||| (is_rewire_candidate(prev, connectable, p, radius, i) && next.parent_at(i) == Some(
                p as usize,
            ) && next.cost_at(i) == step_cost(
                prev.cost_at(p),
                dist(prev.value_at(i), prev.value_at(p)),
            ))
        }
    &&& forall|i: int|
        #![trigger prev.children_at(i)]
        0 <= i < upto && is_rewire_candidate(prev, connectable, p, radius, i) && i != 0
            && prev.children_at(i).len() == 0 ==> next.parent_at(i) == Some(p as usize)
}

/// Reparents onto `point` each neighbour within `rewire_radius` that is
/// reached more cheaply through `point` and that `connectable` accepts,
/// visiting nodes in the order in which they were added.
///
/// Only leaves move (see [Tree::set_parent]); the others keep their
/// place. If `point` is not in the tree, nothing changes.
pub fn rewire_tree<T, FC>(tree: &mut Tree<T>, connectable: &FC, point: &T, rewire_radius: u64) where
    T: Eq + Copy + Hash + Distance,
    FC: Fn(&T, &T) -> bool,

    requires
        old(tree).wf(),
        callable_connectable(*connectable),
    ensures
        final(tree).wf(),
        !old(tree).contains(*point) ==> *final(tree) == *old(tree),
        final(tree).spec_size() == old(tree).spec_size(),
        final(tree).index_map() == old(tree).index_map(),
        forall|i: int|
            0 <= i < old(tree).spec_size() ==> #[trigger] final(tree).value_at(i) == old(tree).value_at(i),
        forall|cm: spec_fn(T, T) -> bool|
            #[trigger] models_connectable(*connectable, cm) && old(tree).contains(*point) ==> rewired_below(
                *old(tree),
                *final(tree),
                cm,
                old(tree).index_of(*point),
                rewire_radius,
                old(tree).spec_size() as int,
            ),
{
    let ghost prev = *tree;
    let pidx: usize = match tree.find(point) {
        Some(i) => i,
        None => {
            return;
        },
    };
    let point_cost: u64 = match tree.cost(point) {
        Ok(c) => c,
        Err(_) => {
            return;
        },
    };
    let n = tree.size();
    let mut i: usize = 0;
    while i < n
        invariant
            tree.wf(),
            callable_connectable(*connectable),
            n == prev.spec_size(),
            pidx == prev.index_of(*point),
            prev.contains(*point),
            pidx < n,
            prev.value_at(pidx as int) == *point,
            point_cost == prev.cost_at(pidx as int),
            0 <= i <= n,
            tree.spec_size() == n,
            tree.index_map() == prev.index_map(),
            forall|j: int| 0 <= j < n ==> #[trigger] tree.value_at(j) == prev.value_at(j),
            forall|j: int|
                0 <= j < n && (j >= i || j == pidx) ==> #[trigger] tree.parent_at(j) == prev.parent_at(j)
                    && tree.cost_at(j) == prev.cost_at(j),
            forall|cm: spec_fn(T, T) -> bool|
                #[trigger] models_connectable(*connectable, cm) ==> rewired_below(
                    prev,
                    *tree,
                    cm,
                    pidx as int,
                    rewire_radius,
                    i as int,
                ),
            forall|j: int|
                #![trigger tree.children_at(j)]
                0 <= j < n && j != pidx && prev.children_at(j).len() == 0 ==> tree.children_at(j).len() == 0,
        decreases n - i,
    {
        let ghost before = *tree;
        let mut accepted = false;
        if i != pidx {
            let v = *tree.value_of(i);
            let d = point.distance(&v);
            assert(prev.value_at(i as int) == v);
            if d <= rewire_radius {
                let c: u64 = match tree.cost(&v) {
                    Ok(c) => c,
                    Err(_) => 0,
                };
                proof {
                    assert(tree.parent_at(i as int) == prev.parent_at(i as int));
                    assert(tree.parent_at(pidx as int) == prev.parent_at(pidx as int));
                }
                if point_cost.saturating_add(d) < c {
                    accepted = connectable(point, &v);
                    if accepted {
                        let res = tree.set_parent(point, &v);
                        proof {
                            if res is Ok {
                                assert forall|j: int|
                                    #![trigger tree.children_at(j)]
                                    0 <= j < n && j != pidx && prev.children_at(j).len() == 0 implies tree.children_at(j).len() == 0 by {
                                    assert(before.children_at(j).len() == 0);
                                    crate::child_set::lemma_without_absent(before.children_at(j), i);
                                }
                            } else {
                                assert(prev.children_at(i as int).len() == 0 ==> before.children_at(i as int).len() == 0);
                            }
                        }
                    }
                }
                proof {
                    assert forall|cm: spec_fn(T, T) -> bool|
                        #[trigger] models_connectable(*connectable, cm) implies (is_rewire_candidate(
                            prev,
                            cm,
                            pidx as int,
                            rewire_radius,
                            i as int,
                        ) <==> (point_cost.saturating_add(d) < c && accepted)) by {
                        if point_cost.saturating_add(d) < c {
                            assert(cm(*point, v) == accepted);
                        }
                    }
                }
            }
        }
        proof {
            assert forall|j: int| 0 <= j < n && j != i implies #[trigger] tree.parent_at(j) == before.parent_at(j)
                && tree.cost_at(j) == before.cost_at(j) by {}
            assert forall|cm: spec_fn(T, T) -> bool|
                #[trigger] models_connectable(*connectable, cm) implies rewired_below(
                    prev,
                    *tree,
                    cm,
                    pidx as int,
                    rewire_radius,
                    i + 1,
                ) by {
                assert(rewired_below(prev, before, cm, pidx as int, rewire_radius, i as int));
                assert forall|j: int| 0 <= j < i + 1 implies {
                    ||| (#[trigger] tree.parent_at(j) == prev.parent_at(j) && tree.cost_at(j) == prev.cost_at(j))
                    ||| (is_rewire_candidate(prev, cm, pidx as int, rewire_radius, j) && tree.parent_at(j) == Some(
                        pidx,
                    ) && tree.cost_at(j) == step_cost(
                        prev.cost_at(pidx as int),
                        dist(prev.value_at(j), prev.value_at(pidx as int)),
                    ))
                } by {
                    if j < i {
                        assert(before.parent_at(j) == prev.parent_at(j) && before.cost_at(j) == prev.cost_at(j) || (
                            is_rewire_candidate(prev, cm, pidx as int, rewire_radius, j) && before.parent_at(j)
                                == Some(pidx) && before.cost_at(j) == step_cost(
                                prev.cost_at(pidx as int),
                                dist(prev.value_at(j), prev.value_at(pidx as int)),
                            )));
                    }
                }
                assert forall|j: int|
                    #![trigger prev.children_at(j)]
                    0 <= j < i + 1 && is_rewire_candidate(prev, cm, pidx as int, rewire_radius, j) && j != 0
                        && prev.children_at(j).len() == 0 implies tree.parent_at(j) == Some(pidx) by {
                    if j < i {
                        assert(before.parent_at(j) == Some(pidx));
                    }
                }
            }
        }
        i += 1;
    }
}

} // verus!

verus! {

/// Inserts `points` as a chain below `anchor`, the first point as a child of
/// `anchor` and each later point as a child of the one before. Points
/// already in the tree are left where they are.
fn insert_chain<T>(tree: &mut Tree<T>, anchor: &T, points: &Vec<T>) where
    T: Eq + Copy + Hash + Distance,

    requires
        old(tree).wf(),
        old(tree).contains(*anchor),
    ensures
        final(tree).wf(),
        final(tree).value_at(0) == old(tree).value_at(0),
        forall|v: T| #[trigger] old(tree).contains(v) ==> final(tree).contains(v),
        forall|j: int| 0 <= j < points.len() ==> final(tree).contains(#[trigger] points@[j]),
{
    let mut parent = *anchor;
    let mut k: usize = 0;
    while k < points.len()
        invariant
            tree.wf(),
            tree.value_at(0) == old(tree).value_at(0),
            forall|v: T| #[trigger] old(tree).contains(v) ==> tree.contains(v),
            tree.contains(parent),
            0 <= k <= points.len(),
            forall|j: int| 0 <= j < k ==> tree.contains(#[trigger] points@[j]),
        decreases points.len() - k,
    {
        let node = points[k];
        let _ = tree.add_child(&parent, node);
        parent = node;
        k += 1;
    }
}

/// Runs one round of planning on the sample `sample`: extends the tree
/// toward it, inserts the new points, rewires around each of them when
/// `use_rrtstar`, and attaches `goal` below the last new point when
/// `connectable(goal, last)` holds. Returns whether it did the latter.
pub fn grow_tree<T, FE, FC>(
    tree: &mut Tree<T>,
    sample: T,
    goal: &T,
    extend: &FE,
    connectable: &FC,
    use_rrtstar: bool,
    rewire_radius: u64,
    use_rrtconnect: bool,
) -> (reached: bool) where
    T: Eq + Copy + Hash + Distance,
    FE: Fn(&T, &T) -> T,
    FC: Fn(&T, &T) -> bool,

    requires
        old(tree).wf(),
        callable_extend(*extend),
        callable_connectable(*connectable),
    ensures
        final(tree).wf(),
        final(tree).value_at(0) == old(tree).value_at(0),
        forall|v: T| #[trigger] old(tree).contains(v) ==> final(tree).contains(v),
        forall|em: spec_fn(T, T) -> T, cm: spec_fn(T, T) -> bool|
            #![trigger models_extend(*extend, em), models_connectable(*connectable, cm)]
            models_extend(*extend, em) && models_connectable(*connectable, cm) ==> {
                let pts = extension(em, cm, old(tree).nearest(sample), sample, use_rrtconnect);
                &&& forall|j: int| 0 <= j < pts.len() ==> final(tree).contains(#[trigger] pts[j])
                &&& reached == (pts.len() > 0 && cm(*goal, pts.last()))
            },
        reached ==> final(tree).contains(*goal),
{
    let (new_points, nearest) = extend_tree(tree, sample, extend, connectable, use_rrtconnect);
    if new_points.len() == 0 {
        proof {
            assert forall|em: spec_fn(T, T) -> T, cm: spec_fn(T, T) -> bool|
                #![trigger models_extend(*extend, em), models_connectable(*connectable, cm)]
                models_extend(*extend, em) && models_connectable(*connectable, cm) implies extension(
                    em,
                    cm,
                    old(tree).nearest(sample),
                    sample,
                    use_rrtconnect,
                ).len() == 0 by {}
        }
        return false;
    }
    insert_chain(tree, &nearest, &new_points);
    if use_rrtstar {
        let mut k: usize = 0;
        while k < new_points.len()
            invariant
                tree.wf(),
                callable_connectable(*connectable),
                tree.value_at(0) == old(tree).value_at(0),
                forall|v: T| #[trigger] old(tree).contains(v) ==> tree.contains(v),
                forall|j: int| 0 <= j < new_points.len() ==> tree.contains(#[trigger] new_points@[j]),
                0 <= k <= new_points.len(),
            decreases new_points.len() - k,
        {
            let ghost before = *tree;
            rewire_tree(tree, connectable, &new_points[k], rewire_radius);
            proof {
                assert forall|v: T| #[trigger] before.contains(v) implies tree.contains(v) by {}
            }
            k += 1;
        }
    }
    let last = new_points[new_points.len() - 1];
    let reached = connectable(goal, &last);
    if reached {
        let _ = tree.add_child(&last, *goal);
    }
    proof {
        assert forall|em: spec_fn(T, T) -> T, cm: spec_fn(T, T) -> bool|
            #![trigger models_extend(*extend, em), models_connectable(*connectable, cm)]
            models_extend(*extend, em) && models_connectable(*connectable, cm) implies {
                let pts = extension(em, cm, old(tree).nearest(sample), sample, use_rrtconnect);
                &&& forall|j: int| 0 <= j < pts.len() ==> tree.contains(#[trigger] pts[j])
                &&& reached == (pts.len() > 0 && cm(*goal, pts.last()))
            } by {
            assert(new_points@ == extension(em, cm, old(tree).nearest(sample), sample, use_rrtconnect));
            assert(cm(*goal, last) == reached);
        }
    }
    reached
}

/// Why planning failed.
#[derive(Debug, Clone, Copy, PartialEq, Eq, Structural)]
pub enum PlanError {
    /// The goal was not in the tree when the budget ran out.
    NoPathFound,
}

#[verifier::external_type_specification]
#[verifier::external_body]
pub struct ExInstant(std::time::Instant);

/// Relies on `Instant::now`: the current time.
#[verifier::external_body]
fn now() -> std::time::Instant {
    std::time::Instant::now()
}

/// Relies on `Instant::elapsed`: the time since `start`.
#[verifier::external_body]
fn elapsed(start: &std::time::Instant) -> std::time::Duration {
    start.elapsed()
}

/// Relies on `Duration`'s `>`: whether `a` is longer than `b`.
#[verifier::external_body]
fn longer_than(a: &std::time::Duration, b: &std::time::Duration) -> bool {
    *a > *b
}

/// Plans a path from `start` to `goal` with RRT, RRT* (`use_rrtstar`) or
/// RRT-Connect (`use_rrtconnect`).
///
/// Grows a tree rooted at `start` for up to `max_iterations` samples,
/// stopping early once `max_duration` has passed or, with `fast_return`,
/// once the goal has been attached. Returns the path from `start` to
/// `goal` in the final tree together with the tree, or `NoPathFound` if
/// the goal is not in it.
pub fn rrt<T, FS, FE, FC>(
    start: &T,
    goal: &T,
    sample_fn: FS,
    extend_fn: FE,
    connectable_fn: FC,
    use_rrtstar: bool,
    rewire_radius: u64,
    use_rrtconnect: bool,
    max_iterations: u64,
    max_duration: std::time::Duration,
    fast_return: bool,
) -> (r: Result<(Vec<T>, Tree<T>), PlanError>) where
    T: Eq + Copy + Hash + Distance,
    FS: Fn() -> T,
    FE: Fn(&T, &T) -> T,
    FC: Fn(&T, &T) -> bool,

    requires
        vstd::std_specs::hash::obeys_key_model::<T>(),
        sample_fn.requires(()),
        callable_extend(extend_fn),
        callable_connectable(connectable_fn),
    ensures
        r matches Ok((path, tree)) ==> {
            &&& tree.wf()
            &&& tree.value_at(0) == *start
            &&& tree.contains(*goal)
            &&& path@ == tree.path_to(tree.index_of(*goal))
            &&& path@.len() >= 1
            &&& path@[0] == *start
            &&& path@.last() == *goal
        },
        r matches Err(e) ==> e == PlanError::NoPathFound,
        *start == *goal ==> (r matches Ok((path, _)) && path@ == seq![*start]),
        max_iterations == 0 && *start != *goal ==> r == Err::<(Vec<T>, Tree<T>), PlanError>(
            PlanError::NoPathFound,
        ),
{
    let mut tree = Tree::new(*start);
    let start_time = now();
    let mut iteration: u64 = 0;
    while iteration < max_iterations
        invariant
            tree.wf(),
            tree.value_at(0) == *start,
            tree.contains(*start),
            max_iterations == 0 ==> tree.index_map() == map![*start => 0usize],
            sample_fn.requires(()),
            callable_extend(extend_fn),
            callable_connectable(connectable_fn),
        decreases max_iterations - iteration,
    {
        let spent = elapsed(&start_time);
        if longer_than(&spent, &max_duration) {
            break;
        }
        let sample = sample_fn();
        let ghost before = tree;
        let reached = grow_tree(
            &mut tree,
            sample,
            goal,
            &extend_fn,
            &connectable_fn,
            use_rrtstar,
            rewire_radius,
            use_rrtconnect,
        );
        proof {
            assert(before.contains(*start));
        }
        if reached && fast_return {
            break;
        }
        iteration += 1;
    }
    proof {
        tree.lemma_path_ends(*start);
    }
    match tree.path(goal) {
        Ok(path) => {
            proof {
                tree.lemma_path_ends(*goal);
            }
            Ok((path, tree))
        },
        Err(_) => Err(PlanError::NoPathFound),
    }
}

} // verus!
