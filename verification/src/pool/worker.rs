//! A worker: the samples it owes, the blocks it retired and must free once no one can still be
//! looking at them, and the order in which it takes up its tasks.
use std::collections::VecDeque;
use vstd::prelude::*;
use crate::complex::fixed::{Fixed, Real, Imag, fits_i64};
use crate::complex::domain::{Domain, default_domain};
use crate::complex::window::Window;
use crate::tree::handle::BlockHandle;
use crate::tree::moment::{MomentInner, RenderMoment, ReclaimMoment};
use crate::tree::rgb::Rgb;
use crate::tree::quadtree::{Tree, TreeView, refine_depth_bound, retire_depth, window_views, fixed_views,
    point_views, block_views, lemma_insert_keeps_detached, lemma_refine_keeps_detached,
    lemma_retire_keeps_detached, lemma_refined_children_inside, lemma_path_node};

verus! {

/// The tasks of a worker, in the order it tries them.
#[derive(Clone, Copy, PartialEq, Eq, Structural, Debug)]
pub enum Task {
    Render,
    Insert,
    Sample,
    Free,
    Retire,
    Refine,
    Idle,
}

/// The task tried after `task` fails.
pub open spec fn task_after(task: Task) -> Task {
    match task {
        Task::Render => Task::Insert,
        Task::Insert => Task::Sample,
        Task::Sample => Task::Free,
        Task::Free => Task::Retire,
        Task::Retire => Task::Refine,
        Task::Refine => Task::Idle,
        Task::Idle => Task::Idle,
    }
}

/// What a worker does after trying `task`: a task that succeeded, and idling, end the round
/// (`None`), and the next round starts again from rendering; a task that failed hands over to the
/// next one.
pub fn next_task(task: Task, succeeded: bool) -> (r: Option<Task>)
    ensures
        succeeded || task == Task::Idle ==> r is None,
        !succeeded && task != Task::Idle ==> r == Some(task_after(task)),
{
    if succeeded {
        return None;
    }
    match task {
        Task::Render => Some(Task::Insert),
        Task::Insert => Some(Task::Sample),
        Task::Sample => Some(Task::Free),
        Task::Free => Some(Task::Retire),
        Task::Retire => Some(Task::Refine),
        Task::Refine => Some(Task::Idle),
        Task::Idle => None,
    }
}

/// The abstract state of a worker.
#[verifier::ext_equal]
pub ghost struct WorkerView {
    /// The points whose colors are still to be sampled.
    pub to_be_sampled: Seq<(int, int)>,
    /// A sampled color waiting to be inserted, with its point.
    pub to_be_inserted: Option<((int, int), u32)>,
    /// The retired blocks waiting to be freed, each with the reclamation moment it was retired at,
    /// oldest first.
    pub nursing_home: Seq<(int, int)>,
    /// The reclamation moment this worker believes it is.
    pub local_reclaim_now: int,
}

/// The state a sampling thread keeps between its tasks.
pub struct Worker {
    to_be_sampled: Vec<(Real, Imag)>,
    to_be_inserted: Option<((Real, Imag), Rgb)>,
    nursing_home: VecDeque<(ReclaimMoment, BlockHandle)>,
    local_reclaim_now: ReclaimMoment,
}

impl View for Worker {
    type V = WorkerView;

    closed spec fn view(&self) -> WorkerView {
        WorkerView {
            to_be_sampled: self.to_be_sampled@.map_values(|p: (Real, Imag)| (p.0@, p.1@)),
            to_be_inserted: match self.to_be_inserted {
                Some((p, c)) => Some(((p.0@, p.1@), c.0)),
                None => None,
            },
            nursing_home: self.nursing_home@.map_values(|e: (ReclaimMoment, BlockHandle)| (e.0.0 as int, e.1@)),
            local_reclaim_now: self.local_reclaim_now.0 as int,
        }
    }
}

impl WorkerView {
    /// What the worker keeps with the tree `tv`: its points lie in the default domain; the blocks
    /// it retired are detached in the tree, appear once each, and are ordered by the moments they
    /// were retired at, none later than now.
    pub open spec fn inv(self, tv: TreeView) -> bool {
        &&& forall|x: int| 0 <= x < self.to_be_sampled.len() ==> default_domain().contains(#[trigger] self.to_be_sampled[x])
        &&& self.to_be_inserted matches Some(e) ==> default_domain().contains(e.0)
        &&& 0 <= self.local_reclaim_now
        &&& forall|x: int, y: int| 0 <= x <= y < self.nursing_home.len() ==> self.nursing_home[x].0 <= self.nursing_home[y].0
        &&& forall|x: int| 0 <= x < self.nursing_home.len() ==> {
            &&& 0 <= (#[trigger] self.nursing_home[x]).0 <= self.local_reclaim_now
            &&& tv.is_detached(self.nursing_home[x].1)
        }
        &&& forall|x: int, y: int| 0 <= x < y < self.nursing_home.len() ==> self.nursing_home[x].1 != self.nursing_home[y].1
    }
}

impl Worker {
    /// A worker with nothing to do yet, at the reclamation moment `now`.
    pub fn new(now: ReclaimMoment) -> (r: Self)
        requires
            now.0 >= 0,
        ensures
            r@.to_be_sampled.len() == 0,
            r@.to_be_inserted is None,
            r@.nursing_home.len() == 0,
            r@.local_reclaim_now == now.0,
            forall|tv: TreeView| #[trigger] r@.inv(tv),
    {
        let w = Worker {
            to_be_sampled: Vec::new(),
            to_be_inserted: None,
            nursing_home: VecDeque::new(),
            local_reclaim_now: now,
        };
        assert(w@.nursing_home =~= Seq::empty());
        assert(w@.to_be_sampled =~= Seq::empty());
        w
    }

    /// Catches up with the reclamation moment `now` the main thread announces, which is never
    /// more than one ahead; returns whether it changed, and so has to be acknowledged.
    pub fn update_reclaim_now(&mut self, now: ReclaimMoment) -> (changed: bool)
        requires
            old(self)@.local_reclaim_now <= now.0 <= old(self)@.local_reclaim_now + 1,
        ensures
            changed == (now.0 != old(self)@.local_reclaim_now),
            final(self)@ == (WorkerView { local_reclaim_now: now.0 as int, ..old(self)@ }),
            forall|tv: TreeView| #[trigger] old(self)@.inv(tv) ==> final(self)@.inv(tv),
    {
        if now.0 == self.local_reclaim_now.0 {
            return false;
        }
        self.local_reclaim_now = now;
        proof {
            assert(self@ =~= (WorkerView { local_reclaim_now: now.0 as int, ..old(self)@ }));
        }
        true
    }

    /// The reclamation moment the worker believes it is.
    pub fn local_reclaim_now(&self) -> (r: ReclaimMoment)
        ensures
            r.0 == self@.local_reclaim_now,
    {
        self.local_reclaim_now
    }

    /// The number of retired blocks waiting to be freed.
    pub fn nursing_home_len(&self) -> (r: usize)
        ensures
            r == self@.nursing_home.len(),
    {
        self.nursing_home.len()
    }

    /// The point whose color is to be sampled next, if any.
    pub fn sample_point(&self) -> (r: Option<(Real, Imag)>)
        ensures
            self@.to_be_sampled.len() == 0 ==> r is None,
            self@.to_be_sampled.len() > 0 ==> (r matches Some(p) && (p.0@, p.1@) == self@.to_be_sampled.last()),
    {
        let n = self.to_be_sampled.len();
        if n == 0 {
            None
        } else {
            Some(self.to_be_sampled[n - 1])
        }
    }

    /// Whether a sampled color is waiting to be inserted.
    pub fn has_sample_to_insert(&self) -> (r: bool)
        ensures
            r == self@.to_be_inserted is Some,
    {
        self.to_be_inserted.is_some()
    }

    /// Inserts the sampled color waiting, if any, into the tree (see `Tree::insert`), at the
    /// render moment `render_now`; returns whether there was one.
    pub fn try_insert(&mut self, tree: &mut Tree, render_now: RenderMoment) -> (r: bool)
        requires
            old(tree).wf(),
            old(self)@.inv(old(tree)@),
        ensures
            final(tree).wf(),
            final(self)@.inv(final(tree)@),
            r == old(self)@.to_be_inserted is Some,
            final(self)@ == (WorkerView { to_be_inserted: None, ..old(self)@ }),
            match old(self)@.to_be_inserted {
                Some(e) => final(tree)@ == old(tree)@.inserted(e.0, e.1, render_now.0 as int),
                None => final(tree)@ == old(tree)@,
            },
    {
        let ghost tv = tree@;
        proof {
            tree.lemma_view_wf();
        }
        let (p, color) = match self.to_be_inserted {
            Some(e) => e,
            None => {
                return false;
            },
        };
        self.to_be_inserted = None;
        tree.insert(p, color, render_now);
        proof {
            assert(self@ =~= (WorkerView { to_be_inserted: None, ..old(self)@ }));
            assert forall|x: int| 0 <= x < self@.nursing_home.len() implies tree@.is_detached(#[trigger] self@.nursing_home[x].1) by {
                lemma_insert_keeps_detached(tv, (p.0@, p.1@), color.0, render_now.0 as int, self@.nursing_home[x].1);
            }
        }
        true
    }

    /// Takes the point whose color was to be sampled next, pairing it with `color`, its color
    /// sampled, to be inserted; returns whether there was one.
    pub fn try_sample(&mut self, color: Rgb) -> (r: bool)
        requires
            old(self)@.to_be_inserted is None,
        ensures
            r == (old(self)@.to_be_sampled.len() > 0),
            r ==> final(self)@ == (WorkerView {
                to_be_sampled: old(self)@.to_be_sampled.drop_last(),
                to_be_inserted: Some((old(self)@.to_be_sampled.last(), color.0)),
                ..old(self)@
            }),
            !r ==> final(self)@ == old(self)@,
            forall|tv: TreeView| #[trigger] old(self)@.inv(tv) ==> final(self)@.inv(tv),
    {
        let p = match self.to_be_sampled.pop() {
            Some(p) => p,
            None => {
                return false;
            },
        };
        self.to_be_inserted = Some((p, color));
        proof {
            assert(self@.to_be_sampled =~= old(self)@.to_be_sampled.drop_last());
            assert forall|tv: TreeView| #[trigger] old(self)@.inv(tv) implies self@.inv(tv) by {
                assert(default_domain().contains(old(self)@.to_be_sampled[old(self)@.to_be_sampled.len() - 1]));
                assert forall|x: int| 0 <= x < self@.to_be_sampled.len() implies default_domain().contains(#[trigger] self@.to_be_sampled[x]) by {
                    assert(self@.to_be_sampled[x] == old(self)@.to_be_sampled[x]);
                }
            }
        }
        true
    }

    /// Frees the oldest retired block (see `Tree::free`) once no one can still be looking at it:
    /// when it was retired at least three reclamation moments ago. Returns whether it did.
    pub fn try_free(&mut self, tree: &mut Tree) -> (r: bool)
        requires
            old(tree).wf(),
            old(self)@.inv(old(tree)@),
        ensures
            final(tree).wf(),
            final(self)@.inv(final(tree)@),
            r == (old(self)@.nursing_home.len() > 0 && old(self)@.nursing_home[0].0 + 3 <= old(self)@.local_reclaim_now),
            r ==> final(self)@ == (WorkerView { nursing_home: old(self)@.nursing_home.drop_first(), ..old(self)@ }),
            r ==> final(tree)@.freed_from(old(tree)@, old(self)@.nursing_home[0].1),
            !r ==> final(self)@ == old(self)@ && final(tree)@ == old(tree)@,
    {
        if self.nursing_home.len() == 0 {
            return false;
        }
        let (moment, _) = self.nursing_home[0];
        if moment.0 as i64 + 3 > self.local_reclaim_now.0 as i64 {
            return false;
        }
        let ghost old_nh = self@.nursing_home;
        let (_, block) = match self.nursing_home.pop_front() {
            Some(e) => e,
            None => {
                return false;
            },
        };
        proof {
            assert(block@ == old_nh[0].1);
            assert(tree@.is_detached(old_nh[0].1));
        }
        let ghost tv = tree@;
        tree.free(block);
        proof {
            assert(self@.nursing_home =~= old_nh.drop_first());
            assert(self@ =~= (WorkerView { nursing_home: old_nh.drop_first(), ..old(self)@ }));
            assert forall|x: int| 0 <= x < self@.nursing_home.len() implies tree@.is_detached(#[trigger] self@.nursing_home[x].1) by {
                assert(self@.nursing_home[x] == old_nh[x + 1]);
                assert(tv.is_detached(old_nh[x + 1].1));
                assert(old_nh[0].1 != old_nh[x + 1].1);
            }
            assert forall|x: int, y: int| 0 <= x <= y < self@.nursing_home.len() implies self@.nursing_home[x].0 <= self@.nursing_home[y].0 by {
                assert(self@.nursing_home[x] == old_nh[x + 1]);
                assert(self@.nursing_home[y] == old_nh[y + 1]);
            }
            assert forall|x: int, y: int| 0 <= x < y < self@.nursing_home.len() implies self@.nursing_home[x].1 != self@.nursing_home[y].1 by {
                assert(self@.nursing_home[x] == old_nh[x + 1]);
                assert(self@.nursing_home[y] == old_nh[y + 1]);
            }
            assert forall|x: int| 0 <= x < self@.nursing_home.len() implies 0 <= (#[trigger] self@.nursing_home[x]).0 <= self@.local_reclaim_now by {
                assert(self@.nursing_home[x] == old_nh[x + 1]);
            }
        }
        true
    }

    /// Retires a block (see `Tree::retire`) for the retire window, at the render moment
    /// `render_now`, and keeps it, with the reclamation moment it was retired at, until it can be
    /// freed. Returns whether it retired one.
    pub fn try_retire(&mut self, tree: &mut Tree, window: Window, retire_scale: Option<Fixed>, render_now: RenderMoment) -> (r: bool)
        requires
            old(tree).wf(),
            old(self)@.inv(old(tree)@),
            fits_i64(window@.real_hi - window@.real_lo),
        ensures
            final(tree).wf(),
            final(self)@.inv(final(tree)@),
            exists|b: Option<BlockHandle>| {
                &&& #[trigger] final(tree)@.retire_outcome(old(tree)@, retire_depth(window@, fixed_views(retire_scale)), render_now.0 as int, block_views(b))
                &&& r == b is Some
                &&& b matches Some(b) ==> final(self)@ == (WorkerView {
                    nursing_home: old(self)@.nursing_home.push((old(self)@.local_reclaim_now, b@)),
                    ..old(self)@
                })
                &&& b is None ==> final(self)@ == old(self)@
            },
    {
        let ghost tv = tree@;
        proof {
            tree.lemma_view_wf();
        }
        let ghost rd = retire_depth(window@, fixed_views(retire_scale));
        let res = tree.retire(window, retire_scale, render_now);
        match res {
            Some(b) => {
                let ghost old_nh = self@.nursing_home;
                self.nursing_home.push_back((self.local_reclaim_now, b));
                proof {
                    let p = choose|p: Seq<int>| {
                        &&& #[trigger] tv.is_retirable(rd, p)
                        &&& tv.nodes[p.last()].children == Some(b@)
                        &&& tree@.retired_from(tv, p, render_now.0 as int)
                        &&& tree@.is_detached(b@)
                    };
                    assert(self@.nursing_home =~= old_nh.push((old(self)@.local_reclaim_now, b@)));
                    assert(self@ =~= (WorkerView { nursing_home: old_nh.push((old(self)@.local_reclaim_now, b@)), ..old(self)@ }));
                    assert(tv.valid_path(p));
                    assert forall|x: int| 0 <= x < self@.nursing_home.len() implies tree@.is_detached(#[trigger] self@.nursing_home[x].1) by {
                        if x < old_nh.len() {
                            assert(self@.nursing_home[x] == old_nh[x]);
                            lemma_retire_keeps_detached(tv, tree@, p, render_now.0 as int, old_nh[x].1);
                        }
                    }
                    assert forall|x: int, y: int| 0 <= x < y < self@.nursing_home.len() implies self@.nursing_home[x].1 != self@.nursing_home[y].1 by {
                        assert(self@.nursing_home[x] == old_nh[x]);
                        if y == old_nh.len() {
                            // a block still hanging from a node was not detached
                            assert(tv.is_detached(old_nh[x].1));
                            lemma_path_node(tv, Set::empty(), p, p.len() - 1);
                            assert(tv.live.contains(p.last()));
                        } else {
                            assert(self@.nursing_home[y] == old_nh[y]);
                        }
                    }
                    assert forall|x: int, y: int| 0 <= x <= y < self@.nursing_home.len() implies self@.nursing_home[x].0 <= self@.nursing_home[y].0 by {
                        if y < old_nh.len() {
                            assert(self@.nursing_home[x] == old_nh[x]);
                            assert(self@.nursing_home[y] == old_nh[y]);
                        } else if x < old_nh.len() {
                            assert(self@.nursing_home[x] == old_nh[x]);
                        }
                    }
                    assert forall|x: int| 0 <= x < self@.nursing_home.len() implies 0 <= (#[trigger] self@.nursing_home[x]).0 <= self@.local_reclaim_now by {
                        if x < old_nh.len() {
                            assert(self@.nursing_home[x] == old_nh[x]);
                        }
                    }
                    assert(tree@.retire_outcome(tv, rd, render_now.0 as int, block_views(res)));
                }
                true
            },
            None => {
                proof {
                    assert(tree@.retire_outcome(tv, rd, render_now.0 as int, block_views(res)));
                }
                false
            },
        }
    }

    /// Splits a leaf (see `Tree::refine`) and owes the colors of its four new children, which it
    /// samples last child first. Returns whether it split one.
    pub fn try_refine(
        &mut self,
        tree: &mut Tree,
        sample_window: Window,
        retire_window: Option<Window>,
        retire_scale: Option<Fixed>,
        split_retirable: bool,
        draw_uncolored: bool,
        render_now: RenderMoment,
    ) -> (r: bool)
        requires
            old(tree).wf(),
            old(self)@.inv(old(tree)@),
            old(self)@.to_be_sampled.len() == 0,
            retire_window matches Some(w) ==> fits_i64(w@.real_hi - w@.real_lo),
        ensures
            final(tree).wf(),
            final(self)@.inv(final(tree)@),
            exists|m: Option<Seq<(int, int)>>| {
                &&& #[trigger] final(tree)@.refine_outcome(
                    old(tree)@,
                    sample_window@,
                    refine_depth_bound(window_views(retire_window), fixed_views(retire_scale), split_retirable),
                    render_now.0 as int,
                    draw_uncolored,
                    m,
                )
                &&& r == m is Some
                &&& m matches Some(m) ==> final(self)@ == (WorkerView { to_be_sampled: m, ..old(self)@ })
                &&& m is None ==> final(self)@ == old(self)@
            },
    {
        let ghost tv = tree@;
        proof {
            tree.lemma_view_wf();
        }
        let ghost bound = refine_depth_bound(window_views(retire_window), fixed_views(retire_scale), split_retirable);
        let res = tree.refine(sample_window, retire_window, retire_scale, split_retirable, draw_uncolored, render_now);
        match res {
            Some(mids) => {
                self.to_be_sampled.push(mids[0]);
                self.to_be_sampled.push(mids[1]);
                self.to_be_sampled.push(mids[2]);
                self.to_be_sampled.push(mids[3]);
                proof {
                    let m = point_views(res)->0;
                    let p = choose|p: Seq<int>| {
                        &&& #[trigger] tv.is_refinable(sample_window@, bound, p)
                        &&& tree@.refined_from(tv, p, render_now.0 as int, draw_uncolored)
                        &&& m.len() == 4
                        &&& forall|k: int| 0 <= k < 4 ==> #[trigger] m[k] == tv.nodes[p.last()].dom.child(k).mid()
                    };
                    assert(self@.to_be_sampled =~= m);
                    assert(self@ =~= (WorkerView { to_be_sampled: m, ..old(self)@ }));
                    assert(tv.valid_path(p));
                    lemma_refined_children_inside(tv, p);
                    assert forall|x: int| 0 <= x < self@.to_be_sampled.len() implies default_domain().contains(#[trigger] self@.to_be_sampled[x]) by {
                        assert(m[x] == tv.nodes[p.last()].dom.child(x).mid());
                    }
                    assert forall|x: int| 0 <= x < self@.nursing_home.len() implies tree@.is_detached(#[trigger] self@.nursing_home[x].1) by {
                        lemma_refine_keeps_detached(tv, tree@, p, render_now.0 as int, draw_uncolored, self@.nursing_home[x].1);
                    }
                    assert(tree@.refine_outcome(tv, sample_window@, bound, render_now.0 as int, draw_uncolored, point_views(res)));
                }
                true
            },
            None => {
                proof {
                    assert(tree@.refine_outcome(tv, sample_window@, bound, render_now.0 as int, draw_uncolored, point_views(res)));
                }
                false
            },
        }
    }
}

} // verus!
