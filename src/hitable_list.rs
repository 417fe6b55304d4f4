//! The scene aggregate: a list of spheres searched for the nearest hit.
use vstd::prelude::*;
use crate::fixed::Fixed;
use crate::hitable::{HitRecord, HitView, Hitable, hit_view, in_window};
use crate::material::Material;
use crate::ray::Ray;
use crate::sphere::{Sphere, lemma_hit_in_window, lemma_narrow};
use crate::vec3::Triple;

verus! {

/// The upper end of the window for the next object: strictly below the best
/// hit so far, or `t_max` while there is none.
pub open spec fn next_bound(best: Option<(HitView, Material)>, t_max: int) -> int {
    match best {
        Some(h) => h.0.2 - 1,
        None => t_max,
    }
}

/// The linear scan over `objs`: each object is searched up to the bound that
/// the hits before it left, and a hit replaces the best so far.
pub open spec fn scan(objs: Seq<Sphere>, ray: (Triple, Triple), t_min: int, t_max: int) -> Option<(HitView, Material)>
    decreases objs.len(),
{
    if objs.len() == 0 {
        None
    } else {
        let prev = scan(objs.drop_last(), ray, t_min, t_max);
        match objs.last().hit_spec(ray, t_min, next_bound(prev, t_max)) {
            Some(h) => Some(h),
            None => prev,
        }
    }
}

pub struct HitableList {
    pub list: Vec<Sphere>,
}

impl HitableList {
    pub fn new(list: Vec<Sphere>) -> (r: HitableList)
        ensures
            r.list@ == list@,
    {
        HitableList { list }
    }
}

impl Hitable for HitableList {
    open spec fn hit_spec(&self, ray: (Triple, Triple), t_min: int, t_max: int) -> Option<(HitView, Material)> {
        scan(self.list@, ray, t_min, t_max)
    }

    fn hit(&self, r: &Ray, t_min: Fixed, t_max: Fixed) -> (res: Option<(HitRecord, Material)>) {
        let mut closest = t_max;
        let mut best: Option<(HitRecord, Material)> = None;
        let mut i: usize = 0;
        while i < self.list.len()
            invariant
                i <= self.list@.len(),
                hit_view(best) == scan(self.list@.subrange(0, i as int), r@, t_min@, t_max@),
                closest@ == next_bound(hit_view(best), t_max@),
                best matches Some(h) ==> t_min@ < h.0.t@,
            decreases self.list@.len() - i,
        {
            proof {
                assert(self.list@.subrange(0, i + 1).drop_last() =~= self.list@.subrange(0, i as int));
            }
            match self.list[i].hit(r, t_min, closest) {
                Some((rec, m)) => {
                    proof {
                        lemma_hit_in_window(self.list@[i as int], r@, t_min@, closest@);
                    }
                    closest = Fixed::from_raw(rec.t.raw - 1);
                    best = Some((rec, m));
                },
                None => {},
            }
            i = i + 1;
        }
        proof {
            assert(self.list@.subrange(0, self.list@.len() as int) =~= self.list@);
        }
        best
    }
}

/// The scene's nearest hit: the scan finds a hit exactly when some object is
/// hit within the window, and then the hit of the first object whose `t` is
/// the smallest of all.
#[verifier::rlimit(60)]
pub proof fn lemma_nearest_hit(objs: Seq<Sphere>, ray: (Triple, Triple), t_min: int, t_max: int)
    ensures
        scan(objs, ray, t_min, t_max) is None <==> (forall|j: int|
            0 <= j < objs.len() ==> (#[trigger] objs[j].hit_spec(ray, t_min, t_max)) is None),
        scan(objs, ray, t_min, t_max) matches Some(h) ==> {
            &&& in_window(h.0.2, t_min, t_max)
            &&& exists|i: int|
                0 <= i < objs.len() && #[trigger] objs[i].hit_spec(ray, t_min, t_max) == Some(h) && (forall|j: int|
                    0 <= j < i ==> (#[trigger] objs[j].hit_spec(ray, t_min, t_max) matches Some(g) ==> g.0.2
                        > h.0.2))
            &&& forall|j: int|
                0 <= j < objs.len() ==> (#[trigger] objs[j].hit_spec(ray, t_min, t_max) matches Some(g) ==> h.0.2
                    <= g.0.2)
        },
    decreases objs.len(),
{
    if objs.len() > 0 {
        let init = objs.drop_last();
        let last = objs.last();
        lemma_nearest_hit(init, ray, t_min, t_max);
        let prev = scan(init, ray, t_min, t_max);
        let n = objs.len() - 1;
        assert(forall|j: int| 0 <= j < n ==> init[j] == objs[j]);
        assert(objs[n] == last);
        let hl = last.hit_spec(ray, t_min, t_max);
        lemma_hit_in_window(last, ray, t_min, t_max);
        match prev {
            None => {
                assert(next_bound(prev, t_max) == t_max);
                if hl is Some {
                    let h = hl.unwrap();
                    assert(objs[n].hit_spec(ray, t_min, t_max) == Some(h));
                    assert(forall|j: int|
                        0 <= j < n ==> (#[trigger] objs[j].hit_spec(ray, t_min, t_max)) is None);
                }
            },
            Some(h) => {
                let i = choose|i: int|
                    0 <= i < init.len() && #[trigger] init[i].hit_spec(ray, t_min, t_max) == Some(h) && (forall|
                        j: int,
                    |
                        0 <= j < i ==> (#[trigger] init[j].hit_spec(ray, t_min, t_max) matches Some(g) ==> g.0.2
                            > h.0.2));
                lemma_narrow(last, ray, t_min, h.0.2 - 1, t_max);
                assert(objs[i].hit_spec(ray, t_min, t_max) == Some(h));
                if hl is Some && hl.unwrap().0.2 <= h.0.2 - 1 {
                    assert(objs[n].hit_spec(ray, t_min, t_max) == Some(hl.unwrap()));
                } else {
                    assert(forall|j: int|
                        0 <= j < i ==> (#[trigger] objs[j].hit_spec(ray, t_min, t_max) matches Some(g) ==> g.0.2
                            > h.0.2));
                }
            },
        }
    }
}

} // verus!
