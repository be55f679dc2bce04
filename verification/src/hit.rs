//! What a ray hits: the record of one intersection, the surfaces that can
//! report one, and the scene that asks all of its members.
use crate::interval::Interval;
use crate::material::Material;
use crate::ray::Line;
use crate::ray::Ray;
use crate::scalar::Scalar;
use crate::vec3::lemma_dot_neg;
use crate::vec3::v3_dot;
use crate::vec3::v3_neg;
use crate::vec3::Point3;
use crate::vec3::Vector3;
use crate::vec3::V3;
use core::ops::Neg;
use vstd::prelude::*;

verus! {

/// The mathematical content of a hit record.
pub struct Hit {
    pub p: V3,
    pub normal: V3,
    pub t: int,
    pub front_face: bool,
    pub mat: Material,
}

/// The ray with direction `direction` meets the outer side of a surface whose
/// outward normal is `outward`.
pub open spec fn faces_front(direction: V3, outward: V3) -> bool {
    v3_dot(direction, outward) < 0
}

/// The outward normal, turned against the ray where the ray comes from inside.
pub open spec fn facing_normal(direction: V3, outward: V3) -> V3 {
    if faces_front(direction, outward) {
        outward
    } else {
        v3_neg(outward)
    }
}

/// The facing normal never points along the ray.
pub proof fn lemma_facing_normal_opposes(direction: V3, outward: V3)
    ensures
        v3_dot(direction, facing_normal(direction, outward)) <= 0,
{
    lemma_dot_neg(direction, outward);
}

/// One intersection of a ray with a surface.
#[derive(Clone, Copy, Debug, PartialEq, Eq)]
pub struct HitRecord {
    /// Where the ray meets the surface.
    pub p: Point3,
    /// The surface normal there, against the ray.
    pub normal: Vector3,
    /// The ray's parameter there.
    pub t: Scalar,
    /// Whether the ray met the outer side.
    pub front_face: bool,
    /// The material of the surface.
    pub mat: Material,
}

impl View for HitRecord {
    type V = Hit;

    open spec fn view(&self) -> Hit {
        Hit {
            p: self.p@,
            normal: self.normal@,
            t: self.t@,
            front_face: self.front_face,
            mat: self.mat,
        }
    }
}

impl HitRecord {
    /// Sets `front_face` and `normal` from the ray and the outward normal.
    pub fn set_face_normal(&mut self, r: &Ray, outward_normal: &Vector3)
        ensures
            final(self).front_face == faces_front(r@.direction, outward_normal@),
            final(self).normal@ == facing_normal(r@.direction, outward_normal@),
            v3_dot(r@.direction, final(self).normal@) <= 0,
            final(self).p == old(self).p,
            final(self).t == old(self).t,
            final(self).mat == old(self).mat,
    {
        proof {
            lemma_facing_normal_opposes(r@.direction, outward_normal@);
        }
        self.front_face = r.direction().dot(outward_normal).lt(&Scalar::zero());
        self.normal = if self.front_face {
            *outward_normal
        } else {
            outward_normal.neg()
        };
    }
}


/// The mathematical content of what a hit test gives.
pub open spec fn hit_view(res: Option<HitRecord>) -> Option<Hit> {
    match res {
        Some(rec) => Some(rec@),
        None => None,
    }
}

/// `found`, kept only where it lies before the parameter `cut`.
pub open spec fn hit_before(found: Option<Hit>, cut: int) -> Option<Hit> {
    match found {
        Some(h) => if h.t < cut {
            Some(h)
        } else {
            None
        },
        None => None,
    }
}

/// A surface that a ray can hit.
///
/// `hit_result` says which hit the surface reports for a ray and the open
/// range of parameters from `min` to `max`. `lemma_nearest` is what makes it
/// the nearest one: the hit lies inside the range, and a range that ends
/// earlier gives the same hit as long as it still holds it, and none
/// otherwise.
pub trait Hittable {
    /// The hit that the surface reports for the ray `r` and the parameters
    /// strictly between `min` and `max`.
    spec fn hit_result(&self, r: Line, min: int, max: int) -> Option<Hit>;

    /// The nearest hit of `r` whose parameter lies strictly inside
    /// `interval`. Its normal does not point along the ray.
    fn hit(&self, r: &Ray, interval: &Interval) -> (res: Option<HitRecord>)
        ensures
            hit_view(res) == self.hit_result(r@, interval.min@, interval.max@),
            res matches Some(rec) ==> interval.holds_inside(rec.t@) && v3_dot(
                r@.direction,
                rec.normal@,
            ) <= 0,
    ;

    /// The reported hit is the nearest one: it lies inside the range, and a
    /// range that ends at `cut` gives the same hit where it lies before
    /// `cut`, and none otherwise.
    proof fn lemma_nearest(&self, r: Line, min: int, max: int, cut: int)
        requires
            cut <= max,
        ensures
            self.hit_result(r, min, max) matches Some(h) ==> min < h.t < max,
            self.hit_result(r, min, cut) == hit_before(self.hit_result(r, min, max), cut),
    ;
}

/// The hit that a scan of `objects` in their order reports: each member is
/// asked for a hit before the nearest one found so far, and a member that
/// reports one replaces it.
pub open spec fn scan<H: Hittable>(objects: Seq<H>, r: Line, min: int, max: int) -> Option<Hit>
    decreases objects.len(),
{
    if objects.len() == 0 {
        None
    } else {
        let before = scan(objects.drop_last(), r, min, max);
        let closest = match before {
            Some(h) => h.t,
            None => max,
        };
        match objects.last().hit_result(r, min, closest) {
            Some(h) => Some(h),
            None => before,
        }
    }
}

/// No member of `objects` reports a hit between `min` and `max`.
pub open spec fn none_hit<H: Hittable>(objects: Seq<H>, r: Line, min: int, max: int) -> bool {
    forall|j: int|
        0 <= j < objects.len() ==> (#[trigger] objects[j]).hit_result(r, min, max) is None
}

/// `h` is the hit of some member of `objects`, and no member reports a hit
/// at a smaller parameter.
pub open spec fn nearest_hit<H: Hittable>(
    objects: Seq<H>,
    r: Line,
    min: int,
    max: int,
    h: Hit,
) -> bool {
    &&& exists|i: int|
        0 <= i < objects.len() && (#[trigger] objects[i]).hit_result(r, min, max) == Some(h)
    &&& forall|j: int|
        0 <= j < objects.len() ==> ((#[trigger] objects[j]).hit_result(r, min, max) matches Some(g)
            ==> h.t <= g.t)
}

/// The scan reports a hit inside the range, and a range that ends earlier
/// gives the same hit as long as it still holds it, and none otherwise.
pub proof fn lemma_scan_nearest<H: Hittable>(
    objects: Seq<H>,
    r: Line,
    min: int,
    max: int,
    cut: int,
)
    requires
        cut <= max,
    ensures
        scan(objects, r, min, max) matches Some(h) ==> min < h.t < max,
        scan(objects, r, min, cut) == hit_before(scan(objects, r, min, max), cut),
    decreases objects.len(),
{
    if objects.len() > 0 {
        let init = objects.drop_last();
        let last = objects.last();
        lemma_scan_nearest(init, r, min, max, cut);
        let wide = scan(init, r, min, max);
        match wide {
            Some(p) => {
                last.lemma_nearest(r, min, max, p.t);
                last.lemma_nearest(r, min, max, cut);
            },
            None => {
                last.lemma_nearest(r, min, max, max);
                last.lemma_nearest(r, min, max, cut);
            },
        }
    }
}

/// The scan reports none exactly where no member reports a hit, and else the
/// hit of a member such that no member reports a hit at a smaller parameter.
pub proof fn lemma_scan_is_nearest<H: Hittable>(objects: Seq<H>, r: Line, min: int, max: int)
    ensures
        match scan(objects, r, min, max) {
            Some(h) => nearest_hit(objects, r, min, max, h),
            None => none_hit(objects, r, min, max),
        },
    decreases objects.len(),
{
    if objects.len() > 0 {
        let init = objects.drop_last();
        let last = objects.last();
        let n = objects.len() - 1;
        lemma_scan_is_nearest(init, r, min, max);
        lemma_scan_nearest(init, r, min, max, max);
        assert(forall|j: int| 0 <= j < n ==> init[j] == objects[j]);
        match scan(init, r, min, max) {
            Some(p) => {
                last.lemma_nearest(r, min, max, p.t);
            },
            None => {
                last.lemma_nearest(r, min, max, max);
            },
        }
    }
}

/// A scene: surfaces that are asked in turn for the nearest hit.
pub struct HittableList<H: Hittable> {
    pub objects: Vec<H>,
}

impl<H: Hittable> HittableList<H> {
    /// The scene of `objects`, in their order.
    pub fn new(objects: Vec<H>) -> (r: Self)
        ensures
            r.objects@ == objects@,
    {
        HittableList { objects }
    }

    /// Appends `object` to the scene.
    pub fn add(&mut self, object: H)
        ensures
            final(self).objects@ == old(self).objects@.push(object),
    {
        self.objects.push(object);
    }
}

impl<H: Hittable> Default for HittableList<H> {
    /// The empty scene.
    fn default() -> (r: Self)
        ensures
            r.objects@.len() == 0,
    {
        HittableList { objects: Vec::new() }
    }
}

impl<H: Hittable> Hittable for HittableList<H> {
    open spec fn hit_result(&self, r: Line, min: int, max: int) -> Option<Hit> {
        scan(self.objects@, r, min, max)
    }

    fn hit(&self, r: &Ray, interval: &Interval) -> (res: Option<HitRecord>) {
        let mut closest_so_far = interval.max;
        let mut res: Option<HitRecord> = None;
        let mut i: usize = 0;
        while i < self.objects.len()
            invariant
                i <= self.objects.len(),
                hit_view(res) == scan(
                    self.objects@.take(i as int),
                    r@,
                    interval.min@,
                    interval.max@,
                ),
                closest_so_far@ == (match res {
                    Some(rec) => rec.t@,
                    None => interval.max@,
                }),
                res matches Some(rec) ==> interval.holds_inside(rec.t@) && v3_dot(
                    r@.direction,
                    rec.normal@,
                ) <= 0,
            decreases self.objects.len() - i,
        {
            let found = self.objects[i].hit(r, &Interval::new(interval.min, closest_so_far));
            proof {
                assert(self.objects@.take(i + 1).drop_last() =~= self.objects@.take(i as int));
            }
            match found {
                Some(record) => {
                    closest_so_far = record.t;
                    res = Some(record);
                },
                None => {},
            }
            i = i + 1;
        }
        proof {
            assert(self.objects@.take(self.objects.len() as int) =~= self.objects@);
        }
        res
    }

    proof fn lemma_nearest(&self, r: Line, min: int, max: int, cut: int) {
        lemma_scan_nearest(self.objects@, r, min, max, cut);
    }
}

/// The nearest hit does not depend on the order of the members: two scenes
/// with the same members report a hit for the same rays, at the same
/// parameter.
pub proof fn lemma_hit_order_independent<H: Hittable>(
    a: Seq<H>,
    b: Seq<H>,
    r: Line,
    min: int,
    max: int,
)
    requires
        a.to_multiset() == b.to_multiset(),
    ensures
        scan(a, r, min, max) is Some <==> scan(b, r, min, max) is Some,
        scan(a, r, min, max) matches Some(h) ==> (scan(b, r, min, max) matches Some(g) && h.t
            == g.t),
{
    lemma_scan_is_nearest(a, r, min, max);
    lemma_scan_is_nearest(b, r, min, max);
    lemma_same_members(a, b);
    lemma_same_members(b, a);
    match scan(a, r, min, max) {
        Some(h) => {
            lemma_nearest_shared(a, b, r, min, max, h);
        },
        None => {},
    }
    match scan(b, r, min, max) {
        Some(g) => {
            lemma_nearest_shared(b, a, r, min, max, g);
        },
        None => {},
    }
}

/// Where no two members report different hits at one parameter, two scenes
/// with the same members report the same hit.
pub proof fn lemma_hit_order_independent_record<H: Hittable>(
    a: Seq<H>,
    b: Seq<H>,
    r: Line,
    min: int,
    max: int,
)
    requires
        a.to_multiset() == b.to_multiset(),
        forall|i: int, j: int|
            0 <= i < a.len() && 0 <= j < a.len() ==> ((#[trigger] a[i]).hit_result(r, min, max)
                matches Some(g) ==> ((#[trigger] a[j]).hit_result(r, min, max) matches Some(h)
                ==> (g.t == h.t ==> g == h))),
    ensures
        scan(a, r, min, max) == scan(b, r, min, max),
{
    lemma_hit_order_independent(a, b, r, min, max);
    lemma_scan_is_nearest(a, r, min, max);
    lemma_scan_is_nearest(b, r, min, max);
    lemma_same_members(b, a);
}

/// Every member of `a` is a member of `b`, where the two hold the same
/// members.
proof fn lemma_same_members<H>(a: Seq<H>, b: Seq<H>)
    requires
        a.to_multiset() == b.to_multiset(),
    ensures
        forall|i: int| 0 <= i < a.len() ==> b.contains(#[trigger] a[i]),
{
    a.to_multiset_ensures();
    b.to_multiset_ensures();
    assert forall|i: int| 0 <= i < a.len() implies b.contains(#[trigger] a[i]) by {
        assert(b.to_multiset().count(a[i]) > 0);
    }
}

/// The hit that is nearest among the members of `a` is matched in `b` by a
/// hit that is no further, where `b` holds every member of `a`.
proof fn lemma_nearest_shared<H: Hittable>(
    a: Seq<H>,
    b: Seq<H>,
    r: Line,
    min: int,
    max: int,
    h: Hit,
)
    requires
        nearest_hit(a, r, min, max, h),
        forall|i: int| 0 <= i < a.len() ==> b.contains(#[trigger] a[i]),
        match scan(b, r, min, max) {
            Some(g) => nearest_hit(b, r, min, max, g),
            None => none_hit(b, r, min, max),
        },
    ensures
        scan(b, r, min, max) matches Some(g) && g.t <= h.t,
{
}

} // verus!
