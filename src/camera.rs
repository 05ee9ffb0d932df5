//! A thin-lens camera with a shutter interval.
use vstd::prelude::*;

use rand::rngs::StdRng;

use crate::fixed::{bounded, mul_spec, div_spec, clamp, ONE};
use crate::fixed;
use crate::random::random_f32_range;
use crate::ray::Ray;
use crate::vec3::{Point3, Vec3};

verus! {

pub struct Camera {
    pub origin: Point3,
    pub lower_left_corner: Point3,
    pub horizontal: Vec3,
    pub vertical: Vec3,
    pub u: Vec3,
    pub v: Vec3,
    pub lens_radius: i64,
    pub time0: i64,
    pub time1: i64,
}

impl Camera {
    pub open spec fn wf(self) -> bool {
        &&& self.origin.wf()
        &&& self.lower_left_corner.wf()
        &&& self.horizontal.wf()
        &&& self.vertical.wf()
        &&& self.u.wf()
        &&& self.v.wf()
        &&& bounded(self.lens_radius as int)
        &&& bounded(self.time0 as int)
        &&& bounded(self.time1 as int)
        &&& self.time0 < self.time1
    }

    /// Set up a camera at `lookfrom` aimed at `lookat`, `vup` giving the
    /// upward direction.  `half_height` is the tangent of half the vertical
    /// field of view; the image plane lies at `focus_dist`.
    pub fn new(
        lookfrom: Point3,
        lookat: Point3,
        vup: Vec3,
        half_height: i64,
        aspect_ratio: i64,
        aperture: i64,
        focus_dist: i64,
        time0: i64,
        time1: i64,
    ) -> (c: Camera)
        requires
            lookfrom.wf(),
            lookat.wf(),
            vup.wf(),
            bounded(half_height as int),
            bounded(aspect_ratio as int),
            bounded(aperture as int),
            bounded(focus_dist as int),
            bounded(time0 as int),
            bounded(time1 as int),
            time0 < time1,
        ensures
            c.wf(),
            ({
                let vh = clamp(half_height + half_height);
                let vw = mul_spec(aspect_ratio as int, vh);
                let w = lookfrom.minus_spec(lookat).unit_spec();
                let u = Vec3::cross_spec(vup, w).unit_spec();
                let v = Vec3::cross_spec(w, u);
                let horizontal = u.scale_spec(mul_spec(focus_dist as int, vw));
                let vertical = v.scale_spec(mul_spec(focus_dist as int, vh));
                &&& c.origin == lookfrom
                &&& c.u == u
                &&& c.v == v
                &&& c.horizontal == horizontal
                &&& c.vertical == vertical
                &&& c.lower_left_corner == lookfrom.minus_spec(horizontal.div_spec(2 * ONE)).minus_spec(
                    vertical.div_spec(2 * ONE),
                ).minus_spec(w.scale_spec(focus_dist as int))
                &&& c.lens_radius == div_spec(aperture as int, 2 * ONE)
                &&& c.time0 == time0
                &&& c.time1 == time1
            }),
    {
        let viewport_height = fixed::add(half_height, half_height);
        let viewport_width = fixed::mul(aspect_ratio, viewport_height);
        let w = Vec3::unit_vector(&lookfrom.minus(&lookat));
        let u = Vec3::unit_vector(&Vec3::cross(&vup, &w));
        let v = Vec3::cross(&w, &u);
        let origin = lookfrom;
        let horizontal = u.scale(fixed::mul(focus_dist, viewport_width));
        let vertical = v.scale(fixed::mul(focus_dist, viewport_height));
        let lower_left_corner = origin.minus(&horizontal.div(2 * ONE)).minus(&vertical.div(2 * ONE)).minus(
            &w.scale(focus_dist),
        );
        let lens_radius = fixed::div(aperture, 2 * ONE);
        Camera { origin, lower_left_corner, horizontal, vertical, u, v, lens_radius, time0, time1 }
    }

    /// The ray through the image-plane point `(s, t)`, leaving the lens at
    /// `disk` (a point of the unit disk) at the moment `time`.
    pub open spec fn ray_spec(self, s: int, t: int, disk: Vec3, time: int) -> Ray {
        let rd = disk.scale_spec(self.lens_radius as int);
        let offset = self.u.scale_spec(rd.x as int).plus_spec(self.v.scale_spec(rd.y as int));
        Ray {
            orig: self.origin.plus_spec(offset),
            dir: self.lower_left_corner.plus_spec(self.horizontal.scale_spec(s)).plus_spec(
                self.vertical.scale_spec(t),
            ).minus_spec(self.origin).minus_spec(offset),
            time: time as i64,
        }
    }

    pub fn get_ray_with(&self, s: i64, t: i64, disk: &Vec3, time: i64) -> (r: Ray)
        requires
            self.wf(),
            bounded(s as int),
            bounded(t as int),
            disk.wf(),
            bounded(time as int),
        ensures
            r == self.ray_spec(s as int, t as int, *disk, time as int),
            r.wf(),
    {
        let rd = disk.scale(self.lens_radius);
        let offset = self.u.scale(rd.x).plus(&self.v.scale(rd.y));
        Ray::new(
            self.origin.plus(&offset),
            self.lower_left_corner.plus(&self.horizontal.scale(s)).plus(&self.vertical.scale(t)).minus(
                &self.origin,
            ).minus(&offset),
            time,
        )
    }

    /// A ray through `(s, t)` from a random point of the lens at a random
    /// moment of the shutter interval.
    pub fn get_ray(&self, s: i64, t: i64, rng: &mut StdRng) -> (r: Ray)
        requires
            self.wf(),
            bounded(s as int),
            bounded(t as int),
        ensures
            r.wf(),
            self.time0 <= r.time < self.time1,
            exists|disk: Vec3|
                disk.wf() && disk.z == 0 && disk.dot_spec(disk) < ONE && r == self.ray_spec(
                    s as int,
                    t as int,
                    disk,
                    r.time as int,
                ),
    {
        let disk = Vec3::random_in_unit_disk(rng);
        let time = random_f32_range(rng, self.time0, self.time1);
        self.get_ray_with(s, t, &disk, time)
    }
}

} // verus!
