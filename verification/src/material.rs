//! How a surface sends light on.
use crate::format::{Binary32, TWO};
use crate::ray::Ray;
use crate::sampler::{drawn_from, lemma_drawn_rest, Sampler};
use crate::scene::{ball_point, lemma_ball_point_inside, rand_in_unit_sphere, HitRecord};
use crate::vec::Vec3;
use vstd::prelude::*;

verus! {

/// What becomes of a ray at a surface.
pub struct Scattering {
    /// Whether light goes on along `ray`; otherwise it is absorbed.
    pub scattered: bool,
    /// The share of each colour channel that the surface passes on.
    pub attenuation: Vec3,
    /// The ray leaving the surface.
    pub ray: Ray,
    /// The samples left over.
    pub rest: Seq<Binary32>,
}

/// A surface that can scatter a ray arriving at a hit.
pub trait Material {
    /// What `scatter` decides, given the samples it may draw.
    spec fn scattering(&self, ray: Ray, rec: HitRecord, samples: Seq<Binary32>) -> Scattering;

    /// Scattering takes its samples from the front of the supply.
    proof fn scattering_draws(&self, ray: Ray, rec: HitRecord, samples: Seq<Binary32>)
        ensures
            drawn_from(self.scattering(ray, rec, samples).rest, samples),
    ;

    /// Scatters `ray` at `rec`: writes the attenuation and the leaving ray,
    /// and returns whether the light goes on.
    fn scatter(
        &self,
        ray: Ray,
        rec: &HitRecord,
        attenuation: &mut Vec3,
        scattered: &mut Ray,
        sampler: &mut Sampler,
    ) -> (r: bool)
        ensures
            r == self.scattering(ray, *rec, old(sampler)@).scattered,
            *final(attenuation) == self.scattering(ray, *rec, old(sampler)@).attenuation,
            *final(scattered) == self.scattering(ray, *rec, old(sampler)@).ray,
            final(sampler)@ == self.scattering(ray, *rec, old(sampler)@).rest,
    ;
}

/// A matt surface: scatters around the normal and never absorbs.
#[derive(Clone, Copy, Debug)]
pub struct Lambertian {
    pub albedo: Vec3,
}

/// A mirror.
#[derive(Clone, Copy, Debug)]
pub struct Reflective {
    pub albedo: Vec3,
}

/// The materials a sphere can be made of.
#[derive(Clone, Copy, Debug)]
pub enum Surface {
    Diffuse(Lambertian),
    Specular(Reflective),
}

/// The mirror image of `v` at a surface with normal `n`: `v - 2 (v . n) n`.
pub open spec fn mirrored(v: Vec3, n: Vec3) -> Vec3 {
    v.minus(n.scaled(Binary32 { bits: TWO }.product(v.inner(n))))
}

impl Lambertian {
    pub fn new(albedo: Vec3) -> (r: Lambertian)
        ensures
            r.albedo == albedo,
    {
        Lambertian { albedo }
    }
}

impl Material for Lambertian {
    /// The leaving ray starts at the hit and points along the normal moved
    /// by a point of the unit ball.
    open spec fn scattering(&self, ray: Ray, rec: HitRecord, samples: Seq<Binary32>) -> Scattering {
        Scattering {
            scattered: true,
            attenuation: self.albedo,
            ray: Ray { a: rec.p, b: rec.normal.plus(ball_point(samples).0) },
            rest: ball_point(samples).1,
        }
    }

    proof fn scattering_draws(&self, ray: Ray, rec: HitRecord, samples: Seq<Binary32>) {
        lemma_ball_point_inside(samples);
    }

    fn scatter(
        &self,
        ray: Ray,
        rec: &HitRecord,
        attenuation: &mut Vec3,
        scattered: &mut Ray,
        sampler: &mut Sampler,
    ) -> (r: bool) {
        let mut direction: Vec3 = rec.normal();
        direction.add_assign(rand_in_unit_sphere(sampler));
        *scattered = Ray::new(rec.p(), direction);
        *attenuation = self.albedo;
        true
    }
}

impl Reflective {
    pub fn new(albedo: Vec3) -> (r: Reflective)
        ensures
            r.albedo == albedo,
    {
        Reflective { albedo }
    }

    pub fn reflect(&self, v: Vec3, n: Vec3) -> (r: Vec3)
        ensures
            r == mirrored(v, n),
    {
        let k: Binary32 = Binary32 { bits: TWO }.mul(v.dot(n));
        let mut r: Vec3 = v;
        r.sub_assign(Vec3::new(n.x.mul(k), n.y.mul(k), n.z.mul(k)));
        r
    }
}

impl Material for Reflective {
    /// The leaving ray is the mirror image of the unit direction of the
    /// arriving one; light goes on only where that image leaves the surface.
    open spec fn scattering(&self, ray: Ray, rec: HitRecord, samples: Seq<Binary32>) -> Scattering {
        let reflected = mirrored(ray.b.unit(), rec.normal);
        Scattering {
            scattered: Binary32::zero().below(reflected.inner(rec.normal)),
            attenuation: self.albedo,
            ray: Ray { a: rec.p, b: reflected },
            rest: samples,
        }
    }

    proof fn scattering_draws(&self, ray: Ray, rec: HitRecord, samples: Seq<Binary32>) {
        lemma_drawn_rest(samples);
    }

    fn scatter(
        &self,
        ray: Ray,
        rec: &HitRecord,
        attenuation: &mut Vec3,
        scattered: &mut Ray,
        sampler: &mut Sampler,
    ) -> (r: bool) {
        let reflected: Vec3 = self.reflect(ray.direction().normalize(), rec.normal());
        *scattered = Ray::new(rec.p(), reflected);
        *attenuation = self.albedo;
        reflected.dot(rec.normal()).gt(Binary32 { bits: 0 })
    }
}

impl Material for Surface {
    open spec fn scattering(&self, ray: Ray, rec: HitRecord, samples: Seq<Binary32>) -> Scattering {
        match *self {
            Surface::Diffuse(m) => m.scattering(ray, rec, samples),
            Surface::Specular(m) => m.scattering(ray, rec, samples),
        }
    }

    proof fn scattering_draws(&self, ray: Ray, rec: HitRecord, samples: Seq<Binary32>) {
        match *self {
            Surface::Diffuse(m) => m.scattering_draws(ray, rec, samples),
            Surface::Specular(m) => m.scattering_draws(ray, rec, samples),
        }
    }

    fn scatter(
        &self,
        ray: Ray,
        rec: &HitRecord,
        attenuation: &mut Vec3,
        scattered: &mut Ray,
        sampler: &mut Sampler,
    ) -> (r: bool) {
        match self {
            Surface::Diffuse(m) => m.scatter(ray, rec, attenuation, scattered, sampler),
            Surface::Specular(m) => m.scatter(ray, rec, attenuation, scattered, sampler),
        }
    }
}

/// A mirror absorbs exactly the rays whose image does not leave the surface.
pub proof fn lemma_mirror_absorbs(m: Reflective, ray: Ray, rec: HitRecord, samples: Seq<Binary32>)
    ensures
        !m.scattering(ray, rec, samples).scattered <==> !Binary32::zero().below(
            mirrored(ray.b.unit(), rec.normal).inner(rec.normal),
        ),
        m.scattering(ray, rec, samples).ray.b == mirrored(ray.b.unit(), rec.normal),
{
}

/// A matt surface never absorbs.
pub proof fn lemma_matt_scatters(m: Lambertian, ray: Ray, rec: HitRecord, samples: Seq<Binary32>)
    ensures
        m.scattering(ray, rec, samples).scattered,
        m.scattering(ray, rec, samples).attenuation == m.albedo,
        m.scattering(ray, rec, samples).ray.a == rec.p,
{
}

} // verus!
