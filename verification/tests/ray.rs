use raytracer::plane::Plane;
use raytracer::ray::Ray;
use std::f32::consts::PI;
use std::ops::Mul;

#[derive(Debug, Clone, Copy)]
struct Tuple {
    x: f64,
    y: f64,
    z: f64,
    w: f64,
}

impl PartialEq for Tuple {
    fn eq(&self, o: &Tuple) -> bool {
        let close = |a: f64, b: f64| (a - b).abs() < 1e-5;
        close(self.x, o.x) && close(self.y, o.y) && close(self.z, o.z) && close(self.w, o.w)
    }
}

fn point(x: impl Into<f64>, y: impl Into<f64>, z: impl Into<f64>) -> Tuple {
    Tuple { x: x.into(), y: y.into(), z: z.into(), w: 1.0 }
}

fn vector(x: impl Into<f64>, y: impl Into<f64>, z: impl Into<f64>) -> Tuple {
    Tuple { x: x.into(), y: y.into(), z: z.into(), w: 0.0 }
}

#[derive(Debug, Clone, Copy)]
struct Matrix([[f64; 4]; 4]);

impl Mul<Tuple> for Matrix {
    type Output = Tuple;
    fn mul(self, t: Tuple) -> Tuple {
        let v = [t.x, t.y, t.z, t.w];
        let row = |i: usize| (0..4).map(|j| self.0[i][j] * v[j]).sum::<f64>();
        Tuple { x: row(0), y: row(1), z: row(2), w: row(3) }
    }
}

fn identity() -> Matrix {
    let mut m = [[0.0; 4]; 4];
    for (i, row) in m.iter_mut().enumerate() {
        row[i] = 1.0;
    }
    Matrix(m)
}

fn translation(x: impl Into<f64>, y: impl Into<f64>, z: impl Into<f64>) -> Matrix {
    let mut m = identity();
    m.0[0][3] = x.into();
    m.0[1][3] = y.into();
    m.0[2][3] = z.into();
    m
}

fn scaling(x: impl Into<f64>, y: impl Into<f64>, z: impl Into<f64>) -> Matrix {
    let mut m = identity();
    m.0[0][0] = x.into();
    m.0[1][1] = y.into();
    m.0[2][2] = z.into();
    m
}

fn rotation_x(r: impl Into<f64>) -> Matrix {
    let r = r.into();
    let mut m = identity();
    m.0[1][1] = r.cos();
    m.0[1][2] = -r.sin();
    m.0[2][1] = r.sin();
    m.0[2][2] = r.cos();
    m
}

/// Creating and querying a ray
#[test]
fn rays() {
    let origin = point(1, 2, 3);
    let direction = vector(4, 5, 6);
    let r = Ray::new(origin, direction);
    assert_eq!(r.origin(), origin);
    assert_eq!(r.direction(), direction);
}

/// Translating a ray
#[test]
fn translate() {
    let r = Ray::new(point(1, 2, 3), vector(0, 1, 0));
    let m = translation(3, 4, 5);
    let r2 = r.transform(|t| m * t);
    assert_eq!(r2.origin(), point(4, 6, 8));
    assert_eq!(r2.direction(), vector(0, 1, 0));
}

/// Scaling a ray
#[test]
fn scale() {
    let r = Ray::new(point(1, 2, 3), vector(0, 1, 0));
    let m = scaling(2, 3, 4);
    let r2 = r.transform(|t| m * t);
    assert_eq!(r2.origin(), point(2, 6, 12));
    assert_eq!(r2.direction(), vector(0, 3, 0));
}

/// Rotating a ray
#[test]
fn rotate() {
    let r = Ray::new(point(1, 2, 3), vector(0, 1, 0));
    let m = rotation_x(PI / 2.0);
    let r2 = r.transform(|t| m * t);
    assert_eq!(r2.origin(), point(1, -3, 2));
    assert_eq!(r2.direction(), vector(0, 0, 1));
}

#[test]
fn transform_applies_the_map_to_both_parts() {
    let r = Ray::new(3i64, -2i64);
    let r2 = r.transform(|t| t * 10 + 1);
    assert_eq!(r2.origin(), 31);
    assert_eq!(r2.direction(), -19);
}

#[test]
fn plane_new() {
    assert_eq!(Plane::new(), Plane);
}
