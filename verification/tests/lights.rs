use raytracer::lights::{AmbientLight, IncomingLight, LightRay, PointLight, RealisticPointLight};

#[derive(Debug, Clone, Copy, PartialEq)]
struct Tuple {
    x: f64,
    y: f64,
    z: f64,
    w: f64,
}

fn point(x: impl Into<f64>, y: impl Into<f64>, z: impl Into<f64>) -> Tuple {
    Tuple { x: x.into(), y: y.into(), z: z.into(), w: 1.0 }
}

#[derive(Debug, Clone, Copy, PartialEq)]
struct Color {
    r: f64,
    g: f64,
    b: f64,
}

fn color(r: impl Into<f64>, g: impl Into<f64>, b: impl Into<f64>) -> Color {
    Color { r: r.into(), g: g.into(), b: b.into() }
}

/// A point light has a position and intensity
#[test]
fn point_attrs() {
    let intensity = color(1, 1, 1);
    let position = point(0, 0, 0);
    let light = PointLight::new(position, intensity);
    assert_eq!(light.position(), position);
    assert_eq!(light.intensity(), intensity);
}

#[test]
fn realistic_and_ambient_attrs() {
    let light = RealisticPointLight::new(point(1, 2, 3), color(0.5, 0.25, 1));
    assert_eq!(light.position(), point(1, 2, 3));
    assert_eq!(light.intensity(), color(0.5, 0.25, 1));
    let ambient = AmbientLight::new(color(0.1, 0.2, 0.3));
    assert_eq!(ambient.intensity(), color(0.1, 0.2, 0.3));
}

#[test]
fn incoming_light_holds_a_ray_or_a_color() {
    let ray = LightRay { origin: point(0, 1, 0), direction: point(0, -1, 0), color: color(1, 1, 1) };
    match IncomingLight::Ray(ray) {
        IncomingLight::Ray(r) => {
            assert_eq!(r.origin, point(0, 1, 0));
            assert_eq!(r.color, color(1, 1, 1));
        }
        IncomingLight::Omni(_) => panic!("expected a ray"),
    }
    let omni: IncomingLight<Tuple, Color> = IncomingLight::Omni(color(0.2, 0.2, 0.2));
    assert!(matches!(omni, IncomingLight::Omni(c) if c == color(0.2, 0.2, 0.2)));
}
