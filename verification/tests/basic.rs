use summon::{Tome, Transmutation};

const A: u64 = 1;
const B: u64 = 2;
const C: u64 = 3;

#[derive(Clone, Debug, PartialEq)]
enum Tag {
    A,
    B,
    C,
}

struct Fuse;

const FUSE_INGREDIENTS: &[u64] = &[A, B];

impl Transmutation<Tag> for Fuse {
    fn ingredients(&self) -> &'static [u64] {
        FUSE_INGREDIENTS
    }

    fn product(&self) -> u64 {
        C
    }

    fn transmute(&self, inputs: &[&Tag]) -> Tag {
        if let [a, b] = inputs {
            assert_eq!(**a, Tag::A);
            assert_eq!(**b, Tag::B);
            Tag::C
        } else {
            panic!(
                "transmute passed incorrect number of arguments (expected: {}, found: {})",
                self.ingredients().len(),
                inputs.len()
            );
        }
    }
}

#[test]
fn fuse() {
    let mut tome = Tome::new();
    tome.ether(A, Tag::A);
    tome.ether(B, Tag::B);
    tome.inscribe(Box::new(Fuse));
    println!("{:?}", tome.summon(C).unwrap());
}

const CONSTANT_ACCELERATION: u64 = 10;
const INITIAL_VELOCITY: u64 = 11;
const INITIAL_POSITION: u64 = 12;
const TIME: u64 = 13;
const DISTANCE: u64 = 14;

struct Travel;

const TRAVEL_INGREDIENTS: &[u64] = &[CONSTANT_ACCELERATION, INITIAL_VELOCITY, INITIAL_POSITION, TIME];

impl Transmutation<f64> for Travel {
    fn ingredients(&self) -> &'static [u64] {
        TRAVEL_INGREDIENTS
    }

    fn product(&self) -> u64 {
        DISTANCE
    }

    fn transmute(&self, inputs: &[&f64]) -> f64 {
        if let [a, v, p, t] = inputs {
            0.5 * **a * t.powi(2) + **v * **t + **p
        } else {
            panic!(
                "transmute passed incorrect number of arguments (expected: {}, found: {})",
                self.ingredients().len(),
                inputs.len()
            );
        }
    }
}

#[test]
fn sum_circle() {
    let mut tome = Tome::new();
    tome.ether(CONSTANT_ACCELERATION, 3.0);
    tome.ether(INITIAL_VELOCITY, 5.0);
    tome.ether(INITIAL_POSITION, 6.0);
    tome.ether(TIME, 4.0);
    tome.inscribe(Box::new(Travel));
    assert_eq!(
        0.5 * 3.0 * 4.0f64.powi(2) + 5.0 * 4.0 + 6.0,
        tome.summon(DISTANCE).unwrap()
    );
}

/// The same circle as `Travel`, written on the values themselves.
struct Bend;

impl Transmutation<f64> for Bend {
    fn ingredients(&self) -> &'static [u64] {
        TRAVEL_INGREDIENTS
    }

    fn product(&self) -> u64 {
        DISTANCE
    }

    fn transmute(&self, inputs: &[&f64]) -> f64 {
        if let [&a, &v, &p, &t] = inputs {
            0.5 * a * t.powi(2) + v * t + p
        } else {
            panic!(
                "transmute passed incorrect number of arguments (expected: {}, found: {})",
                self.ingredients().len(),
                inputs.len()
            );
        }
    }
}

#[test]
fn sum_bend() {
    let mut tome = Tome::new();
    tome.ether(CONSTANT_ACCELERATION, 3.0);
    tome.ether(INITIAL_VELOCITY, 5.0);
    tome.ether(INITIAL_POSITION, 6.0);
    tome.ether(TIME, 4.0);
    tome.inscribe(Box::new(Bend));
    assert_eq!(
        0.5 * 3.0 * 4.0f64.powi(2) + 5.0 * 4.0 + 6.0,
        tome.summon(DISTANCE).unwrap()
    );
}
