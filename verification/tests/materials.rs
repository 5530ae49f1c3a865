use std::cell::Cell;
use std::rc::Rc;

use summon::{Circle, Ether, Materials, Tome, Transmutation};

/// A circle that counts how often it is performed.
struct Counted {
    ingredients: &'static [u64],
    product: u64,
    performed: Rc<Cell<usize>>,
}

impl Transmutation<String> for Counted {
    fn ingredients(&self) -> &'static [u64] {
        self.ingredients
    }

    fn product(&self) -> u64 {
        self.product
    }

    fn transmute(&self, inputs: &[&String]) -> String {
        self.performed.set(self.performed.get() + 1);
        let parts: Vec<&str> = inputs.iter().map(|input| input.as_str()).collect();
        format!("{}({})", self.product, parts.join(","))
    }
}

fn counted(
    ingredients: &'static [u64],
    product: u64,
    performed: &Rc<Cell<usize>>,
) -> Box<dyn Transmutation<String>> {
    Box::new(Counted { ingredients, product, performed: performed.clone() })
}

#[test]
fn new_materials_hold_nothing() {
    let materials: Materials<i64> = Materials::new();
    assert_eq!(materials.get(0), None);
    let materials: Materials<i64> = Materials::default();
    assert_eq!(materials.get(1), None);
}

#[test]
fn apply_puts_the_product_under_its_key() {
    let mut materials: Materials<String> = Materials::new();
    let fact = Ether { key: 3, item: "three".to_string() };
    materials.apply(&fact);
    assert_eq!(materials.get(3), Some(&"three".to_string()));
    assert_eq!(materials.get(4), None);
    let performed = Rc::new(Cell::new(0));
    let circle = Counted { ingredients: &[3, 3], product: 4, performed: performed.clone() };
    materials.apply(&circle);
    assert_eq!(materials.get(4), Some(&"4(three,three)".to_string()));
    assert_eq!(materials.get(3), Some(&"three".to_string()));
    assert_eq!(performed.get(), 1);
    assert_eq!(materials.into_material(4), "4(three,three)".to_string());
}

#[test]
fn from_iter_performs_in_order() {
    let first = Circle::Ether(Ether { key: 1, item: "a".to_string() });
    let performed = Rc::new(Cell::new(0));
    let second = Circle::Inscribed(counted(&[1], 2, &performed));
    let third = Circle::Inscribed(counted(&[2, 1], 3, &performed));
    let circles = vec![&first, &second, &third];
    let materials = Materials::from_iter(&circles);
    assert_eq!(performed.get(), 2);
    assert_eq!(materials.get(1), Some(&"a".to_string()));
    assert_eq!(materials.get(2), Some(&"2(a)".to_string()));
    assert_eq!(materials.into_material(3), "3(2(a),a)".to_string());
}

#[test]
fn from_iter_of_nothing_holds_nothing() {
    let circles: Vec<&Circle<String>> = Vec::new();
    let materials = Materials::from_iter(&circles);
    assert_eq!(materials.get(1), None);
}

#[test]
fn ether_has_no_ingredients_and_clones_its_item() {
    let fact = Ether { key: 8, item: vec![1, 2, 3] };
    assert!(Transmutation::<Vec<i32>>::ingredients(&fact).is_empty());
    assert_eq!(Transmutation::<Vec<i32>>::product(&fact), 8);
    assert_eq!(fact.transmute(&[]), vec![1, 2, 3]);
    assert_eq!(fact.transmute(&[]), vec![1, 2, 3]);
}

#[test]
fn circle_behaves_as_what_it_holds() {
    let performed = Rc::new(Cell::new(0));
    let inscribed = Circle::Inscribed(counted(&[5, 6], 7, &performed));
    assert_eq!(inscribed.ingredients(), &[5, 6]);
    assert_eq!(inscribed.product(), 7);
    let five = "x".to_string();
    let six = "y".to_string();
    assert_eq!(inscribed.transmute(&[&five, &six]), "7(x,y)".to_string());
    let fact = Circle::Ether(Ether { key: 2, item: "z".to_string() });
    assert!(fact.ingredients().is_empty());
    assert_eq!(fact.product(), 2);
    assert_eq!(fact.transmute(&[]), "z".to_string());
}

#[test]
fn diamond_makes_the_shared_product_once() {
    let made_a = Rc::new(Cell::new(0));
    let made_rest = Rc::new(Cell::new(0));
    let mut tome = Tome::new();
    tome.inscribe(counted(&[], 1, &made_a));
    tome.inscribe(counted(&[1], 2, &made_rest));
    tome.inscribe(counted(&[1], 3, &made_rest));
    tome.inscribe(counted(&[2, 3], 4, &made_rest));
    assert_eq!(tome.summon(4), Some("4(2(1()),3(1()))".to_string()));
    assert_eq!(made_a.get(), 1);
    assert_eq!(made_rest.get(), 3);
}

#[test]
fn preserve_leaves_every_product_of_the_recipe() {
    let performed = Rc::new(Cell::new(0));
    let mut tome = Tome::new();
    tome.ether(1, "a".to_string());
    tome.ether(9, "unused".to_string());
    tome.inscribe(counted(&[1], 2, &performed));
    let materials = tome.preserve(2).unwrap();
    assert_eq!(materials.get(1), Some(&"a".to_string()));
    assert_eq!(materials.get(2), Some(&"2(a)".to_string()));
    assert_eq!(materials.get(9), None);
    assert!(tome.preserve(3).is_none());
}

#[test]
fn summon_does_not_change_the_tome() {
    let performed = Rc::new(Cell::new(0));
    let mut tome = Tome::new();
    tome.ether(1, "a".to_string());
    tome.inscribe(counted(&[1], 2, &performed));
    assert_eq!(tome.summon(2), Some("2(a)".to_string()));
    assert_eq!(tome.summon(2), Some("2(a)".to_string()));
    assert_eq!(tome.summon(1), Some("a".to_string()));
    assert_eq!(performed.get(), 2);
}

#[test]
fn enroll_takes_either_kind_of_circle() {
    let performed = Rc::new(Cell::new(0));
    let mut tome = Tome::new();
    tome.enroll(Circle::Inscribed(counted(&[1], 2, &performed)));
    tome.enroll(Circle::Ether(Ether { key: 1, item: "e".to_string() }));
    assert_eq!(tome.summon(2), Some("2(e)".to_string()));
}
