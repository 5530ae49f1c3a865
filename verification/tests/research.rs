use std::collections::HashSet;

use summon::{Recipe, Step, Tome, Transmutation};

/// A circle for tests: it adds up its ingredients and adds `bonus`.
struct Sum {
    ingredients: &'static [u64],
    product: u64,
    bonus: i64,
}

impl Transmutation<i64> for Sum {
    fn ingredients(&self) -> &'static [u64] {
        self.ingredients
    }

    fn product(&self) -> u64 {
        self.product
    }

    fn transmute(&self, inputs: &[&i64]) -> i64 {
        assert_eq!(inputs.len(), self.ingredients.len());
        inputs.iter().map(|value| **value).sum::<i64>() + self.bonus
    }
}

fn sum(ingredients: &'static [u64], product: u64, bonus: i64) -> Box<dyn Transmutation<i64>> {
    Box::new(Sum { ingredients, product, bonus })
}

fn step(product: u64, choice: usize) -> Step {
    Step { product, choice }
}

fn steps_for(tome: &Tome<i64>, id: u64) -> Option<Vec<Step>> {
    tome.research(id).map(|recipe| recipe.steps().clone())
}

#[test]
fn empty_tome_has_no_recipe() {
    let tome: Tome<i64> = Tome::new();
    assert!(tome.research(7).is_none());
    assert_eq!(tome.summon(7), None);
}

#[test]
fn default_tome_is_empty() {
    let tome: Tome<i64> = Tome::default();
    assert_eq!(tome.summon(0), None);
}

#[test]
fn goal_without_circle_is_not_found() {
    let mut tome = Tome::new();
    tome.ether(1, 10);
    assert_eq!(tome.summon(2), None);
}

#[test]
fn missing_ingredient_further_down_is_not_found() {
    let mut tome = Tome::new();
    tome.ether(1, 10);
    tome.inscribe(sum(&[1, 9], 2, 0));
    tome.inscribe(sum(&[2], 3, 0));
    assert_eq!(steps_for(&tome, 3), None);
    assert_eq!(tome.summon(3), None);
    assert_eq!(tome.summon(1), Some(10));
}

#[test]
fn fact_is_its_own_recipe() {
    let mut tome = Tome::new();
    tome.ether(5, 42);
    tome.inscribe(sum(&[5], 6, 1));
    assert_eq!(steps_for(&tome, 5), Some(vec![step(5, 0)]));
    assert_eq!(tome.summon(5), Some(42));
}

#[test]
fn earlier_fact_for_a_key_wins() {
    let mut tome = Tome::new();
    tome.ether(5, 1);
    tome.ether(5, 2);
    assert_eq!(steps_for(&tome, 5), Some(vec![step(5, 0)]));
    assert_eq!(tome.summon(5), Some(1));
}

#[test]
fn two_searches_give_the_same_steps() {
    let mut tome = Tome::new();
    tome.ether(1, 3);
    tome.ether(2, 4);
    tome.inscribe(sum(&[1, 2], 3, 0));
    tome.inscribe(sum(&[3, 1], 4, 0));
    let first = steps_for(&tome, 4);
    let second = steps_for(&tome, 4);
    assert_eq!(first, second);
    assert_eq!(first, Some(vec![step(1, 0), step(2, 0), step(3, 0), step(4, 0)]));
    assert_eq!(tome.summon(4), Some(10));
    assert_eq!(tome.summon(4), Some(10));
}

#[test]
fn ingredients_come_in_declared_order() {
    let mut tome = Tome::new();
    tome.ether(1, 3);
    tome.ether(2, 4);
    tome.inscribe(sum(&[2, 1], 3, 0));
    assert_eq!(steps_for(&tome, 3), Some(vec![step(2, 0), step(1, 0), step(3, 0)]));
}

#[test]
fn fewer_ingredients_are_preferred() {
    let mut tome = Tome::new();
    tome.ether(1, 1);
    tome.ether(2, 2);
    tome.inscribe(sum(&[1, 2], 3, 100));
    tome.inscribe(sum(&[1], 3, 200));
    assert_eq!(steps_for(&tome, 3), Some(vec![step(1, 0), step(3, 0)]));
    assert_eq!(tome.summon(3), Some(201));
}

#[test]
fn equal_counts_keep_the_order_of_inscription() {
    let mut tome = Tome::new();
    tome.ether(1, 1);
    tome.ether(2, 2);
    tome.inscribe(sum(&[2], 3, 100));
    tome.inscribe(sum(&[1], 3, 200));
    tome.inscribe(sum(&[], 4, 7));
    tome.inscribe(sum(&[], 4, 8));
    assert_eq!(steps_for(&tome, 3), Some(vec![step(2, 0), step(3, 0)]));
    assert_eq!(tome.summon(3), Some(102));
    assert_eq!(tome.summon(4), Some(7));
}

#[test]
fn circle_goes_after_those_with_as_many_ingredients() {
    let mut tome = Tome::new();
    tome.ether(1, 1);
    tome.inscribe(sum(&[1, 1, 1], 3, 300));
    tome.inscribe(sum(&[9], 3, 100));
    tome.inscribe(sum(&[1, 1], 3, 200));
    tome.inscribe(sum(&[8], 3, 150));
    // The order is now: [9], [8], [1, 1], [1, 1, 1]; the first two cannot be made.
    assert_eq!(steps_for(&tome, 3), Some(vec![step(1, 0), step(3, 2)]));
    assert_eq!(tome.summon(3), Some(202));
}

#[test]
fn next_circle_is_tried_when_one_cannot_be_made() {
    let mut tome = Tome::new();
    tome.ether(1, 5);
    tome.inscribe(sum(&[9], 3, 100));
    tome.inscribe(sum(&[1, 1], 3, 200));
    assert_eq!(steps_for(&tome, 3), Some(vec![step(1, 0), step(3, 1)]));
    assert_eq!(tome.summon(3), Some(210));
}

#[test]
fn shared_ingredient_is_planned_once() {
    let mut tome = Tome::new();
    tome.ether(1, 1);
    tome.inscribe(sum(&[1], 2, 10));
    tome.inscribe(sum(&[1], 3, 100));
    tome.inscribe(sum(&[2, 3], 4, 1000));
    let steps = steps_for(&tome, 4).unwrap();
    assert_eq!(steps, vec![step(1, 0), step(2, 0), step(3, 0), step(4, 0)]);
    let products: HashSet<u64> = steps.iter().map(|step| step.product).collect();
    assert_eq!(products.len(), steps.len());
    assert_eq!(tome.summon(4), Some(11 + 101 + 1000));
}

#[test]
fn circle_that_needs_its_own_product_is_passed_over() {
    let mut tome = Tome::new();
    tome.inscribe(sum(&[1], 1, 0));
    assert_eq!(tome.summon(1), None);
    tome.inscribe(sum(&[2, 2], 1, 5));
    tome.ether(2, 1);
    assert_eq!(steps_for(&tome, 1), Some(vec![step(2, 0), step(1, 1)]));
    assert_eq!(tome.summon(1), Some(7));
}

#[test]
fn circles_that_need_each_other_are_not_found() {
    let mut tome = Tome::new();
    tome.inscribe(sum(&[2], 1, 0));
    tome.inscribe(sum(&[1], 2, 0));
    assert_eq!(tome.summon(1), None);
    assert_eq!(tome.summon(2), None);
    tome.ether(1, 4);
    assert_eq!(steps_for(&tome, 2), Some(vec![step(1, 0), step(2, 0)]));
    assert_eq!(tome.summon(2), Some(4));
}

#[test]
fn search_with_a_busy_key_does_not_pursue_it() {
    let mut tome = Tome::new();
    tome.ether(1, 4);
    tome.inscribe(sum(&[1], 2, 0));
    let mut busy = HashSet::new();
    busy.insert(1);
    assert!(tome.research_id(2, &mut busy).is_none());
    assert!(tome.research_id(1, &mut busy).is_none());
    assert_eq!(busy.len(), 1);
    assert!(busy.contains(&1));
    let mut free = HashSet::new();
    let found = tome.research_id(2, &mut free).unwrap();
    assert_eq!(found.steps(), &vec![step(1, 0), step(2, 0)]);
    assert!(free.is_empty());
}

#[test]
fn join_keeps_the_first_step_for_a_product() {
    let left = Recipe::from(step(1, 0)).join(Recipe::from(step(2, 0)));
    let right = Recipe::from(step(2, 5))
        .join(Recipe::from(step(3, 0)))
        .join(Recipe::from(step(1, 7)))
        .join(Recipe::from(step(4, 1)));
    let joined = left.join(right);
    assert_eq!(joined.steps(), &vec![step(1, 0), step(2, 0), step(3, 0), step(4, 1)]);
}

#[test]
fn join_with_empty_recipes() {
    let empty = Recipe::new().join(Recipe::default());
    assert!(empty.steps().is_empty());
    let one = Recipe::new().join(Recipe::from(step(9, 2)));
    assert_eq!(one.steps(), &vec![step(9, 2)]);
    let same = one.join(Recipe::new());
    assert_eq!(same.steps(), &vec![step(9, 2)]);
}

#[test]
fn recipe_of_one_step() {
    let recipe = Recipe::from(step(3, 1));
    assert_eq!(recipe.steps(), &vec![Step { product: 3, choice: 1 }]);
}

#[test]
fn circle_with_one_unmakeable_ingredient_is_given_up_whole() {
    let mut tome = Tome::new();
    tome.ether(1, 5);
    tome.ether(2, 6);
    tome.inscribe(sum(&[1, 9], 3, 100));
    tome.inscribe(sum(&[2, 2, 2], 3, 200));
    // The first circle finds a recipe for 1, but none for 9: nothing of it stays.
    assert_eq!(steps_for(&tome, 3), Some(vec![step(2, 0), step(3, 1)]));
    assert_eq!(tome.summon(3), Some(218));
}

#[test]
fn recipe_holds_only_what_the_goal_needs() {
    let mut tome = Tome::new();
    tome.ether(1, 5);
    tome.ether(2, 6);
    tome.inscribe(sum(&[1], 3, 0));
    tome.inscribe(sum(&[2], 4, 0));
    assert_eq!(steps_for(&tome, 3), Some(vec![step(1, 0), step(3, 0)]));
    assert_eq!(steps_for(&tome, 4), Some(vec![step(2, 0), step(4, 0)]));
}
