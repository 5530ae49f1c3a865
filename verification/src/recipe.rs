//! Recipes: the steps that a search found, kept together with an index of
//! their products.

use crate::plan::{distinct, join, makes, Step};
use std::collections::HashMap;
use vstd::prelude::*;

verus! {

/// The steps to perform, in order, and for each product the place of the
/// step that makes it.
pub struct Recipe {
    steps: Vec<Step>,
    products: HashMap<u64, usize>,
}

impl View for Recipe {
    type V = Seq<Step>;

    closed spec fn view(&self) -> Seq<Step> {
        self.steps@
    }
}

/// Whether `products` holds exactly the products of `steps`, each with the
/// place of its step.
pub open spec fn indexes(products: Map<u64, usize>, steps: Seq<Step>) -> bool {
    &&& forall|key: u64| #[trigger] products.contains_key(key) <==> makes(steps, key)
    &&& forall|key: u64| #[trigger]
        products.contains_key(key) ==> products[key] < steps.len() && steps[products[key] as int].product
            == key
}

/// The steps of the recipe, if there is one.
pub open spec fn steps_of(found: Option<Recipe>) -> Option<Seq<Step>> {
    match found {
        Some(recipe) => Some(recipe@),
        None => None,
    }
}

impl Recipe {
    /// What holds of every recipe: no product is made twice, and the index
    /// holds exactly the products of the steps.
    #[verifier::type_invariant]
    pub closed spec fn well_formed(&self) -> bool {
        &&& distinct(self.steps@)
        &&& indexes(self.products@, self.steps@)
    }

    /// A recipe without steps.
    pub fn new() -> (recipe: Self)
        ensures
            recipe@ == Seq::<Step>::empty(),
    {
        Recipe { steps: Vec::new(), products: HashMap::new() }
    }

    /// The recipe that performs `self` and, after it, the steps of `other`
    /// whose product is not made yet.
    pub fn join(self, other: Self) -> (joined: Self)
        ensures
            joined@ == join(self@, other@),
    {
        proof {
            use_type_invariant(&self);
        }
        let ghost base = self@;
        let Recipe { steps: mut steps, products: mut products } = self;
        let Recipe { steps: other_steps, products: _ } = other;
        let mut i: usize = 0;
        while i < other_steps.len()
            invariant
                i <= other_steps.len(),
                steps@ == join(base, other_steps@.take(i as int)),
                distinct(steps@),
                indexes(products@, steps@),
            decreases other_steps.len() - i,
        {
            let step = other_steps[i];
            proof {
                let next = other_steps@.take(i + 1);
                assert(next.drop_last() == other_steps@.take(i as int));
                assert(next.last() == step);
            }
            if !products.contains_key(&step.product) {
                let ghost before = steps@;
                products.insert(step.product, steps.len());
                steps.push(step);
                proof {
                    assert forall|key: u64| #[trigger]
                        products@.contains_key(key) <==> makes(steps@, key) by {
                        if makes(before, key) {
                            let q = choose|q: int|
                                0 <= q < before.len() && (#[trigger] before[q]).product == key;
                            assert(steps@[q].product == key);
                        }
                        if key == step.product {
                            assert(steps@[before.len() as int].product == key);
                        }
                        if makes(steps@, key) && key != step.product {
                            let q = choose|q: int|
                                0 <= q < steps@.len() && (#[trigger] steps@[q]).product == key;
                            assert(before[q].product == key);
                        }
                    }
                    assert forall|a: int, b: int| 0 <= a < b < steps@.len() implies (
                    #[trigger] steps@[a]).product != (#[trigger] steps@[b]).product by {
                        assert(steps@[a] == before[a]);
                        if b < before.len() {
                            assert(steps@[b] == before[b]);
                        }
                    }
                }
            }
            i += 1;
        }
        assert(other_steps@.take(i as int) == other_steps@);
        Recipe { steps, products }
    }

    /// No product is made twice in a recipe.
    pub proof fn lemma_no_product_twice(&self)
        requires
            self.well_formed(),
        ensures
            distinct(self@),
    {
    }

    /// The steps, in order.
    pub fn steps(&self) -> (steps: &Vec<Step>)
        ensures
            steps@ == self@,
    {
        &self.steps
    }

    /// The recipe of one step.
    pub fn from(step: Step) -> (recipe: Self)
        ensures
            recipe@ == seq![step],
    {
        let mut steps: Vec<Step> = Vec::new();
        let mut products: HashMap<u64, usize> = HashMap::new();
        products.insert(step.product, 0);
        steps.push(step);
        assert(steps@[0].product == step.product);
        Recipe { steps, products }
    }
}

impl Default for Recipe {
    /// A recipe without steps.
    fn default() -> (recipe: Self)
        ensures
            recipe@ == Seq::<Step>::empty(),
    {
        Recipe::new()
    }
}

} // verus!
