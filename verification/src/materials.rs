//! The materials at hand while a recipe is performed, and what it means to
//! perform circles on them.

use crate::circle::{pointees, Transmutation};
use std::collections::HashMap;
use vstd::prelude::*;

verus! {

/// The materials at hand while a recipe is performed: for each key at most
/// one value.
pub struct Materials<V> {
    materials: HashMap<u64, V>,
}

impl<V> View for Materials<V> {
    type V = Map<u64, V>;

    closed spec fn view(&self) -> Map<u64, V> {
        self.materials@
    }
}

/// The values that `store` holds for `keys`, in their order.
pub open spec fn gathered<V>(store: Map<u64, V>, keys: Seq<u64>) -> Seq<V> {
    keys.map_values(|key: u64| store[key])
}

/// Whether `store` holds a value for each of `keys`.
pub open spec fn holds_all<V>(store: Map<u64, V>, keys: Seq<u64>) -> bool {
    forall|i: int| 0 <= i < keys.len() ==> store.contains_key(#[trigger] keys[i])
}

/// Whether performing `circle` on `before` can give `after`: it takes its
/// ingredients from `before`, and `after` is `before` with its product put
/// under the product's key.
pub open spec fn performs<V, T: Transmutation<V>>(
    circle: &T,
    before: Map<u64, V>,
    after: Map<u64, V>,
) -> bool {
    &&& after.contains_key(circle.product_key())
    &&& after == before.insert(circle.product_key(), after[circle.product_key()])
    &&& circle.transmutes(
        gathered(before, circle.ingredient_keys()),
        after[circle.product_key()],
    )
}

/// Whether one of the first `upto` circles makes `key`.
pub open spec fn supplied<V, T: Transmutation<V>>(circles: Seq<&T>, upto: int, key: u64) -> bool {
    exists|j: int| 0 <= j < upto && (#[trigger] circles[j]).product_key() == key
}

/// Whether the circles can be performed in order on an empty store, each
/// finding its ingredients among the products of the circles before it.
pub open spec fn performable<V, T: Transmutation<V>>(circles: Seq<&T>) -> bool {
    forall|i: int, m: int|
        0 <= i < circles.len() && 0 <= m < circles[i].ingredient_keys().len() ==> supplied(
            circles,
            i,
            #[trigger] circles[i].ingredient_keys()[m],
        )
}

/// Whether performing the circles in order on an empty store can give
/// `store`.
pub open spec fn brewed<V, T: Transmutation<V>>(circles: Seq<&T>, store: Map<u64, V>) -> bool
    decreases circles.len(),
{
    if circles.len() == 0 {
        store == Map::<u64, V>::empty()
    } else {
        exists|before: Map<u64, V>|
            brewed(circles.drop_last(), before) && #[trigger] performs(
                circles.last(),
                before,
                store,
            )
    }
}

/// Whether no two of the circles make the same product.
pub open spec fn unrepeated<V, T: Transmutation<V>>(circles: Seq<&T>) -> bool {
    forall|i: int, j: int|
        0 <= i < j < circles.len() ==> (#[trigger] circles[i]).product_key() != (
        #[trigger] circles[j]).product_key()
}

/// Where no product is made twice, the store that the circles leave holds
/// every product as its circle made it from the ingredients in that same
/// store: a product that several circles need is made once and is the same
/// for all of them.
pub proof fn lemma_brewed_respects<V, T: Transmutation<V>>(circles: Seq<&T>, store: Map<u64, V>)
    requires
        performable(circles),
        unrepeated(circles),
        brewed(circles, store),
    ensures
        forall|i: int|
            0 <= i < circles.len() ==> store.contains_key((#[trigger] circles[i]).product_key())
                && circles[i].transmutes(
                gathered(store, circles[i].ingredient_keys()),
                store[circles[i].product_key()],
            ),
    decreases circles.len(),
{
    if circles.len() > 0 {
        let front = circles.drop_last();
        let last = circles.last();
        let before = choose|before: Map<u64, V>|
            brewed(front, before) && #[trigger] performs(last, before, store);
        assert(performable(front)) by {
            assert forall|i: int, m: int|
                0 <= i < front.len() && 0 <= m < front[i].ingredient_keys().len() implies supplied(
                front,
                i,
                #[trigger] front[i].ingredient_keys()[m],
            ) by {
                let key = circles[i].ingredient_keys()[m];
                assert(supplied(circles, i, key));
                let j = choose|j: int| 0 <= j < i && (#[trigger] circles[j]).product_key() == key;
                assert(front[j].product_key() == key);
            }
        }
        assert(unrepeated(front)) by {
            assert forall|i: int, j: int| 0 <= i < j < front.len() implies (
            #[trigger] front[i]).product_key() != (#[trigger] front[j]).product_key() by {
                assert(front[i] == circles[i] && front[j] == circles[j]);
            }
        }
        lemma_brewed_respects(front, before);
        assert forall|i: int| 0 <= i < circles.len() implies store.contains_key(
            (#[trigger] circles[i]).product_key(),
        ) && circles[i].transmutes(
            gathered(store, circles[i].ingredient_keys()),
            store[circles[i].product_key()],
        ) by {
            let keys = circles[i].ingredient_keys();
            assert(gathered(store, keys) == gathered(before, keys)) by {
                assert forall|m: int| 0 <= m < keys.len() implies store[keys[m]] == before[keys[m]] by {
                    assert(supplied(circles, i, keys[m]));
                    let j = choose|j: int|
                        0 <= j < i && (#[trigger] circles[j]).product_key() == keys[m];
                    if i == circles.len() - 1 {
                        assert(circles[j].product_key() != circles[i].product_key());
                    } else {
                        assert(circles[j].product_key() != circles[circles.len() - 1].product_key());
                    }
                }
            }
            if i < front.len() {
                assert(front[i] == circles[i]);
                assert(circles[i].product_key() != circles[circles.len() - 1].product_key());
            }
        }
    }
}

impl<V> Materials<V> {
    /// No materials.
    pub fn new() -> (materials: Self)
        ensures
            materials@ == Map::<u64, V>::empty(),
    {
        Materials { materials: HashMap::new() }
    }

    /// The material under `id`, if there is one.
    pub fn get(&self, id: u64) -> (material: Option<&V>)
        ensures
            (match material {
                Some(value) => self@.contains_key(id) && *value == self@[id],
                None => !self@.contains_key(id),
            }),
    {
        self.materials.get(&id)
    }

    /// Performs `recipe` on the materials at hand and puts its product
    /// among them.
    pub fn apply<T: Transmutation<V>>(&mut self, recipe: &T)
        requires
            holds_all(old(self)@, recipe.ingredient_keys()),
        ensures
            performs(recipe, old(self)@, final(self)@),
    {
        let product_type = recipe.product();
        let keys = recipe.ingredients();
        let mut ingredients: Vec<&V> = Vec::new();
        let mut i: usize = 0;
        while i < keys.len()
            invariant
                i <= keys.len(),
                keys@ == recipe.ingredient_keys(),
                holds_all(self@, keys@),
                pointees(ingredients@) == gathered(self@, keys@.take(i as int)),
            decreases keys.len() - i,
        {
            let ghost taken = ingredients@;
            let ingredient = self.get(keys[i]).unwrap();
            ingredients.push(ingredient);
            proof {
                assert(pointees(ingredients@) == pointees(taken).push(*ingredient));
                assert(keys@.take(i + 1) == keys@.take(i as int).push(keys@[i as int]));
                assert(gathered(self@, keys@.take(i + 1)) == gathered(
                    self@,
                    keys@.take(i as int),
                ).push(self@[keys@[i as int]]));
            }
            i += 1;
        }
        assert(keys@.take(i as int) == keys@);
        let product = recipe.transmute(ingredients.as_slice());
        let ghost before = self@;
        self.materials.insert(product_type, product);
        assert(self@ == before.insert(product_type, product));
    }

    /// Takes the material under `id` out of the materials.
    pub fn into_material(self, id: u64) -> (material: V)
        requires
            self@.contains_key(id),
        ensures
            material == self@[id],
    {
        let mut materials = self.materials;
        materials.remove(&id).unwrap()
    }

    /// Performs the circles in order, starting with no materials.
    pub fn from_iter<T: Transmutation<V>>(circles: &Vec<&T>) -> (materials: Self)
        requires
            performable(circles@),
        ensures
            brewed(circles@, materials@),
            forall|i: int|
                0 <= i < circles.len() ==> materials@.contains_key(
                    (#[trigger] circles[i]).product_key(),
                ),
    {
        let mut materials = Self::new();
        let mut i: usize = 0;
        while i < circles.len()
            invariant
                i <= circles.len(),
                performable(circles@),
                brewed(circles@.take(i as int), materials@),
                forall|j: int|
                    0 <= j < i ==> materials@.contains_key((#[trigger] circles[j]).product_key()),
            decreases circles.len() - i,
        {
            let ghost before = materials@;
            let recipe = circles[i];
            assert(holds_all(before, recipe.ingredient_keys())) by {
                assert forall|m: int| 0 <= m < recipe.ingredient_keys().len() implies before.contains_key(
                    #[trigger] recipe.ingredient_keys()[m],
                ) by {
                    let key = circles[i as int].ingredient_keys()[m];
                    assert(supplied(circles@, i as int, key));
                    let j = choose|j: int| 0 <= j < i && (#[trigger] circles[j]).product_key() == key;
                    assert(before.contains_key(circles[j].product_key()));
                }
            }
            materials.apply(recipe);
            proof {
                let next = circles@.take(i + 1);
                assert(next.drop_last() == circles@.take(i as int));
                assert(next.last() == recipe);
                assert(brewed(next.drop_last(), before) && performs(next.last(), before, materials@));
                assert(brewed(next, materials@));
            }
            i += 1;
        }
        assert(circles@.take(i as int) == circles@);
        materials
    }
}

impl<V> Default for Materials<V> {
    /// No materials.
    fn default() -> (materials: Self)
        ensures
            materials@ == Map::<u64, V>::empty(),
    {
        Materials::new()
    }
}

} // verus!
