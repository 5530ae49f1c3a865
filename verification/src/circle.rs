//! Circles: transmutations, which make one product from ingredients, and the
//! two kinds of them that a tome holds.

use vstd::prelude::*;

verus! {

/// A transmutation takes ingredients, named by their keys, and makes one
/// product.
///
/// The three spec functions are the model of a transmutation: which keys it
/// asks for, which key it makes, and which outputs it may give for given
/// inputs. They have bodies so that a transmutation written in unverified
/// code needs only the three executable methods; such a transmutation is
/// trusted to name the same ingredients and the same product at every call.
pub trait Transmutation<V> {
    /// The keys of the ingredients, in the order in which `transmute` takes
    /// their values.
    open spec fn ingredient_keys(&self) -> Seq<u64> {
        arbitrary()
    }

    /// The key of the product.
    open spec fn product_key(&self) -> u64 {
        arbitrary()
    }

    /// Whether `out` is a product that the ingredients `inputs` may give.
    open spec fn transmutes(&self, inputs: Seq<V>, out: V) -> bool {
        true
    }

    /// The keys of the ingredients, in order.
    fn ingredients(&self) -> (keys: &'static [u64])
        ensures
            keys@ == self.ingredient_keys(),
    ;

    /// The key of the product.
    fn product(&self) -> (key: u64)
        ensures
            key == self.product_key(),
    ;

    /// Makes the product from one value for each ingredient, in the order of
    /// `ingredients`.
    fn transmute(&self, inputs: &[&V]) -> (out: V)
        requires
            inputs@.len() == self.ingredient_keys().len(),
        ensures
            self.transmutes(pointees(inputs@), out),
    ;
}

/// The values that a sequence of references points to.
pub open spec fn pointees<V>(inputs: Seq<&V>) -> Seq<V> {
    inputs.map_values(|v: &V| *v)
}

/// Something that is simply there: a transmutation without ingredients,
/// whose product is a copy of the item it holds.
pub struct Ether<V> {
    pub key: u64,
    pub item: V,
}

impl<V: Clone> Transmutation<V> for Ether<V> {
    open spec fn ingredient_keys(&self) -> Seq<u64> {
        Seq::empty()
    }

    open spec fn product_key(&self) -> u64 {
        self.key
    }

    open spec fn transmutes(&self, inputs: Seq<V>, out: V) -> bool {
        cloned(self.item, out)
    }

    fn ingredients(&self) -> (keys: &'static [u64]) {
        &[]
    }

    fn product(&self) -> (key: u64) {
        self.key
    }

    fn transmute(&self, inputs: &[&V]) -> (out: V) {
        self.item.clone()
    }
}

/// A circle as a tome holds it: either something out of the ether, or a
/// transmutation that was inscribed.
#[verifier::reject_recursive_types(V)]
pub enum Circle<V> {
    Ether(Ether<V>),
    Inscribed(Box<dyn Transmutation<V>>),
}

/// The circle that holds `item` under `key`, out of the ether.
pub open spec fn fact<V>(key: u64, item: V) -> Circle<V> {
    Circle::Ether(Ether { key, item })
}

impl<V: Clone> Transmutation<V> for Circle<V> {
    open spec fn ingredient_keys(&self) -> Seq<u64> {
        match self {
            Circle::Ether(ether) => ether.ingredient_keys(),
            Circle::Inscribed(circle) => circle.ingredient_keys(),
        }
    }

    open spec fn product_key(&self) -> u64 {
        match self {
            Circle::Ether(ether) => ether.product_key(),
            Circle::Inscribed(circle) => circle.product_key(),
        }
    }

    open spec fn transmutes(&self, inputs: Seq<V>, out: V) -> bool {
        match self {
            Circle::Ether(ether) => ether.transmutes(inputs, out),
            Circle::Inscribed(circle) => circle.transmutes(inputs, out),
        }
    }

    fn ingredients(&self) -> (keys: &'static [u64]) {
        match self {
            Circle::Ether(ether) => ether.ingredients(),
            Circle::Inscribed(circle) => circle.ingredients(),
        }
    }

    fn product(&self) -> (key: u64) {
        match self {
            Circle::Ether(ether) => ether.product(),
            Circle::Inscribed(circle) => circle.product(),
        }
    }

    fn transmute(&self, inputs: &[&V]) -> (out: V) {
        match self {
            Circle::Ether(ether) => ether.transmute(inputs),
            Circle::Inscribed(circle) => circle.transmute(inputs),
        }
    }
}

} // verus!
