//! The tome: where circles are inscribed, and where a product is summoned
//! by finding a recipe for it and performing the recipe.

use crate::circle::{fact, Circle, Ether, Transmutation};
use crate::materials::{brewed, performable, supplied, Materials};
use crate::plan::{
    fed, lemma_pursuit_shrinks, lemma_search_sound, makes, names_circle, needs, open_keys, plan,
    search, search_all, search_among, sound, tidy, Shape, Step,
};
use crate::recipe::{steps_of, Recipe};
use std::collections::{HashMap, HashSet};
use vstd::prelude::*;

verus! {

/// Where a circle with `count` ingredients goes among `circles`: before the
/// first one that has more ingredients, or at the end.
pub open spec fn slot(circles: Seq<Seq<u64>>, count: nat) -> nat
    decreases circles.len(),
{
    if circles.len() == 0 || circles[0].len() > count {
        0
    } else {
        1 + slot(circles.drop_first(), count)
    }
}

/// Whether the circles stand in the order of their ingredient counts,
/// fewest first.
pub open spec fn fewest_first(circles: Seq<Seq<u64>>) -> bool {
    forall|i: int, j: int|
        0 <= i < j < circles.len() ==> (#[trigger] circles[i]).len() <= (#[trigger] circles[j]).len()
}

/// The ingredient keys of each of `circles`.
pub open spec fn outlines<V: Clone>(circles: Seq<Circle<V>>) -> Seq<Seq<u64>> {
    circles.map_values(|circle: Circle<V>| circle.ingredient_keys())
}

/// The shape of a tome that holds `circles`.
pub open spec fn shape_of<V: Clone>(circles: Map<u64, Seq<Circle<V>>>) -> Shape {
    circles.map_values(|list: Seq<Circle<V>>| outlines(list))
}

/// The circles that `circles` holds for `key`: none if it does not hold the
/// key.
pub open spec fn listed<V>(circles: Map<u64, Seq<Circle<V>>>, key: u64) -> Seq<Circle<V>> {
    if circles.contains_key(key) {
        circles[key]
    } else {
        Seq::empty()
    }
}

/// Whether every circle of `list` makes `key`.
pub open spec fn all_make<V: Clone>(list: Seq<Circle<V>>, key: u64) -> bool {
    forall|i: int| 0 <= i < list.len() ==> (#[trigger] list[i]).product_key() == key
}

/// The circles after `circle` was inscribed among `circles`: it stands
/// under the key of its product, after the circles that have no more
/// ingredients than it has and before those that have more.
pub open spec fn enrolled<V: Clone>(circles: Map<u64, Seq<Circle<V>>>, circle: Circle<V>) -> Map<
    u64,
    Seq<Circle<V>>,
> {
    let key = circle.product_key();
    let list = listed(circles, key);
    let at = slot(outlines(list), circle.ingredient_keys().len());
    circles.insert(key, list.insert(at as int, circle))
}

/// The slot is the first place whose circle has more ingredients.
pub proof fn lemma_slot(circles: Seq<Seq<u64>>, count: nat, at: nat)
    requires
        at <= circles.len(),
        forall|j: int| 0 <= j < at ==> (#[trigger] circles[j]).len() <= count,
        at == circles.len() || circles[at as int].len() > count,
    ensures
        slot(circles, count) == at,
    decreases circles.len(),
{
    if at > 0 {
        let rest = circles.drop_first();
        assert(circles[0].len() <= count);
        assert forall|j: int| 0 <= j < at - 1 implies (#[trigger] rest[j]).len() <= count by {
            assert(rest[j] == circles[j + 1]);
        }
        lemma_slot(rest, count, (at - 1) as nat);
    }
}

/// What the slot is: the circles before it have no more ingredients than
/// `count`, and the circle at it, if there is one, has more.
pub proof fn lemma_slot_bounds(circles: Seq<Seq<u64>>, count: nat)
    ensures
        slot(circles, count) <= circles.len(),
        forall|j: int| 0 <= j < slot(circles, count) ==> (#[trigger] circles[j]).len() <= count,
        slot(circles, count) < circles.len() ==> circles[slot(circles, count) as int].len() > count,
    decreases circles.len(),
{
    if circles.len() > 0 && circles[0].len() <= count {
        let rest = circles.drop_first();
        lemma_slot_bounds(rest, count);
        assert forall|j: int| 0 <= j < slot(circles, count) implies (#[trigger] circles[j]).len()
            <= count by {
            if j > 0 {
                assert(circles[j] == rest[j - 1]);
            }
        }
        if slot(circles, count) < circles.len() {
            assert(circles[slot(circles, count) as int] == rest[slot(rest, count) as int]);
        }
    }
}

/// Whether each circle stands under the key of its product, and the
/// circles under each key stand fewest ingredients first.
pub open spec fn orderly<V: Clone>(circles: Map<u64, Seq<Circle<V>>>) -> bool {
    forall|key: u64| #[trigger]
        circles.contains_key(key) ==> all_make(circles[key], key) && fewest_first(
            outlines(circles[key]),
        )
}

/// Inscribing a circle keeps the circles orderly.
pub proof fn lemma_enrolled_orderly<V: Clone>(circles: Map<u64, Seq<Circle<V>>>, circle: Circle<V>)
    requires
        orderly(circles),
    ensures
        orderly(enrolled(circles, circle)),
{
    let key = circle.product_key();
    let list = listed(circles, key);
    let count = circle.ingredient_keys().len();
    let at = slot(outlines(list), count) as int;
    let longer = list.insert(at, circle);
    lemma_slot_bounds(outlines(list), count);
    assert(all_make(longer, key)) by {
        assert forall|i: int| 0 <= i < longer.len() implies (#[trigger] longer[i]).product_key()
            == key by {
            if i < at {
                assert(longer[i] == list[i]);
            } else if i > at {
                assert(longer[i] == list[i - 1]);
            }
        }
    }
    assert(fewest_first(outlines(longer))) by {
        let old_lines = outlines(list);
        let lines = outlines(longer);
        assert forall|i: int, j: int| 0 <= i < j < lines.len() implies (#[trigger] lines[i]).len() <= (
        #[trigger] lines[j]).len() by {
            let a = if i < at { i } else { i - 1 };
            let b = if j < at { j } else { j - 1 };
            if i != at {
                assert(lines[i] == old_lines[a]);
            }
            if j != at {
                assert(lines[j] == old_lines[b]);
            }
            if i != at && j != at {
                assert(old_lines[a].len() <= old_lines[b].len());
            }
            if i == at {
                assert(old_lines[at].len() <= old_lines[b].len());
            }
        }
    }
    assert forall|other: u64| #[trigger]
        enrolled(circles, circle).contains_key(other) implies all_make(
        enrolled(circles, circle)[other],
        other,
    ) && fewest_first(outlines(enrolled(circles, circle)[other])) by {
        if other != key {
            assert(circles.contains_key(other));
        }
    }
}

/// This is where all of the circles are inscribed, each under the key of
/// its product, those with the fewest ingredients first.
#[verifier::reject_recursive_types(V)]
pub struct Tome<V: Clone> {
    circles: HashMap<u64, Vec<Circle<V>>>,
}

impl<V: Clone> Tome<V> {
    /// The circles of the tome: for each product key those that make it, in
    /// the order in which a search tries them.
    pub closed spec fn circles(&self) -> Map<u64, Seq<Circle<V>>> {
        self.circles@.map_values(|list: Vec<Circle<V>>| list@)
    }

    /// What a search knows of the tome.
    pub open spec fn shape(&self) -> Shape {
        shape_of(self.circles())
    }

    /// What holds of every tome: each circle stands under the key of its
    /// product, and the circles under each key stand fewest ingredients
    /// first, those with equally many in the order of their inscription.
    #[verifier::type_invariant]
    pub open spec fn well_formed(&self) -> bool {
        orderly(self.circles())
    }

    /// Create an empty tome.
    pub fn new() -> (tome: Self)
        ensures
            tome.circles() == Map::<u64, Seq<Circle<V>>>::empty(),
    {
        let tome = Tome { circles: HashMap::new() };
        assert(tome.circles() == Map::<u64, Seq<Circle<V>>>::empty());
        tome
    }

    /// Puts `circle` among the circles for its product, after those that
    /// have no more ingredients than it has.
    pub fn enroll(&mut self, circle: Circle<V>)
        ensures
            final(self).circles() == enrolled(old(self).circles(), circle),
    {
        proof {
            use_type_invariant(&*self);
        }
        let key = circle.product();
        let count = circle.ingredients().len();
        // The map is taken out of the tome while it changes, and put back whole.
        let mut circles: HashMap<u64, Vec<Circle<V>>> = HashMap::new();
        std::mem::swap(&mut self.circles, &mut circles);
        let ghost before = circles@.map_values(|list: Vec<Circle<V>>| list@);
        let mut product_circles = match circles.remove(&key) {
            Some(list) => list,
            None => Vec::new(),
        };
        let ghost list = product_circles@;
        assert(list == listed(before, key));
        let at = place(&product_circles, count);
        product_circles.insert(at, circle);
        circles.insert(key, product_circles);
        assert(circles@.map_values(|list: Vec<Circle<V>>| list@) == enrolled(before, circle));
        proof {
            lemma_enrolled_orderly(before, circle);
        }
        std::mem::swap(&mut self.circles, &mut circles);
    }

    /// Inscribe a transmutation into the tome.
    pub fn inscribe(&mut self, circle: Box<dyn Transmutation<V>>)
        ensures
            final(self).circles() == enrolled(old(self).circles(), Circle::Inscribed(circle)),
    {
        self.enroll(Circle::Inscribed(circle));
    }

    /// The shape of a tome is tidy.
    pub proof fn lemma_shape_tidy(&self)
        ensures
            tidy(self.shape()),
            self.shape().dom() == self.circles().dom(),
    {
        assert(self.circles@.dom().finite());
        assert(self.shape().dom() =~= self.circles@.dom());
        assert(self.circles().dom() =~= self.circles@.dom());
        assert forall|key: u64| #[trigger] self.shape().dom().contains(key) implies self.shape()[key].len()
            <= usize::MAX by {
            assert(self.shape()[key].len() == self.circles@[key].len());
        }
    }

    /// Finds a recipe for `id`.
    pub fn research(&self, id: u64) -> (found: Option<Recipe>)
        ensures
            steps_of(found) == plan(self.shape(), id),
    {
        let mut busy: HashSet<u64> = HashSet::new();
        self.research_id(id, &mut busy)
    }

    /// Finds a recipe for `id` while the keys of `busy` are being pursued:
    /// the recipe of the first circle for `id` whose ingredients all have
    /// recipes, with that circle as its last step.
    pub fn research_id(&self, id: u64, busy: &mut HashSet<u64>) -> (found: Option<Recipe>)
        ensures
            final(busy)@ == old(busy)@,
            steps_of(found) == search(self.shape(), old(busy)@, id),
        decreases open_keys(self.shape(), old(busy)@).len(), 0nat,
    {
        proof {
            self.lemma_shape_tidy();
        }
        if busy.contains(&id) {
            return None;
        }
        let possibilities = match self.circles.get(&id) {
            Some(list) => list,
            None => {
                return None;
            },
        };
        busy.insert(id);
        proof {
            lemma_pursuit_shrinks(self.shape(), old(busy)@, id);
        }
        let mut found: Option<Recipe> = None;
        let mut choice: usize = 0;
        while choice < possibilities.len() && found.is_none()
            invariant
                choice <= possibilities.len(),
                busy@ == old(busy)@.insert(id),
                open_keys(self.shape(), busy@).len() < open_keys(self.shape(), old(busy)@).len(),
                self.circles().contains_key(id),
                possibilities@ == self.circles()[id],
                match found {
                    Some(recipe) => Some(recipe@) == search_among(self.shape(), busy@, id, 0),
                    None => search_among(self.shape(), busy@, id, choice as nat) == search_among(
                        self.shape(),
                        busy@,
                        id,
                        0,
                    ),
                },
            decreases possibilities.len() - choice,
        {
            let circle = &possibilities[choice];
            assert(circle.ingredient_keys() == self.shape()[id][choice as int]);
            match self.gather(circle.ingredients(), busy) {
                Some(recipe) => {
                    found = Some(recipe.join(Recipe::from(Step { product: id, choice })));
                },
                None => {},
            }
            choice += 1;
        }
        busy.remove(&id);
        assert(busy@ == old(busy)@);
        found
    }

    /// Finds recipes for all of `ingredients` and joins them in order.
    fn gather(&self, ingredients: &[u64], busy: &mut HashSet<u64>) -> (found: Option<Recipe>)
        ensures
            final(busy)@ == old(busy)@,
            steps_of(found) == search_all(
                self.shape(),
                old(busy)@,
                ingredients@,
                0,
                Seq::empty(),
            ),
        decreases open_keys(self.shape(), old(busy)@).len(), 1nat,
    {
        let mut recipe = Recipe::new();
        let mut at: usize = 0;
        while at < ingredients.len()
            invariant
                at <= ingredients.len(),
                busy@ == old(busy)@,
                search_all(self.shape(), busy@, ingredients@, at as nat, recipe@) == search_all(
                    self.shape(),
                    busy@,
                    ingredients@,
                    0,
                    Seq::empty(),
                ),
            decreases ingredients.len() - at,
        {
            match self.research_id(ingredients[at], busy) {
                Some(next) => {
                    recipe = recipe.join(next);
                },
                None => {
                    return None;
                },
            }
            at += 1;
        }
        Some(recipe)
    }

    /// The circles that the steps name, in the order of the steps.
    pub open spec fn lineup<'a>(&'a self, steps: Seq<Step>) -> Seq<&'a Circle<V>> {
        steps.map_values(|step: Step| &self.circles()[step.product][step.choice as int])
    }

    /// Steps that a search found can be performed in order: every circle
    /// finds its ingredients among the products of the circles before it.
    pub proof fn lemma_lineup_performable(&self, steps: Seq<Step>)
        requires
            self.well_formed(),
            sound(self.shape(), steps),
        ensures
            performable(self.lineup(steps)),
            forall|i: int|
                0 <= i < steps.len() ==> (#[trigger] self.lineup(steps)[i]).product_key()
                    == steps[i].product,
    {
        let circles = self.lineup(steps);
        assert forall|i: int| 0 <= i < steps.len() implies (#[trigger] circles[i]).product_key()
            == steps[i].product by {
            assert(names_circle(self.shape(), steps[i]));
            assert(self.circles().contains_key(steps[i].product));
        }
        assert forall|i: int, m: int|
            0 <= i < circles.len() && 0 <= m < circles[i].ingredient_keys().len() implies supplied(
            circles,
            i,
            #[trigger] circles[i].ingredient_keys()[m],
        ) by {
            assert(names_circle(self.shape(), steps[i]));
            assert(circles[i].ingredient_keys() == needs(self.shape(), steps[i]));
            assert(fed(self.shape(), steps, i));
            let key = needs(self.shape(), steps[i])[m];
            assert(makes(steps.take(i), key));
            let j = choose|j: int|
                0 <= j < steps.take(i).len() && (#[trigger] steps.take(i)[j]).product == key;
            assert(steps.take(i)[j] == steps[j]);
            assert(circles[j].product_key() == key);
        }
    }

    /// The circles that the steps of `recipe` name.
    fn circles_of(&self, recipe: &Recipe) -> (circles: Vec<&Circle<V>>)
        requires
            forall|i: int| 0 <= i < recipe@.len() ==> names_circle(self.shape(), #[trigger] recipe@[i]),
        ensures
            circles@ == self.lineup(recipe@),
    {
        let steps = recipe.steps();
        let mut circles: Vec<&Circle<V>> = Vec::new();
        let mut at: usize = 0;
        while at < steps.len()
            invariant
                at <= steps.len(),
                steps@ == recipe@,
                forall|i: int|
                    0 <= i < recipe@.len() ==> names_circle(self.shape(), #[trigger] recipe@[i]),
                circles@ == self.lineup(recipe@.take(at as int)),
            decreases steps.len() - at,
        {
            let step = steps[at];
            assert(names_circle(self.shape(), recipe@[at as int]));
            assert(self.circles().contains_key(step.product));
            let list = self.circles.get(&step.product).unwrap();
            circles.push(&list[step.choice]);
            assert(recipe@.take(at + 1) == recipe@.take(at as int).push(step));
            assert(circles@ == self.lineup(recipe@.take(at + 1)));
            at += 1;
        }
        assert(recipe@.take(at as int) == recipe@);
        circles
    }

    /// Finds a recipe for `id` and performs it: the materials that it
    /// leaves, that of `id` among them.
    pub fn preserve(&self, id: u64) -> (preserved: Option<Materials<V>>)
        ensures
            (match preserved {
                Some(materials) => plan(self.shape(), id) matches Some(steps) && brewed(
                    self.lineup(steps),
                    materials@,
                ) && materials@.contains_key(id),
                None => plan(self.shape(), id).is_none(),
            }),
    {
        proof {
            use_type_invariant(self);
            self.lemma_shape_tidy();
            lemma_search_sound(self.shape(), Set::empty(), id);
        }
        let recipe = match self.research(id) {
            Some(recipe) => recipe,
            None => {
                return None;
            },
        };
        proof {
            self.lemma_lineup_performable(recipe@);
        }
        let circles = self.circles_of(&recipe);
        let materials = Materials::from_iter(&circles);
        assert(materials@.contains_key(id)) by {
            let last = recipe@.len() - 1;
            assert(circles@[last].product_key() == recipe@[last].product);
        }
        Some(materials)
    }

    /// Give me what I want: the material under `id`, made by the recipe for
    /// it, if there is one.
    pub fn summon(&self, id: u64) -> (summoned: Option<V>)
        ensures
            (match summoned {
                Some(material) => plan(self.shape(), id) matches Some(steps) && exists|
                    store: Map<u64, V>,
                |
                    #[trigger] brewed(self.lineup(steps), store) && store.contains_key(id)
                        && store[id] == material,
                None => plan(self.shape(), id).is_none(),
            }),
    {
        match self.preserve(id) {
            Some(materials) => Some(materials.into_material(id)),
            None => None,
        }
    }

    /// Note that `item` is there under `key`, out of the ether.
    pub fn ether(&mut self, key: u64, item: V)
        ensures
            final(self).circles() == enrolled(old(self).circles(), fact(key, item)),
    {
        self.enroll(Circle::Ether(Ether { key, item }));
    }
}

impl<V: Clone> Default for Tome<V> {
    /// An empty tome.
    fn default() -> (tome: Self)
        ensures
            tome.circles() == Map::<u64, Seq<Circle<V>>>::empty(),
    {
        Tome::new()
    }
}

/// The place among `list` where a circle with `count` ingredients goes.
fn place<V: Clone>(list: &Vec<Circle<V>>, count: usize) -> (at: usize)
    ensures
        at == slot(outlines(list@), count as nat),
        at <= list.len(),
{
    let mut at: usize = 0;
    while at < list.len()
        invariant
            at <= list.len(),
            forall|j: int| 0 <= j < at ==> (#[trigger] outlines(list@)[j]).len() <= count,
        decreases list.len() - at,
    {
        if list[at].ingredients().len() > count {
            proof {
                lemma_slot(outlines(list@), count as nat, at as nat);
            }
            return at;
        }
        at += 1;
    }
    proof {
        lemma_slot(outlines(list@), count as nat, at as nat);
    }
    at
}

} // verus!
