//! What holds of every tome and of every recipe that a search finds.

use crate::circle::{fact, Circle, Transmutation};
use crate::materials::{brewed, gathered, lemma_brewed_respects, performs, unrepeated};
use crate::plan::{
    distinct, fed, join, lemma_join_single, lemma_pursuit_shrinks, lemma_search_all_sound,
    lemma_search_sound, makes, names_circle, needs, open_keys, plan, search, search_all,
    search_among, tidy, Shape, Step,
};
use crate::tome::{
    enrolled, fewest_first, lemma_slot_bounds, listed, orderly, outlines, slot, Tome,
};
use vstd::prelude::*;

verus! {

/// Whether every one of the keys `wanted` has a recipe while the keys of
/// `busy` are being pursued.
pub open spec fn feasible(shape: Shape, busy: Set<u64>, wanted: Seq<u64>) -> bool {
    forall|m: int| 0 <= m < wanted.len() ==> search(shape, busy, #[trigger] wanted[m]).is_some()
}

/// The recipes of a list of ingredients can be joined exactly if each
/// ingredient has a recipe.
pub proof fn lemma_search_all_feasible(
    shape: Shape,
    busy: Set<u64>,
    wanted: Seq<u64>,
    from: nat,
    so_far: Seq<Step>,
)
    ensures
        search_all(shape, busy, wanted, from, so_far).is_some() <==> forall|m: int|
            from <= m < wanted.len() ==> search(shape, busy, #[trigger] wanted[m]).is_some(),
    decreases wanted.len() - from,
{
    if from < wanted.len() {
        match search(shape, busy, wanted[from as int]) {
            Some(steps) => {
                lemma_search_all_feasible(shape, busy, wanted, from + 1, join(so_far, steps));
            },
            None => {},
        }
    }
}

/// What a search for the circles of one goal finds is the first circle, at
/// or after the place where it starts, whose ingredients all have recipes.
pub proof fn lemma_search_among_first(shape: Shape, busy: Set<u64>, goal: u64, from: nat)
    requires
        tidy(shape),
        shape.dom().contains(goal),
        busy.contains(goal),
    ensures
        (match search_among(shape, busy, goal, from) {
            Some(steps) => {
                &&& steps.len() > 0
                &&& from <= steps.last().choice < shape[goal].len()
                &&& feasible(shape, busy, shape[goal][steps.last().choice as int])
                &&& forall|c: int|
                    from <= c < steps.last().choice ==> !feasible(shape, busy, #[trigger] shape[goal][c])
            },
            None => forall|c: int|
                from <= c < shape[goal].len() ==> !feasible(shape, busy, #[trigger] shape[goal][c]),
        }),
    decreases shape[goal].len() - from,
{
    if from < shape[goal].len() {
        let wanted = shape[goal][from as int];
        lemma_search_all_feasible(shape, busy, wanted, 0, Seq::empty());
        match search_all(shape, busy, wanted, 0, Seq::empty()) {
            Some(found) => {
                lemma_join_single(found, Step { product: goal, choice: from as usize });
                lemma_search_all_sound(shape, busy, wanted, 0, Seq::empty());
            },
            None => {
                lemma_search_among_first(shape, busy, goal, from + 1);
            },
        }
    }
}

/// Tomes that hold the same circles have the same recipe for every goal: a
/// recipe is a function of the circles and the goal, and of nothing else.
pub proof fn law_same_circles_same_recipe<V: Clone>(first: Tome<V>, second: Tome<V>, goal: u64)
    requires
        first.circles() == second.circles(),
    ensures
        plan(first.shape(), goal) == plan(second.shape(), goal),
{
}

/// In the recipe for a goal every step names a circle of the tome, no
/// product is made twice, every ingredient of a step is made by a step
/// before it, and the last step makes the goal. Performing the steps in
/// order, no circle looks for an ingredient that is not there.
pub proof fn law_recipe_is_sound(shape: Shape, goal: u64)
    requires
        tidy(shape),
    ensures
        plan(shape, goal) matches Some(steps) ==> ({
            &&& forall|i: int| 0 <= i < steps.len() ==> names_circle(shape, #[trigger] steps[i])
            &&& forall|i: int, j: int|
                0 <= i < j < steps.len() ==> (#[trigger] steps[i]).product != (
                #[trigger] steps[j]).product
            &&& forall|i: int, m: int|
                0 <= i < steps.len() && 0 <= m < needs(shape, steps[i]).len() ==> makes(
                    steps.take(i),
                    #[trigger] needs(shape, steps[i])[m],
                )
            &&& steps.len() > 0
            &&& steps.last().product == goal
        }),
{
    lemma_search_sound(shape, Set::empty(), goal);
    if let Some(steps) = plan(shape, goal) {
        assert forall|i: int, m: int|
            0 <= i < steps.len() && 0 <= m < needs(shape, steps[i]).len() implies makes(
            steps.take(i),
            #[trigger] needs(shape, steps[i])[m],
        ) by {
            assert(fed(shape, steps, i));
        }
    }
}

/// The circle that a recipe performs for its goal is the first one in the
/// tome's order whose ingredients all have recipes. Where the circles for
/// the goal stand fewest ingredients first, as they do in a tome, no circle
/// whose ingredients all have recipes has fewer ingredients than it.
pub proof fn law_fewest_ingredients_first(shape: Shape, goal: u64)
    requires
        tidy(shape),
    ensures
        plan(shape, goal) matches Some(steps) ==> ({
            let chosen = steps.last().choice as int;
            &&& 0 <= chosen < shape[goal].len()
            &&& feasible(shape, set![goal], shape[goal][chosen])
            &&& forall|c: int| 0 <= c < chosen ==> !feasible(shape, set![goal], #[trigger] shape[goal][c])
            &&& fewest_first(shape[goal]) ==> forall|c: int|
                0 <= c < shape[goal].len() && feasible(shape, set![goal], #[trigger] shape[goal][c])
                    ==> shape[goal][chosen].len() <= shape[goal][c].len()
        }),
{
    if shape.dom().contains(goal) {
        assert(Set::<u64>::empty().insert(goal) == set![goal]);
        lemma_search_among_first(shape, set![goal], goal, 0);
    }
}

/// Of the circles that a tome holds for a goal and whose ingredients all
/// have recipes, the recipe for the goal performs one with the fewest
/// ingredients, and among those with the fewest the one inscribed first.
pub proof fn law_tome_prefers_fewest<V: Clone>(tome: Tome<V>, goal: u64)
    requires
        tome.well_formed(),
    ensures
        plan(tome.shape(), goal) matches Some(steps) ==> ({
            let circles = tome.shape()[goal];
            let chosen = steps.last().choice as int;
            &&& 0 <= chosen < circles.len()
            &&& feasible(tome.shape(), set![goal], circles[chosen])
            &&& forall|c: int|
                0 <= c < circles.len() && feasible(tome.shape(), set![goal], #[trigger] circles[c])
                    ==> circles[chosen].len() <= circles[c].len() && (circles[chosen].len()
                    == circles[c].len() ==> chosen <= c)
        }),
{
    tome.lemma_shape_tidy();
    law_fewest_ingredients_first(tome.shape(), goal);
    if tome.shape().dom().contains(goal) {
        assert(tome.circles().contains_key(goal));
        assert(fewest_first(tome.shape()[goal]));
    }
}

/// A goal has a recipe exactly if the tome holds a circle for it whose
/// ingredients all have recipes that do not pursue the goal again. So a
/// goal for which no circle is inscribed has none.
pub proof fn law_recipe_exists(shape: Shape, goal: u64)
    requires
        tidy(shape),
    ensures
        plan(shape, goal).is_some() <==> shape.dom().contains(goal) && exists|c: int|
            0 <= c < shape[goal].len() && feasible(shape, set![goal], #[trigger] shape[goal][c]),
        !shape.dom().contains(goal) ==> plan(shape, goal).is_none(),
{
    if shape.dom().contains(goal) {
        assert(Set::<u64>::empty().insert(goal) == set![goal]);
        lemma_search_among_first(shape, set![goal], goal, 0);
        if let Some(steps) = plan(shape, goal) {
            let chosen = steps.last().choice as int;
            assert(feasible(shape, set![goal], shape[goal][chosen]));
        }
    }
}

/// Once `item` is noted under `key` in a tome where no circle without
/// ingredients stood first under `key` (in a tome, whose circles stand
/// fewest ingredients first: where none stood under `key` at all), the
/// recipe for `key` is the one step that takes the item out of the ether,
/// and what performing it leaves under `key` is a clone of `item`. An item
/// noted behind another one under the same key is never summoned.
pub proof fn law_fact_shortcut<V: Clone>(before: Tome<V>, after: Tome<V>, key: u64, item: V)
    requires
        after.circles() == enrolled(before.circles(), fact(key, item)),
        slot(outlines(listed(before.circles(), key)), 0) == 0,
    ensures
        plan(after.shape(), key) == Some(seq![(Step { product: key, choice: 0 })]),
        forall|store: Map<u64, V>| #[trigger]
            brewed(after.lineup(seq![(Step { product: key, choice: 0 })]), store)
                ==> store.contains_key(key) && cloned(item, store[key]),
{
    let shape = after.shape();
    let step = Step { product: key, choice: 0 };
    let noted = fact(key, item);
    after.lemma_shape_tidy();
    assert(after.circles()[key][0] == noted);
    assert(shape[key][0] == Seq::<u64>::empty());
    assert(search_all(shape, set![key], shape[key][0], 0, Seq::empty()) == Some(
        Seq::<Step>::empty(),
    ));
    lemma_join_single(Seq::empty(), step);
    assert(Seq::<Step>::empty().push(step) == seq![step]);
    assert(Set::<u64>::empty().insert(key) == set![key]);
    assert(search_among(shape, set![key], key, 0) == Some(seq![step]));
    assert forall|store: Map<u64, V>| #[trigger]
        brewed(after.lineup(seq![step]), store) implies store.contains_key(key) && cloned(
        item,
        store[key],
    ) by {
        let circles = after.lineup(seq![step]);
        assert(circles.len() == 1);
        assert(*circles.last() == noted);
        let earlier = choose|earlier: Map<u64, V>|
            brewed(circles.drop_last(), earlier) && #[trigger] performs(
                circles.last(),
                earlier,
                store,
            );
        assert(performs(circles.last(), earlier, store));
    }
}

/// In the store that performing a recipe leaves, every product stands as
/// its circle made it from the ingredients in that same store. A product
/// that several circles of the recipe need is therefore made once, by one
/// step, and all of them take that one value.
pub proof fn law_one_product_for_all<V: Clone>(
    tome: Tome<V>,
    goal: u64,
    steps: Seq<Step>,
    store: Map<u64, V>,
)
    requires
        tome.well_formed(),
        plan(tome.shape(), goal) == Some(steps),
        brewed(tome.lineup(steps), store),
    ensures
        distinct(steps),
        forall|i: int|
            0 <= i < steps.len() ==> store.contains_key((#[trigger] steps[i]).product)
                && tome.lineup(steps)[i].transmutes(
                gathered(store, needs(tome.shape(), steps[i])),
                store[steps[i].product],
            ),
{
    let circles = tome.lineup(steps);
    tome.lemma_shape_tidy();
    lemma_search_sound(tome.shape(), Set::empty(), goal);
    tome.lemma_lineup_performable(steps);
    assert(unrepeated(circles)) by {
        assert forall|i: int, j: int| 0 <= i < j < circles.len() implies (
        #[trigger] circles[i]).product_key() != (#[trigger] circles[j]).product_key() by {
            assert(steps[i].product != steps[j].product);
        }
    }
    lemma_brewed_respects(circles, store);
    assert forall|i: int| 0 <= i < steps.len() implies store.contains_key(
        (#[trigger] steps[i]).product,
    ) && circles[i].transmutes(
        gathered(store, needs(tome.shape(), steps[i])),
        store[steps[i].product],
    ) by {
        assert(circles[i].product_key() == steps[i].product);
        assert(names_circle(tome.shape(), steps[i]));
        assert(circles[i].ingredient_keys() == needs(tome.shape(), steps[i]));
    }
}

/// Whether `goal` can be made in at most `rounds` rounds of circles, none
/// of which makes a key of `avoid`: some circle makes it, and each of that
/// circle's ingredients can be made in one round less.
pub open spec fn derivable(shape: Shape, avoid: Set<u64>, goal: u64, rounds: nat) -> bool
    decreases rounds, 0nat,
{
    &&& rounds > 0
    &&& shape.dom().contains(goal)
    &&& !avoid.contains(goal)
    &&& exists|c: int|
        0 <= c < shape[goal].len() && all_derivable(
            shape,
            avoid,
            #[trigger] shape[goal][c],
            (rounds - 1) as nat,
        )
}

/// Whether each of the keys `wanted` can be made in at most `rounds` rounds
/// of circles, none of which makes a key of `avoid`.
pub open spec fn all_derivable(shape: Shape, avoid: Set<u64>, wanted: Seq<u64>, rounds: nat) -> bool
    decreases rounds, 1nat,
{
    forall|m: int| 0 <= m < wanted.len() ==> derivable(shape, avoid, #[trigger] wanted[m], rounds)
}

/// What can be made in some rounds can be made in more rounds.
pub proof fn lemma_derivable_in_more_rounds(
    shape: Shape,
    avoid: Set<u64>,
    goal: u64,
    rounds: nat,
    more: nat,
)
    requires
        derivable(shape, avoid, goal, rounds),
        rounds <= more,
    ensures
        derivable(shape, avoid, goal, more),
    decreases rounds,
{
    let c = choose|c: int|
        0 <= c < shape[goal].len() && all_derivable(
            shape,
            avoid,
            #[trigger] shape[goal][c],
            (rounds - 1) as nat,
        );
    let wanted = shape[goal][c];
    assert forall|m: int| 0 <= m < wanted.len() implies derivable(
        shape,
        avoid,
        #[trigger] wanted[m],
        (more - 1) as nat,
    ) by {
        lemma_derivable_in_more_rounds(
            shape,
            avoid,
            wanted[m],
            (rounds - 1) as nat,
            (more - 1) as nat,
        );
    }
    assert(all_derivable(shape, avoid, shape[goal][c], (more - 1) as nat));
}

/// What can be made while avoiding some keys can be made while avoiding
/// fewer.
pub proof fn lemma_derivable_avoiding_fewer(
    shape: Shape,
    avoid: Set<u64>,
    fewer: Set<u64>,
    goal: u64,
    rounds: nat,
)
    requires
        derivable(shape, avoid, goal, rounds),
        fewer.subset_of(avoid),
    ensures
        derivable(shape, fewer, goal, rounds),
    decreases rounds,
{
    let c = choose|c: int|
        0 <= c < shape[goal].len() && all_derivable(
            shape,
            avoid,
            #[trigger] shape[goal][c],
            (rounds - 1) as nat,
        );
    let wanted = shape[goal][c];
    assert forall|m: int| 0 <= m < wanted.len() implies derivable(
        shape,
        fewer,
        #[trigger] wanted[m],
        (rounds - 1) as nat,
    ) by {
        lemma_derivable_avoiding_fewer(shape, avoid, fewer, wanted[m], (rounds - 1) as nat);
    }
    assert(all_derivable(shape, fewer, shape[goal][c], (rounds - 1) as nat));
}

/// What can be made, but not while avoiding `key` too, needs `key` on the
/// way: `key` can be made in no more rounds.
pub proof fn lemma_derivable_through(
    shape: Shape,
    avoid: Set<u64>,
    key: u64,
    goal: u64,
    rounds: nat,
)
    requires
        derivable(shape, avoid, goal, rounds),
        !derivable(shape, avoid.insert(key), goal, rounds),
    ensures
        derivable(shape, avoid, key, rounds),
    decreases rounds,
{
    if goal != key {
        let c = choose|c: int|
            0 <= c < shape[goal].len() && all_derivable(
                shape,
                avoid,
                #[trigger] shape[goal][c],
                (rounds - 1) as nat,
            );
        let wanted = shape[goal][c];
        if all_derivable(shape, avoid.insert(key), wanted, (rounds - 1) as nat) {
            assert(derivable(shape, avoid.insert(key), goal, rounds));
        } else {
            let m = choose|m: int|
                0 <= m < wanted.len() && !derivable(
                    shape,
                    avoid.insert(key),
                    #[trigger] wanted[m],
                    (rounds - 1) as nat,
                );
            lemma_derivable_through(shape, avoid, key, wanted[m], (rounds - 1) as nat);
            lemma_derivable_in_more_rounds(shape, avoid, key, (rounds - 1) as nat, rounds);
        }
    }
}

/// A goal that has a recipe can be made: in as many rounds as there are
/// keys that the search may still pursue.
pub proof fn lemma_found_is_derivable(shape: Shape, busy: Set<u64>, goal: u64)
    requires
        tidy(shape),
        search(shape, busy, goal).is_some(),
    ensures
        derivable(shape, busy, goal, open_keys(shape, busy).len()),
    decreases open_keys(shape, busy).len(),
{
    let pursued = busy.insert(goal);
    lemma_pursuit_shrinks(shape, busy, goal);
    lemma_search_among_first(shape, pursued, goal, 0);
    let steps = search(shape, busy, goal).unwrap();
    let c = steps.last().choice as int;
    let wanted = shape[goal][c];
    let rounds = open_keys(shape, busy).len();
    assert forall|m: int| 0 <= m < wanted.len() implies derivable(
        shape,
        busy,
        #[trigger] wanted[m],
        (rounds - 1) as nat,
    ) by {
        lemma_found_is_derivable(shape, pursued, wanted[m]);
        lemma_derivable_in_more_rounds(
            shape,
            pursued,
            wanted[m],
            open_keys(shape, pursued).len(),
            (rounds - 1) as nat,
        );
        lemma_derivable_avoiding_fewer(shape, pursued, busy, wanted[m], (rounds - 1) as nat);
    }
    assert(all_derivable(shape, busy, shape[goal][c], (rounds - 1) as nat));
}

/// A goal that can be made has a recipe: that a search takes the first
/// circle that works, and never comes back to a goal, loses nothing.
pub proof fn lemma_derivable_is_found(shape: Shape, busy: Set<u64>, goal: u64, rounds: nat)
    requires
        tidy(shape),
        derivable(shape, busy, goal, rounds),
    ensures
        search(shape, busy, goal).is_some(),
    decreases open_keys(shape, busy).len(), rounds,
{
    let pursued = busy.insert(goal);
    lemma_pursuit_shrinks(shape, busy, goal);
    let c = choose|c: int|
        0 <= c < shape[goal].len() && all_derivable(
            shape,
            busy,
            #[trigger] shape[goal][c],
            (rounds - 1) as nat,
        );
    let wanted = shape[goal][c];
    if all_derivable(shape, pursued, wanted, (rounds - 1) as nat) {
        assert forall|m: int| 0 <= m < wanted.len() implies search(
            shape,
            pursued,
            #[trigger] wanted[m],
        ).is_some() by {
            lemma_derivable_is_found(shape, pursued, wanted[m], (rounds - 1) as nat);
        }
        assert(feasible(shape, pursued, shape[goal][c]));
        lemma_search_among_first(shape, pursued, goal, 0);
    } else {
        let m = choose|m: int|
            0 <= m < wanted.len() && !derivable(
                shape,
                pursued,
                #[trigger] wanted[m],
                (rounds - 1) as nat,
            );
        lemma_derivable_through(shape, busy, goal, wanted[m], (rounds - 1) as nat);
        lemma_derivable_is_found(shape, busy, goal, (rounds - 1) as nat);
    }
}

/// A goal has a recipe exactly if it can be made at all, that is if some
/// chain of circles of the tome leads from circles without ingredients to
/// the goal. A request comes back empty exactly if there is no such chain.
pub proof fn law_recipe_iff_derivable(shape: Shape, goal: u64)
    requires
        tidy(shape),
    ensures
        plan(shape, goal).is_some() <==> exists|rounds: nat|
            derivable(shape, Set::empty(), goal, rounds),
{
    if plan(shape, goal).is_some() {
        lemma_found_is_derivable(shape, Set::empty(), goal);
    }
    if exists|rounds: nat| derivable(shape, Set::empty(), goal, rounds) {
        let rounds = choose|rounds: nat| derivable(shape, Set::empty(), goal, rounds);
        lemma_derivable_is_found(shape, Set::empty(), goal, rounds);
    }
}

/// A circle is inscribed behind the circles that have no more ingredients
/// than it has, also behind those that have as many, and before those that
/// have more; the circles that were there keep their order.
pub proof fn law_inscribed_in_order<V: Clone>(circles: Map<u64, Seq<Circle<V>>>, circle: Circle<V>)
    requires
        orderly(circles),
    ensures
        orderly(enrolled(circles, circle)),
        forall|key: u64|
            key != circle.product_key() ==> #[trigger] listed(enrolled(circles, circle), key)
                == listed(circles, key),
        ({
            let before = listed(circles, circle.product_key());
            let after = listed(enrolled(circles, circle), circle.product_key());
            let count = circle.ingredient_keys().len();
            let at = slot(outlines(before), count) as int;
            &&& after.len() == before.len() + 1
            &&& 0 <= at <= before.len()
            &&& after[at] == circle
            &&& forall|i: int|
                0 <= i < at ==> #[trigger] after[i] == before[i] && before[i].ingredient_keys().len()
                    <= count
            &&& forall|i: int|
                at <= i < before.len() ==> #[trigger] after[i + 1] == before[i]
                    && before[i].ingredient_keys().len() > count
        }),
{
    let before = listed(circles, circle.product_key());
    let count = circle.ingredient_keys().len();
    let at = slot(outlines(before), count) as int;
    crate::tome::lemma_enrolled_orderly(circles, circle);
    lemma_slot_bounds(outlines(before), count);
    let after = listed(enrolled(circles, circle), circle.product_key());
    assert(after == before.insert(at, circle));
    assert forall|i: int| 0 <= i < at implies #[trigger] after[i] == before[i]
        && before[i].ingredient_keys().len() <= count by {
        assert(outlines(before)[i].len() <= count);
    }
    assert forall|i: int| at <= i < before.len() implies #[trigger] after[i + 1] == before[i]
        && before[i].ingredient_keys().len() > count by {
        assert(outlines(before)[at].len() > count);
        assert(fewest_first(outlines(before)));
        if at < i {
            assert(outlines(before)[at].len() <= outlines(before)[i].len());
        }
    }
}

} // verus!
