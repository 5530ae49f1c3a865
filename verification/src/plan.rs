//! The search for a recipe, as mathematics: what a tome looks like to the
//! search, which steps the search finds for a goal, and why those steps can
//! be performed in order.

use vstd::prelude::*;

verus! {

/// What a search knows of a tome: for each product key the circles that make
/// it, in the tome's order, each given by the keys of its ingredients.
pub type Shape = Map<u64, Seq<Seq<u64>>>;

/// One step of a recipe: perform the circle that the tome holds for
/// `product` at place `choice`.
#[derive(Clone, Copy, Debug, PartialEq, Eq, Structural)]
pub struct Step {
    pub product: u64,
    pub choice: usize,
}

/// Whether one of the steps makes `key`.
pub open spec fn makes(steps: Seq<Step>, key: u64) -> bool {
    exists|i: int| 0 <= i < steps.len() && (#[trigger] steps[i]).product == key
}

/// The steps of `base`, followed by those steps of `more` whose product no
/// earlier step makes, in their order.
pub open spec fn join(base: Seq<Step>, more: Seq<Step>) -> Seq<Step>
    decreases more.len(),
{
    if more.len() == 0 {
        base
    } else {
        let joined = join(base, more.drop_last());
        if makes(joined, more.last().product) {
            joined
        } else {
            joined.push(more.last())
        }
    }
}

/// The keys that a search may still pursue: those that the tome makes and
/// that are not being pursued already.
pub open spec fn open_keys(shape: Shape, busy: Set<u64>) -> Set<u64> {
    shape.dom().difference(busy)
}

/// The recipe for `goal`, if there is one, while the goals in `busy` are
/// being pursued further up.
///
/// A goal that nothing makes has no recipe, and a goal that is itself being
/// pursued further up has none here: a recipe never runs in a circle.
pub open spec fn search(shape: Shape, busy: Set<u64>, goal: u64) -> Option<Seq<Step>>
    decreases open_keys(shape, busy).len(), 0nat, 0nat,
{
    if shape.dom().finite() && shape.dom().contains(goal) && !busy.contains(goal) {
        proof {
            lemma_pursuit_shrinks(shape, busy, goal);
        }
        search_among(shape, busy.insert(goal), goal, 0)
    } else {
        None
    }
}

/// The recipe that the first circle for `goal` at or after place `from`
/// gives whose ingredients all have recipes: theirs joined in order, and
/// the circle itself at the end.
pub open spec fn search_among(shape: Shape, busy: Set<u64>, goal: u64, from: nat) -> Option<
    Seq<Step>,
>
    decreases open_keys(shape, busy).len(), 2nat, shape[goal].len() - from,
{
    if from >= shape[goal].len() {
        None
    } else {
        match search_all(shape, busy, shape[goal][from as int], 0, Seq::empty()) {
            Some(steps) => Some(join(steps, seq![Step { product: goal, choice: from as usize }])),
            None => search_among(shape, busy, goal, from + 1),
        }
    }
}

/// `so_far` joined with the recipes of the keys of `wanted` from place
/// `from` on, if each of them has one.
pub open spec fn search_all(
    shape: Shape,
    busy: Set<u64>,
    wanted: Seq<u64>,
    from: nat,
    so_far: Seq<Step>,
) -> Option<Seq<Step>>
    decreases open_keys(shape, busy).len(), 1nat, wanted.len() - from,
{
    if from >= wanted.len() {
        Some(so_far)
    } else {
        match search(shape, busy, wanted[from as int]) {
            Some(steps) => search_all(shape, busy, wanted, from + 1, join(so_far, steps)),
            None => None,
        }
    }
}

/// The recipe for `goal`, if there is one.
pub open spec fn plan(shape: Shape, goal: u64) -> Option<Seq<Step>> {
    search(shape, Set::empty(), goal)
}

/// Pursuing a goal leaves fewer keys open.
pub proof fn lemma_pursuit_shrinks(shape: Shape, busy: Set<u64>, goal: u64)
    requires
        shape.dom().finite(),
        shape.dom().contains(goal),
        !busy.contains(goal),
    ensures
        open_keys(shape, busy.insert(goal)).len() < open_keys(shape, busy).len(),
{
    assert(open_keys(shape, busy.insert(goal)) =~= open_keys(shape, busy).remove(goal));
}

/// The keys of the ingredients of the circle that `step` names.
pub open spec fn needs(shape: Shape, step: Step) -> Seq<u64> {
    shape[step.product][step.choice as int]
}

/// Whether `step` names a circle of the tome.
pub open spec fn names_circle(shape: Shape, step: Step) -> bool {
    shape.dom().contains(step.product) && (step.choice as int) < shape[step.product].len()
}

/// Whether no two steps make the same product.
pub open spec fn distinct(steps: Seq<Step>) -> bool {
    forall|i: int, j: int|
        0 <= i < j < steps.len() ==> (#[trigger] steps[i]).product != (#[trigger] steps[j]).product
}

/// Whether the steps before step `at` make every ingredient that it needs.
pub open spec fn fed(shape: Shape, steps: Seq<Step>, at: int) -> bool {
    forall|m: int|
        0 <= m < needs(shape, steps[at]).len() ==> makes(
            steps.take(at),
            #[trigger] needs(shape, steps[at])[m],
        )
}

/// Whether the steps can be performed in order on an empty store: each names
/// a circle of the tome, no product is made twice, and every ingredient is
/// made before it is needed.
pub open spec fn sound(shape: Shape, steps: Seq<Step>) -> bool {
    &&& forall|i: int| 0 <= i < steps.len() ==> names_circle(shape, #[trigger] steps[i])
    &&& distinct(steps)
    &&& forall|i: int| 0 <= i < steps.len() ==> #[trigger] fed(shape, steps, i)
}

/// Whether none of the steps makes a key of `busy`.
pub open spec fn avoids(steps: Seq<Step>, busy: Set<u64>) -> bool {
    forall|i: int| 0 <= i < steps.len() ==> !busy.contains((#[trigger] steps[i]).product)
}

/// Whether `steps` begins with `base`.
pub open spec fn begins_with(steps: Seq<Step>, base: Seq<Step>) -> bool {
    base.len() <= steps.len() && steps.take(base.len() as int) == base
}

/// A shape that a tome can have: finitely many keys, and no more circles for
/// a key than can be counted.
pub open spec fn tidy(shape: Shape) -> bool {
    &&& shape.dom().finite()
    &&& forall|key: u64| #[trigger] shape.dom().contains(key) ==> shape[key].len() <= usize::MAX
}

/// What the beginning of a list makes, the list makes.
pub proof fn lemma_makes_of_beginning(steps: Seq<Step>, base: Seq<Step>, key: u64)
    requires
        begins_with(steps, base),
        makes(base, key),
    ensures
        makes(steps, key),
{
    let i = choose|i: int| 0 <= i < base.len() && (#[trigger] base[i]).product == key;
    assert(steps.take(base.len() as int)[i] == steps[i]);
}

/// A join begins with its base, makes what either part makes, and takes
/// each of its steps from one of the parts.
pub proof fn lemma_join(base: Seq<Step>, more: Seq<Step>)
    ensures
        begins_with(join(base, more), base),
        forall|key: u64| makes(join(base, more), key) <==> makes(base, key) || makes(more, key),
        forall|i: int|
            0 <= i < join(base, more).len() ==> base.contains(#[trigger] join(base, more)[i])
                || more.contains(join(base, more)[i]),
        distinct(base) ==> distinct(join(base, more)),
    decreases more.len(),
{
    let whole = join(base, more);
    if more.len() == 0 {
        assert(whole.take(base.len() as int) == base);
        assert forall|i: int| 0 <= i < whole.len() implies base.contains(#[trigger] whole[i]) by {
            assert(base[i] == whole[i]);
        }
    } else {
        let front = more.drop_last();
        let last = more.last();
        let joined = join(base, front);
        lemma_join(base, front);
        assert(whole.take(base.len() as int) == joined.take(base.len() as int));
        assert forall|key: u64| makes(whole, key) <==> makes(base, key) || makes(more, key) by {
            if makes(more, key) {
                let i = choose|i: int| 0 <= i < more.len() && (#[trigger] more[i]).product == key;
                if i < front.len() {
                    assert(front[i].product == key);
                } else {
                    assert(last.product == key);
                }
            }
            if makes(front, key) {
                let i = choose|i: int| 0 <= i < front.len() && (#[trigger] front[i]).product == key;
                assert(more[i].product == key);
            }
            if makes(joined, key) {
                let i = choose|i: int|
                    0 <= i < joined.len() && (#[trigger] joined[i]).product == key;
                assert(whole[i].product == key);
            }
            if makes(whole, key) && !makes(joined, key) {
                let i = choose|i: int| 0 <= i < whole.len() && (#[trigger] whole[i]).product == key;
                if i < joined.len() {
                    assert(joined[i].product == key);
                }
                assert(more[more.len() - 1].product == key);
            }
            if key == last.product && !makes(joined, key) {
                assert(whole[joined.len() as int].product == key);
            }
        }
        assert forall|i: int| 0 <= i < whole.len() implies base.contains(#[trigger] whole[i])
            || more.contains(whole[i]) by {
            if i < joined.len() {
                assert(whole[i] == joined[i]);
                if front.contains(joined[i]) {
                    let q = choose|q: int| 0 <= q < front.len() && front[q] == joined[i];
                    assert(more[q] == joined[i]);
                }
            } else {
                assert(more[more.len() - 1] == whole[i]);
            }
        }
        if distinct(base) {
            assert forall|i: int, j: int| 0 <= i < j < whole.len() implies (#[trigger] whole[i]).product
                != (#[trigger] whole[j]).product by {
                if j < joined.len() {
                    assert(whole[i] == joined[i] && whole[j] == joined[j]);
                } else {
                    assert(joined[i].product != last.product);
                }
            }
        }
    }
}

/// Joining sound lists gives a sound list.
pub proof fn lemma_join_sound(shape: Shape, base: Seq<Step>, more: Seq<Step>)
    requires
        sound(shape, base),
        sound(shape, more),
    ensures
        sound(shape, join(base, more)),
    decreases more.len(),
{
    let whole = join(base, more);
    lemma_join(base, more);
    if more.len() > 0 {
        let front = more.drop_last();
        let last = more.last();
        let joined = join(base, front);
        assert(sound(shape, front)) by {
            assert forall|i: int| 0 <= i < front.len() implies #[trigger] fed(shape, front, i) by {
                assert(fed(shape, more, i));
                assert(front.take(i) == more.take(i));
                assert(front[i] == more[i]);
            }
            assert forall|i: int| 0 <= i < front.len() implies names_circle(
                shape,
                #[trigger] front[i],
            ) by {
                assert(front[i] == more[i]);
            }
            assert forall|i: int, j: int| 0 <= i < j < front.len() implies (#[trigger] front[i]).product
                != (#[trigger] front[j]).product by {
                assert(front[i] == more[i] && front[j] == more[j]);
            }
        }
        lemma_join_sound(shape, base, front);
        lemma_join(base, front);
        if !makes(joined, last.product) {
            assert forall|i: int| 0 <= i < whole.len() implies #[trigger] fed(shape, whole, i) by {
                if i < joined.len() {
                    assert(fed(shape, joined, i));
                    assert(whole.take(i) == joined.take(i));
                    assert(whole[i] == joined[i]);
                } else {
                    assert(whole.take(i) == joined);
                    assert(fed(shape, more, more.len() - 1));
                    assert(more.take(more.len() - 1) == front);
                }
            }
            assert forall|i: int| 0 <= i < whole.len() implies names_circle(
                shape,
                #[trigger] whole[i],
            ) by {
                if i < joined.len() {
                    assert(whole[i] == joined[i]);
                } else {
                    assert(whole[i] == more[more.len() - 1]);
                }
            }
        }
    }
}

/// A recipe that a search finds can be performed in order, makes no key
/// that is being pursued further up, and ends with a circle for the goal.
pub proof fn lemma_search_sound(shape: Shape, busy: Set<u64>, goal: u64)
    requires
        tidy(shape),
    ensures
        search(shape, busy, goal) matches Some(steps) ==> ({
            &&& sound(shape, steps)
            &&& avoids(steps, busy)
            &&& steps.len() > 0
            &&& steps.last().product == goal
        }),
    decreases open_keys(shape, busy).len(), 0nat, 0nat,
{
    if shape.dom().contains(goal) && !busy.contains(goal) {
        lemma_pursuit_shrinks(shape, busy, goal);
        lemma_search_among_sound(shape, busy.insert(goal), goal, 0);
        if let Some(steps) = search(shape, busy, goal) {
            assert forall|i: int| 0 <= i < steps.len() implies !busy.contains(
                (#[trigger] steps[i]).product,
            ) by {
                if i < steps.len() - 1 {
                    assert(steps.drop_last()[i] == steps[i]);
                }
            }
        }
    }
}

/// What `lemma_search_sound` says, of the circles for one goal.
pub proof fn lemma_search_among_sound(shape: Shape, busy: Set<u64>, goal: u64, from: nat)
    requires
        tidy(shape),
        shape.dom().contains(goal),
        busy.contains(goal),
    ensures
        search_among(shape, busy, goal, from) matches Some(steps) ==> ({
            &&& sound(shape, steps)
            &&& steps.len() > 0
            &&& avoids(steps.drop_last(), busy)
            &&& steps.last().product == goal
            &&& from <= steps.last().choice < shape[goal].len()
        }),
    decreases open_keys(shape, busy).len(), 2nat, shape[goal].len() - from,
{
    if from < shape[goal].len() {
        let wanted = shape[goal][from as int];
        let step = Step { product: goal, choice: from as usize };
        lemma_search_all_sound(shape, busy, wanted, 0, Seq::empty());
        match search_all(shape, busy, wanted, 0, Seq::empty()) {
            Some(found) => {
                lemma_join_single(found, step);
                let steps = found.push(step);
                assert(steps.drop_last() == found);
                assert forall|i: int| 0 <= i < steps.len() implies #[trigger] fed(shape, steps, i) by {
                    if i < found.len() {
                        assert(fed(shape, found, i));
                        assert(steps.take(i) == found.take(i));
                        assert(steps[i] == found[i]);
                    } else {
                        assert(steps.take(i) == found);
                    }
                }
                assert forall|i: int| 0 <= i < steps.len() implies names_circle(
                    shape,
                    #[trigger] steps[i],
                ) by {
                    if i < found.len() {
                        assert(steps[i] == found[i]);
                    }
                }
                assert forall|i: int, j: int| 0 <= i < j < steps.len() implies (
                #[trigger] steps[i]).product != (#[trigger] steps[j]).product by {
                    assert(steps[i] == found[i]);
                    if j < found.len() {
                        assert(steps[j] == found[j]);
                    }
                }
            },
            None => {
                lemma_search_among_sound(shape, busy, goal, from + 1);
            },
        }
    }
}

/// What `lemma_search_sound` says, of the ingredients of one circle: the
/// recipe found begins with what was there and makes every ingredient.
pub proof fn lemma_search_all_sound(
    shape: Shape,
    busy: Set<u64>,
    wanted: Seq<u64>,
    from: nat,
    so_far: Seq<Step>,
)
    requires
        tidy(shape),
        sound(shape, so_far),
        avoids(so_far, busy),
    ensures
        search_all(shape, busy, wanted, from, so_far) matches Some(steps) ==> ({
            &&& sound(shape, steps)
            &&& avoids(steps, busy)
            &&& begins_with(steps, so_far)
            &&& forall|m: int| from <= m < wanted.len() ==> makes(steps, #[trigger] wanted[m])
        }),
    decreases open_keys(shape, busy).len(), 1nat, wanted.len() - from,
{
    if from >= wanted.len() {
        assert(so_far.take(so_far.len() as int) == so_far);
    } else {
        lemma_search_sound(shape, busy, wanted[from as int]);
        match search(shape, busy, wanted[from as int]) {
            Some(found) => {
                let joined = join(so_far, found);
                lemma_join(so_far, found);
                lemma_join_sound(shape, so_far, found);
                assert(avoids(joined, busy)) by {
                    assert forall|i: int| 0 <= i < joined.len() implies !busy.contains(
                        (#[trigger] joined[i]).product,
                    ) by {
                        if so_far.contains(joined[i]) {
                            let q = choose|q: int| 0 <= q < so_far.len() && so_far[q] == joined[i];
                            assert(!busy.contains(so_far[q].product));
                        } else {
                            let q = choose|q: int| 0 <= q < found.len() && found[q] == joined[i];
                            assert(!busy.contains(found[q].product));
                        }
                    }
                }
                assert(makes(found, wanted[from as int])) by {
                    assert(found[found.len() - 1].product == wanted[from as int]);
                }
                lemma_search_all_sound(shape, busy, wanted, from + 1, joined);
                if let Some(steps) = search_all(shape, busy, wanted, from, so_far) {
                    assert(steps.take(so_far.len() as int) == so_far) by {
                        assert(steps.take(joined.len() as int).take(so_far.len() as int)
                            == steps.take(so_far.len() as int));
                    }
                    lemma_makes_of_beginning(steps, joined, wanted[from as int]);
                }
            },
            None => {},
        }
    }
}

/// Joining one step whose product is not made yet puts it at the end.
pub proof fn lemma_join_single(base: Seq<Step>, step: Step)
    ensures
        join(base, seq![step]) == if makes(base, step.product) {
            base
        } else {
            base.push(step)
        },
{
    let more = seq![step];
    assert(more.drop_last() == Seq::<Step>::empty());
    assert(join(base, more.drop_last()) == base);
    assert(more.last() == step);
}

} // verus!
