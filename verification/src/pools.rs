//! Laws of the pools of values: what a puzzle that was taken apart and put
//! together again has in common with the puzzle that it was made from.

use crate::levels::{
    all_count_within, all_fit, all_refer_within, all_values, dealt, demand, filled, has_category,
    kinds, left, lemma_demand_grows, lemma_filter_none, lemma_pool_of_none, lemma_pool_push, pool,
};
use crate::sentence::{Sentence, Statement};
use crate::value::{Category, Value};
use vstd::prelude::*;

verus! {

/// `after` is `before` with the values of each category brought into another
/// order: the sentences have the same forms in the same order, every sentence
/// of `after` has the values that its form takes, and each category's pool
/// holds every value as often as before.
pub open spec fn reshuffled(before: Seq<Statement>, after: Seq<Statement>) -> bool {
    &&& kinds(after) =~= kinds(before)
    &&& all_fit(after)
    &&& forall|category: Category|
        (#[trigger] pool(after, category)).to_multiset() =~= pool(before, category).to_multiset()
}

/// The pools of the puzzle hold, of each category, at least as many values as
/// the forms of its sentences have slots.
pub open spec fn enough(level: Seq<Statement>) -> bool {
    &&& demand(kinds(level), Category::Id) <= pool(level, Category::Id).len()
    &&& demand(kinds(level), Category::Number) <= pool(level, Category::Number).len()
    &&& demand(kinds(level), Category::Bool) <= pool(level, Category::Bool).len()
}

/// `after` is a shuffle of `before`: it is put together from the forms of
/// `before` and from the three pools of `before`, each brought into some
/// order.
pub open spec fn shuffle_of(before: Seq<Statement>, after: Seq<Statement>) -> bool {
    exists|ids: Seq<Value>, numbers: Seq<Value>, bools: Seq<Value>|
        {
            &&& ids.to_multiset() == pool(before, Category::Id).to_multiset()
            &&& numbers.to_multiset() == pool(before, Category::Number).to_multiset()
            &&& bools.to_multiset() == pool(before, Category::Bool).to_multiset()
            &&& after == #[trigger] dealt(kinds(before), ids, numbers, bools)
        }
}

/// The value `value` stands in some slot of some sentence of the puzzle.
pub open spec fn occurs(level: Seq<Statement>, value: Value) -> bool {
    exists|i: int, slot: int|
        0 <= i < level.len() && 0 <= slot < level[i].values.len()
            && #[trigger] level[i].values[slot] == value
}

/// The last `count` values of `pool`, the last one first.
pub open spec fn taken(pool: Seq<Value>, count: int) -> Seq<Value> {
    pool.subrange(pool.len() - count, pool.len() as int).reverse()
}

/// The pool among the three that holds the values of `category`.
pub open spec fn pool_of(
    category: Category,
    ids: Seq<Value>,
    numbers: Seq<Value>,
    bools: Seq<Value>,
) -> Seq<Value> {
    match category {
        Category::Id => ids,
        Category::Number => numbers,
        Category::Bool => bools,
    }
}

/// Every value of `pool` is of `category`.
pub open spec fn pure_pool(pool: Seq<Value>, category: Category) -> bool {
    forall|k: int| 0 <= k < pool.len() ==> (#[trigger] pool[k]).category() == category
}

/// Of one value, the one is kept that passes the test.
proof fn lemma_filter_one(value: Value, pred: spec_fn(Value) -> bool)
    ensures
        seq![value].filter(pred) == if pred(value) {
            seq![value]
        } else {
            Seq::<Value>::empty()
        },
{
    lemma_filter_none(pred);
    Seq::<Value>::empty().lemma_filter_push(value, pred);
    assert(seq![value] =~= Seq::<Value>::empty().push(value));
}

/// Of two values, each is kept or not as it would be alone.
proof fn lemma_filter_two(first: Value, second: Value, pred: spec_fn(Value) -> bool)
    ensures
        seq![first, second].filter(pred) == seq![first].filter(pred) + seq![second].filter(pred),
{
    lemma_filter_one(first, pred);
    lemma_filter_one(second, pred);
    seq![first].lemma_filter_push(second, pred);
    assert(seq![first, second] =~= seq![first].push(second));
    assert(seq![first, second].filter(pred) =~= seq![first].filter(pred) + seq![second].filter(
        pred,
    ));
}

/// Among the values of a sentence that has the values its form takes, those
/// of `category` are as many as the form has slots for that category.
pub proof fn lemma_fitting_values(statement: Statement, category: Category)
    requires
        statement.fits(),
    ensures
        statement.values.filter(has_category(category)).len() == statement.sentence.needs(
            category,
        ),
{
    let values: Seq<Value> = statement.values;
    let pred: spec_fn(Value) -> bool = has_category(category);
    if values.len() == 1 {
        assert(values =~= seq![values[0]]);
        lemma_filter_one(values[0], pred);
    } else {
        assert(values =~= seq![values[0], values[1]]);
        lemma_filter_two(values[0], values[1], pred);
        lemma_filter_one(values[0], pred);
        lemma_filter_one(values[1], pred);
    }
}

/// In a puzzle whose sentences all have the values that their forms take,
/// each category's pool holds as many values as the forms have slots for
/// that category.
pub proof fn lemma_pool_len(level: Seq<Statement>, category: Category)
    requires
        all_fit(level),
    ensures
        pool(level, category).len() == demand(kinds(level), category),
    decreases level.len(),
{
    if level.len() == 0 {
        assert(level =~= Seq::<Statement>::empty());
        lemma_pool_of_none(category);
    } else {
        let shorter: Seq<Statement> = level.drop_last();
        assert(level =~= shorter.push(level.last()));
        assert(kinds(level).drop_last() =~= kinds(shorter));
        assert(level.last().fits());
        assert forall|i: int| 0 <= i < shorter.len() implies (#[trigger] shorter[i]).fits() by {
            assert(shorter[i] == level[i]);
        }
        lemma_pool_len(shorter, category);
        lemma_pool_push(shorter, level.last(), category);
        lemma_fitting_values(level.last(), category);
    }
}

/// A puzzle whose sentences all have the values that their forms take holds
/// enough values to be shuffled.
pub proof fn lemma_fitting_enough(level: Seq<Statement>)
    requires
        all_fit(level),
    ensures
        enough(level),
{
    lemma_pool_len(level, Category::Id);
    lemma_pool_len(level, Category::Number);
    lemma_pool_len(level, Category::Bool);
}

/// A pool holds values of its category only.
pub proof fn lemma_pool_pure(level: Seq<Statement>, category: Category)
    ensures
        pure_pool(pool(level, category), category),
{
    assert forall|k: int| 0 <= k < pool(level, category).len() implies (#[trigger] pool(
        level,
        category,
    )[k]).category() == category by {
        all_values(level).lemma_filter_pred(has_category(category), k);
    }
}

/// The values of a puzzle are those that stand in its slots.
pub proof fn lemma_all_values_occur(level: Seq<Statement>, value: Value)
    ensures
        all_values(level).contains(value) <==> occurs(level, value),
    decreases level.len(),
{
    if level.len() == 0 {
        assert(level =~= Seq::<Statement>::empty());
        lemma_pool_of_none(Category::Id);
    } else {
        let shorter: Seq<Statement> = level.drop_last();
        let last: Statement = level.last();
        assert(level =~= shorter.push(last));
        lemma_all_values_occur(shorter, value);
        lemma_pool_push(shorter, last, Category::Id);
        let joined: Seq<Value> = all_values(shorter) + last.values;
        if occurs(level, value) {
            let (i, slot): (int, int) = choose|i: int, slot: int|
                0 <= i < level.len() && 0 <= slot < level[i].values.len()
                    && #[trigger] level[i].values[slot] == value;
            if i < shorter.len() {
                assert(shorter[i].values[slot] == value);
                assert(occurs(shorter, value));
                let k: int = choose|k: int|
                    0 <= k < all_values(shorter).len() && all_values(shorter)[k] == value;
                assert(joined[k] == value);
            } else {
                assert(joined[all_values(shorter).len() + slot] == value);
            }
        }
        if all_values(level).contains(value) {
            let k: int = choose|k: int| 0 <= k < joined.len() && joined[k] == value;
            if k < all_values(shorter).len() {
                assert(all_values(shorter)[k] == value);
                assert(all_values(shorter).contains(value));
                let (i, slot): (int, int) = choose|i: int, slot: int|
                    0 <= i < shorter.len() && 0 <= slot < shorter[i].values.len()
                        && #[trigger] shorter[i].values[slot] == value;
                assert(level[i].values[slot] == value);
            } else {
                assert(level[level.len() - 1].values[k - all_values(shorter).len()] == value);
            }
        }
    }
}

/// A category's pool holds the values of that category that stand in the
/// slots of the puzzle, and no others.
pub proof fn lemma_pool_members(level: Seq<Statement>, category: Category, value: Value)
    ensures
        pool(level, category).contains(value) <==> value.category() == category && occurs(
            level,
            value,
        ),
{
    let values: Seq<Value> = all_values(level);
    let pred: spec_fn(Value) -> bool = has_category(category);
    lemma_all_values_occur(level, value);
    if pool(level, category).contains(value) {
        let k: int = choose|k: int|
            0 <= k < pool(level, category).len() && pool(level, category)[k] == value;
        values.lemma_filter_pred(pred, k);
        values.lemma_filter_contains_rev(pred, value);
    }
    if value.category() == category && values.contains(value) {
        let k: int = choose|k: int| 0 <= k < values.len() && values[k] == value;
        values.lemma_filter_contains(pred, k);
    }
}

/// A sentence filled from the ends of three pools, each of which holds values
/// of its category only and enough of them, has the values that its form
/// takes; those of `category` are the last values of that category's pool,
/// the last one first.
pub proof fn lemma_filled(
    sentence: Sentence,
    ids: Seq<Value>,
    numbers: Seq<Value>,
    bools: Seq<Value>,
    category: Category,
)
    requires
        pure_pool(ids, Category::Id),
        pure_pool(numbers, Category::Number),
        pure_pool(bools, Category::Bool),
        sentence.needs(Category::Id) <= ids.len(),
        sentence.needs(Category::Number) <= numbers.len(),
        sentence.needs(Category::Bool) <= bools.len(),
    ensures
        filled(sentence, ids, numbers, bools).fits(),
        filled(sentence, ids, numbers, bools).values.filter(has_category(category)) == taken(
            pool_of(category, ids, numbers, bools),
            sentence.needs(category) as int,
        ),
{
    let values: Seq<Value> = filled(sentence, ids, numbers, bools).values;
    let pred: spec_fn(Value) -> bool = has_category(category);
    let from: Seq<Value> = pool_of(category, ids, numbers, bools);
    lemma_taken_few(from);
    lemma_filter_none(pred);
    if sentence.slots().len() == 1 {
        let only: Value = values[0];
        assert(values =~= seq![only]);
        assert(pred(only) == (only.category() == category));
        lemma_filter_one(only, pred);
    } else {
        let first: Value = values[0];
        let second: Value = values[1];
        assert(values =~= seq![first, second]);
        assert(pred(first) == (first.category() == category));
        assert(pred(second) == (second.category() == category));
        lemma_filter_two(first, second, pred);
        lemma_filter_one(first, pred);
        lemma_filter_one(second, pred);
        assert(seq![first] + seq![second] =~= seq![first, second]);
        assert(seq![first] + Seq::<Value>::empty() =~= seq![first]);
        assert(Seq::<Value>::empty() + seq![second] =~= seq![second]);
        assert(Seq::<Value>::empty() + Seq::<Value>::empty() =~= Seq::<Value>::empty());
    }
}

/// The last values of a pool, where they are none, one or two.
proof fn lemma_taken_few(pool: Seq<Value>)
    ensures
        taken(pool, 0) == Seq::<Value>::empty(),
        pool.len() >= 1 ==> taken(pool, 1) == seq![pool[pool.len() - 1]],
        pool.len() >= 2 ==> taken(pool, 2) == seq![pool[pool.len() - 1], pool[pool.len() - 2]],
{
    assert(taken(pool, 0) =~= Seq::<Value>::empty());
    if pool.len() >= 1 {
        assert(taken(pool, 1) =~= seq![pool[pool.len() - 1]]);
    }
    if pool.len() >= 2 {
        assert(taken(pool, 2) =~= seq![pool[pool.len() - 1], pool[pool.len() - 2]]);
    }
}

/// Taking `more` values after `served` others takes them from what those
/// left.
proof fn lemma_taken_more(pool: Seq<Value>, served: int, more: int)
    requires
        0 <= served,
        0 <= more,
        served + more <= pool.len(),
    ensures
        taken(pool, served + more) == taken(pool, served) + taken(
            pool.take(pool.len() - served),
            more,
        ),
{
    assert(taken(pool, served + more) =~= taken(pool, served) + taken(
        pool.take(pool.len() - served),
        more,
    ));
}

/// The first sentences of a puzzle that was put together hold, of each
/// category, the values that they took from the end of that category's pool,
/// in the order in which they took them.
pub proof fn lemma_dealt_first(
    forms: Seq<Sentence>,
    ids: Seq<Value>,
    numbers: Seq<Value>,
    bools: Seq<Value>,
    first: int,
    category: Category,
)
    requires
        pure_pool(ids, Category::Id),
        pure_pool(numbers, Category::Number),
        pure_pool(bools, Category::Bool),
        demand(forms, Category::Id) <= ids.len(),
        demand(forms, Category::Number) <= numbers.len(),
        demand(forms, Category::Bool) <= bools.len(),
        0 <= first <= forms.len(),
    ensures
        pool(dealt(forms, ids, numbers, bools).take(first), category) == taken(
            pool_of(category, ids, numbers, bools),
            demand(forms.take(first), category) as int,
        ),
        all_fit(dealt(forms, ids, numbers, bools).take(first)),
    decreases first,
{
    let whole: Seq<Statement> = dealt(forms, ids, numbers, bools);
    let from: Seq<Value> = pool_of(category, ids, numbers, bools);
    if first == 0 {
        assert(forms.take(0) =~= Seq::<Sentence>::empty());
        assert(whole.take(0) =~= Seq::<Statement>::empty());
        lemma_pool_of_none(category);
        assert(taken(from, 0) =~= Seq::<Value>::empty());
    } else {
        let before: int = first - 1;
        lemma_dealt_first(forms, ids, numbers, bools, before, category);
        lemma_demand_grows(forms, before, Category::Id);
        lemma_demand_grows(forms, before, Category::Number);
        lemma_demand_grows(forms, before, Category::Bool);
        lemma_demand_grows(forms, first, Category::Id);
        lemma_demand_grows(forms, first, Category::Number);
        lemma_demand_grows(forms, first, Category::Bool);
        let ids_left: Seq<Value> = left(ids, forms.take(before), Category::Id);
        let numbers_left: Seq<Value> = left(numbers, forms.take(before), Category::Number);
        let bools_left: Seq<Value> = left(bools, forms.take(before), Category::Bool);
        lemma_filled(forms[before], ids_left, numbers_left, bools_left, category);
        assert(whole.take(first) =~= whole.take(before).push(whole[before]));
        lemma_pool_push(whole.take(before), whole[before], category);
        let served: int = demand(forms.take(before), category) as int;
        let more: int = forms[before].needs(category) as int;
        assert(pool_of(category, ids_left, numbers_left, bools_left) == from.take(
            from.len() - served,
        ));
        lemma_taken_more(from, served, more);
        assert forall|i: int| 0 <= i < first implies (#[trigger] whole.take(first)[i]).fits() by {
            if i < before {
                assert(whole.take(before)[i].fits());
            }
        }
    }
}

/// A puzzle put together from pools that hold, each of its own category only,
/// exactly as many values as the forms have slots: it has sentences of those
/// forms, each with the values that its form takes, and its pools are the
/// given ones read backwards.
pub proof fn lemma_dealt(
    forms: Seq<Sentence>,
    ids: Seq<Value>,
    numbers: Seq<Value>,
    bools: Seq<Value>,
)
    requires
        pure_pool(ids, Category::Id),
        pure_pool(numbers, Category::Number),
        pure_pool(bools, Category::Bool),
        demand(forms, Category::Id) == ids.len(),
        demand(forms, Category::Number) == numbers.len(),
        demand(forms, Category::Bool) == bools.len(),
    ensures
        kinds(dealt(forms, ids, numbers, bools)) == forms,
        all_fit(dealt(forms, ids, numbers, bools)),
        pool(dealt(forms, ids, numbers, bools), Category::Id) == ids.reverse(),
        pool(dealt(forms, ids, numbers, bools), Category::Number) == numbers.reverse(),
        pool(dealt(forms, ids, numbers, bools), Category::Bool) == bools.reverse(),
{
    let whole: Seq<Statement> = dealt(forms, ids, numbers, bools);
    assert(kinds(whole) =~= forms);
    assert(whole.take(forms.len() as int) =~= whole);
    assert(forms.take(forms.len() as int) =~= forms);
    lemma_dealt_first(forms, ids, numbers, bools, forms.len() as int, Category::Id);
    lemma_dealt_first(forms, ids, numbers, bools, forms.len() as int, Category::Number);
    lemma_dealt_first(forms, ids, numbers, bools, forms.len() as int, Category::Bool);
    assert(taken(ids, ids.len() as int) =~= ids.reverse());
    assert(taken(numbers, numbers.len() as int) =~= numbers.reverse());
    assert(taken(bools, bools.len() as int) =~= bools.reverse());
}

/// Two rows that hold every value equally often hold values of the same
/// categories.
pub proof fn lemma_same_values_pure(before: Seq<Value>, after: Seq<Value>, category: Category)
    requires
        before.to_multiset() == after.to_multiset(),
        pure_pool(before, category),
    ensures
        pure_pool(after, category),
        after.len() == before.len(),
{
    broadcast use vstd::seq_lib::group_to_multiset_ensures;

    before.to_multiset_ensures();
    after.to_multiset_ensures();
    assert forall|k: int| 0 <= k < after.len() implies (#[trigger] after[k]).category()
        == category by {
        assert(after.contains(after[k]));
        assert(before.to_multiset().count(after[k]) > 0);
        assert(before.contains(after[k]));
    }
}

/// A puzzle put together from pools that hold, each of its own category only,
/// enough values for the slots of the forms: it has sentences of those forms,
/// each with the values that its form takes.
pub proof fn lemma_dealt_fits(
    forms: Seq<Sentence>,
    ids: Seq<Value>,
    numbers: Seq<Value>,
    bools: Seq<Value>,
)
    requires
        pure_pool(ids, Category::Id),
        pure_pool(numbers, Category::Number),
        pure_pool(bools, Category::Bool),
        demand(forms, Category::Id) <= ids.len(),
        demand(forms, Category::Number) <= numbers.len(),
        demand(forms, Category::Bool) <= bools.len(),
    ensures
        kinds(dealt(forms, ids, numbers, bools)) == forms,
        all_fit(dealt(forms, ids, numbers, bools)),
{
    let whole: Seq<Statement> = dealt(forms, ids, numbers, bools);
    assert(kinds(whole) =~= forms);
    assert(whole.take(forms.len() as int) =~= whole);
    lemma_dealt_first(forms, ids, numbers, bools, forms.len() as int, Category::Id);
}

/// A shuffle of a puzzle whose pools hold enough values has the forms of that
/// puzzle, and in every sentence the values that its form takes. If that was
/// so before as well, each category has kept its values.
pub proof fn lemma_shuffle_of(before: Seq<Statement>, after: Seq<Statement>)
    requires
        enough(before),
        shuffle_of(before, after),
    ensures
        kinds(after) == kinds(before),
        all_fit(after),
        all_fit(before) ==> reshuffled(before, after),
{
    let (ids, numbers, bools): (Seq<Value>, Seq<Value>, Seq<Value>) = choose|
        ids: Seq<Value>,
        numbers: Seq<Value>,
        bools: Seq<Value>,
    |
        {
            &&& ids.to_multiset() == pool(before, Category::Id).to_multiset()
            &&& numbers.to_multiset() == pool(before, Category::Number).to_multiset()
            &&& bools.to_multiset() == pool(before, Category::Bool).to_multiset()
            &&& after == #[trigger] dealt(kinds(before), ids, numbers, bools)
        };
    lemma_pool_pure(before, Category::Id);
    lemma_pool_pure(before, Category::Number);
    lemma_pool_pure(before, Category::Bool);
    lemma_same_values_pure(pool(before, Category::Id), ids, Category::Id);
    lemma_same_values_pure(pool(before, Category::Number), numbers, Category::Number);
    lemma_same_values_pure(pool(before, Category::Bool), bools, Category::Bool);
    lemma_dealt_fits(kinds(before), ids, numbers, bools);
    if all_fit(before) {
        lemma_pool_len(before, Category::Id);
        lemma_pool_len(before, Category::Number);
        lemma_pool_len(before, Category::Bool);
        lemma_dealt(kinds(before), ids, numbers, bools);
        ids.lemma_reverse_to_multiset();
        numbers.lemma_reverse_to_multiset();
        bools.lemma_reverse_to_multiset();
        assert forall|category: Category|
            (#[trigger] pool(after, category)).to_multiset() =~= pool(
                before,
                category,
            ).to_multiset() by {
            match category {
                Category::Id => {},
                Category::Number => {},
                Category::Bool => {},
            }
        }
    }
}

/// Bringing the values into another order, and then again into another, is
/// bringing them into another order.
pub proof fn lemma_reshuffled_chain(
    first: Seq<Statement>,
    second: Seq<Statement>,
    third: Seq<Statement>,
)
    requires
        reshuffled(first, second),
        reshuffled(second, third),
    ensures
        reshuffled(first, third),
{
    assert forall|category: Category|
        (#[trigger] pool(third, category)).to_multiset() =~= pool(
            first,
            category,
        ).to_multiset() by {
        assert(pool(second, category).to_multiset() =~= pool(first, category).to_multiset());
    }
}

/// Bringing the values of each category into another order keeps every `Id`
/// within the puzzle's positions, and every `Number` within its bound, if
/// they were so before.
pub proof fn lemma_reshuffled_within(before: Seq<Statement>, after: Seq<Statement>)
    requires
        reshuffled(before, after),
    ensures
        after.len() == before.len(),
        all_refer_within(before) ==> all_refer_within(after),
        all_count_within(before) ==> all_count_within(after),
{
    broadcast use vstd::seq_lib::group_to_multiset_ensures;

    assert(kinds(after).len() == kinds(before).len());
    assert forall|i: int, slot: int|
        0 <= i < after.len() && 0 <= slot < after[i].values.len() implies occurs(
        before,
        #[trigger] after[i].values[slot],
    ) by {
        let value: Value = after[i].values[slot];
        lemma_pool_members(after, value.category(), value);
        lemma_pool_members(before, value.category(), value);
        assert(pool(after, value.category()).to_multiset().count(value) > 0);
        assert(pool(before, value.category()).to_multiset().count(value) > 0);
    }
    if all_refer_within(before) {
        assert forall|i: int| 0 <= i < after.len() implies (#[trigger] after[i]).refers_within(
            after.len(),
        ) by {
            assert forall|slot: int|
                0 <= slot < after[i].values.len() && (#[trigger] after[i].values[slot]) is Id
                implies 1 <= after[i].values[slot].id() <= after.len() by {
                let value: Value = after[i].values[slot];
                assert(occurs(before, value));
                let (j, other): (int, int) = choose|j: int, other: int|
                    0 <= j < before.len() && 0 <= other < before[j].values.len()
                        && #[trigger] before[j].values[other] == value;
                assert(before[j].refers_within(before.len()));
            }
        }
    }
    if all_count_within(before) {
        assert forall|i: int| 0 <= i < after.len() implies (#[trigger] after[i]).counts_within(
            after.len(),
        ) by {
            assert forall|slot: int|
                0 <= slot < after[i].values.len() && (#[trigger] after[i].values[slot]) is Number
                implies after[i].values[slot].number() <= after.len() by {
                let value: Value = after[i].values[slot];
                assert(occurs(before, value));
                let (j, other): (int, int) = choose|j: int, other: int|
                    0 <= j < before.len() && 0 <= other < before[j].values.len()
                        && #[trigger] before[j].values[other] == value;
                assert(before[j].counts_within(before.len()));
            }
        }
    }
}

} // verus!
