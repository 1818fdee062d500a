//! Laws of exchanging the values of two slots: the puzzle keeps its forms and,
//! of each category, its values.

use crate::levels::{
    all_fit, all_values, can_exchange, exchanged, has_category, kinds, lemma_filter_none,
    lemma_pool_of_none, lemma_pool_push, pool, with_value,
};
use crate::pools::reshuffled;
use crate::sentence::Statement;
use crate::value::{Category, SentenceId, Value};
use vstd::multiset::Multiset;
use vstd::prelude::*;

verus! {

/// The multiset of `value` alone if `holds`, and else the empty one.
pub open spec fn one_if(holds: bool, value: Value) -> Multiset<Value> {
    if holds {
        Multiset::singleton(value)
    } else {
        Multiset::empty()
    }
}

/// The pool of two rows of sentences, one after the other, is the pool of
/// the first followed by the pool of the second.
pub proof fn lemma_pool_concat(first: Seq<Statement>, second: Seq<Statement>, category: Category)
    ensures
        pool(first + second, category) == pool(first, category) + pool(second, category),
{
    let both: Seq<Statement> = first + second;
    let rows1: Seq<Seq<Value>> = Seq::new(first.len(), |i: int| first[i].values);
    let rows2: Seq<Seq<Value>> = Seq::new(second.len(), |i: int| second[i].values);
    assert(Seq::new(both.len(), |i: int| both[i].values) =~= rows1 + rows2);
    vstd::seq_lib::lemma_flatten_concat(rows1, rows2);
    Seq::filter_distributes_over_add(
        all_values(first),
        all_values(second),
        has_category(category),
    );
}

/// The pool of one sentence holds those of its values that are of the
/// category.
pub proof fn lemma_pool_of_one(statement: Statement, category: Category)
    ensures
        pool(seq![statement], category) == statement.values.filter(has_category(category)),
{
    let none: Seq<Statement> = Seq::empty();
    assert(seq![statement] =~= none.push(statement));
    lemma_pool_of_none(category);
    lemma_pool_push(none, statement, category);
    assert(Seq::<Value>::empty() + statement.values.filter(has_category(category))
        =~= statement.values.filter(has_category(category)));
}

/// A row of one value holds that value once.
proof fn lemma_one_value(value: Value)
    ensures
        seq![value].to_multiset() == Multiset::singleton(value),
{
    broadcast use vstd::multiset::group_multiset_axioms;

    let none: Seq<Value> = Seq::empty();
    assert(seq![value] =~= none.push(value));
    none.to_multiset_ensures();
    assert(none.to_multiset() =~= Multiset::<Value>::empty());
    vstd::seq_lib::to_multiset_build(none, value);
    assert(seq![value].to_multiset() =~= Multiset::singleton(value));
}

/// Of one value, what passes a test is that value once or nothing.
proof fn lemma_filter_one_value(value: Value, pred: spec_fn(Value) -> bool)
    ensures
        seq![value].filter(pred).to_multiset() == one_if(pred(value), value),
{
    broadcast use vstd::multiset::group_multiset_axioms;

    let none: Seq<Value> = Seq::empty();
    lemma_filter_none(pred);
    none.lemma_filter_push(value, pred);
    assert(seq![value] =~= none.push(value));
    none.to_multiset_ensures();
    assert(none.to_multiset() =~= Multiset::<Value>::empty());
    if pred(value) {
        lemma_one_value(value);
    }
}

/// A row of three parts holds what the parts hold.
proof fn lemma_three_parts(first: Seq<Value>, second: Seq<Value>, third: Seq<Value>)
    ensures
        (first + second + third).to_multiset() == first.to_multiset().add(
            second.to_multiset(),
        ).add(third.to_multiset()),
{
    vstd::seq_lib::lemma_multiset_commutative(first, second);
    vstd::seq_lib::lemma_multiset_commutative(first + second, third);
}

/// Putting another value in one place of a row changes what passes a test by
/// that one value: with the old value put back if it passed, the row holds
/// what it held before and the new value if that passes.
pub proof fn lemma_filter_update(
    values: Seq<Value>,
    slot: int,
    value: Value,
    pred: spec_fn(Value) -> bool,
)
    requires
        0 <= slot < values.len(),
    ensures
        values.update(slot, value).filter(pred).to_multiset().add(
            one_if(pred(values[slot]), values[slot]),
        ) == values.filter(pred).to_multiset().add(one_if(pred(value), value)),
{
    broadcast use vstd::multiset::group_multiset_axioms;

    let before: Seq<Value> = values.take(slot);
    let after: Seq<Value> = values.skip(slot + 1);
    let old_value: Value = values[slot];
    assert(values =~= before + seq![old_value] + after);
    assert(values.update(slot, value) =~= before + seq![value] + after);
    Seq::filter_distributes_over_add(before, seq![old_value], pred);
    Seq::filter_distributes_over_add(before + seq![old_value], after, pred);
    Seq::filter_distributes_over_add(before, seq![value], pred);
    Seq::filter_distributes_over_add(before + seq![value], after, pred);
    lemma_three_parts(before.filter(pred), seq![old_value].filter(pred), after.filter(pred));
    lemma_three_parts(before.filter(pred), seq![value].filter(pred), after.filter(pred));
    lemma_filter_one_value(old_value, pred);
    lemma_filter_one_value(value, pred);
    assert(values.update(slot, value).filter(pred).to_multiset().add(
        one_if(pred(old_value), old_value),
    ) =~= values.filter(pred).to_multiset().add(one_if(pred(value), value)));
}

/// Putting another value in one slot of a puzzle changes each pool by that
/// one value: with the old value put back, if it is of the pool's category,
/// the pool holds what it held before and the new value, if that is of the
/// category.
pub proof fn lemma_with_value(
    level: Seq<Statement>,
    at: int,
    slot: int,
    value: Value,
    category: Category,
)
    requires
        0 <= at < level.len(),
        0 <= slot < level[at].values.len(),
    ensures
        kinds(with_value(level, at, slot, value)) == kinds(level),
        pool(with_value(level, at, slot, value), category).to_multiset().add(
            one_if(level[at].values[slot].category() == category, level[at].values[slot]),
        ) == pool(level, category).to_multiset().add(
            one_if(value.category() == category, value),
        ),
{
    broadcast use vstd::multiset::group_multiset_axioms;

    let pred: spec_fn(Value) -> bool = has_category(category);
    let changed: Seq<Statement> = with_value(level, at, slot, value);
    let before: Seq<Statement> = level.take(at);
    let after: Seq<Statement> = level.skip(at + 1);
    let old_value: Value = level[at].values[slot];
    assert(kinds(changed) =~= kinds(level));
    assert(level =~= before + seq![level[at]] + after);
    assert(changed =~= before + seq![changed[at]] + after);
    lemma_pool_concat(before, seq![level[at]], category);
    lemma_pool_concat(before + seq![level[at]], after, category);
    lemma_pool_concat(before, seq![changed[at]], category);
    lemma_pool_concat(before + seq![changed[at]], after, category);
    lemma_pool_of_one(level[at], category);
    lemma_pool_of_one(changed[at], category);
    lemma_three_parts(
        pool(before, category),
        level[at].values.filter(pred),
        pool(after, category),
    );
    lemma_three_parts(
        pool(before, category),
        changed[at].values.filter(pred),
        pool(after, category),
    );
    lemma_filter_update(level[at].values, slot, value, pred);
    assert(changed[at].values == level[at].values.update(slot, value));
    assert(pred(old_value) == (old_value.category() == category));
    assert(pred(value) == (value.category() == category));
    assert(pool(level, category) == pool(before, category) + level[at].values.filter(pred)
        + pool(after, category));
    assert(pool(changed, category) == pool(before, category) + changed[at].values.filter(pred)
        + pool(after, category));
    let first: Multiset<Value> = pool(before, category).to_multiset();
    let last: Multiset<Value> = pool(after, category).to_multiset();
    let held: Multiset<Value> = level[at].values.filter(pred).to_multiset();
    let holds: Multiset<Value> = changed[at].values.filter(pred).to_multiset();
    let gone: Multiset<Value> = one_if(old_value.category() == category, old_value);
    let come: Multiset<Value> = one_if(value.category() == category, value);
    assert(pool(level, category).to_multiset() == first.add(held).add(last));
    assert(pool(changed, category).to_multiset() == first.add(holds).add(last));
    assert(holds.add(gone) == held.add(come));
    assert forall|any: Value|
        first.add(holds).add(last).add(gone).count(any) == first.add(held).add(last).add(
            come,
        ).count(any) by {
        assert(holds.add(gone).count(any) == held.add(come).count(any));
    }
    assert(first.add(holds).add(last).add(gone) =~= first.add(held).add(last).add(come));
}

/// Exchanging the values of two slots that hold values of one category leaves
/// every sentence its form and each category its values. Where every
/// sentence had the values that its form takes, it has them afterwards.
pub proof fn lemma_exchanged(
    level: Seq<Statement>,
    position1: SentenceId,
    slot1: int,
    position2: SentenceId,
    slot2: int,
)
    requires
        can_exchange(level, position1, slot1, position2, slot2),
    ensures
        kinds(exchanged(level, position1, slot1, position2, slot2)) == kinds(level),
        forall|category: Category|
            (#[trigger] pool(
                exchanged(level, position1, slot1, position2, slot2),
                category,
            )).to_multiset() == pool(level, category).to_multiset(),
        all_fit(level) ==> reshuffled(level, exchanged(level, position1, slot1, position2, slot2)),
{
    broadcast use vstd::multiset::group_multiset_axioms;

    let at1: int = position1.0 - 1;
    let at2: int = position2.0 - 1;
    let value1: Value = level[at1].values[slot1];
    let value2: Value = level[at2].values[slot2];
    let once: Seq<Statement> = with_value(level, at1, slot1, value2);
    let twice: Seq<Statement> = with_value(once, at2, slot2, value1);
    assert(twice == exchanged(level, position1, slot1, position2, slot2));
    assert(once[at2].values[slot2] == value2);
    assert forall|category: Category|
        (#[trigger] pool(twice, category)).to_multiset() == pool(level, category).to_multiset() by {
        lemma_with_value(level, at1, slot1, value2, category);
        lemma_with_value(once, at2, slot2, value1, category);
        let of_it: bool = value1.category() == category;
        let before: Multiset<Value> = pool(level, category).to_multiset();
        let between: Multiset<Value> = pool(once, category).to_multiset();
        let after: Multiset<Value> = pool(twice, category).to_multiset();
        assert(between.add(one_if(of_it, value1)) == before.add(one_if(of_it, value2)));
        assert(after.add(one_if(of_it, value2)) == between.add(one_if(of_it, value1)));
        assert forall|value: Value| after.count(value) == before.count(value) by {
            assert(after.add(one_if(of_it, value2)).count(value) == before.add(
                one_if(of_it, value2),
            ).count(value));
        }
        assert(after =~= before);
    }
    lemma_with_value(level, at1, slot1, value2, Category::Id);
    lemma_with_value(once, at2, slot2, value1, Category::Id);
    if all_fit(level) {
        assert forall|i: int| 0 <= i < twice.len() implies (#[trigger] twice[i]).fits() by {
            assert(level[i].fits());
        }
    }
}

} // verus!
