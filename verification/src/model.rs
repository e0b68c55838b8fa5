//! The log as a sequence of values, oldest first, and what holds of it.
//!
//! The operations of the logs are specified against the functions of this
//! module; the lemmas relate the operations to one another.

use vstd::prelude::*;

verus! {

/// The values of a log, oldest first.
pub type Entries = Seq<Seq<char>>;

/// The log after `value` was appended.
pub open spec fn appended(log: Entries, value: Seq<char>) -> Entries {
    log.push(value)
}

/// What a pop yields: the oldest value, or nothing from an empty log.
pub open spec fn popped_value(log: Entries) -> Option<Seq<char>> {
    if log.len() == 0 {
        None
    } else {
        Some(log[0])
    }
}

/// The log after a pop: without its oldest value; an empty log stays as it
/// is.
pub open spec fn popped_rest(log: Entries) -> Entries {
    if log.len() == 0 {
        log
    } else {
        log.drop_first()
    }
}

/// The log after the values of `values` were appended one after the other.
pub open spec fn appended_all(log: Entries, values: Entries) -> Entries
    decreases values.len(),
{
    if values.len() == 0 {
        log
    } else {
        appended_all(appended(log, values[0]), values.drop_first())
    }
}

/// What `count` pops in a row yield, in the order of the pops.
pub open spec fn popped_values(log: Entries, count: nat) -> Seq<Option<Seq<char>>>
    decreases count,
{
    if count == 0 {
        Seq::empty()
    } else {
        seq![popped_value(log)] + popped_values(popped_rest(log), (count - 1) as nat)
    }
}

/// The log after `count` pops in a row.
pub open spec fn popped_times(log: Entries, count: nat) -> Entries
    decreases count,
{
    if count == 0 {
        log
    } else {
        popped_times(popped_rest(log), (count - 1) as nat)
    }
}

/// The text of the string that a pop returned.
pub open spec fn text_of(value: Option<String>) -> Option<Seq<char>> {
    match value {
        Some(text) => Some(text@),
        None => None,
    }
}

/// The text of each string of `strings`.
pub open spec fn texts(strings: Seq<String>) -> Entries {
    Seq::new(strings.len(), |i: int| strings[i]@)
}

/// An append makes the log longer by exactly one, puts the value at the
/// newest end, and leaves the oldest value where it was; in a log that was
/// empty the value is the oldest too.
pub proof fn lemma_append_grows_by_one(log: Entries, value: Seq<char>)
    ensures
        appended(log, value).len() == log.len() + 1,
        appended(log, value).last() == value,
        appended(log, value).first() == (if log.len() == 0 {
            value
        } else {
            log.first()
        }),
        popped_rest(appended(log, value)) == (if log.len() == 0 {
            log
        } else {
            appended(popped_rest(log), value)
        }),
{
    if log.len() > 0 {
        assert(appended(log, value).drop_first() =~= log.drop_first().push(value));
    } else {
        assert(appended(log, value).drop_first() =~= log);
    }
}

/// Appending values one after the other puts them behind what the log held,
/// in the order of the appends.
pub proof fn lemma_appended_all(log: Entries, values: Entries)
    ensures
        appended_all(log, values) == log + values,
    decreases values.len(),
{
    if values.len() == 0 {
        assert(log + values =~= log);
    } else {
        lemma_appended_all(appended(log, values[0]), values.drop_first());
        assert(appended(log, values[0]) + values.drop_first() =~= log + values);
    }
}

/// After each of the appends that fill an empty log with `values`, the log
/// is as long as the number of appends so far, its newest value is the one
/// just appended, and its oldest value is the first that was appended.
pub proof fn lemma_appends_keep_the_ends(values: Entries, count: int)
    requires
        0 < count <= values.len(),
    ensures
        appended_all(Seq::empty(), values.take(count)).len() == count,
        appended_all(Seq::empty(), values.take(count)).last() == values[count - 1],
        appended_all(Seq::empty(), values.take(count)).first() == values[0],
        appended_all(Seq::empty(), values.take(count)) == appended(
            appended_all(Seq::empty(), values.take(count - 1)),
            values[count - 1],
        ),
{
    let empty = Seq::<Seq<char>>::empty();
    lemma_appended_all(empty, values.take(count));
    lemma_appended_all(empty, values.take(count - 1));
    assert(empty + values.take(count) =~= values.take(count));
    assert(empty + values.take(count - 1) =~= values.take(count - 1));
    assert(values.take(count) =~= values.take(count - 1).push(values[count - 1]));
}

/// `count` pops from a log that holds at least that many values yield its
/// oldest `count` values, oldest first, and leave the others.
pub proof fn lemma_pops_yield_the_oldest(log: Entries, count: nat)
    requires
        count <= log.len(),
    ensures
        popped_values(log, count) == Seq::new(count, |i: int| Some(log[i])),
        popped_times(log, count) == log.skip(count as int),
    decreases count,
{
    if count == 0 {
        assert(popped_values(log, count) =~= Seq::new(count, |i: int| Some(log[i])));
        assert(log.skip(0) =~= log);
    } else {
        let rest = popped_rest(log);
        lemma_pops_yield_the_oldest(rest, (count - 1) as nat);
        assert(popped_values(log, count) =~= Seq::new(count, |i: int| Some(log[i])));
        assert(rest.skip(count - 1) =~= log.skip(count as int));
    }
}

/// First in, first out: filling an empty log with `values` and then popping
/// as often as there are values yields the values in the order in which
/// they were appended. After `count` of the pops the log holds what is left,
/// and after the last pop it is empty.
pub proof fn lemma_first_in_first_out(values: Entries, count: nat)
    requires
        count <= values.len(),
    ensures
        popped_values(appended_all(Seq::empty(), values), count) == Seq::new(
            count,
            |i: int| Some(values[i]),
        ),
        popped_times(appended_all(Seq::empty(), values), count) == values.skip(count as int),
        popped_times(appended_all(Seq::empty(), values), count).len() == values.len() - count,
        popped_times(appended_all(Seq::empty(), values), values.len()) == Seq::<
            Seq<char>,
        >::empty(),
{
    let empty = Seq::<Seq<char>>::empty();
    lemma_appended_all(empty, values);
    assert(empty + values =~= values);
    lemma_pops_yield_the_oldest(values, count);
    lemma_pops_yield_the_oldest(values, values.len());
    assert(values.skip(values.len() as int) =~= empty);
}

/// A pop from an empty log yields nothing and leaves the log empty.
pub proof fn lemma_pop_of_empty()
    ensures
        popped_value(Seq::empty()) is None,
        popped_rest(Seq::empty()) == Seq::<Seq<char>>::empty(),
        popped_rest(Seq::empty()).len() == 0,
{
}

/// A walk that reads the log backward yields what a walk forward yields, in
/// the opposite order.
pub proof fn lemma_walks_agree(log: Entries, forward: Seq<String>, backward: Seq<String>)
    requires
        texts(forward) == log,
        texts(backward) == log.reverse(),
    ensures
        texts(backward) == texts(forward).reverse(),
        texts(forward) == texts(backward).reverse(),
{
    assert(log.reverse().reverse() =~= log);
}

} // verus!
