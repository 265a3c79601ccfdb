//! What holds of every trove: laws that follow from the model, proved once
//! for all troves and all commands.

use vstd::prelude::*;

use crate::command::error::TroveError;
use crate::command::model::{
    collides_once, differs_from, first_collision, has_collision, has_namespace,
    is_first_collision, is_only_collision, is_only_copy, is_present, keys_unique,
    lemma_first_collision, lemma_some_collision_is_first, namespaces_of, occurs_once,
    outside_namespace, without_namespace, CommandRecord, TroveModel,
};
use crate::text::{lemma_text_lt_is_strict_total_order, strictly_ascending, text_lt};

verus! {

/// A filter that every item passes changes nothing.
proof fn lemma_filter_keeps_all(s: Seq<CommandRecord>, keeps: spec_fn(CommandRecord) -> bool)
    requires
        forall|j: int| 0 <= j < s.len() ==> keeps(#[trigger] s[j]),
    ensures
        s.filter(keeps) == s,
    decreases s.len(),
{
    reveal(Seq::filter);
    if s.len() > 0 {
        assert forall|j: int| 0 <= j < s.drop_last().len() implies keeps(
            #[trigger] s.drop_last()[j],
        ) by {
            assert(s.drop_last()[j] == s[j]);
        }
        lemma_filter_keeps_all(s.drop_last(), keeps);
        assert(s.drop_last().push(s.last()) =~= s);
    }
}

/// A filter that stops the item at `i` and no other removes that item.
proof fn lemma_filter_drops_one(
    s: Seq<CommandRecord>,
    keeps: spec_fn(CommandRecord) -> bool,
    i: int,
)
    requires
        0 <= i < s.len(),
        forall|j: int| 0 <= j < s.len() ==> (keeps(#[trigger] s[j]) <==> j != i),
    ensures
        s.filter(keeps) == s.remove(i),
    decreases s.len(),
{
    reveal(Seq::filter);
    let front = s.drop_last();
    if i == s.len() - 1 {
        assert forall|j: int| 0 <= j < front.len() implies keeps(#[trigger] front[j]) by {
            assert(front[j] == s[j]);
        }
        lemma_filter_keeps_all(front, keeps);
        assert(s.remove(i) =~= front);
    } else {
        assert forall|j: int| 0 <= j < front.len() implies (keeps(#[trigger] front[j]) <==> j
            != i) by {
            assert(front[j] == s[j]);
        }
        lemma_filter_drops_one(front, keeps, i);
        assert(keeps(s[s.len() - 1]));
        assert(front.remove(i).push(s.last()) =~= s.remove(i));
    }
}

/// What a filter lets through was there before, and passes the filter.
proof fn lemma_filter_members(
    s: Seq<CommandRecord>,
    keeps: spec_fn(CommandRecord) -> bool,
    k: int,
) -> (j: int)
    requires
        0 <= k < s.filter(keeps).len(),
    ensures
        0 <= j < s.len(),
        s[j] == s.filter(keeps)[k],
        keeps(s[j]),
    decreases s.len(),
{
    reveal(Seq::filter);
    let front = s.drop_last();
    if keeps(s.last()) && k == front.filter(keeps).len() {
        s.len() - 1
    } else {
        let j = lemma_filter_members(front, keeps, k);
        assert(front[j] == s[j]);
        j
    }
}

/// What passes a filter is let through.
proof fn lemma_filter_lets_through(
    s: Seq<CommandRecord>,
    keeps: spec_fn(CommandRecord) -> bool,
    j: int,
) -> (k: int)
    requires
        0 <= j < s.len(),
        keeps(s[j]),
    ensures
        0 <= k < s.filter(keeps).len(),
        s.filter(keeps)[k] == s[j],
    decreases s.len(),
{
    reveal(Seq::filter);
    let front = s.drop_last();
    if j == s.len() - 1 {
        front.filter(keeps).len() as int
    } else {
        assert(front[j] == s[j]);
        lemma_filter_lets_through(front, keeps, j)
    }
}

/// A command that is valid and collides with nothing is appended as it is:
/// the trove grows by one, is not empty afterwards, and the addition is
/// reported as a change.
pub proof fn law_add_without_collision(
    trove: TroveModel,
    c: CommandRecord,
    overwrite: bool,
    suffix: Seq<char>,
)
    requires
        c.is_valid(),
        !has_collision(trove.commands, c),
    ensures
        trove.add_result(c) == Ok::<bool, TroveError>(true),
        trove.added(c, overwrite, suffix).commands == trove.commands.push(c),
        trove.added(c, overwrite, suffix).commands.len() == trove.commands.len() + 1,
        trove.added(c, overwrite, suffix).commands.len() != 0,
        trove.added(c, overwrite, suffix).namespaces.contains(c.namespace),
{
}

/// Adding a valid command that is stored already, with the same namespace,
/// name and command body, changes nothing and reports no change.
pub proof fn law_add_duplicate(
    trove: TroveModel,
    c: CommandRecord,
    overwrite: bool,
    suffix: Seq<char>,
)
    requires
        c.is_valid(),
        is_present(trove.commands, c),
    ensures
        trove.add_result(c) == Ok::<bool, TroveError>(false),
        trove.added(c, overwrite, suffix) == trove,
{
}

/// A valid command that collides with a stored one without being the same
/// command, added without overwriting, is stored at the end under a name
/// that differs from its own. The trove grows by one, and every record that
/// was stored before, the colliding one among them, stays where it was,
/// unchanged.
pub proof fn law_add_renamed(trove: TroveModel, c: CommandRecord, suffix: Seq<char>)
    requires
        c.is_valid(),
        has_collision(trove.commands, c),
        !is_present(trove.commands, c),
    ensures
        trove.add_result(c) == Ok::<bool, TroveError>(true),
        trove.added(c, false, suffix).commands.len() == trove.commands.len() + 1,
        trove.added(c, false, suffix).commands.last() == c.with_suffix(suffix),
        trove.added(c, false, suffix).commands.last().name != c.name,
        trove.added(c, false, suffix).commands.last().name != first_collision(
            trove.commands,
            c,
        ).name,
        forall|i: int|
            0 <= i < trove.commands.len() ==> trove.added(c, false, suffix).commands[i]
                == #[trigger] trove.commands[i],
        trove.added(c, false, suffix).namespaces == trove.namespaces,
{
    assert(c.with_suffix(suffix).name.len() == c.name.len() + 1 + suffix.len());
    let i = choose|i: int|
        0 <= i < trove.commands.len() && (#[trigger] trove.commands[i]).collides_with(c);
    lemma_some_collision_is_first(trove.commands, c, i);
    let k = choose|k: int| is_first_collision(trove.commands, c, k);
    assert(trove.commands[k].collides_with(c));
}

/// A valid command that collides with a stored record without being the
/// same command, added with overwriting, takes the place of the first record
/// it collides with, provided that record is stored once: the trove keeps
/// its size, the replaced record is gone, the other records keep their
/// order, and the command stands at the end. Where the command collided with
/// that one record only, it is afterwards the only record under its
/// namespace and name.
pub proof fn law_add_overwriting(trove: TroveModel, c: CommandRecord, suffix: Seq<char>)
    requires
        c.is_valid(),
        has_collision(trove.commands, c),
        !is_present(trove.commands, c),
        occurs_once(trove.commands, first_collision(trove.commands, c)),
    ensures
        trove.add_result(c) == Ok::<bool, TroveError>(true),
        trove.added(c, true, suffix).commands.len() == trove.commands.len(),
        trove.added(c, true, suffix).commands.last() == c,
        !trove.added(c, true, suffix).commands.contains(first_collision(trove.commands, c)),
        exists|i: int|
            is_first_collision(trove.commands, c, i) && trove.added(c, true, suffix).commands
                == trove.commands.remove(i).push(c),
        collides_once(trove.commands, c) ==> collides_once(
            trove.added(c, true, suffix).commands,
            c,
        ),
        trove.added(c, true, suffix).namespaces == trove.namespaces,
{
    let commands = trove.commands;
    let x = first_collision(commands, c);
    let w = choose|w: int| 0 <= w < commands.len() && (#[trigger] commands[w]).collides_with(c);
    lemma_some_collision_is_first(commands, c, w);
    let i = choose|i: int| is_first_collision(commands, c, i);
    lemma_first_collision(commands, c, i);
    let only = choose|only: int| is_only_copy(commands, x, only);
    assert(commands[i] == x);
    assert(only == i);
    let keeps = differs_from(x);
    assert forall|j: int| 0 <= j < commands.len() implies (keeps(#[trigger] commands[j]) <==> j
        != i) by {}
    lemma_filter_drops_one(commands, keeps, i);
    let after = trove.added(c, true, suffix).commands;
    assert(after == commands.remove(i).push(c));
    assert(x.collides_with(c));
    assert forall|j: int| 0 <= j < after.len() implies after[j] != x by {
        if j < i {
            assert(after[j] == commands[j]);
        } else if j < after.len() - 1 {
            assert(after[j] == commands[j + 1]);
        } else {
            if after[j] == x {
                assert(commands[i].same_command_as(c));
            }
        }
    }
    if collides_once(commands, c) {
        let o = choose|o: int| is_only_collision(commands, c, o);
        assert(commands[i].collides_with(c));
        assert(o == i);
        assert forall|j: int| 0 <= j < after.len() implies ((#[trigger] after[j]).collides_with(
            c,
        ) <==> j == after.len() - 1) by {
            if j < i {
                assert(after[j] == commands[j]);
            } else if j < after.len() - 1 {
                assert(after[j] == commands[j + 1]);
            }
        }
        assert(is_only_collision(after, c, after.len() - 1));
    }
}

/// In a trove that holds one record at most under each namespace and name,
/// adding with overwriting keeps it so.
pub proof fn law_overwriting_keeps_keys_unique(
    trove: TroveModel,
    c: CommandRecord,
    suffix: Seq<char>,
)
    requires
        keys_unique(trove.commands),
    ensures
        keys_unique(trove.added(c, true, suffix).commands),
{
    let commands = trove.commands;
    let after = trove.added(c, true, suffix).commands;
    if !c.is_valid() || is_present(commands, c) {
    } else if !has_collision(commands, c) {
        assert forall|i: int, j: int| 0 <= i < j < after.len() implies !(
        #[trigger] after[i]).collides_with(#[trigger] after[j]) by {
            assert(after[i] == commands[i]);
            if j < commands.len() {
                assert(after[j] == commands[j]);
            }
        }
    } else {
        let w = choose|w: int|
            0 <= w < commands.len() && (#[trigger] commands[w]).collides_with(c);
        lemma_some_collision_is_first(commands, c, w);
        let i = choose|i: int| is_first_collision(commands, c, i);
        lemma_first_collision(commands, c, i);
        assert forall|j: int| 0 <= j < commands.len() implies ((
        #[trigger] commands[j]).collides_with(c) <==> j == i) by {
            if j != i && commands[j].collides_with(c) {
                if j < i {
                    assert(!commands[j].collides_with(commands[i]));
                } else {
                    assert(!commands[i].collides_with(commands[j]));
                }
            }
        }
        assert(is_only_collision(commands, c, i));
        assert forall|j: int| 0 <= j < commands.len() implies ((#[trigger] commands[j])
            == commands[i] <==> j == i) by {
            if commands[j] == commands[i] {
                assert(commands[j].collides_with(c));
            }
        }
        assert(is_only_copy(commands, first_collision(commands, c), i));
        law_add_overwriting(trove, c, suffix);
        let k = choose|k: int|
            is_first_collision(commands, c, k) && after == commands.remove(k).push(c);
        assert(k == i);
        assert forall|p: int, q: int| 0 <= p < q < after.len() implies !(
        #[trigger] after[p]).collides_with(#[trigger] after[q]) by {
            let from_p = if p < i { p } else { p + 1 };
            assert(after[p] == commands[from_p]);
            if q < after.len() - 1 {
                let from_q = if q < i { q } else { q + 1 };
                assert(after[q] == commands[from_q]);
            } else {
                assert(after[q] == c);
                assert(!commands[from_p].collides_with(c));
            }
        }
    }
}

/// In a trove that holds one record at most under each namespace and name,
/// a merge keeps it so, whatever the other trove holds.
pub proof fn law_merge_keeps_keys_unique(trove: TroveModel, others: Seq<CommandRecord>)
    requires
        keys_unique(trove.commands),
    ensures
        keys_unique(trove.merged(others).commands),
    decreases others.len(),
{
    if others.len() > 0 {
        law_merge_keeps_keys_unique(trove, others.drop_last());
        law_overwriting_keeps_keys_unique(
            trove.merged(others.drop_last()),
            others.last(),
            Seq::empty(),
        );
    }
}

/// What adding a command reports is whether the stored records changed: a
/// refused command and an unchanged trove go together with no change, a
/// reported change with a different sequence of records.
pub proof fn law_add_reports_change(
    trove: TroveModel,
    c: CommandRecord,
    overwrite: bool,
    suffix: Seq<char>,
)
    ensures
        trove.add_result(c) == Ok::<bool, TroveError>(true) ==> trove.added(
            c,
            overwrite,
            suffix,
        ).commands != trove.commands,
        trove.add_result(c) != Ok::<bool, TroveError>(true) ==> trove.added(c, overwrite, suffix)
            == trove,
        trove.added(c, overwrite, suffix).version == trove.version,
{
    let after = trove.added(c, overwrite, suffix).commands;
    if trove.add_result(c) == Ok::<bool, TroveError>(true) && has_collision(trove.commands, c)
        && overwrite {
        if after == trove.commands {
            assert(after.last() == c);
            assert(trove.commands[trove.commands.len() - 1].same_command_as(c));
        }
    }
}

/// The suffix plays no part where the caller lets colliding commands be
/// overwritten.
pub proof fn law_overwriting_needs_no_suffix(
    trove: TroveModel,
    c: CommandRecord,
    suffix: Seq<char>,
    other_suffix: Seq<char>,
)
    ensures
        trove.added(c, true, suffix) == trove.added(c, true, other_suffix),
{
}

/// Merging a valid command that collides with nothing and a valid command
/// that is stored already, in either order, makes the trove grow by exactly
/// one and is reported as a change.
pub proof fn law_merge_new_and_duplicate(
    trove: TroveModel,
    fresh: CommandRecord,
    duplicate: CommandRecord,
)
    requires
        fresh.is_valid(),
        !has_collision(trove.commands, fresh),
        duplicate.is_valid(),
        is_present(trove.commands, duplicate),
    ensures
        trove.merged(seq![fresh, duplicate]).commands == trove.commands.push(fresh),
        trove.merge_changes(seq![fresh, duplicate]),
        trove.merged(seq![duplicate, fresh]).commands == trove.commands.push(fresh),
        trove.merge_changes(seq![duplicate, fresh]),
{
    let i = choose|i: int|
        0 <= i < trove.commands.len() && (#[trigger] trove.commands[i]).same_command_as(duplicate);
    let empty = Seq::<CommandRecord>::empty();
    assert(trove.merged(empty) == trove);
    assert(!trove.merge_changes(empty));

    let first = seq![fresh, duplicate];
    assert(first.drop_last() =~= seq![fresh]);
    assert(seq![fresh].drop_last() =~= empty);
    assert(trove.merged(seq![fresh]) == trove.added(fresh, true, Seq::empty()));
    let grown = trove.merged(seq![fresh]);
    assert(grown.commands[i].same_command_as(duplicate));
    assert(trove.merged(first) == grown.added(duplicate, true, Seq::empty()));
    assert(trove.merge_changes(seq![fresh]));

    let second = seq![duplicate, fresh];
    assert(second.drop_last() =~= seq![duplicate]);
    assert(seq![duplicate].drop_last() =~= empty);
    assert(trove.merged(seq![duplicate]) == trove);
    assert(trove.merged(second) == trove.added(fresh, true, Seq::empty()));
}

/// A merge that reports no change has left the trove as it was.
pub proof fn law_merge_without_change(trove: TroveModel, others: Seq<CommandRecord>)
    requires
        !trove.merge_changes(others),
    ensures
        trove.merged(others) == trove,
    decreases others.len(),
{
    if others.len() > 0 {
        law_merge_without_change(trove, others.drop_last());
        law_add_reports_change(trove, others.last(), true, Seq::empty());
    }
}

/// The namespaces of the stored records follow a removal by namespace: the
/// removed namespace is gone from them, and every other one stays.
pub proof fn law_namespaces_follow_removal(commands: Seq<CommandRecord>, namespace: Seq<char>)
    ensures
        namespaces_of(without_namespace(commands, namespace)) == namespaces_of(commands).remove(
            namespace,
        ),
{
    let keeps = outside_namespace(namespace);
    let rest = without_namespace(commands, namespace);
    assert forall|s: Seq<char>| namespaces_of(rest).contains(s) <==> namespaces_of(
        commands,
    ).remove(namespace).contains(s) by {
        if has_namespace(rest, s) {
            let k = choose|k: int| 0 <= k < rest.len() && (#[trigger] rest[k]).namespace == s;
            let j = lemma_filter_members(commands, keeps, k);
            assert(commands[j].namespace == s);
        }
        if s != namespace && has_namespace(commands, s) {
            let j = choose|j: int|
                0 <= j < commands.len() && (#[trigger] commands[j]).namespace == s;
            let k = lemma_filter_lets_through(commands, keeps, j);
            assert(rest[k].namespace == s);
        }
    }
    assert(namespaces_of(rest) =~= namespaces_of(commands).remove(namespace));
}

/// A strictly ascending list is determined by the set of its items: two such
/// lists of the same items are the same list.
pub proof fn law_ascending_list_is_unique(a: Seq<Seq<char>>, b: Seq<Seq<char>>)
    requires
        strictly_ascending(a),
        strictly_ascending(b),
        a.to_set() == b.to_set(),
    ensures
        a == b,
    decreases a.len(),
{
    if a.len() == 0 {
        if b.len() > 0 {
            assert(b.to_set().contains(b[0]));
            assert(a.contains(b[0]));
        }
        assert(a =~= b);
    } else if b.len() == 0 {
        assert(a.to_set().contains(a[0]));
        assert(b.contains(a[0]));
    } else {
        // The last item of each list is the greatest of the common set.
        let x = a.last();
        let y = b.last();
        assert(a.to_set().contains(x));
        assert(b.contains(x));
        assert(b.to_set().contains(y));
        assert(a.contains(y));
        let i = choose|i: int| 0 <= i < b.len() && b[i] == x;
        let j = choose|j: int| 0 <= j < a.len() && a[j] == y;
        lemma_text_lt_is_strict_total_order(x, y, x);
        assert(x == y);
        let front_a = a.drop_last();
        let front_b = b.drop_last();
        assert forall|s: Seq<char>| front_a.to_set().contains(s) <==> front_b.to_set().contains(
            s,
        ) by {
            if front_a.contains(s) {
                let k = choose|k: int| 0 <= k < front_a.len() && front_a[k] == s;
                assert(a[k] == s);
                lemma_text_lt_is_strict_total_order(s, x, s);
                assert(a.to_set().contains(s));
                assert(b.contains(s));
                let m = choose|m: int| 0 <= m < b.len() && b[m] == s;
                assert(front_b[m] == s);
            }
            if front_b.contains(s) {
                let k = choose|k: int| 0 <= k < front_b.len() && front_b[k] == s;
                assert(b[k] == s);
                lemma_text_lt_is_strict_total_order(s, y, s);
                assert(b.to_set().contains(s));
                assert(a.contains(s));
                let m = choose|m: int| 0 <= m < a.len() && a[m] == s;
                assert(front_a[m] == s);
            }
        }
        assert(front_a.to_set() =~= front_b.to_set());
        assert forall|p: int, q: int| 0 <= p < q < front_a.len() implies text_lt(
            front_a[p],
            front_a[q],
        ) by {
            assert(front_a[p] == a[p] && front_a[q] == a[q]);
        }
        assert forall|p: int, q: int| 0 <= p < q < front_b.len() implies text_lt(
            front_b[p],
            front_b[q],
        ) by {
            assert(front_b[p] == b[p] && front_b[q] == b[q]);
        }
        law_ascending_list_is_unique(front_a, front_b);
        assert(a =~= front_a.push(x));
        assert(b =~= front_b.push(y));
    }
}

/// A trove without commands has no namespaces to list, whatever is
/// registered in it.
pub proof fn law_no_commands_no_namespaces(names: Seq<Seq<char>>)
    requires
        names.to_set() == namespaces_of(Seq::<CommandRecord>::empty()),
    ensures
        names == Seq::<Seq<char>>::empty(),
{
    if names.len() > 0 {
        assert(names.to_set().contains(names[0]));
        assert(has_namespace(Seq::<CommandRecord>::empty(), names[0]));
    }
    assert(names =~= Seq::<Seq<char>>::empty());
}

} // verus!
