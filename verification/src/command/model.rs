//! The mathematical model of command records and of a trove: what the
//! contracts of the executable functions speak about.

use vstd::prelude::*;

use crate::command::error::TroveError;

verus! {

/// The number of random characters that disambiguate a colliding name.
pub const SUFFIX_LENGTH: usize = 4;

/// The character that parts a name from its disambiguating suffix.
pub const SUFFIX_SEPARATOR: char = '-';

/// What one stored command holds.
#[verifier::ext_equal]
pub struct CommandRecord {
    pub name: Seq<char>,
    pub namespace: Seq<char>,
    pub command: Seq<char>,
    pub description: Seq<char>,
    pub tags: Seq<Seq<char>>,
}

impl CommandRecord {
    /// A record can be stored when it has a name and a command body.
    pub open spec fn is_valid(self) -> bool {
        self.name.len() > 0 && self.command.len() > 0
    }

    /// Two records collide when they share namespace and name.
    pub open spec fn collides_with(self, other: CommandRecord) -> bool {
        self.namespace == other.namespace && self.name == other.name
    }

    /// Two records are the same command when they collide and have the same
    /// command body. Description and tags play no part.
    pub open spec fn same_command_as(self, other: CommandRecord) -> bool {
        self.collides_with(other) && self.command == other.command
    }

    /// This record under another name.
    pub open spec fn renamed(self, name: Seq<char>) -> CommandRecord {
        CommandRecord { name, ..self }
    }

    /// This record with `suffix` appended to its name, behind the separator.
    pub open spec fn with_suffix(self, suffix: Seq<char>) -> CommandRecord {
        self.renamed(self.name.push(SUFFIX_SEPARATOR) + suffix)
    }
}

/// An ASCII letter or digit.
pub open spec fn is_alphanumeric(c: char) -> bool {
    ||| 'a' <= c <= 'z'
    ||| 'A' <= c <= 'Z'
    ||| '0' <= c <= '9'
}

/// What a randomly drawn name suffix looks like: `SUFFIX_LENGTH` ASCII
/// letters and digits.
pub open spec fn is_disambiguator(suffix: Seq<char>) -> bool {
    &&& suffix.len() == SUFFIX_LENGTH
    &&& forall|i: int| 0 <= i < suffix.len() ==> is_alphanumeric(#[trigger] suffix[i])
}

/// The items of `parts` in order, with `separator` between neighbours.
pub open spec fn joined(parts: Seq<Seq<char>>, separator: Seq<char>) -> Seq<char>
    decreases parts.len(),
{
    if parts.len() == 0 {
        Seq::empty()
    } else if parts.len() == 1 {
        parts[0]
    } else {
        joined(parts.drop_last(), separator) + separator + parts.last()
    }
}

/// The cells that show a record in a table: name, namespace, command body,
/// description, and the tags joined by commas.
pub open spec fn table_row_of(c: CommandRecord) -> Seq<Seq<char>> {
    seq![c.name, c.namespace, c.command, c.description, joined(c.tags, seq![','])]
}

/// Some stored record shares namespace and name with `c`.
pub open spec fn has_collision(commands: Seq<CommandRecord>, c: CommandRecord) -> bool {
    exists|i: int| 0 <= i < commands.len() && (#[trigger] commands[i]).collides_with(c)
}

/// `i` is the first position, in storage order, of a record that collides
/// with `c`.
pub open spec fn is_first_collision(
    commands: Seq<CommandRecord>,
    c: CommandRecord,
    i: int,
) -> bool {
    &&& 0 <= i < commands.len()
    &&& commands[i].collides_with(c)
    &&& forall|j: int| 0 <= j < i ==> !(#[trigger] commands[j]).collides_with(c)
}

/// The first stored record, in storage order, that collides with `c`.
/// Meaningful where `has_collision` holds.
pub open spec fn first_collision(commands: Seq<CommandRecord>, c: CommandRecord) -> CommandRecord {
    commands[choose|i: int| is_first_collision(commands, c, i)]
}

/// No two stored records share namespace and name.
pub open spec fn keys_unique(commands: Seq<CommandRecord>) -> bool {
    forall|i: int, j: int|
        0 <= i < j < commands.len() ==> !(#[trigger] commands[i]).collides_with(
            #[trigger] commands[j],
        )
}

/// The record at `i`, and no other stored record, shares namespace and name
/// with `c`.
pub open spec fn is_only_collision(commands: Seq<CommandRecord>, c: CommandRecord, i: int) -> bool {
    &&& 0 <= i < commands.len()
    &&& forall|j: int|
        0 <= j < commands.len() ==> ((#[trigger] commands[j]).collides_with(c) <==> j == i)
}

/// Exactly one stored record shares namespace and name with `c`.
pub open spec fn collides_once(commands: Seq<CommandRecord>, c: CommandRecord) -> bool {
    exists|i: int| is_only_collision(commands, c, i)
}

/// The record at `i`, and no other stored record, equals `x` in all fields.
pub open spec fn is_only_copy(commands: Seq<CommandRecord>, x: CommandRecord, i: int) -> bool {
    &&& 0 <= i < commands.len()
    &&& forall|j: int| 0 <= j < commands.len() ==> ((#[trigger] commands[j]) == x <==> j == i)
}

/// `x` is stored exactly once.
pub open spec fn occurs_once(commands: Seq<CommandRecord>, x: CommandRecord) -> bool {
    exists|i: int| is_only_copy(commands, x, i)
}

/// Some stored record is the same command as `c`.
pub open spec fn is_present(commands: Seq<CommandRecord>, c: CommandRecord) -> bool {
    exists|i: int| 0 <= i < commands.len() && (#[trigger] commands[i]).same_command_as(c)
}

/// Some stored record is called `name`, in whatever namespace.
pub open spec fn has_name(commands: Seq<CommandRecord>, name: Seq<char>) -> bool {
    exists|i: int| 0 <= i < commands.len() && (#[trigger] commands[i]).name == name
}

/// `i` is the first position, in storage order, of a record called `name`.
pub open spec fn is_first_named(commands: Seq<CommandRecord>, name: Seq<char>, i: int) -> bool {
    &&& 0 <= i < commands.len()
    &&& commands[i].name == name
    &&& forall|j: int| 0 <= j < i ==> (#[trigger] commands[j]).name != name
}

/// The first stored record, in storage order, that is called `name`.
/// Meaningful where `has_name` holds.
pub open spec fn first_named(commands: Seq<CommandRecord>, name: Seq<char>) -> CommandRecord {
    commands[choose|i: int| is_first_named(commands, name, i)]
}

/// Some stored record lives in `namespace`.
pub open spec fn has_namespace(commands: Seq<CommandRecord>, namespace: Seq<char>) -> bool {
    exists|i: int| 0 <= i < commands.len() && (#[trigger] commands[i]).namespace == namespace
}

/// The namespaces that the stored records live in.
pub open spec fn namespaces_of(commands: Seq<CommandRecord>) -> Set<Seq<char>> {
    Set::new(|namespace: Seq<char>| has_namespace(commands, namespace))
}

/// Holds of every record but the copies of `x`: the records that equal `x`
/// in all fields.
pub open spec fn differs_from(x: CommandRecord) -> spec_fn(CommandRecord) -> bool {
    |y: CommandRecord| y != x
}

/// Holds of every record that is not called `name`.
pub open spec fn not_named(name: Seq<char>) -> spec_fn(CommandRecord) -> bool {
    |y: CommandRecord| y.name != name
}

/// Holds of every record that lives outside `namespace`.
pub open spec fn outside_namespace(namespace: Seq<char>) -> spec_fn(CommandRecord) -> bool {
    |y: CommandRecord| y.namespace != namespace
}

/// `commands` without the copies of `x`, the rest in its order.
pub open spec fn without(commands: Seq<CommandRecord>, x: CommandRecord) -> Seq<CommandRecord> {
    commands.filter(differs_from(x))
}

/// `commands` without every record called `name`, the rest in its order.
pub open spec fn without_name(commands: Seq<CommandRecord>, name: Seq<char>) -> Seq<CommandRecord> {
    commands.filter(not_named(name))
}

/// `commands` without every record that lives in `namespace`, the rest in
/// its order.
pub open spec fn without_namespace(commands: Seq<CommandRecord>, namespace: Seq<char>) -> Seq<
    CommandRecord,
> {
    commands.filter(outside_namespace(namespace))
}

/// `commands` with every record that shares its name with `c` replaced by
/// `c`, in place.
pub open spec fn replaced_by_name(commands: Seq<CommandRecord>, c: CommandRecord) -> Seq<
    CommandRecord,
> {
    commands.map_values(
        |y: CommandRecord|
            if y.name == c.name {
                c
            } else {
                y
            },
    )
}

/// A trove: the version it was created with, the stored records in storage
/// order, and the namespaces registered when records were added.
#[verifier::ext_equal]
pub struct TroveModel {
    pub version: Seq<char>,
    pub commands: Seq<CommandRecord>,
    pub namespaces: Set<Seq<char>>,
}

impl TroveModel {
    /// The trove of version `version` that stores nothing.
    pub open spec fn empty(version: Seq<char>) -> TroveModel {
        TroveModel { version, commands: Seq::empty(), namespaces: Set::empty() }
    }

    /// Adding `c` has to store it under another name: it is valid, collides
    /// with a stored record without being the same command, and the caller
    /// does not want the stored record overwritten.
    pub open spec fn renames(self, c: CommandRecord, overwrite: bool) -> bool {
        &&& c.is_valid()
        &&& has_collision(self.commands, c)
        &&& !is_present(self.commands, c)
        &&& !overwrite
    }

    /// The trove after `c` was added. `suffix` is what disambiguates the name
    /// of `c`; it plays a part only where `renames` holds.
    pub open spec fn added(
        self,
        c: CommandRecord,
        overwrite: bool,
        suffix: Seq<char>,
    ) -> TroveModel {
        if !c.is_valid() || is_present(self.commands, c) {
            self
        } else if !has_collision(self.commands, c) {
            TroveModel {
                commands: self.commands.push(c),
                namespaces: self.namespaces.insert(c.namespace),
                ..self
            }
        } else if overwrite {
            TroveModel {
                commands: without(self.commands, first_collision(self.commands, c)).push(c),
                ..self
            }
        } else {
            TroveModel { commands: self.commands.push(c.with_suffix(suffix)), ..self }
        }
    }

    /// What adding `c` reports: a refusal for an invalid record, else whether
    /// the trove changed.
    pub open spec fn add_result(self, c: CommandRecord) -> Result<bool, TroveError> {
        if !c.is_valid() {
            Err(TroveError::InvalidCommand)
        } else {
            Ok(!is_present(self.commands, c))
        }
    }

    /// The trove after every record of `others` was added in order, each
    /// overwriting what it collides with.
    pub open spec fn merged(self, others: Seq<CommandRecord>) -> TroveModel
        decreases others.len(),
    {
        if others.len() == 0 {
            self
        } else {
            self.merged(others.drop_last()).added(others.last(), true, Seq::empty())
        }
    }

    /// Whether adding the records of `others` in order changed the trove at
    /// least once.
    pub open spec fn merge_changes(self, others: Seq<CommandRecord>) -> bool
        decreases others.len(),
    {
        if others.len() == 0 {
            false
        } else {
            ||| self.merge_changes(others.drop_last())
            ||| self.merged(others.drop_last()).add_result(others.last()) == Ok::<
                bool,
                TroveError,
            >(true)
        }
    }
}

/// A record appended brings its namespace along, and no other.
pub proof fn lemma_namespaces_of_push(commands: Seq<CommandRecord>, c: CommandRecord)
    ensures
        namespaces_of(commands.push(c)) == namespaces_of(commands).insert(c.namespace),
{
    let grown = commands.push(c);
    assert forall|s: Seq<char>| namespaces_of(grown).contains(s) <==> namespaces_of(
        commands,
    ).insert(c.namespace).contains(s) by {
        if has_namespace(commands, s) {
            let j = choose|j: int|
                0 <= j < commands.len() && (#[trigger] commands[j]).namespace == s;
            assert(grown[j].namespace == s);
        }
        if has_namespace(grown, s) {
            let j = choose|j: int| 0 <= j < grown.len() && (#[trigger] grown[j]).namespace == s;
            if j < commands.len() {
                assert(commands[j].namespace == s);
            }
        }
        assert(grown[commands.len() as int].namespace == c.namespace);
    }
    assert(namespaces_of(grown) =~= namespaces_of(commands).insert(c.namespace));
}

/// The first collision is found at the first colliding position.
pub proof fn lemma_first_collision(commands: Seq<CommandRecord>, c: CommandRecord, i: int)
    requires
        is_first_collision(commands, c, i),
    ensures
        has_collision(commands, c),
        first_collision(commands, c) == commands[i],
{
    let k = choose|k: int| is_first_collision(commands, c, k);
    assert(k == i) by {
        if k < i {
            assert(!commands[k].collides_with(c));
        } else if i < k {
            assert(!commands[i].collides_with(c));
        }
    }
}

/// Where a record collides, there is a first one that does.
pub proof fn lemma_some_collision_is_first(commands: Seq<CommandRecord>, c: CommandRecord, i: int)
    requires
        0 <= i < commands.len(),
        commands[i].collides_with(c),
    ensures
        exists|k: int| is_first_collision(commands, c, k),
    decreases i,
{
    if exists|j: int| 0 <= j < i && (#[trigger] commands[j]).collides_with(c) {
        let j = choose|j: int| 0 <= j < i && (#[trigger] commands[j]).collides_with(c);
        lemma_some_collision_is_first(commands, c, j);
    } else {
        assert(is_first_collision(commands, c, i));
    }
}

/// The first record of a name is found at the first position of that name.
pub proof fn lemma_first_named(commands: Seq<CommandRecord>, name: Seq<char>, i: int)
    requires
        is_first_named(commands, name, i),
    ensures
        has_name(commands, name),
        first_named(commands, name) == commands[i],
{
    let k = choose|k: int| is_first_named(commands, name, k);
    assert(k == i) by {
        if k < i {
            assert(commands[k].name != name);
        } else if i < k {
            assert(commands[i].name != name);
        }
    }
}

} // verus!
