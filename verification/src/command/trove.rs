//! The collection manager: a trove of command records.

use vstd::prelude::*;

use crate::command::error::TroveError;
use crate::command::hoard_command::HoardCommand;
use crate::command::model::{
    differs_from, first_collision, first_named, has_collision, has_name, has_namespace,
    is_disambiguator, is_first_collision, is_first_named, is_present, lemma_first_collision,
    lemma_first_named, lemma_namespaces_of_push, namespaces_of, not_named, outside_namespace,
    replaced_by_name, table_row_of, without, without_name, without_namespace, CommandRecord,
    TroveModel,
};
use crate::config::HoardConfig;
use crate::text::{insert_ascending, str_eq, strictly_ascending};

verus! {

/// The version that a freshly created trove is stamped with.
pub const CARGO_VERSION: &'static str = "0.1.0";

/// The titles of the columns of a trove shown as a table.
pub const TABLE_HEADER: [&'static str; 5] = ["Name", "namespace", "command", "description", "tags"];

/// The records behind a vector of commands, in order.
pub open spec fn records(commands: Seq<HoardCommand>) -> Seq<CommandRecord> {
    commands.map_values(|c: HoardCommand| c@)
}

/// Container for all stored commands.
///
/// - `version`: the version the trove was created with, kept so that older
///   collections can be migrated
/// - `commands`: the stored commands, in storage order
/// - `namespaces`: the namespaces registered when commands were added; it is
///   not pruned when commands are removed
#[derive(Debug)]
pub struct Trove {
    pub version: String,
    pub commands: Vec<HoardCommand>,
    pub namespaces: Vec<String>,
}

impl View for Trove {
    type V = TroveModel;

    open spec fn view(&self) -> TroveModel {
        TroveModel {
            version: self.version@,
            commands: records(self.commands@),
            namespaces: self.namespaces.deep_view().to_set(),
        }
    }
}

/// `command`, `token` and `ending_token` are what an engine is handed for the
/// record `picked` under `config`: a copy of the record and the two parameter
/// markers.
pub open spec fn hands_over(
    command: HoardCommand,
    token: &str,
    ending_token: &str,
    picked: CommandRecord,
    config: &HoardConfig,
) -> bool {
    &&& command@ == picked
    &&& config.parameter_token matches Some(configured) && token@ == configured@
    &&& config.parameter_ending_token matches Some(configured) && ending_token@ == configured@
}

/// `engine` can be called with what it is handed for `picked` under `config`.
pub open spec fn takes<F: FnOnce(HoardCommand, &str, &str) -> HoardCommand>(
    engine: F,
    picked: CommandRecord,
    config: &HoardConfig,
) -> bool {
    forall|command: HoardCommand, token: &str, ending_token: &str|
        hands_over(command, token, ending_token, picked, config) ==> call_requires(
            engine,
            (command, token, ending_token),
        )
}

/// `resolved` is what `engine` returned when it was handed a copy of `picked`
/// and the parameter markers of `config`.
pub open spec fn makes<F: FnOnce(HoardCommand, &str, &str) -> HoardCommand>(
    engine: F,
    picked: CommandRecord,
    config: &HoardConfig,
    resolved: HoardCommand,
) -> bool {
    exists|command: HoardCommand, token: &str, ending_token: &str|
        hands_over(command, token, ending_token, picked, config) && call_ensures(
            engine,
            (command, token, ending_token),
            resolved,
        )
}

/// Which stored commands a removal takes out.
enum Discard<'a> {
    /// The commands that equal this one in all fields.
    CopiesOf(&'a HoardCommand),
    /// The commands of this name.
    Named(&'a str),
    /// The commands in this namespace.
    InNamespace(&'a str),
}

impl<'a> Discard<'a> {
    /// Holds of the records that stay.
    spec fn keeps(&self) -> spec_fn(CommandRecord) -> bool {
        match *self {
            Discard::CopiesOf(c) => differs_from(c@),
            Discard::Named(name) => not_named(name@),
            Discard::InNamespace(namespace) => outside_namespace(namespace@),
        }
    }

    /// Whether `c` is to be taken out.
    fn discards(&self, c: &HoardCommand) -> (r: bool)
        ensures
            r == !(self.keeps())(c@),
    {
        match self {
            Discard::CopiesOf(x) => c == *x,
            Discard::Named(name) => str_eq(c.name.as_str(), name),
            Discard::InNamespace(namespace) => str_eq(c.namespace.as_str(), namespace),
        }
    }
}

/// How the trove takes in a command that is offered to it.
#[derive(Clone, Copy)]
enum Resolution {
    /// The command is invalid and is refused.
    Refuse,
    /// The same command is stored already: nothing changes.
    Keep,
    /// Nothing collides with the command: it is appended.
    Append,
    /// The command replaces the copies of the stored command at this
    /// position, the first it collides with.
    Replace(usize),
    /// The command is appended under a disambiguated name.
    Rename,
}

impl Clone for Trove {
    fn clone(&self) -> (r: Self)
        ensures
            r@ == self@,
            r.namespaces.deep_view() == self.namespaces.deep_view(),
    {
        let mut commands: Vec<HoardCommand> = Vec::new();
        let mut i: usize = 0;
        while i < self.commands.len()
            invariant
                i <= self.commands.len(),
                records(commands@) == self@.commands.take(i as int),
            decreases self.commands.len() - i,
        {
            let ghost copied = records(commands@);
            commands.push(self.commands[i].clone());
            assert(records(commands@) =~= copied.push(self.commands[i as int]@));
            assert(self@.commands.take(i + 1) =~= self@.commands.take(i as int).push(
                self.commands[i as int]@,
            ));
            i += 1;
        }
        assert(self@.commands.take(i as int) =~= self@.commands);
        let mut namespaces: Vec<String> = Vec::new();
        let mut j: usize = 0;
        while j < self.namespaces.len()
            invariant
                j <= self.namespaces.len(),
                namespaces.deep_view() == self.namespaces.deep_view().take(j as int),
            decreases self.namespaces.len() - j,
        {
            let ghost copied = namespaces.deep_view();
            namespaces.push(self.namespaces[j].clone());
            assert(namespaces.deep_view() =~= copied.push(self.namespaces[j as int]@));
            assert(self.namespaces.deep_view().take(j + 1) =~= self.namespaces.deep_view().take(
                j as int,
            ).push(self.namespaces[j as int]@));
            j += 1;
        }
        assert(self.namespaces.deep_view().take(j as int) =~= self.namespaces.deep_view());
        Trove { version: self.version.clone(), commands, namespaces }
    }
}

impl Default for Trove {
    /// A new, empty trove stamped with the current version.
    fn default() -> (r: Self)
        ensures
            r@ == TroveModel::empty(CARGO_VERSION@),
            r.wf(),
    {
        let r = Trove {
            version: CARGO_VERSION.to_owned(),
            commands: Vec::new(),
            namespaces: Vec::new(),
        };
        assert(r@.commands =~= Seq::empty());
        assert(r@.namespaces =~= Set::empty());
        r
    }
}

impl Trove {
    /// No namespace is registered twice.
    pub open spec fn wf(&self) -> bool {
        self.namespaces.deep_view().no_duplicates()
    }

    /// A new trove that stores copies of `commands` in their order, stamped
    /// with the current version, with the namespaces of the commands
    /// registered.
    pub fn from_commands(commands: &[HoardCommand]) -> (r: Self)
        ensures
            r@ == (TroveModel {
                version: CARGO_VERSION@,
                commands: records(commands@),
                namespaces: namespaces_of(records(commands@)),
            }),
            r.wf(),
    {
        let mut trove = Trove::default();
        let mut i: usize = 0;
        assert(namespaces_of(records(commands@.take(0))) =~= Set::empty());
        while i < commands.len()
            invariant
                i <= commands.len(),
                trove.wf(),
                trove@ == (TroveModel {
                    version: CARGO_VERSION@,
                    commands: records(commands@.take(i as int)),
                    namespaces: namespaces_of(records(commands@.take(i as int))),
                }),
            decreases commands.len() - i,
        {
            trove.add_namespace(commands[i].namespace.as_str());
            trove.commands.push(commands[i].clone());
            proof {
                let seen = records(commands@.take(i as int));
                let grown = records(commands@.take(i + 1));
                assert(grown =~= seen.push(commands[i as int]@));
                assert(trove@.commands =~= grown);
                lemma_namespaces_of_push(seen, commands[i as int]@);
            }
            i += 1;
        }
        assert(commands@.take(i as int) =~= commands@);
        trove
    }

    /// The trove that a load ends with: the decoded one, or a new, empty
    /// trove where decoding failed.
    pub fn or_default(decoded: Option<Trove>) -> (r: Self)
        ensures
            match decoded {
                Some(trove) => r == trove,
                None => r@ == TroveModel::empty(CARGO_VERSION@) && r.wf(),
            },
    {
        match decoded {
            Some(trove) => trove,
            None => Trove::default(),
        }
    }

    /// The position of the first stored command that shares namespace and
    /// name with `command`.
    fn collision_index(&self, command: &HoardCommand) -> (r: Option<usize>)
        ensures
            match r {
                Some(i) => is_first_collision(self@.commands, command@, i as int),
                None => !has_collision(self@.commands, command@),
            },
    {
        let mut i: usize = 0;
        while i < self.commands.len()
            invariant
                i <= self.commands.len(),
                forall|j: int|
                    0 <= j < i ==> !(#[trigger] self@.commands[j]).collides_with(command@),
            decreases self.commands.len() - i,
        {
            let c = &self.commands[i];
            if str_eq(c.namespace.as_str(), command.namespace.as_str()) && str_eq(
                c.name.as_str(),
                command.name.as_str(),
            ) {
                return Some(i);
            }
            i += 1;
        }
        None
    }

    /// The stored command that shares namespace and name with `command`, the
    /// first in storage order if there are several.
    pub fn get_command_collision(&self, command: &HoardCommand) -> (r: Option<HoardCommand>)
        ensures
            r is Some <==> has_collision(self@.commands, command@),
            r matches Some(found) ==> found@ == first_collision(self@.commands, command@),
    {
        match self.collision_index(command) {
            Some(i) => {
                proof {
                    lemma_first_collision(self@.commands, command@, i as int);
                }
                Some(self.commands[i].clone())
            },
            None => None,
        }
    }

    /// Whether a stored command has the namespace, the name and the command
    /// body of `command`. Such a command counts as the same command.
    pub fn is_command_present(&self, command: &HoardCommand) -> (r: bool)
        ensures
            r == is_present(self@.commands, command@),
    {
        let mut i: usize = 0;
        while i < self.commands.len()
            invariant
                i <= self.commands.len(),
                forall|j: int|
                    0 <= j < i ==> !(#[trigger] self@.commands[j]).same_command_as(command@),
            decreases self.commands.len() - i,
        {
            let c = &self.commands[i];
            if str_eq(c.namespace.as_str(), command.namespace.as_str()) && str_eq(
                c.name.as_str(),
                command.name.as_str(),
            ) && str_eq(c.command.as_str(), command.command.as_str()) {
                assert(self@.commands[i as int].same_command_as(command@));
                return true;
            }
            i += 1;
        }
        false
    }

    /// Whether `discard` names a stored command.
    fn stores_discarded(&self, discard: &Discard) -> (r: bool)
        ensures
            r == exists|i: int|
                0 <= i < self@.commands.len() && !(discard.keeps())(#[trigger] self@.commands[i]),
    {
        let mut i: usize = 0;
        while i < self.commands.len()
            invariant
                i <= self.commands.len(),
                forall|j: int| 0 <= j < i ==> (discard.keeps())(#[trigger] self@.commands[j]),
            decreases self.commands.len() - i,
        {
            if discard.discards(&self.commands[i]) {
                assert(!(discard.keeps())(self@.commands[i as int]));
                return true;
            }
            i += 1;
        }
        false
    }

    /// Takes out the commands that `discard` names and keeps the others in
    /// their order.
    fn remove_discarded(&mut self, discard: &Discard)
        ensures
            final(self)@ == (TroveModel {
                commands: old(self)@.commands.filter(discard.keeps()),
                ..old(self)@
            }),
            final(self).namespaces == old(self).namespaces,
    {
        let ghost before = self@.commands;
        let ghost keeps = discard.keeps();
        let ghost mut seen: int = 0;
        let mut i: usize = 0;
        proof {
            assert(before.take(0) =~= Seq::empty());
            assert(before.skip(0) =~= before);
            reveal(Seq::filter);
        }
        while i < self.commands.len()
            invariant
                self.version == old(self).version,
                self.namespaces == old(self).namespaces,
                before == old(self)@.commands,
                keeps == discard.keeps(),
                0 <= seen <= before.len(),
                i == before.take(seen).filter(keeps).len(),
                self@.commands == before.take(seen).filter(keeps) + before.skip(seen),
            decreases before.len() - seen,
        {
            let ghost current = self@.commands;
            assert(current[i as int] == before.skip(seen)[0]);
            assert(before.take(seen + 1) =~= before.take(seen).push(before[seen]));
            proof {
                before.take(seen).lemma_filter_push(before[seen], keeps);
            }
            if discard.discards(&self.commands[i]) {
                self.commands.remove(i);
                assert(self@.commands =~= current.remove(i as int));
                assert(!keeps(before[seen]));
                assert(current.remove(i as int) =~= before.take(seen).filter(keeps) + before.skip(
                    seen + 1,
                ));
                assert(self@.commands =~= before.take(seen + 1).filter(keeps) + before.skip(
                    seen + 1,
                ));
            } else {
                assert(self@.commands =~= before.take(seen + 1).filter(keeps) + before.skip(
                    seen + 1,
                ));
                i += 1;
            }
            proof {
                seen = seen + 1;
            }
        }
        proof {
            assert(before.skip(seen).len() == 0);
            assert(before.take(seen) =~= before);
            assert(self@.commands =~= before.filter(keeps));
        }
    }

    /// Registers `namespace` unless it is registered already.
    pub fn add_namespace(&mut self, namespace: &str)
        ensures
            final(self)@ == (TroveModel {
                namespaces: old(self)@.namespaces.insert(namespace@),
                ..old(self)@
            }),
            old(self).wf() ==> final(self).wf(),
    {
        let mut i: usize = 0;
        while i < self.namespaces.len()
            invariant
                i <= self.namespaces.len(),
                *self == *old(self),
                forall|j: int| 0 <= j < i ==> self.namespaces[j]@ != namespace@,
            decreases self.namespaces.len() - i,
        {
            if str_eq(self.namespaces[i].as_str(), namespace) {
                proof {
                    let known = self.namespaces.deep_view();
                    assert(known[i as int] == namespace@);
                    assert(known.to_set() =~= known.to_set().insert(namespace@));
                }
                return ;
            }
            i += 1;
        }
        let ghost known = self.namespaces.deep_view();
        self.namespaces.push(namespace.to_owned());
        proof {
            assert(self.namespaces.deep_view() =~= known.push(namespace@));
            known.lemma_push_to_set_commute(namespace@);
        }
    }

    /// Decides how `command` is taken in, without changing anything.
    fn resolve(&self, command: &HoardCommand, overwrite_colliding: bool) -> (r: Resolution)
        ensures
            match r {
                Resolution::Refuse => !command@.is_valid(),
                Resolution::Keep => command@.is_valid() && is_present(self@.commands, command@),
                Resolution::Append => command@.is_valid() && !has_collision(
                    self@.commands,
                    command@,
                ),
                Resolution::Replace(i) => {
                    &&& command@.is_valid()
                    &&& !is_present(self@.commands, command@)
                    &&& overwrite_colliding
                    &&& is_first_collision(self@.commands, command@, i as int)
                },
                Resolution::Rename => self@.renames(command@, overwrite_colliding),
            },
    {
        if !command.is_valid() {
            return Resolution::Refuse;
        }
        match self.collision_index(command) {
            None => Resolution::Append,
            Some(i) => {
                proof {
                    lemma_first_collision(self@.commands, command@, i as int);
                }
                if self.is_command_present(command) {
                    Resolution::Keep
                } else if overwrite_colliding {
                    Resolution::Replace(i)
                } else {
                    Resolution::Rename
                }
            },
        }
    }

    /// Carries out `resolution` with `command`, which for a renaming is the
    /// command under its new name.
    fn settle(&mut self, resolution: Resolution, command: HoardCommand) -> (r: Result<
        bool,
        TroveError,
    >)
        requires
            resolution matches Resolution::Replace(i) ==> i < old(self)@.commands.len(),
        ensures
            match resolution {
                Resolution::Refuse => r == Err::<bool, TroveError>(TroveError::InvalidCommand)
                    && final(self)@ == old(self)@,
                Resolution::Keep => r == Ok::<bool, TroveError>(false) && final(self)@ == old(
                    self,
                )@,
                Resolution::Append => r == Ok::<bool, TroveError>(true) && final(self)@ == (
                TroveModel {
                    commands: old(self)@.commands.push(command@),
                    namespaces: old(self)@.namespaces.insert(command@.namespace),
                    ..old(self)@
                }),
                Resolution::Replace(i) => r == Ok::<bool, TroveError>(true) && final(self)@ == (
                TroveModel {
                    commands: without(old(self)@.commands, old(self)@.commands[i as int]).push(
                        command@,
                    ),
                    ..old(self)@
                }),
                Resolution::Rename => r == Ok::<bool, TroveError>(true) && final(self)@ == (
                TroveModel { commands: old(self)@.commands.push(command@), ..old(self)@ }),
            },
            old(self).wf() ==> final(self).wf(),
    {
        match resolution {
            Resolution::Refuse => Err(TroveError::InvalidCommand),
            Resolution::Keep => Ok(false),
            Resolution::Append => {
                self.add_namespace(command.namespace.as_str());
                let ghost registered = self@;
                self.commands.push(command);
                assert(self@.commands =~= registered.commands.push(command@));
                Ok(true)
            },
            Resolution::Replace(i) => {
                let replaced = self.commands[i].clone();
                self.remove_discarded(&Discard::CopiesOf(&replaced));
                let ghost cleared = self@;
                self.commands.push(command);
                assert(self@.commands =~= cleared.commands.push(command@));
                Ok(true)
            },
            Resolution::Rename => {
                let ghost before = self@;
                self.commands.push(command);
                assert(self@.commands =~= before.commands.push(command@));
                Ok(true)
            },
        }
    }

    /// Adds a command to the trove.
    ///
    /// An invalid command is refused and nothing changes. Otherwise the
    /// result says whether the trove changed:
    /// - a command that is stored already, with the same namespace, name and
    ///   command body, changes nothing;
    /// - a command that shares namespace and name with a stored one replaces
    ///   it if `overwrite_colliding` is set, and else is stored beside it
    ///   under its name with a random suffix;
    /// - any other command is appended, and its namespace is registered.
    pub fn add_command(&mut self, new_command: HoardCommand, overwrite_colliding: bool) -> (r:
        Result<bool, TroveError>)
        ensures
            r == old(self)@.add_result(new_command@),
            old(self)@.renames(new_command@, overwrite_colliding) ==> exists|suffix: Seq<char>|
                is_disambiguator(suffix) && final(self)@ == old(self)@.added(
                    new_command@,
                    overwrite_colliding,
                    suffix,
                ),
            !old(self)@.renames(new_command@, overwrite_colliding) ==> final(self)@ == old(
                self,
            )@.added(new_command@, overwrite_colliding, Seq::empty()),
            old(self).wf() ==> final(self).wf(),
    {
        let resolution = self.resolve(&new_command, overwrite_colliding);
        let stored = match resolution {
            Resolution::Rename => new_command.with_random_name_suffix(),
            _ => new_command,
        };
        proof {
            if let Resolution::Replace(i) = resolution {
                lemma_first_collision(self@.commands, new_command@, i as int);
            }
        }
        self.settle(resolution, stored)
    }

    /// Adds a command as `add_command` does, with `suffix` in place of the
    /// random suffix where the command has to be stored under another name.
    pub fn add_command_with_suffix(
        &mut self,
        new_command: HoardCommand,
        overwrite_colliding: bool,
        suffix: &str,
    ) -> (r: Result<bool, TroveError>)
        ensures
            r == old(self)@.add_result(new_command@),
            final(self)@ == old(self)@.added(new_command@, overwrite_colliding, suffix@),
            old(self).wf() ==> final(self).wf(),
    {
        let resolution = self.resolve(&new_command, overwrite_colliding);
        let stored = match resolution {
            Resolution::Rename => new_command.with_name_suffix(suffix),
            _ => new_command,
        };
        proof {
            if let Resolution::Replace(i) = resolution {
                lemma_first_collision(self@.commands, new_command@, i as int);
            }
        }
        self.settle(resolution, stored)
    }

    /// Removes every command called `name`, whatever its namespace. Fails,
    /// and changes nothing, if no command is called `name`.
    pub fn remove_command(&mut self, name: &str) -> (r: Result<(), TroveError>)
        ensures
            has_name(old(self)@.commands, name@) ==> r == Ok::<(), TroveError>(()) && final(self)@
                == (TroveModel {
                commands: without_name(old(self)@.commands, name@),
                ..old(self)@
            }),
            !has_name(old(self)@.commands, name@) ==> r == Err::<(), TroveError>(
                TroveError::NotFound,
            ) && final(self)@ == old(self)@,
            final(self).namespaces == old(self).namespaces,
    {
        let discard = Discard::Named(name);
        if !self.stores_discarded(&discard) {
            return Err(TroveError::NotFound);
        }
        assert(has_name(self@.commands, name@)) by {
            let i = choose|i: int|
                0 <= i < self@.commands.len() && !(discard.keeps())(#[trigger] self@.commands[i]);
            assert(self@.commands[i].name == name@);
        }
        self.remove_discarded(&discard);
        Ok(())
    }

    /// Removes every command that lives in `namespace`. Fails, and changes
    /// nothing, if no command lives there. The namespace stays registered.
    pub fn remove_namespace_commands(&mut self, namespace: &str) -> (r: Result<(), TroveError>)
        ensures
            has_namespace(old(self)@.commands, namespace@) ==> r == Ok::<(), TroveError>(())
                && final(self)@ == (TroveModel {
                commands: without_namespace(old(self)@.commands, namespace@),
                ..old(self)@
            }),
            !has_namespace(old(self)@.commands, namespace@) ==> r == Err::<(), TroveError>(
                TroveError::NotFound,
            ) && final(self)@ == old(self)@,
            final(self).namespaces == old(self).namespaces,
    {
        let discard = Discard::InNamespace(namespace);
        if !self.stores_discarded(&discard) {
            return Err(TroveError::NotFound);
        }
        assert(has_namespace(self@.commands, namespace@)) by {
            let i = choose|i: int|
                0 <= i < self@.commands.len() && !(discard.keeps())(#[trigger] self@.commands[i]);
            assert(self@.commands[i].namespace == namespace@);
        }
        self.remove_discarded(&discard);
        Ok(())
    }

    /// Replaces every stored command that shares its name with `command` by
    /// a copy of `command`, in place. Nothing changes if no stored command
    /// has that name.
    pub fn update_command_by_name(&mut self, command: &HoardCommand) -> (r: &mut Self)
        ensures
            *final(self) == *final(r),
            r@ == (TroveModel {
                commands: replaced_by_name(old(self)@.commands, command@),
                ..old(self)@
            }),
            r.namespaces == old(self).namespaces,
    {
        let mut i: usize = 0;
        while i < self.commands.len()
            invariant
                i <= self.commands.len(),
                self.version == old(self).version,
                self.namespaces == old(self).namespaces,
                self.commands.len() == old(self).commands.len(),
                forall|j: int|
                    0 <= j < i ==> #[trigger] self@.commands[j] == replaced_by_name(
                        old(self)@.commands,
                        command@,
                    )[j],
                forall|j: int|
                    i <= j < self.commands.len() ==> #[trigger] self@.commands[j] == old(
                        self,
                    )@.commands[j],
            decreases self.commands.len() - i,
        {
            let ghost before = self@.commands;
            assert(before[i as int] == old(self)@.commands[i as int]);
            assert(before[i as int].name == self.commands[i as int].name@);
            if str_eq(self.commands[i].name.as_str(), command.name.as_str()) {
                self.commands.set(i, command.clone());
                assert(self@.commands =~= before.update(i as int, command@));
            }
            assert(self@.commands[i as int] == replaced_by_name(
                old(self)@.commands,
                command@,
            )[i as int]);
            assert forall|j: int| 0 <= j < i implies #[trigger] self@.commands[j]
                == replaced_by_name(old(self)@.commands, command@)[j] by {
                assert(self@.commands[j] == before[j]);
            }
            i += 1;
        }
        assert(self@.commands =~= replaced_by_name(old(self)@.commands, command@));
        self
    }

    /// The namespaces that the stored commands live in, each once, in
    /// ascending order. The list is derived from the commands on every call;
    /// the registered namespaces play no part, so that a namespace whose
    /// commands were all removed does not show.
    pub fn namespaces(&self) -> (r: Vec<&str>)
        ensures
            strictly_ascending(r.deep_view()),
            r.deep_view().to_set() == namespaces_of(self@.commands),
    {
        let mut sorted: Vec<&str> = Vec::new();
        let mut i: usize = 0;
        assert(sorted.deep_view().to_set() =~= namespaces_of(self@.commands.take(0)));
        while i < self.commands.len()
            invariant
                i <= self.commands.len(),
                strictly_ascending(sorted.deep_view()),
                sorted.deep_view().to_set() == namespaces_of(self@.commands.take(i as int)),
            decreases self.commands.len() - i,
        {
            insert_ascending(&mut sorted, self.commands[i].namespace.as_str());
            proof {
                let seen = self@.commands.take(i as int);
                assert(self@.commands.take(i + 1) =~= seen.push(self@.commands[i as int]));
                lemma_namespaces_of_push(seen, self@.commands[i as int]);
            }
            i += 1;
        }
        assert(self@.commands.take(i as int) =~= self@.commands);
        sorted
    }

    /// The position of the first stored command called `name`.
    fn name_index(&self, name: &str) -> (r: Option<usize>)
        ensures
            match r {
                Some(i) => is_first_named(self@.commands, name@, i as int),
                None => !has_name(self@.commands, name@),
            },
    {
        let mut i: usize = 0;
        while i < self.commands.len()
            invariant
                i <= self.commands.len(),
                forall|j: int| 0 <= j < i ==> (#[trigger] self@.commands[j]).name != name@,
            decreases self.commands.len() - i,
        {
            if str_eq(self.commands[i].name.as_str(), name) {
                return Some(i);
            }
            i += 1;
        }
        None
    }

    /// Picks the first stored command called `name`, whatever its namespace,
    /// and hands a copy of it to `engine` together with the two parameter
    /// markers of `config`. What `engine` makes of it, the command with its
    /// parameters filled in, is the result. Fails if no command is called
    /// `name`; `engine` is not called then.
    pub fn pick_command<F>(&self, config: &HoardConfig, name: &str, engine: F) -> (r: Result<
        HoardCommand,
        TroveError,
    >) where F: FnOnce(HoardCommand, &str, &str) -> HoardCommand
        requires
            has_name(self@.commands, name@) ==> config.has_tokens(),
            has_name(self@.commands, name@) ==> takes(
                engine,
                first_named(self@.commands, name@),
                config,
            ),
        ensures
            !has_name(self@.commands, name@) ==> r == Err::<HoardCommand, TroveError>(
                TroveError::NotFound,
            ),
            has_name(self@.commands, name@) ==> r is Ok && makes(
                engine,
                first_named(self@.commands, name@),
                config,
                r->Ok_0,
            ),
    {
        match self.name_index(name) {
            None => Err(TroveError::NotFound),
            Some(i) => {
                proof {
                    lemma_first_named(self@.commands, name@, i as int);
                }
                let picked = self.commands[i].clone();
                let token = match &config.parameter_token {
                    Some(token) => token.as_str(),
                    None => "",
                };
                let ending_token = match &config.parameter_ending_token {
                    Some(ending_token) => ending_token.as_str(),
                    None => "",
                };
                let ghost handed = picked;
                assert(hands_over(handed, token, ending_token, picked@, config));
                let resolved = engine(picked, token, ending_token);
                assert(hands_over(handed, token, ending_token, handed@, config) && call_ensures(
                    engine,
                    (handed, token, ending_token),
                    resolved,
                ));
                Ok(resolved)
            },
        }
    }

    /// Adds a copy of every command of `other`, in order, each replacing
    /// what it collides with. An invalid command of `other` is passed over.
    /// The result says whether this trove changed, that is whether at least
    /// one command was added; every command of `other` gets its turn in any
    /// case.
    pub fn merge_trove(&mut self, other: &Self) -> (r: bool)
        ensures
            final(self)@ == old(self)@.merged(other@.commands),
            r == old(self)@.merge_changes(other@.commands),
            old(self).wf() ==> final(self).wf(),
    {
        let mut changed = false;
        let mut i: usize = 0;
        assert(other@.commands.take(0) =~= Seq::empty());
        while i < other.commands.len()
            invariant
                i <= other.commands.len(),
                self@ == old(self)@.merged(other@.commands.take(i as int)),
                changed == old(self)@.merge_changes(other@.commands.take(i as int)),
                old(self).wf() ==> self.wf(),
            decreases other.commands.len() - i,
        {
            proof {
                let grown = other@.commands.take(i + 1);
                assert(grown.drop_last() =~= other@.commands.take(i as int));
                assert(grown.last() == other.commands[i as int]@);
            }
            let added = self.add_command(other.commands[i].clone(), true);
            if let Ok(true) = added {
                changed = true;
            }
            i += 1;
        }
        assert(other@.commands.take(i as int) =~= other@.commands);
        changed
    }

    /// The stored commands as the rows of a table, in storage order, under
    /// the columns of `TABLE_HEADER`.
    pub fn table_rows(&self) -> (r: Vec<Vec<String>>)
        ensures
            r.len() == self@.commands.len(),
            forall|i: int|
                0 <= i < r.len() ==> (#[trigger] r[i]).deep_view() == table_row_of(
                    self@.commands[i],
                ),
    {
        let mut rows: Vec<Vec<String>> = Vec::new();
        let mut i: usize = 0;
        while i < self.commands.len()
            invariant
                i <= self.commands.len(),
                rows.len() == i,
                forall|j: int|
                    0 <= j < i ==> (#[trigger] rows[j]).deep_view() == table_row_of(
                        self@.commands[j],
                    ),
            decreases self.commands.len() - i,
        {
            rows.push(self.commands[i].table_row());
            i += 1;
        }
        rows
    }

    /// Whether the trove stores no command.
    pub fn is_empty(&self) -> (r: bool)
        ensures
            r == (self@.commands.len() == 0),
    {
        self.commands.is_empty()
    }
}

} // verus!
