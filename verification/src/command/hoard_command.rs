//! One stored command: a name, a namespace, the command template, and what
//! describes it.

use vstd::prelude::*;
use vstd::string::StringExecFns;

use crate::command::model::{
    is_alphanumeric, is_disambiguator, joined, table_row_of, CommandRecord, SUFFIX_LENGTH,
};
use crate::text::str_eq;

verus! {

/// A named, namespaced command snippet.
#[derive(Debug)]
pub struct HoardCommand {
    pub name: String,
    pub namespace: String,
    pub tags: Vec<String>,
    pub command: String,
    pub description: String,
}

impl View for HoardCommand {
    type V = CommandRecord;

    open spec fn view(&self) -> CommandRecord {
        CommandRecord {
            name: self.name@,
            namespace: self.namespace@,
            command: self.command@,
            description: self.description@,
            tags: self.tags.deep_view(),
        }
    }
}

impl Default for HoardCommand {
    /// The empty record: no name, no namespace, no command, no description,
    /// no tags.
    fn default() -> (r: Self)
        ensures
            r@ == (CommandRecord {
                name: Seq::empty(),
                namespace: Seq::empty(),
                command: Seq::empty(),
                description: Seq::empty(),
                tags: Seq::empty(),
            }),
    {
        let r = HoardCommand {
            name: String::new(),
            namespace: String::new(),
            tags: Vec::new(),
            command: String::new(),
            description: String::new(),
        };
        assert(r.tags.deep_view() =~= Seq::<Seq<char>>::empty());
        r
    }
}

/// A copy of `tags`, string by string.
fn copy_of_tags(tags: &Vec<String>) -> (r: Vec<String>)
    ensures
        r.deep_view() == tags.deep_view(),
{
    let mut r: Vec<String> = Vec::new();
    let mut i: usize = 0;
    while i < tags.len()
        invariant
            i <= tags.len(),
            r.len() == i,
            forall|j: int| 0 <= j < i ==> r[j]@ == tags[j]@,
        decreases tags.len() - i,
    {
        r.push(tags[i].clone());
        i += 1;
    }
    assert(r.deep_view() =~= tags.deep_view());
    r
}

impl Clone for HoardCommand {
    fn clone(&self) -> (r: Self)
        ensures
            r@ == self@,
    {
        HoardCommand {
            name: self.name.clone(),
            namespace: self.namespace.clone(),
            tags: copy_of_tags(&self.tags),
            command: self.command.clone(),
            description: self.description.clone(),
        }
    }
}

/// Whether two tag lists hold the same tags in the same order.
fn same_tags(a: &Vec<String>, b: &Vec<String>) -> (r: bool)
    ensures
        r == (a.deep_view() == b.deep_view()),
{
    if a.len() != b.len() {
        assert(a.deep_view().len() != b.deep_view().len());
        return false;
    }
    let mut i: usize = 0;
    while i < a.len()
        invariant
            i <= a.len(),
            a.len() == b.len(),
            forall|j: int| 0 <= j < i ==> a[j]@ == b[j]@,
        decreases a.len() - i,
    {
        if !str_eq(a[i].as_str(), b[i].as_str()) {
            assert(a.deep_view()[i as int] != b.deep_view()[i as int]);
            return false;
        }
        i += 1;
    }
    assert(a.deep_view() =~= b.deep_view());
    true
}

impl PartialEq for HoardCommand {
    /// Two commands are equal when all their fields are.
    fn eq(&self, other: &Self) -> (r: bool) {
        str_eq(self.name.as_str(), other.name.as_str()) && str_eq(
            self.namespace.as_str(),
            other.namespace.as_str(),
        ) && str_eq(self.command.as_str(), other.command.as_str()) && str_eq(
            self.description.as_str(),
            other.description.as_str(),
        ) && same_tags(&self.tags, &other.tags)
    }
}

impl vstd::std_specs::cmp::PartialEqSpecImpl for HoardCommand {
    open spec fn obeys_eq_spec() -> bool {
        true
    }

    open spec fn eq_spec(&self, other: &Self) -> bool {
        self@ == other@
    }
}

impl Eq for HoardCommand {

}

/// Draws `len` characters at random, each an ASCII letter or digit.
///
/// Trusted: the body calls `sample_string` of rand's `Alphanumeric`
/// distribution on the thread-local generator. The contract claims what rand
/// documents of every outcome, the length and the alphabet, and nothing of
/// which characters come out. The generator panics where the operating
/// system cannot seed it.
#[verifier::external_body]
fn random_alphanumeric(len: usize) -> (r: String)
    ensures
        r@.len() == len,
        forall|i: int| 0 <= i < r@.len() ==> is_alphanumeric(#[trigger] r@[i]),
{
    rand::distributions::DistString::sample_string(
        &rand::distributions::Alphanumeric,
        &mut rand::thread_rng(),
        len,
    )
}

impl HoardCommand {
    /// Whether the record can be stored: it needs a name and a command body.
    pub fn is_valid(&self) -> (r: bool)
        ensures
            r == self@.is_valid(),
    {
        !self.name.as_str().is_empty() && !self.command.as_str().is_empty()
    }

    /// The record under the name `name`.
    pub fn with_name(self, name: &str) -> (r: Self)
        ensures
            r@ == self@.renamed(name@),
    {
        HoardCommand {
            name: name.to_owned(),
            namespace: self.namespace,
            tags: self.tags,
            command: self.command,
            description: self.description,
        }
    }

    /// The record in the namespace `namespace`.
    pub fn with_namespace(self, namespace: &str) -> (r: Self)
        ensures
            r@ == (CommandRecord { namespace: namespace@, ..self@ }),
    {
        HoardCommand {
            name: self.name,
            namespace: namespace.to_owned(),
            tags: self.tags,
            command: self.command,
            description: self.description,
        }
    }

    /// The record with the command body `command`.
    pub fn with_command(self, command: &str) -> (r: Self)
        ensures
            r@ == (CommandRecord { command: command@, ..self@ }),
    {
        HoardCommand {
            name: self.name,
            namespace: self.namespace,
            tags: self.tags,
            command: command.to_owned(),
            description: self.description,
        }
    }

    /// The record with `suffix` appended to its name, behind a separating
    /// hyphen.
    pub fn with_name_suffix(self, suffix: &str) -> (r: Self)
        ensures
            r@ == self@.with_suffix(suffix@),
    {
        let mut name = self.name;
        proof {
            reveal_strlit("-");
            assert("-"@ =~= seq!['-']);
        }
        name.append("-");
        name.append(suffix);
        assert(name@ =~= self.name@.push('-') + suffix@);
        HoardCommand {
            name,
            namespace: self.namespace,
            tags: self.tags,
            command: self.command,
            description: self.description,
        }
    }

    /// The record with a hyphen and a random run of letters and digits
    /// appended to its name, to tell it from a record of the same name. The
    /// new name is longer than the old one, so it always differs from it.
    pub fn with_random_name_suffix(self) -> (r: Self)
        ensures
            exists|suffix: Seq<char>| is_disambiguator(suffix) && r@ == self@.with_suffix(suffix),
    {
        let suffix = random_alphanumeric(SUFFIX_LENGTH);
        assert(is_disambiguator(suffix@));
        self.with_name_suffix(suffix.as_str())
    }

    /// The cells that show the command in a table.
    pub fn table_row(&self) -> (r: Vec<String>)
        ensures
            r.deep_view() == table_row_of(self@),
    {
        let mut r: Vec<String> = Vec::new();
        r.push(self.name.clone());
        r.push(self.namespace.clone());
        r.push(self.command.clone());
        r.push(self.description.clone());
        r.push(self.get_tags_as_string());
        assert(r.deep_view() =~= table_row_of(self@));
        r
    }

    /// The tags in order, joined by commas.
    pub fn get_tags_as_string(&self) -> (r: String)
        ensures
            r@ == joined(self@.tags, seq![',']),
    {
        let mut r = String::new();
        let mut i: usize = 0;
        proof {
            reveal_strlit(",");
            assert(","@ =~= seq![',']);
        }
        while i < self.tags.len()
            invariant
                i <= self.tags.len(),
                ","@ == seq![','],
                r@ == joined(self@.tags.take(i as int), seq![',']),
            decreases self.tags.len() - i,
        {
            let ghost before = self@.tags.take(i as int);
            let ghost after = self@.tags.take(i + 1);
            if i > 0 {
                r.append(",");
            }
            r.append(self.tags[i].as_str());
            proof {
                assert(after.drop_last() =~= before);
                assert(after.last() == self.tags[i as int]@);
                if i == 0 {
                    assert(r@ =~= after[0]);
                }
            }
            i += 1;
        }
        assert(self@.tags.take(i as int) =~= self@.tags);
        r
    }
}

} // verus!
