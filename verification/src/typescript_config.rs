//! The configuration documents that carry project references.

use vstd::prelude::*;

verus! {

/// `serde_json::Value`: what an entry of a document holds. The library
/// carries such values from the document it is given to the document it
/// hands back and never looks into one, so nothing is claimed of them.
#[verifier::external_type_specification]
#[verifier::external_body]
pub struct ExJsonValue(serde_json::Value);

/// A pointer from one configuration file to another project's configuration.
#[derive(Clone, Debug, PartialEq, Eq)]
pub struct TypescriptProjectReference {
    /// Where the other project lies, relative to the file that holds the reference.
    pub path: String,
}

impl DeepView for TypescriptProjectReference {
    type V = Seq<char>;

    open spec fn deep_view(&self) -> Seq<char> {
        self.path@
    }
}

/// The configuration of a directory above one or more packages. It lists the
/// directory's immediate children.
#[derive(Clone, Debug, PartialEq, Eq)]
pub struct TypescriptParentProjectReference {
    pub references: Vec<TypescriptProjectReference>,
}

/// One top-level entry of a package's configuration.
#[derive(Debug, PartialEq)]
pub enum ConfigField {
    /// The `references` entry, the only one that is managed here.
    References(Vec<TypescriptProjectReference>),
    /// Any other entry, kept as it was read.
    Other { key: String, value: serde_json::Value },
}

/// The configuration of one package: its top-level entries in document order.
#[derive(Debug, PartialEq)]
pub struct TypescriptConfig {
    pub fields: Vec<ConfigField>,
}

/// `index` is where the first `References` entry of `fields` stands.
pub open spec fn first_references_at(fields: Seq<ConfigField>, index: int) -> bool {
    &&& 0 <= index < fields.len()
    &&& fields[index] is References
    &&& forall|k: int| 0 <= k < index ==> !(#[trigger] fields[k] is References)
}

/// Where the managed entry stands among `fields`: the first `References`
/// entry, if there is one.
pub open spec fn references_position(fields: Seq<ConfigField>) -> Option<int> {
    if exists|index: int| first_references_at(fields, index) {
        Some(choose|index: int| first_references_at(fields, index))
    } else {
        None
    }
}

/// The paths that a document with the entries `fields` refers to. A document
/// without a `References` entry refers to nothing.
pub open spec fn current_references(fields: Seq<ConfigField>) -> Seq<Seq<char>> {
    match references_position(fields) {
        Some(index) => fields[index]->References_0.deep_view(),
        None => Seq::empty(),
    }
}

/// `fields` with `references` as the managed entry: in the place of the old
/// one, or behind the last entry where there was none.
pub open spec fn with_references(
    fields: Seq<ConfigField>,
    references: Vec<TypescriptProjectReference>,
) -> Seq<ConfigField> {
    match references_position(fields) {
        Some(index) => fields.update(index, ConfigField::References(references)),
        None => fields.push(ConfigField::References(references)),
    }
}

/// The first `References` entry is the managed one.
pub proof fn lemma_first_references_unique(fields: Seq<ConfigField>, index: int)
    requires
        first_references_at(fields, index),
    ensures
        references_position(fields) == Some(index),
{
    let chosen = choose|other: int| first_references_at(fields, other);
    assert(first_references_at(fields, chosen));
    if chosen < index {
        assert(!(fields[chosen] is References));
    } else if index < chosen {
        assert(!(fields[index] is References));
    }
}

/// Setting the references keeps every other entry where it was and as it
/// was, adds no other entry, and makes the document refer to the new paths.
pub proof fn lemma_with_references_keeps_other_fields(
    fields: Seq<ConfigField>,
    references: Vec<TypescriptProjectReference>,
)
    ensures
        fields.len() <= with_references(fields, references).len() <= fields.len() + 1,
        forall|k: int|
            0 <= k < fields.len() && (#[trigger] fields[k]) is Other ==> with_references(
                fields,
                references,
            )[k] == fields[k],
        forall|k: int|
            0 <= k < with_references(fields, references).len() && (#[trigger] with_references(
                fields,
                references,
            )[k]) is Other ==> k < fields.len() && fields[k] == with_references(
                fields,
                references,
            )[k],
        current_references(with_references(fields, references)) == references.deep_view(),
{
    let after = with_references(fields, references);
    match references_position(fields) {
        Some(index) => {
            let chosen = choose|other: int| first_references_at(fields, other);
            assert(first_references_at(fields, chosen));
            assert(first_references_at(after, index));
            lemma_first_references_unique(after, index);
        },
        None => {
            let last = fields.len() as int;
            assert forall|k: int| 0 <= k < last implies !(#[trigger] after[k] is References) by {
                if fields[k] is References {
                    lemma_some_references_has_first(fields, k);
                }
            }
            assert(first_references_at(after, last));
            lemma_first_references_unique(after, last);
        },
    }
}

/// Where some entry is a `References` entry, one of them is the first.
proof fn lemma_some_references_has_first(fields: Seq<ConfigField>, index: int)
    requires
        0 <= index < fields.len(),
        fields[index] is References,
    ensures
        exists|first: int| first_references_at(fields, first),
    decreases index,
{
    if exists|k: int| 0 <= k < index && (#[trigger] fields[k]) is References {
        let k = choose|k: int| 0 <= k < index && (#[trigger] fields[k]) is References;
        lemma_some_references_has_first(fields, k);
    } else {
        assert(first_references_at(fields, index));
    }
}

impl TypescriptParentProjectReference {
    /// Replaces the references, which are all that the document holds.
    pub fn set_references(&mut self, references: Vec<TypescriptProjectReference>)
        ensures
            final(self).references == references,
    {
        self.references = references;
    }
}

impl TypescriptConfig {
    /// Where the managed entry stands, if the document has one.
    pub fn references_index(&self) -> (position: Option<usize>)
        ensures
            match position {
                Some(index) => references_position(self.fields@) == Some(index as int),
                None => references_position(self.fields@) is None,
            },
    {
        let mut index: usize = 0;
        while index < self.fields.len()
            invariant
                index <= self.fields.len(),
                forall|k: int| 0 <= k < index ==> !(#[trigger] self.fields[k] is References),
            decreases self.fields.len() - index,
        {
            if let ConfigField::References(_) = &self.fields[index] {
                proof {
                    lemma_first_references_unique(self.fields@, index as int);
                }
                return Some(index);
            }
            index += 1;
        }
        proof {
            if exists|first: int| first_references_at(self.fields@, first) {
                let first = choose|first: int| first_references_at(self.fields@, first);
                assert(!(self.fields[first] is References));
            }
        }
        None
    }

    /// The references that the document holds, if it has the entry.
    pub fn references(&self) -> (references: Option<&Vec<TypescriptProjectReference>>)
        ensures
            references is Some <==> references_position(self.fields@) is Some,
            references matches Some(list) ==> list.deep_view() == current_references(self.fields@),
            references is None ==> current_references(self.fields@) == Seq::<Seq<char>>::empty(),
    {
        match self.references_index() {
            Some(index) => {
                match &self.fields[index] {
                    ConfigField::References(list) => Some(list),
                    ConfigField::Other { .. } => None,
                }
            },
            None => None,
        }
    }

    /// Sets the references and leaves every other entry as it is: the entry
    /// is overwritten where the document has it, and added behind the last
    /// entry where it has not.
    pub fn set_references(&mut self, references: Vec<TypescriptProjectReference>)
        ensures
            final(self).fields@ == with_references(old(self).fields@, references),
            current_references(final(self).fields@) == references.deep_view(),
    {
        proof {
            lemma_with_references_keeps_other_fields(self.fields@, references);
        }
        match self.references_index() {
            Some(index) => {
                self.fields[index] = ConfigField::References(references);
            },
            None => {
                self.fields.push(ConfigField::References(references));
            },
        }
    }
}

} // verus!
