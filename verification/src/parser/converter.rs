//! The section map, and the fold of a syntax tree into it.

use vstd::prelude::*;
use crate::decimal::int_to_string;
use crate::parser::ast::{models, Node, AST};
use crate::parser::encoding::{
    bool_text, encode_array, encode_item, encode_prefix, encode_value,
    lemma_encode_prefix_fails, lemma_mixed_types_fail, quoted, stamp, Joined,
};
use crate::text::{chars_of, find_char, string_of};

verus! {

/// Why a tree could not be turned into a map.
#[derive(Debug, PartialEq, Eq)]
pub enum ConvertError {
    /// A section header names a section that exists already.
    DuplicateSection(String),
    /// A value was added to a section that does not exist.
    MissingSection(String),
    /// Under type checking, an element of an array has another type than the
    /// elements before it: the type that was expected and the one found.
    TypeMismatch(String, String),
    /// A node stands where the tree may not have it.
    InvalidNode,
}

/// What a `ConvertError` is, as a value of specifications.
pub enum ConvertFailure {
    DuplicateSection(Seq<char>),
    MissingSection(Seq<char>),
    TypeMismatch(Seq<char>, Seq<char>),
    InvalidNode,
}

impl View for ConvertError {
    type V = ConvertFailure;

    open spec fn view(&self) -> ConvertFailure {
        match self {
            ConvertError::DuplicateSection(name) => ConvertFailure::DuplicateSection(name@),
            ConvertError::MissingSection(name) => ConvertFailure::MissingSection(name@),
            ConvertError::TypeMismatch(expected, found) => ConvertFailure::TypeMismatch(
                expected@,
                found@,
            ),
            ConvertError::InvalidNode => ConvertFailure::InvalidNode,
        }
    }
}

/// The variables of a section: each name with its encoded value.
pub type Values = Map<Seq<char>, Seq<char>>;

/// The sections of a document: each name with its variables.
pub type Sections = Map<Seq<char>, Values>;

/// What a section is, as a value of specifications.
pub struct Section {
    pub name: Seq<char>,
    pub values: Values,
}

/// The map that takes each key to the value at the same place.
pub open spec fn paired<V>(keys: Seq<Seq<char>>, values: Seq<V>) -> Map<Seq<char>, V> {
    Map::new(
        |k: Seq<char>| keys.contains(k),
        |k: Seq<char>| values[keys.index_of(k)],
    )
}

/// The keys of the map are the keys of the row, and without duplicates there
/// are as many.
pub proof fn lemma_paired_dom<V>(keys: Seq<Seq<char>>, values: Seq<V>)
    requires
        keys.no_duplicates(),
    ensures
        paired(keys, values).dom() == keys.to_set(),
        paired(keys, values).dom().finite(),
        paired(keys, values).len() == keys.len(),
{
    assert(paired(keys, values).dom() =~= keys.to_set());
    vstd::seq_lib::seq_to_set_is_finite(keys);
    keys.unique_seq_to_set();
}

/// Without duplicates, a key is found at its own place.
pub proof fn lemma_index_of(keys: Seq<Seq<char>>, i: int)
    requires
        keys.no_duplicates(),
        0 <= i < keys.len(),
    ensures
        keys.index_of(keys[i]) == i,
{
    assert(keys.contains(keys[i]));
}

/// Without duplicates, every key is taken to the value at its own place.
pub proof fn lemma_paired_at<V>(keys: Seq<Seq<char>>, values: Seq<V>, i: int)
    requires
        keys.no_duplicates(),
        0 <= i < keys.len(),
    ensures
        paired(keys, values).contains_key(keys[i]),
        paired(keys, values)[keys[i]] == values[i],
{
    assert(keys.contains(keys[i]));
    let j = keys.index_of(keys[i]);
    assert(0 <= j < keys.len() && keys[j] == keys[i]);
}

/// A new key at the end is a new entry of the map.
pub proof fn lemma_paired_push<V>(keys: Seq<Seq<char>>, values: Seq<V>, k: Seq<char>, v: V)
    requires
        keys.no_duplicates(),
        keys.len() == values.len(),
        !keys.contains(k),
    ensures
        keys.push(k).no_duplicates(),
        paired(keys.push(k), values.push(v)) == paired(keys, values).insert(k, v),
{
    let keys2 = keys.push(k);
    let values2 = values.push(v);
    assert forall|i: int, j: int|
        0 <= i < keys2.len() && 0 <= j < keys2.len() && i != j implies keys2[i] != keys2[j] by {
        if j == keys.len() {
            assert(keys.contains(keys[i]));
        } else if i == keys.len() {
            assert(keys.contains(keys[j]));
        }
    }
    assert forall|x: Seq<char>| keys2.contains(x) <==> (keys.contains(x) || x == k) by {
        if keys2.contains(x) {
            let i = choose|i: int| 0 <= i < keys2.len() && keys2[i] == x;
            if i < keys.len() {
                assert(keys[i] == x);
            }
        }
        if keys.contains(x) {
            let i = choose|i: int| 0 <= i < keys.len() && keys[i] == x;
            assert(keys2[i] == x);
        }
        if x == k {
            assert(keys2[keys.len() as int] == x);
        }
    }
    assert forall|x: Seq<char>| keys2.contains(x) implies #[trigger] paired(keys2, values2)[x]
        == paired(keys, values).insert(k, v)[x] by {
        let i = choose|i: int| 0 <= i < keys2.len() && keys2[i] == x;
        lemma_paired_at(keys2, values2, i);
        if i < keys.len() {
            lemma_paired_at(keys, values, i);
        }
    }
    assert(paired(keys2, values2) =~= paired(keys, values).insert(k, v));
}

/// A new value at the place of a key replaces the key's entry.
pub proof fn lemma_paired_update<V>(keys: Seq<Seq<char>>, values: Seq<V>, i: int, v: V)
    requires
        keys.no_duplicates(),
        keys.len() == values.len(),
        0 <= i < keys.len(),
    ensures
        paired(keys, values.update(i, v)) == paired(keys, values).insert(keys[i], v),
{
    let values2 = values.update(i, v);
    assert(keys.contains(keys[i]));
    assert forall|x: Seq<char>| keys.contains(x) implies #[trigger] paired(keys, values2)[x]
        == paired(keys, values).insert(keys[i], v)[x] by {
        let j = choose|j: int| 0 <= j < keys.len() && keys[j] == x;
        lemma_paired_at(keys, values2, j);
        lemma_paired_at(keys, values, j);
    }
    assert(paired(keys, values2) =~= paired(keys, values).insert(keys[i], v));
}

/// A section: its name and its variables, each name once.
#[derive(Debug)]
pub struct TOMLStringTag {
    name: String,
    values: Vec<(String, String)>,
}

impl TOMLStringTag {
    #[verifier::type_invariant]
    spec fn well_formed(self) -> bool {
        self.keys().no_duplicates()
    }

    /// The names of the variables, in the order in which they came.
    pub closed spec fn keys(self) -> Seq<Seq<char>> {
        Seq::new(self.values@.len(), |i: int| self.values@[i].0@)
    }

    /// The encoded values, each at the place of its name.
    pub closed spec fn texts(self) -> Seq<Seq<char>> {
        Seq::new(self.values@.len(), |i: int| self.values@[i].1@)
    }

    /// The variables of the section.
    pub open spec fn values(self) -> Values {
        paired(self.keys(), self.texts())
    }

    /// The name of the section.
    pub closed spec fn label(self) -> Seq<char> {
        self.name@
    }

    /// An empty section.
    pub fn new(n: &str) -> (tag: Self)
        ensures
            tag@ == (Section { name: n@, values: Map::empty() }),
            tag.keys() == Seq::<Seq<char>>::empty(),
    {
        let tag = TOMLStringTag { name: String::from_str(n), values: Vec::new() };
        assert(tag.values() =~= Map::empty());
        assert(tag.keys() =~= Seq::<Seq<char>>::empty());
        tag
    }

    /// The place of a variable, if the section has it.
    fn find(&self, n: &str) -> (at: Option<usize>)
        ensures
            match at {
                Some(i) => i < self.keys().len() && self.keys()[i as int] == n@,
                None => !self.keys().contains(n@),
            },
            self.keys().len() == self.texts().len(),
            self.keys().no_duplicates(),
    {
        proof {
            use_type_invariant(self);
        }
        let key: String = String::from_str(n);
        let mut i: usize = 0;
        while i < self.values.len()
            invariant
                i <= self.values.len(),
                key@ == n@,
                self.keys().no_duplicates(),
                forall|k: int| 0 <= k < i ==> self.keys()[k] != n@,
            decreases self.values.len() - i,
        {
            if self.values[i].0 == key {
                return Some(i);
            }
            i += 1;
        }
        None
    }

    /// Sets a variable; a value that it had before is lost. A variable that
    /// the section had keeps its place, a new one comes last.
    pub fn insert_value(&mut self, n: &str, v: &str)
        ensures
            final(self)@ == (Section {
                name: old(self)@.name,
                values: old(self)@.values.insert(n@, v@),
            }),
            final(self).keys() == if old(self)@.values.contains_key(n@) {
                old(self).keys()
            } else {
                old(self).keys().push(n@)
            },
    {
        let ghost keys = self.keys();
        let ghost texts = self.texts();
        let found: Option<usize> = self.find(n);
        let mut values: Vec<(String, String)> = Vec::new();
        std::mem::swap(&mut self.values, &mut values);
        match found {
            Some(i) => {
                values[i].1 = String::from_str(v);
            },
            None => {
                values.push((String::from_str(n), String::from_str(v)));
            },
        }
        proof {
            let keys2 = Seq::new(values@.len(), |i: int| values@[i].0@);
            let texts2 = Seq::new(values@.len(), |i: int| values@[i].1@);
            match found {
                Some(i) => {
                    assert(keys2 =~= keys);
                    assert(texts2 =~= texts.update(i as int, v@));
                    lemma_paired_update(keys, texts, i as int, v@);
                },
                None => {
                    assert(keys2 =~= keys.push(n@));
                    assert(texts2 =~= texts.push(v@));
                    lemma_paired_push(keys, texts, n@, v@);
                },
            }
        }
        std::mem::swap(&mut self.values, &mut values);
    }

    /// The encoded value of a variable, if the section has it.
    pub fn get(&self, n: &str) -> (r: Option<&String>)
        ensures
            match r {
                Some(text) => self@.values.contains_key(n@) && text@ == self@.values[n@],
                None => !self@.values.contains_key(n@),
            },
    {
        match self.find(n) {
            Some(i) => {
                proof {
                    lemma_paired_at(self.keys(), self.texts(), i as int);
                }
                Some(&self.values[i].1)
            },
            None => None,
        }
    }

    /// The name of the section.
    pub fn name(&self) -> (name: &String)
        ensures
            name@ == self@.name,
    {
        &self.name
    }

    /// How many variables the section has. The names in the order in which
    /// they came are the names of the variables, each once.
    pub fn len(&self) -> (n: usize)
        ensures
            n == self@.values.len(),
            n == self.keys().len(),
            self.keys().no_duplicates(),
            self.keys().to_set() == self@.values.dom(),
    {
        proof {
            use_type_invariant(self);
            lemma_paired_dom(self.keys(), self.texts());
        }
        self.values.len()
    }

    /// The variable at place `i` in the order in which the variables came,
    /// with its encoded value; `None` behind the last one.
    pub fn entry(&self, i: usize) -> (r: Option<(&String, &String)>)
        ensures
            match r {
                Some((name, text)) => i < self.keys().len() && name@ == self.keys()[i as int]
                    && self@.values.contains_key(name@) && text@ == self@.values[name@],
                None => i >= self.keys().len(),
            },
    {
        if i < self.values.len() {
            proof {
                use_type_invariant(self);
                lemma_paired_at(self.keys(), self.texts(), i as int);
            }
            Some((&self.values[i].0, &self.values[i].1))
        } else {
            None
        }
    }
}

impl View for TOMLStringTag {
    type V = Section;

    open spec fn view(&self) -> Section {
        Section { name: self.label(), values: self.values() }
    }
}

/// The sections of a document, each name once.
#[derive(Debug)]
pub struct TOMLStringMap {
    tags: Vec<TOMLStringTag>,
}

impl TOMLStringMap {
    #[verifier::type_invariant]
    spec fn well_formed(self) -> bool {
        self.names().no_duplicates()
    }

    /// The names of the sections, in the order in which they came.
    pub closed spec fn names(self) -> Seq<Seq<char>> {
        Seq::new(self.tags@.len(), |i: int| self.tags@[i].label())
    }

    /// The variables of the sections, each at the place of its section's name.
    pub closed spec fn contents(self) -> Seq<Values> {
        Seq::new(self.tags@.len(), |i: int| self.tags@[i].values())
    }

    /// The names of the variables of each section in the order in which they
    /// came, at the place of the section's name.
    closed spec fn orders(self) -> Seq<Seq<Seq<char>>> {
        Seq::new(self.tags@.len(), |i: int| self.tags@[i].keys())
    }

    /// The names of the variables of the section `tag`, in the order in
    /// which they came.
    pub closed spec fn keys_of(self, tag: Seq<char>) -> Seq<Seq<char>> {
        self.orders()[self.names().index_of(tag)]
    }

    /// A map without sections.
    pub fn new() -> (map: Self)
        ensures
            map@ == Sections::empty(),
            map.names() == Seq::<Seq<char>>::empty(),
    {
        let map = TOMLStringMap { tags: Vec::new() };
        assert(map@ =~= Sections::empty());
        assert(map.names() =~= Seq::<Seq<char>>::empty());
        map
    }

    /// The place of a section, if the map has it.
    fn find(&self, tag: &str) -> (at: Option<usize>)
        ensures
            match at {
                Some(i) => i < self.names().len() && self.names()[i as int] == tag@,
                None => !self.names().contains(tag@),
            },
            self.names().len() == self.contents().len(),
            self.names().no_duplicates(),
    {
        proof {
            use_type_invariant(self);
        }
        let key: String = String::from_str(tag);
        let mut i: usize = 0;
        while i < self.tags.len()
            invariant
                i <= self.tags.len(),
                key@ == tag@,
                self.names().no_duplicates(),
                forall|k: int| 0 <= k < i ==> self.names()[k] != tag@,
            decreases self.tags.len() - i,
        {
            if self.tags[i].name == key {
                return Some(i);
            }
            i += 1;
        }
        None
    }

    /// Adds an empty section, behind the sections that are there. Where a
    /// section of that name exists already the map stays as it is, and that is
    /// an error if `crash_on_collision` is set.
    pub fn add_tag(&mut self, tag: &str, crash_on_collision: bool) -> (r: Result<
        (),
        ConvertError,
    >)
        ensures
            final(self)@ == if old(self)@.contains_key(tag@) {
                old(self)@
            } else {
                old(self)@.insert(tag@, Values::empty())
            },
            final(self).names() == if old(self)@.contains_key(tag@) {
                old(self).names()
            } else {
                old(self).names().push(tag@)
            },
            forall|t: Seq<char>|
                final(self)@.contains_key(t) ==> #[trigger] final(self).keys_of(t) == if old(
                    self,
                )@.contains_key(t) {
                    old(self).keys_of(t)
                } else {
                    Seq::empty()
                },
            match r {
                Ok(_) => !(old(self)@.contains_key(tag@) && crash_on_collision),
                Err(e) => old(self)@.contains_key(tag@) && crash_on_collision && e@
                    == ConvertFailure::DuplicateSection(tag@),
            },
    {
        let ghost names = self.names();
        let ghost contents = self.contents();
        let ghost orders = self.orders();
        match self.find(tag) {
            Some(_) => {
                if crash_on_collision {
                    Err(ConvertError::DuplicateSection(String::from_str(tag)))
                } else {
                    Ok(())
                }
            },
            None => {
                let mut tags: Vec<TOMLStringTag> = Vec::new();
                std::mem::swap(&mut self.tags, &mut tags);
                tags.push(TOMLStringTag::new(tag));
                proof {
                    let names2 = Seq::new(tags@.len(), |i: int| tags@[i].label());
                    let contents2 = Seq::new(tags@.len(), |i: int| tags@[i].values());
                    assert(names2 =~= names.push(tag@));
                    assert(contents2 =~= contents.push(Values::empty()));
                    lemma_paired_push(names, contents, tag@, Values::empty());
                }
                std::mem::swap(&mut self.tags, &mut tags);
                proof {
                    assert(self.orders() =~= orders.push(Seq::empty()));
                    assert forall|t: Seq<char>| self@.contains_key(t) implies #[trigger] self.keys_of(
                        t,
                    ) == if old(self)@.contains_key(t) {
                        old(self).keys_of(t)
                    } else {
                        Seq::empty()
                    } by {
                        let j = choose|j: int| 0 <= j < self.names().len() && self.names()[j] == t;
                        lemma_index_of(self.names(), j);
                        if j < names.len() {
                            assert(names.contains(t));
                            lemma_index_of(names, j);
                        }
                    }
                }
                Ok(())
            },
        }
    }

    /// Sets a variable of a section; it is an error if the map has no such
    /// section. The sections keep their places.
    pub fn add_value(&mut self, tag: &str, n: &str, v: &str) -> (r: Result<(), ConvertError>)
        ensures
            final(self)@ == if old(self)@.contains_key(tag@) {
                old(self)@.insert(tag@, old(self)@[tag@].insert(n@, v@))
            } else {
                old(self)@
            },
            final(self).names() == old(self).names(),
            forall|t: Seq<char>|
                final(self)@.contains_key(t) ==> #[trigger] final(self).keys_of(t) == if t == tag@
                    && !old(self)@[tag@].contains_key(n@) {
                    old(self).keys_of(t).push(n@)
                } else {
                    old(self).keys_of(t)
                },
            match r {
                Ok(_) => old(self)@.contains_key(tag@),
                Err(e) => !old(self)@.contains_key(tag@) && e@ == ConvertFailure::MissingSection(
                    tag@,
                ),
            },
    {
        let ghost names = self.names();
        let ghost contents = self.contents();
        let ghost orders = self.orders();
        match self.find(tag) {
            Some(i) => {
                let mut tags: Vec<TOMLStringTag> = Vec::new();
                std::mem::swap(&mut self.tags, &mut tags);
                tags[i].insert_value(n, v);
                proof {
                    let names2 = Seq::new(tags@.len(), |i: int| tags@[i].label());
                    let contents2 = Seq::new(tags@.len(), |i: int| tags@[i].values());
                    lemma_paired_at(names, contents, i as int);
                    assert(names2 =~= names);
                    assert(contents2 =~= contents.update(
                        i as int,
                        contents[i as int].insert(n@, v@),
                    ));
                    lemma_paired_update(
                        names,
                        contents,
                        i as int,
                        contents[i as int].insert(n@, v@),
                    );
                }
                std::mem::swap(&mut self.tags, &mut tags);
                proof {
                    lemma_index_of(names, i as int);
                    assert(self.orders() =~= orders.update(
                        i as int,
                        if contents[i as int].contains_key(n@) {
                            orders[i as int]
                        } else {
                            orders[i as int].push(n@)
                        },
                    ));
                    assert forall|t: Seq<char>| self@.contains_key(t) implies #[trigger] self.keys_of(
                        t,
                    ) == if t == tag@ && !old(self)@[tag@].contains_key(n@) {
                        old(self).keys_of(t).push(n@)
                    } else {
                        old(self).keys_of(t)
                    } by {
                        let j = choose|j: int| 0 <= j < names.len() && names[j] == t;
                        lemma_index_of(names, j);
                    }
                }
                Ok(())
            },
            None => Err(ConvertError::MissingSection(String::from_str(tag))),
        }
    }

    /// The section of the given name, if the map has it.
    pub fn get(&self, tag: &str) -> (r: Option<&TOMLStringTag>)
        ensures
            match r {
                Some(section) => self@.contains_key(tag@) && section@ == (Section {
                    name: tag@,
                    values: self@[tag@],
                }) && section.keys() == self.keys_of(tag@),
                None => !self@.contains_key(tag@),
            },
    {
        match self.find(tag) {
            Some(i) => {
                proof {
                    lemma_paired_at(self.names(), self.contents(), i as int);
                    lemma_index_of(self.names(), i as int);
                }
                Some(&self.tags[i])
            },
            None => None,
        }
    }

    /// How many sections the map has. The names in the order in which they
    /// came are the names of the sections, each once.
    pub fn len(&self) -> (n: usize)
        ensures
            n == self@.len(),
            n == self.names().len(),
            self.names().no_duplicates(),
            self.names().to_set() == self@.dom(),
    {
        proof {
            use_type_invariant(self);
            lemma_paired_dom(self.names(), self.contents());
        }
        self.tags.len()
    }

    /// The section at place `i` in the order in which the sections came;
    /// `None` behind the last one.
    pub fn section(&self, i: usize) -> (r: Option<&TOMLStringTag>)
        ensures
            match r {
                Some(section) => i < self.names().len() && section@.name == self.names()[i as int]
                    && self@.contains_key(section@.name) && section@.values
                    == self@[section@.name] && section.keys() == self.keys_of(section@.name),
                None => i >= self.names().len(),
            },
    {
        if i < self.tags.len() {
            proof {
                use_type_invariant(self);
                lemma_paired_at(self.names(), self.contents(), i as int);
                lemma_index_of(self.names(), i as int);
            }
            Some(&self.tags[i])
        } else {
            None
        }
    }
}

impl View for TOMLStringMap {
    type V = Sections;

    open spec fn view(&self) -> Sections {
        paired(self.names(), self.contents())
    }
}

/// How far the fold of a document has come: the sections so far, and the
/// name of the section that assignments go to.
pub struct Progress {
    pub sections: Sections,
    pub current: Seq<char>,
}

/// Before the first statement the default section `.` is there, empty, and
/// assignments go to it.
pub open spec fn start() -> Progress {
    Progress { sections: Sections::empty().insert("."@, Values::empty()), current: "."@ }
}

/// What one statement does. A section header makes a new section and turns to
/// it; a header that names a section which exists already is an error. A
/// blank line turns back to the default section, which it makes anew if it is
/// not there. An assignment sets a variable of the section turned to.
pub open spec fn apply(before: Progress, statement: Node, typecheck: bool) -> Result<
    Progress,
    ConvertFailure,
> {
    match statement {
        Node::Section(name) => if before.sections.contains_key(name) {
            Err(ConvertFailure::DuplicateSection(name))
        } else {
            Ok(Progress { sections: before.sections.insert(name, Values::empty()), current: name })
        },
        Node::Blank => Ok(
            Progress {
                sections: if before.sections.contains_key("."@) {
                    before.sections
                } else {
                    before.sections.insert("."@, Values::empty())
                },
                current: "."@,
            },
        ),
        Node::Assignment(name, value) => match encode_value(*value, typecheck) {
            Err(e) => Err(e),
            Ok(text) => if before.sections.contains_key(before.current) {
                Ok(
                    Progress {
                        sections: before.sections.insert(
                            before.current,
                            before.sections[before.current].insert(name, text),
                        ),
                        current: before.current,
                    },
                )
            } else {
                Err(ConvertFailure::MissingSection(before.current))
            },
        },
        _ => Err(ConvertFailure::InvalidNode),
    }
}

/// The fold over the first `n` statements. It ends at the first statement
/// that fails.
pub open spec fn convert_prefix(statements: Seq<Node>, n: nat, typecheck: bool) -> Result<
    Progress,
    ConvertFailure,
>
    decreases n,
{
    if n == 0 || n > statements.len() {
        Ok(start())
    } else {
        match convert_prefix(statements, (n - 1) as nat, typecheck) {
            Err(e) => Err(e),
            Ok(before) => apply(before, statements[n - 1], typecheck),
        }
    }
}

/// The map that a document stands for.
pub open spec fn converted(document: Node, typecheck: bool) -> Result<Sections, ConvertFailure> {
    match document {
        Node::Document(statements) => match convert_prefix(
            statements,
            statements.len(),
            typecheck,
        ) {
            Err(e) => Err(e),
            Ok(progress) => Ok(progress.sections),
        },
        _ => Err(ConvertFailure::InvalidNode),
    }
}

/// Once a statement has failed, the document fails with it, whatever follows.
pub proof fn lemma_convert_prefix_fails(statements: Seq<Node>, n: nat, m: nat, typecheck: bool)
    requires
        n <= m <= statements.len(),
        convert_prefix(statements, n, typecheck) is Err,
    ensures
        convert_prefix(statements, m, typecheck) == convert_prefix(statements, n, typecheck),
    decreases m - n,
{
    if n < m {
        lemma_convert_prefix_fails(statements, n, (m - 1) as nat, typecheck);
    }
}

/// If a document can be folded up to some statement, it can be folded up to
/// every statement before that one.
pub proof fn lemma_convert_prefix_succeeds(statements: Seq<Node>, n: nat, m: nat, typecheck: bool)
    requires
        n <= m <= statements.len(),
        convert_prefix(statements, m, typecheck) is Ok,
    ensures
        convert_prefix(statements, n, typecheck) is Ok,
{
    if convert_prefix(statements, n, typecheck) is Err {
        lemma_convert_prefix_fails(statements, n, m, typecheck);
    }
}

/// The section that assignments go to behind the first `n` statements: the
/// one of the last section header, or the default section if a blank line
/// came behind it or no header came at all.
pub open spec fn section_at(statements: Seq<Node>, n: nat) -> Seq<char>
    decreases n,
{
    if n == 0 || n > statements.len() {
        "."@
    } else {
        match statements[n - 1] {
            Node::Section(name) => name,
            Node::Blank => "."@,
            _ => section_at(statements, (n - 1) as nat),
        }
    }
}

/// The fold turns to the section that `section_at` names, and that section
/// is there.
pub proof fn lemma_current_section(statements: Seq<Node>, n: nat, typecheck: bool)
    requires
        n <= statements.len(),
        convert_prefix(statements, n, typecheck) is Ok,
    ensures
        ({
            let progress = convert_prefix(statements, n, typecheck)->Ok_0;
            &&& progress.current == section_at(statements, n)
            &&& progress.sections.contains_key(progress.current)
        }),
    decreases n,
{
    if n > 0 {
        lemma_current_section(statements, (n - 1) as nat, typecheck);
    }
}

/// A section that is there stays there.
pub proof fn lemma_sections_stay(
    statements: Seq<Node>,
    n: nat,
    m: nat,
    typecheck: bool,
    name: Seq<char>,
)
    requires
        n <= m <= statements.len(),
        convert_prefix(statements, m, typecheck) is Ok,
        convert_prefix(statements, n, typecheck) matches Ok(progress)
            && progress.sections.contains_key(name),
    ensures
        convert_prefix(statements, m, typecheck)->Ok_0.sections.contains_key(name),
    decreases m - n,
{
    if n < m {
        lemma_convert_prefix_succeeds(statements, (m - 1) as nat, m, typecheck);
        lemma_sections_stay(statements, n, (m - 1) as nat, typecheck, name);
        lemma_current_section(statements, (m - 1) as nat, typecheck);
    }
}

/// A document with two section headers of the same name fails.
pub proof fn lemma_duplicate_section_fails(
    statements: Seq<Node>,
    i: int,
    j: int,
    typecheck: bool,
)
    requires
        0 <= i < j < statements.len(),
        statements[i] is Section,
        statements[i] == statements[j],
    ensures
        converted(Node::Document(statements), typecheck) is Err,
{
    let name = statements[i]->Section_0;
    if convert_prefix(statements, statements.len(), typecheck) is Ok {
        lemma_convert_prefix_succeeds(
            statements,
            (j + 1) as nat,
            statements.len(),
            typecheck,
        );
        lemma_convert_prefix_succeeds(statements, j as nat, (j + 1) as nat, typecheck);
        lemma_convert_prefix_succeeds(statements, (i + 1) as nat, j as nat, typecheck);
        lemma_sections_stay(statements, (i + 1) as nat, j as nat, typecheck, name);
    }
}

/// A blank line never fails, however many came before it.
pub proof fn lemma_blank_never_fails(statements: Seq<Node>, n: nat, typecheck: bool)
    requires
        n < statements.len(),
        statements[n as int] is Blank,
        convert_prefix(statements, n, typecheck) is Ok,
    ensures
        convert_prefix(statements, n + 1, typecheck) is Ok,
{
}

/// A statement whose value cannot be written makes the document fail.
pub proof fn lemma_failing_value_fails(statements: Seq<Node>, i: int, typecheck: bool)
    requires
        0 <= i < statements.len(),
        statements[i] matches Node::Assignment(_, value) && encode_value(*value, typecheck) is Err,
    ensures
        converted(Node::Document(statements), typecheck) is Err,
{
    if convert_prefix(statements, statements.len(), typecheck) is Ok {
        lemma_convert_prefix_succeeds(
            statements,
            (i + 1) as nat,
            statements.len(),
            typecheck,
        );
    }
}

/// Under type checking a document fails if it assigns an array of which two
/// elements show different types.
pub proof fn lemma_mixed_array_fails(statements: Seq<Node>, at: int, i: int, j: int)
    requires
        0 <= at < statements.len(),
        statements[at] matches Node::Assignment(_, value) && *value is Array,
        ({
            let items = (*statements[at]->Assignment_1)->Array_0;
            &&& 0 <= i < j < items.len()
            &&& encode_item(items[i], true) matches Ok(item) && item.tag is Some
            &&& encode_item(items[j], true) matches Ok(item) && item.tag is Some
            &&& encode_item(items[i], true)->Ok_0.tag != encode_item(items[j], true)->Ok_0.tag
        }),
    ensures
        converted(Node::Document(statements), true) is Err,
{
    lemma_mixed_types_fail((*statements[at]->Assignment_1)->Array_0, i, j);
    lemma_failing_value_fails(statements, at, true);
}

/// The default section is in every map.
pub proof fn lemma_default_section(statements: Seq<Node>, typecheck: bool)
    requires
        converted(Node::Document(statements), typecheck) is Ok,
    ensures
        converted(Node::Document(statements), typecheck)->Ok_0.contains_key("."@),
{
    lemma_sections_stay(statements, 0, statements.len(), typecheck, "."@);
}

/// Whether the statement at `j` sets the variable `name` of `section`.
pub open spec fn assigns(statements: Seq<Node>, j: int, section: Seq<char>, name: Seq<char>) -> bool {
    &&& 0 <= j < statements.len()
    &&& statements[j] matches Node::Assignment(n, _)
    &&& n == name
    &&& section_at(statements, j as nat) == section
}

/// What was written for a variable last stays in the map.
proof fn lemma_value_stays(
    statements: Seq<Node>,
    i: int,
    m: nat,
    section: Seq<char>,
    name: Seq<char>,
    typecheck: bool,
)
    requires
        i < m <= statements.len(),
        assigns(statements, i, section, name),
        forall|j: int| i < j < m ==> !#[trigger] assigns(statements, j, section, name),
        convert_prefix(statements, m, typecheck) is Ok,
    ensures
        ({
            let sections = convert_prefix(statements, m, typecheck)->Ok_0.sections;
            &&& sections.contains_key(section)
            &&& sections[section].contains_key(name)
            &&& Ok::<Seq<char>, ConvertFailure>(sections[section][name]) == encode_value(
                *statements[i]->Assignment_1,
                typecheck,
            )
        }),
    decreases m,
{
    lemma_convert_prefix_succeeds(statements, (m - 1) as nat, m, typecheck);
    lemma_current_section(statements, (m - 1) as nat, typecheck);
    if m > i + 1 {
        lemma_value_stays(statements, i, (m - 1) as nat, section, name, typecheck);
        assert(!assigns(statements, m - 1, section, name));
    }
}

/// Looking up a variable in the map of a document gives what was written for
/// the value that was assigned to it last in its section.
pub proof fn lemma_lookup_after_convert(
    statements: Seq<Node>,
    i: int,
    section: Seq<char>,
    name: Seq<char>,
    typecheck: bool,
)
    requires
        assigns(statements, i, section, name),
        forall|j: int|
            i < j < statements.len() ==> !#[trigger] assigns(statements, j, section, name),
        converted(Node::Document(statements), typecheck) is Ok,
    ensures
        ({
            let sections = converted(Node::Document(statements), typecheck)->Ok_0;
            &&& sections.contains_key(section)
            &&& sections[section].contains_key(name)
            &&& Ok::<Seq<char>, ConvertFailure>(sections[section][name]) == encode_value(
                *statements[i]->Assignment_1,
                typecheck,
            )
        }),
{
    lemma_value_stays(statements, i, statements.len(), section, name, typecheck);
}

pub open spec fn text_of(s: Option<String>) -> Option<Seq<char>> {
    match s {
        Some(s) => Some(s@),
        None => None,
    }
}

fn bool_to_string(b: bool) -> (s: String)
    ensures
        s@ == bool_text(b),
{
    if b {
        String::from_str("true")
    } else {
        String::from_str("false")
    }
}

fn quote(s: &String) -> (q: String)
    ensures
        q@ == quoted(s@),
{
    let mut q: String = String::from_str("'");
    q.append(s.as_str());
    q.append("'");
    q
}

/// Holds the type of an element against the type of the array, which it sets
/// and writes down if the array has none yet.
fn check_type(string: &mut String, current_type: &mut Option<String>, t: String) -> (r: Result<
    (),
    ConvertError,
>)
    ensures
        match stamp(Joined { text: old(string)@, tag: text_of(*old(current_type)) }, t@) {
            Ok(stamped) => r is Ok && final(string)@ == stamped.text && text_of(
                *final(current_type),
            ) == stamped.tag,
            Err(e) => r matches Err(x) && x@ == e,
        },
{
    let same: Option<bool> = match &*current_type {
        Some(c) => Some(*c == t),
        None => None,
    };
    match same {
        None => {
            string.append(t.as_str());
            string.append("#");
            *current_type = Some(t);
            Ok(())
        },
        Some(true) => Ok(()),
        Some(false) => {
            let expected: String = match &*current_type {
                Some(c) => c.clone(),
                None => String::new(),
            };
            Err(ConvertError::TypeMismatch(expected, t))
        },
    }
}

/// Writes one element of an array: its text, and the type of array that it
/// asks for.
fn convert_ast_item_to_string(ast: &AST, typecheck: bool) -> (r: Result<
    (String, Option<String>),
    ConvertError,
>)
    ensures
        match encode_item(ast@, typecheck) {
            Ok(item) => r matches Ok(written) && written.0@ == item.piece && text_of(written.1)
                == item.tag,
            Err(e) => r matches Err(x) && x@ == e,
        },
    decreases ast, 0nat,
{
    let mut piece: String = String::new();
    let mut tag: Option<String> = None;
    match ast {
        AST::ASTBool(v) => {
            piece = String::from_str(";");
            piece.append(bool_to_string(*v).as_str());
            if typecheck {
                tag = Some(String::from_str("array_bool"));
            }
        },
        AST::ASTInt(v) => {
            piece = String::from_str(";");
            piece.append(int_to_string(*v).as_str());
            if typecheck {
                tag = Some(String::from_str("array_int"));
            }
        },
        AST::ASTString(v) => {
            piece = String::from_str(";");
            piece.append(quote(v).as_str());
            if typecheck {
                tag = Some(String::from_str("array_string"));
            }
        },
        AST::ASTArray(vec) => {
            let arr_string: String = match convert_ast_array_to_string(vec, typecheck) {
                Err(e) => {
                    return Err(e);
                },
                Ok(s) => s,
            };
            if typecheck {
                let chars: Vec<char> = chars_of(arr_string.as_str());
                let n: usize = find_char(&chars, 0, '#');
                if n < chars.len() {
                    let mut t: String = String::from_str("array_");
                    t.append(string_of(&chars, 0, n).as_str());
                    tag = Some(t);
                }
            }
            piece = String::from_str("|");
            piece.append(arr_string.as_str());
            piece.append("|");
        },
        _ => {
            return Err(ConvertError::InvalidNode);
        },
    }
    Ok((piece, tag))
}

/// Writes the elements of an array one behind the other. Under type checking
/// the type of the array stands before the first element that shows one, and
/// an element that shows another type is an error.
pub fn convert_ast_array_to_string(array: &Vec<AST>, typecheck: bool) -> (r: Result<
    String,
    ConvertError,
>)
    ensures
        match encode_array(models(array@), typecheck) {
            Ok(text) => r matches Ok(s) && s@ == text,
            Err(e) => r matches Err(x) && x@ == e,
        },
    decreases array, 1nat,
{
    let ghost items = models(array@);
    let mut string: String = String::new();
    let mut current_type: Option<String> = None;
    let mut i: usize = 0;
    while i < array.len()
        invariant
            i <= array.len(),
            items == models(array@),
            encode_prefix(items, i as nat, typecheck) == Ok::<Joined, ConvertFailure>(
                Joined { text: string@, tag: text_of(current_type) },
            ),
        decreases array.len() - i,
    {
        proof {
            if encode_prefix(items, (i + 1) as nat, typecheck) is Err {
                lemma_encode_prefix_fails(items, (i + 1) as nat, items.len(), typecheck);
            }
        }
        let written: (String, Option<String>) = match convert_ast_item_to_string(
            &array[i],
            typecheck,
        ) {
            Err(e) => {
                return Err(e);
            },
            Ok(written) => written,
        };
        match written.1 {
            Some(t) => {
                match check_type(&mut string, &mut current_type, t) {
                    Err(e) => {
                        return Err(e);
                    },
                    Ok(_) => {},
                }
            },
            None => {},
        }
        string.append(written.0.as_str());
        i += 1;
    }
    Ok(string)
}

/// Writes a value as it stands in the map.
pub fn convert_ast_value_to_string(ast: &AST, typecheck: bool) -> (r: Result<
    String,
    ConvertError,
>)
    ensures
        match encode_value(ast@, typecheck) {
            Ok(text) => r matches Ok(s) && s@ == text,
            Err(e) => r matches Err(x) && x@ == e,
        },
{
    match ast {
        AST::ASTBool(v) => {
            let mut s: String = if typecheck {
                String::from_str("bool#")
            } else {
                String::new()
            };
            s.append(bool_to_string(*v).as_str());
            Ok(s)
        },
        AST::ASTInt(v) => {
            let mut s: String = if typecheck {
                String::from_str("int#")
            } else {
                String::new()
            };
            s.append(int_to_string(*v).as_str());
            Ok(s)
        },
        AST::ASTString(v) => {
            let mut s: String = if typecheck {
                String::from_str("string#")
            } else {
                String::new()
            };
            s.append(quote(v).as_str());
            Ok(s)
        },
        AST::ASTArray(v) => convert_ast_array_to_string(v, typecheck),
        _ => Err(ConvertError::InvalidNode),
    }
}

/// Folds a document into the map of its sections, statement by statement.
pub fn convert_ast_to_string(compound: &AST, typecheck: bool) -> (r: Result<
    TOMLStringMap,
    ConvertError,
>)
    ensures
        match converted(compound@, typecheck) {
            Ok(sections) => r matches Ok(map) && map@ == sections,
            Err(e) => r matches Err(x) && x@ == e,
        },
{
    let asts: &Vec<AST> = match compound {
        AST::ASTCompound(asts) => asts,
        _ => {
            return Err(ConvertError::InvalidNode);
        },
    };
    let ghost statements = models(asts@);
    let mut map: TOMLStringMap = TOMLStringMap::new();
    let _ = map.add_tag(".", false);
    let mut current_tag: String = String::from_str(".");
    let mut i: usize = 0;
    while i < asts.len()
        invariant
            i <= asts.len(),
            statements == models(asts@),
            compound@ == Node::Document(statements),
            convert_prefix(statements, i as nat, typecheck) == Ok::<Progress, ConvertFailure>(
                Progress { sections: map@, current: current_tag@ },
            ),
        decreases asts.len() - i,
    {
        proof {
            if convert_prefix(statements, (i + 1) as nat, typecheck) is Err {
                lemma_convert_prefix_fails(
                    statements,
                    (i + 1) as nat,
                    statements.len(),
                    typecheck,
                );
            }
        }
        match &asts[i] {
            AST::ASTTagDefinition(n) => {
                match map.add_tag(n.as_str(), true) {
                    Err(e) => {
                        return Err(e);
                    },
                    Ok(_) => {},
                }
                current_tag = n.clone();
            },
            AST::ASTVariableDefinition(n, v) => {
                let val: String = match convert_ast_value_to_string(v, typecheck) {
                    Err(e) => {
                        return Err(e);
                    },
                    Ok(val) => val,
                };
                match map.add_value(current_tag.as_str(), n.as_str(), val.as_str()) {
                    Err(e) => {
                        return Err(e);
                    },
                    Ok(_) => {},
                }
            },
            AST::ASTSeparator() => {
                let _ = map.add_tag(".", false);
                current_tag = String::from_str(".");
            },
            _ => {
                return Err(ConvertError::InvalidNode);
            },
        }
        i += 1;
    }
    Ok(map)
}

} // verus!
