//! Triples, in the two forms the store knows: by numerical id and by string.
use vstd::prelude::*;

verus! {

/// A triple, stored as numerical ids
#[derive(Debug, Clone, Copy, PartialEq, Eq, Structural, PartialOrd, Ord, Hash)]
pub struct IdTriple {
    pub subject: u64,
    pub predicate: u64,
    pub object: u64,
}

/// Strict lexicographic order on (subject, predicate, object).
pub open spec fn triple_lt(a: IdTriple, b: IdTriple) -> bool {
    ||| a.subject < b.subject
    ||| (a.subject == b.subject && a.predicate < b.predicate)
    ||| (a.subject == b.subject && a.predicate == b.predicate && a.object < b.object)
}

impl IdTriple {
    /// Construct a new id triple
    pub fn new(subject: u64, predicate: u64, object: u64) -> (r: IdTriple)
        ensures
            r.subject == subject,
            r.predicate == predicate,
            r.object == object,
    {
        IdTriple { subject, predicate, object }
    }

    /// Convert this triple into a `PartiallyResolvedTriple` whose parts are all resolved
    pub fn to_resolved(&self) -> (r: PartiallyResolvedTriple)
        ensures
            r.subject == PossiblyResolved::<String>::Resolved(self.subject),
            r.predicate == PossiblyResolved::<String>::Resolved(self.predicate),
            r.object == PossiblyResolved::<ObjectType>::Resolved(self.object),
    {
        PartiallyResolvedTriple {
            subject: PossiblyResolved::Resolved(self.subject),
            predicate: PossiblyResolved::Resolved(self.predicate),
            object: PossiblyResolved::Resolved(self.object),
        }
    }

    /// Strict lexicographic comparison on (subject, predicate, object)
    pub fn less_than(&self, other: &IdTriple) -> (r: bool)
        ensures
            r == triple_lt(*self, *other),
    {
        self.subject < other.subject || (self.subject == other.subject && (self.predicate
            < other.predicate || (self.predicate == other.predicate && self.object
            < other.object)))
    }
}

/// The type of an object in a triple
///
/// Nodes may appear in both the subject and the object position, values
/// only in the object position. The same string may be both a node and a
/// value without conflict.
#[derive(Debug, Clone, Eq, Hash)]
pub enum ObjectType {
    Node(String),
    Value(String),
}

/// The mathematical form of an object: its tag and its characters.
pub enum ObjectTerm {
    Node(Seq<char>),
    Value(Seq<char>),
}

impl ObjectType {
    pub open spec fn term(&self) -> ObjectTerm {
        match self {
            ObjectType::Node(n) => ObjectTerm::Node(n@),
            ObjectType::Value(v) => ObjectTerm::Value(v@),
        }
    }

    /// A copy of this object with the same tag and characters
    pub fn duplicate(&self) -> (r: ObjectType)
        ensures
            r.term() == self.term(),
    {
        match self {
            ObjectType::Node(n) => ObjectType::Node(n.clone()),
            ObjectType::Value(v) => ObjectType::Value(v.clone()),
        }
    }
}

impl PartialEq for ObjectType {
    fn eq(&self, o: &ObjectType) -> (r: bool) {
        match self {
            ObjectType::Node(a) => match o {
                ObjectType::Node(b) => a.eq(b),
                ObjectType::Value(_) => false,
            },
            ObjectType::Value(a) => match o {
                ObjectType::Node(_) => false,
                ObjectType::Value(b) => a.eq(b),
            },
        }
    }
}

impl vstd::std_specs::cmp::PartialEqSpecImpl for ObjectType {
    open spec fn obeys_eq_spec() -> bool {
        true
    }

    open spec fn eq_spec(&self, o: &ObjectType) -> bool {
        self.term() == o.term()
    }
}

/// A triple stored as strings
#[derive(Debug, Clone, Eq, Hash)]
pub struct StringTriple {
    pub subject: String,
    pub predicate: String,
    pub object: ObjectType,
}

impl PartialEq for StringTriple {
    fn eq(&self, o: &StringTriple) -> (r: bool) {
        self.subject == o.subject && self.predicate == o.predicate && self.object == o.object
    }
}

impl vstd::std_specs::cmp::PartialEqSpecImpl for StringTriple {
    open spec fn obeys_eq_spec() -> bool {
        true
    }

    open spec fn eq_spec(&self, o: &StringTriple) -> bool {
        self.subject@ == o.subject@ && self.predicate@ == o.predicate@ && self.object.term()
            == o.object.term()
    }
}

impl StringTriple {
    /// Construct a triple with a node object
    pub fn new_node(subject: &str, predicate: &str, object: &str) -> (r: StringTriple)
        ensures
            r.subject@ == subject@,
            r.predicate@ == predicate@,
            r.object.term() == ObjectTerm::Node(object@),
    {
        StringTriple {
            subject: subject.to_owned(),
            predicate: predicate.to_owned(),
            object: ObjectType::Node(object.to_owned()),
        }
    }

    /// Construct a triple with a value object
    pub fn new_value(subject: &str, predicate: &str, object: &str) -> (r: StringTriple)
        ensures
            r.subject@ == subject@,
            r.predicate@ == predicate@,
            r.object.term() == ObjectTerm::Value(object@),
    {
        StringTriple {
            subject: subject.to_owned(),
            predicate: predicate.to_owned(),
            object: ObjectType::Value(object.to_owned()),
        }
    }

    /// Convert this triple to a `PartiallyResolvedTriple`, marking each part as unresolved
    pub fn to_unresolved(&self) -> (r: PartiallyResolvedTriple)
        ensures
            r.subject matches PossiblyResolved::Unresolved(s) && s@ == self.subject@,
            r.predicate matches PossiblyResolved::Unresolved(p) && p@ == self.predicate@,
            r.object matches PossiblyResolved::Unresolved(o) && o.term() == self.object.term(),
    {
        PartiallyResolvedTriple {
            subject: PossiblyResolved::Unresolved(self.subject.clone()),
            predicate: PossiblyResolved::Unresolved(self.predicate.clone()),
            object: PossiblyResolved::Unresolved(self.object.duplicate()),
        }
    }

    /// A copy of this triple with the same strings
    pub fn duplicate(&self) -> (r: StringTriple)
        ensures
            r.subject@ == self.subject@,
            r.predicate@ == self.predicate@,
            r.object.term() == self.object.term(),
    {
        StringTriple {
            subject: self.subject.clone(),
            predicate: self.predicate.clone(),
            object: self.object.duplicate(),
        }
    }
}

/// A part of a triple that is either still a string or already an id
#[derive(Debug, Clone, PartialEq, Eq, Hash)]
pub enum PossiblyResolved<T> {
    Unresolved(T),
    Resolved(u64),
}

impl<T> PossiblyResolved<T> {
    pub fn is_resolved(&self) -> (r: bool)
        ensures
            r == (self is Resolved),
    {
        match self {
            PossiblyResolved::Unresolved(_) => false,
            PossiblyResolved::Resolved(_) => true,
        }
    }

    pub fn as_ref(&self) -> (r: PossiblyResolved<&T>)
        ensures
            *self matches PossiblyResolved::Resolved(id) ==> r == PossiblyResolved::<&T>::Resolved(
                id,
            ),
            *self matches PossiblyResolved::Unresolved(u) ==> r matches PossiblyResolved::Unresolved(
                v,
            ) && *v == u,
    {
        match self {
            PossiblyResolved::Unresolved(u) => PossiblyResolved::Unresolved(u),
            PossiblyResolved::Resolved(id) => PossiblyResolved::Resolved(*id),
        }
    }

    pub fn unwrap_unresolved(self) -> (r: T)
        requires
            self is Unresolved,
        ensures
            self == PossiblyResolved::<T>::Unresolved(r),
    {
        match self {
            PossiblyResolved::Unresolved(u) => u,
            PossiblyResolved::Resolved(_) => { proof { assert(false); } unreached() },
        }
    }

    pub fn unwrap_resolved(self) -> (r: u64)
        requires
            self is Resolved,
        ensures
            self == PossiblyResolved::<T>::Resolved(r),
    {
        match self {
            PossiblyResolved::Unresolved(_) => { proof { assert(false); } unreached() },
            PossiblyResolved::Resolved(id) => id,
        }
    }
}

/// A triple some of whose parts may not have an id yet
#[derive(Debug, Clone)]
pub struct PartiallyResolvedTriple {
    pub subject: PossiblyResolved<String>,
    pub predicate: PossiblyResolved<String>,
    pub object: PossiblyResolved<ObjectType>,
}

} // verus!
