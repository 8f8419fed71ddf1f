//! Navigable views of a logical triple set: by subject, by subject and
//! predicate, and by object. Each holds its triples in ascending order.
use vstd::prelude::*;

use crate::triple::{triple_lt, IdTriple};
use crate::triple_set::{insert_id, sorted_ids, sorted_triples};

verus! {

/// Strict lexicographic order on (subject, predicate) pairs.
pub open spec fn pair_lt(a: (u64, u64), b: (u64, u64)) -> bool {
    a.0 < b.0 || (a.0 == b.0 && a.1 < b.1)
}

/// Pairs in strictly ascending order.
pub open spec fn sorted_pairs(s: Seq<(u64, u64)>) -> bool {
    forall|i: int, j: int| 0 <= i < j < s.len() ==> pair_lt(#[trigger] s[i], #[trigger] s[j])
}

/// The distinct subjects of the ascending `ts`, in ascending order.
pub fn distinct_subjects(ts: &Vec<IdTriple>) -> (r: Vec<u64>)
    requires
        sorted_triples(ts@),
    ensures
        sorted_ids(r@),
        forall|x: u64| #[trigger] r@.contains(x) <==> exists|t: IdTriple| ts@.contains(t) && t.subject == x,
{
    let mut r: Vec<u64> = Vec::new();
    let mut i: usize = 0;
    while i < ts.len()
        invariant
            0 <= i <= ts@.len(),
            sorted_triples(ts@),
            sorted_ids(r@),
            i > 0 ==> r@.len() > 0 && r@.last() == ts@[i - 1].subject,
            i == 0 ==> r@.len() == 0,
            forall|x: u64| #[trigger] r@.contains(x) <==> exists|j: int| 0 <= j < i && ts@[j].subject == x,
        decreases ts@.len() - i,
    {
        let s = ts[i].subject;
        let ghost before = r@;
        if r.len() == 0 || r[r.len() - 1] != s {
            proof {
                if i > 0 {
                    assert(triple_lt(ts@[i - 1], ts@[i as int]));
                }
            }
            r.push(s);
            proof {
                assert forall|x: u64| #[trigger] r@.contains(x) <==> exists|j: int| 0 <= j < i + 1 && ts@[j].subject == x by {
                    if r@.contains(x) && x != s {
                        let k = choose|k: int| 0 <= k < r@.len() && r@[k] == x;
                        assert(before[k] == x);
                        assert(before.contains(x));
                    }
                    if exists|j: int| 0 <= j < i + 1 && ts@[j].subject == x {
                        let j = choose|j: int| 0 <= j < i + 1 && ts@[j].subject == x;
                        if j < i {
                            assert(before.contains(x));
                            let k = choose|k: int| 0 <= k < before.len() && before[k] == x;
                            assert(r@[k] == x);
                        } else {
                            assert(r@[before.len() as int] == x);
                        }
                    }
                }
            }
        } else {
            proof {
                assert forall|x: u64| #[trigger] r@.contains(x) <==> exists|j: int| 0 <= j < i + 1 && ts@[j].subject == x by {
                    if x == s {
                        assert(r@[r@.len() - 1] == x);
                        assert(ts@[i - 1].subject == x);
                    }
                    if exists|j: int| 0 <= j < i + 1 && ts@[j].subject == x {
                        let j = choose|j: int| 0 <= j < i + 1 && ts@[j].subject == x;
                        if j == i {
                            assert(ts@[i - 1].subject == x);
                        }
                    }
                }
            }
        }
        i = i + 1;
    }
    proof {
        assert forall|x: u64| #[trigger] r@.contains(x) <==> exists|t: IdTriple| ts@.contains(t) && t.subject == x by {
            if r@.contains(x) {
                let j = choose|j: int| 0 <= j < ts@.len() && ts@[j].subject == x;
                assert(ts@.contains(ts@[j]));
            }
            if exists|t: IdTriple| ts@.contains(t) && t.subject == x {
                let t = choose|t: IdTriple| ts@.contains(t) && t.subject == x;
                let j = choose|j: int| 0 <= j < ts@.len() && ts@[j] == t;
                assert(ts@[j].subject == x);
            }
        }
    }
    r
}

/// The triples of the ascending `ts` that `selects` keeps, in the same order.
fn select_triples(ts: &Vec<IdTriple>, subject: Option<u64>, predicate: Option<u64>, object: Option<u64>) -> (r: Vec<IdTriple>)
    requires
        sorted_triples(ts@),
    ensures
        sorted_triples(r@),
        forall|t: IdTriple| #[trigger] r@.contains(t) <==> ts@.contains(t) && selects(subject, predicate, object, t),
{
    let mut r: Vec<IdTriple> = Vec::new();
    let mut i: usize = 0;
    while i < ts.len()
        invariant
            0 <= i <= ts@.len(),
            sorted_triples(ts@),
            sorted_triples(r@),
            forall|k: int| 0 <= k < r@.len() ==> exists|j: int| 0 <= j < i && ts@[j] == #[trigger] r@[k],
            forall|t: IdTriple| #[trigger] r@.contains(t) <==> (exists|j: int| 0 <= j < i && ts@[j] == t) && selects(subject, predicate, object, t),
        decreases ts@.len() - i,
    {
        let t = ts[i];
        let keep = match subject {
            Some(x) => t.subject == x,
            None => true,
        } && match predicate {
            Some(p) => t.predicate == p,
            None => true,
        } && match object {
            Some(o) => t.object == o,
            None => true,
        };
        if keep {
            let ghost before = r@;
            proof {
                assert forall|k: int| 0 <= k < before.len() implies triple_lt(before[k], t) by {
                    let j = choose|j: int| 0 <= j < i && ts@[j] == #[trigger] before[k];
                }
            }
            r.push(t);
            proof {
                assert forall|k: int| 0 <= k < r@.len() implies exists|j: int| 0 <= j < i + 1 && ts@[j] == #[trigger] r@[k] by {
                    if k < before.len() {
                        let j = choose|j: int| 0 <= j < i && ts@[j] == #[trigger] before[k];
                        assert(r@[k] == before[k]);
                    } else {
                        assert(ts@[i as int] == r@[k]);
                    }
                }
                assert forall|x: IdTriple| #[trigger] r@.contains(x) <==> (exists|j: int| 0 <= j < i + 1 && ts@[j] == x) && selects(subject, predicate, object, x) by {
                    if r@.contains(x) {
                        let k = choose|k: int| 0 <= k < r@.len() && r@[k] == x;
                        if k < before.len() {
                            assert(before[k] == x);
                            assert(before.contains(x));
                        }
                    }
                    if (exists|j: int| 0 <= j < i + 1 && ts@[j] == x) && selects(subject, predicate, object, x) {
                        if x != t {
                            let j = choose|j: int| 0 <= j < i + 1 && ts@[j] == x;
                            assert(before.contains(x));
                            let k = choose|k: int| 0 <= k < before.len() && before[k] == x;
                            assert(r@[k] == x);
                        } else {
                            assert(r@[before.len() as int] == x);
                        }
                    }
                }
            }
        } else {
            proof {
                assert forall|k: int| 0 <= k < r@.len() implies exists|j: int| 0 <= j < i + 1 && ts@[j] == #[trigger] r@[k] by {
                    let j = choose|j: int| 0 <= j < i && ts@[j] == #[trigger] r@[k];
                }
                assert forall|x: IdTriple| #[trigger] r@.contains(x) <==> (exists|j: int| 0 <= j < i + 1 && ts@[j] == x) && selects(subject, predicate, object, x) by {
                    if (exists|j: int| 0 <= j < i + 1 && ts@[j] == x) && selects(subject, predicate, object, x) {
                        let j = choose|j: int| 0 <= j < i + 1 && ts@[j] == x;
                        assert(j < i);
                    }
                }
            }
        }
        i = i + 1;
    }
    proof {
        assert forall|x: IdTriple| #[trigger] r@.contains(x) <==> ts@.contains(x) && selects(subject, predicate, object, x) by {
            if ts@.contains(x) {
                let j = choose|j: int| 0 <= j < ts@.len() && ts@[j] == x;
            }
        }
    }
    r
}

/// Whether `t` has the subject, predicate and object that are given.
pub open spec fn selects(subject: Option<u64>, predicate: Option<u64>, object: Option<u64>, t: IdTriple) -> bool {
    &&& (subject matches Some(x) ==> t.subject == x)
    &&& (predicate matches Some(p) ==> t.predicate == p)
    &&& (object matches Some(o) ==> t.object == o)
}

/// Triples of one subject and predicate: the objects they point at.
pub struct SubjectPredicateLookup {
    subject: u64,
    predicate: u64,
    objects: Vec<u64>,
}

impl SubjectPredicateLookup {
    pub closed spec fn spec_subject(&self) -> u64 {
        self.subject
    }

    pub closed spec fn spec_predicate(&self) -> u64 {
        self.predicate
    }

    pub closed spec fn spec_objects(&self) -> Seq<u64> {
        self.objects@
    }

    pub open spec fn wf(&self) -> bool {
        sorted_ids(self.spec_objects())
    }

    /// The lookup for `subject` and `predicate` over the ascending `ts`
    pub fn from_triples(subject: u64, predicate: u64, ts: &Vec<IdTriple>) -> (r: SubjectPredicateLookup)
        requires
            sorted_triples(ts@),
        ensures
            r.wf(),
            r.spec_subject() == subject,
            r.spec_predicate() == predicate,
            forall|o: u64| #[trigger] r.spec_objects().contains(o) <==> ts@.contains(IdTriple { subject, predicate, object: o }),
    {
        let sel = select_triples(ts, Some(subject), Some(predicate), None);
        let mut objects: Vec<u64> = Vec::new();
        let mut i: usize = 0;
        while i < sel.len()
            invariant
                0 <= i <= sel@.len(),
                sorted_triples(sel@),
                forall|t: IdTriple| #[trigger] sel@.contains(t) ==> t.subject == subject && t.predicate == predicate,
                objects@.len() == i,
                forall|k: int| 0 <= k < i ==> #[trigger] objects@[k] == sel@[k].object,
                sorted_ids(objects@),
            decreases sel@.len() - i,
        {
            proof {
                assert(sel@.contains(sel@[i as int]));
                if i > 0 {
                    assert(sel@.contains(sel@[i - 1]));
                    assert(triple_lt(sel@[i - 1], sel@[i as int]));
                }
                assert forall|k: int| 0 <= k < i implies objects@[k] < sel@[i as int].object by {
                    assert(sel@.contains(sel@[k]));
                    assert(triple_lt(sel@[k], sel@[i as int]));
                }
            }
            objects.push(sel[i].object);
            i = i + 1;
        }
        proof {
            assert forall|o: u64| #[trigger] objects@.contains(o) <==> ts@.contains(IdTriple { subject, predicate, object: o }) by {
                let t = IdTriple { subject, predicate, object: o };
                if objects@.contains(o) {
                    let k = choose|k: int| 0 <= k < objects@.len() && objects@[k] == o;
                    assert(sel@.contains(sel@[k]));
                    assert(sel@[k] == t);
                }
                if ts@.contains(t) {
                    assert(sel@.contains(t));
                    let k = choose|k: int| 0 <= k < sel@.len() && sel@[k] == t;
                    assert(objects@[k] == o);
                }
            }
        }
        SubjectPredicateLookup { subject, predicate, objects }
    }

    /// The subject that this lookup is based on
    pub fn subject(&self) -> (r: u64)
        ensures
            r == self.spec_subject(),
    {
        self.subject
    }

    /// The predicate that this lookup is based on
    pub fn predicate(&self) -> (r: u64)
        ensures
            r == self.spec_predicate(),
    {
        self.predicate
    }

    /// The objects, in ascending order
    pub fn objects(&self) -> (r: Vec<u64>)
        ensures
            r@ == self.spec_objects(),
    {
        self.objects.clone()
    }

    /// Returns true if the given object exists, and false otherwise
    pub fn has_object(&self, object: u64) -> (r: bool)
        ensures
            r == self.spec_objects().contains(object),
    {
        let mut i: usize = 0;
        while i < self.objects.len()
            invariant
                0 <= i <= self.objects@.len(),
                forall|k: int| 0 <= k < i ==> self.objects@[k] != object,
            decreases self.objects@.len() - i,
        {
            if self.objects[i] == object {
                return true;
            }
            i = i + 1;
        }
        false
    }

    /// The triples of this lookup, in ascending order of object
    pub fn triples(&self) -> (r: Vec<IdTriple>)
        ensures
            r@.len() == self.spec_objects().len(),
            forall|k: int| 0 <= k < r@.len() ==> #[trigger] r@[k] == (IdTriple {
                subject: self.spec_subject(),
                predicate: self.spec_predicate(),
                object: self.spec_objects()[k],
            }),
    {
        let mut r: Vec<IdTriple> = Vec::new();
        let mut i: usize = 0;
        while i < self.objects.len()
            invariant
                0 <= i <= self.objects@.len(),
                r@.len() == i,
                forall|k: int| 0 <= k < i ==> #[trigger] r@[k] == (IdTriple {
                    subject: self.subject,
                    predicate: self.predicate,
                    object: self.objects@[k],
                }),
            decreases self.objects@.len() - i,
        {
            r.push(IdTriple { subject: self.subject, predicate: self.predicate, object: self.objects[i] });
            i = i + 1;
        }
        r
    }

    /// The triple for the given object, or None if it doesn't exist
    pub fn triple(&self, object: u64) -> (r: Option<IdTriple>)
        ensures
            r == (if self.spec_objects().contains(object) {
                Some(IdTriple { subject: self.spec_subject(), predicate: self.spec_predicate(), object })
            } else {
                None
            }),
    {
        if self.has_object(object) {
            Some(IdTriple { subject: self.subject, predicate: self.predicate, object })
        } else {
            None
        }
    }
}

/// Triples of one subject.
pub struct SubjectLookup {
    subject: u64,
    triples: Vec<IdTriple>,
}

impl SubjectLookup {
    pub closed spec fn spec_subject(&self) -> u64 {
        self.subject
    }

    pub closed spec fn spec_triples(&self) -> Seq<IdTriple> {
        self.triples@
    }

    pub open spec fn wf(&self) -> bool {
        &&& sorted_triples(self.spec_triples())
        &&& forall|t: IdTriple| #[trigger] self.spec_triples().contains(t) ==> t.subject == self.spec_subject()
    }

    /// The lookup for `subject` over the ascending `ts`
    pub fn from_triples(subject: u64, ts: &Vec<IdTriple>) -> (r: SubjectLookup)
        requires
            sorted_triples(ts@),
        ensures
            r.wf(),
            r.spec_subject() == subject,
            forall|t: IdTriple| #[trigger] r.spec_triples().contains(t) <==> ts@.contains(t) && t.subject == subject,
    {
        let triples = select_triples(ts, Some(subject), None, None);
        SubjectLookup { subject, triples }
    }

    /// The subject that this lookup is based on
    pub fn subject(&self) -> (r: u64)
        ensures
            r == self.spec_subject(),
    {
        self.subject
    }

    /// The triples of this subject, in ascending order
    pub fn triples(&self) -> (r: Vec<IdTriple>)
        ensures
            r@ == self.spec_triples(),
    {
        self.triples.clone()
    }

    /// One lookup for each predicate of this subject, in ascending order of predicate
    pub fn predicates(&self) -> (r: Vec<SubjectPredicateLookup>)
        requires
            self.wf(),
        ensures
            forall|i: int, j: int| 0 <= i < j < r@.len() ==> (#[trigger] r@[i]).spec_predicate() < (#[trigger] r@[j]).spec_predicate(),
            forall|t: IdTriple| #[trigger] self.spec_triples().contains(t) ==> exists|i: int| 0 <= i < r@.len() && #[trigger] r@[i].spec_predicate() == t.predicate,
            forall|i: int| 0 <= i < r@.len() ==> {
                &&& (#[trigger] r@[i]).wf()
                &&& r@[i].spec_subject() == self.spec_subject()
                &&& exists|t: IdTriple| #[trigger] self.spec_triples().contains(t) && t.predicate == r@[i].spec_predicate()
                &&& forall|o: u64| #[trigger] r@[i].spec_objects().contains(o) <==> self.spec_triples().contains(
                    IdTriple { subject: self.spec_subject(), predicate: r@[i].spec_predicate(), object: o },
                )
            },
    {
        let mut ids: Vec<u64> = Vec::new();
        let mut i: usize = 0;
        while i < self.triples.len()
            invariant
                0 <= i <= self.triples@.len(),
                sorted_ids(ids@),
                forall|x: u64| #[trigger] ids@.contains(x) <==> exists|j: int| 0 <= j < i && self.triples@[j].predicate == x,
            decreases self.triples@.len() - i,
        {
            let ghost before = ids@;
            insert_id(&mut ids, self.triples[i].predicate);
            proof {
                assert forall|x: u64| #[trigger] ids@.contains(x) <==> exists|j: int| 0 <= j < i + 1 && self.triples@[j].predicate == x by {
                    if exists|j: int| 0 <= j < i + 1 && self.triples@[j].predicate == x {
                        let j = choose|j: int| 0 <= j < i + 1 && self.triples@[j].predicate == x;
                        if j < i {
                            assert(before.contains(x));
                        }
                    }
                }
            }
            i = i + 1;
        }
        let mut r: Vec<SubjectPredicateLookup> = Vec::new();
        let mut k: usize = 0;
        while k < ids.len()
            invariant
                0 <= k <= ids@.len(),
                self.wf(),
                sorted_ids(ids@),
                r@.len() == k,
                forall|m: int| 0 <= m < k ==> {
                    &&& (#[trigger] r@[m]).wf()
                    &&& r@[m].spec_subject() == self.spec_subject()
                    &&& r@[m].spec_predicate() == ids@[m]
                    &&& forall|o: u64| #[trigger] r@[m].spec_objects().contains(o) <==> self.spec_triples().contains(
                        IdTriple { subject: self.spec_subject(), predicate: ids@[m], object: o },
                    )
                },
            decreases ids@.len() - k,
        {
            r.push(SubjectPredicateLookup::from_triples(self.subject, ids[k], &self.triples));
            k = k + 1;
        }
        proof {
            assert forall|i: int, j: int| 0 <= i < j < r@.len() implies (#[trigger] r@[i]).spec_predicate() < (#[trigger] r@[j]).spec_predicate() by {
                assert(ids@[i] < ids@[j]);
            }
            assert forall|t: IdTriple| #[trigger] self.spec_triples().contains(t) implies exists|i: int| 0 <= i < r@.len() && #[trigger] r@[i].spec_predicate() == t.predicate by {
                let j = choose|j: int| 0 <= j < self.triples@.len() && self.triples@[j] == t;
                assert(ids@.contains(t.predicate));
                let m = choose|m: int| 0 <= m < ids@.len() && ids@[m] == t.predicate;
                assert(r@[m].spec_predicate() == t.predicate);
            }
            assert forall|i: int| 0 <= i < r@.len() implies exists|t: IdTriple| #[trigger] self.spec_triples().contains(t) && t.predicate == (#[trigger] r@[i]).spec_predicate() by {
                let p = r@[i].spec_predicate();
                assert(ids@.contains(p));
                let j = choose|j: int| 0 <= j < self.triples@.len() && self.triples@[j].predicate == p;
                assert(self.spec_triples().contains(self.triples@[j]));
            }
        }
        r
    }

    /// The lookup for the given predicate, or None if this subject has no
    /// triple with it
    pub fn lookup_predicate(&self, predicate: u64) -> (r: Option<SubjectPredicateLookup>)
        requires
            self.wf(),
        ensures
            match r {
                Some(l) => {
                    &&& exists|t: IdTriple| #[trigger] self.spec_triples().contains(t) && t.predicate == predicate
                    &&& l.wf()
                    &&& l.spec_subject() == self.spec_subject()
                    &&& l.spec_predicate() == predicate
                    &&& forall|o: u64| #[trigger] l.spec_objects().contains(o) <==> self.spec_triples().contains(
                        IdTriple { subject: self.spec_subject(), predicate, object: o },
                    )
                },
                None => !exists|t: IdTriple| #[trigger] self.spec_triples().contains(t) && t.predicate == predicate,
            },
    {
        let mut i: usize = 0;
        while i < self.triples.len()
            invariant
                0 <= i <= self.triples@.len(),
                self.wf(),
                forall|k: int| 0 <= k < i ==> (#[trigger] self.triples@[k]).predicate != predicate,
            decreases self.triples@.len() - i,
        {
            if self.triples[i].predicate == predicate {
                assert(self.spec_triples().contains(self.triples@[i as int]));
                return Some(SubjectPredicateLookup::from_triples(self.subject, predicate, &self.triples));
            }
            i = i + 1;
        }
        proof {
            if exists|t: IdTriple| #[trigger] self.spec_triples().contains(t) && t.predicate == predicate {
                let t = choose|t: IdTriple| #[trigger] self.spec_triples().contains(t) && t.predicate == predicate;
                let j = choose|j: int| 0 <= j < self.triples@.len() && self.triples@[j] == t;
                assert(self.triples@[j].predicate != predicate);
            }
        }
        None
    }
}

/// Triples that point at one object: their (subject, predicate) pairs.
pub struct ObjectLookup {
    object: u64,
    pairs: Vec<(u64, u64)>,
}

impl ObjectLookup {
    pub closed spec fn spec_object(&self) -> u64 {
        self.object
    }

    pub closed spec fn spec_pairs(&self) -> Seq<(u64, u64)> {
        self.pairs@
    }

    pub open spec fn wf(&self) -> bool {
        sorted_pairs(self.spec_pairs())
    }

    /// The lookup for `object` over the ascending `ts`
    pub fn from_triples(object: u64, ts: &Vec<IdTriple>) -> (r: ObjectLookup)
        requires
            sorted_triples(ts@),
        ensures
            r.wf(),
            r.spec_object() == object,
            forall|s: u64, p: u64| #[trigger] r.spec_pairs().contains((s, p)) <==> ts@.contains(
                IdTriple { subject: s, predicate: p, object },
            ),
    {
        let sel = select_triples(ts, None, None, Some(object));
        let mut pairs: Vec<(u64, u64)> = Vec::new();
        let mut i: usize = 0;
        while i < sel.len()
            invariant
                0 <= i <= sel@.len(),
                sorted_triples(sel@),
                forall|t: IdTriple| #[trigger] sel@.contains(t) ==> t.object == object,
                pairs@.len() == i,
                forall|k: int| 0 <= k < i ==> #[trigger] pairs@[k] == (sel@[k].subject, sel@[k].predicate),
                sorted_pairs(pairs@),
            decreases sel@.len() - i,
        {
            proof {
                assert(sel@.contains(sel@[i as int]));
                assert forall|k: int| 0 <= k < i implies pair_lt(pairs@[k], (sel@[i as int].subject, sel@[i as int].predicate)) by {
                    assert(sel@.contains(sel@[k]));
                    assert(triple_lt(sel@[k], sel@[i as int]));
                }
            }
            pairs.push((sel[i].subject, sel[i].predicate));
            i = i + 1;
        }
        proof {
            assert forall|s: u64, p: u64| #[trigger] pairs@.contains((s, p)) <==> ts@.contains(
                IdTriple { subject: s, predicate: p, object },
            ) by {
                let t = IdTriple { subject: s, predicate: p, object };
                if pairs@.contains((s, p)) {
                    let k = choose|k: int| 0 <= k < pairs@.len() && pairs@[k] == (s, p);
                    assert(sel@.contains(sel@[k]));
                    assert(sel@[k] == t);
                }
                if ts@.contains(t) {
                    assert(sel@.contains(t));
                    let k = choose|k: int| 0 <= k < sel@.len() && sel@[k] == t;
                    assert(pairs@[k] == (s, p));
                }
            }
        }
        ObjectLookup { object, pairs }
    }

    /// The object that this lookup is based on
    pub fn object(&self) -> (r: u64)
        ensures
            r == self.spec_object(),
    {
        self.object
    }

    /// The (subject, predicate) pairs pointing at this object, in ascending order
    pub fn subject_predicate_pairs(&self) -> (r: Vec<(u64, u64)>)
        ensures
            r@ == self.spec_pairs(),
    {
        let mut r: Vec<(u64, u64)> = Vec::new();
        let mut i: usize = 0;
        while i < self.pairs.len()
            invariant
                0 <= i <= self.pairs@.len(),
                r@ == self.pairs@.subrange(0, i as int),
            decreases self.pairs@.len() - i,
        {
            r.push(self.pairs[i]);
            i = i + 1;
            assert(r@ =~= self.pairs@.subrange(0, i as int));
        }
        assert(r@ =~= self.pairs@);
        r
    }

    /// Returns true if the object is connected to the given subject and
    /// predicate; the scan stops once the pairs pass the one sought
    pub fn has_subject_predicate_pair(&self, subject: u64, predicate: u64) -> (r: bool)
        requires
            self.wf(),
        ensures
            r == self.spec_pairs().contains((subject, predicate)),
    {
        let mut i: usize = 0;
        while i < self.pairs.len()
            invariant
                0 <= i <= self.pairs@.len(),
                self.wf(),
                forall|k: int| 0 <= k < i ==> pair_lt(#[trigger] self.pairs@[k], (subject, predicate)),
            decreases self.pairs@.len() - i,
        {
            let (s, p) = self.pairs[i];
            if s == subject && p == predicate {
                assert(self.pairs@[i as int] == (subject, predicate));
                return true;
            }
            if s > subject || (s == subject && p > predicate) {
                proof {
                    assert forall|k: int| i <= k < self.pairs@.len() implies #[trigger] self.pairs@[k] != (subject, predicate) by {
                        if k > i {
                            assert(pair_lt(self.pairs@[i as int], self.pairs@[k]));
                        }
                    }
                }
                return false;
            }
            i = i + 1;
        }
        false
    }

    /// The triple with the given subject and predicate and this object, or
    /// None if it doesn't exist
    pub fn triple(&self, subject: u64, predicate: u64) -> (r: Option<IdTriple>)
        requires
            self.wf(),
        ensures
            r == (if self.spec_pairs().contains((subject, predicate)) {
                Some(IdTriple { subject, predicate, object: self.spec_object() })
            } else {
                None
            }),
    {
        if self.has_subject_predicate_pair(subject, predicate) {
            Some(IdTriple { subject, predicate, object: self.object })
        } else {
            None
        }
    }

    /// The triples that point at this object, in ascending order
    pub fn triples(&self) -> (r: Vec<IdTriple>)
        ensures
            r@.len() == self.spec_pairs().len(),
            forall|k: int| 0 <= k < r@.len() ==> #[trigger] r@[k] == (IdTriple {
                subject: self.spec_pairs()[k].0,
                predicate: self.spec_pairs()[k].1,
                object: self.spec_object(),
            }),
    {
        let mut r: Vec<IdTriple> = Vec::new();
        let mut i: usize = 0;
        while i < self.pairs.len()
            invariant
                0 <= i <= self.pairs@.len(),
                r@.len() == i,
                forall|k: int| 0 <= k < i ==> #[trigger] r@[k] == (IdTriple {
                    subject: self.pairs@[k].0,
                    predicate: self.pairs@[k].1,
                    object: self.object,
                }),
            decreases self.pairs@.len() - i,
        {
            let (s, p) = self.pairs[i];
            r.push(IdTriple { subject: s, predicate: p, object: self.object });
            i = i + 1;
        }
        r
    }
}

} // verus!
