//! A dictionary: a bijection between a sorted set of strings and the
//! positions 0..N of that order.
use vstd::prelude::*;
use vstd::utf8::{encode_utf8, encode_utf8_decode_utf8};

verus! {

/// Strict lexicographic order on byte strings; a proper prefix comes first.
pub open spec fn bytes_lt(a: Seq<u8>, b: Seq<u8>) -> bool
    decreases a.len(),
{
    if a.len() == 0 {
        b.len() > 0
    } else if b.len() == 0 {
        false
    } else if a[0] < b[0] {
        true
    } else if a[0] > b[0] {
        false
    } else {
        bytes_lt(a.drop_first(), b.drop_first())
    }
}

/// Strict order on strings: the order of their UTF-8 encodings.
pub open spec fn str_lt(a: Seq<char>, b: Seq<char>) -> bool {
    bytes_lt(encode_utf8(a), encode_utf8(b))
}

pub proof fn lemma_bytes_lt_irreflexive(a: Seq<u8>)
    ensures
        !bytes_lt(a, a),
    decreases a.len(),
{
    if a.len() > 0 {
        lemma_bytes_lt_irreflexive(a.drop_first());
    }
}

pub proof fn lemma_bytes_lt_transitive(a: Seq<u8>, b: Seq<u8>, c: Seq<u8>)
    requires
        bytes_lt(a, b),
        bytes_lt(b, c),
    ensures
        bytes_lt(a, c),
    decreases a.len(),
{
    if a.len() > 0 && b.len() > 0 && c.len() > 0 && a[0] == b[0] && b[0] == c[0] {
        lemma_bytes_lt_transitive(a.drop_first(), b.drop_first(), c.drop_first());
    }
}

pub proof fn lemma_bytes_lt_total(a: Seq<u8>, b: Seq<u8>)
    ensures
        a == b || bytes_lt(a, b) || bytes_lt(b, a),
    decreases a.len(),
{
    if a.len() > 0 && b.len() > 0 && a[0] == b[0] {
        lemma_bytes_lt_total(a.drop_first(), b.drop_first());
        if a.drop_first() == b.drop_first() {
            assert(a =~= b) by {
                assert forall|i: int| 0 <= i < a.len() implies a[i] == b[i] by {
                    if i > 0 {
                        assert(a[i] == a.drop_first()[i - 1]);
                        assert(b[i] == b.drop_first()[i - 1]);
                    }
                }
            }
        }
    } else if a.len() == 0 && b.len() == 0 {
        assert(a =~= b);
    }
}

/// Distinct strings have distinct encodings.
pub proof fn lemma_encode_injective(a: Seq<char>, b: Seq<char>)
    requires
        encode_utf8(a) == encode_utf8(b),
    ensures
        a == b,
{
    encode_utf8_decode_utf8(a);
    encode_utf8_decode_utf8(b);
}

/// `str_lt` is a strict total order.
pub proof fn lemma_str_lt_order(a: Seq<char>, b: Seq<char>, c: Seq<char>)
    ensures
        !str_lt(a, a),
        str_lt(a, b) && str_lt(b, c) ==> str_lt(a, c),
        a == b || str_lt(a, b) || str_lt(b, a),
{
    lemma_bytes_lt_irreflexive(encode_utf8(a));
    if str_lt(a, b) && str_lt(b, c) {
        lemma_bytes_lt_transitive(encode_utf8(a), encode_utf8(b), encode_utf8(c));
    }
    lemma_bytes_lt_total(encode_utf8(a), encode_utf8(b));
    if encode_utf8(a) == encode_utf8(b) {
        lemma_encode_injective(a, b);
    }
}

proof fn lemma_bytes_lt_step(a: Seq<u8>, b: Seq<u8>, i: int)
    requires
        0 <= i < a.len(),
        i < b.len(),
    ensures
        a[i] < b[i] ==> bytes_lt(a.skip(i), b.skip(i)),
        a[i] > b[i] ==> !bytes_lt(a.skip(i), b.skip(i)),
        a[i] == b[i] ==> bytes_lt(a.skip(i), b.skip(i)) == bytes_lt(a.skip(i + 1), b.skip(i + 1)),
{
    assert(a.skip(i).drop_first() =~= a.skip(i + 1));
    assert(b.skip(i).drop_first() =~= b.skip(i + 1));
}

/// Byte-wise comparison of two strings.
pub fn str_less(a: &str, b: &str) -> (r: bool)
    ensures
        r == str_lt(a@, b@),
{
    let x = a.as_bytes();
    let y = b.as_bytes();
    let mut i: usize = 0;
    assert(x@.skip(0) =~= x@);
    assert(y@.skip(0) =~= y@);
    while i < x.len() && i < y.len()
        invariant
            0 <= i <= x@.len(),
            i <= y@.len(),
            x@ == encode_utf8(a@),
            y@ == encode_utf8(b@),
            bytes_lt(x@, y@) == bytes_lt(x@.skip(i as int), y@.skip(i as int)),
        decreases x.len() - i,
    {
        proof {
            lemma_bytes_lt_step(x@, y@, i as int);
        }
        if x[i] < y[i] {
            return true;
        } else if x[i] > y[i] {
            return false;
        }
        i = i + 1;
    }
    i == x.len() && i < y.len()
}

/// Strings in strictly ascending byte order.
pub open spec fn sorted_strings(s: Seq<Seq<char>>) -> bool {
    forall|i: int, j: int| 0 <= i < j < s.len() ==> str_lt(#[trigger] s[i], #[trigger] s[j])
}

/// The strings of one id space that a single layer introduces, kept sorted.
pub struct Dictionary {
    strings: Vec<String>,
}

impl View for Dictionary {
    type V = Seq<Seq<char>>;

    closed spec fn view(&self) -> Seq<Seq<char>> {
        self.strings@.map_values(|s: String| s@)
    }
}

impl Dictionary {
    pub open spec fn wf(&self) -> bool {
        sorted_strings(self@)
    }

    /// An empty dictionary
    pub fn new() -> (r: Dictionary)
        ensures
            r.wf(),
            r@ == Seq::<Seq<char>>::empty(),
    {
        let r = Dictionary { strings: Vec::new() };
        assert(r@ =~= Seq::<Seq<char>>::empty());
        r
    }

    /// A copy with the same strings
    pub fn duplicate(&self) -> (r: Dictionary)
        ensures
            r@ == self@,
    {
        let mut strings: Vec<String> = Vec::new();
        let mut i: usize = 0;
        while i < self.strings.len()
            invariant
                0 <= i <= self.strings@.len(),
                strings@.len() == i,
                forall|k: int| 0 <= k < i ==> (#[trigger] strings@[k])@ == self.strings@[k]@,
            decreases self.strings@.len() - i,
        {
            strings.push(self.strings[i].clone());
            i = i + 1;
        }
        let r = Dictionary { strings };
        assert(r@ =~= self@);
        r
    }

    /// The number of strings
    pub fn len(&self) -> (r: usize)
        ensures
            r == self@.len(),
    {
        self.strings.len()
    }

    /// The position of `s`, or None if it is not in the dictionary
    pub fn index_of(&self, s: &str) -> (r: Option<usize>)
        requires
            self.wf(),
        ensures
            match r {
                Some(i) => i < self@.len() && self@[i as int] == s@,
                None => !self@.contains(s@),
            },
    {
        let mut lo: usize = 0;
        let mut hi: usize = self.strings.len();
        while lo < hi
            invariant
                0 <= lo <= hi <= self@.len(),
                self.wf(),
                forall|i: int| 0 <= i < lo ==> str_lt(#[trigger] self@[i], s@),
                forall|i: int| hi <= i < self@.len() ==> str_lt(s@, #[trigger] self@[i]),
            decreases hi - lo,
        {
            let mid = lo + (hi - lo) / 2;
            let m = self.strings[mid].as_str();
            if str_less(m, s) {
                proof {
                    assert forall|i: int| 0 <= i <= mid implies str_lt(#[trigger] self@[i], s@) by {
                        if i < mid {
                            lemma_str_lt_order(self@[i], self@[mid as int], s@);
                        }
                    }
                }
                lo = mid + 1;
            } else if str_less(s, m) {
                proof {
                    assert forall|i: int| mid <= i < self@.len() implies str_lt(s@, #[trigger] self@[i]) by {
                        if i > mid {
                            lemma_str_lt_order(s@, self@[mid as int], self@[i]);
                        }
                    }
                }
                hi = mid;
            } else {
                proof {
                    lemma_str_lt_order(m@, s@, s@);
                }
                return Some(mid);
            }
        }
        proof {
            if self@.contains(s@) {
                let k = choose|k: int| 0 <= k < self@.len() && self@[k] == s@;
                lemma_str_lt_order(s@, s@, s@);
            }
        }
        None
    }

    /// The string at position `i`, or None if there is none
    pub fn string_at(&self, i: usize) -> (r: Option<String>)
        ensures
            match r {
                Some(s) => i < self@.len() && s@ == self@[i as int],
                None => i >= self@.len(),
            },
    {
        if i < self.strings.len() {
            Some(self.strings[i].clone())
        } else {
            None
        }
    }

    /// Adds `s`, keeping the strings sorted and distinct
    pub fn insert(&mut self, s: &str)
        requires
            old(self).wf(),
        ensures
            final(self).wf(),
            forall|x: Seq<char>| #[trigger] final(self)@.contains(x) <==> (old(self)@.contains(x) || x == s@),
            final(self)@.len() <= old(self)@.len() + 1,
    {
        let mut i: usize = 0;
        while i < self.strings.len() && str_less(self.strings[i].as_str(), s)
            invariant
                0 <= i <= self@.len(),
                self.wf(),
                forall|k: int| 0 <= k < i ==> str_lt(#[trigger] self@[k], s@),
            decreases self@.len() - i,
        {
            i = i + 1;
        }
        if i < self.strings.len() && !str_less(s, self.strings[i].as_str()) {
            proof {
                lemma_str_lt_order(self@[i as int], s@, s@);
            }
            return;
        }
        let ghost before = self@;
        self.strings.insert(i, s.to_owned());
        proof {
            assert(forall|k: int| i < k < self@.len() ==> self@[k] == before[k - 1]);
            assert(forall|k: int| 0 <= k < i ==> self@[k] == before[k]);
            assert(self@[i as int] == s@);
            assert forall|a: int, b: int| 0 <= a < b < self@.len() implies str_lt(
                #[trigger] self@[a],
                #[trigger] self@[b],
            ) by {
                if b == i {
                    assert(str_lt(before[a], s@));
                } else if a == i {
                    assert(str_lt(s@, before[i as int]));
                    if b - 1 > i {
                        lemma_str_lt_order(s@, before[i as int], before[b - 1]);
                    }
                    assert(str_lt(s@, before[b - 1]));
                } else if a < i && b > i {
                    assert(str_lt(before[a], before[b - 1]));
                } else if a > i {
                    assert(str_lt(before[a - 1], before[b - 1]));
                } else {
                    assert(str_lt(before[a], before[b]));
                }
            }
            assert forall|x: Seq<char>| #[trigger] self@.contains(x) <==> (before.contains(x) || x == s@) by {
                if self@.contains(x) && x != s@ {
                    let k = choose|k: int| 0 <= k < self@.len() && self@[k] == x;
                    if k < i {
                        assert(before[k] == x);
                    } else {
                        assert(before[k - 1] == x);
                    }
                }
                if before.contains(x) {
                    let k = choose|k: int| 0 <= k < before.len() && before[k] == x;
                    if k < i {
                        assert(self@[k] == x);
                    } else {
                        assert(self@[k + 1] == x);
                    }
                }
            }
        }
    }
}

/// A strictly ascending sequence of strings is determined by its elements.
pub proof fn lemma_sorted_strings_unique(a: Seq<Seq<char>>, b: Seq<Seq<char>>)
    requires
        sorted_strings(a),
        sorted_strings(b),
        forall|x: Seq<char>| #[trigger] a.contains(x) <==> b.contains(x),
    ensures
        a == b,
    decreases a.len(),
{
    if a.len() == 0 {
        if b.len() > 0 {
            assert(b.contains(b[0]));
            assert(a.contains(b[0]));
        }
        assert(a =~= b);
    } else {
        assert(a.contains(a[0]));
        let j = choose|j: int| 0 <= j < b.len() && b[j] == a[0];
        assert(b.contains(a[0]));
        assert(b.contains(b[0]));
        assert(a.contains(b[0]));
        let i = choose|i: int| 0 <= i < a.len() && a[i] == b[0];
        lemma_str_lt_order(a[0], a[0], a[0]);
        if j > 0 {
            assert(str_lt(b[0], b[j]));
            if i > 0 {
                assert(str_lt(a[0], a[i]));
                lemma_str_lt_order(a[0], b[0], a[0]);
            }
        }
        let ta = a.drop_first();
        let tb = b.drop_first();
        assert forall|x: Seq<char>| #[trigger] ta.contains(x) <==> tb.contains(x) by {
            if ta.contains(x) {
                let k = choose|k: int| 0 <= k < ta.len() && ta[k] == x;
                assert(a[k + 1] == x);
                assert(str_lt(a[0], a[k + 1]));
                assert(a.contains(x));
                assert(b.contains(x));
                let m = choose|m: int| 0 <= m < b.len() && b[m] == x;
                assert(m != 0);
                assert(tb[m - 1] == x);
            }
            if tb.contains(x) {
                let k = choose|k: int| 0 <= k < tb.len() && tb[k] == x;
                assert(b[k + 1] == x);
                assert(str_lt(b[0], b[k + 1]));
                assert(b.contains(x));
                assert(a.contains(x));
                let m = choose|m: int| 0 <= m < a.len() && a[m] == x;
                assert(m != 0);
                assert(ta[m - 1] == x);
            }
        }
        lemma_sorted_strings_unique(ta, tb);
        assert(a =~= b) by {
            assert forall|k: int| 0 <= k < a.len() implies a[k] == b[k] by {
                if k > 0 {
                    assert(a[k] == ta[k - 1]);
                }
            }
        }
    }
}

} // verus!
