//! Labels: named, versioned pointers to a head layer, their two-line text
//! form, and an in-memory label store with compare-and-swap updates.
use vstd::prelude::*;

use crate::dictionary::{lemma_str_lt_order, str_less};
use crate::error::StoreError;

verus! {

/// A label: a database name, the layer it points at, and a version
#[derive(Debug, Clone)]
pub struct Label {
    pub name: String,
    pub layer: Option<[u32; 5]>,
    pub version: u64,
}

/// The layer name of a label, as a sequence of words.
pub open spec fn layer_view(layer: Option<[u32; 5]>) -> Option<Seq<u32>> {
    match layer {
        Some(n) => Some(n@),
        None => None,
    }
}

pub open spec fn is_digit(b: u8) -> bool {
    48 <= b <= 57
}

pub open spec fn is_hex(b: u8) -> bool {
    is_digit(b) || (97 <= b <= 102) || (65 <= b <= 70)
}

pub open spec fn hex_value(b: u8) -> int {
    if is_digit(b) {
        b - 48
    } else if 97 <= b <= 102 {
        b - 87
    } else {
        b - 55
    }
}

/// The number that decimal digits stand for.
pub open spec fn digits_value(s: Seq<u8>) -> int
    decreases s.len(),
{
    if s.len() == 0 {
        0
    } else {
        digits_value(s.drop_last()) * 10 + (s.last() - 48)
    }
}

/// The number that hex digits stand for.
pub open spec fn hex_fold(s: Seq<u8>) -> int
    decreases s.len(),
{
    if s.len() == 0 {
        0
    } else {
        hex_fold(s.drop_last()) * 16 + hex_value(s.last())
    }
}

/// The five words that 40 hex digits stand for, eight digits each, big end first.
pub open spec fn hex_words(h: Seq<u8>) -> Seq<u32> {
    Seq::new(5, |k: int| hex_fold(h.subrange(8 * k, 8 * k + 8)) as u32)
}

/// `p` is the newline that ends the version line of a well-formed label
/// file: a version of decimal digits that fits 64 bits, then a newline, then
/// nothing or 40 hex digits, then a final newline.
pub open spec fn label_split(data: Seq<u8>, p: int) -> bool {
    &&& 0 < p < data.len() - 1
    &&& data[p] == 10
    &&& data[data.len() - 1] == 10
    &&& forall|i: int| 0 <= i < p ==> is_digit(#[trigger] data[i])
    &&& digits_value(data.subrange(0, p)) <= u64::MAX
    &&& (data.len() - p - 2 == 0 || data.len() - p - 2 == 40)
    &&& forall|i: int| p < i < data.len() - 1 ==> is_hex(#[trigger] data[i])
}

/// The version and layer name that a label file holds, or None if it is not
/// well formed.
pub open spec fn parse_label_spec(data: Seq<u8>) -> Option<(int, Option<Seq<u32>>)> {
    if exists|p: int| label_split(data, p) {
        let p = choose|p: int| label_split(data, p);
        Some(
            (
                digits_value(data.subrange(0, p)),
                if data.len() - p - 2 == 0 {
                    None
                } else {
                    Some(hex_words(data.subrange(p + 1, data.len() - 1)))
                },
            ),
        )
    } else {
        None
    }
}

/// The decimal digits of `v`, without leading zeros.
pub open spec fn decimal(v: nat) -> Seq<u8>
    decreases v,
{
    if v < 10 {
        seq![(48 + v) as u8]
    } else {
        decimal(v / 10).push((48 + v % 10) as u8)
    }
}

pub open spec fn hex_char(v: u32) -> u8 {
    if v < 10 {
        (48 + v) as u8
    } else {
        (87 + v) as u8
    }
}

/// The hex digit at position `j` (0 to 7, big end first) of `w`.
pub open spec fn word_digit(w: u32, j: int) -> u32 {
    (w >> ((7 - j) * 4) as u32) & 15u32
}

/// The 40 lowercase hex digits of a layer name.
pub open spec fn name_hex(n: Seq<u32>) -> Seq<u8> {
    Seq::new(40, |i: int| hex_char(word_digit(n[i / 8], i % 8)))
}

/// The text of a label file: the version in decimal, a newline, the layer
/// name in hex (or nothing), a newline.
pub open spec fn label_text(version: u64, layer: Option<Seq<u32>>) -> Seq<u8> {
    decimal(version as nat) + seq![10u8] + match layer {
        Some(n) => name_hex(n),
        None => Seq::empty(),
    } + seq![10u8]
}

proof fn lemma_digits_monotone(s: Seq<u8>, a: int, b: int)
    requires
        0 <= a <= b <= s.len(),
        forall|i: int| 0 <= i < b ==> is_digit(#[trigger] s[i]),
    ensures
        digits_value(s.subrange(0, a)) <= digits_value(s.subrange(0, b)),
        digits_value(s.subrange(0, b)) >= 0,
    decreases b,
{
    if b > 0 {
        assert(s.subrange(0, b).drop_last() =~= s.subrange(0, b - 1));
        if a < b {
            lemma_digits_monotone(s, a, b - 1);
        } else {
            lemma_digits_monotone(s, b - 1, b - 1);
        }
    }
}

/// The layer name in the label file's form: 40 lowercase hex digits
pub fn name_to_hex(name: &[u32; 5]) -> (r: Vec<u8>)
    ensures
        r@ == name_hex(name@),
{
    let mut out: Vec<u8> = Vec::new();
    let mut k: usize = 0;
    while k < 5
        invariant
            0 <= k <= 5,
            out@.len() == 8 * k,
            forall|i: int| 0 <= i < 8 * k ==> #[trigger] out@[i] == name_hex(name@)[i],
        decreases 5 - k,
    {
        let w = name[k];
        let mut j: usize = 0;
        while j < 8
            invariant
                0 <= k < 5,
                0 <= j <= 8,
                w == name@[k as int],
                out@.len() == 8 * k + j,
                forall|i: int| 0 <= i < 8 * k + j ==> #[trigger] out@[i] == name_hex(name@)[i],
            decreases 8 - j,
        {
            let shift: u32 = ((7 - j) * 4) as u32;
            let d: u32 = (w >> shift) & 15u32;
            assert(d < 16) by (bit_vector)
                requires
                    d == (w >> shift) & 15u32,
            ;
            let c: u8 = if d < 10 {
                (48 + d) as u8
            } else {
                (87 + d) as u8
            };
            proof {
                let i = 8 * k + j;
                assert(i / 8 == k as int && i % 8 == j as int);
                assert(name_hex(name@)[i as int] == hex_char(word_digit(name@[k as int], j as int)));
            }
            out.push(c);
            j = j + 1;
        }
        k = k + 1;
    }
    assert(out@ =~= name_hex(name@));
    out
}

fn push_decimal(out: &mut Vec<u8>, v: u64)
    ensures
        final(out)@ == old(out)@ + decimal(v as nat),
    decreases v,
{
    if v >= 10 {
        push_decimal(out, v / 10);
    }
    out.push((48 + v % 10) as u8);
    proof {
        if v < 10 {
            assert(old(out)@ + decimal(v as nat) =~= old(out)@.push((48 + v % 10) as u8));
        } else {
            assert(old(out)@ + decimal(v as nat) =~= (old(out)@ + decimal((v / 10) as nat)).push(
                (48 + v % 10) as u8,
            ));
        }
    }
}

/// The text of a label file for the given label
pub fn label_file_contents(label: &Label) -> (r: Vec<u8>)
    ensures
        r@ == label_text(label.version, layer_view(label.layer)),
{
    let mut out: Vec<u8> = Vec::new();
    push_decimal(&mut out, label.version);
    out.push(10u8);
    let ghost head = out@;
    match &label.layer {
        Some(n) => {
            let h = name_to_hex(n);
            let mut i: usize = 0;
            while i < h.len()
                invariant
                    0 <= i <= h@.len(),
                    out@ == head + h@.subrange(0, i as int),
                decreases h@.len() - i,
            {
                out.push(h[i]);
                i = i + 1;
                assert(out@ =~= head + h@.subrange(0, i as int));
            }
            assert(h@.subrange(0, h@.len() as int) =~= h@);
        },
        None => {
            assert(out@ =~= head + Seq::<u8>::empty());
        },
    }
    out.push(10u8);
    assert(out@ =~= label_text(label.version, layer_view(label.layer)));
    out
}

pub open spec fn pow16(n: nat) -> int
    decreases n,
{
    if n == 0 {
        1
    } else {
        16 * pow16((n - 1) as nat)
    }
}

/// In a label file, the version line ends at the first newline.
proof fn lemma_split_unique(data: Seq<u8>, i: int, p: int)
    requires
        0 <= i < data.len(),
        forall|k: int| 0 <= k < i ==> is_digit(#[trigger] data[k]),
        !is_digit(data[i]),
        label_split(data, p),
    ensures
        p == i,
        data[i] == 10,
{
    if p < i {
        assert(is_digit(data[p]));
    } else if p > i {
        assert(is_digit(data[i]));
    }
}

fn hex_digit_value(b: u8) -> (r: u64)
    requires
        is_hex(b),
    ensures
        r == hex_value(b),
        r < 16,
{
    if 48 <= b && b <= 57 {
        (b - 48) as u64
    } else if 97 <= b && b <= 102 {
        (b - 87) as u64
    } else {
        (b - 55) as u64
    }
}

/// Read a label file: the version line, then the layer line, each ending in
/// a newline. Any other content is an `InvalidFormat` error.
pub fn parse_label_file(data: &[u8], name: &str) -> (r: Result<Label, StoreError>)
    ensures
        match r {
            Ok(l) => parse_label_spec(data@) == Some((l.version as int, layer_view(l.layer)))
                && l.name@ == name@,
            Err(e) => e == StoreError::InvalidFormat && parse_label_spec(data@) is None,
        },
{
    let len = data.len();
    let mut i: usize = 0;
    let mut version: u64 = 0;
    while i < len && data[i] != 10
        invariant
            0 <= i <= len,
            len == data@.len(),
            forall|k: int| 0 <= k < i ==> is_digit(#[trigger] data@[k]),
            version == digits_value(data@.subrange(0, i as int)),
        decreases len - i,
    {
        let b = data[i];
        if b < 48 || b > 57 {
            proof {
                if exists|p: int| label_split(data@, p) {
                    let p = choose|p: int| label_split(data@, p);
                    lemma_split_unique(data@, i as int, p);
                }
            }
            return Err(StoreError::InvalidFormat);
        }
        let d = (b - 48) as u64;
        assert(data@.subrange(0, i + 1).drop_last() =~= data@.subrange(0, i as int));
        if version > (u64::MAX - d) / 10 {
            proof {
                assert(version * 10 + d > u64::MAX) by (nonlinear_arith)
                    requires
                        version > (u64::MAX - d) / 10,
                        d <= 9,
                ;
                if exists|p: int| label_split(data@, p) {
                    let p = choose|p: int| label_split(data@, p);
                    if p <= i {
                        assert(is_digit(data@[p]));
                    }
                    lemma_digits_monotone(data@, i + 1, p);
                }
            }
            return Err(StoreError::InvalidFormat);
        }
        assert(version * 10 + d <= u64::MAX) by (nonlinear_arith)
            requires
                version <= (u64::MAX - d) / 10,
                d <= 9,
        ;
        version = version * 10 + d;
        i = i + 1;
    }
    proof {
        if i == len {
            if exists|p: int| label_split(data@, p) {
                let p = choose|p: int| label_split(data@, p);
                assert(is_digit(data@[p]));
            }
        }
    }
    if i == len || i == 0 {
        proof {
            if i == 0 && exists|p: int| label_split(data@, p) {
                let p = choose|p: int| label_split(data@, p);
                assert(is_digit(data@[0]));
            }
        }
        return Err(StoreError::InvalidFormat);
    }
    let p = i;
    assert(data@[p as int] == 10);
    proof {
        assert forall|q: int| label_split(data@, q) implies q == p by {
            if q < p {
                assert(is_digit(data@[q]));
            } else if q > p {
                assert(is_digit(data@[p as int]));
            }
        }
    }
    if len - p == 2 && data[len - 1] == 10 {
        let r = Label { name: name.to_owned(), layer: None, version };
        proof {
            assert(label_split(data@, p as int));
        }
        return Ok(r);
    }
    if len - p != 42 || data[len - 1] != 10 {
        return Err(StoreError::InvalidFormat);
    }
    let ghost h = data@.subrange(p + 1, len - 1);
    let mut words: Vec<u32> = Vec::new();
    let mut k: usize = 0;
    while k < 5
        invariant
            0 <= k <= 5,
            len == data@.len(),
            len == p + 42,
            h == data@.subrange(p + 1, len - 1),
            words@.len() == k,
            forall|m: int| 0 <= m < k ==> #[trigger] words@[m] == hex_words(h)[m],
            forall|m: int| p < m < p + 1 + 8 * k ==> is_hex(#[trigger] data@[m]),
            forall|q: int| label_split(data@, q) ==> q == p,
        decreases 5 - k,
    {
        let start = p + 1 + 8 * k;
        let mut w: u64 = 0;
        let mut j: usize = 0;
        while j < 8
            invariant
                0 <= j <= 8,
                0 <= k < 5,
                start == p + 1 + 8 * k,
                len == data@.len(),
                len == p + 42,
                w == hex_fold(data@.subrange(start as int, start + j)),
                w < pow16(j as nat),
                forall|m: int| p < m < start + j ==> is_hex(#[trigger] data@[m]),
                forall|q: int| label_split(data@, q) ==> q == p,
            decreases 8 - j,
        {
            let b = data[start + j];
            if !((48 <= b && b <= 57) || (97 <= b && b <= 102) || (65 <= b && b <= 70)) {
                proof {
                    if exists|q: int| label_split(data@, q) {
                        let q = choose|q: int| label_split(data@, q);
                        assert(is_hex(data@[start + j]));
                    }
                }
                return Err(StoreError::InvalidFormat);
            }
            let v = hex_digit_value(b);
            assert(data@.subrange(start as int, start + j + 1).drop_last() =~= data@.subrange(
                start as int,
                start + j,
            ));
            proof {
                reveal_with_fuel(pow16, 9);
            }
            w = w * 16 + v;
            j = j + 1;
        }
        proof {
            reveal_with_fuel(pow16, 9);
            assert(h.subrange(8 * k, 8 * k + 8) =~= data@.subrange(start as int, start + 8));
        }
        words.push(w as u32);
        k = k + 1;
    }
    let layer: [u32; 5] = [words[0], words[1], words[2], words[3], words[4]];
    proof {
        assert(layer@ =~= hex_words(h));
        assert(label_split(data@, p as int));
    }
    Ok(Label { name: name.to_owned(), layer: Some(layer), version })
}

/// What a label records besides its name: the layer and the version.
pub open spec fn label_state(l: Label) -> (Option<Seq<u32>>, u64) {
    (layer_view(l.layer), l.version)
}

/// One compare-and-swap on a label's state: it succeeds, and moves the label
/// to `new_layer` with the next version, if and only if the stored version is
/// the expected one and can still grow.
pub open spec fn cas_step(state: (Option<Seq<u32>>, u64), expected: u64, new_layer: Seq<u32>) -> (bool, (Option<Seq<u32>>, u64)) {
    if state.1 == expected && expected < u64::MAX {
        (true, (Some(new_layer), (expected + 1) as u64))
    } else {
        (false, state)
    }
}

/// Compare-and-swap requests applied one after another, in the order in
/// which they took effect: how many succeeded, and the final state.
pub open spec fn cas_run(state: (Option<Seq<u32>>, u64), expected: u64, reqs: Seq<Seq<u32>>) -> (nat, (Option<Seq<u32>>, u64))
    decreases reqs.len(),
{
    if reqs.len() == 0 {
        (0, state)
    } else {
        let step = cas_step(state, expected, reqs[0]);
        let rest = cas_run(step.1, expected, reqs.drop_first());
        (if step.0 { rest.0 + 1 } else { rest.0 }, rest.1)
    }
}

proof fn lemma_cas_all_fail(state: (Option<Seq<u32>>, u64), expected: u64, reqs: Seq<Seq<u32>>)
    requires
        state.1 != expected,
    ensures
        cas_run(state, expected, reqs) == (0nat, state),
    decreases reqs.len(),
{
    if reqs.len() > 0 {
        lemma_cas_all_fail(state, expected, reqs.drop_first());
    }
}

/// Of any number of compare-and-swap requests that all expect the label's
/// current version, in whatever order they take effect, exactly one
/// succeeds: the first, and the label ends at its layer and the next version.
pub proof fn lemma_cas_single_winner(state: (Option<Seq<u32>>, u64), expected: u64, reqs: Seq<Seq<u32>>)
    requires
        state.1 == expected,
        expected < u64::MAX,
        reqs.len() > 0,
    ensures
        cas_run(state, expected, reqs).0 == 1,
        cas_run(state, expected, reqs).1 == (Some(reqs[0]), (expected + 1) as u64),
{
    let next = cas_step(state, expected, reqs[0]).1;
    lemma_cas_all_fail(next, expected, reqs.drop_first());
}

/// The label that a compare-and-swap writes over `current`: `current`
/// pointed at `layer` with the next version, if `current` still has the
/// version that `expected` holds; None otherwise.
pub fn swapped_label(current: &Label, expected: &Label, layer: [u32; 5]) -> (r: Option<Label>)
    ensures
        cas_step(label_state(*current), expected.version, layer@).0 == r is Some,
        r matches Some(l) ==> l.name@ == current.name@ && label_state(l) == cas_step(
            label_state(*current),
            expected.version,
            layer@,
        ).1,
{
    if current.version == expected.version && expected.version < u64::MAX {
        Some(Label { name: current.name.clone(), layer: Some(layer), version: expected.version + 1 })
    } else {
        None
    }
}

/// Whether two strings are equal.
pub fn same_str(a: &str, b: &str) -> (r: bool)
    ensures
        r == (a@ == b@),
{
    proof {
        lemma_str_lt_order(a@, b@, a@);
        lemma_str_lt_order(b@, a@, b@);
    }
    !str_less(a, b) && !str_less(b, a)
}

/// Labels held in memory
pub struct MemoryLabelStore {
    labels: Vec<Label>,
}

impl MemoryLabelStore {
    pub closed spec fn entries(&self) -> Seq<Label> {
        self.labels@
    }

    /// Label names are distinct.
    pub open spec fn wf(&self) -> bool {
        forall|i: int, j: int| 0 <= i < j < self.entries().len() ==> (#[trigger] self.entries()[i]).name@ != (#[trigger] self.entries()[j]).name@
    }

    /// The state of the label called `name`, if there is one.
    pub open spec fn lookup(&self, name: Seq<char>) -> Option<(Option<Seq<u32>>, u64)> {
        if exists|i: int| 0 <= i < self.entries().len() && (#[trigger] self.entries()[i]).name@ == name {
            let i = choose|i: int| 0 <= i < self.entries().len() && (#[trigger] self.entries()[i]).name@ == name;
            Some(label_state(self.entries()[i]))
        } else {
            None
        }
    }

    /// An empty label store
    pub fn new() -> (r: MemoryLabelStore)
        ensures
            r.wf(),
            forall|n: Seq<char>| r.lookup(n) is None,
    {
        MemoryLabelStore { labels: Vec::new() }
    }

    fn find(&self, name: &str) -> (r: Option<usize>)
        requires
            self.wf(),
        ensures
            match r {
                Some(i) => i < self.entries().len() && self.entries()[i as int].name@ == name@
                    && self.lookup(name@) == Some(label_state(self.entries()[i as int])),
                None => self.lookup(name@) is None && forall|i: int| 0 <= i < self.entries().len() ==> (#[trigger] self.entries()[i]).name@ != name@,
            },
    {
        let mut i: usize = 0;
        while i < self.labels.len()
            invariant
                0 <= i <= self.labels@.len(),
                self.wf(),
                forall|k: int| 0 <= k < i ==> (#[trigger] self.labels@[k]).name@ != name@,
            decreases self.labels@.len() - i,
        {
            if same_str(self.labels[i].name.as_str(), name) {
                proof {
                    let k = choose|k: int| 0 <= k < self.entries().len() && (#[trigger] self.entries()[k]).name@ == name@;
                    if k != i {
                        if k < i {
                            assert(self.entries()[k].name@ != self.entries()[i as int].name@);
                        } else {
                            assert(self.entries()[i as int].name@ != self.entries()[k].name@);
                        }
                    }
                }
                return Some(i);
            }
            i = i + 1;
        }
        None
    }

    /// Create a label with no layer and version 0; fails if it exists already
    pub fn create_label(&mut self, name: &str) -> (r: Result<Label, StoreError>)
        requires
            old(self).wf(),
        ensures
            final(self).wf(),
            match r {
                Ok(l) => old(self).lookup(name@) is None && l.name@ == name@ && l.layer is None
                    && l.version == 0 && final(self).lookup(name@) == Some((None::<Seq<u32>>, 0u64))
                    && forall|n: Seq<char>| n != name@ ==> final(self).lookup(n) == old(self).lookup(n),
                Err(e) => e == StoreError::AlreadyExists && old(self).lookup(name@) is Some
                    && final(self).entries() == old(self).entries(),
            },
    {
        match self.find(name) {
            Some(_) => Err(StoreError::AlreadyExists),
            None => {
                let ghost before = self.labels@;
                self.labels.push(Label { name: name.to_owned(), layer: None, version: 0 });
                proof {
                    let e = self.entries();
                    assert(e[e.len() - 1].name@ == name@);
                    assert forall|n: Seq<char>| n != name@ implies self.lookup(n) == old(self).lookup(n) by {
                        if exists|i: int| 0 <= i < before.len() && (#[trigger] before[i]).name@ == n {
                            let i = choose|i: int| 0 <= i < before.len() && (#[trigger] before[i]).name@ == n;
                            assert(e[i] == before[i]);
                            let k = choose|k: int| 0 <= k < e.len() && (#[trigger] e[k]).name@ == n;
                            if k != i {
                                if k < i {
                                    assert(e[k].name@ != e[i].name@);
                                } else if k < before.len() {
                                    assert(before[i].name@ != before[k].name@);
                                }
                            }
                        }
                        if exists|k: int| 0 <= k < e.len() && (#[trigger] e[k]).name@ == n {
                            let k = choose|k: int| 0 <= k < e.len() && (#[trigger] e[k]).name@ == n;
                            assert(before[k].name@ == n);
                        }
                    }
                    let k = choose|k: int| 0 <= k < e.len() && (#[trigger] e[k]).name@ == name@;
                    assert(k == e.len() - 1);
                }
                Ok(Label { name: name.to_owned(), layer: None, version: 0 })
            },
        }
    }

    /// The label called `name`, or None if there is none
    pub fn get_label(&self, name: &str) -> (r: Option<Label>)
        requires
            self.wf(),
        ensures
            match r {
                Some(l) => self.lookup(name@) == Some(label_state(l)) && l.name@ == name@,
                None => self.lookup(name@) is None,
            },
    {
        match self.find(name) {
            Some(i) => {
                let l = &self.labels[i];
                Some(Label { name: l.name.clone(), layer: l.layer, version: l.version })
            },
            None => None,
        }
    }

    /// Compare-and-swap: if the label's stored version is `expected.version`,
    /// point it at `layer` with the next version and return the new label;
    /// otherwise change nothing and return None.
    pub fn set_label(&mut self, expected: &Label, layer: [u32; 5]) -> (r: Option<Label>)
        requires
            old(self).wf(),
        ensures
            final(self).wf(),
            forall|n: Seq<char>| n != expected.name@ ==> final(self).lookup(n) == old(self).lookup(n),
            match old(self).lookup(expected.name@) {
                None => r is None && final(self).lookup(expected.name@) is None,
                Some(st) => {
                    let step = cas_step(st, expected.version, layer@);
                    &&& step.0 == r is Some
                    &&& final(self).lookup(expected.name@) == Some(step.1)
                    &&& r matches Some(l) ==> l.name@ == expected.name@ && label_state(l) == step.1
                },
            },
    {
        match self.find(expected.name.as_str()) {
            None => None,
            Some(i) => {
                let current = self.labels[i].version;
                if current != expected.version || expected.version == u64::MAX {
                    return None;
                }
                let ghost before = self.labels@;
                let new_label = Label { name: self.labels[i].name.clone(), layer: Some(layer), version: current + 1 };
                let result = Label { name: self.labels[i].name.clone(), layer: Some(layer), version: current + 1 };
                self.labels.set(i, new_label);
                proof {
                    let e = self.entries();
                    assert forall|a: int, b: int| 0 <= a < b < e.len() implies (#[trigger] e[a]).name@ != (#[trigger] e[b]).name@ by {
                        assert(before[a].name@ != before[b].name@);
                    }
                    assert forall|n: Seq<char>| n != expected.name@ implies self.lookup(n) == old(self).lookup(n) by {
                        if exists|j: int| 0 <= j < before.len() && (#[trigger] before[j]).name@ == n {
                            let j = choose|j: int| 0 <= j < before.len() && (#[trigger] before[j]).name@ == n;
                            assert(j != i);
                            assert(e[j] == before[j]);
                            let k = choose|k: int| 0 <= k < e.len() && (#[trigger] e[k]).name@ == n;
                            if k != j {
                                if k < j {
                                    assert(e[k].name@ != e[j].name@);
                                } else {
                                    assert(e[j].name@ != e[k].name@);
                                }
                            }
                        }
                        if exists|k: int| 0 <= k < e.len() && (#[trigger] e[k]).name@ == n {
                            let k = choose|k: int| 0 <= k < e.len() && (#[trigger] e[k]).name@ == n;
                            assert(k != i);
                            assert(before[k].name@ == n);
                        }
                    }
                    assert(e[i as int].name@ == expected.name@);
                    let k = choose|k: int| 0 <= k < e.len() && (#[trigger] e[k]).name@ == expected.name@;
                    if k != i {
                        if k < i {
                            assert(e[k].name@ != e[i as int].name@);
                        } else {
                            assert(e[i as int].name@ != e[k].name@);
                        }
                    }
                }
                Some(result)
            },
        }
    }

    /// Delete the label called `name`; false if there was none
    pub fn delete_label(&mut self, name: &str) -> (r: bool)
        requires
            old(self).wf(),
        ensures
            final(self).wf(),
            r == old(self).lookup(name@) is Some,
            final(self).lookup(name@) is None,
            forall|n: Seq<char>| n != name@ ==> final(self).lookup(n) == old(self).lookup(n),
    {
        match self.find(name) {
            None => false,
            Some(i) => {
                let ghost before = self.labels@;
                self.labels.remove(i);
                proof {
                    let e = self.entries();
                    assert forall|k: int| 0 <= k < e.len() implies #[trigger] e[k] == (if k < i { before[k] } else { before[k + 1] }) by {}
                    assert forall|a: int, b: int| 0 <= a < b < e.len() implies (#[trigger] e[a]).name@ != (#[trigger] e[b]).name@ by {
                        let a2 = if a < i { a } else { a + 1 };
                        let b2 = if b < i { b } else { b + 1 };
                        assert(before[a2].name@ != before[b2].name@);
                    }
                    if exists|k: int| 0 <= k < e.len() && (#[trigger] e[k]).name@ == name@ {
                        let k = choose|k: int| 0 <= k < e.len() && (#[trigger] e[k]).name@ == name@;
                        let k2 = if k < i { k } else { k + 1 };
                        assert(before[k2].name@ == name@);
                        if k2 < i {
                            assert(before[k2].name@ != before[i as int].name@);
                        } else {
                            assert(before[i as int].name@ != before[k2].name@);
                        }
                    }
                    assert forall|n: Seq<char>| n != name@ implies self.lookup(n) == old(self).lookup(n) by {
                        if exists|j: int| 0 <= j < before.len() && (#[trigger] before[j]).name@ == n {
                            let j = choose|j: int| 0 <= j < before.len() && (#[trigger] before[j]).name@ == n;
                            assert(j != i);
                            let j2 = if j < i { j } else { j - 1 };
                            assert(e[j2] == before[j]);
                            let k = choose|k: int| 0 <= k < e.len() && (#[trigger] e[k]).name@ == n;
                            if k != j2 {
                                if k < j2 {
                                    assert(e[k].name@ != e[j2].name@);
                                } else {
                                    assert(e[j2].name@ != e[k].name@);
                                }
                            }
                        }
                        if exists|k: int| 0 <= k < e.len() && (#[trigger] e[k]).name@ == n {
                            let k = choose|k: int| 0 <= k < e.len() && (#[trigger] e[k]).name@ == n;
                            let k2 = if k < i { k } else { k + 1 };
                            assert(before[k2].name@ == n);
                        }
                    }
                }
                true
            },
        }
    }
}

} // verus!
