//! Values as lists of numbers, and lists of numbers as text: what a record is stored
//! as and read back from.

use vstd::prelude::*;
use vstd::utf8::{decode_utf8, encode_utf8, valid_utf8};

use crate::named_map::NamedMap;
use crate::numerals::{dec_reads_back, digit_run, numeral, parse_number, run_of_digits};
use crate::text::{check_occurs_at, dec, occurs_at, push_dec, same, to_chars, utf8_string};

verus! {

// ─── Values ──────────────────────────────────────────────────────────────────

/// What can be written as numbers and read back.
pub trait Coded: Sized {
    /// What a value holds.
    type Model;

    /// What the value holds.
    spec fn model(&self) -> Self::Model;

    /// The numbers that the value is written as.
    spec fn code(&self) -> Seq<u64>;

    /// Every length in the value can be written as a number.
    spec fn countable(&self) -> bool;

    /// What the numbers from `at` on hold, with where the numbers behind it begin.
    spec fn decoded(ns: Seq<u64>, at: int) -> Option<(Self::Model, int)>;

    /// Writes the value behind other numbers.
    fn write_code(&self, out: &mut Vec<u64>)
        ensures
            final(out)@ == old(out)@ + self.code(),
            self.countable(),
    ;

    /// Reads a value from the numbers from `at` on.
    fn read_code(ns: &Vec<u64>, at: usize) -> (r: Option<(Self, usize)>)
        requires
            at <= ns@.len(),
        ensures
            match r {
                Some((v, next)) => next <= ns@.len() && Self::decoded(ns@, at as int) == Some(
                    (v.model(), next as int),
                ),
                None => Self::decoded(ns@, at as int) is None,
            },
    ;

    /// What was written is read back.
    proof fn reads_back(&self, ns: Seq<u64>, at: int)
        requires
            self.countable(),
            0 <= at,
            at + self.code().len() <= ns.len(),
            ns.subrange(at, at + self.code().len()) == self.code(),
        ensures
            Self::decoded(ns, at) == Some((self.model(), at + self.code().len())),
    ;
}

/// A number that is at most `max`.
pub open spec fn number_at(ns: Seq<u64>, at: int, max: int) -> Option<u64> {
    if 0 <= at < ns.len() && ns[at] <= max {
        Some(ns[at])
    } else {
        None
    }
}

impl Coded for u64 {
    type Model = u64;

    open spec fn model(&self) -> u64 {
        *self
    }

    open spec fn code(&self) -> Seq<u64> {
        seq![*self]
    }

    open spec fn countable(&self) -> bool {
        true
    }

    open spec fn decoded(ns: Seq<u64>, at: int) -> Option<(u64, int)> {
        match number_at(ns, at, u64::MAX as int) {
            Some(n) => Some((n, at + 1)),
            None => None,
        }
    }

    fn write_code(&self, out: &mut Vec<u64>) {
        let ghost before = out@;
        out.push(*self);
        assert(out@ =~= before + self.code());
    }

    fn read_code(ns: &Vec<u64>, at: usize) -> (r: Option<(u64, usize)>) {
        if at < ns.len() {
            Some((ns[at], at + 1))
        } else {
            None
        }
    }

    proof fn reads_back(&self, ns: Seq<u64>, at: int) {
        assert(ns.subrange(at, at + 1)[0] == ns[at]);
    }
}

impl Coded for u32 {
    type Model = u32;

    open spec fn model(&self) -> u32 {
        *self
    }

    open spec fn code(&self) -> Seq<u64> {
        seq![*self as u64]
    }

    open spec fn countable(&self) -> bool {
        true
    }

    open spec fn decoded(ns: Seq<u64>, at: int) -> Option<(u32, int)> {
        match number_at(ns, at, u32::MAX as int) {
            Some(n) => Some((n as u32, at + 1)),
            None => None,
        }
    }

    fn write_code(&self, out: &mut Vec<u64>) {
        let ghost before = out@;
        out.push(*self as u64);
        assert(out@ =~= before + self.code());
    }

    fn read_code(ns: &Vec<u64>, at: usize) -> (r: Option<(u32, usize)>) {
        if at < ns.len() && ns[at] <= u32::MAX as u64 {
            Some((ns[at] as u32, at + 1))
        } else {
            None
        }
    }

    proof fn reads_back(&self, ns: Seq<u64>, at: int) {
        assert(ns.subrange(at, at + 1)[0] == ns[at]);
    }
}

impl Coded for usize {
    type Model = usize;

    open spec fn model(&self) -> usize {
        *self
    }

    open spec fn code(&self) -> Seq<u64> {
        seq![*self as u64]
    }

    open spec fn countable(&self) -> bool {
        true
    }

    open spec fn decoded(ns: Seq<u64>, at: int) -> Option<(usize, int)> {
        match number_at(ns, at, usize::MAX as int) {
            Some(n) => Some((n as usize, at + 1)),
            None => None,
        }
    }

    fn write_code(&self, out: &mut Vec<u64>) {
        let ghost before = out@;
        out.push(*self as u64);
        assert(out@ =~= before + self.code());
    }

    fn read_code(ns: &Vec<u64>, at: usize) -> (r: Option<(usize, usize)>) {
        if at < ns.len() && ns[at] <= usize::MAX as u64 {
            Some((ns[at] as usize, at + 1))
        } else {
            None
        }
    }

    proof fn reads_back(&self, ns: Seq<u64>, at: int) {
        assert(ns.subrange(at, at + 1)[0] == ns[at]);
    }
}

impl Coded for bool {
    type Model = bool;

    open spec fn model(&self) -> bool {
        *self
    }

    open spec fn code(&self) -> Seq<u64> {
        seq![
            if *self {
                1u64
            } else {
                0u64
            },
        ]
    }

    open spec fn countable(&self) -> bool {
        true
    }

    open spec fn decoded(ns: Seq<u64>, at: int) -> Option<(bool, int)> {
        match number_at(ns, at, 1) {
            Some(n) => Some((n == 1, at + 1)),
            None => None,
        }
    }

    fn write_code(&self, out: &mut Vec<u64>) {
        let ghost before = out@;
        out.push(
            if *self {
                1
            } else {
                0
            },
        );
        assert(out@ =~= before + self.code());
    }

    fn read_code(ns: &Vec<u64>, at: usize) -> (r: Option<(bool, usize)>) {
        if at < ns.len() && ns[at] <= 1 {
            Some((ns[at] == 1, at + 1))
        } else {
            None
        }
    }

    proof fn reads_back(&self, ns: Seq<u64>, at: int) {
        assert(ns.subrange(at, at + 1)[0] == ns[at]);
    }
}

// ─── Texts ───────────────────────────────────────────────────────────────────

/// Bytes as numbers.
pub open spec fn widened(bytes: Seq<u8>) -> Seq<u64> {
    bytes.map_values(|b: u8| b as u64)
}

/// Numbers as bytes.
pub open spec fn narrowed(ns: Seq<u64>) -> Seq<u8> {
    ns.map_values(|n: u64| n as u8)
}

/// All numbers are bytes.
pub open spec fn are_bytes(ns: Seq<u64>) -> bool {
    forall|i: int| 0 <= i < ns.len() ==> #[trigger] ns[i] <= u8::MAX
}

proof fn widened_narrows(bytes: Seq<u8>)
    ensures
        narrowed(widened(bytes)) == bytes,
        are_bytes(widened(bytes)),
{
    assert(narrowed(widened(bytes)) =~= bytes);
}

/// A text is written as the number of its bytes and these bytes.
impl Coded for String {
    type Model = Seq<char>;

    open spec fn model(&self) -> Seq<char> {
        self@
    }

    open spec fn code(&self) -> Seq<u64> {
        seq![encode_utf8(self@).len() as u64] + widened(encode_utf8(self@))
    }

    open spec fn countable(&self) -> bool {
        encode_utf8(self@).len() <= u64::MAX
    }

    open spec fn decoded(ns: Seq<u64>, at: int) -> Option<(Seq<char>, int)> {
        match number_at(ns, at, ns.len() - at - 1) {
            Some(n) => {
                let part = ns.subrange(at + 1, at + 1 + n);
                if are_bytes(part) && valid_utf8(narrowed(part)) {
                    Some((decode_utf8(narrowed(part)), at + 1 + n))
                } else {
                    None
                }
            },
            None => None,
        }
    }

    fn write_code(&self, out: &mut Vec<u64>) {
        let ghost before = out@;
        let bytes = self.as_str().as_bytes();
        let n: usize = bytes.len();
        out.push(n as u64);
        let mut i: usize = 0;
        assert(out@ =~= before + seq![n as u64] + widened(bytes@.take(0)));
        while i < n
            invariant
                n == bytes@.len(),
                i <= n,
                out@ == before + seq![n as u64] + widened(bytes@.take(i as int)),
            decreases n - i,
        {
            out.push(bytes[i] as u64);
            i = i + 1;
            assert(out@ =~= before + seq![n as u64] + widened(bytes@.take(i as int)));
        }
        assert(bytes@.take(n as int) =~= bytes@);
        assert(out@ =~= before + self.code());
    }

    fn read_code(ns: &Vec<u64>, at: usize) -> (r: Option<(String, usize)>) {
        if at >= ns.len() || ns[at] > (ns.len() - at - 1) as u64 {
            return None;
        }
        let n: usize = ns[at] as usize;
        let end: usize = at + 1 + n;
        let ghost part = ns@.subrange(at + 1, end as int);
        let mut bytes: Vec<u8> = Vec::new();
        let mut i: usize = at + 1;
        while i < end
            invariant
                at + 1 <= i <= end <= ns@.len(),
                end == at + 1 + ns@[at as int],
                part == ns@.subrange(at + 1, end as int),
                bytes@ == narrowed(part).take(i - at - 1),
                forall|k: int| 0 <= k < i - at - 1 ==> #[trigger] part[k] <= u8::MAX,
            decreases end - i,
        {
            assert(part[i - at - 1] == ns@[i as int]);
            if ns[i] > u8::MAX as u64 {
                return None;
            }
            bytes.push(ns[i] as u8);
            i = i + 1;
            assert(bytes@ =~= narrowed(part).take(i - at - 1));
        }
        assert(bytes@ =~= narrowed(part));
        match utf8_string(bytes) {
            Some(s) => Some((s, end)),
            None => None,
        }
    }

    proof fn reads_back(&self, ns: Seq<u64>, at: int) {
        let raw = encode_utf8(self@);
        let part = ns.subrange(at, at + self.code().len());
        assert(part[0] == ns[at]);
        widened_narrows(raw);
        vstd::utf8::encode_utf8_valid_utf8(self@);
        vstd::utf8::encode_utf8_decode_utf8(self@);
        assert(ns.subrange(at + 1, at + 1 + raw.len()) =~= part.skip(1));
        assert(part.skip(1) =~= widened(raw));
    }
}

// ─── Lists and groups ────────────────────────────────────────────────────────

/// The values, one after the other.
pub open spec fn codes<T: Coded>(values: Seq<T>) -> Seq<u64>
    decreases values.len(),
{
    if values.len() == 0 {
        Seq::empty()
    } else {
        values[0].code() + codes(values.skip(1))
    }
}

/// What the values hold.
pub open spec fn models_of<T: Coded>(values: Seq<T>) -> Seq<T::Model> {
    values.map_values(|v: T| v.model())
}

/// Every length in every value can be written as a number.
pub open spec fn all_countable<T: Coded>(values: Seq<T>) -> bool {
    forall|i: int| 0 <= i < values.len() ==> (#[trigger] values[i]).countable()
}

/// A list is written as its length and its values.
pub open spec fn list_code<T: Coded>(values: Seq<T>) -> Seq<u64> {
    seq![values.len() as u64] + codes(values)
}

/// `count` values from `at` on.
pub open spec fn decoded_list<T: Coded>(ns: Seq<u64>, at: int, count: nat) -> Option<
    (Seq<T::Model>, int),
>
    decreases count,
{
    if count == 0 {
        Some((Seq::empty(), at))
    } else {
        match T::decoded(ns, at) {
            Some((v, next)) => match decoded_list::<T>(ns, next, (count - 1) as nat) {
                Some((more, end)) => Some((seq![v] + more, end)),
                None => None,
            },
            None => None,
        }
    }
}

pub proof fn codes_push<T: Coded>(values: Seq<T>, v: T)
    ensures
        codes(values.push(v)) == codes(values) + v.code(),
    decreases values.len(),
{
    let longer = values.push(v);
    if values.len() == 0 {
        assert(longer.skip(1) =~= Seq::<T>::empty());
        assert(codes(longer.skip(1)) =~= Seq::<u64>::empty());
        assert(codes(longer) =~= codes(values) + v.code());
    } else {
        assert(longer[0] == values[0]);
        assert(longer.skip(1) =~= values.skip(1).push(v));
        codes_push(values.skip(1), v);
        assert(codes(longer) =~= codes(values) + v.code());
    }
}

/// A list that was written is read back.
pub proof fn list_reads_back<T: Coded>(values: Seq<T>, ns: Seq<u64>, at: int)
    requires
        all_countable(values),
        0 <= at,
        at + codes(values).len() <= ns.len(),
        ns.subrange(at, at + codes(values).len()) == codes(values),
    ensures
        decoded_list::<T>(ns, at, values.len()) == Some((models_of(values), at + codes(values).len())),
    decreases values.len(),
{
    let part = ns.subrange(at, at + codes(values).len());
    if values.len() == 0 {
        assert(models_of(values) =~= Seq::<T::Model>::empty());
    } else {
        let v = values[0];
        let rest = values.skip(1);
        let mid = at + v.code().len();
        assert(ns.subrange(at, mid) =~= part.take(v.code().len() as int));
        assert(part.take(v.code().len() as int) =~= v.code());
        assert(v.countable());
        v.reads_back(ns, at);
        assert(ns.subrange(mid, mid + codes(rest).len()) =~= part.skip(v.code().len() as int));
        assert(part.skip(v.code().len() as int) =~= codes(rest));
        assert(all_countable(rest)) by {
            assert forall|i: int| 0 <= i < rest.len() implies (#[trigger] rest[i]).countable() by {
                assert(rest[i] == values[i + 1]);
            }
        }
        list_reads_back(rest, ns, mid);
        assert(models_of(values) =~= seq![v.model()] + models_of(rest));
    }
}

/// Writes the values of a list.
fn encode_all<T: Coded>(values: &Vec<T>, out: &mut Vec<u64>)
    ensures
        final(out)@ == old(out)@ + codes(values@),
        all_countable(values@),
{
    let ghost before = out@;
    let mut i: usize = 0;
    assert(values@.take(0) =~= Seq::<T>::empty());
    assert(out@ =~= before + codes(values@.take(0)));
    while i < values.len()
        invariant
            i <= values@.len(),
            out@ == before + codes(values@.take(i as int)),
            forall|k: int| 0 <= k < i ==> (#[trigger] values@[k]).countable(),
        decreases values@.len() - i,
    {
        values[i].write_code(out);
        proof {
            codes_push(values@.take(i as int), values@[i as int]);
            assert(values@.take(i + 1) =~= values@.take(i as int).push(values@[i as int]));
            assert(out@ =~= before + codes(values@.take(i + 1)));
        }
        i = i + 1;
    }
    assert(values@.take(i as int) =~= values@);
}

impl<T: Coded> Coded for Vec<T> {
    type Model = Seq<T::Model>;

    open spec fn model(&self) -> Seq<T::Model> {
        models_of(self@)
    }

    open spec fn code(&self) -> Seq<u64> {
        list_code(self@)
    }

    open spec fn countable(&self) -> bool {
        self@.len() <= u64::MAX && all_countable(self@)
    }

    open spec fn decoded(ns: Seq<u64>, at: int) -> Option<(Seq<T::Model>, int)> {
        match number_at(ns, at, u64::MAX as int) {
            Some(n) => decoded_list::<T>(ns, at + 1, n as nat),
            None => None,
        }
    }

    fn write_code(&self, out: &mut Vec<u64>) {
        let ghost before = out@;
        let n: usize = self.len();
        out.push(n as u64);
        encode_all(self, out);
        assert(out@ =~= before + self.code());
    }

    fn read_code(ns: &Vec<u64>, at: usize) -> (r: Option<(Vec<T>, usize)>) {
        if at >= ns.len() {
            return None;
        }
        let count: u64 = ns[at];
        let ghost whole = decoded_list::<T>(ns@, at + 1, count as nat);
        let mut values: Vec<T> = Vec::new();
        let mut next: usize = at + 1;
        let mut left: u64 = count;
        proof {
            assert(models_of(values@) =~= Seq::<T::Model>::empty());
            match whole {
                Some((more, end)) => {
                    assert(models_of(values@) + more =~= more);
                },
                None => {},
            }
        }
        while left > 0
            invariant
                at < ns@.len(),
                count == ns@[at as int],
                whole == decoded_list::<T>(ns@, at + 1, count as nat),
                next <= ns@.len(),
                match decoded_list::<T>(ns@, next as int, left as nat) {
                    Some((more, end)) => whole == Some((models_of(values@) + more, end)),
                    None => whole is None,
                },
            decreases left,
        {
            let ghost before = values@;
            match T::read_code(ns, next) {
                Some((v, after)) => {
                    values.push(v);
                    proof {
                        assert(models_of(values@) =~= models_of(before).push(v.model()));
                        match decoded_list::<T>(ns@, after as int, (left - 1) as nat) {
                            Some((more, end)) => {
                                assert(models_of(before) + (seq![v.model()] + more) =~= models_of(values@)
                                    + more);
                            },
                            None => {},
                        }
                    }
                    next = after;
                },
                None => {
                    return None;
                },
            }
            left = left - 1;
        }
        assert(models_of(values@) + Seq::<T::Model>::empty() =~= models_of(values@));
        Some((values, next))
    }

    proof fn reads_back(&self, ns: Seq<u64>, at: int) {
        let part = ns.subrange(at, at + self.code().len());
        assert(part[0] == ns[at]);
        assert(ns.subrange(at + 1, at + 1 + codes(self@).len()) =~= part.skip(1));
        assert(part.skip(1) =~= codes(self@));
        list_reads_back(self@, ns, at + 1);
    }
}

/// Two values, one after the other.
impl<A: Coded, B: Coded> Coded for (A, B) {
    type Model = (A::Model, B::Model);

    open spec fn model(&self) -> (A::Model, B::Model) {
        (self.0.model(), self.1.model())
    }

    open spec fn code(&self) -> Seq<u64> {
        self.0.code() + self.1.code()
    }

    open spec fn countable(&self) -> bool {
        self.0.countable() && self.1.countable()
    }

    open spec fn decoded(ns: Seq<u64>, at: int) -> Option<((A::Model, B::Model), int)> {
        match A::decoded(ns, at) {
            Some((a, i)) => match B::decoded(ns, i) {
                Some((b, j)) => Some(((a, b), j)),
                None => None,
            },
            None => None,
        }
    }

    fn write_code(&self, out: &mut Vec<u64>) {
        let ghost before = out@;
        self.0.write_code(out);
        self.1.write_code(out);
        assert(out@ =~= before + self.code());
    }

    fn read_code(ns: &Vec<u64>, at: usize) -> (r: Option<((A, B), usize)>) {
        match A::read_code(ns, at) {
            Some((a, i)) => match B::read_code(ns, i) {
                Some((b, j)) => Some(((a, b), j)),
                None => None,
            },
            None => None,
        }
    }

    proof fn reads_back(&self, ns: Seq<u64>, at: int) {
        let n = self.0.code().len() as int;
        let part = ns.subrange(at, at + self.code().len());
        assert(ns.subrange(at, at + n) =~= part.take(n));
        assert(part.take(n) =~= self.0.code());
        assert(ns.subrange(at + n, at + n + self.1.code().len()) =~= part.skip(n));
        assert(part.skip(n) =~= self.1.code());
        self.0.reads_back(ns, at);
        self.1.reads_back(ns, at + n);
    }
}

/// Three values, one after the other.
impl<A: Coded, B: Coded, C: Coded> Coded for (A, B, C) {
    type Model = (A::Model, B::Model, C::Model);

    open spec fn model(&self) -> (A::Model, B::Model, C::Model) {
        (self.0.model(), self.1.model(), self.2.model())
    }

    open spec fn code(&self) -> Seq<u64> {
        self.0.code() + self.1.code() + self.2.code()
    }

    open spec fn countable(&self) -> bool {
        self.0.countable() && self.1.countable() && self.2.countable()
    }

    open spec fn decoded(ns: Seq<u64>, at: int) -> Option<
        ((A::Model, B::Model, C::Model), int),
    > {
        match A::decoded(ns, at) {
            Some((a, i)) => match B::decoded(ns, i) {
                Some((b, j)) => match C::decoded(ns, j) {
                    Some((c, k)) => Some(((a, b, c), k)),
                    None => None,
                },
                None => None,
            },
            None => None,
        }
    }

    fn write_code(&self, out: &mut Vec<u64>) {
        let ghost before = out@;
        self.0.write_code(out);
        self.1.write_code(out);
        self.2.write_code(out);
        assert(out@ =~= before + self.code());
    }

    fn read_code(ns: &Vec<u64>, at: usize) -> (r: Option<((A, B, C), usize)>) {
        match A::read_code(ns, at) {
            Some((a, i)) => match B::read_code(ns, i) {
                Some((b, j)) => match C::read_code(ns, j) {
                    Some((c, k)) => Some(((a, b, c), k)),
                    None => None,
                },
                None => None,
            },
            None => None,
        }
    }

    proof fn reads_back(&self, ns: Seq<u64>, at: int) {
        let n = self.0.code().len() as int;
        let m = n + self.1.code().len();
        let part = ns.subrange(at, at + self.code().len());
        assert(ns.subrange(at, at + n) =~= part.take(n));
        assert(part.take(n) =~= self.0.code());
        assert(ns.subrange(at + n, at + m) =~= part.subrange(n, m));
        assert(part.subrange(n, m) =~= self.1.code());
        assert(ns.subrange(at + m, at + m + self.2.code().len()) =~= part.skip(m));
        assert(part.skip(m) =~= self.2.code());
        self.0.reads_back(ns, at);
        self.1.reads_back(ns, at + n);
        self.2.reads_back(ns, at + m);
    }
}

// ─── Maps by name ────────────────────────────────────────────────────────────

/// No name occurs twice.
pub open spec fn names_differ<M>(entries: Seq<(Seq<char>, M)>) -> bool {
    forall|i: int, j: int|
        0 <= i < j < entries.len() ==> (#[trigger] entries[i]).0 != (#[trigger] entries[j]).0
}

/// Whether no name occurs twice among entries.
pub fn check_names_differ<T: Coded>(map: &NamedMap<T>) -> (b: bool)
    ensures
        b == map.wf(),
        b == names_differ(map.model()),
{
    let ghost entries = map.entries@;
    let ghost m = map.model();
    assert forall|k: int| 0 <= k < m.len() implies (#[trigger] m[k]).0 == entries[k].0@ by {}
    let mut j: usize = 0;
    while j < map.entries.len()
        invariant
            entries == map.entries@,
            m == map.model(),
            m.len() == entries.len(),
            j <= entries.len(),
            forall|k: int| 0 <= k < m.len() ==> (#[trigger] m[k]).0 == entries[k].0@,
            forall|x: int, y: int|
                0 <= x < y < j ==> (#[trigger] m[x]).0 != (#[trigger] m[y]).0,
        decreases entries.len() - j,
    {
        let mut i: usize = 0;
        while i < j
            invariant
                entries == map.entries@,
                m == map.model(),
                m.len() == entries.len(),
                i <= j < entries.len(),
                forall|k: int| 0 <= k < m.len() ==> (#[trigger] m[k]).0 == entries[k].0@,
                forall|x: int| 0 <= x < i ==> (#[trigger] m[x]).0 != m[j as int].0,
            decreases j - i,
        {
            if same(map.entries[i].0.as_str(), map.entries[j].0.as_str()) {
                assert(m[i as int].0 == m[j as int].0);
                assert(map.entries@[i as int].0@ == map.entries@[j as int].0@);
                return false;
            }
            i = i + 1;
        }
        j = j + 1;
    }
    assert forall|x: int, y: int| 0 <= x < y < entries.len() implies map.entries@[x].0@
        != map.entries@[y].0@ by {
        assert(m[x].0 != m[y].0);
    }
    true
}

/// A map is written as the list of its entries.
impl<T: Coded> Coded for NamedMap<T> {
    type Model = Seq<(Seq<char>, T::Model)>;

    open spec fn model(&self) -> Seq<(Seq<char>, T::Model)> {
        self.entries.model()
    }

    open spec fn code(&self) -> Seq<u64> {
        self.entries.code()
    }

    open spec fn countable(&self) -> bool {
        self.entries.countable()
    }

    open spec fn decoded(ns: Seq<u64>, at: int) -> Option<(Seq<(Seq<char>, T::Model)>, int)> {
        <Vec<(String, T)> as Coded>::decoded(ns, at)
    }

    fn write_code(&self, out: &mut Vec<u64>) {
        self.entries.write_code(out)
    }

    fn read_code(ns: &Vec<u64>, at: usize) -> (r: Option<(NamedMap<T>, usize)>) {
        match <Vec<(String, T)> as Coded>::read_code(ns, at) {
            Some((entries, next)) => Some((NamedMap { entries }, next)),
            None => None,
        }
    }

    proof fn reads_back(&self, ns: Seq<u64>, at: int) {
        self.entries.reads_back(ns, at);
    }
}

// ─── Lists of numbers as text ────────────────────────────────────────────────

/// Numbers in decimal, each behind a comma.
pub open spec fn items(ns: Seq<u64>) -> Seq<char>
    decreases ns.len(),
{
    if ns.len() == 0 {
        Seq::empty()
    } else {
        ","@ + dec(ns[0] as nat) + items(ns.skip(1))
    }
}

/// The member that a text ends with: the list of `ns`, behind the number of this
/// format.
pub open spec fn state_member(ns: Seq<u64>) -> Seq<char> {
    "\"state\":[1"@ + items(ns) + "]}"@
}

/// The numbers between `at` and `end`, each behind a comma.
pub open spec fn read_items(text: Seq<char>, at: int, end: int) -> Option<Seq<u64>>
    decreases end - at,
{
    if at == end {
        Some(Seq::empty())
    } else if at > end || text[at] != ',' {
        None
    } else {
        let next = digit_run(text, at + 1);
        if next <= at || next > end {
            None
        } else {
            match numeral(text.subrange(at + 1, next), u64::MAX as nat) {
                Some(n) => match read_items(text, next, end) {
                    Some(more) => Some(seq![n as u64] + more),
                    None => None,
                },
                None => None,
            }
        }
    }
}

/// The last place of `c` among the first `n` characters; -1 where there is none.
pub open spec fn last_place(text: Seq<char>, c: char, n: int) -> int
    decreases n,
{
    if n <= 0 {
        -1
    } else if text[n - 1] == c {
        n - 1
    } else {
        last_place(text, c, n - 1)
    }
}

/// The numbers in the member that a text ends with.
pub open spec fn state_in(text: Seq<char>) -> Option<Seq<u64>> {
    let n = text.len() as int;
    let p = last_place(text, '[', n);
    if p >= 8 && p + 4 <= n && occurs_at(text, "\"state\":[1"@, p - 8) && occurs_at(
        text,
        "]}"@,
        n - 2,
    ) {
        read_items(text, p + 2, n - 2)
    } else {
        None
    }
}

/// Appends numbers, each behind a comma.
pub fn push_items(out: &mut String, ns: &Vec<u64>)
    ensures
        final(out)@ == old(out)@ + items(ns@),
{
    let ghost before = out@;
    let ghost whole = items(ns@);
    let mut i: usize = 0;
    assert(ns@.skip(0) =~= ns@);
    assert(before + whole =~= out@ + items(ns@.skip(0)));
    while i < ns.len()
        invariant
            i <= ns@.len(),
            before + whole == out@ + items(ns@.skip(i as int)),
        decreases ns@.len() - i,
    {
        let ghost rest = ns@.skip(i as int);
        let ghost start = out@;
        assert(rest[0] == ns@[i as int]);
        assert(rest.skip(1) =~= ns@.skip(i + 1));
        out.append(",");
        push_dec(out, ns[i]);
        i = i + 1;
        assert(start + (","@ + dec(rest[0] as nat) + items(rest.skip(1))) =~= out@ + items(
            ns@.skip(i as int),
        ));
    }
    assert(items(ns@.skip(i as int)) =~= Seq::<char>::empty());
    assert(out@ =~= before + whole);
}

fn read_numbers(v: &Vec<char>, from: usize, end: usize) -> (r: Option<Vec<u64>>)
    requires
        from <= end <= v@.len(),
    ensures
        match r {
            Some(ns) => read_items(v@, from as int, end as int) == Some(ns@),
            None => read_items(v@, from as int, end as int) is None,
        },
{
    let ghost whole = read_items(v@, from as int, end as int);
    let mut ns: Vec<u64> = Vec::new();
    let mut at: usize = from;
    proof {
        match whole {
            Some(more) => {
                assert(ns@ + more =~= more);
            },
            None => {},
        }
    }
    while at < end
        invariant
            from <= at <= end <= v@.len(),
            whole == read_items(v@, from as int, end as int),
            match read_items(v@, at as int, end as int) {
                Some(more) => whole == Some(ns@ + more),
                None => whole is None,
            },
        decreases end - at,
    {
        if v[at] != ',' {
            return None;
        }
        let start: usize = at + 1;
        let mut next: usize = start;
        while next < v.len() && '0' <= v[next] && v[next] <= '9'
            invariant
                start <= next <= v@.len(),
                digit_run(v@, start as int) == digit_run(v@, next as int),
            decreases v@.len() - next,
        {
            next = next + 1;
        }
        assert(digit_run(v@, start as int) == next);
        if next > end {
            return None;
        }
        match parse_number(v, start, next, u64::MAX) {
            Some(n) => {
                let ghost before = ns@;
                ns.push(n);
                proof {
                    match read_items(v@, next as int, end as int) {
                        Some(more) => {
                            assert(before + (seq![n] + more) =~= ns@ + more);
                        },
                        None => {},
                    }
                }
            },
            None => {
                return None;
            },
        }
        at = next;
    }
    assert(ns@ + Seq::<u64>::empty() =~= ns@);
    Some(ns)
}

/// Reads the numbers in the member that a text ends with.
pub fn read_state(v: &Vec<char>) -> (r: Option<Vec<u64>>)
    ensures
        match r {
            Some(ns) => state_in(v@) == Some(ns@),
            None => state_in(v@) is None,
        },
{
    let n: usize = v.len();
    let mut p: usize = n;
    while p > 0 && v[p - 1] != '['
        invariant
            p <= n,
            n == v@.len(),
            last_place(v@, '[', n as int) == last_place(v@, '[', p as int),
        decreases p,
    {
        p = p - 1;
    }
    if p < 9 || p - 1 > n - 4 {
        assert(p > 0 ==> last_place(v@, '[', n as int) == p - 1);
        return None;
    }
    assert(last_place(v@, '[', n as int) == p - 1);
    let head = to_chars("\"state\":[1");
    let tail = to_chars("]}");
    if check_occurs_at(v, &head, p - 9) && check_occurs_at(v, &tail, n - 2) {
        read_numbers(v, p + 1, n - 2)
    } else {
        None
    }
}

proof fn items_are_plain(ns: Seq<u64>)
    ensures
        forall|i: int|
            0 <= i < items(ns).len() ==> #[trigger] items(ns)[i] == ',' || '0' <= items(ns)[i]
                <= '9',
    decreases ns.len(),
{
    if ns.len() > 0 {
        reveal_strlit(",");
        dec_reads_back(ns[0] as nat);
        items_are_plain(ns.skip(1));
        let d = dec(ns[0] as nat);
        let more = items(ns.skip(1));
        assert forall|i: int| 0 <= i < items(ns).len() implies #[trigger] items(ns)[i] == ','
            || '0' <= items(ns)[i] <= '9' by {
            if 1 <= i <= d.len() {
                assert(items(ns)[i] == d[i - 1]);
            } else if i > d.len() {
                assert(items(ns)[i] == more[i - 1 - d.len()]);
            }
        }
    }
}

proof fn items_read_back(ns: Seq<u64>, text: Seq<char>, at: int)
    requires
        0 <= at,
        at + items(ns).len() < text.len(),
        text.subrange(at, at + items(ns).len()) == items(ns),
        text[at + items(ns).len()] == ']',
    ensures
        read_items(text, at, at + items(ns).len()) == Some(ns),
    decreases ns.len(),
{
    let end = at + items(ns).len();
    let part = text.subrange(at, end);
    if ns.len() == 0 {
        assert(ns =~= Seq::<u64>::empty());
    } else {
        reveal_strlit(",");
        let d = dec(ns[0] as nat);
        let more = items(ns.skip(1));
        let n = 1 + d.len() as int;
        let next = at + n;
        dec_reads_back(ns[0] as nat);
        assert(part =~= ","@ + d + more);
        assert(text[at] == part[0]);
        assert forall|i: int| at + 1 <= i < next implies '0' <= #[trigger] text[i] <= '9' by {
            assert(text[i] == part[i - at]);
            assert(part[i - at] == d[i - at - 1]);
        }
        assert(!('0' <= text[next] <= '9')) by {
            if next < end {
                assert(text[next] == part[next - at]);
                assert(part[next - at] == more[0]);
                assert(ns.skip(1).len() > 0);
            }
        }
        run_of_digits(text, next, at + 1);
        assert(text.subrange(at + 1, next) =~= part.subrange(1, n));
        assert(part.subrange(1, n) =~= d);
        assert(d[0] != '+');
        assert(text.subrange(next, next + more.len()) =~= part.skip(n));
        assert(part.skip(n) =~= more);
        items_read_back(ns.skip(1), text, next);
        assert(seq![ns[0]] + ns.skip(1) =~= ns);
    }
}

proof fn last_place_is(text: Seq<char>, c: char, n: int, p: int)
    requires
        0 <= p < n <= text.len(),
        text[p] == c,
        forall|i: int| p < i < n ==> #[trigger] text[i] != c,
    ensures
        last_place(text, c, n) == p,
    decreases n,
{
    if p < n - 1 {
        last_place_is(text, c, n - 1, p);
    }
}

/// The numbers that a text ends with are read back, whatever stands before them.
pub proof fn state_reads_back(before: Seq<char>, ns: Seq<u64>)
    ensures
        state_in(before + state_member(ns)) == Some(ns),
{
    let head = "\"state\":[1"@;
    let tail = "]}"@;
    let text = before + state_member(ns);
    let from = before.len() as int;
    let at = from + head.len();
    let end = at + items(ns).len();
    reveal_strlit("\"state\":[1");
    reveal_strlit("]}");
    items_are_plain(ns);
    assert(text.subrange(from, at) =~= head);
    assert(text.subrange(at, end) =~= items(ns));
    assert(text.subrange(end, end + 2) =~= tail);
    assert(text[end] == tail[0] && text[end + 1] == tail[1]);
    assert(text[from + 8] == head[8] && text[from + 9] == head[9]);
    assert forall|i: int| from + 8 < i < text.len() implies #[trigger] text[i] != '[' by {
        if i >= at && i < end {
            assert(text[i] == items(ns)[i - at]);
        }
    }
    last_place_is(text, '[', text.len() as int, from + 8);
    items_read_back(ns, text, at);
}

} // verus!
