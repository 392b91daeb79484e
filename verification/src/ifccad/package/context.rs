//! The scalar context a diagnostic carries, and its compact JSON text.
//!
//! A context is a map from names to scalars with its keys kept in byte order,
//! as a sorted map keeps them; its JSON text lists the entries in that order
//! with no whitespace, which is what makes it usable as a sort key.

use vstd::prelude::*;
use vstd::utf8::encode_utf8;
use super::order::{lex_order, lex_order_exec, lemma_lex_antisymmetric, lemma_lex_transitive, lemma_lex_zero_iff_equal};

verus! {

/// An integer JSON number, held the way a JSON number value holds it: a
/// non-negative value as unsigned, a negative one as signed.
#[derive(Debug, Clone, Copy, PartialEq, Eq, Structural)]
pub enum JsonNumber {
    PosInt(u64),
    NegInt(i64),
}

/// A scalar value in a diagnostic's context.
#[derive(Debug, Clone, PartialEq)]
pub enum PackageDiagnosticContextValue {
    Null,
    Boolean(bool),
    Number(JsonNumber),
    String(String),
}

impl From<i32> for JsonNumber {
    fn from(value: i32) -> (n: Self) {
        if value < 0 {
            JsonNumber::NegInt(value as i64)
        } else {
            JsonNumber::PosInt(value as u64)
        }
    }
}

impl vstd::std_specs::convert::FromSpecImpl<i32> for JsonNumber {
    open spec fn obeys_from_spec() -> bool {
        true
    }

    open spec fn from_spec(value: i32) -> Self {
        if value < 0 {
            JsonNumber::NegInt(value as i64)
        } else {
            JsonNumber::PosInt(value as u64)
        }
    }
}

impl From<i64> for JsonNumber {
    fn from(value: i64) -> (n: Self) {
        if value < 0 {
            JsonNumber::NegInt(value)
        } else {
            JsonNumber::PosInt(value as u64)
        }
    }
}

impl vstd::std_specs::convert::FromSpecImpl<i64> for JsonNumber {
    open spec fn obeys_from_spec() -> bool {
        true
    }

    open spec fn from_spec(value: i64) -> Self {
        if value < 0 {
            JsonNumber::NegInt(value)
        } else {
            JsonNumber::PosInt(value as u64)
        }
    }
}

impl From<u64> for JsonNumber {
    fn from(value: u64) -> (n: Self) {
        JsonNumber::PosInt(value)
    }
}

impl vstd::std_specs::convert::FromSpecImpl<u64> for JsonNumber {
    open spec fn obeys_from_spec() -> bool {
        true
    }

    open spec fn from_spec(value: u64) -> Self {
        JsonNumber::PosInt(value)
    }
}

/// The decimal digits of `n`, most significant first, as ASCII bytes.
pub open spec fn decimal(n: nat) -> Seq<u8>
    decreases n,
{
    if n < 10 {
        seq![(48 + n) as u8]
    } else {
        decimal(n / 10).push((48 + n % 10) as u8)
    }
}

/// The JSON text of a number: its decimal digits, after a minus sign when it
/// is negative.
pub open spec fn number_json(n: JsonNumber) -> Seq<u8> {
    match n {
        JsonNumber::PosInt(u) => decimal(u as nat),
        JsonNumber::NegInt(i) => if i < 0 {
            seq![45u8] + decimal((-i) as nat)
        } else {
            decimal(i as nat)
        },
    }
}

/// The UTF-8 encoding of a character.
pub open spec fn utf8(c: char) -> Seq<u8> {
    let x = c as int;
    if x < 0x80 {
        seq![x as u8]
    } else if x < 0x800 {
        seq![(0xC0 + x / 64) as u8, (0x80 + x % 64) as u8]
    } else if x < 0x10000 {
        seq![(0xE0 + x / 4096) as u8, (0x80 + (x / 64) % 64) as u8, (0x80 + x % 64) as u8]
    } else {
        seq![
            (0xF0 + x / 262144) as u8,
            (0x80 + (x / 4096) % 64) as u8,
            (0x80 + (x / 64) % 64) as u8,
            (0x80 + x % 64) as u8,
        ]
    }
}

/// A lowercase hexadecimal digit.
pub open spec fn hex_digit(n: int) -> u8 {
    if n < 10 {
        (48 + n) as u8
    } else {
        (87 + n) as u8
    }
}

/// How a character is written inside a JSON string: a quote, a backslash
/// and the five control characters with short escapes get a backslash and a
/// letter, any other control character below 0x20 is written `\u00` and two
/// lowercase hex digits, and every other character is its UTF-8 bytes.
pub open spec fn escaped_char(c: char) -> Seq<u8> {
    let x = c as int;
    if x == 34 {
        seq![92u8, 34u8]
    } else if x == 92 {
        seq![92u8, 92u8]
    } else if x == 8 {
        seq![92u8, 98u8]
    } else if x == 12 {
        seq![92u8, 102u8]
    } else if x == 10 {
        seq![92u8, 110u8]
    } else if x == 13 {
        seq![92u8, 114u8]
    } else if x == 9 {
        seq![92u8, 116u8]
    } else if x < 32 {
        seq![92u8, 117u8, 48u8, 48u8, hex_digit(x / 16), hex_digit(x % 16)]
    } else {
        utf8(c)
    }
}

/// The characters of a string, each written as in a JSON string.
pub open spec fn escaped(s: Seq<char>) -> Seq<u8>
    decreases s.len(),
{
    if s.len() == 0 {
        Seq::empty()
    } else {
        escaped(s.drop_last()) + escaped_char(s.last())
    }
}

/// What the JSON serializer writes for a string: the string, escaped, between
/// double quotes.
pub open spec fn json_string_bytes(s: Seq<char>) -> Seq<u8> {
    seq![34u8] + escaped(s) + seq![34u8]
}

/// The JSON text of a string value.
///
/// Calls `serde_json::Value::String(..).to_string()`, the compact JSON
/// serialization of a string value, and claims that it writes the string
/// between double quotes with each character escaped as `escaped_char`
/// states: the escape table and `\u00` form of serde_json's
/// `format_escaped_str`, which passes every byte of a non-ASCII character
/// through unchanged.
#[verifier::external_body]
fn json_string(s: &str) -> (b: Vec<u8>)
    ensures
        b@ == json_string_bytes(s@),
{
    serde_json::Value::String(s.to_owned()).to_string().into_bytes()
}

/// The JSON text of a context value.
pub open spec fn value_json(v: PackageDiagnosticContextValue) -> Seq<u8> {
    match v {
        PackageDiagnosticContextValue::Null => seq![110u8, 117u8, 108u8, 108u8],
        PackageDiagnosticContextValue::Boolean(b) => if b {
            seq![116u8, 114u8, 117u8, 101u8]
        } else {
            seq![102u8, 97u8, 108u8, 115u8, 101u8]
        },
        PackageDiagnosticContextValue::Number(n) => number_json(n),
        PackageDiagnosticContextValue::String(s) => json_string_bytes(s@),
    }
}

/// The UTF-8 bytes of a key, the form keys are ordered by.
pub open spec fn key_bytes(k: String) -> Seq<u8> {
    encode_utf8(k@)
}

/// One `"key":value` member of a JSON object.
pub open spec fn entry_json(e: (String, PackageDiagnosticContextValue)) -> Seq<u8> {
    json_string_bytes(e.0@) + seq![58u8] + value_json(e.1)
}

/// The members of a JSON object, separated by commas.
pub open spec fn entries_json(s: Seq<(String, PackageDiagnosticContextValue)>) -> Seq<u8>
    decreases s.len(),
{
    if s.len() == 0 {
        seq![]
    } else if s.len() == 1 {
        entry_json(s[0])
    } else {
        entries_json(s.drop_last()) + seq![44u8] + entry_json(s.last())
    }
}

/// Whether the entries' keys strictly increase in byte order.
pub open spec fn keys_increasing(s: Seq<(String, PackageDiagnosticContextValue)>) -> bool {
    forall|i: int, j: int|
        0 <= i < j < s.len() ==> lex_order(key_bytes(#[trigger] s[i].0), key_bytes(#[trigger] s[j].0))
            < 0
}

/// A map from names to scalar values, its keys kept in byte order.
#[derive(Debug, Clone, PartialEq)]
pub struct DiagnosticContext {
    entries: Vec<(String, PackageDiagnosticContextValue)>,
}

impl View for DiagnosticContext {
    type V = Seq<(String, PackageDiagnosticContextValue)>;

    closed spec fn view(&self) -> Seq<(String, PackageDiagnosticContextValue)> {
        self.entries@
    }
}

/// The compact JSON object of a context: `{`, its members in key order, `}`.
pub open spec fn context_json(c: DiagnosticContext) -> Seq<u8> {
    seq![123u8] + entries_json(c@) + seq![125u8]
}

/// The decimal digits of `n`.
fn decimal_bytes(n: u64) -> (b: Vec<u8>)
    ensures
        b@ == decimal(n as nat),
    decreases n,
{
    if n < 10 {
        let mut v = Vec::new();
        v.push(48u8 + n as u8);
        v
    } else {
        let mut v = decimal_bytes(n / 10);
        v.push(48u8 + (n % 10) as u8);
        v
    }
}

/// The JSON text of a number.
fn number_bytes(n: &JsonNumber) -> (b: Vec<u8>)
    ensures
        b@ == number_json(*n),
{
    match n {
        JsonNumber::PosInt(u) => decimal_bytes(*u),
        JsonNumber::NegInt(i) => {
            if *i < 0 {
                let magnitude: u64 = (0i128 - (*i as i128)) as u64;
                let mut v = Vec::new();
                v.push(45u8);
                let mut digits = decimal_bytes(magnitude);
                v.append(&mut digits);
                v
            } else {
                decimal_bytes(*i as u64)
            }
        },
    }
}

/// The JSON text of a context value.
fn value_bytes(v: &PackageDiagnosticContextValue) -> (b: Vec<u8>)
    ensures
        b@ == value_json(*v),
{
    match v {
        PackageDiagnosticContextValue::Null => {
            let mut b = Vec::new();
            b.push(110u8);
            b.push(117u8);
            b.push(108u8);
            b.push(108u8);
            b
        },
        PackageDiagnosticContextValue::Boolean(flag) => {
            let mut b = Vec::new();
            if *flag {
                b.push(116u8);
                b.push(114u8);
                b.push(117u8);
                b.push(101u8);
            } else {
                b.push(102u8);
                b.push(97u8);
                b.push(108u8);
                b.push(115u8);
                b.push(101u8);
            }
            b
        },
        PackageDiagnosticContextValue::Number(n) => number_bytes(n),
        PackageDiagnosticContextValue::String(s) => json_string(s.as_str()),
    }
}

impl DiagnosticContext {
    /// The context's invariant: its keys strictly increase in byte order.
    pub closed spec fn wf(&self) -> bool {
        keys_increasing(self.entries@)
    }

    /// An empty context.
    pub fn new() -> (c: Self)
        ensures
            c@ == Seq::<(String, PackageDiagnosticContextValue)>::empty(),
            c.wf(),
    {
        DiagnosticContext { entries: Vec::new() }
    }

    /// The entries, in key order.
    pub fn entries(&self) -> (r: &Vec<(String, PackageDiagnosticContextValue)>)
        ensures
            r@ == self@,
    {
        &self.entries
    }

    /// The number of entries.
    pub fn len(&self) -> (n: usize)
        ensures
            n == self@.len(),
    {
        self.entries.len()
    }

    /// Sets the value under `key`. Where an entry with an equal key is
    /// already there its value is replaced, its key kept, and the old value
    /// returned; otherwise the entry is inserted where its key sorts.
    pub fn insert(&mut self, key: String, value: PackageDiagnosticContextValue) -> (r: Option<
        PackageDiagnosticContextValue,
    >)
        requires
            old(self).wf(),
        ensures
            final(self).wf(),
            match r {
                Some(previous) => exists|i: int|
                    0 <= i < old(self)@.len() && key_bytes(old(self)@[i].0) == key_bytes(key)
                        && previous == old(self)@[i].1 && final(self)@ == old(self)@.update(
                        i,
                        (old(self)@[i].0, value),
                    ),
                None => (forall|i: int|
                    0 <= i < old(self)@.len() ==> key_bytes(#[trigger] old(self)@[i].0)
                        != key_bytes(key)) && exists|p: int|
                    0 <= p <= old(self)@.len() && (forall|i: int|
                        0 <= i < p ==> lex_order(key_bytes(#[trigger] old(self)@[i].0), key_bytes(key))
                            < 0) && (forall|i: int|
                        p <= i < old(self)@.len() ==> lex_order(
                            key_bytes(#[trigger] old(self)@[i].0),
                            key_bytes(key),
                        ) > 0) && final(self)@ == old(self)@.insert(p, (key, value)),
            },
    {
        let mut entries: Vec<(String, PackageDiagnosticContextValue)> = Vec::new();
        std::mem::swap(&mut entries, &mut self.entries);
        let ghost before = entries@;
        assert(before == old(self)@);
        let key_b = key.as_str().as_bytes_vec();
        let mut p: usize = 0;
        while p < entries.len() && lex_order_exec(
            entries[p].0.as_str().as_bytes_vec().as_slice(),
            key_b.as_slice(),
        ) < 0
            invariant
                entries@ == before,
                keys_increasing(before),
                key_b@ == key_bytes(key),
                p <= before.len(),
                forall|i: int| 0 <= i < p ==> lex_order(key_bytes(#[trigger] before[i].0), key_b@) < 0,
            decreases before.len() - p,
        {
            p = p + 1;
        }
        if p < entries.len() && lex_order_exec(
            entries[p].0.as_str().as_bytes_vec().as_slice(),
            key_b.as_slice(),
        ) == 0 {
            proof {
                lemma_lex_zero_iff_equal(key_bytes(before[p as int].0), key_b@);
            }
            let (old_key, old_value) = entries.remove(p);
            entries.insert(p, (old_key, value));
            assert(entries@ =~= before.update(p as int, (before[p as int].0, value)));
            proof {
                assert forall|i: int, j: int| 0 <= i < j < entries@.len() implies lex_order(
                    key_bytes(#[trigger] entries@[i].0),
                    key_bytes(#[trigger] entries@[j].0),
                ) < 0 by {
                    assert(entries@[i].0 == before[i].0);
                    assert(entries@[j].0 == before[j].0);
                }
            }
            self.entries = entries;
            Some(old_value)
        } else {
            proof {
                assert forall|i: int| p <= i < before.len() implies lex_order(
                    key_bytes(#[trigger] before[i].0),
                    key_bytes(key),
                ) > 0 by {
                    lemma_lex_antisymmetric(key_bytes(before[p as int].0), key_b@);
                    if i > p {
                        lemma_lex_antisymmetric(key_bytes(before[p as int].0), key_bytes(before[i].0));
                        lemma_lex_antisymmetric(key_bytes(before[i].0), key_b@);
                        if lex_order(key_bytes(before[i].0), key_b@) <= 0 {
                            lemma_lex_transitive(
                                key_bytes(before[p as int].0),
                                key_bytes(before[i].0),
                                key_b@,
                            );
                        }
                    }
                }
                assert forall|i: int| 0 <= i < before.len() implies key_bytes(#[trigger] before[i].0)
                    != key_bytes(key) by {
                    lemma_lex_zero_iff_equal(key_bytes(before[i].0), key_b@);
                    if i >= p {
                        assert(lex_order(key_bytes(before[i].0), key_bytes(key)) > 0);
                    }
                }
            }
            entries.insert(p, (key, value));
            proof {
                let after = entries@;
                assert(after =~= before.insert(p as int, (key, value)));
                assert forall|i: int, j: int| 0 <= i < j < after.len() implies lex_order(
                    key_bytes(#[trigger] after[i].0),
                    key_bytes(#[trigger] after[j].0),
                ) < 0 by {
                    if j < p {
                        assert(after[i] == before[i] && after[j] == before[j]);
                    } else if j == p {
                        assert(after[i] == before[i]);
                    } else if i < p {
                        assert(after[i] == before[i] && after[j] == before[j - 1]);
                        lemma_lex_antisymmetric(key_bytes(before[j - 1].0), key_b@);
                        lemma_lex_transitive(key_bytes(before[i].0), key_b@, key_bytes(before[j - 1].0));
                    } else if i == p {
                        assert(after[j] == before[j - 1]);
                        lemma_lex_antisymmetric(key_bytes(before[j - 1].0), key_b@);
                    } else {
                        assert(after[i] == before[i - 1] && after[j] == before[j - 1]);
                    }
                }
            }
            self.entries = entries;
            assert(0 <= p <= before.len() && (forall|i: int|
                0 <= i < p ==> lex_order(key_bytes(#[trigger] before[i].0), key_bytes(key)) < 0) && (
            forall|i: int|
                p <= i < before.len() ==> lex_order(key_bytes(#[trigger] before[i].0), key_bytes(key))
                    > 0) && self@ == before.insert(p as int, (key, value)));
            None
        }
    }

    /// The compact JSON object of this context.
    pub fn to_json(&self) -> (b: Vec<u8>)
        ensures
            b@ == context_json(*self),
    {
        let mut b: Vec<u8> = Vec::new();
        b.push(123u8);
        let mut i: usize = 0;
        while i < self.entries.len()
            invariant
                i <= self.entries@.len(),
                b@ == seq![123u8] + entries_json(self.entries@.take(i as int)),
            decreases self.entries@.len() - i,
        {
            let ghost prefix = b@;
            if i > 0 {
                b.push(44u8);
            }
            let mut k = json_string(self.entries[i].0.as_str());
            b.append(&mut k);
            b.push(58u8);
            let mut v = value_bytes(&self.entries[i].1);
            b.append(&mut v);
            proof {
                let s = self.entries@.take(i + 1);
                assert(s.drop_last() =~= self.entries@.take(i as int));
                assert(s.last() == self.entries@[i as int]);
                if i == 0 {
                    assert(s.len() == 1);
                    assert(b@ =~= seq![123u8] + entries_json(s));
                } else {
                    assert(b@ =~= seq![123u8] + entries_json(s));
                }
            }
            i = i + 1;
        }
        b.push(125u8);
        assert(self.entries@.take(self.entries@.len() as int) =~= self.entries@);
        assert(b@ =~= context_json(*self));
        b
    }
}

} // verus!
