//! The value tree produced by the parser, its specification-level model,
//! and the error and position types reported on failure.

use vstd::prelude::*;

verus! {

broadcast use vstd::std_specs::vec::group_vec_axioms;

/// The digit parts of a JSON number, exactly as they appeared in the input.
///
/// The numeric value they denote is
/// `(-1)^negative * digits * 10^(. fraction) * 10^((-1)^exponent_negative * exponent)`,
/// read as decimal digit strings.  Keeping the digits (rather than a binary
/// floating-point value) lets every field be stated and proved exactly;
/// a caller that wants a machine float folds the parts itself.
#[derive(Debug, PartialEq, Eq)]
pub struct Number {
    /// True when the number began with a minus sign (also for `-0`).
    pub negative: bool,
    /// The integer-part digits, each `0..=9`; `0` is kept as a single digit.
    pub digits: Vec<u8>,
    /// The fraction digits, each `0..=9`; empty when no fraction was given.
    pub fraction: Vec<u8>,
    /// True when an exponent was given with a `-` sign.
    pub exponent_negative: bool,
    /// The exponent digits, each `0..=9`; empty when no exponent was given.
    pub exponent: Vec<u8>,
}

/// Specification-level model of [`Number`]: the same parts over `Seq`.
#[verifier::ext_equal]
pub struct SpecNumber {
    pub negative: bool,
    pub digits: Seq<u8>,
    pub fraction: Seq<u8>,
    pub exponent_negative: bool,
    pub exponent: Seq<u8>,
}

/// One parsed JSON value.
///
/// Strings are kept as their UTF-8 bytes; the input buffer is valid UTF-8 and
/// every escape is re-encoded as a valid UTF-8 sequence, so the bytes of a
/// `Text` are always valid UTF-8 (proved as
/// [`crate::laws::lemma_string_bytes_valid_utf8`]).  An `Object` keeps its
/// members in first
/// -insertion order with unique keys; a duplicate key in the input overwrites
/// the value in place (last write wins).
#[derive(Debug, PartialEq)]
pub enum Value {
    Null,
    Boolean(bool),
    Number(Number),
    Text(Vec<u8>),
    Array(Vec<Value>),
    Object(Vec<(Vec<u8>, Value)>),
}

/// Specification-level model of [`Value`].
#[verifier::ext_equal]
pub enum SpecValue {
    Null,
    Bool(bool),
    Num(SpecNumber),
    Str(Seq<u8>),
    Arr(Seq<SpecValue>),
    Obj(Seq<(Seq<u8>, SpecValue)>),
}

impl Number {
    /// The specification-level model of this number.
    pub open spec fn vm(self) -> SpecNumber {
        SpecNumber {
            negative: self.negative,
            digits: self.digits@,
            fraction: self.fraction@,
            exponent_negative: self.exponent_negative,
            exponent: self.exponent@,
        }
    }
}

impl Value {
    /// The specification-level model of this value.
    pub open spec fn vm(self) -> SpecValue
        decreases self,
    {
        match self {
            Value::Null => SpecValue::Null,
            Value::Boolean(b) => SpecValue::Bool(b),
            Value::Number(n) => SpecValue::Num(n.vm()),
            Value::Text(bytes) => SpecValue::Str(bytes@),
            Value::Array(items) => {
                proof {
                    assert(decreases_to!(self => items));
                    assert(decreases_to!(items => items@));
                }
                SpecValue::Arr(vm_seq(items@))
            },
            Value::Object(members) => {
                proof {
                    assert(decreases_to!(self => members));
                    assert(decreases_to!(members => members@));
                }
                SpecValue::Obj(vm_members(members@))
            },
        }
    }
}

/// The models of a sequence of values, element by element.
pub open spec fn vm_seq(items: Seq<Value>) -> Seq<SpecValue>
    decreases items,
{
    if items.len() == 0 {
        Seq::empty()
    } else {
        seq![items[0].vm()] + vm_seq(items.drop_first())
    }
}

/// The models of a sequence of object members, member by member.
pub open spec fn vm_members(ms: Seq<(Vec<u8>, Value)>) -> Seq<(Seq<u8>, SpecValue)>
    decreases ms,
{
    if ms.len() == 0 {
        Seq::empty()
    } else {
        seq![(ms[0].0@, ms[0].1.vm())] + vm_members(ms.drop_first())
    }
}

/// `vm_seq` maps the elements one for one.
pub proof fn lemma_vm_seq(items: Seq<Value>)
    ensures
        vm_seq(items).len() == items.len(),
        forall|j: int| 0 <= j < items.len() ==> vm_seq(items)[j] == items[j].vm(),
    decreases items.len(),
{
    if items.len() > 0 {
        lemma_vm_seq(items.drop_first());
    }
}

/// `vm_members` maps the members one for one.
pub proof fn lemma_vm_members(ms: Seq<(Vec<u8>, Value)>)
    ensures
        vm_members(ms).len() == ms.len(),
        forall|j: int| 0 <= j < ms.len() ==> vm_members(ms)[j] == (ms[j].0@, ms[j].1.vm()),
    decreases ms.len(),
{
    if ms.len() > 0 {
        lemma_vm_members(ms.drop_first());
    }
}

/// Whether two byte strings hold the same bytes.
pub fn bytes_eq(a: &[u8], b: &[u8]) -> (r: bool)
    ensures
        r == (a@ == b@),
{
    if a.len() != b.len() {
        proof {
            assert(a@.len() != b@.len());
        }
        return false;
    }
    let mut i: usize = 0;
    while i < a.len()
        invariant
            i <= a.len(),
            a.len() == b.len(),
            forall|j: int| 0 <= j < i ==> a@[j] == b@[j],
        decreases a.len() - i,
    {
        if a[i] != b[i] {
            return false;
        }
        i = i + 1;
    }
    proof {
        assert(a@ =~= b@);
    }
    true
}

/// Mapping-style insertion into an object's members, mirroring
/// [`crate::grammar::spec_object_insert`]: an existing key's value is
/// overwritten in place, a new key is appended.
pub fn object_insert(members: &mut Vec<(Vec<u8>, Value)>, key: Vec<u8>, val: Value)
    requires
        crate::grammar::unique_keys(vm_members(old(members)@)),
    ensures
        vm_members(final(members)@) == crate::grammar::spec_object_insert(
            vm_members(old(members)@),
            key@,
            val.vm(),
        ),
{
    let ghost ms = vm_members(old(members)@);
    let ghost gk = key@;
    let ghost gv = val.vm();
    proof {
        lemma_vm_members(old(members)@);
    }
    let mut i: usize = 0;
    while i < members.len()
        invariant
            i <= members@.len(),
            *members == *old(members),
            ms == vm_members(members@),
            forall|j: int| 0 <= j < i ==> ms[j].0 != gk,
            gk == key@,
            gv == val.vm(),
            crate::grammar::unique_keys(ms),
        decreases members@.len() - i,
    {
        proof {
            lemma_vm_members(members@);
            assert(ms[i as int] == (members@[i as int].0@, members@[i as int].1.vm()));
        }
        if bytes_eq(members[i].0.as_slice(), key.as_slice()) {
            members[i] = (key, val);
            proof {
                assert(ms[i as int].0 == gk);
                assert(crate::grammar::has_key(ms, gk));
                lemma_vm_members(members@);
                let r = crate::grammar::spec_object_insert(ms, gk, gv);
                assert forall|j: int| 0 <= j < ms.len() implies vm_members(members@)[j] == r[j] by {
                    if j != i {
                        if j < i {
                            assert(ms[j].0 != ms[i as int].0);
                        } else {
                            assert(ms[i as int].0 != ms[j].0);
                        }
                    }
                }
                assert(vm_members(members@) =~= r);
            }
            return ;
        }
        proof {
            assert(ms[i as int].0 != gk);
        }
        i = i + 1;
    }
    members.push((key, val));
    proof {
        lemma_vm_members(old(members)@);
        lemma_vm_members(members@);
        assert(!crate::grammar::has_key(ms, gk));
        assert(vm_members(members@) =~= ms.push((gk, gv)));
    }
}

/// Why a parse failed.
#[derive(Debug, PartialEq, Eq)]
pub enum Error {
    /// A byte (decoded to its character) appeared where the grammar forbids it.
    UnexpectedCharacter { ch: char, line: usize, column: usize },
    /// The input ended while a token or structural element was still required.
    UnexpectedEndOfJson,
    /// A multi-byte sequence was structurally invalid: either a malformed
    /// sequence under an offending byte, or a broken `\u` surrogate pair.
    FailedUtf8Parsing,
}

/// A human-readable place in the source text, both parts 1-based.
#[derive(Debug, PartialEq, Eq)]
pub struct Position {
    pub line: usize,
    pub column: usize,
}

} // verus!
