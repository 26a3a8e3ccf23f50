//! A deterministic fingerprint of values.
//!
//! Equality of values is structural, so their fingerprint must be a function
//! of the value alone: equal values always hash alike, objects regardless of
//! how they were built (their fields are kept sorted by name, so the sorted
//! order is the one hashed).

use crate::model::ValueModel;
use crate::text::Text;
use crate::types::Value;
use crate::types::fields_model;
use crate::types::lemma_fields_model;
use vstd::prelude::*;
use vstd::string::StrSliceExecFns;
use vstd::wrapping::u64_specs;

verus! {

/// One mixing step of the fingerprint.
pub open spec fn mix(h: u64, x: u64) -> u64 {
    u64_specs::wrapping_add(u64_specs::wrapping_mul(h, 31), x)
}

/// The fingerprint of a character sequence.
pub open spec fn text_fingerprint(s: Seq<char>) -> u64
    decreases s.len(),
{
    if s.len() == 0 {
        7
    } else {
        mix(text_fingerprint(s.drop_last()), s.last() as u64)
    }
}

/// The fingerprint of a value: its variant and its contents, an object's
/// fields combined in their (sorted) order.
pub open spec fn value_fingerprint(v: ValueModel) -> u64
    decreases v,
{
    match v {
        ValueModel::Int(n) => if n >= 0 {
            mix(1, (n % 0x8000_0000_0000_0000) as u64)
        } else {
            mix(2, ((0 - n) % 0x8000_0000_0000_0000) as u64)
        },
        ValueModel::Str(s) => mix(3, text_fingerprint(s)),
        ValueModel::Bool(b) => mix(
            4,
            if b {
                1
            } else {
                0
            },
        ),
        ValueModel::Obj(fields) => mix(5, fields_fingerprint(fields)),
        ValueModel::Indet => 6,
    }
}

/// The combined fingerprint of a field list.
pub open spec fn fields_fingerprint(fields: Seq<(Seq<char>, ValueModel)>) -> u64
    decreases fields,
{
    if fields.len() == 0 {
        11
    } else {
        mix(
            mix(fields_fingerprint(fields.drop_last()), text_fingerprint(fields.last().0)),
            value_fingerprint(fields.last().1),
        )
    }
}

/// One mixing step.
fn mix_step(h: u64, x: u64) -> (r: u64)
    ensures
        r == mix(h, x),
{
    h.wrapping_mul(31).wrapping_add(x)
}

/// The fingerprint of a text.
#[verifier::loop_isolation(false)]
fn text_step(t: &Text) -> (r: u64)
    ensures
        r == text_fingerprint(t@),
{
    let s = t.as_str();
    let n = s.unicode_len();
    let mut h: u64 = 7;
    let mut i: usize = 0;
    proof {
        assert(t@.take(0) =~= Seq::<char>::empty());
    }
    while i < n
        invariant
            0 <= i <= n,
            n == t@.len(),
            s@ == t@,
            h == text_fingerprint(t@.take(i as int)),
        decreases n - i,
    {
        let c = s.get_char(i);
        h = mix_step(h, c as u64);
        proof {
            assert(t@.take(i + 1).drop_last() =~= t@.take(i as int));
            assert(t@.take(i + 1).last() == t@[i as int]);
        }
        i += 1;
    }
    proof {
        assert(t@.take(n as int) =~= t@);
    }
    h
}

impl Value {
    /// A deterministic fingerprint of this value. It agrees with structural
    /// equality: equal values always produce the same fingerprint, in every
    /// pass and on every machine (see [`lemma_fingerprint_agrees`]).
    #[verifier::loop_isolation(false)]
    pub fn fingerprint(&self) -> (r: u64)
        ensures
            r == value_fingerprint(self@),
        decreases self,
    {
        match self {
            Value::Number(num) => {
                if *num >= 0 {
                    mix_step(1, *num as u64)
                } else {
                    let p: i64 = -(*num as i64);
                    mix_step(2, p as u64)
                }
            },
            Value::String(t) => mix_step(3, text_step(t)),
            Value::Boolean(b) => mix_step(
                4,
                if *b {
                    1
                } else {
                    0
                },
            ),
            Value::Indeterminate => 6,
            Value::Object(o) => {
                proof {
                    lemma_fields_model(o.fields@);
                    assert(fields_model(o.fields@).take(0) =~= Seq::<(
                        Seq<char>,
                        ValueModel,
                    )>::empty());
                }
                let n = o.fields.len();
                let mut h: u64 = 11;
                let mut i: usize = 0;
                while i < n
                    invariant
                        0 <= i <= n,
                        n == o.fields@.len(),
                        h == fields_fingerprint(fields_model(o.fields@).take(i as int)),
                    decreases n - i,
                {
                    proof {
                        lemma_fields_model(o.fields@);
                        assert(decreases_to!(*self => self->Object_0));
                        assert(decreases_to!(self->Object_0 => self->Object_0.fields));
                        assert(decreases_to!(self->Object_0.fields => self->Object_0.fields@));
                        assert(decreases_to!(self->Object_0.fields@ => self->Object_0.fields@[i as int]));
                        assert(decreases_to!(self->Object_0.fields@[i as int] => self->Object_0.fields@[i as int].value));
                    }
                    let hn = text_step(&o.fields[i].name);
                    let hv = o.fields[i].value.fingerprint();
                    h = mix_step(mix_step(h, hn), hv);
                    proof {
                        let fm = fields_model(o.fields@);
                        assert(fm.take(i + 1).drop_last() =~= fm.take(i as int));
                        assert(fm.take(i + 1).last() == fm[i as int]);
                    }
                    i += 1;
                }
                proof {
                    assert(fields_model(o.fields@).take(n as int) =~= fields_model(o.fields@));
                }
                mix_step(5, h)
            },
        }
    }
}

/// The fingerprint agrees with equality: values that compare equal hash
/// alike, and hashing is deterministic, a pure function of the value.
pub proof fn lemma_fingerprint_agrees(a: ValueModel, b: ValueModel)
    requires
        a == b,
    ensures
        value_fingerprint(a) == value_fingerprint(b),
{
}

} // verus!
