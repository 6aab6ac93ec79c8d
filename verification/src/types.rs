//! The language's types, and their ghost model.
//!
//! `Type` is a closed recursive sum with structural equality. Because values
//! of kind `Type` are first class in the language (signatures are computed by
//! running code), the same datatype serves both the type checker and the
//! interpreter.

use vstd::prelude::*;

verus! {

broadcast use vstd::seq::axiom_seq_index_decreases;

/// A type of the language: `int`, `bool`, `type` (the type of types), or a
/// procedure type with parameter and return lists.
#[derive(Debug, PartialEq)]
pub enum Type {
    Type,
    Integer,
    Bool,
    Procedure { parameters: Vec<Type>, return_types: Vec<Type> },
}

/// The ghost image of a `Type`, with the lists as sequences. Equality on
/// `SpecType` is the structural equality contracts speak about.
pub ghost enum SpecType {
    Type,
    Integer,
    Bool,
    Procedure { parameters: Seq<SpecType>, return_types: Seq<SpecType> },
}

/// The ghost image of one `Type`.
pub open spec fn sty_of(t: Type) -> SpecType
    decreases t,
{
    match t {
        Type::Type => SpecType::Type,
        Type::Integer => SpecType::Integer,
        Type::Bool => SpecType::Bool,
        Type::Procedure { parameters, return_types } => SpecType::Procedure {
            parameters: sty_of_seq(parameters@),
            return_types: sty_of_seq(return_types@),
        },
    }
}

/// The ghost image of a list of `Type`s.
pub open spec fn sty_of_seq(ts: Seq<Type>) -> Seq<SpecType>
    decreases ts,
{
    if ts.len() == 0 {
        Seq::empty()
    } else {
        proof {
            vstd::seq::axiom_seq_subrange_decreases::<Type>(ts, 1, ts.len() as int);
        }
        seq![sty_of(ts[0])] + sty_of_seq(ts.drop_first())
    }
}

/// Pointwise description of `sty_of_seq`.
pub broadcast proof fn lemma_sty_of_seq(ts: Seq<Type>)
    ensures
        (#[trigger] sty_of_seq(ts)).len() == ts.len(),
        forall|i: int| 0 <= i < ts.len() ==> sty_of_seq(ts)[i] == sty_of(ts[i]),
    decreases ts.len(),
{
    if ts.len() > 0 {
        lemma_sty_of_seq(ts.drop_first());
        assert forall|i: int| 0 <= i < ts.len() implies sty_of_seq(ts)[i] == sty_of(ts[i]) by {
            if i > 0 {
                assert(ts.drop_first()[i - 1] == ts[i]);
            }
        }
    }
}

impl Clone for Type {
    /// Structure-preserving deep copy.
    fn clone(&self) -> (r: Type)
        ensures
            sty_of(r) == sty_of(*self),
        decreases *self,
    {
        match self {
            Type::Type => Type::Type,
            Type::Integer => Type::Integer,
            Type::Bool => Type::Bool,
            Type::Procedure { parameters, return_types } => {
                let r = Type::Procedure {
                    parameters: clone_type_vec(parameters),
                    return_types: clone_type_vec(return_types),
                };
                proof {
                    broadcast use lemma_sty_of_seq;

                    assert(sty_of_seq(r->parameters@) =~= sty_of_seq(self->parameters@));
                    assert(sty_of_seq(r->return_types@) =~= sty_of_seq(self->return_types@));
                }
                r
            },
        }
    }
}

/// Deep copy of a list of types.
pub fn clone_type_vec(ts: &Vec<Type>) -> (r: Vec<Type>)
    ensures
        sty_of_seq(r@) == sty_of_seq(ts@),
    decreases *ts,
{
    let mut r: Vec<Type> = Vec::new();
    let mut i: usize = 0;
    while i < ts.len()
        invariant
            i <= ts@.len(),
            r@.len() == i,
            forall|j: int| 0 <= j < i ==> sty_of(r@[j]) == sty_of(ts@[j]),
        decreases ts@.len() - i,
    {
        proof {
            assert(decreases_to!(*ts => ts@));
            assert(decreases_to!(ts@ => ts@[i as int]));
        }
        r.push(ts[i].clone());
        i += 1;
    }
    proof {
        broadcast use lemma_sty_of_seq;

        assert(sty_of_seq(r@) =~= sty_of_seq(ts@));
    }
    r
}

/// Structural equality of two types.
pub fn type_eq(a: &Type, b: &Type) -> (r: bool)
    ensures
        r == (sty_of(*a) == sty_of(*b)),
    decreases *a,
{
    match (a, b) {
        (Type::Type, Type::Type) => true,
        (Type::Integer, Type::Integer) => true,
        (Type::Bool, Type::Bool) => true,
        (
            Type::Procedure { parameters: ap, return_types: ar },
            Type::Procedure { parameters: bp, return_types: br },
        ) => type_list_eq(ap, bp) && type_list_eq(ar, br),
        _ => false,
    }
}

/// Structural equality of two lists of types.
pub fn type_list_eq(a: &Vec<Type>, b: &Vec<Type>) -> (r: bool)
    ensures
        r == (sty_of_seq(a@) == sty_of_seq(b@)),
    decreases *a,
{
    if a.len() != b.len() {
        proof {
            broadcast use lemma_sty_of_seq;

            assert(sty_of_seq(a@).len() == a@.len());
            assert(sty_of_seq(b@).len() == b@.len());
        }
        return false;
    }
    let mut i: usize = 0;
    while i < a.len()
        invariant
            a@.len() == b@.len(),
            i <= a@.len(),
            forall|j: int| 0 <= j < i ==> sty_of(a@[j]) == sty_of(b@[j]),
        decreases a@.len() - i,
    {
        proof {
            assert(decreases_to!(*a => a@));
            assert(decreases_to!(a@ => a@[i as int]));
        }
        if !type_eq(&a[i], &b[i]) {
            proof {
                broadcast use lemma_sty_of_seq;

                assert(sty_of_seq(a@)[i as int] != sty_of_seq(b@)[i as int]);
            }
            return false;
        }
        i += 1;
    }
    proof {
        broadcast use lemma_sty_of_seq;

        assert(sty_of_seq(a@) =~= sty_of_seq(b@));
    }
    true
}

} // verus!
