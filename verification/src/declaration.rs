//! Building a schema from a type declaration.  A primitive integer field
//! must carry exactly one declared bound — an undeclared bound would leave
//! the wire layout ambiguous between encoder and decoder — and a tagged
//! variant may not declare more cases than the fixed-width discriminant can
//! name.  These are construction-time errors, raised once, before any value
//! is compressed.

use vstd::prelude::*;
use crate::error::SchemaError;
use crate::schema::{Schema, wf_schema, MAX_CASES};

verus! {

/// A structural type declaration, as the schema author wrote it: each
/// integer field lists every bound declared on it, in order.
pub enum TypeDecl {
    /// A primitive integer field and the bounds declared on it.
    Integer { bounds: Vec<u128> },
    /// A record: one declaration per field, in declaration order.
    Record { fields: Vec<TypeDecl> },
    /// A tagged variant: one optional payload declaration per case, in
    /// declaration order.
    Variant { cases: Vec<Option<Box<TypeDecl>>> },
}

/// The first error in a declaration, found depth-first in declaration
/// order, if any.
pub open spec fn decl_check(d: TypeDecl) -> Option<SchemaError>
    decreases d,
{
    match d {
        TypeDecl::Integer { bounds } => if bounds@.len() == 0 {
            Some(SchemaError::MissingBound)
        } else if bounds@.len() > 1 {
            Some(SchemaError::MultipleBounds)
        } else {
            None
        },
        TypeDecl::Record { fields } => decl_check_list(fields@),
        TypeDecl::Variant { cases } => if cases@.len() == 0 {
            Some(SchemaError::NoCases)
        } else if cases@.len() > MAX_CASES {
            Some(SchemaError::TooManyCases)
        } else {
            decl_check_cases(cases@)
        },
    }
}

/// The first error among a record's field declarations, if any.
pub open spec fn decl_check_list(ds: Seq<TypeDecl>) -> Option<SchemaError>
    decreases ds,
{
    if ds.len() == 0 {
        None
    } else {
        match decl_check(ds[0]) {
            Some(e) => Some(e),
            None => decl_check_list(ds.drop_first()),
        }
    }
}

/// The first error among a variant's case declarations, if any.
pub open spec fn decl_check_cases(cs: Seq<Option<Box<TypeDecl>>>) -> Option<SchemaError>
    decreases cs,
{
    if cs.len() == 0 {
        None
    } else {
        match cs[0] {
            Some(d) => match decl_check(*d) {
                Some(e) => Some(e),
                None => decl_check_cases(cs.drop_first()),
            },
            None => decl_check_cases(cs.drop_first()),
        }
    }
}

/// Does the schema carry exactly what the declaration declares: each bound,
/// each field, each case, in order?
pub open spec fn schema_matches_decl(s: Schema, d: TypeDecl) -> bool
    decreases d,
{
    match (s, d) {
        (Schema::Uint(m), TypeDecl::Integer { bounds }) => bounds@.len() == 1 && m == bounds@[0],
        (Schema::Record(fs), TypeDecl::Record { fields }) => fs@.len() == fields@.len()
            && forall|i: int|
            0 <= i < fields@.len() ==> schema_matches_decl(fs@[i], #[trigger] fields@[i]),
        (Schema::Variant(cs), TypeDecl::Variant { cases }) => cs@.len() == cases@.len() && forall|
            i: int,
        |
            0 <= i < cases@.len() ==> (match (cs@[i], #[trigger] cases@[i]) {
                (Some(sp), Some(dp)) => schema_matches_decl(*sp, *dp),
                (None, None) => true,
                _ => false,
            }),
        _ => false,
    }
}

/// A prefix without errors does not decide the outcome: checking the whole
/// list is checking what follows the prefix.
proof fn lemma_decl_check_list_skip(ds: Seq<TypeDecl>, i: int)
    requires
        0 <= i <= ds.len(),
        forall|j: int| 0 <= j < i ==> decl_check(#[trigger] ds[j]) is None,
    ensures
        decl_check_list(ds) == decl_check_list(ds.skip(i)),
    decreases i,
{
    if i == 0 {
        assert(ds.skip(0) =~= ds);
    } else {
        assert(ds[0] == ds[0]);
        assert(decl_check(ds[0]) is None);
        assert(ds.drop_first() =~= ds.skip(1));
        assert forall|j: int| 0 <= j < i - 1 implies decl_check(#[trigger] ds.skip(1)[j]) is None by {
            assert(ds.skip(1)[j] == ds[j + 1]);
        }
        lemma_decl_check_list_skip(ds.skip(1), i - 1);
        assert(ds.skip(1).skip(i - 1) =~= ds.skip(i));
    }
}

/// The same, for a variant's cases.
proof fn lemma_decl_check_cases_skip(cs: Seq<Option<Box<TypeDecl>>>, i: int)
    requires
        0 <= i <= cs.len(),
        forall|j: int|
            0 <= j < i ==> (#[trigger] cs[j] matches Some(d) ==> decl_check(*d) is None),
    ensures
        decl_check_cases(cs) == decl_check_cases(cs.skip(i)),
    decreases i,
{
    if i == 0 {
        assert(cs.skip(0) =~= cs);
    } else {
        assert(cs[0] == cs[0]);
        assert(cs[0] matches Some(d) ==> decl_check(*d) is None);
        assert(cs.drop_first() =~= cs.skip(1));
        assert forall|j: int| 0 <= j < i - 1 implies (#[trigger] cs.skip(1)[j] matches Some(d)
            ==> decl_check(*d) is None) by {
            assert(cs.skip(1)[j] == cs[j + 1]);
        }
        lemma_decl_check_cases_skip(cs.skip(1), i - 1);
        assert(cs.skip(1).skip(i - 1) =~= cs.skip(i));
    }
}

/// Builds the schema a declaration describes, or reports the first error in
/// it, found depth-first in declaration order.  A built schema carries
/// exactly the declared bounds and shapes, and is well formed.
pub fn build_schema(decl: &TypeDecl) -> (r: Result<Schema, SchemaError>)
    ensures
        decl_check(*decl) matches Some(e) ==> r == Err::<Schema, SchemaError>(e),
        decl_check(*decl) is None ==> (r matches Ok(s) && schema_matches_decl(s, *decl)
            && wf_schema(s)),
    decreases decl,
{
    match decl {
        TypeDecl::Integer { bounds } => {
            if bounds.len() == 0 {
                Err(SchemaError::MissingBound)
            } else if bounds.len() > 1 {
                Err(SchemaError::MultipleBounds)
            } else {
                Ok(Schema::Uint(bounds[0]))
            }
        },
        TypeDecl::Record { fields } => {
            let mut built: Vec<Schema> = Vec::new();
            let mut i: usize = 0;
            while i < fields.len()
                invariant
                    *decl == (TypeDecl::Record { fields: *fields }),
                    i <= fields@.len(),
                    built@.len() == i,
                    forall|j: int| 0 <= j < i ==> decl_check(#[trigger] fields@[j]) is None,
                    forall|j: int|
                        0 <= j < i ==> schema_matches_decl(#[trigger] built@[j], fields@[j])
                            && wf_schema(built@[j]),
                decreases fields.len() - i,
            {
                proof {
                    assert(decreases_to!(*decl => decl->Record_fields));
                    assert(decl->Record_fields == *fields);
                    assert(decreases_to!(*fields => fields@));
                    assert(decreases_to!(fields@ => fields@[i as int]));
                }
                match build_schema(&fields[i]) {
                    Ok(s) => {
                        built.push(s);
                        i = i + 1;
                    },
                    Err(e) => {
                        proof {
                            lemma_decl_check_list_skip(fields@, i as int);
                            assert(fields@.skip(i as int)[0] == fields@[i as int]);
                        }
                        return Err(e);
                    },
                }
            }
            proof {
                lemma_decl_check_list_skip(fields@, fields@.len() as int);
                assert(fields@.skip(fields@.len() as int) =~= Seq::<TypeDecl>::empty());
            }
            Ok(Schema::Record(built))
        },
        TypeDecl::Variant { cases } => {
            if cases.len() == 0 {
                return Err(SchemaError::NoCases);
            }
            if cases.len() > MAX_CASES {
                return Err(SchemaError::TooManyCases);
            }
            let mut built: Vec<Option<Box<Schema>>> = Vec::new();
            let mut i: usize = 0;
            while i < cases.len()
                invariant
                    *decl == (TypeDecl::Variant { cases: *cases }),
                    i <= cases@.len(),
                    1 <= cases@.len() <= MAX_CASES,
                    built@.len() == i,
                    forall|j: int|
                        0 <= j < i ==> (#[trigger] cases@[j] matches Some(d) ==> decl_check(*d)
                            is None),
                    forall|j: int|
                        0 <= j < i ==> (match (#[trigger] built@[j], cases@[j]) {
                            (Some(sp), Some(dp)) => schema_matches_decl(*sp, *dp) && wf_schema(
                                *sp,
                            ),
                            (None, None) => true,
                            _ => false,
                        }),
                decreases cases.len() - i,
            {
                match &cases[i] {
                    None => {
                        built.push(None);
                        i = i + 1;
                    },
                    Some(d) => {
                        proof {
                            assert(decreases_to!(*decl => decl->Variant_cases));
                            assert(decl->Variant_cases == *cases);
                            assert(decreases_to!(*cases => cases@));
                            assert(decreases_to!(cases@ => cases@[i as int]));
                        }
                        match build_schema(d) {
                            Ok(s) => {
                                built.push(Some(Box::new(s)));
                                i = i + 1;
                            },
                            Err(e) => {
                                proof {
                                    lemma_decl_check_cases_skip(cases@, i as int);
                                    assert(cases@.skip(i as int)[0] == cases@[i as int]);
                                }
                                return Err(e);
                            },
                        }
                    },
                }
            }
            proof {
                lemma_decl_check_cases_skip(cases@, cases@.len() as int);
                assert(cases@.skip(cases@.len() as int) =~= Seq::<Option<Box<TypeDecl>>>::empty());
            }
            Ok(Schema::Variant(built))
        },
    }
}

} // verus!
