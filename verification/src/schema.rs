//! The schema model: a tree that fixes the bit layout of a type from its
//! declared bounds alone, with no dependency on any instance.

use vstd::prelude::*;
use crate::bits::{bit_width, width_of};

verus! {

/// How many bits the discriminant of a tagged variant occupies.
pub const TAG_WIDTH: usize = 4;

/// The largest number of cases the fixed-width discriminant can name.
pub const MAX_CASES: usize = 16;

/// The declared layout of one type: a bounded integer, a record of fields in
/// declaration order, or a tagged variant whose cases each carry an optional
/// payload.
pub enum Schema {
    /// A bounded integer with its declared inclusive upper bound.
    Uint(u128),
    /// A record: one schema per field, in declaration order.
    Record(Vec<Schema>),
    /// A tagged variant: one optional payload schema per case, in
    /// declaration order.
    Variant(Vec<Option<Box<Schema>>>),
}

/// A schema is well formed when every variant has no more cases than the
/// fixed-width discriminant can name, and has at least one case.
pub open spec fn wf_schema(s: Schema) -> bool
    decreases s,
{
    match s {
        Schema::Uint(_) => true,
        Schema::Record(fields) => forall|i: int|
            0 <= i < fields@.len() ==> wf_schema(#[trigger] fields@[i]),
        Schema::Variant(cases) => 1 <= cases@.len() <= MAX_CASES && forall|i: int|
            0 <= i < cases@.len() ==> (#[trigger] cases@[i] matches Some(p) ==> wf_schema(*p)),
    }
}

/// A node of the bit-layout tree: a leaf of a known width, a composite whose
/// width is the sum of its children, or a marker for a tagged variant whose
/// width is only known once the discriminant has been read.
pub enum BinaryChunk {
    /// A leaf occupying exactly the given number of bits.
    Single(usize),
    /// A composite: the children's chunks, in field order.
    Nested(Vec<BinaryChunk>),
    /// A tagged-variant boundary: the width depends on the active case.
    Delimiter,
}

/// The mathematical form of a bit-layout tree.
#[verifier::ext_equal]
pub enum ChunkV {
    Single(nat),
    Nested(Seq<ChunkV>),
    Delimiter,
}

/// The mathematical form of an executable layout tree.
pub open spec fn chunk_view(c: BinaryChunk) -> ChunkV
    decreases c,
{
    match c {
        BinaryChunk::Single(w) => ChunkV::Single(w as nat),
        BinaryChunk::Nested(children) => ChunkV::Nested(chunk_views(children@)),
        BinaryChunk::Delimiter => ChunkV::Delimiter,
    }
}

/// The mathematical forms of a sequence of layout trees, in order.
pub open spec fn chunk_views(children: Seq<BinaryChunk>) -> Seq<ChunkV>
    decreases children,
{
    if children.len() == 0 {
        Seq::empty()
    } else {
        seq![chunk_view(children[0])] + chunk_views(children.drop_first())
    }
}

impl View for BinaryChunk {
    type V = ChunkV;

    open spec fn view(&self) -> ChunkV {
        chunk_view(*self)
    }
}

/// `chunk_views` maps `chunk_view` over the sequence, keeping order.
pub proof fn lemma_chunk_views_index(children: Seq<BinaryChunk>)
    ensures
        chunk_views(children).len() == children.len(),
        forall|i: int|
            0 <= i < children.len() ==> chunk_views(children)[i] == chunk_view(
                #[trigger] children[i],
            ),
    decreases children,
{
    if children.len() > 0 {
        lemma_chunk_views_index(children.drop_first());
        assert forall|i: int| 0 <= i < children.len() implies chunk_views(children)[i]
            == chunk_view(#[trigger] children[i]) by {
            if i > 0 {
                assert(children.drop_first()[i - 1] == children[i]);
            }
        }
    }
}

/// The bit-layout tree that a schema determines: a pure function of the
/// schema, independent of any value.
pub open spec fn chunk_of(s: Schema) -> ChunkV
    decreases s,
{
    match s {
        Schema::Uint(m) => ChunkV::Single(width_of(m as nat)),
        Schema::Record(fields) => ChunkV::Nested(chunks_of(fields@)),
        Schema::Variant(_) => ChunkV::Delimiter,
    }
}

/// The bit-layout trees of a sequence of field schemas, in field order.
pub open spec fn chunks_of(fields: Seq<Schema>) -> Seq<ChunkV>
    decreases fields,
{
    if fields.len() == 0 {
        Seq::empty()
    } else {
        seq![chunk_of(fields[0])] + chunks_of(fields.drop_first())
    }
}

/// `chunks_of` maps `chunk_of` over the fields, keeping order.
pub proof fn lemma_chunks_of_index(fields: Seq<Schema>)
    ensures
        chunks_of(fields).len() == fields.len(),
        forall|i: int|
            0 <= i < fields.len() ==> chunks_of(fields)[i] == chunk_of(#[trigger] fields[i]),
    decreases fields,
{
    if fields.len() > 0 {
        lemma_chunks_of_index(fields.drop_first());
        assert forall|i: int| 0 <= i < fields.len() implies chunks_of(fields)[i] == chunk_of(
            #[trigger] fields[i],
        ) by {
            if i > 0 {
                assert(fields.drop_first()[i - 1] == fields[i]);
            }
        }
    }
}

impl Schema {
    /// The bit-layout tree of this schema.  The result is determined by the
    /// schema alone, so two calls always agree and no value of the type is
    /// ever consulted.
    pub fn max_binaries(&self) -> (c: BinaryChunk)
        ensures
            c@ == chunk_of(*self),
        decreases self,
    {
        match self {
            Schema::Uint(m) => BinaryChunk::Single(bit_width(*m)),
            Schema::Record(fields) => {
                let mut children: Vec<BinaryChunk> = Vec::new();
                let mut i: usize = 0;
                while i < fields.len()
                    invariant
                        *self == Schema::Record(*fields),
                        i <= fields.len(),
                        children@.len() == i,
                        forall|j: int|
                            0 <= j < i ==> chunk_view(#[trigger] children@[j]) == chunk_of(
                                fields@[j],
                            ),
                    decreases fields.len() - i,
                {
                    proof {
                        assert(decreases_to!(*self => self->Record_0));
                        assert(self->Record_0 == *fields);
                        assert(decreases_to!(*fields => fields@));
                        assert(decreases_to!(fields@ => fields@[i as int]));
                    }
                    let child = fields[i].max_binaries();
                    children.push(child);
                    i = i + 1;
                }
                proof {
                    lemma_chunk_views_index(children@);
                    lemma_chunks_of_index(fields@);
                    assert forall|j: int| 0 <= j < fields@.len() implies chunk_views(children@)[j]
                        == chunks_of(fields@)[j] by {
                        assert(chunk_view(children@[j]) == chunk_of(fields@[j]));
                    }
                    assert(chunk_views(children@) =~= chunks_of(fields@));
                }
                BinaryChunk::Nested(children)
            },
            Schema::Variant(_) => BinaryChunk::Delimiter,
        }
    }
}

/// The total width of a layout tree, where it is statically fixed: a leaf's
/// own width, the sum of a composite's children, and nothing for a
/// tagged-variant boundary, whose width only the discriminant decides.
pub open spec fn chunk_width(c: ChunkV) -> Option<nat>
    decreases c,
{
    match c {
        ChunkV::Single(w) => Some(w),
        ChunkV::Nested(children) => chunks_width(children),
        ChunkV::Delimiter => None,
    }
}

/// The summed width of a sequence of layout trees, where every one is
/// statically fixed.
pub open spec fn chunks_width(children: Seq<ChunkV>) -> Option<nat>
    decreases children,
{
    if children.len() == 0 {
        Some(0)
    } else {
        match (chunk_width(children[0]), chunks_width(children.drop_first())) {
            (Some(head), Some(tail)) => Some(head + tail),
            _ => None,
        }
    }
}

impl BinaryChunk {
    /// Structural equality of two layout trees.
    pub fn equals(&self, other: &BinaryChunk) -> (r: bool)
        ensures
            r == (self@ == other@),
        decreases self,
    {
        match (self, other) {
            (BinaryChunk::Single(w), BinaryChunk::Single(u)) => w == u,
            (BinaryChunk::Delimiter, BinaryChunk::Delimiter) => true,
            (BinaryChunk::Nested(children), BinaryChunk::Nested(others)) => {
                proof {
                    lemma_chunk_views_index(children@);
                    lemma_chunk_views_index(others@);
                }
                if children.len() != others.len() {
                    return false;
                }
                let mut i: usize = 0;
                while i < children.len()
                    invariant
                        *self == BinaryChunk::Nested(*children),
                        *other == BinaryChunk::Nested(*others),
                        i <= children@.len() == others@.len(),
                        forall|j: int|
                            0 <= j < i ==> chunk_view(#[trigger] children@[j]) == chunk_view(
                                others@[j],
                            ),
                    decreases children.len() - i,
                {
                    proof {
                        assert(decreases_to!(*self => self->Nested_0));
                        assert(self->Nested_0 == *children);
                        assert(decreases_to!(*children => children@));
                        assert(decreases_to!(children@ => children@[i as int]));
                    }
                    if !children[i].equals(&others[i]) {
                        proof {
                            lemma_chunk_views_index(children@);
                            lemma_chunk_views_index(others@);
                        }
                        return false;
                    }
                    i = i + 1;
                }
                proof {
                    lemma_chunk_views_index(children@);
                    lemma_chunk_views_index(others@);
                    assert forall|j: int| 0 <= j < children@.len() implies chunk_views(
                        children@,
                    )[j] == chunk_views(others@)[j] by {
                        assert(chunk_view(children@[j]) == chunk_view(others@[j]));
                    }
                    assert(chunk_views(children@) =~= chunk_views(others@));
                }
                true
            },
            _ => false,
        }
    }
}

/// The layout tree is deterministic: two trees computed from the same schema
/// are the same tree.
pub proof fn lemma_max_binaries_deterministic(s: Schema, c1: ChunkV, c2: ChunkV)
    requires
        c1 == chunk_of(s),
        c2 == chunk_of(s),
    ensures
        c1 == c2,
{
}

} // verus!
