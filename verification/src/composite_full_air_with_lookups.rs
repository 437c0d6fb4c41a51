//! The composite constraint system together with its lookup buses.

pub mod bus_emit;
pub mod laws;

use vstd::prelude::*;

use crate::air::{ConstraintBuilder, Window};
use crate::bus::InteractionBuilder;
use crate::composite_full_air::{
    composite_rules, pinned_rules, program_fits, CompositeFullAir, CompositeFullAirPinned,
    ProgramShapeError, PROGRAM_WIDTH,
};
use crate::composite_full_air_with_lookups::bus_emit::{
    composite_entries, cv_routing, cv_routing_entries, i8u8, i8u8_entries, irange7p1,
    irange7p1_entries, irange8, irange8_entries, noised_packed, noised_packed_entries, urange13,
    urange13_entries, urange8, urange8_entries,
};
use crate::composite_layout::TOTAL_TRACE_WIDTH;
use crate::composite_public::NUM_PUBLIC_VALUES;
use crate::matrix::RowMajorMatrix;

verus! {

/// The composite constraint system with lookups.
#[derive(Copy, Clone, Debug, Default)]
pub struct CompositeFullAirWithLookups;

/// Emits everything a row sends to and receives from the buses.
fn emit_buses(b: &mut InteractionBuilder)
    ensures
        forall|w: Window| #[trigger]
            final(b).entries(w) == old(b).entries(w) + composite_entries(w.cur),
{
    urange8(b);
    let ghost b1 = *b;
    urange13(b);
    let ghost b2 = *b;
    irange7p1(b);
    let ghost b3 = *b;
    irange8(b);
    let ghost b4 = *b;
    i8u8(b);
    let ghost b5 = *b;
    noised_packed(b);
    let ghost b6 = *b;
    cv_routing(b);
    assert forall|w: Window| #[trigger]
        b.entries(w) == old(b).entries(w) + composite_entries(w.cur) by {
        let s = w.cur;
        assert(b1.entries(w) == old(b).entries(w) + urange8_entries(s));
        assert(b2.entries(w) == b1.entries(w) + urange13_entries(s));
        assert(b3.entries(w) == b2.entries(w) + irange7p1_entries(s));
        assert(b4.entries(w) == b3.entries(w) + irange8_entries(s));
        assert(b5.entries(w) == b4.entries(w) + i8u8_entries(s));
        assert(b6.entries(w) == b5.entries(w) + noised_packed_entries(s));
        assert(b.entries(w) == b6.entries(w) + cv_routing_entries(s));
        assert(b.entries(w) =~= old(b).entries(w) + composite_entries(s));
    }
}

impl CompositeFullAirWithLookups {
    /// The number of columns.
    pub fn width(&self) -> (n: usize)
        ensures
            n == TOTAL_TRACE_WIDTH,
    {
        TOTAL_TRACE_WIDTH
    }

    /// The number of public values.
    pub fn num_public_values(&self) -> (n: usize)
        ensures
            n == NUM_PUBLIC_VALUES,
    {
        NUM_PUBLIC_VALUES
    }

    /// Emits the constraints of the composite system and its interactions with
    /// the buses. The components are those of [`CompositeFullAir::eval`].
    pub fn eval(
        &self,
        builder: &mut ConstraintBuilder,
        buses: &mut InteractionBuilder,
        components: ConstraintBuilder,
    )
        ensures
            forall|w: Window| #[trigger]
                final(builder).holds(w) <==> (old(builder).holds(w) && components.holds(w)
                    && composite_rules(w)),
            forall|d: nat|
                d >= 4 && old(builder).degree_at_most(d) && components.degree_at_most(d)
                    ==> #[trigger] final(builder).degree_at_most(d),
            forall|w: Window| #[trigger]
                final(buses).entries(w) == old(buses).entries(w) + composite_entries(w.cur),
    {
        CompositeFullAir.eval(builder, components);
        emit_buses(buses);
    }
}

/// The composite constraint system with lookups and its program fixed by the
/// verifier.
#[derive(Clone)]
pub struct CompositeFullAirWithLookupsPinned {
    inner: CompositeFullAirPinned,
}

impl CompositeFullAirWithLookupsPinned {
    /// The fixed program.
    pub closed spec fn program(self) -> RowMajorMatrix {
        self.inner.program()
    }

    /// Whether folded scalars are read off the stripe register.
    pub closed spec fn reads_stripes(self) -> bool {
        self.inner.reads_stripes()
    }

    /// The system for a program that fits, with the stripe register in use.
    pub fn new(program: RowMajorMatrix) -> (r: Self)
        requires
            program_fits(program),
        ensures
            r.program() == program,
            r.reads_stripes(),
    {
        Self::new_with(program, true)
    }

    /// The system for a program, with the stripe register in use, or why the
    /// program does not fit.
    pub fn try_new(program: RowMajorMatrix) -> (r: Result<Self, ProgramShapeError>)
        ensures
            r is Ok <==> program_fits(program),
            r matches Ok(air) ==> air.program() == program && air.reads_stripes(),
            program.width != PROGRAM_WIDTH ==> (r matches Err(
                ProgramShapeError::WidthMismatch { expected, actual },
            ) && expected == PROGRAM_WIDTH && actual == program.width),
            program.width == PROGRAM_WIDTH && !program_fits(program) ==> (r matches Err(
                ProgramShapeError::HeightNotPowerOfTwo { height },
            ) && height == program.spec_height()),
    {
        Self::try_new_with(program, true)
    }

    /// The system for a program that fits.
    pub fn new_with(program: RowMajorMatrix, sx_bound: bool) -> (r: Self)
        requires
            program_fits(program),
        ensures
            r.program() == program,
            r.reads_stripes() == sx_bound,
    {
        CompositeFullAirWithLookupsPinned {
            inner: CompositeFullAirPinned::new_with(program, sx_bound),
        }
    }

    /// The system for a program, or why the program does not fit.
    pub fn try_new_with(program: RowMajorMatrix, sx_bound: bool) -> (r: Result<
        Self,
        ProgramShapeError,
    >)
        ensures
            r is Ok <==> program_fits(program),
            r matches Ok(air) ==> air.program() == program && air.reads_stripes() == sx_bound,
            program.width != PROGRAM_WIDTH ==> (r matches Err(
                ProgramShapeError::WidthMismatch { expected, actual },
            ) && expected == PROGRAM_WIDTH && actual == program.width),
            program.width == PROGRAM_WIDTH && !program_fits(program) ==> (r matches Err(
                ProgramShapeError::HeightNotPowerOfTwo { height },
            ) && height == program.spec_height()),
    {
        match CompositeFullAirPinned::try_new_with(program, sx_bound) {
            Ok(inner) => Ok(CompositeFullAirWithLookupsPinned { inner }),
            Err(e) => Err(e),
        }
    }

    /// The number of columns.
    pub fn width(&self) -> (n: usize)
        ensures
            n == TOTAL_TRACE_WIDTH,
    {
        TOTAL_TRACE_WIDTH
    }

    /// The number of public values.
    pub fn num_public_values(&self) -> (n: usize)
        ensures
            n == NUM_PUBLIC_VALUES,
    {
        NUM_PUBLIC_VALUES
    }

    /// The number of fixed columns.
    pub fn preprocessed_width(&self) -> (n: usize)
        ensures
            n == PROGRAM_WIDTH,
    {
        self.inner.preprocessed_width()
    }

    /// The fixed trace.
    pub fn preprocessed_trace(&self) -> (r: &RowMajorMatrix)
        ensures
            *r == self.program(),
    {
        self.inner.preprocessed_trace()
    }

    /// Emits the constraints of the pinned system and its interactions with
    /// the buses. The components are those of [`CompositeFullAir::eval`].
    pub fn eval(
        &self,
        builder: &mut ConstraintBuilder,
        buses: &mut InteractionBuilder,
        components: ConstraintBuilder,
    )
        ensures
            forall|w: Window| #[trigger]
                final(builder).holds(w) <==> (old(builder).holds(w) && components.holds(w)
                    && composite_rules(w) && pinned_rules(self.reads_stripes(), w)),
            forall|d: nat|
                d >= 4 && old(builder).degree_at_most(d) && components.degree_at_most(d)
                    ==> #[trigger] final(builder).degree_at_most(d),
            forall|w: Window| #[trigger]
                final(buses).entries(w) == old(buses).entries(w) + composite_entries(w.cur),
    {
        self.inner.eval(builder, components);
        emit_buses(buses);
    }
}

} // verus!
