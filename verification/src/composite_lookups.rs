//! Lookup buses: their names, and how often their entries are read.

use vstd::prelude::*;

use crate::composite_layout::JACKPOT_SIZE;

verus! {

/// Bytes.
pub const BUS_URANGE8: &'static str = "urange8";

/// 13-bit limbs.
pub const BUS_URANGE13: &'static str = "urange13";

/// Noise bytes.
pub const BUS_IRANGE7P1: &'static str = "irange7p1";

/// Signed bytes.
pub const BUS_IRANGE8: &'static str = "irange8";

/// Signed to unsigned bytes.
pub const BUS_I8U8: &'static str = "i8u8";

/// Stored noised slices.
pub const BUS_NOISED_PACKED: &'static str = "noised_packed";

/// Chaining values.
pub const BUS_CV_ROUTING: &'static str = "cv_routing";

/// Row indices.
pub const BUS_STARK_ROW_IDX: &'static str = "stark_row_idx";

/// Slots of the jackpot state.
pub const JACKPOT_SLOTS: usize = JACKPOT_SIZE;

/// The names of all buses.
pub open spec fn bus_names() -> Seq<&'static str> {
    seq![
        BUS_URANGE8,
        BUS_URANGE13,
        BUS_IRANGE7P1,
        BUS_IRANGE8,
        BUS_I8U8,
        BUS_NOISED_PACKED,
        BUS_CV_ROUTING,
        BUS_STARK_ROW_IDX,
    ]
}

/// No two buses have the same name.
pub proof fn bus_names_are_distinct()
    ensures
        forall|i: int, j: int|
            0 <= i < j < 8 ==> (#[trigger] bus_names()[i])@ != (#[trigger] bus_names()[j])@,
{
    let buses = bus_names();
    reveal_strlit("urange8");
    reveal_strlit("urange13");
    reveal_strlit("irange7p1");
    reveal_strlit("irange8");
    reveal_strlit("i8u8");
    reveal_strlit("noised_packed");
    reveal_strlit("cv_routing");
    reveal_strlit("stark_row_idx");
    assert(buses[0]@.len() == 7 && buses[0]@[0] == 'u');
    assert(buses[1]@.len() == 8);
    assert(buses[2]@.len() == 9);
    assert(buses[3]@.len() == 7 && buses[3]@[0] == 'i');
    assert(buses[4]@.len() == 4);
    assert(buses[5]@.len() == 13 && buses[5]@[0] == 'n');
    assert(buses[6]@.len() == 10);
    assert(buses[7]@.len() == 13 && buses[7]@[0] == 's');
    assert forall|i: int, j: int| 0 <= i < j < 8 implies (#[trigger] buses[i])@ != (
    #[trigger] buses[j])@ by {
        assert(i == 0 || i == 1 || i == 2 || i == 3 || i == 4 || i == 5 || i == 6);
        assert(j == 1 || j == 2 || j == 3 || j == 4 || j == 5 || j == 6 || j == 7);
    }
}

/// The names of all buses. No two are the same.
pub fn all_buses() -> (buses: [&'static str; 8])
    ensures
        buses@ == bus_names(),
        forall|i: int, j: int|
            0 <= i < j < 8 ==> (#[trigger] buses@[i])@ != (#[trigger] buses@[j])@,
{
    let buses = [
        BUS_URANGE8,
        BUS_URANGE13,
        BUS_IRANGE7P1,
        BUS_IRANGE8,
        BUS_I8U8,
        BUS_NOISED_PACKED,
        BUS_CV_ROUTING,
        BUS_STARK_ROW_IDX,
    ];
    proof {
        assert(buses@ =~= bus_names());
        bus_names_are_distinct();
    }
    buses
}

/// How often a stored slice is read: by the matrix chip and as a message.
pub fn noised_packed_freq(n_matmul_reads: u32, n_msg_reads: u32) -> (n: u32)
    requires
        n_matmul_reads + n_msg_reads <= u32::MAX,
    ensures
        n == n_matmul_reads + n_msg_reads,
{
    n_matmul_reads + n_msg_reads
}

/// How often a chaining value is read.
pub fn cv_out_freq(n_consumers: u32) -> (n: u32)
    ensures
        n == n_consumers,
{
    n_consumers
}

/// Chaining-value reads of a row: one where it starts a hash or takes a value
/// over.
pub fn blake3_cv_query_count(is_new_blake: bool, is_cv_in: bool) -> (n: u32)
    ensures
        n == if is_new_blake || is_cv_in {
            1u32
        } else {
            0u32
        },
{
    if is_new_blake || is_cv_in {
        1
    } else {
        0
    }
}

/// Stored-slice reads of a matrix row: two where it is active.
pub fn matmul_noised_packed_query_count(is_active: bool) -> (n: u32)
    ensures
        n == if is_active {
            2u32
        } else {
            0u32
        },
{
    if is_active {
        2
    } else {
        0
    }
}

/// Stored-slice reads of a message row.
pub fn blake3_msg_mat_query_count(is_msg_mat: bool) -> (n: u32)
    ensures
        n == if is_msg_mat {
            1u32
        } else {
            0u32
        },
{
    if is_msg_mat {
        1
    } else {
        0
    }
}

} // verus!
