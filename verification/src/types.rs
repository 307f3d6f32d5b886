//! Plain data types shared by the kernels and the host-side runners.

use vstd::prelude::*;

verus! {

/// Number of threads in one workgroup of the compute shaders.
pub const WORKGROUP_SIZE: u32 = 256;

/// The constant used in the demo computation (`index * 2 + COMPUTE_CONSTANT`).
pub const COMPUTE_CONSTANT: u32 = 42;

/// Index of one invocation of a kernel.
#[derive(Copy, Clone, Debug)]
pub struct ThreadId(u32);

impl ThreadId {
    /// The id as a number.
    pub closed spec fn id(self) -> u32 {
        self.0
    }

    pub fn new(id: u32) -> (r: Self)
        ensures
            r.id() == id,
    {
        ThreadId(id)
    }

    pub fn as_u32(&self) -> (r: u32)
        ensures
            r == self.id(),
    {
        self.0
    }

    pub fn as_usize(&self) -> (r: usize)
        ensures
            r == self.id(),
    {
        self.0 as usize
    }
}

/// Stage of the bitonic network: after stage `s`, runs of length `2^(s+1)` are sorted.
#[derive(Copy, Clone, Debug, PartialEq, Eq, Structural)]
pub struct Stage(pub u32);

impl Stage {
    pub fn new(stage: u32) -> (r: Self)
        ensures
            r.0 == stage,
    {
        Stage(stage)
    }

    pub fn as_u32(&self) -> (r: u32)
        ensures
            r == self.0,
    {
        self.0
    }
}

/// Pass within a stage: pass `p` of stage `s` compares elements `2^(s-p)` apart.
#[derive(Copy, Clone, Debug, PartialEq, Eq, Structural)]
pub struct Pass(pub u32);

impl Pass {
    pub fn new(pass: u32) -> (r: Self)
        ensures
            r.0 == pass,
    {
        Pass(pass)
    }

    pub fn as_u32(&self) -> (r: u32)
        ensures
            r == self.0,
    {
        self.0
    }
}

/// Order in which a sort arranges the data.
#[derive(Copy, Clone, Debug, PartialEq, Eq, Structural)]
pub enum SortOrder {
    Ascending,
    Descending,
}

/// The number that stands for a sort order in kernel parameters.
pub open spec fn sort_order_code(order: SortOrder) -> u32 {
    match order {
        SortOrder::Ascending => 0,
        SortOrder::Descending => 1,
    }
}

/// The sort order that the kernel reads from a parameter block: 0 is
/// ascending, anything else descending.
pub open spec fn order_of_code(code: u32) -> SortOrder {
    if code == 0 {
        SortOrder::Ascending
    } else {
        SortOrder::Descending
    }
}

impl SortOrder {
    /// The order's name, as it is shown to a user.
    pub fn to_string(&self) -> (r: String)
        ensures
            r@ == (match *self {
                SortOrder::Ascending => "ascending"@,
                SortOrder::Descending => "descending"@,
            }),
    {
        match self {
            SortOrder::Ascending => String::from_str("ascending"),
            SortOrder::Descending => String::from_str("descending"),
        }
    }
}

impl vstd::std_specs::convert::FromSpecImpl<SortOrder> for u32 {
    open spec fn obeys_from_spec() -> bool {
        true
    }

    open spec fn from_spec(v: SortOrder) -> u32 {
        sort_order_code(v)
    }
}

impl From<SortOrder> for u32 {
    fn from(order: SortOrder) -> (r: u32)
        ensures
            r == sort_order_code(order),
    {
        match order {
            SortOrder::Ascending => 0,
            SortOrder::Descending => 1,
        }
    }
}

impl TryFrom<u32> for SortOrder {
    type Error = &'static str;

    fn try_from(value: u32) -> (r: Result<Self, Self::Error>)
        ensures
            value == 0 ==> r == Ok::<SortOrder, &'static str>(SortOrder::Ascending),
            value == 1 ==> r == Ok::<SortOrder, &'static str>(SortOrder::Descending),
            value > 1 ==> r == Err::<SortOrder, &'static str>("Invalid SortOrder value"),
    {
        match value {
            0 => Ok(SortOrder::Ascending),
            1 => Ok(SortOrder::Descending),
            _ => Err("Invalid SortOrder value"),
        }
    }
}

impl vstd::std_specs::convert::TryFromSpecImpl<u32> for SortOrder {
    open spec fn obeys_try_from_spec() -> bool {
        true
    }

    open spec fn try_from_spec(v: u32) -> Result<Self, Self::Error> {
        if v == 0 {
            Ok(SortOrder::Ascending)
        } else if v == 1 {
            Ok(SortOrder::Descending)
        } else {
            Err("Invalid SortOrder value")
        }
    }
}

/// The code of an order reads back as that order, both through `try_from`
/// and as the kernel reads it; a code that reads back as an order is that
/// order's code.
pub proof fn lemma_sort_order_code_roundtrip(order: SortOrder, v: u32)
    ensures
        order_of_code(sort_order_code(order)) == order,
        <SortOrder as vstd::std_specs::convert::TryFromSpec<u32>>::try_from_spec(
            sort_order_code(order),
        ) == Ok::<SortOrder, &'static str>(order),
        <SortOrder as vstd::std_specs::convert::TryFromSpec<u32>>::try_from_spec(v) is Ok
            ==> sort_order_code(
            <SortOrder as vstd::std_specs::convert::TryFromSpec<u32>>::try_from_spec(v)->Ok_0,
        ) == v,
{
}

/// Direction of one compare-and-swap in the network.
#[derive(Copy, Clone, Debug, PartialEq, Eq, Structural)]
pub enum CompareDirection {
    Up,
    Down,
}

impl CompareDirection {
    pub fn from_bool(ascending: bool) -> (r: Self)
        ensures
            r == (if ascending { CompareDirection::Up } else { CompareDirection::Down }),
    {
        if ascending {
            CompareDirection::Up
        } else {
            CompareDirection::Down
        }
    }

    pub fn is_ascending(&self) -> (r: bool)
        ensures
            r == (*self == CompareDirection::Up),
    {
        matches!(self, CompareDirection::Up)
    }
}

/// A direction made from a flag reports that flag.
pub proof fn lemma_compare_direction_roundtrip(ascending: bool)
    ensures
        (if ascending { CompareDirection::Up } else { CompareDirection::Down } == CompareDirection::Up)
            == ascending,
{
}

/// Parameters of one pass of the bitonic kernel.
#[derive(Copy, Clone, Debug)]
pub struct BitonicParams {
    pub num_elements: u32,
    pub stage: Stage,
    pub pass_of_stage: Pass,
    /// 0 for ascending, 1 for descending.
    pub sort_order: u32,
}

/// Parameters of the commutation kernel.
#[derive(Copy, Clone, Debug)]
pub struct CommutationParams {
    pub num_terms: u32,
    pub num_fermion_modes: u32,
    pub other_op: [u32; 10],
}

} // verus!
