use vstd::prelude::*;

verus! {

/// A level of detail, ordered by decreasing detail.
#[derive(Clone, Copy, Debug, PartialEq, Eq, Hash, Structural)]
pub enum LodLevel {
    High,
    Medium,
    Low,
}

/// Position of a level in the order High, Medium, Low.
pub open spec fn lod_index(lod: LodLevel) -> nat {
    match lod {
        LodLevel::High => 0,
        LodLevel::Medium => 1,
        LodLevel::Low => 2,
    }
}

/// Factor by which a level divides the base grid density.
pub open spec fn lod_divisor(lod: LodLevel) -> nat {
    match lod {
        LodLevel::High => 1,
        LodLevel::Medium => 2,
        LodLevel::Low => 4,
    }
}

/// Name of the cache sub-directory that holds a level's meshes.
pub open spec fn lod_directory_name(lod: LodLevel) -> Seq<char> {
    match lod {
        LodLevel::High => seq!['l', 'o', 'd', '0'],
        LodLevel::Medium => seq!['l', 'o', 'd', '1'],
        LodLevel::Low => seq!['l', 'o', 'd', '2'],
    }
}

impl LodLevel {
    pub fn directory_name(&self) -> (r: &'static str)
        ensures
            r@ == lod_directory_name(*self),
    {
        proof {
            reveal_strlit("lod0");
            reveal_strlit("lod1");
            reveal_strlit("lod2");
        }
        match self {
            LodLevel::High => "lod0",
            LodLevel::Medium => "lod1",
            LodLevel::Low => "lod2",
        }
    }

    pub fn from_index(index: usize) -> (r: Option<LodLevel>)
        ensures
            index < 3 ==> r.is_some() && lod_index(r.unwrap()) == index,
            index >= 3 ==> r.is_none(),
    {
        match index {
            0 => Some(LodLevel::High),
            1 => Some(LodLevel::Medium),
            2 => Some(LodLevel::Low),
            _ => None,
        }
    }

    pub fn all_levels() -> (r: Vec<LodLevel>)
        ensures
            r@ == seq![LodLevel::High, LodLevel::Medium, LodLevel::Low],
    {
        vec![LodLevel::High, LodLevel::Medium, LodLevel::Low]
    }

    pub fn index(&self) -> (r: usize)
        ensures
            r == lod_index(*self),
    {
        match self {
            LodLevel::High => 0,
            LodLevel::Medium => 1,
            LodLevel::Low => 2,
        }
    }

    /// Factor by which this level divides the base grid density.
    pub fn divisor(&self) -> (r: u32)
        ensures
            r == lod_divisor(*self),
    {
        match self {
            LodLevel::High => 1,
            LodLevel::Medium => 2,
            LodLevel::Low => 4,
        }
    }
}

/// Number of thresholds at or below the height.
pub open spec fn thresholds_passed(height: u32, thresholds: Seq<u32>) -> nat
    decreases thresholds.len(),
{
    if thresholds.len() == 0 {
        0
    } else {
        thresholds_passed(height, thresholds.drop_last()) + (if thresholds.last() <= height {
            1nat
        } else {
            0nat
        })
    }
}

/// Level for a camera height: one level coarser for each threshold that the
/// height has reached, down to Low.
pub open spec fn lod_for_height(height: u32, thresholds: Seq<u32>) -> LodLevel {
    let n = thresholds_passed(height, thresholds);
    if n == 0 {
        LodLevel::High
    } else if n == 1 {
        LodLevel::Medium
    } else {
        LodLevel::Low
    }
}

/// The global level for a camera height, from an ordered threshold table.
pub fn determine_lod_level(height: u32, lod_thresholds: &Vec<u32>) -> (r: LodLevel)
    ensures
        r == lod_for_height(height, lod_thresholds@),
{
    let mut n: usize = 0;
    let mut i: usize = 0;
    while i < lod_thresholds.len()
        invariant
            i <= lod_thresholds@.len(),
            n == thresholds_passed(height, lod_thresholds@.take(i as int)),
            n <= i,
        decreases lod_thresholds@.len() - i,
    {
        assert(lod_thresholds@.take(i + 1).drop_last() =~= lod_thresholds@.take(i as int));
        if lod_thresholds[i] <= height {
            n = n + 1;
        }
        i = i + 1;
    }
    assert(lod_thresholds@.take(i as int) =~= lod_thresholds@);
    if n == 0 {
        LodLevel::High
    } else if n == 1 {
        LodLevel::Medium
    } else {
        LodLevel::Low
    }
}

} // verus!
