use vstd::prelude::*;

verus! {

/// The number of rows that lie before page `page` when pages hold `per_page`
/// rows and are counted from 1, where that is a number a query can carry.
pub open spec fn offset_of(page: i64, per_page: i64) -> Option<i64> {
    if page >= 1 && per_page >= 0 && (page - 1) * per_page <= i64::MAX {
        Some(((page - 1) * per_page) as i64)
    } else {
        None
    }
}

/// The offset of a page: `(page - 1) * per_page`. Nothing is returned for a
/// page below 1, for a negative page size, and where the product does not fit.
pub fn page_offset(page: i64, per_page: i64) -> (offset: Option<i64>)
    ensures
        offset == offset_of(page, per_page),
{
    if page < 1 || per_page < 0 {
        return None;
    }
    let offset = (page - 1).checked_mul(per_page);
    proof {
        assert((page - 1) * per_page >= 0) by (nonlinear_arith)
            requires
                page - 1 >= 0,
                per_page >= 0,
        ;
    }
    offset
}

} // verus!
