//! Request limits and response shapes of the driver surface.
use vstd::prelude::*;
use crate::errors::ValidationError;
use crate::coordinator::BATCH_MAX;

verus! {

/// The most results one query may ask for.
pub const TOP_N_MAX: usize = 20;

/// Indices whose metadata is asked for.
#[derive(Debug, Clone, PartialEq)]
pub struct FetchModel {
    pub id: Vec<u32>,
}

/// The envelope of every response.
#[derive(Debug, Clone, PartialEq)]
pub struct CustomResponse<T> {
    pub success: bool,
    pub data: T,
    pub code: u32,
}

/// At most twenty results may be asked for.
pub fn validate_top_n(top_n: usize) -> (r: Result<(), ValidationError>)
    ensures
        r is Ok <==> top_n <= TOP_N_MAX,
        r matches Err(e) ==> e.0@ == "Top N cannot be more than 20."@,
{
    if top_n > TOP_N_MAX {
        Err(ValidationError("Top N cannot be more than 20.".to_owned()))
    } else {
        Ok(())
    }
}

/// A search level, when given, is 1, 2, 3 or 4.
pub fn validate_level(level: Option<usize>) -> (r: Result<(), ValidationError>)
    ensures
        r is Ok <==> (level matches Some(l) ==> 1 <= l <= 4),
        r matches Err(e) ==> e.0@ == "Level should be 1, 2, 3, or 4."@,
{
    match level {
        Some(l) => {
            if 1 <= l && l <= 4 {
                Ok(())
            } else {
                Err(ValidationError("Level should be 1, 2, 3, or 4.".to_owned()))
            }
        },
        None => Ok(()),
    }
}

/// Validates a query's result count and level, in that order.
pub fn validate_query(top_n: usize, level: Option<usize>) -> (r: Result<(), ValidationError>)
    ensures
        r is Ok <==> top_n <= TOP_N_MAX && (level matches Some(l) ==> 1 <= l <= 4),
        top_n > TOP_N_MAX ==> (r matches Err(e) && e.0@ == "Top N cannot be more than 20."@),
{
    validate_top_n(top_n)?;
    validate_level(level)
}

/// The search breadth of a level: `20 + 30 * level`, level 1 when none is given.
pub fn ef_helper(ef: Option<usize>) -> (r: usize)
    requires
        ef matches Some(l) ==> 30 * l + 20 <= usize::MAX,
    ensures
        r == 20 + 30 * (if let Some(l) = ef { l } else { 1 }),
{
    let level: usize = match ef {
        Some(l) => l,
        None => 1,
    };
    20 + level * 30
}

/// A batch holds at most `BATCH_MAX` vectors, none empty, all of one dimension;
/// `dims` gives each vector's length.
pub fn validate_batch(dims: &Vec<usize>) -> (r: Result<(), ValidationError>)
    ensures
        r is Ok <==> dims@.len() <= BATCH_MAX && forall|i: int| 0 <= i < dims@.len() ==> #[trigger] dims@[i] > 0
            && dims@[i] == dims@[0],
        dims@.len() > BATCH_MAX ==> (r matches Err(e) && e.0@ == "Batch size should be smaller than 2500."@),
{
    if dims.len() > BATCH_MAX {
        return Err(ValidationError("Batch size should be smaller than 2500.".to_owned()));
    }
    let mut i: usize = 0;
    while i < dims.len()
        invariant
            i <= dims@.len(),
            dims@.len() <= BATCH_MAX,
            forall|k: int| 0 <= k < i ==> #[trigger] dims@[k] > 0 && dims@[k] == dims@[0],
        decreases dims@.len() - i,
    {
        if dims[i] == 0 || dims[i] != dims[0] {
            return Err(ValidationError("Vectors should be non-empty and of one dimension.".to_owned()));
        }
        i = i + 1;
    }
    Ok(())
}

} // verus!
