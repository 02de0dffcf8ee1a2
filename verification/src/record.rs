//! The persisted purchase record: a unique id, a canonical calendar date,
//! free-form category and description text, and a price in minor units.

use vstd::prelude::*;
use crate::util::valid_date_str;

verus! {

/// One purchase entry as stored: `date` is always a valid `YYYY-MM-DD`
/// string and `price` is a nonnegative amount of minor currency units.
#[derive(Debug)]
pub struct DbItem {
    pub id: i64,
    pub date: String,
    pub category: String,
    pub description: String,
    pub price: i64,
}

impl DbItem {
    pub open spec fn wf(self) -> bool {
        &&& valid_date_str(self.date@)
        &&& self.price >= 0
    }
}

impl Clone for DbItem {
    fn clone(&self) -> (res: Self)
        ensures
            res == *self,
    {
        DbItem {
            id: self.id,
            date: self.date.clone(),
            category: self.category.clone(),
            description: self.description.clone(),
            price: self.price,
        }
    }
}

} // verus!
