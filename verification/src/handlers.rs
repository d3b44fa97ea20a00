//! Request-level logic, free of any transport: validates client input,
//! invokes the store, and maps outcomes to results or client errors.

use vstd::prelude::*;
use crate::date::{Date, parse_date, parse_date_seq};
use crate::store::{
    Store, Summary, has_id, patched, opt_view, matches_filter, in_period, sum_all, sum_pos,
    sum_neg,
};
use crate::tx::{Transaction, TxView, tx_valid, is_id_seq, is_id_string};
use crate::text::{str_to_lower, lower_seq};
use crate::num::{parse_u32, parse_i32, parse_u32_seq, parse_i32_seq};

verus! {

/// A client-visible failure.
#[derive(Clone, Copy, Debug, PartialEq, Eq, Structural)]
pub enum ApiError {
    /// The date is not a valid `YYYY-MM-DD` calendar date.
    InvalidDate,
    /// The identifier is not well formed.
    InvalidId,
    /// No transaction carries the identifier.
    NotFound,
}

impl ApiError {
    pub open spec fn spec_message(self) -> Seq<char> {
        match self {
            ApiError::InvalidDate => "Invalid date format. Use YYYY-MM-DD."@,
            ApiError::InvalidId => "Invalid identifier."@,
            ApiError::NotFound => "Transaction not found."@,
        }
    }

    /// The error payload text for the client.
    pub fn message(&self) -> (r: &'static str)
        ensures
            r@ == self.spec_message(),
    {
        match self {
            ApiError::InvalidDate => "Invalid date format. Use YYYY-MM-DD.",
            ApiError::InvalidId => "Invalid identifier.",
            ApiError::NotFound => "Transaction not found.",
        }
    }
}

/// An optional date bound: an absent or unparsable string is no bound.
pub open spec fn opt_date(o: Option<String>) -> Option<Date> {
    match o {
        Some(s) => parse_date_seq(s@),
        None => None,
    }
}

/// An optional year: an absent or unparsable string is no filter.
pub open spec fn opt_year(o: Option<String>) -> Option<i32> {
    match o {
        Some(s) => parse_i32_seq(s@),
        None => None,
    }
}

/// An optional month: an absent or unparsable string is no filter.
pub open spec fn opt_month(o: Option<String>) -> Option<u32> {
    match o {
        Some(s) => parse_u32_seq(s@),
        None => None,
    }
}

/// Handles creation: validates the date against the strict grammar —
/// nothing is added on a malformed date — then creates the record.
pub fn create_transaction(
    store: &mut Store,
    date: &str,
    category: String,
    description: String,
    amount: i64,
) -> (r: Result<Transaction, ApiError>)
    requires
        old(store).wf(),
    ensures
        final(store).wf(),
        match parse_date_seq(date@) {
            None => r == Err::<Transaction, ApiError>(ApiError::InvalidDate) && final(store)@
                == old(store)@,
            Some(d) => (r matches Ok(t) && final(store)@ == old(store)@.push(t@) && tx_valid(t@)
                && !has_id(old(store)@, t@.id) && t@.date == d && t@.category == category@
                && t@.description == description@ && t@.amount == amount),
        },
{
    match parse_date(date) {
        None => Err(ApiError::InvalidDate),
        Some(d) => Ok(store.create(d, category, description, amount)),
    }
}

/// Handles listing: parses the optional bounds — an unparsable bound is
/// skipped, not an error — and returns the filtered records in
/// insertion order.
pub fn list_transactions(
    store: &Store,
    category: Option<String>,
    start_date: Option<String>,
    end_date: Option<String>,
) -> (r: Vec<Transaction>)
    ensures
        crate::store::views(r@) == store@.filter(
            |t: TxView| matches_filter(t, opt_view(category), opt_date(start_date), opt_date(end_date)),
        ),
{
    let start = match &start_date {
        Some(s) => parse_date(s.as_str()),
        None => None,
    };
    let end = match &end_date {
        Some(s) => parse_date(s.as_str()),
        None => None,
    };
    let r = store.list(category, start, end);
    r
}

/// Handles update: a malformed identifier or an unknown one is an
/// error before anything is touched; a given but malformed date is an
/// error with nothing touched; otherwise the given fields replace the
/// old ones and the rest stay.
pub fn update_transaction(
    store: &mut Store,
    id: &str,
    date: Option<String>,
    category: Option<String>,
    description: Option<String>,
    amount: Option<i64>,
) -> (r: Result<Transaction, ApiError>)
    requires
        old(store).wf(),
    ensures
        final(store).wf(),
        !is_id_seq(lower_seq(id@)) ==> r == Err::<Transaction, ApiError>(ApiError::InvalidId)
            && final(store)@ == old(store)@,
        is_id_seq(lower_seq(id@)) && !has_id(old(store)@, lower_seq(id@)) ==> r == Err::<
            Transaction,
            ApiError,
        >(ApiError::NotFound) && final(store)@ == old(store)@,
        is_id_seq(lower_seq(id@)) && has_id(old(store)@, lower_seq(id@)) && (date matches Some(ds)
            && parse_date_seq(ds@) is None) ==> r == Err::<Transaction, ApiError>(
            ApiError::InvalidDate,
        ) && final(store)@ == old(store)@,
        is_id_seq(lower_seq(id@)) && has_id(old(store)@, lower_seq(id@)) && (date matches Some(ds)
            ==> parse_date_seq(ds@) is Some) ==> ({
            &&& r is Ok
            &&& final(store)@.len() == old(store)@.len()
            &&& forall|j: int|
                0 <= j < old(store)@.len() && old(store)@[j].id != lower_seq(id@)
                    ==> final(store)@[j] == old(store)@[j]
            &&& forall|j: int|
                0 <= j < old(store)@.len() && old(store)@[j].id == lower_seq(id@)
                    ==> (final(store)@[j] == patched(
                    old(store)@[j],
                    opt_date(date),
                    opt_view(category),
                    opt_view(description),
                    amount,
                ) && (r matches Ok(t) && t@ == final(store)@[j]))
        }),
{
    let norm = str_to_lower(id);
    if !is_id_string(norm.as_str()) {
        return Err(ApiError::InvalidId);
    }
    if !store.contains(&norm) {
        return Err(ApiError::NotFound);
    }
    let parsed: Option<Date> = match &date {
        Some(ds) => match parse_date(ds.as_str()) {
            Some(d) => Some(d),
            None => {
                return Err(ApiError::InvalidDate);
            },
        },
        None => None,
    };
    match store.update(&norm, parsed, category, description, amount) {
        Some(t) => Ok(t),
        None => {
            proof {
                assert(false);
            }
            vstd::pervasive::unreached()
        },
    }
}

/// Handles deletion: a malformed identifier or an unknown one is an
/// error and nothing changes; otherwise the record is removed.
pub fn delete_transaction(store: &mut Store, id: &str) -> (r: Result<(), ApiError>)
    requires
        old(store).wf(),
    ensures
        final(store).wf(),
        !is_id_seq(lower_seq(id@)) ==> r == Err::<(), ApiError>(ApiError::InvalidId)
            && final(store)@ == old(store)@,
        is_id_seq(lower_seq(id@)) && !has_id(old(store)@, lower_seq(id@)) ==> r == Err::<
            (),
            ApiError,
        >(ApiError::NotFound) && final(store)@ == old(store)@,
        is_id_seq(lower_seq(id@)) && has_id(old(store)@, lower_seq(id@)) ==> r == Ok::<
            (),
            ApiError,
        >(()) && final(store)@ == old(store)@.filter(
            |t: TxView| t.id != lower_seq(id@),
        ),
{
    let norm = str_to_lower(id);
    if !is_id_string(norm.as_str()) {
        return Err(ApiError::InvalidId);
    }
    if store.delete(&norm) {
        Ok(())
    } else {
        Err(ApiError::NotFound)
    }
}

/// Handles the summary: parses the optional year and month — an
/// unparsable one is skipped, not an error — and aggregates the
/// matching records.
pub fn summarize_transactions(
    store: &Store,
    year: Option<String>,
    month: Option<String>,
) -> (r: Summary)
    ensures
        r.total == sum_all(store@.filter(|t: TxView| in_period(t, opt_year(year), opt_month(month)))),
        r.income == sum_pos(store@.filter(|t: TxView| in_period(t, opt_year(year), opt_month(month)))),
        r.expense == sum_neg(store@.filter(|t: TxView| in_period(t, opt_year(year), opt_month(month)))),
        r.count == store@.filter(|t: TxView| in_period(t, opt_year(year), opt_month(month))).len(),
{
    let y = match &year {
        Some(s) => parse_i32(s.as_str()),
        None => None,
    };
    let m = match &month {
        Some(s) => parse_u32(s.as_str()),
        None => None,
    };
    store.summarize(y, m)
}

} // verus!
