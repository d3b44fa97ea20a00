//! The transaction record, its mathematical view, and its identifiers.
//!
//! An identifier is a UUID rendered in the canonical hyphenated form:
//! 36 characters, lowercase hexadecimal, dashes at positions 8, 13, 18
//! and 23. Amounts are an integer number of cents: positive income,
//! negative expense.

use vstd::prelude::*;
use vstd::string::StrSliceExecFns;
use crate::date::Date;

verus! {

/// One signed monetary event.
#[derive(Debug)]
pub struct Transaction {
    pub id: String,
    pub date: Date,
    pub category: String,
    pub description: String,
    pub amount: i64,
}

/// The mathematical content of a transaction.
#[verifier::ext_equal]
pub ghost struct TxView {
    pub id: Seq<char>,
    pub date: Date,
    pub category: Seq<char>,
    pub description: Seq<char>,
    pub amount: i64,
}

impl View for Transaction {
    type V = TxView;

    open spec fn view(&self) -> TxView {
        TxView {
            id: self.id@,
            date: self.date,
            category: self.category@,
            description: self.description@,
            amount: self.amount,
        }
    }
}

impl Clone for Transaction {
    /// A clone carries the same view.
    fn clone(&self) -> (r: Self)
        ensures
            r@ == self@,
    {
        Transaction {
            id: self.id.clone(),
            date: self.date,
            category: self.category.clone(),
            description: self.description.clone(),
            amount: self.amount,
        }
    }
}

pub open spec fn is_hex_lower(c: char) -> bool {
    ('0' <= c && c <= '9') || ('a' <= c && c <= 'f')
}

/// The canonical identifier grammar: hyphenated lowercase UUID text.
pub open spec fn is_id_seq(s: Seq<char>) -> bool {
    &&& s.len() == 36
    &&& forall|i: int|
        0 <= i < 36 ==> (if i == 8 || i == 13 || i == 18 || i == 23 {
            s[i] == '-'
        } else {
            is_hex_lower(s[i])
        })
}

/// A transaction the store will hold or return: well-formed identifier
/// and a valid calendar date.
pub open spec fn tx_valid(t: TxView) -> bool {
    &&& is_id_seq(t.id)
    &&& t.date.valid()
}

/// Relies on `uuid::Uuid::new_v4` and its `Display` impl: a freshly
/// drawn random UUID, rendered hyphenated and lowercase. The drawn value
/// is random, so nothing relates the results of two calls; only the
/// shape of the text is promised.
#[verifier::external_body]
pub fn fresh_id() -> (r: String)
    ensures
        is_id_seq(r@),
{
    uuid::Uuid::new_v4().to_string()
}

/// Decides the identifier grammar.
pub fn is_id_string(s: &str) -> (r: bool)
    ensures
        r == is_id_seq(s@),
{
    let n = s.unicode_len();
    if n != 36 {
        return false;
    }
    let mut i: usize = 0;
    while i < 36
        invariant
            s@.len() == 36,
            i <= 36,
            forall|j: int|
                0 <= j < i ==> (if j == 8 || j == 13 || j == 18 || j == 23 {
                    s@[j] == '-'
                } else {
                    is_hex_lower(s@[j])
                }),
        decreases 36 - i,
    {
        let c = s.get_char(i);
        if i == 8 || i == 13 || i == 18 || i == 23 {
            if c != '-' {
                return false;
            }
        } else {
            if !(('0' <= c && c <= '9') || ('a' <= c && c <= 'f')) {
                return false;
            }
        }
        i += 1;
    }
    true
}

} // verus!
