//! The authoritative in-memory collection of transactions: identity
//! assignment, mutation, and the query, filter and aggregate operations.

use vstd::prelude::*;
use vstd::arithmetic::mul::lemma_mul_inequality;
use crate::date::Date;
use crate::text::lower_seq;
use crate::text::eq_ignore_case;
use crate::tx::{Transaction, TxView, tx_valid, is_id_seq, fresh_id, is_id_string};
use crate::date::date_valid_exec;

verus! {

broadcast use vstd::seq_lib::group_filter_ensures;

/// The views of a sequence of transactions.
pub open spec fn views(s: Seq<Transaction>) -> Seq<TxView> {
    s.map_values(|t: Transaction| t@)
}

/// Some transaction in `s` carries the identifier `id`.
pub open spec fn has_id(s: Seq<TxView>, id: Seq<char>) -> bool {
    exists|i: int| 0 <= i < s.len() && s[i].id == id
}

/// All identifiers in `s` are pairwise distinct.
pub open spec fn unique_ids(s: Seq<TxView>) -> bool {
    forall|i: int, j: int| 0 <= i < j < s.len() ==> s[i].id != s[j].id
}

/// All transactions in `s` are well formed.
pub open spec fn all_valid(s: Seq<TxView>) -> bool {
    forall|i: int| 0 <= i < s.len() ==> tx_valid(#[trigger] s[i])
}

/// The optional view of an optional string.
pub open spec fn opt_view(o: Option<String>) -> Option<Seq<char>> {
    match o {
        Some(s) => Some(s@),
        None => None,
    }
}

/// The conjunctive listing filter: a given, non-empty category must
/// match under ASCII case folding; a given start date bounds the date
/// from below, a given end date from above, both inclusively.
pub open spec fn matches_filter(
    t: TxView,
    category: Option<Seq<char>>,
    start: Option<Date>,
    end: Option<Date>,
) -> bool {
    &&& match category {
        Some(c) => c.len() == 0 || lower_seq(t.category) == lower_seq(c),
        None => true,
    }
    &&& match start {
        Some(s) => s.spec_le(t.date),
        None => true,
    }
    &&& match end {
        Some(e) => t.date.spec_le(e),
        None => true,
    }
}

/// The summary filter: the date's year and month must equal the given
/// ones, where given.
pub open spec fn in_period(t: TxView, year: Option<i32>, month: Option<u32>) -> bool {
    &&& match year {
        Some(y) => t.date.year as int == y as int,
        None => true,
    }
    &&& match month {
        Some(m) => t.date.month == m,
        None => true,
    }
}

/// A transaction with each given field replaced and the others kept.
pub open spec fn patched(
    t: TxView,
    date: Option<Date>,
    category: Option<Seq<char>>,
    description: Option<Seq<char>>,
    amount: Option<i64>,
) -> TxView {
    TxView {
        id: t.id,
        date: match date {
            Some(d) => d,
            None => t.date,
        },
        category: match category {
            Some(c) => c,
            None => t.category,
        },
        description: match description {
            Some(d) => d,
            None => t.description,
        },
        amount: match amount {
            Some(a) => a,
            None => t.amount,
        },
    }
}

/// Sum of all amounts, in cents.
pub open spec fn sum_all(s: Seq<TxView>) -> int
    decreases s.len(),
{
    if s.len() == 0 {
        0
    } else {
        sum_all(s.drop_last()) + s.last().amount
    }
}

/// Sum of the strictly positive amounts, in cents.
pub open spec fn sum_pos(s: Seq<TxView>) -> int
    decreases s.len(),
{
    if s.len() == 0 {
        0
    } else {
        sum_pos(s.drop_last()) + if s.last().amount > 0 {
            s.last().amount as int
        } else {
            0
        }
    }
}

/// Sum of the strictly negative amounts, in cents.
pub open spec fn sum_neg(s: Seq<TxView>) -> int
    decreases s.len(),
{
    if s.len() == 0 {
        0
    } else {
        sum_neg(s.drop_last()) + if s.last().amount < 0 {
            s.last().amount as int
        } else {
            0
        }
    }
}

/// The aggregate of a filtered set of transactions, in cents. The
/// expense is the (non-positive) sum of the negative amounts, not its
/// absolute value.
#[derive(Clone, Copy, Debug, PartialEq, Eq, Structural)]
pub struct Summary {
    pub total: i128,
    pub income: i128,
    pub expense: i128,
    pub count: usize,
}

/// Keeps of `s` each well-formed transaction whose identifier has not
/// occurred before it.
pub open spec fn sanitize(s: Seq<TxView>) -> Seq<TxView>
    decreases s.len(),
{
    if s.len() == 0 {
        Seq::empty()
    } else {
        let pre = sanitize(s.drop_last());
        if tx_valid(s.last()) && !has_id(pre, s.last().id) {
            pre.push(s.last())
        } else {
            pre
        }
    }
}

/// The sums of a sequence of amounts are bounded by its length times
/// the extreme one-transaction amounts.
pub proof fn lemma_sum_bounds(s: Seq<TxView>)
    ensures
        -(s.len() as int) * 0x8000_0000_0000_0000 <= sum_all(s) <= (s.len() as int)
            * 0x7fff_ffff_ffff_ffff,
        0 <= sum_pos(s) <= (s.len() as int) * 0x7fff_ffff_ffff_ffff,
        -(s.len() as int) * 0x8000_0000_0000_0000 <= sum_neg(s) <= 0,
    decreases s.len(),
{
    if s.len() > 0 {
        lemma_sum_bounds(s.drop_last());
    }
}

/// Filtering keeps well-formedness: distinct identifiers stay distinct
/// and every kept transaction is one of the originals.
pub proof fn lemma_filter_wf(s: Seq<TxView>, pred: spec_fn(TxView) -> bool)
    requires
        unique_ids(s),
        all_valid(s),
    ensures
        unique_ids(s.filter(pred)),
        all_valid(s.filter(pred)),
        forall|t: TxView| #[trigger] s.filter(pred).contains(t) ==> s.contains(t),
    decreases s.len(),
{
    lemma_filter_membership(s, pred);
    let f = s.filter(pred);
    assert forall|i: int| 0 <= i < f.len() implies tx_valid(#[trigger] f[i]) by {
        assert(f.contains(f[i]));
        let k = choose|k: int| 0 <= k < s.len() && #[trigger] s[k] == f[i];
        assert(tx_valid(s[k]));
    }
    reveal(Seq::filter);
    if s.len() > 0 {
        let pre = s.drop_last();
        lemma_filter_wf(pre, pred);
        if pred(s.last()) {
            assert(f == pre.filter(pred).push(s.last()));
            assert forall|i: int, j: int| 0 <= i < j < f.len() implies f[i].id != f[j].id by {
                if j == f.len() - 1 {
                    let fi = f[i];
                    assert(pre.filter(pred).contains(fi));
                    assert(pre.contains(fi));
                    let k = choose|k: int| 0 <= k < pre.len() && #[trigger] pre[k] == fi;
                    assert(s[k] == fi);
                    assert(s[k].id != s[s.len() - 1].id);
                }
            }
        }
    }
}

/// No transaction carries the identifier: the filter that drops it
/// changes nothing.
pub proof fn lemma_filter_id_absent(s: Seq<TxView>, id: Seq<char>)
    requires
        !has_id(s, id),
    ensures
        s.filter(|t: TxView| t.id != id) == s,
    decreases s.len(),
{
    reveal(Seq::filter);
    if s.len() > 0 {
        assert(!has_id(s.drop_last(), id));
        lemma_filter_id_absent(s.drop_last(), id);
        assert(s[s.len() - 1].id != id);
        assert(s.filter(|t: TxView| t.id != id) =~= s);
    }
}

/// Membership in a filtered listing: exactly the transactions of the
/// collection that satisfy the filter, no others.
pub proof fn lemma_filter_membership(s: Seq<TxView>, pred: spec_fn(TxView) -> bool)
    ensures
        forall|t: TxView| #[trigger] s.filter(pred).contains(t) <==> (s.contains(t) && pred(t)),
    decreases s.len(),
{
    reveal(Seq::filter);
    if s.len() > 0 {
        let pre = s.drop_last();
        lemma_filter_membership(pre, pred);
        assert forall|t: TxView| #[trigger] s.filter(pred).contains(t) implies (s.contains(t)
            && pred(t)) by {
            if pre.filter(pred).contains(t) {
                assert(pre.contains(t));
                let k = choose|k: int| 0 <= k < pre.len() && pre[k] == t;
                assert(s[k] == t);
            }
        }
        assert forall|t: TxView| (s.contains(t) && pred(t)) implies #[trigger] s.filter(
            pred,
        ).contains(t) by {
            let k = choose|k: int| 0 <= k < s.len() && s[k] == t;
            if k < s.len() - 1 {
                assert(pre[k] == t);
                assert(pre.contains(t));
                assert(pre.filter(pred).contains(t));
                let j = choose|j: int| 0 <= j < pre.filter(pred).len() && pre.filter(pred)[j] == t;
                assert(s.filter(pred)[j] == t);
            } else {
                assert(s.filter(pred).last() == t);
            }
        }
    }
}

/// Appending a transaction with a fresh identifier keeps all
/// identifiers pairwise distinct. Applied once per creation, this is
/// why any number of sequential creations yield pairwise distinct
/// identifiers.
pub proof fn lemma_fresh_push_unique(s: Seq<TxView>, t: TxView)
    requires
        unique_ids(s),
        !has_id(s, t.id),
    ensures
        unique_ids(s.push(t)),
{
}

/// Tests whether some transaction of the vector carries the identifier.
fn contains_id(v: &Vec<Transaction>, id: &String) -> (r: bool)
    ensures
        r == has_id(views(v@), id@),
{
    let mut i: usize = 0;
    while i < v.len()
        invariant
            i <= v@.len(),
            forall|j: int| 0 <= j < i ==> views(v@)[j].id != id@,
        decreases v@.len() - i,
    {
        if v[i].id == *id {
            assert(views(v@)[i as int].id == id@);
            return true;
        }
        i += 1;
    }
    false
}

/// Finds the index of the transaction carrying the identifier.
fn find_id(v: &Vec<Transaction>, id: &String) -> (r: Option<usize>)
    ensures
        match r {
            Some(i) => i < v@.len() && views(v@)[i as int].id == id@,
            None => !has_id(views(v@), id@),
        },
{
    let mut i: usize = 0;
    while i < v.len()
        invariant
            i <= v@.len(),
            forall|j: int| 0 <= j < i ==> views(v@)[j].id != id@,
        decreases v@.len() - i,
    {
        if v[i].id == *id {
            return Some(i);
        }
        i += 1;
    }
    None
}

/// The authoritative collection. Its well-formedness invariant:
/// pairwise distinct identifiers and only valid transactions.
pub struct Store {
    pub transactions: Vec<Transaction>,
}

impl View for Store {
    type V = Seq<TxView>;

    open spec fn view(&self) -> Seq<TxView> {
        views(self.transactions@)
    }
}

impl Store {
    pub open spec fn wf(&self) -> bool {
        unique_ids(self@) && all_valid(self@)
    }

    /// An empty collection.
    pub fn new() -> (s: Store)
        ensures
            s@ == Seq::<TxView>::empty(),
            s.wf(),
    {
        let s = Store { transactions: Vec::new() };
        proof {
            assert(s@ =~= Seq::<TxView>::empty());
        }
        s
    }

    /// Adopts a loaded collection, dropping any record that is
    /// malformed or repeats an earlier identifier; a collection the
    /// library itself saved is adopted unchanged.
    #[verifier::loop_isolation(false)]
    pub fn from_transactions(v: Vec<Transaction>) -> (s: Store)
        ensures
            s.wf(),
            s@ == sanitize(views(v@)),
            unique_ids(views(v@)) && all_valid(views(v@)) ==> s@ == views(v@),
    {
        let mut out: Vec<Transaction> = Vec::new();
        let mut i: usize = 0;
        while i < v.len()
            invariant
                i <= v@.len(),
                views(out@) == sanitize(views(v@).take(i as int)),
                unique_ids(views(out@)),
                all_valid(views(out@)),
            decreases v@.len() - i,
        {
            let ghost pre = views(out@);
            let keep = is_id_string(v[i].id.as_str()) && date_valid_exec(&v[i].date)
                && !contains_id(&out, &v[i].id);
            if keep {
                out.push(v[i].clone());
            }
            proof {
                assert(views(v@).take(i + 1).drop_last() =~= views(v@).take(i as int));
                assert(views(v@).take(i + 1).last() == views(v@)[i as int]);
                if keep {
                    assert(views(out@) =~= pre.push(views(v@)[i as int]));
                    lemma_fresh_push_unique(pre, views(v@)[i as int]);
                } else {
                    assert(views(out@) == pre);
                }
            }
            i += 1;
        }
        proof {
            assert(views(v@).take(v@.len() as int) =~= views(v@));
            if unique_ids(views(v@)) && all_valid(views(v@)) {
                lemma_sanitize_identity(views(v@));
            }
        }
        Store { transactions: out }
    }

    /// Appends a new record under the given unused identifier and
    /// returns a copy of it.
    pub fn create_with_id(
        &mut self,
        id: String,
        date: Date,
        category: String,
        description: String,
        amount: i64,
    ) -> (t: Transaction)
        requires
            old(self).wf(),
            date.valid(),
            is_id_seq(id@),
            !has_id(old(self)@, id@),
        ensures
            final(self).wf(),
            final(self)@ == old(self)@.push(t@),
            tx_valid(t@),
            !has_id(old(self)@, t@.id),
            t@.id == id@,
            t@.date == date,
            t@.category == category@,
            t@.description == description@,
            t@.amount == amount,
    {
        let t = Transaction { id, date, category, description, amount };
        let r = t.clone();
        proof {
            lemma_fresh_push_unique(self@, t@);
        }
        self.transactions.push(t);
        proof {
            assert(self@ =~= old(self)@.push(r@));
        }
        r
    }

    /// Tests whether some transaction carries the identifier.
    pub fn contains(&self, id: &String) -> (r: bool)
        ensures
            r == has_id(self@, id@),
    {
        contains_id(&self.transactions, id)
    }

    /// An identifier no transaction of the collection carries: scans
    /// the reserve identifiers, of which one among the first `n + 1` is
    /// always free in a collection of `n`.
    fn fresh_reserve_id(&self) -> (r: String)
        ensures
            is_id_seq(r@),
            !has_id(self@, r@),
    {
        let n = self.transactions.len();
        let mut j: usize = 0;
        while j < n
            invariant
                j <= n,
                n == self@.len(),
                forall|jj: int| 0 <= jj < j ==> has_id(self@, crate::ident::serial_seq(jj)),
            decreases n - j,
        {
            let cand = crate::ident::serial_string(j as u64);
            if !contains_id(&self.transactions, &cand) {
                return cand;
            }
            j += 1;
        }
        let cand = crate::ident::serial_string(n as u64);
        if !contains_id(&self.transactions, &cand) {
            return cand;
        }
        proof {
            crate::ident::lemma_serial_available(self@);
        }
        vstd::pervasive::unreached()
    }

    /// Creates a transaction: draws one random identifier, falls back
    /// to a reserve identifier in the vanishingly unlikely event that
    /// the draw is already taken, appends the new record and returns a
    /// copy of it.
    pub fn create(
        &mut self,
        date: Date,
        category: String,
        description: String,
        amount: i64,
    ) -> (t: Transaction)
        requires
            old(self).wf(),
            date.valid(),
        ensures
            final(self).wf(),
            final(self)@ == old(self)@.push(t@),
            tx_valid(t@),
            !has_id(old(self)@, t@.id),
            t@.date == date,
            t@.category == category@,
            t@.description == description@,
            t@.amount == amount,
    {
        let drawn = fresh_id();
        let id = if contains_id(&self.transactions, &drawn) {
            self.fresh_reserve_id()
        } else {
            drawn
        };
        self.create_with_id(id, date, category, description, amount)
    }

    /// Lists the transactions satisfying the filter, in insertion
    /// order, as fresh copies.
    #[verifier::loop_isolation(false)]
    pub fn list(
        &self,
        category: Option<String>,
        start: Option<Date>,
        end: Option<Date>,
    ) -> (r: Vec<Transaction>)
        ensures
            views(r@) == self@.filter(
                |t: TxView| matches_filter(t, opt_view(category), start, end),
            ),
    {
        let ghost pred = |t: TxView| matches_filter(t, opt_view(category), start, end);
        let mut out: Vec<Transaction> = Vec::new();
        let mut i: usize = 0;
        while i < self.transactions.len()
            invariant
                i <= self@.len(),
                views(out@) == self@.take(i as int).filter(pred),
            decreases self@.len() - i,
        {
            let ghost pre = views(out@);
            let tx = &self.transactions[i];
            let cat_ok = match &category {
                Some(c) => c.as_str().is_empty() || eq_ignore_case(
                    tx.category.as_str(),
                    c.as_str(),
                ),
                None => true,
            };
            let start_ok = match &start {
                Some(s) => s.le(&tx.date),
                None => true,
            };
            let end_ok = match &end {
                Some(e) => tx.date.le(e),
                None => true,
            };
            if cat_ok && start_ok && end_ok {
                out.push(tx.clone());
            }
            proof {
                reveal(Seq::filter);
                assert(self@.take(i + 1).drop_last() =~= self@.take(i as int));
                assert(self@.take(i + 1).last() == self@[i as int]);
                assert(cat_ok && start_ok && end_ok <==> pred(self@[i as int]));
                if cat_ok && start_ok && end_ok {
                    assert(views(out@) =~= pre.push(self@[i as int]));
                } else {
                    assert(views(out@) == pre);
                }
            }
            i += 1;
        }
        proof {
            assert(self@.take(self@.len() as int) =~= self@);
        }
        out
    }

    /// Replaces the given fields of the transaction carrying the
    /// identifier, leaves absent fields untouched, and returns a copy
    /// of the updated record; `None` when no record carries it.
    pub fn update(
        &mut self,
        id: &String,
        date: Option<Date>,
        category: Option<String>,
        description: Option<String>,
        amount: Option<i64>,
    ) -> (r: Option<Transaction>)
        requires
            old(self).wf(),
            date matches Some(d) ==> d.valid(),
        ensures
            final(self).wf(),
            r is Some <==> has_id(old(self)@, id@),
            r is None ==> final(self)@ == old(self)@,
            final(self)@.len() == old(self)@.len(),
            forall|j: int|
                0 <= j < old(self)@.len() && old(self)@[j].id != id@ ==> final(self)@[j] == old(
                    self,
                )@[j],
            forall|j: int|
                0 <= j < old(self)@.len() && old(self)@[j].id == id@ ==> (final(self)@[j] == patched(
                    old(self)@[j],
                    date,
                    opt_view(category),
                    opt_view(description),
                    amount,
                ) && (r matches Some(t) && t@ == final(self)@[j])),
    {
        match find_id(&self.transactions, id) {
            None => None,
            Some(i) => {
                let ghost oldv = self@;
                let mut t = self.transactions.remove(i);
                match date {
                    Some(d) => t.date = d,
                    None => (),
                }
                match category {
                    Some(c) => t.category = c,
                    None => (),
                }
                match description {
                    Some(d) => t.description = d,
                    None => (),
                }
                match amount {
                    Some(a) => t.amount = a,
                    None => (),
                }
                let r = t.clone();
                self.transactions.insert(i, t);
                proof {
                    assert(self@ =~= oldv.update(
                        i as int,
                        patched(oldv[i as int], date, opt_view(category), opt_view(description), amount),
                    ));
                    assert forall|j: int|
                        0 <= j < oldv.len() && oldv[j].id == id@ implies j == i as int by {
                        if j != i as int {
                            assert(oldv[i as int].id == id@);
                        }
                    }
                }
                Some(r)
            },
        }
    }

    /// Removes every transaction carrying the identifier — at most one,
    /// by the invariant — and reports whether one was there.
    #[verifier::loop_isolation(false)]
    pub fn delete(&mut self, id: &String) -> (r: bool)
        requires
            old(self).wf(),
        ensures
            final(self).wf(),
            r == has_id(old(self)@, id@),
            final(self)@ == old(self)@.filter(|t: TxView| t.id != id@),
            !r ==> final(self)@ == old(self)@,
    {
        let ghost pred = |t: TxView| t.id != id@;
        let ghost oldv = self@;
        let mut out: Vec<Transaction> = Vec::new();
        let mut found = false;
        let mut i: usize = 0;
        while i < self.transactions.len()
            invariant
                i <= oldv.len(),
                self@ == oldv,
                views(out@) == oldv.take(i as int).filter(pred),
                found == has_id(oldv.take(i as int), id@),
            decreases oldv.len() - i,
        {
            let ghost pre = views(out@);
            let tx = &self.transactions[i];
            let is_match = tx.id == *id;
            if is_match {
                found = true;
            } else {
                out.push(tx.clone());
            }
            proof {
                reveal(Seq::filter);
                assert(oldv.take(i + 1).drop_last() =~= oldv.take(i as int));
                assert(oldv.take(i + 1).last() == oldv[i as int]);
                if is_match {
                    assert(views(out@) == pre);
                    assert(has_id(oldv.take(i + 1), id@));
                } else {
                    assert(views(out@) =~= pre.push(oldv[i as int]));
                    assert(has_id(oldv.take(i + 1), id@) == has_id(oldv.take(i as int), id@))
                        by {
                        if has_id(oldv.take(i + 1), id@) {
                            let k = choose|k: int|
                                0 <= k < i + 1 && #[trigger] oldv.take(i + 1)[k].id == id@;
                            assert(k < i + 1 && oldv[k].id == id@);
                            assert(k != i);
                            assert(oldv.take(i as int)[k].id == id@);
                        }
                    }
                }
            }
            i += 1;
        }
        proof {
            assert(oldv.take(oldv.len() as int) =~= oldv);
            lemma_filter_wf(oldv, pred);
            if !found {
                lemma_filter_id_absent(oldv, id@);
            }
        }
        self.transactions = out;
        found
    }

    /// Aggregates the transactions whose year and month match the given
    /// ones: total, income (positive amounts), expense (negative
    /// amounts, reported negative), and their number.
    #[verifier::loop_isolation(false)]
    pub fn summarize(&self, year: Option<i32>, month: Option<u32>) -> (r: Summary)
        ensures
            r.total == sum_all(self@.filter(|t: TxView| in_period(t, year, month))),
            r.income == sum_pos(self@.filter(|t: TxView| in_period(t, year, month))),
            r.expense == sum_neg(self@.filter(|t: TxView| in_period(t, year, month))),
            r.count == self@.filter(|t: TxView| in_period(t, year, month)).len(),
    {
        let ghost pred = |t: TxView| in_period(t, year, month);
        let mut total: i128 = 0;
        let mut income: i128 = 0;
        let mut expense: i128 = 0;
        let mut count: usize = 0;
        let mut i: usize = 0;
        while i < self.transactions.len()
            invariant
                i <= self@.len(),
                total == sum_all(self@.take(i as int).filter(pred)),
                income == sum_pos(self@.take(i as int).filter(pred)),
                expense == sum_neg(self@.take(i as int).filter(pred)),
                count == self@.take(i as int).filter(pred).len(),
                count <= i,
            decreases self@.len() - i,
        {
            let ghost fpre = self@.take(i as int).filter(pred);
            let tx = &self.transactions[i];
            let year_ok = match year {
                Some(y) => y >= 0 && tx.date.year == y as u32,
                None => true,
            };
            let month_ok = match month {
                Some(m) => tx.date.month == m,
                None => true,
            };
            proof {
                reveal(Seq::filter);
                assert(self@.take(i + 1).drop_last() =~= self@.take(i as int));
                assert(self@.take(i + 1).last() == self@[i as int]);
                assert(year_ok && month_ok <==> pred(self@[i as int]));
                if year_ok && month_ok {
                    let t = self@[i as int];
                    assert(self@.take(i + 1).filter(pred) == fpre.push(t));
                    assert(fpre.push(t).drop_last() =~= fpre);
                    assert(fpre.push(t).last() == t);
                    assert(sum_all(fpre.push(t)) == sum_all(fpre) + t.amount);
                    lemma_sum_bounds(fpre);
                    lemma_mul_inequality(fpre.len() as int, 0xffff_ffff_ffff_ffff, 0x8000_0000_0000_0000);
                    lemma_mul_inequality(fpre.len() as int, 0xffff_ffff_ffff_ffff, 0x7fff_ffff_ffff_ffff);
                }
            }
            if year_ok && month_ok {
                let a = tx.amount;
                total = total + a as i128;
                if a > 0 {
                    income = income + a as i128;
                }
                if a < 0 {
                    expense = expense + a as i128;
                }
                count = count + 1;
            }
            i += 1;
        }
        proof {
            assert(self@.take(self@.len() as int) =~= self@);
        }
        Summary { total, income, expense, count }
    }
}

/// Updating only the amount leaves the date, the category and the
/// description unchanged; absent fields are never touched.
pub proof fn lemma_patch_amount_only(t: TxView, a: i64)
    ensures
        patched(t, None, None, None, Some(a)).id == t.id,
        patched(t, None, None, None, Some(a)).date == t.date,
        patched(t, None, None, None, Some(a)).category == t.category,
        patched(t, None, None, None, Some(a)).description == t.description,
        patched(t, None, None, None, Some(a)).amount == a,
{
}

/// A category listing holds exactly the transactions whose category
/// matches the given one case-insensitively — all of them, nothing
/// else — an empty category matching everything.
pub proof fn lemma_list_category_exact(s: Seq<TxView>, cat: Seq<char>, f: Seq<TxView>)
    requires
        f == s.filter(|t: TxView| matches_filter(t, Some(cat), None, None)),
    ensures
        forall|t: TxView|
            #[trigger] f.contains(t) <==> (s.contains(t) && (cat.len() == 0 || lower_seq(
                t.category,
            ) == lower_seq(cat))),
{
    lemma_filter_membership(s, |t: TxView| matches_filter(t, Some(cat), None, None));
}

/// A date-range listing holds exactly the transactions dated within
/// the inclusive bounds, and no others.
pub proof fn lemma_list_range_exact(s: Seq<TxView>, start: Date, end: Date, f: Seq<TxView>)
    requires
        f == s.filter(|t: TxView| matches_filter(t, None, Some(start), Some(end))),
    ensures
        forall|t: TxView|
            #[trigger] f.contains(t) <==> (s.contains(t) && start.spec_le(t.date)
                && t.date.spec_le(end)),
{
    lemma_filter_membership(s, |t: TxView| matches_filter(t, None, Some(start), Some(end)));
}

/// A collection that is already well formed is adopted unchanged.
pub proof fn lemma_sanitize_identity(s: Seq<TxView>)
    requires
        unique_ids(s),
        all_valid(s),
    ensures
        sanitize(s) == s,
    decreases s.len(),
{
    if s.len() > 0 {
        let pre = s.drop_last();
        lemma_sanitize_identity(pre);
        assert(tx_valid(s.last()));
        assert(!has_id(pre, s.last().id)) by {
            if has_id(pre, s.last().id) {
                let k = choose|k: int| 0 <= k < pre.len() && pre[k].id == s.last().id;
                assert(s[k].id == s[s.len() - 1].id);
            }
        }
        assert(sanitize(s) =~= s);
    }
}

} // verus!
