//! The send aggregation table.
//!
//! Duplicate transfer effects keyed by the `(from, to)` address pair
//! alone — height is no part of the key — with rows held strictly
//! ascending by that pair.

use crate::tables::{lemma_pair_key_lt_trans, lemma_pair_key_lt_trichotomy, pair_key_lt};
use crate::order::{str_eq, str_lt};
use vstd::prelude::*;

verus! {

/// One send table row: the accumulated amount transferred from `from`
/// to `to` across duplicated send records.
#[derive(Debug)]
pub struct SendRow {
    pub from: String,
    pub to: String,
    pub amount: u64,
}

/// Whether some row carries the pair `(f, t)`.
pub open spec fn send_has_key(rows: Seq<SendRow>, f: Seq<char>, t: Seq<char>) -> bool {
    exists|i: int| 0 <= i < rows.len() && (#[trigger] rows[i]).from@ == f && rows[i].to@ == t
}

/// The sum of the amounts of the rows matching `(f, t)`.
pub open spec fn send_amount_in(rows: Seq<SendRow>, f: Seq<char>, t: Seq<char>) -> int
    decreases rows.len(),
{
    if rows.len() == 0 {
        0
    } else {
        send_amount_in(rows.drop_last(), f, t) + if rows.last().from@ == f && rows.last().to@
            == t {
            rows.last().amount as int
        } else {
            0
        }
    }
}

pub proof fn lemma_send_amount_in_concat(s1: Seq<SendRow>, s2: Seq<SendRow>, f: Seq<char>, t: Seq<char>)
    ensures
        send_amount_in(s1 + s2, f, t) == send_amount_in(s1, f, t) + send_amount_in(s2, f, t),
    decreases s2.len(),
{
    if s2.len() == 0 {
        assert(s1 + s2 =~= s1);
    } else {
        assert((s1 + s2).drop_last() =~= s1 + s2.drop_last());
        assert((s1 + s2).last() == s2.last());
        lemma_send_amount_in_concat(s1, s2.drop_last(), f, t);
    }
}

pub proof fn lemma_send_amount_in_zero(rows: Seq<SendRow>, f: Seq<char>, t: Seq<char>)
    requires
        forall|i: int|
            0 <= i < rows.len() ==> !((#[trigger] rows[i]).from@ == f && rows[i].to@ == t),
    ensures
        send_amount_in(rows, f, t) == 0,
    decreases rows.len(),
{
    if rows.len() > 0 {
        lemma_send_amount_in_zero(rows.drop_last(), f, t);
    }
}

/// The first position whose pair is not below `(from, to)`.
#[verifier::loop_isolation(false)]
fn send_find_pos(rows: &Vec<SendRow>, from: &str, to: &str) -> (i: usize)
    ensures
        i <= rows@.len(),
        forall|j: int|
            0 <= j < i ==> pair_key_lt((#[trigger] rows@[j]).from@, rows@[j].to@, from@, to@),
        i < rows@.len() ==> !pair_key_lt(
            rows@[i as int].from@,
            rows@[i as int].to@,
            from@,
            to@,
        ),
{
    let n = rows.len();
    let mut i: usize = 0;
    while i < n
        invariant
            i <= n,
            n == rows@.len(),
            forall|j: int|
                0 <= j < i ==> pair_key_lt((#[trigger] rows@[j]).from@, rows@[j].to@, from@, to@),
        decreases n - i,
    {
        let r = &rows[i];
        let from_lt = str_lt(r.from.as_str(), from);
        let from_eq = str_eq(r.from.as_str(), from);
        if from_lt || (from_eq && str_lt(r.to.as_str(), to)) {
            i = i + 1;
        } else {
            return i;
        }
    }
    i
}

/// The send aggregation table, rows strictly sorted by `(from, to)`.
#[derive(Debug)]
pub struct TransposedSendTable {
    pub rows: Vec<SendRow>,
}

impl TransposedSendTable {
    /// Rows are strictly ascending by `(from, to)`; every pair is
    /// unique.
    pub open spec fn wf(self) -> bool {
        forall|i: int, j: int|
            0 <= i < j < self.rows@.len() ==> pair_key_lt(
                (#[trigger] self.rows@[i]).from@,
                self.rows@[i].to@,
                (#[trigger] self.rows@[j]).from@,
                self.rows@[j].to@,
            )
    }

    /// The accumulated amount at `(f, t)`; zero where the pair is
    /// absent.
    pub open spec fn spec_amount(self, f: Seq<char>, t: Seq<char>) -> int {
        send_amount_in(self.rows@, f, t)
    }

    /// Whether the table holds a row for `(f, t)`.
    pub open spec fn has_key(self, f: Seq<char>, t: Seq<char>) -> bool {
        send_has_key(self.rows@, f, t)
    }

    /// An empty table.
    pub fn new() -> (r: TransposedSendTable)
        ensures
            r.wf(),
            r.rows@.len() == 0,
            forall|f: Seq<char>, t: Seq<char>| #[trigger] r.spec_amount(f, t) == 0,
    {
        TransposedSendTable { rows: Vec::new() }
    }

    /// Add `amount` at pair `(from, to)`, inserting a row or adding
    /// into the existing one. Fails, leaving the table unchanged,
    /// exactly when the sum would not fit in 64 bits.
    #[verifier::loop_isolation(false)]
    pub fn add_amount(&mut self, from: &str, to: &str, amount: u64) -> (ok: bool)
        requires
            old(self).wf(),
        ensures
            final(self).wf(),
            ok == (old(self).spec_amount(from@, to@) + amount <= u64::MAX),
            ok ==> forall|f: Seq<char>, t: Seq<char>|
                #[trigger] final(self).spec_amount(f, t) == old(self).spec_amount(f, t) + if f
                    == from@ && t == to@ {
                    amount as int
                } else {
                    0
                },
            ok ==> forall|f: Seq<char>, t: Seq<char>|
                #[trigger] final(self).has_key(f, t) <==> (old(self).has_key(f, t) || (f == from@
                    && t == to@)),
            !ok ==> *final(self) == *old(self),
    {
        let ghost kf = from@;
        let ghost kt = to@;
        let n = self.rows.len();
        let i = send_find_pos(&self.rows, from, to);
        proof {
            assert(self.rows@ =~= self.rows@.take(i as int) + self.rows@.skip(i as int));
            lemma_send_amount_in_concat(
                self.rows@.take(i as int),
                self.rows@.skip(i as int),
                kf,
                kt,
            );
            assert forall|j: int| 0 <= j < i implies !((#[trigger] self.rows@[j]).from@ == kf
                && self.rows@[j].to@ == kt) by {
                lemma_pair_key_lt_trichotomy(self.rows@[j].from@, self.rows@[j].to@, kf, kt);
            }
            lemma_send_amount_in_zero(self.rows@.take(i as int), kf, kt);
        }
        let mut hit = false;
        if i < n {
            let r = &self.rows[i];
            if str_eq(r.from.as_str(), from) && str_eq(r.to.as_str(), to) {
                hit = true;
            }
        }
        if hit {
            proof {
                assert(self.rows@.skip(i as int) =~= seq![self.rows@[i as int]] + self.rows@.skip(
                    i + 1,
                ));
                lemma_send_amount_in_concat(
                    seq![self.rows@[i as int]],
                    self.rows@.skip(i + 1),
                    kf,
                    kt,
                );
                assert(send_amount_in(Seq::<SendRow>::empty(), kf, kt) == 0);
                assert(seq![self.rows@[i as int]].drop_last() =~= Seq::<SendRow>::empty());
                assert(send_amount_in(seq![self.rows@[i as int]], kf, kt)
                    == self.rows@[i as int].amount as int);
                assert forall|j: int| i < j < n implies !((#[trigger] self.rows@[j]).from@ == kf
                    && self.rows@[j].to@ == kt) by {
                    lemma_pair_key_lt_trichotomy(kf, kt, self.rows@[j].from@, self.rows@[j].to@);
                }
                lemma_send_amount_in_zero(self.rows@.skip(i + 1), kf, kt);
                assert(old(self).spec_amount(kf, kt) == self.rows@[i as int].amount as int);
            }
            let cur = self.rows[i].amount;
            let sum = match cur.checked_add(amount) {
                Some(v) => v,
                None => {
                    return false;
                },
            };
            let row = self.rows.remove(i);
            let new_row = SendRow { from: row.from, to: row.to, amount: sum };
            self.rows.insert(i, new_row);
            proof {
                let rows1 = old(self).rows@;
                let rows2 = self.rows@;
                assert(rows2 =~= rows1.update(i as int, rows2[i as int]));
                assert forall|f: Seq<char>, t: Seq<char>|
                    #[trigger] self.spec_amount(f, t) == old(self).spec_amount(f, t) + if f == kf
                        && t == kt {
                        amount as int
                    } else {
                        0
                    } by {
                    lemma_send_update_amount(rows1, i as int, rows2[i as int], f, t);
                }
                assert forall|p: int, q: int| 0 <= p < q < rows2.len() implies pair_key_lt(
                    (#[trigger] rows2[p]).from@,
                    rows2[p].to@,
                    (#[trigger] rows2[q]).from@,
                    rows2[q].to@,
                ) by {
                    assert(rows1[p].from@ == rows2[p].from@ && rows1[p].to@ == rows2[p].to@);
                    assert(rows1[q].from@ == rows2[q].from@ && rows1[q].to@ == rows2[q].to@);
                }
                assert forall|f2: Seq<char>, t2: Seq<char>|
                    #[trigger] self.has_key(f2, t2) <==> (old(self).has_key(f2, t2) || (f2 == kf
                        && t2 == kt)) by {
                    if send_has_key(rows2, f2, t2) {
                        let j = choose|j: int|
                            0 <= j < rows2.len() && (#[trigger] rows2[j]).from@ == f2
                                && rows2[j].to@ == t2;
                        assert(rows1[j].from@ == f2 && rows1[j].to@ == t2);
                    }
                    if send_has_key(rows1, f2, t2) {
                        let j = choose|j: int|
                            0 <= j < rows1.len() && (#[trigger] rows1[j]).from@ == f2
                                && rows1[j].to@ == t2;
                        assert(rows2[j].from@ == f2 && rows2[j].to@ == t2);
                    }
                    if f2 == kf && t2 == kt {
                        assert(rows2[i as int].from@ == f2 && rows2[i as int].to@ == t2);
                    }
                }
            }
            true
        } else {
            proof {
                if i < n {
                    lemma_pair_key_lt_trichotomy(
                        self.rows@[i as int].from@,
                        self.rows@[i as int].to@,
                        kf,
                        kt,
                    );
                    assert(pair_key_lt(kf, kt, self.rows@[i as int].from@, self.rows@[i as int].to@));
                }
                assert forall|j: int| i <= j < n implies pair_key_lt(
                    kf,
                    kt,
                    (#[trigger] self.rows@[j]).from@,
                    self.rows@[j].to@,
                ) by {
                    if j > i {
                        lemma_pair_key_lt_trans(
                            kf,
                            kt,
                            self.rows@[i as int].from@,
                            self.rows@[i as int].to@,
                            self.rows@[j].from@,
                            self.rows@[j].to@,
                        );
                    }
                }
                assert forall|j: int| i <= j < n implies !((#[trigger] self.rows@[j]).from@ == kf
                    && self.rows@[j].to@ == kt) by {
                    lemma_pair_key_lt_trichotomy(kf, kt, self.rows@[j].from@, self.rows@[j].to@);
                }
                lemma_send_amount_in_zero(self.rows@.skip(i as int), kf, kt);
                assert(old(self).spec_amount(kf, kt) == 0);
            }
            let new_row = SendRow { from: from.to_owned(), to: to.to_owned(), amount };
            self.rows.insert(i, new_row);
            proof {
                let rows1 = old(self).rows@;
                let rows2 = self.rows@;
                assert(rows2 =~= rows1.take(i as int) + seq![rows2[i as int]] + rows1.skip(
                    i as int,
                ));
                assert forall|f: Seq<char>, t: Seq<char>|
                    #[trigger] self.spec_amount(f, t) == old(self).spec_amount(f, t) + if f == kf
                        && t == kt {
                        amount as int
                    } else {
                        0
                    } by {
                    lemma_send_amount_in_concat(
                        rows1.take(i as int) + seq![rows2[i as int]],
                        rows1.skip(i as int),
                        f,
                        t,
                    );
                    lemma_send_amount_in_concat(rows1.take(i as int), seq![rows2[i as int]], f, t);
                    lemma_send_amount_in_concat(rows1.take(i as int), rows1.skip(i as int), f, t);
                    assert(send_amount_in(Seq::<SendRow>::empty(), f, t) == 0);
                    assert(seq![rows2[i as int]].drop_last() =~= Seq::<SendRow>::empty());
                    assert(rows1 =~= rows1.take(i as int) + rows1.skip(i as int));
                }
                assert forall|p: int, q: int| 0 <= p < q < rows2.len() implies pair_key_lt(
                    (#[trigger] rows2[p]).from@,
                    rows2[p].to@,
                    (#[trigger] rows2[q]).from@,
                    rows2[q].to@,
                ) by {
                    if p < i && q > i {
                        lemma_pair_key_lt_trans(
                            rows1[p].from@,
                            rows1[p].to@,
                            kf,
                            kt,
                            rows1[q - 1].from@,
                            rows1[q - 1].to@,
                        );
                    }
                }
                assert(rows2[i as int].from@ == kf && rows2[i as int].to@ == kt);
                assert forall|f2: Seq<char>, t2: Seq<char>|
                    #[trigger] self.has_key(f2, t2) <==> (old(self).has_key(f2, t2) || (f2 == kf
                        && t2 == kt)) by {
                    if send_has_key(rows2, f2, t2) {
                        let j = choose|j: int|
                            0 <= j < rows2.len() && (#[trigger] rows2[j]).from@ == f2
                                && rows2[j].to@ == t2;
                        if j < i {
                            assert(rows1[j].from@ == f2 && rows1[j].to@ == t2);
                        } else if j > i {
                            assert(rows1[j - 1].from@ == f2 && rows1[j - 1].to@ == t2);
                        }
                    }
                    if send_has_key(rows1, f2, t2) {
                        let j = choose|j: int|
                            0 <= j < rows1.len() && (#[trigger] rows1[j]).from@ == f2
                                && rows1[j].to@ == t2;
                        if j < i {
                            assert(rows2[j].from@ == f2 && rows2[j].to@ == t2);
                        } else {
                            assert(rows2[j + 1].from@ == f2 && rows2[j + 1].to@ == t2);
                        }
                    }
                }
            }
            true
        }
    }

    /// Look the accumulated amount up; zero where the pair is absent.
    #[verifier::loop_isolation(false)]
    pub fn amount_of(&self, from: &str, to: &str) -> (r: u64)
        requires
            self.wf(),
        ensures
            r == self.spec_amount(from@, to@),
    {
        let n = self.rows.len();
        let mut i: usize = 0;
        let mut found: u64 = 0;
        while i < n
            invariant
                i <= n,
                n == self.rows@.len(),
                self.wf(),
                found == send_amount_in(self.rows@.take(i as int), from@, to@),
            decreases n - i,
        {
            proof {
                assert(self.rows@.take(i + 1).drop_last() =~= self.rows@.take(i as int));
                assert(self.rows@.take(i + 1).last() == self.rows@[i as int]);
            }
            let r = &self.rows[i];
            if str_eq(r.from.as_str(), from) && str_eq(r.to.as_str(), to) {
                found = r.amount;
                proof {
                    lemma_send_unique_key_amount(self.rows@, i as int, from@, to@);
                    assert(found == send_amount_in(self.rows@.take(i + 1), from@, to@));
                }
            }
            i = i + 1;
        }
        proof {
            assert(self.rows@.take(n as int) =~= self.rows@);
        }
        found
    }
}

/// Updating a row's amount, pair unchanged, shifts the sum at that pair
/// by the difference and leaves every other pair's sum alone.
proof fn lemma_send_update_amount(rows: Seq<SendRow>, i: int, r: SendRow, f: Seq<char>, t: Seq<char>)
    requires
        0 <= i < rows.len(),
        r.from@ == rows[i].from@,
        r.to@ == rows[i].to@,
    ensures
        send_amount_in(rows.update(i, r), f, t) == send_amount_in(rows, f, t) + if f == r.from@ && t
            == r.to@ {
            r.amount - rows[i].amount
        } else {
            0
        },
{
    assert(rows =~= rows.take(i) + seq![rows[i]] + rows.skip(i + 1));
    assert(rows.update(i, r) =~= rows.take(i) + seq![r] + rows.skip(i + 1));
    lemma_send_amount_in_concat(rows.take(i) + seq![rows[i]], rows.skip(i + 1), f, t);
    lemma_send_amount_in_concat(rows.take(i), seq![rows[i]], f, t);
    lemma_send_amount_in_concat(rows.take(i) + seq![r], rows.skip(i + 1), f, t);
    lemma_send_amount_in_concat(rows.take(i), seq![r], f, t);
    assert(send_amount_in(Seq::<SendRow>::empty(), f, t) == 0);
    assert(seq![rows[i]].drop_last() =~= Seq::<SendRow>::empty());
    assert(seq![r].drop_last() =~= Seq::<SendRow>::empty());
}

/// Under well-formedness every accumulated amount is the single
/// matching row's, so it fits in 64 bits.
pub proof fn lemma_send_table_range(tbl: TransposedSendTable)
    requires
        tbl.wf(),
    ensures
        forall|f: Seq<char>, t: Seq<char>| 0 <= #[trigger] tbl.spec_amount(f, t) <= u64::MAX,
{
    assert forall|f: Seq<char>, t: Seq<char>| 0 <= #[trigger] tbl.spec_amount(f, t)
        <= u64::MAX by {
        if exists|i: int|
            0 <= i < tbl.rows@.len() && (#[trigger] tbl.rows@[i]).from@ == f && tbl.rows@[i].to@
                == t {
            let i = choose|i: int|
                0 <= i < tbl.rows@.len() && (#[trigger] tbl.rows@[i]).from@ == f
                    && tbl.rows@[i].to@ == t;
            lemma_send_unique_key_amount(tbl.rows@, i, f, t);
        } else {
            lemma_send_amount_in_zero(tbl.rows@, f, t);
        }
    }
}

/// In a sorted row sequence the sum at any pair is the single matching
/// row's amount.
proof fn lemma_send_unique_key_amount(rows: Seq<SendRow>, i: int, f: Seq<char>, t: Seq<char>)
    requires
        0 <= i < rows.len(),
        rows[i].from@ == f,
        rows[i].to@ == t,
        forall|p: int, q: int|
            0 <= p < q < rows.len() ==> pair_key_lt(
                (#[trigger] rows[p]).from@,
                rows[p].to@,
                (#[trigger] rows[q]).from@,
                rows[q].to@,
            ),
    ensures
        send_amount_in(rows, f, t) == rows[i].amount as int,
        send_amount_in(rows.take(i + 1), f, t) == rows[i].amount as int,
{
    assert forall|j: int| 0 <= j < rows.len() && j != i implies !((#[trigger] rows[j]).from@ == f
        && rows[j].to@ == t) by {
        if j < i {
            lemma_pair_key_lt_trichotomy(rows[j].from@, rows[j].to@, f, t);
        } else {
            lemma_pair_key_lt_trichotomy(f, t, rows[j].from@, rows[j].to@);
        }
    }
    assert(rows =~= rows.take(i) + seq![rows[i]] + rows.skip(i + 1));
    lemma_send_amount_in_concat(rows.take(i) + seq![rows[i]], rows.skip(i + 1), f, t);
    lemma_send_amount_in_concat(rows.take(i), seq![rows[i]], f, t);
    lemma_send_amount_in_zero(rows.take(i), f, t);
    lemma_send_amount_in_zero(rows.skip(i + 1), f, t);
    assert(send_amount_in(Seq::<SendRow>::empty(), f, t) == 0);
    assert(seq![rows[i]].drop_last() =~= Seq::<SendRow>::empty());
    assert(rows.take(i + 1) =~= rows.take(i) + seq![rows[i]]);
}

} // verus!
