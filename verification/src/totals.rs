//! Per-address grand totals.
//!
//! Derived from the mint table: for each address, the sum over all
//! heights of the mint table's amounts. Rows are held strictly
//! ascending by address.

use crate::order::{
    lemma_seq_lt_asym, lemma_seq_lt_irrefl, lemma_seq_lt_trans, lemma_seq_lt_trichotomy, seq_lt,
    str_eq, str_lt,
};
use vstd::prelude::*;

verus! {

/// One totals row: the total minted to `address` over all duplicate
/// heights.
#[derive(Debug)]
pub struct TotalRow {
    pub address: String,
    pub total: u64,
}

/// Whether some row carries the address `a`.
pub open spec fn total_has_key(rows: Seq<TotalRow>, a: Seq<char>) -> bool {
    exists|i: int| 0 <= i < rows.len() && (#[trigger] rows[i]).address@ == a
}

/// The sum of the totals of the rows matching `a`.
pub open spec fn total_amount_in(rows: Seq<TotalRow>, a: Seq<char>) -> int
    decreases rows.len(),
{
    if rows.len() == 0 {
        0
    } else {
        total_amount_in(rows.drop_last(), a) + if rows.last().address@ == a {
            rows.last().total as int
        } else {
            0
        }
    }
}

pub proof fn lemma_total_amount_in_concat(s1: Seq<TotalRow>, s2: Seq<TotalRow>, a: Seq<char>)
    ensures
        total_amount_in(s1 + s2, a) == total_amount_in(s1, a) + total_amount_in(s2, a),
    decreases s2.len(),
{
    if s2.len() == 0 {
        assert(s1 + s2 =~= s1);
    } else {
        assert((s1 + s2).drop_last() =~= s1 + s2.drop_last());
        assert((s1 + s2).last() == s2.last());
        lemma_total_amount_in_concat(s1, s2.drop_last(), a);
    }
}

pub proof fn lemma_total_amount_in_zero(rows: Seq<TotalRow>, a: Seq<char>)
    requires
        forall|i: int| 0 <= i < rows.len() ==> (#[trigger] rows[i]).address@ != a,
    ensures
        total_amount_in(rows, a) == 0,
    decreases rows.len(),
{
    if rows.len() > 0 {
        lemma_total_amount_in_zero(rows.drop_last(), a);
    }
}

/// The per-address totals table, rows strictly sorted by address.
#[derive(Debug)]
pub struct TotalsByAddress {
    pub rows: Vec<TotalRow>,
}

impl TotalsByAddress {
    /// Rows are strictly ascending by address; every address is unique.
    pub open spec fn wf(self) -> bool {
        forall|i: int, j: int|
            0 <= i < j < self.rows@.len() ==> seq_lt(
                (#[trigger] self.rows@[i]).address@,
                (#[trigger] self.rows@[j]).address@,
            )
    }

    /// The total at `a`; zero where the address is absent.
    pub open spec fn spec_total(self, a: Seq<char>) -> int {
        total_amount_in(self.rows@, a)
    }

    /// Whether the table holds a row for `a`.
    pub open spec fn has_key(self, a: Seq<char>) -> bool {
        total_has_key(self.rows@, a)
    }

    /// An empty table.
    pub fn new() -> (r: TotalsByAddress)
        ensures
            r.wf(),
            r.rows@.len() == 0,
            forall|a: Seq<char>| #[trigger] r.spec_total(a) == 0,
    {
        TotalsByAddress { rows: Vec::new() }
    }

    /// Add `amount` at `address`, inserting a row or adding into the
    /// existing one. Fails, leaving the table unchanged, exactly when
    /// the sum would not fit in 64 bits.
    #[verifier::loop_isolation(false)]
    pub fn add_amount(&mut self, address: &str, amount: u64) -> (ok: bool)
        requires
            old(self).wf(),
        ensures
            final(self).wf(),
            ok == (old(self).spec_total(address@) + amount <= u64::MAX),
            ok ==> forall|a: Seq<char>|
                #[trigger] final(self).spec_total(a) == old(self).spec_total(a) + if a == address@ {
                    amount as int
                } else {
                    0
                },
            ok ==> forall|a: Seq<char>|
                #[trigger] final(self).has_key(a) <==> (old(self).has_key(a) || a == address@),
            !ok ==> *final(self) == *old(self),
    {
        let ghost key_a = address@;
        let n = self.rows.len();
        let mut i: usize = 0;
        while i < n && str_lt(self.rows[i].address.as_str(), address)
            invariant
                i <= n,
                n == self.rows@.len(),
                old(self).wf(),
                *self == *old(self),
                forall|j: int| 0 <= j < i ==> seq_lt((#[trigger] self.rows@[j]).address@, key_a),
            decreases n - i,
        {
            i = i + 1;
        }
        proof {
            assert(self.rows@ =~= self.rows@.take(i as int) + self.rows@.skip(i as int));
            lemma_total_amount_in_concat(self.rows@.take(i as int), self.rows@.skip(i as int), key_a);
            assert forall|j: int| 0 <= j < i implies (#[trigger] self.rows@[j]).address@ != key_a by {
                lemma_seq_lt_irrefl(key_a);
            }
            lemma_total_amount_in_zero(self.rows@.take(i as int), key_a);
        }
        let hit = i < n && str_eq(self.rows[i].address.as_str(), address);
        if hit {
            proof {
                assert(self.rows@.skip(i as int) =~= seq![self.rows@[i as int]] + self.rows@.skip(
                    i + 1,
                ));
                lemma_total_amount_in_concat(
                    seq![self.rows@[i as int]],
                    self.rows@.skip(i + 1),
                    key_a,
                );
                assert(total_amount_in(Seq::<TotalRow>::empty(), key_a) == 0);
                assert(seq![self.rows@[i as int]].drop_last() =~= Seq::<TotalRow>::empty());
                assert(total_amount_in(seq![self.rows@[i as int]], key_a)
                    == self.rows@[i as int].total as int);
                assert forall|j: int| i < j < n implies (#[trigger] self.rows@[j]).address@
                    != key_a by {
                    lemma_seq_lt_irrefl(key_a);
                }
                lemma_total_amount_in_zero(self.rows@.skip(i + 1), key_a);
                assert(old(self).spec_total(key_a) == self.rows@[i as int].total as int);
            }
            let cur = self.rows[i].total;
            let sum = match cur.checked_add(amount) {
                Some(v) => v,
                None => {
                    return false;
                },
            };
            let row = self.rows.remove(i);
            let new_row = TotalRow { address: row.address, total: sum };
            self.rows.insert(i, new_row);
            proof {
                let rows1 = old(self).rows@;
                let rows2 = self.rows@;
                assert(rows2 =~= rows1.update(i as int, rows2[i as int]));
                assert forall|a: Seq<char>|
                    #[trigger] self.spec_total(a) == old(self).spec_total(a) + if a == key_a {
                        amount as int
                    } else {
                        0
                    } by {
                    lemma_total_update_amount(rows1, i as int, rows2[i as int], a);
                }
                assert forall|p: int, q: int| 0 <= p < q < rows2.len() implies seq_lt(
                    (#[trigger] rows2[p]).address@,
                    (#[trigger] rows2[q]).address@,
                ) by {
                    assert(rows1[p].address@ == rows2[p].address@);
                    assert(rows1[q].address@ == rows2[q].address@);
                }
                assert forall|a2: Seq<char>|
                    #[trigger] self.has_key(a2) <==> (old(self).has_key(a2) || a2 == key_a) by {
                    if total_has_key(rows2, a2) {
                        let j = choose|j: int|
                            0 <= j < rows2.len() && (#[trigger] rows2[j]).address@ == a2;
                        assert(rows1[j].address@ == a2);
                    }
                    if total_has_key(rows1, a2) {
                        let j = choose|j: int|
                            0 <= j < rows1.len() && (#[trigger] rows1[j]).address@ == a2;
                        assert(rows2[j].address@ == a2);
                    }
                    if a2 == key_a {
                        assert(rows2[i as int].address@ == a2);
                    }
                }
            }
            true
        } else {
            proof {
                if i < n {
                    lemma_seq_lt_trichotomy(self.rows@[i as int].address@, key_a);
                }
                assert forall|j: int| i <= j < n implies seq_lt(
                    key_a,
                    (#[trigger] self.rows@[j]).address@,
                ) by {
                    if j > i {
                        lemma_seq_lt_trans(
                            key_a,
                            self.rows@[i as int].address@,
                            self.rows@[j].address@,
                        );
                    }
                }
                assert forall|j: int| i <= j < n implies (#[trigger] self.rows@[j]).address@
                    != key_a by {
                    lemma_seq_lt_irrefl(key_a);
                }
                lemma_total_amount_in_zero(self.rows@.skip(i as int), key_a);
                assert(old(self).spec_total(key_a) == 0);
            }
            let new_row = TotalRow { address: address.to_owned(), total: amount };
            self.rows.insert(i, new_row);
            proof {
                let rows1 = old(self).rows@;
                let rows2 = self.rows@;
                assert(rows2 =~= rows1.take(i as int) + seq![rows2[i as int]] + rows1.skip(
                    i as int,
                ));
                assert forall|a: Seq<char>|
                    #[trigger] self.spec_total(a) == old(self).spec_total(a) + if a == key_a {
                        amount as int
                    } else {
                        0
                    } by {
                    lemma_total_amount_in_concat(
                        rows1.take(i as int) + seq![rows2[i as int]],
                        rows1.skip(i as int),
                        a,
                    );
                    lemma_total_amount_in_concat(rows1.take(i as int), seq![rows2[i as int]], a);
                    lemma_total_amount_in_concat(rows1.take(i as int), rows1.skip(i as int), a);
                    assert(total_amount_in(Seq::<TotalRow>::empty(), a) == 0);
                    assert(seq![rows2[i as int]].drop_last() =~= Seq::<TotalRow>::empty());
                    assert(rows1 =~= rows1.take(i as int) + rows1.skip(i as int));
                }
                assert forall|p: int, q: int| 0 <= p < q < rows2.len() implies seq_lt(
                    (#[trigger] rows2[p]).address@,
                    (#[trigger] rows2[q]).address@,
                ) by {
                    if p < i && q > i {
                        lemma_seq_lt_trans(rows1[p].address@, key_a, rows1[q - 1].address@);
                    }
                }
                assert(rows2[i as int].address@ == key_a);
                assert forall|a2: Seq<char>|
                    #[trigger] self.has_key(a2) <==> (old(self).has_key(a2) || a2 == key_a) by {
                    if total_has_key(rows2, a2) {
                        let j = choose|j: int|
                            0 <= j < rows2.len() && (#[trigger] rows2[j]).address@ == a2;
                        if j < i {
                            assert(rows1[j].address@ == a2);
                        } else if j > i {
                            assert(rows1[j - 1].address@ == a2);
                        }
                    }
                    if total_has_key(rows1, a2) {
                        let j = choose|j: int|
                            0 <= j < rows1.len() && (#[trigger] rows1[j]).address@ == a2;
                        if j < i {
                            assert(rows2[j].address@ == a2);
                        } else {
                            assert(rows2[j + 1].address@ == a2);
                        }
                    }
                }
            }
            true
        }
    }

    /// Look the total up; zero where the address is absent.
    #[verifier::loop_isolation(false)]
    pub fn total_of(&self, address: &str) -> (r: u64)
        requires
            self.wf(),
        ensures
            r == self.spec_total(address@),
    {
        let n = self.rows.len();
        let mut i: usize = 0;
        let mut found: u64 = 0;
        while i < n
            invariant
                i <= n,
                n == self.rows@.len(),
                self.wf(),
                found == total_amount_in(self.rows@.take(i as int), address@),
            decreases n - i,
        {
            proof {
                assert(self.rows@.take(i + 1).drop_last() =~= self.rows@.take(i as int));
                assert(self.rows@.take(i + 1).last() == self.rows@[i as int]);
            }
            if str_eq(self.rows[i].address.as_str(), address) {
                found = self.rows[i].total;
                proof {
                    lemma_total_unique_key_amount(self.rows@, i as int, address@);
                    assert(found == total_amount_in(self.rows@.take(i + 1), address@));
                }
            }
            i = i + 1;
        }
        proof {
            assert(self.rows@.take(n as int) =~= self.rows@);
        }
        found
    }
}

/// Updating a row's total, address unchanged, shifts the sum at that
/// address by the difference and leaves every other address alone.
proof fn lemma_total_update_amount(rows: Seq<TotalRow>, i: int, r: TotalRow, a: Seq<char>)
    requires
        0 <= i < rows.len(),
        r.address@ == rows[i].address@,
    ensures
        total_amount_in(rows.update(i, r), a) == total_amount_in(rows, a) + if a == r.address@ {
            r.total - rows[i].total
        } else {
            0
        },
{
    assert(rows =~= rows.take(i) + seq![rows[i]] + rows.skip(i + 1));
    assert(rows.update(i, r) =~= rows.take(i) + seq![r] + rows.skip(i + 1));
    lemma_total_amount_in_concat(rows.take(i) + seq![rows[i]], rows.skip(i + 1), a);
    lemma_total_amount_in_concat(rows.take(i), seq![rows[i]], a);
    lemma_total_amount_in_concat(rows.take(i) + seq![r], rows.skip(i + 1), a);
    lemma_total_amount_in_concat(rows.take(i), seq![r], a);
    assert(total_amount_in(Seq::<TotalRow>::empty(), a) == 0);
    assert(seq![rows[i]].drop_last() =~= Seq::<TotalRow>::empty());
    assert(seq![r].drop_last() =~= Seq::<TotalRow>::empty());
}

/// In a sorted row sequence the sum at any address is the single
/// matching row's total.
proof fn lemma_total_unique_key_amount(rows: Seq<TotalRow>, i: int, a: Seq<char>)
    requires
        0 <= i < rows.len(),
        rows[i].address@ == a,
        forall|p: int, q: int|
            0 <= p < q < rows.len() ==> seq_lt(
                (#[trigger] rows[p]).address@,
                (#[trigger] rows[q]).address@,
            ),
    ensures
        total_amount_in(rows, a) == rows[i].total as int,
        total_amount_in(rows.take(i + 1), a) == rows[i].total as int,
{
    assert forall|j: int| 0 <= j < rows.len() && j != i implies (#[trigger] rows[j]).address@
        != a by {
        lemma_seq_lt_irrefl(a);
    }
    assert(rows =~= rows.take(i) + seq![rows[i]] + rows.skip(i + 1));
    lemma_total_amount_in_concat(rows.take(i) + seq![rows[i]], rows.skip(i + 1), a);
    lemma_total_amount_in_concat(rows.take(i), seq![rows[i]], a);
    lemma_total_amount_in_zero(rows.take(i), a);
    lemma_total_amount_in_zero(rows.skip(i + 1), a);
    assert(total_amount_in(Seq::<TotalRow>::empty(), a) == 0);
    assert(seq![rows[i]].drop_last() =~= Seq::<TotalRow>::empty());
    assert(rows.take(i + 1) =~= rows.take(i) + seq![rows[i]]);
}

} // verus!
