//! The aggregation tables.
//!
//! Each table is a vector of rows held strictly sorted by its key: the
//! mint table by `(height, address)`, the send table by `(from, to)`,
//! the totals table by address. Strict sortedness makes every key
//! unique and makes iteration order the report order. The value of a
//! table at a key is defined as the sum of the amounts of the matching
//! rows, which under sortedness is the single matching row's amount, or
//! zero.

use crate::order::{
    lemma_seq_lt_asym, lemma_seq_lt_irrefl, lemma_seq_lt_trans, lemma_seq_lt_trichotomy, seq_lt,
    str_eq, str_lt,
};
use vstd::prelude::*;

verus! {

/// Strict order on `(height, address)` keys: by height, then by
/// address.
pub open spec fn mint_key_lt(h1: u64, a1: Seq<char>, h2: u64, a2: Seq<char>) -> bool {
    h1 < h2 || (h1 == h2 && seq_lt(a1, a2))
}

/// Strict order on `(from, to)` keys: by sender, then by receiver.
pub open spec fn pair_key_lt(f1: Seq<char>, t1: Seq<char>, f2: Seq<char>, t2: Seq<char>) -> bool {
    seq_lt(f1, f2) || (f1 == f2 && seq_lt(t1, t2))
}

pub proof fn lemma_mint_key_lt_trans(
    h1: u64,
    a1: Seq<char>,
    h2: u64,
    a2: Seq<char>,
    h3: u64,
    a3: Seq<char>,
)
    requires
        mint_key_lt(h1, a1, h2, a2),
        mint_key_lt(h2, a2, h3, a3),
    ensures
        mint_key_lt(h1, a1, h3, a3),
{
    if h1 == h2 && h2 == h3 {
        lemma_seq_lt_trans(a1, a2, a3);
    }
}

pub proof fn lemma_mint_key_lt_trichotomy(h1: u64, a1: Seq<char>, h2: u64, a2: Seq<char>)
    ensures
        mint_key_lt(h1, a1, h2, a2) || mint_key_lt(h2, a2, h1, a1) || (h1 == h2 && a1 == a2),
        !(mint_key_lt(h1, a1, h2, a2) && mint_key_lt(h2, a2, h1, a1)),
        mint_key_lt(h1, a1, h2, a2) ==> !(h1 == h2 && a1 == a2),
{
    lemma_seq_lt_trichotomy(a1, a2);
    lemma_seq_lt_asym(a1, a2);
    lemma_seq_lt_irrefl(a1);
}

pub proof fn lemma_pair_key_lt_trans(
    f1: Seq<char>,
    t1: Seq<char>,
    f2: Seq<char>,
    t2: Seq<char>,
    f3: Seq<char>,
    t3: Seq<char>,
)
    requires
        pair_key_lt(f1, t1, f2, t2),
        pair_key_lt(f2, t2, f3, t3),
    ensures
        pair_key_lt(f1, t1, f3, t3),
{
    lemma_seq_lt_irrefl(f1);
    lemma_seq_lt_irrefl(f2);
    if f1 == f2 && f2 == f3 {
        lemma_seq_lt_trans(t1, t2, t3);
    } else if seq_lt(f1, f2) && seq_lt(f2, f3) {
        lemma_seq_lt_trans(f1, f2, f3);
    }
}

pub proof fn lemma_pair_key_lt_trichotomy(f1: Seq<char>, t1: Seq<char>, f2: Seq<char>, t2: Seq<char>)
    ensures
        pair_key_lt(f1, t1, f2, t2) || pair_key_lt(f2, t2, f1, t1) || (f1 == f2 && t1 == t2),
        !(pair_key_lt(f1, t1, f2, t2) && pair_key_lt(f2, t2, f1, t1)),
        pair_key_lt(f1, t1, f2, t2) ==> !(f1 == f2 && t1 == t2),
{
    lemma_seq_lt_trichotomy(f1, f2);
    lemma_seq_lt_asym(f1, f2);
    lemma_seq_lt_irrefl(f1);
    lemma_seq_lt_trichotomy(t1, t2);
    lemma_seq_lt_asym(t1, t2);
    lemma_seq_lt_irrefl(t1);
}

/// One mint table row: the accumulated amount minted to `address` at
/// duplicate height `height`.
#[derive(Debug)]
pub struct MintRow {
    pub height: u64,
    pub address: String,
    pub amount: u64,
}

/// Whether some row carries the key `(h, a)`.
pub open spec fn mint_has_key(rows: Seq<MintRow>, h: u64, a: Seq<char>) -> bool {
    exists|i: int| 0 <= i < rows.len() && (#[trigger] rows[i]).height == h && rows[i].address@ == a
}

/// The sum of the amounts of the rows matching `(h, a)`.
pub open spec fn mint_amount_in(rows: Seq<MintRow>, h: u64, a: Seq<char>) -> int
    decreases rows.len(),
{
    if rows.len() == 0 {
        0
    } else {
        mint_amount_in(rows.drop_last(), h, a) + if rows.last().height == h
            && rows.last().address@ == a {
            rows.last().amount as int
        } else {
            0
        }
    }
}

pub proof fn lemma_mint_amount_in_concat(s1: Seq<MintRow>, s2: Seq<MintRow>, h: u64, a: Seq<char>)
    ensures
        mint_amount_in(s1 + s2, h, a) == mint_amount_in(s1, h, a) + mint_amount_in(s2, h, a),
    decreases s2.len(),
{
    if s2.len() == 0 {
        assert(s1 + s2 =~= s1);
    } else {
        assert((s1 + s2).drop_last() =~= s1 + s2.drop_last());
        assert((s1 + s2).last() == s2.last());
        lemma_mint_amount_in_concat(s1, s2.drop_last(), h, a);
    }
}

pub proof fn lemma_mint_amount_in_zero(rows: Seq<MintRow>, h: u64, a: Seq<char>)
    requires
        forall|i: int|
            0 <= i < rows.len() ==> !((#[trigger] rows[i]).height == h && rows[i].address@ == a),
    ensures
        mint_amount_in(rows, h, a) == 0,
    decreases rows.len(),
{
    if rows.len() > 0 {
        lemma_mint_amount_in_zero(rows.drop_last(), h, a);
    }
}

/// The sum of the amounts of the rows whose address is `a` — the
/// address's total over all heights.
pub open spec fn mint_address_total(rows: Seq<MintRow>, a: Seq<char>) -> int
    decreases rows.len(),
{
    if rows.len() == 0 {
        0
    } else {
        mint_address_total(rows.drop_last(), a) + if rows.last().address@ == a {
            rows.last().amount as int
        } else {
            0
        }
    }
}

pub proof fn lemma_mint_address_total_concat(s1: Seq<MintRow>, s2: Seq<MintRow>, a: Seq<char>)
    ensures
        mint_address_total(s1 + s2, a) == mint_address_total(s1, a) + mint_address_total(s2, a),
    decreases s2.len(),
{
    if s2.len() == 0 {
        assert(s1 + s2 =~= s1);
    } else {
        assert((s1 + s2).drop_last() =~= s1 + s2.drop_last());
        assert((s1 + s2).last() == s2.last());
        lemma_mint_address_total_concat(s1, s2.drop_last(), a);
    }
}

/// Updating a row's amount, key unchanged, shifts the address's total
/// by the difference and leaves every other address's total alone.
proof fn lemma_mint_address_total_update(rows: Seq<MintRow>, i: int, r: MintRow, a: Seq<char>)
    requires
        0 <= i < rows.len(),
        r.address@ == rows[i].address@,
    ensures
        mint_address_total(rows.update(i, r), a) == mint_address_total(rows, a) + if a
            == r.address@ {
            r.amount - rows[i].amount
        } else {
            0
        },
{
    assert(rows =~= rows.take(i) + seq![rows[i]] + rows.skip(i + 1));
    assert(rows.update(i, r) =~= rows.take(i) + seq![r] + rows.skip(i + 1));
    lemma_mint_address_total_concat(rows.take(i) + seq![rows[i]], rows.skip(i + 1), a);
    lemma_mint_address_total_concat(rows.take(i), seq![rows[i]], a);
    lemma_mint_address_total_concat(rows.take(i) + seq![r], rows.skip(i + 1), a);
    lemma_mint_address_total_concat(rows.take(i), seq![r], a);
    assert(mint_address_total(Seq::<MintRow>::empty(), a) == 0);
    assert(seq![rows[i]].drop_last() =~= Seq::<MintRow>::empty());
    assert(seq![r].drop_last() =~= Seq::<MintRow>::empty());
}

/// The first position whose key is not below `(height, address)`.
#[verifier::loop_isolation(false)]
fn mint_find_pos(rows: &Vec<MintRow>, height: u64, address: &str) -> (i: usize)
    ensures
        i <= rows@.len(),
        forall|j: int|
            0 <= j < i ==> mint_key_lt(
                (#[trigger] rows@[j]).height,
                rows@[j].address@,
                height,
                address@,
            ),
        i < rows@.len() ==> !mint_key_lt(
            rows@[i as int].height,
            rows@[i as int].address@,
            height,
            address@,
        ),
{
    let n = rows.len();
    let mut i: usize = 0;
    while i < n
        invariant
            i <= n,
            n == rows@.len(),
            forall|j: int|
                0 <= j < i ==> mint_key_lt(
                    (#[trigger] rows@[j]).height,
                    rows@[j].address@,
                    height,
                    address@,
                ),
        decreases n - i,
    {
        let r = &rows[i];
        if r.height < height || (r.height == height && str_lt(r.address.as_str(), address)) {
            i = i + 1;
        } else {
            return i;
        }
    }
    i
}

/// The mint aggregation table: duplicate mint effects keyed by
/// `(height, address)`, rows strictly sorted by that key.
#[derive(Debug)]
pub struct TransposedMintTable {
    pub rows: Vec<MintRow>,
}

impl TransposedMintTable {
    /// Rows are strictly ascending by `(height, address)`; every key is
    /// unique.
    pub open spec fn wf(self) -> bool {
        forall|i: int, j: int|
            0 <= i < j < self.rows@.len() ==> mint_key_lt(
                (#[trigger] self.rows@[i]).height,
                self.rows@[i].address@,
                (#[trigger] self.rows@[j]).height,
                self.rows@[j].address@,
            )
    }

    /// The accumulated amount at `(h, a)`; zero where no row matches.
    pub open spec fn spec_amount(self, h: u64, a: Seq<char>) -> int {
        mint_amount_in(self.rows@, h, a)
    }

    /// Whether the table holds a row for `(h, a)`.
    pub open spec fn has_key(self, h: u64, a: Seq<char>) -> bool {
        mint_has_key(self.rows@, h, a)
    }

    /// An empty table.
    pub fn new() -> (r: TransposedMintTable)
        ensures
            r.wf(),
            r.rows@.len() == 0,
            forall|h: u64, a: Seq<char>| #[trigger] r.spec_amount(h, a) == 0,
    {
        TransposedMintTable { rows: Vec::new() }
    }

    /// Add `amount` at key `(height, address)`, inserting a row or
    /// adding into the existing one. Fails, leaving the table
    /// unchanged, exactly when the sum would not fit in 64 bits.
    #[verifier::loop_isolation(false)]
    pub fn add_amount(&mut self, height: u64, address: &str, amount: u64) -> (ok: bool)
        requires
            old(self).wf(),
        ensures
            final(self).wf(),
            ok == (old(self).spec_amount(height, address@) + amount <= u64::MAX),
            ok ==> forall|h: u64, a: Seq<char>|
                #[trigger] final(self).spec_amount(h, a) == old(self).spec_amount(h, a) + if h
                    == height && a == address@ {
                    amount as int
                } else {
                    0
                },
            ok ==> forall|h: u64, a: Seq<char>|
                #[trigger] final(self).has_key(h, a) <==> (old(self).has_key(h, a) || (h == height
                    && a == address@)),
            ok ==> forall|a: Seq<char>|
                #[trigger] mint_address_total(final(self).rows@, a) == mint_address_total(
                    old(self).rows@,
                    a,
                ) + if a == address@ {
                    amount as int
                } else {
                    0
                },
            !ok ==> *final(self) == *old(self),
    {
        let ghost key_a = address@;
        let n = self.rows.len();
        let i = mint_find_pos(&self.rows, height, address);
        proof {
            assert(self.rows@ =~= self.rows@.take(i as int) + self.rows@.skip(i as int));
            lemma_mint_amount_in_concat(
                self.rows@.take(i as int),
                self.rows@.skip(i as int),
                height,
                key_a,
            );
            assert forall|j: int| 0 <= j < i implies !((#[trigger] self.rows@[j]).height == height
                && self.rows@[j].address@ == key_a) by {
                lemma_mint_key_lt_trichotomy(self.rows@[j].height, self.rows@[j].address@, height, key_a);
            }
            lemma_mint_amount_in_zero(self.rows@.take(i as int), height, key_a);
        }
        let mut hit = false;
        if i < n {
            let r = &self.rows[i];
            if r.height == height && str_eq(r.address.as_str(), address) {
                hit = true;
            }
        }
        if hit {
            proof {
                assert(self.rows@.skip(i as int) =~= seq![self.rows@[i as int]] + self.rows@.skip(
                    i + 1,
                ));
                lemma_mint_amount_in_concat(
                    seq![self.rows@[i as int]],
                    self.rows@.skip(i + 1),
                    height,
                    key_a,
                );
                assert(mint_amount_in(Seq::<MintRow>::empty(), height, key_a) == 0);
                assert(seq![self.rows@[i as int]].drop_last() =~= Seq::<MintRow>::empty());
                assert(mint_amount_in(seq![self.rows@[i as int]], height, key_a)
                    == self.rows@[i as int].amount as int);
                assert forall|j: int| i < j < n implies !((#[trigger] self.rows@[j]).height
                    == height && self.rows@[j].address@ == key_a) by {
                    lemma_mint_key_lt_trichotomy(
                        self.rows@[j].height,
                        self.rows@[j].address@,
                        height,
                        key_a,
                    );
                }
                lemma_mint_amount_in_zero(self.rows@.skip(i + 1), height, key_a);
                assert(old(self).spec_amount(height, key_a) == self.rows@[i as int].amount as int);
            }
            let cur = self.rows[i].amount;
            let sum = match cur.checked_add(amount) {
                Some(v) => v,
                None => {
                    return false;
                },
            };
            let row = self.rows.remove(i);
            let new_row = MintRow { height: row.height, address: row.address, amount: sum };
            self.rows.insert(i, new_row);
            proof {
                let rows1 = old(self).rows@;
                let rows2 = self.rows@;
                assert(rows2 =~= rows1.update(i as int, rows2[i as int]));
                assert forall|h: u64, a: Seq<char>|
                    #[trigger] self.spec_amount(h, a) == old(self).spec_amount(h, a) + if h
                        == height && a == key_a {
                        amount as int
                    } else {
                        0
                    } by {
                    lemma_update_amount(rows1, i as int, rows2[i as int], h, a);
                }
                assert forall|p: int, q: int| 0 <= p < q < rows2.len() implies mint_key_lt(
                    (#[trigger] rows2[p]).height,
                    rows2[p].address@,
                    (#[trigger] rows2[q]).height,
                    rows2[q].address@,
                ) by {
                    assert(rows1[p].height == rows2[p].height && rows1[p].address@
                        == rows2[p].address@);
                    assert(rows1[q].height == rows2[q].height && rows1[q].address@
                        == rows2[q].address@);
                }
                assert forall|a2: Seq<char>|
                    #[trigger] mint_address_total(rows2, a2) == mint_address_total(rows1, a2)
                        + if a2 == key_a {
                        amount as int
                    } else {
                        0
                    } by {
                    lemma_mint_address_total_update(rows1, i as int, rows2[i as int], a2);
                }
                assert forall|h2: u64, a2: Seq<char>|
                    #[trigger] self.has_key(h2, a2) <==> (old(self).has_key(h2, a2) || (h2
                        == height && a2 == key_a)) by {
                    if mint_has_key(rows2, h2, a2) {
                        let j = choose|j: int|
                            0 <= j < rows2.len() && (#[trigger] rows2[j]).height == h2
                                && rows2[j].address@ == a2;
                        assert(rows1[j].height == h2 && rows1[j].address@ == a2);
                    }
                    if mint_has_key(rows1, h2, a2) {
                        let j = choose|j: int|
                            0 <= j < rows1.len() && (#[trigger] rows1[j]).height == h2
                                && rows1[j].address@ == a2;
                        assert(rows2[j].height == h2 && rows2[j].address@ == a2);
                    }
                    if h2 == height && a2 == key_a {
                        assert(rows2[i as int].height == h2 && rows2[i as int].address@ == a2);
                    }
                }
            }
            true
        } else {
            proof {
                if i < n {
                    lemma_mint_key_lt_trichotomy(
                        self.rows@[i as int].height,
                        self.rows@[i as int].address@,
                        height,
                        key_a,
                    );
                    assert(mint_key_lt(height, key_a, self.rows@[i as int].height, self.rows@[i as int].address@));
                }
                assert forall|j: int| i <= j < n implies mint_key_lt(
                    height,
                    key_a,
                    (#[trigger] self.rows@[j]).height,
                    self.rows@[j].address@,
                ) by {
                    if j > i {
                        lemma_mint_key_lt_trans(
                            height,
                            key_a,
                            self.rows@[i as int].height,
                            self.rows@[i as int].address@,
                            self.rows@[j].height,
                            self.rows@[j].address@,
                        );
                    }
                }
                assert forall|j: int| i <= j < n implies !((#[trigger] self.rows@[j]).height
                    == height && self.rows@[j].address@ == key_a) by {
                    lemma_mint_key_lt_trichotomy(
                        height,
                        key_a,
                        self.rows@[j].height,
                        self.rows@[j].address@,
                    );
                }
                lemma_mint_amount_in_zero(self.rows@.skip(i as int), height, key_a);
                assert(old(self).spec_amount(height, key_a) == 0);
            }
            let new_row = MintRow { height, address: address.to_owned(), amount };
            self.rows.insert(i, new_row);
            proof {
                let rows1 = old(self).rows@;
                let rows2 = self.rows@;
                assert(rows2 =~= rows1.take(i as int) + seq![rows2[i as int]] + rows1.skip(
                    i as int,
                ));
                assert forall|h: u64, a: Seq<char>|
                    #[trigger] self.spec_amount(h, a) == old(self).spec_amount(h, a) + if h
                        == height && a == key_a {
                        amount as int
                    } else {
                        0
                    } by {
                    lemma_mint_amount_in_concat(
                        rows1.take(i as int) + seq![rows2[i as int]],
                        rows1.skip(i as int),
                        h,
                        a,
                    );
                    lemma_mint_amount_in_concat(rows1.take(i as int), seq![rows2[i as int]], h, a);
                    lemma_mint_amount_in_concat(rows1.take(i as int), rows1.skip(i as int), h, a);
                    assert(mint_amount_in(Seq::<MintRow>::empty(), h, a) == 0);
                    assert(seq![rows2[i as int]].drop_last() =~= Seq::<MintRow>::empty());
                    assert(rows1 =~= rows1.take(i as int) + rows1.skip(i as int));
                }
                assert forall|p: int, q: int| 0 <= p < q < rows2.len() implies mint_key_lt(
                    (#[trigger] rows2[p]).height,
                    rows2[p].address@,
                    (#[trigger] rows2[q]).height,
                    rows2[q].address@,
                ) by {
                    lemma_sorted_insert_mint(rows1, rows2, i as int, height, key_a, p, q);
                }
                assert(rows2[i as int].height == height && rows2[i as int].address@ == key_a);
                assert forall|a2: Seq<char>|
                    #[trigger] mint_address_total(rows2, a2) == mint_address_total(rows1, a2)
                        + if a2 == key_a {
                        amount as int
                    } else {
                        0
                    } by {
                    lemma_mint_address_total_concat(
                        rows1.take(i as int) + seq![rows2[i as int]],
                        rows1.skip(i as int),
                        a2,
                    );
                    lemma_mint_address_total_concat(rows1.take(i as int), seq![rows2[i as int]], a2);
                    lemma_mint_address_total_concat(rows1.take(i as int), rows1.skip(i as int), a2);
                    assert(mint_address_total(Seq::<MintRow>::empty(), a2) == 0);
                    assert(seq![rows2[i as int]].drop_last() =~= Seq::<MintRow>::empty());
                    assert(rows1 =~= rows1.take(i as int) + rows1.skip(i as int));
                }
                assert forall|h2: u64, a2: Seq<char>|
                    #[trigger] self.has_key(h2, a2) <==> (old(self).has_key(h2, a2) || (h2
                        == height && a2 == key_a)) by {
                    if mint_has_key(rows2, h2, a2) {
                        let j = choose|j: int|
                            0 <= j < rows2.len() && (#[trigger] rows2[j]).height == h2
                                && rows2[j].address@ == a2;
                        if j < i {
                            assert(rows1[j].height == h2 && rows1[j].address@ == a2);
                        } else if j > i {
                            assert(rows1[j - 1].height == h2 && rows1[j - 1].address@ == a2);
                        }
                    }
                    if mint_has_key(rows1, h2, a2) {
                        let j = choose|j: int|
                            0 <= j < rows1.len() && (#[trigger] rows1[j]).height == h2
                                && rows1[j].address@ == a2;
                        if j < i {
                            assert(rows2[j].height == h2 && rows2[j].address@ == a2);
                        } else {
                            assert(rows2[j + 1].height == h2 && rows2[j + 1].address@ == a2);
                        }
                    }
                }
            }
            true
        }
    }

    /// Look the accumulated amount up; zero where the key is absent.
    #[verifier::loop_isolation(false)]
    pub fn amount_of(&self, height: u64, address: &str) -> (r: u64)
        requires
            self.wf(),
        ensures
            r == self.spec_amount(height, address@),
    {
        let n = self.rows.len();
        let mut i: usize = 0;
        let mut found: u64 = 0;
        while i < n
            invariant
                i <= n,
                n == self.rows@.len(),
                self.wf(),
                found == mint_amount_in(self.rows@.take(i as int), height, address@),
            decreases n - i,
        {
            proof {
                assert(self.rows@.take(i + 1).drop_last() =~= self.rows@.take(i as int));
                assert(self.rows@.take(i + 1).last() == self.rows@[i as int]);
            }
            let r = &self.rows[i];
            if r.height == height && str_eq(r.address.as_str(), address) {
                proof {
                    lemma_mint_amount_bounded(self.rows@, height, address@);
                }
                found = r.amount;
                proof {
                    lemma_unique_key_amount(self.rows@, i as int, height, address@);
                    assert(found == mint_amount_in(self.rows@.take(i + 1), height, address@));
                }
            }
            i = i + 1;
        }
        proof {
            assert(self.rows@.take(n as int) =~= self.rows@);
        }
        found
    }
}

/// Updating a row's amount, key unchanged, shifts the sum at that key
/// by the difference and leaves every other key's sum alone.
proof fn lemma_update_amount(rows: Seq<MintRow>, i: int, r: MintRow, h: u64, a: Seq<char>)
    requires
        0 <= i < rows.len(),
        r.height == rows[i].height,
        r.address@ == rows[i].address@,
    ensures
        mint_amount_in(rows.update(i, r), h, a) == mint_amount_in(rows, h, a) + if h == r.height
            && a == r.address@ {
            r.amount - rows[i].amount
        } else {
            0
        },
{
    let rows2 = rows.update(i, r);
    assert(rows =~= rows.take(i) + seq![rows[i]] + rows.skip(i + 1));
    assert(rows2 =~= rows.take(i) + seq![r] + rows.skip(i + 1));
    lemma_mint_amount_in_concat(rows.take(i) + seq![rows[i]], rows.skip(i + 1), h, a);
    lemma_mint_amount_in_concat(rows.take(i), seq![rows[i]], h, a);
    lemma_mint_amount_in_concat(rows.take(i) + seq![r], rows.skip(i + 1), h, a);
    lemma_mint_amount_in_concat(rows.take(i), seq![r], h, a);
    assert(mint_amount_in(Seq::<MintRow>::empty(), h, a) == 0);
    assert(seq![rows[i]].drop_last() =~= Seq::<MintRow>::empty());
    assert(seq![r].drop_last() =~= Seq::<MintRow>::empty());
}

/// In a sorted row sequence the sum at any key is the single matching
/// row's amount.
proof fn lemma_unique_key_amount(rows: Seq<MintRow>, i: int, h: u64, a: Seq<char>)
    requires
        0 <= i < rows.len(),
        rows[i].height == h,
        rows[i].address@ == a,
        forall|p: int, q: int|
            0 <= p < q < rows.len() ==> mint_key_lt(
                (#[trigger] rows[p]).height,
                rows[p].address@,
                (#[trigger] rows[q]).height,
                rows[q].address@,
            ),
    ensures
        mint_amount_in(rows, h, a) == rows[i].amount as int,
        mint_amount_in(rows.take(i + 1), h, a) == rows[i].amount as int,
{
    assert forall|j: int| 0 <= j < rows.len() && j != i implies !((#[trigger] rows[j]).height == h
        && rows[j].address@ == a) by {
        if j < i {
            lemma_mint_key_lt_trichotomy(rows[j].height, rows[j].address@, h, a);
        } else {
            lemma_mint_key_lt_trichotomy(h, a, rows[j].height, rows[j].address@);
        }
    }
    assert(rows =~= rows.take(i) + seq![rows[i]] + rows.skip(i + 1));
    lemma_mint_amount_in_concat(rows.take(i) + seq![rows[i]], rows.skip(i + 1), h, a);
    lemma_mint_amount_in_concat(rows.take(i), seq![rows[i]], h, a);
    lemma_mint_amount_in_zero(rows.take(i), h, a);
    lemma_mint_amount_in_zero(rows.skip(i + 1), h, a);
    assert(mint_amount_in(Seq::<MintRow>::empty(), h, a) == 0);
    assert(seq![rows[i]].drop_last() =~= Seq::<MintRow>::empty());
    assert(rows.take(i + 1) =~= rows.take(i) + seq![rows[i]]);
}

/// The sum at a key is never negative.
proof fn lemma_mint_amount_bounded(rows: Seq<MintRow>, h: u64, a: Seq<char>)
    ensures
        mint_amount_in(rows, h, a) >= 0,
    decreases rows.len(),
{
    if rows.len() > 0 {
        lemma_mint_amount_bounded(rows.drop_last(), h, a);
    }
}

/// Under well-formedness every accumulated amount is the single
/// matching row's, so it fits in 64 bits.
pub proof fn lemma_mint_table_range(tbl: TransposedMintTable)
    requires
        tbl.wf(),
    ensures
        forall|h: u64, a: Seq<char>| 0 <= #[trigger] tbl.spec_amount(h, a) <= u64::MAX,
{
    assert forall|h: u64, a: Seq<char>| 0 <= #[trigger] tbl.spec_amount(h, a) <= u64::MAX by {
        if exists|i: int|
            0 <= i < tbl.rows@.len() && (#[trigger] tbl.rows@[i]).height == h
                && tbl.rows@[i].address@ == a {
            let i = choose|i: int|
                0 <= i < tbl.rows@.len() && (#[trigger] tbl.rows@[i]).height == h
                    && tbl.rows@[i].address@ == a;
            lemma_unique_key_amount(tbl.rows@, i, h, a);
        } else {
            lemma_mint_amount_in_zero(tbl.rows@, h, a);
        }
    }
}

/// Inserting a row whose key lies strictly between its neighbours keeps
/// the sequence sorted.
proof fn lemma_sorted_insert_mint(
    rows1: Seq<MintRow>,
    rows2: Seq<MintRow>,
    i: int,
    height: u64,
    key_a: Seq<char>,
    p: int,
    q: int,
)
    requires
        0 <= i <= rows1.len(),
        rows2.len() == rows1.len() + 1,
        forall|j: int| 0 <= j < i ==> rows2[j] == rows1[j],
        rows2[i].height == height && rows2[i].address@ == key_a,
        forall|j: int| i <= j < rows1.len() ==> rows2[j + 1] == rows1[j],
        forall|j: int|
            0 <= j < i ==> mint_key_lt(
                (#[trigger] rows1[j]).height,
                rows1[j].address@,
                height,
                key_a,
            ),
        forall|j: int|
            i <= j < rows1.len() ==> mint_key_lt(
                height,
                key_a,
                (#[trigger] rows1[j]).height,
                rows1[j].address@,
            ),
        forall|p0: int, q0: int|
            0 <= p0 < q0 < rows1.len() ==> mint_key_lt(
                (#[trigger] rows1[p0]).height,
                rows1[p0].address@,
                (#[trigger] rows1[q0]).height,
                rows1[q0].address@,
            ),
        0 <= p < q < rows2.len(),
    ensures
        mint_key_lt(rows2[p].height, rows2[p].address@, rows2[q].height, rows2[q].address@),
{
    if q < i {
        assert(rows2[p] == rows1[p]);
        assert(rows2[q] == rows1[q]);
    } else if p < i && q == i {
        assert(rows2[p] == rows1[p]);
        assert(mint_key_lt(rows1[p].height, rows1[p].address@, height, key_a));
    } else if p < i && q > i {
        assert(rows2[p] == rows1[p]);
        assert(rows2[q] == rows1[q - 1]);
        lemma_mint_key_lt_trans(
            rows1[p].height,
            rows1[p].address@,
            height,
            key_a,
            rows1[q - 1].height,
            rows1[q - 1].address@,
        );
    } else if p == i {
        assert(rows2[q] == rows1[q - 1]);
        assert(mint_key_lt(height, key_a, rows1[q - 1].height, rows1[q - 1].address@));
    } else {
        assert(rows2[p] == rows1[p - 1]);
        assert(rows2[q] == rows1[q - 1]);
    }
}

} // verus!
