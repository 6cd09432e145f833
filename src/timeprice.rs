//! A store of prices by time, queried for the mean price over a time range.

use vstd::prelude::*;
use std::collections::BTreeMap;
use vstd::std_specs::iter::IteratorSpec;

verus! {

broadcast use vstd::std_specs::btree::group_btree_axioms, vstd::laws_cmp::group_laws_cmp;

/// The sum of the prices of `entries` whose time lies in `[min, max]`.
pub open spec fn range_sum(entries: Seq<(i32, i32)>, min: i32, max: i32) -> int
    decreases entries.len(),
{
    if entries.len() == 0 {
        0
    } else {
        let e = entries.last();
        range_sum(entries.drop_last(), min, max) + if min <= e.0 <= max {
            e.1 as int
        } else {
            0
        }
    }
}

/// The number of `entries` whose time lies in `[min, max]`.
pub open spec fn range_count(entries: Seq<(i32, i32)>, min: i32, max: i32) -> nat
    decreases entries.len(),
{
    if entries.len() == 0 {
        0
    } else {
        let e = entries.last();
        range_count(entries.drop_last(), min, max) + if min <= e.0 <= max {
            1nat
        } else {
            0nat
        }
    }
}

/// The mean price of `entries` over `[min, max]`, rounded toward zero; zero
/// when no time lies in the range.
pub open spec fn range_mean(entries: Seq<(i32, i32)>, min: i32, max: i32) -> int {
    let n = range_count(entries, min, max) as int;
    let s = range_sum(entries, min, max);
    if n == 0 {
        0
    } else if s >= 0 {
        s / n
    } else {
        -((-s) / n)
    }
}

/// Whether `s` lists the entries of `m`, each once.
pub open spec fn lists(s: Seq<(i32, i32)>, m: Map<i32, i32>) -> bool {
    s.no_duplicates() && s.to_set() == m.kv_pairs()
}

/// Prices by time.
pub struct Db(BTreeMap<i32, i32>);

impl Db {
    /// The prices by time.
    pub closed spec fn prices(self) -> Map<i32, i32> {
        self.0@
    }

    /// Records `price` at `time`, replacing any price at that time.
    pub fn insert(&mut self, time: i32, price: i32)
        ensures
            final(self).prices() == old(self).prices().insert(time, price),
    {
        self.0.insert(time, price);
    }

    /// The mean price over the times from `min` to `max`, both included,
    /// rounded toward zero; zero when there is none.
    pub fn query(&self, min: i32, max: i32) -> (r: i32)
        ensures
            exists|s: Seq<(i32, i32)>| lists(s, self.prices()) && r == range_mean(s, min, max),
    {
        let mut sum: i128 = 0;
        let mut count: i128 = 0;
        let n = self.0.len();
        let ghost mut all: Seq<(i32, i32)> = Seq::empty();
        for kv in it: self.0.iter()
            invariant
                lists(it.seq().unref(), self.prices()),
                it.index() == it.seq().len() ==> all =~= it.seq().unref(),
                all == it.seq().unref().subrange(
                    0,
                    it.index() as int,
                ),
                sum == range_sum(all, min, max),
                count == range_count(all, min, max),
                0 <= count <= it.index(),
                count * i32::MIN <= sum <= count * i32::MAX,
                it.seq().len() == n,
                n <= usize::MAX,
        {
            let (k, v) = kv;
            proof {
                let i = it.index() as int;
                assert(it.seq()[i] == (k, v));
                let ghost prev = all;
                all = all.push((*k, *v));
                let whole = it.seq().unref();
                assert(all =~= whole.subrange(0, i + 1));
                if i + 1 == whole.len() {
                    assert(all =~= whole);
                }
                assert(all.drop_last() =~= prev);
            }
            if min <= *k && *k <= max {
                sum = sum + *v as i128;
                count = count + 1;
            }
        }
        assert(lists(all, self.prices()));
        if count == 0 {
            0
        } else if sum >= 0 {
            assert(sum / count <= i32::MAX) by (nonlinear_arith)
                requires
                    count > 0,
                    sum >= 0,
                    sum <= count * i32::MAX,
            ;
            (sum / count) as i32
        } else {
            assert((-sum) as int / count as int <= 2147483648) by (nonlinear_arith)
                requires
                    count > 0,
                    sum < 0,
                    count * i32::MIN <= sum,
            ;
            -((-sum) / count) as i32
        }
    }
}

impl Default for Db {
    fn default() -> (r: Db)
        ensures
            r.prices() == Map::<i32, i32>::empty(),
    {
        Db(BTreeMap::new())
    }
}

} // verus!
