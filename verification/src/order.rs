//! The chronological order of a batch: ascending by timestamp, then by
//! sequence number, with rows that tie kept in the order they arrived in.

use crate::timestamp::Timestamp;
use vstd::prelude::*;

verus! {

/// What a row is ordered by. A missing timestamp or sequence number sorts
/// before every present one.
#[derive(Clone, Copy, Debug, PartialEq, Eq)]
pub struct SortKey {
    pub timestamp: Option<Timestamp>,
    pub sequence_number: Option<i64>,
}

/// Place of a timestamp on the number line, with "missing" below all others.
pub open spec fn timestamp_rank(t: Option<Timestamp>) -> int {
    match t {
        None => i64::MIN - 1,
        Some(stamp) => stamp.seconds as int,
    }
}

/// Place of a sequence number on the number line, with "missing" below all
/// others.
pub open spec fn number_rank(n: Option<i64>) -> int {
    match n {
        None => i64::MIN - 1,
        Some(value) => value as int,
    }
}

impl SortKey {
    /// Strictly earlier: a smaller timestamp, or the same timestamp and a
    /// smaller sequence number.
    pub open spec fn before(self, other: SortKey) -> bool {
        ||| timestamp_rank(self.timestamp) < timestamp_rank(other.timestamp)
        ||| (timestamp_rank(self.timestamp) == timestamp_rank(other.timestamp) && number_rank(
            self.sequence_number,
        ) < number_rank(other.sequence_number))
    }

    /// Neither key is before the other.
    pub open spec fn ties_with(self, other: SortKey) -> bool {
        !self.before(other) && !other.before(self)
    }

    /// Decides whether this key is strictly earlier than another.
    pub fn is_before(&self, other: &SortKey) -> (earlier: bool)
        ensures
            earlier == self.before(*other),
    {
        let by_time = match (self.timestamp, other.timestamp) {
            (None, None) => 0u8,
            (None, Some(_)) => 1u8,
            (Some(_), None) => 2u8,
            (Some(a), Some(b)) => if a.seconds < b.seconds {
                1u8
            } else if a.seconds > b.seconds {
                2u8
            } else {
                0u8
            },
        };
        if by_time == 1 {
            true
        } else if by_time == 2 {
            false
        } else {
            match (self.sequence_number, other.sequence_number) {
                (None, None) => false,
                (None, Some(_)) => true,
                (Some(_), None) => false,
                (Some(a), Some(b)) => a < b,
            }
        }
    }
}

/// Row `i` goes ahead of row `j`: its key is earlier, or the keys tie and it
/// arrived first.
pub open spec fn comes_before(keys: Seq<SortKey>, i: int, j: int) -> bool {
    keys[i].before(keys[j]) || (keys[i].ties_with(keys[j]) && i < j)
}

/// `order` lists the first `n` rows, each once, so that every row listed
/// earlier goes ahead of every row listed later.
pub open spec fn orders_first(keys: Seq<SortKey>, n: int, order: Seq<int>) -> bool {
    &&& 0 <= n <= keys.len()
    &&& order.len() == n
    &&& forall|i: int| 0 <= i < n ==> 0 <= #[trigger] order[i] < n
    &&& forall|i: int, j: int|
        0 <= i < j < n ==> comes_before(keys, #[trigger] order[i], #[trigger] order[j])
}

/// `order` is the stable ascending order of the rows with these keys:
/// `order[p]` is the arrival index of the row that ends up in place `p`.
pub open spec fn is_stable_order(keys: Seq<SortKey>, order: Seq<int>) -> bool {
    orders_first(keys, keys.len() as int, order)
}

/// The stable ascending order of the rows with these keys.
pub open spec fn stable_order_of(keys: Seq<SortKey>) -> Seq<int> {
    choose|order: Seq<int>| is_stable_order(keys, order)
}

/// The identity order: every row stays in its place.
pub open spec fn identity_order(n: nat) -> Seq<int> {
    Seq::new(n, |i: int| i)
}

/// The keys are already in ascending order.
pub open spec fn is_ascending(keys: Seq<SortKey>) -> bool {
    forall|i: int, j: int| 0 <= i < j < keys.len() ==> !(#[trigger] keys[j]).before(#[trigger] keys[i])
}

/// Arrival indices as mathematical integers.
pub open spec fn positions(order: Seq<usize>) -> Seq<int> {
    order.map_values(|k: usize| k as int)
}

/// An order lists no row twice and leaves none out.
pub proof fn lemma_order_lists_every_row(keys: Seq<SortKey>, n: int, order: Seq<int>)
    requires
        orders_first(keys, n, order),
    ensures
        order.no_duplicates(),
        forall|row: int| 0 <= row < n ==> order.contains(row),
{
    assert forall|i: int, j: int| 0 <= i < order.len() && 0 <= j < order.len() && i != j implies order[i]
        != order[j] by {
        if i < j {
            assert(comes_before(keys, order[i], order[j]));
        } else {
            assert(comes_before(keys, order[j], order[i]));
        }
    }
    let listed = order.to_set();
    let all = vstd::set_lib::set_int_range(0, n);
    order.unique_seq_to_set();
    vstd::set_lib::lemma_int_range(0, n);
    assert(listed.subset_of(all)) by {
        assert forall|row: int| listed.contains(row) implies all.contains(row) by {
            let p = choose|p: int| 0 <= p < order.len() && order[p] == row;
            assert(0 <= order[p] < n);
        }
    }
    vstd::set_lib::lemma_len_subset(listed, all);
    vstd::set_lib::lemma_subset_equality(listed, all);
    assert forall|row: int| 0 <= row < n implies order.contains(row) by {
        assert(all.contains(row));
        assert(listed.contains(row));
    }
}

/// Two orders of the same rows agree on their first `upto` places.
proof fn lemma_orders_agree(keys: Seq<SortKey>, n: int, a: Seq<int>, b: Seq<int>, upto: int)
    requires
        orders_first(keys, n, a),
        orders_first(keys, n, b),
        0 <= upto <= n,
    ensures
        forall|p: int| 0 <= p < upto ==> a[p] == b[p],
    decreases upto,
{
    if upto > 0 {
        let m = upto - 1;
        lemma_orders_agree(keys, n, a, b, m);
        lemma_order_lists_every_row(keys, n, a);
        lemma_order_lists_every_row(keys, n, b);
        let in_a = a[m];
        let in_b = b[m];
        assert(0 <= in_a < n && 0 <= in_b < n);
        assert(b.contains(in_a));
        assert(a.contains(in_b));
        let j = choose|j: int| 0 <= j < b.len() && b[j] == in_a;
        let k = choose|k: int| 0 <= k < a.len() && a[k] == in_b;
        if j < m {
            assert(a[j] == b[j]);
            assert(a[j] == a[m]);
        }
        if k < m {
            assert(a[k] == b[k]);
            assert(b[k] == b[m]);
        }
        if j > m {
            assert(comes_before(keys, b[m], b[j]));
            if k > m {
                assert(comes_before(keys, a[m], a[k]));
            }
        }
    }
}

/// The stable order of a batch is unique.
pub proof fn lemma_stable_order_unique(keys: Seq<SortKey>, a: Seq<int>, b: Seq<int>)
    requires
        is_stable_order(keys, a),
        is_stable_order(keys, b),
    ensures
        a == b,
{
    lemma_orders_agree(keys, keys.len() as int, a, b, keys.len() as int);
    assert(a =~= b);
}

/// Where row `n` belongs among the first `n` rows, already in order: behind
/// the last row that it does not precede.
proof fn lemma_insertion_place(keys: Seq<SortKey>, n: int, order: Seq<int>, upper: int) -> (place: int)
    requires
        orders_first(keys, n, order),
        n < keys.len(),
        0 <= upper <= n,
        forall|p: int| upper <= p < n ==> keys[n].before(keys[#[trigger] order[p]]),
    ensures
        0 <= place <= n,
        forall|p: int| place <= p < n ==> keys[n].before(keys[#[trigger] order[p]]),
        place > 0 ==> !keys[n].before(keys[order[place - 1]]),
    decreases upper,
{
    if upper == 0 || !keys[n].before(keys[order[upper - 1]]) {
        upper
    } else {
        lemma_insertion_place(keys, n, order, upper - 1)
    }
}

/// Putting row `n` into its place keeps the order.
pub proof fn lemma_insert_keeps_order(keys: Seq<SortKey>, n: int, order: Seq<int>, place: int)
    requires
        orders_first(keys, n, order),
        n < keys.len(),
        0 <= place <= n,
        forall|p: int| place <= p < n ==> keys[n].before(keys[#[trigger] order[p]]),
        place > 0 ==> !keys[n].before(keys[order[place - 1]]),
    ensures
        orders_first(keys, n + 1, order.insert(place, n)),
{
    let grown = order.insert(place, n);
    assert(grown.len() == n + 1);
    assert forall|i: int| 0 <= i < n + 1 implies 0 <= #[trigger] grown[i] < n + 1 by {
        if i < place {
            assert(grown[i] == order[i]);
        } else if i > place {
            assert(grown[i] == order[i - 1]);
        }
    }
    assert forall|i: int, j: int| 0 <= i < j < n + 1 implies comes_before(
        keys,
        #[trigger] grown[i],
        #[trigger] grown[j],
    ) by {
        if j < place {
            assert(grown[i] == order[i] && grown[j] == order[j]);
        } else if j == place {
            assert(grown[i] == order[i] && grown[j] == n);
            assert(0 <= order[i] < n);
            if i < place - 1 {
                assert(comes_before(keys, order[i], order[place - 1]));
            }
        } else if i < place {
            assert(grown[i] == order[i] && grown[j] == order[j - 1]);
        } else if i == place {
            assert(grown[i] == n && grown[j] == order[j - 1]);
        } else {
            assert(grown[i] == order[i - 1] && grown[j] == order[j - 1]);
        }
    }
}

/// Builds an order of the first `n` rows, one row at a time.
proof fn lemma_build_order(keys: Seq<SortKey>, n: int) -> (order: Seq<int>)
    requires
        0 <= n <= keys.len(),
    ensures
        orders_first(keys, n, order),
    decreases n,
{
    if n == 0 {
        Seq::empty()
    } else {
        let shorter = lemma_build_order(keys, n - 1);
        let place = lemma_insertion_place(keys, n - 1, shorter, n - 1);
        lemma_insert_keeps_order(keys, n - 1, shorter, place);
        shorter.insert(place, n - 1)
    }
}

/// Every batch has a stable order, and `stable_order_of` is that order.
pub proof fn lemma_stable_order_exists(keys: Seq<SortKey>)
    ensures
        is_stable_order(keys, stable_order_of(keys)),
{
    let order = lemma_build_order(keys, keys.len() as int);
    assert(is_stable_order(keys, order));
}

/// A batch whose keys already ascend is left as it is.
pub proof fn lemma_ascending_stays(keys: Seq<SortKey>)
    requires
        is_ascending(keys),
    ensures
        stable_order_of(keys) == identity_order(keys.len()),
{
    let same = identity_order(keys.len());
    assert(is_stable_order(keys, same));
    lemma_stable_order_exists(keys);
    lemma_stable_order_unique(keys, stable_order_of(keys), same);
}

/// After ordering, the keys ascend.
pub proof fn lemma_ordered_keys_ascend(keys: Seq<SortKey>, order: Seq<int>)
    requires
        is_stable_order(keys, order),
    ensures
        is_ascending(Seq::new(keys.len(), |p: int| keys[order[p]])),
{
    let sorted = Seq::new(keys.len(), |p: int| keys[order[p]]);
    assert forall|i: int, j: int| 0 <= i < j < sorted.len() implies !(#[trigger] sorted[j]).before(
        #[trigger] sorted[i],
    ) by {
        assert(comes_before(keys, order[i], order[j]));
    }
}

/// Rows that tie keep the order in which they arrived.
pub proof fn lemma_ties_keep_arrival_order(keys: Seq<SortKey>, order: Seq<int>, p: int, q: int)
    requires
        is_stable_order(keys, order),
        0 <= p < q < order.len(),
        keys[order[p]].ties_with(keys[order[q]]),
    ensures
        order[p] < order[q],
{
    assert(comes_before(keys, order[p], order[q]));
}

/// Computes the stable ascending order of a batch from its keys.
///
/// The result names, place by place, the arrival index of the row that
/// belongs there: each row once, earlier keys first, ties in arrival order.
pub fn stable_order(keys: &Vec<SortKey>) -> (order: Vec<usize>)
    ensures
        is_stable_order(keys@, positions(order@)),
        positions(order@) == stable_order_of(keys@),
        order@.len() == keys@.len(),
        forall|p: int| 0 <= p < order@.len() ==> (#[trigger] order@[p]) < keys@.len(),
{
    let mut order: Vec<usize> = Vec::new();
    let mut next: usize = 0;
    while next < keys.len()
        invariant
            next <= keys.len(),
            orders_first(keys@, next as int, positions(order@)),
        decreases keys.len() - next,
    {
        assert forall|p: int| 0 <= p < order@.len() implies (#[trigger] order@[p]) < next by {
            assert(positions(order@)[p] == order@[p] as int);
        }
        let mut place: usize = order.len();
        while place > 0 && keys[next].is_before(&keys[order[place - 1]])
            invariant
                next < keys.len(),
                place <= order.len(),
                orders_first(keys@, next as int, positions(order@)),
                forall|p: int| 0 <= p < order@.len() ==> (#[trigger] order@[p]) < next,
                forall|p: int|
                    place <= p < next ==> keys@[next as int].before(
                        keys@[#[trigger] positions(order@)[p]],
                    ),
            decreases place,
        {
            place -= 1;
        }
        proof {
            lemma_insert_keeps_order(keys@, next as int, positions(order@), place as int);
            assert(positions(order@.insert(place as int, next)) =~= positions(order@).insert(
                place as int,
                next as int,
            ));
        }
        order.insert(place, next);
        next += 1;
    }
    proof {
        lemma_stable_order_exists(keys@);
        lemma_stable_order_unique(keys@, positions(order@), stable_order_of(keys@));
        assert forall|p: int| 0 <= p < order@.len() implies (#[trigger] order@[p]) < keys@.len() by {
            assert(positions(order@)[p] == order@[p] as int);
        }
    }
    order
}

} // verus!
