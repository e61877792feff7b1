//! The values a node still owes each neighbour.
//!
//! A node keeps one bucket per neighbour it has ever queued a value for. The
//! buckets stand in the order in which they were first needed; no neighbour
//! has two.
use crate::values::{copy_set, merge_into, missing_from, names};
use std::collections::HashSet;
use vstd::prelude::*;

verus! {

broadcast use vstd::std_specs::hash::group_hash_axioms;

/// The values waiting for one neighbour.
pub struct Bucket {
    pub neighbour: String,
    pub values: HashSet<usize>,
}

/// The mathematical value of a [`Bucket`].
pub ghost struct BucketView {
    pub neighbour: Seq<char>,
    pub values: Set<usize>,
}

impl View for Bucket {
    type V = BucketView;

    open spec fn view(&self) -> BucketView {
        BucketView { neighbour: self.neighbour@, values: self.values@ }
    }
}

/// No neighbour has two buckets.
pub open spec fn distinct_neighbours(buckets: Seq<BucketView>) -> bool {
    forall|i: int, j: int|
        0 <= i < j < buckets.len() ==> buckets[i].neighbour != buckets[j].neighbour
}

/// Whether bucket `i` of `buckets` is the one of `neighbour`.
pub open spec fn is_bucket_of(buckets: Seq<BucketView>, neighbour: Seq<char>, i: int) -> bool {
    0 <= i < buckets.len() && buckets[i].neighbour == neighbour
}

/// Where the bucket of `neighbour` stands, if it has one.
pub open spec fn position(buckets: Seq<BucketView>, neighbour: Seq<char>) -> Option<int> {
    if exists|i: int| is_bucket_of(buckets, neighbour, i) {
        Some(choose|i: int| is_bucket_of(buckets, neighbour, i))
    } else {
        None
    }
}

/// The values waiting for `neighbour`: those in its bucket, none if it has no
/// bucket.
pub open spec fn bucket_of(buckets: Seq<BucketView>, neighbour: Seq<char>) -> Set<usize> {
    match position(buckets, neighbour) {
        Some(i) => buckets[i].values,
        None => Set::empty(),
    }
}

/// `buckets` after `values` were queued for `neighbour`: its bucket grows by
/// them, and a neighbour without a bucket gets one at the end.
pub open spec fn add_to_bucket(
    buckets: Seq<BucketView>,
    neighbour: Seq<char>,
    values: Set<usize>,
) -> Seq<BucketView> {
    match position(buckets, neighbour) {
        Some(i) => buckets.update(
            i,
            BucketView { neighbour, values: buckets[i].values.union(values) },
        ),
        None => buckets.push(BucketView { neighbour, values }),
    }
}

/// `buckets` after `values` were queued for each of `targets`, in their order.
pub open spec fn enqueue(
    buckets: Seq<BucketView>,
    targets: Seq<Seq<char>>,
    values: Set<usize>,
) -> Seq<BucketView>
    decreases targets.len(),
{
    if targets.len() == 0 {
        buckets
    } else {
        add_to_bucket(enqueue(buckets, targets.drop_last(), values), targets.last(), values)
    }
}

/// `buckets` after `neighbour` confirmed that it holds `confirmed`: those
/// values leave its bucket, whatever else waits there stays.
pub open spec fn confirm(
    buckets: Seq<BucketView>,
    neighbour: Seq<char>,
    confirmed: Set<usize>,
) -> Seq<BucketView> {
    match position(buckets, neighbour) {
        Some(i) => buckets.update(
            i,
            BucketView { neighbour, values: buckets[i].values.difference(confirmed) },
        ),
        None => buckets,
    }
}

/// Whether a bucket has anything to send.
pub open spec fn has_values(bucket: BucketView) -> bool {
    !bucket.values.is_empty()
}

/// The buckets that have something to send, in their order.
pub open spec fn due(buckets: Seq<BucketView>) -> Seq<BucketView> {
    buckets.filter(|b: BucketView| has_values(b))
}

/// With distinct neighbours, the bucket of a neighbour stands where one finds
/// it.
pub proof fn lemma_position_found(buckets: Seq<BucketView>, neighbour: Seq<char>, i: int)
    requires
        distinct_neighbours(buckets),
        is_bucket_of(buckets, neighbour, i),
    ensures
        position(buckets, neighbour) == Some(i),
        bucket_of(buckets, neighbour) == buckets[i].values,
{
    let chosen = choose|k: int| is_bucket_of(buckets, neighbour, k);
    assert(is_bucket_of(buckets, neighbour, chosen));
    if chosen < i {
        assert(buckets[chosen].neighbour != buckets[i].neighbour);
    } else if i < chosen {
        assert(buckets[i].neighbour != buckets[chosen].neighbour);
    }
}

/// Queueing for one neighbour keeps the neighbours distinct, adds the values
/// to that neighbour's bucket and leaves every other bucket as it was.
pub proof fn lemma_add_to_bucket(
    buckets: Seq<BucketView>,
    neighbour: Seq<char>,
    values: Set<usize>,
    other: Seq<char>,
)
    requires
        distinct_neighbours(buckets),
    ensures
        distinct_neighbours(add_to_bucket(buckets, neighbour, values)),
        bucket_of(add_to_bucket(buckets, neighbour, values), neighbour) == bucket_of(
            buckets,
            neighbour,
        ).union(values),
        other != neighbour ==> bucket_of(add_to_bucket(buckets, neighbour, values), other)
            == bucket_of(buckets, other),
{
    let after = add_to_bucket(buckets, neighbour, values);
    match position(buckets, neighbour) {
        Some(i) => {
            assert(is_bucket_of(buckets, neighbour, i));
            assert(is_bucket_of(after, neighbour, i));
            assert forall|a: int, b: int| 0 <= a < b < after.len() implies after[a].neighbour
                != after[b].neighbour by {
                assert(buckets[a].neighbour != buckets[b].neighbour);
            }
            lemma_position_found(after, neighbour, i);
            lemma_position_found(buckets, neighbour, i);
        },
        None => {
            let last = buckets.len() as int;
            assert forall|a: int, b: int| 0 <= a < b < after.len() implies after[a].neighbour
                != after[b].neighbour by {
                if b == last {
                    assert(!is_bucket_of(buckets, neighbour, a));
                } else {
                    assert(buckets[a].neighbour != buckets[b].neighbour);
                }
            }
            assert(is_bucket_of(after, neighbour, last));
            lemma_position_found(after, neighbour, last);
            assert(Set::<usize>::empty().union(values) =~= values);
        },
    }
    if other != neighbour {
        lemma_same_elsewhere(buckets, after, other);
    }
}

/// Two bucket lists of distinct neighbours that hold the same buckets for
/// `neighbour` give it the same values.
pub proof fn lemma_same_elsewhere(
    before: Seq<BucketView>,
    after: Seq<BucketView>,
    neighbour: Seq<char>,
)
    requires
        distinct_neighbours(before),
        distinct_neighbours(after),
        before.len() <= after.len(),
        forall|i: int|
            0 <= i < before.len() ==> (before[i].neighbour == after[i].neighbour && (
            before[i].neighbour == neighbour ==> before[i] == after[i])),
        forall|i: int| before.len() <= i < after.len() ==> after[i].neighbour != neighbour,
    ensures
        bucket_of(after, neighbour) == bucket_of(before, neighbour),
{
    if exists|i: int| is_bucket_of(before, neighbour, i) {
        let i = choose|i: int| is_bucket_of(before, neighbour, i);
        assert(is_bucket_of(after, neighbour, i));
        lemma_position_found(before, neighbour, i);
        lemma_position_found(after, neighbour, i);
    } else {
        if exists|i: int| is_bucket_of(after, neighbour, i) {
            let i = choose|i: int| is_bucket_of(after, neighbour, i);
            assert(is_bucket_of(before, neighbour, i));
        }
    }
}

/// Every value in any of `buckets` is in `bound`.
pub open spec fn all_within(buckets: Seq<BucketView>, bound: Set<usize>) -> bool {
    forall|i: int| 0 <= i < buckets.len() ==> (#[trigger] buckets[i]).values.subset_of(bound)
}

/// Queueing values of `bound` keeps every bucket within `bound`.
pub proof fn lemma_add_to_bucket_within(
    buckets: Seq<BucketView>,
    neighbour: Seq<char>,
    values: Set<usize>,
    bound: Set<usize>,
)
    requires
        all_within(buckets, bound),
        values.subset_of(bound),
    ensures
        all_within(add_to_bucket(buckets, neighbour, values), bound),
{
    let after = add_to_bucket(buckets, neighbour, values);
    assert forall|i: int| 0 <= i < after.len() implies (#[trigger] after[i]).values.subset_of(
        bound,
    ) by {
        if i < buckets.len() {
            assert(buckets[i].values.subset_of(bound));
        }
    }
}

/// Queueing for several neighbours keeps the neighbours distinct, adds the
/// values to the bucket of each target and leaves every other bucket as it
/// was.
pub proof fn lemma_enqueue(
    buckets: Seq<BucketView>,
    targets: Seq<Seq<char>>,
    values: Set<usize>,
    neighbour: Seq<char>,
)
    requires
        distinct_neighbours(buckets),
    ensures
        distinct_neighbours(enqueue(buckets, targets, values)),
        targets.contains(neighbour) ==> bucket_of(enqueue(buckets, targets, values), neighbour)
            == bucket_of(buckets, neighbour).union(values),
        !targets.contains(neighbour) ==> bucket_of(enqueue(buckets, targets, values), neighbour)
            == bucket_of(buckets, neighbour),
    decreases targets.len(),
{
    if targets.len() > 0 {
        let front = targets.drop_last();
        let mid = enqueue(buckets, front, values);
        lemma_enqueue(buckets, front, values, neighbour);
        lemma_add_to_bucket(mid, targets.last(), values, neighbour);
        if front.contains(neighbour) {
            let k = choose|k: int| 0 <= k < front.len() && front[k] == neighbour;
            assert(targets[k] == neighbour);
        }
        if targets.contains(neighbour) && targets.last() != neighbour {
            let k = choose|k: int| 0 <= k < targets.len() && targets[k] == neighbour;
            assert(front[k] == neighbour);
        }
        if targets.last() == neighbour {
            assert(targets[targets.len() - 1] == neighbour);
            assert(bucket_of(buckets, neighbour).union(values).union(values) =~= bucket_of(
                buckets,
                neighbour,
            ).union(values));
        }
    }
}

/// Queueing values of `bound` for several neighbours keeps every bucket
/// within `bound`.
pub proof fn lemma_enqueue_within(
    buckets: Seq<BucketView>,
    targets: Seq<Seq<char>>,
    values: Set<usize>,
    bound: Set<usize>,
)
    requires
        all_within(buckets, bound),
        values.subset_of(bound),
    ensures
        all_within(enqueue(buckets, targets, values), bound),
    decreases targets.len(),
{
    if targets.len() > 0 {
        lemma_enqueue_within(buckets, targets.drop_last(), values, bound);
        lemma_add_to_bucket_within(
            enqueue(buckets, targets.drop_last(), values),
            targets.last(),
            values,
            bound,
        );
    }
}

/// A confirmation keeps the neighbours distinct and every bucket within its
/// bound, takes exactly the confirmed values out of that neighbour's bucket
/// and leaves every other bucket as it was.
pub proof fn lemma_confirm(
    buckets: Seq<BucketView>,
    neighbour: Seq<char>,
    confirmed: Set<usize>,
    bound: Set<usize>,
    other: Seq<char>,
)
    requires
        distinct_neighbours(buckets),
    ensures
        distinct_neighbours(confirm(buckets, neighbour, confirmed)),
        all_within(buckets, bound) ==> all_within(confirm(buckets, neighbour, confirmed), bound),
        bucket_of(confirm(buckets, neighbour, confirmed), neighbour) == bucket_of(
            buckets,
            neighbour,
        ).difference(confirmed),
        other != neighbour ==> bucket_of(confirm(buckets, neighbour, confirmed), other)
            == bucket_of(buckets, other),
{
    let after = confirm(buckets, neighbour, confirmed);
    assert forall|a: int, b: int| 0 <= a < b < after.len() implies after[a].neighbour
        != after[b].neighbour by {
        assert(buckets[a].neighbour != buckets[b].neighbour);
    }
    if all_within(buckets, bound) {
        assert forall|i: int| 0 <= i < after.len() implies (#[trigger] after[i]).values.subset_of(
            bound,
        ) by {
            assert(buckets[i].values.subset_of(bound));
        }
    }
    match position(buckets, neighbour) {
        Some(i) => {
            assert(is_bucket_of(buckets, neighbour, i));
            assert(is_bucket_of(after, neighbour, i));
            lemma_position_found(buckets, neighbour, i);
            lemma_position_found(after, neighbour, i);
        },
        None => {
            assert(Set::<usize>::empty().difference(confirmed) =~= Set::<usize>::empty());
        },
    }
    if other != neighbour {
        lemma_same_elsewhere(buckets, after, other);
    }
}

/// Walking the buckets front to back meets the due ones in the order of
/// `due`: the first `i + 1` buckets hold the due ones of the first `i`, and
/// bucket `i` after them if it has something to send.
pub proof fn lemma_due_step(buckets: Seq<BucketView>, i: int)
    requires
        0 <= i < buckets.len(),
    ensures
        due(buckets.take(i + 1)) == if has_values(buckets[i]) {
            due(buckets.take(i)).push(buckets[i])
        } else {
            due(buckets.take(i))
        },
        due(buckets.take(i + 1)).len() <= due(buckets).len(),
{
    assert(buckets.take(i + 1) =~= buckets.take(i).push(buckets[i]));
    buckets.take(i).lemma_filter_push(buckets[i], |b: BucketView| has_values(b));
    buckets.lemma_filter_take_len(|b: BucketView| has_values(b), i + 1);
}

/// Before the walk no due bucket has been met, after it all of them.
pub proof fn lemma_due_ends(buckets: Seq<BucketView>)
    ensures
        due(buckets.take(0)) == Seq::<BucketView>::empty(),
        due(buckets.take(buckets.len() as int)) == due(buckets),
{
    reveal(Seq::filter);
    assert(buckets.take(0) =~= Seq::<BucketView>::empty());
    assert(buckets.take(buckets.len() as int) =~= buckets);
}

/// The buckets of one node.
pub struct Pending {
    buckets: Vec<Bucket>,
}

impl View for Pending {
    type V = Seq<BucketView>;

    closed spec fn view(&self) -> Seq<BucketView> {
        Seq::new(self.buckets.len() as nat, |i: int| self.buckets[i]@)
    }
}

impl Pending {
    /// No neighbour has two buckets.
    pub open spec fn wf(&self) -> bool {
        distinct_neighbours(self@)
    }

    /// No buckets at all.
    pub fn new() -> (pending: Self)
        ensures
            pending@ == Seq::<BucketView>::empty(),
            pending.wf(),
    {
        let pending = Pending { buckets: Vec::new() };
        assert(pending@ =~= Seq::<BucketView>::empty());
        pending
    }

    /// The number of buckets.
    pub fn len(&self) -> (n: usize)
        ensures
            n == self@.len(),
    {
        self.buckets.len()
    }

    /// The neighbour that bucket `i` belongs to.
    pub fn neighbour(&self, i: usize) -> (name: &String)
        requires
            i < self@.len(),
        ensures
            name@ == self@[i as int].neighbour,
    {
        &self.buckets[i].neighbour
    }

    /// The values in bucket `i`.
    pub fn values(&self, i: usize) -> (values: &HashSet<usize>)
        requires
            i < self@.len(),
        ensures
            values@ == self@[i as int].values,
    {
        &self.buckets[i].values
    }

    /// The number of buckets that have something to send.
    pub fn due_count(&self) -> (n: usize)
        ensures
            n == due(self@).len(),
    {
        let mut n: usize = 0;
        let mut i: usize = 0;
        assert(self@.take(0) =~= Seq::<BucketView>::empty());
        proof {
            reveal(Seq::filter);
        }
        while i < self.buckets.len()
            invariant
                i <= self.buckets.len(),
                n <= i,
                n == due(self@.take(i as int)).len(),
            decreases self.buckets.len() - i,
        {
            proof {
                assert(self@.take(i + 1) =~= self@.take(i as int).push(self@[i as int]));
                self@.take(i as int).lemma_filter_push(
                    self@[i as int],
                    |b: BucketView| has_values(b),
                );
            }
            if !self.buckets[i].values.is_empty() {
                n += 1;
            }
            i += 1;
        }
        assert(self@.take(self@.len() as int) =~= self@);
        n
    }

    /// Where the bucket of `neighbour` stands, if it has one.
    pub fn find(&self, neighbour: &String) -> (at: Option<usize>)
        requires
            self.wf(),
        ensures
            match at {
                Some(i) => position(self@, neighbour@) == Some(i as int) && i < self@.len(),
                None => position(self@, neighbour@) is None,
            },
    {
        let mut i: usize = 0;
        while i < self.buckets.len()
            invariant
                self.wf(),
                i <= self.buckets.len(),
                forall|j: int| 0 <= j < i ==> !is_bucket_of(self@, neighbour@, j),
            decreases self.buckets.len() - i,
        {
            if self.buckets[i].neighbour == *neighbour {
                proof {
                    assert(is_bucket_of(self@, neighbour@, i as int));
                    lemma_position_found(self@, neighbour@, i as int);
                }
                return Some(i);
            }
            i += 1;
        }
        None
    }

    /// Queues `values` for `neighbour`.
    pub fn add(&mut self, neighbour: &String, values: &HashSet<usize>)
        requires
            old(self).wf(),
        ensures
            final(self).wf(),
            final(self)@ == add_to_bucket(old(self)@, neighbour@, values@),
    {
        proof {
            lemma_add_to_bucket(self@, neighbour@, values@, neighbour@);
        }
        match self.find(neighbour) {
            Some(i) => {
                merge_into(&mut self.buckets[i].values, values);
                assert(self@ =~= add_to_bucket(old(self)@, neighbour@, values@));
            },
            None => {
                let bucket = Bucket { neighbour: neighbour.clone(), values: copy_set(values) };
                self.buckets.push(bucket);
                assert(self@ =~= add_to_bucket(old(self)@, neighbour@, values@));
            },
        }
    }

    /// Queues `values` for each of `targets`.
    pub fn enqueue(&mut self, targets: &Vec<String>, values: &HashSet<usize>)
        requires
            old(self).wf(),
        ensures
            final(self).wf(),
            final(self)@ == enqueue(old(self)@, names(targets@), values@),
    {
        let mut i: usize = 0;
        assert(names(targets@).take(0) =~= Seq::<Seq<char>>::empty());
        while i < targets.len()
            invariant
                i <= targets.len(),
                self.wf(),
                self@ == enqueue(old(self)@, names(targets@).take(i as int), values@),
            decreases targets.len() - i,
        {
            proof {
                let upto = names(targets@).take(i + 1);
                assert(upto.drop_last() =~= names(targets@).take(i as int));
                assert(upto.last() == targets@[i as int]@);
            }
            self.add(&targets[i], values);
            i += 1;
        }
        assert(names(targets@).take(targets.len() as int) =~= names(targets@));
    }

    /// Takes the values that `neighbour` confirmed out of its bucket.
    pub fn confirm(&mut self, neighbour: &String, confirmed: &HashSet<usize>)
        requires
            old(self).wf(),
        ensures
            final(self).wf(),
            final(self)@ == confirm(old(self)@, neighbour@, confirmed@),
    {
        match self.find(neighbour) {
            Some(i) => {
                let rest = missing_from(&self.buckets[i].values, confirmed);
                self.buckets[i].values = rest;
                assert(self@ =~= confirm(old(self)@, neighbour@, confirmed@));
                assert forall|a: int, b: int| 0 <= a < b < self@.len() implies self@[a].neighbour
                    != self@[b].neighbour by {
                    assert(old(self)@[a].neighbour != old(self)@[b].neighbour);
                }
            },
            None => {},
        }
    }
}

} // verus!
