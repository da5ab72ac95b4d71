use vstd::prelude::*;

verus! {

/// The keys that currently hold one value.
pub struct Bucket {
    /// The value that every key of the bucket maps to.
    pub value: String,
    /// The keys, oldest first.
    pub keys: Vec<String>,
}

/// Mathematical model of a [`Bucket`].
pub struct BucketView {
    pub value: Seq<char>,
    pub keys: Seq<Seq<char>>,
}

/// The character sequences of a run of strings, in order.
pub open spec fn texts(strings: Seq<String>) -> Seq<Seq<char>> {
    strings.map_values(|s: String| s@)
}

impl View for Bucket {
    type V = BucketView;

    open spec fn view(&self) -> BucketView {
        BucketView { value: self.value@, keys: texts(self.keys@) }
    }
}

/// The models of a run of buckets, in order.
pub open spec fn bucket_views(buckets: Seq<Bucket>) -> Seq<BucketView> {
    buckets.map_values(|b: Bucket| b@)
}

/// The values that the buckets stand for, in bucket order.
pub open spec fn bucket_values(buckets: Seq<BucketView>) -> Seq<Seq<char>> {
    buckets.map_values(|b: BucketView| b.value)
}

/// Where the bucket for `value` stands, if there is one.
pub open spec fn bucket_of(buckets: Seq<BucketView>, value: Seq<char>) -> Option<int> {
    bucket_values(buckets).index_of_first(value)
}

/// That `key` is one of the keys of the bucket at position `at`.
pub open spec fn holds(buckets: Seq<BucketView>, at: int, key: Seq<char>) -> bool {
    0 <= at < buckets.len() && buckets[at].keys.contains(key)
}

/// What every index that was built from events satisfies: no bucket is empty,
/// no value has two buckets, and no key occurs twice, neither within one
/// bucket nor in two of them.
pub open spec fn well_formed(buckets: Seq<BucketView>) -> bool {
    &&& forall|i: int| 0 <= i < buckets.len() ==> (#[trigger] buckets[i]).keys.len() > 0
    &&& forall|i: int| 0 <= i < buckets.len() ==> (#[trigger] buckets[i]).keys.no_duplicates()
    &&& forall|i: int, j: int|
        0 <= i < j < buckets.len() ==> (#[trigger] buckets[i]).value != (#[trigger] buckets[j]).value
    &&& forall|i: int, j: int, key: Seq<char>|
        #[trigger] holds(buckets, i, key) && #[trigger] holds(buckets, j, key) ==> i == j
}

} // verus!
