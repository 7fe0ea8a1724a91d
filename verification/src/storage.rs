//! The storage engine: an authoritative bucket registry and, per bucket,
//! the set of object metadata records it owns.
//!
//! The registry enforces that bucket names are unique, that a bucket can
//! be deleted only while it owns no objects, that keys are unique within
//! a bucket, and that every record names its owning bucket.  Each bucket's
//! records are kept sorted ascending by key, which is the order the
//! listing engine serves.
//!
//! Every mutating operation takes the engine by `&mut`, so the borrow
//! rules serialize it against every other operation: a race of two
//! creators of one name, or of an object insert against a bucket delete,
//! resolves to whichever call runs first, and the other sees the
//! documented error.

use vstd::prelude::*;

use crate::entities::{Bucket, ObjectRecord};
use crate::error::StorageErr;
use crate::order::{lex_lt, str_eq, str_lt};
use crate::sys::{current_time_millis, MAX_TIMESTAMP_MILLIS};

verus! {

/// Whether some record in `objs` has key `k`.
pub open spec fn objs_has_key(objs: Seq<ObjectRecord>, k: Seq<char>) -> bool {
    exists|j: int| 0 <= j < objs.len() && (#[trigger] objs[j]).key@ == k
}

/// The index of the record keyed `k`; meaningful only when
/// `objs_has_key(objs, k)` holds.
pub open spec fn objs_key_idx(objs: Seq<ObjectRecord>, k: Seq<char>) -> int {
    choose|j: int| 0 <= j < objs.len() && (#[trigger] objs[j]).key@ == k
}

/// The records left when the one keyed `k`, if any, is removed.
pub open spec fn remove_key(objs: Seq<ObjectRecord>, k: Seq<char>) -> Seq<ObjectRecord> {
    if objs_has_key(objs, k) {
        objs.remove(objs_key_idx(objs, k))
    } else {
        objs
    }
}

/// The records left after the keys of `keys` are deleted one at a time,
/// in order, each against the state the previous deletions left.
pub open spec fn batch_delete_objs(objs: Seq<ObjectRecord>, keys: Seq<Seq<char>>) -> Seq<
    ObjectRecord,
>
    decreases keys.len(),
{
    if keys.len() == 0 {
        objs
    } else {
        remove_key(batch_delete_objs(objs, keys.drop_last()), keys.last())
    }
}

/// The per-key outcomes of the same batch, in input order: a key found at
/// its turn is deleted and reports `Ok`, a key absent at its turn reports
/// `ObjectNotFound`, and neither outcome disturbs the others.
pub open spec fn batch_delete_results(objs: Seq<ObjectRecord>, keys: Seq<Seq<char>>) -> Seq<
    Result<(), StorageErr>,
>
    decreases keys.len(),
{
    if keys.len() == 0 {
        Seq::empty()
    } else {
        batch_delete_results(objs, keys.drop_last()).push(
            if objs_has_key(batch_delete_objs(objs, keys.drop_last()), keys.last()) {
                Ok(())
            } else {
                Err(StorageErr::ObjectNotFound)
            },
        )
    }
}

/// The records of `objs` with `rec` set under its key: an existing record
/// with the same key is replaced in place, any other key is inserted at
/// its sorted position.
pub open spec fn upsert_obj(objs: Seq<ObjectRecord>, rec: ObjectRecord) -> Seq<ObjectRecord>
    decreases objs.len(),
{
    if objs.len() == 0 {
        seq![rec]
    } else if rec.key@ == objs[0].key@ {
        seq![rec] + objs.drop_first()
    } else if lex_lt(rec.key@, objs[0].key@) {
        seq![rec] + objs
    } else {
        seq![objs[0]] + upsert_obj(objs.drop_first(), rec)
    }
}

/// Upserting passes over every record whose key sorts before the new one.
proof fn lemma_upsert_split(objs: Seq<ObjectRecord>, rec: ObjectRecord, p: int)
    requires
        0 <= p <= objs.len(),
        forall|m: int| 0 <= m < p ==> lex_lt((#[trigger] objs[m]).key@, rec.key@),
    ensures
        upsert_obj(objs, rec) == objs.take(p) + upsert_obj(objs.skip(p), rec),
    decreases p,
{
    if p == 0 {
        assert(objs.skip(0) =~= objs);
        assert(objs.take(0) + upsert_obj(objs, rec) =~= upsert_obj(objs, rec));
    } else {
        assert(lex_lt(objs[0].key@, rec.key@));
        crate::order::lemma_lex_lt_asymmetric(objs[0].key@, rec.key@);
        crate::order::lemma_lex_lt_irreflexive(rec.key@);
        assert(rec.key@ != objs[0].key@);
        assert(upsert_obj(objs, rec) == seq![objs[0]] + upsert_obj(objs.drop_first(), rec));
        assert forall|m: int| 0 <= m < p - 1 implies lex_lt(
            (#[trigger] objs.drop_first()[m]).key@,
            rec.key@,
        ) by {
            assert(objs.drop_first()[m] == objs[m + 1]);
        }
        lemma_upsert_split(objs.drop_first(), rec, p - 1);
        assert(objs.drop_first().skip(p - 1) =~= objs.skip(p));
        assert(seq![objs[0]] + (objs.drop_first().take(p - 1) + upsert_obj(objs.skip(p), rec))
            =~= objs.take(p) + upsert_obj(objs.skip(p), rec));
    }
}

/// The view of an optional owned string.
pub open spec fn opt_string_view(s: Option<String>) -> Option<Seq<char>> {
    match s {
        Some(x) => Some(x@),
        None => None,
    }
}

/// What a create call leaves of the registry: on a fresh name a bucket
/// owning no objects is appended, named as asked, with the given region
/// or the fixed default, dated within the clock's range; an existing
/// name fails `BucketAlreadyExists` and changes nothing.
pub open spec fn create_outcome(
    pre: StorageProvider,
    post: StorageProvider,
    name: Seq<char>,
    region: Option<Seq<char>>,
    r: Result<(), StorageErr>,
) -> bool {
    &&& (pre.has_bucket(name) ==> (r matches Err(e) && e matches StorageErr::BucketAlreadyExists)
        && post == pre)
    &&& (!pre.has_bucket(name) ==> (r matches Ok(())) && {
        &&& post.buckets@.len() == pre.buckets@.len() + 1
        &&& post.buckets@.drop_last() == pre.buckets@
        &&& post.buckets@.last().info.name@ == name
        &&& post.buckets@.last().info.region@ == (match region {
            Some(rg) => rg,
            None => default_region(),
        })
        &&& 0 <= post.buckets@.last().info.creation_date <= MAX_TIMESTAMP_MILLIS
        &&& post.buckets@.last().objects@.len() == 0
    })
}

/// What a delete-bucket call leaves of the registry: an unknown name
/// fails `BucketNotFound` and a bucket still owning objects fails
/// `BucketNotEmpty`, in both cases changing nothing; an empty bucket
/// leaves the registry, the others keeping their places.
pub open spec fn delete_bucket_outcome(
    pre: StorageProvider,
    post: StorageProvider,
    name: Seq<char>,
    r: Result<(), StorageErr>,
) -> bool {
    &&& (!pre.has_bucket(name) ==> (r matches Err(e) && e matches StorageErr::BucketNotFound)
        && post == pre)
    &&& (pre.has_bucket(name) && pre.buckets@[pre.bucket_idx(name)].objects@.len() > 0 ==> (
    r matches Err(e) && e matches StorageErr::BucketNotEmpty) && post == pre)
    &&& (pre.has_bucket(name) && pre.buckets@[pre.bucket_idx(name)].objects@.len() == 0 ==> (
    r matches Ok(())) && post.buckets@ == pre.buckets@.remove(pre.bucket_idx(name)))
}

/// What a delete-object call leaves of the registry: an unknown bucket
/// fails `BucketNotFound` and an unknown key fails `ObjectNotFound`, in
/// both cases changing nothing; otherwise exactly that record leaves its
/// bucket, every other bucket standing unchanged.
pub open spec fn delete_object_outcome(
    pre: StorageProvider,
    post: StorageProvider,
    bucket_name: Seq<char>,
    key: Seq<char>,
    r: Result<(), StorageErr>,
) -> bool {
    &&& (!pre.has_bucket(bucket_name) ==> r == Result::<(), StorageErr>::Err(
        StorageErr::BucketNotFound,
    ) && post == pre)
    &&& (pre.has_bucket(bucket_name) && !pre.buckets@[pre.bucket_idx(bucket_name)].has_key(key)
        ==> r == Result::<(), StorageErr>::Err(StorageErr::ObjectNotFound) && post == pre)
    &&& (pre.has_bucket(bucket_name) && pre.buckets@[pre.bucket_idx(bucket_name)].has_key(key)
        ==> r == Result::<(), StorageErr>::Ok(()) && {
        let i = pre.bucket_idx(bucket_name);
        let j = pre.buckets@[i].key_idx(key);
        &&& post.buckets@.len() == pre.buckets@.len()
        &&& (forall|m: int|
            0 <= m < pre.buckets@.len() && m != i ==> #[trigger] post.buckets@[m]
                == pre.buckets@[m])
        &&& post.buckets@[i].info == pre.buckets@[i].info
        &&& post.buckets@[i].objects@ == pre.buckets@[i].objects@.remove(j)
    })
}

/// What a put call leaves of the registry: an unknown bucket fails
/// `BucketNotFound` and changes nothing; otherwise the record is upserted
/// into its bucket, every other bucket standing unchanged.
pub open spec fn put_record_outcome(
    pre: StorageProvider,
    post: StorageProvider,
    record: ObjectRecord,
    r: Result<(), StorageErr>,
) -> bool {
    &&& (!pre.has_bucket(record.bucket_name@) ==> (r matches Err(e) && e matches
        StorageErr::BucketNotFound) && post == pre)
    &&& (pre.has_bucket(record.bucket_name@) ==> (r matches Ok(())) && {
        let i = pre.bucket_idx(record.bucket_name@);
        &&& post.buckets@.len() == pre.buckets@.len()
        &&& (forall|m: int|
            0 <= m < pre.buckets@.len() && m != i ==> #[trigger] post.buckets@[m]
                == pre.buckets@[m])
        &&& post.buckets@[i].info == pre.buckets@[i].info
        &&& post.buckets@[i].objects@ == upsert_obj(pre.buckets@[i].objects@, record)
    })
}

/// What a batch delete leaves of the registry: one outcome per key in
/// input order; an unknown bucket reports `BucketNotFound` for every key
/// and changes nothing; otherwise the keys are deleted in order against
/// the bucket, every other bucket standing unchanged.
pub open spec fn delete_objects_outcome(
    pre: StorageProvider,
    post: StorageProvider,
    bucket_name: Seq<char>,
    keys: Seq<Seq<char>>,
    r: Seq<Result<(), StorageErr>>,
) -> bool {
    &&& r.len() == keys.len()
    &&& (!pre.has_bucket(bucket_name) ==> post == pre && (forall|m: int|
        0 <= m < r.len() ==> (#[trigger] r[m]) matches Err(StorageErr::BucketNotFound)))
    &&& (pre.has_bucket(bucket_name) ==> {
        let i = pre.bucket_idx(bucket_name);
        &&& post.buckets@.len() == pre.buckets@.len()
        &&& (forall|m: int|
            0 <= m < pre.buckets@.len() && m != i ==> #[trigger] post.buckets@[m]
                == pre.buckets@[m])
        &&& post.buckets@[i].info == pre.buckets@[i].info
        &&& post.buckets@[i].objects@ == batch_delete_objs(pre.buckets@[i].objects@, keys)
        &&& r == batch_delete_results(pre.buckets@[i].objects@, keys)
    })
}

/// A bucket together with the object metadata records it owns.
#[derive(Debug)]
pub struct StoredBucket {
    pub info: Bucket,
    /// Sorted ascending by key; keys are unique.
    pub objects: Vec<ObjectRecord>,
}

/// The storage engine: every bucket, each with its objects.
#[derive(Debug)]
pub struct StorageProvider {
    pub buckets: Vec<StoredBucket>,
}

impl StoredBucket {
    /// Records are strictly sorted by key (hence keys are unique), every
    /// record names this bucket as its owner, and the creation date lies
    /// in the range the calendar formatter accepts.
    pub open spec fn wf(&self) -> bool {
        &&& 0 <= self.info.creation_date <= MAX_TIMESTAMP_MILLIS
        &&& (forall|i: int, j: int|
            0 <= i < j < self.objects@.len() ==> lex_lt(
                (#[trigger] self.objects@[i]).key@,
                (#[trigger] self.objects@[j]).key@,
            ))
        &&& (forall|i: int|
            0 <= i < self.objects@.len() ==> (#[trigger] self.objects@[i]).bucket_name@
                == self.info.name@)
    }

    /// Whether some record in this bucket has key `k`.
    pub open spec fn has_key(&self, k: Seq<char>) -> bool {
        objs_has_key(self.objects@, k)
    }

    /// The index of the record with key `k`; meaningful only when
    /// `has_key(k)` holds, and then unique because keys are.
    pub open spec fn key_idx(&self, k: Seq<char>) -> int {
        objs_key_idx(self.objects@, k)
    }

    /// The position of the record with key `key`, if the bucket holds one.
    fn find_key(&self, key: &str) -> (r: Option<usize>)
        requires
            self.wf(),
        ensures
            match r {
                Some(j) => j < self.objects@.len() && self.objects@[j as int].key@ == key@
                    && self.has_key(key@) && self.key_idx(key@) == j,
                None => !self.has_key(key@),
            },
    {
        let n = self.objects.len();
        let mut j: usize = 0;
        while j < n
            invariant
                self.wf(),
                n == self.objects@.len(),
                j <= n,
                forall|m: int| 0 <= m < j ==> (#[trigger] self.objects@[m]).key@ != key@,
            decreases n - j,
        {
            if str_eq(self.objects[j].key.as_str(), key) {
                proof {
                    self.lemma_key_idx_is(j as int, key@);
                }
                return Some(j);
            }
            j += 1;
        }
        None
    }

    /// In a well-formed bucket the index of a key is the only one bearing it.
    pub proof fn lemma_key_idx_is(&self, j: int, k: Seq<char>)
        requires
            self.wf(),
            0 <= j < self.objects@.len(),
            self.objects@[j].key@ == k,
        ensures
            self.has_key(k),
            self.key_idx(k) == j,
    {
        assert(self.has_key(k));
        let j2 = self.key_idx(k);
        if j2 < j {
            assert(lex_lt(self.objects@[j2].key@, self.objects@[j].key@));
            crate::order::lemma_lex_lt_irreflexive(k);
        } else if j < j2 {
            assert(lex_lt(self.objects@[j].key@, self.objects@[j2].key@));
            crate::order::lemma_lex_lt_irreflexive(k);
        }
    }
}

impl StorageProvider {
    /// Bucket names are unique across the registry, and every bucket is
    /// itself well-formed.
    pub open spec fn wf(&self) -> bool {
        &&& (forall|i: int, j: int|
            0 <= i < j < self.buckets@.len() ==> (#[trigger] self.buckets@[i]).info.name@ != (
            #[trigger] self.buckets@[j]).info.name@)
        &&& (forall|i: int| 0 <= i < self.buckets@.len() ==> (#[trigger] self.buckets@[i]).wf())
    }

    /// Whether a bucket named `n` is registered.
    pub open spec fn has_bucket(&self, n: Seq<char>) -> bool {
        exists|i: int| 0 <= i < self.buckets@.len() && (#[trigger] self.buckets@[i]).info.name@ == n
    }

    /// How many buckets are registered.
    pub open spec fn bucket_count(&self) -> nat {
        self.buckets@.len()
    }

    /// The index of the bucket named `n`; meaningful only when
    /// `has_bucket(n)` holds, and then unique because names are.
    pub open spec fn bucket_idx(&self, n: Seq<char>) -> int {
        choose|i: int|
            0 <= i < self.buckets@.len() && (#[trigger] self.buckets@[i]).info.name@ == n
    }

    /// In a well-formed registry the index of a name is the only one bearing it.
    pub proof fn lemma_bucket_idx_is(&self, i: int, n: Seq<char>)
        requires
            self.wf(),
            0 <= i < self.buckets@.len(),
            self.buckets@[i].info.name@ == n,
        ensures
            self.has_bucket(n),
            self.bucket_idx(n) == i,
    {
        assert(self.has_bucket(n));
        let i2 = self.bucket_idx(n);
        if i2 < i {
            assert(self.buckets@[i2].info.name@ != self.buckets@[i].info.name@);
        } else if i < i2 {
            assert(self.buckets@[i].info.name@ != self.buckets@[i2].info.name@);
        }
    }

    /// A fresh registry holding no buckets.
    pub fn new() -> (r: StorageProvider)
        ensures
            r.wf(),
            r.bucket_count() == 0,
    {
        StorageProvider { buckets: Vec::new() }
    }

    /// The position of the bucket named `name`, if one is registered.
    pub(crate) fn find_bucket(&self, name: &str) -> (r: Option<usize>)
        requires
            self.wf(),
        ensures
            match r {
                Some(i) => i < self.buckets@.len() && self.buckets@[i as int].info.name@ == name@
                    && self.has_bucket(name@) && self.bucket_idx(name@) == i,
                None => !self.has_bucket(name@),
            },
    {
        let n = self.buckets.len();
        let mut i: usize = 0;
        while i < n
            invariant
                self.wf(),
                n == self.buckets@.len(),
                i <= n,
                forall|m: int| 0 <= m < i ==> (#[trigger] self.buckets@[m]).info.name@ != name@,
            decreases n - i,
        {
            if str_eq(self.buckets[i].info.name.as_str(), name) {
                proof {
                    self.lemma_bucket_idx_is(i as int, name@);
                }
                return Some(i);
            }
            i += 1;
        }
        None
    }

    /// Returns every registered bucket.
    ///
    /// The in-memory engine has no backend that could become unavailable,
    /// so this always succeeds; the `Result` is the shape callers share
    /// with engines that can fail with an I/O kind.
    pub fn list_buckets(&self) -> (r: Result<Vec<Bucket>, StorageErr>)
        requires
            self.wf(),
        ensures
            r matches Ok(list) && list@.len() == self.buckets@.len(),
            r matches Ok(list) ==> forall|i: int|
                0 <= i < list@.len() ==> #[trigger] list@[i] == self.buckets@[i].info,
    {
        let n = self.buckets.len();
        let mut out: Vec<Bucket> = Vec::new();
        let mut i: usize = 0;
        while i < n
            invariant
                n == self.buckets@.len(),
                i <= n,
                out@.len() == i,
                forall|m: int| 0 <= m < i ==> #[trigger] out@[m] == self.buckets@[m].info,
            decreases n - i,
        {
            let b = &self.buckets[i].info;
            out.push(Bucket { name: b.name.clone(), region: b.region.clone(), creation_date: b.creation_date });
            i += 1;
        }
        Ok(out)
    }

    /// Checks that a bucket named `name` is registered; no side effect.
    pub fn head_bucket(&self, name: &str) -> (r: Result<(), StorageErr>)
        requires
            self.wf(),
        ensures
            r matches Ok(()) <==> self.has_bucket(name@),
            r matches Err(e) ==> e matches StorageErr::BucketNotFound,
    {
        match self.find_bucket(name) {
            Some(_) => Ok(()),
            None => Err(StorageErr::BucketNotFound),
        }
    }

    /// Registers a bucket named `name` with the given creation date.
    ///
    /// Fails with `BucketAlreadyExists`, changing nothing, exactly when the
    /// name is already registered; otherwise appends a bucket with no
    /// objects, whose region is the given one or the fixed default.
    pub fn create_bucket_at(
        &mut self,
        name: &str,
        region: Option<String>,
        creation_date: i64,
    ) -> (r: Result<(), StorageErr>)
        requires
            old(self).wf(),
            0 <= creation_date <= MAX_TIMESTAMP_MILLIS,
        ensures
            final(self).wf(),
            create_outcome(*old(self), *final(self), name@, opt_string_view(region), r),
            !old(self).has_bucket(name@) ==> final(self).buckets@.last().info.creation_date
                == creation_date,
    {
        match self.find_bucket(name) {
            Some(_) => Err(StorageErr::BucketAlreadyExists),
            None => {
                let region_value = match region {
                    Some(reg) => reg,
                    None => "Europe".to_owned(),
                };
                let entry = StoredBucket {
                    info: Bucket {
                        name: name.to_owned(),
                        region: region_value,
                        creation_date,
                    },
                    objects: Vec::new(),
                };
                self.buckets.push(entry);
                proof {
                    assert(self.buckets@.drop_last() =~= old(self).buckets@);
                    assert forall|i: int, j: int|
                        0 <= i < j < self.buckets@.len() implies (#[trigger] self.buckets@[i]).info.name@
                        != (#[trigger] self.buckets@[j]).info.name@ by {
                        if j == self.buckets@.len() - 1 {
                            assert(old(self).buckets@[i].info.name@ != name@);
                        }
                    }
                }
                Ok(())
            },
        }
    }

    /// Registers a bucket named `name`, dated with the current clock
    /// reading.  Success and failure, and everything about the new bucket
    /// except the exact clock value, are as for [`Self::create_bucket_at`].
    pub fn create_bucket(&mut self, name: &str, region: Option<String>) -> (r: Result<
        (),
        StorageErr,
    >)
        requires
            old(self).wf(),
        ensures
            final(self).wf(),
            create_outcome(*old(self), *final(self), name@, opt_string_view(region), r),
    {
        let now = current_time_millis();
        self.create_bucket_at(name, region, now)
    }

    /// Removes the bucket named `name`.
    ///
    /// Fails with `BucketNotFound` when no such bucket is registered and
    /// with `BucketNotEmpty` while the bucket still owns objects; in both
    /// cases nothing changes.  Otherwise the bucket leaves the registry.
    pub fn delete_bucket(&mut self, name: &str) -> (r: Result<(), StorageErr>)
        requires
            old(self).wf(),
        ensures
            final(self).wf(),
            delete_bucket_outcome(*old(self), *final(self), name@, r),
    {
        match self.find_bucket(name) {
            None => Err(StorageErr::BucketNotFound),
            Some(i) => {
                if self.buckets[i].objects.len() > 0 {
                    Err(StorageErr::BucketNotEmpty)
                } else {
                    self.buckets.remove(i);
                    proof {
                        assert forall|p: int, q: int|
                            0 <= p < q < self.buckets@.len() implies (
                            #[trigger] self.buckets@[p]).info.name@ != (
                            #[trigger] self.buckets@[q]).info.name@ by {
                            let p0: int = if p < i { p } else { p + 1 };
                            let q0: int = if q < i { q } else { q + 1 };
                            assert(self.buckets@[p] == old(self).buckets@[p0]);
                            assert(self.buckets@[q] == old(self).buckets@[q0]);
                        }
                        assert forall|p: int| 0 <= p < self.buckets@.len() implies (
                        #[trigger] self.buckets@[p]).wf() by {
                            let p0: int = if p < i { p } else { p + 1 };
                            assert(self.buckets@[p] == old(self).buckets@[p0]);
                        }
                    }
                    Ok(())
                }
            },
        }
    }

    /// Removes the record with key `key` from the bucket named `bucket_name`.
    ///
    /// Fails with `BucketNotFound` when the bucket is absent and with
    /// `ObjectNotFound` when the bucket holds no such key; in both cases
    /// nothing changes.  Otherwise exactly that record leaves the bucket;
    /// the referenced blob is not touched by this layer.
    pub fn delete_object(&mut self, bucket_name: &str, key: &str) -> (r: Result<(), StorageErr>)
        requires
            old(self).wf(),
        ensures
            final(self).wf(),
            delete_object_outcome(*old(self), *final(self), bucket_name@, key@, r),
    {
        match self.find_bucket(bucket_name) {
            None => Err(StorageErr::BucketNotFound),
            Some(i) => {
                match self.buckets[i].find_key(key) {
                    None => Err(StorageErr::ObjectNotFound),
                    Some(j) => {
                        let entry = &mut self.buckets[i];
                        entry.objects.remove(j);
                        proof {
                            let pre = old(self).buckets@[i as int];
                            let post = self.buckets@[i as int];
                            assert forall|p: int, q: int|
                                0 <= p < q < post.objects@.len() implies lex_lt(
                                (#[trigger] post.objects@[p]).key@,
                                (#[trigger] post.objects@[q]).key@,
                            ) by {
                                let p0: int = if p < j { p } else { p + 1 };
                                let q0: int = if q < j { q } else { q + 1 };
                                assert(post.objects@[p] == pre.objects@[p0]);
                                assert(post.objects@[q] == pre.objects@[q0]);
                            }
                            assert forall|p: int| 0 <= p < post.objects@.len() implies (
                            #[trigger] post.objects@[p]).bucket_name@ == post.info.name@ by {
                                let p0: int = if p < j { p } else { p + 1 };
                                assert(post.objects@[p] == pre.objects@[p0]);
                            }
                            assert(post.wf());
                            assert forall|m: int|
                                0 <= m < self.buckets@.len() implies (
                            #[trigger] self.buckets@[m]).wf() by {
                                if m != i {
                                    assert(self.buckets@[m] == old(self).buckets@[m]);
                                }
                            }
                        }
                        Ok(())
                    },
                }
            },
        }
    }
    /// Deletes each key of `objects` from the bucket named `bucket_name`,
    /// one at a time in input order, each key independently of the others.
    ///
    /// The result holds one outcome per input key, at the key's own
    /// position: `Ok` where the key was found (and its record removed),
    /// `Err(ObjectNotFound)` where it was not, and `Err(BucketNotFound)`
    /// for every key when the bucket itself is absent.
    pub fn delete_objects(&mut self, bucket_name: &str, objects: Vec<String>) -> (r: Vec<
        Result<(), StorageErr>,
    >)
        requires
            old(self).wf(),
        ensures
            final(self).wf(),
            delete_objects_outcome(
                *old(self),
                *final(self),
                bucket_name@,
                objects@.map_values(|s: String| s@),
                r@,
            ),
    {
        let count = objects.len();
        let mut results: Vec<Result<(), StorageErr>> = Vec::new();
        let ghost ks = objects@.map_values(|s: String| s@);
        match self.find_bucket(bucket_name) {
            None => {
                let mut m: usize = 0;
                while m < count
                    invariant
                        count == objects@.len(),
                        m <= count,
                        results@.len() == m,
                        forall|q: int|
                            0 <= q < m ==> (#[trigger] results@[q]) matches Err(
                                StorageErr::BucketNotFound,
                            ),
                    decreases count - m,
                {
                    results.push(Err(StorageErr::BucketNotFound));
                    m += 1;
                }
                results
            },
            Some(i0) => {
                let ghost i = i0 as int;
                let ghost objs0 = self.buckets@[i].objects@;
                let mut m: usize = 0;
                proof {
                    assert(ks.take(0) =~= Seq::<Seq<char>>::empty());
                }
                while m < count
                    invariant
                        self.wf(),
                        count == objects@.len(),
                        ks == objects@.map_values(|s: String| s@),
                        m <= count,
                        results@.len() == m,
                        0 <= i < self.buckets@.len(),
                        self.buckets@.len() == old(self).buckets@.len(),
                        self.buckets@[i].info == old(self).buckets@[i].info,
                        self.buckets@[i].info.name@ == bucket_name@,
                        objs0 == old(self).buckets@[i].objects@,
                        forall|q: int|
                            0 <= q < self.buckets@.len() && q != i
                                ==> #[trigger] self.buckets@[q] == old(self).buckets@[q],
                        self.buckets@[i].objects@ == batch_delete_objs(objs0, ks.take(m as int)),
                        results@ == batch_delete_results(objs0, ks.take(m as int)),
                    decreases count - m,
                {
                    let ghost prev = *self;
                    proof {
                        prev.lemma_bucket_idx_is(i, bucket_name@);
                        assert(ks.take(m + 1).drop_last() =~= ks.take(m as int));
                        assert(ks.take(m + 1).last() == objects@[m as int]@);
                    }
                    let res = self.delete_object(bucket_name, objects[m].as_str());
                    proof {
                        let k = objects@[m as int]@;
                        assert(prev.has_bucket(bucket_name@));
                        assert(prev.bucket_idx(bucket_name@) == i);
                        if prev.buckets@[i].has_key(k) {
                            assert(res matches Ok(()));
                            assert(self.buckets@[i].objects@ == prev.buckets@[i].objects@.remove(
                                prev.buckets@[i].key_idx(k),
                            ));
                            assert(self.buckets@[i].objects@ == remove_key(
                                prev.buckets@[i].objects@,
                                k,
                            ));
                            assert(res == Result::<(), StorageErr>::Ok(()));
                        } else {
                            assert(*self == prev);
                            assert(remove_key(prev.buckets@[i].objects@, k)
                                == prev.buckets@[i].objects@);
                            assert(res == Result::<(), StorageErr>::Err(
                                StorageErr::ObjectNotFound,
                            ));
                        }
                        assert(self.buckets@[i].objects@ == batch_delete_objs(
                            objs0,
                            ks.take(m + 1),
                        ));
                    }
                    results.push(res);
                    proof {
                        assert(results@ == batch_delete_results(objs0, ks.take(m + 1)));
                    }
                    m += 1;
                }
                proof {
                    assert(ks.take(count as int) =~= ks);
                }
                results
            },
        }
    }

    /// Sets `record` in its bucket: an existing record with the same key
    /// is replaced, any other key is inserted at its sorted position.
    ///
    /// Fails with `BucketNotFound`, changing nothing, exactly when no
    /// bucket is named `record.bucket_name`.
    pub fn put_object_record(&mut self, record: ObjectRecord) -> (r: Result<(), StorageErr>)
        requires
            old(self).wf(),
        ensures
            final(self).wf(),
            put_record_outcome(*old(self), *final(self), record, r),
    {
        match self.find_bucket(record.bucket_name.as_str()) {
            None => Err(StorageErr::BucketNotFound),
            Some(i) => {
                let ghost pre = self.buckets@[i as int].objects@;
                let ghost k = record.key@;
                let entry = &mut self.buckets[i];
                let n = entry.objects.len();
                let mut p: usize = 0;
                while p < n
                    invariant
                        n == entry.objects@.len(),
                        entry.objects@ == pre,
                        k == record.key@,
                        p <= n,
                        forall|m: int| 0 <= m < p ==> lex_lt((#[trigger] pre[m]).key@, k),
                    ensures
                        p <= n,
                        forall|m: int| 0 <= m < p ==> lex_lt((#[trigger] pre[m]).key@, k),
                        p < n ==> !lex_lt(pre[p as int].key@, k),
                        entry.objects@ == pre,
                        k == record.key@,
                        n == pre.len(),
                    decreases n - p,
                {
                    if !str_lt(entry.objects[p].key.as_str(), record.key.as_str()) {
                        break;
                    }
                    p += 1;
                }
                proof {
                    lemma_upsert_split(pre, record, p as int);
                }
                if p < n && str_eq(entry.objects[p].key.as_str(), record.key.as_str()) {
                    entry.objects.remove(p);
                    entry.objects.insert(p, record);
                    proof {
                        assert(pre.skip(p as int)[0] == pre[p as int]);
                        assert(upsert_obj(pre.skip(p as int), record) == seq![record] + pre.skip(
                            p as int,
                        ).drop_first());
                        assert(pre.skip(p as int).drop_first() =~= pre.skip(p as int + 1));
                        assert(entry.objects@ =~= pre.take(p as int) + (seq![record] + pre.skip(
                            p as int + 1,
                        )));
                    }
                } else {
                    proof {
                        if p < n {
                            crate::order::lemma_lex_lt_connected(k, pre[p as int].key@);
                            assert(lex_lt(k, pre[p as int].key@));
                            assert(pre.skip(p as int)[0] == pre[p as int]);
                            assert(upsert_obj(pre.skip(p as int), record) == seq![record]
                                + pre.skip(p as int));
                        } else {
                            assert(pre.skip(p as int).len() == 0);
                            assert(upsert_obj(pre.skip(p as int), record) == seq![record]);
                        }
                    }
                    entry.objects.insert(p, record);
                    proof {
                        assert(entry.objects@ =~= pre.take(p as int) + (seq![record] + pre.skip(
                            p as int,
                        )));
                    }
                }
                proof {
                    let post = self.buckets@[i as int];
                    let objs = post.objects@;
                    assert(objs == upsert_obj(pre, record));
                    assert forall|a: int, b: int| 0 <= a < b < objs.len() implies lex_lt(
                        (#[trigger] objs[a]).key@,
                        (#[trigger] objs[b]).key@,
                    ) by {
                        lemma_upsert_sorted_pair(pre, record, k, p as int, objs, a, b);
                    }
                    assert forall|m: int| 0 <= m < objs.len() implies (
                    #[trigger] objs[m]).bucket_name@ == post.info.name@ by {
                        if m < p {
                            assert(objs[m] == pre[m]);
                        } else if m > p {
                            if objs.len() == pre.len() {
                                assert(objs[m] == pre[m]);
                            } else {
                                assert(objs[m] == pre[m - 1]);
                            }
                        }
                    }
                    assert(post.wf());
                    assert forall|m: int| 0 <= m < self.buckets@.len() implies (
                    #[trigger] self.buckets@[m]).wf() by {
                        if m != i {
                            assert(self.buckets@[m] == old(self).buckets@[m]);
                        }
                    }
                }
                Ok(())
            },
        }
    }

    /// Stores object metadata under `key` in the bucket named
    /// `bucket_name`, stamped with a fresh opaque identifier and the
    /// current clock reading.  Everything else is as for
    /// [`Self::put_object_record`].
    pub fn put_object(
        &mut self,
        bucket_name: &str,
        key: &str,
        size: u64,
        etag: String,
        file_id: String,
    ) -> (r: Result<(), StorageErr>)
        requires
            old(self).wf(),
        ensures
            final(self).wf(),
            !old(self).has_bucket(bucket_name@) ==> (r matches Err(e) && e matches
                StorageErr::BucketNotFound && *final(self) == *old(self)),
            old(self).has_bucket(bucket_name@) ==> (r matches Ok(())) && {
                let i = old(self).bucket_idx(bucket_name@);
                &&& final(self).buckets@.len() == old(self).buckets@.len()
                &&& (forall|m: int|
                    0 <= m < old(self).buckets@.len() && m != i
                        ==> #[trigger] final(self).buckets@[m] == old(self).buckets@[m])
                &&& final(self).buckets@[i].info == old(self).buckets@[i].info
                &&& fresh_put_applied(
                    old(self).buckets@[i].objects@,
                    final(self).buckets@[i].objects@,
                    key@,
                    size,
                    etag@,
                    bucket_name@,
                    file_id@,
                )
            },
    {
        let record = ObjectRecord {
            id: crate::sys::fresh_object_id(),
            key: key.to_owned(),
            size,
            etag,
            last_modified: current_time_millis(),
            bucket_name: bucket_name.to_owned(),
            file_id,
        };
        let ghost rec = record;
        let r = self.put_object_record(record);
        proof {
            if old(self).has_bucket(bucket_name@) {
                let i = old(self).bucket_idx(bucket_name@);
                assert(stamped_record(rec, key@, size, etag@, bucket_name@, file_id@));
                assert(self.buckets@[i].objects@ == upsert_obj(
                    old(self).buckets@[i].objects@,
                    rec,
                ));
            }
        }
        r
    }

    /// Copies object metadata from one key to another: the copy carries a
    /// fresh identifier and the destination key and bucket, and reuses the
    /// source's size, etag, modification time and blob handle.  The blob
    /// itself is shared, not duplicated.
    ///
    /// Fails with `BucketNotFound` when the source or destination bucket
    /// is absent and with `ObjectNotFound` when the source bucket holds no
    /// such key; nothing changes on failure.
    pub fn copy_object(
        &mut self,
        dest_bucket_name: &str,
        dest_key: &str,
        source_bucket_name: &str,
        source_key: &str,
    ) -> (r: Result<(), StorageErr>)
        requires
            old(self).wf(),
        ensures
            final(self).wf(),
            !old(self).has_bucket(source_bucket_name@) ==> (r matches Err(e) && e matches
                StorageErr::BucketNotFound && *final(self) == *old(self)),
            old(self).has_bucket(source_bucket_name@) && !old(self).buckets@[old(self).bucket_idx(
                source_bucket_name@,
            )].has_key(source_key@) ==> (r matches Err(e) && e matches StorageErr::ObjectNotFound
                && *final(self) == *old(self)),
            old(self).has_bucket(source_bucket_name@) && old(self).buckets@[old(self).bucket_idx(
                source_bucket_name@,
            )].has_key(source_key@) && !old(self).has_bucket(dest_bucket_name@) ==> (r matches Err(
                e,
            ) && e matches StorageErr::BucketNotFound && *final(self) == *old(self)),
            old(self).has_bucket(source_bucket_name@) && old(self).buckets@[old(self).bucket_idx(
                source_bucket_name@,
            )].has_key(source_key@) && old(self).has_bucket(dest_bucket_name@) ==> (r matches Ok(
                (),
            )) && {
                let si = old(self).bucket_idx(source_bucket_name@);
                let sj = old(self).buckets@[si].key_idx(source_key@);
                let src = old(self).buckets@[si].objects@[sj];
                let di = old(self).bucket_idx(dest_bucket_name@);
                &&& final(self).buckets@.len() == old(self).buckets@.len()
                &&& (forall|m: int|
                    0 <= m < old(self).buckets@.len() && m != di
                        ==> #[trigger] final(self).buckets@[m] == old(self).buckets@[m])
                &&& final(self).buckets@[di].info == old(self).buckets@[di].info
                &&& copy_applied(
                    old(self).buckets@[di].objects@,
                    final(self).buckets@[di].objects@,
                    dest_key@,
                    src,
                    dest_bucket_name@,
                )
            },
    {
        let si = match self.find_bucket(source_bucket_name) {
            None => {
                return Err(StorageErr::BucketNotFound);
            },
            Some(si) => si,
        };
        let sj = match self.buckets[si].find_key(source_key) {
            None => {
                return Err(StorageErr::ObjectNotFound);
            },
            Some(sj) => sj,
        };
        let source = &self.buckets[si].objects[sj];
        let record = ObjectRecord {
            id: crate::sys::fresh_object_id(),
            key: dest_key.to_owned(),
            size: source.size,
            etag: source.etag.clone(),
            last_modified: source.last_modified,
            bucket_name: dest_bucket_name.to_owned(),
            file_id: source.file_id.clone(),
        };
        let ghost rec = record;
        match self.find_bucket(dest_bucket_name) {
            None => Err(StorageErr::BucketNotFound),
            Some(_) => {
                let r = self.put_object_record(record);
                proof {
                    let si = old(self).bucket_idx(source_bucket_name@);
                    let sj = old(self).buckets@[si].key_idx(source_key@);
                    let src = old(self).buckets@[si].objects@[sj];
                    let di = old(self).bucket_idx(dest_bucket_name@);
                    assert(stamped_record(
                        rec,
                        dest_key@,
                        src.size,
                        src.etag@,
                        dest_bucket_name@,
                        src.file_id@,
                    ));
                    assert(self.buckets@[di].objects@ == upsert_obj(
                        old(self).buckets@[di].objects@,
                        rec,
                    ));
                }
                r
            },
        }
    }
}

/// One sorted-position case of the upsert proof: any two records of the
/// upserted sequence are in strict key order.
proof fn lemma_upsert_sorted_pair(
    pre: Seq<ObjectRecord>,
    rec: ObjectRecord,
    k: Seq<char>,
    p: int,
    objs: Seq<ObjectRecord>,
    a: int,
    b: int,
)
    requires
        rec.key@ == k,
        forall|i: int, j: int|
            0 <= i < j < pre.len() ==> lex_lt((#[trigger] pre[i]).key@, (#[trigger] pre[j]).key@),
        0 <= p <= pre.len(),
        forall|m: int| 0 <= m < p ==> lex_lt((#[trigger] pre[m]).key@, k),
        p < pre.len() ==> !lex_lt(pre[p].key@, k),
        objs == if p < pre.len() && pre[p].key@ == k {
            pre.take(p) + (seq![rec] + pre.skip(p + 1))
        } else {
            pre.take(p) + (seq![rec] + pre.skip(p))
        },
        0 <= a < b < objs.len(),
    ensures
        lex_lt(objs[a].key@, objs[b].key@),
{
    let replaced = p < pre.len() && pre[p].key@ == k;
    if p < pre.len() && !replaced {
        crate::order::lemma_lex_lt_connected(k, pre[p].key@);
        assert(lex_lt(k, pre[p].key@));
    }
    if a < p {
        assert(objs[a] == pre[a]);
    } else if a == p {
        assert(objs[a] == rec);
    } else if replaced {
        assert(objs[a] == pre[a]);
    } else {
        assert(objs[a] == pre[a - 1]);
    }
    if b < p {
        assert(objs[b] == pre[b]);
    } else if b == p {
        assert(objs[b] == rec);
    } else if replaced {
        assert(objs[b] == pre[b]);
    } else {
        assert(objs[b] == pre[b - 1]);
    }
    if a == p {
        if replaced {
            assert(lex_lt(pre[p].key@, objs[b].key@));
        } else {
            if b == p + 1 {
                assert(objs[b] == pre[p]);
            } else {
                assert(objs[b] == pre[b - 1]);
                assert(lex_lt(pre[p].key@, pre[b - 1].key@));
                crate::order::lemma_lex_lt_transitive(k, pre[p].key@, pre[b - 1].key@);
            }
        }
    }
}

/// The shape of a freshly stamped record: the caller's fields, with the
/// identifier and timestamp left to the stamping call.
pub open spec fn stamped_record(
    rec: ObjectRecord,
    key: Seq<char>,
    size: u64,
    etag: Seq<char>,
    bucket_name: Seq<char>,
    file_id: Seq<char>,
) -> bool {
    &&& rec.key@ == key
    &&& rec.size == size
    &&& rec.etag@ == etag
    &&& rec.bucket_name@ == bucket_name
    &&& rec.file_id@ == file_id
}

/// Some freshly stamped record carrying the caller's fields has been
/// upserted: what a `put_object` call leaves of a bucket's records.
pub open spec fn fresh_put_applied(
    pre: Seq<ObjectRecord>,
    post: Seq<ObjectRecord>,
    key: Seq<char>,
    size: u64,
    etag: Seq<char>,
    bucket_name: Seq<char>,
    file_id: Seq<char>,
) -> bool {
    exists|rec: ObjectRecord|
        #[trigger] stamped_record(rec, key, size, etag, bucket_name, file_id) && (0
            <= rec.last_modified <= MAX_TIMESTAMP_MILLIS) && post == upsert_obj(pre, rec)
}

/// Some fresh copy of `src` under `dest_key` has been upserted: what a
/// `copy_object` call leaves of the destination bucket's records.
pub open spec fn copy_applied(
    pre: Seq<ObjectRecord>,
    post: Seq<ObjectRecord>,
    dest_key: Seq<char>,
    src: ObjectRecord,
    dest_bucket_name: Seq<char>,
) -> bool {
    exists|rec: ObjectRecord|
        #[trigger] stamped_record(rec, dest_key, src.size, src.etag@, dest_bucket_name, src.file_id@)
            && rec.last_modified == src.last_modified && post == upsert_obj(pre, rec)
}

/// The region a bucket gets when the caller names none.
pub open spec fn default_region() -> Seq<char> {
    "Europe"@
}

} // verus!
