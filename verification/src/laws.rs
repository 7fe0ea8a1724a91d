//! Laws of the storage engine and the listing engine, stated over the
//! same spec functions the operations' own contracts use, and proved
//! from them.

use vstd::prelude::*;

use crate::entities::{Bucket, ObjectRecord};
use crate::error::StorageErr;
use crate::listing::{cap_of, MAX_KEYS};
use crate::storage::{batch_delete_objs, batch_delete_results, create_outcome,
    delete_bucket_outcome, delete_object_outcome, objs_has_key, objs_key_idx,
    put_record_outcome, remove_key, upsert_obj, StorageProvider};
use crate::sys::MAX_TIMESTAMP_MILLIS;

verus! {

/// Uniqueness: creating the same fresh name twice in sequence yields
/// success and then `BucketAlreadyExists`, and the registry's bucket
/// count grows by exactly one, not two.
pub proof fn lemma_create_bucket_unique(
    s0: StorageProvider,
    s1: StorageProvider,
    s2: StorageProvider,
    name: Seq<char>,
    region1: Option<Seq<char>>,
    region2: Option<Seq<char>>,
    r1: Result<(), StorageErr>,
    r2: Result<(), StorageErr>,
)
    requires
        s0.wf(),
        s1.wf(),
        !s0.has_bucket(name),
        create_outcome(s0, s1, name, region1, r1),
        create_outcome(s1, s2, name, region2, r2),
    ensures
        r1 matches Ok(()),
        r2 matches Err(e) && e matches StorageErr::BucketAlreadyExists,
        s2.bucket_count() == s0.bucket_count() + 1,
{
    assert(s1.has_bucket(name)) by {
        assert(s1.buckets@[s1.buckets@.len() - 1].info.name@ == name);
    }
    assert(s2 == s1);
}

/// Not-found: deleting any bucket of an empty registry fails
/// `BucketNotFound` and changes nothing.
pub proof fn lemma_delete_bucket_not_found(
    s0: StorageProvider,
    s1: StorageProvider,
    name: Seq<char>,
    r: Result<(), StorageErr>,
)
    requires
        s0.wf(),
        s0.bucket_count() == 0,
        delete_bucket_outcome(s0, s1, name, r),
    ensures
        r matches Err(e) && e matches StorageErr::BucketNotFound,
        s1 == s0,
{
    assert(!s0.has_bucket(name));
}

/// Emptiness gate: after creating a bucket and putting one object into
/// it, deleting the bucket fails `BucketNotEmpty` and changes nothing;
/// after deleting that object, deleting the bucket succeeds and the
/// name is gone.
pub proof fn lemma_delete_bucket_emptiness_gate(
    s0: StorageProvider,
    s1: StorageProvider,
    s2: StorageProvider,
    s3: StorageProvider,
    s4: StorageProvider,
    s5: StorageProvider,
    name: Seq<char>,
    region: Option<Seq<char>>,
    rec: ObjectRecord,
    r1: Result<(), StorageErr>,
    r2: Result<(), StorageErr>,
    r3: Result<(), StorageErr>,
    r4: Result<(), StorageErr>,
    r5: Result<(), StorageErr>,
)
    requires
        s0.wf(),
        s1.wf(),
        s2.wf(),
        s3.wf(),
        s4.wf(),
        !s0.has_bucket(name),
        rec.bucket_name@ == name,
        create_outcome(s0, s1, name, region, r1),
        put_record_outcome(s1, s2, rec, r2),
        delete_bucket_outcome(s2, s3, name, r3),
        delete_object_outcome(s3, s4, name, rec.key@, r4),
        delete_bucket_outcome(s4, s5, name, r5),
    ensures
        r3 matches Err(e) && e matches StorageErr::BucketNotEmpty,
        s3 == s2,
        r5 matches Ok(()),
        !s5.has_bucket(name),
{
    let i = s1.buckets@.len() - 1;
    assert(s1.buckets@[i].info.name@ == name);
    s1.lemma_bucket_idx_is(i, name);
    assert(s2.buckets@[i].objects@ == upsert_obj(s1.buckets@[i].objects@, rec));
    assert(s2.buckets@[i].objects@ =~= seq![rec]);
    assert(s2.buckets@[i].info.name@ == name);
    s2.lemma_bucket_idx_is(i, name);
    assert(s2.buckets@[s2.bucket_idx(name)].objects@.len() == 1);
    assert(s3 == s2);
    s3.lemma_bucket_idx_is(i, name);
    assert(s3.buckets@[i].has_key(rec.key@)) by {
        assert(s3.buckets@[i].objects@[0].key@ == rec.key@);
    }
    s3.buckets@[i].lemma_key_idx_is(0, rec.key@);
    assert(s4.buckets@[i].objects@ == s3.buckets@[i].objects@.remove(0));
    assert(s4.buckets@[i].objects@.len() == 0);
    assert(s4.buckets@[i].info == s3.buckets@[i].info);
    s4.lemma_bucket_idx_is(i, name);
    assert(r5 matches Ok(()));
    assert(s5.buckets@ == s4.buckets@.remove(i));
    assert forall|m: int| 0 <= m < s5.buckets@.len() implies (#[trigger] s5.buckets@[m]).info.name@
        != name by {
        let m0: int = if m < i {
            m
        } else {
            m + 1
        };
        assert(s5.buckets@[m] == s4.buckets@[m0]);
        if m0 != i {
            assert(s4.buckets@[m0].info.name@ != s4.buckets@[i].info.name@);
        }
    }
}

/// Max-keys clamp: every requested maximum above the limit is silently
/// clamped, so any such request behaves exactly as a request for the
/// limit itself, or for no maximum at all.
pub proof fn lemma_max_keys_clamped(mk: u64)
    requires
        mk >= MAX_KEYS,
    ensures
        cap_of(Some(mk)) == cap_of(Some(MAX_KEYS)),
        cap_of(Some(mk)) == cap_of(None),
        cap_of(Some(mk)) == MAX_KEYS as int,
{
}

/// Batch delete order and independence: deleting a present key and an
/// absent key in one batch reports success then `ObjectNotFound`, in
/// input order, and the present key is removed regardless of the other
/// key's failure.
pub proof fn lemma_batch_delete_independent(
    objs: Seq<ObjectRecord>,
    k1: Seq<char>,
    k2: Seq<char>,
)
    requires
        forall|i: int, j: int|
            0 <= i < j < objs.len() ==> (#[trigger] objs[i]).key@ != (#[trigger] objs[j]).key@,
        objs_has_key(objs, k1),
        !objs_has_key(objs, k2),
    ensures
        batch_delete_results(objs, seq![k1, k2]) =~= seq![
            Result::<(), StorageErr>::Ok(()),
            Result::<(), StorageErr>::Err(StorageErr::ObjectNotFound),
        ],
        batch_delete_objs(objs, seq![k1, k2]) == remove_key(objs, k1),
        !objs_has_key(batch_delete_objs(objs, seq![k1, k2]), k1),
{
    let ks = seq![k1, k2];
    assert(ks.drop_last() =~= seq![k1]);
    assert(seq![k1].drop_last() =~= Seq::<Seq<char>>::empty());
    let after1 = remove_key(objs, k1);
    assert(batch_delete_objs(objs, Seq::<Seq<char>>::empty()) == objs);
    assert(seq![k1].last() == k1);
    assert(batch_delete_objs(objs, seq![k1]) == after1);
    let j1 = objs_key_idx(objs, k1);
    assert(0 <= j1 < objs.len() && objs[j1].key@ == k1);
    assert(after1 == objs.remove(j1));
    assert(!objs_has_key(after1, k1)) by {
        if objs_has_key(after1, k1) {
            let w = objs_key_idx(after1, k1);
            assert(0 <= w < after1.len() && after1[w].key@ == k1);
            let w0: int = if w < j1 {
                w
            } else {
                w + 1
            };
            assert(after1[w] == objs[w0]);
            assert(w0 != j1);
            if w0 < j1 {
                assert(objs[w0].key@ != objs[j1].key@);
            } else {
                assert(objs[j1].key@ != objs[w0].key@);
            }
        }
    }
    assert(!objs_has_key(after1, k2)) by {
        if objs_has_key(after1, k2) {
            let w = objs_key_idx(after1, k2);
            let w0: int = if w < j1 {
                w
            } else {
                w + 1
            };
            assert(after1[w] == objs[w0]);
            assert(objs_has_key(objs, k2)) by {
                assert(objs[w0].key@ == k2);
            }
        }
    }
    assert(batch_delete_objs(objs, ks) == remove_key(after1, k2));
    assert(remove_key(after1, k2) == after1);
    assert(batch_delete_results(objs, Seq::<Seq<char>>::empty())
        =~= Seq::<Result<(), StorageErr>>::empty());
    assert(batch_delete_results(objs, seq![k1]) =~= seq![Result::<(), StorageErr>::Ok(())]);
    assert(ks.last() == k2);
    assert(batch_delete_results(objs, ks) =~= batch_delete_results(objs, seq![k1]).push(
        Result::<(), StorageErr>::Err(StorageErr::ObjectNotFound),
    ));
}

/// List round-trip: after creating a fresh bucket, the bucket list holds
/// exactly one entry bearing that name, its creation date set within the
/// clock's range, and the name appears nowhere else in the list.
pub proof fn lemma_create_then_list(
    s0: StorageProvider,
    s1: StorageProvider,
    name: Seq<char>,
    region: Option<Seq<char>>,
    r: Result<(), StorageErr>,
    listed: Seq<Bucket>,
)
    requires
        s0.wf(),
        s1.wf(),
        !s0.has_bucket(name),
        create_outcome(s0, s1, name, region, r),
        listed.len() == s1.buckets@.len(),
        forall|i: int| 0 <= i < listed.len() ==> #[trigger] listed[i] == s1.buckets@[i].info,
    ensures
        exists|i: int| 0 <= i < listed.len() && (#[trigger] listed[i]).name@ == name,
        forall|i: int, j: int|
            0 <= i < j < listed.len() ==> !((#[trigger] listed[i]).name@ == name && (
            #[trigger] listed[j]).name@ == name),
        forall|i: int|
            0 <= i < listed.len() && (#[trigger] listed[i]).name@ == name ==> 0
                <= listed[i].creation_date <= MAX_TIMESTAMP_MILLIS,
{
    let w = listed.len() - 1;
    assert(listed[w].name@ == name);
    assert forall|i: int, j: int|
        0 <= i < j < listed.len() implies !((#[trigger] listed[i]).name@ == name && (
    #[trigger] listed[j]).name@ == name) by {
        assert(s1.buckets@[i].info.name@ != s1.buckets@[j].info.name@);
    }
    assert forall|i: int|
        0 <= i < listed.len() && (#[trigger] listed[i]).name@ == name implies 0
        <= listed[i].creation_date <= MAX_TIMESTAMP_MILLIS by {
        assert(s1.buckets@[i].wf());
    }
}

/// The batch-delete results never outnumber or reorder their keys: the
/// outcome sequence has one entry per key, whatever the registry held.
pub proof fn lemma_batch_delete_len(objs: Seq<ObjectRecord>, keys: Seq<Seq<char>>)
    ensures
        batch_delete_results(objs, keys).len() == keys.len(),
    decreases keys.len(),
{
    if keys.len() > 0 {
        lemma_batch_delete_len(objs, keys.drop_last());
    }
}

} // verus!
