//! The object store: the composition root that couples the metadata
//! catalog to the blob filesystem and keeps them mutually consistent.

use crate::content::{content_hash, media_subtype_of, media_type_of};
use crate::error::{Error, ErrorKind};
use crate::fs::{ArchiveRoot, Filesystem};
use crate::host::{generate_id, now_timestamp};
use crate::model::{Bucket, BucketRecord, Object, ObjectError, RemoveResult, StoreTotals};
use crate::progress::{clone_strings, Progress};
use crate::table::{
    clone_ids, contains_id, find, has_key, ids_unique, insert_new, key_index, keys_unique,
    lemma_contains_push, lemma_contains_take, lemma_key_at, remove_key, remove_keys, update_at, val_of,
};
use crate::{About, Version};
use vstd::prelude::*;

verus! {

/// The two task slots that keep each long-running operation single.
pub struct Tasks {
    pub archive: Option<Progress>,
    pub check: Option<Progress>,
}

/// What the store is built from: the version it reports and whether an
/// archive location was configured.
pub struct StoreOptions {
    pub version: Version,
    pub archive_configured: bool,
}

/// The object store: catalog rows, diagnostics, the blob filesystem, the
/// optional archive mirror, and the task slots.
pub struct ObjectStore {
    pub tasks: Tasks,
    pub about: About,
    pub schema_version: String,
    pub buckets: Vec<(u128, BucketRecord)>,
    pub objects: Vec<(u128, Object)>,
    pub object_errors: Vec<(u128, Vec<String>)>,
    pub fs: Filesystem,
    pub archive: Option<ArchiveRoot>,
}

/// Whether a task slot's guard is fresh: ready to run, nothing processed.
pub open spec fn slot_fresh(slot: Option<Progress>) -> bool {
    slot matches Some(p) ==> p.completed == 0 && p.errors@.len() == 0 && p.wf()
}

impl ObjectStore {
    /// Whether the bucket table is consistent: distinct ids, distinct
    /// names, distinct members per bucket, and every member backed by an
    /// object row.
    pub open spec fn buckets_wf(self) -> bool {
        &&& keys_unique(self.buckets@)
        &&& forall|i: int, j: int|
            0 <= i < j < self.buckets@.len() ==> (#[trigger] self.buckets@[i]).1.name@
                != (#[trigger] self.buckets@[j]).1.name@
        &&& forall|i: int|
            0 <= i < self.buckets@.len() ==> ids_unique((#[trigger] self.buckets@[i]).1.objects@)
        &&& forall|i: int, k: int|
            0 <= i < self.buckets@.len() && 0 <= k < self.buckets@[i].1.objects@.len()
                ==> has_key(self.objects@, #[trigger] self.buckets@[i].1.objects@[k])
    }

    /// Whether the object table is consistent: distinct ids, each row
    /// keyed by its own id.
    pub open spec fn objects_wf(self) -> bool {
        &&& keys_unique(self.objects@)
        &&& forall|i: int|
            0 <= i < self.objects@.len() ==> (#[trigger] self.objects@[i]).1.id
                == self.objects@[i].0
    }

    /// Whether the diagnostics table is consistent: distinct ids, no
    /// empty record.
    pub open spec fn errors_wf(self) -> bool {
        &&& keys_unique(self.object_errors@)
        &&& forall|i: int|
            0 <= i < self.object_errors@.len() ==> (#[trigger] self.object_errors@[i]).1@.len() > 0
    }

    /// Whether every committed blob is backed by an object row.
    pub open spec fn blobs_covered(self) -> bool {
        forall|x: u128| #[trigger] self.fs.has_blob(x) ==> has_key(self.objects@, x)
    }

    /// The store's well-formedness: every table consistent, the
    /// filesystem consistent, blobs backed by rows, and any installed
    /// guard still fresh.
    pub open spec fn wf(self) -> bool {
        &&& self.buckets_wf()
        &&& self.objects_wf()
        &&& self.errors_wf()
        &&& self.fs.wf()
        &&& self.blobs_covered()
        &&& (self.archive matches Some(a) ==> a.wf())
        &&& slot_fresh(self.tasks.archive)
        &&& slot_fresh(self.tasks.check)
    }

    /// Whether a bucket with the given id exists.
    pub open spec fn has_bucket(self, id: u128) -> bool {
        has_key(self.buckets@, id)
    }

    /// The bucket record stored under the given id.
    pub open spec fn bucket_rec(self, id: u128) -> BucketRecord
        recommends
            self.has_bucket(id),
    {
        val_of(self.buckets@, id)
    }

    /// Whether a bucket with the given name exists.
    pub open spec fn has_bucket_named(self, name: Seq<char>) -> bool {
        exists|i: int| 0 <= i < self.buckets@.len() && (#[trigger] self.buckets@[i]).1.name@ == name
    }

    /// The id of the bucket with the given name.
    pub open spec fn bucket_named_id(self, name: Seq<char>) -> u128
        recommends
            self.has_bucket_named(name),
    {
        let i = choose|i: int|
            0 <= i < self.buckets@.len() && (#[trigger] self.buckets@[i]).1.name@ == name;
        self.buckets@[i].0
    }

    /// Whether another bucket than `id` already carries the given name.
    pub open spec fn name_taken_by_other(self, id: u128, name: Seq<char>) -> bool {
        exists|i: int|
            0 <= i < self.buckets@.len() && (#[trigger] self.buckets@[i]).0 != id
                && self.buckets@[i].1.name@ == name
    }

    /// Whether an object row with the given id exists.
    pub open spec fn has_object(self, id: u128) -> bool {
        has_key(self.objects@, id)
    }

    /// The object row stored under the given id.
    pub open spec fn object_row(self, id: u128) -> Object
        recommends
            self.has_object(id),
    {
        val_of(self.objects@, id)
    }

    /// Whether the given object is a member of the given bucket.
    pub open spec fn is_member(self, bucket_id: u128, object_id: u128) -> bool {
        self.has_bucket(bucket_id) && self.bucket_rec(bucket_id).objects@.contains(object_id)
    }

    /// Whether no bucket references the given object.
    pub open spec fn is_orphan(self, object_id: u128) -> bool {
        forall|i: int|
            0 <= i < self.buckets@.len() ==> !(#[trigger] self.buckets@[i]).1.objects@.contains(
                object_id,
            )
    }

    /// Whether some row in the list carries the given object id.
    pub open spec fn lists_id(rows: Seq<Object>, x: u128) -> bool {
        exists|i: int| 0 <= i < rows.len() && (#[trigger] rows[i]).id == x
    }

    /// Whether everything but the bucket table is unchanged between two
    /// store states.
    pub open spec fn same_except_buckets(self, other: ObjectStore) -> bool {
        &&& self.schema_version == other.schema_version
        &&& self.objects == other.objects
        &&& self.object_errors == other.object_errors
        &&& self.fs == other.fs
        &&& self.archive == other.archive
        &&& self.tasks == other.tasks
        &&& self.about == other.about
    }

    /// In a consistent bucket table, the record at any index holding a
    /// name is the record the name resolves to.
    pub proof fn lemma_bucket_named_at(self, name: Seq<char>, i: int)
        requires
            self.buckets_wf(),
            0 <= i < self.buckets@.len(),
            self.buckets@[i].1.name@ == name,
        ensures
            self.has_bucket_named(name),
            self.bucket_named_id(name) == self.buckets@[i].0,
    {
        assert(self.has_bucket_named(name));
        let j = choose|j: int|
            0 <= j < self.buckets@.len() && (#[trigger] self.buckets@[j]).1.name@ == name;
        if i < j {
            assert(self.buckets@[i].1.name@ != self.buckets@[j].1.name@);
        } else if j < i {
            assert(self.buckets@[j].1.name@ != self.buckets@[i].1.name@);
        }
    }

    /// Builds an empty store from its options: no buckets, no objects, no
    /// diagnostics, an empty blob root, an empty mirror where one was
    /// configured, and both task slots vacant.
    pub fn new(options: StoreOptions) -> (r: ObjectStore)
        ensures
            r.wf(),
            r.about.version == options.version,
            r.schema_version@ == options.version.number@,
            r.buckets@.len() == 0,
            r.objects@.len() == 0,
            r.object_errors@.len() == 0,
            r.fs.blobs@.len() == 0,
            r.fs.parts@.len() == 0,
            r.archive is Some <==> options.archive_configured,
            r.archive matches Some(a) ==> a.blobs@.len() == 0 && !a.dump_taken,
            r.tasks.archive is None,
            r.tasks.check is None,
    {
        let archive = if options.archive_configured {
            Some(ArchiveRoot::new())
        } else {
            None
        };
        let schema_version = options.version.number.clone();
        ObjectStore {
            tasks: Tasks { archive: None, check: None },
            about: About { version: options.version },
            schema_version,
            buckets: Vec::new(),
            objects: Vec::new(),
            object_errors: Vec::new(),
            fs: Filesystem::new(),
            archive,
        }
    }

    /// Static facts about the running store.
    pub fn about(&self) -> (r: &About)
        ensures
            *r == self.about,
    {
        &self.about
    }

    /// Verifies that the catalog's recorded schema version matches the
    /// version this store was built with.
    pub fn prepare(&self) -> (r: Result<(), Error>)
        ensures
            r is Ok <==> self.schema_version@ == self.about.version.number@,
            r matches Err(e) ==> e.kind == ErrorKind::Internal,
    {
        if self.schema_version == self.about.version.number {
            Ok(())
        } else {
            Err(Error::new(ErrorKind::Internal, String::from_str("schema version mismatch")))
        }
    }

    /// The total byte size of the rows the given member ids resolve to.
    pub open spec fn members_space(objs: Seq<(u128, Object)>, members: Seq<u128>) -> int
        decreases members.len(),
    {
        if members.len() == 0 {
            0
        } else {
            Self::members_space(objs, members.drop_last()) + (if has_key(objs, members.last()) {
                val_of(objs, members.last()).size as int
            } else {
                0
            })
        }
    }

    /// Adds up the sizes of the rows the given member ids resolve to.
    fn space_of_members(&self, members: &Vec<u128>) -> (r: u128)
        requires
            keys_unique(self.objects@),
        ensures
            r == Self::members_space(self.objects@, members@),
    {
        let mut acc: u128 = 0;
        let mut i: usize = 0;
        while i < members.len()
            invariant
                keys_unique(self.objects@),
                i <= members@.len(),
                acc == Self::members_space(self.objects@, members@.take(i as int)),
                acc <= (i as int) * 0xffff_ffff_ffff_ffff,
            decreases members@.len() - i,
        {
            proof {
                assert(members@.take(i as int + 1).drop_last() =~= members@.take(i as int));
                assert(members@.take(i as int + 1).last() == members@[i as int]);
            }
            match find(&self.objects, members[i]) {
                Some(oi) => {
                    proof {
                        lemma_key_at(self.objects@, members@[i as int], oi as int);
                    }
                    acc = acc + self.objects[oi].1.size as u128;
                },
                None => {
                },
            }
            i = i + 1;
        }
        proof {
            assert(members@.take(members@.len() as int) =~= members@);
        }
        acc
    }

    /// Builds the public view of a bucket record: its aggregates derived
    /// from the rows its members resolve to.
    fn bucket_view(&self, id: u128, rec: &BucketRecord) -> (b: Bucket)
        requires
            keys_unique(self.objects@),
        ensures
            b.id == id,
            b.name@ == rec.name@,
            b.created == rec.created,
            b.object_count == rec.objects@.len(),
            b.space_used == Self::members_space(self.objects@, rec.objects@),
    {
        let space_used = self.space_of_members(&rec.objects);
        Bucket {
            id,
            name: rec.name.clone(),
            created: rec.created,
            object_count: rec.objects.len() as u64,
            space_used,
        }
    }

    /// Creates a bucket under a caller-supplied id and creation
    /// timestamp. The name must be free and the id must be fresh.
    #[verifier::loop_isolation(false)]
    pub fn add_bucket_with_id(&mut self, id: u128, created: i64, name: &String) -> (r: Result<
        Bucket,
        Error,
    >)
        requires
            old(self).wf(),
        ensures
            final(self).wf(),
            r is Ok <==> (!old(self).has_bucket_named(name@) && !old(self).has_bucket(id)),
            r is Err ==> *final(self) == *old(self),
            r matches Err(e) ==> (e.kind == ErrorKind::InvalidInput <==> old(self).has_bucket_named(name@)) && (e.kind == ErrorKind::InvalidInput || e.kind
                == ErrorKind::Internal),
            r is Ok ==> {
                &&& final(self).has_bucket(id)
                &&& final(self).bucket_rec(id).name@ == name@
                &&& final(self).bucket_rec(id).created == created
                &&& final(self).bucket_rec(id).objects@ == Seq::<u128>::empty()
                &&& final(self).buckets@ == old(self).buckets@.push((id, final(self).bucket_rec(id)))
                &&& final(self).has_bucket_named(name@)
                &&& final(self).bucket_named_id(name@) == id
            },
            r matches Ok(b) ==> b.id == id && b.name@ == name@ && b.created == created
                && b.object_count == 0 && b.space_used == 0,
            final(self).same_except_buckets(*old(self)),
            forall|x: u128|
                x != id ==> (#[trigger] final(self).has_bucket(x) <==> old(self).has_bucket(x)),
            forall|x: u128|
                x != id && old(self).has_bucket(x) ==> #[trigger] final(self).bucket_rec(x) == old(self).bucket_rec(x),
    {
        let mut i: usize = 0;
        while i < self.buckets.len()
            invariant
                i <= self.buckets@.len(),
                forall|j: int| 0 <= j < i ==> (#[trigger] self.buckets@[j]).1.name@ != name@,
            decreases self.buckets@.len() - i,
        {
            if self.buckets[i].1.name == *name {
                proof {
                    assert(self.has_bucket_named(name@));
                }
                return Err(
                    Error::new(
                        ErrorKind::InvalidInput,
                        String::from_str("bucket name already in use"),
                    ),
                );
            }
            i = i + 1;
        }
        proof {
            assert(!self.has_bucket_named(name@)) by {
                if self.has_bucket_named(name@) {
                    let j = choose|j: int|
                        0 <= j < self.buckets@.len() && (#[trigger] self.buckets@[j]).1.name@
                            == name@;
                }
            }
        }
        if find(&self.buckets, id).is_some() {
            proof {
                assert(self.has_bucket(id));
            }
            return Err(
                Error::new(ErrorKind::Internal, String::from_str("bucket id already in use")),
            );
        }
        let rec = BucketRecord { name: name.clone(), created, objects: Vec::new() };
        insert_new(&mut self.buckets, id, rec);
        proof {
            let s = self.buckets@;
            let o = old(self).buckets@;
            assert forall|a: int, b: int| 0 <= a < b < s.len() implies (#[trigger] s[a]).1.name@
                != (#[trigger] s[b]).1.name@ by {
                if b == s.len() - 1 {
                    assert(s[a] == o[a]);
                }
            }
            assert forall|a: int|
                0 <= a < s.len() implies ids_unique((#[trigger] s[a]).1.objects@) by {
                if a < o.len() {
                    assert(s[a] == o[a]);
                }
            }
            assert forall|a: int, k: int|
                0 <= a < s.len() && 0 <= k < s[a].1.objects@.len() implies has_key(
                self.objects@,
                #[trigger] s[a].1.objects@[k],
            ) by {
                if a < o.len() {
                    assert(s[a] == o[a]);
                }
            }
            self.lemma_bucket_named_at(name@, s.len() - 1);
        }
        Ok(Bucket { id, name: name.clone(), created, object_count: 0, space_used: 0 })
    }

    /// Creates a bucket with the given name: a fresh id, created now.
    pub fn add_bucket(&mut self, name: &String) -> (r: Result<Bucket, Error>)
        requires
            old(self).wf(),
        ensures
            final(self).wf(),
            final(self).same_except_buckets(*old(self)),
            old(self).has_bucket_named(name@) ==> r is Err,
            old(self).buckets@.len() == 0 && !old(self).has_bucket_named(name@) ==> r is Ok,
            r matches Err(e) && e.kind == ErrorKind::Internal ==> old(self).buckets@.len() > 0,
            r is Err ==> *final(self) == *old(self),
            r matches Err(e) ==> (e.kind == ErrorKind::InvalidInput <==> old(self).has_bucket_named(name@)) && (e.kind == ErrorKind::InvalidInput || e.kind
                == ErrorKind::Internal),
            r matches Ok(b) ==> {
                &&& !old(self).has_bucket_named(name@)
                &&& !old(self).has_bucket(b.id)
                &&& b.name@ == name@
                &&& b.object_count == 0
                &&& b.space_used == 0
                &&& final(self).has_bucket(b.id)
                &&& final(self).bucket_rec(b.id).name@ == name@
                &&& final(self).bucket_rec(b.id).created == b.created
                &&& final(self).bucket_rec(b.id).objects@ == Seq::<u128>::empty()
                &&& final(self).buckets@ == old(self).buckets@.push(
                    (b.id, final(self).bucket_rec(b.id)),
                )
                &&& final(self).has_bucket_named(name@)
                &&& final(self).bucket_named_id(name@) == b.id
            },
    {
        let id = generate_id();
        let created = now_timestamp();
        proof {
            if old(self).buckets@.len() == 0 {
                assert(!old(self).has_bucket(id)) by {
                    if old(self).has_bucket(id) {
                        let k = choose|k: int|
                            0 <= k < old(self).buckets@.len() && (#[trigger] old(
                                self,
                            ).buckets@[k]).0 == id;
                    }
                }
            }
        }
        let r = self.add_bucket_with_id(id, created, name);
        proof {
            if r is Err && !old(self).has_bucket_named(name@) {
                assert(old(self).has_bucket(id));
                let k = choose|k: int|
                    0 <= k < old(self).buckets@.len() && (#[trigger] old(self).buckets@[k]).0
                        == id;
            }
        }
        r
    }

    /// Creates a bucket under a caller-supplied id that shares the
    /// original bucket's object set by reference.
    #[verifier::loop_isolation(false)]
    pub fn clone_bucket_with_id(
        &mut self,
        original: u128,
        id: u128,
        created: i64,
        name: &String,
    ) -> (r: Result<Bucket, Error>)
        requires
            old(self).wf(),
        ensures
            final(self).wf(),
            r is Ok <==> (old(self).has_bucket(original) && !old(self).has_bucket_named(name@)
                && !old(self).has_bucket(id)),
            r is Err ==> *final(self) == *old(self),
            r matches Err(e) ==> e.kind == (if !old(self).has_bucket(original) {
                ErrorKind::NotFound
            } else if old(self).has_bucket_named(name@) {
                ErrorKind::InvalidInput
            } else {
                ErrorKind::Internal
            }),
            r is Ok ==> {
                &&& final(self).has_bucket(id)
                &&& final(self).bucket_rec(id).name@ == name@
                &&& final(self).bucket_rec(id).created == created
                &&& final(self).bucket_rec(id).objects@ == old(self).bucket_rec(original).objects@
                &&& final(self).buckets@ == old(self).buckets@.push((id, final(self).bucket_rec(id)))
            },
            r matches Ok(b) ==> b.id == id && b.name@ == name@ && b.created == created
                && b.object_count == old(self).bucket_rec(original).objects@.len() && b.space_used
                == Self::members_space(old(self).objects@, old(self).bucket_rec(original).objects@),
            final(self).same_except_buckets(*old(self)),
            forall|x: u128|
                x != id ==> (#[trigger] final(self).has_bucket(x) <==> old(self).has_bucket(x)),
            forall|x: u128|
                x != id && old(self).has_bucket(x) ==> #[trigger] final(self).bucket_rec(x) == old(self).bucket_rec(x),
    {
        let oi = match find(&self.buckets, original) {
            Some(oi) => oi,
            None => {
                return Err(Error::new(ErrorKind::NotFound, String::from_str("bucket not found")));
            },
        };
        proof {
            lemma_key_at(self.buckets@, original, oi as int);
        }
        let mut i: usize = 0;
        while i < self.buckets.len()
            invariant
                i <= self.buckets@.len(),
                forall|j: int| 0 <= j < i ==> (#[trigger] self.buckets@[j]).1.name@ != name@,
            decreases self.buckets@.len() - i,
        {
            if self.buckets[i].1.name == *name {
                proof {
                    assert(self.has_bucket_named(name@));
                }
                return Err(
                    Error::new(
                        ErrorKind::InvalidInput,
                        String::from_str("bucket name already in use"),
                    ),
                );
            }
            i = i + 1;
        }
        proof {
            assert(!self.has_bucket_named(name@)) by {
                if self.has_bucket_named(name@) {
                    let j = choose|j: int|
                        0 <= j < self.buckets@.len() && (#[trigger] self.buckets@[j]).1.name@
                            == name@;
                }
            }
        }
        if find(&self.buckets, id).is_some() {
            proof {
                assert(self.has_bucket(id));
            }
            return Err(
                Error::new(ErrorKind::Internal, String::from_str("bucket id already in use")),
            );
        }
        let members = clone_ids(&self.buckets[oi].1.objects);
        let space_used = self.space_of_members(&members);
        let object_count = members.len() as u64;
        let rec = BucketRecord { name: name.clone(), created, objects: members };
        insert_new(&mut self.buckets, id, rec);
        proof {
            let s = self.buckets@;
            let o = old(self).buckets@;
            assert forall|a: int, b: int| 0 <= a < b < s.len() implies (#[trigger] s[a]).1.name@
                != (#[trigger] s[b]).1.name@ by {
                if b == s.len() - 1 {
                    assert(s[a] == o[a]);
                }
            }
            assert forall|a: int|
                0 <= a < s.len() implies ids_unique((#[trigger] s[a]).1.objects@) by {
                if a < o.len() {
                    assert(s[a] == o[a]);
                } else {
                    assert(s[a].1.objects@ == o[oi as int].1.objects@);
                }
            }
            assert forall|a: int, k: int|
                0 <= a < s.len() && 0 <= k < s[a].1.objects@.len() implies has_key(
                self.objects@,
                #[trigger] s[a].1.objects@[k],
            ) by {
                if a < o.len() {
                    assert(s[a] == o[a]);
                } else {
                    assert(s[a].1.objects@ == o[oi as int].1.objects@);
                    assert(has_key(self.objects@, o[oi as int].1.objects@[k]));
                }
            }
        }
        Ok(Bucket { id, name: name.clone(), created, object_count, space_used })
    }

    /// Creates a bucket that shares the original bucket's object set:
    /// a fresh id, created now.
    pub fn clone_bucket(&mut self, original: u128, name: &String) -> (r: Result<Bucket, Error>)
        requires
            old(self).wf(),
        ensures
            final(self).wf(),
            final(self).same_except_buckets(*old(self)),
            r is Err ==> *final(self) == *old(self),
            !old(self).has_bucket(original) ==> (r matches Err(e) && e.kind == ErrorKind::NotFound),
            old(self).has_bucket(original) && old(self).has_bucket_named(name@) ==> (r matches Err(
                e,
            ) && e.kind == ErrorKind::InvalidInput),
            old(self).has_bucket(original) && !old(self).has_bucket_named(name@) && r is Err ==> (
            r matches Err(e) && e.kind == ErrorKind::Internal),
            r matches Ok(b) ==> {
                &&& old(self).has_bucket(original)
                &&& !old(self).has_bucket_named(name@)
                &&& b.name@ == name@
                &&& final(self).has_bucket(b.id)
                &&& final(self).bucket_rec(b.id).name@ == name@
                &&& final(self).bucket_rec(b.id).objects@ == old(self).bucket_rec(original).objects@
                &&& b.object_count == old(self).bucket_rec(original).objects@.len()
            },
    {
        let id = generate_id();
        let created = now_timestamp();
        self.clone_bucket_with_id(original, id, created, name)
    }

    /// Fetches the bucket with the given name.
    #[verifier::loop_isolation(false)]
    pub fn get_bucket(&self, name: &String) -> (r: Result<Bucket, Error>)
        requires
            self.wf(),
        ensures
            r is Ok <==> self.has_bucket_named(name@),
            r matches Err(e) ==> e.kind == ErrorKind::NotFound,
            r matches Ok(b) ==> {
                &&& b.id == self.bucket_named_id(name@)
                &&& self.has_bucket(b.id)
                &&& b.name@ == name@
                &&& b.created == self.bucket_rec(b.id).created
                &&& b.object_count == self.bucket_rec(b.id).objects@.len()
                &&& b.space_used == Self::members_space(
                    self.objects@,
                    self.bucket_rec(b.id).objects@,
                )
            },
    {
        let mut i: usize = 0;
        while i < self.buckets.len()
            invariant
                i <= self.buckets@.len(),
                forall|j: int| 0 <= j < i ==> (#[trigger] self.buckets@[j]).1.name@ != name@,
            decreases self.buckets@.len() - i,
        {
            if self.buckets[i].1.name == *name {
                proof {
                    self.lemma_bucket_named_at(name@, i as int);
                    lemma_key_at(self.buckets@, self.buckets@[i as int].0, i as int);
                }
                let b = self.bucket_view(self.buckets[i].0, &self.buckets[i].1);
                return Ok(b);
            }
            i = i + 1;
        }
        proof {
            assert(!self.has_bucket_named(name@)) by {
                if self.has_bucket_named(name@) {
                    let j = choose|j: int|
                        0 <= j < self.buckets@.len() && (#[trigger] self.buckets@[j]).1.name@
                            == name@;
                }
            }
        }
        Err(Error::new(ErrorKind::NotFound, String::from_str("bucket not found")))
    }

    /// Fetches every bucket.
    #[verifier::loop_isolation(false)]
    pub fn get_buckets(&self) -> (r: Result<Vec<Bucket>, Error>)
        requires
            self.wf(),
        ensures
            r is Ok,
            r matches Ok(list) ==> list@.len() == self.buckets@.len() && (forall|i: int|
                0 <= i < list@.len() ==> {
                    &&& (#[trigger] list@[i]).id == self.buckets@[i].0
                    &&& list@[i].name@ == self.buckets@[i].1.name@
                    &&& list@[i].created == self.buckets@[i].1.created
                    &&& list@[i].object_count == self.buckets@[i].1.objects@.len()
                    &&& list@[i].space_used == Self::members_space(
                        self.objects@,
                        self.buckets@[i].1.objects@,
                    )
                }),
    {
        let mut list: Vec<Bucket> = Vec::new();
        let mut i: usize = 0;
        while i < self.buckets.len()
            invariant
                self.wf(),
                i <= self.buckets@.len(),
                list@.len() == i,
                forall|j: int|
                    0 <= j < i ==> {
                        &&& (#[trigger] list@[j]).id == self.buckets@[j].0
                        &&& list@[j].name@ == self.buckets@[j].1.name@
                        &&& list@[j].created == self.buckets@[j].1.created
                        &&& list@[j].object_count == self.buckets@[j].1.objects@.len()
                        &&& list@[j].space_used == Self::members_space(
                            self.objects@,
                            self.buckets@[j].1.objects@,
                        )
                    },
            decreases self.buckets@.len() - i,
        {
            let b = self.bucket_view(self.buckets[i].0, &self.buckets[i].1);
            list.push(b);
            i = i + 1;
        }
        Ok(list)
    }

    /// Renames a bucket. The new name must not belong to another bucket.
    #[verifier::loop_isolation(false)]
    pub fn rename_bucket(&mut self, bucket_id: u128, new_name: &String) -> (r: Result<(), Error>)
        requires
            old(self).wf(),
        ensures
            final(self).wf(),
            r is Ok <==> (old(self).has_bucket(bucket_id) && !old(self).name_taken_by_other(
                bucket_id,
                new_name@,
            )),
            r is Err ==> *final(self) == *old(self),
            r matches Err(e) ==> e.kind == (if !old(self).has_bucket(bucket_id) {
                ErrorKind::NotFound
            } else {
                ErrorKind::InvalidInput
            }),
            r is Ok ==> {
                &&& final(self).has_bucket(bucket_id)
                &&& final(self).bucket_rec(bucket_id).name@ == new_name@
                &&& final(self).bucket_rec(bucket_id).created == old(self).bucket_rec(
                    bucket_id,
                ).created
                &&& final(self).bucket_rec(bucket_id).objects@ == old(self).bucket_rec(
                    bucket_id,
                ).objects@
            },
            final(self).same_except_buckets(*old(self)),
            forall|x: u128|
                x != bucket_id ==> (#[trigger] final(self).has_bucket(x) <==> old(self).has_bucket(
                    x,
                )),
            forall|x: u128|
                x != bucket_id && old(self).has_bucket(x) ==> #[trigger] final(self).bucket_rec(x)
                    == old(self).bucket_rec(x),
    {
        let bi = match find(&self.buckets, bucket_id) {
            Some(bi) => bi,
            None => {
                return Err(Error::new(ErrorKind::NotFound, String::from_str("bucket not found")));
            },
        };
        proof {
            lemma_key_at(self.buckets@, bucket_id, bi as int);
        }
        let mut i: usize = 0;
        while i < self.buckets.len()
            invariant
                i <= self.buckets@.len(),
                forall|j: int|
                    0 <= j < i ==> !((#[trigger] self.buckets@[j]).0 != bucket_id
                        && self.buckets@[j].1.name@ == new_name@),
            decreases self.buckets@.len() - i,
        {
            if self.buckets[i].0 != bucket_id && self.buckets[i].1.name == *new_name {
                proof {
                    assert(self.name_taken_by_other(bucket_id, new_name@));
                }
                return Err(
                    Error::new(
                        ErrorKind::InvalidInput,
                        String::from_str("bucket name already in use"),
                    ),
                );
            }
            i = i + 1;
        }
        proof {
            assert(!self.name_taken_by_other(bucket_id, new_name@)) by {
                if self.name_taken_by_other(bucket_id, new_name@) {
                    let j = choose|j: int|
                        0 <= j < self.buckets@.len() && (#[trigger] self.buckets@[j]).0 != bucket_id
                            && self.buckets@[j].1.name@ == new_name@;
                }
            }
        }
        let objects = clone_ids(&self.buckets[bi].1.objects);
        let created = self.buckets[bi].1.created;
        let rec = BucketRecord { name: new_name.clone(), created, objects };
        update_at(&mut self.buckets, bi, rec);
        proof {
            let s = self.buckets@;
            let o = old(self).buckets@;
            assert forall|a: int, b: int| 0 <= a < b < s.len() implies (#[trigger] s[a]).1.name@
                != (#[trigger] s[b]).1.name@ by {
                if a != bi as int && b != bi as int {
                    assert(s[a] == o[a]);
                    assert(s[b] == o[b]);
                } else if a == bi as int {
                    assert(s[b] == o[b]);
                    assert(o[b].0 != bucket_id);
                } else {
                    assert(s[a] == o[a]);
                    assert(o[a].0 != bucket_id);
                }
            }
            assert forall|a: int|
                0 <= a < s.len() implies ids_unique((#[trigger] s[a]).1.objects@) by {
                if a != bi as int {
                    assert(s[a] == o[a]);
                } else {
                    assert(s[a].1.objects@ == o[a].1.objects@);
                }
            }
            assert forall|a: int, k: int|
                0 <= a < s.len() && 0 <= k < s[a].1.objects@.len() implies has_key(
                self.objects@,
                #[trigger] s[a].1.objects@[k],
            ) by {
                if a != bi as int {
                    assert(s[a] == o[a]);
                } else {
                    assert(s[a].1.objects@ == o[a].1.objects@);
                    assert(has_key(self.objects@, o[a].1.objects@[k]));
                }
            }
            lemma_key_at(s, bucket_id, bi as int);
        }
        Ok(())
    }

    /// Removes a bucket and its membership edges; object rows survive.
    pub fn remove_bucket(&mut self, bucket_id: u128) -> (r: Result<(), Error>)
        requires
            old(self).wf(),
        ensures
            final(self).wf(),
            r is Ok,
            !final(self).has_bucket(bucket_id),
            final(self).same_except_buckets(*old(self)),
            forall|x: u128|
                x != bucket_id ==> (#[trigger] final(self).has_bucket(x) <==> old(self).has_bucket(
                    x,
                )),
            forall|x: u128|
                x != bucket_id && old(self).has_bucket(x) ==> #[trigger] final(self).bucket_rec(x)
                    == old(self).bucket_rec(x),
            !old(self).has_bucket(bucket_id) ==> *final(self) == *old(self),
    {
        let removed = remove_key(&mut self.buckets, bucket_id);
        proof {
            let s = self.buckets@;
            let o = old(self).buckets@;
            if removed is Some {
                let bi = key_index(o, bucket_id);
                assert forall|a: int, b: int| 0 <= a < b < s.len() implies (#[trigger] s[a]).1.name@
                    != (#[trigger] s[b]).1.name@ by {
                    let oa: int = if a < bi { a } else { a + 1 };
                    let ob: int = if b < bi { b } else { b + 1 };
                    assert(s[a] == o[oa]);
                    assert(s[b] == o[ob]);
                }
                assert forall|a: int|
                    0 <= a < s.len() implies ids_unique((#[trigger] s[a]).1.objects@) by {
                    let oa: int = if a < bi { a } else { a + 1 };
                    assert(s[a] == o[oa]);
                }
                assert forall|a: int, k: int|
                    0 <= a < s.len() && 0 <= k < s[a].1.objects@.len() implies has_key(
                    self.objects@,
                    #[trigger] s[a].1.objects@[k],
                ) by {
                    let oa: int = if a < bi { a } else { a + 1 };
                    assert(s[a] == o[oa]);
                    assert(has_key(self.objects@, o[oa].1.objects@[k]));
                }
            }
        }
        Ok(())
    }

    /// Whether the catalog holds a diagnostic record for the given object.
    pub open spec fn has_error(self, object_id: u128) -> bool {
        has_key(self.object_errors@, object_id)
    }

    /// The diagnostic messages recorded for the given object.
    pub open spec fn error_msgs(self, object_id: u128) -> Seq<String>
        recommends
            self.has_error(object_id),
    {
        val_of(self.object_errors@, object_id)@
    }

    /// Copies an object row.
    fn clone_object(o: &Object) -> (r: Object)
        ensures
            r == *o,
    {
        Object {
            id: o.id,
            hash: o.hash.clone(),
            size: o.size,
            media_type: o.media_type.clone(),
            media_subtype: o.media_subtype.clone(),
            added: o.added,
        }
    }

    /// Whether everything but the filesystem's staging area is unchanged
    /// between two store states.
    pub open spec fn same_except_parts(self, other: ObjectStore) -> bool {
        &&& self.schema_version == other.schema_version
        &&& self.buckets == other.buckets
        &&& self.objects == other.objects
        &&& self.object_errors == other.object_errors
        &&& self.fs.blobs == other.fs.blobs
        &&& self.archive == other.archive
        &&& self.tasks == other.tasks
        &&& self.about == other.about
    }

    /// Opens the staging part with the given id for writing, creating it
    /// empty if absent.
    pub fn get_part_with_id(&mut self, part_id: u128) -> (r: Result<u128, Error>)
        requires
            old(self).wf(),
        ensures
            final(self).wf(),
            final(self).same_except_parts(*old(self)),
            r matches Ok(p) && p == part_id,
            final(self).fs.has_part(part_id),
            old(self).fs.has_part(part_id) ==> *final(self) == *old(self),
            !old(self).fs.has_part(part_id) ==> final(self).fs.part_content(part_id)
                == Seq::<u8>::empty(),
            forall|x: u128|
                x != part_id ==> (#[trigger] final(self).fs.has_part(x) <==> old(self).fs.has_part(x)),
            forall|x: u128|
                x != part_id && old(self).fs.has_part(x) ==> #[trigger] final(self).fs.part_content(x) == old(self).fs.part_content(x),
    {
        self.fs.part(part_id);
        proof {
            assert(self.fs.blobs@ == old(self).fs.blobs@);
            assert forall|x: u128| #[trigger] self.fs.has_blob(x) implies has_key(
                self.objects@,
                x,
            ) by {
                assert(old(self).fs.has_blob(x));
            }
        }
        Ok(part_id)
    }

    /// Opens a staging part: the given one, or a freshly named one when
    /// the caller supplies no id.
    pub fn get_part(&mut self, part_id: Option<u128>) -> (r: Result<u128, Error>)
        requires
            old(self).wf(),
        ensures
            final(self).wf(),
            final(self).same_except_parts(*old(self)),
            r is Ok,
            part_id matches Some(q) ==> (r matches Ok(p) && p == q),
            r matches Ok(p) ==> {
                &&& final(self).fs.has_part(p)
                &&& (old(self).fs.has_part(p) ==> *final(self) == *old(self))
                &&& (!old(self).fs.has_part(p) ==> final(self).fs.part_content(p)
                    == Seq::<u8>::empty())
                &&& forall|x: u128|
                    x != p ==> (#[trigger] final(self).fs.has_part(x) <==> old(self).fs.has_part(x))
                &&& forall|x: u128|
                    x != p && old(self).fs.has_part(x) ==> #[trigger] final(self).fs.part_content(x)
                        == old(self).fs.part_content(x)
            },
    {
        match part_id {
            Some(id) => self.get_part_with_id(id),
            None => {
                let id = generate_id();
                self.get_part_with_id(id)
            },
        }
    }

    /// Appends bytes to the staging part with the given id.
    pub fn write_part(&mut self, part_id: u128, bytes: &Vec<u8>) -> (r: Result<(), Error>)
        requires
            old(self).wf(),
        ensures
            final(self).wf(),
            final(self).same_except_parts(*old(self)),
            r is Ok <==> old(self).fs.has_part(part_id),
            r matches Err(e) ==> e.kind == ErrorKind::NotFound && *final(self) == *old(self),
            r is Ok ==> final(self).fs.has_part(part_id) && final(self).fs.part_content(part_id)
                == old(self).fs.part_content(part_id) + bytes@,
            forall|x: u128|
                x != part_id ==> (#[trigger] final(self).fs.has_part(x) <==> old(self).fs.has_part(x)),
            forall|x: u128|
                x != part_id && old(self).fs.has_part(x) ==> #[trigger] final(self).fs.part_content(x) == old(self).fs.part_content(x),
    {
        let r = self.fs.write_part(part_id, bytes);
        proof {
            assert(self.fs.blobs@ == old(self).fs.blobs@);
            assert forall|x: u128| #[trigger] self.fs.has_blob(x) implies has_key(
                self.objects@,
                x,
            ) by {
                assert(old(self).fs.has_blob(x));
            }
        }
        r
    }

    /// Opens the committed blob for the given object id and returns its
    /// bytes.
    pub fn get_object(&self, object_id: u128) -> (r: Result<Vec<u8>, Error>)
        requires
            self.wf(),
        ensures
            r is Ok <==> self.fs.has_blob(object_id),
            r matches Ok(bytes) ==> bytes@ == self.fs.blob_content(object_id),
            r matches Err(e) ==> e.kind == ErrorKind::NotFound,
    {
        self.fs.object(object_id)
    }

    /// Commits a staged part into a bucket under a caller-supplied
    /// creation timestamp: the blob is promoted, a row is inserted, and a
    /// membership edge is added.
    #[verifier::loop_isolation(false)]
    pub fn commit_part_at(&mut self, bucket_id: u128, part_id: u128, added: i64) -> (r: Result<
        Object,
        Error,
    >)
        requires
            old(self).wf(),
        ensures
            final(self).wf(),
            r is Ok <==> (old(self).has_bucket(bucket_id) && old(self).fs.has_part(part_id) && !old(self).has_object(part_id) && old(self).fs.part_content(part_id).len()
                <= 0x7fff_ffff_ffff_ffff),
            r is Err ==> *final(self) == *old(self),
            r matches Err(e) ==> e.kind == (if !old(self).has_bucket(bucket_id) || !old(self).fs.has_part(part_id) {
                ErrorKind::NotFound
            } else if old(self).has_object(part_id) {
                ErrorKind::Internal
            } else {
                ErrorKind::InvalidInput
            }),
            r matches Ok(obj) ==> {
                let c = old(self).fs.part_content(part_id);
                &&& obj.id == part_id
                &&& obj.hash@ == content_hash(c)
                &&& obj.size == c.len()
                &&& obj.media_type@ == media_type_of(c)
                &&& obj.media_subtype@ == media_subtype_of(c)
                &&& obj.added == added
                &&& final(self).has_object(part_id)
                &&& final(self).object_row(part_id) == obj
                &&& final(self).objects@ == old(self).objects@.push((part_id, obj))
                &&& final(self).fs.has_blob(part_id)
                &&& final(self).fs.blob_content(part_id) == c
                &&& !final(self).fs.has_part(part_id)
                &&& final(self).has_bucket(bucket_id)
                &&& final(self).is_member(bucket_id, part_id)
                &&& final(self).bucket_rec(bucket_id).objects@ == old(self).bucket_rec(
                    bucket_id,
                ).objects@.push(part_id)
                &&& final(self).bucket_rec(bucket_id).name@ == old(self).bucket_rec(bucket_id).name@
                &&& final(self).bucket_rec(bucket_id).created == old(self).bucket_rec(
                    bucket_id,
                ).created
                &&& final(self).buckets@.len() == old(self).buckets@.len()
            },
            r is Ok ==> {
                &&& (forall|x: u128|
                    x != part_id ==> (#[trigger] final(self).fs.has_blob(x) <==> old(self).fs.has_blob(x)))
                &&& (forall|x: u128|
                    x != part_id && old(self).fs.has_blob(x) ==> #[trigger] final(self).fs.blob_content(x) == old(self).fs.blob_content(x))
                &&& (forall|x: u128|
                    x != part_id ==> (#[trigger] final(self).fs.has_part(x) <==> old(self).fs.has_part(x)))
                &&& (forall|x: u128|
                    x != part_id && old(self).fs.has_part(x) ==> #[trigger] final(self).fs.part_content(x) == old(self).fs.part_content(x))
                &&& (forall|x: u128|
                    x != bucket_id ==> (#[trigger] final(self).has_bucket(x) <==> old(self).has_bucket(x)))
                &&& (forall|x: u128|
                    x != bucket_id && old(self).has_bucket(x) ==> #[trigger] final(self).bucket_rec(x) == old(self).bucket_rec(x))
                &&& (forall|x: u128|
                    x != part_id ==> (#[trigger] final(self).has_object(x) <==> old(self).has_object(x)))
                &&& (forall|x: u128|
                    x != part_id && old(self).has_object(x) ==> #[trigger] final(self).object_row(x)
                        == old(self).object_row(x))
                &&& final(self).object_errors == old(self).object_errors
                &&& final(self).archive == old(self).archive
                &&& final(self).tasks == old(self).tasks
                &&& final(self).about == old(self).about
            },
    {
        let bi = match find(&self.buckets, bucket_id) {
            Some(bi) => bi,
            None => {
                return Err(Error::new(ErrorKind::NotFound, String::from_str("bucket not found")));
            },
        };
        proof {
            lemma_key_at(self.buckets@, bucket_id, bi as int);
        }
        if find(&self.fs.parts, part_id).is_none() {
            return Err(Error::new(ErrorKind::NotFound, String::from_str("part not found")));
        }
        proof {
            assert(self.fs.has_part(part_id));
        }
        if find(&self.objects, part_id).is_some() {
            proof {
                assert(self.has_object(part_id));
            }
            return Err(
                Error::new(
                    ErrorKind::Internal,
                    String::from_str("an object with this id already exists"),
                ),
            );
        }
        proof {
            assert(!self.fs.has_blob(part_id));
        }
        let obj = match self.fs.commit(part_id, added) {
            Ok(obj) => obj,
            Err(e) => {
                return Err(e);
            },
        };
        let row = Self::clone_object(&obj);
        insert_new(&mut self.objects, part_id, row);
        let mut members = clone_ids(&self.buckets[bi].1.objects);
        members.push(part_id);
        let name = self.buckets[bi].1.name.clone();
        let created = self.buckets[bi].1.created;
        let rec = BucketRecord { name, created, objects: members };
        update_at(&mut self.buckets, bi, rec);
        proof {
            let s = self.buckets@;
            let o = old(self).buckets@;
            let orec = o[bi as int].1;
            assert(!orec.objects@.contains(part_id)) by {
                if orec.objects@.contains(part_id) {
                    let k = choose|k: int|
                        0 <= k < orec.objects@.len() && orec.objects@[k] == part_id;
                    assert(has_key(old(self).objects@, orec.objects@[k]));
                }
            }
            assert forall|a: int, b: int| 0 <= a < b < s.len() implies (#[trigger] s[a]).1.name@
                != (#[trigger] s[b]).1.name@ by {
                if a != bi as int {
                    assert(s[a] == o[a]);
                }
                if b != bi as int {
                    assert(s[b] == o[b]);
                }
            }
            assert forall|a: int|
                0 <= a < s.len() implies ids_unique((#[trigger] s[a]).1.objects@) by {
                if a != bi as int {
                    assert(s[a] == o[a]);
                } else {
                    assert(s[a].1.objects@ == orec.objects@.push(part_id));
                    assert forall|c: int, d: int|
                        0 <= c < d < s[a].1.objects@.len() implies #[trigger] s[a].1.objects@[c]
                        != #[trigger] s[a].1.objects@[d] by {
                        if d == s[a].1.objects@.len() - 1 {
                            assert(s[a].1.objects@[c] == orec.objects@[c]);
                            if orec.objects@[c] == part_id {
                                assert(orec.objects@.contains(part_id));
                            }
                        }
                    }
                }
            }
            assert forall|a: int, k: int|
                0 <= a < s.len() && 0 <= k < s[a].1.objects@.len() implies has_key(
                self.objects@,
                #[trigger] s[a].1.objects@[k],
            ) by {
                if a != bi as int {
                    assert(s[a] == o[a]);
                    assert(has_key(old(self).objects@, s[a].1.objects@[k]));
                } else {
                    assert(s[a].1.objects@ == orec.objects@.push(part_id));
                    if k < orec.objects@.len() {
                        assert(s[a].1.objects@[k] == orec.objects@[k]);
                        assert(has_key(old(self).objects@, orec.objects@[k]));
                    }
                }
            }
            assert forall|a: int|
                0 <= a < self.objects@.len() implies (#[trigger] self.objects@[a]).1.id
                == self.objects@[a].0 by {
                if a < old(self).objects@.len() {
                    assert(self.objects@[a] == old(self).objects@[a]);
                }
            }
            assert forall|x: u128| #[trigger] self.fs.has_blob(x) implies has_key(
                self.objects@,
                x,
            ) by {
                if x != part_id {
                    assert(old(self).fs.has_blob(x));
                    assert(has_key(old(self).objects@, x));
                }
            }
            lemma_key_at(s, bucket_id, bi as int);
            lemma_contains_push(orec.objects@, part_id, part_id);
        }
        Ok(obj)
    }

    /// Commits a staged part into a bucket: the object's creation
    /// timestamp is read from the clock now.
    pub fn commit_part(&mut self, bucket_id: u128, part_id: u128) -> (r: Result<Object, Error>)
        requires
            old(self).wf(),
        ensures
            final(self).wf(),
            r is Ok <==> (old(self).has_bucket(bucket_id) && old(self).fs.has_part(part_id) && !old(self).has_object(part_id) && old(self).fs.part_content(part_id).len()
                <= 0x7fff_ffff_ffff_ffff),
            r is Err ==> *final(self) == *old(self),
            r matches Err(e) ==> e.kind == (if !old(self).has_bucket(bucket_id) || !old(self).fs.has_part(part_id) {
                ErrorKind::NotFound
            } else if old(self).has_object(part_id) {
                ErrorKind::Internal
            } else {
                ErrorKind::InvalidInput
            }),
            r matches Ok(obj) ==> {
                let c = old(self).fs.part_content(part_id);
                &&& obj.id == part_id
                &&& obj.hash@ == content_hash(c)
                &&& obj.size == c.len()
                &&& obj.media_type@ == media_type_of(c)
                &&& obj.media_subtype@ == media_subtype_of(c)
                &&& final(self).has_object(part_id)
                &&& final(self).object_row(part_id) == obj
                &&& final(self).objects@ == old(self).objects@.push((part_id, obj))
                &&& final(self).fs.has_blob(part_id)
                &&& final(self).fs.blob_content(part_id) == c
                &&& !final(self).fs.has_part(part_id)
                &&& final(self).has_bucket(bucket_id)
                &&& final(self).is_member(bucket_id, part_id)
                &&& final(self).bucket_rec(bucket_id).objects@ == old(self).bucket_rec(
                    bucket_id,
                ).objects@.push(part_id)
                &&& final(self).bucket_rec(bucket_id).name@ == old(self).bucket_rec(bucket_id).name@
                &&& final(self).bucket_rec(bucket_id).created == old(self).bucket_rec(
                    bucket_id,
                ).created
                &&& final(self).buckets@.len() == old(self).buckets@.len()
            },
            r is Ok ==> {
                &&& (forall|x: u128|
                    x != part_id ==> (#[trigger] final(self).fs.has_blob(x) <==> old(self).fs.has_blob(x)))
                &&& (forall|x: u128|
                    x != part_id && old(self).fs.has_blob(x) ==> #[trigger] final(self).fs.blob_content(x) == old(self).fs.blob_content(x))
                &&& (forall|x: u128|
                    x != part_id ==> (#[trigger] final(self).fs.has_part(x) <==> old(self).fs.has_part(x)))
                &&& (forall|x: u128|
                    x != part_id && old(self).fs.has_part(x) ==> #[trigger] final(self).fs.part_content(x) == old(self).fs.part_content(x))
                &&& (forall|x: u128|
                    x != bucket_id ==> (#[trigger] final(self).has_bucket(x) <==> old(self).has_bucket(x)))
                &&& (forall|x: u128|
                    x != bucket_id && old(self).has_bucket(x) ==> #[trigger] final(self).bucket_rec(x) == old(self).bucket_rec(x))
                &&& (forall|x: u128|
                    x != part_id ==> (#[trigger] final(self).has_object(x) <==> old(self).has_object(x)))
                &&& (forall|x: u128|
                    x != part_id && old(self).has_object(x) ==> #[trigger] final(self).object_row(x)
                        == old(self).object_row(x))
                &&& final(self).object_errors == old(self).object_errors
                &&& final(self).archive == old(self).archive
                &&& final(self).tasks == old(self).tasks
                &&& final(self).about == old(self).about
            },
    {
        let added = now_timestamp();
        self.commit_part_at(bucket_id, part_id, added)
    }

    /// The rows that the requested ids resolve to among the given
    /// members: one row per distinct requested member, at its first
    /// occurrence in the request order.
    pub open spec fn selected_rows(self, members: Seq<u128>, ids: Seq<u128>) -> Seq<Object>
        decreases ids.len(),
    {
        if ids.len() == 0 {
            Seq::empty()
        } else {
            let rest = self.selected_rows(members, ids.drop_last());
            if members.contains(ids.last()) && has_key(self.objects@, ids.last())
                && !ids.drop_last().contains(ids.last()) {
                rest.push(val_of(self.objects@, ids.last()))
            } else {
                rest
            }
        }
    }

    /// The selection lists exactly the distinct requested members, each
    /// once, as its catalog row.
    pub proof fn lemma_selected_rows(self, members: Seq<u128>, ids: Seq<u128>)
        requires
            self.objects_wf(),
        ensures
            forall|k: int|
                0 <= k < self.selected_rows(members, ids).len() ==> {
                    let o = #[trigger] self.selected_rows(members, ids)[k];
                    &&& ids.contains(o.id)
                    &&& members.contains(o.id)
                    &&& has_key(self.objects@, o.id)
                    &&& o == val_of(self.objects@, o.id)
                },
            forall|a: int, b: int|
                0 <= a < b < self.selected_rows(members, ids).len()
                    ==> (#[trigger] self.selected_rows(members, ids)[a]).id
                    != (#[trigger] self.selected_rows(members, ids)[b]).id,
            forall|x: u128|
                ids.contains(x) && members.contains(x) && has_key(self.objects@, x)
                    ==> Self::lists_id(self.selected_rows(members, ids), x),
        decreases ids.len(),
    {
        let sel = self.selected_rows(members, ids);
        if ids.len() == 0 {
        } else {
            let d = ids.drop_last();
            let last = ids.last();
            let sub = self.selected_rows(members, d);
            self.lemma_selected_rows(members, d);
            assert forall|y: u128| #[trigger] d.contains(y) implies ids.contains(y) by {
                let k = choose|k: int| 0 <= k < d.len() && d[k] == y;
                assert(ids[k] == y);
            }
            if members.contains(last) && has_key(self.objects@, last) && !d.contains(last) {
                let ki = key_index(self.objects@, last);
                assert(self.objects@[ki].0 == last);
                assert(self.objects@[ki].1.id == self.objects@[ki].0);
                assert(val_of(self.objects@, last).id == last);
                assert forall|a: int, b: int| 0 <= a < b < sel.len() implies (
                #[trigger] sel[a]).id != (#[trigger] sel[b]).id by {
                    if b == sel.len() - 1 {
                        assert(sel[a] == sub[a]);
                        assert(d.contains(sub[a].id));
                    }
                }
            }
            assert forall|x: u128|
                ids.contains(x) && members.contains(x) && has_key(self.objects@, x)
                    implies Self::lists_id(sel, x) by {
                if x == last {
                    if d.contains(last) {
                        assert(Self::lists_id(sub, x));
                        let k = choose|k: int| 0 <= k < sub.len() && (#[trigger] sub[k]).id == x;
                        assert(sel[k] == sub[k]);
                    } else {
                        assert(sel.last().id == last);
                    }
                } else {
                    let k = choose|k: int| 0 <= k < ids.len() && ids[k] == x;
                    assert(d[k] == x);
                    assert(d.contains(x));
                    assert(Self::lists_id(sub, x));
                    let j = choose|j: int| 0 <= j < sub.len() && (#[trigger] sub[j]).id == x;
                    assert(sel[j] == sub[j]);
                }
            }
        }
    }

    /// Whether the id already occurs among the first `upto` requested ids.
    #[verifier::loop_isolation(false)]
    fn requested_earlier(ids: &Vec<u128>, upto: usize, id: u128) -> (r: bool)
        requires
            upto <= ids@.len(),
        ensures
            r == ids@.take(upto as int).contains(id),
    {
        let mut j: usize = 0;
        while j < upto
            invariant
                j <= upto,
                forall|k: int| 0 <= k < j ==> ids@[k] != id,
            decreases upto - j,
        {
            if ids[j] == id {
                proof {
                    assert(ids@.take(upto as int)[j as int] == id);
                }
                return true;
            }
            j = j + 1;
        }
        proof {
            assert(!ids@.take(upto as int).contains(id)) by {
                if ids@.take(upto as int).contains(id) {
                    let k = choose|k: int|
                        0 <= k < upto && #[trigger] ids@.take(upto as int)[k] == id;
                    assert(ids@[k] == id);
                }
            }
        }
        false
    }

    /// Fetches every object of a bucket, in membership order.
    #[verifier::loop_isolation(false)]
    pub fn get_all_objects(&self, bucket_id: u128) -> (r: Result<Vec<Object>, Error>)
        requires
            self.wf(),
        ensures
            r is Ok <==> self.has_bucket(bucket_id),
            r matches Err(e) ==> e.kind == ErrorKind::NotFound,
            r matches Ok(list) ==> {
                &&& list@.len() == self.bucket_rec(bucket_id).objects@.len()
                &&& forall|i: int|
                    0 <= i < list@.len() ==> #[trigger] list@[i] == self.object_row(
                        self.bucket_rec(bucket_id).objects@[i],
                    )
            },
    {
        let bi = match find(&self.buckets, bucket_id) {
            Some(bi) => bi,
            None => {
                return Err(Error::new(ErrorKind::NotFound, String::from_str("bucket not found")));
            },
        };
        proof {
            lemma_key_at(self.buckets@, bucket_id, bi as int);
        }
        let mut list: Vec<Object> = Vec::new();
        let mut k: usize = 0;
        while k < self.buckets[bi].1.objects.len()
            invariant
                k <= self.buckets@[bi as int].1.objects@.len(),
                list@.len() == k,
                forall|j: int|
                    0 <= j < k ==> #[trigger] list@[j] == self.object_row(
                        self.buckets@[bi as int].1.objects@[j],
                    ),
            decreases self.buckets@[bi as int].1.objects@.len() - k,
        {
            let member = self.buckets[bi].1.objects[k];
            match find(&self.objects, member) {
                Some(oi) => {
                    proof {
                        lemma_key_at(self.objects@, member, oi as int);
                    }
                    list.push(Self::clone_object(&self.objects[oi].1));
                },
                None => {
                    proof {
                        assert(has_key(self.objects@, self.buckets@[bi as int].1.objects@[k as int]));
                        assert(false);
                    }
                },
            }
            k = k + 1;
        }
        Ok(list)
    }

    /// Fetches the rows for the requested ids that are members of the
    /// bucket: one row per distinct requested member, in request order;
    /// ids that are not members are skipped.
    #[verifier::loop_isolation(false)]
    pub fn get_objects(&self, bucket_id: u128, ids: &Vec<u128>) -> (r: Result<Vec<Object>, Error>)
        requires
            self.wf(),
        ensures
            r is Ok <==> self.has_bucket(bucket_id),
            r matches Err(e) ==> e.kind == ErrorKind::NotFound,
            r matches Ok(list) ==> list@ == self.selected_rows(
                self.bucket_rec(bucket_id).objects@,
                ids@,
            ),
            r matches Ok(list) ==> (forall|a: int, b: int|
                0 <= a < b < list@.len() ==> (#[trigger] list@[a]).id != (#[trigger] list@[b]).id),
            r matches Ok(list) ==> (forall|k: int|
                0 <= k < list@.len() ==> {
                    let o = #[trigger] list@[k];
                    &&& ids@.contains(o.id)
                    &&& self.is_member(bucket_id, o.id)
                    &&& o == self.object_row(o.id)
                }),
            r matches Ok(list) ==> (forall|x: u128|
                ids@.contains(x) && #[trigger] self.is_member(bucket_id, x) ==> Self::lists_id(
                    list@,
                    x,
                )),
    {
        let bi = match find(&self.buckets, bucket_id) {
            Some(bi) => bi,
            None => {
                return Err(Error::new(ErrorKind::NotFound, String::from_str("bucket not found")));
            },
        };
        proof {
            lemma_key_at(self.buckets@, bucket_id, bi as int);
        }
        let ghost members = self.buckets@[bi as int].1.objects@;
        let mut list: Vec<Object> = Vec::new();
        let mut i: usize = 0;
        while i < ids.len()
            invariant
                i <= ids@.len(),
                list@ == self.selected_rows(members, ids@.take(i as int)),
            decreases ids@.len() - i,
        {
            proof {
                assert(ids@.take(i as int + 1).drop_last() =~= ids@.take(i as int));
                assert(ids@.take(i as int + 1).last() == ids@[i as int]);
            }
            let id = ids[i];
            if !Self::requested_earlier(ids, i, id) && contains_id(&self.buckets[bi].1.objects, id)
            {
                match find(&self.objects, id) {
                    Some(oi) => {
                        proof {
                            lemma_key_at(self.objects@, id, oi as int);
                        }
                        list.push(Self::clone_object(&self.objects[oi].1));
                    },
                    None => {
                        proof {
                            let k = choose|k: int| 0 <= k < members.len() && members[k] == id;
                            assert(has_key(self.objects@, self.buckets@[bi as int].1.objects@[k]));
                            assert(false);
                        }
                    },
                }
            }
            i = i + 1;
        }
        proof {
            assert(ids@.take(ids@.len() as int) =~= ids@);
            self.lemma_selected_rows(members, ids@);
            assert forall|x: u128|
                ids@.contains(x) && #[trigger] self.is_member(bucket_id, x) implies Self::lists_id(
                list@,
                x,
            ) by {
                let k = choose|k: int| 0 <= k < members.len() && members[k] == x;
                assert(has_key(self.objects@, self.buckets@[bi as int].1.objects@[k]));
            }
            assert forall|k: int| 0 <= k < list@.len() implies {
                let o = #[trigger] list@[k];
                &&& ids@.contains(o.id)
                &&& self.is_member(bucket_id, o.id)
                &&& o == self.object_row(o.id)
            } by {
                assert(members.contains(list@[k].id));
            }
        }
        Ok(list)
    }

    /// Fetches the row for one object of a bucket.
    pub fn get_object_metadata(&self, bucket_id: u128, object_id: u128) -> (r: Result<
        Object,
        Error,
    >)
        requires
            self.wf(),
        ensures
            r is Ok <==> self.is_member(bucket_id, object_id),
            r matches Err(e) ==> e.kind == ErrorKind::NotFound,
            r matches Ok(obj) ==> obj == self.object_row(object_id),
    {
        let bi = match find(&self.buckets, bucket_id) {
            Some(bi) => bi,
            None => {
                return Err(
                    Error::new(ErrorKind::NotFound, String::from_str("bucket or object not found")),
                );
            },
        };
        proof {
            lemma_key_at(self.buckets@, bucket_id, bi as int);
        }
        if !contains_id(&self.buckets[bi].1.objects, object_id) {
            return Err(
                Error::new(ErrorKind::NotFound, String::from_str("bucket or object not found")),
            );
        }
        match find(&self.objects, object_id) {
            Some(oi) => {
                proof {
                    lemma_key_at(self.objects@, object_id, oi as int);
                }
                Ok(Self::clone_object(&self.objects[oi].1))
            },
            None => {
                proof {
                    let k = choose|k: int|
                        0 <= k < self.buckets@[bi as int].1.objects@.len()
                            && self.buckets@[bi as int].1.objects@[k] == object_id;
                    assert(has_key(self.objects@, self.buckets@[bi as int].1.objects@[k]));
                    assert(false);
                }
                Err(Error::new(ErrorKind::NotFound, String::from_str("bucket or object not found")))
            },
        }
    }

    /// Copies the member list, leaving out every id in `ids`.
    #[verifier::loop_isolation(false)]
    fn remove_members(members: &Vec<u128>, ids: &Vec<u128>) -> (r: Vec<u128>)
        requires
            ids_unique(members@),
        ensures
            ids_unique(r@),
            forall|x: u128| #[trigger] r@.contains(x) <==> (members@.contains(x) && !ids@.contains(x)),
    {
        let mut r: Vec<u128> = Vec::new();
        let mut i: usize = 0;
        while i < members.len()
            invariant
                i <= members@.len(),
                ids_unique(r@),
                forall|x: u128|
                    #[trigger] r@.contains(x) <==> (members@.take(i as int).contains(x)
                        && !ids@.contains(x)),
            decreases members@.len() - i,
        {
            let ghost prev = r@;
            let m = members[i];
            if !contains_id(ids, m) {
                r.push(m);
                proof {
                    assert forall|a: int, b: int| 0 <= a < b < r@.len() implies #[trigger] r@[a]
                        != #[trigger] r@[b] by {
                        if b == r@.len() - 1 {
                            assert(prev[a] == r@[a]);
                            if r@[a] == m {
                                assert(prev.contains(m));
                                let k = choose|k: int|
                                    0 <= k < i && #[trigger] members@.take(i as int)[k] == m;
                                assert(members@[k] == m);
                            }
                        }
                    }
                }
            }
            proof {
                assert forall|x: u128| #[trigger] r@.contains(x) implies (members@.take(
                    i as int + 1,
                ).contains(x) && !ids@.contains(x)) by {
                    lemma_contains_push(prev, m, x);
                    lemma_contains_take(members@, i as int, x);
                }
                assert forall|x: u128|
                    members@.take(i as int + 1).contains(x) && !ids@.contains(x) implies #[trigger] r@.contains(x) by {
                    lemma_contains_take(members@, i as int, x);
                    if !ids@.contains(m) {
                        lemma_contains_push(prev, m, x);
                    }
                }
            }
            i = i + 1;
        }
        proof {
            assert(members@.take(members@.len() as int) =~= members@);
        }
        r
    }

    /// Removes one object from a bucket's membership and returns its row;
    /// the row itself survives until a later prune.
    #[verifier::loop_isolation(false)]
    pub fn remove_object(&mut self, bucket_id: u128, object_id: u128) -> (r: Result<Object, Error>)
        requires
            old(self).wf(),
        ensures
            final(self).wf(),
            r is Ok <==> old(self).is_member(bucket_id, object_id),
            r is Err ==> *final(self) == *old(self),
            r matches Err(e) ==> e.kind == ErrorKind::NotFound,
            r matches Ok(obj) ==> obj == old(self).object_row(object_id),
            r is Ok ==> {
                &&& final(self).has_bucket(bucket_id)
                &&& !final(self).is_member(bucket_id, object_id)
                &&& final(self).bucket_rec(bucket_id).name@ == old(self).bucket_rec(bucket_id).name@
                &&& final(self).bucket_rec(bucket_id).created == old(self).bucket_rec(
                    bucket_id,
                ).created
                &&& (forall|x: u128|
                    x != object_id ==> (final(self).bucket_rec(bucket_id).objects@.contains(x)
                        <==> old(self).bucket_rec(bucket_id).objects@.contains(x)))
                &&& (forall|x: u128|
                    x != bucket_id ==> (#[trigger] final(self).has_bucket(x) <==> old(self).has_bucket(x)))
                &&& (forall|x: u128|
                    x != bucket_id && old(self).has_bucket(x) ==> #[trigger] final(self).bucket_rec(x) == old(self).bucket_rec(x))
                &&& final(self).same_except_buckets(*old(self))
            },
    {
        let bi = match find(&self.buckets, bucket_id) {
            Some(bi) => bi,
            None => {
                return Err(
                    Error::new(ErrorKind::NotFound, String::from_str("bucket or object not found")),
                );
            },
        };
        proof {
            lemma_key_at(self.buckets@, bucket_id, bi as int);
        }
        if !contains_id(&self.buckets[bi].1.objects, object_id) {
            return Err(
                Error::new(ErrorKind::NotFound, String::from_str("bucket or object not found")),
            );
        }
        let row = match find(&self.objects, object_id) {
            Some(oi) => {
                proof {
                    lemma_key_at(self.objects@, object_id, oi as int);
                }
                Self::clone_object(&self.objects[oi].1)
            },
            None => {
                proof {
                    let k = choose|k: int|
                        0 <= k < self.buckets@[bi as int].1.objects@.len()
                            && self.buckets@[bi as int].1.objects@[k] == object_id;
                    assert(has_key(self.objects@, self.buckets@[bi as int].1.objects@[k]));
                    assert(false);
                }
                return Err(
                    Error::new(ErrorKind::NotFound, String::from_str("bucket or object not found")),
                );
            },
        };
        let mut only: Vec<u128> = Vec::new();
        only.push(object_id);
        proof {
            assert forall|x: u128| #[trigger] only@.contains(x) implies x == object_id by {
                let k = choose|k: int| 0 <= k < only@.len() && only@[k] == x;
            }
            assert(only@[0] == object_id);
        }
        let members = Self::remove_members(&self.buckets[bi].1.objects, &only);
        let name = self.buckets[bi].1.name.clone();
        let created = self.buckets[bi].1.created;
        update_at(&mut self.buckets, bi, BucketRecord { name, created, objects: members });
        proof {
            let s = self.buckets@;
            let o = old(self).buckets@;
            assert forall|a: int, b: int| 0 <= a < b < s.len() implies (#[trigger] s[a]).1.name@
                != (#[trigger] s[b]).1.name@ by {
                if a != bi as int {
                    assert(s[a] == o[a]);
                }
                if b != bi as int {
                    assert(s[b] == o[b]);
                }
            }
            assert forall|a: int|
                0 <= a < s.len() implies ids_unique((#[trigger] s[a]).1.objects@) by {
                if a != bi as int {
                    assert(s[a] == o[a]);
                }
            }
            assert forall|a: int, k: int|
                0 <= a < s.len() && 0 <= k < s[a].1.objects@.len() implies has_key(
                self.objects@,
                #[trigger] s[a].1.objects@[k],
            ) by {
                if a != bi as int {
                    assert(s[a] == o[a]);
                    assert(has_key(self.objects@, s[a].1.objects@[k]));
                } else {
                    assert(s[a].1.objects@.contains(s[a].1.objects@[k]));
                    assert(o[a].1.objects@.contains(s[a].1.objects@[k]));
                    let j = choose|j: int|
                        0 <= j < o[a].1.objects@.len() && o[a].1.objects@[j] == s[a].1.objects@[k];
                    assert(has_key(self.objects@, o[a].1.objects@[j]));
                }
            }
            lemma_key_at(s, bucket_id, bi as int);
        }
        Ok(row)
    }

    /// Removes several objects from a bucket's membership, reporting which
    /// of the requested ids were members and which were not.
    #[verifier::loop_isolation(false)]
    pub fn remove_objects(&mut self, bucket_id: u128, ids: &Vec<u128>) -> (r: Result<
        RemoveResult,
        Error,
    >)
        requires
            old(self).wf(),
        ensures
            final(self).wf(),
            r is Ok <==> old(self).has_bucket(bucket_id),
            r is Err ==> *final(self) == *old(self),
            r matches Err(e) ==> e.kind == ErrorKind::NotFound,
            r matches Ok(report) ==> {
                &&& (forall|x: u128|
                    #[trigger] report.removed@.contains(x) <==> (ids@.contains(x) && old(self).is_member(bucket_id, x)))
                &&& (forall|x: u128|
                    #[trigger] report.not_found@.contains(x) <==> (ids@.contains(x) && !old(self).is_member(bucket_id, x)))
                &&& final(self).has_bucket(bucket_id)
                &&& (forall|x: u128|
                    final(self).bucket_rec(bucket_id).objects@.contains(x) <==> (old(self).bucket_rec(bucket_id).objects@.contains(x) && !ids@.contains(x)))
                &&& final(self).bucket_rec(bucket_id).name@ == old(self).bucket_rec(bucket_id).name@
                &&& final(self).bucket_rec(bucket_id).created == old(self).bucket_rec(
                    bucket_id,
                ).created
                &&& (forall|x: u128|
                    x != bucket_id ==> (#[trigger] final(self).has_bucket(x) <==> old(self).has_bucket(x)))
                &&& (forall|x: u128|
                    x != bucket_id && old(self).has_bucket(x) ==> #[trigger] final(self).bucket_rec(x) == old(self).bucket_rec(x))
                &&& final(self).same_except_buckets(*old(self))
            },
    {
        let bi = match find(&self.buckets, bucket_id) {
            Some(bi) => bi,
            None => {
                return Err(Error::new(ErrorKind::NotFound, String::from_str("bucket not found")));
            },
        };
        proof {
            lemma_key_at(self.buckets@, bucket_id, bi as int);
        }
        let mut removed: Vec<u128> = Vec::new();
        let mut not_found: Vec<u128> = Vec::new();
        let mut i: usize = 0;
        while i < ids.len()
            invariant
                i <= ids@.len(),
                forall|x: u128|
                    #[trigger] removed@.contains(x) <==> (ids@.take(i as int).contains(x)
                        && self.bucket_rec(bucket_id).objects@.contains(x)),
                forall|x: u128|
                    #[trigger] not_found@.contains(x) <==> (ids@.take(i as int).contains(x)
                        && !self.bucket_rec(bucket_id).objects@.contains(x)),
            decreases ids@.len() - i,
        {
            let ghost prev_r = removed@;
            let ghost prev_n = not_found@;
            let id = ids[i];
            let member = contains_id(&self.buckets[bi].1.objects, id);
            if member {
                removed.push(id);
            } else {
                not_found.push(id);
            }
            proof {
                assert forall|x: u128| #[trigger] removed@.contains(x) implies (ids@.take(
                    i as int + 1,
                ).contains(x) && self.bucket_rec(bucket_id).objects@.contains(x)) by {
                    if member {
                        lemma_contains_push(prev_r, id, x);
                    }
                    lemma_contains_take(ids@, i as int, x);
                }
                assert forall|x: u128|
                    ids@.take(i as int + 1).contains(x) && self.bucket_rec(
                        bucket_id,
                    ).objects@.contains(x) implies #[trigger] removed@.contains(x) by {
                    lemma_contains_take(ids@, i as int, x);
                    if member {
                        lemma_contains_push(prev_r, id, x);
                    }
                }
                assert forall|x: u128| #[trigger] not_found@.contains(x) implies (ids@.take(
                    i as int + 1,
                ).contains(x) && !self.bucket_rec(bucket_id).objects@.contains(x)) by {
                    if !member {
                        lemma_contains_push(prev_n, id, x);
                    }
                    lemma_contains_take(ids@, i as int, x);
                }
                assert forall|x: u128|
                    ids@.take(i as int + 1).contains(x) && !self.bucket_rec(
                        bucket_id,
                    ).objects@.contains(x) implies #[trigger] not_found@.contains(x) by {
                    lemma_contains_take(ids@, i as int, x);
                    if !member {
                        lemma_contains_push(prev_n, id, x);
                    }
                }
            }
            i = i + 1;
        }
        proof {
            assert(ids@.take(ids@.len() as int) =~= ids@);
        }
        let members = Self::remove_members(&self.buckets[bi].1.objects, ids);
        let name = self.buckets[bi].1.name.clone();
        let created = self.buckets[bi].1.created;
        update_at(&mut self.buckets, bi, BucketRecord { name, created, objects: members });
        proof {
            let s = self.buckets@;
            let o = old(self).buckets@;
            assert forall|a: int, b: int| 0 <= a < b < s.len() implies (#[trigger] s[a]).1.name@
                != (#[trigger] s[b]).1.name@ by {
                if a != bi as int {
                    assert(s[a] == o[a]);
                }
                if b != bi as int {
                    assert(s[b] == o[b]);
                }
            }
            assert forall|a: int|
                0 <= a < s.len() implies ids_unique((#[trigger] s[a]).1.objects@) by {
                if a != bi as int {
                    assert(s[a] == o[a]);
                }
            }
            assert forall|a: int, k: int|
                0 <= a < s.len() && 0 <= k < s[a].1.objects@.len() implies has_key(
                self.objects@,
                #[trigger] s[a].1.objects@[k],
            ) by {
                if a != bi as int {
                    assert(s[a] == o[a]);
                    assert(has_key(self.objects@, s[a].1.objects@[k]));
                } else {
                    assert(s[a].1.objects@.contains(s[a].1.objects@[k]));
                    assert(o[a].1.objects@.contains(s[a].1.objects@[k]));
                    let j = choose|j: int|
                        0 <= j < o[a].1.objects@.len() && o[a].1.objects@[j] == s[a].1.objects@[k];
                    assert(has_key(self.objects@, o[a].1.objects@[j]));
                }
            }
            lemma_key_at(s, bucket_id, bi as int);
        }
        Ok(RemoveResult { removed, not_found })
    }

    /// The total byte size of every object row.
    pub open spec fn rows_space(objs: Seq<(u128, Object)>) -> int
        decreases objs.len(),
    {
        if objs.len() == 0 {
            0
        } else {
            Self::rows_space(objs.drop_last()) + objs.last().1.size as int
        }
    }

    /// An aggregated snapshot of the whole store: bucket count, object
    /// count, total space used.
    #[verifier::loop_isolation(false)]
    pub fn get_totals(&self) -> (r: Result<StoreTotals, Error>)
        requires
            self.wf(),
        ensures
            r matches Ok(t) && t.buckets == self.buckets@.len() && t.objects == self.objects@.len()
                && t.space_used == Self::rows_space(self.objects@),
    {
        let mut space: u128 = 0;
        let mut i: usize = 0;
        while i < self.objects.len()
            invariant
                i <= self.objects@.len(),
                space == Self::rows_space(self.objects@.take(i as int)),
                space <= (i as int) * 0xffff_ffff_ffff_ffff,
            decreases self.objects@.len() - i,
        {
            proof {
                assert(self.objects@.take(i as int + 1).drop_last() =~= self.objects@.take(
                    i as int,
                ));
                assert(self.objects@.take(i as int + 1).last() == self.objects@[i as int]);
            }
            space = space + self.objects[i].1.size as u128;
            i = i + 1;
        }
        proof {
            assert(self.objects@.take(self.objects@.len() as int) =~= self.objects@);
        }
        Ok(
            StoreTotals {
                buckets: self.buckets.len() as u64,
                objects: self.objects.len() as u64,
                space_used: space,
            },
        )
    }

    /// Fetches every diagnostic record.
    #[verifier::loop_isolation(false)]
    pub fn get_object_errors(&self) -> (r: Result<Vec<ObjectError>, Error>)
        requires
            self.wf(),
        ensures
            r is Ok,
            r matches Ok(list) ==> {
                &&& list@.len() == self.object_errors@.len()
                &&& forall|i: int|
                    0 <= i < list@.len() ==> (#[trigger] list@[i]).object_id
                        == self.object_errors@[i].0 && list@[i].messages@
                        == self.object_errors@[i].1@
            },
    {
        let mut list: Vec<ObjectError> = Vec::new();
        let mut i: usize = 0;
        while i < self.object_errors.len()
            invariant
                i <= self.object_errors@.len(),
                list@.len() == i,
                forall|j: int|
                    0 <= j < i ==> (#[trigger] list@[j]).object_id == self.object_errors@[j].0
                        && list@[j].messages@ == self.object_errors@[j].1@,
            decreases self.object_errors@.len() - i,
        {
            let record = ObjectError {
                object_id: self.object_errors[i].0,
                messages: clone_strings(&self.object_errors[i].1),
            };
            list.push(record);
            i = i + 1;
        }
        Ok(list)
    }

    /// Replaces the diagnostic record for one object: an empty message
    /// list clears the record.
    fn set_object_error(&mut self, object_id: u128, messages: &Vec<String>)
        requires
            old(self).errors_wf(),
        ensures
            final(self).errors_wf(),
            messages@.len() == 0 ==> !final(self).has_error(object_id),
            messages@.len() > 0 ==> final(self).has_error(object_id) && final(self).error_msgs(
                object_id,
            ) == messages@,
            forall|x: u128|
                x != object_id ==> (#[trigger] final(self).has_error(x) <==> old(self).has_error(
                    x,
                )),
            forall|x: u128|
                x != object_id && old(self).has_error(x) ==> #[trigger] final(self).error_msgs(x)
                    == old(self).error_msgs(x),
            final(self).buckets == old(self).buckets,
            final(self).objects == old(self).objects,
            final(self).fs == old(self).fs,
            final(self).archive == old(self).archive,
            final(self).tasks == old(self).tasks,
            final(self).about == old(self).about,
    {
        let ghost mid = self.object_errors@;
        let removed = remove_key(&mut self.object_errors, object_id);
        proof {
            let s = self.object_errors@;
            let o = old(self).object_errors@;
            assert forall|i: int| 0 <= i < s.len() implies (#[trigger] s[i]).1@.len() > 0 by {
                if removed is Some {
                    let bi = key_index(o, object_id);
                    let oi: int = if i < bi {
                        i
                    } else {
                        i + 1
                    };
                    assert(s[i] == o[oi]);
                }
            }
        }
        if messages.len() > 0 {
            insert_new(&mut self.object_errors, object_id, clone_strings(messages));
        }
    }

    /// Replaces the diagnostic records for the listed objects in bulk:
    /// each record with messages is stored, each without is cleared.
    #[verifier::loop_isolation(false)]
    pub fn update_object_errors(&mut self, entries: &Vec<ObjectError>) -> (r: Result<(), Error>)
        requires
            old(self).wf(),
            forall|i: int, j: int|
                0 <= i < j < entries@.len() ==> (#[trigger] entries@[i]).object_id
                    != (#[trigger] entries@[j]).object_id,
        ensures
            final(self).wf(),
            r is Ok,
            forall|k: int|
                0 <= k < entries@.len() ==> {
                    let e = #[trigger] entries@[k];
                    &&& (e.messages@.len() == 0 ==> !final(self).has_error(e.object_id))
                    &&& (e.messages@.len() > 0 ==> final(self).has_error(e.object_id) && final(self).error_msgs(e.object_id) == e.messages@)
                },
            forall|x: u128|
                (forall|k: int| 0 <= k < entries@.len() ==> (#[trigger] entries@[k]).object_id != x)
                    ==> ((final(self).has_error(x) <==> old(self).has_error(x)) && (old(self).has_error(x) ==> final(self).error_msgs(x) == old(self).error_msgs(x))),
            final(self).buckets == old(self).buckets,
            final(self).objects == old(self).objects,
            final(self).fs == old(self).fs,
            final(self).archive == old(self).archive,
            final(self).tasks == old(self).tasks,
            final(self).about == old(self).about,
    {
        let mut i: usize = 0;
        while i < entries.len()
            invariant
                i <= entries@.len(),
                self.errors_wf(),
                forall|k: int|
                    0 <= k < i ==> {
                        let e = #[trigger] entries@[k];
                        &&& (e.messages@.len() == 0 ==> !self.has_error(e.object_id))
                        &&& (e.messages@.len() > 0 ==> self.has_error(e.object_id)
                            && self.error_msgs(e.object_id) == e.messages@)
                    },
                forall|x: u128|
                    (forall|k: int| 0 <= k < entries@.len() ==> (#[trigger] entries@[k]).object_id
                        != x) ==> ((self.has_error(x) <==> old(self).has_error(x)) && (old(self).has_error(x) ==> self.error_msgs(x) == old(self).error_msgs(x))),
                self.buckets == old(self).buckets,
                self.objects == old(self).objects,
                self.fs == old(self).fs,
                self.archive == old(self).archive,
                self.tasks == old(self).tasks,
                self.about == old(self).about,
            decreases entries@.len() - i,
        {
            self.set_object_error(entries[i].object_id, &entries[i].messages);
            i = i + 1;
        }
        Ok(())
    }

    /// Decides whether no bucket references the given object.
    #[verifier::loop_isolation(false)]
    fn check_orphan(&self, object_id: u128) -> (r: bool)
        ensures
            r == self.is_orphan(object_id),
    {
        let mut i: usize = 0;
        while i < self.buckets.len()
            invariant
                i <= self.buckets@.len(),
                forall|j: int|
                    0 <= j < i ==> !(#[trigger] self.buckets@[j]).1.objects@.contains(object_id),
            decreases self.buckets@.len() - i,
        {
            if contains_id(&self.buckets[i].1.objects, object_id) {
                return false;
            }
            i = i + 1;
        }
        true
    }

    /// Deletes every object row with zero bucket memberships together
    /// with its blob, and returns the removed rows. Running it again right
    /// away removes nothing and changes nothing.
    /// Collects every orphan row: the ids and copies of the rows, aligned.
    #[verifier::loop_isolation(false)]
    fn collect_orphans(&self) -> (r: (Vec<u128>, Vec<Object>))
        requires
            self.wf(),
        ensures
            r.0@.len() == r.1@.len(),
            forall|k: int| 0 <= k < r.1@.len() ==> (#[trigger] r.1@[k]).id == r.0@[k],
            ids_unique(r.0@),
            forall|k: int|
                0 <= k < r.1@.len() ==> self.has_object((#[trigger] r.1@[k]).id)
                    && self.is_orphan(r.1@[k].id) && r.1@[k] == self.object_row(r.1@[k].id),
            forall|x: u128|
                #[trigger] r.0@.contains(x) <==> (self.has_object(x) && self.is_orphan(x)),
    {
        let mut orphan_ids: Vec<u128> = Vec::new();
        let mut removed: Vec<Object> = Vec::new();
        let mut i: usize = 0;
        while i < self.objects.len()
            invariant
                i <= self.objects@.len(),
                orphan_ids@.len() == removed@.len(),
                forall|k: int|
                    0 <= k < removed@.len() ==> (#[trigger] removed@[k]).id == orphan_ids@[k],
                forall|a: int, b: int|
                    0 <= a < b < orphan_ids@.len() ==> #[trigger] orphan_ids@[a]
                        != #[trigger] orphan_ids@[b],
                forall|k: int|
                    0 <= k < orphan_ids@.len() ==> exists|j: int|
                        0 <= j < i && (#[trigger] orphan_ids@[k]) == self.objects@[j].0,
                forall|k: int|
                    0 <= k < removed@.len() ==> self.has_object((#[trigger] removed@[k]).id)
                        && self.is_orphan(removed@[k].id) && removed@[k] == self.object_row(
                        removed@[k].id,
                    ),
                forall|j: int|
                    0 <= j < i && self.is_orphan((#[trigger] self.objects@[j]).0)
                        ==> orphan_ids@.contains(self.objects@[j].0),
            decreases self.objects@.len() - i,
        {
            let ghost prev = orphan_ids@;
            let key = self.objects[i].0;
            let orphan = self.check_orphan(key);
            if orphan {
                proof {
                    lemma_key_at(self.objects@, key, i as int);
                }
                orphan_ids.push(key);
                removed.push(Self::clone_object(&self.objects[i].1));
                proof {
                    assert forall|k: int| 0 <= k < orphan_ids@.len() implies exists|j: int|
                        0 <= j < i + 1 && (#[trigger] orphan_ids@[k]) == self.objects@[j].0 by {
                        if k < prev.len() {
                            let j = choose|j: int|
                                0 <= j < i && (#[trigger] prev[k]) == self.objects@[j].0;
                            assert(orphan_ids@[k] == self.objects@[j].0);
                        } else {
                            assert(orphan_ids@[k] == self.objects@[i as int].0);
                        }
                    }
                    assert forall|a: int, b: int|
                        0 <= a < b < orphan_ids@.len() implies #[trigger] orphan_ids@[a]
                        != #[trigger] orphan_ids@[b] by {
                        if b == orphan_ids@.len() - 1 {
                            assert(orphan_ids@[a] == prev[a]);
                            let j = choose|j: int|
                                0 <= j < i && (#[trigger] prev[a]) == self.objects@[j].0;
                            assert(self.objects@[j].0 != self.objects@[i as int].0);
                        }
                    }
                }
            }
            proof {
                assert forall|j: int|
                    0 <= j < i + 1 && self.is_orphan(
                        (#[trigger] self.objects@[j]).0,
                    ) implies orphan_ids@.contains(self.objects@[j].0) by {
                    if j < i {
                        assert(prev.contains(self.objects@[j].0));
                        if orphan {
                            lemma_contains_push(prev, key, self.objects@[j].0);
                        }
                    } else {
                        assert(orphan);
                        assert(orphan_ids@[orphan_ids@.len() - 1] == key);
                    }
                }
            }
            i = i + 1;
        }
        proof {
            assert forall|x: u128| #[trigger] orphan_ids@.contains(x) implies (self.has_object(x)
                && self.is_orphan(x)) by {
                let k = choose|k: int| 0 <= k < orphan_ids@.len() && orphan_ids@[k] == x;
                assert(removed@[k].id == x);
            }
            assert forall|x: u128|
                self.has_object(x) && self.is_orphan(x) implies #[trigger] orphan_ids@.contains(
                x,
            ) by {
                let j = key_index(self.objects@, x);
                assert(self.objects@[j].0 == x);
            }
        }
        (orphan_ids, removed)
    }

    /// Deletes every object row with zero bucket memberships together
    /// with its blob, and returns the removed rows. Running it again right
    /// away removes nothing and changes nothing.
    #[verifier::rlimit(100)]
    pub fn prune(&mut self) -> (r: Result<Vec<Object>, Error>)
        requires
            old(self).wf(),
        ensures
            final(self).wf(),
            r is Ok,
            r matches Ok(removed) ==> (forall|i: int|
                0 <= i < removed@.len() ==> old(self).has_object((#[trigger] removed@[i]).id)
                    && old(self).is_orphan(removed@[i].id) && removed@[i] == old(self).object_row(
                    removed@[i].id,
                )),
            r matches Ok(removed) ==> (forall|i: int, j: int|
                0 <= i < j < removed@.len() ==> (#[trigger] removed@[i]).id
                    != (#[trigger] removed@[j]).id),
            r matches Ok(removed) ==> (forall|x: u128|
                (#[trigger] old(self).is_orphan(x)) && old(self).has_object(x) ==> Self::lists_id(
                    removed@,
                    x,
                )),
            forall|x: u128|
                #[trigger] final(self).has_object(x) <==> (old(self).has_object(x) && !old(self).is_orphan(x)),
            forall|x: u128|
                final(self).has_object(x) ==> #[trigger] final(self).object_row(x) == old(self).object_row(x),
            forall|x: u128|
                #[trigger] final(self).fs.has_blob(x) <==> (old(self).fs.has_blob(x) && !old(self).is_orphan(x)),
            forall|x: u128|
                final(self).fs.has_blob(x) ==> #[trigger] final(self).fs.blob_content(x) == old(self).fs.blob_content(x),
            final(self).buckets == old(self).buckets,
            final(self).object_errors == old(self).object_errors,
            final(self).fs.parts == old(self).fs.parts,
            final(self).archive == old(self).archive,
            final(self).tasks == old(self).tasks,
            final(self).about == old(self).about,
            (forall|x: u128| old(self).has_object(x) ==> !old(self).is_orphan(x)) ==> (*final(self)
                == *old(self) && (r matches Ok(v) && v@.len() == 0)),
    {
        let (orphan_ids, removed) = self.collect_orphans();
        proof {
            assert forall|x: u128|
                (#[trigger] old(self).is_orphan(x)) && old(self).has_object(x) implies Self::lists_id(
                removed@,
                x,
            ) by {
                assert(orphan_ids@.contains(x));
                let k = choose|k: int| 0 <= k < orphan_ids@.len() && orphan_ids@[k] == x;
                assert(removed@[k].id == x);
            }
        }
        if orphan_ids.len() == 0 {
            proof {
                assert forall|x: u128| #[trigger] old(self).has_object(x) implies !old(self).is_orphan(x) by {
                    if old(self).is_orphan(x) {
                        assert(orphan_ids@.contains(x));
                    }
                }
            }
            return Ok(removed);
        }
        proof {
            assert(removed@.len() > 0);
            assert(old(self).has_object(removed@[0].id) && old(self).is_orphan(removed@[0].id));
        }
        remove_keys(&mut self.objects, &orphan_ids);
        self.fs.remove_objects(&orphan_ids);
        proof {
            let s = self.objects@;
            let o = old(self).objects@;
            assert forall|a: int| 0 <= a < s.len() implies (#[trigger] s[a]).1.id == s[a].0 by {
                lemma_key_at(s, s[a].0, a);
                assert(has_key(s, s[a].0));
                assert(has_key(o, s[a].0));
                assert(val_of(s, s[a].0) == val_of(o, s[a].0));
                assert(val_of(o, s[a].0).id == s[a].0);
            }
            assert forall|a: int, k: int|
                0 <= a < self.buckets@.len() && 0 <= k < self.buckets@[a].1.objects@.len()
                    implies has_key(s, #[trigger] self.buckets@[a].1.objects@[k]) by {
                let m = self.buckets@[a].1.objects@[k];
                assert(has_key(o, m));
                assert(self.buckets@[a].1.objects@.contains(m));
                assert(!old(self).is_orphan(m));
                assert(!orphan_ids@.contains(m));
            }
            assert forall|x: u128| #[trigger] self.fs.has_blob(x) implies has_key(s, x) by {
                assert(old(self).fs.has_blob(x));
                assert(has_key(o, x));
                assert(!orphan_ids@.contains(x));
            }
        }
        Ok(removed)
    }

    /// The snapshot of a stream pass: the rows created no later than
    /// `as_of`, in catalog order.
    pub open spec fn snapshot_of(objs: Seq<(u128, Object)>, as_of: i64) -> Seq<Object>
        decreases objs.len(),
    {
        if objs.len() == 0 {
            Seq::empty()
        } else {
            let rest = Self::snapshot_of(objs.drop_last(), as_of);
            if objs.last().1.added <= as_of {
                rest.push(objs.last().1)
            } else {
                rest
            }
        }
    }

    /// Each snapshot row is a catalog row within the cutoff, every row
    /// within the cutoff is listed, and no id is listed twice.
    pub proof fn lemma_snapshot(objs: Seq<(u128, Object)>, as_of: i64)
        requires
            keys_unique(objs),
            forall|a: int| 0 <= a < objs.len() ==> (#[trigger] objs[a]).1.id == objs[a].0,
        ensures
            forall|i: int|
                0 <= i < Self::snapshot_of(objs, as_of).len() ==> {
                    let o = #[trigger] Self::snapshot_of(objs, as_of)[i];
                    has_key(objs, o.id) && val_of(objs, o.id) == o && o.added <= as_of
                },
            forall|i: int, j: int|
                0 <= i < j < Self::snapshot_of(objs, as_of).len()
                    ==> (#[trigger] Self::snapshot_of(objs, as_of)[i]).id
                    != (#[trigger] Self::snapshot_of(objs, as_of)[j]).id,
            forall|x: u128|
                has_key(objs, x) && val_of(objs, x).added <= as_of ==> Self::lists_id(
                    Self::snapshot_of(objs, as_of),
                    x,
                ),
        decreases objs.len(),
    {
        let snap = Self::snapshot_of(objs, as_of);
        if objs.len() == 0 {
        } else {
            let prefix = objs.drop_last();
            let sub = Self::snapshot_of(prefix, as_of);
            assert(keys_unique(prefix)) by {
                assert forall|a: int, b: int|
                    0 <= a < b < prefix.len() implies (#[trigger] prefix[a]).0
                    != (#[trigger] prefix[b]).0 by {
                    assert(prefix[a] == objs[a]);
                    assert(prefix[b] == objs[b]);
                }
            }
            assert forall|a: int|
                0 <= a < prefix.len() implies (#[trigger] prefix[a]).1.id == prefix[a].0 by {
                assert(prefix[a] == objs[a]);
            }
            Self::lemma_snapshot(prefix, as_of);
            assert forall|x: u128| #[trigger] has_key(prefix, x) implies has_key(objs, x)
                && val_of(objs, x) == val_of(prefix, x) by {
                let k = key_index(prefix, x);
                assert(prefix[k].0 == x);
                assert(objs[k].0 == x);
                lemma_key_at(prefix, x, k);
                lemma_key_at(objs, x, k);
            }
            let last = objs.last();
            lemma_key_at(objs, last.0, objs.len() - 1);
            assert forall|i: int| 0 <= i < snap.len() implies {
                let o = #[trigger] snap[i];
                has_key(objs, o.id) && val_of(objs, o.id) == o && o.added <= as_of
            } by {
                if i < sub.len() {
                    assert(snap[i] == sub[i]);
                    assert(has_key(prefix, sub[i].id));
                } else {
                    assert(snap[i] == last.1);
                }
            }
            assert forall|i: int, j: int| 0 <= i < j < snap.len() implies (#[trigger] snap[i]).id
                != (#[trigger] snap[j]).id by {
                if j < sub.len() {
                    assert(snap[i] == sub[i]);
                    assert(snap[j] == sub[j]);
                } else if j == sub.len() && snap.len() > sub.len() {
                    assert(snap[i] == sub[i]);
                    assert(snap[j] == last.1);
                    assert(has_key(prefix, sub[i].id));
                    let k = key_index(prefix, sub[i].id);
                    assert(prefix[k].0 == sub[i].id);
                    assert(objs[k].0 != objs[objs.len() - 1].0);
                }
            }
            assert forall|x: u128|
                has_key(objs, x) && val_of(objs, x).added <= as_of implies Self::lists_id(
                snap,
                x,
            ) by {
                let k = key_index(objs, x);
                assert(objs[k].0 == x);
                if k < objs.len() - 1 {
                    assert(prefix[k].0 == x);
                    lemma_key_at(prefix, x, k);
                    assert(Self::lists_id(sub, x));
                    let i = choose|i: int| 0 <= i < sub.len() && (#[trigger] sub[i]).id == x;
                    assert(snap[i] == sub[i]);
                } else {
                    assert(val_of(objs, x) == last.1);
                    assert(snap.last() == last.1);
                }
            }
        }
    }

    /// A cursor over the snapshot: the rows with creation timestamp no
    /// later than `as_of`, in catalog order.
    #[verifier::loop_isolation(false)]
    pub fn stream_objects(&self, as_of: i64) -> (r: Vec<Object>)
        requires
            self.wf(),
        ensures
            r@ == Self::snapshot_of(self.objects@, as_of),
    {
        let mut r: Vec<Object> = Vec::new();
        let mut i: usize = 0;
        while i < self.objects.len()
            invariant
                i <= self.objects@.len(),
                r@ == Self::snapshot_of(self.objects@.take(i as int), as_of),
            decreases self.objects@.len() - i,
        {
            proof {
                assert(self.objects@.take(i as int + 1).drop_last() =~= self.objects@.take(
                    i as int,
                ));
                assert(self.objects@.take(i as int + 1).last() == self.objects@[i as int]);
            }
            if self.objects[i].1.added <= as_of {
                r.push(Self::clone_object(&self.objects[i].1));
            }
            i = i + 1;
        }
        proof {
            assert(self.objects@.take(self.objects@.len() as int) =~= self.objects@);
        }
        r
    }

    /// Counts the objects of the snapshot: exactly as many as the
    /// matching stream yields.
    #[verifier::loop_isolation(false)]
    pub fn get_object_count(&self, as_of: i64) -> (r: u64)
        requires
            self.wf(),
        ensures
            r == Self::snapshot_of(self.objects@, as_of).len(),
    {
        let mut count: u64 = 0;
        let mut i: usize = 0;
        while i < self.objects.len()
            invariant
                i <= self.objects@.len(),
                count == Self::snapshot_of(self.objects@.take(i as int), as_of).len(),
                count <= i,
            decreases self.objects@.len() - i,
        {
            proof {
                assert(self.objects@.take(i as int + 1).drop_last() =~= self.objects@.take(
                    i as int,
                ));
                assert(self.objects@.take(i as int + 1).last() == self.objects@[i as int]);
            }
            if self.objects[i].1.added <= as_of {
                count = count + 1;
            }
            i = i + 1;
        }
        proof {
            assert(self.objects@.take(self.objects@.len() as int) =~= self.objects@);
        }
        count
    }
}

/// The per-object work unit of a stream pass.
pub enum Action {
    Check,
    Sync,
}

/// The per-object action of a `check` pass: re-read the blob and verify
/// its hash in place.
pub struct CheckAction;

impl CheckAction {
    /// Runs the integrity check for one object row.
    pub fn run(&self, fs: &Filesystem, object: &Object) -> (r: Result<(), String>)
        requires
            fs.wf(),
        ensures
            r is Ok <==> (fs.has_blob(object.id) && content_hash(fs.blob_content(object.id))
                == object.hash@),
            r matches Err(m) ==> m@ == (if !fs.has_blob(object.id) {
                "object file missing"@
            } else {
                "hash mismatch"@
            }),
    {
        fs.check_object(object.id, &object.hash)
    }
}

/// The per-object action of an `archive` pass: mirror the blob into the
/// archive root.
pub struct SyncAction;

impl SyncAction {
    /// A sync action aimed at the configured archive mirror.
    pub fn new() -> (r: SyncAction) {
        SyncAction
    }

    /// Copies one object's blob into the mirror, skipping byte-identical
    /// files already there.
    pub fn run(&self, fs: &Filesystem, archive: &mut ArchiveRoot, object: &Object) -> (r: Result<
        (),
        String,
    >)
        requires
            fs.wf(),
            old(archive).wf(),
        ensures
            final(archive).wf(),
            final(archive).dump_taken == old(archive).dump_taken,
            r is Ok <==> fs.has_blob(object.id),
            r is Err ==> *final(archive) == *old(archive),
            r matches Err(m) ==> m@ == "object file missing"@,
            r is Ok ==> final(archive).has_blob(object.id) && final(archive).blob_content(
                object.id,
            ) == fs.blob_content(object.id),
            forall|x: u128|
                x != object.id ==> (#[trigger] final(archive).has_blob(x) <==> old(archive).has_blob(x)),
            forall|x: u128|
                x != object.id && old(archive).has_blob(x) ==> #[trigger] final(archive).blob_content(x) == old(archive).blob_content(x),
            fs.has_blob(object.id) && old(archive).has_blob(object.id) && old(archive).blob_content(object.id) == fs.blob_content(object.id) ==> *final(archive) == *old(archive),
    {
        fs.copy_object(archive, object.id)
    }
}

/// What a stream action decides for one row: success, or failure with
/// the message it records.
pub open spec fn action_ok(fs: Filesystem, action: Action, o: Object) -> bool {
    match action {
        Action::Check => fs.has_blob(o.id) && content_hash(fs.blob_content(o.id)) == o.hash@,
        Action::Sync => fs.has_blob(o.id),
    }
}

/// The message a failed stream action records for one row.
pub open spec fn action_message(fs: Filesystem, action: Action, o: Object) -> Seq<char> {
    if !fs.has_blob(o.id) {
        "object file missing"@
    } else {
        "hash mismatch"@
    }
}

/// Whether the mirror already holds a byte-identical copy of the blob.
pub open spec fn mirrored(a: Option<ArchiveRoot>, fs: Filesystem, id: u128) -> bool {
    a matches Some(ar) && fs.has_blob(id) && ar.has_blob(id) && ar.blob_content(id)
        == fs.blob_content(id)
}

/// Whether the mirror holds a blob under the given id.
pub open spec fn arch_has(a: Option<ArchiveRoot>, id: u128) -> bool {
    a matches Some(ar) && ar.has_blob(id)
}

/// Whether one id occurs among the first `i` snapshot rows.
pub open spec fn processed(snap: Seq<Object>, i: int, x: u128) -> bool {
    exists|k: int| 0 <= k < i && (#[trigger] snap[k]).id == x
}

/// The snapshot timestamp held in a task slot.
pub open spec fn guard_started(slot: Option<Progress>) -> i64 {
    match slot {
        Some(p) => p.started,
        None => 0,
    }
}

/// The expected total held in a task slot.
pub open spec fn guard_total(slot: Option<Progress>) -> u64 {
    match slot {
        Some(p) => p.total,
        None => 0,
    }
}


/// The bytes of the mirrored blob under the given id.
pub open spec fn arch_content(a: Option<ArchiveRoot>, id: u128) -> Seq<u8> {
    match a {
        Some(ar) => ar.blob_content(id),
        None => Seq::empty(),
    }
}

/// Whether the catalog dump has been written beside the mirror.
pub open spec fn arch_dump(a: Option<ArchiveRoot>) -> bool {
    match a {
        Some(ar) => ar.dump_taken,
        None => false,
    }
}

impl ObjectStore {
    /// Mirrors one object's blob into the configured archive root.
    fn sync_one(&mut self, object: &Object) -> (r: Result<(), String>)
        requires
            old(self).wf(),
            old(self).archive is Some,
        ensures
            final(self).wf(),
            final(self).archive is Some,
            final(self).buckets == old(self).buckets,
            final(self).objects == old(self).objects,
            final(self).object_errors == old(self).object_errors,
            final(self).fs == old(self).fs,
            final(self).tasks == old(self).tasks,
            final(self).about == old(self).about,
            arch_dump(final(self).archive) == arch_dump(old(self).archive),
            r is Ok <==> old(self).fs.has_blob(object.id),
            r matches Err(m) ==> m@ == "object file missing"@,
            r is Err ==> final(self).archive == old(self).archive,
            r is Ok ==> mirrored(final(self).archive, old(self).fs, object.id),
            forall|x: u128|
                x != object.id ==> ((#[trigger] arch_has(final(self).archive, x) <==> arch_has(
                    old(self).archive,
                    x,
                )) && (arch_has(old(self).archive, x) ==> arch_content(final(self).archive, x)
                    == arch_content(old(self).archive, x))),
            mirrored(old(self).archive, old(self).fs, object.id) ==> final(self).archive == old(self).archive,
    {
        match &mut self.archive {
            Some(ar) => {
                let sa = SyncAction::new();
                sa.run(&self.fs, ar, object)
            },
            None => {
                proof {
                    assert(false);
                }
                Ok(())
            },
        }
    }

    /// What a finished pass leaves in the diagnostics table `cur`,
    /// relative to the table `base` it started from: for every id among
    /// the first `i` snapshot rows the record equals the outcome of its
    /// attempt (cleared on success, exactly the recorded message on
    /// failure), and every other record is untouched.
    #[verifier::opaque]
    pub open spec fn pass_errors_ok(
        cur: Seq<(u128, Vec<String>)>,
        base: Seq<(u128, Vec<String>)>,
        fs: Filesystem,
        objs: Seq<(u128, Object)>,
        ss: Seq<Object>,
        i: int,
        action: Action,
    ) -> bool {
        &&& (forall|x: u128|
            processed(ss, i, x) && action_ok(fs, action, val_of(objs, x)) ==> !(#[trigger] has_key(
                cur,
                x,
            )))
        &&& (forall|x: u128|
            processed(ss, i, x) && !action_ok(fs, action, val_of(objs, x)) ==> #[trigger] has_key(
                cur,
                x,
            ) && val_of(cur, x)@.len() == 1 && val_of(cur, x)@[0]@ == action_message(
                fs,
                action,
                val_of(objs, x),
            ))
        &&& (forall|x: u128|
            !processed(ss, i, x) ==> ((#[trigger] has_key(cur, x) <==> has_key(base, x)) && (
            has_key(base, x) ==> val_of(cur, x)@ == val_of(base, x)@)))
    }

    /// What a finished archive pass leaves in the mirror `cur`, relative
    /// to the mirror `base` it started from: every id among the first `i`
    /// snapshot rows whose blob exists is mirrored byte-identically,
    /// everything else is untouched, and a pass whose snapshot was
    /// already mirrored copies nothing at all.
    #[verifier::opaque]
    pub open spec fn pass_archive_ok(
        cur: Option<ArchiveRoot>,
        base: Option<ArchiveRoot>,
        fs: Filesystem,
        ss: Seq<Object>,
        i: int,
    ) -> bool {
        &&& (forall|x: u128|
            #[trigger] processed(ss, i, x) && fs.has_blob(x) ==> mirrored(cur, fs, x))
        &&& (forall|x: u128|
            !processed(ss, i, x) || !fs.has_blob(x) ==> ((#[trigger] arch_has(cur, x) <==> arch_has(
                base,
                x,
            )) && (arch_has(base, x) ==> arch_content(cur, x) == arch_content(base, x))))
        &&& ((forall|k: int| 0 <= k < i ==> mirrored(base, fs, (#[trigger] ss[k]).id)) ==> cur
            == base)
    }

    /// Walks every object of the guard's snapshot, applies the action to
    /// each, records each object's outcome in the guard and the catalog,
    /// and flushes the guard's full error log once more at the end. Every
    /// visited object's diagnostic record ends up equal to the outcome of
    /// its attempt: cleared on success, the recorded message on failure.
    #[verifier::loop_isolation(false)]
    #[verifier::rlimit(100)]
    pub fn for_each_object(&mut self, guard: Progress, action: Action) -> (r: Result<
        Progress,
        Error,
    >)
        requires
            old(self).wf(),
            guard.wf(),
            guard.completed == 0,
            guard.errors@.len() == 0,
            action is Sync ==> old(self).archive is Some,
        ensures
            final(self).wf(),
            r is Ok,
            final(self).buckets == old(self).buckets,
            final(self).objects == old(self).objects,
            final(self).fs == old(self).fs,
            final(self).tasks == old(self).tasks,
            final(self).about == old(self).about,
            action is Check ==> final(self).archive == old(self).archive,
            action is Sync ==> final(self).archive is Some,
            action is Sync ==> arch_dump(final(self).archive) == arch_dump(old(self).archive),
            r matches Ok(p) ==> p.started == guard.started && p.total == guard.total
                && p.completed == Self::snapshot_of(old(self).objects@, guard.started).len(),
            Self::pass_errors_ok(
                final(self).object_errors@,
                old(self).object_errors@,
                old(self).fs,
                old(self).objects@,
                Self::snapshot_of(old(self).objects@, guard.started),
                Self::snapshot_of(old(self).objects@, guard.started).len() as int,
                action,
            ),
            action is Sync ==> Self::pass_archive_ok(
                final(self).archive,
                old(self).archive,
                old(self).fs,
                Self::snapshot_of(old(self).objects@, guard.started),
                Self::snapshot_of(old(self).objects@, guard.started).len() as int,
            ),
    {
        let snap = self.stream_objects(guard.started());
        let ghost ss = snap@;
        proof {
            Self::lemma_snapshot(self.objects@, guard.started);
            reveal(ObjectStore::pass_errors_ok);
            reveal(ObjectStore::pass_archive_ok);
        }
        let mut progress = guard;
        let mut i: usize = 0;
        while i < snap.len()
            invariant
                i <= ss.len(),
                snap@ == ss,
                self.buckets == old(self).buckets,
                self.objects == old(self).objects,
                self.fs == old(self).fs,
                self.tasks == old(self).tasks,
                self.about == old(self).about,
                self.wf(),
                action is Check ==> self.archive == old(self).archive,
                action is Sync ==> self.archive is Some,
                action is Sync ==> arch_dump(self.archive) == arch_dump(old(self).archive),
                progress.wf(),
                progress.started == guard.started,
                progress.total == guard.total,
                progress.completed == i,
                forall|x: u128|
                    #[trigger] progress.has_errors(x) <==> (processed(ss, i as int, x)
                        && !action_ok(old(self).fs, action, old(self).object_row(x))),
                forall|x: u128|
                    progress.has_errors(x) ==> (#[trigger] progress.error_messages(x)).len() == 1
                        && progress.error_messages(x)[0]@ == action_message(
                        old(self).fs,
                        action,
                        old(self).object_row(x),
                    ),
                Self::pass_errors_ok(
                    self.object_errors@,
                    old(self).object_errors@,
                    old(self).fs,
                    old(self).objects@,
                    ss,
                    i as int,
                    action,
                ),
                action is Sync ==> Self::pass_archive_ok(
                    self.archive,
                    old(self).archive,
                    old(self).fs,
                    ss,
                    i as int,
                ),
            decreases ss.len() - i,
        {
            let ghost prev_progress = progress;
            let ghost prev_self = *self;
            let o_id = snap[i].id;
            proof {
                reveal(ObjectStore::pass_errors_ok);
                reveal(ObjectStore::pass_archive_ok);
                assert(ss[i as int] == val_of(old(self).objects@, o_id));
                assert(old(self).object_row(o_id) == ss[i as int]);
                assert(!processed(ss, i as int, o_id)) by {
                    if processed(ss, i as int, o_id) {
                        let k = choose|k: int| 0 <= k < i && (#[trigger] ss[k]).id == o_id;
                        assert(ss[k].id != ss[i as int].id);
                    }
                }
            }
            let outcome: Result<(), String> = match action {
                Action::Check => {
                    let ca = CheckAction;
                    ca.run(&self.fs, &snap[i])
                },
                Action::Sync => self.sync_one(&snap[i]),
            };
            proof {
                assert(outcome is Ok <==> action_ok(
                    old(self).fs,
                    action,
                    old(self).object_row(o_id),
                ));
            }
            let msgs: Vec<String> = match outcome {
                Ok(_) => progress.clear_error(o_id),
                Err(m) => progress.error(o_id, m),
            };
            let ghost mid_progress = progress;
            progress.increment();
            proof {
                assert(progress.errors@ == mid_progress.errors@);
            }
            self.set_object_error(o_id, &msgs);
            proof {
                reveal(ObjectStore::pass_errors_ok);
                reveal(ObjectStore::pass_archive_ok);
                assert forall|x: u128| #[trigger] processed(ss, i as int + 1, x) implies (
                processed(ss, i as int, x) || x == o_id) by {
                    let k = choose|k: int| 0 <= k < i + 1 && (#[trigger] ss[k]).id == x;
                    if k < i {
                        assert(processed(ss, i as int, x));
                    }
                }
                assert forall|x: u128|
                    processed(ss, i as int, x) || x == o_id implies #[trigger] processed(
                    ss,
                    i as int + 1,
                    x,
                ) by {
                    if x == o_id {
                        assert(ss[i as int].id == x);
                    } else {
                        let k = choose|k: int| 0 <= k < i && (#[trigger] ss[k]).id == x;
                    }
                }
                assert(!prev_progress.has_errors(o_id));
                assert forall|x: u128| #[trigger] progress.has_errors(x) implies (processed(
                    ss,
                    i as int + 1,
                    x,
                ) && !action_ok(old(self).fs, action, old(self).object_row(x))) by {
                    if x != o_id {
                        assert(mid_progress.has_errors(x));
                        assert(prev_progress.has_errors(x));
                    }
                }
                assert forall|x: u128|
                    processed(ss, i as int + 1, x) && !action_ok(
                        old(self).fs,
                        action,
                        old(self).object_row(x),
                    ) implies #[trigger] progress.has_errors(x) by {
                    if x != o_id {
                        assert(processed(ss, i as int, x));
                        assert(prev_progress.has_errors(x));
                        assert(mid_progress.has_errors(x));
                    }
                }
                assert forall|x: u128| #[trigger] progress.has_errors(x) implies (
                progress.error_messages(x)).len() == 1 && progress.error_messages(x)[0]@
                    == action_message(old(self).fs, action, old(self).object_row(x)) by {
                    if x != o_id {
                        assert(mid_progress.has_errors(x));
                        assert(prev_progress.has_errors(x));
                        assert(mid_progress.error_messages(x) == prev_progress.error_messages(x));
                        assert(progress.error_messages(x) == mid_progress.error_messages(x));
                    }
                }
                assert forall|x: u128|
                    processed(ss, i as int + 1, x) && action_ok(
                        old(self).fs,
                        action,
                        val_of(old(self).objects@, x),
                    ) implies !(#[trigger] has_key(self.object_errors@, x)) by {
                    if x == o_id {
                        assert(msgs@.len() == 0);
                        assert(!self.has_error(x));
                    } else {
                        assert(processed(ss, i as int, x));
                        assert(!has_key(prev_self.object_errors@, x));
                        assert(!prev_self.has_error(x));
                        assert(self.has_error(x) <==> prev_self.has_error(x));
                    }
                }
                assert forall|x: u128|
                    processed(ss, i as int + 1, x) && !action_ok(
                        old(self).fs,
                        action,
                        val_of(old(self).objects@, x),
                    ) implies #[trigger] has_key(self.object_errors@, x) && val_of(
                    self.object_errors@,
                    x,
                )@.len() == 1 && val_of(self.object_errors@, x)@[0]@ == action_message(
                    old(self).fs,
                    action,
                    val_of(old(self).objects@, x),
                ) by {
                    if x == o_id {
                        assert(msgs@.len() == 1);
                        assert(self.has_error(x));
                        assert(self.error_msgs(x) == msgs@);
                    } else {
                        assert(processed(ss, i as int, x));
                        assert(has_key(prev_self.object_errors@, x));
                        assert(prev_self.has_error(x));
                        assert(self.has_error(x) <==> prev_self.has_error(x));
                        assert(self.error_msgs(x) == prev_self.error_msgs(x));
                    }
                }
                assert forall|x: u128| !processed(ss, i as int + 1, x) implies ((#[trigger] has_key(
                    self.object_errors@,
                    x,
                ) <==> has_key(old(self).object_errors@, x)) && (has_key(
                    old(self).object_errors@,
                    x,
                ) ==> val_of(self.object_errors@, x)@ == val_of(old(self).object_errors@, x)@)) by {
                    assert(x != o_id);
                    assert(!processed(ss, i as int, x));
                    assert(self.has_error(x) <==> prev_self.has_error(x));
                    assert(prev_self.has_error(x) ==> self.error_msgs(x) == prev_self.error_msgs(
                        x,
                    ));
                }
                assert(Self::pass_errors_ok(
                    self.object_errors@,
                    old(self).object_errors@,
                    old(self).fs,
                    old(self).objects@,
                    ss,
                    i as int + 1,
                    action,
                ));
                if action is Sync {
                    assert forall|x: u128|
                        #[trigger] processed(ss, i as int + 1, x) && old(self).fs.has_blob(
                            x,
                        ) implies mirrored(self.archive, old(self).fs, x) by {
                        if x == o_id {
                            assert(outcome is Ok);
                        } else {
                            assert(processed(ss, i as int, x));
                            assert(mirrored(prev_self.archive, old(self).fs, x));
                            assert(arch_has(self.archive, x) <==> arch_has(prev_self.archive, x));
                            assert(arch_content(self.archive, x) == arch_content(
                                prev_self.archive,
                                x,
                            ));
                        }
                    }
                    assert forall|x: u128|
                        !processed(ss, i as int + 1, x) || !old(self).fs.has_blob(x) implies ((
                        #[trigger] arch_has(self.archive, x) <==> arch_has(old(self).archive, x))
                            && (arch_has(old(self).archive, x) ==> arch_content(self.archive, x)
                            == arch_content(old(self).archive, x))) by {
                        if x == o_id {
                            assert(!old(self).fs.has_blob(x));
                            assert(outcome is Err);
                            assert(self.archive == prev_self.archive);
                        } else {
                            assert(arch_has(self.archive, x) <==> arch_has(prev_self.archive, x));
                            assert(arch_has(prev_self.archive, x) ==> arch_content(
                                self.archive,
                                x,
                            ) == arch_content(prev_self.archive, x));
                        }
                    }
                    assert((forall|k: int|
                        0 <= k < i + 1 ==> mirrored(
                            old(self).archive,
                            old(self).fs,
                            (#[trigger] ss[k]).id,
                        )) ==> self.archive == old(self).archive) by {
                        if (forall|k: int|
                            0 <= k < i + 1 ==> mirrored(
                                old(self).archive,
                                old(self).fs,
                                (#[trigger] ss[k]).id,
                            )) {
                            assert(mirrored(old(self).archive, old(self).fs, ss[i as int].id));
                            assert(prev_self.archive == old(self).archive);
                            assert(mirrored(prev_self.archive, old(self).fs, o_id));
                        }
                    }
                    assert(Self::pass_archive_ok(
                        self.archive,
                        old(self).archive,
                        old(self).fs,
                        ss,
                        i as int + 1,
                    ));
                }
            }
            i = i + 1;
        }
        let entries = progress.messages();
        proof {
            assert forall|a: int, b: int|
                0 <= a < b < entries@.len() implies (#[trigger] entries@[a]).object_id
                != (#[trigger] entries@[b]).object_id by {
                assert(entries@[a].object_id == progress.errors@[a].0);
                assert(entries@[b].object_id == progress.errors@[b].0);
            }
        }
        let ghost before_flush = *self;
        let _ = self.update_object_errors(&entries);
        proof {
            reveal(ObjectStore::pass_errors_ok);
            reveal(ObjectStore::pass_archive_ok);
            assert forall|x: u128| #[trigger] processed(ss, ss.len() as int, x) && !action_ok(
                old(self).fs,
                action,
                val_of(old(self).objects@, x),
            ) implies has_key(self.object_errors@, x) && val_of(self.object_errors@, x)@.len() == 1
                && val_of(self.object_errors@, x)@[0]@ == action_message(
                old(self).fs,
                action,
                val_of(old(self).objects@, x),
            ) by {
                assert(progress.has_errors(x));
                let j = key_index(progress.errors@, x);
                assert(progress.errors@[j].0 == x);
                lemma_key_at(progress.errors@, x, j);
                assert(entries@[j].object_id == x);
                assert(entries@[j].messages@ == progress.errors@[j].1@);
                assert(entries@[j].messages@ == progress.error_messages(x));
                assert(self.has_error(x));
                assert(self.error_msgs(x) == entries@[j].messages@);
            }
            assert forall|x: u128|
                !progress.has_errors(x) implies (forall|k: int|
                0 <= k < entries@.len() ==> (#[trigger] entries@[k]).object_id != x) by {
                assert forall|k: int|
                    0 <= k < entries@.len() implies (#[trigger] entries@[k]).object_id != x by {
                    if entries@[k].object_id == x {
                        assert(progress.errors@[k].0 == x);
                        assert(has_key(progress.errors@, x));
                    }
                }
            }
            assert forall|x: u128| #[trigger] processed(ss, ss.len() as int, x) && action_ok(
                old(self).fs,
                action,
                val_of(old(self).objects@, x),
            ) implies !has_key(self.object_errors@, x) by {
                assert(!progress.has_errors(x));
                assert(!has_key(before_flush.object_errors@, x));
                assert(!before_flush.has_error(x));
                assert(self.has_error(x) <==> before_flush.has_error(x));
            }
            assert forall|x: u128| !processed(ss, ss.len() as int, x) implies ((#[trigger] has_key(
                self.object_errors@,
                x,
            ) <==> has_key(old(self).object_errors@, x)) && (has_key(
                old(self).object_errors@,
                x,
            ) ==> val_of(self.object_errors@, x)@ == val_of(old(self).object_errors@, x)@)) by {
                assert(!progress.has_errors(x));
                assert(has_key(before_flush.object_errors@, x) <==> has_key(
                    old(self).object_errors@,
                    x,
                ));
                assert(self.has_error(x) <==> before_flush.has_error(x));
                assert(before_flush.has_error(x) ==> self.error_msgs(x)
                    == before_flush.error_msgs(x));
            }
            assert(Self::pass_errors_ok(
                self.object_errors@,
                old(self).object_errors@,
                old(self).fs,
                old(self).objects@,
                ss,
                ss.len() as int,
                action,
            ));
            if action is Sync {
                assert(Self::pass_archive_ok(
                    self.archive,
                    old(self).archive,
                    old(self).fs,
                    ss,
                    ss.len() as int,
                ));
            }
        }
        Ok(progress)
    }

    /// Begins an integrity pass: takes the snapshot timestamp and total,
    /// and installs a guard in the `check` task slot. Fails with `Busy`
    /// while another check runs.
    pub fn check(&mut self) -> (r: Result<Progress, Error>)
        requires
            old(self).wf(),
        ensures
            final(self).wf(),
            old(self).tasks.check is Some ==> (r matches Err(e) && e.kind == ErrorKind::Busy
                && *final(self) == *old(self)),
            old(self).tasks.check is None ==> r is Ok,
            r matches Ok(p) ==> {
                &&& old(self).tasks.check is None
                &&& p.completed == 0
                &&& p.errors@.len() == 0
                &&& p.total == Self::snapshot_of(old(self).objects@, p.started).len()
                &&& final(self).tasks.check matches Some(q) && q.started == p.started && q.total
                    == p.total && q.completed == 0 && q.errors@.len() == 0
                &&& final(self).tasks.archive == old(self).tasks.archive
                &&& final(self).buckets == old(self).buckets
                &&& final(self).objects == old(self).objects
                &&& final(self).object_errors == old(self).object_errors
                &&& final(self).fs == old(self).fs
                &&& final(self).archive == old(self).archive
                &&& final(self).about == old(self).about
            },
    {
        let started = now_timestamp();
        let total = self.get_object_count(started);
        if self.tasks.check.is_some() {
            return Err(Error::new(ErrorKind::Busy, String::from_str("a check is already running")));
        }
        self.tasks.check = Some(Progress::new(started, total));
        Ok(Progress::new(started, total))
    }

    /// Begins an archive pass: verifies an archive location is
    /// configured, takes the snapshot timestamp and total, installs a
    /// guard in the `archive` task slot, writes the catalog dump beside
    /// the mirror, and prunes stale mirrored blobs.
    pub fn archive(&mut self) -> (r: Result<Progress, Error>)
        requires
            old(self).wf(),
        ensures
            final(self).wf(),
            old(self).archive is None ==> (r matches Err(e) && e.kind == ErrorKind::Internal
                && *final(self) == *old(self)),
            old(self).archive is Some && old(self).tasks.archive is Some ==> (r matches Err(e)
                && e.kind == ErrorKind::Busy && *final(self) == *old(self)),
            old(self).archive is Some && old(self).tasks.archive is None ==> r is Ok,
            r matches Ok(p) ==> {
                &&& old(self).archive is Some
                &&& old(self).tasks.archive is None
                &&& p.completed == 0
                &&& p.errors@.len() == 0
                &&& p.total == Self::snapshot_of(old(self).objects@, p.started).len()
                &&& final(self).tasks.archive matches Some(q) && q.started == p.started && q.total
                    == p.total && q.completed == 0 && q.errors@.len() == 0
                &&& final(self).tasks.check == old(self).tasks.check
                &&& final(self).buckets == old(self).buckets
                &&& final(self).objects == old(self).objects
                &&& final(self).object_errors == old(self).object_errors
                &&& final(self).fs == old(self).fs
                &&& final(self).about == old(self).about
                &&& final(self).archive is Some
                &&& arch_dump(final(self).archive)
                &&& (forall|x: u128|
                    #[trigger] arch_has(final(self).archive, x) <==> (arch_has(
                        old(self).archive,
                        x,
                    ) && old(self).fs.has_blob(x)))
                &&& (forall|x: u128|
                    arch_has(final(self).archive, x) ==> #[trigger] arch_content(
                        final(self).archive,
                        x,
                    ) == arch_content(old(self).archive, x))
            },
    {
        if self.archive.is_none() {
            return Err(
                Error::new(ErrorKind::Internal, String::from_str("archive location not specified")),
            );
        }
        let started = now_timestamp();
        let total = self.get_object_count(started);
        if self.tasks.archive.is_some() {
            return Err(
                Error::new(ErrorKind::Busy, String::from_str("an archive is already running")),
            );
        }
        match &mut self.archive {
            Some(ar) => {
                ar.dump_taken = true;
                self.fs.remove_extraneous(ar);
            },
            None => {
                proof {
                    assert(false);
                }
            },
        }
        self.tasks.archive = Some(Progress::new(started, total));
        Ok(Progress::new(started, total))
    }

    /// Drives an installed integrity pass to completion and vacates the
    /// `check` task slot.
    pub fn run_check(&mut self) -> (r: Result<Progress, Error>)
        requires
            old(self).wf(),
            old(self).tasks.check is Some,
        ensures
            final(self).wf(),
            r is Ok,
            final(self).tasks.check is None,
            final(self).tasks.archive == old(self).tasks.archive,
            final(self).buckets == old(self).buckets,
            final(self).objects == old(self).objects,
            final(self).fs == old(self).fs,
            final(self).archive == old(self).archive,
            final(self).about == old(self).about,
            r matches Ok(p) ==> p.started == guard_started(old(self).tasks.check) && p.total
                == guard_total(old(self).tasks.check) && p.completed == Self::snapshot_of(
                old(self).objects@,
                p.started,
            ).len(),
            Self::pass_errors_ok(
                final(self).object_errors@,
                old(self).object_errors@,
                old(self).fs,
                old(self).objects@,
                Self::snapshot_of(old(self).objects@, guard_started(old(self).tasks.check)),
                Self::snapshot_of(
                    old(self).objects@,
                    guard_started(old(self).tasks.check),
                ).len() as int,
                Action::Check,
            ),
    {
        let guard = match self.tasks.check.take() {
            Some(g) => g,
            None => {
                proof {
                    assert(false);
                }
                Progress::new(0, 0)
            },
        };
        proof {
            assert(guard.started == guard_started(old(self).tasks.check));
            assert(guard.total == guard_total(old(self).tasks.check));
        }
        self.for_each_object(guard, Action::Check)
    }

    /// Drives an installed archive pass to completion and vacates the
    /// `archive` task slot. When every snapshot object is already
    /// mirrored byte-identically, the pass copies nothing.
    pub fn run_archive(&mut self) -> (r: Result<Progress, Error>)
        requires
            old(self).wf(),
            old(self).tasks.archive is Some,
            old(self).archive is Some,
        ensures
            final(self).wf(),
            r is Ok,
            final(self).tasks.archive is None,
            final(self).tasks.check == old(self).tasks.check,
            final(self).buckets == old(self).buckets,
            final(self).objects == old(self).objects,
            final(self).fs == old(self).fs,
            final(self).about == old(self).about,
            final(self).archive is Some,
            arch_dump(final(self).archive) == arch_dump(old(self).archive),
            r matches Ok(p) ==> p.started == guard_started(old(self).tasks.archive) && p.total
                == guard_total(old(self).tasks.archive) && p.completed == Self::snapshot_of(
                old(self).objects@,
                p.started,
            ).len(),
            Self::pass_errors_ok(
                final(self).object_errors@,
                old(self).object_errors@,
                old(self).fs,
                old(self).objects@,
                Self::snapshot_of(old(self).objects@, guard_started(old(self).tasks.archive)),
                Self::snapshot_of(
                    old(self).objects@,
                    guard_started(old(self).tasks.archive),
                ).len() as int,
                Action::Sync,
            ),
            Self::pass_archive_ok(
                final(self).archive,
                old(self).archive,
                old(self).fs,
                Self::snapshot_of(old(self).objects@, guard_started(old(self).tasks.archive)),
                Self::snapshot_of(
                    old(self).objects@,
                    guard_started(old(self).tasks.archive),
                ).len() as int,
            ),
    {
        let guard = match self.tasks.archive.take() {
            Some(g) => g,
            None => {
                proof {
                    assert(false);
                }
                Progress::new(0, 0)
            },
        };
        proof {
            assert(guard.started == guard_started(old(self).tasks.archive));
            assert(guard.total == guard_total(old(self).tasks.archive));
        }
        self.for_each_object(guard, Action::Sync)
    }
}


/// Law: immediately after a commit, the integrity check of the committed
/// object succeeds. A commit stores the staged bytes as the blob and
/// stores their hash in the row, so re-hashing the blob matches the row.
pub proof fn lemma_check_after_commit(fs: Filesystem, obj: Object)
    requires
        fs.has_blob(obj.id),
        obj.hash@ == content_hash(fs.blob_content(obj.id)),
    ensures
        action_ok(fs, Action::Check, obj),
{
}

/// Law: committing the same byte content twice yields two rows with
/// distinct ids and identical hash, size, media type, and media subtype.
/// The derived metadata is a function of the content alone; the id is the
/// part's own.
pub proof fn lemma_duplicate_content_commits(o1: Object, o2: Object, c: Seq<u8>)
    requires
        o1.id != o2.id,
        o1.hash@ == content_hash(c) && o1.size == c.len() && o1.media_type@ == media_type_of(c)
            && o1.media_subtype@ == media_subtype_of(c),
        o2.hash@ == content_hash(c) && o2.size == c.len() && o2.media_type@ == media_type_of(c)
            && o2.media_subtype@ == media_subtype_of(c),
    ensures
        o1.id != o2.id,
        o1.hash@ == o2.hash@,
        o1.size == o2.size,
        o1.media_type@ == o2.media_type@,
        o1.media_subtype@ == o2.media_subtype@,
{
}

/// Law: after a prune, no orphan row remains in the catalog, and no blob
/// file remains whose id is not in the catalog.
pub proof fn lemma_prune_leaves_no_orphans(before: ObjectStore, after: ObjectStore)
    requires
        before.wf(),
        after.buckets == before.buckets,
        forall|x: u128|
            #[trigger] after.has_object(x) <==> (before.has_object(x) && !before.is_orphan(x)),
        forall|x: u128|
            #[trigger] after.fs.has_blob(x) <==> (before.fs.has_blob(x) && !before.is_orphan(x)),
        after.blobs_covered(),
    ensures
        forall|x: u128| #[trigger] after.has_object(x) ==> !before.is_orphan(x),
        forall|x: u128| #[trigger] after.fs.has_blob(x) ==> after.has_object(x),
{
}


/// Law: after an archive pass over a snapshot, every object of the
/// snapshot whose blob exists under the primary root has a byte-identical
/// copy under the mirror.
pub proof fn lemma_archive_mirrors_snapshot(
    a: Option<ArchiveRoot>,
    base: Option<ArchiveRoot>,
    fs: Filesystem,
    ss: Seq<Object>,
)
    requires
        ObjectStore::pass_archive_ok(a, base, fs, ss, ss.len() as int),
    ensures
        forall|x: u128|
            #[trigger] ObjectStore::lists_id(ss, x) && fs.has_blob(x) ==> mirrored(a, fs, x),
{
    reveal(ObjectStore::pass_archive_ok);
    assert forall|x: u128|
        #[trigger] ObjectStore::lists_id(ss, x) && fs.has_blob(x) implies mirrored(a, fs, x) by {
        let k = choose|k: int| 0 <= k < ss.len() && (#[trigger] ss[k]).id == x;
        assert(processed(ss, ss.len() as int, x));
    }
}

/// Law: after a stream pass over a snapshot, each visited object's
/// diagnostic record equals the outcome of its last attempt — absent on
/// success, exactly the recorded message on failure — and every record of
/// an unvisited object is untouched.
pub proof fn lemma_pass_records_outcomes(
    cur: Seq<(u128, Vec<String>)>,
    base: Seq<(u128, Vec<String>)>,
    fs: Filesystem,
    objs: Seq<(u128, Object)>,
    ss: Seq<Object>,
    action: Action,
)
    requires
        ObjectStore::pass_errors_ok(cur, base, fs, objs, ss, ss.len() as int, action),
    ensures
        forall|x: u128|
            #[trigger] ObjectStore::lists_id(ss, x) && action_ok(fs, action, val_of(objs, x))
                ==> !has_key(cur, x),
        forall|x: u128|
            #[trigger] ObjectStore::lists_id(ss, x) && !action_ok(fs, action, val_of(objs, x))
                ==> has_key(cur, x) && val_of(cur, x)@.len() == 1 && val_of(cur, x)@[0]@
                == action_message(fs, action, val_of(objs, x)),
        forall|x: u128|
            !ObjectStore::lists_id(ss, x) ==> ((#[trigger] has_key(cur, x) <==> has_key(base, x))
                && (has_key(base, x) ==> val_of(cur, x)@ == val_of(base, x)@)),
{
    reveal(ObjectStore::pass_errors_ok);
    assert forall|x: u128| #[trigger] ObjectStore::lists_id(ss, x) implies processed(
        ss,
        ss.len() as int,
        x,
    ) by {
        let k = choose|k: int| 0 <= k < ss.len() && (#[trigger] ss[k]).id == x;
    }
    assert forall|x: u128| #[trigger] processed(ss, ss.len() as int, x) implies ObjectStore::lists_id(
        ss,
        x,
    ) by {
        let k = choose|k: int| 0 <= k < ss.len() && (#[trigger] ss[k]).id == x;
    }
    assert forall|x: u128|
        #[trigger] ObjectStore::lists_id(ss, x) && !action_ok(
            fs,
            action,
            val_of(objs, x),
        ) implies has_key(cur, x) && val_of(cur, x)@.len() == 1 && val_of(cur, x)@[0]@
        == action_message(fs, action, val_of(objs, x)) by {
        assert(processed(ss, ss.len() as int, x));
        assert(has_key(cur, x));
    }
}


/// Law: when every snapshot object's blob exists under the primary root
/// (the referential invariant; externally deleted blobs break it and are
/// reported by a check pass instead), an archive pass mirrors the whole
/// snapshot byte-identically.
pub proof fn lemma_archive_complete_under_referential(
    a: Option<ArchiveRoot>,
    base: Option<ArchiveRoot>,
    fs: Filesystem,
    ss: Seq<Object>,
)
    requires
        ObjectStore::pass_archive_ok(a, base, fs, ss, ss.len() as int),
        forall|x: u128| #[trigger] ObjectStore::lists_id(ss, x) ==> fs.has_blob(x),
    ensures
        forall|x: u128| #[trigger] ObjectStore::lists_id(ss, x) ==> mirrored(a, fs, x),
{
    lemma_archive_mirrors_snapshot(a, base, fs, ss);
}

/// Law: an archive pass over a snapshot that is already fully mirrored
/// copies nothing: the mirror comes out exactly as it went in.
pub proof fn lemma_archive_idempotent(
    a: Option<ArchiveRoot>,
    base: Option<ArchiveRoot>,
    fs: Filesystem,
    ss: Seq<Object>,
)
    requires
        ObjectStore::pass_archive_ok(a, base, fs, ss, ss.len() as int),
        forall|x: u128| #[trigger] ObjectStore::lists_id(ss, x) ==> mirrored(base, fs, x),
    ensures
        a == base,
{
    reveal(ObjectStore::pass_archive_ok);
    assert forall|k: int| 0 <= k < ss.len() implies mirrored(
        base,
        fs,
        (#[trigger] ss[k]).id,
    ) by {
        assert(ObjectStore::lists_id(ss, ss[k].id));
    }
}


} // verus!
