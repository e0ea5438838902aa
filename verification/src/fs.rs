//! The content-addressed blob filesystem: committed blobs addressed by
//! object id, the staging area of parts, and the archive mirror.
//!
//! The filesystem has no knowledge of the catalog; it is addressed purely
//! by id.

use crate::content::{
    content_hash, content_hash_of, media_subtype_of, media_type_of, sniff_media_type,
};
use crate::error::{Error, ErrorKind};
use crate::model::Object;
use crate::table::{
    find, has_key, insert_new, key_index, keys_unique, lemma_contains_push, lemma_key_at,
    remove_key, remove_keys, update_at, val_of,
};
use vstd::prelude::*;

verus! {

/// The primary blob root: committed blobs and staged parts, each a byte
/// file named by an id.
pub struct Filesystem {
    pub blobs: Vec<(u128, Vec<u8>)>,
    pub parts: Vec<(u128, Vec<u8>)>,
}

/// The archive mirror: a second blob root plus the catalog dump written
/// beside it.
pub struct ArchiveRoot {
    pub blobs: Vec<(u128, Vec<u8>)>,
    pub dump_taken: bool,
}

impl ArchiveRoot {
    /// Whether the mirror is internally consistent: blob names distinct.
    pub open spec fn wf(self) -> bool {
        keys_unique(self.blobs@)
    }

    /// Whether the mirror holds a blob for the given id.
    pub open spec fn has_blob(self, id: u128) -> bool {
        has_key(self.blobs@, id)
    }

    /// The bytes of the mirrored blob for the given id.
    pub open spec fn blob_content(self, id: u128) -> Seq<u8>
        recommends
            self.has_blob(id),
    {
        val_of(self.blobs@, id)@
    }

    /// An empty mirror with no dump taken yet.
    pub fn new() -> (r: ArchiveRoot)
        ensures
            r.wf(),
            r.blobs@ == Seq::<(u128, Vec<u8>)>::empty(),
            !r.dump_taken,
    {
        ArchiveRoot { blobs: Vec::new(), dump_taken: false }
    }
}

/// Copies a byte vector.
pub fn clone_bytes(v: &Vec<u8>) -> (r: Vec<u8>)
    ensures
        r@ == v@,
{
    let mut r: Vec<u8> = Vec::new();
    let mut i: usize = 0;
    while i < v.len()
        invariant
            i <= v@.len(),
            r@ == v@.take(i as int),
        decreases v@.len() - i,
    {
        r.push(v[i]);
        proof {
            assert(r@ =~= v@.take(i as int + 1));
        }
        i = i + 1;
    }
    proof {
        assert(v@.take(v@.len() as int) =~= v@);
    }
    r
}

/// Appends the bytes of `src` to `dst`.
pub fn append_bytes(dst: &mut Vec<u8>, src: &Vec<u8>)
    ensures
        final(dst)@ == old(dst)@ + src@,
{
    let mut i: usize = 0;
    while i < src.len()
        invariant
            i <= src@.len(),
            dst@ == old(dst)@ + src@.take(i as int),
        decreases src@.len() - i,
    {
        dst.push(src[i]);
        proof {
            assert(dst@ =~= old(dst)@ + src@.take(i as int + 1));
        }
        i = i + 1;
    }
    proof {
        assert(old(dst)@ + src@.take(src@.len() as int) =~= old(dst)@ + src@);
    }
}

/// Compares two byte vectors for equality.
pub fn bytes_equal(a: &Vec<u8>, b: &Vec<u8>) -> (r: bool)
    ensures
        r == (a@ == b@),
{
    if a.len() != b.len() {
        return false;
    }
    let mut i: usize = 0;
    while i < a.len()
        invariant
            i <= a@.len(),
            a@.len() == b@.len(),
            forall|j: int| 0 <= j < i ==> a@[j] == b@[j],
        decreases a@.len() - i,
    {
        if a[i] != b[i] {
            proof {
                assert(a@ != b@);
            }
            return false;
        }
        i = i + 1;
    }
    proof {
        assert(a@ =~= b@);
    }
    true
}

impl Filesystem {
    /// Whether the roots are internally consistent: blob and part names
    /// each distinct.
    pub open spec fn wf(self) -> bool {
        keys_unique(self.blobs@) && keys_unique(self.parts@)
    }

    /// Whether a committed blob exists for the given id.
    pub open spec fn has_blob(self, id: u128) -> bool {
        has_key(self.blobs@, id)
    }

    /// The bytes of the committed blob for the given id.
    pub open spec fn blob_content(self, id: u128) -> Seq<u8>
        recommends
            self.has_blob(id),
    {
        val_of(self.blobs@, id)@
    }

    /// Whether a staged part exists for the given id.
    pub open spec fn has_part(self, id: u128) -> bool {
        has_key(self.parts@, id)
    }

    /// The bytes staged so far for the given part id.
    pub open spec fn part_content(self, id: u128) -> Seq<u8>
        recommends
            self.has_part(id),
    {
        val_of(self.parts@, id)@
    }

    /// An empty root.
    pub fn new() -> (r: Filesystem)
        ensures
            r.wf(),
            r.blobs@ == Seq::<(u128, Vec<u8>)>::empty(),
            r.parts@ == Seq::<(u128, Vec<u8>)>::empty(),
    {
        Filesystem { blobs: Vec::new(), parts: Vec::new() }
    }

    /// Opens the staging file named by `id`, creating it empty if absent.
    pub fn part(&mut self, id: u128)
        requires
            old(self).wf(),
        ensures
            final(self).wf(),
            final(self).blobs == old(self).blobs,
            final(self).has_part(id),
            old(self).has_part(id) ==> *final(self) == *old(self),
            !old(self).has_part(id) ==> final(self).part_content(id) == Seq::<u8>::empty(),
            forall|x: u128|
                x != id ==> (#[trigger] final(self).has_part(x) <==> old(self).has_part(x)),
            forall|x: u128|
                x != id && old(self).has_part(x) ==> #[trigger] final(self).part_content(x)
                    == old(self).part_content(x),
    {
        let found = find(&self.parts, id);
        match found {
            Some(i) => {
                proof {
                    lemma_key_at(self.parts@, id, i as int);
                }
            },
            None => {
                let empty: Vec<u8> = Vec::new();
                insert_new(&mut self.parts, id, empty);
            },
        }
    }

    /// Appends bytes to the staged part named by `id`.
    pub fn write_part(&mut self, id: u128, bytes: &Vec<u8>) -> (r: Result<(), Error>)
        requires
            old(self).wf(),
        ensures
            final(self).wf(),
            final(self).blobs == old(self).blobs,
            r is Ok <==> old(self).has_part(id),
            r matches Err(e) ==> e.kind == ErrorKind::NotFound && *final(self) == *old(self),
            r is Ok ==> final(self).has_part(id) && final(self).part_content(id) == old(
                self,
            ).part_content(id) + bytes@,
            forall|x: u128|
                x != id ==> (#[trigger] final(self).has_part(x) <==> old(self).has_part(x)),
            forall|x: u128|
                x != id && old(self).has_part(x) ==> #[trigger] final(self).part_content(x)
                    == old(self).part_content(x),
    {
        let removed = remove_key(&mut self.parts, id);
        match removed {
            None => Err(Error::new(ErrorKind::NotFound, String::from_str("part not found"))),
            Some(pair) => {
                let mut content = pair.1;
                append_bytes(&mut content, bytes);
                insert_new(&mut self.parts, id, content);
                Ok(())
            },
        }
    }

    /// Finalizes the part named by `part_id`: derives its content hash,
    /// size, and sniffed media type, and promotes the staged bytes to a
    /// committed blob under the same id. The returned object row carries
    /// the supplied creation timestamp.
    pub fn commit(&mut self, part_id: u128, added: i64) -> (r: Result<Object, Error>)
        requires
            old(self).wf(),
        ensures
            final(self).wf(),
            r is Ok <==> (old(self).has_part(part_id) && !old(self).has_blob(part_id) && old(
                self,
            ).part_content(part_id).len() <= 0x7fff_ffff_ffff_ffff),
            r is Err ==> *final(self) == *old(self),
            r matches Err(e) ==> e.kind == (if !old(self).has_part(part_id) {
                ErrorKind::NotFound
            } else if old(self).has_blob(part_id) {
                ErrorKind::Internal
            } else {
                ErrorKind::InvalidInput
            }),
            r matches Ok(obj) ==> {
                let c = old(self).part_content(part_id);
                &&& obj.id == part_id
                &&& obj.hash@ == content_hash(c)
                &&& obj.size == c.len()
                &&& obj.media_type@ == media_type_of(c)
                &&& obj.media_subtype@ == media_subtype_of(c)
                &&& obj.added == added
                &&& final(self).has_blob(part_id)
                &&& final(self).blob_content(part_id) == c
                &&& !final(self).has_part(part_id)
            },
            forall|x: u128|
                x != part_id ==> (#[trigger] final(self).has_blob(x) <==> old(self).has_blob(x)),
            forall|x: u128|
                x != part_id && old(self).has_blob(x) ==> #[trigger] final(self).blob_content(x)
                    == old(self).blob_content(x),
            forall|x: u128|
                x != part_id ==> (#[trigger] final(self).has_part(x) <==> old(self).has_part(x)),
            forall|x: u128|
                x != part_id && old(self).has_part(x) ==> #[trigger] final(self).part_content(x)
                    == old(self).part_content(x),
    {
        let pi = match find(&self.parts, part_id) {
            Some(pi) => pi,
            None => {
                return Err(
                    Error::new(ErrorKind::NotFound, String::from_str("part not found")),
                );
            },
        };
        proof {
            lemma_key_at(self.parts@, part_id, pi as int);
        }
        if let Some(bi) = find(&self.blobs, part_id) {
            proof {
                lemma_key_at(self.blobs@, part_id, bi as int);
            }
            return Err(
                Error::new(
                    ErrorKind::Internal,
                    String::from_str("an object with this id already exists"),
                ),
            );
        }
        if self.parts[pi].1.len() as u64 > 0x7fff_ffff_ffff_ffffu64 {
            return Err(
                Error::new(ErrorKind::InvalidInput, String::from_str("part is too large")),
            );
        }
        let content = match remove_key(&mut self.parts, part_id) {
            Some(pair) => pair.1,
            None => {
                proof {
                    assert(false);
                }
                Vec::new()
            },
        };
        let hash = content_hash_of(&content);
        let (media_type, media_subtype) = sniff_media_type(&content);
        let size = content.len() as u64;
        let obj = Object { id: part_id, hash, size, media_type, media_subtype, added };
        insert_new(&mut self.blobs, part_id, content);
        Ok(obj)
    }

    /// Opens the committed blob for the given id and returns its bytes.
    pub fn object(&self, id: u128) -> (r: Result<Vec<u8>, Error>)
        requires
            self.wf(),
        ensures
            r is Ok <==> self.has_blob(id),
            r matches Ok(bytes) ==> bytes@ == self.blob_content(id),
            r matches Err(e) ==> e.kind == ErrorKind::NotFound,
    {
        match find(&self.blobs, id) {
            None => Err(Error::new(ErrorKind::NotFound, String::from_str("object not found"))),
            Some(i) => {
                proof {
                    lemma_key_at(self.blobs@, id, i as int);
                }
                Ok(clone_bytes(&self.blobs[i].1))
            },
        }
    }

    /// Deletes the blob files for the supplied ids; missing files are
    /// tolerated.
    pub fn remove_objects(&mut self, ids: &Vec<u128>)
        requires
            old(self).wf(),
        ensures
            final(self).wf(),
            final(self).parts == old(self).parts,
            forall|x: u128|
                #[trigger] final(self).has_blob(x) <==> (old(self).has_blob(x) && !ids@.contains(
                    x,
                )),
            forall|x: u128|
                final(self).has_blob(x) ==> #[trigger] final(self).blob_content(x) == old(
                    self,
                ).blob_content(x),
    {
        remove_keys(&mut self.blobs, ids);
    }

    /// Re-reads the blob for the given id and reports whether its bytes
    /// still hash to the expected value.
    pub fn check_object(&self, id: u128, expected: &String) -> (r: Result<(), String>)
        requires
            self.wf(),
        ensures
            r is Ok <==> (self.has_blob(id) && content_hash(self.blob_content(id)) == expected@),
            r matches Err(m) ==> m@ == (if !self.has_blob(id) {
                "object file missing"@
            } else {
                "hash mismatch"@
            }),
    {
        match find(&self.blobs, id) {
            None => Err(String::from_str("object file missing")),
            Some(i) => {
                proof {
                    lemma_key_at(self.blobs@, id, i as int);
                }
                let actual = content_hash_of(&self.blobs[i].1);
                if actual == *expected {
                    Ok(())
                } else {
                    Err(String::from_str("hash mismatch"))
                }
            },
        }
    }

    /// Copies the blob for the given id into the archive mirror under the
    /// same name, skipping the copy if a byte-identical file is already
    /// there.
    pub fn copy_object(&self, archive: &mut ArchiveRoot, id: u128) -> (r: Result<(), String>)
        requires
            self.wf(),
            old(archive).wf(),
        ensures
            final(archive).wf(),
            final(archive).dump_taken == old(archive).dump_taken,
            r is Ok <==> self.has_blob(id),
            r is Err ==> *final(archive) == *old(archive),
            r matches Err(m) ==> m@ == "object file missing"@,
            r is Ok ==> final(archive).has_blob(id) && final(archive).blob_content(id)
                == self.blob_content(id),
            forall|x: u128|
                x != id ==> (#[trigger] final(archive).has_blob(x) <==> old(archive).has_blob(x)),
            forall|x: u128|
                x != id && old(archive).has_blob(x) ==> #[trigger] final(archive).blob_content(x)
                    == old(archive).blob_content(x),
            self.has_blob(id) && old(archive).has_blob(id) && old(archive).blob_content(id)
                == self.blob_content(id) ==> *final(archive) == *old(archive),
    {
        let bi = match find(&self.blobs, id) {
            Some(bi) => bi,
            None => {
                return Err(String::from_str("object file missing"));
            },
        };
        proof {
            lemma_key_at(self.blobs@, id, bi as int);
        }
        match find(&archive.blobs, id) {
            Some(ai) => {
                proof {
                    lemma_key_at(archive.blobs@, id, ai as int);
                }
                if bytes_equal(&self.blobs[bi].1, &archive.blobs[ai].1) {
                    Ok(())
                } else {
                    update_at(&mut archive.blobs, ai, clone_bytes(&self.blobs[bi].1));
                    Ok(())
                }
            },
            None => {
                insert_new(&mut archive.blobs, id, clone_bytes(&self.blobs[bi].1));
                Ok(())
            },
        }
    }

    /// Deletes files under the archive mirror that no longer correspond to
    /// any blob under the primary root.
    pub fn remove_extraneous(&self, archive: &mut ArchiveRoot)
        requires
            self.wf(),
            old(archive).wf(),
        ensures
            final(archive).wf(),
            final(archive).dump_taken == old(archive).dump_taken,
            forall|x: u128|
                #[trigger] final(archive).has_blob(x) <==> (old(archive).has_blob(x)
                    && self.has_blob(x)),
            forall|x: u128|
                final(archive).has_blob(x) ==> #[trigger] final(archive).blob_content(x) == old(
                    archive,
                ).blob_content(x),
    {
        let mut extraneous: Vec<u128> = Vec::new();
        let mut i: usize = 0;
        while i < archive.blobs.len()
            invariant
                i <= archive.blobs@.len(),
                forall|x: u128|
                    #[trigger] extraneous@.contains(x) <==> (exists|j: int|
                        0 <= j < i && (#[trigger] archive.blobs@[j]).0 == x && !self.has_blob(x)),
            decreases archive.blobs@.len() - i,
        {
            let ghost prev = extraneous@;
            let key = archive.blobs[i].0;
            let missing = find(&self.blobs, key).is_none();
            if missing {
                extraneous.push(key);
            }
            proof {
                assert forall|x: u128| #[trigger] extraneous@.contains(x) implies (exists|j: int|
                    0 <= j < i + 1 && (#[trigger] archive.blobs@[j]).0 == x && !self.has_blob(
                        x,
                    )) by {
                    if missing {
                        lemma_contains_push(prev, key, x);
                    }
                    if prev.contains(x) {
                        let j = choose|j: int|
                            0 <= j < i && (#[trigger] archive.blobs@[j]).0 == x && !self.has_blob(
                                x,
                            );
                        assert(archive.blobs@[j].0 == x);
                    } else {
                        assert(missing && x == key);
                        assert(archive.blobs@[i as int].0 == x);
                    }
                }
                assert forall|x: u128|
                    (exists|j: int|
                        0 <= j < i + 1 && (#[trigger] archive.blobs@[j]).0 == x && !self.has_blob(
                            x,
                        )) implies #[trigger] extraneous@.contains(x) by {
                    let j = choose|j: int|
                        0 <= j < i + 1 && (#[trigger] archive.blobs@[j]).0 == x && !self.has_blob(
                            x,
                        );
                    if missing {
                        lemma_contains_push(prev, key, x);
                        if j < i {
                            assert(prev.contains(x));
                        }
                    } else {
                        if j == i {
                            assert(self.has_blob(key));
                            assert(false);
                        }
                        assert(prev.contains(x));
                    }
                }
            }
            i = i + 1;
        }
        proof {
            assert forall|x: u128| #[trigger] extraneous@.contains(x) <==> (has_key(
                archive.blobs@,
                x,
            ) && !self.has_blob(x)) by {
                if extraneous@.contains(x) {
                    let j = choose|j: int|
                        0 <= j < archive.blobs@.len() && (#[trigger] archive.blobs@[j]).0 == x
                            && !self.has_blob(x);
                    assert(archive.blobs@[j].0 == x);
                }
                if has_key(archive.blobs@, x) && !self.has_blob(x) {
                    let j = key_index(archive.blobs@, x);
                    assert(archive.blobs@[j].0 == x);
                }
            }
        }
        remove_keys(&mut archive.blobs, &extraneous);
    }
}

} // verus!
