//! In-memory models of the two external capabilities the ingestion
//! pipeline writes to: a content-addressed object store (put by key,
//! last write wins) and a relational index with one row per
//! {project, branch, language, filename} tuple, reconciled by upsert.
//! Both tolerate repeated writes of the same key: an object is
//! overwritten in place, an index row is updated, never duplicated.

use vstd::prelude::*;
use crate::render::entry_views;
use crate::text::str_eq;

verus! {

/// One stored object: bytes under a key, with a content type and
/// descriptive custom metadata.
pub struct StoredObject {
    pub key: String,
    pub bytes: Vec<u8>,
    pub content_type: String,
    pub metadata: Vec<(String, String)>,
}

/// The mathematical value of a stored object.
pub struct ObjectV {
    pub bytes: Seq<u8>,
    pub content_type: Seq<char>,
    pub metadata: Seq<(Seq<char>, Seq<char>)>,
}

impl View for StoredObject {
    type V = ObjectV;

    open spec fn view(&self) -> ObjectV {
        ObjectV {
            bytes: self.bytes@,
            content_type: self.content_type@,
            metadata: entry_views(self.metadata@),
        }
    }
}

/// The object store: a mapping from keys to objects.
pub struct ObjectStore {
    objects: Vec<StoredObject>,
}

impl View for ObjectStore {
    type V = Map<Seq<char>, ObjectV>;

    closed spec fn view(&self) -> Map<Seq<char>, ObjectV> {
        Map::new(
            |k: Seq<char>|
                exists|i: int|
                    0 <= i < self.objects@.len() && (#[trigger] self.objects@[i]).key@ == k,
            |k: Seq<char>|
                {
                    let i = choose|i: int|
                        0 <= i < self.objects@.len() && (#[trigger] self.objects@[i]).key@ == k;
                    self.objects@[i]@
                },
        )
    }
}

impl ObjectStore {
    /// No key occurs twice.
    pub closed spec fn wf(&self) -> bool {
        forall|i: int, j: int|
            0 <= i < j < self.objects@.len() ==> (#[trigger] self.objects@[i]).key@ != (
            #[trigger] self.objects@[j]).key@
    }

    /// The number of objects held.
    pub closed spec fn spec_len(&self) -> nat {
        self.objects@.len()
    }

    pub fn new() -> (s: ObjectStore)
        ensures
            s.wf(),
            s@ == Map::<Seq<char>, ObjectV>::empty(),
            s.spec_len() == 0,
    {
        let s = ObjectStore { objects: Vec::new() };
        proof {
            assert(s@ =~= Map::<Seq<char>, ObjectV>::empty());
        }
        s
    }

    /// The position of a key among the objects, if it is there.
    fn position(&self, key: &str) -> (r: Option<usize>)
        ensures
            r is Some ==> r.unwrap() < self.objects@.len() && self.objects@[
                r.unwrap() as int
            ].key@ == key@,
            r is None ==> forall|i: int|
                0 <= i < self.objects@.len() ==> (#[trigger] self.objects@[i]).key@ != key@,
    {
        let n = self.objects.len();
        let mut idx: usize = 0;
        while idx < n
            invariant
                n == self.objects@.len(),
                idx <= n,
                forall|i: int| 0 <= i < idx ==> (#[trigger] self.objects@[i]).key@ != key@,
            decreases n - idx,
        {
            if str_eq(self.objects[idx].key.as_str(), key) {
                return Some(idx);
            }
            idx += 1;
        }
        None
    }

    /// Write an object under its key, overwriting any object already
    /// stored there: last write wins.
    pub fn put(&mut self, obj: StoredObject)
        requires
            old(self).wf(),
        ensures
            final(self).wf(),
            final(self)@ == old(self)@.insert(obj.key@, obj@),
            old(self)@.dom().contains(obj.key@) ==> final(self).spec_len() == old(self).spec_len(),
            !old(self)@.dom().contains(obj.key@) ==> final(self).spec_len() == old(self).spec_len()
                + 1,
    {
        let ghost old_objects = self.objects@;
        let ghost k0 = obj.key@;
        let ghost ov = obj@;
        match self.position(obj.key.as_str()) {
            Some(idx) => {
                self.objects.set(idx, obj);
                proof {
                    assert(self.objects@[idx as int].key@ == k0);
                    assert forall|i: int, j: int|
                        0 <= i < j < self.objects@.len() implies (#[trigger] self.objects@[i]).key@
                        != (#[trigger] self.objects@[j]).key@ by {
                        assert(old_objects[i].key@ != old_objects[j].key@);
                        assert(self.objects@[i].key@ == old_objects[i].key@);
                        assert(self.objects@[j].key@ == old_objects[j].key@);
                    }
                    assert forall|k: Seq<char>| #[trigger] self@.dom().contains(k) implies old(
                        self,
                    )@.insert(k0, ov).dom().contains(k) by {
                        let i = choose|i: int|
                            0 <= i < self.objects@.len() && (#[trigger] self.objects@[i]).key@ == k;
                        if k != k0 {
                            assert(old_objects[i].key@ == k);
                        }
                    }
                    assert forall|k: Seq<char>| #[trigger]
                        old(self)@.insert(k0, ov).dom().contains(k) implies self@.dom().contains(
                        k,
                    ) by {
                        if k == k0 {
                            assert(self.objects@[idx as int].key@ == k);
                        } else {
                            let i = choose|i: int|
                                0 <= i < old_objects.len() && (#[trigger] old_objects[i]).key@ == k;
                            assert(self.objects@[i].key@ == k);
                        }
                    }
                    assert forall|k: Seq<char>| #[trigger] self@.dom().contains(k) implies self@[k]
                        == old(self)@.insert(k0, ov)[k] by {
                        let i = choose|i: int|
                            0 <= i < self.objects@.len() && (#[trigger] self.objects@[i]).key@ == k;
                        if k == k0 {
                            if i != idx as int {
                                assert(old_objects[i].key@ == k0);
                                assert(old_objects[idx as int].key@ == k0);
                                assert(false);
                            }
                        } else {
                            assert(old_objects[i].key@ == k);
                            let j = choose|j: int|
                                0 <= j < old_objects.len() && (#[trigger] old_objects[j]).key@ == k;
                            assert(j == i);
                        }
                    }
                    assert(self@ =~= old(self)@.insert(k0, ov));
                    assert(old(self)@.dom().contains(k0)) by {
                        assert(old_objects[idx as int].key@ == k0);
                    }
                }
            },
            None => {
                self.objects.push(obj);
                proof {
                    let m = old_objects.len() as int;
                    assert(self.objects@.len() == m + 1);
                    assert(self.objects@[m].key@ == k0);
                    assert forall|i: int, j: int|
                        0 <= i < j < self.objects@.len() implies (#[trigger] self.objects@[i]).key@
                        != (#[trigger] self.objects@[j]).key@ by {
                        if j < m {
                            assert(old_objects[i].key@ != old_objects[j].key@);
                        } else {
                            assert(self.objects@[i].key@ == old_objects[i].key@);
                            assert(old_objects[i].key@ != k0);
                        }
                    }
                    assert forall|k: Seq<char>| #[trigger] self@.dom().contains(k) implies old(
                        self,
                    )@.insert(k0, ov).dom().contains(k) by {
                        let i = choose|i: int|
                            0 <= i < self.objects@.len() && (#[trigger] self.objects@[i]).key@ == k;
                        if k != k0 {
                            assert(i != m);
                            assert(old_objects[i].key@ == k);
                        }
                    }
                    assert forall|k: Seq<char>| #[trigger]
                        old(self)@.insert(k0, ov).dom().contains(k) implies self@.dom().contains(
                        k,
                    ) by {
                        if k == k0 {
                            assert(self.objects@[m].key@ == k);
                        } else {
                            let i = choose|i: int|
                                0 <= i < old_objects.len() && (#[trigger] old_objects[i]).key@ == k;
                            assert(self.objects@[i].key@ == k);
                        }
                    }
                    assert forall|k: Seq<char>| #[trigger] self@.dom().contains(k) implies self@[k]
                        == old(self)@.insert(k0, ov)[k] by {
                        let i = choose|i: int|
                            0 <= i < self.objects@.len() && (#[trigger] self.objects@[i]).key@ == k;
                        if k == k0 {
                            if i != m {
                                assert(old_objects[i].key@ == k0);
                                assert(false);
                            }
                        } else {
                            assert(i != m);
                            assert(old_objects[i].key@ == k);
                            let j = choose|j: int|
                                0 <= j < old_objects.len() && (#[trigger] old_objects[j]).key@ == k;
                            assert(j == i);
                        }
                    }
                    assert(self@ =~= old(self)@.insert(k0, ov));
                    if old(self)@.dom().contains(k0) {
                        let i = choose|i: int|
                            0 <= i < old_objects.len() && (#[trigger] old_objects[i]).key@ == k0;
                        assert(false);
                    }
                }
            },
        }
    }

    /// Look a key up; `Some` exactly when an object is stored there.
    pub fn get(&self, key: &str) -> (r: Option<&StoredObject>)
        requires
            self.wf(),
        ensures
            r is Some <==> self@.dom().contains(key@),
            r is Some ==> r.unwrap()@ == self@[key@],
    {
        match self.position(key) {
            Some(idx) => {
                proof {
                    assert(self.objects@[idx as int].key@ == key@);
                    let j = choose|j: int|
                        0 <= j < self.objects@.len() && (#[trigger] self.objects@[j]).key@ == key@;
                    if j != idx as int {
                        assert(false);
                    }
                }
                Some(&self.objects[idx])
            },
            None => {
                proof {
                    if self@.dom().contains(key@) {
                        let i = choose|i: int|
                            0 <= i < self.objects@.len() && (#[trigger] self.objects@[i]).key@
                                == key@;
                        assert(false);
                    }
                }
                None
            },
        }
    }

    /// How many objects the store holds.
    pub fn len(&self) -> (n: usize)
        ensures
            n == self.spec_len(),
    {
        self.objects.len()
    }
}

/// One persisted index row, keyed by the unique
/// {project, branch, language, filename} tuple.
pub struct D1FileRecord {
    pub id: String,
    pub project_id: String,
    pub branch: String,
    pub commit_sha: String,
    pub lang: String,
    pub filename: String,
    pub r2_key: String,
    pub source_hash: String,
    pub total_keys: i32,
    pub uploaded_at: String,
    pub last_updated: String,
}

/// The mathematical value of an index row.
pub struct RowV {
    pub id: Seq<char>,
    pub project_id: Seq<char>,
    pub branch: Seq<char>,
    pub commit_sha: Seq<char>,
    pub lang: Seq<char>,
    pub filename: Seq<char>,
    pub r2_key: Seq<char>,
    pub source_hash: Seq<char>,
    pub total_keys: int,
    pub uploaded_at: Seq<char>,
    pub last_updated: Seq<char>,
}

impl View for D1FileRecord {
    type V = RowV;

    open spec fn view(&self) -> RowV {
        RowV {
            id: self.id@,
            project_id: self.project_id@,
            branch: self.branch@,
            commit_sha: self.commit_sha@,
            lang: self.lang@,
            filename: self.filename@,
            r2_key: self.r2_key@,
            source_hash: self.source_hash@,
            total_keys: self.total_keys as int,
            uploaded_at: self.uploaded_at@,
            last_updated: self.last_updated@,
        }
    }
}

/// The unique tuple a row is keyed by.
pub open spec fn row_key(r: RowV) -> (Seq<char>, Seq<char>, Seq<char>, Seq<char>) {
    (r.project_id, r.branch, r.lang, r.filename)
}

/// What an upsert writes over an existing row: the commit reference,
/// storage key, source fingerprint, key count and update timestamp change;
/// the row identity and the original creation timestamp stay.
pub open spec fn merged_row(existing: RowV, new: RowV) -> RowV {
    RowV {
        id: existing.id,
        project_id: existing.project_id,
        branch: existing.branch,
        lang: existing.lang,
        filename: existing.filename,
        uploaded_at: existing.uploaded_at,
        commit_sha: new.commit_sha,
        r2_key: new.r2_key,
        source_hash: new.source_hash,
        total_keys: new.total_keys,
        last_updated: new.last_updated,
    }
}

/// One upsert against the index: insert when the tuple is absent, update
/// in place when it is present — never a second row for the same tuple.
pub open spec fn upserted(
    t: Map<(Seq<char>, Seq<char>, Seq<char>, Seq<char>), RowV>,
    row: RowV,
) -> Map<(Seq<char>, Seq<char>, Seq<char>, Seq<char>), RowV> {
    if t.dom().contains(row_key(row)) {
        t.insert(row_key(row), merged_row(t[row_key(row)], row))
    } else {
        t.insert(row_key(row), row)
    }
}

/// The relational index: one row per tuple.
pub struct IndexTable {
    rows: Vec<D1FileRecord>,
}

impl View for IndexTable {
    type V = Map<(Seq<char>, Seq<char>, Seq<char>, Seq<char>), RowV>;

    closed spec fn view(&self) -> Map<(Seq<char>, Seq<char>, Seq<char>, Seq<char>), RowV> {
        Map::new(
            |k: (Seq<char>, Seq<char>, Seq<char>, Seq<char>)|
                exists|i: int|
                    0 <= i < self.rows@.len() && row_key((#[trigger] self.rows@[i])@) == k,
            |k: (Seq<char>, Seq<char>, Seq<char>, Seq<char>)|
                {
                    let i = choose|i: int|
                        0 <= i < self.rows@.len() && row_key((#[trigger] self.rows@[i])@) == k;
                    self.rows@[i]@
                },
        )
    }
}

impl IndexTable {
    /// No tuple occurs twice.
    pub closed spec fn wf(&self) -> bool {
        forall|i: int, j: int|
            0 <= i < j < self.rows@.len() ==> row_key((#[trigger] self.rows@[i])@) != row_key((
            #[trigger] self.rows@[j])@)
    }

    /// The number of rows the index holds.
    pub closed spec fn spec_len(&self) -> nat {
        self.rows@.len()
    }

    pub fn new() -> (s: IndexTable)
        ensures
            s.wf(),
            s@ == Map::<(Seq<char>, Seq<char>, Seq<char>, Seq<char>), RowV>::empty(),
            s.spec_len() == 0,
    {
        let s = IndexTable { rows: Vec::new() };
        proof {
            assert(s@ =~= Map::<(Seq<char>, Seq<char>, Seq<char>, Seq<char>), RowV>::empty());
        }
        s
    }

    /// The position of a tuple among the rows, if it is there.
    fn position(&self, project: &str, branch: &str, lang: &str, filename: &str) -> (r: Option<
        usize,
    >)
        ensures
            r is Some ==> r.unwrap() < self.rows@.len() && row_key(
                self.rows@[r.unwrap() as int]@,
            ) == (project@, branch@, lang@, filename@),
            r is None ==> forall|i: int|
                0 <= i < self.rows@.len() ==> row_key((#[trigger] self.rows@[i])@) != (
                project@,
                branch@,
                lang@,
                filename@,
                ),
    {
        let n = self.rows.len();
        let mut idx: usize = 0;
        while idx < n
            invariant
                n == self.rows@.len(),
                idx <= n,
                forall|i: int|
                    0 <= i < idx ==> row_key((#[trigger] self.rows@[i])@) != (
                    project@,
                    branch@,
                    lang@,
                    filename@,
                    ),
            decreases n - idx,
        {
            let row = &self.rows[idx];
            if str_eq(row.project_id.as_str(), project) && str_eq(row.branch.as_str(), branch)
                && str_eq(row.lang.as_str(), lang) && str_eq(row.filename.as_str(), filename) {
                return Some(idx);
            }
            idx += 1;
        }
        None
    }

    /// Reconcile one record into the index: insert the row when its tuple
    /// is absent; update the existing row in place when it is present,
    /// keeping its identity and creation timestamp.
    pub fn upsert(&mut self, rec: D1FileRecord)
        requires
            old(self).wf(),
        ensures
            final(self).wf(),
            final(self)@ == upserted(old(self)@, rec@),
            old(self)@.dom().contains(row_key(rec@)) ==> final(self).spec_len() == old(
                self,
            ).spec_len(),
            !old(self)@.dom().contains(row_key(rec@)) ==> final(self).spec_len() == old(
                self,
            ).spec_len() + 1,
    {
        let ghost old_rows = self.rows@;
        let ghost k0 = row_key(rec@);
        match self.position(
            rec.project_id.as_str(),
            rec.branch.as_str(),
            rec.lang.as_str(),
            rec.filename.as_str(),
        ) {
            Some(idx) => {
                let existing = &self.rows[idx];
                let updated = D1FileRecord {
                    id: existing.id.clone(),
                    project_id: existing.project_id.clone(),
                    branch: existing.branch.clone(),
                    lang: existing.lang.clone(),
                    filename: existing.filename.clone(),
                    uploaded_at: existing.uploaded_at.clone(),
                    commit_sha: rec.commit_sha,
                    r2_key: rec.r2_key,
                    source_hash: rec.source_hash,
                    total_keys: rec.total_keys,
                    last_updated: rec.last_updated,
                };
                let ghost uv = updated@;
                proof {
                    assert(uv == merged_row(old_rows[idx as int]@, rec@));
                }
                self.rows.set(idx, updated);
                proof {
                    assert(row_key(self.rows@[idx as int]@) == k0);
                    assert forall|i: int, j: int|
                        0 <= i < j < self.rows@.len() implies row_key(
                        (#[trigger] self.rows@[i])@,
                    ) != row_key((#[trigger] self.rows@[j])@) by {
                        assert(row_key(old_rows[i]@) != row_key(old_rows[j]@));
                        assert(row_key(self.rows@[i]@) == row_key(old_rows[i]@));
                        assert(row_key(self.rows@[j]@) == row_key(old_rows[j]@));
                    }
                    assert(old(self)@.dom().contains(k0)) by {
                        assert(row_key(old_rows[idx as int]@) == k0);
                    }
                    assert forall|k: (Seq<char>, Seq<char>, Seq<char>, Seq<char>)| #[trigger]
                        self@.dom().contains(k) implies upserted(old(self)@, rec@).dom().contains(
                        k,
                    ) by {
                        let i = choose|i: int|
                            0 <= i < self.rows@.len() && row_key((#[trigger] self.rows@[i])@) == k;
                        if k != k0 {
                            assert(row_key(old_rows[i]@) == k);
                        }
                    }
                    assert forall|k: (Seq<char>, Seq<char>, Seq<char>, Seq<char>)| #[trigger]
                        upserted(old(self)@, rec@).dom().contains(k) implies self@.dom().contains(
                        k,
                    ) by {
                        if k == k0 {
                            assert(row_key(self.rows@[idx as int]@) == k);
                        } else {
                            let i = choose|i: int|
                                0 <= i < old_rows.len() && row_key((#[trigger] old_rows[i])@) == k;
                            assert(row_key(self.rows@[i]@) == k);
                        }
                    }
                    assert forall|k: (Seq<char>, Seq<char>, Seq<char>, Seq<char>)| #[trigger]
                        self@.dom().contains(k) implies self@[k] == upserted(old(self)@, rec@)[k] by {
                        let i = choose|i: int|
                            0 <= i < self.rows@.len() && row_key((#[trigger] self.rows@[i])@) == k;
                        if k == k0 {
                            if i != idx as int {
                                assert(row_key(old_rows[i]@) == k0);
                                assert(row_key(old_rows[idx as int]@) == k0);
                                assert(false);
                            }
                            let j = choose|j: int|
                                0 <= j < old_rows.len() && row_key((#[trigger] old_rows[j])@) == k0;
                            assert(j == idx as int);
                        } else {
                            assert(row_key(old_rows[i]@) == k);
                            let j = choose|j: int|
                                0 <= j < old_rows.len() && row_key((#[trigger] old_rows[j])@) == k;
                            assert(j == i);
                        }
                    }
                    assert(self@ =~= upserted(old(self)@, rec@));
                }
            },
            None => {
                self.rows.push(rec);
                proof {
                    let m = old_rows.len() as int;
                    assert(self.rows@.len() == m + 1);
                    assert(row_key(self.rows@[m]@) == k0);
                    assert forall|i: int, j: int|
                        0 <= i < j < self.rows@.len() implies row_key(
                        (#[trigger] self.rows@[i])@,
                    ) != row_key((#[trigger] self.rows@[j])@) by {
                        if j < m {
                            assert(row_key(old_rows[i]@) != row_key(old_rows[j]@));
                        } else {
                            assert(row_key(self.rows@[i]@) == row_key(old_rows[i]@));
                            assert(row_key(old_rows[i]@) != k0);
                        }
                    }
                    if old(self)@.dom().contains(k0) {
                        let i = choose|i: int|
                            0 <= i < old_rows.len() && row_key((#[trigger] old_rows[i])@) == k0;
                        assert(false);
                    }
                    assert forall|k: (Seq<char>, Seq<char>, Seq<char>, Seq<char>)| #[trigger]
                        self@.dom().contains(k) implies upserted(old(self)@, rec@).dom().contains(
                        k,
                    ) by {
                        let i = choose|i: int|
                            0 <= i < self.rows@.len() && row_key((#[trigger] self.rows@[i])@) == k;
                        if k != k0 {
                            assert(i != m);
                            assert(row_key(old_rows[i]@) == k);
                        }
                    }
                    assert forall|k: (Seq<char>, Seq<char>, Seq<char>, Seq<char>)| #[trigger]
                        upserted(old(self)@, rec@).dom().contains(k) implies self@.dom().contains(
                        k,
                    ) by {
                        if k == k0 {
                            assert(row_key(self.rows@[m]@) == k);
                        } else {
                            let i = choose|i: int|
                                0 <= i < old_rows.len() && row_key((#[trigger] old_rows[i])@) == k;
                            assert(row_key(self.rows@[i]@) == k);
                        }
                    }
                    assert forall|k: (Seq<char>, Seq<char>, Seq<char>, Seq<char>)| #[trigger]
                        self@.dom().contains(k) implies self@[k] == upserted(old(self)@, rec@)[k] by {
                        let i = choose|i: int|
                            0 <= i < self.rows@.len() && row_key((#[trigger] self.rows@[i])@) == k;
                        if k == k0 {
                            if i != m {
                                assert(row_key(old_rows[i]@) == k0);
                                assert(false);
                            }
                        } else {
                            assert(i != m);
                            assert(row_key(old_rows[i]@) == k);
                            let j = choose|j: int|
                                0 <= j < old_rows.len() && row_key((#[trigger] old_rows[j])@) == k;
                            assert(j == i);
                        }
                    }
                    assert(self@ =~= upserted(old(self)@, rec@));
                }
            },
        }
    }

    /// Look a tuple up; `Some` exactly when the index holds a row for it.
    pub fn get(&self, project: &str, branch: &str, lang: &str, filename: &str) -> (r: Option<
        &D1FileRecord,
    >)
        requires
            self.wf(),
        ensures
            r is Some <==> self@.dom().contains((project@, branch@, lang@, filename@)),
            r is Some ==> r.unwrap()@ == self@[(project@, branch@, lang@, filename@)],
    {
        match self.position(project, branch, lang, filename) {
            Some(idx) => {
                proof {
                    let k = (project@, branch@, lang@, filename@);
                    assert(row_key(self.rows@[idx as int]@) == k);
                    let j = choose|j: int|
                        0 <= j < self.rows@.len() && row_key((#[trigger] self.rows@[j])@) == k;
                    if j != idx as int {
                        assert(false);
                    }
                }
                Some(&self.rows[idx])
            },
            None => {
                proof {
                    if self@.dom().contains((project@, branch@, lang@, filename@)) {
                        let i = choose|i: int|
                            0 <= i < self.rows@.len() && row_key((#[trigger] self.rows@[i])@) == (
                            project@,
                            branch@,
                            lang@,
                            filename@,
                            );
                        assert(false);
                    }
                }
                None
            },
        }
    }

    /// How many rows the index holds.
    pub fn len(&self) -> (n: usize)
        ensures
            n == self.spec_len(),
    {
        self.rows.len()
    }
}

/// Writing a key twice overwrites: the second object replaces the first
/// and the set of stored keys does not grow.
pub proof fn lemma_rewrite_same_key(
    m: Map<Seq<char>, ObjectV>,
    key: Seq<char>,
    o1: ObjectV,
    o2: ObjectV,
)
    ensures
        m.insert(key, o1).insert(key, o2) == m.insert(key, o2),
        m.insert(key, o1).insert(key, o2).dom() == m.insert(key, o1).dom(),
{
    assert(m.insert(key, o1).insert(key, o2) =~= m.insert(key, o2));
    assert(m.insert(key, o1).insert(key, o2).dom() =~= m.insert(key, o1).dom());
}

/// Upserting the same tuple twice updates, never duplicates: the second
/// upsert adds no row, overwrites the commit reference, storage key,
/// fingerprint, key count and update timestamp, and keeps the identity and
/// creation timestamp the first write established.
pub proof fn lemma_reupsert_same_tuple(
    t: Map<(Seq<char>, Seq<char>, Seq<char>, Seq<char>), RowV>,
    r1: RowV,
    r2: RowV,
)
    requires
        row_key(r1) == row_key(r2),
        !t.dom().contains(row_key(r1)),
    ensures
        upserted(upserted(t, r1), r2).dom() == upserted(t, r1).dom(),
        upserted(upserted(t, r1), r2)[row_key(r2)] == (RowV {
            commit_sha: r2.commit_sha,
            r2_key: r2.r2_key,
            source_hash: r2.source_hash,
            total_keys: r2.total_keys,
            last_updated: r2.last_updated,
            ..r1
        }),
{
    let t1 = upserted(t, r1);
    assert(t1 == t.insert(row_key(r1), r1));
    assert(t1.dom().contains(row_key(r2)));
    assert(t1[row_key(r2)] == r1);
    let t2 = upserted(t1, r2);
    assert(t2 == t1.insert(row_key(r2), merged_row(r1, r2)));
    assert(t2.dom() =~= t1.dom());
}

} // verus!
