use vstd::prelude::*;

verus! {

use vstd::std_specs::cmp::PartialEqSpec;

/// The recorded state of one applied file: its byte length and content digest.
#[derive(Debug)]
pub struct ManifestTargetEntry {
    pub length: u64,
    pub hash: Vec<u8>,
}

/// Ghost meta-data of one entry: its length and digest bytes.
pub type EntryMeta = (u64, Seq<u8>);

/// Ghost form of the entry list: name bytes paired with entry meta-data.
pub type EntrySeq = Seq<(Seq<u8>, EntryMeta)>;

/// The map that an entry list denotes: later entries win on equal names.
pub open spec fn kv_map(s: EntrySeq) -> Map<Seq<u8>, EntryMeta>
    decreases s.len(),
{
    if s.len() == 0 {
        Map::empty()
    } else {
        kv_map(s.drop_last()).insert(s.last().0, s.last().1)
    }
}

/// No two entries of the list carry the same name.
pub open spec fn kv_unique(s: EntrySeq) -> bool {
    forall|i: int, j: int|
        0 <= i < j < s.len() ==> (#[trigger] s[i]).0 != (#[trigger] s[j]).0
}

/// Ghost form of a concrete entry list.
pub open spec fn entries_of(s: Seq<(Vec<u8>, ManifestTargetEntry)>) -> EntrySeq {
    s.map_values(|p: (Vec<u8>, ManifestTargetEntry)| (p.0@, (p.1.length, p.1.hash@)))
}

pub proof fn lemma_kv_map_dom(s: EntrySeq, k: Seq<u8>)
    ensures
        kv_map(s).contains_key(k) <==> (exists|i: int| 0 <= i < s.len() && (#[trigger] s[i]).0 == k),
    decreases s.len(),
{
    if s.len() > 0 {
        lemma_kv_map_dom(s.drop_last(), k);
        if s.last().0 == k {
            assert(s[s.len() - 1].0 == k);
        } else {
            if exists|i: int| 0 <= i < s.len() && (#[trigger] s[i]).0 == k {
                let i = choose|i: int| 0 <= i < s.len() && (#[trigger] s[i]).0 == k;
                assert(i < s.len() - 1);
                assert(s.drop_last()[i].0 == k);
            }
        }
    }
}

pub proof fn lemma_kv_map_index(s: EntrySeq, i: int)
    requires
        kv_unique(s),
        0 <= i < s.len(),
    ensures
        kv_map(s).contains_key(s[i].0),
        kv_map(s)[s[i].0] == s[i].1,
    decreases s.len(),
{
    if i < s.len() - 1 {
        assert(kv_unique(s.drop_last()));
        lemma_kv_map_index(s.drop_last(), i);
        assert(s.drop_last()[i] == s[i]);
        assert(s.last().0 != s[i].0);
    }
}

pub proof fn lemma_kv_map_remove(s: EntrySeq, i: int)
    requires
        kv_unique(s),
        0 <= i < s.len(),
    ensures
        kv_unique(s.remove(i)),
        kv_map(s.remove(i)) == kv_map(s).remove(s[i].0),
    decreases s.len(),
{
    let t = s.remove(i);
    let k = s[i].0;
    assert forall|p: int, q: int| 0 <= p < q < t.len() implies (#[trigger] t[p]).0 != (
    #[trigger] t[q]).0 by {
        let p2: int = if p < i { p } else { p + 1 };
        let q2: int = if q < i { q } else { q + 1 };
        assert(t[p] == s[p2]);
        assert(t[q] == s[q2]);
    }
    assert forall|q: Seq<u8>| #[trigger] kv_map(t).contains_key(q) == kv_map(s).remove(
        k,
    ).contains_key(q) by {
        lemma_kv_map_dom(t, q);
        lemma_kv_map_dom(s, q);
        if exists|j: int| 0 <= j < t.len() && (#[trigger] t[j]).0 == q {
            let j = choose|j: int| 0 <= j < t.len() && (#[trigger] t[j]).0 == q;
            let j2: int = if j < i { j } else { j + 1 };
            assert(t[j] == s[j2]);
            assert(s[j2].0 == q);
            assert(q != k);
        } else {
            if kv_map(s).remove(k).contains_key(q) {
                let j = choose|j: int| 0 <= j < s.len() && (#[trigger] s[j]).0 == q;
                assert(j != i);
                let j2: int = if j < i { j } else { j - 1 };
                assert(t[j2] == s[j]);
                assert(false);
            }
        }
    }
    assert forall|q: Seq<u8>| kv_map(t).contains_key(q) implies #[trigger] kv_map(t)[q] == kv_map(
        s,
    ).remove(k)[q] by {
        lemma_kv_map_dom(t, q);
        let j = choose|j: int| 0 <= j < t.len() && (#[trigger] t[j]).0 == q;
        lemma_kv_map_index(t, j);
        let j2: int = if j < i { j } else { j + 1 };
        assert(t[j] == s[j2]);
        lemma_kv_map_index(s, j2);
        assert(q != k);
    }
    assert(kv_map(t) =~= kv_map(s).remove(k));
}

/// Durable record of local update state: one entry per applied file, the
/// release version the record reflects, and whether the pass that produced
/// it fully succeeded.
#[derive(Debug)]
pub struct Manifest {
    files: Vec<(Vec<u8>, ManifestTargetEntry)>,
    version: u64,
    incomplete_update: bool,
}

impl Manifest {
    /// Ghost entry list, in storage order.
    pub closed spec fn entries(self) -> EntrySeq {
        entries_of(self.files@)
    }

    /// Ghost name-to-meta-data map of the recorded files.
    pub open spec fn files_map(self) -> Map<Seq<u8>, EntryMeta> {
        kv_map(self.entries())
    }

    pub closed spec fn spec_version(self) -> u64 {
        self.version
    }

    pub closed spec fn spec_incomplete(self) -> bool {
        self.incomplete_update
    }

    /// Well-formed: names are unique and the version counter started at one.
    pub open spec fn wf(self) -> bool {
        kv_unique(self.entries()) && self.spec_version() >= 1
    }

    /// A manifest answers for a release version only when it records exactly
    /// that version and the recording pass completed without failures.
    pub open spec fn spec_is_updated(self, v: u64) -> bool {
        self.spec_version() == v && !self.spec_incomplete()
    }

    /// An entry for the name exists whose length or digest matches the given
    /// ones. The disjunction is deliberate in this design; a length-only
    /// coincidence therefore skips a changed file.
    pub open spec fn spec_target_updated(self, name: Seq<u8>, length: u64, hash: Seq<u8>) -> bool {
        self.files_map().contains_key(name) && (self.files_map()[name].0 == length
            || self.files_map()[name].1 == hash)
    }

    pub fn new_incomplete() -> (m: Manifest)
        ensures
            m.wf(),
            m.entries() == Seq::<(Seq<u8>, EntryMeta)>::empty(),
            m.files_map() == Map::<Seq<u8>, EntryMeta>::empty(),
            m.spec_version() == 1,
            m.spec_incomplete(),
    {
        let m = Manifest { files: Vec::new(), version: 1, incomplete_update: true };
        proof {
            assert(m.entries() =~= Seq::<(Seq<u8>, EntryMeta)>::empty());
            assert(m.files_map() =~= Map::<Seq<u8>, EntryMeta>::empty());
        }
        m
    }

    pub fn update_version(&mut self, snapshot_version: u64)
        requires
            old(self).wf(),
            snapshot_version >= 1,
        ensures
            final(self).wf(),
            final(self).entries() == old(self).entries(),
            final(self).files_map() == old(self).files_map(),
            final(self).spec_version() == snapshot_version,
            final(self).spec_incomplete() == old(self).spec_incomplete(),
    {
        self.version = snapshot_version;
    }

    pub fn set_update_complete_result(&mut self, success: bool)
        requires
            old(self).wf(),
        ensures
            final(self).wf(),
            final(self).entries() == old(self).entries(),
            final(self).files_map() == old(self).files_map(),
            final(self).spec_version() == old(self).spec_version(),
            final(self).spec_incomplete() == !success,
    {
        self.incomplete_update = !success;
    }

    pub fn version(&self) -> (r: u64)
        ensures
            r == self.spec_version(),
    {
        self.version
    }

    pub fn is_incomplete(&self) -> (r: bool)
        ensures
            r == self.spec_incomplete(),
    {
        self.incomplete_update
    }

    pub fn is_updated(&self, snapshot_version: u64) -> (r: bool)
        ensures
            r == self.spec_is_updated(snapshot_version),
    {
        self.version == snapshot_version && !self.incomplete_update
    }

    /// The recorded entries, exposed in storage order.
    pub fn files(&self) -> (r: &Vec<(Vec<u8>, ManifestTargetEntry)>)
        ensures
            entries_of(r@) == self.entries(),
    {
        &self.files
    }

    fn find_index(&self, name: &Vec<u8>) -> (r: Option<usize>)
        ensures
            match r {
                Some(i) => i < self.entries().len() && self.entries()[i as int].0 == name@,
                None => forall|i: int|
                    0 <= i < self.entries().len() ==> (#[trigger] self.entries()[i]).0 != name@,
            },
    {
        let mut i: usize = 0;
        while i < self.files.len()
            invariant
                i <= self.files@.len(),
                forall|j: int| 0 <= j < i ==> (#[trigger] self.entries()[j]).0 != name@,
            decreases self.files@.len() - i,
        {
            if bytes_eq(&self.files[i].0, name) {
                assert(self.entries()[i as int].0 == name@);
                return Some(i);
            }
            assert(self.entries()[i as int].0 != name@);
            i += 1;
        }
        None
    }

    pub fn contains_target(&self, target: &Vec<u8>) -> (r: bool)
        ensures
            r == self.files_map().contains_key(target@),
    {
        let r = self.find_index(target);
        proof {
            lemma_kv_map_dom(self.entries(), target@);
        }
        r.is_some()
    }

    pub fn is_target_updated(&self, target: &Vec<u8>, length: u64, hash: &Vec<u8>) -> (r: bool)
        requires
            self.wf(),
        ensures
            r == self.spec_target_updated(target@, length, hash@),
    {
        match self.find_index(target) {
            Some(i) => {
                proof {
                    lemma_kv_map_index(self.entries(), i as int);
                    lemma_kv_map_dom(self.entries(), target@);
                }
                let entry = &self.files[i].1;
                entry.length == length || bytes_eq(&entry.hash, hash)
            },
            None => {
                proof {
                    lemma_kv_map_dom(self.entries(), target@);
                }
                false
            },
        }
    }

    /// Record (or overwrite) the entry for a name.
    pub fn set_target(&mut self, target: &Vec<u8>, length: u64, hash: &Vec<u8>)
        requires
            old(self).wf(),
        ensures
            final(self).wf(),
            final(self).files_map() == old(self).files_map().insert(target@, (length, hash@)),
            final(self).spec_version() == old(self).spec_version(),
            final(self).spec_incomplete() == old(self).spec_incomplete(),
            !old(self).files_map().contains_key(target@) ==> final(self).entries() == old(
                self,
            ).entries().push((target@, (length, hash@))),
    {
        let ghost s0 = self.entries();
        match self.find_index(target) {
            Some(i) => {
                proof {
                    lemma_kv_map_remove(s0, i as int);
                }
                self.files.remove(i);
                proof {
                    assert(self.entries() =~= s0.remove(i as int));
                }
            },
            None => {
                proof {
                    lemma_kv_map_dom(s0, target@);
                    assert(kv_map(s0).remove(target@) =~= kv_map(s0));
                }
            },
        }
        let ghost s1 = self.entries();
        proof {
        assert(kv_map(s1) == kv_map(s0).remove(target@));
        lemma_kv_map_dom(s1, target@);
        assert(!kv_map(s1).contains_key(target@));
        assert forall|j: int| 0 <= j < s1.len() implies (#[trigger] s1[j]).0 != target@ by {
            if s1[j].0 == target@ {
                assert(exists|i: int| 0 <= i < s1.len() && (#[trigger] s1[i]).0 == target@);
            }
        }
        }
        let name_copy = clone_bytes(target);
        let hash_copy = clone_bytes(hash);
        self.files.push((name_copy, ManifestTargetEntry { length, hash: hash_copy }));
        proof {
            assert(self.entries() =~= s1.push((target@, (length, hash@))));
            assert(self.entries().drop_last() =~= s1);
            assert(self.files_map() =~= old(self).files_map().insert(target@, (length, hash@)));
            if !old(self).files_map().contains_key(target@) {
                lemma_kv_map_dom(s0, target@);
                assert(s1 =~= s0);
                assert(self.entries() =~= s0.push((target@, (length, hash@))));
            }
        }
    }

    /// Keep exactly the entries whose names appear in `keep`; every other
    /// entry is dropped. Kept entries are unchanged.
    pub fn retain_targets(&mut self, keep: &Vec<Vec<u8>>)
        requires
            old(self).wf(),
        ensures
            final(self).wf(),
            final(self).spec_version() == old(self).spec_version(),
            final(self).spec_incomplete() == old(self).spec_incomplete(),
            forall|k: Seq<u8>|
                #[trigger] final(self).files_map().contains_key(k) <==> (old(
                    self,
                ).files_map().contains_key(k) && name_in_list(keep@, k)),
            forall|k: Seq<u8>|
                #[trigger] final(self).files_map().contains_key(k) ==> final(self).files_map()[k]
                    == old(self).files_map()[k],
    {
        let mut drop_list: Vec<Vec<u8>> = Vec::new();
        let n = self.files.len();
        let mut i: usize = 0;
        while i < n
            invariant
                n == self.files@.len(),
                i <= n,
                self == old(self),
                self.wf(),
                forall|q: int|
                    0 <= q < drop_list@.len() ==> !name_in_list(keep@, (#[trigger] drop_list@[q])@),
                forall|q: int|
                    0 <= q < drop_list@.len() ==> exists|j: int|
                        0 <= j < i && (#[trigger] self.entries()[j]).0 == (
                        #[trigger] drop_list@[q])@,
                forall|j: int|
                    0 <= j < i && !name_in_list(keep@, (#[trigger] self.entries()[j]).0)
                        ==> exists|q: int| 0 <= q < drop_list@.len() && (#[trigger] drop_list@[q])@
                        == self.entries()[j].0,
            decreases n - i,
        {
            let name = &self.files[i].0;
            proof {
                assert(self.entries()[i as int].0 == name@);
            }
            if !list_contains(keep, name) {
                let ghost dl0 = drop_list@;
                drop_list.push(clone_bytes(name));
                proof {
                    assert(drop_list@[dl0.len() as int]@ == self.entries()[i as int].0);
                    assert forall|j: int|
                        0 <= j < i + 1 && !name_in_list(keep@, (#[trigger] self.entries()[j]).0)
                            implies exists|q: int|
                        0 <= q < drop_list@.len() && (#[trigger] drop_list@[q])@
                            == self.entries()[j].0 by {
                        if j < i {
                            let q = choose|q: int|
                                0 <= q < dl0.len() && (#[trigger] dl0[q])@ == self.entries()[j].0;
                            assert(drop_list@[q]@ == self.entries()[j].0);
                        } else {
                            assert(drop_list@[dl0.len() as int]@ == self.entries()[j].0);
                        }
                    }
                }
            }
            i += 1;
        }
        let ghost dl = drop_list@;
        let m = drop_list.len();
        let mut r: usize = 0;
        while r < m
            invariant
                m == drop_list@.len(),
                r <= m,
                drop_list@ == dl,
                self.wf(),
                self.spec_version() == old(self).spec_version(),
                self.spec_incomplete() == old(self).spec_incomplete(),
                forall|q: int| 0 <= q < dl.len() ==> !name_in_list(keep@, (#[trigger] dl[q])@),
                forall|j: int|
                    0 <= j < old(self).entries().len() && !name_in_list(
                        keep@,
                        (#[trigger] old(self).entries()[j]).0,
                    ) ==> exists|q: int| 0 <= q < dl.len() && (#[trigger] dl[q])@ == old(
                        self,
                    ).entries()[j].0,
                forall|k: Seq<u8>|
                    #[trigger] self.files_map().contains_key(k) <==> (old(
                        self,
                    ).files_map().contains_key(k) && !(exists|q: int|
                        0 <= q < r && (#[trigger] dl[q])@ == k)),
                forall|k: Seq<u8>|
                    #[trigger] self.files_map().contains_key(k) ==> self.files_map()[k] == old(
                        self,
                    ).files_map()[k],
            decreases m - r,
        {
            let ghost prev_map = self.files_map();
            self.remove_target(&drop_list[r]);
            r += 1;
            proof {
                let k0 = dl[r - 1]@;
                assert(self.files_map() == prev_map.remove(k0));
                assert forall|k: Seq<u8>| #[trigger] self.files_map().contains_key(k) <==> (old(
                    self,
                ).files_map().contains_key(k) && !(exists|q: int|
                    0 <= q < r && (#[trigger] dl[q])@ == k)) by {
                    if self.files_map().contains_key(k) {
                        assert(prev_map.contains_key(k) && k != k0);
                    } else {
                        if old(self).files_map().contains_key(k) && !(exists|q: int|
                            0 <= q < r && (#[trigger] dl[q])@ == k) {
                            assert(!(exists|q: int| 0 <= q < r - 1 && (#[trigger] dl[q])@ == k));
                            assert(prev_map.contains_key(k));
                            assert(k != k0);
                            assert(false);
                        }
                    }
                }
            }
        }
        proof {
            assert forall|k: Seq<u8>| #[trigger] self.files_map().contains_key(k) <==> (old(
                self,
            ).files_map().contains_key(k) && name_in_list(keep@, k)) by {
                if old(self).files_map().contains_key(k) {
                    if name_in_list(keep@, k) {
                        if exists|q: int| 0 <= q < m && (#[trigger] dl[q])@ == k {
                            let q = choose|q: int| 0 <= q < m && (#[trigger] dl[q])@ == k;
                            assert(!name_in_list(keep@, dl[q]@));
                            assert(false);
                        }
                    } else {
                        lemma_kv_map_dom(old(self).entries(), k);
                        let j = choose|j: int|
                            0 <= j < old(self).entries().len() && (#[trigger] old(
                                self,
                            ).entries()[j]).0 == k;
                        assert(exists|q: int| 0 <= q < dl.len() && (#[trigger] dl[q])@ == k);
                    }
                }
            }
        }
    }

    /// Drop the entry for a name, if one exists.
    pub fn remove_target(&mut self, target: &Vec<u8>)
        requires
            old(self).wf(),
        ensures
            final(self).wf(),
            final(self).files_map() == old(self).files_map().remove(target@),
            final(self).spec_version() == old(self).spec_version(),
            final(self).spec_incomplete() == old(self).spec_incomplete(),
    {
        let ghost s0 = self.entries();
        match self.find_index(target) {
            Some(i) => {
                proof {
                    lemma_kv_map_remove(s0, i as int);
                }
                self.files.remove(i);
                proof {
                    assert(self.entries() =~= s0.remove(i as int));
                }
            },
            None => {
                proof {
                    lemma_kv_map_dom(s0, target@);
                    assert(self.files_map() =~= old(self).files_map().remove(target@));
                }
            },
        }
    }
}

/// A byte string occurs in a list of byte strings.
pub open spec fn name_in_list(list: Seq<Vec<u8>>, k: Seq<u8>) -> bool {
    exists|q: int| 0 <= q < list.len() && (#[trigger] list[q])@ == k
}

/// Look a byte string up in a list.
pub(crate) fn list_contains(list: &Vec<Vec<u8>>, name: &Vec<u8>) -> (r: bool)
    ensures
        r == name_in_list(list@, name@),
{
    let mut i: usize = 0;
    while i < list.len()
        invariant
            i <= list@.len(),
            forall|q: int| 0 <= q < i ==> (#[trigger] list@[q])@ != name@,
        decreases list@.len() - i,
    {
        if bytes_eq(&list[i], name) {
            return true;
        }
        i += 1;
    }
    false
}

/// Compare two byte strings.
pub(crate) fn bytes_eq(a: &Vec<u8>, b: &Vec<u8>) -> (r: bool)
    ensures
        r == (a@ == b@),
{
    let r = a == b;
    proof {
        if r {
            assert(a@ =~= b@);
        } else {
            if a@ == b@ {
                assert(a.eq_spec(b));
                assert(false);
            }
        }
    }
    r
}

/// Copy a byte string.
pub(crate) fn clone_bytes(a: &Vec<u8>) -> (r: Vec<u8>)
    ensures
        r@ == a@,
{
    let r = a.clone();
    proof {
        assert(r@ =~= a@);
    }
    r
}

} // verus!
