//! A content-addressed artifact repository: archives keyed by unit fingerprint.
//! An entry, once stored, is never changed.
use vstd::prelude::*;

verus! {

/// Why a fetch found nothing.
#[derive(Debug, Clone, Copy, PartialEq, Eq)]
pub enum FetchError {
    NotFound,
}

/// Why a publish was refused.
#[derive(Debug, Clone, Copy, PartialEq, Eq)]
pub enum PublishError {
    /// Other content is already stored under the fingerprint.
    Conflict,
}

/// Whether two byte strings are equal.
pub fn bytes_eq(a: &Vec<u8>, b: &Vec<u8>) -> (r: bool)
    ensures
        r == (a@ == b@),
{
    if a.len() != b.len() {
        return false;
    }
    let mut i: usize = 0;
    while i < a.len()
        invariant
            a@.len() == b@.len(),
            0 <= i <= a@.len(),
            forall|j: int| 0 <= j < i ==> a@[j] == b@[j],
        decreases a@.len() - i,
    {
        if a[i] != b[i] {
            return false;
        }
        i = i + 1;
    }
    assert(a@ =~= b@);
    true
}

/// A copy of a byte string.
pub fn copy_bytes(a: &Vec<u8>) -> (r: Vec<u8>)
    ensures
        r@ == a@,
{
    let mut out: Vec<u8> = Vec::new();
    let mut i: usize = 0;
    while i < a.len()
        invariant
            0 <= i <= a@.len(),
            out@ == a@.take(i as int),
        decreases a@.len() - i,
    {
        out.push(a[i]);
        assert(a@.take(i + 1) =~= a@.take(i as int).push(a@[i as int]));
        i = i + 1;
    }
    assert(a@.take(a@.len() as int) =~= a@);
    out
}

/// Outcome of publishing `archive` under `fp` into a repository holding `m`.
pub open spec fn publish_result(m: Map<Seq<u8>, Seq<u8>>, fp: Seq<u8>, archive: Seq<u8>) -> Result<
    (),
    PublishError,
> {
    if m.contains_key(fp) && m[fp] != archive {
        Err(PublishError::Conflict)
    } else {
        Ok(())
    }
}

/// Contents after publishing `archive` under `fp` into a repository holding `m`.
pub open spec fn after_publish(m: Map<Seq<u8>, Seq<u8>>, fp: Seq<u8>, archive: Seq<u8>) -> Map<
    Seq<u8>,
    Seq<u8>,
> {
    if publish_result(m, fp, archive).is_ok() {
        m.insert(fp, archive)
    } else {
        m
    }
}

/// Outcome of fetching `fp` from a repository holding `m`.
pub open spec fn fetch_result(m: Map<Seq<u8>, Seq<u8>>, fp: Seq<u8>) -> Result<Seq<u8>, FetchError> {
    if m.contains_key(fp) {
        Ok(m[fp])
    } else {
        Err(FetchError::NotFound)
    }
}

/// Archives stored by fingerprint.
pub struct ArtifactRepo {
    entries: Vec<(Vec<u8>, Vec<u8>)>,
    contents: Ghost<Map<Seq<u8>, Seq<u8>>>,
}

impl ArtifactRepo {
    /// What the repository holds: fingerprint to archive.
    pub closed spec fn view(&self) -> Map<Seq<u8>, Seq<u8>> {
        self.contents@
    }

    /// The entries have distinct fingerprints and are exactly the contents.
    pub closed spec fn wf(&self) -> bool {
        &&& forall|i: int, j: int|
            0 <= i < self.entries@.len() && 0 <= j < self.entries@.len() && i != j
                ==> #[trigger] self.entries@[i].0@ != #[trigger] self.entries@[j].0@
        &&& forall|i: int|
            0 <= i < self.entries@.len() ==> self.contents@.contains_key(
                #[trigger] self.entries@[i].0@,
            ) && self.contents@[self.entries@[i].0@] == self.entries@[i].1@
        &&& forall|k: Seq<u8>|
            #[trigger] self.contents@.contains_key(k) ==> exists|i: int|
                0 <= i < self.entries@.len() && self.entries@[i].0@ == k
    }

    /// An empty repository.
    pub fn new() -> (r: Self)
        ensures
            r.wf(),
            r.view() == Map::<Seq<u8>, Seq<u8>>::empty(),
    {
        ArtifactRepo { entries: Vec::new(), contents: Ghost(Map::empty()) }
    }

    /// Position of the entry stored under `fp`, if any.
    fn find(&self, fp: &Vec<u8>) -> (r: Option<usize>)
        requires
            self.wf(),
        ensures
            match r {
                Some(i) => i < self.entries@.len() && self.entries@[i as int].0@ == fp@,
                None => !self.view().contains_key(fp@),
            },
    {
        let mut i: usize = 0;
        while i < self.entries.len()
            invariant
                self.wf(),
                0 <= i <= self.entries@.len(),
                forall|j: int| 0 <= j < i ==> self.entries@[j].0@ != fp@,
            decreases self.entries@.len() - i,
        {
            if bytes_eq(&self.entries[i].0, fp) {
                return Some(i);
            }
            i = i + 1;
        }
        proof {
            if self.view().contains_key(fp@) {
                let j = choose|j: int| 0 <= j < self.entries@.len() && self.entries@[j].0@ == fp@;
                assert(self.entries@[j].0@ != fp@);
            }
        }
        None
    }

    /// Whether an archive is stored under `fp`.
    pub fn contains(&self, fp: &Vec<u8>) -> (r: bool)
        requires
            self.wf(),
        ensures
            r == self.view().contains_key(fp@),
    {
        match self.find(fp) {
            Some(_) => true,
            None => false,
        }
    }

    /// The archive stored under `fp`.
    pub fn fetch(&self, fp: &Vec<u8>) -> (r: Result<Vec<u8>, FetchError>)
        requires
            self.wf(),
        ensures
            match r {
                Ok(a) => fetch_result(self.view(), fp@) == Ok::<Seq<u8>, FetchError>(a@),
                Err(e) => fetch_result(self.view(), fp@) == Err::<Seq<u8>, FetchError>(e),
            },
    {
        match self.find(fp) {
            Some(i) => Ok(copy_bytes(&self.entries[i].1)),
            None => Err(FetchError::NotFound),
        }
    }

    /// Stores `archive` under `fp`. Storing the content already held there is
    /// a success that changes nothing; other content already held there is a
    /// conflict, and the repository is left as it was.
    pub fn publish(&mut self, fp: &Vec<u8>, archive: &Vec<u8>) -> (r: Result<(), PublishError>)
        requires
            old(self).wf(),
        ensures
            final(self).wf(),
            r == publish_result(old(self).view(), fp@, archive@),
            final(self).view() == after_publish(old(self).view(), fp@, archive@),
    {
        match self.find(fp) {
            Some(i) => {
                if bytes_eq(&self.entries[i].1, archive) {
                    assert(self.view().insert(fp@, archive@) =~= self.view());
                    Ok(())
                } else {
                    Err(PublishError::Conflict)
                }
            },
            None => {
                let ghost old_entries = self.entries@;
                let k = copy_bytes(fp);
                let a = copy_bytes(archive);
                self.entries.push((k, a));
                self.contents = Ghost(self.contents@.insert(fp@, archive@));
                assert forall|k2: Seq<u8>| #[trigger] self.contents@.contains_key(k2) implies exists|
                    i: int,
                | 0 <= i < self.entries@.len() && self.entries@[i].0@ == k2 by {
                    if k2 == fp@ {
                        assert(self.entries@[old_entries.len() as int].0@ == k2);
                    } else {
                        let i = choose|i: int|
                            0 <= i < old_entries.len() && old_entries[i].0@ == k2;
                        assert(self.entries@[i] == old_entries[i]);
                    }
                }
                assert forall|i: int|
                    0 <= i < self.entries@.len() implies self.contents@.contains_key(
                    #[trigger] self.entries@[i].0@,
                ) && self.contents@[self.entries@[i].0@] == self.entries@[i].1@ by {
                    if i < old_entries.len() {
                        assert(self.entries@[i] == old_entries[i]);
                    }
                }
                Ok(())
            },
        }
    }
}

/// Fetching a fingerprint right after a successful publish under it returns
/// exactly the published bytes.
pub proof fn lemma_publish_then_fetch(m: Map<Seq<u8>, Seq<u8>>, fp: Seq<u8>, archive: Seq<u8>)
    requires
        publish_result(m, fp, archive).is_ok(),
    ensures
        fetch_result(after_publish(m, fp, archive), fp) == Ok::<Seq<u8>, FetchError>(archive),
{
}

/// Publishing the same content twice under one fingerprint succeeds both times,
/// and the second publish changes nothing.
pub proof fn lemma_publish_idempotent(m: Map<Seq<u8>, Seq<u8>>, fp: Seq<u8>, archive: Seq<u8>)
    requires
        publish_result(m, fp, archive).is_ok(),
    ensures
        publish_result(after_publish(m, fp, archive), fp, archive).is_ok(),
        after_publish(after_publish(m, fp, archive), fp, archive) == after_publish(m, fp, archive),
{
    let m1 = after_publish(m, fp, archive);
    assert(m1.insert(fp, archive) =~= m1);
}

/// Once content is published under a fingerprint, publishing different content
/// under it is a conflict that leaves the repository unchanged.
pub proof fn lemma_publish_conflict(m: Map<Seq<u8>, Seq<u8>>, fp: Seq<u8>, a: Seq<u8>, b: Seq<u8>)
    requires
        publish_result(m, fp, a).is_ok(),
        a != b,
    ensures
        publish_result(after_publish(m, fp, a), fp, b) == Err::<(), PublishError>(PublishError::Conflict),
        after_publish(after_publish(m, fp, a), fp, b) == after_publish(m, fp, a),
{
}

} // verus!
