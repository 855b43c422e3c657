//! The record store: the single owner of every value and of its liveness.
use vstd::prelude::*;

verus! {

/// Why an operation on an id could not be carried out.
#[derive(Debug, Clone, Copy, PartialEq, Eq, Structural)]
pub enum IndexError {
    /// The id was never issued.
    NotFound,
    /// The id was issued, but its record has already been deleted.
    AlreadyDeleted,
}

/// The outcome of deleting `id` from the records `recs`: the result, and the
/// records afterwards.
pub open spec fn delete_outcome(recs: Seq<(Seq<char>, bool)>, id: u64) -> (Result<(), IndexError>, Seq<(Seq<char>, bool)>) {
    if id >= recs.len() {
        (Err(IndexError::NotFound), recs)
    } else if !recs[id as int].1 {
        (Err(IndexError::AlreadyDeleted), recs)
    } else {
        (Ok(()), recs.update(id as int, (recs[id as int].0, false)))
    }
}

/// `after` still holds every record of `before`, each with the same value.
pub open spec fn keeps_values(before: Seq<(Seq<char>, bool)>, after: Seq<(Seq<char>, bool)>) -> bool {
    &&& before.len() <= after.len()
    &&& forall|id: int| 0 <= id < before.len() ==> #[trigger] after[id].0 == before[id].0
}

/// Values are write-once: keeping them is transitive, so a value read under
/// an id stays the value of that id through any run of inserts and deletes.
pub proof fn lemma_keeps_values_transitive(
    a: Seq<(Seq<char>, bool)>,
    b: Seq<(Seq<char>, bool)>,
    c: Seq<(Seq<char>, bool)>,
)
    requires
        keeps_values(a, b),
        keeps_values(b, c),
    ensures
        keeps_values(a, c),
{
    assert forall|id: int| 0 <= id < a.len() implies #[trigger] c[id].0 == a[id].0 by {
        assert(c[id].0 == b[id].0);
    }
}

/// A second delete of an id that was just deleted fails with
/// `AlreadyDeleted` and changes nothing.
pub proof fn lemma_second_delete_fails(recs: Seq<(Seq<char>, bool)>, id: u64)
    requires
        delete_outcome(recs, id).0 is Ok,
    ensures
        delete_outcome(delete_outcome(recs, id).1, id) == (
            Err::<(), IndexError>(IndexError::AlreadyDeleted),
            delete_outcome(recs, id).1,
        ),
{
}

/// One stored value and whether it is still live.
pub struct Record {
    pub value: String,
    pub alive: bool,
}

impl Record {
    pub open spec fn view(&self) -> (Seq<char>, bool) {
        (self.value@, self.alive)
    }
}

/// Every record ever inserted, addressed by its id: the id of a record is its
/// position, so ids are issued from 0 upwards and never reused.
pub struct RecordStore {
    records: Vec<Record>,
}

impl RecordStore {
    /// The records in id order, each as its value and its liveness.
    pub closed spec fn view(&self) -> Seq<(Seq<char>, bool)> {
        self.records@.map_values(|r: Record| r@)
    }

    /// Whether `id` has been issued.
    pub open spec fn issued(&self, id: u64) -> bool {
        id < self@.len()
    }

    /// Whether `id` names a live record.
    pub open spec fn is_live(&self, id: u64) -> bool {
        self.issued(id) && self@[id as int].1
    }

    /// The value stored under `id`.
    pub open spec fn value_of(&self, id: u64) -> Seq<char> {
        self@[id as int].0
    }

    /// An empty store; the first id it issues is 0.
    pub fn new() -> (s: Self)
        ensures
            s@ == Seq::<(Seq<char>, bool)>::empty(),
    {
        let s = RecordStore { records: Vec::new() };
        assert(s@ =~= Seq::<(Seq<char>, bool)>::empty());
        s
    }

    /// The number of ids issued so far, which is also the next id.
    pub fn len(&self) -> (n: u64)
        ensures
            n == self@.len(),
    {
        proof {
            assert(self.records@.len() == self@.len());
        }
        self.records.len() as u64
    }

    /// Stores `value` as a live record under the next id, and returns that id.
    pub fn insert(&mut self, value: &str) -> (id: u64)
        requires
            old(self)@.len() < u64::MAX,
        ensures
            id == old(self)@.len(),
            final(self)@ == old(self)@.push((value@, true)),
            keeps_values(old(self)@, final(self)@),
    {
        let id = self.records.len() as u64;
        let ghost before = self.records@;
        self.records.push(Record { value: value.to_owned(), alive: true });
        proof {
            assert(self.records@ == before.push(self.records@.last()));
            assert(self@ =~= old(self)@.push((value@, true)));
        }
        id
    }

    /// Marks the record `id` as deleted. Its value stays retrievable.
    pub fn delete(&mut self, id: u64) -> (r: Result<(), IndexError>)
        ensures
            (r, final(self)@) == delete_outcome(old(self)@, id),
            keeps_values(old(self)@, final(self)@),
    {
        if id >= self.records.len() as u64 {
            return Err(IndexError::NotFound);
        }
        let i = id as usize;
        if !self.records[i].alive {
            return Err(IndexError::AlreadyDeleted);
        }
        self.records[i].alive = false;
        proof {
            assert(self@ =~= old(self)@.update(id as int, (old(self).value_of(id), false)));
        }
        Ok(())
    }

    /// The value stored under `id`, live or deleted.
    pub fn get(&self, id: u64) -> (r: Result<&str, IndexError>)
        ensures
            self.issued(id) ==> r is Ok && r->Ok_0@ == self.value_of(id),
            !self.issued(id) ==> r == Err::<&str, IndexError>(IndexError::NotFound),
    {
        if id >= self.records.len() as u64 {
            return Err(IndexError::NotFound);
        }
        Ok(self.records[id as usize].value.as_str())
    }

    /// Whether `id` names a live record.
    pub fn is_alive(&self, id: u64) -> (r: bool)
        ensures
            r == self.is_live(id),
    {
        id < self.records.len() as u64 && self.records[id as usize].alive
    }
}

} // verus!
