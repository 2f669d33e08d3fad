//! The registry of in-flight uploads, keyed by upload id, and the request
//! validators that consult it.
use vstd::prelude::*;
use vstd::string::*;
use crate::decimal::{decimal, lemma_decimal_injective, to_decimal};
use crate::fingerprint::fingerprint_of;
use crate::upload::{
    begin_accepted, file_type_of, slice_accepted, validate_slice, BeforeUploadRequest,
    FinishUploadRequest, SliceUploadQuery, TaskView, Token, UploadError, UploadTask,
};

verus! {

/// The in-flight uploads. Ids are handed out by the registry itself and are
/// never handed out twice, even after an upload has finished.
pub struct Registry {
    tasks: Vec<UploadTask>,
    next_serial: u64,
    entries: Ghost<Map<Seq<char>, TaskView>>,
    issued: Ghost<Set<Seq<char>>>,
}

impl View for Registry {
    type V = Map<Seq<char>, TaskView>;

    closed spec fn view(&self) -> Map<Seq<char>, TaskView> {
        self.entries@
    }
}

/// Whether the requester may act on the upload `id`: it holds a permission,
/// the upload is in flight, and the requester owns it.
pub open spec fn owns_upload(tasks: Map<Seq<char>, TaskView>, token: Token, id: Seq<char>) -> bool {
    token.permission != 0 && tasks.contains_key(id) && tasks[id].owner_id == token.uid
}

impl Registry {
    /// Every id the registry has handed out so far.
    pub closed spec fn issued(&self) -> Set<Seq<char>> {
        self.issued@
    }

    /// The serial number from which the next id is made.
    pub closed spec fn next_serial(&self) -> nat {
        self.next_serial as nat
    }

    /// Each listed task is recorded under its own id, ids are unique, and
    /// every id in use or handed out was made from a serial below the next one.
    pub closed spec fn wf(&self) -> bool {
        &&& forall|i: int|
            0 <= i < self.tasks@.len() ==> {
                &&& self.entries@.contains_key(#[trigger] self.tasks@[i]@.upload_id)
                &&& self.entries@[self.tasks@[i]@.upload_id] == self.tasks@[i]@
            }
        &&& forall|id: Seq<char>|
            #[trigger] self.entries@.contains_key(id) ==> exists|i: int|
                0 <= i < self.tasks@.len() && (#[trigger] self.tasks@[i]@).upload_id == id
        &&& forall|i: int, j: int|
            0 <= i < j < self.tasks@.len() ==> (#[trigger] self.tasks@[i]@).upload_id
                != (#[trigger] self.tasks@[j]@).upload_id
        &&& forall|id: Seq<char>| #[trigger] self.entries@.contains_key(id) ==> self.issued@.contains(id)
        &&& forall|id: Seq<char>|
            #[trigger] self.issued@.contains(id) ==> exists|k: nat|
                k < self.next_serial && id == #[trigger] decimal(k)
    }

    /// An empty registry.
    pub fn new() -> (r: Registry)
        ensures
            r.wf(),
            r@ == Map::<Seq<char>, TaskView>::empty(),
            r.issued() == Set::<Seq<char>>::empty(),
            r.next_serial() == 0,
    {
        Registry {
            tasks: Vec::new(),
            next_serial: 0,
            entries: Ghost(Map::empty()),
            issued: Ghost(Set::empty()),
        }
    }

    fn position(&self, upload_id: &str) -> (r: Option<usize>)
        requires
            self.wf(),
        ensures
            match r {
                Some(i) => i < self.tasks@.len() && self.tasks@[i as int]@.upload_id == upload_id@,
                None => !self@.contains_key(upload_id@),
            },
    {
        let id = String::from_str(upload_id);
        let mut i: usize = 0;
        while i < self.tasks.len()
            invariant
                self.wf(),
                id@ == upload_id@,
                i <= self.tasks@.len(),
                forall|j: int| 0 <= j < i ==> (#[trigger] self.tasks@[j]@).upload_id != upload_id@,
            decreases self.tasks@.len() - i,
        {
            if self.tasks[i].upload_id == id {
                return Some(i);
            }
            i = i + 1;
        }
        proof {
            if self@.contains_key(upload_id@) {
                let j = choose|j: int|
                    0 <= j < self.tasks@.len() && (#[trigger] self.tasks@[j]@).upload_id == upload_id@;
                assert(self.tasks@[j]@.upload_id != upload_id@);
            }
        }
        None
    }

    /// Begins an upload: checks the request, then registers a task under an
    /// id never handed out before, at index 0.
    pub fn create(&mut self, req: &BeforeUploadRequest, token: &Token, folder_owner_id: i64) -> (r: Result<
        UploadTask,
        UploadError,
    >)
        requires
            old(self).wf(),
        ensures
            final(self).wf(),
            !begin_accepted(req, *token, folder_owner_id) ==> r == Err::<UploadTask, UploadError>(
                UploadError::Auth,
            ),
            begin_accepted(req, *token, folder_owner_id) ==> (old(self).next_serial() == u64::MAX
                <==> r == Err::<UploadTask, UploadError>(UploadError::Exhausted)),
            begin_accepted(req, *token, folder_owner_id) && old(self).next_serial() < u64::MAX ==> r is Ok,
            r is Err ==> final(self)@ == old(self)@ && final(self).issued() == old(self).issued()
                && final(self).next_serial() == old(self).next_serial(),
            r is Ok ==> final(self).next_serial() == old(self).next_serial() + 1,
            r is Ok ==> {
                let t = r->Ok_0@;
                &&& begin_accepted(req, *token, folder_owner_id)
                &&& !old(self).issued().contains(t.upload_id)
                &&& final(self).issued() == old(self).issued().insert(t.upload_id)
                &&& final(self)@ == old(self)@.insert(t.upload_id, t)
                &&& t == (TaskView {
                    filename: req.filename@,
                    path: Seq::empty(),
                    file_type: file_type_of(req.filename@),
                    upload_id: t.upload_id,
                    parent_id: req.parent_id,
                    size: req.size,
                    current_index: 0,
                    owner_id: token.uid,
                })
            },
    {
        if !req.validate(token, folder_owner_id) {
            return Err(UploadError::Auth);
        }
        if self.next_serial == u64::MAX {
            return Err(UploadError::Exhausted);
        }
        let serial = self.next_serial;
        let id = to_decimal(serial);
        proof {
            if self.issued@.contains(id@) {
                let k = choose|k: nat| k < self.next_serial && id@ == #[trigger] decimal(k);
                lemma_decimal_injective(k, serial as nat);
            }
        }
        let task = req.create_task(id.as_str(), token.uid);
        let copy = task.snapshot();
        let ghost old_tasks = self.tasks@;
        self.tasks.push(copy);
        self.next_serial = serial + 1;
        self.entries = Ghost(self.entries@.insert(id@, task@));
        self.issued = Ghost(self.issued@.insert(id@));
        proof {
            let n = old_tasks.len();
            assert(self.tasks@[n as int]@ == task@);
            assert forall|i: int| 0 <= i < n implies (#[trigger] self.tasks@[i]@).upload_id != id@ by {
                assert(self.tasks@[i] == old_tasks[i]);
            }
            assert forall|i: int|
                0 <= i < self.tasks@.len() implies {
                &&& self.entries@.contains_key(#[trigger] self.tasks@[i]@.upload_id)
                &&& self.entries@[self.tasks@[i]@.upload_id] == self.tasks@[i]@
            } by {
                if i < n {
                    assert(self.tasks@[i] == old_tasks[i]);
                }
            }
            assert forall|key: Seq<char>| #[trigger] self.entries@.contains_key(key) implies exists|i: int|
                0 <= i < self.tasks@.len() && (#[trigger] self.tasks@[i]@).upload_id == key by {
                if key == id@ {
                    assert(self.tasks@[n as int]@.upload_id == key);
                } else {
                    let i = choose|i: int| 0 <= i < old_tasks.len() && (#[trigger] old_tasks[i]@).upload_id == key;
                    assert(self.tasks@[i] == old_tasks[i]);
                }
            }
            assert forall|key: Seq<char>| #[trigger] self.issued@.contains(key) implies exists|k: nat|
                k < self.next_serial && key == #[trigger] decimal(k) by {
                if key == id@ {
                    assert(key == decimal(serial as nat));
                }
            }
        }
        Ok(task)
    }

    /// The task of upload `upload_id`.
    pub fn find_upload_task_id(&self, upload_id: &str) -> (r: Result<UploadTask, UploadError>)
        requires
            self.wf(),
        ensures
            !self@.contains_key(upload_id@) <==> r == Err::<UploadTask, UploadError>(UploadError::NotFound),
            self@.contains_key(upload_id@) ==> r is Ok,
            r is Ok ==> self@.contains_key(upload_id@) && r->Ok_0@ == self@[upload_id@],
    {
        match self.position(upload_id) {
            Some(i) => Ok(self.tasks[i].snapshot()),
            None => Err(UploadError::NotFound),
        }
    }

    /// Counts one more accepted slice of upload `upload_id`.
    pub fn advance(&mut self, upload_id: &str) -> (r: Result<(), UploadError>)
        requires
            old(self).wf(),
        ensures
            final(self).wf(),
            final(self).issued() == old(self).issued(),
            final(self).next_serial() == old(self).next_serial(),
            !old(self)@.contains_key(upload_id@) <==> r == Err::<(), UploadError>(UploadError::NotFound),
            old(self)@.contains_key(upload_id@) ==> (old(self)@[upload_id@].current_index == u64::MAX
                <==> r == Err::<(), UploadError>(UploadError::Exhausted)),
            old(self)@.contains_key(upload_id@) && old(self)@[upload_id@].current_index < u64::MAX ==> r is Ok,
            r is Err ==> final(self)@ == old(self)@,
            r is Ok ==> final(self)@ == old(self)@.insert(
                upload_id@,
                TaskView {
                    current_index: (old(self)@[upload_id@].current_index + 1) as u64,
                    ..old(self)@[upload_id@]
                },
            ),
    {
        let i = match self.position(upload_id) {
            Some(i) => i,
            None => return Err(UploadError::NotFound),
        };
        assert(self.entries@.contains_key(self.tasks@[i as int]@.upload_id));
        let mut task = self.tasks[i].snapshot();
        match task.advance() {
            Ok(()) => {},
            Err(e) => return Err(e),
        }
        let ghost old_tasks = self.tasks@;
        self.tasks.set(i, task);
        self.entries = Ghost(self.entries@.insert(upload_id@, task@));
        proof {
            assert forall|j: int| 0 <= j < self.tasks@.len() && j != i implies self.tasks@[j] == old_tasks[j] by {}
            assert forall|j: int|
                0 <= j < self.tasks@.len() implies {
                &&& self.entries@.contains_key(#[trigger] self.tasks@[j]@.upload_id)
                &&& self.entries@[self.tasks@[j]@.upload_id] == self.tasks@[j]@
            } by {
                if j != i {
                    assert(self.tasks@[j] == old_tasks[j]);
                    assert(old_tasks[j]@.upload_id != upload_id@);
                }
            }
            assert forall|key: Seq<char>| #[trigger] self.entries@.contains_key(key) implies exists|j: int|
                0 <= j < self.tasks@.len() && (#[trigger] self.tasks@[j]@).upload_id == key by {
                let j = choose|j: int| 0 <= j < old_tasks.len() && (#[trigger] old_tasks[j]@).upload_id == key;
                if j == i {
                    assert(self.tasks@[j]@.upload_id == key);
                } else {
                    assert(self.tasks@[j] == old_tasks[j]);
                }
            }
            assert forall|a: int, b: int|
                0 <= a < b < self.tasks@.len() implies (#[trigger] self.tasks@[a]@).upload_id
                != (#[trigger] self.tasks@[b]@).upload_id by {
                assert(old_tasks[a]@.upload_id != old_tasks[b]@.upload_id);
            }
        }
        Ok(())
    }

    /// Deregisters upload `upload_id` and hands back its task.
    pub fn remove(&mut self, upload_id: &str) -> (r: Result<UploadTask, UploadError>)
        requires
            old(self).wf(),
        ensures
            final(self).wf(),
            final(self).issued() == old(self).issued(),
            final(self).next_serial() == old(self).next_serial(),
            !old(self)@.contains_key(upload_id@) <==> r == Err::<UploadTask, UploadError>(UploadError::NotFound),
            old(self)@.contains_key(upload_id@) ==> r is Ok,
            r is Err ==> final(self)@ == old(self)@,
            r is Ok ==> r->Ok_0@ == old(self)@[upload_id@] && final(self)@ == old(self)@.remove(upload_id@),
    {
        let i = match self.position(upload_id) {
            Some(i) => i,
            None => return Err(UploadError::NotFound),
        };
        let ghost old_tasks = self.tasks@;
        let task = self.tasks.remove(i);
        self.entries = Ghost(self.entries@.remove(upload_id@));
        proof {
            assert forall|j: int| 0 <= j < self.tasks@.len() implies self.tasks@[j] == old_tasks[if j < i { j } else { j + 1 }] by {}
            assert forall|j: int|
                0 <= j < self.tasks@.len() implies {
                &&& self.entries@.contains_key(#[trigger] self.tasks@[j]@.upload_id)
                &&& self.entries@[self.tasks@[j]@.upload_id] == self.tasks@[j]@
            } by {
                let o = if j < i { j } else { j + 1 };
                assert(self.tasks@[j] == old_tasks[o]);
                assert(old_tasks[o]@.upload_id != upload_id@);
            }
            assert forall|key: Seq<char>| #[trigger] self.entries@.contains_key(key) implies exists|j: int|
                0 <= j < self.tasks@.len() && (#[trigger] self.tasks@[j]@).upload_id == key by {
                let o = choose|o: int| 0 <= o < old_tasks.len() && (#[trigger] old_tasks[o]@).upload_id == key;
                assert(o != i);
                let j = if o < i { o } else { o - 1 };
                assert(self.tasks@[j] == old_tasks[o]);
            }
            assert forall|a: int, b: int|
                0 <= a < b < self.tasks@.len() implies (#[trigger] self.tasks@[a]@).upload_id
                != (#[trigger] self.tasks@[b]@).upload_id by {
                let oa = if a < i { a } else { a + 1 };
                let ob = if b < i { b } else { b + 1 };
                assert(self.tasks@[a] == old_tasks[oa]);
                assert(self.tasks@[b] == old_tasks[ob]);
                assert(old_tasks[oa]@.upload_id != old_tasks[ob]@.upload_id);
            }
        }
        Ok(task)
    }
}

/// Whether the requester may act on upload `upload_id`. A requester without
/// permission is turned away before the upload is looked up.
pub fn validate_upload_user(registry: &Registry, token: &Token, upload_id: &str) -> (r: Result<bool, UploadError>)
    requires
        registry.wf(),
    ensures
        (token.permission != 0 && !registry@.contains_key(upload_id@)) <==> r == Err::<bool, UploadError>(
            UploadError::NotFound,
        ),
        r is Err ==> r == Err::<bool, UploadError>(UploadError::NotFound),
        r is Ok ==> r->Ok_0 == owns_upload(registry@, *token, upload_id@),
{
    if token.permission == 0 {
        return Ok(false);
    }
    let task = match registry.find_upload_task_id(upload_id) {
        Ok(t) => t,
        Err(e) => return Err(e),
    };
    Ok(task.owner_id == token.uid)
}

impl SliceUploadQuery {
    /// Checks a slice of upload `upload_id` sent by the holder of `token`:
    /// ownership, then order, then the fingerprint of `data`.
    pub fn validate(&self, data: &Vec<u8>, registry: &Registry, token: &Token, upload_id: &str) -> (r: Result<
        bool,
        UploadError,
    >)
        requires
            registry.wf(),
        ensures
            (token.permission != 0 && !registry@.contains_key(upload_id@)) <==> r == Err::<bool, UploadError>(
                UploadError::NotFound,
            ),
            r is Err ==> r == Err::<bool, UploadError>(UploadError::NotFound),
            r is Ok ==> r->Ok_0 == (owns_upload(registry@, *token, upload_id@) && slice_accepted(
                registry@[upload_id@],
                token.uid,
                self.index,
                fingerprint_of(data@),
                self.hash@,
            )),
    {
        match validate_upload_user(registry, token, upload_id) {
            Ok(true) => {},
            Ok(false) => return Ok(false),
            Err(e) => return Err(e),
        }
        let task = match registry.find_upload_task_id(upload_id) {
            Ok(t) => t,
            Err(e) => return Err(e),
        };
        Ok(validate_slice(&task, token.uid, self.index, self.hash.as_str(), data))
    }
}

impl FinishUploadRequest {
    /// Checks that the holder of `token` may finish this upload.
    pub fn validate(&self, registry: &Registry, token: &Token) -> (r: Result<bool, UploadError>)
        requires
            registry.wf(),
        ensures
            (token.permission != 0 && !registry@.contains_key(self.upload_id@)) <==> r == Err::<
                bool,
                UploadError,
            >(UploadError::NotFound),
            r is Err ==> r == Err::<bool, UploadError>(UploadError::NotFound),
            r is Ok ==> r->Ok_0 == owns_upload(registry@, *token, self.upload_id@),
    {
        validate_upload_user(registry, token, self.upload_id.as_str())
    }
}

/// A requester who does not own an upload can neither send it a slice nor
/// finish it, whatever the index and fingerprint it sends.
pub proof fn lemma_cross_user_isolation(
    tasks: Map<Seq<char>, TaskView>,
    token: Token,
    id: Seq<char>,
    index: u64,
    computed: Seq<char>,
    declared: Seq<char>,
)
    requires
        tasks.contains_key(id),
        token.uid != tasks[id].owner_id,
    ensures
        !owns_upload(tasks, token, id),
        !slice_accepted(tasks[id], token.uid, index, computed, declared),
{
}

} // verus!
