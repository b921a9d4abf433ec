//! The registry of modules of one engine instance, keyed by identity.
use vstd::prelude::*;
use crate::validator::ScriptValue;

verus! {

/// Lifecycle of a module record. `Evaluated` and `Errored` are terminal.
#[derive(PartialEq, Eq, Structural, Clone, Copy, Debug)]
pub enum ModuleState {
    Unresolved,
    Fetching,
    Compiled,
    Linking,
    Linked,
    Evaluating,
    Evaluated,
    Errored,
}

/// Position of a state along the lifecycle.
pub open spec fn rank(s: ModuleState) -> nat {
    match s {
        ModuleState::Unresolved => 0,
        ModuleState::Fetching => 1,
        ModuleState::Compiled => 2,
        ModuleState::Linking => 3,
        ModuleState::Linked => 4,
        ModuleState::Evaluating => 5,
        ModuleState::Evaluated => 6,
        ModuleState::Errored => 7,
    }
}

pub open spec fn is_terminal(s: ModuleState) -> bool {
    s == ModuleState::Evaluated || s == ModuleState::Errored
}

/// A record may move forward along the lifecycle, or fail from any
/// non-terminal state; it never goes back.
pub open spec fn may_advance(from: ModuleState, to: ModuleState) -> bool {
    !is_terminal(from) && rank(from) < rank(to)
}

/// A state that an unfinished load leaves behind: fetched at least in
/// part, and neither evaluated nor failed.
pub open spec fn is_partial(s: ModuleState) -> bool {
    s != ModuleState::Unresolved && !is_terminal(s)
}

/// The record as it stands after a failed import: a partial record fails
/// with `msg`, any other stays as it was.
pub open spec fn failed_record(r: ModuleRecord, msg: String) -> ModuleRecord {
    if is_partial(r.state) {
        ModuleRecord { state: ModuleState::Errored, outcome: Some(Err(msg)), ..r }
    } else {
        r
    }
}

/// A refused state change.
#[derive(PartialEq, Eq, Structural, Clone, Copy, Debug)]
pub enum MapError {
    UnknownModule,
    Regression,
}

/// One module: its identity, transformed source, dependencies in
/// declaration order, and the outcome of its evaluation once it has run.
#[derive(Debug)]
pub struct ModuleRecord {
    pub identity: String,
    pub source: String,
    pub state: ModuleState,
    pub deps: Vec<usize>,
    pub outcome: Option<Result<ScriptValue, String>>,
}

/// The records of one engine instance; a module's index is its handle.
#[derive(Debug)]
pub struct ModuleMap {
    pub records: Vec<ModuleRecord>,
}

impl ModuleMap {
    pub open spec fn len_spec(&self) -> nat {
        self.records@.len()
    }

    pub open spec fn state_of(&self, i: int) -> ModuleState {
        self.records@[i].state
    }

    pub open spec fn identity_of(&self, i: int) -> Seq<char> {
        self.records@[i].identity@
    }

    pub open spec fn deps_of(&self, i: int) -> Seq<usize> {
        self.records@[i].deps@
    }

    /// Identities are unique and every dependency names a record.
    pub open spec fn wf(&self) -> bool {
        &&& forall|i: int, j: int|
            0 <= i < j < self.records@.len() ==> #[trigger] self.identity_of(i) != #[trigger] self.identity_of(j)
        &&& forall|i: int, k: int|
            0 <= i < self.records@.len() && 0 <= k < self.deps_of(i).len() ==> #[trigger] self.deps_of(i)[k] < self.records@.len()
    }

    /// The index of the record with identity `id`, if any.
    pub open spec fn index_of(&self, id: Seq<char>) -> Option<int> {
        if exists|i: int| 0 <= i < self.records@.len() && self.identity_of(i) == id {
            Some(choose|i: int| 0 <= i < self.records@.len() && self.identity_of(i) == id)
        } else {
            None
        }
    }

    pub fn new() -> (r: ModuleMap)
        ensures
            r.wf(),
            r.len_spec() == 0,
    {
        ModuleMap { records: Vec::new() }
    }

    pub fn len(&self) -> (r: usize)
        ensures
            r == self.len_spec(),
    {
        self.records.len()
    }

    /// Finds the record with the given identity.
    pub fn find(&self, identity: &String) -> (r: Option<usize>)
        requires
            self.wf(),
        ensures
            match r {
                Some(i) => i < self.len_spec() && self.identity_of(i as int) == identity@,
                None => forall|i: int| 0 <= i < self.len_spec() ==> self.identity_of(i) != identity@,
            },
    {
        let mut i: usize = 0;
        while i < self.records.len()
            invariant
                i <= self.records@.len(),
                forall|j: int| 0 <= j < i ==> self.identity_of(j) != identity@,
            decreases self.records@.len() - i,
        {
            if self.records[i].identity == *identity {
                return Some(i);
            }
            i = i + 1;
        }
        None
    }

    /// The record with the given identity, if there is one.
    pub fn lookup(&self, identity: &String) -> (r: Option<&ModuleRecord>)
        requires
            self.wf(),
        ensures
            match r {
                Some(rec) => exists|i: int|
                    0 <= i < self.len_spec() && self.records@[i] == *rec && self.identity_of(i) == identity@,
                None => forall|i: int| 0 <= i < self.len_spec() ==> self.identity_of(i) != identity@,
            },
    {
        match self.find(identity) {
            Some(i) => Some(&self.records[i]),
            None => None,
        }
    }

    /// The index of the record with identity `identity`, adding an
    /// `Unresolved` record when there is none yet.
    pub fn get_or_insert(&mut self, identity: String) -> (r: usize)
        requires
            old(self).wf(),
        ensures
            final(self).wf(),
            r < final(self).len_spec(),
            final(self).identity_of(r as int) == identity@,
            (exists|i: int| 0 <= i < old(self).len_spec() && old(self).identity_of(i) == identity@)
                ==> final(self).records@ == old(self).records@,
            (forall|i: int| 0 <= i < old(self).len_spec() ==> old(self).identity_of(i) != identity@)
                ==> {
                &&& final(self).records@.drop_last() == old(self).records@
                &&& r == old(self).len_spec()
                &&& final(self).state_of(r as int) == ModuleState::Unresolved
                &&& final(self).deps_of(r as int).len() == 0
                &&& final(self).records@[r as int].outcome is None
            },
    {
        match self.find(&identity) {
            Some(i) => i,
            None => {
                let ghost id_view = identity@;
                let n = self.records.len();
                self.records.push(ModuleRecord {
                    identity,
                    source: String::new(),
                    state: ModuleState::Unresolved,
                    deps: Vec::new(),
                    outcome: None,
                });
                assert(self.records@.drop_last() =~= old(self).records@);
                assert forall|i: int, j: int| 0 <= i < j < self.records@.len() implies
                    #[trigger] self.identity_of(i) != #[trigger] self.identity_of(j) by {
                    assert(self.identity_of(i) == old(self).identity_of(i));
                    if j < n {
                        assert(self.identity_of(j) == old(self).identity_of(j));
                    } else {
                        assert(self.identity_of(j) == id_view);
                    }
                }
                assert forall|i: int, k: int|
                    0 <= i < self.records@.len() && 0 <= k < self.deps_of(i).len() implies
                    #[trigger] self.deps_of(i)[k] < self.records@.len() by {
                    if i < n {
                        assert(self.deps_of(i) == old(self).deps_of(i));
                        assert(old(self).deps_of(i)[k] < n);
                    } else {
                        assert(self.deps_of(i).len() == 0);
                    }
                }
                n
            }
        }
    }

    pub fn state(&self, i: usize) -> (r: ModuleState)
        requires
            i < self.len_spec(),
        ensures
            r == self.state_of(i as int),
    {
        self.records[i].state
    }

    /// Moves record `i` to state `to`, refusing any move that is not forward.
    pub fn mark_state(&mut self, i: usize, to: ModuleState) -> (r: Result<(), MapError>)
        requires
            old(self).wf(),
        ensures
            final(self).wf(),
            i >= old(self).len_spec() ==> r == Err::<(), MapError>(MapError::UnknownModule),
            i < old(self).len_spec() && !may_advance(old(self).state_of(i as int), to)
                ==> r == Err::<(), MapError>(MapError::Regression),
            r is Err ==> final(self).records@ == old(self).records@,
            i < old(self).len_spec() && may_advance(old(self).state_of(i as int), to) ==> {
                &&& r is Ok
                &&& final(self).records@ == old(self).records@.update(i as int, ModuleRecord { state: to, ..old(self).records@[i as int] })
            },
    {
        if i >= self.records.len() {
            return Err(MapError::UnknownModule);
        }
        let from = self.records[i].state;
        if !Self::advances(from, to) {
            return Err(MapError::Regression);
        }
        self.set_state(i, to);
        Ok(())
    }

    fn advances(from: ModuleState, to: ModuleState) -> (r: bool)
        ensures
            r == may_advance(from, to),
    {
        !(from == ModuleState::Evaluated || from == ModuleState::Errored) && Self::rank_of(from) < Self::rank_of(to)
    }

    fn rank_of(s: ModuleState) -> (r: u8)
        ensures
            r == rank(s),
    {
        match s {
            ModuleState::Unresolved => 0,
            ModuleState::Fetching => 1,
            ModuleState::Compiled => 2,
            ModuleState::Linking => 3,
            ModuleState::Linked => 4,
            ModuleState::Evaluating => 5,
            ModuleState::Evaluated => 6,
            ModuleState::Errored => 7,
        }
    }

    fn set_state(&mut self, i: usize, to: ModuleState)
        requires
            old(self).wf(),
            i < old(self).len_spec(),
        ensures
            final(self).wf(),
            final(self).records@ == old(self).records@.update(i as int, ModuleRecord { state: to, ..old(self).records@[i as int] }),
    {
        let mut rec = self.records.remove(i);
        rec.state = to;
        self.records.insert(i, rec);
        proof {
            assert(self.deps_of(i as int) == old(self).deps_of(i as int));
            self.lemma_update_wf(*old(self), i as int);
        }
    }

    /// Replacing one record by another with the same identity and valid
    /// dependencies keeps the map well formed.
    proof fn lemma_update_wf(self, prev: ModuleMap, i: int)
        requires
            prev.wf(),
            0 <= i < prev.len_spec(),
            self.records@ =~= prev.records@.update(i, self.records@[i]),
            self.identity_of(i) == prev.identity_of(i),
            forall|k: int| 0 <= k < self.deps_of(i).len() ==> #[trigger] self.deps_of(i)[k] < prev.len_spec(),
        ensures
            self.wf(),
    {
        assert forall|a: int, b: int| 0 <= a < b < self.records@.len() implies
            #[trigger] self.identity_of(a) != #[trigger] self.identity_of(b) by {
            assert(self.identity_of(a) == prev.identity_of(a));
            assert(self.identity_of(b) == prev.identity_of(b));
        }
        assert forall|a: int, k: int|
            0 <= a < self.records@.len() && 0 <= k < self.deps_of(a).len() implies
            #[trigger] self.deps_of(a)[k] < self.records@.len() by {
            if a != i {
                assert(self.deps_of(a) == prev.deps_of(a));
            }
        }
    }

    /// Every dependency of module `i` has been compiled at least.
    pub open spec fn deps_ready(&self, i: int) -> bool {
        forall|k: int| 0 <= k < self.deps_of(i).len()
            ==> rank(#[trigger] self.state_of(self.deps_of(i)[k] as int)) >= rank(ModuleState::Compiled)
    }

    /// The record `i` after linking: a compiled module whose dependencies
    /// are all compiled becomes `Linked`.
    pub open spec fn linked_record(&self, i: int) -> ModuleRecord {
        if self.state_of(i) == ModuleState::Compiled && self.deps_ready(i) {
            ModuleRecord { state: ModuleState::Linked, ..self.records@[i] }
        } else {
            self.records@[i]
        }
    }

    fn ready(&self, i: usize) -> (r: bool)
        requires
            self.wf(),
            i < self.len_spec(),
        ensures
            r == self.deps_ready(i as int),
    {
        let deps = &self.records[i].deps;
        let mut k: usize = 0;
        while k < deps.len()
            invariant
                self.wf(),
                i < self.len_spec(),
                deps@ == self.deps_of(i as int),
                k <= deps@.len(),
                forall|j: int| 0 <= j < k ==> rank(#[trigger] self.state_of(self.deps_of(i as int)[j] as int)) >= rank(ModuleState::Compiled),
            decreases deps@.len() - k,
        {
            let d = deps[k];
            assert(self.deps_of(i as int)[k as int] == d);
            if Self::rank_of(self.records[d].state) < 2 {
                assert(rank(self.state_of(self.deps_of(i as int)[k as int] as int)) < rank(ModuleState::Compiled));
                return false;
            }
            k = k + 1;
        }
        true
    }

    /// Links every compiled module whose dependencies are all compiled.
    pub fn link_all(&mut self)
        requires
            old(self).wf(),
        ensures
            final(self).wf(),
            final(self).len_spec() == old(self).len_spec(),
            forall|i: int| 0 <= i < old(self).len_spec() ==> #[trigger] final(self).records@[i] == old(self).linked_record(i),
    {
        let n = self.records.len();
        let mut flags: Vec<bool> = Vec::new();
        let mut i: usize = 0;
        while i < n
            invariant
                self.wf(),
                n == self.len_spec(),
                i <= n,
                flags@.len() == i,
                forall|j: int| 0 <= j < i ==> #[trigger] flags@[j] == (self.state_of(j) == ModuleState::Compiled && self.deps_ready(j)),
            decreases n - i,
        {
            let f = self.records[i].state == ModuleState::Compiled && self.ready(i);
            flags.push(f);
            i = i + 1;
        }
        let mut i: usize = 0;
        while i < n
            invariant
                self.wf(),
                n == self.len_spec(),
                n == old(self).len_spec(),
                i <= n,
                flags@.len() == n,
                forall|j: int| 0 <= j < n ==> #[trigger] flags@[j] == (old(self).state_of(j) == ModuleState::Compiled && old(self).deps_ready(j)),
                forall|j: int| 0 <= j < i ==> #[trigger] self.records@[j] == old(self).linked_record(j),
                forall|j: int| i <= j < n ==> #[trigger] self.records@[j] == old(self).records@[j],
            decreases n - i,
        {
            if flags[i] {
                let ghost before = *self;
                self.set_state(i, ModuleState::Linked);
                assert forall|j: int| 0 <= j < n && j != i implies #[trigger] self.records@[j] == before.records@[j] by {}
            }
            i = i + 1;
        }
    }

    /// Fails every partial record with `message`, so that a failed import
    /// leaves no module half loaded or half evaluated.
    pub fn fail_unfinished(&mut self, message: &String)
        requires
            old(self).wf(),
        ensures
            final(self).wf(),
            final(self).len_spec() == old(self).len_spec(),
            forall|i: int| 0 <= i < old(self).len_spec() ==> #[trigger] final(self).records@[i] == failed_record(old(self).records@[i], *message),
            forall|i: int| 0 <= i < final(self).len_spec() ==> !is_partial(#[trigger] final(self).state_of(i)),
    {
        let n = self.records.len();
        let mut i: usize = 0;
        while i < n
            invariant
                self.wf(),
                n == self.len_spec(),
                n == old(self).len_spec(),
                i <= n,
                forall|j: int| 0 <= j < i ==> #[trigger] self.records@[j] == failed_record(old(self).records@[j], *message),
                forall|j: int| i <= j < n ==> #[trigger] self.records@[j] == old(self).records@[j],
            decreases n - i,
        {
            let st = self.records[i].state;
            if st != ModuleState::Unresolved && st != ModuleState::Evaluated && st != ModuleState::Errored {
                let ghost before = *self;
                let mut rec = self.records.remove(i);
                rec.state = ModuleState::Errored;
                rec.outcome = Some(Err(message.clone()));
                self.records.insert(i, rec);
                proof {
                    assert(self.records@ =~= before.records@.update(i as int, self.records@[i as int]));
                    assert(self.deps_of(i as int) == before.deps_of(i as int));
                    self.lemma_update_wf(before, i as int);
                }
            }
            i = i + 1;
        }
        assert forall|i: int| 0 <= i < self.len_spec() implies !is_partial(#[trigger] self.state_of(i)) by {
            assert(self.records@[i] == failed_record(old(self).records@[i], *message));
        }
    }

    /// The first module that has not been fetched yet.
    pub fn next_unfetched(&self) -> (r: Option<usize>)
        ensures
            match r {
                Some(i) => i < self.len_spec() && self.state_of(i as int) == ModuleState::Unresolved
                    && forall|j: int| 0 <= j < i ==> self.state_of(j) != ModuleState::Unresolved,
                None => forall|j: int| 0 <= j < self.len_spec() ==> self.state_of(j) != ModuleState::Unresolved,
            },
    {
        let mut i: usize = 0;
        while i < self.records.len()
            invariant
                i <= self.records@.len(),
                forall|j: int| 0 <= j < i ==> self.state_of(j) != ModuleState::Unresolved,
            decreases self.records@.len() - i,
        {
            if self.records[i].state == ModuleState::Unresolved {
                return Some(i);
            }
            i = i + 1;
        }
        None
    }

    /// Records the transformed source of module `i`, which is being
    /// fetched, and its dependencies in declaration order, registering
    /// each dependency that the map does not hold yet. The module is then
    /// `Compiled`. Any other state is refused and nothing changes.
    pub fn set_compiled(&mut self, i: usize, source: String, dep_identities: &Vec<String>) -> (r: Result<(), MapError>)
        requires
            old(self).wf(),
        ensures
            final(self).wf(),
            i >= old(self).len_spec() ==> r == Err::<(), MapError>(MapError::UnknownModule),
            i < old(self).len_spec() && old(self).state_of(i as int) != ModuleState::Fetching
                ==> r == Err::<(), MapError>(MapError::Regression),
            r is Err ==> final(self).records@ == old(self).records@,
            i < old(self).len_spec() && old(self).state_of(i as int) == ModuleState::Fetching ==> {
                &&& r is Ok
                &&& final(self).len_spec() >= old(self).len_spec()
                &&& forall|j: int| 0 <= j < old(self).len_spec() && j != i ==> #[trigger] final(self).records@[j] == old(self).records@[j]
                &&& forall|j: int| old(self).len_spec() <= j < final(self).len_spec()
                    ==> #[trigger] final(self).state_of(j) == ModuleState::Unresolved && final(self).deps_of(j).len() == 0
                        && final(self).records@[j].outcome is None
                &&& final(self).identity_of(i as int) == old(self).identity_of(i as int)
                &&& final(self).state_of(i as int) == ModuleState::Compiled
                &&& final(self).records@[i as int].source@ == source@
                &&& final(self).records@[i as int].outcome == old(self).records@[i as int].outcome
                &&& final(self).deps_of(i as int).len() == dep_identities@.len()
                &&& forall|k: int| 0 <= k < dep_identities@.len() ==>
                    final(self).identity_of(#[trigger] final(self).deps_of(i as int)[k] as int) == dep_identities@[k]@
            },
    {
        if i >= self.records.len() {
            return Err(MapError::UnknownModule);
        }
        if self.records[i].state != ModuleState::Fetching {
            return Err(MapError::Regression);
        }
        let ghost n0 = old(self).len_spec();
        let mut deps: Vec<usize> = Vec::new();
        let mut k: usize = 0;
        while k < dep_identities.len()
            invariant
                self.wf(),
                n0 == old(self).len_spec(),
                i < n0 <= self.len_spec(),
                k <= dep_identities@.len(),
                deps@.len() == k,
                forall|j: int| 0 <= j < n0 ==> #[trigger] self.records@[j] == old(self).records@[j],
                forall|j: int| n0 <= j < self.len_spec() ==> #[trigger] self.state_of(j) == ModuleState::Unresolved
                    && self.deps_of(j).len() == 0 && self.records@[j].outcome is None,
                forall|j: int| 0 <= j < k ==> #[trigger] deps@[j] < self.len_spec()
                    && self.identity_of(deps@[j] as int) == dep_identities@[j]@,
            decreases dep_identities@.len() - k,
        {
            let ghost before = *self;
            let d = self.get_or_insert(dep_identities[k].clone());
            proof {
                assert forall|j: int| 0 <= j < before.len_spec() implies #[trigger] self.records@[j] == before.records@[j] by {
                    if self.records@ != before.records@ {
                        assert(self.records@[j] == self.records@.drop_last()[j]);
                    }
                }
                assert forall|j: int| n0 <= j < self.len_spec() implies #[trigger] self.state_of(j) == ModuleState::Unresolved
                    && self.deps_of(j).len() == 0 && self.records@[j].outcome is None by {
                    if j < before.len_spec() {
                        assert(self.records@[j] == before.records@[j]);
                        assert(before.state_of(j) == ModuleState::Unresolved);
                    } else {
                        assert(self.records@ != before.records@);
                        assert(j == before.len_spec());
                    }
                }
                assert forall|j: int| 0 <= j < k implies #[trigger] deps@[j] < self.len_spec()
                    && self.identity_of(deps@[j] as int) == dep_identities@[j]@ by {
                    assert(self.records@[deps@[j] as int] == before.records@[deps@[j] as int]);
                }
            }
            deps.push(d);
            k = k + 1;
        }
        let ghost mid = *self;
        let mut rec = self.records.remove(i);
        rec.source = source;
        rec.deps = deps;
        rec.state = ModuleState::Compiled;
        self.records.insert(i, rec);
        proof {
            assert(mid.records@[i as int] == old(self).records@[i as int]);
            assert(self.identity_of(i as int) == mid.identity_of(i as int));
            assert(self.records@ =~= mid.records@.update(i as int, self.records@[i as int]));
            assert(self.deps_of(i as int) == deps@);
            self.lemma_update_wf(mid, i as int);
            assert forall|j: int| 0 <= j < old(self).len_spec() && j != i implies
                #[trigger] self.records@[j] == old(self).records@[j] by {
                assert(self.records@[j] == mid.records@[j]);
            }
            assert forall|j: int| old(self).len_spec() <= j < self.len_spec() implies
                #[trigger] self.state_of(j) == ModuleState::Unresolved && self.deps_of(j).len() == 0
                    && self.records@[j].outcome is None by {
                assert(self.records@[j] == mid.records@[j]);
                assert(mid.state_of(j) == ModuleState::Unresolved);
            }
            assert forall|k: int| 0 <= k < dep_identities@.len() implies
                self.identity_of(#[trigger] self.deps_of(i as int)[k] as int) == dep_identities@[k]@ by {
                let d = deps@[k] as int;
                if d != i {
                    assert(self.records@[d] == mid.records@[d]);
                }
            }
        }
        Ok(())
    }

    /// Module `i` and the outcome of its evaluation.
    pub fn outcome(&self, i: usize) -> (r: &Option<Result<ScriptValue, String>>)
        requires
            i < self.len_spec(),
        ensures
            *r == self.records@[i as int].outcome,
    {
        &self.records[i].outcome
    }

    /// The exception with which module `i` failed, if it did: a failure is
    /// surfaced again, verbatim, on every later import of the module.
    pub fn failure_of(&self, i: usize) -> (r: Option<String>)
        requires
            i < self.len_spec(),
        ensures
            match self.records@[i as int].outcome {
                Some(Err(msg)) => r == Some(msg),
                _ => r is None,
            },
    {
        match &self.records[i].outcome {
            Some(Err(msg)) => Some(msg.clone()),
            _ => None,
        }
    }

    /// Stores the outcome of evaluating module `i`, which is being
    /// evaluated: `Evaluated` on success, `Errored` on an exception.
    pub fn record_outcome(&mut self, i: usize, outcome: Result<ScriptValue, String>)
        requires
            old(self).wf(),
            i < old(self).len_spec(),
            old(self).state_of(i as int) == ModuleState::Evaluating,
        ensures
            final(self).wf(),
            final(self).records@ == old(self).records@.update(i as int, ModuleRecord {
                state: if outcome is Ok { ModuleState::Evaluated } else { ModuleState::Errored },
                outcome: Some(outcome),
                ..old(self).records@[i as int]
            }),
    {
        let mut rec = self.records.remove(i);
        rec.state = if outcome.is_ok() { ModuleState::Evaluated } else { ModuleState::Errored };
        rec.outcome = Some(outcome);
        self.records.insert(i, rec);
        proof {
            assert(self.deps_of(i as int) == old(self).deps_of(i as int));
            self.lemma_update_wf(*old(self), i as int);
        }
    }
}

} // verus!
