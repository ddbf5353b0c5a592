//! The per-agent fact store: tagged fact values, the transactional key-value
//! store, and the planner bookkeeping that rides along with it.

use std::collections::VecDeque;
use vstd::prelude::*;

verus! {

/// Spec-level value of a [`Variant`].
pub enum VariantView {
    Entity(u64),
    Entities(Seq<u64>),
    Location,
    Bool(bool),
    Int32(i32),
}

/// One world fact: a tagged value stored in a context under a string key.
///
/// An entity is carried as the plain numeric id the host assigns it; the
/// library itself never interprets ids, it only stores and compares them.
#[derive(Debug)]
pub enum Variant {
    Entity(u64),
    Entities(Vec<u64>),
    Location,
    Bool(bool),
    Int32(i32),
}

impl View for Variant {
    type V = VariantView;

    open spec fn view(&self) -> VariantView {
        match self {
            Variant::Entity(e) => VariantView::Entity(*e),
            Variant::Entities(v) => VariantView::Entities(v@),
            Variant::Location => VariantView::Location,
            Variant::Bool(b) => VariantView::Bool(*b),
            Variant::Int32(i) => VariantView::Int32(*i),
        }
    }
}

impl PartialEq for Variant {
    fn eq(&self, other: &Variant) -> (r: bool) {
        match (self, other) {
            (Variant::Entity(a), Variant::Entity(b)) => a == b,
            (Variant::Entities(a), Variant::Entities(b)) => {
                if a.len() != b.len() {
                    return false;
                }
                let mut i: usize = 0;
                while i < a.len()
                    invariant
                        i <= a.len(),
                        a@.len() == b@.len(),
                        self@ == VariantView::Entities(a@),
                        other@ == VariantView::Entities(b@),
                        forall|j: int| 0 <= j < i ==> a@[j] == b@[j],
                    decreases a.len() - i,
                {
                    if a[i] != b[i] {
                        proof {
                            assert(a@ != b@);
                        }
                        return false;
                    }
                    i = i + 1;
                }
                proof {
                    assert(a@ =~= b@);
                }
                true
            },
            (Variant::Location, Variant::Location) => true,
            (Variant::Bool(a), Variant::Bool(b)) => a == b,
            (Variant::Int32(a), Variant::Int32(b)) => a == b,
            _ => false,
        }
    }
}

impl vstd::std_specs::cmp::PartialEqSpecImpl for Variant {
    open spec fn obeys_eq_spec() -> bool {
        true
    }

    open spec fn eq_spec(&self, other: &Variant) -> bool {
        self@ == other@
    }
}

impl Clone for Variant {
    fn clone(&self) -> (res: Variant)
        ensures
            res@ == self@,
    {
        match self {
            Variant::Entity(e) => Variant::Entity(*e),
            Variant::Entities(v) => {
                let c = v.clone();
                proof {
                    assert forall|i: int| 0 <= i < v@.len() implies c@[i] == v@[i] by {
                        assert(vstd::pervasive::cloned::<u64>(v[i], c[i]));
                    }
                    assert(c@ =~= v@);
                }
                Variant::Entities(c)
            },
            Variant::Location => Variant::Location,
            Variant::Bool(b) => Variant::Bool(*b),
            Variant::Int32(i) => Variant::Int32(*i),
        }
    }
}

/// Whether the agent is between calls to plan or between calls to execute;
/// purely informational bookkeeping toggled around planning.
#[derive(Clone, Copy, Debug, PartialEq, Eq, Structural)]
pub enum ExecutionState {
    Planning,
    Executing,
}

impl Default for ExecutionState {
    fn default() -> (r: Self)
        ensures
            r == ExecutionState::Planning,
    {
        ExecutionState::Planning
    }
}

/// Snapshot of task indices decomposed into the current (or previous) plan.
#[derive(Debug)]
pub struct Record {
    tasks: Vec<usize>,
}

impl View for Record {
    type V = Seq<usize>;

    closed spec fn view(&self) -> Seq<usize> {
        self.tasks@
    }
}

impl Default for Record {
    fn default() -> (r: Self)
        ensures
            r@ == Seq::<usize>::empty(),
    {
        Record { tasks: Vec::new() }
    }
}

impl Record {
    /// Appends the other record's entries; the other record is left as it was.
    pub fn extend(&mut self, other: &mut Record)
        ensures
            final(self)@ == old(self)@ + old(other)@,
            final(other)@ == old(other)@,
    {
        let mut i: usize = 0;
        while i < other.tasks.len()
            invariant
                i <= other.tasks.len(),
                self.tasks@ == old(self).tasks@ + other.tasks@.take(i as int),
                other.tasks@ == old(other).tasks@,
            decreases other.tasks.len() - i,
        {
            self.tasks.push(other.tasks[i]);
            proof {
                assert(other.tasks@.take(i + 1) =~= other.tasks@.take(i as int).push(
                    other.tasks@[i as int],
                ));
            }
            i = i + 1;
        }
        proof {
            assert(other.tasks@.take(other.tasks@.len() as int) =~= other.tasks@);
        }
    }

    pub fn add(&mut self, task_index: usize)
        ensures
            final(self)@ == old(self)@.push(task_index),
    {
        self.tasks.push(task_index);
    }

    pub fn is_empty(&self) -> (r: bool)
        ensures
            r == (self@.len() == 0),
    {
        self.tasks.len() == 0
    }

    pub fn clear(&mut self)
        ensures
            final(self)@ == Seq::<usize>::empty(),
    {
        self.tasks.clear();
    }
}

// ---------------------------------------------------------------------------
// The abstract fact store
// ---------------------------------------------------------------------------

/// The part of a context's state that decomposition reads and writes: the
/// fact map, the stack of open transaction logs, the paused flag and the
/// queue of task indices awaiting resumption.
pub struct CtxCore {
    pub vars: Map<Seq<char>, VariantView>,
    pub trans: Seq<Seq<Seq<char>>>,
    pub paused: bool,
    pub partial: Seq<usize>,
}

/// Abstract value of a whole [`ContextState`].
pub struct CtxView {
    pub core: CtxCore,
    pub exec_state: ExecutionState,
    pub dirty: bool,
    pub record: Seq<usize>,
    pub last_record: Seq<usize>,
}

/// Appends a key to the innermost open transaction log.
pub open spec fn log_push(tr: Seq<Seq<Seq<char>>>, k: Seq<char>) -> Seq<Seq<Seq<char>>> {
    tr.update(tr.len() - 1, tr.last().push(k))
}

/// A log with the first occurrence of `k` removed, if any.
pub open spec fn log_without(log: Seq<Seq<char>>, k: Seq<char>) -> Seq<Seq<char>>
    decreases log.len(),
{
    if log.len() == 0 {
        log
    } else if log[0] == k {
        log.drop_first()
    } else {
        seq![log[0]] + log_without(log.drop_first(), k)
    }
}

/// Upsert of one fact; the key is logged if it is new and a transaction is open.
pub open spec fn ctx_set(c: CtxCore, k: Seq<char>, v: VariantView) -> CtxCore {
    CtxCore {
        vars: c.vars.insert(k, v),
        trans: if !c.vars.contains_key(k) && c.trans.len() > 0 {
            log_push(c.trans, k)
        } else {
            c.trans
        },
        ..c
    }
}

/// Removal of one fact; a present key is un-logged from every open log, so
/// that no later rollback tries to erase a fact that is already gone.
pub open spec fn ctx_remove(c: CtxCore, k: Seq<char>) -> CtxCore {
    CtxCore {
        vars: c.vars.remove(k),
        trans: if c.vars.contains_key(k) {
            c.trans.map_values(|l: Seq<Seq<char>>| log_without(l, k))
        } else {
            c.trans
        },
        ..c
    }
}

/// Opens a fresh, empty transaction log.
pub open spec fn ctx_begin(c: CtxCore) -> CtxCore {
    CtxCore { trans: c.trans.push(Seq::empty()), ..c }
}

/// Drops the innermost log; stored facts are untouched.
pub open spec fn ctx_commit(c: CtxCore) -> CtxCore {
    CtxCore { trans: c.trans.drop_last(), ..c }
}

/// Undoes the innermost transaction: every key it logged is removed from the
/// store, then the log is dropped.
pub open spec fn ctx_rollback(c: CtxCore) -> CtxCore {
    CtxCore { vars: c.vars.remove_keys(c.trans.last().to_set()), trans: c.trans.drop_last(), ..c }
}

/// Coherence of the transaction logs: every logged key is still present in
/// the store, and no key is logged twice, in one log or across two. The
/// store's operations maintain this, so a rollback never tries to erase a
/// fact that is already gone.
pub open spec fn ctx_coherent(c: CtxCore) -> bool {
    &&& (forall|t: int, i: int|
        0 <= t < c.trans.len() && 0 <= i < c.trans[t].len() ==> c.vars.contains_key(
            #[trigger] c.trans[t][i],
        ))
    &&& (forall|t1: int, i1: int, t2: int, i2: int|
        #![trigger c.trans[t1][i1], c.trans[t2][i2]]
        0 <= t1 < c.trans.len() && 0 <= i1 < c.trans[t1].len() && 0 <= t2 < c.trans.len() && 0
            <= i2 < c.trans[t2].len() && (t1 != t2 || i1 != i2) ==> c.trans[t1][i1]
            != c.trans[t2][i2])
}

/// Transaction round-trip law: beginning a transaction, writing one fresh
/// key and rolling back leaves the whole store — fact map, transaction
/// stack, flags and queue — exactly as it was.
pub proof fn lemma_transaction_roundtrip(c: CtxCore, k: Seq<char>, v: VariantView)
    requires
        !c.vars.contains_key(k),
    ensures
        ctx_rollback(ctx_set(ctx_begin(c), k, v)) == c,
{
    let b = ctx_begin(c);
    let s2 = ctx_set(b, k, v);
    assert(s2.trans.last() =~= seq![k]);
    assert(s2.trans.last().to_set() =~= Set::<Seq<char>>::empty().insert(k)) by {
        assert(seq![k][0] == k);
        assert forall|x: Seq<char>| s2.trans.last().contains(x) implies x == k by {
            let w = choose|w: int| 0 <= w < seq![k].len() && #[trigger] seq![k][w] == x;
        }
    }
    assert(ctx_rollback(s2).vars =~= c.vars);
    assert(ctx_rollback(s2).trans =~= c.trans);
}

// ---------------------------------------------------------------------------
// The concrete fact store
// ---------------------------------------------------------------------------

spec fn log_view(l: Seq<String>) -> Seq<Seq<char>> {
    l.map_values(|s: String| s@)
}

spec fn logs_view(ts: Seq<Vec<String>>) -> Seq<Seq<Seq<char>>> {
    ts.map_values(|l: Vec<String>| log_view(l@))
}

spec fn distinct_keys(s: Seq<(String, Variant)>) -> bool {
    forall|i: int, j: int| 0 <= i < j < s.len() ==> s[i].0@ != s[j].0@
}

spec fn assoc_map(s: Seq<(String, Variant)>) -> Map<Seq<char>, VariantView>
    decreases s.len(),
{
    if s.len() == 0 {
        Map::empty()
    } else {
        assoc_map(s.drop_last()).insert(s.last().0@, s.last().1@)
    }
}

proof fn lemma_assoc_absent(s: Seq<(String, Variant)>, k: Seq<char>)
    requires
        forall|i: int| 0 <= i < s.len() ==> s[i].0@ != k,
    ensures
        !assoc_map(s).contains_key(k),
    decreases s.len(),
{
    if s.len() > 0 {
        lemma_assoc_absent(s.drop_last(), k);
    }
}

proof fn lemma_assoc_present(s: Seq<(String, Variant)>, i: int)
    requires
        distinct_keys(s),
        0 <= i < s.len(),
    ensures
        assoc_map(s).contains_key(s[i].0@),
        assoc_map(s)[s[i].0@] == s[i].1@,
    decreases s.len(),
{
    if i < s.len() - 1 {
        lemma_assoc_present(s.drop_last(), i);
    }
}

proof fn lemma_assoc_update(s: Seq<(String, Variant)>, i: int, p: (String, Variant))
    requires
        distinct_keys(s),
        0 <= i < s.len(),
        p.0@ == s[i].0@,
    ensures
        assoc_map(s.update(i, p)) =~= assoc_map(s).insert(p.0@, p.1@),
    decreases s.len(),
{
    let t = s.update(i, p);
    if i == s.len() - 1 {
        assert(t.drop_last() =~= s.drop_last());
    } else {
        assert(t.drop_last() =~= s.drop_last().update(i, p));
        lemma_assoc_update(s.drop_last(), i, p);
        assert(s.last().0@ != p.0@);
    }
}

proof fn lemma_assoc_remove(s: Seq<(String, Variant)>, i: int)
    requires
        distinct_keys(s),
        0 <= i < s.len(),
    ensures
        assoc_map(s.remove(i)) =~= assoc_map(s).remove(s[i].0@),
    decreases s.len(),
{
    let t = s.remove(i);
    if i == s.len() - 1 {
        assert(t =~= s.drop_last());
        lemma_assoc_absent_of_distinct(s.drop_last(), s[i].0@, s);
    } else {
        assert(t.drop_last() =~= s.drop_last().remove(i));
        lemma_assoc_remove(s.drop_last(), i);
        assert(s.last().0@ != s[i].0@);
    }
}

/// In a distinct association list, a key borne by the last entry is absent
/// from the rest, so removing it from the prefix map is a no-op.
proof fn lemma_assoc_absent_of_distinct(s: Seq<(String, Variant)>, k: Seq<char>, whole: Seq<
    (String, Variant),
>)
    requires
        distinct_keys(whole),
        whole.len() > 0,
        s =~= whole.drop_last(),
        k == whole.last().0@,
    ensures
        assoc_map(s).remove(k) =~= assoc_map(s),
{
    assert(forall|i: int| 0 <= i < s.len() ==> s[i].0@ != k);
    lemma_assoc_absent(s, k);
}

/// Finds the first entry bearing `key`, if any.
fn position_of(vars: &Vec<(String, Variant)>, key: &String) -> (r: Option<usize>)
    ensures
        match r {
            Some(i) => i < vars@.len() && vars@[i as int].0@ == key@,
            None => forall|i: int| 0 <= i < vars@.len() ==> vars@[i].0@ != key@,
        },
{
    let mut i: usize = 0;
    while i < vars.len()
        invariant
            i <= vars@.len(),
            forall|j: int| 0 <= j < i ==> vars@[j].0@ != key@,
        decreases vars@.len() - i,
    {
        if vars[i].0 == *key {
            return Some(i);
        }
        i = i + 1;
    }
    None
}

/// Finds the first occurrence of `key` in a transaction log, if any.
fn position_in_log(log: &Vec<String>, key: &String) -> (r: Option<usize>)
    ensures
        match r {
            Some(i) => i < log@.len() && log@[i as int]@ == key@ && (forall|j: int|
                0 <= j < i ==> log@[j]@ != key@),
            None => forall|i: int| 0 <= i < log@.len() ==> log@[i]@ != key@,
        },
{
    let mut i: usize = 0;
    while i < log.len()
        invariant
            i <= log@.len(),
            forall|j: int| 0 <= j < i ==> log@[j]@ != key@,
        decreases log@.len() - i,
    {
        if log[i] == *key {
            return Some(i);
        }
        i = i + 1;
    }
    None
}

/// Removing the first occurrence of a key from a log matches [`log_without`].
proof fn lemma_log_without(x: Seq<Seq<char>>, i: int, k: Seq<char>)
    requires
        0 <= i < x.len(),
        x[i] == k,
        forall|j: int| 0 <= j < i ==> x[j] != k,
    ensures
        x.remove(i) =~= log_without(x, k),
    decreases i,
{
    if i == 0 {
        assert(x.remove(0) =~= x.drop_first());
    } else {
        assert(x[0] != k);
        assert(x.drop_first()[i - 1] == k);
        lemma_log_without(x.drop_first(), i - 1, k);
        assert(x.remove(i) =~= seq![x[0]] + x.drop_first().remove(i - 1));
    }
}

/// Setting a fresh key keeps the logs coherent: the key was in no log, it
/// is logged once into the innermost log, and it is present afterwards.
proof fn lemma_coherent_after_fresh_set(c: CtxCore, k: Seq<char>, v: VariantView)
    requires
        ctx_coherent(c),
        !c.vars.contains_key(k),
    ensures
        ctx_coherent(ctx_set(c, k, v)),
{
    let d = ctx_set(c, k, v);
    assert forall|t: int, i: int|
        0 <= t < c.trans.len() && 0 <= i < c.trans[t].len() implies #[trigger] c.trans[t][i]
        != k by {
        assert(c.vars.contains_key(c.trans[t][i]));
    }
    if c.trans.len() > 0 {
        let n = c.trans.len() - 1;
        assert(d.trans[n] =~= c.trans[n].push(k));
        assert(forall|t: int| 0 <= t < n ==> d.trans[t] == c.trans[t]);
        assert forall|t: int, i: int|
            0 <= t < d.trans.len() && 0 <= i < d.trans[t].len() implies d.vars.contains_key(
            #[trigger] d.trans[t][i],
        ) by {
            if t == n && i == c.trans[n].len() {
                assert(d.trans[t][i] == k);
            } else {
                assert(d.trans[t][i] == c.trans[t][i]);
                assert(c.vars.contains_key(c.trans[t][i]));
            }
        }
        assert forall|t1: int, i1: int, t2: int, i2: int|
            #![trigger d.trans[t1][i1], d.trans[t2][i2]]
            0 <= t1 < d.trans.len() && 0 <= i1 < d.trans[t1].len() && 0 <= t2 < d.trans.len() && 0
            <= i2 < d.trans[t2].len() && (t1 != t2 || i1 != i2) implies d.trans[t1][i1]
            != d.trans[t2][i2] by {
            let is_new1 = t1 == n && i1 == c.trans[n].len();
            let is_new2 = t2 == n && i2 == c.trans[n].len();
            if is_new1 && !is_new2 {
                assert(d.trans[t2][i2] == c.trans[t2][i2]);
            } else if !is_new1 && is_new2 {
                assert(d.trans[t1][i1] == c.trans[t1][i1]);
            } else if !is_new1 && !is_new2 {
                assert(d.trans[t1][i1] == c.trans[t1][i1]);
                assert(d.trans[t2][i2] == c.trans[t2][i2]);
            }
        }
    }
}

/// The per-agent fact store and planner bookkeeping.
///
/// Facts are an association from string keys to [`Variant`] values, together
/// with a stack of transaction logs: each open transaction records the keys
/// first written while it was innermost, so that a rollback can erase them.
#[derive(Debug)]
pub struct ContextState {
    pub(crate) exec_state: ExecutionState,
    pub(crate) record: Record,
    pub(crate) last_record: Record,
    pub(crate) partial_queue: VecDeque<usize>,
    pub(crate) paused: bool,
    pub(crate) dirty: bool,
    vars: Vec<(String, Variant)>,
    transactions: Vec<Vec<String>>,
}

impl View for ContextState {
    type V = CtxView;

    closed spec fn view(&self) -> CtxView {
        CtxView {
            core: CtxCore {
                vars: assoc_map(self.vars@),
                trans: logs_view(self.transactions@),
                paused: self.paused,
                partial: self.partial_queue@,
            },
            exec_state: self.exec_state,
            dirty: self.dirty,
            record: self.record@,
            last_record: self.last_record@,
        }
    }
}

impl Default for ContextState {
    fn default() -> (r: Self)
        ensures
            r.well_formed(),
            r@ == initial_ctx(false),
    {
        let r = ContextState {
            exec_state: ExecutionState::Planning,
            record: Record::default(),
            last_record: Record::default(),
            partial_queue: VecDeque::new(),
            paused: false,
            dirty: false,
            vars: Vec::new(),
            transactions: Vec::new(),
        };
        proof {
            assert(r@.core.vars =~= initial_ctx(false).core.vars);
            assert(r@.core.trans =~= initial_ctx(false).core.trans);
        }
        r
    }
}

/// The state of a freshly made context: no facts, no open transaction,
/// nothing recorded, not paused, execution state `Planning`.
pub open spec fn initial_ctx(dirty: bool) -> CtxView {
    CtxView {
        core: CtxCore {
            vars: Map::empty(),
            trans: Seq::empty(),
            paused: false,
            partial: Seq::empty(),
        },
        exec_state: ExecutionState::Planning,
        dirty: dirty,
        record: Seq::empty(),
        last_record: Seq::empty(),
    }
}

impl ContextState {
    /// The store never holds two entries for one key, and the open
    /// transaction logs are coherent with the stored facts.
    pub closed spec fn well_formed(&self) -> bool {
        distinct_keys(self.vars@) && ctx_coherent(self@.core)
    }

    /// How many transactions are currently open.
    pub fn transaction_depth(&self) -> (r: usize)
        ensures
            r == self@.core.trans.len(),
    {
        self.transactions.len()
    }

    /// Whether the host has marked the context dirty, forcing a replan.
    pub fn dirty(&self) -> (r: bool)
        ensures
            r == self@.dirty,
    {
        self.dirty
    }

    /// Marks or clears the dirty flag.
    pub fn set_dirty(&mut self, dirty: bool)
        ensures
            final(self)@ == (CtxView { dirty, ..old(self)@ }),
            final(self).well_formed() == old(self).well_formed(),
    {
        self.dirty = dirty;
    }

    /// Whether a partial decomposition is waiting to be resumed.
    pub fn paused(&self) -> (r: bool)
        ensures
            r == self@.core.paused,
    {
        self.paused
    }

    /// The current execution state.
    pub fn exec_state(&self) -> (r: ExecutionState)
        ensures
            r == self@.exec_state,
    {
        self.exec_state
    }

    /// Moves the previous record into the live record, clearing the source.
    pub fn dump_into_record(&mut self)
        ensures
            final(self)@ == (CtxView {
                record: old(self)@.last_record,
                last_record: Seq::empty(),
                ..old(self)@
            }),
            final(self).well_formed() == old(self).well_formed(),
    {
        self.record.clear();
        self.record.extend(&mut self.last_record);
        self.last_record.clear();
    }

    /// Moves the live record into the previous record, clearing the source.
    pub fn dump_into_last_record(&mut self)
        ensures
            final(self)@ == (CtxView {
                record: Seq::empty(),
                last_record: old(self)@.record,
                ..old(self)@
            }),
            final(self).well_formed() == old(self).well_formed(),
    {
        self.last_record.clear();
        self.last_record.extend(&mut self.record);
        self.record.clear();
    }

    /// Inserts a fact under a key that must not yet exist, logging the key in
    /// the innermost open transaction.
    pub fn add(&mut self, key: &str, variant: Variant)
        requires
            old(self).well_formed(),
            !old(self)@.core.vars.contains_key(key@),
        ensures
            final(self).well_formed(),
            final(self)@ == (CtxView {
                core: ctx_set(old(self)@.core, key@, variant@),
                ..old(self)@
            }),
    {
        proof {
            assert forall|i: int| 0 <= i < self.vars@.len() implies self.vars@[i].0@ != key@ by {
                lemma_assoc_present(self.vars@, i);
            }
        }
        let ghost before = self.vars@;
        self.vars.push((key.to_owned(), variant));
        proof {
            assert(self.vars@.drop_last() =~= before);
            assert(distinct_keys(self.vars@));
        }
        self.log_key_if_open(key);
        proof {
            lemma_coherent_after_fresh_set(old(self)@.core, key@, variant@);
        }
    }

    /// Upserts a fact; the key is logged only if this is its first write
    /// since the innermost transaction opened.
    pub fn set(&mut self, key: &str, variant: Variant)
        requires
            old(self).well_formed(),
        ensures
            final(self).well_formed(),
            final(self)@ == (CtxView {
                core: ctx_set(old(self)@.core, key@, variant@),
                ..old(self)@
            }),
    {
        let owned = key.to_owned();
        match position_of(&self.vars, &owned) {
            Some(i) => {
                proof {
                    lemma_assoc_present(self.vars@, i as int);
                    lemma_assoc_update(self.vars@, i as int, (owned, variant));
                }
                let ghost before = self.vars@;
                self.vars[i] = (owned, variant);
                proof {
                    assert(distinct_keys(self.vars@)) by {
                        assert(forall|j: int|
                            0 <= j < self.vars@.len() ==> self.vars@[j].0@ == before[j].0@);
                    }
                    assert(ctx_coherent(self@.core)) by {
                        assert(self@.core.trans == old(self)@.core.trans);
                        assert(forall|x: Seq<char>|
                            old(self)@.core.vars.contains_key(x)
                                ==> self@.core.vars.contains_key(x));
                    }
                }
            },
            None => {
                proof {
                    lemma_assoc_absent(self.vars@, key@);
                }
                let ghost before = self.vars@;
                self.vars.push((owned, variant));
                proof {
                    assert(self.vars@.drop_last() =~= before);
                    assert(distinct_keys(self.vars@));
                }
                self.log_key_if_open(key);
                proof {
                    lemma_coherent_after_fresh_set(old(self)@.core, key@, variant@);
                }
            },
        }
    }

    /// Reads a fact.
    pub fn get(&self, key: &str) -> (r: Option<&Variant>)
        requires
            self.well_formed(),
        ensures
            match r {
                Some(v) => self@.core.vars.contains_key(key@) && v@ == self@.core.vars[key@],
                None => !self@.core.vars.contains_key(key@),
            },
    {
        let owned = key.to_owned();
        match position_of(&self.vars, &owned) {
            Some(i) => {
                proof {
                    lemma_assoc_present(self.vars@, i as int);
                }
                Some(&self.vars[i].1)
            },
            None => {
                proof {
                    lemma_assoc_absent(self.vars@, key@);
                }
                None
            },
        }
    }

    /// Deletes a fact if present, un-logging it from every open
    /// transaction log, so that no later rollback tries to erase it again.
    pub fn remove(&mut self, key: &str)
        requires
            old(self).well_formed(),
        ensures
            final(self).well_formed(),
            final(self)@ == (CtxView {
                core: ctx_remove(old(self)@.core, key@),
                ..old(self)@
            }),
    {
        let owned = key.to_owned();
        match position_of(&self.vars, &owned) {
            Some(i) => {
                proof {
                    lemma_assoc_present(self.vars@, i as int);
                    lemma_assoc_remove(self.vars@, i as int);
                }
                let ghost before = self.vars@;
                self.vars.remove(i);
                proof {
                    assert(distinct_keys(self.vars@)) by {
                        assert(forall|j: int|
                            0 <= j < self.vars@.len() ==> #[trigger] self.vars@[j] == if j < i {
                                before[j]
                            } else {
                                before[j + 1]
                            });
                    }
                }
                self.unlog_key(key);
                proof {
                    let oldc = old(self)@.core;
                    let newc = self@.core;
                    assert forall|t: int|
                        0 <= t < oldc.trans.len() implies log_coherence_kept(
                        oldc.trans[t],
                        key@,
                    ) by {
                        assert(forall|i1: int, j1: int|
                            0 <= i1 < j1 < oldc.trans[t].len() ==> oldc.trans[t][i1]
                                != oldc.trans[t][j1]);
                        lemma_log_without_of_unique(oldc.trans[t], key@);
                    }
                    assert(ctx_coherent(newc)) by {
                        assert forall|t: int, i1: int|
                            0 <= t < newc.trans.len() && 0 <= i1 < newc.trans[t].len() implies
                        newc.vars.contains_key(#[trigger] newc.trans[t][i1]) by {
                            let x = newc.trans[t][i1];
                            assert(x != key@ && oldc.trans[t].contains(x));
                            let w = choose|w: int|
                                0 <= w < oldc.trans[t].len() && oldc.trans[t][w] == x;
                            assert(oldc.vars.contains_key(x));
                        }
                        assert forall|t1: int, i1: int, t2: int, i2: int|
                            0 <= t1 < newc.trans.len() && 0 <= i1 < newc.trans[t1].len() && 0 <= t2
                            < newc.trans.len() && 0 <= i2 < newc.trans[t2].len() && (t1 != t2 || i1
                            != i2) implies #[trigger] newc.trans[t1][i1] != #[trigger] newc.trans[t2][i2] by {
                            if t1 == t2 {
                            } else {
                                let x = newc.trans[t1][i1];
                                let y = newc.trans[t2][i2];
                                assert(oldc.trans[t1].contains(x) && oldc.trans[t2].contains(y));
                                let w1 = choose|w: int|
                                    0 <= w < oldc.trans[t1].len() && oldc.trans[t1][w] == x;
                                let w2 = choose|w: int|
                                    0 <= w < oldc.trans[t2].len() && oldc.trans[t2][w] == y;
                                assert(oldc.trans[t1][w1] != oldc.trans[t2][w2]);
                            }
                        }
                    }
                }
            },
            None => {
                proof {
                    lemma_assoc_absent(self.vars@, key@);
                    assert(self@.core.vars =~= self@.core.vars.remove(key@));
                }
            },
        }
    }

    /// Tests a fact against a value: `None` if the key is absent, else
    /// whether the stored value equals the given one.
    pub fn test_value(&self, key: &str, value: &Variant) -> (r: Option<bool>)
        requires
            self.well_formed(),
        ensures
            match r {
                Some(b) => self@.core.vars.contains_key(key@) && b == (self@.core.vars[key@]
                    == value@),
                None => !self@.core.vars.contains_key(key@),
            },
    {
        match self.get(key) {
            Some(this_value) => Some(*this_value == *value),
            None => None,
        }
    }

    /// Opens a new transaction with an empty key log.
    pub fn begin_transaction(&mut self)
        requires
            old(self).well_formed(),
        ensures
            final(self).well_formed(),
            final(self)@ == (CtxView { core: ctx_begin(old(self)@.core), ..old(self)@ }),
    {
        self.transactions.push(Vec::new());
        proof {
            assert(logs_view(self.transactions@) =~~= ctx_begin(old(self)@.core).trans);
        }
    }

    /// Undoes the innermost transaction: removes every key it logged from the
    /// store, then drops the log.
    pub fn rollback_transaction(&mut self)
        requires
            old(self).well_formed(),
            old(self)@.core.trans.len() > 0,
        ensures
            final(self).well_formed(),
            final(self)@ == (CtxView { core: ctx_rollback(old(self)@.core), ..old(self)@ }),
    {
        let ghost all = old(self)@.core.trans.last();
        let log = match self.transactions.pop() {
            Some(l) => l,
            None => {
                proof {
                    assert(false);
                }
                Vec::new()
            },
        };
        proof {
            assert(log_view(log@) =~= all);
            assert(logs_view(self.transactions@) =~~= old(self)@.core.trans.drop_last());
        }
        let ghost popped_view = self@;
        proof {
            assert(all.take(0).to_set() =~= Set::<Seq<char>>::empty());
            assert(popped_view.core.vars.remove_keys(all.take(0).to_set())
                =~= popped_view.core.vars);
        }
        let mut j: usize = 0;
        while j < log.len()
            invariant
                j <= log@.len(),
                log_view(log@) =~= all,
                distinct_keys(self.vars@),
                forall|i: int, m: int| 0 <= i < m < all.len() ==> all[i] != all[m],
                forall|i: int| 0 <= i < all.len() ==> popped_view.core.vars.contains_key(all[i]),
                self@ == (CtxView {
                    core: CtxCore {
                        vars: popped_view.core.vars.remove_keys(
                            all.take(j as int).to_set(),
                        ),
                        ..popped_view.core
                    },
                    ..popped_view
                }),
            decreases log@.len() - j,
        {
            let ghost prev_vars = self@.core.vars;
            let ghost k = all[j as int];
            proof {
                assert(log@[j as int]@ == k);
                assert forall|w: int| 0 <= w < j implies all.take(j as int)[w] != k by {
                    assert(all.take(j as int)[w] == all[w]);
                }
                assert(!all.take(j as int).to_set().contains(k));
                assert(prev_vars.contains_key(k));
            }
            match position_of(&self.vars, &log[j]) {
                Some(i) => {
                    proof {
                        lemma_assoc_present(self.vars@, i as int);
                        lemma_assoc_remove(self.vars@, i as int);
                    }
                    let ghost before = self.vars@;
                    let ghost ii = i as int;
                    self.vars.remove(i);
                    proof {
                        assert(distinct_keys(self.vars@)) by {
                            assert(forall|m: int|
                                0 <= m < self.vars@.len() ==> #[trigger] self.vars@[m] == if m
                                    < ii {
                                    before[m]
                                } else {
                                    before[m + 1]
                                });
                        }
                    }
                },
                None => {
                    proof {
                        lemma_assoc_absent(self.vars@, k);
                        assert(false);
                    }
                },
            }
            proof {
                assert(all.take(j + 1).to_set() =~= all.take(j as int).to_set().insert(k)) by {
                    assert forall|x: Seq<char>| all.take(j + 1).contains(x) implies (all.take(
                        j as int,
                    ).contains(x) || x == k) by {
                        let w = choose|w: int| 0 <= w < j + 1 && #[trigger] all.take(j + 1)[w] == x;
                        if w < j {
                            assert(all.take(j as int)[w] == x);
                        }
                    }
                    assert forall|x: Seq<char>| all.take(j as int).contains(x) implies all.take(
                        j + 1,
                    ).contains(x) by {
                        let w = choose|w: int| 0 <= w < j && #[trigger] all.take(j as int)[w] == x;
                        assert(all.take(j + 1)[w] == x);
                    }
                    assert(all.take(j + 1)[j as int] == k);
                    assert(all.take(j + 1).contains(k));
                }
                assert(self@.core.vars =~= popped_view.core.vars.remove_keys(
                    all.take(j + 1).to_set(),
                ));
            }
            j = j + 1;
        }
        proof {
            assert(all.take(all.len() as int) =~= all);
            assert(final(self)@ == (CtxView {
                core: ctx_rollback(old(self)@.core),
                ..old(self)@
            }));
            let oldc = old(self)@.core;
            let newc = self@.core;
            let n = oldc.trans.len() - 1;
            assert(newc.trans == oldc.trans.drop_last());
            assert(forall|t: int| 0 <= t < n ==> newc.trans[t] == oldc.trans[t]);
            assert forall|t: int, i: int|
                0 <= t < newc.trans.len() && 0 <= i < newc.trans[t].len() implies
            newc.vars.contains_key(#[trigger] newc.trans[t][i]) by {
                let x = newc.trans[t][i];
                assert(x == oldc.trans[t][i]);
                assert(oldc.vars.contains_key(x));
                if all.contains(x) {
                    let w = choose|w: int| 0 <= w < all.len() && #[trigger] all[w] == x;
                    assert(oldc.trans[n][w] == x);
                    assert(oldc.trans[t][i] != oldc.trans[n][w]);
                }
                assert(!all.to_set().contains(x));
            }
            assert forall|t1: int, i1: int, t2: int, i2: int|
                #![trigger newc.trans[t1][i1], newc.trans[t2][i2]]
                0 <= t1 < newc.trans.len() && 0 <= i1 < newc.trans[t1].len() && 0 <= t2
                < newc.trans.len() && 0 <= i2 < newc.trans[t2].len() && (t1 != t2 || i1 != i2)
                implies newc.trans[t1][i1] != newc.trans[t2][i2] by {
                assert(newc.trans[t1][i1] == oldc.trans[t1][i1]);
                assert(newc.trans[t2][i2] == oldc.trans[t2][i2]);
            }
            assert(ctx_coherent(newc));
        }
    }

    /// Closes the innermost transaction, keeping every stored fact.
    pub fn commit_transaction(&mut self)
        requires
            old(self).well_formed(),
            old(self)@.core.trans.len() > 0,
        ensures
            final(self).well_formed(),
            final(self)@ == (CtxView { core: ctx_commit(old(self)@.core), ..old(self)@ }),
    {
        self.transactions.pop();
        proof {
            assert(logs_view(self.transactions@) =~~= old(self)@.core.trans.drop_last());
        }
    }

    /// Sets or clears the paused flag.
    pub fn set_paused(&mut self, paused: bool)
        requires
            old(self).well_formed(),
        ensures
            final(self).well_formed(),
            final(self)@ == (CtxView {
                core: (CtxCore { paused, ..old(self)@.core }),
                ..old(self)@
            }),
    {
        self.paused = paused;
    }

    /// Appends a task index to the queue awaiting resumption.
    pub fn push_partial(&mut self, index: usize)
        requires
            old(self).well_formed(),
        ensures
            final(self).well_formed(),
            final(self)@ == (CtxView {
                core: (CtxCore {
                    partial: old(self)@.core.partial.push(index),
                    ..old(self)@.core
                }),
                ..old(self)@
            }),
    {
        self.partial_queue.push_back(index);
    }

    /// Takes the next queued task index, oldest first.
    pub fn pop_partial(&mut self) -> (r: Option<usize>)
        requires
            old(self).well_formed(),
        ensures
            final(self).well_formed(),
            match r {
                Some(i) => old(self)@.core.partial.len() > 0 && i == old(self)@.core.partial[0]
                    && final(self)@ == (CtxView {
                    core: (CtxCore {
                        partial: old(self)@.core.partial.drop_first(),
                        ..old(self)@.core
                    }),
                    ..old(self)@
                }),
                None => old(self)@.core.partial.len() == 0 && final(self)@ == old(self)@,
            },
    {
        let r = self.partial_queue.pop_front();
        proof {
            if old(self)@.core.partial.len() > 0 {
                assert(self@.core.partial =~= old(self)@.core.partial.drop_first());
            }
        }
        r
    }

    /// How many task indices await resumption.
    pub fn partial_len(&self) -> (r: usize)
        ensures
            r == self@.core.partial.len(),
    {
        self.partial_queue.len()
    }

    /// A copy of the queue of task indices awaiting resumption.
    pub fn partial_clone(&self) -> (r: VecDeque<usize>)
        ensures
            r@ == self@.core.partial,
    {
        let mut r: VecDeque<usize> = VecDeque::new();
        let mut i: usize = 0;
        while i < self.partial_queue.len()
            invariant
                i <= self.partial_queue@.len(),
                r@ == self.partial_queue@.take(i as int),
            decreases self.partial_queue@.len() - i,
        {
            r.push_back(self.partial_queue[i]);
            proof {
                assert(self.partial_queue@.take(i + 1) =~= self.partial_queue@.take(
                    i as int,
                ).push(self.partial_queue@[i as int]));
            }
            i = i + 1;
        }
        proof {
            assert(self.partial_queue@.take(self.partial_queue@.len() as int)
                =~= self.partial_queue@);
        }
        r
    }

    /// Replaces the queue of task indices awaiting resumption.
    pub fn set_partial(&mut self, queue: VecDeque<usize>)
        requires
            old(self).well_formed(),
        ensures
            final(self).well_formed(),
            final(self)@ == (CtxView {
                core: (CtxCore { partial: queue@, ..old(self)@.core }),
                ..old(self)@
            }),
    {
        self.partial_queue = queue;
    }

    /// Empties the live record.
    pub fn clear_record(&mut self)
        requires
            old(self).well_formed(),
        ensures
            final(self).well_formed(),
            final(self)@ == (CtxView { record: Seq::empty(), ..old(self)@ }),
    {
        self.record.clear();
    }

    /// Empties the previous record.
    pub fn clear_last_record(&mut self)
        requires
            old(self).well_formed(),
        ensures
            final(self).well_formed(),
            final(self)@ == (CtxView { last_record: Seq::empty(), ..old(self)@ }),
    {
        self.last_record.clear();
    }

    /// Whether the previous record is empty.
    pub fn last_record_is_empty(&self) -> (r: bool)
        ensures
            r == (self@.last_record.len() == 0),
    {
        self.last_record.is_empty()
    }

    /// Sets the execution state.
    pub fn set_exec_state(&mut self, exec_state: ExecutionState)
        requires
            old(self).well_formed(),
        ensures
            final(self).well_formed(),
            final(self)@ == (CtxView { exec_state, ..old(self)@ }),
    {
        self.exec_state = exec_state;
    }

    /// Appends the key to the innermost open log, if any.
    fn log_key_if_open(&mut self, key: &str)
        ensures
            final(self).vars == old(self).vars,
            final(self)@ == (CtxView {
                core: CtxCore {
                    trans: if old(self)@.core.trans.len() > 0 {
                        log_push(old(self)@.core.trans, key@)
                    } else {
                        old(self)@.core.trans
                    },
                    ..old(self)@.core
                },
                ..old(self)@
            }),
    {
        let n = self.transactions.len();
        if n > 0 {
            self.transactions[n - 1].push(key.to_owned());
            proof {
                assert(logs_view(self.transactions@) =~~= log_push(old(self)@.core.trans, key@));
            }
        }
    }

    /// Removes the first occurrence of the key from every open log.
    fn unlog_key(&mut self, key: &str)
        ensures
            final(self).vars == old(self).vars,
            final(self)@ == (CtxView {
                core: CtxCore {
                    trans: old(self)@.core.trans.map_values(
                        |l: Seq<Seq<char>>| log_without(l, key@),
                    ),
                    ..old(self)@.core
                },
                ..old(self)@
            }),
    {
        let owned = key.to_owned();
        let ghost orig = old(self)@.core.trans;
        let n = self.transactions.len();
        let mut t: usize = 0;
        while t < n
            invariant
                owned@ == key@,
                n == self.transactions@.len(),
                t <= n,
                *self == (ContextState { transactions: self.transactions, ..*old(self) }),
                self@.core.trans.len() == orig.len(),
                forall|u: int|
                    0 <= u < t ==> self@.core.trans[u] == log_without(#[trigger] orig[u], key@),
                forall|u: int| t <= u < n ==> self@.core.trans[u] == #[trigger] orig[u],
            decreases n - t,
        {
            let ghost lv = log_view(self.transactions@[t as int]@);
            let log_ref = &self.transactions[t];
            proof {
                assert(log_ref@ =~= self.transactions@[t as int]@);
                assert(log_view(log_ref@) =~= lv);
            }
            match position_in_log(log_ref, &owned) {
                Some(i) => {
                    proof {
                        assert(lv[i as int] == key@);
                        assert(forall|j: int| 0 <= j < i ==> lv[j] != key@);
                        lemma_log_without(lv, i as int, key@);
                    }
                    self.transactions[t].remove(i);
                },
                None => {
                    proof {
                        assert(forall|j: int| 0 <= j < lv.len() ==> lv[j] != key@);
                        lemma_log_without_absent(lv, key@);
                    }
                },
            }
            t = t + 1;
        }
        proof {
            assert(self@.core.trans =~~= orig.map_values(|l: Seq<Seq<char>>| log_without(l, key@)));
        }
    }
}

/// After removing `k` from a duplicate-free log, the log is still
/// duplicate-free, holds no `k`, and holds only keys it held before.
proof fn lemma_log_without_of_unique(l: Seq<Seq<char>>, k: Seq<char>)
    requires
        forall|i: int, j: int| 0 <= i < j < l.len() ==> l[i] != l[j],
    ensures
        log_coherence_kept(l, k),
    decreases l.len(),
{
    let r = log_without(l, k);
    if l.len() == 0 {
    } else if l[0] == k {
        assert(r =~= l.drop_first());
        assert forall|j: int| 0 <= j < r.len() implies r[j] != k && l.contains(r[j]) by {
            assert(r[j] == l[j + 1]);
        }
    } else {
        let rest = l.drop_first();
        assert(forall|i: int, j: int| 0 <= i < j < rest.len() ==> rest[i] != rest[j]);
        lemma_log_without_of_unique(rest, k);
        assert(r =~= seq![l[0]] + log_without(rest, k));
        assert forall|j: int| 0 <= j < r.len() implies r[j] != k && l.contains(r[j]) by {
            if j == 0 {
                assert(l[0] != k);
            } else {
                assert(r[j] == log_without(rest, k)[j - 1]);
                assert(rest.contains(r[j]));
                let w = choose|w: int| 0 <= w < rest.len() && rest[w] == r[j];
                assert(l[w + 1] == r[j]);
            }
        }
        assert forall|i: int, j: int| 0 <= i < j < r.len() implies r[i] != r[j] by {
            if i == 0 {
                assert(rest.contains(r[j]));
                let w = choose|w: int| 0 <= w < rest.len() && rest[w] == r[j];
                assert(l[0] != l[w + 1]);
            }
        }
    }
}

/// What [`lemma_log_without_of_unique`] establishes of one log.
spec fn log_coherence_kept(l: Seq<Seq<char>>, k: Seq<char>) -> bool {
    &&& (forall|i: int, j: int|
        0 <= i < j < log_without(l, k).len() ==> log_without(l, k)[i] != log_without(l, k)[j])
    &&& (forall|j: int|
        0 <= j < log_without(l, k).len() ==> log_without(l, k)[j] != k && l.contains(
            #[trigger] log_without(l, k)[j],
        ))
}

/// A log without any occurrence of `k` is unchanged by [`log_without`].
proof fn lemma_log_without_absent(x: Seq<Seq<char>>, k: Seq<char>)
    requires
        forall|i: int| 0 <= i < x.len() ==> x[i] != k,
    ensures
        log_without(x, k) =~= x,
    decreases x.len(),
{
    if x.len() > 0 {
        assert(x.drop_first() =~= x.subrange(1, x.len() as int));
        lemma_log_without_absent(x.drop_first(), k);
        assert(log_without(x, k) =~= seq![x[0]] + x.drop_first());
    }
}

/// The fact store of one agent ("being"): a [`ContextState`] created dirty so
/// that the first tick plans immediately.
#[derive(Debug)]
pub struct BeingContext {
    pub(crate) state: ContextState,
}

impl View for BeingContext {
    type V = CtxView;

    closed spec fn view(&self) -> CtxView {
        self.state@
    }
}

impl BeingContext {
    /// Validity of the underlying store.
    pub closed spec fn well_formed(&self) -> bool {
        self.state.well_formed()
    }

    pub fn new() -> (r: BeingContext)
        ensures
            r.well_formed(),
            r@ == initial_ctx(true),
    {
        let mut state = ContextState::default();
        state.set_dirty(true);
        BeingContext { state }
    }

    /// Read access to the underlying store.
    pub fn state(&self) -> (r: &ContextState)
        ensures
            r@ == self@,
            r.well_formed() == self.well_formed(),
    {
        &self.state
    }

    /// Write access to the underlying store.
    pub fn state_mut(&mut self) -> (r: &mut ContextState)
        ensures
            (*r)@ == old(self)@,
            r.well_formed() == old(self).well_formed(),
            final(self)@ == (*final(r))@,
            final(self).well_formed() == final(r).well_formed(),
    {
        &mut self.state
    }
}

impl Default for BeingContext {
    fn default() -> (r: Self)
        ensures
            r.well_formed(),
            r@ == initial_ctx(false),
    {
        BeingContext { state: ContextState::default() }
    }
}

} // verus!
