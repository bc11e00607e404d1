use vstd::prelude::*;
use crate::bytefile::{empty_file, range_of, spliced, FileView, NFTPFile};
use crate::error::BridgeError;
use crate::identity::Identity;
use crate::ledger::{
    cost, growth_outcome, grown, release_outcome, settle_growth, settle_release, Measurement,
};

verus! {

/// One instance of the file store: whether it has been booted, the identity it
/// was built for, and its files by name, in the order in which they were created.
pub struct NFTPBridge {
    booted: bool,
    owner_pk: Identity,
    entries: Vec<(String, NFTPFile)>,
}

/// The mathematical value of an [`NFTPBridge`]. `files[i]` is stored under `names[i]`.
pub struct BridgeView {
    pub booted: bool,
    pub owner: Seq<u8>,
    pub names: Seq<Seq<char>>,
    pub files: Seq<FileView>,
}

impl BridgeView {
    /// Every file has one name, and no name is bound twice.
    pub open spec fn wf(self) -> bool {
        self.names.len() == self.files.len() && self.names.no_duplicates()
    }

    /// Whether a file is stored under `name`.
    pub open spec fn has(self, name: Seq<char>) -> bool {
        self.names.contains(name)
    }

    /// The place of `name` among the names.
    pub open spec fn slot(self, name: Seq<char>) -> int {
        self.names.index_of(name)
    }

    /// The file stored under `name`.
    pub open spec fn file_of(self, name: Seq<char>) -> FileView
        recommends
            self.has(name),
    {
        self.files[self.slot(name)]
    }

    /// The instance once booted.
    pub open spec fn started(self) -> BridgeView {
        BridgeView { booted: true, ..self }
    }

    /// The instance with `file` stored under the new name `name`, after all others.
    pub open spec fn inserted(self, name: Seq<char>, file: FileView) -> BridgeView {
        BridgeView { names: self.names.push(name), files: self.files.push(file), ..self }
    }

    /// The instance with the bytes of the file under `name` replaced by `data`.
    pub open spec fn rewritten(self, name: Seq<char>, data: Seq<u8>) -> BridgeView
        recommends
            self.has(name),
    {
        BridgeView {
            files: self.files.update(
                self.slot(name),
                FileView { data, ..self.files[self.slot(name)] },
            ),
            ..self
        }
    }

    /// The instance without the file under `name`; the others keep their order.
    pub open spec fn removed(self, name: Seq<char>) -> BridgeView
        recommends
            self.has(name),
    {
        BridgeView {
            names: self.names.remove(self.slot(name)),
            files: self.files.remove(self.slot(name)),
            ..self
        }
    }
}

/// Whether `caller` may boot the instance `v`: only the owner, and only once.
pub open spec fn boot_outcome(v: BridgeView, caller: Seq<u8>) -> Result<(), BridgeError> {
    if caller != v.owner {
        Err(BridgeError::InvalidSigner)
    } else if v.booted {
        Err(BridgeError::AlreadyBooted)
    } else {
        Ok(())
    }
}

/// What a write of `buf` at `offset` into the file under `name` returns.
pub open spec fn write_outcome(
    v: BridgeView,
    name: Seq<char>,
    offset: usize,
    payment: u128,
    m: Measurement,
) -> Result<u128, BridgeError> {
    if !v.has(name) {
        Err(BridgeError::UnknownFile)
    } else if offset > v.file_of(name).data.len() {
        Err(BridgeError::OffsetOutOfRange)
    } else {
        growth_outcome(payment, m)
    }
}

/// One call on an instance, by the values it is made with.
pub enum Call {
    Boot { caller: Seq<u8> },
    Create { name: Seq<char>, mode: u64, dev: u64, payment: u128, m: Measurement },
    Write { name: Seq<char>, offset: usize, buf: Seq<u8>, payment: u128, m: Measurement },
    Delete { name: Seq<char>, payment: u128, m: Measurement },
}

/// Whether the call `c`, made on `v`, is a boot that succeeds.
pub open spec fn boots_up(v: BridgeView, c: Call) -> bool {
    match c {
        Call::Boot { caller } => boot_outcome(v, caller) is Ok,
        _ => false,
    }
}

/// The instance that the call `c` leaves when it is made on `v`. A rejected
/// call leaves `v`.
pub open spec fn step(v: BridgeView, c: Call) -> BridgeView {
    match c {
        Call::Boot { caller } => if boot_outcome(v, caller) is Ok {
            v.started()
        } else {
            v
        },
        Call::Create { name, mode, dev, payment, m } => if !v.has(name) && growth_outcome(
            payment,
            m,
        ) is Ok {
            v.inserted(name, empty_file(mode, dev))
        } else {
            v
        },
        Call::Write { name, offset, buf, payment, m } => if write_outcome(
            v,
            name,
            offset,
            payment,
            m,
        ) is Ok {
            v.rewritten(name, spliced(v.file_of(name).data, offset as int, buf))
        } else {
            v
        },
        Call::Delete { name, payment, m } => if v.has(name) && release_outcome(payment, m) is Ok {
            v.removed(name)
        } else {
            v
        },
    }
}

/// The instance that `calls`, made in order on `v`, leave.
pub open spec fn run(v: BridgeView, calls: Seq<Call>) -> BridgeView
    decreases calls.len(),
{
    if calls.len() == 0 {
        v
    } else {
        step(run(v, calls.drop_last()), calls.last())
    }
}

/// How many of `calls`, made in order on `v`, are boots that succeed.
pub open spec fn boots(v: BridgeView, calls: Seq<Call>) -> nat
    decreases calls.len(),
{
    if calls.len() == 0 {
        0
    } else if boots_up(run(v, calls.drop_last()), calls.last()) {
        boots(v, calls.drop_last()) + 1
    } else {
        boots(v, calls.drop_last())
    }
}

/// The names in `entries`, as values.
pub open spec fn names_of(entries: Seq<(String, NFTPFile)>) -> Seq<Seq<char>> {
    Seq::new(entries.len(), |i: int| entries[i].0@)
}

/// The files in `entries`, as values.
pub open spec fn files_of(entries: Seq<(String, NFTPFile)>) -> Seq<FileView> {
    Seq::new(entries.len(), |i: int| entries[i].1@)
}

impl View for NFTPBridge {
    type V = BridgeView;

    closed spec fn view(&self) -> BridgeView {
        BridgeView {
            booted: self.booted,
            owner: self.owner_pk@,
            names: names_of(self.entries@),
            files: files_of(self.entries@),
        }
    }
}

/// Whether no name occurs twice in `entries`.
fn all_distinct(entries: &Vec<(String, NFTPFile)>) -> (distinct: bool)
    ensures
        distinct == names_of(entries@).no_duplicates(),
{
    let ghost names = names_of(entries@);
    let mut i: usize = 0;
    while i < entries.len()
        invariant
            names == names_of(entries@),
            i <= entries@.len(),
            forall|a: int, b: int| 0 <= a < b < i ==> names[a] != names[b],
        decreases entries@.len() - i,
    {
        let mut j: usize = 0;
        while j < i
            invariant
                names == names_of(entries@),
                j <= i < entries@.len(),
                forall|a: int| 0 <= a < j ==> names[a] != names[i as int],
            decreases i - j,
        {
            if entries[j].0 == entries[i].0 {
                assert(names[j as int] == names[i as int]);
                return false;
            }
            j += 1;
        }
        i += 1;
    }
    assert forall|a: int, b: int|
        0 <= a < names.len() && 0 <= b < names.len() && a != b implies names[a] != names[b] by {
        if a < b {
        } else {
            assert(names[b] != names[a]);
        }
    }
    true
}

impl NFTPBridge {
    #[verifier::type_invariant]
    spec fn inv(&self) -> bool {
        self@.wf()
    }

    /// A fresh instance for `owner`: not booted, no files.
    pub fn new(owner: Identity) -> (bridge: NFTPBridge)
        ensures
            bridge@.wf(),
            bridge@ == (BridgeView {
                booted: false,
                owner: owner@,
                names: Seq::empty(),
                files: Seq::empty(),
            }),
    {
        let entries: Vec<(String, NFTPFile)> = Vec::new();
        assert(names_of(entries@) =~= Seq::empty());
        assert(files_of(entries@) =~= Seq::empty());
        NFTPBridge { booted: false, owner_pk: owner, entries }
    }

    /// The instance that holds the given state, each file with its name.
    /// There is none where a name occurs twice.
    pub fn from_parts(booted: bool, owner: Identity, entries: Vec<(String, NFTPFile)>) -> (bridge:
        Option<NFTPBridge>)
        ensures
            bridge is Some <==> names_of(entries@).no_duplicates(),
            bridge is Some ==> bridge->Some_0@.wf() && bridge->Some_0@ == (BridgeView {
                booted,
                owner: owner@,
                names: names_of(entries@),
                files: files_of(entries@),
            }),
    {
        if !all_distinct(&entries) {
            return None;
        }
        Some(NFTPBridge { booted, owner_pk: owner, entries })
    }

    /// The state this instance holds: whether it is booted, its owner, and
    /// each file with its name.
    pub fn into_parts(self) -> (parts: (bool, Identity, Vec<(String, NFTPFile)>))
        ensures
            self@.wf(),
            self@ == (BridgeView {
                booted: parts.0,
                owner: parts.1@,
                names: names_of(parts.2@),
                files: files_of(parts.2@),
            }),
    {
        proof {
            use_type_invariant(&self);
        }
        (self.booted, self.owner_pk, self.entries)
    }

    /// Takes the entries out, leaving none.
    fn take_entries(&mut self) -> (entries: Vec<(String, NFTPFile)>)
        ensures
            entries@ == old(self).entries@,
            final(self).entries@.len() == 0,
            final(self).booted == old(self).booted,
            final(self).owner_pk == old(self).owner_pk,
    {
        let mut entries: Vec<(String, NFTPFile)> = Vec::new();
        assert(names_of(entries@) =~= Seq::empty());
        core::mem::swap(&mut self.entries, &mut entries);
        entries
    }

    /// Puts `entries` in the place of the ones held.
    fn put_entries(&mut self, entries: Vec<(String, NFTPFile)>)
        requires
            names_of(entries@).no_duplicates(),
        ensures
            final(self).entries@ == entries@,
            final(self).booted == old(self).booted,
            final(self).owner_pk == old(self).owner_pk,
    {
        let mut entries = entries;
        core::mem::swap(&mut self.entries, &mut entries);
    }

    /// Where `name` is stored, if it is.
    fn find(&self, name: &String) -> (found: Option<usize>)
        ensures
            self@.wf(),
            found is Some <==> self@.has(name@),
            found is Some ==> found->Some_0 == self@.slot(name@) && found->Some_0
                < self.entries@.len(),
    {
        proof {
            use_type_invariant(self);
        }
        let mut i: usize = 0;
        while i < self.entries.len()
            invariant
                self@.wf(),
                i <= self.entries@.len(),
                forall|j: int| 0 <= j < i ==> self@.names[j] != name@,
            decreases self.entries@.len() - i,
        {
            if self.entries[i].0 == *name {
                proof {
                    let k = self@.names.index_of(name@);
                    assert(self@.names[i as int] == name@);
                    assert(0 <= k < self@.names.len() && self@.names[k] == name@);
                    assert(k == i);
                }
                return Some(i);
            }
            i += 1;
        }
        None
    }

    /// Boots the instance. Only the identity the instance was built for may do
    /// so, and only while it has not been booted.
    pub fn boot_portal(&mut self, caller: &Identity) -> (outcome: Result<(), BridgeError>)
        ensures
            old(self)@.wf(),
            final(self)@.wf(),
            outcome == boot_outcome(old(self)@, caller@),
            final(self)@ == if outcome is Ok { old(self)@.started() } else { old(self)@ },
            final(self)@ == step(old(self)@, Call::Boot { caller: caller@ }),
    {
        proof {
            use_type_invariant(&*self);
        }
        if !self.owner_pk.same_as(caller) {
            return Err(BridgeError::InvalidSigner);
        }
        if self.booted {
            return Err(BridgeError::AlreadyBooted);
        }
        self.booted = true;
        Ok(())
    }

    /// The names of all files, in the order in which they were created.
    pub fn list_files(&self) -> (listed: Vec<String>)
        ensures
            self@.wf(),
            listed@.len() == self@.names.len(),
            forall|i: int| 0 <= i < listed@.len() ==> listed@[i]@ == self@.names[i],
    {
        proof {
            use_type_invariant(self);
        }
        let mut ret: Vec<String> = Vec::new();
        let mut i: usize = 0;
        while i < self.entries.len()
            invariant
                i <= self.entries@.len(),
                ret@.len() == i,
                forall|j: int| 0 <= j < i ==> ret@[j]@ == self@.names[j],
            decreases self.entries@.len() - i,
        {
            ret.push(self.entries[i].0.clone());
            i += 1;
        }
        ret
    }

    /// Creates an empty file under `name` and returns the refund. Where the name
    /// is taken nothing changes and the whole payment is refunded. Otherwise
    /// the growth of the footprint is charged to the payment; where the payment
    /// does not cover it, or the footprint shrank, nothing is created.
    pub fn create_file(
        &mut self,
        name: String,
        mode: u64,
        dev: u64,
        payment: u128,
        m: Measurement,
    ) -> (outcome: Result<u128, BridgeError>)
        ensures
            old(self)@.wf(),
            final(self)@.wf(),
            old(self)@.has(name@) ==> outcome == Ok::<u128, BridgeError>(payment) && final(self)@
                == old(self)@,
            !old(self)@.has(name@) ==> outcome == growth_outcome(payment, m) && final(self)@ == if outcome is Ok {
                old(self)@.inserted(name@, empty_file(mode, dev))
            } else {
                old(self)@
            },
            final(self)@ == step(old(self)@, Call::Create { name: name@, mode, dev, payment, m }),
    {
        if self.find(&name).is_some() {
            return Ok(payment);
        }
        let refund: u128 = match settle_growth(payment, m) {
            Ok(refund) => refund,
            Err(e) => { return Err(e); },
        };
        let mut entries = self.take_entries();
        entries.push((name, NFTPFile::new(mode, dev)));
        proof {
            assert(names_of(entries@) =~= old(self)@.names.push(name@));
            assert(files_of(entries@) =~= old(self)@.files.push(empty_file(mode, dev)));
        }
        self.put_entries(entries);
        Ok(refund)
    }

    /// Reads up to `size` bytes at `offset` from the file under `name`.
    pub fn read_file(&self, name: String, offset: u64, size: u64) -> (outcome: Result<
        Vec<u8>,
        BridgeError,
    >)
        ensures
            self@.wf(),
            !self@.has(name@) <==> outcome == Err::<Vec<u8>, BridgeError>(BridgeError::UnknownFile),
            self@.has(name@) ==> outcome is Ok && outcome->Ok_0@ == range_of(
                self@.file_of(name@).data,
                offset,
                size,
            ),
    {
        match self.find(&name) {
            None => Err(BridgeError::UnknownFile),
            Some(i) => Ok(self.entries[i].1.read(offset, size)),
        }
    }

    /// Writes `buf` at `offset` into the file under `name` and returns the
    /// refund. The bytes outside the written range stay as they were. A write
    /// may start anywhere up to the end of the file; one that starts beyond
    /// it is rejected. Where the call is rejected the file is untouched.
    pub fn write_file(
        &mut self,
        name: String,
        offset: usize,
        buf: Vec<u8>,
        payment: u128,
        m: Measurement,
    ) -> (outcome: Result<u128, BridgeError>)
        ensures
            old(self)@.wf(),
            final(self)@.wf(),
            outcome == write_outcome(old(self)@, name@, offset, payment, m),
            final(self)@ == if outcome is Ok {
                old(self)@.rewritten(
                    name@,
                    spliced(old(self)@.file_of(name@).data, offset as int, buf@),
                )
            } else {
                old(self)@
            },
            final(self)@ == step(
                old(self)@,
                Call::Write { name: name@, offset, buf: buf@, payment, m },
            ),
    {
        let i: usize = match self.find(&name) {
            Some(i) => i,
            None => { return Err(BridgeError::UnknownFile); },
        };
        let p: Vec<u8> = match self.entries[i].1.splice(offset, &buf) {
            Ok(p) => p,
            Err(e) => { return Err(e); },
        };
        let refund: u128 = match settle_growth(payment, m) {
            Ok(refund) => refund,
            Err(e) => { return Err(e); },
        };
        let mode: u64 = self.entries[i].1.mode;
        let dev: u64 = self.entries[i].1.dev;
        let mut entries = self.take_entries();
        entries.set(i, (name, NFTPFile { mode, dev, data: p }));
        proof {
            assert(names_of(entries@) =~= old(self)@.names);
            assert(files_of(entries@) =~= old(self)@.rewritten(
                name@,
                spliced(old(self)@.file_of(name@).data, offset as int, buf@),
            ).files);
        }
        self.put_entries(entries);
        Ok(refund)
    }

    /// Deletes the file under `name` and returns the refund: the payment plus
    /// the price of the bytes the footprint shrank by. Where no such file
    /// exists nothing changes and the payment is refunded. Where the footprint
    /// grew, or the refund does not fit, nothing is deleted.
    pub fn delete_file(&mut self, name: String, payment: u128, m: Measurement) -> (outcome: Result<
        u128,
        BridgeError,
    >)
        ensures
            old(self)@.wf(),
            final(self)@.wf(),
            !old(self)@.has(name@) ==> outcome == Ok::<u128, BridgeError>(payment) && final(self)@
                == old(self)@,
            old(self)@.has(name@) ==> outcome == release_outcome(payment, m) && final(self)@ == if outcome is Ok {
                old(self)@.removed(name@)
            } else {
                old(self)@
            },
            final(self)@ == step(old(self)@, Call::Delete { name: name@, payment, m }),
    {
        let i: usize = match self.find(&name) {
            Some(i) => i,
            None => { return Ok(payment); },
        };
        let refund: u128 = match settle_release(payment, m) {
            Ok(refund) => refund,
            Err(e) => { return Err(e); },
        };
        let mut entries = self.take_entries();
        entries.remove(i);
        proof {
            assert(names_of(entries@) =~= old(self)@.names.remove(i as int));
            assert(files_of(entries@) =~= old(self)@.files.remove(i as int));
            lemma_step_keeps_wf(old(self)@, Call::Delete { name: name@, payment, m });
        }
        self.put_entries(entries);
        Ok(refund)
    }
}

/// A create or a write whose payment does not cover the price of the bytes
/// the footprint grew by persists nothing: the instance is as it was.
pub proof fn lemma_unpaid_growth_persists_nothing(v: BridgeView, c: Call)
    requires
        match c {
            Call::Create { payment, m, .. } => payment < cost(grown(m), m.byte_cost),
            Call::Write { payment, m, .. } => payment < cost(grown(m), m.byte_cost),
            _ => false,
        },
    ensures
        step(v, c) == v,
{
}

/// Deleting refunds what it reclaims: where deleting the file under `name`
/// frees its bytes and `overhead` bytes of bookkeeping, the refund is the
/// payment plus the price of exactly that many bytes.
pub proof fn lemma_delete_refunds_file(
    v: BridgeView,
    name: Seq<char>,
    payment: u128,
    m: Measurement,
    overhead: nat,
)
    requires
        v.has(name),
        m.old_used - m.new_used == v.file_of(name).data.len() + overhead,
        payment + (v.file_of(name).data.len() + overhead) * m.byte_cost <= u128::MAX,
    ensures
        release_outcome(payment, m) == Ok::<u128, BridgeError>(
            (payment + (v.file_of(name).data.len() + overhead) * m.byte_cost) as u128,
        ),
{
}

/// Booting happens at most once: after a boot has succeeded, every further
/// boot is rejected, whoever calls; and a boot succeeds only for the owner.
pub proof fn lemma_boot_exactly_once(v: BridgeView, first: Seq<u8>, later: Seq<u8>)
    requires
        boot_outcome(v, first) is Ok,
    ensures
        first == v.owner,
        !v.booted,
        boot_outcome(v.started(), later) is Err,
        v.started().owner == v.owner,
{
}

/// Every call leaves a well-formed instance well formed.
pub proof fn lemma_step_keeps_wf(v: BridgeView, c: Call)
    requires
        v.wf(),
    ensures
        step(v, c).wf(),
{
    match c {
        Call::Delete { name, payment, m } => {
            if v.has(name) {
                let s = v.slot(name);
                let left = v.names.remove(s);
                assert forall|i: int, j: int|
                    0 <= i < left.len() && 0 <= j < left.len() && i != j implies left[i]
                    != left[j] by {
                    let a = if i < s { i } else { i + 1 };
                    let b = if j < s { j } else { j + 1 };
                    assert(left[i] == v.names[a]);
                    assert(left[j] == v.names[b]);
                }
            }
        },
        _ => {},
    }
}

/// Every sequence of calls leaves a well-formed instance well formed.
pub proof fn lemma_run_keeps_wf(v: BridgeView, calls: Seq<Call>)
    requires
        v.wf(),
    ensures
        run(v, calls).wf(),
    decreases calls.len(),
{
    if calls.len() > 0 {
        lemma_run_keeps_wf(v, calls.drop_last());
        lemma_step_keeps_wf(run(v, calls.drop_last()), calls.last());
    }
}

/// Over every sequence of calls the owner stays what it was, a booted
/// instance stays booted, and at most one boot succeeds: none once the
/// instance is booted.
pub proof fn lemma_boot_at_most_once(v: BridgeView, calls: Seq<Call>)
    ensures
        run(v, calls).owner == v.owner,
        run(v, calls).booted == (v.booted || boots(v, calls) == 1),
        boots(v, calls) <= 1,
        v.booted ==> boots(v, calls) == 0,
    decreases calls.len(),
{
    if calls.len() > 0 {
        lemma_boot_at_most_once(v, calls.drop_last());
    }
}

/// Whatever calls came before, a boot succeeds only for the identity the
/// instance was built for, and only if no boot has succeeded before it.
pub proof fn lemma_only_owner_boots(v: BridgeView, calls: Seq<Call>, caller: Seq<u8>)
    requires
        boot_outcome(run(v, calls), caller) is Ok,
    ensures
        caller == v.owner,
        !v.booted,
        boots(v, calls) == 0,
{
    lemma_boot_at_most_once(v, calls);
}

} // verus!
