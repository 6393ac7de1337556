//! What each host event source is doing, and whether it is doing anything.
//!
//! A sensor reporting nothing looks exactly the same whether the host is quiet
//! or the thing that watches it is broken. The *ways* a source fails are
//! per-platform; what does not change is the question an operator asks, *is this
//! source working?*, so that is what gets reported, uniformly, and the
//! platform-specific reason goes in a detail string. A source that has no
//! implementation for the target platform reports
//! [`SourceState::Unsupported`] rather than zeroes.

use vstd::prelude::*;
use crate::sorted::{find_rank, is_sorted, lemma_found_at_rank, lemma_insert_keeps_order, rank};
use crate::text::{equal, owned, precedes, texts};
use super::names;

verus! {

/// What a source is doing.
#[derive(Debug, Clone, Copy, PartialEq, Eq, Structural)]
pub enum SourceState {
    /// It is working.
    Active,
    /// It is working with reduced coverage.
    Degraded,
    /// It is absent on this host.
    Unavailable,
    /// It is not implemented for this platform.
    Unsupported,
}

impl Default for SourceState {
    fn default() -> (state: Self)
        ensures
            state == SourceState::Active,
    {
        SourceState::Active
    }
}

impl SourceState {
    /// Whether a source in this state leaves a hole in the coverage.
    pub open spec fn leaves_hole(self) -> bool {
        self != SourceState::Active
    }

    /// Whether a source in this state leaves a hole in the coverage.
    pub fn is_hole(self) -> (hole: bool)
        ensures
            hole == self.leaves_hole(),
    {
        self != SourceState::Active
    }

    /// The state's name.
    pub open spec fn name(self) -> Seq<char> {
        match self {
            SourceState::Active => "active"@,
            SourceState::Degraded => "degraded"@,
            SourceState::Unavailable => "unavailable"@,
            SourceState::Unsupported => "unsupported"@,
        }
    }

    /// The state's name.
    pub fn as_str(self) -> (name: &'static str)
        ensures
            name@ == self.name(),
    {
        match self {
            SourceState::Active => "active",
            SourceState::Degraded => "degraded",
            SourceState::Unavailable => "unavailable",
            SourceState::Unsupported => "unsupported",
        }
    }
}

/// What is known of a source.
pub struct StatusModel {
    /// The source.
    pub name: Seq<char>,
    /// What it is doing.
    pub state: SourceState,
    /// Why.
    pub detail: Seq<char>,
    /// Records it produced.
    pub records: nat,
}

/// What one source is doing.
#[derive(Debug, PartialEq, Eq)]
pub struct SourceStatus {
    /// The source.
    pub name: String,
    /// What it is doing.
    pub state: SourceState,
    /// Why.
    pub detail: String,
    /// Records it produced.
    pub records: u64,
}

impl View for SourceStatus {
    type V = StatusModel;

    open spec fn view(&self) -> StatusModel {
        StatusModel {
            name: self.name@,
            state: self.state,
            detail: self.detail@,
            records: self.records as nat,
        }
    }
}

impl Clone for SourceStatus {
    fn clone(&self) -> (copy: Self)
        ensures
            copy@ == self@,
    {
        SourceStatus {
            name: self.name.clone(),
            state: self.state,
            detail: self.detail.clone(),
            records: self.records,
        }
    }
}

/// What a registry holds: the names in order, and what is known of each source.
pub struct RegistryModel {
    /// The names, in order.
    pub names: Seq<Seq<char>>,
    /// What is known of the source at the same place.
    pub entries: Seq<StatusModel>,
}

impl RegistryModel {
    /// The names stand in order, and each has its entry under it.
    pub open spec fn well_formed(self) -> bool {
        &&& is_sorted(self.names)
        &&& self.names.len() == self.entries.len()
        &&& forall|i: int|
            0 <= i < self.names.len() ==> (#[trigger] self.entries[i]).name == self.names[i]
    }

    /// What is known of a source.
    pub open spec fn known(self, name: Seq<char>) -> Option<StatusModel> {
        if self.names.contains(name) {
            Some(self.entries[rank(self.names, name) as int])
        } else {
            None
        }
    }

    /// How many records a source produced.
    pub open spec fn records_of(self, name: Seq<char>) -> nat {
        match self.known(name) {
            Some(status) => status.records,
            None => 0,
        }
    }

    /// With what is known of a source replaced.
    pub open spec fn with_status(self, status: StatusModel) -> RegistryModel {
        let k = rank(self.names, status.name) as int;
        if self.names.contains(status.name) {
            RegistryModel { entries: self.entries.update(k, status), ..self }
        } else {
            RegistryModel {
                names: self.names.insert(k, status.name),
                entries: self.entries.insert(k, status),
            }
        }
    }

    /// With a source's state declared. What it produced stays.
    pub open spec fn declaring(
        self,
        name: Seq<char>,
        state: SourceState,
        detail: Seq<char>,
    ) -> RegistryModel {
        self.with_status(StatusModel { name, state, detail, records: self.records_of(name) })
    }

    /// With records of a source counted. They count even for a source in a hole
    /// state: a source that is degraded but still producing is a different
    /// situation from one producing nothing.
    pub open spec fn counting(self, name: Seq<char>, count: nat) -> RegistryModel {
        match self.known(name) {
            Some(status) => self.with_status(
                StatusModel { name, records: status.records + count, ..status },
            ),
            None => self.with_status(
                StatusModel { name, state: SourceState::Active, detail: seq![], records: count },
            ),
        }
    }
}

/// What is declared or counted of a source leaves the entries in the order of their
/// names, each name once.
pub proof fn law_sources_stay_in_name_order(registry: RegistryModel, status: StatusModel)
    requires
        registry.well_formed(),
    ensures
        registry.with_status(status).well_formed(),
        forall|i: int, j: int|
            0 <= i < j < registry.with_status(status).entries.len() ==> precedes(
                (#[trigger] registry.with_status(status).entries[i]).name,
                (#[trigger] registry.with_status(status).entries[j]).name,
            ),
{
    let names = registry.names;
    let k = rank(names, status.name) as int;
    let after = registry.with_status(status);
    lemma_found_at_rank(names, status.name);
    if !names.contains(status.name) {
        lemma_insert_keeps_order(names, status.name);
    }
    assert forall|i: int| 0 <= i < after.names.len() implies (#[trigger] after.entries[i]).name
        == after.names[i] by {
        if i < k || (i > k && names.contains(status.name)) {
            assert(registry.entries[i].name == names[i]);
        } else if i > k {
            assert(registry.entries[i - 1].name == names[i - 1]);
        }
    }
}

/// The models of entries.
pub open spec fn status_models(entries: Seq<SourceStatus>) -> Seq<StatusModel> {
    entries.map_values(|status: SourceStatus| status@)
}

/// The models of entries that are lent.
pub open spec fn lent_models(entries: Seq<&SourceStatus>) -> Seq<StatusModel> {
    entries.map_values(|status: &SourceStatus| status@)
}

/// The set of sources and what each is doing.
#[derive(Debug)]
pub struct SourceRegistry {
    names: Vec<String>,
    entries: Vec<SourceStatus>,
}

impl View for SourceRegistry {
    type V = RegistryModel;

    closed spec fn view(&self) -> RegistryModel {
        RegistryModel { names: texts(self.names@), entries: status_models(self.entries@) }
    }
}

impl Default for SourceRegistry {
    fn default() -> (registry: Self)
        ensures
            registry@ == (RegistryModel { names: seq![], entries: seq![] }),
            registry@.well_formed(),
    {
        Self::new()
    }
}

impl SourceRegistry {
    /// An empty registry.
    pub fn new() -> (registry: Self)
        ensures
            registry@ == (RegistryModel { names: seq![], entries: seq![] }),
            registry@.well_formed(),
    {
        let registry = SourceRegistry { names: Vec::new(), entries: Vec::new() };
        assert(registry@.names =~= seq![]);
        assert(registry@.entries =~= seq![]);
        registry
    }

    fn place(&self, name: &str) -> (place: (bool, usize))
        requires
            self@.well_formed(),
        ensures
            place.0 == self@.names.contains(name@),
            place.1 == rank(self@.names, name@),
            place.1 <= self@.names.len(),
            place.0 ==> place.1 < self@.names.len(),
    {
        proof {
            lemma_found_at_rank(self@.names, name@);
        }
        let k: usize = find_rank(&self.names, name);
        if k < self.names.len() {
            assert(self@.names[k as int] == self.names@[k as int]@);
            (equal(self.names[k].as_str(), name), k)
        } else {
            (false, k)
        }
    }

    fn put(&mut self, status: SourceStatus)
        requires
            old(self)@.well_formed(),
        ensures
            final(self)@ == old(self)@.with_status(status@),
            final(self)@.well_formed(),
    {
        let ghost names = self@.names;
        let ghost entries = self@.entries;
        let ghost model = status@;
        proof {
            law_sources_stay_in_name_order(self@, model);
        }
        let (found, k): (bool, usize) = self.place(status.name.as_str());
        if found {
            self.entries.set(k, status);
            assert(self@.entries =~= entries.update(k as int, model));
        } else {
            let name = status.name.clone();
            self.names.insert(k, name);
            self.entries.insert(k, status);
            assert(self@.names =~= names.insert(k as int, model.name));
            assert(self@.entries =~= entries.insert(k as int, model));
        }
    }

    fn entry(&self, name: &str) -> (entry: Option<&SourceStatus>)
        requires
            self@.well_formed(),
        ensures
            match entry {
                Some(entry) => self@.known(name@) == Some(entry@),
                None => self@.known(name@) is None,
            },
    {
        let (found, k): (bool, usize) = self.place(name);
        if found {
            assert(self@.entries[k as int] == self.entries@[k as int]@);
            Some(&self.entries[k])
        } else {
            None
        }
    }

    /// Declare a source's state, replacing whatever was there.
    pub fn set(&mut self, name: &str, state: SourceState, detail: String)
        requires
            old(self)@.well_formed(),
        ensures
            final(self)@ == old(self)@.declaring(name@, state, detail@),
            final(self)@.well_formed(),
    {
        let records: u64 = match self.entry(name) {
            Some(entry) => entry.records,
            None => 0,
        };
        self.put(SourceStatus { name: owned(name), state, detail, records });
    }

    /// Declare a source working.
    pub fn active(&mut self, name: &str)
        requires
            old(self)@.well_formed(),
        ensures
            final(self)@ == old(self)@.declaring(name@, SourceState::Active, seq![]),
            final(self)@.well_formed(),
    {
        let none = String::new();
        assert(none@ =~= seq![]);
        self.set(name, SourceState::Active, none);
    }

    /// Declare a source absent on this host, with the reason.
    pub fn unavailable(&mut self, name: &str, detail: String)
        requires
            old(self)@.well_formed(),
        ensures
            final(self)@ == old(self)@.declaring(name@, SourceState::Unavailable, detail@),
            final(self)@.well_formed(),
    {
        self.set(name, SourceState::Unavailable, detail);
    }

    /// Declare a source not implemented for this platform.
    pub fn unsupported(&mut self, name: &str, detail: String)
        requires
            old(self)@.well_formed(),
        ensures
            final(self)@ == old(self)@.declaring(name@, SourceState::Unsupported, detail@),
            final(self)@.well_formed(),
    {
        self.set(name, SourceState::Unsupported, detail);
    }

    /// Declare a source working with reduced coverage.
    pub fn degraded(&mut self, name: &str, detail: String)
        requires
            old(self)@.well_formed(),
        ensures
            final(self)@ == old(self)@.declaring(name@, SourceState::Degraded, detail@),
            final(self)@.well_formed(),
    {
        self.set(name, SourceState::Degraded, detail);
    }

    /// Count records a source produced.
    pub fn produced(&mut self, name: &str, count: u64)
        requires
            old(self)@.well_formed(),
            count > 0 ==> old(self)@.records_of(name@) + count <= u64::MAX,
        ensures
            final(self)@ == old(self)@.counting(name@, count as nat),
            final(self)@.well_formed(),
    {
        let status = match self.entry(name) {
            Some(entry) => SourceStatus {
                name: owned(name),
                state: entry.state,
                detail: entry.detail.clone(),
                records: entry.records + count,
            },
            None => {
                let detail = String::new();
                assert(detail@ =~= seq![]);
                SourceStatus { name: owned(name), state: SourceState::Active, detail, records: count }
            },
        };
        self.put(status);
    }

    /// The state of one source, if it has been declared.
    pub fn state(&self, name: &str) -> (state: Option<SourceState>)
        requires
            self@.well_formed(),
        ensures
            state == (match self@.known(name@) {
                Some(status) => Some(status.state),
                None => None,
            }),
    {
        match self.entry(name) {
            Some(entry) => Some(entry.state),
            None => None,
        }
    }

    /// Every source, in stable name order.
    pub fn snapshot(&self) -> (sources: Vec<SourceStatus>)
        ensures
            status_models(sources@) == self@.entries,
            self@.well_formed() ==> is_sorted(
                self@.entries.map_values(|status: StatusModel| status.name),
            ),
    {
        let ghost all = self@.entries;
        let mut sources: Vec<SourceStatus> = Vec::new();
        let mut i: usize = 0;
        while i < self.entries.len()
            invariant
                all == self@.entries,
                i <= all.len(),
                sources@.len() == i,
                forall|j: int| 0 <= j < i ==> (#[trigger] sources@[j])@ == all[j],
            decreases all.len() - i,
        {
            assert(all[i as int] == self.entries@[i as int]@);
            sources.push(self.entries[i].clone());
            i = i + 1;
        }
        assert(status_models(sources@) =~= all);
        assert(self@.well_formed() ==> all.map_values(|status: StatusModel| status.name)
            =~= self@.names);
        sources
    }

    /// The sources that are not fully working.
    pub fn holes(&self) -> (holes: Vec<&SourceStatus>)
        ensures
            lent_models(holes@) == self@.entries.filter(
                |status: StatusModel| status.state.leaves_hole(),
            ),
    {
        let ghost all = self@.entries;
        let ghost keep = |status: StatusModel| status.state.leaves_hole();
        let mut holes: Vec<&SourceStatus> = Vec::new();
        let mut i: usize = 0;
        assert(lent_models(holes@) =~= all.take(0).filter(keep)) by {
            reveal(Seq::filter);
        }
        while i < self.entries.len()
            invariant
                all == self@.entries,
                keep == (|status: StatusModel| status.state.leaves_hole()),
                i <= all.len(),
                lent_models(holes@) == all.take(i as int).filter(keep),
            decreases all.len() - i,
        {
            let entry = &self.entries[i];
            let ghost before = holes@;
            proof {
                assert(all[i as int] == entry@);
                reveal(Seq::filter);
                assert(all.take(i + 1).drop_last() =~= all.take(i as int));
            }
            if entry.state.is_hole() {
                holes.push(entry);
                assert(lent_models(holes@) =~= lent_models(before).push(entry@));
            }
            i = i + 1;
        }
        assert(all.take(i as int) =~= all);
        holes
    }
}

/// The sources that have no implementation on an operating system, with why.
pub open spec fn gaps_of(os: Seq<char>) -> Seq<(Seq<char>, Seq<char>)> {
    if os == "linux"@ {
        seq![]
    } else if os == "windows"@ {
        seq![
            (
                names::AUTH_STRUCTURED@,
                "Windows Event Log (4624/4625) arrives in Phase 5; journald is Linux-only"@,
            ),
            (
                names::PROCESS_TABLE@,
                "ETW process monitoring arrives in Phase 5; /proc is Linux-only"@,
            ),
            (
                names::PROCESS_SOCKETS@,
                "GetExtendedTcpTable arrives in Phase 5; /proc/net/tcp is Linux-only"@,
            ),
        ]
    } else if os == "macos"@ {
        seq![
            (
                names::AUTH_STRUCTURED@,
                "the macOS unified log and OpenBSM arrive in Phase 6; journald is Linux-only"@,
            ),
            (
                names::PROCESS_TABLE@,
                "macOS process monitoring arrives in Phase 6; /proc is Linux-only"@,
            ),
            (
                names::PROCESS_SOCKETS@,
                "macOS socket enumeration arrives in Phase 6; /proc/net/tcp is Linux-only"@,
            ),
        ]
    } else {
        seq![
            (names::AUTH_STRUCTURED@, "no host backend for this platform"@),
            (names::PROCESS_TABLE@, "no host backend for this platform"@),
            (names::PROCESS_SOCKETS@, "no host backend for this platform"@),
        ]
    }
}

/// The models of gaps.
pub open spec fn gap_models(gaps: Seq<(&'static str, &'static str)>) -> Seq<
    (Seq<char>, Seq<char>),
> {
    gaps.map_values(|gap: (&'static str, &'static str)| (gap.0@, gap.1@))
}

/// Which sources have no implementation on a given OS, and why.
///
/// A **pure function of the OS name**, so the answers for one platform can be
/// tested from another. The details name the phase that fills each gap, because
/// "unsupported" with no horizon reads like a bug rather than a plan.
pub fn platform_gaps(os: &str) -> (gaps: Vec<(&'static str, &'static str)>)
    ensures
        gap_models(gaps@) == gaps_of(os@),
{
    let mut gaps: Vec<(&'static str, &'static str)> = Vec::new();
    if equal(os, "linux") {
        // Every source has a backend here.
    } else if equal(os, "windows") {
        gaps.push(
            (
                names::AUTH_STRUCTURED,
                "Windows Event Log (4624/4625) arrives in Phase 5; journald is Linux-only",
            ),
        );
        gaps.push(
            (
                names::PROCESS_TABLE,
                "ETW process monitoring arrives in Phase 5; /proc is Linux-only",
            ),
        );
        gaps.push(
            (
                names::PROCESS_SOCKETS,
                "GetExtendedTcpTable arrives in Phase 5; /proc/net/tcp is Linux-only",
            ),
        );
    } else if equal(os, "macos") {
        gaps.push(
            (
                names::AUTH_STRUCTURED,
                "the macOS unified log and OpenBSM arrive in Phase 6; journald is Linux-only",
            ),
        );
        gaps.push(
            (
                names::PROCESS_TABLE,
                "macOS process monitoring arrives in Phase 6; /proc is Linux-only",
            ),
        );
        gaps.push(
            (
                names::PROCESS_SOCKETS,
                "macOS socket enumeration arrives in Phase 6; /proc/net/tcp is Linux-only",
            ),
        );
    } else {
        // An OS nobody has ported to is entirely unsupported, and saying so is
        // better than pretending the Linux backends will work.
        gaps.push((names::AUTH_STRUCTURED, "no host backend for this platform"));
        gaps.push((names::PROCESS_TABLE, "no host backend for this platform"));
        gaps.push((names::PROCESS_SOCKETS, "no host backend for this platform"));
    }
    assert(gap_models(gaps@) =~= gaps_of(os@));
    gaps
}

/// A registry with gaps declared.
pub open spec fn with_gaps(registry: RegistryModel, gaps: Seq<(Seq<char>, Seq<char>)>) -> RegistryModel
    decreases gaps.len(),
{
    if gaps.len() == 0 {
        registry
    } else {
        with_gaps(registry, gaps.drop_last()).declaring(
            gaps.last().0,
            SourceState::Unsupported,
            gaps.last().1,
        )
    }
}

/// Declare a platform's gaps into a registry.
///
/// Done at startup before anything else registers, so a backend that *does* exist
/// overwrites its entry. Whatever still says `unsupported` genuinely is.
pub fn declare_platform_gaps(registry: &mut SourceRegistry, os: &str)
    requires
        old(registry)@.well_formed(),
    ensures
        final(registry)@ == with_gaps(old(registry)@, gaps_of(os@)),
        final(registry)@.well_formed(),
{
    let gaps = platform_gaps(os);
    let ghost all = gap_models(gaps@);
    let mut i: usize = 0;
    assert(all.take(0) =~= seq![]);
    while i < gaps.len()
        invariant
            all == gap_models(gaps@),
            i <= all.len(),
            registry@.well_formed(),
            registry@ == with_gaps(old(registry)@, all.take(i as int)),
        decreases all.len() - i,
    {
        assert(all[i as int] == (gaps@[i as int].0@, gaps@[i as int].1@));
        assert(all.take(i + 1).drop_last() =~= all.take(i as int));
        let (name, detail) = gaps[i];
        registry.unsupported(name, owned(detail));
        i = i + 1;
    }
    assert(all.take(i as int) =~= all);
}

// ---------------------------------------------------------------------------
// laws
// ---------------------------------------------------------------------------

/// A platform that has no host backend never looks quiet: it declares the sources
/// it lacks, each with a reason.
pub proof fn law_a_platform_without_backends_says_so(os: Seq<char>)
    requires
        os != "linux"@,
    ensures
        gaps_of(os).len() == 3,
        forall|i: int| 0 <= i < gaps_of(os).len() ==> (#[trigger] gaps_of(os)[i]).1.len() > 0,
{
    reveal_strlit("Windows Event Log (4624/4625) arrives in Phase 5; journald is Linux-only");
    reveal_strlit("ETW process monitoring arrives in Phase 5; /proc is Linux-only");
    reveal_strlit("GetExtendedTcpTable arrives in Phase 5; /proc/net/tcp is Linux-only");
    reveal_strlit("the macOS unified log and OpenBSM arrive in Phase 6; journald is Linux-only");
    reveal_strlit("macOS process monitoring arrives in Phase 6; /proc is Linux-only");
    reveal_strlit("macOS socket enumeration arrives in Phase 6; /proc/net/tcp is Linux-only");
    reveal_strlit("no host backend for this platform");
}

/// What a source has produced survives a change of its state, and declaring one
/// source changes no other.
pub proof fn law_record_counts_survive_a_state_change(
    registry: RegistryModel,
    name: Seq<char>,
    state: SourceState,
    detail: Seq<char>,
    other: Seq<char>,
)
    requires
        registry.well_formed(),
    ensures
        ({
            let after = registry.declaring(name, state, detail);
            &&& after.well_formed()
            &&& after.known(name) == Some(
                StatusModel { name, state, detail, records: registry.records_of(name) },
            )
            &&& other != name ==> after.known(other) == registry.known(other)
        }),
{
    lemma_with_status(
        registry,
        StatusModel { name, state, detail, records: registry.records_of(name) },
        other,
    );
}

/// Replacing what is known of one source changes no other.
pub proof fn lemma_with_status(registry: RegistryModel, status: StatusModel, other: Seq<char>)
    requires
        registry.well_formed(),
    ensures
        registry.with_status(status).well_formed(),
        registry.with_status(status).known(status.name) == Some(status),
        other != status.name ==> registry.with_status(status).known(other) == registry.known(other),
{
    let name = status.name;
    let after = registry.with_status(status);
    lemma_found_at_rank(registry.names, name);
    lemma_found_at_rank(registry.names, other);
    let k = rank(registry.names, name) as int;
    if !registry.names.contains(name) {
        lemma_insert_keeps_order(registry.names, name);
    }
    assert(after.names[k] == name);
    crate::sorted::lemma_only_place(after.names, name, k);
    lemma_found_at_rank(after.names, other);
    if other != name {
        let i = rank(registry.names, other) as int;
        if registry.names.contains(other) {
            let j = if registry.names.contains(name) || i < k {
                i
            } else {
                i + 1
            };
            assert(after.names[j] == other);
            crate::sorted::lemma_only_place(after.names, other, j);
        } else if after.names.contains(other) {
            let j = choose|j: int| 0 <= j < after.names.len() && after.names[j] == other;
            let back = if registry.names.contains(name) || j < k {
                j
            } else {
                j - 1
            };
            assert(j != k);
            assert(registry.names[back] == other);
        }
    }
}

/// Records are added to those of their source, whatever state it is in; a source that was
/// not known is active once it produces.
pub proof fn law_records_are_added_up(
    registry: RegistryModel,
    name: Seq<char>,
    count: nat,
    other: Seq<char>,
)
    requires
        registry.well_formed(),
    ensures
        ({
            let after = registry.counting(name, count);
            &&& after.records_of(name) == registry.records_of(name) + count
            &&& registry.known(name) matches Some(status) ==> after.known(name)->0.state
                == status.state && after.known(name)->0.detail == status.detail
            &&& registry.known(name) is None ==> after.known(name)->0.state == SourceState::Active
            &&& other != name ==> after.known(other) == registry.known(other)
        }),
{
    let status = match registry.known(name) {
        Some(status) => StatusModel { name, records: status.records + count, ..status },
        None => StatusModel { name, state: SourceState::Active, detail: seq![], records: count },
    };
    lemma_with_status(registry, status, other);
}

/// Only an active source leaves no hole. The words for states and sources.
pub proof fn law_states_and_sources_have_their_words(state: SourceState)
    ensures
        !state.leaves_hole() <==> state is Active,
        SourceState::Active.name() == "active"@,
        SourceState::Degraded.name() == "degraded"@,
        SourceState::Unavailable.name() == "unavailable"@,
        SourceState::Unsupported.name() == "unsupported"@,
        names::FIM_REALTIME@ == "fim.realtime"@,
        names::FIM_BASELINE@ == "fim.baseline"@,
        names::AUTH_STRUCTURED@ == "auth.structured"@,
        names::AUTH_FILES@ == "auth.files"@,
        names::PROCESS_TABLE@ == "process.table"@,
        names::PROCESS_SOCKETS@ == "process.sockets"@,
{
}

/// On Linux every source has an implementation; on any other system the structured
/// authentication records, the process table and the socket tables have none, and are
/// declared so.
pub proof fn law_only_linux_has_every_source(os: Seq<char>)
    ensures
        os == "linux"@ ==> gaps_of(os).len() == 0,
        os != "linux"@ ==> gaps_of(os).len() == 3 && gaps_of(os)[0].0 == "auth.structured"@
            && gaps_of(os)[1].0 == "process.table"@ && gaps_of(os)[2].0 == "process.sockets"@,
{
}

} // verus!
