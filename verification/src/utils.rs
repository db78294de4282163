//! The dependency resolver and the change planner.
use vstd::prelude::*;
use vstd::string::StringExecFns;
use crate::factorio_api::{
    find_registry, spec_prepare_releases, FactorioApi, Registry, RegistryView,
};
use crate::instance::{find_installed, mods_view, Instance, InstalledModView, InstanceView};
use crate::mod_info::{
    deps_view, duplicate_dependencies, releases_view, version_le, version_lt, Dependency,
    DependencyType, DependencyView, ModInfo, ModInfoView, ModRelease, ModReleaseView, Version,
};

verus! {

/// The ids of content bundled with the game environment itself. A Require on
/// one of these is a version assertion, never a registry lookup.
pub open spec fn spec_is_game_content(id: Seq<char>) -> bool {
    id == "base"@ || id == "quality"@ || id == "elevated-rails"@ || id == "space-age"@
}

/// Whether `id` names environment-provided content rather than a fetchable mod.
pub fn is_mod_game_content(id: &str) -> (r: bool)
    ensures
        r == spec_is_game_content(id@),
{
    let s = id.to_owned();
    s == String::from_str("base") || s == String::from_str("quality") || s == String::from_str(
        "elevated-rails",
    ) || s == String::from_str("space-age")
}

/// Why a resolution run failed: the registry had nothing under the id, or no
/// release of it suited the requirement. `ModNotFound` carries the cause as
/// opaque text; `CantFoundSuitableRelease` carries the version the
/// requirement asked for, if it named one.
#[derive(Debug)]
pub enum Error {
    ModNotFound(String, String),
    CantFoundSuitableRelease(String, Option<Version>),
}

pub ghost enum ErrorView {
    ModNotFound(Seq<char>, Seq<char>),
    CantFoundSuitableRelease(Seq<char>, Option<Version>),
}

impl View for Error {
    type V = ErrorView;

    open spec fn view(&self) -> ErrorView {
        match self {
            Error::ModNotFound(id, cause) => ErrorView::ModNotFound(id@, cause@),
            Error::CantFoundSuitableRelease(id, requested) => ErrorView::CantFoundSuitableRelease(
                id@,
                *requested,
            ),
        }
    }
}

/// The resolver's record for one package id: the version resolved so far (if
/// any), the kind the id was first merged under, and an approximate count of
/// how many requirements still rely on it.
#[derive(Clone, Copy, Debug)]
pub struct ExtendedDependency {
    pub version: Option<Version>,
    pub dependency_type: DependencyType,
    pub usages_count: i64,
}

/// One entry of the resolver's map, keyed by package id.
pub struct ResolutionEntry {
    pub mod_id: String,
    pub data: ExtendedDependency,
}

pub ghost struct EntryView {
    pub mod_id: Seq<char>,
    pub data: ExtendedDependency,
}

impl View for ResolutionEntry {
    type V = EntryView;

    open spec fn view(&self) -> EntryView {
        EntryView { mod_id: self.mod_id@, data: self.data }
    }
}

/// The views of the resolver's entry list.
pub open spec fn entries_view(v: Seq<ResolutionEntry>) -> Seq<EntryView> {
    v.map_values(|e: ResolutionEntry| e@)
}

pub open spec fn find_entry_from(entries: Seq<EntryView>, id: Seq<char>, from: int) -> Option<int>
    decreases entries.len() - from,
    when 0 <= from
{
    if from >= entries.len() {
        None
    } else if entries[from].mod_id == id {
        Some(from)
    } else {
        find_entry_from(entries, id, from + 1)
    }
}

/// The index of the entry for `id`, if one exists.
pub open spec fn find_entry(entries: Seq<EntryView>, id: Seq<char>) -> Option<int> {
    find_entry_from(entries, id, 0)
}

pub proof fn lemma_find_entry_bounds(entries: Seq<EntryView>, id: Seq<char>, from: int)
    requires
        0 <= from,
    ensures
        match find_entry_from(entries, id, from) {
            Some(k) => from <= k < entries.len() && entries[k].mod_id == id,
            None => forall|j: int| from <= j < entries.len() ==> (#[trigger] entries[j]).mod_id != id,
        },
    decreases entries.len() - from,
{
    if from < entries.len() && entries[from].mod_id != id {
        lemma_find_entry_bounds(entries, id, from + 1);
    }
}

/// Counts saturate at the extremes of `i64` instead of wrapping.
pub open spec fn inc_count(c: i64) -> i64 {
    if c < i64::MAX {
        (c + 1) as i64
    } else {
        c
    }
}

pub open spec fn dec_count(c: i64) -> i64 {
    if c > i64::MIN {
        (c - 1) as i64
    } else {
        c
    }
}

/// One bookkeeping decrement: the entry for the id loses one usage; an id
/// without an entry gets one with a count of -1, which the final filter drops.
pub open spec fn spec_remove_usage(entries: Seq<EntryView>, dep: DependencyView) -> Seq<
    EntryView,
> {
    match find_entry(entries, dep.mod_id) {
        Some(k) => entries.update(
            k,
            EntryView {
                mod_id: entries[k].mod_id,
                data: ExtendedDependency {
                    version: entries[k].data.version,
                    dependency_type: entries[k].data.dependency_type,
                    usages_count: dec_count(entries[k].data.usages_count),
                },
            },
        ),
        None => entries.push(
            EntryView {
                mod_id: dep.mod_id,
                data: ExtendedDependency {
                    version: dep.version,
                    dependency_type: dep.dependency_type,
                    usages_count: -1 as i64,
                },
            },
        ),
    }
}

/// `spec_remove_usage` folded over a requirement list, front to back.
pub open spec fn spec_cascade(entries: Seq<EntryView>, deps: Seq<DependencyView>) -> Seq<EntryView>
    decreases deps.len(),
{
    if deps.len() == 0 {
        entries
    } else {
        spec_cascade(spec_remove_usage(entries, deps.first()), deps.drop_first())
    }
}

/// The first release carrying exactly this version, if any.
pub open spec fn find_release_from(releases: Seq<ModReleaseView>, v: Version, from: int) -> Option<
    ModReleaseView,
>
    decreases releases.len() - from,
    when 0 <= from
{
    if from >= releases.len() {
        None
    } else if releases[from].version == v {
        Some(releases[from])
    } else {
        find_release_from(releases, v, from + 1)
    }
}

pub open spec fn find_release(releases: Seq<ModReleaseView>, v: Version) -> Option<
    ModReleaseView,
> {
    find_release_from(releases, v, 0)
}

/// One merge of a requirement into the entry map. A fresh id gets an entry
/// with one usage. An existing entry gains a usage; if the new requirement
/// carries a strictly greater version, the stored version moves up to it, and
/// -- when the superseded version's release is identifiable in the given
/// registry response -- every requirement that release declared loses one
/// usage (cascade invalidation).
pub open spec fn spec_add_dependency(
    entries: Seq<EntryView>,
    dep: DependencyView,
    mod_info: Option<ModInfoView>,
) -> Seq<EntryView> {
    match find_entry(entries, dep.mod_id) {
        None => entries.push(
            EntryView {
                mod_id: dep.mod_id,
                data: ExtendedDependency {
                    version: dep.version,
                    dependency_type: dep.dependency_type,
                    usages_count: 1,
                },
            },
        ),
        Some(k) => {
            let e = entries[k];
            let upgrade = e.data.version is Some && dep.version is Some && version_lt(
                e.data.version->0,
                dep.version->0,
            );
            let merged = entries.update(
                k,
                EntryView {
                    mod_id: e.mod_id,
                    data: ExtendedDependency {
                        version: if upgrade {
                            dep.version
                        } else {
                            e.data.version
                        },
                        dependency_type: e.data.dependency_type,
                        usages_count: inc_count(e.data.usages_count),
                    },
                },
            );
            if upgrade {
                match mod_info {
                    Some(info) => match find_release(info.releases, e.data.version->0) {
                        Some(rel) => spec_cascade(merged, rel.info_json.dependencies),
                        None => merged,
                    },
                    None => merged,
                }
            } else {
                merged
            }
        },
    }
}

/// Whether a requirement is already answered by the installed snapshot or by
/// the entries so far; and the entries after the check, since a Require
/// answered by an existing entry adds one usage to it.
pub open spec fn spec_check_satisfied(
    mods: Seq<InstalledModView>,
    entries: Seq<EntryView>,
    dep: DependencyView,
) -> (bool, Seq<EntryView>) {
    let by_install = match find_installed(mods, dep.mod_id) {
        Some(m) => match dep.version {
            None => true,
            Some(dv) => version_le(dv, m.version),
        },
        None => false,
    };
    if by_install {
        (true, entries)
    } else {
        match find_entry(entries, dep.mod_id) {
            None => (false, entries),
            Some(k) => {
                if dep.dependency_type != DependencyType::Require {
                    (true, entries)
                } else {
                    let ok = match dep.version {
                        None => true,
                        Some(dv) => match entries[k].data.version {
                            Some(v) => version_le(dv, v),
                            None => false,
                        },
                    };
                    if ok {
                        (
                            true,
                            entries.update(
                                k,
                                EntryView {
                                    mod_id: entries[k].mod_id,
                                    data: ExtendedDependency {
                                        version: entries[k].data.version,
                                        dependency_type: entries[k].data.dependency_type,
                                        usages_count: inc_count(entries[k].data.usages_count),
                                    },
                                },
                            ),
                        )
                    } else {
                        (false, entries)
                    }
                }
            },
        }
    }
}

/// Looks an id up in the entry list; at most one entry per id ever exists.
fn find_entry_index(entries: &Vec<ResolutionEntry>, id: &String) -> (r: Option<usize>)
    ensures
        match r {
            Some(k) => k < entries@.len() && find_entry(entries_view(entries@), id@) == Some(
                k as int,
            ),
            None => find_entry(entries_view(entries@), id@) is None,
        },
{
    let ghost all = entries_view(entries@);
    let mut i: usize = 0;
    while i < entries.len()
        invariant
            i <= entries@.len(),
            find_entry_from(all, id@, 0) == find_entry_from(all, id@, i as int),
        decreases entries@.len() - i,
    {
        if entries[i].mod_id == *id {
            return Some(i);
        }
        i = i + 1;
    }
    None
}

/// The first release of the list with exactly this version.
fn find_release_index(releases: &Vec<ModRelease>, v: &Version) -> (r: Option<usize>)
    ensures
        match r {
            Some(k) => k < releases@.len() && find_release(releases_view(releases@), *v) == Some(
                releases@[k as int]@,
            ),
            None => find_release(releases_view(releases@), *v) is None,
        },
{
    let ghost all = releases_view(releases@);
    let mut i: usize = 0;
    while i < releases.len()
        invariant
            i <= releases@.len(),
            find_release_from(all, *v, 0) == find_release_from(all, *v, i as int),
        decreases releases@.len() - i,
    {
        if releases[i].version == *v {
            return Some(i);
        }
        i = i + 1;
    }
    None
}

/// What processing one requirement asks of the caller: nothing more, or the
/// registry's response for the named id.
pub enum ProcessOutcome {
    Handled,
    NeedsModInfo(Dependency),
}

/// One resolution run's private state: the pending worklist and the entry map,
/// over a read-only snapshot.
pub struct DependenciesProcessor<'a> {
    pub need_process: Vec<Dependency>,
    pub dependencies: Vec<ResolutionEntry>,
    pub instance: &'a Instance,
}

impl<'a> DependenciesProcessor<'a> {
    pub fn new(instance: &'a Instance) -> (r: Self)
        ensures
            r.need_process@ == Seq::<Dependency>::empty(),
            r.dependencies@ == Seq::<ResolutionEntry>::empty(),
            r.instance == instance,
    {
        DependenciesProcessor { instance, need_process: Vec::new(), dependencies: Vec::new() }
    }

    /// Whether the requirement is already answered, as `spec_check_satisfied`
    /// states it; a Require answered by an existing entry gains it one usage.
    pub fn check_satisfied(&mut self, dependency: &Dependency) -> (r: bool)
        ensures
            ({
                let sc = spec_check_satisfied(
                    mods_view(old(self).instance.mods@),
                    entries_view(old(self).dependencies@),
                    dependency@,
                );
                &&& r == sc.0
                &&& entries_view(final(self).dependencies@) == sc.1
                &&& final(self).need_process == old(self).need_process
                &&& final(self).instance == old(self).instance
            }),
    {
        let ghost pre = entries_view(self.dependencies@);
        if let Some(installed_mod) = crate::instance::find_mod(
            &self.instance.mods,
            &dependency.mod_id,
        ) {
            if let Some(version) = &dependency.version {
                if installed_mod.version >= *version {
                    return true;
                }
            } else {
                return true;
            }
        }
        match find_entry_index(&self.dependencies, &dependency.mod_id) {
            Some(k) => {
                if dependency.dependency_type != DependencyType::Require {
                    return true;
                }
                let result = match &dependency.version {
                    None => true,
                    Some(dv) => match &self.dependencies[k].data.version {
                        Some(v) => *v >= *dv,
                        None => false,
                    },
                };
                if result {
                    let c = self.dependencies[k].data.usages_count;
                    self.dependencies[k].data.usages_count = if c < i64::MAX {
                        c + 1
                    } else {
                        c
                    };
                    proof {
                        assert(entries_view(self.dependencies@) =~= pre.update(
                            k as int,
                            EntryView {
                                mod_id: pre[k as int].mod_id,
                                data: ExtendedDependency {
                                    version: pre[k as int].data.version,
                                    dependency_type: pre[k as int].data.dependency_type,
                                    usages_count: inc_count(pre[k as int].data.usages_count),
                                },
                            },
                        ));
                    }
                }
                result
            },
            None => false,
        }
    }

    /// One bookkeeping decrement, as `spec_remove_usage` states it.
    pub fn remove_usage(&mut self, dependency: &Dependency)
        ensures
            entries_view(final(self).dependencies@) == spec_remove_usage(
                entries_view(old(self).dependencies@),
                dependency@,
            ),
            final(self).need_process == old(self).need_process,
            final(self).instance == old(self).instance,
    {
        let ghost pre = entries_view(self.dependencies@);
        match find_entry_index(&self.dependencies, &dependency.mod_id) {
            Some(k) => {
                let c = self.dependencies[k].data.usages_count;
                self.dependencies[k].data.usages_count = if c > i64::MIN {
                    c - 1
                } else {
                    c
                };
                proof {
                    assert(entries_view(self.dependencies@) =~= pre.update(
                        k as int,
                        EntryView {
                            mod_id: pre[k as int].mod_id,
                            data: ExtendedDependency {
                                version: pre[k as int].data.version,
                                dependency_type: pre[k as int].data.dependency_type,
                                usages_count: dec_count(pre[k as int].data.usages_count),
                            },
                        },
                    ));
                }
            },
            None => {
                self.dependencies.push(
                    ResolutionEntry {
                        mod_id: dependency.mod_id.clone(),
                        data: ExtendedDependency {
                            version: dependency.version,
                            dependency_type: dependency.dependency_type,
                            usages_count: -1 as i64,
                        },
                    },
                );
                proof {
                    assert(entries_view(self.dependencies@) =~= spec_remove_usage(
                        pre,
                        dependency@,
                    ));
                }
            },
        }
    }

    /// One merge into the entry map, as `spec_add_dependency` states it. The
    /// registry response is given only on the path that chose a release.
    pub fn add_dependency(&mut self, dependency: Dependency, mod_info: Option<ModInfo>)
        ensures
            entries_view(final(self).dependencies@) == spec_add_dependency(
                entries_view(old(self).dependencies@),
                dependency@,
                match mod_info {
                    Some(info) => Some(info@),
                    None => None::<ModInfoView>,
                },
            ),
            final(self).need_process == old(self).need_process,
            final(self).instance == old(self).instance,
    {
        let ghost pre = entries_view(self.dependencies@);
        let ghost infov = match &mod_info {
            Some(info) => Some(info@),
            None => None::<ModInfoView>,
        };
        let mut remove_usages_for: Option<Vec<Dependency>> = None;
        let ghost mut cascade_deps: Seq<DependencyView> = Seq::empty();
        match find_entry_index(&self.dependencies, &dependency.mod_id) {
            Some(k) => {
                let e = self.dependencies[k].data;
                let mut upgrade = false;
                if let Some(v) = &e.version {
                    if let Some(dv) = &dependency.version {
                        if *dv > *v {
                            upgrade = true;
                            if let Some(info) = &mod_info {
                                remove_usages_for = match find_release_index(&info.releases, v) {
                                    None => None,
                                    Some(ri) => Some(
                                        duplicate_dependencies(
                                            &info.releases[ri].info_json.dependencies,
                                        ),
                                    ),
                                };
                            }
                        }
                    }
                }
                let newdata = ExtendedDependency {
                    version: if upgrade {
                        dependency.version
                    } else {
                        e.version
                    },
                    dependency_type: e.dependency_type,
                    usages_count: if e.usages_count < i64::MAX {
                        e.usages_count + 1
                    } else {
                        e.usages_count
                    },
                };
                self.dependencies[k].data = newdata;
                proof {
                    assert(entries_view(self.dependencies@) =~= pre.update(
                        k as int,
                        EntryView { mod_id: pre[k as int].mod_id, data: newdata },
                    ));
                    if remove_usages_for is Some {
                        cascade_deps = deps_view(remove_usages_for->0@);
                        assert(spec_add_dependency(pre, dependency@, infov) == spec_cascade(
                            entries_view(self.dependencies@),
                            cascade_deps,
                        ));
                    } else {
                        assert(spec_add_dependency(pre, dependency@, infov) == entries_view(
                            self.dependencies@,
                        ));
                    }
                }
            },
            None => {
                self.dependencies.push(
                    ResolutionEntry {
                        mod_id: dependency.mod_id,
                        data: ExtendedDependency {
                            version: dependency.version,
                            dependency_type: dependency.dependency_type,
                            usages_count: 1,
                        },
                    },
                );
                proof {
                    assert(entries_view(self.dependencies@) =~= spec_add_dependency(
                        pre,
                        dependency@,
                        infov,
                    ));
                }
            },
        }
        if let Some(rlist) = remove_usages_for {
            let ghost start = entries_view(self.dependencies@);
            let ghost rall = deps_view(rlist@);
            proof {
                assert(rall.subrange(0, rall.len() as int) =~= rall);
            }
            let mut i: usize = 0;
            while i < rlist.len()
                invariant
                    i <= rlist@.len(),
                    rall == deps_view(rlist@),
                    spec_cascade(
                        entries_view(self.dependencies@),
                        rall.subrange(i as int, rall.len() as int),
                    ) == spec_cascade(start, rall),
                    self.need_process == old(self).need_process,
                    self.instance == old(self).instance,
                decreases rlist@.len() - i,
            {
                proof {
                    let rem = rall.subrange(i as int, rall.len() as int);
                    assert(rem.first() == rall[i as int]);
                    assert(rem.drop_first() =~= rall.subrange(i + 1, rall.len() as int));
                    assert(rall[i as int] == rlist@[i as int]@);
                }
                self.remove_usage(&rlist[i]);
                i = i + 1;
            }
            proof {
                assert(rall.subrange(rall.len() as int, rall.len() as int).len() == 0);
            }
        }
    }

    /// Processes one requirement as far as the snapshot and the entries allow:
    /// a satisfied, non-Require or environment-content requirement is merged
    /// at once; a Require on a fetchable mod is handed back, since only the
    /// caller can obtain the registry's response for it.
    pub fn process_dependency(&mut self, dependency: Dependency) -> (r: ProcessOutcome)
        ensures
            ({
                let pre = entries_view(old(self).dependencies@);
                let sc = spec_check_satisfied(
                    mods_view(old(self).instance.mods@),
                    pre,
                    dependency@,
                );
                &&& final(self).instance == old(self).instance
                &&& final(self).need_process == old(self).need_process
                &&& if sc.0 {
                    r is Handled && entries_view(final(self).dependencies@) == sc.1
                } else if dependency@.dependency_type == DependencyType::Require
                    && spec_is_game_content(dependency@.mod_id) {
                    r is Handled && entries_view(final(self).dependencies@)
                        == spec_add_dependency(pre, dependency@, None)
                } else if dependency@.dependency_type == DependencyType::Require {
                    &&& r matches ProcessOutcome::NeedsModInfo(d) && d@ == dependency@
                    &&& entries_view(final(self).dependencies@) == pre
                } else {
                    r is Handled && entries_view(final(self).dependencies@)
                        == spec_add_dependency(pre, dependency@, None)
                }
            }),
    {
        if self.check_satisfied(&dependency) {
            return ProcessOutcome::Handled;
        }
        match dependency.dependency_type {
            DependencyType::Require => {
                if is_mod_game_content(dependency.mod_id.as_str()) {
                    self.add_dependency(dependency, None);
                    ProcessOutcome::Handled
                } else {
                    ProcessOutcome::NeedsModInfo(dependency)
                }
            },
            _ => {
                self.add_dependency(dependency, None);
                ProcessOutcome::Handled
            },
        }
    }

    /// Resumes a Require with the registry's prepared response: selects the
    /// release -- the exact version asked for, or the newest one -- enqueues
    /// everything it declares, and merges the requirement at the chosen
    /// version.
    pub fn apply_mod_info(&mut self, dependency: Dependency, mod_info: ModInfo) -> (r: Result<
        (),
        Error,
    >)
        ensures
            final(self).instance == old(self).instance,
            match spec_select_release(mod_info@.releases, dependency@.version) {
                None => {
                    &&& r matches Err(e) && e@ == ErrorView::CantFoundSuitableRelease(
                        dependency@.mod_id,
                        dependency@.version,
                    )
                    &&& final(self).need_process == old(self).need_process
                    &&& final(self).dependencies == old(self).dependencies
                },
                Some(rel) => {
                    &&& r is Ok
                    &&& deps_view(final(self).need_process@) == deps_view(
                        old(self).need_process@,
                    ) + rel.info_json.dependencies
                    &&& entries_view(final(self).dependencies@) == spec_add_dependency(
                        entries_view(old(self).dependencies@),
                        DependencyView {
                            mod_id: dependency@.mod_id,
                            version: Some(rel.version),
                            dependency_type: dependency@.dependency_type,
                        },
                        Some(mod_info@),
                    )
                },
            },
    {
        let release_index: Option<usize> = if let Some(version) = &dependency.version {
            find_release_index(&mod_info.releases, version)
        } else {
            if mod_info.releases.len() == 0 {
                None
            } else {
                proof {
                    assert(mod_info@.releases.last() == mod_info.releases@[mod_info.releases@.len()
                        - 1]@);
                }
                Some(mod_info.releases.len() - 1)
            }
        };
        let ri = match release_index {
            Some(ri) => ri,
            None => {
                return Err(Error::CantFoundSuitableRelease(dependency.mod_id, dependency.version));
            },
        };
        let mut newdeps = duplicate_dependencies(&mod_info.releases[ri].info_json.dependencies);
        let ghost oldq = deps_view(self.need_process@);
        self.need_process.append(&mut newdeps);
        proof {
            assert(deps_view(self.need_process@) =~= oldq
                + mod_info.releases@[ri as int]@.info_json.dependencies);
        }
        let chosen_version = mod_info.releases[ri].version;
        let dep2 = Dependency {
            mod_id: dependency.mod_id,
            version: Some(chosen_version),
            dependency_type: dependency.dependency_type,
        };
        self.add_dependency(dep2, Some(mod_info));
        Ok(())
    }
}

/// Which release answers a Require: the one carrying exactly the demanded
/// version, or, with no version demanded, the last (highest) of the list.
pub open spec fn spec_select_release(releases: Seq<ModReleaseView>, req: Option<Version>) -> Option<
    ModReleaseView,
> {
    match req {
        Some(v) => find_release(releases, v),
        None => if releases.len() == 0 {
            None
        } else {
            Some(releases.last())
        },
    }
}

/// One resolution run's abstract state: the pending worklist and the entries.
pub ghost struct RState {
    pub queue: Seq<DependencyView>,
    pub entries: Seq<EntryView>,
}

/// What one abstract step yields: a next state, the final entries, or an error.
pub ghost enum StepResult {
    Next(RState),
    Done(Seq<EntryView>),
    Fail(ErrorView),
}

/// The cause text a resolution reports when the registry has no entry at all
/// for a required id.
pub open spec fn missing_cause() -> Seq<char> {
    "not found in registry"@
}

/// One step of the resolution: take the front of the worklist and process it.
/// A requirement that is satisfied, not a Require, or a Require on
/// environment content is merged directly; any other Require consults the
/// registry, whose prepared response selects the release whose requirements
/// join the worklist.
pub open spec fn resolve_step(reg: RegistryView, inst: InstanceView, s: RState) -> StepResult {
    if s.queue.len() == 0 {
        StepResult::Done(s.entries)
    } else {
        let dep = s.queue.first();
        let rest = s.queue.drop_first();
        let sc = spec_check_satisfied(inst.mods, s.entries, dep);
        if sc.0 {
            StepResult::Next(RState { queue: rest, entries: sc.1 })
        } else if dep.dependency_type == DependencyType::Require && spec_is_game_content(
            dep.mod_id,
        ) {
            StepResult::Next(
                RState { queue: rest, entries: spec_add_dependency(s.entries, dep, None) },
            )
        } else if dep.dependency_type == DependencyType::Require {
            match find_registry(reg.mods, dep.mod_id) {
                None => StepResult::Fail(ErrorView::ModNotFound(dep.mod_id, missing_cause())),
                Some(info) => {
                    let prepared = ModInfoView {
                        releases: spec_prepare_releases(inst, info.releases),
                    };
                    match spec_select_release(prepared.releases, dep.version) {
                        None => StepResult::Fail(
                            ErrorView::CantFoundSuitableRelease(dep.mod_id, dep.version),
                        ),
                        Some(rel) => StepResult::Next(
                            RState {
                                queue: rest + rel.info_json.dependencies,
                                entries: spec_add_dependency(
                                    s.entries,
                                    DependencyView {
                                        mod_id: dep.mod_id,
                                        version: Some(rel.version),
                                        dependency_type: dep.dependency_type,
                                    },
                                    Some(prepared),
                                ),
                            },
                        ),
                    }
                },
            }
        } else {
            StepResult::Next(
                RState { queue: rest, entries: spec_add_dependency(s.entries, dep, None) },
            )
        }
    }
}

/// The resolved set an entry list denotes: one requirement spec per entry
/// whose usage count stayed positive, in entry order.
pub open spec fn output_deps(entries: Seq<EntryView>) -> Seq<DependencyView>
    decreases entries.len(),
{
    if entries.len() == 0 {
        Seq::empty()
    } else {
        let rest = output_deps(entries.drop_last());
        let e = entries.last();
        if e.data.usages_count > 0 {
            rest.push(
                DependencyView {
                    mod_id: e.mod_id,
                    version: e.data.version,
                    dependency_type: e.data.dependency_type,
                },
            )
        } else {
            rest
        }
    }
}

/// Steps the resolution until it finishes or the fuel runs out.
pub open spec fn run_resolution(
    reg: RegistryView,
    inst: InstanceView,
    s: RState,
    fuel: nat,
) -> Option<Result<Seq<DependencyView>, ErrorView>>
    decreases fuel,
{
    if fuel == 0 {
        None
    } else {
        match resolve_step(reg, inst, s) {
            StepResult::Done(e) => Some(Ok(output_deps(e))),
            StepResult::Fail(err) => Some(Err(err)),
            StepResult::Next(s2) => run_resolution(reg, inst, s2, (fuel - 1) as nat),
        }
    }
}

/// The state a resolution of (id, version) starts from: one Require spec.
pub open spec fn init_state(id: Seq<char>, version: Version) -> RState {
    RState {
        queue: seq![
            DependencyView {
                mod_id: id,
                version: Some(version),
                dependency_type: DependencyType::Require,
            },
        ],
        entries: Seq::empty(),
    }
}

/// Whether the resolution of (id, version) reaches a result in finitely many
/// steps. A registry whose requirement cycles pass through entries that never
/// acquire a version can make the worklist grow forever; such inputs are
/// excluded from `process_dependencies`.
pub open spec fn resolution_terminates(
    reg: RegistryView,
    inst: InstanceView,
    id: Seq<char>,
    version: Version,
) -> bool {
    exists|f: nat| run_resolution(reg, inst, init_state(id, version), f) is Some
}

/// The one outcome a terminating resolution has: the resolved requirement
/// set, or the error that aborted the run.
pub open spec fn spec_resolution(
    reg: RegistryView,
    inst: InstanceView,
    id: Seq<char>,
    version: Version,
) -> Result<Seq<DependencyView>, ErrorView> {
    let f = choose|f: nat| run_resolution(reg, inst, init_state(id, version), f) is Some;
    run_resolution(reg, inst, init_state(id, version), f)->0
}

/// Spending more fuel than a finished run needs changes nothing.
pub proof fn lemma_run_stable(reg: RegistryView, inst: InstanceView, s: RState, f1: nat, f2: nat)
    requires
        run_resolution(reg, inst, s, f1) is Some,
        f1 <= f2,
    ensures
        run_resolution(reg, inst, s, f2) == run_resolution(reg, inst, s, f1),
    decreases f1,
{
    if f1 > 0 {
        match resolve_step(reg, inst, s) {
            StepResult::Next(s2) => {
                lemma_run_stable(reg, inst, s2, (f1 - 1) as nat, (f2 - 1) as nat);
            },
            _ => {},
        }
    }
}

/// Determinism: over one registry and one snapshot, every fuel that lets the
/// resolution finish yields the same outcome -- repeated runs cannot differ.
pub proof fn lemma_resolution_deterministic(
    reg: RegistryView,
    inst: InstanceView,
    s: RState,
    f1: nat,
    f2: nat,
)
    requires
        run_resolution(reg, inst, s, f1) is Some,
        run_resolution(reg, inst, s, f2) is Some,
    ensures
        run_resolution(reg, inst, s, f1) == run_resolution(reg, inst, s, f2),
{
    if f1 <= f2 {
        lemma_run_stable(reg, inst, s, f1, f2);
    } else {
        lemma_run_stable(reg, inst, s, f2, f1);
    }
}

/// Any finished run's outcome is the resolution's one outcome.
pub proof fn lemma_resolution_outcome(
    reg: RegistryView,
    inst: InstanceView,
    id: Seq<char>,
    version: Version,
    f: nat,
)
    requires
        run_resolution(reg, inst, init_state(id, version), f) is Some,
    ensures
        Some(spec_resolution(reg, inst, id, version)) == run_resolution(
            reg,
            inst,
            init_state(id, version),
            f,
        ),
{
    let fc = choose|fc: nat| run_resolution(reg, inst, init_state(id, version), fc) is Some;
    assert(run_resolution(reg, inst, init_state(id, version), fc) is Some);
    lemma_resolution_deterministic(reg, inst, init_state(id, version), f, fc);
}

impl<'a> DependenciesProcessor<'a> {
    /// The resolved requirement set the entries denote so far: every entry
    /// whose usage count stayed positive, in entry order.
    pub fn resolved_output(&self) -> (r: Vec<Dependency>)
        ensures
            deps_view(r@) == output_deps(entries_view(self.dependencies@)),
    {
        collect_output(&self.dependencies)
    }
}

/// The requirement specs the final entry list emits: every entry whose usage
/// count stayed positive.
fn collect_output(entries: &Vec<ResolutionEntry>) -> (r: Vec<Dependency>)
    ensures
        deps_view(r@) == output_deps(entries_view(entries@)),
{
    let ghost all = entries_view(entries@);
    let mut r: Vec<Dependency> = Vec::new();
    let mut i: usize = 0;
    proof {
        assert(all.subrange(0, 0).len() == 0);
        assert(deps_view(r@) =~= output_deps(all.subrange(0, 0)));
    }
    while i < entries.len()
        invariant
            i <= entries@.len(),
            all == entries_view(entries@),
            deps_view(r@) == output_deps(all.subrange(0, i as int)),
        decreases entries@.len() - i,
    {
        proof {
            assert(all.subrange(0, i + 1).drop_last() =~= all.subrange(0, i as int));
            assert(all.subrange(0, i + 1).last() == entries@[i as int]@);
        }
        if entries[i].data.usages_count > 0 {
            r.push(
                Dependency {
                    mod_id: entries[i].mod_id.clone(),
                    version: entries[i].data.version,
                    dependency_type: entries[i].data.dependency_type,
                },
            );
            proof {
                assert(deps_view(r@) =~= output_deps(all.subrange(0, i + 1)));
            }
        }
        i = i + 1;
    }
    proof {
        assert(all.subrange(0, all.len() as int) =~= all);
    }
    r
}

/// Resolves one root requirement against the registry and the snapshot: the
/// worklist-driven fixed point of `resolve_step`, whose outcome
/// `spec_resolution` pins down. The registry must be one against which this
/// resolution terminates.
pub fn process_dependencies(
    registry: &Registry,
    instance: &Instance,
    id: String,
    version: Version,
) -> (r: Result<Vec<Dependency>, Error>)
    requires
        resolution_terminates(registry@, instance@, id@, version),
    ensures
        match r {
            Ok(deps) => spec_resolution(registry@, instance@, id@, version) == Ok::<
                Seq<DependencyView>,
                ErrorView,
            >(deps_view(deps@)),
            Err(e) => spec_resolution(registry@, instance@, id@, version) == Err::<
                Seq<DependencyView>,
                ErrorView,
            >(e@),
        },
{
    let ghost idv = id@;
    let ghost init = init_state(idv, version);
    let factorio_api = FactorioApi::new(instance);
    let mut processor = DependenciesProcessor::new(instance);
    processor.need_process.push(Dependency::new(id, Some(version), DependencyType::Require));
    proof {
        assert(deps_view(processor.need_process@) =~= init.queue);
        assert(entries_view(processor.dependencies@) =~= init.entries);
    }
    let ghost fuel0 = choose|f: nat|
        run_resolution(registry@, instance@, init, f) is Some;
    let ghost mut fuel = fuel0;
    proof {
        assert(run_resolution(registry@, instance@, init, fuel0) is Some);
    }
    while processor.need_process.len() != 0
        invariant
            processor.instance == instance,
            run_resolution(
                registry@,
                instance@,
                RState {
                    queue: deps_view(processor.need_process@),
                    entries: entries_view(processor.dependencies@),
                },
                fuel,
            ) == run_resolution(registry@, instance@, init, fuel0),
            run_resolution(
                registry@,
                instance@,
                RState {
                    queue: deps_view(processor.need_process@),
                    entries: entries_view(processor.dependencies@),
                },
                fuel,
            ) is Some,
        decreases fuel,
    {
        let ghost pre = RState {
            queue: deps_view(processor.need_process@),
            entries: entries_view(processor.dependencies@),
        };
        let ghost stepres = resolve_step(registry@, instance@, pre);
        proof {
            assert(fuel > 0);
        }
        let dependency = processor.need_process.remove(0);
        proof {
            assert(dependency@ == pre.queue.first());
            assert(deps_view(processor.need_process@) =~= pre.queue.drop_first());
        }
        match processor.process_dependency(dependency) {
            ProcessOutcome::Handled => {
                proof {
                    let newst = RState {
                        queue: deps_view(processor.need_process@),
                        entries: entries_view(processor.dependencies@),
                    };
                    assert(stepres == StepResult::Next(newst));
                    fuel = (fuel - 1) as nat;
                }
            },
            ProcessOutcome::NeedsModInfo(dep) => {
                match registry.get_mod(&dep.mod_id) {
                    None => {
                        proof {
                            assert(stepres == StepResult::Fail(
                                ErrorView::ModNotFound(dep@.mod_id, missing_cause()),
                            ));
                            lemma_resolution_outcome(registry@, instance@, idv, version, fuel0);
                        }
                        return Err(
                            Error::ModNotFound(
                                dep.mod_id,
                                String::from_str("not found in registry"),
                            ),
                        );
                    },
                    Some(info) => {
                        let prepared = ModInfo {
                            releases: factorio_api.prepare_releases(&info.releases),
                        };
                        match processor.apply_mod_info(dep, prepared) {
                            Ok(_) => {
                                proof {
                                    let newst = RState {
                                        queue: deps_view(processor.need_process@),
                                        entries: entries_view(processor.dependencies@),
                                    };
                                    assert(stepres == StepResult::Next(newst));
                                    fuel = (fuel - 1) as nat;
                                }
                            },
                            Err(e) => {
                                proof {
                                    assert(stepres == StepResult::Fail(e@));
                                    lemma_resolution_outcome(
                                        registry@,
                                        instance@,
                                        idv,
                                        version,
                                        fuel0,
                                    );
                                }
                                return Err(e);
                            },
                        }
                    },
                }
            },
        }
    }
    let out = processor.resolved_output();
    proof {
        assert(fuel > 0);
        lemma_resolution_outcome(registry@, instance@, idv, version, fuel0);
    }
    Ok(out)
}

/// One mod to install, at the resolved version.
pub struct InstallChange {
    pub id: String,
    pub version: Version,
}

pub ghost struct InstallChangeView {
    pub id: Seq<char>,
    pub version: Version,
}

impl View for InstallChange {
    type V = InstallChangeView;

    open spec fn view(&self) -> InstallChangeView {
        InstallChangeView { id: self.id@, version: self.version }
    }
}

/// One installed mod to move from its old version to the resolved one.
pub struct UpdateChange {
    pub id: String,
    pub old_version: Version,
    pub new_version: Version,
}

pub ghost struct UpdateChangeView {
    pub id: Seq<char>,
    pub old_version: Version,
    pub new_version: Version,
}

impl View for UpdateChange {
    type V = UpdateChangeView;

    open spec fn view(&self) -> UpdateChangeView {
        UpdateChangeView {
            id: self.id@,
            old_version: self.old_version,
            new_version: self.new_version,
        }
    }
}

/// The plan handed to the installer: what to install, what to update, and
/// which installed mods conflict with the resolved set.
pub struct Changes {
    pub install: Vec<InstallChange>,
    pub update: Vec<UpdateChange>,
    pub conflicts: Vec<String>,
}

pub ghost struct ChangesView {
    pub install: Seq<InstallChangeView>,
    pub update: Seq<UpdateChangeView>,
    pub conflicts: Seq<Seq<char>>,
}

impl View for Changes {
    type V = ChangesView;

    open spec fn view(&self) -> ChangesView {
        ChangesView {
            install: self.install@.map_values(|c: InstallChange| c@),
            update: self.update@.map_values(|c: UpdateChange| c@),
            conflicts: self.conflicts@.map_values(|s: String| s@),
        }
    }
}

/// What one resolved requirement adds to the plan: a Conflict on an installed
/// id emits a conflict action; a Require on a fetchable id emits an update
/// when installed below the resolved version and an install when absent;
/// everything else emits nothing.
pub open spec fn spec_plan_one(
    mods: Seq<InstalledModView>,
    prev: ChangesView,
    d: DependencyView,
) -> ChangesView {
    if d.dependency_type == DependencyType::Conflict {
        if find_installed(mods, d.mod_id) is Some {
            ChangesView {
                install: prev.install,
                update: prev.update,
                conflicts: prev.conflicts.push(d.mod_id),
            }
        } else {
            prev
        }
    } else if d.dependency_type == DependencyType::Require {
        if spec_is_game_content(d.mod_id) {
            prev
        } else {
            let v = d.version->0;
            match find_installed(mods, d.mod_id) {
                Some(m) => if version_lt(m.version, v) {
                    ChangesView {
                        install: prev.install,
                        update: prev.update.push(
                            UpdateChangeView {
                                id: d.mod_id,
                                old_version: m.version,
                                new_version: v,
                            },
                        ),
                        conflicts: prev.conflicts,
                    }
                } else {
                    prev
                },
                None => ChangesView {
                    install: prev.install.push(InstallChangeView { id: d.mod_id, version: v }),
                    update: prev.update,
                    conflicts: prev.conflicts,
                },
            }
        }
    } else {
        prev
    }
}

/// The plan a resolved set denotes, in discovery order.
pub open spec fn spec_compute(
    mods: Seq<InstalledModView>,
    deps: Seq<DependencyView>,
) -> ChangesView
    decreases deps.len(),
{
    if deps.len() == 0 {
        ChangesView { install: Seq::empty(), update: Seq::empty(), conflicts: Seq::empty() }
    } else {
        spec_plan_one(mods, spec_compute(mods, deps.drop_last()), deps.last())
    }
}

/// Every Require on a fetchable id in a planner input must carry a resolved
/// version: the planner reads it to decide between install and update.
pub open spec fn plan_input_ok(deps: Seq<DependencyView>) -> bool {
    forall|i: int|
        0 <= i < deps.len() ==> (((#[trigger] deps[i]).dependency_type == DependencyType::Require
            && !spec_is_game_content(deps[i].mod_id)) ==> deps[i].version is Some)
}

impl Changes {
    /// Classifies a resolved set against the snapshot, as `spec_compute`
    /// states it.
    pub fn compute(instance: &Instance, dependencies: &Vec<Dependency>) -> (r: Changes)
        requires
            plan_input_ok(deps_view(dependencies@)),
        ensures
            r@ == spec_compute(mods_view(instance.mods@), deps_view(dependencies@)),
    {
        let ghost mods = mods_view(instance.mods@);
        let ghost all = deps_view(dependencies@);
        let mut install: Vec<InstallChange> = Vec::new();
        let mut update: Vec<UpdateChange> = Vec::new();
        let mut conflicts: Vec<String> = Vec::new();
        let mut i: usize = 0;
        proof {
            assert(all.subrange(0, 0).len() == 0);
            assert(install@.map_values(|c: InstallChange| c@) =~= Seq::<InstallChangeView>::empty());
            assert(update@.map_values(|c: UpdateChange| c@) =~= Seq::<UpdateChangeView>::empty());
            assert(conflicts@.map_values(|s: String| s@) =~= Seq::<Seq<char>>::empty());
        }
        while i < dependencies.len()
            invariant
                i <= dependencies@.len(),
                all == deps_view(dependencies@),
                (ChangesView {
                    install: install@.map_values(|c: InstallChange| c@),
                    update: update@.map_values(|c: UpdateChange| c@),
                    conflicts: conflicts@.map_values(|s: String| s@),
                }) == spec_compute(mods, all.subrange(0, i as int)),
            decreases dependencies@.len() - i,
        {
            let ghost prev = spec_compute(mods, all.subrange(0, i as int));
            proof {
                assert(all.subrange(0, i + 1).drop_last() =~= all.subrange(0, i as int));
                assert(all.subrange(0, i + 1).last() == dependencies@[i as int]@);
            }
            let dependency = &dependencies[i];
            match dependency.dependency_type {
                DependencyType::Conflict => {
                    if let Some(_) = crate::instance::find_mod(
                        &instance.mods,
                        &dependency.mod_id,
                    ) {
                        conflicts.push(dependency.mod_id.clone());
                        proof {
                            assert(conflicts@.map_values(|s: String| s@) =~= prev.conflicts.push(
                                dependency@.mod_id,
                            ));
                        }
                    }
                },
                DependencyType::Require => {
                    if !is_mod_game_content(dependency.mod_id.as_str()) {
                        let version = dependency.version.unwrap();
                        if let Some(installed) = crate::instance::find_mod(
                            &instance.mods,
                            &dependency.mod_id,
                        ) {
                            if version > installed.version {
                                update.push(
                                    UpdateChange {
                                        id: dependency.mod_id.clone(),
                                        old_version: installed.version,
                                        new_version: version,
                                    },
                                );
                                proof {
                                    assert(update@.map_values(|c: UpdateChange| c@)
                                        =~= prev.update.push(
                                        UpdateChangeView {
                                            id: dependency@.mod_id,
                                            old_version: installed@.version,
                                            new_version: version,
                                        },
                                    ));
                                }
                            }
                        } else {
                            install.push(
                                InstallChange { id: dependency.mod_id.clone(), version },
                            );
                            proof {
                                assert(install@.map_values(|c: InstallChange| c@)
                                    =~= prev.install.push(
                                    InstallChangeView { id: dependency@.mod_id, version },
                                ));
                            }
                        }
                    }
                },
                DependencyType::Optional => {},
            }
            i = i + 1;
        }
        proof {
            assert(all.subrange(0, all.len() as int) =~= all);
        }
        Changes { install, update, conflicts }
    }
}

proof fn lemma_find_entry_same_ids(
    e1: Seq<EntryView>,
    e2: Seq<EntryView>,
    id: Seq<char>,
    from: int,
)
    requires
        0 <= from,
        e1.len() == e2.len(),
        forall|i: int| 0 <= i < e1.len() ==> (#[trigger] e1[i]).mod_id == e2[i].mod_id,
    ensures
        find_entry_from(e1, id, from) == find_entry_from(e2, id, from),
    decreases e1.len() - from,
{
    if from < e1.len() && e1[from].mod_id != id {
        lemma_find_entry_same_ids(e1, e2, id, from + 1);
    }
}

proof fn lemma_find_entry_push(entries: Seq<EntryView>, x: EntryView, id: Seq<char>, from: int)
    requires
        0 <= from,
        find_entry_from(entries, id, from) is Some,
    ensures
        find_entry_from(entries.push(x), id, from) == find_entry_from(entries, id, from),
    decreases entries.len() - from,
{
    assert(entries.push(x).len() == entries.len() + 1);
    assert(from < entries.len());
    assert(entries.push(x)[from] == entries[from]);
    if entries[from].mod_id != id {
        lemma_find_entry_push(entries, x, id, from + 1);
    }
}

/// A bookkeeping decrement never moves an existing entry, nor changes its
/// version or kind.
proof fn lemma_remove_usage_preserves(
    entries: Seq<EntryView>,
    d: DependencyView,
    id: Seq<char>,
    k: int,
)
    requires
        find_entry(entries, id) == Some(k),
    ensures
        ({
            let e2 = spec_remove_usage(entries, d);
            &&& find_entry(e2, id) == Some(k)
            &&& e2[k].mod_id == entries[k].mod_id
            &&& e2[k].data.version == entries[k].data.version
            &&& e2[k].data.dependency_type == entries[k].data.dependency_type
        }),
{
    lemma_find_entry_bounds(entries, d.mod_id, 0);
    lemma_find_entry_bounds(entries, id, 0);
    let e2 = spec_remove_usage(entries, d);
    match find_entry(entries, d.mod_id) {
        Some(j) => {
            lemma_find_entry_same_ids(e2, entries, id, 0);
        },
        None => {
            lemma_find_entry_push(entries, e2.last(), id, 0);
        },
    }
}

/// A whole cascade never moves an existing entry, nor changes its version or
/// kind: it only adjusts usage counts and appends bookkeeping entries.
proof fn lemma_cascade_preserves(
    entries: Seq<EntryView>,
    deps: Seq<DependencyView>,
    id: Seq<char>,
    k: int,
)
    requires
        find_entry(entries, id) == Some(k),
    ensures
        ({
            let e2 = spec_cascade(entries, deps);
            &&& find_entry(e2, id) == Some(k)
            &&& e2[k].mod_id == entries[k].mod_id
            &&& e2[k].data.version == entries[k].data.version
            &&& e2[k].data.dependency_type == entries[k].data.dependency_type
        }),
    decreases deps.len(),
{
    if deps.len() > 0 {
        lemma_remove_usage_preserves(entries, deps.first(), id, k);
        lemma_cascade_preserves(spec_remove_usage(entries, deps.first()), deps.drop_first(), id, k);
    }
}

/// At most one resolution entry per package id.
pub open spec fn entry_ids_unique(entries: Seq<EntryView>) -> bool {
    forall|i: int, j: int|
        0 <= i < j < entries.len() ==> (#[trigger] entries[i]).mod_id != (#[trigger] entries[j]).mod_id
}

proof fn lemma_remove_usage_keeps_unique(entries: Seq<EntryView>, d: DependencyView)
    requires
        entry_ids_unique(entries),
    ensures
        entry_ids_unique(spec_remove_usage(entries, d)),
{
    let e2 = spec_remove_usage(entries, d);
    match find_entry(entries, d.mod_id) {
        Some(k) => {
            lemma_find_entry_bounds(entries, d.mod_id, 0);
            assert(forall|i: int|
                0 <= i < e2.len() ==> (#[trigger] e2[i]).mod_id == entries[i].mod_id);
        },
        None => {
            lemma_find_entry_bounds(entries, d.mod_id, 0);
            assert(forall|i: int| 0 <= i < entries.len() ==> #[trigger] e2[i] == entries[i]);
        },
    }
}

proof fn lemma_cascade_keeps_unique(entries: Seq<EntryView>, deps: Seq<DependencyView>)
    requires
        entry_ids_unique(entries),
    ensures
        entry_ids_unique(spec_cascade(entries, deps)),
    decreases deps.len(),
{
    if deps.len() > 0 {
        lemma_remove_usage_keeps_unique(entries, deps.first());
        lemma_cascade_keeps_unique(spec_remove_usage(entries, deps.first()), deps.drop_first());
    }
}

proof fn lemma_add_dependency_keeps_unique(
    entries: Seq<EntryView>,
    dep: DependencyView,
    info: Option<ModInfoView>,
)
    requires
        entry_ids_unique(entries),
    ensures
        entry_ids_unique(spec_add_dependency(entries, dep, info)),
{
    lemma_find_entry_bounds(entries, dep.mod_id, 0);
    match find_entry(entries, dep.mod_id) {
        None => {
            let e2 = spec_add_dependency(entries, dep, info);
            assert(forall|i: int| 0 <= i < entries.len() ==> #[trigger] e2[i] == entries[i]);
        },
        Some(k) => {
            let e = entries[k];
            let upgrade = e.data.version is Some && dep.version is Some && version_lt(
                e.data.version->0,
                dep.version->0,
            );
            let merged = entries.update(
                k,
                EntryView {
                    mod_id: e.mod_id,
                    data: ExtendedDependency {
                        version: if upgrade {
                            dep.version
                        } else {
                            e.data.version
                        },
                        dependency_type: e.data.dependency_type,
                        usages_count: inc_count(e.data.usages_count),
                    },
                },
            );
            assert(entry_ids_unique(merged)) by {
                assert(forall|i: int|
                    0 <= i < merged.len() ==> (#[trigger] merged[i]).mod_id
                        == entries[i].mod_id);
            }
            if upgrade {
                match info {
                    Some(i) => match find_release(i.releases, e.data.version->0) {
                        Some(rel) => {
                            lemma_cascade_keeps_unique(merged, rel.info_json.dependencies);
                        },
                        None => {},
                    },
                    None => {},
                }
            }
        },
    }
}

proof fn lemma_check_satisfied_keeps_unique(
    mods: Seq<InstalledModView>,
    entries: Seq<EntryView>,
    dep: DependencyView,
)
    requires
        entry_ids_unique(entries),
    ensures
        entry_ids_unique(spec_check_satisfied(mods, entries, dep).1),
{
    let e2 = spec_check_satisfied(mods, entries, dep).1;
    lemma_find_entry_bounds(entries, dep.mod_id, 0);
    assert(forall|i: int|
        0 <= i < e2.len() ==> (#[trigger] e2[i]).mod_id == entries[i].mod_id);
}

/// Every step of the resolution keeps the entry map to one entry per id.
pub proof fn lemma_step_keeps_entry_ids_unique(
    reg: RegistryView,
    inst: InstanceView,
    s: RState,
    s2: RState,
)
    requires
        entry_ids_unique(s.entries),
        resolve_step(reg, inst, s) == StepResult::Next(s2),
    ensures
        entry_ids_unique(s2.entries),
{
    let dep = s.queue.first();
    let sc = spec_check_satisfied(inst.mods, s.entries, dep);
    lemma_check_satisfied_keeps_unique(inst.mods, s.entries, dep);
    if !sc.0 {
        if dep.dependency_type == DependencyType::Require && spec_is_game_content(dep.mod_id) {
            lemma_add_dependency_keeps_unique(s.entries, dep, None);
        } else if dep.dependency_type == DependencyType::Require {
            match find_registry(reg.mods, dep.mod_id) {
                None => {},
                Some(info) => {
                    let prepared = ModInfoView {
                        releases: spec_prepare_releases(inst, info.releases),
                    };
                    match spec_select_release(prepared.releases, dep.version) {
                        None => {},
                        Some(rel) => {
                            lemma_add_dependency_keeps_unique(
                                s.entries,
                                DependencyView {
                                    mod_id: dep.mod_id,
                                    version: Some(rel.version),
                                    dependency_type: dep.dependency_type,
                                },
                                Some(prepared),
                            );
                        },
                    }
                },
            }
        } else {
            lemma_add_dependency_keeps_unique(s.entries, dep, None);
        }
    }
}

proof fn lemma_output_ids_from_entries(entries: Seq<EntryView>, i: int)
    requires
        0 <= i < output_deps(entries).len(),
    ensures
        exists|k: int|
            0 <= k < entries.len() && (#[trigger] entries[k]).mod_id == output_deps(
                entries,
            )[i].mod_id,
    decreases entries.len(),
{
    if entries.len() > 0 {
        let front = entries.drop_last();
        if entries.last().data.usages_count > 0 && i == output_deps(front).len() {
            assert(entries[entries.len() - 1].mod_id == output_deps(entries)[i].mod_id);
        } else {
            lemma_output_ids_from_entries(front, i);
            let k = choose|k: int|
                0 <= k < front.len() && (#[trigger] front[k]).mod_id == output_deps(
                    front,
                )[i].mod_id;
            assert(entries[k].mod_id == output_deps(entries)[i].mod_id);
        }
    }
}

proof fn lemma_output_ids_unique(entries: Seq<EntryView>)
    requires
        entry_ids_unique(entries),
    ensures
        forall|i: int, j: int|
            0 <= i < j < output_deps(entries).len() ==> (#[trigger] output_deps(
                entries,
            )[i]).mod_id != (#[trigger] output_deps(entries)[j]).mod_id,
    decreases entries.len(),
{
    if entries.len() > 0 {
        let front = entries.drop_last();
        assert(entry_ids_unique(front)) by {
            assert(forall|i: int| 0 <= i < front.len() ==> #[trigger] front[i] == entries[i]);
        }
        lemma_output_ids_unique(front);
        if entries.last().data.usages_count > 0 {
            assert forall|i: int| 0 <= i < output_deps(front).len() implies (#[trigger] output_deps(
                front,
            )[i]).mod_id != entries.last().mod_id by {
                lemma_output_ids_from_entries(front, i);
                let k = choose|k: int|
                    0 <= k < front.len() && (#[trigger] front[k]).mod_id == output_deps(
                        front,
                    )[i].mod_id;
                assert(front[k] == entries[k]);
                assert(entries[k].mod_id != entries[entries.len() - 1].mod_id);
            }
        }
    }
}

/// The resolver never holds two entries for one id, so a finished run's
/// resolved output names each package id at most once.
pub proof fn lemma_run_output_ids_unique(
    reg: RegistryView,
    inst: InstanceView,
    s: RState,
    f: nat,
    out: Seq<DependencyView>,
)
    requires
        entry_ids_unique(s.entries),
        run_resolution(reg, inst, s, f) == Some(Ok::<Seq<DependencyView>, ErrorView>(out)),
    ensures
        forall|i: int, j: int|
            0 <= i < j < out.len() ==> (#[trigger] out[i]).mod_id != (#[trigger] out[j]).mod_id,
    decreases f,
{
    match resolve_step(reg, inst, s) {
        StepResult::Done(e) => {
            lemma_output_ids_unique(s.entries);
        },
        StepResult::Next(s2) => {
            lemma_step_keeps_entry_ids_unique(reg, inst, s, s2);
            lemma_run_output_ids_unique(reg, inst, s2, (f - 1) as nat, out);
        },
        StepResult::Fail(_) => {},
    }
}

/// In particular, from the empty initial state: whatever set a terminating
/// resolution returns holds at most one requirement spec per package id.
pub proof fn lemma_resolution_output_ids_unique(
    reg: RegistryView,
    inst: InstanceView,
    id: Seq<char>,
    version: Version,
    f: nat,
    out: Seq<DependencyView>,
)
    requires
        run_resolution(reg, inst, init_state(id, version), f) == Some(
            Ok::<Seq<DependencyView>, ErrorView>(out),
        ),
    ensures
        forall|i: int, j: int|
            0 <= i < j < out.len() ==> (#[trigger] out[i]).mod_id != (#[trigger] out[j]).mod_id,
{
    lemma_run_output_ids_unique(reg, inst, init_state(id, version), f, out);
}

/// Upgrade monotonicity: when an id resolved at `v1` is merged again with a
/// demand for `v2`, the stored version afterwards is exactly the maximum of
/// the two -- a newer demand wins, an older or equal one changes nothing.
pub proof fn lemma_upgrade_monotone(
    entries: Seq<EntryView>,
    dep: DependencyView,
    info: Option<ModInfoView>,
    k: int,
    v1: Version,
    v2: Version,
)
    requires
        find_entry(entries, dep.mod_id) == Some(k),
        entries[k].data.version == Some(v1),
        dep.version == Some(v2),
    ensures
        ({
            let e2 = spec_add_dependency(entries, dep, info);
            &&& find_entry(e2, dep.mod_id) == Some(k)
            &&& e2[k].data.version == Some(
                if version_lt(v1, v2) {
                    v2
                } else {
                    v1
                },
            )
        }),
{
    lemma_find_entry_bounds(entries, dep.mod_id, 0);
    let upgrade = version_lt(v1, v2);
    let merged = entries.update(
        k,
        EntryView {
            mod_id: entries[k].mod_id,
            data: ExtendedDependency {
                version: if upgrade {
                    dep.version
                } else {
                    entries[k].data.version
                },
                dependency_type: entries[k].data.dependency_type,
                usages_count: inc_count(entries[k].data.usages_count),
            },
        },
    );
    lemma_find_entry_same_ids(merged, entries, dep.mod_id, 0);
    if upgrade {
        match info {
            Some(i) => match find_release(i.releases, v1) {
                Some(rel) => {
                    lemma_cascade_preserves(merged, rel.info_json.dependencies, dep.mod_id, k);
                },
                None => {},
            },
            None => {},
        }
    }
}

/// Whether the installed snapshot alone answers a requirement.
pub open spec fn installed_satisfies(mods: Seq<InstalledModView>, dep: DependencyView) -> bool {
    match find_installed(mods, dep.mod_id) {
        Some(m) => dep.version is None || version_le(dep.version->0, m.version),
        None => false,
    }
}

/// In a well-formed snapshot, holding any record for the id at or above the
/// demanded version is the same as satisfying the requirement: the record
/// the lookup finds is the only one there is.
pub proof fn lemma_contains_satisfies(
    mods: Seq<InstalledModView>,
    dep: DependencyView,
    k: int,
)
    requires
        crate::instance::names_unique(mods),
        0 <= k < mods.len(),
        mods[k].name == dep.mod_id,
        dep.version is None || version_le(dep.version->0, mods[k].version),
    ensures
        installed_satisfies(mods, dep),
{
    crate::instance::lemma_find_installed_unique(mods, dep.mod_id, k);
}

/// Satisfied-by-installed: a requirement the snapshot already answers is
/// discharged without consulting the registry -- the step is the same under
/// every registry -- and without touching the entries.
pub proof fn lemma_satisfied_by_installed(
    reg1: RegistryView,
    reg2: RegistryView,
    inst: InstanceView,
    s: RState,
)
    requires
        s.queue.len() > 0,
        installed_satisfies(inst.mods, s.queue.first()),
    ensures
        resolve_step(reg1, inst, s) == StepResult::Next(
            RState { queue: s.queue.drop_first(), entries: s.entries },
        ),
        resolve_step(reg1, inst, s) == resolve_step(reg2, inst, s),
{
}

/// And the planner emits no action for a Require whose resolved version does
/// not exceed what is already installed.
pub proof fn lemma_no_action_when_installed_suffices(
    mods: Seq<InstalledModView>,
    prev: ChangesView,
    d: DependencyView,
)
    requires
        d.dependency_type == DependencyType::Require,
        d.version is Some,
        find_installed(mods, d.mod_id) matches Some(m) && version_le(d.version->0, m.version),
    ensures
        spec_plan_one(mods, prev, d) == prev,
{
}

/// How often an id occurs in a list of conflict actions.
pub open spec fn count_id(ids: Seq<Seq<char>>, id: Seq<char>) -> int
    decreases ids.len(),
{
    if ids.len() == 0 {
        0
    } else {
        count_id(ids.drop_last(), id) + if ids.last() == id {
            1int
        } else {
            0int
        }
    }
}

/// How many Conflict specs on an id a resolved set holds.
pub open spec fn count_conflict_specs(deps: Seq<DependencyView>, id: Seq<char>) -> int
    decreases deps.len(),
{
    if deps.len() == 0 {
        0
    } else {
        count_conflict_specs(deps.drop_last(), id) + if deps.last().dependency_type
            == DependencyType::Conflict && deps.last().mod_id == id {
            1int
        } else {
            0int
        }
    }
}

/// Cascade invalidation's visible half: an id all of whose entries ended with
/// a usage count at or below zero is absent from the resolved output.
pub proof fn lemma_dead_entry_not_output(entries: Seq<EntryView>, id: Seq<char>)
    requires
        forall|k: int|
            0 <= k < entries.len() && (#[trigger] entries[k]).mod_id == id
                ==> entries[k].data.usages_count <= 0,
    ensures
        forall|i: int|
            0 <= i < output_deps(entries).len() ==> (#[trigger] output_deps(entries)[i]).mod_id
                != id,
    decreases entries.len(),
{
    if entries.len() > 0 {
        let front = entries.drop_last();
        assert(forall|k: int|
            0 <= k < front.len() && (#[trigger] front[k]).mod_id == id ==> front[k].data.usages_count
                <= 0) by {
            assert(forall|k: int| 0 <= k < front.len() ==> #[trigger] front[k] == entries[k]);
        }
        lemma_dead_entry_not_output(front, id);
    }
}

/// Conflict detection: the plan holds exactly one conflict action per
/// Conflict spec on an installed id, and none at all for an id that is not
/// installed.
pub proof fn lemma_conflict_count(
    mods: Seq<InstalledModView>,
    deps: Seq<DependencyView>,
    id: Seq<char>,
)
    ensures
        count_id(spec_compute(mods, deps).conflicts, id) == if find_installed(mods, id) is Some {
            count_conflict_specs(deps, id)
        } else {
            0int
        },
    decreases deps.len(),
{
    if deps.len() > 0 {
        lemma_conflict_count(mods, deps.drop_last(), id);
        let prev = spec_compute(mods, deps.drop_last());
        let d = deps.last();
        if d.dependency_type == DependencyType::Conflict && find_installed(
            mods,
            d.mod_id,
        ) is Some {
            assert(spec_plan_one(mods, prev, d).conflicts == prev.conflicts.push(d.mod_id));
            assert(prev.conflicts.push(d.mod_id).drop_last() =~= prev.conflicts);
        } else {
            assert(spec_plan_one(mods, prev, d).conflicts == prev.conflicts);
        }
    }
}

} // verus!
