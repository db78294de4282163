//! The registry's view of one installation: which releases are compatible
//! with it, and in which order the resolver sees them.
use vstd::prelude::*;
use crate::instance::{find_installed, Instance};
use crate::mod_info::{
    deps_view, releases_view, version_le, version_lt, DependencyView, ModRelease, ModReleaseView,
};
use crate::utils::{is_mod_game_content, spec_is_game_content};

verus! {

/// Access to the registry's responses for one installation.
pub struct FactorioApi<'a> {
    pub instance: &'a Instance,
}

/// One mod's raw registry response, keyed by the mod's id.
pub struct RegistryMod {
    pub name: String,
    pub info: crate::mod_info::ModInfo,
}

pub ghost struct RegistryModView {
    pub name: Seq<char>,
    pub info: crate::mod_info::ModInfoView,
}

impl View for RegistryMod {
    type V = RegistryModView;

    open spec fn view(&self) -> RegistryModView {
        RegistryModView { name: self.name@, info: self.info@ }
    }
}

/// A set of registry responses held in memory, one per mod id.
pub struct Registry {
    pub mods: Vec<RegistryMod>,
}

pub ghost struct RegistryView {
    pub mods: Seq<RegistryModView>,
}

impl View for Registry {
    type V = RegistryView;

    open spec fn view(&self) -> RegistryView {
        RegistryView { mods: self.mods@.map_values(|m: RegistryMod| m@) }
    }
}

/// The first response stored under this id, if any.
pub open spec fn find_registry_from(
    mods: Seq<RegistryModView>,
    id: Seq<char>,
    from: int,
) -> Option<crate::mod_info::ModInfoView>
    decreases mods.len() - from,
    when 0 <= from
{
    if from >= mods.len() {
        None
    } else if mods[from].name == id {
        Some(mods[from].info)
    } else {
        find_registry_from(mods, id, from + 1)
    }
}

pub open spec fn find_registry(mods: Seq<RegistryModView>, id: Seq<char>) -> Option<
    crate::mod_info::ModInfoView,
> {
    find_registry_from(mods, id, 0)
}

impl Registry {
    /// The raw response stored for a mod id; the first record wins.
    pub fn get_mod(&self, name: &String) -> (r: Option<&crate::mod_info::ModInfo>)
        ensures
            match r {
                Some(info) => find_registry(self@.mods, name@) == Some(info@),
                None => find_registry(self@.mods, name@) is None,
            },
    {
        let mut i: usize = 0;
        while i < self.mods.len()
            invariant
                i <= self.mods@.len(),
                find_registry_from(self@.mods, name@, 0) == find_registry_from(
                    self@.mods,
                    name@,
                    i as int,
                ),
            decreases self.mods@.len() - i,
        {
            if self.mods[i].name == *name {
                return Some(&self.mods[i].info);
            }
            i = i + 1;
        }
        None
    }
}

/// Whether one declared requirement lets a release run on this installation:
/// a Require on environment content must name content the installation has,
/// at or above the required version.
pub open spec fn spec_game_dep_ok(
    inst: crate::instance::InstanceView,
    d: DependencyView,
) -> bool {
    (d.dependency_type == crate::mod_info::DependencyType::Require && spec_is_game_content(
        d.mod_id,
    )) ==> match find_installed(inst.game_content_versions, d.mod_id) {
        None => false,
        Some(m) => match d.version {
            None => true,
            Some(rv) => version_le(rv, m.version),
        },
    }
}

/// Whether a release is compatible with this installation: its target
/// environment version matches exactly, and every Require it declares on
/// environment content is satisfied by the installation.
pub open spec fn spec_release_compatible(
    inst: crate::instance::InstanceView,
    rel: ModReleaseView,
) -> bool {
    &&& rel.info_json.factorio_version == inst.version
    &&& forall|i: int|
        0 <= i < rel.info_json.dependencies.len() ==> spec_game_dep_ok(
            inst,
            #[trigger] rel.info_json.dependencies[i],
        )
}

/// The releases of `s` that are compatible with `inst`, in their given order.
pub open spec fn compatible_releases(
    inst: crate::instance::InstanceView,
    s: Seq<ModReleaseView>,
) -> Seq<ModReleaseView>
    decreases s.len(),
{
    if s.len() == 0 {
        Seq::empty()
    } else {
        let rest = compatible_releases(inst, s.drop_last());
        if spec_release_compatible(inst, s.last()) {
            rest.push(s.last())
        } else {
            rest
        }
    }
}

/// `x` inserted into `s` after every release whose version is at or below
/// `x`'s: where a stable sort would put it.
pub open spec fn sorted_insert(s: Seq<ModReleaseView>, x: ModReleaseView) -> Seq<ModReleaseView>
    decreases s.len(),
{
    if s.len() == 0 {
        seq![x]
    } else if version_lt(x.version, s.first().version) {
        seq![x] + s
    } else {
        seq![s.first()] + sorted_insert(s.drop_first(), x)
    }
}

/// `s` stably sorted ascending by version.
pub open spec fn sort_releases(s: Seq<ModReleaseView>) -> Seq<ModReleaseView>
    decreases s.len(),
{
    if s.len() == 0 {
        Seq::empty()
    } else {
        sorted_insert(sort_releases(s.drop_last()), s.last())
    }
}

/// What the resolver sees of a registry response: the compatible releases,
/// ascending by version.
pub open spec fn spec_prepare_releases(
    inst: crate::instance::InstanceView,
    s: Seq<ModReleaseView>,
) -> Seq<ModReleaseView> {
    sort_releases(compatible_releases(inst, s))
}

/// Ascending by version: what the resolver may assume of a prepared list.
pub open spec fn releases_ascending(s: Seq<ModReleaseView>) -> bool {
    forall|i: int, j: int|
        0 <= i < j < s.len() ==> version_le((#[trigger] s[i]).version, (#[trigger] s[j]).version)
}

proof fn lemma_sorted_insert_ascending(s: Seq<ModReleaseView>, x: ModReleaseView)
    requires
        releases_ascending(s),
    ensures
        releases_ascending(sorted_insert(s, x)),
        sorted_insert(s, x).len() == s.len() + 1,
        forall|i: int|
            0 <= i < sorted_insert(s, x).len() ==> ((#[trigger] sorted_insert(s, x)[i]) == x
                || exists|j: int| 0 <= j < s.len() && sorted_insert(s, x)[i] == s[j]),
    decreases s.len(),
{
    let r = sorted_insert(s, x);
    if s.len() == 0 {
        assert(r =~= seq![x]);
    } else if version_lt(x.version, s.first().version) {
        assert(r =~= seq![x] + s);
        assert forall|i: int| 0 <= i < r.len() implies (r[i] == x || exists|j: int|
            0 <= j < s.len() && r[i] == s[j]) by {
            if i > 0 {
                assert(r[i] == s[i - 1]);
            }
        }
        assert forall|i: int, j: int|
            0 <= i < j < r.len() implies version_le(r[i].version, r[j].version) by {
            if i == 0 {
                assert(r[j] == s[j - 1]);
                assert(version_le(s.first().version, s[j - 1].version));
            }
        }
    } else {
        let t = s.drop_first();
        assert(releases_ascending(t)) by {
            assert(forall|i: int| 0 <= i < t.len() ==> #[trigger] t[i] == s[i + 1]);
        }
        lemma_sorted_insert_ascending(t, x);
        let rt = sorted_insert(t, x);
        assert(r =~= seq![s.first()] + rt);
        assert forall|i: int| 0 <= i < r.len() implies (r[i] == x || exists|j: int|
            0 <= j < s.len() && r[i] == s[j]) by {
            if i == 0 {
                assert(r[0] == s[0]);
            } else {
                assert(r[i] == rt[i - 1]);
                if rt[i - 1] != x {
                    let j = choose|j: int| 0 <= j < t.len() && rt[i - 1] == t[j];
                    assert(r[i] == s[j + 1]);
                }
            }
        }
        assert forall|i: int, j: int|
            0 <= i < j < r.len() implies version_le(r[i].version, r[j].version) by {
            if i == 0 {
                assert(r[j] == rt[j - 1]);
                if rt[j - 1] == x {
                    assert(version_le(s.first().version, x.version));
                } else {
                    let k = choose|k: int| 0 <= k < t.len() && rt[j - 1] == t[k];
                    assert(version_le(s.first().version, s[k + 1].version));
                }
            } else {
                assert(r[i] == rt[i - 1] && r[j] == rt[j - 1]);
            }
        }
    }
}

/// The registry's ordering contract: a prepared release list is ascending by
/// version, so its last element carries the highest compatible version.
pub proof fn lemma_prepare_releases_ascending(
    inst: crate::instance::InstanceView,
    s: Seq<ModReleaseView>,
)
    ensures
        releases_ascending(spec_prepare_releases(inst, s)),
{
    lemma_sort_releases_ascending(compatible_releases(inst, s));
}

proof fn lemma_sort_releases_ascending(s: Seq<ModReleaseView>)
    ensures
        releases_ascending(sort_releases(s)),
    decreases s.len(),
{
    if s.len() > 0 {
        lemma_sort_releases_ascending(s.drop_last());
        lemma_sorted_insert_ascending(sort_releases(s.drop_last()), s.last());
    }
}

proof fn lemma_sorted_insert_at(s: Seq<ModReleaseView>, x: ModReleaseView, j: int)
    requires
        0 <= j <= s.len(),
        forall|k: int| 0 <= k < j ==> !version_lt(x.version, (#[trigger] s[k]).version),
        j == s.len() || version_lt(x.version, s[j].version),
    ensures
        sorted_insert(s, x) == s.subrange(0, j) + seq![x] + s.subrange(j, s.len() as int),
    decreases s.len(),
{
    if s.len() == 0 {
        assert(s.subrange(0, j) + seq![x] + s.subrange(j, s.len() as int) =~= seq![x]);
    } else if version_lt(x.version, s.first().version) {
        assert(j == 0);
        assert(s.subrange(0, 0) + seq![x] + s.subrange(0, s.len() as int) =~= seq![x] + s);
    } else {
        assert(j >= 1);
        let t = s.drop_first();
        assert(forall|k: int|
            0 <= k < j - 1 ==> !version_lt(x.version, (#[trigger] t[k]).version)) by {
            assert(forall|k: int| 0 <= k < t.len() ==> #[trigger] t[k] == s[k + 1]);
        }
        lemma_sorted_insert_at(t, x, j - 1);
        assert(seq![s.first()] + (t.subrange(0, j - 1) + seq![x] + t.subrange(
            j - 1,
            t.len() as int,
        )) =~= s.subrange(0, j) + seq![x] + s.subrange(j, s.len() as int));
    }
}

impl<'a> FactorioApi<'a> {
    pub fn new(instance: &'a Instance) -> (r: Self)
        ensures
            r.instance == instance,
    {
        FactorioApi { instance }
    }

    /// Whether this release can run on the installation, as
    /// `spec_release_compatible` states it.
    pub fn is_release_compatible(&self, mod_release: &ModRelease) -> (r: bool)
        ensures
            r == spec_release_compatible(self.instance@, mod_release@),
    {
        if !(mod_release.info_json.factorio_version == self.instance.version) {
            return false;
        }
        let deps = &mod_release.info_json.dependencies;
        let mut i: usize = 0;
        while i < deps.len()
            invariant
                i <= deps@.len(),
                mod_release@.info_json.dependencies.len() == deps@.len(),
                forall|j: int|
                    0 <= j < i ==> spec_game_dep_ok(
                        self.instance@,
                        #[trigger] mod_release@.info_json.dependencies[j],
                    ),
            decreases deps@.len() - i,
        {
            let dep = &deps[i];
            proof {
                assert(mod_release@.info_json.dependencies == deps_view(deps@));
                assert(deps_view(deps@)[i as int] == deps@[i as int]@);
            }
            if dep.dependency_type == crate::mod_info::DependencyType::Require
                && is_mod_game_content(dep.mod_id.as_str()) {
                match crate::instance::find_mod(&self.instance.game_content_versions, &dep.mod_id) {
                    None => {
                        return false;
                    },
                    Some(content) => {
                        if let Some(required_version) = &dep.version {
                            if *required_version > content.version {
                                return false;
                            }
                        }
                    },
                }
            }
            i = i + 1;
        }
        true
    }

    /// The compatible releases of a registry response, ascending by version:
    /// the computation the registry applies before the resolver sees the list.
    pub fn prepare_releases(&self, releases: &Vec<ModRelease>) -> (r: Vec<ModRelease>)
        ensures
            releases_view(r@) == spec_prepare_releases(self.instance@, releases_view(releases@)),
    {
        let ghost all = releases_view(releases@);
        let mut out: Vec<ModRelease> = Vec::new();
        let mut i: usize = 0;
        proof {
            assert(all.subrange(0, 0) =~= Seq::<ModReleaseView>::empty());
            assert(releases_view(out@) =~= Seq::<ModReleaseView>::empty());
        }
        while i < releases.len()
            invariant
                i <= releases@.len(),
                all == releases_view(releases@),
                releases_view(out@) == sort_releases(
                    compatible_releases(self.instance@, all.subrange(0, i as int)),
                ),
            decreases releases@.len() - i,
        {
            let ghost relv = releases@[i as int]@;
            let ghost before = releases_view(out@);
            proof {
                assert(all.subrange(0, i + 1).drop_last() =~= all.subrange(0, i as int));
                assert(all.subrange(0, i + 1).last() == relv);
            }
            let compat_ok = self.is_release_compatible(&releases[i]);
            if compat_ok {
                let x = releases[i].duplicate();
                let mut j: usize = 0;
                while j < out.len() && !(x.version < out[j].version)
                    invariant
                        j <= out@.len(),
                        forall|k: int|
                            0 <= k < j ==> !version_lt(x@.version, (#[trigger] before[k]).version),
                    decreases out@.len() - j,
                {
                    proof {
                        assert(before[j as int] == out@[j as int]@);
                    }
                    j = j + 1;
                }
                proof {
                    if j < out.len() {
                        assert(before[j as int] == out@[j as int]@);
                    }
                    lemma_sorted_insert_at(before, x@, j as int);
                }
                out.insert(j, x);
                proof {
                    assert(releases_view(out@) =~= before.subrange(0, j as int) + seq![relv]
                        + before.subrange(j as int, before.len() as int));
                    assert(releases_view(out@) == sorted_insert(before, relv));
                }
            }
            proof {
                let pre = all.subrange(0, i as int);
                let cur = all.subrange(0, i + 1);
                let cr = compatible_releases(self.instance@, cur);
                if compat_ok {
                    assert(cr == compatible_releases(self.instance@, pre).push(relv));
                    assert(cr.drop_last() =~= compatible_releases(self.instance@, pre));
                    assert(cr.last() == relv);
                    assert(sort_releases(cr) == sorted_insert(before, relv));
                } else {
                    assert(cr == compatible_releases(self.instance@, pre));
                }
            }
            i = i + 1;
        }
        proof {
            assert(all.subrange(0, all.len() as int) =~= all);
        }
        out
    }
}

} // verus!
