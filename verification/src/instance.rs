//! The read-only snapshot of one game installation: its environment version,
//! the content bundled with the environment, and the installed mods.
use vstd::prelude::*;
use crate::mod_info::Version;

verus! {

/// One installed mod, or one piece of environment-provided content.
pub struct InstalledMod {
    pub version: Version,
    pub name: String,
}

pub ghost struct InstalledModView {
    pub version: Version,
    pub name: Seq<char>,
}

impl View for InstalledMod {
    type V = InstalledModView;

    open spec fn view(&self) -> InstalledModView {
        InstalledModView { version: self.version, name: self.name@ }
    }
}

/// The views of a list of installed mods.
pub open spec fn mods_view(v: Seq<InstalledMod>) -> Seq<InstalledModView> {
    v.map_values(|m: InstalledMod| m@)
}

/// A snapshot of one installation. `game_content_versions` maps each
/// environment-content id to its bundled version; `mods` lists what is
/// installed. Both are read-only for the duration of a resolution run.
pub struct Instance {
    pub version: Version,
    pub game_content_versions: Vec<InstalledMod>,
    pub mods: Vec<InstalledMod>,
}

pub ghost struct InstanceView {
    pub version: Version,
    pub game_content_versions: Seq<InstalledModView>,
    pub mods: Seq<InstalledModView>,
}

impl View for Instance {
    type V = InstanceView;

    open spec fn view(&self) -> InstanceView {
        InstanceView {
            version: self.version,
            game_content_versions: mods_view(self.game_content_versions@),
            mods: mods_view(self.mods@),
        }
    }
}

/// No name occurs twice in a list of installed records: what holding them in
/// a map once guaranteed. A snapshot read from an installation satisfies it,
/// since each directory holds one record per name.
pub open spec fn names_unique(mods: Seq<InstalledModView>) -> bool {
    forall|i: int, j: int|
        0 <= i < j < mods.len() ==> (#[trigger] mods[i]).name != (#[trigger] mods[j]).name
}

/// A well-formed snapshot records each installed mod and each piece of
/// bundled content once; under this, a first-match lookup finds the only
/// record a name has.
pub open spec fn instance_well_formed(inst: InstanceView) -> bool {
    names_unique(inst.mods) && names_unique(inst.game_content_versions)
}

/// Under unique names, the first match is the only match: whatever record
/// carries the name is the one the lookup returns.
pub proof fn lemma_find_installed_unique(mods: Seq<InstalledModView>, name: Seq<char>, k: int)
    requires
        names_unique(mods),
        0 <= k < mods.len(),
        mods[k].name == name,
    ensures
        find_installed(mods, name) == Some(mods[k]),
    decreases mods.len(),
{
    if mods.first().name == name {
        assert(k == 0);
    } else {
        let t = mods.drop_first();
        assert(names_unique(t)) by {
            assert(forall|i: int| 0 <= i < t.len() ==> #[trigger] t[i] == mods[i + 1]);
        }
        assert(t[k - 1] == mods[k]);
        lemma_find_installed_unique(t, name, k - 1);
    }
}

/// The first record with the given name, if any.
pub open spec fn find_installed(mods: Seq<InstalledModView>, name: Seq<char>) -> Option<
    InstalledModView,
>
    decreases mods.len(),
{
    if mods.len() == 0 {
        None
    } else if mods.first().name == name {
        Some(mods.first())
    } else {
        find_installed(mods.drop_first(), name)
    }
}

/// Looks a name up in a list of installed mods; the first record wins.
pub fn find_mod<'a>(mods: &'a Vec<InstalledMod>, name: &String) -> (r: Option<&'a InstalledMod>)
    ensures
        match r {
            Some(m) => find_installed(mods_view(mods@), name@) == Some(m@),
            None => find_installed(mods_view(mods@), name@) is None,
        },
{
    let ghost all = mods_view(mods@);
    proof {
        assert(all.subrange(0, all.len() as int) =~= all);
    }
    let mut i: usize = 0;
    while i < mods.len()
        invariant
            i <= mods@.len(),
            all == mods_view(mods@),
            find_installed(all, name@) == find_installed(
                all.subrange(i as int, all.len() as int),
                name@,
            ),
        decreases mods@.len() - i,
    {
        proof {
            let rest = all.subrange(i as int, all.len() as int);
            assert(rest.first() == all[i as int]);
            assert(rest.drop_first() =~= all.subrange(i + 1, all.len() as int));
        }
        if mods[i].name == *name {
            return Some(&mods[i]);
        }
        i = i + 1;
    }
    proof {
        assert(all.subrange(all.len() as int, all.len() as int).len() == 0);
    }
    None
}

/// The environment version a snapshot's bundled content implies: the bundled
/// base content's major and minor, with the patch zeroed.
pub fn snapshot_version(content: &Vec<InstalledMod>) -> (r: Option<Version>)
    ensures
        r == match find_installed(mods_view(content@), "base"@) {
            Some(m) => Some(Version { major: m.version.major, minor: m.version.minor, patch: 0 }),
            None => None::<Version>,
        },
{
    let key = "base".to_owned();
    match find_mod(content, &key) {
        Some(m) => Some(Version::new(m.version.major, m.version.minor, 0)),
        None => None,
    }
}

} // verus!
