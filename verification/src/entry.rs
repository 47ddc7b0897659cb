//! The installed mods, as the list shows them.

use vstd::prelude::*;
use crate::text::chars_of;

verus! {

/// Which list an installed mod is on.
#[derive(Debug, Clone, Copy, PartialEq, Eq, Structural)]
pub enum ModSource {
    /// A `.yog` mod.
    Yog,
    /// One of the host platform's own mods.
    Platform,
}

/// A single mod entry shown in the list.
#[derive(Debug, Clone)]
pub struct ModEntry {
    pub id: String,
    pub name: String,
    pub version: String,
    pub authors: String,
    pub description: String,
    pub source: ModSource,
}

/// An installed mod as the loader reports it: the list it is on as a tag, and its metadata.
#[derive(Debug, Clone)]
pub struct InstalledMod {
    pub source: String,
    pub id: String,
    pub name: String,
    pub version: String,
    pub authors: String,
    pub description: String,
}

/// The list that the loader's tag names: `yog` for a `.yog` mod, the platform otherwise.
pub open spec fn source_of(tag: Seq<char>) -> ModSource {
    if tag == "yog"@ {
        ModSource::Yog
    } else {
        ModSource::Platform
    }
}

/// The list that the loader's source tag names.
pub fn source_from_tag(tag: &str) -> (s: ModSource)
    ensures
        s == source_of(tag@),
{
    let v = chars_of(tag);
    proof {
        reveal_strlit("yog");
    }
    if v.len() == 3 && v[0] == 'y' && v[1] == 'o' && v[2] == 'g' {
        assert(v@ =~= "yog"@);
        ModSource::Yog
    } else {
        assert(v@ != "yog"@) by {
            if v@ == "yog"@ {
                assert(v@[0] == 'y' && v@[1] == 'o' && v@[2] == 'g');
            }
        }
        ModSource::Platform
    }
}

/// `e` is the entry that the list shows for the loader's record `m`.
pub open spec fn entry_for(e: ModEntry, m: InstalledMod) -> bool {
    &&& e.id@ == m.id@
    &&& e.name@ == m.name@
    &&& e.version@ == m.version@
    &&& e.authors@ == m.authors@
    &&& e.description@ == m.description@
    &&& e.source == source_of(m.source@)
}

/// The entry that the list shows for an installed mod.
pub fn entry_from_installed(m: &InstalledMod) -> (e: ModEntry)
    ensures
        entry_for(e, *m),
{
    ModEntry {
        source: source_from_tag(m.source.as_str()),
        id: m.id.clone(),
        name: m.name.clone(),
        version: m.version.clone(),
        authors: m.authors.clone(),
        description: m.description.clone(),
    }
}

/// The list's entries for the installed mods, one for each, in the loader's order.
pub fn entries_from_installed(mods: &Vec<InstalledMod>) -> (es: Vec<ModEntry>)
    ensures
        es@.len() == mods@.len(),
        forall|i: int| 0 <= i < mods@.len() ==> entry_for(#[trigger] es@[i], mods@[i]),
{
    let mut es: Vec<ModEntry> = Vec::new();
    let mut i: usize = 0;
    while i < mods.len()
        invariant
            i <= mods@.len(),
            es@.len() == i,
            forall|k: int| 0 <= k < i ==> entry_for(#[trigger] es@[k], mods@[k]),
        decreases mods@.len() - i,
    {
        es.push(entry_from_installed(&mods[i]));
        i = i + 1;
    }
    es
}


/// Only the tag `yog` names the Yog list; every other tag is a platform mod.
pub proof fn lemma_source_of(tag: Seq<char>)
    ensures
        (source_of(tag) == ModSource::Yog) <==> tag == "yog"@,
        tag != "yog"@ ==> source_of(tag) == ModSource::Platform,
{
}

} // verus!
