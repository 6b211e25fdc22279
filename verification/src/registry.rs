//! The plugin registries: explicit, ordered registration of what subsystems
//! contribute to a world.
//!
//! Three collections are assembled once, before any world is constructed,
//! and iterated in registration order ever after: init entries (resources to
//! install at world creation), serializable component tags, and named
//! save/load groups (each naming the resource it persists). Registering a
//! duplicate name or tag is reported as an error instead of being silently
//! overwritten, and iteration order never depends on anything but the
//! registration order, which keeps the save byte layout and the fingerprint
//! map reproducible across runs.

use vstd::prelude::*;

use crate::resources::{ResVal, ResValModel};

verus! {

/// An init entry: a resource installed right after an empty world is built.
pub struct InitEntry {
    pub id: u64,
    pub val: ResVal,
}

/// The mathematical value of an init entry.
#[verifier::ext_equal]
pub struct InitEntryModel {
    pub id: u64,
    pub val: ResValModel,
}

impl View for InitEntry {
    type V = InitEntryModel;

    open spec fn view(&self) -> InitEntryModel {
        InitEntryModel { id: self.id, val: self.val@ }
    }
}

/// A save/load group: a registered name and the resource it persists.
pub struct SaveLoadEntry {
    /// The key of this group inside the save envelope's resource map.
    pub name: Vec<u8>,
    /// The resource this group saves and restores.
    pub res_id: u64,
}

/// The mathematical value of a save/load group.
#[verifier::ext_equal]
pub struct SaveLoadEntryModel {
    pub name: Seq<u8>,
    pub res_id: u64,
}

impl View for SaveLoadEntry {
    type V = SaveLoadEntryModel;

    open spec fn view(&self) -> SaveLoadEntryModel {
        SaveLoadEntryModel { name: self.name@, res_id: self.res_id }
    }
}

/// The three registries, frozen before a world exists.
pub struct Registries {
    pub inits: Vec<InitEntry>,
    pub comp_tags: Vec<u64>,
    pub saveload: Vec<SaveLoadEntry>,
}

/// The mathematical value of the registries.
#[verifier::ext_equal]
pub struct RegistriesModel {
    pub inits: Seq<InitEntryModel>,
    pub comp_tags: Seq<u64>,
    pub saveload: Seq<SaveLoadEntryModel>,
}

impl View for Registries {
    type V = RegistriesModel;

    open spec fn view(&self) -> RegistriesModel {
        RegistriesModel {
            inits: self.inits@.map_values(|e: InitEntry| e@),
            comp_tags: self.comp_tags@,
            saveload: self.saveload@.map_values(|e: SaveLoadEntry| e@),
        }
    }
}

/// Well-formed registries: component tags are unique, and so are the names
/// of the save/load groups.
pub open spec fn wf_registries(r: RegistriesModel) -> bool {
    &&& forall|i: int, j: int|
        0 <= i < j < r.comp_tags.len() ==> r.comp_tags[i] != r.comp_tags[j]
    &&& forall|i: int, j: int|
        0 <= i < j < r.saveload.len() ==> r.saveload[i].name != r.saveload[j].name
}

impl Registries {
    /// Empty registries.
    pub fn new() -> (r: Registries)
        ensures
            r@.inits =~= Seq::<InitEntryModel>::empty(),
            r@.comp_tags =~= Seq::<u64>::empty(),
            r@.saveload =~= Seq::<SaveLoadEntryModel>::empty(),
            wf_registries(r@),
    {
        Registries { inits: Vec::new(), comp_tags: Vec::new(), saveload: Vec::new() }
    }

    /// Registers an init entry. Init entries run in registration order.
    pub fn register_init(&mut self, id: u64, val: ResVal)
        ensures
            final(self)@ == (RegistriesModel {
                inits: old(self)@.inits.push(InitEntryModel { id, val: val@ }),
                ..old(self)@
            }),
            wf_registries(old(self)@) ==> wf_registries(final(self)@),
    {
        self.inits.push(InitEntry { id, val });
        proof {
            assert(self@.inits =~~= old(self)@.inits.push(InitEntryModel { id, val: val@ }));
            assert(self@ =~~= RegistriesModel {
                inits: old(self)@.inits.push(InitEntryModel { id, val: val@ }),
                ..old(self)@
            });
        }
    }

    /// Reserves a serialization tag for a component type. Rejects a tag that
    /// is already taken: a tag must never be reused for a different type.
    #[verifier::loop_isolation(false)]
    pub fn register_component_tag(&mut self, tag: u64) -> (ok: bool)
        ensures
            ok <==> !old(self)@.comp_tags.contains(tag),
            ok ==> final(self)@ == (RegistriesModel {
                comp_tags: old(self)@.comp_tags.push(tag),
                ..old(self)@
            }),
            !ok ==> final(self)@ == old(self)@,
            wf_registries(old(self)@) ==> wf_registries(final(self)@),
    {
        let n = self.comp_tags.len();
        let mut k: usize = 0;
        while k < n
            invariant
                0 <= k <= n,
                n == self@.comp_tags.len(),
                forall|j: int| 0 <= j < k ==> self@.comp_tags[j] != tag,
            decreases n - k,
        {
            if self.comp_tags[k] == tag {
                assert(old(self)@.comp_tags.contains(tag));
                return false;
            }
            k = k + 1;
        }
        assert(!old(self)@.comp_tags.contains(tag));
        self.comp_tags.push(tag);
        proof {
            assert(self@ =~~= RegistriesModel {
                comp_tags: old(self)@.comp_tags.push(tag),
                ..old(self)@
            });
        }
        true
    }

    /// Registers a named save/load group for resource `res_id`. Rejects a
    /// name that is already registered.
    #[verifier::loop_isolation(false)]
    pub fn register_saveload(&mut self, name: Vec<u8>, res_id: u64) -> (ok: bool)
        ensures
            ok <==> !(exists|j: int|
                0 <= j < old(self)@.saveload.len() && old(self)@.saveload[j].name == name@),
            ok ==> final(self)@ == (RegistriesModel {
                saveload: old(self)@.saveload.push(SaveLoadEntryModel { name: name@, res_id }),
                ..old(self)@
            }),
            !ok ==> final(self)@ == old(self)@,
            wf_registries(old(self)@) ==> wf_registries(final(self)@),
    {
        let n = self.saveload.len();
        let mut k: usize = 0;
        while k < n
            invariant
                0 <= k <= n,
                n == self@.saveload.len(),
                forall|j: int| 0 <= j < k ==> self@.saveload[j].name != name@,
            decreases n - k,
        {
            if eq_bytes(&self.saveload[k].name, &name) {
                proof {
                    assert(exists|j: int|
                        0 <= j < old(self)@.saveload.len() && old(self)@.saveload[j].name
                            == name@) by {
                        assert(old(self)@.saveload[k as int].name == name@);
                    }
                }
                return false;
            }
            k = k + 1;
        }
        self.saveload.push(SaveLoadEntry { name, res_id });
        proof {
            let pushed = old(self)@.saveload.push(
                SaveLoadEntryModel { name: name@, res_id },
            );
            assert(self@ =~~= RegistriesModel { saveload: pushed, ..old(self)@ });
            if wf_registries(old(self)@) {
                assert(forall|i: int, j: int|
                    0 <= i < j < pushed.len() ==> pushed[i].name != pushed[j].name) by {
                    assert(forall|i: int|
                        0 <= i < old(self)@.saveload.len() ==> pushed[i] == old(
                            self,
                        )@.saveload[i]);
                }
            }
        }
        true
    }
}

/// Byte-string equality.
#[verifier::loop_isolation(false)]
pub fn eq_bytes(a: &Vec<u8>, b: &Vec<u8>) -> (r: bool)
    ensures
        r <==> a@ == b@,
{
    if a.len() != b.len() {
        proof {
            assert(a@.len() != b@.len());
        }
        return false;
    }
    let n = a.len();
    let mut k: usize = 0;
    while k < n
        invariant
            0 <= k <= n,
            n == a@.len() && n == b@.len(),
            forall|j: int| 0 <= j < k ==> a@[j] == b@[j],
        decreases n - k,
    {
        if a[k] != b[k] {
            return false;
        }
        k = k + 1;
    }
    proof {
        assert(a@ =~= b@);
    }
    true
}

} // verus!
