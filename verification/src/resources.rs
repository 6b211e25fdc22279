//! The resource store: one singleton value per resource id, shared by the
//! whole world, with runtime-checked exclusive borrows.
//!
//! A write borrow checks the value out of the store and marks the entry; a
//! second exclusive borrow of the same id is rejected until the first is
//! checked back in. That makes aliased exclusive access to a singleton a
//! detected error rather than silent state corruption.

use vstd::prelude::*;

verus! {

/// A singleton value. The kernel knows plain byte blobs, counters, and the
/// terrain grid (a set of generated chunk coordinates); subsystem state
/// travels as bytes.
pub enum ResVal {
    Bytes(Vec<u8>),
    Uint(u64),
    Terrain(Vec<(i32, i32)>),
}

/// The mathematical value of a resource.
#[verifier::ext_equal]
pub enum ResValModel {
    Bytes(Seq<u8>),
    Uint(u64),
    Terrain(Seq<(i32, i32)>),
}

impl View for ResVal {
    type V = ResValModel;

    open spec fn view(&self) -> ResValModel {
        match self {
            ResVal::Bytes(b) => ResValModel::Bytes(b@),
            ResVal::Uint(v) => ResValModel::Uint(*v),
            ResVal::Terrain(c) => ResValModel::Terrain(c@),
        }
    }
}

impl ResVal {
    /// A deep copy, equal to the original at the model level.
    pub fn duplicate(&self) -> (r: ResVal)
        ensures
            r@ == self@,
    {
        match self {
            ResVal::Uint(v) => ResVal::Uint(*v),
            ResVal::Bytes(b) => {
                let mut out: Vec<u8> = Vec::new();
                let mut k: usize = 0;
                #[verifier::loop_isolation(false)]
                while k < b.len()
                    invariant
                        0 <= k <= b@.len(),
                        out@ =~= b@.take(k as int),
                    decreases b@.len() - k,
                {
                    proof {
                        assert(b@.take(k as int).push(b@[k as int]) =~= b@.take(k + 1));
                    }
                    out.push(b[k]);
                    k = k + 1;
                }
                proof {
                    assert(b@.take(b@.len() as int) =~= b@);
                }
                ResVal::Bytes(out)
            },
            ResVal::Terrain(c) => {
                let mut out: Vec<(i32, i32)> = Vec::new();
                let mut k: usize = 0;
                #[verifier::loop_isolation(false)]
                while k < c.len()
                    invariant
                        0 <= k <= c@.len(),
                        out@ =~= c@.take(k as int),
                    decreases c@.len() - k,
                {
                    proof {
                        assert(c@.take(k as int).push(c@[k as int]) =~= c@.take(k + 1));
                    }
                    out.push(c[k]);
                    k = k + 1;
                }
                proof {
                    assert(c@.take(c@.len() as int) =~= c@);
                }
                ResVal::Terrain(out)
            },
        }
    }
}

/// One stored singleton with its borrow flag.
pub struct ResEntry {
    pub id: u64,
    pub val: ResVal,
    /// Whether the value is currently checked out for exclusive access.
    pub borrowed: bool,
}

/// The mathematical value of one entry.
#[verifier::ext_equal]
pub struct ResEntryModel {
    pub id: u64,
    pub val: ResValModel,
    pub borrowed: bool,
}

impl View for ResEntry {
    type V = ResEntryModel;

    open spec fn view(&self) -> ResEntryModel {
        ResEntryModel { id: self.id, val: self.val@, borrowed: self.borrowed }
    }
}

/// The position of the first entry with id `id`, if any.
pub open spec fn find_res_idx(rs: Seq<ResEntryModel>, id: u64) -> Option<int>
    decreases rs.len(),
{
    if rs.len() == 0 {
        None
    } else if rs[0].id == id {
        Some(0)
    } else {
        match find_res_idx(rs.drop_first(), id) {
            Some(i) => Some(i + 1),
            None => None,
        }
    }
}

/// The stored value of resource `id`, if present.
pub open spec fn find_res(rs: Seq<ResEntryModel>, id: u64) -> Option<ResValModel> {
    match find_res_idx(rs, id) {
        Some(i) => Some(rs[i].val),
        None => None,
    }
}

/// Whether resource `id` is currently checked out.
pub open spec fn res_borrowed(rs: Seq<ResEntryModel>, id: u64) -> bool {
    match find_res_idx(rs, id) {
        Some(i) => rs[i].borrowed,
        None => false,
    }
}

/// Storing a value: overwrite the entry in place or append a new one; the
/// entry ends up checked in.
pub open spec fn set_res(rs: Seq<ResEntryModel>, id: u64, val: ResValModel) -> Seq<
    ResEntryModel,
> {
    let entry = ResEntryModel { id, val, borrowed: false };
    match find_res_idx(rs, id) {
        Some(i) => rs.update(i, entry),
        None => rs.push(entry),
    }
}

/// Removing a resource, if present.
pub open spec fn del_res(rs: Seq<ResEntryModel>, id: u64) -> Seq<ResEntryModel> {
    match find_res_idx(rs, id) {
        Some(i) => rs.remove(i),
        None => rs,
    }
}

/// Marking a present entry as checked out.
pub open spec fn mark_borrowed(rs: Seq<ResEntryModel>, id: u64) -> Seq<ResEntryModel> {
    match find_res_idx(rs, id) {
        Some(i) => rs.update(i, ResEntryModel { borrowed: true, ..rs[i] }),
        None => rs,
    }
}

/// Checking a value back in.
pub open spec fn check_in(rs: Seq<ResEntryModel>, id: u64, val: ResValModel) -> Seq<
    ResEntryModel,
> {
    match find_res_idx(rs, id) {
        Some(i) => rs.update(i, ResEntryModel { id, val, borrowed: false }),
        None => rs,
    }
}

/// No entry is checked out.
pub open spec fn all_free(rs: Seq<ResEntryModel>) -> bool {
    forall|i: int| 0 <= i < rs.len() ==> !(#[trigger] rs[i]).borrowed
}

/// What `find_res_idx` returns: the first index carrying the id.
pub proof fn lemma_find_res_idx(rs: Seq<ResEntryModel>, id: u64)
    ensures
        match find_res_idx(rs, id) {
            Some(i) => 0 <= i < rs.len() && rs[i].id == id && forall|j: int|
                0 <= j < i ==> rs[j].id != id,
            None => forall|j: int| 0 <= j < rs.len() ==> rs[j].id != id,
        },
    decreases rs.len(),
{
    if rs.len() > 0 && rs[0].id != id {
        let t = rs.drop_first();
        lemma_find_res_idx(t, id);
        assert(forall|j: int| 0 <= j < t.len() ==> #[trigger] t[j] == rs[j + 1]);
        match find_res_idx(t, id) {
            Some(i) => {
                assert(forall|j: int| 0 <= j < i + 1 ==> rs[j].id != id) by {
                    assert(forall|j: int| 1 <= j < i + 1 ==> rs[j] == t[j - 1] && t[j - 1].id != id);
                }
            },
            None => {
                assert(forall|j: int| 0 <= j < rs.len() ==> rs[j].id != id) by {
                    assert(forall|j: int|
                        1 <= j < rs.len() ==> rs[j] == t[j - 1] && t[j - 1].id != id);
                }
            },
        }
    }
}

/// A first match determines `find_res_idx`.
pub proof fn lemma_find_res_idx_unique(rs: Seq<ResEntryModel>, id: u64, i: int)
    requires
        0 <= i < rs.len(),
        rs[i].id == id,
        forall|j: int| 0 <= j < i ==> rs[j].id != id,
    ensures
        find_res_idx(rs, id) == Some(i),
    decreases rs.len(),
{
    if i > 0 {
        lemma_find_res_idx_unique(rs.drop_first(), id, i - 1);
    }
}

/// No match at all means `find_res_idx` is `None`.
pub proof fn lemma_find_res_idx_none(rs: Seq<ResEntryModel>, id: u64)
    requires
        forall|j: int| 0 <= j < rs.len() ==> rs[j].id != id,
    ensures
        find_res_idx(rs, id) is None,
{
    lemma_find_res_idx(rs, id);
}

/// Unique ids: at most one entry per resource id.
pub open spec fn wf_res(rs: Seq<ResEntryModel>) -> bool {
    forall|i: int, j: int| 0 <= i < j < rs.len() ==> rs[i].id != rs[j].id
}

/// How storing one resource affects lookups: the stored id now maps to the
/// new value, checked in; every other id is untouched.
pub proof fn lemma_set_res_frame(rs: Seq<ResEntryModel>, id: u64, v: ResValModel, id2: u64)
    ensures
        find_res(set_res(rs, id, v), id2) == (if id2 == id {
            Some(v)
        } else {
            find_res(rs, id2)
        }),
        res_borrowed(set_res(rs, id, v), id2) == (if id2 == id {
            false
        } else {
            res_borrowed(rs, id2)
        }),
        wf_res(rs) ==> wf_res(set_res(rs, id, v)),
{
    lemma_find_res_idx(rs, id);
    lemma_find_res_idx(rs, id2);
    let s2 = set_res(rs, id, v);
    match find_res_idx(rs, id) {
        Some(i) => {
            assert(forall|j: int| 0 <= j < s2.len() ==> #[trigger] s2[j].id == rs[j].id);
            match find_res_idx(rs, id2) {
                Some(k) => {
                    lemma_find_res_idx_unique(s2, id2, k);
                },
                None => {
                    lemma_find_res_idx_none(s2, id2);
                },
            }
        },
        None => {
            assert(forall|j: int| 0 <= j < rs.len() ==> #[trigger] s2[j] == rs[j]);
            match find_res_idx(rs, id2) {
                Some(k) => {
                    lemma_find_res_idx_unique(s2, id2, k);
                },
                None => {
                    if id2 == id {
                        lemma_find_res_idx_unique(s2, id2, rs.len() as int);
                    } else {
                        lemma_find_res_idx_none(s2, id2);
                    }
                },
            }
        },
    }
}

/// How removing one resource affects lookups, for a store with unique ids:
/// the removed id is gone, every other id is untouched.
pub proof fn lemma_del_res_frame(rs: Seq<ResEntryModel>, id: u64, id2: u64)
    requires
        wf_res(rs),
    ensures
        find_res(del_res(rs, id), id2) == (if id2 == id {
            None
        } else {
            find_res(rs, id2)
        }),
        res_borrowed(del_res(rs, id), id2) == (if id2 == id {
            false
        } else {
            res_borrowed(rs, id2)
        }),
        wf_res(del_res(rs, id)),
{
    lemma_find_res_idx(rs, id);
    lemma_find_res_idx(rs, id2);
    let s2 = del_res(rs, id);
    match find_res_idx(rs, id) {
        Some(i) => {
            assert(forall|j: int| 0 <= j < i ==> #[trigger] s2[j] == rs[j]);
            assert(forall|j: int| i <= j < s2.len() ==> #[trigger] s2[j] == rs[j + 1]);
            if id2 == id {
                assert(forall|j: int| 0 <= j < s2.len() ==> s2[j].id != id2) by {
                    assert(forall|j: int|
                        0 <= j < s2.len() ==> #[trigger] s2[j] == rs[j] || s2[j] == rs[j + 1]);
                }
                lemma_find_res_idx_none(s2, id2);
            } else {
                match find_res_idx(rs, id2) {
                    Some(k) => {
                        if k < i {
                            lemma_find_res_idx_unique(s2, id2, k);
                        } else {
                            lemma_find_res_idx_unique(s2, id2, k - 1);
                        }
                    },
                    None => {
                        lemma_find_res_idx_none(s2, id2);
                    },
                }
            }
        },
        None => {
        },
    }
}

/// Checking a value out and back in is the same as storing it, when the
/// entry exists.
pub proof fn lemma_checkout_roundtrip(rs: Seq<ResEntryModel>, id: u64, v: ResValModel)
    requires
        find_res(rs, id) is Some,
    ensures
        check_in(mark_borrowed(rs, id), id, v) == set_res(rs, id, v),
{
    lemma_find_res_idx(rs, id);
    let i = find_res_idx(rs, id)->Some_0;
    let m = mark_borrowed(rs, id);
    assert(forall|j: int| 0 <= j < m.len() ==> #[trigger] m[j].id == rs[j].id);
    lemma_find_res_idx_unique(m, id, i);
    assert(check_in(m, id, v) =~~= set_res(rs, id, v));
}

/// The singleton resource container.
pub struct Resources {
    pub entries: Vec<ResEntry>,
}

impl View for Resources {
    type V = Seq<ResEntryModel>;

    open spec fn view(&self) -> Seq<ResEntryModel> {
        self.entries@.map_values(|e: ResEntry| e@)
    }
}

impl Resources {
    /// An empty store.
    pub fn new() -> (r: Resources)
        ensures
            r@ =~= Seq::<ResEntryModel>::empty(),
    {
        Resources { entries: Vec::new() }
    }

    /// The position of the entry for `id`, scanning in insertion order.
    #[verifier::loop_isolation(false)]
    fn position(&self, id: u64) -> (r: Option<usize>)
        ensures
            r matches Some(i) ==> i < self@.len() && find_res_idx(self@, id) == Some(i as int)
                && self@[i as int].id == id,
            r is None ==> find_res_idx(self@, id) is None,
    {
        let n = self.entries.len();
        let mut k: usize = 0;
        while k < n
            invariant
                0 <= k <= n,
                n == self@.len(),
                forall|j: int| 0 <= j < k ==> self@[j].id != id,
            decreases n - k,
        {
            if self.entries[k].id == id {
                proof {
                    lemma_find_res_idx_unique(self@, id, k as int);
                }
                return Some(k);
            }
            k = k + 1;
        }
        proof {
            lemma_find_res_idx_none(self@, id);
        }
        None
    }

    /// Whether a singleton of `id` is stored.
    pub fn contains(&self, id: u64) -> (r: bool)
        ensures
            r == (find_res(self@, id) is Some),
    {
        self.position(id).is_some()
    }

    /// Whether `id` is currently checked out for exclusive access.
    pub fn is_borrowed(&self, id: u64) -> (r: bool)
        ensures
            r == res_borrowed(self@, id),
    {
        match self.position(id) {
            Some(i) => self.entries[i].borrowed,
            None => false,
        }
    }

    /// Stores or overwrites the singleton of `id`.
    pub fn insert(&mut self, id: u64, val: ResVal)
        requires
            !res_borrowed(old(self)@, id),
        ensures
            final(self)@ =~~= set_res(old(self)@, id, val@),
    {
        match self.position(id) {
            Some(i) => {
                self.entries[i] = ResEntry { id, val, borrowed: false };
                proof {
                    assert(self@ =~~= set_res(old(self)@, id, val@));
                }
            },
            None => {
                self.entries.push(ResEntry { id, val, borrowed: false });
                proof {
                    assert(self@ =~~= set_res(old(self)@, id, val@));
                }
            },
        }
    }

    /// A shared read of the singleton of `id`: hands back a copy of the
    /// stored value. Rejected while the value is checked out.
    pub fn read(&self, id: u64) -> (r: ResVal)
        requires
            find_res(self@, id) is Some,
            !res_borrowed(self@, id),
        ensures
            r@ == find_res(self@, id)->Some_0,
    {
        let i = match self.position(id) {
            Some(i) => i,
            None => {
                proof {
                    assert(false);
                }
                vstd::pervasive::unreached()
            },
        };
        self.entries[i].val.duplicate()
    }

    /// A copy of the stored value of `id`, if present, borrow state aside.
    pub fn get_opt(&self, id: u64) -> (r: Option<ResVal>)
        ensures
            r is Some <==> find_res(self@, id) is Some,
            r matches Some(v) ==> v@ == find_res(self@, id)->Some_0,
    {
        match self.position(id) {
            Some(i) => Some(self.entries[i].val.duplicate()),
            None => None,
        }
    }

    /// Removes the singleton of `id`, if present.
    pub fn remove(&mut self, id: u64)
        requires
            !res_borrowed(old(self)@, id),
        ensures
            final(self)@ =~~= del_res(old(self)@, id),
    {
        match self.position(id) {
            Some(i) => {
                self.entries.remove(i);
                proof {
                    assert(self@ =~~= del_res(old(self)@, id));
                }
            },
            None => {},
        }
    }

    /// Begins an exclusive borrow of `id`: checks the value out and marks
    /// the entry. Returns `None` — rejecting the borrow — when the value is
    /// absent or already checked out.
    pub fn try_write(&mut self, id: u64) -> (r: Option<ResVal>)
        ensures
            r is Some <==> find_res(old(self)@, id) is Some && !res_borrowed(old(self)@, id),
            r matches Some(v) ==> v@ == find_res(old(self)@, id)->Some_0 && final(self)@
                =~~= mark_borrowed(old(self)@, id),
            r is None ==> final(self)@ == old(self)@,
    {
        match self.position(id) {
            Some(i) => {
                if self.entries[i].borrowed {
                    None
                } else {
                    self.entries[i].borrowed = true;
                    let v = self.entries[i].val.duplicate();
                    proof {
                        assert(self@ =~~= mark_borrowed(old(self)@, id));
                    }
                    Some(v)
                }
            },
            None => None,
        }
    }

    /// Begins an exclusive borrow that the caller has shown to be available.
    pub fn write(&mut self, id: u64) -> (r: ResVal)
        requires
            find_res(old(self)@, id) is Some,
            !res_borrowed(old(self)@, id),
        ensures
            r@ == find_res(old(self)@, id)->Some_0,
            final(self)@ =~~= mark_borrowed(old(self)@, id),
    {
        match self.try_write(id) {
            Some(v) => v,
            None => {
                proof {
                    assert(false);
                }
                vstd::pervasive::unreached()
            },
        }
    }

    /// Ends an exclusive borrow: stores the (possibly updated) value and
    /// clears the mark.
    pub fn end_write(&mut self, id: u64, val: ResVal)
        requires
            res_borrowed(old(self)@, id),
        ensures
            final(self)@ =~~= check_in(old(self)@, id, val@),
    {
        let i = match self.position(id) {
            Some(i) => i,
            None => {
                proof {
                    assert(false);
                }
                vstd::pervasive::unreached()
            },
        };
        self.entries[i] = ResEntry { id, val, borrowed: false };
        proof {
            assert(self@ =~~= check_in(old(self)@, id, val@));
        }
    }

    /// Begins an exclusive borrow of `id`, first storing `default` if no
    /// singleton of `id` exists yet.
    pub fn write_or_default(&mut self, id: u64, default: ResVal) -> (r: ResVal)
        requires
            !res_borrowed(old(self)@, id),
        ensures
            r@ == if find_res(old(self)@, id) is Some {
                find_res(old(self)@, id)->Some_0
            } else {
                default@
            },
            final(self)@ =~~= mark_borrowed(set_res(old(self)@, id, r@), id),
    {
        let ghost o = old(self)@;
        let present = self.contains(id);
        let ghost dv = default@;
        if !present {
            self.insert(id, default);
            proof {
                lemma_find_res_idx(o, id);
                lemma_find_res_idx_unique(self@, id, o.len() as int);
            }
        }
        let ghost mid = self@;
        let v = self.write(id);
        proof {
            lemma_find_res_idx(o, id);
            if present {
                let i = find_res_idx(o, id)->Some_0;
                assert(set_res(o, id, v@) =~~= o.update(
                    i,
                    ResEntryModel { id, val: v@, borrowed: false },
                ));
                assert(o.update(i, ResEntryModel { id, val: v@, borrowed: false }) =~~= o);
                assert(set_res(o, id, v@) == o);
            } else {
                lemma_find_res_idx_unique(mid, id, o.len() as int);
                assert(v@ == dv);
                assert(set_res(o, id, v@) =~~= mid);
                assert(set_res(o, id, v@) == mid);
            }
        }
        v
    }
}

} // verus!
