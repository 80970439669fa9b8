//! Glyph registry and slot allocation.
//!
//! The registry owns an ordered sequence of glyph slots in discovery order
//! (not final order), a usage bitmap over the new glyph-id space, and the
//! font-wide defaults picked up during extraction. Glyph id 0 (notdef) is
//! always the first registered slot and always maps to new glyph id 0. New
//! glyph ids are unique and bounded below the reserved ceiling of 65534
//! (two ids are reserved as sentinels), and no two slots share the same
//! original glyph id.
use vstd::prelude::*;
use vstd::pervasive::VecAdditionalExecFns;

use crate::err::SubsetError;

verus! {

/// The reserved ceiling of the new glyph-id space: ids 65534 and 65535 are
/// never assigned.
pub const GID_CEILING: u16 = 65534;

/// One entry per glyph kept in the subset.
pub struct tt_glyph_desc {
    /// New glyph id assigned within the subset.
    pub gid: u16,
    /// Original glyph id within the source font.
    pub ogid: u16,
    /// Advance width in font units.
    pub advw: u16,
    /// Advance height in font units.
    pub advh: u16,
    /// Left side bearing in font units.
    pub lsb: i16,
    /// Top side bearing in font units.
    pub tsb: i16,
    /// Bounding box lower-left x.
    pub llx: i16,
    /// Bounding box lower-left y.
    pub lly: i16,
    /// Bounding box upper-right x.
    pub urx: i16,
    /// Bounding box upper-right y.
    pub ury: i16,
    /// Raw glyph record (length 0 for an empty glyph), owned exclusively by
    /// the slot until emission.
    pub data: Vec<u8>,
}

/// Ordered collection of glyph slots mapping original glyph ids to new ones.
pub struct tt_glyphs {
    /// Glyph slots in discovery order.
    pub gd: Vec<tt_glyph_desc>,
    /// Usage bitmap over the new glyph-id space (65536 entries).
    pub used_slot: Vec<bool>,
    /// Highest new glyph id assigned so far.
    pub last_gid: u16,
    /// The font's units per em.
    pub emsize: u16,
    /// The chosen implied default advance width, set by the statistics pass.
    pub dw: u16,
    /// Default advance height, derived from the font's OS/2 table.
    pub default_advh: u16,
    /// Default top side bearing, derived from the font's OS/2 table.
    pub default_tsb: i16,
    /// Set once the session has emitted its tables; the registry is then
    /// inert and accepts no further glyph additions.
    pub closed: bool,
}

/// Whether some slot of `s` holds original glyph id `ogid`.
pub open spec fn spec_has_old(s: Seq<tt_glyph_desc>, ogid: int) -> bool {
    exists|i: int| 0 <= i < s.len() && s[i].ogid as int == ogid
}

/// The position of the slot holding original glyph id `ogid`.
pub open spec fn spec_pos_of_old(s: Seq<tt_glyph_desc>, ogid: int) -> int {
    choose|i: int| 0 <= i < s.len() && s[i].ogid as int == ogid
}

/// The new glyph id assigned to original glyph id `ogid`.
pub open spec fn spec_new_of(s: Seq<tt_glyph_desc>, ogid: int) -> u16 {
    s[spec_pos_of_old(s, ogid)].gid
}

/// Whether some slot of `s` was assigned new glyph id `gid`.
pub open spec fn spec_has_new(s: Seq<tt_glyph_desc>, gid: int) -> bool {
    exists|i: int| 0 <= i < s.len() && s[i].gid as int == gid
}

/// The position of the slot assigned new glyph id `gid`.
pub open spec fn spec_pos_of_new(s: Seq<tt_glyph_desc>, gid: int) -> int {
    choose|i: int| 0 <= i < s.len() && s[i].gid as int == gid
}

impl tt_glyphs {
    /// The registry's internal invariant.
    ///
    /// The usage bitmap covers the whole 16-bit id space; the notdef slot is
    /// first and maps to new glyph id 0; new glyph ids are unique and below
    /// the ceiling; original glyph ids are unique; the bitmap marks exactly
    /// the assigned new glyph ids; and `last_gid` is the highest of them.
    pub open spec fn wf(self) -> bool {
        &&& self.used_slot@.len() == 65536
        &&& 1 <= self.gd@.len() <= GID_CEILING
        &&& self.gd@[0].gid == 0
        &&& self.gd@[0].ogid == 0
        &&& forall|i: int, j: int|
            #![trigger self.gd@[i].gid, self.gd@[j].gid]
            0 <= i < j < self.gd@.len() ==> self.gd@[i].gid != self.gd@[j].gid
        &&& forall|i: int, j: int|
            #![trigger self.gd@[i].ogid, self.gd@[j].ogid]
            0 <= i < j < self.gd@.len() ==> self.gd@[i].ogid != self.gd@[j].ogid
        &&& forall|i: int| 0 <= i < self.gd@.len() ==> (#[trigger] self.gd@[i].gid) < GID_CEILING
        &&& forall|k: int|
            0 <= k < 65536 ==> (#[trigger] self.used_slot@[k] <==> spec_has_new(self.gd@, k))
        &&& forall|i: int| 0 <= i < self.gd@.len() ==> (#[trigger] self.gd@[i].gid) <= self.last_gid
        &&& spec_has_new(self.gd@, self.last_gid as int)
    }

    /// Creates a subsetting session: an empty registry holding only the
    /// notdef slot, which maps original glyph id 0 to new glyph id 0.
    pub fn tt_build_init() -> (g: tt_glyphs)
        ensures
            g.wf(),
            g.gd@.len() == 1,
            g.gd@[0].gid == 0,
            g.gd@[0].ogid == 0,
            g.gd@[0].data@ =~= Seq::<u8>::empty(),
            g.last_gid == 0,
            g.emsize == 1,
            g.dw == 0,
            g.default_advh == 0,
            g.default_tsb == 0,
            !g.closed,
    {
        let mut used_slot: Vec<bool> = Vec::new();
        let mut k: usize = 0;
        while k < 65536
            invariant
                k <= 65536,
                used_slot@.len() == k,
                forall|j: int| 0 <= j < k ==> !(#[trigger] used_slot@[j]),
            decreases 65536 - k,
        {
            used_slot.push(false);
            k = k + 1;
        }
        let notdef = tt_glyph_desc {
            gid: 0,
            ogid: 0,
            advw: 0,
            advh: 0,
            lsb: 0,
            tsb: 0,
            llx: 0,
            lly: 0,
            urx: 0,
            ury: 0,
            data: Vec::new(),
        };
        let mut gd: Vec<tt_glyph_desc> = Vec::new();
        gd.push(notdef);
        let mut g = tt_glyphs {
            gd,
            used_slot,
            last_gid: 0,
            emsize: 1,
            dw: 0,
            default_advh: 0,
            default_tsb: 0,
            closed: false,
        };
        g.used_slot.set(0, true);
        proof {
            assert(spec_has_new(g.gd@, 0)) by {
                assert(g.gd@[0].gid as int == 0);
            }
            assert forall|k2: int| 0 <= k2 < 65536 implies (#[trigger] g.used_slot@[k2]
                <==> spec_has_new(g.gd@, k2)) by {
                if spec_has_new(g.gd@, k2) {
                    let i = choose|i: int| 0 <= i < g.gd@.len() && g.gd@[i].gid as int == k2;
                    assert(i == 0);
                }
            }
        }
        g
    }

    /// Linear scan for the slot holding original glyph id `gid`; returns its
    /// new glyph id, or 0 when no slot holds it (the legacy convention,
    /// indistinguishable from a true hit on the notdef slot).
    pub fn tt_find_glyph(&self, gid: u16) -> (r: u16)
        requires
            self.wf(),
        ensures
            spec_has_old(self.gd@, gid as int) ==> r == spec_new_of(self.gd@, gid as int),
            !spec_has_old(self.gd@, gid as int) ==> r == 0,
    {
        let n = self.gd.len();
        let mut idx: usize = 0;
        while idx < n
            invariant
                self.wf(),
                n == self.gd@.len(),
                idx <= n,
                forall|i: int| 0 <= i < idx ==> (#[trigger] self.gd@[i].ogid) != gid,
            decreases n - idx,
        {
            if self.gd[idx].ogid == gid {
                proof {
                    let w = spec_pos_of_old(self.gd@, gid as int);
                    assert(self.gd@[idx as int].ogid as int == gid as int);
                    assert(spec_has_old(self.gd@, gid as int));
                    if w != idx as int {
                        assert(self.gd@[w].ogid == self.gd@[idx as int].ogid);
                    }
                }
                return self.gd[idx].gid;
            }
            idx = idx + 1;
        }
        0
    }

    /// Scans the usage bitmap for the lowest unused new glyph id below the
    /// ceiling; fails with `ResourceError` when none remains.
    pub fn find_empty_slot(&self) -> (r: Result<u16, SubsetError>)
        requires
            self.wf(),
        ensures
            match r {
                Ok(gid) => {
                    &&& gid < GID_CEILING
                    &&& !self.used_slot@[gid as int]
                    &&& forall|k: int| 0 <= k < gid ==> #[trigger] self.used_slot@[k]
                },
                Err(e) => {
                    &&& e == SubsetError::ResourceError
                    &&& forall|k: int| 0 <= k < GID_CEILING ==> #[trigger] self.used_slot@[k]
                },
            },
    {
        let mut gid: u16 = 0;
        while gid < GID_CEILING
            invariant
                self.wf(),
                gid <= GID_CEILING,
                forall|k: int| 0 <= k < gid ==> #[trigger] self.used_slot@[k],
            decreases GID_CEILING - gid,
        {
            if !self.used_slot[gid as usize] {
                return Ok(gid);
            }
            gid = gid + 1;
        }
        Err(SubsetError::ResourceError)
    }

    /// Registers original glyph id `gid` under the requested new glyph id.
    ///
    /// If the requested id's bitmap slot is already marked used, the request
    /// is a recoverable duplicate: the existing mapping is left untouched and
    /// the requested id is returned anyway. Otherwise a fresh slot is
    /// appended and the bitmap marked; the registry fails with `RangeError`
    /// when it would exceed the reserved id ceiling.
    pub fn tt_add_glyph(&mut self, gid: u16, new_gid: u16) -> (r: Result<u16, SubsetError>)
        requires
            old(self).wf(),
            !old(self).closed,
            spec_has_old(old(self).gd@, gid as int) ==> old(self).used_slot@[new_gid as int],
        ensures
            final(self).wf(),
            final(self).closed == old(self).closed,
            final(self).emsize == old(self).emsize,
            final(self).dw == old(self).dw,
            final(self).default_advh == old(self).default_advh,
            final(self).default_tsb == old(self).default_tsb,
            old(self).used_slot@[new_gid as int] ==> r == Ok::<u16, SubsetError>(new_gid)
                && *final(self) == *old(self),
            !old(self).used_slot@[new_gid as int] && (old(self).gd@.len() + 1 >= GID_CEILING
                || new_gid >= GID_CEILING) ==> r == Err::<u16, SubsetError>(
                SubsetError::RangeError,
            ) && *final(self) == *old(self),
            !old(self).used_slot@[new_gid as int] && old(self).gd@.len() + 1 < GID_CEILING
                && new_gid < GID_CEILING ==> {
                &&& r == Ok::<u16, SubsetError>(new_gid)
                &&& final(self).gd@.len() == old(self).gd@.len() + 1
                &&& final(self).gd@ =~= old(self).gd@.push(final(self).gd@.last())
                &&& final(self).gd@.last().gid == new_gid
                &&& final(self).gd@.last().ogid == gid
                &&& final(self).gd@.last().data@ =~= Seq::<u8>::empty()
                &&& final(self).used_slot@ =~= old(self).used_slot@.update(new_gid as int, true)
                &&& final(self).last_gid == if new_gid > old(self).last_gid {
                    new_gid
                } else {
                    old(self).last_gid
                }
            },
    {
        if self.used_slot[new_gid as usize] {
            // A duplicate slot request is the sole recoverable case: the
            // existing mapping is left untouched.
            return Ok(new_gid);
        }
        if self.gd.len() + 1 >= GID_CEILING as usize || new_gid >= GID_CEILING {
            return Err(SubsetError::RangeError);
        }
        let slot = tt_glyph_desc {
            gid: new_gid,
            ogid: gid,
            advw: 0,
            advh: 0,
            lsb: 0,
            tsb: 0,
            llx: 0,
            lly: 0,
            urx: 0,
            ury: 0,
            data: Vec::new(),
        };
        self.gd.push(slot);
        self.used_slot.set(new_gid as usize, true);
        if new_gid > self.last_gid {
            self.last_gid = new_gid;
        }
        proof {
            let n = self.gd@.len() - 1;
            assert(self.gd@[n].gid == new_gid);
            assert forall|i: int, j: int|
                #![trigger self.gd@[i].gid, self.gd@[j].gid]
                0 <= i < j < self.gd@.len() implies self.gd@[i].gid != self.gd@[j].gid by {
                if j == n && self.gd@[i].gid == new_gid {
                    assert(spec_has_new(old(self).gd@, new_gid as int));
                }
            }
            assert forall|i: int, j: int|
                #![trigger self.gd@[i].ogid, self.gd@[j].ogid]
                0 <= i < j < self.gd@.len() implies self.gd@[i].ogid != self.gd@[j].ogid by {
                if j == n && self.gd@[i].ogid == gid {
                    assert(spec_has_old(old(self).gd@, gid as int));
                    assert(old(self).used_slot@[new_gid as int]);
                }
            }
            assert forall|k2: int| 0 <= k2 < 65536 implies (#[trigger] self.used_slot@[k2]
                <==> spec_has_new(self.gd@, k2)) by {
                if k2 == new_gid as int {
                    assert(self.gd@[n].gid as int == k2);
                } else {
                    if spec_has_new(self.gd@, k2) {
                        let i = choose|i: int| 0 <= i < self.gd@.len() && self.gd@[i].gid as int
                            == k2;
                        assert(i != n);
                        assert(spec_has_new(old(self).gd@, k2));
                    }
                    if spec_has_new(old(self).gd@, k2) {
                        let i = choose|i: int|
                            0 <= i < old(self).gd@.len() && old(self).gd@[i].gid as int == k2;
                        assert(self.gd@[i].gid as int == k2);
                    }
                }
            }
            if new_gid <= old(self).last_gid {
                let w = spec_pos_of_new(old(self).gd@, old(self).last_gid as int);
                assert(self.gd@[w].gid == old(self).last_gid);
            } else {
                assert(spec_has_new(self.gd@, self.last_gid as int)) by {
                    assert(self.gd@[n].gid == self.last_gid);
                }
            }
        }
        Ok(new_gid)
    }

    /// Registers `old_id` in the subset, allocating the lowest free new
    /// glyph id, and returns the glyph's new id. A glyph that is already
    /// registered — glyph 0 always is — keeps its mapping and its id is
    /// returned again, without creating a second slot.
    pub fn add_glyph(&mut self, old_id: u16) -> (r: Result<u16, SubsetError>)
        requires
            old(self).wf(),
            !old(self).closed,
        ensures
            final(self).wf(),
            final(self).closed == old(self).closed,
            spec_has_old(old(self).gd@, old_id as int) ==> *final(self) == *old(self) && r == Ok::<
                u16,
                SubsetError,
            >(spec_new_of(old(self).gd@, old_id as int)),
            old_id == 0 ==> r == Ok::<u16, SubsetError>(0),
            r matches Ok(id) ==> spec_has_old(final(self).gd@, old_id as int) && spec_new_of(
                final(self).gd@,
                old_id as int,
            ) == id,
            !spec_has_old(old(self).gd@, old_id as int) ==> match r {
                Ok(id) => {
                    &&& final(self).gd@.len() == old(self).gd@.len() + 1
                    &&& final(self).gd@ =~= old(self).gd@.push(final(self).gd@.last())
                    &&& final(self).gd@.last().ogid == old_id
                    &&& final(self).gd@.last().gid == id
                },
                Err(e) => {
                    &&& *final(self) == *old(self)
                    &&& e == SubsetError::ResourceError || e == SubsetError::RangeError
                    &&& e == SubsetError::ResourceError ==> forall|k: int|
                        0 <= k < GID_CEILING ==> #[trigger] old(self).used_slot@[k]
                    &&& e == SubsetError::RangeError ==> old(self).gd@.len() + 1 >= GID_CEILING
                },
            },
    {
        match self.find_glyph(old_id) {
            Some(id) => {
                proof {
                    if old_id == 0 {
                        let w = spec_pos_of_old(self.gd@, 0);
                        if w != 0 {
                            assert(self.gd@[w].ogid == self.gd@[0].ogid);
                        }
                    }
                }
                Ok(id)
            },
            None => {
                let slot = match self.find_empty_slot() {
                    Ok(s) => s,
                    Err(e) => {
                        return Err(e);
                    },
                };
                let r = self.tt_add_glyph(old_id, slot);
                proof {
                    if r is Ok {
                        let n = self.gd@.len() - 1;
                        let w = spec_pos_of_old(self.gd@, old_id as int);
                        assert(self.gd@[n].ogid == old_id);
                        assert(spec_has_old(self.gd@, old_id as int));
                        if w != n {
                            assert(self.gd@[w].ogid == self.gd@[n].ogid);
                        }
                    }
                }
                r
            },
        }
    }

    /// Looks up the new glyph id assigned to original glyph id `old_id`,
    /// or `None` when the glyph is not registered.
    pub fn find_glyph(&self, old_id: u16) -> (r: Option<u16>)
        requires
            self.wf(),
        ensures
            spec_has_old(self.gd@, old_id as int) ==> r == Some(
                spec_new_of(self.gd@, old_id as int),
            ),
            !spec_has_old(self.gd@, old_id as int) ==> r is None,
    {
        let n = self.gd.len();
        let mut idx: usize = 0;
        while idx < n
            invariant
                self.wf(),
                n == self.gd@.len(),
                idx <= n,
                forall|i: int| 0 <= i < idx ==> (#[trigger] self.gd@[i].ogid) != old_id,
            decreases n - idx,
        {
            if self.gd[idx].ogid == old_id {
                proof {
                    let w = spec_pos_of_old(self.gd@, old_id as int);
                    assert(self.gd@[idx as int].ogid as int == old_id as int);
                    assert(spec_has_old(self.gd@, old_id as int));
                    if w != idx as int {
                        assert(self.gd@[w].ogid == self.gd@[idx as int].ogid);
                    }
                }
                return Some(self.gd[idx].gid);
            }
            idx = idx + 1;
        }
        None
    }
    /// Linear scan for the slot holding new glyph id `gid`; returns its
    /// position, falling back to position 0 when no slot holds it (the
    /// legacy convention, indistinguishable from a true match at position
    /// 0; `index_of` reports absence explicitly).
    pub fn tt_get_index(&self, gid: u16) -> (r: u16)
        requires
            self.wf(),
        ensures
            r < self.gd@.len(),
            spec_has_new(self.gd@, gid as int) ==> r as int == spec_pos_of_new(
                self.gd@,
                gid as int,
            ),
            !spec_has_new(self.gd@, gid as int) ==> r == 0,
    {
        let n = self.gd.len();
        let mut idx: usize = 0;
        while idx < n
            invariant
                self.wf(),
                n == self.gd@.len(),
                idx <= n,
                forall|i: int| 0 <= i < idx ==> (#[trigger] self.gd@[i].gid) != gid,
            decreases n - idx,
        {
            if self.gd[idx].gid == gid {
                proof {
                    let w = spec_pos_of_new(self.gd@, gid as int);
                    assert(self.gd@[idx as int].gid as int == gid as int);
                    assert(spec_has_new(self.gd@, gid as int));
                    if w != idx as int {
                        assert(self.gd@[w].gid == self.gd@[idx as int].gid);
                    }
                }
                return idx as u16;
            }
            idx = idx + 1;
        }
        0
    }

    /// The position of the slot holding new glyph id `new_id`, or `None`
    /// when no slot holds it.
    pub fn index_of(&self, new_id: u16) -> (r: Option<usize>)
        requires
            self.wf(),
        ensures
            spec_has_new(self.gd@, new_id as int) ==> r == Some(
                spec_pos_of_new(self.gd@, new_id as int) as usize,
            ),
            !spec_has_new(self.gd@, new_id as int) ==> r is None,
    {
        let n = self.gd.len();
        let mut idx: usize = 0;
        while idx < n
            invariant
                self.wf(),
                n == self.gd@.len(),
                idx <= n,
                forall|i: int| 0 <= i < idx ==> (#[trigger] self.gd@[i].gid) != new_id,
            decreases n - idx,
        {
            if self.gd[idx].gid == new_id {
                proof {
                    let w = spec_pos_of_new(self.gd@, new_id as int);
                    assert(self.gd@[idx as int].gid as int == new_id as int);
                    assert(spec_has_new(self.gd@, new_id as int));
                    if w != idx as int {
                        assert(self.gd@[w].gid == self.gd@[idx as int].gid);
                    }
                }
                return Some(idx);
            }
            idx = idx + 1;
        }
        None
    }

    /// Ends the session and releases the registry with every remaining slot
    /// buffer.
    pub fn tt_build_finish(self) {
        let _ = self;
    }

    /// Replaces the payload of slot `i` — metrics, bounding box, outline —
    /// while keeping its glyph-id mapping, so the registry invariant is
    /// undisturbed.
    pub fn replace_slot(&mut self, i: usize, d: tt_glyph_desc)
        requires
            old(self).wf(),
            i < old(self).gd@.len(),
            d.gid == old(self).gd@[i as int].gid,
            d.ogid == old(self).gd@[i as int].ogid,
        ensures
            final(self).wf(),
            final(self).gd@ =~= old(self).gd@.update(i as int, d),
            final(self).used_slot == old(self).used_slot,
            final(self).last_gid == old(self).last_gid,
            final(self).emsize == old(self).emsize,
            final(self).dw == old(self).dw,
            final(self).default_advh == old(self).default_advh,
            final(self).default_tsb == old(self).default_tsb,
            final(self).closed == old(self).closed,
    {
        self.gd.set(i, d);
        proof {
            assert forall|k2: int| 0 <= k2 < 65536 implies (#[trigger] self.used_slot@[k2]
                <==> spec_has_new(self.gd@, k2)) by {
                if spec_has_new(self.gd@, k2) {
                    let w = choose|w: int| 0 <= w < self.gd@.len() && self.gd@[w].gid as int == k2;
                    assert(old(self).gd@[w].gid as int == k2);
                    assert(spec_has_new(old(self).gd@, k2));
                }
                if spec_has_new(old(self).gd@, k2) {
                    let w = choose|w: int|
                        0 <= w < old(self).gd@.len() && old(self).gd@[w].gid as int == k2;
                    assert(self.gd@[w].gid as int == k2);
                }
            }
            let w = spec_pos_of_new(old(self).gd@, old(self).last_gid as int);
            assert(self.gd@[w].gid == self.last_gid);
        }
    }
}

/// The histogram bucket of an advance width: the exact width up to the
/// units per em, with one overflow bucket above.
pub open spec fn bucket(advw: u16, emsize: u16) -> int {
    if advw <= emsize {
        advw as int
    } else {
        emsize as int + 1
    }
}

/// How many slots of `s` fall into width bucket `w`.
pub open spec fn width_count(s: Seq<tt_glyph_desc>, emsize: u16, w: int) -> nat
    decreases s.len(),
{
    if s.len() == 0 {
        0nat
    } else {
        width_count(s.drop_last(), emsize, w) + (if bucket(s.last().advw, emsize) == w {
            1nat
        } else {
            0nat
        })
    }
}

/// A bucket's count never exceeds the number of slots.
pub proof fn lemma_width_count_le_len(s: Seq<tt_glyph_desc>, emsize: u16, w: int)
    ensures
        width_count(s, emsize, w) <= s.len(),
    decreases s.len(),
{
    if s.len() > 0 {
        lemma_width_count_le_len(s.drop_last(), emsize, w);
    }
}

/// Extending the counted prefix by one slot raises exactly that slot's
/// bucket by one.
pub proof fn lemma_width_count_step(s: Seq<tt_glyph_desc>, i: int, emsize: u16, w: int)
    requires
        0 <= i < s.len(),
    ensures
        width_count(s.take(i + 1), emsize, w) == width_count(s.take(i), emsize, w) + (if bucket(
            s[i].advw,
            emsize,
        ) == w {
            1int
        } else {
            0int
        }),
{
    assert(s.take(i + 1).drop_last() =~= s.take(i));
    assert(s.take(i + 1).last() == s[i]);
}

/// Whether the slot value `x` occurs in `s`.
pub open spec fn in_seq(x: tt_glyph_desc, s: Seq<tt_glyph_desc>) -> bool {
    exists|j: int| 0 <= j < s.len() && s[j] == x
}

/// Whether every slot of `s` also occurs in `s2`.
pub open spec fn slots_contained(s: Seq<tt_glyph_desc>, s2: Seq<tt_glyph_desc>) -> bool {
    forall|i: int| 0 <= i < s.len() ==> in_seq(#[trigger] s[i], s2)
}

/// A registered mapping survives any rearrangement that keeps the slots
/// themselves: the original glyph id stays registered under the same new
/// glyph id.
pub proof fn lemma_lookup_perm(s: Seq<tt_glyph_desc>, s2: Seq<tt_glyph_desc>, c: int)
    requires
        slots_contained(s, s2),
        forall|i: int, j: int|
            #![trigger s2[i].ogid, s2[j].ogid]
            0 <= i < j < s2.len() ==> s2[i].ogid != s2[j].ogid,
        spec_has_old(s, c),
    ensures
        spec_has_old(s2, c),
        spec_new_of(s2, c) == spec_new_of(s, c),
{
    let w = spec_pos_of_old(s, c);
    assert(in_seq(s[w], s2));
    let j = choose|j: int| 0 <= j < s2.len() && s2[j] == s[w];
    assert(s2[j].ogid as int == c);
    let w2 = spec_pos_of_old(s2, c);
    if w2 != j {
        assert(s2[w2].ogid == s2[j].ogid);
    }
}

/// Whether `s2` extends `s` without touching the slots already present.
pub open spec fn reg_extends(s: Seq<tt_glyph_desc>, s2: Seq<tt_glyph_desc>) -> bool {
    s2.len() >= s.len() && forall|i: int| 0 <= i < s.len() ==> s2[i] == s[i]
}

/// Extending a registry preserves every established mapping: an original
/// glyph id that was registered stays registered, under the same new glyph
/// id.
pub proof fn lemma_lookup_extend(s: Seq<tt_glyph_desc>, s2: Seq<tt_glyph_desc>, c: int)
    requires
        s2.len() >= s.len(),
        forall|i: int|
            0 <= i < s.len() ==> (#[trigger] s2[i]).ogid == s[i].ogid && s2[i].gid == s[i].gid,
        forall|i: int, j: int|
            #![trigger s2[i].ogid, s2[j].ogid]
            0 <= i < j < s2.len() ==> s2[i].ogid != s2[j].ogid,
        spec_has_old(s, c),
    ensures
        spec_has_old(s2, c),
        spec_new_of(s2, c) == spec_new_of(s, c),
{
    let w = spec_pos_of_old(s, c);
    assert(s2[w].ogid as int == c);
    let w2 = spec_pos_of_old(s2, c);
    if w2 != w {
        assert(s2[w2].ogid == s2[w].ogid);
    }
}

/// A sequence of slots with pairwise distinct original glyph ids, all below
/// `bound`, cannot have more slots than there are ids below `bound`.
pub proof fn lemma_distinct_ogids_bound(s: Seq<tt_glyph_desc>, bound: int)
    requires
        0 <= bound,
        forall|i: int, j: int|
            #![trigger s[i].ogid, s[j].ogid]
            0 <= i < j < s.len() ==> s[i].ogid != s[j].ogid,
        forall|i: int| 0 <= i < s.len() ==> (#[trigger] s[i].ogid) < bound,
    ensures
        s.len() <= bound,
{
    let positions = vstd::set_lib::set_int_range(0, s.len() as int);
    let ids = vstd::set_lib::set_int_range(0, bound);
    vstd::set_lib::lemma_int_range(0, s.len() as int);
    vstd::set_lib::lemma_int_range(0, bound);
    let f = |i: int| s[i].ogid as int;
    assert(vstd::relations::injective_on(f, positions)) by {
        assert forall|x: int, y: int|
            positions.contains(x) && positions.contains(y) && #[trigger] f(x) == #[trigger] f(
                y,
            ) implies x == y by {
            if x < y {
                assert(s[x].ogid != s[y].ogid);
            }
            if y < x {
                assert(s[y].ogid != s[x].ogid);
            }
        }
    }
    let image = positions.map(f);
    vstd::set_lib::lemma_map_size(positions, image, f);
    assert(image.subset_of(ids)) by {
        assert forall|p: int| image.contains(p) implies ids.contains(p) by {
            let k = choose|k: int| positions.contains(k) && f(k) == p;
            assert(s[k].ogid < bound);
        }
    }
    vstd::set_lib::lemma_len_subset(image, ids);
}

/// In a well-formed registry that is not full, a free new glyph id below the
/// ceiling always remains: the slots map injectively into the id space below
/// the ceiling, so fewer slots than ids leaves at least one id unused.
pub proof fn lemma_free_slot_exists(g: tt_glyphs)
    requires
        g.wf(),
        g.gd@.len() < GID_CEILING,
    ensures
        exists|k: int| 0 <= k < GID_CEILING && !(#[trigger] g.used_slot@[k]),
{
    if forall|k: int| 0 <= k < GID_CEILING ==> #[trigger] g.used_slot@[k] {
        let ids = vstd::set_lib::set_int_range(0, GID_CEILING as int);
        let positions = vstd::set_lib::set_int_range(0, g.gd@.len() as int);
        vstd::set_lib::lemma_int_range(0, GID_CEILING as int);
        vstd::set_lib::lemma_int_range(0, g.gd@.len() as int);
        let f = |k: int| spec_pos_of_new(g.gd@, k);
        assert forall|k: int| ids.contains(k) implies positions.contains(f(k)) && g.gd@[f(
            k,
        )].gid as int == k by {
            assert(g.used_slot@[k]);
            assert(spec_has_new(g.gd@, k));
        }
        assert(vstd::relations::injective_on(f, ids)) by {
            assert forall|x: int, y: int|
                ids.contains(x) && ids.contains(y) && #[trigger] f(x) == #[trigger] f(
                    y,
                ) implies x == y by {
                assert(g.gd@[f(x)].gid as int == x);
                assert(g.gd@[f(y)].gid as int == y);
            }
        }
        let image = ids.map(f);
        vstd::set_lib::lemma_map_size(ids, image, f);
        assert(image.subset_of(positions)) by {
            assert forall|p: int| image.contains(p) implies positions.contains(p) by {
                let k = choose|k: int| ids.contains(k) && f(k) == p;
                assert(positions.contains(f(k)));
            }
        }
        vstd::set_lib::lemma_len_subset(image, positions);
        assert(false);
    }
}


/// A bucket count over a concatenation is the sum of the parts.
pub proof fn lemma_width_count_concat(
    a: Seq<tt_glyph_desc>,
    b: Seq<tt_glyph_desc>,
    emsize: u16,
    w: int,
)
    ensures
        width_count(a + b, emsize, w) == width_count(a, emsize, w) + width_count(b, emsize, w),
    decreases b.len(),
{
    if b.len() == 0 {
        assert(a + b =~= a);
    } else {
        lemma_width_count_concat(a, b.drop_last(), emsize, w);
        assert((a + b).drop_last() =~= a + b.drop_last());
        assert((a + b).last() == b.last());
    }
}

/// Finds the first slot assigned new glyph id `gid`, in a bare slot
/// sequence.
pub(crate) fn scan_gid(v: &Vec<tt_glyph_desc>, gid: u16) -> (r: Option<usize>)
    ensures
        match r {
            Some(i) => i < v@.len() && v@[i as int].gid == gid && forall|j: int|
                0 <= j < i ==> (#[trigger] v@[j].gid) != gid,
            None => forall|j: int| 0 <= j < v@.len() ==> (#[trigger] v@[j].gid) != gid,
        },
{
    let n = v.len();
    let mut idx: usize = 0;
    while idx < n
        invariant
            n == v@.len(),
            idx <= n,
            forall|j: int| 0 <= j < idx ==> (#[trigger] v@[j].gid) != gid,
        decreases n - idx,
    {
        if v[idx].gid == gid {
            return Some(idx);
        }
        idx = idx + 1;
    }
    None
}


/// Moving one slot from the remainder to the drained output preserves
/// every bucket count across the pair.
proof fn lemma_wc_remove_push(
    out_pre: Seq<tt_glyph_desc>,
    rem_pre: Seq<tt_glyph_desc>,
    idx: int,
    em: u16,
    w: int,
)
    requires
        0 <= idx < rem_pre.len(),
    ensures
        width_count(out_pre.push(rem_pre[idx]), em, w) + width_count(rem_pre.remove(idx), em, w)
            == width_count(out_pre, em, w) + width_count(rem_pre, em, w),
{
    let d = rem_pre[idx];
    assert(out_pre.push(d) =~= out_pre + seq![d]);
    lemma_width_count_concat(out_pre, seq![d], em, w);
    assert(rem_pre =~= rem_pre.take(idx) + seq![d] + rem_pre.skip(idx + 1));
    assert(rem_pre.remove(idx) =~= rem_pre.take(idx) + rem_pre.skip(idx + 1));
    lemma_width_count_concat(rem_pre.take(idx) + seq![d], rem_pre.skip(idx + 1), em, w);
    lemma_width_count_concat(rem_pre.take(idx), seq![d], em, w);
    lemma_width_count_concat(rem_pre.take(idx), rem_pre.skip(idx + 1), em, w);
    assert(width_count(seq![d], em, w) == if bucket(d.advw, em) == w {
        1nat
    } else {
        0nat
    }) by {
        assert(seq![d].drop_last() =~= Seq::<tt_glyph_desc>::empty());
        assert(width_count(Seq::<tt_glyph_desc>::empty(), em, w) == 0);
    }
}

/// Moving one slot from the remainder to the drained output keeps every
/// original slot present in one of the two.
proof fn lemma_containment_move(
    orig: Seq<tt_glyph_desc>,
    out_pre: Seq<tt_glyph_desc>,
    rem_pre: Seq<tt_glyph_desc>,
    out_new: Seq<tt_glyph_desc>,
    rem_new: Seq<tt_glyph_desc>,
    idx: int,
)
    requires
        0 <= idx < rem_pre.len(),
        out_new == out_pre.push(rem_pre[idx]),
        rem_new == rem_pre.remove(idx),
        forall|i: int|
            0 <= i < orig.len() ==> in_seq(#[trigger] orig[i], out_pre) || in_seq(
                orig[i],
                rem_pre,
            ),
    ensures
        forall|i: int|
            0 <= i < orig.len() ==> in_seq(#[trigger] orig[i], out_new) || in_seq(
                orig[i],
                rem_new,
            ),
{
    assert forall|i: int| 0 <= i < orig.len() implies in_seq(#[trigger] orig[i], out_new)
        || in_seq(orig[i], rem_new) by {
        if in_seq(orig[i], out_pre) {
            let j = choose|j: int| 0 <= j < out_pre.len() && out_pre[j] == orig[i];
            assert(out_new[j] == orig[i]);
        } else {
            let j = choose|j: int| 0 <= j < rem_pre.len() && rem_pre[j] == orig[i];
            if j == idx {
                assert(out_new[out_new.len() - 1] == orig[i]);
            } else if j < idx {
                assert(rem_new[j] == orig[i]);
            } else {
                assert(rem_new[j - 1] == orig[i]);
            }
        }
    }
}

/// After a drain-sort, the registry's structural facts carry over: the
/// notdef slot is first, original ids stay pairwise distinct, and the id
/// bounds and the set of assigned new ids are unchanged.
proof fn lemma_sort_preserves_registry(orig: Seq<tt_glyph_desc>, s: Seq<tt_glyph_desc>, last: u16)
    requires
        1 <= orig.len() <= GID_CEILING,
        orig[0].gid == 0,
        orig[0].ogid == 0,
        forall|i: int, j: int|
            #![trigger orig[i].gid, orig[j].gid]
            0 <= i < j < orig.len() ==> orig[i].gid != orig[j].gid,
        forall|i: int, j: int|
            #![trigger orig[i].ogid, orig[j].ogid]
            0 <= i < j < orig.len() ==> orig[i].ogid != orig[j].ogid,
        forall|i: int| 0 <= i < orig.len() ==> (#[trigger] orig[i].gid) <= last,
        forall|i: int| 0 <= i < orig.len() ==> (#[trigger] orig[i].gid) < GID_CEILING,
        spec_has_new(orig, last as int),
        s.len() == orig.len(),
        forall|i: int, j: int|
            #![trigger s[i].gid, s[j].gid]
            0 <= i < j < s.len() ==> s[i].gid < s[j].gid,
        slots_contained(orig, s),
        slots_contained(s, orig),
    ensures
        s[0].gid == 0,
        s[0].ogid == 0,
        forall|k2: int| #[trigger] spec_has_new(s, k2) == spec_has_new(orig, k2),
        forall|i: int, j: int|
            #![trigger s[i].ogid, s[j].ogid]
            0 <= i < j < s.len() ==> s[i].ogid != s[j].ogid,
        forall|i: int| 0 <= i < s.len() ==> (#[trigger] s[i].gid) <= last,
        forall|i: int| 0 <= i < s.len() ==> (#[trigger] s[i].gid) < GID_CEILING,
        spec_has_new(s, last as int),
{
    assert forall|k2: int| #[trigger] spec_has_new(s, k2) == spec_has_new(orig, k2) by {
        if spec_has_new(s, k2) {
            let j = choose|j: int| 0 <= j < s.len() && s[j].gid as int == k2;
            assert(in_seq(s[j], orig));
            let i = choose|i: int| 0 <= i < orig.len() && orig[i] == s[j];
            assert(orig[i].gid as int == k2);
            assert(spec_has_new(orig, k2));
        }
        if spec_has_new(orig, k2) {
            let i = choose|i: int| 0 <= i < orig.len() && orig[i].gid as int == k2;
            assert(in_seq(orig[i], s));
            let j = choose|j: int| 0 <= j < s.len() && s[j] == orig[i];
            assert(s[j].gid as int == k2);
            assert(spec_has_new(s, k2));
        }
    }
    assert forall|i: int, j: int|
        #![trigger s[i].ogid, s[j].ogid]
        0 <= i < j < s.len() implies s[i].ogid != s[j].ogid by {
        assert(in_seq(s[i], orig));
        assert(in_seq(s[j], orig));
        let ii = choose|ii: int| 0 <= ii < orig.len() && orig[ii] == s[i];
        let jj = choose|jj: int| 0 <= jj < orig.len() && orig[jj] == s[j];
        assert(s[i].gid < s[j].gid);
        assert(ii != jj);
        if ii < jj {
            assert(orig[ii].ogid != orig[jj].ogid);
        } else {
            assert(orig[jj].ogid != orig[ii].ogid);
        }
    }
    assert forall|i: int| 0 <= i < s.len() implies (#[trigger] s[i].gid) <= last && s[i].gid
        < GID_CEILING by {
        assert(in_seq(s[i], orig));
        let ii = choose|ii: int| 0 <= ii < orig.len() && orig[ii] == s[i];
        assert(orig[ii].gid <= last);
    }
    assert(spec_has_new(s, last as int)) by {
        let i = choose|i: int| 0 <= i < orig.len() && orig[i].gid as int == last as int;
        assert(in_seq(orig[i], s));
        let j = choose|j: int| 0 <= j < s.len() && s[j] == orig[i];
        assert(s[j].gid as int == last as int);
    }
    assert(in_seq(orig[0], s));
    let j0 = choose|j: int| 0 <= j < s.len() && s[j] == orig[0];
    assert(j0 == 0) by {
        if j0 > 0 {
            assert(s[0].gid < s[j0].gid);
        }
    }
}

impl tt_glyphs {
    /// Sorts the registry slots by new glyph id ascending — the stable
    /// total order that table serialization emits — by draining the slots
    /// into a fresh sequence in increasing id order.
    #[verifier::rlimit(100)]
    pub fn sort_by_new_gid(&mut self)
        requires
            old(self).wf(),
        ensures
            final(self).wf(),
            final(self).gd@.len() == old(self).gd@.len(),
            forall|i: int, j: int|
                #![trigger final(self).gd@[i].gid, final(self).gd@[j].gid]
                0 <= i < j < final(self).gd@.len() ==> final(self).gd@[i].gid
                    < final(self).gd@[j].gid,
            slots_contained(old(self).gd@, final(self).gd@),
            slots_contained(final(self).gd@, old(self).gd@),
            forall|em: u16, w: int|
                width_count(final(self).gd@, em, w) == #[trigger] width_count(
                    old(self).gd@,
                    em,
                    w,
                ),
            final(self).used_slot == old(self).used_slot,
            final(self).last_gid == old(self).last_gid,
            final(self).emsize == old(self).emsize,
            final(self).dw == old(self).dw,
            final(self).default_advh == old(self).default_advh,
            final(self).default_tsb == old(self).default_tsb,
            final(self).closed == old(self).closed,
    {
        let ghost orig = self.gd@;
        let last = self.last_gid;
        let mut out: Vec<tt_glyph_desc> = Vec::new();
        let mut k: u32 = 0;
        while k <= last as u32
            invariant
                orig == old(self).gd@,
                self.used_slot == old(self).used_slot,
                self.last_gid == old(self).last_gid,
                self.emsize == old(self).emsize,
                self.dw == old(self).dw,
                self.default_advh == old(self).default_advh,
                self.default_tsb == old(self).default_tsb,
                self.closed == old(self).closed,
                old(self).wf(),
                last == old(self).last_gid,
                k <= last + 1,
                out@.len() + self.gd@.len() == orig.len(),
                forall|i: int, j: int|
                    #![trigger out@[i].gid, out@[j].gid]
                    0 <= i < j < out@.len() ==> out@[i].gid < out@[j].gid,
                forall|i: int| 0 <= i < out@.len() ==> (#[trigger] out@[i].gid) < k,
                forall|i: int| 0 <= i < self.gd@.len() ==> (#[trigger] self.gd@[i].gid) >= k,
                forall|i: int, j: int|
                    #![trigger self.gd@[i].gid, self.gd@[j].gid]
                    0 <= i < j < self.gd@.len() ==> self.gd@[i].gid != self.gd@[j].gid,
                forall|i: int|
                    0 <= i < orig.len() ==> in_seq(#[trigger] orig[i], out@) || in_seq(
                        orig[i],
                        self.gd@,
                    ),
                forall|j: int| 0 <= j < out@.len() ==> in_seq(#[trigger] out@[j], orig),
                forall|j: int| 0 <= j < self.gd@.len() ==> in_seq(#[trigger] self.gd@[j], orig),
                forall|em: u16, w: int|
                    #[trigger] width_count(out@, em, w) + width_count(self.gd@, em, w)
                        == width_count(orig, em, w),
            decreases last + 1 - k,
        {
            let kk = k as u16;
            match scan_gid(&self.gd, kk) {
                Some(idx) => {
                    let ghost rem_pre = self.gd@;
                    let ghost out_pre = out@;
                    let d = self.gd.remove(idx);
                    out.push(d);
                    proof {
                        assert(out@ =~= out_pre.push(rem_pre[idx as int]));
                        assert(self.gd@ =~= rem_pre.remove(idx as int));
                        assert forall|em: u16, w: int|
                            #[trigger] width_count(out@, em, w) + width_count(self.gd@, em, w)
                                == width_count(orig, em, w) by {
                            lemma_wc_remove_push(out_pre, rem_pre, idx as int, em, w);
                        }
                        lemma_containment_move(
                            orig,
                            out_pre,
                            rem_pre,
                            out@,
                            self.gd@,
                            idx as int,
                        );
                    }
                },
                None => {},
            }
            k = k + 1;
        }
        proof {
            if self.gd@.len() > 0 {
                assert(in_seq(self.gd@[0], orig));
                let i = choose|i: int| 0 <= i < orig.len() && orig[i] == self.gd@[0];
                assert(orig[i].gid <= last);
                assert(self.gd@[0].gid >= k);
            }
            assert(self.gd@.len() == 0);
            assert(out@.len() == orig.len());
        }
        let sorted = out;
        self.gd = sorted;
        proof {
            lemma_sort_preserves_registry(orig, self.gd@, last);
            assert forall|k2: int| 0 <= k2 < 65536 implies (#[trigger] self.used_slot@[k2]
                <==> spec_has_new(self.gd@, k2)) by {
                assert(spec_has_new(self.gd@, k2) == spec_has_new(orig, k2));
            }
        }
    }
}

} // verus!
