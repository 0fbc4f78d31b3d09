//! Address-space model: virtual addresses and page numbers, mapping
//! permissions, and a memory set made of contiguous mapped areas.
use vstd::prelude::*;
use crate::config::PAGE_SIZE;

verus! {

/// A virtual address.
#[derive(Clone, Copy, Debug, PartialEq, Eq, Structural)]
pub struct VirtAddr(pub usize);

/// A virtual page number.
#[derive(Clone, Copy, Debug, PartialEq, Eq, Structural)]
pub struct VirtPageNum(pub usize);

/// The page that holds address `va`.
pub open spec fn floor_spec(va: usize) -> int {
    va as int / PAGE_SIZE as int
}

/// The first page at or above address `va`.
pub open spec fn ceil_spec(va: usize) -> int {
    (va as int + PAGE_SIZE as int - 1) / PAGE_SIZE as int
}

impl VirtAddr {
    /// The address `v` cut to the width of an Sv39 virtual address.
    pub open spec fn mask_spec(v: usize) -> usize {
        (v as int % 0x80_0000_0000int) as usize
    }

    /// The address `v`, cut to the width of an Sv39 virtual address.
    pub fn from_usize(v: usize) -> (va: VirtAddr)
        ensures
            va.0 as int == v as int % 0x80_0000_0000int,
            va.0 == VirtAddr::mask_spec(v),
    {
        let w: u64 = v as u64;
        let r: u64 = w & 0x7f_ffff_ffffu64;
        assert(w & 0x7f_ffff_ffffu64 == w % 0x80_0000_0000u64) by (bit_vector);
        VirtAddr(r as usize)
    }

    /// The page number of the page that holds this address.
    pub fn floor(&self) -> (vpn: VirtPageNum)
        ensures
            vpn.0 == floor_spec(self.0),
    {
        VirtPageNum(self.0 / PAGE_SIZE)
    }

    /// The page number of the first page boundary at or above this address.
    pub fn ceil(&self) -> (vpn: VirtPageNum)
        ensures
            vpn.0 == ceil_spec(self.0),
    {
        if self.0 % PAGE_SIZE == 0 {
            VirtPageNum(self.0 / PAGE_SIZE)
        } else {
            VirtPageNum(self.0 / PAGE_SIZE + 1)
        }
    }
}

impl VirtPageNum {
    /// The page number `v`, cut to the width of an Sv39 page number.
    pub fn from_usize(v: usize) -> (vpn: VirtPageNum)
        ensures
            vpn.0 as int == v as int % 0x800_0000int,
    {
        let w: u64 = v as u64;
        let r: u64 = w & 0x7ff_ffffu64;
        assert(w & 0x7ff_ffffu64 == w % 0x800_0000u64) by (bit_vector);
        VirtPageNum(r as usize)
    }
}

impl VirtAddr {
    /// The address of the first byte of page `vpn`.
    pub fn from_vpn(vpn: VirtPageNum) -> (va: VirtAddr)
        requires
            vpn.0 < 0x800_0000,
        ensures
            va.0 == (vpn.0 as u64 * 4096u64) as usize,
    {
        let w: u64 = vpn.0 as u64;
        VirtAddr((w * 4096u64) as usize)
    }
}

/// Permission bits of a mapping.
#[derive(Clone, Copy, Debug, PartialEq, Eq, Structural)]
pub struct MapPermission {
    pub bits: u8,
}

impl MapPermission {
    /// Readable.
    pub const R: u8 = 2;
    /// Writable.
    pub const W: u8 = 4;
    /// Executable.
    pub const X: u8 = 8;
    /// Accessible from user mode.
    pub const U: u8 = 16;
}

/// The permission bits that an `mmap` protection word `prot` asks for:
/// always user-accessible, plus R, W and X for bits 0, 1 and 2 of `prot`.
pub open spec fn prot_to_perm(prot: usize) -> u8 {
    (16 + (if prot & 1 != 0 { 2int } else { 0 }) + (if prot & 2 != 0 { 4int } else { 0 }) + (if prot & 4
        != 0 {
        8int
    } else {
        0
    })) as u8
}

/// Builds the mapping permission for an `mmap` protection word.
pub fn permission_from_prot(prot: usize) -> (perm: MapPermission)
    ensures
        perm.bits == prot_to_perm(prot),
{
    let mut bits: u8 = MapPermission::U;
    if prot & 1 != 0 {
        bits = bits + MapPermission::R;
    }
    if prot & 2 != 0 {
        bits = bits + MapPermission::W;
    }
    if prot & 4 != 0 {
        bits = bits + MapPermission::X;
    }
    MapPermission { bits }
}

/// The permission `mmap` records for a protection word `prot` is
/// user-accessible, readable exactly when bit 0 of `prot` is set, writable
/// exactly when bit 1 is set and executable exactly when bit 2 is set, each
/// bit on its own, whatever the other bits of `prot` are.
pub proof fn lemma_prot_bits(prot: usize)
    ensures
        prot_to_perm(prot) & MapPermission::U != 0,
        (prot_to_perm(prot) & MapPermission::R != 0) <==> (prot & 1 != 0),
        (prot_to_perm(prot) & MapPermission::W != 0) <==> (prot & 2 != 0),
        (prot_to_perm(prot) & MapPermission::X != 0) <==> (prot & 4 != 0),
{
    let p: u8 = prot_to_perm(prot);
    let r: bool = prot & 1 != 0;
    let w: bool = prot & 2 != 0;
    let x: bool = prot & 4 != 0;
    assert(p == 16 + (if r { 2int } else { 0 }) + (if w { 4int } else { 0 }) + (if x { 8int } else { 0 }));
    assert({
        &&& p & 16u8 != 0
        &&& (p & 2u8 != 0) == r
        &&& (p & 4u8 != 0) == w
        &&& (p & 8u8 != 0) == x
    }) by (bit_vector)
        requires
            p == 16 + (if r { 2int } else { 0 }) + (if w { 4int } else { 0 }) + (if x { 8int } else { 0 }),
    ;
}

/// For a page-aligned `start`, the page just past the bytes
/// `[start, start + len)` is the page of `start` plus the pages that `len`
/// bytes need.
pub proof fn lemma_aligned_end_page(start: int, len: int)
    requires
        0 <= start,
        0 <= len,
        start % PAGE_SIZE as int == 0,
    ensures
        (start + len + PAGE_SIZE - 1) / PAGE_SIZE as int == start / PAGE_SIZE as int + (len + PAGE_SIZE - 1)
            / PAGE_SIZE as int,
{
    vstd::arithmetic::div_mod::lemma_fundamental_div_mod(start, PAGE_SIZE as int);
    vstd::arithmetic::div_mod::lemma_hoist_over_denominator(len + PAGE_SIZE - 1, start / PAGE_SIZE as int, PAGE_SIZE as nat);
}

/// The first page at or above the start of page `p` is `p`.
pub proof fn lemma_ceil_of_page_start(p: int)
    requires
        0 <= p,
    ensures
        (p * PAGE_SIZE + PAGE_SIZE - 1) / PAGE_SIZE as int == p,
{
    vstd::arithmetic::div_mod::lemma_hoist_over_denominator(PAGE_SIZE - 1, p, PAGE_SIZE as nat);
}

/// A page-table entry: the permission bits of a mapped page.
#[derive(Clone, Copy, Debug, PartialEq, Eq, Structural)]
pub struct PageTableEntry {
    pub bits: u8,
}

impl PageTableEntry {
    /// Whether the entry maps a page.
    pub fn is_valid(&self) -> (valid: bool)
        ensures
            valid == (self.bits & 1 != 0),
    {
        self.bits & 1 != 0
    }
}

/// A run of consecutive mapped pages `[start_vpn, end_vpn)` with one permission.
#[derive(Clone, Copy, Debug, PartialEq, Eq, Structural)]
pub struct MapArea {
    pub start_vpn: usize,
    pub end_vpn: usize,
    pub perm: u8,
}

impl MapArea {
    pub open spec fn contains(self, vpn: int) -> bool {
        self.start_vpn <= vpn < self.end_vpn
    }
}

/// An address space: the areas mapped in it and the token (page-table root)
/// that identifies it.
pub struct MemorySet {
    token: usize,
    areas: Vec<MapArea>,
}

impl View for MemorySet {
    type V = Seq<MapArea>;

    closed spec fn view(&self) -> Seq<MapArea> {
        self.areas@
    }
}

impl MemorySet {
    /// The token of this address space.
    pub closed spec fn token_spec(&self) -> usize {
        self.token
    }

    /// Whether page `vpn` is mapped.
    pub open spec fn mapped(&self, vpn: int) -> bool {
        covered(self@, self@.len() as int, vpn)
    }

    /// An empty address space with the given token.
    pub fn new_bare(token: usize) -> (ms: Self)
        ensures
            ms@ == Seq::<MapArea>::empty(),
            ms.token_spec() == token,
    {
        MemorySet { token, areas: Vec::new() }
    }

    /// An address space with the given token and areas.
    pub fn from_areas(token: usize, areas: Vec<MapArea>) -> (ms: Self)
        ensures
            ms@ == areas@,
            ms.token_spec() == token,
    {
        MemorySet { token, areas }
    }

    /// The token (page-table root) of this address space.
    pub fn token(&self) -> (t: usize)
        ensures
            t == self.token_spec(),
    {
        self.token
    }

    /// A copy of `user_space`: every one of its areas, under the token `token`.
    pub fn from_existed_user(user_space: &MemorySet, token: usize) -> (ms: Self)
        ensures
            ms@ == user_space@,
            ms.token_spec() == token,
    {
        let mut areas: Vec<MapArea> = Vec::new();
        let mut i: usize = 0;
        while i < user_space.areas.len()
            invariant
                0 <= i <= user_space.areas.len(),
                areas@ == user_space.areas@.subrange(0, i as int),
            decreases user_space.areas.len() - i,
        {
            areas.push(user_space.areas[i]);
            i = i + 1;
        }
        MemorySet { token, areas }
    }

    /// The page-table entry of page `vpn`: `Some` with the valid bit and the
    /// area's permission when the page is mapped, `None` otherwise.
    pub fn translate(&self, vpn: VirtPageNum) -> (pte: Option<PageTableEntry>)
        ensures
            pte.is_some() == self.mapped(vpn.0 as int),
            pte.is_some() ==> pte.unwrap().bits & 1 != 0,
            match first_area_containing(self@, vpn.0 as int) {
                Some(i) => pte == Some(PageTableEntry { bits: self@[i].perm | 1 }),
                None => pte.is_none(),
            },
    {
        let mut i: usize = 0;
        while i < self.areas.len()
            invariant
                0 <= i <= self.areas.len(),
                forall|k: int| 0 <= k < i ==> !(#[trigger] self.areas@[k]).contains(vpn.0 as int),
            decreases self.areas.len() - i,
        {
            let area = self.areas[i];
            if area.start_vpn <= vpn.0 && vpn.0 < area.end_vpn {
                assert(self@[i as int].contains(vpn.0 as int));
                proof {
                    lemma_first_area_containing(self@, vpn.0 as int, i as int);
                }
                let p: u8 = area.perm;
                let bits: u8 = p | 1;
                assert(bits & 1 != 0) by (bit_vector)
                    requires
                        bits == p | 1,
                ;
                return Some(PageTableEntry { bits });
            }
            i = i + 1;
        }
        proof {
            assert(self.areas@ == self@);
        }
        None
    }

    /// Maps the pages from `floor(start_va)` up to `ceil(end_va)` as one new area.
    pub fn insert_framed_area(&mut self, start_va: VirtAddr, end_va: VirtAddr, permission: MapPermission)
        ensures
            final(self)@ == old(self)@.push(
                MapArea {
                    start_vpn: floor_spec(start_va.0) as usize,
                    end_vpn: ceil_spec(end_va.0) as usize,
                    perm: permission.bits,
                },
            ),
            final(self).token_spec() == old(self).token_spec(),
    {
        let start_vpn = start_va.floor();
        let end_vpn = end_va.ceil();
        self.areas.push(MapArea { start_vpn: start_vpn.0, end_vpn: end_vpn.0, perm: permission.bits });
    }

    /// Index of the first area that starts at page `vpn`.
    fn find_area_starting_at(&self, vpn: usize) -> (idx: Option<usize>)
        ensures
            match idx {
                Some(i) => i < self@.len() && self@[i as int].start_vpn == vpn && forall|k: int|
                    0 <= k < i ==> (#[trigger] self@[k]).start_vpn != vpn,
                None => forall|k: int| 0 <= k < self@.len() ==> (#[trigger] self@[k]).start_vpn != vpn,
            },
    {
        let mut i: usize = 0;
        while i < self.areas.len()
            invariant
                0 <= i <= self.areas.len(),
                forall|k: int| 0 <= k < i ==> (#[trigger] self.areas@[k]).start_vpn != vpn,
            decreases self.areas.len() - i,
        {
            if self.areas[i].start_vpn == vpn {
                return Some(i);
            }
            i = i + 1;
        }
        None
    }

    /// Removes the first area that starts at page `start_vpn`, if there is one.
    pub fn remove_area_with_start_vpn(&mut self, start_vpn: VirtPageNum)
        ensures
            final(self).token_spec() == old(self).token_spec(),
            match first_area_starting_at(old(self)@, start_vpn.0) {
                Some(i) => final(self)@ == old(self)@.remove(i),
                None => final(self)@ == old(self)@,
            },
    {
        match self.find_area_starting_at(start_vpn.0) {
            Some(i) => {
                self.areas.remove(i);
            },
            None => {},
        }
    }

    /// Moves the end of the area that starts at `floor(start)` to `ceil(new_end)`;
    /// `false` when no area starts there.
    pub fn shrink_to(&mut self, start: VirtAddr, new_end: VirtAddr) -> (found: bool)
        ensures
            final(self).token_spec() == old(self).token_spec(),
            found == first_area_starting_at(old(self)@, floor_spec(start.0) as usize).is_some(),
            match first_area_starting_at(old(self)@, floor_spec(start.0) as usize) {
                Some(i) => final(self)@ == old(self)@.update(
                    i,
                    MapArea { end_vpn: ceil_spec(new_end.0) as usize, ..old(self)@[i] },
                ),
                None => final(self)@ == old(self)@,
            },
    {
        self.set_area_end(start, new_end)
    }

    /// Moves the end of the area that starts at `floor(start)` to `ceil(new_end)`;
    /// `false` when no area starts there.
    pub fn append_to(&mut self, start: VirtAddr, new_end: VirtAddr) -> (found: bool)
        ensures
            final(self).token_spec() == old(self).token_spec(),
            found == first_area_starting_at(old(self)@, floor_spec(start.0) as usize).is_some(),
            match first_area_starting_at(old(self)@, floor_spec(start.0) as usize) {
                Some(i) => final(self)@ == old(self)@.update(
                    i,
                    MapArea { end_vpn: ceil_spec(new_end.0) as usize, ..old(self)@[i] },
                ),
                None => final(self)@ == old(self)@,
            },
    {
        self.set_area_end(start, new_end)
    }

    fn set_area_end(&mut self, start: VirtAddr, new_end: VirtAddr) -> (found: bool)
        ensures
            final(self).token_spec() == old(self).token_spec(),
            found == first_area_starting_at(old(self)@, floor_spec(start.0) as usize).is_some(),
            match first_area_starting_at(old(self)@, floor_spec(start.0) as usize) {
                Some(i) => final(self)@ == old(self)@.update(
                    i,
                    MapArea { end_vpn: ceil_spec(new_end.0) as usize, ..old(self)@[i] },
                ),
                None => final(self)@ == old(self)@,
            },
    {
        let start_vpn = start.floor();
        let end_vpn = new_end.ceil();
        match self.find_area_starting_at(start_vpn.0) {
            Some(i) => {
                proof {
                    lemma_first_area_starting_at(self@, start_vpn.0, i as int);
                }
                let old_area = self.areas[i];
                self.areas.set(i, MapArea { end_vpn: end_vpn.0, ..old_area });
                true
            },
            None => {
                proof {
                    lemma_no_area_starting_at(self@, start_vpn.0);
                }
                false
            },
        }
    }

    /// Unmaps every page from `floor(start_va)` up to `ceil(end_va)`: each
    /// area keeps only its pages outside that range.
    pub fn munmap(&mut self, start_va: VirtAddr, end_va: VirtAddr)
        ensures
            final(self).token_spec() == old(self).token_spec(),
            forall|vpn: int|
                #![trigger final(self).mapped(vpn)]
                final(self).mapped(vpn) <==> (old(self).mapped(vpn) && !(floor_spec(start_va.0) <= vpn
                    < ceil_spec(end_va.0))),
    {
        let s = start_va.floor().0;
        let e = end_va.ceil().0;
        let mut kept: Vec<MapArea> = Vec::new();
        let mut i: usize = 0;
        while i < self.areas.len()
            invariant
                0 <= i <= self.areas.len(),
                s == floor_spec(start_va.0),
                e == ceil_spec(end_va.0),
                forall|vpn: int|
                    #[trigger] covered(kept@, kept@.len() as int, vpn) <==> (covered(self.areas@, i as int, vpn) && !(s
                        <= vpn < e)),
            decreases self.areas.len() - i,
        {
            let area = self.areas[i];
            let ghost before = kept@;
            let left_end = if area.end_vpn < s { area.end_vpn } else { s };
            let right_start = if area.start_vpn > e { area.start_vpn } else { e };
            if area.start_vpn < left_end {
                kept.push(MapArea { end_vpn: left_end, ..area });
            }
            if right_start < area.end_vpn {
                kept.push(MapArea { start_vpn: right_start, ..area });
            }
            proof {
                assert forall|vpn: int|
                    #[trigger] covered(kept@, kept@.len() as int, vpn) <==> (covered(self.areas@, i + 1, vpn) && !(s
                        <= vpn < e)) by {
                    if covered(kept@, kept@.len() as int, vpn) {
                        let k = choose|k: int| 0 <= k < kept.len() && #[trigger] kept@[k].contains(vpn);
                        if k < before.len() {
                            assert(before[k].contains(vpn));
                            assert(covered(before, before.len() as int, vpn));
                            let k2 = choose|k2: int| 0 <= k2 < i && #[trigger] self.areas@[k2].contains(vpn);
                            assert(covered(self.areas@, i + 1, vpn));
                        } else {
                            assert(self.areas@[i as int].contains(vpn));
                            assert(covered(self.areas@, i + 1, vpn));
                        }
                    }
                    if covered(self.areas@, i + 1, vpn) && !(s <= vpn < e) {
                        let k = choose|k: int| 0 <= k < i + 1 && #[trigger] self.areas@[k].contains(vpn);
                        if k < i {
                            assert(covered(self.areas@, i as int, vpn));
                            assert(covered(before, before.len() as int, vpn));
                            let k2 = choose|k2: int| 0 <= k2 < before.len() && #[trigger] before[k2].contains(vpn);
                            assert(kept@[k2].contains(vpn));
                        } else if vpn < s {
                            assert(kept@[before.len() as int].contains(vpn));
                        } else {
                            assert(kept@[kept.len() - 1].contains(vpn));
                        }
                    }
                }
            }
            i = i + 1;
        }
        proof {
            assert(self.areas@ == self@);
        }
        self.areas = kept;
    }
}

/// Whether one of the first `n` areas holds page `vpn`.
pub open spec fn covered(areas: Seq<MapArea>, n: int, vpn: int) -> bool {
    exists|i: int| 0 <= i < n && #[trigger] areas[i].contains(vpn)
}

/// Index of the first area of `areas` that starts at page `vpn`.
pub open spec fn first_area_starting_at(areas: Seq<MapArea>, vpn: usize) -> Option<int> {
    if exists|i: int| 0 <= i < areas.len() && #[trigger] areas[i].start_vpn == vpn {
        Some(
            choose|i: int|
                0 <= i < areas.len() && #[trigger] areas[i].start_vpn == vpn && forall|k: int|
                    0 <= k < i ==> (#[trigger] areas[k]).start_vpn != vpn,
        )
    } else {
        None
    }
}

/// Index of the first area of `areas` that holds page `vpn`.
pub open spec fn first_area_containing(areas: Seq<MapArea>, vpn: int) -> Option<int> {
    if exists|i: int| 0 <= i < areas.len() && #[trigger] areas[i].contains(vpn) {
        Some(
            choose|i: int|
                0 <= i < areas.len() && #[trigger] areas[i].contains(vpn) && forall|k: int|
                    0 <= k < i ==> !(#[trigger] areas[k]).contains(vpn),
        )
    } else {
        None
    }
}

/// The area that holds `vpn`, with no earlier area holding it, is the first one.
pub proof fn lemma_first_area_containing(areas: Seq<MapArea>, vpn: int, i: int)
    requires
        0 <= i < areas.len(),
        areas[i].contains(vpn),
        forall|k: int| 0 <= k < i ==> !(#[trigger] areas[k]).contains(vpn),
    ensures
        first_area_containing(areas, vpn) == Some(i),
{
    let j = choose|j: int|
        0 <= j < areas.len() && #[trigger] areas[j].contains(vpn) && forall|k: int|
            0 <= k < j ==> !(#[trigger] areas[k]).contains(vpn);
    assert(areas[i].contains(vpn));
    if j < i {
        assert(!areas[j].contains(vpn));
    }
    if i < j {
        assert(!areas[i].contains(vpn));
    }
}

/// The area with no earlier area starting at `vpn` is the first one.
pub proof fn lemma_first_area_starting_at(areas: Seq<MapArea>, vpn: usize, i: int)
    requires
        0 <= i < areas.len(),
        areas[i].start_vpn == vpn,
        forall|k: int| 0 <= k < i ==> (#[trigger] areas[k]).start_vpn != vpn,
    ensures
        first_area_starting_at(areas, vpn) == Some(i),
{
    let j = choose|j: int|
        0 <= j < areas.len() && #[trigger] areas[j].start_vpn == vpn && forall|k: int|
            0 <= k < j ==> (#[trigger] areas[k]).start_vpn != vpn;
    assert(areas[i].start_vpn == vpn);
    if j < i {
        assert(areas[j].start_vpn != vpn);
    }
    if i < j {
        assert(areas[i].start_vpn != vpn);
    }
}

/// When no area starts at `vpn`, there is no first one.
pub proof fn lemma_no_area_starting_at(areas: Seq<MapArea>, vpn: usize)
    requires
        forall|k: int| 0 <= k < areas.len() ==> (#[trigger] areas[k]).start_vpn != vpn,
    ensures
        first_area_starting_at(areas, vpn) == None::<int>,
{
}

/// When some area starts at page `vpn`, there is a first one, and
/// `first_area_starting_at` names it.
pub proof fn lemma_first_area_exists(areas: Seq<MapArea>, vpn: usize, j: int)
    requires
        0 <= j < areas.len(),
        areas[j].start_vpn == vpn,
    ensures
        first_area_starting_at(areas, vpn).is_some(),
        ({
            let i = first_area_starting_at(areas, vpn).unwrap();
            &&& 0 <= i < areas.len()
            &&& areas[i].start_vpn == vpn
            &&& forall|k: int| 0 <= k < i ==> (#[trigger] areas[k]).start_vpn != vpn
        }),
    decreases j,
{
    if exists|k: int| 0 <= k < j && #[trigger] areas[k].start_vpn == vpn {
        let k = choose|k: int| 0 <= k < j && #[trigger] areas[k].start_vpn == vpn;
        lemma_first_area_exists(areas, vpn, k);
    } else {
        lemma_first_area_starting_at(areas, vpn, j);
    }
}

} // verus!
