//! Addresses of hexagonal cells: 64-bit keys in a hierarchy in which every
//! cell has seven children at the next finer resolution.
//!
//! From the top bit down a key holds one bit that is zero, four bits of mode
//! (1 for a cell), three spare bits, four bits of resolution, seven bits for
//! one of 122 base cells, and fifteen digits of three bits each. The digit of
//! resolution `r` says which child of its parent the ancestor at `r` is; the
//! digits beyond the cell's own resolution are all 7.
use vstd::prelude::*;
use crate::error::GpwError;

verus! {

/// The finest resolution.
pub const MAX_RESOLUTION: u8 = 15;

/// The number of base cells.
pub const BASE_CELLS: u64 = 122;

/// The resolution of a key, from 0, the coarsest, to 15.
pub open spec fn resolution(raw: u64) -> u64 {
    (raw >> 52) & 0xf
}

/// The base cell of a key: its ancestor at resolution 0.
pub open spec fn base_cell(raw: u64) -> u64 {
    (raw >> 45) & 0x7f
}

/// The mode of a key.
pub open spec fn index_mode(raw: u64) -> u64 {
    (raw >> 59) & 0xf
}

/// The three bits between the mode and the resolution.
pub open spec fn spare_bits(raw: u64) -> u64 {
    (raw >> 56) & 0x7
}

/// How far the digit of resolution `r` stands from the lowest bit.
pub open spec fn digit_shift(r: u64) -> u64 {
    (45 - 3 * r) as u64
}

/// The digit of resolution `r`, for `r` from 1 to 15.
pub open spec fn digit(raw: u64, r: u64) -> u64 {
    (raw >> digit_shift(r)) & 7
}

/// The bits of all digits beyond resolution `r`.
pub open spec fn finer_digits(r: u64) -> u64 {
    ((1u64 << digit_shift(r)) - 1) as u64
}

/// `raw` with its resolution field set to `r`.
pub open spec fn with_resolution(raw: u64, r: u64) -> u64 {
    (raw & !(0xfu64 << 52)) | (r << 52)
}

/// `raw` with its digit of resolution `r` set to `d`.
pub open spec fn with_digit(raw: u64, r: u64, d: u64) -> u64 {
    (raw & !(7u64 << digit_shift(r))) | (d << digit_shift(r))
}

/// What `hextree::Cell::from_raw` takes for a cell: the top bit is zero, the
/// mode is 1 and the base cell is one of the 122.
pub open spec fn is_cell(raw: u64) -> bool {
    raw >> 63 == 0 && index_mode(raw) == 1 && base_cell(raw) < BASE_CELLS
}

/// A key in the form in which every cell has exactly one: it is a cell, its
/// spare bits are zero, each digit up to its resolution names a child
/// (0 to 6), and each digit beyond it is 7.
pub open spec fn well_formed(raw: u64) -> bool {
    &&& is_cell(raw)
    &&& spare_bits(raw) == 0
    &&& raw & finer_digits(resolution(raw)) == finer_digits(resolution(raw))
    &&& forall|i: u64| 1 <= i <= resolution(raw) ==> #[trigger] digit(raw, i) < 7
}

/// The ancestor of `raw` at resolution `r`; `raw` itself where `r` is not
/// coarser than its own resolution.
pub open spec fn parent(raw: u64, r: u64) -> u64 {
    if r >= resolution(raw) {
        raw
    } else {
        with_resolution(raw, r) | finer_digits(r)
    }
}

/// The child of `raw` that digit `d` names, for a cell coarser than the
/// finest resolution.
pub open spec fn child(raw: u64, d: u64) -> u64 {
    with_digit(
        with_resolution(raw, (resolution(raw) + 1) as u64),
        (resolution(raw) + 1) as u64,
        d,
    )
}

/// Whether `a` is `c` or an ancestor of `c`.
pub open spec fn covers(a: u64, c: u64) -> bool {
    resolution(a) <= resolution(c) && parent(c, resolution(a)) == a
}

/// Whether one of the two is the other or an ancestor of it.
pub open spec fn related(a: u64, b: u64) -> bool {
    covers(a, b) || covers(b, a)
}

/// A resolution is at most 15.
pub proof fn lemma_resolution_bound(raw: u64)
    ensures
        resolution(raw) <= 15,
{
    assert((raw >> 52) & 0xf <= 15) by (bit_vector);
}

/// Making an ancestor sets the resolution and the digits beyond it, and
/// leaves the other fields alone.
proof fn lemma_parent_fields(raw: u64, r: u64)
    by (bit_vector)
    requires
        r < (raw >> 52) & 0xf,
    ensures
        resolution(with_resolution(raw, r) | finer_digits(r)) == r,
        base_cell(with_resolution(raw, r) | finer_digits(r)) == base_cell(raw),
        index_mode(with_resolution(raw, r) | finer_digits(r)) == index_mode(raw),
        spare_bits(with_resolution(raw, r) | finer_digits(r)) == spare_bits(raw),
        (with_resolution(raw, r) | finer_digits(r)) >> 63 == raw >> 63,
        (with_resolution(raw, r) | finer_digits(r)) & finer_digits(r) == finer_digits(r),
{
}

/// An ancestor has the digits of its descendant up to its own resolution.
proof fn lemma_parent_digit(raw: u64, r: u64, i: u64)
    by (bit_vector)
    requires
        r < (raw >> 52) & 0xf,
        1 <= i <= r,
    ensures
        digit(with_resolution(raw, r) | finer_digits(r), i) == digit(raw, i),
{
}

/// Making an ancestor of an ancestor is making the coarser one at once.
proof fn lemma_parent_twice(raw: u64, r1: u64, r2: u64)
    by (bit_vector)
    requires
        r2 < r1,
        r1 < (raw >> 52) & 0xf,
    ensures
        with_resolution(with_resolution(raw, r1) | finer_digits(r1), r2) | finer_digits(r2)
            == with_resolution(raw, r2) | finer_digits(r2),
{
}

/// Making a child steps the resolution, sets the digit there, and leaves the
/// other fields alone; making the ancestor one step up undoes it.
proof fn lemma_child_fields(raw: u64, d: u64)
    by (bit_vector)
    requires
        (raw >> 52) & 0xf < 15,
        d < 7,
        raw & finer_digits(resolution(raw)) == finer_digits(resolution(raw)),
    ensures
        resolution(child(raw, d)) == resolution(raw) + 1,
        base_cell(child(raw, d)) == base_cell(raw),
        index_mode(child(raw, d)) == index_mode(raw),
        spare_bits(child(raw, d)) == spare_bits(raw),
        child(raw, d) >> 63 == raw >> 63,
        digit(child(raw, d), (resolution(raw) + 1) as u64) == d,
        child(raw, d) & finer_digits((resolution(raw) + 1) as u64) == finer_digits(
            (resolution(raw) + 1) as u64,
        ),
        with_resolution(child(raw, d), resolution(raw)) | finer_digits(resolution(raw)) == raw,
{
}

/// A child has the digits of its parent up to the parent's resolution.
proof fn lemma_child_digit(raw: u64, d: u64, i: u64)
    by (bit_vector)
    requires
        (raw >> 52) & 0xf < 15,
        d < 7,
        1 <= i <= (raw >> 52) & 0xf,
    ensures
        digit(child(raw, d), i) == digit(raw, i),
{
}

/// One step down towards `raw`, where the step does not reach `raw` yet.
proof fn lemma_step_down_inner(raw: u64, r: u64)
    by (bit_vector)
    requires
        r + 1 < (raw >> 52) & 0xf,
    ensures
        with_resolution(raw, (r + 1) as u64) | finer_digits((r + 1) as u64) == with_digit(
            with_resolution(with_resolution(raw, r) | finer_digits(r), (r + 1) as u64),
            (r + 1) as u64,
            digit(raw, (r + 1) as u64),
        ),
{
}

/// One step down towards `raw`, where the step reaches `raw`.
proof fn lemma_step_down_last(raw: u64, r: u64)
    by (bit_vector)
    requires
        r + 1 == (raw >> 52) & 0xf,
        raw & finer_digits(resolution(raw)) == finer_digits(resolution(raw)),
    ensures
        raw == with_digit(
            with_resolution(with_resolution(raw, r) | finer_digits(r), (r + 1) as u64),
            (r + 1) as u64,
            digit(raw, (r + 1) as u64),
        ),
{
}

/// The ancestor at `r` has resolution `r`.
pub proof fn lemma_parent_resolution(raw: u64, r: u64)
    requires
        r <= resolution(raw),
    ensures
        resolution(parent(raw, r)) == r,
{
    if r < resolution(raw) {
        lemma_parent_fields(raw, r);
    }
}

/// The ancestor at `r` of a well-formed key is well formed, has resolution
/// `r` and covers the key.
pub proof fn lemma_parent(raw: u64, r: u64)
    requires
        well_formed(raw),
        r <= resolution(raw),
    ensures
        well_formed(parent(raw, r)),
        resolution(parent(raw, r)) == r,
        base_cell(parent(raw, r)) == base_cell(raw),
        covers(parent(raw, r), raw),
        forall|i: u64| 1 <= i <= r ==> digit(parent(raw, r), i) == digit(raw, i),
{
    if r < resolution(raw) {
        lemma_parent_fields(raw, r);
        let p = parent(raw, r);
        assert forall|i: u64| 1 <= i <= r implies digit(p, i) == digit(raw, i) by {
            lemma_parent_digit(raw, r, i);
        }
        assert forall|i: u64| 1 <= i <= resolution(p) implies #[trigger] digit(p, i) < 7 by {
            assert(digit(p, i) == digit(raw, i));
        }
    }
}

/// The ancestor at `r2` of the ancestor at `r1` is the ancestor at `r2`.
pub proof fn lemma_parent_of_parent(raw: u64, r1: u64, r2: u64)
    requires
        r2 <= r1 <= resolution(raw),
    ensures
        parent(parent(raw, r1), r2) == parent(raw, r2),
{
    if r1 < resolution(raw) {
        lemma_parent_fields(raw, r1);
        if r2 < r1 {
            lemma_parent_twice(raw, r1, r2);
        }
    }
}

/// A child of a well-formed key is well formed, one step finer, and has the
/// key as its ancestor there; its last digit is the one it was made with.
pub proof fn lemma_child(raw: u64, d: u64)
    requires
        well_formed(raw),
        resolution(raw) < 15,
        d < 7,
    ensures
        well_formed(child(raw, d)),
        resolution(child(raw, d)) == resolution(raw) + 1,
        digit(child(raw, d), (resolution(raw) + 1) as u64) == d,
        parent(child(raw, d), resolution(raw)) == raw,
        covers(raw, child(raw, d)),
{
    lemma_child_fields(raw, d);
    let c = child(raw, d);
    assert forall|i: u64| 1 <= i <= resolution(c) implies #[trigger] digit(c, i) < 7 by {
        if i <= resolution(raw) {
            lemma_child_digit(raw, d, i);
            assert(digit(raw, i) < 7);
        }
    }
}

/// One step down from the ancestor at `r` towards a well-formed key leads,
/// by the key's digit of `r + 1`, to its ancestor at `r + 1`.
pub proof fn lemma_step_down(raw: u64, r: u64)
    requires
        well_formed(raw),
        r < resolution(raw),
    ensures
        digit(raw, (r + 1) as u64) < 7,
        parent(raw, (r + 1) as u64) == child(parent(raw, r), digit(raw, (r + 1) as u64)),
{
    lemma_resolution_bound(raw);
    lemma_parent_fields(raw, r);
    assert(digit(raw, (r + 1) as u64) < 7);
    if r + 1 < resolution(raw) {
        lemma_step_down_inner(raw, r);
    } else {
        lemma_step_down_last(raw, r);
    }
}

/// `covers` is a partial order on well-formed keys: each covers itself, two
/// that cover each other are one, and what covers an ancestor covers the
/// descendant.
pub proof fn lemma_covers_order(a: u64, b: u64, c: u64)
    ensures
        covers(a, a),
        covers(a, b) && covers(b, a) ==> a == b,
        covers(a, b) && covers(b, c) ==> covers(a, c),
{
    if covers(a, b) && covers(b, c) {
        lemma_parent_of_parent(c, resolution(b), resolution(a));
    }
}

/// Two keys that cover one key are related.
pub proof fn lemma_ancestors_related(a: u64, b: u64, c: u64)
    requires
        covers(a, c),
        covers(b, c),
    ensures
        related(a, b),
{
    if resolution(a) <= resolution(b) {
        lemma_parent_of_parent(c, resolution(b), resolution(a));
    } else {
        lemma_parent_of_parent(c, resolution(a), resolution(b));
    }
}

/// What a well-formed key covers, other than itself, is covered by exactly
/// that child of it which the descendant's digit names.
pub proof fn lemma_covered_by_child(p: u64, k: u64)
    requires
        well_formed(p),
        well_formed(k),
        covers(p, k),
        p != k,
    ensures
        resolution(p) < 15,
        digit(k, (resolution(p) + 1) as u64) < 7,
        covers(child(p, digit(k, (resolution(p) + 1) as u64)), k),
{
    lemma_resolution_bound(k);
    lemma_step_down(k, resolution(p));
    lemma_child(p, digit(k, (resolution(p) + 1) as u64));
}

/// The address of a cell: a well-formed key.
#[derive(Clone, Copy, Debug, PartialEq, Eq, Structural, Hash)]
pub struct HexAddress {
    raw: u64,
}

impl View for HexAddress {
    type V = u64;

    closed spec fn view(&self) -> u64 {
        self.raw
    }
}

#[verifier::external_type_specification]
#[verifier::external_body]
pub struct ExHexTreeError(hextree::Error);

/// `hextree::Cell::from_raw`, with the cell given back as its key. It takes
/// the keys whose top bit is zero and whose mode is 1, and a cell's key is
/// the key it was made from. Base cells from 122 on are kept away from it:
/// built with debug assertions it does not return on them.
#[verifier::external_body]
fn cell_from_raw(raw: u64) -> (r: Result<u64, hextree::Error>)
    requires
        base_cell(raw) < BASE_CELLS,
    ensures
        r is Ok <==> is_cell(raw),
        r matches Ok(key) ==> key == raw,
{
    hextree::Cell::from_raw(raw).map(|cell| cell.into_raw())
}

/// The mask of the digits beyond resolution `r`.
fn finer_digits_mask(r: u8) -> (m: u64)
    requires
        r <= 15,
    ensures
        m == finer_digits(r as u64),
{
    let shift: u64 = 45 - 3 * (r as u64);
    assert(1u64 << shift >= 1) by (bit_vector)
        requires
            shift <= 45,
    ;
    (1u64 << shift) - 1
}

/// Whether the spare bits and the digits of a cell's key are in form.
fn in_form(raw: u64) -> (ok: bool)
    requires
        is_cell(raw),
    ensures
        ok == well_formed(raw),
{
    if (raw >> 56) & 0x7 != 0 {
        return false;
    }
    let res: u8 = ((raw >> 52) & 0xf) as u8;
    proof {
        lemma_resolution_bound(raw);
    }
    let mask = finer_digits_mask(res);
    if raw & mask != mask {
        return false;
    }
    let mut i: u8 = 1;
    while i <= res
        invariant
            1 <= i <= res + 1,
            res == resolution(raw),
            res <= 15,
            forall|j: u64| 1 <= j < i ==> #[trigger] digit(raw, j) < 7,
        decreases res + 1 - i,
    {
        let shift: u64 = 45 - 3 * (i as u64);
        if (raw >> shift) & 7 == 7 {
            assert(digit(raw, i as u64) == 7);
            return false;
        }
        assert(digit(raw, i as u64) < 7) by {
            let x = raw >> shift;
            assert(x & 7 <= 7) by (bit_vector);
        }
        i += 1;
    }
    true
}

impl HexAddress {
    /// Every address holds the well-formed key of a cell.
    #[verifier::type_invariant]
    pub open spec fn wf(&self) -> bool {
        well_formed(self@)
    }

    /// The address with the key `raw`, if `raw` is the well-formed key of a
    /// cell.
    pub fn from_raw(raw: u64) -> (r: Result<HexAddress, GpwError>)
        ensures
            match r {
                Ok(a) => well_formed(raw) && a@ == raw,
                Err(e) => !well_formed(raw) && e == GpwError::InvalidAddress(raw),
            },
    {
        if (raw >> 45) & 0x7f >= BASE_CELLS {
            return Err(GpwError::InvalidAddress(raw));
        }
        match cell_from_raw(raw) {
            Err(_) => Err(GpwError::InvalidAddress(raw)),
            Ok(key) => {
                if in_form(key) {
                    Ok(HexAddress { raw: key })
                } else {
                    Err(GpwError::InvalidAddress(raw))
                }
            },
        }
    }

    /// The address with the well-formed key `raw`.
    pub(crate) fn from_key(raw: u64) -> (a: HexAddress)
        requires
            well_formed(raw),
        ensures
            a@ == raw,
    {
        HexAddress { raw }
    }

    /// The key of the cell.
    pub fn raw(&self) -> (raw: u64)
        ensures
            raw == self@,
            well_formed(raw),
    {
        proof {
            use_type_invariant(self);
        }
        self.raw
    }

    /// The resolution of the cell.
    pub fn resolution(&self) -> (r: u8)
        ensures
            r == resolution(self@),
            r <= MAX_RESOLUTION,
    {
        proof {
            lemma_resolution_bound(self.raw);
        }
        ((self.raw >> 52) & 0xf) as u8
    }

    /// The ancestor at resolution `r`, or `None` where `r` is finer than the
    /// cell's own resolution.
    pub fn parent(&self, r: u8) -> (p: Option<HexAddress>)
        ensures
            match p {
                Some(a) => r <= resolution(self@) && a@ == parent(self@, r as u64),
                None => r > resolution(self@),
            },
    {
        proof {
            use_type_invariant(self);
        }
        let own = self.resolution();
        if r > own {
            None
        } else if r == own {
            Some(*self)
        } else {
            proof {
                lemma_parent(self.raw, r as u64);
            }
            let mask = finer_digits_mask(r);
            Some(HexAddress { raw: (self.raw & !(0xfu64 << 52)) | ((r as u64) << 52) | mask })
        }
    }

    /// The child that digit `d` names, or `None` where the cell is at the
    /// finest resolution or `d` is above 6.
    pub fn child(&self, d: u8) -> (c: Option<HexAddress>)
        ensures
            match c {
                Some(a) => resolution(self@) < 15 && d < 7 && a@ == child(self@, d as u64),
                None => !(resolution(self@) < 15 && d < 7),
            },
    {
        proof {
            use_type_invariant(self);
        }
        let own = self.resolution();
        if own >= 15 || d >= 7 {
            None
        } else {
            proof {
                lemma_child(self.raw, d as u64);
            }
            let r: u64 = own as u64 + 1;
            let shift: u64 = 45 - 3 * r;
            let stepped: u64 = (self.raw & !(0xfu64 << 52)) | (r << 52);
            Some(HexAddress { raw: (stepped & !(7u64 << shift)) | ((d as u64) << shift) })
        }
    }
}

} // verus!
