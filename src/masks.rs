//! Transition masks: which of a tile's four edges and four corners border a
//! different kind of terrain.

use vstd::prelude::*;

verus! {

pub const EDGE_N: u8 = 1;
pub const EDGE_E: u8 = 2;
pub const EDGE_S: u8 = 4;
pub const EDGE_W: u8 = 8;
pub const CORNER_NE: u8 = 16;
pub const CORNER_SE: u8 = 32;
pub const CORNER_SW: u8 = 64;
pub const CORNER_NW: u8 = 128;

pub const EDGE_MASK: u8 = 15;
pub const CORNER_MASK: u8 = 240;

/// Whether `mask` has any of the bits of `bits`.
pub open spec fn has(mask: u8, bits: u8) -> bool {
    mask & bits != 0
}

/// A mask with every corner set that touches a set edge: a corner is part of
/// the transition as soon as either edge beside it is.
pub open spec fn filled(m: u8) -> u8 {
    m | (if has(m, 3) { 16u8 } else { 0u8 }) | (if has(m, 6) { 32u8 } else { 0u8 }) | (if has(
        m,
        12,
    ) {
        64u8
    } else {
        0u8
    }) | (if has(m, 9) { 128u8 } else { 0u8 })
}

/// Sets every corner whose neighbouring edge is set.
pub fn normalize_mask(mask: u8) -> (r: u8)
    ensures
        r == filled(mask),
{
    let m0: u8 = !mask;
    let m1: u8 = if (m0 & (EDGE_N | EDGE_E)) != (EDGE_N | EDGE_E) {
        m0 & !CORNER_NE
    } else {
        m0
    };
    let m2: u8 = if (m1 & (EDGE_S | EDGE_E)) != (EDGE_S | EDGE_E) {
        m1 & !CORNER_SE
    } else {
        m1
    };
    let m3: u8 = if (m2 & (EDGE_S | EDGE_W)) != (EDGE_S | EDGE_W) {
        m2 & !CORNER_SW
    } else {
        m2
    };
    let m4: u8 = if (m3 & (EDGE_N | EDGE_W)) != (EDGE_N | EDGE_W) {
        m3 & !CORNER_NW
    } else {
        m3
    };
    assert(!m4 == mask | (if mask & 3 != 0 { 16u8 } else { 0u8 }) | (if mask & 6 != 0 {
        32u8
    } else {
        0u8
    }) | (if mask & 12 != 0 { 64u8 } else { 0u8 }) | (if mask & 9 != 0 { 128u8 } else { 0u8 }))
        by (bit_vector)
        requires
            m0 == !mask,
            m1 == (if (m0 & (1u8 | 2u8)) != (1u8 | 2u8) { m0 & !16u8 } else { m0 }),
            m2 == (if (m1 & (4u8 | 2u8)) != (4u8 | 2u8) { m1 & !32u8 } else { m1 }),
            m3 == (if (m2 & (4u8 | 8u8)) != (4u8 | 8u8) { m2 & !64u8 } else { m2 }),
            m4 == (if (m3 & (1u8 | 8u8)) != (1u8 | 8u8) { m3 & !128u8 } else { m3 }),
    ;
    !m4
}

/// A corner of `m` is dropped when both edges beside it are set: the edges
/// then already cover it.
pub open spec fn trimmed(m: u8) -> u8 {
    m & !(if m & 3 == 3 { 16u8 } else { 0u8 }) & !(if m & 6 == 6 { 32u8 } else { 0u8 }) & !(if m
        & 12 == 12 {
        64u8
    } else {
        0u8
    }) & !(if m & 9 == 9 { 128u8 } else { 0u8 })
}

/// A mask that normalization leaves as it is, and that marks something.
pub open spec fn is_transition_mask(v: u8) -> bool {
    v != 0 && filled(v) == v
}

pub open spec fn is_mask_47(v: u8) -> bool {
    v != 0 && trimmed(v) == v
}

/// How many transition masks lie in `1..n`: the position of mask `n` in the
/// ascending list of them.
pub open spec fn masks_below(n: int) -> nat
    decreases n,
{
    if n <= 1 {
        0
    } else {
        masks_below(n - 1) + (if is_transition_mask((n - 1) as u8) { 1nat } else { 0nat })
    }
}

pub open spec fn masks_47_below(n: int) -> nat
    decreases n,
{
    if n <= 1 {
        0
    } else {
        masks_47_below(n - 1) + (if is_mask_47((n - 1) as u8) { 1nat } else { 0nat })
    }
}

/// Normalizing twice changes nothing, so the masks that some mask normalizes
/// to are exactly those that normalization leaves as they are.
pub proof fn lemma_normalize_idempotent(m: u8)
    ensures
        filled(filled(m)) == filled(m),
        trimmed(trimmed(m)) == trimmed(m),
{
    assert(filled(filled(m)) == filled(m)) by (bit_vector);
    assert(trimmed(trimmed(m)) == trimmed(m)) by (bit_vector);
}

/// Clears every corner whose two neighbouring edges are both set.
pub fn normalize_47(mask: u8) -> (r: u8)
    ensures
        r == trimmed(mask),
{
    let n1: u8 = if (mask & EDGE_N != 0) && (mask & EDGE_E != 0) {
        mask & !CORNER_NE
    } else {
        mask
    };
    let n2: u8 = if (mask & EDGE_S != 0) && (mask & EDGE_E != 0) {
        n1 & !CORNER_SE
    } else {
        n1
    };
    let n3: u8 = if (mask & EDGE_S != 0) && (mask & EDGE_W != 0) {
        n2 & !CORNER_SW
    } else {
        n2
    };
    let normalized: u8 = if (mask & EDGE_N != 0) && (mask & EDGE_W != 0) {
        n3 & !CORNER_NW
    } else {
        n3
    };
    assert(normalized == trimmed(mask)) by (bit_vector)
        requires
            n1 == (if (mask & 1u8 != 0) && (mask & 2u8 != 0) { mask & !16u8 } else { mask }),
            n2 == (if (mask & 4u8 != 0) && (mask & 2u8 != 0) { n1 & !32u8 } else { n1 }),
            n3 == (if (mask & 4u8 != 0) && (mask & 8u8 != 0) { n2 & !64u8 } else { n2 }),
            normalized == (if (mask & 1u8 != 0) && (mask & 8u8 != 0) {
                n3 & !128u8
            } else {
                n3
            }),
    ;
    normalized
}

/// Every distinct non-empty mask that `normalize_mask` can return, ascending.
pub fn all_transition_masks() -> (r: Vec<u8>)
    ensures
        r@.len() == masks_below(256),
        forall|i: int|
            0 <= i < r@.len() ==> is_transition_mask(#[trigger] r@[i]) && masks_below(r@[i] as int)
                == i,
        forall|v: u8| #[trigger] is_transition_mask(v) ==> masks_below(v as int) < r@.len() && r@[masks_below(v as int) as int] == v,
{
    let mut masks: Vec<u8> = Vec::new();
    let mut raw: u16 = 1;
    while raw <= 255
        invariant
            1 <= raw <= 256,
            masks@.len() == masks_below(raw as int),
            forall|i: int|
                0 <= i < masks@.len() ==> is_transition_mask(#[trigger] masks@[i])
                    && masks_below(masks@[i] as int) == i && masks@[i] < raw,
            forall|v: u8|
                #[trigger] is_transition_mask(v) && v < raw ==> masks_below(v as int)
                    < masks@.len() && masks@[masks_below(v as int) as int] == v,
        decreases 256 - raw,
    {
        let v = raw as u8;
        if normalize_mask(v) == v && v != 0 {
            masks.push(v);
        }
        assert(masks_below(raw + 1) == masks_below(raw as int) + (if is_transition_mask(
            v,
        ) {
            1nat
        } else {
            0nat
        }));
        raw = raw + 1;
    }
    masks
}

/// Every distinct non-empty mask that `normalize_47` can return, ascending.
pub fn all_47_masks() -> (r: Vec<u8>)
    ensures
        r@.len() == masks_47_below(256),
        forall|i: int|
            0 <= i < r@.len() ==> is_mask_47(#[trigger] r@[i]) && masks_47_below(r@[i] as int)
                == i,
        forall|v: u8| #[trigger] is_mask_47(v) ==> masks_47_below(v as int) < r@.len() && r@[masks_47_below(v as int) as int] == v,
{
    let mut masks: Vec<u8> = Vec::new();
    let mut raw: u16 = 1;
    while raw <= 255
        invariant
            1 <= raw <= 256,
            masks@.len() == masks_47_below(raw as int),
            forall|i: int|
                0 <= i < masks@.len() ==> is_mask_47(#[trigger] masks@[i])
                    && masks_47_below(masks@[i] as int) == i && masks@[i] < raw,
            forall|v: u8|
                #[trigger] is_mask_47(v) && v < raw ==> masks_47_below(v as int)
                    < masks@.len() && masks@[masks_47_below(v as int) as int] == v,
        decreases 256 - raw,
    {
        let v = raw as u8;
        if normalize_47(v) == v && v != 0 {
            masks.push(v);
        }
        assert(masks_47_below(raw + 1) == masks_47_below(raw as int) + (if is_mask_47(v) {
            1nat
        } else {
            0nat
        }));
        raw = raw + 1;
    }
    masks
}

/// The position of the normalized `mask` among `all_transition_masks()`;
/// `None` for a mask that normalizes to nothing.
pub fn mask_index(mask: u8) -> (r: Option<usize>)
    ensures
        filled(mask) == 0 ==> r is None,
        filled(mask) != 0 ==> r is Some && r->0 == masks_below(filled(mask) as int),
{
    let normalized = normalize_mask(mask);
    let masks = all_transition_masks();
    proof {
        lemma_normalize_idempotent(mask);
    }
    let mut i: usize = 0;
    while i < masks.len()
        invariant
            0 <= i <= masks@.len(),
            forall|j: int| 0 <= j < i ==> masks@[j] != normalized,
            normalized == filled(mask),
            masks@.len() == masks_below(256),
            forall|j: int|
                0 <= j < masks@.len() ==> is_transition_mask(#[trigger] masks@[j])
                    && masks_below(masks@[j] as int) == j,
            forall|v: u8| #[trigger] is_transition_mask(v) ==> masks_below(v as int) < masks@.len() && masks@[masks_below(v as int) as int] == v,
        decreases masks@.len() - i,
    {
        if masks[i] == normalized {
            assert(is_transition_mask(masks@[i as int]));
            return Some(i);
        }
        i = i + 1;
    }
    if normalized != 0 {
        assert(is_transition_mask(normalized));
        assert(masks@[masks_below(normalized as int) as int] == normalized);
    }
    None
}

/// The position of the normalized `mask` among `all_47_masks()`; `None` for
/// a mask that normalizes to nothing.
pub fn mask_index_47(mask: u8) -> (r: Option<usize>)
    ensures
        trimmed(mask) == 0 ==> r is None,
        trimmed(mask) != 0 ==> r is Some && r->0 == masks_47_below(trimmed(mask) as int),
{
    let normalized = normalize_47(mask);
    let masks = all_47_masks();
    proof {
        lemma_normalize_idempotent(mask);
    }
    let mut i: usize = 0;
    while i < masks.len()
        invariant
            0 <= i <= masks@.len(),
            forall|j: int| 0 <= j < i ==> masks@[j] != normalized,
            normalized == trimmed(mask),
            masks@.len() == masks_47_below(256),
            forall|j: int|
                0 <= j < masks@.len() ==> is_mask_47(#[trigger] masks@[j])
                    && masks_47_below(masks@[j] as int) == j,
            forall|v: u8| #[trigger] is_mask_47(v) ==> masks_47_below(v as int) < masks@.len() && masks@[masks_47_below(v as int) as int] == v,
        decreases masks@.len() - i,
    {
        if masks[i] == normalized {
            assert(is_mask_47(masks@[i as int]));
            return Some(i);
        }
        i = i + 1;
    }
    if normalized != 0 {
        assert(is_mask_47(normalized));
        assert(masks@[masks_47_below(normalized as int) as int] == normalized);
    }
    None
}

/// The edge bits of `mask`.
pub fn mask_edges(mask: u8) -> (r: u8)
    ensures
        r == mask & 15,
{
    mask & EDGE_MASK
}

/// The corner bits of `mask`.
pub fn mask_corners(mask: u8) -> (r: u8)
    ensures
        r == mask & 240,
{
    mask & CORNER_MASK
}

} // verus!
