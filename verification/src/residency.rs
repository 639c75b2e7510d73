//! Residency under a hard address ceiling: how much of the address space is left
//! for resident weights once the host and the carried key/value caches are
//! charged.

use vstd::prelude::*;

verus! {

/// The address ceiling of a 32-bit linear memory.
pub const STRUCTURAL_CEILING: u64 = 4294967296;

/// What the host needs beside the resident weights.
pub const HOST_HEADROOM: u64 = 1073741824;

/// What is left of a number once another is taken from it, or nothing.
pub open spec fn less(a: nat, b: nat) -> nat {
    if a > b {
        (a - b) as nat
    } else {
        0
    }
}

/// A number, or the greatest of 64 bits where it is greater.
pub open spec fn capped(n: nat) -> nat {
    if n > u64::MAX {
        u64::MAX as nat
    } else {
        n
    }
}

fn capped_product(a: u64, b: u64) -> (r: u64)
    ensures
        r == capped((a * b) as nat),
{
    match a.checked_mul(b) {
        Some(n) => n,
        None => u64::MAX,
    }
}

/// The budget for resident weights beside carried caches of a size.
pub open spec fn budget_beside(carried: nat) -> nat {
    less((STRUCTURAL_CEILING - HOST_HEADROOM) as nat, carried)
}

/// The budget for resident weights: the ceiling, less what the host and the
/// carried caches need.
pub fn decode_residency_budget(carried_kv_bytes: u64) -> (r: u64)
    ensures
        r == budget_beside(carried_kv_bytes as nat),
{
    STRUCTURAL_CEILING.saturating_sub(HOST_HEADROOM).saturating_sub(carried_kv_bytes)
}

/// The carried caches of a decode pair, which share one address space.
#[derive(Debug, Clone, Copy, PartialEq, Eq, Structural)]
pub struct KvCharge {
    pub target: u64,
    pub draft: u64,
}

impl KvCharge {
    /// What the pair carries.
    pub open spec fn carried(self) -> nat {
        capped((self.target + self.draft) as nat)
    }

    /// The charge with the target's caches at a bucket.
    pub open spec fn with_target(self, kv_row: u64, bucket: u64) -> KvCharge {
        KvCharge { target: capped((kv_row * bucket) as nat) as u64, draft: self.draft }
    }

    /// The charge with the draft's caches at a bucket.
    pub open spec fn with_draft(self, kv_row: u64, bucket: u64) -> KvCharge {
        KvCharge { target: self.target, draft: capped((kv_row * bucket) as nat) as u64 }
    }

    /// Nothing is carried yet.
    pub fn new() -> (r: KvCharge)
        ensures
            r.target == 0,
            r.draft == 0,
    {
        KvCharge { target: 0, draft: 0 }
    }

    /// What the pair carries.
    pub fn kv_total(&self) -> (r: u64)
        ensures
            r == self.carried(),
    {
        self.target.saturating_add(self.draft)
    }

    /// Charge the target's caches, at a build or a regrow; the budget that is left
    /// for every session in the address space.
    pub fn charge_target(&mut self, kv_row: u64, bucket: u64) -> (budget: u64)
        ensures
            *final(self) == old(self).with_target(kv_row, bucket),
            budget == budget_beside(final(self).carried()),
    {
        self.target = capped_product(kv_row, bucket);
        decode_residency_budget(self.kv_total())
    }

    /// Charge the draft's caches, at a build or a regrow; the budget that is left
    /// for every session in the address space.
    pub fn charge_draft(&mut self, kv_row: u64, bucket: u64) -> (budget: u64)
        ensures
            *final(self) == old(self).with_draft(kv_row, bucket),
            budget == budget_beside(final(self).carried()),
    {
        self.draft = capped_product(kv_row, bucket);
        decode_residency_budget(self.kv_total())
    }
}

impl Default for KvCharge {
    fn default() -> (r: KvCharge)
        ensures
            r.target == 0,
            r.draft == 0,
    {
        KvCharge::new()
    }
}

/// The shape of a decode pipeline.
#[derive(Debug, Clone, Copy, PartialEq, Eq, Structural)]
pub struct DecodeGeometry {
    pub layers: usize,
    pub kv_heads: usize,
    pub heads: usize,
    pub head_dim: usize,
    pub bucket: usize,
    pub chunk: usize,
    pub vocab: usize,
    pub resident_kv: bool,
}

impl DecodeGeometry {
    /// The bytes one position carries: a key and a value of every head dimension
    /// of every cache head of every layer, each a four-byte float.
    pub open spec fn row_bytes(self) -> nat {
        2 * (self.layers as nat) * (self.kv_heads as nat) * (self.head_dim as nat) * 4
    }

    /// The bytes one position carries; nothing where they do not fit 64 bits.
    pub fn carried_kv_bytes_per_row(&self) -> (r: Option<u64>)
        ensures
            r == (if self.row_bytes() <= u64::MAX {
                Some(self.row_bytes() as u64)
            } else {
                None
            }),
    {
        let l: u128 = self.layers as u128;
        let h: u128 = self.kv_heads as u128;
        let d: u128 = self.head_dim as u128;
        proof {
            assert(2 * l * h * d * 4 == (l * h) * (8 * d)) by (nonlinear_arith);
        }
        if l == 0 || h == 0 || d == 0 {
            proof {
                assert(2 * l * h * d * 4 == 0) by (nonlinear_arith)
                    requires
                        l == 0 || h == 0 || d == 0,
                ;
            }
            return Some(0);
        }
        proof {
            assert(l * h <= 0xffff_ffff_ffff_ffff * 0xffff_ffff_ffff_ffff) by (nonlinear_arith)
                requires
                    l <= 0xffff_ffff_ffff_ffff,
                    h <= 0xffff_ffff_ffff_ffff,
            ;
        }
        let planes: u128 = l * h;
        if planes > 0xffff_ffff_ffff_ffff {
            proof {
                assert(planes * (8 * d) >= planes) by (nonlinear_arith)
                    requires
                        d >= 1,
                ;
            }
            return None;
        }
        proof {
            assert(planes * (8 * d) <= 0xffff_ffff_ffff_ffff * (8 * 0xffff_ffff_ffff_ffff))
                by (nonlinear_arith)
                requires
                    planes <= 0xffff_ffff_ffff_ffff,
                    d <= 0xffff_ffff_ffff_ffff,
            ;
        }
        match planes.checked_mul(8 * d) {
            Some(total) => if total <= 0xffff_ffff_ffff_ffff {
                Some(total as u64)
            } else {
                None
            },
            None => None,
        }
    }

    /// The bytes carried at the bucket; nothing where they do not fit 64 bits.
    pub fn carried_kv_bytes(&self) -> (r: Option<u64>)
        ensures
            r == (if self.row_bytes() <= u64::MAX && self.row_bytes() * self.bucket <= u64::MAX {
                Some((self.row_bytes() * self.bucket) as u64)
            } else {
                None
            }),
    {
        match self.carried_kv_bytes_per_row() {
            Some(row) => row.checked_mul(self.bucket as u64),
            None => None,
        }
    }
}

/// The more is carried, the less is left for resident weights.
pub proof fn law_the_budget_shrinks(less_carried: nat, more_carried: nat)
    requires
        less_carried <= more_carried,
    ensures
        budget_beside(more_carried) <= budget_beside(less_carried),
        more_carried <= STRUCTURAL_CEILING - HOST_HEADROOM && less_carried < more_carried
            ==> budget_beside(more_carried) < budget_beside(less_carried),
{
}

/// The resident weights, the carried caches and the host fit under the ceiling
/// together, wherever the caches and the host do.
pub proof fn law_the_budget_never_overcommits(carried: nat)
    requires
        carried + HOST_HEADROOM <= STRUCTURAL_CEILING,
    ensures
        budget_beside(carried) + carried + HOST_HEADROOM == STRUCTURAL_CEILING,
{
}

/// Where the caches alone take what the ceiling leaves, no weight stays resident.
pub proof fn law_the_budget_saturates(carried: nat)
    requires
        carried + HOST_HEADROOM >= STRUCTURAL_CEILING,
    ensures
        budget_beside(carried) == 0,
{
}

/// Charging one of a pair leaves the other's charge alone.
pub proof fn law_charges_are_independent(c: KvCharge, row: u64, bucket: u64, row2: u64, bucket2: u64)
    ensures
        c.with_target(row, bucket).with_draft(row2, bucket2) == c.with_draft(
            row2,
            bucket2,
        ).with_target(row, bucket),
        c.with_target(row, bucket).draft == c.draft,
        c.with_draft(row, bucket).target == c.target,
{
}

/// A charge is the bytes of its rows, as far as 64 bits hold them, and what a pair
/// carries is both charges together, as far as 64 bits hold them.
pub proof fn law_a_charge_is_its_rows(c: KvCharge, row: u64, bucket: u64)
    ensures
        row * bucket <= u64::MAX ==> c.with_target(row, bucket).target == row * bucket
            && c.with_draft(row, bucket).draft == row * bucket,
        row * bucket > u64::MAX ==> c.with_target(row, bucket).target == u64::MAX && c.with_draft(
            row,
            bucket,
        ).draft == u64::MAX,
        c.target + c.draft <= u64::MAX ==> c.carried() == c.target + c.draft,
        c.target + c.draft > u64::MAX ==> c.carried() == u64::MAX,
{
    assert(0 <= row * bucket) by (nonlinear_arith)
        requires
            row >= 0,
            bucket >= 0,
    ;
}

/// A row is a key and a value of four bytes for every dimension of every cache head of
/// every layer: one layer, one head or one dimension more adds its share, and the query
/// heads, the bucket and the vocabulary have none.
pub proof fn law_a_row_is_its_keys_and_values(g: DecodeGeometry, other: DecodeGeometry)
    ensures
        g.row_bytes() == 8 * (g.layers * g.kv_heads * g.head_dim),
        g.layers == 1 && g.kv_heads == 1 && g.head_dim == 1 ==> g.row_bytes() == 8,
        other.layers == g.layers + 1 && other.kv_heads == g.kv_heads && other.head_dim
            == g.head_dim ==> other.row_bytes() == g.row_bytes() + 8 * (g.kv_heads * g.head_dim),
        other.layers == g.layers && other.kv_heads == g.kv_heads && other.head_dim == g.head_dim
            ==> other.row_bytes() == g.row_bytes(),
{
    let l = g.layers as int;
    let h = g.kv_heads as int;
    let d = g.head_dim as int;
    assert(2 * l * h * d * 4 == 8 * (l * h * d)) by (nonlinear_arith);
    assert(2 * (l + 1) * h * d * 4 == 2 * l * h * d * 4 + 8 * (h * d)) by (nonlinear_arith);
}

} // verus!
