//! Placed structures: their type-driven behaviour table, health, power flag
//! and remaining resource amount.
//!
//! Positions and radii are fixed-point world coordinates in tenths of a
//! world unit; health is kept in thousandths of a hit point.

use vstd::prelude::*;

verus! {

/// Positions are bounded so that squared distances never overflow `i64`.
pub const POS_LIMIT: i64 = 1_000_000_000;

/// The four structure types.
#[derive(Debug, Copy, Clone, PartialEq, Eq, Structural)]
pub enum StructureType {
    Water,
    Ore,
    Pump,
    Irrigation,
}

/// The radius inside which ambient blight damages a structure of this type,
/// in tenths of a world unit; `None` for types immune to blight.
pub open spec fn damage_radius_of(ty: StructureType) -> Option<u32> {
    match ty {
        StructureType::Water => None,
        StructureType::Ore => None,
        StructureType::Pump => Some(10u32),
        StructureType::Irrigation => Some(15u32),
    }
}

/// The radius inside which a powered structure of this type cleans blight,
/// in tenths of a world unit; `None` for types that do not clean.
pub open spec fn clean_radius_of(ty: StructureType) -> Option<u32> {
    match ty {
        StructureType::Water => Some(15u32),
        StructureType::Ore => None,
        StructureType::Pump => None,
        StructureType::Irrigation => Some(50u32),
    }
}

/// Whether the power flag of this type may ever change: only consumers can
/// be switched.
pub open spec fn can_be_powered_of(ty: StructureType) -> bool {
    match ty {
        StructureType::Water => false,
        StructureType::Ore => false,
        StructureType::Pump => true,
        StructureType::Irrigation => true,
    }
}

/// The power flag a freshly placed structure starts with.
pub open spec fn initially_powered_of(ty: StructureType) -> bool {
    match ty {
        StructureType::Water => true,
        StructureType::Ore => false,
        StructureType::Pump => false,
        StructureType::Irrigation => false,
    }
}

/// The resource amount a freshly placed structure starts with: present
/// exactly for the two resource types.
pub open spec fn initial_amount_of(ty: StructureType) -> Option<i32> {
    match ty {
        StructureType::Water => Some(50i32),
        StructureType::Ore => Some(50i32),
        StructureType::Pump => None,
        StructureType::Irrigation => None,
    }
}

/// A placed structure.
#[derive(Debug, Copy, Clone)]
pub struct Structure {
    pub ty: StructureType,
    pub pos_x: i64,
    pub pos_y: i64,
    pub id: i64,
    /// Health in thousandths of a hit point; `0` means destroyed.
    pub health: i64,
    pub powered: bool,
    /// Remaining resource amount, present exactly for Water and Ore.
    pub amount: Option<i32>,
}

impl Structure {
    /// A resource amount is carried exactly by the resource types, never
    /// negative; the position is bounded; health never negative.
    pub open spec fn wf(self) -> bool {
        &&& (self.amount is Some) <==> (initial_amount_of(self.ty) is Some)
        &&& (self.amount matches Some(a) ==> a >= 0)
        &&& -POS_LIMIT <= self.pos_x <= POS_LIMIT
        &&& -POS_LIMIT <= self.pos_y <= POS_LIMIT
        &&& self.health >= 0
    }

    /// The remaining resource amount of a resource structure.
    pub open spec fn amount_spec(self) -> int {
        self.amount->0 as int
    }

    /// This structure after taking `damage` thousandths of health, clamped
    /// at zero.
    pub open spec fn damaged(self, damage: u32) -> Structure {
        Structure {
            health: if self.health >= damage {
                (self.health - damage) as i64
            } else {
                0
            },
            ..self
        }
    }

    /// This structure after mining `amount` from its resource, clamped at
    /// zero.
    pub open spec fn mined(self, amount: i32) -> Structure {
        Structure {
            amount: if amount <= self.amount_spec() {
                Some((self.amount_spec() - amount) as i32)
            } else {
                Some(0i32)
            },
            ..self
        }
    }

    /// What mining `amount` reports: the new remainder when the full amount
    /// fits, otherwise what was actually taken.
    pub open spec fn mine_result(self, amount: i32) -> int {
        if amount <= self.amount_spec() {
            self.amount_spec() - amount
        } else {
            self.amount_spec()
        }
    }

    /// This structure with its power flag set to `powered`.
    pub open spec fn with_powered(self, powered: bool) -> Structure {
        Structure { powered, ..self }
    }

    /// A new structure with the type-determined default power flag and
    /// resource amount.
    pub fn new(ty: StructureType, pos_x: i64, pos_y: i64, id: i64, health: i64) -> (s: Structure)
        requires
            health > 0,
            -POS_LIMIT <= pos_x <= POS_LIMIT,
            -POS_LIMIT <= pos_y <= POS_LIMIT,
        ensures
            s.wf(),
            s.ty == ty,
            s.pos_x == pos_x,
            s.pos_y == pos_y,
            s.id == id,
            s.health == health,
            s.powered == initially_powered_of(ty),
            s.amount == initial_amount_of(ty),
    {
        let powered = match ty {
            StructureType::Water => true,
            StructureType::Ore => false,
            StructureType::Pump => false,
            StructureType::Irrigation => false,
        };
        let amount = match ty {
            StructureType::Water => Some(50),
            StructureType::Ore => Some(50),
            StructureType::Pump => None,
            StructureType::Irrigation => None,
        };
        Structure { ty, pos_x, pos_y, id, health, powered, amount }
    }

    /// The radius inside which blight damages this structure, if any.
    pub fn damage_radius(&self) -> (r: Option<u32>)
        ensures
            r == damage_radius_of(self.ty),
    {
        match self.ty {
            StructureType::Water => None,
            StructureType::Ore => None,
            StructureType::Pump => Some(10),
            StructureType::Irrigation => Some(15),
        }
    }

    /// The radius inside which this structure cleans blight when powered, if
    /// any.
    pub fn clean_radius(&self) -> (r: Option<u32>)
        ensures
            r == clean_radius_of(self.ty),
    {
        match self.ty {
            StructureType::Water => Some(15),
            StructureType::Ore => None,
            StructureType::Pump => None,
            StructureType::Irrigation => Some(50),
        }
    }

    /// Lowers health by `damage` thousandths, clamped at zero. Only types
    /// with a damage radius may be damaged.
    pub fn deal_damage(&mut self, damage: u32)
        requires
            old(self).wf(),
            damage_radius_of(old(self).ty) is Some,
        ensures
            final(self).wf(),
            *final(self) == old(self).damaged(damage),
    {
        let d = damage as i64;
        if self.health >= d {
            self.health = self.health - d;
        } else {
            self.health = 0;
        }
    }

    /// Switches the power flag; only allowed on types that can be powered.
    pub fn set_powered(&mut self, powered: bool)
        requires
            old(self).wf(),
            can_be_powered_of(old(self).ty),
        ensures
            final(self).wf(),
            *final(self) == old(self).with_powered(powered),
    {
        self.powered = powered;
    }

    /// Takes up to `amount` from the remaining resource, clamping the
    /// remainder at zero. If the full `amount` fits, the result is the *new*
    /// remainder; if the resource depletes, the result is what was actually
    /// taken, i.e. the old remainder.
    pub fn mine_amount(&mut self, amount: i32) -> (mined: i32)
        requires
            old(self).wf(),
            old(self).amount is Some,
            amount >= 0,
        ensures
            final(self).wf(),
            *final(self) == old(self).mined(amount),
            mined == old(self).mine_result(amount),
    {
        let remaining = match self.amount {
            Some(r) => r,
            None => unreached(),
        };
        if remaining < amount {
            self.amount = Some(0);
            remaining
        } else {
            self.amount = Some(remaining - amount);
            remaining - amount
        }
    }

    pub fn ty(&self) -> (t: StructureType)
        ensures
            t == self.ty,
    {
        self.ty
    }

    pub fn instance_id(&self) -> (id: i64)
        ensures
            id == self.id,
    {
        self.id
    }

    /// The fixed-point world position.
    pub fn position(&self) -> (p: (i64, i64))
        ensures
            p.0 == self.pos_x,
            p.1 == self.pos_y,
    {
        (self.pos_x, self.pos_y)
    }

    pub fn is_alive(&self) -> (r: bool)
        ensures
            r == (self.health > 0),
    {
        self.health > 0
    }

    pub fn is_powered(&self) -> (r: bool)
        ensures
            r == self.powered,
    {
        self.powered
    }

    pub fn can_be_powered(&self) -> (r: bool)
        ensures
            r == can_be_powered_of(self.ty),
    {
        match self.ty {
            StructureType::Water => false,
            StructureType::Ore => false,
            StructureType::Pump => true,
            StructureType::Irrigation => true,
        }
    }

    /// The remaining resource amount; only resource types carry one.
    pub fn amount(&self) -> (a: i32)
        requires
            self.amount is Some,
        ensures
            a == self.amount_spec(),
    {
        match self.amount {
            Some(a) => a,
            None => unreached(),
        }
    }
}

} // verus!
