use vstd::prelude::*;

verus! {

/// A duration in simulation ticks (nominally a tenth of a second each).
#[derive(Copy, Clone, Debug, PartialEq, Eq, Structural)]
pub struct Ticks(pub u16);

/// The kind of an entity.
#[derive(Copy, Clone, Debug, PartialEq, Eq, Structural)]
pub enum EntityKind {
    Aircraft,
    Boat,
    Collectible,
    Decoy,
    Obstacle,
    Turret,
    Weapon,
}

/// The sub-kind of an entity.
#[derive(Copy, Clone, Debug, PartialEq, Eq, Structural)]
pub enum EntitySubKind {
    Battleship,
    Carrier,
    Corvette,
    Cruiser,
    Depositor,
    DepthCharge,
    Destroyer,
    Dreadnought,
    Dredger,
    Heli,
    Hovercraft,
    Icebreaker,
    Gun,
    Lcs,
    Mine,
    Minelayer,
    Missile,
    Mtb,
    Pirate,
    Plane,
    Ram,
    Rocket,
    RocketTorpedo,
    Sam,
    Score,
    Shell,
    Sonar,
    Structure,
    Submarine,
    Tanker,
    Torpedo,
    Tree,
}

/// Largest possible end of a keep-alive range.
pub const MAX_KEEP_ALIVE: u16 = 10;

impl EntityKind {
    /// The keep-alive range `(start, end)` (both included) of an entity kind, in ticks.
    pub open spec fn keep_alive_spec(self) -> (int, int) {
        match self {
            EntityKind::Collectible => (2, 5),
            EntityKind::Obstacle => (10, 10),
            _ => (0, 0),
        }
    }

    /// After how many ticks of not hearing about an entity a client should assume it is gone:
    /// the range `(start, end)`, both included. The end is used except for fast entities.
    pub fn keep_alive(self) -> (r: (Ticks, Ticks))
        ensures
            r.0.0 == self.keep_alive_spec().0,
            r.1.0 == self.keep_alive_spec().1,
            r.1.0 <= MAX_KEEP_ALIVE,
    {
        match self {
            EntityKind::Boat | EntityKind::Decoy | EntityKind::Weapon | EntityKind::Aircraft
            | EntityKind::Turret => (Ticks(0), Ticks(0)),
            EntityKind::Collectible => (Ticks(2), Ticks(5)),
            EntityKind::Obstacle => (Ticks(MAX_KEEP_ALIVE), Ticks(MAX_KEEP_ALIVE)),
        }
    }

    /// Every keep-alive range guarantees updates: one more than its start divides one more than
    /// its end.
    pub proof fn lemma_keep_alive_divides(self)
        ensures
            (self.keep_alive_spec().1 + 1) % (self.keep_alive_spec().0 + 1) == 0,
    {
        assert(1int % 1 == 0);
        assert(6int % 3 == 0);
        assert(11int % 11 == 0);
    }

    /// Whether a contact of this kind, not mentioned for `idle` ticks, is gone.
    pub fn is_lost(self, idle: Ticks) -> (r: bool)
        ensures
            r == (idle.0 > self.keep_alive_spec().1),
    {
        idle.0 > self.keep_alive().1.0
    }
}

/// Ticks since a contact was last mentioned, one tick later (saturating).
pub fn advance_idle(idle: Ticks) -> (r: Ticks)
    ensures
        r.0 == if idle.0 == u16::MAX { u16::MAX as int } else { idle.0 + 1 },
{
    Ticks(idle.0.saturating_add(1))
}

/// The idle count `n` ticks after a contact was last mentioned.
pub open spec fn idle_after(n: nat) -> int {
    if n > u16::MAX { u16::MAX as int } else { n as int }
}

/// Advancing the idle count of a contact mentioned `n` ticks ago gives that of one mentioned
/// `n + 1` ticks ago.
pub proof fn lemma_idle_after_step(n: nat)
    ensures
        (if idle_after(n) == u16::MAX { u16::MAX as int } else { idle_after(n) + 1 })
            == idle_after(n + 1),
{
}

/// A contact last mentioned at some tick is kept for exactly `end` further ticks and lost at
/// the tick after: at `n` ticks since the mention it is lost if and only if `n > end`.
pub proof fn lemma_lost_contact_timing(kind: EntityKind, n: nat)
    ensures
        (idle_after(n) > kind.keep_alive_spec().1) <==> (n > kind.keep_alive_spec().1),
{
}

/// An angle, wrapping around: 65536 units make a full turn.
#[derive(Copy, Clone, Debug, PartialEq, Eq, Structural)]
pub struct Angle(pub i16);

/// An integer wrapped into the range of `i16`.
pub open spec fn wrap16(v: int) -> int {
    ((v + 32768) % 65536) - 32768
}

/// Half a turn.
pub const ANGLE_PI: i16 = -32768;

fn wrap(v: i32) -> (r: i16)
    requires
        -200000 < v < 200000,
    ensures
        r == wrap16(v as int),
{
    let m = (v + 32768 + 262144) % 65536;
    assert(m == (v + 32768) % 65536int) by {
        vstd::arithmetic::div_mod::lemma_mod_multiples_vanish(4, v + 32768, 65536);
    }
    (m - 32768) as i16
}

impl Angle {
    pub fn sub(self, rhs: Angle) -> (r: Angle)
        ensures
            r.0 == wrap16(self.0 - rhs.0),
    {
        Angle(wrap(self.0 as i32 - rhs.0 as i32))
    }

    pub fn add(self, rhs: Angle) -> (r: Angle)
        ensures
            r.0 == wrap16(self.0 + rhs.0),
    {
        Angle(wrap(self.0 as i32 + rhs.0 as i32))
    }

    pub fn neg(self) -> (r: Angle)
        ensures
            r.0 == wrap16(-self.0),
    {
        Angle(wrap(-(self.0 as i32)))
    }
}

/// The azimuth limits of a turret: its base angle and the four restrictions, one starting in
/// each quadrant (front-left, front-right, back-left, back-right).
#[derive(Copy, Clone, Debug, PartialEq, Eq, Structural)]
pub struct Turret {
    pub angle: Angle,
    pub azimuth_fl: Angle,
    pub azimuth_fr: Angle,
    pub azimuth_bl: Angle,
    pub azimuth_br: Angle,
}

impl Turret {
    /// Whether an angle lies within the restricted sector around the base angle.
    pub open spec fn in_front_sector(self, curr: Angle) -> bool {
        let f = wrap16(curr.0 - self.angle.0);
        wrap16(-self.azimuth_fr.0) < f < self.azimuth_fl.0
    }

    /// Whether an angle lies within the restricted sector around the base angle plus half a turn.
    pub open spec fn in_back_sector(self, curr: Angle) -> bool {
        let b = wrap16(ANGLE_PI + wrap16(curr.0 - self.angle.0));
        wrap16(-self.azimuth_bl.0) < b < self.azimuth_br.0
    }

    /// Whether a boat-relative angle is within the turret's azimuth limits: outside both
    /// restricted sectors.
    pub fn within_azimuth(&self, curr: Angle) -> (r: bool)
        ensures
            r == (!self.in_front_sector(curr) && !self.in_back_sector(curr)),
    {
        let azimuth_f = curr.sub(self.angle);
        if self.azimuth_fr.neg().0 < azimuth_f.0 && azimuth_f.0 < self.azimuth_fl.0 {
            false
        } else {
            let azimuth_b = Angle(ANGLE_PI).add(azimuth_f);
            !(self.azimuth_bl.neg().0 < azimuth_b.0 && azimuth_b.0 < self.azimuth_br.0)
        }
    }
}


/// A player, by identifier.
#[derive(Copy, Clone, Debug, PartialEq, Eq, Structural)]
pub struct PlayerId(pub u32);

/// An entity type of the catalog, by ordinal.
#[derive(Copy, Clone, Debug, PartialEq, Eq, Structural)]
pub struct EntityType(pub u8);

/// What an entity collided with in order to die.
#[derive(Copy, Clone, Debug, PartialEq, Eq, Structural)]
pub enum DeathReason {
    /// For non-boats, and for boats removed without a better reason.
    Unknown,
    Border,
    Terrain,
    Boat(PlayerId),
    /// Hitting something like a structure, never a boat.
    Entity(EntityType),
    Ram(PlayerId),
    Weapon(PlayerId, EntityType),
}

impl DeathReason {
    /// Whether the death was caused by another player, as opposed to natural causes.
    pub fn is_due_to_player(&self) -> (r: bool)
        ensures
            r == (self is Boat || self is Ram || self is Weapon),
    {
        match self {
            DeathReason::Unknown => false,
            DeathReason::Border => false,
            DeathReason::Terrain => false,
            DeathReason::Boat(_) => true,
            DeathReason::Entity(_) => false,
            DeathReason::Ram(_) => true,
            DeathReason::Weapon(_, _) => true,
        }
    }
}


/// The integer metadata of an entity type that the rules read.
#[derive(Copy, Clone, Debug, PartialEq, Eq, Structural)]
pub struct EntityData {
    pub kind: EntityKind,
    pub sub_kind: EntitySubKind,
    pub level: u8,
    pub limited: bool,
    pub npc: bool,
    pub lifespan: Ticks,
    pub reload: Ticks,
}

/// The table of entity types, indexed by ordinal; loaded once and read-only after.
pub struct Catalog {
    entries: Vec<EntityData>,
}

impl Catalog {
    /// The records, by ordinal.
    pub closed spec fn view(&self) -> Seq<EntityData> {
        self.entries@
    }

    pub fn new(entries: Vec<EntityData>) -> (r: Self)
        ensures
            r@ == entries@,
    {
        Catalog { entries }
    }

    pub fn len(&self) -> (r: usize)
        ensures
            r == self@.len(),
    {
        self.entries.len()
    }

    /// The record of an entity type.
    pub fn data(&self, entity_type: EntityType) -> (r: EntityData)
        requires
            entity_type.0 < self@.len(),
        ensures
            r == self@[entity_type.0 as int],
    {
        self.entries[entity_type.0 as usize]
    }
}

impl EntityType {
    /// Whether a player may spawn as this type: it is a boat, the score reaches the score
    /// required for its level (`level_score`), and it is not reserved for bots unless the
    /// player is one.
    pub fn can_spawn_as(self, catalog: &Catalog, score: u32, bot: bool, level_score: u32) -> (r: bool)
        requires
            self.0 < catalog@.len(),
        ensures
            r == (catalog@[self.0 as int].kind == EntityKind::Boat && level_score <= score && (bot
                || !catalog@[self.0 as int].npc)),
    {
        let data = catalog.data(self);
        data.kind == EntityKind::Boat && level_score <= score && (bot || !data.npc)
    }

    /// Whether a player of this type may upgrade to another: it has a higher level and the same
    /// kind, the score reaches the score required for its level (`upgrade_level_score`), and it
    /// is not reserved for bots unless the player is one.
    pub fn can_upgrade_to(
        self,
        upgrade: EntityType,
        catalog: &Catalog,
        score: u32,
        bot: bool,
        upgrade_level_score: u32,
    ) -> (r: bool)
        requires
            self.0 < catalog@.len(),
            upgrade.0 < catalog@.len(),
        ensures
            r == ({
                let d = catalog@[self.0 as int];
                let u = catalog@[upgrade.0 as int];
                u.level > d.level && u.kind == d.kind && score >= upgrade_level_score && (bot
                    || !u.npc)
            }),
    {
        let data = catalog.data(self);
        let upgrade_data = catalog.data(upgrade);
        upgrade_data.level > data.level && upgrade_data.kind == data.kind && score
            >= upgrade_level_score && (bot || !upgrade_data.npc)
    }

    /// The tick count to start an entity's life at so that it expires after `desired_lifespan`
    /// ticks: its lifespan minus the desired one, or zero.
    pub fn reduced_lifespan(self, catalog: &Catalog, desired_lifespan: Ticks) -> (r: Ticks)
        requires
            self.0 < catalog@.len(),
        ensures
            r.0 == if catalog@[self.0 as int].lifespan.0 > desired_lifespan.0 {
                catalog@[self.0 as int].lifespan.0 - desired_lifespan.0
            } else {
                0
            },
    {
        Ticks(catalog.data(self).lifespan.0.saturating_sub(desired_lifespan.0))
    }
}


/// Whether firing a weapon of this sub-kind makes a muzzle flash.
pub open spec fn makes_flash(sub_kind: EntitySubKind) -> bool {
    sub_kind is Shell || sub_kind is Rocket || sub_kind is RocketTorpedo || sub_kind is Missile
}

/// Whether armament `m` was just fired with a muzzle flash: its reload is not zero in the view
/// and zero in the model, and its weapon makes a flash.
pub open spec fn fired_with_flash(
    view_reloads: Seq<Ticks>,
    model_reloads: Seq<Ticks>,
    child_sub_kinds: Seq<EntitySubKind>,
    m: int,
) -> bool {
    view_reloads[m].0 != 0 && model_reloads[m].0 == 0 && makes_flash(child_sub_kinds[m])
}

/// The armaments, in increasing order of index, that were just fired and make a muzzle flash:
/// where the view and the model of a contact are of the same type (`same_type`) and both know
/// their reloads and turrets (`known`), those whose reload in the view is not zero while in the
/// model it is, and whose weapon (`child_sub_kinds`) is a shell, rocket, rocket torpedo or missile.
pub fn muzzle_flash_armaments(
    view_reloads: &Vec<Ticks>,
    model_reloads: &Vec<Ticks>,
    child_sub_kinds: &Vec<EntitySubKind>,
    same_type: bool,
    known: bool,
) -> (r: Vec<usize>)
    requires
        model_reloads@.len() == view_reloads@.len(),
        child_sub_kinds@.len() == view_reloads@.len(),
    ensures
        forall|j: int, k: int| 0 <= j < k < r@.len() ==> #[trigger] r@[j] < #[trigger] r@[k],
        forall|j: int| 0 <= j < r@.len() ==> #[trigger] r@[j] < view_reloads@.len(),
        forall|m: int|
            0 <= m < view_reloads@.len() ==> (r@.contains(m as usize) <==> (same_type && known
                && #[trigger] fired_with_flash(view_reloads@, model_reloads@, child_sub_kinds@, m))),
{
    let mut r: Vec<usize> = Vec::new();
    if !(same_type && known) {
        return r;
    }
    let n = view_reloads.len();
    let mut i: usize = 0;
    while i < n
        invariant
            n == view_reloads@.len(),
            i <= n,
            same_type && known,
            model_reloads@.len() == n,
            child_sub_kinds@.len() == n,
            forall|j: int, k: int| 0 <= j < k < r@.len() ==> #[trigger] r@[j] < #[trigger] r@[k],
            forall|j: int| 0 <= j < r@.len() ==> #[trigger] r@[j] < i,
            forall|m: int|
                0 <= m < n ==> (r@.contains(m as usize) <==> (m < i && #[trigger] fired_with_flash(
                    view_reloads@,
                    model_reloads@,
                    child_sub_kinds@,
                    m,
                ))),
        decreases n - i,
    {
        let flash = match child_sub_kinds[i] {
            EntitySubKind::Shell | EntitySubKind::Rocket | EntitySubKind::RocketTorpedo
            | EntitySubKind::Missile => true,
            _ => false,
        };
        let fired = view_reloads[i].0 != 0 && model_reloads[i].0 == 0 && flash;
        assert(fired == fired_with_flash(view_reloads@, model_reloads@, child_sub_kinds@, i as int));
        let ghost r0 = r@;
        if fired {
            r.push(i);
        }
        proof {
            assert forall|m: int| 0 <= m < n implies (r@.contains(m as usize) <==> (m < i + 1
                && #[trigger] fired_with_flash(view_reloads@, model_reloads@, child_sub_kinds@, m))) by {
                if r@.contains(m as usize) {
                    let j = choose|j: int| 0 <= j < r@.len() && r@[j] == m as usize;
                    if j < r0.len() {
                        assert(r0[j] == m as usize);
                        assert(r0.contains(m as usize));
                    }
                }
                if m < i && r0.contains(m as usize) {
                    let j = choose|j: int| 0 <= j < r0.len() && r0[j] == m as usize;
                    assert(r@[j] == m as usize);
                }
                if m == i && fired {
                    assert(r@[r0.len() as int] == i);
                }
                if m == i && r0.contains(m as usize) {
                    let j = choose|j: int| 0 <= j < r0.len() && r0[j] == m as usize;
                    assert(r0[j] < i);
                }
            }
        }
        i += 1;
    }
    r
}

} // verus!
