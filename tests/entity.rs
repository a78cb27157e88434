use mk48_common::entity::{
    advance_idle, muzzle_flash_armaments, Angle, Catalog, DeathReason, EntityData, EntityKind, EntitySubKind, EntityType,
    PlayerId, Ticks, Turret,
};

#[test]
fn keep_alive_ranges() {
    assert_eq!(EntityKind::Obstacle.keep_alive(), (Ticks(10), Ticks(10)));
    assert_eq!(EntityKind::Collectible.keep_alive(), (Ticks(2), Ticks(5)));
    assert_eq!(EntityKind::Boat.keep_alive(), (Ticks(0), Ticks(0)));
    for kind in [
        EntityKind::Aircraft,
        EntityKind::Boat,
        EntityKind::Collectible,
        EntityKind::Decoy,
        EntityKind::Obstacle,
        EntityKind::Turret,
        EntityKind::Weapon,
    ] {
        let (s, e) = kind.keep_alive();
        assert_eq!((e.0 + 1) % (s.0 + 1), 0);
    }
}

#[test]
fn lost_contact_after_keep_alive_end() {
    let mut idle = Ticks(0);
    let mut lost_at = None;
    for tick in 1..20 {
        idle = advance_idle(idle);
        if EntityKind::Obstacle.is_lost(idle) {
            lost_at = Some(tick);
            break;
        }
    }
    assert_eq!(lost_at, Some(11));
    assert!(!EntityKind::Weapon.is_lost(Ticks(0)));
    assert!(EntityKind::Weapon.is_lost(Ticks(1)));
    assert_eq!(advance_idle(Ticks(u16::MAX)), Ticks(u16::MAX));
}

#[test]
fn turret_azimuth() {
    let quarter = 16384i16;
    let turret = Turret {
        angle: Angle(0),
        azimuth_fl: Angle(quarter / 2),
        azimuth_fr: Angle(quarter / 2),
        azimuth_bl: Angle(0),
        azimuth_br: Angle(0),
    };
    assert!(!turret.within_azimuth(Angle(0)));
    assert!(!turret.within_azimuth(Angle(quarter / 4)));
    assert!(!turret.within_azimuth(Angle(-quarter / 4)));
    assert!(turret.within_azimuth(Angle(quarter)));
    assert!(turret.within_azimuth(Angle(i16::MIN)));

    let back = Turret {
        angle: Angle(0),
        azimuth_fl: Angle(0),
        azimuth_fr: Angle(0),
        azimuth_bl: Angle(quarter / 2),
        azimuth_br: Angle(quarter / 2),
    };
    assert!(!back.within_azimuth(Angle(i16::MIN)));
    assert!(!back.within_azimuth(Angle(i16::MAX)));
    assert!(back.within_azimuth(Angle(0)));
}

#[test]
fn angle_wraps() {
    assert_eq!(Angle(i16::MAX).add(Angle(1)), Angle(i16::MIN));
    assert_eq!(Angle(i16::MIN).sub(Angle(1)), Angle(i16::MAX));
    assert_eq!(Angle(i16::MIN).neg(), Angle(i16::MIN));
}

#[test]
fn death_due_to_player() {
    assert!(DeathReason::Boat(PlayerId(1)).is_due_to_player());
    assert!(DeathReason::Ram(PlayerId(1)).is_due_to_player());
    assert!(DeathReason::Weapon(PlayerId(1), EntityType(3)).is_due_to_player());
    assert!(!DeathReason::Entity(EntityType(3)).is_due_to_player());
    assert!(!DeathReason::Terrain.is_due_to_player());
    assert!(!DeathReason::Border.is_due_to_player());
    assert!(!DeathReason::Unknown.is_due_to_player());
}

#[test]
fn reduced_lifespan_saturates() {
    let torpedo = EntityData {
        kind: EntityKind::Weapon,
        sub_kind: EntitySubKind::Torpedo,
        level: 1,
        limited: false,
        npc: false,
        lifespan: Ticks(100),
        reload: Ticks(20),
    };
    let catalog = Catalog::new(vec![torpedo]);
    assert_eq!(catalog.len(), 1);
    assert_eq!(catalog.data(EntityType(0)), torpedo);
    assert_eq!(EntityType(0).reduced_lifespan(&catalog, Ticks(30)), Ticks(70));
    assert_eq!(EntityType(0).reduced_lifespan(&catalog, Ticks(300)), Ticks(0));
}

#[test]
fn muzzle_flash_when_reload_consumed() {
    let view = vec![Ticks(10)];
    let model = vec![Ticks(0)];
    for sk in [
        EntitySubKind::Shell,
        EntitySubKind::Rocket,
        EntitySubKind::RocketTorpedo,
        EntitySubKind::Missile,
    ] {
        assert_eq!(muzzle_flash_armaments(&view, &model, &vec![sk], true, true), vec![0]);
    }
    for sk in [EntitySubKind::Torpedo, EntitySubKind::Mine, EntitySubKind::Sam] {
        assert!(muzzle_flash_armaments(&view, &model, &vec![sk], true, true).is_empty());
    }
    let shell = vec![EntitySubKind::Shell];
    assert!(muzzle_flash_armaments(&view, &model, &shell, false, true).is_empty());
    assert!(muzzle_flash_armaments(&view, &model, &shell, true, false).is_empty());
    assert!(muzzle_flash_armaments(&model, &view, &shell, true, true).is_empty());

    let view3 = vec![Ticks(5), Ticks(0), Ticks(7)];
    let model3 = vec![Ticks(0), Ticks(0), Ticks(0)];
    let kinds3 = vec![EntitySubKind::Missile, EntitySubKind::Shell, EntitySubKind::Rocket];
    assert_eq!(muzzle_flash_armaments(&view3, &model3, &kinds3, true, true), vec![0, 2]);
}

#[test]
fn spawn_and_upgrade_rules() {
    let boat = |level: u8, npc: bool| EntityData {
        kind: EntityKind::Boat,
        sub_kind: EntitySubKind::Destroyer,
        level,
        limited: false,
        npc,
        lifespan: Ticks(0),
        reload: Ticks(0),
    };
    let mut weapon = boat(1, false);
    weapon.kind = EntityKind::Weapon;
    let catalog = Catalog::new(vec![boat(1, false), boat(2, false), boat(3, true), weapon]);
    assert!(EntityType(0).can_spawn_as(&catalog, 0, false, 0));
    assert!(!EntityType(1).can_spawn_as(&catalog, 5, false, 10));
    assert!(!EntityType(2).can_spawn_as(&catalog, 100, false, 10));
    assert!(EntityType(2).can_spawn_as(&catalog, 100, true, 10));
    assert!(!EntityType(3).can_spawn_as(&catalog, 100, true, 0));

    assert!(EntityType(0).can_upgrade_to(EntityType(1), &catalog, 10, false, 10));
    assert!(!EntityType(0).can_upgrade_to(EntityType(1), &catalog, 9, false, 10));
    assert!(!EntityType(1).can_upgrade_to(EntityType(0), &catalog, 100, false, 0));
    assert!(!EntityType(0).can_upgrade_to(EntityType(2), &catalog, 100, false, 0));
    assert!(EntityType(0).can_upgrade_to(EntityType(2), &catalog, 100, true, 0));
}
