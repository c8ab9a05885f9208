use life_sim_core::entities::relationships::{
    cleanup_orphaned_children,
    ActiveHunter, ActiveMate, BirthInfo, GroupType, HuntingTarget, LegacyChildOf, LegacyParentOf,
    MatingTarget, PackLeader, PackMember,
};
use life_sim_core::geometry::{Entity, IVec2};

#[test]
fn test_pack_leader_creation() {
        let leader = PackLeader::new(100, GroupType::Pack);

        assert_eq!(leader.formed_tick, 100);
        assert_eq!(leader.group_type, GroupType::Pack);
        assert_eq!(leader.member_count(), 0);
        assert!(leader.members.is_empty());
    }

#[test]
fn test_pack_member_creation() {
        let leader_entity = Entity::from_raw(1);
        let member = PackMember::new(leader_entity, 100, GroupType::Pack);

        assert_eq!(member.leader, leader_entity);
        assert_eq!(member.joined_tick, 100);
        assert_eq!(member.group_type, GroupType::Pack);
    }

#[test]
fn test_pack_leader_add_member() {
        let mut leader = PackLeader::new(100, GroupType::Pack);
        let member1 = Entity::from_raw(1);
        let member2 = Entity::from_raw(2);

        leader.add_member(member1);
        assert_eq!(leader.member_count(), 1);
        assert!(leader.has_member(member1));

        leader.add_member(member2);
        assert_eq!(leader.member_count(), 2);
        assert!(leader.has_member(member2));
    }

#[test]
fn test_pack_leader_no_duplicate_members() {
        let mut leader = PackLeader::new(100, GroupType::Pack);
        let member = Entity::from_raw(1);

        leader.add_member(member);
        leader.add_member(member); // Try to add again

        assert_eq!(leader.member_count(), 1);
    }

#[test]
fn test_pack_leader_remove_member() {
        let mut leader = PackLeader::new(100, GroupType::Pack);
        let member1 = Entity::from_raw(1);
        let member2 = Entity::from_raw(2);

        leader.add_member(member1);
        leader.add_member(member2);
        assert_eq!(leader.member_count(), 2);

        leader.remove_member(member1);
        assert_eq!(leader.member_count(), 1);
        assert!(!leader.has_member(member1));
        assert!(leader.has_member(member2));
    }

#[test]
fn test_pack_leader_members_list() {
        let mut leader = PackLeader::new(100, GroupType::Pack);
        let member1 = Entity::from_raw(1);
        let member2 = Entity::from_raw(2);
        let member3 = Entity::from_raw(3);

        leader.add_member(member1);
        leader.add_member(member2);
        leader.add_member(member3);

        assert_eq!(leader.members.len(), 3);
        assert!(leader.members.contains(&member1));
        assert!(leader.members.contains(&member2));
        assert!(leader.members.contains(&member3));
    }

#[test]
fn test_pack_member_is_copy() {
        let leader = Entity::from_raw(1);
        let member1 = PackMember::new(leader, 100, GroupType::Pack);
        let member2 = member1; // Should copy without issue

        assert_eq!(member1.leader, member2.leader);
        assert_eq!(member1.joined_tick, member2.joined_tick);
        assert_eq!(member1.group_type, member2.group_type);
    }

#[test]
fn test_pack_duration_calculation() {
        let leader = PackLeader::new(100, GroupType::Pack);
        let current_tick = 150;
        let pack_duration = current_tick - leader.formed_tick;

        assert_eq!(pack_duration, 50);
    }

#[test]
fn test_pack_member_join_duration() {
        let leader = Entity::from_raw(1);
        let member = PackMember::new(leader, 120, GroupType::Pack);
        let current_tick = 170;
        let member_duration = current_tick - member.joined_tick;

        assert_eq!(member_duration, 50);
    }

#[test]
fn test_multiple_pack_leaders() {
        let leader1 = PackLeader::new(100, GroupType::Pack);
        let leader2 = PackLeader::new(100, GroupType::Pack);
        let member1 = PackMember::new(Entity::from_raw(1), 100, GroupType::Pack);
        let member2 = PackMember::new(Entity::from_raw(2), 100, GroupType::Pack);

        assert_ne!(member1.leader, member2.leader);
        assert_eq!(leader1.formed_tick, leader2.formed_tick);
    }

#[test]
fn test_birth_info_creation() {
        let birth_info = BirthInfo::new(100);
        assert_eq!(birth_info.born_tick, 100);
    }

#[test]
fn parent_child_relationships_test_birth_info_is_copy() {
        let info1 = BirthInfo::new(50);
        let info2 = info1; // Should copy without issue
        assert_eq!(info1.born_tick, info2.born_tick);
    }

#[test]
#[allow(deprecated)]
fn test_parent_of_creation() {
        let parent = LegacyParentOf::new(100);

        assert_eq!(parent.first_birth_tick, 100);
        assert_eq!(parent.child_count(), 0);
        assert!(parent.children.is_empty());
    }

#[test]
#[allow(deprecated)]
fn test_child_of_creation() {
        let parent_entity = Entity::placeholder();
        let child = LegacyChildOf::new(parent_entity, 50);

        assert_eq!(child.parent, parent_entity);
        assert_eq!(child.born_tick, 50);
    }

#[test]
#[allow(deprecated)]
fn parent_child_relationships_test_parent_of_add_child() {
        let mut parent = LegacyParentOf::new(100);
        let child1 = Entity::from_raw(1);
        let child2 = Entity::from_raw(2);

        parent.add_child(child1);
        assert_eq!(parent.child_count(), 1);
        assert!(parent.has_child(child1));

        parent.add_child(child2);
        assert_eq!(parent.child_count(), 2);
        assert!(parent.has_child(child2));
    }

#[test]
#[allow(deprecated)]
fn test_parent_of_no_duplicate_children() {
        let mut parent = LegacyParentOf::new(100);
        let child = Entity::from_raw(1);

        parent.add_child(child);
        parent.add_child(child); // Add same child again

        assert_eq!(parent.child_count(), 1, "Child should only be added once");
    }

#[test]
#[allow(deprecated)]
fn test_parent_of_remove_child() {
        let mut parent = LegacyParentOf::new(100);
        let child1 = Entity::from_raw(1);
        let child2 = Entity::from_raw(2);

        parent.add_child(child1);
        parent.add_child(child2);
        assert_eq!(parent.child_count(), 2);

        parent.remove_child(child1);
        assert_eq!(parent.child_count(), 1);
        assert!(!parent.has_child(child1));
        assert!(parent.has_child(child2));
    }

#[test]
#[allow(deprecated)]
fn test_parent_of_remove_nonexistent_child() {
        let mut parent = LegacyParentOf::new(100);
        let child1 = Entity::from_raw(1);
        let child2 = Entity::from_raw(2);

        parent.add_child(child1);
        parent.remove_child(child2); // Remove child that was never added

        assert_eq!(parent.child_count(), 1);
        assert!(parent.has_child(child1));
    }

#[test]
#[allow(deprecated)]
fn test_parent_of_first_birth_tick() {
        let parent1 = LegacyParentOf::new(50);
        let parent2 = LegacyParentOf::new(200);

        assert_eq!(parent1.first_birth_tick, 50);
        assert_eq!(parent2.first_birth_tick, 200);
    }

#[test]
#[allow(deprecated)]
fn test_child_of_is_copy() {
        let parent = Entity::placeholder();
        let child1 = LegacyChildOf::new(parent, 100);
        let child2 = child1; // Should copy without issue

        assert_eq!(child1.parent, child2.parent);
        assert_eq!(child1.born_tick, child2.born_tick);
    }

#[test]
#[allow(deprecated)]
fn test_parent_child_consistency() {
        let parent = LegacyParentOf::new(100);
        let parent_entity = Entity::from_raw(1);
        let child_entity = Entity::from_raw(2);

        let child = LegacyChildOf::new(parent_entity, 100);

        // Both should reference each other
        assert_eq!(child.parent, parent_entity);
        assert_eq!(parent.first_birth_tick, child.born_tick);
    }

#[test]
#[allow(deprecated)]
fn parent_child_relationships_test_parent_of_multiple_children() {
        let mut parent = LegacyParentOf::new(100);
        let children: Vec<Entity> = (0..5)
            .map(|i| Entity::from_raw(i + 10))
            .collect();

        for child in &children {
            parent.add_child(*child);
        }

        assert_eq!(parent.child_count(), 5);
        for child in &children {
            assert!(parent.has_child(*child));
        }
    }

#[test]
#[allow(deprecated)]
fn test_parent_of_clear_children() {
        let mut parent = LegacyParentOf::new(100);
        let children: Vec<Entity> = (0..3)
            .map(|i| Entity::from_raw(i + 10))
            .collect();

        for child in &children {
            parent.add_child(*child);
        }

        // Clear all children by removing each
        for child in &children {
            parent.remove_child(*child);
        }

        assert_eq!(parent.child_count(), 0);
    }

#[test]
fn test_mating_target_creation() {
        let suitor = Entity::placeholder();
        let tile = IVec2::new(10, 20);
        let target = MatingTarget {
            suitor,
            meeting_tile: tile,
            started_tick: 100,
        };

        assert_eq!(target.suitor, suitor);
        assert_eq!(target.meeting_tile, tile);
        assert_eq!(target.started_tick, 100);
    }

#[test]
fn test_active_mate_creation() {
        let partner = Entity::placeholder();
        let tile = IVec2::new(15, 25);
        let mate = ActiveMate {
            partner,
            meeting_tile: tile,
            started_tick: 100,
        };

        assert_eq!(mate.partner, partner);
        assert_eq!(mate.meeting_tile, tile);
        assert_eq!(mate.started_tick, 100);
    }

#[test]
fn test_mating_target_is_copy() {
        let suitor = Entity::placeholder();
        let tile = IVec2::new(10, 20);
        let target1 = MatingTarget {
            suitor,
            meeting_tile: tile,
            started_tick: 100,
        };
        let target2 = target1; // Should copy without issue

        assert_eq!(target1.suitor, target2.suitor);
        assert_eq!(target1.meeting_tile, target2.meeting_tile);
        assert_eq!(target1.started_tick, target2.started_tick);
    }

#[test]
fn test_active_mate_is_copy() {
        let partner = Entity::placeholder();
        let tile = IVec2::new(15, 25);
        let mate1 = ActiveMate {
            partner,
            meeting_tile: tile,
            started_tick: 100,
        };
        let mate2 = mate1; // Should copy without issue

        assert_eq!(mate1.partner, mate2.partner);
        assert_eq!(mate1.meeting_tile, mate2.meeting_tile);
        assert_eq!(mate1.started_tick, mate2.started_tick);
    }

#[test]
fn test_mating_relationship_matching() {
        let entity_a = Entity::from_raw(1);
        let entity_b = Entity::from_raw(2);
        let tile = IVec2::new(20, 30);

        let target = MatingTarget {
            suitor: entity_a,
            meeting_tile: tile,
            started_tick: 50,
        };

        let mate = ActiveMate {
            partner: entity_b,
            meeting_tile: tile,
            started_tick: 50,
        };

        // Verify bidirectional consistency
        assert_eq!(target.suitor, entity_a);
        assert_eq!(mate.partner, entity_b);
        assert_eq!(target.started_tick, mate.started_tick);
        assert_eq!(target.meeting_tile, mate.meeting_tile);
    }

#[test]
fn test_multiple_mating_pairs() {
        let male_a = Entity::from_raw(1);
        let female_a = Entity::from_raw(2);
        let male_b = Entity::from_raw(3);
        let female_b = Entity::from_raw(4);

        let mate_a = ActiveMate {
            partner: female_a,
            meeting_tile: IVec2::new(10, 10),
            started_tick: 50,
        };

        let mate_b = ActiveMate {
            partner: female_b,
            meeting_tile: IVec2::new(20, 20),
            started_tick: 50,
        };

        // Each male can have their own mate
        assert_ne!(mate_a.partner, mate_b.partner);
        assert_eq!(mate_a.partner, female_a);
        assert_eq!(mate_b.partner, female_b);
    }

#[test]
fn test_mating_duration_calculation() {
        let suitor = Entity::placeholder();
        let tile = IVec2::new(10, 10);

        let target = MatingTarget {
            suitor,
            meeting_tile: tile,
            started_tick: 100,
        };

        let current_tick = 150;
        let mating_duration = current_tick - target.started_tick;

        assert_eq!(mating_duration, 50);
    }

#[test]
fn test_different_meeting_tiles() {
        let suitor1 = Entity::from_raw(1);
        let suitor2 = Entity::from_raw(2);
        let tile1 = IVec2::new(10, 10);
        let tile2 = IVec2::new(50, 50);

        let target1 = MatingTarget {
            suitor: suitor1,
            meeting_tile: tile1,
            started_tick: 100,
        };

        let target2 = MatingTarget {
            suitor: suitor2,
            meeting_tile: tile2,
            started_tick: 100,
        };

        assert_ne!(target1.meeting_tile, target2.meeting_tile);
        assert_eq!(target1.meeting_tile, tile1);
        assert_eq!(target2.meeting_tile, tile2);
    }

#[test]
fn test_hunting_target_creation() {
        let predator = Entity::placeholder();
        let target = HuntingTarget {
            predator,
            started_tick: 100,
        };

        assert_eq!(target.predator, predator);
        assert_eq!(target.started_tick, 100);
    }

#[test]
fn test_active_hunter_creation() {
        let prey = Entity::placeholder();
        let hunter = ActiveHunter {
            target: prey,
            started_tick: 100,
        };

        assert_eq!(hunter.target, prey);
        assert_eq!(hunter.started_tick, 100);
    }

#[test]
fn test_hunting_target_is_copy() {
        let predator = Entity::placeholder();
        let target1 = HuntingTarget {
            predator,
            started_tick: 100,
        };
        let target2 = target1; // Should copy without issue

        assert_eq!(target1.predator, target2.predator);
        assert_eq!(target1.started_tick, target2.started_tick);
    }

#[test]
fn test_active_hunter_is_copy() {
        let prey = Entity::placeholder();
        let hunter1 = ActiveHunter {
            target: prey,
            started_tick: 100,
        };
        let hunter2 = hunter1; // Should copy without issue

        assert_eq!(hunter1.target, hunter2.target);
        assert_eq!(hunter1.started_tick, hunter2.started_tick);
    }

#[test]
fn test_hunting_relationship_timing() {
        let predator = Entity::placeholder();
        let prey = Entity::placeholder();

        let target = HuntingTarget {
            predator,
            started_tick: 50,
        };

        let hunter = ActiveHunter {
            target: prey,
            started_tick: 50,
        };

        // Both should have same start tick
        assert_eq!(target.started_tick, hunter.started_tick);
    }

#[test]
fn test_different_predators_different_prey() {
        let predator1 = Entity::from_raw(1);
        let predator2 = Entity::from_raw(2);
        let prey1 = Entity::from_raw(100);
        let prey2 = Entity::from_raw(101);

        let hunter1 = ActiveHunter {
            target: prey1,
            started_tick: 50,
        };

        let hunter2 = ActiveHunter {
            target: prey2,
            started_tick: 50,
        };

        // Each hunter can have their own prey
        assert_ne!(hunter1.target, hunter2.target);
        assert_eq!(hunter1.target, prey1);
        assert_eq!(hunter2.target, prey2);
    }

#[test]
fn test_hunt_duration_calculation() {
        let predator = Entity::placeholder();
        let prey = Entity::placeholder();

        let target = HuntingTarget {
            predator,
            started_tick: 100,
        };

        let current_tick = 150;
        let hunt_duration = current_tick - target.started_tick;

        assert_eq!(hunt_duration, 50);
    }

#[test]
fn test_birth_info_new_with_tick() {
        let birth_info = BirthInfo::new(100);
        assert_eq!(birth_info.born_tick, 100);
    }

#[test]
fn birth_relationships_test_birth_info_is_copy() {
        let info1 = BirthInfo::new(50);
        let info2 = info1;
        assert_eq!(info1.born_tick, info2.born_tick);
    }

#[test]
#[allow(deprecated)]
fn test_child_of_new_with_tick() {
        let parent = Entity::from_raw(1);
        let child_of = LegacyChildOf::new(parent, 100);

        assert_eq!(child_of.parent, parent);
        assert_eq!(child_of.born_tick, 100);
    }

#[test]
#[allow(deprecated)]
fn test_parent_of_new_with_tick() {
        let parent_of = LegacyParentOf::new(100);

        assert_eq!(parent_of.first_birth_tick, 100);
        assert_eq!(parent_of.child_count(), 0);
    }

#[test]
#[allow(deprecated)]
fn birth_relationships_test_parent_of_add_child() {
        let mut parent_of = LegacyParentOf::new(100);
        let child = Entity::from_raw(2);

        parent_of.add_child(child);

        assert_eq!(parent_of.child_count(), 1);
        assert!(parent_of.has_child(child));
    }

#[test]
#[allow(deprecated)]
fn birth_relationships_test_parent_of_multiple_children() {
        let mut parent_of = LegacyParentOf::new(100);
        let child1 = Entity::from_raw(2);
        let child2 = Entity::from_raw(3);
        let child3 = Entity::from_raw(4);

        parent_of.add_child(child1);
        parent_of.add_child(child2);
        parent_of.add_child(child3);

        assert_eq!(parent_of.child_count(), 3);
        assert!(parent_of.has_child(child1));
        assert!(parent_of.has_child(child2));
        assert!(parent_of.has_child(child3));
    }

#[test]
fn test_birth_tick_tracking() {
        let birth_info1 = BirthInfo::new(50);
        let birth_info2 = BirthInfo::new(200);

        assert_eq!(birth_info1.born_tick, 50);
        assert_eq!(birth_info2.born_tick, 200);
    }


// ---------------------------------------------------------------------------
// Further cases of the library's own.
// ---------------------------------------------------------------------------

#[test]
fn group_type_names() {
    assert_eq!(GroupType::Pack.name(), "pack");
    assert_eq!(GroupType::Herd.name(), "herd");
    assert_eq!(GroupType::Flock.name(), "flock");
    assert_eq!(GroupType::Warren.name(), "warren");
    assert_eq!(GroupType::Colony.name(), "colony");
    assert_eq!(GroupType::School.name(), "school");
}

#[test]
fn remove_member_drops_every_copy_and_keeps_order() {
    let mut leader = PackLeader::new(0, GroupType::Herd);
    leader.members = vec![Entity::from_raw(1), Entity::from_raw(2), Entity::from_raw(1), Entity::from_raw(3)];
    leader.remove_member(Entity::from_raw(1));
    assert_eq!(leader.members, vec![Entity::from_raw(2), Entity::from_raw(3)]);
    leader.remove_member(Entity::from_raw(9));
    assert_eq!(leader.member_count(), 2);
}

#[test]
fn orphans_are_children_of_missing_parents() {
    let p1 = Entity::from_raw(1);
    let p2 = Entity::from_raw(2);
    let children = vec![
        (Entity::from_raw(10), LegacyChildOf::new(p1, 0)),
        (Entity::from_raw(11), LegacyChildOf::new(p2, 0)),
        (Entity::from_raw(12), LegacyChildOf::new(p1, 5)),
    ];
    let orphans = cleanup_orphaned_children(&children, &vec![p2]);
    assert_eq!(orphans, vec![Entity::from_raw(10), Entity::from_raw(12)]);
    let none = cleanup_orphaned_children(&children, &vec![p1, p2]);
    assert!(none.is_empty());
}

#[test]
fn test_group_type_names() {
    assert_eq!(GroupType::Pack.name(), "pack");
    assert_eq!(GroupType::Herd.name(), "herd");
    assert_eq!(GroupType::Flock.name(), "flock");
    assert_eq!(GroupType::Warren.name(), "warren");
    assert_eq!(GroupType::Colony.name(), "colony");
    assert_eq!(GroupType::School.name(), "school");
}

#[test]
fn test_group_type_equality() {
    assert_eq!(GroupType::Pack, GroupType::Pack);
    assert_ne!(GroupType::Pack, GroupType::Herd);
    assert_ne!(GroupType::Herd, GroupType::Warren);
}
