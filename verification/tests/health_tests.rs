use life_sim_core::debug::health::{
    AlertRecord, EntityHealthState, HealthAlert, HealthChecker, MAX_ALERTS,
};
use std::collections::HashSet;

#[test]
fn test_alert_creation() {
        let alert = HealthAlert::TpsBelow10;
        assert_eq!(alert.to_string(), "TPS below 10");

        let alert = HealthAlert::EntitiesStuck;
        assert_eq!(alert.to_string(), "Entities stuck");

        let alert = HealthAlert::PopulationCrash;
        assert_eq!(alert.to_string(), "Population crash");

        let alert = HealthAlert::AiLoops;
        assert_eq!(alert.to_string(), "AI loops detected");
    }

#[test]
fn test_alert_record_creation() {
        let record = AlertRecord::new(HealthAlert::TpsBelow10, 100);
        assert_eq!(record.alert_type, HealthAlert::TpsBelow10);
        assert_eq!(record.tick, 100);
        assert!(record.timestamp_ms > 0);
    }

#[test]
fn test_health_checker_add_alert() {
        let mut checker = HealthChecker::default();
        assert_eq!(checker.get_alerts().len(), 0);

        checker.add_alert(HealthAlert::TpsBelow10, 50);
        assert_eq!(checker.get_alerts().len(), 1);

        let alert = checker.get_alerts()[0];
        assert_eq!(alert.alert_type, HealthAlert::TpsBelow10);
        assert_eq!(alert.tick, 50);
    }

#[test]
fn test_health_checker_ring_buffer() {
        let mut checker = HealthChecker::default();

        // Add more alerts than max capacity
        for i in 0..150 {
            checker.add_alert(HealthAlert::TpsBelow10, i);
        }

        // Should only keep last 100
        assert_eq!(checker.get_alerts().len(), MAX_ALERTS);
        assert_eq!(checker.get_alerts()[0].tick, 50); // First remaining should be tick 50
    }

#[test]
fn test_check_stuck_entities() {
        let mut checker = HealthChecker::default();

        // Create entity that moves at tick 10
        checker.update_entity_position(1, (10, 20), 10);

        // Check at tick 40 - should not be stuck (30 ticks < 50)
        assert!(!checker.check_stuck_entities(40));

        // Check at tick 65 - should be stuck (55 ticks >= 50)
        assert!(checker.check_stuck_entities(65));
        assert_eq!(checker.get_alerts().len(), 1);
        assert_eq!(checker.get_alerts()[0].alert_type, HealthAlert::EntitiesStuck);

        // Entity moves - should reset
        checker.update_entity_position(1, (11, 20), 70);
        checker.reset_action_counters();
        assert!(!checker.check_stuck_entities(100)); // Only 30 ticks have passed
    }

#[test]
fn test_population_crash_detection() {
        let mut checker = HealthChecker::default();

        // Start with 100 entities at tick 0
        checker.update_population(100, 0);

        // Add population at various ticks
        checker.update_population(90, 20);
        checker.update_population(80, 40);
        checker.update_population(50, 80); // 50% loss
        checker.update_population(45, 100); // Drops below 50% of original

        // Check at tick 100 - should detect crash
        assert!(checker.check_population_crash(100));
        assert_eq!(checker.get_alerts().len(), 1);
        assert_eq!(checker.get_alerts()[0].alert_type, HealthAlert::PopulationCrash);
    }

#[test]
fn test_ai_loop_detection() {
        let mut checker = HealthChecker::default();

        // Entity repeats same action
        for _ in 0..20 {
            checker.update_entity_action(1, "Attack".to_string());
        }

        // Should detect AI loop
        assert!(checker.check_ai_loops(100));
        assert_eq!(checker.get_alerts().len(), 1);
        assert_eq!(checker.get_alerts()[0].alert_type, HealthAlert::AiLoops);

        // After reset, should not detect loop
        checker.reset_action_counters();
        assert!(!checker.check_ai_loops(200));
    }

#[test]
fn test_get_latest_alert() {
        let mut checker = HealthChecker::default();

        checker.add_alert(HealthAlert::TpsBelow10, 10);
        checker.add_alert(HealthAlert::EntitiesStuck, 20);
        checker.add_alert(HealthAlert::TpsBelow10, 30);

        let latest = checker.get_latest_alert(HealthAlert::TpsBelow10).unwrap();
        assert_eq!(latest.tick, 30);

        let latest = checker.get_latest_alert(HealthAlert::PopulationCrash);
        assert!(latest.is_none());
    }

#[test]
fn test_count_alerts_in_window() {
        let mut checker = HealthChecker::default();

        checker.add_alert(HealthAlert::TpsBelow10, 10);
        checker.add_alert(HealthAlert::TpsBelow10, 20);
        checker.add_alert(HealthAlert::TpsBelow10, 30);
        checker.add_alert(HealthAlert::EntitiesStuck, 35);

        // Count in 30-tick window from tick 50
        let count = checker.count_alerts_in_window(HealthAlert::TpsBelow10, 30, 50);
        assert_eq!(count, 2); // Ticks 20 and 30 are within window

        let count = checker.count_alerts_in_window(HealthAlert::EntitiesStuck, 30, 50);
        assert_eq!(count, 1); // Tick 35 is within window
    }

#[test]
fn test_clear_alerts() {
        let mut checker = HealthChecker::default();

        checker.add_alert(HealthAlert::TpsBelow10, 10);
        checker.add_alert(HealthAlert::EntitiesStuck, 20);
        assert_eq!(checker.get_alerts().len(), 2);

        checker.clear_alerts();
        assert_eq!(checker.get_alerts().len(), 0);
    }

#[test]
fn test_get_alert_counts() {
        let mut checker = HealthChecker::default();

        checker.add_alert(HealthAlert::TpsBelow10, 10);
        checker.add_alert(HealthAlert::TpsBelow10, 20);
        checker.add_alert(HealthAlert::EntitiesStuck, 30);
        checker.add_alert(HealthAlert::PopulationCrash, 40);

        let counts = checker.get_alert_counts();
        assert_eq!(counts.get("tps_below_10"), Some(2));
        assert_eq!(counts.get("entities_stuck"), Some(1));
        assert_eq!(counts.get("population_crash"), Some(1));
        assert_eq!(counts.get("ai_loops"), None);
    }

#[test]
fn test_is_healthy() {
        let mut checker = HealthChecker::default();

        // Initially healthy
        assert!(checker.is_healthy());

        // Not healthy with TPS alert
        checker.add_alert(HealthAlert::TpsBelow10, 10);
        assert!(!checker.is_healthy());

        // Healthy with other alerts
        let mut checker2 = HealthChecker::default();
        checker2.add_alert(HealthAlert::EntitiesStuck, 10);
        assert!(checker2.is_healthy());
    }

#[test]
fn test_entity_health_state() {
        let state = EntityHealthState::new((10, 20), 5);
        assert_eq!(state.last_position, (10, 20));
        assert_eq!(state.last_position_update_tick, 5);
        assert_eq!(state.current_action, String::new());
        assert_eq!(state.action_repeat_count, 0);
    }


// ---------------------------------------------------------------------------
// Further cases of the library's own.
// ---------------------------------------------------------------------------

#[test]
fn population_history_skips_repeats_and_keeps_window() {
    let mut checker = HealthChecker::default();
    checker.update_population(10, 0);
    checker.update_population(10, 1);
    assert_eq!(checker.population_history_len(), 1);
    for i in 0..150u32 {
        checker.update_population(i + 11, i as u64 + 2);
    }
    // Trimmed to 100 before each addition, so at most 101 entries.
    assert_eq!(checker.population_history_len(), 101);
}

#[test]
fn crash_needs_two_entries_and_half_loss() {
    let mut checker = HealthChecker::default();
    assert!(!checker.check_population_crash(0));
    checker.update_population(100, 0);
    assert!(!checker.check_population_crash(0));
    checker.update_population(51, 10);
    assert!(!checker.check_population_crash(10));
    checker.update_population(50, 20);
    assert!(checker.check_population_crash(20));
    // Outside the window only newer entries count.
    let mut later = HealthChecker::default();
    later.update_population(100, 0);
    later.update_population(60, 150);
    later.update_population(40, 160);
    assert!(!later.check_population_crash(160));
}

#[test]
fn action_counts_restart_on_change() {
    let mut checker = HealthChecker::default();
    for _ in 0..19 {
        checker.update_entity_action(7, "Graze".to_string());
    }
    assert!(!checker.check_ai_loops(1));
    checker.update_entity_action(7, "Drink".to_string());
    for _ in 0..18 {
        checker.update_entity_action(7, "Drink".to_string());
    }
    assert!(!checker.check_ai_loops(2));
    checker.update_entity_action(7, "Drink".to_string());
    assert!(checker.check_ai_loops(3));
}

#[test]
fn cleanup_keeps_only_living() {
    let mut checker = HealthChecker::default();
    checker.update_entity_position(1, (0, 0), 0);
    checker.update_entity_position(2, (0, 0), 0);
    checker.update_entity_position(3, (0, 0), 0);
    let mut alive = HashSet::new();
    alive.insert(2u32);
    checker.cleanup_old_states(&alive);
    assert_eq!(checker.entity_state_count(), 1);
}

#[test]
fn recent_alerts_newest_first() {
    let mut checker = HealthChecker::default();
    checker.add_alert(HealthAlert::TpsBelow10, 1);
    checker.add_alert(HealthAlert::AiLoops, 2);
    checker.add_alert(HealthAlert::EntitiesStuck, 3);
    let recent = checker.recent_alerts(2);
    assert_eq!(recent.len(), 2);
    assert_eq!(recent[0].tick, 3);
    assert_eq!(recent[1].tick, 2);
    assert_eq!(checker.recent_alerts(10).len(), 3);
}

#[test]
fn unknown_count_key_is_absent() {
    let mut checker = HealthChecker::default();
    checker.add_alert(HealthAlert::AiLoops, 1);
    let counts = checker.get_alert_counts();
    assert_eq!(counts.get("ai_loops"), Some(1));
    assert_eq!(counts.get("nonsense"), None);
    assert_eq!(counts.ai_loops, 1);
}

#[test]
fn record_carries_type_and_tick() {
    let r: AlertRecord = AlertRecord::new(HealthAlert::AiLoops, 9);
    assert_eq!(r.alert_type, HealthAlert::AiLoops);
    assert_eq!(r.tick, 9);
}

#[test]
fn window_count_saturates_at_zero_age() {
    let mut checker = HealthChecker::default();
    checker.add_alert(HealthAlert::TpsBelow10, 100);
    // An alert from the future counts as age 0.
    assert_eq!(checker.count_alerts_in_window(HealthAlert::TpsBelow10, 0, 50), 1);
}

#[test]
fn test_mixed_alerts() {
        let mut checker = HealthChecker::default();

        // Simulate multiple failure conditions
        // TPS alert: the TPS check (floating point, kept in the program
        // around the library) records this alert for a TPS of 5.0 at tick 10.
        let tps = 5.0f64;
        if tps < 10.0 && tps > 0.0 {
            checker.add_alert(HealthAlert::TpsBelow10, 10);
        }
        checker.update_entity_position(1, (10, 20), 10);
        checker.check_stuck_entities(65); // Stuck alert

        // Population crash - need to be within 100 ticks
        checker.update_population(100, 10);
        checker.update_population(45, 70); // 55% loss in 60 ticks
        checker.check_population_crash(70); // Check within window

        checker.update_entity_action(2, "Loop".to_string());
        for _ in 0..20 {
            checker.update_entity_action(2, "Loop".to_string());
        }
        checker.check_ai_loops(200); // AI loop alert

        let alerts = checker.get_alerts();
        assert!(alerts.len() >= 3); // At least 3 alerts
        assert!(alerts.iter().any(|a| a.alert_type == HealthAlert::TpsBelow10));
        assert!(alerts.iter().any(|a| a.alert_type == HealthAlert::EntitiesStuck));
        assert!(alerts.iter().any(|a| a.alert_type == HealthAlert::PopulationCrash));
    }
