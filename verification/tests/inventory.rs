//! Inventory ticks: probing, caching, replaying and retrying.

use std::collections::HashSet;
use std::sync::Arc;

use openlogi::channel_cache::ChannelCache;
use openlogi::device::{
    BatteryInfo, BatteryLevel, BatteryStatus, DeviceInventory, DeviceKind, DeviceModelInfo,
    DeviceTransports, PairedDevice, ReceiverInfo,
};
use openlogi::inventory::{
    one_shot_should_stop, settle_unhealthy_node, Enumerator, NodeStep, OneShot, OneShotStep,
    OpenOutcome, PreparedNodes, RegistryAction, ONESHOT_ATTEMPTS, ONESHOT_RETRY_DELAY,
};
use openlogi::node_ledger::NodeLedger;
use openlogi::node_set::retained_nodes;
use openlogi::probe::{
    assemble_bolt_probe, backfill_identity, is_stale, parse_codename_unifying,
    preferred_direct_codename, probe_budget, BatteryProbe, CacheKey, CacheOutcome, Cached,
    NodeProbe, ProbedFeatures, PROBE_BUDGET, RECEIVER_PROBE_BUDGET, REFRESH_TICKS,
};
use openlogi::probe_cache::{
    readable_entries, ProbeCache, CACHE_FILE_VERSION, CACHE_MISS_GRACE,
};
use openlogi::route::{routes_for_inventories, DeviceRoute, DIRECT_DEVICE_INDEX};

fn cache_entry(probed_tick: u64) -> Cached {
    Cached {
        probe: ProbedFeatures::default(),
        battery: None,
        probed_tick,
    }
}

#[test]
fn direct_codename_prefers_hidpp_marketing_name_over_generic_os_name() {
    assert_eq!(
        preferred_direct_codename(Some("Wireless Mouse MX Master 2S"), "Mouse"),
        "Wireless Mouse MX Master 2S"
    );
    assert_eq!(preferred_direct_codename(None, "Mouse"), "Mouse");
}

#[test]
fn cache_dirty_tracks_only_persistable_keys() {
    let mut cache = ProbeCache::default();
    let unifying = CacheKey::UnifyingSlot {
        receiver_uid: "DA2699E1".into(),
        slot: 1,
    };
    cache.apply_outcomes(vec![CacheOutcome::Fresh(unifying.clone(), cache_entry(0))]);
    assert!(
        !cache.needs_flush(),
        "non-persistable fresh probe dirtied the cache"
    );

    for _ in 0..=CACHE_MISS_GRACE {
        cache.evict_unseen(&[]);
    }
    assert!(!cache.contains_key(&unifying), "entry should be evicted");
    assert!(
        !cache.needs_flush(),
        "non-persistable eviction dirtied the cache"
    );

    let bolt = CacheKey::Bolt {
        unit_id: [1, 2, 3, 4],
    };
    cache.apply_outcomes(vec![CacheOutcome::Fresh(bolt, cache_entry(0))]);
    assert!(
        cache.needs_flush(),
        "persistable fresh probe must dirty the cache"
    );
}

#[test]
fn cache_entry_survives_grace_then_evicts() {
    let mut cache = ProbeCache::default();
    let key = CacheKey::Bolt {
        unit_id: [1, 2, 3, 4],
    };
    cache.store(key.clone(), cache_entry(0));
    for _ in 0..CACHE_MISS_GRACE {
        cache.evict_unseen(&[]);
        assert!(cache.contains_key(&key), "evicted inside the grace window");
    }
    cache.evict_unseen(&[]);
    assert!(
        !cache.contains_key(&key),
        "should evict past the grace window"
    );
}

#[test]
fn being_seen_resets_the_miss_counter() {
    let mut cache = ProbeCache::default();
    let key = CacheKey::Bolt { unit_id: [9; 4] };
    cache.store(key.clone(), cache_entry(0));
    let seen = [key.clone()];
    cache.evict_unseen(&[]);
    cache.evict_unseen(&seen);
    for _ in 0..CACHE_MISS_GRACE {
        cache.evict_unseen(&[]);
    }
    assert!(
        cache.contains_key(&key),
        "counter reset by a sighting, so still within grace"
    );
}

#[test]
fn cached_probe_is_reused_until_refresh_ticks() {
    let cached = Cached {
        probe: ProbedFeatures::default(),
        battery: None,
        probed_tick: 10,
    };
    assert!(!is_stale(&cached, 10), "same tick is fresh");
    assert!(
        !is_stale(&cached, 10 + REFRESH_TICKS - 1),
        "just under the window is still fresh"
    );
    assert!(
        is_stale(&cached, 10 + REFRESH_TICKS),
        "at the window the probe is refreshed"
    );
}

fn inventory(slots: &[u8]) -> Vec<DeviceInventory> {
    vec![DeviceInventory {
        receiver: ReceiverInfo {
            name: "Unifying Receiver".to_string(),
            vendor_id: 0x046d,
            product_id: 0xc52b,
            unique_id: Some("receiver-1".to_string()),
        },
        paired: slots
            .iter()
            .copied()
            .map(|slot| PairedDevice {
                slot,
                codename: Some(format!("device-{slot}")),
                wpid: Some(0xb000 + u16::from(slot)),
                kind: DeviceKind::Mouse,
                online: true,
                battery: None,
                model_info: None,
                capabilities: None,
            })
            .collect(),
    }]
}

fn unifying_route(slot: u8) -> DeviceRoute {
    DeviceRoute::Unifying {
        receiver_uid: "receiver-1".into(),
        slot,
    }
}

#[test]
fn settled_inventories_publish_exact_receiver_routes() {
    assert_eq!(
        routes_for_inventories(&inventory(&[1, 4])),
        vec![unifying_route(1), unifying_route(4)]
    );

    assert_eq!(
        routes_for_inventories(&inventory(&[4])),
        vec![unifying_route(4)],
        "a vanished slot must not survive the next atomic node replacement"
    );
}

#[test]
fn settled_direct_inventory_publishes_one_direct_route() {
    let direct = vec![DeviceInventory {
        receiver: ReceiverInfo {
            name: "MX Keys".into(),
            vendor_id: 0x046d,
            product_id: 0xb35b,
            unique_id: None,
        },
        paired: vec![PairedDevice {
            slot: DIRECT_DEVICE_INDEX,
            codename: Some("MX Keys".into()),
            wpid: Some(0xb35b),
            kind: DeviceKind::Keyboard,
            online: true,
            battery: None,
            model_info: None,
            capabilities: None,
        }],
    }];

    assert_eq!(
        routes_for_inventories(&direct),
        vec![DeviceRoute::Direct {
            vendor_id: 0x046d,
            product_id: 0xb35b,
        }]
    );
}

#[test]
fn channel_cache_retires_and_defers_reopen_until_a_later_tick() {
    let mut cache = ChannelCache::<Arc<()>>::default();
    let channel = Arc::new(());
    cache.insert(1, Arc::clone(&channel));

    assert!(cache.retire_node(&1).is_some());
    assert!(cache.get(&1).is_none());
    assert!(!cache.prepare_open(&1, |channel| Arc::strong_count(channel) == 1));

    drop(channel);
    assert!(cache.is_retiring(&1));
    assert!(
        !cache.prepare_open(&1, |channel| Arc::strong_count(channel) == 1),
        "the tick that drops retirement still skips opening"
    );
    assert!(!cache.is_retiring(&1));
    assert!(
        cache.prepare_open(&1, |channel| Arc::strong_count(channel) == 1),
        "only a later tick may reopen"
    );
}

#[test]
fn absent_channels_retire_and_quiescent_absent_retirement_is_reaped() {
    let mut cache = ChannelCache::<Arc<()>>::default();
    cache.insert(1, Arc::new(()));
    cache.insert(2, Arc::new(()));

    let mut retired = 0;
    cache.retire_absent(&HashSet::from([2]), |_| retired += 1);
    assert_eq!(retired, 1, "the retire hook fires once per retired channel");
    assert!(cache.is_retiring(&1));
    assert!(cache.get(&2).is_some());

    cache.reap_absent(&HashSet::from([2]), |channel| {
        Arc::strong_count(channel) == 1
    });
    assert!(!cache.is_retiring(&1));
}

#[test]
fn retiring_node_replays_ledger_and_marks_tick_unhealthy() {
    let mut ledger = NodeLedger::default();
    let expected = inventory(&[1]);
    let settled = ledger.settle(1, true, Some(expected[0].clone()));
    assert_eq!(settled.inventory, Some(expected[0].clone()));

    let mut complete = true;
    let mut healthy = true;
    let replay = settle_unhealthy_node(&mut ledger, 1, &mut complete, &mut healthy);

    assert_eq!(replay, Some(expected[0].clone()));
    assert!(!complete);
    assert!(!healthy);
}

#[test]
fn retiring_node_inventory_expires_after_the_existing_ledger_grace() {
    let mut ledger = NodeLedger::default();
    let expected = inventory(&[1]);
    ledger.settle(1, true, Some(expected[0].clone()));

    let mut complete = true;
    let mut healthy = true;
    for _ in 0..3 {
        assert_eq!(
            settle_unhealthy_node(&mut ledger, 1, &mut complete, &mut healthy),
            Some(expected[0].clone())
        );
    }
    assert_eq!(
        settle_unhealthy_node(&mut ledger, 1, &mut complete, &mut healthy),
        None,
        "retirement must not extend stale inventory beyond ledger policy"
    );
}

#[test]
fn one_shot_retry_stops_when_first_attempt_is_complete() {
    let current = inventory(&[1, 2]);

    assert!(
        one_shot_should_stop(None, &current, true, true, 1),
        "complete inventories keep the one-pass happy path"
    );
}

#[test]
fn one_shot_retry_waits_for_healthy_incomplete_inventory_to_stabilize() {
    let partial = inventory(&[1]);
    let full = inventory(&[1, 2]);

    assert!(
        !one_shot_should_stop(None, &partial, false, true, 1),
        "the first incomplete pass has no previous inventory to compare"
    );
    assert!(
        !one_shot_should_stop(Some(partial.as_slice()), &full, false, true, 2),
        "a changed inventory should get another retry window"
    );
    assert!(
        one_shot_should_stop(Some(full.as_slice()), &full, false, true, 3),
        "once the returned inventory stabilizes, retrying stops"
    );
}

#[test]
fn one_shot_retry_stops_on_unchanged_incomplete_inventory() {
    let partial = inventory(&[1]);

    assert!(
        one_shot_should_stop(Some(partial.as_slice()), &partial, false, true, 2),
        "stable partial inventories should not burn every retry attempt"
    );
}

#[test]
fn one_shot_retry_keeps_unchanged_inventory_after_unhealthy_probe() {
    let partial = inventory(&[1]);

    assert!(
        !one_shot_should_stop(Some(partial.as_slice()), &partial, false, false, 2),
        "unchanged replay after a failed probe must keep retrying before the cap"
    );
}

#[test]
fn one_shot_retry_stops_at_attempt_cap_when_inventory_keeps_changing() {
    let previous = inventory(&[1]);
    let current = inventory(&[1, 2]);

    assert!(
        one_shot_should_stop(
            Some(previous.as_slice()),
            &current,
            false,
            false,
            ONESHOT_ATTEMPTS
        ),
        "the retry loop must remain bounded even if the inventory changes every time"
    );
}

fn bolt_receiver_info() -> ReceiverInfo {
    ReceiverInfo {
        name: "Logi Bolt Receiver".to_string(),
        vendor_id: 0x046d,
        product_id: 0xc548,
        unique_id: Some("bolt-1".to_string()),
    }
}

fn bolt_slot(slot: u8) -> (PairedDevice, CacheOutcome) {
    (
        PairedDevice {
            slot,
            codename: Some(format!("device-{slot}")),
            wpid: None,
            kind: DeviceKind::Mouse,
            online: true,
            battery: None,
            model_info: None,
            capabilities: None,
        },
        CacheOutcome::Seen(CacheKey::Bolt {
            unit_id: [0, 0, 0, slot],
        }),
    )
}

fn paired_slots(probe: &NodeProbe) -> Vec<u8> {
    let Some(inventory) = probe.inventory.as_ref() else {
        panic!("expected an inventory");
    };
    inventory.paired.iter().map(|d| d.slot).collect()
}

#[test]
fn bolt_probe_is_complete_when_count_matches_readable_slots() {
    let probe = assemble_bolt_probe(
        bolt_receiver_info(),
        Some(2),
        vec![bolt_slot(1), bolt_slot(2)],
    );
    assert!(probe.complete, "count matches the readable slots");
    assert!(probe.healthy, "a complete Bolt walk is authoritative");
    assert_eq!(paired_slots(&probe), vec![1, 2], "slots surface in order");
    assert_eq!(
        probe.outcomes.len(),
        2,
        "one cache outcome per readable slot"
    );
}

#[test]
fn bolt_probe_is_incomplete_when_a_counted_slot_is_unreadable() {
    let probe = assemble_bolt_probe(bolt_receiver_info(), Some(2), vec![bolt_slot(1)]);
    assert_eq!(
        paired_slots(&probe),
        vec![1],
        "only the readable slot surfaces"
    );
    assert!(!probe.complete, "a count shortfall is not complete");
    assert!(
        !probe.healthy,
        "an incomplete Bolt walk is not authoritative"
    );
}

#[test]
fn bolt_probe_is_incomplete_when_the_count_register_is_unanswered() {
    let probe = assemble_bolt_probe(bolt_receiver_info(), None, vec![bolt_slot(1), bolt_slot(2)]);
    assert_eq!(paired_slots(&probe), vec![1, 2]);
    assert!(
        !probe.complete,
        "no count register means we couldn't fully check"
    );
    assert!(!probe.healthy);
}

fn model(unit_id: [u8; 4], serial: Option<&str>) -> DeviceModelInfo {
    DeviceModelInfo {
        entity_count: 1,
        serial_number: serial.map(str::to_string),
        unit_id,
        transports: DeviceTransports::default(),
        model_ids: [0xc09d, 0, 0],
        extended_model_id: 1,
    }
}

fn probed(model_info: Option<DeviceModelInfo>, identity_incomplete: bool) -> ProbedFeatures {
    ProbedFeatures {
        model_info,
        identity_incomplete,
        kind: Some(DeviceKind::Mouse),
        ..ProbedFeatures::default()
    }
}

#[test]
fn failed_device_info_read_backfills_from_cache() {
    let mut fresh = probed(None, true);
    let cached = probed(Some(model([0x46, 0, 0x2e, 0], None)), false);

    backfill_identity(&mut fresh, &cached);

    assert_eq!(fresh.model_info, cached.model_info);
    assert!(
        !fresh.identity_incomplete,
        "a backfilled identity is complete and may be cached"
    );
}

#[test]
fn failed_serial_read_backfills_only_the_serial() {
    let mut fresh = probed(Some(model([1, 2, 3, 4], None)), true);
    let cached = probed(Some(model([9, 9, 9, 9], Some("abc123"))), false);

    backfill_identity(&mut fresh, &cached);

    let Some(info) = fresh.model_info else {
        panic!("model info kept");
    };
    assert_eq!(info.serial_number.as_deref(), Some("abc123"));
    assert_eq!(info.unit_id, [1, 2, 3, 4], "fresh unit id wins");
    assert!(!fresh.identity_incomplete);
}

#[test]
fn complete_probe_is_never_overwritten_by_cache() {
    let mut fresh = probed(Some(model([1, 2, 3, 4], None)), false);
    let cached = probed(Some(model([9, 9, 9, 9], Some("stale"))), false);

    backfill_identity(&mut fresh, &cached);

    let Some(info) = fresh.model_info else {
        panic!("model info kept");
    };
    assert_eq!(info.unit_id, [1, 2, 3, 4]);
    assert!(
        info.serial_number.is_none(),
        "no serial was read, none faked"
    );
}

#[test]
fn incomplete_probe_without_cached_identity_stays_incomplete() {
    let mut fresh = probed(None, true);
    let cached = probed(None, false);

    backfill_identity(&mut fresh, &cached);

    assert!(
        fresh.identity_incomplete,
        "nothing to backfill from — the caller must not memoize this probe"
    );
}

#[test]
fn failed_kind_read_is_carried_forward() {
    let mut fresh = ProbedFeatures::default();
    let cached = probed(None, false);

    backfill_identity(&mut fresh, &cached);

    assert_eq!(fresh.kind, Some(DeviceKind::Mouse));
}

#[test]
fn codename_reads_len_prefixed_name() {
    let mut buf = vec![0x40, 0x0c];
    buf.extend_from_slice(b"MX Master 2S");
    buf.extend_from_slice(&[0u8; 2]);
    assert_eq!(
        parse_codename_unifying(&buf).as_deref(),
        Some("MX Master 2S")
    );
}

#[test]
fn codename_clamps_overlong_len() {
    let buf = [0x40, 0xff, b'h', b'i'];
    assert_eq!(parse_codename_unifying(&buf).as_deref(), Some("hi"));
}

#[test]
fn codename_rejects_short_response() {
    assert_eq!(parse_codename_unifying(&[0x40]), None);
}

#[test]
fn live_cached_channel_survives_a_transient_enumeration_gap() {
    let enumerated = HashSet::from([1_u64]);
    let cached_channels = [(1_u64, true), (2_u64, true), (3_u64, false)];
    let retained = retained_nodes(&enumerated, &cached_channels);
    assert!(retained.contains(&1));
    assert!(retained.contains(&2));
    assert!(!retained.contains(&3));
    assert_eq!(retained, HashSet::from([1, 2]));
}

#[test]
fn probe_cache_roundtrips_through_disk() {
    let model = DeviceModelInfo {
        entity_count: 1,
        serial_number: Some("TESTSERIAL01".into()),
        unit_id: [0xaa, 0xbb, 0xcc, 0xdd],
        transports: DeviceTransports::default(),
        model_ids: [0xb042, 0, 0],
        extended_model_id: 0,
    };
    let probe = ProbedFeatures {
        model_info: Some(model.clone()),
        battery: Some(BatteryInfo {
            percentage: 55,
            level: BatteryLevel::Good,
            status: BatteryStatus::Discharging,
        }),
        ..Default::default()
    };
    let mut cache = ProbeCache::default();
    cache.store(
        CacheKey::Bolt {
            unit_id: [0xaa, 0xbb, 0xcc, 0xdd],
        },
        Cached {
            probe,
            battery: Some(BatteryProbe::Unified(9)),
            probed_tick: 7,
        },
    );
    cache.store(
        CacheKey::UnifyingSlot {
            receiver_uid: "DA2699E1".into(),
            slot: 2,
        },
        Cached {
            probe: ProbedFeatures::default(),
            battery: None,
            probed_tick: 3,
        },
    );

    let mut loaded = ProbeCache::default();
    loaded.warm_start(cache.durable_entries());

    let bolt = loaded
        .get(&CacheKey::Bolt {
            unit_id: [0xaa, 0xbb, 0xcc, 0xdd],
        })
        .expect("bolt entry survives a save/load cycle");
    assert_eq!(bolt.probe.model_info.as_ref(), Some(&model));
    assert_eq!(bolt.battery, Some(BatteryProbe::Unified(9)));
    assert!(
        bolt.probe.battery.is_none(),
        "the volatile battery reading must not be resurrected across restarts"
    );
    assert_eq!(
        bolt.probed_tick, 0,
        "loaded entries restart the refresh clock"
    );
    assert!(!loaded.contains_key(&CacheKey::UnifyingSlot {
        receiver_uid: "DA2699E1".into(),
        slot: 2,
    }));
}

#[test]
fn codename_must_be_text() {
    assert_eq!(parse_codename_unifying(&[0x40, 2, 0xff, 0xfe]), None);
    assert_eq!(
        parse_codename_unifying(&[0x40, 2, 0xc3, 0xa9, b'x']).as_deref(),
        Some("é")
    );
    assert_eq!(parse_codename_unifying(&[0x40, 0]).as_deref(), Some(""));
}

#[test]
fn a_tick_counter_may_wrap() {
    let cached = cache_entry(u64::MAX - 9);
    assert!(!is_stale(&cached, REFRESH_TICKS - 11));
    assert!(is_stale(&cached, REFRESH_TICKS - 10));
}

#[test]
fn receivers_are_probed_on_the_tight_budget() {
    assert_eq!(probe_budget(0xc548), RECEIVER_PROBE_BUDGET);
    assert_eq!(probe_budget(0xc52b), RECEIVER_PROBE_BUDGET);
    assert_eq!(probe_budget(0xb35b), PROBE_BUDGET);
    assert_eq!(RECEIVER_PROBE_BUDGET, 13_000_000_000);
    assert_eq!(PROBE_BUDGET, 25_000_000_000);
}

type Channel = Arc<bool>;

fn quiet(channel: &Channel) -> bool {
    Arc::strong_count(channel) == 1
}

fn open(enumerator: &mut Enumerator<Channel>, nodes: &[u64]) -> PreparedNodes {
    let mut prepared = PreparedNodes::default();
    for node in nodes {
        if enumerator.prepare_node(&mut prepared, *node, quiet) == NodeStep::Open {
            enumerator.node_opened(
                &mut prepared,
                *node,
                OpenOutcome::Opened(Arc::new(true)),
            );
        }
    }
    enumerator.settle_seen(&mut prepared, |channel| **channel);
    enumerator.retire_unlisted(&prepared, quiet);
    prepared
}

fn good_probe() -> NodeProbe {
    NodeProbe {
        inventory: Some(inventory(&[1])[0].clone()),
        complete: true,
        healthy: true,
        outcomes: vec![CacheOutcome::Seen(CacheKey::UnifyingSlot {
            receiver_uid: "receiver-1".into(),
            slot: 1,
        })],
    }
}

#[test]
fn a_healthy_tick_reports_and_publishes() {
    let mut enumerator = Enumerator::<Channel>::with_registry();
    assert_eq!(enumerator.begin_tick(), 1);
    let prepared = open(&mut enumerator, &[7]);
    assert_eq!(prepared.active, vec![7]);
    let report = enumerator.settle_tick(
        vec![(7, Some(good_probe()))],
        prepared.retiring,
        prepared.open_failures,
    );
    assert!(report.all_complete && report.all_healthy);
    assert_eq!(report.inventories, inventory(&[1]));
    assert_eq!(
        report.actions,
        vec![RegistryAction::ReplaceNode {
            node: 7,
            routes: vec![unifying_route(1)]
        }]
    );
    assert!(enumerator.channels.get(&7).is_some());
}

#[test]
fn a_timed_out_node_is_replayed_withdrawn_and_reopened_two_ticks_on() {
    let mut enumerator = Enumerator::<Channel>::with_registry();
    open(&mut enumerator, &[7]);
    enumerator.settle_tick(vec![(7, Some(good_probe()))], vec![], vec![]);

    let prepared = open(&mut enumerator, &[7]);
    assert_eq!(prepared.active, vec![7], "the open channel is reused");
    let report = enumerator.settle_tick(vec![(7, None)], vec![], vec![]);
    assert!(!report.all_complete && !report.all_healthy);
    assert_eq!(report.inventories, inventory(&[1]), "replayed");
    assert_eq!(report.actions, vec![RegistryAction::RemoveNode { node: 7 }]);
    assert!(enumerator.channels.is_retiring(&7));

    let prepared = open(&mut enumerator, &[7]);
    assert_eq!(prepared.retiring, vec![7]);
    assert_eq!(prepared.active, Vec::<u64>::new());
    let report = enumerator.settle_tick(vec![], prepared.retiring, prepared.open_failures);
    assert_eq!(report.inventories, inventory(&[1]), "replayed again");
    assert!(!report.all_healthy);

    let prepared = open(&mut enumerator, &[7]);
    assert_eq!(prepared.active, vec![7], "opened anew");
}

#[test]
fn a_node_that_will_not_open_is_reported_unhealthy() {
    let mut enumerator = Enumerator::<Channel>::default();
    let mut prepared = PreparedNodes::default();
    assert_eq!(
        enumerator.prepare_node(&mut prepared, 3, quiet),
        NodeStep::Open
    );
    enumerator.node_opened(&mut prepared, 3, OpenOutcome::Failed);
    assert_eq!(
        enumerator.prepare_node(&mut prepared, 4, quiet),
        NodeStep::Open
    );
    enumerator.node_opened(&mut prepared, 4, OpenOutcome::NotHidpp);
    enumerator.settle_seen(&mut prepared, |channel| **channel);
    enumerator.retire_unlisted(&prepared, quiet);
    assert_eq!(prepared.open_failures, vec![3]);
    assert_eq!(prepared.seen, HashSet::from([3, 4]));
    let report = enumerator.settle_tick(vec![], prepared.retiring, prepared.open_failures);
    assert!(!report.all_complete && !report.all_healthy);
    assert_eq!(report.inventories, vec![]);
    assert_eq!(report.actions, vec![], "nothing is published without a registry");
}

#[test]
fn an_unlisted_live_channel_is_probed_and_a_dead_one_retires() {
    let mut enumerator = Enumerator::<Channel>::default();
    open(&mut enumerator, &[1]);
    let dead = Arc::new(false);
    enumerator.channels.insert(2, Arc::clone(&dead));
    let prepared = open(&mut enumerator, &[]);
    assert_eq!(prepared.active, vec![1]);
    assert_eq!(prepared.seen, HashSet::from([1]));
    assert!(enumerator.channels.get(&2).is_none());
    assert!(enumerator.channels.is_retiring(&2), "somebody still owns it");
    drop(dead);
    open(&mut enumerator, &[]);
    assert!(!enumerator.channels.is_retiring(&2));
}

#[test]
fn a_node_that_keeps_failing_loses_its_channel() {
    let mut enumerator = Enumerator::<Channel>::default();
    open(&mut enumerator, &[7]);
    enumerator.settle_tick(vec![(7, Some(NodeProbe::failed()))], vec![], vec![]);
    assert!(enumerator.channels.get(&7).is_some());
    enumerator.settle_tick(vec![(7, Some(NodeProbe::failed()))], vec![], vec![]);
    assert!(enumerator.channels.get(&7).is_none());
    assert!(enumerator.channels.is_retiring(&7));
}

#[test]
fn a_cache_on_disk_is_written_when_it_changed() {
    let bolt = || CacheKey::Bolt {
        unit_id: [1, 2, 3, 4],
    };
    let mut enumerator = Enumerator::<Channel>::default().persisted(Some(vec![]));
    let fresh = NodeProbe {
        outcomes: vec![CacheOutcome::Fresh(bolt(), cache_entry(1))],
        ..good_probe()
    };
    enumerator.settle_tick(vec![(7, Some(fresh))], vec![], vec![]);
    assert!(enumerator.needs_flush());
    enumerator.probes.flushed();
    assert!(!enumerator.needs_flush());
    let update = NodeProbe {
        outcomes: vec![CacheOutcome::Update(bolt(), cache_entry(2))],
        ..good_probe()
    };
    enumerator.settle_tick(vec![(7, Some(update))], vec![], vec![]);
    assert!(!enumerator.needs_flush(), "a battery reading is not written");
    assert_eq!(
        enumerator.probes.get(&bolt()).map(|cached| cached.probed_tick),
        Some(2)
    );

    let mut in_memory = Enumerator::<Channel>::default().persisted(None);
    let fresh = NodeProbe {
        outcomes: vec![CacheOutcome::Fresh(bolt(), cache_entry(1))],
        ..good_probe()
    };
    in_memory.settle_tick(vec![(7, Some(fresh))], vec![], vec![]);
    assert!(!in_memory.needs_flush());
}

#[test]
fn a_one_shot_inventory_is_bounded() {
    let mut one_shot = OneShot::new();
    for _ in 1..ONESHOT_ATTEMPTS {
        assert_eq!(
            one_shot.observe(inventory(&[1]), false, false),
            OneShotStep::RetryAfter(ONESHOT_RETRY_DELAY)
        );
    }
    assert_eq!(
        one_shot.observe(inventory(&[1, 2]), false, false),
        OneShotStep::Done(inventory(&[1, 2]))
    );
}

#[test]
fn a_one_shot_inventory_settles_on_two_healthy_reads() {
    let mut one_shot = OneShot::new();
    one_shot.observe(inventory(&[1]), false, false);
    assert_eq!(
        one_shot.observe(inventory(&[1]), false, true),
        OneShotStep::RetryAfter(ONESHOT_RETRY_DELAY),
        "the unhealthy read before it is no evidence"
    );
    assert_eq!(
        one_shot.observe(inventory(&[1]), false, true),
        OneShotStep::Done(inventory(&[1]))
    );
}

#[test]
fn cache_file_of_another_version_holds_nothing() {
    let entry = || {
        vec![(
            CacheKey::Bolt { unit_id: [1, 2, 3, 4] },
            Cached {
                probe: ProbedFeatures::default(),
                battery: None,
                probed_tick: 5,
            },
        )]
    };
    assert_eq!(readable_entries(999, entry()), vec![]);
    assert_eq!(readable_entries(CACHE_FILE_VERSION, entry()), entry());
}

#[test]
fn a_withdrawn_channel_is_dropped_in_the_same_tick() {
    let mut enumerator = Enumerator::<Channel>::with_registry();
    let channel = Arc::new(false);
    enumerator.channels.insert(7, Arc::clone(&channel));
    let mut published = vec![(7, channel)];

    let mut prepared = PreparedNodes::default();
    assert!(enumerator.settle_seen(&mut prepared, |channel| **channel));
    assert_eq!(prepared.seen, HashSet::new());
    assert!(enumerator.channels.get(&7).is_some(), "nothing is given up yet");
    published.retain(|(node, _)| prepared.seen.contains(node));
    enumerator.retire_unlisted(&prepared, quiet);
    assert!(enumerator.channels.get(&7).is_none());
    assert!(!enumerator.channels.is_retiring(&7), "nobody owned it any more");

    let mut prepared = PreparedNodes::default();
    assert!(!Enumerator::<Channel>::default().settle_seen(&mut prepared, |channel| **channel));
}
