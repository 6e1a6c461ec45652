use exo_engine::device_selection::{choose_physical_device, select_queue_families, QueueCaps, QueueKind};

fn caps(graphics: bool, compute: bool, transfer: bool) -> QueueCaps {
    QueueCaps { graphics, compute, transfer }
}

#[test]
fn discrete_gpu_is_preferred() {
    assert_eq!(choose_physical_device(&[false, true, true]), 1);
    assert_eq!(choose_physical_device(&[false, false]), 0);
    assert_eq!(choose_physical_device(&[true]), 0);
}

#[test]
fn queue_families_dedicated_first() {
    let families = [
        caps(true, true, true),
        caps(false, true, true),
        caps(true, false, false),
        caps(false, false, true),
        caps(false, true, false),
    ];
    assert_eq!(select_queue_families(&families), Ok((0, 1, 3)));
}

#[test]
fn missing_queue_kinds_are_reported_in_order() {
    assert_eq!(select_queue_families(&[]), Err(QueueKind::Graphics));
    assert_eq!(select_queue_families(&[caps(false, true, true)]), Err(QueueKind::Graphics));
    assert_eq!(select_queue_families(&[caps(true, true, true)]), Err(QueueKind::Compute));
    assert_eq!(
        select_queue_families(&[caps(true, true, true), caps(false, true, true)]),
        Err(QueueKind::Transfer)
    );
}
