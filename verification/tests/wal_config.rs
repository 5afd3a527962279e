use dbprimkit::wal::config::TunableConfig;
use dbprimkit::wal::instance::WalInstance;

/// The configuration of a log, with what was saved of it before.
fn open(
    name: &str,
    saved: &mut Option<TunableConfig>,
    config: Option<TunableConfig>,
) -> WalInstance {
    let (inst, save) = WalInstance::new(name, *saved, config);
    if save {
        *saved = Some(inst.get_config());
    }
    inst
}

#[test]
fn test_wal_config_config() {
    let name = "test_wal_config_config_sync";
    let mut saved: Option<TunableConfig> = None;
    let mut inst = open(name, &mut saved, None);
    let mut cfg = inst.get_config();
    assert_eq!(TunableConfig::default(), cfg);
    cfg.bulk_flush_size = 320 * 1024;
    cfg.block_size = 128 * 1024;
    inst = open(name, &mut saved, Some(cfg));
    cfg = inst.get_config();
    assert_eq!(cfg.block_size, 64 * 1024); // expect not changed
    assert_eq!(cfg.bulk_flush_size, 512 * 1024); // expect changed and sanitized
    saved = None;
    cfg = TunableConfig::default();
    cfg.block_size = 32 * 1024;
    cfg.bulk_flush_size = 128 * 1024;
    inst = open(name, &mut saved, Some(cfg));
    cfg = inst.get_config();
    assert_eq!(cfg.block_size, 32 * 1024);
    assert_eq!(cfg.bulk_flush_size, 128 * 1024);
}

fn sanitized(block_size: u32, bulk_flush_size: u32) -> (u32, u32) {
    let mut c = TunableConfig { block_size, bulk_flush_size, ..TunableConfig::default() };
    c.sanitize();
    let mut again = c;
    again.sanitize();
    assert_eq!(c, again);
    assert_eq!(c.bulk_flush_size % c.block_size, 0);
    (c.block_size, c.bulk_flush_size)
}

#[test]
fn sizes_are_sanitized() {
    assert_eq!(sanitized(0, 0), (4096, 4096));
    assert_eq!(sanitized(4096, 4096), (4096, 4096));
    assert_eq!(sanitized(4097, 4096), (8192, 8192));
    assert_eq!(sanitized(5000, 20000), (8192, 32768));
    assert_eq!(sanitized(262144, 262145), (262144, 524288));
    assert_eq!(sanitized(262145, 1), (262144, 262144));
    assert_eq!(sanitized(u32::MAX, u32::MAX), (262144, 1048576));
    assert_eq!(sanitized(4096, 1048577), (4096, 1048576));
    assert_eq!(sanitized(65536, 3 * 65536), (65536, 262144));
}

#[test]
fn configuration_is_saved_when_it_changes() {
    let default = TunableConfig::default();
    let (inst, save) = WalInstance::new("log", Some(default), None);
    assert!(!save);
    assert_eq!(inst.get_config(), default);
    let (_, save) = WalInstance::new("log", Some(default), Some(default));
    assert!(!save);
    let asked = TunableConfig { max_log_entry_size: 7, ..default };
    let (inst, save) = WalInstance::new("log", Some(default), Some(asked));
    assert!(save);
    assert_eq!(inst.get_config(), asked);
    assert_eq!(WalInstance::config_file("log"), "log.cfg");
    let d = TunableConfig::from_opt(None);
    assert_eq!(d.ringbuf_size_order, 8);
    assert_eq!(d.max_data_rot_size, 32 * 1024 * 1024);
    assert_eq!(d.max_log_entry_size, 1024 * 1024);
    assert_eq!(d.block_size, 64 * 1024);
    assert_eq!(d.bulk_flush_size, 256 * 1024);
    assert_eq!(d.checks_bef_flush_log, 5);
    assert_eq!(d.checks_bef_flush_adv_lsn, 0);
}

#[test]
fn sizes_that_can_be_used() {
    let config = TunableConfig::default();
    assert!(config.is_usable());
    assert!(TunableConfig { block_size: 1024, ..config }.is_usable());
    assert!(!TunableConfig { block_size: 52, bulk_flush_size: 104, ..config }.is_usable());
    assert!(!TunableConfig { bulk_flush_size: 0, ..config }.is_usable());
    assert!(!TunableConfig { bulk_flush_size: 100000, ..config }.is_usable());
}
