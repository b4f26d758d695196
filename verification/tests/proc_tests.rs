use rdf5d::procstatus::{parse_kib_value, parse_proc_status, ProcMemory};

#[test]
fn parses_proc_status_rss_and_hwm() {
    let status = b"Name:\ttest\nVmRSS:\t   1234 kB\nVmHWM:\t5678 kB\n";
    let mem = parse_proc_status(status);
    assert_eq!(
        mem,
        ProcMemory {
            rss_bytes: 1234 * 1024,
            hwm_bytes: 5678 * 1024,
        }
    );
}

#[test]
fn missing_proc_status_fields_default_to_zero() {
    let mem = parse_proc_status(b"Name:\ttest\nVmSize:\t42 kB\n");
    assert_eq!(mem, ProcMemory::default());
}

#[test]
fn kib_values() {
    assert_eq!(parse_kib_value("VmRSS:  12 kB", "VmRSS:"), Some(12 * 1024));
    assert_eq!(parse_kib_value("VmRSS:+7", "VmRSS:"), Some(7 * 1024));
    assert_eq!(parse_kib_value("VmRSS:", "VmRSS:"), None);
    assert_eq!(parse_kib_value("VmRSS: x", "VmRSS:"), None);
    assert_eq!(parse_kib_value("VmHWM: 1", "VmRSS:"), None);
    assert_eq!(parse_kib_value("VmRSS: 99999999999999999999", "VmRSS:"), None);
    assert_eq!(parse_kib_value("VmRSS: 18446744073709551615", "VmRSS:"), Some(u64::MAX));
}

#[test]
fn later_lines_win_and_crlf_is_stripped() {
    let mem = parse_proc_status(b"VmRSS: 1 kB\r\nVmRSS: 2 kB\r\nVmHWM:\t3\n");
    assert_eq!(mem, ProcMemory { rss_bytes: 2048, hwm_bytes: 3072 });
}
