use soma::system::{
    parse_free_vram_mb, parse_gpu_info, parse_meminfo_total_mb, parse_sysctl_total_mb, parse_wmic_total_mb,
};
use soma::GpuInfo;

#[test]
fn gpu_line_is_read() {
    let g = parse_gpu_info("NVIDIA GeForce MX450, 1800, 2048\n").unwrap();
    assert_eq!(
        g,
        GpuInfo { name: "NVIDIA GeForce MX450".to_string(), free_vram_mb: 1800, total_vram_mb: 2048 }
    );
}

#[test]
fn gpu_output_with_too_few_fields_is_refused() {
    assert_eq!(parse_gpu_info("GPU, 12\n"), None);
    assert_eq!(parse_gpu_info(""), None);
    assert_eq!(parse_gpu_info("GPU, x, 12"), None);
}

#[test]
fn gpu_uses_first_line_only() {
    let g = parse_gpu_info("A, 1, 2\r\nB, 3, 4\n").unwrap();
    assert_eq!(g.name, "A");
    assert_eq!(g.total_vram_mb, 2);
}

#[test]
fn free_vram_is_read_from_first_line() {
    assert_eq!(parse_free_vram_mb(" 4096 \n512\n"), Some(4096));
    assert_eq!(parse_free_vram_mb("n/a\n"), None);
}

#[test]
fn meminfo_total_is_converted_to_mib() {
    let content = "MemFree:  100 kB\nMemTotal:       16376648 kB\n";
    assert_eq!(parse_meminfo_total_mb(content), Some(16376648 / 1024));
    assert_eq!(parse_meminfo_total_mb("MemTotal: lots\n"), None);
}

#[test]
fn wmic_total_is_converted_to_mib() {
    let out = "\r\n\r\nTotalVisibleMemorySize=16567864\r\n\r\n";
    assert_eq!(parse_wmic_total_mb(out), Some(16567864 / 1024));
}

#[test]
fn sysctl_bytes_are_converted_to_mib() {
    assert_eq!(parse_sysctl_total_mb("17179869184\n"), Some(16384));
    assert_eq!(parse_sysctl_total_mb("-1"), None);
}
