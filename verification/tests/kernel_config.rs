use flate2::write::GzEncoder;
use flate2::Compression;
use std::io::Write;
use usbscope::kernel_config::{arm64_memory, config_text_of, kernel_config_text, ConfigError, MAX_CONFIG};
use usbscope::wire::{SG_ARM64_COMPACT, SG_ARM64_LEGACY};

const CONFIG: &str = "CONFIG_ARM64=y\nCONFIG_SPARSEMEM_VMEMMAP=y\nCONFIG_ARM64_64K_PAGES=y\nCONFIG_ARM64_VA_BITS=48\n";

#[test]
fn rejects_a_configuration_that_does_not_match_the_running_page_size() {
    assert!(arm64_memory(CONFIG, 4096, "6.6.142").is_none());
    assert!(arm64_memory(CONFIG, 65536, "6.6.142").is_some());
    assert!(arm64_memory(&CONFIG.replace("=48", "=39"), 65536, "6.6.142").is_none());
}

#[test]
fn refuses_missing_layout_information_and_tagged_kernel_memory() {
    assert!(arm64_memory("CONFIG_ARM64=y\n", 65536, "6.6.142").is_none());
    assert!(arm64_memory(&CONFIG.replace("VMEMMAP=y", "VMEMMAP=n"), 65536, "6.6.142").is_none());
    for option in ["CONFIG_KASAN_SW_TAGS=y", "CONFIG_KASAN_HW_TAGS=y"] {
        assert!(arm64_memory(&format!("{CONFIG}{option}\n"), 65536, "6.6.142").is_none());
    }
}

#[test]
fn selects_the_upstream_layout_across_the_6_9_boundary() {
    for release in ["6.6.142", "6.8.0-custom"] {
        assert_eq!(
            arm64_memory(CONFIG, 65536, release).unwrap().layout,
            SG_ARM64_LEGACY
        );
    }
    for release in ["6.9.0", "6.12.110", "6.18.52", "7.2.6-custom"] {
        assert_eq!(
            arm64_memory(CONFIG, 65536, release).unwrap().layout,
            SG_ARM64_COMPACT
        );
    }
    for release in ["", "unknown", "5.10.0", "6.x.0"] {
        assert!(arm64_memory(CONFIG, 65536, release).is_none());
    }
}

#[test]
fn reports_page_shift_and_address_bits() {
    let memory = arm64_memory(CONFIG, 65536, " 6.9.0\n").unwrap();
    assert_eq!(memory.page_shift, 16);
    assert_eq!(memory.va_bits, 48);
    assert_eq!(memory.vmemmap_symbol, 0);
    let four_k = "CONFIG_ARM64=y\r\nCONFIG_SPARSEMEM_VMEMMAP=y\r\nCONFIG_ARM64_4K_PAGES=y\r\nCONFIG_ARM64_VA_BITS=39\r\n";
    let memory = arm64_memory(four_k, 4096, "5.17").unwrap();
    assert_eq!((memory.page_shift, memory.va_bits, memory.layout), (12, 39, SG_ARM64_LEGACY));
    assert!(arm64_memory(four_k, 4096, "5.16.3").is_none());
    assert!(arm64_memory(CONFIG, 8192, "6.9.0").is_none());
}

#[test]
fn the_first_setting_of_an_option_wins() {
    let config = format!("{CONFIG}CONFIG_ARM64_VA_BITS=39\n");
    assert!(arm64_memory(&config, 65536, "6.6.1").is_some());
    let config = format!("CONFIG_ARM64_VA_BITS=39\n{CONFIG}");
    assert!(arm64_memory(&config, 65536, "6.6.1").is_none());
}

fn gzip(bytes: &[u8]) -> Vec<u8> {
    let mut encoder = GzEncoder::new(Vec::new(), Compression::default());
    encoder.write_all(bytes).unwrap();
    encoder.finish().unwrap()
}

#[test]
fn compressed_configuration_is_decoded_and_judged() {
    let text = "CONFIG_ARM64=y\nCONFIG_ARM64_VA_BITS=48\n";
    assert_eq!(kernel_config_text(&gzip(text.as_bytes())).unwrap(), text);
    assert_eq!(kernel_config_text(b"not gzip"), Err(ConfigError::Undecodable));
    assert_eq!(kernel_config_text(&gzip(&[0xff, 0xfe])), Err(ConfigError::NotUtf8));
    let limit = MAX_CONFIG as usize;
    assert_eq!(kernel_config_text(&gzip(&vec![b'a'; limit + 5])), Err(ConfigError::TooLarge));
    assert_eq!(config_text_of(b"x=y".to_vec()).unwrap(), "x=y");
    assert_eq!(config_text_of(vec![0xc3]), Err(ConfigError::NotUtf8));
}
