use mvitop::memory::{calculate_usage, memory_figures, MemoryFigures, PageCounts};

#[test]
fn calculates_available_and_used_memory() {
    assert_eq!(calculate_usage(100, 10, 20, 5), (35, 65));
    assert_eq!(calculate_usage(100, 80, 80, 80), (100, 0));
}

#[test]
fn saturating_page_sums_never_exceed_the_total() {
    assert_eq!(calculate_usage(1000, u64::MAX, u64::MAX, 1), (1000, 0));
    assert_eq!(calculate_usage(0, 0, 0, 0), (0, 0));
}

#[test]
fn memory_figures_scale_pages_by_the_page_size() {
    let counts = PageCounts { free: 10, inactive: 20, purgeable: 5, wired: 7, compressed: 3 };
    let f = memory_figures(1_000_000, 16_384, counts);
    assert_eq!(
        f,
        MemoryFigures {
            total: 1_000_000,
            used: 1_000_000 - 573_440,
            available: 573_440,
            wired: 114_688,
            compressed: 49_152,
            cached: 409_600,
        }
    );
}

#[test]
fn memory_figures_cap_available_at_the_installed_total() {
    let counts = PageCounts { free: 100, inactive: 100, purgeable: 100, wired: 0, compressed: 0 };
    let f = memory_figures(4096, 4096, counts);
    assert_eq!(f.available, 4096);
    assert_eq!(f.used, 0);
    assert_eq!(f.cached, 819_200);
}
