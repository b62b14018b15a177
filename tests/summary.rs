use ghc_utils::{parse_ghc_summary, GhcSummary};

#[test]
fn ghc_summary_parsing() {
    assert_eq!(
        parse_ghc_summary(
            "<<ghc: 3227088 bytes, 4 GCs, 200584/234944 avg/max bytes residency (2 samples), \
            2M in use, 0.000 INIT (0.000 elapsed), 0.001 MUT (0.002 elapsed), \
            0.004 GC (0.007 elapsed) :ghc>>"
        ),
        Some(GhcSummary {
            allocs: 3227088,
            gcs: 4,
            avg_res: 200584,
            max_res: 234944,
            in_use: 2
        })
    );
}

#[test]
fn summary_takes_last_in_use_on_the_line() {
    assert_eq!(
        parse_ghc_summary("junk <<ghc: 1 bytes, 2 GCs, 3/4 x 5M in use, 6M in use\n 7M in use"),
        Some(GhcSummary { allocs: 1, gcs: 2, avg_res: 3, max_res: 4, in_use: 6 })
    );
}

#[test]
fn summary_needs_every_part() {
    assert_eq!(parse_ghc_summary(""), None);
    assert_eq!(parse_ghc_summary("<<ghc: 1 bytes, 2 GCs, 3/4 avg"), None);
    assert_eq!(parse_ghc_summary("<<ghc: 1 bytes, 2 GCs, 3/4 \n 5M in use"), None);
    assert_eq!(parse_ghc_summary("<<ghc: x bytes, 2 GCs, 3/4 a 5M in use"), None);
}

#[test]
fn summary_skips_a_broken_start() {
    assert_eq!(
        parse_ghc_summary("<<ghc: broken <<ghc: 10 bytes, 0 GCs, 0/0  9M in use"),
        Some(GhcSummary { allocs: 10, gcs: 0, avg_res: 0, max_res: 0, in_use: 9 })
    );
}

#[test]
fn summary_number_too_large() {
    assert_eq!(
        parse_ghc_summary("<<ghc: 18446744073709551616 bytes, 2 GCs, 3/4 a 5M in use"),
        None
    );
    assert_eq!(
        parse_ghc_summary("<<ghc: 18446744073709551615 bytes, 2 GCs, 3/4 a 5M in use"),
        Some(GhcSummary { allocs: u64::MAX, gcs: 2, avg_res: 3, max_res: 4, in_use: 5 })
    );
}
