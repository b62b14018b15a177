use ghc_utils::era::{build_store, last_major_era, AddrSize, EraBuilder, Fault, MoveEvent, TraceError, TraceRecord};
use ghc_utils::query::{find_moves, scan_era, Moves, ScanState};
use ghc_utils::trace::{parse, parse_hex, parse_line};

#[test]
fn parse_test() {
    let input = "\
        >>> GC 1\n\
        >>> 0x123 -> 0x124 size: 1\n\
        >>> 0x122 -> 0x123 size: 2\n\
        >>> GC 2\n\
    ";

    let gcs = parse(input).unwrap();
    assert_eq!(gcs.len(), 2);
    assert_eq!(
        gcs[0].forward(0x123),
        Some(AddrSize {
            addr: 0x124,
            size: 1
        })
    );
    assert_eq!(
        gcs[0].forward(0x122),
        Some(AddrSize {
            addr: 0x123,
            size: 2
        })
    );
    assert_eq!(
        gcs[0].backward(0x124),
        Some(AddrSize {
            addr: 0x123,
            size: 1
        })
    );
    assert_eq!(
        gcs[0].backward(0x123),
        Some(AddrSize {
            addr: 0x122,
            size: 2
        })
    );
}

#[test]
fn find_moves_test() {
    let input = "\
        >>> GC 1\n\
        >>> 0x123 -> 0x124 size: 1\n\
        >>> GC 2\n\
        >>> 0x124 -> 0x125 size: 2\n\
        >>> 0x100 -> 0x101 size: 3\n\
    ";

    let gcs = parse(input).unwrap();

    assert_eq!(
        find_moves(&gcs, 0x123),
        vec![Moves {
            loc: 0x123,
            first_move: 0,
            moves: vec![0x123, 0x124, 0x125],
        }]
    );

    assert_eq!(
        find_moves(&gcs, 0x100),
        vec![Moves {
            loc: 0x100,
            first_move: 1,
            moves: vec![0x100, 0x101],
        }]
    );

    assert_eq!(
        find_moves(&gcs, 0x101),
        vec![Moves {
            loc: 0x101,
            first_move: 1,
            moves: vec![0x100, 0x101],
        }]
    );

    assert_eq!(
        find_moves(&gcs, 0x125),
        vec![Moves {
            loc: 0x125,
            first_move: 0,
            moves: vec![0x123, 0x124, 0x125],
        }]
    );

    assert_eq!(
        find_moves(&gcs, 0x124),
        vec![Moves {
            loc: 0x124,
            first_move: 0,
            moves: vec![0x123, 0x124, 0x125],
        }]
    );
}

#[test]
fn complicated_test() {
    let input = "\
        >>> GC 1\n\
        >>> 0x124 -> 0x125 size: 2\n\
        >>> 0x123 -> 0x124 size: 2\n\
    ";

    let gcs = parse(input).unwrap();

    assert_eq!(
        find_moves(&gcs, 0x124),
        vec![
            Moves {
                loc: 0x124,
                first_move: 0,
                moves: vec![0x124, 0x125],
            },
            Moves {
                loc: 0x124,
                first_move: 0,
                moves: vec![0x123, 0x124],
            }
        ]
    );

    assert_eq!(
        find_moves(&gcs, 0x125),
        vec![Moves {
            loc: 0x125,
            first_move: 0,
            moves: vec![0x124, 0x125],
        }]
    );

    assert_eq!(
        find_moves(&gcs, 0x123),
        vec![Moves {
            loc: 0x123,
            first_move: 0,
            moves: vec![0x123, 0x124],
        }]
    );
}

#[test]
fn era_count_matches_starts() {
    let input = ">>> GC 0\nnoise\n>>> GC 1\n>>> GC 0\n>>> 0x1 -> 0x2 size: 8\n";
    let gcs = parse(input).unwrap();
    assert_eq!(gcs.len(), 3);
    assert!(!gcs[0].is_major());
    assert!(gcs[1].is_major());
    assert!(!gcs[2].is_major());
}

#[test]
fn forward_and_backward_agree() {
    let input = ">>> GC 1\n>>> 0x10 -> 0x20 size: 4\n>>> 0x20 -> 0x30 size: 5\n";
    let gcs = parse(input).unwrap();
    for from in [0x10u64, 0x20] {
        let f = gcs[0].forward(from).unwrap();
        assert_eq!(gcs[0].backward(f.addr), Some(AddrSize { addr: from, size: f.size }));
    }
    assert_eq!(gcs[0].forward(0x30), None);
    assert_eq!(gcs[0].backward(0x10), None);
}

#[test]
fn duplicate_source_fails() {
    let input = ">>> GC 1\n>>> 0x1 -> 0x2 size: 8\n>>> 0x1 -> 0x3 size: 8\n";
    assert_eq!(
        parse(input).unwrap_err(),
        TraceError { line: 2, fault: Fault::DuplicateSource }
    );
}

#[test]
fn duplicate_destination_fails() {
    let input = ">>> GC 1\n>>> 0x1 -> 0x3 size: 8\n>>> 0x2 -> 0x3 size: 8\n";
    assert_eq!(
        parse(input).unwrap_err(),
        TraceError { line: 2, fault: Fault::DuplicateDestination }
    );
}

#[test]
fn same_source_in_other_eras_is_fine() {
    let input = ">>> GC 1\n>>> 0x1 -> 0x2 size: 8\n>>> GC 0\n>>> 0x1 -> 0x3 size: 8\n";
    let gcs = parse(input).unwrap();
    assert_eq!(gcs.len(), 2);
}

#[test]
fn move_before_first_era_fails() {
    let input = "log start\n>>> 0x1 -> 0x2 size: 8\n>>> GC 1\n";
    assert_eq!(
        parse(input).unwrap_err(),
        TraceError { line: 1, fault: Fault::NoActiveEra }
    );
}

#[test]
fn malformed_lines_fail() {
    assert_eq!(parse(">>> GC 1\n>>> 0xzz -> 0x2 size: 8\n").unwrap_err().fault, Fault::BadAddress);
    assert_eq!(parse(">>> GC 1\n>>> 0x1 -> 0x2 size: x8\n").unwrap_err().fault, Fault::BadSize);
    assert_eq!(parse(">>> GC 1\n>>> 0x1 -> 0x2\n").unwrap_err().fault, Fault::MissingField);
    assert_eq!(parse(">>> GC\n").unwrap_err().fault, Fault::MissingField);
    assert_eq!(parse(">>> GC 300\n").unwrap_err().fault, Fault::BadFlag);
    assert_eq!(parse(">>> \n").unwrap_err().fault, Fault::MissingField);
}

#[test]
fn empty_trace_has_no_chains() {
    let gcs = parse("").unwrap();
    assert!(gcs.is_empty());
    assert!(find_moves(&gcs, 0x123).is_empty());
    let gcs = build_store(&vec![]).unwrap();
    assert!(find_moves(&gcs, 0).is_empty());
    let gcs = parse(">>> GC 1\n>>> GC 0\n").unwrap();
    assert_eq!(gcs.len(), 2);
    assert!(find_moves(&gcs, 0x123).is_empty());
}

#[test]
fn unmoved_address_has_no_chains() {
    let gcs = parse(">>> GC 1\n>>> 0x1 -> 0x2 size: 8\n").unwrap();
    assert!(find_moves(&gcs, 0x3).is_empty());
}

#[test]
fn chain_links_follow_both_indexes() {
    let input = ">>> GC 1\n>>> 0xa -> 0xb size: 1\n>>> GC 0\n>>> 0xb -> 0xc size: 1\n>>> GC 0\n>>> 0xc -> 0xd size: 1\n";
    let gcs = parse(input).unwrap();
    let chains = find_moves(&gcs, 0xc);
    assert_eq!(chains.len(), 1);
    let c = &chains[0];
    assert_eq!(c.moves, vec![0xa, 0xb, 0xc, 0xd]);
    for k in 0..c.moves.len() - 1 {
        let era = &gcs[c.first_move + k];
        assert_eq!(era.forward(c.moves[k]).unwrap().addr, c.moves[k + 1]);
        assert_eq!(era.backward(c.moves[k + 1]).unwrap().addr, c.moves[k]);
    }
}

#[test]
fn parse_line_kinds() {
    assert_eq!(parse_line("no mark here"), Ok(None));
    assert_eq!(parse_line(">>> GC 1"), Ok(Some(TraceRecord::EraStart { major: true })));
    assert_eq!(parse_line(">>> GC 0"), Ok(Some(TraceRecord::EraStart { major: false })));
    assert_eq!(
        parse_line(">>>   0xFF  ->  0x1f   size:  +12  extra"),
        Ok(Some(TraceRecord::Move(MoveEvent { from: 0xff, to: 0x1f, size: 12 })))
    );
}

#[test]
fn parse_hex_values() {
    assert_eq!(parse_hex("0x7fe287e65000"), Some(0x7fe287e65000));
    assert_eq!(parse_hex("0xffffffffffffffff"), Some(u64::MAX));
    assert_eq!(parse_hex("0x10000000000000000"), None);
    assert_eq!(parse_hex("0x"), None);
    assert_eq!(parse_hex("0"), None);
    assert_eq!(parse_hex("0xg"), None);
}

#[test]
fn parse_hex_drops_two_bytes() {
    assert_eq!(parse_hex("\u{e9}ff"), Some(0xff));
    assert_eq!(parse_hex("\u{e9}"), None);
    assert_eq!(parse_hex("x\u{e9}ff"), None);
    assert_eq!(parse_hex("\u{20ac}ff"), None);
    assert_eq!(parse_hex("ab12"), Some(0x12));
}

#[test]
fn builder_records() {
    let recs = vec![
        TraceRecord::EraStart { major: true },
        TraceRecord::Move(MoveEvent { from: 1, to: 2, size: 3 }),
        TraceRecord::EraStart { major: false },
    ];
    let gcs = build_store(&recs).unwrap();
    assert_eq!(gcs.len(), 2);
    assert_eq!(gcs[0].forward(1), Some(AddrSize { addr: 2, size: 3 }));
    let bad = vec![
        TraceRecord::EraStart { major: true },
        TraceRecord::Move(MoveEvent { from: 1, to: 2, size: 3 }),
        TraceRecord::Move(MoveEvent { from: 1, to: 4, size: 3 }),
    ];
    assert_eq!(
        build_store(&bad).unwrap_err(),
        TraceError { line: 2, fault: Fault::DuplicateSource }
    );
    let mut b = EraBuilder::new();
    assert_eq!(b.add(TraceRecord::Move(MoveEvent { from: 1, to: 2, size: 3 })), Err(Fault::NoActiveEra));
    assert_eq!(b.add(TraceRecord::EraStart { major: false }), Ok(()));
    assert_eq!(b.finish().len(), 1);
}

#[test]
fn scan_skips_source_after_destination() {
    let input = ">>> GC 1\n>>> 0x1 -> 0x2 size: 1\n>>> GC 0\n>>> 0x2 -> 0x3 size: 1\n";
    let gcs = parse(input).unwrap();
    let mut out = Vec::new();
    let st = scan_era(&gcs, 0, 0x2, ScanState::Normal, &mut out);
    assert_eq!(st, ScanState::SkipSource);
    assert_eq!(out.len(), 1);
    let st = scan_era(&gcs, 1, 0x2, st, &mut out);
    assert_eq!(st, ScanState::Normal);
    assert_eq!(out.len(), 1);
    let st = scan_era(&gcs, 1, 0x2, ScanState::Normal, &mut out);
    assert_eq!(st, ScanState::Normal);
    assert_eq!(out.len(), 2);
    assert_eq!(out[1].moves, vec![0x1, 0x2, 0x3]);
}

#[test]
fn last_major_era_numbers_from_one() {
    let gcs = parse(">>> GC 1\n>>> GC 1\n>>> GC 0\n").unwrap();
    assert_eq!(last_major_era(&gcs), 2);
    let gcs = parse(">>> GC 0\n").unwrap();
    assert_eq!(last_major_era(&gcs), 0);
}
