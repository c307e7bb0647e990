use rupcheck::codec::{
    read_hashes, read_literals, read_u64, read_unit_clauses, write_hashes, write_literals,
    write_step, write_u64, write_unit_clauses, DecodeError, Parser, ProofStep,
};
use rupcheck::lit::Lit;

fn lits(numbers: &[i32]) -> Vec<Lit> {
    numbers.iter().map(|&n| Lit::from_dimacs(n)).collect()
}

#[test]
fn numbers_round_trip() {
    let values = [0u64, 1, 127, 128, 300, 16383, 16384, u64::MAX];
    let mut buf: Vec<u8> = Vec::new();
    for &v in values.iter() {
        write_u64(&mut buf, v);
    }
    let mut pos = 0usize;
    for &v in values.iter() {
        let (got, next) = read_u64(&buf, pos).unwrap();
        assert_eq!(got, v);
        pos = next;
    }
    assert_eq!(pos, buf.len());
}

#[test]
fn number_encoding_is_seven_bits_per_byte() {
    let mut buf: Vec<u8> = Vec::new();
    write_u64(&mut buf, 300);
    assert_eq!(buf, vec![0xACu8, 0x02u8]);
}

#[test]
fn truncated_number_is_eof() {
    match read_u64(&vec![0xFFu8], 0) {
        Err(DecodeError::Eof) => (),
        other => panic!("expected Eof, got {:?}", other),
    }
    match read_u64(&vec![], 0) {
        Err(DecodeError::Eof) => (),
        other => panic!("expected Eof, got {:?}", other),
    }
}

#[test]
fn oversized_number_is_corrupt() {
    // Ten groups of seven bits reach beyond the largest 64-bit value.
    let bytes = vec![0x80u8, 0x80, 0x80, 0x80, 0x80, 0x80, 0x80, 0x80, 0x80, 0x02];
    match read_u64(&bytes, 0) {
        Err(DecodeError::Corrupt) => (),
        other => panic!("expected Corrupt, got {:?}", other),
    }
}

#[test]
fn literal_lists_round_trip() {
    let clause = lits(&[3, -7, 12, -1]);
    let mut buf: Vec<u8> = Vec::new();
    write_literals(&mut buf, &clause);
    let mut out: Vec<Lit> = Vec::new();
    let next = read_literals(&buf, 0, &mut out).unwrap();
    assert_eq!(out, clause);
    assert_eq!(next, buf.len());
}

#[test]
fn hash_lists_round_trip() {
    let hashes: Vec<u64> = vec![0, 5, 1 << 40, u64::MAX];
    let mut buf: Vec<u8> = Vec::new();
    write_hashes(&mut buf, &hashes);
    let mut out: Vec<u64> = Vec::new();
    let next = read_hashes(&buf, 0, &mut out).unwrap();
    assert_eq!(out, hashes);
    assert_eq!(next, buf.len());
}

#[test]
fn unit_clause_lists_round_trip() {
    let units: Vec<(Lit, u64)> = vec![
        (Lit::from_dimacs(4), 99),
        (Lit::from_dimacs(-2), 1 << 50),
    ];
    let mut buf: Vec<u8> = Vec::new();
    write_unit_clauses(&mut buf, &units);
    let mut out: Vec<(Lit, u64)> = Vec::new();
    let next = read_unit_clauses(&buf, 0, &mut out).unwrap();
    assert_eq!(out, units);
    assert_eq!(next, buf.len());
}

#[test]
fn step_sequences_round_trip() {
    let steps = vec![
        ProofStep::AtClause {
            clause: lits(&[1, -2, 3]),
            propagation_hashes: vec![5, 77777],
        },
        ProofStep::UnitClauses(vec![(Lit::from_dimacs(4), 9), (Lit::from_dimacs(-1), 0)]),
        ProofStep::DeleteClause(lits(&[2, 3])),
    ];

    let mut buf: Vec<u8> = Vec::new();
    for step in steps.iter() {
        write_step(&mut buf, step);
    }

    let parser = Parser::new();
    let mut pos = 0usize;
    let mut decoded: Vec<ProofStep> = Vec::new();
    while pos < buf.len() {
        let (step, next) = parser.parse_step(&buf, pos).unwrap();
        decoded.push(step);
        pos = next;
    }
    assert_eq!(decoded, steps);
}

#[test]
fn unknown_tag_is_corrupt() {
    let parser = Parser::new();
    match parser.parse_step(&vec![99u8], 0) {
        Err(DecodeError::Corrupt) => (),
        other => panic!("expected Corrupt, got {:?}", other),
    }
}

#[test]
fn truncated_step_is_eof() {
    // An asymmetric-tautology tag announcing two literals, but only one
    // follows.
    let parser = Parser::new();
    let bytes = vec![0u8, 2u8, 6u8];
    match parser.parse_step(&bytes, 0) {
        Err(DecodeError::Eof) => (),
        other => panic!("expected Eof, got {:?}", other),
    }
}
