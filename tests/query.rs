use tree_status::query::missing_seq_query;

#[test]
fn missing_seq_query_text() {
    let mut tree = [0u8; 32];
    tree[0] = 0xAB;
    tree[31] = 0x01;
    let q = missing_seq_query(100, &tree);
    let hex = format!("ab{}01", "00".repeat(30));
    let expected = format!(
        "\nSELECT\n    s.seq AS missing_seq\nFROM\n    generate_series(1::bigint, 100::bigint) s(seq)\nWHERE\n    NOT EXISTS (\n        SELECT 1 FROM cl_audits WHERE seq = s.seq AND tree='\\x{hex}'\n    )\nORDER BY\n    s.seq"
    );
    assert_eq!(q, expected);
}

#[test]
fn missing_seq_query_negative_bound() {
    let q = missing_seq_query(-3, &[0xFF; 32]);
    assert!(q.contains("generate_series(1::bigint, -3::bigint)"));
    assert!(q.contains(&format!("tree='\\x{}'", "ff".repeat(32))));
}
