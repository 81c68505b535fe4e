use vstd::prelude::*;

verus! {

/// The hex digit of `v`, for `v` in `0..16`, in lower case.
pub open spec fn hex_digit(v: int) -> char {
    seq!['0', '1', '2', '3', '4', '5', '6', '7', '8', '9', 'a', 'b', 'c', 'd', 'e', 'f'][v]
}

/// `b` written as two lowercase hex digits per byte, high half first.
pub open spec fn hex_of(b: Seq<u8>) -> Seq<char>
    decreases b.len(),
{
    if b.len() == 0 {
        seq![]
    } else {
        seq![hex_digit(b[0] as int / 16), hex_digit(b[0] as int % 16)] + hex_of(b.drop_first())
    }
}

/// The decimal digits of `n`, without leading zeros.
pub open spec fn digits_of(n: nat) -> Seq<char>
    decreases n,
{
    if n < 10 {
        seq![hex_digit(n as int)]
    } else {
        digits_of(n / 10).push(hex_digit((n % 10) as int))
    }
}

/// `n` in decimal, with a leading `-` where it is negative.
pub open spec fn decimal_of(n: int) -> Seq<char> {
    if n < 0 {
        seq!['-'] + digits_of((-n) as nat)
    } else {
        digits_of(n as nat)
    }
}

/// Relies on `hex::encode`: two lowercase hex digits per byte, high half
/// first.
#[verifier::external_body]
fn encode_hex(b: &[u8; 32]) -> (r: String)
    ensures
        r@ == hex_of(b@),
{
    hex::encode(b)
}

/// Relies on `i64`'s `to_string`: the number in decimal, with a leading `-`
/// where it is negative.
#[verifier::external_body]
fn decimal_text(n: i64) -> (r: String)
    ensures
        r@ == decimal_of(n as int),
{
    n.to_string()
}

/// Relies on `String::push_str`: appends `t` to `s`.
#[verifier::external_body]
fn append(s: &mut String, t: &str)
    ensures
        final(s)@ == old(s)@ + t@,
{
    s.push_str(t)
}

pub open spec fn missing_seq_head() -> Seq<char> {
    "\nSELECT\n    s.seq AS missing_seq\nFROM\n    generate_series(1::bigint, "@
}

pub open spec fn missing_seq_middle() -> Seq<char> {
    "::bigint) s(seq)\nWHERE\n    NOT EXISTS (\n        SELECT 1 FROM cl_audits WHERE seq = s.seq AND tree='\\x"@
}

pub open spec fn missing_seq_tail() -> Seq<char> {
    "'\n    )\nORDER BY\n    s.seq"@
}

/// The query that lists, ascending, the sequence numbers in `1..=max_seq`
/// that the index holds no change record of for `tree`: a set difference
/// computed by the database.
pub fn missing_seq_query(max_seq: i64, tree: &[u8; 32]) -> (r: String)
    ensures
        r@ == missing_seq_head() + decimal_of(max_seq as int) + missing_seq_middle() + hex_of(tree@)
            + missing_seq_tail(),
{
    let mut q = "\nSELECT\n    s.seq AS missing_seq\nFROM\n    generate_series(1::bigint, ".to_owned();
    let n = decimal_text(max_seq);
    append(&mut q, n.as_str());
    append(
        &mut q,
        "::bigint) s(seq)\nWHERE\n    NOT EXISTS (\n        SELECT 1 FROM cl_audits WHERE seq = s.seq AND tree='\\x",
    );
    let h = encode_hex(tree);
    append(&mut q, h.as_str());
    append(&mut q, "'\n    )\nORDER BY\n    s.seq");
    q
}

} // verus!
