use vstd::prelude::*;
use vstd::string::StringExecFns;
use vstd::string::StringSliceAdditionalSpecFns;

verus! {

/// The CRC-32/ISO-HDLC checksum of a byte string.
pub uninterp spec fn crc32_iso_hdlc(bytes: Seq<u8>) -> u32;

/// Relies on `crc::Crc::<u32>::checksum` with the `CRC_32_ISO_HDLC`
/// parameters: the checksum depends on the bytes alone.
#[verifier::external_body]
fn crc32_checksum(bytes: &[u8]) -> (r: u32)
    ensures
        r == crc32_iso_hdlc(bytes@),
{
    crc::Crc::<u32>::new(&crc::CRC_32_ISO_HDLC).checksum(bytes)
}

/// Lower-case hexadecimal digit of `d`, for `d < 16`.
pub open spec fn hex_digit(d: int) -> char {
    if d == 0 {
        '0'
    } else if d == 1 {
        '1'
    } else if d == 2 {
        '2'
    } else if d == 3 {
        '3'
    } else if d == 4 {
        '4'
    } else if d == 5 {
        '5'
    } else if d == 6 {
        '6'
    } else if d == 7 {
        '7'
    } else if d == 8 {
        '8'
    } else if d == 9 {
        '9'
    } else if d == 10 {
        'a'
    } else if d == 11 {
        'b'
    } else if d == 12 {
        'c'
    } else if d == 13 {
        'd'
    } else if d == 14 {
        'e'
    } else {
        'f'
    }
}

/// Lower-case hexadecimal digits of `n`, without leading zeros.
pub open spec fn hex_digits(n: nat) -> Seq<char>
    decreases n,
{
    if n < 16 {
        seq![hex_digit(n as int)]
    } else {
        hex_digits(n / 16).push(hex_digit((n % 16) as int))
    }
}

/// Length of a chunk id.
pub const SHORT_HASH_LEN: usize = 6;

/// Smallest checksum with at least `SHORT_HASH_LEN` hexadecimal digits.
pub const SHORT_HASH_MIN: u32 = 0x10_0000;

/// The first six hexadecimal digits of a checksum.
pub open spec fn short_hash_of(hash: u32) -> Seq<char> {
    hex_digits(hash as nat).take(6)
}

fn digit_str(d: u32) -> (r: &'static str)
    requires
        d < 16,
    ensures
        r@ == seq![hex_digit(d as int)],
{
    proof {
        reveal_strlit("0");
        reveal_strlit("1");
        reveal_strlit("2");
        reveal_strlit("3");
        reveal_strlit("4");
        reveal_strlit("5");
        reveal_strlit("6");
        reveal_strlit("7");
        reveal_strlit("8");
        reveal_strlit("9");
        reveal_strlit("a");
        reveal_strlit("b");
        reveal_strlit("c");
        reveal_strlit("d");
        reveal_strlit("e");
        reveal_strlit("f");
    }
    match d {
        0 => "0",
        1 => "1",
        2 => "2",
        3 => "3",
        4 => "4",
        5 => "5",
        6 => "6",
        7 => "7",
        8 => "8",
        9 => "9",
        10 => "a",
        11 => "b",
        12 => "c",
        13 => "d",
        14 => "e",
        _ => "f",
    }
}

proof fn lemma_hex_len_at_least(n: nat)
    ensures
        hex_digits(n).len() >= 1,
        n >= 16 ==> hex_digits(n).len() >= 2,
        n >= 0x100 ==> hex_digits(n).len() >= 3,
        n >= 0x1000 ==> hex_digits(n).len() >= 4,
        n >= 0x1_0000 ==> hex_digits(n).len() >= 5,
        n >= 0x10_0000 ==> hex_digits(n).len() >= 6,
    decreases n,
{
    if n >= 16 {
        lemma_hex_len_at_least(n / 16);
    }
}

/// The first six digits of a number with more than six are those of its
/// sixteenth.
proof fn lemma_take_six(n: nat)
    requires
        n >= 0x100_0000,
    ensures
        hex_digits(n).take(6) == hex_digits(n / 16).take(6),
{
    lemma_hex_len_at_least(n / 16);
    assert(hex_digits(n) == hex_digits(n / 16).push(hex_digit((n % 16) as int)));
    assert(hex_digits(n).take(6) =~= hex_digits(n / 16).take(6));
}

/// The id of a checksum with at least six hexadecimal digits.
pub fn short_hash_from_checksum(hash: u32) -> (r: String)
    requires
        hash >= SHORT_HASH_MIN,
    ensures
        r@ == short_hash_of(hash),
{
    let mut top = hash;
    while top >= 0x100_0000
        invariant
            top >= SHORT_HASH_MIN,
            hex_digits(top as nat).take(6) == short_hash_of(hash),
        decreases top,
    {
        proof {
            lemma_take_six(top as nat);
        }
        top = top / 16;
    }
    let t1 = top / 16;
    let t2 = t1 / 16;
    let t3 = t2 / 16;
    let t4 = t3 / 16;
    let t5 = t4 / 16;
    assert(t5 < 16 && t4 >= 16 && t3 >= 16 && t2 >= 16 && t1 >= 16 && top >= 16);
    assert(hex_digits(t5 as nat) == seq![hex_digit(t5 as int)]);
    assert(hex_digits(t4 as nat) == hex_digits(t5 as nat).push(hex_digit((t4 % 16) as int)));
    assert(hex_digits(t3 as nat) == hex_digits(t4 as nat).push(hex_digit((t3 % 16) as int)));
    assert(hex_digits(t2 as nat) == hex_digits(t3 as nat).push(hex_digit((t2 % 16) as int)));
    assert(hex_digits(t1 as nat) == hex_digits(t2 as nat).push(hex_digit((t1 % 16) as int)));
    assert(hex_digits(top as nat) == hex_digits(t1 as nat).push(hex_digit((top % 16) as int)));
    let s = digit_str(t5).to_owned();
    let s = s.concat(digit_str(t4 % 16));
    let s = s.concat(digit_str(t3 % 16));
    let s = s.concat(digit_str(t2 % 16));
    let s = s.concat(digit_str(t1 % 16));
    let s = s.concat(digit_str(top % 16));
    assert(s@ =~= hex_digits(top as nat));
    assert(hex_digits(top as nat).take(6) =~= hex_digits(top as nat));
    s
}

/// A chunk id from its input text: the first six hexadecimal digits of the
/// text's CRC-32, or none when the checksum has fewer than six digits.
pub fn generate_short_hash(input: &str) -> (r: Option<String>)
    ensures
        crc32_iso_hdlc(input.spec_bytes()) >= SHORT_HASH_MIN ==> r is Some && r->Some_0@ == short_hash_of(
            crc32_iso_hdlc(input.spec_bytes()),
        ),
        crc32_iso_hdlc(input.spec_bytes()) < SHORT_HASH_MIN ==> r is None,
{
    short_hash_of_bytes(input.as_bytes())
}

/// The id of a byte string: the first six hexadecimal digits of its CRC-32,
/// or none when the checksum has fewer than six digits.
pub fn short_hash_of_bytes(bytes: &[u8]) -> (r: Option<String>)
    ensures
        crc32_iso_hdlc(bytes@) >= SHORT_HASH_MIN ==> r is Some && r->Some_0@ == short_hash_of(
            crc32_iso_hdlc(bytes@),
        ),
        crc32_iso_hdlc(bytes@) < SHORT_HASH_MIN ==> r is None,
{
    let hash = crc32_checksum(bytes);
    if hash >= SHORT_HASH_MIN {
        Some(short_hash_from_checksum(hash))
    } else {
        None
    }
}

/// ASCII decimal digits of `n`, without leading zeros.
pub open spec fn decimal_bytes(n: nat) -> Seq<u8>
    decreases n,
{
    if n < 10 {
        seq![(48 + n) as u8]
    } else {
        decimal_bytes(n / 10).push((48 + n % 10) as u8)
    }
}

fn push_decimal(n: usize, out: &mut Vec<u8>)
    ensures
        final(out)@ == old(out)@ + decimal_bytes(n as nat),
    decreases n,
{
    let ghost before = out@;
    if n >= 10 {
        push_decimal(n / 10, out);
    }
    out.push((48 + n % 10) as u8);
    if n >= 10 {
        assert(out@ =~= before + decimal_bytes(n as nat));
    } else {
        assert(out@ =~= before + decimal_bytes(n as nat));
    }
}

/// ASCII decimal digits of a number.
pub fn decimal_string_bytes(n: usize) -> (r: Vec<u8>)
    ensures
        r@ == decimal_bytes(n as nat),
{
    let mut out: Vec<u8> = Vec::new();
    push_decimal(n, &mut out);
    assert(out@ =~= decimal_bytes(n as nat));
    out
}

} // verus!
