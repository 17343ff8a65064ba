//! Names of the files in a data directory and the decimal values that the
//! marker files hold.
use vstd::prelude::*;
use crate::bytes_util::append_bytes;

verus! {

/// The decimal digits of `n`, most significant first, without leading zeros.
pub open spec fn decimal(n: nat) -> Seq<u8>
    decreases n,
{
    if n < 10 {
        seq![(48 + n) as u8]
    } else {
        decimal(n / 10).push((48 + n % 10) as u8)
    }
}

/// The number that decimal digits stand for.
pub open spec fn decimal_value(s: Seq<u8>) -> nat
    decreases s.len(),
{
    if s.len() == 0 {
        0
    } else {
        10 * decimal_value(s.drop_last()) + (s.last() - 48) as nat
    }
}

pub open spec fn is_digit(c: u8) -> bool {
    48 <= c <= 57
}

/// `s` is a non-empty string of decimal digits.
pub open spec fn all_digits(s: Seq<u8>) -> bool {
    s.len() > 0 && forall|i: int| 0 <= i < s.len() ==> is_digit(#[trigger] s[i])
}

/// The decimal digits of `n`.
pub fn u64_to_decimal(n: u64) -> (r: Vec<u8>)
    ensures
        r@ == decimal(n as nat),
    decreases n,
{
    if n < 10 {
        let mut r: Vec<u8> = Vec::new();
        r.push((48 + n) as u8);
        r
    } else {
        let mut r = u64_to_decimal(n / 10);
        r.push((48 + n % 10) as u8);
        r
    }
}

/// The number that a string of decimal digits stands for; `None` when the
/// string is empty, holds anything but digits or does not fit in 64 bits.
pub fn parse_decimal(s: &[u8]) -> (r: Option<u64>)
    ensures
        r.is_some() <==> all_digits(s@) && decimal_value(s@) <= u64::MAX,
        r matches Some(v) ==> v as nat == decimal_value(s@),
{
    if s.len() == 0 {
        return None;
    }
    let mut v: u64 = 0;
    let mut i: usize = 0;
    while i < s.len()
        invariant
            i <= s@.len(),
            forall|j: int| 0 <= j < i ==> is_digit(#[trigger] s@[j]),
            v as nat == decimal_value(s@.subrange(0, i as int)),
        decreases s@.len() - i,
    {
        let c = s[i];
        let ghost pre = s@.subrange(0, i as int);
        let ghost next = s@.subrange(0, i + 1);
        assert(next.drop_last() =~= pre);
        if c < 48 || c > 57 {
            return None;
        }
        let d = (c - 48) as u64;
        if v > (u64::MAX - d) / 10 {
            proof {
                assert(decimal_value(next) == 10 * decimal_value(pre) + d);
                assert(10 * v + d > u64::MAX) by (nonlinear_arith)
                    requires
                        v > (u64::MAX - d) / 10,
                        d <= 9,
                ;
                if all_digits(s@) {
                    lemma_decimal_value_prefix_grows(s@, i as int + 1);
                }
            }
            return None;
        }
        v = v * 10 + d;
        i = i + 1;
    }
    assert(s@.subrange(0, s@.len() as int) =~= s@);
    Some(v)
}

/// The value of a digit string is at least the value of any prefix of it.
proof fn lemma_decimal_value_prefix_grows(s: Seq<u8>, n: int)
    requires
        0 <= n <= s.len(),
        all_digits(s),
    ensures
        decimal_value(s.subrange(0, n)) <= decimal_value(s),
    decreases s.len() - n,
{
    if n < s.len() {
        lemma_decimal_value_prefix_grows(s, n + 1);
        let p = s.subrange(0, n + 1);
        assert(p.drop_last() =~= s.subrange(0, n));
        assert(is_digit(s[n]));
        assert(p.last() == s[n]);
        assert(decimal_value(p) == 10 * decimal_value(s.subrange(0, n)) + (s[n] - 48) as nat);
    } else {
        assert(s.subrange(0, n) =~= s);
    }
}

/// Decimal digits read back as the number they were made from.
pub proof fn lemma_decimal_round_trip(n: nat)
    ensures
        all_digits(decimal(n)),
        decimal_value(decimal(n)) == n,
    decreases n,
{
    if n >= 10 {
        lemma_decimal_round_trip(n / 10);
        assert(decimal(n).drop_last() =~= decimal(n / 10));
        assert(decimal(n).last() == (48 + n % 10) as u8);
        assert forall|i: int| 0 <= i < decimal(n).len() implies is_digit(#[trigger] decimal(n)[i]) by {
            if i < decimal(n).len() - 1 {
                assert(decimal(n)[i] == decimal(n / 10)[i]);
            }
        }
    } else {
        assert(decimal(n).drop_last() =~= Seq::<u8>::empty());
        assert(decimal_value(Seq::<u8>::empty()) == 0);
    }
}

/// The digits of `n`, zero-padded on the left to at least nine.
pub open spec fn padded9(n: nat) -> Seq<u8> {
    let d = decimal(n);
    if d.len() < 9 {
        Seq::new((9 - d.len()) as nat, |i: int| 48u8) + d
    } else {
        d
    }
}

/// The name of data file `file_id`: nine or more digits and `.data`.
pub open spec fn data_file_name(file_id: nat) -> Seq<u8> {
    padded9(file_id) + data_suffix()
}

/// The bytes of `.data`.
pub open spec fn data_suffix() -> Seq<u8> {
    seq![46u8, 100u8, 97u8, 116u8, 97u8]
}

pub const DATA_FILE_NAME_SUFFIX: &'static str = ".data";
pub const HINT_FILE_NAME: &'static str = "hint-index";
pub const MERGE_FIN_FILE_NAME: &'static str = "merge-fin";
pub const SEQ_NO_FILE_NAME: &'static str = "seq-no";
pub const FILE_LOCK_NAME: &'static str = "flock";

/// The chars of an ASCII byte string.
pub open spec fn ascii_chars(b: Seq<u8>) -> Seq<char> {
    b.map_values(|c: u8| c as char)
}

/// Relies on String::from_utf8: ASCII bytes are valid UTF-8, one char each.
#[verifier::external_body]
fn ascii_string(b: Vec<u8>) -> (r: String)
    requires
        forall|i: int| 0 <= i < b@.len() ==> b@[i] < 128,
    ensures
        r@ == ascii_chars(b@),
{
    match String::from_utf8(b) {
        Ok(s) => s,
        Err(_) => String::new(),
    }
}

/// The name, within the data directory, of data file `file_id`.
pub fn get_data_file_name(file_id: u32) -> (r: String)
    ensures
        r@ == ascii_chars(data_file_name(file_id as nat)),
{
    let digits = u64_to_decimal(file_id as u64);
    proof {
        lemma_decimal_round_trip(file_id as nat);
    }
    let mut name: Vec<u8> = Vec::new();
    let mut pad: usize = digits.len();
    while pad < 9
        invariant
            digits@.len() <= pad <= 9 || (pad == digits@.len() && pad > 9),
            name@ == Seq::new((pad - digits@.len()) as nat, |i: int| 48u8),
        decreases 9 - pad,
    {
        name.push(48u8);
        pad = pad + 1;
        assert(name@ =~= Seq::new((pad - digits@.len()) as nat, |i: int| 48u8));
    }
    append_bytes(&mut name, digits.as_slice());
    let suffix: [u8; 5] = [46u8, 100u8, 97u8, 116u8, 97u8];
    append_bytes(&mut name, suffix.as_slice());
    proof {
        if digits@.len() >= 9 {
            assert(name@.subrange(0, 0) =~= Seq::<u8>::empty());
        }
        assert(name@ =~= data_file_name(file_id as nat));
        assert forall|i: int| 0 <= i < name@.len() implies name@[i] < 128 by {
            if i < pad - digits@.len() {
            } else if i < pad {
                assert(is_digit(digits@[i - (pad - digits@.len())]));
            }
        }
    }
    ascii_string(name)
}

} // verus!
