//! Device names of the BSD and macOS back ends: a prefix that names the kind
//! of device (`tun`, `tap`, `utun`) followed by a decimal unit number.
use vstd::prelude::*;
use vstd::string::StringSliceAdditionalSpecFns;

verus! {

/// Why a device name is refused.
#[derive(Debug, Clone, Copy, PartialEq, Eq, Structural)]
pub enum DevNameError {
    /// The name is longer than the limit.
    TooLong,
    /// The name does not start with the prefix of the device kind.
    BadPrefix,
    /// What follows the prefix is not a unit number.
    BadNumber,
}

/// Whether `c` is an ASCII decimal digit.
pub open spec fn is_digit(c: char) -> bool {
    48 <= (c as u32) <= 57
}

/// The value of the decimal digits `s`.
pub open spec fn digits_value(s: Seq<char>) -> nat
    decreases s.len(),
{
    if s.len() == 0 {
        0
    } else {
        digits_value(s.drop_last()) * 10 + ((s.last() as u32) - 48) as nat
    }
}

/// What `str::parse::<u32>` gives: an optional `+` followed by at least one
/// decimal digit, whose value fits in 32 bits.
pub open spec fn parse_u32_spec(s: Seq<char>) -> Option<u32> {
    let d = unsigned_digits(s);
    if d.len() > 0 && all_digits(d) && digits_value(d) <= u32::MAX {
        Some(digits_value(d) as u32)
    } else {
        None
    }
}

/// `s` without a leading `+`, where one is followed by more.
pub open spec fn unsigned_digits(s: Seq<char>) -> Seq<char> {
    if s.len() > 1 && s[0] == '+' {
        s.drop_first()
    } else {
        s
    }
}

/// Every character of `d` is a decimal digit.
pub open spec fn all_digits(d: Seq<char>) -> bool {
    forall|i: int| 0 <= i < d.len() ==> #[trigger] is_digit(d[i])
}

/// The value of digits never shrinks as digits are added.
proof fn lemma_digits_value_prefix(s: Seq<char>, k: int)
    requires
        0 <= k <= s.len(),
        all_digits(s),
    ensures
        digits_value(s.take(k)) <= digits_value(s),
    decreases s.len() - k,
{
    if k < s.len() {
        let t = s.take(k + 1);
        assert(t.drop_last() =~= s.take(k));
        lemma_digits_value_prefix(s, k + 1);
    } else {
        assert(s.take(k) =~= s);
    }
}

/// Parses a decimal unit number, as `str::parse::<u32>` does.
pub fn parse_u32(s: &[char]) -> (r: Option<u32>)
    ensures
        r == parse_u32_spec(s@),
{
    let n = s.len();
    let start: usize = if n > 1 && s[0] == '+' { 1 } else { 0 };
    let ghost d = unsigned_digits(s@);
    assert(d =~= s@.skip(start as int));
    if start >= n {
        return None;
    }
    let mut value: u64 = 0;
    let mut k: usize = start;
    while k < n
        invariant
            start <= k <= n,
            n == s@.len(),
            d == s@.skip(start as int),
            d == unsigned_digits(s@),
            value <= u32::MAX,
            forall|i: int| 0 <= i < k - start ==> #[trigger] is_digit(d[i]),
            value == digits_value(d.take(k - start)),
        decreases n - k,
    {
        let c = s[k];
        let cv = c as u32;
        assert(d[k - start] == c);
        assert(cv == c as u32);
        if cv < 48 || cv > 57 {
            assert(!is_digit(d[k - start]));
            assert(!all_digits(d));
            assert(parse_u32_spec(s@) is None);
            return None;
        }
        let ghost t = d.take(k - start + 1);
        assert(t.drop_last() =~= d.take(k - start));
        assert(t.last() == c);
        let next = value * 10 + (cv - 48) as u64;
        assert(next == digits_value(t));
        if next > u32::MAX as u64 {
            proof {
                if all_digits(d) {
                    lemma_digits_value_prefix(d, k - start + 1);
                }
            }
            assert(parse_u32_spec(s@) is None);
            return None;
        }
        value = next;
        k = k + 1;
    }
    assert(d.take(n - start) =~= d);
    Some(value as u32)
}

/// The characters of `s`.
fn chars_of(s: &str) -> (r: Vec<char>)
    ensures
        r@ == s@,
{
    let mut out: Vec<char> = Vec::new();
    let ghost cs = s@;
    for c in it: s.chars()
        invariant
            it.seq() == cs,
            out@ == cs.take(it.index() as int),
    {
        out.push(c);
        assert(out@ =~= cs.take(it.index() + 1));
    }
    assert(cs.take(cs.len() as int) =~= cs);
    out
}

/// The unit number a device name carries: a name of at most `max_len`
/// bytes (where there is a limit) that starts with `prefix`, followed by a
/// number as [`parse_u32_spec`] reads it.
pub open spec fn device_unit_spec(name_len: nat, name: Seq<char>, prefix: Seq<char>, max_len: Option<usize>) -> Result<u32, DevNameError> {
    if max_len matches Some(m) && name_len > m {
        Err(DevNameError::TooLong)
    } else if !prefix.is_prefix_of(name) {
        Err(DevNameError::BadPrefix)
    } else {
        match parse_u32_spec(name.skip(prefix.len() as int)) {
            Some(v) => Ok(v),
            None => Err(DevNameError::BadNumber),
        }
    }
}

/// The unit number of the device name `name`, as [`device_unit_spec`] says.
pub fn device_unit(name: &str, prefix: &str, max_len: Option<usize>) -> (r: Result<u32, DevNameError>)
    ensures
        r == device_unit_spec(name.len() as nat, name@, prefix@, max_len),
{
    if let Some(m) = max_len {
        if name.len() > m {
            return Err(DevNameError::TooLong);
        }
    }
    let cs = chars_of(name);
    let ps = chars_of(prefix);
    let np = ps.len();
    if cs.len() < np {
        assert(!ps@.is_prefix_of(cs@));
        return Err(DevNameError::BadPrefix);
    }
    let mut k: usize = 0;
    while k < np
        invariant
            np == ps@.len(),
            np <= cs@.len(),
            cs@ == name@,
            ps@ == prefix@,
            !(max_len matches Some(m) && name.len() > m),
            k <= np,
            forall|i: int| 0 <= i < k ==> cs@[i] == ps@[i],
        decreases np - k,
    {
        if cs[k] != ps[k] {
            assert(cs@.subrange(0, np as int)[k as int] != ps@[k as int]);
            assert(!ps@.is_prefix_of(cs@));
            return Err(DevNameError::BadPrefix);
        }
        k = k + 1;
    }
    assert(ps@.is_prefix_of(cs@)) by {
        assert(cs@.subrange(0, np as int) =~= ps@);
    }
    let rest = &cs.as_slice()[np..cs.len()];
    assert(rest@ =~= cs@.skip(np as int));
    match parse_u32(rest) {
        Some(v) => Ok(v),
        None => Err(DevNameError::BadNumber),
    }
}

/// The size of an interface name field (`IFNAMSIZ`) on macOS and the BSDs.
pub const IFNAMSIZ: usize = 16;

/// The bytes of `feth`.
pub open spec fn feth_bytes() -> Seq<u8> {
    seq![0x66u8, 0x65u8, 0x74u8, 0x68u8]
}

/// The `ifr_name` field for the fake-ethernet interface `name`: a name of
/// fewer than [`IFNAMSIZ`] bytes that starts with `feth`, followed by zero
/// bytes up to [`IFNAMSIZ`].
pub open spec fn feth_ifr_name_spec(name: Seq<u8>) -> Result<Seq<u8>, DevNameError> {
    if name.len() >= IFNAMSIZ {
        Err(DevNameError::TooLong)
    } else if name.len() < 4 || name.subrange(0, 4) != feth_bytes() {
        Err(DevNameError::BadPrefix)
    } else {
        Ok(name + Seq::new((IFNAMSIZ - name.len()) as nat, |i: int| 0u8))
    }
}

/// The `ifr_name` field for the fake-ethernet interface `name`, as
/// [`feth_ifr_name_spec`] says.
pub fn feth_ifr_name(name: &str) -> (r: Result<Vec<u8>, DevNameError>)
    ensures
        match r {
            Ok(v) => feth_ifr_name_spec(name.spec_bytes()) == Ok::<Seq<u8>, DevNameError>(v@),
            Err(e) => feth_ifr_name_spec(name.spec_bytes()) == Err::<Seq<u8>, DevNameError>(e),
        },
{
    let bytes = name.as_bytes();
    let n = bytes.len();
    if n >= IFNAMSIZ {
        return Err(DevNameError::TooLong);
    }
    if n < 4 || bytes[0] != 0x66 || bytes[1] != 0x65 || bytes[2] != 0x74 || bytes[3] != 0x68 {
        proof {
            if n >= 4 {
                assert(bytes@.subrange(0, 4) != feth_bytes()) by {
                    if bytes@.subrange(0, 4) == feth_bytes() {
                        assert(bytes@.subrange(0, 4)[0] == bytes@[0]);
                        assert(bytes@.subrange(0, 4)[1] == bytes@[1]);
                        assert(bytes@.subrange(0, 4)[2] == bytes@[2]);
                        assert(bytes@.subrange(0, 4)[3] == bytes@[3]);
                    }
                }
            }
        }
        return Err(DevNameError::BadPrefix);
    }
    assert(bytes@.subrange(0, 4) =~= feth_bytes());
    let mut out: Vec<u8> = Vec::with_capacity(IFNAMSIZ);
    let mut k: usize = 0;
    while k < IFNAMSIZ
        invariant
            n == bytes@.len(),
            n < IFNAMSIZ,
            k <= IFNAMSIZ,
            out@.len() == k,
            forall|i: int| 0 <= i < k && i < n ==> out@[i] == bytes@[i],
            forall|i: int| n <= i < k ==> out@[i] == 0u8,
        decreases IFNAMSIZ - k,
    {
        if k < n {
            out.push(bytes[k]);
        } else {
            out.push(0u8);
        }
        k = k + 1;
    }
    assert(out@ =~= bytes@ + Seq::new((IFNAMSIZ - n) as nat, |i: int| 0u8));
    Ok(out)
}

} // verus!
