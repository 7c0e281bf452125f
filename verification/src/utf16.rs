//! Conversion between Rust strings and the NUL-terminated UTF-16 strings
//! that the Windows API takes and gives.
use vstd::prelude::*;

verus! {

/// The UTF-16 code units of `c`: the code point itself below U+10000,
/// otherwise a high and a low surrogate.
pub open spec fn utf16_units(c: char) -> Seq<u16> {
    let v = c as u32;
    if v < 0x1_0000 {
        seq![v as u16]
    } else {
        seq![(0xD800 + (v - 0x1_0000) / 0x400) as u16, (0xDC00 + (v - 0x1_0000) % 0x400) as u16]
    }
}

/// The UTF-16 encoding of `s`.
pub open spec fn utf16_of(s: Seq<char>) -> Seq<u16>
    decreases s.len(),
{
    if s.len() == 0 {
        Seq::empty()
    } else {
        utf16_units(s[0]) + utf16_of(s.drop_first())
    }
}

/// Encoding one more character appends its units.
proof fn lemma_utf16_of_push(s: Seq<char>, c: char)
    ensures
        utf16_of(s.push(c)) == utf16_of(s) + utf16_units(c),
    decreases s.len(),
{
    if s.len() == 0 {
        assert(s.push(c).drop_first() =~= Seq::<char>::empty());
        assert(utf16_of(Seq::<char>::empty()) == Seq::<u16>::empty());
        assert(utf16_of(s) == Seq::<u16>::empty());
        assert(utf16_of(s.push(c)) == utf16_units(c) + utf16_of(s.push(c).drop_first()));
        assert(utf16_of(s.push(c)) =~= utf16_units(c));
    } else {
        assert(s.push(c).drop_first() =~= s.drop_first().push(c));
        lemma_utf16_of_push(s.drop_first(), c);
        assert(utf16_of(s.push(c)) =~= utf16_units(s[0]) + (utf16_of(s.drop_first()) + utf16_units(c)));
    }
}

/// Encodes `string` as UTF-16, followed by a terminating zero unit.
pub fn encode_utf16(string: &str) -> (r: Vec<u16>)
    ensures
        r@ == utf16_of(string@).push(0u16),
{
    let mut out: Vec<u16> = Vec::new();
    let ghost chars = string@;
    for c in it: string.chars()
        invariant
            it.seq() == chars,
            out@ == utf16_of(chars.take(it.index() as int)),
    {
        proof {
            lemma_utf16_of_push(chars.take(it.index() as int), c);
            assert(chars.take(it.index() + 1) =~= chars.take(it.index() as int).push(c));
        }
        let v = c as u32;
        proof {
            vstd::utf8::char_is_scalar(c);
        }
        if v < 0x1_0000 {
            out.push(v as u16);
        } else {
            let w = v - 0x1_0000;
            out.push((0xD800 + w / 0x400) as u16);
            out.push((0xDC00 + w % 0x400) as u16);
        }
        assert(out@ =~= utf16_of(chars.take(it.index() as int)) + utf16_units(c));
    }
    assert(chars.take(chars.len() as int) =~= chars);
    out.push(0);
    out
}

/// The characters that the UTF-16 units `u` decode to, each unpaired
/// surrogate becoming U+FFFD.
pub open spec fn utf16_decode_lossy(u: Seq<u16>) -> Seq<char>
    decreases u.len(),
{
    if u.len() == 0 {
        Seq::empty()
    } else if 0xD800 <= u[0] <= 0xDBFF && u.len() >= 2 && 0xDC00 <= u[1] <= 0xDFFF {
        seq![((0x1_0000 + (u[0] - 0xD800) * 0x400 + (u[1] - 0xDC00)) as u32) as char] + utf16_decode_lossy(u.skip(2))
    } else if 0xD800 <= u[0] <= 0xDFFF {
        seq!['\u{FFFD}'] + utf16_decode_lossy(u.skip(1))
    } else {
        seq![(u[0] as u32) as char] + utf16_decode_lossy(u.skip(1))
    }
}

/// The units of `s` before its first zero unit (all of them if it has
/// none).
pub open spec fn units_before_nul(s: Seq<u16>) -> Seq<u16>
    decreases s.len(),
{
    if s.len() == 0 || s[0] == 0 {
        Seq::empty()
    } else {
        seq![s[0]] + units_before_nul(s.drop_first())
    }
}

/// The units before the first zero are the prefix up to a zero unit (or
/// the end) with no zero unit in it.
proof fn lemma_units_before_nul(s: Seq<u16>, e: int)
    requires
        0 <= e <= s.len(),
        forall|k: int| 0 <= k < e ==> s[k] != 0,
        e < s.len() ==> s[e] == 0,
    ensures
        units_before_nul(s) == s.take(e),
    decreases e,
{
    if e == 0 {
        assert(s.take(0) =~= Seq::<u16>::empty());
    } else {
        lemma_units_before_nul(s.drop_first(), e - 1);
        assert(s.take(e) =~= seq![s[0]] + s.drop_first().take(e - 1));
    }
}

/// `String::from_utf16_lossy`: the string the units decode to, with every
/// unpaired surrogate replaced by U+FFFD (the replacement that
/// `char::decode_utf16` documents for each unit it cannot pair).
#[verifier::external_body]
fn string_from_utf16_lossy(v: &[u16]) -> (s: String)
    ensures
        s@ == utf16_decode_lossy(v@),
{
    String::from_utf16_lossy(v)
}

/// Decodes a UTF-16 string up to its first zero unit (or its end), with
/// every unpaired surrogate replaced by U+FFFD.
pub fn decode_utf16(string: &[u16]) -> (r: String)
    ensures
        r@ == utf16_decode_lossy(units_before_nul(string@)),
{
    let n = string.len();
    let mut end: usize = 0;
    while end < n && string[end] != 0
        invariant
            n == string@.len(),
            end <= n,
            forall|k: int| 0 <= k < end ==> string@[k] != 0,
        decreases n - end,
    {
        end = end + 1;
    }
    proof {
        lemma_units_before_nul(string@, end as int);
    }
    let prefix = &string[0..end];
    assert(prefix@ =~= string@.take(end as int));
    string_from_utf16_lossy(prefix)
}

/// No unit of the encoding of a string without NUL characters is zero.
proof fn lemma_utf16_no_zero(s: Seq<char>)
    requires
        forall|i: int| 0 <= i < s.len() ==> #[trigger] (s[i] as u32) != 0,
    ensures
        forall|k: int| 0 <= k < utf16_of(s).len() ==> #[trigger] utf16_of(s)[k] != 0,
    decreases s.len(),
{
    if s.len() > 0 {
        assert(s[0] as u32 != 0);
        assert forall|i: int| 0 <= i < s.drop_first().len() implies #[trigger] (s.drop_first()[i] as u32) != 0 by {
            assert(s.drop_first()[i] == s[i + 1]);
            assert(s[i + 1] as u32 != 0);
        }
        lemma_utf16_no_zero(s.drop_first());
        let u = utf16_units(s[0]);
        let rest = utf16_of(s.drop_first());
        vstd::utf8::char_is_scalar(s[0]);
        assert(utf16_of(s) == u + rest);
        assert forall|k: int| 0 <= k < utf16_of(s).len() implies #[trigger] utf16_of(s)[k] != 0 by {
            if k >= u.len() {
                assert(utf16_of(s)[k] == rest[k - u.len()]);
            } else {
                assert(utf16_of(s)[k] == u[k]);
            }
        }
    }
}

/// Decoding the encoding of a string gives the string back.
proof fn lemma_utf16_decode_of(s: Seq<char>)
    ensures
        utf16_decode_lossy(utf16_of(s)) == s,
    decreases s.len(),
{
    if s.len() > 0 {
        let c = s[0];
        let v = c as u32;
        vstd::utf8::char_is_scalar(c);
        vstd::utf8::char_u32_cast(c, v);
        let rest = utf16_of(s.drop_first());
        let u = utf16_units(c) + rest;
        lemma_utf16_decode_of(s.drop_first());
        if v < 0x1_0000 {
            assert(u.skip(1) =~= rest);
            assert(u[0] as u32 == v);
        } else {
            let w = (v - 0x1_0000) as int;
            assert(u.skip(2) =~= rest);
            assert((w / 0x400) * 0x400 + w % 0x400 == w);
            assert((0x1_0000 + (u[0] - 0xD800) * 0x400 + (u[1] - 0xDC00)) as u32 == v);
        }
        assert(utf16_decode_lossy(u) =~= seq![c] + s.drop_first());
        assert(seq![c] + s.drop_first() =~= s);
    }
}

/// Decoding what [`encode_utf16`] gives for a string without NUL
/// characters gives the string back.
pub proof fn lemma_utf16_roundtrip(s: Seq<char>)
    requires
        forall|i: int| 0 <= i < s.len() ==> #[trigger] (s[i] as u32) != 0,
    ensures
        utf16_decode_lossy(units_before_nul(utf16_of(s).push(0u16))) == s,
{
    let e = utf16_of(s);
    lemma_utf16_no_zero(s);
    lemma_units_before_nul(e.push(0u16), e.len() as int);
    assert(e.push(0u16).take(e.len() as int) =~= e);
    lemma_utf16_decode_of(s);
}

} // verus!
