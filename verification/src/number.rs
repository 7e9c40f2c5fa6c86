//! Reading and writing unsigned integers as text, the way `str::parse`,
//! `from_str_radix` and `format!` do it for the unsigned types.

use vstd::prelude::*;

verus! {

/// The value of `c` as a digit in `radix` (10 or 16), if it is one.
pub open spec fn digit_of(c: char, radix: nat) -> Option<nat> {
    let u = c as u32;
    if 48 <= u <= 57 {
        Some((u - 48) as nat)
    } else if radix == 16 && 97 <= u <= 102 {
        Some((u - 87) as nat)
    } else if radix == 16 && 65 <= u <= 70 {
        Some((u - 55) as nat)
    } else {
        None
    }
}

/// Every character of `s` is a digit in `radix`.
pub open spec fn all_digits(s: Seq<char>, radix: nat) -> bool {
    forall|i: int| 0 <= i < s.len() ==> (#[trigger] digit_of(s[i], radix)) is Some
}

/// The number the digits of `s` spell in `radix`, most significant first.
pub open spec fn radix_value(s: Seq<char>, radix: nat) -> nat
    decreases s.len(),
{
    if s.len() == 0 {
        0
    } else {
        radix_value(s.drop_last(), radix) * radix + match digit_of(s.last(), radix) {
            Some(d) => d,
            None => 0,
        }
    }
}

/// `s` without the one leading `+` that `from_str_radix` allows.
pub open spec fn unsigned_digits(s: Seq<char>) -> Seq<char> {
    if s.len() > 0 && s[0] == '+' {
        s.drop_first()
    } else {
        s
    }
}

/// `from_str_radix` for an unsigned type whose largest value is `max`: an
/// optional `+`, then one or more digits, and a value that fits.
pub open spec fn parse_radix(s: Seq<char>, radix: nat, max: nat) -> Option<nat> {
    let d = unsigned_digits(s);
    if d.len() > 0 && all_digits(d, radix) && radix_value(d, radix) <= max {
        Some(radix_value(d, radix))
    } else {
        None
    }
}

proof fn lemma_value_mono(d: Seq<char>, radix: nat, k: int)
    requires
        radix >= 1,
        0 <= k <= d.len(),
        all_digits(d, radix),
    ensures
        radix_value(d.take(k), radix) <= radix_value(d, radix),
    decreases d.len(),
{
    if k == d.len() {
        assert(d.take(k) =~= d);
    } else {
        let p = d.drop_last();
        assert(all_digits(p, radix)) by {
            assert forall|i: int| 0 <= i < p.len() implies (#[trigger] digit_of(p[i], radix)) is Some by {
                assert(p[i] == d[i]);
            }
        }
        lemma_value_mono(p, radix, k);
        assert(p.take(k) =~= d.take(k));
        let v = radix_value(p, radix);
        assert(v * radix >= v) by (nonlinear_arith)
            requires
                radix >= 1,
        ;
    }
}

proof fn lemma_digits_extend(d: Seq<char>, radix: nat, k: int)
    requires
        0 <= k < d.len(),
        all_digits(d.take(k), radix),
        digit_of(d[k], radix) is Some,
    ensures
        all_digits(d.take(k + 1), radix),
{
    assert forall|m: int| 0 <= m < k + 1 implies (#[trigger] digit_of(
        d.take(k + 1)[m],
        radix,
    )) is Some by {
        if m < k {
            assert(d.take(k + 1)[m] == d.take(k)[m]);
        }
    }
}

fn digit_exec(c: char, radix: u32) -> (res: Option<u32>)
    requires
        radix == 10 || radix == 16,
    ensures
        match res {
            Some(d) => digit_of(c, radix as nat) == Some(d as nat) && d < radix,
            None => digit_of(c, radix as nat) is None,
        },
{
    let u = c as u32;
    if 48 <= u && u <= 57 {
        Some(u - 48)
    } else if radix == 16 && 97 <= u && u <= 102 {
        Some(u - 87)
    } else if radix == 16 && 65 <= u && u <= 70 {
        Some(u - 55)
    } else {
        None
    }
}

/// `from_str_radix(s, radix)` for an unsigned type whose largest value is `max`.
pub fn parse_unsigned(s: &Vec<char>, radix: u32, max: u64) -> (res: Option<u64>)
    requires
        radix == 10 || radix == 16,
    ensures
        match res {
            Some(v) => parse_radix(s@, radix as nat, max as nat) == Some(v as nat),
            None => parse_radix(s@, radix as nat, max as nat) is None,
        },
{
    let start: usize = if s.len() > 0 && s[0] == '+' {
        1
    } else {
        0
    };
    let ghost d = unsigned_digits(s@);
    assert(d =~= s@.subrange(start as int, s@.len() as int));
    if start == s.len() {
        return None;
    }
    let mut v: u128 = 0;
    let mut i = start;
    assert(d.take(0) =~= Seq::<char>::empty());
    while i < s.len()
        invariant
            start <= i <= s.len(),
            d == s@.subrange(start as int, s@.len() as int),
            d == unsigned_digits(s@),
            radix == 10 || radix == 16,
            all_digits(d.take(i - start), radix as nat),
            v == radix_value(d.take(i - start), radix as nat),
            v <= max,
        decreases s.len() - i,
    {
        let k = i - start;
        assert(d.take(k + 1).drop_last() =~= d.take(k as int));
        assert(d.take(k + 1).last() == s@[i as int]);
        match digit_exec(s[i], radix) {
            None => {
                assert(d[k as int] == s@[i as int]);
                assert(digit_of(d[k as int], radix as nat) is None);
                assert(!all_digits(d, radix as nat));
                return None;
            },
            Some(dig) => {
                assert(v * (radix as u128) <= (u64::MAX as u128) * 16) by (nonlinear_arith)
                    requires
                        v <= u64::MAX,
                        radix <= 16,
                ;
                v = v * (radix as u128) + (dig as u128);
                proof {
                    lemma_digits_extend(d, radix as nat, k as int);
                }
                if v > max as u128 {
                    proof {
                        if all_digits(d, radix as nat) {
                            lemma_value_mono(d, radix as nat, k + 1);
                            assert(radix_value(d, radix as nat) > max);
                        }
                    }
                    return None;
                }
            },
        }
        i += 1;
    }
    assert(d.take(d.len() as int) =~= d);
    Some(v as u64)
}

/// `str::parse::<u16>` on characters.
pub fn parse_u16(s: &Vec<char>) -> (res: Option<u16>)
    ensures
        match res {
            Some(v) => parse_radix(s@, 10, u16::MAX as nat) == Some(v as nat),
            None => parse_radix(s@, 10, u16::MAX as nat) is None,
        },
{
    match parse_unsigned(s, 10, 0xffff) {
        Some(v) => Some(v as u16),
        None => None,
    }
}

/// `str::parse::<u8>` on characters.
pub fn parse_u8(s: &Vec<char>) -> (res: Option<u8>)
    ensures
        match res {
            Some(v) => parse_radix(s@, 10, u8::MAX as nat) == Some(v as nat),
            None => parse_radix(s@, 10, u8::MAX as nat) is None,
        },
{
    match parse_unsigned(s, 10, 0xff) {
        Some(v) => Some(v as u8),
        None => None,
    }
}

/// `str::parse::<u32>` on characters.
pub fn parse_u32(s: &Vec<char>) -> (res: Option<u32>)
    ensures
        match res {
            Some(v) => parse_radix(s@, 10, u32::MAX as nat) == Some(v as nat),
            None => parse_radix(s@, 10, u32::MAX as nat) is None,
        },
{
    match parse_unsigned(s, 10, 0xffff_ffff) {
        Some(v) => Some(v as u32),
        None => None,
    }
}

/// `u32::from_str_radix(s, 16)` on characters.
pub fn parse_hex_u32(s: &Vec<char>) -> (res: Option<u32>)
    ensures
        match res {
            Some(v) => parse_radix(s@, 16, u32::MAX as nat) == Some(v as nat),
            None => parse_radix(s@, 16, u32::MAX as nat) is None,
        },
{
    match parse_unsigned(s, 16, 0xffff_ffff) {
        Some(v) => Some(v as u32),
        None => None,
    }
}

/// `str::parse::<usize>` on characters.
pub fn parse_usize(s: &Vec<char>) -> (res: Option<usize>)
    ensures
        match res {
            Some(v) => parse_radix(s@, 10, usize::MAX as nat) == Some(v as nat),
            None => parse_radix(s@, 10, usize::MAX as nat) is None,
        },
{
    match parse_unsigned(s, 10, usize::MAX as u64) {
        Some(v) => Some(v as usize),
        None => None,
    }
}

/// The digit character for `d` (below 16).
pub open spec fn digit_char(d: nat, upper: bool) -> char {
    if d < 10 {
        (48 + d) as char
    } else if upper {
        (55 + d) as char
    } else {
        (87 + d) as char
    }
}

/// `n` written in decimal, as `format!("{n}")` does.
pub open spec fn decimal(n: nat) -> Seq<char>
    decreases n,
{
    if n < 10 {
        seq![digit_char(n, false)]
    } else {
        decimal(n / 10).push(digit_char(n % 10, false))
    }
}

/// `n` written in hexadecimal, as `format!("{n:x}")` or `{n:X}` does.
pub open spec fn hex(n: nat, upper: bool) -> Seq<char>
    decreases n,
{
    if n < 16 {
        seq![digit_char(n, upper)]
    } else {
        hex(n / 16, upper).push(digit_char(n % 16, upper))
    }
}

/// `s` padded on the left with `'0'` to at least `width` characters.
pub open spec fn zero_pad(s: Seq<char>, width: nat) -> Seq<char> {
    if s.len() < width {
        Seq::new((width - s.len()) as nat, |i: int| '0') + s
    } else {
        s
    }
}

fn digit_char_exec(d: u64, upper: bool) -> (c: char)
    requires
        d < 16,
    ensures
        c == digit_char(d as nat, upper),
{
    let b: u8 = if d < 10 {
        48 + d as u8
    } else if upper {
        55 + d as u8
    } else {
        87 + d as u8
    };
    b as char
}

/// `format!("{n}")` as characters.
pub fn decimal_chars(n: u64) -> (res: Vec<char>)
    ensures
        res@ == decimal(n as nat),
    decreases n,
{
    if n < 10 {
        let mut v = Vec::new();
        v.push(digit_char_exec(n, false));
        assert(v@ =~= seq![digit_char(n as nat, false)]);
        v
    } else {
        let mut v = decimal_chars(n / 10);
        v.push(digit_char_exec(n % 10, false));
        v
    }
}

/// `format!("{n:x}")` (or `{n:X}` when `upper`) as characters.
pub fn hex_chars(n: u64, upper: bool) -> (res: Vec<char>)
    ensures
        res@ == hex(n as nat, upper),
    decreases n,
{
    if n < 16 {
        let mut v = Vec::new();
        v.push(digit_char_exec(n, upper));
        assert(v@ =~= seq![digit_char(n as nat, upper)]);
        v
    } else {
        let mut v = hex_chars(n / 16, upper);
        v.push(digit_char_exec(n % 16, upper));
        v
    }
}

/// `s` padded on the left with `'0'` to at least `width` characters.
pub fn zero_padded(s: &Vec<char>, width: usize) -> (res: Vec<char>)
    ensures
        res@ == zero_pad(s@, width as nat),
{
    let mut out: Vec<char> = Vec::new();
    if s.len() < width {
        let n = width - s.len();
        let mut i: usize = 0;
        while i < n
            invariant
                i <= n,
                out@ == Seq::new(i as nat, |k: int| '0'),
            decreases n - i,
        {
            out.push('0');
            i += 1;
            assert(out@ =~= Seq::new(i as nat, |k: int| '0'));
        }
    }
    let mut j: usize = 0;
    let ghost pre = out@;
    while j < s.len()
        invariant
            j <= s.len(),
            out@ == pre + s@.take(j as int),
        decreases s.len() - j,
    {
        out.push(s[j]);
        j += 1;
        assert(s@.take(j as int) =~= s@.take(j - 1).push(s@[j - 1]));
    }
    assert(s@.take(s.len() as int) =~= s@);
    assert(out@ =~= zero_pad(s@, width as nat));
    out
}


/// `decimal(n)` is a non-empty run of ASCII digits whose value is `n`.
pub proof fn lemma_decimal_digits(n: nat)
    ensures
        decimal(n).len() > 0,
        forall|i: int| 0 <= i < decimal(n).len() ==> 48 <= (#[trigger] decimal(n)[i] as u32) <= 57,
        all_digits(decimal(n), 10),
        radix_value(decimal(n), 10) == n,
    decreases n,
{
    if n < 10 {
        let c = digit_char(n, false);
        assert(c as u32 == 48 + n);
        assert(decimal(n) =~= seq![c]);
        assert(decimal(n).drop_last() =~= Seq::<char>::empty());
        assert(digit_of(c, 10) == Some(n));
        assert(radix_value(decimal(n), 10) == radix_value(Seq::<char>::empty(), 10) * 10 + n);
    } else {
        lemma_decimal_digits(n / 10);
        let p = decimal(n / 10);
        let c = digit_char(n % 10, false);
        assert(c as u32 == 48 + n % 10);
        let d = p.push(c);
        assert(d.drop_last() =~= p);
        assert forall|i: int| 0 <= i < d.len() implies 48 <= (#[trigger] d[i] as u32) <= 57 by {
            if i < p.len() {
                assert(d[i] == p[i]);
            }
        }
        assert forall|i: int| 0 <= i < d.len() implies (#[trigger] digit_of(d[i], 10)) is Some by {
            assert(48 <= (d[i] as u32) <= 57);
        }
        assert(digit_of(c, 10) == Some(n % 10));
        assert(decimal(n) == d);
        assert(radix_value(d, 10) == radix_value(p, 10) * 10 + n % 10);
        assert(n == (n / 10) * 10 + n % 10);
    }
}

/// Reading back what `decimal` wrote gives the number again.
pub proof fn lemma_decimal_parses(n: nat, max: nat)
    requires
        n <= max,
    ensures
        parse_radix(decimal(n), 10, max) == Some(n),
{
    lemma_decimal_digits(n);
    assert(48 <= (decimal(n)[0] as u32) <= 57);
    assert(unsigned_digits(decimal(n)) == decimal(n));
}


proof fn lemma_digit_char(d: nat, upper: bool)
    requires
        d < 16,
    ensures
        digit_of(digit_char(d, upper), 16) == Some(d),
        digit_char(d, upper) != '+',
{
    let c = digit_char(d, upper);
    if d < 10 {
        assert(c as u32 == 48 + d);
    } else if upper {
        assert(c as u32 == 55 + d);
    } else {
        assert(c as u32 == 87 + d);
    }
}

/// `hex(n, upper)` is a non-empty run of hex digits whose value is `n`.
pub proof fn lemma_hex_digits(n: nat, upper: bool)
    ensures
        hex(n, upper).len() > 0,
        all_digits(hex(n, upper), 16),
        radix_value(hex(n, upper), 16) == n,
        hex(n, upper)[0] != '+',
    decreases n,
{
    if n < 16 {
        let c = digit_char(n, upper);
        lemma_digit_char(n, upper);
        assert(hex(n, upper) =~= seq![c]);
        assert(hex(n, upper).drop_last() =~= Seq::<char>::empty());
        assert(digit_of(c, 16) == Some(n));
        assert(radix_value(hex(n, upper), 16) == radix_value(Seq::<char>::empty(), 16) * 16 + n);
    } else {
        lemma_hex_digits(n / 16, upper);
        let p = hex(n / 16, upper);
        let c = digit_char(n % 16, upper);
        lemma_digit_char(n % 16, upper);
        let d = p.push(c);
        assert(d.drop_last() =~= p);
        assert(digit_of(c, 16) == Some(n % 16));
        assert forall|i: int| 0 <= i < d.len() implies (#[trigger] digit_of(d[i], 16)) is Some by {
            if i < p.len() {
                assert(d[i] == p[i]);
            }
        }
        assert(hex(n, upper) == d);
        assert(d[0] == p[0]);
        assert(radix_value(d, 16) == radix_value(p, 16) * 16 + n % 16);
        assert(n == (n / 16) * 16 + n % 16);
    }
}

/// Leading zeros do not change the value digits spell.
pub proof fn lemma_leading_zeros(z: nat, s: Seq<char>, radix: nat)
    ensures
        radix_value(Seq::new(z, |i: int| '0') + s, radix) == radix_value(s, radix),
        all_digits(s, radix) ==> all_digits(Seq::new(z, |i: int| '0') + s, radix),
    decreases s.len(), z,
{
    let zs = Seq::new(z, |i: int| '0');
    let t = zs + s;
    if s.len() > 0 {
        lemma_leading_zeros(z, s.drop_last(), radix);
        assert(t.drop_last() =~= zs + s.drop_last());
        assert(t.last() == s.last());
        assert(radix_value(t, radix) == radix_value(t.drop_last(), radix) * radix + match digit_of(
            t.last(),
            radix,
        ) {
            Some(d) => d,
            None => 0,
        });
        if all_digits(s, radix) {
            assert forall|i: int| 0 <= i < t.len() implies (#[trigger] digit_of(t[i], radix)) is Some by {
                if i >= zs.len() {
                    assert(t[i] == s[i - zs.len()]);
                } else {
                    assert(t[i] == '0');
                }
            }
        }
    } else if z > 0 {
        lemma_leading_zeros((z - 1) as nat, s, radix);
        let shorter = Seq::new((z - 1) as nat, |i: int| '0') + s;
        assert(t.drop_last() =~= shorter);
        assert(t.last() == '0');
        assert(digit_of('0', radix) == Some(0nat));
        assert(radix_value(shorter, radix) == radix_value(s, radix));
        assert(radix_value(s, radix) == 0);
        assert(radix_value(t, radix) == radix_value(shorter, radix) * radix + 0);
        assert forall|i: int| 0 <= i < t.len() implies (#[trigger] digit_of(t[i], radix)) is Some by {
            assert(t[i] == '0');
        }
    } else {
        assert(t =~= s);
    }
}

/// Reading back what `hex` wrote, padded with zeros or not, gives the
/// number again.
pub proof fn hex_reads_back(n: nat, upper: bool, width: nat, max: nat)
    requires
        n <= max,
    ensures
        parse_radix(hex(n, upper), 16, max) == Some(n),
        parse_radix(zero_pad(hex(n, upper), width), 16, max) == Some(n),
{
    lemma_hex_digits(n, upper);
    let h = hex(n, upper);
    assert(unsigned_digits(h) == h);
    if h.len() < width {
        let z = (width - h.len()) as nat;
        lemma_leading_zeros(z, h, 16);
        let p = zero_pad(h, width);
        assert(p == Seq::new(z, |i: int| '0') + h);
        assert(p[0] == '0');
        assert(unsigned_digits(p) == p);
    }
}


/// `16` to the power `k`, for `k` at least 1.
pub open spec fn hex_bound(k: nat) -> nat
    decreases k,
{
    if k <= 1 {
        16
    } else {
        16 * hex_bound((k - 1) as nat)
    }
}

/// A number below `16^k` takes at most `k` hex digits.
pub proof fn lemma_hex_len(n: nat, upper: bool, k: nat)
    requires
        k >= 1,
        n < hex_bound(k),
    ensures
        hex(n, upper).len() <= k,
    decreases k,
{
    if n >= 16 {
        assert(k > 1);
        assert(n / 16 < hex_bound((k - 1) as nat));
        lemma_hex_len(n / 16, upper, (k - 1) as nat);
    }
}

} // verus!
