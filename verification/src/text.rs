//! Text primitives: decimal and hexadecimal rendering of integers,
//! padding, and the human-readable byte-size format.

use vstd::prelude::*;
use vstd::string::*;

verus! {

/// `String::push` appends one character at the end of the string.
pub assume_specification[ String::push ](s: &mut String, ch: char)
    ensures
        final(s)@ == old(s)@.push(ch),
;

/// The lower-case digit character for `d` (0 through 15).
pub open spec fn digit_char(d: nat) -> char {
    if d == 0 { '0' } else if d == 1 { '1' } else if d == 2 { '2' } else if d == 3 { '3' }
    else if d == 4 { '4' } else if d == 5 { '5' } else if d == 6 { '6' } else if d == 7 { '7' }
    else if d == 8 { '8' } else if d == 9 { '9' } else if d == 10 { 'a' } else if d == 11 { 'b' }
    else if d == 12 { 'c' } else if d == 13 { 'd' } else if d == 14 { 'e' } else { 'f' }
}

/// Decimal digits of `n`, most significant first, without leading zeros.
pub open spec fn dec_digits(n: nat) -> Seq<char>
    decreases n,
{
    if n < 10 {
        seq![digit_char(n)]
    } else {
        dec_digits(n / 10).push(digit_char(n % 10))
    }
}

/// Lower-case hexadecimal digits of `n`, most significant first, without leading zeros.
pub open spec fn hex_digits(n: nat) -> Seq<char>
    decreases n,
{
    if n < 16 {
        seq![digit_char(n)]
    } else {
        hex_digits(n / 16).push(digit_char(n % 16))
    }
}

/// `s` preceded by as many copies of `pad` as make it at least `width` long.
pub open spec fn pad_left(s: Seq<char>, width: nat, pad: char) -> Seq<char> {
    if s.len() >= width {
        s
    } else {
        Seq::new((width - s.len()) as nat, |_i: int| pad) + s
    }
}

/// `0x` followed by the hexadecimal digits of `n`, zero-filled so that
/// the whole text is at least `width` characters long.
pub open spec fn alt_hex(n: nat, width: nat) -> Seq<char> {
    "0x"@ + pad_left(hex_digits(n), if width >= 2 { (width - 2) as nat } else { 0 }, '0')
}

/// The decimal digits of `n`, right-aligned with spaces in `width` characters.
pub open spec fn dec_right(n: nat, width: nat) -> Seq<char> {
    pad_left(dec_digits(n), width, ' ')
}

/// A byte count in the largest of the units MB, KB and B in which it is
/// at least one, rounded down.
pub open spec fn size_text(bytes: nat) -> Seq<char> {
    if bytes >= 1024 * 1024 {
        dec_digits(bytes / (1024 * 1024)) + "MB"@
    } else if bytes >= 1024 {
        dec_digits(bytes / 1024) + "KB"@
    } else {
        dec_digits(bytes) + "B"@
    }
}

fn digit(d: u64) -> (c: char)
    requires
        d < 16,
    ensures
        c == digit_char(d as nat),
{
    if d == 0 { '0' } else if d == 1 { '1' } else if d == 2 { '2' } else if d == 3 { '3' }
    else if d == 4 { '4' } else if d == 5 { '5' } else if d == 6 { '6' } else if d == 7 { '7' }
    else if d == 8 { '8' } else if d == 9 { '9' } else if d == 10 { 'a' } else if d == 11 { 'b' }
    else if d == 12 { 'c' } else if d == 13 { 'd' } else if d == 14 { 'e' } else { 'f' }
}

/// Appends the decimal digits of `n`.
pub fn push_dec(out: &mut String, n: u64)
    ensures
        final(out)@ == old(out)@ + dec_digits(n as nat),
    decreases n,
{
    if n >= 10 {
        push_dec(out, n / 10);
    }
    let c = digit(n % 10);
    out.push(c);
    proof {
        if n >= 10 {
            assert(dec_digits(n as nat) == dec_digits((n / 10) as nat).push(c));
        }
        assert(final(out)@ =~= old(out)@ + dec_digits(n as nat));
    }
}

/// Appends the hexadecimal digits of `n`.
fn push_hex_digits(out: &mut String, n: u64)
    ensures
        final(out)@ == old(out)@ + hex_digits(n as nat),
    decreases n,
{
    if n >= 16 {
        push_hex_digits(out, n / 16);
    }
    let c = digit(n % 16);
    out.push(c);
    proof {
        if n >= 16 {
            assert(hex_digits(n as nat) == hex_digits((n / 16) as nat).push(c));
        }
        assert(final(out)@ =~= old(out)@ + hex_digits(n as nat));
    }
}

/// Appends `n` in the `{:#0width$x}` style: `0x`, then zero-filled
/// lower-case hexadecimal digits.
pub fn push_alt_hex(out: &mut String, n: u64, width: usize)
    ensures
        final(out)@ == old(out)@ + alt_hex(n as nat, width as nat),
{
    out.append("0x");
    let mut digits = String::new();
    push_hex_digits(&mut digits, n);
    let len = digits.as_str().unicode_len();
    let target: usize = if width >= 2 { width - 2 } else { 0 };
    let mut k: usize = len;
    while k < target
        invariant
            len == hex_digits(n as nat).len(),
            len <= k <= target || target <= len == k,
            out@ == old(out)@ + "0x"@ + Seq::new((k - len) as nat, |_i: int| '0'),
        decreases target - k,
    {
        out.push('0');
        proof {
            assert(out@ =~= old(out)@ + "0x"@ + Seq::new((k + 1 - len) as nat, |_i: int| '0'));
        }
        k = k + 1;
    }
    out.append(digits.as_str());
    proof {
        if len >= target {
            assert(Seq::new((k - len) as nat, |_i: int| '0') =~= Seq::<char>::empty());
            assert(out@ =~= old(out)@ + alt_hex(n as nat, width as nat));
        } else {
            assert(out@ =~= old(out)@ + alt_hex(n as nat, width as nat));
        }
    }
}

/// Appends the decimal digits of `n` right-aligned in `width` characters.
pub fn push_dec_right(out: &mut String, n: u64, width: usize)
    ensures
        final(out)@ == old(out)@ + dec_right(n as nat, width as nat),
{
    let mut digits = String::new();
    push_dec(&mut digits, n);
    let len = digits.as_str().unicode_len();
    let mut k: usize = len;
    while k < width
        invariant
            len == dec_digits(n as nat).len(),
            len <= k <= width || width <= len == k,
            out@ == old(out)@ + Seq::new((k - len) as nat, |_i: int| ' '),
        decreases width - k,
    {
        out.push(' ');
        proof {
            assert(out@ =~= old(out)@ + Seq::new((k + 1 - len) as nat, |_i: int| ' '));
        }
        k = k + 1;
    }
    out.append(digits.as_str());
    proof {
        if len >= width {
            assert(Seq::new((k - len) as nat, |_i: int| ' ') =~= Seq::<char>::empty());
        }
        assert(out@ =~= old(out)@ + dec_right(n as nat, width as nat));
    }
}

/// Renders a byte count as whole megabytes, kilobytes or bytes:
/// the largest unit of which the count holds at least one.
pub fn fmt_size(bytes: u32) -> (s: String)
    ensures
        s@ == size_text(bytes as nat),
{
    let mut s = String::new();
    if bytes >= 1024 * 1024 {
        push_dec(&mut s, (bytes / (1024 * 1024)) as u64);
        s.append("MB");
    } else if bytes >= 1024 {
        push_dec(&mut s, (bytes / 1024) as u64);
        s.append("KB");
    } else {
        push_dec(&mut s, bytes as u64);
        s.append("B");
    }
    s
}


/// The texts `f(x)` of the items `x` of `s`, one after another.
pub open spec fn concat_map<A>(s: Seq<A>, f: spec_fn(A) -> Seq<char>) -> Seq<char>
    decreases s.len(),
{
    if s.len() == 0 {
        Seq::empty()
    } else {
        concat_map(s.drop_last(), f) + f(s.last())
    }
}

/// One more item appended to a text built from a prefix of `s`.
pub proof fn lemma_concat_map_push<A>(prefix: Seq<char>, s: Seq<A>, f: spec_fn(A) -> Seq<char>, i: int)
    requires
        0 <= i < s.len(),
    ensures
        prefix + concat_map(s.take(i + 1), f) == (prefix + concat_map(s.take(i), f)) + f(s[i]),
{
    assert(s.take(i + 1).drop_last() =~= s.take(i));
    assert(prefix + concat_map(s.take(i + 1), f) =~= (prefix + concat_map(s.take(i), f)) + f(s[i]));
}

/// The views of a sequence of strings.
pub open spec fn views(v: Seq<String>) -> Seq<Seq<char>> {
    v.map_values(|s: String| s@)
}

/// The parts, with `sep` between each two neighbours.
pub open spec fn join(parts: Seq<Seq<char>>, sep: Seq<char>) -> Seq<char>
    decreases parts.len(),
{
    if parts.len() == 0 {
        Seq::empty()
    } else if parts.len() == 1 {
        parts[0]
    } else {
        join(parts.drop_last(), sep) + sep + parts.last()
    }
}

/// Joins the strings with `sep` between neighbours.
pub fn join_strings(parts: &Vec<String>, sep: &str) -> (r: String)
    ensures
        r@ == join(views(parts@), sep@),
{
    let mut r = String::new();
    let mut i: usize = 0;
    while i < parts.len()
        invariant
            i <= parts.len(),
            r@ == join(views(parts@.take(i as int)), sep@),
        decreases parts.len() - i,
    {
        if i > 0 {
            r.append(sep);
        }
        r.append(parts[i].as_str());
        proof {
            let t = views(parts@.take(i + 1));
            assert(t.drop_last() =~= views(parts@.take(i as int)));
            assert(t.last() == parts@[i as int]@);
            if i == 0 {
                assert(views(parts@.take(0)) =~= Seq::<Seq<char>>::empty());
                assert(r@ =~= t[0]);
            } else {
                assert(r@ =~= join(t.drop_last(), sep@) + sep@ + t.last());
            }
        }
        i = i + 1;
    }
    proof {
        assert(parts@.take(parts.len() as int) =~= parts@);
    }
    r
}


/// The value of a digit character, hexadecimal digits included.
pub open spec fn digit_value(c: char) -> nat {
    if c == '0' { 0 } else if c == '1' { 1 } else if c == '2' { 2 } else if c == '3' { 3 }
    else if c == '4' { 4 } else if c == '5' { 5 } else if c == '6' { 6 } else if c == '7' { 7 }
    else if c == '8' { 8 } else if c == '9' { 9 } else if c == 'a' { 10 } else if c == 'b' { 11 }
    else if c == 'c' { 12 } else if c == 'd' { 13 } else if c == 'e' { 14 } else { 15 }
}

/// The number that a digit text denotes in `base`.
pub open spec fn digits_value(s: Seq<char>, base: nat) -> nat
    decreases s.len(),
{
    if s.len() == 0 {
        0
    } else {
        digits_value(s.drop_last(), base) * base + digit_value(s.last())
    }
}

proof fn lemma_digit_roundtrip(d: nat)
    requires
        d < 16,
    ensures
        digit_value(digit_char(d)) == d,
{
}

/// Decimal rendering is faithful: the digits denote the number, and the
/// first digit is not a zero unless the number is zero.
pub proof fn lemma_dec_digits_value(n: nat)
    ensures
        digits_value(dec_digits(n), 10) == n,
        dec_digits(n).len() > 0,
        n > 0 ==> dec_digits(n)[0] != '0',
    decreases n,
{
    if n < 10 {
        lemma_digit_roundtrip(n);
        assert(dec_digits(n).drop_last() =~= Seq::<char>::empty());
        assert(dec_digits(n).last() == digit_char(n));
        assert(digits_value(dec_digits(n).drop_last(), 10) == 0);
    } else {
        lemma_dec_digits_value(n / 10);
        lemma_digit_roundtrip(n % 10);
        assert(dec_digits(n).drop_last() =~= dec_digits(n / 10));
        assert(dec_digits(n).last() == digit_char(n % 10));
        let q = n / 10;
        let v = digits_value(dec_digits(q), 10);
        assert(v == q);
        assert(digits_value(dec_digits(n), 10) == v * 10 + digit_value(digit_char(n % 10)));
        assert(q * 10 + n % 10 == n) by (nonlinear_arith)
            requires
                q == n / 10,
        ;
        assert(dec_digits(n)[0] == dec_digits(n / 10)[0]);
    }
}

/// Hexadecimal rendering is faithful: the digits denote the number, and
/// the first digit is not a zero unless the number is zero.
pub proof fn lemma_hex_digits_value(n: nat)
    ensures
        digits_value(hex_digits(n), 16) == n,
        hex_digits(n).len() > 0,
        n > 0 ==> hex_digits(n)[0] != '0',
    decreases n,
{
    if n < 16 {
        lemma_digit_roundtrip(n);
        assert(hex_digits(n).drop_last() =~= Seq::<char>::empty());
        assert(hex_digits(n).last() == digit_char(n));
        assert(digits_value(hex_digits(n).drop_last(), 16) == 0);
    } else {
        lemma_hex_digits_value(n / 16);
        lemma_digit_roundtrip(n % 16);
        assert(hex_digits(n).drop_last() =~= hex_digits(n / 16));
        assert(hex_digits(n).last() == digit_char(n % 16));
        let q = n / 16;
        let v = digits_value(hex_digits(q), 16);
        assert(v == q);
        assert(digits_value(hex_digits(n), 16) == v * 16 + digit_value(digit_char(n % 16)));
        assert(q * 16 + n % 16 == n) by (nonlinear_arith)
            requires
                q == n / 16,
        ;
        assert(hex_digits(n)[0] == hex_digits(n / 16)[0]);
    }
}

proof fn lemma_zeros_value(k: nat, s: Seq<char>, base: nat)
    ensures
        digits_value(Seq::new(k, |_i: int| '0') + s, base) == digits_value(s, base),
    decreases s.len(),
{
    if s.len() == 0 {
        assert(Seq::new(k, |_i: int| '0') + s =~= Seq::new(k, |_i: int| '0'));
        lemma_all_zeros_value(k, base);
    } else {
        lemma_zeros_value(k, s.drop_last(), base);
        assert((Seq::new(k, |_i: int| '0') + s).drop_last() =~= Seq::new(k, |_i: int| '0') + s.drop_last());
    }
}

proof fn lemma_all_zeros_value(k: nat, base: nat)
    ensures
        digits_value(Seq::new(k, |_i: int| '0'), base) == 0,
    decreases k,
{
    if k > 0 {
        lemma_all_zeros_value((k - 1) as nat, base);
        assert(Seq::new(k, |_i: int| '0').drop_last() =~= Seq::new((k - 1) as nat, |_i: int| '0'));
        assert(Seq::new(k, |_i: int| '0').last() == '0');
        assert(0 * base == 0) by (nonlinear_arith);
    }
}

/// The `0x`-prefixed, zero-filled form keeps the number and is at least as
/// wide as asked.
pub proof fn lemma_alt_hex(n: nat, width: nat)
    ensures
        alt_hex(n, width).subrange(0, 2) == "0x"@,
        digits_value(alt_hex(n, width).skip(2), 16) == n,
        alt_hex(n, width).len() >= width,
{
    let w: nat = if width >= 2 { (width - 2) as nat } else { 0 };
    let d = hex_digits(n);
    lemma_hex_digits_value(n);
    reveal_strlit("0x");
    assert(alt_hex(n, width).subrange(0, 2) =~= "0x"@);
    assert(alt_hex(n, width).skip(2) =~= pad_left(d, w, '0'));
    if d.len() < w {
        lemma_zeros_value((w - d.len()) as nat, d, 16);
    }
}

/// Whether `part` occurs in `whole` as a run of consecutive characters.
pub open spec fn occurs_in(part: Seq<char>, whole: Seq<char>) -> bool {
    exists|i: int| 0 <= i && i + part.len() <= whole.len() && #[trigger] whole.subrange(i, i + part.len()) == part
}

/// A text occurs in any text that has it between two others.
pub proof fn lemma_occurs_in(before: Seq<char>, part: Seq<char>, after: Seq<char>)
    ensures
        occurs_in(part, before + part + after),
{
    let whole = before + part + after;
    let i = before.len() as int;
    assert(whole.subrange(i, i + part.len()) =~= part);
}

/// The texts of the items, one after another, are the flattened sequence of
/// the items' texts.
pub proof fn lemma_concat_map_flatten<A>(s: Seq<A>, f: spec_fn(A) -> Seq<char>)
    ensures
        concat_map(s, f) == Seq::new(s.len(), |k: int| f(s[k])).flatten(),
    decreases s.len(),
{
    let t = Seq::new(s.len(), |k: int| f(s[k]));
    t.lemma_flatten_and_flatten_alt_are_equivalent();
    if s.len() > 0 {
        lemma_concat_map_flatten(s.drop_last(), f);
        let u = Seq::new(s.drop_last().len(), |k: int| f(s.drop_last()[k]));
        assert(t.drop_last() =~= u);
        u.lemma_flatten_and_flatten_alt_are_equivalent();
        assert(t.flatten_alt() == t.drop_last().flatten_alt() + t.last());
    }
}

} // verus!
