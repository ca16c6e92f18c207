//! Character-level helpers shared by the parsers and printers of the crate:
//! splitting on a separator, prefixes, and decimal / hexadecimal numerals.
use vstd::prelude::*;

verus! {

/// The characters of a string slice, in order.
pub fn chars_of(s: &str) -> (v: Vec<char>)
    ensures
        v@ == s@,
{
    let mut v: Vec<char> = Vec::new();
    for c in it: s.chars()
        invariant
            v@ == it.seq().take(it.index() as int),
    {
        v.push(c);
    }
    v
}

/// `String` holding exactly the given characters (std's `FromIterator<&char>`
/// for `String`, which pushes each character in turn).
#[verifier::external_body]
pub fn string_from_chars(v: &[char]) -> (s: String)
    ensures
        s@ == v@,
{
    v.iter().collect()
}

/// Index of the first occurrence of `c` in `s`, if any.
pub open spec fn first_index(s: Seq<char>, c: char) -> Option<int>
    decreases s.len(),
{
    if s.len() == 0 {
        None
    } else if s[0] == c {
        Some(0)
    } else {
        match first_index(s.drop_first(), c) {
            Some(i) => Some(i + 1),
            None => None,
        }
    }
}

pub proof fn lemma_first_index(s: Seq<char>, c: char)
    ensures
        match first_index(s, c) {
            Some(i) => 0 <= i < s.len() && s[i] == c && forall|j: int| 0 <= j < i ==> s[j] != c,
            None => forall|j: int| 0 <= j < s.len() ==> s[j] != c,
        },
    decreases s.len(),
{
    if s.len() > 0 {
        lemma_first_index(s.drop_first(), c);
        if s[0] != c {
            assert forall|j: int| 0 < j < s.len() implies s[j] == s.drop_first()[j - 1] by {}
        }
    }
}

/// The unique index characterised by the first-occurrence conditions is `first_index`.
pub proof fn lemma_first_index_unique(s: Seq<char>, c: char, i: int)
    requires
        0 <= i < s.len(),
        s[i] == c,
        forall|j: int| 0 <= j < i ==> s[j] != c,
    ensures
        first_index(s, c) == Some(i),
{
    lemma_first_index(s, c);
    match first_index(s, c) {
        Some(k) => {
            if k < i {
                assert(s[k] != c);
            } else if k > i {
                assert(s[i] != c);
            }
        },
        None => {
            assert(s[i] != c);
        },
    }
}

/// `str::split_once` on a single character: the text before and after the
/// first occurrence of `c`.
pub open spec fn split_once(s: Seq<char>, c: char) -> Option<(Seq<char>, Seq<char>)> {
    match first_index(s, c) {
        Some(i) => Some((s.take(i), s.skip(i + 1))),
        None => None,
    }
}

/// `s` with its first character removed, when that character is `c`.
pub open spec fn strip_prefix(s: Seq<char>, c: char) -> Option<Seq<char>> {
    if s.len() > 0 && s[0] == c {
        Some(s.drop_first())
    } else {
        None
    }
}

pub fn split_once_char(s: &[char], c: char) -> (r: Option<(Vec<char>, Vec<char>)>)
    ensures
        match (r, split_once(s@, c)) {
            (Some((a, b)), Some((sa, sb))) => a@ == sa && b@ == sb,
            (None, None) => true,
            _ => false,
        },
{
    proof {
        lemma_first_index(s@, c);
    }
    let mut i: usize = 0;
    while i < s.len()
        invariant
            i <= s.len(),
            forall|j: int| 0 <= j < i ==> s@[j] != c,
        decreases s.len() - i,
    {
        if s[i] == c {
            proof {
                lemma_first_index_unique(s@, c, i as int);
            }
            let a = slice_range(s, 0, i);
            let b = slice_range(s, i + 1, s.len());
            return Some((a, b));
        }
        i += 1;
    }
    None
}

/// The characters `s[from..to]` as a new vector.
pub fn slice_range(s: &[char], from: usize, to: usize) -> (v: Vec<char>)
    requires
        from <= to <= s.len(),
    ensures
        v@ == s@.subrange(from as int, to as int),
{
    let mut v: Vec<char> = Vec::new();
    let mut k = from;
    while k < to
        invariant
            from <= k <= to <= s.len(),
            v@ == s@.subrange(from as int, k as int),
        decreases to - k,
    {
        v.push(s[k]);
        k += 1;
    }
    v
}

/// Whether the two character sequences are equal.
pub fn chars_eq(a: &[char], b: &[char]) -> (r: bool)
    ensures
        r == (a@ == b@),
{
    if a.len() != b.len() {
        return false;
    }
    let mut i: usize = 0;
    while i < a.len()
        invariant
            a.len() == b.len(),
            i <= a.len(),
            forall|j: int| 0 <= j < i ==> a@[j] == b@[j],
        decreases a.len() - i,
    {
        if a[i] != b[i] {
            return false;
        }
        i += 1;
    }
    assert(a@ =~= b@);
    true
}

// ---------------------------------------------------------------------------
// Decimal numerals

pub open spec fn is_dec_digit(c: char) -> bool {
    '0' <= c <= '9'
}

pub open spec fn dec_digit_value(c: char) -> nat {
    (c as int - '0' as int) as nat
}

pub open spec fn all_dec_digits(s: Seq<char>) -> bool {
    forall|i: int| 0 <= i < s.len() ==> is_dec_digit(#[trigger] s[i])
}

/// The value of a string of decimal digits.
pub open spec fn dec_value(s: Seq<char>) -> nat
    decreases s.len(),
{
    if s.len() == 0 {
        0
    } else {
        dec_value(s.drop_last()) * 10 + dec_digit_value(s.last())
    }
}

/// The digits of a `usize` numeral: the text after an optional leading `+`.
pub open spec fn usize_digits(s: Seq<char>) -> Seq<char> {
    if s.len() > 0 && s[0] == '+' {
        s.drop_first()
    } else {
        s
    }
}

/// `usize::from_str`: an optional `+`, then one or more decimal digits whose
/// value fits in a `usize`.
pub open spec fn parse_usize(s: Seq<char>) -> Option<usize> {
    let digits = usize_digits(s);
    if digits.len() > 0 && all_dec_digits(digits) && dec_value(digits) <= usize::MAX {
        Some(dec_value(digits) as usize)
    } else {
        None
    }
}

pub open spec fn dec_char(d: nat) -> char {
    (('0' as int) + d) as char
}

/// The decimal representation of `n`, without leading zeros (`"0"` for zero),
/// as `Display` for integers writes it.
pub open spec fn dec_string(n: nat) -> Seq<char>
    decreases n,
{
    if n < 10 {
        seq![dec_char(n)]
    } else {
        dec_string(n / 10).push(dec_char(n % 10))
    }
}

pub proof fn lemma_dec_value_prefix(s: Seq<char>, i: int)
    requires
        0 <= i <= s.len(),
    ensures
        dec_value(s.take(i)) <= dec_value(s),
    decreases s.len(),
{
    if i < s.len() {
        assert(s.drop_last().take(i) =~= s.take(i));
        lemma_dec_value_prefix(s.drop_last(), i);
    } else {
        assert(s.take(i) =~= s);
    }
}

pub proof fn lemma_dec_value_step(s: Seq<char>, i: int)
    requires
        0 <= i < s.len(),
    ensures
        dec_value(s.take(i + 1)) == dec_value(s.take(i)) * 10 + dec_digit_value(s[i]),
{
    assert(s.take(i + 1).drop_last() =~= s.take(i));
}

pub proof fn lemma_dec_string(n: nat)
    ensures
        dec_string(n).len() > 0,
        all_dec_digits(dec_string(n)),
        dec_value(dec_string(n)) == n,
    decreases n,
{
    if n < 10 {
        let s = dec_string(n);
        assert(s.drop_last() =~= Seq::<char>::empty());
        assert(dec_value(s.drop_last()) == 0);
        assert(dec_digit_value(dec_char(n)) == n);
        assert(dec_value(s) == n);
    } else {
        lemma_dec_string(n / 10);
        let s = dec_string(n);
        assert(s.drop_last() =~= dec_string(n / 10));
        assert(s.last() == dec_char(n % 10));
        assert(dec_digit_value(dec_char(n % 10)) == n % 10);
        assert(dec_value(s) == dec_value(dec_string(n / 10)) * 10 + n % 10);
        assert(n == (n / 10) * 10 + n % 10);
        assert forall|i: int| 0 <= i < s.len() implies is_dec_digit(#[trigger] s[i]) by {
            if i < s.len() - 1 {
                assert(s[i] == dec_string(n / 10)[i]);
            }
        }
    }
}

/// The decimal representation of a `usize` parses back to the same value.
pub proof fn lemma_parse_usize_dec_string(n: usize)
    ensures
        parse_usize(dec_string(n as nat)) == Some(n),
{
    lemma_dec_string(n as nat);
    let s = dec_string(n as nat);
    assert(is_dec_digit(s[0]));
}

/// `usize::from_str` on a character sequence.
pub fn parse_usize_chars(s: &[char]) -> (r: Option<usize>)
    ensures
        r == parse_usize(s@),
{
    let digits: Vec<char> = if s.len() > 0 && s[0] == '+' {
        slice_range(s, 1, s.len())
    } else {
        slice_range(s, 0, s.len())
    };
    assert(digits@ =~= usize_digits(s@));
    parse_dec_digits(&digits)
}

fn parse_dec_digits(digits: &[char]) -> (r: Option<usize>)
    ensures
        r == (if digits@.len() > 0 && all_dec_digits(digits@) && dec_value(digits@) <= usize::MAX {
            Some(dec_value(digits@) as usize)
        } else {
            None
        }),
{
    if digits.len() == 0 {
        return None;
    }
    let mut acc: usize = 0;
    let mut i: usize = 0;
    while i < digits.len()
        invariant
            i <= digits.len(),
            forall|j: int| 0 <= j < i ==> is_dec_digit(#[trigger] digits@[j]),
            acc == dec_value(digits@.take(i as int)),
        decreases digits.len() - i,
    {
        let c = digits[i];
        if !('0' <= c && c <= '9') {
            assert(!is_dec_digit(digits@[i as int]));
            return None;
        }
        let d = (c as u32 - '0' as u32) as usize;
        proof {
            lemma_dec_value_step(digits@, i as int);
            lemma_dec_value_prefix(digits@, i + 1);
        }
        if acc > (usize::MAX - d) / 10 {
            assert(acc * 10 + d > usize::MAX) by (nonlinear_arith)
                requires
                    acc > (usize::MAX - d) / 10,
                    d <= 9,
            ;
            return None;
        }
        assert(acc * 10 + d <= usize::MAX) by (nonlinear_arith)
            requires
                acc <= (usize::MAX - d) / 10,
                d <= 9,
        ;
        acc = acc * 10 + d;
        i += 1;
    }
    assert(digits@.take(digits.len() as int) =~= digits@);
    Some(acc)
}

/// Where reading the decimal digits `d` from index `i` on first fails:
/// `Some(false)` at a character that is not a digit, `Some(true)` where the
/// value read so far no longer fits a `usize`, `None` if it never fails.
pub open spec fn usize_scan(d: Seq<char>, i: int) -> Option<bool>
    decreases d.len() - i,
{
    if i < 0 || i >= d.len() {
        None
    } else if !is_dec_digit(d[i]) {
        Some(false)
    } else if dec_value(d.take(i + 1)) > usize::MAX {
        Some(true)
    } else {
        usize_scan(d, i + 1)
    }
}

/// What `usize::from_str`'s error displays for text it refuses: the text is
/// empty, or the first digit read that breaks it is not a digit, or makes the
/// value too large.
pub open spec fn usize_error_text(s: Seq<char>) -> Seq<char> {
    if s.len() == 0 {
        "cannot parse integer from empty string"@
    } else if usize_scan(usize_digits(s), 0) == Some(true) {
        "number too large to fit in target type"@
    } else {
        "invalid digit found in string"@
    }
}

/// The message of `usize::from_str`'s error on `s`, which it refuses.
pub fn usize_error_str(s: &[char]) -> (r: &'static str)
    ensures
        r@ == usize_error_text(s@),
{
    if s.len() == 0 {
        return "cannot parse integer from empty string";
    }
    let digits: Vec<char> = if s[0] == '+' {
        slice_range(s, 1, s.len())
    } else {
        slice_range(s, 0, s.len())
    };
    assert(digits@ =~= usize_digits(s@));
    let mut acc: usize = 0;
    let mut i: usize = 0;
    while i < digits.len()
        invariant
            i <= digits.len(),
            forall|j: int| 0 <= j < i ==> is_dec_digit(#[trigger] digits@[j]),
            acc == dec_value(digits@.take(i as int)),
            usize_scan(digits@, 0) == usize_scan(digits@, i as int),
            digits@ == usize_digits(s@),
            s@.len() > 0,
        decreases digits.len() - i,
    {
        let c = digits[i];
        if !('0' <= c && c <= '9') {
            assert(usize_scan(digits@, i as int) == Some(false));
            return "invalid digit found in string";
        }
        let d = (c as u32 - '0' as u32) as usize;
        proof {
            lemma_dec_value_step(digits@, i as int);
        }
        if acc > (usize::MAX - d) / 10 {
            assert(acc * 10 + d > usize::MAX) by (nonlinear_arith)
                requires
                    acc > (usize::MAX - d) / 10,
                    d <= 9,
            ;
            assert(usize_scan(digits@, i as int) == Some(true));
            return "number too large to fit in target type";
        }
        assert(acc * 10 + d <= usize::MAX) by (nonlinear_arith)
            requires
                acc <= (usize::MAX - d) / 10,
                d <= 9,
        ;
        assert(usize_scan(digits@, i as int) == usize_scan(digits@, i + 1));
        acc = acc * 10 + d;
        i += 1;
    }
    "invalid digit found in string"
}

/// The text `{:?}` writes for a string: the string quoted, with escapes.
pub uninterp spec fn str_debug(s: Seq<char>) -> Seq<char>;

/// std's `Debug` for `str`, as `format!("{:?}", s)` writes it.
#[verifier::external_body]
pub fn debug_quoted(s: &str) -> (r: String)
    ensures
        r@ == str_debug(s@),
{
    format!("{:?}", s)
}

/// `usize`'s `Display`: the decimal digits of `n`.
pub fn dec_chars(n: usize) -> (v: Vec<char>)
    ensures
        v@ == dec_string(n as nat),
    decreases n,
{
    if n < 10 {
        let mut v: Vec<char> = Vec::new();
        v.push(digit_char(n as u8));
        v
    } else {
        let mut v = dec_chars(n / 10);
        v.push(digit_char((n % 10) as u8));
        v
    }
}

fn digit_char(d: u8) -> (c: char)
    requires
        d < 10,
    ensures
        c == dec_char(d as nat),
{
    ((48u8 + d) as char)
}

// ---------------------------------------------------------------------------
// Hexadecimal numerals

pub open spec fn is_hex_digit(c: char) -> bool {
    ('0' <= c <= '9') || ('a' <= c <= 'f') || ('A' <= c <= 'F')
}

pub open spec fn hex_digit_value(c: char) -> nat {
    if '0' <= c <= '9' {
        (c as int - '0' as int) as nat
    } else if 'a' <= c <= 'f' {
        (c as int - 'a' as int + 10) as nat
    } else {
        (c as int - 'A' as int + 10) as nat
    }
}

pub open spec fn all_hex_digits(s: Seq<char>) -> bool {
    forall|i: int| 0 <= i < s.len() ==> is_hex_digit(#[trigger] s[i])
}

/// The value of a string of hexadecimal digits.
pub open spec fn hex_value(s: Seq<char>) -> nat
    decreases s.len(),
{
    if s.len() == 0 {
        0
    } else {
        hex_value(s.drop_last()) * 16 + hex_digit_value(s.last())
    }
}

/// A 16-bit hexadecimal field: one or more hex digits (either case) whose value
/// fits in a `u16`.
pub open spec fn parse_hex_u16(s: Seq<char>) -> Option<u16> {
    if s.len() > 0 && all_hex_digits(s) && hex_value(s) <= 0xffff {
        Some(hex_value(s) as u16)
    } else {
        None
    }
}

/// Lower-case hexadecimal digit for `d < 16`.
pub open spec fn hex_char(d: nat) -> char {
    if d < 10 {
        (('0' as int) + d) as char
    } else {
        (('a' as int) + d - 10) as char
    }
}

/// `{:04x}`: exactly four lower-case hex digits.
pub open spec fn hex4(v: u16) -> Seq<char> {
    seq![
        hex_char((v / 4096) as nat),
        hex_char(((v / 256) % 16) as nat),
        hex_char(((v / 16) % 16) as nat),
        hex_char((v % 16) as nat),
    ]
}

pub proof fn lemma_hex_value_prefix(s: Seq<char>, i: int)
    requires
        0 <= i <= s.len(),
    ensures
        hex_value(s.take(i)) <= hex_value(s),
    decreases s.len(),
{
    if i < s.len() {
        assert(s.drop_last().take(i) =~= s.take(i));
        lemma_hex_value_prefix(s.drop_last(), i);
    } else {
        assert(s.take(i) =~= s);
    }
}

pub proof fn lemma_hex_value_step(s: Seq<char>, i: int)
    requires
        0 <= i < s.len(),
    ensures
        hex_value(s.take(i + 1)) == hex_value(s.take(i)) * 16 + hex_digit_value(s[i]),
{
    assert(s.take(i + 1).drop_last() =~= s.take(i));
}

pub proof fn lemma_hex4(v: u16)
    ensures
        hex4(v).len() == 4,
        all_hex_digits(hex4(v)),
        parse_hex_u16(hex4(v)) == Some(v),
{
    let s = hex4(v);
    let a = (v / 4096) as nat;
    let b = ((v / 256) % 16) as nat;
    let c = ((v / 16) % 16) as nat;
    let d = (v % 16) as nat;
    assert(hex_digit_value(hex_char(a)) == a);
    assert(hex_digit_value(hex_char(b)) == b);
    assert(hex_digit_value(hex_char(c)) == c);
    assert(hex_digit_value(hex_char(d)) == d);
    assert(s.drop_last().drop_last().drop_last().drop_last() =~= Seq::<char>::empty());
    assert(s.drop_last().drop_last().drop_last() =~= seq![hex_char(a)]);
    assert(s.drop_last().drop_last() =~= seq![hex_char(a), hex_char(b)]);
    assert(s.drop_last() =~= seq![hex_char(a), hex_char(b), hex_char(c)]);
    reveal_with_fuel(hex_value, 5);
    assert(hex_value(s) == ((a * 16 + b) * 16 + c) * 16 + d);
    assert(((a * 16 + b) * 16 + c) * 16 + d == v) by (nonlinear_arith)
        requires
            a == v / 4096,
            b == (v / 256) % 16,
            c == (v / 16) % 16,
            d == v % 16,
            0 <= v < 65536,
    ;
}

/// Parses a 16-bit hexadecimal field.
pub fn parse_hex_u16_chars(s: &[char]) -> (r: Option<u16>)
    ensures
        r == parse_hex_u16(s@),
{
    if s.len() == 0 {
        return None;
    }
    let mut acc: u32 = 0;
    let mut i: usize = 0;
    while i < s.len()
        invariant
            i <= s.len(),
            s.len() > 0,
            forall|j: int| 0 <= j < i ==> is_hex_digit(#[trigger] s@[j]),
            acc == hex_value(s@.take(i as int)),
            acc <= 0xffff,
        decreases s.len() - i,
    {
        let c = s[i];
        let d: u32 = if '0' <= c && c <= '9' {
            c as u32 - '0' as u32
        } else if 'a' <= c && c <= 'f' {
            c as u32 - 'a' as u32 + 10
        } else if 'A' <= c && c <= 'F' {
            c as u32 - 'A' as u32 + 10
        } else {
            return None;
        };
        proof {
            lemma_hex_value_step(s@, i as int);
        }
        let v = acc * 16 + d;
        if v > 0xffff {
            proof {
                lemma_hex_value_prefix(s@, i + 1);
            }
            return None;
        }
        acc = v;
        i += 1;
    }
    assert(s@.take(s.len() as int) =~= s@);
    Some(acc as u16)
}

fn hex_digit_char(d: u16) -> (c: char)
    requires
        d < 16,
    ensures
        c == hex_char(d as nat),
{
    if d < 10 {
        ((48u8 + d as u8) as char)
    } else {
        ((97u8 + (d - 10) as u8) as char)
    }
}

/// Appends `{:04x}` of `v` to `out`.
pub fn push_hex4(out: &mut Vec<char>, v: u16)
    ensures
        final(out)@ == old(out)@ + hex4(v),
{
    out.push(hex_digit_char(v / 4096));
    out.push(hex_digit_char((v / 256) % 16));
    out.push(hex_digit_char((v / 16) % 16));
    out.push(hex_digit_char(v % 16));
    assert(out@ =~= old(out)@ + hex4(v));
}

} // verus!
