//! Text-level helpers: character comparison, splitting and joining,
//! decimal parsing and formatting.

use vstd::prelude::*;

verus! {

/// Character-wise string equality.
pub fn str_eq(a: &str, b: &str) -> (r: bool)
    ensures
        r == (a@ == b@),
{
    let la = a.unicode_len();
    let lb = b.unicode_len();
    if la != lb {
        return false;
    }
    let mut i: usize = 0;
    while i < la
        invariant
            la == a@.len(),
            la == b@.len(),
            i <= la,
            forall|k: int| 0 <= k < i ==> a@[k] == b@[k],
        decreases la - i,
    {
        if a.get_char(i) != b.get_char(i) {
            return false;
        }
        i += 1;
    }
    proof {
        assert(a@ =~= b@);
    }
    true
}

/// Whether a string holds the given character.
pub fn contains_char(s: &str, c: char) -> (r: bool)
    ensures
        r == s@.contains(c),
{
    let len = s.unicode_len();
    let mut i: usize = 0;
    while i < len
        invariant
            len == s@.len(),
            i <= len,
            forall|k: int| 0 <= k < i ==> s@[k] != c,
        decreases len - i,
    {
        if s.get_char(i) == c {
            assert(s@[i as int] == c);
            return true;
        }
        i += 1;
    }
    false
}

/// Relies on std's String::push: appends one character at the end.
#[verifier::external_body]
pub fn push_char(s: &mut String, c: char)
    ensures
        final(s)@ == old(s)@.push(c),
{
    s.push(c);
}

/// A decimal digit.
pub open spec fn is_digit(c: char) -> bool {
    c == '0' || c == '1' || c == '2' || c == '3' || c == '4' || c == '5' || c == '6' || c == '7'
        || c == '8' || c == '9'
}

/// The value of a decimal digit.
pub open spec fn digit_val(c: char) -> nat {
    if c == '0' {
        0
    } else if c == '1' {
        1
    } else if c == '2' {
        2
    } else if c == '3' {
        3
    } else if c == '4' {
        4
    } else if c == '5' {
        5
    } else if c == '6' {
        6
    } else if c == '7' {
        7
    } else if c == '8' {
        8
    } else {
        9
    }
}

/// The digit for a value below ten.
pub open spec fn digit_char(n: nat) -> char {
    if n == 0 {
        '0'
    } else if n == 1 {
        '1'
    } else if n == 2 {
        '2'
    } else if n == 3 {
        '3'
    } else if n == 4 {
        '4'
    } else if n == 5 {
        '5'
    } else if n == 6 {
        '6'
    } else if n == 7 {
        '7'
    } else if n == 8 {
        '8'
    } else {
        '9'
    }
}

/// Every character is a decimal digit.
pub open spec fn all_digits(s: Seq<char>) -> bool {
    forall|i: int| 0 <= i < s.len() ==> is_digit(#[trigger] s[i])
}

/// The number a digit string denotes.
pub open spec fn dec_val(s: Seq<char>) -> nat
    decreases s.len(),
{
    if s.len() == 0 {
        0
    } else {
        dec_val(s.drop_last()) * 10 + digit_val(s.last())
    }
}

/// The digits of a number, most significant first.
pub open spec fn dec_repr(n: nat) -> Seq<char>
    decreases n,
{
    if n < 10 {
        seq![digit_char(n)]
    } else {
        dec_repr(n / 10).push(digit_char(n % 10))
    }
}

/// The digits a numeric string carries: an optional leading plus sign is
/// not part of them.
pub open spec fn digits_of(s: Seq<char>) -> Seq<char> {
    if s.len() > 0 && s[0] == '+' {
        s.drop_first()
    } else {
        s
    }
}

/// A string std's integer parsing accepts for an unsigned type, the value
/// range aside: at least one digit, nothing but digits after an optional
/// leading plus sign.
pub open spec fn numeric(s: Seq<char>) -> bool {
    digits_of(s).len() > 0 && all_digits(digits_of(s))
}

/// What parsing a string as a 64-bit unsigned number returns.
pub open spec fn spec_parse_u64(s: Seq<char>) -> Option<u64> {
    if numeric(s) && dec_val(digits_of(s)) <= u64::MAX {
        Some(dec_val(digits_of(s)) as u64)
    } else {
        None
    }
}

/// What parsing a string as an 8-bit unsigned number returns.
pub open spec fn spec_parse_u8(s: Seq<char>) -> Option<u8> {
    if numeric(s) && dec_val(digits_of(s)) <= u8::MAX {
        Some(dec_val(digits_of(s)) as u8)
    } else {
        None
    }
}

/// A longer digit string never denotes a smaller number.
proof fn lemma_dec_val_prefix(s: Seq<char>, i: int)
    requires
        0 <= i <= s.len(),
    ensures
        dec_val(s.subrange(0, i)) <= dec_val(s),
    decreases s.len() - i,
{
    if i < s.len() {
        let t = s.subrange(0, i + 1);
        assert(t.drop_last() =~= s.subrange(0, i));
        assert(dec_val(s.subrange(0, i)) <= dec_val(t));
        lemma_dec_val_prefix(s, i + 1);
        assert(s.subrange(0, s.len() as int) =~= s);
    } else {
        assert(s.subrange(0, i) =~= s);
    }
}

/// The value of one digit.
fn digit_value(c: char) -> (v: u64)
    requires
        is_digit(c),
    ensures
        v == digit_val(c),
        v <= 9,
{
    match c {
        '0' => 0,
        '1' => 1,
        '2' => 2,
        '3' => 3,
        '4' => 4,
        '5' => 5,
        '6' => 6,
        '7' => 7,
        '8' => 8,
        _ => 9,
    }
}

/// Whether one character is a decimal digit.
fn char_is_digit(c: char) -> (r: bool)
    ensures
        r == is_digit(c),
{
    c == '0' || c == '1' || c == '2' || c == '3' || c == '4' || c == '5' || c == '6' || c == '7'
        || c == '8' || c == '9'
}

/// Parse a string as a 64-bit unsigned decimal number, as std's integer
/// parsing reads it; `None` on anything malformed or out of range.
pub fn parse_u64(s: &str) -> (r: Option<u64>)
    ensures
        r == spec_parse_u64(s@),
{
    let len = s.unicode_len();
    let mut i: usize = 0;
    if len > 0 && s.get_char(0) == '+' {
        i = 1;
    }
    proof {
        assert(digits_of(s@) =~= s@.subrange(i as int, len as int));
    }
    if i >= len {
        assert(!numeric(s@));
        return None;
    }
    let ghost d = digits_of(s@);
    let start = i;
    let mut val: u64 = 0;
    while i < len
        invariant
            len == s@.len(),
            start <= i <= len,
            start < len,
            d == digits_of(s@),
            d =~= s@.subrange(start as int, len as int),
            val == dec_val(d.subrange(0, i - start)),
            all_digits(d.subrange(0, i - start)),
        decreases len - i,
    {
        let c = s.get_char(i);
        if !char_is_digit(c) {
            proof {
                assert(d[i - start] == c);
                assert(!all_digits(d));
            }
            return None;
        }
        let v = digit_value(c);
        proof {
            let pre = d.subrange(0, i - start);
            let cur = d.subrange(0, i + 1 - start);
            assert(cur.drop_last() =~= pre);
            assert(cur.last() == d[i - start]);
            assert(d[i - start] == c);
            assert(dec_val(cur) == dec_val(pre) * 10 + digit_val(c));
        }
        if val > (u64::MAX - v) / 10 {
            proof {
                assert(dec_val(d.subrange(0, i + 1 - start)) > u64::MAX);
                lemma_dec_val_prefix(d, i + 1 - start);
            }
            return None;
        }
        val = val * 10 + v;
        proof {
            let cur = d.subrange(0, i + 1 - start);
            assert(forall|k: int| 0 <= k < cur.len() ==> is_digit(#[trigger] cur[k]));
        }
        i += 1;
    }
    proof {
        assert(d.subrange(0, len - start) =~= d);
    }
    Some(val)
}

/// Parse a string as an 8-bit unsigned decimal number.
pub fn parse_u8(s: &str) -> (r: Option<u8>)
    ensures
        r == spec_parse_u8(s@),
{
    match parse_u64(s) {
        Some(v) => {
            if v <= 255 {
                Some(v as u8)
            } else {
                None
            }
        },
        None => {
            proof {
                if numeric(s@) && dec_val(digits_of(s@)) <= u8::MAX {
                    assert(dec_val(digits_of(s@)) <= u64::MAX);
                }
            }
            None
        },
    }
}

/// Format a number in decimal.
pub fn u64_to_string(n: u64) -> (r: String)
    ensures
        r@ == dec_repr(n as nat),
    decreases n,
{
    if n < 10 {
        let mut r = String::new();
        push_char(&mut r, digit_character(n));
        proof {
            assert(r@ =~= seq![digit_char(n as nat)]);
        }
        r
    } else {
        let mut r = u64_to_string(n / 10);
        push_char(&mut r, digit_character(n % 10));
        r
    }
}

/// The digit character for a value below ten.
fn digit_character(n: u64) -> (c: char)
    requires
        n <= 9,
    ensures
        c == digit_char(n as nat),
{
    match n {
        0 => '0',
        1 => '1',
        2 => '2',
        3 => '3',
        4 => '4',
        5 => '5',
        6 => '6',
        7 => '7',
        8 => '8',
        _ => '9',
    }
}

/// A decimal representation is digits throughout and reads back as the
/// number it was made from.
pub proof fn lemma_dec_repr_round_trip(n: nat)
    ensures
        all_digits(dec_repr(n)),
        dec_repr(n).len() > 0,
        dec_repr(n)[0] != '+',
        dec_val(dec_repr(n)) == n,
    decreases n,
{
    if n < 10 {
        assert(dec_repr(n) =~= seq![digit_char(n)]);
        assert(dec_repr(n).drop_last() =~= Seq::<char>::empty());
        assert(dec_repr(n).last() == digit_char(n));
        assert(dec_val(dec_repr(n)) == dec_val(Seq::<char>::empty()) * 10 + digit_val(
            digit_char(n),
        ));
    } else {
        lemma_dec_repr_round_trip(n / 10);
        let r = dec_repr(n);
        let h = dec_repr(n / 10);
        assert(r == h.push(digit_char(n % 10)));
        assert(r.drop_last() =~= h);
        assert(r.last() == digit_char(n % 10));
        assert(digit_val(digit_char(n % 10)) == n % 10);
        assert(dec_val(r) == (n / 10) * 10 + n % 10);
        assert((n / 10) * 10 + n % 10 == n) by (nonlinear_arith);
        assert(forall|k: int| 0 <= k < r.len() ==> is_digit(#[trigger] r[k]));
        assert(r[0] == h[0]);
    }
}

/// Parsing the decimal representation of a number gives the number back.
pub proof fn lemma_parse_of_repr(n: u64)
    ensures
        spec_parse_u64(dec_repr(n as nat)) == Some(n),
{
    lemma_dec_repr_round_trip(n as nat);
    let r = dec_repr(n as nat);
    assert(digits_of(r) == r);
}

/// The first position of a character, or the length when it is absent.
pub open spec fn first_at(s: Seq<char>, sep: char) -> nat
    decreases s.len(),
{
    if s.len() == 0 {
        0
    } else if s[0] == sep {
        0
    } else {
        1 + first_at(s.drop_first(), sep)
    }
}

/// A character-wise description pins `first_at` down.
pub proof fn lemma_first_at_is(s: Seq<char>, sep: char, m: int)
    requires
        0 <= m <= s.len(),
        forall|k: int| 0 <= k < m ==> s[k] != sep,
        m < s.len() ==> s[m] == sep,
    ensures
        first_at(s, sep) == m,
    decreases s.len(),
{
    if s.len() == 0 {
    } else if s[0] == sep {
    } else {
        let t = s.drop_first();
        assert(forall|k: int| 0 <= k < t.len() ==> t[k] == s[k + 1]);
        lemma_first_at_is(t, sep, m - 1);
    }
}

/// The fields of a string under a separator, in order; a string without
/// the separator is one field, and every separator ends a field.
pub open spec fn split_at(s: Seq<char>, sep: char) -> Seq<Seq<char>>
    decreases s.len(),
{
    let i = first_at(s, sep);
    if i >= s.len() {
        seq![s]
    } else {
        seq![s.subrange(0, i as int)] + split_at(s.subrange(i + 1 as int, s.len() as int), sep)
    }
}

/// The field at an index, or the empty string past the last field.
pub open spec fn spec_field_at(s: Seq<char>, sep: char, n: int) -> Seq<char> {
    if 0 <= n < split_at(s, sep).len() {
        split_at(s, sep)[n]
    } else {
        Seq::<char>::empty()
    }
}

/// Split a string at a separator character.
pub fn split_fields(s: &str, sep: char) -> (r: Vec<String>)
    ensures
        crate::record::seq_views(r@) == split_at(s@, sep),
{
    let len = s.unicode_len();
    let mut r: Vec<String> = Vec::new();
    let mut start: usize = 0;
    let mut i: usize = 0;
    proof {
        assert(s@.subrange(0, len as int) =~= s@);
        assert(crate::record::seq_views(r@) =~= Seq::<Seq<char>>::empty());
        assert(Seq::<Seq<char>>::empty() + split_at(s@, sep) =~= split_at(s@, sep));
    }
    while i < len
        invariant
            len == s@.len(),
            start <= i <= len,
            split_at(s@, sep) =~= crate::record::seq_views(r@) + split_at(
                s@.subrange(start as int, len as int),
                sep,
            ),
            forall|k: int| start <= k < i ==> s@[k] != sep,
        decreases len - i,
    {
        if s.get_char(i) == sep {
            let part = s.substring_char(start, i).to_owned();
            proof {
                let rest = s@.subrange(start as int, len as int);
                assert(forall|k: int| 0 <= k < rest.len() ==> rest[k] == s@[start + k]);
                lemma_first_at_is(rest, sep, i - start);
                assert(part@ =~= rest.subrange(0, i - start));
                assert(rest.subrange(i - start + 1, rest.len() as int) =~= s@.subrange(
                    i + 1,
                    len as int,
                ));
                let ghost pre = crate::record::seq_views(r@);
                assert(split_at(rest, sep) == seq![part@] + split_at(
                    s@.subrange(i + 1, len as int),
                    sep,
                ));
            }
            let ghost pre = crate::record::seq_views(r@);
            r.push(part);
            proof {
                assert(crate::record::seq_views(r@) =~= pre.push(
                    s@.subrange(start as int, len as int).subrange(0, i - start),
                ));
                assert(crate::record::seq_views(r@) + split_at(
                    s@.subrange(i + 1, len as int),
                    sep,
                ) =~= split_at(s@, sep));
            }
            start = i + 1;
        }
        i += 1;
    }
    let part = s.substring_char(start, len).to_owned();
    proof {
        let rest = s@.subrange(start as int, len as int);
        assert(forall|k: int| 0 <= k < rest.len() ==> rest[k] == s@[start + k]);
        lemma_first_at_is(rest, sep, len - start);
        assert(part@ =~= rest);
        assert(split_at(rest, sep) == seq![rest]);
    }
    let ghost pre = crate::record::seq_views(r@);
    r.push(part);
    proof {
        assert(crate::record::seq_views(r@) =~= pre.push(
            s@.subrange(start as int, len as int),
        ));
        assert(crate::record::seq_views(r@) =~= split_at(s@, sep));
    }
    r
}

/// The field of a string at an index under a separator; empty past the end.
pub fn field_at(s: &str, sep: char, n: usize) -> (r: String)
    ensures
        r@ == spec_field_at(s@, sep, n as int),
{
    let parts = split_fields(s, sep);
    if n < parts.len() {
        let r = parts[n].clone();
        proof {
            assert(crate::record::seq_views(parts@)[n as int] == parts@[n as int]@);
        }
        r
    } else {
        String::new()
    }
}

/// The fields joined back with the separator between them.
pub open spec fn join_with(parts: Seq<Seq<char>>, sep: char) -> Seq<char>
    decreases parts.len(),
{
    if parts.len() == 0 {
        Seq::<char>::empty()
    } else if parts.len() == 1 {
        parts[0]
    } else {
        parts[0] + seq![sep] + join_with(parts.drop_first(), sep)
    }
}

/// Joining one more field appends a separator and the field.
pub proof fn lemma_join_push(parts: Seq<Seq<char>>, x: Seq<char>, sep: char)
    ensures
        join_with(parts.push(x), sep) == if parts.len() == 0 {
            x
        } else {
            join_with(parts, sep) + seq![sep] + x
        },
    decreases parts.len(),
{
    let p = parts.push(x);
    if parts.len() == 0 {
        assert(p.len() == 1);
        assert(p[0] == x);
    } else if parts.len() == 1 {
        assert(p.len() == 2);
        assert(p[0] == parts[0]);
        assert(p.drop_first() =~= seq![x]);
        assert(join_with(p.drop_first(), sep) == x);
    } else {
        assert(p[0] == parts[0]);
        assert(p.drop_first() =~= parts.drop_first().push(x));
        lemma_join_push(parts.drop_first(), x, sep);
        assert(join_with(p, sep) == p[0] + seq![sep] + join_with(p.drop_first(), sep));
        assert(parts[0] + seq![sep] + (join_with(parts.drop_first(), sep) + seq![sep] + x) =~= (
        parts[0] + seq![sep] + join_with(parts.drop_first(), sep)) + seq![sep] + x);
    }
}

/// Join strings with a separator character between them.
pub fn join_strings(parts: &Vec<String>, sep: char) -> (r: String)
    ensures
        r@ == join_with(crate::record::seq_views(parts@), sep),
{
    let ghost views = crate::record::seq_views(parts@);
    let mut r = String::new();
    let n = parts.len();
    let mut i: usize = 0;
    while i < n
        invariant
            n == parts@.len(),
            i <= n,
            views == crate::record::seq_views(parts@),
            r@ == join_with(views.subrange(0, i as int), sep),
        decreases n - i,
    {
        let ghost before = r@;
        if i > 0 {
            push_char(&mut r, sep);
        }
        r.append(parts[i].as_str());
        proof {
            let pre = views.subrange(0, i as int);
            assert(views.subrange(0, i + 1) =~= pre.push(views[i as int]));
            lemma_join_push(pre, views[i as int], sep);
            if i > 0 {
                assert(r@ =~= before + seq![sep] + views[i as int]);
            } else {
                assert(r@ =~= views[0]);
            }
        }
        i += 1;
    }
    proof {
        assert(views.subrange(0, n as int) =~= views);
    }
    r
}

} // verus!
