//! Text rendering and searching over character sequences.

use vstd::prelude::*;
use vstd::utf8::{decode_utf8, is_ascii_chars, valid_utf8};

verus! {

/// The digit `d` of a number written in base sixteen or less, in lower case.
pub open spec fn digit_char(d: nat) -> char {
    if d < 10 {
        (48 + d) as char
    } else {
        (87 + d) as char
    }
}

/// The digits of `n` in `base`, most significant first, without leading zeros.
pub open spec fn digits(n: nat, base: nat) -> Seq<char>
    decreases n,
{
    if base < 2 || n < base {
        seq![digit_char(n)]
    } else {
        proof {
            vstd::arithmetic::div_mod::lemma_div_decreases(n as int, base as int);
        }
        digits(n / base, base).push(digit_char(n % base))
    }
}

/// `n` in decimal.
pub open spec fn decimal(n: nat) -> Seq<char> {
    digits(n, 10)
}

/// `n` in decimal, with a minus sign where it is negative.
pub open spec fn signed_decimal(n: int) -> Seq<char> {
    if n < 0 {
        seq!['-'] + decimal((-n) as nat)
    } else {
        decimal(n as nat)
    }
}

/// `n` in lower-case hexadecimal behind `0x`.
pub open spec fn prefixed_hex(n: nat) -> Seq<char> {
    seq!['0', 'x'] + digits(n, 16)
}

/// `parts` one behind the other, with `sep` between neighbours.
pub open spec fn joined(parts: Seq<Seq<char>>, sep: Seq<char>) -> Seq<char>
    decreases parts.len(),
{
    if parts.len() == 0 {
        seq![]
    } else if parts.len() == 1 {
        parts[0]
    } else {
        joined(parts.drop_last(), sep) + sep + parts.last()
    }
}

/// `needle` stands in `hay` at position `at`.
pub open spec fn occurs_at(hay: Seq<char>, needle: Seq<char>, at: int) -> bool {
    0 <= at && at + needle.len() <= hay.len() && hay.subrange(at, at + needle.len()) == needle
}

/// `needle` stands somewhere in `hay`.
pub open spec fn contains_text(hay: Seq<char>, needle: Seq<char>) -> bool {
    exists|at: int| #[trigger] occurs_at(hay, needle, at)
}

/// `c` with an upper-case ASCII letter made lower case.
pub open spec fn ascii_lower(c: char) -> char {
    if 'A' <= c && c <= 'Z' {
        (c as u32 + 32) as char
    } else {
        c
    }
}

/// What `str::to_lowercase` makes of a text.
pub uninterp spec fn lowercase(s: Seq<char>) -> Seq<char>;

/// `str::to_lowercase`: the Unicode lower-case form of a text. It depends on the
/// text alone, and of a text in ASCII it lowers the letters one by one.
pub assume_specification[ str::to_lowercase ](s: &str) -> (r: String)
    ensures
        r@ == lowercase(s@),
        is_ascii_chars(s@) ==> r@ == s@.map_values(|c: char| ascii_lower(c)),
;

/// A text in lower case. Of a text in ASCII the letters are lowered one by one; of any
/// other it is the Unicode lower-case form.
pub open spec fn lowered(s: Seq<char>) -> Seq<char> {
    if is_ascii_chars(s) {
        s.map_values(|c: char| ascii_lower(c))
    } else {
        lowercase(s)
    }
}

/// `String::push`: appends one character.
pub assume_specification[ String::push ](s: &mut String, c: char)
    ensures
        final(s)@ == old(s)@.push(c),
;

/// What `String::from_utf8_lossy` makes of a byte sequence.
pub uninterp spec fn lossy_text(bytes: Seq<u8>) -> Seq<char>;

/// `String::from_utf8_lossy`: the text that `bytes` encode, with replacement
/// characters where they are not UTF-8. Valid UTF-8 is decoded unchanged.
#[verifier::external_body]
pub(crate) fn decode_lossy(bytes: &[u8]) -> (r: String)
    ensures
        r@ == lossy_text(bytes@),
        valid_utf8(bytes@) ==> r@ == decode_utf8(bytes@),
{
    String::from_utf8_lossy(bytes).into_owned()
}

/// Bytes as they are shown. Bytes in UTF-8 are shown as the text that they encode; others
/// with replacement characters.
pub open spec fn shown_text(bytes: Seq<u8>) -> Seq<char> {
    if valid_utf8(bytes) {
        decode_utf8(bytes)
    } else {
        lossy_text(bytes)
    }
}

/// `str::from_utf8`: the text that `bytes` encode, or `None` where they are not
/// UTF-8.
#[verifier::external_body]
pub(crate) fn decode_strict(bytes: &[u8]) -> (r: Option<&str>)
    ensures
        r is Some <==> valid_utf8(bytes@),
        r is Some ==> r->0@ == decode_utf8(bytes@),
{
    std::str::from_utf8(bytes).ok()
}

/// The characters of `s`.
pub fn chars_of(s: &str) -> (r: Vec<char>)
    ensures
        r@ == s@,
{
    let mut r: Vec<char> = Vec::new();
    for c in it: s.chars()
        invariant
            r@ == it.seq().take(it.index() as int),
            it.seq() == s@,
    {
        r.push(c);
    }
    r
}

/// The text made of `chars`.
pub fn text_of(chars: &[char]) -> (r: String)
    ensures
        r@ == chars@,
{
    let mut r = String::new();
    for i in 0..chars.len()
        invariant
            r@ == chars@.take(i as int),
    {
        r.push(chars[i]);
    }
    r
}

/// The two texts are the same.
pub fn same_text(a: &str, b: &str) -> (r: bool)
    ensures
        r == (a@ == b@),
{
    let x = chars_of(a);
    let y = chars_of(b);
    if x.len() != y.len() {
        return false;
    }
    for i in 0..x.len()
        invariant
            x@ == a@,
            y@ == b@,
            x.len() == y.len(),
            forall|j: int| 0 <= j < i ==> x@[j] == y@[j],
    {
        if x[i] != y[i] {
            return false;
        }
    }
    assert(a@ =~= b@);
    true
}

/// Appends the digits of `n` in `base`.
fn push_digits(out: &mut String, n: u64, base: u64)
    requires
        2 <= base <= 16,
    ensures
        final(out)@ == old(out)@ + digits(n as nat, base as nat),
    decreases n,
{
    if n >= base {
        assert(n / base < n) by (nonlinear_arith)
            requires
                n >= base,
                base >= 2,
        ;
        push_digits(out, n / base, base);
    }
    proof {
        vstd::arithmetic::div_mod::lemma_mod_bound(n as int, base as int);
        if n < base {
            vstd::arithmetic::div_mod::lemma_small_mod(n as nat, base as nat);
        }
    }
    let d: u8 = (n % base) as u8;
    let c: char = if d < 10 {
        (48 + d) as char
    } else {
        (87 + d) as char
    };
    out.push(c);
    assert(out@ =~= old(out)@ + digits(n as nat, base as nat));
}

/// Appends `n` in decimal.
pub fn push_decimal(out: &mut String, n: u64)
    ensures
        final(out)@ == old(out)@ + decimal(n as nat),
{
    push_digits(out, n, 10);
}

/// Appends `n` in decimal, with a minus sign where it is negative.
pub fn push_signed_decimal(out: &mut String, n: i32)
    ensures
        final(out)@ == old(out)@ + signed_decimal(n as int),
{
    if n < 0 {
        out.push('-');
        push_digits(out, (-(n as i64)) as u64, 10);
        assert(out@ =~= old(out)@ + signed_decimal(n as int));
    } else {
        push_digits(out, n as u64, 10);
    }
}

/// Appends `n` in hexadecimal behind `0x`.
pub fn push_prefixed_hex(out: &mut String, n: u64)
    ensures
        final(out)@ == old(out)@ + prefixed_hex(n as nat),
{
    out.push('0');
    out.push('x');
    push_digits(out, n, 16);
    assert(out@ =~= old(out)@ + prefixed_hex(n as nat));
}

/// The parts one behind the other, with `sep` between neighbours.
pub fn join_texts(parts: &[String], sep: &str) -> (r: String)
    ensures
        r@ == joined(parts@.map_values(|p: String| p@), sep@),
{
    let ghost texts = parts@.map_values(|p: String| p@);
    let mut r = String::new();
    for i in 0..parts.len()
        invariant
            texts == parts@.map_values(|p: String| p@),
            r@ == joined(texts.take(i as int), sep@),
    {
        if i > 0 {
            r.append(sep);
        }
        r.append(parts[i].as_str());
        assert(texts.take(i + 1).drop_last() =~= texts.take(i as int));
        assert(r@ =~= joined(texts.take(i + 1), sep@));
    }
    assert(texts.take(parts@.len() as int) =~= texts);
    r
}

/// `needle` stands in `hay` at position `at`.
pub fn found_at(hay: &[char], needle: &[char], at: usize) -> (r: bool)
    requires
        at <= hay@.len(),
    ensures
        r == occurs_at(hay@, needle@, at as int),
{
    if needle.len() > hay.len() - at {
        return false;
    }
    assert(hay@.len() == hay.len());
    for i in 0..needle.len()
        invariant
            at + needle@.len() <= hay@.len() <= usize::MAX,
            forall|j: int| 0 <= j < i ==> hay@[at + j] == needle@[j],
    {
        if hay[at + i] != needle[i] {
            assert(hay@.subrange(at as int, at + needle@.len())[i as int] != needle@[i as int]);
            return false;
        }
    }
    assert(hay@.subrange(at as int, at + needle@.len()) =~= needle@);
    true
}

/// `needle` stands somewhere in `hay`.
pub fn find_text(hay: &[char], needle: &str) -> (r: bool)
    ensures
        r == contains_text(hay@, needle@),
{
    let chars = chars_of(needle);
    let mut at: usize = 0;
    while at < hay.len()
        invariant
            at <= hay@.len(),
            chars@ == needle@,
            forall|j: int| 0 <= j < at ==> !occurs_at(hay@, needle@, j),
        decreases hay@.len() - at,
    {
        if found_at(hay, chars.as_slice(), at) {
            assert(occurs_at(hay@, needle@, at as int));
            return true;
        }
        at += 1;
    }
    let r = chars.len() == 0;
    assert(r == occurs_at(hay@, needle@, at as int)) by {
        if r {
            assert(hay@.subrange(at as int, at + needle@.len()) =~= needle@);
        }
    }
    r
}

proof fn digits_are_read_back(n: nat, base: nat)
    requires
        2 <= base <= 16,
    ensures
        digits(n, base).len() > 0,
        forall|i: int|
            0 <= i < digits(n, base).len() ==> {
                ||| '0' <= #[trigger] digits(n, base)[i] <= '9' && digits(n, base)[i] as int - 48
                    < base
                ||| 'a' <= digits(n, base)[i] <= 'f' && digits(n, base)[i] as int - 87 < base
            },
        n > 0 ==> digits(n, base)[0] != '0',
        n < base ==> digits(n, base).len() == 1,
        digits(n, base).fold_left(
            0int,
            |v: int, c: char|
                base * v + if c <= '9' {
                    c as int - 48
                } else {
                    c as int - 87
                },
        ) == n,
    decreases n,
{
    let read = |v: int, c: char|
        base * v + if c <= '9' {
            c as int - 48
        } else {
            c as int - 87
        };
    let all = digits(n, base);
    if n < base {
        assert(all.drop_last() =~= Seq::<char>::empty());
        assert(all.drop_last().fold_left(0int, read) == 0);
        assert(base * 0 == 0) by (nonlinear_arith);
    } else {
        vstd::arithmetic::div_mod::lemma_div_decreases(n as int, base as int);
        vstd::arithmetic::div_mod::lemma_fundamental_div_mod(n as int, base as int);
        vstd::arithmetic::div_mod::lemma_mod_bound(n as int, base as int);
        vstd::arithmetic::div_mod::lemma_div_non_zero(n as int, base as int);
        digits_are_read_back(n / base, base);
        assert(all.drop_last() =~= digits(n / base, base));
        assert(all[0] == digits(n / base, base)[0]);
        assert forall|i: int| 0 <= i < all.len() implies {
            ||| '0' <= #[trigger] all[i] <= '9' && all[i] as int - 48 < base
            ||| 'a' <= all[i] <= 'f' && all[i] as int - 87 < base
        } by {
            if i < all.len() - 1 {
                assert(all[i] == digits(n / base, base)[i]);
            }
        }
    }
}

/// A number that is written in decimal is read back: all of it are digits, with no zero
/// too many at the start, and their value is the number.
pub proof fn decimal_is_read_back(n: nat)
    ensures
        decimal(n).len() > 0,
        forall|i: int| 0 <= i < decimal(n).len() ==> '0' <= #[trigger] decimal(n)[i] <= '9',
        decimal(n).len() > 1 ==> decimal(n)[0] != '0',
        decimal(n).fold_left(0int, |v: int, c: char| 10 * v + (c as int - 48)) == n,
{
    digits_are_read_back(n, 10);
    let all = decimal(n);
    let read = |v: int, c: char|
        10nat * v + if c <= '9' {
            c as int - 48
        } else {
            c as int - 87
        };
    same_value(all, read, |v: int, c: char| 10 * v + (c as int - 48));
}

proof fn same_value(
    all: Seq<char>,
    a: spec_fn(int, char) -> int,
    b: spec_fn(int, char) -> int,
)
    requires
        forall|i: int, v: int| 0 <= i < all.len() ==> #[trigger] a(v, all[i]) == b(v, all[i]),
    ensures
        all.fold_left(0int, a) == all.fold_left(0int, b),
    decreases all.len(),
{
    if all.len() > 0 {
        assert forall|i: int, v: int| 0 <= i < all.drop_last().len() implies #[trigger] a(
            v,
            all.drop_last()[i],
        ) == b(v, all.drop_last()[i]) by {
            assert(a(v, all[i]) == b(v, all[i]));
        }
        same_value(all.drop_last(), a, b);
        let v = all.drop_last().fold_left(0int, a);
        assert(a(v, all[all.len() - 1]) == b(v, all[all.len() - 1]));
    }
}

/// A number that is written in hexadecimal is read back: behind `0x` stand digits in lower
/// case, with no zero too many at the start, and their value is the number.
pub proof fn hexadecimal_is_read_back(n: nat)
    ensures
        prefixed_hex(n).len() > 2,
        prefixed_hex(n)[0] == '0',
        prefixed_hex(n)[1] == 'x',
        forall|i: int|
            2 <= i < prefixed_hex(n).len() ==> '0' <= #[trigger] prefixed_hex(n)[i] <= '9' || 'a'
                <= prefixed_hex(n)[i] <= 'f',
        prefixed_hex(n).len() > 3 ==> prefixed_hex(n)[2] != '0',
        prefixed_hex(n).skip(2).fold_left(
            0int,
            |v: int, c: char|
                16 * v + if c <= '9' {
                    c as int - 48
                } else {
                    c as int - 87
                },
        ) == n,
{
    digits_are_read_back(n, 16);
    let all = digits(n, 16);
    let whole = prefixed_hex(n);
    assert(whole.skip(2) =~= all);
    assert forall|i: int| 2 <= i < whole.len() implies '0' <= #[trigger] whole[i] <= '9' || 'a'
        <= whole[i] <= 'f' by {
        assert(whole[i] == all[i - 2]);
    }
    assert(whole[2] == all[0]);
    let read = |v: int, c: char|
        16nat * v + if c <= '9' {
            c as int - 48
        } else {
            c as int - 87
        };
    same_value(
        all,
        read,
        |v: int, c: char|
            16 * v + if c <= '9' {
                c as int - 48
            } else {
                c as int - 87
            },
    );
}

/// Two numbers are written alike only if they are the same.
pub proof fn numbers_are_told_apart(a: nat, b: nat)
    ensures
        decimal(a) == decimal(b) ==> a == b,
        prefixed_hex(a) == prefixed_hex(b) ==> a == b,
{
    decimal_is_read_back(a);
    decimal_is_read_back(b);
    hexadecimal_is_read_back(a);
    hexadecimal_is_read_back(b);
}

/// A negative number is written as a minus sign and what is written for its opposite.
pub proof fn sign_is_written_first(n: int)
    ensures
        n >= 0 ==> signed_decimal(n) == decimal(n as nat),
        n < 0 ==> signed_decimal(n).len() > 0 && signed_decimal(n)[0] == '-' && signed_decimal(
            n,
        ).skip(1) == signed_decimal(-n),
{
    if n < 0 {
        assert(signed_decimal(n).skip(1) =~= decimal((-n) as nat));
    }
}

/// Joining is done piece by piece: one part is itself, and what is joined of two lists is
/// what is joined of each, with the separator between.
pub proof fn joining_keeps_the_parts(a: Seq<Seq<char>>, b: Seq<Seq<char>>, sep: Seq<char>)
    ensures
        a.len() == 0 ==> joined(a, sep) == Seq::<char>::empty(),
        a.len() == 1 ==> joined(a, sep) == a[0],
        a.len() > 0 && b.len() > 0 ==> joined(a + b, sep) == joined(a, sep) + sep + joined(b, sep),
    decreases b.len(),
{
    if a.len() > 0 && b.len() > 0 {
        assert((a + b).drop_last() =~= a + b.drop_last());
        assert((a + b).last() == b.last());
        if b.len() > 1 {
            joining_keeps_the_parts(a, b.drop_last(), sep);
        } else {
            assert(a + b.drop_last() =~= a);
        }
        assert(joined(a + b, sep) =~= joined(a, sep) + sep + joined(b, sep));
    }
}

/// A text is found in another exactly where that one is made of something, the text, and
/// something else.
pub proof fn found_text_is_a_part(hay: Seq<char>, needle: Seq<char>)
    ensures
        contains_text(hay, needle) <==> exists|before: Seq<char>, after: Seq<char>|
            hay == #[trigger] (before + needle + after),
{
    if contains_text(hay, needle) {
        let at = choose|at: int| #[trigger] occurs_at(hay, needle, at);
        let (before, after) = (hay.take(at), hay.skip(at + needle.len()));
        let middle = hay.subrange(at, at + needle.len());
        assert(hay =~= before + middle + after);
        assert(hay == before + needle + after);
    }
    if exists|before: Seq<char>, after: Seq<char>| hay == #[trigger] (before + needle + after) {
        let (before, after) = choose|before: Seq<char>, after: Seq<char>|
            hay == #[trigger] (before + needle + after);
        let at = before.len() as int;
        assert(hay.subrange(at, at + needle.len()) =~= needle);
        assert(occurs_at(hay, needle, at));
    }
}

/// A text in ASCII is lowered letter by letter: `A` to `Z` become `a` to `z`, and all else
/// stays.
pub proof fn ascii_letters_are_lowered(s: Seq<char>)
    requires
        is_ascii_chars(s),
    ensures
        lowered(s).len() == s.len(),
        forall|i: int|
            0 <= i < s.len() ==> (#[trigger] lowered(s)[i]) as int == if 'A' <= s[i] && s[i] <= 'Z' {
                s[i] as int + 32
            } else {
                s[i] as int
            },
{
}

/// Bytes are shown as the text that they encode, where they are UTF-8, and else as the
/// system shows them.
pub proof fn utf8_is_shown_as_it_is(bytes: Seq<u8>)
    ensures
        valid_utf8(bytes) ==> shown_text(bytes) == decode_utf8(bytes),
        !valid_utf8(bytes) ==> shown_text(bytes) == lossy_text(bytes),
{
}

/// A text that is not in ASCII is lowered as Unicode says.
pub proof fn other_letters_are_lowered(s: Seq<char>)
    requires
        !is_ascii_chars(s),
    ensures
        lowered(s) == lowercase(s),
{
}

} // verus!
