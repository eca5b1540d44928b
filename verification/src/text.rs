//! Text building blocks shared by the record generator and the index
//! rebuilder: decimal numerals with zero padding, slug derivation, and
//! lexicographic comparison of names.

use vstd::prelude::*;
use vstd::string::StrSliceExecFns;

verus! {

/// The decimal digit character for a value below ten.
pub open spec fn spec_digit(d: nat) -> char {
    if d == 0 {
        '0'
    } else if d == 1 {
        '1'
    } else if d == 2 {
        '2'
    } else if d == 3 {
        '3'
    } else if d == 4 {
        '4'
    } else if d == 5 {
        '5'
    } else if d == 6 {
        '6'
    } else if d == 7 {
        '7'
    } else if d == 8 {
        '8'
    } else {
        '9'
    }
}

/// The decimal numeral of `n`, most significant digit first, with no
/// leading zeroes (a single `'0'` for zero itself).
pub open spec fn dec_rep(n: nat) -> Seq<char>
    decreases n,
{
    if n < 10 {
        seq![spec_digit(n)]
    } else {
        dec_rep(n / 10).push(spec_digit(n % 10))
    }
}

/// `k` copies of `'0'`.
pub open spec fn zeroes(k: nat) -> Seq<char> {
    Seq::new(k, |i: int| '0')
}

/// The decimal numeral of `n`, zero-padded on the left to at least
/// `width` characters.
pub open spec fn padded_dec(n: nat, width: nat) -> Seq<char> {
    if dec_rep(n).len() >= width {
        dec_rep(n)
    } else {
        zeroes((width - dec_rep(n).len()) as nat) + dec_rep(n)
    }
}

/// Relies on `String::push`: appends the one character to the string.
pub assume_specification[ String::push ](s: &mut String, c: char)
    ensures
        final(s)@ == old(s)@.push(c),
;

/// The digit character for `d`, below ten.
fn digit_char(d: u8) -> (c: char)
    requires
        d < 10,
    ensures
        c == spec_digit(d as nat),
{
    if d == 0 {
        '0'
    } else if d == 1 {
        '1'
    } else if d == 2 {
        '2'
    } else if d == 3 {
        '3'
    } else if d == 4 {
        '4'
    } else if d == 5 {
        '5'
    } else if d == 6 {
        '6'
    } else if d == 7 {
        '7'
    } else if d == 8 {
        '8'
    } else {
        '9'
    }
}

/// Appends the decimal numeral of `n` to `s`.
fn push_dec(s: &mut String, n: usize)
    ensures
        final(s)@ == old(s)@ + dec_rep(n as nat),
    decreases n,
{
    if n >= 10 {
        push_dec(s, n / 10);
    }
    s.push(digit_char((n % 10) as u8));
    proof {
        assert(final(s)@ =~= old(s)@ + dec_rep(n as nat));
    }
}

/// How many digits the numeral of `n` has, by magnitude.
proof fn lemma_dec_rep_len(n: nat)
    ensures
        n < 10 ==> dec_rep(n).len() == 1,
        10 <= n < 100 ==> dec_rep(n).len() == 2,
        100 <= n < 1000 ==> dec_rep(n).len() == 3,
        1000 <= n < 10000 ==> dec_rep(n).len() == 4,
        10000 <= n < 100000 ==> dec_rep(n).len() == 5,
        100000 <= n ==> dec_rep(n).len() >= 6,
    decreases n,
{
    if n >= 10 {
        lemma_dec_rep_len(n / 10);
    }
}

/// The numeral of `n`, zero-padded to at least five characters: the form a
/// sequence number takes in a record's file name and heading.
pub fn format_padded(n: usize) -> (r: String)
    ensures
        r@ == padded_dec(n as nat, 5),
{
    proof {
        lemma_dec_rep_len(n as nat);
    }
    let mut s = String::new();
    let mut pad: usize = if n < 10 {
        4
    } else if n < 100 {
        3
    } else if n < 1000 {
        2
    } else if n < 10000 {
        1
    } else {
        0
    };
    let ghost total_pad: nat = pad as nat;
    while pad > 0
        invariant
            pad <= total_pad,
            s@ =~= zeroes((total_pad - pad) as nat),
        decreases pad,
    {
        s.push('0');
        pad = pad - 1;
        proof {
            assert(s@ =~= zeroes((total_pad - pad) as nat));
        }
    }
    push_dec(&mut s, n);
    proof {
        assert(s@ =~= padded_dec(n as nat, 5));
    }
    s
}

/// How one character of a title is made safe for a file name: space and
/// the two slash characters become `'-'`; nothing else is altered.
pub open spec fn slug_char(c: char) -> char {
    if c == ' ' || c == '/' || c == '\\' {
        '-'
    } else {
        c
    }
}

/// The slug of a title: every character made safe, length and all other
/// characters kept as they are.
pub open spec fn slug_of(title: Seq<char>) -> Seq<char> {
    title.map_values(|c: char| slug_char(c))
}

/// The slug of a title, built character by character.
pub fn slugify(title: &str) -> (r: String)
    ensures
        r@ == slug_of(title@),
{
    let len = title.unicode_len();
    let mut out = String::new();
    let mut i: usize = 0;
    while i < len
        invariant
            i <= len,
            len == title@.len(),
            out@ =~= slug_of(title@.take(i as int)),
        decreases len - i,
    {
        let c = title.get_char(i);
        let mapped = if c == ' ' || c == '/' || c == '\\' {
            '-'
        } else {
            c
        };
        out.push(mapped);
        i = i + 1;
        proof {
            assert(out@ =~= slug_of(title@.take(i as int)));
        }
    }
    proof {
        assert(title@.take(len as int) =~= title@);
    }
    out
}

/// Lexicographic order on character sequences, by Unicode scalar value.
/// For names whose numeric prefixes share the five-digit width this
/// coincides with numeric order of the prefixes.
pub open spec fn lex_le(a: Seq<char>, b: Seq<char>) -> bool
    decreases a.len(),
{
    if a.len() == 0 {
        true
    } else if b.len() == 0 {
        false
    } else if (a[0] as u32) < (b[0] as u32) {
        true
    } else if (a[0] as u32) > (b[0] as u32) {
        false
    } else {
        lex_le(a.skip(1), b.skip(1))
    }
}

/// Whether `a` comes no later than `b` in lexicographic order.
pub fn lex_le_exec(a: &str, b: &str) -> (r: bool)
    ensures
        r == lex_le(a@, b@),
{
    let a_len = a.unicode_len();
    let b_len = b.unicode_len();
    let mut i: usize = 0;
    proof {
        assert(a@.skip(0) =~= a@);
        assert(b@.skip(0) =~= b@);
    }
    loop
        invariant
            i <= a_len,
            i <= b_len,
            a_len == a@.len(),
            b_len == b@.len(),
            lex_le(a@, b@) == lex_le(a@.skip(i as int), b@.skip(i as int)),
            forall|j: int| 0 <= j < i ==> a@[j] == b@[j],
        decreases a_len - i,
    {
        if i == a_len {
            return true;
        }
        if i == b_len {
            return false;
        }
        let ca = a.get_char(i);
        let cb = b.get_char(i);
        let ua = ca as u32;
        let ub = cb as u32;
        if ua < ub {
            return true;
        }
        if ua > ub {
            return false;
        }
        proof {
            assert(a@.skip(i as int).skip(1) =~= a@.skip(i + 1));
            assert(b@.skip(i as int).skip(1) =~= b@.skip(i + 1));
        }
        i = i + 1;
    }
}

/// The pieces joined with the separator between consecutive pieces: the
/// shape of a link list and of a title built from command words.
pub open spec fn join_with(items: Seq<Seq<char>>, sep: Seq<char>) -> Seq<char>
    decreases items.len(),
{
    if items.len() == 0 {
        Seq::empty()
    } else if items.len() == 1 {
        items[0]
    } else {
        items[0] + sep + join_with(items.skip(1), sep)
    }
}

/// Joining one more piece appends a separator and the piece, except onto
/// an empty join.
pub proof fn lemma_join_with_snoc(items: Seq<Seq<char>>, sep: Seq<char>, x: Seq<char>)
    ensures
        join_with(items.push(x), sep) == if items.len() == 0 {
            x
        } else {
            join_with(items, sep) + sep + x
        },
    decreases items.len(),
{
    let s = items.push(x);
    if items.len() == 0 {
        assert(s.len() == 1);
        assert(s[0] == x);
    } else {
        assert(s.skip(1) =~= items.skip(1).push(x));
        lemma_join_with_snoc(items.skip(1), sep, x);
        assert(join_with(s, sep) =~= join_with(items, sep) + sep + x);
    }
}

/// The scalar value of a digit character, from which the digits order as
/// the values they stand for.
proof fn lemma_digit_scalar(d: nat)
    requires
        d < 10,
    ensures
        spec_digit(d) as u32 == 48 + d,
{
}

/// The leading digit of a positive numeral is never `'0'`.
proof fn lemma_dec_rep_leading_nonzero(n: nat)
    requires
        n >= 1,
    ensures
        dec_rep(n).len() >= 1,
        (dec_rep(n)[0] as u32) > 48,
    decreases n,
{
    if n < 10 {
        lemma_digit_scalar(n);
    } else {
        lemma_dec_rep_leading_nonzero(n / 10);
    }
}

/// Appending one character to each of two equally long sequences decides
/// their order by the old sequences, or by the new characters when the
/// old sequences are the same.
proof fn lemma_lex_le_push(a: Seq<char>, b: Seq<char>, x: char, y: char)
    requires
        a.len() == b.len(),
    ensures
        lex_le(a.push(x), b.push(y)) == if a == b {
            (x as u32) <= (y as u32)
        } else {
            lex_le(a, b)
        },
    decreases a.len(),
{
    if a.len() == 0 {
        assert(a =~= b);
        if (x as u32) == (y as u32) {
            vstd::utf8::char_u32_cast(x, x as u32);
            vstd::utf8::char_u32_cast(y, y as u32);
            assert(a.push(x).skip(1) =~= Seq::<char>::empty());
            assert(b.push(y).skip(1) =~= Seq::<char>::empty());
            assert(lex_le(Seq::<char>::empty(), Seq::<char>::empty()));
        }
    } else {
        assert(a.push(x)[0] == a[0] && b.push(y)[0] == b[0]);
        if (a[0] as u32) == (b[0] as u32) {
            vstd::utf8::char_u32_cast(a[0], a[0] as u32);
            vstd::utf8::char_u32_cast(b[0], b[0] as u32);
            assert(a.push(x).skip(1) =~= a.skip(1).push(x));
            assert(b.push(y).skip(1) =~= b.skip(1).push(y));
            lemma_lex_le_push(a.skip(1), b.skip(1), x, y);
            if a.skip(1) == b.skip(1) {
                assert forall|i: int| 0 <= i < a.len() implies a[i] == b[i] by {
                    if i > 0 {
                        assert(a.skip(1)[i - 1] == b.skip(1)[i - 1]);
                    }
                }
                assert(a =~= b);
            } else {
                assert(a != b) by {
                    if a == b {
                        assert(a.skip(1) =~= b.skip(1));
                    }
                }
            }
        } else {
            assert(a != b) by {
                if a == b {
                    assert(a[0] == b[0]);
                }
            }
        }
    }
}

/// A shared prefix decides nothing: order and equality of the suffixes
/// carry over.
proof fn lemma_lex_le_prefix(c: Seq<char>, a: Seq<char>, b: Seq<char>)
    ensures
        lex_le(c + a, c + b) == lex_le(a, b),
        (c + a == c + b) == (a == b),
    decreases c.len(),
{
    if c.len() == 0 {
        assert(c + a =~= a);
        assert(c + b =~= b);
    } else {
        assert((c + a)[0] == c[0] && (c + b)[0] == c[0]);
        assert((c + a).skip(1) =~= c.skip(1) + a);
        assert((c + b).skip(1) =~= c.skip(1) + b);
        lemma_lex_le_prefix(c.skip(1), a, b);
        if c.skip(1) + a == c.skip(1) + b {
            assert(c + a =~= (c + a).take(1) + (c + a).skip(1));
            assert(c + b =~= (c + b).take(1) + (c + b).skip(1));
            assert((c + a).take(1) =~= (c + b).take(1));
        } else {
            assert((c + a) != (c + b)) by {
                if c + a == c + b {
                    assert((c + a).skip(1) =~= (c + b).skip(1));
                }
            }
        }
    }
}

/// A numeral never shrinks as its value grows.
proof fn lemma_dec_rep_len_monotone(m: nat, n: nat)
    requires
        m <= n,
    ensures
        dec_rep(m).len() <= dec_rep(n).len(),
    decreases n,
{
    if m >= 10 {
        vstd::arithmetic::div_mod::lemma_div_is_ordered(m as int, n as int, 10);
        lemma_dec_rep_len_monotone(m / 10, n / 10);
    }
}

/// Of two equally long numerals, the smaller value's comes strictly
/// earlier in lexicographic order.
proof fn lemma_dec_rep_order_same_len(m: nat, n: nat)
    requires
        m < n,
        dec_rep(m).len() == dec_rep(n).len(),
    ensures
        lex_le(dec_rep(m), dec_rep(n)),
        dec_rep(m) != dec_rep(n),
    decreases n,
{
    if n < 10 {
        lemma_digit_scalar(m);
        lemma_digit_scalar(n);
        assert(lex_le(dec_rep(m), dec_rep(n)));
        assert(dec_rep(m)[0] != dec_rep(n)[0]) by {
            vstd::utf8::char_u32_cast(spec_digit(m), spec_digit(m) as u32);
            vstd::utf8::char_u32_cast(spec_digit(n), spec_digit(n) as u32);
        }
    } else {
        assert(m >= 10) by {
            if m < 10 {
                lemma_dec_rep_len(m);
                lemma_dec_rep_len(n);
                assert(dec_rep(n).len() >= 2) by {
                    assert(dec_rep(n) == dec_rep(n / 10).push(spec_digit(n % 10)));
                    lemma_dec_rep_leading_nonzero(n / 10);
                }
            }
        }
        vstd::arithmetic::div_mod::lemma_div_is_ordered(m as int, n as int, 10);
        lemma_digit_scalar(m % 10);
        lemma_digit_scalar(n % 10);
        lemma_lex_le_push(dec_rep(m / 10), dec_rep(n / 10), spec_digit(m % 10), spec_digit(n % 10));
        if m / 10 == n / 10 {
            assert(m % 10 < n % 10);
            assert(dec_rep(m) != dec_rep(n)) by {
                assert(dec_rep(m).last() == spec_digit(m % 10));
                assert(dec_rep(n).last() == spec_digit(n % 10));
                vstd::utf8::char_u32_cast(spec_digit(m % 10), spec_digit(m % 10) as u32);
                vstd::utf8::char_u32_cast(spec_digit(n % 10), spec_digit(n % 10) as u32);
            }
        } else {
            lemma_dec_rep_order_same_len(m / 10, n / 10);
            assert(dec_rep(m) != dec_rep(n)) by {
                if dec_rep(m) == dec_rep(n) {
                    assert(dec_rep(m / 10) =~= dec_rep(m).take(dec_rep(m).len() - 1));
                    assert(dec_rep(n / 10) =~= dec_rep(n).take(dec_rep(n).len() - 1));
                }
            }
        }
    }
}

/// Once two equally long sequences differ, whatever is appended after
/// them leaves their order, and their difference, in place.
pub proof fn lemma_lex_le_append_after_diff(a: Seq<char>, b: Seq<char>, ra: Seq<char>, rb: Seq<char>)
    requires
        a.len() == b.len(),
        a != b,
        lex_le(a, b),
    ensures
        lex_le(a + ra, b + rb),
        a + ra != b + rb,
    decreases a.len(),
{
    assert(a.len() > 0) by {
        if a.len() == 0 {
            assert(a =~= b);
        }
    }
    assert((a + ra)[0] == a[0] && (b + rb)[0] == b[0]);
    if (a[0] as u32) < (b[0] as u32) {
        assert(a + ra != b + rb) by {
            if a + ra == b + rb {
                assert(a[0] == b[0]);
            }
        }
    } else {
        assert((a[0] as u32) == (b[0] as u32));
        vstd::utf8::char_u32_cast(a[0], a[0] as u32);
        vstd::utf8::char_u32_cast(b[0], b[0] as u32);
        assert(a.skip(1) != b.skip(1)) by {
            if a.skip(1) == b.skip(1) {
                assert forall|i: int| 0 <= i < a.len() implies a[i] == b[i] by {
                    if i > 0 {
                        assert(a.skip(1)[i - 1] == b.skip(1)[i - 1]);
                    }
                }
                assert(a =~= b);
            }
        }
        assert((a + ra).skip(1) =~= a.skip(1) + ra);
        assert((b + rb).skip(1) =~= b.skip(1) + rb);
        lemma_lex_le_append_after_diff(a.skip(1), b.skip(1), ra, rb);
        assert(a + ra != b + rb) by {
            if a + ra == b + rb {
                assert((a + ra).skip(1) =~= (b + rb).skip(1));
            }
        }
    }
}

/// A numeral padded to five places is exactly five characters long as
/// long as its value stays below one hundred thousand.
pub proof fn lemma_padded_len(n: nat)
    requires
        n < 100000,
    ensures
        padded_dec(n, 5).len() == 5,
{
    lemma_dec_rep_len(n);
}

/// Zero padding makes lexicographic order numeric: below one hundred
/// thousand, a smaller sequence number's padded numeral comes strictly
/// earlier, so records list in the order they were numbered.
pub proof fn lemma_padded_order_is_numeric(m: nat, n: nat)
    requires
        m < n < 100000,
    ensures
        lex_le(padded_dec(m, 5), padded_dec(n, 5)),
        padded_dec(m, 5) != padded_dec(n, 5),
{
    lemma_dec_rep_len(m);
    lemma_dec_rep_len(n);
    let dm = dec_rep(m);
    let dn = dec_rep(n);
    lemma_dec_rep_len_monotone(m, n);
    if dm.len() == dn.len() {
        lemma_dec_rep_order_same_len(m, n);
        if dm.len() >= 5 {
            assert(padded_dec(m, 5) == dm && padded_dec(n, 5) == dn);
        } else {
            let z = zeroes((5 - dm.len()) as nat);
            assert(padded_dec(m, 5) == z + dm && padded_dec(n, 5) == z + dn);
            lemma_lex_le_prefix(z, dm, dn);
        }
    } else {
        let z = zeroes((5 - dn.len()) as nat);
        let inner = zeroes((dn.len() - dm.len()) as nat) + dm;
        assert(padded_dec(m, 5) =~= z + inner);
        assert(padded_dec(n, 5) == z + dn);
        lemma_lex_le_prefix(z, inner, dn);
        lemma_dec_rep_leading_nonzero(n);
        assert(inner[0] == '0');
        assert((inner[0] as u32) < (dn[0] as u32));
        assert(lex_le(inner, dn));
        assert(inner != dn) by {
            if inner == dn {
                assert(inner[0] == dn[0]);
            }
        }
    }
}

/// Lexicographic order is reflexive.
pub proof fn lemma_lex_le_refl(a: Seq<char>)
    ensures
        lex_le(a, a),
    decreases a.len(),
{
    if a.len() > 0 {
        lemma_lex_le_refl(a.skip(1));
    }
}

/// Any two character sequences are comparable.
pub proof fn lemma_lex_le_total(a: Seq<char>, b: Seq<char>)
    ensures
        lex_le(a, b) || lex_le(b, a),
    decreases a.len(),
{
    if a.len() > 0 && b.len() > 0 && (a[0] as u32) == (b[0] as u32) {
        lemma_lex_le_total(a.skip(1), b.skip(1));
    }
}

/// Two sequences each no later than the other are equal.
pub proof fn lemma_lex_le_antisym(a: Seq<char>, b: Seq<char>)
    requires
        lex_le(a, b),
        lex_le(b, a),
    ensures
        a == b,
    decreases a.len(),
{
    if a.len() == 0 {
        assert(a =~= b);
    } else {
        assert((a[0] as u32) == (b[0] as u32));
        vstd::utf8::char_u32_cast(a[0], a[0] as u32);
        vstd::utf8::char_u32_cast(b[0], b[0] as u32);
        assert(a[0] == b[0]);
        lemma_lex_le_antisym(a.skip(1), b.skip(1));
        assert forall|i: int| 0 <= i < a.len() implies a[i] == b[i] by {
            if i > 0 {
                assert(a.skip(1)[i - 1] == b.skip(1)[i - 1]);
            }
        }
        assert(a =~= b);
    }
}

/// Lexicographic order is transitive.
pub proof fn lemma_lex_le_trans(a: Seq<char>, b: Seq<char>, c: Seq<char>)
    requires
        lex_le(a, b),
        lex_le(b, c),
    ensures
        lex_le(a, c),
    decreases a.len(),
{
    if a.len() > 0 {
        if (a[0] as u32) == (b[0] as u32) && (b[0] as u32) == (c[0] as u32) {
            lemma_lex_le_trans(a.skip(1), b.skip(1), c.skip(1));
        }
    }
}

} // verus!
