//! Character-level helpers on strings, each stated over the string's view as a sequence of chars.

use vstd::prelude::*;

verus! {

/// The position of the first `c` in `s`, or the length of `s` where `s` holds none.
pub open spec fn first_index(s: Seq<char>, c: char) -> nat
    decreases s.len(),
{
    if s.len() == 0 {
        0
    } else if s[0] == c {
        0
    } else {
        1 + first_index(s.subrange(1, s.len() as int), c)
    }
}

/// `first_index` is at most the length, and names the first occurrence where there is one.
pub proof fn lemma_first_index(s: Seq<char>, c: char)
    ensures
        first_index(s, c) <= s.len(),
        forall|j: int| 0 <= j < first_index(s, c) ==> s[j] != c,
        first_index(s, c) < s.len() ==> s[first_index(s, c) as int] == c,
    decreases s.len(),
{
    if s.len() > 0 && s[0] != c {
        let t = s.subrange(1, s.len() as int);
        lemma_first_index(t, c);
        assert forall|j: int| 0 <= j < first_index(s, c) implies s[j] != c by {
            if j > 0 {
                assert(s[j] == t[j - 1]);
            }
        }
    }
}

/// Any position that has the properties of `first_index` is `first_index`.
pub proof fn lemma_first_index_unique(s: Seq<char>, c: char, k: int)
    requires
        0 <= k <= s.len(),
        forall|j: int| 0 <= j < k ==> s[j] != c,
        k < s.len() ==> s[k] == c,
    ensures
        first_index(s, c) == k,
    decreases s.len(),
{
    if s.len() > 0 && s[0] != c {
        let t = s.subrange(1, s.len() as int);
        assert forall|j: int| 0 <= j < k - 1 implies t[j] != c by {
            assert(t[j] == s[j + 1]);
        }
        if k - 1 < t.len() {
            assert(t[k - 1] == s[k]);
        }
        lemma_first_index_unique(t, c, k - 1);
    }
}

/// The position of the first `c` in `s` at or after `from`, or the length of `s`.
pub fn find_char(s: &str, c: char, from: usize) -> (r: usize)
    requires
        from <= s@.len(),
    ensures
        r == from + first_index(s@.subrange(from as int, s@.len() as int), c),
        from <= r <= s@.len(),
{
    let len: usize = s.unicode_len();
    let mut i: usize = from;
    while i < len
        invariant
            len == s@.len(),
            from <= i <= len,
            forall|j: int| from <= j < i ==> s@[j] != c,
        ensures
            from <= i <= len,
            forall|j: int| from <= j < i ==> s@[j] != c,
            i < len ==> s@[i as int] == c,
        decreases len - i,
    {
        if s.get_char(i) == c {
            break;
        }
        i = i + 1;
    }
    proof {
        let t = s@.subrange(from as int, s@.len() as int);
        assert forall|j: int| 0 <= j < i - from implies t[j] != c by {
            assert(t[j] == s@[from + j]);
        }
        if i - from < t.len() {
            assert(t[i - from] == s@[i as int]);
        }
        lemma_first_index_unique(t, c, i - from);
    }
    i
}


/// Whether `s` begins with the characters of `prefix`.
pub fn starts_with(s: &str, prefix: &str) -> (r: bool)
    ensures
        r == (prefix@.len() <= s@.len() && s@.subrange(0, prefix@.len() as int) == prefix@),
{
    let len: usize = prefix.unicode_len();
    if len > s.unicode_len() {
        return false;
    }
    let mut i: usize = 0;
    while i < len
        invariant
            len == prefix@.len() <= s@.len(),
            i <= len,
            forall|j: int| 0 <= j < i ==> s@[j] == prefix@[j],
        decreases len - i,
    {
        if s.get_char(i) != prefix.get_char(i) {
            assert(s@.subrange(0, len as int)[i as int] != prefix@[i as int]);
            return false;
        }
        i = i + 1;
    }
    assert(s@.subrange(0, len as int) =~= prefix@);
    true
}

/// Whether `c` is one of the characters of `s`.
pub fn contains_char(s: &str, c: char, from: usize, to: usize) -> (r: bool)
    requires
        from <= to <= s@.len(),
    ensures
        r == s@.subrange(from as int, to as int).contains(c),
{
    let mut i: usize = from;
    while i < to
        invariant
            from <= i <= to <= s@.len(),
            forall|j: int| from <= j < i ==> s@[j] != c,
        decreases to - i,
    {
        if s.get_char(i) == c {
            assert(s@.subrange(from as int, to as int)[i - from] == c);
            return true;
        }
        i = i + 1;
    }
    assert forall|j: int| 0 <= j < to - from implies s@.subrange(from as int, to as int)[j] != c by {
        assert(s@.subrange(from as int, to as int)[j] == s@[from + j]);
    }
    false
}

/// The order in which `String` compares: character by character by code point, a proper
/// prefix coming first.
pub open spec fn text_before(a: Seq<char>, b: Seq<char>) -> bool
    decreases a.len(),
{
    if a.len() == 0 {
        b.len() > 0
    } else if b.len() == 0 {
        false
    } else if a[0] != b[0] {
        (a[0] as int) < (b[0] as int)
    } else {
        text_before(a.subrange(1, a.len() as int), b.subrange(1, b.len() as int))
    }
}

/// No text comes before itself.
pub proof fn lemma_text_before_irreflexive(a: Seq<char>)
    ensures
        !text_before(a, a),
    decreases a.len(),
{
    if a.len() > 0 {
        lemma_text_before_irreflexive(a.subrange(1, a.len() as int));
    }
}

/// The order on texts is transitive.
pub proof fn lemma_text_before_transitive(a: Seq<char>, b: Seq<char>, c: Seq<char>)
    requires
        text_before(a, b),
        text_before(b, c),
    ensures
        text_before(a, c),
    decreases a.len(),
{
    if a.len() > 0 && a[0] == b[0] && b[0] == c[0] {
        lemma_text_before_transitive(
            a.subrange(1, a.len() as int),
            b.subrange(1, b.len() as int),
            c.subrange(1, c.len() as int),
        );
    }
}

/// Of two different texts, one comes before the other.
pub proof fn lemma_text_before_total(a: Seq<char>, b: Seq<char>)
    requires
        a != b,
    ensures
        text_before(a, b) || text_before(b, a),
    decreases a.len(),
{
    if a.len() > 0 && b.len() > 0 && a[0] == b[0] {
        let ta = a.subrange(1, a.len() as int);
        let tb = b.subrange(1, b.len() as int);
        if ta == tb {
            assert(a =~= seq![a[0]] + ta);
            assert(b =~= seq![b[0]] + tb);
        }
        lemma_text_before_total(ta, tb);
    } else if a.len() == 0 && b.len() == 0 {
        assert(a =~= b);
    }
}

/// Texts that agree on their first `i` characters compare as their remainders do.
proof fn lemma_text_before_skip(a: Seq<char>, b: Seq<char>, i: int)
    requires
        0 <= i <= a.len(),
        i <= b.len(),
        a.subrange(0, i) == b.subrange(0, i),
    ensures
        text_before(a, b) == text_before(
            a.subrange(i, a.len() as int),
            b.subrange(i, b.len() as int),
        ),
    decreases i,
{
    if i > 0 {
        assert(a[0] == a.subrange(0, i)[0]);
        assert(b[0] == b.subrange(0, i)[0]);
        let ta = a.subrange(1, a.len() as int);
        let tb = b.subrange(1, b.len() as int);
        assert(ta.subrange(0, i - 1) =~= a.subrange(0, i).subrange(1, i));
        assert(tb.subrange(0, i - 1) =~= b.subrange(0, i).subrange(1, i));
        lemma_text_before_skip(ta, tb, i - 1);
        assert(ta.subrange(i - 1, ta.len() as int) =~= a.subrange(i, a.len() as int));
        assert(tb.subrange(i - 1, tb.len() as int) =~= b.subrange(i, b.len() as int));
    } else {
        assert(a.subrange(0, a.len() as int) =~= a);
        assert(b.subrange(0, b.len() as int) =~= b);
    }
}

/// The outcome of comparing two values in a total order.
#[derive(Clone, Copy, Debug, PartialEq, Eq, Structural)]
pub enum Precedence {
    Before,
    Same,
    After,
}

/// Compares two texts in the order that `String` uses.
pub fn compare_text(a: &str, b: &str) -> (r: Precedence)
    ensures
        r == Precedence::Same <==> a@ == b@,
        r == Precedence::Before <==> text_before(a@, b@),
        r == Precedence::After <==> text_before(b@, a@),
{
    let alen: usize = a.unicode_len();
    let blen: usize = b.unicode_len();
    let mut i: usize = 0;
    while i < alen && i < blen
        invariant
            alen == a@.len(),
            blen == b@.len(),
            i <= alen,
            i <= blen,
            a@.subrange(0, i as int) == b@.subrange(0, i as int),
        decreases alen - i,
    {
        let ca: char = a.get_char(i);
        let cb: char = b.get_char(i);
        if ca != cb {
            proof {
                lemma_text_before_skip(a@, b@, i as int);
                lemma_text_before_skip(b@, a@, i as int);
                assert(a@.subrange(i as int, alen as int)[0] == ca);
                assert(b@.subrange(i as int, blen as int)[0] == cb);
                assert(a@[i as int] != b@[i as int]);
            }
            if (ca as u32) < (cb as u32) {
                return Precedence::Before;
            } else {
                return Precedence::After;
            }
        }
        proof {
            assert(a@.subrange(0, i + 1) =~= a@.subrange(0, i as int).push(ca));
            assert(b@.subrange(0, i + 1) =~= b@.subrange(0, i as int).push(cb));
        }
        i = i + 1;
    }
    proof {
        lemma_text_before_skip(a@, b@, i as int);
        lemma_text_before_skip(b@, a@, i as int);
        lemma_text_before_irreflexive(a@);
        if alen == blen {
            assert(a@ =~= a@.subrange(0, i as int));
            assert(b@ =~= b@.subrange(0, i as int));
        } else {
            assert(a@.len() != b@.len());
        }
    }
    if alen == blen {
        Precedence::Same
    } else if alen < blen {
        Precedence::Before
    } else {
        Precedence::After
    }
}


/// Why a text is not a decimal `u64`, as the standard library's integer parsing tells it.
#[derive(Clone, Copy, Debug, PartialEq, Eq, Structural)]
pub enum IntErrorKind {
    /// The text is empty.
    Empty,
    /// A character is not a decimal digit (or the text is a lone sign).
    InvalidDigit,
    /// The number does not fit in a `u64`.
    PosOverflow,
}

/// Whether `c` is an ASCII decimal digit.
pub open spec fn is_digit(c: char) -> bool {
    48 <= (c as int) <= 57
}

/// The value of the decimal digit `c`.
pub open spec fn digit_value(c: char) -> int {
    (c as int) - 48
}

/// The character of the decimal digit `d`.
pub open spec fn digit_char(d: nat) -> char {
    (d + 48) as char
}

/// Reads the digits of `s` from left to right onto `acc`, failing at the first character that
/// is no digit or at the first digit that takes the value past `u64::MAX`.
pub open spec fn accumulate(s: Seq<char>, acc: nat) -> Result<u64, IntErrorKind>
    decreases s.len(),
{
    if s.len() == 0 {
        Ok(acc as u64)
    } else if !is_digit(s[0]) {
        Err(IntErrorKind::InvalidDigit)
    } else if acc * 10 + digit_value(s[0]) > u64::MAX {
        Err(IntErrorKind::PosOverflow)
    } else {
        accumulate(s.subrange(1, s.len() as int), (acc * 10 + digit_value(s[0])) as nat)
    }
}

/// What `str::parse::<u64>` gives for `s`: an optional leading `+`, then one or more digits
/// whose value fits.
pub open spec fn parse_u64(s: Seq<char>) -> Result<u64, IntErrorKind> {
    if s.len() == 0 {
        Err(IntErrorKind::Empty)
    } else if s[0] == '+' {
        if s.len() == 1 {
            Err(IntErrorKind::InvalidDigit)
        } else {
            accumulate(s.subrange(1, s.len() as int), 0)
        }
    } else {
        accumulate(s, 0)
    }
}

/// Parses the characters of `s` from `from` up to `to` as a decimal `u64`.
pub fn parse_u64_in(s: &str, from: usize, to: usize) -> (r: Result<u64, IntErrorKind>)
    requires
        from <= to <= s@.len(),
    ensures
        r == parse_u64(s@.subrange(from as int, to as int)),
{
    let ghost t = s@.subrange(from as int, to as int);
    if from == to {
        return Err(IntErrorKind::Empty);
    }
    let mut i: usize = from;
    if s.get_char(from) == '+' {
        if to - from == 1 {
            return Err(IntErrorKind::InvalidDigit);
        }
        i = from + 1;
        assert(t.subrange(1, t.len() as int) =~= s@.subrange(i as int, to as int));
    } else {
        assert(t =~= s@.subrange(i as int, to as int));
    }
    let mut acc: u64 = 0;
    while i < to
        invariant
            from < i <= to <= s@.len() || (from == i < to <= s@.len()),
            t == s@.subrange(from as int, to as int),
            parse_u64(t) == accumulate(s@.subrange(i as int, to as int), acc as nat),
        decreases to - i,
    {
        let c: char = s.get_char(i);
        let ghost rest = s@.subrange(i as int, to as int);
        assert(rest[0] == c);
        assert(rest.subrange(1, rest.len() as int) =~= s@.subrange(i + 1, to as int));
        if !(c >= '0' && c <= '9') {
            return Err(IntErrorKind::InvalidDigit);
        }
        let d: u64 = ((c as u32) - ('0' as u32)) as u64;
        match acc.checked_mul(10) {
            None => {
                return Err(IntErrorKind::PosOverflow);
            },
            Some(m) => match m.checked_add(d) {
                None => {
                    return Err(IntErrorKind::PosOverflow);
                },
                Some(v) => {
                    acc = v;
                },
            },
        }
        i = i + 1;
    }
    Ok(acc)
}

/// The decimal digits of `n`, most significant first, without leading zeros.
pub open spec fn decimal(n: nat) -> Seq<char>
    decreases n,
{
    if n < 10 {
        seq![digit_char(n)]
    } else {
        decimal(n / 10) + seq![digit_char(n % 10)]
    }
}

/// The text of the single decimal digit `d`.
fn digit_text(d: u64) -> (r: &'static str)
    requires
        d < 10,
    ensures
        r@ == seq![digit_char(d as nat)],
{
    match d {
        0 => {
            proof {
                reveal_strlit("0");
            }
            "0"
        }
        1 => {
            proof {
                reveal_strlit("1");
            }
            "1"
        }
        2 => {
            proof {
                reveal_strlit("2");
            }
            "2"
        }
        3 => {
            proof {
                reveal_strlit("3");
            }
            "3"
        }
        4 => {
            proof {
                reveal_strlit("4");
            }
            "4"
        }
        5 => {
            proof {
                reveal_strlit("5");
            }
            "5"
        }
        6 => {
            proof {
                reveal_strlit("6");
            }
            "6"
        }
        7 => {
            proof {
                reveal_strlit("7");
            }
            "7"
        }
        8 => {
            proof {
                reveal_strlit("8");
            }
            "8"
        }
        _ => {
            proof {
                reveal_strlit("9");
            }
            "9"
        },
    }
}

/// Appends the decimal digits of `n` to `out`.
pub fn push_decimal(out: &mut String, n: u64)
    ensures
        final(out)@ == old(out)@ + decimal(n as nat),
    decreases n,
{
    if n >= 10 {
        push_decimal(out, n / 10);
    }
    out.append(digit_text(n % 10));
    proof {
        if n < 10 {
            assert(n % 10 == n);
        }
        assert(final(out)@ =~= old(out)@ + decimal(n as nat));
    }
}


/// The decimal digits of a number are one or more digits, and no `.` or `+` among them.
pub proof fn lemma_decimal_digits(n: nat)
    ensures
        decimal(n).len() >= 1,
        forall|i: int| 0 <= i < decimal(n).len() ==> is_digit(#[trigger] decimal(n)[i]),
    decreases n,
{
    if n >= 10 {
        lemma_decimal_digits(n / 10);
        let d = decimal(n / 10);
        assert forall|i: int| 0 <= i < decimal(n).len() implies is_digit(#[trigger] decimal(n)[i]) by {
            if i < d.len() {
                assert(decimal(n)[i] == d[i]);
            }
        }
    }
}

/// Reading `x + y` is reading `x`, then reading `y` onto what `x` gave.
pub proof fn lemma_accumulate_append(x: Seq<char>, y: Seq<char>, acc: nat)
    requires
        acc <= u64::MAX,
    ensures
        accumulate(x + y, acc) == match accumulate(x, acc) {
            Ok(v) => accumulate(y, v as nat),
            Err(e) => Err(e),
        },
    decreases x.len(),
{
    if x.len() == 0 {
        assert(x + y =~= y);
    } else {
        assert((x + y)[0] == x[0]);
        assert((x + y).subrange(1, (x + y).len() as int) =~= x.subrange(1, x.len() as int) + y);
        if is_digit(x[0]) && acc * 10 + digit_value(x[0]) <= u64::MAX {
            lemma_accumulate_append(
                x.subrange(1, x.len() as int),
                y,
                (acc * 10 + digit_value(x[0])) as nat,
            );
        }
    }
}

/// Reading the decimal digits of `n` gives `n` back.
pub proof fn lemma_parse_decimal(n: u64)
    ensures
        accumulate(decimal(n as nat), 0) == Ok::<u64, IntErrorKind>(n),
        parse_u64(decimal(n as nat)) == Ok::<u64, IntErrorKind>(n),
    decreases n,
{
    lemma_decimal_digits(n as nat);
    let d = decimal(n as nat);
    if n < 10 {
        assert(digit_value(digit_char(n as nat)) == n);
        assert(d.subrange(1, d.len() as int) =~= Seq::<char>::empty());
        assert(accumulate(d, 0) == accumulate(Seq::<char>::empty(), n as nat));
    } else {
        let q: u64 = n / 10;
        let r: u64 = n % 10;
        lemma_parse_decimal(q);
        let last = seq![digit_char(r as nat)];
        assert(d == decimal(q as nat) + last);
        lemma_accumulate_append(decimal(q as nat), last, 0);
        assert(digit_value(digit_char(r as nat)) == r);
        assert(q * 10 + r == n);
        assert(last.subrange(1, 1) =~= Seq::<char>::empty());
        assert(accumulate(last, q as nat) == accumulate(Seq::<char>::empty(), n as nat));
    }
    assert(is_digit(d[0]));
}

} // verus!
