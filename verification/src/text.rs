//! Number formatting for diagnostic and canonical text.

use vstd::prelude::*;
use vstd::string::*;

verus! {

/// The character of a digit, `a` to `f` above nine.
pub open spec fn digit_char(d: int) -> char {
    if d < 10 {
        (48 + d) as char
    } else {
        (87 + d) as char
    }
}

/// A number in decimal, without leading zeros.
pub open spec fn decimal(n: nat) -> Seq<char>
    decreases n,
{
    if n < 10 {
        seq![digit_char(n as int)]
    } else {
        decimal(n / 10).push(digit_char((n % 10) as int))
    }
}

/// A number in decimal with at least two digits.
pub open spec fn decimal2(n: nat) -> Seq<char> {
    if n < 10 {
        "0"@ + decimal(n)
    } else {
        decimal(n)
    }
}

/// The last `width` hexadecimal digits of a number, leading zeros included.
pub open spec fn hex_digits(n: nat, width: nat) -> Seq<char>
    decreases width,
{
    if width == 0 {
        Seq::empty()
    } else {
        hex_digits(n / 16, (width - 1) as nat).push(digit_char((n % 16) as int))
    }
}

/// The decimal digits of a number are not empty, and each is one of ten
/// characters.
pub proof fn lemma_decimal_digits(n: nat)
    ensures
        decimal(n).len() > 0,
        forall|i: int| 0 <= i < decimal(n).len() ==> '0' <= #[trigger] decimal(n)[i] <= '9',
    decreases n,
{
    if n >= 10 {
        lemma_decimal_digits(n / 10);
    }
}

proof fn lemma_digit_char(x: int, y: int)
    requires
        0 <= x < 16,
        0 <= y < 16,
        digit_char(x) == digit_char(y),
    ensures
        x == y,
{
    assert(digit_char(x) as int == if x < 10 { 48 + x } else { 87 + x });
    assert(digit_char(y) as int == if y < 10 { 48 + y } else { 87 + y });
}

/// Numbers with the same decimal digits are the same.
pub proof fn lemma_decimal_tells_apart(a: nat, b: nat)
    requires
        decimal(a) == decimal(b),
    ensures
        a == b,
    decreases a,
{
    assert(decimal(a).last() == digit_char((a % 10) as int));
    assert(decimal(b).last() == digit_char((b % 10) as int));
    lemma_digit_char((a % 10) as int, (b % 10) as int);
    if a >= 10 {
        lemma_decimal_digits(a / 10);
        assert(decimal(a).drop_last() =~= decimal(a / 10));
    }
    if b >= 10 {
        lemma_decimal_digits(b / 10);
        assert(decimal(b).drop_last() =~= decimal(b / 10));
    }
    if a >= 10 && b >= 10 {
        lemma_decimal_tells_apart(a / 10, b / 10);
    }
}

/// Where a number in decimal is followed by something that is no digit, both
/// can be told from the text.
pub proof fn lemma_decimal_ends(a: nat, rest_a: Seq<char>, b: nat, rest_b: Seq<char>)
    requires
        decimal(a) + rest_a == decimal(b) + rest_b,
        rest_a.len() > 0 ==> rest_a[0] == ';',
        rest_b.len() > 0 ==> rest_b[0] == ';',
    ensures
        a == b,
        rest_a == rest_b,
{
    let (x, y) = (decimal(a), decimal(b));
    let (s, t) = (x + rest_a, y + rest_b);
    lemma_decimal_digits(a);
    lemma_decimal_digits(b);
    if x.len() < y.len() {
        assert(s[x.len() as int] == rest_a[0]);
        assert(t[x.len() as int] == y[x.len() as int]);
    }
    if y.len() < x.len() {
        assert(t[y.len() as int] == rest_b[0]);
        assert(s[y.len() as int] == x[y.len() as int]);
    }
    assert(x =~= s.subrange(0, x.len() as int));
    assert(y =~= t.subrange(0, y.len() as int));
    assert(rest_a =~= s.subrange(x.len() as int, s.len() as int));
    assert(rest_b =~= t.subrange(y.len() as int, t.len() as int));
    lemma_decimal_tells_apart(a, b);
}

/// A number has at most so many hexadecimal digits.
pub open spec fn fits_hex(n: nat, width: nat) -> bool
    decreases width,
{
    if width == 0 {
        n == 0
    } else {
        fits_hex(n / 16, (width - 1) as nat)
    }
}

/// Numbers with the same hexadecimal digits are the same, as far as the
/// digits suffice for them.
pub proof fn lemma_hex_tells_apart(a: nat, b: nat, width: nat)
    requires
        hex_digits(a, width) == hex_digits(b, width),
        fits_hex(a, width),
        fits_hex(b, width),
    ensures
        a == b,
    decreases width,
{
    if width > 0 {
        let w = (width - 1) as nat;
        assert(hex_digits(a, width).last() == digit_char((a % 16) as int));
        assert(hex_digits(b, width).last() == digit_char((b % 16) as int));
        lemma_digit_char((a % 16) as int, (b % 16) as int);
        assert(hex_digits(a, width).drop_last() =~= hex_digits(a / 16, w));
        assert(hex_digits(b, width).drop_last() =~= hex_digits(b / 16, w));
        lemma_hex_tells_apart(a / 16, b / 16, w);
    }
}

/// There are as many digits as asked for.
pub proof fn lemma_hex_width(n: nat, width: nat)
    ensures
        hex_digits(n, width).len() == width,
    decreases width,
{
    if width > 0 {
        lemma_hex_width(n / 16, (width - 1) as nat);
    }
}

/// A truth value in words.
pub open spec fn bool_text(b: bool) -> Seq<char> {
    if b { "true"@ } else { "false"@ }
}

/// The text of one digit.
fn digit_str(d: u64) -> (res: &'static str)
    requires
        d < 16,
    ensures
        res@ == seq![digit_char(d as int)],
{
    proof {
        reveal_strlit("0");
        reveal_strlit("1");
        reveal_strlit("2");
        reveal_strlit("3");
        reveal_strlit("4");
        reveal_strlit("5");
        reveal_strlit("6");
        reveal_strlit("7");
        reveal_strlit("8");
        reveal_strlit("9");
        reveal_strlit("a");
        reveal_strlit("b");
        reveal_strlit("c");
        reveal_strlit("d");
        reveal_strlit("e");
        reveal_strlit("f");
    }
    let res: &'static str = match d {
        0 => "0",
        1 => "1",
        2 => "2",
        3 => "3",
        4 => "4",
        5 => "5",
        6 => "6",
        7 => "7",
        8 => "8",
        9 => "9",
        10 => "a",
        11 => "b",
        12 => "c",
        13 => "d",
        14 => "e",
        _ => "f",
    };
    assert(res@ =~= seq![digit_char(d as int)]);
    res
}

/// Appends a literal.
pub fn put(s: &mut String, lit: &str)
    ensures
        final(s)@ == old(s)@ + lit@,
{
    s.append(lit);
}

/// Appends a number in decimal.
pub fn put_decimal(s: &mut String, n: u64)
    ensures
        final(s)@ == old(s)@ + decimal(n as nat),
    decreases n,
{
    if n >= 10 {
        put_decimal(s, n / 10);
    }
    s.append(digit_str(n % 10));
    proof {
        if n >= 10 {
            assert(s@ =~= old(s)@ + decimal(n as nat));
        }
    }
}

/// Appends a number in decimal with at least two digits.
pub fn put_decimal2(s: &mut String, n: u64)
    ensures
        final(s)@ == old(s)@ + decimal2(n as nat),
{
    if n < 10 {
        s.append("0");
    }
    put_decimal(s, n);
    proof {
        assert(s@ =~= old(s)@ + decimal2(n as nat));
    }
}

/// Appends the last `width` hexadecimal digits of a number.
pub fn put_hex(s: &mut String, n: u64, width: u32)
    ensures
        final(s)@ == old(s)@ + hex_digits(n as nat, width as nat),
    decreases width,
{
    if width > 0 {
        put_hex(s, n / 16, width - 1);
        s.append(digit_str(n % 16));
    }
    proof {
        assert(s@ =~= old(s)@ + hex_digits(n as nat, width as nat));
    }
}

/// Appends a truth value in words.
pub fn put_bool(s: &mut String, b: bool)
    ensures
        final(s)@ == old(s)@ + bool_text(b),
{
    if b {
        s.append("true");
    } else {
        s.append("false");
    }
}

/// The characters of a text.
pub fn to_chars(s: &str) -> (res: Vec<char>)
    ensures
        res@ == s@,
{
    let n: usize = s.unicode_len();
    let mut out: Vec<char> = Vec::new();
    let mut i: usize = 0;
    while i < n
        invariant
            i <= n,
            n == s@.len(),
            out@ == s@.subrange(0, i as int),
        decreases n - i,
    {
        out.push(s.get_char(i));
        proof {
            assert(out@ =~= s@.subrange(0, i + 1));
        }
        i += 1;
    }
    proof {
        assert(out@ =~= s@);
    }
    out
}

/// A character in lower case, as far as it is an ASCII letter.
pub open spec fn lower(c: char) -> char {
    if 'A' <= c <= 'Z' {
        (c as u32 + 32) as char
    } else {
        c
    }
}

/// Two texts that differ at most in the case of ASCII letters.
pub open spec fn same_but_case(a: Seq<char>, b: Seq<char>) -> bool {
    a.len() == b.len() && forall|i: int|
        0 <= i < a.len() ==> lower(#[trigger] a[i]) == lower(b[i])
}

fn lower_char(c: char) -> (res: char)
    ensures
        res == lower(c),
{
    if 'A' <= c && c <= 'Z' {
        ((c as u8) + 32) as char
    } else {
        c
    }
}

/// Whether two texts differ at most in the case of ASCII letters.
pub fn eq_ignore_ascii_case(a: &str, b: &str) -> (res: bool)
    ensures
        res == same_but_case(a@, b@),
{
    let n: usize = a.unicode_len();
    if n != b.unicode_len() {
        return false;
    }
    let mut i: usize = 0;
    while i < n
        invariant
            i <= n,
            n == a@.len(),
            n == b@.len(),
            forall|k: int| 0 <= k < i ==> lower(#[trigger] a@[k]) == lower(b@[k]),
        decreases n - i,
    {
        if lower_char(a.get_char(i)) != lower_char(b.get_char(i)) {
            return false;
        }
        i += 1;
    }
    true
}

/// Value of a digit; sixteen stands for none.
pub open spec fn digit_value(c: char) -> int {
    if '0' <= c <= '9' {
        c as int - 48
    } else if 'a' <= c <= 'f' {
        c as int - 87
    } else if 'A' <= c <= 'F' {
        c as int - 55
    } else {
        16
    }
}

/// Only digits of a radix.
pub open spec fn all_digits(s: Seq<char>, radix: int) -> bool {
    forall|i: int| 0 <= i < s.len() ==> digit_value(#[trigger] s[i]) < radix
}

/// The number that digits write.
pub open spec fn number(s: Seq<char>, radix: int) -> int
    decreases s.len(),
{
    if s.len() == 0 {
        0
    } else {
        number(s.drop_last(), radix) * radix + digit_value(s.last())
    }
}

/// A text without one leading plus sign.
pub open spec fn unsigned(s: Seq<char>) -> Seq<char> {
    if s.len() > 0 && s[0] == '+' {
        s.subrange(1, s.len() as int)
    } else {
        s
    }
}

/// The number that a text writes, if it is one of at most `max`: an optional
/// plus sign and at least one digit, nothing else.
pub open spec fn parsed(s: Seq<char>, radix: int, max: int) -> Option<int> {
    let t = unsigned(s);
    if t.len() > 0 && all_digits(t, radix) && number(t, radix) <= max {
        Some(number(t, radix))
    } else {
        None
    }
}

proof fn lemma_number_grows(s: Seq<char>, i: int, radix: int)
    requires
        0 <= i <= s.len(),
        2 <= radix <= 16,
        all_digits(s, radix),
    ensures
        0 <= number(s.subrange(0, i), radix) <= number(s, radix),
    decreases s.len(),
{
    if i == s.len() {
        assert(s.subrange(0, i) =~= s);
        if s.len() > 0 {
            lemma_number_grows(s.drop_last(), s.len() - 1, radix);
            assert(s.drop_last().subrange(0, s.len() - 1) =~= s.drop_last());
            let m = number(s.drop_last(), radix);
            assert(m * radix >= 0) by (nonlinear_arith)
                requires
                    m >= 0,
                    radix >= 2,
            ;
        }
    } else {
        lemma_number_grows(s.drop_last(), i, radix);
        assert(s.drop_last().subrange(0, i) =~= s.subrange(0, i));
        let m = number(s.drop_last(), radix);
        assert(m * radix >= m) by (nonlinear_arith)
            requires
                m >= 0,
                radix >= 2,
        ;
        assert(digit_value(s.last()) >= 0);
    }
}

fn digit_of(c: char) -> (res: u64)
    ensures
        res == digit_value(c),
        res <= 16,
{
    if '0' <= c && c <= '9' {
        (c as u64) - 48
    } else if 'a' <= c && c <= 'f' {
        (c as u64) - 87
    } else if 'A' <= c && c <= 'F' {
        (c as u64) - 55
    } else {
        16
    }
}

/// The number that part of a text writes, if it is one of at most `max`.
pub fn parse_number(v: &Vec<char>, from: usize, to: usize, radix: u64, max: u64) -> (res: Option<u64>)
    requires
        from <= to <= v@.len(),
        2 <= radix <= 16,
    ensures
        match res {
            Some(n) => parsed(v@.subrange(from as int, to as int), radix as int, max as int)
                == Some(n as int),
            None => parsed(v@.subrange(from as int, to as int), radix as int, max as int) is None,
        },
{
    let ghost s = v@.subrange(from as int, to as int);
    let start: usize = if from < to && v[from] == '+' {
        from + 1
    } else {
        from
    };
    let ghost t = unsigned(s);
    proof {
        assert(t =~= v@.subrange(start as int, to as int));
    }
    if start >= to {
        return None;
    }
    let mut acc: u64 = 0;
    let mut i: usize = start;
    proof {
        assert(t.subrange(0, 0).len() == 0);
    }
    while i < to
        invariant
            from <= start <= i <= to,
            to <= v@.len(),
            t == v@.subrange(start as int, to as int),
            t == unsigned(s),
            s == v@.subrange(from as int, to as int),
            2 <= radix <= 16,
            acc == number(t.subrange(0, i - start), radix as int),
            acc <= max,
            forall|k: int| 0 <= k < i - start ==> digit_value(#[trigger] t[k]) < radix,
        decreases to - i,
    {
        let d: u64 = digit_of(v[i]);
        let ghost k = i - start;
        proof {
            assert(t[k] == v@[i as int]);
            assert(t.subrange(0, k + 1).drop_last() =~= t.subrange(0, k));
        }
        if d >= radix {
            return None;
        }
        proof {
            assert(0 <= acc * radix <= u64::MAX * 16) by (nonlinear_arith)
                requires
                    0 <= acc <= u64::MAX,
                    2 <= radix <= 16,
            ;
        }
        let wide: u128 = (acc as u128) * (radix as u128) + (d as u128);
        proof {
            assert(wide == number(t.subrange(0, k + 1), radix as int));
        }
        if wide > max as u128 {
            proof {
                if all_digits(t, radix as int) {
                    lemma_number_grows(t, k + 1, radix as int);
                }
            }
            return None;
        }
        acc = wide as u64;
        i += 1;
    }
    proof {
        assert(t.subrange(0, i - start) =~= t);
    }
    Some(acc)
}

/// A number in hexadecimal, without leading zeros.
pub open spec fn hex(n: nat) -> Seq<char>
    decreases n,
{
    if n < 16 {
        seq![digit_char(n as int)]
    } else {
        hex(n / 16).push(digit_char((n % 16) as int))
    }
}

/// Appends a number in hexadecimal, without leading zeros.
pub fn put_hex_short(s: &mut String, n: u64)
    ensures
        final(s)@ == old(s)@ + hex(n as nat),
    decreases n,
{
    if n >= 16 {
        put_hex_short(s, n / 16);
    }
    s.append(digit_str(n % 16));
    proof {
        if n >= 16 {
            assert(s@ =~= old(s)@ + hex(n as nat));
        }
    }
}

/// White space.
pub open spec fn is_space(c: char) -> bool {
    ||| 0x9 <= c as u32 <= 0xd
    ||| c as u32 == 0x20
    ||| c as u32 == 0x85
    ||| c as u32 == 0xa0
    ||| c as u32 == 0x1680
    ||| 0x2000 <= c as u32 <= 0x200a
    ||| c as u32 == 0x2028
    ||| c as u32 == 0x2029
    ||| c as u32 == 0x202f
    ||| c as u32 == 0x205f
    ||| c as u32 == 0x3000
}

fn space(c: char) -> (res: bool)
    ensures
        res == is_space(c),
{
    let x: u32 = c as u32;
    (0x9 <= x && x <= 0xd) || x == 0x20 || x == 0x85 || x == 0xa0 || x == 0x1680 || (0x2000 <= x
        && x <= 0x200a) || x == 0x2028 || x == 0x2029 || x == 0x202f || x == 0x205f || x == 0x3000
}

/// A text without its leading white space.
pub open spec fn trim_start(s: Seq<char>) -> Seq<char>
    decreases s.len(),
{
    if s.len() > 0 && is_space(s[0]) {
        trim_start(s.subrange(1, s.len() as int))
    } else {
        s
    }
}

/// A text without its trailing white space.
pub open spec fn trim_end(s: Seq<char>) -> Seq<char>
    decreases s.len(),
{
    if s.len() > 0 && is_space(s.last()) {
        trim_end(s.drop_last())
    } else {
        s
    }
}

/// A text without white space at its ends.
pub open spec fn trim(s: Seq<char>) -> Seq<char> {
    trim_end(trim_start(s))
}

/// The part of a text that is left without white space at its ends.
pub fn trim_range(v: &Vec<char>, from: usize, to: usize) -> (res: (usize, usize))
    requires
        from <= to <= v@.len(),
    ensures
        from <= res.0 <= res.1 <= to,
        v@.subrange(res.0 as int, res.1 as int) == trim(v@.subrange(from as int, to as int)),
{
    let mut a: usize = from;
    while a < to && space(v[a])
        invariant
            from <= a <= to <= v@.len(),
            trim_start(v@.subrange(a as int, to as int)) == trim_start(
                v@.subrange(from as int, to as int),
            ),
        decreases to - a,
    {
        proof {
            let s = v@.subrange(a as int, to as int);
            assert(s[0] == v@[a as int]);
            assert(s.subrange(1, s.len() as int) =~= v@.subrange(a + 1, to as int));
        }
        a += 1;
    }
    proof {
        let s = v@.subrange(a as int, to as int);
        if a < to {
            assert(s[0] == v@[a as int]);
        }
        assert(trim_start(s) == s);
    }
    let mut b: usize = to;
    while b > a && space(v[b - 1])
        invariant
            from <= a <= b <= to <= v@.len(),
            trim_end(v@.subrange(a as int, b as int)) == trim_end(
                v@.subrange(a as int, to as int),
            ),
        decreases b - a,
    {
        proof {
            let s = v@.subrange(a as int, b as int);
            assert(s.last() == v@[b - 1]);
            assert(s.drop_last() =~= v@.subrange(a as int, b - 1));
        }
        b -= 1;
    }
    proof {
        let s = v@.subrange(a as int, b as int);
        if b > a {
            assert(s.last() == v@[b - 1]);
        }
    }
    (a, b)
}

/// First place of a character in a text; the length where it has none.
pub open spec fn find(s: Seq<char>, c: char) -> int
    decreases s.len(),
{
    if s.len() == 0 || s[0] == c {
        0
    } else {
        1 + find(s.subrange(1, s.len() as int), c)
    }
}

/// What the first place is.
pub proof fn lemma_find(s: Seq<char>, c: char)
    ensures
        0 <= find(s, c) <= s.len(),
        find(s, c) < s.len() ==> s[find(s, c)] == c,
        forall|i: int| 0 <= i < find(s, c) ==> #[trigger] s[i] != c,
    decreases s.len(),
{
    if s.len() > 0 && s[0] != c {
        let t = s.subrange(1, s.len() as int);
        lemma_find(t, c);
        assert forall|i: int| 0 <= i < find(s, c) implies #[trigger] s[i] != c by {
            if i > 0 {
                assert(t[i - 1] == s[i]);
            }
        }
        if find(s, c) < s.len() {
            assert(t[find(t, c)] == s[find(s, c)]);
        }
    }
}

/// First place of a character in part of a text; its end where it has none.
pub fn find_char(v: &Vec<char>, from: usize, to: usize, c: char) -> (res: usize)
    requires
        from <= to <= v@.len(),
    ensures
        from <= res <= to,
        res - from == find(v@.subrange(from as int, to as int), c),
{
    let ghost s = v@.subrange(from as int, to as int);
    let mut i: usize = from;
    while i < to && v[i] != c
        invariant
            from <= i <= to <= v@.len(),
            s == v@.subrange(from as int, to as int),
            forall|k: int| 0 <= k < i - from ==> #[trigger] s[k] != c,
        decreases to - i,
    {
        proof {
            assert(s[i - from] == v@[i as int]);
        }
        i += 1;
    }
    proof {
        lemma_find(s, c);
        if i < to {
            assert(s[i - from] == v@[i as int]);
        }
        if find(s, c) < i - from {
            assert(s[find(s, c)] != c);
        }
        if find(s, c) > i - from {
            assert(s[i - from] != c);
        }
    }
    i
}

/// A text up to its first line end; a carriage return before the line end
/// belongs to it.
pub open spec fn first_line(s: Seq<char>) -> Seq<char> {
    let k = find(s, '\n');
    if 0 < k < s.len() && s[k - 1] == '\r' {
        s.subrange(0, k - 1)
    } else {
        s.subrange(0, k)
    }
}

/// A text after its first line end.
pub open spec fn after_line(s: Seq<char>) -> Seq<char> {
    let k = find(s, '\n');
    if k < s.len() {
        s.subrange(k + 1, s.len() as int)
    } else {
        Seq::empty()
    }
}

proof fn lemma_digit_reads_back(d: int)
    requires
        0 <= d < 16,
    ensures
        digit_value(digit_char(d)) == d,
        digit_char(d) != '+',
        !is_space(digit_char(d)),
        digit_char(d) != 'x',
{
    let c = digit_char(d);
    assert(c as int == if d < 10 {
        48 + d
    } else {
        87 + d
    });
}

/// Numbers are written in digits alone.
pub proof fn lemma_digits_read_back(n: nat, radix: nat)
    requires
        radix == 10 || radix == 16,
    ensures
        ({
            let s = if radix == 10 {
                decimal(n)
            } else {
                hex(n)
            };
            &&& s.len() > 0
            &&& all_digits(s, radix as int)
            &&& number(s, radix as int) == n
            &&& forall|i: int|
                0 <= i < s.len() ==> #[trigger] s[i] != '+' && !is_space(s[i]) && s[i] != 'x'
        }),
    decreases n,
{
    let s = if radix == 10 {
        decimal(n)
    } else {
        hex(n)
    };
    let r = radix as int;
    let last = (n % radix) as int;
    lemma_digit_reads_back(last);
    if n >= radix {
        lemma_digits_read_back(n / radix, radix);
        let front = s.drop_last();
        assert(front =~= if radix == 10 {
            decimal(n / 10)
        } else {
            hex(n / 16)
        });
        assert(s.last() == digit_char(last));
        assert forall|i: int| 0 <= i < s.len() implies digit_value(#[trigger] s[i]) < r && s[i]
            != '+' && !is_space(s[i]) && s[i] != 'x' by {
            if i < s.len() - 1 {
                assert(front[i] == s[i]);
            }
        }
        assert(number(s, r) == number(front, r) * r + last);
    } else {
        assert(s =~= seq![digit_char(n as int)]);
        assert(number(s.drop_last(), r) == 0) by {
            assert(s.drop_last().len() == 0);
        }
        assert(number(s, r) == 0 * r + n);
    }
}

/// A number written in decimal or in hexadecimal reads back as the same number,
/// with or without a plus sign, and is refused where it is too large.
pub proof fn law_numbers_read_back(n: nat, max: int)
    ensures
        n <= max ==> parsed(decimal(n), 10, max) == Some(n as int),
        n <= max ==> parsed(seq!['+'] + decimal(n), 10, max) == Some(n as int),
        n <= max ==> parsed(hex(n), 16, max) == Some(n as int),
        n > max ==> parsed(decimal(n), 10, max) is None && parsed(hex(n), 16, max) is None,
        parsed(Seq::empty(), 10, max) is None,
{
    lemma_digits_read_back(n, 10);
    lemma_digits_read_back(n, 16);
    let p = seq!['+'] + decimal(n);
    assert(p.subrange(1, p.len() as int) =~= decimal(n));
}

/// A text with a character that is no digit anywhere but in front is no number.
pub proof fn law_other_characters_are_refused(s: Seq<char>, i: int, max: int)
    requires
        0 < i < s.len(),
        !('0' <= s[i] <= '9'),
    ensures
        parsed(s, 10, max) is None,
{
    let t = unsigned(s);
    if t != s {
        assert(t[i - 1] == s[i]);
    }
}

/// Trimming takes white space off both ends, and nothing but white space.
pub proof fn law_trim_takes_white_space_off_the_ends(s: Seq<char>)
    ensures
        trim(s).len() > 0 ==> !is_space(trim(s)[0]) && !is_space(trim(s).last()),
        exists|a: int, b: int|
            0 <= a <= b <= s.len() && trim(s) == #[trigger] s.subrange(a, b) && (forall|i: int|
                0 <= i < a || b <= i < s.len() ==> is_space(#[trigger] s[i])),
        is_space(' ') && is_space('\n') && is_space('\t') && !is_space('a') && !is_space('0'),
{
    let a = lemma_trimmed_start(s);
    let t = trim_start(s);
    let b = lemma_trimmed_end(t);
    assert(trim(s) =~= s.subrange(a, a + b));
    assert forall|i: int| 0 <= i < a || a + b <= i < s.len() implies is_space(#[trigger] s[i]) by {
        if i >= a + b {
            assert(t[i - a] == s[i]);
        }
    }
    assert(trim(s) == s.subrange(a, a + b));
}

proof fn lemma_trimmed_start(s: Seq<char>) -> (a: int)
    ensures
        0 <= a <= s.len(),
        trim_start(s) == s.subrange(a, s.len() as int),
        forall|i: int| 0 <= i < a ==> is_space(#[trigger] s[i]),
        a < s.len() ==> !is_space(s[a]),
    decreases s.len(),
{
    if s.len() > 0 && is_space(s[0]) {
        let t = s.subrange(1, s.len() as int);
        let a = lemma_trimmed_start(t);
        assert(trim_start(s) =~= s.subrange(a + 1, s.len() as int));
        assert forall|i: int| 0 <= i < a + 1 implies is_space(#[trigger] s[i]) by {
            if i > 0 {
                assert(t[i - 1] == s[i]);
            }
        }
        a + 1
    } else {
        assert(s.subrange(0, s.len() as int) =~= s);
        0
    }
}

proof fn lemma_trimmed_end(s: Seq<char>) -> (b: int)
    ensures
        0 <= b <= s.len(),
        trim_end(s) == s.subrange(0, b),
        forall|i: int| b <= i < s.len() ==> is_space(#[trigger] s[i]),
        b > 0 ==> !is_space(s[b - 1]),
    decreases s.len(),
{
    if s.len() > 0 && is_space(s.last()) {
        let t = s.drop_last();
        let b = lemma_trimmed_end(t);
        assert(trim_end(s) =~= s.subrange(0, b));
        assert forall|i: int| b <= i < s.len() implies is_space(#[trigger] s[i]) by {
            if i < s.len() - 1 {
                assert(t[i] == s[i]);
            }
        }
        b
    } else {
        assert(s.subrange(0, s.len() as int) =~= s);
        s.len() as int
    }
}

/// A text is its first line, a line end and the rest; the line itself holds no
/// line end.
pub proof fn law_lines_make_up_the_text(s: Seq<char>)
    ensures
        ({
            let k = first_line(s).len() as int;
            &&& first_line(s) == s.subrange(0, k)
            &&& forall|i: int| 0 <= i < k ==> #[trigger] s[i] != '\n'
            &&& s == first_line(s) + after_line(s) || s == first_line(s) + seq!['\n'] + after_line(s)
                || s == first_line(s) + seq!['\r', '\n'] + after_line(s)
        }),
{
    lemma_find(s, '\n');
    let k = find(s, '\n');
    if k >= s.len() {
        assert(s =~= first_line(s) + after_line(s));
    } else if 0 < k && s[k - 1] == '\r' {
        assert(s =~= first_line(s) + seq!['\r', '\n'] + after_line(s));
    } else {
        assert(s =~= first_line(s) + seq!['\n'] + after_line(s));
    }
}

/// Letters of either case are the same, and other characters only themselves.
pub proof fn law_case_is_ignored(k: int, c: char, d: char)
    requires
        0 <= k < 26,
    ensures
        same_but_case(seq![(65 + k) as char], seq![(97 + k) as char]),
        same_but_case(seq![c], seq![d]) && !('A' <= c <= 'Z') && !('A' <= d <= 'Z') ==> c == d,
        same_but_case(seq![c], seq![c]),
{
    let up = seq![(65 + k) as char];
    let low = seq![(97 + k) as char];
    assert(up[0] as int == 65 + k && low[0] as int == 97 + k);
    assert(lower(up[0]) == lower(low[0]));
    if same_but_case(seq![c], seq![d]) {
        assert(lower(seq![c][0]) == lower(seq![d][0]));
    }
}

/// A text without white space at its ends is left alone, and white space after
/// it is taken off.
pub proof fn law_trimmed_text_stays(s: Seq<char>, c: char)
    requires
        s.len() > 0,
        !is_space(s[0]),
        !is_space(s.last()),
        is_space(c),
    ensures
        trim(s) == s,
        trim(s.push(c)) == s,
{
    let t = s.push(c);
    assert(t[0] == s[0]);
    assert(trim_start(t) == t);
    assert(t.drop_last() =~= s);
    assert(trim_end(s) == s);
    assert(trim_end(t) == trim_end(t.drop_last()));
}

/// A number with at least two digits is the number, and is never shorter.
pub proof fn law_two_digits_read_back(n: nat)
    ensures
        parsed(decimal2(n), 10, n as int) == Some(n as int),
        decimal2(n).len() >= 2,
{
    reveal_strlit("0");
    lemma_digits_read_back(n, 10);
    let s = decimal2(n);
    if n < 10 {
        let d = decimal(n);
        assert(d =~= seq![digit_char(n as int)]);
        assert(s =~= seq!['0', digit_char(n as int)]);
        lemma_digit_reads_back(0);
        lemma_digit_reads_back(n as int);
        assert(s.drop_last() =~= seq!['0']);
        assert(seq!['0'].drop_last() =~= Seq::<char>::empty());
        assert(digit_value('0') == 0);
        assert(number(Seq::<char>::empty(), 10) == 0);
        assert(number(seq!['0'], 10) == 0);
        assert(number(s, 10) == n);
        assert(all_digits(s, 10));
    } else {
        lemma_digits_read_back(n / 10, 10);
    }
}

/// Padded hexadecimal digits are as many as asked for, and read back as the
/// number where they suffice for it.
pub proof fn law_padded_digits_read_back(n: nat, width: nat)
    ensures
        hex_digits(n, width).len() == width,
        fits_hex(n, width) ==> number(hex_digits(n, width), 16) == n,
    decreases width,
{
    if width > 0 {
        law_padded_digits_read_back(n / 16, (width - 1) as nat);
        let s = hex_digits(n, width);
        lemma_digit_reads_back((n % 16) as int);
        assert(s.drop_last() =~= hex_digits(n / 16, (width - 1) as nat));
        assert(number(s, 16) == number(s.drop_last(), 16) * 16 + (n % 16) as int);
    }
}

} // verus!
