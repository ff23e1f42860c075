//! Reservation of L3 cache ways.
//!
//! The kernel's resource-control files name the ways that a group of
//! processes may fill, one bit per way. This module reads and rewrites their
//! texts and decides what may be reserved.

use crate::text::{
    after_line, decimal, find, find_char, first_line, hex, is_space, lemma_find, parse_number,
    parsed, put, put_decimal, put_hex_short, to_chars, trim, trim_end, trim_range, trim_start,
};
use vstd::prelude::*;

verus! {

/// What a host offers.
#[derive(Debug, Clone, Copy, PartialEq, Eq, Structural)]
pub struct CatCapability {
    /// Whether ways can be reserved.
    pub supported: bool,
    /// Groups.
    pub num_closids: u32,
    /// Ways.
    pub cbm_bits: u32,
    /// Fewest ways in a row.
    pub min_cbm_bits: u32,
    /// Caches.
    pub num_domains: u32,
}

/// Why ways cannot be reserved.
#[derive(Debug)]
pub enum CatError {
    /// The host does not offer it.
    Unsupported,
    /// The ways do not exist.
    InvalidRange {
        /// First way.
        first_way: u32,
        /// Number of ways.
        num_ways: u32,
        /// Ways of the host.
        total_ways: u32,
    },
    /// The files could not be read or written.
    Io(String),
}

impl CatError {
    /// The error in words.
    pub open spec fn words(self) -> Seq<char> {
        match self {
            CatError::Unsupported => "resctrl / L3 CAT unavailable on this host"@,
            CatError::InvalidRange { first_way, num_ways, total_ways } => "way range ["@ + decimal(
                first_way as nat,
            ) + ", "@ + decimal((first_way + num_ways) as nat) + ") exceeds "@ + decimal(
                total_ways as nat,
            ) + " L3 ways"@,
            CatError::Io(e) => "resctrl I/O: "@ + e@,
        }
    }

    /// The error in words.
    pub fn message(&self) -> (res: String)
        ensures
            res@ == self.words(),
    {
        let mut out = String::new();
        match self {
            CatError::Unsupported => {
                put(&mut out, "resctrl / L3 CAT unavailable on this host");
            },
            CatError::InvalidRange { first_way, num_ways, total_ways } => {
                put(&mut out, "way range [");
                put_decimal(&mut out, *first_way as u64);
                put(&mut out, ", ");
                put_decimal(&mut out, *first_way as u64 + *num_ways as u64);
                put(&mut out, ") exceeds ");
                put_decimal(&mut out, *total_ways as u64);
                put(&mut out, " L3 ways");
            },
            CatError::Io(e) => {
                put(&mut out, "resctrl I/O: ");
                put(&mut out, e.as_str());
            },
        }
        proof {
            assert(out@ =~= self.words());
        }
        out
    }
}

/// Bit `i` of a mask.
pub open spec fn bit(mask: u64, i: u32) -> bool {
    (mask >> i) & 1 == 1
}

/// The mask of `num_ways` ways from `first_way` on.
pub fn contiguous_mask(first_way: u32, num_ways: u32) -> (res: u64)
    requires
        num_ways == 0 || first_way < 64,
    ensures
        forall|i: u32|
            i < 64 ==> (#[trigger] bit(res, i) <==> first_way <= i && i < first_way + num_ways),
{
    if num_ways == 0 {
        proof {
            assert forall|i: u32| i < 64 implies !#[trigger] bit(0, i) by {
                assert((0u64 >> i) & 1 == 0) by (bit_vector);
            }
        }
        return 0;
    }
    if num_ways >= 64 {
        let res: u64 = u64::MAX << first_way;
        proof {
            assert forall|i: u32| i < 64 implies (#[trigger] bit(res, i) <==> first_way <= i) by {
                assert(((0xffff_ffff_ffff_ffffu64 << first_way) >> i) & 1 == 1 <==> first_way
                    <= i) by (bit_vector)
                    requires
                        first_way < 64,
                        i < 64,
                ;
            }
        }
        return res;
    }
    proof {
        assert((1u64 << num_ways) >= 1) by (bit_vector)
            requires
                num_ways < 64,
        ;
    }
    let base: u64 = (1u64 << num_ways) - 1;
    let res: u64 = base << first_way;
    proof {
        assert forall|i: u32| i < 64 implies (#[trigger] bit(res, i) <==> first_way <= i && i
            < first_way + num_ways) by {
            assert((((((1u64 << num_ways) - 1) as u64) << first_way) >> i) & 1 == 1 <==> first_way
                <= i && i < first_way + num_ways) by (bit_vector)
                requires
                    first_way < 64,
                    num_ways < 64,
                    i < 64,
            ;
        }
    }
    res
}

/// Number of ones among the lowest `n` bits.
pub open spec fn ones(mask: u64, n: int) -> int
    decreases n,
{
    if n <= 0 {
        0
    } else {
        ones(mask, n - 1) + (if bit(mask, (n - 1) as u32) {
            1int
        } else {
            0
        })
    }
}

/// Number of ways in a mask.
pub fn count_ways(mask: u64) -> (res: u32)
    ensures
        res == ones(mask, 64),
{
    let mut n: u32 = 0;
    let mut i: u32 = 0;
    while i < 64
        invariant
            i <= 64,
            n <= i,
            n == ones(mask, i as int),
        decreases 64 - i,
    {
        if (mask >> i) & 1 == 1 {
            n += 1;
        }
        i += 1;
    }
    n
}

/// A reserved range holds as many ways as were asked for, as far as they
/// exist.
pub proof fn law_mask_has_its_ways(mask: u64, first_way: u32, num_ways: u32, n: int)
    requires
        first_way + num_ways <= 64,
        0 <= n <= 64,
        forall|i: u32|
            i < 64 ==> (#[trigger] bit(mask, i) <==> first_way <= i && i < first_way + num_ways),
    ensures
        ones(mask, n) == if n <= first_way {
            0
        } else if n <= first_way + num_ways {
            n - first_way
        } else {
            num_ways as int
        },
        n == 64 ==> ones(mask, n) == num_ways,
    decreases n,
{
    if n > 0 {
        law_mask_has_its_ways(mask, first_way, num_ways, n - 1);
    }
}

/// A text without any leading `0x`.
pub open spec fn without_prefix(s: Seq<char>) -> Seq<char>
    decreases s.len(),
{
    if s.len() >= 2 && s[0] == '0' && s[1] == 'x' {
        without_prefix(s.subrange(2, s.len() as int))
    } else {
        s
    }
}

/// The mask that a text states.
pub open spec fn stated_mask(s: Seq<char>) -> Option<int> {
    parsed(without_prefix(trim(s)), 16, u64::MAX as int)
}

/// A number of 64 bits as a mathematical one.
pub open spec fn widen(x: Option<u64>) -> Option<int> {
    match x {
        Some(v) => Some(v as int),
        None => None,
    }
}

/// The mask that a text states in hexadecimal, if it does.
pub fn parse_cbm_mask_hex(s: &str) -> (res: Option<u64>)
    ensures
        widen(res) == stated_mask(s@),
{
    let v = to_chars(s);
    let (from, to) = trim_range(&v, 0, v.len());
    let ghost t = v@.subrange(from as int, to as int);
    proof {
        assert(v@.subrange(0, v@.len() as int) =~= s@);
    }
    let mut a: usize = from;
    while to - a >= 2 && v[a] == '0' && v[a + 1] == 'x'
        invariant
            from <= a <= to <= v@.len(),
            t == v@.subrange(from as int, to as int),
            without_prefix(v@.subrange(a as int, to as int)) == without_prefix(t),
        decreases to - a,
    {
        proof {
            let u = v@.subrange(a as int, to as int);
            assert(u[0] == v@[a as int]);
            assert(u[1] == v@[a + 1]);
            assert(u.subrange(2, u.len() as int) =~= v@.subrange(a + 2, to as int));
        }
        a += 2;
    }
    proof {
        let u = v@.subrange(a as int, to as int);
        if to - a >= 2 {
            assert(u[0] == v@[a as int]);
            assert(u[1] == v@[a + 1]);
        }
    }
    parse_number(&v, a, to, 16, u64::MAX)
}

/// A text that starts with the mark of the L3 line.
pub open spec fn marked(s: Seq<char>) -> bool {
    s.len() >= 3 && s[0] == 'L' && s[1] == '3' && s[2] == ':'
}

/// A line is the L3 line.
pub open spec fn l3_line(line: Seq<char>) -> bool {
    marked(trim(line))
}

/// What follows the mark on the L3 line.
pub open spec fn l3_rest(line: Seq<char>) -> Seq<char> {
    trim(line).subrange(3, trim(line).len() as int)
}

/// Number of pieces with an equals sign, between semicolons.
pub open spec fn pairs_in(s: Seq<char>) -> int
    decreases s.len(),
{
    let k = find(s, ';');
    let here: int = if find(s.subrange(0, k), '=') < k {
        1
    } else {
        0
    };
    if 0 <= k < s.len() {
        here + pairs_in(s.subrange(k + 1, s.len() as int))
    } else {
        here
    }
}

/// Number of caches on the first L3 line of a text.
pub open spec fn domains_in(s: Seq<char>) -> int
    decreases s.len(),
{
    if s.len() == 0 {
        0
    } else if l3_line(first_line(s)) {
        pairs_in(l3_rest(first_line(s)))
    } else {
        proof {
            lemma_find(s, '\n');
        }
        domains_in(after_line(s))
    }
}

fn is_marked(v: &Vec<char>, from: usize, to: usize) -> (res: bool)
    requires
        from <= to <= v@.len(),
    ensures
        res == marked(v@.subrange(from as int, to as int)),
{
    proof {
        let s = v@.subrange(from as int, to as int);
        if to - from >= 3 {
            assert(s[0] == v@[from as int]);
            assert(s[1] == v@[from + 1]);
            assert(s[2] == v@[from + 2]);
        }
    }
    to - from >= 3 && v[from] == 'L' && v[from + 1] == '3' && v[from + 2] == ':'
}

/// The ends of the first line and of its line end in part of a text.
fn line_ends(v: &Vec<char>, from: usize, to: usize) -> (res: (usize, usize))
    requires
        from < to <= v@.len(),
    ensures
        from <= res.0 <= res.1 <= to,
        res.1 > from,
        v@.subrange(from as int, res.0 as int) == first_line(v@.subrange(from as int, to as int)),
        v@.subrange(res.1 as int, to as int) == after_line(v@.subrange(from as int, to as int)),
{
    let ghost s = v@.subrange(from as int, to as int);
    let k: usize = find_char(v, from, to, '\n');
    proof {
        lemma_find(s, '\n');
    }
    if k < to {
        if k > from && v[k - 1] == '\r' {
            proof {
                assert(s[k - from - 1] == v@[k - 1]);
                assert(v@.subrange(from as int, k - 1) =~= first_line(s));
                assert(v@.subrange(k + 1, to as int) =~= after_line(s));
            }
            (k - 1, k + 1)
        } else {
            proof {
                if k > from {
                    assert(s[k - from - 1] == v@[k - 1]);
                }
                assert(v@.subrange(from as int, k as int) =~= first_line(s));
                assert(v@.subrange(k + 1, to as int) =~= after_line(s));
            }
            (k, k + 1)
        }
    } else {
        proof {
            assert(v@.subrange(from as int, k as int) =~= first_line(s));
            assert(v@.subrange(to as int, to as int) =~= after_line(s));
        }
        (k, to)
    }
}

fn count_pairs(v: &Vec<char>, from: usize, to: usize) -> (res: u64)
    requires
        from <= to <= v@.len(),
    ensures
        res == pairs_in(v@.subrange(from as int, to as int)),
        res <= to - from + 1,
{
    let ghost s = v@.subrange(from as int, to as int);
    let mut n: u64 = 0;
    let mut a: usize = from;
    loop
        invariant
            from <= a <= to <= v@.len(),
            s == v@.subrange(from as int, to as int),
            n <= a - from,
            n + pairs_in(v@.subrange(a as int, to as int)) == pairs_in(s),
        decreases to - a,
    {
        let k: usize = find_char(v, a, to, ';');
        let e: usize = find_char(v, a, k, '=');
        let ghost u = v@.subrange(a as int, to as int);
        proof {
            lemma_find(u, ';');
            assert(u.subrange(0, k - a) =~= v@.subrange(a as int, k as int));
        }
        let here: u64 = if e < k { 1 } else { 0 };
        if k >= to {
            return n + here;
        }
        proof {
            assert(u.subrange(k - a + 1, u.len() as int) =~= v@.subrange(k + 1, to as int));
        }
        n = n + here;
        a = k + 1;
    }
}

/// Number of caches on the first L3 line of a text.
pub fn count_l3_domains(schemata: &str) -> (res: u32)
    ensures
        res == domains_in(schemata@) as u32,
{
    let v = to_chars(schemata);
    let to: usize = v.len();
    let mut a: usize = 0;
    proof {
        assert(v@.subrange(0, to as int) =~= schemata@);
    }
    while a < to
        invariant
            a <= to,
            to == v@.len(),
            domains_in(v@.subrange(a as int, to as int)) == domains_in(schemata@),
        decreases to - a,
    {
        let ghost s = v@.subrange(a as int, to as int);
        let (end, next) = line_ends(&v, a, to);
        let (x, y) = trim_range(&v, a, end);
        if is_marked(&v, x, y) {
            proof {
                assert(v@.subrange(x + 3, y as int) =~= l3_rest(first_line(s)));
            }
            return #[verifier::truncate]
            (count_pairs(&v, x + 3, y) as u32);
        }
        a = next;
    }
    0
}

/// The id of a cache in a piece of the L3 line.
pub open spec fn domain_of(piece: Seq<char>) -> Seq<char> {
    trim(piece.subrange(0, find(piece, '=')))
}

/// The ids on the L3 line, one for each piece between semicolons, in order.
/// The id of a piece may be empty.
pub open spec fn ids(s: Seq<char>) -> Seq<Seq<char>>
    decreases s.len(),
{
    let k = find(s, ';');
    let here = seq![domain_of(s.subrange(0, k))];
    if 0 <= k < s.len() {
        here + ids(s.subrange(k + 1, s.len() as int))
    } else {
        here
    }
}

/// A cache with its mask.
pub open spec fn pair_text(id: Seq<char>, mask: u64) -> Seq<char> {
    id + "="@ + hex(mask as nat)
}

/// Caches with the same mask, as the L3 line lists them.
pub open spec fn listed(ids: Seq<Seq<char>>, mask: u64) -> Seq<char>
    decreases ids.len(),
{
    if ids.len() == 0 {
        Seq::empty()
    } else if ids.len() == 1 {
        pair_text(ids[0], mask)
    } else {
        listed(ids.drop_last(), mask) + ";"@ + pair_text(ids.last(), mask)
    }
}

/// A line with another mask: the L3 line with its caches listed anew, other
/// lines as they are.
pub open spec fn rewritten_line(line: Seq<char>, mask: u64) -> Seq<char> {
    if l3_line(line) {
        "L3:"@ + listed(ids(l3_rest(line)), mask) + "\n"@
    } else {
        line + "\n"@
    }
}

/// A text with another mask for every cache.
pub open spec fn rewritten(s: Seq<char>, mask: u64) -> Seq<char>
    decreases s.len(),
{
    if s.len() == 0 {
        Seq::empty()
    } else {
        proof {
            lemma_find(s, '\n');
        }
        rewritten_line(first_line(s), mask) + rewritten(after_line(s), mask)
    }
}

fn put_listed(out: &mut String, text: &str, v: &Vec<char>, from: usize, to: usize, mask: u64)
    requires
        v@ == text@,
        from <= to <= v@.len(),
    ensures
        final(out)@ == old(out)@ + listed(ids(v@.subrange(from as int, to as int)), mask),
{
    let ghost s = v@.subrange(from as int, to as int);
    let ghost start = out@;
    let ghost mut done: Seq<Seq<char>> = Seq::empty();
    let mut first: bool = true;
    let mut a: usize = from;
    proof {
        assert(done + ids(s) =~= ids(s));
        assert(out@ =~= start + listed(done, mask));
    }
    loop
        invariant
            v@ == text@,
            from <= a <= to <= v@.len(),
            s == v@.subrange(from as int, to as int),
            start == old(out)@,
            first == (done.len() == 0),
            done + ids(v@.subrange(a as int, to as int)) == ids(s),
            out@ == start + listed(done, mask),
        decreases to - a,
    {
        let ghost before = out@;
        let ghost u = v@.subrange(a as int, to as int);
        let k: usize = find_char(v, a, to, ';');
        let e: usize = find_char(v, a, k, '=');
        let ghost d = domain_of(u.subrange(0, k - a));
        proof {
            lemma_find(u, ';');
            assert(u.subrange(0, k - a) =~= v@.subrange(a as int, k as int));
            let piece = u.subrange(0, k - a);
            lemma_find(piece, '=');
            assert(piece.subrange(0, e - a) =~= v@.subrange(a as int, e as int));
        }
        let (x, y) = trim_range(v, a, e);
        if !first {
            put(out, ";");
        }
        put(out, text.substring_char(x, y));
        put(out, "=");
        put_hex_short(out, mask);
        proof {
            let more = done.push(d);
            assert(more.drop_last() =~= done);
            assert(out@ =~= start + listed(more, mask));
            done = more;
        }
        first = false;
        if k >= to {
            proof {
                assert(done =~= ids(s));
            }
            return;
        }
        proof {
            let rest = u.subrange(k - a + 1, u.len() as int);
            assert(rest =~= v@.subrange(k + 1, to as int));
            assert(done + ids(rest) =~= ids(s));
        }
        a = k + 1;
    }
}

/// A text without a character.
spec fn lacks(s: Seq<char>, c: char) -> bool {
    forall|i: int| 0 <= i < s.len() ==> #[trigger] s[i] != c
}

proof fn lemma_found_at(s: Seq<char>, c: char, k: int)
    requires
        0 <= k <= s.len(),
        forall|i: int| 0 <= i < k ==> #[trigger] s[i] != c,
        k < s.len() ==> s[k] == c,
    ensures
        find(s, c) == k,
{
    lemma_find(s, c);
    if find(s, c) < k {
        assert(s[find(s, c)] != c);
    }
    if find(s, c) > k {
        assert(s[k] != c);
    }
}

proof fn lemma_trim_start_lacks(s: Seq<char>, c: char)
    requires
        lacks(s, c),
    ensures
        lacks(trim_start(s), c),
    decreases s.len(),
{
    if s.len() > 0 && is_space(s[0]) {
        let t = s.subrange(1, s.len() as int);
        assert(lacks(t, c)) by {
            assert forall|i: int| 0 <= i < t.len() implies #[trigger] t[i] != c by {
                assert(t[i] == s[i + 1]);
            }
        }
        lemma_trim_start_lacks(t, c);
    }
}

proof fn lemma_trim_end_lacks(s: Seq<char>, c: char)
    requires
        lacks(s, c),
    ensures
        lacks(trim_end(s), c),
    decreases s.len(),
{
    if s.len() > 0 && is_space(s.last()) {
        let t = s.drop_last();
        assert(lacks(t, c)) by {
            assert forall|i: int| 0 <= i < t.len() implies #[trigger] t[i] != c by {
                assert(t[i] == s[i]);
            }
        }
        lemma_trim_end_lacks(t, c);
    }
}

proof fn lemma_hex_lacks(n: nat)
    ensures
        lacks(hex(n), ';'),
        lacks(hex(n), '='),
    decreases n,
{
    if n >= 16 {
        lemma_hex_lacks(n / 16);
    }
}

/// What an id can be.
spec fn proper_id(d: Seq<char>) -> bool {
    lacks(d, ';') && lacks(d, '=') && trim(d) == d
}

proof fn lemma_ids_proper(s: Seq<char>, i: int)
    requires
        0 <= i < ids(s).len(),
    ensures
        proper_id(ids(s)[i]),
    decreases s.len(),
{
    let k = find(s, ';');
    lemma_find(s, ';');
    let piece = s.subrange(0, k);
    let e = find(piece, '=');
    lemma_find(piece, '=');
    let head = piece.subrange(0, e);
    let d = trim(head);
    if i == 0 {
        assert(lacks(head, ';')) by {
            assert forall|i: int| 0 <= i < head.len() implies #[trigger] head[i] != ';' by {
                assert(head[i] == s[i]);
            }
        }
        assert(lacks(head, '=')) by {
            assert forall|i: int| 0 <= i < head.len() implies #[trigger] head[i] != '=' by {
                assert(head[i] == piece[i]);
            }
        }
        lemma_trim_start_lacks(head, ';');
        lemma_trim_start_lacks(head, '=');
        lemma_trim_end_lacks(trim_start(head), ';');
        lemma_trim_end_lacks(trim_start(head), '=');
        lemma_trim_twice(head);
        assert(ids(s)[0] == d);
    } else {
        let rest = s.subrange(k + 1, s.len() as int);
        assert(ids(s)[i] == ids(rest)[i - 1]);
        lemma_ids_proper(rest, i - 1);
    }
}

/// A pair is one piece, with its id.
proof fn lemma_pair_id(d: Seq<char>, mask: u64)
    requires
        proper_id(d),
    ensures
        lacks(pair_text(d, mask), ';'),
        ids(pair_text(d, mask)) == seq![d],
{
    reveal_strlit("=");
    lemma_hex_lacks(mask as nat);
    let p = pair_text(d, mask);
    assert forall|i: int| 0 <= i < p.len() implies #[trigger] p[i] != ';' by {
        if i < d.len() {
            assert(p[i] == d[i]);
        } else if i > d.len() {
            assert(p[i] == hex(mask as nat)[i - d.len() - 1]);
        }
    }
    assert forall|i: int| 0 <= i < d.len() implies #[trigger] p[i] != '=' by {
        assert(p[i] == d[i]);
    }
    lemma_found_at(p, '=', d.len() as int);
    lemma_found_at(p, ';', p.len() as int);
    assert(p.subrange(0, p.len() as int) =~= p);
    assert(p.subrange(0, d.len() as int) =~= d);
    assert(domain_of(p) == d);
}

/// Another piece behind a list adds its ids.
proof fn lemma_ids_append(s: Seq<char>, p: Seq<char>)
    ensures
        ids(s + ";"@ + p) == ids(s) + ids(p),
    decreases s.len(),
{
    reveal_strlit(";");
    let all = s + ";"@ + p;
    let k = find(s, ';');
    lemma_find(s, ';');
    assert forall|i: int| 0 <= i < k implies #[trigger] all[i] != ';' by {
        assert(all[i] == s[i]);
    }
    if k < s.len() {
        assert(all[k] == s[k]);
    }
    lemma_found_at(all, ';', k);
    assert(all.subrange(0, k) =~= s.subrange(0, k));
    let rest = all.subrange(k + 1, all.len() as int);
    if k < s.len() {
        let tail = s.subrange(k + 1, s.len() as int);
        assert(rest =~= tail + ";"@ + p);
        lemma_ids_append(tail, p);
        assert(ids(all) =~= ids(s) + ids(p));
    } else {
        assert(rest =~= p);
        assert(ids(all) =~= ids(s) + ids(p));
    }
}

proof fn lemma_listed_ids(d: Seq<Seq<char>>, mask: u64)
    requires
        d.len() > 0,
        forall|i: int| 0 <= i < d.len() ==> proper_id(#[trigger] d[i]),
    ensures
        ids(listed(d, mask)) == d,
    decreases d.len(),
{
    if d.len() == 1 {
        lemma_pair_id(d[0], mask);
        assert(d =~= seq![d[0]]);
    } else {
        let front = d.drop_last();
        assert forall|i: int| 0 <= i < front.len() implies proper_id(#[trigger] front[i]) by {
            assert(front[i] == d[i]);
        }
        lemma_listed_ids(front, mask);
        lemma_pair_id(d.last(), mask);
        lemma_ids_append(listed(front, mask), pair_text(d.last(), mask));
        assert(d =~= front + seq![d.last()]);
    }
}

/// Another mask keeps the ids on the L3 line, and their order.
pub proof fn law_rewrite_keeps_domains(s: Seq<char>, mask: u64)
    ensures
        ids(listed(ids(s), mask)) == ids(s),
{
    assert forall|i: int| 0 <= i < ids(s).len() implies proper_id(#[trigger] ids(s)[i]) by {
        lemma_ids_proper(s, i);
    }
    lemma_listed_ids(ids(s), mask);
}

/// A line that is no L3 line passes through unchanged.
pub proof fn law_other_lines_pass_through(line: Seq<char>, mask: u64)
    requires
        !l3_line(line),
    ensures
        rewritten_line(line, mask) == line + "\n"@,
{
}

/// A text with another mask for every cache on its L3 lines. Other lines pass
/// through unchanged.
pub fn rewrite_l3_schemata(schemata: &str, mask: u64) -> (res: String)
    ensures
        res@ == rewritten(schemata@, mask),
{
    let v = to_chars(schemata);
    let to: usize = v.len();
    let mut out = String::new();
    let mut a: usize = 0;
    proof {
        assert(v@.subrange(0, to as int) =~= schemata@);
        assert(out@ + rewritten(schemata@, mask) =~= rewritten(schemata@, mask));
    }
    while a < to
        invariant
            v@ == schemata@,
            a <= to,
            to == v@.len(),
            out@ + rewritten(v@.subrange(a as int, to as int), mask) == rewritten(schemata@, mask),
        decreases to - a,
    {
        let ghost before = out@;
        let ghost s = v@.subrange(a as int, to as int);
        let (end, next) = line_ends(&v, a, to);
        let (x, y) = trim_range(&v, a, end);
        if is_marked(&v, x, y) {
            put(&mut out, "L3:");
            proof {
                assert(v@.subrange(x + 3, y as int) =~= l3_rest(first_line(s)));
            }
            put_listed(&mut out, schemata, &v, x + 3, y, mask);
            put(&mut out, "\n");
        } else {
            put(&mut out, schemata.substring_char(a, end));
            put(&mut out, "\n");
        }
        proof {
            assert(out@ =~= before + rewritten_line(first_line(s), mask));
            assert(out@ + rewritten(after_line(s), mask) =~= before + rewritten(s, mask));
        }
        a = next;
    }
    proof {
        assert(v@.subrange(a as int, to as int).len() == 0);
        assert(out@ =~= rewritten(schemata@, mask));
    }
    out
}

/// What the resource-control files of a host say.
#[derive(Debug)]
pub struct ResctrlFiles {
    /// Whether there is an L3 directory.
    pub present: bool,
    /// Mask of all ways.
    pub cbm_mask: Option<String>,
    /// Groups.
    pub num_closids: Option<String>,
    /// Fewest ways in a row.
    pub min_cbm_bits: Option<String>,
    /// Current masks.
    pub schemata: Option<String>,
}

/// The small number that a file states; zero where it states none.
pub open spec fn stated_u32(text: Option<String>) -> int {
    match text {
        Some(s) => match parsed(trim(s@), 10, u32::MAX as int) {
            Some(n) => n,
            None => 0,
        },
        None => 0,
    }
}

/// Ways that the mask file states.
pub open spec fn stated_ways(text: Option<String>) -> int {
    match text {
        Some(s) => match stated_mask(trim(s@)) {
            Some(m) => ones(m as u64, 64),
            None => 0,
        },
        None => 0,
    }
}

/// Caches that the current masks name.
pub open spec fn stated_domains(text: Option<String>) -> int {
    match text {
        Some(s) => domains_in(s@),
        None => 0,
    }
}

fn read_u32(text: &Option<String>) -> (res: u32)
    ensures
        res == stated_u32(*text),
{
    match text {
        Some(s) => {
            let v = to_chars(s.as_str());
            let (a, b) = trim_range(&v, 0, v.len());
            proof {
                assert(v@.subrange(0, v@.len() as int) =~= s@);
            }
            match parse_number(&v, a, b, 10, u32::MAX as u64) {
                Some(n) => n as u32,
                None => 0,
            }
        },
        None => 0,
    }
}

proof fn lemma_trim_twice(s: Seq<char>)
    ensures
        trim(trim(s)) == trim(s),
{
    lemma_trim_start_fixed(s);
    let t = trim_start(s);
    lemma_trim_end_keeps_start(t);
    let u = trim_end(t);
    assert(trim_start(u) == u);
    lemma_trim_end_fixed(t);
}

proof fn lemma_trim_start_fixed(s: Seq<char>)
    ensures
        trim_start(s).len() == 0 || !is_space(trim_start(s)[0]),
    decreases s.len(),
{
    if s.len() > 0 && is_space(s[0]) {
        lemma_trim_start_fixed(s.subrange(1, s.len() as int));
    }
}

proof fn lemma_trim_end_keeps_start(s: Seq<char>)
    requires
        s.len() == 0 || !is_space(s[0]),
    ensures
        trim_end(s).len() == 0 || trim_end(s)[0] == s[0],
    decreases s.len(),
{
    if s.len() > 0 && is_space(s.last()) {
        if s.len() > 1 {
            lemma_trim_end_keeps_start(s.drop_last());
        } else {
            assert(s[0] == s.last());
        }
    }
}

proof fn lemma_trim_end_fixed(s: Seq<char>)
    ensures
        trim_end(trim_end(s)) == trim_end(s),
    decreases s.len(),
{
    if s.len() > 0 && is_space(s.last()) {
        lemma_trim_end_fixed(s.drop_last());
    }
}

impl CatCapability {
    /// What a host offers, by its resource-control files. A host without an
    /// L3 directory offers nothing; one whose mask file states no ways is not
    /// supported.
    pub fn detect(files: &ResctrlFiles) -> (res: CatCapability)
        ensures
            res == if !files.present {
                CatCapability {
                    supported: false,
                    num_closids: 0,
                    cbm_bits: 0,
                    min_cbm_bits: 0,
                    num_domains: 0,
                }
            } else {
                CatCapability {
                    supported: stated_ways(files.cbm_mask) > 0,
                    num_closids: stated_u32(files.num_closids) as u32,
                    cbm_bits: stated_ways(files.cbm_mask) as u32,
                    min_cbm_bits: crate::math::max_int(
                        stated_u32(files.min_cbm_bits),
                        1,
                    ) as u32,
                    num_domains: crate::math::max_int(
                        (stated_domains(files.schemata) as u32) as int,
                        1,
                    ) as u32,
                }
            },
    {
        if !files.present {
            return CatCapability {
                supported: false,
                num_closids: 0,
                cbm_bits: 0,
                min_cbm_bits: 0,
                num_domains: 0,
            };
        }
        let cbm_bits: u32 = match &files.cbm_mask {
            Some(s) => {
                proof {
                    lemma_trim_twice(s@);
                }
                match parse_cbm_mask_hex(s.as_str()) {
                    Some(m) => count_ways(m),
                    None => 0,
                }
            },
            None => 0,
        };
        let domains: u32 = match &files.schemata {
            Some(s) => {
                count_l3_domains(s.as_str())
            },
            None => 0,
        };
        let min_bits: u32 = read_u32(&files.min_cbm_bits);
        CatCapability {
            supported: cbm_bits > 0,
            num_closids: read_u32(&files.num_closids),
            cbm_bits,
            min_cbm_bits: if min_bits < 1 { 1 } else { min_bits },
            num_domains: if domains < 1 { 1 } else { domains },
        }
    }
}

/// A reservation: the group's directory and the mask of its ways.
#[derive(Debug)]
pub struct L3Reservation {
    /// Directory of the group.
    pub dir: String,
    /// The reserved ways.
    pub mask: u64,
}

impl L3Reservation {
    /// Decides a reservation of `num_ways` ways from `first_way` on for a
    /// group.
    pub fn reserve_ways(cap: &CatCapability, name: &str, first_way: u32, num_ways: u32) -> (res: Result<
        L3Reservation,
        CatError,
    >)
        requires
            cap.cbm_bits <= 64,
        ensures
            !cap.supported ==> (res matches Err(e) && e is Unsupported),
            cap.supported && (num_ways == 0 || first_way + num_ways > cap.cbm_bits) ==> (
            res matches Err(e) && e == (CatError::InvalidRange {
                first_way,
                num_ways,
                total_ways: cap.cbm_bits,
            })),
            cap.supported && num_ways > 0 && first_way + num_ways <= cap.cbm_bits ==> (
            res matches Ok(r) && r.dir@ == "/sys/fs/resctrl/"@ + name@ && (forall|i: u32|
                i < 64 ==> (#[trigger] bit(r.mask, i) <==> first_way <= i && i < first_way
                    + num_ways))),
    {
        if !cap.supported {
            return Err(CatError::Unsupported);
        }
        if num_ways == 0 || (first_way as u64) + (num_ways as u64) > cap.cbm_bits as u64 {
            return Err(
                CatError::InvalidRange { first_way, num_ways, total_ways: cap.cbm_bits },
            );
        }
        let mask: u64 = contiguous_mask(first_way, num_ways);
        let mut dir = String::new();
        put(&mut dir, "/sys/fs/resctrl/");
        put(&mut dir, name);
        proof {
            assert(dir@ =~= "/sys/fs/resctrl/"@ + name@);
        }
        Ok(L3Reservation { dir, mask })
    }
}

proof fn lemma_pairs_append(s: Seq<char>, p: Seq<char>)
    ensures
        pairs_in(s + ";"@ + p) == pairs_in(s) + pairs_in(p),
    decreases s.len(),
{
    reveal_strlit(";");
    let all = s + ";"@ + p;
    let k = find(s, ';');
    lemma_find(s, ';');
    assert forall|i: int| 0 <= i < k implies #[trigger] all[i] != ';' by {
        assert(all[i] == s[i]);
    }
    if k < s.len() {
        assert(all[k] == s[k]);
    }
    lemma_found_at(all, ';', k);
    assert(all.subrange(0, k) =~= s.subrange(0, k));
    let rest = all.subrange(k + 1, all.len() as int);
    if k < s.len() {
        let tail = s.subrange(k + 1, s.len() as int);
        assert(rest =~= tail + ";"@ + p);
        lemma_pairs_append(tail, p);
    } else {
        assert(rest =~= p);
    }
}

proof fn lemma_one_pair(d: Seq<char>, mask: u64)
    requires
        proper_id(d),
    ensures
        pairs_in(pair_text(d, mask)) == 1,
{
    reveal_strlit("=");
    lemma_pair_id(d, mask);
    let p = pair_text(d, mask);
    lemma_found_at(p, ';', p.len() as int);
    assert(p.subrange(0, p.len() as int) =~= p);
    assert forall|i: int| 0 <= i < d.len() implies #[trigger] p[i] != '=' by {
        assert(p[i] == d[i]);
    }
    lemma_found_at(p, '=', d.len() as int);
}

proof fn lemma_pairs_listed(d: Seq<Seq<char>>, mask: u64)
    requires
        d.len() > 0,
        forall|i: int| 0 <= i < d.len() ==> proper_id(#[trigger] d[i]),
    ensures
        pairs_in(listed(d, mask)) == d.len(),
    decreases d.len(),
{
    if d.len() == 1 {
        lemma_one_pair(d[0], mask);
    } else {
        let front = d.drop_last();
        assert forall|i: int| 0 <= i < front.len() implies proper_id(#[trigger] front[i]) by {
            assert(front[i] == d[i]);
        }
        lemma_pairs_listed(front, mask);
        lemma_one_pair(d.last(), mask);
        lemma_pairs_append(listed(front, mask), pair_text(d.last(), mask));
    }
}

/// Every cache that a rewritten line lists is counted: the count of the caches
/// on the line is the number of ids on the line that it was made from.
pub proof fn law_rewritten_caches_are_counted(s: Seq<char>, mask: u64)
    ensures
        pairs_in(listed(ids(s), mask)) == ids(s).len(),
        ids(s).len() >= 1,
{
    assert forall|i: int| 0 <= i < ids(s).len() implies proper_id(#[trigger] ids(s)[i]) by {
        lemma_ids_proper(s, i);
    }
    lemma_pairs_listed(ids(s), mask);
}

/// Each cache of a rewritten line has the new mask, in hexadecimal: the line
/// ends with it, and so does the part before each semicolon.
pub proof fn law_rewritten_masks(d: Seq<Seq<char>>, id: Seq<char>, mask: u64)
    ensures
        listed(seq![id], mask) == id + seq!['='] + hex(mask as nat),
        d.len() > 0 ==> listed(d.push(id), mask) == listed(d, mask) + seq![';'] + id + seq!['=']
            + hex(mask as nat),
{
    reveal_strlit("=");
    reveal_strlit(";");
    assert("="@ =~= seq!['=']);
    assert(";"@ =~= seq![';']);
    assert(listed(seq![id], mask) =~= id + seq!['='] + hex(mask as nat));
    if d.len() > 0 {
        assert(d.push(id).drop_last() =~= d);
        assert(listed(d.push(id), mask) =~= listed(d, mask) + seq![';'] + id + seq!['='] + hex(
            mask as nat,
        ));
    }
}

/// A mask that is written in hexadecimal reads back, with a prefix and a line
/// end or without.
pub proof fn law_masks_read_back(mask: u64)
    ensures
        stated_mask(hex(mask as nat)) == Some(mask as int),
        stated_mask((seq!['0', 'x'] + hex(mask as nat)).push('\n')) == Some(mask as int),
{
    let h = hex(mask as nat);
    crate::text::lemma_digits_read_back(mask as nat, 16);
    crate::text::law_numbers_read_back(mask as nat, u64::MAX as int);
    assert(!crate::text::is_space(h[0]) && !crate::text::is_space(h.last()));
    crate::text::law_trimmed_text_stays(h, '\n');
    let p = seq!['0', 'x'] + h;
    assert(p.last() == h.last());
    crate::text::law_trimmed_text_stays(p, '\n');
    if h.len() >= 2 {
        assert(h[1] != 'x');
    }
    assert(without_prefix(h) == h);
    assert(p.subrange(2, p.len() as int) =~= h);
    assert(without_prefix(p) == without_prefix(p.subrange(2, p.len() as int)));
}

/// Lines are taken one by one: the first L3 line is counted, lines before it
/// are skipped, and each line is rewritten for itself, in order.
pub proof fn law_lines_one_by_one(line: Seq<char>, rest: Seq<char>, mask: u64)
    requires
        forall|i: int| 0 <= i < line.len() ==> #[trigger] line[i] != '\n',
        line.len() > 0 ==> line.last() != '\r',
    ensures
        ({
            let s = line.push('\n') + rest;
            &&& l3_line(line) ==> domains_in(s) == pairs_in(l3_rest(line))
            &&& !l3_line(line) ==> domains_in(s) == domains_in(rest)
            &&& !l3_line(line) ==> rewritten(s, mask) == line.push('\n') + rewritten(rest, mask)
            &&& l3_line(line) ==> rewritten(s, mask) == seq!['L', '3', ':'] + listed(
                ids(l3_rest(line)),
                mask,
            ) + seq!['\n'] + rewritten(rest, mask)
        }),
{
    let s = line.push('\n') + rest;
    let k = line.len() as int;
    assert forall|i: int| 0 <= i < k implies #[trigger] s[i] != '\n' by {
        assert(s[i] == line[i]);
    }
    assert(s[k] == '\n');
    lemma_found_at(s, '\n', k);
    if k > 0 {
        assert(s[k - 1] == line.last());
    }
    assert(first_line(s) =~= line);
    assert(after_line(s) =~= rest);
    reveal_strlit("L3:");
    reveal_strlit("\n");
    assert("L3:"@ =~= seq!['L', '3', ':']);
    assert("\n"@ =~= seq!['\n']);
    assert(line + "\n"@ =~= line.push('\n'));
    assert(rewritten(s, mask) == rewritten_line(line, mask) + rewritten(rest, mask));
}

/// A number that a file states is the number that was written.
pub proof fn law_stated_numbers_read_back(text: String, n: u32)
    requires
        text@ == crate::text::decimal(n as nat).push('\n'),
    ensures
        stated_u32(Some(text)) == n,
        stated_u32(None) == 0,
{
    let d = crate::text::decimal(n as nat);
    crate::text::lemma_digits_read_back(n as nat, 10);
    crate::text::law_numbers_read_back(n as nat, u32::MAX as int);
    assert(!crate::text::is_space(d[0]) && !crate::text::is_space(d.last()));
    crate::text::law_trimmed_text_stays(d, '\n');
}

} // verus!
