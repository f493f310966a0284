//! Character-level helpers: decoding a string slice, splitting it into
//! fields, reading decimal numbers and comparing names.
use vstd::prelude::*;
use vstd::std_specs::iter::IteratorSpec;

verus! {

/// The fields of `s` between occurrences of `sep`, as `str::split` yields
/// them: a separator closes the last field and opens a new, empty one; any
/// other character extends the last field.
pub open spec fn split(s: Seq<char>, sep: char) -> Seq<Seq<char>>
    decreases s.len(),
{
    if s.len() == 0 {
        seq![Seq::empty()]
    } else {
        let f = split(s.drop_last(), sep);
        if s.last() == sep {
            f.push(Seq::empty())
        } else {
            f.update(f.len() - 1, f.last().push(s.last()))
        }
    }
}

pub open spec fn is_digit(c: char) -> bool {
    '0' <= c && c <= '9'
}

pub open spec fn digit_value(c: char) -> nat {
    (c as int - '0' as int) as nat
}

/// A non-empty run of decimal digits.
pub open spec fn all_digits(d: Seq<char>) -> bool {
    d.len() > 0 && forall|i: int| 0 <= i < d.len() ==> is_digit(#[trigger] d[i])
}

/// The number that the decimal digits `d` denote.
pub open spec fn decimal_value(d: Seq<char>) -> nat
    decreases d.len(),
{
    if d.len() == 0 {
        0
    } else {
        decimal_value(d.drop_last()) * 10 + digit_value(d.last())
    }
}

/// An unsigned decimal with an optional leading `+`, read without bound.
pub open spec fn parse_unsigned(s: Seq<char>) -> Option<nat> {
    let d = if s.len() > 0 && s[0] == '+' {
        s.drop_first()
    } else {
        s
    };
    if all_digits(d) {
        Some(decimal_value(d))
    } else {
        None
    }
}

/// A decimal with an optional leading `+` or `-`, read without bound.
pub open spec fn parse_signed(s: Seq<char>) -> Option<int> {
    if s.len() > 0 && s[0] == '-' {
        if all_digits(s.drop_first()) {
            Some(-decimal_value(s.drop_first()))
        } else {
            None
        }
    } else {
        match parse_unsigned(s) {
            Some(v) => Some(v as int),
            None => None,
        }
    }
}

/// The `usize` that `s` spells, or 0 where it spells none.
pub open spec fn usize_or_zero(s: Seq<char>) -> usize {
    match parse_unsigned(s) {
        Some(v) => if v <= usize::MAX {
            v as usize
        } else {
            0
        },
        None => 0,
    }
}

/// The `i64` that `s` spells, or 0 where it spells none.
pub open spec fn i64_or_zero(s: Seq<char>) -> i64 {
    match parse_signed(s) {
        Some(v) => if i64::MIN <= v <= i64::MAX {
            v as i64
        } else {
            0
        },
        None => 0,
    }
}

/// Strict lexicographic order on character sequences (the order of `str`:
/// UTF-8 keeps the order of code points).
pub open spec fn seq_less(a: Seq<char>, b: Seq<char>) -> bool
    decreases a.len(),
{
    if a.len() == 0 {
        b.len() > 0
    } else if b.len() == 0 {
        false
    } else if a[0] != b[0] {
        a[0] < b[0]
    } else {
        seq_less(a.drop_first(), b.drop_first())
    }
}

/// The characters of `s`, in order.
pub fn chars_of(s: &str) -> (r: Vec<char>)
    ensures
        r@ == s@,
{
    let mut r: Vec<char> = Vec::new();
    let mut it = s.chars();
    loop
        invariant
            it.remaining() == s@.skip(r.len() as int),
            r.len() <= s@.len(),
            r@ == s@.take(r.len() as int),
        ensures
            r@ == s@,
        decreases s@.len() - r.len(),
    {
        match it.next() {
            Some(c) => {
                r.push(c);
            },
            None => {
                break;
            },
        }
    }
    r
}

/// Splits `s` at every `sep`, as `s.split(sep)` does.
pub fn split_fields<'a>(s: &'a str, sep: char) -> (r: Vec<&'a str>)
    ensures
        r.len() >= 1,
        r.len() == split(s@, sep).len(),
        forall|k: int| 0 <= k < r.len() ==> (#[trigger] r@[k])@ == split(s@, sep)[k],
{
    let c = chars_of(s);
    let mut r: Vec<&'a str> = Vec::new();
    let mut start: usize = 0;
    let mut i: usize = 0;
    while i < c.len()
        invariant
            c@ == s@,
            start <= i <= c.len(),
            r.len() + 1 == split(s@.take(i as int), sep).len(),
            forall|k: int|
                0 <= k < r.len() ==> (#[trigger] r@[k])@ == split(s@.take(i as int), sep)[k],
            split(s@.take(i as int), sep).last() == s@.subrange(start as int, i as int),
        decreases c.len() - i,
    {
        assert(s@.take(i + 1).drop_last() =~= s@.take(i as int));
        if c[i] == sep {
            r.push(s.substring_char(start, i));
            start = i + 1;
            assert(s@.subrange(start as int, i + 1) =~= Seq::<char>::empty());
        } else {
            assert(s@.subrange(start as int, i + 1) =~= s@.subrange(start as int, i as int).push(
                c@[i as int],
            ));
        }
        i = i + 1;
    }
    assert(s@.take(i as int) =~= s@);
    r.push(s.substring_char(start, i));
    r
}

/// Whether `s` begins with `prefix`.
pub fn starts_with(s: &str, prefix: &str) -> (r: bool)
    ensures
        r == prefix@.is_prefix_of(s@),
{
    let a = chars_of(s);
    let p = chars_of(prefix);
    if p.len() > a.len() {
        return false;
    }
    let mut i: usize = 0;
    while i < p.len()
        invariant
            a@ == s@,
            p@ == prefix@,
            p.len() <= a.len(),
            i <= p.len(),
            forall|k: int| 0 <= k < i ==> p@[k] == a@[k],
        decreases p.len() - i,
    {
        if p[i] != a[i] {
            return false;
        }
        i = i + 1;
    }
    assert(prefix@ =~= s@.subrange(0, prefix@.len() as int));
    true
}

/// Whether `a` comes strictly before `b` in lexicographic order.
pub fn str_less(a: &str, b: &str) -> (r: bool)
    ensures
        r == seq_less(a@, b@),
{
    let x = chars_of(a);
    let y = chars_of(b);
    let mut i: usize = 0;
    assert(a@.skip(0) =~= a@ && b@.skip(0) =~= b@);
    while i < x.len() && i < y.len() && x[i] == y[i]
        invariant
            x@ == a@,
            y@ == b@,
            i <= x.len(),
            i <= y.len(),
            seq_less(a@, b@) == seq_less(a@.skip(i as int), b@.skip(i as int)),
        decreases x.len() - i,
    {
        assert(a@.skip(i as int).drop_first() =~= a@.skip(i + 1));
        assert(b@.skip(i as int).drop_first() =~= b@.skip(i + 1));
        i = i + 1;
    }
    if i == x.len() {
        i < y.len()
    } else if i == y.len() {
        false
    } else {
        x[i] < y[i]
    }
}

/// Reads the digits `c[from..to]` as a number no greater than `limit`.
fn digits_value(c: &Vec<char>, from: usize, to: usize, limit: u64) -> (r: Option<u64>)
    requires
        from <= to <= c.len(),
    ensures
        r == (if all_digits(c@.subrange(from as int, to as int)) && decimal_value(
            c@.subrange(from as int, to as int),
        ) <= limit {
            Some(decimal_value(c@.subrange(from as int, to as int)) as u64)
        } else {
            None::<u64>
        }),
{
    let ghost d = c@.subrange(from as int, to as int);
    if from == to {
        return None;
    }
    let mut v: u64 = 0;
    let mut i: usize = from;
    while i < to
        invariant
            d == c@.subrange(from as int, to as int),
            from <= i <= to <= c.len(),
            forall|k: int| 0 <= k < i - from ==> is_digit(#[trigger] d[k]),
            v == decimal_value(d.take(i - from)),
            v <= limit,
        decreases to - i,
    {
        let ch = c[i];
        if !('0' <= ch && ch <= '9') {
            assert(!is_digit(d[i - from]));
            return None;
        }
        let dv = ch as u32 - '0' as u32;
        assert(d.take(i - from + 1).drop_last() =~= d.take(i - from));
        if (v as u128) * 10 + (dv as u128) > limit as u128 {
            proof {
                lemma_decimal_prefix_le(d, i - from + 1);
            }
            return None;
        }
        v = v * 10 + dv as u64;
        i = i + 1;
    }
    assert(d.take(d.len() as int) =~= d);
    Some(v)
}

proof fn lemma_decimal_prefix_le(d: Seq<char>, j: int)
    requires
        0 <= j <= d.len(),
    ensures
        all_digits(d) ==> decimal_value(d.take(j)) <= decimal_value(d),
    decreases d.len(),
{
    if j == d.len() {
        assert(d.take(j) =~= d);
    } else {
        lemma_decimal_prefix_le(d.drop_last(), j);
        assert(d.drop_last().take(j) =~= d.take(j));
        if all_digits(d) {
            assert(all_digits(d.drop_last()) || d.drop_last().len() == 0);
        }
    }
}

/// Reads `s` as `usize::from_str` does, with 0 for what it rejects.
pub fn parse_usize_or_zero(s: &str) -> (r: usize)
    ensures
        r == usize_or_zero(s@),
{
    let c = chars_of(s);
    let from: usize = if c.len() > 0 && c[0] == '+' {
        1
    } else {
        0
    };
    assert(c@.subrange(from as int, c.len() as int) =~= (if s@.len() > 0 && s@[0] == '+' {
        s@.drop_first()
    } else {
        s@
    }));
    match digits_value(&c, from, c.len(), usize::MAX as u64) {
        Some(v) => v as usize,
        None => 0,
    }
}

/// Reads `s` as `i64::from_str` does, with 0 for what it rejects.
pub fn parse_i64_or_zero(s: &str) -> (r: i64)
    ensures
        r == i64_or_zero(s@),
{
    let c = chars_of(s);
    if c.len() > 0 && c[0] == '-' {
        assert(c@.subrange(1, c.len() as int) =~= s@.drop_first());
        match digits_value(&c, 1, c.len(), 0x8000_0000_0000_0000u64) {
            Some(v) => if v == 0x8000_0000_0000_0000u64 {
                i64::MIN
            } else {
                -(v as i64)
            },
            None => 0,
        }
    } else {
        let from: usize = if c.len() > 0 && c[0] == '+' {
            1
        } else {
            0
        };
        assert(c@.subrange(from as int, c.len() as int) =~= (if s@.len() > 0 && s@[0] == '+' {
            s@.drop_first()
        } else {
            s@
        }));
        match digits_value(&c, from, c.len(), i64::MAX as u64) {
            Some(v) => v as i64,
            None => 0,
        }
    }
}

} // verus!
