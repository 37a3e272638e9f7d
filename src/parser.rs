//! The text of one turn's observation: lines of integers separated by
//! single spaces.
use vstd::prelude::*;
use crate::geometry::{V2, COORD_LIMIT};
use crate::model::{Human, Zombie};
use vstd::string::StringSliceAdditionalSpecFns;

verus! {

/// The field separator, a space.
pub const SEPARATOR: u8 = 32;

/// The fields of `s` between separators, in order (`k` separators make
/// `k + 1` fields, some of them perhaps empty).
pub open spec fn split_fields(s: Seq<u8>) -> Seq<Seq<u8>>
    decreases s.len(),
{
    if s.len() == 0 {
        seq![Seq::empty()]
    } else {
        let r = split_fields(s.drop_last());
        if s.last() == SEPARATOR {
            r.push(Seq::empty())
        } else {
            r.update(r.len() - 1, r.last().push(s.last()))
        }
    }
}

proof fn lemma_split_fields_nonempty(s: Seq<u8>)
    ensures
        split_fields(s).len() >= 1,
    decreases s.len(),
{
    if s.len() > 0 {
        lemma_split_fields_nonempty(s.drop_last());
    }
}

/// Splits a line at each space.
pub fn split_line(input_line: &str) -> (r: Vec<Vec<u8>>)
    ensures
        r@.len() == split_fields(input_line.spec_bytes()).len(),
        forall|i: int| 0 <= i < r@.len() ==> (#[trigger] r@[i])@ == split_fields(input_line.spec_bytes())[i],
{
    let bytes = input_line.as_bytes();
    let ghost s = input_line.spec_bytes();
    let mut r: Vec<Vec<u8>> = Vec::new();
    let mut current: Vec<u8> = Vec::new();
    let mut i: usize = 0;
    while i < bytes.len()
        invariant
            i <= bytes@.len(),
            bytes@ == s,
            r@.len() + 1 == split_fields(s.subrange(0, i as int)).len(),
            forall|j: int| 0 <= j < r@.len() ==> (#[trigger] r@[j])@ == split_fields(s.subrange(0, i as int))[j],
            current@ == split_fields(s.subrange(0, i as int)).last(),
        decreases bytes@.len() - i,
    {
        let ghost prev = split_fields(s.subrange(0, i as int));
        proof {
            lemma_split_fields_nonempty(s.subrange(0, i as int));
            assert(s.subrange(0, i as int + 1).drop_last() =~= s.subrange(0, i as int));
        }
        let b = bytes[i];
        if b == SEPARATOR {
            let field = current;
            r.push(field);
            current = Vec::new();
            proof {
                let next = split_fields(s.subrange(0, i as int + 1));
                assert(next == prev.push(Seq::empty()));
                assert forall|j: int| 0 <= j < r@.len() implies (#[trigger] r@[j])@ == next[j] by {
                    if j < r@.len() - 1 {
                        assert(next[j] == prev[j]);
                    }
                }
                assert(current@ =~= next.last());
            }
        } else {
            current.push(b);
            proof {
                let next = split_fields(s.subrange(0, i as int + 1));
                assert(next == prev.update(prev.len() - 1, prev.last().push(b)));
                assert forall|j: int| 0 <= j < r@.len() implies (#[trigger] r@[j])@ == next[j] by {
                    assert(next[j] == prev[j]);
                }
            }
        }
        i += 1;
    }
    r.push(current);
    proof {
        assert(s.subrange(0, i as int) =~= s);
        let all = split_fields(s);
        assert forall|j: int| 0 <= j < r@.len() implies (#[trigger] r@[j])@ == all[j] by {
        }
    }
    r
}

/// Blanks that surround a number: space, tab, line feed, carriage return.
pub open spec fn is_blank(b: u8) -> bool {
    b == 32 || b == 9 || b == 10 || b == 13
}

pub open spec fn is_digit(b: u8) -> bool {
    48 <= b <= 57
}

pub open spec fn trim_start(s: Seq<u8>) -> Seq<u8>
    decreases s.len(),
{
    if s.len() > 0 && is_blank(s[0]) {
        trim_start(s.subrange(1, s.len() as int))
    } else {
        s
    }
}

pub open spec fn trim_end(s: Seq<u8>) -> Seq<u8>
    decreases s.len(),
{
    if s.len() > 0 && is_blank(s.last()) {
        trim_end(s.drop_last())
    } else {
        s
    }
}

/// The value of a string of decimal digits.
pub open spec fn digits_value(s: Seq<u8>) -> int
    decreases s.len(),
{
    if s.len() == 0 {
        0
    } else {
        digits_value(s.drop_last()) * 10 + (s.last() - 48)
    }
}

pub open spec fn all_digits(s: Seq<u8>) -> bool {
    forall|i: int| 0 <= i < s.len() ==> is_digit(#[trigger] s[i])
}

/// The most digits a number may have.
pub const MAX_DIGITS: usize = 18;

/// The integer written in `s`: blanks around it, an optional minus sign,
/// then one to `MAX_DIGITS` digits.
pub open spec fn number_value(s: Seq<u8>) -> Option<int> {
    let t = trim_end(trim_start(s));
    let negative = t.len() > 0 && t[0] == 45;
    let d = if negative {
        t.subrange(1, t.len() as int)
    } else {
        t
    };
    if 1 <= d.len() <= MAX_DIGITS && all_digits(d) {
        Some(if negative {
            -digits_value(d)
        } else {
            digits_value(d)
        })
    } else {
        None
    }
}

pub open spec fn pow10(n: nat) -> int
    decreases n,
{
    if n == 0 {
        1
    } else {
        10 * pow10((n - 1) as nat)
    }
}

/// Reads the integer written in `field`; `None` when it holds anything
/// else.
pub fn parse_number(field: &[u8]) -> (r: Option<i64>)
    ensures
        match number_value(field@) {
            Some(v) => r == Some(v as i64) && v == r->0,
            None => r is None,
        },
{
    let ghost s = field@;
    let n = field.len();
    let mut a: usize = 0;
    assert(s.subrange(0, n as int) =~= s);
    while a < n && (field[a] == 32 || field[a] == 9 || field[a] == 10 || field[a] == 13)
        invariant
            a <= n == s.len(),
            field@ == s,
            trim_start(s) == trim_start(s.subrange(a as int, n as int)),
        decreases n - a,
    {
        proof {
            let t = s.subrange(a as int, n as int);
            assert(t.subrange(1, t.len() as int) =~= s.subrange(a + 1, n as int));
        }
        a += 1;
    }
    let mut b: usize = n;
    assert(s.subrange(a as int, n as int).len() == 0 || !is_blank(s.subrange(a as int, n as int)[0]));
    assert(trim_start(s) == s.subrange(a as int, n as int));
    while b > a && (field[b - 1] == 32 || field[b - 1] == 9 || field[b - 1] == 10 || field[b - 1]
        == 13)
        invariant
            a <= b <= n == s.len(),
            field@ == s,
            trim_end(trim_start(s)) == trim_end(s.subrange(a as int, b as int)),
        decreases b - a,
    {
        proof {
            assert(s.subrange(a as int, b as int).drop_last() =~= s.subrange(a as int, b - 1));
        }
        b -= 1;
    }
    let ghost t = s.subrange(a as int, b as int);
    assert(trim_end(trim_start(s)) == t);
    let negative = b > a && field[a] == 45;
    let start = if negative {
        a + 1
    } else {
        a
    };
    let ghost d = s.subrange(start as int, b as int);
    assert(d =~= if negative {
        t.subrange(1, t.len() as int)
    } else {
        t
    });
    if b - start < 1 || b - start > MAX_DIGITS {
        return None;
    }
    proof {
        lemma_pow10_monotone(0, 18);
    }
    let mut v: i64 = 0;
    let mut i: usize = start;
    while i < b
        invariant
            start <= i <= b <= n == s.len(),
            field@ == s,
            b - start <= MAX_DIGITS,
            d == s.subrange(start as int, b as int),
            number_value(s) == if all_digits(d) {
                Some(
                    if negative {
                        -digits_value(d)
                    } else {
                        digits_value(d)
                    },
                )
            } else {
                None::<int>
            },
            all_digits(s.subrange(start as int, i as int)),
            v == digits_value(s.subrange(start as int, i as int)),
            0 <= v < pow10((i - start) as nat),
            pow10((i - start) as nat) <= pow10(18),
        decreases b - i,
    {
        let c = field[i];
        if c < 48 || c > 57 {
            proof {
                assert(d[i - start] == c);
            }
            return None;
        }
        proof {
            assert(s.subrange(start as int, i + 1).drop_last() =~= s.subrange(start as int, i as int));
            lemma_pow10_monotone((i + 1 - start) as nat, 18);
            assert(pow10(18) == 1_000_000_000_000_000_000) by {
                reveal_with_fuel(pow10, 19);
            }
            assert(v * 10 + 9 < pow10((i + 1 - start) as nat)) by (nonlinear_arith)
                requires
                    v < pow10((i - start) as nat),
                    pow10((i + 1 - start) as nat) == 10 * pow10((i - start) as nat),
            ;
            assert forall|q: int| 0 <= q < i + 1 - start implies is_digit(
                #[trigger] s.subrange(start as int, i + 1)[q],
            ) by {
                if q < i - start {
                    assert(s.subrange(start as int, i + 1)[q] == s.subrange(start as int, i as int)[q]);
                }
            }
        }
        v = v * 10 + (c - 48) as i64;
        i += 1;
    }
    proof {
        assert(s.subrange(start as int, i as int) == d);
    }
    if negative {
        Some(-v)
    } else {
        Some(v)
    }
}

proof fn lemma_pow10_monotone(a: nat, b: nat)
    requires
        a <= b,
    ensures
        1 <= pow10(a) <= pow10(b),
    decreases b,
{
    lemma_pow10_positive(a);
    if a < b {
        lemma_pow10_monotone(a, (b - 1) as nat);
    }
}

proof fn lemma_pow10_positive(n: nat)
    ensures
        1 <= pow10(n),
    decreases n,
{
    if n > 0 {
        lemma_pow10_positive((n - 1) as nat);
    }
}

/// A coordinate of the game: a number within the coordinate limit.
pub open spec fn coordinate_value(s: Seq<u8>) -> Option<i64> {
    match number_value(s) {
        Some(v) => if -COORD_LIMIT <= v <= COORD_LIMIT {
            Some(v as i64)
        } else {
            None
        },
        None => None,
    }
}

/// An id of the game: a number that fits `i32`.
pub open spec fn id_value(s: Seq<u8>) -> Option<i32> {
    match number_value(s) {
        Some(v) => if i32::MIN <= v <= i32::MAX {
            Some(v as i32)
        } else {
            None
        },
        None => None,
    }
}

fn parse_coordinate(field: &[u8]) -> (r: Option<i64>)
    ensures
        r == coordinate_value(field@),
{
    match parse_number(field) {
        Some(v) => if -COORD_LIMIT <= v && v <= COORD_LIMIT {
            Some(v)
        } else {
            None
        },
        None => None,
    }
}

fn parse_id(field: &[u8]) -> (r: Option<i32>)
    ensures
        r == id_value(field@),
{
    match parse_number(field) {
        Some(v) => if i32::MIN as i64 <= v && v <= i32::MAX as i64 {
            Some(v as i32)
        } else {
            None
        },
        None => None,
    }
}

/// A point from two fields.
pub fn parse_v2(x: &[u8], y: &[u8]) -> (r: Option<V2>)
    ensures
        r == (match (coordinate_value(x@), coordinate_value(y@)) {
            (Some(a), Some(b)) => Some(V2 { x: a, y: b }),
            _ => None,
        }),
        r matches Some(p) ==> p.in_range(),
{
    match (parse_coordinate(x), parse_coordinate(y)) {
        (Some(a), Some(b)) => Some(V2 { x: a, y: b }),
        _ => None,
    }
}

/// A human from a line `<id> <x> <y>`.
pub fn parse_human(input_line: &str) -> (r: Option<Human>)
    ensures
        ({
            let f = split_fields(input_line.spec_bytes());
            r == if f.len() == 3 {
                match (id_value(f[0]), coordinate_value(f[1]), coordinate_value(f[2])) {
                    (Some(id), Some(x), Some(y)) => Some(Human { id, pos: V2 { x, y } }),
                    _ => None,
                }
            } else {
                None
            }
        }),
        r matches Some(h) ==> h.pos.in_range(),
{
    let inputs = split_line(input_line);
    if inputs.len() != 3 {
        return None;
    }
    match (parse_id(inputs[0].as_slice()), parse_v2(inputs[1].as_slice(), inputs[2].as_slice())) {
        (Some(id), Some(pos)) => Some(Human { id, pos }),
        _ => None,
    }
}

/// A zombie from a line `<id> <x> <y> <next_x> <next_y>`.
pub fn parse_zombie(input_line: &str) -> (r: Option<Zombie>)
    ensures
        ({
            let f = split_fields(input_line.spec_bytes());
            r == if f.len() == 5 {
                match (
                    id_value(f[0]),
                    coordinate_value(f[1]),
                    coordinate_value(f[2]),
                    coordinate_value(f[3]),
                    coordinate_value(f[4]),
                ) {
                    (Some(id), Some(x), Some(y), Some(nx), Some(ny)) => Some(
                        Zombie { id, pos: V2 { x, y }, next: V2 { x: nx, y: ny } },
                    ),
                    _ => None,
                }
            } else {
                None
            }
        }),
        r matches Some(z) ==> z.pos.in_range() && z.next.in_range(),
{
    let inputs = split_line(input_line);
    if inputs.len() != 5 {
        return None;
    }
    match (
        parse_id(inputs[0].as_slice()),
        parse_v2(inputs[1].as_slice(), inputs[2].as_slice()),
        parse_v2(inputs[3].as_slice(), inputs[4].as_slice()),
    ) {
        (Some(id), Some(pos), Some(next)) => Some(Zombie { id, pos, next }),
        _ => None,
    }
}

/// The player's position from a line `<x> <y>`.
pub fn parse_position(input_line: &str) -> (r: Option<V2>)
    ensures
        ({
            let f = split_fields(input_line.spec_bytes());
            r == if f.len() == 2 {
                match (coordinate_value(f[0]), coordinate_value(f[1])) {
                    (Some(x), Some(y)) => Some(V2 { x, y }),
                    _ => None,
                }
            } else {
                None
            }
        }),
        r matches Some(p) ==> p.in_range(),
{
    let inputs = split_line(input_line);
    if inputs.len() != 2 {
        return None;
    }
    parse_v2(inputs[0].as_slice(), inputs[1].as_slice())
}

/// A count line: one number from 0 to `max`.
pub fn parse_count(input_line: &str, max: usize) -> (r: Option<usize>)
    ensures
        r == (match number_value(input_line.spec_bytes()) {
            Some(v) => if 0 <= v <= max {
                Some(v as usize)
            } else {
                None
            },
            None => None,
        }),
{
    match parse_number(input_line.as_bytes()) {
        Some(v) => if 0 <= v && v as u64 <= max as u64 {
            Some(v as usize)
        } else {
            None
        },
        None => None,
    }
}

} // verus!
