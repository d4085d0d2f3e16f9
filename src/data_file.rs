use vstd::prelude::*;

use crate::entity::Entity;

verus! {

/// The ASCII code of the space that separates the fields of a line.
pub const SPACE: u8 = 32;

/// The ASCII code of the newline that ends every line.
pub const NEWLINE: u8 = 10;

/// The ASCII code of the minus sign.
pub const MINUS: u8 = 45;

/// The largest magnitude a field may have: ten decimal digits.
pub const FIELD_MAX: i64 = 9999999999;

/// Whether `c` is the ASCII code of a decimal digit.
pub open spec fn is_digit(c: u8) -> bool {
    48 <= c <= 57
}

/// The decimal digits of `n`, most significant first, without leading zeros.
pub open spec fn digits(n: nat) -> Seq<u8>
    decreases n,
{
    if n < 10 {
        seq![(n + 48) as u8]
    } else {
        digits(n / 10).push((n % 10 + 48) as u8)
    }
}

/// The decimal text of `v`: a minus sign for a negative value, then its digits.
pub open spec fn decimal(v: int) -> Seq<u8> {
    if v < 0 {
        seq![MINUS] + digits((-v) as nat)
    } else {
        digits(v as nat)
    }
}

/// One field of a line: the value's decimal text and the separator after it.
pub open spec fn field(v: int, sep: u8) -> Seq<u8> {
    decimal(v) + seq![sep]
}

/// The line that stores a body: `x y z vx vy vz mass radius`, separated by single spaces and
/// ended by a newline.
pub open spec fn entity_line(e: Entity) -> Seq<u8> {
    field(e.x as int, SPACE) + field(e.y as int, SPACE) + field(e.z as int, SPACE) + field(
        e.vx as int,
        SPACE,
    ) + field(e.vy as int, SPACE) + field(e.vz as int, SPACE) + field(e.mass as int, SPACE)
        + field(e.radius as int, NEWLINE)
}

/// The text that stores a sequence of bodies: one line for each, in order.
pub open spec fn data_text(es: Seq<Entity>) -> Seq<u8>
    decreases es.len(),
{
    if es.len() == 0 {
        Seq::empty()
    } else {
        entity_line(es[0]) + data_text(es.skip(1))
    }
}

/// The value of a string of decimal digits.
pub open spec fn digits_value(s: Seq<u8>) -> int
    decreases s.len(),
{
    if s.len() == 0 {
        0
    } else {
        digits_value(s.drop_last()) * 10 + (s.last() - 48)
    }
}

/// Whether `t` holds `s` from position `p` on.
pub open spec fn holds_at(t: Seq<u8>, p: int, s: Seq<u8>) -> bool {
    &&& 0 <= p
    &&& p + s.len() <= t.len()
    &&& t.subrange(p, p + s.len()) == s
}

/// Reading the digits of `n` gives back `n`.
proof fn lemma_digits_value(n: nat)
    ensures
        digits_value(digits(n)) == n,
    decreases n,
{
    let s = digits(n);
    assert(digits_value(Seq::<u8>::empty()) == 0);
    if n >= 10 {
        lemma_digits_value(n / 10);
        assert(s.drop_last() == digits(n / 10));
        assert(s.last() == (n % 10 + 48) as u8);
        assert(n == (n / 10) * 10 + n % 10);
    } else {
        assert(s.drop_last() =~= Seq::<u8>::empty());
        assert(s.last() == (n + 48) as u8);
    }
}

/// The digits of a number are digit characters, the first is not zero unless the number is,
/// and there are at most ten of them below ten billion.
proof fn lemma_digits_shape(n: nat)
    ensures
        digits(n).len() >= 1,
        forall|i: int| 0 <= i < digits(n).len() ==> is_digit(#[trigger] digits(n)[i]),
        n > 0 ==> digits(n)[0] != 48,
        n == 0 ==> digits(n).len() == 1,
        n <= FIELD_MAX ==> digits(n).len() <= 10,
    decreases n,
{
    if n >= 10 {
        lemma_digits_shape(n / 10);
        let s = digits(n / 10);
        assert forall|i: int| 0 <= i < digits(n).len() implies is_digit(#[trigger] digits(n)[i]) by {
            if i < s.len() {
                assert(digits(n)[i] == s[i]);
            }
        }
        assert(digits(n)[0] == s[0]);
        if n <= FIELD_MAX {
            lemma_digits_len(n);
        }
    }
}

/// Fewer than ten billion has at most ten digits.
proof fn lemma_digits_len(n: nat)
    requires
        n <= FIELD_MAX,
    ensures
        digits(n).len() <= 10,
{
    reveal_with_fuel(pow10, 11);
    assert(pow10(10) == 10000000000);
    lemma_digits_len_below(n, 10);
}

/// A number below `10^k` has at most `k` digits.
proof fn lemma_digits_len_below(n: nat, k: nat)
    requires
        k >= 1,
        n < pow10(k),
    ensures
        digits(n).len() <= k,
    decreases k,
{
    if n >= 10 {
        assert(k > 1) by {
            if k == 1 {
                assert(pow10(1) == 10 * pow10(0));
            }
        }
        assert(n / 10 < pow10((k - 1) as nat)) by (nonlinear_arith)
            requires n < pow10(k), pow10(k) == 10 * pow10((k - 1) as nat);
        lemma_digits_len_below(n / 10, (k - 1) as nat);
    }
}

/// Ten to the power `k`.
pub open spec fn pow10(k: nat) -> nat
    decreases k,
{
    if k == 0 {
        1
    } else {
        10 * pow10((k - 1) as nat)
    }
}

/// A string of digits with a nonzero first digit has a positive value.
proof fn lemma_value_positive(s: Seq<u8>)
    requires
        s.len() >= 1,
        forall|i: int| 0 <= i < s.len() ==> is_digit(#[trigger] s[i]),
        s[0] != 48,
    ensures
        digits_value(s) >= 1,
    decreases s.len(),
{
    if s.len() > 1 {
        let t = s.drop_last();
        assert(t[0] == s[0]);
        assert forall|i: int| 0 <= i < t.len() implies is_digit(#[trigger] t[i]) by {
            assert(t[i] == s[i]);
        }
        lemma_value_positive(t);
        assert(is_digit(s[s.len() - 1]));
        assert(s.last() == s[s.len() - 1]);
    } else {
        assert(s.drop_last() =~= Seq::<u8>::empty());
        assert(digits_value(Seq::<u8>::empty()) == 0);
        assert(s.last() == s[0]);
        assert(is_digit(s[0]));
    }
}

/// A string of digits without a leading zero is the digits of its value.
proof fn lemma_canonical_digits(s: Seq<u8>)
    requires
        s.len() >= 1,
        forall|i: int| 0 <= i < s.len() ==> is_digit(#[trigger] s[i]),
        s[0] != 48 || s.len() == 1,
    ensures
        digits(digits_value(s) as nat) == s,
        digits_value(s) >= 0,
    decreases s.len(),
{
    let t = s.drop_last();
    let d = s.last() - 48;
    assert(is_digit(s[s.len() - 1]));
    assert(s.last() == s[s.len() - 1]);
    if s.len() == 1 {
        assert(t =~= Seq::<u8>::empty());
        assert(digits_value(Seq::<u8>::empty()) == 0);
        assert(digits_value(s) == d);
        assert(digits(d as nat) =~= s);
    } else {
        assert(t[0] == s[0]);
        assert forall|i: int| 0 <= i < t.len() implies is_digit(#[trigger] t[i]) by {
            assert(t[i] == s[i]);
        }
        lemma_canonical_digits(t);
        lemma_value_positive(t);
        let a = digits_value(t);
        let v = digits_value(s);
        assert(v == a * 10 + d);
        assert(v / 10 == a && v % 10 == d) by (nonlinear_arith)
            requires v == a * 10 + d, 0 <= d < 10;
        assert(v >= 10);
        assert(digits(v as nat) == digits((v / 10) as nat).push((v % 10 + 48) as u8));
        assert(digits(v as nat) =~= s);
    }
}

/// Reads one field from position `p`: an optional minus sign, then one to ten digits without a
/// leading zero (and no minus before zero), then `sep`. Returns the value and the position
/// after the separator; `None` when the text there is not of that shape.
#[verifier::rlimit(60)]
fn read_field(t: &[u8], p: usize, sep: u8) -> (r: Option<(i64, usize)>)
    requires
        p <= t@.len(),
        sep == SPACE || sep == NEWLINE,
    ensures
        r matches Some((v, q)) ==> {
            &&& -FIELD_MAX <= v <= FIELD_MAX
            &&& q == p + field(v as int, sep).len()
            &&& holds_at(t@, p as int, field(v as int, sep))
        },
        forall|v: int|
            -FIELD_MAX <= v <= FIELD_MAX && #[trigger] holds_at(t@, p as int, field(v, sep)) ==> r
                == Some((v as i64, (p + field(v, sep).len()) as usize)),
{
    let n = t.len();
    let mut i = p;
    let neg = i < n && t[i] == MINUS;
    if neg {
        i = i + 1;
    }
    let start = i;
    let mut value: u64 = 0;
    while i < n && is_digit_byte(t[i]) && i - start < 11
        invariant
            n == t@.len(),
            p <= start <= i <= n,
            i - start <= 11,
            start == p + (if neg { 1int } else { 0int }),
            neg ==> p < n && t@[p as int] == MINUS,
            !neg ==> p >= n || t@[p as int] != MINUS,
            value == digits_value(t@.subrange(start as int, i as int)),
            value < pow10((i - start) as nat),
            forall|k: int| start <= k < i ==> is_digit(#[trigger] t@[k]),
        decreases n - i,
    {
        let c = t[i];
        proof {
            let s = t@.subrange(start as int, i + 1);
            assert(s.drop_last() =~= t@.subrange(start as int, i as int));
            assert(s.last() == c);
            assert(pow10((i + 1 - start) as nat) == 10 * pow10((i - start) as nat));
            assert(pow10((i - start) as nat) <= pow10(10)) by {
                lemma_pow10_monotone((i - start) as nat, 10);
            }
            reveal_with_fuel(pow10, 11);
            assert(pow10(10) == 10000000000);
            assert(value * 10 + (c - 48) < 10 * pow10((i - start) as nat)) by (nonlinear_arith)
                requires value < pow10((i - start) as nat), 0 <= c - 48 < 10, value >= 0;
        }
        value = value * 10 + (c - 48) as u64;
        i = i + 1;
    }
    let ghost s = t@.subrange(start as int, i as int);
    let count = i - start;
    let ok = count >= 1 && count <= 10 && !(t[start] == 48 && count > 1) && !(neg && value == 0)
        && i < n && t[i] == sep;
    proof {
        if count <= 10 {
            lemma_pow10_monotone(count as nat, 10);
            reveal_with_fuel(pow10, 11);
            assert(pow10(10) == 10000000000);
        }
        lemma_read_field_complete(t@, p as int, sep, neg, start as int, i as int, value as int, ok);
    }
    if !ok {
        return None;
    }
    proof {
        assert(s[0] == t@[start as int]);
        assert forall|k: int| 0 <= k < s.len() implies is_digit(#[trigger] s[k]) by {
            assert(s[k] == t@[start + k]);
        }
        lemma_canonical_digits(s);
        let v: int = if neg { -value } else { value as int };
        let f = field(v, sep);
        assert(decimal(v) == (if neg { seq![MINUS] + s } else { s }));
        assert(t@.subrange(p as int, i + 1) =~= f);
    }
    let v: i64 = if neg { -(value as i64) } else { value as i64 };
    Some((v, i + 1))
}


/// When a field of value `v` stands at `p`, reading stops right after its digits and accepts
/// it.
proof fn lemma_read_field_complete(
    t: Seq<u8>,
    p: int,
    sep: u8,
    neg: bool,
    start: int,
    i: int,
    value: int,
    ok: bool,
)
    requires
        0 <= p <= start <= i <= t.len(),
        sep == SPACE || sep == NEWLINE,
        start == p + (if neg { 1int } else { 0int }),
        neg ==> p < t.len() && t[p] == MINUS,
        !neg ==> p >= t.len() || t[p] != MINUS,
        value == digits_value(t.subrange(start, i)),
        forall|k: int| start <= k < i ==> is_digit(#[trigger] t[k]),
        !(i < t.len() && is_digit(t[i]) && i - start < 11),
        ok == (i - start >= 1 && i - start <= 10 && !(t[start] == 48 && i - start > 1) && !(neg
            && value == 0) && i < t.len() && t[i] == sep),
    ensures
        forall|v: int|
            -FIELD_MAX <= v <= FIELD_MAX && #[trigger] holds_at(t, p, field(v, sep)) ==> {
                &&& ok
                &&& v == (if neg { -value } else { value })
                &&& i + 1 == p + field(v, sep).len()
            },
{
    assert forall|v: int|
        -FIELD_MAX <= v <= FIELD_MAX && #[trigger] holds_at(t, p, field(v, sep)) implies {
            &&& ok
            &&& v == (if neg { -value } else { value })
            &&& i + 1 == p + field(v, sep).len()
        } by {
        let m: nat = if v < 0 { (-v) as nat } else { v as nat };
        let d = digits(m);
        lemma_digits_shape(m);
        lemma_digits_value(m);
        let f = field(v, sep);
        let off: int = if v < 0 { 1 } else { 0 };
        assert(f.len() == off + d.len() + 1);
        assert forall|k: int| 0 <= k < d.len() implies t[p + off + k] == d[k] by {
            assert(t.subrange(p, p + f.len())[off + k] == f[off + k]);
            assert(f[off + k] == d[k]);
        }
        assert(t[p + off + d.len()] == sep) by {
            assert(t.subrange(p, p + f.len())[off + d.len()] == f[off + d.len()]);
        }
        if v < 0 {
            assert(t[p] == MINUS) by {
                assert(t.subrange(p, p + f.len())[0] == f[0]);
            }
            assert(neg);
        } else {
            assert(t[p] == d[0]) by {
                assert(t.subrange(p, p + f.len())[0] == f[0]);
            }
            assert(is_digit(d[0]));
            assert(!neg);
        }
        assert(start == p + off);
        let e = start + d.len();
        if i < e {
            assert(t[i] == d[i - start]);
            assert(is_digit(d[i - start]));
            assert(false);
        }
        if i > e {
            assert(is_digit(t[e]));
            assert(false);
        }
        assert(i == e);
        assert(t.subrange(start, i) =~= d);
        if i - start > 1 {
            assert(t[start] == d[0]);
        }
    }
}


/// Holding a concatenation at `p` is holding each part in turn.
proof fn lemma_holds_at_concat(t: Seq<u8>, p: int, a: Seq<u8>, b: Seq<u8>)
    ensures
        holds_at(t, p, a + b) <==> holds_at(t, p, a) && holds_at(t, p + a.len(), b),
{
    let c = a + b;
    if holds_at(t, p, c) {
        assert forall|k: int| 0 <= k < a.len() implies t.subrange(p, p + a.len())[k] == a[k] by {
            assert(t.subrange(p, p + c.len())[k] == c[k]);
        }
        assert(t.subrange(p, p + a.len()) =~= a);
        assert forall|k: int| 0 <= k < b.len() implies t.subrange(p + a.len(), p + a.len() + b.len())[k] == b[k] by {
            assert(t.subrange(p, p + c.len())[a.len() + k] == c[a.len() + k]);
        }
        assert(t.subrange(p + a.len(), p + a.len() + b.len()) =~= b);
    }
    if holds_at(t, p, a) && holds_at(t, p + a.len(), b) {
        assert forall|k: int| 0 <= k < c.len() implies t.subrange(p, p + c.len())[k] == c[k] by {
            if k < a.len() {
                assert(t.subrange(p, p + a.len())[k] == a[k]);
            } else {
                assert(t.subrange(p + a.len(), p + a.len() + b.len())[k - a.len()] == b[k - a.len()]);
            }
        }
        assert(t.subrange(p, p + c.len()) =~= c);
    }
}

/// The values stored on a body's line, in order: x, y, z, vx, vy, vz, mass, radius.
pub open spec fn entity_values(e: Entity) -> Seq<int> {
    seq![
        e.x as int,
        e.y as int,
        e.z as int,
        e.vx as int,
        e.vy as int,
        e.vz as int,
        e.mass as int,
        e.radius as int,
    ]
}

/// The separator after field `k` of a line: a space, or the newline after the last field.
pub open spec fn separator(k: int) -> u8 {
    if k == 7 {
        NEWLINE
    } else {
        SPACE
    }
}

/// Whether `v` may stand as field `k` of a line: the six coordinates and velocities fit an
/// `i32`, mass and radius a `u32`.
pub open spec fn fits_field(k: int, v: int) -> bool {
    if k < 6 {
        i32::MIN <= v <= i32::MAX
    } else {
        0 <= v <= u32::MAX
    }
}

/// The offset, from the start of a line with values `vals`, of field `k`.
pub open spec fn field_offset(vals: Seq<int>, k: int) -> int
    decreases k,
{
    if k <= 0 {
        0
    } else {
        field_offset(vals, k - 1) + field(vals[k - 1], separator(k - 1)).len()
    }
}

/// A line stands at `p` exactly when each of its fields stands at its offset.
proof fn lemma_holds_line(t: Seq<u8>, p: int, e: Entity)
    ensures
        holds_at(t, p, entity_line(e)) <==> forall|k: int|
            0 <= k < 8 ==> #[trigger] holds_at(
                t,
                p + field_offset(entity_values(e), k),
                field(entity_values(e)[k], separator(k)),
            ),
        entity_line(e).len() == field_offset(entity_values(e), 8),
{
    let vs = entity_values(e);
    reveal_with_fuel(field_offset, 9);
    let f0 = field(vs[0], separator(0));
    let f1 = field(vs[1], separator(1));
    let f2 = field(vs[2], separator(2));
    let f3 = field(vs[3], separator(3));
    let f4 = field(vs[4], separator(4));
    let f5 = field(vs[5], separator(5));
    let f6 = field(vs[6], separator(6));
    let f7 = field(vs[7], separator(7));
    let a2 = f0 + f1;
    let a3 = a2 + f2;
    let a4 = a3 + f3;
    let a5 = a4 + f4;
    let a6 = a5 + f5;
    let a7 = a6 + f6;
    let a8 = a7 + f7;
    assert(a8 == entity_line(e));
    lemma_holds_at_concat(t, p, a7, f7);
    lemma_holds_at_concat(t, p, a6, f6);
    lemma_holds_at_concat(t, p, a5, f5);
    lemma_holds_at_concat(t, p, a4, f4);
    lemma_holds_at_concat(t, p, a3, f3);
    lemma_holds_at_concat(t, p, a2, f2);
    lemma_holds_at_concat(t, p, f0, f1);
    if forall|k: int|
        0 <= k < 8 ==> #[trigger] holds_at(t, p + field_offset(vs, k), field(vs[k], separator(k))) {
        assert(holds_at(t, p + field_offset(vs, 0), field(vs[0], separator(0))));
        assert(holds_at(t, p + field_offset(vs, 1), field(vs[1], separator(1))));
        assert(holds_at(t, p + field_offset(vs, 2), field(vs[2], separator(2))));
        assert(holds_at(t, p + field_offset(vs, 3), field(vs[3], separator(3))));
        assert(holds_at(t, p + field_offset(vs, 4), field(vs[4], separator(4))));
        assert(holds_at(t, p + field_offset(vs, 5), field(vs[5], separator(5))));
        assert(holds_at(t, p + field_offset(vs, 6), field(vs[6], separator(6))));
        assert(holds_at(t, p + field_offset(vs, 7), field(vs[7], separator(7))));
    }
}

/// Offsets depend only on the values before the field.
proof fn lemma_field_offset_prefix(a: Seq<int>, b: Seq<int>, k: int)
    requires
        0 <= k <= a.len(),
        k <= b.len(),
        forall|j: int| 0 <= j < k ==> a[j] == b[j],
    ensures
        field_offset(a, k) == field_offset(b, k),
    decreases k,
{
    if k > 0 {
        lemma_field_offset_prefix(a, b, k - 1);
    }
}

/// The values of a sequence of `i64`, as integers.
pub open spec fn as_ints(s: Seq<i64>) -> Seq<int> {
    s.map_values(|v: i64| v as int)
}

/// Builds a body from the eight values of its line.
fn entity_from_values(vals: &Vec<i64>) -> (e: Entity)
    requires
        vals@.len() == 8,
        forall|k: int| 0 <= k < 8 ==> fits_field(k, #[trigger] vals@[k] as int),
    ensures
        forall|k: int| 0 <= k < 8 ==> entity_values(e)[k] == #[trigger] vals@[k],
{
    let e = Entity {
        x: vals[0] as i32,
        y: vals[1] as i32,
        z: vals[2] as i32,
        vx: vals[3] as i32,
        vy: vals[4] as i32,
        vz: vals[5] as i32,
        mass: vals[6] as u32,
        radius: vals[7] as u32,
    };
    proof {
        assert(fits_field(0, vals@[0] as int));
        assert(fits_field(1, vals@[1] as int));
        assert(fits_field(2, vals@[2] as int));
        assert(fits_field(3, vals@[3] as int));
        assert(fits_field(4, vals@[4] as int));
        assert(fits_field(5, vals@[5] as int));
        assert(fits_field(6, vals@[6] as int));
        assert(fits_field(7, vals@[7] as int));
    }
    e
}

/// Reads the line of one body from position `p`; returns the body and the position after the
/// newline, or `None` when no body's line stands there.
#[verifier::rlimit(50)]
fn read_entity(t: &[u8], p: usize) -> (r: Option<(Entity, usize)>)
    requires
        p <= t@.len(),
    ensures
        r matches Some((e, q)) ==> q == p + entity_line(e).len() && holds_at(t@, p as int, entity_line(e)),
        forall|e: Entity| #[trigger] holds_at(t@, p as int, entity_line(e)) ==> r == Some((e, (p + entity_line(e).len()) as usize)),
{
    let mut vals: Vec<i64> = Vec::new();
    let mut pos = p;
    let mut k: usize = 0;
    while k < 8
        invariant
            p <= pos <= t@.len(),
            0 <= k <= 8,
            vals@.len() == k,
            pos == p + field_offset(as_ints(vals@), k as int),
            forall|j: int| 0 <= j < k ==> fits_field(j, #[trigger] vals@[j] as int),
            forall|j: int|
                0 <= j < k ==> #[trigger] holds_at(
                    t@,
                    p + field_offset(as_ints(vals@), j),
                    field(vals@[j] as int, separator(j)),
                ),
            forall|e: Entity| #[trigger] holds_at(t@, p as int, entity_line(e)) ==> (forall|j: int|
                0 <= j < k ==> entity_values(e)[j] == #[trigger] vals@[j]),
        decreases 8 - k,
    {
        let sep = if k == 7 { NEWLINE } else { SPACE };
        let ghost before = as_ints(vals@);
        let got = read_field(t, pos, sep);
        proof {
            assert forall|e: Entity| #[trigger] holds_at(t@, p as int, entity_line(e)) implies got == Some(
                (entity_values(e)[k as int] as i64, (pos + field(entity_values(e)[k as int], sep).len()) as usize),
            ) by {
                lemma_holds_line(t@, p as int, e);
                let vs = entity_values(e);
                assert(holds_at(t@, p + field_offset(vs, k as int), field(vs[k as int], separator(k as int))));
                lemma_field_offset_prefix(vs, before, k as int);
                assert(-FIELD_MAX <= vs[k as int] <= FIELD_MAX);
            }
        }
        match got {
            Some((v, q)) => {
                let fits = if k < 6 {
                    i32::MIN as i64 <= v && v <= i32::MAX as i64
                } else {
                    0 <= v && v <= u32::MAX as i64
                };
                if !fits {
                    proof {
                        assert forall|e: Entity| #[trigger] holds_at(t@, p as int, entity_line(e)) implies false by {
                            let vs = entity_values(e);
                            assert(fits_field(k as int, vs[k as int]));
                        }
                    }
                    return None;
                }
                vals.push(v);
                pos = q;
                proof {
                    let after = as_ints(vals@);
                    assert(after.take(k as int) =~= before.take(k as int));
                    lemma_field_offset_prefix(after, before, k as int);
                    assert(after[k as int] == v);
                    assert forall|j: int| 0 <= j < k + 1 implies #[trigger] holds_at(
                        t@,
                        p + field_offset(after, j),
                        field(vals@[j] as int, separator(j)),
                    ) by {
                        lemma_field_offset_prefix(after, before, j);
                        if j < k {
                            assert(vals@[j] == before[j]);
                        }
                    }
                }
                k = k + 1;
            },
            None => {
                proof {
                    assert forall|e: Entity| #[trigger] holds_at(t@, p as int, entity_line(e)) implies false by {}
                }
                return None;
            },
        }
    }
    let e = entity_from_values(&vals);
    proof {
        let vs = as_ints(vals@);
        assert(vs =~= entity_values(e));
        lemma_holds_line(t@, p as int, e);
        assert forall|j: int| 0 <= j < 8 implies #[trigger] holds_at(
            t@,
            p + field_offset(entity_values(e), j),
            field(entity_values(e)[j], separator(j)),
        ) by {
            assert(holds_at(t@, p + field_offset(vs, j), field(vals@[j] as int, separator(j))));
        }
        assert forall|e2: Entity| #[trigger] holds_at(t@, p as int, entity_line(e2)) implies e2 == e by {
            assert(entity_values(e2) =~= entity_values(e));
        }
    }
    Some((e, pos))
}

/// Whether `c` is the ASCII code of a decimal digit.
fn is_digit_byte(c: u8) -> (r: bool)
    ensures
        r == is_digit(c),
{
    48 <= c && c <= 57
}

/// Powers of ten grow with the exponent.
proof fn lemma_pow10_monotone(a: nat, b: nat)
    requires
        a <= b,
    ensures
        1 <= pow10(a) <= pow10(b),
    decreases b,
{
    if b > a {
        lemma_pow10_monotone(a, (b - 1) as nat);
    } else {
        lemma_pow10_positive(a);
    }
}

/// Powers of ten are positive.
proof fn lemma_pow10_positive(a: nat)
    ensures
        pow10(a) >= 1,
    decreases a,
{
    if a > 0 {
        lemma_pow10_positive((a - 1) as nat);
    }
}


/// Why a stored text could not be read.
#[derive(Clone, Copy, Debug, PartialEq, Eq, Structural)]
pub enum ParseError {
    /// The text is not a sequence of body lines: a field is malformed or out of range, a line
    /// has another number of fields, or the last line has no newline.
    Malformed,
}

/// Appending a body appends its line.
pub(crate) proof fn lemma_data_text_push(es: Seq<Entity>, e: Entity)
    ensures
        data_text(es.push(e)) == data_text(es) + entity_line(e),
    decreases es.len(),
{
    if es.len() == 0 {
        assert(es.push(e).skip(1) =~= Seq::<Entity>::empty());
        assert(data_text(es.push(e)) =~= entity_line(e) + data_text(Seq::<Entity>::empty()));
        assert(data_text(es) + entity_line(e) =~= entity_line(e));
    } else {
        assert(es.push(e).skip(1) =~= es.skip(1).push(e));
        lemma_data_text_push(es.skip(1), e);
        assert(data_text(es.push(e)) =~= data_text(es) + entity_line(e));
    }
}

/// A body's line is never empty.
proof fn lemma_line_nonempty(e: Entity)
    ensures
        entity_line(e).len() > 0,
{
    lemma_holds_line(entity_line(e), 0, e);
    reveal_with_fuel(field_offset, 9);
}

/// When the rest of `t` from `p` is `a` then `b`, `a` stands at `p` and `b` follows it.
proof fn lemma_rest_splits(t: Seq<u8>, p: int, a: Seq<u8>, b: Seq<u8>)
    requires
        0 <= p <= t.len(),
        t.subrange(p, t.len() as int) == a + b,
    ensures
        holds_at(t, p, a),
        t.subrange(p + a.len(), t.len() as int) == b,
{
    let r = t.subrange(p, t.len() as int);
    assert(r.len() == a.len() + b.len());
    assert(p + a.len() <= t.len());
    assert forall|k: int| 0 <= k < a.len() implies t.subrange(p, p + a.len())[k] == a[k] by {
        assert(r[k] == (a + b)[k]);
        assert(r[k] == t[p + k]);
    }
    assert(t.subrange(p, p + a.len()) =~= a);
    assert forall|k: int| 0 <= k < b.len() implies t.subrange(p + a.len(), t.len() as int)[k] == b[k] by {
        assert(r[a.len() + k] == (a + b)[a.len() + k]);
        assert(r[a.len() + k] == t[p + a.len() + k]);
    }
    assert(t.subrange(p + a.len(), t.len() as int) =~= b);
}

/// Reads a text in the written form: one line per body, `x y z vx vy vz mass radius` as
/// decimal integers separated by single spaces, each line ended by a newline. Succeeds exactly
/// on the texts that some sequence of bodies is written as, and then returns that sequence.
fn parse_written(t: &[u8]) -> (r: Result<Vec<Entity>, ParseError>)
    ensures
        r matches Ok(es) ==> data_text(es@) == t@,
        forall|es: Seq<Entity>| data_text(es) == t@ ==> (r matches Ok(v) && v@ == es),
{
    let n = t.len();
    let mut out: Vec<Entity> = Vec::new();
    let mut p: usize = 0;
    proof {
        assert(t@.subrange(0, 0) =~= data_text(Seq::<Entity>::empty()));
        assert forall|ws: Seq<Entity>| data_text(ws) == t@ implies out@ =~= ws.take(0) && t@.subrange(0, n as int) == data_text(ws.skip(0)) by {
            assert(ws.skip(0) =~= ws);
            assert(t@.subrange(0, n as int) =~= t@);
        }
    }
    while p < n
        invariant
            n == t@.len(),
            0 <= p <= n,
            t@.subrange(0, p as int) == data_text(out@),
            forall|ws: Seq<Entity>|
                #[trigger] data_text(ws) == t@ ==> out@.len() <= ws.len() && out@ == ws.take(
                    out@.len() as int,
                ) && t@.subrange(p as int, n as int) == data_text(ws.skip(out@.len() as int)),
        decreases n - p,
    {
        let ghost k = out@.len() as int;
        proof {
            assert forall|ws: Seq<Entity>| #[trigger] data_text(ws) == t@ implies k < ws.len() && holds_at(t@, p as int, entity_line(ws[k])) && t@.subrange(p + entity_line(ws[k]).len(), n as int) == data_text(ws.skip(k + 1)) by {
                if k == ws.len() {
                    assert(ws.skip(k) =~= Seq::<Entity>::empty());
                    assert(t@.subrange(p as int, n as int).len() > 0);
                }
                let rest = ws.skip(k);
                assert(rest[0] == ws[k]);
                assert(rest.skip(1) =~= ws.skip(k + 1));
                lemma_rest_splits(t@, p as int, entity_line(ws[k]), data_text(ws.skip(k + 1)));
            }
        }
        match read_entity(t, p) {
            Some((e, q)) => {
                proof {
                    lemma_line_nonempty(e);
                    lemma_data_text_push(out@, e);
                    assert(t@.subrange(0, q as int) =~= t@.subrange(0, p as int) + t@.subrange(p as int, q as int));
                }
                let ghost before = out@;
                out.push(e);
                p = q;
                proof {
                    assert forall|ws: Seq<Entity>| #[trigger] data_text(ws) == t@ implies out@.len() <= ws.len() && out@ == ws.take(out@.len() as int) && t@.subrange(p as int, n as int) == data_text(ws.skip(out@.len() as int)) by {
                        assert(e == ws[k]);
                        assert(out@ =~= ws.take(k + 1));
                    }
                }
            },
            None => {
                proof {
                    assert forall|ws: Seq<Entity>| #[trigger] data_text(ws) == t@ implies false by {}
                }
                return Err(ParseError::Malformed);
            },
        }
    }
    proof {
        assert(t@.subrange(0, n as int) =~= t@);
        assert forall|ws: Seq<Entity>| #[trigger] data_text(ws) == t@ implies out@ == ws by {
            let k = out@.len() as int;
            if k < ws.len() {
                let rest = ws.skip(k);
                assert(rest[0] == ws[k]);
                lemma_line_nonempty(ws[k]);
                assert(data_text(rest).len() > 0);
            }
            assert(ws.take(k) =~= ws);
        }
    }
    Ok(out)
}

/// The ASCII code of the tab.
pub const TAB: u8 = 9;

/// Whether `c` is a space or a tab.
pub open spec fn is_blank(c: u8) -> bool {
    c == SPACE || c == TAB
}

/// `s` with every run of spaces and tabs replaced by a single space.
pub open spec fn collapse_blanks(s: Seq<u8>) -> Seq<u8>
    decreases s.len(),
{
    if s.len() == 0 {
        Seq::empty()
    } else {
        let front = collapse_blanks(s.drop_last());
        if !is_blank(s.last()) {
            front.push(s.last())
        } else if s.len() >= 2 && is_blank(s[s.len() - 2]) {
            front
        } else {
            front.push(SPACE)
        }
    }
}

/// Returns `t` with every run of spaces and tabs replaced by a single space.
fn collapse(t: &[u8]) -> (r: Vec<u8>)
    ensures
        r@ == collapse_blanks(t@),
{
    let mut out: Vec<u8> = Vec::new();
    let mut i: usize = 0;
    while i < t.len()
        invariant
            0 <= i <= t@.len(),
            out@ == collapse_blanks(t@.take(i as int)),
        decreases t@.len() - i,
    {
        let c = t[i];
        proof {
            let s = t@.take(i + 1);
            assert(s.drop_last() =~= t@.take(i as int));
            assert(s.last() == c);
            if i >= 1 {
                assert(s[i - 1] == t@[i - 1]);
            }
        }
        if c != SPACE && c != TAB {
            out.push(c);
        } else if !(i >= 1 && (t[i - 1] == SPACE || t[i - 1] == TAB)) {
            out.push(SPACE);
        }
        i = i + 1;
    }
    assert(t@.take(t@.len() as int) =~= t@);
    out
}

/// Reads a stored text: one line per body, `x y z vx vy vz mass radius` as decimal integers
/// (an optional minus sign, then one to ten digits with no leading zero, and no minus before
/// zero) separated by runs of spaces and tabs, each line ended by a newline right after its
/// last field. Exactly: succeeds when replacing every run of spaces and tabs by one space gives
/// the written text of some sequence of bodies, and then returns that sequence.
pub fn parse_entities(t: &[u8]) -> (r: Result<Vec<Entity>, ParseError>)
    ensures
        r matches Ok(es) ==> data_text(es@) == collapse_blanks(t@),
        forall|es: Seq<Entity>| data_text(es) == collapse_blanks(t@) ==> (r matches Ok(v) && v@ == es),
{
    let c = collapse(t);
    parse_written(c.as_slice())
}

/// Appends the decimal digits of `n`.
fn write_digits(out: &mut Vec<u8>, n: u64)
    ensures
        final(out)@ == old(out)@ + digits(n as nat),
    decreases n,
{
    if n >= 10 {
        write_digits(out, n / 10);
    }
    out.push((n % 10 + 48) as u8);
    proof {
        if n >= 10 {
            assert(final(out)@ =~= old(out)@ + digits(n as nat));
        } else {
            assert(final(out)@ =~= old(out)@ + digits(n as nat));
        }
    }
}

/// Appends one field: the decimal text of `v` and the separator.
fn write_field(out: &mut Vec<u8>, v: i64, sep: u8)
    requires
        v > i64::MIN,
    ensures
        final(out)@ == old(out)@ + field(v as int, sep),
{
    if v < 0 {
        out.push(MINUS);
        write_digits(out, (-v) as u64);
    } else {
        write_digits(out, v as u64);
    }
    out.push(sep);
    assert(final(out)@ =~= old(out)@ + field(v as int, sep));
}

/// Appends the line of a body.
pub(crate) fn write_entity_line(out: &mut Vec<u8>, e: &Entity)
    ensures
        final(out)@ == old(out)@ + entity_line(*e),
{
    write_field(out, e.x as i64, SPACE);
    write_field(out, e.y as i64, SPACE);
    write_field(out, e.z as i64, SPACE);
    write_field(out, e.vx as i64, SPACE);
    write_field(out, e.vy as i64, SPACE);
    write_field(out, e.vz as i64, SPACE);
    write_field(out, e.mass as i64, SPACE);
    write_field(out, e.radius as i64, NEWLINE);
    assert(final(out)@ =~= old(out)@ + entity_line(*e));
}

/// Returns the stored text of the given bodies: one line each, in order.
pub fn write_data(es: &[Entity]) -> (r: Vec<u8>)
    ensures
        r@ == data_text(es@),
{
    let mut out: Vec<u8> = Vec::new();
    let mut i: usize = 0;
    assert(es@.take(0) =~= Seq::<Entity>::empty());
    while i < es.len()
        invariant
            0 <= i <= es@.len(),
            out@ == data_text(es@.take(i as int)),
        decreases es@.len() - i,
    {
        write_entity_line(&mut out, &es[i]);
        proof {
            assert(es@.take(i + 1) =~= es@.take(i as int).push(es@[i as int]));
            lemma_data_text_push(es@.take(i as int), es@[i as int]);
        }
        i = i + 1;
    }
    assert(es@.take(es@.len() as int) =~= es@);
    out
}


/// Whether every byte of `s` is below 128.
pub open spec fn is_ascii_bytes(s: Seq<u8>) -> bool {
    forall|i: int| 0 <= i < s.len() ==> (#[trigger] s[i]) < 128
}

/// The characters of ASCII bytes.
pub open spec fn ascii_chars(s: Seq<u8>) -> Seq<char> {
    s.map_values(|b: u8| b as char)
}

/// A concatenation of ASCII sequences is ASCII.
proof fn lemma_ascii_concat(a: Seq<u8>, b: Seq<u8>)
    requires
        is_ascii_bytes(a),
        is_ascii_bytes(b),
    ensures
        is_ascii_bytes(a + b),
{
    assert forall|i: int| 0 <= i < (a + b).len() implies (#[trigger] (a + b)[i]) < 128 by {
        if i < a.len() {
            assert((a + b)[i] == a[i]);
        } else {
            assert((a + b)[i] == b[i - a.len()]);
        }
    }
}

/// A field is ASCII.
proof fn lemma_field_ascii(v: int, sep: u8)
    requires
        sep < 128,
    ensures
        is_ascii_bytes(field(v, sep)),
{
    let m: nat = if v < 0 { (-v) as nat } else { v as nat };
    lemma_digits_shape(m);
    assert(is_ascii_bytes(digits(m)));
    assert(is_ascii_bytes(seq![sep]));
    if v < 0 {
        assert(is_ascii_bytes(seq![MINUS]));
        lemma_ascii_concat(seq![MINUS], digits(m));
        lemma_ascii_concat(seq![MINUS] + digits(m), seq![sep]);
    } else {
        lemma_ascii_concat(digits(m), seq![sep]);
    }
}

/// A body's line is ASCII.
proof fn lemma_line_ascii(e: Entity)
    ensures
        is_ascii_bytes(entity_line(e)),
{
    let f0 = field(e.x as int, SPACE);
    let f1 = field(e.y as int, SPACE);
    let f2 = field(e.z as int, SPACE);
    let f3 = field(e.vx as int, SPACE);
    let f4 = field(e.vy as int, SPACE);
    let f5 = field(e.vz as int, SPACE);
    let f6 = field(e.mass as int, SPACE);
    let f7 = field(e.radius as int, NEWLINE);
    lemma_field_ascii(e.x as int, SPACE);
    lemma_field_ascii(e.y as int, SPACE);
    lemma_field_ascii(e.z as int, SPACE);
    lemma_field_ascii(e.vx as int, SPACE);
    lemma_field_ascii(e.vy as int, SPACE);
    lemma_field_ascii(e.vz as int, SPACE);
    lemma_field_ascii(e.mass as int, SPACE);
    lemma_field_ascii(e.radius as int, NEWLINE);
    lemma_ascii_concat(f0, f1);
    lemma_ascii_concat(f0 + f1, f2);
    lemma_ascii_concat(f0 + f1 + f2, f3);
    lemma_ascii_concat(f0 + f1 + f2 + f3, f4);
    lemma_ascii_concat(f0 + f1 + f2 + f3 + f4, f5);
    lemma_ascii_concat(f0 + f1 + f2 + f3 + f4 + f5, f6);
    lemma_ascii_concat(f0 + f1 + f2 + f3 + f4 + f5 + f6, f7);
}

/// Relies on `String::from_utf8`: bytes below 128 are valid UTF-8, and each stands for the
/// character of that code.
#[verifier::external_body]
fn ascii_string(bytes: Vec<u8>) -> (r: String)
    requires
        is_ascii_bytes(bytes@),
    ensures
        r@ == ascii_chars(bytes@),
{
    match String::from_utf8(bytes) {
        Ok(s) => s,
        Err(_) => String::new(),
    }
}

impl Entity {
    /// Returns the body as its stored line without the newline: `x y z vx vy vz mass radius`.
    pub fn as_string(&self) -> (r: String)
        ensures
            r@ == ascii_chars(entity_line(*self).drop_last()),
    {
        let mut out: Vec<u8> = Vec::new();
        write_entity_line(&mut out, self);
        proof {
            assert(out@ =~= entity_line(*self));
            lemma_line_ascii(*self);
            lemma_line_nonempty(*self);
        }
        out.pop();
        assert(is_ascii_bytes(out@));
        ascii_string(out)
    }
}

} // verus!
