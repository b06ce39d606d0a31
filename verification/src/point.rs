//! Points of the board, their text key `"x,y"`, and the ray-casting test that
//! tells whether a point lies inside a closed polygon of points.
use vstd::prelude::*;

verus! {

/// A cell of the board, by column `x` and row `y`.
#[derive(Debug, Clone, Copy, PartialEq, Eq, Structural, Hash)]
pub struct Point {
    pub x: i32,
    pub y: i32,
}

// ---------------------------------------------------------------------------
// Decimal text of integers
// ---------------------------------------------------------------------------

/// The character of the decimal digit `d` (`0 <= d < 10`).
pub open spec fn digit_char(d: int) -> char {
    (48 + d) as char
}

/// Decimal digits of a natural number, most significant first, without leading zeros.
pub open spec fn nat_decimal(n: nat) -> Seq<char>
    decreases n,
{
    if n < 10 {
        seq![digit_char(n as int)]
    } else {
        nat_decimal(n / 10).push(digit_char((n % 10) as int))
    }
}

/// Decimal text of an integer, with a leading `-` when it is negative
/// (what `format!("{}", i)` writes).
pub open spec fn int_decimal(i: int) -> Seq<char> {
    if i < 0 {
        seq!['-'] + nat_decimal((-i) as nat)
    } else {
        nat_decimal(i as nat)
    }
}

/// The key of a point: `"x,y"` with both coordinates in decimal.
pub open spec fn point_key(p: Point) -> Seq<char> {
    int_decimal(p.x as int) + seq![','] + int_decimal(p.y as int)
}

// ---------------------------------------------------------------------------
// Reading integers back (what `str::parse::<i32>` accepts)
// ---------------------------------------------------------------------------

pub open spec fn is_digit(c: char) -> bool {
    '0' <= c && c <= '9'
}

pub open spec fn all_digits(s: Seq<char>) -> bool {
    forall|i: int| 0 <= i < s.len() ==> is_digit(#[trigger] s[i])
}

/// Value of a string of decimal digits.
pub open spec fn digits_value(s: Seq<char>) -> int
    decreases s.len(),
{
    if s.len() == 0 {
        0
    } else {
        digits_value(s.drop_last()) * 10 + (s.last() as int - 48)
    }
}

/// Value of an integer literal: an optional `+` or `-` followed by at least one digit.
pub open spec fn literal_value(s: Seq<char>) -> Option<int> {
    if s.len() > 0 && (s[0] == '-' || s[0] == '+') {
        let d = s.drop_first();
        if d.len() > 0 && all_digits(d) {
            if s[0] == '-' {
                Some(-digits_value(d))
            } else {
                Some(digits_value(d))
            }
        } else {
            None
        }
    } else if s.len() > 0 && all_digits(s) {
        Some(digits_value(s))
    } else {
        None
    }
}

/// Whether `s` is the text of an `i32`, as `str::parse::<i32>` accepts it.
pub open spec fn is_i32_literal(s: Seq<char>) -> bool {
    match literal_value(s) {
        Some(v) => i32::MIN <= v <= i32::MAX,
        None => false,
    }
}

/// Index of the first `c` in `s` from position `i` on, or `s.len()` when there is none.
pub open spec fn find_from(s: Seq<char>, c: char, i: int) -> int
    decreases s.len() - i,
{
    if i >= s.len() || i < 0 {
        s.len() as int
    } else if s[i] == c {
        i
    } else {
        find_from(s, c, i + 1)
    }
}

/// The first field of `s` split at `,`.
pub open spec fn key_field0(s: Seq<char>) -> Seq<char> {
    s.take(find_from(s, ',', 0))
}

/// The second field of `s` split at `,` (up to the next `,` or the end).
pub open spec fn key_field1(s: Seq<char>) -> Seq<char> {
    let rest = s.skip(find_from(s, ',', 0) + 1);
    rest.take(find_from(rest, ',', 0))
}

/// A key that `Point::from_string` reads: it has a `,`, and its first two
/// comma-separated fields are `i32` literals.
pub open spec fn is_point_key(s: Seq<char>) -> bool {
    &&& find_from(s, ',', 0) < s.len()
    &&& is_i32_literal(key_field0(s))
    &&& is_i32_literal(key_field1(s))
}

/// The point a key names.
pub open spec fn parse_key(s: Seq<char>) -> Point {
    Point {
        x: literal_value(key_field0(s)).unwrap() as i32,
        y: literal_value(key_field1(s)).unwrap() as i32,
    }
}

// ---------------------------------------------------------------------------
// Polygons
// ---------------------------------------------------------------------------

/// Index of the vertex before vertex `i` in a closed polygon of `n` vertices.
pub open spec fn prev_index(n: int, i: int) -> int {
    if i == 0 {
        n - 1
    } else {
        i - 1
    }
}

/// Whether the ray from `p` towards growing `x` crosses the edge `vi`–`vj`:
/// the edge straddles the row of `p` (half-open in `y`) and meets that row
/// strictly to the right of `p`. The crossing abscissa
/// `vi.x + (vj.x - vi.x) * (p.y - vi.y) / (vj.y - vi.y)` is compared exactly,
/// by cross-multiplying with the (non-zero) height of the edge.
pub open spec fn crosses_right(p: Point, vi: Point, vj: Point) -> bool {
    let dy = vj.y - vi.y;
    let lhs = (p.x - vi.x) * dy;
    let rhs = (vj.x - vi.x) * (p.y - vi.y);
    &&& (vi.y > p.y) != (vj.y > p.y)
    &&& if dy > 0 {
        lhs < rhs
    } else {
        lhs > rhs
    }
}

/// Number of edges `(poly[i], poly[prev_index(i)])`, `i < k`, that the ray from `p` crosses.
pub open spec fn crossing_count(poly: Seq<Point>, p: Point, k: int) -> nat
    decreases k,
{
    if k <= 0 {
        0
    } else {
        crossing_count(poly, p, k - 1) + if crosses_right(
            p,
            poly[k - 1],
            poly[prev_index(poly.len() as int, k - 1)],
        ) {
            1nat
        } else {
            0nat
        }
    }
}

/// Whether `p` lies inside the polygon `poly`: it is none of its vertices and
/// the ray from it crosses an odd number of edges. An empty polygon has no inside.
pub open spec fn in_polygon(p: Point, poly: Seq<Point>) -> bool {
    &&& poly.len() > 0
    &&& !poly.contains(p)
    &&& crossing_count(poly, p, poly.len() as int) % 2 == 1
}

// ---------------------------------------------------------------------------
// Laws of the inside test
// ---------------------------------------------------------------------------

/// Whether an edge is crossed does not depend on the direction in which it is walked.
proof fn lemma_crosses_symmetric(p: Point, a: Point, b: Point)
    ensures
        crosses_right(p, a, b) == crosses_right(p, b, a),
{
    let u = p.x as int;
    let v = p.y as int;
    let ax = a.x as int;
    let ay = a.y as int;
    let bx = b.x as int;
    let by_ = b.y as int;
    assert((u - bx) * (ay - by_) - (ax - bx) * (v - by_) == (bx - ax) * (v - ay) - (u - ax) * (by_ - ay))
        by (nonlinear_arith);
}

/// The indices `i` of the edges `(poly[i], poly[prev_index(i)])` that the
/// rightward ray from `p` crosses.
pub open spec fn crossed_edges(p: Point, poly: Seq<Point>) -> Set<int> {
    Set::new(
        |i: int|
            0 <= i < poly.len() && crosses_right(p, poly[i], poly[prev_index(poly.len() as int, i)]),
    )
}

proof fn lemma_crossed_edges_count(p: Point, poly: Seq<Point>, k: int)
    requires
        0 <= k <= poly.len(),
    ensures
        crossed_edges(p, poly).filter(|i: int| i < k).finite(),
        crossed_edges(p, poly).filter(|i: int| i < k).len() == crossing_count(poly, p, k),
    decreases k,
{
    let sk = crossed_edges(p, poly).filter(|i: int| i < k);
    if k == 0 {
        assert(sk =~= Set::<int>::empty());
    } else {
        lemma_crossed_edges_count(p, poly, k - 1);
        let sp = crossed_edges(p, poly).filter(|i: int| i < k - 1);
        if crosses_right(p, poly[k - 1], poly[prev_index(poly.len() as int, k - 1)]) {
            assert(sk =~= sp.insert(k - 1));
        } else {
            assert(sk =~= sp);
        }
    }
}

/// The even–odd rule: a point that is not a vertex of a polygon lies inside
/// it exactly when its rightward ray crosses an odd number of the polygon's
/// edges (one, three, five, ...); a vertex is never inside.
pub proof fn lemma_inside_iff_odd_crossings(p: Point, poly: Seq<Point>)
    ensures
        crossed_edges(p, poly).finite(),
        poly.len() > 0 && !poly.contains(p) ==> (in_polygon(p, poly) <==> crossed_edges(p, poly).len()
            % 2 == 1),
        poly.contains(p) ==> !in_polygon(p, poly),
{
    lemma_crossed_edges_count(p, poly, poly.len() as int);
    assert(crossed_edges(p, poly).filter(|i: int| i < poly.len()) =~= crossed_edges(p, poly));
}

/// The polygon `poly` with its first vertex moved to the end.
pub open spec fn rotate_once(poly: Seq<Point>) -> Seq<Point> {
    poly.subrange(1, poly.len() as int).push(poly[0])
}

/// Crossings of the first `k` edges of the rotated polygon, with the edge
/// ending at the first vertex of `poly`, are the crossings of its first `k + 1` edges.
proof fn lemma_rotate_once_count(poly: Seq<Point>, p: Point, k: int)
    requires
        poly.len() >= 2,
        1 <= k < poly.len(),
    ensures
        crossing_count(rotate_once(poly), p, k) + (if crosses_right(
            p,
            poly[0],
            poly[poly.len() - 1],
        ) {
            1int
        } else {
            0int
        }) == crossing_count(poly, p, k + 1),
    decreases k,
{
    let r = rotate_once(poly);
    let n = poly.len() as int;
    assert(r[k - 1] == poly[k]);
    if k == 1 {
        assert(r[n - 1] == poly[0]);
        assert(crossing_count(r, p, 0) == 0);
        assert(crossing_count(poly, p, 1) == crossing_count(poly, p, 0) + if crosses_right(
            p,
            poly[0],
            poly[n - 1],
        ) {
            1nat
        } else {
            0nat
        });
    } else {
        lemma_rotate_once_count(poly, p, k - 1);
        assert(r[k - 2] == poly[k - 1]);
    }
}

/// Moving the first vertex of a polygon to its end changes no point's inside.
proof fn lemma_in_polygon_rotate_once(p: Point, poly: Seq<Point>)
    requires
        poly.len() > 0,
    ensures
        in_polygon(p, rotate_once(poly)) == in_polygon(p, poly),
{
    let r = rotate_once(poly);
    let n = poly.len() as int;
    if n == 1 {
        assert(r =~= poly);
    } else {
        lemma_rotate_once_count(poly, p, n - 1);
        assert(r[n - 1] == poly[0] && r[n - 2] == poly[n - 1]);
        assert(crossing_count(r, p, n) == crossing_count(poly, p, n));
        assert(r.contains(p) == poly.contains(p)) by {
            if r.contains(p) {
                let i = choose|i: int| 0 <= i < n && r[i] == p;
                if i < n - 1 {
                    assert(poly[i + 1] == p);
                } else {
                    assert(poly[0] == p);
                }
            }
            if poly.contains(p) {
                let i = choose|i: int| 0 <= i < n && poly[i] == p;
                if i > 0 {
                    assert(r[i - 1] == p);
                } else {
                    assert(r[n - 1] == p);
                }
            }
        }
    }
}

/// Whether a point lies inside a polygon does not depend on the vertex the
/// polygon starts from: rotating it by `k` vertices changes nothing.
pub proof fn lemma_in_polygon_rotate(p: Point, poly: Seq<Point>, k: int)
    requires
        0 <= k <= poly.len(),
    ensures
        in_polygon(p, poly.subrange(k, poly.len() as int) + poly.subrange(0, k)) == in_polygon(p, poly),
    decreases k,
{
    let n = poly.len() as int;
    if k == 0 {
        assert(poly.subrange(0, n) + poly.subrange(0, 0) =~= poly);
    } else {
        lemma_in_polygon_rotate(p, poly, k - 1);
        let q = poly.subrange(k - 1, n) + poly.subrange(0, k - 1);
        assert(poly.subrange(k, n) + poly.subrange(0, k) =~= rotate_once(q));
        lemma_in_polygon_rotate_once(p, q);
    }
}

/// Crossings of the first `k + 1` edges of the reversed polygon.
proof fn lemma_reverse_count(poly: Seq<Point>, p: Point, k: int)
    requires
        poly.len() >= 1,
        0 <= k < poly.len(),
    ensures
        crossing_count(poly.reverse(), p, k + 1) + crossing_count(poly, p, poly.len() - k) == crossing_count(
            poly,
            p,
            poly.len() as int,
        ) + crossing_count(poly, p, 1),
    decreases k,
{
    let n = poly.len() as int;
    let r = poly.reverse();
    assert(r =~= Seq::new(poly.len(), |i: int| poly[n - 1 - i]));
    if k == 0 {
        assert(r[0] == poly[n - 1]);
        assert(r[prev_index(n, 0)] == poly[0]);
        lemma_crosses_symmetric(p, poly[n - 1], poly[0]);
        assert(crossing_count(r, p, 0) == 0);
        assert(crossing_count(poly, p, 0) == 0);
    } else {
        lemma_reverse_count(poly, p, k - 1);
        assert(r[k] == poly[n - 1 - k]);
        assert(r[k - 1] == poly[n - k]);
        assert(prev_index(n, n - k) == n - k - 1);
        lemma_crosses_symmetric(p, poly[n - 1 - k], poly[n - k]);
    }
}

/// Whether a point lies inside a polygon does not depend on the direction
/// in which the polygon is walked.
pub proof fn lemma_in_polygon_reverse(p: Point, poly: Seq<Point>)
    ensures
        in_polygon(p, poly.reverse()) == in_polygon(p, poly),
{
    let n = poly.len() as int;
    if n == 0 {
        assert(poly.reverse().len() == 0);
    } else {
        let r = poly.reverse();
        assert(r =~= Seq::new(poly.len(), |i: int| poly[n - 1 - i]));
        lemma_reverse_count(poly, p, n - 1);
        assert(crossing_count(r, p, n) == crossing_count(poly, p, n));
        assert(r.contains(p) == poly.contains(p)) by {
            if r.contains(p) {
                let i = choose|i: int| 0 <= i < n && r[i] == p;
                assert(poly[n - 1 - i] == p);
            }
            if poly.contains(p) {
                let i = choose|i: int| 0 <= i < n && poly[i] == p;
                assert(r[n - 1 - i] == p);
            }
        }
    }
}

// ---------------------------------------------------------------------------
// Lemmas on decimal text
// ---------------------------------------------------------------------------

proof fn lemma_nat_decimal_digits(n: nat)
    ensures
        nat_decimal(n).len() > 0,
        all_digits(nat_decimal(n)),
        digits_value(nat_decimal(n)) == n,
    decreases n,
{
    if n >= 10 {
        lemma_nat_decimal_digits(n / 10);
        let s = nat_decimal(n);
        assert(s.drop_last() =~= nat_decimal(n / 10));
        assert(s.last() == digit_char((n % 10) as int));
    }
    let d = if n < 10 { n as int } else { (n % 10) as int };
    assert(digit_char(d) as int == 48 + d);
    let s = nat_decimal(n);
    assert(s.last() == digit_char(d));
    if n < 10 {
        assert(s.drop_last() =~= Seq::<char>::empty());
        assert(digits_value(s.drop_last()) == 0);
    }
    assert(digits_value(s) == digits_value(s.drop_last()) * 10 + d);
}

proof fn lemma_int_decimal_literal(i: int)
    ensures
        literal_value(int_decimal(i)) == Some(i),
        !int_decimal(i).contains(','),
{
    if i < 0 {
        lemma_nat_decimal_digits((-i) as nat);
        let s = int_decimal(i);
        assert(s.drop_first() =~= nat_decimal((-i) as nat));
        assert forall|k: int| 0 <= k < s.len() implies s[k] != ',' by {
            if k > 0 {
                assert(s[k] == nat_decimal((-i) as nat)[k - 1]);
            }
        }
    } else {
        lemma_nat_decimal_digits(i as nat);
        let s = int_decimal(i);
        assert(is_digit(s[0]));
    }
}

proof fn lemma_find_from_first(s: Seq<char>, c: char, i: int, k: int)
    requires
        0 <= i <= k <= s.len(),
        k < s.len() ==> s[k] == c,
        forall|j: int| i <= j < k ==> s[j] != c,
    ensures
        find_from(s, c, i) == k,
    decreases k - i,
{
    if i < k {
        lemma_find_from_first(s, c, i + 1, k);
    }
}

/// Reading back the key of a point gives the point: `to_string` and
/// `from_string` are inverse, so keys name points one to one.
pub proof fn lemma_point_key_roundtrip(p: Point)
    ensures
        is_point_key(point_key(p)),
        parse_key(point_key(p)) == p,
{
    let a = int_decimal(p.x as int);
    let b = int_decimal(p.y as int);
    let s = point_key(p);
    lemma_int_decimal_literal(p.x as int);
    lemma_int_decimal_literal(p.y as int);
    assert forall|j: int| 0 <= j < a.len() implies s[j] != ',' by {
        assert(s[j] == a[j]);
    }
    assert(s[a.len() as int] == ',');
    lemma_find_from_first(s, ',', 0, a.len() as int);
    assert(key_field0(s) =~= a);
    let rest = s.skip(a.len() as int + 1);
    assert(rest =~= b);
    assert forall|j: int| 0 <= j < b.len() implies rest[j] != ',' by {}
    lemma_find_from_first(rest, ',', 0, b.len() as int);
    assert(key_field1(s) =~= b);
}

/// Two points with the same key are the same point.
pub proof fn lemma_point_key_injective(p: Point, q: Point)
    requires
        point_key(p) == point_key(q),
    ensures
        p == q,
{
    lemma_point_key_roundtrip(p);
    lemma_point_key_roundtrip(q);
}

pub proof fn lemma_digits_prefix(s: Seq<char>, k: int)
    requires
        all_digits(s),
        0 <= k <= s.len(),
    ensures
        0 <= digits_value(s.take(k)) <= digits_value(s),
    decreases s.len(),
{
    if s.len() > 0 {
        let t = s.drop_last();
        assert(all_digits(t)) by {
            assert forall|i: int| 0 <= i < t.len() implies is_digit(t[i]) by {
                assert(t[i] == s[i]);
            }
        }
        if k == s.len() {
            assert(s.take(k) =~= s);
            lemma_digits_prefix(t, k - 1);
            assert(t.take(k - 1) =~= t);
        } else {
            lemma_digits_prefix(t, k);
            assert(t.take(k) =~= s.take(k));
            lemma_digits_prefix(t, t.len() as int);
            assert(t.take(t.len() as int) =~= t);
            assert(is_digit(s[s.len() - 1]));
        }
    }
}

// ---------------------------------------------------------------------------
// Executable code
// ---------------------------------------------------------------------------

/// The one-character text of a decimal digit.
fn digit_str(d: u64) -> (r: &'static str)
    requires
        d < 10,
    ensures
        r@ == seq![digit_char(d as int)],
{
    proof {
        reveal_strlit("0");
        reveal_strlit("1");
        reveal_strlit("2");
        reveal_strlit("3");
        reveal_strlit("4");
        reveal_strlit("5");
        reveal_strlit("6");
        reveal_strlit("7");
        reveal_strlit("8");
        reveal_strlit("9");
    }
    if d == 0 {
        "0"
    } else if d == 1 {
        "1"
    } else if d == 2 {
        "2"
    } else if d == 3 {
        "3"
    } else if d == 4 {
        "4"
    } else if d == 5 {
        "5"
    } else if d == 6 {
        "6"
    } else if d == 7 {
        "7"
    } else if d == 8 {
        "8"
    } else {
        "9"
    }
}

fn append_nat_decimal(s: &mut String, n: u64)
    ensures
        final(s)@ == old(s)@ + nat_decimal(n as nat),
    decreases n,
{
    if n >= 10 {
        append_nat_decimal(s, n / 10);
    }
    s.append(digit_str(n % 10));
    proof {
        if n >= 10 {
            assert(nat_decimal(n as nat) == nat_decimal((n / 10) as nat).push(
                digit_char((n % 10) as int),
            ));
        }
    }
}

/// Appends the decimal text of `i` to `s`.
pub fn append_int_decimal(s: &mut String, i: i32)
    ensures
        final(s)@ == old(s)@ + int_decimal(i as int),
{
    if i < 0 {
        let minus = "-";
        proof {
            reveal_strlit("-");
        }
        s.append(minus);
        let mag: i64 = -(i as i64);
        append_nat_decimal(s, mag as u64);
    } else {
        append_nat_decimal(s, i as u64);
    }
}

/// The decimal text of `i`, as `format!("{}", i)` writes it.
pub fn int_to_string(i: i32) -> (r: String)
    ensures
        r@ == int_decimal(i as int),
{
    let mut s = String::new();
    append_int_decimal(&mut s, i);
    s
}

/// Index of the first `c` in `s` at or after `from`, or the length of `s`.
fn find_char(s: &str, c: char, from: usize) -> (r: usize)
    requires
        from <= s@.len(),
    ensures
        r == find_from(s@, c, from as int),
        from <= r <= s@.len(),
{
    let n = s.unicode_len();
    let mut i = from;
    while i < n && s.get_char(i) != c
        invariant
            n == s@.len(),
            from <= i <= n,
            forall|j: int| from <= j < i ==> s@[j] != c,
        decreases n - i,
    {
        i = i + 1;
    }
    proof {
        lemma_find_from_first(s@, c, from as int, i as int);
    }
    i
}

/// Reads the `i32` literal `s[lo..hi]`.
fn parse_i32_field(s: &str, lo: usize, hi: usize) -> (r: i32)
    requires
        lo <= hi <= s@.len(),
        is_i32_literal(s@.subrange(lo as int, hi as int)),
    ensures
        r as int == literal_value(s@.subrange(lo as int, hi as int)).unwrap(),
{
    let ghost f = s@.subrange(lo as int, hi as int);
    let first = s.get_char(lo);
    let negative = first == '-';
    let start: usize = if first == '-' || first == '+' {
        lo + 1
    } else {
        lo
    };
    let ghost d = s@.subrange(start as int, hi as int);
    proof {
        if first == '-' || first == '+' {
            assert(d =~= f.drop_first());
        } else {
            assert(d =~= f);
        }
        lemma_digits_prefix(d, d.len() as int);
        assert(d.take(d.len() as int) =~= d);
    }
    let mut v: i64 = 0;
    let mut k = start;
    while k < hi
        invariant
            lo <= start <= k <= hi <= s@.len(),
            d == s@.subrange(start as int, hi as int),
            all_digits(d),
            digits_value(d) <= 0x8000_0000,
            v as int == digits_value(d.take(k - start)),
        decreases hi - k,
    {
        let c = s.get_char(k);
        proof {
            assert(c == d[k - start]);
            assert(d.take(k - start + 1).drop_last() =~= d.take(k - start));
            lemma_digits_prefix(d, k - start + 1);
        }
        let digit: i64 = (c as u32 - 48u32) as i64;
        v = v * 10 + digit;
        k = k + 1;
    }
    proof {
        assert(d.take(k - start) =~= d);
    }
    if negative {
        (-v) as i32
    } else {
        v as i32
    }
}

/// Whether the ray from `p` crosses the edge `vi`–`vj` (see `crosses_right`).
fn edge_crossed(p: &Point, vi: &Point, vj: &Point) -> (r: bool)
    ensures
        r == crosses_right(*p, *vi, *vj),
{
    if (vi.y > p.y) != (vj.y > p.y) {
        let dy: i128 = vj.y as i128 - vi.y as i128;
        let ax: i128 = p.x as i128 - vi.x as i128;
        let dx: i128 = vj.x as i128 - vi.x as i128;
        let ay: i128 = p.y as i128 - vi.y as i128;
        assert(-0x1_0000_0000 * 0x1_0000_0000 <= ax * dy <= 0x1_0000_0000 * 0x1_0000_0000)
            by (nonlinear_arith)
            requires
                -0x1_0000_0000 <= ax <= 0x1_0000_0000,
                -0x1_0000_0000 <= dy <= 0x1_0000_0000,
        ;
        assert(-0x1_0000_0000 * 0x1_0000_0000 <= dx * ay <= 0x1_0000_0000 * 0x1_0000_0000)
            by (nonlinear_arith)
            requires
                -0x1_0000_0000 <= dx <= 0x1_0000_0000,
                -0x1_0000_0000 <= ay <= 0x1_0000_0000,
        ;
        let lhs = ax * dy;
        let rhs = dx * ay;
        if dy > 0 {
            lhs < rhs
        } else {
            lhs > rhs
        }
    } else {
        false
    }
}

impl Point {
    pub fn new(x: i32, y: i32) -> (r: Point)
        ensures
            r == (Point { x, y }),
    {
        Point { x, y }
    }

    /// The key `"x,y"` of the point.
    pub fn to_string(&self) -> (r: String)
        ensures
            r@ == point_key(*self),
    {
        let mut s = String::new();
        append_int_decimal(&mut s, self.x);
        let comma = ",";
        proof {
            reveal_strlit(",");
        }
        s.append(comma);
        append_int_decimal(&mut s, self.y);
        s
    }

    pub fn equals(&self, other: &Point) -> (r: bool)
        ensures
            r == (*self == *other),
    {
        self.x == other.x && self.y == other.y
    }

    /// The point moved by `(dx, dy)`.
    pub fn add(&self, dx: i32, dy: i32) -> (r: Point)
        requires
            i32::MIN <= self.x + dx <= i32::MAX,
            i32::MIN <= self.y + dy <= i32::MAX,
        ensures
            r.x == self.x + dx,
            r.y == self.y + dy,
    {
        Point { x: self.x + dx, y: self.y + dy }
    }

    /// Whether the point lies on a board of `size` by `size` cells.
    pub fn is_within_bounds(&self, size: i32) -> (r: bool)
        ensures
            r == (0 <= self.x < size && 0 <= self.y < size),
    {
        self.x >= 0 && self.y >= 0 && self.x < size && self.y < size
    }

    /// The point that a key `"x,y"` names.
    pub fn from_string(key: &str) -> (r: Point)
        requires
            is_point_key(key@),
        ensures
            r == parse_key(key@),
    {
        let n = key.unicode_len();
        let i = find_char(key, ',', 0);
        assert(key@.subrange(0, i as int) =~= key_field0(key@));
        let x = parse_i32_field(key, 0, i);
        let j = find_char(key, ',', i + 1);
        proof {
            let rest = key@.skip(i + 1);
            lemma_find_shift(key@, ',', i as int + 1, 0);
            assert(key@.subrange(i + 1, j as int) =~= key_field1(key@));
        }
        let y = parse_i32_field(key, i + 1, j);
        Point { x, y }
    }

    /// Whether the point lies strictly inside `polygon` (see `in_polygon`).
    pub fn is_point_in_polygon(&self, polygon: &[Point]) -> (r: bool)
        ensures
            r == in_polygon(*self, polygon@),
    {
        let n = polygon.len();
        let mut k: usize = 0;
        while k < n
            invariant
                n == polygon@.len(),
                k <= n,
                forall|j: int| 0 <= j < k ==> polygon@[j] != *self,
            decreases n - k,
        {
            if polygon[k].equals(self) {
                return false;
            }
            k = k + 1;
        }
        if n == 0 {
            return false;
        }
        let mut inside = false;
        let mut j: usize = n - 1;
        let mut i: usize = 0;
        while i < n
            invariant
                n == polygon@.len(),
                n > 0,
                i <= n,
                j == prev_index(n as int, i as int) || i == n,
                i < n ==> j == prev_index(n as int, i as int),
                inside == (crossing_count(polygon@, *self, i as int) % 2 == 1),
            decreases n - i,
        {
            let crossed = edge_crossed(self, &polygon[i], &polygon[j]);
            if crossed {
                inside = !inside;
            }
            j = i;
            i = i + 1;
        }
        inside
    }
}

proof fn lemma_find_shift(s: Seq<char>, c: char, off: int, i: int)
    requires
        0 <= off <= s.len(),
        0 <= i,
    ensures
        find_from(s, c, off + i) == off + find_from(s.skip(off), c, i),
    decreases s.len() - off - i,
{
    if off + i < s.len() {
        if s[off + i] != c {
            lemma_find_shift(s, c, off, i + 1);
        }
    }
}

} // verus!
