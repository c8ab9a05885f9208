use vstd::prelude::*;
use vstd::std_specs::iter::IteratorSpec;
use std::collections::{HashMap, HashSet};
use crate::geometry::{IVec2, pos_key, key_of, lemma_pos_key_injective};
use crate::entities::spawn_config::{append_decimal, decimal};

verus! {

/// The pieces of `s` between occurrences of `sep`, as `str::split` gives
/// them, except the last one: the pieces closed so far, and the open one.
pub open spec fn split_state(s: Seq<char>, sep: char) -> (Seq<Seq<char>>, Seq<char>)
    decreases s.len(),
{
    if s.len() == 0 {
        (Seq::empty(), Seq::empty())
    } else {
        let (done, cur) = split_state(s.drop_last(), sep);
        if s.last() == sep {
            (done.push(cur), Seq::empty())
        } else {
            (done, cur.push(s.last()))
        }
    }
}

/// The pieces of `s` between occurrences of `sep` (`str::split`): always
/// at least one, possibly empty.
pub open spec fn split_on(s: Seq<char>, sep: char) -> Seq<Seq<char>> {
    split_state(s, sep).0.push(split_state(s, sep).1)
}

/// Splits `s` at every `sep`.
fn split_chars(s: &Vec<char>, sep: char) -> (r: Vec<Vec<char>>)
    ensures
        r@.map_values(|v: Vec<char>| v@) == split_on(s@, sep),
{
    let mut done: Vec<Vec<char>> = Vec::new();
    let mut cur: Vec<char> = Vec::new();
    let mut i: usize = 0;
    while i < s.len()
        invariant
            0 <= i <= s.len(),
            (done@.map_values(|v: Vec<char>| v@), cur@) == split_state(s@.take(i as int), sep),
        decreases s.len() - i,
    {
        let c = s[i];
        proof {
            assert(s@.take(i + 1).drop_last() =~= s@.take(i as int));
            assert(s@.take(i + 1).last() == c);
        }
        if c == sep {
            let ghost before = done@;
            let piece = cur;
            done.push(piece);
            cur = Vec::new();
            proof {
                assert(done@.map_values(|v: Vec<char>| v@) =~= before.map_values(|v: Vec<char>| v@).push(piece@));
                assert(cur@ =~= Seq::<char>::empty());
            }
        } else {
            cur.push(c);
        }
        i = i + 1;
    }
    proof {
        assert(s@.take(s.len() as int) =~= s@);
    }
    let ghost before = done@;
    let last = cur;
    done.push(last);
    proof {
        assert(done@.map_values(|v: Vec<char>| v@) =~= before.map_values(|v: Vec<char>| v@).push(last@));
    }
    done
}

/// The characters of a string, in order.
fn chars_of(text: &str) -> (r: Vec<char>)
    ensures
        r@ == text@,
{
    let mut out: Vec<char> = Vec::new();
    let mut it = text.chars();
    loop
        invariant
            out@ + it.remaining() == text@,
            it.obeys_prophetic_iter_laws(),
            it.decrease() is Some,
        ensures
            out@ == text@,
        decreases it.decrease()->0,
    {
        let ghost before = it.remaining();
        match it.next() {
            Some(c) => {
                proof {
                    assert(before == seq![c] + it.remaining());
                }
                out.push(c);
                proof {
                    assert(out@ + it.remaining() =~= text@);
                }
            },
            None => {
                proof {
                    assert(out@ =~= text@);
                }
                break;
            },
        }
    }
    out
}

/// An ASCII decimal digit.
pub open spec fn is_digit(c: char) -> bool {
    '0' <= c <= '9'
}

/// The number written by the decimal digits `s`.
pub open spec fn digits_value(s: Seq<char>) -> nat
    decreases s.len(),
{
    if s.len() == 0 {
        0
    } else {
        digits_value(s.drop_last()) * 10 + ((s.last() as int) - ('0' as int)) as nat
    }
}

/// Every character of `s` is a decimal digit.
pub open spec fn all_digits(s: Seq<char>) -> bool {
    forall|i: int| 0 <= i < s.len() ==> is_digit(#[trigger] s[i])
}

/// `s` without its leading sign, if it has one.
pub open spec fn unsigned_part(s: Seq<char>) -> Seq<char> {
    if s.len() > 0 && (s[0] == '+' || s[0] == '-') {
        s.skip(1)
    } else {
        s
    }
}

/// What `str::parse::<i32>` gives for `s`: an optional `+` or `-` sign,
/// then one or more decimal digits, whose value must fit in an `i32`.
pub open spec fn parse_i32(s: Seq<char>) -> Option<i32> {
    let body = unsigned_part(s);
    if s.len() == 0 || body.len() == 0 || !all_digits(body) {
        None
    } else {
        let v: int = if s[0] == '-' { -(digits_value(body) as int) } else { digits_value(body) as int };
        if i32::MIN <= v <= i32::MAX {
            Some(v as i32)
        } else {
            None
        }
    }
}

/// A bound above every `i32` magnitude: digit values are tracked up to it.
pub const VALUE_CAP: i64 = 2147483649;

/// Parses `s[from..to]` as an `i32` (see `parse_i32`).
fn parse_i32_chars(s: &Vec<char>, from: usize, to: usize) -> (r: Option<i32>)
    requires
        from <= to <= s.len(),
    ensures
        r == parse_i32(s@.subrange(from as int, to as int)),
{
    let ghost t = s@.subrange(from as int, to as int);
    if from == to {
        return None;
    }
    let neg = s[from] == '-';
    let start = if s[from] == '+' || s[from] == '-' { from + 1 } else { from };
    let ghost body = unsigned_part(t);
    proof {
        assert(t[0] == s@[from as int]);
        assert(body =~= s@.subrange(start as int, to as int));
        assert(neg == (t[0] == '-'));
    }
    if start == to {
        return None;
    }
    let mut acc: i64 = 0;
    let mut j: usize = start;
    while j < to
        invariant
            start <= j <= to <= s.len(),
            from < to,
            start < to,
            t == s@.subrange(from as int, to as int),
            body == unsigned_part(t),
            neg == (t[0] == '-'),
            body == s@.subrange(start as int, to as int),
            0 <= acc <= VALUE_CAP,
            acc == if digits_value(body.take(j - start)) < VALUE_CAP {
                digits_value(body.take(j - start)) as int
            } else {
                VALUE_CAP as int
            },
            forall|i: int| 0 <= i < j - start ==> is_digit(#[trigger] body[i]),
        decreases to - j,
    {
        let c = s[j];
        proof {
            assert(body[j - start] == c);
        }
        if !('0' <= c && c <= '9') {
            proof {
                assert(!is_digit(body[j - start]));
                assert(body.len() > 0);
                assert(!all_digits(body));
            }
            return None;
        }
        let d: i64 = (c as u32 - '0' as u32) as i64;
        proof {
            let k = j - start;
            assert(body.take(k + 1).drop_last() =~= body.take(k));
            assert(body.take(k + 1).last() == c);
        }
        let next = acc * 10 + d;
        acc = if next > VALUE_CAP { VALUE_CAP } else { next };
        j = j + 1;
    }
    proof {
        assert(body.take(to - start) =~= body);
    }
    let v: i64 = if neg { -acc } else { acc };
    if -2147483648 <= v && v <= 2147483647 {
        Some(v as i32)
    } else {
        None
    }
}

/// `s` starts with `pre`.
pub open spec fn has_prefix(s: Seq<char>, pre: Seq<char>) -> bool {
    pre.len() <= s.len() && s.take(pre.len() as int) == pre
}

pub open spec fn center_x_key() -> Seq<char> {
    seq!['c', 'e', 'n', 't', 'e', 'r', '_', 'x', '=']
}

pub open spec fn center_y_key() -> Seq<char> {
    seq!['c', 'e', 'n', 't', 'e', 'r', '_', 'y', '=']
}

pub open spec fn radius_key() -> Seq<char> {
    seq!['r', 'a', 'd', 'i', 'u', 's', '=']
}

pub open spec fn coords_key() -> Seq<char> {
    seq!['c', 'o', 'o', 'r', 'd', 's', '=']
}

/// Index of the first `c` in `s`.
pub open spec fn first_index(s: Seq<char>, c: char) -> Option<int>
    decreases s.len(),
{
    if s.len() == 0 {
        None
    } else {
        match first_index(s.drop_last(), c) {
            Some(i) => Some(i),
            None => if s.last() == c {
                Some(s.len() - 1)
            } else {
                None
            },
        }
    }
}

/// A pair `x,y` of `i32`s (split at the first comma, as `split_once`).
pub open spec fn parse_pair(s: Seq<char>) -> Option<(i32, i32)> {
    match first_index(s, ',') {
        Some(k) => match (parse_i32(s.take(k)), parse_i32(s.skip(k + 1))) {
            (Some(x), Some(y)) => Some((x, y)),
            _ => None,
        },
        None => None,
    }
}

/// The square-area part of a chunk query.
#[derive(Debug, Clone, Copy, PartialEq, Eq, Structural)]
pub struct ChunkQuery {
    pub center_x: i32,
    pub center_y: i32,
    pub radius: i32,
    /// Some center or radius parameter was given.
    pub has_center: bool,
}

/// The query before any parameter: center (0, 0), radius 1.
pub open spec fn initial_query() -> ChunkQuery {
    ChunkQuery { center_x: 0, center_y: 0, radius: 1, has_center: false }
}

/// The square-area part after the parameter `p`: a `center_x=`,
/// `center_y=` or `radius=` parameter with a valid `i32` sets its value.
pub open spec fn step_query(q: ChunkQuery, p: Seq<char>) -> ChunkQuery {
    if has_prefix(p, center_x_key()) {
        match parse_i32(p.skip(9)) {
            Some(v) => ChunkQuery { center_x: v, has_center: true, ..q },
            None => q,
        }
    } else if has_prefix(p, center_y_key()) {
        match parse_i32(p.skip(9)) {
            Some(v) => ChunkQuery { center_y: v, has_center: true, ..q },
            None => q,
        }
    } else if has_prefix(p, radius_key()) {
        match parse_i32(p.skip(7)) {
            Some(v) => ChunkQuery { radius: v, has_center: true, ..q },
            None => q,
        }
    } else {
        q
    }
}

/// The explicit chunks after the parameter `p`: a `coords=x,y` parameter
/// with two valid `i32`s adds `(x, y)`.
pub open spec fn step_coords(c: Seq<(i32, i32)>, p: Seq<char>) -> Seq<(i32, i32)> {
    if has_prefix(p, center_x_key()) || has_prefix(p, center_y_key()) || has_prefix(p, radius_key()) {
        c
    } else if has_prefix(p, coords_key()) {
        match parse_pair(p.skip(7)) {
            Some(xy) => c.push(xy),
            None => c,
        }
    } else {
        c
    }
}

pub open spec fn fold_query(ps: Seq<Seq<char>>) -> ChunkQuery
    decreases ps.len(),
{
    if ps.len() == 0 {
        initial_query()
    } else {
        step_query(fold_query(ps.drop_last()), ps.last())
    }
}

pub open spec fn fold_coords(ps: Seq<Seq<char>>) -> Seq<(i32, i32)>
    decreases ps.len(),
{
    if ps.len() == 0 {
        Seq::empty()
    } else {
        step_coords(fold_coords(ps.drop_last()), ps.last())
    }
}

/// The chunks `(x, ylo) .. (x, yend - 1)`.
pub open spec fn square_column(x: int, ylo: int, yend: int) -> Seq<(i32, i32)>
    decreases yend - ylo,
{
    if yend <= ylo {
        Seq::empty()
    } else {
        square_column(x, ylo, yend - 1).push((x as i32, (yend - 1) as i32))
    }
}

/// The chunks of columns `xlo .. xend - 1`, rows `ylo .. yend - 1`,
/// column by column.
pub open spec fn square_area(xlo: int, xend: int, ylo: int, yend: int) -> Seq<(i32, i32)>
    decreases xend - xlo,
{
    if xend <= xlo {
        Seq::empty()
    } else {
        square_area(xlo, xend - 1, ylo, yend) + square_column(xend - 1, ylo, yend)
    }
}

/// The parameters of the query part of `path` (after the first `?`, up
/// to the next one), if there is a query part.
pub open spec fn query_params(path: Seq<char>) -> Option<Seq<Seq<char>>> {
    let pieces = split_on(path, '?');
    if pieces.len() < 2 {
        None
    } else {
        Some(split_on(pieces[1], '&'))
    }
}

/// The square of the query stays inside the `i32` range.
pub open spec fn square_in_range(path: Seq<char>) -> bool {
    match query_params(path) {
        Some(ps) => {
            let q = fold_query(ps);
            q.has_center ==> {
                &&& i32::MIN <= q.center_x - q.radius
                &&& q.center_x + q.radius <= i32::MAX
                &&& i32::MIN <= q.center_y - q.radius
                &&& q.center_y + q.radius <= i32::MAX
            }
        },
        None => true,
    }
}

/// The chunks a request path asks for: with a query part, the explicit
/// `coords=x,y` chunks in order, then, when a center or radius was given,
/// the square of chunks of that radius around the center (default (0, 0)
/// and 1), column by column; without any of these, the chunk (0, 0).
pub open spec fn chunk_coords_spec(path: Seq<char>) -> Seq<(i32, i32)> {
    match query_params(path) {
        None => seq![(0i32, 0i32)],
        Some(ps) => {
            let q = fold_query(ps);
            let c = fold_coords(ps);
            if q.has_center {
                c + square_area(
                    q.center_x - q.radius,
                    q.center_x + q.radius + 1,
                    q.center_y - q.radius,
                    q.center_y + q.radius + 1,
                )
            } else if c.len() > 0 {
                c
            } else {
                seq![(0i32, 0i32)]
            }
        },
    }
}

/// Whether `s` starts with `pre`.
fn starts_with(s: &Vec<char>, pre: &Vec<char>) -> (b: bool)
    ensures
        b == has_prefix(s@, pre@),
{
    if pre.len() > s.len() {
        return false;
    }
    let mut i: usize = 0;
    while i < pre.len()
        invariant
            0 <= i <= pre.len() <= s.len(),
            forall|j: int| 0 <= j < i ==> s@[j] == pre@[j],
        decreases pre.len() - i,
    {
        if s[i] != pre[i] {
            proof {
                assert(s@.take(pre.len() as int)[i as int] != pre@[i as int]);
            }
            return false;
        }
        i = i + 1;
    }
    proof {
        assert(s@.take(pre.len() as int) =~= pre@);
    }
    true
}

/// Index of the first `c` in `s[from..]`, counted from the start of `s`.
fn find_char(s: &Vec<char>, from: usize, c: char) -> (r: Option<usize>)
    requires
        from <= s.len(),
    ensures
        match first_index(s@.skip(from as int), c) {
            Some(k) => r == Some((k + from) as usize),
            None => r is None,
        },
{
    let ghost t = s@.skip(from as int);
    let mut i: usize = from;
    while i < s.len()
        invariant
            from <= i <= s.len(),
            t == s@.skip(from as int),
            first_index(t.take(i - from), c) is None,
        decreases s.len() - i,
    {
        proof {
            assert(t.take(i + 1 - from).drop_last() =~= t.take(i - from));
            assert(t.take(i + 1 - from).last() == s@[i as int]);
        }
        if s[i] == c {
            proof {
                lemma_first_index_prefix(t, i + 1 - from, c);
            }
            return Some(i);
        }
        i = i + 1;
    }
    proof {
        assert(t.take(s.len() - from) =~= t);
    }
    None
}

/// A first match lies inside the sequence and holds the character.
proof fn lemma_first_index_bounds(s: Seq<char>, c: char)
    ensures
        first_index(s, c) matches Some(i) ==> 0 <= i < s.len() && s[i] == c,
    decreases s.len(),
{
    if s.len() > 0 {
        lemma_first_index_bounds(s.drop_last(), c);
    }
}

/// A first match within a prefix is the first match overall.
proof fn lemma_first_index_prefix(s: Seq<char>, n: int, c: char)
    requires
        0 < n <= s.len(),
        first_index(s.take(n), c) == Some(n - 1),
    ensures
        first_index(s, c) == Some(n - 1),
    decreases s.len(),
{
    if n < s.len() {
        assert(s.drop_last().take(n) =~= s.take(n));
        lemma_first_index_prefix(s.drop_last(), n, c);
    } else {
        assert(s.take(n) =~= s);
    }
}

/// Applies one query parameter to the square-area part and the explicit
/// chunks.
fn apply_param(q: &mut ChunkQuery, coords: &mut Vec<(i32, i32)>, p: &Vec<char>)
    ensures
        *final(q) == step_query(*old(q), p@),
        final(coords)@ == step_coords(old(coords)@, p@),
{
    let cx_key: Vec<char> = vec!['c', 'e', 'n', 't', 'e', 'r', '_', 'x', '='];
    let cy_key: Vec<char> = vec!['c', 'e', 'n', 't', 'e', 'r', '_', 'y', '='];
    let r_key: Vec<char> = vec!['r', 'a', 'd', 'i', 'u', 's', '='];
    let c_key: Vec<char> = vec!['c', 'o', 'o', 'r', 'd', 's', '='];
    proof {
        assert(cx_key@ =~= center_x_key());
        assert(cy_key@ =~= center_y_key());
        assert(r_key@ =~= radius_key());
        assert(c_key@ =~= coords_key());
    }
    if starts_with(p, &cx_key) {
        proof {
            assert(p@.subrange(9, p@.len() as int) =~= p@.skip(9));
        }
        match parse_i32_chars(p, 9, p.len()) {
            Some(v) => {
                q.center_x = v;
                q.has_center = true;
            },
            None => {},
        }
    } else if starts_with(p, &cy_key) {
        proof {
            assert(p@.subrange(9, p@.len() as int) =~= p@.skip(9));
        }
        match parse_i32_chars(p, 9, p.len()) {
            Some(v) => {
                q.center_y = v;
                q.has_center = true;
            },
            None => {},
        }
    } else if starts_with(p, &r_key) {
        proof {
            assert(p@.subrange(7, p@.len() as int) =~= p@.skip(7));
        }
        match parse_i32_chars(p, 7, p.len()) {
            Some(v) => {
                q.radius = v;
                q.has_center = true;
            },
            None => {},
        }
    } else if starts_with(p, &c_key) {
        let ghost rest = p@.skip(7);
        match find_char(p, 7, ',') {
            Some(k) => {
                proof {
                    match first_index(rest, ',') {
                        Some(j) => {
                            lemma_first_index_bounds(rest, ',');
                            assert(k == j + 7);
                            assert(p@.subrange(7, k as int) =~= rest.take(j));
                            assert(p@.subrange(k + 1, p@.len() as int) =~= rest.skip(j + 1));
                        },
                        None => {},
                    }
                }
                let x = parse_i32_chars(p, 7, k);
                let y = parse_i32_chars(p, k + 1, p.len());
                match (x, y) {
                    (Some(a), Some(b)) => {
                        coords.push((a, b));
                    },
                    _ => {},
                }
            },
            None => {},
        }
    }
}

/// Whether the square a request path asks for stays inside the `i32`
/// range (`square_in_range`): what `parse_chunk_coords` and the chunk
/// answers need of a path; a caller tests it first.
pub fn chunk_request_fits(path: &str) -> (b: bool)
    ensures
        b == square_in_range(path@),
{
    let chars = chars_of(path);
    let pieces = split_chars(&chars, '?');
    proof {
        assert(pieces@.map_values(|v: Vec<char>| v@).len() == pieces.len());
    }
    if pieces.len() < 2 {
        return true;
    }
    let params = split_chars(&pieces[1], '&');
    let ghost ps = params@.map_values(|v: Vec<char>| v@);
    proof {
        assert(pieces@.map_values(|v: Vec<char>| v@)[1] == pieces@[1]@);
        assert(query_params(path@) == Some(ps));
    }
    let mut q = ChunkQuery { center_x: 0, center_y: 0, radius: 1, has_center: false };
    let mut coords: Vec<(i32, i32)> = Vec::new();
    let mut i: usize = 0;
    while i < params.len()
        invariant
            0 <= i <= params.len(),
            ps == params@.map_values(|v: Vec<char>| v@),
            q == fold_query(ps.take(i as int)),
        decreases params.len() - i,
    {
        proof {
            assert(ps.take(i + 1).drop_last() =~= ps.take(i as int));
            assert(ps.take(i + 1).last() == params@[i as int]@);
        }
        apply_param(&mut q, &mut coords, &params[i]);
        i = i + 1;
    }
    proof {
        assert(ps.take(params.len() as int) =~= ps);
    }
    if !q.has_center {
        return true;
    }
    let cx = q.center_x as i64;
    let cy = q.center_y as i64;
    let r = q.radius as i64;
    i32::MIN as i64 <= cx - r && cx + r <= i32::MAX as i64 && i32::MIN as i64 <= cy - r && cy + r
        <= i32::MAX as i64
}

/// The chunks a request path asks for (see `chunk_coords_spec`); for
/// example `/api/chunks?coords=0,0&coords=1,0` or
/// `/api/chunks?center_x=0&center_y=0&radius=1`.
pub fn parse_chunk_coords(path: &str) -> (r: Vec<(i32, i32)>)
    requires
        square_in_range(path@),
    ensures
        r@ == chunk_coords_spec(path@),
{
    let chars = chars_of(path);
    let pieces = split_chars(&chars, '?');
    proof {
        assert(pieces@.map_values(|v: Vec<char>| v@).len() == pieces.len());
    }
    if pieces.len() < 2 {
        return vec![(0, 0)];
    }
    let params = split_chars(&pieces[1], '&');
    let ghost ps = params@.map_values(|v: Vec<char>| v@);
    proof {
        assert(pieces@.map_values(|v: Vec<char>| v@)[1] == pieces@[1]@);
        assert(query_params(path@) == Some(ps));
    }
    let mut q = ChunkQuery { center_x: 0, center_y: 0, radius: 1, has_center: false };
    let mut coords: Vec<(i32, i32)> = Vec::new();
    let mut i: usize = 0;
    while i < params.len()
        invariant
            0 <= i <= params.len(),
            ps == params@.map_values(|v: Vec<char>| v@),
            q == fold_query(ps.take(i as int)),
            coords@ == fold_coords(ps.take(i as int)),
        decreases params.len() - i,
    {
        proof {
            assert(ps.take(i + 1).drop_last() =~= ps.take(i as int));
            assert(ps.take(i + 1).last() == params@[i as int]@);
        }
        apply_param(&mut q, &mut coords, &params[i]);
        i = i + 1;
    }
    proof {
        assert(ps.take(params.len() as int) =~= ps);
    }
    if q.has_center {
        let ghost c0 = coords@;
        let xlo: i64 = q.center_x as i64 - q.radius as i64;
        let xhi: i64 = q.center_x as i64 + q.radius as i64;
        let ylo: i64 = q.center_y as i64 - q.radius as i64;
        let yhi: i64 = q.center_y as i64 + q.radius as i64;
        let mut x: i64 = xlo;
        while x <= xhi
            invariant
                i32::MIN <= xlo,
                xhi <= i32::MAX,
                i32::MIN <= ylo,
                yhi <= i32::MAX,
                xhi - xlo == yhi - ylo,
                xlo <= x || x == xlo,
                x <= xhi + 1 || x == xlo,
                coords@ == c0 + square_area(xlo as int, x as int, ylo as int, yhi + 1),
            decreases xhi + 1 - x,
        {
            let ghost before = coords@;
            let mut y: i64 = ylo;
            proof {
                assert(square_column(x as int, ylo as int, ylo as int) =~= Seq::<(i32, i32)>::empty());
                assert(coords@ =~= before + square_column(x as int, ylo as int, y as int));
            }
            while y <= yhi
                invariant
                    i32::MIN <= xlo <= x <= xhi <= i32::MAX,
                    xhi - xlo == yhi - ylo,
                    i32::MIN <= ylo,
                    yhi <= i32::MAX,
                    ylo <= y <= yhi + 1,
                    coords@ == before + square_column(x as int, ylo as int, y as int),
                decreases yhi + 1 - y,
            {
                coords.push((x as i32, y as i32));
                proof {
                    assert(coords@ =~= before + square_column(x as int, ylo as int, y + 1));
                }
                y = y + 1;
            }
            proof {
                assert(square_area(xlo as int, x + 1, ylo as int, yhi + 1) == square_area(
                    xlo as int,
                    x as int,
                    ylo as int,
                    yhi + 1,
                ) + square_column(x as int, ylo as int, yhi + 1));
                assert(coords@ =~= c0 + square_area(xlo as int, x + 1, ylo as int, yhi + 1));
            }
            x = x + 1;
        }
        proof {
            if xhi < xlo {
                assert(square_area(xlo as int, x as int, ylo as int, yhi + 1) == Seq::<(i32, i32)>::empty());
                assert(square_area(xlo as int, xhi + 1, ylo as int, yhi + 1) == Seq::<(i32, i32)>::empty());
            }
        }
        return coords;
    }
    if coords.len() > 0 {
        return coords;
    }
    vec![(0, 0)]
}


/// A row of tile names, as text.
pub open spec fn row_view(row: Vec<String>) -> Seq<Seq<char>> {
    Seq::new(row@.len(), |j: int| row@[j]@)
}

/// The rows of tile names of a layer, as text.
pub open spec fn tiles_view(t: Vec<Vec<String>>) -> Seq<Seq<Seq<char>>> {
    Seq::new(t@.len(), |i: int| row_view(t@[i]))
}

/// The rows of a layer, if there is one, as text.
pub open spec fn opt_tiles_view(t: Option<Vec<Vec<String>>>) -> Option<Seq<Seq<Seq<char>>>> {
    match t {
        Some(v) => Some(tiles_view(v)),
        None => None,
    }
}

/// A copy of the rows of a layer.
fn clone_tiles(t: &Vec<Vec<String>>) -> (r: Vec<Vec<String>>)
    ensures
        tiles_view(r) == tiles_view(*t),
{
    let mut r: Vec<Vec<String>> = Vec::new();
    let mut i: usize = 0;
    while i < t.len()
        invariant
            0 <= i <= t.len(),
            r@.len() == i,
            forall|a: int| 0 <= a < i ==> #[trigger] r@[a]@.len() == t@[a]@.len(),
            forall|a: int, b: int| 0 <= a < i && 0 <= b < r@[a]@.len() ==> #[trigger] r@[a]@[b]@ == t@[a]@[b]@,
        decreases t.len() - i,
    {
        let row = &t[i];
        let mut copy: Vec<String> = Vec::new();
        let mut j: usize = 0;
        while j < row.len()
            invariant
                0 <= j <= row.len(),
                copy@.len() == j,
                forall|b: int| 0 <= b < j ==> #[trigger] copy@[b]@ == row@[b]@,
            decreases row.len() - j,
        {
            copy.push(row[j].clone());
            j = j + 1;
        }
        r.push(copy);
        i = i + 1;
    }
    assert forall|a: int| 0 <= a < r@.len() implies #[trigger] tiles_view(r)[a] == tiles_view(*t)[a] by {
        assert(tiles_view(r)[a] =~= tiles_view(*t)[a]);
    }
    assert(tiles_view(r) =~= tiles_view(*t));
    r
}

/// One named layer of a chunk ("terrain", "resources", ...): rows of
/// tile names.
pub struct ChunkLayer {
    pub name: String,
    pub tiles: Vec<Vec<String>>,
}

/// The layers of `ls` by name; where a name comes twice, the later layer
/// counts.
pub open spec fn layers_map(ls: Seq<ChunkLayer>) -> Map<Seq<char>, Seq<Seq<Seq<char>>>>
    decreases ls.len(),
{
    if ls.len() == 0 {
        Map::empty()
    } else {
        layers_map(ls.drop_last()).insert(ls.last().name@, tiles_view(ls.last().tiles))
    }
}

/// No two layers of `ls` have the same name.
pub open spec fn names_unique(ls: Seq<ChunkLayer>) -> bool {
    forall|i: int, j: int| 0 <= i < j < ls.len() ==> ls[i].name@ != ls[j].name@
}

/// A name is a key of the layer map exactly when some layer has it.
proof fn lemma_layers_map_dom(ls: Seq<ChunkLayer>, n: Seq<char>)
    ensures
        layers_map(ls).contains_key(n) <==> exists|i: int| 0 <= i < ls.len() && ls[i].name@ == n,
    decreases ls.len(),
{
    if ls.len() > 0 {
        let p = ls.drop_last();
        lemma_layers_map_dom(p, n);
        if exists|i: int| 0 <= i < p.len() && p[i].name@ == n {
            let i = choose|i: int| 0 <= i < p.len() && p[i].name@ == n;
            assert(ls[i] == p[i]);
        }
        if exists|i: int| 0 <= i < ls.len() && ls[i].name@ == n {
            let i = choose|i: int| 0 <= i < ls.len() && ls[i].name@ == n;
            if i < ls.len() - 1 {
                assert(p[i] == ls[i]);
            }
        }
    }
}

/// In a list without repeated names, each layer is found under its name.
proof fn lemma_layers_map_index(ls: Seq<ChunkLayer>, i: int)
    requires
        names_unique(ls),
        0 <= i < ls.len(),
    ensures
        layers_map(ls).contains_key(ls[i].name@),
        layers_map(ls)[ls[i].name@] == tiles_view(ls[i].tiles),
    decreases ls.len(),
{
    if i < ls.len() - 1 {
        let p = ls.drop_last();
        assert(p[i] == ls[i]);
        lemma_layers_map_index(p, i);
        assert(ls[i].name@ != ls[ls.len() - 1].name@);
    }
}

/// Two lists whose layers agree by name and rows have the same map.
proof fn lemma_layers_map_same(a: Seq<ChunkLayer>, b: Seq<ChunkLayer>)
    requires
        a.len() == b.len(),
        forall|i: int| 0 <= i < a.len() ==> #[trigger] a[i].name@ == b[i].name@,
        forall|i: int| 0 <= i < a.len() ==> #[trigger] tiles_view(a[i].tiles) == tiles_view(b[i].tiles),
    ensures
        layers_map(a) == layers_map(b),
    decreases a.len(),
{
    if a.len() > 0 {
        let (pa, pb) = (a.drop_last(), b.drop_last());
        assert forall|i: int| 0 <= i < pa.len() implies #[trigger] pa[i].name@ == pb[i].name@ by {
            assert(pa[i] == a[i] && pb[i] == b[i]);
        }
        assert forall|i: int| 0 <= i < pa.len() implies #[trigger] tiles_view(pa[i].tiles) == tiles_view(pb[i].tiles) by {
            assert(pa[i] == a[i] && pb[i] == b[i]);
        }
        lemma_layers_map_same(pa, pb);
        assert(a[a.len() - 1].name@ == b[b.len() - 1].name@);
        assert(tiles_view(a[a.len() - 1].tiles) == tiles_view(b[b.len() - 1].tiles));
    }
}

/// Replacing the layer that has a name by another of that name updates
/// the map at that name only.
proof fn lemma_layers_map_replace(ls: Seq<ChunkLayer>, i: int, l: ChunkLayer)
    requires
        names_unique(ls),
        0 <= i < ls.len(),
        l.name@ == ls[i].name@,
    ensures
        names_unique(ls.update(i, l)),
        layers_map(ls.update(i, l)) == layers_map(ls).insert(l.name@, tiles_view(l.tiles)),
{
    let u = ls.update(i, l);
    assert(names_unique(u)) by {
        assert forall|a: int, b: int| 0 <= a < b < u.len() implies u[a].name@ != u[b].name@ by {
            assert(u[a].name@ == ls[a].name@ && u[b].name@ == ls[b].name@);
        }
    }
    assert forall|n: Seq<char>| #![auto] layers_map(u).contains_key(n) == layers_map(ls).insert(l.name@, tiles_view(l.tiles)).contains_key(n) by {
        lemma_layers_map_dom(u, n);
        lemma_layers_map_dom(ls, n);
        if exists|a: int| 0 <= a < ls.len() && ls[a].name@ == n {
            let a = choose|a: int| 0 <= a < ls.len() && ls[a].name@ == n;
            assert(u[a].name@ == n);
        }
        if exists|a: int| 0 <= a < u.len() && u[a].name@ == n {
            let a = choose|a: int| 0 <= a < u.len() && u[a].name@ == n;
            assert(ls[a].name@ == n);
        }
    }
    assert forall|n: Seq<char>| #![auto] layers_map(u).contains_key(n) implies layers_map(u)[n] == layers_map(ls).insert(l.name@, tiles_view(l.tiles))[n] by {
        lemma_layers_map_dom(u, n);
        let a = choose|a: int| 0 <= a < u.len() && u[a].name@ == n;
        lemma_layers_map_index(u, a);
        if a != i {
            lemma_layers_map_index(ls, a);
        }
    }
    assert(layers_map(u) =~= layers_map(ls).insert(l.name@, tiles_view(l.tiles)));
}

/// Where `name` sits in `ls`, if it is there.
fn find_layer(ls: &Vec<ChunkLayer>, name: &String) -> (r: Option<usize>)
    ensures
        match r {
            Some(i) => i < ls@.len() && ls@[i as int].name@ == name@,
            None => forall|i: int| 0 <= i < ls@.len() ==> #[trigger] ls@[i].name@ != name@,
        },
{
    let mut i: usize = 0;
    while i < ls.len()
        invariant
            0 <= i <= ls.len(),
            forall|a: int| 0 <= a < i ==> #[trigger] ls@[a].name@ != name@,
        decreases ls.len() - i,
    {
        if ls[i].name == *name {
            return Some(i);
        }
        i = i + 1;
    }
    None
}

/// Puts layer `l` into `ls`, in place of the layer of the same name if
/// there is one.
fn put_layer(ls: &mut Vec<ChunkLayer>, l: ChunkLayer)
    requires
        names_unique(old(ls)@),
    ensures
        names_unique(final(ls)@),
        layers_map(final(ls)@) == layers_map(old(ls)@).insert(l.name@, tiles_view(l.tiles)),
{
    match find_layer(ls, &l.name) {
        Some(i) => {
            let ghost before = ls@;
            let ghost lg = l;
            ls.set(i, l);
            proof {
                lemma_layers_map_replace(before, i as int, lg);
            }
        },
        None => {
            let ghost before = ls@;
            let ghost lg = l;
            ls.push(l);
            proof {
                assert(ls@.drop_last() =~= before);
                assert forall|a: int, b: int| 0 <= a < b < ls@.len() implies ls@[a].name@ != ls@[b].name@ by {
                    if b == ls@.len() - 1 {
                        assert(before[a].name@ != lg.name@);
                    } else {
                        assert(before[a] == ls@[a] && before[b] == ls@[b]);
                    }
                }
            }
        },
    }
}

/// A copy of a list of layers.
fn clone_layers(ls: &Vec<ChunkLayer>) -> (r: Vec<ChunkLayer>)
    ensures
        r@.len() == ls@.len(),
        forall|i: int| 0 <= i < ls@.len() ==> #[trigger] r@[i].name@ == ls@[i].name@,
        forall|i: int| 0 <= i < ls@.len() ==> #[trigger] tiles_view(r@[i].tiles) == tiles_view(ls@[i].tiles),
{
    let mut r: Vec<ChunkLayer> = Vec::new();
    let mut i: usize = 0;
    while i < ls.len()
        invariant
            0 <= i <= ls.len(),
            r@.len() == i,
            forall|a: int| 0 <= a < i ==> #[trigger] r@[a].name@ == ls@[a].name@,
            forall|a: int| 0 <= a < i ==> #[trigger] tiles_view(r@[a].tiles) == tiles_view(ls@[a].tiles),
        decreases ls.len() - i,
    {
        let layer = &ls[i];
        let name = layer.name.clone();
        assert(name@ == ls@[i as int].name@);
        let tiles = clone_tiles(&layer.tiles);
        let ghost before = r@;
        let l = ChunkLayer { name, tiles };
        let ghost lg = l;
        r.push(l);
        proof {
            assert(r@ == before.push(lg));
            assert forall|a: int| 0 <= a < i + 1 implies #[trigger] r@[a].name@ == ls@[a].name@ by {
                if a < i {
                    assert(r@[a] == before[a]);
                    assert(before[a].name@ == ls@[a].name@);
                } else {
                    assert(r@[a] == lg);
                }
            }
            assert forall|a: int| 0 <= a < i + 1 implies #[trigger] tiles_view(r@[a].tiles) == tiles_view(ls@[a].tiles) by {
                if a < i {
                    assert(r@[a] == before[a]);
                    assert(tiles_view(before[a].tiles) == tiles_view(ls@[a].tiles));
                } else {
                    assert(r@[a] == lg);
                }
            }
        }
        i = i + 1;
    }
    r
}

/// The hash-map key of a chunk.
pub open spec fn chunk_key(c: (i32, i32)) -> u64 {
    pos_key(IVec2 { x: c.0, y: c.1 })
}

/// The layers that chunk `c` of `m` has under `name`, if any.
pub open spec fn layer_lookup(
    m: Map<(i32, i32), Map<Seq<char>, Seq<Seq<Seq<char>>>>>,
    c: (i32, i32),
    name: Seq<char>,
) -> Option<Seq<Seq<Seq<char>>>> {
    if m.contains_key(c) && m[c].contains_key(name) {
        Some(m[c][name])
    } else {
        None
    }
}

/// The layers that chunk `c` of `m` has, with `name` set to `t`.
pub open spec fn with_layer(
    m: Map<(i32, i32), Map<Seq<char>, Seq<Seq<Seq<char>>>>>,
    c: (i32, i32),
    name: Seq<char>,
    t: Seq<Seq<Seq<char>>>,
) -> Map<(i32, i32), Map<Seq<char>, Seq<Seq<Seq<char>>>>> {
    let old_layers = if m.contains_key(c) { m[c] } else { Map::empty() };
    m.insert(c, old_layers.insert(name, t))
}

/// Once a layer is set, reading it gives back the rows written, and
/// reading any other layer, of that chunk or another, gives what it gave
/// before.
pub proof fn law_layer_read_after_write(
    m: Map<(i32, i32), Map<Seq<char>, Seq<Seq<Seq<char>>>>>,
    c: (i32, i32),
    name: Seq<char>,
    t: Seq<Seq<Seq<char>>>,
    c2: (i32, i32),
    name2: Seq<char>,
)
    ensures
        layer_lookup(with_layer(m, c, name, t), c, name) == Some(t),
        (c2, name2) != (c, name) ==> layer_lookup(with_layer(m, c, name, t), c2, name2) == layer_lookup(m, c2, name2),
{
}

/// The world description served to map viewers: a fixed center and size,
/// then the seed, the name and whether the world is loaded.
pub open spec fn world_info_text(name: Seq<char>, seed: u64, loaded: bool) -> Seq<char> {
    "{\"center_chunk\": {\"x\": 0, \"y\": 0}, \"world_size\": {\"width\": 20, \"height\": 20}, \"seed\": "@
        + decimal(seed as nat) + ", \"name\": \""@ + name + "\", \"is_loaded\": "@ + (if loaded {
        "true"@
    } else {
        "false"@
    }) + "}"@
}

/// `items` with `sep` between each two neighbours.
pub open spec fn join(items: Seq<Seq<char>>, sep: Seq<char>) -> Seq<char>
    decreases items.len(),
{
    if items.len() == 0 {
        Seq::empty()
    } else if items.len() == 1 {
        items[0]
    } else {
        join(items.drop_last(), sep) + sep + items.last()
    }
}

proof fn lemma_join_push(items: Seq<Seq<char>>, sep: Seq<char>, x: Seq<char>)
    ensures
        join(items.push(x), sep) == if items.len() == 0 {
            x
        } else {
            join(items, sep) + sep + x
        },
{
    assert(items.push(x).drop_last() =~= items);
}

/// A tile name as a JSON string (the name is not escaped).
pub open spec fn quoted(t: Seq<char>) -> Seq<char> {
    "\""@ + t + "\""@
}

/// A row of tile names as a JSON array.
pub open spec fn row_text(row: Seq<Seq<char>>) -> Seq<char> {
    "["@ + join(row.map_values(|t: Seq<char>| quoted(t)), ", "@) + "]"@
}

/// The rows of a layer as JSON arrays, separated by commas.
pub open spec fn rows_text(t: Seq<Seq<Seq<char>>>) -> Seq<char> {
    join(t.map_values(|r: Seq<Seq<char>>| row_text(r)), ", "@)
}

/// Appends a row of tile names as a JSON array.
fn append_row(s: &mut String, row: &Vec<String>)
    ensures
        final(s)@ == old(s)@ + row_text(row_view(*row)),
{
    let ghost base = old(s)@;
    let ghost rv = row_view(*row);
    s.append("[");
    let mut j: usize = 0;
    proof {
        assert(rv.take(0).map_values(|t: Seq<char>| quoted(t)) =~= Seq::<Seq<char>>::empty());
    }
    while j < row.len()
        invariant
            0 <= j <= row.len(),
            rv == row_view(*row),
            s@ == base + "["@ + join(rv.take(j as int).map_values(|t: Seq<char>| quoted(t)), ", "@),
        decreases row.len() - j,
    {
        let ghost before = rv.take(j as int).map_values(|t: Seq<char>| quoted(t));
        if j > 0 {
            s.append(", ");
        }
        s.append("\"");
        s.append(row[j].as_str());
        s.append("\"");
        proof {
            assert(rv.take(j + 1).map_values(|t: Seq<char>| quoted(t)) =~= before.push(quoted(rv[j as int])));
            lemma_join_push(before, ", "@, quoted(rv[j as int]));
            assert(s@ =~= base + "["@ + join(rv.take(j + 1).map_values(|t: Seq<char>| quoted(t)), ", "@));
        }
        j = j + 1;
    }
    s.append("]");
    proof {
        assert(rv.take(row.len() as int) =~= rv);
        assert(s@ =~= base + row_text(rv));
    }
}

/// Appends the rows of a layer as JSON arrays, separated by commas.
fn append_rows(s: &mut String, t: &Vec<Vec<String>>)
    ensures
        final(s)@ == old(s)@ + rows_text(tiles_view(*t)),
{
    let ghost base = old(s)@;
    let ghost tv = tiles_view(*t);
    let mut i: usize = 0;
    proof {
        assert(tv.take(0).map_values(|r: Seq<Seq<char>>| row_text(r)) =~= Seq::<Seq<char>>::empty());
    }
    while i < t.len()
        invariant
            0 <= i <= t.len(),
            tv == tiles_view(*t),
            s@ == base + join(tv.take(i as int).map_values(|r: Seq<Seq<char>>| row_text(r)), ", "@),
        decreases t.len() - i,
    {
        let ghost before = tv.take(i as int).map_values(|r: Seq<Seq<char>>| row_text(r));
        if i > 0 {
            s.append(", ");
        }
        append_row(s, &t[i]);
        proof {
            assert(tv[i as int] == row_view(t@[i as int]));
            assert(tv.take(i + 1).map_values(|r: Seq<Seq<char>>| row_text(r)) =~= before.push(row_text(tv[i as int])));
            lemma_join_push(before, ", "@, row_text(tv[i as int]));
            assert(s@ =~= base + join(tv.take(i + 1).map_values(|r: Seq<Seq<char>>| row_text(r)), ", "@));
        }
        i = i + 1;
    }
    proof {
        assert(tv.take(t.len() as int) =~= tv);
    }
}

/// The decimal writing of `v`, with a minus sign when it is negative.
pub open spec fn signed_decimal(v: int) -> Seq<char> {
    if v < 0 {
        "-"@ + decimal((-v) as nat)
    } else {
        decimal(v as nat)
    }
}

/// Appends the decimal writing of `v`.
fn append_signed(s: &mut String, v: i32)
    ensures
        final(s)@ == old(s)@ + signed_decimal(v as int),
{
    if v < 0 {
        let ghost base = s@;
        s.append("-");
        let m: u64 = (0i64 - v as i64) as u64;
        append_decimal(s, m);
        assert(s@ =~= base + signed_decimal(v as int));
    } else {
        append_decimal(s, v as u64);
    }
}

/// The name of a chunk in a response: `x,y`.
pub open spec fn coord_text(c: (i32, i32)) -> Seq<char> {
    signed_decimal(c.0 as int) + ","@ + signed_decimal(c.1 as int)
}

/// The chunks of `cs`, each once, in the order of their first appearance.
pub open spec fn distinct_in_order(cs: Seq<(i32, i32)>) -> Seq<(i32, i32)>
    decreases cs.len(),
{
    if cs.len() == 0 {
        Seq::empty()
    } else if cs.drop_last().contains(cs.last()) {
        distinct_in_order(cs.drop_last())
    } else {
        distinct_in_order(cs.drop_last()).push(cs.last())
    }
}

/// The response entry of a chunk whose terrain rows are `t`.
pub open spec fn terrain_entry(c: (i32, i32), t: Seq<Seq<Seq<char>>>) -> Seq<char> {
    "\""@ + coord_text(c) + "\": ["@ + rows_text(t) + "]"@
}

/// The entries of the chunks of `cs` that have a terrain layer in `m`.
pub open spec fn terrain_entries(
    m: Map<(i32, i32), Map<Seq<char>, Seq<Seq<Seq<char>>>>>,
    cs: Seq<(i32, i32)>,
) -> Seq<Seq<char>>
    decreases cs.len(),
{
    if cs.len() == 0 {
        Seq::empty()
    } else {
        let e = terrain_entries(m, cs.drop_last());
        match layer_lookup(m, cs.last(), "terrain"@) {
            Some(t) => e.push(terrain_entry(cs.last(), t)),
            None => e,
        }
    }
}

/// The response to a request for chunks `cs`: the terrain of each chunk
/// asked for that is held, once per chunk.
pub open spec fn chunks_json_text(
    m: Map<(i32, i32), Map<Seq<char>, Seq<Seq<Seq<char>>>>>,
    cs: Seq<(i32, i32)>,
) -> Seq<char> {
    "{\"chunk_data\": {"@ + join(terrain_entries(m, distinct_in_order(cs)), ", "@) + "}}"@
}

/// The chunks of `coords`, each once, in the order of their first
/// appearance.
fn distinct_coords(coords: &Vec<(i32, i32)>) -> (r: Vec<(i32, i32)>)
    ensures
        r@ == distinct_in_order(coords@),
{
    let ghost cs = coords@;
    let mut seen: HashSet<u64> = HashSet::new();
    let mut r: Vec<(i32, i32)> = Vec::new();
    let mut i: usize = 0;
    proof {
        assert(cs.take(0) =~= Seq::<(i32, i32)>::empty());
    }
    while i < coords.len()
        invariant
            0 <= i <= coords.len(),
            cs == coords@,
            forall|c: (i32, i32)| #[trigger] seen@.contains(chunk_key(c)) <==> cs.take(i as int).contains(c),
            r@ == distinct_in_order(cs.take(i as int)),
        decreases coords.len() - i,
    {
        let c = coords[i];
        let k = key_of(IVec2 { x: c.0, y: c.1 });
        let ghost t0 = cs.take(i as int);
        let ghost t1 = cs.take(i + 1);
        proof {
            assert(k == chunk_key(c));
            assert(t1.drop_last() =~= t0);
            assert(t1.last() == c);
        }
        if !seen.contains(&k) {
            seen.insert(k);
            r.push(c);
            proof {
                CachedWorld::lemma_keys_apart(c);
                assert forall|c2: (i32, i32)| #[trigger] seen@.contains(chunk_key(c2)) <==> t1.contains(c2) by {
                    if c2 == c {
                        assert(t1[i as int] == c);
                    } else {
                        if t0.contains(c2) {
                            let j = choose|j: int| 0 <= j < t0.len() && t0[j] == c2;
                            assert(t1[j] == c2);
                        }
                        if t1.contains(c2) {
                            let j = choose|j: int| 0 <= j < t1.len() && t1[j] == c2;
                            assert(t0[j] == c2);
                        }
                    }
                }
            }
        } else {
            proof {
                assert forall|c2: (i32, i32)| #[trigger] seen@.contains(chunk_key(c2)) <==> t1.contains(c2) by {
                    if t0.contains(c2) {
                        let j = choose|j: int| 0 <= j < t0.len() && t0[j] == c2;
                        assert(t1[j] == c2);
                    }
                    if t1.contains(c2) {
                        let j = choose|j: int| 0 <= j < t1.len() && t1[j] == c2;
                        if j < i {
                            assert(t0[j] == c2);
                        }
                    }
                }
            }
        }
        i = i + 1;
    }
    proof {
        assert(cs.take(coords.len() as int) =~= cs);
    }
    r
}

/// The response entry of layer `name` with rows `t`.
pub open spec fn layer_entry(name: Seq<char>, t: Seq<Seq<Seq<char>>>) -> Seq<char> {
    "\""@ + name + "\": ["@ + rows_text(t) + "]"@
}

/// The response entry of chunk `c` with its layers `ls`, in their order.
pub open spec fn chunk_layers_entry(c: (i32, i32), ls: Seq<(Seq<char>, Seq<Seq<Seq<char>>>)>) -> Seq<char> {
    "\""@ + coord_text(c) + "\": {"@ + join(
        ls.map_values(|l: (Seq<char>, Seq<Seq<Seq<char>>>)| layer_entry(l.0, l.1)),
        ", "@,
    ) + "}"@
}

/// The entries of the chunks of `cs` that are held in `lists`.
pub open spec fn layered_entries(
    lists: Map<(i32, i32), Seq<(Seq<char>, Seq<Seq<Seq<char>>>)>>,
    cs: Seq<(i32, i32)>,
) -> Seq<Seq<char>>
    decreases cs.len(),
{
    if cs.len() == 0 {
        Seq::empty()
    } else {
        let e = layered_entries(lists, cs.drop_last());
        if lists.contains_key(cs.last()) {
            e.push(chunk_layers_entry(cs.last(), lists[cs.last()]))
        } else {
            e
        }
    }
}

/// The response to a request for all layers of chunks `cs`: each chunk
/// asked for that is held, once, with all its layers.
pub open spec fn layered_json_text(
    lists: Map<(i32, i32), Seq<(Seq<char>, Seq<Seq<Seq<char>>>)>>,
    cs: Seq<(i32, i32)>,
) -> Seq<char> {
    "{\"chunk_data\": {"@ + join(layered_entries(lists, distinct_in_order(cs)), ", "@) + "}}"@
}

/// A layer as its name and rows, as text.
pub open spec fn layer_pair(l: ChunkLayer) -> (Seq<char>, Seq<Seq<Seq<char>>>) {
    (l.name@, tiles_view(l.tiles))
}

/// Appends the entries of the layers `ls`, in order, separated by commas.
fn append_layers(s: &mut String, ls: &Vec<ChunkLayer>)
    ensures
        final(s)@ == old(s)@ + join(
            ls@.map_values(|l: ChunkLayer| layer_pair(l)).map_values(
                |l: (Seq<char>, Seq<Seq<Seq<char>>>)| layer_entry(l.0, l.1),
            ),
            ", "@,
        ),
{
    let ghost base = old(s)@;
    let ghost es = ls@.map_values(|l: ChunkLayer| layer_pair(l)).map_values(
        |l: (Seq<char>, Seq<Seq<Seq<char>>>)| layer_entry(l.0, l.1),
    );
    let mut i: usize = 0;
    proof {
        assert(es.take(0) =~= Seq::<Seq<char>>::empty());
    }
    while i < ls.len()
        invariant
            0 <= i <= ls.len(),
            es.len() == ls@.len(),
            forall|a: int| 0 <= a < ls@.len() ==> #[trigger] es[a] == layer_entry(ls@[a].name@, tiles_view(ls@[a].tiles)),
            s@ == base + join(es.take(i as int), ", "@),
        decreases ls.len() - i,
    {
        if i > 0 {
            s.append(", ");
        }
        s.append("\"");
        s.append(ls[i].name.as_str());
        s.append("\": [");
        append_rows(s, &ls[i].tiles);
        s.append("]");
        proof {
            assert(es.take(i + 1) =~= es.take(i as int).push(es[i as int]));
            lemma_join_push(es.take(i as int), ", "@, es[i as int]);
            assert(s@ =~= base + join(es.take(i + 1), ", "@));
        }
        i = i + 1;
    }
    proof {
        assert(es.take(ls.len() as int) =~= es);
    }
}

/// Appends the response entry of chunk `c` with layers `ls`.
fn append_chunk_layers_entry(s: &mut String, c: (i32, i32), ls: &Vec<ChunkLayer>)
    ensures
        final(s)@ == old(s)@ + chunk_layers_entry(c, ls@.map_values(|l: ChunkLayer| layer_pair(l))),
{
    let ghost base = old(s)@;
    s.append("\"");
    append_signed(s, c.0);
    s.append(",");
    append_signed(s, c.1);
    s.append("\": {");
    append_layers(s, ls);
    s.append("}");
    assert(s@ =~= base + chunk_layers_entry(c, ls@.map_values(|l: ChunkLayer| layer_pair(l))));
}

/// A world whose chunks are held in memory, layer by layer, for the
/// parts of the program that read the map.
pub struct CachedWorld {
    pub name: String,
    pub seed: u64,
    chunks: HashMap<u64, Vec<ChunkLayer>>,
    pub is_loaded: bool,
}

impl CachedWorld {
    /// The chunks held, each as its layers by name.
    pub closed spec fn chunk_map(&self) -> Map<(i32, i32), Map<Seq<char>, Seq<Seq<Seq<char>>>>> {
        Map::new(
            |c: (i32, i32)| self.chunks@.contains_key(chunk_key(c)),
            |c: (i32, i32)| layers_map(self.chunks@[chunk_key(c)]@),
        )
    }

    /// The world's name, as text.
    pub closed spec fn name_text(&self) -> Seq<char> {
        self.name@
    }

    /// The seed the world was made with.
    pub closed spec fn seed_value(&self) -> u64 {
        self.seed
    }

    /// Whether a loaded world is held.
    pub closed spec fn loaded(&self) -> bool {
        self.is_loaded
    }

    /// The layers of each chunk held, as names and rows, in the order the
    /// chunk keeps them: a layer keeps its place when it is set again, and
    /// a new one comes last.
    pub closed spec fn layer_lists(&self) -> Map<(i32, i32), Seq<(Seq<char>, Seq<Seq<Seq<char>>>)>> {
        Map::new(
            |c: (i32, i32)| self.chunks@.contains_key(chunk_key(c)),
            |c: (i32, i32)| self.chunks@[chunk_key(c)]@.map_values(|l: ChunkLayer| layer_pair(l)),
        )
    }

    /// No chunk holds two layers of one name.
    pub closed spec fn wf(&self) -> bool {
        forall|k: u64| #[trigger] self.chunks@.contains_key(k) ==> names_unique(self.chunks@[k]@)
    }

    proof fn lemma_keys_apart(c: (i32, i32))
        ensures
            forall|d: (i32, i32)| #![auto] d != c ==> chunk_key(d) != chunk_key(c),
    {
        assert forall|d: (i32, i32)| #![auto] d != c implies chunk_key(d) != chunk_key(c) by {
            lemma_pos_key_injective(IVec2 { x: d.0, y: d.1 }, IVec2 { x: c.0, y: c.1 });
        }
    }

    /// An empty, not yet loaded world.
    pub fn new(name: String, seed: u64) -> (w: CachedWorld)
        ensures
            w.wf(),
            w.name_text() == name@,
            w.seed_value() == seed,
            w.chunk_map() == Map::<(i32, i32), Map<Seq<char>, Seq<Seq<Seq<char>>>>>::empty(),
            !w.loaded(),
    {
        let w = CachedWorld { name, seed, chunks: HashMap::new(), is_loaded: false };
        assert(w.chunk_map() =~= Map::empty());
        w
    }

    /// The rows of layer `layer_name` of the chunk at (`chunk_x`,
    /// `chunk_y`), if the chunk is held and has that layer.
    pub fn get_chunk_layer(&self, chunk_x: i32, chunk_y: i32, layer_name: &str) -> (r: Option<Vec<Vec<String>>>)
        requires
            self.wf(),
        ensures
            opt_tiles_view(r) == layer_lookup(self.chunk_map(), (chunk_x, chunk_y), layer_name@),
    {
        let k = key_of(IVec2 { x: chunk_x, y: chunk_y });
        assert(k == chunk_key((chunk_x, chunk_y)));
        match self.chunks.get(&k) {
            None => None,
            Some(layers) => {
                let name = layer_name.to_owned();
                proof {
                    assert(self.chunk_map()[(chunk_x, chunk_y)] == layers_map(layers@));
                    lemma_layers_map_dom(layers@, name@);
                }
                match find_layer(layers, &name) {
                    Some(i) => {
                        proof {
                            lemma_layers_map_index(layers@, i as int);
                        }
                        Some(clone_tiles(&layers[i].tiles))
                    },
                    None => None,
                }
            },
        }
    }

    /// The rows of the terrain layer of the chunk at (`chunk_x`,
    /// `chunk_y`), if there are any.
    pub fn get_chunk(&self, chunk_x: i32, chunk_y: i32) -> (r: Option<Vec<Vec<String>>>)
        requires
            self.wf(),
        ensures
            opt_tiles_view(r) == layer_lookup(self.chunk_map(), (chunk_x, chunk_y), "terrain"@),
    {
        self.get_chunk_layer(chunk_x, chunk_y, "terrain")
    }

    /// All layers of the chunk at (`chunk_x`, `chunk_y`), if it is held:
    /// each once, by name.
    pub fn get_chunk_layers(&self, chunk_x: i32, chunk_y: i32) -> (r: Option<Vec<ChunkLayer>>)
        requires
            self.wf(),
        ensures
            match r {
                Some(ls) => {
                    &&& self.chunk_map().contains_key((chunk_x, chunk_y))
                    &&& layers_map(ls@) == self.chunk_map()[(chunk_x, chunk_y)]
                    &&& names_unique(ls@)
                },
                None => !self.chunk_map().contains_key((chunk_x, chunk_y)),
            },
    {
        let k = key_of(IVec2 { x: chunk_x, y: chunk_y });
        assert(k == chunk_key((chunk_x, chunk_y)));
        match self.chunks.get(&k) {
            None => None,
            Some(layers) => {
                let copy = clone_layers(layers);
                proof {
                    lemma_layers_map_same(copy@, layers@);
                    assert(names_unique(layers@));
                    assert forall|a: int, b: int| 0 <= a < b < copy@.len() implies copy@[a].name@ != copy@[b].name@ by {
                        assert(copy@[a].name@ == layers@[a].name@);
                        assert(copy@[b].name@ == layers@[b].name@);
                    }
                }
                Some(copy)
            },
        }
    }

    /// Sets layer `layer_name` of the chunk at (`chunk_x`, `chunk_y`) to
    /// `data`, adding the chunk if it is not held; every other layer and
    /// chunk stays as it was.
    pub fn set_chunk_layer(&mut self, chunk_x: i32, chunk_y: i32, layer_name: String, data: Vec<Vec<String>>)
        requires
            old(self).wf(),
        ensures
            final(self).wf(),
            final(self).chunk_map() == with_layer(old(self).chunk_map(), (chunk_x, chunk_y), layer_name@, tiles_view(data)),
            final(self).name_text() == old(self).name_text(),
            final(self).seed_value() == old(self).seed_value(),
            final(self).loaded() == old(self).loaded(),
    {
        let c = (chunk_x, chunk_y);
        let k = key_of(IVec2 { x: chunk_x, y: chunk_y });
        assert(k == chunk_key(c));
        let ghost m0 = self.chunks@;
        let ghost v0 = self.chunk_map();
        let ghost tv = tiles_view(data);
        let ghost nv = layer_name@;
        let mut bucket = match self.chunks.remove(&k) {
            Some(v) => v,
            None => Vec::new(),
        };
        proof {
            if m0.contains_key(k) {
                assert(v0[c] == layers_map(bucket@));
            } else {
                assert(layers_map(bucket@) =~= Map::empty());
            }
        }
        let ghost b0 = bucket@;
        put_layer(&mut bucket, ChunkLayer { name: layer_name, tiles: data });
        self.chunks.insert(k, bucket);
        proof {
            Self::lemma_keys_apart(c);
            assert(self.chunks@ == m0.insert(k, bucket));
            assert(self.chunk_map() =~= with_layer(v0, c, nv, tv));
        }
    }

    /// Sets all layers of the chunk at (`chunk_x`, `chunk_y`); where two
    /// layers have one name, the later one is kept. Every other chunk
    /// stays as it was.
    pub fn set_chunk_layers(&mut self, chunk_x: i32, chunk_y: i32, layers: Vec<ChunkLayer>)
        requires
            old(self).wf(),
        ensures
            final(self).wf(),
            final(self).chunk_map() == old(self).chunk_map().insert((chunk_x, chunk_y), layers_map(layers@)),
            final(self).name_text() == old(self).name_text(),
            final(self).seed_value() == old(self).seed_value(),
            final(self).loaded() == old(self).loaded(),
    {
        let c = (chunk_x, chunk_y);
        let k = key_of(IVec2 { x: chunk_x, y: chunk_y });
        assert(k == chunk_key(c));
        let ghost all = layers@;
        let ghost v0 = self.chunk_map();
        let ghost m0 = self.chunks@;
        let mut rest = layers;
        let mut bucket: Vec<ChunkLayer> = Vec::new();
        let ghost mut taken: int = 0;
        proof {
            assert(rest@ =~= all.skip(0));
            assert(layers_map(all.take(0)) =~= Map::empty());
            assert(layers_map(bucket@) =~= Map::empty());
        }
        while rest.len() > 0
            invariant
                0 <= taken <= all.len(),
                rest@ == all.skip(taken),
                names_unique(bucket@),
                layers_map(bucket@) == layers_map(all.take(taken)),
            decreases rest.len(),
        {
            let l = rest.remove(0);
            proof {
                assert(l == all[taken]);
                assert(all.take(taken + 1).drop_last() =~= all.take(taken));
                assert(all.take(taken + 1).last() == all[taken]);
            }
            put_layer(&mut bucket, l);
            proof {
                assert(rest@ =~= all.skip(taken + 1));
                taken = taken + 1;
            }
        }
        proof {
            assert(all.take(taken) =~= all);
        }
        self.chunks.insert(k, bucket);
        proof {
            Self::lemma_keys_apart(c);
            assert(self.chunks@ == m0.insert(k, bucket));
            assert(self.chunk_map() =~= v0.insert(c, layers_map(all)));
        }
    }

    /// The world description as JSON text (see `world_info_text`).
    pub fn get_world_info_json(&self) -> (r: String)
        ensures
            r@ == world_info_text(self.name_text(), self.seed_value(), self.loaded()),
    {
        let mut s = String::from_str(
            "{\"center_chunk\": {\"x\": 0, \"y\": 0}, \"world_size\": {\"width\": 20, \"height\": 20}, \"seed\": ",
        );
        append_decimal(&mut s, self.seed);
        s.append(", \"name\": \"");
        s.append(self.name.as_str());
        s.append("\", \"is_loaded\": ");
        if self.is_loaded {
            s.append("true");
        } else {
            s.append("false");
        }
        s.append("}");
        s
    }

    /// The terrain of the chunks a request path asks for (see
    /// `parse_chunk_coords`), as JSON text: each chunk once, in the order
    /// it was first asked for, and only those that are held with a
    /// terrain layer.
    pub fn generate_chunks_json(&self, path: &str) -> (r: String)
        requires
            self.wf(),
            square_in_range(path@),
        ensures
            r@ == chunks_json_text(self.chunk_map(), chunk_coords_spec(path@)),
    {
        let coords = parse_chunk_coords(path);
        let ds = distinct_coords(&coords);
        let ghost m = self.chunk_map();
        let ghost d = ds@;
        let mut out = String::from_str("{\"chunk_data\": {");
        let ghost head = out@;
        let mut any = false;
        let mut i: usize = 0;
        proof {
            assert(d.take(0) =~= Seq::<(i32, i32)>::empty());
        }
        while i < ds.len()
            invariant
                0 <= i <= ds.len(),
                d == ds@,
                m == self.chunk_map(),
                self.wf(),
                any == (terrain_entries(m, d.take(i as int)).len() > 0),
                out@ == head + join(terrain_entries(m, d.take(i as int)), ", "@),
            decreases ds.len() - i,
        {
            let c = ds[i];
            let ghost e = terrain_entries(m, d.take(i as int));
            proof {
                assert(d.take(i + 1).drop_last() =~= d.take(i as int));
                assert(d.take(i + 1).last() == c);
            }
            match self.get_chunk(c.0, c.1) {
                Some(t) => {
                    if any {
                        out.append(", ");
                    }
                    any = true;
                    out.append("\"");
                    append_signed(&mut out, c.0);
                    out.append(",");
                    append_signed(&mut out, c.1);
                    out.append("\": [");
                    append_rows(&mut out, &t);
                    out.append("]");
                    proof {
                        lemma_join_push(e, ", "@, terrain_entry(c, tiles_view(t)));
                        assert(out@ =~= head + join(terrain_entries(m, d.take(i + 1)), ", "@));
                    }
                },
                None => {},
            }
            i = i + 1;
        }
        out.append("}}");
        proof {
            assert(d.take(ds.len() as int) =~= d);
        }
        out
    }

    /// All layers of the chunks a request path asks for, as JSON text:
    /// each chunk once, in the order it was first asked for, and only
    /// those that are held; the layers of a chunk in the order it keeps
    /// them (see `layer_lists`).
    pub fn generate_multi_layer_chunks_json(&self, path: &str) -> (r: String)
        requires
            self.wf(),
            square_in_range(path@),
        ensures
            r@ == layered_json_text(self.layer_lists(), chunk_coords_spec(path@)),
    {
        let coords = parse_chunk_coords(path);
        let ds = distinct_coords(&coords);
        let ghost lists = self.layer_lists();
        let ghost d = ds@;
        let mut out = String::from_str("{\"chunk_data\": {");
        let ghost head = out@;
        let mut any = false;
        let mut i: usize = 0;
        proof {
            assert(d.take(0) =~= Seq::<(i32, i32)>::empty());
        }
        while i < ds.len()
            invariant
                0 <= i <= ds.len(),
                d == ds@,
                lists == self.layer_lists(),
                any == (layered_entries(lists, d.take(i as int)).len() > 0),
                out@ == head + join(layered_entries(lists, d.take(i as int)), ", "@),
            decreases ds.len() - i,
        {
            let c = ds[i];
            let ghost e = layered_entries(lists, d.take(i as int));
            proof {
                assert(d.take(i + 1).drop_last() =~= d.take(i as int));
                assert(d.take(i + 1).last() == c);
            }
            let k = key_of(IVec2 { x: c.0, y: c.1 });
            assert(k == chunk_key(c));
            match self.chunks.get(&k) {
                Some(layers) => {
                    if any {
                        out.append(", ");
                    }
                    any = true;
                    append_chunk_layers_entry(&mut out, c, layers);
                    proof {
                        assert(lists.contains_key(c));
                        assert(lists[c] == layers@.map_values(|l: ChunkLayer| layer_pair(l)));
                        lemma_join_push(e, ", "@, chunk_layers_entry(c, lists[c]));
                        assert(out@ =~= head + join(layered_entries(lists, d.take(i + 1)), ", "@));
                    }
                },
                None => {
                    proof {
                        assert(!lists.contains_key(c));
                    }
                },
            }
            i = i + 1;
        }
        out.append("}}");
        proof {
            assert(d.take(ds.len() as int) =~= d);
        }
        out
    }

    /// The layer list of a chunk names each of its layers once, with the
    /// rows the chunk has under that name, and nothing else.
    pub proof fn law_layer_lists_match_chunks(&self, c: (i32, i32))
        requires
            self.wf(),
        ensures
            self.layer_lists().contains_key(c) == self.chunk_map().contains_key(c),
            self.layer_lists().contains_key(c) ==> {
                let ls = self.layer_lists()[c];
                let m = self.chunk_map()[c];
                &&& forall|i: int, j: int| 0 <= i < j < ls.len() ==> ls[i].0 != ls[j].0
                &&& forall|i: int| 0 <= i < ls.len() ==> #[trigger] m.contains_key(ls[i].0) && m[ls[i].0] == ls[i].1
                &&& forall|n: Seq<char>| #[trigger] m.contains_key(n) ==> exists|i: int| 0 <= i < ls.len() && ls[i].0 == n
            },
    {
        if self.chunks@.contains_key(chunk_key(c)) {
            let v = self.chunks@[chunk_key(c)]@;
            let ls = self.layer_lists()[c];
            let m = self.chunk_map()[c];
            assert(ls == v.map_values(|l: ChunkLayer| layer_pair(l)));
            assert(m == layers_map(v));
            assert(names_unique(v));
            assert forall|i: int| 0 <= i < ls.len() implies #[trigger] m.contains_key(ls[i].0) && m[ls[i].0] == ls[i].1 by {
                lemma_layers_map_index(v, i);
            }
            assert forall|n: Seq<char>| #[trigger] m.contains_key(n) implies exists|i: int| 0 <= i < ls.len() && ls[i].0 == n by {
                lemma_layers_map_dom(v, n);
                let i = choose|i: int| 0 <= i < v.len() && v[i].name@ == n;
                assert(ls[i].0 == n);
            }
        }
    }

    /// Drops every chunk and marks the world as not loaded.
    pub fn clear(&mut self)
        ensures
            final(self).wf(),
            final(self).chunk_map() == Map::<(i32, i32), Map<Seq<char>, Seq<Seq<Seq<char>>>>>::empty(),
            !final(self).loaded(),
            final(self).name_text() == old(self).name_text(),
            final(self).seed_value() == old(self).seed_value(),
    {
        self.chunks.clear();
        self.is_loaded = false;
        assert(self.chunk_map() =~= Map::empty());
    }
}

impl Default for CachedWorld {
    /// An empty world named "Generated World" with seed 12345.
    fn default() -> (w: CachedWorld)
        ensures
            w.wf(),
            w.name_text() == "Generated World"@,
            w.seed_value() == 12345,
            w.chunk_map() == Map::<(i32, i32), Map<Seq<char>, Seq<Seq<Seq<char>>>>>::empty(),
            !w.loaded(),
    {
        CachedWorld::new(String::from_str("Generated World"), 12345)
    }
}

} // verus!
