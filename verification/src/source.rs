//! Finding the text of a verification condition in a program's source.

use vstd::prelude::*;
use vstd::string::StringSliceAdditionalSpecFns;
use vstd::utf8::{encode_utf8, is_char_boundary, valid_utf8};

use crate::text::{first_from, last_before, lemma_first_from, lemma_last_before};

verus! {

/// The line (from 1) and column reached after reading the characters of
/// `p`: a newline starts the next line at column 0, any other character
/// advances the column.
pub open spec fn line_col(p: Seq<char>) -> (nat, nat)
    decreases p.len(),
{
    if p.len() == 0 {
        (1, 0)
    } else {
        let (l, c) = line_col(p.drop_last());
        if p.last() == '\n' {
            (l + 1, 0)
        } else {
            (l, c + 1)
        }
    }
}

/// The characters read to locate position `start`: up to and including it,
/// or all of them when the text is shorter.
pub open spec fn read_up_to(s: Seq<char>, start: nat) -> Seq<char> {
    if start < s.len() {
        s.take(start as int + 1)
    } else {
        s
    }
}

proof fn lemma_line_col_bound(p: Seq<char>)
    ensures
        line_col(p).0 <= p.len() + 1,
        line_col(p).1 <= p.len(),
    decreases p.len(),
{
    if p.len() > 0 {
        lemma_line_col_bound(p.drop_last());
    }
}

/// The line (from 1) and column of the character at position `span_start`
/// of `source`, counted in characters; the end of the text when it is
/// shorter.
pub fn line_and_column_from(span_start: u32, source: &str) -> (r: (u32, u32))
    requires
        source@.len() < u32::MAX,
    ensures
        (r.0 as nat, r.1 as nat) == line_col(read_up_to(source@, span_start as nat)),
{
    let mut line: u32 = 1;
    let mut column: u32 = 0;
    let ghost s = source@;
    let mut i: usize = 0;
    let mut reached = false;
    for ch in it: source.chars()
        invariant
            s == source@,
            s.len() < u32::MAX,
            it.seq() == s,
            i == it.index(),
            i <= s.len(),
            reached == ((span_start as nat) < i),
            (line as nat, column as nat) == line_col(s.take(if reached { span_start as int + 1 } else { i as int })),
    {
        if !reached {
            proof {
                lemma_line_col_bound(s.take(i as int));
                assert(s.take(i as int + 1).drop_last() =~= s.take(i as int));
            }
            if ch == '\n' {
                line = line + 1;
                column = 0;
            } else {
                column = column + 1;
            }
            if span_start <= i as u32 {
                reached = true;
            }
        }
        i = i + 1;
    }
    assert(read_up_to(s, span_start as nat) =~= s.take(if reached { span_start as int + 1 } else { i as int }));
    (line, column)
}


/// The byte of a newline.
pub open spec fn newline() -> u8 {
    10
}

/// A line without the carriage return that ends it, if one does.
pub open spec fn strip_cr(l: Seq<u8>) -> Seq<u8> {
    if l.len() > 0 && l.last() == 13 {
        l.drop_last()
    } else {
        l
    }
}

/// Line `n` (from 0) of a text's bytes: lines end at a newline, which may
/// follow a carriage return; the last line needs no newline, and a text
/// that ends with one has no empty line after it.
pub open spec fn nth_line(b: Seq<u8>, n: nat) -> Option<Seq<u8>>
    decreases b.len(),
{
    if b.len() == 0 {
        None
    } else {
        match first_from(b, newline(), 0) {
            None => if n == 0 {
                Some(b)
            } else {
                None
            },
            Some(k) => if n == 0 {
                Some(strip_cr(b.take(k as int)))
            } else if k < b.len() {
                nth_line(b.skip(k as int + 1), (n - 1) as nat)
            } else {
                None
            },
        }
    }
}

/// The positions in a statement's bytes of its first `(`, last `)` and
/// first `;`, when all are there.
pub open spec fn marks(sub: Seq<u8>) -> Option<(nat, nat, nat)> {
    match (first_from(sub, 40u8, 0), last_before(sub, 41u8, sub.len()), first_from(sub, 59u8, 0)) {
        (Some(a), Some(e), Some(t)) => Some((a, e, t)),
        _ => None,
    }
}

/// The bounds of the condition in a statement's bytes: from after the first
/// `(` to the last `)`, or to just before the first `;` when that comes
/// earlier; none when it would be empty.
pub open spec fn cond_bounds(sub: Seq<u8>) -> Option<(int, int)> {
    match marks(sub) {
        Some((a, e, t)) => {
            let end: int = if t < e { t - 1 } else { e as int };
            if (a as int) < end {
                Some((a as int + 1, end))
            } else {
                None
            }
        },
        None => None,
    }
}

/// The statement that starts at column `col` of line `line_num` (from 1).
pub open spec fn statement(line_num: u32, col: u32, b: Seq<u8>) -> Option<Seq<u8>> {
    match nth_line(b, (line_num - 1) as nat) {
        Some(l) => Some(l.skip(col as int)),
        None => None,
    }
}

/// The inputs on which the condition can be cut out: the line number is
/// positive; where the line exists, the column lies on a character boundary
/// of it; a `;` at the very start of the statement does not come before its
/// last `)`; and the cut falls on character boundaries.
pub open spec fn extract_accepts(line_num: u32, col: u32, b: Seq<u8>) -> bool {
    &&& line_num >= 1
    &&& match nth_line(b, (line_num - 1) as nat) {
        None => true,
        Some(l) => {
            &&& col <= l.len()
            &&& is_char_boundary(l, col as int)
            &&& match marks(l.skip(col as int)) {
                Some((a, e, t)) => !(t < e && t == 0),
                None => true,
            }
            &&& match cond_bounds(l.skip(col as int)) {
                Some((x, y)) => is_char_boundary(l.skip(col as int), x) && is_char_boundary(l.skip(col as int), y),
                None => true,
            }
        },
    }
}

/// The bytes of the condition of the statement at line `line_num`, column `col`.
pub open spec fn extracted(line_num: u32, col: u32, b: Seq<u8>) -> Option<Seq<u8>> {
    match statement(line_num, col, b) {
        Some(sub) => match cond_bounds(sub) {
            Some((x, y)) => Some(sub.subrange(x, y)),
            None => None,
        },
        None => None,
    }
}

/// The position of the first `x` in `b`.
fn find_byte(b: &[u8], x: u8) -> (r: Option<usize>)
    ensures
        r matches Some(k) ==> first_from(b@, x, 0) == Some(k as nat),
        r is None ==> first_from(b@, x, 0) is None,
{
    let mut i: usize = 0;
    while i < b.len()
        invariant
            i <= b@.len(),
            first_from(b@, x, 0) == first_from(b@, x, i as nat),
        decreases b@.len() - i,
    {
        if b[i] == x {
            return Some(i);
        }
        i = i + 1;
    }
    None
}

/// The position of the last `x` in `b`.
fn rfind_byte(b: &[u8], x: u8) -> (r: Option<usize>)
    ensures
        r matches Some(k) ==> last_before(b@, x, b@.len()) == Some(k as nat),
        r is None ==> last_before(b@, x, b@.len()) is None,
{
    let mut n: usize = b.len();
    while n > 0
        invariant
            n <= b@.len(),
            last_before(b@, x, b@.len()) == last_before(b@, x, n as nat),
        decreases n,
    {
        if b[n - 1] == x {
            return Some(n - 1);
        }
        n = n - 1;
    }
    None
}

/// In valid UTF-8, a position holding an ASCII byte is a character boundary.
proof fn lemma_ascii_boundary(b: Seq<u8>, i: int)
    requires
        valid_utf8(b),
        0 <= i < b.len(),
        b[i] < 128,
    ensures
        is_char_boundary(b, i),
{
    vstd::utf8::is_char_boundary_iff_not_is_continuation_byte(b, i);
}

/// In valid UTF-8 that starts with an ASCII byte, position 1 is a character boundary.
proof fn lemma_boundary_after_ascii(b: Seq<u8>)
    requires
        valid_utf8(b),
        b.len() >= 1,
        b[0] < 128,
    ensures
        is_char_boundary(b, 1),
{
    reveal_with_fuel(is_char_boundary, 2);
}

/// A character boundary of a text is one of each prefix that reaches it.
proof fn lemma_boundary_prefix(b: Seq<u8>, e: int, a: int)
    requires
        valid_utf8(b),
        valid_utf8(b.take(e)),
        0 <= a <= e <= b.len(),
        is_char_boundary(b, a),
    ensures
        is_char_boundary(b.take(e), a),
{
    if a == e {
        vstd::utf8::is_char_boundary_start_end_of_seq(b.take(e));
        assert(b.take(e).len() == e);
    } else {
        vstd::utf8::is_char_boundary_iff_not_is_continuation_byte(b, a);
        vstd::utf8::is_char_boundary_iff_not_is_continuation_byte(b.take(e), a);
    }
}

/// Line `n` (from 0) of `source`.
fn line_of(source: &str, n: u32) -> (r: Option<&str>)
    ensures
        match nth_line(source.spec_bytes(), n as nat) {
            None => r is None,
            Some(l) => r matches Some(x) && x.spec_bytes() == l,
        },
{
    let mut rest: &str = source;
    let mut count: u32 = n;
    loop
        invariant
            nth_line(rest.spec_bytes(), count as nat) == nth_line(source.spec_bytes(), n as nat),
        decreases rest.spec_bytes().len(),
    {
        let bytes = rest.as_bytes();
        if bytes.len() == 0 {
            return None;
        }
        proof {
            vstd::utf8::encode_utf8_valid_utf8(rest@);
        }
        match find_byte(bytes, 10) {
            None => {
                if count == 0 {
                    return Some(rest);
                } else {
                    return None;
                }
            },
            Some(k) => {
                proof {
                    lemma_first_from(bytes@, 10u8, 0);
                    lemma_ascii_boundary(bytes@, k as int);
                }
                let (head, tail) = rest.split_at(k);
                if count == 0 {
                    let hb = head.as_bytes();
                    proof {
                        vstd::utf8::encode_utf8_valid_utf8(head@);
                    }
                    if hb.len() > 0 && hb[hb.len() - 1] == 13 {
                        proof {
                            lemma_ascii_boundary(hb@, hb@.len() - 1);
                        }
                        let (h2, _) = head.split_at(hb.len() - 1);
                        assert(h2.spec_bytes() =~= hb@.drop_last());
                        return Some(h2);
                    }
                    return Some(head);
                }
                proof {
                    vstd::utf8::encode_utf8_valid_utf8(tail@);
                    lemma_boundary_after_ascii(tail.spec_bytes());
                }
                let (_, rest2) = tail.split_at(1);
                assert(rest2.spec_bytes() =~= bytes@.skip(k + 1));
                rest = rest2;
                count = count - 1;
            },
        }
    }
}

/// Whether `extract_expr` can cut the condition out of the statement at line
/// `line_num`, column `col` of `source`; see `extract_accepts`.
pub fn extract_expr_accepts(line_num: u32, col: u32, source: &str) -> (ok: bool)
    ensures
        ok == extract_accepts(line_num, col, source.spec_bytes()),
{
    if line_num == 0 {
        return false;
    }
    let line = match line_of(source, line_num - 1) {
        None => return true,
        Some(l) => l,
    };
    let lb = line.as_bytes();
    if col as usize > lb.len() || !line.is_char_boundary(col as usize) {
        return false;
    }
    let (_, sub) = line.split_at(col as usize);
    assert(sub.spec_bytes() =~= line.spec_bytes().skip(col as int));
    let sb = sub.as_bytes();
    let found = (find_byte(sb, 40), rfind_byte(sb, 41), find_byte(sb, 59));
    match found {
        (Some(a), Some(e), Some(t)) => {
            if t < e && t == 0 {
                return false;
            }
            let end = if t < e { t - 1 } else { e };
            if a < end {
                sub.is_char_boundary(a + 1) && sub.is_char_boundary(end)
            } else {
                true
            }
        },
        _ => true,
    }
}

/// The condition of the statement at line `line_num` (from 1), column `col`
/// of `source`: the text between its first `(` and its last `)`, or the
/// character before its first `;` when that comes earlier. `None` when the
/// line, a mark or the text between them is missing. Positions within the
/// line are counted in bytes.
pub fn extract_expr(line_num: u32, col: u32, source: &str) -> (r: Option<String>)
    requires
        extract_accepts(line_num, col, source.spec_bytes()),
    ensures
        match extracted(line_num, col, source.spec_bytes()) {
            None => r is None,
            Some(t) => r matches Some(x) && encode_utf8(x@) == t,
        },
{
    let line = match line_of(source, line_num - 1) {
        None => return None,
        Some(l) => l,
    };
    let (_, sub) = line.split_at(col as usize);
    assert(sub.spec_bytes() =~= line.spec_bytes().skip(col as int));
    let sb = sub.as_bytes();
    let a = match find_byte(sb, 40) {
        None => return None,
        Some(a) => a,
    };
    let e = match rfind_byte(sb, 41) {
        None => return None,
        Some(e) => e,
    };
    let t = match find_byte(sb, 59) {
        None => return None,
        Some(t) => t,
    };
    proof {
        lemma_first_from(sb@, 40u8, 0);
        lemma_last_before(sb@, 41u8, sb@.len());
        lemma_first_from(sb@, 59u8, 0);
    }
    let end = if t < e { t - 1 } else { e };
    if a < end {
        let (head, _) = sub.split_at(end);
        proof {
            vstd::utf8::encode_utf8_valid_utf8(sub@);
            vstd::utf8::encode_utf8_valid_utf8(head@);
            assert(head.spec_bytes() =~= sb@.take(end as int));
            lemma_boundary_prefix(sb@, end as int, a + 1);
        }
        let (_, piece) = head.split_at(a + 1);
        assert(piece.spec_bytes() =~= sb@.subrange(a + 1, end as int));
        Some(piece.to_owned())
    } else {
        None
    }
}

/// The first `x` from position `i` on is at `k` when `k` holds it and no
/// position between does.
proof fn lemma_first_at<T>(s: Seq<T>, x: T, i: nat, k: nat)
    requires
        i <= k < s.len(),
        s[k as int] == x,
        forall|j: int| i <= j < k ==> s[j] != x,
    ensures
        first_from(s, x, i) == Some(k),
    decreases k - i,
{
    if i < k {
        lemma_first_at(s, x, i + 1, k);
    }
}

/// The last `x` among the first `n` items is at `k` when `k` holds it and no
/// later position before `n` does.
proof fn lemma_last_at<T>(s: Seq<T>, x: T, n: nat, k: nat)
    requires
        k < n <= s.len(),
        s[k as int] == x,
        forall|j: int| k < j < n ==> s[j] != x,
    ensures
        last_before(s, x, n) == Some(k),
    decreases n - k,
{
    if k + 1 < n {
        lemma_last_at(s, x, (n - 1) as nat, k);
    }
}

/// When the statement's last `)` comes before its first `;`, the condition
/// is exactly the text between its first `(` and its last `)`: parentheses
/// inside the condition are kept whole. (Positions are in the line; the
/// statement starts at `col`.)
pub proof fn lemma_condition_is_between_outer_parentheses(
    line_num: u32,
    col: u32,
    b: Seq<u8>,
    l: Seq<u8>,
    a: int,
    e: int,
    t: int,
)
    requires
        line_num >= 1,
        nth_line(b, (line_num - 1) as nat) == Some(l),
        col <= a < e < t < l.len(),
        l[a] == 40u8,
        forall|j: int| col <= j < a ==> l[j] != 40u8,
        l[e] == 41u8,
        forall|j: int| e < j < l.len() ==> l[j] != 41u8,
        l[t] == 59u8,
        forall|j: int| col <= j < t ==> l[j] != 59u8,
    ensures
        extracted(line_num, col, b) == Some(l.subrange(a + 1, e)),
{
    let sub = l.skip(col as int);
    lemma_first_at(sub, 40u8, 0, (a - col) as nat);
    lemma_last_at(sub, 41u8, sub.len(), (e - col) as nat);
    lemma_first_at(sub, 59u8, 0, (t - col) as nat);
    assert(sub.subrange(a - col + 1, e - col) =~= l.subrange(a + 1, e));
}

/// When the statement's first `;` comes before its last `)`, the condition
/// ends just before that `;`: it is the text from after the first `(` to the
/// character before the `;`, and there is none when that is empty.
pub proof fn lemma_condition_stops_before_semicolon(
    line_num: u32,
    col: u32,
    b: Seq<u8>,
    l: Seq<u8>,
    a: int,
    e: int,
    t: int,
)
    requires
        line_num >= 1,
        nth_line(b, (line_num - 1) as nat) == Some(l),
        col <= t < e < l.len(),
        col <= a < l.len(),
        l[a] == 40u8,
        forall|j: int| col <= j < a ==> l[j] != 40u8,
        l[e] == 41u8,
        forall|j: int| e < j < l.len() ==> l[j] != 41u8,
        l[t] == 59u8,
        forall|j: int| col <= j < t ==> l[j] != 59u8,
    ensures
        a + 1 < t ==> extracted(line_num, col, b) == Some(l.subrange(a + 1, t - 1)),
        a + 1 >= t ==> extracted(line_num, col, b) is None,
{
    let sub = l.skip(col as int);
    lemma_first_at(sub, 40u8, 0, (a - col) as nat);
    lemma_last_at(sub, 41u8, sub.len(), (e - col) as nat);
    lemma_first_at(sub, 59u8, 0, (t - col) as nat);
    if a + 1 < t {
        assert(sub.subrange(a - col + 1, t - col - 1) =~= l.subrange(a + 1, t - 1));
    }
}

} // verus!
