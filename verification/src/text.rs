//! Text as bytes: splitting into pieces and lines, and reading decimal numbers.

use vstd::prelude::*;
use vstd::slice::slice_subrange;
use vstd::string::*;

verus! {

/// The bytes that write a text.
pub open spec fn bytes_of(text: Seq<char>) -> Seq<u8> {
    vstd::utf8::encode_utf8(text)
}

/// The bytes of a string.
pub fn string_bytes(s: &String) -> (b: &[u8])
    ensures
        b@ == bytes_of(s@),
{
    s.as_str().as_bytes()
}

pub const NEWLINE: u8 = 10;

pub const CARRIAGE_RETURN: u8 = 13;

/// The views of the rows of a table of bytes.
pub open spec fn rows_view(v: Seq<Vec<u8>>) -> Seq<Seq<u8>> {
    v.map_values(|r: Vec<u8>| r@)
}

/// The pieces of `s` between occurrences of `sep`: one more than there are occurrences.
pub open spec fn split(s: Seq<u8>, sep: u8) -> Seq<Seq<u8>>
    decreases s.len(),
{
    if s.len() == 0 {
        seq![Seq::<u8>::empty()]
    } else {
        let p = split(s.drop_last(), sep);
        if s.last() == sep {
            p.push(Seq::<u8>::empty())
        } else {
            p.drop_last().push(p.last().push(s.last()))
        }
    }
}

/// A line without the carriage return that may end it.
pub open spec fn strip_cr(l: Seq<u8>) -> Seq<u8> {
    if l.len() > 0 && l.last() == CARRIAGE_RETURN {
        l.drop_last()
    } else {
        l
    }
}

/// The lines of `s`: each ended by a newline, or by a carriage return and a
/// newline, but for the last, which needs no ending.
pub open spec fn lines(s: Seq<u8>) -> Seq<Seq<u8>> {
    let p = split(s, NEWLINE);
    let ended = p.drop_last().map_values(|l: Seq<u8>| strip_cr(l));
    if p.last().len() > 0 {
        ended.push(p.last())
    } else {
        ended
    }
}

pub fn copy_bytes(s: &[u8]) -> (r: Vec<u8>)
    ensures
        r@ == s@,
{
    let mut r: Vec<u8> = Vec::new();
    let mut i: usize = 0;
    while i < s.len()
        invariant
            i <= s.len(),
            r@ == s@.take(i as int),
        decreases s.len() - i,
    {
        r.push(s[i]);
        proof {
            assert(r@ =~= s@.take(i + 1));
        }
        i += 1;
    }
    proof {
        assert(s@.take(s.len() as int) =~= s@);
    }
    r
}

pub fn split_bytes(s: &[u8], sep: u8) -> (r: Vec<Vec<u8>>)
    ensures
        rows_view(r@) == split(s@, sep),
        r.len() >= 1,
{
    let mut out: Vec<Vec<u8>> = Vec::new();
    let mut cur: Vec<u8> = Vec::new();
    let mut i: usize = 0;
    proof {
        assert(rows_view(out@).push(cur@) =~= split(s@.take(0), sep));
    }
    while i < s.len()
        invariant
            i <= s.len(),
            rows_view(out@).push(cur@) == split(s@.take(i as int), sep),
        decreases s.len() - i,
    {
        let ghost prev = s@.take(i as int);
        let ghost next = s@.take(i + 1);
        proof {
            assert(next.drop_last() =~= prev);
            assert(next.last() == s@[i as int]);
        }
        if s[i] == sep {
            let ghost out0 = out@;
            out.push(cur);
            cur = Vec::new();
            proof {
                assert(rows_view(out@) =~= rows_view(out0).push(out@.last()@));
                assert(rows_view(out@).push(cur@) =~= split(prev, sep).push(Seq::<u8>::empty()));
            }
        } else {
            let ghost cur0 = cur@;
            cur.push(s[i]);
            proof {
                let p = split(prev, sep);
                assert(p.drop_last() =~= rows_view(out@));
                assert(p.last() == cur0);
            }
        }
        i += 1;
    }
    let ghost out0 = out@;
    out.push(cur);
    proof {
        assert(s@.take(s.len() as int) =~= s@);
        assert(rows_view(out@) =~= rows_view(out0).push(out@.last()@));
    }
    out
}

pub fn split_lines(s: &[u8]) -> (r: Vec<Vec<u8>>)
    ensures
        rows_view(r@) == lines(s@),
{
    let mut pieces = split_bytes(s, NEWLINE);
    let ghost p = split(s@, NEWLINE);
    let n = pieces.len();
    let mut out: Vec<Vec<u8>> = Vec::new();
    let mut i: usize = 0;
    while i + 1 < n
        invariant
            n == pieces.len(),
            n >= 1,
            i + 1 <= n,
            rows_view(pieces@) == p,
            rows_view(out@) == p.take(i as int).map_values(|l: Seq<u8>| strip_cr(l)),
        decreases n - i,
    {
        let row = &pieces[i];
        let m = row.len();
        let keep = if m > 0 && row[m - 1] == CARRIAGE_RETURN {
            m - 1
        } else {
            m
        };
        let line = copy_bytes(slice_subrange(row.as_slice(), 0, keep));
        let ghost out0 = out@;
        out.push(line);
        proof {
            assert(p[i as int] == pieces@[i as int]@);
            assert(line@ =~= strip_cr(p[i as int]));
            assert(rows_view(out@) =~= rows_view(out0).push(line@));
            let want = p.take(i + 1).map_values(|l: Seq<u8>| strip_cr(l));
            assert forall|k: int| 0 <= k < i + 1 implies rows_view(out@)[k] == want[k] by {
                if k < i {
                    assert(rows_view(out0)[k] == p.take(i as int).map_values(
                        |l: Seq<u8>| strip_cr(l),
                    )[k]);
                }
            }
            assert(rows_view(out@) =~= want);
        }
        i += 1;
    }
    proof {
        assert(p.take(n - 1) =~= p.drop_last());
        assert(p.last() == pieces@[n - 1]@);
    }
    if pieces[n - 1].len() > 0 {
        let last = copy_bytes(pieces[n - 1].as_slice());
        let ghost out0 = out@;
        out.push(last);
        proof {
            assert(rows_view(out@) =~= rows_view(out0).push(last@));
        }
    }
    out
}

/// The rows that hold anything, in their order.
pub open spec fn nonempty_rows(ls: Seq<Seq<u8>>) -> Seq<Seq<u8>>
    decreases ls.len(),
{
    if ls.len() == 0 {
        ls
    } else {
        let rest = nonempty_rows(ls.drop_last());
        if ls.last().len() > 0 {
            rest.push(ls.last())
        } else {
            rest
        }
    }
}

/// None of the rows that are kept is empty.
pub proof fn lemma_nonempty_rows(ls: Seq<Seq<u8>>)
    ensures
        forall|i: int| 0 <= i < nonempty_rows(ls).len() ==> (#[trigger] nonempty_rows(ls)[i]).len() > 0,
    decreases ls.len(),
{
    if ls.len() > 0 {
        lemma_nonempty_rows(ls.drop_last());
        let rest = nonempty_rows(ls.drop_last());
        let all = nonempty_rows(ls);
        assert forall|i: int| 0 <= i < all.len() implies (#[trigger] all[i]).len() > 0 by {
            if i < rest.len() {
                assert(all[i] == rest[i]);
            }
        }
    }
}

/// The lines of `s` that hold anything.
pub fn nonempty_lines(s: &[u8]) -> (r: Vec<Vec<u8>>)
    ensures
        rows_view(r@) == nonempty_rows(lines(s@)),
        forall|i: int| 0 <= i < r.len() ==> (#[trigger] r[i]).len() > 0,
{
    let all = split_lines(s);
    let ghost ls = lines(s@);
    let mut out: Vec<Vec<u8>> = Vec::new();
    let mut i: usize = 0;
    proof {
        assert(ls.take(0) =~= Seq::<Seq<u8>>::empty());
        assert(rows_view(out@) =~= nonempty_rows(ls.take(0)));
    }
    while i < all.len()
        invariant
            i <= all.len(),
            rows_view(all@) == ls,
            rows_view(out@) == nonempty_rows(ls.take(i as int)),
            forall|k: int| 0 <= k < out.len() ==> (#[trigger] out[k]).len() > 0,
        decreases all.len() - i,
    {
        proof {
            assert(ls.take(i + 1).drop_last() =~= ls.take(i as int));
            assert(ls[i as int] == all@[i as int]@);
        }
        if all[i].len() > 0 {
            let row = copy_bytes(all[i].as_slice());
            let ghost out0 = out@;
            out.push(row);
            proof {
                assert(rows_view(out@) =~= rows_view(out0).push(row@));
            }
        }
        i += 1;
    }
    proof {
        assert(ls.take(all.len() as int) =~= ls);
    }
    out
}

pub open spec fn is_digit(b: u8) -> bool {
    48 <= b <= 57
}

pub open spec fn all_digits(s: Seq<u8>) -> bool {
    forall|i: int| 0 <= i < s.len() ==> is_digit(#[trigger] s[i])
}

/// The number that the decimal digits `s` write.
pub open spec fn digits_value(s: Seq<u8>) -> nat
    decreases s.len(),
{
    if s.len() == 0 {
        0
    } else {
        digits_value(s.drop_last()) * 10 + (s.last() - 48) as nat
    }
}

pub const PLUS: u8 = 43;

pub const MINUS: u8 = 45;

/// The natural number that `s` writes: digits, after a plus sign or none.
pub open spec fn unsigned_value(s: Seq<u8>) -> Option<nat> {
    let d = if s.len() > 0 && s[0] == PLUS {
        s.skip(1)
    } else {
        s
    };
    if d.len() > 0 && all_digits(d) {
        Some(digits_value(d))
    } else {
        None
    }
}

/// The integer that `s` writes: digits, after a sign or none.
pub open spec fn signed_value(s: Seq<u8>) -> Option<int> {
    if s.len() > 0 && s[0] == MINUS {
        if s.len() > 1 && all_digits(s.skip(1)) {
            Some(-(digits_value(s.skip(1)) as int))
        } else {
            None
        }
    } else {
        match unsigned_value(s) {
            Some(v) => Some(v as int),
            None => None,
        }
    }
}

/// The first figures of a number write no more than all of them.
pub proof fn lemma_digits_prefix(s: Seq<u8>, n: int)
    requires
        0 <= n <= s.len(),
    ensures
        digits_value(s.take(n)) <= digits_value(s),
    decreases s.len() - n,
{
    if n < s.len() {
        lemma_digits_prefix(s, n + 1);
        assert(s.take(n + 1).drop_last() =~= s.take(n));
    } else {
        assert(s.take(n) =~= s);
    }
}

/// Reads the digits `s`, if they are digits and their value fits.
pub fn parse_digits(s: &[u8]) -> (r: Option<u64>)
    ensures
        r is Some <==> s@.len() > 0 && all_digits(s@) && digits_value(s@) <= u64::MAX,
        r is Some ==> r.unwrap() == digits_value(s@),
{
    if s.len() == 0 {
        return None;
    }
    let mut v: u64 = 0;
    let mut i: usize = 0;
    while i < s.len()
        invariant
            i <= s.len(),
            all_digits(s@.take(i as int)),
            v == digits_value(s@.take(i as int)),
        decreases s.len() - i,
    {
        let b = s[i];
        proof {
            assert(s@.take(i + 1).drop_last() =~= s@.take(i as int));
            lemma_digits_prefix(s@, i + 1);
        }
        if b < 48 || b > 57 {
            proof {
                assert(!is_digit(s@[i as int]));
            }
            return None;
        }
        let d = (b - 48) as u64;
        let next = match v.checked_mul(10) {
            Some(x) => x.checked_add(d),
            None => None,
        };
        match next {
            Some(x) => {
                v = x;
            },
            None => {
                return None;
            },
        }
        proof {
            assert forall|k: int| 0 <= k < i + 1 implies is_digit(#[trigger] s@.take(i + 1)[k]) by {
                if k < i {
                    assert(s@.take(i as int)[k] == s@[k]);
                }
            }
        }
        i += 1;
    }
    proof {
        assert(s@.take(s.len() as int) =~= s@);
    }
    Some(v)
}

/// Reads a natural number that fits in 64 bits.
pub fn parse_u64(s: &[u8]) -> (r: Option<u64>)
    ensures
        r is Some <==> unsigned_value(s@) is Some && unsigned_value(s@).unwrap() <= u64::MAX,
        r is Some ==> r.unwrap() == unsigned_value(s@).unwrap(),
{
    if s.len() > 0 && s[0] == PLUS {
        parse_digits(slice_subrange(s, 1, s.len()))
    } else {
        parse_digits(s)
    }
}

/// Reads a natural number that fits in a `usize`.
pub fn parse_usize(s: &[u8]) -> (r: Option<usize>)
    ensures
        r is Some <==> unsigned_value(s@) is Some && unsigned_value(s@).unwrap() <= usize::MAX,
        r is Some ==> r.unwrap() == unsigned_value(s@).unwrap(),
{
    match parse_u64(s) {
        Some(v) => {
            if v <= usize::MAX as u64 {
                Some(v as usize)
            } else {
                None
            }
        },
        None => None,
    }
}

/// Reads an integer that fits in 64 bits.
pub fn parse_i64(s: &[u8]) -> (r: Option<i64>)
    ensures
        r is Some <==> signed_value(s@) is Some && i64::MIN <= signed_value(s@).unwrap()
            <= i64::MAX,
        r is Some ==> r.unwrap() == signed_value(s@).unwrap(),
{
    if s.len() > 0 && s[0] == MINUS {
        match parse_digits(slice_subrange(s, 1, s.len())) {
            Some(v) => {
                if v <= 0x7fff_ffff_ffff_ffff {
                    Some(-(v as i64))
                } else if v == 0x8000_0000_0000_0000 {
                    Some(i64::MIN)
                } else {
                    None
                }
            },
            None => None,
        }
    } else {
        match parse_u64(s) {
            Some(v) => {
                if v <= 0x7fff_ffff_ffff_ffff {
                    Some(v as i64)
                } else {
                    None
                }
            },
            None => None,
        }
    }
}

// ----- pieces of a line -----
/// `b` is a space, a tab or another white space of ASCII.
pub open spec fn is_space(b: u8) -> bool {
    b == 32 || (9 <= b <= 13)
}

pub fn is_space_byte(b: u8) -> (r: bool)
    ensures
        r == is_space(b),
{
    b == 32 || (9 <= b && b <= 13)
}

/// `s` without the white space at its start.
pub open spec fn trim_start(s: Seq<u8>) -> Seq<u8>
    decreases s.len(),
{
    if s.len() > 0 && is_space(s[0]) {
        trim_start(s.skip(1))
    } else {
        s
    }
}

/// `s` without the white space at its end.
pub open spec fn trim_end(s: Seq<u8>) -> Seq<u8>
    decreases s.len(),
{
    if s.len() > 0 && is_space(s.last()) {
        trim_end(s.drop_last())
    } else {
        s
    }
}

/// `s` without the white space at its start and at its end.
pub open spec fn trim(s: Seq<u8>) -> Seq<u8> {
    trim_end(trim_start(s))
}

proof fn lemma_trim_start(s: Seq<u8>, n: int)
    requires
        0 <= n <= s.len(),
        forall|i: int| 0 <= i < n ==> is_space(#[trigger] s[i]),
        n == s.len() || !is_space(s[n]),
    ensures
        trim_start(s) == s.skip(n),
    decreases n,
{
    if n > 0 {
        let t = s.skip(1);
        assert forall|i: int| 0 <= i < n - 1 implies is_space(#[trigger] t[i]) by {
            assert(t[i] == s[i + 1]);
        }
        lemma_trim_start(t, n - 1);
        assert(t.skip(n - 1) =~= s.skip(n));
    } else {
        assert(s.skip(0) =~= s);
    }
}

proof fn lemma_trim_end(s: Seq<u8>, n: int)
    requires
        0 <= n <= s.len(),
        forall|i: int| n <= i < s.len() ==> is_space(#[trigger] s[i]),
        n == 0 || !is_space(s[n - 1]),
    ensures
        trim_end(s) == s.take(n),
    decreases s.len() - n,
{
    if n < s.len() {
        let t = s.drop_last();
        lemma_trim_end(t, n);
        assert(t.take(n) =~= s.take(n));
    } else {
        assert(s.take(n) =~= s);
    }
}

/// A copy of `s` without the white space at its start and at its end.
pub fn trim_bytes(s: &[u8]) -> (r: Vec<u8>)
    ensures
        r@ == trim(s@),
{
    let mut a: usize = 0;
    while a < s.len() && is_space_byte(s[a])
        invariant
            a <= s.len(),
            forall|i: int| 0 <= i < a ==> is_space(#[trigger] s@[i]),
        decreases s.len() - a,
    {
        a += 1;
    }
    let mut b: usize = s.len();
    while b > a && is_space_byte(s[b - 1])
        invariant
            a <= b <= s.len(),
            forall|i: int| b <= i < s.len() ==> is_space(#[trigger] s@[i]),
        decreases b,
    {
        b -= 1;
    }
    proof {
        lemma_trim_start(s@, a as int);
        let t = s@.skip(a as int);
        assert forall|i: int| b - a <= i < t.len() implies is_space(#[trigger] t[i]) by {
            assert(t[i] == s@[i + a]);
        }
        lemma_trim_end(t, b - a);
        assert(t.take(b - a) =~= s@.subrange(a as int, b as int));
    }
    copy_bytes(slice_subrange(s, a, b))
}

/// The first place of `b` in `s`, or the length of `s` where it has none.
pub open spec fn first_index(s: Seq<u8>, b: u8) -> int
    decreases s.len(),
{
    if s.len() == 0 || s[0] == b {
        0
    } else {
        1 + first_index(s.skip(1), b)
    }
}

/// The first place of a byte is the place before which it does not stand and at which it does.
pub proof fn lemma_first_index(s: Seq<u8>, b: u8, n: int)
    requires
        0 <= n <= s.len(),
        forall|i: int| 0 <= i < n ==> #[trigger] s[i] != b,
        n == s.len() || s[n] == b,
    ensures
        first_index(s, b) == n,
    decreases n,
{
    if n > 0 {
        let t = s.skip(1);
        assert forall|i: int| 0 <= i < n - 1 implies #[trigger] t[i] != b by {
            assert(t[i] == s[i + 1]);
        }
        lemma_first_index(t, b, n - 1);
    }
}

/// The first place of a byte is no later than any place where it stands.
pub proof fn lemma_first_index_bound(s: Seq<u8>, b: u8, i: int)
    requires
        0 <= i < s.len(),
        s[i] == b,
    ensures
        first_index(s, b) <= i,
    decreases i,
{
    if i > 0 && s[0] != b {
        lemma_first_index_bound(s.skip(1), b, i - 1);
    }
}

/// The first place of `b` in `s`, or the length of `s` where it has none.
pub fn find_byte(s: &[u8], b: u8) -> (n: usize)
    ensures
        n == first_index(s@, b),
        n <= s.len(),
        n < s.len() ==> s@[n as int] == b,
{
    let mut n: usize = 0;
    while n < s.len() && s[n] != b
        invariant
            n <= s.len(),
            forall|i: int| 0 <= i < n ==> #[trigger] s@[i] != b,
        decreases s.len() - n,
    {
        n += 1;
    }
    proof {
        lemma_first_index(s@, b, n as int);
    }
    n
}

/// What stands before the first `b` in `s` and what stands after it, where `s` holds `b`.
pub open spec fn split_once(s: Seq<u8>, b: u8) -> Option<(Seq<u8>, Seq<u8>)> {
    let n = first_index(s, b);
    if n < s.len() {
        Some((s.take(n), s.skip(n + 1)))
    } else {
        None
    }
}

pub fn split_once_byte(s: &[u8], b: u8) -> (r: Option<(Vec<u8>, Vec<u8>)>)
    ensures
        match r {
            Some((x, y)) => split_once(s@, b) == Some((x@, y@)),
            None => split_once(s@, b) is None,
        },
{
    let n = find_byte(s, b);
    if n < s.len() {
        let x = copy_bytes(slice_subrange(s, 0, n));
        let y = copy_bytes(slice_subrange(s, n + 1, s.len()));
        proof {
            assert(x@ =~= s@.take(n as int));
            assert(y@ =~= s@.skip(n + 1));
        }
        Some((x, y))
    } else {
        None
    }
}

/// `s` starts with `prefix`.
pub open spec fn has_prefix(s: Seq<u8>, prefix: Seq<u8>) -> bool {
    prefix.len() <= s.len() && s.take(prefix.len() as int) == prefix
}

pub fn starts_with(s: &[u8], prefix: &[u8]) -> (r: bool)
    ensures
        r == has_prefix(s@, prefix@),
{
    if prefix.len() > s.len() {
        return false;
    }
    let mut i: usize = 0;
    while i < prefix.len()
        invariant
            i <= prefix.len() <= s.len(),
            forall|k: int| 0 <= k < i ==> s@[k] == prefix@[k],
        decreases prefix.len() - i,
    {
        if s[i] != prefix[i] {
            proof {
                assert(s@.take(prefix.len() as int)[i as int] != prefix@[i as int]);
            }
            return false;
        }
        i += 1;
    }
    proof {
        assert(s@.take(prefix.len() as int) =~= prefix@);
    }
    true
}

/// The pieces of `s` between its white space: one more than there are spaces.
pub open spec fn split_at_spaces(s: Seq<u8>) -> Seq<Seq<u8>>
    decreases s.len(),
{
    if s.len() == 0 {
        seq![Seq::<u8>::empty()]
    } else {
        let p = split_at_spaces(s.drop_last());
        if is_space(s.last()) {
            p.push(Seq::<u8>::empty())
        } else {
            p.drop_last().push(p.last().push(s.last()))
        }
    }
}

/// The words of `s`: what stands between its white space.
pub open spec fn words(s: Seq<u8>) -> Seq<Seq<u8>> {
    nonempty_rows(split_at_spaces(s))
}

/// The words of `s`: what stands between its white space.
pub fn split_words(s: &[u8]) -> (r: Vec<Vec<u8>>)
    ensures
        rows_view(r@) == words(s@),
{
    let mut out: Vec<Vec<u8>> = Vec::new();
    let mut cur: Vec<u8> = Vec::new();
    let mut i: usize = 0;
    proof {
        assert(rows_view(out@).push(cur@) =~= split_at_spaces(s@.take(0)));
    }
    while i < s.len()
        invariant
            i <= s.len(),
            rows_view(out@).push(cur@) == split_at_spaces(s@.take(i as int)),
        decreases s.len() - i,
    {
        let ghost prev = s@.take(i as int);
        let ghost next = s@.take(i + 1);
        proof {
            assert(next.drop_last() =~= prev);
            assert(next.last() == s@[i as int]);
        }
        if is_space_byte(s[i]) {
            let ghost out0 = out@;
            out.push(cur);
            cur = Vec::new();
            proof {
                assert(rows_view(out@) =~= rows_view(out0).push(out@.last()@));
                assert(rows_view(out@).push(cur@) =~= split_at_spaces(prev).push(
                    Seq::<u8>::empty(),
                ));
            }
        } else {
            let ghost cur0 = cur@;
            cur.push(s[i]);
            proof {
                let p = split_at_spaces(prev);
                assert(p.drop_last() =~= rows_view(out@));
                assert(p.last() == cur0);
            }
        }
        i += 1;
    }
    let ghost out0 = out@;
    out.push(cur);
    proof {
        assert(s@.take(s.len() as int) =~= s@);
        assert(rows_view(out@) =~= rows_view(out0).push(out@.last()@));
    }
    let ghost pieces = rows_view(out@);
    let mut kept: Vec<Vec<u8>> = Vec::new();
    let mut j: usize = 0;
    proof {
        assert(pieces.take(0) =~= Seq::<Seq<u8>>::empty());
        assert(rows_view(kept@) =~= nonempty_rows(pieces.take(0)));
    }
    while j < out.len()
        invariant
            j <= out.len(),
            rows_view(out@) == pieces,
            rows_view(kept@) == nonempty_rows(pieces.take(j as int)),
        decreases out.len() - j,
    {
        proof {
            assert(pieces.take(j + 1).drop_last() =~= pieces.take(j as int));
            assert(pieces[j as int] == out@[j as int]@);
        }
        if out[j].len() > 0 {
            let row = copy_bytes(out[j].as_slice());
            let ghost kept0 = kept@;
            kept.push(row);
            proof {
                assert(rows_view(kept@) =~= rows_view(kept0).push(row@));
            }
        }
        j += 1;
    }
    proof {
        assert(pieces.take(out.len() as int) =~= pieces);
    }
    kept
}

/// Whether two texts are the same.
pub fn same_bytes(a: &[u8], b: &[u8]) -> (r: bool)
    ensures
        r == (a@ == b@),
{
    if a.len() != b.len() {
        return false;
    }
    let mut i: usize = 0;
    while i < a.len()
        invariant
            i <= a.len(),
            a.len() == b.len(),
            forall|k: int| 0 <= k < i ==> a@[k] == b@[k],
        decreases a.len() - i,
    {
        if a[i] != b[i] {
            return false;
        }
        i += 1;
    }
    proof {
        assert(a@ =~= b@);
    }
    true
}

// ----- splitting at a word -----
/// The first place from `i` on where `pat` stands in `s`, or the length of `s` where it stands nowhere.
pub open spec fn first_match(s: Seq<u8>, pat: Seq<u8>, i: int) -> int
    decreases s.len() - i,
{
    if i < 0 || i >= s.len() || i + pat.len() > s.len() {
        s.len() as int
    } else if s.subrange(i, i + pat.len()) == pat {
        i
    } else {
        first_match(s, pat, i + 1)
    }
}

/// The pieces of `s` between the places where `pat` stands, found from left to right.
pub open spec fn split_on(s: Seq<u8>, pat: Seq<u8>) -> Seq<Seq<u8>>
    decreases s.len(),
{
    let i = first_match(s, pat, 0);
    if pat.len() == 0 || i >= s.len() || i < 0 || i + pat.len() > s.len() {
        seq![s]
    } else {
        seq![s.take(i)] + split_on(s.skip(i + pat.len()), pat)
    }
}

/// The first place where `pat` stands in `s`, or the length of `s` where it stands nowhere.
pub fn find_word(s: &[u8], pat: &[u8]) -> (r: usize)
    ensures
        r == first_match(s@, pat@, 0),
        r <= s.len(),
        r < s.len() ==> r + pat.len() <= s.len(),
{
    let mut i: usize = 0;
    while i < s.len() && pat.len() <= s.len() - i
        invariant
            i <= s.len(),
            first_match(s@, pat@, 0) == first_match(s@, pat@, i as int),
        decreases s.len() - i,
    {
        let here = slice_subrange(s, i, i + pat.len());
        if same_bytes(here, pat) {
            return i;
        }
        i += 1;
    }
    s.len()
}

/// The pieces of `s` between the places where `pat` stands.
pub fn split_at_word(s: &[u8], pat: &[u8]) -> (r: Vec<Vec<u8>>)
    ensures
        rows_view(r@) == split_on(s@, pat@),
        r.len() >= 1,
{
    let mut out: Vec<Vec<u8>> = Vec::new();
    let mut from: usize = 0;
    proof {
        assert(s@.skip(0) =~= s@);
    }
    loop
        invariant_except_break
            from <= s.len(),
            rows_view(out@) + split_on(s@.skip(from as int), pat@) == split_on(s@, pat@),
        ensures
            rows_view(out@) == split_on(s@, pat@),
            out.len() >= 1,
        decreases s.len() - from,
    {
        let rest = slice_subrange(s, from, s.len());
        proof {
            assert(rest@ =~= s@.skip(from as int));
        }
        let i = find_word(rest, pat);
        let ghost out0 = out@;
        if pat.len() == 0 || i >= rest.len() {
            out.push(copy_bytes(rest));
            proof {
                assert(rows_view(out@) =~= rows_view(out0).push(rest@));
                assert(rows_view(out0) + seq![rest@] =~= rows_view(out0).push(rest@));
            }
            break ;
        }
        let piece = copy_bytes(slice_subrange(rest, 0, i));
        out.push(piece);
        proof {
            assert(piece@ =~= rest@.take(i as int));
            assert(rows_view(out@) =~= rows_view(out0).push(piece@));
            assert(rest@.skip(i + pat.len()) =~= s@.skip(from + i + pat.len()));
            assert(rows_view(out0) + (seq![piece@] + split_on(
                rest@.skip(i + pat.len()),
                pat@,
            )) =~= rows_view(out@) + split_on(s@.skip(from + i + pat.len()), pat@));
        }
        from = from + i + pat.len();
    }
    out
}

// ----- lists of numbers -----
/// Every word of `s` writes a number that fits a `usize`.
pub open spec fn numbers_ok(s: Seq<u8>) -> bool {
    forall|i: int|
        0 <= i < words(s).len() ==> unsigned_value(#[trigger] words(s)[i]) is Some && unsigned_value(
            words(s)[i],
        ).unwrap() <= usize::MAX
}

/// The numbers that the words of `s` write.
pub open spec fn numbers(s: Seq<u8>) -> Seq<nat> {
    words(s).map_values(|w: Seq<u8>| unsigned_value(w).unwrap())
}

/// The numbers as naturals.
pub open spec fn nats(v: Seq<usize>) -> Seq<nat> {
    v.map_values(|x: usize| x as nat)
}

/// Reads the numbers that stand in `s` between white space.
pub fn parse_numbers(s: &[u8]) -> (r: Option<Vec<usize>>)
    ensures
        match r {
            Some(v) => numbers_ok(s@) && nats(v@) == numbers(s@),
            None => !numbers_ok(s@),
        },
{
    let ws = split_words(s);
    let ghost w = words(s@);
    let mut out: Vec<usize> = Vec::new();
    let mut i: usize = 0;
    proof {
        assert(w.len() == ws.len());
    }
    while i < ws.len()
        invariant
            i <= ws.len(),
            rows_view(ws@) == w,
            w == words(s@),
            w.len() == ws.len(),
            out.len() == i,
            forall|k: int|
                0 <= k < i ==> unsigned_value(#[trigger] w[k]) is Some && unsigned_value(
                    w[k],
                ).unwrap() == out[k],
        decreases ws.len() - i,
    {
        proof {
            assert(w[i as int] == ws@[i as int]@);
        }
        match parse_usize(ws[i].as_slice()) {
            Some(v) => {
                out.push(v);
            },
            None => {
                return None;
            },
        }
        i += 1;
    }
    proof {
        assert(nats(out@) =~= numbers(s@));
    }
    Some(out)
}

/// The string that the bytes write: `String::from_utf8` of the standard
/// library, which gives the string of exactly these bytes where they are
/// UTF-8, and an error where they are not.
#[verifier::external_body]
pub(crate) fn string_from_utf8(bytes: Vec<u8>) -> (r: Option<String>)
    ensures
        match r {
            Some(s) => bytes_of(s@) == bytes@,
            None => !vstd::utf8::valid_utf8(bytes@),
        },
{
    String::from_utf8(bytes).ok()
}

/// The text that the bytes write.
pub open spec fn text_of(bytes: Seq<u8>) -> Seq<char> {
    vstd::utf8::decode_utf8(bytes)
}

/// The string that a row of bytes writes, where it writes one.
pub fn string_of(row: &[u8]) -> (r: Option<String>)
    ensures
        r is Some <==> vstd::utf8::valid_utf8(row@),
        match r {
            Some(s) => s@ == text_of(row@) && bytes_of(s@) == row@,
            None => true,
        },
{
    let r = string_from_utf8(copy_bytes(row));
    proof {
        if r is Some {
            vstd::utf8::encode_utf8_decode_utf8(r.unwrap()@);
            vstd::utf8::encode_utf8_valid_utf8(r.unwrap()@);
        }
    }
    r
}

/// The strings that the rows write, where each writes one.
pub fn strings_of(rows: &Vec<Vec<u8>>) -> (r: Option<Vec<String>>)
    ensures
        r is Some <==> forall|i: int| 0 <= i < rows.len() ==> vstd::utf8::valid_utf8(#[trigger] rows[i]@),
        match r {
            Some(v) => v.len() == rows.len() && forall|i: int|
                0 <= i < v.len() ==> (#[trigger] v[i])@ == text_of(rows[i]@) && bytes_of(v[i]@)
                    == rows[i]@,
            None => true,
        },
{
    let mut out: Vec<String> = Vec::new();
    let mut i: usize = 0;
    while i < rows.len()
        invariant
            i <= rows.len(),
            out.len() == i,
            forall|k: int| 0 <= k < i ==> vstd::utf8::valid_utf8(#[trigger] rows[k]@),
            forall|k: int|
                0 <= k < i ==> (#[trigger] out[k])@ == text_of(rows[k]@) && bytes_of(out[k]@)
                    == rows[k]@,
        decreases rows.len() - i,
    {
        match string_of(rows[i].as_slice()) {
            Some(s) => {
                out.push(s);
            },
            None => {
                return None;
            },
        }
        i += 1;
    }
    Some(out)
}

// ----- writing numbers -----
/// Appends a character to a string: `String::push` of the standard
/// library, which adds the character at the end and changes nothing else.
#[verifier::external_body]
pub(crate) fn push_char(s: &mut String, c: char)
    ensures
        final(s)@ == old(s)@.push(c),
{
    s.push(c);
}

/// The character that writes the digit `d`.
pub open spec fn digit_char(d: int) -> char {
    if d == 0 {
        '0'
    } else if d == 1 {
        '1'
    } else if d == 2 {
        '2'
    } else if d == 3 {
        '3'
    } else if d == 4 {
        '4'
    } else if d == 5 {
        '5'
    } else if d == 6 {
        '6'
    } else if d == 7 {
        '7'
    } else if d == 8 {
        '8'
    } else {
        '9'
    }
}

/// The decimal digits of `n`, none for zero.
pub open spec fn digits_of(n: nat) -> Seq<char>
    decreases n,
{
    if n == 0 {
        Seq::<char>::empty()
    } else {
        digits_of(n / 10).push(digit_char((n % 10) as int))
    }
}

/// `n` written in decimal.
pub open spec fn decimal(n: nat) -> Seq<char> {
    if n == 0 {
        seq!['0']
    } else {
        digits_of(n)
    }
}

/// `n` written in decimal, with a minus sign where it is negative.
pub open spec fn signed_decimal(n: int) -> Seq<char> {
    if n < 0 {
        seq!['-'] + decimal((-n) as nat)
    } else {
        decimal(n as nat)
    }
}

fn digit_to_char(d: u8) -> (c: char)
    requires
        d < 10,
    ensures
        c == digit_char(d as int),
{
    if d == 0 {
        '0'
    } else if d == 1 {
        '1'
    } else if d == 2 {
        '2'
    } else if d == 3 {
        '3'
    } else if d == 4 {
        '4'
    } else if d == 5 {
        '5'
    } else if d == 6 {
        '6'
    } else if d == 7 {
        '7'
    } else if d == 8 {
        '8'
    } else {
        '9'
    }
}

/// Appends the decimal digits of `n`, nothing for zero.
fn push_digits(s: &mut String, n: u128)
    ensures
        final(s)@ == old(s)@ + digits_of(n as nat),
    decreases n,
{
    if n != 0 {
        push_digits(s, n / 10);
        push_char(s, digit_to_char((n % 10) as u8));
        proof {
            assert(final(s)@ =~= old(s)@ + digits_of(n as nat));
        }
    } else {
        proof {
            assert(s@ =~= old(s)@ + digits_of(0));
        }
    }
}

/// Writes `n` in decimal.
pub fn decimal_string(n: u128) -> (s: String)
    ensures
        s@ == decimal(n as nat),
{
    let mut s = String::new();
    if n == 0 {
        push_char(&mut s, '0');
        proof {
            assert(s@ =~= seq!['0']);
        }
    } else {
        push_digits(&mut s, n);
        proof {
            assert(s@ =~= digits_of(n as nat));
        }
    }
    s
}

/// Writes `n` in decimal, with a minus sign where it is negative.
pub fn signed_decimal_string(n: i128) -> (s: String)
    ensures
        s@ == signed_decimal(n as int),
{
    let mut s = String::new();
    if n < 0 {
        push_char(&mut s, '-');
        let m: u128 = if n == i128::MIN {
            0x8000_0000_0000_0000_0000_0000_0000_0000
        } else {
            (-n) as u128
        };
        if m == 0 {
            push_char(&mut s, '0');
        } else {
            push_digits(&mut s, m);
        }
        proof {
            assert(s@ =~= seq!['-'] + decimal(m as nat));
        }
    } else {
        if n == 0 {
            push_char(&mut s, '0');
            proof {
                assert(s@ =~= seq!['0']);
            }
        } else {
            push_digits(&mut s, n as u128);
            proof {
                assert(s@ =~= digits_of(n as nat));
            }
        }
    }
    s
}

} // verus!
