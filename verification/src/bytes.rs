//! Byte-sequence primitives shared by the parsers: searching for a separator,
//! splitting on one, and trimming whitespace.

use vstd::prelude::*;
use vstd::slice::slice_subrange;
use vstd::slice::slice_to_vec;

verus! {

/// Carriage return.
pub const CR: u8 = 13;

/// Line feed.
pub const LF: u8 = 10;

/// Space, the token separator of the request line.
pub const SP: u8 = 32;

/// Question mark, the separator between resource and query string.
pub const QMARK: u8 = 63;

/// Ampersand, the separator between query pairs.
pub const AMP: u8 = 38;

/// Equals sign, the separator between a query key and its value.
pub const EQ: u8 = 61;

/// Colon, the separator between a header key and its value.
pub const COLON: u8 = 58;

/// The index of the first occurrence of `b` in `s` at or after `i`, or
/// `s.len()` if `b` does not occur there.
pub open spec fn find_byte_from(s: Seq<u8>, b: u8, i: int) -> int
    decreases s.len() - i,
    when 0 <= i <= s.len()
{
    if i >= s.len() {
        s.len() as int
    } else if s[i] == b {
        i
    } else {
        find_byte_from(s, b, i + 1)
    }
}

/// The index of the first occurrence of `b` in `s`, or `s.len()` if none.
pub open spec fn find_byte(s: Seq<u8>, b: u8) -> int {
    find_byte_from(s, b, 0)
}

/// `find_byte_from` returns the first match at or after `i`: it lies between
/// `i` and `s.len()`, points at `b` unless it is `s.len()`, and nothing
/// before it matches.
pub proof fn lemma_find_byte_from(s: Seq<u8>, b: u8, i: int)
    requires
        0 <= i <= s.len(),
    ensures
        i <= find_byte_from(s, b, i) <= s.len(),
        find_byte_from(s, b, i) < s.len() ==> s[find_byte_from(s, b, i)] == b,
        forall|j: int| i <= j < find_byte_from(s, b, i) ==> s[j] != b,
    decreases s.len() - i,
{
    if i < s.len() && s[i] != b {
        lemma_find_byte_from(s, b, i + 1);
    }
}

/// Any index that points at `b` with nothing matching before it is exactly
/// what `find_byte_from` returns.
pub proof fn lemma_find_byte_from_is_first(s: Seq<u8>, b: u8, i: int, j: int)
    requires
        0 <= i <= j <= s.len(),
        forall|m: int| i <= m < j ==> s[m] != b,
        j < s.len() ==> s[j] == b,
    ensures
        find_byte_from(s, b, i) == j,
    decreases s.len() - i,
{
    if i < s.len() && s[i] != b {
        lemma_find_byte_from_is_first(s, b, i + 1, j);
    }
}

/// The index of the first occurrence of the line terminator CR LF in `s` at
/// or after `i`, or `s.len()` if it does not occur there.
pub open spec fn find_crlf_from(s: Seq<u8>, i: int) -> int
    decreases s.len() - i,
    when 0 <= i <= s.len()
{
    if i + 2 > s.len() {
        s.len() as int
    } else if s[i] == CR && s[i + 1] == LF {
        i
    } else {
        find_crlf_from(s, i + 1)
    }
}

/// `find_crlf_from` returns the first CR LF at or after `i`.
pub proof fn lemma_find_crlf_from(s: Seq<u8>, i: int)
    requires
        0 <= i <= s.len(),
    ensures
        i <= find_crlf_from(s, i) <= s.len(),
        find_crlf_from(s, i) + 2 <= s.len() || find_crlf_from(s, i) == s.len(),
        find_crlf_from(s, i) < s.len() ==> s[find_crlf_from(s, i)] == CR && s[find_crlf_from(s, i)
            + 1] == LF,
        forall|j: int|
            #![trigger s[j]]
            i <= j < find_crlf_from(s, i) && j + 2 <= s.len() ==> !(s[j] == CR && s[j + 1] == LF),
    decreases s.len() - i,
{
    if i + 2 <= s.len() && !(s[i] == CR && s[i + 1] == LF) {
        lemma_find_crlf_from(s, i + 1);
    }
}

/// Any index that points at CR LF with no CR LF before it is exactly what
/// `find_crlf_from` returns.
pub proof fn lemma_find_crlf_from_is_first(s: Seq<u8>, i: int, j: int)
    requires
        0 <= i <= j <= s.len(),
        forall|m: int| #![trigger s[m]] i <= m < j && m + 2 <= s.len() ==> !(s[m] == CR && s[m + 1] == LF),
        j < s.len() ==> j + 2 <= s.len() && s[j] == CR && s[j + 1] == LF,
    ensures
        find_crlf_from(s, i) == j,
    decreases s.len() - i,
{
    if i + 2 <= s.len() && !(s[i] == CR && s[i + 1] == LF) {
        lemma_find_crlf_from_is_first(s, i + 1, j);
    } else if i + 2 > s.len() {
        assert(forall|m: int| #![trigger s[m]] i <= m < s.len() ==> m + 2 > s.len());
    }
}

/// The index of the first occurrence of CR LF CR in `s` at or after `i`, or
/// `s.len()` if it does not occur there.  This three-byte pattern marks the
/// end of the header block.
pub open spec fn find_crlfcr_from(s: Seq<u8>, i: int) -> int
    decreases s.len() - i,
    when 0 <= i <= s.len()
{
    if i + 3 > s.len() {
        s.len() as int
    } else if s[i] == CR && s[i + 1] == LF && s[i + 2] == CR {
        i
    } else {
        find_crlfcr_from(s, i + 1)
    }
}

/// `find_crlfcr_from` returns the first CR LF CR at or after `i`.
pub proof fn lemma_find_crlfcr_from(s: Seq<u8>, i: int)
    requires
        0 <= i <= s.len(),
    ensures
        i <= find_crlfcr_from(s, i) <= s.len(),
        find_crlfcr_from(s, i) + 3 <= s.len() || find_crlfcr_from(s, i) == s.len(),
        find_crlfcr_from(s, i) < s.len() ==> s[find_crlfcr_from(s, i)] == CR && s[find_crlfcr_from(
            s,
            i,
        ) + 1] == LF && s[find_crlfcr_from(s, i) + 2] == CR,
        forall|j: int|
            #![trigger s[j]]
            i <= j < find_crlfcr_from(s, i) && j + 3 <= s.len() ==> !(s[j] == CR && s[j + 1] == LF
                && s[j + 2] == CR),
    decreases s.len() - i,
{
    if i + 3 <= s.len() && !(s[i] == CR && s[i + 1] == LF && s[i + 2] == CR) {
        lemma_find_crlfcr_from(s, i + 1);
    }
}

/// Any index that points at CR LF CR with no CR LF CR before it is exactly
/// what `find_crlfcr_from` returns.
pub proof fn lemma_find_crlfcr_from_is_first(s: Seq<u8>, i: int, j: int)
    requires
        0 <= i <= j <= s.len(),
        forall|m: int|
            #![trigger s[m]]
            i <= m < j && m + 3 <= s.len() ==> !(s[m] == CR && s[m + 1] == LF && s[m + 2] == CR),
        j < s.len() ==> j + 3 <= s.len() && s[j] == CR && s[j + 1] == LF && s[j + 2] == CR,
    ensures
        find_crlfcr_from(s, i) == j,
    decreases s.len() - i,
{
    if i + 3 <= s.len() && !(s[i] == CR && s[i + 1] == LF && s[i + 2] == CR) {
        lemma_find_crlfcr_from_is_first(s, i + 1, j);
    } else if i + 3 > s.len() {
        assert(forall|m: int| #![trigger s[m]] i <= m < s.len() ==> m + 3 > s.len());
    }
}

/// Searching from `i` is searching the suffix that starts at `i`.
pub proof fn lemma_find_byte_from_shift(s: Seq<u8>, b: u8, i: int)
    requires
        0 <= i <= s.len(),
    ensures
        find_byte_from(s, b, i) == i + find_byte(s.skip(i), b),
{
    let r = find_byte_from(s, b, i);
    lemma_find_byte_from(s, b, i);
    assert(forall|m: int| 0 <= m < s.skip(i).len() ==> s.skip(i)[m] == s[i + m]);
    lemma_find_byte_from_is_first(s.skip(i), b, 0, r - i);
}

/// Splitting from `i` on is splitting the suffix that starts at `i`.
pub proof fn lemma_split_byte_from_shift(s: Seq<u8>, b: u8, i: int)
    requires
        0 <= i <= s.len(),
    ensures
        split_byte_from(s, b, i) == split_byte(s.skip(i), b),
    decreases s.len() - i,
{
    let r = s.skip(i);
    let j = find_byte_from(s, b, i);
    lemma_find_byte_from(s, b, i);
    lemma_find_byte_from_shift(s, b, i);
    if j == s.len() {
        assert(s.subrange(i, s.len() as int) =~= r.subrange(0, r.len() as int));
        assert(r.subrange(0, r.len() as int) =~= r);
        assert(find_byte(r, b) == r.len());
    } else {
        lemma_split_byte_from_shift(s, b, j + 1);
        assert(s.subrange(i, j) =~= r.subrange(0, j - i));
        assert(s.skip(j + 1) =~= r.skip(j - i + 1));
        assert(split_byte(r, b) == seq![r.subrange(0, j - i)] + split_byte_from(r, b, j - i + 1))
            by {
            assert(find_byte(r, b) == j - i);
        }
        lemma_split_byte_from_shift(r, b, j - i + 1);
    }
}

/// The pieces of `s` from `i` on, split on the byte `b`.  Splitting never
/// yields an empty sequence of pieces: a sequence without `b` is one piece,
/// and every separator ends one piece and starts another.
pub open spec fn split_byte_from(s: Seq<u8>, b: u8, i: int) -> Seq<Seq<u8>>
    decreases s.len() - i,
    when 0 <= i <= s.len()
    via split_byte_from_decreases
{
    let j = find_byte_from(s, b, i);
    if j == s.len() {
        seq![s.subrange(i, s.len() as int)]
    } else {
        seq![s.subrange(i, j)] + split_byte_from(s, b, j + 1)
    }
}

#[via_fn]
proof fn split_byte_from_decreases(s: Seq<u8>, b: u8, i: int) {
    lemma_find_byte_from(s, b, i);
}

/// The pieces of `s`, split on the byte `b`.
pub open spec fn split_byte(s: Seq<u8>, b: u8) -> Seq<Seq<u8>> {
    split_byte_from(s, b, 0)
}

/// The pieces of `s` from `i` on, split on the two-byte line terminator CR
/// LF.
pub open spec fn split_crlf_from(s: Seq<u8>, i: int) -> Seq<Seq<u8>>
    decreases s.len() - i,
    when 0 <= i <= s.len()
    via split_crlf_from_decreases
{
    let j = find_crlf_from(s, i);
    if j == s.len() {
        seq![s.subrange(i, s.len() as int)]
    } else {
        seq![s.subrange(i, j)] + split_crlf_from(s, j + 2)
    }
}

#[via_fn]
proof fn split_crlf_from_decreases(s: Seq<u8>, i: int) {
    lemma_find_crlf_from(s, i);
}

/// The lines of `s`, split on CR LF.
pub open spec fn split_crlf(s: Seq<u8>) -> Seq<Seq<u8>> {
    split_crlf_from(s, 0)
}

/// True of the bytes that count as whitespace when a header value is
/// trimmed: space, horizontal tab, line feed, vertical tab, form feed and
/// carriage return.
pub open spec fn is_ws(b: u8) -> bool {
    b == 0x20 || b == 0x09 || b == 0x0a || b == 0x0b || b == 0x0c || b == 0x0d
}

/// The index of the first byte of `s` at or after `i` that is not
/// whitespace, or `s.len()` if all of them are.
pub open spec fn first_non_ws(s: Seq<u8>, i: int) -> int
    decreases s.len() - i,
    when 0 <= i <= s.len()
{
    if i >= s.len() {
        s.len() as int
    } else if is_ws(s[i]) {
        first_non_ws(s, i + 1)
    } else {
        i
    }
}

/// `first_non_ws` returns the first non-whitespace position at or after `i`.
pub proof fn lemma_first_non_ws(s: Seq<u8>, i: int)
    requires
        0 <= i <= s.len(),
    ensures
        i <= first_non_ws(s, i) <= s.len(),
        first_non_ws(s, i) < s.len() ==> !is_ws(s[first_non_ws(s, i)]),
        forall|j: int| i <= j < first_non_ws(s, i) ==> is_ws(s[j]),
    decreases s.len() - i,
{
    if i < s.len() && is_ws(s[i]) {
        lemma_first_non_ws(s, i + 1);
    }
}

/// One past the index of the last byte of `s` before `j` that is not
/// whitespace, or `0` if all of them are.
pub open spec fn end_non_ws(s: Seq<u8>, j: int) -> int
    decreases j,
    when 0 <= j <= s.len()
{
    if j <= 0 {
        0
    } else if is_ws(s[j - 1]) {
        end_non_ws(s, j - 1)
    } else {
        j
    }
}

/// `end_non_ws` returns one past the last non-whitespace position before `j`.
pub proof fn lemma_end_non_ws(s: Seq<u8>, j: int)
    requires
        0 <= j <= s.len(),
    ensures
        0 <= end_non_ws(s, j) <= j,
        end_non_ws(s, j) > 0 ==> !is_ws(s[end_non_ws(s, j) - 1]),
        forall|m: int| end_non_ws(s, j) <= m < j ==> is_ws(s[m]),
    decreases j,
{
    if j > 0 && is_ws(s[j - 1]) {
        lemma_end_non_ws(s, j - 1);
    }
}

/// `s` with leading and trailing whitespace removed: the bytes from the
/// first non-whitespace byte to the last one, or the empty sequence if `s`
/// is all whitespace.
pub open spec fn trim(s: Seq<u8>) -> Seq<u8> {
    let a = first_non_ws(s, 0);
    let c = end_non_ws(s, s.len() as int);
    if a < c {
        s.subrange(a, c)
    } else {
        Seq::empty()
    }
}

/// Finds the first occurrence of `b` in `s[from..limit]`, reported against
/// the prefix `s@.take(limit)`.
pub fn find_byte_in(s: &[u8], b: u8, from: usize, limit: usize) -> (r: usize)
    requires
        from <= limit <= s@.len(),
    ensures
        r == find_byte_from(s@.take(limit as int), b, from as int),
        from <= r <= limit,
{
    let ghost p = s@.take(limit as int);
    let mut i: usize = from;
    while i < limit
        invariant
            from <= i <= limit <= s@.len(),
            p == s@.take(limit as int),
            find_byte_from(p, b, from as int) == find_byte_from(p, b, i as int),
        decreases limit - i,
    {
        if s[i] == b {
            return i;
        }
        i = i + 1;
    }
    limit
}

/// Finds the first CR LF in `s[from..limit]`, reported against the prefix
/// `s@.take(limit)`.
pub fn find_crlf_in(s: &[u8], from: usize, limit: usize) -> (r: usize)
    requires
        from <= limit <= s@.len(),
    ensures
        r == find_crlf_from(s@.take(limit as int), from as int),
        from <= r <= limit,
{
    let ghost p = s@.take(limit as int);
    let mut i: usize = from;
    while i < limit && limit - i >= 2
        invariant
            from <= i <= limit <= s@.len(),
            p == s@.take(limit as int),
            find_crlf_from(p, from as int) == find_crlf_from(p, i as int),
        decreases limit - i,
    {
        if s[i] == CR && s[i + 1] == LF {
            return i;
        }
        i = i + 1;
    }
    limit
}

/// Finds the first CR LF CR in `s[from..limit]`, reported against the
/// prefix `s@.take(limit)`.
pub fn find_crlfcr_in(s: &[u8], from: usize, limit: usize) -> (r: usize)
    requires
        from <= limit <= s@.len(),
    ensures
        r == find_crlfcr_from(s@.take(limit as int), from as int),
        from <= r <= limit,
{
    let ghost p = s@.take(limit as int);
    let mut i: usize = from;
    while i < limit && limit - i >= 3
        invariant
            from <= i <= limit <= s@.len(),
            p == s@.take(limit as int),
            find_crlfcr_from(p, from as int) == find_crlfcr_from(p, i as int),
        decreases limit - i,
    {
        if s[i] == CR && s[i + 1] == LF && s[i + 2] == CR {
            return i;
        }
        i = i + 1;
    }
    limit
}

/// Copies `s[from..to]` into a fresh vector.
pub fn subrange_vec(s: &[u8], from: usize, to: usize) -> (r: Vec<u8>)
    requires
        from <= to <= s@.len(),
    ensures
        r@ == s@.subrange(from as int, to as int),
{
    slice_to_vec(slice_subrange(s, from, to))
}

/// Compares two byte slices for equality.
pub fn bytes_eq(a: &[u8], b: &[u8]) -> (r: bool)
    ensures
        r == (a@ == b@),
{
    if a.len() != b.len() {
        assert(a@.len() != b@.len());
        return false;
    }
    let n = a.len();
    let mut i: usize = 0;
    while i < n
        invariant
            i <= n == a@.len() == b@.len(),
            forall|j: int| 0 <= j < i ==> a@[j] == b@[j],
        decreases n - i,
    {
        if a[i] != b[i] {
            return false;
        }
        i = i + 1;
    }
    assert(a@ =~= b@);
    true
}

/// Splits `s` into its pieces between occurrences of the byte `b`.
pub fn split_on_byte(s: &[u8], b: u8) -> (r: Vec<Vec<u8>>)
    ensures
        r.deep_view() == split_byte(s@, b),
{
    let mut out: Vec<Vec<u8>> = Vec::new();
    let mut pos: usize = 0;
    proof {
        assert(s@.take(s@.len() as int) =~= s@);
    }
    loop
        invariant_except_break
            pos <= s@.len(),
            split_byte(s@, b) == out.deep_view() + split_byte_from(s@, b, pos as int),
        ensures
            out.deep_view() == split_byte(s@, b),
        decreases s@.len() - pos,
    {
        let j = find_byte_in(s, b, pos, s.len());
        let piece = subrange_vec(s, pos, j);
        let ghost piece_view = piece@;
        let ghost old_out = out.deep_view();
        proof {
            assert(s@.take(s@.len() as int) =~= s@);
            lemma_find_byte_from(s@, b, pos as int);
            assert(find_byte_from(s@, b, pos as int) == j);
        }
        out.push(piece);
        proof {
            assert(out.deep_view() =~~= old_out.push(piece_view));
        }
        if j == s.len() {
            proof {
                assert(split_byte_from(s@, b, pos as int) =~~= seq![piece_view]);
                assert(out.deep_view() =~~= split_byte(s@, b));
            }
            break ;
        }
        proof {
            assert(split_byte_from(s@, b, pos as int) =~~= seq![piece_view] + split_byte_from(
                s@,
                b,
                j + 1,
            ));
            assert(out.deep_view() + split_byte_from(s@, b, j + 1) =~~= old_out
                + split_byte_from(s@, b, pos as int));
        }
        pos = j + 1;
    }
    out
}

/// Splits `s` into its lines between occurrences of CR LF.
pub fn split_on_crlf(s: &[u8], limit: usize) -> (r: Vec<Vec<u8>>)
    requires
        limit <= s@.len(),
    ensures
        r.deep_view() == split_crlf(s@.take(limit as int)),
{
    let ghost p = s@.take(limit as int);
    let mut out: Vec<Vec<u8>> = Vec::new();
    let mut pos: usize = 0;
    loop
        invariant_except_break
            pos <= limit <= s@.len(),
            p == s@.take(limit as int),
            split_crlf(p) == out.deep_view() + split_crlf_from(p, pos as int),
        ensures
            out.deep_view() == split_crlf(p),
        decreases limit - pos,
    {
        let j = find_crlf_in(s, pos, limit);
        let piece = subrange_vec(s, pos, j);
        let ghost piece_view = piece@;
        let ghost old_out = out.deep_view();
        proof {
            lemma_find_crlf_from(p, pos as int);
            assert(piece_view =~= p.subrange(pos as int, j as int));
        }
        out.push(piece);
        proof {
            assert(out.deep_view() =~~= old_out.push(piece_view));
        }
        if j == limit {
            proof {
                assert(j == p.len());
                assert(split_crlf_from(p, pos as int) =~~= seq![piece_view]);
                assert(out.deep_view() =~~= split_crlf(p));
            }
            break ;
        }
        proof {
            assert(split_crlf_from(p, pos as int) =~~= seq![piece_view] + split_crlf_from(
                p,
                j + 2,
            ));
            assert(out.deep_view() + split_crlf_from(p, j + 2) =~~= old_out + split_crlf_from(
                p,
                pos as int,
            ));
        }
        pos = j + 2;
    }
    out
}

/// Removes leading and trailing whitespace from `s`.
pub fn trim_bytes(s: &[u8]) -> (r: Vec<u8>)
    ensures
        r@ == trim(s@),
{
    let n = s.len();
    let mut a: usize = 0;
    while a < n && is_ws_byte(s[a])
        invariant
            a <= n == s@.len(),
            first_non_ws(s@, 0) == first_non_ws(s@, a as int),
        decreases n - a,
    {
        a = a + 1;
    }
    assert(a == first_non_ws(s@, 0));
    let mut c: usize = n;
    while c > a && is_ws_byte(s[c - 1])
        invariant
            a <= c <= n == s@.len(),
            a == first_non_ws(s@, 0),
            end_non_ws(s@, n as int) == end_non_ws(s@, c as int),
        decreases c,
    {
        c = c - 1;
    }
    if a < c {
        proof {
            assert(c == end_non_ws(s@, c as int));
        }
        subrange_vec(s, a, c)
    } else {
        proof {
            lemma_end_non_ws(s@, c as int);
            assert(end_non_ws(s@, s@.len() as int) <= c);
            assert(trim(s@) =~= Seq::<u8>::empty());
        }
        Vec::new()
    }
}

/// True of a byte that counts as whitespace for trimming.
pub fn is_ws_byte(b: u8) -> (r: bool)
    ensures
        r == is_ws(b),
{
    b == 0x20 || b == 0x09 || b == 0x0a || b == 0x0b || b == 0x0c || b == 0x0d
}

} // verus!
