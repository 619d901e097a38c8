//! Character-level helpers shared by the XML writer and the SQL scanner.
use vstd::prelude::*;

verus! {

/// `String::push` (std): appends one character at the end of the string.
/// Trusted: its contract says that the string's characters afterwards are
/// the old ones followed by `c`, which is what std documents.
#[verifier::external_body]
pub(crate) fn push_char(s: &mut String, c: char)
    ensures
        final(s)@ == old(s)@.push(c),
{
    s.push(c)
}

/// Appends the characters of `suffix` to `s`.
pub(crate) fn push_str(s: &mut String, suffix: &str)
    ensures
        final(s)@ == old(s)@ + suffix@,
{
    s.append(suffix);
}

/// `bytes_lt_at(a, b, i)`: `a` and `b` agree on their first `i` items and
/// `a` is smaller at position `i` (or ends there while `b` goes on).
pub open spec fn bytes_lt_at(a: Seq<u8>, b: Seq<u8>, i: int) -> bool {
    &&& 0 <= i <= a.len()
    &&& i <= b.len()
    &&& forall|k: int| 0 <= k < i ==> a[k] == b[k]
    &&& ((i < a.len() && i < b.len() && a[i] < b[i]) || (i == a.len() && i < b.len()))
}

/// Strict lexicographic order on byte sequences.
pub open spec fn bytes_lt(a: Seq<u8>, b: Seq<u8>) -> bool {
    exists|i: int| bytes_lt_at(a, b, i)
}

/// The order of `String` keys: lexicographic on their UTF-8 encodings,
/// which is the order of `Ord` on `str`.
pub open spec fn key_lt(a: Seq<char>, b: Seq<char>) -> bool {
    bytes_lt(vstd::utf8::encode_utf8(a), vstd::utf8::encode_utf8(b))
}

pub proof fn lemma_bytes_lt_irreflexive(a: Seq<u8>, b: Seq<u8>)
    ensures
        !(bytes_lt(a, b) && bytes_lt(b, a)),
{
    if bytes_lt(a, b) && bytes_lt(b, a) {
        let i = choose|i: int| bytes_lt_at(a, b, i);
        let j = choose|j: int| bytes_lt_at(b, a, j);
        if i < j {
            assert(a[i] == b[i]);
        } else if j < i {
            assert(a[j] == b[j]);
        }
    }
}

pub proof fn lemma_bytes_lt_transitive(a: Seq<u8>, b: Seq<u8>, c: Seq<u8>)
    requires
        bytes_lt(a, b),
        bytes_lt(b, c),
    ensures
        bytes_lt(a, c),
{
    let i = choose|i: int| bytes_lt_at(a, b, i);
    let j = choose|j: int| bytes_lt_at(b, c, j);
    if i <= j {
        if i < j {
            assert(b[i] == c[i] || i == b.len());
        }
        assert(bytes_lt_at(a, c, i));
    } else {
        assert(a[j] == b[j]);
        assert(bytes_lt_at(a, c, j));
    }
}

pub proof fn lemma_bytes_lt_total(a: Seq<u8>, b: Seq<u8>)
    ensures
        a =~= b || bytes_lt(a, b) || bytes_lt(b, a),
    decreases a.len(),
{
    if a.len() == 0 || b.len() == 0 {
        if a.len() < b.len() {
            assert(bytes_lt_at(a, b, 0));
        } else if b.len() < a.len() {
            assert(bytes_lt_at(b, a, 0));
        }
    } else if a[0] != b[0] {
        if a[0] < b[0] {
            assert(bytes_lt_at(a, b, 0));
        } else {
            assert(bytes_lt_at(b, a, 0));
        }
    } else {
        let a1 = a.drop_first();
        let b1 = b.drop_first();
        lemma_bytes_lt_total(a1, b1);
        if a1 =~= b1 {
            assert(a =~= b) by {
                assert forall|k: int| 0 <= k < a.len() implies a[k] == b[k] by {
                    if k > 0 {
                        assert(a[k] == a1[k - 1]);
                    }
                }
            }
        } else if bytes_lt(a1, b1) {
            let i = choose|i: int| bytes_lt_at(a1, b1, i);
            assert forall|k: int| 0 <= k < i + 1 implies a[k] == b[k] by {
                if k > 0 {
                    assert(a[k] == a1[k - 1]);
                }
            }
            assert(bytes_lt_at(a, b, i + 1));
        } else {
            let i = choose|i: int| bytes_lt_at(b1, a1, i);
            assert forall|k: int| 0 <= k < i + 1 implies b[k] == a[k] by {
                if k > 0 {
                    assert(a[k] == a1[k - 1]);
                }
            }
            assert(bytes_lt_at(b, a, i + 1));
        }
    }
}

/// Keys are strictly ordered: no key is below itself, the order is
/// transitive, and two different keys are always ordered one way or the other.
pub proof fn lemma_key_order(a: Seq<char>, b: Seq<char>, c: Seq<char>)
    ensures
        !key_lt(a, a),
        key_lt(a, b) ==> !key_lt(b, a),
        key_lt(a, b) && key_lt(b, c) ==> key_lt(a, c),
        a == b || key_lt(a, b) || key_lt(b, a),
{
    let ea = vstd::utf8::encode_utf8(a);
    let eb = vstd::utf8::encode_utf8(b);
    let ec = vstd::utf8::encode_utf8(c);
    lemma_bytes_lt_irreflexive(ea, ea);
    lemma_bytes_lt_irreflexive(ea, eb);
    if key_lt(a, b) && key_lt(b, c) {
        lemma_bytes_lt_transitive(ea, eb, ec);
    }
    lemma_bytes_lt_total(ea, eb);
    if ea =~= eb {
        vstd::utf8::encode_utf8_decode_utf8(a);
        vstd::utf8::encode_utf8_decode_utf8(b);
    }
}

/// Compares two strings in the order of `key_lt`, in one pass over their
/// bytes.
pub fn key_less(a: &str, b: &str) -> (r: bool)
    ensures
        r == key_lt(a@, b@),
{
    let x = a.as_bytes();
    let y = b.as_bytes();
    let ghost ea = vstd::utf8::encode_utf8(a@);
    let ghost eb = vstd::utf8::encode_utf8(b@);
    assert(x@ == ea);
    assert(y@ == eb);
    let n = if x.len() < y.len() {
        x.len()
    } else {
        y.len()
    };
    let mut i: usize = 0;
    while i < n
        invariant
            x@ == ea,
            y@ == eb,
            ea == vstd::utf8::encode_utf8(a@),
            eb == vstd::utf8::encode_utf8(b@),
            n <= x@.len(),
            n <= y@.len(),
            n == x@.len() || n == y@.len(),
            i <= n,
            forall|k: int| 0 <= k < i ==> x@[k] == y@[k],
        decreases n - i,
    {
        if x[i] != y[i] {
            if x[i] < y[i] {
                assert(bytes_lt_at(ea, eb, i as int));
                return true;
            } else {
                assert(bytes_lt_at(eb, ea, i as int));
                proof { lemma_bytes_lt_irreflexive(ea, eb); }
                return false;
            }
        }
        i = i + 1;
    }
    if x.len() < y.len() {
        assert(bytes_lt_at(ea, eb, n as int));
        true
    } else {
        assert(!bytes_lt(ea, eb)) by {
            if bytes_lt(ea, eb) {
                let j = choose|j: int| bytes_lt_at(ea, eb, j);
                if j < n {
                    assert(ea[j] == eb[j]);
                }
            }
        }
        false
    }
}


/// The characters of `s`, one per item.
pub fn to_chars(s: &str) -> (v: Vec<char>)
    ensures
        v@ == s@,
{
    broadcast use vstd::string::group_string_axioms;
    let mut v: Vec<char> = Vec::new();
    for c in it: s.chars()
        invariant
            it.seq() == s@,
            v@ == s@.take(it.index()),
    {
        v.push(c);
        assert(s@.take(it.index() + 1) =~= s@.take(it.index()).push(c));
    }
    assert(s@.take(s@.len() as int) =~= s@);
    v
}

/// Whether two strings hold the same characters.
pub fn same_str(a: &str, b: &str) -> (r: bool)
    ensures
        r == (a@ == b@),
{
    let x = a.as_bytes();
    let y = b.as_bytes();
    proof {
        vstd::utf8::encode_utf8_decode_utf8(a@);
        vstd::utf8::encode_utf8_decode_utf8(b@);
    }
    if x.len() != y.len() {
        return false;
    }
    let mut i: usize = 0;
    while i < x.len()
        invariant
            x@ == vstd::utf8::encode_utf8(a@),
            y@ == vstd::utf8::encode_utf8(b@),
            x@.len() == y@.len(),
            i <= x@.len(),
            forall|k: int| 0 <= k < i ==> x@[k] == y@[k],
        decreases x@.len() - i,
    {
        if x[i] != y[i] {
            return false;
        }
        i = i + 1;
    }
    assert(x@ =~= y@);
    true
}

/// The characters that `char::is_whitespace` accepts: those with the
/// Unicode property `White_Space`.
pub open spec fn is_white_space(c: char) -> bool {
    ||| ('\u{9}' <= c && c <= '\u{d}')
    ||| c == ' '
    ||| c == '\u{85}'
    ||| c == '\u{a0}'
    ||| c == '\u{1680}'
    ||| ('\u{2000}' <= c && c <= '\u{200a}')
    ||| c == '\u{2028}'
    ||| c == '\u{2029}'
    ||| c == '\u{202f}'
    ||| c == '\u{205f}'
    ||| c == '\u{3000}'
}

pub fn white_space(c: char) -> (r: bool)
    ensures
        r == is_white_space(c),
{
    ('\u{9}' <= c && c <= '\u{d}') || c == ' ' || c == '\u{85}' || c == '\u{a0}' || c == '\u{1680}'
        || ('\u{2000}' <= c && c <= '\u{200a}') || c == '\u{2028}' || c == '\u{2029}' || c
        == '\u{202f}' || c == '\u{205f}' || c == '\u{3000}'
}

/// The length of `s` once trailing white space is cut off (`trim_end`).
pub open spec fn trim_end_len(s: Seq<char>) -> nat
    decreases s.len(),
{
    if s.len() == 0 {
        0
    } else if is_white_space(s.last()) {
        trim_end_len(s.drop_last())
    } else {
        s.len()
    }
}

/// `s.trim_end().ends_with(';')`: the last character that is not white
/// space is a semicolon.
pub open spec fn ends_statement(s: Seq<char>) -> bool {
    trim_end_len(s) > 0 && s[trim_end_len(s) - 1] == ';'
}

proof fn lemma_trim_end_len(s: Seq<char>, n: int)
    requires
        0 <= n <= s.len(),
        forall|j: int| n <= j < s.len() ==> is_white_space(#[trigger] s[j]),
    ensures
        trim_end_len(s) == trim_end_len(s.take(n)),
    decreases s.len() - n,
{
    if n < s.len() {
        assert(s.drop_last() =~= s.take(s.len() - 1));
        lemma_trim_end_len(s.drop_last(), n);
        assert(s.drop_last().take(n) =~= s.take(n));
    } else {
        assert(s.take(n) =~= s);
    }
}

/// Whether the line ends a statement: the last character before trailing
/// white space is `;`.
pub fn ends_with_semicolon(line: &str) -> (r: bool)
    ensures
        r == ends_statement(line@),
{
    let chars = to_chars(line);
    let mut n: usize = chars.len();
    while n > 0 && white_space(chars[n - 1])
        invariant
            chars@ == line@,
            n <= chars@.len(),
            forall|j: int| n <= j < chars@.len() ==> is_white_space(#[trigger] chars@[j]),
        decreases n,
    {
        n = n - 1;
    }
    proof {
        lemma_trim_end_len(line@, n as int);
        if n > 0 {
            assert(line@.take(n as int).last() == line@[n - 1]);
            assert(line@.take(n as int).drop_last() =~= line@.take(n - 1));
        }
        assert(line@.take(0) =~= Seq::<char>::empty());
    }
    n > 0 && chars[n - 1] == ';'
}

/// `needle` occurs in `hay` starting at position `i`.
pub open spec fn occurs_at(hay: Seq<char>, needle: Seq<char>, i: int) -> bool {
    0 <= i && i + needle.len() <= hay.len() && hay.subrange(i, i + needle.len()) == needle
}

/// `str::contains` with a string pattern.
pub open spec fn contains(hay: Seq<char>, needle: Seq<char>) -> bool {
    exists|i: int| occurs_at(hay, needle, i)
}

/// Whether `needle` occurs in `hay`.
pub fn contains_str(hay: &str, needle: &str) -> (r: bool)
    ensures
        r == contains(hay@, needle@),
{
    let h = to_chars(hay);
    let n = to_chars(needle);
    if n.len() > h.len() {
        return false;
    }
    let last = h.len() - n.len();
    let mut i: usize = 0;
    loop
        invariant_except_break
            h@ == hay@,
            n@ == needle@,
            last + n@.len() == h@.len(),
            h@.len() <= usize::MAX,
            i <= last,
            forall|k: int| 0 <= k < i ==> !occurs_at(hay@, needle@, k),
        ensures
            forall|k: int| 0 <= k <= last ==> !occurs_at(hay@, needle@, k),
        decreases last - i,
    {
        let mut j: usize = 0;
        while j < n.len()
            invariant_except_break
                h@ == hay@,
                n@ == needle@,
                i <= last,
                last + n@.len() == h@.len(),
                h@.len() <= usize::MAX,
                j <= n@.len(),
                forall|k: int| 0 <= k < j ==> h@[i + k] == n@[k],
            ensures
                j <= n@.len(),
                forall|k: int| 0 <= k < j ==> h@[i + k] == n@[k],
                j < n@.len() ==> h@[i + j] != n@[j as int],
            decreases n@.len() - j,
        {
            if h[i + j] != n[j] {
                break;
            }
            j = j + 1;
        }
        if j == n.len() {
            assert(hay@.subrange(i as int, i + needle@.len()) =~= needle@);
            assert(occurs_at(hay@, needle@, i as int));
            return true;
        }
        assert(!occurs_at(hay@, needle@, i as int)) by {
            if occurs_at(hay@, needle@, i as int) {
                assert(hay@.subrange(i as int, i + needle@.len())[j as int] == needle@[j as int]);
            }
        }
        if i == last {
            break;
        }
        i = i + 1;
    }
    assert(!contains(hay@, needle@)) by {
        if contains(hay@, needle@) {
            let k = choose|k: int| occurs_at(hay@, needle@, k);
            assert(k <= last);
        }
    }
    false
}

/// The pieces of `s` between the occurrences of `sep` (`str::split`):
/// always one more than there are separators.
pub open spec fn split_on(s: Seq<char>, sep: char) -> Seq<Seq<char>>
    decreases s.len(),
{
    if s.len() == 0 {
        seq![Seq::empty()]
    } else {
        let prev = split_on(s.drop_last(), sep);
        if s.last() == sep {
            prev.push(Seq::empty())
        } else {
            prev.update(prev.len() - 1, prev.last().push(s.last()))
        }
    }
}

/// The views of a sequence of string slices.
pub open spec fn strs_view(v: Seq<&str>) -> Seq<Seq<char>> {
    v.map_values(|l: &str| l@)
}

/// Splits `s` at each `sep`, as `s.split(sep).collect()` does.
pub fn split_char<'a>(s: &'a str, sep: char) -> (pieces: Vec<&'a str>)
    ensures
        strs_view(pieces@) == split_on(s@, sep),
{
    let chars = to_chars(s);
    let mut pieces: Vec<&'a str> = Vec::new();
    let mut start: usize = 0;
    let mut i: usize = 0;
    assert(s@.take(0) =~= Seq::<char>::empty());
    assert(s@.subrange(0, 0) =~= Seq::<char>::empty());
    assert(strs_view(pieces@).push(s@.subrange(0, 0)) =~= seq![Seq::<char>::empty()]);
    while i < chars.len()
        invariant
            chars@ == s@,
            start <= i <= chars@.len(),
            strs_view(pieces@).push(s@.subrange(start as int, i as int)) == split_on(
                s@.take(i as int),
                sep,
            ),
        decreases chars@.len() - i,
    {
        let ghost before = strs_view(pieces@);
        let ghost piece = s@.subrange(start as int, i as int);
        assert(s@.take(i + 1).drop_last() =~= s@.take(i as int));
        if chars[i] == sep {
            let p = s.substring_char(start, i);
            pieces.push(p);
            assert(strs_view(pieces@) =~= before.push(piece));
            assert(s@.subrange(i + 1, i + 1) =~= Seq::<char>::empty());
            i = i + 1;
            start = i;
        } else {
            assert(s@.subrange(start as int, i + 1) =~= piece.push(chars@[i as int]));
            i = i + 1;
            assert(strs_view(pieces@).push(s@.subrange(start as int, i as int)) =~= before.push(
                piece,
            ).update(before.len() as int, piece.push(chars@[i - 1])));
        }
    }
    let last = s.substring_char(start, chars.len());
    let ghost before = strs_view(pieces@);
    pieces.push(last);
    assert(strs_view(pieces@) =~= before.push(s@.subrange(start as int, chars@.len() as int)));
    assert(s@.take(chars@.len() as int) =~= s@);
    pieces
}

} // verus!
