use vstd::prelude::*;

verus! {

/// ASCII-lowercase of one character: letters `A`..`Z` map to `a`..`z`,
/// every other character is unchanged.
pub open spec fn lower_char(c: char) -> char {
    if 'A' <= c && c <= 'Z' {
        ((c as u8) + 32) as char
    } else {
        c
    }
}

/// ASCII-lowercase of a character sequence.
pub open spec fn lower_chars(s: Seq<char>) -> Seq<char> {
    s.map_values(|c: char| lower_char(c))
}

/// Lowercases one character at run time.
pub fn lower_char_exec(c: char) -> (r: char)
    ensures
        r == lower_char(c),
{
    if 'A' <= c && c <= 'Z' {
        ((c as u8) + 32) as char
    } else {
        c
    }
}

/// The two accepted path separators.
pub open spec fn is_sep(c: char) -> bool {
    c == '/' || c == '\\'
}

/// Index of the first separator in `s`, or `s.len()` if there is none.
pub open spec fn first_sep(s: Seq<char>) -> int
    decreases s.len(),
{
    if s.len() == 0 {
        0
    } else if is_sep(s[0]) {
        0
    } else {
        1 + first_sep(s.skip(1))
    }
}

pub proof fn lemma_first_sep(s: Seq<char>)
    ensures
        0 <= first_sep(s) <= s.len(),
        forall|j: int| 0 <= j < first_sep(s) ==> !is_sep(s[j]),
        first_sep(s) < s.len() ==> is_sep(s[first_sep(s)]),
    decreases s.len(),
{
    if s.len() > 0 && !is_sep(s[0]) {
        lemma_first_sep(s.skip(1));
        assert(forall|j: int| 0 <= j < first_sep(s) ==> !is_sep(s[j])) by {
            assert(forall|j: int|
                1 <= j < first_sep(s) ==> s[j] == s.skip(1)[j - 1] && !is_sep(#[trigger] s[j]));
        }
    }
}

/// Splits a character sequence at every separator, like `str::split`:
/// an empty input gives one empty segment, and a trailing separator
/// gives a trailing empty segment.
pub open spec fn split_path(s: Seq<char>) -> Seq<Seq<char>>
    decreases s.len(),
    via split_path_decreases
{
    let i = first_sep(s);
    if i >= s.len() {
        seq![s]
    } else {
        seq![s.take(i)] + split_path(s.skip(i + 1))
    }
}

#[via_fn]
proof fn split_path_decreases(s: Seq<char>) {
    lemma_first_sep(s);
}

pub proof fn lemma_split_path_len(s: Seq<char>)
    ensures
        split_path(s).len() >= 1,
    decreases s.len(),
{
    lemma_first_sep(s);
    let i = first_sep(s);
    if i < s.len() {
        lemma_split_path_len(s.skip(i + 1));
    }
}

/// The segments a path is resolved by: separators split it, letters are
/// lowercased, and one leading `.` segment stands for the root and is
/// dropped.
pub open spec fn path_parts(s: Seq<char>) -> Seq<Seq<char>> {
    let parts = split_path(lower_chars(s));
    if parts.len() > 0 && parts[0] == seq!['.'] {
        parts.skip(1)
    } else {
        parts
    }
}

/// How `first_sep` grows when one character is appended.
proof fn lemma_first_sep_push(s: Seq<char>, c: char)
    ensures
        first_sep(s.push(c)) == if first_sep(s) < s.len() {
            first_sep(s)
        } else if is_sep(c) {
            s.len() as int
        } else {
            s.len() + 1int
        },
    decreases s.len(),
{
    lemma_first_sep(s);
    if s.len() == 0 {
        assert(s.push(c).skip(1) =~= Seq::<char>::empty());
        assert(s.push(c)[0] == c);
        assert(first_sep(Seq::<char>::empty()) == 0);
        if is_sep(c) {
            assert(first_sep(s.push(c)) == 0);
        } else {
            assert(first_sep(s.push(c)) == 1);
        }
    } else {
        assert(s.push(c)[0] == s[0]);
        if is_sep(s[0]) {
            assert(first_sep(s.push(c)) == 0);
            assert(first_sep(s) == 0);
        } else {
            assert(s.push(c).skip(1) =~= s.skip(1).push(c));
            lemma_first_sep_push(s.skip(1), c);
            lemma_first_sep(s.skip(1));
            assert(first_sep(s.push(c)) == 1 + first_sep(s.skip(1).push(c)));
            assert(first_sep(s) == 1 + first_sep(s.skip(1)));
        }
    }
}

/// How a split grows when one character is appended: a separator opens
/// a new empty segment, any other character extends the last segment.
proof fn lemma_split_path_push(s: Seq<char>, c: char)
    ensures
        is_sep(c) ==> split_path(s.push(c)) == split_path(s) + seq![Seq::<char>::empty()],
        !is_sep(c) ==> split_path(s.push(c)) == split_path(s).update(
            split_path(s).len() - 1,
            split_path(s).last().push(c),
        ),
    decreases s.len(),
{
    lemma_first_sep(s);
    lemma_first_sep_push(s, c);
    lemma_split_path_len(s);
    let i = first_sep(s);
    let t = s.push(c);
    if i >= s.len() {
        // no separator inside s
        if is_sep(c) {
            assert(t.take(s.len() as int) =~= s);
            assert(t.skip(s.len() + 1int) =~= Seq::<char>::empty());
            assert(split_path(Seq::<char>::empty()) == seq![Seq::<char>::empty()]);
            assert(split_path(t) =~= seq![s] + seq![Seq::<char>::empty()]);
        } else {
            assert(first_sep(t) == s.len() + 1);
            assert(split_path(t) == seq![t]);
            assert(split_path(s).update(0, s.push(c)) =~= seq![t]);
        }
    } else {
        assert(t.skip(i + 1) =~= s.skip(i + 1).push(c));
        assert(t.take(i) =~= s.take(i));
        lemma_split_path_push(s.skip(i + 1), c);
        lemma_split_path_len(s.skip(i + 1));
        if is_sep(c) {
            assert(split_path(t) =~= split_path(s) + seq![Seq::<char>::empty()]);
        } else {
            assert(split_path(t) =~= split_path(s).update(
                split_path(s).len() - 1,
                split_path(s).last().push(c),
            ));
        }
    }
}

/// Lexicographic order on character sequences, by code point.
pub open spec fn chars_lt(a: Seq<char>, b: Seq<char>) -> bool
    decreases a.len(),
{
    b.len() > 0 && (a.len() == 0 || a[0] < b[0] || (a[0] == b[0] && chars_lt(
        a.skip(1),
        b.skip(1),
    )))
}

/// The order is total: two sequences are related exactly one way.
pub proof fn lemma_chars_order(a: Seq<char>, b: Seq<char>)
    ensures
        chars_lt(a, b) || a == b || chars_lt(b, a),
        chars_lt(a, b) ==> a != b,
        chars_lt(a, b) ==> !chars_lt(b, a),
    decreases a.len(),
{
    if a.len() == 0 && b.len() == 0 {
        assert(a =~= b);
    } else if a.len() > 0 && b.len() > 0 {
        lemma_chars_order(a.skip(1), b.skip(1));
        if a[0] == b[0] && a.skip(1) == b.skip(1) {
            assert(forall|i: int|
                1 <= i < a.len() ==> #[trigger] a[i] == a.skip(1)[i - 1] && b[i] == b.skip(1)[i
                    - 1]);
            assert(a =~= b);
        }
    }
}

/// The order is transitive.
pub proof fn lemma_chars_lt_trans(a: Seq<char>, b: Seq<char>, c: Seq<char>)
    ensures
        chars_lt(a, b) && chars_lt(b, c) ==> chars_lt(a, c),
    decreases a.len(),
{
    if a.len() > 0 && b.len() > 0 && c.len() > 0 {
        lemma_chars_lt_trans(a.skip(1), b.skip(1), c.skip(1));
    }
}

/// Equal prefixes followed by an ordered pair of characters order the
/// whole sequences; a strict prefix comes first.
proof fn lemma_chars_lt_from_prefix(a: Seq<char>, b: Seq<char>, i: int)
    requires
        0 <= i <= a.len(),
        i <= b.len(),
        a.take(i) == b.take(i),
    ensures
        i < a.len() && i < b.len() && a[i] < b[i] ==> chars_lt(a, b),
        i == a.len() && i < b.len() ==> chars_lt(a, b),
    decreases i,
{
    if i == 0 {
    } else {
        assert(a.take(i)[0] == a[0]);
        assert(b.take(i)[0] == b[0]);
        assert(a[0] == b[0]);
        assert(a.skip(1).take(i - 1) =~= a.take(i).skip(1));
        assert(b.skip(1).take(i - 1) =~= b.take(i).skip(1));
        lemma_chars_lt_from_prefix(a.skip(1), b.skip(1), i - 1);
    }
}

/// Three-way comparison of two strings by code point: `-1` when `a`
/// comes first, `0` when they are equal, `1` when `b` comes first.
pub fn str_cmp(a: &str, b: &str) -> (o: i8)
    ensures
        -1i8 <= o <= 1i8,
        (o == -1i8) <==> chars_lt(a@, b@),
        (o == 0i8) <==> a@ == b@,
        (o == 1i8) <==> chars_lt(b@, a@),
{
    let alen = a.unicode_len();
    let blen = b.unicode_len();
    let min = if alen < blen {
        alen
    } else {
        blen
    };
    let mut i: usize = 0;
    while i < min
        invariant
            i <= min,
            min <= alen == a@.len(),
            min <= blen == b@.len(),
            a@.take(i as int) == b@.take(i as int),
        decreases min - i,
    {
        let ca = a.get_char(i);
        let cb = b.get_char(i);
        if ca != cb {
            proof {
                lemma_chars_lt_from_prefix(a@, b@, i as int);
                lemma_chars_lt_from_prefix(b@, a@, i as int);
                lemma_chars_order(a@, b@);
            }
            if ca < cb {
                return -1;
            } else {
                return 1;
            }
        }
        i = i + 1;
        proof {
            assert(a@.take(i as int) =~= b@.take(i as int));
        }
    }
    proof {
        lemma_chars_lt_from_prefix(a@, b@, min as int);
        lemma_chars_lt_from_prefix(b@, a@, min as int);
        lemma_chars_order(a@, b@);
        if alen == blen {
            assert(a@ =~= a@.take(min as int));
            assert(b@ =~= b@.take(min as int));
        }
    }
    if alen < blen {
        -1
    } else if blen < alen {
        1
    } else {
        0
    }
}

/// Relies on `String::push`: appends one character to the string.
#[verifier::external_body]
pub fn push_char(s: &mut String, c: char)
    ensures
        final(s)@ == old(s)@.push(c),
{
    s.push(c);
}

/// Relies on `String::from_utf8`: succeeds exactly on valid UTF-8 input
/// and returns the string those bytes encode.
#[verifier::external_body]
pub fn string_from_utf8(bytes: Vec<u8>) -> (r: Option<String>)
    ensures
        r is Some <==> vstd::utf8::valid_utf8(bytes@),
        r matches Some(s) ==> s@ == vstd::utf8::decode_utf8(bytes@),
{
    String::from_utf8(bytes).ok()
}

/// The ASCII-lowercase copy of a string.
pub fn to_lower(s: &str) -> (r: String)
    ensures
        r@ == lower_chars(s@),
{
    let n = s.unicode_len();
    let mut out = String::new();
    let mut i: usize = 0;
    while i < n
        invariant
            i <= n == s@.len(),
            out@ == lower_chars(s@.take(i as int)),
        decreases n - i,
    {
        push_char(&mut out, lower_char_exec(s.get_char(i)));
        i = i + 1;
        proof {
            assert(out@ =~= lower_chars(s@.take(i as int)));
        }
    }
    proof {
        assert(s@.take(n as int) =~= s@);
    }
    out
}

/// Splits a path into its lookup segments: separators split it, letters
/// are lowercased, and one leading `.` segment is dropped.
pub fn split_lower(path: &str) -> (parts: Vec<String>)
    ensures
        parts@.map_values(|p: String| p@) == path_parts(path@),
{
    let n = path.unicode_len();
    let mut parts: Vec<String> = Vec::new();
    let mut cur: String = String::new();
    let mut i: usize = 0;
    proof {
        assert(lower_chars(path@.take(0)) =~= Seq::<char>::empty());
        assert(parts@.map_values(|p: String| p@) + seq![cur@] =~= split_path(
            lower_chars(path@.take(0)),
        ));
    }
    while i < n
        invariant
            i <= n == path@.len(),
            parts@.map_values(|p: String| p@) + seq![cur@] == split_path(
                lower_chars(path@.take(i as int)),
            ),
        decreases n - i,
    {
        let c = path.get_char(i);
        let ghost pre = lower_chars(path@.take(i as int));
        proof {
            assert(lower_chars(path@.take(i + 1)) =~= pre.push(lower_char(c)));
            lemma_split_path_push(pre, lower_char(c));
            lemma_split_path_len(pre);
        }
        if c == '/' || c == '\\' {
            parts.push(cur);
            cur = String::new();
            proof {
                assert(parts@.map_values(|p: String| p@) + seq![cur@] =~= split_path(
                    lower_chars(path@.take(i + 1)),
                ));
            }
        } else {
            proof {
                assert(!is_sep(lower_char(c)));
            }
            push_char(&mut cur, lower_char_exec(c));
            proof {
                assert(parts@.map_values(|p: String| p@) + seq![cur@] =~= split_path(
                    lower_chars(path@.take(i + 1)),
                ));
            }
        }
        i = i + 1;
    }
    proof {
        assert(path@.take(n as int) =~= path@);
    }
    parts.push(cur);
    proof {
        assert(parts@.map_values(|p: String| p@) =~= split_path(lower_chars(path@)));
    }
    // a single leading `.` segment addresses the root: drop it
    let is_dot = parts.len() > 0 && {
        let first = &parts[0];
        first.unicode_len() == 1 && first.as_str().get_char(0) == '.'
    };
    if is_dot {
        proof {
            assert(parts@.map_values(|p: String| p@)[0] =~= seq!['.']);
        }
        parts.remove(0);
        proof {
            assert(parts@.map_values(|p: String| p@) =~= split_path(lower_chars(path@)).skip(1));
        }
    } else {
        proof {
            if split_path(lower_chars(path@))[0] == seq!['.'] {
                assert(parts@.map_values(|p: String| p@)[0] == seq!['.']);
                assert(parts@[0]@ == seq!['.']);
                assert(parts@[0]@.len() == 1 && parts@[0]@[0] == '.');
                assert(false);
            }
        }
    }
    parts
}


/// Two characters that a lookup cannot tell apart: both are separators,
/// or they lowercase to the same character.
pub open spec fn equiv_char(a: char, b: char) -> bool {
    (is_sep(a) && is_sep(b)) || lower_char(a) == lower_char(b)
}

/// Two paths that differ only in separator choice and letter case.
pub open spec fn path_equiv(a: Seq<char>, b: Seq<char>) -> bool {
    a.len() == b.len() && forall|i: int| 0 <= i < a.len() ==> equiv_char(a[i], b[i])
}

/// Two character runs that agree except that separators may differ
/// among themselves.
pub open spec fn sep_equiv(s: Seq<char>, t: Seq<char>) -> bool {
    s.len() == t.len() && forall|i: int|
        0 <= i < s.len() ==> s[i] == t[i] || (is_sep(#[trigger] s[i]) && is_sep(t[i]))
}

proof fn lemma_first_sep_equiv(s: Seq<char>, t: Seq<char>)
    requires
        sep_equiv(s, t),
    ensures
        first_sep(s) == first_sep(t),
    decreases s.len(),
{
    if s.len() > 0 {
        assert(equiv_head(s, t));
        if !is_sep(s[0]) {
            assert(s.skip(1).len() == t.skip(1).len());
            assert(forall|i: int|
                0 <= i < s.skip(1).len() ==> #[trigger] s.skip(1)[i] == s[i + 1] && t.skip(1)[i]
                    == t[i + 1]);
            lemma_first_sep_equiv(s.skip(1), t.skip(1));
        }
    }
}

/// The heads of two separator-equivalent runs match in kind.
spec fn equiv_head(s: Seq<char>, t: Seq<char>) -> bool {
    s.len() > 0 ==> (s[0] == t[0] || (is_sep(s[0]) && is_sep(t[0])))
}

/// Splitting cannot tell separator-equivalent runs apart.
proof fn lemma_split_equiv(s: Seq<char>, t: Seq<char>)
    requires
        sep_equiv(s, t),
    ensures
        split_path(s) == split_path(t),
    decreases s.len(),
{
    lemma_first_sep(s);
    lemma_first_sep(t);
    lemma_first_sep_equiv(s, t);
    let i = first_sep(s);
    if i >= s.len() {
        assert(s =~= t) by {
            assert(forall|j: int| 0 <= j < s.len() ==> !is_sep(#[trigger] s[j]));
        }
    } else {
        assert(s.take(i) =~= t.take(i)) by {
            assert(forall|j: int| 0 <= j < i ==> !is_sep(#[trigger] s[j]));
        }
        assert(sep_equiv(s.skip(i + 1), t.skip(i + 1))) by {
            assert(forall|j: int|
                0 <= j < s.skip(i + 1).len() ==> #[trigger] s.skip(i + 1)[j] == s[i + 1 + j]
                    && t.skip(i + 1)[j] == t[i + 1 + j]);
        }
        lemma_split_equiv(s.skip(i + 1), t.skip(i + 1));
    }
}

/// Lookup is insensitive to the separator used and to letter case in
/// the queried path: two paths that differ only in those resolve to the
/// same segments.
pub proof fn lemma_lookup_insensitive(a: Seq<char>, b: Seq<char>)
    requires
        path_equiv(a, b),
    ensures
        path_parts(a) == path_parts(b),
{
    let la = lower_chars(a);
    let lb = lower_chars(b);
    assert(sep_equiv(la, lb)) by {
        assert(forall|i: int|
            0 <= i < a.len() ==> #[trigger] la[i] == lower_char(a[i]) && lb[i] == lower_char(
                b[i],
            ));
    }
    lemma_split_equiv(la, lb);
}

} // verus!
