//! Operations on strings, stated over their sequences of characters.
use vstd::prelude::*;
use vstd::string::*;

verus! {

/// Whether two strings hold the same characters.
pub fn str_eq(a: &str, b: &str) -> (r: bool)
    ensures
        r == (a@ == b@),
{
    let n = a.unicode_len();
    if n != b.unicode_len() {
        return false;
    }
    let mut i: usize = 0;
    while i < n
        invariant
            n == a@.len(),
            n == b@.len(),
            i <= n,
            forall|j: int| 0 <= j < i ==> a@[j] == b@[j],
        decreases n - i,
    {
        if a.get_char(i) != b.get_char(i) {
            return false;
        }
        i = i + 1;
    }
    assert(a@ =~= b@);
    true
}

/// Whether `s` begins with the characters of `prefix`.
pub open spec fn has_prefix(s: Seq<char>, prefix: Seq<char>) -> bool {
    prefix.len() <= s.len() && s.take(prefix.len() as int) == prefix
}

/// Whether `s` begins with the characters of `prefix`.
pub fn starts_with(s: &str, prefix: &str) -> (r: bool)
    ensures
        r == has_prefix(s@, prefix@),
{
    let n = prefix.unicode_len();
    if n > s.unicode_len() {
        return false;
    }
    let mut i: usize = 0;
    while i < n
        invariant
            n == prefix@.len(),
            n <= s@.len(),
            i <= n,
            forall|j: int| 0 <= j < i ==> s@[j] == prefix@[j],
        decreases n - i,
    {
        if s.get_char(i) != prefix.get_char(i) {
            assert(s@.take(n as int)[i as int] != prefix@[i as int]);
            return false;
        }
        i = i + 1;
    }
    assert(s@.take(n as int) =~= prefix@);
    true
}


/// The Unicode lower-case form of a string, as `str::to_lowercase` computes it.
pub uninterp spec fn lowercase(s: Seq<char>) -> Seq<char>;

/// An ASCII upper-case letter turned lower-case; any other character kept.
pub open spec fn ascii_lower_char(c: char) -> char {
    if 'A' <= c && c <= 'Z' {
        ((c as u32) + 32) as char
    } else {
        c
    }
}

/// The ASCII lower-case form of a string: only `A` to `Z` change.
pub open spec fn ascii_lowercase(s: Seq<char>) -> Seq<char> {
    s.map_values(|c: char| ascii_lower_char(c))
}

/// The lower-case form of a string as `to_lowercase` gives it, written so
/// that ASCII text shows its ASCII lower case.
pub open spec fn lower(s: Seq<char>) -> Seq<char> {
    if vstd::utf8::is_ascii_chars(s) {
        ascii_lowercase(s)
    } else {
        lowercase(s)
    }
}

/// Calls `str::to_lowercase`; its result is named by `lowercase`, which is
/// a function of the characters alone (the Unicode case tables are part of
/// std). Beside the name, two facts of the documentation are stated: each
/// character lower-cases to one or more characters (`char::to_lowercase`:
/// "one or more `char`s"), so the result is no shorter; and ASCII text
/// lower-cases as `str::to_ascii_lowercase` does (`A` to `Z` become `a` to
/// `z`, the Unicode lower-case mappings of those letters, and every other
/// ASCII character has none). The rest of the Unicode mapping is left to
/// the name.
#[verifier::external_body]
pub fn to_lowercase(s: &str) -> (r: String)
    ensures
        r@ == lowercase(s@),
        r@.len() >= s@.len(),
        vstd::utf8::is_ascii_chars(s@) ==> r@ == ascii_lowercase(s@),
{
    s.to_lowercase()
}

/// The text that `{:?}` writes for a string: the string in double quotes,
/// with escapes.
pub uninterp spec fn debug_text(s: Seq<char>) -> Seq<char>;

/// Calls the `Debug` formatting of `str`; its result is named by
/// `debug_text`. Nothing more is stated of it.
#[verifier::external_body]
pub fn debug_quoted(s: &str) -> (r: String)
    ensures
        r@ == debug_text(s@),
{
    format!("{s:?}")
}

/// The views of a sequence of strings.
pub open spec fn views(v: Seq<String>) -> Seq<Seq<char>> {
    v.map_values(|x: String| x@)
}

/// Whether `sep` occurs in `s` at index `i`.
pub open spec fn matches_at(s: Seq<char>, sep: Seq<char>, i: int) -> bool {
    0 <= i && i + sep.len() <= s.len() && s.subrange(i, i + sep.len()) == sep
}

/// The first index at or after `from` where `sep` occurs in `s`, or -1.
pub open spec fn find_from(s: Seq<char>, sep: Seq<char>, from: int) -> int
    decreases s.len() + 1 - from,
{
    if from < 0 || from + sep.len() > s.len() {
        -1
    } else if matches_at(s, sep, from) {
        from
    } else {
        find_from(s, sep, from + 1)
    }
}

/// The pieces of `s` between the occurrences of a non-empty `sep`, taken
/// from left to right without overlap, as `str::split` yields them.
pub open spec fn split_pieces(s: Seq<char>, sep: Seq<char>) -> Seq<Seq<char>>
    decreases s.len(),
{
    if sep.len() == 0 {
        seq![s]
    } else {
        let i = find_from(s, sep, 0);
        if i < 0 || i + sep.len() > s.len() {
            seq![s]
        } else {
            seq![s.take(i)] + split_pieces(s.skip(i + sep.len()), sep)
        }
    }
}

/// The number of occurrences of a non-empty `sep` in `s`, taken from left
/// to right without overlap, as `str::matches` counts them.
pub open spec fn occurrences(s: Seq<char>, sep: Seq<char>) -> nat
    decreases s.len(),
{
    if sep.len() == 0 {
        0
    } else {
        let i = find_from(s, sep, 0);
        if i < 0 || i + sep.len() > s.len() {
            0
        } else {
            1 + occurrences(s.skip(i + sep.len()), sep)
        }
    }
}

/// A split gives one piece more than there are occurrences of the separator.
pub proof fn lemma_split_count(s: Seq<char>, sep: Seq<char>)
    requires
        sep.len() > 0,
    ensures
        split_pieces(s, sep).len() == occurrences(s, sep) + 1,
    decreases s.len(),
{
    let i = find_from(s, sep, 0);
    if !(i < 0 || i + sep.len() > s.len()) {
        lemma_split_count(s.skip(i + sep.len()), sep);
    }
}

proof fn lemma_find_from_skips(s: Seq<char>, sep: Seq<char>, a: int, b: int)
    requires
        0 <= a <= b,
        b + sep.len() <= s.len() + 1,
        forall|j: int| a <= j < b ==> !matches_at(s, sep, j),
    ensures
        find_from(s, sep, a) == find_from(s, sep, b),
    decreases b - a,
{
    if a < b {
        lemma_find_from_skips(s, sep, a + 1, b);
    }
}

proof fn lemma_find_from_first(s: Seq<char>, sep: Seq<char>, from: int)
    requires
        sep.len() > 0,
        from >= 0,
    ensures
        find_from(s, sep, from) == -1 || (from <= find_from(s, sep, from) && matches_at(s, sep, find_from(s, sep, from))),
        forall|j: int| from <= j && (find_from(s, sep, from) == -1 || j < find_from(s, sep, from)) ==> !#[trigger] matches_at(s, sep, j),
    decreases s.len() + 1 - from,
{
    if from + sep.len() <= s.len() && !matches_at(s, sep, from) {
        lemma_find_from_first(s, sep, from + 1);
    }
}

/// No piece of a split begins with the separator.
pub proof fn lemma_pieces_lack_separator(s: Seq<char>, sep: Seq<char>)
    requires
        sep.len() > 0,
    ensures
        forall|k: int| 0 <= k < split_pieces(s, sep).len() ==> !has_prefix(#[trigger] split_pieces(s, sep)[k], sep),
    decreases s.len(),
{
    let i = find_from(s, sep, 0);
    lemma_find_from_first(s, sep, 0);
    let ps = split_pieces(s, sep);
    if i < 0 || i + sep.len() > s.len() {
        assert(ps =~= seq![s]);
        if has_prefix(s, sep) {
            assert(s.subrange(0, sep.len() as int) =~= s.take(sep.len() as int));
            assert(matches_at(s, sep, 0));
        }
    } else {
        let rest = s.skip(i + sep.len());
        lemma_pieces_lack_separator(rest, sep);
        assert(ps =~= seq![s.take(i)] + split_pieces(rest, sep));
        assert forall|k: int| 0 <= k < ps.len() implies !has_prefix(#[trigger] ps[k], sep) by {
            if k == 0 {
                if has_prefix(s.take(i), sep) {
                    assert(s.subrange(0, sep.len() as int) =~= s.take(i).take(sep.len() as int));
                    assert(matches_at(s, sep, 0));
                }
            } else {
                assert(ps[k] == split_pieces(rest, sep)[k - 1]);
            }
        }
    }
}

/// A non-empty string whose split has only empty pieces begins with the
/// separator.
pub proof fn lemma_empty_pieces_prefix(s: Seq<char>, sep: Seq<char>)
    requires
        sep.len() > 0,
        s.len() > 0,
        forall|k: int| 0 <= k < split_pieces(s, sep).len() ==> (#[trigger] split_pieces(s, sep)[k]).len() == 0,
    ensures
        has_prefix(s, sep),
{
    let i = find_from(s, sep, 0);
    lemma_find_from_first(s, sep, 0);
    let ps = split_pieces(s, sep);
    if i < 0 || i + sep.len() > s.len() {
        assert(ps[0] == s);
    } else {
        assert(ps[0] == s.take(i));
        assert(s.take(sep.len() as int) =~= s.subrange(0, sep.len() as int));
    }
}

/// The pieces of an ASCII string are ASCII.
pub proof fn lemma_pieces_ascii(s: Seq<char>, sep: Seq<char>)
    requires
        sep.len() > 0,
        vstd::utf8::is_ascii_chars(s),
    ensures
        forall|k: int| 0 <= k < split_pieces(s, sep).len() ==> vstd::utf8::is_ascii_chars(#[trigger] split_pieces(s, sep)[k]),
    decreases s.len(),
{
    let i = find_from(s, sep, 0);
    lemma_find_from_first(s, sep, 0);
    let ps = split_pieces(s, sep);
    if i < 0 || i + sep.len() > s.len() {
        assert(ps =~= seq![s]);
    } else {
        let rest = s.skip(i + sep.len());
        assert(vstd::utf8::is_ascii_chars(rest)) by {
            assert forall|j: int| 0 <= j < rest.len() implies '\0' <= #[trigger] rest[j] <= '\u{7f}' by {
                assert(rest[j] == s[i + sep.len() + j]);
            }
        }
        lemma_pieces_ascii(rest, sep);
        assert(ps =~= seq![s.take(i)] + split_pieces(rest, sep));
        assert forall|k: int| 0 <= k < ps.len() implies vstd::utf8::is_ascii_chars(#[trigger] ps[k]) by {
            if k == 0 {
                let t = s.take(i);
                assert forall|j: int| 0 <= j < t.len() implies '\0' <= #[trigger] t[j] <= '\u{7f}' by {
                    assert(t[j] == s[j]);
                }
            } else {
                assert(ps[k] == split_pieces(rest, sep)[k - 1]);
            }
        }
    }
}

/// Whether `s` holds no ASCII letter, upper or lower case.
pub open spec fn has_no_ascii_letter(s: Seq<char>) -> bool {
    forall|i: int| 0 <= i < s.len() ==> !(('a' <= #[trigger] s[i] && s[i] <= 'z') || ('A' <= s[i] && s[i] <= 'Z'))
}

/// ASCII lower-casing keeps, and does not create, a prefix without letters.
pub proof fn lemma_ascii_lowercase_prefix(t: Seq<char>, sep: Seq<char>)
    requires
        has_no_ascii_letter(sep),
    ensures
        has_prefix(t, sep) <==> has_prefix(ascii_lowercase(t), sep),
{
    let l = ascii_lowercase(t);
    if has_prefix(t, sep) {
        assert forall|i: int| 0 <= i < sep.len() implies #[trigger] l.take(sep.len() as int)[i] == sep[i] by {
            assert(t.take(sep.len() as int)[i] == sep[i]);
            assert(l[i] == ascii_lower_char(t[i]));
        }
        assert(l.take(sep.len() as int) =~= sep);
    }
    if has_prefix(l, sep) {
        assert forall|i: int| 0 <= i < sep.len() implies #[trigger] t.take(sep.len() as int)[i] == sep[i] by {
            assert(l.take(sep.len() as int)[i] == sep[i]);
            assert(l[i] == ascii_lower_char(t[i]));
            let c = t[i];
            if 'A' <= c && c <= 'Z' {
                assert('a' <= ascii_lower_char(c) && ascii_lower_char(c) <= 'z');
            }
        }
        assert(t.take(sep.len() as int) =~= sep);
    }
}

/// A string in which the separator does not occur is a single piece.
pub proof fn lemma_split_without_separator(k: Seq<char>, sep: Seq<char>)
    requires
        sep.len() > 0,
        forall|j: int| 0 <= j < k.len() ==> !#[trigger] matches_at(k, sep, j),
    ensures
        split_pieces(k, sep) == seq![k],
{
    lemma_find_from_first(k, sep, 0);
}

/// Where the separator first occurs right after `k`, the first piece is
/// `k` and the others are those of what follows the separator.
pub proof fn lemma_split_first_piece(k: Seq<char>, sep: Seq<char>, rest: Seq<char>)
    requires
        sep.len() > 0,
        forall|j: int| 0 <= j < k.len() ==> !#[trigger] matches_at(k + sep + rest, sep, j),
    ensures
        split_pieces(k + sep + rest, sep) == seq![k] + split_pieces(rest, sep),
{
    let x = k + sep + rest;
    let n = k.len() as int;
    assert(x.subrange(n, n + sep.len()) =~= sep);
    lemma_find_from_skips(x, sep, 0, n);
    assert(find_from(x, sep, n) == n);
    assert(x.take(n) =~= k);
    assert(x.skip(n + sep.len()) =~= rest);
}

/// The characters of a string, one by one.
pub fn chars_of(s: &str) -> (r: Vec<char>)
    ensures
        r@ == s@,
{
    let n = s.unicode_len();
    let mut r: Vec<char> = Vec::new();
    let mut i: usize = 0;
    while i < n
        invariant
            n == s@.len(),
            i <= n,
            r@ == s@.take(i as int),
        decreases n - i,
    {
        r.push(s.get_char(i));
        i = i + 1;
        assert(r@ =~= s@.take(i as int));
    }
    assert(s@.take(n as int) =~= s@);
    r
}

fn matches_at_exec(s: &Vec<char>, sep: &Vec<char>, i: usize) -> (r: bool)
    requires
        i + sep@.len() <= s@.len(),
    ensures
        r == matches_at(s@, sep@, i as int),
{
    let m = sep.len();
    let mut j: usize = 0;
    while j < m
        invariant
            m == sep@.len(),
            i + m <= s@.len(),
            s@.len() == s.len(),
            j <= m,
            forall|k: int| 0 <= k < j ==> s@[i + k] == sep@[k],
        decreases m - j,
    {
        if s[i + j] != sep[j] {
            assert(s@.subrange(i as int, i + m)[j as int] != sep@[j as int]);
            return false;
        }
        j = j + 1;
    }
    assert(s@.subrange(i as int, i + m) =~= sep@);
    true
}

/// Splits `s` at each occurrence of a non-empty `sep`, as `str::split` does.
pub fn split_str(s: &str, sep: &str) -> (r: Vec<String>)
    requires
        sep@.len() > 0,
    ensures
        views(r@) == split_pieces(s@, sep@),
{
    let cs = chars_of(s);
    let ps = chars_of(sep);
    let n = cs.len();
    let m = ps.len();
    let ghost full = s@;
    let mut pieces: Vec<String> = Vec::new();
    let mut start: usize = 0;
    let mut i: usize = 0;
    assert(full.skip(0) =~= full);
    assert(views(pieces@) =~= Seq::<Seq<char>>::empty());
    while i <= n && m <= n - i
        invariant
            cs@ == full,
            full == s@,
            ps@ == sep@,
            n == full.len(),
            m == sep@.len(),
            m > 0,
            start <= i <= n,
            forall|j: int| start <= j < i ==> !matches_at(full, sep@, j),
            views(pieces@) + split_pieces(full.skip(start as int), sep@) == split_pieces(full, sep@),
        decreases n - i,
    {
        if matches_at_exec(&cs, &ps, i) {
            let ghost rest = full.skip(start as int);
            proof {
                assert forall|j: int| 0 <= j < i - start implies !matches_at(rest, sep@, j) by {
                    assert(!matches_at(full, sep@, start + j));
                    assert(rest.subrange(j, j + m) =~= full.subrange(start + j, start + j + m));
                }
                lemma_find_from_skips(rest, sep@, 0, i - start);
                assert(rest.subrange(i - start, i - start + m) =~= full.subrange(i as int, i + m));
                assert(find_from(rest, sep@, (i - start) as int) == i - start);
                assert(rest.take(i - start) =~= full.subrange(start as int, i as int));
                assert(rest.skip(i - start + m) =~= full.skip(i + m));
            }
            let piece = s.substring_char(start, i).to_owned();
            let ghost before = pieces@;
            pieces.push(piece);
            proof {
                assert(views(pieces@) =~= views(before).push(piece@));
            }
            i = i + m;
            start = i;
        } else {
            i = i + 1;
        }
    }
    let ghost rest = full.skip(start as int);
    proof {
        assert forall|j: int| 0 <= j <= rest.len() - m implies !matches_at(rest, sep@, j) by {
            assert(!matches_at(full, sep@, start + j));
            assert(rest.subrange(j, j + m) =~= full.subrange(start + j, start + j + m));
        }
        if rest.len() >= m {
            lemma_find_from_skips(rest, sep@, 0, rest.len() - m + 1);
        }
    }
    let last = s.substring_char(start, n).to_owned();
    let ghost before = pieces@;
    pieces.push(last);
    assert(views(pieces@) =~= views(before).push(last@));
    proof {
        assert(last@ =~= rest);
    }
    assert(views(pieces@) =~= split_pieces(full, sep@));
    pieces
}

/// Whether `s` ends with the characters of `suffix`.
pub fn ends_with(s: &str, suffix: &str) -> (r: bool)
    ensures
        r == (suffix@.len() <= s@.len() && s@.skip(s@.len() - suffix@.len()) == suffix@),
{
    let n = suffix.unicode_len();
    let len = s.unicode_len();
    if n > len {
        return false;
    }
    let start = len - n;
    let mut i: usize = 0;
    while i < n
        invariant
            n == suffix@.len(),
            len == s@.len(),
            start + n == len,
            i <= n,
            forall|j: int| 0 <= j < i ==> s@[start + j] == suffix@[j],
        decreases n - i,
    {
        if s.get_char(start + i) != suffix.get_char(i) {
            assert(s@.skip(start as int)[i as int] != suffix@[i as int]);
            return false;
        }
        i = i + 1;
    }
    assert(s@.skip(start as int) =~= suffix@);
    true
}

/// The characters of `a` followed by those of `b`.
pub fn concat(a: &str, b: &str) -> (r: String)
    ensures
        r@ == a@ + b@,
{
    let mut r = a.to_owned();
    r.append(b);
    r
}

} // verus!
