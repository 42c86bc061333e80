//! Character classes and verified text utilities shared by the parser
//! and the renderer: whitespace handling, splitting, substring search,
//! token extraction and joining.

use vstd::prelude::*;

verus! {

/// Whitespace characters recognized by the line patterns.
pub open spec fn is_space(c: char) -> bool {
    c == ' ' || c == '\t' || c == '\n' || c == '\r' || c == '\u{b}' || c == '\u{c}'
}

/// Identifier characters of block and function names: letters, digits,
/// underscore and dot.
pub open spec fn is_ident_char(c: char) -> bool {
    ('a' <= c && c <= 'z') || ('A' <= c && c <= 'Z') || ('0' <= c && c <= '9')
        || c == '_' || c == '.'
}

/// Whether `s` holds at least one character that is not whitespace.
pub open spec fn has_non_ws(s: Seq<char>) -> bool {
    exists|j: int| 0 <= j < s.len() && !is_space(s[j])
}

/// Index of the first character at or after `i` that is not whitespace,
/// or the length of `s` if all remaining characters are whitespace.
pub open spec fn skip_ws(s: Seq<char>, i: int) -> int
    decreases s.len() - i,
{
    if i < 0 || i >= s.len() {
        s.len() as int
    } else if is_space(s[i]) {
        skip_ws(s, i + 1)
    } else {
        i
    }
}

/// End of the maximal run of identifier characters starting at `i`.
pub open spec fn ident_run_end(s: Seq<char>, i: int) -> int
    decreases s.len() - i,
{
    if i < 0 || i >= s.len() {
        s.len() as int
    } else if is_ident_char(s[i]) {
        ident_run_end(s, i + 1)
    } else {
        i
    }
}

/// `s` without its trailing whitespace.
pub open spec fn trim_end_spec(s: Seq<char>) -> Seq<char>
    decreases s.len(),
{
    if s.len() == 0 {
        s
    } else if is_space(s.last()) {
        trim_end_spec(s.drop_last())
    } else {
        s
    }
}

/// `s` without its leading whitespace.
pub open spec fn trim_start_spec(s: Seq<char>) -> Seq<char>
    decreases s.len(),
{
    if s.len() == 0 {
        s
    } else if is_space(s[0]) {
        trim_start_spec(s.drop_first())
    } else {
        s
    }
}

/// `s` without leading and trailing whitespace.
pub open spec fn trimmed(s: Seq<char>) -> Seq<char> {
    trim_start_spec(trim_end_spec(s))
}

/// The maximal all-non-whitespace suffix of `s`.
pub open spec fn nonws_suffix(s: Seq<char>) -> Seq<char>
    decreases s.len(),
{
    if s.len() == 0 || is_space(s.last()) {
        Seq::<char>::empty()
    } else {
        nonws_suffix(s.drop_last()).push(s.last())
    }
}

/// The last whitespace-delimited token of `s`: trailing whitespace is
/// dropped, then the maximal non-whitespace suffix is taken.  Empty when
/// `s` is all whitespace.
pub open spec fn last_token(s: Seq<char>) -> Seq<char>
    decreases s.len(),
{
    if s.len() == 0 {
        s
    } else if is_space(s.last()) {
        last_token(s.drop_last())
    } else {
        nonws_suffix(s)
    }
}

/// Split `s` at every occurrence of the character `sep`; the separator is
/// not part of any piece, and the empty input yields one empty piece.
pub open spec fn split_char(s: Seq<char>, sep: char) -> Seq<Seq<char>>
    decreases s.len(),
{
    if s.len() == 0 {
        seq![s]
    } else if s[0] == sep {
        seq![Seq::<char>::empty()] + split_char(s.drop_first(), sep)
    } else {
        let rest = split_char(s.drop_first(), sep);
        seq![seq![s[0]] + rest[0]] + rest.drop_first()
    }
}

/// Split `s` at every occurrence of the two-character separator `", "`,
/// leftmost first; the empty input yields one empty piece.
pub open spec fn split_comma_space(s: Seq<char>) -> Seq<Seq<char>>
    decreases s.len(),
{
    if s.len() < 2 {
        seq![s]
    } else if s[0] == ',' && s[1] == ' ' {
        seq![Seq::<char>::empty()] + split_comma_space(s.skip(2))
    } else {
        let rest = split_comma_space(s.drop_first());
        seq![seq![s[0]] + rest[0]] + rest.drop_first()
    }
}

/// Whether `sub` occurs as a contiguous subsequence of `s`.
pub open spec fn contains_sub(s: Seq<char>, sub: Seq<char>) -> bool {
    exists|i: int| 0 <= i && i + sub.len() <= s.len() && #[trigger] s.subrange(i, i + sub.len()) == sub
}

/// The pieces of `parts` concatenated with `sep` between neighbours.
pub open spec fn join(parts: Seq<Seq<char>>, sep: Seq<char>) -> Seq<char>
    decreases parts.len(),
{
    if parts.len() == 0 {
        Seq::<char>::empty()
    } else if parts.len() == 1 {
        parts[0]
    } else {
        parts[0] + sep + join(parts.drop_first(), sep)
    }
}

/// A split always yields at least one piece.
pub proof fn lemma_split_char_len(s: Seq<char>, sep: char)
    ensures
        split_char(s, sep).len() >= 1,
    decreases s.len(),
{
    if s.len() != 0 {
        lemma_split_char_len(s.drop_first(), sep);
    }
}

/// A string free of the separator is a single piece.
pub proof fn lemma_split_char_nosep(s: Seq<char>, sep: char)
    requires
        forall|j: int| 0 <= j < s.len() ==> s[j] != sep,
    ensures
        split_char(s, sep) =~= seq![s],
    decreases s.len(),
{
    if s.len() != 0 {
        lemma_split_char_nosep(s.drop_first(), sep);
        assert(seq![s[0]] + s.drop_first() =~= s);
    }
}

/// Splitting starts with the separator-free prefix before the first
/// separator.
pub proof fn lemma_split_char_first(a: Seq<char>, b: Seq<char>, sep: char)
    requires
        forall|j: int| 0 <= j < a.len() ==> a[j] != sep,
    ensures
        split_char(a + seq![sep] + b, sep) =~= seq![a] + split_char(b, sep),
    decreases a.len(),
{
    let s = a + seq![sep] + b;
    lemma_split_char_len(b, sep);
    if a.len() == 0 {
        assert(s =~= seq![sep] + b);
        assert(s[0] == sep);
        assert(s.drop_first() =~= b);
        assert(a =~= Seq::<char>::empty());
        assert(split_char(s, sep) == seq![Seq::<char>::empty()] + split_char(b, sep));
    } else {
        assert(a[0] != sep);
        lemma_split_char_first(a.drop_first(), b, sep);
        assert(s[0] == a[0]);
        assert(s.drop_first() =~= a.drop_first() + seq![sep] + b);
        let rest = split_char(s.drop_first(), sep);
        assert(rest =~= seq![a.drop_first()] + split_char(b, sep));
        assert(rest[0] == a.drop_first());
        assert(seq![a[0]] + a.drop_first() =~= a);
        assert(rest.drop_first() =~= split_char(b, sep));
    }
}

/// A string free of the `", "` separator is a single piece.
pub proof fn lemma_split_comma_space_nosep(s: Seq<char>)
    requires
        forall|j: int| 0 <= j < s.len() - 1 ==> !(#[trigger] s[j] == ',' && s[j + 1] == ' '),
    ensures
        split_comma_space(s) =~= seq![s],
    decreases s.len(),
{
    if s.len() >= 2 {
        assert(!(s[0] == ',' && s[1] == ' '));
        lemma_split_comma_space_nosep(s.drop_first());
        assert(seq![s[0]] + s.drop_first() =~= s);
    }
}

/// Splitting on `", "` starts with the separator-free prefix before the
/// first separator.
pub proof fn lemma_split_comma_space_first(a: Seq<char>, b: Seq<char>)
    requires
        forall|j: int| 0 <= j < a.len() - 1 ==> !(#[trigger] a[j] == ',' && a[j + 1] == ' '),
        a.len() == 0 || a.last() != ',',
    ensures
        split_comma_space(a + seq![',', ' '] + b) =~= seq![a] + split_comma_space(b),
    decreases a.len(),
{
    let s = a + seq![',', ' '] + b;
    assert(s.len() >= 2);
    if a.len() == 0 {
        assert(s[0] == ',' && s[1] == ' ');
        assert(s.skip(2) =~= b);
        assert(a =~= Seq::<char>::empty());
        assert(split_comma_space(s) == seq![Seq::<char>::empty()] + split_comma_space(b));
    } else {
        assert(s[0] == a[0]);
        assert(!(s[0] == ',' && s[1] == ' ')) by {
            if a.len() == 1 {
                assert(s[1] == ',');
            } else {
                assert(s[1] == a[1]);
            }
        }
        assert(forall|j: int| 0 <= j < a.drop_first().len() - 1 ==> !(
            #[trigger] a.drop_first()[j] == ',' && a.drop_first()[j + 1] == ' ')) by {
            assert(forall|j: int| 0 <= j < a.drop_first().len() ==> a.drop_first()[j] == a[j + 1]);
        }
        assert(a.drop_first().len() == 0 || a.drop_first().last() != ',');
        lemma_split_comma_space_first(a.drop_first(), b);
        assert(s.drop_first() =~= a.drop_first() + seq![',', ' '] + b);
        let rest = split_comma_space(s.drop_first());
        assert(rest =~= seq![a.drop_first()] + split_comma_space(b));
        assert(rest[0] == a.drop_first());
        assert(seq![a[0]] + a.drop_first() =~= a);
        assert(rest.drop_first() =~= split_comma_space(b));
    }
}

/// The maximal run of identifier characters from `i` ends exactly at the
/// first non-identifier position.
pub proof fn lemma_ident_run_end(s: Seq<char>, i: int, e: int)
    requires
        0 <= i <= e <= s.len(),
        forall|j: int| i <= j < e ==> is_ident_char(#[trigger] s[j]),
        e == s.len() || !is_ident_char(s[e]),
    ensures
        ident_run_end(s, i) == e,
    decreases e - i,
{
    if i < e {
        lemma_ident_run_end(s, i + 1, e);
    }
}

/// The maximal non-whitespace suffix after a space is the whole tail.
pub proof fn lemma_nonws_suffix_after_space(a: Seq<char>, t: Seq<char>)
    requires
        t.len() > 0,
        forall|j: int| 0 <= j < t.len() ==> !is_space(t[j]),
    ensures
        nonws_suffix(a + seq![' '] + t) == t,
    decreases t.len(),
{
    let s = a + seq![' '] + t;
    assert(s.last() == t.last());
    assert(!is_space(t.last()));
    if t.len() == 1 {
        assert(s.drop_last() =~= a + seq![' ']);
        assert(is_space((a + seq![' ']).last()));
        assert(nonws_suffix(a + seq![' ']) == Seq::<char>::empty());
        assert(nonws_suffix(s) == nonws_suffix(s.drop_last()).push(s.last()));
        assert(nonws_suffix(s) =~= t);
    } else {
        lemma_nonws_suffix_after_space(a, t.drop_last());
        assert(s.drop_last() =~= a + seq![' '] + t.drop_last());
        assert(nonws_suffix(s) =~= t.drop_last().push(t.last()));
        assert(t.drop_last().push(t.last()) =~= t);
    }
}

/// The last token of text ending in a space-separated non-blank word is
/// that word.
pub proof fn lemma_last_token_after_space(a: Seq<char>, t: Seq<char>)
    requires
        t.len() > 0,
        forall|j: int| 0 <= j < t.len() ==> !is_space(t[j]),
    ensures
        last_token(a + seq![' '] + t) == t,
{
    let s = a + seq![' '] + t;
    assert(s.last() == t.last());
    lemma_nonws_suffix_after_space(a, t);
}

/// Appending one more piece extends a join by one separator and the piece.
pub proof fn lemma_join_push(parts: Seq<Seq<char>>, x: Seq<char>, sep: Seq<char>)
    ensures
        join(parts.push(x), sep) == if parts.len() == 0 {
            x
        } else {
            join(parts, sep) + sep + x
        },
    decreases parts.len(),
{
    let p = parts.push(x);
    if parts.len() == 0 {
        assert(p.len() == 1);
        assert(p[0] == x);
    } else {
        lemma_join_push(parts.drop_first(), x, sep);
        assert(p.drop_first() =~= parts.drop_first().push(x));
        assert(p[0] == parts[0]);
        if parts.len() == 1 {
            assert(join(p, sep) == parts[0] + sep + x);
            assert(join(parts, sep) == parts[0]);
        } else {
            assert(join(p, sep) == parts[0] + sep + join(parts.drop_first().push(x), sep));
            assert(join(parts.drop_first().push(x), sep) == join(parts.drop_first(), sep) + sep + x);
            assert(parts[0] + sep + (join(parts.drop_first(), sep) + sep + x)
                =~= (parts[0] + sep + join(parts.drop_first(), sep)) + sep + x);
        }
    }
}

/// Executable whitespace test.
pub fn is_space_char(c: char) -> (r: bool)
    ensures
        r == is_space(c),
{
    c == ' ' || c == '\t' || c == '\n' || c == '\r' || c == '\u{b}' || c == '\u{c}'
}

/// Executable identifier-character test.
pub fn is_ident_char_exec(c: char) -> (r: bool)
    ensures
        r == is_ident_char(c),
{
    ('a' <= c && c <= 'z') || ('A' <= c && c <= 'Z') || ('0' <= c && c <= '9')
        || c == '_' || c == '.'
}

/// Executable test for a non-blank line.
pub fn has_non_ws_str(s: &str) -> (r: bool)
    ensures
        r == has_non_ws(s@),
{
    let n = s.unicode_len();
    let mut i: usize = 0;
    while i < n
        invariant
            i <= n,
            n == s@.len(),
            forall|k: int| 0 <= k < i ==> is_space(s@[k]),
        decreases n - i,
    {
        if !is_space_char(s.get_char(i)) {
            return true;
        }
        i += 1;
    }
    false
}

/// Executable counterpart of [`skip_ws`].
pub fn skip_ws_str(s: &str, i: usize) -> (r: usize)
    requires
        i <= s@.len(),
    ensures
        r as int == skip_ws(s@, i as int),
        i <= r <= s@.len(),
    decreases s@.len() - i,
{
    let n = s.unicode_len();
    if i == n {
        n
    } else if is_space_char(s.get_char(i)) {
        skip_ws_str(s, i + 1)
    } else {
        i
    }
}

/// Executable counterpart of [`ident_run_end`].
pub fn ident_run_end_str(s: &str, i: usize) -> (r: usize)
    requires
        i <= s@.len(),
    ensures
        r as int == ident_run_end(s@, i as int),
        i <= r <= s@.len(),
    decreases s@.len() - i,
{
    let n = s.unicode_len();
    if i == n {
        n
    } else if is_ident_char_exec(s.get_char(i)) {
        ident_run_end_str(s, i + 1)
    } else {
        i
    }
}

/// Executable counterpart of [`trimmed`].
pub fn trimmed_str(s: &str) -> (r: String)
    ensures
        r@ == trimmed(s@),
{
    let n = s.unicode_len();
    let mut e: usize = n;
    proof {
        assert(s@.take(n as int) =~= s@);
    }
    while e > 0 && is_space_char(s.get_char(e - 1))
        invariant
            e <= n,
            n == s@.len(),
            trim_end_spec(s@) == trim_end_spec(s@.take(e as int)),
        decreases e,
    {
        proof {
            assert(s@.take(e as int).last() == s@[e - 1]);
            assert(s@.take(e as int).drop_last() =~= s@.take(e - 1));
        }
        e -= 1;
    }
    proof {
        if e > 0 {
            assert(s@.take(e as int).last() == s@[e - 1]);
        }
        assert(trim_end_spec(s@.take(e as int)) == s@.take(e as int));
    }
    let mut b: usize = 0;
    proof {
        assert(s@.subrange(0, e as int) =~= s@.take(e as int));
    }
    while b < e && is_space_char(s.get_char(b))
        invariant
            b <= e <= n,
            n == s@.len(),
            trim_end_spec(s@) == s@.take(e as int),
            trim_start_spec(s@.take(e as int)) == trim_start_spec(s@.subrange(b as int, e as int)),
        decreases e - b,
    {
        proof {
            let t = s@.subrange(b as int, e as int);
            assert(t[0] == s@[b as int]);
            assert(t.drop_first() =~= s@.subrange(b + 1, e as int));
        }
        b += 1;
    }
    proof {
        let t = s@.subrange(b as int, e as int);
        if t.len() > 0 {
            assert(t[0] == s@[b as int]);
        }
        assert(trim_start_spec(t) == t);
    }
    s.substring_char(b, e).to_owned()
}

/// Executable counterpart of [`nonws_suffix`].
pub fn nonws_suffix_str(s: &str) -> (r: String)
    ensures
        r@ == nonws_suffix(s@),
    decreases s@.len(),
{
    let n = s.unicode_len();
    if n == 0 {
        String::new()
    } else {
        let c = s.get_char(n - 1);
        proof {
            assert(s@.last() == s@[n - 1]);
        }
        if is_space_char(c) {
            String::new()
        } else {
            let mut r = nonws_suffix_str(s.substring_char(0, n - 1));
            proof {
                assert(s@.subrange(0, n - 1 as int) =~= s@.drop_last());
            }
            r.append(s.substring_char(n - 1, n));
            proof {
                assert(s@.subrange(n - 1 as int, n as int) =~= seq![s@.last()]);
                assert(nonws_suffix(s@.drop_last()) + seq![s@.last()]
                    =~= nonws_suffix(s@.drop_last()).push(s@.last()));
            }
            r
        }
    }
}

/// Executable counterpart of [`last_token`].
pub fn last_token_str(s: &str) -> (r: String)
    ensures
        r@ == last_token(s@),
    decreases s@.len(),
{
    let n = s.unicode_len();
    if n == 0 {
        String::new()
    } else {
        let c = s.get_char(n - 1);
        proof {
            assert(s@.last() == s@[n - 1]);
        }
        if is_space_char(c) {
            let r = last_token_str(s.substring_char(0, n - 1));
            proof {
                assert(s@.subrange(0, n - 1 as int) =~= s@.drop_last());
            }
            r
        } else {
            nonws_suffix_str(s)
        }
    }
}

/// Executable counterpart of [`split_char`].
pub fn split_char_str(s: &str, sep: char) -> (r: Vec<String>)
    ensures
        r.deep_view() == split_char(s@, sep),
        r.len() >= 1,
    decreases s@.len(),
{
    let n = s.unicode_len();
    if n == 0 {
        let mut r: Vec<String> = Vec::new();
        r.push(String::new());
        proof {
            assert(r.deep_view() =~~= seq![s@]);
        }
        r
    } else {
        let c = s.get_char(0);
        let tail = s.substring_char(1, n);
        proof {
            assert(tail@ =~= s@.drop_first());
        }
        let mut rest = split_char_str(tail, sep);
        if c == sep {
            rest.insert(0, String::new());
            proof {
                assert(rest.deep_view() =~~= seq![Seq::<char>::empty()]
                    + split_char(s@.drop_first(), sep));
            }
            rest
        } else {
            let head = rest.remove(0);
            let mut piece = s.substring_char(0, 1).to_owned();
            proof {
                assert(s@.subrange(0, 1) =~= seq![s@[0]]);
            }
            piece.append(head.as_str());
            rest.insert(0, piece);
            proof {
                let sc = split_char(s@, sep);
                let screst = split_char(s@.drop_first(), sep);
                assert(piece@ == seq![s@[0]] + screst[0]);
                assert(rest.deep_view() =~~= sc);
            }
            rest
        }
    }
}

/// Executable counterpart of [`split_comma_space`].
pub fn split_comma_space_str(s: &str) -> (r: Vec<String>)
    ensures
        r.deep_view() == split_comma_space(s@),
        r.len() >= 1,
    decreases s@.len(),
{
    let n = s.unicode_len();
    if n < 2 {
        let mut r: Vec<String> = Vec::new();
        r.push(s.to_owned());
        proof {
            assert(r.deep_view() =~~= seq![s@]);
        }
        r
    } else if s.get_char(0) == ',' && s.get_char(1) == ' ' {
        let tail = s.substring_char(2, n);
        proof {
            assert(tail@ =~= s@.skip(2));
        }
        let mut rest = split_comma_space_str(tail);
        rest.insert(0, String::new());
        proof {
            assert(rest.deep_view() =~~= seq![Seq::<char>::empty()] + split_comma_space(s@.skip(2)));
        }
        rest
    } else {
        let tail = s.substring_char(1, n);
        proof {
            assert(tail@ =~= s@.drop_first());
        }
        let mut rest = split_comma_space_str(tail);
        let head = rest.remove(0);
        let mut piece = s.substring_char(0, 1).to_owned();
        proof {
            assert(s@.subrange(0, 1) =~= seq![s@[0]]);
        }
        piece.append(head.as_str());
        rest.insert(0, piece);
        proof {
            let sc = split_comma_space(s@);
            let screst = split_comma_space(s@.drop_first());
            assert(piece@ == seq![s@[0]] + screst[0]);
            assert(rest.deep_view() =~~= sc);
        }
        rest
    }
}

/// Whether `sub` occurs in `s` starting exactly at index `i`.
fn matches_at(s: &str, sub: &str, i: usize) -> (r: bool)
    requires
        i + sub@.len() <= s@.len(),
    ensures
        r == (s@.subrange(i as int, i + sub@.len()) == sub@),
{
    let n = s.unicode_len();
    let m = sub.unicode_len();
    let mut j: usize = 0;
    while j < m
        invariant
            j <= m,
            m == sub@.len(),
            n == s@.len(),
            i + m <= n,
            forall|k: int| 0 <= k < j ==> s@[i + k] == sub@[k],
        decreases m - j,
    {
        if s.get_char(i + j) != sub.get_char(j) {
            proof {
                assert(s@.subrange(i as int, i + sub@.len())[j as int] == s@[i + j]);
            }
            return false;
        }
        j += 1;
    }
    proof {
        assert(s@.subrange(i as int, i + sub@.len()) =~= sub@);
    }
    true
}

/// Executable counterpart of [`contains_sub`].
pub fn contains_sub_str(s: &str, sub: &str) -> (r: bool)
    ensures
        r == contains_sub(s@, sub@),
{
    let n = s.unicode_len();
    let m = sub.unicode_len();
    if m > n {
        proof {
            assert(!contains_sub(s@, sub@));
        }
        return false;
    }
    if m == 0 {
        proof {
            assert(s@.subrange(0, 0 + sub@.len() as int) =~= sub@);
        }
        return true;
    }
    let mut i: usize = 0;
    while i <= n - m
        invariant
            1 <= m <= n,
            n == s@.len(),
            m == sub@.len(),
            i <= n - m + 1,
            forall|k: int| 0 <= k < i ==> #[trigger] s@.subrange(k, k + sub@.len()) != sub@,
        decreases n - i,
    {
        if matches_at(s, sub, i) {
            return true;
        }
        i += 1;
    }
    false
}

/// Executable counterpart of [`join`].
pub fn join_str(parts: &Vec<String>, sep: &str) -> (r: String)
    ensures
        r@ == join(parts.deep_view(), sep@),
{
    let mut r = String::new();
    let mut i: usize = 0;
    while i < parts.len()
        invariant
            i <= parts.len(),
            r@ == join(parts.deep_view().take(i as int), sep@),
        decreases parts.len() - i,
    {
        if i > 0 {
            r.append(sep);
        }
        r.append(parts[i].as_str());
        proof {
            let pv = parts.deep_view();
            assert(pv.take(i + 1) =~= pv.take(i as int).push(pv[i as int]));
            lemma_join_push(pv.take(i as int), pv[i as int], sep@);
            assert(pv[i as int] == parts@[i as int]@);
        }
        i += 1;
    }
    proof {
        assert(parts.deep_view().take(parts@.len() as int) =~= parts.deep_view());
    }
    r
}

} // verus!
