//! Character-level helpers on strings, each proved against a spec function.
use vstd::prelude::*;

verus! {

/// Index of the first occurrence of `x` in `s`, or `s.len()` when it does not occur.
pub open spec fn index_of_first<T>(s: Seq<T>, x: T) -> int
    decreases s.len(),
{
    if s.len() == 0 {
        0
    } else if s[0] == x {
        0
    } else {
        1 + index_of_first(s.subrange(1, s.len() as int), x)
    }
}

/// `index_of_first` is the position of the first `x` when there is one, else the length.
pub proof fn lemma_index_of_first<T>(s: Seq<T>, x: T, m: int)
    requires
        0 <= m <= s.len(),
        forall|j: int| 0 <= j < m ==> s[j] != x,
        m == s.len() || s[m] == x,
    ensures
        index_of_first(s, x) == m,
    decreases s.len(),
{
    if s.len() > 0 && m > 0 {
        let t = s.subrange(1, s.len() as int);
        assert forall|j: int| 0 <= j < m - 1 implies t[j] != x by {
            assert(t[j] == s[j + 1]);
        }
        if m < s.len() {
            assert(t[m - 1] == s[m]);
        }
        lemma_index_of_first(t, x, m - 1);
    }
}

/// Splits `s` at every `x`, as `slice::split` and `str::split` do: `k` separators give
/// `k + 1` pieces, empty ones included.
pub open spec fn split_on<T>(s: Seq<T>, x: T) -> Seq<Seq<T>>
    decreases s.len(),
{
    let k = index_of_first(s, x);
    proof {
        lemma_index_of_first_bounds(s, x);
    }
    if k >= s.len() {
        seq![s]
    } else {
        seq![s.subrange(0, k)] + split_on(s.subrange(k + 1, s.len() as int), x)
    }
}

pub proof fn lemma_index_of_first_bounds<T>(s: Seq<T>, x: T)
    ensures
        0 <= index_of_first(s, x) <= s.len(),
        index_of_first(s, x) < s.len() ==> s[index_of_first(s, x)] == x,
    decreases s.len(),
{
    if s.len() > 0 && s[0] != x {
        lemma_index_of_first_bounds(s.subrange(1, s.len() as int), x);
    }
}

/// The splitting of a piece ending just before a separator.
pub proof fn lemma_split_step<T>(s: Seq<T>, x: T, m: int)
    requires
        0 <= m < s.len(),
        forall|j: int| 0 <= j < m ==> s[j] != x,
        s[m] == x,
    ensures
        split_on(s, x) == seq![s.subrange(0, m)] + split_on(s.subrange(m + 1, s.len() as int), x),
{
    lemma_index_of_first(s, x, m);
}

/// The splitting of a sequence without separators.
pub proof fn lemma_split_last<T>(s: Seq<T>, x: T)
    requires
        forall|j: int| 0 <= j < s.len() ==> s[j] != x,
    ensures
        split_on(s, x) == seq![s],
{
    lemma_index_of_first(s, x, s.len() as int);
}

/// `char::is_whitespace`: the characters with the Unicode `White_Space` property.
pub open spec fn white_space(c: char) -> bool {
    let u = c as u32;
    (0x09 <= u && u <= 0x0D) || u == 0x20 || u == 0x85 || u == 0xA0 || u == 0x1680 || (0x2000 <= u
        && u <= 0x200A) || u == 0x2028 || u == 0x2029 || u == 0x202F || u == 0x205F || u == 0x3000
}

/// `c.is_whitespace()`.
pub fn is_whitespace(c: char) -> (b: bool)
    ensures
        b == white_space(c),
{
    let u = c as u32;
    (0x09 <= u && u <= 0x0D) || u == 0x20 || u == 0x85 || u == 0xA0 || u == 0x1680 || (0x2000 <= u
        && u <= 0x200A) || u == 0x2028 || u == 0x2029 || u == 0x202F || u == 0x205F || u == 0x3000
}

/// `s` without its leading whitespace.
pub open spec fn trim_start(s: Seq<char>) -> Seq<char>
    decreases s.len(),
{
    if s.len() > 0 && white_space(s[0]) {
        trim_start(s.subrange(1, s.len() as int))
    } else {
        s
    }
}

/// `s` without its trailing whitespace.
pub open spec fn trim_end(s: Seq<char>) -> Seq<char>
    decreases s.len(),
{
    if s.len() > 0 && white_space(s[s.len() - 1]) {
        trim_end(s.subrange(0, s.len() - 1))
    } else {
        s
    }
}

/// `str::trim`: leading and trailing whitespace removed.
pub open spec fn trim(s: Seq<char>) -> Seq<char> {
    trim_end(trim_start(s))
}

/// Whether `s` holds whitespace only (`s.trim().is_empty()`).
pub open spec fn is_blank(s: Seq<char>) -> bool {
    forall|i: int| 0 <= i < s.len() ==> white_space(#[trigger] s[i])
}

/// A line terminator character, as `trim_end_matches(['\r', '\n'])` removes them.
pub open spec fn is_eol(c: char) -> bool {
    c == '\r' || c == '\n'
}

/// `s.trim_end_matches(['\r', '\n'])`.
pub open spec fn strip_eol(s: Seq<char>) -> Seq<char>
    decreases s.len(),
{
    if s.len() > 0 && is_eol(s[s.len() - 1]) {
        strip_eol(s.subrange(0, s.len() - 1))
    } else {
        s
    }
}

/// A line as `str::lines` yields it: one trailing carriage return removed.
pub open spec fn strip_cr(s: Seq<char>) -> Seq<char> {
    if s.len() > 0 && s[s.len() - 1] == '\r' {
        s.subrange(0, s.len() - 1)
    } else {
        s
    }
}

/// `str::lines`: pieces between `'\n'`s, each without a trailing `'\r'` when a `'\n'`
/// ended it; an empty string has no lines and a final line ending adds none.
pub open spec fn lines(s: Seq<char>) -> Seq<Seq<char>>
    decreases s.len(),
{
    if s.len() == 0 {
        seq![]
    } else {
        let k = index_of_first(s, '\n');
        proof {
            lemma_index_of_first_bounds(s, '\n');
        }
        if k >= s.len() {
            seq![s]
        } else {
            seq![strip_cr(s.subrange(0, k))] + lines(s.subrange(k + 1, s.len() as int))
        }
    }
}

/// The view of an optional string.
pub open spec fn opt_string_view(o: Option<String>) -> Option<Seq<char>> {
    match o {
        Some(s) => Some(s@),
        None => None,
    }
}

/// The view of each string of a sequence.
pub open spec fn views(v: Seq<String>) -> Seq<Seq<char>> {
    v.map_values(|s: String| s@)
}

/// Character-wise equality of two string slices.
pub fn str_eq(a: &str, b: &str) -> (r: bool)
    ensures
        r == (a@ == b@),
{
    let n = a.unicode_len();
    if n != b.unicode_len() {
        return false;
    }
    let mut i: usize = 0;
    while i < n
        invariant
            n == a@.len(),
            n == b@.len(),
            i <= n,
            forall|j: int| 0 <= j < i ==> a@[j] == b@[j],
        decreases n - i,
    {
        if a.get_char(i) != b.get_char(i) {
            return false;
        }
        i = i + 1;
    }
    assert(a@ =~= b@);
    true
}

/// The concatenation of two string slices.
pub fn cat(a: &str, b: &str) -> (r: String)
    ensures
        r@ == a@ + b@,
{
    let mut r = String::from_str(a);
    r.append(b);
    r
}

/// The concatenation of three string slices.
pub fn cat3(a: &str, b: &str, c: &str) -> (r: String)
    ensures
        r@ == a@ + b@ + c@,
{
    let mut r = String::from_str(a);
    r.append(b);
    r.append(c);
    r
}

/// `s.trim()`.
pub fn trimmed(s: &str) -> (r: String)
    ensures
        r@ == trim(s@),
{
    let n = s.unicode_len();
    let mut i: usize = 0;
    assert(s@ =~= s@.subrange(0, n as int));
    while i < n && is_whitespace(s.get_char(i))
        invariant
            n == s@.len(),
            i <= n,
            trim_start(s@) == trim_start(s@.subrange(i as int, n as int)),
        decreases n - i,
    {
        assert(s@.subrange(i as int, n as int).subrange(1, (n - i) as int) =~= s@.subrange(
            i + 1,
            n as int,
        ));
        i = i + 1;
    }
    assert(trim_start(s@.subrange(i as int, n as int)) == s@.subrange(i as int, n as int));
    let mut j: usize = n;
    while j > i && is_whitespace(s.get_char(j - 1))
        invariant
            n == s@.len(),
            i <= j <= n,
            trim_start(s@) == s@.subrange(i as int, n as int),
            trim_end(trim_start(s@)) == trim_end(s@.subrange(i as int, j as int)),
        decreases j - i,
    {
        assert(s@.subrange(i as int, j as int).subrange(0, (j - i - 1) as int) =~= s@.subrange(
            i as int,
            j - 1,
        ));
        j = j - 1;
    }
    s.substring_char(i, j).to_owned()
}

/// Whether `s.trim().is_empty()`.
pub fn blank(s: &str) -> (r: bool)
    ensures
        r == is_blank(s@),
{
    let n = s.unicode_len();
    let mut i: usize = 0;
    while i < n
        invariant
            n == s@.len(),
            i <= n,
            forall|j: int| 0 <= j < i ==> white_space(#[trigger] s@[j]),
        decreases n - i,
    {
        if !is_whitespace(s.get_char(i)) {
            return false;
        }
        i = i + 1;
    }
    true
}

/// `s.trim_end_matches(['\r', '\n'])`.
pub fn without_eol(s: &str) -> (r: String)
    ensures
        r@ == strip_eol(s@),
{
    let n = s.unicode_len();
    assert(s@ =~= s@.subrange(0, n as int));
    let mut j: usize = n;
    while j > 0 && (s.get_char(j - 1) == '\r' || s.get_char(j - 1) == '\n')
        invariant
            n == s@.len(),
            j <= n,
            strip_eol(s@) == strip_eol(s@.subrange(0, j as int)),
        decreases j,
    {
        assert(s@.subrange(0, j as int).subrange(0, j - 1) =~= s@.subrange(0, j - 1));
        j = j - 1;
    }
    assert(s@ =~= s@.subrange(0, n as int));
    s.substring_char(0, j).to_owned()
}

/// `s.lines()`, each line owned.
pub fn lines_of(s: &str) -> (r: Vec<String>)
    ensures
        views(r@) == lines(s@),
{
    let n = s.unicode_len();
    let mut out: Vec<String> = Vec::new();
    let mut start: usize = 0;
    let mut i: usize = 0;
    assert(s@.subrange(0, n as int) =~= s@);
    while i < n
        invariant
            n == s@.len(),
            start <= i <= n,
            forall|j: int| start <= j < i ==> s@[j] != '\n',
            lines(s@) == views(out@) + lines(s@.subrange(start as int, n as int)),
        decreases n - i,
    {
        if s.get_char(i) == '\n' {
            let ghost t = s@.subrange(start as int, n as int);
            proof {
                lemma_index_of_first(t, '\n', i - start);
                assert(t.subrange(0, i - start) =~= s@.subrange(start as int, i as int));
                assert(t.subrange(i - start + 1, t.len() as int) =~= s@.subrange(
                    i + 1,
                    n as int,
                ));
            }
            let line = if i > start && s.get_char(i - 1) == '\r' {
                s.substring_char(start, i - 1).to_owned()
            } else {
                s.substring_char(start, i).to_owned()
            };
            proof {
                let piece = s@.subrange(start as int, i as int);
                if i > start && s@[i - 1] == '\r' {
                    assert(piece.subrange(0, piece.len() - 1) =~= s@.subrange(
                        start as int,
                        i - 1,
                    ));
                }
            }
            let ghost before = out@;
            out.push(line);
            proof {
                assert(views(out@) =~= views(before) + seq![
                    strip_cr(s@.subrange(start as int, i as int)),
                ]);
            }
            start = i + 1;
        }
        i = i + 1;
    }
    if start < n {
        let ghost t = s@.subrange(start as int, n as int);
        proof {
            lemma_index_of_first(t, '\n', t.len() as int);
        }
        let ghost before = out@;
        out.push(s.substring_char(start, n).to_owned());
        proof {
            assert(views(out@) =~= views(before) + seq![t]);
            assert(lines(t) == seq![t]);
        }
    } else {
        proof {
            assert(views(out@) + lines(s@.subrange(start as int, n as int)) =~= views(out@));
        }
    }
    out
}

/// `s.split(sep)`, each piece owned.
pub fn split_char(s: &str, sep: char) -> (r: Vec<String>)
    ensures
        views(r@) == split_on(s@, sep),
{
    let n = s.unicode_len();
    let mut out: Vec<String> = Vec::new();
    let mut start: usize = 0;
    let mut i: usize = 0;
    assert(s@.subrange(0, n as int) =~= s@);
    while i < n
        invariant
            n == s@.len(),
            start <= i <= n,
            forall|j: int| start <= j < i ==> s@[j] != sep,
            split_on(s@, sep) == views(out@) + split_on(s@.subrange(start as int, n as int), sep),
        decreases n - i,
    {
        if s.get_char(i) == sep {
            let ghost t = s@.subrange(start as int, n as int);
            proof {
                lemma_split_step(t, sep, i - start);
                assert(t.subrange(0, i - start) =~= s@.subrange(start as int, i as int));
                assert(t.subrange(i - start + 1, t.len() as int) =~= s@.subrange(
                    i + 1,
                    n as int,
                ));
            }
            let ghost before = out@;
            out.push(s.substring_char(start, i).to_owned());
            assert(views(out@) =~= views(before) + seq![s@.subrange(start as int, i as int)]);
            start = i + 1;
        }
        i = i + 1;
    }
    let ghost t = s@.subrange(start as int, n as int);
    proof {
        lemma_split_last(t, sep);
    }
    let ghost before = out@;
    out.push(s.substring_char(start, n).to_owned());
    assert(views(out@) =~= views(before) + seq![t]);
    out
}

/// The character of a decimal digit.
pub open spec fn digit_char(d: nat) -> char {
    (48 + d) as char
}

/// `n` written in decimal, as `format!("{}", n)` writes it.
pub open spec fn decimal(n: nat) -> Seq<char>
    decreases n,
{
    if n < 10 {
        seq![digit_char(n)]
    } else {
        decimal(n / 10) + seq![digit_char(n % 10)]
    }
}

fn digit_str(d: usize) -> (r: &'static str)
    requires
        d < 10,
    ensures
        r@ == seq![digit_char(d as nat)],
{
    proof {
        reveal_strlit("0");
        reveal_strlit("1");
        reveal_strlit("2");
        reveal_strlit("3");
        reveal_strlit("4");
        reveal_strlit("5");
        reveal_strlit("6");
        reveal_strlit("7");
        reveal_strlit("8");
        reveal_strlit("9");
    }
    let r = if d == 0 {
        "0"
    } else if d == 1 {
        "1"
    } else if d == 2 {
        "2"
    } else if d == 3 {
        "3"
    } else if d == 4 {
        "4"
    } else if d == 5 {
        "5"
    } else if d == 6 {
        "6"
    } else if d == 7 {
        "7"
    } else if d == 8 {
        "8"
    } else {
        "9"
    };
    assert(r@ =~= seq![digit_char(d as nat)]);
    r
}

/// `n.to_string()`.
pub fn decimal_string(n: usize) -> (r: String)
    ensures
        r@ == decimal(n as nat),
    decreases n,
{
    if n < 10 {
        String::from_str(digit_str(n))
    } else {
        let mut r = decimal_string(n / 10);
        r.append(digit_str(n % 10));
        r
    }
}

/// `<` on strings, as `str`'s `Ord` orders them: lexicographically by character (UTF-8
/// keeps the order of code points, so this is also the order of their bytes).
pub open spec fn seq_lt(a: Seq<char>, b: Seq<char>) -> bool
    decreases a.len(),
{
    if a.len() == 0 {
        b.len() > 0
    } else if b.len() == 0 {
        false
    } else if a[0] != b[0] {
        (a[0] as u32) < (b[0] as u32)
    } else {
        seq_lt(a.subrange(1, a.len() as int), b.subrange(1, b.len() as int))
    }
}

proof fn lemma_char_u32_injective(x: char, y: char)
    requires
        x != y,
    ensures
        (x as u32) != (y as u32),
{
    vstd::utf8::char_u32_cast(x, x as u32);
    vstd::utf8::char_u32_cast(y, y as u32);
}

/// The string order is a strict total order.
pub proof fn lemma_seq_lt_order(a: Seq<char>, b: Seq<char>, c: Seq<char>)
    ensures
        !seq_lt(a, a),
        a != b ==> (seq_lt(a, b) || seq_lt(b, a)),
        !(seq_lt(a, b) && seq_lt(b, a)),
        seq_lt(a, b) && seq_lt(b, c) ==> seq_lt(a, c),
    decreases a.len(),
{
    if a.len() > 0 && b.len() > 0 && c.len() > 0 {
        let ta = a.subrange(1, a.len() as int);
        let tb = b.subrange(1, b.len() as int);
        let tc = c.subrange(1, c.len() as int);
        lemma_seq_lt_order(ta, tb, tc);
        if a[0] != b[0] {
            lemma_char_u32_injective(a[0], b[0]);
        }
        if b[0] != c[0] {
            lemma_char_u32_injective(b[0], c[0]);
        }
        if a != b && a[0] == b[0] {
            assert(ta != tb) by {
                if ta == tb {
                    assert(a =~= seq![a[0]] + ta);
                    assert(b =~= seq![b[0]] + tb);
                }
            }
        }
    } else if a.len() > 0 && b.len() > 0 {
        let ta = a.subrange(1, a.len() as int);
        let tb = b.subrange(1, b.len() as int);
        lemma_seq_lt_order(ta, tb, tb);
        if a[0] != b[0] {
            lemma_char_u32_injective(a[0], b[0]);
        }
        if a != b && a[0] == b[0] {
            assert(ta != tb) by {
                if ta == tb {
                    assert(a =~= seq![a[0]] + ta);
                    assert(b =~= seq![b[0]] + tb);
                }
            }
        }
    } else if a.len() > 0 {
        let ta = a.subrange(1, a.len() as int);
        lemma_seq_lt_order(ta, ta, ta);
    } else {
        if b.len() == 0 {
            assert(a =~= b);
        }
    }
}

/// `a < b` for strings.
pub fn str_lt(a: &str, b: &str) -> (r: bool)
    ensures
        r == seq_lt(a@, b@),
{
    let n = a.unicode_len();
    let m = b.unicode_len();
    let mut i: usize = 0;
    assert(a@.subrange(0, n as int) =~= a@);
    assert(b@.subrange(0, m as int) =~= b@);
    while i < n && i < m
        invariant
            n == a@.len(),
            m == b@.len(),
            i <= n,
            i <= m,
            seq_lt(a@, b@) == seq_lt(a@.subrange(i as int, n as int), b@.subrange(i as int, m as int)),
        decreases n - i,
    {
        let x = a.get_char(i);
        let y = b.get_char(i);
        let ghost sa = a@.subrange(i as int, n as int);
        let ghost sb = b@.subrange(i as int, m as int);
        assert(sa[0] == x && sb[0] == y);
        if x != y {
            return (x as u32) < (y as u32);
        }
        assert(sa.subrange(1, sa.len() as int) =~= a@.subrange(i + 1, n as int));
        assert(sb.subrange(1, sb.len() as int) =~= b@.subrange(i + 1, m as int));
        i = i + 1;
    }
    i < m && i == n
}

/// No `x` comes before `index_of_first(s, x)`.
pub proof fn lemma_index_of_first_props<T>(s: Seq<T>, x: T)
    ensures
        forall|j: int| 0 <= j < index_of_first(s, x) ==> s[j] != x,
    decreases s.len(),
{
    lemma_index_of_first_bounds(s, x);
    if s.len() > 0 && s[0] != x {
        let t = s.subrange(1, s.len() as int);
        lemma_index_of_first_props(t, x);
        lemma_index_of_first_bounds(t, x);
        assert forall|j: int| 0 <= j < index_of_first(s, x) implies s[j] != x by {
            if j > 0 {
                assert(s[j] == t[j - 1]);
            }
        }
    }
}

/// Splitting at a separator between two parts splits each part on its own.
pub proof fn lemma_split_concat<T>(s: Seq<T>, x: T, t: Seq<T>)
    ensures
        split_on(s + seq![x] + t, x) == split_on(s, x) + split_on(t, x),
    decreases s.len(),
{
    let u = s + seq![x] + t;
    lemma_index_of_first_bounds(s, x);
    lemma_index_of_first_props(s, x);
    let k = index_of_first(s, x);
    assert forall|j: int| 0 <= j < k implies u[j] != x by {
        assert(u[j] == s[j]);
    }
    if k < s.len() {
        assert(u[k] == s[k]);
        lemma_split_step(u, x, k);
        lemma_split_step(s, x, k);
        let s2 = s.subrange(k + 1, s.len() as int);
        lemma_split_concat(s2, x, t);
        assert(u.subrange(0, k) =~= s.subrange(0, k));
        assert(u.subrange(k + 1, u.len() as int) =~= s2 + seq![x] + t);
        assert(seq![s.subrange(0, k)] + (split_on(s2, x) + split_on(t, x)) =~= (seq![
            s.subrange(0, k),
        ] + split_on(s2, x)) + split_on(t, x));
    } else {
        assert(u[k] == x);
        lemma_split_step(u, x, k);
        lemma_split_last(s, x);
        assert(u.subrange(0, k) =~= s);
        assert(u.subrange(k + 1, u.len() as int) =~= t);
    }
}

} // verus!
