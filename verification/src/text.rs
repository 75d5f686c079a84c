use vstd::prelude::*;

verus! {

// ---------------------------------------------------------------------------
// Specifications of the text operations the package manager relies on.
// ---------------------------------------------------------------------------

/// Unicode `White_Space`: the characters that `str::trim` removes.
pub open spec fn is_space_spec(c: char) -> bool {
    ||| ('\u{9}' <= c && c <= '\u{d}')
    ||| c == ' '
    ||| c == '\u{85}'
    ||| c == '\u{a0}'
    ||| c == '\u{1680}'
    ||| ('\u{2000}' <= c && c <= '\u{200a}')
    ||| c == '\u{2028}'
    ||| c == '\u{2029}'
    ||| c == '\u{202f}'
    ||| c == '\u{205f}'
    ||| c == '\u{3000}'
}

/// `s` without its leading white space.
pub open spec fn trim_start_spec(s: Seq<char>) -> Seq<char>
    decreases s.len(),
{
    if s.len() > 0 && is_space_spec(s[0]) {
        trim_start_spec(s.drop_first())
    } else {
        s
    }
}

/// `s` without its trailing white space.
pub open spec fn trim_end_spec(s: Seq<char>) -> Seq<char>
    decreases s.len(),
{
    if s.len() > 0 && is_space_spec(s.last()) {
        trim_end_spec(s.drop_last())
    } else {
        s
    }
}

/// `s` without leading and trailing white space.
pub open spec fn trim_spec(s: Seq<char>) -> Seq<char> {
    trim_end_spec(trim_start_spec(s))
}

/// `s` without any trailing occurrence of `c`.
pub open spec fn trim_end_char_spec(s: Seq<char>, c: char) -> Seq<char>
    decreases s.len(),
{
    if s.len() > 0 && s.last() == c {
        trim_end_char_spec(s.drop_last(), c)
    } else {
        s
    }
}

/// `s` without any leading `.` or `/`.
pub open spec fn trim_start_dots_slashes_spec(s: Seq<char>) -> Seq<char>
    decreases s.len(),
{
    if s.len() > 0 && (s[0] == '.' || s[0] == '/') {
        trim_start_dots_slashes_spec(s.drop_first())
    } else {
        s
    }
}

/// Position of the last occurrence of `c` in `s`, or -1.
pub open spec fn rfind_spec(s: Seq<char>, c: char) -> int
    decreases s.len(),
{
    if s.len() == 0 {
        -1
    } else if s.last() == c {
        s.len() - 1
    } else {
        rfind_spec(s.drop_last(), c)
    }
}

/// Whether `s` ends with `suffix`.
pub open spec fn ends_with_spec(s: Seq<char>, suffix: Seq<char>) -> bool {
    suffix.len() <= s.len() && s.subrange(s.len() - suffix.len(), s.len() as int) == suffix
}

/// Whether `s` begins with `prefix`.
pub open spec fn starts_with_spec(s: Seq<char>, prefix: Seq<char>) -> bool {
    prefix.len() <= s.len() && s.subrange(0, prefix.len() as int) == prefix
}

/// Whether `needle` occurs in `hay` as a contiguous run.
pub open spec fn contains_spec(hay: Seq<char>, needle: Seq<char>) -> bool {
    exists|i: int|
        0 <= i && i + needle.len() <= hay.len() && #[trigger] hay.subrange(i, i + needle.len())
            == needle
}

/// The pieces of `s` between occurrences of `sep` (`str::split`).
pub open spec fn split_spec(s: Seq<char>, sep: char) -> Seq<Seq<char>>
    decreases s.len(),
{
    let i = rfind_spec(s, sep);
    if i < 0 {
        seq![s]
    } else {
        proof {
            lemma_rfind_bounds(s, sep);
        }
        split_spec(s.subrange(0, i), sep).push(s.subrange(i + 1, s.len() as int))
    }
}

/// The pieces of `list` joined with `sep` between them (`[..].join(sep)`).
pub open spec fn join_spec(list: Seq<Seq<char>>, sep: Seq<char>) -> Seq<char>
    decreases list.len(),
{
    if list.len() == 0 {
        Seq::empty()
    } else if list.len() == 1 {
        list[0]
    } else {
        join_spec(list.drop_last(), sep) + sep + list.last()
    }
}

// ---------------------------------------------------------------------------
// Facts about the specifications.
// ---------------------------------------------------------------------------

pub proof fn lemma_rfind_bounds(s: Seq<char>, c: char)
    ensures
        -1 <= rfind_spec(s, c) < s.len(),
        rfind_spec(s, c) >= 0 ==> s[rfind_spec(s, c)] == c,
        forall|j: int| rfind_spec(s, c) < j < s.len() ==> s[j] != c,
    decreases s.len(),
{
    if s.len() > 0 && s.last() != c {
        lemma_rfind_bounds(s.drop_last(), c);
        assert forall|j: int| rfind_spec(s, c) < j < s.len() implies s[j] != c by {
            if j < s.len() - 1 {
                assert(s.drop_last()[j] == s[j]);
            }
        }
    }
}

/// The last `c` in `a + [c] + b`, where `b` holds no `c`, is the one between.
pub proof fn lemma_rfind_concat(a: Seq<char>, c: char, b: Seq<char>)
    requires
        !b.contains(c),
    ensures
        rfind_spec(a + seq![c] + b, c) == a.len(),
        (a + seq![c] + b).subrange(0, a.len() as int) == a,
        (a + seq![c] + b).subrange(a.len() as int + 1, (a + seq![c] + b).len() as int) == b,
    decreases b.len(),
{
    let s = a + seq![c] + b;
    if b.len() == 0 {
        assert(s.last() == c);
    } else {
        assert(s.last() == b.last());
        assert(b.last() != c) by {
            assert(b[b.len() - 1] == b.last());
        }
        assert(!b.drop_last().contains(c)) by {
            if b.drop_last().contains(c) {
                let k = choose|k: int| 0 <= k < b.drop_last().len() && b.drop_last()[k] == c;
                assert(b[k] == c);
            }
        }
        lemma_rfind_concat(a, c, b.drop_last());
        assert(s.drop_last() =~= a + seq![c] + b.drop_last());
    }
    assert(s.subrange(0, a.len() as int) =~= a);
    assert(s.subrange(a.len() as int + 1, s.len() as int) =~= b);
}

/// Splitting text that holds no separator gives the text itself.
pub proof fn lemma_split_none(s: Seq<char>, sep: char)
    requires
        !s.contains(sep),
    ensures
        split_spec(s, sep) == seq![s],
{
    lemma_rfind_bounds(s, sep);
    if rfind_spec(s, sep) >= 0 {
        assert(s.contains(sep)) by {
            assert(s[rfind_spec(s, sep)] == sep);
        }
    }
}

/// Splitting pieces joined by the separator, none of which holds it, gives
/// the pieces back.
pub proof fn lemma_split_join(list: Seq<Seq<char>>, sep: char)
    requires
        list.len() > 0,
        forall|i: int| 0 <= i < list.len() ==> !(#[trigger] list[i]).contains(sep),
    ensures
        split_spec(join_spec(list, seq![sep]), sep) == list,
    decreases list.len(),
{
    if list.len() == 1 {
        lemma_split_none(list[0], sep);
        assert(seq![list[0]] =~= list);
    } else {
        let a = join_spec(list.drop_last(), seq![sep]);
        let b = list.last();
        assert(!b.contains(sep)) by {
            assert(list[list.len() - 1] == b);
        }
        lemma_rfind_concat(a, sep, b);
        lemma_split_join(list.drop_last(), sep);
        assert(list.drop_last().push(b) =~= list);
    }
}

// ---------------------------------------------------------------------------
// Executable operations.
// ---------------------------------------------------------------------------

/// The characters of `s`, one by one.
pub fn chars_of(s: &str) -> (v: Vec<char>)
    ensures
        v@ == s@,
{
    let n = s.unicode_len();
    let mut v: Vec<char> = Vec::new();
    let mut i: usize = 0;
    while i < n
        invariant
            n == s@.len(),
            i <= n,
            v@ == s@.subrange(0, i as int),
        decreases n - i,
    {
        let c = s.get_char(i);
        v.push(c);
        i = i + 1;
        assert(v@ =~= s@.subrange(0, i as int));
    }
    assert(v@ =~= s@);
    v
}

/// The characters of `s` from position `from` up to, not including, `to`.
pub fn substring(s: &str, from: usize, to: usize) -> (r: String)
    requires
        from <= to <= s@.len(),
    ensures
        r@ == s@.subrange(from as int, to as int),
{
    s.substring_char(from, to).to_owned()
}

/// A copy of `s`.
pub fn copy_str(s: &str) -> (r: String)
    ensures
        r@ == s@,
{
    s.to_owned()
}

/// Whether `c` is white space in the sense of `char::is_whitespace`.
pub fn is_space(c: char) -> (r: bool)
    ensures
        r == is_space_spec(c),
{
    ('\u{9}' <= c && c <= '\u{d}') || c == ' ' || c == '\u{85}' || c == '\u{a0}' || c
        == '\u{1680}' || ('\u{2000}' <= c && c <= '\u{200a}') || c == '\u{2028}' || c
        == '\u{2029}' || c == '\u{202f}' || c == '\u{205f}' || c == '\u{3000}'
}

/// Position, counted from `lo`, of the last `c` in `v[lo..hi]`.
pub fn rfind_in(v: &Vec<char>, lo: usize, hi: usize, c: char) -> (r: Option<usize>)
    requires
        lo <= hi <= v@.len(),
    ensures
        match r {
            Some(i) => rfind_spec(v@.subrange(lo as int, hi as int), c) == i as int && i < hi - lo,
            None => rfind_spec(v@.subrange(lo as int, hi as int), c) == -1,
        },
{
    let mut j: usize = hi;
    while j > lo
        invariant
            lo <= j <= hi <= v@.len(),
            rfind_spec(v@.subrange(lo as int, hi as int), c) == rfind_spec(
                v@.subrange(lo as int, j as int),
                c,
            ),
        decreases j,
    {
        if v[j - 1] == c {
            return Some(j - 1 - lo);
        }
        assert(v@.subrange(lo as int, j as int).drop_last() =~= v@.subrange(lo as int, j - 1));
        j = j - 1;
    }
    None
}

/// Whether the characters `v[from..to]` are exactly `w`.
pub fn range_equals(v: &Vec<char>, from: usize, to: usize, w: &Vec<char>) -> (r: bool)
    requires
        from <= to <= v@.len(),
    ensures
        r == (v@.subrange(from as int, to as int) == w@),
{
    if to - from != w.len() {
        return false;
    }
    let mut k: usize = 0;
    while k < w.len()
        invariant
            from <= to <= v@.len(),
            to - from == w@.len(),
            k <= w@.len(),
            forall|m: int| 0 <= m < k ==> v@[from + m] == w@[m],
        decreases w@.len() - k,
    {
        if v[from + k] != w[k] {
            assert(v@.subrange(from as int, to as int)[k as int] != w@[k as int]);
            return false;
        }
        k = k + 1;
    }
    assert(v@.subrange(from as int, to as int) =~= w@);
    true
}

/// Whether `v[from..to]` ends with `w`.
pub fn range_ends_with(v: &Vec<char>, from: usize, to: usize, w: &Vec<char>) -> (r: bool)
    requires
        from <= to <= v@.len(),
    ensures
        r == ends_with_spec(v@.subrange(from as int, to as int), w@),
{
    if w.len() > to - from {
        return false;
    }
    let r = range_equals(v, to - w.len(), to, w);
    assert(v@.subrange(from as int, to as int).subrange(
        (to - from) - w@.len(),
        (to - from) as int,
    ) =~= v@.subrange(to - w@.len(), to as int));
    r
}

/// `s` without leading and trailing white space (`str::trim`).
pub fn trim(s: &str) -> (r: String)
    ensures
        r@ == trim_spec(s@),
{
    let v = chars_of(s);
    let n = v.len();
    let mut i: usize = 0;
    assert(v@.subrange(0, n as int) =~= v@);
    while i < n && is_space(v[i])
        invariant
            n == v@.len(),
            v@ == s@,
            i <= n,
            trim_start_spec(s@) == trim_start_spec(v@.subrange(i as int, n as int)),
        decreases n - i,
    {
        assert(v@.subrange(i as int, n as int).drop_first() =~= v@.subrange(i + 1, n as int));
        i = i + 1;
    }
    assert(trim_start_spec(s@) == v@.subrange(i as int, n as int));
    let mut j: usize = n;
    while j > i && is_space(v[j - 1])
        invariant
            n == v@.len(),
            v@ == s@,
            i <= j <= n,
            trim_spec(s@) == trim_end_spec(v@.subrange(i as int, j as int)),
        decreases j,
    {
        assert(v@.subrange(i as int, j as int).drop_last() =~= v@.subrange(i as int, j - 1));
        j = j - 1;
    }
    substring(s, i, j)
}

/// `s` without trailing occurrences of `c` (`str::trim_end_matches` with a char).
pub fn trim_end_char(s: &str, c: char) -> (r: String)
    ensures
        r@ == trim_end_char_spec(s@, c),
{
    let v = chars_of(s);
    let mut j: usize = v.len();
    assert(v@.subrange(0, j as int) =~= v@);
    while j > 0 && v[j - 1] == c
        invariant
            v@ == s@,
            j <= v@.len(),
            trim_end_char_spec(s@, c) == trim_end_char_spec(v@.subrange(0, j as int), c),
        decreases j,
    {
        assert(v@.subrange(0, j as int).drop_last() =~= v@.subrange(0, j - 1));
        j = j - 1;
    }
    assert(v@.subrange(0, j as int) == trim_end_char_spec(v@.subrange(0, j as int), c));
    substring(s, 0, j)
}

/// `s` without any leading `.` or `/`.
pub fn trim_start_dots_slashes(s: &str) -> (r: String)
    ensures
        r@ == trim_start_dots_slashes_spec(s@),
{
    let v = chars_of(s);
    let n = v.len();
    let mut i: usize = 0;
    assert(v@.subrange(0, n as int) =~= v@);
    while i < n && (v[i] == '.' || v[i] == '/')
        invariant
            n == v@.len(),
            v@ == s@,
            i <= n,
            trim_start_dots_slashes_spec(s@) == trim_start_dots_slashes_spec(
                v@.subrange(i as int, n as int),
            ),
        decreases n - i,
    {
        assert(v@.subrange(i as int, n as int).drop_first() =~= v@.subrange(i + 1, n as int));
        i = i + 1;
    }
    substring(s, i, n)
}

/// Whether `needle` occurs in `hay`.
pub fn contains_chars(hay: &Vec<char>, needle: &Vec<char>) -> (r: bool)
    ensures
        r == contains_spec(hay@, needle@),
{
    if needle.len() > hay.len() {
        return false;
    }
    let last = hay.len() - needle.len();
    let mut i: usize = 0;
    loop
        invariant
            needle@.len() <= hay@.len() <= usize::MAX,
            last == hay@.len() - needle@.len(),
            i <= last,
            forall|k: int|
                0 <= k < i ==> #[trigger] hay@.subrange(k, k + needle@.len()) != needle@,
        decreases last - i,
    {
        let end = i + needle.len();
        if range_equals(hay, i, end, needle) {
            return true;
        }
        if i == last {
            return false;
        }
        i = i + 1;
    }
}

/// Whether `a` and `b` hold the same characters.
pub fn str_eq(a: &str, b: &str) -> (r: bool)
    ensures
        r == (a@ == b@),
{
    let va = chars_of(a);
    let vb = chars_of(b);
    assert(va@.subrange(0, va@.len() as int) =~= va@);
    range_equals(&va, 0, va.len(), &vb)
}

/// The pieces of `s` between occurrences of `sep` (`str::split`).
pub fn split(s: &str, sep: char) -> (r: Vec<String>)
    ensures
        crate::fileset::views_of(r@) == split_spec(s@, sep),
{
    let v = chars_of(s);
    let mut out: Vec<String> = Vec::new();
    let mut end: usize = v.len();
    assert(v@.subrange(0, end as int) =~= v@);
    assert(crate::fileset::views_of(out@) =~= Seq::<Seq<char>>::empty());
    loop
        invariant
            v@ == s@,
            end <= v@.len(),
            split_spec(s@, sep) == split_spec(v@.subrange(0, end as int), sep) + crate::fileset::views_of(out@),
        decreases end,
    {
        let ghost sub = v@.subrange(0, end as int);
        let ghost before = out@;
        match rfind_in(&v, 0, end, sep) {
            Some(i) => {
                let piece = substring(s, i + 1, end);
                out.insert(0, piece);
                proof {
                    lemma_rfind_bounds(sub, sep);
                    assert(sub.subrange(0, i as int) =~= v@.subrange(0, i as int));
                    assert(sub.subrange(i + 1, sub.len() as int) =~= piece@);
                    assert(crate::fileset::views_of(out@) =~= seq![piece@] + crate::fileset::views_of(before));
                    assert(split_spec(sub, sep) == split_spec(v@.subrange(0, i as int), sep).push(piece@));
                    assert(split_spec(v@.subrange(0, i as int), sep).push(piece@) + crate::fileset::views_of(before) =~=
                        split_spec(v@.subrange(0, i as int), sep) + crate::fileset::views_of(out@));
                }
                end = i;
            },
            None => {
                let piece = substring(s, 0, end);
                out.insert(0, piece);
                proof {
                    assert(split_spec(sub, sep) == seq![sub]);
                    assert(crate::fileset::views_of(out@) =~= seq![sub] + crate::fileset::views_of(before));
                }
                return out;
            },
        }
    }
}

/// The pieces of `list` joined with `sep` between them.
pub fn join(list: &Vec<String>, sep: &str) -> (r: String)
    ensures
        r@ == join_spec(crate::fileset::views_of(list@), sep@),
{
    let ghost vs = crate::fileset::views_of(list@);
    let mut out = String::new();
    let n = list.len();
    let mut i: usize = 0;
    while i < n
        invariant
            n == list@.len(),
            vs == crate::fileset::views_of(list@),
            i <= n,
            out@ == join_spec(vs.subrange(0, i as int), sep@),
        decreases n - i,
    {
        let ghost prev = out@;
        if i > 0 {
            out.append(sep);
        }
        out.append(list[i].as_str());
        proof {
            let t = vs.subrange(0, i + 1);
            assert(t.drop_last() =~= vs.subrange(0, i as int));
            if i == 0 {
                assert(prev =~= Seq::<char>::empty());
                assert(out@ =~= t[0]);
            } else {
                assert(out@ =~= join_spec(t.drop_last(), sep@) + sep@ + t.last());
            }
        }
        i = i + 1;
    }
    assert(vs.subrange(0, n as int) =~= vs);
    out
}

/// `a` followed by `b`.
pub fn concat(a: &str, b: &str) -> (r: String)
    ensures
        r@ == a@ + b@,
{
    let mut out = copy_str(a);
    out.append(b);
    out
}

} // verus!
