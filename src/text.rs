use vstd::prelude::*;

verus! {

/// Index of the first `c` in `s`, or `s.len()` when `s` holds none.
pub open spec fn idx_of(s: Seq<char>, c: char) -> nat
    decreases s.len(),
{
    if s.len() == 0 {
        0
    } else if s[0] == c {
        0
    } else {
        1 + idx_of(s.subrange(1, s.len() as int), c)
    }
}

/// The lines of `s`: the pieces between `'\n'` characters. A text that ends
/// in `'\n'` has an empty last line; an empty text has one empty line.
pub open spec fn lines_of(s: Seq<char>) -> Seq<Seq<char>>
    decreases s.len(),
{
    let i = idx_of(s, '\n');
    if i < s.len() {
        seq![s.take(i as int)] + lines_of(s.skip(i + 1 as int))
    } else {
        seq![s]
    }
}

/// A line holds a pair when it has at least one `=`.
pub open spec fn has_pair(line: Seq<char>) -> bool {
    idx_of(line, '=') < line.len()
}

/// The key of a line: everything before its first `=`.
pub open spec fn key_of(line: Seq<char>) -> Seq<char> {
    line.take(idx_of(line, '=') as int)
}

/// The value of a line: what stands between its first `=` and the next `=`
/// (or the end of the line).
pub open spec fn value_of(line: Seq<char>) -> Seq<char> {
    let rest = line.skip(idx_of(line, '=') + 1 as int);
    rest.take(idx_of(rest, '=') as int)
}

/// The mapping that a sequence of lines describes: each line with a pair sets
/// its key to its value, a later line overriding an earlier one.
pub open spec fn config_of(lines: Seq<Seq<char>>) -> Map<Seq<char>, Seq<char>>
    decreases lines.len(),
{
    if lines.len() == 0 {
        Map::empty()
    } else {
        let m = config_of(lines.drop_last());
        let l = lines.last();
        if has_pair(l) {
            m.insert(key_of(l), value_of(l))
        } else {
            m
        }
    }
}

/// The mapping that a dotenv text describes.
pub open spec fn config_of_text(s: Seq<char>) -> Map<Seq<char>, Seq<char>> {
    config_of(lines_of(s))
}

/// Whether the text `p` ends with `.env`.
pub open spec fn ends_with_dotenv(p: Seq<char>) -> bool {
    p.len() >= 4 && p.skip(p.len() - 4) == seq!['.', 'e', 'n', 'v']
}

/// A path text without what ends it and names no file: trailing `/`
/// characters and trailing `.` components.
pub open spec fn trim_tail(p: Seq<char>) -> Seq<char>
    decreases p.len(),
{
    if p.len() > 0 && p.last() == '/' {
        trim_tail(p.drop_last())
    } else if p.len() >= 2 && p.last() == '.' && p[p.len() - 2] == '/' {
        trim_tail(p.drop_last())
    } else {
        p
    }
}

/// What follows the last `/` of `t` (all of `t` when it has none).
pub open spec fn after_last_slash(t: Seq<char>) -> Seq<char>
    decreases t.len(),
{
    if t.len() == 0 || t.last() == '/' {
        Seq::empty()
    } else {
        after_last_slash(t.drop_last()).push(t.last())
    }
}

/// The file name of a path: its last component, once trailing separators and
/// `.` components are set aside.
pub open spec fn file_name_of(p: Seq<char>) -> Seq<char> {
    after_last_slash(trim_tail(p))
}

/// What follows the last `/` is a suffix, and it holds at least the trailing
/// `m` characters when none of them is `/`.
proof fn lemma_after_last_slash(t: Seq<char>, m: int)
    ensures
        after_last_slash(t).len() <= t.len(),
        after_last_slash(t) == t.skip(t.len() - after_last_slash(t).len()),
        0 <= m <= t.len() && (forall|i: int| t.len() - m <= i < t.len() ==> t[i] != '/')
            ==> after_last_slash(t).len() >= m,
    decreases t.len(),
{
    if t.len() == 0 || t.last() == '/' {
        assert(t.skip(t.len() as int) =~= Seq::<char>::empty());
    } else {
        let u = t.drop_last();
        lemma_after_last_slash(u, if m > 0 { m - 1 } else { 0 });
        let a = after_last_slash(t);
        assert(a =~= t.skip(t.len() - a.len()));
        if 0 < m <= t.len() && (forall|i: int| t.len() - m <= i < t.len() ==> t[i] != '/') {
            assert forall|i: int| u.len() - (m - 1) <= i < u.len() implies u[i] != '/' by {
                assert(u[i] == t[i]);
            }
        }
    }
}

/// A path's file name ends with `.env` exactly when the path, trimmed of its
/// trailing separators and `.` components, does.
proof fn lemma_file_name_suffix(p: Seq<char>)
    ensures
        ends_with_dotenv(file_name_of(p)) == ends_with_dotenv(trim_tail(p)),
{
    let t = trim_tail(p);
    let a = file_name_of(p);
    let env = seq!['.', 'e', 'n', 'v'];
    if ends_with_dotenv(t) {
        assert forall|i: int| t.len() - 4 <= i < t.len() implies t[i] != '/' by {
            assert(t[i] == t.skip(t.len() - 4)[i - (t.len() - 4)]);
        }
        lemma_after_last_slash(t, 4);
        assert(a.skip(a.len() - 4) =~= t.skip(t.len() - 4));
    } else {
        lemma_after_last_slash(t, 0);
        if ends_with_dotenv(a) {
            assert(a.skip(a.len() - 4) =~= t.skip(t.len() - 4));
        }
    }
}

/// `k` is the first index of `c` in `s` (or `s.len()`) exactly when no `c`
/// stands before it and `c` stands at it.
pub proof fn lemma_idx_of(s: Seq<char>, c: char, k: int)
    requires
        0 <= k <= s.len(),
        forall|j: int| 0 <= j < k ==> s[j] != c,
        k == s.len() || s[k] == c,
    ensures
        idx_of(s, c) == k,
    decreases k,
{
    if k > 0 {
        let t = s.subrange(1, s.len() as int);
        assert forall|j: int| 0 <= j < k - 1 implies t[j] != c by {
            assert(t[j] == s[j + 1]);
        }
        if k < s.len() {
            assert(t[k - 1] == s[k]);
        }
        lemma_idx_of(t, c, k - 1);
    }
}

/// What `idx_of` returns: the position of the first `c`, with no `c` before
/// it, or the length when `s` holds no `c`.
pub proof fn lemma_idx_of_props(s: Seq<char>, c: char)
    ensures
        idx_of(s, c) <= s.len(),
        forall|j: int| 0 <= j < idx_of(s, c) ==> s[j] != c,
        idx_of(s, c) < s.len() ==> s[idx_of(s, c) as int] == c,
        idx_of(s, c) == s.len() <==> !s.contains(c),
    decreases s.len(),
{
    if s.len() > 0 && s[0] != c {
        let t = s.subrange(1, s.len() as int);
        lemma_idx_of_props(t, c);
        assert forall|j: int| 0 <= j < idx_of(s, c) implies s[j] != c by {
            if j > 0 {
                assert(s[j] == t[j - 1]);
            }
        }
        if idx_of(s, c) < s.len() {
            assert(s[idx_of(s, c) as int] == t[idx_of(t, c) as int]);
        }
        if !t.contains(c) {
            assert forall|j: int| 0 <= j < s.len() implies s[j] != c by {
                if j > 0 {
                    assert(s[j] == t[j - 1]);
                }
            }
        } else {
            let j = choose|j: int| 0 <= j < t.len() && t[j] == c;
            assert(s[j + 1] == c);
        }
    }
}

/// The first index at or after `from` and before `to` where `cs` holds `c`,
/// or `to` when there is none.
pub(crate) fn find_from(cs: &Vec<char>, c: char, from: usize, to: usize) -> (r: usize)
    requires
        from <= to <= cs.len(),
    ensures
        from <= r <= to,
        forall|j: int| from <= j < r ==> cs@[j] != c,
        r == to || cs@[r as int] == c,
{
    let mut i = from;
    while i < to
        invariant
            from <= i <= to <= cs.len(),
            forall|j: int| from <= j < i ==> cs@[j] != c,
        decreases to - i,
    {
        if cs[i] == c {
            return i;
        }
        i = i + 1;
    }
    i
}

/// The characters of `s`, in order.
pub fn chars_of(s: &str) -> (r: Vec<char>)
    ensures
        r@ == s@,
{
    let mut r: Vec<char> = Vec::new();
    for c in it: s.chars()
        invariant
            it.seq() == s@,
            r@ == it.seq().take(it.index() as int),
    {
        r.push(c);
    }
    r
}

/// Splits a line at its first `=`: the key before it and the value up to the
/// next `=` (or the end). A line without `=` holds no pair.
pub fn split_line(line: &str) -> (r: Option<(String, String)>)
    ensures
        r is Some <==> has_pair(line@),
        r matches Some((k, v)) ==> k@ == key_of(line@) && v@ == value_of(line@),
{
    let cs = chars_of(line);
    let n = cs.len();
    let a = find_from(&cs, '=', 0, n);
    proof {
        lemma_idx_of(line@, '=', a as int);
    }
    if a == n {
        return None;
    }
    let b = find_from(&cs, '=', a + 1, n);
    proof {
        let rest = line@.skip(a + 1);
        assert forall|j: int| 0 <= j < b - (a + 1) implies rest[j] != '=' by {
            assert(rest[j] == line@[j + a + 1]);
        }
        if b < n {
            assert(rest[b - (a + 1)] == line@[b as int]);
        }
        lemma_idx_of(rest, '=', b - (a + 1));
        assert(rest.take(b - (a + 1)) =~= line@.subrange(a + 1, b as int));
        assert(line@.take(a as int) =~= line@.subrange(0, a as int));
    }
    let key = line.substring_char(0, a).to_owned();
    let value = line.substring_char(a + 1, b).to_owned();
    Some((key, value))
}

/// The file to read for `path`: `path` itself when its file name ends with
/// `.env`, else `.env` in the current directory.
pub fn resolve_path<'a>(path: &'a str) -> (r: &'a str)
    ensures
        ends_with_dotenv(file_name_of(path@)) ==> r@ == path@,
        !ends_with_dotenv(file_name_of(path@)) ==> r@ == ".env"@,
{
    if is_dotenv_path(path) {
        path
    } else {
        ".env"
    }
}

/// Whether the file name of `path` ends with `.env`.
pub fn is_dotenv_path(path: &str) -> (r: bool)
    ensures
        r == ends_with_dotenv(file_name_of(path@)),
{
    let cs = chars_of(path);
    let mut end = cs.len();
    assert(cs@.take(end as int) =~= path@);
    loop
        invariant
            end <= cs@.len(),
            cs@ == path@,
            trim_tail(cs@.take(end as int)) == trim_tail(path@),
        ensures
            end <= cs@.len(),
            trim_tail(cs@.take(end as int)) == trim_tail(path@),
            !(end > 0 && cs@[end - 1] == '/'),
            !(end >= 2 && cs@[end - 1] == '.' && cs@[end - 2] == '/'),
        decreases end,
    {
        let ghost before = cs@.take(end as int);
        if end > 0 && cs[end - 1] == '/' {
            end = end - 1;
        } else if end >= 2 && cs[end - 1] == '.' && cs[end - 2] == '/' {
            end = end - 1;
        } else {
            break;
        }
        assert(before.drop_last() =~= cs@.take(end as int));
    }
    let ghost t = cs@.take(end as int);
    assert(end > 0 ==> t.last() == cs@[end - 1]);
    assert(end >= 2 ==> t[t.len() - 2] == cs@[end - 2]);
    assert(trim_tail(t) == t);
    proof {
        lemma_file_name_suffix(path@);
    }
    if end < 4 {
        return false;
    }
    let r = cs[end - 4] == '.' && cs[end - 3] == 'e' && cs[end - 2] == 'n' && cs[end - 1] == 'v';
    assert(r == (t.skip(end - 4) =~= seq!['.', 'e', 'n', 'v']));
    r
}

} // verus!
