use vstd::prelude::*;

verus! {

/// The index of the last `.` among the first `n` characters of `s`, or -1.
pub open spec fn last_dot_before(s: Seq<char>, n: int) -> int
    decreases n,
{
    if n <= 0 {
        -1
    } else if s[n - 1] == '.' {
        n - 1
    } else {
        last_dot_before(s, n - 1)
    }
}

/// A file name split into base name and extension at its last dot. A name
/// without a dot, or whose only dot leads it, has no extension.
pub open spec fn split_name_spec(name: Seq<char>) -> Option<(Seq<char>, Seq<char>)> {
    let i = last_dot_before(name, name.len() as int);
    if i <= 0 {
        None
    } else {
        Some((name.subrange(0, i), name.subrange(i + 1, name.len() as int)))
    }
}

proof fn lemma_last_dot_range(s: Seq<char>, n: int)
    requires
        0 <= n <= s.len(),
    ensures
        -1 <= last_dot_before(s, n) < n,
        last_dot_before(s, n) >= 0 ==> s[last_dot_before(s, n)] == '.',
    decreases n,
{
    if n > 0 && s[n - 1] != '.' {
        lemma_last_dot_range(s, n - 1);
    }
}

/// Splits a file name into its base name and its extension, as a path's
/// stem and extension are read.
pub fn split_name(name: &str) -> (r: Option<(String, String)>)
    ensures
        match r {
            Some((stem, ext)) => split_name_spec(name@) == Some((stem@, ext@)),
            None => split_name_spec(name@) is None,
        },
{
    let n = name.unicode_len();
    let mut i: usize = n;
    while i > 0 && name.get_char(i - 1) != '.'
        invariant
            i <= n,
            n == name@.len(),
            last_dot_before(name@, n as int) == last_dot_before(name@, i as int),
        decreases i,
    {
        i = i - 1;
    }
    proof {
        lemma_last_dot_range(name@, n as int);
        if i > 0 {
            assert(last_dot_before(name@, i as int) == i - 1);
        } else {
            assert(last_dot_before(name@, 0) == -1);
        }
    }
    if i <= 1 {
        return None;
    }
    let dot = i - 1;
    let stem = String::from_str(name.substring_char(0, dot));
    let ext = String::from_str(name.substring_char(dot + 1, n));
    Some((stem, ext))
}

} // verus!
