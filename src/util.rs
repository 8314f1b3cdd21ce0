//! Small text helpers.
use vstd::prelude::*;

verus! {

/// Returns whether two strings hold the same characters.
pub fn same_text(a: &str, b: &str) -> (r: bool)
    ensures
        r == (a@ == b@),
{
    let n = a.unicode_len();
    if n != b.unicode_len() {
        return false;
    }
    let mut i: usize = 0;
    while i < n
        invariant
            n == a@.len(),
            n == b@.len(),
            i <= n,
            a@.take(i as int) == b@.take(i as int),
        decreases n - i,
    {
        if a.get_char(i) != b.get_char(i) {
            assert(a@[i as int] != b@[i as int]);
            return false;
        }
        assert(a@.take(i + 1) =~= a@.take(i as int).push(a@[i as int]));
        assert(b@.take(i + 1) =~= b@.take(i as int).push(b@[i as int]));
        i = i + 1;
    }
    assert(a@ =~= a@.take(n as int));
    assert(b@ =~= b@.take(n as int));
    true
}

/// `i` is the position of the first `c` in `s`.
pub open spec fn is_first_index(s: Seq<char>, c: char, i: int) -> bool {
    0 <= i < s.len() && s[i] == c && forall|j: int| 0 <= j < i ==> s[j] != c
}

/// Splits `s` at the first `delim` into the text before it and the text
/// after it; fails when `s` holds no `delim`.
pub fn strsplit(s: String, delim: char) -> (r: Result<(String, String), &'static str>)
    ensures
        r is Err <==> !s@.contains(delim),
        r matches Err(e) ==> e@ == "delim not found"@,
        r is Ok ==> exists|i: int|
            is_first_index(s@, delim, i) && r->Ok_0.0@ == s@.take(i) && r->Ok_0.1@ == s@.skip(
                i + 1,
            ),
{
    let t = s.as_str();
    let n = t.unicode_len();
    let mut i: usize = 0;
    while i < n && t.get_char(i) != delim
        invariant
            n == s@.len(),
            t@ == s@,
            i <= n,
            forall|j: int| 0 <= j < i ==> s@[j] != delim,
        decreases n - i,
    {
        i = i + 1;
    }
    if i == n {
        return Err("delim not found");
    }
    let before = String::from_str(t.substring_char(0, i));
    let after = String::from_str(t.substring_char(i + 1, n));
    assert(is_first_index(s@, delim, i as int));
    assert(before@ =~= s@.take(i as int));
    assert(after@ =~= s@.skip(i + 1));
    Ok((before, after))
}

/// What a key-listing query string asks for: `Some(k)` to resume after the
/// key `k`, `None` to start from the beginning.
pub open spec fn lastkey_query(qs: Seq<char>) -> Option<Option<Seq<char>>> {
    if qs.len() == 0 {
        Some(None)
    } else if qs.contains('&') || qs.len() < 8 || qs.take(8) != "lastkey="@ {
        None
    } else {
        Some(Some(qs.skip(8)))
    }
}

/// Reads the query string of a key listing: empty, or exactly one
/// `lastkey=<key>` parameter. Anything else is refused.
pub fn parse_lastkey_query(qs: &str) -> (r: Result<Option<String>, &'static str>)
    ensures
        match lastkey_query(qs@) {
            None => r is Err,
            Some(None) => r == Ok::<Option<String>, &'static str>(None),
            Some(Some(k)) => r matches Ok(Some(s)) && s@ == k,
        },
{
    let n = qs.unicode_len();
    if n == 0 {
        return Ok(None);
    }
    let mut i: usize = 0;
    while i < n
        invariant
            n == qs@.len(),
            i <= n,
            forall|j: int| 0 <= j < i ==> qs@[j] != '&',
        decreases n - i,
    {
        if qs.get_char(i) == '&' {
            assert(qs@.contains('&'));
            return Err("only one parameter is accepted");
        }
        i = i + 1;
    }
    assert(!qs@.contains('&'));
    if n < 8 {
        return Err("malformed query");
    }
    let head = qs.substring_char(0, 8);
    assert(head@ =~= qs@.take(8));
    if !same_text(head, "lastkey=") {
        return Err("malformed query");
    }
    let rest = String::from_str(qs.substring_char(8, n));
    assert(rest@ =~= qs@.skip(8));
    Ok(Some(rest))
}

} // verus!
