use vstd::prelude::*;

verus! {

/// `path[s..=e]` reads the same forwards and backwards.
pub open spec fn palindrome(path: Seq<(i32, i32)>, s: int, e: int) -> bool {
    forall|k: int| 0 <= k && s + k < e - k ==> #[trigger] path[s + k] == path[e - k]
}

/// Whether `path[s..=e]` is a palindrome; a range with `s >= e` is one.
pub fn is_palindrome(s: usize, e: usize, path: &[(i32, i32)]) -> (r: bool)
    requires
        s < e ==> e < path@.len(),
    ensures
        r == palindrome(path@, s as int, e as int),
{
    let mut start = s;
    let mut end = e;
    while start < end
        invariant
            s <= start,
            start <= e || s > e,
            end <= e,
            start - s == e - end,
            s < e ==> e < path@.len(),
            forall|k: int| 0 <= k < start - s ==> #[trigger] path@[s + k] == path@[e - k],
        decreases e + 1 - start,
    {
        let (a, b) = (path[start], path[end]);
        if a.0 != b.0 || a.1 != b.1 {
            assert(path@[s + (start - s)] != path@[e - (start - s)]);
            return false;
        }
        start += 1;
        end -= 1;
    }
    assert forall|k: int| 0 <= k && s + k < e - k implies #[trigger] path@[s + k] == path@[e - k] by {
        assert(k < start - s);
    }
    true
}

/// The greatest `j <= i` for which `path[0..=j]` is a palindrome; `0` when
/// there is none above it, as a single point always is one.
pub open spec fn last_prefix_palindrome(path: Seq<(i32, i32)>, i: int) -> int
    decreases i,
{
    if i <= 0 || palindrome(path, 0, i) {
        if i <= 0 { 0 } else { i }
    } else {
        last_prefix_palindrome(path, i - 1)
    }
}

fn longest_prefix_palindrome(path: &Vec<(i32, i32)>) -> (i: usize)
    requires
        path@.len() > 0,
    ensures
        i as int == last_prefix_palindrome(path@, path@.len() - 1),
        i < path@.len(),
{
    let mut i = path.len() - 1;
    while i > 0 && !is_palindrome(0, i, path.as_slice())
        invariant
            i < path@.len(),
            last_prefix_palindrome(path@, path@.len() - 1) == last_prefix_palindrome(path@, i as int),
        decreases i,
    {
        i -= 1;
    }
    i
}

/// Drops the mirrored tail of a path that backtracks over its own start:
/// with `path[0..=i]` the longest palindromic prefix, the last `i / 2`
/// points go.
pub fn remove_end_palindrome(path: &mut Vec<(i32, i32)>)
    ensures
        old(path)@.len() == 0 ==> final(path)@ == old(path)@,
        old(path)@.len() > 0 ==> final(path)@ == old(path)@.subrange(
            0,
            old(path)@.len() - last_prefix_palindrome(old(path)@, old(path)@.len() - 1) / 2,
        ),
{
    if path.len() == 0 {
        return ;
    }
    let i = longest_prefix_palindrome(path);
    let keep = path.len() - i / 2;
    path.truncate(keep);
}

/// Drops the mirrored head of a path: with `path[0..=i]` the longest
/// palindromic prefix, the first `i / 2` points go.
pub fn remove_start_palindrome(path: &mut Vec<(i32, i32)>)
    ensures
        old(path)@.len() == 0 ==> final(path)@ == old(path)@,
        old(path)@.len() > 0 ==> final(path)@ == old(path)@.subrange(
            last_prefix_palindrome(old(path)@, old(path)@.len() - 1) / 2,
            old(path)@.len() as int,
        ),
{
    if path.len() == 0 {
        return ;
    }
    let i = longest_prefix_palindrome(path);
    let tail = path.split_off(i / 2);
    *path = tail;
}

} // verus!
