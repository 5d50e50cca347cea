use vstd::prelude::*;

verus! {

/// Relies on `String::from_iter` (via `Iterator::collect`) over `char`s: the
/// resulting string holds exactly the characters of the iterator, in order.
#[verifier::external_body]
pub(crate) fn chars_to_string(v: &Vec<char>) -> (r: String)
    ensures
        r@ == v@,
{
    v.iter().collect()
}

/// Appends every character of `s` to `out`.
pub fn push_str_chars(out: &mut Vec<char>, s: &str)
    ensures
        final(out)@ == old(out)@ + s@,
{
    let len = s.unicode_len();
    let mut i: usize = 0;
    while i < len
        invariant
            len == s@.len(),
            i <= len,
            out@ == old(out)@ + s@.subrange(0, i as int),
        decreases len - i,
    {
        let c = s.get_char(i);
        out.push(c);
        proof {
            assert(s@.subrange(0, i + 1 as int) =~= s@.subrange(0, i as int).push(s@[i as int]));
        }
        i += 1;
    }
    proof {
        assert(s@.subrange(0, len as int) =~= s@);
    }
}

/// Distance from position `i` to the first occurrence of `c` at or after `i`,
/// or `None` if `c` does not occur there.
pub open spec fn char_dist(s: Seq<char>, i: int, c: char) -> Option<nat>
    decreases s.len() - i,
{
    if i < 0 || i >= s.len() {
        None
    } else if s[i] == c {
        Some(0nat)
    } else {
        match char_dist(s, i + 1, c) {
            None => None,
            Some(d) => Some((d + 1) as nat),
        }
    }
}

/// What a `char_dist` answer means, position by position.
pub proof fn lemma_char_dist(s: Seq<char>, i: int, c: char)
    requires
        0 <= i <= s.len(),
    ensures
        match char_dist(s, i, c) {
            Some(d) => {
                &&& i + d < s.len()
                &&& s[i + d] == c
                &&& forall|k: int| i <= k < i + d ==> s[k] != c
            },
            None => forall|k: int| i <= k < s.len() ==> s[k] != c,
        },
    decreases s.len() - i,
{
    if i < s.len() && s[i] != c {
        lemma_char_dist(s, i + 1, c);
    }
}

/// The converse: pointwise facts determine the `char_dist` answer.
pub proof fn lemma_char_dist_from_points(s: Seq<char>, i: int, c: char, j: int)
    requires
        0 <= i <= j < s.len(),
        s[j] == c,
        forall|k: int| i <= k < j ==> s[k] != c,
    ensures
        char_dist(s, i, c) == Some((j - i) as nat),
    decreases j - i,
{
    if i < j {
        lemma_char_dist_from_points(s, i + 1, c, j);
    }
}

/// The converse for absence: no occurrence means no answer.
pub proof fn lemma_char_dist_none(s: Seq<char>, i: int, c: char)
    requires
        0 <= i <= s.len(),
        forall|k: int| i <= k < s.len() ==> s[k] != c,
    ensures
        char_dist(s, i, c) is None,
    decreases s.len() - i,
{
    if i < s.len() {
        lemma_char_dist_none(s, i + 1, c);
    }
}

/// First occurrence of `c` in `s` at or after `from`.
pub fn find_char(s: &str, from: usize, c: char) -> (r: Option<usize>)
    requires
        from <= s@.len(),
    ensures
        match r {
            Some(j) => {
                &&& from <= j < s@.len()
                &&& s@[j as int] == c
                &&& forall|k: int| from <= k < j ==> s@[k] != c
                &&& char_dist(s@, from as int, c) == Some((j - from) as nat)
            },
            None => {
                &&& forall|k: int| from <= k < s@.len() ==> s@[k] != c
                &&& char_dist(s@, from as int, c) is None
            },
        },
{
    let len = s.unicode_len();
    let mut i: usize = from;
    while i < len
        invariant
            from <= i <= len,
            len == s@.len(),
            forall|k: int| from <= k < i ==> s@[k] != c,
        decreases len - i,
    {
        if s.get_char(i) == c {
            proof {
                lemma_char_dist_from_points(s@, from as int, c, i as int);
            }
            return Some(i);
        }
        i += 1;
    }
    proof {
        lemma_char_dist_none(s@, from as int, c);
    }
    None
}

/// The pieces of `s` between occurrences of `sep`, in order; a string without
/// `sep` is one piece, and every separator ends a piece, so `n` separators
/// give `n + 1` pieces.
pub open spec fn split_on(s: Seq<char>, sep: char) -> Seq<Seq<char>>
    decreases s.len(),
    via split_on_decreases
{
    match char_dist(s, 0, sep) {
        None => seq![s],
        Some(d) => seq![s.subrange(0, d as int)] + split_on(
            s.subrange(d + 1 as int, s.len() as int),
            sep,
        ),
    }
}

#[via_fn]
proof fn split_on_decreases(s: Seq<char>, sep: char) {
    lemma_char_dist(s, 0, sep);
}

/// Splits `s` at every occurrence of `sep`.
pub fn split_on_exec(s: &str, sep: char) -> (r: Vec<String>)
    ensures
        r.deep_view() == split_on(s@, sep),
{
    let len = s.unicode_len();
    let mut result: Vec<String> = Vec::new();
    let mut start: usize = 0;
    proof {
        assert(s@.subrange(0, len as int) =~= s@);
        assert(result.deep_view() =~= Seq::<Seq<char>>::empty());
        assert(split_on(s@, sep) =~= result.deep_view() + split_on(
            s@.subrange(0, len as int),
            sep,
        ));
    }
    loop
        invariant
            start <= len,
            len == s@.len(),
            split_on(s@, sep) == result.deep_view() + split_on(
                s@.subrange(start as int, len as int),
                sep,
            ),
        decreases len - start,
    {
        let ghost rest = s@.subrange(start as int, len as int);
        match find_char(s, start, sep) {
            Some(j) => {
                let piece = s.substring_char(start, j).to_owned();
                proof {
                    lemma_char_dist_from_points(rest, 0, sep, j - start);
                    assert(rest.subrange(0, j - start) =~= s@.subrange(start as int, j as int));
                    assert(rest.subrange(j - start + 1, rest.len() as int) =~= s@.subrange(
                        j + 1 as int,
                        len as int,
                    ));
                    assert(split_on(rest, sep) == seq![s@.subrange(start as int, j as int)]
                        + split_on(s@.subrange(j + 1 as int, len as int), sep));
                }
                result.push(piece);
                proof {
                    assert(result.deep_view() =~= result.deep_view().subrange(
                        0,
                        result.deep_view().len() - 1,
                    ).push(s@.subrange(start as int, j as int)));
                    assert(split_on(s@, sep) =~= result.deep_view() + split_on(
                        s@.subrange(j + 1 as int, len as int),
                        sep,
                    ));
                }
                start = j + 1;
            },
            None => {
                let piece = s.substring_char(start, len).to_owned();
                proof {
                    lemma_char_dist_none(rest, 0, sep);
                    assert(split_on(rest, sep) == seq![rest]);
                }
                result.push(piece);
                proof {
                    assert(result.deep_view() =~= split_on(s@, sep));
                }
                return result;
            },
        }
    }
}

/// Whether `sub` occurs in `s` starting at position `i`.
pub open spec fn matches_at(s: Seq<char>, sub: Seq<char>, i: int) -> bool {
    0 <= i && i + sub.len() <= s.len() && s.subrange(i, i + sub.len()) == sub
}

/// Whether `sub` occurs anywhere in `s`.
pub open spec fn contains_sub(s: Seq<char>, sub: Seq<char>) -> bool {
    exists|i: int| matches_at(s, sub, i)
}

/// Whether `sub` occurs as contiguous text inside `s`.
pub fn str_contains(s: &str, sub: &str) -> (r: bool)
    ensures
        r == contains_sub(s@, sub@),
{
    let n = s.unicode_len();
    let m = sub.unicode_len();
    if m > n {
        proof {
            assert(forall|i: int| !matches_at(s@, sub@, i));
        }
        return false;
    }
    if m == 0 {
        proof {
            assert(s@.subrange(0, 0) =~= sub@);
            assert(matches_at(s@, sub@, 0));
        }
        return true;
    }
    let mut i: usize = 0;
    while i <= n - m
        invariant
            1 <= m <= n,
            n == s@.len(),
            m == sub@.len(),
            i <= n - m + 1,
            forall|a: int| 0 <= a < i ==> !matches_at(s@, sub@, a),
        decreases n - m + 1 - i,
    {
        let mut k: usize = 0;
        let mut all = true;
        while k < m && all
            invariant
                i + m <= n,
                n == s@.len(),
                m == sub@.len(),
                k <= m,
                all ==> forall|b: int| 0 <= b < k ==> s@[i + b] == sub@[b],
                !all ==> !matches_at(s@, sub@, i as int),
            decreases m - k, (if all { 1int } else { 0int }),
        {
            if s.get_char(i + k) != sub.get_char(k) {
                proof {
                    assert(s@.subrange(i as int, i + m as int)[k as int] != sub@[k as int]);
                    assert(!matches_at(s@, sub@, i as int));
                }
                all = false;
            } else {
                k += 1;
            }
        }
        if all {
            proof {
                assert(s@.subrange(i as int, i + m as int) =~= sub@);
                assert(matches_at(s@, sub@, i as int));
            }
            return true;
        }
        i += 1;
    }
    proof {
        assert forall|a: int| !matches_at(s@, sub@, a) by {
            if 0 <= a && a + sub@.len() <= s@.len() {
                assert(a < i);
            }
        }
    }
    false
}

/// The characters of `s` from position `n` on.
pub fn chars_from(s: &str, n: usize) -> (r: String)
    requires
        n <= s@.len(),
    ensures
        r@ == s@.skip(n as int),
{
    let len = s.unicode_len();
    let r = s.substring_char(n, len).to_owned();
    proof {
        assert(s@.subrange(n as int, len as int) =~= s@.skip(n as int));
    }
    r
}

pub open spec fn is_digit(c: char) -> bool {
    48 <= (c as u32) <= 57
}

pub open spec fn digit_val(c: char) -> int {
    (c as u32) - 48
}

pub open spec fn all_digits(s: Seq<char>) -> bool {
    forall|k: int| 0 <= k < s.len() ==> is_digit(#[trigger] s[k])
}

/// A non-empty, all-digit piece of text: a valid list index.
pub open spec fn is_index(s: Seq<char>) -> bool {
    s.len() > 0 && all_digits(s)
}

/// The number an all-digit text denotes, most significant digit first.
pub open spec fn dec_val(s: Seq<char>) -> int
    decreases s.len(),
{
    if s.len() == 0 {
        0
    } else {
        dec_val(s.drop_last()) * 10 + digit_val(s.last())
    }
}

pub proof fn lemma_dec_val_nonneg(s: Seq<char>)
    requires
        all_digits(s),
    ensures
        dec_val(s) >= 0,
    decreases s.len(),
{
    if s.len() > 0 {
        assert(all_digits(s.drop_last()));
        lemma_dec_val_nonneg(s.drop_last());
    }
}

/// Extending an all-digit prefix by one digit multiplies its value by ten.
pub proof fn lemma_dec_val_step(s: Seq<char>, i: int)
    requires
        0 <= i < s.len(),
    ensures
        dec_val(s.subrange(0, i + 1)) == dec_val(s.subrange(0, i)) * 10 + digit_val(s[i]),
{
    assert(s.subrange(0, i + 1).drop_last() =~= s.subrange(0, i));
    assert(s.subrange(0, i + 1).last() == s[i]);
}

/// A prefix of an all-digit text denotes no more than the whole.
pub proof fn lemma_dec_val_prefix_le(s: Seq<char>, i: int)
    requires
        0 <= i <= s.len(),
        all_digits(s),
    ensures
        dec_val(s.subrange(0, i)) <= dec_val(s),
    decreases s.len() - i,
{
    if i == s.len() {
        assert(s.subrange(0, i) =~= s);
    } else {
        lemma_dec_val_step(s, i);
        assert(all_digits(s.subrange(0, i)));
        lemma_dec_val_nonneg(s.subrange(0, i));
        lemma_dec_val_prefix_le(s, i + 1);
    }
}

/// Reads `s` as a decimal list index. `None` when `s` is not all digits or
/// its value does not fit a `usize`.
pub fn parse_index(s: &str) -> (r: Option<usize>)
    ensures
        match r {
            Some(n) => is_index(s@) && dec_val(s@) == n as int,
            None => !is_index(s@) || dec_val(s@) > usize::MAX,
        },
{
    let len = s.unicode_len();
    if len == 0 {
        return None;
    }
    let mut i: usize = 0;
    let mut acc: usize = 0;
    while i < len
        invariant
            i <= len,
            len == s@.len(),
            forall|k: int| 0 <= k < i ==> is_digit(#[trigger] s@[k]),
            acc as int == dec_val(s@.subrange(0, i as int)),
        decreases len - i,
    {
        let c = s.get_char(i);
        let cv = c as u32;
        if cv < 48 || cv > 57 {
            return None;
        }
        let d = cv - 48;
        let big: u128 = (acc as u128) * 10 + (d as u128);
        proof {
            lemma_dec_val_step(s@, i as int);
        }
        if big > (usize::MAX as u128) {
            proof {
                if is_index(s@) {
                    lemma_dec_val_prefix_le(s@, i + 1 as int);
                }
            }
            return None;
        }
        acc = big as usize;
        i += 1;
    }
    proof {
        assert(s@.subrange(0, len as int) =~= s@);
    }
    Some(acc)
}

} // verus!
