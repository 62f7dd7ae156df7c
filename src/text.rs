use vstd::prelude::*;

verus! {

/// The characters with the Unicode White_Space property, which is what
/// `char::is_whitespace` tests.
pub open spec fn is_white(c: char) -> bool {
    let u = c as u32;
    (0x9 <= u <= 0xD) || u == 0x20 || u == 0x85 || u == 0xA0 || u == 0x1680 || (0x2000 <= u
        <= 0x200A) || u == 0x2028 || u == 0x2029 || u == 0x202F || u == 0x205F || u == 0x3000
}

/// The text without trailing white space, as `str::trim_end` leaves it.
pub open spec fn trimmed_end(s: Seq<char>) -> Seq<char>
    decreases s.len(),
{
    if s.len() > 0 && is_white(s.last()) {
        trimmed_end(s.drop_last())
    } else {
        s
    }
}

/// The text without leading white space, as `str::trim_start` leaves it.
pub open spec fn trimmed_start(s: Seq<char>) -> Seq<char>
    decreases s.len(),
{
    if s.len() > 0 && is_white(s[0]) {
        trimmed_start(s.skip(1))
    } else {
        s
    }
}

/// The text without leading and trailing white space, as `str::trim`
/// leaves it.
pub open spec fn trimmed(s: Seq<char>) -> Seq<char> {
    trimmed_start(trimmed_end(s))
}

fn white(c: char) -> (r: bool)
    ensures
        r == is_white(c),
{
    let u = c as u32;
    (0x9 <= u && u <= 0xD) || u == 0x20 || u == 0x85 || u == 0xA0 || u == 0x1680 || (0x2000 <= u
        && u <= 0x200A) || u == 0x2028 || u == 0x2029 || u == 0x202F || u == 0x205F || u
        == 0x3000
}

/// Length of `s` without its trailing white space.
fn end_of_text(s: &str) -> (r: usize)
    ensures
        r <= s@.len(),
        trimmed_end(s@) == s@.take(r as int),
{
    let n = s.unicode_len();
    let mut j: usize = n;
    assert(s@.take(n as int) =~= s@);
    while j > 0 && white(s.get_char(j - 1))
        invariant
            n == s@.len(),
            j <= n,
            trimmed_end(s@) == trimmed_end(s@.take(j as int)),
        decreases j,
    {
        assert(s@.take(j as int).drop_last() =~= s@.take(j - 1));
        j = j - 1;
    }
    j
}

/// `s` without trailing white space.
pub fn trim_end_text(s: &str) -> (r: String)
    ensures
        r@ == trimmed_end(s@),
{
    let j = end_of_text(s);
    String::from_str(s.substring_char(0, j))
}

/// `s` without leading and trailing white space.
pub fn trim_text(s: &str) -> (r: String)
    ensures
        r@ == trimmed(s@),
{
    let j = end_of_text(s);
    let ghost t = s@.take(j as int);
    let mut i: usize = 0;
    assert(t.skip(0) =~= t);
    while i < j && white(s.get_char(i))
        invariant
            j <= s@.len(),
            t == s@.take(j as int),
            i <= j,
            trimmed_start(t) == trimmed_start(t.skip(i as int)),
        decreases j - i,
    {
        assert(t.skip(i as int)[0] == s@[i as int]);
        assert(t.skip(i as int).skip(1) =~= t.skip(i + 1));
        i = i + 1;
    }
    assert(s@.subrange(i as int, j as int) =~= t.skip(i as int));
    String::from_str(s.substring_char(i, j))
}

} // verus!
