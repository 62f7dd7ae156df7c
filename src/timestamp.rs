use vstd::prelude::*;

verus! {

/// A point in a subtitle track.
#[derive(Debug, Clone, Copy, PartialEq, Eq, Structural)]
pub struct TimeStamp {
    pub hours: u32,
    pub minutes: u32,
    pub seconds: u32,
    pub milliseconds: u32,
}

/// One subtitle: its number, when it shows, when it goes, and its text.
#[derive(Debug, Clone)]
pub struct SubtitleEntry {
    pub id: u32,
    pub start_time: TimeStamp,
    pub end_time: TimeStamp,
    pub text: String,
}

/// A subtitle file as read from disk.
#[derive(Debug)]
pub struct SRTFile {
    pub name: String,
    pub path: String,
    pub entries: Vec<SubtitleEntry>,
    pub encoding: Option<String>,
}

pub open spec fn digit_char(d: nat) -> char {
    if d == 0 {
        '0'
    } else if d == 1 {
        '1'
    } else if d == 2 {
        '2'
    } else if d == 3 {
        '3'
    } else if d == 4 {
        '4'
    } else if d == 5 {
        '5'
    } else if d == 6 {
        '6'
    } else if d == 7 {
        '7'
    } else if d == 8 {
        '8'
    } else {
        '9'
    }
}

pub open spec fn is_digit(c: char) -> bool {
    '0' <= c <= '9'
}

pub open spec fn digit_value(c: char) -> nat {
    ((c as u32) - ('0' as u32)) as nat
}

/// Decimal digits of `n`, most significant first, without leading zeros.
pub open spec fn decimal(n: nat) -> Seq<char>
    decreases n,
{
    if n < 10 {
        seq![digit_char(n)]
    } else {
        decimal(n / 10).push(digit_char(n % 10))
    }
}

pub open spec fn zeros(k: nat) -> Seq<char> {
    Seq::new(k, |i: int| '0')
}

/// `n` in decimal, with leading zeros up to `w` digits.
pub open spec fn padded(n: nat, w: nat) -> Seq<char> {
    let d = decimal(n);
    if d.len() < w {
        zeros((w - d.len()) as nat) + d
    } else {
        d
    }
}

/// `HH:MM:SS` followed by `sep` and `mmm`.
pub open spec fn clock_text(t: TimeStamp, sep: char) -> Seq<char> {
    padded(t.hours as nat, 2) + seq![':'] + padded(t.minutes as nat, 2) + seq![':'] + padded(
        t.seconds as nat,
        2,
    ) + seq![sep] + padded(t.milliseconds as nat, 3)
}

/// The subtitle-file form `HH:MM:SS,mmm`.
pub open spec fn srt_text(t: TimeStamp) -> Seq<char> {
    clock_text(t, ',')
}

/// The WebVTT form `HH:MM:SS.mmm`.
pub open spec fn vtt_text(t: TimeStamp) -> Seq<char> {
    clock_text(t, '.')
}

/// The short form `HH:MM:SS`.
pub open spec fn simple_text(t: TimeStamp) -> Seq<char> {
    padded(t.hours as nat, 2) + seq![':'] + padded(t.minutes as nat, 2) + seq![':'] + padded(
        t.seconds as nat,
        2,
    )
}

pub open spec fn total_ms(t: TimeStamp) -> nat {
    ((t.hours as nat * 3600 + t.minutes as nat * 60 + t.seconds as nat) * 1000
        + t.milliseconds as nat) as nat
}

/// The decomposition of a millisecond count into clock fields.
pub open spec fn from_ms_spec(ms: nat) -> TimeStamp {
    TimeStamp {
        hours: (ms / 3600000) as u32,
        minutes: ((ms % 3600000) / 60000) as u32,
        seconds: ((ms % 60000) / 1000) as u32,
        milliseconds: (ms % 1000) as u32,
    }
}

/// The clock fields are in range: minutes and seconds below 60,
/// milliseconds below 1000.
pub open spec fn well_formed(t: TimeStamp) -> bool {
    t.minutes < 60 && t.seconds < 60 && t.milliseconds < 1000
}

pub open spec fn all_digits(s: Seq<char>) -> bool {
    forall|i: int| 0 <= i < s.len() ==> is_digit(#[trigger] s[i])
}

pub open spec fn digits_value(s: Seq<char>) -> nat
    decreases s.len(),
{
    if s.len() == 0 {
        0
    } else {
        digits_value(s.drop_last()) * 10 + digit_value(s.last())
    }
}

/// The text without one leading `+`.
pub open spec fn unsigned_text(s: Seq<char>) -> Seq<char> {
    if s.len() > 0 && s[0] == '+' {
        s.skip(1)
    } else {
        s
    }
}

/// An unsigned 32-bit decimal: an optional `+`, then one or more digits,
/// with a value that fits.
pub open spec fn parse_u32_spec(s: Seq<char>) -> Option<u32> {
    let d = unsigned_text(s);
    if d.len() > 0 && all_digits(d) && digits_value(d) <= u32::MAX {
        Some(digits_value(d) as u32)
    } else {
        None
    }
}

pub open spec fn count_char(s: Seq<char>, c: char) -> nat
    decreases s.len(),
{
    if s.len() == 0 {
        0
    } else {
        count_char(s.drop_last(), c) + if s.last() == c {
            1nat
        } else {
            0nat
        }
    }
}

/// Index of the first `c` in `s`, or -1.
pub open spec fn find_char(s: Seq<char>, c: char) -> int
    decreases s.len(),
{
    if s.len() == 0 {
        -1
    } else {
        let r = find_char(s.drop_last(), c);
        if r >= 0 {
            r
        } else if s.last() == c {
            s.len() - 1
        } else {
            -1
        }
    }
}

/// What precedes the first `c`.
pub open spec fn before(s: Seq<char>, c: char) -> Seq<char> {
    s.take(find_char(s, c))
}

/// What follows the first `c`.
pub open spec fn after(s: Seq<char>, c: char) -> Seq<char> {
    s.skip(find_char(s, c) + 1)
}

/// `HH:MM:SS,mmm` read back: exactly two colons, then exactly one comma
/// in what follows the second, and four unsigned 32-bit decimals, with
/// minutes and seconds below 60 and milliseconds below 1000.
pub open spec fn parse_spec(s: Seq<char>) -> Option<TimeStamp> {
    let rest = after(s, ':');
    let tail = after(rest, ':');
    if count_char(s, ':') != 2 || count_char(tail, ',') != 1 {
        None
    } else {
        match (
            parse_u32_spec(before(s, ':')),
            parse_u32_spec(before(rest, ':')),
            parse_u32_spec(before(tail, ',')),
            parse_u32_spec(after(tail, ',')),
        ) {
            (Some(h), Some(m), Some(sec), Some(milli)) => {
                let t = TimeStamp { hours: h, minutes: m, seconds: sec, milliseconds: milli };
                if well_formed(t) {
                    Some(t)
                } else {
                    None
                }
            },
            _ => None,
        }
    }
}

// ---- rendering ----

fn digit_str(d: u32) -> (r: &'static str)
    requires
        d < 10,
    ensures
        r@ == seq![digit_char(d as nat)],
{
    proof {
        reveal_strlit("0");
        reveal_strlit("1");
        reveal_strlit("2");
        reveal_strlit("3");
        reveal_strlit("4");
        reveal_strlit("5");
        reveal_strlit("6");
        reveal_strlit("7");
        reveal_strlit("8");
        reveal_strlit("9");
    }
    if d == 0 {
        "0"
    } else if d == 1 {
        "1"
    } else if d == 2 {
        "2"
    } else if d == 3 {
        "3"
    } else if d == 4 {
        "4"
    } else if d == 5 {
        "5"
    } else if d == 6 {
        "6"
    } else if d == 7 {
        "7"
    } else if d == 8 {
        "8"
    } else {
        "9"
    }
}

pub(crate) fn push_decimal(out: &mut String, n: u64)
    ensures
        final(out)@ == old(out)@ + decimal(n as nat),
    decreases n,
{
    if n >= 10 {
        push_decimal(out, n / 10);
    }
    out.append(digit_str((n % 10) as u32));
    proof {
        if n >= 10 {
            assert(old(out)@ + decimal(n as nat) =~= old(out)@ + decimal((n / 10) as nat) + seq![
                digit_char((n % 10) as nat),
            ]);
        }
    }
}

fn decimal_len(n: u32) -> (r: usize)
    ensures
        r == decimal(n as nat).len(),
        1 <= r <= n + 1,
    decreases n,
{
    if n >= 10 {
        1 + decimal_len(n / 10)
    } else {
        1
    }
}

fn push_padded(out: &mut String, n: u32, w: usize)
    requires
        w <= 10,
    ensures
        final(out)@ == old(out)@ + padded(n as nat, w as nat),
{
    let len = decimal_len(n);
    if len < w {
        let mut k: usize = 0;
        while k < w - len
            invariant
                len < w <= 10,
                k <= w - len,
                out@ == old(out)@ + zeros(k as nat),
            decreases w - len - k,
        {
            proof {
                reveal_strlit("0");
            }
            out.append("0");
            assert(zeros((k + 1) as nat) =~= zeros(k as nat) + seq!['0']);
            k = k + 1;
        }
    }
    push_decimal(out, n as u64);
    assert(out@ =~= old(out)@ + padded(n as nat, w as nat));
}

fn push_clock(out: &mut String, t: &TimeStamp, sep: &str)
    ensures
        final(out)@ == old(out)@ + padded(t.hours as nat, 2) + sep@ + padded(t.minutes as nat, 2),
{
    push_padded(out, t.hours, 2);
    out.append(sep);
    push_padded(out, t.minutes, 2);
}

impl TimeStamp {
    /// The subtitle-file form `HH:MM:SS,mmm`.
    pub fn to_string(&self) -> (r: String)
        ensures
            r@ == srt_text(*self),
    {
        proof {
            reveal_strlit(",");
            assert(","@ =~= seq![',']);
        }
        self.render(",")
    }

    /// The WebVTT form `HH:MM:SS.mmm`.
    pub fn to_vtt_string(&self) -> (r: String)
        ensures
            r@ == vtt_text(*self),
    {
        proof {
            reveal_strlit(".");
            assert("."@ =~= seq!['.']);
        }
        self.render(".")
    }

    fn render(&self, sep: &str) -> (r: String)
        requires
            sep@ == seq![','] || sep@ == seq!['.'],
        ensures
            r@ == clock_text(*self, sep@[0]),
    {
        proof {
            reveal_strlit(":");
        }
        let mut out = String::new();
        push_clock(&mut out, self, ":");
        out.append(":");
        push_padded(&mut out, self.seconds, 2);
        out.append(sep);
        push_padded(&mut out, self.milliseconds, 3);
        assert(out@ =~= clock_text(*self, sep@[0]));
        out
    }

    /// The short form `HH:MM:SS`.
    pub fn to_simple_string(&self) -> (r: String)
        ensures
            r@ == simple_text(*self),
    {
        proof {
            reveal_strlit(":");
        }
        let mut out = String::new();
        push_clock(&mut out, self, ":");
        out.append(":");
        push_padded(&mut out, self.seconds, 2);
        assert(out@ =~= simple_text(*self));
        out
    }

    /// Total milliseconds.
    pub fn to_ms(&self) -> (r: u64)
        ensures
            r == total_ms(*self),
    {
        (self.hours as u64 * 3600 + self.minutes as u64 * 60 + self.seconds as u64) * 1000
            + self.milliseconds as u64
    }

    /// Splits a millisecond count into clock fields.
    pub fn from_ms(ms: u32) -> (r: TimeStamp)
        ensures
            r == from_ms_spec(ms as nat),
            well_formed(r),
            total_ms(r) == ms,
    {
        let r = TimeStamp {
            hours: ms / 3600000,
            minutes: (ms % 3600000) / 60000,
            seconds: (ms % 60000) / 1000,
            milliseconds: ms % 1000,
        };
        proof {
            lemma_ms_decomposition(ms as nat);
        }
        r
    }
}

proof fn lemma_ms_decomposition(ms: nat)
    requires
        ms <= u32::MAX,
    ensures
        well_formed(from_ms_spec(ms)),
        total_ms(from_ms_spec(ms)) == ms,
{
    let h = ms / 3600000;
    let m = (ms % 3600000) / 60000;
    let s = (ms % 60000) / 1000;
    let x = ms % 1000;
    assert(ms == ((h * 3600 + m * 60 + s) * 1000 + x)) by (nonlinear_arith)
        requires
            h == ms / 3600000,
            m == (ms % 3600000) / 60000,
            s == (ms % 60000) / 1000,
            x == ms % 1000,
    ;
    assert(m < 60) by (nonlinear_arith)
        requires
            m == (ms % 3600000) / 60000,
    ;
    assert(s < 60) by (nonlinear_arith)
        requires
            s == (ms % 60000) / 1000,
    ;
    assert(h <= u32::MAX) by (nonlinear_arith)
        requires
            h == ms / 3600000,
            ms <= u32::MAX,
    ;
}


// ---- reading ----

/// The characters of `s`.
pub fn chars_of(s: &str) -> (r: Vec<char>)
    ensures
        r@ == s@,
{
    let n = s.unicode_len();
    let mut out: Vec<char> = Vec::new();
    let mut i: usize = 0;
    while i < n
        invariant
            n == s@.len(),
            i <= n,
            out@ == s@.take(i as int),
        decreases n - i,
    {
        out.push(s.get_char(i));
        assert(s@.take(i + 1) =~= s@.take(i as int).push(s@[i as int]));
        i = i + 1;
    }
    assert(s@.take(n as int) =~= s@);
    out
}

fn count_in(v: &Vec<char>, lo: usize, hi: usize, c: char) -> (r: usize)
    requires
        lo <= hi <= v@.len(),
    ensures
        r == count_char(v@.subrange(lo as int, hi as int), c),
{
    let mut n: usize = 0;
    let mut i: usize = lo;
    while i < hi
        invariant
            lo <= i <= hi <= v@.len(),
            n == count_char(v@.subrange(lo as int, i as int), c),
            n <= i - lo,
        decreases hi - i,
    {
        assert(v@.subrange(lo as int, i + 1).drop_last() =~= v@.subrange(lo as int, i as int));
        if v[i] == c {
            n = n + 1;
        }
        i = i + 1;
    }
    n
}

fn find_in(v: &Vec<char>, lo: usize, hi: usize, c: char) -> (r: Option<usize>)
    requires
        lo <= hi <= v@.len(),
    ensures
        match r {
            Some(k) => lo <= k < hi && k - lo == find_char(v@.subrange(lo as int, hi as int), c),
            None => find_char(v@.subrange(lo as int, hi as int), c) == -1,
        },
{
    let mut i: usize = lo;
    while i < hi
        invariant
            lo <= i <= hi <= v@.len(),
            find_char(v@.subrange(lo as int, i as int), c) == -1,
        decreases hi - i,
    {
        assert(v@.subrange(lo as int, i + 1).drop_last() =~= v@.subrange(lo as int, i as int));
        if v[i] == c {
            proof {
                assert(v@.subrange(lo as int, hi as int).take(i - lo + 1) =~= v@.subrange(
                    lo as int,
                    i + 1,
                ));
                lemma_find_prefix(v@.subrange(lo as int, hi as int), c, i - lo);
            }
            return Some(i);
        }
        i = i + 1;
    }
    None
}

/// The first occurrence in a prefix is the first occurrence in the whole.
proof fn lemma_find_prefix(s: Seq<char>, c: char, k: int)
    requires
        0 <= k < s.len(),
        find_char(s.take(k + 1), c) == k,
    ensures
        find_char(s, c) == k,
    decreases s.len(),
{
    if s.len() > k + 1 {
        assert(s.drop_last().take(k + 1) =~= s.take(k + 1));
        lemma_find_prefix(s.drop_last(), c, k);
    } else {
        assert(s.take(k + 1) =~= s);
    }
}

fn parse_u32_in(v: &Vec<char>, lo: usize, hi: usize) -> (r: Option<u32>)
    requires
        lo <= hi <= v@.len(),
    ensures
        r == parse_u32_spec(v@.subrange(lo as int, hi as int)),
{
    let ghost s = v@.subrange(lo as int, hi as int);
    let mut start = lo;
    if lo < hi && v[lo] == '+' {
        start = lo + 1;
    }
    let ghost d = v@.subrange(start as int, hi as int);
    assert(unsigned_text(s) =~= d);
    if start == hi {
        assert(d.len() == 0);
        return None;
    }
    let mut val: u64 = 0;
    let mut over = false;
    let mut i: usize = start;
    while i < hi
        invariant
            lo <= start < hi <= v@.len(),
            d == v@.subrange(start as int, hi as int),
            unsigned_text(v@.subrange(lo as int, hi as int)) == d,
            start <= i <= hi,
            all_digits(v@.subrange(start as int, i as int)),
            over ==> digits_value(v@.subrange(start as int, i as int)) > u32::MAX,
            !over ==> val == digits_value(v@.subrange(start as int, i as int)),
            val <= u32::MAX,
        decreases hi - i,
    {
        let ch = v[i];
        let ghost p = v@.subrange(start as int, i + 1);
        assert(p.drop_last() =~= v@.subrange(start as int, i as int));
        if !('0' <= ch && ch <= '9') {
            assert(d[i - start] == ch);
            return None;
        }
        let dv = (ch as u32 - '0' as u32) as u64;
        if !over {
            let next = val * 10 + dv;
            if next > 4294967295 {
                over = true;
            } else {
                val = next;
            }
        }
        i = i + 1;
    }
    assert(v@.subrange(start as int, i as int) =~= d);
    if over {
        None
    } else {
        Some(val as u32)
    }
}

/// Splits `v[lo..hi]` at its first `c`, which must be there.
fn split_at_char(v: &Vec<char>, lo: usize, hi: usize, c: char) -> (r: usize)
    requires
        lo <= hi <= v@.len(),
        count_char(v@.subrange(lo as int, hi as int), c) > 0,
    ensures
        lo <= r < hi,
        v@.subrange(lo as int, r as int) == before(v@.subrange(lo as int, hi as int), c),
        v@.subrange(r + 1, hi as int) == after(v@.subrange(lo as int, hi as int), c),
        count_char(after(v@.subrange(lo as int, hi as int), c), c) + 1 == count_char(
            v@.subrange(lo as int, hi as int),
            c,
        ),
{
    let ghost s = v@.subrange(lo as int, hi as int);
    proof {
        lemma_count_find(s, c);
    }
    match find_in(v, lo, hi, c) {
        Some(k) => {
            assert(v@.subrange(lo as int, k as int) =~= before(s, c));
            assert(v@.subrange(k + 1, hi as int) =~= after(s, c));
            proof {
                lemma_count_split(s, c, k - lo);
            }
            k
        },
        None => {
            assert(false);
            lo
        },
    }
}

/// Reads an unsigned 32-bit decimal.
pub fn parse_u32_text(s: &str) -> (r: Option<u32>)
    ensures
        r == parse_u32_spec(s@),
{
    let v = chars_of(s);
    assert(v@.subrange(0, v@.len() as int) =~= s@);
    parse_u32_in(&v, 0, v.len())
}

impl TimeStamp {
    /// Reads the subtitle-file form `HH:MM:SS,mmm`.
    pub fn parse(s: &str) -> (r: Result<TimeStamp, String>)
        ensures
            r is Ok <==> parse_spec(s@) is Some,
            r matches Ok(t) ==> parse_spec(s@) == Some(t),
            r matches Ok(t) ==> well_formed(t),
    {
        let v = chars_of(s);
        let n = v.len();
        assert(v@.subrange(0, n as int) =~= s@);
        if count_in(&v, 0, n, ':') != 2 {
            return Err(String::from_str("Invalid timestamp format"));
        }
        let i = split_at_char(&v, 0, n, ':');
        let j = split_at_char(&v, i + 1, n, ':');
        if count_in(&v, j + 1, n, ',') != 1 {
            return Err(String::from_str("Invalid seconds format"));
        }
        let k = split_at_char(&v, j + 1, n, ',');
        let hours = match parse_u32_in(&v, 0, i) {
            Some(x) => x,
            None => return Err(String::from_str("Invalid hours")),
        };
        let minutes = match parse_u32_in(&v, i + 1, j) {
            Some(x) => x,
            None => return Err(String::from_str("Invalid minutes")),
        };
        let seconds = match parse_u32_in(&v, j + 1, k) {
            Some(x) => x,
            None => return Err(String::from_str("Invalid seconds")),
        };
        let milliseconds = match parse_u32_in(&v, k + 1, n) {
            Some(x) => x,
            None => return Err(String::from_str("Invalid milliseconds")),
        };
        if minutes >= 60 || seconds >= 60 || milliseconds >= 1000 {
            return Err(String::from_str("Timestamp field out of range"));
        }
        Ok(TimeStamp { hours, minutes, seconds, milliseconds })
    }
}

/// A text with an occurrence of `c` has a first one.
proof fn lemma_count_find(s: Seq<char>, c: char)
    requires
        count_char(s, c) > 0,
    ensures
        0 <= find_char(s, c) < s.len(),
        s[find_char(s, c)] == c,
    decreases s.len(),
{
    if count_char(s.drop_last(), c) > 0 {
        lemma_count_find(s.drop_last(), c);
    } else {
        lemma_count_zero(s.drop_last(), c);
    }
}

proof fn lemma_count_zero(s: Seq<char>, c: char)
    requires
        count_char(s, c) == 0,
    ensures
        find_char(s, c) == -1,
    decreases s.len(),
{
    if s.len() > 0 {
        lemma_count_zero(s.drop_last(), c);
    }
}

proof fn lemma_count_concat(a: Seq<char>, b: Seq<char>, c: char)
    ensures
        count_char(a + b, c) == count_char(a, c) + count_char(b, c),
    decreases b.len(),
{
    if b.len() == 0 {
        assert(a + b =~= a);
    } else {
        assert((a + b).drop_last() =~= a + b.drop_last());
        lemma_count_concat(a, b.drop_last(), c);
    }
}

/// Splitting at the first `c`: the part after it holds one `c` fewer.
proof fn lemma_count_split(s: Seq<char>, c: char, i: int)
    requires
        0 <= i < s.len(),
        find_char(s, c) == i,
    ensures
        count_char(s.skip(i + 1), c) + 1 == count_char(s, c),
{
    lemma_find_is_first(s, c);
    assert(s =~= s.take(i) + seq![s[i]] + s.skip(i + 1));
    lemma_count_concat(s.take(i) + seq![s[i]], s.skip(i + 1), c);
    lemma_count_concat(s.take(i), seq![s[i]], c);
    lemma_no_char_count(s.take(i), c);
    assert(seq![s[i]].drop_last() =~= Seq::<char>::empty());
    assert(count_char(Seq::<char>::empty(), c) == 0);
    assert(count_char(seq![s[i]], c) == 1);
}

proof fn lemma_find_is_first(s: Seq<char>, c: char)
    requires
        find_char(s, c) >= 0,
    ensures
        find_char(s, c) < s.len(),
        s[find_char(s, c)] == c,
        forall|j: int| 0 <= j < find_char(s, c) ==> s[j] != c,
    decreases s.len(),
{
    if find_char(s.drop_last(), c) >= 0 {
        lemma_find_is_first(s.drop_last(), c);
    } else {
        lemma_none_before(s.drop_last(), c);
    }
    assert forall|j: int| 0 <= j < find_char(s, c) implies s[j] != c by {
        assert(s.drop_last()[j] == s[j]);
    }
}

proof fn lemma_none_before(s: Seq<char>, c: char)
    requires
        find_char(s, c) == -1,
    ensures
        forall|j: int| 0 <= j < s.len() ==> s[j] != c,
    decreases s.len(),
{
    if s.len() > 0 {
        lemma_none_before(s.drop_last(), c);
        assert forall|j: int| 0 <= j < s.len() implies s[j] != c by {
            if j < s.len() - 1 {
                assert(s.drop_last()[j] == s[j]);
            }
        }
    }
}

proof fn lemma_no_char_count(s: Seq<char>, c: char)
    requires
        forall|j: int| 0 <= j < s.len() ==> s[j] != c,
    ensures
        count_char(s, c) == 0,
        find_char(s, c) == -1,
    decreases s.len(),
{
    if s.len() > 0 {
        lemma_no_char_count(s.drop_last(), c);
    }
}

proof fn lemma_digit_char(d: nat)
    requires
        d < 10,
    ensures
        is_digit(digit_char(d)),
        digit_value(digit_char(d)) == d,
{
}

proof fn lemma_decimal(n: nat)
    ensures
        decimal(n).len() > 0,
        all_digits(decimal(n)),
        digits_value(decimal(n)) == n,
    decreases n,
{
    lemma_digit_char(n % 10);
    if n < 10 {
        assert(decimal(n).drop_last() =~= Seq::<char>::empty());
        assert(digits_value(Seq::<char>::empty()) == 0);
    } else {
        lemma_decimal(n / 10);
        let d = decimal(n);
        assert(d.drop_last() =~= decimal(n / 10));
        assert forall|i: int| 0 <= i < d.len() implies is_digit(#[trigger] d[i]) by {
            if i < d.len() - 1 {
                assert(d[i] == decimal(n / 10)[i]);
            }
        }
    }
}

proof fn lemma_zeros_prefix(k: nat, d: Seq<char>)
    requires
        all_digits(d),
    ensures
        all_digits(zeros(k) + d),
        digits_value(zeros(k) + d) == digits_value(d),
    decreases d.len(),
{
    lemma_digit_char(0);
    if d.len() == 0 {
        assert(zeros(k) + d =~= zeros(k));
        lemma_zeros_value(k);
    } else {
        assert((zeros(k) + d).drop_last() =~= zeros(k) + d.drop_last());
        lemma_zeros_prefix(k, d.drop_last());
    }
}

proof fn lemma_zeros_value(k: nat)
    ensures
        all_digits(zeros(k)),
        digits_value(zeros(k)) == 0,
    decreases k,
{
    lemma_digit_char(0);
    if k > 0 {
        assert(zeros(k).drop_last() =~= zeros((k - 1) as nat));
        lemma_zeros_value((k - 1) as nat);
    }
}

proof fn lemma_padded(n: nat, w: nat)
    requires
        n <= u32::MAX,
    ensures
        padded(n, w).len() > 0,
        all_digits(padded(n, w)),
        parse_u32_spec(padded(n, w)) == Some(n as u32),
{
    lemma_decimal(n);
    let d = decimal(n);
    if d.len() < w {
        lemma_zeros_prefix((w - d.len()) as nat, d);
    }
    let p = padded(n, w);
    assert(is_digit(p[0]));
    assert(unsigned_text(p) == p);
}

proof fn lemma_first_occurrence(s: Seq<char>, c: char, k: int)
    requires
        0 <= k < s.len(),
        s[k] == c,
        forall|j: int| 0 <= j < k ==> s[j] != c,
    ensures
        find_char(s, c) == k,
    decreases s.len(),
{
    if s.len() == k + 1 {
        lemma_no_char_count(s.drop_last(), c);
    } else {
        lemma_first_occurrence(s.drop_last(), c, k);
    }
}

/// Splitting `a + [c] + b` at its first `c`, where `a` holds no `c`.
proof fn lemma_split_concat(a: Seq<char>, c: char, b: Seq<char>)
    requires
        forall|j: int| 0 <= j < a.len() ==> a[j] != c,
    ensures
        before(a + seq![c] + b, c) == a,
        after(a + seq![c] + b, c) == b,
        count_char(a + seq![c] + b, c) == count_char(b, c) + 1,
{
    let s = a + seq![c] + b;
    lemma_first_occurrence(s, c, a.len() as int);
    assert(s.take(a.len() as int) =~= a);
    assert(s.skip(a.len() as int + 1) =~= b);
    lemma_count_split(s, c, a.len() as int);
}

/// Reading back the subtitle-file form of any well-formed timestamp gives
/// that timestamp again.
pub proof fn lemma_srt_round_trip(t: TimeStamp)
    requires
        well_formed(t),
    ensures
        parse_spec(srt_text(t)) == Some(t),
{
    let a = padded(t.hours as nat, 2);
    let b = padded(t.minutes as nat, 2);
    let c = padded(t.seconds as nat, 2);
    let d = padded(t.milliseconds as nat, 3);
    lemma_padded(t.hours as nat, 2);
    lemma_padded(t.minutes as nat, 2);
    lemma_padded(t.seconds as nat, 2);
    lemma_padded(t.milliseconds as nat, 3);
    let tail = c + seq![','] + d;
    let rest = b + seq![':'] + tail;
    let text = srt_text(t);
    assert(text =~= a + seq![':'] + rest);
    assert forall|j: int| 0 <= j < a.len() implies a[j] != ':' by {
        assert(is_digit(a[j]));
    }
    assert forall|j: int| 0 <= j < b.len() implies b[j] != ':' by {
        assert(is_digit(b[j]));
    }
    assert forall|j: int| 0 <= j < c.len() implies c[j] != ',' by {
        assert(is_digit(c[j]));
    }
    assert forall|j: int| 0 <= j < d.len() implies d[j] != ',' by {
        assert(is_digit(d[j]));
    }
    assert forall|j: int| 0 <= j < tail.len() implies tail[j] != ':' by {
        if j < c.len() {
            assert(is_digit(c[j]));
        } else if j > c.len() {
            assert(is_digit(d[j - c.len() - 1]));
        }
    }
    lemma_split_concat(a, ':', rest);
    assert(rest =~= b + seq![':'] + tail);
    lemma_split_concat(b, ':', tail);
    lemma_split_concat(c, ',', d);
    lemma_no_char_count(tail, ':');
    lemma_no_char_count(d, ',');
}

/// A well-formed timestamp that fits in 32-bit milliseconds is recovered
/// from its millisecond count.
pub proof fn lemma_ms_round_trip(t: TimeStamp)
    requires
        well_formed(t),
        total_ms(t) <= u32::MAX,
    ensures
        from_ms_spec(total_ms(t)) == t,
{
    let ms = total_ms(t);
    let h = t.hours as int;
    let m = t.minutes as int;
    let s = t.seconds as int;
    let x = t.milliseconds as int;
    assert(ms == h * 3600000 + m * 60000 + s * 1000 + x) by (nonlinear_arith)
        requires
            ms == (h * 3600 + m * 60 + s) * 1000 + x,
    ;
    assert(ms / 3600000 == h && ms % 3600000 == m * 60000 + s * 1000 + x) by (nonlinear_arith)
        requires
            ms == h * 3600000 + m * 60000 + s * 1000 + x,
            0 <= m < 60,
            0 <= s < 60,
            0 <= x < 1000,
            h >= 0,
    ;
    assert((m * 60000 + s * 1000 + x) / 60000 == m) by (nonlinear_arith)
        requires
            0 <= m < 60,
            0 <= s < 60,
            0 <= x < 1000,
    ;
    assert(ms % 60000 == s * 1000 + x) by (nonlinear_arith)
        requires
            ms == h * 3600000 + m * 60000 + s * 1000 + x,
            0 <= m < 60,
            0 <= s < 60,
            0 <= x < 1000,
            h >= 0,
    ;
    assert((s * 1000 + x) / 1000 == s) by (nonlinear_arith)
        requires
            0 <= s < 60,
            0 <= x < 1000,
    ;
    assert(ms % 1000 == x) by (nonlinear_arith)
        requires
            ms == h * 3600000 + m * 60000 + s * 1000 + x,
            0 <= x < 1000,
            h >= 0,
            m >= 0,
            s >= 0,
    ;
}

proof fn lemma_digit_back(c: char)
    requires
        is_digit(c),
    ensures
        digit_value(c) < 10,
        digit_char(digit_value(c)) == c,
{
}

proof fn lemma_two_digits(a: Seq<char>)
    requires
        a.len() == 2,
        is_digit(a[0]),
        is_digit(a[1]),
    ensures
        all_digits(a),
        digits_value(a) == 10 * digit_value(a[0]) + digit_value(a[1]),
        parse_u32_spec(a) == Some(digits_value(a) as u32),
        padded(digits_value(a), 2) == a,
{
    lemma_digit_back(a[0]);
    lemma_digit_back(a[1]);
    let x = digit_value(a[0]);
    let y = digit_value(a[1]);
    assert(a.drop_last().drop_last() =~= Seq::<char>::empty());
    assert(digits_value(a.drop_last().drop_last()) == 0);
    assert(digits_value(a.drop_last()) == x);
    let v = 10 * x + y;
    assert(digits_value(a) == v);
    assert(unsigned_text(a) == a);
    if x == 0 {
        assert(decimal(v) =~= seq![a[1]]);
        assert(padded(v, 2) =~= a);
    } else {
        assert(v / 10 == x && v % 10 == y) by (nonlinear_arith)
            requires
                v == 10 * x + y,
                y < 10,
        ;
        assert(v >= 10);
        assert(decimal(v) == decimal(x).push(digit_char(y)));
        assert(decimal(x) == seq![digit_char(x)]);
        assert(decimal(v) =~= seq![a[0], a[1]]);
    }
}

proof fn lemma_three_digits(d: Seq<char>)
    requires
        d.len() == 3,
        is_digit(d[0]),
        is_digit(d[1]),
        is_digit(d[2]),
    ensures
        all_digits(d),
        digits_value(d) < 1000,
        parse_u32_spec(d) == Some(digits_value(d) as u32),
        padded(digits_value(d), 3) == d,
{
    lemma_digit_back(d[0]);
    lemma_digit_back(d[1]);
    lemma_digit_back(d[2]);
    let x = digit_value(d[0]);
    let y = digit_value(d[1]);
    let z = digit_value(d[2]);
    let p = d.drop_last();
    assert(p.drop_last().drop_last() =~= Seq::<char>::empty());
    assert(digits_value(p.drop_last().drop_last()) == 0);
    assert(digits_value(p.drop_last()) == x);
    assert(digits_value(p) == 10 * x + y);
    let v = 100 * x + 10 * y + z;
    assert(digits_value(d) == v);
    assert(unsigned_text(d) == d);
    assert(v / 10 == 10 * x + y && v % 10 == z) by (nonlinear_arith)
        requires
            v == 100 * x + 10 * y + z,
            z < 10,
    ;
    assert((10 * x + y) / 10 == x && (10 * x + y) % 10 == y) by (nonlinear_arith)
        requires
            y < 10,
    ;
    if x == 0 && y == 0 {
        assert(decimal(v) =~= seq![d[2]]);
        assert(padded(v, 3) =~= d);
    } else if x == 0 {
        assert(v >= 10 && v / 10 == y);
        assert(decimal(v) == decimal(y).push(digit_char(z)));
        assert(decimal(y) == seq![digit_char(y)]);
        assert(decimal(v) =~= seq![d[1], d[2]]);
        assert(padded(v, 3) =~= d);
    } else {
        assert(v >= 10 && 10 * x + y >= 10);
        assert(decimal(v) == decimal(10 * x + y).push(digit_char(z)));
        assert(decimal((10 * x + y) as nat) == decimal(x).push(digit_char(y)));
        assert(decimal(x) == seq![digit_char(x)]);
        assert(decimal(v) =~= seq![d[0], d[1], d[2]]);
    }
}

/// Text of the two-digit form `HH:MM:SS,mmm` with minutes and seconds
/// below 60.
pub open spec fn srt_shaped(s: Seq<char>) -> bool {
    &&& s.len() == 12
    &&& s[2] == ':' && s[5] == ':' && s[8] == ','
    &&& forall|i: int| 0 <= i < 12 && i != 2 && i != 5 && i != 8 ==> is_digit(#[trigger] s[i])
    &&& s[3] <= '5' && s[6] <= '5'
}

/// Such a text is read as a timestamp whose subtitle-file form is that
/// text again.
pub proof fn lemma_text_round_trip(s: Seq<char>)
    requires
        srt_shaped(s),
    ensures
        parse_spec(s) is Some,
        srt_text(parse_spec(s)->Some_0) == s,
{
    let a = s.subrange(0, 2);
    let b = s.subrange(3, 5);
    let c = s.subrange(6, 8);
    let d = s.subrange(9, 12);
    assert(is_digit(s[0]) && is_digit(s[1]) && is_digit(s[3]) && is_digit(s[4]));
    assert(is_digit(s[6]) && is_digit(s[7]) && is_digit(s[9]) && is_digit(s[10]) && is_digit(
        s[11],
    ));
    lemma_two_digits(a);
    lemma_two_digits(b);
    lemma_two_digits(c);
    lemma_three_digits(d);
    lemma_digit_back(s[3]);
    lemma_digit_back(s[6]);
    let tail = c + seq![','] + d;
    let rest = b + seq![':'] + tail;
    assert(s =~= a + seq![':'] + rest);
    assert forall|j: int| 0 <= j < a.len() implies a[j] != ':' by {
        assert(is_digit(a[j]));
    }
    assert forall|j: int| 0 <= j < b.len() implies b[j] != ':' by {
        assert(is_digit(b[j]));
    }
    assert forall|j: int| 0 <= j < c.len() implies c[j] != ',' by {
        assert(is_digit(c[j]));
    }
    assert forall|j: int| 0 <= j < d.len() implies d[j] != ',' by {
        assert(is_digit(d[j]));
    }
    assert forall|j: int| 0 <= j < tail.len() implies tail[j] != ':' by {
        if j < c.len() {
            assert(is_digit(c[j]));
        } else if j > c.len() {
            assert(is_digit(d[j - c.len() - 1]));
        }
    }
    lemma_split_concat(a, ':', rest);
    assert(rest =~= b + seq![':'] + tail);
    lemma_split_concat(b, ':', tail);
    lemma_split_concat(c, ',', d);
    lemma_no_char_count(tail, ':');
    lemma_no_char_count(d, ',');
    let t = parse_spec(s)->Some_0;
    assert(srt_text(t) =~= s);
}

} // verus!
