//! Character-level text handling: whitespace trimming, ASCII case folding,
//! splitting on a separator, CSV fields, and decimal numbers.
use vstd::prelude::*;

verus! {

// ----- characters -----

/// `c` is a Unicode `White_Space` character, the set that `char::is_whitespace`
/// and `str::trim` use.
pub open spec fn is_space(c: char) -> bool {
    let n = c as u32;
    ||| 9 <= n <= 13
    ||| n == 32
    ||| n == 0x85
    ||| n == 0xA0
    ||| n == 0x1680
    ||| 0x2000 <= n <= 0x200A
    ||| n == 0x2028
    ||| n == 0x2029
    ||| n == 0x202F
    ||| n == 0x205F
    ||| n == 0x3000
}

pub fn char_is_space(c: char) -> (b: bool)
    ensures
        b == is_space(c),
{
    let n = c as u32;
    (9 <= n && n <= 13) || n == 32 || n == 0x85 || n == 0xA0 || n == 0x1680 || (0x2000 <= n
        && n <= 0x200A) || n == 0x2028 || n == 0x2029 || n == 0x202F || n == 0x205F || n == 0x3000
}

/// The code point of `c` with ASCII upper case mapped to lower case.
pub open spec fn fold_ascii(c: char) -> u32 {
    let n = c as u32;
    if 65 <= n <= 90 {
        (n + 32) as u32
    } else {
        n
    }
}

pub open spec fn fold_ascii_seq(s: Seq<char>) -> Seq<u32> {
    s.map_values(|c: char| fold_ascii(c))
}

/// `a` and `b` are equal up to ASCII case, as `str::eq_ignore_ascii_case` decides.
pub open spec fn eq_ignore_ascii_case(a: Seq<char>, b: Seq<char>) -> bool {
    fold_ascii_seq(a) == fold_ascii_seq(b)
}

fn fold_char(c: char) -> (n: u32)
    ensures
        n == fold_ascii(c),
{
    let n = c as u32;
    if 65 <= n && n <= 90 {
        n + 32
    } else {
        n
    }
}

pub fn chars_eq_ignore_ascii_case(a: &Vec<char>, b: &Vec<char>) -> (r: bool)
    ensures
        r == eq_ignore_ascii_case(a@, b@),
{
    if a.len() != b.len() {
        proof {
            assert(fold_ascii_seq(a@).len() != fold_ascii_seq(b@).len());
        }
        return false;
    }
    let mut i: usize = 0;
    while i < a.len()
        invariant
            a.len() == b.len(),
            0 <= i <= a.len(),
            forall|k: int| 0 <= k < i ==> fold_ascii(a@[k]) == fold_ascii(b@[k]),
        decreases a.len() - i,
    {
        if fold_char(a[i]) != fold_char(b[i]) {
            proof {
                assert(fold_ascii_seq(a@)[i as int] != fold_ascii_seq(b@)[i as int]);
            }
            return false;
        }
        i += 1;
    }
    proof {
        assert(fold_ascii_seq(a@) =~= fold_ascii_seq(b@));
    }
    true
}

// ----- conversions between text and characters -----

pub fn chars_of(s: &str) -> (v: Vec<char>)
    ensures
        v@ == s@,
{
    let mut v: Vec<char> = Vec::new();
    for c in it: s.chars()
        invariant
            v@ == it.seq().take(it.index() as int),
            it.seq() == s@,
    {
        v.push(c);
    }
    v
}

/// Collects characters into a `String` through `String`'s `FromIterator<&char>`
/// impl, which std documents as appending each character in turn, so the text
/// of the result is `cs` itself.
#[verifier::external_body]
pub(crate) fn string_of(cs: &Vec<char>) -> (s: String)
    ensures
        s@ == cs@,
{
    cs.iter().collect()
}

pub fn copy_range(s: &Vec<char>, from: usize, to: usize) -> (v: Vec<char>)
    requires
        from <= to <= s.len(),
    ensures
        v@ == s@.subrange(from as int, to as int),
{
    let mut v: Vec<char> = Vec::new();
    let mut i = from;
    while i < to
        invariant
            from <= i <= to <= s.len(),
            v@ == s@.subrange(from as int, i as int),
        decreases to - i,
    {
        v.push(s[i]);
        i += 1;
        proof {
            assert(v@ =~= s@.subrange(from as int, i as int));
        }
    }
    v
}

pub fn append_chars(v: &mut Vec<char>, w: &Vec<char>)
    ensures
        final(v)@ == old(v)@ + w@,
{
    let ghost start = v@;
    let mut i: usize = 0;
    while i < w.len()
        invariant
            0 <= i <= w.len(),
            v@ == start + w@.take(i as int),
        decreases w.len() - i,
    {
        v.push(w[i]);
        i += 1;
        proof {
            assert(v@ =~= start + w@.take(i as int));
        }
    }
    proof {
        assert(w@.take(w@.len() as int) =~= w@);
    }
}

// ----- trimming -----

/// `s` without its leading white space.
pub open spec fn trim_start(s: Seq<char>) -> Seq<char>
    decreases s.len(),
{
    if s.len() > 0 && is_space(s[0]) {
        trim_start(s.drop_first())
    } else {
        s
    }
}

/// `s` without its trailing white space.
pub open spec fn trim_end(s: Seq<char>) -> Seq<char>
    decreases s.len(),
{
    if s.len() > 0 && is_space(s.last()) {
        trim_end(s.drop_last())
    } else {
        s
    }
}

/// `s` without leading and trailing white space, as `str::trim` gives it.
pub open spec fn trim(s: Seq<char>) -> Seq<char> {
    trim_end(trim_start(s))
}

pub fn trim_chars(s: &Vec<char>) -> (t: Vec<char>)
    ensures
        t@ == trim(s@),
{
    let n = s.len();
    let mut i: usize = 0;
    proof {
        assert(s@.subrange(0, n as int) =~= s@);
    }
    while i < n && char_is_space(s[i])
        invariant
            n == s.len(),
            0 <= i <= n,
            trim_start(s@) == trim_start(s@.subrange(i as int, n as int)),
        decreases n - i,
    {
        proof {
            assert(s@.subrange(i as int, n as int).drop_first() =~= s@.subrange(
                i + 1,
                n as int,
            ));
        }
        i += 1;
    }
    assert(trim_start(s@) == s@.subrange(i as int, n as int));
    let mut j: usize = n;
    while j > i && char_is_space(s[j - 1])
        invariant
            n == s.len(),
            0 <= i <= j <= n,
            trim_end(s@.subrange(i as int, n as int)) == trim_end(s@.subrange(i as int, j as int)),
        decreases j,
    {
        proof {
            assert(s@.subrange(i as int, j as int).drop_last() =~= s@.subrange(
                i as int,
                j - 1,
            ));
        }
        j -= 1;
    }
    copy_range(s, i, j)
}

// ----- splitting -----

/// The texts held by a sequence of character vectors.
pub open spec fn views_of(v: Seq<Vec<char>>) -> Seq<Seq<char>> {
    v.map_values(|x: Vec<char>| x@)
}

/// The pieces of `s` between occurrences of `sep`, as `str::split` yields them.
pub open spec fn split_on(s: Seq<char>, sep: char) -> Seq<Seq<char>>
    decreases s.len(),
{
    if s.len() == 0 {
        seq![Seq::empty()]
    } else {
        let pieces = split_on(s.drop_last(), sep);
        if s.last() == sep {
            pieces.push(Seq::empty())
        } else {
            pieces.update(pieces.len() - 1, pieces.last().push(s.last()))
        }
    }
}

pub proof fn lemma_split_on_len(s: Seq<char>, sep: char)
    ensures
        split_on(s, sep).len() >= 1,
    decreases s.len(),
{
    if s.len() > 0 {
        lemma_split_on_len(s.drop_last(), sep);
    }
}

pub fn split_chars(s: &Vec<char>, sep: char) -> (pieces: Vec<Vec<char>>)
    ensures
        views_of(pieces@) == split_on(s@, sep),
{
    let mut done: Vec<Vec<char>> = Vec::new();
    let mut cur: Vec<char> = Vec::new();
    let n = s.len();
    let mut i: usize = 0;
    proof {
        assert(s@.take(0) =~= Seq::<char>::empty());
        assert(views_of(done@).push(cur@) =~= split_on(s@.take(0), sep));
    }
    while i < n
        invariant
            n == s.len(),
            0 <= i <= n,
            views_of(done@).push(cur@) == split_on(s@.take(i as int), sep),
        decreases n - i,
    {
        let ghost before = views_of(done@);
        let ghost cur_before = cur@;
        proof {
            assert(s@.take(i + 1).drop_last() =~= s@.take(i as int));
            lemma_split_on_len(s@.take(i as int), sep);
        }
        let c = s[i];
        if c == sep {
            done.push(cur);
            cur = Vec::new();
            proof {
                assert(views_of(done@) =~= before.push(cur_before));
                assert(views_of(done@).push(cur@) =~= split_on(s@.take(i + 1), sep));
            }
        } else {
            cur.push(c);
            proof {
                assert(views_of(done@).push(cur@) =~= split_on(s@.take(i + 1), sep));
            }
        }
        i += 1;
    }
    let ghost before = views_of(done@);
    let ghost last = cur@;
    done.push(cur);
    proof {
        assert(s@.take(n as int) =~= s@);
        assert(views_of(done@) =~= before.push(last));
    }
    done
}

// ----- CSV -----

/// Reading `s` as one CSV line: the finished fields, the field being read,
/// and whether a quoted section is open. Every double quote opens or closes a
/// quoted section and is dropped, so a doubled `""` inside a quoted field
/// closes and reopens the section and leaves no quote behind (it is not read
/// as one literal quote); a comma outside quotes ends a field; every other
/// character is kept.
pub open spec fn csv_scan(s: Seq<char>) -> (Seq<Seq<char>>, Seq<char>, bool)
    decreases s.len(),
{
    if s.len() == 0 {
        (Seq::empty(), Seq::empty(), false)
    } else {
        let (done, cur, quoted) = csv_scan(s.drop_last());
        let c = s.last();
        if c == '"' {
            (done, cur, !quoted)
        } else if c == ',' && !quoted {
            (done.push(cur), Seq::empty(), quoted)
        } else {
            (done, cur.push(c), quoted)
        }
    }
}

/// The fields of a CSV line, untrimmed; `None` when a quoted section is left
/// open at the end of the line, which a fixture list reports as an error.
pub open spec fn csv_fields(s: Seq<char>) -> Option<Seq<Seq<char>>> {
    let (done, cur, quoted) = csv_scan(s);
    if quoted {
        None
    } else {
        Some(done.push(cur))
    }
}

pub fn csv_split(s: &Vec<char>) -> (fields: Option<Vec<Vec<char>>>)
    ensures
        match fields {
            Some(f) => csv_fields(s@) == Some(views_of(f@)),
            None => csv_fields(s@) is None,
        },
{
    let mut done: Vec<Vec<char>> = Vec::new();
    let mut cur: Vec<char> = Vec::new();
    let mut quoted = false;
    let n = s.len();
    let mut i: usize = 0;
    proof {
        assert(s@.take(0) =~= Seq::<char>::empty());
        assert(views_of(done@) =~= Seq::<Seq<char>>::empty());
        assert(cur@ =~= Seq::<char>::empty());
    }
    while i < n
        invariant
            n == s.len(),
            0 <= i <= n,
            csv_scan(s@.take(i as int)) == (views_of(done@), cur@, quoted),
        decreases n - i,
    {
        let ghost before = views_of(done@);
        let ghost cur_before = cur@;
        proof {
            assert(s@.take(i + 1).drop_last() =~= s@.take(i as int));
        }
        let c = s[i];
        if c == '"' {
            quoted = !quoted;
        } else if c == ',' && !quoted {
            done.push(cur);
            cur = Vec::new();
            proof {
                assert(views_of(done@) =~= before.push(cur_before));
                assert(cur@ =~= Seq::<char>::empty());
            }
        } else {
            cur.push(c);
        }
        i += 1;
    }
    proof {
        assert(s@.take(n as int) =~= s@);
    }
    if quoted {
        None
    } else {
        let ghost before = views_of(done@);
        let ghost last = cur@;
        done.push(cur);
        proof {
            assert(views_of(done@) =~= before.push(last));
        }
        Some(done)
    }
}

// ----- decimal numbers -----

/// The character of decimal digit `d`.
pub open spec fn digit_char(d: int) -> char {
    (48 + d) as char
}

/// Decimal notation of `n`, without sign or leading zeros.
pub open spec fn decimal(n: nat) -> Seq<char>
    decreases n,
{
    if n < 10 {
        seq![digit_char(n as int)]
    } else {
        decimal(n / 10).push(digit_char((n % 10) as int))
    }
}

/// `s` led by zeros up to length `width`.
pub open spec fn pad_zeros(s: Seq<char>, width: nat) -> Seq<char> {
    if s.len() < width {
        Seq::new((width - s.len()) as nat, |i: int| '0') + s
    } else {
        s
    }
}

/// `v` as `format!("{:0w$}", v)` writes it for width `w` at least 1: the sign,
/// then the digits led by zeros so that sign and digits fill `w` characters.
pub open spec fn padded_int(v: int, width: nat) -> Seq<char>
    recommends
        width >= 1,
{
    if v < 0 {
        seq!['-'] + pad_zeros(decimal((-v) as nat), (width - 1) as nat)
    } else {
        pad_zeros(decimal(v as nat), width)
    }
}

fn digit_char_of(d: u64) -> (c: char)
    requires
        d < 10,
    ensures
        c == digit_char(d as int),
{
    if d == 0 {
        '0'
    } else if d == 1 {
        '1'
    } else if d == 2 {
        '2'
    } else if d == 3 {
        '3'
    } else if d == 4 {
        '4'
    } else if d == 5 {
        '5'
    } else if d == 6 {
        '6'
    } else if d == 7 {
        '7'
    } else if d == 8 {
        '8'
    } else {
        '9'
    }
}

pub fn decimal_chars(n: u64) -> (v: Vec<char>)
    ensures
        v@ == decimal(n as nat),
    decreases n,
{
    if n < 10 {
        let mut v: Vec<char> = Vec::new();
        v.push(digit_char_of(n));
        proof {
            assert(v@ =~= decimal(n as nat));
        }
        v
    } else {
        let mut v = decimal_chars(n / 10);
        v.push(digit_char_of(n % 10));
        v
    }
}

pub fn pad_zeros_chars(s: Vec<char>, width: usize) -> (v: Vec<char>)
    ensures
        v@ == pad_zeros(s@, width as nat),
{
    if s.len() < width {
        let mut v: Vec<char> = Vec::new();
        let k = width - s.len();
        let mut i: usize = 0;
        while i < k
            invariant
                0 <= i <= k,
                v@ == Seq::new(i as nat, |j: int| '0'),
            decreases k - i,
        {
            v.push('0');
            i += 1;
            proof {
                assert(v@ =~= Seq::new(i as nat, |j: int| '0'));
            }
        }
        append_chars(&mut v, &s);
        v
    } else {
        s
    }
}

pub fn padded_int_chars(v: i64, width: usize) -> (r: Vec<char>)
    requires
        v > i64::MIN,
        width >= 1,
    ensures
        r@ == padded_int(v as int, width as nat),
{
    if v < 0 {
        let digits = decimal_chars((-v) as u64);
        let padded = pad_zeros_chars(digits, width - 1);
        let mut r: Vec<char> = Vec::new();
        r.push('-');
        append_chars(&mut r, &padded);
        proof {
            assert(r@ =~= seq!['-'] + padded@);
        }
        r
    } else {
        pad_zeros_chars(decimal_chars(v as u64), width)
    }
}

// ----- reading decimal numbers -----

pub open spec fn is_digit(c: char) -> bool {
    '0' <= c <= '9'
}

pub open spec fn all_digits(s: Seq<char>) -> bool {
    forall|i: int| 0 <= i < s.len() ==> is_digit(#[trigger] s[i])
}

/// The number that the decimal digits `s` spell.
pub open spec fn digits_value(s: Seq<char>) -> nat
    decreases s.len(),
{
    if s.len() == 0 {
        0
    } else {
        (digits_value(s.drop_last()) * 10 + (s.last() as int - 48)) as nat
    }
}

/// What an unsigned integer type's `from_str` accepts: an optional `+`, then
/// one or more decimal digits, with a value of at most `max`.
pub open spec fn parse_unsigned(s: Seq<char>, max: int) -> Option<int> {
    let body = if s.len() > 0 && s[0] == '+' {
        s.drop_first()
    } else {
        s
    };
    if body.len() > 0 && all_digits(body) && digits_value(body) <= max {
        Some(digits_value(body) as int)
    } else {
        None
    }
}

/// What a signed integer type's `from_str` accepts: an optional `+` or `-`,
/// then one or more decimal digits, with a value from `min` to `max`.
pub open spec fn parse_signed(s: Seq<char>, min: int, max: int) -> Option<int> {
    if s.len() > 0 && s[0] == '-' {
        let body = s.drop_first();
        if body.len() > 0 && all_digits(body) && -digits_value(body) >= min {
            Some(-digits_value(body))
        } else {
            None
        }
    } else {
        parse_unsigned(s, max)
    }
}

proof fn lemma_digits_value_prefix(s: Seq<char>, k: int)
    requires
        0 <= k <= s.len(),
        all_digits(s),
    ensures
        digits_value(s.take(k)) <= digits_value(s),
    decreases s.len(),
{
    if k < s.len() {
        assert(s.drop_last().take(k) =~= s.take(k));
        assert(all_digits(s.drop_last()));
        lemma_digits_value_prefix(s.drop_last(), k);
    } else {
        assert(s.take(k) =~= s);
    }
}

/// Reads the digits of `s` from index `from` on: their value when there is at
/// least one, all are digits and the value is at most `max`.
fn read_digits(s: &Vec<char>, from: usize, max: u64) -> (r: Option<u64>)
    requires
        from <= s.len(),
        max <= u32::MAX,
    ensures
        ({
            let body = s@.subrange(from as int, s@.len() as int);
            match r {
                Some(v) => body.len() > 0 && all_digits(body) && digits_value(body) <= max
                    && v == digits_value(body),
                None => !(body.len() > 0 && all_digits(body) && digits_value(body) <= max),
            }
        }),
{
    let ghost body = s@.subrange(from as int, s@.len() as int);
    let n = s.len();
    if from == n {
        return None;
    }
    let mut acc: u64 = 0;
    let mut i = from;
    proof {
        assert(body.take(0) =~= Seq::<char>::empty());
    }
    while i < n
        invariant
            n == s.len(),
            from <= i <= n,
            body == s@.subrange(from as int, n as int),
            max <= u32::MAX,
            acc <= max,
            all_digits(body.take(i - from)),
            acc == digits_value(body.take(i - from)),
        decreases n - i,
    {
        let c = s[i];
        proof {
            assert(body[i - from] == c);
        }
        if !('0' <= c && c <= '9') {
            return None;
        }
        let d = (c as u32 - 48) as u64;
        proof {
            assert(body.take(i - from + 1).drop_last() =~= body.take(i - from));
            assert(all_digits(body.take(i - from + 1)));
        }
        acc = acc * 10 + d;
        i += 1;
        if acc > max {
            proof {
                if all_digits(body) {
                    lemma_digits_value_prefix(body, i - from);
                }
            }
            return None;
        }
    }
    proof {
        assert(body.take(n - from) =~= body);
    }
    Some(acc)
}

/// Reads `s` as `from_str` reads an unsigned integer no larger than `max`.
pub fn parse_unsigned_chars(s: &Vec<char>, max: u64) -> (r: Option<u64>)
    requires
        max <= u32::MAX,
    ensures
        match r {
            Some(v) => parse_unsigned(s@, max as int) == Some(v as int),
            None => parse_unsigned(s@, max as int) is None,
        },
{
    if s.len() > 0 && s[0] == '+' {
        proof {
            assert(s@.drop_first() =~= s@.subrange(1, s@.len() as int));
        }
        read_digits(s, 1, max)
    } else {
        proof {
            assert(s@ =~= s@.subrange(0, s@.len() as int));
        }
        read_digits(s, 0, max)
    }
}

/// Reads `s` as `i32::from_str` does.
pub fn parse_i32_chars(s: &Vec<char>) -> (r: Option<i32>)
    ensures
        match r {
            Some(v) => parse_signed(s@, i32::MIN as int, i32::MAX as int) == Some(v as int),
            None => parse_signed(s@, i32::MIN as int, i32::MAX as int) is None,
        },
{
    if s.len() > 0 && s[0] == '-' {
        proof {
            assert(s@.drop_first() =~= s@.subrange(1, s@.len() as int));
        }
        match read_digits(s, 1, 2147483648) {
            Some(v) => Some((-(v as i64)) as i32),
            None => None,
        }
    } else {
        match parse_unsigned_chars(s, 2147483647) {
            Some(v) => Some(v as i32),
            None => None,
        }
    }
}

// ----- facts about writing and reading numbers -----

/// Decimal notation is a non-empty run of digits that spells its number back.
pub proof fn lemma_decimal_digits(n: nat)
    ensures
        decimal(n).len() >= 1,
        all_digits(decimal(n)),
        digits_value(decimal(n)) == n,
    decreases n,
{
    let d = (n % 10) as int;
    assert(digit_char(d) as int == 48 + d);
    if n >= 10 {
        lemma_decimal_digits(n / 10);
        assert(decimal(n).drop_last() =~= decimal(n / 10));
        assert(decimal(n).last() == digit_char(d));
        assert(digits_value(decimal(n)) == digits_value(decimal(n / 10)) * 10 + d);
        assert(n == (n / 10) * 10 + d);
    } else {
        assert(decimal(n).drop_last() =~= Seq::<char>::empty());
        assert(digits_value(decimal(n)) == digits_value(Seq::<char>::empty()) * 10 + d);
    }
}

proof fn lemma_zeros_value(k: nat)
    ensures
        all_digits(Seq::new(k, |i: int| '0')),
        digits_value(Seq::new(k, |i: int| '0')) == 0,
    decreases k,
{
    if k > 0 {
        lemma_zeros_value((k - 1) as nat);
        assert(Seq::new(k, |i: int| '0').drop_last() =~= Seq::new((k - 1) as nat, |i: int| '0'));
    }
}

proof fn lemma_leading_zeros_value(k: nat, s: Seq<char>)
    requires
        all_digits(s),
    ensures
        all_digits(Seq::new(k, |i: int| '0') + s),
        digits_value(Seq::new(k, |i: int| '0') + s) == digits_value(s),
    decreases s.len(),
{
    let z = Seq::new(k, |i: int| '0');
    if s.len() == 0 {
        lemma_zeros_value(k);
        assert(z + s =~= z);
    } else {
        lemma_leading_zeros_value(k, s.drop_last());
        assert((z + s).drop_last() =~= z + s.drop_last());
    }
    assert forall|i: int| 0 <= i < (z + s).len() implies is_digit(#[trigger] (z + s)[i]) by {
        if i >= z.len() {
            assert((z + s)[i] == s[i - z.len()]);
        }
    }
}

/// Zero padding keeps a run of digits a run of digits of the same value.
pub proof fn lemma_pad_zeros_digits(s: Seq<char>, width: nat)
    requires
        all_digits(s),
        s.len() >= 1,
    ensures
        all_digits(pad_zeros(s, width)),
        digits_value(pad_zeros(s, width)) == digits_value(s),
        pad_zeros(s, width).len() >= 1,
{
    if s.len() < width {
        lemma_leading_zeros_value((width - s.len()) as nat, s);
    }
}

/// Text with no separator in it extends the last piece.
pub proof fn lemma_split_on_append(x: Seq<char>, t: Seq<char>, sep: char)
    requires
        !t.contains(sep),
    ensures
        split_on(x + t, sep) == split_on(x, sep).update(
            split_on(x, sep).len() - 1,
            split_on(x, sep).last() + t,
        ),
    decreases t.len(),
{
    lemma_split_on_len(x, sep);
    if t.len() == 0 {
        assert(x + t =~= x);
        assert(split_on(x, sep).last() + t =~= split_on(x, sep).last());
        assert(split_on(x, sep).update(split_on(x, sep).len() - 1, split_on(x, sep).last())
            =~= split_on(x, sep));
    } else {
        let t0 = t.drop_last();
        assert(!t0.contains(sep)) by {
            if t0.contains(sep) {
                let k = choose|k: int| 0 <= k < t0.len() && t0[k] == sep;
                assert(t[k] == sep);
            }
        }
        lemma_split_on_append(x, t0, sep);
        assert((x + t).drop_last() =~= x + t0);
        assert(t.last() != sep) by {
            assert(t[t.len() - 1] == t.last());
        }
        let p = split_on(x, sep);
        assert(split_on(x + t, sep) =~= p.update(p.len() - 1, p.last() + t)) by {
            assert(p.last() + t0 + seq![t.last()] =~= p.last() + t);
            assert((p.last() + t0).push(t.last()) =~= p.last() + t);
        }
    }
}

/// Three separator-free texts joined by the separator split back into the three.
pub proof fn lemma_split_on_three(a: Seq<char>, b: Seq<char>, c: Seq<char>, sep: char)
    requires
        !a.contains(sep),
        !b.contains(sep),
        !c.contains(sep),
    ensures
        split_on(a + seq![sep] + b + seq![sep] + c, sep) == seq![a, b, c],
{
    let e = Seq::<char>::empty();
    lemma_split_on_append(e, a, sep);
    assert(e + a =~= a);
    assert(split_on(e, sep) =~= seq![e]);
    assert(split_on(a, sep) =~= seq![a]);
    assert((a + seq![sep]).drop_last() =~= a);
    assert(split_on(a + seq![sep], sep) =~= seq![a, e]);
    lemma_split_on_append(a + seq![sep], b, sep);
    assert(split_on(a + seq![sep] + b, sep) =~= seq![a, b]);
    assert((a + seq![sep] + b + seq![sep]).drop_last() =~= a + seq![sep] + b);
    assert(split_on(a + seq![sep] + b + seq![sep], sep) =~= seq![a, b, e]);
    lemma_split_on_append(a + seq![sep] + b + seq![sep], c, sep);
    assert(split_on(a + seq![sep] + b + seq![sep] + c, sep) =~= seq![a, b, c]);
}

/// Digits hold no separator such as `-`.
pub proof fn lemma_digits_free_of(s: Seq<char>, c: char)
    requires
        all_digits(s),
        !is_digit(c),
    ensures
        !s.contains(c),
{
    if s.contains(c) {
        let k = choose|k: int| 0 <= k < s.len() && s[k] == c;
        assert(is_digit(s[k]));
    }
}

// ----- laws of case folding -----

/// `c` and `d` are the same character, or the upper (`'A'`..=`'Z'`) and
/// lower case of one ASCII letter, which lie 32 code points apart.
pub open spec fn same_letter_ignoring_case(c: char, d: char) -> bool {
    ||| c == d
    ||| 'A' <= c <= 'Z' && d as u32 == c as u32 + 32
    ||| 'A' <= d <= 'Z' && c as u32 == d as u32 + 32
}

/// Two characters fold to the same code point exactly when they are equal or
/// are the upper and lower case of one ASCII letter (`'A'`..=`'Z'` and the
/// letter 32 code points above it).
pub proof fn lemma_fold_ascii_same(c: char, d: char)
    ensures
        fold_ascii(c) == fold_ascii(d) <==> same_letter_ignoring_case(c, d),
{
}

/// Texts are equal up to ASCII case exactly when they have the same length
/// and, position by position, the characters are equal or are the two cases
/// of one ASCII letter.
pub proof fn lemma_eq_ignore_ascii_case_chars(s: Seq<char>, t: Seq<char>)
    ensures
        eq_ignore_ascii_case(s, t) <==> (s.len() == t.len() && forall|i: int|
            0 <= i < s.len() ==> same_letter_ignoring_case(#[trigger] s[i], t[i])),
{
    if eq_ignore_ascii_case(s, t) {
        assert(fold_ascii_seq(s).len() == fold_ascii_seq(t).len());
        assert forall|i: int| 0 <= i < s.len() implies same_letter_ignoring_case(
            #[trigger] s[i],
            t[i],
        ) by {
            assert(fold_ascii_seq(s)[i] == fold_ascii_seq(t)[i]);
            lemma_fold_ascii_same(s[i], t[i]);
        }
    }
    if s.len() == t.len() && forall|i: int|
        0 <= i < s.len() ==> same_letter_ignoring_case(#[trigger] s[i], t[i]) {
        assert forall|i: int| 0 <= i < s.len() implies fold_ascii_seq(s)[i] == fold_ascii_seq(
            t,
        )[i] by {
            assert(same_letter_ignoring_case(s[i], t[i]));
            lemma_fold_ascii_same(s[i], t[i]);
        }
        assert(fold_ascii_seq(s) =~= fold_ascii_seq(t));
    }
}

// ----- lengths of decimal notation -----

/// Decimal notation has one digit below 10, at most two below 100, three
/// below 1000, four below 10000.
pub proof fn lemma_decimal_len(n: nat)
    ensures
        n < 10 ==> decimal(n).len() == 1,
        n < 100 ==> decimal(n).len() <= 2,
        n < 1000 ==> decimal(n).len() <= 3,
        n < 10000 ==> decimal(n).len() <= 4,
    decreases n,
{
    if n >= 10 {
        lemma_decimal_len(n / 10);
    }
}

/// Padding a shorter text with zeros to `width` gives exactly `width` characters.
pub proof fn lemma_pad_zeros_len(s: Seq<char>, width: nat)
    requires
        s.len() <= width,
    ensures
        pad_zeros(s, width).len() == width,
{
}

// ----- laws of trimming -----

proof fn lemma_trim_start_cut(s: Seq<char>) -> (i: int)
    ensures
        0 <= i <= s.len(),
        trim_start(s) == s.subrange(i, s.len() as int),
        forall|k: int| 0 <= k < i ==> is_space(#[trigger] s[k]),
        i < s.len() ==> !is_space(s[i]),
    decreases s.len(),
{
    if s.len() > 0 && is_space(s[0]) {
        let i0 = lemma_trim_start_cut(s.drop_first());
        assert(s.drop_first().subrange(i0, s.drop_first().len() as int) =~= s.subrange(
            i0 + 1,
            s.len() as int,
        ));
        assert forall|k: int| 0 <= k < i0 + 1 implies is_space(#[trigger] s[k]) by {
            if k > 0 {
                assert(s[k] == s.drop_first()[k - 1]);
            }
        }
        i0 + 1
    } else {
        assert(s.subrange(0, s.len() as int) =~= s);
        0
    }
}

proof fn lemma_trim_end_cut(s: Seq<char>) -> (j: int)
    ensures
        0 <= j <= s.len(),
        trim_end(s) == s.subrange(0, j),
        forall|k: int| j <= k < s.len() ==> is_space(#[trigger] s[k]),
        j > 0 ==> !is_space(s[j - 1]),
    decreases s.len(),
{
    if s.len() > 0 && is_space(s.last()) {
        let j0 = lemma_trim_end_cut(s.drop_last());
        assert(s.drop_last().subrange(0, j0) =~= s.subrange(0, j0));
        assert forall|k: int| j0 <= k < s.len() implies is_space(#[trigger] s[k]) by {
            if k < s.len() - 1 {
                assert(s[k] == s.drop_last()[k]);
            }
        }
        j0
    } else {
        assert(s.subrange(0, s.len() as int) =~= s);
        s.len() as int
    }
}

/// Trimming keeps one contiguous stretch of the text: everything before it
/// and after it is white space, and the stretch, when not empty, neither
/// starts nor ends with white space.
pub proof fn lemma_trim_drops_outer_space(s: Seq<char>)
    ensures
        exists|i: int, j: int|
            {
                &&& 0 <= i <= j <= s.len()
                &&& trim(s) == s.subrange(i, j)
                &&& forall|k: int| 0 <= k < i ==> is_space(#[trigger] s[k])
                &&& forall|k: int| j <= k < s.len() ==> is_space(#[trigger] s[k])
                &&& i < j ==> !is_space(s[i]) && !is_space(s[j - 1])
            },
{
    let i = lemma_trim_start_cut(s);
    let rest = s.subrange(i, s.len() as int);
    let j0 = lemma_trim_end_cut(rest);
    let j = i + j0;
    assert(rest.subrange(0, j0) =~= s.subrange(i, j));
    assert forall|k: int| j <= k < s.len() implies is_space(#[trigger] s[k]) by {
        assert(s[k] == rest[k - i]);
    }
    if i < j {
        assert(s[j - 1] == rest[j0 - 1]);
    }
}

// ----- laws of CSV reading -----

/// A CSV line without double quotes has the fields that splitting it at
/// every comma gives.
pub proof fn lemma_csv_without_quotes(s: Seq<char>)
    requires
        !s.contains('"'),
    ensures
        csv_fields(s) == Some(split_on(s, ',')),
    decreases s.len(),
{
    if s.len() > 0 {
        let p = s.drop_last();
        assert(!p.contains('"')) by {
            if p.contains('"') {
                let k = choose|k: int| 0 <= k < p.len() && p[k] == '"';
                assert(s[k] == '"');
            }
        }
        assert(s.last() != '"') by {
            assert(s[s.len() - 1] == s.last());
        }
        lemma_csv_without_quotes(p);
        lemma_split_on_len(p, ',');
        let (done, cur, quoted) = csv_scan(p);
        assert(done.push(cur) == split_on(p, ','));
        if s.last() != ',' {
            assert(done.push(cur.push(s.last())) =~= split_on(p, ',').update(
                split_on(p, ',').len() - 1,
                split_on(p, ',').last().push(s.last()),
            ));
        } else {
            assert(done.push(cur).push(Seq::<char>::empty()) =~= split_on(p, ',').push(
                Seq::empty(),
            ));
        }
    } else {
        assert(Seq::<Seq<char>>::empty().push(Seq::<char>::empty()) =~= split_on(s, ','));
    }
}

/// A comma inside a quoted section stays in its field: in a line whose only
/// double quotes open and close `q`, with `q` free of quotes, the text of `q`
/// (commas included) is kept whole.
pub proof fn lemma_csv_quoted_comma_kept(a: Seq<char>, q: Seq<char>)
    requires
        !a.contains('"'),
        !q.contains('"'),
    ensures
        csv_fields(a + seq!['"'] + q + seq!['"']) == Some(
            split_on(a, ',').update(split_on(a, ',').len() - 1, split_on(a, ',').last() + q),
        ),
{
    lemma_csv_without_quotes(a);
    lemma_split_on_len(a, ',');
    let (done, cur, quoted) = csv_scan(a);
    assert(!quoted);
    let opened = a + seq!['"'];
    assert(opened.drop_last() =~= a);
    lemma_csv_quoted_run(opened, q);
    let closed = a + seq!['"'] + q + seq!['"'];
    assert(closed.drop_last() =~= opened + q);
    assert(closed.last() == '"');
    assert(done.push(cur + q) =~= split_on(a, ',').update(
        split_on(a, ',').len() - 1,
        split_on(a, ',').last() + q,
    ));
}

/// Inside an open quoted section, quote-free text (commas included) is
/// added to the current field.
proof fn lemma_csv_quoted_run(s: Seq<char>, q: Seq<char>)
    requires
        !q.contains('"'),
        csv_scan(s).2,
    ensures
        csv_scan(s + q) == (csv_scan(s).0, csv_scan(s).1 + q, true),
    decreases q.len(),
{
    if q.len() == 0 {
        assert(s + q =~= s);
        assert(csv_scan(s).1 + q =~= csv_scan(s).1);
    } else {
        let q0 = q.drop_last();
        assert(!q0.contains('"')) by {
            if q0.contains('"') {
                let k = choose|k: int| 0 <= k < q0.len() && q0[k] == '"';
                assert(q[k] == '"');
            }
        }
        assert(q.last() != '"') by {
            assert(q[q.len() - 1] == q.last());
        }
        lemma_csv_quoted_run(s, q0);
        assert((s + q).drop_last() =~= s + q0);
        assert((csv_scan(s).1 + q0).push(q.last()) =~= csv_scan(s).1 + q);
    }
}
} // verus!
