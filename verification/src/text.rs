//! Character-level text handling: whitespace, splitting, trimming, decimal
//! numbers and zero-padded formatting, all over sequences of `char`.
use vstd::prelude::*;

verus! {

/// `String::push`. Its contract claims that the string afterwards holds its
/// former characters followed by `c`.
#[verifier::external_body]
pub(crate) fn push_char(s: &mut String, c: char)
    ensures
        final(s)@ == old(s)@.push(c),
{
    s.push(c);
}

/// The characters of a string slice, in order.
pub fn chars_of(s: &str) -> (r: Vec<char>)
    ensures
        r@ == s@,
{
    let mut out: Vec<char> = Vec::new();
    for c in it: s.chars()
        invariant
            out@ == it.seq().take(it.index() as int),
            it.seq() == s@,
    {
        out.push(c);
    }
    out
}

/// A string holding exactly the given characters.
pub fn string_of(v: &Vec<char>) -> (r: String)
    ensures
        r@ == v@,
{
    let mut out = String::new();
    let mut i: usize = 0;
    while i < v.len()
        invariant
            i <= v.len(),
            out@ == v@.take(i as int),
        decreases v.len() - i,
    {
        push_char(&mut out, v[i]);
        i += 1;
        assert(out@ =~= v@.take(i as int));
    }
    assert(v@.take(v.len() as int) =~= v@);
    out
}

/// Unicode `White_Space`, the set that `char::is_whitespace` tests.
pub open spec fn is_ws(c: char) -> bool {
    let u = c as u32;
    ||| 9 <= u <= 13
    ||| u == 32
    ||| u == 0x85
    ||| u == 0xA0
    ||| u == 0x1680
    ||| 0x2000 <= u <= 0x200A
    ||| u == 0x2028
    ||| u == 0x2029
    ||| u == 0x202F
    ||| u == 0x205F
    ||| u == 0x3000
}

/// Whether `c` is a Unicode white-space character.
pub fn is_whitespace(c: char) -> (r: bool)
    ensures
        r == is_ws(c),
{
    let u = c as u32;
    (9 <= u && u <= 13) || u == 32 || u == 0x85 || u == 0xA0 || u == 0x1680 || (0x2000 <= u && u
        <= 0x200A) || u == 0x2028 || u == 0x2029 || u == 0x202F || u == 0x205F || u == 0x3000
}

/// The character sequences held by a sequence of character vectors.
pub open spec fn views(v: Seq<Vec<char>>) -> Seq<Seq<char>> {
    v.map_values(|x: Vec<char>| x@)
}

/// Pieces of `s` between occurrences of `sep` (as `str::split` with a char).
pub open spec fn split_on(s: Seq<char>, sep: char) -> Seq<Seq<char>>
    decreases s.len(),
{
    if s.len() == 0 {
        seq![Seq::<char>::empty()]
    } else {
        let prev = split_on(s.drop_last(), sep);
        if s.last() == sep {
            prev.push(Seq::<char>::empty())
        } else {
            prev.update(prev.len() - 1, prev.last().push(s.last()))
        }
    }
}

/// Splitting always gives at least one piece.
pub proof fn lemma_split_on_nonempty(s: Seq<char>, sep: char)
    ensures
        split_on(s, sep).len() >= 1,
    decreases s.len(),
{
    if s.len() > 0 {
        lemma_split_on_nonempty(s.drop_last(), sep);
    }
}

/// Splits `s` at every `sep`.
pub fn split_chars(s: &Vec<char>, sep: char) -> (r: Vec<Vec<char>>)
    ensures
        views(r@) == split_on(s@, sep),
{
    let mut pieces: Vec<Vec<char>> = Vec::new();
    let mut cur: Vec<char> = Vec::new();
    let mut i: usize = 0;
    assert(s@.take(0) =~= Seq::<char>::empty());
    while i < s.len()
        invariant
            i <= s.len(),
            views(pieces@).push(cur@) =~= split_on(s@.take(i as int), sep),
        decreases s.len() - i,
    {
        let c = s[i];
        proof {
            assert(s@.take(i + 1).drop_last() =~= s@.take(i as int));
            lemma_split_on_nonempty(s@.take(i as int), sep);
        }
        if c == sep {
            let piece = cur;
            pieces.push(piece);
            cur = Vec::new();
        } else {
            cur.push(c);
        }
        i += 1;
    }
    assert(s@.take(s.len() as int) =~= s@);
    pieces.push(cur);
    pieces
}

/// State of a left-to-right scan for white-space separated words: the
/// finished words and the word being read.
pub open spec fn words_scan(s: Seq<char>) -> (Seq<Seq<char>>, Seq<char>)
    decreases s.len(),
{
    if s.len() == 0 {
        (Seq::empty(), Seq::empty())
    } else {
        let (done, cur) = words_scan(s.drop_last());
        let c = s.last();
        if is_ws(c) {
            if cur.len() > 0 {
                (done.push(cur), Seq::empty())
            } else {
                (done, cur)
            }
        } else {
            (done, cur.push(c))
        }
    }
}

/// The non-empty maximal runs of non-white-space characters of `s`
/// (as `str::split_whitespace`).
pub open spec fn words(s: Seq<char>) -> Seq<Seq<char>> {
    let (done, cur) = words_scan(s);
    if cur.len() > 0 {
        done.push(cur)
    } else {
        done
    }
}

/// Splits `s` into white-space separated words.
pub fn split_words(s: &Vec<char>) -> (r: Vec<Vec<char>>)
    ensures
        views(r@) == words(s@),
{
    let mut done: Vec<Vec<char>> = Vec::new();
    let mut cur: Vec<char> = Vec::new();
    let mut i: usize = 0;
    assert(s@.take(0) =~= Seq::<char>::empty());
    while i < s.len()
        invariant
            i <= s.len(),
            (views(done@), cur@) == words_scan(s@.take(i as int)),
        decreases s.len() - i,
    {
        let c = s[i];
        proof {
            assert(s@.take(i + 1).drop_last() =~= s@.take(i as int));
        }
        if is_whitespace(c) {
            if cur.len() > 0 {
                let word = cur;
                done.push(word);
                cur = Vec::new();
                proof {
                    assert(views(done@) =~= words_scan(s@.take(i as int)).0.push(
                        words_scan(s@.take(i as int)).1,
                    ));
                }
            }
        } else {
            cur.push(c);
        }
        i += 1;
        assert((views(done@), cur@) == words_scan(s@.take(i as int)));
    }
    assert(s@.take(s.len() as int) =~= s@);
    if cur.len() > 0 {
        done.push(cur);
        assert(views(done@) =~= words(s@));
    }
    done
}

/// `s` without its trailing white space (as `str::trim_end`).
pub open spec fn trim_end(s: Seq<char>) -> Seq<char>
    decreases s.len(),
{
    if s.len() > 0 && is_ws(s.last()) {
        trim_end(s.drop_last())
    } else {
        s
    }
}

/// `s` without its leading white space (as `str::trim_start`).
pub open spec fn trim_start(s: Seq<char>) -> Seq<char>
    decreases s.len(),
{
    if s.len() > 0 && is_ws(s[0]) {
        trim_start(s.drop_first())
    } else {
        s
    }
}

/// `s` without leading and trailing white space (as `str::trim`).
pub open spec fn trim(s: Seq<char>) -> Seq<char> {
    trim_start(trim_end(s))
}

/// Removes trailing white space.
pub fn trim_end_chars(s: &Vec<char>) -> (r: Vec<char>)
    ensures
        r@ == trim_end(s@),
{
    let mut n = s.len();
    assert(s@.take(n as int) =~= s@);
    while n > 0 && is_whitespace(s[n - 1])
        invariant
            n <= s.len(),
            trim_end(s@) == trim_end(s@.take(n as int)),
        decreases n,
    {
        assert(s@.take(n - 1) =~= s@.take(n as int).drop_last());
        n -= 1;
    }
    let mut r: Vec<char> = Vec::new();
    let mut i: usize = 0;
    while i < n
        invariant
            i <= n <= s.len(),
            r@ =~= s@.take(i as int),
        decreases n - i,
    {
        r.push(s[i]);
        i += 1;
    }
    r
}

/// Removes leading white space.
pub fn trim_start_chars(s: &Vec<char>) -> (r: Vec<char>)
    ensures
        r@ == trim_start(s@),
{
    let mut k: usize = 0;
    assert(s@.skip(0) =~= s@);
    while k < s.len() && is_whitespace(s[k])
        invariant
            k <= s.len(),
            trim_start(s@) == trim_start(s@.skip(k as int)),
        decreases s.len() - k,
    {
        assert(s@.skip(k + 1) =~= s@.skip(k as int).drop_first());
        k += 1;
    }
    let mut r: Vec<char> = Vec::new();
    let mut i: usize = k;
    while i < s.len()
        invariant
            k <= i <= s.len(),
            r@ =~= s@.subrange(k as int, i as int),
        decreases s.len() - i,
    {
        r.push(s[i]);
        i += 1;
    }
    assert(r@ =~= s@.skip(k as int));
    r
}

/// Removes leading and trailing white space.
pub fn trim_chars(s: &Vec<char>) -> (r: Vec<char>)
    ensures
        r@ == trim(s@),
{
    let e = trim_end_chars(s);
    trim_start_chars(&e)
}

/// An ASCII decimal digit.
pub open spec fn is_digit(c: char) -> bool {
    48 <= c as u32 <= 57
}

/// Whether every character of `s` is an ASCII decimal digit.
pub open spec fn all_digits(s: Seq<char>) -> bool {
    forall|i: int| 0 <= i < s.len() ==> is_digit(#[trigger] s[i])
}

/// Value of the decimal numeral `s` (leading zeros allowed).
pub open spec fn digits_value(s: Seq<char>) -> int
    decreases s.len(),
{
    if s.len() == 0 {
        0
    } else {
        digits_value(s.drop_last()) * 10 + (s.last() as u32 - 48)
    }
}

/// The digits after an optional leading `+`.
pub open spec fn unsigned_body(s: Seq<char>) -> Seq<char> {
    if s.len() > 0 && s[0] == '+' {
        s.drop_first()
    } else {
        s
    }
}

/// What `from_str` of an unsigned integer type with maximum `max` accepts:
/// an optional `+` and then one or more ASCII digits whose value is at most `max`.
pub open spec fn parse_unsigned(s: Seq<char>, max: int) -> Option<int> {
    let b = unsigned_body(s);
    if b.len() > 0 && all_digits(b) && digits_value(b) <= max {
        Some(digits_value(b))
    } else {
        None
    }
}

/// What `from_str` of a signed integer type with range `min..=max` accepts:
/// `-` and one or more digits whose negated value is at least `min`, or what
/// `parse_unsigned(s, max)` accepts.
pub open spec fn parse_signed(s: Seq<char>, min: int, max: int) -> Option<int> {
    if s.len() > 0 && s[0] == '-' {
        let b = s.drop_first();
        if b.len() > 0 && all_digits(b) && -digits_value(b) >= min {
            Some(-digits_value(b))
        } else {
            None
        }
    } else {
        parse_unsigned(s, max)
    }
}

proof fn lemma_digits_value_nonneg(s: Seq<char>)
    requires
        all_digits(s),
    ensures
        digits_value(s) >= 0,
    decreases s.len(),
{
    if s.len() > 0 {
        lemma_digits_value_nonneg(s.drop_last());
    }
}

/// Value of the digits `s[from..]`, or `None` when one is not a digit or the
/// value exceeds `max`.
fn digits_from(s: &Vec<char>, from: usize, max: u64) -> (r: Option<u64>)
    requires
        from <= s.len(),
    ensures
        ({
            let b = s@.skip(from as int);
            match r {
                Some(v) => all_digits(b) && digits_value(b) <= max && v == digits_value(b),
                None => !(all_digits(b) && digits_value(b) <= max),
            }
        }),
{
    let ghost b = s@.skip(from as int);
    let mut acc: u128 = 0;
    let mut over = false;
    let mut i: usize = from;
    assert(b.take(0) =~= Seq::<char>::empty());
    while i < s.len()
        invariant
            from <= i <= s.len(),
            b == s@.skip(from as int),
            all_digits(b.take(i - from)),
            over <==> digits_value(b.take(i - from)) > max,
            !over ==> acc == digits_value(b.take(i - from)),
            acc <= max,
        decreases s.len() - i,
    {
        let c = s[i];
        let u = c as u32;
        proof {
            assert(b.take(i - from + 1).drop_last() =~= b.take(i - from));
            assert(b[i - from] == c);
            lemma_digits_value_nonneg(b.take(i - from));
        }
        if u < 48 || u > 57 {
            proof {
                assert(!is_digit(b[i - from]));
            }
            return None;
        }
        if !over {
            let next = acc * 10 + (u - 48) as u128;
            if next > max as u128 {
                over = true;
            } else {
                acc = next;
            }
        }
        i += 1;
        proof {
            assert forall|j: int| 0 <= j < b.take(i - from).len() implies is_digit(
                #[trigger] b.take(i - from)[j],
            ) by {
                if j < i - from - 1 {
                    assert(b.take(i - from)[j] == b.take(i - from - 1)[j]);
                }
            }
        }
    }
    assert(b.take(s.len() - from) =~= b);
    if over {
        None
    } else {
        Some(acc as u64)
    }
}

/// Parses an unsigned decimal number of at most `max`, as `from_str` of an
/// unsigned integer type whose maximum is `max`.
pub fn parse_unsigned_chars(s: &Vec<char>, max: u64) -> (r: Option<u64>)
    ensures
        match r {
            Some(v) => parse_unsigned(s@, max as int) == Some(v as int) && v <= max,
            None => parse_unsigned(s@, max as int) is None,
        },
{
    if s.len() > 0 && s[0] == '+' {
        assert(s@.skip(1) =~= s@.drop_first());
        if s.len() == 1 {
            return None;
        }
        digits_from(s, 1, max)
    } else {
        assert(s@.skip(0) =~= s@);
        if s.len() == 0 {
            return None;
        }
        digits_from(s, 0, max)
    }
}

/// Parses a signed decimal number in `min..=max` with `-max - 1 <= min <= 0`,
/// as `from_str` of a signed integer type with that range.
pub fn parse_signed_chars(s: &Vec<char>, min: i64, max: i64) -> (r: Option<i64>)
    requires
        0 <= max < i64::MAX,
        -max - 1 <= min <= 0,
    ensures
        match r {
            Some(v) => parse_signed(s@, min as int, max as int) == Some(v as int) && min <= v <= max,
            None => parse_signed(s@, min as int, max as int) is None,
        },
{
    if s.len() > 0 && s[0] == '-' {
        assert(s@.skip(1) =~= s@.drop_first());
        if s.len() == 1 {
            return None;
        }
        match digits_from(s, 1, (-min) as u64) {
            Some(v) => Some(-(v as i64)),
            None => None,
        }
    } else {
        match parse_unsigned_chars(s, max as u64) {
            Some(v) => Some(v as i64),
            None => None,
        }
    }
}

/// The character of the decimal digit `d`.
pub open spec fn digit_char(d: int) -> char {
    (d + 48) as char
}

/// Decimal numeral of `n` without leading zeros.
pub open spec fn nat_digits(n: nat) -> Seq<char>
    decreases n,
{
    if n < 10 {
        seq![digit_char(n as int)]
    } else {
        nat_digits(n / 10).push(digit_char(n as int % 10))
    }
}

/// `s` left-padded with `0` to at least `w` characters.
pub open spec fn zero_pad(s: Seq<char>, w: int) -> Seq<char> {
    if s.len() >= w {
        s
    } else {
        Seq::new((w - s.len()) as nat, |i: int| '0') + s
    }
}

/// `format!("{:0w$}", n)` for a non-negative integer.
pub open spec fn fmt_unsigned(n: nat, w: int) -> Seq<char> {
    zero_pad(nat_digits(n), w)
}

/// `format!("{:0w$}", n)` for a signed integer: the sign counts towards the width.
pub open spec fn fmt_signed(n: int, w: int) -> Seq<char> {
    if n < 0 {
        seq!['-'] + zero_pad(nat_digits((-n) as nat), w - 1)
    } else {
        zero_pad(nat_digits(n as nat), w)
    }
}

fn digit_to_char(d: u64) -> (c: char)
    requires
        d < 10,
    ensures
        c == digit_char(d as int),
{
    let b = (48 + d) as u8;
    b as char
}

spec fn pow10(k: nat) -> nat
    decreases k,
{
    if k == 0 {
        1
    } else {
        10 * pow10((k - 1) as nat)
    }
}

proof fn lemma_digits_len_bound(n: nat, k: nat)
    requires
        1 <= k,
        n < pow10(k),
    ensures
        nat_digits(n).len() <= k,
    decreases n,
{
    if n >= 10 {
        assert(k >= 2) by {
            if k == 1 {
                assert(pow10(1) == 10 * pow10(0));
            }
        }
        assert(pow10(k) == 10 * pow10((k - 1) as nat));
        lemma_digits_len_bound(n / 10, (k - 1) as nat);
    }
}

/// Number of decimal digits of `n`.
fn digit_count(n: u64) -> (r: usize)
    ensures
        r == nat_digits(n as nat).len(),
        r <= 20,
    decreases n,
{
    proof {
        assert(pow10(20) == 100000000000000000000) by {
            reveal_with_fuel(pow10, 21);
        }
        lemma_digits_len_bound(n as nat, 20);
    }
    if n < 10 {
        1
    } else {
        digit_count(n / 10) + 1
    }
}

/// Appends the decimal numeral of `n`.
pub fn push_digits(out: &mut String, n: u64)
    ensures
        final(out)@ == old(out)@ + nat_digits(n as nat),
    decreases n,
{
    if n < 10 {
        push_char(out, digit_to_char(n));
        assert(old(out)@.push(digit_char(n as int)) =~= old(out)@ + nat_digits(n as nat));
    } else {
        push_digits(out, n / 10);
        push_char(out, digit_to_char(n % 10));
        assert((old(out)@ + nat_digits((n / 10) as nat)).push(digit_char(n as int % 10))
            =~= old(out)@ + nat_digits(n as nat));
    }
}

/// Appends `n` zero-padded to `width` characters.
pub fn push_unsigned_padded(out: &mut String, n: u64, width: usize)
    ensures
        final(out)@ == old(out)@ + fmt_unsigned(n as nat, width as int),
{
    let len = digit_count(n);
    if len < width {
        let mut k: usize = len;
        while k < width
            invariant
                len <= k <= width,
                out@ =~= old(out)@ + Seq::new((k - len) as nat, |i: int| '0'),
            decreases width - k,
        {
            push_char(out, '0');
            k += 1;
        }
    }
    let ghost mid = out@;
    push_digits(out, n);
    assert(out@ =~= old(out)@ + fmt_unsigned(n as nat, width as int));
}

/// Appends `n` zero-padded to `width` characters, the sign included.
pub fn push_signed_padded(out: &mut String, n: i64, width: usize)
    requires
        n > i64::MIN,
    ensures
        final(out)@ == old(out)@ + fmt_signed(n as int, width as int),
{
    if n < 0 {
        push_char(out, '-');
        let w = if width > 0 { width - 1 } else { 0 };
        push_unsigned_padded(out, (-n) as u64, w);
        assert(out@ =~= old(out)@ + fmt_signed(n as int, width as int));
    } else {
        push_unsigned_padded(out, n as u64, width);
    }
}

/// Appending characters that are not white space extends the word being read.
pub proof fn lemma_words_scan_extend(p: Seq<char>, s: Seq<char>)
    requires
        forall|i: int| 0 <= i < s.len() ==> !is_ws(#[trigger] s[i]),
    ensures
        words_scan(p + s) == (words_scan(p).0, words_scan(p).1 + s),
    decreases s.len(),
{
    if s.len() == 0 {
        assert(p + s =~= p);
        assert(words_scan(p).1 + s =~= words_scan(p).1);
    } else {
        let s0 = s.drop_last();
        lemma_words_scan_extend(p, s0);
        assert((p + s).drop_last() =~= p + s0);
        assert((p + s).last() == s.last());
        assert(words_scan(p).1 + s0 + seq![s.last()] =~= words_scan(p).1 + s);
        assert((words_scan(p).1 + s0).push(s.last()) =~= words_scan(p).1 + s);
    }
}

/// The words of `a`, one white-space character and `b`, where `a` and `b` are
/// non-empty and hold no white space, are `a` and `b`.
pub proof fn lemma_words_two(a: Seq<char>, w: char, b: Seq<char>)
    requires
        a.len() > 0,
        b.len() > 0,
        is_ws(w),
        forall|i: int| 0 <= i < a.len() ==> !is_ws(#[trigger] a[i]),
        forall|i: int| 0 <= i < b.len() ==> !is_ws(#[trigger] b[i]),
    ensures
        words(a + seq![w] + b) == seq![a, b],
{
    let e = Seq::<char>::empty();
    lemma_words_scan_extend(e, a);
    assert(e + a =~= a);
    assert(words_scan(e) == (Seq::<Seq<char>>::empty(), e));
    assert(e + a =~= a);
    let aw = a + seq![w];
    assert(aw.drop_last() =~= a);
    assert(words_scan(aw) == (seq![a], e));
    lemma_words_scan_extend(aw, b);
    assert(e + b =~= b);
    assert(seq![a].push(b) =~= seq![a, b]);
}

/// Appending characters other than `sep` extends the last piece.
pub proof fn lemma_split_on_extend(p: Seq<char>, s: Seq<char>, sep: char)
    requires
        forall|i: int| 0 <= i < s.len() ==> #[trigger] s[i] != sep,
    ensures
        split_on(p + s, sep) == split_on(p, sep).update(
            split_on(p, sep).len() - 1,
            split_on(p, sep).last() + s,
        ),
    decreases s.len(),
{
    lemma_split_on_nonempty(p, sep);
    if s.len() == 0 {
        assert(p + s =~= p);
        assert(split_on(p, sep).last() + s =~= split_on(p, sep).last());
        assert(split_on(p, sep).update(split_on(p, sep).len() - 1, split_on(p, sep).last())
            =~= split_on(p, sep));
    } else {
        let s0 = s.drop_last();
        lemma_split_on_extend(p, s0, sep);
        assert((p + s).drop_last() =~= p + s0);
        assert((p + s).last() == s.last());
        assert((split_on(p, sep).last() + s0).push(s.last()) =~= split_on(p, sep).last() + s);
        assert(split_on(p + s, sep) =~= split_on(p, sep).update(
            split_on(p, sep).len() - 1,
            split_on(p, sep).last() + s,
        ));
    }
}

/// A piece without `sep` splits into itself.
pub proof fn lemma_split_on_single(a: Seq<char>, sep: char)
    requires
        forall|i: int| 0 <= i < a.len() ==> #[trigger] a[i] != sep,
    ensures
        split_on(a, sep) == seq![a],
{
    let e = Seq::<char>::empty();
    lemma_split_on_extend(e, a, sep);
    assert(e + a =~= a);
    assert(seq![e].update(0, e + a) =~= seq![a]);
}

/// Joining pieces without `sep` by `sep` and splitting again gives the pieces back.
pub proof fn lemma_split_on_join(pieces: Seq<Seq<char>>, sep: char)
    requires
        pieces.len() >= 1,
        forall|k: int, i: int|
            0 <= k < pieces.len() && 0 <= i < pieces[k].len() ==> #[trigger] pieces[k][i] != sep,
    ensures
        split_on(join_with(pieces, sep), sep) == pieces,
    decreases pieces.len(),
{
    if pieces.len() == 1 {
        assert(pieces[0] == pieces[0]);
        lemma_split_on_single(pieces[0], sep);
        assert(seq![pieces[0]] =~= pieces);
    } else {
        let init = pieces.drop_last();
        assert forall|k: int, i: int|
            0 <= k < init.len() && 0 <= i < init[k].len() implies #[trigger] init[k][i] != sep by {
            assert(init[k] == pieces[k]);
        }
        lemma_split_on_join(init, sep);
        let p = join_with(init, sep).push(sep);
        assert(p.drop_last() =~= join_with(init, sep));
        lemma_split_on_nonempty(join_with(init, sep), sep);
        assert(split_on(p, sep) =~= init.push(Seq::<char>::empty()));
        let last = pieces.last();
        assert forall|i: int| 0 <= i < last.len() implies #[trigger] last[i] != sep by {
            assert(pieces[pieces.len() - 1][i] != sep);
        }
        lemma_split_on_extend(p, last, sep);
        assert(Seq::<char>::empty() + last =~= last);
        assert(init.push(Seq::<char>::empty()).update(init.len() as int, last) =~= pieces);
    }
}

/// Pieces joined by `sep` (as `[..].join(sep)`).
pub open spec fn join_with(pieces: Seq<Seq<char>>, sep: char) -> Seq<char>
    decreases pieces.len(),
{
    if pieces.len() == 0 {
        Seq::empty()
    } else if pieces.len() == 1 {
        pieces[0]
    } else {
        join_with(pieces.drop_last(), sep).push(sep) + pieces.last()
    }
}

/// Trimming leaves text that starts and ends with non-white-space characters unchanged.
pub proof fn lemma_trim_unchanged(s: Seq<char>)
    requires
        s.len() > 0,
        !is_ws(s[0]),
        !is_ws(s.last()),
    ensures
        trim(s) == s,
        trim_end(s) == s,
{
}

proof fn lemma_zeros_value(k: nat)
    ensures
        all_digits(Seq::new(k, |i: int| '0')),
        digits_value(Seq::new(k, |i: int| '0')) == 0,
    decreases k,
{
    if k > 0 {
        lemma_zeros_value((k - 1) as nat);
        assert(Seq::new(k, |i: int| '0').drop_last() =~= Seq::new((k - 1) as nat, |i: int| '0'));
    }
}

proof fn lemma_digits_value_prefix(z: Seq<char>, s: Seq<char>)
    requires
        digits_value(z) == 0,
    ensures
        digits_value(z + s) == digits_value(s),
    decreases s.len(),
{
    if s.len() == 0 {
        assert(z + s =~= z);
    } else {
        lemma_digits_value_prefix(z, s.drop_last());
        assert((z + s).drop_last() =~= z + s.drop_last());
        assert((z + s).last() == s.last());
    }
}

proof fn lemma_digit_char(d: int)
    requires
        0 <= d < 10,
    ensures
        digit_char(d) as u32 == d + 48,
{
}

/// The numeral of `n` consists of digits and has value `n`.
pub proof fn lemma_nat_digits(n: nat)
    ensures
        nat_digits(n).len() >= 1,
        all_digits(nat_digits(n)),
        digits_value(nat_digits(n)) == n,
    decreases n,
{
    if n < 10 {
        lemma_digit_char(n as int);
        assert(nat_digits(n).drop_last() =~= Seq::<char>::empty());
        assert(digits_value(Seq::<char>::empty()) == 0);
        assert(digits_value(nat_digits(n)) == n);
    } else {
        lemma_nat_digits(n / 10);
        vstd::arithmetic::div_mod::lemma_fundamental_div_mod(n as int, 10);
        vstd::arithmetic::div_mod::lemma_mod_bound(n as int, 10);
        lemma_digit_char(n as int % 10);
        let s = nat_digits(n);
        assert(s.drop_last() =~= nat_digits(n / 10));
        assert(digits_value(s) == digits_value(nat_digits(n / 10)) * 10 + n % 10);
        assert forall|i: int| 0 <= i < s.len() implies is_digit(#[trigger] s[i]) by {
            if i < s.len() - 1 {
                assert(s[i] == nat_digits(n / 10)[i]);
            }
        }
    }
}

/// A zero-padded numeral of `n` consists of digits, is non-empty and has value `n`.
pub proof fn lemma_fmt_unsigned(n: nat, w: int)
    ensures
        fmt_unsigned(n, w).len() >= 1,
        fmt_unsigned(n, w).len() >= w,
        all_digits(fmt_unsigned(n, w)),
        digits_value(fmt_unsigned(n, w)) == n,
{
    lemma_nat_digits(n);
    let d = nat_digits(n);
    if d.len() < w {
        let z = Seq::new((w - d.len()) as nat, |i: int| '0');
        lemma_zeros_value((w - d.len()) as nat);
        lemma_digits_value_prefix(z, d);
        assert forall|i: int| 0 <= i < (z + d).len() implies is_digit(#[trigger] (z + d)[i]) by {
            if i < z.len() {
                assert((z + d)[i] == z[i]);
            } else {
                assert((z + d)[i] == d[i - z.len()]);
            }
        }
    }
}

/// Reading back a zero-padded numeral of `n <= max` gives `n`.
pub proof fn lemma_parse_fmt_unsigned(n: nat, w: int, max: int)
    requires
        n <= max,
    ensures
        parse_unsigned(fmt_unsigned(n, w), max) == Some(n as int),
{
    lemma_fmt_unsigned(n, w);
    let s = fmt_unsigned(n, w);
    assert(is_digit(s[0]));
}

/// Reading back a zero-padded numeral of `min <= n <= max` gives `n`.
pub proof fn lemma_parse_fmt_signed(n: int, w: int, min: int, max: int)
    requires
        min <= n <= max,
    ensures
        parse_signed(fmt_signed(n, w), min, max) == Some(n),
{
    if n >= 0 {
        lemma_parse_fmt_unsigned(n as nat, w, max);
        lemma_fmt_unsigned(n as nat, w);
        assert(is_digit(fmt_signed(n, w)[0]));
    } else {
        lemma_fmt_unsigned((-n) as nat, w - 1);
        let s = fmt_signed(n, w);
        assert(s.drop_first() =~= fmt_unsigned((-n) as nat, w - 1));
    }
}

/// Characters of a numeral are digits except a leading `-`; it is not empty
/// and ends with a digit.
pub proof fn lemma_fmt_signed_chars(n: int, w: int)
    ensures
        fmt_signed(n, w).len() > 0,
        is_digit(fmt_signed(n, w).last()),
        forall|i: int|
            0 <= i < fmt_signed(n, w).len() ==> is_digit(#[trigger] fmt_signed(n, w)[i])
                || fmt_signed(n, w)[i] == '-',
{
    if n >= 0 {
        lemma_fmt_unsigned(n as nat, w);
    } else {
        lemma_fmt_unsigned((-n) as nat, w - 1);
        let s = fmt_signed(n, w);
        let d = fmt_unsigned((-n) as nat, w - 1);
        assert(s == seq!['-'] + d);
        assert(s.last() == d.last());
        assert forall|i: int| 0 <= i < s.len() implies is_digit(#[trigger] s[i]) || s[i] == '-' by {
            if i > 0 {
                assert(s[i] == d[i - 1]);
            }
        }
    }
}

} // verus!
